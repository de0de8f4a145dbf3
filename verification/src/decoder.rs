//! Decoding of delimited text into variables.
//!
//! A row is cut into fields by a quotation-aware scan: at each position the
//! next field is either a full quoted span (when one starts and closes
//! there) or the run of characters up to the next comma; empty fields
//! between commas are kept, while the empty match right after a field is
//! not a field of its own. The enclosing quotation marks of a quoted field
//! are stripped.

use crate::value::{chars_of, from_raw, index_of_from, lemma_index_of_from_props, string_range};
use crate::variable::{MappingModel, Variable};
use vstd::prelude::*;

verus! {

/// Where the field beginning at `p` ends: after the closing mark of a
/// quoted span, or at the next comma (which may be at `p` itself, making
/// the field empty), or at the end of the row.
pub open spec fn match_end(s: Seq<char>, p: int) -> int {
    if p >= s.len() {
        p
    } else if s[p] == '"' && index_of_from(s, '"', p + 1) < s.len() {
        index_of_from(s, '"', p + 1) + 1
    } else {
        index_of_from(s, ',', p)
    }
}

proof fn lemma_match_end_bounds(s: Seq<char>, p: int)
    requires
        0 <= p <= s.len(),
    ensures
        p <= match_end(s, p) <= s.len(),
{
    if p < s.len() {
        if s[p] == '"' {
            lemma_index_of_from_props(s, '"', p + 1);
        }
        lemma_index_of_from_props(s, ',', p);
    }
}

/// The raw fields of `s` from position `p` on, `lm` being the end of the
/// last field yielded (or a negative number when none was): an empty match
/// at the very end of the previous field is skipped, any other is an empty
/// field.
pub open spec fn fields_from(s: Seq<char>, p: int, lm: int) -> Seq<Seq<char>>
    decreases s.len() - p + 1,
    when 0 <= p
    via fields_from_dec
{
    if p > s.len() {
        Seq::empty()
    } else {
        let e = match_end(s, p);
        if e == p {
            if p == lm {
                fields_from(s, p + 1, lm)
            } else {
                seq![Seq::<char>::empty()] + fields_from(s, p + 1, p)
            }
        } else {
            seq![s.subrange(p, e)] + fields_from(s, e, e)
        }
    }
}

#[via_fn]
proof fn fields_from_dec(s: Seq<char>, p: int, lm: int) {
    if p <= s.len() {
        lemma_match_end_bounds(s, p);
    }
}

/// A field with its enclosing quotation marks stripped when it both starts
/// and ends with one.
pub open spec fn strip_quotes(f: Seq<char>) -> Seq<char> {
    if f.len() >= 2 && f[0] == '"' && f[f.len() - 1] == '"' {
        f.subrange(1, f.len() - 1)
    } else {
        f
    }
}

/// All fields of a row, stripped.
pub open spec fn split_fields(row: Seq<char>) -> Seq<Seq<char>> {
    fields_from(row, 0, -1).map_values(|f: Seq<char>| strip_quotes(f))
}

/// The column names a header line yields: none when the line is empty.
pub open spec fn header_names(first: Seq<char>) -> Seq<Seq<char>> {
    if first.len() == 0 {
        Seq::empty()
    } else {
        split_fields(first)
    }
}

/// The accepted data rows, each as its field list: empty lines and rows
/// whose last field is empty are dropped, and a row with the wrong number
/// of fields fails the whole load.
pub open spec fn data_rows(lines: Seq<Seq<char>>, ncols: int) -> Result<
    Seq<Seq<Seq<char>>>,
    Seq<char>,
>
    decreases lines.len(),
{
    if lines.len() == 0 {
        Ok(Seq::empty())
    } else {
        let line = lines[0];
        let rest = lines.skip(1);
        if line.len() == 0 {
            data_rows(rest, ncols)
        } else {
            let fs = split_fields(line);
            if fs.len() > 0 && fs.last().len() == 0 {
                data_rows(rest, ncols)
            } else if fs.len() != ncols {
                Err("Number of values differ between rows in this file."@)
            } else {
                match data_rows(rest, ncols) {
                    Ok(rs) => Ok(seq![fs] + rs),
                    Err(e) => Err(e),
                }
            }
        }
    }
}

/// What a whole load yields: the column names and the accepted rows, or
/// the first failure.
pub open spec fn load_result(lines: Seq<Seq<char>>) -> Result<
    (Seq<Seq<char>>, Seq<Seq<Seq<char>>>),
    Seq<char>,
> {
    if lines.len() == 0 {
        Err("The file appears to be empty."@)
    } else {
        let names = header_names(lines[0]);
        match data_rows(lines.skip(1), names.len() as int) {
            Err(e) => Err(e),
            Ok(rows) => Ok((names, rows)),
        }
    }
}

/// Every accepted row has exactly `ncols` fields.
pub proof fn lemma_data_rows_width(lines: Seq<Seq<char>>, ncols: int)
    requires
        data_rows(lines, ncols) is Ok,
    ensures
        forall|t: int|
            0 <= t < data_rows(lines, ncols)->Ok_0.len() ==> (#[trigger] data_rows(
                lines,
                ncols,
            )->Ok_0[t]).len() == ncols,
    decreases lines.len(),
{
    if lines.len() > 0 {
        let line = lines[0];
        let rest = lines.skip(1);
        if line.len() == 0 {
            lemma_data_rows_width(rest, ncols);
        } else {
            let fs = split_fields(line);
            if fs.len() > 0 && fs.last().len() == 0 {
                lemma_data_rows_width(rest, ncols);
            } else {
                lemma_data_rows_width(rest, ncols);
                let rs = data_rows(rest, ncols)->Ok_0;
                assert(forall|t: int|
                    1 <= t < (seq![fs] + rs).len() ==> (seq![fs] + rs)[t] == rs[t - 1]);
            }
        }
    }
}

/// The rows already accepted put before a later outcome.
pub open spec fn prepend_rows(
    acc: Seq<Seq<Seq<char>>>,
    res: Result<Seq<Seq<Seq<char>>>, Seq<char>>,
) -> Result<Seq<Seq<Seq<char>>>, Seq<char>> {
    match res {
        Ok(rs) => Ok(acc + rs),
        Err(e) => Err(e),
    }
}

/// Reader of the delimited input format.
pub struct Decoder;

impl Decoder {
    /// Cuts one row into its stripped fields. An empty row has nothing to
    /// split.
    pub fn split(row: &str) -> (r: Result<Vec<String>, &'static str>)
        ensures
            ({
                match r {
                    Ok(fs) => row@.len() > 0 && fs.deep_view() == split_fields(row@),
                    Err(e) => row@.len() == 0 && e@ == "Nothing to split."@,
                }
            }),
    {
        let chars = chars_of(row);
        let n = chars.len();
        if n == 0 {
            return Err("Nothing to split.");
        }
        let ghost s = row@;
        let mut raw: Vec<String> = Vec::new();
        let mut p: usize = 0;
        let mut last: Option<usize> = None;
        proof {
            assert(raw.deep_view() =~= Seq::<Seq<char>>::empty());
            assert(Seq::<Seq<char>>::empty() + fields_from(s, 0, -1) =~= fields_from(s, 0, -1));
        }
        loop
            invariant_except_break
                p <= n,
                n == s.len(),
                chars@ == s,
                n == chars@.len(),
                raw.deep_view() + fields_from(
                    s,
                    p as int,
                    match last {
                        Some(l) => l as int,
                        None => -1,
                    },
                ) == fields_from(s, 0, -1),
                match last {
                    Some(l) => l <= n,
                    None => true,
                },
            ensures
                raw.deep_view() == fields_from(s, 0, -1),
            decreases n - p,
        {
            let ghost lm: int = match last {
                Some(l) => l as int,
                None => -1int,
            };
            proof {
                lemma_match_end_bounds(s, p as int);
            }
            let e = Self::match_end_exec(&chars, p);
            if e == p {
                let skip_this = match last {
                    Some(l) => l == p,
                    None => false,
                };
                if !skip_this {
                    let ghost before = raw.deep_view();
                    raw.push(String::new());
                    proof {
                        assert(raw.deep_view() =~= before.push(Seq::<char>::empty()));
                        assert(raw.deep_view() + fields_from(s, p + 1, p as int) =~= fields_from(
                            s,
                            0,
                            -1,
                        ));
                    }
                    last = Some(p);
                }
                if p == n {
                    proof {
                        assert(fields_from(s, p + 1, p as int) =~= Seq::<Seq<char>>::empty());
                        assert(raw.deep_view() + Seq::<Seq<char>>::empty() =~= raw.deep_view());
                    }
                    break;
                }
                p = p + 1;
            } else {
                let f = string_range(&chars, p, e);
                let ghost before = raw.deep_view();
                raw.push(f);
                proof {
                    assert(raw.deep_view() =~= before.push(s.subrange(p as int, e as int)));
                    assert(raw.deep_view() + fields_from(s, e as int, e as int) =~= fields_from(
                        s,
                        0,
                        -1,
                    ));
                }
                p = e;
                last = Some(e);
            }
        }
        // Strip the enclosing quotation marks of each field.
        let ghost rawfs = raw.deep_view();
        let mut out: Vec<String> = Vec::new();
        let mut k: usize = 0;
        proof {
            assert(out.deep_view() =~= rawfs.take(0).map_values(|f: Seq<char>| strip_quotes(f)));
        }
        while k < raw.len()
            invariant
                k <= raw@.len(),
                rawfs == raw.deep_view(),
                out.deep_view() == rawfs.take(k as int).map_values(
                    |f: Seq<char>| strip_quotes(f),
                ),
            decreases raw@.len() - k,
        {
            let f = Self::strip_exec(&raw[k]);
            let ghost fm = f@;
            let ghost before = out.deep_view();
            out.push(f);
            proof {
                assert(fm == strip_quotes(rawfs[k as int]));
                assert(out.deep_view() =~= before.push(fm));
                assert(before.push(fm) =~= rawfs.take(k + 1).map_values(
                    |f: Seq<char>| strip_quotes(f),
                ));
            }
            k += 1;
        }
        proof {
            assert(rawfs.take(rawfs.len() as int) =~= rawfs);
        }
        Ok(out)
    }

    /// Decodes the lines of a file: the first line names one variable per
    /// field, every later accepted row adds one value to each. On failure
    /// nothing is retained: no variables and a zero row count.
    #[verifier::loop_isolation(false)]
    pub fn load(lines: &Vec<String>, variables: &mut Vec<Variable>, rows: &mut usize) -> (r:
        Result<(), &'static str>)
        ensures
            ({
                let res = load_result(lines.deep_view());
                match (r, res) {
                    (Err(e), Err(m)) => e@ == m && final(variables)@.len() == 0 && *final(rows)
                        == 0,
                    (Ok(u), Ok(nr)) => {
                        &&& final(variables)@.len() == nr.0.len()
                        &&& *final(rows) == nr.1.len()
                        &&& forall|k: int|
                            0 <= k < nr.0.len() ==> {
                                let v = #[trigger] final(variables)@[k];
                                &&& v.wf()
                                &&& v.name@ == nr.0[k]
                                &&& v.is_included
                                &&& !v.is_numeric
                                &&& v.mapping@ == MappingModel::Recode
                                &&& v.backup@.len() == 0
                                &&& v.values.deep_view() == Seq::new(
                                    nr.1.len(),
                                    |t: int| from_raw(nr.1[t][k]),
                                )
                            }
                    },
                    _ => false,
                }
            }),
    {
        variables.clear();
        *rows = 0;
        let ghost lds = lines.deep_view();
        if lines.len() == 0 {
            return Err("The file appears to be empty.");
        }
        let names: Vec<String> = if lines[0].as_str().is_empty() {
            Vec::new()
        } else {
            match Self::split(lines[0].as_str()) {
                Ok(fs) => fs,
                Err(e) => {
                    return Err(e);
                },
            }
        };
        let ghost nd = names.deep_view();
        proof {
            if lds[0].len() == 0 {
                assert(nd =~= header_names(lds[0]));
            }
            assert(nd == header_names(lds[0]));
        }
        let ncols = names.len();
        // First pass: check every row and gather the accepted ones.
        let mut rowsf: Vec<Vec<String>> = Vec::new();
        let mut li: usize = 1;
        proof {
            assert(lds.skip(1) =~= lds.skip(1));
            assert(rowsf.deep_view() =~= Seq::<Seq<Seq<char>>>::empty());
            assert(prepend_rows(
                Seq::<Seq<Seq<char>>>::empty(),
                data_rows(lds.skip(1), ncols as int),
            ) == data_rows(lds.skip(1), ncols as int)) by {
                match data_rows(lds.skip(1), ncols as int) {
                    Ok(rs) => {
                        assert(Seq::<Seq<Seq<char>>>::empty() + rs =~= rs);
                    },
                    Err(e) => {},
                }
            }
        }
        while li < lines.len()
            invariant
                1 <= li <= lines@.len(),
                prepend_rows(rowsf.deep_view(), data_rows(lds.skip(li as int), ncols as int))
                    == data_rows(lds.skip(1), ncols as int),
                forall|t: int|
                    0 <= t < rowsf@.len() ==> (#[trigger] rowsf.deep_view()[t]).len() == ncols,
                variables@.len() == 0,
                *rows == 0,
            decreases lines@.len() - li,
        {
            let ghost rest = lds.skip(li as int);
            proof {
                assert(rest[0] == lds[li as int]);
                assert(rest.skip(1) =~= lds.skip(li + 1));
            }
            let line = lines[li].as_str();
            if line.is_empty() {
                li += 1;
                continue;
            }
            let fs = match Self::split(line) {
                Ok(fs) => fs,
                Err(e) => {
                    return Err(e);
                },
            };
            let ghost fsd = fs.deep_view();
            let flen = fs.len();
            if flen > 0 && fs[flen - 1].as_str().is_empty() {
                proof {
                    assert(fsd.last() == fsd[flen - 1]);
                }
                li += 1;
                continue;
            }
            if flen != ncols {
                return Err("Number of values differ between rows in this file.");
            }
            let ghost before = rowsf.deep_view();
            rowsf.push(fs);
            proof {
                assert(rowsf.deep_view() =~= before.push(fsd));
                match data_rows(lds.skip(li + 1), ncols as int) {
                    Ok(rs) => {
                        assert(before + (seq![fsd] + rs) =~= before.push(fsd) + rs);
                    },
                    Err(e) => {},
                }
            }
            li += 1;
        }
        proof {
            assert(lds.skip(lds.len() as int) =~= Seq::<Seq<char>>::empty());
            assert(data_rows(lds.skip(lds.len() as int), ncols as int) == Ok::<_, Seq<char>>(
                Seq::<Seq<Seq<char>>>::empty(),
            ));
            match data_rows(lds.skip(1), ncols as int) {
                Ok(rs) => {
                    assert(rowsf.deep_view() + Seq::<Seq<Seq<char>>>::empty() =~= rowsf.deep_view());
                },
                Err(e) => {},
            }
        }
        let ghost rd = rowsf.deep_view();
        // Second pass: build one variable per column.
        let nrows = rowsf.len();
        let mut k: usize = 0;
        while k < ncols
            invariant
                k <= ncols,
                variables@.len() == k,
                forall|j: int|
                    0 <= j < k ==> {
                        let v = #[trigger] variables@[j];
                        &&& v.wf()
                        &&& v.name@ == nd[j]
                        &&& v.is_included
                        &&& !v.is_numeric
                        &&& v.mapping@ == MappingModel::Recode
                        &&& v.backup@.len() == 0
                        &&& v.values.deep_view() == Seq::new(rd.len(), |t: int| from_raw(rd[t][j]))
                    },
            decreases ncols - k,
        {
            let mut var = Variable::new(names[k].as_str());
            let mut t: usize = 0;
            proof {
                assert(var.values.deep_view() =~= Seq::new(0, |u: int| from_raw(rd[u][k as int])));
            }
            while t < nrows
                invariant
                    t <= nrows,
                    k < ncols,
                    var.wf(),
                    var.name@ == nd[k as int],
                    var.is_included,
                    !var.is_numeric,
                    var.mapping@ == MappingModel::Recode,
                    var.backup@.len() == 0,
                    var.values.deep_view() == Seq::new(
                        t as nat,
                        |u: int| from_raw(rd[u][k as int]),
                    ),
                decreases nrows - t,
            {
                proof {
                    assert(rowsf.deep_view()[t as int].len() == ncols);
                    assert(rowsf.deep_view()[t as int] == rowsf@[t as int].deep_view());
                }
                var.add_value(rowsf[t][k].as_str());
                proof {
                    assert(var.values.deep_view() =~= Seq::new(
                        (t + 1) as nat,
                        |u: int| from_raw(rd[u][k as int]),
                    ));
                }
                t += 1;
            }
            variables.push(var);
            k += 1;
        }
        *rows = nrows;
        Ok(())
    }

    fn strip_exec(f: &String) -> (r: String)
        ensures
            r@ == strip_quotes(f@),
    {
        let chars = chars_of(f.as_str());
        let n = chars.len();
        if n >= 2 && chars[0] == '"' && chars[n - 1] == '"' {
            string_range(&chars, 1, n - 1)
        } else {
            f.clone()
        }
    }

    #[verifier::loop_isolation(false)]
    fn match_end_exec(chars: &Vec<char>, p: usize) -> (e: usize)
        requires
            p <= chars@.len(),
        ensures
            e as int == match_end(chars@, p as int),
            p <= e <= chars@.len(),
    {
        let ghost s = chars@;
        let n = chars.len();
        proof {
            lemma_match_end_bounds(s, p as int);
        }
        if p == n {
            return p;
        }
        if chars[p] == '"' {
            // Look for the closing quotation mark.
            let mut q: usize = p + 1;
            while q < n && chars[q] != '"'
                invariant
                    p + 1 <= q <= n,
                    forall|j: int| p + 1 <= j < q ==> s[j] != '"',
                decreases n - q,
            {
                q += 1;
            }
            proof {
                lemma_index_of_from_props(s, '"', p + 1);
                assert(index_of_from(s, '"', p + 1) == q as int) by {
                    if q < n {
                        if index_of_from(s, '"', p + 1) < q {
                            assert(s[index_of_from(s, '"', p + 1)] != '"');
                        }
                    } else {
                        if index_of_from(s, '"', p + 1) < n {
                            assert(s[index_of_from(s, '"', p + 1)] != '"');
                        }
                    }
                }
            }
            if q < n {
                return q + 1;
            }
        }
        // The run up to the next comma.
        let mut r: usize = p;
        while r < n && chars[r] != ','
            invariant
                p <= r <= n,
                forall|j: int| p <= j < r ==> s[j] != ',',
            decreases n - r,
        {
            r += 1;
        }
        proof {
            lemma_index_of_from_props(s, ',', p as int);
            assert(index_of_from(s, ',', p as int) == r as int) by {
                if r < n {
                    if index_of_from(s, ',', p as int) < r {
                        assert(s[index_of_from(s, ',', p as int)] != ',');
                    }
                } else {
                    if index_of_from(s, ',', p as int) < n {
                        assert(s[index_of_from(s, ',', p as int)] != ',');
                    }
                }
            }
        }
        r
    }
}

} // verus!
