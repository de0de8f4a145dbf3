//! Rendering of the output format: a header of quoted bucket names, then
//! one line per row of concatenated `0`/`1` blocks and the outcome value.

use crate::value::value_text;
use crate::variable::{bits_of, Variable};
use vstd::prelude::*;

verus! {

/// Header contribution of one density table: every bucket name in
/// quotation marks, each followed by a comma.
pub open spec fn keys_header(d: Seq<(Seq<char>, int)>) -> Seq<char>
    decreases d.len(),
{
    if d.len() == 0 {
        Seq::empty()
    } else {
        keys_header(d.drop_last()) + seq!['"'] + d.last().0 + seq!['"', ',']
    }
}

/// Header contributions of all variables, in order.
pub open spec fn vars_header(vars: Seq<Variable>) -> Seq<char>
    decreases vars.len(),
{
    if vars.len() == 0 {
        Seq::empty()
    } else {
        vars_header(vars.drop_last()) + keys_header(vars.last().histogram@.density)
    }
}

/// The whole header line: every variable's bucket names, then the quoted
/// outcome name.
pub open spec fn header_text(vars: Seq<Variable>, outcome_name: Seq<char>) -> Seq<char> {
    vars_header(vars) + seq!['"'] + outcome_name + seq!['"']
}

/// A one-hot projection as `1` and `0` characters.
pub open spec fn bits_text(bits: Seq<(Seq<char>, bool)>) -> Seq<char>
    decreases bits.len(),
{
    if bits.len() == 0 {
        Seq::empty()
    } else {
        bits_text(bits.drop_last()) + seq![
            if bits.last().1 {
                '1'
            } else {
                '0'
            },
        ]
    }
}

/// The bit blocks of one row, one block per variable, with nothing between
/// them.
pub open spec fn row_bits(vars: Seq<Variable>, index: int) -> Seq<char>
    decreases vars.len(),
{
    if vars.len() == 0 {
        Seq::empty()
    } else {
        row_bits(vars.drop_last(), index) + bits_text(
            bits_of(
                vars.last().histogram@,
                vars.last().mapping@,
                vars.last().name@,
                vars.last().values.deep_view()[index],
            ),
        )
    }
}

/// One data line: a line break, the bit blocks, a comma and the outcome
/// value's text.
pub open spec fn row_text(vars: Seq<Variable>, outcome: Variable, index: int) -> Seq<char> {
    seq!['\n'] + row_bits(vars, index) + seq![','] + value_text(
        outcome.values.deep_view()[index],
    )
}

/// The data lines for the first `upto` rows.
pub open spec fn rows_text(vars: Seq<Variable>, outcome: Variable, upto: int) -> Seq<char>
    decreases upto,
{
    if upto <= 0 {
        Seq::empty()
    } else {
        rows_text(vars, outcome, upto - 1) + row_text(vars, outcome, upto - 1)
    }
}

/// The whole output: the header line and every data line.
pub open spec fn render_text(vars: Seq<Variable>, outcome: Variable, rows: int) -> Seq<char> {
    header_text(vars, outcome.name@) + rows_text(vars, outcome, rows)
}

/// Writer of the output format.
pub struct Encoder;

impl Encoder {
    /// Renders the variables' one-hot projections and the outcome column
    /// as the full output text.
    #[verifier::loop_isolation(false)]
    pub fn render(variables: &Vec<Variable>, outcome: &Variable, rows: usize) -> (r: String)
        requires
            rows <= outcome.values@.len(),
            forall|t: int|
                0 <= t < variables@.len() ==> rows <= (#[trigger] variables@[t]).values@.len(),
        ensures
            r@ == render_text(variables@, *outcome, rows as int),
    {
        let mut data = String::new();
        // Header: every variable's bucket names in quotation marks.
        let mut vi: usize = 0;
        proof {
            assert(variables@.take(0) =~= Seq::<Variable>::empty());
        }
        while vi < variables.len()
            invariant
                vi <= variables@.len(),
                data@ == vars_header(variables@.take(vi as int)),
            decreases variables@.len() - vi,
        {
            let variable = &variables[vi];
            let density = variable.density();
            let ghost dm = variable.histogram@.density;
            let mut ki: usize = 0;
            proof {
                assert(dm.take(0) =~= Seq::<(Seq<char>, int)>::empty());
            }
            while ki < density.len()
                invariant
                    ki <= density@.len(),
                    density@ == variables@[vi as int].histogram.density@,
                    dm.len() == density@.len(),
                    data@ == vars_header(variables@.take(vi as int)) + keys_header(
                        dm.take(ki as int),
                    ),
                decreases density@.len() - ki,
            {
                data.push('"');
                data.append(density[ki].0.as_str());
                data.push('"');
                data.push(',');
                proof {
                    assert(dm.take(ki + 1).drop_last() =~= dm.take(ki as int));
                    assert(dm.take(ki + 1).last() == dm[ki as int]);
                    assert(dm[ki as int].0 == density@[ki as int].0@);
                    assert(data@ =~= vars_header(variables@.take(vi as int)) + keys_header(
                        dm.take(ki + 1),
                    ));
                }
                ki += 1;
            }
            proof {
                assert(dm.take(dm.len() as int) =~= dm);
                assert(variables@.take(vi + 1).drop_last() =~= variables@.take(vi as int));
                assert(variables@.take(vi + 1).last() == variables@[vi as int]);
            }
            vi += 1;
        }
        proof {
            assert(variables@.take(variables@.len() as int) =~= variables@);
        }
        data.push('"');
        data.append(outcome.name());
        data.push('"');
        proof {
            assert(data@ =~= header_text(variables@, outcome.name@));
        }
        // One line per row: the bit blocks, a comma, the outcome value.
        let mut index: usize = 0;
        while index < rows
            invariant
                index <= rows,
                data@ == header_text(variables@, outcome.name@) + rows_text(
                    variables@,
                    *outcome,
                    index as int,
                ),
            decreases rows - index,
        {
            data.push('\n');
            let ghost linestart = data@;
            let mut vj: usize = 0;
            proof {
                assert(variables@.take(0) =~= Seq::<Variable>::empty());
            }
            while vj < variables.len()
                invariant
                    vj <= variables@.len(),
                    index < rows,
                    data@ == linestart + row_bits(variables@.take(vj as int), index as int),
                decreases variables@.len() - vj,
            {
                let bits = variables[vj].vector_of(index);
                let ghost bm = bits.deep_view();
                let mut bi: usize = 0;
                proof {
                    assert(bm.take(0) =~= Seq::<(Seq<char>, bool)>::empty());
                }
                while bi < bits.len()
                    invariant
                        bi <= bits@.len(),
                        bm == bits.deep_view(),
                        bm.len() == bits@.len(),
                        data@ == linestart + row_bits(variables@.take(vj as int), index as int)
                            + bits_text(bm.take(bi as int)),
                    decreases bits@.len() - bi,
                {
                    let one = bits[bi].1;
                    if one {
                        data.push('1');
                    } else {
                        data.push('0');
                    }
                    proof {
                        assert(bm.take(bi + 1).drop_last() =~= bm.take(bi as int));
                        assert(bm.take(bi + 1).last() == bm[bi as int]);
                        assert(bm[bi as int].1 == bits@[bi as int].1);
                        assert(data@ =~= linestart + row_bits(
                            variables@.take(vj as int),
                            index as int,
                        ) + bits_text(bm.take(bi + 1)));
                    }
                    bi += 1;
                }
                proof {
                    assert(bm.take(bm.len() as int) =~= bm);
                    assert(variables@.take(vj + 1).drop_last() =~= variables@.take(vj as int));
                    assert(variables@.take(vj + 1).last() == variables@[vj as int]);
                    assert(data@ =~= linestart + row_bits(variables@.take(vj + 1), index as int));
                }
                vj += 1;
            }
            proof {
                assert(variables@.take(variables@.len() as int) =~= variables@);
            }
            data.push(',');
            let text = outcome.value_at(index).to_text();
            data.append(text.as_str());
            proof {
                assert(data@ =~= header_text(variables@, outcome.name@) + rows_text(
                    variables@,
                    *outcome,
                    index + 1,
                ));
            }
            index += 1;
        }
        data
    }
}

} // verus!
