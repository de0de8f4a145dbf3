//! A column of values, its classification into named buckets, and the
//! frequency histogram kept consistent under every mutation.
//!
//! The histogram is always the fold [`hist_of`] of the variable's values
//! under its mapping and name while the variable is included, and empty
//! while it is excluded; [`Variable::wf`] states exactly that and every
//! method preserves it.

use crate::parser::{Token, TokenModel};
use crate::value::{cmp_value, coerce_model, from_raw, value_text, Order, Value, ValueModel};
use vstd::prelude::*;

verus! {

/// A closed interval of values, both ends of the same kind. A missing lower
/// bound marks a range that is not yet set: it matches nothing.
#[derive(Debug)]
pub struct Range {
    /// Inclusive lower end.
    pub lower: Value,
    /// Inclusive upper end.
    pub upper: Value,
}

/// Mathematical model of a [`Range`].
#[verifier::ext_equal]
pub struct RangeModel {
    pub lower: ValueModel,
    pub upper: ValueModel,
}

impl View for Range {
    type V = RangeModel;

    open spec fn view(&self) -> RangeModel {
        RangeModel { lower: self.lower@, upper: self.upper@ }
    }
}

impl DeepView for Range {
    type V = RangeModel;

    open spec fn deep_view(&self) -> RangeModel {
        self.view()
    }
}

/// How a variable classifies its values: one bucket per distinct value, or
/// one bucket per user-written range.
#[derive(Debug)]
pub enum Mapping {
    /// Values are grouped into the given ranges; anything unmatched falls
    /// into a synthetic rest bucket.
    Cluster { clusters: Vec<Range> },
    /// Every distinct value is its own bucket.
    Recode,
}

/// Mathematical model of a [`Mapping`].
pub enum MappingModel {
    Cluster(Seq<RangeModel>),
    Recode,
}

impl View for Mapping {
    type V = MappingModel;

    open spec fn view(&self) -> MappingModel {
        match self {
            Mapping::Cluster { clusters } => MappingModel::Cluster(clusters.deep_view()),
            Mapping::Recode => MappingModel::Recode,
        }
    }
}

/// Frequency table over bucket names, with the count of missing values and
/// the running minimum and maximum.
#[derive(Debug)]
pub struct Histogram {
    /// Count per bucket name, in first-seen order.
    pub density: Vec<(String, usize)>,
    /// Number of missing values.
    pub missing: usize,
    /// Least value seen, missing until a value arrives.
    pub minimum: Value,
    /// Greatest value seen, missing until a value arrives.
    pub maximum: Value,
}

/// Mathematical model of a [`Histogram`].
#[verifier::ext_equal]
pub struct HistogramModel {
    pub density: Seq<(Seq<char>, int)>,
    pub missing: int,
    pub minimum: ValueModel,
    pub maximum: ValueModel,
}

impl View for Histogram {
    type V = HistogramModel;

    open spec fn view(&self) -> HistogramModel {
        HistogramModel {
            density: self.density@.map_values(|p: (String, usize)| (p.0@, p.1 as int)),
            missing: self.missing as int,
            minimum: self.minimum@,
            maximum: self.maximum@,
        }
    }
}

/// The histogram before any value was counted.
pub open spec fn empty_hist() -> HistogramModel {
    HistogramModel {
        density: Seq::empty(),
        missing: 0,
        minimum: ValueModel::Missing,
        maximum: ValueModel::Missing,
    }
}

/// Whether `v` lies in `r`: the lower bound must be set, and `v` must be
/// related to both ends.
pub open spec fn range_matches(r: RangeModel, v: ValueModel) -> bool {
    &&& r.lower != ValueModel::Missing
    &&& (cmp_value(v, r.lower) == Some(Order::Greater) || cmp_value(v, r.lower) == Some(
        Order::Equal,
    ))
    &&& (cmp_value(v, r.upper) == Some(Order::Less) || cmp_value(v, r.upper) == Some(Order::Equal))
}

/// The first range of `rs` that contains `v`.
pub open spec fn find_range(rs: Seq<RangeModel>, v: ValueModel) -> Option<RangeModel>
    decreases rs.len(),
{
    if rs.len() == 0 {
        None
    } else if range_matches(rs[0], v) {
        Some(rs[0])
    } else {
        find_range(rs.skip(1), v)
    }
}

/// The bucket a non-missing value belongs to: under recoding, the variable
/// name and the value's text; under clustering, the name and the matching
/// range's two ends, or the rest bucket `Other`.
pub open spec fn bucket_name(mapping: MappingModel, name: Seq<char>, v: ValueModel) -> Seq<char> {
    match mapping {
        MappingModel::Recode => name + seq!['|'] + value_text(v),
        MappingModel::Cluster(rs) => match find_range(rs, v) {
            Some(r) => name + seq!['|'] + value_text(r.lower) + seq!['|'] + value_text(r.upper),
            None => name + seq!['|'] + "Other"@,
        },
    }
}

/// The density table with the count of `k` raised by one, `k` appended with
/// count one when it is new.
pub open spec fn bump(d: Seq<(Seq<char>, int)>, k: Seq<char>) -> Seq<(Seq<char>, int)>
    decreases d.len(),
{
    if d.len() == 0 {
        seq![(k, 1int)]
    } else if d[0].0 == k {
        seq![(d[0].0, d[0].1 + 1)] + d.skip(1)
    } else {
        seq![d[0]] + bump(d.skip(1), k)
    }
}

/// Sum of all counts of a density table.
pub open spec fn sum_counts(d: Seq<(Seq<char>, int)>) -> int
    decreases d.len(),
{
    if d.len() == 0 {
        0
    } else {
        d[0].1 + sum_counts(d.skip(1))
    }
}

/// One value counted into a histogram: missing values raise the missing
/// count, others their bucket's count; a non-missing value lowers the
/// minimum and raises the maximum when it is related and beyond them.
pub open spec fn hist_step(
    h: HistogramModel,
    mapping: MappingModel,
    name: Seq<char>,
    v: ValueModel,
) -> HistogramModel {
    let density = if v == ValueModel::Missing {
        h.density
    } else {
        bump(h.density, bucket_name(mapping, name, v))
    };
    let missing = if v == ValueModel::Missing {
        h.missing + 1
    } else {
        h.missing
    };
    let minimum = if v != ValueModel::Missing && (h.minimum == ValueModel::Missing || cmp_value(
        h.minimum,
        v,
    ) == Some(Order::Greater)) {
        v
    } else {
        h.minimum
    };
    let maximum = if v != ValueModel::Missing && (h.maximum == ValueModel::Missing || cmp_value(
        h.maximum,
        v,
    ) == Some(Order::Less)) {
        v
    } else {
        h.maximum
    };
    HistogramModel { density, missing, minimum, maximum }
}

/// The histogram of a value sequence: every value counted in order.
pub open spec fn hist_of(values: Seq<ValueModel>, mapping: MappingModel, name: Seq<char>) -> HistogramModel
    decreases values.len(),
{
    if values.len() == 0 {
        empty_hist()
    } else {
        hist_step(hist_of(values.drop_last(), mapping, name), mapping, name, values.last())
    }
}

/// Raising a count raises the sum by one.
proof fn lemma_bump_sum(d: Seq<(Seq<char>, int)>, k: Seq<char>)
    ensures
        sum_counts(bump(d, k)) == sum_counts(d) + 1,
    decreases d.len(),
{
    if d.len() == 0 {
        let b = bump(d, k);
        assert(b == seq![(k, 1int)]);
        assert(b.skip(1) =~= Seq::<(Seq<char>, int)>::empty());
        assert(sum_counts(b.skip(1)) == 0);
        assert(sum_counts(b) == b[0].1 + sum_counts(b.skip(1)));
        assert(sum_counts(d) == 0);
    } else if d[0].0 == k {
        let b = seq![(d[0].0, d[0].1 + 1)] + d.skip(1);
        assert(bump(d, k) == b);
        assert(b.skip(1) =~= d.skip(1));
        assert(b[0].1 == d[0].1 + 1);
        assert(sum_counts(b) == b[0].1 + sum_counts(b.skip(1)));
        assert(sum_counts(d) == d[0].1 + sum_counts(d.skip(1)));
    } else {
        lemma_bump_sum(d.skip(1), k);
        let b = seq![d[0]] + bump(d.skip(1), k);
        assert(bump(d, k) == b);
        assert(b.skip(1) =~= bump(d.skip(1), k));
        assert(b[0] == d[0]);
        assert(sum_counts(b) == b[0].1 + sum_counts(b.skip(1)));
        assert(sum_counts(d) == d[0].1 + sum_counts(d.skip(1)));
    }
}

/// Every count of a non-negative density table is at most the sum.
proof fn lemma_count_le_sum(d: Seq<(Seq<char>, int)>)
    requires
        forall|j: int| 0 <= j < d.len() ==> (#[trigger] d[j]).1 >= 0,
    ensures
        forall|j: int| 0 <= j < d.len() ==> (#[trigger] d[j]).1 <= sum_counts(d),
        sum_counts(d) >= 0,
    decreases d.len(),
{
    if d.len() > 0 {
        assert(forall|j: int| 0 <= j < d.skip(1).len() ==> (#[trigger] d.skip(1)[j]).1 >= 0);
        lemma_count_le_sum(d.skip(1));
        assert(forall|j: int| 1 <= j < d.len() ==> d[j] == d.skip(1)[j - 1]);
    }
}

/// The sum of counts and the missing count together count every value, and
/// every bucket holds at least one.
pub proof fn lemma_hist_total(values: Seq<ValueModel>, mapping: MappingModel, name: Seq<char>)
    ensures
        sum_counts(hist_of(values, mapping, name).density) + hist_of(values, mapping, name).missing
            == values.len(),
        hist_of(values, mapping, name).missing >= 0,
        forall|j: int|
            0 <= j < hist_of(values, mapping, name).density.len() ==> (#[trigger] hist_of(
                values,
                mapping,
                name,
            ).density[j]).1 >= 1,
    decreases values.len(),
{
    if values.len() > 0 {
        lemma_hist_total(values.drop_last(), mapping, name);
        let h = hist_of(values.drop_last(), mapping, name);
        let v = values.last();
        if v != ValueModel::Missing {
            let k = bucket_name(mapping, name, v);
            lemma_bump_sum(h.density, k);
            lemma_bump_counts(h.density, k);
        }
    }
}

/// Raising a count keeps every bucket at one or more.
proof fn lemma_bump_counts(d: Seq<(Seq<char>, int)>, k: Seq<char>)
    requires
        forall|j: int| 0 <= j < d.len() ==> (#[trigger] d[j]).1 >= 1,
    ensures
        forall|j: int| 0 <= j < bump(d, k).len() ==> (#[trigger] bump(d, k)[j]).1 >= 1,
    decreases d.len(),
{
    if d.len() == 0 {
    } else if d[0].0 == k {
        let b = seq![(d[0].0, d[0].1 + 1)] + d.skip(1);
        assert(forall|j: int| 1 <= j < b.len() ==> b[j] == d.skip(1)[j - 1] && d.skip(1)[j - 1] == d[j]);
    } else {
        assert(forall|j: int| 0 <= j < d.skip(1).len() ==> d.skip(1)[j] == d[j + 1]);
        lemma_bump_counts(d.skip(1), k);
        let b = seq![d[0]] + bump(d.skip(1), k);
        assert(forall|j: int| 1 <= j < b.len() ==> b[j] == bump(d.skip(1), k)[j - 1]);
    }
}

/// When `k` sits at `i` and nowhere earlier, the bump updates index `i`.
proof fn lemma_bump_found(d: Seq<(Seq<char>, int)>, k: Seq<char>, i: int)
    requires
        0 <= i < d.len(),
        d[i].0 == k,
        forall|j: int| 0 <= j < i ==> (#[trigger] d[j]).0 != k,
    ensures
        bump(d, k) == d.update(i, (d[i].0, d[i].1 + 1)),
    decreases d.len(),
{
    if i == 0 {
        assert(bump(d, k) =~= d.update(0, (d[0].0, d[0].1 + 1)));
    } else {
        assert(forall|j: int| 0 <= j < i - 1 ==> (#[trigger] d.skip(1)[j]).0 == d[j + 1].0 && d[j + 1].0 != k);
        assert(d.skip(1)[i - 1] == d[i]);
        lemma_bump_found(d.skip(1), k, i - 1);
        assert(d.skip(1).update(i - 1, (d[i].0, d[i].1 + 1)) =~= d.update(i, (d[i].0, d[i].1 + 1)).skip(1));
        assert(bump(d, k) =~= d.update(i, (d[i].0, d[i].1 + 1)));
    }
}

/// When `k` is absent the bump appends it with count one.
proof fn lemma_bump_absent(d: Seq<(Seq<char>, int)>, k: Seq<char>)
    requires
        forall|j: int| 0 <= j < d.len() ==> (#[trigger] d[j]).0 != k,
    ensures
        bump(d, k) == d.push((k, 1int)),
    decreases d.len(),
{
    if d.len() == 0 {
        assert(bump(d, k) =~= d.push((k, 1int)));
    } else {
        assert(forall|j: int| 0 <= j < d.skip(1).len() ==> (#[trigger] d.skip(1)[j]).0 == d[j + 1].0 && d[j + 1].0 != k);
        lemma_bump_absent(d.skip(1), k);
        assert(bump(d, k) =~= d.push((k, 1int)));
    }
}

impl Histogram {
    /// An empty histogram.
    pub fn new() -> (r: Histogram)
        ensures
            r@ == empty_hist(),
    {
        let r = Histogram {
            density: Vec::new(),
            missing: 0,
            minimum: Value::Missing,
            maximum: Value::Missing,
        };
        proof {
            assert(r@ =~= empty_hist());
        }
        r
    }
}

impl Value {
    /// Whether the value is missing.
    pub fn is_missing(&self) -> (r: bool)
        ensures
            r == (self@ == ValueModel::Missing),
    {
        match self {
            Value::Missing => true,
            _ => false,
        }
    }
}

fn name_from_value(name: &String, value: &Value) -> (r: String)
    ensures
        r@ == name@ + seq!['|'] + value_text(value@),
{
    let mut out = name.clone();
    out.push('|');
    let text = value.to_text();
    out.append(text.as_str());
    proof {
        assert(out@ =~= name@ + seq!['|'] + value_text(value@));
    }
    out
}

fn name_from_range(name: &String, range: &Range) -> (r: String)
    ensures
        r@ == name@ + seq!['|'] + value_text(range.lower@) + seq!['|'] + value_text(range.upper@),
{
    let mut out = name.clone();
    out.push('|');
    let lower = range.lower.to_text();
    out.append(lower.as_str());
    out.push('|');
    let upper = range.upper.to_text();
    out.append(upper.as_str());
    proof {
        assert(out@ =~= name@ + seq!['|'] + value_text(range.lower@) + seq!['|'] + value_text(
            range.upper@,
        ));
    }
    out
}

fn range_contains(range: &Range, value: &Value) -> (r: bool)
    ensures
        r == range_matches(range@, value@),
{
    if range.lower.is_missing() {
        return false;
    }
    let ge = match value.compare(&range.lower) {
        Some(Order::Greater) => true,
        Some(Order::Equal) => true,
        _ => false,
    };
    if !ge {
        return false;
    }
    let le = match value.compare(&range.upper) {
        Some(Order::Less) => true,
        Some(Order::Equal) => true,
        _ => false,
    };
    le
}

fn get_range<'a>(value: &Value, clusters: &'a Vec<Range>) -> (r: Option<&'a Range>)
    ensures
        match r {
            Some(range) => find_range(clusters.deep_view(), value@) == Some(range@),
            None => find_range(clusters.deep_view(), value@) is None,
        },
{
    let ghost rs = clusters.deep_view();
    let mut i: usize = 0;
    proof {
        assert(rs.skip(0) =~= rs);
    }
    while i < clusters.len()
        invariant
            i <= clusters@.len(),
            rs == clusters.deep_view(),
            rs.len() == clusters@.len(),
            find_range(rs, value@) == find_range(rs.skip(i as int), value@),
        decreases clusters@.len() - i,
    {
        if range_contains(&clusters[i], value) {
            proof {
                assert(rs.skip(i as int)[0] == rs[i as int]);
            }
            return Some(&clusters[i]);
        }
        proof {
            assert(rs.skip(i as int)[0] == rs[i as int]);
            assert(rs.skip(i as int).skip(1) =~= rs.skip(i + 1));
        }
        i += 1;
    }
    None
}

fn bit_name(mapping: &Mapping, name: &String, value: &Value) -> (r: String)
    ensures
        r@ == bucket_name(mapping@, name@, value@),
{
    match mapping {
        Mapping::Recode => name_from_value(name, value),
        Mapping::Cluster { clusters } => {
            match get_range(value, clusters) {
                Some(range) => name_from_range(name, range),
                None => {
                    let mut out = name.clone();
                    out.push('|');
                    out.append("Other");
                    proof {
                        assert(out@ =~= name@ + seq!['|'] + "Other"@);
                    }
                    out
                },
            }
        },
    }
}

/// Raises the count of `key`, appending it with count one when new.
#[verifier::loop_isolation(false)]
fn bump_density(density: &mut Vec<(String, usize)>, key: String)
    requires
        forall|j: int|
            0 <= j < old(density)@.len() ==> (#[trigger] old(density)@[j]).1 < usize::MAX,
    ensures
        final(density)@.map_values(|p: (String, usize)| (p.0@, p.1 as int)) == bump(
            old(density)@.map_values(|p: (String, usize)| (p.0@, p.1 as int)),
            key@,
        ),
{
    let ghost d0 = density@.map_values(|p: (String, usize)| (p.0@, p.1 as int));
    let mut i: usize = 0;
    while i < density.len()
        invariant
            i <= density@.len(),
            density@ == old(density)@,
            forall|j: int| 0 <= j < i ==> (#[trigger] density@[j]).0@ != key@,
        decreases density@.len() - i,
    {
        let hit = density[i].0 == key;
        if hit {
            proof {
                assert(d0[i as int].0 == density@[i as int].0@);
                lemma_bump_found(d0, key@, i as int);
            }
            let count = density[i].1;
            let name = density[i].0.clone();
            density[i] = (name, count + 1);
            proof {
                assert(density@.map_values(|p: (String, usize)| (p.0@, p.1 as int)) =~= bump(
                    d0,
                    key@,
                ));
            }
            return;
        }
        i += 1;
    }
    proof {
        assert(forall|j: int| 0 <= j < d0.len() ==> (#[trigger] d0[j]).0 != key@) by {
            assert(forall|j: int|
                0 <= j < d0.len() ==> (#[trigger] d0[j]).0 == density@[j].0@ && density@[j].0@
                    != key@);
        }
        lemma_bump_absent(d0, key@);
    }
    density.push((key, 1));
    proof {
        assert(density@.map_values(|p: (String, usize)| (p.0@, p.1 as int)) =~= bump(d0, key@));
    }
}

/// Counts one value into the histogram.
fn recalculate(histogram: &mut Histogram, mapping: &Mapping, name: &String, value: &Value)
    requires
        sum_counts(old(histogram)@.density) + old(histogram)@.missing < usize::MAX,
    ensures
        final(histogram)@ == hist_step(old(histogram)@, mapping@, name@, value@),
{
    proof {
        assert(forall|j: int|
            0 <= j < old(histogram)@.density.len() ==> (#[trigger] old(histogram)@.density[j]).1
                >= 0);
        lemma_count_le_sum(old(histogram)@.density);
        assert(forall|j: int|
            0 <= j < histogram.density@.len() ==> (#[trigger] histogram.density@[j]).1 as int
                == old(histogram)@.density[j].1);
    }
    if value.is_missing() {
        histogram.missing = histogram.missing + 1;
    } else {
        let key = bit_name(mapping, name, value);
        bump_density(&mut histogram.density, key);
        if histogram.minimum.is_missing() {
            histogram.minimum = value.clone();
        } else {
            match histogram.minimum.compare(value) {
                Some(Order::Greater) => {
                    histogram.minimum = value.clone();
                },
                _ => {},
            }
        }
        if histogram.maximum.is_missing() {
            histogram.maximum = value.clone();
        } else {
            match histogram.maximum.compare(value) {
                Some(Order::Less) => {
                    histogram.maximum = value.clone();
                },
                _ => {},
            }
        }
    }
    proof {
        assert(histogram@ =~= hist_step(old(histogram)@, mapping@, name@, value@));
    }
}

/// One column of a dataset: its values, classification and histogram.
#[derive(Debug)]
pub struct Variable {
    /// Identifier of the variable; bucket names embed it.
    pub name: String,
    /// The values, one per row.
    pub values: Vec<Value>,
    /// Snapshot of the values taken before numeric coercion.
    pub backup: Vec<Value>,
    /// Frequency table, always current per [`Variable::wf`].
    pub histogram: Histogram,
    /// How values are grouped into buckets.
    pub mapping: Mapping,
    /// Whether the variable contributes output columns.
    pub is_included: bool,
    /// Whether the values have been coerced to numbers.
    pub is_numeric: bool,
}

impl Variable {
    /// The histogram the variable must carry: the fold of its values while
    /// included, empty while excluded.
    pub open spec fn spec_hist(&self) -> HistogramModel {
        if self.is_included {
            hist_of(self.values.deep_view(), self.mapping@, self.name@)
        } else {
            empty_hist()
        }
    }

    /// The one invariant of a variable: its histogram is a pure function of
    /// its values, mapping, name and inclusion.
    pub open spec fn wf(&self) -> bool {
        self.histogram@ == self.spec_hist()
    }

    /// A fresh, included variable with no values, recoding by distinct
    /// value.
    pub fn new(name: &str) -> (r: Variable)
        ensures
            r.wf(),
            r.name@ == name@,
            r.values@.len() == 0,
            r.backup@.len() == 0,
            r.mapping@ == MappingModel::Recode,
            r.is_included,
            !r.is_numeric,
    {
        let r = Variable {
            name: name.to_owned(),
            values: Vec::new(),
            backup: Vec::new(),
            histogram: Histogram::new(),
            mapping: Mapping::Recode,
            is_included: true,
            is_numeric: false,
        };
        proof {
            assert(r.values.deep_view() =~= Seq::<ValueModel>::empty());
        }
        r
    }

    /// Recomputes the histogram from scratch for the current fields.
    #[verifier::loop_isolation(false)]
    fn refresh(&mut self)
        ensures
            final(self).wf(),
            final(self).name == old(self).name,
            final(self).values == old(self).values,
            final(self).backup == old(self).backup,
            final(self).mapping == old(self).mapping,
            final(self).is_included == old(self).is_included,
            final(self).is_numeric == old(self).is_numeric,
    {
        self.histogram = Histogram::new();
        if !self.is_included {
            return;
        }
        let ghost vs = self.values.deep_view();
        let n = self.values.len();
        let mut i: usize = 0;
        proof {
            assert(vs.take(0) =~= Seq::<ValueModel>::empty());
        }
        while i < n
            invariant
                i <= n,
                self.histogram@ == hist_of(vs.take(i as int), self.mapping@, self.name@),
                self.name == old(self).name,
                self.values == old(self).values,
                self.backup == old(self).backup,
                self.mapping == old(self).mapping,
                self.is_included == old(self).is_included,
                self.is_numeric == old(self).is_numeric,
            decreases n - i,
        {
            proof {
                lemma_hist_total(vs.take(i as int), self.mapping@, self.name@);
                assert(vs.take(i as int).len() == i);
            }
            let value = &self.values[i];
            recalculate(&mut self.histogram, &self.mapping, &self.name, value);
            proof {
                assert(vs.take(i + 1).drop_last() =~= vs.take(i as int));
                assert(vs.take(i + 1).last() == vs[i as int]);
                assert(vs[i as int] == self.values@[i as int]@);
            }
            i += 1;
        }
        proof {
            assert(vs.take(n as int) =~= vs);
        }
    }

    /// Recodes by distinct value and recomputes the histogram.
    pub fn set_recoded(&mut self)
        ensures
            final(self).wf(),
            final(self).mapping@ == MappingModel::Recode,
            final(self).name == old(self).name,
            final(self).values == old(self).values,
            final(self).backup == old(self).backup,
            final(self).is_included == old(self).is_included,
            final(self).is_numeric == old(self).is_numeric,
    {
        self.mapping = Mapping::Recode;
        self.refresh();
    }

    /// Switches to an empty cluster mapping and recomputes the histogram:
    /// every value falls into the rest bucket.
    pub fn set_cluster(&mut self)
        ensures
            final(self).wf(),
            final(self).mapping@ == MappingModel::Cluster(Seq::empty()),
            final(self).name == old(self).name,
            final(self).values == old(self).values,
            final(self).backup == old(self).backup,
            final(self).is_included == old(self).is_included,
            final(self).is_numeric == old(self).is_numeric,
    {
        let clusters: Vec<Range> = Vec::new();
        proof {
            assert(clusters.deep_view() =~= Seq::<RangeModel>::empty());
        }
        self.mapping = Mapping::Cluster { clusters };
        self.refresh();
    }

    /// Appends one raw field as a value, counting it into the histogram.
    pub fn add_value(&mut self, value: &str)
        requires
            old(self).wf(),
            old(self).values@.len() < usize::MAX,
        ensures
            final(self).wf(),
            final(self).values.deep_view() == old(self).values.deep_view().push(from_raw(value@)),
            final(self).name == old(self).name,
            final(self).backup == old(self).backup,
            final(self).mapping == old(self).mapping,
            final(self).is_included == old(self).is_included,
            final(self).is_numeric == old(self).is_numeric,
    {
        let ghost vs = self.values.deep_view();
        let v = Value::new(value);
        if self.is_included {
            proof {
                lemma_hist_total(vs, self.mapping@, self.name@);
            }
            recalculate(&mut self.histogram, &self.mapping, &self.name, &v);
        }
        self.values.push(v);
        proof {
            assert(self.values.deep_view() =~= vs.push(from_raw(value@)));
            if self.is_included {
                assert(self.values.deep_view().drop_last() =~= vs);
            }
        }
    }
}

/// Clones a value vector, keeping its model.
fn clone_values(v: &Vec<Value>) -> (r: Vec<Value>)
    ensures
        r.deep_view() == v.deep_view(),
{
    let mut r: Vec<Value> = Vec::new();
    let mut i: usize = 0;
    proof {
        assert(r.deep_view() =~= v.deep_view().take(0));
    }
    while i < v.len()
        invariant
            i <= v@.len(),
            r.deep_view() == v.deep_view().take(i as int),
        decreases v@.len() - i,
    {
        let c = v[i].clone();
        let ghost cm = c.deep_view();
        let ghost before = r.deep_view();
        r.push(c);
        proof {
            assert(cm == v.deep_view()[i as int]);
            assert(r.deep_view() =~= before.push(cm));
            assert(before.push(cm) =~= v.deep_view().take(i + 1));
        }
        i += 1;
    }
    proof {
        assert(v.deep_view().take(v@.len() as int) =~= v.deep_view());
    }
    r
}

/// The lower bound a token stands for, `min` resolved to the histogram
/// minimum; `None` when the token cannot start a range.
pub open spec fn token_lower(t: TokenModel, mn: ValueModel) -> Option<ValueModel> {
    match t {
        TokenModel::Number(m) => Some(ValueModel::Number(m)),
        TokenModel::Text(s) => Some(ValueModel::Text(s)),
        TokenModel::Minimum => Some(mn),
        _ => None,
    }
}

/// The upper bound a token stands for, `max` resolved to the histogram
/// maximum; `None` when the token cannot end a range.
pub open spec fn token_upper(t: TokenModel, mx: ValueModel) -> Option<ValueModel> {
    match t {
        TokenModel::Number(m) => Some(ValueModel::Number(m)),
        TokenModel::Text(s) => Some(ValueModel::Text(s)),
        TokenModel::Maximum => Some(mx),
        _ => None,
    }
}

/// Reads the token stream three at a time into ranges: each triple must be
/// lower, separator, upper, with the lower end at most the upper and at
/// least the previous range's upper end.
pub open spec fn collect_ranges(
    toks: Seq<TokenModel>,
    mn: ValueModel,
    mx: ValueModel,
    acc: Seq<RangeModel>,
) -> Result<Seq<RangeModel>, Seq<char>>
    decreases toks.len(),
{
    if toks.len() == 0 {
        Ok(acc)
    } else {
        match token_lower(toks[0], mn) {
            None => Err("Type a value for the lower range."@),
            Some(lo) => if toks.len() < 2 || !(toks[1] is Range) {
                Err("Separate range values with keyword ' to '."@)
            } else if toks.len() < 3 {
                Err("Type a value for the upper range."@)
            } else {
                match token_upper(toks[2], mx) {
                    None => Err("Type a value for the upper range."@),
                    Some(up) => if cmp_value(lo, up) == Some(Order::Greater) {
                        Err("Lower value must be less than or equal to the upper value."@)
                    } else if acc.len() > 0 && cmp_value(lo, acc.last().upper) == Some(
                        Order::Less,
                    ) {
                        Err("Lower value must be greater than or equal to the previous upper value."@)
                    } else {
                        collect_ranges(
                            toks.skip(3),
                            mn,
                            mx,
                            acc.push(RangeModel { lower: lo, upper: up }),
                        )
                    },
                }
            },
        }
    }
}

/// Whether both ends of every range are numbers.
pub open spec fn all_numeric(rs: Seq<RangeModel>) -> bool {
    forall|j: int|
        0 <= j < rs.len() ==> (#[trigger] rs[j]).lower is Number && rs[j].upper is Number
}

/// Whether both ends of every range are text.
pub open spec fn all_text(rs: Seq<RangeModel>) -> bool {
    forall|j: int| 0 <= j < rs.len() ==> (#[trigger] rs[j]).lower is Text && rs[j].upper is Text
}

/// What applying a token stream to a variable yields: the collected ranges,
/// refused as a whole when their kinds do not all match the variable's
/// numeric or text mode.
pub open spec fn ranges_result(
    toks: Seq<TokenModel>,
    mn: ValueModel,
    mx: ValueModel,
    numeric: bool,
) -> Result<Seq<RangeModel>, Seq<char>> {
    match collect_ranges(toks, mn, mx, Seq::empty()) {
        Err(m) => Err(m),
        Ok(rs) => if (numeric && !all_numeric(rs)) || (!numeric && !all_text(rs)) {
            Err("All values must be of the same type and must match the variable type."@)
        } else {
            Ok(rs)
        },
    }
}

fn value_is_number(v: &Value) -> (r: bool)
    ensures
        r == (v@ is Number),
{
    match v {
        Value::Number { .. } => true,
        _ => false,
    }
}

fn value_is_text(v: &Value) -> (r: bool)
    ensures
        r == (v@ is Text),
{
    match v {
        Value::Text { .. } => true,
        _ => false,
    }
}

impl Variable {
    /// Coerces every value to a number, snapshotting the values first so
    /// that text mode can restore them. Does nothing when already numeric,
    /// so a second call cannot overwrite the snapshot with coerced data.
    pub fn as_numbers(&mut self)
        requires
            old(self).wf(),
        ensures
            final(self).wf(),
            old(self).is_numeric ==> *final(self) == *old(self),
            !old(self).is_numeric ==> {
                &&& final(self).is_numeric
                &&& final(self).backup.deep_view() == old(self).values.deep_view()
                &&& final(self).values.deep_view() == old(self).values.deep_view().map_values(
                    |v: ValueModel| coerce_model(v),
                )
                &&& final(self).name == old(self).name
                &&& final(self).mapping == old(self).mapping
                &&& final(self).is_included == old(self).is_included
            },
    {
        if self.is_numeric {
            return;
        }
        self.is_numeric = true;
        self.backup = clone_values(&self.values);
        let ghost vs = self.values.deep_view();
        let mut coerced: Vec<Value> = Vec::new();
        let mut i: usize = 0;
        proof {
            assert(coerced.deep_view() =~= vs.take(0).map_values(|v: ValueModel| coerce_model(v)));
        }
        while i < self.values.len()
            invariant
                i <= self.values@.len(),
                vs == self.values.deep_view(),
                coerced.deep_view() == vs.take(i as int).map_values(
                    |v: ValueModel| coerce_model(v),
                ),
            decreases self.values@.len() - i,
        {
            let mut c = self.values[i].clone();
            c.as_number();
            let ghost cm = c.deep_view();
            let ghost before = coerced.deep_view();
            coerced.push(c);
            proof {
                assert(cm == coerce_model(vs[i as int]));
                assert(coerced.deep_view() =~= before.push(cm));
                assert(before.push(cm) =~= vs.take(i + 1).map_values(
                    |v: ValueModel| coerce_model(v),
                ));
            }
            i += 1;
        }
        proof {
            assert(vs.take(vs.len() as int) =~= vs);
        }
        self.values = coerced;
        self.refresh();
    }

    /// Restores the values snapshotted before numeric coercion and clears
    /// the snapshot. Does nothing when already in text mode.
    pub fn as_strings(&mut self)
        requires
            old(self).wf(),
        ensures
            final(self).wf(),
            !old(self).is_numeric ==> *final(self) == *old(self),
            old(self).is_numeric ==> {
                &&& !final(self).is_numeric
                &&& final(self).values.deep_view() == old(self).backup.deep_view()
                &&& final(self).backup@.len() == 0
                &&& final(self).name == old(self).name
                &&& final(self).mapping == old(self).mapping
                &&& final(self).is_included == old(self).is_included
            },
    {
        if !self.is_numeric {
            return;
        }
        self.is_numeric = false;
        let restored = clone_values(&self.backup);
        self.values = restored;
        self.backup = Vec::new();
        self.refresh();
    }

    /// Renames the variable. Bucket names embed the name, so the histogram
    /// is recomputed.
    pub fn set_name(&mut self, name: &str)
        ensures
            final(self).wf(),
            final(self).name@ == name@,
            final(self).values == old(self).values,
            final(self).backup == old(self).backup,
            final(self).mapping == old(self).mapping,
            final(self).is_included == old(self).is_included,
            final(self).is_numeric == old(self).is_numeric,
    {
        self.name = name.to_owned();
        self.refresh();
    }

    /// Includes the variable in the output, recomputing its histogram.
    /// Does nothing when already included.
    pub fn set_included(&mut self)
        requires
            old(self).wf(),
        ensures
            final(self).wf(),
            final(self).is_included,
            final(self).name == old(self).name,
            final(self).values == old(self).values,
            final(self).backup == old(self).backup,
            final(self).mapping == old(self).mapping,
            final(self).is_numeric == old(self).is_numeric,
    {
        if self.is_included {
            return;
        }
        self.is_included = true;
        self.refresh();
    }

    /// Excludes the variable from the output, clearing its histogram.
    /// Does nothing when already excluded.
    pub fn exclude(&mut self)
        requires
            old(self).wf(),
        ensures
            final(self).wf(),
            !final(self).is_included,
            final(self).name == old(self).name,
            final(self).values == old(self).values,
            final(self).backup == old(self).backup,
            final(self).mapping == old(self).mapping,
            final(self).is_numeric == old(self).is_numeric,
    {
        if !self.is_included {
            return;
        }
        self.is_included = false;
        self.histogram = Histogram::new();
    }

    /// The variable's name.
    pub fn name(&self) -> (r: &str)
        ensures
            r@ == self.name@,
    {
        self.name.as_str()
    }

    /// The frequency table, one count per bucket name in first-seen order.
    pub fn density(&self) -> (r: &Vec<(String, usize)>)
        ensures
            r@ == self.histogram.density@,
    {
        &self.histogram.density
    }

    /// The number of missing values counted.
    pub fn missing(&self) -> (r: usize)
        ensures
            r as int == self.histogram@.missing,
    {
        self.histogram.missing
    }

    /// The least value counted, missing when none was.
    pub fn minimum(&self) -> (r: &Value)
        ensures
            r@ == self.histogram@.minimum,
    {
        &self.histogram.minimum
    }

    /// The greatest value counted, missing when none was.
    pub fn maximum(&self) -> (r: &Value)
        ensures
            r@ == self.histogram@.maximum,
    {
        &self.histogram.maximum
    }

    /// The current classification mapping.
    pub fn mapping(&self) -> (r: &Mapping)
        ensures
            r@ == self.mapping@,
    {
        &self.mapping
    }

    /// The value at a row.
    pub fn value_at(&self, index: usize) -> (r: &Value)
        requires
            index < self.values@.len(),
        ensures
            r@ == self.values.deep_view()[index as int],
    {
        &self.values[index]
    }

    /// Applies a parsed token stream as the cluster ranges, per
    /// [`ranges_result`]: on failure the variable is left untouched, on
    /// success the mapping becomes the collected ranges and the histogram
    /// is recomputed, so that it stays a pure function of the mapping even
    /// when the range list is empty.
    #[verifier::loop_isolation(false)]
    pub fn use_ranges(&mut self, tokens: &[Token]) -> (r: Result<(), &'static str>)
        requires
            old(self).wf(),
        ensures
            ({
                let res = ranges_result(
                    tokens.deep_view(),
                    old(self).histogram@.minimum,
                    old(self).histogram@.maximum,
                    old(self).is_numeric,
                );
                match (r, res) {
                    (Err(e), Err(m)) => e@ == m && *final(self) == *old(self),
                    (Ok(u), Ok(rs)) => {
                        &&& final(self).wf()
                        &&& final(self).mapping@ == MappingModel::Cluster(rs)
                        &&& final(self).name == old(self).name
                        &&& final(self).values == old(self).values
                        &&& final(self).backup == old(self).backup
                        &&& final(self).is_included == old(self).is_included
                        &&& final(self).is_numeric == old(self).is_numeric
                    },
                    _ => false,
                }
            }),
    {
        let ghost toks = tokens.deep_view();
        let ghost mn = self.histogram@.minimum;
        let ghost mx = self.histogram@.maximum;
        let mut ranges: Vec<Range> = Vec::new();
        let mut i: usize = 0;
        let n = tokens.len();
        proof {
            assert(toks.skip(0) =~= toks);
            assert(ranges.deep_view() =~= Seq::<RangeModel>::empty());
        }
        while i < n
            invariant
                i <= n,
                collect_ranges(toks, mn, mx, Seq::empty()) == collect_ranges(
                    toks.skip(i as int),
                    mn,
                    mx,
                    ranges.deep_view(),
                ),
            decreases n - i,
        {
            let ghost rest = toks.skip(i as int);
            proof {
                assert(rest[0] == toks[i as int]);
            }
            let lower: Value = match &tokens[i] {
                Token::Number { value } => Value::Number { number: *value },
                Token::Text { value } => Value::Text { text: value.clone() },
                Token::Minimum => self.histogram.minimum.clone(),
                _ => {
                    return Err("Type a value for the lower range.");
                },
            };
            if i + 1 >= n {
                return Err("Separate range values with keyword ' to '.");
            }
            proof {
                assert(rest[1] == toks[i + 1]);
            }
            match &tokens[i + 1] {
                Token::Range => {},
                _ => {
                    return Err("Separate range values with keyword ' to '.");
                },
            }
            if i + 2 >= n {
                return Err("Type a value for the upper range.");
            }
            proof {
                assert(rest[2] == toks[i + 2]);
            }
            let upper: Value = match &tokens[i + 2] {
                Token::Number { value } => Value::Number { number: *value },
                Token::Text { value } => Value::Text { text: value.clone() },
                Token::Maximum => self.histogram.maximum.clone(),
                _ => {
                    return Err("Type a value for the upper range.");
                },
            };
            match lower.compare(&upper) {
                Some(Order::Greater) => {
                    return Err("Lower value must be less than or equal to the upper value.");
                },
                _ => {},
            }
            if ranges.len() > 0 {
                let prev = &ranges[ranges.len() - 1];
                proof {
                    assert(ranges.deep_view().last() == ranges@[ranges@.len() - 1]@);
                }
                match lower.compare(&prev.upper) {
                    Some(Order::Less) => {
                        return Err(
                            "Lower value must be greater than or equal to the previous upper value.",
                        );
                    },
                    _ => {},
                }
            }
            let ghost before = ranges.deep_view();
            let ghost lo = lower@;
            let ghost up = upper@;
            ranges.push(Range { lower, upper });
            proof {
                assert(ranges.deep_view() =~= before.push(RangeModel { lower: lo, upper: up }));
                assert(rest.skip(3) =~= toks.skip(i + 3));
            }
            i += 3;
        }
        proof {
            assert(toks.skip(n as int) =~= Seq::<TokenModel>::empty());
        }
        let ghost rs = ranges.deep_view();
        let mut all_numbers = true;
        let mut all_strings = true;
        let mut j: usize = 0;
        while j < ranges.len()
            invariant
                j <= ranges@.len(),
                rs == ranges.deep_view(),
                all_numbers == (forall|k: int|
                    0 <= k < j ==> (#[trigger] rs[k]).lower is Number && rs[k].upper is Number),
                all_strings == (forall|k: int|
                    0 <= k < j ==> (#[trigger] rs[k]).lower is Text && rs[k].upper is Text),
            decreases ranges@.len() - j,
        {
            let rg = &ranges[j];
            proof {
                assert(rs[j as int] == ranges@[j as int]@);
            }
            if !(value_is_number(&rg.lower) && value_is_number(&rg.upper)) {
                all_numbers = false;
            }
            if !(value_is_text(&rg.lower) && value_is_text(&rg.upper)) {
                all_strings = false;
            }
            j += 1;
        }
        if self.is_numeric && !all_numbers || !self.is_numeric && !all_strings {
            return Err("All values must be of the same type and must match the variable type.");
        }
        self.mapping = Mapping::Cluster { clusters: ranges };
        self.refresh();
        Ok(())
    }

    /// The row's one-hot projection: for every bucket name, in histogram
    /// order, whether this row's value falls into that bucket. A missing
    /// value lights no bucket.
    #[verifier::loop_isolation(false)]
    pub fn vector_of(&self, index: usize) -> (r: Vec<(String, bool)>)
        requires
            index < self.values@.len(),
        ensures
            r.deep_view() == bits_of(
                self.histogram@,
                self.mapping@,
                self.name@,
                self.values.deep_view()[index as int],
            ),
    {
        let value = &self.values[index];
        let current = bit_name(&self.mapping, &self.name, value);
        let missing = value.is_missing();
        let ghost target = bits_of(
            self.histogram@,
            self.mapping@,
            self.name@,
            self.values.deep_view()[index as int],
        );
        let mut bits: Vec<(String, bool)> = Vec::new();
        let mut j: usize = 0;
        while j < self.histogram.density.len()
            invariant
                j <= self.histogram.density@.len(),
                target == bits_of(
                    self.histogram@,
                    self.mapping@,
                    self.name@,
                    self.values.deep_view()[index as int],
                ),
                bits@.len() == j,
                forall|k: int| 0 <= k < j ==> bits.deep_view()[k] == target[k],
            decreases self.histogram.density@.len() - j,
        {
            let key = self.histogram.density[j].0.clone();
            let hit = !missing && key == current;
            let ghost before = bits.deep_view();
            proof {
                assert(self.histogram@.density[j as int].0 == self.histogram.density@[j as int].0@);
                assert(self.values.deep_view()[index as int] == value@);
                assert(key@ == self.histogram@.density[j as int].0);
                assert(current@ == bucket_name(self.mapping@, self.name@, value@));
                assert(hit == (!missing && key@ == current@));
                assert(hit == target[j as int].1);
            }
            bits.push((key, hit));
            proof {
                assert(bits.deep_view() =~= before.push((self.histogram.density@[j as int].0@, hit)));
                assert(bits.deep_view()[j as int] == target[j as int]);
            }
            j += 1;
        }
        proof {
            assert(bits.deep_view() =~= target);
        }
        bits
    }
}

/// The one-hot row projection over a histogram's buckets: bucket names with
/// a flag that is set exactly on the bucket of a non-missing value.
pub open spec fn bits_of(
    h: HistogramModel,
    mapping: MappingModel,
    name: Seq<char>,
    v: ValueModel,
) -> Seq<(Seq<char>, bool)> {
    Seq::new(
        h.density.len(),
        |j: int| (h.density[j].0, v != ValueModel::Missing && h.density[j].0 == bucket_name(
            mapping,
            name,
            v,
        )),
    )
}

} // verus!
