//! The general properties the library promises, each proved from what the
//! components' contracts state.

use crate::value::{cmp_value, lex_cmp, Order, ValueModel};
use crate::variable::{lemma_hist_total, sum_counts, MappingModel, Variable};
use vstd::prelude::*;

verus! {

/// Law: a well-formed variable's histogram accounts for every value: while
/// the variable is included the bucket counts and the missing count sum to
/// the number of values, and while it is excluded the density is empty.
pub proof fn lemma_histogram_accounts(v: Variable)
    requires
        v.wf(),
    ensures
        v.is_included ==> sum_counts(v.histogram@.density) + v.histogram@.missing
            == v.values@.len(),
        !v.is_included ==> v.histogram@.density.len() == 0,
{
    if v.is_included {
        lemma_hist_total(v.values.deep_view(), v.mapping@, v.name@);
        assert(v.values.deep_view().len() == v.values@.len());
    }
}

/// Law: coercing a textual variable to numbers and back restores its value
/// sequence exactly. The two requirements are what numeric coercion
/// promises of its result and what text coercion promises of its own; put
/// together, the restored values are the values it started with.
pub proof fn lemma_coercion_round_trip(v0: Variable, v1: Variable, v2: Variable)
    requires
        !v0.is_numeric,
        v1.is_numeric,
        v1.backup.deep_view() == v0.values.deep_view(),
        v2.values.deep_view() == v1.backup.deep_view(),
    ensures
        v2.values.deep_view() == v0.values.deep_view(),
{
}

proof fn lemma_lex_cmp_equal_iff(a: Seq<char>, b: Seq<char>)
    ensures
        (lex_cmp(a, b) == Order::Equal) <==> (a == b),
    decreases a.len(),
{
    if a.len() == 0 && b.len() == 0 {
        assert(a =~= b);
    } else if a.len() == 0 || b.len() == 0 {
        assert(a.len() != b.len());
    } else if (a[0] as u32) < (b[0] as u32) || (a[0] as u32) > (b[0] as u32) {
        assert(a[0] != b[0]);
    } else {
        vstd::utf8::char_u32_cast(a[0], a[0] as u32);
        vstd::utf8::char_u32_cast(b[0], b[0] as u32);
        assert(a[0] == b[0]);
        lemma_lex_cmp_equal_iff(a.skip(1), b.skip(1));
        if lex_cmp(a, b) == Order::Equal {
            assert(a.skip(1) == b.skip(1));
            assert(a.len() == b.len());
            assert(forall|i: int|
                1 <= i < a.len() ==> a[i] == a.skip(1)[i - 1] && b[i] == b.skip(1)[i - 1]);
            assert(a =~= b);
        }
        if a == b {
            assert(a.skip(1) =~= b.skip(1));
        }
    }
}

proof fn lemma_lex_cmp_swap(a: Seq<char>, b: Seq<char>)
    ensures
        (lex_cmp(a, b) == Order::Less) <==> (lex_cmp(b, a) == Order::Greater),
    decreases a.len(),
{
    if a.len() > 0 && b.len() > 0 && (a[0] as u32) == (b[0] as u32) {
        lemma_lex_cmp_swap(a.skip(1), b.skip(1));
    }
}

/// Law: how two values stand to one another. Two values of one concrete
/// kind are always related, and are equal exactly when they are the same
/// value; the relation turns around when the sides do, so exactly one of
/// less, equal and greater holds. A text and a number are never related.
/// Missing equals only missing and is less than everything concrete.
pub proof fn lemma_value_order(a: ValueModel, b: ValueModel)
    ensures
        ((a is Text && b is Text) || (a is Number && b is Number)) ==> cmp_value(a, b) is Some,
        ((a is Text && b is Number) || (a is Number && b is Text)) ==> cmp_value(a, b) is None,
        (cmp_value(a, b) == Some(Order::Equal)) <==> (a == b),
        (cmp_value(a, b) == Some(Order::Less)) <==> (cmp_value(b, a) == Some(Order::Greater)),
        a is Missing && !(b is Missing) ==> cmp_value(a, b) == Some(Order::Less),
        !(a is Missing) && b is Missing ==> cmp_value(a, b) == Some(Order::Greater),
        a is Missing && b is Missing ==> cmp_value(a, b) == Some(Order::Equal),
{
    match (a, b) {
        (ValueModel::Text(x), ValueModel::Text(y)) => {
            lemma_lex_cmp_equal_iff(x, y);
            lemma_lex_cmp_swap(x, y);
        },
        _ => {},
    }
}

/// Law: recoding is idempotent. Two well-formed recoded variables over the
/// same values, name and inclusion carry the same histogram, so recoding a
/// variable twice leaves what the first call produced.
pub proof fn lemma_recode_idempotent(v1: Variable, v2: Variable)
    requires
        v1.wf(),
        v2.wf(),
        v1.mapping@ == MappingModel::Recode,
        v2.mapping@ == MappingModel::Recode,
        v2.values.deep_view() == v1.values.deep_view(),
        v2.name@ == v1.name@,
        v2.is_included == v1.is_included,
    ensures
        v2.histogram@ == v1.histogram@,
{
}

} // verus!
