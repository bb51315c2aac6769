//! The mathematical model of markings and arcs shared by the whole engine.

use vstd::prelude::*;

verus! {

/// The token count that `arcs` move at place `p`: the sum of the
/// non-negative weights of the arcs that point at `p`. Arcs with a negative
/// weight are guards only and never move tokens.
pub open spec fn weight_at(arcs: Seq<(i32, i8)>, p: int) -> int
    decreases arcs.len(),
{
    if arcs.len() == 0 {
        0
    } else {
        let a = arcs.last();
        weight_at(arcs.drop_last(), p) + if a.0 as int == p && a.1 >= 0 {
            a.1 as int
        } else {
            0
        }
    }
}

/// Every arc names a place of a marking with `n` places.
pub open spec fn arcs_fit(arcs: Seq<(i32, i8)>, n: nat) -> bool {
    forall|k: int| 0 <= k < arcs.len() ==> 0 <= #[trigger] arcs[k].0 && (arcs[k].0 as int) < n
}

/// The condition that one input arc puts on the marking: at least `w`
/// tokens for a weight `w >= 0`, fewer than `|w|` tokens for an inhibitory
/// weight `w < 0`.
pub open spec fn arc_holds(m: Seq<i32>, a: (i32, i8)) -> bool {
    if a.1 < 0 {
        (m[a.0 as int] as int) < -(a.1 as int)
    } else {
        (m[a.0 as int] as int) >= (a.1 as int)
    }
}

/// Every input arc's condition holds in `m`.
pub open spec fn arcs_hold(m: Seq<i32>, input: Seq<(i32, i8)>) -> bool {
    forall|k: int| 0 <= k < input.len() ==> arc_holds(m, #[trigger] input[k])
}

/// No place holds a negative token count.
pub open spec fn non_negative(m: Seq<i32>) -> bool {
    forall|p: int| 0 <= p < m.len() ==> 0 <= #[trigger] m[p]
}

/// Every place holds at least the tokens that `input` consumes from it.
pub open spec fn covers(m: Seq<i32>, input: Seq<(i32, i8)>) -> bool {
    forall|p: int| 0 <= p < m.len() ==> weight_at(input, p) <= #[trigger] m[p]
}

/// The count that place `p` holds after consuming `input` and producing
/// `output` from `m`, as an unbounded integer.
pub open spec fn count_after(m: Seq<i32>, input: Seq<(i32, i8)>, output: Seq<(i32, i8)>, p: int) -> int {
    m[p] - weight_at(input, p) + weight_at(output, p)
}

/// Some place would hold more than `i32::MAX` tokens after the firing.
pub open spec fn overflows(m: Seq<i32>, input: Seq<(i32, i8)>, output: Seq<(i32, i8)>) -> bool {
    exists|p: int| 0 <= p < m.len() && count_after(m, input, output, p) > i32::MAX
}

/// `after` is `before` with the effect of one firing applied: each place
/// loses what `input` consumes from it and gains what `output` produces there.
pub open spec fn fires_to(
    before: Seq<i32>,
    input: Seq<(i32, i8)>,
    output: Seq<(i32, i8)>,
    after: Seq<i32>,
) -> bool {
    &&& after.len() == before.len()
    &&& forall|p: int|
        0 <= p < before.len() ==> #[trigger] after[p] as int == count_after(before, input, output, p)
}

/// A prefix of a list of arcs moves no more tokens at a place than the whole list.
pub proof fn lemma_weight_prefix(arcs: Seq<(i32, i8)>, k: int, p: int)
    requires
        0 <= k <= arcs.len(),
    ensures
        0 <= weight_at(arcs.take(k), p) <= weight_at(arcs, p),
    decreases arcs.len(),
{
    if k == arcs.len() {
        assert(arcs.take(k) =~= arcs);
        lemma_weight_non_negative(arcs, p);
    } else {
        assert(arcs.drop_last().take(k) =~= arcs.take(k));
        lemma_weight_prefix(arcs.drop_last(), k, p);
    }
}

/// Arcs never move a negative number of tokens.
pub proof fn lemma_weight_non_negative(arcs: Seq<(i32, i8)>, p: int)
    ensures
        0 <= weight_at(arcs, p),
    decreases arcs.len(),
{
    if arcs.len() > 0 {
        lemma_weight_non_negative(arcs.drop_last(), p);
    }
}

/// Extending a prefix of arcs by one arc adds that arc's contribution.
pub proof fn lemma_weight_step(arcs: Seq<(i32, i8)>, k: int, p: int)
    requires
        0 <= k < arcs.len(),
    ensures
        weight_at(arcs.take(k + 1), p) == weight_at(arcs.take(k), p) + if arcs[k].0 as int == p
            && arcs[k].1 >= 0 {
            arcs[k].1 as int
        } else {
            0
        },
{
    assert(arcs.take(k + 1).drop_last() =~= arcs.take(k));
}

/// A firing applied to a marking that covers what it consumes leaves every
/// token count non-negative.
pub proof fn lemma_firing_keeps_non_negative(
    before: Seq<i32>,
    input: Seq<(i32, i8)>,
    output: Seq<(i32, i8)>,
    after: Seq<i32>,
)
    requires
        covers(before, input),
        fires_to(before, input, output, after),
    ensures
        non_negative(after),
{
    assert forall|p: int| 0 <= p < after.len() implies 0 <= #[trigger] after[p] by {
        assert(weight_at(input, p) <= before[p]);
        lemma_weight_non_negative(output, p);
    }
}

} // verus!
