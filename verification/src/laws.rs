//! What holds of every histogram, stated over the model and proved.
use crate::compress::{closest, compressed, fused};
use crate::compress::{lemma_closest, lemma_compressed, lemma_fused, lemma_fused_in_place};
use crate::estimate::{at_or_below, estimate, reach, span, trapezoid, walk, with_ends};
use crate::estimate::{lemma_trapezoid_whole, lemma_walk_before, lemma_walk_beyond};
use crate::estimate::{lemma_walk_floor, lemma_walk_monotonic, lemma_with_ends};
use crate::model::{absorbed, ascending, finite, highest, lowest, observation, recorded, sound};
use crate::model::{lemma_absorbed_upto, lemma_observation_sound, lemma_recorded};
use crate::model::lemma_totals_single;
use crate::model::{total_moment, total_weight, Node, Ratio};
use vstd::prelude::*;

verus! {

/// The store of a histogram of the given capacity after the observations
/// `values` were added to it one by one, the first of them to an empty
/// histogram.
pub open spec fn observed(capacity: nat, values: Seq<int>) -> Seq<Node>
    decreases values.len(),
{
    if values.len() == 0 {
        Seq::empty()
    } else {
        compressed(
            recorded(observed(capacity, values.drop_last()), observation(values.last())),
            capacity,
        )
    }
}

/// Every value is a finite position.
pub open spec fn all_finite(values: Seq<int>) -> bool {
    forall|i: int| 0 <= i < values.len() ==> lowest() < #[trigger] values[i] < highest()
}

/// The sum of the values.
pub open spec fn sum_of(values: Seq<int>) -> int
    decreases values.len(),
{
    if values.len() == 0 {
        0
    } else {
        sum_of(values.drop_last()) + values.last()
    }
}

/// An addition to any store leaves it in order and, for a capacity of at
/// least one, within the capacity. It adds one to the total weight and the
/// value to the total moment: compression moves nothing but the positions of
/// buckets, each to the exact mean of what it holds.
pub proof fn lemma_addition(s: Seq<Node>, capacity: nat, value: int)
    requires
        ascending(s),
        finite(s),
        lowest() < value < highest(),
    ensures
        ascending(compressed(recorded(s, observation(value)), capacity)),
        finite(compressed(recorded(s, observation(value)), capacity)),
        capacity >= 1 ==> compressed(recorded(s, observation(value)), capacity).len() <= capacity,
        total_weight(compressed(recorded(s, observation(value)), capacity)) == total_weight(s)
            + 1,
        total_moment(compressed(recorded(s, observation(value)), capacity)) == total_moment(s)
            + value,
{
    lemma_observation_sound(value);
    lemma_recorded(s, observation(value));
    lemma_compressed(recorded(s, observation(value)), capacity);
}

/// After any sequence of additions the store is in order, holds no more
/// buckets than a capacity of at least one allows, weighs exactly the number
/// of additions, and has the sum of the added values as its total moment.
pub proof fn lemma_observed(capacity: nat, values: Seq<int>)
    requires
        all_finite(values),
    ensures
        ascending(observed(capacity, values)),
        finite(observed(capacity, values)),
        capacity >= 1 ==> observed(capacity, values).len() <= capacity,
        total_weight(observed(capacity, values)) == values.len(),
        total_moment(observed(capacity, values)) == sum_of(values),
    decreases values.len(),
{
    if values.len() > 0 {
        assert forall|i: int| 0 <= i < values.drop_last().len() implies lowest()
            < #[trigger] values.drop_last()[i] < highest() by {
            assert(values.drop_last()[i] == values[i]);
        }
        lemma_observed(capacity, values.drop_last());
        lemma_addition(observed(capacity, values.drop_last()), capacity, values.last());
    }
}

/// A merge keeps the weight and the moment of both stores: the merged store
/// weighs what the two weighed together, and its total moment is the sum of
/// theirs, whatever the capacity.
pub proof fn lemma_merge_keeps_totals(s: Seq<Node>, other: Seq<Node>, capacity: nat)
    requires
        ascending(s),
        finite(s),
        ascending(other),
        finite(other),
    ensures
        ascending(compressed(absorbed(s, other), capacity)),
        finite(compressed(absorbed(s, other), capacity)),
        total_weight(compressed(absorbed(s, other), capacity)) == total_weight(s) + total_weight(
            other,
        ),
        total_moment(compressed(absorbed(s, other), capacity)) == total_moment(s) + total_moment(
            other,
        ),
        capacity >= 1 ==> compressed(absorbed(s, other), capacity).len() <= capacity,
{
    assert(other.subrange(0, other.len() as int) =~= other);
    lemma_absorbed_upto(s, other, other.len());
    lemma_compressed(absorbed(s, other), capacity);
}

/// The nodes `lo` to `hi - 1` of `s` taken as one bucket: their weights
/// together, at their weighted mean.
pub open spec fn run(s: Seq<Node>, lo: int, hi: int) -> Node {
    let part = s.subrange(lo, hi);
    Node { moment: total_moment(part), scale: total_weight(part), weight: total_weight(part) }
}

/// `cuts` splits `s` into as many runs of neighbours as `r` has nodes, none
/// of them empty, and each node of `r` is the run in its place, taken as one
/// bucket.
pub open spec fn gathers(r: Seq<Node>, s: Seq<Node>, cuts: Seq<int>) -> bool {
    &&& cuts.len() == r.len() + 1
    &&& cuts[0] == 0
    &&& cuts[r.len() as int] == s.len()
    &&& forall|k: int| 0 <= k < r.len() ==> 0 <= #[trigger] cuts[k] < cuts[k + 1] <= s.len()
    &&& forall|k: int| 0 <= k < r.len() ==> #[trigger] r[k] == run(s, cuts[k], cuts[k + 1])
}

/// One node more at the end of a run adds its weight and its moment.
proof fn lemma_run_step(s: Seq<Node>, lo: int, hi: int)
    requires
        0 <= lo <= hi < s.len(),
    ensures
        total_weight(s.subrange(lo, hi + 1)) == total_weight(s.subrange(lo, hi)) + s[hi].weight,
        total_moment(s.subrange(lo, hi + 1)) == total_moment(s.subrange(lo, hi)) + s[hi].moment,
{
    assert(s.subrange(lo, hi + 1).drop_last() =~= s.subrange(lo, hi));
}

/// Where index `c` of a store stands after nodes `i` and `i + 1` of it were
/// fused, index `lifted(c, i)` stood before.
pub open spec fn lifted(c: int, i: int) -> int {
    if c <= i {
        c
    } else {
        c + 1
    }
}

/// A run of the fused store weighs what the run of the same nodes weighed
/// before they were fused, and has its moment.
proof fn lemma_fused_run(s: Seq<Node>, i: int, lo: int, hi: int)
    requires
        ascending(s),
        finite(s),
        0 <= i,
        i + 1 < s.len(),
        0 <= lo <= hi <= s.len() - 1,
    ensures
        total_weight(fused(s, i).subrange(lo, hi)) == total_weight(
            s.subrange(lifted(lo, i), lifted(hi, i)),
        ),
        total_moment(fused(s, i).subrange(lo, hi)) == total_moment(
            s.subrange(lifted(lo, i), lifted(hi, i)),
        ),
    decreases hi - lo,
{
    let f = fused(s, i);
    lemma_fused_in_place(s, i);
    if lo == hi {
        assert(f.subrange(lo, hi) =~= Seq::<Node>::empty());
        assert(s.subrange(lifted(lo, i), lifted(hi, i)) =~= Seq::<Node>::empty());
    } else {
        lemma_fused_run(s, i, lo, hi - 1);
        lemma_run_step(f, lo, hi - 1);
        if hi - 1 < i {
            assert(f[hi - 1] == s[hi - 1]);
            lemma_run_step(s, lo, hi - 1);
        } else if hi - 1 == i {
            lemma_run_step(s, lifted(lo, i), i);
            lemma_run_step(s, lifted(lo, i), i + 1);
        } else {
            assert(f[hi - 1] == s[hi]);
            lemma_run_step(s, lifted(lo, i), hi);
        }
    }
}

/// Compression gathers runs of neighbours: the compressed store splits the
/// store that it came from into runs, and each of its buckets weighs what
/// its run weighed and stands at the weighted mean of its run.
pub proof fn lemma_compressed_gathers(s: Seq<Node>, capacity: nat)
    requires
        ascending(s),
        finite(s),
    ensures
        exists|cuts: Seq<int>| gathers(compressed(s, capacity), s, cuts),
    decreases s.len(),
{
    if s.len() <= capacity || s.len() < 2 {
        let cuts = Seq::new(s.len() + 1, |k: int| k);
        assert forall|k: int| 0 <= k < s.len() implies #[trigger] s[k] == run(
            s,
            cuts[k],
            cuts[k + 1],
        ) by {
            assert(s.subrange(k, k + 1) =~= seq![s[k]]);
            lemma_totals_single(s[k]);
            assert(sound(s[k]));
        }
        assert(gathers(compressed(s, capacity), s, cuts));
    } else {
        let i = closest(s);
        let f = fused(s, i);
        let r = compressed(s, capacity);
        lemma_closest(s);
        lemma_fused(s, i);
        lemma_compressed_gathers(f, capacity);
        let inner = choose|cuts: Seq<int>| gathers(compressed(f, capacity), f, cuts);
        let cuts = Seq::new(inner.len(), |k: int| lifted(inner[k], i));
        assert forall|k: int| 0 <= k < r.len() implies 0 <= #[trigger] cuts[k] < cuts[k + 1]
            <= s.len() by {
            assert(0 <= inner[k] < inner[k + 1] <= f.len());
        }
        assert forall|k: int| 0 <= k < r.len() implies #[trigger] r[k] == run(
            s,
            cuts[k],
            cuts[k + 1],
        ) by {
            assert(0 <= inner[k] < inner[k + 1] <= f.len());
            assert(r[k] == run(f, inner[k], inner[k + 1]));
            lemma_fused_run(s, i, inner[k], inner[k + 1]);
        }
        assert(gathers(r, s, cuts));
    }
}

/// The estimate is a proper fraction and never negative.
pub proof fn lemma_estimate_proper(s: Seq<Node>, threshold: int)
    requires
        ascending(s),
        finite(s),
    ensures
        estimate(s, threshold).den > 0,
        estimate(s, threshold).num >= 0,
{
    let nodes = with_ends(s);
    lemma_with_ends(s);
    if !at_or_below(nodes[0], threshold) {
        lemma_walk_before(nodes, threshold, 0, 0);
        lemma_trapezoid_whole(0);
    } else {
        lemma_walk_floor(nodes, threshold, 0, 0);
        let r = estimate(s, threshold);
        assert(r.num >= 0) by (nonlinear_arith)
            requires
                2 * r.num >= (2 * 0 + 0) * r.den,
        ;
    }
}

/// The estimate does not fall as the threshold rises.
pub proof fn lemma_estimate_monotonic(s: Seq<Node>, lower: int, upper: int)
    requires
        ascending(s),
        finite(s),
        lower <= upper,
    ensures
        estimate(s, lower).le(estimate(s, upper)),
{
    let nodes = with_ends(s);
    lemma_with_ends(s);
    if !at_or_below(nodes[0], lower) {
        lemma_walk_before(nodes, lower, 0, 0);
        lemma_trapezoid_whole(0);
        lemma_estimate_proper(s, upper);
        let r = estimate(s, upper);
        assert(0 * r.den <= r.num * 2) by (nonlinear_arith)
            requires
                r.num >= 0,
        ;
    } else {
        lemma_walk_monotonic(nodes, lower, upper, 0, 0);
    }
}

/// At the lowest position and below it the estimate is zero; at the highest
/// position and above it the estimate is the total weight.
pub proof fn lemma_estimate_at_ends(s: Seq<Node>, threshold: int)
    requires
        ascending(s),
        finite(s),
    ensures
        threshold <= lowest() ==> estimate(s, threshold).is_whole(0),
        threshold >= highest() ==> estimate(s, threshold).is_whole(total_weight(s) as int),
{
    let nodes = with_ends(s);
    lemma_with_ends(s);
    assert(threshold * 1 == threshold) by (nonlinear_arith);
    if threshold < lowest() {
        lemma_walk_before(nodes, threshold, 0, 0);
        lemma_trapezoid_whole(0);
    } else if threshold == lowest() {
        let right = nodes[1];
        if s.len() > 0 {
            assert(right == s[0] && sound(s[0]));
        }
        assert(!at_or_below(right, threshold));
        let rs = right.scale as int;
        let rw = right.weight as int;
        let w = span(nodes[0], right);
        assert((threshold * 1 - lowest()) * rs == 0) by (nonlinear_arith)
            requires
                threshold * 1 - lowest() == 0,
        ;
        assert((2 * 0 + 0) * (w * w) + (2 * 0 * w + 0 * (rw - 0)) * 0 == 0) by (nonlinear_arith);
        let r = estimate(s, threshold);
        assert(r.num == 0);
        assert(0 * r.den == 0) by (nonlinear_arith);
    } else if threshold >= highest() {
        assert(nodes.subrange(0, 0) =~= Seq::<Node>::empty());
        lemma_walk_beyond(nodes, threshold, 0);
        lemma_trapezoid_whole(total_weight(s) as int);
        let r = estimate(s, threshold);
        assert(total_weight(s) * r.den == 2 * total_weight(s)) by (nonlinear_arith)
            requires
                r.den == 2,
        ;
    }
}

/// The estimate never exceeds the total weight.
pub proof fn lemma_estimate_within_total(s: Seq<Node>, threshold: int)
    requires
        ascending(s),
        finite(s),
    ensures
        estimate(s, threshold).le(Ratio { num: total_weight(s) as int, den: 1 }),
{
    let top = if threshold >= highest() {
        threshold
    } else {
        highest()
    };
    lemma_estimate_monotonic(s, threshold, top);
    lemma_estimate_at_ends(s, top);
    lemma_estimate_proper(s, threshold);
    lemma_estimate_proper(s, top);
    let a = estimate(s, threshold);
    let b = estimate(s, top);
    let t = total_weight(s) as int;
    assert(a.num * 1 <= t * a.den) by (nonlinear_arith)
        requires
            a.num * b.den <= b.num * a.den,
            b.num == t * b.den,
            b.den > 0,
            a.den > 0,
    ;
}

/// Of an empty store the estimate is zero at every threshold.
pub proof fn lemma_estimate_of_empty(threshold: int)
    ensures
        estimate(Seq::<Node>::empty(), threshold).is_whole(0),
        estimate(Seq::<Node>::empty(), threshold).den > 0,
{
    let s = Seq::<Node>::empty();
    let nodes = with_ends(s);
    lemma_with_ends(s);
    lemma_estimate_proper(s, threshold);
    let r = estimate(s, threshold);
    assert(0 * r.den == 0) by (nonlinear_arith);
    if at_or_below(nodes[1], threshold) {
        assert(walk(nodes, threshold, 1, 0) == trapezoid(0, 0, 0, 0, 1));
        assert(r == trapezoid(0, 0, 0, 0, 1));
        lemma_trapezoid_whole(0);
    } else if !at_or_below(nodes[0], threshold) {
        lemma_walk_before(nodes, threshold, 0, 0);
        lemma_trapezoid_whole(0);
    } else {
        let w = span(nodes[0], nodes[1]);
        let o = reach(nodes[0], nodes[1], threshold);
        assert((2 * 0 + 0) * (w * w) + (2 * 0 * w + o * (0 - 0)) * o == 0) by (nonlinear_arith);
    }
}

} // verus!
