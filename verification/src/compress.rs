//! Compression: fusing the closest neighbours until the store fits its
//! capacity.
use crate::model::{ascending, before, finite, joined, recorded, sound, Node, Ratio};
use crate::model::{lemma_before_chain, lemma_joined, lemma_rank_bound, lemma_rank_found};
use crate::model::{lemma_ratio_chain, lemma_totals_remove, lemma_totals_update};
use crate::model::{total_moment, total_weight};
use vstd::prelude::*;

verus! {

/// The distance from `a` to `b`, as an exact fraction.
pub open spec fn gap_between(a: Node, b: Node) -> Ratio {
    Ratio { num: b.moment * a.scale - a.moment * b.scale, den: (a.scale * b.scale) as int }
}

/// The distance from node `i` to its right neighbour.
pub open spec fn gap(s: Seq<Node>, i: int) -> Ratio {
    gap_between(s[i], s[i + 1])
}

/// Among the first `n` pairs of neighbours, the index of the left node of the
/// pair with the smallest gap; of several such pairs, the leftmost.
pub open spec fn closest_among(s: Seq<Node>, n: nat) -> int
    decreases n,
{
    if n <= 1 {
        0
    } else {
        let best = closest_among(s, (n - 1) as nat);
        if gap(s, n - 1).lt(gap(s, best)) {
            n - 1
        } else {
            best
        }
    }
}

/// The index of the left node of the closest pair of neighbours in `s`, the
/// leftmost of them where several pairs are equally close.
pub open spec fn closest(s: Seq<Node>) -> int {
    closest_among(s, (s.len() - 1) as nat)
}

/// The gap between two buckets is a proper fraction.
pub proof fn lemma_gap_proper(a: Node, b: Node)
    requires
        a.scale >= 1,
        b.scale >= 1,
    ensures
        gap_between(a, b).den > 0,
        before(a, b) <==> gap_between(a, b).num > 0,
{
    assert(a.scale * b.scale > 0) by (nonlinear_arith)
        requires
            a.scale >= 1,
            b.scale >= 1,
    ;
}

/// `closest_among` names a pair whose gap no other of the first `n` pairs
/// undercuts, and which every pair to its left exceeds.
pub proof fn lemma_closest_among(s: Seq<Node>, n: nat)
    requires
        finite(s),
        1 <= n < s.len(),
    ensures
        0 <= closest_among(s, n) < n,
        forall|j: int| 0 <= j < n ==> gap(s, closest_among(s, n)).le(#[trigger] gap(s, j)),
        forall|j: int|
            0 <= j < closest_among(s, n) ==> gap(s, closest_among(s, n)).lt(#[trigger] gap(s, j)),
    decreases n,
{
    if n > 1 {
        lemma_closest_among(s, (n - 1) as nat);
        let best = closest_among(s, (n - 1) as nat);
        let last = gap(s, n - 1);
        if last.lt(gap(s, best)) {
            assert forall|j: int| 0 <= j < n - 1 implies last.lt(#[trigger] gap(s, j)) by {
                assert(sound(s[j]) && sound(s[j + 1]) && sound(s[best]) && sound(s[best + 1])
                    && sound(s[n - 1]) && sound(s[n as int]));
                lemma_gap_proper(s[j], s[j + 1]);
                lemma_gap_proper(s[best], s[best + 1]);
                lemma_gap_proper(s[n - 1], s[n as int]);
                lemma_ratio_chain(last, gap(s, best), gap(s, j));
            }
        }
    }
}

/// Of a store with at least two buckets, `closest` names a pair of
/// neighbours whose gap no other pair undercuts, and which every pair to its
/// left exceeds.
pub proof fn lemma_closest(s: Seq<Node>)
    requires
        finite(s),
        s.len() >= 2,
    ensures
        0 <= closest(s) < s.len() - 1,
        forall|j: int| 0 <= j < s.len() - 1 ==> gap(s, closest(s)).le(#[trigger] gap(s, j)),
        forall|j: int| 0 <= j < closest(s) ==> gap(s, closest(s)).lt(#[trigger] gap(s, j)),
{
    lemma_closest_among(s, (s.len() - 1) as nat);
}

/// The store after nodes `i` and `i + 1` were fused: both are taken out, and
/// the two joined, at their weighted mean, are recorded in what is left,
/// where a node at the position of the mean would take up its weight.
pub open spec fn fused(s: Seq<Node>, i: int) -> Seq<Node> {
    recorded(s.remove(i + 1).remove(i), joined(s[i], s[i + 1]))
}

/// The mean lies strictly between the two nodes that it replaces, so it never
/// meets the position of a third node: fusing puts the mean in the place of
/// the left node and takes the right node out.
pub proof fn lemma_fused_in_place(s: Seq<Node>, i: int)
    requires
        ascending(s),
        finite(s),
        0 <= i,
        i + 1 < s.len(),
    ensures
        fused(s, i) == s.update(i, joined(s[i], s[i + 1])).remove(i + 1),
        before(s[i], joined(s[i], s[i + 1])),
        before(joined(s[i], s[i + 1]), s[i + 1]),
        sound(joined(s[i], s[i + 1])),
{
    let m = joined(s[i], s[i + 1]);
    let rest = s.remove(i + 1).remove(i);
    assert(sound(s[i]) && sound(s[i + 1]));
    assert(before(s[i], s[i + 1]));
    lemma_joined(s[i], s[i + 1]);
    assert forall|a: int, b: int| 0 <= a < b < rest.len() implies before(rest[a], rest[b]) by {
        let a0 = if a < i { a } else { a + 2 };
        let b0 = if b < i { b } else { b + 2 };
        assert(rest[a] == s[a0] && rest[b] == s[b0]);
    }
    assert forall|k: int| 0 <= k < rest.len() implies sound(#[trigger] rest[k]) by {
        let k0 = if k < i { k } else { k + 2 };
        assert(rest[k] == s[k0]);
    }
    assert forall|j: int| 0 <= j < i implies before(#[trigger] rest[j], m) by {
        assert(rest[j] == s[j]);
        assert(before(s[j], s[i]) && sound(s[j]));
        lemma_before_chain(s[j], s[i], m);
    }
    if i < rest.len() {
        assert(rest[i] == s[i + 2]);
        assert(before(s[i + 1], s[i + 2]) && sound(s[i + 2]));
        lemma_before_chain(m, s[i + 1], s[i + 2]);
    }
    lemma_rank_found(rest, m, i);
    assert(rest.insert(i, m) =~= s.update(i, m).remove(i + 1));
}

/// Fusing two neighbours keeps the order, the total weight and the total
/// moment, and leaves one node less.
pub proof fn lemma_fused(s: Seq<Node>, i: int)
    requires
        ascending(s),
        finite(s),
        0 <= i,
        i + 1 < s.len(),
    ensures
        ascending(fused(s, i)),
        finite(fused(s, i)),
        total_weight(fused(s, i)) == total_weight(s),
        total_moment(fused(s, i)) == total_moment(s),
        fused(s, i).len() == s.len() - 1,
{
    let m = joined(s[i], s[i + 1]);
    let u = s.update(i, m);
    let f = fused(s, i);
    lemma_fused_in_place(s, i);
    lemma_totals_update(s, i, m);
    lemma_totals_remove(u, i + 1);
    assert forall|a: int, b: int| 0 <= a < b < f.len() implies before(f[a], f[b]) by {
        let a0 = if a <= i { a } else { a + 1 };
        let b0 = if b <= i { b } else { b + 1 };
        assert(before(s[a0], s[b0]));
        assert(sound(s[a0]) && sound(s[b0]) && sound(s[i]) && sound(s[i + 1]));
        if b == i {
            lemma_before_chain(s[a], s[i], m);
        }
        if a == i {
            if b0 > i + 1 {
                assert(before(s[i + 1], s[b0]));
            }
            lemma_before_chain(m, s[i + 1], s[b0]);
        }
    }
    assert forall|k: int| 0 <= k < f.len() implies sound(#[trigger] f[k]) by {
        let k0 = if k <= i { k } else { k + 1 };
        assert(sound(s[k0]));
    }
}

/// The store after compression to `capacity`: while it holds more nodes than
/// that, the closest pair of neighbours is fused. A single node has no
/// neighbour, so a store never shrinks below one node.
pub open spec fn compressed(s: Seq<Node>, capacity: nat) -> Seq<Node>
    decreases s.len(),
    via compressed_shrinks
{
    if s.len() <= capacity || s.len() < 2 {
        s
    } else {
        compressed(fused(s, closest(s)), capacity)
    }
}

#[via_fn]
proof fn compressed_shrinks(s: Seq<Node>, capacity: nat) {
    if s.len() >= 2 {
        lemma_closest_index(s, (s.len() - 1) as nat);
        let i = closest(s);
        lemma_rank_bound(s.remove(i + 1).remove(i), joined(s[i], s[i + 1]));
    }
}

/// `closest_among` names one of the first `n` pairs.
proof fn lemma_closest_index(s: Seq<Node>, n: nat)
    requires
        1 <= n,
    ensures
        0 <= closest_among(s, n) < n,
    decreases n,
{
    if n > 1 {
        lemma_closest_index(s, (n - 1) as nat);
    }
}

/// Compression keeps the order, the total weight and the total moment, and
/// ends within the capacity whenever the capacity is at least one.
pub proof fn lemma_compressed(s: Seq<Node>, capacity: nat)
    requires
        ascending(s),
        finite(s),
    ensures
        ascending(compressed(s, capacity)),
        finite(compressed(s, capacity)),
        total_weight(compressed(s, capacity)) == total_weight(s),
        total_moment(compressed(s, capacity)) == total_moment(s),
        compressed(s, capacity).len() <= s.len(),
        capacity >= 1 || s.len() == 0 ==> compressed(s, capacity).len() <= capacity,
        s.len() <= capacity ==> compressed(s, capacity) == s,
    decreases s.len(),
{
    if !(s.len() <= capacity || s.len() < 2) {
        lemma_closest_index(s, (s.len() - 1) as nat);
        lemma_fused(s, closest(s));
        lemma_compressed(fused(s, closest(s)), capacity);
    }
}

} // verus!
