//! The histogram itself: a bounded store of buckets in a vector, kept in
//! ascending order of position.
use crate::compress::{closest, closest_among, compressed, fused, gap_between};
use crate::compress::{lemma_compressed, lemma_fused, lemma_fused_in_place, lemma_gap_proper};
use crate::estimate::{at_or_below, end, estimate, interpolated, walk, with_ends, Estimate};
use crate::estimate::{lemma_reach, lemma_trapezoid_parts, lemma_trapezoid_whole};
use crate::estimate::{lemma_with_ends, placed};
use crate::model::{absorbed, absorbed_upto, ascending, before, finite, highest, level};
use crate::model::{lemma_absorbed_upto, lemma_observation_sound, lemma_rank_found};
use crate::model::lemma_recorded;
use crate::model::{lemma_total_weight_prefix, lemma_total_weight_step, lemma_totals_remove};
use crate::model::{observation, recorded, sound, total_moment, total_weight, Node, Ratio};
use crate::wide::Wide;
use vstd::prelude::*;

verus! {

/// A bucket: `weight` observations whose positions add up to `moment`. It
/// stands at their mean, `moment / weight`.
#[derive(Clone, Copy, Debug)]
pub struct Bucket {
    pub moment: i64,
    pub weight: u32,
}

impl View for Bucket {
    type V = Node;

    open spec fn view(&self) -> Node {
        Node { moment: self.moment as int, scale: self.weight as nat, weight: self.weight as nat }
    }
}

/// The nodes that a vector of buckets stands for.
pub open spec fn nodes_of(buckets: Seq<Bucket>) -> Seq<Node> {
    Seq::new(buckets.len(), |i: int| buckets[i]@)
}

/// A streaming histogram that keeps at most `capacity` buckets.
#[derive(Clone, Debug)]
pub struct Histogram {
    size: usize,
    buckets: Vec<Bucket>,
}

impl View for Histogram {
    type V = Seq<Node>;

    closed spec fn view(&self) -> Seq<Node> {
        nodes_of(self.buckets@)
    }
}

impl Histogram {
    /// The largest number of buckets that the histogram keeps.
    pub closed spec fn spec_capacity(&self) -> usize {
        self.size
    }

    /// The buckets ascend strictly by position, each holds at least one
    /// observation at a finite position, there are no more of them than the
    /// capacity allows, and their total weight can be counted.
    pub open spec fn wf(&self) -> bool {
        &&& ascending(self@)
        &&& finite(self@)
        &&& self@.len() <= self.spec_capacity()
        &&& total_weight(self@) <= u32::MAX
    }

    /// An empty histogram that keeps at most `size` buckets.
    pub fn new(size: usize) -> (h: Histogram)
        ensures
            h.wf(),
            h@ == Seq::<Node>::empty(),
            h.spec_capacity() == size,
    {
        let h = Histogram { size, buckets: Vec::new() };
        assert(h@ =~= Seq::<Node>::empty());
        h
    }

    /// The largest number of buckets that the histogram keeps.
    #[verifier::when_used_as_spec(spec_capacity)]
    pub fn capacity(&self) -> (c: usize)
        ensures
            c == self.spec_capacity(),
    {
        self.size
    }

    /// The number of buckets that the histogram holds.
    pub fn len(&self) -> (n: usize)
        ensures
            n == self@.len(),
    {
        self.buckets.len()
    }

    /// The number of observations that the histogram stands for.
    pub fn total_weight(&self) -> (w: u32)
        requires
            self.wf(),
        ensures
            w == total_weight(self@),
    {
        let n: usize = self.buckets.len();
        let mut w: u32 = 0;
        let mut i: usize = 0;
        proof {
            assert(self@.subrange(0, 0) =~= Seq::<Node>::empty());
        }
        while i < n
            invariant
                n == self.buckets.len(),
                i <= n,
                total_weight(self@) <= u32::MAX,
                w == total_weight(self@.subrange(0, i as int)),
            decreases n - i,
        {
            proof {
                lemma_total_weight_step(self@, i as int);
                lemma_total_weight_prefix(self@, i + 1, i + 1);
            }
            w = w + self.buckets[i].weight;
            i = i + 1;
        }
        assert(self@.subrange(0, n as int) =~= self@);
        w
    }

    /// The buckets of the histogram, in ascending order of position.
    pub fn buckets(&self) -> (v: Vec<Bucket>)
        ensures
            nodes_of(v@) == self@,
    {
        let n: usize = self.buckets.len();
        let mut v: Vec<Bucket> = Vec::new();
        let mut i: usize = 0;
        while i < n
            invariant
                n == self.buckets.len(),
                i <= n,
                v@ == self.buckets@.subrange(0, i as int),
            decreases n - i,
        {
            v.push(self.buckets[i]);
            assert(v@ =~= self.buckets@.subrange(0, i + 1));
            i = i + 1;
        }
        assert(v@ =~= self.buckets@);
        v
    }

    /// Records one observation at `value`, then compresses to the capacity.
    pub fn add(&mut self, value: i32)
        requires
            old(self).wf(),
            old(self).spec_capacity() >= 1,
            i32::MIN < value < i32::MAX,
            total_weight(old(self)@) < u32::MAX,
        ensures
            final(self).wf(),
            final(self).spec_capacity() == old(self).spec_capacity(),
            final(self)@ == compressed(
                recorded(old(self)@, observation(value as int)),
                old(self).spec_capacity() as nat,
            ),
            final(self)@.len() <= final(self).spec_capacity(),
            total_weight(final(self)@) == total_weight(old(self)@) + 1,
            total_moment(final(self)@) == total_moment(old(self)@) + value,
    {
        let one = Bucket { moment: value as i64, weight: 1 };
        proof {
            lemma_observation_sound(value as int);
            assert(one@ == observation(value as int));
            lemma_recorded(self@, one@);
            lemma_compressed(recorded(self@, one@), self.size as nat);
        }
        self.record(one);
        self.trim();
    }

    /// Adds every bucket of `other` to the bucket at the same position,
    /// making that bucket where there is none, then compresses to the
    /// capacity of `self`.
    pub fn merge_from(&mut self, other: &Histogram)
        requires
            old(self).wf(),
            other.wf(),
            old(self).spec_capacity() >= 1 || other@.len() == 0,
            total_weight(old(self)@) + total_weight(other@) <= u32::MAX,
        ensures
            final(self).wf(),
            final(self).spec_capacity() == old(self).spec_capacity(),
            final(self)@ == compressed(
                absorbed(old(self)@, other@),
                old(self).spec_capacity() as nat,
            ),
            final(self)@.len() <= final(self).spec_capacity(),
            total_weight(final(self)@) == total_weight(old(self)@) + total_weight(other@),
            total_moment(final(self)@) == total_moment(old(self)@) + total_moment(other@),
    {
        let n: usize = other.buckets.len();
        let mut j: usize = 0;
        proof {
            assert(other@.subrange(0, n as int) =~= other@);
            lemma_absorbed_upto(self@, other@, n as nat);
            lemma_compressed(absorbed(self@, other@), self.size as nat);
        }
        while j < n
            invariant
                n == other.buckets.len(),
                j <= n,
                other.wf(),
                ascending(old(self)@),
                finite(old(self)@),
                total_weight(old(self)@) + total_weight(other@) <= u32::MAX,
                self.size == old(self).size,
                self@ == absorbed_upto(old(self)@, other@, j as nat),
            decreases n - j,
        {
            let b: Bucket = other.buckets[j];
            proof {
                assert(b@ == other@[j as int]);
                lemma_absorbed_upto(old(self)@, other@, j as nat);
                lemma_total_weight_step(other@, j as int);
                lemma_total_weight_prefix(other@, j + 1, j + 1);
            }
            self.record(b);
            j = j + 1;
        }
        self.trim();
    }

    /// Adds the bucket `n` to the store.
    fn record(&mut self, n: Bucket)
        requires
            ascending(old(self)@),
            finite(old(self)@),
            sound(n@),
            total_weight(old(self)@) + n.weight <= u32::MAX,
        ensures
            final(self).size == old(self).size,
            final(self)@ == recorded(old(self)@, n@),
    {
        let len: usize = self.buckets.len();
        let mut i: usize = 0;
        while i < len && lies_before(self.buckets[i], n)
            invariant
                len == self.buckets.len(),
                i <= len,
                forall|j: int| 0 <= j < i ==> before(#[trigger] self@[j], n@),
            decreases len - i,
        {
            i = i + 1;
        }
        proof {
            lemma_rank_found(self@, n@, i as int);
        }
        if i < len && same_place(self.buckets[i], n) {
            let held: Bucket = self.buckets[i];
            proof {
                assert(held@ == self@[i as int] && sound(held@));
                lemma_totals_remove(self@, i as int);
            }
            self.buckets.set(
                i,
                Bucket { moment: held.moment + n.moment, weight: held.weight + n.weight },
            );
        } else {
            self.buckets.insert(i, n);
        }
        assert(self@ =~= recorded(old(self)@, n@));
    }

    /// The index of the left bucket of the closest pair of neighbours.
    fn closest_pair(&self) -> (i: usize)
        requires
            ascending(self@),
            finite(self@),
            self@.len() >= 2,
        ensures
            i == closest(self@),
            i + 1 < self@.len(),
    {
        let n: usize = self.buckets.len();
        let mut best: usize = 0;
        let mut j: usize = 1;
        while j + 1 < n
            invariant
                n == self.buckets.len(),
                n >= 2,
                1 <= j < n,
                ascending(self@),
                finite(self@),
                best == closest_among(self@, j as nat),
                best < j,
            decreases n - j,
        {
            proof {
                assert(sound(self@[j as int]) && sound(self@[j + 1]));
                assert(sound(self@[best as int]) && sound(self@[best + 1]));
                assert(before(self@[j as int], self@[j + 1]));
                assert(before(self@[best as int], self@[best + 1]));
            }
            if gap_less(
                self.buckets[j],
                self.buckets[j + 1],
                self.buckets[best],
                self.buckets[best + 1],
            ) {
                best = j;
            }
            j = j + 1;
        }
        best
    }

    /// Fuses buckets `i` and `i + 1` into one at their weighted mean.
    fn fuse(&mut self, i: usize)
        requires
            ascending(old(self)@),
            finite(old(self)@),
            total_weight(old(self)@) <= u32::MAX,
            i + 1 < old(self)@.len(),
        ensures
            final(self).size == old(self).size,
            final(self)@ == fused(old(self)@, i as int),
    {
        assert(self@.len() == self.buckets.len());
        let a: Bucket = self.buckets[i];
        let b: Bucket = self.buckets[i + 1];
        proof {
            assert(a@ == self@[i as int] && b@ == self@[i + 1]);
            assert(sound(a@) && sound(b@));
            lemma_totals_remove(self@, i as int);
            lemma_totals_remove(self@.remove(i as int), i as int);
            lemma_fused_in_place(self@, i as int);
        }
        self.buckets.set(i, Bucket { moment: a.moment + b.moment, weight: a.weight + b.weight });
        self.buckets.remove(i + 1);
        assert(self@ =~= fused(old(self)@, i as int));
    }

    /// Fuses the closest pair of neighbours until the store fits the
    /// capacity.
    fn trim(&mut self)
        requires
            ascending(old(self)@),
            finite(old(self)@),
            total_weight(old(self)@) <= u32::MAX,
            old(self).size >= 1 || old(self)@.len() == 0,
        ensures
            final(self).size == old(self).size,
            final(self)@ == compressed(old(self)@, old(self).size as nat),
    {
        while self.buckets.len() > self.size
            invariant
                ascending(self@),
                finite(self@),
                total_weight(self@) <= u32::MAX,
                self.size >= 1 || self@.len() == 0,
                self.size == old(self).size,
                compressed(self@, self.size as nat) == compressed(
                    old(self)@,
                    old(self).size as nat,
                ),
            decreases self.buckets.len(),
        {
            let i: usize = self.closest_pair();
            proof {
                lemma_fused(self@, i as int);
            }
            self.fuse(i);
        }
    }

    /// The estimated number of observations at or below `leq`.
    pub fn sum(&self, leq: i32) -> (r: Estimate)
        requires
            self.wf(),
        ensures
            r@ == estimate(self@, leq as int),
            r@.den > 0,
    {
        let n: usize = self.buckets.len();
        let ghost nodes = with_ends(self@);
        let mut below: u32 = 0;
        let mut left: Knot = Knot { moment: i32::MIN as i64, scale: 1, weight: 0 };
        let mut i: usize = 0;
        proof {
            assert(nodes.subrange(0, 0) =~= Seq::<Node>::empty());
            lemma_with_ends(self@);
            assert(leq * 1 == leq) by (nonlinear_arith);
        }
        while i < n
            invariant
                n == self.buckets.len(),
                nodes == with_ends(self@),
                nodes.len() == n + 2,
                ascending(nodes),
                placed(nodes),
                total_weight(nodes) <= u32::MAX,
                forall|k: int| 0 <= k < n ==> nodes[k + 1] == #[trigger] self@[k],
                nodes.last() == end(highest()),
                i <= n,
                left@ == nodes[i as int],
                at_or_below(left@, leq as int),
                below == total_weight(nodes.subrange(0, i as int)),
                estimate(self@, leq as int) == walk(nodes, leq as int, i as int, below as int),
            decreases n - i,
        {
            let b: Bucket = self.buckets[i];
            let right: Knot = Knot { moment: b.moment, scale: b.weight, weight: b.weight };
            proof {
                assert(b@ == self@[i as int]);
                assert(right@ == nodes[i + 1]);
                lemma_weight_so_far(nodes, i as int);
            }
            if !reaches(right, leq) {
                return interpolate(left, right, leq, below);
            }
            below = below + left.weight;
            left = right;
            i = i + 1;
        }
        let right: Knot = Knot { moment: i32::MAX as i64, scale: 1, weight: 0 };
        proof {
            assert(right@ == nodes[i + 1]);
            lemma_weight_so_far(nodes, i as int);
        }
        if !reaches(right, leq) {
            interpolate(left, right, leq, below)
        } else {
            let count: u128 = (below + left.weight) as u128;
            let r = Estimate {
                numerator: Wide::from_u128(2 * count),
                denominator: Wide::from_u128(2),
            };
            proof {
                lemma_trapezoid_whole(count as int);
            }
            assert(r@ == walk(nodes, leq as int, i + 1, below + left.weight));
            r
        }
    }
}

/// A node of the walk: a bucket, or one of the two ends.
#[derive(Clone, Copy)]
struct Knot {
    moment: i64,
    scale: u32,
    weight: u32,
}

impl View for Knot {
    type V = Node;

    closed spec fn view(&self) -> Node {
        Node { moment: self.moment as int, scale: self.scale as nat, weight: self.weight as nat }
    }
}

/// The weight counted before pair `i`, its left node and its right node
/// together weigh no more than all the nodes, and the left node is what the
/// next pair has more before it.
proof fn lemma_weight_so_far(nodes: Seq<Node>, i: int)
    requires
        0 <= i,
        i + 1 < nodes.len(),
    ensures
        total_weight(nodes.subrange(0, i + 1)) == total_weight(nodes.subrange(0, i))
            + nodes[i].weight,
        total_weight(nodes.subrange(0, i)) + nodes[i].weight + nodes[i + 1].weight
            <= total_weight(nodes),
{
    lemma_total_weight_step(nodes, i);
    lemma_total_weight_step(nodes, i + 1);
    lemma_total_weight_prefix(nodes, i + 2, i + 2);
}

/// Whether `a` lies strictly to the left of `b`.
fn lies_before(a: Bucket, b: Bucket) -> (r: bool)
    ensures
        r == before(a@, b@),
{
    assert(-0x8000_0000_0000_0000 * 0xffff_ffff <= a.moment * b.weight <= 0x8000_0000_0000_0000
        * 0xffff_ffff) by (nonlinear_arith);
    assert(-0x8000_0000_0000_0000 * 0xffff_ffff <= b.moment * a.weight <= 0x8000_0000_0000_0000
        * 0xffff_ffff) by (nonlinear_arith);
    (a.moment as i128) * (b.weight as i128) < (b.moment as i128) * (a.weight as i128)
}

/// Whether `a` and `b` lie at the same position.
fn same_place(a: Bucket, b: Bucket) -> (r: bool)
    ensures
        r == level(a@, b@),
{
    assert(-0x8000_0000_0000_0000 * 0xffff_ffff <= a.moment * b.weight <= 0x8000_0000_0000_0000
        * 0xffff_ffff) by (nonlinear_arith);
    assert(-0x8000_0000_0000_0000 * 0xffff_ffff <= b.moment * a.weight <= 0x8000_0000_0000_0000
        * 0xffff_ffff) by (nonlinear_arith);
    (a.moment as i128) * (b.weight as i128) == (b.moment as i128) * (a.weight as i128)
}

/// Whether the node lies at or below the threshold.
fn reaches(k: Knot, leq: i32) -> (r: bool)
    ensures
        r == at_or_below(k@, leq as int),
{
    assert(-0x8000_0000 * 0xffff_ffff <= leq * k.scale <= 0x8000_0000 * 0xffff_ffff)
        by (nonlinear_arith);
    (k.moment as i128) <= (leq as i128) * (k.scale as i128)
}

/// Two fractions compare as their whole parts do, and where these agree, as
/// what is left over them.
proof fn lemma_fraction_order(n1: int, d1: int, n2: int, d2: int)
    requires
        n1 >= 0,
        n2 >= 0,
        d1 > 0,
        d2 > 0,
    ensures
        (Ratio { num: n1, den: d1 }).lt(Ratio { num: n2, den: d2 }) <==> (n1 / d1 < n2 / d2 || (n1
            / d1 == n2 / d2 && (n1 % d1) * d2 < (n2 % d2) * d1)),
        0 <= n1 % d1 < d1,
        0 <= n2 % d2 < d2,
        0 <= (n1 % d1) * d2 < d1 * d2,
        0 <= (n2 % d2) * d1 < d1 * d2,
{
    let q1 = n1 / d1;
    let r1 = n1 % d1;
    let q2 = n2 / d2;
    let r2 = n2 % d2;
    let d = d1 * d2;
    assert(n1 == q1 * d1 + r1 && 0 <= r1 < d1) by (nonlinear_arith)
        requires
            d1 > 0,
            q1 == n1 / d1,
            r1 == n1 % d1,
    ;
    assert(n2 == q2 * d2 + r2 && 0 <= r2 < d2) by (nonlinear_arith)
        requires
            d2 > 0,
            q2 == n2 / d2,
            r2 == n2 % d2,
    ;
    assert(n1 * d2 == q1 * d + r1 * d2 && n2 * d1 == q2 * d + r2 * d1) by (nonlinear_arith)
        requires
            n1 == q1 * d1 + r1,
            n2 == q2 * d2 + r2,
            d == d1 * d2,
    ;
    assert(0 <= r1 * d2 < d && 0 <= r2 * d1 < d) by (nonlinear_arith)
        requires
            0 <= r1 < d1,
            0 <= r2 < d2,
            d == d1 * d2,
    ;
    if q1 < q2 {
        assert(q1 * d + d <= q2 * d) by (nonlinear_arith)
            requires
                q1 + 1 <= q2,
                d > 0,
        ;
    } else if q2 < q1 {
        assert(q2 * d + d <= q1 * d) by (nonlinear_arith)
            requires
                q2 + 1 <= q1,
                d > 0,
        ;
    }
}

/// Whether the gap from `a` to `b` is smaller than the gap from `c` to `d`.
fn gap_less(a: Bucket, b: Bucket, c: Bucket, d: Bucket) -> (r: bool)
    requires
        sound(a@),
        sound(b@),
        sound(c@),
        sound(d@),
        before(a@, b@),
        before(c@, d@),
    ensures
        r == gap_between(a@, b@).lt(gap_between(c@, d@)),
{
    proof {
        lemma_gap_proper(a@, b@);
        lemma_gap_proper(c@, d@);
    }
    let n1: u128 = gap_over(a, b);
    let d1: u128 = gap_under(a, b);
    let n2: u128 = gap_over(c, d);
    let d2: u128 = gap_under(c, d);
    proof {
        lemma_fraction_order(n1 as int, d1 as int, n2 as int, d2 as int);
        assert(d1 * d2 <= 0xffff_fffe_0000_0001 * 0xffff_fffe_0000_0001) by (nonlinear_arith)
            requires
                d1 <= 0xffff_fffe_0000_0001,
                d2 <= 0xffff_fffe_0000_0001,
        ;
    }
    let q1: u128 = n1 / d1;
    let q2: u128 = n2 / d2;
    if q1 != q2 {
        q1 < q2
    } else {
        (n1 % d1) * d2 < (n2 % d2) * d1
    }
}

/// The numerator of the gap from `a` to `b`.
fn gap_over(a: Bucket, b: Bucket) -> (n: u128)
    requires
        before(a@, b@),
    ensures
        n == gap_between(a@, b@).num,
{
    assert(-0x8000_0000_0000_0000 * 0xffff_ffff <= a.moment * b.weight <= 0x8000_0000_0000_0000
        * 0xffff_ffff) by (nonlinear_arith);
    assert(-0x8000_0000_0000_0000 * 0xffff_ffff <= b.moment * a.weight <= 0x8000_0000_0000_0000
        * 0xffff_ffff) by (nonlinear_arith);
    let over: i128 = (b.moment as i128) * (a.weight as i128) - (a.moment as i128) * (
    b.weight as i128);
    over as u128
}

/// The denominator of the gap from `a` to `b`.
fn gap_under(a: Bucket, b: Bucket) -> (d: u128)
    ensures
        d == gap_between(a@, b@).den,
        d <= 0xffff_fffe_0000_0001,
{
    assert(0 <= a.weight * b.weight <= 0xffff_ffff * 0xffff_ffff) by (nonlinear_arith);
    (a.weight as u128) * (b.weight as u128)
}

/// The estimate inside one segment, as `interpolated` states it.
fn interpolate(left: Knot, right: Knot, leq: i32, below: u32) -> (r: Estimate)
    requires
        left.scale >= 1,
        right.scale >= 1,
        before(left@, right@),
        at_or_below(left@, leq as int),
        !at_or_below(right@, leq as int),
        below + left.weight + right.weight <= u32::MAX,
    ensures
        r@ == interpolated(left@, right@, leq as int, below as int),
        r@.den > 0,
{
    proof {
        lemma_reach(left@, right@, leq as int, leq as int);
    }
    assert(-0x8000_0000_0000_0000 * 0xffff_ffff <= left.moment * right.scale
        <= 0x8000_0000_0000_0000 * 0xffff_ffff) by (nonlinear_arith);
    assert(-0x8000_0000_0000_0000 * 0xffff_ffff <= right.moment * left.scale
        <= 0x8000_0000_0000_0000 * 0xffff_ffff) by (nonlinear_arith);
    assert(-0x8000_0000 * 0xffff_ffff <= leq * left.scale <= 0x8000_0000 * 0xffff_ffff)
        by (nonlinear_arith);
    let span: i128 = (right.moment as i128) * (left.scale as i128) - (left.moment as i128) * (
    right.scale as i128);
    let lead: i128 = (leq as i128) * (left.scale as i128) - (left.moment as i128);
    assert(-0x1_0000_0000_0000_0000 * 0xffff_ffff <= lead * right.scale
        <= 0x1_0000_0000_0000_0000 * 0xffff_ffff) by (nonlinear_arith)
        requires
            -0x1_0000_0000_0000_0000 <= lead <= 0x1_0000_0000_0000_0000,
            0 <= right.scale <= 0xffff_ffff,
    ;
    let reach: i128 = lead * (right.scale as i128);
    let width: u128 = span as u128;
    let offset: u128 = reach as u128;
    let base: u64 = 2 * (below as u64) + (left.weight as u64);
    let square: Wide = Wide::product(width, width);
    let rise: Wide = Wide::product(2 * width - offset, offset);
    let run: Wide = Wide::product(offset, offset);
    let numerator: Wide = square.times(base).plus(rise.times(left.weight as u64)).plus(
        run.times(right.weight as u64),
    );
    let denominator: Wide = square.plus(square);
    proof {
        let w = width as int;
        let o = offset as int;
        lemma_trapezoid_parts(below as int, left.weight as nat, right.weight as nat, o, w);
        assert(w * w > 0) by (nonlinear_arith)
            requires
                w > 0,
        ;
    }
    Estimate { numerator, denominator }
}

} // verus!
