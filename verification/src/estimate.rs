//! The cumulative-count estimate: how many observations lie at or below a
//! threshold, read off a piecewise-linear density through the buckets.
use crate::model::{ascending, before, finite, highest, lowest, observation, sound};
use crate::model::{total_weight, Node, Ratio};
use crate::wide::Wide;
use crate::model::{lemma_ratio_chain, lemma_totals_concat, lemma_totals_single};
use vstd::prelude::*;

verus! {

/// The estimate inside a segment of the density, as an exact fraction.
///
/// The segment is `width` wide, the density is `left` at its left end and
/// `right` at its right end, and the threshold lies `offset` into it; `below`
/// observations are counted in full before it. With `fraction` for
/// `offset / width`, the height of the density at the threshold is
/// `left + fraction * (right - left)`, and the estimate is `below`, plus half
/// of `left`, plus the mean of `left` and that height times `fraction`. This
/// is that number over the common denominator `2 * width * width`.
pub open spec fn trapezoid(below: int, left: nat, right: nat, offset: int, width: int) -> Ratio {
    Ratio {
        num: (2 * below + left) * (width * width) + (2 * left * width + offset * (right - left))
            * offset,
        den: 2 * (width * width),
    }
}

/// An estimated count of observations: the exact fraction
/// `numerator / denominator`, not reduced. Both can outgrow the machine's
/// integers, so they are wide numbers.
#[derive(Clone, Copy, Debug)]
pub struct Estimate {
    pub numerator: Wide,
    pub denominator: Wide,
}

impl View for Estimate {
    type V = Ratio;

    open spec fn view(&self) -> Ratio {
        Ratio { num: self.numerator@, den: self.denominator@ }
    }
}

/// An end of the line: a weightless node at a whole position.
pub open spec fn end(position: int) -> Node {
    Node { moment: position, scale: 1, weight: 0 }
}

/// The nodes of a store between the two ends: a weightless node at the lowest
/// position before them and one at the highest position after them.
pub open spec fn with_ends(s: Seq<Node>) -> Seq<Node> {
    seq![end(lowest())] + s + seq![end(highest())]
}

/// The node lies at or below the threshold.
pub open spec fn at_or_below(n: Node, threshold: int) -> bool {
    n.moment <= threshold * n.scale
}

/// The distance from `left` to `right`, in units of one over the product of
/// their scales.
pub open spec fn span(left: Node, right: Node) -> int {
    right.moment * left.scale - left.moment * right.scale
}

/// The distance from `left` to the threshold, in the units of `span`.
pub open spec fn reach(left: Node, right: Node, threshold: int) -> int {
    (threshold * left.scale - left.moment) * right.scale
}

/// The estimate for a threshold inside the segment from `left` to `right`,
/// with `below` observations counted in full before it: the trapezoid over
/// the part `reach / span` of the segment.
pub open spec fn interpolated(left: Node, right: Node, threshold: int, below: int) -> Ratio {
    trapezoid(
        below,
        left.weight,
        right.weight,
        reach(left, right, threshold),
        span(left, right),
    )
}

/// The walk over the pairs of neighbours from pair `i` on, with `below`
/// observations counted so far. A pair whose right node lies at or below the
/// threshold adds the weight of its left node in full. The first pair that
/// holds the threshold between its nodes settles the estimate by
/// interpolation. A pair that lies wholly above the threshold adds nothing.
/// Past the last pair the estimate is `below`.
pub open spec fn walk(nodes: Seq<Node>, threshold: int, i: int, below: int) -> Ratio
    decreases nodes.len() - i,
{
    if i < 0 || i + 1 >= nodes.len() {
        trapezoid(below, 0, 0, 0, 1)
    } else if at_or_below(nodes[i + 1], threshold) {
        walk(nodes, threshold, i + 1, below + nodes[i].weight)
    } else if at_or_below(nodes[i], threshold) {
        interpolated(nodes[i], nodes[i + 1], threshold, below)
    } else {
        walk(nodes, threshold, i + 1, below)
    }
}

/// The estimated number of observations at or below `threshold` in the store
/// `s`.
pub open spec fn estimate(s: Seq<Node>, threshold: int) -> Ratio {
    walk(with_ends(s), threshold, 0, 0)
}

/// Every node has a position.
pub open spec fn placed(nodes: Seq<Node>) -> bool {
    forall|i: int| 0 <= i < nodes.len() ==> (#[trigger] nodes[i]).scale >= 1
}

/// Past the last pair the estimate is the whole number `below`, held as
/// twice `below` over two.
pub proof fn lemma_trapezoid_whole(below: int)
    ensures
        trapezoid(below, 0, 0, 0, 1) == (Ratio { num: 2 * below, den: 2 }),
{
    assert((2 * below + 0) * (1 * 1) + (2 * 0 * 1 + 0 * (0 - 0)) * 0 == 2 * below)
        by (nonlinear_arith);
}

/// Every bucket lies strictly between the two ends.
pub proof fn lemma_ends_apart(n: Node)
    requires
        sound(n),
    ensures
        before(end(lowest()), n),
        before(n, end(highest())),
        before(end(lowest()), end(highest())),
{
    assert(n.moment * 1 == n.moment && lowest() * 1 == lowest() && highest() * 1 == highest())
        by (nonlinear_arith);
}

/// Between the two ends the nodes still ascend, stand where they stood, one
/// place further, and weigh what they weighed.
pub proof fn lemma_with_ends(s: Seq<Node>)
    requires
        ascending(s),
        finite(s),
    ensures
        ascending(with_ends(s)),
        placed(with_ends(s)),
        with_ends(s).len() == s.len() + 2,
        with_ends(s)[0] == end(lowest()),
        with_ends(s).last() == end(highest()),
        forall|i: int| 0 <= i < s.len() ==> with_ends(s)[i + 1] == #[trigger] s[i],
        total_weight(with_ends(s)) == total_weight(s),
        total_weight(with_ends(s).drop_last()) == total_weight(s),
{
    let low = seq![end(lowest())];
    let high = seq![end(highest())];
    let nodes = with_ends(s);
    lemma_totals_concat(low, s);
    lemma_totals_concat(low + s, high);
    lemma_totals_single(low[0]);
    lemma_totals_single(high[0]);
    assert(nodes.drop_last() =~= low + s);
    assert forall|i: int, j: int| 0 <= i < j < nodes.len() implies before(nodes[i], nodes[j]) by {
        if 0 < i {
            assert(nodes[i] == s[i - 1] && sound(s[i - 1]));
            lemma_ends_apart(s[i - 1]);
        }
        if j < nodes.len() - 1 {
            assert(nodes[j] == s[j - 1] && sound(s[j - 1]));
            lemma_ends_apart(s[j - 1]);
        }
        lemma_ends_apart(observation(0));
    }
    assert forall|i: int| 0 <= i < nodes.len() implies (#[trigger] nodes[i]).scale >= 1 by {
        if 0 < i < nodes.len() - 1 {
            assert(nodes[i] == s[i - 1] && sound(s[i - 1]));
        }
    }
}

/// The numerator of the trapezoid as a sum of three products, none of them
/// negative for an offset within the width, and its denominator as a sum.
pub proof fn lemma_trapezoid_parts(below: int, left: nat, right: nat, offset: int, width: int)
    ensures
        trapezoid(below, left, right, offset, width).num == (width * width) * (2 * below + left)
            + ((2 * width - offset) * offset) * left + (offset * offset) * right,
        trapezoid(below, left, right, offset, width).den == width * width + width * width,
{
    let w = width;
    let o = offset;
    let lw = left as int;
    let rw = right as int;
    let ww = w * w;
    let wo = w * o;
    let oo = o * o;
    let extra = (2 * lw * w + o * (rw - lw)) * o;
    assert(extra == 2 * (lw * wo) + rw * oo - lw * oo) by (nonlinear_arith)
        requires
            extra == (2 * lw * w + o * (rw - lw)) * o,
            wo == w * o,
            oo == o * o,
    ;
    assert((2 * w - o) * o == 2 * wo - oo) by (nonlinear_arith)
        requires
            wo == w * o,
            oo == o * o,
    ;
    assert((2 * wo - oo) * lw == 2 * (lw * wo) - lw * oo) by (nonlinear_arith);
    assert(oo * rw == rw * oo) by (nonlinear_arith);
    assert(ww * (2 * below + lw) == (2 * below + lw) * ww) by (nonlinear_arith);
}

/// Inside a segment the estimate is at least `below` plus half the left
/// weight, which it is at the left end, and at most `below` plus the left
/// weight plus half the right weight, which it reaches at the right end.
pub proof fn lemma_trapezoid_bounds(below: int, left: nat, right: nat, offset: int, width: int)
    requires
        0 <= offset <= width,
        0 < width,
        below >= 0,
    ensures
        trapezoid(below, left, right, offset, width).den > 0,
        trapezoid(below, left, right, offset, width).num >= 0,
        2 * trapezoid(below, left, right, offset, width).num >= (2 * below + left) * trapezoid(
            below,
            left,
            right,
            offset,
            width,
        ).den,
        2 * trapezoid(below, left, right, offset, width).num <= (2 * below + 2 * left + right)
            * trapezoid(below, left, right, offset, width).den,
{
    let w = width;
    let o = offset;
    let lw = left as int;
    let rw = right as int;
    let extra = (2 * lw * w + o * (rw - lw)) * o;
    assert(w * w > 0) by (nonlinear_arith)
        requires
            w > 0,
    ;
    assert(extra == (lw * (2 * w - o) + rw * o) * o) by (nonlinear_arith)
        requires
            extra == (2 * lw * w + o * (rw - lw)) * o,
    ;
    assert(lw * (2 * w - o) >= 0 && rw * o >= 0) by (nonlinear_arith)
        requires
            0 <= o <= w,
            lw >= 0,
            rw >= 0,
    ;
    assert(extra >= 0) by (nonlinear_arith)
        requires
            extra == (lw * (2 * w - o) + rw * o) * o,
            lw * (2 * w - o) >= 0,
            rw * o >= 0,
            o >= 0,
    ;
    let ww = w * w;
    let wo = w * o;
    let oo = o * o;
    assert((w - o) * (w - o) == ww - 2 * wo + oo && (w - o) * (w + o) == ww - oo)
        by (nonlinear_arith)
        requires
            ww == w * w,
            wo == w * o,
            oo == o * o,
    ;
    assert(extra == 2 * (lw * wo) + rw * oo - lw * oo) by (nonlinear_arith)
        requires
            extra == (2 * lw * w + o * (rw - lw)) * o,
            wo == w * o,
            oo == o * o,
    ;
    assert(lw * (ww - 2 * wo + oo) == lw * ww - 2 * (lw * wo) + lw * oo) by (nonlinear_arith);
    assert(rw * (ww - oo) == rw * ww - rw * oo) by (nonlinear_arith);
    assert((lw + rw) * ww == lw * ww + rw * ww) by (nonlinear_arith);
    assert((lw + rw) * (w * w) - extra == lw * ((w - o) * (w - o)) + rw * ((w - o) * (w + o)));
    assert(lw * ((w - o) * (w - o)) >= 0 && rw * ((w - o) * (w + o)) >= 0) by (nonlinear_arith)
        requires
            0 <= o <= w,
            lw >= 0,
            rw >= 0,
    ;
    assert((2 * below + lw) * (w * w) >= 0) by (nonlinear_arith)
        requires
            below >= 0,
            lw >= 0,
            w * w > 0,
    ;
    assert((2 * below + 2 * lw + rw) * (2 * (w * w)) == 2 * ((2 * below + lw) * (w * w) + (lw
        + rw) * (w * w))) by (nonlinear_arith);
    assert((2 * below + lw) * (2 * (w * w)) == 2 * ((2 * below + lw) * (w * w)))
        by (nonlinear_arith);
}

/// Inside a segment the estimate does not fall as the offset grows.
pub proof fn lemma_trapezoid_monotonic(
    below: int,
    left: nat,
    right: nat,
    lower: int,
    upper: int,
    width: int,
)
    requires
        0 <= lower <= upper <= width,
        0 < width,
    ensures
        trapezoid(below, left, right, lower, width).le(
            trapezoid(below, left, right, upper, width),
        ),
{
    let w = width;
    let o1 = lower;
    let o2 = upper;
    let lw = left as int;
    let rw = right as int;
    let e1 = (2 * lw * w + o1 * (rw - lw)) * o1;
    let e2 = (2 * lw * w + o2 * (rw - lw)) * o2;
    let a1 = w * o1;
    let a2 = w * o2;
    let b1 = o1 * o1;
    let b2 = o2 * o2;
    assert(e1 == 2 * (lw * a1) + rw * b1 - lw * b1) by (nonlinear_arith)
        requires
            e1 == (2 * lw * w + o1 * (rw - lw)) * o1,
            a1 == w * o1,
            b1 == o1 * o1,
    ;
    assert(e2 == 2 * (lw * a2) + rw * b2 - lw * b2) by (nonlinear_arith)
        requires
            e2 == (2 * lw * w + o2 * (rw - lw)) * o2,
            a2 == w * o2,
            b2 == o2 * o2,
    ;
    let gain = 2 * (a2 - a1) - (b2 - b1);
    assert(gain >= 0 && b2 - b1 >= 0) by (nonlinear_arith)
        requires
            gain == 2 * (w * o2 - w * o1) - (o2 * o2 - o1 * o1),
            b1 == o1 * o1,
            b2 == o2 * o2,
            0 <= o1 <= o2 <= w,
    ;
    assert(lw * gain == 2 * (lw * a2) - 2 * (lw * a1) - lw * b2 + lw * b1) by (nonlinear_arith)
        requires
            gain == 2 * (a2 - a1) - (b2 - b1),
    ;
    assert(rw * (b2 - b1) == rw * b2 - rw * b1) by (nonlinear_arith);
    assert(lw * gain >= 0 && rw * (b2 - b1) >= 0) by (nonlinear_arith)
        requires
            lw >= 0,
            rw >= 0,
            gain >= 0,
            b2 - b1 >= 0,
    ;
    assert(e2 - e1 >= 0);
    let n1 = trapezoid(below, left, right, lower, width).num;
    let n2 = trapezoid(below, left, right, upper, width).num;
    let d = 2 * (w * w);
    assert(n1 <= n2);
    assert(n1 * d <= n2 * d) by (nonlinear_arith)
        requires
            n1 <= n2,
            d == 2 * (w * w),
    ;
}

/// A threshold between two nodes reaches into their span, and reaches
/// further as it rises.
pub proof fn lemma_reach(left: Node, right: Node, lower: int, upper: int)
    requires
        left.scale >= 1,
        right.scale >= 1,
        before(left, right),
        at_or_below(left, lower),
        lower <= upper,
        upper * right.scale <= right.moment,
    ensures
        0 < span(left, right),
        0 <= reach(left, right, lower) <= reach(left, right, upper) <= span(left, right),
{
    let ls = left.scale as int;
    let rs = right.scale as int;
    let lm = left.moment;
    let rm = right.moment;
    assert((lower * ls - lm) * rs >= 0) by (nonlinear_arith)
        requires
            lower * ls - lm >= 0,
            rs >= 1,
    ;
    assert((lower * ls - lm) * rs <= (upper * ls - lm) * rs) by (nonlinear_arith)
        requires
            lower <= upper,
            ls >= 1,
            rs >= 1,
    ;
    assert((upper * ls - lm) * rs <= rm * ls - lm * rs) by (nonlinear_arith)
        requires
            upper * rs <= rm,
            ls >= 1,
    ;
}

/// A node at or below a threshold is at or below every higher one.
pub proof fn lemma_at_or_below_rises(n: Node, lower: int, upper: int)
    requires
        lower <= upper,
        at_or_below(n, lower),
    ensures
        at_or_below(n, upper),
{
    assert(lower * n.scale <= upper * n.scale) by (nonlinear_arith)
        requires
            lower <= upper,
            n.scale >= 0,
    ;
}

/// Of two nodes in order, the left one is at or below every threshold that
/// the right one is at or below.
pub proof fn lemma_at_or_below_carries(a: Node, b: Node, threshold: int)
    requires
        a.scale >= 1,
        b.scale >= 1,
        before(a, b),
    ensures
        at_or_below(b, threshold) ==> at_or_below(a, threshold),
{
    lemma_ratio_chain(a.position(), b.position(), Ratio { num: threshold, den: 1 });
}

/// From a pair on whose left node lies at or below the threshold, the walk
/// ends in a proper fraction that is at least `below` plus half the weight of
/// that left node.
pub proof fn lemma_walk_floor(nodes: Seq<Node>, threshold: int, i: int, below: int)
    requires
        ascending(nodes),
        placed(nodes),
        0 <= i,
        i + 1 < nodes.len(),
        at_or_below(nodes[i], threshold),
        below >= 0,
    ensures
        walk(nodes, threshold, i, below).den > 0,
        2 * walk(nodes, threshold, i, below).num >= (2 * below + nodes[i].weight) * walk(
            nodes,
            threshold,
            i,
            below,
        ).den,
    decreases nodes.len() - i,
{
    if at_or_below(nodes[i + 1], threshold) {
        if i + 2 < nodes.len() {
            lemma_walk_floor(nodes, threshold, i + 1, below + nodes[i].weight);
            let r = walk(nodes, threshold, i + 1, below + nodes[i].weight);
            assert((2 * (below + nodes[i].weight) + nodes[i + 1].weight) * r.den >= (2 * below
                + nodes[i].weight) * r.den) by (nonlinear_arith)
                requires
                    r.den > 0,
                    nodes[i].weight >= 0,
                    nodes[i + 1].weight >= 0,
            ;
        } else {
            assert(walk(nodes, threshold, i + 1, below + nodes[i].weight) == trapezoid(
                below + nodes[i].weight,
                0,
                0,
                0,
                1,
            ));
            lemma_trapezoid_whole(below + nodes[i].weight);
            let r = walk(nodes, threshold, i, below);
            assert((2 * below + nodes[i].weight) * r.den == 2 * (2 * below + nodes[i].weight))
                by (nonlinear_arith)
                requires
                    r.den == 2,
            ;
        }
    } else {
        assert(before(nodes[i], nodes[i + 1]));
        lemma_reach(nodes[i], nodes[i + 1], threshold, threshold);
        lemma_trapezoid_bounds(
            below,
            nodes[i].weight,
            nodes[i + 1].weight,
            reach(nodes[i], nodes[i + 1], threshold),
            span(nodes[i], nodes[i + 1]),
        );
    }
}

/// The walk does not fall as the threshold rises, where the last node, the
/// upper end, is weightless.
pub proof fn lemma_walk_monotonic(nodes: Seq<Node>, lower: int, upper: int, i: int, below: int)
    requires
        ascending(nodes),
        placed(nodes),
        nodes.len() >= 1,
        nodes.last().weight == 0,
        0 <= i < nodes.len(),
        at_or_below(nodes[i], lower),
        lower <= upper,
        below >= 0,
    ensures
        walk(nodes, lower, i, below).le(walk(nodes, upper, i, below)),
    decreases nodes.len() - i,
{
    if i + 1 >= nodes.len() {
    } else if at_or_below(nodes[i + 1], lower) {
        lemma_at_or_below_rises(nodes[i + 1], lower, upper);
        lemma_walk_monotonic(nodes, lower, upper, i + 1, below + nodes[i].weight);
    } else {
        let left = nodes[i];
        let right = nodes[i + 1];
        assert(before(left, right));
        lemma_at_or_below_rises(left, lower, upper);
        if at_or_below(right, upper) {
            let r1 = interpolated(left, right, lower, below);
            let r2 = walk(nodes, upper, i + 1, below + left.weight);
            let top = 2 * below + 2 * left.weight + right.weight;
            lemma_reach(left, right, lower, lower);
            lemma_trapezoid_bounds(
                below,
                left.weight,
                right.weight,
                reach(left, right, lower),
                span(left, right),
            );
            if i + 2 < nodes.len() {
                lemma_walk_floor(nodes, upper, i + 1, below + left.weight);
            } else {
                assert(r2 == trapezoid(below + left.weight, 0, 0, 0, 1));
                lemma_trapezoid_whole(below + left.weight);
                assert(top * r2.den == 2 * top) by (nonlinear_arith)
                    requires
                        r2.den == 2,
                ;
            }
            assert(r1.num * r2.den <= r2.num * r1.den) by (nonlinear_arith)
                requires
                    2 * r1.num <= top * r1.den,
                    2 * r2.num >= top * r2.den,
                    r1.den > 0,
                    r2.den > 0,
            ;
        } else {
            lemma_reach(left, right, lower, upper);
            lemma_trapezoid_monotonic(
                below,
                left.weight,
                right.weight,
                reach(left, right, lower),
                reach(left, right, upper),
                span(left, right),
            );
        }
    }
}

/// For a threshold below every node from `i` on, the walk adds nothing.
pub proof fn lemma_walk_before(nodes: Seq<Node>, threshold: int, i: int, below: int)
    requires
        ascending(nodes),
        placed(nodes),
        0 <= i < nodes.len(),
        !at_or_below(nodes[i], threshold),
    ensures
        walk(nodes, threshold, i, below) == trapezoid(below, 0, 0, 0, 1),
    decreases nodes.len() - i,
{
    if i + 1 < nodes.len() {
        assert(before(nodes[i], nodes[i + 1]));
        lemma_at_or_below_carries(nodes[i], nodes[i + 1], threshold);
        lemma_walk_before(nodes, threshold, i + 1, below);
    }
}

/// For a threshold at or above every node, the walk counts every node but
/// the last in full.
pub proof fn lemma_walk_beyond(nodes: Seq<Node>, threshold: int, i: int)
    requires
        ascending(nodes),
        placed(nodes),
        0 <= i < nodes.len(),
        at_or_below(nodes.last(), threshold),
    ensures
        walk(nodes, threshold, i, total_weight(nodes.subrange(0, i)) as int) == trapezoid(
            total_weight(nodes.drop_last()) as int,
            0,
            0,
            0,
            1,
        ),
    decreases nodes.len() - i,
{
    if i + 1 < nodes.len() {
        if i + 1 < nodes.len() - 1 {
            assert(before(nodes[i + 1], nodes.last()));
            lemma_at_or_below_carries(nodes[i + 1], nodes.last(), threshold);
        }
        assert(nodes.subrange(0, i + 1).drop_last() =~= nodes.subrange(0, i));
        lemma_walk_beyond(nodes, threshold, i + 1);
    } else {
        assert(nodes.subrange(0, i) =~= nodes.drop_last());
    }
}

} // verus!
