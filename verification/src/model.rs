//! The mathematical model of a bucket store: a sequence of weighted nodes in
//! strictly ascending order of position. A position is an exact fraction.
use vstd::prelude::*;

verus! {

/// A fraction `num / den`, with `den > 0` wherever it stands for a number.
pub struct Ratio {
    pub num: int,
    pub den: int,
}

impl Ratio {
    /// `self < other` as fractions.
    pub open spec fn lt(self, other: Ratio) -> bool {
        self.num * other.den < other.num * self.den
    }

    /// `self <= other` as fractions.
    pub open spec fn le(self, other: Ratio) -> bool {
        self.num * other.den <= other.num * self.den
    }

    /// `self` is the whole number `n`.
    pub open spec fn is_whole(self, n: int) -> bool {
        self.num == n * self.den
    }
}

/// The order of fractions carries over a middle one.
pub proof fn lemma_ratio_chain(a: Ratio, b: Ratio, c: Ratio)
    requires
        a.den > 0,
        b.den > 0,
        c.den > 0,
    ensures
        a.lt(b) && b.le(c) ==> a.lt(c),
        a.le(b) && b.lt(c) ==> a.lt(c),
        a.le(b) && b.le(c) ==> a.le(c),
{
    let ab = a.num * b.den;
    let ba = b.num * a.den;
    let bc = b.num * c.den;
    let cb = c.num * b.den;
    let ac = a.num * c.den;
    let ca = c.num * a.den;
    assert(ab * c.den == ac * b.den && ba * c.den == bc * a.den && cb * a.den == ca * b.den)
        by (nonlinear_arith)
        requires
            ab == a.num * b.den,
            ba == b.num * a.den,
            bc == b.num * c.den,
            cb == c.num * b.den,
            ac == a.num * c.den,
            ca == c.num * a.den,
    ;
    if a.lt(b) && b.le(c) {
        assert(ac < ca) by (nonlinear_arith)
            requires
                ab < ba,
                bc <= cb,
                ab * c.den == ac * b.den,
                ba * c.den == bc * a.den,
                cb * a.den == ca * b.den,
                a.den > 0,
                b.den > 0,
                c.den > 0,
        ;
    }
    if a.le(b) && b.lt(c) {
        assert(ac < ca) by (nonlinear_arith)
            requires
                ab <= ba,
                bc < cb,
                ab * c.den == ac * b.den,
                ba * c.den == bc * a.den,
                cb * a.den == ca * b.den,
                a.den > 0,
                b.den > 0,
                c.den > 0,
        ;
    }
    if a.le(b) && b.le(c) {
        assert(ac <= ca) by (nonlinear_arith)
            requires
                ab <= ba,
                bc <= cb,
                ab * c.den == ac * b.den,
                ba * c.den == bc * a.den,
                cb * a.den == ca * b.den,
                a.den > 0,
                b.den > 0,
                c.den > 0,
        ;
    }
}

/// A weighted position. The position is the fraction `moment / scale`, and
/// `weight` observations are gathered there. A bucket has `scale == weight`:
/// its moment is the sum of the positions of its observations, and its
/// position is their mean.
pub struct Node {
    pub moment: int,
    pub scale: nat,
    pub weight: nat,
}

impl Node {
    /// Where the node lies.
    pub open spec fn position(self) -> Ratio {
        Ratio { num: self.moment, den: self.scale as int }
    }
}

/// The position that stands for negative infinity: below every observation.
pub open spec fn lowest() -> int {
    i32::MIN as int
}

/// The position that stands for positive infinity: above every observation.
pub open spec fn highest() -> int {
    i32::MAX as int
}

/// One observation at the whole position `value`.
pub open spec fn observation(value: int) -> Node {
    Node { moment: value, scale: 1, weight: 1 }
}

/// `a` lies strictly to the left of `b`.
pub open spec fn before(a: Node, b: Node) -> bool {
    a.position().lt(b.position())
}

/// `a` and `b` lie at the same position.
pub open spec fn level(a: Node, b: Node) -> bool {
    a.moment * b.scale == b.moment * a.scale
}

/// The node is a bucket: it holds at least one observation, its position is
/// the mean of what it holds, and that lies strictly between the two infinite
/// ends.
pub open spec fn sound(n: Node) -> bool {
    &&& n.weight >= 1
    &&& n.scale == n.weight
    &&& lowest() * n.weight < n.moment < highest() * n.weight
}

/// Two nodes as one: the weights together, at the weighted mean of the two
/// positions.
pub open spec fn joined(a: Node, b: Node) -> Node {
    Node { moment: a.moment + b.moment, scale: a.scale + b.scale, weight: a.weight + b.weight }
}

/// Positions ascend strictly, so no position occurs twice.
pub open spec fn ascending(s: Seq<Node>) -> bool {
    forall|i: int, j: int| 0 <= i < j < s.len() ==> before(s[i], s[j])
}

/// Every node is a bucket.
pub open spec fn finite(s: Seq<Node>) -> bool {
    forall|i: int| 0 <= i < s.len() ==> sound(#[trigger] s[i])
}

/// The number of observations that the nodes stand for together.
pub open spec fn total_weight(s: Seq<Node>) -> nat
    decreases s.len(),
{
    if s.len() == 0 {
        0
    } else {
        total_weight(s.drop_last()) + s.last().weight
    }
}

/// The sum of the moments of the nodes: for buckets, the sum of the positions
/// of all the observations that they stand for.
pub open spec fn total_moment(s: Seq<Node>) -> int
    decreases s.len(),
{
    if s.len() == 0 {
        0
    } else {
        total_moment(s.drop_last()) + s.last().moment
    }
}

/// The order of nodes carries over a middle one.
pub proof fn lemma_before_chain(a: Node, b: Node, c: Node)
    requires
        a.scale >= 1,
        b.scale >= 1,
        c.scale >= 1,
    ensures
        before(a, b) && !before(c, b) ==> before(a, c),
        !before(b, a) && before(b, c) ==> before(a, c),
        !before(b, a) && !before(c, b) ==> !before(c, a),
{
    lemma_ratio_chain(a.position(), b.position(), c.position());
}

/// An observation at a finite position is a bucket.
pub proof fn lemma_observation_sound(value: int)
    requires
        lowest() < value < highest(),
    ensures
        sound(observation(value)),
{
    assert(lowest() * 1 == lowest() && highest() * 1 == highest()) by (nonlinear_arith);
}

/// Two buckets at one position, joined, lie at that position. Two buckets
/// of which one lies before the other, joined, lie strictly between them.
pub proof fn lemma_joined(a: Node, b: Node)
    requires
        sound(a),
        sound(b),
    ensures
        sound(joined(a, b)),
        level(a, b) ==> level(a, joined(a, b)) && level(b, joined(a, b)),
        before(a, b) ==> before(a, joined(a, b)) && before(joined(a, b), b),
{
    let j = joined(a, b);
    assert(lowest() * j.weight == lowest() * a.weight + lowest() * b.weight
        && highest() * j.weight == highest() * a.weight + highest() * b.weight)
        by (nonlinear_arith)
        requires
            j.weight == a.weight + b.weight,
    ;
    assert(a.moment * j.scale == a.moment * a.scale + a.moment * b.scale && j.moment * a.scale
        == a.moment * a.scale + b.moment * a.scale && j.moment * b.scale == a.moment * b.scale
        + b.moment * b.scale && b.moment * j.scale == b.moment * a.scale + b.moment * b.scale)
        by (nonlinear_arith)
        requires
            j.scale == a.scale + b.scale,
            j.moment == a.moment + b.moment,
    ;
}

/// The totals of a concatenation are the sums of the totals of its parts.
pub proof fn lemma_totals_concat(a: Seq<Node>, b: Seq<Node>)
    ensures
        total_weight(a + b) == total_weight(a) + total_weight(b),
        total_moment(a + b) == total_moment(a) + total_moment(b),
    decreases b.len(),
{
    if b.len() == 0 {
        assert(a + b =~= a);
    } else {
        assert((a + b).drop_last() =~= a + b.drop_last());
        lemma_totals_concat(a, b.drop_last());
    }
}

/// The totals of a single node are its own.
pub proof fn lemma_totals_single(n: Node)
    ensures
        total_weight(seq![n]) == n.weight,
        total_moment(seq![n]) == n.moment,
{
    assert(seq![n].drop_last() =~= Seq::<Node>::empty());
    assert(total_weight(seq![n].drop_last()) == 0);
    assert(total_moment(seq![n].drop_last()) == 0);
}

/// A node put in adds its weight and its moment to the totals.
pub proof fn lemma_totals_insert(s: Seq<Node>, i: int, n: Node)
    requires
        0 <= i <= s.len(),
    ensures
        total_weight(s.insert(i, n)) == total_weight(s) + n.weight,
        total_moment(s.insert(i, n)) == total_moment(s) + n.moment,
{
    let head = s.subrange(0, i);
    let tail = s.subrange(i, s.len() as int);
    assert(s =~= head + tail);
    assert(s.insert(i, n) =~= (head + seq![n]) + tail);
    lemma_totals_concat(head, tail);
    lemma_totals_concat(head, seq![n]);
    lemma_totals_concat(head + seq![n], tail);
    lemma_totals_single(n);
}

/// A node taken out takes its weight and its moment from the totals.
pub proof fn lemma_totals_remove(s: Seq<Node>, i: int)
    requires
        0 <= i < s.len(),
    ensures
        total_weight(s.remove(i)) + s[i].weight == total_weight(s),
        total_moment(s.remove(i)) + s[i].moment == total_moment(s),
{
    assert(s.remove(i).insert(i, s[i]) =~= s);
    lemma_totals_insert(s.remove(i), i, s[i]);
}

/// A node replaced changes the totals by the difference of the two nodes.
pub proof fn lemma_totals_update(s: Seq<Node>, i: int, n: Node)
    requires
        0 <= i < s.len(),
    ensures
        total_weight(s.update(i, n)) + s[i].weight == total_weight(s) + n.weight,
        total_moment(s.update(i, n)) + s[i].moment == total_moment(s) + n.moment,
{
    assert(s.update(i, n).remove(i) =~= s.remove(i));
    lemma_totals_remove(s, i);
    lemma_totals_remove(s.update(i, n), i);
}

/// The first `n` nodes weigh no more than all of them, and no less than the
/// first `m` of them for `m <= n`.
pub proof fn lemma_total_weight_prefix(s: Seq<Node>, m: int, n: int)
    requires
        0 <= m <= n <= s.len(),
    ensures
        total_weight(s.subrange(0, m)) <= total_weight(s.subrange(0, n)) <= total_weight(s),
{
    let a = s.subrange(0, m);
    let b = s.subrange(m, n);
    let c = s.subrange(n, s.len() as int);
    assert(s.subrange(0, n) =~= a + b);
    assert(s =~= (a + b) + c);
    lemma_totals_concat(a, b);
    lemma_totals_concat(a + b, c);
}

/// One node more in a prefix adds the weight of that node.
pub proof fn lemma_total_weight_step(s: Seq<Node>, i: int)
    requires
        0 <= i < s.len(),
    ensures
        total_weight(s.subrange(0, i + 1)) == total_weight(s.subrange(0, i)) + s[i].weight,
{
    assert(s.subrange(0, i + 1).drop_last() =~= s.subrange(0, i));
}

/// The index at which `n` belongs in an ascending sequence: the number of
/// nodes that lie before it.
pub open spec fn rank(s: Seq<Node>, n: Node) -> nat
    decreases s.len(),
{
    if s.len() == 0 {
        0
    } else if before(s.last(), n) {
        s.len()
    } else {
        rank(s.drop_last(), n)
    }
}

/// The rank is an index into the sequence or its length.
pub proof fn lemma_rank_bound(s: Seq<Node>, n: Node)
    ensures
        rank(s, n) <= s.len(),
    decreases s.len(),
{
    if s.len() > 0 && !before(s.last(), n) {
        lemma_rank_bound(s.drop_last(), n);
    }
}

/// In an ascending sequence exactly the nodes before `rank` lie before `n`.
pub proof fn lemma_rank_splits(s: Seq<Node>, n: Node)
    requires
        ascending(s),
        finite(s),
        n.scale >= 1,
    ensures
        rank(s, n) <= s.len(),
        forall|j: int| 0 <= j < rank(s, n) ==> before(#[trigger] s[j], n),
        forall|j: int| rank(s, n) <= j < s.len() ==> !before(#[trigger] s[j], n),
    decreases s.len(),
{
    if s.len() > 0 {
        if before(s.last(), n) {
            assert forall|j: int| 0 <= j < s.len() implies before(#[trigger] s[j], n) by {
                if j < s.len() - 1 {
                    assert(before(s[j], s.last()));
                    assert(sound(s[j]) && sound(s.last()));
                    lemma_before_chain(s[j], s.last(), n);
                }
            }
        } else {
            let front = s.drop_last();
            assert forall|i: int| 0 <= i < front.len() implies sound(#[trigger] front[i]) by {
                assert(front[i] == s[i]);
            }
            assert forall|i: int, j: int| 0 <= i < j < front.len() implies before(
                front[i],
                front[j],
            ) by {
                assert(front[i] == s[i] && front[j] == s[j]);
            }
            lemma_rank_splits(front, n);
            assert forall|j: int| rank(s, n) <= j < s.len() implies !before(#[trigger] s[j], n) by {
                if j < front.len() {
                    assert(s[j] == front[j]);
                }
            }
            assert forall|j: int| 0 <= j < rank(s, n) implies before(#[trigger] s[j], n) by {
                assert(s[j] == front[j]);
            }
        }
    }
}

/// An index that splits an ascending sequence at `n` is its rank.
pub proof fn lemma_rank_found(s: Seq<Node>, n: Node, i: int)
    requires
        ascending(s),
        finite(s),
        n.scale >= 1,
        0 <= i <= s.len(),
        forall|j: int| 0 <= j < i ==> before(#[trigger] s[j], n),
        i < s.len() ==> !before(s[i], n),
    ensures
        rank(s, n) == i,
{
    lemma_rank_splits(s, n);
    let r = rank(s, n) as int;
    if r < i {
        assert(before(s[r], n));
    } else if r > i {
        assert(before(s[i], n));
    }
}

/// Some node of `s` lies at the position of `n`.
pub open spec fn holds(s: Seq<Node>, n: Node) -> bool {
    exists|i: int| 0 <= i < s.len() && level(#[trigger] s[i], n)
}

/// The store after the node `n` was recorded: the node at exactly its
/// position takes up its weight and its moment, and where there is none, `n`
/// takes its place in the order.
pub open spec fn recorded(s: Seq<Node>, n: Node) -> Seq<Node> {
    let i = rank(s, n) as int;
    if i < s.len() && level(s[i], n) {
        s.update(i, joined(s[i], n))
    } else {
        s.insert(i, n)
    }
}

/// Recording keeps the order and adds exactly the recorded weight and
/// moment. It adds one node where none lay at the position, and none where
/// one did.
pub proof fn lemma_recorded(s: Seq<Node>, n: Node)
    requires
        ascending(s),
        finite(s),
        sound(n),
    ensures
        ascending(recorded(s, n)),
        finite(recorded(s, n)),
        total_weight(recorded(s, n)) == total_weight(s) + n.weight,
        total_moment(recorded(s, n)) == total_moment(s) + n.moment,
        recorded(s, n).len() == if holds(s, n) {
            s.len()
        } else {
            s.len() + 1
        },
        holds(recorded(s, n), n),
{
    lemma_rank_splits(s, n);
    let i = rank(s, n) as int;
    let r = recorded(s, n);
    if holds(s, n) {
        let k = choose|k: int| 0 <= k < s.len() && level(#[trigger] s[k], n);
        if k < i {
            assert(before(s[k], n));
        } else if k > i {
            assert(!before(s[i], n));
            assert(before(s[i], s[k]));
            assert(sound(s[i]) && sound(s[k]));
            lemma_before_chain(n, s[i], s[k]);
        }
    }
    if i < s.len() && level(s[i], n) {
        let j = joined(s[i], n);
        assert(sound(s[i]));
        lemma_joined(s[i], n);
        lemma_totals_update(s, i, j);
        assert(level(r[i], n));
        assert forall|a: int, b: int| 0 <= a < b < r.len() implies before(r[a], r[b]) by {
            assert(before(s[a], s[b]));
            assert(sound(s[a]) && sound(s[b]));
            if b == i {
                lemma_before_chain(s[a], s[i], j);
            } else if a == i {
                lemma_before_chain(j, s[i], s[b]);
            }
        }
        assert forall|k: int| 0 <= k < r.len() implies sound(#[trigger] r[k]) by {
            assert(sound(s[k]));
        }
    } else {
        lemma_totals_insert(s, i, n);
        assert(level(r[i], n));
        assert forall|a: int, b: int| 0 <= a < b < r.len() implies before(r[a], r[b]) by {
            if b < i {
                assert(r[a] == s[a] && r[b] == s[b]);
            } else if b == i {
                assert(r[a] == s[a]);
            } else if a < i {
                assert(r[a] == s[a] && r[b] == s[b - 1]);
            } else if a == i {
                assert(r[b] == s[b - 1]);
                assert(sound(s[i]) && sound(s[b - 1]));
                assert(!before(s[i], n));
                if b - 1 > i {
                    assert(before(s[i], s[b - 1]));
                    lemma_before_chain(n, s[i], s[b - 1]);
                }
            } else {
                assert(r[a] == s[a - 1] && r[b] == s[b - 1]);
            }
        }
        assert forall|k: int| 0 <= k < r.len() implies sound(#[trigger] r[k]) by {
            if k < i {
                assert(r[k] == s[k]);
            } else if k > i {
                assert(r[k] == s[k - 1]);
            }
        }
    }
}

/// The store after every node of `other` among its first `n` was recorded in
/// `s`, one after the other.
pub open spec fn absorbed_upto(s: Seq<Node>, other: Seq<Node>, n: nat) -> Seq<Node>
    decreases n,
{
    if n == 0 {
        s
    } else {
        recorded(absorbed_upto(s, other, (n - 1) as nat), other[n - 1])
    }
}

/// The union of two stores by position: every node of `other` recorded in `s`.
pub open spec fn absorbed(s: Seq<Node>, other: Seq<Node>) -> Seq<Node> {
    absorbed_upto(s, other, other.len())
}

/// Absorbing keeps the order and adds exactly the weight and the moment of
/// what was absorbed.
pub proof fn lemma_absorbed_upto(s: Seq<Node>, other: Seq<Node>, n: nat)
    requires
        ascending(s),
        finite(s),
        finite(other),
        n <= other.len(),
    ensures
        ascending(absorbed_upto(s, other, n)),
        finite(absorbed_upto(s, other, n)),
        total_weight(absorbed_upto(s, other, n)) == total_weight(s) + total_weight(
            other.subrange(0, n as int),
        ),
        total_moment(absorbed_upto(s, other, n)) == total_moment(s) + total_moment(
            other.subrange(0, n as int),
        ),
        s.len() <= absorbed_upto(s, other, n).len() <= s.len() + n,
    decreases n,
{
    if n == 0 {
        assert(other.subrange(0, 0) =~= Seq::<Node>::empty());
    } else {
        let m = (n - 1) as nat;
        lemma_absorbed_upto(s, other, m);
        assert(sound(other[n - 1]));
        lemma_recorded(absorbed_upto(s, other, m), other[n - 1]);
        assert(other.subrange(0, n as int).drop_last() =~= other.subrange(0, m as int));
    }
}

} // verus!
