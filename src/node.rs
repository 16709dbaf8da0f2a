use vstd::prelude::*;
use vstd::arithmetic::div_mod::{lemma_fundamental_div_mod, lemma_mod_bound};
use crate::codec::ALPHABET;

verus! {

/// Part of an edge count `o` that a split hands to the new node, when `d` of
/// `v` visits move there.
pub open spec fn share_new(o: int, d: int, v: int) -> int {
    o * d / v
}

/// Part of an edge count `o` that the split node keeps.
pub open spec fn share_kept(o: int, d: int, v: int) -> int {
    o * (v - d) / v
}

/// What the two rounded-down shares leave over of `o`.
pub open spec fn rounding(o: int, d: int, v: int) -> int {
    o - share_new(o, d, v) - share_kept(o, d, v)
}

/// Each share is a rounded-down fraction of `o`, and the two together miss
/// `o` by at most one unit.
pub proof fn lemma_rounding_bound(o: int, d: int, v: int)
    requires
        0 <= o,
        0 <= d <= v,
        0 < v,
    ensures
        0 <= share_new(o, d, v) <= o,
        0 <= share_kept(o, d, v) <= o,
        share_new(o, d, v) * v <= o * d,
        share_kept(o, d, v) * v <= o * (v - d),
        0 <= rounding(o, d, v) <= 1,
{
    let a = o * d;
    let b = o * (v - d);
    lemma_fundamental_div_mod(a, v);
    lemma_fundamental_div_mod(b, v);
    lemma_mod_bound(a, v);
    lemma_mod_bound(b, v);
    let q1 = a / v;
    let q2 = b / v;
    let r1 = a % v;
    let r2 = b % v;
    assert(a + b == o * v) by (nonlinear_arith)
        requires
            a == o * d,
            b == o * (v - d),
    ;
    assert(0 <= a && a <= o * v) by (nonlinear_arith)
        requires
            a == o * d,
            0 <= o,
            0 <= d <= v,
    ;
    assert(0 <= b && b <= o * v) by (nonlinear_arith)
        requires
            b == o * (v - d),
            0 <= o,
            0 <= d <= v,
    ;
    assert(0 <= q1 <= o) by (nonlinear_arith)
        requires
            a == v * q1 + r1,
            0 <= r1 < v,
            0 <= a <= o * v,
    ;
    assert(0 <= q2 <= o) by (nonlinear_arith)
        requires
            b == v * q2 + r2,
            0 <= r2 < v,
            0 <= b <= o * v,
    ;
    assert(0 <= o - q1 - q2 <= 1) by (nonlinear_arith)
        requires
            a == v * q1 + r1,
            b == v * q2 + r2,
            a + b == o * v,
            0 <= r1 < v,
            0 <= r2 < v,
    ;
    assert(q1 * v <= a && q2 * v <= b) by (nonlinear_arith)
        requires
            a == v * q1 + r1,
            b == v * q2 + r2,
            0 <= r1,
            0 <= r2,
    ;
}

/// Sum of the first `n` edge counts of `e`.
pub open spec fn count_sum(e: Seq<(usize, usize)>, n: int) -> int
    decreases n,
{
    if n <= 0 {
        0
    } else {
        count_sum(e, n - 1) + e[n - 1].1
    }
}

/// Sum of the new node's shares of the first `n` edges.
pub open spec fn new_share_sum(e: Seq<(usize, usize)>, d: int, v: int, n: int) -> int
    decreases n,
{
    if n <= 0 {
        0
    } else {
        new_share_sum(e, d, v, n - 1) + share_new(e[n - 1].1 as int, d, v)
    }
}

/// Sum of the kept shares of the first `n` edges.
pub open spec fn kept_share_sum(e: Seq<(usize, usize)>, d: int, v: int, n: int) -> int
    decreases n,
{
    if n <= 0 {
        0
    } else {
        kept_share_sum(e, d, v, n - 1) + share_kept(e[n - 1].1 as int, d, v)
    }
}

/// Sum of the rounding remainders of the first `n` edges.
pub open spec fn rounding_sum(e: Seq<(usize, usize)>, d: int, v: int, n: int) -> int
    decreases n,
{
    if n <= 0 {
        0
    } else {
        rounding_sum(e, d, v, n - 1) + rounding(e[n - 1].1 as int, d, v)
    }
}

/// How many visits the new node's rounded-down shares fall short of `d`.
pub open spec fn shortfall(e: Seq<(usize, usize)>, d: int, v: int) -> int {
    d - new_share_sum(e, d, v, ALPHABET as int)
}

/// Whether the remainder of edge `i` goes to the new node: remainders are
/// handed to it in symbol order until its shortfall is made up.
pub open spec fn goes_to_new(e: Seq<(usize, usize)>, d: int, v: int, i: int) -> bool {
    rounding_sum(e, d, v, i) < shortfall(e, d, v)
}

/// Count of edge `i` in the new node after a split.
pub open spec fn new_part(e: Seq<(usize, usize)>, d: int, v: int, i: int) -> int {
    share_new(e[i].1 as int, d, v) + if goes_to_new(e, d, v, i) {
        rounding(e[i].1 as int, d, v)
    } else {
        0
    }
}

/// Count of edge `i` in the split node after a split.
pub open spec fn kept_part(e: Seq<(usize, usize)>, d: int, v: int, i: int) -> int {
    share_kept(e[i].1 as int, d, v) + if goes_to_new(e, d, v, i) {
        0
    } else {
        rounding(e[i].1 as int, d, v)
    }
}

/// Sum of the new node's first `n` counts after a split.
pub open spec fn new_part_sum(e: Seq<(usize, usize)>, d: int, v: int, n: int) -> int
    decreases n,
{
    if n <= 0 {
        0
    } else {
        new_part_sum(e, d, v, n - 1) + new_part(e, d, v, n - 1)
    }
}

/// Sum of the split node's first `n` counts after a split.
pub open spec fn kept_part_sum(e: Seq<(usize, usize)>, d: int, v: int, n: int) -> int
    decreases n,
{
    if n <= 0 {
        0
    } else {
        kept_part_sum(e, d, v, n - 1) + kept_part(e, d, v, n - 1)
    }
}

/// Per-prefix bookkeeping of a proportional split.
pub proof fn lemma_share_sums(e: Seq<(usize, usize)>, d: int, v: int, n: int)
    requires
        0 <= d <= v,
        0 < v,
        0 <= n <= e.len(),
    ensures
        new_share_sum(e, d, v, n) + kept_share_sum(e, d, v, n) + rounding_sum(e, d, v, n)
            == count_sum(e, n),
        new_share_sum(e, d, v, n) * v <= d * count_sum(e, n),
        kept_share_sum(e, d, v, n) * v <= (v - d) * count_sum(e, n),
        0 <= new_share_sum(e, d, v, n),
        0 <= rounding_sum(e, d, v, n),
        new_share_sum(e, d, v, n) <= n * (usize::MAX as int),
    decreases n,
{
    if n > 0 {
        lemma_share_sums(e, d, v, n - 1);
        let o = e[n - 1].1 as int;
        lemma_rounding_bound(o, d, v);
        let c = count_sum(e, n - 1);
        assert(d * count_sum(e, n) == d * c + d * o) by (nonlinear_arith)
            requires
                count_sum(e, n) == c + o,
        ;
        assert((v - d) * count_sum(e, n) == (v - d) * c + (v - d) * o) by (nonlinear_arith)
            requires
                count_sum(e, n) == c + o,
        ;
        assert(new_share_sum(e, d, v, n) * v == new_share_sum(e, d, v, n - 1) * v
            + share_new(o, d, v) * v) by (nonlinear_arith)
            requires
                new_share_sum(e, d, v, n) == new_share_sum(e, d, v, n - 1) + share_new(o, d, v),
        ;
        assert(kept_share_sum(e, d, v, n) * v == kept_share_sum(e, d, v, n - 1) * v
            + share_kept(o, d, v) * v) by (nonlinear_arith)
            requires
                kept_share_sum(e, d, v, n) == kept_share_sum(e, d, v, n - 1) + share_kept(
                    o,
                    d,
                    v,
                ),
        ;
        assert(o * d == d * o && o * (v - d) == (v - d) * o) by (nonlinear_arith);
    }
}

/// Remainder sums only grow along the symbols.
pub proof fn lemma_rounding_sum_grows(e: Seq<(usize, usize)>, d: int, v: int, i: int, j: int)
    requires
        0 <= d <= v,
        0 < v,
        0 <= i <= j <= e.len(),
    ensures
        rounding_sum(e, d, v, i) <= rounding_sum(e, d, v, j),
        rounding_sum(e, d, v, j) <= rounding_sum(e, d, v, i) + (j - i),
    decreases j - i,
{
    if i < j {
        lemma_rounding_sum_grows(e, d, v, i, j - 1);
        lemma_rounding_bound(e[j - 1].1 as int, d, v);
    }
}

/// The remainders handed out so far are the smaller of their running sum and
/// the shortfall.
pub proof fn lemma_part_sums(e: Seq<(usize, usize)>, d: int, v: int, n: int)
    requires
        0 <= d <= v,
        0 < v,
        0 <= n <= e.len(),
        0 <= shortfall(e, d, v),
    ensures
        new_part_sum(e, d, v, n) == new_share_sum(e, d, v, n) + if rounding_sum(e, d, v, n)
            < shortfall(e, d, v) {
            rounding_sum(e, d, v, n)
        } else {
            shortfall(e, d, v)
        },
        kept_part_sum(e, d, v, n) == kept_share_sum(e, d, v, n) + rounding_sum(e, d, v, n) - if rounding_sum(
            e,
            d,
            v,
            n,
        ) < shortfall(e, d, v) {
            rounding_sum(e, d, v, n)
        } else {
            shortfall(e, d, v)
        },
    decreases n,
{
    if n > 0 {
        lemma_part_sums(e, d, v, n - 1);
        lemma_rounding_bound(e[n - 1].1 as int, d, v);
    }
}

/// A sequence whose counts are the split's new or kept parts sums to the
/// matching part sum.
pub proof fn lemma_count_sum_parts(
    s: Seq<(usize, usize)>,
    e: Seq<(usize, usize)>,
    d: int,
    v: int,
    n: int,
    to_new: bool,
)
    requires
        0 <= n <= s.len(),
        n <= e.len(),
        forall|i: int|
            0 <= i < n ==> s[i].1 == if to_new {
                new_part(e, d, v, i)
            } else {
                kept_part(e, d, v, i)
            },
    ensures
        count_sum(s, n) == if to_new {
            new_part_sum(e, d, v, n)
        } else {
            kept_part_sum(e, d, v, n)
        },
    decreases n,
{
    if n > 0 {
        lemma_count_sum_parts(s, e, d, v, n - 1, to_new);
    }
}

/// Totals of a split: the new node's shares fall short of `d` by at most the
/// sum of the remainders, and the two parts make up `d` and `v - d`.
pub proof fn lemma_split_totals(e: Seq<(usize, usize)>, d: int, v: int)
    requires
        e.len() == ALPHABET,
        v == count_sum(e, ALPHABET as int),
        0 <= d < v,
    ensures
        0 <= shortfall(e, d, v) <= rounding_sum(e, d, v, ALPHABET as int),
        new_part_sum(e, d, v, ALPHABET as int) == d,
        kept_part_sum(e, d, v, ALPHABET as int) == v - d,
{
    let n = ALPHABET as int;
    lemma_share_sums(e, d, v, n);
    let a = new_share_sum(e, d, v, n);
    let b = kept_share_sum(e, d, v, n);
    assert(a <= d) by (nonlinear_arith)
        requires
            a * v <= d * v,
            0 < v,
    ;
    assert(b <= v - d) by (nonlinear_arith)
        requires
            b * v <= (v - d) * v,
            0 < v,
    ;
    lemma_part_sums(e, d, v, n);
}

/// A context: how often it was entered, and for each symbol the node that
/// symbol leads to and how often that transition was taken.
#[derive(Clone, Copy, Debug)]
pub struct Node {
    pub visits: usize,
    pub exits: [(usize, usize); ALPHABET],
}

impl Node {
    /// The visit count is the sum of the edge counts.
    pub open spec fn wf(&self) -> bool {
        self.visits == count_sum(self.exits@, ALPHABET as int)
    }

    /// A node with no visits whose edges all lead to `target`.
    pub fn fresh(target: usize) -> (r: Node)
        ensures
            r.visits == 0,
            forall|i: int| 0 <= i < ALPHABET ==> r.exits@[i] == (target, 0usize),
            r.wf(),
    {
        let r = Node { visits: 0, exits: [(target, 0usize); ALPHABET] };
        assert(forall|i: int| 0 <= i < ALPHABET ==> r.exits@[i] == (target, 0usize));
        proof {
            lemma_count_sum_zero(r.exits@, ALPHABET as int);
        }
        r
    }

    /// Whether the visit count equals the sum of the edge counts.
    pub fn validate(&self) -> (r: bool)
        ensures
            r == self.wf(),
    {
        let mut total: u128 = 0;
        let mut i: usize = 0;
        while i < ALPHABET
            invariant
                0 <= i <= ALPHABET,
                total == count_sum(self.exits@, i as int),
                total <= i * (usize::MAX as int),
            decreases ALPHABET - i,
        {
            total = total + self.exits[i].1 as u128;
            i = i + 1;
        }
        total == self.visits as u128
    }

    /// Moves `visits` of this node's visits to a new node, dividing each edge
    /// count in proportion; the new node is returned and this one keeps the rest.
    pub fn split(&mut self, visits: usize) -> (r: Node)
        requires
            old(self).wf(),
            visits < old(self).visits,
        ensures
            split_parts(
                old(self).visits as int,
                old(self).exits@,
                visits as int,
                final(self).visits as int,
                final(self).exits@,
                r.visits as int,
                r.exits@,
            ),
            final(self).wf(),
            r.wf(),
    {
        let v = self.visits;
        let ghost e = self.exits@;
        let ghost d = visits as int;
        let mut new_exits = self.exits;
        let mut errors: [usize; ALPHABET] = [0usize; ALPHABET];
        let mut new_visits: u128 = 0;
        let mut pos: usize = 0;
        while pos < ALPHABET
            invariant
                0 <= pos <= ALPHABET,
                self.visits == v,
                v == old(self).visits,
                e == old(self).exits@,
                visits < v,
                d == visits as int,
                forall|i: int|
                    0 <= i < pos ==> self.exits@[i].0 == e[i].0 && self.exits@[i].1 == share_kept(
                        e[i].1 as int,
                        d,
                        v as int,
                    ),
                forall|i: int|
                    0 <= i < pos ==> new_exits@[i].0 == e[i].0 && new_exits@[i].1 == share_new(
                        e[i].1 as int,
                        d,
                        v as int,
                    ),
                forall|i: int| 0 <= i < pos ==> errors@[i] == rounding(e[i].1 as int, d, v as int),
                forall|i: int| pos <= i < ALPHABET ==> self.exits@[i] == e[i],
                forall|i: int| pos <= i < ALPHABET ==> new_exits@[i] == e[i],
                new_visits == new_share_sum(e, d, v as int, pos as int),
                new_visits <= pos * (usize::MAX as int),
            decreases ALPHABET - pos,
        {
            let (t, o) = self.exits[pos];
            proof {
                lemma_rounding_bound(o as int, d, v as int);
                assert((o as int) * (visits as int) <= (usize::MAX as int) * (usize::MAX as int))
                    by (nonlinear_arith)
                    requires
                        o <= usize::MAX,
                        visits <= usize::MAX,
                ;
                assert((o as int) * ((v - visits) as int) <= (usize::MAX as int) * (
                usize::MAX as int)) by (nonlinear_arith)
                    requires
                        o <= usize::MAX,
                        v - visits <= usize::MAX,
                        0 <= v - visits,
                ;
                assert((usize::MAX as int) * (usize::MAX as int) <= u128::MAX) by (nonlinear_arith)
                    requires
                        usize::MAX <= u64::MAX,
                ;
            }
            let new_exit = ((o as u128) * (visits as u128) / (v as u128)) as usize;
            let my_exit = ((o as u128) * ((v - visits) as u128) / (v as u128)) as usize;
            assert(new_exit == share_new(o as int, d, v as int));
            assert(my_exit == share_kept(o as int, d, v as int));
            let error = o - my_exit - new_exit;
            assert(error <= 1);
            new_exits[pos] = (t, new_exit);
            errors[pos] = error;
            self.exits[pos] = (t, o - (error + new_exit));
            new_visits = new_visits + new_exit as u128;
            pos = pos + 1;
        }
        proof {
            lemma_split_totals(e, d, v as int);
        }
        let mut pos: usize = 0;
        while new_visits != visits as u128
            invariant
                0 <= pos <= ALPHABET,
                self.visits == v,
                v == old(self).visits,
                e == old(self).exits@,
                visits < v,
                d == visits as int,
                0 <= shortfall(e, d, v as int) <= rounding_sum(e, d, v as int, ALPHABET as int),
                new_visits == new_share_sum(e, d, v as int, ALPHABET as int) + rounding_sum(
                    e,
                    d,
                    v as int,
                    pos as int,
                ),
                rounding_sum(e, d, v as int, pos as int) <= shortfall(e, d, v as int),
                forall|i: int|
                    0 <= i < ALPHABET ==> self.exits@[i].0 == e[i].0 && self.exits@[i].1
                        == share_kept(e[i].1 as int, d, v as int),
                forall|i: int|
                    0 <= i < ALPHABET ==> errors@[i] == rounding(e[i].1 as int, d, v as int),
                forall|i: int|
                    0 <= i < ALPHABET ==> new_exits@[i].0 == e[i].0 && new_exits@[i].1 == if i
                        < pos {
                        new_part(e, d, v as int, i)
                    } else {
                        share_new(e[i].1 as int, d, v as int)
                    },
                forall|i: int| 0 <= i < pos ==> #[trigger] goes_to_new(e, d, v as int, i),
            decreases ALPHABET - pos,
        {
            proof {
                if pos == ALPHABET {
                    assert(false);
                }
                lemma_rounding_sum_grows(e, d, v as int, pos as int, pos as int + 1);
                lemma_rounding_bound(e[pos as int].1 as int, d, v as int);
            }
            let (t, c) = new_exits[pos];
            new_exits[pos] = (t, c + errors[pos]);
            new_visits = new_visits + errors[pos] as u128;
            pos = pos + 1;
        }
        let cut = pos;
        proof {
            assert forall|i: int| cut <= i < ALPHABET implies !goes_to_new(e, d, v as int, i) by {
                lemma_rounding_sum_grows(e, d, v as int, cut as int, i);
            }
        }
        while pos < ALPHABET
            invariant
                cut <= pos <= ALPHABET,
                self.visits == v,
                v == old(self).visits,
                e == old(self).exits@,
                visits < v,
                d == visits as int,
                forall|i: int|
                    0 <= i < ALPHABET ==> errors@[i] == rounding(e[i].1 as int, d, v as int),
                forall|i: int|
                    #![trigger new_exits@[i]]
                    0 <= i < ALPHABET ==> new_exits@[i].0 == e[i].0 && new_exits@[i].1 == new_part(
                        e,
                        d,
                        v as int,
                        i,
                    ),
                forall|i: int|
                    0 <= i < ALPHABET ==> self.exits@[i].0 == e[i].0 && self.exits@[i].1 == if cut
                        <= i < pos {
                        kept_part(e, d, v as int, i)
                    } else {
                        share_kept(e[i].1 as int, d, v as int)
                    },
                forall|i: int| 0 <= i < cut ==> #[trigger] goes_to_new(e, d, v as int, i),
                forall|i: int| cut <= i < ALPHABET ==> !#[trigger] goes_to_new(e, d, v as int, i),
            decreases ALPHABET - pos,
        {
            proof {
                lemma_rounding_bound(e[pos as int].1 as int, d, v as int);
            }
            let (t, c) = self.exits[pos];
            self.exits[pos] = (t, c + errors[pos]);
            pos = pos + 1;
        }
        self.visits = self.visits - visits;
        let r = Node { visits: visits, exits: new_exits };
        proof {
            lemma_count_sum_parts(r.exits@, e, d, v as int, ALPHABET as int, true);
            lemma_count_sum_parts(self.exits@, e, d, v as int, ALPHABET as int, false);
        }
        r
    }
}

/// A node with `kv` visits and edges `ke`, and one with `nv` visits and edges
/// `ne`, are what splitting a node with `v` visits and edges `e` gives when `d`
/// of its visits move to a new node: shares are rounded down, the left-over
/// units go to the new node in symbol order until it has exactly `d`, the rest
/// stay, and both keep the old edge targets.
pub open spec fn split_parts(
    v: int,
    e: Seq<(usize, usize)>,
    d: int,
    kv: int,
    ke: Seq<(usize, usize)>,
    nv: int,
    ne: Seq<(usize, usize)>,
) -> bool {
    &&& kv == v - d
    &&& nv == d
    &&& ke.len() == ALPHABET
    &&& ne.len() == ALPHABET
    &&& forall|i: int|
        #![trigger ke[i]]
        0 <= i < ALPHABET ==> ke[i].0 == e[i].0 && ke[i].1 == kept_part(e, d, v, i)
    &&& forall|i: int|
        #![trigger ne[i]]
        0 <= i < ALPHABET ==> ne[i].0 == e[i].0 && ne[i].1 == new_part(e, d, v, i)
}

/// Splitting loses and invents nothing: for every symbol the two nodes' counts
/// add up to the old count, the visits add up to the old visits, and both
/// nodes again have as many visits as their edge counts sum to.
pub proof fn lemma_split_conservation(
    v: int,
    e: Seq<(usize, usize)>,
    d: int,
    kv: int,
    ke: Seq<(usize, usize)>,
    nv: int,
    ne: Seq<(usize, usize)>,
)
    requires
        e.len() == ALPHABET,
        v == count_sum(e, ALPHABET as int),
        0 < d < v,
        split_parts(v, e, d, kv, ke, nv, ne),
    ensures
        kv == v - d,
        nv == d,
        forall|i: int| 0 <= i < ALPHABET ==> ke[i].1 + ne[i].1 == e[i].1,
        kv == count_sum(ke, ALPHABET as int),
        nv == count_sum(ne, ALPHABET as int),
{
    lemma_split_totals(e, d, v);
    lemma_count_sum_parts(ne, e, d, v, ALPHABET as int, true);
    lemma_count_sum_parts(ke, e, d, v, ALPHABET as int, false);
    assert forall|i: int| 0 <= i < ALPHABET implies ke[i].1 + ne[i].1 == e[i].1 by {
        assert(ke[i].1 == kept_part(e, d, v, i));
        assert(ne[i].1 == new_part(e, d, v, i));
    }
}

/// Counts that are all zero sum to zero.
proof fn lemma_count_sum_zero(e: Seq<(usize, usize)>, n: int)
    requires
        0 <= n <= e.len(),
        forall|i: int| 0 <= i < n ==> e[i].1 == 0,
    ensures
        count_sum(e, n) == 0,
    decreases n,
{
    if n > 0 {
        lemma_count_sum_zero(e, n - 1);
    }
}

} // verus!
