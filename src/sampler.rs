use vstd::prelude::*;
use crate::codec::ALPHABET;
use crate::graph::ContextGraph;
use crate::node::count_sum;

verus! {

#[verifier::external_type_specification]
#[verifier::external_body]
pub struct ExStdRng(rand::rngs::StdRng);

/// Relies on rand's `Rng::gen_range` over `0..n`: a value below `n`.
#[verifier::external_body]
fn draw_below(rng: &mut rand::rngs::StdRng, n: usize) -> (r: usize)
    requires
        n > 0,
    ensures
        r < n,
{
    rand::Rng::gen_range(rng, 0..n)
}

/// Sums of counts grow along the symbols.
pub proof fn lemma_count_sum_grows(e: Seq<(usize, usize)>, i: int, j: int)
    requires
        0 <= i <= j <= e.len(),
    ensures
        count_sum(e, i) <= count_sum(e, j),
    decreases j - i,
{
    if i < j {
        lemma_count_sum_grows(e, i, j - 1);
    }
}

/// `cs` are the nodes that a walk emitting `syms` passes through: each
/// symbol is taken along an edge with a positive count, and the walk moves to
/// that edge's target, or to the root after symbol `0` when it goes back.
pub open spec fn walk(graph: &ContextGraph, go_back: bool, syms: Seq<usize>, cs: Seq<int>) -> bool {
    &&& cs.len() == syms.len() + 1
    &&& forall|k: int| 0 <= k < syms.len() ==> #[trigger] walk_step(graph, go_back, syms, cs, k)
}

/// Step `k` of a walk.
pub open spec fn walk_step(
    graph: &ContextGraph,
    go_back: bool,
    syms: Seq<usize>,
    cs: Seq<int>,
    k: int,
) -> bool {
    let e = graph.nodes@[cs[k]].exits@;
    &&& 0 <= cs[k] < graph.nodes@.len()
    &&& syms[k] < ALPHABET
    &&& e[syms[k] as int].1 > 0
    &&& cs[k + 1] == if go_back && syms[k] == 0 {
        0
    } else {
        e[syms[k] as int].0 as int
    }
}

/// A weighted walk over a graph; the cursor carries over from one call to the next.
#[derive(Clone, Copy, Debug)]
pub struct Sampler {
    pub cursor: usize,
    /// Whether symbol `0` sends the walk back to the root.
    pub go_back: bool,
}

impl Sampler {
    /// A walk that starts at the root.
    pub fn new(go_back: bool) -> (r: Sampler)
        ensures
            r.cursor == 0,
            r.go_back == go_back,
    {
        Sampler { cursor: 0, go_back }
    }

    /// Takes the step that the draw `r` selects: the symbol whose range of
    /// cumulative counts holds `r`; the cursor moves along that edge, or to
    /// the root after symbol `0` when the walk goes back.
    pub fn step(&mut self, graph: &ContextGraph, r: usize) -> (sym: usize)
        requires
            graph.wf(),
            old(self).cursor < graph.nodes@.len(),
            r < graph.nodes@[old(self).cursor as int].visits,
        ensures
            sym < ALPHABET,
            ({
                let e = graph.nodes@[old(self).cursor as int].exits@;
                &&& count_sum(e, sym as int) <= r < count_sum(e, sym + 1)
                &&& count_sum(e, sym + 1) <= graph.nodes@[old(self).cursor as int].visits
                &&& final(self).cursor == if old(self).go_back && sym == 0 {
                    0
                } else {
                    e[sym as int].0 as int
                }
            }),
            final(self).go_back == old(self).go_back,
            final(self).cursor < graph.nodes@.len(),
    {
        let node = graph.nodes[self.cursor];
        let ghost e = node.exits@;
        proof {
            assert(graph.nodes@[self.cursor as int].wf());
        }
        let mut rest = r;
        let mut i: usize = 0;
        while rest >= node.exits[i].1
            invariant
                0 <= i < ALPHABET,
                e == node.exits@,
                node.visits == count_sum(e, ALPHABET as int),
                r < node.visits,
                count_sum(e, i as int) <= r,
                rest == r - count_sum(e, i as int),
            decreases ALPHABET - i,
        {
            rest = rest - node.exits[i].1;
            i = i + 1;
            proof {
                if i == ALPHABET {
                    assert(false);
                }
            }
        }
        proof {
            lemma_count_sum_grows(e, i as int + 1, ALPHABET as int);
        }
        let target = node.exits[i].0;
        self.cursor = if self.go_back && i == 0 {
            0
        } else {
            target
        };
        i
    }

    /// Walks up to `length` steps with draws from `rng` and returns the
    /// symbols; the walk stops early only at a node with no visits, which
    /// cannot be sampled from.
    pub fn generate(
        &mut self,
        graph: &ContextGraph,
        length: usize,
        rng: &mut rand::rngs::StdRng,
    ) -> (out: Vec<usize>)
        requires
            graph.wf(),
            old(self).cursor < graph.nodes@.len(),
        ensures
            out@.len() <= length,
            forall|k: int| 0 <= k < out@.len() ==> out@[k] < ALPHABET,
            out@.len() < length ==> graph.nodes@[final(self).cursor as int].visits == 0,
            final(self).cursor < graph.nodes@.len(),
            final(self).go_back == old(self).go_back,
            exists|cs: Seq<int>|
                #[trigger] walk(graph, old(self).go_back, out@, cs) && cs[0] == old(self).cursor
                    && cs.last() == final(self).cursor,
    {
        let mut out: Vec<usize> = Vec::new();
        let mut n: usize = 0;
        let ghost mut cs: Seq<int> = seq![self.cursor as int];
        while n < length
            invariant
                graph.wf(),
                self.cursor < graph.nodes@.len(),
                self.go_back == old(self).go_back,
                n <= length,
                out@.len() == n,
                forall|k: int| 0 <= k < out@.len() ==> out@[k] < ALPHABET,
                walk(graph, self.go_back, out@, cs),
                cs[0] == old(self).cursor,
                cs.last() == self.cursor,
            decreases length - n,
        {
            let visits = graph.nodes[self.cursor].visits;
            if visits == 0 {
                return out;
            }
            let r = draw_below(rng, visits);
            let ghost c0 = self.cursor as int;
            let ghost out0 = out@;
            let ghost cs0 = cs;
            let sym = self.step(graph, r);
            out.push(sym);
            proof {
                cs = cs.push(self.cursor as int);
                let e = graph.nodes@[c0].exits@;
                assert(e[sym as int].1 > 0);
                assert forall|k: int| 0 <= k < out@.len() implies #[trigger] walk_step(
                    graph,
                    self.go_back,
                    out@,
                    cs,
                    k,
                ) by {
                    if k < out0.len() {
                        assert(walk_step(graph, self.go_back, out0, cs0, k));
                        assert(out@[k] == out0[k] && cs[k] == cs0[k] && cs[k + 1] == cs0[k + 1]);
                    }
                }
            }
            n = n + 1;
        }
        out
    }
}

} // verus!
