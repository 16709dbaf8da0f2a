use vstd::prelude::*;
use crate::codec::ALPHABET;
use crate::node::{count_sum, split_parts, Node};

verus! {

/// Settings of the model, fixed when the graph is made.
#[derive(Clone, Copy, Debug)]
pub struct Config {
    /// A transition must have been taken more than this many times to split.
    pub min_visits: usize,
    /// The target must keep more than this many visits besides the transition.
    pub min_remaining: usize,
    /// Whether symbol `0` sends the cursor back to the root.
    pub go_back: bool,
}

impl Config {
    /// The usual settings: splits after four visits, with the same minimum
    /// left over, and no return to the root.
    pub fn standard() -> (r: Config)
        ensures
            r.min_visits == 4,
            r.min_remaining == 4,
            !r.go_back,
    {
        Config { min_visits: 4, min_remaining: 4, go_back: false }
    }
}

/// The growing model: an append-only sequence of nodes, the root first.
///
/// Counts are never rescaled; instead no visit count exceeds the number of
/// ingested symbols, which must stay below `usize::MAX`.
#[derive(Debug)]
pub struct ContextGraph {
    pub nodes: Vec<Node>,
    pub config: Config,
    /// How many symbols were ingested; no visit count exceeds it.
    pub ingested: usize,
}

/// Each edge count is at most the sum of the counts.
pub proof fn lemma_count_le_sum(e: Seq<(usize, usize)>, n: int, i: int)
    requires
        0 <= i < n <= e.len(),
    ensures
        e[i].1 <= count_sum(e, n),
    decreases n,
{
    lemma_count_sum_nonneg(e, n - 1);
    if i < n - 1 {
        lemma_count_le_sum(e, n - 1, i);
    }
}

/// A sum of counts is never negative.
pub proof fn lemma_count_sum_nonneg(e: Seq<(usize, usize)>, n: int)
    ensures
        0 <= count_sum(e, n),
    decreases n,
{
    if n > 0 {
        lemma_count_sum_nonneg(e, n - 1);
    }
}

/// Replacing one entry changes the sum by the difference of the counts.
pub proof fn lemma_count_sum_update(e: Seq<(usize, usize)>, n: int, i: int, x: (usize, usize))
    requires
        0 <= i < n <= e.len(),
    ensures
        count_sum(e.update(i, x), n) == count_sum(e, n) - e[i].1 + x.1,
    decreases n,
{
    if i < n - 1 {
        lemma_count_sum_update(e, n - 1, i, x);
    } else {
        lemma_count_sum_same(e.update(i, x), e, n - 1);
    }
}

/// Sequences with the same counts have the same sum.
pub proof fn lemma_count_sum_same(s: Seq<(usize, usize)>, t: Seq<(usize, usize)>, n: int)
    requires
        0 <= n <= s.len(),
        n <= t.len(),
        forall|i: int| 0 <= i < n ==> s[i].1 == t[i].1,
    ensures
        count_sum(s, n) == count_sum(t, n),
    decreases n,
{
    if n > 0 {
        lemma_count_sum_same(s, t, n - 1);
    }
}

/// The effect of ingesting `sym` at `cursor` on nodes `g`, giving nodes `h`
/// and the next cursor `next`: the transition is recorded; with the
/// return-to-root policy symbol `0` leads to the root; otherwise, if the
/// transition is well observed and its target keeps enough other visits, the
/// target is split, the new node takes the transition's earlier visits, and the
/// transition is redirected to it.
pub open spec fn ingest_step(
    cfg: Config,
    g: Seq<Node>,
    cursor: int,
    sym: int,
    h: Seq<Node>,
    next: int,
) -> bool {
    let c = g[cursor];
    let t = c.exits@[sym].0 as int;
    let k = c.exits@[sym].1 + 1;
    let bv = c.visits + 1;
    let be = c.exits@.update(sym, (t as usize, k as usize));
    let tv = if t == cursor {
        bv
    } else {
        g[t].visits as int
    };
    let te = if t == cursor {
        be
    } else {
        g[t].exits@
    };
    let n = g.len() as int;
    if (cfg.go_back && sym == 0) || !splits(cfg, k, tv) {
        &&& h.len() == g.len()
        &&& next == if cfg.go_back && sym == 0 {
            0
        } else {
            t
        }
        &&& h[cursor].visits == bv
        &&& h[cursor].exits@ == be
        &&& forall|j: int| 0 <= j < n && j != cursor ==> h[j] == g[j]
    } else {
        &&& h.len() == n + 1
        &&& next == n
        &&& forall|j: int| 0 <= j < n && j != cursor && j != t ==> h[j] == g[j]
        &&& if t == cursor {
            &&& h[t].exits@[sym].0 == n
            &&& split_parts(
                tv,
                te,
                k - 1,
                h[t].visits as int,
                h[t].exits@.update(sym, (t as usize, h[t].exits@[sym].1)),
                h[n].visits as int,
                h[n].exits@,
            )
        } else {
            &&& h[cursor].visits == bv
            &&& h[cursor].exits@ == be.update(sym, (n as usize, k as usize))
            &&& split_parts(
                tv,
                te,
                k - 1,
                h[t].visits as int,
                h[t].exits@,
                h[n].visits as int,
                h[n].exits@,
            )
        }
    }
}

/// Whether a transition now taken `k` times into a target with `tv` visits
/// splits the target.
pub open spec fn splits(cfg: Config, k: int, tv: int) -> bool {
    k > cfg.min_visits && tv + 1 - k > cfg.min_remaining
}

/// Every edge of `g` leads to a node of `g`.
pub open spec fn linked(g: Seq<Node>) -> bool {
    forall|j: int, i: int|
        0 <= j < g.len() && 0 <= i < ALPHABET ==> #[trigger] g[j].exits@[i].0 < g.len()
}

/// `g` and `h` hold the same visit and edge counts and the same edge targets.
pub open spec fn same_counts(g: Seq<Node>, h: Seq<Node>) -> bool {
    &&& g.len() == h.len()
    &&& forall|j: int|
        #![trigger g[j]]
        0 <= j < g.len() ==> g[j].visits == h[j].visits && g[j].exits@ == h[j].exits@
}

/// `g` holds only the root, with no visits and every edge back to itself.
pub open spec fn root_only(g: Seq<Node>) -> bool {
    &&& g.len() == 1
    &&& g[0].visits == 0
    &&& forall|i: int| 0 <= i < ALPHABET ==> #[trigger] g[0].exits@[i] == (0usize, 0usize)
}

/// `gs` and `cs` are the graphs and cursors met while ingesting `syms` one
/// after another, from the root.
pub open spec fn ingest_trace(
    cfg: Config,
    syms: Seq<usize>,
    gs: Seq<Seq<Node>>,
    cs: Seq<int>,
) -> bool {
    &&& gs.len() == syms.len() + 1
    &&& cs.len() == syms.len() + 1
    &&& cs[0] == 0
    &&& forall|k: int| 0 <= k < gs.len() ==> #[trigger] linked(gs[k])
    &&& forall|k: int| 0 <= k < syms.len() ==> #[trigger] trace_step(cfg, syms, gs, cs, k)
}

/// Step `k` of a trace ingests `syms[k]` at cursor `cs[k]` of `gs[k]`.
pub open spec fn trace_step(
    cfg: Config,
    syms: Seq<usize>,
    gs: Seq<Seq<Node>>,
    cs: Seq<int>,
    k: int,
) -> bool {
    &&& 0 <= cs[k] < gs[k].len()
    &&& syms[k] < ALPHABET
    &&& ingest_step(cfg, gs[k], cs[k], syms[k] as int, gs[k + 1], cs[k + 1])
}

/// Ingesting a symbol is deterministic: from graphs with the same counts the
/// same symbol at the same cursor gives graphs with the same counts and the
/// same next cursor.
pub proof fn lemma_ingest_step_deterministic(
    cfg: Config,
    g1: Seq<Node>,
    g2: Seq<Node>,
    cursor: int,
    sym: int,
    h1: Seq<Node>,
    n1: int,
    h2: Seq<Node>,
    n2: int,
)
    requires
        same_counts(g1, g2),
        linked(g1),
        0 <= cursor < g1.len(),
        0 <= sym < ALPHABET,
        ingest_step(cfg, g1, cursor, sym, h1, n1),
        ingest_step(cfg, g2, cursor, sym, h2, n2),
    ensures
        same_counts(h1, h2),
        n1 == n2,
{
    let t = g1[cursor].exits@[sym].0 as int;
    assert(g1[cursor].exits@ == g2[cursor].exits@);
    assert(g1[t].visits == g2[t].visits && g1[t].exits@ == g2[t].exits@);
    let n = g1.len() as int;
    assert forall|j: int| 0 <= j < h1.len() implies #[trigger] h1[j].visits == h2[j].visits
        && h1[j].exits@ == h2[j].exits@ by {
        if j < n {
            assert(g1[j].visits == g2[j].visits && g1[j].exits@ == g2[j].exits@);
        }
        if (j == t || j == n) && h1.len() == n + 1 {
            assert(h1[j].exits@ =~= h2[j].exits@) by {
                if j == t && t == cursor {
                    let x1 = h1[t].exits@.update(sym, (t as usize, h1[t].exits@[sym].1));
                    let x2 = h2[t].exits@.update(sym, (t as usize, h2[t].exits@[sym].1));
                    assert forall|i: int| 0 <= i < ALPHABET implies h1[t].exits@[i]
                        == h2[t].exits@[i] by {
                        assert(x1[i] == x2[i]);
                    }
                } else if j == t {
                    assert forall|i: int| 0 <= i < ALPHABET implies h1[t].exits@[i]
                        == h2[t].exits@[i] by {
                        assert(h1[t].exits@[i] == h2[t].exits@[i]);
                    }
                } else {
                    assert forall|i: int| 0 <= i < ALPHABET implies h1[n].exits@[i]
                        == h2[n].exits@[i] by {
                        assert(h1[n].exits@[i] == h2[n].exits@[i]);
                    }
                }
            }
        }
    }
}

/// Ingesting the same symbols twice from the root gives graphs with the same
/// counts, and the same cursor, at the end.
pub proof fn lemma_ingest_deterministic(
    cfg: Config,
    syms: Seq<usize>,
    gs1: Seq<Seq<Node>>,
    cs1: Seq<int>,
    gs2: Seq<Seq<Node>>,
    cs2: Seq<int>,
)
    requires
        ingest_trace(cfg, syms, gs1, cs1),
        ingest_trace(cfg, syms, gs2, cs2),
        root_only(gs1[0]),
        root_only(gs2[0]),
    ensures
        same_counts(gs1.last(), gs2.last()),
        cs1.last() == cs2.last(),
{
    assert(gs1[0][0].exits@ =~= gs2[0][0].exits@);
    lemma_traces_agree(cfg, syms, gs1, cs1, gs2, cs2, syms.len() as int);
}

proof fn lemma_traces_agree(
    cfg: Config,
    syms: Seq<usize>,
    gs1: Seq<Seq<Node>>,
    cs1: Seq<int>,
    gs2: Seq<Seq<Node>>,
    cs2: Seq<int>,
    k: int,
)
    requires
        ingest_trace(cfg, syms, gs1, cs1),
        ingest_trace(cfg, syms, gs2, cs2),
        same_counts(gs1[0], gs2[0]),
        0 <= k <= syms.len(),
    ensures
        same_counts(gs1[k], gs2[k]),
        cs1[k] == cs2[k],
    decreases k,
{
    if k > 0 {
        lemma_traces_agree(cfg, syms, gs1, cs1, gs2, cs2, k - 1);
        let j = k - 1;
        assert(linked(gs1[j]));
        assert(trace_step(cfg, syms, gs1, cs1, j));
        assert(trace_step(cfg, syms, gs2, cs2, j));
        lemma_ingest_step_deterministic(
            cfg,
            gs1[j],
            gs2[j],
            cs1[j],
            syms[j] as int,
            gs1[k],
            cs1[k],
            gs2[k],
            cs2[k],
        );
    }
}

impl ContextGraph {
    /// Every node's visits equal its edge counts' sum and are at most the
    /// number of ingested symbols, and every edge leads to a node of the graph.
    pub open spec fn wf(&self) -> bool {
        &&& self.nodes@.len() >= 1
        &&& forall|j: int| 0 <= j < self.nodes@.len() ==> #[trigger] self.nodes@[j].wf()
        &&& forall|j: int|
            0 <= j < self.nodes@.len() ==> #[trigger] self.nodes@[j].visits <= self.ingested
        &&& forall|j: int, i: int|
            0 <= j < self.nodes@.len() && 0 <= i < ALPHABET ==> #[trigger] self.nodes@[j].exits@[i].0
                < self.nodes@.len()
    }

    /// A graph holding only the root, with no visits and every edge back to itself.
    pub fn new(config: Config) -> (r: ContextGraph)
        ensures
            r.wf(),
            r.config == config,
            r.ingested == 0,
            root_only(r.nodes@),
    {
        let root = Node::fresh(0);
        let mut nodes: Vec<Node> = Vec::new();
        nodes.push(root);
        ContextGraph { nodes, config, ingested: 0 }
    }

    /// Number of nodes.
    pub fn len(&self) -> (r: usize)
        ensures
            r == self.nodes@.len(),
    {
        self.nodes.len()
    }

    /// Records `symbol` as seen from node `cursor`, splits the target where
    /// the rules call for it, and returns the node reached.
    pub fn ingest(&mut self, symbol: usize, cursor: usize) -> (next: usize)
        requires
            old(self).wf(),
            cursor < old(self).nodes@.len(),
            symbol < ALPHABET,
            old(self).ingested < usize::MAX,
        ensures
            final(self).wf(),
            final(self).config == old(self).config,
            final(self).ingested == old(self).ingested + 1,
            next < final(self).nodes@.len(),
            ingest_step(
                old(self).config,
                old(self).nodes@,
                cursor as int,
                symbol as int,
                final(self).nodes@,
                next as int,
            ),
    {
        let ghost g = self.nodes@;
        let mut c = self.nodes[cursor];
        let (t, k0) = c.exits[symbol];
        proof {
            assert(g[cursor as int].wf());
            lemma_count_le_sum(c.exits@, ALPHABET as int, symbol as int);
            lemma_count_sum_update(c.exits@, ALPHABET as int, symbol as int, (t, (k0 + 1) as usize));
            assert(c.exits@[symbol as int].0 < g.len());
        }
        c.visits = c.visits + 1;
        c.exits[symbol] = (t, k0 + 1);
        self.nodes.set(cursor, c);
        self.ingested = self.ingested + 1;
        assert(self.nodes@[cursor as int].wf());
        if self.config.go_back && symbol == 0 {
            return 0;
        }
        let k = k0 + 1;
        let tv = self.nodes[t].visits;
        if k > self.config.min_visits && tv >= k && tv - k >= self.config.min_remaining {
            let new_id = self.nodes.len();
            let mut tn = self.nodes[t];
            let ghost tn0 = tn;
            let nn = tn.split(k - 1);
            self.nodes.set(t, tn);
            self.nodes.push(nn);
            let mut cn = self.nodes[cursor];
            let (_, kc) = cn.exits[symbol];
            let ghost ce = cn.exits@;
            cn.exits[symbol] = (new_id, kc);
            proof {
                lemma_count_sum_update(ce, ALPHABET as int, symbol as int, (new_id, kc));
            }
            self.nodes.set(cursor, cn);
            proof {
                let h = self.nodes@;
                let n = g.len() as int;
                let s = symbol as int;
                assert(h.len() == n + 1);
                if t == cursor {
                    assert(tn0 == c);
                    assert(tn.exits@[s].0 == tn0.exits@[s].0);
                    assert(ce == tn.exits@);
                    assert(h[t as int].exits@.update(s, (t, h[t as int].exits@[s].1)) =~= tn.exits@);
                } else {
                    assert(h[t as int] == tn);
                }
                assert(h[n] == nn);
                assert(h[cursor as int].wf());
                assert forall|j: int| 0 <= j < h.len() implies #[trigger] h[j].wf()
                    && h[j].visits <= self.ingested by {
                    if j != cursor && j != t && j != n {
                        assert(h[j] == g[j]);
                    }
                }
                assert forall|j: int, i: int|
                    0 <= j < h.len() && 0 <= i < ALPHABET implies #[trigger] h[j].exits@[i].0
                    < h.len() by {
                    if j == n {
                        assert(nn.exits@[i].0 == tn0.exits@[i].0);
                    } else if j == cursor && i == s {
                    } else if j == t {
                        assert(tn.exits@[i].0 == tn0.exits@[i].0);
                    } else if j == cursor {
                        assert(h[j].exits@[i] == ce[i]);
                    } else {
                        assert(h[j] == g[j]);
                    }
                }
            }
            new_id
        } else {
            t
        }
    }

    /// Ingests `symbols` one after another into a fresh graph, starting at the root.
    pub fn build(config: Config, symbols: &Vec<usize>) -> (r: ContextGraph)
        requires
            forall|k: int| 0 <= k < symbols@.len() ==> symbols@[k] < ALPHABET,
            symbols@.len() < usize::MAX,
        ensures
            r.wf(),
            r.config == config,
            r.ingested == symbols@.len(),
            exists|gs: Seq<Seq<Node>>, cs: Seq<int>|
                #[trigger] ingest_trace(config, symbols@, gs, cs) && root_only(gs[0]) && gs.last()
                    == r.nodes@,
    {
        let mut graph = ContextGraph::new(config);
        let mut cursor: usize = 0;
        let ghost mut gs: Seq<Seq<Node>> = seq![graph.nodes@];
        let ghost mut cs: Seq<int> = seq![0int];
        let mut k: usize = 0;
        while k < symbols.len()
            invariant
                graph.wf(),
                graph.config == config,
                graph.ingested == k,
                k <= symbols@.len(),
                symbols@.len() < usize::MAX,
                forall|j: int| 0 <= j < symbols@.len() ==> symbols@[j] < ALPHABET,
                cursor < graph.nodes@.len(),
                ingest_trace(config, symbols@.take(k as int), gs, cs),
                root_only(gs[0]),
                gs.last() == graph.nodes@,
                cs.last() == cursor,
            decreases symbols@.len() - k,
        {
            let ghost g0 = graph.nodes@;
            let ghost c0 = cursor as int;
            cursor = graph.ingest(symbols[k], cursor);
            proof {
                let old_gs = gs;
                let old_cs = cs;
                gs = gs.push(graph.nodes@);
                cs = cs.push(cursor as int);
                let t = symbols@.take(k + 1);
                assert(symbols@.take(k as int) =~= t.take(k as int));
                assert forall|j: int| 0 <= j < gs.len() implies #[trigger] linked(gs[j]) by {
                    if j < old_gs.len() {
                        assert(gs[j] == old_gs[j]);
                    }
                }
                assert forall|j: int| 0 <= j < t.len() implies #[trigger] trace_step(config, t, gs, cs, j) by {
                    if j < k {
                        assert(trace_step(config, symbols@.take(k as int), old_gs, old_cs, j));
                        assert(gs[j] == old_gs[j] && gs[j + 1] == old_gs[j + 1]);
                        assert(cs[j] == old_cs[j] && cs[j + 1] == old_cs[j + 1]);
                    } else {
                        assert(gs[j] == g0 && cs[j] == c0);
                        assert(t[j] == symbols@[k as int]);
                        assert(gs[j + 1] == graph.nodes@ && cs[j + 1] == cursor as int);
                    }
                }
                assert(ingest_trace(config, t, gs, cs));
            }
            k = k + 1;
        }
        proof {
            assert(symbols@.take(k as int) =~= symbols@);
        }
        graph
    }
}

} // verus!
