//! The search for cycles of negative weight: a queue of nodes whose distance has fallen, and the
//! loops of predecessors behind those that come back into it as often as there are nodes.
use crate::arbitrage::graph::{
    is_graph_of, lemma_leaving, lemma_node_names, leaving, pair_connected, same_trade, Edge,
    EdgeKind, Graph,
};
use crate::domain::{cycle_views, CycleInfo, CycleView, MarketView, Trade, TradeView};
use crate::double::{
    at_most, lemma_nearest_monotone, lemma_sum_bounds, lemma_sum_error, lemma_sum_monotone, lemma_units_increase,
    lemma_value_bounds, less, sum, Double,
};
use crate::text::{before, lemma_before_irreflexive, texts};
use std::collections::VecDeque;
use vstd::prelude::*;

verus! {

broadcast use vstd::string::group_string_axioms;

/// Why the search was given up.
#[derive(Clone, Copy, Debug, PartialEq, Eq, Structural)]
pub enum SpfaError {
    /// More nodes were taken from the queue than the limit allows.
    IterationLimit,
}

/// The state of the search.
#[verifier::ext_equal]
pub struct Search {
    /// The least weight of a way to each node that was found so far, from a start at zero anywhere.
    pub dist: Seq<Double>,
    /// The node before each node on that way.
    pub pred: Seq<Option<usize>>,
    /// How often each node came into the queue.
    pub visits: Seq<nat>,
    pub queued: Seq<bool>,
    pub queue: Seq<usize>,
    /// The nodes that came into the queue as often as there are nodes.
    pub suspects: Seq<bool>,
}

/// The state at the start: all nodes in the queue, at distance zero.
pub open spec fn started(n: nat) -> Search {
    Search {
        dist: Seq::new(n, |i: int| Double { bits: 0 }),
        pred: Seq::new(n, |i: int| None::<usize>),
        visits: Seq::new(n, |i: int| 1nat),
        queued: Seq::new(n, |i: int| true),
        queue: Seq::new(n, |i: int| i as usize),
        suspects: Seq::new(n, |i: int| false),
    }
}

/// Whether an edge leads to a shorter way.
pub open spec fn shortens(s: Search, e: Edge) -> bool {
    &&& e.weight.finite()
    &&& s.dist[e.from as int].finite()
    &&& less(sum(s.dist[e.from as int], e.weight), s.dist[e.to as int])
}

/// The state after an edge was looked at: where it leads to a shorter way, that way is taken, and
/// its end comes into the queue unless it is there or was there as often as there are nodes.
pub open spec fn relaxed(s: Search, e: Edge) -> Search {
    let n = s.dist.len();
    let v = e.to as int;
    if !shortens(s, e) {
        s
    } else if s.queued[v] || s.visits[v] >= n {
        Search {
            dist: s.dist.update(v, sum(s.dist[e.from as int], e.weight)),
            pred: s.pred.update(v, Some(e.from)),
            ..s
        }
    } else {
        Search {
            dist: s.dist.update(v, sum(s.dist[e.from as int], e.weight)),
            pred: s.pred.update(v, Some(e.from)),
            visits: s.visits.update(v, s.visits[v] + 1),
            queued: s.queued.update(v, true),
            queue: s.queue.push(e.to),
            suspects: s.suspects.update(v, s.suspects[v] || s.visits[v] + 1 >= n),
        }
    }
}

/// The state after the given edges were looked at in turn.
pub open spec fn relaxed_all(s: Search, edges: Seq<Edge>, list: Seq<usize>) -> Search
    decreases list.len(),
{
    if list.len() == 0 {
        s
    } else {
        relaxed(relaxed_all(s, edges, list.drop_last()), edges[list.last() as int])
    }
}

/// The state without the first node of the queue.
pub open spec fn popped(s: Search) -> Search {
    Search {
        queued: s.queued.update(s.queue[0] as int, false),
        queue: s.queue.drop_first(),
        ..s
    }
}

/// The state after the first node of the queue was taken and its edges looked at.
pub open spec fn visited(s: Search, edges: Seq<Edge>) -> Search {
    relaxed_all(popped(s), edges, leaving(edges, s.queue[0] as int))
}

/// The state after `k` nodes were taken from the queue, or when it was empty before.
pub open spec fn after_visits(edges: Seq<Edge>, n: nat, k: nat) -> Search
    decreases k,
{
    if k == 0 {
        started(n)
    } else {
        let s = after_visits(edges, n, (k - 1) as nat);
        if s.queue.len() == 0 {
            s
        } else {
            visited(s, edges)
        }
    }
}

/// The state at the end. No node comes into the queue more often than there are nodes.
pub open spec fn settled(edges: Seq<Edge>, n: nat) -> Search {
    after_visits(edges, n, n * n)
}

/// The node that is `k` predecessors before a node.
pub open spec fn ancestor(pred: Seq<Option<usize>>, v: usize, k: nat) -> Option<usize>
    decreases k,
{
    if k == 0 {
        Some(v)
    } else {
        match ancestor(pred, v, (k - 1) as nat) {
            Some(x) => pred[x as int],
            None => None,
        }
    }
}

/// The predecessors from the end of a path back to the first node that comes again: the nodes of
/// that loop, each followed by its predecessor.
pub open spec fn trail(pred: Seq<Option<usize>>, path: Seq<usize>) -> Option<Seq<usize>>
    decreases pred.len() - path.len(),
{
    match pred[path.last() as int] {
        None => None,
        Some(x) => if path.contains(x) {
            Some(path.skip(path.index_of(x)))
        } else if path.len() >= pred.len() {
            None
        } else {
            trail(pred, path.push(x))
        },
    }
}

/// The loop behind a node, in the direction of the edges: the one that is reached by going back as
/// many predecessors as there are nodes.
pub open spec fn loop_behind(pred: Seq<Option<usize>>, v: usize) -> Option<Seq<usize>> {
    match ancestor(pred, v, pred.len()) {
        Some(b) => match trail(pred, seq![b]) {
            Some(t) => Some(t.reverse()),
            None => None,
        },
        None => None,
    }
}

/// The last edge from one node to another.
pub open spec fn edge_between(edges: Seq<Edge>, u: usize, v: usize) -> Option<int>
    decreases edges.len(),
{
    if edges.len() == 0 {
        None
    } else if edges.last().from == u && edges.last().to == v {
        Some(edges.len() - 1)
    } else {
        edge_between(edges.drop_last(), u, v)
    }
}

/// The word for the direction of a trade.
pub open spec fn kind_text(kind: EdgeKind) -> Seq<char> {
    match kind {
        EdgeKind::Buy => "BUY"@,
        EdgeKind::Sell => "SELL"@,
    }
}

/// The nodes of a loop with the first one again at the end.
pub open spec fn closed_loop(nodes: Seq<usize>) -> Seq<usize> {
    nodes.push(nodes[0])
}

/// The trade from one node to another, where there is an edge and its pair has a name.
pub open spec fn trade_between(
    nodes: Seq<Seq<char>>,
    edges: Seq<Edge>,
    pairs: Seq<Seq<char>>,
    u: usize,
    v: usize,
) -> Option<TradeView> {
    match edge_between(edges, u, v) {
        Some(i) => if edges[i].pair_id < pairs.len() {
            Some(
                TradeView {
                    from: nodes[u as int],
                    to: nodes[v as int],
                    pair: pairs[edges[i].pair_id as int],
                    kind: kind_text(edges[i].kind),
                },
            )
        } else {
            None
        },
        None => None,
    }
}

/// Whether a list holds places of nodes alone.
pub open spec fn places_within(path: Seq<usize>, n: nat) -> bool {
    forall|i: int| 0 <= i < path.len() ==> (#[trigger] path[i]) < n
}

/// The cycle along the nodes `path`, of which the last closes it; none where a node or a trade is
/// missing.
pub open spec fn cycle_along(
    nodes: Seq<Seq<char>>,
    edges: Seq<Edge>,
    pairs: Seq<Seq<char>>,
    path: Seq<usize>,
) -> Option<CycleView> {
    let depth = (path.len() - 1) as nat;
    if places_within(path, nodes.len()) && forall|i: int|
        0 <= i < depth ==> trade_between(nodes, edges, pairs, #[trigger] path[i], path[i + 1])
            is Some {
        Some(
            CycleView {
                nodes: path.map_values(|x: usize| nodes[x as int]),
                trades: Seq::new(
                    depth,
                    |i: int| trade_between(nodes, edges, pairs, path[i], path[i + 1])->0,
                ),
                depth,
            },
        )
    } else {
        None
    }
}

/// Whether two sequences hold the same nodes.
pub open spec fn same_members(a: Seq<usize>, b: Seq<usize>) -> bool {
    forall|x: usize| #[trigger] a.contains(x) <==> b.contains(x)
}

/// Whether a loop with the same nodes is among the given ones.
pub open spec fn is_known(loops: Seq<Seq<usize>>, nodes: Seq<usize>) -> bool {
    exists|i: int| 0 <= i < loops.len() && same_members(#[trigger] loops[i], nodes)
}

/// Whether a node is on one of the given loops.
pub open spec fn on_loop(loops: Seq<Seq<usize>>, v: usize) -> bool {
    exists|i: int| 0 <= i < loops.len() && (#[trigger] loops[i]).contains(v)
}

/// The loops that were found, and their cycles.
pub struct Findings {
    pub loops: Seq<Seq<usize>>,
    pub cycles: Seq<CycleView>,
}

/// What was found once the nodes below `k` have been looked at: for each suspect that is on no
/// loop yet the loop behind it, if it is new, not too long, and has all its trades.
pub open spec fn found_below(
    nodes: Seq<Seq<char>>,
    edges: Seq<Edge>,
    pairs: Seq<Seq<char>>,
    s: Search,
    max_depth: nat,
    k: nat,
) -> Findings
    decreases k,
{
    if k == 0 {
        Findings { loops: Seq::empty(), cycles: Seq::empty() }
    } else {
        let f = found_below(nodes, edges, pairs, s, max_depth, (k - 1) as nat);
        let v = (k - 1) as usize;
        if !s.suspects[k - 1] || on_loop(f.loops, v) {
            f
        } else {
            match loop_behind(s.pred, v) {
                None => f,
                Some(l) => if l.len() > max_depth || is_known(f.loops, l) {
                    f
                } else {
                    match cycle_along(nodes, edges, pairs, closed_loop(l)) {
                        None => f,
                        Some(c) => Findings { loops: f.loops.push(l), cycles: f.cycles.push(c) },
                    }
                },
            }
        }
    }
}

/// Whether there is anything to search.
pub open spec fn searchable(g: Graph, max_depth: nat) -> bool {
    g.nodes@.len() > 0 && g.edges@.len() > 0 && max_depth > 0
}

/// What the search finds.
pub open spec fn findings(g: Graph, pairs: Seq<Seq<char>>, max_depth: nat) -> Findings {
    if searchable(g, max_depth) {
        found_below(
            texts(g.nodes@),
            g.edges@,
            pairs,
            settled(g.edges@, g.nodes@.len()),
            max_depth,
            g.nodes@.len(),
        )
    } else {
        Findings { loops: Seq::empty(), cycles: Seq::empty() }
    }
}

/// The largest number of nodes that may have been taken from the queue when one more is.
pub open spec fn iteration_limit(g: Graph) -> nat {
    g.nodes@.len() * g.edges@.len() * 2 + g.nodes@.len()
}

/// Whether the search takes more nodes from the queue than the limit allows.
pub open spec fn overruns(g: Graph, max_depth: nat) -> bool {
    &&& searchable(g, max_depth)
    &&& after_visits(g.edges@, g.nodes@.len(), iteration_limit(g) + 1).queue.len() > 0
}

/// All parts of a state have a place for each of `n` nodes.
pub open spec fn fits(s: Search, n: nat) -> bool {
    &&& s.dist.len() == n
    &&& s.pred.len() == n
    &&& s.visits.len() == n
    &&& s.queued.len() == n
    &&& s.suspects.len() == n
    &&& forall|i: int| 0 <= i < s.queue.len() ==> (#[trigger] s.queue[i]) < n
    &&& forall|i: int| 0 <= i < n ==> (#[trigger] s.visits[i]) <= n
    &&& forall|i: int| 0 <= i < n && #[trigger] s.pred[i] is Some ==> s.pred[i]->0 < n
}

/// Whether all edges lie between `n` nodes.
pub open spec fn edges_fit(edges: Seq<Edge>, n: nat) -> bool {
    &&& edges.len() <= usize::MAX
    &&& forall|i: int| 0 <= i < edges.len() ==> (#[trigger] edges[i]).from < n && edges[i].to < n
}

/// How often nodes may still come into the queue.
spec fn left(visits: Seq<nat>, n: nat) -> int
    decreases visits.len(),
{
    if visits.len() == 0 {
        0
    } else {
        left(visits.drop_last(), n) + n - visits.last()
    }
}

proof fn lemma_left_update(visits: Seq<nat>, n: nat, v: int)
    requires
        0 <= v < visits.len(),
    ensures
        left(visits.update(v, visits[v] + 1), n) == left(visits, n) - 1,
    decreases visits.len(),
{
    let next = visits.update(v, visits[v] + 1);
    if v == visits.len() - 1 {
        assert(next.drop_last() == visits.drop_last());
    } else {
        assert(next.drop_last() == visits.drop_last().update(v, visits[v] + 1));
        lemma_left_update(visits.drop_last(), n, v);
    }
}

proof fn lemma_left_bounds(visits: Seq<nat>, n: nat)
    requires
        forall|i: int| 0 <= i < visits.len() ==> (#[trigger] visits[i]) <= n,
    ensures
        left(visits, n) >= 0,
    decreases visits.len(),
{
    if visits.len() > 0 {
        assert(visits[visits.len() - 1] <= n);
        assert forall|i: int| 0 <= i < visits.drop_last().len() implies (
        #[trigger] visits.drop_last()[i]) <= n by {
            assert(visits[i] <= n);
        }
        lemma_left_bounds(visits.drop_last(), n);
    }
}

proof fn lemma_left_start(visits: Seq<nat>, n: nat)
    requires
        forall|i: int| 0 <= i < visits.len() ==> (#[trigger] visits[i]) == 1,
    ensures
        left(visits, n) == visits.len() * (n - 1),
    decreases visits.len(),
{
    if visits.len() > 0 {
        assert(visits[visits.len() - 1] == 1);
        assert forall|i: int| 0 <= i < visits.drop_last().len() implies (
        #[trigger] visits.drop_last()[i]) == 1 by {
            assert(visits[i] == 1);
        }
        lemma_left_start(visits.drop_last(), n);
        assert((visits.len() - 1) * (n - 1) + (n - 1) == visits.len() * (n - 1)) by (nonlinear_arith);
    }
}

/// Looking at an edge keeps the state fitting and moves work only from what is left to the queue.
proof fn lemma_relaxed(s: Search, e: Edge, n: nat)
    requires
        fits(s, n),
        e.from < n,
        e.to < n,
    ensures
        fits(relaxed(s, e), n),
        left(relaxed(s, e).visits, n) + relaxed(s, e).queue.len() == left(s.visits, n)
            + s.queue.len(),
        relaxed(s, e).queue.len() >= s.queue.len(),
{
    let v = e.to as int;
    if shortens(s, e) && !s.queued[v] && s.visits[v] < n {
        lemma_left_update(s.visits, n, v);
    }
}

proof fn lemma_relaxed_all(s: Search, edges: Seq<Edge>, list: Seq<usize>, n: nat)
    requires
        fits(s, n),
        edges_fit(edges, n),
        forall|i: int| 0 <= i < list.len() ==> (#[trigger] list[i]) < edges.len(),
    ensures
        fits(relaxed_all(s, edges, list), n),
        left(relaxed_all(s, edges, list).visits, n) + relaxed_all(s, edges, list).queue.len()
            == left(s.visits, n) + s.queue.len(),
    decreases list.len(),
{
    if list.len() > 0 {
        assert(list[list.len() - 1] < edges.len());
        assert forall|i: int| 0 <= i < list.drop_last().len() implies (
        #[trigger] list.drop_last()[i]) < edges.len() by {
            assert(list[i] < edges.len());
        }
        lemma_relaxed_all(s, edges, list.drop_last(), n);
        lemma_relaxed(relaxed_all(s, edges, list.drop_last()), edges[list.last() as int], n);
    }
}

proof fn lemma_visited(s: Search, edges: Seq<Edge>, n: nat)
    requires
        fits(s, n),
        edges_fit(edges, n),
        s.queue.len() > 0,
    ensures
        fits(popped(s), n),
        fits(visited(s, edges), n),
        left(visited(s, edges).visits, n) + visited(s, edges).queue.len() == left(s.visits, n)
            + s.queue.len() - 1,
{
    let p = popped(s);
    assert(s.queue[0] < n);
    assert forall|i: int| 0 <= i < p.queue.len() implies (#[trigger] p.queue[i]) < n by {
        assert(s.queue[i + 1] < n);
    }
    lemma_leaving(edges, s.queue[0] as int);
    lemma_relaxed_all(p, edges, leaving(edges, s.queue[0] as int), n);
}

/// After `k` visits the queue is empty, or exactly `k` of the `n * n` entries are used up.
proof fn lemma_after_visits(edges: Seq<Edge>, n: nat, k: nat)
    requires
        edges_fit(edges, n),
        n <= usize::MAX,
    ensures
        ({
            let s = after_visits(edges, n, k);
            &&& fits(s, n)
            &&& s.queue.len() > 0 ==> left(s.visits, n) + s.queue.len() == n * n - k && k < n * n
        }),
    decreases k,
{
    if k == 0 {
        let s = started(n);
        lemma_left_start(s.visits, n);
        assert(n * (n - 1) + n == n * n) by (nonlinear_arith);
    } else {
        lemma_after_visits(edges, n, (k - 1) as nat);
        let s = after_visits(edges, n, (k - 1) as nat);
        if s.queue.len() > 0 {
            lemma_visited(s, edges, n);
        }
    }
    let s = after_visits(edges, n, k);
    lemma_left_bounds(s.visits, n);
}

/// Once the queue is empty nothing changes any more.
proof fn lemma_stays_settled(edges: Seq<Edge>, n: nat, k: nat, j: nat)
    requires
        k <= j,
        after_visits(edges, n, k).queue.len() == 0,
    ensures
        after_visits(edges, n, j) == after_visits(edges, n, k),
    decreases j - k,
{
    if k < j {
        lemma_stays_settled(edges, n, k, (j - 1) as nat);
    }
}

/// The state in which the queue is first empty is the settled one.
proof fn lemma_settled(edges: Seq<Edge>, n: nat, k: nat)
    requires
        edges_fit(edges, n),
        n <= usize::MAX,
        after_visits(edges, n, k).queue.len() == 0,
    ensures
        after_visits(edges, n, k) == settled(edges, n),
{
    lemma_after_visits(edges, n, n * n);
    if k <= n * n {
        lemma_stays_settled(edges, n, k, n * n);
    } else {
        lemma_stays_settled(edges, n, n * n, k);
    }
}

/// With at least as many edges as nodes the limit is never met.
pub proof fn lemma_within_limit(g: Graph, max_depth: nat)
    requires
        g.wf(),
        g.nodes@.len() <= g.edges@.len() <= usize::MAX,
    ensures
        !overruns(g, max_depth),
{
    let n = g.nodes@.len();
    let m = g.edges@.len();
    lemma_after_visits(g.edges@, n, iteration_limit(g) + 1);
    assert(n * n <= n * m * 2 + n) by (nonlinear_arith)
        requires
            n <= m,
    ;
}

/// The search in a graph that was built from markets is never given up, whatever weights the graph
/// has taken since: it has at most as many nodes as edges.
pub proof fn lemma_built_graph_within_limit(
    g: Graph,
    fresh: Graph,
    markets: Map<Seq<char>, MarketView>,
    pairs: Seq<Seq<char>>,
    fee: Double,
    max_depth: nat,
)
    requires
        is_graph_of(fresh, markets, pairs, fee),
        g.wf(),
        g.same_shape(&fresh),
        g.edges@.len() <= usize::MAX,
    ensures
        !overruns(g, max_depth),
{
    lemma_node_names(markets, pairs);
    assert(g.nodes@.len() == texts(g.nodes@).len());
    lemma_within_limit(g, max_depth);
}

/// The search as it runs.
struct SearchState {
    dist: Vec<Double>,
    pred: Vec<Option<usize>>,
    visits: Vec<usize>,
    queued: Vec<bool>,
    queue: VecDeque<usize>,
    suspects: Vec<bool>,
}

impl View for SearchState {
    type V = Search;

    closed spec fn view(&self) -> Search {
        Search {
            dist: self.dist@,
            pred: self.pred@,
            visits: self.visits@.map_values(|x: usize| x as nat),
            queued: self.queued@,
            queue: self.queue@,
            suspects: self.suspects@,
        }
    }
}

impl SearchState {
    /// The state at the start.
    fn start(n: usize) -> (r: SearchState)
        ensures
            r@ == started(n as nat),
    {
        let mut r = SearchState {
            dist: Vec::new(),
            pred: Vec::new(),
            visits: Vec::new(),
            queued: Vec::new(),
            queue: VecDeque::new(),
            suspects: Vec::new(),
        };
        let mut i: usize = 0;
        assert(r@ =~= started(0));
        while i < n
            invariant
                i <= n,
                r@ =~= started(i as nat),
                r.visits@.len() == i,
                forall|j: int| 0 <= j < r.visits@.len() ==> #[trigger] r.visits@[j] == 1,
            decreases n - i,
        {
            r.dist.push(Double { bits: 0 });
            r.pred.push(None);
            r.visits.push(1);
            r.queued.push(true);
            r.queue.push_back(i);
            r.suspects.push(false);
            i = i + 1;
            proof {
                let s = started(i as nat);
                assert(r@.dist =~= s.dist);
                assert(r@.pred =~= s.pred);
                assert forall|j: int| 0 <= j < i implies r@.visits[j] == s.visits[j] by {
                    assert(r.visits@[j] == 1);
                }
                assert(r@.visits =~= s.visits);
                assert(r@.queued =~= s.queued);
                assert(r@.queue =~= s.queue);
                assert(r@.suspects =~= s.suspects);
            }
        }
        r
    }

    /// Looks at an edge.
    fn relax(&mut self, e: &Edge)
        requires
            fits(old(self)@, old(self)@.dist.len()),
            e.from < old(self)@.dist.len(),
            e.to < old(self)@.dist.len(),
        ensures
            final(self)@ == relaxed(old(self)@, *e),
            fits(final(self)@, old(self)@.dist.len()),
    {
        proof {
            lemma_relaxed(self@, *e, self@.dist.len());
        }
        let n: usize = self.dist.len();
        let u: usize = e.from;
        let v: usize = e.to;
        if !e.weight.is_finite() || !self.dist[u].is_finite() {
            return;
        }
        let nd: Double = self.dist[u].plus(e.weight);
        if nd.lt(self.dist[v]) {
            self.dist.set(v, nd);
            self.pred.set(v, Some(u));
            assert(self@.visits[v as int] == self.visits@[v as int]);
            if !self.queued[v] && self.visits[v] < n {
                self.queue.push_back(v);
                self.queued.set(v, true);
                let count: usize = self.visits[v] + 1;
                self.visits.set(v, count);
                if count >= n {
                    self.suspects.set(v, true);
                }
            }
            assert(self@ =~= relaxed(old(self)@, *e));
        }
    }
}

/// The last edge from one node to another.
fn edge_lookup(graph: &Graph, u: usize, v: usize) -> (r: Option<usize>)
    requires
        graph.wf(),
        u < graph.nodes@.len(),
    ensures
        match r {
            Some(i) => edge_between(graph.edges@, u, v) == Some(i as int),
            None => edge_between(graph.edges@, u, v) is None,
        },
{
    let list: &Vec<usize> = &graph.adjacency[u];
    let mut k: usize = list.len();
    proof {
        let m: usize = graph.edges.len();
        lemma_leaving(graph.edges@, u as int);
        lemma_edge_between(graph.edges@, u, v);
        assert(list@ == leaving(graph.edges@, u as int));
    }
    let ghost out = leaving(graph.edges@, u as int);
    while k > 0
        invariant
            k <= list.len(),
            list@ == out,
            graph.edges@.len() <= usize::MAX,
            out == leaving(graph.edges@, u as int),
            forall|j: int|
                0 <= j < out.len() ==> (#[trigger] out[j]) < graph.edges@.len()
                    && graph.edges@[out[j] as int].from == u,
            forall|j: int| k <= j < out.len() ==> graph.edges@[(#[trigger] out[j]) as int].to != v,
        decreases k,
    {
        k = k - 1;
        let i: usize = list[k];
        assert(out[k as int] == i);
        if graph.edges[i].to == v {
            proof {
                lemma_leaving_increases(graph.edges@, u as int);
                lemma_edge_between_last(graph.edges@, u, v, i as int, k as int);
            }
            return Some(i);
        }
    }
    proof {
        lemma_edge_between(graph.edges@, u, v);
        if edge_between(graph.edges@, u, v) is Some {
            let i = edge_between(graph.edges@, u, v)->0;
            assert(graph.edges@[i].from == u);
            assert(out.contains(i as usize));
        }
    }
    None
}

/// The last edge between two nodes is one, and none comes after it.
pub proof fn lemma_edge_between(edges: Seq<Edge>, u: usize, v: usize)
    ensures
        match edge_between(edges, u, v) {
            Some(i) => 0 <= i < edges.len() && edges[i].from == u && edges[i].to == v && forall|j: int|
                i < j < edges.len() ==> !((#[trigger] edges[j]).from == u && edges[j].to == v),
            None => forall|j: int|
                0 <= j < edges.len() ==> !((#[trigger] edges[j]).from == u && edges[j].to == v),
        },
    decreases edges.len(),
{
    if edges.len() > 0 && !(edges.last().from == u && edges.last().to == v) {
        let rest = edges.drop_last();
        lemma_edge_between(rest, u, v);
        assert forall|j: int|
            0 <= j < edges.len() && (edge_between(rest, u, v) is Some ==> j > edge_between(
                rest,
                u,
                v,
            )->0) implies !((#[trigger] edges[j]).from == u && edges[j].to == v) by {
            if j < rest.len() {
                assert(rest[j] == edges[j]);
            }
        }
    }
}

/// The edges that leave a node are listed in their order.
proof fn lemma_leaving_increases(edges: Seq<Edge>, node: int)
    requires
        edges.len() <= usize::MAX,
    ensures
        forall|i: int, j: int|
            0 <= i < j < leaving(edges, node).len() ==> (#[trigger] leaving(edges, node)[i]) < (
            #[trigger] leaving(edges, node)[j]),
    decreases edges.len(),
{
    if edges.len() > 0 {
        let rest = edges.drop_last();
        lemma_leaving_increases(rest, node);
        lemma_leaving(rest, node);
        let all = leaving(edges, node);
        let some = leaving(rest, node);
        assert forall|i: int, j: int| 0 <= i < j < all.len() implies (#[trigger] all[i]) < (
        #[trigger] all[j]) by {
            assert(all[i] == some[i]);
            if j < some.len() {
                assert(all[j] == some[j]);
            }
        }
    }
}

proof fn lemma_edge_between_last(edges: Seq<Edge>, u: usize, v: usize, i: int, k: int)
    requires
        edges.len() <= usize::MAX,
        0 <= k < leaving(edges, u as int).len(),
        leaving(edges, u as int)[k] == i,
        0 <= i < edges.len(),
        edges[i].from == u,
        edges[i].to == v,
        forall|j: int|
            k < j < leaving(edges, u as int).len() ==> edges[(#[trigger] leaving(
                edges,
                u as int,
            )[j]) as int].to != v,
    ensures
        edge_between(edges, u, v) == Some(i),
{
    lemma_leaving(edges, u as int);
    lemma_leaving_increases(edges, u as int);
    lemma_edge_between(edges, u, v);
    let out = leaving(edges, u as int);
    let e = edge_between(edges, u, v)->0;
    if edge_between(edges, u, v) is Some {
        assert(edges[e].from == u);
        assert(out.contains(e as usize));
        let j = choose|j: int| 0 <= j < out.len() && out[j] == e as usize;
        if j > k {
            assert(edges[out[j] as int].to != v);
        } else if j < k {
            assert(out[j] < out[k]);
            assert(edges[i].from == u && edges[i].to == v);
        }
    } else {
        assert(edges[i].from == u && edges[i].to == v);
    }
}

/// The cycle along `cycle_nodes`, of which the last closes it; none where a node or a trade is
/// missing.
pub fn reconstruct_cycle(
    graph: &Graph,
    pair_names: &Vec<String>,
    cycle_nodes: &Vec<usize>,
    depth: usize,
) -> (r: Option<CycleInfo>)
    requires
        graph.wf(),
        cycle_nodes@.len() == depth + 1,
    ensures
        match r {
            Some(c) => cycle_along(
                texts(graph.nodes@),
                graph.edges@,
                texts(pair_names@),
                cycle_nodes@,
            ) == Some(c@),
            None => cycle_along(texts(graph.nodes@), graph.edges@, texts(pair_names@), cycle_nodes@)
                is None,
        },
{
    let ghost names = texts(graph.nodes@);
    let ghost pairs = texts(pair_names@);
    let ghost path = cycle_nodes@;
    let mut nodes: Vec<String> = Vec::new();
    let mut k: usize = 0;
    while k < cycle_nodes.len()
        invariant
            k <= cycle_nodes.len(),
            cycle_nodes@ == path,
            names == texts(graph.nodes@),
            pairs == texts(pair_names@),
            forall|i: int| 0 <= i < k ==> (#[trigger] path[i]) < graph.nodes@.len(),
            nodes@.len() == k,
            forall|i: int| 0 <= i < k ==> (#[trigger] nodes@[i])@ == names[path[i] as int],
        decreases cycle_nodes.len() - k,
    {
        let idx: usize = cycle_nodes[k];
        assert(path[k as int] == idx);
        if idx >= graph.nodes.len() {
            assert(!places_within(path, names.len()));
            return None;
        }
        nodes.push(graph.nodes[idx].clone());
        k = k + 1;
    }
    let mut trades: Vec<Trade> = Vec::new();
    let mut i: usize = 0;
    while i < depth
        invariant
            i <= depth,
            graph.wf(),
            cycle_nodes@ == path,
            path.len() == depth + 1,
            names == texts(graph.nodes@),
            pairs == texts(pair_names@),
            forall|i: int| 0 <= i < path.len() ==> (#[trigger] path[i]) < graph.nodes@.len(),
            trades@.len() == i,
            forall|j: int|
                0 <= j < i ==> trade_between(
                    names,
                    graph.edges@,
                    pairs,
                    #[trigger] path[j],
                    path[j + 1],
                ) == Some(trades@[j]@),
        decreases depth - i,
    {
        let u: usize = cycle_nodes[i];
        let v: usize = cycle_nodes[i + 1];
        assert(path[i as int] == u && path[i + 1] == v);
        proof {
            lemma_edge_between(graph.edges@, u, v);
        }
        let edge_idx: usize = match edge_lookup(graph, u, v) {
            Some(x) => x,
            None => {
                assert(trade_between(names, graph.edges@, pairs, path[i as int], path[i + 1])
                    is None);
                return None;
            },
        };
        let e: Edge = graph.edges[edge_idx];
        if e.pair_id >= pair_names.len() {
            assert(trade_between(names, graph.edges@, pairs, path[i as int], path[i + 1]) is None);
            return None;
        }
        let kind: String = match e.kind {
            EdgeKind::Buy => "BUY".to_owned(),
            EdgeKind::Sell => "SELL".to_owned(),
        };
        trades.push(
            Trade {
                from: graph.nodes[u].clone(),
                to: graph.nodes[v].clone(),
                pair: pair_names[e.pair_id].clone(),
                kind,
            },
        );
        i = i + 1;
    }
    let cycle = CycleInfo { nodes, trades, depth };
    proof {
        let c = cycle_along(names, graph.edges@, pairs, path);
        assert forall|j: int| 0 <= j < depth implies trade_between(
            names,
            graph.edges@,
            pairs,
            #[trigger] path[j],
            path[j + 1],
        ) is Some by {}
        assert(cycle@.nodes =~= path.map_values(|x: usize| names[x as int]));
        assert(cycle@.trades =~= Seq::new(
            depth as nat,
            |j: int| trade_between(names, graph.edges@, pairs, path[j], path[j + 1])->0,
        )) by {
            assert forall|j: int| 0 <= j < depth implies cycle@.trades[j] == (trade_between(
                names,
                graph.edges@,
                pairs,
                path[j],
                path[j + 1],
            )->0) by {
                assert(trade_between(names, graph.edges@, pairs, path[j], path[j + 1]) == Some(
                    trades@[j]@,
                ));
            }
        }
    }
    Some(cycle)
}

/// Runs the search to its end, or until the limit is met.
fn run_search(graph: &Graph) -> (r: Option<SearchState>)
    requires
        graph.wf(),
        graph.nodes@.len() > 0,
        iteration_limit(*graph) < u64::MAX,
    ensures
        match r {
            Some(s) => s@ == settled(graph.edges@, graph.nodes@.len()) && fits(
                s@,
                graph.nodes@.len(),
            ) && after_visits(
                graph.edges@,
                graph.nodes@.len(),
                iteration_limit(*graph) + 1,
            ).queue.len() == 0,
            None => after_visits(
                graph.edges@,
                graph.nodes@.len(),
                iteration_limit(*graph) + 1,
            ).queue.len() > 0,
        },
{
    let n: usize = graph.nodes.len();
    let m: usize = graph.edges.len();
    let ghost edges = graph.edges@;
    proof {
        assert(n * m <= n * m * 2 + n && n * m * 2 <= n * m * 2 + n) by (nonlinear_arith)
            requires
                n >= 0,
                m >= 0,
        ;
    }
    let limit: u64 = n as u64 * m as u64 * 2 + n as u64;
    let mut iters: u64 = 0;
    let mut state: SearchState = SearchState::start(n);
    let ghost mut k: nat = 0;
    proof {
        lemma_after_visits(edges, n as nat, 0);
    }
    while state.queue.len() > 0
        invariant
            graph.wf(),
            edges == graph.edges@,
            edges_fit(edges, n as nat),
            n == graph.nodes@.len(),
            limit == iteration_limit(*graph),
            limit < u64::MAX,
            k == iters,
            iters <= limit + 1,
            state@ == after_visits(edges, n as nat, k),
            fits(state@, n as nat),
        decreases n * n - k,
    {
        proof {
            lemma_after_visits(edges, n as nat, k);
        }
        if iters > limit {
            return None;
        }
        iters = iters + 1;
        let ghost before = state@;
        proof {
            lemma_visited(before, edges, n as nat);
        }
        let u: usize = match state.queue.pop_front() {
            Some(u) => u,
            None => 0,
        };
        state.queued.set(u, false);
        assert(state@ =~= popped(before));
        let list: &Vec<usize> = &graph.adjacency[u];
        let ghost out = leaving(edges, u as int);
        let ghost base = state@;
        let mut i: usize = 0;
        proof {
            assert(list@ == out);
            assert(out.take(0) =~= Seq::<usize>::empty());
            lemma_leaving(edges, u as int);
        }
        while i < list.len()
            invariant
                i <= list.len(),
                edges == graph.edges@,
                edges_fit(edges, n as nat),
                list@ == out,
                forall|j: int| 0 <= j < out.len() ==> (#[trigger] out[j]) < edges.len(),
                state@ == relaxed_all(base, edges, out.take(i as int)),
                fits(state@, n as nat),
            decreases list.len() - i,
        {
            let edge_idx: usize = list[i];
            assert(out[i as int] == edge_idx);
            assert(edges[edge_idx as int].from < n);
            let e: Edge = graph.edges[edge_idx];
            state.relax(&e);
            proof {
                let next = out.take(i + 1);
                assert(next.drop_last() =~= out.take(i as int) && next.last() == edge_idx);
            }
            i = i + 1;
        }
        proof {
            assert(out.take(out.len() as int) =~= out);
            k = k + 1;
        }
    }
    proof {
        lemma_settled(edges, n as nat, k);
        if k <= limit + 1 {
            lemma_stays_settled(edges, n as nat, k, (limit + 1) as nat);
        }
    }
    Some(state)
}

/// The node that is as many predecessors before a node as there are nodes.
fn walk_back(pred: &Vec<Option<usize>>, v: usize) -> (r: Option<usize>)
    requires
        v < pred@.len(),
        forall|i: int| 0 <= i < pred@.len() && #[trigger] pred@[i] is Some ==> pred@[i]->0 < pred@.len(),
    ensures
        r == ancestor(pred@, v, pred@.len()),
        r matches Some(b) ==> b < pred@.len(),
{
    let n: usize = pred.len();
    let mut at: usize = v;
    let mut k: usize = 0;
    while k < n
        invariant
            k <= n == pred@.len(),
            at < n,
            forall|i: int| 0 <= i < pred@.len() && #[trigger] pred@[i] is Some ==> pred@[i]->0 < pred@.len(),
            ancestor(pred@, v, k as nat) == Some(at),
        decreases n - k,
    {
        match pred[at] {
            Some(x) => {
                assert(pred@[at as int] == Some(x));
                at = x;
            },
            None => {
                proof {
                    lemma_no_ancestor(pred@, v, (k + 1) as nat, n as nat);
                }
                return None;
            },
        }
        k = k + 1;
    }
    Some(at)
}

/// Without an ancestor there is none before it.
proof fn lemma_no_ancestor(pred: Seq<Option<usize>>, v: usize, k: nat, j: nat)
    requires
        k <= j,
        ancestor(pred, v, k) is None,
    ensures
        ancestor(pred, v, j) is None,
    decreases j - k,
{
    if k < j {
        lemma_no_ancestor(pred, v, k, (j - 1) as nat);
    }
}

/// The loop of predecessors that is reached from a node, in the direction of the edges.
fn follow_trail(pred: &Vec<Option<usize>>, b: usize) -> (r: Option<Vec<usize>>)
    requires
        b < pred@.len(),
        forall|i: int| 0 <= i < pred@.len() && #[trigger] pred@[i] is Some ==> pred@[i]->0 < pred@.len(),
    ensures
        match r {
            Some(l) => trail(pred@, seq![b]) is Some && l@ == (trail(pred@, seq![b])->0).reverse()
                && l@.len() > 0 && l@.no_duplicates() && forall|i: int|
                0 <= i < l@.len() ==> (#[trigger] l@[i]) < pred@.len(),
            None => trail(pred@, seq![b]) is None,
        },
{
    let n: usize = pred.len();
    let mut seen: Vec<Option<usize>> = Vec::new();
    let mut i: usize = 0;
    while i < n
        invariant
            i <= n,
            seen@.len() == i,
            forall|j: int| 0 <= j < i ==> #[trigger] seen@[j] is None,
        decreases n - i,
    {
        seen.push(None);
        i = i + 1;
    }
    let mut path: Vec<usize> = Vec::new();
    path.push(b);
    seen.set(b, Some(0));
    assert(path@ =~= seq![b]);
    loop
        invariant
            n == pred@.len(),
            seen@.len() == n,
            0 < path@.len() <= n,
            forall|i: int| 0 <= i < pred@.len() && #[trigger] pred@[i] is Some ==> pred@[i]->0 < pred@.len(),
            forall|j: int|
                0 <= j < path@.len() ==> (#[trigger] path@[j]) < n && seen@[path@[j] as int] == Some(
                    j as usize,
                ),
            forall|x: int|
                0 <= x < n && #[trigger] seen@[x] is Some ==> seen@[x]->0 < path@.len()
                    && path@[seen@[x]->0 as int] == x,
            trail(pred@, seq![b]) == trail(pred@, path@),
        decreases n - path@.len(),
    {
        let last: usize = path[path.len() - 1];
        assert(path@.last() == last);
        match pred[last] {
            None => {
                return None;
            },
            Some(x) => {
                assert(pred@[last as int] == Some(x));
                match seen[x] {
                    Some(p) => {
                        assert(seen@[x as int] == Some(p));
                        proof {
                            assert(path@[p as int] == x);
                            assert(path@.contains(x));
                            let q = path@.index_of(x);
                            assert(0 <= q < path@.len() && path@[q] == x);
                            assert(seen@[path@[q] as int] == Some(q as usize));
                            assert(q == p);
                        }
                        return Some(reversed_from(&path, p, Ghost(n as nat)));
                    },
                    None => {
                        proof {
                            if path@.contains(x) {
                                let q = path@.index_of(x);
                                assert(seen@[path@[q] as int] is Some);
                            }
                        }
                        if path.len() >= n {
                            return None;
                        }
                        let ghost old_path = path@;
                        let at: usize = path.len();
                        seen.set(x, Some(at));
                        path.push(x);
                        assert(path@ =~= old_path.push(x));
                    },
                }
            },
        }
    }
}

/// The part of a path from a place on, turned round.
fn reversed_from(path: &Vec<usize>, from: usize, Ghost(n): Ghost<nat>) -> (r: Vec<usize>)
    requires
        from < path@.len(),
        forall|i: int| 0 <= i < path@.len() ==> (#[trigger] path@[i]) < n,
        path@.no_duplicates(),
    ensures
        r@ == path@.skip(from as int).reverse(),
        r@.len() > 0,
        r@.no_duplicates(),
        forall|i: int| 0 <= i < r@.len() ==> (#[trigger] r@[i]) < n,
{
    let mut r: Vec<usize> = Vec::new();
    let mut k: usize = path.len();
    while k > from
        invariant
            from <= k <= path@.len(),
            r@.len() == path@.len() - k,
            forall|i: int| 0 <= i < r@.len() ==> #[trigger] r@[i] == path@[path@.len() - 1 - i],
        decreases k,
    {
        k = k - 1;
        r.push(path[k]);
    }
    assert(r@ =~= path@.skip(from as int).reverse());
    r
}

/// Whether a list of nodes holds a node.
fn contains_node(list: &Vec<usize>, x: usize) -> (r: bool)
    ensures
        r == list@.contains(x),
{
    let mut i: usize = 0;
    while i < list.len()
        invariant
            i <= list.len(),
            forall|j: int| 0 <= j < i ==> list@[j] != x,
        decreases list.len() - i,
    {
        if list[i] == x {
            return true;
        }
        i = i + 1;
    }
    false
}

/// Whether all nodes of one list are in another.
fn all_within(a: &Vec<usize>, b: &Vec<usize>) -> (r: bool)
    ensures
        r == (forall|x: usize| #[trigger] a@.contains(x) ==> b@.contains(x)),
{
    let mut i: usize = 0;
    while i < a.len()
        invariant
            i <= a.len(),
            forall|j: int| 0 <= j < i ==> b@.contains(#[trigger] a@[j]),
        decreases a.len() - i,
    {
        if !contains_node(b, a[i]) {
            assert(a@.contains(a@[i as int]));
            return false;
        }
        i = i + 1;
    }
    true
}

/// The loops as sequences.
spec fn loop_views(loops: Seq<Vec<usize>>) -> Seq<Seq<usize>> {
    loops.map_values(|l: Vec<usize>| l@)
}

/// Whether a loop with the same nodes is among the given ones.
fn known_loop(loops: &Vec<Vec<usize>>, nodes: &Vec<usize>) -> (r: bool)
    ensures
        r == is_known(loop_views(loops@), nodes@),
{
    let mut i: usize = 0;
    while i < loops.len()
        invariant
            i <= loops.len(),
            forall|j: int| 0 <= j < i ==> !same_members(#[trigger] loop_views(loops@)[j], nodes@),
        decreases loops.len() - i,
    {
        let one: &Vec<usize> = &loops[i];
        assert(loop_views(loops@)[i as int] == one@);
        if all_within(one, nodes) && all_within(nodes, one) {
            assert(same_members(one@, nodes@));
            return true;
        }
        assert(!same_members(one@, nodes@));
        i = i + 1;
    }
    false
}

/// The cycles of negative weight that the search comes upon, each of at most `max_depth` trades.
pub fn find_negative_cycles_spfa(
    graph: &Graph,
    pair_names: &Vec<String>,
    max_depth: usize,
) -> (r: Result<Vec<CycleInfo>, SpfaError>)
    requires
        graph.wf(),
        iteration_limit(*graph) < u64::MAX,
    ensures
        match r {
            Ok(cycles) => !overruns(*graph, max_depth as nat) && cycle_views(cycles@) == findings(
                *graph,
                texts(pair_names@),
                max_depth as nat,
            ).cycles,
            Err(SpfaError::IterationLimit) => overruns(*graph, max_depth as nat),
        },
        graph.nodes@.len() <= graph.edges@.len() ==> r is Ok,
{
    proof {
        let m: usize = graph.edges.len();
        if graph.nodes@.len() <= graph.edges@.len() {
            lemma_within_limit(*graph, max_depth as nat);
        }
    }
    let mut cycles: Vec<CycleInfo> = Vec::new();
    if graph.nodes.len() == 0 || graph.edges.len() == 0 || max_depth == 0 {
        assert(cycle_views(cycles@) =~= Seq::<CycleView>::empty());
        return Ok(cycles);
    }
    let state: SearchState = match run_search(graph) {
        Some(s) => s,
        None => {
            return Err(SpfaError::IterationLimit);
        },
    };
    let n: usize = graph.nodes.len();
    let ghost names = texts(graph.nodes@);
    let ghost pairs = texts(pair_names@);
    let ghost s = state@;
    let mut loops: Vec<Vec<usize>> = Vec::new();
    let mut on_a_loop: Vec<bool> = Vec::new();
    let mut i: usize = 0;
    while i < n
        invariant
            i <= n,
            on_a_loop@.len() == i,
            forall|j: int| 0 <= j < i ==> #[trigger] on_a_loop@[j] == false,
        decreases n - i,
    {
        on_a_loop.push(false);
        i = i + 1;
    }
    let mut v: usize = 0;
    proof {
        assert(loop_views(loops@) =~= Seq::<Seq<usize>>::empty());
        assert(cycle_views(cycles@) =~= Seq::<CycleView>::empty());
    }
    while v < n
        invariant
            v <= n == graph.nodes@.len(),
            graph.wf(),
            fits(s, n as nat),
            state@ == s,
            names == texts(graph.nodes@),
            pairs == texts(pair_names@),
            on_a_loop@.len() == n,
            loop_views(loops@) == found_below(
                names,
                graph.edges@,
                pairs,
                s,
                max_depth as nat,
                v as nat,
            ).loops,
            cycle_views(cycles@) == found_below(
                names,
                graph.edges@,
                pairs,
                s,
                max_depth as nat,
                v as nat,
            ).cycles,
            forall|x: int|
                0 <= x < n ==> #[trigger] on_a_loop@[x] == on_loop(loop_views(loops@), x as usize),
        decreases n - v,
    {
        let ghost f = found_below(
            names,
            graph.edges@,
            pairs,
            s,
            max_depth as nat,
            v as nat,
        );
        let ghost at = v;
        let node: usize = v;
        v = v + 1;
        assert(on_a_loop@[node as int] == on_loop(f.loops, node));
        if !state.suspects[node] || on_a_loop[node] {
            continue;
        }
        let b: usize = match walk_back(&state.pred, node) {
            Some(b) => b,
            None => {
                continue;
            },
        };
        let nodes: Vec<usize> = match follow_trail(&state.pred, b) {
            Some(l) => l,
            None => {
                continue;
            },
        };
        assert(loop_behind(s.pred, node) == Some(nodes@));
        let depth: usize = nodes.len();
        if depth > max_depth {
            continue;
        }
        if known_loop(&loops, &nodes) {
            continue;
        }
        let mut path: Vec<usize> = copy_nodes(&nodes);
        path.push(nodes[0]);
        assert(path@ =~= closed_loop(nodes@));
        match reconstruct_cycle(graph, pair_names, &path, depth) {
            Some(cycle) => {
                let ghost loops_before = loop_views(loops@);
                let ghost flags_before = on_a_loop@;
                let mut k: usize = 0;
                while k < nodes.len()
                    invariant
                        k <= nodes@.len(),
                        on_a_loop@.len() == n == flags_before.len(),
                        forall|i: int| 0 <= i < nodes@.len() ==> (#[trigger] nodes@[i]) < n,
                        forall|x: int|
                            0 <= x < n ==> (#[trigger] on_a_loop@[x] == (flags_before[x]
                                || nodes@.take(k as int).contains(x as usize))),
                    decreases nodes.len() - k,
                {
                    let x: usize = nodes[k];
                    let ghost flags = on_a_loop@;
                    on_a_loop.set(x, true);
                    proof {
                        let so_far = nodes@.take(k as int);
                        let next = nodes@.take(k + 1);
                        assert(next =~= so_far.push(x));
                        assert forall|y: int| 0 <= y < n implies #[trigger] on_a_loop@[y] == (
                        flags_before[y] || next.contains(y as usize)) by {
                            assert(flags[y] == (flags_before[y] || so_far.contains(y as usize)));
                            if so_far.contains(y as usize) {
                                let j = choose|j: int|
                                    0 <= j < so_far.len() && so_far[j] == y as usize;
                                assert(next[j] == y as usize);
                            }
                            if next.contains(y as usize) {
                                let j = choose|j: int| 0 <= j < next.len() && next[j] == y as usize;
                                if j < k {
                                    assert(so_far[j] == y as usize);
                                }
                            }
                            assert(next[k as int] == x);
                        }
                    }
                    k = k + 1;
                }
                let ghost cycles_before = cycle_views(cycles@);
                cycles.push(cycle);
                let ghost l = nodes@;
                loops.push(nodes);
                proof {
                    assert(l.take(l.len() as int) =~= l);
                    assert(cycle_views(cycles@) =~= cycles_before.push(cycle@));
                    assert(loop_views(loops@) =~= loops_before.push(l));
                    assert forall|x: int| 0 <= x < n implies #[trigger] on_a_loop@[x] == on_loop(
                        loop_views(loops@),
                        x as usize,
                    ) by {
                        let after = loop_views(loops@);
                        assert(flags_before[x] == on_loop(loops_before, x as usize));
                        if on_loop(loops_before, x as usize) {
                            let j = choose|j: int|
                                0 <= j < loops_before.len() && (
                                #[trigger] loops_before[j]).contains(x as usize);
                            assert(after[j].contains(x as usize));
                        }
                        if on_loop(after, x as usize) {
                            let j = choose|j: int|
                                0 <= j < after.len() && (#[trigger] after[j]).contains(x as usize);
                            if j < loops_before.len() {
                                assert(loops_before[j].contains(x as usize));
                            }
                        }
                        assert(after[loops_before.len() as int] == l);
                    }
                }
            },
            None => {},
        }
    }
    Ok(cycles)
}

/// A copy of a list of nodes.
fn copy_nodes(list: &Vec<usize>) -> (r: Vec<usize>)
    ensures
        r@ == list@,
{
    let mut r: Vec<usize> = Vec::new();
    let mut i: usize = 0;
    while i < list.len()
        invariant
            i <= list.len(),
            r@ == list@.take(i as int),
        decreases list.len() - i,
    {
        r.push(list[i]);
        i = i + 1;
        assert(list@.take(i as int) =~= list@.take(i - 1).push(list@[i - 1]));
    }
    assert(list@.take(list@.len() as int) =~= list@);
    r
}

/// Whether each node of a loop is the predecessor of the next one.
pub open spec fn is_pred_loop(pred: Seq<Option<usize>>, l: Seq<usize>) -> bool {
    &&& l.len() > 0
    &&& l.no_duplicates()
    &&& forall|i: int| 0 <= i < l.len() ==> (#[trigger] l[i]) < pred.len()
    &&& forall|i: int| 0 < i < l.len() ==> pred[(#[trigger] l[i]) as int] == Some(l[i - 1])
    &&& pred[l[0] as int] == Some(l.last())
}

/// A chain of predecessors, each followed by the one before it.
spec fn is_trail(pred: Seq<Option<usize>>, path: Seq<usize>) -> bool {
    &&& path.len() > 0
    &&& path.no_duplicates()
    &&& forall|i: int| 0 <= i < path.len() ==> (#[trigger] path[i]) < pred.len()
    &&& forall|i: int| 0 <= i < path.len() - 1 ==> pred[(#[trigger] path[i]) as int] == Some(path[i + 1])
}

proof fn lemma_trail(pred: Seq<Option<usize>>, path: Seq<usize>)
    requires
        is_trail(pred, path),
        forall|i: int| 0 <= i < pred.len() && #[trigger] pred[i] is Some ==> pred[i]->0 < pred.len(),
    ensures
        trail(pred, path) matches Some(t) ==> is_pred_loop(pred, t.reverse()),
    decreases pred.len() - path.len(),
{
    let last = path.last();
    assert(path[path.len() - 1] == last);
    match pred[last as int] {
        None => {},
        Some(x) => {
            if path.contains(x) {
                let p = path.index_of(x);
                let t = path.skip(p);
                let l = t.reverse();
                assert forall|i: int| 0 <= i < l.len() implies #[trigger] l[i] == path[path.len() - 1
                    - i] by {}
                assert forall|i: int| 0 < i < l.len() implies pred[(#[trigger] l[i]) as int] == Some(
                    l[i - 1],
                ) by {
                    let j = path.len() - 1 - i;
                    assert(pred[path[j] as int] == Some(path[j + 1]));
                }
                assert(l.last() == x);
            } else if path.len() < pred.len() {
                let next = path.push(x);
                assert forall|i: int| 0 <= i < next.len() - 1 implies pred[(
                #[trigger] next[i]) as int] == Some(next[i + 1]) by {
                    if i < path.len() - 1 {
                        assert(pred[path[i] as int] == Some(path[i + 1]));
                    }
                }
                assert(next.no_duplicates()) by {
                    assert forall|i: int, j: int|
                        0 <= i < next.len() && 0 <= j < next.len() && i != j implies next[i]
                        != next[j] by {
                        if i == path.len() {
                            assert(path.contains(path[j]));
                        } else if j == path.len() {
                            assert(path.contains(path[i]));
                        }
                    }
                }
                lemma_trail(pred, next);
            }
        },
    }
}

proof fn lemma_ancestor(pred: Seq<Option<usize>>, v: usize, k: nat)
    requires
        v < pred.len(),
        forall|i: int| 0 <= i < pred.len() && #[trigger] pred[i] is Some ==> pred[i]->0 < pred.len(),
    ensures
        ancestor(pred, v, k) matches Some(b) ==> b < pred.len(),
    decreases k,
{
    if k > 0 {
        lemma_ancestor(pred, v, (k - 1) as nat);
    }
}

/// The loop behind a node is a loop of predecessors.
proof fn lemma_loop_behind(pred: Seq<Option<usize>>, v: usize)
    requires
        v < pred.len(),
        forall|i: int| 0 <= i < pred.len() && #[trigger] pred[i] is Some ==> pred[i]->0 < pred.len(),
    ensures
        loop_behind(pred, v) matches Some(l) ==> is_pred_loop(pred, l),
{
    lemma_ancestor(pred, v, pred.len());
    match ancestor(pred, v, pred.len()) {
        Some(b) => {
            lemma_trail(pred, seq![b]);
        },
        None => {},
    }
}

/// What holds of each finding, whatever the weights are.
spec fn sound_finding(
    nodes: Seq<Seq<char>>,
    edges: Seq<Edge>,
    pairs: Seq<Seq<char>>,
    s: Search,
    max_depth: nat,
    l: Seq<usize>,
    c: CycleView,
) -> bool {
    &&& is_pred_loop(s.pred, l)
    &&& l.len() <= max_depth
    &&& cycle_along(nodes, edges, pairs, closed_loop(l)) == Some(c)
}

proof fn lemma_found_below(
    nodes: Seq<Seq<char>>,
    edges: Seq<Edge>,
    pairs: Seq<Seq<char>>,
    s: Search,
    max_depth: nat,
    k: nat,
)
    requires
        fits(s, nodes.len()),
        k <= nodes.len() <= usize::MAX,
    ensures
        ({
            let f = found_below(nodes, edges, pairs, s, max_depth, k);
            &&& f.loops.len() == f.cycles.len()
            &&& forall|i: int|
                0 <= i < f.loops.len() ==> sound_finding(
                    nodes,
                    edges,
                    pairs,
                    s,
                    max_depth,
                    #[trigger] f.loops[i],
                    f.cycles[i],
                )
            &&& forall|i: int, j: int|
                0 <= i < j < f.loops.len() ==> !same_members(
                    #[trigger] f.loops[i],
                    #[trigger] f.loops[j],
                )
        }),
    decreases k,
{
    if k > 0 {
        lemma_found_below(nodes, edges, pairs, s, max_depth, (k - 1) as nat);
        lemma_loop_behind(s.pred, (k - 1) as usize);
    }
}

/// Whether no two edges lead from the same node to the same node.
pub open spec fn without_parallels(edges: Seq<Edge>) -> bool {
    forall|i: int, j: int|
        0 <= i < j < edges.len() ==> !((#[trigger] edges[i]).from == (#[trigger] edges[j]).from
            && edges[i].to == edges[j].to)
}

/// The weight of the step from one node to the next.
pub open spec fn step_weight(edges: Seq<Edge>, u: usize, v: usize) -> Double {
    edges[edge_between(edges, u, v)->0].weight
}

/// A number after the weights of the steps along a path have been added to it one by one.
pub open spec fn added_along(edges: Seq<Edge>, path: Seq<usize>, d: Double) -> Double
    decreases path.len(),
{
    if path.len() <= 1 {
        d
    } else {
        sum(
            added_along(edges, path.drop_last(), d),
            step_weight(edges, path[path.len() - 2], path.last()),
        )
    }
}

/// The same loop from its node at place `k` on.
pub open spec fn turned(l: Seq<usize>, k: int) -> Seq<usize> {
    l.skip(k) + l.take(k)
}

/// Whether going once round from the node at place `k` with the number `d` ends below `d`.
pub open spec fn loses_from(edges: Seq<Edge>, l: Seq<usize>, k: int, d: Double) -> bool {
    less(added_along(edges, closed_loop(turned(l, k)), d), d)
}

/// Whether going round a loop from some node and some number ends below that number.
pub open spec fn loses(edges: Seq<Edge>, l: Seq<usize>) -> bool {
    exists|k: int, d: Double|
        0 <= k < l.len() && d.finite() && #[trigger] loses_from(edges, l, k, d)
}

/// Whether the edge behind a predecessor explains the distance of a node.
spec fn explained(s: Search, edges: Seq<Edge>, v: int) -> bool {
    match s.pred[v] {
        Some(u) => {
            &&& u < s.dist.len()
            &&& edge_between(edges, u, v as usize) is Some
            &&& step_weight(edges, u, v as usize).finite()
            &&& at_most(sum(s.dist[u as int], step_weight(edges, u, v as usize)), s.dist[v])
        },
        None => true,
    }
}

/// What the search keeps: distances are numbers and not above zero, predecessors explain them,
/// and all loops of predecessors lose.
spec fn sound(s: Search, edges: Seq<Edge>) -> bool {
    &&& forall|v: int| 0 <= v < s.dist.len() ==> !(#[trigger] s.dist[v]).nan() && s.dist[v].value() <= 0
    &&& forall|v: int| 0 <= v < s.dist.len() ==> #[trigger] explained(s, edges, v)
    &&& forall|l: Seq<usize>| #[trigger] is_pred_loop(s.pred, l) ==> loses(edges, l)
}

/// Along a chain of predecessors the added weights stay below the distances.
proof fn lemma_added_along(s: Search, edges: Seq<Edge>, r: Seq<usize>, m: int)
    requires
        0 < m <= r.len(),
        forall|i: int| 0 <= i < r.len() ==> (#[trigger] r[i]) < s.dist.len(),
        forall|v: int| 0 <= v < s.dist.len() ==> !(#[trigger] s.dist[v]).nan(),
        forall|i: int|
            0 < i < r.len() ==> s.pred[(#[trigger] r[i]) as int] == Some(r[i - 1]) && explained(
                s,
                edges,
                r[i] as int,
            ),
    ensures
        at_most(added_along(edges, r.take(m), s.dist[r[0] as int]), s.dist[r[m - 1] as int]),
    decreases m,
{
    let d = s.dist[r[0] as int];
    assert(r[0] < s.dist.len());
    if m > 1 {
        lemma_added_along(s, edges, r, m - 1);
        let (u, v) = (r[m - 2], r[m - 1]);
        assert(r[m - 1 - 1] == u);
        assert(s.pred[r[m - 1] as int] == Some(u));
        assert(explained(s, edges, v as int));
        assert(r.take(m).drop_last() =~= r.take(m - 1));
        lemma_sum_monotone(
            added_along(edges, r.take(m - 1), d),
            s.dist[u as int],
            step_weight(edges, u, v),
        );
    }
}

/// Looking at an edge keeps the state sound.
proof fn lemma_relaxed_sound(s: Search, edges: Seq<Edge>, index: int, n: nat)
    requires
        fits(s, n),
        n <= usize::MAX,
        edges_fit(edges, n),
        without_parallels(edges),
        sound(s, edges),
        0 <= index < edges.len(),
    ensures
        sound(relaxed(s, edges[index]), edges),
{
    let e = edges[index];
    let after = relaxed(s, e);
    let (u, v) = (e.from, e.to);
    if shortens(s, e) {
        lemma_edge_between(edges, u, v);
        let found = edge_between(edges, u, v)->0;
        assert(edges[index].from == u && edges[index].to == v);
        assert(edges[found].from == edges[index].from && edges[found].to == edges[index].to);
        assert(found == index);
        let w = e.weight;
        assert(step_weight(edges, u, v) == w);
        let d = s.dist[v as int];
        let shorter = sum(s.dist[u as int], w);
        lemma_sum_bounds(s.dist[u as int], w);
        lemma_value_bounds(d);
        assert(s.dist[v as int].value() <= 0);
        assert(after.dist == s.dist.update(v as int, shorter));
        assert(after.pred == s.pred.update(v as int, Some(u)));
        assert(d.finite()) by {
            if d.infinite() {
                lemma_units_increase(0, d.magnitude());
            }
        }
        assert forall|x: int| 0 <= x < after.dist.len() implies !(#[trigger] after.dist[x]).nan()
            && after.dist[x].value() <= 0 by {
            assert(!s.dist[x].nan() && s.dist[x].value() <= 0);
        }
        assert(at_most(after.dist[u as int], s.dist[u as int]));
        lemma_sum_monotone(after.dist[u as int], s.dist[u as int], w);
        assert forall|x: int| 0 <= x < after.dist.len() implies #[trigger] explained(
            after,
            edges,
            x,
        ) by {
            assert(explained(s, edges, x));
            if x != v {
                match s.pred[x] {
                    Some(p) => {
                        assert(s.pred[x] is Some);
                        assert(!s.dist[p as int].nan());
                        assert(at_most(after.dist[p as int], s.dist[p as int]));
                        lemma_sum_monotone(
                            after.dist[p as int],
                            s.dist[p as int],
                            step_weight(edges, p, x as usize),
                        );
                    },
                    None => {},
                }
            }
        }
        assert forall|l: Seq<usize>| #[trigger] is_pred_loop(after.pred, l) implies loses(
            edges,
            l,
        ) by {
            lemma_new_loop(s, edges, index, n, l);
        }
    }
}

/// A loop of predecessors from another of its nodes on.
proof fn lemma_turned(pred: Seq<Option<usize>>, l: Seq<usize>, k: int)
    requires
        is_pred_loop(pred, l),
        0 <= k < l.len(),
    ensures
        ({
            let r = turned(l, k);
            &&& r.len() == l.len()
            &&& r[0] == l[k]
            &&& pred[l[k] as int] == Some(r.last())
            &&& forall|i: int| 0 <= i < r.len() ==> (#[trigger] r[i]) < pred.len()
            &&& forall|i: int|
                0 < i < r.len() ==> pred[(#[trigger] r[i]) as int] == Some(r[i - 1]) && r[i] != l[k]
        }),
{
    let r = turned(l, k);
    let n = l.len() as int;
    assert forall|i: int| 0 <= i < n implies #[trigger] r[i] == (if i + k < n {
        l[i + k]
    } else {
        l[i + k - n]
    }) by {}
    assert(pred[l[k] as int] == Some(r.last())) by {
        if k > 0 {
            assert(r[n - 1] == l[k - 1]);
            assert(pred[l[k] as int] == Some(l[k - 1]));
        }
    }
    assert forall|i: int| 0 < i < n implies pred[(#[trigger] r[i]) as int] == Some(r[i - 1])
        && r[i] != l[k] by {
        if i + k < n {
            assert(pred[l[i + k] as int] == Some(l[i + k - 1]));
        } else if i + k == n {
            assert(r[i - 1] == l[n - 1]);
        } else {
            assert(pred[l[i + k - n] as int] == Some(l[i + k - n - 1]));
        }
    }
}

/// A loop of predecessors through the end of a shortening edge loses from there.
proof fn lemma_new_loop(s: Search, edges: Seq<Edge>, index: int, n: nat, l: Seq<usize>)
    requires
        fits(s, n),
        edges_fit(edges, n),
        sound(s, edges),
        0 <= index < edges.len(),
        shortens(s, edges[index]),
        s.dist[edges[index].to as int].finite(),
        edge_between(edges, edges[index].from, edges[index].to) == Some(index),
        is_pred_loop(relaxed(s, edges[index]).pred, l),
    ensures
        loses(edges, l),
{
    let e = edges[index];
    let (u, v) = (e.from, e.to);
    let pred = relaxed(s, e).pred;
    assert(pred == s.pred.update(v as int, Some(u)));
    if l.contains(v) {
        let k = l.index_of(v);
        let d = s.dist[v as int];
        let r = turned(l, k);
        lemma_turned(pred, l, k);
        assert forall|i: int| 0 < i < r.len() implies s.pred[(#[trigger] r[i]) as int] == Some(
            r[i - 1],
        ) && explained(s, edges, r[i] as int) by {
            assert(pred[r[i] as int] == Some(r[i - 1]));
        }
        lemma_added_along(s, edges, r, r.len() as int);
        assert(r.take(r.len() as int) =~= r);
        assert(closed_loop(r).drop_last() =~= r);
        lemma_sum_monotone(added_along(edges, r, d), s.dist[u as int], e.weight);
        assert(loses_from(edges, l, k, d));
    } else {
        assert forall|i: int| 0 < i < l.len() implies s.pred[(#[trigger] l[i]) as int] == Some(
            l[i - 1],
        ) by {
            assert(l.contains(l[i]));
            assert(pred[l[i] as int] == Some(l[i - 1]));
        }
        assert(l.contains(l[0]));
        assert(is_pred_loop(s.pred, l));
    }
}

proof fn lemma_relaxed_all_sound(s: Search, edges: Seq<Edge>, list: Seq<usize>, n: nat)
    requires
        fits(s, n),
        n <= usize::MAX,
        edges_fit(edges, n),
        without_parallels(edges),
        sound(s, edges),
        forall|i: int| 0 <= i < list.len() ==> (#[trigger] list[i]) < edges.len(),
    ensures
        sound(relaxed_all(s, edges, list), edges),
    decreases list.len(),
{
    if list.len() > 0 {
        assert(list[list.len() - 1] < edges.len());
        assert forall|i: int| 0 <= i < list.drop_last().len() implies (
        #[trigger] list.drop_last()[i]) < edges.len() by {
            assert(list[i] < edges.len());
        }
        lemma_relaxed_all(s, edges, list.drop_last(), n);
        lemma_relaxed_all_sound(s, edges, list.drop_last(), n);
        lemma_relaxed_sound(
            relaxed_all(s, edges, list.drop_last()),
            edges,
            list.last() as int,
            n,
        );
    }
}

proof fn lemma_after_visits_sound(edges: Seq<Edge>, n: nat, k: nat)
    requires
        n <= usize::MAX,
        edges_fit(edges, n),
        without_parallels(edges),
    ensures
        sound(after_visits(edges, n, k), edges),
    decreases k,
{
    if k == 0 {
        let s = started(n);
        assert forall|l: Seq<usize>| #[trigger] is_pred_loop(s.pred, l) implies loses(edges, l) by {
            assert(l[0] < s.pred.len());
        }
    } else {
        lemma_after_visits_sound(edges, n, (k - 1) as nat);
        lemma_after_visits(edges, n, (k - 1) as nat);
        let s = after_visits(edges, n, (k - 1) as nat);
        if s.queue.len() > 0 {
            lemma_visited(s, edges, n);
            let p = popped(s);
            assert forall|v: int| 0 <= v < p.dist.len() implies #[trigger] explained(p, edges, v) by {
                assert(explained(s, edges, v));
            }
            lemma_leaving(edges, s.queue[0] as int);
            lemma_relaxed_all_sound(p, edges, leaving(edges, s.queue[0] as int), n);
        }
    }
}

/// Each reported cycle is closed and made of trades that follow each other: it has at least one
/// trade and at most as many as was asked for, ends at the node where it starts, and each of its
/// trades leads from one of its nodes to the next. No node comes twice before the cycle closes,
/// and no two cycles are over the same nodes.
pub proof fn lemma_reported_cycles(g: Graph, pairs: Seq<Seq<char>>, max_depth: nat)
    requires
        g.wf(),
        g.nodes@.len() <= usize::MAX,
        g.edges@.len() <= usize::MAX,
    ensures
        ({
            let f = findings(g, pairs, max_depth);
            &&& f.loops.len() == f.cycles.len()
            &&& forall|i: int|
                0 <= i < f.cycles.len() ==> {
                    let c = #[trigger] f.cycles[i];
                    &&& 1 <= c.depth <= max_depth
                    &&& c.depth == f.loops[i].len()
                    &&& f.loops[i].no_duplicates()
                    &&& c.nodes.len() == c.depth + 1
                    &&& c.trades.len() == c.depth
                    &&& c.nodes[c.depth as int] == c.nodes[0]
                    &&& forall|j: int|
                        0 <= j < c.depth ==> c.nodes[j] == g.nodes@[f.loops[i][j] as int]@ && (
                        #[trigger] c.trades[j]).from == c.nodes[j] && c.trades[j].to == c.nodes[j
                            + 1]
                }
            &&& forall|i: int, j: int|
                0 <= i < j < f.loops.len() ==> !same_members(
                    #[trigger] f.loops[i],
                    #[trigger] f.loops[j],
                )
        }),
{
    if searchable(g, max_depth) {
        let n = g.nodes@.len();
        let nodes = texts(g.nodes@);
        let s = settled(g.edges@, n);
        lemma_after_visits(g.edges@, n, n * n);
        lemma_found_below(nodes, g.edges@, pairs, s, max_depth, n);
        let f = findings(g, pairs, max_depth);
        assert forall|i: int| 0 <= i < f.cycles.len() implies {
            let c = #[trigger] f.cycles[i];
            &&& 1 <= c.depth <= max_depth
            &&& c.depth == f.loops[i].len()
            &&& f.loops[i].no_duplicates()
            &&& c.nodes.len() == c.depth + 1
            &&& c.trades.len() == c.depth
            &&& c.nodes[c.depth as int] == c.nodes[0]
            &&& forall|j: int|
                0 <= j < c.depth ==> c.nodes[j] == g.nodes@[f.loops[i][j] as int]@ && (
                #[trigger] c.trades[j]).from == c.nodes[j] && c.trades[j].to == c.nodes[j + 1]
        } by {
            let l = f.loops[i];
            let c = f.cycles[i];
            let path = closed_loop(l);
            assert(sound_finding(nodes, g.edges@, pairs, s, max_depth, l, c));
            assert forall|j: int| 0 <= j < c.depth implies c.nodes[j] == g.nodes@[l[j] as int]@ && (
            #[trigger] c.trades[j]).from == c.nodes[j] && c.trades[j].to == c.nodes[j + 1] by {
                assert(l[j] < n);
                assert(trade_between(nodes, g.edges@, pairs, path[j], path[j + 1]) is Some);
            }
        }
    }
}

/// Going back along predecessors from a node of a loop stays on the loop.
proof fn lemma_ancestor_on_loop(pred: Seq<Option<usize>>, l: Seq<usize>, v: usize, k: nat)
    requires
        is_pred_loop(pred, l),
        l.contains(v),
    ensures
        ancestor(pred, v, k) matches Some(b) ==> l.contains(b),
    decreases k,
{
    if k > 0 {
        lemma_ancestor_on_loop(pred, l, v, (k - 1) as nat);
        match ancestor(pred, v, (k - 1) as nat) {
            Some(b) => lemma_pred_on_loop(pred, l, b),
            None => {},
        }
    }
}

/// The predecessor of a node of a loop is on the loop.
proof fn lemma_pred_on_loop(pred: Seq<Option<usize>>, l: Seq<usize>, b: usize)
    requires
        is_pred_loop(pred, l),
        l.contains(b),
    ensures
        pred[b as int] is Some,
        l.contains(pred[b as int]->0),
{
    let i = choose|i: int| 0 <= i < l.len() && l[i] == b;
    if i > 0 {
        assert(pred[l[i] as int] == Some(l[i - 1]));
    } else {
        assert(l[l.len() - 1] == l.last());
    }
}

/// A trail from a node of a loop stays on the loop.
proof fn lemma_trail_on_loop(pred: Seq<Option<usize>>, l: Seq<usize>, path: Seq<usize>)
    requires
        is_pred_loop(pred, l),
        path.len() > 0,
        forall|i: int| 0 <= i < path.len() ==> l.contains(#[trigger] path[i]),
    ensures
        trail(pred, path) matches Some(t) ==> forall|i: int|
            0 <= i < t.len() ==> l.contains(#[trigger] t[i]),
    decreases pred.len() - path.len(),
{
    assert(path[path.len() - 1] == path.last());
    lemma_pred_on_loop(pred, l, path.last());
    let x = pred[path.last() as int]->0;
    if path.contains(x) {
        let p = path.index_of(x);
        assert forall|i: int| 0 <= i < path.skip(p).len() implies l.contains(
            #[trigger] path.skip(p)[i],
        ) by {
            assert(l.contains(path[p + i]));
        }
    } else if path.len() < pred.len() {
        lemma_trail_on_loop(pred, l, path.push(x));
    }
}

/// A loop that has a node of another loop has all of them.
proof fn lemma_loop_has_all(pred: Seq<Option<usize>>, l: Seq<usize>, m: Seq<usize>, i: int, j: int)
    requires
        is_pred_loop(pred, l),
        is_pred_loop(pred, m),
        0 <= i < l.len(),
        m.contains(l[i]),
        0 <= j < l.len(),
    ensures
        m.contains(l[j]),
    decreases
            if j <= i {
                i - j
            } else {
                i + l.len() - j
            },
{
    if i != j {
        lemma_pred_on_loop(pred, m, l[i]);
        if i > 0 {
            assert(pred[l[i] as int] == Some(l[i - 1]));
            lemma_loop_has_all(pred, l, m, i - 1, j);
        } else {
            lemma_loop_has_all(pred, l, m, l.len() - 1, j);
        }
    }
}

/// Two loops of predecessors that share a node have the same nodes, and as many.
proof fn lemma_same_loop(pred: Seq<Option<usize>>, l: Seq<usize>, m: Seq<usize>, v: usize)
    requires
        is_pred_loop(pred, l),
        is_pred_loop(pred, m),
        l.contains(v),
        m.contains(v),
    ensures
        same_members(l, m),
        l.len() == m.len(),
{
    let i = choose|i: int| 0 <= i < l.len() && l[i] == v;
    let k = choose|k: int| 0 <= k < m.len() && m[k] == v;
    assert forall|x: usize| #[trigger] l.contains(x) <==> m.contains(x) by {
        if l.contains(x) {
            let j = choose|j: int| 0 <= j < l.len() && l[j] == x;
            lemma_loop_has_all(pred, l, m, i, j);
        }
        if m.contains(x) {
            let j = choose|j: int| 0 <= j < m.len() && m[j] == x;
            lemma_loop_has_all(pred, m, l, k, j);
        }
    }
    lemma_as_many(l, m);
}

proof fn lemma_as_many(a: Seq<usize>, b: Seq<usize>)
    requires
        a.no_duplicates(),
        b.no_duplicates(),
        same_members(a, b),
    ensures
        a.len() == b.len(),
{
    a.unique_seq_to_set();
    b.unique_seq_to_set();
    assert(a.to_set() =~= b.to_set()) by {
        assert forall|x: usize| a.to_set().contains(x) <==> b.to_set().contains(x) by {
            assert(a.contains(x) <==> b.contains(x));
        }
    }
}

/// The loop behind a node of a loop has the same nodes as that loop.
proof fn lemma_loop_behind_on_loop(pred: Seq<Option<usize>>, m: Seq<usize>, v: usize)
    requires
        is_pred_loop(pred, m),
        m.contains(v),
        forall|i: int| 0 <= i < pred.len() && #[trigger] pred[i] is Some ==> pred[i]->0 < pred.len(),
    ensures
        loop_behind(pred, v) matches Some(l) ==> same_members(m, l) && l.len() == m.len(),
{
    lemma_ancestor_on_loop(pred, m, v, pred.len());
    assert(v < pred.len()) by {
        let i = choose|i: int| 0 <= i < m.len() && m[i] == v;
    }
    match loop_behind(pred, v) {
        Some(l) => {
            lemma_loop_behind(pred, v);
            let b = ancestor(pred, v, pred.len())->0;
            lemma_trail_on_loop(pred, m, seq![b]);
            let t = trail(pred, seq![b])->0;
            assert(l[l.len() - 1] == t[0]);
            assert(m.contains(t[0]));
            lemma_same_loop(pred, m, l, t[0]);
        },
        None => {},
    }
}

/// Whether a cycle has at most so many trades.
pub open spec fn within_depth(max_depth: nat) -> spec_fn(CycleView) -> bool {
    |c: CycleView| c.depth <= max_depth
}

/// Whether some findings are what others are without the longer loops.
spec fn filtered(f: Findings, h: Findings, max_depth: nat) -> bool {
    &&& f.cycles == h.cycles.filter(within_depth(max_depth))
    &&& forall|l: Seq<usize>| #[trigger]
        f.loops.contains(l) <==> h.loops.contains(l) && l.len() <= max_depth
}

proof fn lemma_push_contains(loops: Seq<Seq<usize>>, l: Seq<usize>, m: Seq<usize>)
    ensures
        loops.push(l).contains(m) <==> loops.contains(m) || m == l,
{
    let after = loops.push(l);
    if loops.contains(m) {
        let i = choose|i: int| 0 <= i < loops.len() && loops[i] == m;
        assert(after[i] == m);
    }
    if m == l {
        assert(after[loops.len() as int] == m);
    }
    if after.contains(m) {
        let i = choose|i: int| 0 <= i < after.len() && after[i] == m;
        if i < loops.len() {
            assert(loops[i] == m);
        }
    }
}

/// One more finding on both sides, or, where its loop is too long, on the other side alone.
proof fn lemma_filtered_push(f: Findings, h: Findings, max_depth: nat, l: Seq<usize>, c: CycleView)
    requires
        filtered(f, h, max_depth),
        c.depth == l.len(),
    ensures
        ({
            let more = Findings { loops: h.loops.push(l), cycles: h.cycles.push(c) };
            if l.len() <= max_depth {
                filtered(
                    Findings { loops: f.loops.push(l), cycles: f.cycles.push(c) },
                    more,
                    max_depth,
                )
            } else {
                filtered(f, more, max_depth)
            }
        }),
{
    reveal(Seq::filter);
    assert(h.cycles.push(c).drop_last() =~= h.cycles);
    assert forall|m: Seq<usize>|
        (#[trigger] h.loops.push(l).contains(m) <==> h.loops.contains(m) || m == l) && (
        f.loops.push(l).contains(m) <==> f.loops.contains(m) || m == l) by {
        lemma_push_contains(h.loops, l, m);
        lemma_push_contains(f.loops, l, m);
    }
    assert forall|m: Seq<usize>| #[trigger] f.loops.push(l).contains(m) implies f.loops.contains(m)
        || m == l by {
        lemma_push_contains(f.loops, l, m);
    }
    assert forall|m: Seq<usize>| #[trigger] f.loops.contains(m) implies h.loops.push(l).contains(
        m,
    ) by {
        lemma_push_contains(h.loops, l, m);
    }
}

/// A loop that is not too long is new on both sides or on none.
proof fn lemma_filtered_alike(
    pred: Seq<Option<usize>>,
    f: Findings,
    h: Findings,
    max_depth: nat,
    v: usize,
    l: Seq<usize>,
)
    requires
        filtered(f, h, max_depth),
        v < pred.len(),
        forall|i: int| 0 <= i < pred.len() && #[trigger] pred[i] is Some ==> pred[i]->0 < pred.len(),
        forall|i: int| 0 <= i < h.loops.len() ==> is_pred_loop(pred, #[trigger] h.loops[i]),
        loop_behind(pred, v) == Some(l),
        l.len() <= max_depth,
    ensures
        on_loop(f.loops, v) == on_loop(h.loops, v),
        is_known(f.loops, l) == is_known(h.loops, l),
{
    lemma_loop_behind(pred, v);
    if on_loop(h.loops, v) {
        let i = choose|i: int| 0 <= i < h.loops.len() && (#[trigger] h.loops[i]).contains(v);
        lemma_loop_behind_on_loop(pred, h.loops[i], v);
        assert(f.loops.contains(h.loops[i]));
    }
    if on_loop(f.loops, v) {
        let i = choose|i: int| 0 <= i < f.loops.len() && (#[trigger] f.loops[i]).contains(v);
        assert(f.loops.contains(f.loops[i]));
        assert(h.loops.contains(f.loops[i]));
    }
    if is_known(h.loops, l) {
        let i = choose|i: int| 0 <= i < h.loops.len() && same_members(#[trigger] h.loops[i], l);
        lemma_as_many(h.loops[i], l);
        assert(f.loops.contains(h.loops[i]));
    }
    if is_known(f.loops, l) {
        let i = choose|i: int| 0 <= i < f.loops.len() && same_members(#[trigger] f.loops[i], l);
        assert(f.loops.contains(f.loops[i]));
        assert(h.loops.contains(f.loops[i]));
    }
}

proof fn lemma_found_below_filtered(
    nodes: Seq<Seq<char>>,
    edges: Seq<Edge>,
    pairs: Seq<Seq<char>>,
    s: Search,
    smaller: nat,
    larger: nat,
    k: nat,
)
    requires
        fits(s, nodes.len()),
        k <= nodes.len() <= usize::MAX,
        smaller <= larger,
    ensures
        filtered(
            found_below(nodes, edges, pairs, s, smaller, k),
            found_below(nodes, edges, pairs, s, larger, k),
            smaller,
        ),
    decreases k,
{
    if k == 0 {
        reveal(Seq::filter);
    } else {
        let j = (k - 1) as nat;
        let v = j as usize;
        lemma_found_below_filtered(nodes, edges, pairs, s, smaller, larger, j);
        lemma_found_below(nodes, edges, pairs, s, larger, j);
        let f = found_below(nodes, edges, pairs, s, smaller, j);
        let h = found_below(nodes, edges, pairs, s, larger, j);
        assert forall|i: int| 0 <= i < h.loops.len() implies is_pred_loop(
            s.pred,
            #[trigger] h.loops[i],
        ) by {
            assert(sound_finding(nodes, edges, pairs, s, larger, h.loops[i], h.cycles[i]));
        }
        match loop_behind(s.pred, v) {
            Some(l) => {
                if l.len() <= smaller {
                    lemma_filtered_alike(s.pred, f, h, smaller, v, l);
                }
                match cycle_along(nodes, edges, pairs, closed_loop(l)) {
                    Some(c) => lemma_filtered_push(f, h, smaller, l, c),
                    None => {},
                }
            },
            None => {},
        }
    }
}

/// A smaller bound on the number of trades only leaves cycles out: what is found under it are those
/// of the cycles found under a larger bound that keep to it, in the same order and each from the
/// same node on. And a search that is not given up under the larger bound is not given up under the
/// smaller one.
pub proof fn lemma_smaller_depth(g: Graph, pairs: Seq<Seq<char>>, smaller: nat, larger: nat)
    requires
        g.wf(),
        g.nodes@.len() <= usize::MAX,
        g.edges@.len() <= usize::MAX,
        smaller <= larger,
    ensures
        findings(g, pairs, smaller).cycles == findings(g, pairs, larger).cycles.filter(
            within_depth(smaller),
        ),
        !overruns(g, larger) ==> !overruns(g, smaller),
{
    reveal(Seq::filter);
    if searchable(g, larger) {
        let n = g.nodes@.len();
        lemma_after_visits(g.edges@, n, n * n);
        lemma_found_below_filtered(
            texts(g.nodes@),
            g.edges@,
            pairs,
            settled(g.edges@, n),
            smaller,
            larger,
            n,
        );
        if smaller == 0 {
            lemma_found_below(texts(g.nodes@), g.edges@, pairs, settled(g.edges@, n), 0, n);
            let f = found_below(texts(g.nodes@), g.edges@, pairs, settled(g.edges@, n), 0, n);
            if f.cycles.len() > 0 {
                assert(f.loops[0].len() == 0);
            }
            assert(f.cycles =~= Seq::<CycleView>::empty());
        }
    }
}

/// Whether a trade is one on a market: a purchase turns the quote currency into the base currency, a
/// sale the base currency into the quote currency.
pub open spec fn trades_on(t: TradeView, m: MarketView) -> bool {
    ||| t.kind == "BUY"@ && t.from == m.quote && t.to == m.base
    ||| t.kind == "SELL"@ && t.from == m.base && t.to == m.quote
}

/// Each trade of a reported cycle is one on the market of its pair, in a graph that was built from
/// markets, whatever weights the graph has taken since.
pub proof fn lemma_reported_trades(
    g: Graph,
    fresh: Graph,
    markets: Map<Seq<char>, MarketView>,
    pairs: Seq<Seq<char>>,
    fee: Double,
    max_depth: nat,
)
    requires
        is_graph_of(fresh, markets, pairs, fee),
        g.wf(),
        g.same_shape(&fresh),
        g.nodes@.len() <= usize::MAX,
        g.edges@.len() <= usize::MAX,
    ensures
        forall|i: int, j: int|
            0 <= i < findings(g, pairs, max_depth).cycles.len() && 0 <= j < findings(
                g,
                pairs,
                max_depth,
            ).cycles[i].trades.len() ==> pairs.contains(
                (#[trigger] findings(g, pairs, max_depth).cycles[i].trades[j]).pair,
            ) && trades_on(
                findings(g, pairs, max_depth).cycles[i].trades[j],
                markets[findings(g, pairs, max_depth).cycles[i].trades[j].pair],
            ),
{
    if searchable(g, max_depth) {
        let n = g.nodes@.len();
        let nodes = texts(g.nodes@);
        let edges = g.edges@;
        let s = settled(edges, n);
        lemma_after_visits(edges, n, n * n);
        lemma_found_below(nodes, edges, pairs, s, max_depth, n);
        let f = findings(g, pairs, max_depth);
        assert forall|i: int, j: int|
            0 <= i < f.cycles.len() && 0 <= j < f.cycles[i].trades.len() implies pairs.contains(
            (#[trigger] f.cycles[i].trades[j]).pair,
        ) && trades_on(f.cycles[i].trades[j], markets[f.cycles[i].trades[j].pair]) by {
            let l = f.loops[i];
            let c = f.cycles[i];
            let path = closed_loop(l);
            assert(sound_finding(nodes, edges, pairs, s, max_depth, l, c));
            let u = path[j];
            let v = path[j + 1];
            assert(trade_between(nodes, edges, pairs, u, v) is Some);
            lemma_edge_between(edges, u, v);
            let e = edge_between(edges, u, v)->0;
            let k = e / 2;
            assert(same_trade(edges[e], fresh.edges@[e]));
            assert(pair_connected(fresh.edges@, nodes, markets[pairs[k]], k));
            assert(e == 2 * k || e == 2 * k + 1);
            assert(edges[e].pair_id == k);
            assert(c.trades[j].pair == pairs[k]);
        }
    }
}

/// Whether two markets are between the same two currencies.
pub open spec fn same_currencies(a: MarketView, b: MarketView) -> bool {
    ||| a.base == b.base && a.quote == b.quote
    ||| a.base == b.quote && a.quote == b.base
}

/// Whether each pair is between two currencies, and no two pairs are between the same ones.
pub open spec fn joined_once(markets: Map<Seq<char>, MarketView>, pairs: Seq<Seq<char>>) -> bool {
    &&& forall|i: int|
        0 <= i < pairs.len() ==> (#[trigger] markets[pairs[i]]).base != markets[pairs[i]].quote
    &&& forall|i: int, j: int|
        0 <= i < j < pairs.len() ==> !same_currencies(
            #[trigger] markets[pairs[i]],
            #[trigger] markets[pairs[j]],
        )
}

/// A graph that was built from markets joins no two nodes twice in the same direction where no two
/// pairs are between the same currencies, whatever weights it has taken since.
pub proof fn lemma_without_parallels(
    g: Graph,
    fresh: Graph,
    markets: Map<Seq<char>, MarketView>,
    pairs: Seq<Seq<char>>,
    fee: Double,
)
    requires
        is_graph_of(fresh, markets, pairs, fee),
        g.wf(),
        g.same_shape(&fresh),
        joined_once(markets, pairs),
    ensures
        without_parallels(g.edges@),
{
    let edges = g.edges@;
    let names = texts(g.nodes@);
    assert forall|a: int, b: int|
        0 <= a < b < edges.len() && (#[trigger] edges[a]).from == (#[trigger] edges[b]).from implies edges[a].to
        != edges[b].to by {
        let i = a / 2;
        let j = b / 2;
        assert(same_trade(edges[a], fresh.edges@[a]));
        assert(same_trade(edges[b], fresh.edges@[b]));
        assert(pair_connected(fresh.edges@, names, markets[pairs[i]], i));
        assert(pair_connected(fresh.edges@, names, markets[pairs[j]], j));
        assert(a == 2 * i || a == 2 * i + 1);
        assert(b == 2 * j || b == 2 * j + 1);
        assert(markets[pairs[i]].base != markets[pairs[i]].quote);
        if i < j {
            assert(!same_currencies(markets[pairs[i]], markets[pairs[j]]));
        }
    }
}

/// Whether the weights of all steps of a loop are finite.
pub open spec fn hops_finite(edges: Seq<Edge>, l: Seq<usize>) -> bool {
    forall|i: int|
        0 <= i < l.len() ==> step_weight(edges, #[trigger] closed_loop(l)[i], closed_loop(l)[i + 1])
            .finite()
}

/// The exact sum of the weights of the steps along a path, in units.
pub open spec fn exact_along(edges: Seq<Edge>, path: Seq<usize>) -> int
    decreases path.len(),
{
    if path.len() <= 1 {
        0
    } else {
        exact_along(edges, path.drop_last()) + step_weight(
            edges,
            path[path.len() - 2],
            path.last(),
        ).value()
    }
}

/// How large the sums are that are rounded when the weights along a path are added to a number one
/// by one: all of them together, in units.
pub open spec fn sums_along(edges: Seq<Edge>, path: Seq<usize>, d: Double) -> int
    decreases path.len(),
{
    if path.len() <= 1 {
        0
    } else {
        let exact = added_along(edges, path.drop_last(), d).value() + step_weight(
            edges,
            path[path.len() - 2],
            path.last(),
        ).value();
        sums_along(edges, path.drop_last(), d) + if exact < 0 {
            -exact
        } else {
            exact
        }
    }
}

/// Added one by one, finite weights give their exact sum up to one part in two to the power of 53 of
/// all the sums that were rounded.
proof fn lemma_added_exactly(edges: Seq<Edge>, path: Seq<usize>, d: Double)
    requires
        d.finite(),
        forall|i: int|
            0 <= i < path.len() - 1 ==> step_weight(edges, #[trigger] path[i], path[i + 1]).finite(),
        added_along(edges, path, d).finite(),
    ensures
        ({
            let gap = added_along(edges, path, d).value() - d.value() - exact_along(edges, path);
            &&& 0x20_0000_0000_0000 * gap <= sums_along(edges, path, d)
            &&& -sums_along(edges, path, d) <= 0x20_0000_0000_0000 * gap
        }),
    decreases path.len(),
{
    if path.len() > 1 {
        let head = path.drop_last();
        let w = step_weight(edges, path[path.len() - 2], path.last());
        assert(path[path.len() - 2 + 1] == path.last());
        assert(w.finite());
        assert forall|i: int| 0 <= i < head.len() - 1 implies step_weight(
            edges,
            #[trigger] head[i],
            head[i + 1],
        ).finite() by {
            assert(step_weight(edges, path[i], path[i + 1]).finite());
        }
        let before = added_along(edges, head, d);
        assert(before.finite());
        lemma_added_exactly(edges, head, d);
        lemma_sum_error(before, w);
    }
}

/// The exact sum along a path, its first step taken first.
proof fn lemma_exact_first(edges: Seq<Edge>, path: Seq<usize>)
    requires
        path.len() >= 2,
    ensures
        exact_along(edges, path) == step_weight(edges, path[0], path[1]).value() + exact_along(
            edges,
            path.drop_first(),
        ),
    decreases path.len(),
{
    if path.len() == 2 {
        assert(exact_along(edges, path.drop_last()) == 0);
    } else {
        lemma_exact_first(edges, path.drop_last());
        assert(path.drop_last().drop_first() =~= path.drop_first().drop_last());
        let rest = path.drop_first();
        assert(rest[rest.len() - 2] == path[path.len() - 2]);
    }
}

/// From whichever of its nodes a loop is gone round, the exact sum of its weights is the same.
proof fn lemma_exact_turned(edges: Seq<Edge>, l: Seq<usize>, k: int)
    requires
        0 <= k < l.len(),
    ensures
        exact_along(edges, closed_loop(turned(l, k))) == exact_along(edges, closed_loop(l)),
    decreases k,
{
    if k == 0 {
        assert(turned(l, 0) =~= l);
    } else {
        lemma_exact_turned(edges, l, k - 1);
        let m = turned(l, k - 1);
        let r = turned(l, k);
        let path = closed_loop(m);
        assert(m.len() == l.len() && m.len() >= 2);
        assert(r =~= m.drop_first().push(m[0]));
        assert(r[0] == m[1]);
        let next = closed_loop(r);
        assert(next.drop_last() =~= path.drop_first());
        assert(next[next.len() - 2] == m[0] && next.last() == m[1]);
        assert(path[0] == m[0] && path[1] == m[1]);
        lemma_exact_first(edges, path);
    }
}

/// A loop that loses in the search's own addition has a negative exact sum of weights, up to what
/// rounding can hide: from a node and a number from which it loses, the exact sum is below one part
/// in two to the power of 53 of the sums that were rounded, unless the numbers ran out of range.
pub proof fn lemma_loss_is_exact(edges: Seq<Edge>, l: Seq<usize>, k: int, d: Double)
    requires
        hops_finite(edges, l),
        0 <= k < l.len(),
        d.finite(),
        loses_from(edges, l, k, d),
    ensures
        ({
            let path = closed_loop(turned(l, k));
            added_along(edges, path, d).finite() ==> 0x20_0000_0000_0000 * exact_along(
                edges,
                closed_loop(l),
            ) < sums_along(edges, path, d)
        }),
{
    let r = turned(l, k);
    let path = closed_loop(r);
    let n = l.len() as int;
    assert forall|i: int| 0 <= i < path.len() - 1 implies step_weight(
        edges,
        #[trigger] path[i],
        path[i + 1],
    ).finite() by {
        let j = if i + k < n {
            i + k
        } else {
            i + k - n
        };
        let all = closed_loop(l);
        assert(step_weight(edges, all[j], all[j + 1]).finite());
        assert(path[i] == all[j]);
        if i + 1 < n {
            assert(path[i + 1] == r[i + 1]);
            if j + 1 == n {
                assert(i + 1 + k == n);
            }
        } else {
            assert(path[i + 1] == r[0]);
            if k == 0 {
                assert(j + 1 == n);
            } else {
                assert(j + 1 == k);
            }
        }
        assert(path[i + 1] == all[j + 1]);
    }
    if added_along(edges, path, d).finite() {
        lemma_added_exactly(edges, path, d);
        lemma_exact_turned(edges, l, k);
    }
}

/// The cycles are of negative weight: where no two edges join the same nodes in the same
/// direction, each reported loop has finite weights alone, and a node and a finite number from
/// which these, added one by one as the search adds them, lead back to that node with less.
pub proof fn lemma_reported_loops_lose(g: Graph, pairs: Seq<Seq<char>>, max_depth: nat)
    requires
        g.wf(),
        g.nodes@.len() <= usize::MAX,
        g.edges@.len() <= usize::MAX,
        without_parallels(g.edges@),
    ensures
        forall|i: int|
            0 <= i < findings(g, pairs, max_depth).loops.len() ==> loses(
                g.edges@,
                #[trigger] findings(g, pairs, max_depth).loops[i],
            ) && hops_finite(g.edges@, findings(g, pairs, max_depth).loops[i]),
{
    if searchable(g, max_depth) {
        let n = g.nodes@.len();
        let nodes = texts(g.nodes@);
        let s = settled(g.edges@, n);
        lemma_after_visits(g.edges@, n, n * n);
        lemma_after_visits_sound(g.edges@, n, n * n);
        lemma_found_below(nodes, g.edges@, pairs, s, max_depth, n);
        let f = findings(g, pairs, max_depth);
        assert forall|i: int| 0 <= i < f.loops.len() implies loses(g.edges@, #[trigger] f.loops[i])
            && hops_finite(g.edges@, f.loops[i]) by {
            let l = f.loops[i];
            assert(sound_finding(nodes, g.edges@, pairs, s, max_depth, l, f.cycles[i]));
            let path = closed_loop(l);
            assert forall|j: int| 0 <= j < l.len() implies step_weight(
                g.edges@,
                #[trigger] path[j],
                path[j + 1],
            ).finite() by {
                if j + 1 < l.len() {
                    assert(s.pred[l[j + 1] as int] == Some(l[j]));
                    assert(explained(s, g.edges@, l[j + 1] as int));
                } else {
                    assert(path[j] == l.last() && path[j + 1] == l[0]);
                    assert(explained(s, g.edges@, l[0] as int));
                }
            }
        }
    }
}

/// Each found loop is disjoint from the ones found before it.
proof fn lemma_found_disjoint(
    nodes: Seq<Seq<char>>,
    edges: Seq<Edge>,
    pairs: Seq<Seq<char>>,
    s: Search,
    max_depth: nat,
    k: nat,
)
    requires
        fits(s, nodes.len()),
        k <= nodes.len() <= usize::MAX,
    ensures
        ({
            let f = found_below(nodes, edges, pairs, s, max_depth, k);
            forall|i: int, j: int, v: usize|
                0 <= i < j < f.loops.len() && #[trigger] f.loops[i].contains(v)
                    ==> !(#[trigger] f.loops[j].contains(v))
        }),
{
    lemma_found_below(nodes, edges, pairs, s, max_depth, k);
    let f = found_below(nodes, edges, pairs, s, max_depth, k);
    assert forall|i: int, j: int, v: usize|
        0 <= i < j < f.loops.len() && #[trigger] f.loops[i].contains(v) implies !(
    #[trigger] f.loops[j].contains(v)) by {
        if f.loops[j].contains(v) {
            assert(sound_finding(nodes, edges, pairs, s, max_depth, f.loops[i], f.cycles[i]));
            assert(sound_finding(nodes, edges, pairs, s, max_depth, f.loops[j], f.cycles[j]));
            lemma_same_loop(s.pred, f.loops[i], f.loops[j], v);
        }
    }
}

/// Reported cycles are simple and share no node: no node comes twice in a cycle before it closes,
/// and none is in two cycles. Where all nodes have names of their own, as in a graph that was built
/// from markets, the same holds of currencies.
pub proof fn lemma_reported_cycles_disjoint(g: Graph, pairs: Seq<Seq<char>>, max_depth: nat)
    requires
        g.wf(),
        g.nodes@.len() <= usize::MAX,
        g.edges@.len() <= usize::MAX,
    ensures
        ({
            let f = findings(g, pairs, max_depth);
            &&& forall|i: int| 0 <= i < f.loops.len() ==> (#[trigger] f.loops[i]).no_duplicates()
            &&& forall|i: int, j: int, v: usize|
                0 <= i < j < f.loops.len() && #[trigger] f.loops[i].contains(v)
                    ==> !(#[trigger] f.loops[j].contains(v))
            &&& texts(g.nodes@).no_duplicates() ==> {
                &&& forall|i: int, a: int, b: int|
                    0 <= i < f.cycles.len() && 0 <= a < b < f.cycles[i].depth
                        ==> #[trigger] f.cycles[i].nodes[a] != #[trigger] f.cycles[i].nodes[b]
                &&& forall|i: int, j: int, a: int, b: int|
                    0 <= i < j < f.cycles.len() && 0 <= a < f.cycles[i].depth && 0 <= b
                        < f.cycles[j].depth ==> #[trigger] f.cycles[i].nodes[a]
                        != #[trigger] f.cycles[j].nodes[b]
            }
        }),
{
    lemma_reported_cycles(g, pairs, max_depth);
    let f = findings(g, pairs, max_depth);
    let names = texts(g.nodes@);
    if searchable(g, max_depth) {
        let n = g.nodes@.len();
        let s = settled(g.edges@, n);
        lemma_after_visits(g.edges@, n, n * n);
        lemma_found_disjoint(names, g.edges@, pairs, s, max_depth, n);
        lemma_found_below(names, g.edges@, pairs, s, max_depth, n);
        assert forall|i: int, a: int| 0 <= i < f.cycles.len() && 0 <= a < f.cycles[i].depth implies
            #[trigger] f.cycles[i].nodes[a] == names[f.loops[i][a] as int] && f.loops[i][a] < n by {
            assert(sound_finding(names, g.edges@, pairs, s, max_depth, f.loops[i], f.cycles[i]));
            let c = f.cycles[i];
            assert(c.trades[a].from == c.nodes[a]);
        }
        if names.no_duplicates() {
            assert forall|i: int, a: int, b: int|
                0 <= i < f.cycles.len() && 0 <= a < b < f.cycles[i].depth implies
                #[trigger] f.cycles[i].nodes[a] != #[trigger] f.cycles[i].nodes[b] by {
                let l = f.loops[i];
                assert(f.cycles[i].depth == l.len());
                assert(l[a] != l[b]);
            }
            assert forall|i: int, j: int, a: int, b: int|
                0 <= i < j < f.cycles.len() && 0 <= a < f.cycles[i].depth && 0 <= b
                    < f.cycles[j].depth implies #[trigger] f.cycles[i].nodes[a]
                != #[trigger] f.cycles[j].nodes[b] by {
                let (l, m) = (f.loops[i], f.loops[j]);
                assert(f.cycles[i].depth == l.len() && f.cycles[j].depth == m.len());
                assert(l.contains(l[a]) && m.contains(m[b]));
            }
        }
    }
}

/// The nodes of a graph that was built from markets have names of their own, whatever weights it
/// has taken since.
pub proof fn lemma_built_names(
    g: Graph,
    fresh: Graph,
    markets: Map<Seq<char>, MarketView>,
    pairs: Seq<Seq<char>>,
    fee: Double,
)
    requires
        is_graph_of(fresh, markets, pairs, fee),
        g.same_shape(&fresh),
    ensures
        texts(g.nodes@).no_duplicates(),
{
    lemma_node_names(markets, pairs);
    let names = texts(g.nodes@);
    assert forall|i: int, j: int| 0 <= i < j < names.len() implies names[i] != names[j] by {
        assert(before(names[i], names[j]));
        lemma_before_irreflexive(names[i]);
    }
}

/// Whether an edge cannot shorten a way any more, or its origin waits in the queue or was there as
/// often as there are nodes.
spec fn met(s: Search, e: Edge, n: nat) -> bool {
    ||| s.queued[e.from as int]
    ||| s.visits[e.from as int] >= n
    ||| e.weight.finite() && s.dist[e.from as int].finite() ==> at_most(
        s.dist[e.to as int],
        sum(s.dist[e.from as int], e.weight),
    )
}

/// What the search keeps, whatever the weights are: distances are numbers, zero where a node has no
/// predecessor, a node that waits is in the queue, and the suspects are the nodes that came into the
/// queue as often as there are nodes.
spec fn tidy(s: Search, n: nat) -> bool {
    &&& forall|v: int| 0 <= v < n ==> !(#[trigger] s.dist[v]).nan() && s.dist[v].value() <= 0
    &&& forall|v: int| 0 <= v < n && #[trigger] s.pred[v] is None ==> s.dist[v] == Double { bits: 0 }
    &&& forall|v: int| 0 <= v < n && #[trigger] s.queued[v] ==> s.queue.contains(v as usize)
    &&& forall|v: int| 0 <= v < n ==> (#[trigger] s.suspects[v] <==> s.visits[v] >= n)
}

/// Looking at an edge keeps the state tidy, meets the edge, and keeps every other edge met.
proof fn lemma_relaxed_met(s: Search, e: Edge, n: nat)
    requires
        fits(s, n),
        tidy(s, n),
        e.from < n,
        e.to < n,
    ensures
        tidy(relaxed(s, e), n),
        met(relaxed(s, e), e, n),
        forall|o: Edge| o.from < n && o.to < n && #[trigger] met(s, o, n) ==> met(relaxed(s, e), o, n),
{
    let after = relaxed(s, e);
    let (u, v) = (e.from as int, e.to as int);
    if e.weight.finite() && s.dist[u].finite() {
        lemma_sum_bounds(s.dist[u], e.weight);
        assert(!s.dist[v].nan());
    }
    if shortens(s, e) {
        let shorter = sum(s.dist[u], e.weight);
        assert(s.dist[v].value() <= 0);
        assert(after.dist == s.dist.update(v, shorter));
        assert(after.pred == s.pred.update(v, Some(e.from)));
        assert(after.queued[v] || after.visits[v] >= n);
        assert forall|x: int| 0 <= x < n implies !(#[trigger] after.dist[x]).nan()
            && after.dist[x].value() <= 0 by {
            assert(!s.dist[x].nan());
        }
        assert forall|x: int| 0 <= x < n && #[trigger] after.pred[x] is None implies after.dist[x]
            == (Double { bits: 0 }) by {
            assert(s.pred[x] is None);
        }
        assert forall|x: int| 0 <= x < n && #[trigger] after.queued[x] implies after.queue.contains(
            x as usize,
        ) by {
            if s.queued[x] {
                let i = choose|i: int| 0 <= i < s.queue.len() && s.queue[i] == x as usize;
                assert(after.queue[i] == x as usize);
            } else {
                assert(after.queue[s.queue.len() as int] == x as usize);
            }
        }
        assert forall|x: int| 0 <= x < n implies (#[trigger] after.suspects[x] <==> after.visits[x]
            >= n) by {
            assert(s.suspects[x] <==> s.visits[x] >= n);
        }
        assert forall|o: Edge| o.from < n && o.to < n && #[trigger] met(s, o, n) implies met(
            after,
            o,
            n,
        ) by {
            let x = o.from as int;
            if x != v && !after.queued[x] && !(after.visits[x] >= n) && o.weight.finite()
                && s.dist[x].finite() {
                assert(at_most(s.dist[o.to as int], sum(s.dist[x], o.weight)));
                assert(at_most(after.dist[o.to as int], s.dist[o.to as int]));
            }
        }
    }
}

proof fn lemma_relaxed_all_met(s: Search, edges: Seq<Edge>, list: Seq<usize>, n: nat)
    requires
        fits(s, n),
        tidy(s, n),
        edges_fit(edges, n),
        forall|i: int| 0 <= i < list.len() ==> (#[trigger] list[i]) < edges.len(),
    ensures
        tidy(relaxed_all(s, edges, list), n),
        forall|i: int|
            0 <= i < list.len() ==> met(
                relaxed_all(s, edges, list),
                edges[(#[trigger] list[i]) as int],
                n,
            ),
        forall|o: Edge|
            o.from < n && o.to < n && #[trigger] met(s, o, n) ==> met(
                relaxed_all(s, edges, list),
                o,
                n,
            ),
    decreases list.len(),
{
    if list.len() > 0 {
        let head = list.drop_last();
        assert(list[list.len() - 1] < edges.len());
        assert forall|i: int| 0 <= i < head.len() implies (#[trigger] head[i]) < edges.len() by {
            assert(list[i] < edges.len());
        }
        lemma_relaxed_all(s, edges, head, n);
        lemma_relaxed_all_met(s, edges, head, n);
        let between = relaxed_all(s, edges, head);
        let last = edges[list.last() as int];
        lemma_relaxed_met(between, last, n);
        assert forall|i: int| 0 <= i < list.len() implies met(
            relaxed(between, last),
            edges[(#[trigger] list[i]) as int],
            n,
        ) by {
            if i < head.len() {
                assert(head[i] == list[i]);
                assert(met(between, edges[head[i] as int], n));
            }
        }
    }
}

proof fn lemma_after_visits_met(edges: Seq<Edge>, n: nat, k: nat)
    requires
        2 <= n <= usize::MAX,
        edges_fit(edges, n),
    ensures
        tidy(after_visits(edges, n, k), n),
        forall|i: int| 0 <= i < edges.len() ==> met(after_visits(edges, n, k), #[trigger] edges[i], n),
    decreases k,
{
    if k == 0 {
        let s = started(n);
        assert((Double { bits: 0 }).value() == 0);
        assert forall|v: int| 0 <= v < n && #[trigger] s.queued[v] implies s.queue.contains(
            v as usize,
        ) by {
            assert(s.queue[v] == v as usize);
        }
    } else {
        lemma_after_visits_met(edges, n, (k - 1) as nat);
        lemma_after_visits(edges, n, (k - 1) as nat);
        let s = after_visits(edges, n, (k - 1) as nat);
        if s.queue.len() > 0 {
            lemma_visited(s, edges, n);
            let p = popped(s);
            let u = s.queue[0];
            let out = leaving(edges, u as int);
            assert forall|v: int| 0 <= v < n && #[trigger] p.queued[v] implies p.queue.contains(
                v as usize,
            ) by {
                assert(s.queued[v]);
                let i = choose|i: int| 0 <= i < s.queue.len() && s.queue[i] == v as usize;
                assert(p.queue[i - 1] == v as usize);
            }
            lemma_leaving(edges, u as int);
            lemma_relaxed_all_met(p, edges, out, n);
            assert forall|i: int| 0 <= i < edges.len() implies met(
                after_visits(edges, n, k),
                #[trigger] edges[i],
                n,
            ) by {
                if edges[i].from == u {
                    assert(out.contains(i as usize));
                    let j = choose|j: int| 0 <= j < out.len() && out[j] == i as usize;
                    assert(met(relaxed_all(p, edges, out), edges[out[j] as int], n));
                } else {
                    assert(met(s, edges[i], n));
                    assert(met(p, edges[i], n));
                }
            }
        }
    }
}

/// The search leaves nothing to shorten: when it has ended, in a graph of two or more nodes, no edge
/// of finite weight leads to a shorter way than the one that was found, as the search adds weights,
/// unless the edge leaves a suspect. A node without a predecessor is at distance zero.
pub proof fn lemma_search_complete(edges: Seq<Edge>, n: nat)
    requires
        2 <= n <= usize::MAX,
        edges_fit(edges, n),
    ensures
        ({
            let s = settled(edges, n);
            &&& fits(s, n)
            &&& s.queue.len() == 0
            &&& forall|i: int|
                0 <= i < edges.len() && (#[trigger] edges[i]).weight.finite()
                    && s.dist[edges[i].from as int].finite()
                    && !s.suspects[edges[i].from as int] ==> at_most(
                    s.dist[edges[i].to as int],
                    sum(s.dist[edges[i].from as int], edges[i].weight),
                )
            &&& forall|v: int|
                0 <= v < n ==> !(#[trigger] s.dist[v]).nan() && s.dist[v].value() <= 0
            &&& forall|v: int|
                0 <= v < n && s.pred[v] is None ==> (#[trigger] s.dist[v]).value() == 0
        }),
{
    lemma_after_visits(edges, n, n * n);
    lemma_after_visits_met(edges, n, n * n);
    let s = settled(edges, n);
    assert((Double { bits: 0 }).value() == 0);
    assert forall|i: int|
        0 <= i < edges.len() && (#[trigger] edges[i]).weight.finite()
            && s.dist[edges[i].from as int].finite()
            && !s.suspects[edges[i].from as int] implies at_most(
        s.dist[edges[i].to as int],
        sum(s.dist[edges[i].from as int], edges[i].weight),
    ) by {
        let u = edges[i].from as int;
        assert(met(s, edges[i], n));
        if s.queued[u] {
            assert(s.queue.contains(u as usize));
        }
    }
}

/// How often all nodes together came into the queue.
pub open spec fn entries(visits: Seq<nat>) -> nat
    decreases visits.len(),
{
    if visits.len() == 0 {
        0
    } else {
        entries(visits.drop_last()) + visits.last()
    }
}

proof fn lemma_entries_left(visits: Seq<nat>, n: nat)
    ensures
        entries(visits) + left(visits, n) == visits.len() * n,
    decreases visits.len(),
{
    if visits.len() > 0 {
        lemma_entries_left(visits.drop_last(), n);
        assert((visits.len() - 1) * n + n == visits.len() * n) by (nonlinear_arith);
    }
}

/// Visits are counted: as long as nodes wait, all entries into the queue are those of the nodes that
/// were taken from it and of those that wait; no node enters more often than there are nodes; and the
/// suspects are the nodes that entered just as often.
pub proof fn lemma_visits_counted(edges: Seq<Edge>, n: nat, k: nat)
    requires
        2 <= n <= usize::MAX,
        edges_fit(edges, n),
    ensures
        ({
            let s = after_visits(edges, n, k);
            &&& s.queue.len() > 0 ==> entries(s.visits) == k + s.queue.len()
            &&& forall|v: int| 0 <= v < n ==> (#[trigger] s.visits[v]) <= n
            &&& forall|v: int| 0 <= v < n ==> (#[trigger] s.suspects[v] <==> s.visits[v] == n)
        }),
{
    lemma_after_visits(edges, n, k);
    lemma_after_visits_met(edges, n, k);
    lemma_entries_left(after_visits(edges, n, k).visits, n);
}

/// Whether a loop follows edges of finite weight, between `n` nodes.
pub open spec fn passable(edges: Seq<Edge>, l: Seq<usize>, n: nat) -> bool {
    &&& l.len() > 0
    &&& places_within(l, n)
    &&& forall|i: int|
        0 <= i < l.len() ==> edge_between(edges, #[trigger] closed_loop(l)[i], closed_loop(l)[i + 1])
            is Some
    &&& hops_finite(edges, l)
}

/// Along a path that leaves no suspect the added weights stay above the distances.
proof fn lemma_added_above(edges: Seq<Edge>, n: nat, r: Seq<usize>, m: int)
    requires
        2 <= n <= usize::MAX,
        edges_fit(edges, n),
        0 < m <= r.len(),
        places_within(r, n),
        forall|v: int| 0 <= v < n ==> (#[trigger] settled(edges, n).dist[v]).finite(),
        forall|i: int| 0 <= i < r.len() ==> !settled(edges, n).suspects[(#[trigger] r[i]) as int],
        forall|i: int|
            0 <= i < r.len() - 1 ==> edge_between(edges, #[trigger] r[i], r[i + 1]) is Some
                && step_weight(edges, r[i], r[i + 1]).finite(),
    ensures
        at_most(
            settled(edges, n).dist[r[m - 1] as int],
            added_along(edges, r.take(m), settled(edges, n).dist[r[0] as int]),
        ),
    decreases m,
{
    let s = settled(edges, n);
    let d = s.dist[r[0] as int];
    assert(r[0] < n);
    assert(d.finite());
    if m > 1 {
        lemma_added_above(edges, n, r, m - 1);
        lemma_search_complete(edges, n);
        let (u, v) = (r[m - 2], r[m - 1]);
        assert(r[m - 2 + 1] == v);
        assert(u < n && v < n);
        assert(edge_between(edges, u, v) is Some && step_weight(edges, u, v).finite());
        lemma_edge_between(edges, u, v);
        let i = edge_between(edges, u, v)->0;
        assert(edges[i].from == u && edges[i].to == v);
        assert(s.dist[u as int].finite());
        assert(r.take(m).drop_last() =~= r.take(m - 1));
        assert(r[m - 1 - 1] == u);
        lemma_sum_monotone(
            s.dist[u as int],
            added_along(edges, r.take(m - 1), d),
            step_weight(edges, u, v),
        );
    }
}

/// Where the search ends without a suspect and its distances are finite, no loop over edges of finite
/// weight loses from every number: going round it from any of its nodes, starting with the distance
/// of that node, does not end below that distance. So a loop that loses from every finite number
/// leaves a suspect.
pub proof fn lemma_no_suspect_no_loss(edges: Seq<Edge>, n: nat, l: Seq<usize>, k: int)
    requires
        2 <= n <= usize::MAX,
        edges_fit(edges, n),
        passable(edges, l, n),
        0 <= k < l.len(),
        forall|v: int| 0 <= v < n ==> (#[trigger] settled(edges, n).dist[v]).finite(),
        forall|i: int| 0 <= i < l.len() ==> !settled(edges, n).suspects[(#[trigger] l[i]) as int],
    ensures
        !loses_from(edges, l, k, settled(edges, n).dist[l[k] as int]),
        exists|d: Double| d.finite() && !#[trigger] loses_from(edges, l, k, d),
{
    let s = settled(edges, n);
    let r = turned(l, k);
    let path = closed_loop(r);
    let all = closed_loop(l);
    let len = l.len() as int;
    assert forall|i: int| 0 <= i < path.len() implies (#[trigger] path[i]) < n
        && !s.suspects[path[i] as int] by {
        let j = if i == len {
            k
        } else if i + k < len {
            i + k
        } else {
            i + k - len
        };
        assert(path[i] == l[j]);
    }
    assert forall|i: int| 0 <= i < path.len() - 1 implies edge_between(
        edges,
        #[trigger] path[i],
        path[i + 1],
    ) is Some && step_weight(edges, path[i], path[i + 1]).finite() by {
        let j = if i + k < len {
            i + k
        } else {
            i + k - len
        };
        assert(edge_between(edges, all[j], all[j + 1]) is Some);
        assert(step_weight(edges, all[j], all[j + 1]).finite());
        assert(path[i] == all[j]);
        assert(path[i + 1] == all[j + 1]) by {
            if i + 1 < len {
                assert(path[i + 1] == r[i + 1]);
                if j + 1 == len {
                    assert(i + 1 + k == len);
                }
            } else {
                assert(path[i + 1] == r[0]);
                if k == 0 {
                    assert(j + 1 == len);
                } else {
                    assert(j + 1 == k);
                }
            }
        }
    }
    lemma_added_above(edges, n, path, path.len() as int);
    assert(path.take(path.len() as int) =~= path);
    assert(path[0] == l[k] && path[path.len() - 1] == l[k]);
    assert(l[k] < n);
    assert(s.dist[l[k] as int].finite());
    assert(!loses_from(edges, l, k, s.dist[l[k] as int]));
}

/// Different nodes are no more than there are.
proof fn lemma_as_many_as_places(path: Seq<usize>, n: nat)
    requires
        path.no_duplicates(),
        places_within(path, n),
    ensures
        path.len() <= n,
{
    let ints = path.map_values(|x: usize| x as int);
    assert forall|i: int, j: int| 0 <= i < ints.len() && 0 <= j < ints.len() && i != j implies ints[i]
        != ints[j] by {
        assert(path[i] != path[j]);
    }
    ints.unique_seq_to_set();
    vstd::set_lib::lemma_int_range(0, n as int);
    assert forall|x: int| #[trigger] ints.to_set().contains(x) implies vstd::set_lib::set_int_range(
        0,
        n as int,
    ).contains(x) by {
        let i = choose|i: int| 0 <= i < ints.len() && ints[i] == x;
        assert(path[i] < n);
    }
    vstd::set_lib::lemma_len_subset(ints.to_set(), vstd::set_lib::set_int_range(0, n as int));
}

/// A trail from a node of a loop comes to its end.
proof fn lemma_trail_ends(pred: Seq<Option<usize>>, l: Seq<usize>, path: Seq<usize>)
    requires
        is_pred_loop(pred, l),
        is_trail(pred, path),
        forall|i: int| 0 <= i < path.len() ==> l.contains(#[trigger] path[i]),
    ensures
        trail(pred, path) is Some,
    decreases pred.len() - path.len(),
{
    assert(path[path.len() - 1] == path.last());
    lemma_pred_on_loop(pred, l, path.last());
    let x = pred[path.last() as int]->0;
    if !path.contains(x) {
        let next = path.push(x);
        let i = choose|i: int| 0 <= i < l.len() && l[i] == x;
        assert(x < pred.len());
        assert(next.no_duplicates()) by {
            assert forall|i: int, j: int|
                0 <= i < next.len() && 0 <= j < next.len() && i != j implies next[i] != next[j] by {
                if i == path.len() {
                    assert(path.contains(path[j]));
                } else if j == path.len() {
                    assert(path.contains(path[i]));
                }
            }
        }
        assert forall|i: int| 0 <= i < next.len() - 1 implies pred[(#[trigger] next[i]) as int]
            == Some(next[i + 1]) by {
            if i < path.len() - 1 {
                assert(pred[path[i] as int] == Some(path[i + 1]));
            }
        }
        lemma_as_many_as_places(next, pred.len());
        lemma_trail_ends(pred, l, next);
    }
}

/// Going back from a node whose ancestor is on a loop stays on the loop.
proof fn lemma_ancestor_stays(pred: Seq<Option<usize>>, l: Seq<usize>, v: usize, k: nat, j: nat)
    requires
        is_pred_loop(pred, l),
        ancestor(pred, v, k) matches Some(x) && l.contains(x),
        k <= j,
    ensures
        ancestor(pred, v, j) matches Some(x) && l.contains(x),
    decreases j - k,
{
    if k < j {
        lemma_ancestor_stays(pred, l, v, k, (j - 1) as nat);
        lemma_pred_on_loop(pred, l, ancestor(pred, v, (j - 1) as nat)->0);
    }
}

/// The loop that is met by going back from a node is the loop behind it.
proof fn lemma_loop_met(pred: Seq<Option<usize>>, m: Seq<usize>, v: usize, k: nat)
    requires
        is_pred_loop(pred, m),
        v < pred.len(),
        forall|i: int| 0 <= i < pred.len() && #[trigger] pred[i] is Some ==> pred[i]->0 < pred.len(),
        k <= pred.len(),
        ancestor(pred, v, k) matches Some(x) && m.contains(x),
    ensures
        loop_behind(pred, v) matches Some(l) && is_pred_loop(pred, l) && same_members(m, l)
            && l.len() == m.len(),
{
    lemma_ancestor_stays(pred, m, v, k, pred.len());
    let b = ancestor(pred, v, pred.len())->0;
    let start = seq![b];
    let i = choose|i: int| 0 <= i < m.len() && m[i] == b;
    assert(b < pred.len());
    lemma_trail_ends(pred, m, start);
    lemma_trail_on_loop(pred, m, start);
    lemma_loop_behind(pred, v);
    let t = trail(pred, start)->0;
    let l = loop_behind(pred, v)->0;
    assert(l[l.len() - 1] == t[0]);
    assert(l.contains(l[l.len() - 1]));
    assert(m.contains(t[0]));
    lemma_same_loop(pred, m, l, t[0]);
}

/// Whether the trade to each node of a loop from its predecessor is there.
pub open spec fn all_trades(
    nodes: Seq<Seq<char>>,
    edges: Seq<Edge>,
    pairs: Seq<Seq<char>>,
    pred: Seq<Option<usize>>,
    l: Seq<usize>,
) -> bool {
    forall|x: usize| #[trigger]
        l.contains(x) ==> pred[x as int] is Some && trade_between(
            nodes,
            edges,
            pairs,
            pred[x as int]->0,
            x,
        ) is Some
}

/// A loop of predecessors with all its trades is a cycle.
proof fn lemma_cycle_there(
    nodes: Seq<Seq<char>>,
    edges: Seq<Edge>,
    pairs: Seq<Seq<char>>,
    pred: Seq<Option<usize>>,
    l: Seq<usize>,
)
    requires
        is_pred_loop(pred, l),
        pred.len() == nodes.len(),
        all_trades(nodes, edges, pairs, pred, l),
    ensures
        cycle_along(nodes, edges, pairs, closed_loop(l)) is Some,
{
    let path = closed_loop(l);
    assert forall|i: int| 0 <= i < path.len() implies (#[trigger] path[i]) < nodes.len() by {
        if i < l.len() {
            assert(l[i] < pred.len());
        } else {
            assert(l[0] < pred.len());
        }
    }
    assert forall|i: int| 0 <= i < path.len() - 1 implies trade_between(
        nodes,
        edges,
        pairs,
        #[trigger] path[i],
        path[i + 1],
    ) is Some by {
        if i + 1 < l.len() {
            assert(l.contains(l[i + 1]));
            assert(pred[l[i + 1] as int] == Some(l[i]));
        } else {
            assert(l.contains(l[0]));
            assert(path[i] == l.last());
        }
    }
}

/// What was found is kept when more nodes are looked at.
proof fn lemma_found_kept(
    nodes: Seq<Seq<char>>,
    edges: Seq<Edge>,
    pairs: Seq<Seq<char>>,
    s: Search,
    max_depth: nat,
    k: nat,
    j: nat,
)
    requires
        k <= j,
    ensures
        ({
            let f = found_below(nodes, edges, pairs, s, max_depth, k);
            let h = found_below(nodes, edges, pairs, s, max_depth, j);
            &&& f.loops.len() <= h.loops.len()
            &&& forall|i: int| 0 <= i < f.loops.len() ==> h.loops[i] == #[trigger] f.loops[i]
        }),
    decreases j - k,
{
    if k < j {
        lemma_found_kept(nodes, edges, pairs, s, max_depth, k, (j - 1) as nat);
    }
}

/// No losing loop that the search has come upon is passed over: a loop of predecessors to which a
/// suspect leads back is among the findings, unless it is too long or one of its trades is missing.
pub proof fn lemma_suspects_reported(
    g: Graph,
    pairs: Seq<Seq<char>>,
    max_depth: nat,
    v: usize,
    k: nat,
    m: Seq<usize>,
)
    requires
        g.wf(),
        searchable(g, max_depth),
        g.nodes@.len() <= usize::MAX,
        g.edges@.len() <= usize::MAX,
        v < g.nodes@.len(),
        settled(g.edges@, g.nodes@.len()).suspects[v as int],
        is_pred_loop(settled(g.edges@, g.nodes@.len()).pred, m),
        k <= g.nodes@.len(),
        ancestor(settled(g.edges@, g.nodes@.len()).pred, v, k) matches Some(x) && m.contains(x),
        m.len() <= max_depth,
        all_trades(
            texts(g.nodes@),
            g.edges@,
            pairs,
            settled(g.edges@, g.nodes@.len()).pred,
            m,
        ),
    ensures
        exists|i: int|
            0 <= i < findings(g, pairs, max_depth).loops.len() && same_members(
                #[trigger] findings(g, pairs, max_depth).loops[i],
                m,
            ),
{
    let n = g.nodes@.len();
    let nodes = texts(g.nodes@);
    let edges = g.edges@;
    let s = settled(edges, n);
    lemma_after_visits(edges, n, n * n);
    lemma_loop_met(s.pred, m, v, k);
    let l = loop_behind(s.pred, v)->0;
    assert(all_trades(nodes, edges, pairs, s.pred, l)) by {
        assert forall|x: usize| #[trigger] l.contains(x) implies s.pred[x as int] is Some
            && trade_between(nodes, edges, pairs, s.pred[x as int]->0, x) is Some by {
            assert(m.contains(x));
        }
    }
    lemma_cycle_there(nodes, edges, pairs, s.pred, l);
    let f = found_below(nodes, edges, pairs, s, max_depth, v as nat);
    let h = found_below(nodes, edges, pairs, s, max_depth, (v + 1) as nat);
    let all = findings(g, pairs, max_depth);
    lemma_found_below(nodes, edges, pairs, s, max_depth, v as nat);
    lemma_found_kept(nodes, edges, pairs, s, max_depth, (v + 1) as nat, n);
    assert(exists|i: int| 0 <= i < h.loops.len() && same_members(#[trigger] h.loops[i], m)) by {
        if on_loop(f.loops, v) {
            let i = choose|i: int| 0 <= i < f.loops.len() && (#[trigger] f.loops[i]).contains(v);
            assert(sound_finding(nodes, edges, pairs, s, max_depth, f.loops[i], f.cycles[i]));
            lemma_loop_behind_on_loop(s.pred, f.loops[i], v);
            lemma_members(f.loops[i], l, m);
            assert(same_members(h.loops[i], m));
        } else if is_known(f.loops, l) {
            let i = choose|i: int| 0 <= i < f.loops.len() && same_members(#[trigger] f.loops[i], l);
            lemma_members(f.loops[i], l, m);
            assert(same_members(h.loops[i], m));
        } else {
            let i = f.loops.len() as int;
            assert(h.loops[i] == l);
            lemma_members(l, l, m);
            assert(same_members(h.loops[i], m));
        }
    }
    let i = choose|i: int| 0 <= i < h.loops.len() && same_members(#[trigger] h.loops[i], m);
    assert(same_members(all.loops[i], m));
}

proof fn lemma_members(a: Seq<usize>, l: Seq<usize>, m: Seq<usize>)
    requires
        same_members(a, l),
        same_members(m, l),
    ensures
        same_members(a, m),
{
    assert forall|x: usize| #[trigger] a.contains(x) <==> m.contains(x) by {
        assert(a.contains(x) <==> l.contains(x));
        assert(m.contains(x) <==> l.contains(x));
    }
}

/// What the search keeps where no weight is below zero: nothing is ever shortened.
spec fn untouched(s: Search, n: nat) -> bool {
    forall|v: int|
        0 <= v < n ==> #[trigger] s.dist[v] == (Double { bits: 0 }) && s.pred[v] is None
            && !s.suspects[v]
}

proof fn lemma_relaxed_all_untouched(s: Search, edges: Seq<Edge>, list: Seq<usize>, n: nat)
    requires
        fits(s, n),
        untouched(s, n),
        edges_fit(edges, n),
        forall|i: int|
            0 <= i < edges.len() && (#[trigger] edges[i]).weight.finite() ==> edges[i].weight.value()
                >= 0,
        forall|i: int| 0 <= i < list.len() ==> (#[trigger] list[i]) < edges.len(),
    ensures
        untouched(relaxed_all(s, edges, list), n),
    decreases list.len(),
{
    if list.len() > 0 {
        let head = list.drop_last();
        assert(list[list.len() - 1] < edges.len());
        assert forall|i: int| 0 <= i < head.len() implies (#[trigger] head[i]) < edges.len() by {
            assert(list[i] < edges.len());
        }
        lemma_relaxed_all_untouched(s, edges, head, n);
        let between = relaxed_all(s, edges, head);
        let e = edges[list.last() as int];
        let zero = Double { bits: 0 };
        assert(zero.value() == 0);
        assert(between.dist[e.from as int] == zero && between.dist[e.to as int] == zero);
        if e.weight.finite() {
            lemma_nearest_monotone(
                0,
                zero.value() + e.weight.value(),
                false,
                zero.negative() && e.weight.negative(),
            );
        }
    }
}

proof fn lemma_after_visits_untouched(edges: Seq<Edge>, n: nat, k: nat)
    requires
        n <= usize::MAX,
        edges_fit(edges, n),
        forall|i: int|
            0 <= i < edges.len() && (#[trigger] edges[i]).weight.finite() ==> edges[i].weight.value()
                >= 0,
    ensures
        untouched(after_visits(edges, n, k), n),
    decreases k,
{
    if k > 0 {
        lemma_after_visits_untouched(edges, n, (k - 1) as nat);
        lemma_after_visits(edges, n, (k - 1) as nat);
        let s = after_visits(edges, n, (k - 1) as nat);
        if s.queue.len() > 0 {
            lemma_visited(s, edges, n);
            lemma_leaving(edges, s.queue[0] as int);
            assert(untouched(popped(s), n)) by {
                assert forall|v: int| 0 <= v < n implies #[trigger] popped(s).dist[v] == (Double {
                    bits: 0,
                }) && popped(s).pred[v] is None && !popped(s).suspects[v] by {
                    assert(s.dist[v] == (Double { bits: 0 }));
                }
            }
            lemma_relaxed_all_untouched(popped(s), edges, leaving(edges, s.queue[0] as int), n);
        }
    }
}

proof fn lemma_nothing_below(
    nodes: Seq<Seq<char>>,
    edges: Seq<Edge>,
    pairs: Seq<Seq<char>>,
    s: Search,
    max_depth: nat,
    k: nat,
)
    requires
        forall|v: int| 0 <= v < k ==> !#[trigger] s.suspects[v],
    ensures
        found_below(nodes, edges, pairs, s, max_depth, k).loops.len() == 0,
        found_below(nodes, edges, pairs, s, max_depth, k).cycles.len() == 0,
    decreases k,
{
    if k > 0 {
        lemma_nothing_below(nodes, edges, pairs, s, max_depth, (k - 1) as nat);
        assert(!s.suspects[k - 1]);
    }
}

/// Where no weight is below zero, nothing is found and every distance stays zero.
pub proof fn lemma_nothing_to_find(g: Graph, pairs: Seq<Seq<char>>, max_depth: nat)
    requires
        g.wf(),
        g.nodes@.len() <= usize::MAX,
        g.edges@.len() <= usize::MAX,
        forall|i: int|
            0 <= i < g.edges@.len() && (#[trigger] g.edges@[i]).weight.finite()
                ==> g.edges@[i].weight.value() >= 0,
    ensures
        findings(g, pairs, max_depth).cycles.len() == 0,
        forall|v: int|
            0 <= v < g.nodes@.len() ==> (#[trigger] settled(g.edges@, g.nodes@.len()).dist[v])
                .value() == 0,
{
    let n = g.nodes@.len();
    let s = settled(g.edges@, n);
    lemma_after_visits_untouched(g.edges@, n, n * n);
    assert((Double { bits: 0 }).value() == 0);
    assert forall|v: int| 0 <= v < n implies !#[trigger] s.suspects[v] by {
        assert(s.dist[v] == (Double { bits: 0 }));
    }
    lemma_nothing_below(texts(g.nodes@), g.edges@, pairs, s, max_depth, n);
}

/// A distance is that of a way: where no two edges join the same nodes in the same direction, the
/// distance of a node with a predecessor is at least that of the predecessor and the weight between
/// them, as the search adds them, and just that where the predecessor is no suspect.
pub proof fn lemma_distances_explained(edges: Seq<Edge>, n: nat, v: int)
    requires
        2 <= n <= usize::MAX,
        edges_fit(edges, n),
        without_parallels(edges),
        0 <= v < n,
    ensures
        settled(edges, n).pred[v] matches Some(u) ==> {
            let s = settled(edges, n);
            let way = sum(s.dist[u as int], step_weight(edges, u, v as usize));
            &&& u < n
            &&& step_weight(edges, u, v as usize).finite()
            &&& at_most(way, s.dist[v])
            &&& s.dist[u as int].finite() && !s.suspects[u as int] ==> way.value() == s.dist[v].value()
        },
{
    lemma_search_complete(edges, n);
    lemma_after_visits_sound(edges, n, n * n);
    let s = settled(edges, n);
    assert(explained(s, edges, v));
    if s.pred[v] is Some {
        let u = s.pred[v]->0;
        lemma_edge_between(edges, u, v as usize);
        let i = edge_between(edges, u, v as usize)->0;
        assert(edges[i].from == u && edges[i].to == v);
    }
}

} // verus!
