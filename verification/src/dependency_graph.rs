use vstd::prelude::*;

use petgraph::graph::Graph;

use crate::domain::{amounts_view, processes_view, GoodId, Process, ProcessView, Scenario};
use crate::scenario::{need_ids, selected_pred};
use crate::petgraph_specs::{
    graph_add_edge, graph_add_node, graph_edges, graph_edges_from, graph_index_limit, graph_new,
    graph_node_weight, graph_nodes, is_topo_walk, leaves,
};

verus! {

/// Which goods each good is made from: one node per good, and an edge from a product to
/// each of its ingredients, weighted with the amount needed.
pub struct DependencyGraph {
    pub inner: Graph<GoodId, u64>,
    /// The node index of each good; it lists every node once, in index order.
    pub node_map: Vec<(GoodId, usize)>,
}

/// Nodes (good names, by index) and edges (source, target, weight) of a graph.
pub struct GraphState {
    pub nodes: Seq<Seq<char>>,
    pub edges: Seq<(usize, usize, u64)>,
}

/// Position of the first occurrence of `x` in `s` (`s.len()` when there is none).
pub open spec fn first_index(s: Seq<Seq<char>>, x: Seq<char>) -> int
    decreases s.len(),
{
    if s.len() == 0 {
        0
    } else if s[0] == x {
        0
    } else {
        1 + first_index(s.drop_first(), x)
    }
}

pub proof fn lemma_first_index(s: Seq<Seq<char>>, x: Seq<char>)
    ensures
        0 <= first_index(s, x) <= s.len(),
        s.contains(x) ==> first_index(s, x) < s.len() && s[first_index(s, x)] == x,
        !s.contains(x) ==> first_index(s, x) == s.len(),
        forall|j: int| 0 <= j < first_index(s, x) ==> s[j] != x,
    decreases s.len(),
{
    if s.len() > 0 && s[0] != x {
        lemma_first_index(s.drop_first(), x);
        if s.contains(x) {
            let j = choose|j: int| 0 <= j < s.len() && s[j] == x;
            assert(s.drop_first()[j - 1] == x);
        }
        assert forall|j: int| 0 <= j < first_index(s, x) implies s[j] != x by {
            if j > 0 {
                assert(s[j] == s.drop_first()[j - 1]);
            }
        }
        if !s.contains(x) {
            assert(!s.drop_first().contains(x)) by {
                if s.drop_first().contains(x) {
                    let j = choose|j: int| 0 <= j < s.drop_first().len() && s.drop_first()[j] == x;
                    assert(s[j + 1] == x);
                }
            }
        }
    } else if s.len() > 0 {
        assert(s.contains(x)) by {
            assert(s[0] == x);
        }
    }
}

/// With distinct entries, `x` sits exactly at `first_index`.
pub proof fn lemma_first_index_unique(s: Seq<Seq<char>>, i: int)
    requires
        s.no_duplicates(),
        0 <= i < s.len(),
    ensures
        first_index(s, s[i]) == i,
{
    lemma_first_index(s, s[i]);
    assert(s.contains(s[i]));
}

/// `nodes` with `x` appended unless it is there already.
pub open spec fn ensure_node(nodes: Seq<Seq<char>>, x: Seq<char>) -> Seq<Seq<char>> {
    if nodes.contains(x) {
        nodes
    } else {
        nodes.push(x)
    }
}

/// First pass: a node for each product, in process order, each good once.
pub open spec fn product_nodes(ps: Seq<ProcessView>) -> Seq<Seq<char>>
    decreases ps.len(),
{
    if ps.len() == 0 {
        Seq::empty()
    } else {
        ensure_node(product_nodes(ps.drop_last()), ps.last().product.0)
    }
}

/// One ingredient of the product at `pix`: its node (added if new) and an edge to it.
pub open spec fn need_step(st: GraphState, pix: int, need: (Seq<char>, u64)) -> GraphState {
    let nodes = ensure_node(st.nodes, need.0);
    GraphState {
        nodes,
        edges: st.edges.push((pix as usize, first_index(nodes, need.0) as usize, need.1)),
    }
}

pub open spec fn needs_fold(st: GraphState, pix: int, needs: Seq<(Seq<char>, u64)>) -> GraphState
    decreases needs.len(),
{
    if needs.len() == 0 {
        st
    } else {
        need_step(needs_fold(st, pix, needs.drop_last()), pix, needs.last())
    }
}

/// Second pass: the ingredient edges of each process, in process order.
pub open spec fn edges_fold(st: GraphState, ps: Seq<ProcessView>) -> GraphState
    decreases ps.len(),
{
    if ps.len() == 0 {
        st
    } else {
        let st1 = edges_fold(st, ps.drop_last());
        needs_fold(st1, first_index(st1.nodes, ps.last().product.0), ps.last().needs)
    }
}

/// The graph that `with_processes` builds for `ps`.
pub open spec fn dependency_graph_of(ps: Seq<ProcessView>) -> GraphState {
    edges_fold(GraphState { nodes: product_nodes(ps), edges: Seq::empty() }, ps)
}

/// The node index list that matches `nodes`: each name with its index.
pub open spec fn indexed(nodes: Seq<Seq<char>>) -> Seq<(Seq<char>, usize)> {
    Seq::new(nodes.len(), |i: int| (nodes[i], i as usize))
}

pub open spec fn node_map_view(m: Seq<(GoodId, usize)>) -> Seq<(Seq<char>, usize)> {
    m.map_values(|e: (GoodId, usize)| (e.0@, e.1))
}

impl DependencyGraph {
    pub open spec fn state(&self) -> GraphState {
        GraphState { nodes: graph_nodes(self.inner), edges: graph_edges(self.inner) }
    }

    /// Each good has one node; `node_map` lists the nodes; every edge joins two nodes.
    pub open spec fn wf(&self) -> bool {
        &&& graph_nodes(self.inner).no_duplicates()
        &&& node_map_view(self.node_map@) == indexed(graph_nodes(self.inner))
        &&& forall|k: int|
            0 <= k < graph_edges(self.inner).len() ==> {
                &&& (#[trigger] graph_edges(self.inner)[k]).0 < graph_nodes(self.inner).len()
                &&& graph_edges(self.inner)[k].1 < graph_nodes(self.inner).len()
            }
    }
}

proof fn lemma_needs_fold_grows(st: GraphState, pix: int, needs: Seq<(Seq<char>, u64)>)
    ensures
        needs_fold(st, pix, needs).nodes.len() >= st.nodes.len(),
        needs_fold(st, pix, needs).edges.len() == st.edges.len() + needs.len(),
    decreases needs.len(),
{
    if needs.len() > 0 {
        lemma_needs_fold_grows(st, pix, needs.drop_last());
    }
}

proof fn lemma_edges_fold_grows(st: GraphState, ps: Seq<ProcessView>, i: int, j: int)
    requires
        0 <= i <= j <= ps.len(),
    ensures
        edges_fold(st, ps.take(i)).nodes.len() <= edges_fold(st, ps.take(j)).nodes.len(),
        edges_fold(st, ps.take(i)).edges.len() <= edges_fold(st, ps.take(j)).edges.len(),
    decreases j - i,
{
    if i < j {
        lemma_edges_fold_grows(st, ps, i, j - 1);
        assert(ps.take(j).drop_last() =~= ps.take(j - 1));
        let st1 = edges_fold(st, ps.take(j - 1));
        lemma_needs_fold_grows(st1, first_index(st1.nodes, ps[j - 1].product.0), ps[j - 1].needs);
    }
}

proof fn lemma_needs_fold_prefix(st: GraphState, pix: int, needs: Seq<(Seq<char>, u64)>, i: int, j: int)
    requires
        0 <= i <= j <= needs.len(),
    ensures
        needs_fold(st, pix, needs.take(i)).nodes.len() <= needs_fold(st, pix, needs.take(j)).nodes.len(),
        needs_fold(st, pix, needs.take(i)).edges.len() <= needs_fold(st, pix, needs.take(j)).edges.len(),
    decreases j - i,
{
    if i < j {
        lemma_needs_fold_prefix(st, pix, needs, i, j - 1);
        assert(needs.take(j).drop_last() =~= needs.take(j - 1));
    }
}

proof fn lemma_product_nodes_prefix(ps: Seq<ProcessView>, i: int, j: int)
    requires
        0 <= i <= j <= ps.len(),
    ensures
        product_nodes(ps.take(i)).len() <= product_nodes(ps.take(j)).len(),
    decreases j - i,
{
    if i < j {
        lemma_product_nodes_prefix(ps, i, j - 1);
        assert(ps.take(j).drop_last() =~= ps.take(j - 1));
    }
}

proof fn lemma_ensure_node(nodes: Seq<Seq<char>>, x: Seq<char>)
    requires
        nodes.no_duplicates(),
    ensures
        ensure_node(nodes, x).no_duplicates(),
        ensure_node(nodes, x).contains(x),
        forall|y: Seq<char>| nodes.contains(y) ==> ensure_node(nodes, x).contains(y),
        indexed(ensure_node(nodes, x)) == if nodes.contains(x) {
            indexed(nodes)
        } else {
            indexed(nodes).push((x, nodes.len() as usize))
        },
{
    if !nodes.contains(x) {
        let n2 = nodes.push(x);
        assert(n2[nodes.len() as int] == x);
        assert forall|y: Seq<char>| nodes.contains(y) implies n2.contains(y) by {
            let j = choose|j: int| 0 <= j < nodes.len() && nodes[j] == y;
            assert(n2[j] == y);
        }
        assert(indexed(n2) =~= indexed(nodes).push((x, nodes.len() as usize)));
    }
}

/// The index of `id` in a node list kept as (name, index) pairs in index order.
fn node_index(m: &Vec<(GoodId, usize)>, id: &GoodId, Ghost(nodes): Ghost<Seq<Seq<char>>>) -> (r:
    Option<usize>)
    requires
        node_map_view(m@) == indexed(nodes),
    ensures
        match r {
            Some(i) => nodes.contains(id@) && i == first_index(nodes, id@),
            None => !nodes.contains(id@),
        },
{
    let mut k: usize = 0;
    while k < m.len()
        invariant
            k <= m@.len(),
            node_map_view(m@) == indexed(nodes),
            forall|j: int| 0 <= j < k ==> nodes[j] != id@,
        decreases m@.len() - k,
    {
        assert(node_map_view(m@)[k as int] == (m@[k as int].0@, m@[k as int].1));
        assert(node_map_view(m@).len() == m@.len());
        assert(indexed(nodes).len() == nodes.len());
        assert(indexed(nodes)[k as int] == (nodes[k as int], k));
        if m[k].0.0 == id.0 {
            proof {
                assert(nodes[k as int] == id@);
                lemma_first_index(nodes, id@);
                assert(nodes.contains(id@));
                if first_index(nodes, id@) < k {
                    assert(nodes[first_index(nodes, id@)] == id@);
                }
            }
            return Some(m[k].1);
        }
        k = k + 1;
    }
    proof {
        assert(node_map_view(m@).len() == m@.len());
        assert(indexed(nodes).len() == nodes.len());
        assert(!nodes.contains(id@)) by {
            if nodes.contains(id@) {
                let j = choose|j: int| 0 <= j < nodes.len() && nodes[j] == id@;
            }
        }
    }
    None
}

proof fn lemma_product_nodes(ps: Seq<ProcessView>)
    ensures
        product_nodes(ps).no_duplicates(),
        forall|i: int| 0 <= i < ps.len() ==> product_nodes(ps).contains(#[trigger] ps[i].product.0),
    decreases ps.len(),
{
    if ps.len() > 0 {
        let rest = ps.drop_last();
        lemma_product_nodes(rest);
        lemma_ensure_node(product_nodes(rest), ps.last().product.0);
        assert forall|i: int| 0 <= i < ps.len() implies product_nodes(ps).contains(
            #[trigger] ps[i].product.0,
        ) by {
            if i < ps.len() - 1 {
                assert(rest[i] == ps[i]);
            }
        }
    }
}

impl DependencyGraph {
    /// Builds the graph of `processes`: first a node for every product, then, process by
    /// process, an edge from the product to each ingredient, adding ingredient nodes as
    /// they first appear.
    pub fn with_processes(processes: &[Process]) -> (r: Self)
        requires
            dependency_graph_of(processes_view(processes@)).nodes.len() <= graph_index_limit(),
            dependency_graph_of(processes_view(processes@)).edges.len() <= graph_index_limit(),
        ensures
            r.wf(),
            r.state() == dependency_graph_of(processes_view(processes@)),
    {
        let ghost ps = processes_view(processes@);
        let ghost st0 = GraphState { nodes: product_nodes(ps), edges: Seq::empty() };
        let mut graph = graph_new();
        let mut node_map: Vec<(GoodId, usize)> = Vec::new();
        proof {
            lemma_edges_fold_grows(st0, ps, 0, ps.len() as int);
            assert(ps.take(0) =~= Seq::<ProcessView>::empty());
            assert(ps.take(ps.len() as int) =~= ps);
            lemma_product_nodes_prefix(ps, 0, ps.len() as int);
            assert(node_map_view(node_map@) =~= indexed(graph_nodes(graph)));
        }
        let n = processes.len();
        let mut i: usize = 0;
        while i < n
            invariant
                ps == processes_view(processes@),
                n == ps.len(),
                i <= n,
                product_nodes(ps).len() <= graph_index_limit(),
                graph_nodes(graph) == product_nodes(ps.take(i as int)),
                graph_edges(graph) == Seq::<(usize, usize, u64)>::empty(),
                graph_nodes(graph).no_duplicates(),
                node_map_view(node_map@) == indexed(graph_nodes(graph)),
            decreases n - i,
        {
            let product = processes[i].product.0.clone();
            assert(ps.take(i + 1).drop_last() =~= ps.take(i as int));
            assert(ps.take(i + 1).last().product.0 == product@);
            proof {
                lemma_ensure_node(graph_nodes(graph), product@);
                lemma_product_nodes_prefix(ps, i + 1, n as int);
                assert(ps.take(n as int) =~= ps);
            }
            match node_index(&node_map, &product, Ghost(graph_nodes(graph))) {
                Some(_) => {},
                None => {
                    let ix = graph_add_node(&mut graph, product.clone());
                    let ghost m0 = node_map@;
                    node_map.push((product, ix));
                    assert(node_map_view(node_map@) =~= node_map_view(m0).push((product@, ix)));
                },
            }
            i = i + 1;
        }
        proof {
            assert(ps.take(n as int) =~= ps);
            lemma_product_nodes(ps);
        }
        let mut i: usize = 0;
        while i < n
            invariant
                ps == processes_view(processes@),
                n == ps.len(),
                i <= n,
                st0 == (GraphState { nodes: product_nodes(ps), edges: Seq::empty() }),
                dependency_graph_of(ps).nodes.len() <= graph_index_limit(),
                dependency_graph_of(ps).edges.len() <= graph_index_limit(),
                (GraphState { nodes: graph_nodes(graph), edges: graph_edges(graph) }) == edges_fold(
                    st0,
                    ps.take(i as int),
                ),
                graph_nodes(graph).no_duplicates(),
                node_map_view(node_map@) == indexed(graph_nodes(graph)),
                forall|y: Seq<char>| product_nodes(ps).contains(y) ==> graph_nodes(graph).contains(y),
                forall|k: int|
                    0 <= k < graph_edges(graph).len() ==> {
                        &&& (#[trigger] graph_edges(graph)[k]).0 < graph_nodes(graph).len()
                        &&& graph_edges(graph)[k].1 < graph_nodes(graph).len()
                    },
            decreases n - i,
        {
            let process = &processes[i];
            let ghost p = ps[i as int];
            assert(p == process@);
            assert(ps.take(i + 1).drop_last() =~= ps.take(i as int));
            assert(ps.take(i + 1).last() == p);
            let ghost st1 = edges_fold(st0, ps.take(i as int));
            let ghost pix_spec = first_index(st1.nodes, p.product.0);
            proof {
                lemma_edges_fold_grows(st0, ps, i + 1, n as int);
                assert(ps.take(n as int) =~= ps);
                lemma_product_nodes(ps);
                assert(product_nodes(ps).contains(ps[i as int].product.0));
            }
            match node_index(&node_map, &process.product.0, Ghost(graph_nodes(graph))) {
                None => {
                    assert(false);
                },
                Some(pix) => {
                    proof {
                        lemma_first_index(graph_nodes(graph), p.product.0);
                    }
                    let needs = &process.needs;
                    let ghost nv = amounts_view(needs@);
                    assert(nv == p.needs);
                    let mut k: usize = 0;
                    assert(nv.take(0) =~= Seq::<(Seq<char>, u64)>::empty());
                    while k < needs.len()
                        invariant
                            k <= needs@.len(),
                            nv == amounts_view(needs@),
                            pix == pix_spec,
                            pix < graph_nodes(graph).len(),
                            needs_fold(st1, pix_spec, nv).nodes.len() <= graph_index_limit(),
                            needs_fold(st1, pix_spec, nv).edges.len() <= graph_index_limit(),
                            (GraphState { nodes: graph_nodes(graph), edges: graph_edges(graph) })
                                == needs_fold(st1, pix_spec, nv.take(k as int)),
                            graph_nodes(graph).no_duplicates(),
                            node_map_view(node_map@) == indexed(graph_nodes(graph)),
                            forall|y: Seq<char>|
                                product_nodes(ps).contains(y) ==> graph_nodes(graph).contains(y),
                            forall|e: int|
                                0 <= e < graph_edges(graph).len() ==> {
                                    &&& (#[trigger] graph_edges(graph)[e]).0 < graph_nodes(
                                        graph,
                                    ).len()
                                    &&& graph_edges(graph)[e].1 < graph_nodes(graph).len()
                                },
                        decreases needs@.len() - k,
                    {
                        let need_id = &needs[k].0;
                        let amount = needs[k].1;
                        let ghost nodes0 = graph_nodes(graph);
                        let ghost edges0 = graph_edges(graph);
                        proof {
                            assert(nv.take(k + 1).drop_last() =~= nv.take(k as int));
                            assert(nv.take(k + 1).last() == (need_id@, amount));
                            lemma_needs_fold_prefix(st1, pix_spec, nv, k + 1, nv.len() as int);
                            assert(nv.take(nv.len() as int) =~= nv);
                            lemma_ensure_node(nodes0, need_id@);
                        }
                        match node_index(&node_map, need_id, Ghost(graph_nodes(graph))) {
                            Some(nix) => {
                                proof {
                                    lemma_first_index(nodes0, need_id@);
                                }
                                graph_add_edge(&mut graph, pix, nix, amount);
                            },
                            None => {
                                let nix = graph_add_node(&mut graph, need_id.clone());
                                let ghost m0 = node_map@;
                                node_map.push((need_id.clone(), nix));
                                proof {
                                    assert(node_map_view(node_map@) =~= node_map_view(m0).push(
                                        (need_id@, nix),
                                    ));
                                    lemma_first_index(graph_nodes(graph), need_id@);
                                    assert(graph_nodes(graph)[nix as int] == need_id@);
                                    assert forall|j: int| 0 <= j < nix implies graph_nodes(graph)[j] != need_id@ by {
                                        assert(graph_nodes(graph)[j] == nodes0[j]);
                                        if nodes0[j] == need_id@ {
                                            assert(nodes0.contains(need_id@));
                                        }
                                    }
                                    if first_index(graph_nodes(graph), need_id@) < nix {
                                        let f = first_index(graph_nodes(graph), need_id@);
                                        assert(graph_nodes(graph)[f] == need_id@);
                                    }
                                }
                                graph_add_edge(&mut graph, pix, nix, amount);
                            },
                        }
                        proof {
                            assert(graph_edges(graph) =~= edges0.push(
                                (pix, first_index(graph_nodes(graph), need_id@) as usize, amount),
                            ));
                            assert forall|e: int| 0 <= e < graph_edges(graph).len() implies {
                                &&& (#[trigger] graph_edges(graph)[e]).0 < graph_nodes(graph).len()
                                &&& graph_edges(graph)[e].1 < graph_nodes(graph).len()
                            } by {
                                if e < edges0.len() {
                                    assert(graph_edges(graph)[e] == edges0[e]);
                                }
                            }
                        }
                        k = k + 1;
                    }
                    assert(nv.take(nv.len() as int) =~= nv);
                },
            }
            i = i + 1;
        }
        assert(ps.take(n as int) =~= ps);
        DependencyGraph { inner: graph, node_map }
    }
}

pub open spec fn keys_of(acc: Seq<(Seq<char>, nat)>) -> Seq<Seq<char>> {
    acc.map_values(|e: (Seq<char>, nat)| e.0)
}

/// Adds `amount` to the total of `name`, or appends `name` with that total.
pub open spec fn add_amount(acc: Seq<(Seq<char>, nat)>, item: (Seq<char>, u64)) -> Seq<
    (Seq<char>, nat),
> {
    if keys_of(acc).contains(item.0) {
        let j = first_index(keys_of(acc), item.0);
        acc.update(j, (item.0, acc[j].1 + item.1 as nat))
    } else {
        acc.push((item.0, item.1 as nat))
    }
}

/// The total amount for each name, names in order of first appearance.
pub open spec fn keyed_sums(items: Seq<(Seq<char>, u64)>) -> Seq<(Seq<char>, nat)>
    decreases items.len(),
{
    if items.len() == 0 {
        Seq::empty()
    } else {
        add_amount(keyed_sums(items.drop_last()), items.last())
    }
}

/// The edges that `Graph::edges` lists for node `ix`: those leaving it, newest first.
pub open spec fn out_edges(st: GraphState, ix: usize) -> Seq<(usize, usize, u64)> {
    st.edges.filter(leaves(ix)).reverse()
}

pub open spec fn to_target(nodes: Seq<Seq<char>>) -> spec_fn((usize, usize, u64)) -> (
    Seq<char>,
    u64,
) {
    |e: (usize, usize, u64)| (nodes[e.1 as int], e.2)
}

pub open spec fn to_source(nodes: Seq<Seq<char>>) -> spec_fn((usize, usize, u64)) -> (
    Seq<char>,
    u64,
) {
    |e: (usize, usize, u64)| (nodes[e.0 as int], e.2)
}

pub open spec fn arrives(ix: usize) -> spec_fn((usize, usize, u64)) -> bool {
    |e: (usize, usize, u64)| e.1 == ix
}

/// The ingredients of the good at `ix` with their amounts, one entry per edge.
pub open spec fn ingredient_items(st: GraphState, ix: usize) -> Seq<(Seq<char>, u64)> {
    out_edges(st, ix).map_values(to_target(st.nodes))
}

/// The entries that `dependents` adds up for the good at `ix`: the edges listed for
/// `ix` that also arrive at `ix`, keyed by their source.
pub open spec fn dependent_items(st: GraphState, ix: usize) -> Seq<(Seq<char>, u64)> {
    out_edges(st, ix).filter(arrives(ix)).map_values(to_source(st.nodes))
}

pub open spec fn sums_view(v: Seq<(&GoodId, u64)>) -> Seq<(Seq<char>, nat)> {
    v.map_values(|e: (&GoodId, u64)| (e.0@, e.1 as nat))
}

/// The totals per ingredient of `node`; empty when the graph has no such node.
pub open spec fn dependencies_of(st: GraphState, node: Seq<char>) -> Seq<(Seq<char>, nat)> {
    if st.nodes.contains(node) {
        keyed_sums(ingredient_items(st, first_index(st.nodes, node) as usize))
    } else {
        Seq::empty()
    }
}

/// What `dependents` totals for `node`; empty when the graph has no such node.
pub open spec fn dependents_of(st: GraphState, node: Seq<char>) -> Seq<(Seq<char>, nat)> {
    if st.nodes.contains(node) {
        keyed_sums(dependent_items(st, first_index(st.nodes, node) as usize))
    } else {
        Seq::empty()
    }
}

proof fn lemma_add_amount(acc: Seq<(Seq<char>, nat)>, item: (Seq<char>, u64))
    requires
        keys_of(acc).no_duplicates(),
    ensures
        keys_of(add_amount(acc, item)).no_duplicates(),
        add_amount(acc, item).len() >= acc.len(),
        forall|j: int|
            0 <= j < acc.len() ==> add_amount(acc, item)[j].0 == acc[j].0 && add_amount(
                acc,
                item,
            )[j].1 >= acc[j].1,
        keys_of(add_amount(acc, item)).contains(item.0),
{
    let keys = keys_of(acc);
    lemma_first_index(keys, item.0);
    let r = add_amount(acc, item);
    if keys.contains(item.0) {
        let j = first_index(keys, item.0);
        assert(keys_of(r) =~= keys);
        assert(keys_of(r)[j] == item.0);
    } else {
        assert(keys_of(r) =~= keys.push(item.0));
        assert(keys_of(r)[acc.len() as int] == item.0);
    }
}

proof fn lemma_keyed_sums_distinct(items: Seq<(Seq<char>, u64)>)
    ensures
        keys_of(keyed_sums(items)).no_duplicates(),
    decreases items.len(),
{
    if items.len() > 0 {
        lemma_keyed_sums_distinct(items.drop_last());
        lemma_add_amount(keyed_sums(items.drop_last()), items.last());
    }
}

/// The totals after a prefix never exceed the final totals.
proof fn lemma_keyed_sums_prefix(items: Seq<(Seq<char>, u64)>, i: int, n: int)
    requires
        0 <= i <= n <= items.len(),
    ensures
        keyed_sums(items.take(i)).len() <= keyed_sums(items.take(n)).len(),
        forall|j: int|
            0 <= j < keyed_sums(items.take(i)).len() ==> keyed_sums(items.take(i))[j].0
                == keyed_sums(items.take(n))[j].0 && keyed_sums(items.take(i))[j].1 <= keyed_sums(
                items.take(n),
            )[j].1,
    decreases n - i,
{
    if i < n {
        lemma_keyed_sums_prefix(items, i, n - 1);
        assert(items.take(n).drop_last() =~= items.take(n - 1));
        lemma_keyed_sums_distinct(items.take(n - 1));
        lemma_add_amount(keyed_sums(items.take(n - 1)), items.take(n).last());
    }
}

proof fn lemma_filter_all<T>(s: Seq<T>, p: spec_fn(T) -> bool)
    requires
        forall|i: int| 0 <= i < s.len() ==> p(#[trigger] s[i]),
    ensures
        s.filter(p) == s,
    decreases s.len(),
{
    reveal_with_fuel(Seq::filter, 1);
    if s.len() > 0 {
        lemma_filter_all(s.drop_last(), p);
        assert(s.drop_last().push(s.last()) =~= s);
    }
}

/// Position of `key` among the names of `acc`, if it is there.
fn find_key<'a>(acc: &Vec<(&'a GoodId, u64)>, key: &GoodId) -> (r: Option<usize>)
    ensures
        match r {
            Some(j) => keys_of(sums_view(acc@)).contains(key@) && j == first_index(
                keys_of(sums_view(acc@)),
                key@,
            ),
            None => !keys_of(sums_view(acc@)).contains(key@),
        },
{
    let ghost keys = keys_of(sums_view(acc@));
    let mut k: usize = 0;
    while k < acc.len()
        invariant
            k <= acc@.len(),
            keys == keys_of(sums_view(acc@)),
            forall|j: int| 0 <= j < k ==> keys[j] != key@,
        decreases acc@.len() - k,
    {
        assert(keys[k as int] == acc@[k as int].0@);
        if acc[k].0.0 == key.0 {
            proof {
                lemma_first_index(keys, key@);
                assert(keys.contains(key@));
                if first_index(keys, key@) < k {
                    assert(keys[first_index(keys, key@)] == key@);
                }
            }
            return Some(k);
        }
        k = k + 1;
    }
    proof {
        assert(!keys.contains(key@)) by {
            if keys.contains(key@) {
                let j = choose|j: int| 0 <= j < keys.len() && keys[j] == key@;
            }
        }
    }
    None
}

pub open spec fn pairs_view(v: Seq<(&GoodId, u64)>) -> Seq<(Seq<char>, u64)> {
    v.map_values(|e: (&GoodId, u64)| (e.0@, e.1))
}

pub open spec fn sums_fit(sums: Seq<(Seq<char>, nat)>) -> bool {
    forall|j: int| 0 <= j < sums.len() ==> #[trigger] sums[j].1 <= u64::MAX
}

/// The total amount per name of `items`, names in order of first appearance, or `None`
/// when a total does not fit in a `u64`.
fn sum_by_name<'a>(items: &Vec<(&'a GoodId, u64)>) -> (r: Option<Vec<(&'a GoodId, u64)>>)
    ensures
        match r {
            Some(v) => sums_fit(keyed_sums(pairs_view(items@))) && sums_view(v@) == keyed_sums(
                pairs_view(items@),
            ),
            None => !sums_fit(keyed_sums(pairs_view(items@))),
        },
{
    let ghost all = pairs_view(items@);
    let mut acc: Vec<(&'a GoodId, u64)> = Vec::new();
    let mut i: usize = 0;
    proof {
        assert(all.take(0) =~= Seq::<(Seq<char>, u64)>::empty());
        assert(sums_view(acc@) =~= Seq::<(Seq<char>, nat)>::empty());
    }
    while i < items.len()
        invariant
            i <= items@.len(),
            all == pairs_view(items@),
            sums_view(acc@) == keyed_sums(all.take(i as int)),
        decreases items@.len() - i,
    {
        let (key, amount) = items[i];
        let ghost before = keyed_sums(all.take(i as int));
        proof {
            assert(all.take(i + 1).drop_last() =~= all.take(i as int));
            assert(all.take(i + 1).last() == (key@, amount));
            lemma_keyed_sums_distinct(all.take(i as int));
            lemma_keyed_sums_prefix(all, i + 1, all.len() as int);
            assert(all.take(all.len() as int) =~= all);
            lemma_first_index(keys_of(before), key@);
            assert(keys_of(sums_view(acc@)) =~= keys_of(before));
        }
        match find_key(&acc, key) {
            Some(j) => {
                let old_amount = acc[j].1;
                let ghost after = keyed_sums(all.take(i + 1));
                assert(after == before.update(j as int, (key@, before[j as int].1 + amount as nat)));
                if old_amount > u64::MAX - amount {
                    assert(keyed_sums(all)[j as int].1 >= after[j as int].1);
                    assert(!sums_fit(keyed_sums(all)));
                    return None;
                }
                let ghost a0 = acc@;
                acc.set(j, (key, old_amount + amount));
                assert(sums_view(acc@) =~= sums_view(a0).update(
                    j as int,
                    (key@, (old_amount + amount) as nat),
                ));
            },
            None => {
                let ghost a0 = acc@;
                acc.push((key, amount));
                assert(sums_view(acc@) =~= sums_view(a0).push((key@, amount as nat)));
            },
        }
        i = i + 1;
    }
    assert(all.take(all.len() as int) =~= all);
    assert(sums_fit(keyed_sums(all)));
    Some(acc)
}

/// The edges of `es` that `p` selects, each as the node at its target
/// (`by_target`) or source, with its weight.
fn select_edges<'a>(
    g: &'a Graph<GoodId, u64>,
    es: &Vec<(usize, usize, u64)>,
    ix: usize,
    by_target: bool,
    Ghost(p): Ghost<spec_fn((usize, usize, u64)) -> bool>,
    Ghost(f): Ghost<spec_fn((usize, usize, u64)) -> (Seq<char>, u64)>,
) -> (r: Vec<(&'a GoodId, u64)>)
    requires
        forall|e: (usize, usize, u64)|
            #[trigger] p(e) == if by_target {
                e.0 == ix
            } else {
                e.1 == ix
            },
        forall|e: (usize, usize, u64)|
            #[trigger] f(e) == if by_target {
                (graph_nodes(*g)[e.1 as int], e.2)
            } else {
                (graph_nodes(*g)[e.0 as int], e.2)
            },
        forall|k: int|
            0 <= k < es@.len() ==> (#[trigger] es@[k]).0 < graph_nodes(*g).len() && es@[k].1
                < graph_nodes(*g).len(),
    ensures
        pairs_view(r@) == es@.filter(p).map_values(f),
{
    let mut sel: Vec<(&'a GoodId, u64)> = Vec::new();
    let mut i: usize = 0;
    proof {
        reveal_with_fuel(Seq::filter, 1);
        assert(es@.take(0) =~= Seq::<(usize, usize, u64)>::empty());
        assert(pairs_view(sel@) =~= es@.take(0).filter(p).map_values(f));
    }
    while i < es.len()
        invariant
            i <= es@.len(),
            forall|e: (usize, usize, u64)|
                #[trigger] p(e) == if by_target {
                    e.0 == ix
                } else {
                    e.1 == ix
                },
            forall|e: (usize, usize, u64)|
                #[trigger] f(e) == if by_target {
                    (graph_nodes(*g)[e.1 as int], e.2)
                } else {
                    (graph_nodes(*g)[e.0 as int], e.2)
                },
            forall|k: int|
                0 <= k < es@.len() ==> (#[trigger] es@[k]).0 < graph_nodes(*g).len() && es@[k].1
                    < graph_nodes(*g).len(),
            pairs_view(sel@) == es@.take(i as int).filter(p).map_values(f),
        decreases es@.len() - i,
    {
        let e = es[i];
        proof {
            assert(es@.take(i + 1) =~= es@.take(i as int).push(e));
            es@.take(i as int).lemma_filter_push(e, p);
        }
        let chosen = if by_target {
            e.0 == ix
        } else {
            e.1 == ix
        };
        if chosen {
            let key = if by_target {
                graph_node_weight(g, e.1)
            } else {
                graph_node_weight(g, e.0)
            };
            let ghost s0 = sel@;
            sel.push((key, e.2));
            assert(pairs_view(sel@) =~= pairs_view(s0).push(f(e)));
            assert(es@.take(i as int).filter(p).push(e).map_values(f) =~= es@.take(
                i as int,
            ).filter(p).map_values(f).push(f(e)));
        }
        i = i + 1;
    }
    assert(es@.take(es@.len() as int) =~= es@);
    sel
}

/// The edges listed for `ix` leave `ix` and are edges of the graph.
proof fn lemma_out_edges(st: GraphState, ix: usize)
    ensures
        forall|k: int|
            0 <= k < out_edges(st, ix).len() ==> (#[trigger] out_edges(st, ix)[k]).0 == ix
                && st.edges.contains(out_edges(st, ix)[k]),
{
    let filt = st.edges.filter(leaves(ix));
    assert forall|k: int| 0 <= k < out_edges(st, ix).len() implies (#[trigger] out_edges(
        st,
        ix,
    )[k]).0 == ix && st.edges.contains(out_edges(st, ix)[k]) by {
        let m = filt.len() - 1 - k;
        assert(out_edges(st, ix)[k] == filt[m]);
        st.edges.lemma_filter_pred(leaves(ix), m);
        assert(filt.contains(filt[m]));
        st.edges.lemma_filter_contains_rev(leaves(ix), filt[m]);
    }
}

impl DependencyGraph {
    /// `dependencies`, or `None` when a total does not fit in a `u64`.
    pub fn dependencies_checked<'a>(&'a self, node: &GoodId) -> (r: Option<Vec<(&'a GoodId, u64)>>)
        requires
            self.wf(),
        ensures
            match r {
                Some(v) => sums_fit(dependencies_of(self.state(), node@)) && sums_view(v@)
                    == dependencies_of(self.state(), node@),
                None => !sums_fit(dependencies_of(self.state(), node@)),
            },
    {
        let ghost st = self.state();
        match node_index(&self.node_map, node, Ghost(graph_nodes(self.inner))) {
            None => {
                let r: Vec<(&'a GoodId, u64)> = Vec::new();
                assert(sums_view(r@) =~= Seq::<(Seq<char>, nat)>::empty());
                Some(r)
            },
            Some(ix) => {
                proof {
                    lemma_first_index(graph_nodes(self.inner), node@);
                }
                let es = graph_edges_from(&self.inner, ix);
                assert(es@ == out_edges(st, ix));
                proof {
                    lemma_out_edges(st, ix);
                    assert forall|k: int| 0 <= k < es@.len() implies (#[trigger] es@[k]).0
                        < graph_nodes(self.inner).len() && es@[k].1 < graph_nodes(self.inner).len() by {
                        let e = es@[k];
                        assert(st.edges.contains(e));
                        let t = choose|t: int| 0 <= t < st.edges.len() && st.edges[t] == e;
                        assert(graph_edges(self.inner)[t] == e);
                    }
                    lemma_filter_all(es@, leaves(ix));
                }
                let sel = select_edges(
                    &self.inner,
                    &es,
                    ix,
                    true,
                    Ghost(leaves(ix)),
                    Ghost(to_target(graph_nodes(self.inner))),
                );
                assert(pairs_view(sel@) == ingredient_items(st, ix));
                assert(first_index(st.nodes, node@) as usize == ix);
                assert(dependencies_of(st, node@) == keyed_sums(pairs_view(sel@)));
                sum_by_name(&sel)
            },
        }
    }

    /// The ingredients of `node` with the total amount of each, one entry per
    /// ingredient; empty when the graph has no node for `node`. The order of the
    /// entries is the order in which the ingredients first appear among the edges
    /// that `Graph::edges` lists.
    pub fn dependencies<'a>(&'a self, node: &GoodId) -> (r: Vec<(&'a GoodId, u64)>)
        requires
            self.wf(),
            sums_fit(dependencies_of(self.state(), node@)),
        ensures
            sums_view(r@) == dependencies_of(self.state(), node@),
    {
        match self.dependencies_checked(node) {
            Some(v) => v,
            None => {
                assert(false);
                Vec::new()
            },
        }
    }

    /// The goods that use `node`, with their totals, as far as `Graph::edges` shows
    /// them: it lists the edges that leave `node`, and of those only the ones that also
    /// arrive at `node` are counted, so the result is `node` itself with the total weight of its
    /// edges to itself, or empty when there are none or the graph has no such node.
    pub fn dependents<'a>(&'a self, node: &GoodId) -> (r: Vec<(&'a GoodId, u64)>)
        requires
            self.wf(),
            sums_fit(dependents_of(self.state(), node@)),
        ensures
            sums_view(r@) == dependents_of(self.state(), node@),
    {
        let ghost st = self.state();
        match node_index(&self.node_map, node, Ghost(graph_nodes(self.inner))) {
            None => {
                let r: Vec<(&'a GoodId, u64)> = Vec::new();
                assert(sums_view(r@) =~= Seq::<(Seq<char>, nat)>::empty());
                r
            },
            Some(ix) => {
                proof {
                    lemma_first_index(graph_nodes(self.inner), node@);
                }
                let es = graph_edges_from(&self.inner, ix);
                assert(es@ == out_edges(st, ix));
                proof {
                    lemma_out_edges(st, ix);
                    assert forall|k: int| 0 <= k < es@.len() implies (#[trigger] es@[k]).0
                        < graph_nodes(self.inner).len() && es@[k].1 < graph_nodes(self.inner).len() by {
                        let e = es@[k];
                        assert(st.edges.contains(e));
                        let t = choose|t: int| 0 <= t < st.edges.len() && st.edges[t] == e;
                        assert(graph_edges(self.inner)[t] == e);
                    }
                }
                let sel = select_edges(
                    &self.inner,
                    &es,
                    ix,
                    false,
                    Ghost(arrives(ix)),
                    Ghost(to_source(graph_nodes(self.inner))),
                );
                assert(pairs_view(sel@) == dependent_items(st, ix));
                assert(first_index(st.nodes, node@) as usize == ix);
                assert(dependents_of(st, node@) == keyed_sums(pairs_view(sel@)));
                match sum_by_name(&sel) {
                    Some(v) => v,
                    None => {
                        assert(false);
                        Vec::new()
                    },
                }
            },
        }
    }
}


/// The dependency graph of the processes that a scenario selects (see `Scenario::collect`).
pub fn build_dependency_graph(scenario: Scenario) -> (r: DependencyGraph)
    requires
        scenario.wf(),
        dependency_graph_of(scenario@.registry.processes.filter(selected_pred(scenario@))).nodes.len()
            <= graph_index_limit(),
        dependency_graph_of(scenario@.registry.processes.filter(selected_pred(scenario@))).edges.len()
            <= graph_index_limit(),
    ensures
        r.wf(),
        r.state() == dependency_graph_of(scenario@.registry.processes.filter(selected_pred(scenario@))),
{
    let (processes, _sources) = scenario.collect();
    DependencyGraph::with_processes(processes.as_slice())
}


// ---------------------------------------------------------------------------
// Recipes and dependencies
// ---------------------------------------------------------------------------

/// `b` keeps the nodes and the edges of `a`, in place, and may add more after them.
pub open spec fn extends(a: GraphState, b: GraphState) -> bool {
    &&& a.nodes.len() <= b.nodes.len()
    &&& forall|i: int| 0 <= i < a.nodes.len() ==> #[trigger] b.nodes[i] == a.nodes[i]
    &&& a.edges.len() <= b.edges.len()
    &&& forall|i: int| 0 <= i < a.edges.len() ==> #[trigger] b.edges[i] == a.edges[i]
}

/// The graph has an edge from node `pix` to a node named `g`, weighted `a`.
pub open spec fn has_edge(st: GraphState, pix: int, g: Seq<char>, a: u64) -> bool {
    exists|t: int|
        0 <= t < st.nodes.len() && st.nodes[t] == g && #[trigger] st.edges.contains((pix as usize, t as usize, a))
}

proof fn lemma_has_edge_extends(a: GraphState, b: GraphState, pix: int, g: Seq<char>, w: u64)
    requires
        extends(a, b),
        has_edge(a, pix, g, w),
    ensures
        has_edge(b, pix, g, w),
{
    let t = choose|t: int|
        0 <= t < a.nodes.len() && a.nodes[t] == g && #[trigger] a.edges.contains((pix as usize, t as usize, w));
    let e = choose|e: int| 0 <= e < a.edges.len() && a.edges[e] == (pix as usize, t as usize, w);
    assert(b.nodes[t] == g);
    assert(b.edges[e] == (pix as usize, t as usize, w));
    assert(b.edges.contains((pix as usize, t as usize, w)));
}

proof fn lemma_extends_trans(a: GraphState, b: GraphState, c: GraphState)
    requires
        extends(a, b),
        extends(b, c),
    ensures
        extends(a, c),
{
    assert forall|i: int| 0 <= i < a.nodes.len() implies #[trigger] c.nodes[i] == a.nodes[i] by {
        assert(c.nodes[i] == b.nodes[i]);
    }
    assert forall|i: int| 0 <= i < a.edges.len() implies #[trigger] c.edges[i] == a.edges[i] by {
        assert(c.edges[i] == b.edges[i]);
    }
}

proof fn lemma_needs_fold_extends(st: GraphState, pix: int, needs: Seq<(Seq<char>, u64)>)
    ensures
        extends(st, needs_fold(st, pix, needs)),
        forall|k: int|
            0 <= k < needs.len() ==> has_edge(needs_fold(st, pix, needs), pix, #[trigger] needs[k].0, needs[k].1),
    decreases needs.len(),
{
    if needs.len() > 0 {
        let rest = needs.drop_last();
        lemma_needs_fold_extends(st, pix, rest);
        let st1 = needs_fold(st, pix, rest);
        let st2 = need_step(st1, pix, needs.last());
        assert(extends(st1, st2));
        lemma_extends_trans(st, st1, st2);
        assert forall|k: int| 0 <= k < needs.len() implies has_edge(st2, pix, #[trigger] needs[k].0, needs[k].1) by {
            if k < needs.len() - 1 {
                assert(rest[k] == needs[k]);
                lemma_has_edge_extends(st1, st2, pix, needs[k].0, needs[k].1);
            } else {
                let g = needs.last().0;
                lemma_first_index(st2.nodes, g);
                assert(st2.nodes.contains(g)) by {
                    if !st1.nodes.contains(g) {
                        assert(st2.nodes[st1.nodes.len() as int] == g);
                    }
                }
                let t = first_index(st2.nodes, g);
                assert(st2.edges[st2.edges.len() - 1] == (pix as usize, t as usize, needs.last().1));
                assert(st2.edges.contains((pix as usize, t as usize, needs.last().1)));
            }
        }
    }
}

proof fn lemma_edges_fold_extends(st: GraphState, ps: Seq<ProcessView>)
    ensures
        extends(st, edges_fold(st, ps)),
    decreases ps.len(),
{
    if ps.len() > 0 {
        lemma_edges_fold_extends(st, ps.drop_last());
        let st1 = edges_fold(st, ps.drop_last());
        lemma_needs_fold_extends(st1, first_index(st1.nodes, ps.last().product.0), ps.last().needs);
        lemma_extends_trans(st, st1, edges_fold(st, ps));
    }
}

/// Where `x` sits in a list, it sits in every list that starts with that list.
proof fn lemma_first_index_extends(a: Seq<Seq<char>>, b: Seq<Seq<char>>, x: Seq<char>)
    requires
        a.len() <= b.len(),
        forall|i: int| 0 <= i < a.len() ==> #[trigger] b[i] == a[i],
        a.contains(x),
    ensures
        first_index(a, x) == first_index(b, x),
{
    lemma_first_index(a, x);
    lemma_first_index(b, x);
    let fa = first_index(a, x);
    assert(b[fa] == x);
    assert(b.contains(x));
    if first_index(b, x) < fa {
        assert(a[first_index(b, x)] == b[first_index(b, x)]);
    }
}

proof fn lemma_keyed_sums_covers(items: Seq<(Seq<char>, u64)>, g: Seq<char>, a: u64)
    requires
        items.contains((g, a)),
    ensures
        exists|j: int| 0 <= j < keyed_sums(items).len() && #[trigger] keyed_sums(items)[j].0 == g && keyed_sums(items)[j].1 >= a,
    decreases items.len(),
{
    let rest = items.drop_last();
    let acc = keyed_sums(rest);
    lemma_keyed_sums_distinct(rest);
    lemma_add_amount(acc, items.last());
    let r = keyed_sums(items);
    if items.last() == (g, a) {
        let keys = keys_of(acc);
        lemma_first_index(keys, g);
        if keys.contains(g) {
            let j = first_index(keys, g);
            assert(r[j].0 == g);
        } else {
            assert(r[acc.len() as int].0 == g);
        }
    } else {
        let i = choose|i: int| 0 <= i < items.len() && items[i] == (g, a);
        assert(rest[i] == (g, a));
        lemma_keyed_sums_covers(rest, g, a);
        let j = choose|j: int| 0 <= j < acc.len() && #[trigger] acc[j].0 == g && acc[j].1 >= a;
        assert(r[j].0 == g);
    }
}

/// Every ingredient of a process is a dependency of the process's product in the graph
/// of the processes, with at least the amount that the process needs.
pub proof fn law_needs_are_dependencies(ps: Seq<ProcessView>, i: int, k: int)
    requires
        0 <= i < ps.len(),
        0 <= k < ps[i].needs.len(),
        dependency_graph_of(ps).nodes.len() <= graph_index_limit(),
    ensures
        exists|j: int|
            0 <= j < dependencies_of(dependency_graph_of(ps), ps[i].product.0).len()
                && #[trigger] dependencies_of(dependency_graph_of(ps), ps[i].product.0)[j].0 == ps[i].needs[k].0
                && dependencies_of(dependency_graph_of(ps), ps[i].product.0)[j].1 >= ps[i].needs[k].1,
{
    let st0 = GraphState { nodes: product_nodes(ps), edges: Seq::empty() };
    let st = dependency_graph_of(ps);
    let prod = ps[i].product.0;
    let (g, a) = ps[i].needs[k];
    lemma_product_nodes(ps);
    // The graph up to process `i`, and the step that adds its edges.
    let before = ps.take(i);
    let upto = ps.take(i + 1);
    let rest = ps.skip(i + 1);
    assert(upto.drop_last() =~= before);
    assert(upto.last() == ps[i]);
    let st_i = edges_fold(st0, before);
    let pix = first_index(st_i.nodes, prod);
    let st_i1 = edges_fold(st0, upto);
    assert(st_i1 == needs_fold(st_i, pix, ps[i].needs));
    lemma_needs_fold_extends(st_i, pix, ps[i].needs);
    assert(has_edge(st_i1, pix, g, a));
    lemma_edges_fold_extends(st0, before);
    lemma_edges_fold_split(st0, ps, i + 1);
    lemma_edges_fold_extends(st_i1, rest);
    assert(st == edges_fold(st_i1, rest));
    lemma_has_edge_extends(st_i1, st, pix, g, a);
    // The product's node index is the same in the final graph.
    lemma_first_index_extends(st0.nodes, st_i.nodes, prod);
    lemma_extends_trans(st0, st_i, st);
    lemma_first_index_extends(st0.nodes, st.nodes, prod);
    let ix = first_index(st.nodes, prod);
    lemma_first_index(st.nodes, prod);
    assert(st0.nodes.contains(prod));
    assert(st.nodes.contains(prod)) by {
        let q = choose|q: int| 0 <= q < st0.nodes.len() && st0.nodes[q] == prod;
        assert(st.nodes[q] == prod);
    }
    // The edge is listed for the product's node and names the ingredient.
    let t = choose|t: int|
        0 <= t < st.nodes.len() && st.nodes[t] == g && #[trigger] st.edges.contains((pix as usize, t as usize, a));
    let e = (pix as usize, t as usize, a);
    let ei = choose|ei: int| 0 <= ei < st.edges.len() && st.edges[ei] == e;
    st.edges.lemma_filter_contains(leaves(ix as usize), ei);
    let filt = st.edges.filter(leaves(ix as usize));
    let fi = choose|fi: int| 0 <= fi < filt.len() && filt[fi] == e;
    let oe = out_edges(st, ix as usize);
    assert(oe[filt.len() - 1 - fi] == e);
    let items = ingredient_items(st, ix as usize);
    assert(items[filt.len() - 1 - fi] == (st.nodes[t], a));
    assert(items.contains((g, a)));
    lemma_keyed_sums_covers(items, g, a);
    assert(dependencies_of(st, prod) == keyed_sums(items));
    let j = choose|j: int| 0 <= j < keyed_sums(items).len() && #[trigger] keyed_sums(items)[j].0 == g && keyed_sums(items)[j].1 >= a;
    assert(dependencies_of(st, prod)[j].0 == g);
}

proof fn lemma_edges_fold_split(st: GraphState, ps: Seq<ProcessView>, n: int)
    requires
        0 <= n <= ps.len(),
    ensures
        edges_fold(st, ps) == edges_fold(edges_fold(st, ps.take(n)), ps.skip(n)),
    decreases ps.len() - n,
{
    if n < ps.len() {
        lemma_edges_fold_split(st, ps.drop_last(), n);
        assert(ps.drop_last().take(n) =~= ps.take(n));
        assert(ps.skip(n).drop_last() =~= ps.drop_last().skip(n));
        assert(ps.skip(n).last() == ps.last());
    } else {
        assert(ps.take(n) =~= ps);
        assert(ps.skip(n) =~= Seq::<ProcessView>::empty());
    }
}


/// Every edge of the graph arrives at a node of the graph.
pub open spec fn targets_in_range(st: GraphState) -> bool {
    forall|k: int| 0 <= k < st.edges.len() ==> (#[trigger] st.edges[k]).1 < st.nodes.len()
}

proof fn lemma_keyed_sums_keys(items: Seq<(Seq<char>, u64)>)
    ensures
        forall|j: int|
            0 <= j < keyed_sums(items).len() ==> exists|i: int|
                0 <= i < items.len() && #[trigger] items[i].0 == #[trigger] keyed_sums(items)[j].0,
    decreases items.len(),
{
    if items.len() > 0 {
        let rest = items.drop_last();
        lemma_keyed_sums_keys(rest);
        lemma_keyed_sums_distinct(rest);
        let acc = keyed_sums(rest);
        lemma_add_amount(acc, items.last());
        let r = keyed_sums(items);
        assert forall|j: int| 0 <= j < r.len() implies exists|i: int|
            0 <= i < items.len() && #[trigger] items[i].0 == #[trigger] r[j].0 by {
            if j < acc.len() && r[j].0 == acc[j].0 {
                let i = choose|i: int| 0 <= i < rest.len() && #[trigger] rest[i].0 == #[trigger] acc[j].0;
                assert(items[i] == rest[i]);
            } else {
                let keys = keys_of(acc);
                if keys.contains(items.last().0) {
                    let f = first_index(keys, items.last().0);
                    lemma_first_index(keys, items.last().0);
                    assert(r == acc.update(f, (items.last().0, acc[f].1 + items.last().1 as nat)));
                    if j != f {
                        assert(r[j] == acc[j]);
                    }
                }
                assert(r[j].0 == items.last().0);
                assert(items[items.len() - 1].0 == r[j].0);
            }
        }
    }
}

/// The ingredients that `dependencies` lists for a good are nodes of the graph.
pub proof fn lemma_dependencies_are_nodes(st: GraphState, node: Seq<char>)
    requires
        targets_in_range(st),
    ensures
        forall|j: int|
            0 <= j < dependencies_of(st, node).len() ==> st.nodes.contains(#[trigger] dependencies_of(st, node)[j].0),
{
    if st.nodes.contains(node) {
        let ix = first_index(st.nodes, node) as usize;
        let items = ingredient_items(st, ix);
        lemma_keyed_sums_keys(items);
        lemma_out_edges(st, ix);
        assert forall|j: int| 0 <= j < dependencies_of(st, node).len() implies st.nodes.contains(
            #[trigger] dependencies_of(st, node)[j].0,
        ) by {
            let d = dependencies_of(st, node);
            let i = choose|i: int| 0 <= i < items.len() && #[trigger] items[i].0 == #[trigger] keyed_sums(items)[j].0;
            let e = out_edges(st, ix)[i];
            assert(st.edges.contains(e));
            let k = choose|k: int| 0 <= k < st.edges.len() && st.edges[k] == e;
            assert(e.1 < st.nodes.len());
            assert(items[i] == (st.nodes[e.1 as int], e.2));
        }
    }
}


// ---------------------------------------------------------------------------
// Topological walks
// ---------------------------------------------------------------------------

/// Both ends of every edge are nodes of the graph.
pub open spec fn edges_in_range(st: GraphState) -> bool {
    forall|k: int|
        0 <= k < st.edges.len() ==> (#[trigger] st.edges[k]).0 < st.nodes.len() && st.edges[k].1 < st.nodes.len()
}

/// Every edge leads from a lower to a higher rank.
pub open spec fn ranks(st: GraphState, rank: spec_fn(usize) -> nat) -> bool {
    forall|e: int| 0 <= e < st.edges.len() ==> rank((#[trigger] st.edges[e]).0) < rank(st.edges[e].1)
}

/// The graph has no directed cycle: its nodes can be ranked so that every edge leads
/// to a higher rank.
pub open spec fn acyclic(st: GraphState) -> bool {
    exists|rank: spec_fn(usize) -> nat| #[trigger] ranks(st, rank)
}

/// `order` is a topological walk of the graph (what `Topo` returns for it).
pub open spec fn walks(st: GraphState, order: Seq<usize>) -> bool {
    is_topo_walk(st.nodes.len(), st.edges, order)
}

proof fn lemma_walk_reaches(st: GraphState, order: Seq<usize>, rank: spec_fn(usize) -> nat, v: usize)
    requires
        edges_in_range(st),
        walks(st, order),
        ranks(st, rank),
        v < st.nodes.len(),
    ensures
        order.contains(v),
    decreases rank(v),
{
    assert forall|e: int| 0 <= e < st.edges.len() && st.edges[e].1 == v implies order.contains(st.edges[e].0) by {
        let w = st.edges[e].0;
        assert(rank(w) < rank(st.edges[e].1));
        lemma_walk_reaches(st, order, rank, w);
    }
}

/// On a graph without cycles, a topological walk returns every node, each once.
pub proof fn law_walk_of_acyclic_graph_is_complete(st: GraphState, order: Seq<usize>)
    requires
        edges_in_range(st),
        walks(st, order),
        acyclic(st),
    ensures
        order.no_duplicates(),
        forall|v: usize| v < st.nodes.len() ==> #[trigger] order.contains(v),
{
    let rank = choose|rank: spec_fn(usize) -> nat| #[trigger] ranks(st, rank);
    assert forall|v: usize| v < st.nodes.len() implies #[trigger] order.contains(v) by {
        lemma_walk_reaches(st, order, rank, v);
    }
}

/// Consecutive nodes of `p` are joined by an edge.
pub open spec fn is_path(st: GraphState, p: Seq<usize>) -> bool {
    forall|i: int|
        #![trigger p[i]]
        0 <= i < p.len() - 1 ==> exists|e: int|
            0 <= e < st.edges.len() && (#[trigger] st.edges[e]).0 == p[i] && st.edges[e].1 == p[i + 1]
}

/// Where `x` stands in `order`.
pub open spec fn position(order: Seq<usize>, x: usize) -> int {
    choose|k: int| 0 <= k < order.len() && order[k] == x
}

proof fn lemma_position(order: Seq<usize>, k: int)
    requires
        order.no_duplicates(),
        0 <= k < order.len(),
    ensures
        position(order, order[k]) == k,
{
    assert(order.contains(order[k]));
    let p = position(order, order[k]);
    assert(order[p] == order[k]);
}

proof fn lemma_path_in_walk(st: GraphState, order: Seq<usize>, p: Seq<usize>, i: int)
    requires
        walks(st, order),
        is_path(st, p),
        p.len() > 0,
        order.contains(p.last()),
        0 <= i < p.len(),
    ensures
        order.contains(p[i]),
        i < p.len() - 1 ==> position(order, p[i]) < position(order, p[i + 1]),
    decreases p.len() - i,
{
    if i < p.len() - 1 {
        lemma_path_in_walk(st, order, p, i + 1);
        let k = position(order, p[i + 1]);
        let e = choose|e: int|
            0 <= e < st.edges.len() && (#[trigger] st.edges[e]).0 == p[i] && st.edges[e].1 == p[i + 1];
        assert(st.edges[e].1 == order[k]);
        let j = choose|j: int| 0 <= j < k && order[j] == st.edges[e].0;
        lemma_position(order, j);
        assert(order.contains(p[i]));
    }
}

proof fn lemma_path_rises(st: GraphState, order: Seq<usize>, p: Seq<usize>, i: int, m: int)
    requires
        walks(st, order),
        is_path(st, p),
        p.len() > 0,
        order.contains(p.last()),
        0 <= i < m < p.len(),
    ensures
        position(order, p[i]) < position(order, p[m]),
    decreases m - i,
{
    lemma_path_in_walk(st, order, p, m - 1);
    if i < m - 1 {
        lemma_path_rises(st, order, p, i, m - 1);
    }
}

/// A topological walk returns no node on a cycle, nor any node that a cycle leads to:
/// the last node of a path whose first node comes back on it is never returned.
pub proof fn law_walk_skips_cycles(st: GraphState, order: Seq<usize>, p: Seq<usize>, j: int)
    requires
        walks(st, order),
        is_path(st, p),
        0 < j < p.len(),
        p[j] == p[0],
    ensures
        !order.contains(p.last()),
{
    if order.contains(p.last()) {
        lemma_path_rises(st, order, p, 0, j);
    }
}


/// `dependencies` and `dependents` list each good at most once, with its total.
pub proof fn law_dependency_names_distinct(st: GraphState, node: Seq<char>)
    ensures
        keys_of(dependencies_of(st, node)).no_duplicates(),
        keys_of(dependents_of(st, node)).no_duplicates(),
{
    if st.nodes.contains(node) {
        let ix = first_index(st.nodes, node) as usize;
        lemma_keyed_sums_distinct(ingredient_items(st, ix));
        lemma_keyed_sums_distinct(dependent_items(st, ix));
    } else {
        assert(keys_of(dependencies_of(st, node)) =~= Seq::<Seq<char>>::empty());
        assert(keys_of(dependents_of(st, node)) =~= Seq::<Seq<char>>::empty());
    }
}


// ---------------------------------------------------------------------------
// The shape of the graph
// ---------------------------------------------------------------------------

/// How many needs the processes list in all.
pub open spec fn total_needs(ps: Seq<ProcessView>) -> nat
    decreases ps.len(),
{
    if ps.len() == 0 {
        0
    } else {
        total_needs(ps.drop_last()) + ps.last().needs.len()
    }
}

/// Edge `e` goes from the product of a process to one of that process's needs, weighted
/// with the amount.
pub open spec fn edge_of_need(st: GraphState, ps: Seq<ProcessView>, e: int) -> bool {
    exists|i: int, k: int|
        0 <= i < ps.len() && 0 <= k < ps[i].needs.len() && ps[i].product.0 == st.nodes[st.edges[e].0 as int]
            && #[trigger] ps[i].needs[k] == (st.nodes[st.edges[e].1 as int], st.edges[e].2)
}

proof fn lemma_needs_fold_shape(st: GraphState, pix: int, needs: Seq<(Seq<char>, u64)>)
    requires
        st.nodes.no_duplicates(),
        needs_fold(st, pix, needs).nodes.len() <= graph_index_limit(),
    ensures
        ({
            let r = needs_fold(st, pix, needs);
            &&& extends(st, r)
            &&& r.nodes.no_duplicates()
            &&& r.edges.len() == st.edges.len() + needs.len()
            &&& forall|k: int|
                0 <= k < needs.len() ==> {
                    &&& (#[trigger] r.edges[st.edges.len() + k]).0 == pix as usize
                    &&& r.edges[st.edges.len() + k].1 < r.nodes.len()
                    &&& r.nodes[r.edges[st.edges.len() + k].1 as int] == needs[k].0
                    &&& r.edges[st.edges.len() + k].2 == needs[k].1
                }
            &&& forall|x: Seq<char>| #[trigger] r.nodes.contains(x) ==> st.nodes.contains(x) || exists|k: int|
                0 <= k < needs.len() && needs[k].0 == x
        }),
    decreases needs.len(),
{
    lemma_needs_fold_extends(st, pix, needs);
    if needs.len() > 0 {
        let rest = needs.drop_last();
        let st1 = needs_fold(st, pix, rest);
        let r = needs_fold(st, pix, needs);
        assert(r == need_step(st1, pix, needs.last()));
        assert(extends(st1, r));
        lemma_needs_fold_shape(st, pix, rest);
        let g = needs.last().0;
        lemma_ensure_node(st1.nodes, g);
        lemma_first_index(r.nodes, g);
        let n1 = st1.edges.len() as int;
        assert forall|k: int| 0 <= k < needs.len() implies {
            &&& (#[trigger] r.edges[st.edges.len() + k]).0 == pix as usize
            &&& r.edges[st.edges.len() + k].1 < r.nodes.len()
            &&& r.nodes[r.edges[st.edges.len() + k].1 as int] == needs[k].0
            &&& r.edges[st.edges.len() + k].2 == needs[k].1
        } by {
            if k < needs.len() - 1 {
                assert(rest[k] == needs[k]);
                assert(r.edges[st.edges.len() + k] == st1.edges[st.edges.len() + k]);
                let t = st1.edges[st.edges.len() + k].1 as int;
                assert(r.nodes[t] == st1.nodes[t]);
            } else {
                assert(st.edges.len() + k == n1);
            }
        }
        assert forall|x: Seq<char>| #[trigger] r.nodes.contains(x) implies st.nodes.contains(x) || exists|k: int|
            0 <= k < needs.len() && needs[k].0 == x by {
            if st1.nodes.contains(x) {
                if !st.nodes.contains(x) {
                    let k = choose|k: int| 0 <= k < rest.len() && rest[k].0 == x;
                    assert(needs[k] == rest[k]);
                }
            } else {
                let j = choose|j: int| 0 <= j < r.nodes.len() && r.nodes[j] == x;
                if j < st1.nodes.len() {
                    assert(st1.nodes.contains(x));
                }
                assert(x == g);
                assert(needs[needs.len() - 1].0 == x);
            }
        }
    }
}

proof fn lemma_edges_fold_shape(base: Seq<Seq<char>>, ps: Seq<ProcessView>)
    requires
        base.no_duplicates(),
        forall|i: int| 0 <= i < ps.len() ==> base.contains(#[trigger] ps[i].product.0),
        edges_fold(GraphState { nodes: base, edges: Seq::empty() }, ps).nodes.len() <= graph_index_limit(),
    ensures
        ({
            let st0 = GraphState { nodes: base, edges: Seq::empty() };
            let r = edges_fold(st0, ps);
            &&& extends(st0, r)
            &&& r.nodes.no_duplicates()
            &&& r.edges.len() == total_needs(ps)
            &&& edges_in_range(r)
            &&& forall|e: int| 0 <= e < r.edges.len() ==> #[trigger] edge_of_need(r, ps, e)
            &&& forall|x: Seq<char>| #[trigger] r.nodes.contains(x) ==> base.contains(x) || exists|i: int, k: int|
                0 <= i < ps.len() && 0 <= k < ps[i].needs.len() && ps[i].needs[k].0 == x
        }),
    decreases ps.len(),
{
    let st0 = GraphState { nodes: base, edges: Seq::empty() };
    if ps.len() == 0 {
        assert forall|x: Seq<char>| #[trigger] st0.nodes.contains(x) implies base.contains(x) by {}
    } else {
        let rest = ps.drop_last();
        let r1 = edges_fold(st0, rest);
        let r = edges_fold(st0, ps);
        let last = ps.last();
        let pix = first_index(r1.nodes, last.product.0);
        assert(r == needs_fold(r1, pix, last.needs));
        lemma_needs_fold_extends(r1, pix, last.needs);
        assert forall|i: int| 0 <= i < rest.len() implies base.contains(#[trigger] rest[i].product.0) by {
            assert(rest[i] == ps[i]);
        }
        lemma_edges_fold_extends(st0, rest);
        lemma_edges_fold_shape(base, rest);
        lemma_needs_fold_shape(r1, pix, last.needs);
        lemma_extends_trans(st0, r1, r);
        assert(base.contains(ps[ps.len() - 1].product.0));
        let q = choose|q: int| 0 <= q < base.len() && base[q] == last.product.0;
        assert(r1.nodes[q] == last.product.0);
        lemma_first_index(r1.nodes, last.product.0);
        assert(r1.nodes.contains(last.product.0));
        assert(0 <= pix < r1.nodes.len());
        assert(r1.nodes[pix] == last.product.0);
        assert(r.nodes[pix] == last.product.0);
        let n1 = r1.edges.len() as int;
        assert forall|e: int| 0 <= e < r.edges.len() implies #[trigger] edge_of_need(r, ps, e) && r.edges[e].0 < r.nodes.len()
            && r.edges[e].1 < r.nodes.len() by {
            if e < n1 {
                assert(r.edges[e] == r1.edges[e]);
                assert(edge_of_need(r1, rest, e));
                let (i, k) = choose|i: int, k: int|
                    0 <= i < rest.len() && 0 <= k < rest[i].needs.len() && rest[i].product.0 == r1.nodes[r1.edges[e].0 as int]
                        && #[trigger] rest[i].needs[k] == (r1.nodes[r1.edges[e].1 as int], r1.edges[e].2);
                assert(rest[i] == ps[i]);
                assert(r1.edges[e].0 < r1.nodes.len() && r1.edges[e].1 < r1.nodes.len());
                assert(r.nodes[r1.edges[e].0 as int] == r1.nodes[r1.edges[e].0 as int]);
                assert(r.nodes[r1.edges[e].1 as int] == r1.nodes[r1.edges[e].1 as int]);
            } else {
                let k = e - n1;
                assert(r.edges[r1.edges.len() + k].0 == pix as usize);
                assert(ps[ps.len() - 1].needs[k] == (r.nodes[r.edges[e].1 as int], r.edges[e].2));
            }
        }
        assert forall|e: int| 0 <= e < r.edges.len() implies (#[trigger] r.edges[e]).0 < r.nodes.len()
            && r.edges[e].1 < r.nodes.len() by {
            assert(edge_of_need(r, ps, e));
        }
        assert forall|x: Seq<char>| #[trigger] r.nodes.contains(x) implies base.contains(x) || exists|i: int, k: int|
            0 <= i < ps.len() && 0 <= k < ps[i].needs.len() && ps[i].needs[k].0 == x by {
            if r1.nodes.contains(x) {
                if !base.contains(x) {
                    let (i, k) = choose|i: int, k: int| 0 <= i < rest.len() && 0 <= k < rest[i].needs.len() && rest[i].needs[k].0 == x;
                    assert(rest[i] == ps[i]);
                }
            } else {
                let k = choose|k: int| 0 <= k < last.needs.len() && last.needs[k].0 == x;
                assert(ps[ps.len() - 1] == last);
            }
        }
    }
}

proof fn lemma_product_nodes_are_products(ps: Seq<ProcessView>)
    ensures
        forall|x: Seq<char>| #[trigger] product_nodes(ps).contains(x) ==> exists|i: int| 0 <= i < ps.len() && ps[i].product.0 == x,
    decreases ps.len(),
{
    if ps.len() > 0 {
        let rest = ps.drop_last();
        lemma_product_nodes_are_products(rest);
        assert forall|x: Seq<char>| #[trigger] product_nodes(ps).contains(x) implies exists|i: int|
            0 <= i < ps.len() && ps[i].product.0 == x by {
            let pn = product_nodes(rest);
            if pn.contains(x) {
                let i = choose|i: int| 0 <= i < rest.len() && rest[i].product.0 == x;
                assert(ps[i] == rest[i]);
            } else {
                let j = choose|j: int| 0 <= j < product_nodes(ps).len() && product_nodes(ps)[j] == x;
                if !pn.contains(ps.last().product.0) {
                    if j < pn.len() {
                        assert(product_nodes(ps)[j] == pn[j]);
                    }
                }
                assert(ps[ps.len() - 1].product.0 == x);
            }
        }
    }
}

/// The graph of `processes` (what `with_processes` builds; its `node_map` lists the
/// nodes with their indices): the nodes are the goods that the processes make or need,
/// each once, with the products first in order of first appearance; there is one edge
/// per need of a process, and each edge goes from a process's product to one of its
/// needs, weighted with the amount (and each need has its edge: see
/// `law_needs_are_dependencies`).
pub proof fn law_graph_shape(ps: Seq<ProcessView>)
    requires
        dependency_graph_of(ps).nodes.len() <= graph_index_limit(),
    ensures
        dependency_graph_of(ps).nodes.no_duplicates(),
        forall|x: Seq<char>|
            #[trigger] dependency_graph_of(ps).nodes.contains(x) <==> exists|i: int|
                0 <= i < ps.len() && (ps[i].product.0 == x || need_ids(ps[i]).contains(x)),
        forall|k: int|
            0 <= k < product_nodes(ps).len() ==> #[trigger] dependency_graph_of(ps).nodes[k] == product_nodes(ps)[k],
        dependency_graph_of(ps).edges.len() == total_needs(ps),
        edges_in_range(dependency_graph_of(ps)),
        forall|e: int|
            0 <= e < dependency_graph_of(ps).edges.len() ==> #[trigger] edge_of_need(dependency_graph_of(ps), ps, e),
{
    let base = product_nodes(ps);
    let st = dependency_graph_of(ps);
    lemma_product_nodes(ps);
    lemma_product_nodes_are_products(ps);
    lemma_edges_fold_shape(base, ps);
    assert forall|x: Seq<char>| #[trigger] st.nodes.contains(x) <==> exists|i: int|
        0 <= i < ps.len() && (ps[i].product.0 == x || need_ids(ps[i]).contains(x)) by {
        if st.nodes.contains(x) {
            if base.contains(x) {
                let i = choose|i: int| 0 <= i < ps.len() && ps[i].product.0 == x;
            } else {
                let (i, k) = choose|i: int, k: int| 0 <= i < ps.len() && 0 <= k < ps[i].needs.len() && ps[i].needs[k].0 == x;
                assert(need_ids(ps[i])[k] == x);
            }
        }
        if exists|i: int| 0 <= i < ps.len() && (ps[i].product.0 == x || need_ids(ps[i]).contains(x)) {
            let i = choose|i: int| 0 <= i < ps.len() && (ps[i].product.0 == x || need_ids(ps[i]).contains(x));
            if ps[i].product.0 == x {
                let q = choose|q: int| 0 <= q < base.len() && base[q] == x;
                assert(st.nodes[q] == x);
            } else {
                let k = choose|k: int| 0 <= k < need_ids(ps[i]).len() && need_ids(ps[i])[k] == x;
                law_needs_are_dependencies(ps, i, k);
                let prod = ps[i].product.0;
                assert(st.nodes.contains(prod)) by {
                    let q = choose|q: int| 0 <= q < base.len() && base[q] == prod;
                    assert(st.nodes[q] == prod);
                }
                let d = dependencies_of(st, prod);
                let j = choose|j: int| 0 <= j < d.len() && #[trigger] d[j].0 == ps[i].needs[k].0 && d[j].1 >= ps[i].needs[k].1;
                lemma_dependencies_are_nodes(st, prod);
                assert(st.nodes.contains(d[j].0));
            }
        }
    }
}


/// Every good that `dependents` lists for a node is a node of the graph.
pub proof fn law_dependents_are_nodes(st: GraphState, node: Seq<char>)
    requires
        edges_in_range(st),
    ensures
        forall|j: int|
            0 <= j < dependents_of(st, node).len() ==> st.nodes.contains(#[trigger] dependents_of(st, node)[j].0),
{
    if st.nodes.contains(node) {
        let ix = first_index(st.nodes, node) as usize;
        let items = dependent_items(st, ix);
        lemma_keyed_sums_keys(items);
        lemma_out_edges(st, ix);
        let oe = out_edges(st, ix);
        let fa = oe.filter(arrives(ix));
        assert forall|j: int| 0 <= j < dependents_of(st, node).len() implies st.nodes.contains(
            #[trigger] dependents_of(st, node)[j].0,
        ) by {
            let i = choose|i: int| 0 <= i < items.len() && #[trigger] items[i].0 == #[trigger] keyed_sums(items)[j].0;
            let e = fa[i];
            assert(fa.contains(e));
            oe.lemma_filter_contains_rev(arrives(ix), e);
            let m = choose|m: int| 0 <= m < oe.len() && oe[m] == e;
            assert(st.edges.contains(e));
            let k = choose|k: int| 0 <= k < st.edges.len() && st.edges[k] == e;
            assert(e.0 < st.nodes.len());
            assert(items[i] == (st.nodes[e.0 as int], e.2));
        }
    }
}


/// Every edge into a node of `s` comes from a node of `s` of lower rank.
pub open spec fn grounds(st: GraphState, s: Set<usize>, rank: spec_fn(usize) -> nat) -> bool {
    forall|e: int|
        0 <= e < st.edges.len() && s.contains((#[trigger] st.edges[e]).1) ==> s.contains(st.edges[e].0) && rank(
            st.edges[e].0,
        ) < rank(st.edges[e].1)
}

/// Node `v` lies neither on a cycle nor after one: it and its ancestors can be ranked so
/// that every edge among them leads up.
pub open spec fn grounded(st: GraphState, v: usize) -> bool {
    exists|s: Set<usize>, rank: spec_fn(usize) -> nat| #[trigger] grounds(st, s, rank) && s.contains(v)
}

proof fn lemma_walk_reaches_grounded(
    st: GraphState,
    order: Seq<usize>,
    s: Set<usize>,
    rank: spec_fn(usize) -> nat,
    v: usize,
)
    requires
        edges_in_range(st),
        walks(st, order),
        grounds(st, s, rank),
        s.contains(v),
        v < st.nodes.len(),
    ensures
        order.contains(v),
    decreases rank(v),
{
    assert forall|e: int| 0 <= e < st.edges.len() && st.edges[e].1 == v implies order.contains(st.edges[e].0) by {
        let w = st.edges[e].0;
        lemma_walk_reaches_grounded(st, order, s, rank, w);
    }
}

/// A topological walk returns every node that lies neither on a cycle nor after one.
pub proof fn law_walk_reaches_grounded_nodes(st: GraphState, order: Seq<usize>, v: usize)
    requires
        edges_in_range(st),
        walks(st, order),
        v < st.nodes.len(),
        grounded(st, v),
    ensures
        order.contains(v),
{
    let (s, rank) = choose|s: Set<usize>, rank: spec_fn(usize) -> nat| #[trigger] grounds(st, s, rank) && s.contains(v);
    lemma_walk_reaches_grounded(st, order, s, rank, v);
}


/// Each edge as (source name, target name, weight), in the order added.
pub open spec fn edge_triples(st: GraphState) -> Seq<(Seq<char>, Seq<char>, u64)> {
    st.edges.map_values(|e: (usize, usize, u64)| (st.nodes[e.0 as int], st.nodes[e.1 as int], e.2))
}

/// Each need of each process as (product, ingredient, amount), process by process.
pub open spec fn need_triples(ps: Seq<ProcessView>) -> Seq<(Seq<char>, Seq<char>, u64)>
    decreases ps.len(),
{
    if ps.len() == 0 {
        Seq::empty()
    } else {
        need_triples(ps.drop_last()) + ps.last().needs.map_values(
            |n: (Seq<char>, u64)| (ps.last().product.0, n.0, n.1),
        )
    }
}

proof fn lemma_edges_fold_triples(base: Seq<Seq<char>>, ps: Seq<ProcessView>)
    requires
        base.no_duplicates(),
        forall|i: int| 0 <= i < ps.len() ==> base.contains(#[trigger] ps[i].product.0),
        edges_fold(GraphState { nodes: base, edges: Seq::empty() }, ps).nodes.len() <= graph_index_limit(),
    ensures
        edge_triples(edges_fold(GraphState { nodes: base, edges: Seq::empty() }, ps)) == need_triples(ps),
    decreases ps.len(),
{
    let st0 = GraphState { nodes: base, edges: Seq::empty() };
    lemma_edges_fold_shape(base, ps);
    if ps.len() == 0 {
        assert(edge_triples(st0) =~= Seq::<(Seq<char>, Seq<char>, u64)>::empty());
    } else {
        let rest = ps.drop_last();
        let r1 = edges_fold(st0, rest);
        let r = edges_fold(st0, ps);
        let last = ps.last();
        let pix = first_index(r1.nodes, last.product.0);
        assert(r == needs_fold(r1, pix, last.needs));
        lemma_needs_fold_extends(r1, pix, last.needs);
        assert forall|i: int| 0 <= i < rest.len() implies base.contains(#[trigger] rest[i].product.0) by {
            assert(rest[i] == ps[i]);
        }
        lemma_edges_fold_extends(st0, rest);
        lemma_edges_fold_shape(base, rest);
        lemma_edges_fold_triples(base, rest);
        lemma_needs_fold_shape(r1, pix, last.needs);
        assert(base.contains(ps[ps.len() - 1].product.0));
        let q = choose|q: int| 0 <= q < base.len() && base[q] == last.product.0;
        assert(r1.nodes[q] == last.product.0);
        lemma_first_index(r1.nodes, last.product.0);
        assert(r1.nodes[pix] == last.product.0);
        assert(r.nodes[pix] == last.product.0);
        let n1 = r1.edges.len() as int;
        let added = last.needs.map_values(|n: (Seq<char>, u64)| (last.product.0, n.0, n.1));
        assert forall|e: int| 0 <= e < r.edges.len() implies #[trigger] edge_triples(r)[e] == (need_triples(rest)
            + added)[e] by {
            if e < n1 {
                assert(r.edges[e] == r1.edges[e]);
                assert(r1.edges[e].0 < r1.nodes.len() && r1.edges[e].1 < r1.nodes.len());
                assert(r.nodes[r1.edges[e].0 as int] == r1.nodes[r1.edges[e].0 as int]);
                assert(r.nodes[r1.edges[e].1 as int] == r1.nodes[r1.edges[e].1 as int]);
                assert(edge_triples(r1)[e] == need_triples(rest)[e]);
            } else {
                let k = e - n1;
                assert(r.edges[r1.edges.len() + k].0 == pix as usize);
            }
        }
        assert(edge_triples(r) =~= need_triples(rest) + added);
    }
}

/// The edges of the graph of `processes` are its needs: listed as (product, ingredient,
/// amount), the edges are exactly the needs of the processes, process by process and in
/// recipe order, so as multisets too.
pub proof fn law_edges_are_needs(ps: Seq<ProcessView>)
    requires
        dependency_graph_of(ps).nodes.len() <= graph_index_limit(),
    ensures
        edge_triples(dependency_graph_of(ps)) == need_triples(ps),
        edge_triples(dependency_graph_of(ps)).to_multiset() == need_triples(ps).to_multiset(),
{
    lemma_product_nodes(ps);
    lemma_edges_fold_triples(product_nodes(ps), ps);
}


/// The total amount that `items` give for the name `t`.
pub open spec fn total_of(items: Seq<(Seq<char>, u64)>, t: Seq<char>) -> nat
    decreases items.len(),
{
    if items.len() == 0 {
        0
    } else {
        total_of(items.drop_last(), t) + if items.last().0 == t {
            items.last().1 as nat
        } else {
            0
        }
    }
}

proof fn lemma_total_of_absent(items: Seq<(Seq<char>, u64)>, t: Seq<char>)
    requires
        forall|i: int| 0 <= i < items.len() ==> #[trigger] items[i].0 != t,
    ensures
        total_of(items, t) == 0,
    decreases items.len(),
{
    if items.len() > 0 {
        let rest = items.drop_last();
        assert forall|i: int| 0 <= i < rest.len() implies #[trigger] rest[i].0 != t by {
            assert(rest[i] == items[i]);
        }
        lemma_total_of_absent(rest, t);
        assert(items[items.len() - 1].0 != t);
    }
}

proof fn lemma_push_contains(s: Seq<Seq<char>>, x: Seq<char>, t: Seq<char>)
    ensures
        s.push(x).contains(t) <==> s.contains(t) || t == x,
{
    if s.push(x).contains(t) {
        let k = choose|k: int| 0 <= k < s.len() + 1 && s.push(x)[k] == t;
        if k < s.len() {
            assert(s[k] == t);
        }
    }
    if s.contains(t) {
        let k = choose|k: int| 0 <= k < s.len() && s[k] == t;
        assert(s.push(x)[k] == t);
    }
    if t == x {
        assert(s.push(x)[s.len() as int] == t);
    }
}

proof fn lemma_keyed_sums_totals(items: Seq<(Seq<char>, u64)>)
    ensures
        forall|j: int| 0 <= j < keyed_sums(items).len() ==> #[trigger] keyed_sums(items)[j].1 == total_of(items, keyed_sums(items)[j].0),
        forall|t: Seq<char>| #[trigger] keys_of(keyed_sums(items)).contains(t) <==> item_names(items).contains(t),
    decreases items.len(),
{
    if items.len() == 0 {
        assert(item_names(items) =~= Seq::<Seq<char>>::empty());
        assert(keys_of(keyed_sums(items)) =~= Seq::<Seq<char>>::empty());
    } else {
        let rest = items.drop_last();
        let last = items.last();
        lemma_keyed_sums_totals(rest);
        lemma_keyed_sums_distinct(rest);
        let acc = keyed_sums(rest);
        let keys = keys_of(acc);
        lemma_add_amount(acc, last);
        lemma_first_index(keys, last.0);
        let r = keyed_sums(items);
        assert(item_names(items) =~= item_names(rest).push(last.0));
        assert forall|t: Seq<char>| #[trigger] keys_of(r).contains(t) <==> item_names(items).contains(t) by {
            lemma_push_contains(item_names(rest), last.0, t);
            if keys.contains(last.0) {
                assert(keys_of(r) =~= keys);
            } else {
                assert(keys_of(r) =~= keys.push(last.0));
                lemma_push_contains(keys, last.0, t);
            }
        }
        assert forall|j: int| 0 <= j < r.len() implies #[trigger] r[j].1 == total_of(items, r[j].0) by {
            if keys.contains(last.0) {
                let f = first_index(keys, last.0);
                if j == f {
                    assert(keys[f] == last.0);
                } else {
                    assert(r[j] == acc[j]);
                    assert(keys[j] != keys[f]);
                }
            } else {
                if j < acc.len() {
                    assert(r[j] == acc[j]);
                    assert(keys[j] == acc[j].0);
                } else {
                    assert forall|i: int| 0 <= i < rest.len() implies #[trigger] rest[i].0 != last.0 by {
                        if rest[i].0 == last.0 {
                            assert(item_names(rest)[i] == last.0);
                            assert(item_names(rest).contains(last.0));
                        }
                    }
                    lemma_total_of_absent(rest, last.0);
                }
            }
        }
    }
}

/// The names of `items`.
pub open spec fn item_names(items: Seq<(Seq<char>, u64)>) -> Seq<Seq<char>> {
    items.map_values(|e: (Seq<char>, u64)| e.0)
}

/// `dependencies` lists a good `t` with the amount `w` exactly when some edge leaving
/// the node goes to `t` (the edges being listed by `ingredient_items`), and then `w` is
/// the sum of the weights of those edges.
pub proof fn law_dependencies_are_edge_totals(st: GraphState, node: Seq<char>, t: Seq<char>, w: nat)
    requires
        st.nodes.contains(node),
    ensures
        dependencies_of(st, node).contains((t, w)) <==> item_names(
            ingredient_items(st, first_index(st.nodes, node) as usize),
        ).contains(t) && w == total_of(ingredient_items(st, first_index(st.nodes, node) as usize), t),
{
    let items = ingredient_items(st, first_index(st.nodes, node) as usize);
    let d = keyed_sums(items);
    assert(dependencies_of(st, node) == d);
    lemma_keyed_sums_totals(items);
    if d.contains((t, w)) {
        let j = choose|j: int| 0 <= j < d.len() && d[j] == (t, w);
        assert(keys_of(d)[j] == t);
        assert(keys_of(d).contains(t));
        assert(d[j].1 == total_of(items, d[j].0));
    }
    if item_names(items).contains(t) && w == total_of(items, t) {
        assert(keys_of(d).contains(t));
        let j = choose|j: int| 0 <= j < keys_of(d).len() && keys_of(d)[j] == t;
        assert(d[j].1 == total_of(items, d[j].0));
        assert(d[j] == (t, w));
        assert(d.contains((t, w)));
    }
}

} // verus!
