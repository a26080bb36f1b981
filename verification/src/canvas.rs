//! The topology that the graph view draws: nodes and the links between them, kept in a
//! petgraph `StableGraph` whose node weights are node handles and whose edge weights
//! are link handles, together with the lookup tables from handles to indices.
use std::collections::{HashMap, HashSet};
use petgraph::stable_graph::{EdgeIndex, NodeIndex, StableGraph};
use petgraph::visit::{Bfs, EdgeRef, IntoEdgeReferences, Reversed, Walker};
use vstd::prelude::*;

verus! {

broadcast use vstd::std_specs::hash::group_hash_axioms;

#[verifier::external_type_specification]
#[verifier::external_body]
#[verifier::reject_recursive_types(N)]
#[verifier::reject_recursive_types(E)]
#[verifier::reject_recursive_types(Ty)]
#[verifier::reject_recursive_types(Ix)]
pub struct ExStableGraph<N, E, Ty, Ix>(StableGraph<N, E, Ty, Ix>);

#[verifier::external_type_specification]
#[verifier::external_body]
pub struct ExDirected(petgraph::Directed);

/// The nodes of a graph: node index to node weight.
pub uninterp spec fn graph_nodes(g: StableGraph<usize, usize>) -> Map<u32, usize>;

/// The edges of a graph: edge index to (source index, target index, edge weight).
pub uninterp spec fn graph_edges(g: StableGraph<usize, usize>) -> Map<u32, (u32, u32, usize)>;

/// The largest count of nodes, or of edges, that the graph can hold: the index
/// `u32::MAX` marks the end of its lists.
pub open spec fn index_limit() -> nat {
    0xFFFF_FFFFnat
}

/// `StableGraph::new`: a graph without nodes or edges.
#[verifier::external_body]
fn sg_new() -> (g: StableGraph<usize, usize>)
    ensures
        graph_nodes(g).dom() == Set::<u32>::empty(),
        graph_edges(g).dom() == Set::<u32>::empty(),
{
    StableGraph::new()
}

/// `StableGraph::add_node`: adds a node under an index that no node of the graph
/// holds, leaving the edges alone. It panics only when the graph holds
/// `u32::MAX` nodes, which `requires` leaves out.
#[verifier::external_body]
fn sg_add_node(g: &mut StableGraph<usize, usize>, weight: usize) -> (i: u32)
    requires
        graph_nodes(*old(g)).len() < index_limit(),
    ensures
        !graph_nodes(*old(g)).contains_key(i),
        graph_nodes(*final(g)) == graph_nodes(*old(g)).insert(i, weight),
        graph_edges(*final(g)) == graph_edges(*old(g)),
{
    g.add_node(weight).index() as u32
}

/// `StableGraph::add_edge`: adds an edge from `a` to `b` under an index that no
/// edge holds. It panics when a node is missing or the graph holds `u32::MAX`
/// edges, which `requires` leaves out.
#[verifier::external_body]
fn sg_add_edge(g: &mut StableGraph<usize, usize>, a: u32, b: u32, weight: usize) -> (e: u32)
    requires
        graph_nodes(*old(g)).contains_key(a),
        graph_nodes(*old(g)).contains_key(b),
        graph_edges(*old(g)).len() < index_limit(),
    ensures
        !graph_edges(*old(g)).contains_key(e),
        graph_edges(*final(g)) == graph_edges(*old(g)).insert(e, (a, b, weight)),
        graph_nodes(*final(g)) == graph_nodes(*old(g)),
{
    g.add_edge(NodeIndex::new(a as usize), NodeIndex::new(b as usize), weight).index() as u32
}

/// `StableGraph::remove_edge`: removes the edge under `e` and gives its weight,
/// or gives `None` when there is no such edge.
#[verifier::external_body]
fn sg_remove_edge(g: &mut StableGraph<usize, usize>, e: u32) -> (r: Option<usize>)
    ensures
        r == (if graph_edges(*old(g)).contains_key(e) { Some(graph_edges(*old(g))[e].2) } else { None }),
        graph_edges(*final(g)) == graph_edges(*old(g)).remove(e),
        graph_nodes(*final(g)) == graph_nodes(*old(g)),
{
    g.remove_edge(EdgeIndex::new(e as usize))
}

/// The edges of `edges` that do not touch the node `n`.
pub open spec fn edges_without_node(edges: Map<u32, (u32, u32, usize)>, n: u32) -> Map<u32, (u32, u32, usize)> {
    edges.restrict(edges.dom().filter(|e: u32| edges[e].0 != n && edges[e].1 != n))
}

/// The edge `edge` leaves or enters the node index `i`.
pub open spec fn touches(edge: (u32, u32, usize), i: u32) -> bool {
    edge.0 == i || edge.1 == i
}

/// The links among the first `k` entries of `list` whose edge touches the node index
/// `i` and is the edge that `lookup` finds for them.
pub open spec fn links_gone(lookup: Map<usize, u32>, list: Seq<(u32, u32, u32, usize)>, i: u32, k: int) -> Set<usize> {
    Set::new(|l: usize| lookup.contains_key(l) && exists|j: int| 0 <= j < k && #[trigger] list[j].0 == lookup[l]
        && (list[j].1 == i || list[j].2 == i))
}

/// `StableGraph::remove_node`: removes the node under `n` with every edge from or
/// to it, and gives its weight; gives `None` and changes nothing when there is no
/// such node.
#[verifier::external_body]
fn sg_remove_node(g: &mut StableGraph<usize, usize>, n: u32) -> (r: Option<usize>)
    ensures
        r == (if graph_nodes(*old(g)).contains_key(n) { Some(graph_nodes(*old(g))[n]) } else { None }),
        graph_nodes(*final(g)) == graph_nodes(*old(g)).remove(n),
        graph_nodes(*old(g)).contains_key(n) ==> graph_edges(*final(g)) == edges_without_node(
            graph_edges(*old(g)),
            n,
        ),
        !graph_nodes(*old(g)).contains_key(n) ==> graph_edges(*final(g)) == graph_edges(*old(g)),
{
    g.remove_node(NodeIndex::new(n as usize))
}

/// `StableGraph::clear`: removes all nodes and edges.
#[verifier::external_body]
fn sg_clear(g: &mut StableGraph<usize, usize>)
    ensures
        graph_nodes(*final(g)).dom() == Set::<u32>::empty(),
        graph_edges(*final(g)).dom() == Set::<u32>::empty(),
{
    g.clear()
}

/// `StableGraph::node_count`: the number of nodes.
#[verifier::external_body]
fn sg_node_count(g: &StableGraph<usize, usize>) -> (n: usize)
    ensures
        n == graph_nodes(*g).len(),
{
    g.node_count()
}

/// `StableGraph::edge_count`: the number of edges.
#[verifier::external_body]
fn sg_edge_count(g: &StableGraph<usize, usize>) -> (n: usize)
    ensures
        n == graph_edges(*g).len(),
{
    g.edge_count()
}

/// `StableGraph::edge_references`, each edge handed out as (index, source, target,
/// weight): every edge once, in increasing order of index.
#[verifier::external_body]
fn sg_edge_list(g: &StableGraph<usize, usize>) -> (r: Vec<(u32, u32, u32, usize)>)
    ensures
        forall|i: int, j: int| 0 <= i < j < r@.len() ==> r@[i].0 < r@[j].0,
        forall|i: int| 0 <= i < r@.len() ==> #[trigger] graph_edges(*g).contains_key(r@[i].0)
            && graph_edges(*g)[r@[i].0] == (r@[i].1, r@[i].2, r@[i].3),
        forall|e: u32| #[trigger] graph_edges(*g).contains_key(e) ==> exists|i: int| 0 <= i < r@.len() && r@[i].0 == e,
{
    g.edge_references().map(|e| (e.id().index() as u32, e.source().index() as u32, e.target().index() as u32, *e.weight())).collect()
}

/// There is an edge from `a` to `b`.
pub open spec fn has_edge(edges: Map<u32, (u32, u32, usize)>, a: u32, b: u32) -> bool {
    exists|e: u32| #[trigger] edges.contains_key(e) && edges[e].0 == a && edges[e].1 == b
}

/// `p` walks along edges.
pub open spec fn is_walk(edges: Map<u32, (u32, u32, usize)>, p: Seq<u32>) -> bool {
    forall|i: int| 0 <= i < p.len() - 1 ==> has_edge(edges, #[trigger] p[i], p[i + 1])
}

/// `b` can be reached from `a` by following edges forward (every node reaches itself).
pub open spec fn reachable(edges: Map<u32, (u32, u32, usize)>, a: u32, b: u32) -> bool {
    exists|p: Seq<u32>| p.len() >= 1 && p[0] == a && p[p.len() - 1] == b && #[trigger] is_walk(edges, p)
}

/// petgraph's `Bfs` from `start`, walking edges forward: every node that `start`
/// reaches, each once.
#[verifier::external_body]
fn sg_bfs(g: &StableGraph<usize, usize>, start: u32) -> (r: Vec<u32>)
    requires
        graph_nodes(*g).contains_key(start),
    ensures
        r@.no_duplicates(),
        forall|n: u32| r@.contains(n) == (graph_nodes(*g).contains_key(n) && reachable(graph_edges(*g), start, n)),
{
    Bfs::new(g, NodeIndex::new(start as usize)).iter(g).map(|n| n.index() as u32).collect()
}

/// petgraph's `Bfs` from `start` over `Reversed` of the graph, walking edges
/// backward: every node that reaches `start`, each once.
#[verifier::external_body]
fn sg_bfs_reversed(g: &StableGraph<usize, usize>, start: u32) -> (r: Vec<u32>)
    requires
        graph_nodes(*g).contains_key(start),
    ensures
        r@.no_duplicates(),
        forall|n: u32| r@.contains(n) == (graph_nodes(*g).contains_key(n) && reachable(graph_edges(*g), n, start)),
{
    let rev = Reversed(g);
    Bfs::new(rev, NodeIndex::new(start as usize)).iter(rev).map(|n| n.index() as u32).collect()
}

/// The highlighted part of the canvas: node indices and edge indices.
pub struct Highlight {
    pub nodes: HashSet<u32>,
    pub edges: HashSet<u32>,
}

impl Highlight {
    /// Nothing highlighted.
    pub fn new() -> (h: Self)
        ensures
            h.nodes@ == Set::<u32>::empty(),
            h.edges@ == Set::<u32>::empty(),
    {
        Highlight { nodes: HashSet::new(), edges: HashSet::new() }
    }
}

/// The drawn graph: petgraph's graph of node handles and link handles, and the
/// tables that find the index of a node and of a link.
pub struct Canvas {
    graph: StableGraph<usize, usize>,
    node_to_index: HashMap<usize, u32>,
    link_to_index: HashMap<usize, u32>,
}

impl Canvas {
    /// Node index to node handle.
    pub closed spec fn nodes(&self) -> Map<u32, usize> {
        graph_nodes(self.graph)
    }

    /// Edge index to (source index, target index, link handle).
    pub closed spec fn edges(&self) -> Map<u32, (u32, u32, usize)> {
        graph_edges(self.graph)
    }

    /// Node handle to node index.
    pub closed spec fn node_index(&self) -> Map<usize, u32> {
        self.node_to_index@
    }

    /// Link handle to edge index.
    pub closed spec fn link_index(&self) -> Map<usize, u32> {
        self.link_to_index@
    }

    /// The lookup of nodes finds live nodes, each under its own index, every edge
    /// joins live nodes, and the lookup of links finds edges that carry those links.
    pub open spec fn wf(&self) -> bool {
        &&& forall|h: usize| #[trigger] self.node_index().contains_key(h) ==> self.nodes().contains_key(self.node_index()[h])
            && self.nodes()[self.node_index()[h]] == h
        &&& forall|l: usize| #[trigger] self.link_index().contains_key(l) ==> self.edges().contains_key(self.link_index()[l])
            && self.edges()[self.link_index()[l]].2 == l
        &&& forall|e: u32| #[trigger] self.edges().contains_key(e) ==> self.nodes().contains_key(self.edges()[e].0)
            && self.nodes().contains_key(self.edges()[e].1)
        &&& forall|i: u32| #[trigger] self.nodes().contains_key(i) ==> self.node_index().contains_key(self.nodes()[i])
            && self.node_index()[self.nodes()[i]] == i
        &&& self.nodes().dom().finite()
        &&& self.edges().dom().finite()
    }

    /// Taking a node off the canvas keeps it finite and never makes it larger.
    pub proof fn lemma_node_removed_shrinks(a: Self, b: Self, h: usize)
        requires
            a.wf(),
            Self::node_removed(a, b, h),
        ensures
            b.nodes().dom().finite(),
            b.edges().dom().finite(),
            b.nodes().len() <= a.nodes().len(),
            b.edges().len() <= a.edges().len(),
    {
        if a.has_node(h) {
            let i = a.node_index()[h];
            vstd::set_lib::lemma_len_subset(b.nodes().dom(), a.nodes().dom());
            vstd::set_lib::lemma_len_subset(b.edges().dom(), a.edges().dom());
        }
    }

    /// Forgetting a link keeps the canvas finite and never makes it larger.
    pub proof fn lemma_link_removed_shrinks(a: Self, b: Self, link: usize)
        requires
            a.wf(),
            Self::link_removed(a, b, link),
        ensures
            b.nodes().dom().finite(),
            b.edges().dom().finite(),
            b.nodes().len() == a.nodes().len(),
            b.edges().len() <= a.edges().len(),
    {
        vstd::set_lib::lemma_len_subset(b.edges().dom(), a.edges().dom());
    }

    /// `b` is `a` with the node `h`, not on `a`, put under a fresh index.
    pub open spec fn node_added(a: Self, b: Self, h: usize) -> bool {
        &&& exists|i: u32| {
            &&& !a.nodes().contains_key(i)
            &&& b.nodes() == a.nodes().insert(i, h)
            &&& #[trigger] b.node_index() == a.node_index().insert(h, i)
        }
        &&& b.edges() == a.edges()
        &&& b.link_index() == a.link_index()
    }

    /// The links whose edge, as the lookup finds it, touches the node index `i`.
    pub open spec fn links_at(&self, i: u32) -> Set<usize> {
        Set::new(|l: usize| self.link_index().contains_key(l) && touches(self.edges()[self.link_index()[l]], i))
    }

    /// `b` is `a` with the node `h` taken off with every edge that touches it, and the
    /// lookup forgets the links of those edges. Nothing changes when `h` is not on `a`.
    pub open spec fn node_removed(a: Self, b: Self, h: usize) -> bool {
        &&& !a.has_node(h) ==> b == a
        &&& a.has_node(h) ==> {
            let i = a.node_index()[h];
            &&& b.nodes() == a.nodes().remove(i)
            &&& b.edges() == edges_without_node(a.edges(), i)
            &&& b.node_index() == a.node_index().remove(h)
            &&& b.link_index() == a.link_index().remove_keys(a.links_at(i))
        }
    }

    /// `b` is `a` with the link `link` drawn from the node `out_node` to the node
    /// `in_node` under a fresh edge index, when both stand on `a`; otherwise `b` is `a`.
    pub open spec fn link_added(a: Self, b: Self, link: usize, out_node: Option<usize>, in_node: Option<usize>) -> bool {
        &&& b.nodes() == a.nodes()
        &&& b.node_index() == a.node_index()
        &&& (out_node matches Some(o) && in_node matches Some(i) && a.has_node(o) && a.has_node(i))
            ==> exists|e: u32| {
            &&& !a.edges().contains_key(e)
            &&& #[trigger] b.edges() == a.edges().insert(
                e,
                (a.node_index()[out_node.unwrap()], a.node_index()[in_node.unwrap()], link),
            )
            &&& b.link_index() == a.link_index().insert(link, e)
        }
        &&& !(out_node matches Some(o) && in_node matches Some(i) && a.has_node(o) && a.has_node(i)) ==> b == a
    }

    /// `b` is `a` with the link `link` forgotten by the lookup and the edge under its
    /// index removed, if the lookup knew it.
    pub open spec fn link_removed(a: Self, b: Self, link: usize) -> bool {
        &&& b.nodes() == a.nodes()
        &&& b.node_index() == a.node_index()
        &&& b.link_index() == a.link_index().remove(link)
        &&& b.edges() == (if a.link_index().contains_key(link) {
            a.edges().remove(a.link_index()[link])
        } else {
            a.edges()
        })
    }

    /// The node with handle `h` stands on the canvas.
    pub open spec fn has_node(&self, h: usize) -> bool {
        self.node_index().contains_key(h)
    }

    /// An empty canvas.
    pub fn new() -> (c: Self)
        ensures
            c.wf(),
            c.nodes() == Map::<u32, usize>::empty(),
            c.edges() == Map::<u32, (u32, u32, usize)>::empty(),
            c.node_index() == Map::<usize, u32>::empty(),
            c.link_index() == Map::<usize, u32>::empty(),
    {
        Canvas { graph: sg_new(), node_to_index: HashMap::new(), link_to_index: HashMap::new() }
    }

    /// The number of nodes the graph can still take before reaching its limit.
    pub fn node_count_below_limit(&self) -> (r: bool)
        ensures
            r == (self.nodes().len() < index_limit()),
    {
        sg_node_count(&self.graph) < 0xFFFF_FFFF
    }

    /// Whether the graph can take `k` more nodes.
    pub fn node_count_below_limit_by(&self, k: usize) -> (r: bool)
        requires
            k <= 0xFFFF_FFFF,
        ensures
            r == (self.nodes().len() + k < index_limit() + 1),
    {
        let n = sg_node_count(&self.graph);
        (n as u64) < 0x1_0000_0000u64 - (k as u64)
    }

    /// Whether the graph can take `k` more edges.
    pub fn edge_count_below_limit_by(&self, k: usize) -> (r: bool)
        requires
            k <= 0xFFFF_FFFF,
        ensures
            r == (self.edges().len() + k < index_limit() + 1),
    {
        let n = sg_edge_count(&self.graph);
        (n as u64) < 0x1_0000_0000u64 - (k as u64)
    }

    /// Whether the node `h` stands on the canvas.
    pub fn has_node_exec(&self, h: usize) -> (r: bool)
        ensures
            r == self.has_node(h),
    {
        self.node_to_index.contains_key(&h)
    }

    /// Whether the graph can take one more edge.
    pub fn edge_count_below_limit(&self) -> (r: bool)
        ensures
            r == (self.edges().len() < index_limit()),
    {
        sg_edge_count(&self.graph) < 0xFFFF_FFFF
    }

    /// Put the node `h` on the canvas under a fresh index.
    pub fn add_node(&mut self, h: usize)
        requires
            old(self).wf(),
            old(self).nodes().len() < index_limit(),
            !old(self).has_node(h),
        ensures
            final(self).wf(),
            Self::node_added(*old(self), *final(self), h),
    {
        let ghost old_self = *self;
        let i = sg_add_node(&mut self.graph, h);
        self.node_to_index.insert(h, i);
        proof {
            assert forall|h2: usize| #[trigger] self.node_index().contains_key(h2) implies self.nodes().contains_key(
                self.node_index()[h2],
            ) && self.nodes()[self.node_index()[h2]] == h2 by {
                if h2 != h {
                    assert(old_self.node_index().contains_key(h2));
                }
            }
            assert forall|e: u32| #[trigger] self.edges().contains_key(e) implies self.nodes().contains_key(self.edges()[e].0)
                && self.nodes().contains_key(self.edges()[e].1) by {
                assert(old_self.edges().contains_key(e));
            }
            assert forall|j: u32| #[trigger] self.nodes().contains_key(j) implies self.node_index().contains_key(self.nodes()[j])
                && self.node_index()[self.nodes()[j]] == j by {
                if j != i {
                    assert(old_self.nodes().contains_key(j));
                }
            }
            assert(self.node_index() == old_self.node_index().insert(h, i));
            assert forall|l: usize| #[trigger] self.link_index().contains_key(l) implies self.edges().contains_key(self.link_index()[l])
                && self.edges()[self.link_index()[l]].2 == l by {
                assert(old_self.link_index().contains_key(l));
            }
        }
    }

    /// Take the node `h` off the canvas, with every edge that touches it, and forget
    /// the links of those edges.
    pub fn remove_node(&mut self, h: usize)
        requires
            old(self).wf(),
        ensures
            final(self).wf(),
            Self::node_removed(*old(self), *final(self), h),
    {
        let ghost old_self = *self;
        if !self.node_to_index.contains_key(&h) {
            return;
        }
        let index = match self.node_to_index.remove(&h) {
            Some(i) => i,
            None => {
                return;
            },
        };
        let list = sg_edge_list(&self.graph);
        let ghost lookup = old_self.link_index();
        let mut k: usize = 0;
        while k < list.len()
            invariant
                0 <= k <= list.len(),
                self.graph == old_self.graph,
                old_self.wf(),
                lookup == old_self.link_index(),
                self.node_to_index@ == old_self.node_index().remove(h),
                old_self.node_index().contains_key(h),
                old_self.node_index()[h] == index,
                forall|i: int, j: int| 0 <= i < j < list@.len() ==> list@[i].0 < list@[j].0,
                forall|i: int| 0 <= i < list@.len() ==> #[trigger] old_self.edges().contains_key(list@[i].0)
                    && old_self.edges()[list@[i].0] == (list@[i].1, list@[i].2, list@[i].3),
                self.link_to_index@ == lookup.remove_keys(links_gone(lookup, list@, index, k as int)),
            decreases list.len() - k,
        {
            let (e, src, tgt, l) = list[k];
            let ghost before = links_gone(lookup, list@, index, k as int);
            assert(old_self.edges().contains_key(list@[k as int].0));
            if (src == index || tgt == index) && self.link_to_index.get(&l) == Some(&e) {
                self.link_to_index.remove(&l);
                proof {
                    assert(links_gone(lookup, list@, index, k + 1) =~= before.insert(l)) by {
                        assert(lookup.contains_key(l) && list@[k as int].0 == lookup[l]);
                        assert(links_gone(lookup, list@, index, k + 1).contains(l));
                        assert forall|l2: usize| before.contains(l2)
                            implies links_gone(lookup, list@, index, k + 1).contains(l2) by {
                            let j = choose|j: int| 0 <= j < k && #[trigger] list@[j].0 == lookup[l2]
                                && (list@[j].1 == index || list@[j].2 == index);
                        }
                        assert forall|l2: usize| links_gone(lookup, list@, index, k + 1).contains(l2) && l2 != l
                            implies before.contains(l2) by {
                            let j = choose|j: int| 0 <= j < k + 1 && #[trigger] list@[j].0 == lookup[l2]
                                && (list@[j].1 == index || list@[j].2 == index);
                            if j == k {
                                assert(old_self.edges()[lookup[l2]].2 == l2);
                            }
                        }
                    }
                }
            } else {
                proof {
                    assert(links_gone(lookup, list@, index, k + 1) =~= before) by {
                        assert forall|l2: usize| before.contains(l2)
                            implies links_gone(lookup, list@, index, k + 1).contains(l2) by {
                            let j = choose|j: int| 0 <= j < k && #[trigger] list@[j].0 == lookup[l2]
                                && (list@[j].1 == index || list@[j].2 == index);
                        }
                        assert forall|l2: usize| links_gone(lookup, list@, index, k + 1).contains(l2)
                            implies before.contains(l2) by {
                            let j = choose|j: int| 0 <= j < k + 1 && #[trigger] list@[j].0 == lookup[l2]
                                && (list@[j].1 == index || list@[j].2 == index);
                            if j == k {
                                assert(old_self.edges()[lookup[l2]].2 == l2);
                                assert(l2 == l);
                                if before.contains(l2) {
                                    let j2 = choose|j2: int| 0 <= j2 < k && #[trigger] list@[j2].0 == lookup[l2]
                                        && (list@[j2].1 == index || list@[j2].2 == index);
                                    assert(list@[j2].0 < list@[k as int].0);
                                }
                                assert(!before.contains(l2));
                                assert(self.link_to_index@.contains_key(l2));
                            }
                        }
                    }
                }
            }
            k = k + 1;
        }
        proof {
            assert(links_gone(lookup, list@, index, list@.len() as int) =~= old_self.links_at(index)) by {
                assert forall|l: usize| #[trigger] old_self.links_at(index).contains(l)
                    implies links_gone(lookup, list@, index, list@.len() as int).contains(l) by {
                    let e = lookup[l];
                    assert(old_self.edges().contains_key(e));
                    let j = choose|j: int| 0 <= j < list@.len() && list@[j].0 == e;
                    assert(old_self.edges()[list@[j].0] == (list@[j].1, list@[j].2, list@[j].3));
                }
                assert forall|l: usize| #[trigger] links_gone(lookup, list@, index, list@.len() as int).contains(l)
                    implies old_self.links_at(index).contains(l) by {
                    let j = choose|j: int| 0 <= j < list@.len() && #[trigger] list@[j].0 == lookup[l]
                        && (list@[j].1 == index || list@[j].2 == index);
                    assert(old_self.edges()[list@[j].0] == (list@[j].1, list@[j].2, list@[j].3));
                }
            }
        }
        sg_remove_node(&mut self.graph, index);
        proof {
            vstd::set_lib::lemma_len_subset(self.edges().dom(), old_self.edges().dom());
            assert forall|e: u32| #[trigger] self.edges().contains_key(e) implies self.nodes().contains_key(self.edges()[e].0)
                && self.nodes().contains_key(self.edges()[e].1) by {
                assert(old_self.edges().contains_key(e));
            }
            assert forall|h2: usize| #[trigger] self.node_index().contains_key(h2) implies self.nodes().contains_key(
                self.node_index()[h2],
            ) && self.nodes()[self.node_index()[h2]] == h2 by {
                assert(old_self.node_index().contains_key(h2));
                assert(old_self.node_index().contains_key(h));
                assert(old_self.node_index()[h2] != index);
            }
            assert forall|j: u32| #[trigger] self.nodes().contains_key(j) implies self.node_index().contains_key(self.nodes()[j])
                && self.node_index()[self.nodes()[j]] == j by {
                assert(old_self.nodes().contains_key(j));
                assert(old_self.node_index()[old_self.nodes()[j]] == j);
            }
            assert forall|l: usize| #[trigger] self.link_index().contains_key(l) implies self.edges().contains_key(self.link_index()[l])
                && self.edges()[self.link_index()[l]].2 == l by {
                assert(old_self.link_index().contains_key(l));
                assert(!old_self.links_at(index).contains(l));
            }
        }
    }

    /// Draw the link `link` as an edge from the node `out_node` to the node
    /// `in_node`, when both stand on the canvas; otherwise change nothing.
    pub fn add_link(&mut self, link: usize, out_node: Option<usize>, in_node: Option<usize>)
        requires
            old(self).wf(),
            old(self).edges().len() < index_limit(),
        ensures
            final(self).wf(),
            Self::link_added(*old(self), *final(self), link, out_node, in_node),
    {
        let ghost old_self = *self;
        let Some(o) = out_node else { return };
        let Some(i) = in_node else { return };
        let Some(oi) = self.node_to_index.get(&o) else { return };
        let oi = *oi;
        let Some(ii) = self.node_to_index.get(&i) else { return };
        let ii = *ii;
        assert(self.node_index().contains_key(o) && self.node_index().contains_key(i));
        let e = sg_add_edge(&mut self.graph, oi, ii, link);
        self.link_to_index.insert(link, e);
        proof {
            assert forall|e2: u32| #[trigger] self.edges().contains_key(e2) implies self.nodes().contains_key(self.edges()[e2].0)
                && self.nodes().contains_key(self.edges()[e2].1) by {
                if e2 != e {
                    assert(old_self.edges().contains_key(e2));
                }
            }
            assert(self.edges() == old_self.edges().insert(e, (old_self.node_index()[o], old_self.node_index()[i], link)));
            assert forall|l: usize| #[trigger] self.link_index().contains_key(l) implies self.edges().contains_key(self.link_index()[l])
                && self.edges()[self.link_index()[l]].2 == l by {
                if l != link {
                    assert(old_self.link_index().contains_key(l));
                    assert(old_self.edges().contains_key(old_self.link_index()[l]));
                }
            }
        }
    }

    /// Stop drawing the link `link`: forget its edge index and remove the edge under
    /// that index, if the graph still holds one there.
    pub fn remove_link(&mut self, link: usize)
        requires
            old(self).wf(),
        ensures
            final(self).wf(),
            Self::link_removed(*old(self), *final(self), link),
    {
        let ghost old_self = *self;
        if let Some(index) = self.link_to_index.remove(&link) {
            sg_remove_edge(&mut self.graph, index);
        }
        proof {
            assert forall|h2: usize| #[trigger] self.node_index().contains_key(h2) implies self.nodes().contains_key(
                self.node_index()[h2],
            ) && self.nodes()[self.node_index()[h2]] == h2 by {
                assert(old_self.node_index().contains_key(h2));
            }
            assert forall|e2: u32| #[trigger] self.edges().contains_key(e2) implies self.nodes().contains_key(self.edges()[e2].0)
                && self.nodes().contains_key(self.edges()[e2].1) by {
                assert(old_self.edges().contains_key(e2));
            }
            assert forall|j: u32| #[trigger] self.nodes().contains_key(j) implies self.node_index().contains_key(self.nodes()[j])
                && self.node_index()[self.nodes()[j]] == j by {
                assert(old_self.nodes().contains_key(j));
            }
            assert forall|l: usize| #[trigger] self.link_index().contains_key(l) implies self.edges().contains_key(self.link_index()[l])
                && self.edges()[self.link_index()[l]].2 == l by {
                assert(old_self.link_index().contains_key(l));
                if old_self.link_index().contains_key(link) {
                    assert(old_self.edges()[old_self.link_index()[link]].2 == link);
                }
            }
        }
    }

    /// Remove every node and link.
    pub fn clear(&mut self)
        ensures
            final(self).wf(),
            final(self).nodes() == Map::<u32, usize>::empty(),
            final(self).edges() == Map::<u32, (u32, u32, usize)>::empty(),
            final(self).node_index() == Map::<usize, u32>::empty(),
            final(self).link_index() == Map::<usize, u32>::empty(),
    {
        sg_clear(&mut self.graph);
        self.node_to_index.clear();
        self.link_to_index.clear();
    }

    /// The number of drawn links.
    pub fn link_count(&self) -> (n: usize)
        ensures
            n == self.edges().len(),
    {
        sg_edge_count(&self.graph)
    }

    /// Every drawn edge as (index, source index, target index, link handle), each
    /// once, in increasing order of index.
    pub fn edge_list(&self) -> (r: Vec<(u32, u32, u32, usize)>)
        ensures
            forall|i: int, j: int| 0 <= i < j < r@.len() ==> r@[i].0 < r@[j].0,
            forall|i: int| 0 <= i < r@.len() ==> #[trigger] self.edges().contains_key(r@[i].0)
                && self.edges()[r@[i].0] == (r@[i].1, r@[i].2, r@[i].3),
            forall|e: u32| #[trigger] self.edges().contains_key(e) ==> exists|i: int| 0 <= i < r@.len() && r@[i].0 == e,
    {
        let r = sg_edge_list(&self.graph);
        assert forall|i: int| 0 <= i < r@.len() implies #[trigger] self.edges().contains_key(r@[i].0)
            && self.edges()[r@[i].0] == (r@[i].1, r@[i].2, r@[i].3) by {
            assert(graph_edges(self.graph).contains_key(r@[i].0));
        }
        r
    }

    /// The nodes that the pointer over the node at index `i` highlights: every node
    /// that `i` reaches along the links, and every node that reaches `i`.
    pub open spec fn path_nodes(&self, i: u32) -> Set<u32> {
        Set::new(|n: u32| self.nodes().contains_key(n) && (reachable(self.edges(), i, n) || reachable(self.edges(), n, i)))
    }

    /// The edges between two nodes of `set`.
    pub open spec fn edges_within(&self, set: Set<u32>) -> Set<u32> {
        self.edges().dom().filter(|e: u32| set.contains(self.edges()[e].0) && set.contains(self.edges()[e].1))
    }

    /// What the highlighting becomes when the pointer is over the node `node` (or over no
    /// node): unchanged when it is over a node that is highlighted already, or over no
    /// node while nothing is highlighted; otherwise the paths through that node, or
    /// nothing.
    pub open spec fn highlight_after(&self, nodes: Set<u32>, edges: Set<u32>, node: Option<usize>) -> (Set<u32>, Set<u32>, bool) {
        match node {
            Some(h) => if self.has_node(h) && nodes.contains(self.node_index()[h]) {
                (nodes, edges, false)
            } else if self.has_node(h) {
                let set = self.path_nodes(self.node_index()[h]);
                (set, self.edges_within(set), true)
            } else {
                (Set::<u32>::empty(), Set::<u32>::empty(), true)
            },
            None => if nodes == Set::<u32>::empty() {
                (nodes, edges, false)
            } else {
                (Set::<u32>::empty(), Set::<u32>::empty(), true)
            },
        }
    }

    /// Update the highlighting for the pointer over the node `node`, or over no node
    /// (see `highlight_after`); returns whether the canvas must be drawn again.
    pub fn update_highlighting(&self, hl: &mut Highlight, node: Option<usize>) -> (changed: bool)
        requires
            self.wf(),
        ensures
            (final(hl).nodes@, final(hl).edges@, changed) == self.highlight_after(old(hl).nodes@, old(hl).edges@, node),
    {
        if let Some(h) = node {
            if let Some(idx) = self.node_to_index.get(&h) {
                let idx = *idx;
                if !hl.nodes.is_empty() && hl.nodes.contains(&idx) {
                    return false;
                }
                let down = sg_bfs(&self.graph, idx);
                let up = sg_bfs_reversed(&self.graph, idx);
                let mut nodes: HashSet<u32> = HashSet::new();
                let mut k: usize = 0;
                while k < down.len()
                    invariant
                        k <= down@.len(),
                        nodes@ == down@.take(k as int).to_set(),
                    decreases down.len() - k,
                {
                    nodes.insert(down[k]);
                    proof {
                        down@.take(k as int).lemma_push_to_set_commute(down@[k as int]);
                        assert(down@.take(k as int + 1) =~= down@.take(k as int).push(down@[k as int]));
                    }
                    k = k + 1;
                }
                proof {
                    assert(down@.take(down@.len() as int) =~= down@);
                    assert(up@.take(0) =~= Seq::<u32>::empty());
                    assert(nodes@ =~= down@.to_set() + up@.take(0).to_set());
                }
                let mut k: usize = 0;
                while k < up.len()
                    invariant
                        k <= up@.len(),
                        nodes@ == down@.to_set() + up@.take(k as int).to_set(),
                    decreases up.len() - k,
                {
                    nodes.insert(up[k]);
                    proof {
                        up@.take(k as int).lemma_push_to_set_commute(up@[k as int]);
                        assert(up@.take(k as int + 1) =~= up@.take(k as int).push(up@[k as int]));
                    }
                    k = k + 1;
                }
                proof {
                    assert(down@.take(down@.len() as int) =~= down@);
                    assert(up@.take(up@.len() as int) =~= up@);
                    assert(nodes@ =~= self.path_nodes(idx));
                }
                let all = sg_edge_list(&self.graph);
                let mut edges: HashSet<u32> = HashSet::new();
                let mut k: usize = 0;
                while k < all.len()
                    invariant
                        k <= all@.len(),
                        nodes@ == self.path_nodes(idx),
                        forall|i: int| 0 <= i < all@.len() ==> #[trigger] self.edges().contains_key(all@[i].0)
                            && self.edges()[all@[i].0] == (all@[i].1, all@[i].2, all@[i].3),
                        forall|e: u32| #[trigger] edges@.contains(e) == (exists|i: int| 0 <= i < k && all@[i].0 == e
                            && nodes@.contains(all@[i].1) && nodes@.contains(all@[i].2)),
                    decreases all.len() - k,
                {
                    let (e, a, b, _) = all[k];
                    assert(self.edges().contains_key(all@[k as int].0));
                    if nodes.contains(&a) && nodes.contains(&b) {
                        edges.insert(e);
                    }
                    proof {
                        assert forall|x: u32| #[trigger] edges@.contains(x) == (exists|i: int| 0 <= i < k + 1 && all@[i].0 == x
                            && nodes@.contains(all@[i].1) && nodes@.contains(all@[i].2)) by {
                            if exists|i: int| 0 <= i < k + 1 && all@[i].0 == x && nodes@.contains(all@[i].1) && nodes@.contains(all@[i].2) {
                                let i = choose|i: int| 0 <= i < k + 1 && all@[i].0 == x && nodes@.contains(all@[i].1) && nodes@.contains(all@[i].2);
                                if i < k {
                                    assert(exists|j: int| 0 <= j < k && all@[j].0 == x && nodes@.contains(all@[j].1) && nodes@.contains(all@[j].2));
                                }
                            }
                        }
                    }
                    k = k + 1;
                }
                proof {
                    assert forall|e: u32| #[trigger] edges@.contains(e) == self.edges_within(self.path_nodes(idx)).contains(e) by {
                        if self.edges().contains_key(e) {
                            let i = choose|i: int| 0 <= i < all@.len() && all@[i].0 == e;
                            assert(self.edges().contains_key(all@[i].0));
                        }
                        if edges@.contains(e) {
                            let i = choose|i: int| 0 <= i < all@.len() && all@[i].0 == e
                                && nodes@.contains(all@[i].1) && nodes@.contains(all@[i].2);
                            assert(self.edges().contains_key(all@[i].0));
                        }
                    }
                    assert(edges@ =~= self.edges_within(self.path_nodes(idx)));
                }
                hl.nodes = nodes;
                hl.edges = edges;
                return true;
            }
            hl.nodes = HashSet::new();
            hl.edges = HashSet::new();
            return true;
        }
        if hl.nodes.is_empty() {
            return false;
        }
        hl.nodes = HashSet::new();
        hl.edges = HashSet::new();
        true
    }

    /// Highlight nothing; returns whether something was highlighted.
    pub fn clear_highlighting(hl: &mut Highlight) -> (changed: bool)
        ensures
            changed == (old(hl).nodes@ != Set::<u32>::empty()),
            changed ==> final(hl).nodes@ == Set::<u32>::empty() && final(hl).edges@ == Set::<u32>::empty(),
            !changed ==> *final(hl) == *old(hl),
    {
        if !hl.nodes.is_empty() {
            hl.nodes = HashSet::new();
            hl.edges = HashSet::new();
            true
        } else {
            false
        }
    }
}

} // verus!
