//! The graph manager: the model of everything the graph shows, kept up to date from
//! the messages of the PipeWire side, and the requests it sends back.
use std::collections::{HashMap, HashSet};
use vstd::prelude::*;
use crate::canvas::{index_limit, Canvas, Highlight};
use crate::collections::{keys_u32, keys_u64, make_pair_key, pair_key, NameMap};
use crate::layout::{column, grid_rows, key_lt, key_view, port_rows, sort_by_names, sort_ids};
use crate::matrix::{ids_of, MatrixData, PortInfo};
use crate::text::chars_of;
use crate::graph_items::{node_frame, online_in, port_node_id, ports_not_of, sub_node_added, subs_view, InternalLink, Link, Node, Port};
use crate::ids::{Direction, GtkMessage, LinkId, MediaType, NodeId, NodeType, PipewireMessage, PortDirection, PortId, PortMediaType};
use crate::naming::{common_name_spec, is_common_port_name, is_proxy_id, lemma_proxy_id_for_marked, lowercase, proxy_id_for, proxy_port_id};
use crate::ids::{direction_of, media_type_of, port_direction_of};
use crate::preset::{conn_view, ConnectionPreset, Preset};

verus! {

broadcast use vstd::std_specs::hash::group_hash_axioms;

/// What the graph keeps under a PipeWire id: a node, a port or a link, by handle.
#[derive(Debug, Clone, Copy, PartialEq, Eq, Structural)]
pub enum Entry {
    Node(usize),
    Port(usize),
    Link(usize),
}

/// The requests that a new port leads to: links to the ports that its master port
/// is linked to, ghost links made again, and waiting connections made.
pub struct PortRequests {
    pub master_links: Vec<GtkMessage>,
    pub restored_links: Vec<GtkMessage>,
    pub preset_links: Vec<GtkMessage>,
}

/// A change to the internal link that a node draws for a real link.
#[derive(Clone, Copy)]
pub enum InternalChange {
    Remove,
    State(bool),
    Format(MediaType),
}

/// The internal links `m` after the change `c` to the link `id`.
pub open spec fn changed_links(m: Map<u32, InternalLink>, id: u32, c: InternalChange) -> Map<u32, InternalLink> {
    match c {
        InternalChange::Remove => m.remove(id),
        InternalChange::State(active) => if m.contains_key(id) {
            m.insert(id, InternalLink { active, ..m[id] })
        } else {
            m
        },
        InternalChange::Format(media_type) => if m.contains_key(id) {
            m.insert(id, InternalLink { media_type, ..m[id] })
        } else {
            m
        },
    }
}

/// Making a change twice is making it once.
pub proof fn lemma_changed_links_idempotent(m: Map<u32, InternalLink>, id: u32, c: InternalChange)
    ensures
        changed_links(changed_links(m, id, c), id, c) == changed_links(m, id, c),
{
    assert(changed_links(changed_links(m, id, c), id, c) =~= changed_links(m, id, c));
}

/// The key under which the user's request to delete the link between the ports `x`
/// and `y` is kept, the same in either order.
pub open spec fn deletion_key(x: u32, y: u32) -> u64 {
    if x < y {
        pair_key(x, y)
    } else {
        pair_key(y, x)
    }
}

/// The key of the deletion request for the link between the ports `x` and `y`.
pub fn make_deletion_key(x: u32, y: u32) -> (k: u64)
    ensures
        k == deletion_key(x, y),
{
    if x < y {
        make_pair_key(x, y)
    } else {
        make_pair_key(y, x)
    }
}

/// What the user interface does after a message of PipeWire: the requests to send
/// back, the link whose removal is checked again a moment later, the state of the
/// banner that says the connection is being made, and whether to schedule a refresh
/// of the matrix view.
pub struct Reaction {
    pub requests: Vec<GtkMessage>,
    pub pending_check: Option<usize>,
    pub banner: Option<bool>,
    pub schedule_matrix_update: bool,
}

/// How a drawn link is shown: its edge and link handle, its two ends while they are
/// alive, the media type that gives its color, whether it is active and online, and
/// whether it is highlighted.
pub struct LinkDraw {
    pub edge: u32,
    pub link: usize,
    pub output_port: Option<usize>,
    pub input_port: Option<usize>,
    pub media_type: MediaType,
    pub active: bool,
    pub online: bool,
    pub highlighted: bool,
}

/// The model behind the graph view.
pub struct GraphManager {
    nodes: Vec<Node>,
    ports: Vec<Port>,
    links: Vec<Link>,
    items: HashMap<u32, Entry>,
    /// Nodes that have been removed and are waiting to be revived.
    offline_nodes: NameMap,
    app_groups: NameMap,
    /// IDs that are currently detached and should not be grouped.
    detached_ids: HashSet<u32>,
    pending_links: Vec<ConnectionPreset>,
    /// Links that were manually deleted by the user and should not be ghosted.
    pending_deletions: HashSet<u64>,
    master_links: HashMap<u64, usize>,
    real_to_master: HashMap<u32, u64>,
    link_to_internal_node: HashMap<u32, Vec<u32>>,
    matrix_update_pending: bool,
    canvas: Canvas,
}

impl GraphManager {
    /// The nodes, by handle.
    pub closed spec fn nodes(&self) -> Seq<Node> {
        self.nodes@
    }

    /// The ports, by handle.
    pub closed spec fn ports(&self) -> Seq<Port> {
        self.ports@
    }

    /// The links, by handle.
    pub closed spec fn links(&self) -> Seq<Link> {
        self.links@
    }

    /// What is kept under each PipeWire id.
    pub closed spec fn items(&self) -> Map<u32, Entry> {
        self.items@
    }

    /// The offline node of each application.
    pub closed spec fn offline(&self) -> Map<Seq<char>, usize> {
        self.offline_nodes@
    }

    /// The group node of each application.
    pub closed spec fn groups(&self) -> Map<Seq<char>, usize> {
        self.app_groups@
    }

    /// The ids of the detached nodes.
    pub closed spec fn detached(&self) -> Set<u32> {
        self.detached_ids@
    }

    /// The connections that wait for their ports.
    pub closed spec fn pending(&self) -> Seq<ConnectionPreset> {
        self.pending_links@
    }

    /// The keys of the links the user asked to delete.
    pub closed spec fn deletions(&self) -> Set<u64> {
        self.pending_deletions@
    }

    /// The master link under the key of its two master ends.
    pub closed spec fn masters(&self) -> Map<u64, usize> {
        self.master_links@
    }

    /// For each real link shown by a master link, the key of that master link.
    pub closed spec fn real_masters(&self) -> Map<u32, u64> {
        self.real_to_master@
    }

    /// For each real link, the nodes that draw it inside them.
    pub closed spec fn internal_nodes(&self) -> Map<u32, Vec<u32>> {
        self.link_to_internal_node@
    }

    /// A refresh of the matrix view is scheduled.
    pub closed spec fn matrix_pending(&self) -> bool {
        self.matrix_update_pending
    }

    /// The drawn graph.
    pub closed spec fn canvas(&self) -> Canvas {
        self.canvas
    }

    /// The entry under `id` refers to a live slot of its arena; a port is kept under
    /// its own id.
    pub open spec fn entry_ok(&self, id: u32, e: Entry) -> bool {
        match e {
            Entry::Node(h) => h < self.nodes().len(),
            Entry::Port(h) => h < self.ports().len() && self.ports()[h as int].pipewire_id == id,
            Entry::Link(h) => h < self.links().len(),
        }
    }

    /// The ports of node `n` are ports of the arena that name `n` as their parent.
    pub open spec fn node_ok(&self, n: int) -> bool {
        &&& forall|h: usize| #[trigger] self.nodes()[n].ports@.contains(h) ==> h < self.ports().len()
            && self.ports()[h as int].parent == Some(n as usize)
        &&& forall|h: usize| #[trigger] self.nodes()[n].master_ports@.contains(h) ==> h < self.ports().len()
            && self.ports()[h as int].parent == Some(n as usize)
    }

    /// The master ports of node `n` carry distinct names.
    pub open spec fn masters_unique(&self, n: int) -> bool {
        forall|m1: usize, m2: usize| #[trigger] self.nodes()[n].master_ports@.contains(m1) && #[trigger] self.nodes()[n].master_ports@.contains(m2)
            && self.ports()[m1 as int].name@ == self.ports()[m2 as int].name@ ==> m1 == m2
    }

    /// In a well-formed model every entry kept under an id names a node, port or link
    /// that has a handle, and every group and offline node has a handle.
    pub proof fn lemma_handles_in_range(&self)
        requires
            self.wf(),
        ensures
            forall|id: u32| #[trigger] self.items().contains_key(id) ==> match self.items()[id] {
                Entry::Node(n) => n < self.nodes().len(),
                Entry::Port(h) => h < self.ports().len() && self.ports()[h as int].pipewire_id == id,
                Entry::Link(l) => l < self.links().len(),
            },
            forall|k: Seq<char>| #[trigger] self.groups().contains_key(k) ==> self.groups()[k] < self.nodes().len(),
            forall|k: Seq<char>| #[trigger] self.offline().contains_key(k) ==> self.offline()[k] < self.nodes().len(),
    {
        assert forall|id: u32| #[trigger] self.items().contains_key(id) implies match self.items()[id] {
            Entry::Node(n) => n < self.nodes().len(),
            Entry::Port(h) => h < self.ports().len() && self.ports()[h as int].pipewire_id == id,
            Entry::Link(l) => l < self.links().len(),
        } by {
            assert(self.entry_ok(id, self.items@[id]));
        }
    }

    /// In a well-formed model no application has both a group and an offline node, and
    /// each group or offline node carries the name of the application it is kept for.
    pub proof fn lemma_groups_apart(&self, k: Seq<char>)
        requires
            self.wf(),
        ensures
            self.groups().contains_key(k) ==> self.groups_key_ok(k),
            self.offline().contains_key(k) ==> self.offline_key_ok(k),
    {
    }

    /// In a well-formed model the master ports of node `n` carry distinct names.
    pub proof fn lemma_masters_unique_at(&self, n: int)
        requires
            self.wf(),
            0 <= n < self.nodes().len(),
        ensures
            self.masters_unique(n),
    {
    }

    /// The port `h` belongs to a node with a handle, if to any.
    pub open spec fn port_ok(&self, h: int) -> bool {
        self.ports()[h].parent matches Some(n) ==> n < self.nodes().len()
    }

    /// The ends of the link `l` are port handles.
    pub open spec fn link_ok(&self, l: int) -> bool {
        &&& (self.links()[l].output_port matches Some(h) ==> h < self.ports().len())
        &&& (self.links()[l].input_port matches Some(h) ==> h < self.ports().len())
    }

    /// Every handle that the model keeps refers to a slot of its arena.
    pub closed spec fn wf(&self) -> bool {
        &&& self.app_groups.wf()
        &&& self.offline_nodes.wf()
        &&& self.canvas.wf()
        &&& forall|id: u32| #[trigger] self.items@.contains_key(id) ==> self.entry_ok(id, self.items@[id])
        &&& forall|k: Seq<char>| #[trigger] self.app_groups@.contains_key(k) ==> self.app_groups@[k] < self.nodes@.len()
        &&& forall|k: Seq<char>| #[trigger] self.offline_nodes@.contains_key(k) ==> self.offline_nodes@[k] < self.nodes@.len()
        &&& forall|k: Seq<char>| #[trigger] self.app_groups@.contains_key(k) ==> self.groups_key_ok(k)
        &&& forall|k: Seq<char>| #[trigger] self.offline_nodes@.contains_key(k) ==> self.offline_key_ok(k)
        &&& forall|n: int| 0 <= n < self.nodes@.len() ==> #[trigger] self.node_ok(n)
        &&& forall|n: int| 0 <= n < self.nodes@.len() ==> #[trigger] self.masters_unique(n)
        &&& forall|h: int| 0 <= h < self.ports@.len() ==> #[trigger] self.port_ok(h)
        &&& forall|l: int| 0 <= l < self.links@.len() ==> #[trigger] self.link_ok(l)
        &&& forall|k: u64| #[trigger] self.master_links@.contains_key(k) ==> self.master_links@[k] < self.links@.len()
        &&& forall|i: u32| #[trigger] self.canvas.nodes().contains_key(i) ==> self.canvas.nodes()[i] < self.nodes@.len()
            && self.canvas.node_index().contains_key(self.canvas.nodes()[i])
        &&& forall|e: u32| #[trigger] self.canvas.edges().contains_key(e) ==> self.canvas.edges()[e].2 < self.links@.len()
    }

    /// The application `k` has a group, and no offline node, and the group carries the
    /// name `k`.
    pub open spec fn groups_key_ok(&self, k: Seq<char>) -> bool {
        &&& !self.offline().contains_key(k)
        &&& self.nodes()[self.groups()[k] as int].app_name@ == k
    }

    /// The offline node kept for the application `k` carries the name `k`.
    pub open spec fn offline_key_ok(&self, k: Seq<char>) -> bool {
        self.nodes()[self.offline()[k] as int].app_name@ == k
    }

    /// The canvas can take one more node and one more link.
    pub open spec fn has_room(&self) -> bool {
        &&& self.canvas().nodes().len() + 1 < index_limit()
        &&& self.canvas().edges().len() + 1 < index_limit()
    }

    /// The node `n` is still referred to by the model: under an id, as a group, as an
    /// offline node, or on the canvas.
    pub open spec fn node_alive(&self, n: usize) -> bool {
        ||| exists|id: u32| #[trigger] self.items().contains_key(id) && self.items()[id] == Entry::Node(n)
        ||| exists|k: Seq<char>| #[trigger] self.groups().contains_key(k) && self.groups()[k] == n
        ||| exists|k: Seq<char>| #[trigger] self.offline().contains_key(k) && self.offline()[k] == n
        ||| self.canvas().node_index().contains_key(n)
    }

    /// The port `h` is still referred to: under its id, or by a live node that lists it.
    pub open spec fn port_alive(&self, h: usize) -> bool {
        &&& h < self.ports().len()
        &&& {
            ||| self.items().get(self.ports()[h as int].pipewire_id) == Some(Entry::Port(h))
            ||| (self.ports()[h as int].parent matches Some(n) && n < self.nodes().len() && (
                self.nodes()[n as int].ports@.contains(h) || self.nodes()[n as int].master_ports@.contains(h))
                && self.node_alive(n))
        }
    }

    /// What a reference to the port `h` still yields.
    pub open spec fn live(&self, h: Option<usize>) -> Option<usize> {
        match h {
            Some(p) => if self.port_alive(p) { Some(p) } else { None },
            None => None,
        }
    }

    /// An empty model.
    pub fn new() -> (m: Self)
        ensures
            m.wf(),
            m.has_room(),
            m.nodes().len() == 0,
            m.ports().len() == 0,
            m.links().len() == 0,
            m.items() == Map::<u32, Entry>::empty(),
            m.groups() == Map::<Seq<char>, usize>::empty(),
            m.offline() == Map::<Seq<char>, usize>::empty(),
            m.detached() == Set::<u32>::empty(),
            m.pending().len() == 0,
            m.deletions() == Set::<u64>::empty(),
            m.masters() == Map::<u64, usize>::empty(),
            m.real_masters() == Map::<u32, u64>::empty(),
            m.internal_nodes() == Map::<u32, Vec<u32>>::empty(),
            !m.matrix_pending(),
            m.canvas().nodes() == Map::<u32, usize>::empty(),
            m.canvas().edges() == Map::<u32, (u32, u32, usize)>::empty(),
            m.canvas().node_index() == Map::<usize, u32>::empty(),
            m.canvas().link_index() == Map::<usize, u32>::empty(),
    {
        GraphManager {
            nodes: Vec::new(),
            ports: Vec::new(),
            links: Vec::new(),
            items: HashMap::new(),
            offline_nodes: NameMap::new(),
            app_groups: NameMap::new(),
            detached_ids: HashSet::new(),
            pending_links: Vec::new(),
            pending_deletions: HashSet::new(),
            master_links: HashMap::new(),
            real_to_master: HashMap::new(),
            link_to_internal_node: HashMap::new(),
            matrix_update_pending: false,
            canvas: Canvas::new(),
        }
    }

    /// Whether the canvas can take one more node and one more link.
    pub fn check_room(&self) -> (r: bool)
        ensures
            r == self.has_room(),
    {
        self.canvas.node_count_below_limit_by(2) && self.canvas.edge_count_below_limit_by(2)
    }

    /// The node with handle `h`.
    pub fn node(&self, h: usize) -> (r: &Node)
        requires
            h < self.nodes().len(),
        ensures
            *r == self.nodes()[h as int],
    {
        &self.nodes[h]
    }

    /// The port with handle `h`.
    pub fn port(&self, h: usize) -> (r: &Port)
        requires
            h < self.ports().len(),
        ensures
            *r == self.ports()[h as int],
    {
        &self.ports[h]
    }

    /// The link with handle `h`.
    pub fn link(&self, h: usize) -> (r: &Link)
        requires
            h < self.links().len(),
        ensures
            *r == self.links()[h as int],
    {
        &self.links[h]
    }

    /// The entry kept under `id`.
    pub fn item(&self, id: u32) -> (r: Option<Entry>)
        ensures
            r == self.items().get(id),
    {
        match self.items.get(&id) {
            Some(e) => Some(*e),
            None => None,
        }
    }

    /// The ids that have an entry, each once.
    pub fn item_ids(&self) -> (r: Vec<u32>)
        ensures
            r@.to_set() == self.items().dom(),
            r@.no_duplicates(),
    {
        keys_u32(&self.items)
    }

    /// The number of node handles given out so far.
    pub fn node_slots(&self) -> (r: usize)
        ensures
            r == self.nodes().len(),
    {
        self.nodes.len()
    }

    /// The number of port handles given out so far.
    pub fn port_slots(&self) -> (r: usize)
        ensures
            r == self.ports().len(),
    {
        self.ports.len()
    }

    /// The number of link handles given out so far.
    pub fn link_slots(&self) -> (r: usize)
        ensures
            r == self.links().len(),
    {
        self.links.len()
    }

    /// The ports that the node `n` shows in its grid: its master ports for an
    /// application group, its own ports otherwise.
    pub open spec fn grid_ports(&self, n: usize) -> Set<usize> {
        if self.nodes()[n as int].is_app {
            self.nodes()[n as int].master_ports@
        } else {
            self.nodes()[n as int].ports@
        }
    }

    /// The rows of the port grid of the node `n`: the inputs on the left and the outputs
    /// on the right, each column sorted by name.
    pub fn port_grid(&self, n: usize) -> (r: Vec<(Option<usize>, Option<usize>)>)
        requires
            self.wf(),
            n < self.nodes().len(),
        ensures
            exists|hs: Seq<usize>, ins: Seq<usize>, outs: Seq<usize>| {
                &&& hs.no_duplicates()
                &&& hs.to_set() == self.grid_ports(n)
                &&& #[trigger] column(self.ports(), hs, PortDirection::Input, ins)
                &&& #[trigger] column(self.ports(), hs, PortDirection::Output, outs)
                &&& grid_rows(ins, outs, r@)
            },
    {
        let node = &self.nodes[n];
        let hs = if node.is_app { node.master_ports() } else { node.ports() };
        assert(self.node_ok(n as int));
        assert forall|i: int| 0 <= i < hs@.len() implies #[trigger] hs@[i] < self.ports@.len() by {
            assert(hs@.to_set().contains(hs@[i]));
        }
        let r = port_rows(&self.ports, &hs);
        let ghost gh = hs@;
        proof {
            let (ins, outs) = choose|ins: Seq<usize>, outs: Seq<usize>| {
                &&& #[trigger] column(self.ports@, gh, PortDirection::Input, ins)
                &&& #[trigger] column(self.ports@, gh, PortDirection::Output, outs)
                &&& grid_rows(ins, outs, r@)
            };
            assert(column(self.ports(), gh, PortDirection::Input, ins));
            assert(column(self.ports(), gh, PortDirection::Output, outs));
        }
        r
    }

    /// The ports of the node `n` that belong to its sub-node `id`.
    pub open spec fn sub_node_ports(&self, n: usize, id: u32) -> Set<usize> {
        self.nodes()[n as int].ports@.filter(|h: usize| self.ports()[h as int].node_id == id)
    }

    /// The rows of the port grid of the sub-node `id` of the node `n`: the ports of `n`
    /// that belong to `id`, inputs on the left and outputs on the right, each column
    /// sorted by name.
    pub fn sub_node_grid(&self, n: usize, id: u32) -> (r: Vec<(Option<usize>, Option<usize>)>)
        requires
            self.wf(),
            n < self.nodes().len(),
        ensures
            exists|hs: Seq<usize>, ins: Seq<usize>, outs: Seq<usize>| {
                &&& hs.no_duplicates()
                &&& hs.to_set() == self.sub_node_ports(n, id)
                &&& #[trigger] column(self.ports(), hs, PortDirection::Input, ins)
                &&& #[trigger] column(self.ports(), hs, PortDirection::Output, outs)
                &&& grid_rows(ins, outs, r@)
            },
    {
        let all = self.nodes[n].ports();
        assert(self.node_ok(n as int));
        let mut hs: Vec<usize> = Vec::new();
        let mut i: usize = 0;
        while i < all.len()
            invariant
                self.wf(),
                n < self.nodes@.len(),
                self.node_ok(n as int),
                all@.to_set() == self.nodes@[n as int].ports@,
                all@.no_duplicates(),
                i <= all@.len(),
                hs@.no_duplicates(),
                forall|k: int| 0 <= k < hs@.len() ==> #[trigger] hs@[k] < self.ports@.len(),
                forall|h: usize| hs@.contains(h) <==> (exists|j: int| 0 <= j < i && all@[j] == h)
                    && self.ports@[h as int].node_id == id,
            decreases all.len() - i,
        {
            let h = all[i];
            assert(all@.to_set().contains(h));
            if self.ports[h].node_id == id {
                proof {
                    assert(!hs@.contains(h)) by {
                        if hs@.contains(h) {
                            let j = choose|j: int| 0 <= j < i && all@[j] == h;
                            assert(all@[j] == all@[i as int]);
                        }
                    }
                }
                let ghost prev = hs@;
                hs.push(h);
                proof {
                    assert forall|h2: usize| hs@.contains(h2) <==> (exists|j: int| 0 <= j < i + 1 && all@[j] == h2)
                        && self.ports@[h2 as int].node_id == id by {
                        assert(hs@ == prev.push(h));
                        if hs@.contains(h2) {
                            let k = choose|k: int| 0 <= k < hs@.len() && hs@[k] == h2;
                            if k < prev.len() {
                                assert(prev[k] == h2);
                                assert(prev.contains(h2));
                            }
                        }
                        if (exists|j: int| 0 <= j < i + 1 && all@[j] == h2) && self.ports@[h2 as int].node_id == id {
                            let j = choose|j: int| 0 <= j < i + 1 && all@[j] == h2;
                            if j < i {
                                assert(prev.contains(h2));
                                let k = choose|k: int| 0 <= k < prev.len() && prev[k] == h2;
                                assert(hs@[k] == h2);
                            } else {
                                assert(hs@[prev.len() as int] == h2);
                            }
                        }
                    }
                }
            } else {
                proof {
                    assert forall|h2: usize| hs@.contains(h2) <==> (exists|j: int| 0 <= j < i + 1 && all@[j] == h2)
                        && self.ports@[h2 as int].node_id == id by {
                        if (exists|j: int| 0 <= j < i + 1 && all@[j] == h2) && self.ports@[h2 as int].node_id == id {
                            let j = choose|j: int| 0 <= j < i + 1 && all@[j] == h2;
                            assert(j < i);
                        }
                    }
                }
            }
            i = i + 1;
        }
        proof {
            assert forall|h: usize| #[trigger] hs@.to_set().contains(h) == self.sub_node_ports(n, id).contains(h) by {
                if self.sub_node_ports(n, id).contains(h) {
                    assert(all@.to_set().contains(h));
                    let j = choose|j: int| 0 <= j < all@.len() && all@[j] == h;
                }
            }
            assert(hs@.to_set() =~= self.sub_node_ports(n, id));
        }
        let r = port_rows(&self.ports, &hs);
        let ghost gh = hs@;
        proof {
            let (ins, outs) = choose|ins: Seq<usize>, outs: Seq<usize>| {
                &&& #[trigger] column(self.ports@, gh, PortDirection::Input, ins)
                &&& #[trigger] column(self.ports@, gh, PortDirection::Output, outs)
                &&& grid_rows(ins, outs, r@)
            };
            assert(column(self.ports(), gh, PortDirection::Input, ins));
            assert(column(self.ports(), gh, PortDirection::Output, outs));
        }
        r
    }

    /// The sub-nodes that the node `n` shows: all of them for an application group that
    /// is not detached, none otherwise.
    pub open spec fn listed_sub_nodes(&self, n: usize) -> Set<u32> {
        if self.nodes()[n as int].is_app && !self.nodes()[n as int].is_detached {
            self.nodes()[n as int].sub_nodes@.dom()
        } else {
            Set::empty()
        }
    }

    /// The ids of the sub-nodes that the node `n` shows, in increasing order.
    pub fn shown_sub_nodes(&self, n: usize) -> (r: Vec<u32>)
        requires
            self.wf(),
            n < self.nodes().len(),
        ensures
            forall|i: int, j: int| 0 <= i < j < r@.len() ==> r@[i] < r@[j],
            r@.to_set() == self.listed_sub_nodes(n),
    {
        let node = &self.nodes[n];
        if !node.is_app || node.is_detached {
            let r: Vec<u32> = Vec::new();
            assert(r@.to_set() =~= Set::<u32>::empty());
            return r;
        }
        let keys = keys_u32(&node.sub_nodes);
        sort_ids(&keys)
    }

    /// The drawn graph.
    pub fn canvas_ref(&self) -> (r: &Canvas)
        ensures
            *r == self.canvas(),
    {
        &self.canvas
    }

    fn node_has_entry(&self, n: usize) -> (r: bool)
        ensures
            r == exists|id: u32| #[trigger] self.items().contains_key(id) && self.items()[id] == Entry::Node(n),
    {
        let ids = keys_u32(&self.items);
        let mut i: usize = 0;
        while i < ids.len()
            invariant
                ids@.to_set() == self.items@.dom(),
                i <= ids@.len(),
                forall|j: int| 0 <= j < i ==> self.items@[#[trigger] ids@[j]] != Entry::Node(n),
            decreases ids.len() - i,
        {
            let id = ids[i];
            assert(ids@.to_set().contains(id));
            if *self.items.get(&id).unwrap() == Entry::Node(n) {
                return true;
            }
            i = i + 1;
        }
        proof {
            assert forall|id: u32| #[trigger] self.items().contains_key(id) implies self.items()[id] != Entry::Node(n) by {
                assert(ids@.to_set().contains(id));
                let j = choose|j: int| 0 <= j < ids@.len() && ids@[j] == id;
            }
        }
        false
    }

    /// Whether the node `n` is still referred to by the model.
    pub fn is_node_alive(&self, n: usize) -> (r: bool)
        requires
            self.wf(),
        ensures
            r == self.node_alive(n),
    {
        let a = self.node_has_entry(n);
        let b = self.app_groups.contains_value(n);
        let c = self.offline_nodes.contains_value(n);
        let d = self.canvas.has_node_exec(n);
        assert(self.groups() == self.app_groups@);
        assert(self.offline() == self.offline_nodes@);
        assert(self.canvas() == self.canvas);
        a || b || c || d
    }

    /// Whether the port `h` is still referred to by the model.
    pub fn is_port_alive(&self, h: usize) -> (r: bool)
        requires
            self.wf(),
        ensures
            r == self.port_alive(h),
    {
        if h >= self.ports.len() {
            return false;
        }
        let pid = self.ports[h].pipewire_id;
        if let Some(Entry::Port(q)) = self.items.get(&pid) {
            if *q == h {
                return true;
            }
        }
        match self.ports[h].parent {
            Some(n) => {
                if n < self.nodes.len() && (self.nodes[n].ports.contains(&h) || self.nodes[n].master_ports.contains(&h)) {
                    self.is_node_alive(n)
                } else {
                    false
                }
            },
            None => false,
        }
    }

    /// What a reference to a port still yields: the port if it is alive.
    pub fn live_port(&self, h: Option<usize>) -> (r: Option<usize>)
        requires
            self.wf(),
        ensures
            r == self.live(h),
    {
        match h {
            Some(p) => if self.is_port_alive(p) { Some(p) } else { None },
            None => None,
        }
    }

    /// `a` and `b` have the same handles everywhere: they differ at most in the
    /// names, flags and media types of their nodes, ports and links, and in the
    /// bookkeeping that holds no handle.
    pub closed spec fn same_shape(a: &Self, b: &Self) -> bool {
        &&& a.items@ == b.items@
        &&& a.app_groups == b.app_groups
        &&& a.offline_nodes == b.offline_nodes
        &&& a.master_links@ == b.master_links@
        &&& a.canvas == b.canvas
        &&& a.nodes@.len() == b.nodes@.len()
        &&& forall|n: int| 0 <= n < a.nodes@.len() ==> (#[trigger] a.nodes@[n]).ports@ == b.nodes@[n].ports@
            && a.nodes@[n].master_ports@ == b.nodes@[n].master_ports@ && a.nodes@[n].app_name == b.nodes@[n].app_name
        &&& a.ports@.len() == b.ports@.len()
        &&& forall|h: int| 0 <= h < a.ports@.len() ==> (#[trigger] a.ports@[h]).pipewire_id == b.ports@[h].pipewire_id
            && a.ports@[h].parent == b.ports@[h].parent && a.ports@[h].name == b.ports@[h].name
        &&& a.links@.len() == b.links@.len()
        &&& forall|l: int| 0 <= l < a.links@.len() ==> (#[trigger] a.links@[l]).output_port == b.links@[l].output_port
            && a.links@[l].input_port == b.links@[l].input_port
    }

    proof fn lemma_same_shape(a: &Self, b: &Self)
        requires
            a.wf(),
            Self::same_shape(a, b),
        ensures
            b.wf(),
            b.has_room() == a.has_room(),
            forall|h: usize| #[trigger] b.port_alive(h) == a.port_alive(h),
            forall|n: usize| #[trigger] b.node_alive(n) == a.node_alive(n),
    {
        assert forall|id: u32| #[trigger] b.items@.contains_key(id) implies b.entry_ok(id, b.items@[id]) by {
            assert(a.entry_ok(id, a.items@[id]));
            match a.items@[id] {
                Entry::Port(h) => {
                    assert(a.ports@[h as int].pipewire_id == b.ports@[h as int].pipewire_id);
                },
                _ => {},
            }
        }
        assert forall|n: int| 0 <= n < b.nodes@.len() implies #[trigger] b.node_ok(n) by {
            assert(a.node_ok(n));
            assert(a.nodes@[n].ports@ == b.nodes@[n].ports@);
            assert forall|h: usize| #[trigger] b.nodes()[n].ports@.contains(h) implies h < b.ports().len()
                && b.ports()[h as int].parent == Some(n as usize) by {
                assert(a.nodes()[n].ports@.contains(h));
                assert(a.ports@[h as int].parent == b.ports@[h as int].parent);
            }
            assert forall|h: usize| #[trigger] b.nodes()[n].master_ports@.contains(h) implies h < b.ports().len()
                && b.ports()[h as int].parent == Some(n as usize) by {
                assert(a.nodes()[n].master_ports@.contains(h));
                assert(a.ports@[h as int].parent == b.ports@[h as int].parent);
            }
        }
        assert forall|h: int| 0 <= h < b.ports@.len() implies #[trigger] b.port_ok(h) by {
            assert(a.port_ok(h));
            assert(a.ports@[h].parent == b.ports@[h].parent);
        }
        assert forall|n: int| 0 <= n < b.nodes@.len() implies #[trigger] b.masters_unique(n) by {
            assert(a.masters_unique(n));
            assert(a.node_ok(n));
            assert forall|m1: usize, m2: usize| #[trigger] b.nodes()[n].master_ports@.contains(m1) && #[trigger] b.nodes()[n].master_ports@.contains(m2)
                && b.ports()[m1 as int].name@ == b.ports()[m2 as int].name@ implies m1 == m2 by {
                assert(a.nodes()[n].master_ports@.contains(m1));
                assert(a.nodes()[n].master_ports@.contains(m2));
                assert(a.ports@[m1 as int].name == b.ports@[m1 as int].name);
                assert(a.ports@[m2 as int].name == b.ports@[m2 as int].name);
            }
        }
        assert forall|l: int| 0 <= l < b.links@.len() implies #[trigger] b.link_ok(l) by {
            assert(a.link_ok(l));
            assert(a.links@[l].output_port == b.links@[l].output_port);
        }
        assert(a.items() == b.items());
        assert(a.groups() == b.groups());
        assert(a.offline() == b.offline());
        assert(a.canvas() == b.canvas());
        assert forall|n: usize| #[trigger] b.node_alive(n) == a.node_alive(n) by {}
        assert forall|h: usize| #[trigger] b.port_alive(h) == a.port_alive(h) by {
            if h < a.ports@.len() {
                assert(a.ports@[h as int].pipewire_id == b.ports@[h as int].pipewire_id);
                if let Some(n) = a.ports@[h as int].parent {
                    if n < a.nodes@.len() {
                        assert(a.nodes@[n as int].ports@ == b.nodes@[n as int].ports@);
                        assert(a.nodes@[n as int].master_ports@ == b.nodes@[n as int].master_ports@);
                        assert(a.node_alive(n) == b.node_alive(n));
                    }
                }
            }
        }
    }

    /// The node that the port under `pid` belongs to, as the port records it.
    pub open spec fn node_for_port(&self, pid: u32) -> Option<usize> {
        match self.items().get(pid) {
            Some(Entry::Port(h)) => match self.items().get(self.ports()[h as int].node_id) {
                Some(Entry::Node(n)) => Some(n),
                _ => None,
            },
            _ => None,
        }
    }

    /// The node of an application group that could hold a master port for the port
    /// under `pid`, with that port: the port's node, when it groups an application and
    /// is not detached.
    pub open spec fn master_scope(&self, pid: u32) -> Option<(usize, usize)> {
        match self.items().get(pid) {
            Some(Entry::Port(h)) => match self.items().get(self.ports()[h as int].node_id) {
                Some(Entry::Node(n)) => if self.nodes()[n as int].is_app && !self.nodes()[n as int].is_detached {
                    Some((n, h))
                } else {
                    None
                },
                _ => None,
            },
            _ => None,
        }
    }

    /// `m` is a master port of node `n` that matches the port `h` by name and direction.
    pub open spec fn is_master_of(&self, n: usize, m: usize, h: usize) -> bool {
        &&& self.nodes()[n as int].master_ports@.contains(m)
        &&& self.ports()[m as int].name@ == self.ports()[h as int].name@
        &&& self.ports()[m as int].direction == self.ports()[h as int].direction
    }

    /// The node that the port under `port_id` belongs to.
    pub fn get_node_for_port_id(&self, port_id: PortId) -> (r: Option<usize>)
        requires
            self.wf(),
        ensures
            r == self.node_for_port(port_id.0),
    {
        match self.items.get(&port_id.0) {
            Some(Entry::Port(h)) => {
                assert(self.entry_ok(port_id.0, self.items@[port_id.0]));
                let nid = self.ports[*h].node_id;
                match self.items.get(&nid) {
                    Some(Entry::Node(n)) => Some(*n),
                    _ => None,
                }
            },
            _ => None,
        }
    }

    /// The master port that stands for the port under `pid` in its application group:
    /// the group's master port of the same name and direction, if it has one.
    pub open spec fn master_of(&self, pid: u32) -> Option<usize> {
        match self.master_scope(pid) {
            Some((n, h)) => if exists|m: usize| #[trigger] self.is_master_of(n, m, h) {
                Some(choose|m: usize| #[trigger] self.is_master_of(n, m, h))
            } else {
                None
            },
            None => None,
        }
    }

    /// The id of the master port that stands for the port under `pid`, if any.
    pub open spec fn master_id(&self, pid: u32) -> Option<u32> {
        match self.master_of(pid) {
            Some(m) => Some(self.ports()[m as int].pipewire_id),
            None => None,
        }
    }

    /// The id of the master port that stands for the port under `port_id` in its
    /// application group, if the group has one of the same name and direction.
    #[verifier::spinoff_prover]
    pub fn get_master_port_id(&self, port_id: PortId) -> (r: Option<PortId>)
        requires
            self.wf(),
        ensures
            r == (match self.master_id(port_id.0) {
                Some(i) => Some(PortId(i)),
                None => None,
            }),
    {
        let h = match self.items.get(&port_id.0) {
            Some(Entry::Port(h)) => *h,
            _ => return None,
        };
        assert(self.entry_ok(port_id.0, self.items@[port_id.0]));
        let n = match self.items.get(&self.ports[h].node_id) {
            Some(Entry::Node(n)) => *n,
            _ => return None,
        };
        assert(self.entry_ok(self.ports@[h as int].node_id, self.items@[self.ports@[h as int].node_id]));
        if !self.nodes[n].is_app || self.nodes[n].is_detached {
            return None;
        }
        assert(self.node_ok(n as int));
        assert(self.master_scope(port_id.0) == Some((n, h)));
        let masters = self.nodes[n].master_ports();
        let mut i: usize = 0;
        while i < masters.len()
            invariant
                self.wf(),
                n < self.nodes@.len(),
                h < self.ports@.len(),
                self.node_ok(n as int),
                self.master_scope(port_id.0) == Some((n, h)),
                masters@.to_set() == self.nodes@[n as int].master_ports@,
                i <= masters@.len(),
                forall|j: int| 0 <= j < i ==> !self.is_master_of(n, #[trigger] masters@[j], h),
            decreases masters.len() - i,
        {
            let m = masters[i];
            assert(masters@.to_set().contains(m));
            if self.ports[m].name == self.ports[h].name && self.ports[m].direction == self.ports[h].direction {
                let r = Some(PortId(self.ports[m].pipewire_id));
                assert(self.is_master_of(n, m, h));
                proof {
                    let c = choose|w: usize| #[trigger] self.is_master_of(n, w, h);
                    assert(self.masters_unique(n as int));
                    assert(self.nodes()[n as int].master_ports@.contains(c) && self.nodes()[n as int].master_ports@.contains(m));
                    assert(c == m);
                }
                return r;
            }
            i = i + 1;
        }
        assert forall|m: usize| !#[trigger] self.is_master_of(n, m, h) by {
            if self.nodes()[n as int].master_ports@.contains(m) {
                assert(masters@.to_set().contains(m));
                let j = choose|j: int| 0 <= j < masters@.len() && masters@[j] == m;
            }
        }
        None
    }

    /// What renaming the node under `id` does to `a`, giving `b`.
    pub open spec fn name_change_step(a: Self, b: Self, id: NodeId, node_name: Seq<char>, media_name: Seq<char>) -> bool {
        &&& Self::same_shape(&a, &b)
        &&& a.items().get(id.0) matches Some(Entry::Node(n)) ==> {
                &&& b.nodes() == a.nodes().update(
                    n as int,
                    Node {
                        node_name: b.nodes()[n as int].node_name,
                        media_name: b.nodes()[n as int].media_name,
                        ..a.nodes()[n as int]
                    },
                )
                &&& b.nodes()[n as int].node_name@ == node_name
                &&& b.nodes()[n as int].media_name@ == media_name
            }
        &&& !(a.items().get(id.0) matches Some(Entry::Node(_))) ==> b.nodes() == a.nodes()
        &&& b.ports() == a.ports()
        &&& Self::links_kept(a, b)
        &&& b.items() == a.items()
        &&& b.groups() == a.groups()
        &&& b.offline() == a.offline()
        &&& b.masters() == a.masters()
        &&& b.canvas() == a.canvas()
    }

    /// Update the names of the node under `id`; nothing changes when there is none.
    pub fn node_name_changed(&mut self, id: NodeId, node_name: &str, media_name: &str)
        requires
            old(self).wf(),
        ensures
            final(self).wf(),
            Self::name_change_step(*old(self), *final(self), id, node_name@, media_name@),
    {
        let ghost pre = *self;
        if let Some(Entry::Node(n)) = self.items.get(&id.0) {
            let n = *n;
            assert(self.entry_ok(id.0, self.items@[id.0]));
            self.nodes[n].node_name = node_name.to_string();
            self.nodes[n].media_name = media_name.to_string();
            proof {
                Self::lemma_same_shape(&pre, self);
                assert(self.nodes@ =~= pre.nodes@.update(n as int, Node {
                    node_name: self.nodes@[n as int].node_name,
                    media_name: self.nodes@[n as int].media_name,
                    ..pre.nodes@[n as int]
                }));
            }
        }
    }

    /// What a new media type for the port under `id` does to `a`, giving `b`.
    pub open spec fn port_format_step(a: Self, b: Self, id: PortId, media_type: MediaType) -> bool {
        let kind = crate::ids::port_media_type_of(media_type);
        &&& Self::same_shape(&a, &b)
        &&& b.nodes() == a.nodes()
        &&& b.links() == a.links()
        &&& Self::links_kept(a, b)
        &&& b.ports() == (match a.items().get(id.0) {
            Some(Entry::Port(h)) => {
                let p1 = a.ports().update(h as int, Port { media_type: kind, ..a.ports()[h as int] });
                match a.master_id(id.0) {
                    Some(mid) => match a.items().get(mid) {
                        Some(Entry::Port(x)) => p1.update(x as int, Port { media_type: kind, ..p1[x as int] }),
                        _ => p1,
                    },
                    None => p1,
                }
            },
            _ => a.ports(),
        })
    }

    /// Set the media type of the port under `id`, and of the master port that stands
    /// for it, if any.
    pub fn port_media_type_changed(&mut self, id: PortId, media_type: MediaType)
        requires
            old(self).wf(),
        ensures
            final(self).wf(),
            Self::port_format_step(*old(self), *final(self), id, media_type),
    {
        let ghost pre = *self;
        let master_id = self.get_master_port_id(id);
        let h = match self.items.get(&id.0) {
            Some(Entry::Port(h)) => *h,
            _ => return,
        };
        assert(self.entry_ok(id.0, self.items@[id.0]));
        self.ports[h].set_media_type(media_type);
        let ghost s1 = *self;
        proof {
            Self::lemma_same_shape(&pre, self);
        }
        if let Some(mid) = master_id {
            if let Some(Entry::Port(x)) = self.items.get(&mid.0) {
                let x = *x;
                assert(self.entry_ok(mid.0, self.items@[mid.0]));
                self.ports[x].set_media_type(media_type);
                proof {
                    Self::lemma_same_shape(&s1, self);
                }
            }
        }
    }

    /// `b` holds the nodes of `a`, but for the port `h` no longer listed among the ports
    /// of the node `n`.
    pub open spec fn port_unlisted(a: Seq<Node>, b: Seq<Node>, n: usize, h: usize) -> bool {
        &&& b.len() == a.len()
        &&& forall|q: int| 0 <= q < a.len() && q != n ==> #[trigger] b[q] == a[q]
        &&& b[n as int].ports@ == a[n as int].ports@.remove(h)
        &&& node_frame(a[n as int], b[n as int])
        &&& b[n as int].sub_nodes == a[n as int].sub_nodes
        &&& b[n as int].master_ports == a[n as int].master_ports
        &&& b[n as int].internal_links == a[n as int].internal_links
    }

    /// What removing the port under `id` does to `a`, giving `b`: the id is forgotten,
    /// the port leaves the ports of the node that lists it, and is shown offline.
    pub open spec fn remove_port_step(a: Self, b: Self, id: PortId) -> bool {
        &&& b.items() == a.items().remove(id.0)
        &&& b.links() == a.links()
        &&& b.canvas() == a.canvas()
        &&& Self::links_kept(a, b)
        &&& b.groups() == a.groups()
        &&& b.offline() == a.offline()
        &&& b.ports() == (match a.items().get(id.0) {
            Some(Entry::Port(h)) => a.ports().update(h as int, Port { online: false, ..a.ports()[h as int] }),
            _ => a.ports(),
        })
        &&& match a.items().get(id.0) {
            Some(Entry::Port(h)) => match a.ports()[h as int].parent {
                Some(n) => Self::port_unlisted(a.nodes(), b.nodes(), n, h),
                None => b.nodes() == a.nodes(),
            },
            _ => b.nodes() == a.nodes(),
        }
    }

    /// The port under `id` is gone: forget the id, take the port off the ports of the
    /// node that lists it, and show it offline.
    pub fn remove_port(&mut self, id: PortId, node_id: NodeId)
        requires
            old(self).wf(),
        ensures
            final(self).wf(),
            Self::remove_port_step(*old(self), *final(self), id),
    {
        let ghost pre = *self;
        let removed = self.items.remove(&id.0);
        if let Some(Entry::Port(h)) = removed {
            assert(pre.entry_ok(id.0, pre.items@[id.0]));
            self.ports[h].online = false;
            if let Some(n) = self.ports[h].parent {
                assert(pre.port_ok(h as int));
                self.nodes[n].remove_port(h);
            }
        }
        proof {
            Self::lemma_masters_unique_kept(&pre, self);
            assert forall|i: u32| #[trigger] self.items@.contains_key(i) implies self.entry_ok(i, self.items@[i]) by {
                assert(pre.entry_ok(i, pre.items@[i]));
            }
            assert forall|n: int| 0 <= n < self.nodes@.len() implies #[trigger] self.node_ok(n) by {
                assert(pre.node_ok(n));
                assert forall|q: usize| #[trigger] self.nodes()[n].ports@.contains(q) implies q < self.ports().len()
                    && self.ports()[q as int].parent == Some(n as usize) by {
                    assert(pre.nodes()[n].ports@.contains(q));
                }
                assert forall|q: usize| #[trigger] self.nodes()[n].master_ports@.contains(q) implies q < self.ports().len()
                    && self.ports()[q as int].parent == Some(n as usize) by {
                    assert(pre.nodes()[n].master_ports@.contains(q));
                }
            }
            assert forall|q: int| 0 <= q < self.ports@.len() implies #[trigger] self.port_ok(q) by {
                assert(pre.port_ok(q));
            }
            assert forall|l: int| 0 <= l < self.links@.len() implies #[trigger] self.link_ok(l) by {
                assert(pre.link_ok(l));
            }
        }
    }

    /// What losing the connection to PipeWire does to `a`, giving `b`.
    pub open spec fn clear_step(a: Self, b: Self) -> bool {
        &&& b.items() == Map::<u32, Entry>::empty()
        &&& b.offline() == Map::<Seq<char>, usize>::empty()
        &&& b.deletions() == Set::<u64>::empty()
        &&& b.canvas().nodes() == Map::<u32, usize>::empty()
        &&& b.canvas().edges() == Map::<u32, (u32, u32, usize)>::empty()
        &&& b.canvas().node_index() == Map::<usize, u32>::empty()
        &&& b.canvas().link_index() == Map::<usize, u32>::empty()
        &&& b.groups() == a.groups()
        &&& b.nodes() == a.nodes()
        &&& b.ports() == a.ports()
        &&& b.links() == a.links()
        &&& b.masters() == a.masters()
        &&& b.real_masters() == a.real_masters()
        &&& b.internal_nodes() == a.internal_nodes()
        &&& b.detached() == a.detached()
        &&& b.pending() == a.pending()
        &&& b.matrix_pending() == a.matrix_pending()
    }

    /// The connection to PipeWire was lost: forget every id, every offline node and
    /// every pending deletion, and empty the canvas.
    pub fn clear(&mut self)
        requires
            old(self).wf(),
        ensures
            final(self).wf(),
            Self::clear_step(*old(self), *final(self)),
    {
        let ghost pre = *self;
        self.items.clear();
        self.offline_nodes.clear();
        self.pending_deletions.clear();
        self.canvas.clear();
        proof {
            Self::lemma_masters_unique_kept(&pre, self);
            assert forall|n: int| 0 <= n < self.nodes@.len() implies #[trigger] self.node_ok(n) by {
                assert(pre.node_ok(n));
                assert forall|q: usize| #[trigger] self.nodes()[n].ports@.contains(q) implies q < self.ports().len()
                    && self.ports()[q as int].parent == Some(n as usize) by {
                    assert(pre.nodes()[n].ports@.contains(q));
                }
                assert forall|q: usize| #[trigger] self.nodes()[n].master_ports@.contains(q) implies q < self.ports().len()
                    && self.ports()[q as int].parent == Some(n as usize) by {
                    assert(pre.nodes()[n].master_ports@.contains(q));
                }
            }
            assert forall|q: int| 0 <= q < self.ports@.len() implies #[trigger] self.port_ok(q) by {
                assert(pre.port_ok(q));
            }
            assert forall|l: int| 0 <= l < self.links@.len() implies #[trigger] self.link_ok(l) by {
                assert(pre.link_ok(l));
            }
        }
    }

    /// Ask for one refresh of the matrix view: returns whether a refresh must be
    /// scheduled, which is so only when none is waiting already.
    pub fn queue_matrix_update(&mut self) -> (r: bool)
        requires
            old(self).wf(),
        ensures
            final(self).wf(),
            r == !old(self).matrix_pending(),
            Self::matrix_set(*old(self), *final(self), true),
    {
        let ghost a = *self;
        let r = !self.matrix_update_pending;
        self.matrix_update_pending = true;
        proof {
            Self::lemma_same_shape(&a, self);
        }
        r
    }

    /// The scheduled refresh of the matrix view ran.
    pub fn matrix_update_done(&mut self)
        requires
            old(self).wf(),
        ensures
            final(self).wf(),
            Self::matrix_set(*old(self), *final(self), false),
    {
        let ghost a = *self;
        self.matrix_update_pending = false;
        proof {
            Self::lemma_same_shape(&a, self);
        }
    }

    /// The link `l` joins two live ports.
    pub open spec fn link_ends_live(&self, l: usize) -> bool {
        self.live(self.links()[l as int].output_port).is_some() && self.live(self.links()[l as int].input_port).is_some()
    }

    /// The request that makes sure the link `l` exists in PipeWire.
    pub open spec fn ensure_request(&self, l: usize) -> GtkMessage {
        GtkMessage::EnsureLink {
            port_from: PortId(self.ports()[self.links()[l as int].output_port.unwrap() as int].pipewire_id),
            port_to: PortId(self.ports()[self.links()[l as int].input_port.unwrap() as int].pipewire_id),
        }
    }

    /// The link `l` touches the port `h` and is a ghost whose two ends are alive
    /// again: it must be made again.
    pub open spec fn must_restore(&self, h: usize, l: usize) -> bool {
        &&& (self.live(self.links()[l as int].output_port) == Some(h) || self.live(self.links()[l as int].input_port) == Some(h))
        &&& !self.links()[l as int].online
        &&& self.link_ends_live(l)
    }

    /// The drawn link under edge `e`.
    pub open spec fn edge_link(&self, e: u32) -> usize {
        self.canvas().edges()[e].2
    }

    /// `msg` makes again some ghost link drawn at the port `h`.
    pub open spec fn is_restore_request(&self, h: usize, msg: GtkMessage) -> bool {
        exists|e: u32| #[trigger] self.canvas().edges().contains_key(e) && self.must_restore(h, self.edge_link(e))
            && msg == self.ensure_request(self.edge_link(e))
    }

    /// `r` asks to make again exactly the ghost links drawn at the port `h` whose two
    /// ports are alive: each request is such a link, and each such link is asked for.
    pub open spec fn restores(&self, h: usize, r: Seq<GtkMessage>) -> bool {
        &&& forall|i: int| 0 <= i < r.len() ==> self.is_restore_request(h, #[trigger] r[i])
        &&& forall|e: u32| #[trigger] self.canvas().edges().contains_key(e) && self.must_restore(h, self.edge_link(e))
            ==> r.contains(self.ensure_request(self.edge_link(e)))
    }

    /// Ask PipeWire to make again every ghost link drawn at the port `h` whose two ports
    /// are alive.
    #[verifier::spinoff_prover]
    pub fn restore_links_for_port(&self, h: usize) -> (r: Vec<GtkMessage>)
        requires
            self.wf(),
        ensures
            self.restores(h, r@),
    {
        let edges = self.canvas.edge_list();
        let mut out: Vec<GtkMessage> = Vec::new();
        let mut i: usize = 0;
        while i < edges.len()
            invariant
                self.wf(),
                i <= edges@.len(),
                forall|k: int| 0 <= k < edges@.len() ==> #[trigger] self.canvas.edges().contains_key(edges@[k].0)
                    && self.canvas.edges()[edges@[k].0] == (edges@[k].1, edges@[k].2, edges@[k].3),
                forall|q: int| 0 <= q < out@.len() ==> self.is_restore_request(h, #[trigger] out@[q]),
                forall|k: int| 0 <= k < i && #[trigger] self.must_restore(h, edges@[k].3) ==> out@.contains(self.ensure_request(edges@[k].3)),
            decreases edges.len() - i,
        {
            let l = edges[i].3;
            assert(self.canvas.edges().contains_key(edges@[i as int].0));
            assert(l < self.links@.len());
            assert(self.link_ok(l as int));
            let out_p = self.live_port(self.links[l].output_port);
            let in_p = self.live_port(self.links[l].input_port);
            let related = out_p == Some(h) || in_p == Some(h);
            let ghost before = out@;
            if related && !self.links[l].online {
                if let (Some(o), Some(n)) = (out_p, in_p) {
                    out.push(GtkMessage::EnsureLink {
                        port_from: PortId(self.ports[o].pipewire_id),
                        port_to: PortId(self.ports[n].pipewire_id),
                    });
                    assert(self.edge_link(edges@[i as int].0) == l);
                    assert(out@[out@.len() - 1] == self.ensure_request(l));
                    assert(self.is_restore_request(h, out@[out@.len() - 1]));
                }
            }
            assert forall|k: int| 0 <= k < i + 1 && #[trigger] self.must_restore(h, edges@[k].3) implies out@.contains(self.ensure_request(edges@[k].3)) by {
                if k < i {
                    assert(before.contains(self.ensure_request(edges@[k].3)));
                    let w = choose|w: int| 0 <= w < before.len() && before[w] == self.ensure_request(edges@[k].3);
                    assert(out@[w] == before[w]);
                } else {
                    assert(out@[out@.len() - 1] == self.ensure_request(l));
                }
            }
            assert forall|q: int| 0 <= q < out@.len() implies self.is_restore_request(h, #[trigger] out@[q]) by {
                if q < before.len() {
                    assert(out@[q] == before[q]);
                }
            }
            i = i + 1;
        }
        assert forall|e: u32| #[trigger] self.canvas().edges().contains_key(e) && self.must_restore(h, self.edge_link(e))
            implies out@.contains(self.ensure_request(self.edge_link(e))) by {
            let k = choose|k: int| 0 <= k < edges@.len() && edges@[k].0 == e;
            assert(self.canvas.edges().contains_key(edges@[k].0));
        }
        out
    }

    /// Some master port of node `n` carries the name `name`.
    pub open spec fn has_master_named(&self, n: usize, name: Seq<char>) -> bool {
        exists|h: usize| #[trigger] self.nodes()[n as int].master_ports@.contains(h) && h < self.ports().len()
            && self.ports()[h as int].name@ == name
    }

    /// A port named `name` of node `n` gets a master port: `n` groups an application,
    /// is not detached, and the name is one of a common channel.
    pub open spec fn wants_master(&self, n: usize, name: Seq<char>) -> bool {
        &&& self.nodes()[n as int].is_app
        &&& !self.nodes()[n as int].is_detached
        &&& common_name_spec(lowercase(name))
    }

    /// The live port at the other end of the drawn link `l` from the port `m`, when one
    /// end of `l` is `m`.
    pub open spec fn other_end(&self, m: usize, l: usize) -> Option<usize> {
        if self.live(self.links()[l as int].output_port) == Some(m) {
            self.live(self.links()[l as int].input_port)
        } else if self.live(self.links()[l as int].input_port) == Some(m) {
            self.live(self.links()[l as int].output_port)
        } else {
            None
        }
    }

    /// The request that links the port `id` to the port `o`, in the direction of `id`.
    pub open spec fn ensure_towards(&self, direction: Direction, id: PortId, o: usize) -> GtkMessage {
        if direction == Direction::Output {
            GtkMessage::EnsureLink { port_from: id, port_to: PortId(self.ports()[o as int].pipewire_id) }
        } else {
            GtkMessage::EnsureLink { port_from: PortId(self.ports()[o as int].pipewire_id), port_to: id }
        }
    }

    /// `msg` links the port `id` to the port at the far end of some link drawn at `m`.
    pub open spec fn is_master_request(&self, m: usize, direction: Direction, id: PortId, msg: GtkMessage) -> bool {
        exists|e: u32| #[trigger] self.canvas().edges().contains_key(e) && self.other_end(m, self.edge_link(e)) is Some
            && msg == self.ensure_towards(direction, id, self.other_end(m, self.edge_link(e)).unwrap())
    }

    /// The requests for the edges `es`, in their order: one for each edge drawn at the
    /// master port `m` whose far end is alive, linking the port `id` to that end.
    pub open spec fn master_requests(&self, m: usize, direction: Direction, id: PortId, es: Seq<u32>) -> Seq<GtkMessage>
        decreases es.len(),
    {
        if es.len() == 0 {
            Seq::empty()
        } else {
            let rest = self.master_requests(m, direction, id, es.drop_last());
            match self.other_end(m, self.edge_link(es.last())) {
                Some(o) => rest.push(self.ensure_towards(direction, id, o)),
                None => rest,
            }
        }
    }

    /// `es` lists the edge indices of the canvas `c`, each once, in increasing order.
    pub open spec fn edge_order(c: Canvas, es: Seq<u32>) -> bool {
        &&& forall|i: int, j: int| 0 <= i < j < es.len() ==> es[i] < es[j]
        &&& forall|e: u32| c.edges().contains_key(e) <==> es.contains(e)
    }

    /// `r` holds one request for each edge drawn at the master port `m` whose far end is
    /// alive, in increasing order of edge index.
    pub open spec fn master_requests_in_order(&self, m: usize, direction: Direction, id: PortId, r: Seq<GtkMessage>) -> bool {
        exists|es: Seq<u32>| #[trigger] Self::edge_order(self.canvas(), es) && r == self.master_requests(m, direction, id, es)
    }

    fn first_master_named(&self, n: usize, name: &str) -> (r: Option<usize>)
        requires
            self.wf(),
            n < self.nodes().len(),
        ensures
            r is None <==> !self.has_master_named(n, name@),
            r matches Some(m) ==> self.nodes()[n as int].master_ports@.contains(m) && m < self.ports().len()
                && self.ports()[m as int].name@ == name@,
    {
        assert(self.node_ok(n as int));
        let masters = self.nodes[n].master_ports();
        let target = name.to_string();
        let mut i: usize = 0;
        while i < masters.len()
            invariant
                self.wf(),
                n < self.nodes@.len(),
                self.node_ok(n as int),
                target@ == name@,
                masters@.to_set() == self.nodes@[n as int].master_ports@,
                i <= masters@.len(),
                forall|j: int| 0 <= j < i ==> self.ports@[#[trigger] masters@[j] as int].name@ != name@,
            decreases masters.len() - i,
        {
            let m = masters[i];
            assert(masters@.to_set().contains(m));
            if self.ports[m].name == target {
                return Some(m);
            }
            i = i + 1;
        }
        assert forall|h: usize| #[trigger] self.nodes()[n as int].master_ports@.contains(h) && h < self.ports().len()
            implies self.ports()[h as int].name@ != name@ by {
            assert(masters@.to_set().contains(h));
            let j = choose|j: int| 0 <= j < masters@.len() && masters@[j] == h;
        }
        None
    }

    /// The requests that link the port `id` to every live port at the far end of a link
    /// drawn at the master port `m`.
    #[verifier::spinoff_prover]
    fn master_link_requests(&self, m: usize, direction: Direction, id: PortId) -> (r: Vec<GtkMessage>)
        requires
            self.wf(),
        ensures
            forall|i: int| 0 <= i < r@.len() ==> self.is_master_request(m, direction, id, #[trigger] r@[i]),
            forall|e: u32| #[trigger] self.canvas().edges().contains_key(e) && self.other_end(m, self.edge_link(e)) is Some
                ==> r@.contains(self.ensure_towards(direction, id, self.other_end(m, self.edge_link(e)).unwrap())),
            self.master_requests_in_order(m, direction, id, r@),
    {
        let edges = self.canvas.edge_list();
        let mut out: Vec<GtkMessage> = Vec::new();
        let mut i: usize = 0;
        while i < edges.len()
            invariant
                self.wf(),
                i <= edges@.len(),
                forall|k: int| 0 <= k < edges@.len() ==> #[trigger] self.canvas.edges().contains_key(edges@[k].0)
                    && self.canvas.edges()[edges@[k].0] == (edges@[k].1, edges@[k].2, edges@[k].3),
                forall|q: int| 0 <= q < out@.len() ==> self.is_master_request(m, direction, id, #[trigger] out@[q]),
                forall|k: int| 0 <= k < i && (#[trigger] self.other_end(m, edges@[k].3)) is Some ==> out@.contains(
                    self.ensure_towards(direction, id, self.other_end(m, edges@[k].3).unwrap())),
                out@ == self.master_requests(m, direction, id, Seq::new(i as nat, |k: int| edges@[k].0)),
            decreases edges.len() - i,
        {
            let l = edges[i].3;
            assert(self.canvas.edges().contains_key(edges@[i as int].0));
            assert(self.link_ok(l as int));
            let out_p = self.live_port(self.links[l].output_port);
            let in_p = self.live_port(self.links[l].input_port);
            let other = if out_p == Some(m) {
                in_p
            } else if in_p == Some(m) {
                out_p
            } else {
                None
            };
            assert(other == self.other_end(m, l));
            let ghost before = out@;
            proof {
                let es1 = Seq::new((i + 1) as nat, |k: int| edges@[k].0);
                assert(es1.drop_last() =~= Seq::new(i as nat, |k: int| edges@[k].0));
                assert(es1.last() == edges@[i as int].0);
                assert(self.edge_link(edges@[i as int].0) == l);
            }
            if let Some(o) = other {
                let o_id = PortId(self.ports[o].pipewire_id);
                let msg = if direction == Direction::Output {
                    GtkMessage::EnsureLink { port_from: id, port_to: o_id }
                } else {
                    GtkMessage::EnsureLink { port_from: o_id, port_to: id }
                };
                out.push(msg);
                assert(self.edge_link(edges@[i as int].0) == l);
                assert(out@[out@.len() - 1] == self.ensure_towards(direction, id, o));
                assert(self.is_master_request(m, direction, id, out@[out@.len() - 1]));
            }
            assert forall|k: int| 0 <= k < i + 1 && (#[trigger] self.other_end(m, edges@[k].3)) is Some implies out@.contains(
                self.ensure_towards(direction, id, self.other_end(m, edges@[k].3).unwrap())) by {
                if k < i {
                    let w = choose|w: int| 0 <= w < before.len() && before[w] == self.ensure_towards(direction, id, self.other_end(m, edges@[k].3).unwrap());
                    assert(out@[w] == before[w]);
                } else {
                    assert(out@[out@.len() - 1] == self.ensure_towards(direction, id, other.unwrap()));
                }
            }
            assert forall|q: int| 0 <= q < out@.len() implies self.is_master_request(m, direction, id, #[trigger] out@[q]) by {
                if q < before.len() {
                    assert(out@[q] == before[q]);
                }
            }
            i = i + 1;
        }
        assert forall|e: u32| #[trigger] self.canvas().edges().contains_key(e) && self.other_end(m, self.edge_link(e)) is Some
            implies out@.contains(self.ensure_towards(direction, id, self.other_end(m, self.edge_link(e)).unwrap())) by {
            let k = choose|k: int| 0 <= k < edges@.len() && edges@[k].0 == e;
            assert(self.canvas.edges().contains_key(edges@[k].0));
        }
        proof {
            let es = Seq::new(edges@.len(), |k: int| edges@[k].0);
            assert forall|e: u32| self.canvas().edges().contains_key(e) <==> es.contains(e) by {
                if self.canvas().edges().contains_key(e) {
                    let k = choose|k: int| 0 <= k < edges@.len() && edges@[k].0 == e;
                    assert(es[k] == e);
                }
                if es.contains(e) {
                    let k = choose|k: int| 0 <= k < es.len() && es[k] == e;
                    assert(self.canvas.edges().contains_key(edges@[k].0));
                }
            }
            assert(Self::edge_order(self.canvas(), es));
        }
        out
    }

    /// What giving the application group `n` a master port for the port `id` named
    /// `name` does to `a`, giving `b` and the requests `r`: nothing when the group takes
    /// no master port of that name; otherwise the group gets one unless it has one
    /// already, and `r` links the port `id` to every port that a drawn link joins to the
    /// master port of that name.
    pub open spec fn master_step(a: Self, b: Self, n: usize, name: Seq<char>, direction: Direction, id: PortId, r: Seq<GtkMessage>) -> bool {
        &&& b.links() == a.links()
        &&& b.canvas() == a.canvas()
        &&& b.groups() == a.groups()
        &&& b.offline() == a.offline()
        &&& b.masters() == a.masters()
        &&& b.real_masters() == a.real_masters()
        &&& b.internal_nodes() == a.internal_nodes()
        &&& b.deletions() == a.deletions()
        &&& b.detached() == a.detached()
        &&& b.pending() == a.pending()
        &&& b.matrix_pending() == a.matrix_pending()
        &&& !a.wants_master(n, name) ==> r.len() == 0 && b.nodes() == a.nodes() && b.ports() == a.ports() && b.items() == a.items()
        &&& a.wants_master(n, name) && a.has_master_named(n, name) ==> b.nodes() == a.nodes()
            && b.ports() == a.ports() && b.items() == a.items()
        &&& a.wants_master(n, name) && !a.has_master_named(n, name) ==> {
            let p = a.ports().len();
            let proxy = b.ports()[p as int];
            &&& b.ports().len() == p + 1
            &&& b.ports().subrange(0, p as int) == a.ports()
            &&& proxy.pipewire_id == proxy_id_for(a.nodes()[n as int].app_name@, name)
            &&& proxy.name@ == name
            &&& proxy.direction == port_direction_of(direction)
            &&& proxy.media_type == (match a.items().get(id.0) {
                Some(Entry::Port(h)) => a.ports()[h as int].media_type,
                _ => crate::ids::PortMediaType::Unknown,
            })
            &&& proxy.online
            &&& proxy.parent == Some(n)
            &&& (a.nodes()[n as int].sub_nodes@.dom().len() == 0 ==> proxy.node_id == 0)
            &&& (a.nodes()[n as int].sub_nodes@.dom().len() > 0 ==> a.nodes()[n as int].sub_nodes@.contains_key(proxy.node_id))
            &&& b.items() == a.items().insert(proxy.pipewire_id, Entry::Port(p as usize))
            &&& b.nodes().len() == a.nodes().len()
            &&& b.nodes()[n as int].master_ports@ == a.nodes()[n as int].master_ports@.insert(p as usize)
            &&& crate::graph_items::node_frame(a.nodes()[n as int], b.nodes()[n as int])
            &&& b.nodes()[n as int].ports == a.nodes()[n as int].ports
            &&& b.nodes()[n as int].sub_nodes == a.nodes()[n as int].sub_nodes
            &&& b.nodes()[n as int].internal_links == a.nodes()[n as int].internal_links
            &&& forall|q: int| 0 <= q < a.nodes().len() && q != n ==> #[trigger] b.nodes()[q] == a.nodes()[q]
        }
        &&& a.wants_master(n, name) ==> exists|m: usize| {
            &&& #[trigger] b.nodes()[n as int].master_ports@.contains(m)
            &&& m < b.ports().len()
            &&& b.ports()[m as int].name@ == name
            &&& forall|i: int| 0 <= i < r.len() ==> b.is_master_request(m, direction, id, #[trigger] r[i])
            &&& forall|e: u32| #[trigger] b.canvas().edges().contains_key(e)
                && b.other_end(m, b.edge_link(e)) is Some ==> r.contains(
                b.ensure_towards(direction, id, b.other_end(m, b.edge_link(e)).unwrap()))
            &&& b.master_requests_in_order(m, direction, id, r)
        }
    }

    /// Give the application group `n` a master port for the port `id` named `name`
    /// when the name is one of a common channel and the group has no master port of
    /// that name yet; then ask PipeWire to link the port `id` to every port that a
    /// drawn link joins to the master port of that name.
    pub fn check_and_create_master_port(&mut self, n: usize, name: &str, direction: Direction, id: PortId) -> (r: Vec<GtkMessage>)
        requires
            old(self).wf(),
            n < old(self).nodes().len(),
        ensures
            final(self).wf(),
            Self::master_step(*old(self), *final(self), n, name@, direction, id, r@),
    {
        if !self.nodes[n].is_app || self.nodes[n].is_detached {
            return Vec::new();
        }
        if !is_common_port_name(name) {
            return Vec::new();
        }
        let ghost pre = *self;
        if self.first_master_named(n, name).is_none() {
            let proxy_id = proxy_port_id(self.nodes[n].app_name.as_str(), name);
            let mut proxy = Port::new(proxy_id, name, direction);
            if let Some(Entry::Port(src)) = self.items.get(&id.0) {
                assert(self.entry_ok(id.0, self.items@[id.0]));
                proxy.media_type = self.ports[*src].media_type;
            }
            proxy.node_id = self.nodes[n].first_sub_node_id();
            proxy.parent = Some(n);
            let p = self.ports.len();
            self.ports.push(proxy);
            self.nodes[n].add_master_port(p);
            self.items.insert(proxy_id.0, Entry::Port(p));
            proof {
                assert(self.ports@.subrange(0, p as int) =~= pre.ports@);
                assert forall|q: int| 0 <= q < self.nodes@.len() implies #[trigger] self.masters_unique(q) by {
                    assert(pre.masters_unique(q));
                    assert(pre.node_ok(q));
                    assert forall|m1: usize, m2: usize| #[trigger] self.nodes()[q].master_ports@.contains(m1) && #[trigger] self.nodes()[q].master_ports@.contains(m2)
                        && self.ports()[m1 as int].name@ == self.ports()[m2 as int].name@ implies m1 == m2 by {
                        if m1 != p {
                            assert(pre.nodes()[q].master_ports@.contains(m1));
                            assert(self.ports@[m1 as int] == pre.ports@[m1 as int]);
                        }
                        if m2 != p {
                            assert(pre.nodes()[q].master_ports@.contains(m2));
                            assert(self.ports@[m2 as int] == pre.ports@[m2 as int]);
                        }
                        if m1 == p && m2 != p {
                            assert(pre.has_master_named(n, name@));
                        }
                        if m2 == p && m1 != p {
                            assert(pre.has_master_named(n, name@));
                        }
                    }
                }
                assert forall|i: u32| #[trigger] self.items@.contains_key(i) implies self.entry_ok(i, self.items@[i]) by {
                    if i != proxy_id.0 {
                        assert(pre.entry_ok(i, pre.items@[i]));
                    }
                }
                assert forall|q: int| 0 <= q < self.nodes@.len() implies #[trigger] self.node_ok(q) by {
                    assert(pre.node_ok(q));
                    assert forall|h: usize| #[trigger] self.nodes()[q].ports@.contains(h) implies h < self.ports().len()
                        && self.ports()[h as int].parent == Some(q as usize) by {
                        assert(pre.nodes()[q].ports@.contains(h));
                    }
                    assert forall|h: usize| #[trigger] self.nodes()[q].master_ports@.contains(h) implies h < self.ports().len()
                        && self.ports()[h as int].parent == Some(q as usize) by {
                        if h != p {
                            assert(pre.nodes()[q].master_ports@.contains(h));
                        }
                    }
                }
                assert forall|q: int| 0 <= q < self.ports@.len() implies #[trigger] self.port_ok(q) by {
                    if q < p {
                        assert(pre.port_ok(q));
                    }
                }
                assert forall|l: int| 0 <= l < self.links@.len() implies #[trigger] self.link_ok(l) by {
                    assert(pre.link_ok(l));
                }
            }
        }
        let master = self.first_master_named(n, name);
        match master {
            Some(m) => self.master_link_requests(m, direction, id),
            None => {
                proof {
                    if pre.has_master_named(n, name@) {
                        let h = choose|h: usize| #[trigger] pre.nodes()[n as int].master_ports@.contains(h) && h < pre.ports().len()
                            && pre.ports()[h as int].name@ == name@;
                        assert(self.nodes()[n as int].master_ports@.contains(h));
                    } else {
                        assert(self.nodes()[n as int].master_ports@.contains(pre.ports().len() as usize));
                    }
                }
                Vec::new()
            },
        }
    }

    /// The connections waiting to be made, by their four names.
    pub open spec fn pending_view(&self) -> Seq<(Seq<char>, Seq<char>, Seq<char>, Seq<char>)> {
        self.pending().map_values(|c: ConnectionPreset| conn_view(c))
    }

    /// The port `h` is known under its own id, goes in the direction `dir`, is named
    /// `port`, and its node, known under the port's node id, belongs to the
    /// application `app`.
    pub open spec fn preset_port(&self, h: usize, app: Seq<char>, port: Seq<char>, dir: PortDirection) -> bool {
        &&& h < self.ports().len()
        &&& self.items().get(self.ports()[h as int].pipewire_id) == Some(Entry::Port(h))
        &&& self.ports()[h as int].direction == dir
        &&& self.ports()[h as int].name@ == port
        &&& self.items().get(self.ports()[h as int].node_id) matches Some(Entry::Node(n))
        &&& n < self.nodes().len()
        &&& self.nodes()[n as int].app_name@ == app
    }

    /// The entry under `id` is a port that `preset_port` accepts.
    pub open spec fn id_gives_preset_port(&self, id: u32, app: Seq<char>, port: Seq<char>, dir: PortDirection) -> bool {
        match self.items().get(id) {
            Some(Entry::Port(h)) => self.preset_port(h, app, port, dir),
            _ => false,
        }
    }

    /// Both ports of the connection `c` can be found.
    pub open spec fn can_apply(&self, c: (Seq<char>, Seq<char>, Seq<char>, Seq<char>)) -> bool {
        &&& exists|h: usize| #[trigger] self.preset_port(h, c.0, c.1, PortDirection::Output)
        &&& exists|h: usize| #[trigger] self.preset_port(h, c.2, c.3, PortDirection::Input)
    }

    /// `msg` links an output port found for the connection `c` to an input port found
    /// for it.
    pub open spec fn preset_request(&self, c: (Seq<char>, Seq<char>, Seq<char>, Seq<char>), msg: GtkMessage) -> bool {
        exists|s: usize, k: usize| #[trigger] self.preset_port(s, c.0, c.1, PortDirection::Output)
            && #[trigger] self.preset_port(k, c.2, c.3, PortDirection::Input)
            && msg == (GtkMessage::EnsureLink {
                port_from: PortId(self.ports()[s as int].pipewire_id),
                port_to: PortId(self.ports()[k as int].pipewire_id),
            })
    }

    /// The connections of `a` whose two ports can be found, in order.
    pub open spec fn applicable(a: Self) -> Seq<(Seq<char>, Seq<char>, Seq<char>, Seq<char>)> {
        a.pending_view().filter(|c: (Seq<char>, Seq<char>, Seq<char>, Seq<char>)| a.can_apply(c))
    }

    /// What making the waiting connections does to `a`, giving `b` and the requests
    /// `r`: each connection whose two ports can be found is asked for, in order, and
    /// leaves the waiting list; nothing else changes.
    pub open spec fn pending_step(a: Self, b: Self, r: Seq<GtkMessage>) -> bool {
        &&& b.nodes() == a.nodes()
        &&& b.ports() == a.ports()
        &&& b.links() == a.links()
        &&& b.items() == a.items()
        &&& b.canvas() == a.canvas()
        &&& b.groups() == a.groups()
        &&& b.offline() == a.offline()
        &&& b.masters() == a.masters()
        &&& b.real_masters() == a.real_masters()
        &&& b.internal_nodes() == a.internal_nodes()
        &&& b.deletions() == a.deletions()
        &&& b.detached() == a.detached()
        &&& b.matrix_pending() == a.matrix_pending()
        &&& b.pending_view() == a.pending_view().filter(|c: (Seq<char>, Seq<char>, Seq<char>, Seq<char>)| !a.can_apply(c))
        &&& r.len() == Self::applicable(a).len()
        &&& forall|i: int| 0 <= i < r.len() ==> a.preset_request(Self::applicable(a)[i], #[trigger] r[i])
    }

    /// A port that `preset_port` accepts, if there is one.
    fn find_preset_port(&self, app: &String, port: &String, dir: PortDirection) -> (r: Option<usize>)
        requires
            self.wf(),
        ensures
            r matches Some(h) ==> self.preset_port(h, app@, port@, dir),
            r is None ==> forall|h: usize| !#[trigger] self.preset_port(h, app@, port@, dir),
    {
        let ids = keys_u32(&self.items);
        let mut i: usize = 0;
        while i < ids.len()
            invariant
                self.wf(),
                ids@.to_set() == self.items@.dom(),
                i <= ids@.len(),
                forall|j: int| 0 <= j < i ==> !self.id_gives_preset_port(#[trigger] ids@[j], app@, port@, dir),
            decreases ids.len() - i,
        {
            let id = ids[i];
            assert(ids@.to_set().contains(id));
            if let Some(Entry::Port(h)) = self.items.get(&id) {
                let h = *h;
                assert(self.entry_ok(id, self.items@[id]));
                let p = &self.ports[h];
                if p.direction == dir && p.name == *port {
                    if let Some(Entry::Node(n)) = self.items.get(&p.node_id) {
                        let n = *n;
                        assert(self.entry_ok(p.node_id, self.items@[p.node_id]));
                        if self.nodes[n].app_name == *app {
                            assert(self.preset_port(h, app@, port@, dir));
                            return Some(h);
                        }
                    }
                }
            }
            assert(!self.id_gives_preset_port(id, app@, port@, dir));
            i = i + 1;
        }
        assert forall|h: usize| !#[trigger] self.preset_port(h, app@, port@, dir) by {
            if self.preset_port(h, app@, port@, dir) {
                let id = self.ports()[h as int].pipewire_id;
                assert(ids@.to_set().contains(id));
                let j = choose|j: int| 0 <= j < ids@.len() && ids@[j] == id;
                assert(self.id_gives_preset_port(ids@[j], app@, port@, dir));
            }
        }
        None
    }

    /// Ask PipeWire for every waiting connection whose two ports are known now, and
    /// stop waiting for those.
    pub fn check_pending_links(&mut self) -> (r: Vec<GtkMessage>)
        requires
            old(self).wf(),
        ensures
            final(self).wf(),
            Self::pending_step(*old(self), *final(self), r@),
    {
        let ghost pre = *self;
        let ghost pv = pre.pending_view();
        let ghost keep = |c: (Seq<char>, Seq<char>, Seq<char>, Seq<char>)| !pre.can_apply(c);
        let ghost take = |c: (Seq<char>, Seq<char>, Seq<char>, Seq<char>)| pre.can_apply(c);
        let mut kept: Vec<ConnectionPreset> = Vec::new();
        let mut out: Vec<GtkMessage> = Vec::new();
        let mut i: usize = 0;
        while i < self.pending_links.len()
            invariant
                self.wf(),
                *self == pre,
                pv == pre.pending_view(),
                pv.len() == self.pending_links@.len(),
                keep == (|c: (Seq<char>, Seq<char>, Seq<char>, Seq<char>)| !pre.can_apply(c)),
                take == (|c: (Seq<char>, Seq<char>, Seq<char>, Seq<char>)| pre.can_apply(c)),
                i <= pv.len(),
                kept@.map_values(|c: ConnectionPreset| conn_view(c)) == pv.take(i as int).filter(keep),
                out@.len() == pv.take(i as int).filter(take).len(),
                forall|j: int| 0 <= j < out@.len() ==> pre.preset_request(pv.take(i as int).filter(take)[j], #[trigger] out@[j]),
            decreases pv.len() - i,
        {
            let c = &self.pending_links[i];
            assert(pv[i as int] == conn_view(*c));
            let s = self.find_preset_port(&c.source_app, &c.source_port, PortDirection::Output);
            let k = self.find_preset_port(&c.sink_app, &c.sink_port, PortDirection::Input);
            let ghost kept_before = kept@;
            let ghost out_before = out@;
            proof {
                assert(pv.take(i as int + 1).drop_last() =~= pv.take(i as int));
                assert(pv.take(i as int + 1).last() == pv[i as int]);
                reveal(Seq::filter);
            }
            match (s, k) {
                (Some(s), Some(k)) => {
                    let msg = GtkMessage::EnsureLink {
                        port_from: PortId(self.ports[s].pipewire_id),
                        port_to: PortId(self.ports[k].pipewire_id),
                    };
                    out.push(msg);
                    proof {
                        assert(pre.preset_port(s, pv[i as int].0, pv[i as int].1, PortDirection::Output));
                        assert(pre.preset_port(k, pv[i as int].2, pv[i as int].3, PortDirection::Input));
                        assert(pre.can_apply(pv[i as int]));
                        assert(pre.preset_request(pv[i as int], msg));
                        assert(pv.take(i as int + 1).filter(take) == pv.take(i as int).filter(take).push(pv[i as int]));
                        assert(pv.take(i as int + 1).filter(keep) == pv.take(i as int).filter(keep));
                        assert forall|j: int| 0 <= j < out@.len() implies pre.preset_request(pv.take(i as int + 1).filter(take)[j], #[trigger] out@[j]) by {
                            if j < out_before.len() {
                                assert(out@[j] == out_before[j]);
                            }
                        }
                    }
                },
                _ => {
                    kept.push(c.duplicate());
                    proof {
                        if pre.can_apply(pv[i as int]) {
                            let w1 = choose|h: usize| #[trigger] pre.preset_port(h, pv[i as int].0, pv[i as int].1, PortDirection::Output);
                            let w2 = choose|h: usize| #[trigger] pre.preset_port(h, pv[i as int].2, pv[i as int].3, PortDirection::Input);
                            assert(s is Some);
                            assert(k is Some);
                        }
                        assert(!pre.can_apply(pv[i as int]));
                        assert(pv.take(i as int + 1).filter(take) == pv.take(i as int).filter(take));
                        assert(pv.take(i as int + 1).filter(keep) == pv.take(i as int).filter(keep).push(pv[i as int]));
                        assert(kept@.map_values(|c: ConnectionPreset| conn_view(c)) =~= kept_before.map_values(|c: ConnectionPreset| conn_view(c)).push(pv[i as int]));
                    }
                },
            }
            i = i + 1;
        }
        proof {
            assert(pv.take(pv.len() as int) =~= pv);
        }
        self.pending_links = kept;
        proof {
            Self::lemma_same_shape(&pre, self);
            assert(self.pending_view() == pv.filter(keep));
            assert(Self::applicable(pre) == pv.filter(take));
        }
        out
    }

    /// The node and the port kept under `id`, when `id` names a port whose node is
    /// known under the port's node id.
    pub open spec fn port_home(&self, id: u32) -> Option<(usize, usize)> {
        match self.items().get(id) {
            Some(Entry::Port(h)) => match self.items().get(self.ports()[h as int].node_id) {
                Some(Entry::Node(n)) => Some((n, h)),
                _ => None,
            },
            _ => None,
        }
    }

    /// The ports that node `q` of `a` lists once the port `id` of the PipeWire node
    /// `node_id` is put in place with handle `p`: the port kept under `id` before leaves
    /// its node, and the new port joins the node kept under `node_id`.
    pub open spec fn ports_after_placing(a: Self, q: int, id: u32, node_id: u32, p: usize) -> Set<usize> {
        let kept = match a.port_home(id) {
            Some((on, oh)) => if on == q {
                a.nodes()[q].ports@.remove(oh)
            } else {
                a.nodes()[q].ports@
            },
            None => a.nodes()[q].ports@,
        };
        match a.items().get(node_id) {
            Some(Entry::Node(n)) => if n == q {
                kept.insert(p)
            } else {
                kept
            },
            _ => kept,
        }
    }

    /// What putting in place the port `id` named `name` of the PipeWire node `node_id`
    /// does to `a`, giving `b`: the port kept under `id` before leaves its node; when a
    /// node is kept under `node_id`, a new online port joins it and is kept under `id`.
    pub open spec fn port_placed(a: Self, b: Self, id: PortId, name: Seq<char>, node_id: NodeId, direction: Direction) -> bool {
        let p = a.ports().len();
        &&& b.links() == a.links()
        &&& b.canvas() == a.canvas()
        &&& b.groups() == a.groups()
        &&& b.offline() == a.offline()
        &&& b.masters() == a.masters()
        &&& b.real_masters() == a.real_masters()
        &&& b.internal_nodes() == a.internal_nodes()
        &&& b.deletions() == a.deletions()
        &&& b.detached() == a.detached()
        &&& b.pending() == a.pending()
        &&& b.matrix_pending() == a.matrix_pending()
        &&& b.nodes().len() == a.nodes().len()
        &&& forall|q: int| 0 <= q < a.nodes().len() ==> {
            &&& crate::graph_items::node_frame(a.nodes()[q], #[trigger] b.nodes()[q])
            &&& b.nodes()[q].sub_nodes == a.nodes()[q].sub_nodes
            &&& b.nodes()[q].master_ports == a.nodes()[q].master_ports
            &&& b.nodes()[q].internal_links == a.nodes()[q].internal_links
            &&& b.nodes()[q].ports@ == Self::ports_after_placing(a, q, id.0, node_id.0, p as usize)
        }
        &&& match a.items().get(node_id.0) {
            Some(Entry::Node(n)) => {
                &&& b.ports().len() == p + 1
                &&& b.ports().subrange(0, p as int) == a.ports()
                &&& b.ports()[p as int].pipewire_id == id.0
                &&& b.ports()[p as int].name@ == name
                &&& b.ports()[p as int].direction == port_direction_of(direction)
                &&& b.ports()[p as int].media_type == crate::ids::PortMediaType::Unknown
                &&& b.ports()[p as int].node_id == node_id.0
                &&& b.ports()[p as int].online
                &&& b.ports()[p as int].parent == Some(n)
                &&& b.items() == a.items().insert(id.0, Entry::Port(p as usize))
            },
            _ => b.ports() == a.ports() && b.items() == a.items(),
        }
    }

    /// The master port step that follows putting a port in place: it runs for the
    /// node kept under `node_id`, if one still is.
    pub open spec fn master_phase(a: Self, b: Self, node_id: NodeId, name: Seq<char>, direction: Direction, id: PortId, r: Seq<GtkMessage>) -> bool {
        match a.items().get(node_id.0) {
            Some(Entry::Node(n)) => Self::master_step(a, b, n, name, direction, id, r),
            _ => a == b && r.len() == 0,
        }
    }

    /// `r` makes again the ghost links of the port kept under `id`, if a port is.
    pub open spec fn restores_port(&self, id: PortId, r: Seq<GtkMessage>) -> bool {
        match self.items().get(id.0) {
            Some(Entry::Port(h)) => self.restores(h, r),
            _ => r.len() == 0,
        }
    }

    /// What `add_port` does to `a`, giving `b` and the requests `r` (for master ports,
    /// for ghost links made again, and for waiting connections): the port is put in
    /// place; when it joined a node, the master port step, the ghost links of the port
    /// and the waiting connections follow, in that order.
    pub open spec fn add_port_step(a: Self, b: Self, id: PortId, name: Seq<char>, node_id: NodeId, direction: Direction,
        masters: Seq<GtkMessage>, restored: Seq<GtkMessage>, preset: Seq<GtkMessage>) -> bool {
        match a.items().get(node_id.0) {
            Some(Entry::Node(_)) => exists|s2: Self, s3: Self|
                #![trigger Self::port_placed(a, s2, id, name, node_id, direction), Self::master_phase(s2, s3, node_id, name, direction, id, masters)]
                {
                &&& Self::port_placed(a, s2, id, name, node_id, direction)
                &&& s2.wf()
                &&& Self::master_phase(s2, s3, node_id, name, direction, id, masters)
                &&& s3.wf()
                &&& s3.restores_port(id, restored)
                &&& Self::pending_step(s3, b, preset)
            },
            _ => Self::port_placed(a, b, id, name, node_id, direction) && masters.len() == 0 && restored.len() == 0 && preset.len() == 0,
        }
    }

    fn place_port(&mut self, id: PortId, name: &str, node_id: NodeId, direction: Direction) -> (r: Option<usize>)
        requires
            old(self).wf(),
        ensures
            final(self).wf(),
            Self::port_placed(*old(self), *final(self), id, name@, node_id, direction),
            r == (match old(self).items().get(node_id.0) {
                Some(Entry::Node(n)) => Some(n),
                _ => None,
            }),
    {
        let ghost a = *self;
        let ghost p = a.ports@.len() as usize;
        let mut port = Port::new(id, name, direction);
        port.node_id = node_id.0;
        if let Some(Entry::Port(oh)) = self.items.get(&id.0) {
            let oh = *oh;
            assert(self.entry_ok(id.0, self.items@[id.0]));
            if let Some(Entry::Node(on)) = self.items.get(&self.ports[oh].node_id) {
                let on = *on;
                assert(self.entry_ok(self.ports@[oh as int].node_id, self.items@[self.ports@[oh as int].node_id]));
                self.nodes[on].remove_port(oh);
            }
        }
        let ghost s1 = *self;
        assert forall|q: int| 0 <= q < s1.nodes@.len() implies #[trigger] s1.node_ok(q) by {
            assert(a.node_ok(q));
            assert forall|h: usize| #[trigger] s1.nodes()[q].ports@.contains(h) implies h < s1.ports().len()
                && s1.ports()[h as int].parent == Some(q as usize) by {
                assert(a.nodes()[q].ports@.contains(h));
            }
            assert forall|h: usize| #[trigger] s1.nodes()[q].master_ports@.contains(h) implies h < s1.ports().len()
                && s1.ports()[h as int].parent == Some(q as usize) by {
                assert(a.nodes()[q].master_ports@.contains(h));
            }
        }
        let target = match self.items.get(&node_id.0) {
            Some(Entry::Node(n)) => Some(*n),
            _ => None,
        };
        if let Some(n) = target {
            assert(self.entry_ok(node_id.0, self.items@[node_id.0]));
            port.parent = Some(n);
            let p_exec = self.ports.len();
            self.ports.push(port);
            self.nodes[n].add_port(p_exec);
            self.items.insert(id.0, Entry::Port(p_exec));
            proof {
                assert forall|k: int| 0 <= k < a.ports@.len() implies #[trigger] self.ports@[k].name@ == a.ports@[k].name@ by {
                    assert(self.ports@[k] == a.ports@[k]);
                }
                Self::lemma_masters_unique_kept(&a, self);
                assert(self.ports@.subrange(0, p as int) =~= a.ports@);
                assert forall|i: u32| #[trigger] self.items@.contains_key(i) implies self.entry_ok(i, self.items@[i]) by {
                    if i != id.0 {
                        assert(a.entry_ok(i, a.items@[i]));
                    }
                }
                assert forall|q: int| 0 <= q < self.nodes@.len() implies #[trigger] self.node_ok(q) by {
                    assert(s1.node_ok(q));
                    assert forall|h: usize| #[trigger] self.nodes()[q].ports@.contains(h) implies h < self.ports().len()
                        && self.ports()[h as int].parent == Some(q as usize) by {
                        if h != p {
                            assert(s1.nodes()[q].ports@.contains(h));
                        }
                    }
                    assert forall|h: usize| #[trigger] self.nodes()[q].master_ports@.contains(h) implies h < self.ports().len()
                        && self.ports()[h as int].parent == Some(q as usize) by {
                        assert(s1.nodes()[q].master_ports@.contains(h));
                    }
                }
                assert forall|q: int| 0 <= q < self.ports@.len() implies #[trigger] self.port_ok(q) by {
                    if q < p {
                        assert(a.port_ok(q));
                    }
                }
                assert forall|l: int| 0 <= l < self.links@.len() implies #[trigger] self.link_ok(l) by {
                    assert(a.link_ok(l));
                }
                assert forall|q: int| 0 <= q < a.nodes().len() implies self.nodes()[q].ports@
                    == Self::ports_after_placing(a, q, id.0, node_id.0, p) by {
                    assert(self.nodes()[q].ports@ =~= Self::ports_after_placing(a, q, id.0, node_id.0, p));
                }
            }
        } else {
            proof {
                Self::lemma_masters_unique_kept(&a, self);
                assert forall|i: u32| #[trigger] self.items@.contains_key(i) implies self.entry_ok(i, self.items@[i]) by {
                    assert(a.entry_ok(i, a.items@[i]));
                }
                assert forall|q: int| 0 <= q < self.ports@.len() implies #[trigger] self.port_ok(q) by {
                    assert(a.port_ok(q));
                }
                assert forall|l: int| 0 <= l < self.links@.len() implies #[trigger] self.link_ok(l) by {
                    assert(a.link_ok(l));
                }
                assert forall|q: int| 0 <= q < a.nodes().len() implies self.nodes()[q].ports@
                    == Self::ports_after_placing(a, q, id.0, node_id.0, p) by {
                    assert(self.nodes()[q].ports@ =~= Self::ports_after_placing(a, q, id.0, node_id.0, p));
                }
            }
        }
        target
    }

    /// A new port of PipeWire: put it in place, give its application group a master
    /// port for it if it needs one, make again its ghost links, and make the waiting
    /// connections whose ports are now all known.
    pub fn add_port(&mut self, id: PortId, name: &str, node_id: NodeId, direction: Direction) -> (r: PortRequests)
        requires
            old(self).wf(),
        ensures
            final(self).wf(),
            Self::add_port_step(*old(self), *final(self), id, name@, node_id, direction,
                r.master_links@, r.restored_links@, r.preset_links@),
    {
        let ghost a = *self;
        let placed = self.place_port(id, name, node_id, direction);
        if placed.is_none() {
            let r = PortRequests { master_links: Vec::new(), restored_links: Vec::new(), preset_links: Vec::new() };
            return r;
        }
        let ghost s2 = *self;
        let master_links = match self.items.get(&node_id.0) {
            Some(Entry::Node(n)) => {
                let n = *n;
                assert(self.entry_ok(node_id.0, self.items@[node_id.0]));
                self.check_and_create_master_port(n, name, direction, id)
            },
            _ => Vec::new(),
        };
        let ghost s3 = *self;
        let restored_links = match self.items.get(&id.0) {
            Some(Entry::Port(h)) => self.restore_links_for_port(*h),
            _ => Vec::new(),
        };
        let preset_links = self.check_pending_links();
        proof {
            assert(Self::port_placed(a, s2, id, name@, node_id, direction));
            assert(Self::master_phase(s2, s3, node_id, name@, direction, id, master_links@));
            assert(s3.restores_port(id, restored_links@));
            assert(Self::pending_step(s3, *self, preset_links@));
            assert(a.items().get(node_id.0) matches Some(Entry::Node(_)));
            assert(exists|w2: Self, w3: Self|
                #![trigger Self::port_placed(a, w2, id, name@, node_id, direction), Self::master_phase(w2, w3, node_id, name@, direction, id, master_links@)]
                {
                &&& Self::port_placed(a, w2, id, name@, node_id, direction)
                &&& w2.wf()
                &&& Self::master_phase(w2, w3, node_id, name@, direction, id, master_links@)
                &&& w3.wf()
                &&& w3.restores_port(id, restored_links@)
                &&& Self::pending_step(w3, *self, preset_links@)
            });
        }
        PortRequests { master_links, restored_links, preset_links }
    }

    /// The sub-nodes, by names and states, of the node `n` of `a` once the PipeWire node
    /// `id` is gone: a node that deletes itself forgets it, another keeps it offline.
    pub open spec fn subs_after_removal(a: Self, n: usize, id: u32) -> Map<u32, (Seq<char>, bool)> {
        let node = a.nodes()[n as int];
        if node.auto_delete {
            subs_view(node.sub_nodes@).remove(id)
        } else if node.sub_nodes@.contains_key(id) {
            subs_view(node.sub_nodes@).insert(id, (node.sub_nodes@[id].name@, false))
        } else {
            subs_view(node.sub_nodes@)
        }
    }

    /// The ports of the node `n` of `a` that belong to the PipeWire node `id`.
    pub open spec fn sub_ports(a: Self, n: usize, id: u32) -> Set<usize> {
        a.nodes()[n as int].ports@.filter(|h: usize| port_node_id(a.ports(), h) == Some(id))
    }

    /// What removing the PipeWire node `id` does to `a`, giving `b`. The entry under
    /// `id` is forgotten. When it was a node, `id` leaves its sub-nodes; a node that
    /// deletes itself drops the ports of `id`, another shows them offline. When no
    /// sub-node is online any more, the node leaves the application groups: a node
    /// that deletes itself is taken off the canvas; another is kept offline under its
    /// application name, with all its ports offline.
    pub open spec fn remove_node_step(a: Self, b: Self, id: NodeId) -> bool {
        &&& b.links() == a.links()
        &&& b.masters() == a.masters()
        &&& b.real_masters() == a.real_masters()
        &&& b.internal_nodes() == a.internal_nodes()
        &&& b.deletions() == a.deletions()
        &&& b.detached() == a.detached()
        &&& b.pending() == a.pending()
        &&& b.matrix_pending() == a.matrix_pending()
        &&& b.items() == a.items().remove(id.0)
        &&& match a.items().get(id.0) {
            Some(Entry::Node(n)) => {
                let node = a.nodes()[n as int];
                let subs = Self::subs_after_removal(a, n, id.0);
                let empty = online_in(subs) == 0;
                let ghosted = empty && !node.auto_delete;
                let offline_ports = if node.auto_delete {
                    Set::<usize>::empty()
                } else if empty {
                    node.ports@
                } else {
                    Self::sub_ports(a, n, id.0)
                };
                &&& b.nodes().len() == a.nodes().len()
                &&& forall|q: int| 0 <= q < a.nodes().len() && q != n ==> #[trigger] b.nodes()[q] == a.nodes()[q]
                &&& subs_view(b.nodes()[n as int].sub_nodes@) == subs
                &&& b.nodes()[n as int].online == (if ghosted { false } else { node.online })
                &&& node_frame(node, Node { online: node.online, ..b.nodes()[n as int] })
                &&& b.nodes()[n as int].ports@ == (if node.auto_delete {
                    ports_not_of(node.ports@, a.ports(), id.0)
                } else {
                    node.ports@
                })
                &&& b.nodes()[n as int].master_ports == node.master_ports
                &&& b.nodes()[n as int].internal_links == node.internal_links
                &&& b.ports().len() == a.ports().len()
                &&& forall|h: usize| h < a.ports().len() ==> #[trigger] b.ports()[h as int] == (if offline_ports.contains(h) {
                    Port { online: false, ..a.ports()[h as int] }
                } else {
                    a.ports()[h as int]
                })
                &&& b.groups() == (if empty { a.groups().remove(node.app_name@) } else { a.groups() })
                &&& b.offline() == (if ghosted { a.offline().insert(node.app_name@, n) } else { a.offline() })
                &&& (if empty && node.auto_delete {
                    Canvas::node_removed(a.canvas(), b.canvas(), n)
                } else {
                    b.canvas() == a.canvas()
                })
            },
            _ => {
                &&& b.nodes() == a.nodes()
                &&& b.ports() == a.ports()
                &&& b.groups() == a.groups()
                &&& b.offline() == a.offline()
                &&& b.canvas() == a.canvas()
            },
        }
    }

    #[verifier::spinoff_prover]
    proof fn lemma_masters_unique_kept(a: &Self, b: &Self)
        requires
            a.wf(),
            b.nodes@.len() >= a.nodes@.len(),
            b.ports@.len() >= a.ports@.len(),
            forall|n: int| 0 <= n < a.nodes@.len() ==> #[trigger] b.nodes@[n].master_ports@ == a.nodes@[n].master_ports@,
            forall|n: int| a.nodes@.len() <= n < b.nodes@.len() ==> #[trigger] b.nodes@[n].master_ports@ == Set::<usize>::empty(),
            forall|h: int| 0 <= h < a.ports@.len() ==> #[trigger] b.ports@[h].name@ == a.ports@[h].name@,
        ensures
            forall|n: int| 0 <= n < b.nodes@.len() ==> #[trigger] b.masters_unique(n),
    {
        assert forall|n: int| 0 <= n < b.nodes@.len() implies #[trigger] b.masters_unique(n) by {
            if n < a.nodes@.len() {
                assert(a.masters_unique(n));
                assert(a.node_ok(n));
                assert(b.nodes@[n].master_ports@ == a.nodes@[n].master_ports@);
                assert forall|m1: usize, m2: usize| #[trigger] b.nodes()[n].master_ports@.contains(m1) && #[trigger] b.nodes()[n].master_ports@.contains(m2)
                    && b.ports()[m1 as int].name@ == b.ports()[m2 as int].name@ implies m1 == m2 by {
                    assert(a.nodes()[n].master_ports@.contains(m1));
                    assert(a.nodes()[n].master_ports@.contains(m2));
                    assert(b.ports@[m1 as int].name@ == a.ports@[m1 as int].name@);
                    assert(b.ports@[m2 as int].name@ == a.ports@[m2 as int].name@);
                }
            }
        }
    }

    proof fn lemma_arena_same(a: &Self, b: &Self)
        requires
            a.wf(),
            b.nodes@ == a.nodes@,
            b.ports@ == a.ports@,
            b.links@ == a.links@,
        ensures
            forall|n: int| 0 <= n < b.nodes@.len() ==> #[trigger] b.node_ok(n),
            forall|h: int| 0 <= h < b.ports@.len() ==> #[trigger] b.port_ok(h),
            forall|l: int| 0 <= l < b.links@.len() ==> #[trigger] b.link_ok(l),
            forall|n: int| 0 <= n < b.nodes@.len() ==> #[trigger] b.masters_unique(n),
    {
        assert forall|n: int| 0 <= n < b.nodes@.len() implies #[trigger] b.masters_unique(n) by {
            assert(a.masters_unique(n));
        }
        assert forall|n: int| 0 <= n < b.nodes@.len() implies #[trigger] b.node_ok(n) by {
            assert(a.node_ok(n));
            assert forall|q: usize| #[trigger] b.nodes()[n].ports@.contains(q) implies q < b.ports().len()
                && b.ports()[q as int].parent == Some(n as usize) by {
                assert(a.nodes()[n].ports@.contains(q));
            }
            assert forall|q: usize| #[trigger] b.nodes()[n].master_ports@.contains(q) implies q < b.ports().len()
                && b.ports()[q as int].parent == Some(n as usize) by {
                assert(a.nodes()[n].master_ports@.contains(q));
            }
        }
        assert forall|q: int| 0 <= q < b.ports@.len() implies #[trigger] b.port_ok(q) by {
            assert(a.port_ok(q));
        }
        assert forall|l: int| 0 <= l < b.links@.len() implies #[trigger] b.link_ok(l) by {
            assert(a.link_ok(l));
        }
    }

    proof fn lemma_items_removed_wf(a: &Self, b: &Self, id: u32)
        requires
            a.wf(),
            *b == (GraphManager { items: b.items, ..*a }),
            b.items@ == a.items@.remove(id),
        ensures
            b.wf(),
    {
        Self::lemma_masters_unique_kept(a, b);
        assert forall|i: u32| #[trigger] b.items@.contains_key(i) implies b.entry_ok(i, b.items@[i]) by {
            assert(a.entry_ok(i, a.items@[i]));
        }
        assert forall|n: int| 0 <= n < b.nodes@.len() implies #[trigger] b.node_ok(n) by {
            assert(a.node_ok(n));
            assert forall|q: usize| #[trigger] b.nodes()[n].ports@.contains(q) implies q < b.ports().len()
                && b.ports()[q as int].parent == Some(n as usize) by {
                assert(a.nodes()[n].ports@.contains(q));
            }
            assert forall|q: usize| #[trigger] b.nodes()[n].master_ports@.contains(q) implies q < b.ports().len()
                && b.ports()[q as int].parent == Some(n as usize) by {
                assert(a.nodes()[n].master_ports@.contains(q));
            }
        }
        assert forall|q: int| 0 <= q < b.ports@.len() implies #[trigger] b.port_ok(q) by {
            assert(a.port_ok(q));
        }
        assert forall|l: int| 0 <= l < b.links@.len() implies #[trigger] b.link_ok(l) by {
            assert(a.link_ok(l));
        }
    }

    /// The PipeWire node `id` is gone.
    pub fn remove_node(&mut self, id: NodeId)
        requires
            old(self).wf(),
        ensures
            final(self).wf(),
            Self::remove_node_step(*old(self), *final(self), id),
    {
        let ghost a = *self;
        let removed = self.items.remove(&id.0);
        proof {
            Self::lemma_items_removed_wf(&a, self, id.0);
        }
        let n = match removed {
            Some(Entry::Node(n)) => n,
            _ => {
                return;
            },
        };
        assert(a.entry_ok(id.0, a.items@[id.0]));
        let ghost s0 = *self;
        self.nodes[n].remove_sub_node(id.0);
        let ghost s1 = *self;
        proof {
            Self::lemma_same_shape(&s0, &s1);
        }
        let hs = self.nodes[n].ports();
        let auto = self.nodes[n].auto_delete;
        let ghost sub = Self::sub_ports(a, n, id.0);
        let ghost is_sub = |h: usize| port_node_id(a.ports(), h) == Some(id.0);
        assert(s1.node_ok(n as int));
        if auto {
            let mut i: usize = 0;
            let ghost mut done: Set<usize> = Set::empty();
            while i < hs.len()
                invariant
                    s1.wf(),
                    s1.node_ok(n as int),
                    n < s1.nodes@.len(),
                    s1.ports@ == a.ports@,
                    hs@.to_set() == s1.nodes@[n as int].ports@,
                    i <= hs@.len(),
                    forall|j: int| 0 <= j < i ==> done.contains(#[trigger] hs@[j]),
                    forall|x: usize| #[trigger] done.contains(x) ==> hs@.contains(x),
                    *self == (GraphManager { nodes: self.nodes, ..s1 }),
                    self.nodes@.len() == s1.nodes@.len(),
                    forall|q: int| 0 <= q < s1.nodes@.len() && q != n ==> #[trigger] self.nodes@[q] == s1.nodes@[q],
                    node_frame(s1.nodes@[n as int], self.nodes@[n as int]),
                    self.nodes@[n as int].sub_nodes == s1.nodes@[n as int].sub_nodes,
                    self.nodes@[n as int].master_ports == s1.nodes@[n as int].master_ports,
                    self.nodes@[n as int].internal_links == s1.nodes@[n as int].internal_links,
                    self.nodes@[n as int].ports@ == s1.nodes@[n as int].ports@.filter(
                        |x: usize| !(done.contains(x) && port_node_id(a.ports(), x) == Some(id.0))),
                decreases hs.len() - i,
            {
                let h = hs[i];
                assert(hs@.to_set().contains(h));
                proof {
                    done = done.insert(h);
                }
                if self.ports[h].node_id == id.0 {
                    self.nodes[n].remove_port(h);
                }
                assert(self.nodes@[n as int].ports@ =~= s1.nodes@[n as int].ports@.filter(
                    |x: usize| !(done.contains(x) && port_node_id(a.ports(), x) == Some(id.0))));
                i = i + 1;
            }
            proof {
                Self::lemma_masters_unique_kept(&s1, self);
                assert(self.nodes@[n as int].ports@ =~= ports_not_of(a.nodes()[n as int].ports@, a.ports(), id.0)) by {
                    assert forall|x: usize| s1.nodes@[n as int].ports@.contains(x) implies done.contains(x) by {
                        assert(hs@.to_set().contains(x));
                        let j = choose|j: int| 0 <= j < hs@.len() && hs@[j] == x;
                        assert(done.contains(hs@[j]));
                    }
                }
                assert forall|q: int| 0 <= q < self.nodes@.len() implies #[trigger] self.node_ok(q) by {
                    assert(s1.node_ok(q));
                    assert forall|h: usize| #[trigger] self.nodes()[q].ports@.contains(h) implies h < self.ports().len()
                        && self.ports()[h as int].parent == Some(q as usize) by {
                        assert(s1.nodes()[q].ports@.contains(h));
                    }
                    assert forall|h: usize| #[trigger] self.nodes()[q].master_ports@.contains(h) implies h < self.ports().len()
                        && self.ports()[h as int].parent == Some(q as usize) by {
                        assert(s1.nodes()[q].master_ports@.contains(h));
                    }
                }
                assert forall|q: int| 0 <= q < self.ports@.len() implies #[trigger] self.port_ok(q) by {
                    assert(s1.port_ok(q));
                }
                assert forall|l: int| 0 <= l < self.links@.len() implies #[trigger] self.link_ok(l) by {
                    assert(s1.link_ok(l));
                }
                assert(self.wf());
            }
        } else {
            let mut i: usize = 0;
            let ghost mut done: Set<usize> = Set::empty();
            while i < hs.len()
                invariant
                    s1.wf(),
                    s1.node_ok(n as int),
                    n < s1.nodes@.len(),
                    s1.ports@ == a.ports@,
                    hs@.to_set() == s1.nodes@[n as int].ports@,
                    i <= hs@.len(),
                    forall|j: int| 0 <= j < i ==> done.contains(#[trigger] hs@[j]),
                    forall|x: usize| #[trigger] done.contains(x) ==> hs@.contains(x),
                    *self == (GraphManager { ports: self.ports, ..s1 }),
                    self.ports@.len() == s1.ports@.len(),
                    forall|h: usize| h < s1.ports@.len() ==> #[trigger] self.ports@[h as int] == (if done.contains(h)
                        && port_node_id(a.ports(), h) == Some(id.0) {
                        Port { online: false, ..s1.ports@[h as int] }
                    } else {
                        s1.ports@[h as int]
                    }),
                decreases hs.len() - i,
            {
                let h = hs[i];
                assert(hs@.to_set().contains(h));
                let ghost done_before = done;
                proof {
                    done = done.insert(h);
                }
                let ghost before = self.ports@;
                if self.ports[h].node_id == id.0 {
                    self.ports[h].online = false;
                    assert(self.ports@ == before.update(h as int, Port { online: false, ..before[h as int] }));
                }
                assert forall|x: usize| x < s1.ports@.len() implies #[trigger] self.ports@[x as int] == (if done.contains(x)
                    && port_node_id(a.ports(), x) == Some(id.0) {
                    Port { online: false, ..s1.ports@[x as int] }
                } else {
                    s1.ports@[x as int]
                }) by {
                    if x != h {
                        assert(before[x as int] == self.ports@[x as int]);
                        assert(done.contains(x) == done_before.contains(x));
                    }
                }
                i = i + 1;
            }
            proof {
                assert forall|x: usize| s1.nodes@[n as int].ports@.contains(x) implies done.contains(x) by {
                    assert(hs@.to_set().contains(x));
                    let j = choose|j: int| 0 <= j < hs@.len() && hs@[j] == x;
                    assert(done.contains(hs@[j]));
                }
                assert forall|h: int| 0 <= h < s1.ports@.len() implies (#[trigger] s1.ports@[h]).pipewire_id == self.ports@[h].pipewire_id
                    && s1.ports@[h].parent == self.ports@[h].parent && s1.ports@[h].name == self.ports@[h].name by {
                    assert(s1.ports.len() == s1.ports@.len());
                    let u = h as usize;
                    assert(self.ports@[u as int] == self.ports@[h]);
                }
                Self::lemma_same_shape(&s1, self);
            }
        }
        let count = self.nodes[n].sub_node_count();
        proof {
            crate::graph_items::lemma_online_count_view(self.nodes@[n as int].sub_nodes@);
        }
        if count == 0 {
            let app = self.nodes[n].app_name.clone();
            let ghost s2 = *self;
            self.app_groups.remove(&app);
            if auto {
                self.canvas.remove_node(n);
                proof {
                    Self::lemma_arena_same(&s2, self);
                    assert forall|i: u32| #[trigger] self.items@.contains_key(i) implies self.entry_ok(i, self.items@[i]) by {
                        assert(s2.entry_ok(i, s2.items@[i]));
                    }
                    assert forall|k: Seq<char>| #[trigger] self.app_groups@.contains_key(k) implies self.app_groups@[k] < self.nodes@.len() by {
                        assert(s2.app_groups@.contains_key(k));
                    }
                    assert forall|i: u32| #[trigger] self.canvas.nodes().contains_key(i) implies self.canvas.nodes()[i] < self.nodes@.len()
                        && self.canvas.node_index().contains_key(self.canvas.nodes()[i]) by {
                        assert(s2.canvas.nodes().contains_key(i));
                    }
                    assert forall|e: u32| #[trigger] self.canvas.edges().contains_key(e) implies self.canvas.edges()[e].2 < self.links@.len() by {
                        assert(s2.canvas.edges().contains_key(e));
                    }
                    assert(self.wf());
                }
                return;
            }
            self.offline_nodes.insert(app, n);
            let ghost s3 = *self;
            proof {
                Self::lemma_arena_same(&s2, self);
                assert forall|i: u32| #[trigger] self.items@.contains_key(i) implies self.entry_ok(i, self.items@[i]) by {
                    assert(s2.entry_ok(i, s2.items@[i]));
                }
                assert forall|k: Seq<char>| #[trigger] self.app_groups@.contains_key(k) implies self.app_groups@[k] < self.nodes@.len() by {
                    assert(s2.app_groups@.contains_key(k));
                }
                assert forall|k: Seq<char>| #[trigger] self.offline_nodes@.contains_key(k) implies self.offline_nodes@[k] < self.nodes@.len() by {
                    if k != app@ {
                        assert(s2.offline_nodes@.contains_key(k));
                    }
                }
                assert(self.wf());
            }
            self.nodes[n].online = false;
            proof {
                Self::lemma_same_shape(&s3, self);
            }
            let mut j: usize = 0;
            let ghost s4 = *self;
            assert forall|x: usize| #[trigger] hs@.contains(x) implies x < s4.ports@.len() by {
                assert(s4.node_ok(n as int));
                assert(hs@.to_set().contains(x));
                assert(s4.nodes()[n as int].ports@.contains(x));
            }
            let ghost mut done: Set<usize> = Set::empty();
            while j < hs.len()
                invariant
                    s4.wf(),
                    n < s4.nodes@.len(),
                    hs@.to_set() == s4.nodes@[n as int].ports@,
                    forall|x: usize| #[trigger] hs@.contains(x) ==> x < s4.ports@.len(),
                    j <= hs@.len(),
                    forall|k: int| 0 <= k < j ==> done.contains(#[trigger] hs@[k]),
                    forall|x: usize| #[trigger] done.contains(x) ==> hs@.contains(x),
                    *self == (GraphManager { ports: self.ports, ..s4 }),
                    self.ports@.len() == s4.ports@.len(),
                    forall|h: usize| h < s4.ports@.len() ==> #[trigger] self.ports@[h as int] == (if done.contains(h) {
                        Port { online: false, ..s4.ports@[h as int] }
                    } else {
                        s4.ports@[h as int]
                    }),
                decreases hs.len() - j,
            {
                let h = hs[j];
                assert(hs@.contains(h));
                let ghost done_before = done;
                proof {
                    done = done.insert(h);
                }
                let ghost before = self.ports@;
                self.ports[h].online = false;
                assert(self.ports@ == before.update(h as int, Port { online: false, ..before[h as int] }));
                assert forall|x: usize| x < s4.ports@.len() implies #[trigger] self.ports@[x as int] == (if done.contains(x) {
                    Port { online: false, ..s4.ports@[x as int] }
                } else {
                    s4.ports@[x as int]
                }) by {
                    if x != h {
                        assert(before[x as int] == self.ports@[x as int]);
                        assert(done.contains(x) == done_before.contains(x));
                    }
                }
                j = j + 1;
            }
            proof {
                assert forall|x: usize| s4.nodes@[n as int].ports@.contains(x) implies done.contains(x) by {
                    assert(hs@.to_set().contains(x));
                    let k = choose|k: int| 0 <= k < hs@.len() && hs@[k] == x;
                    assert(done.contains(hs@[k]));
                }
                assert forall|h: int| 0 <= h < s4.ports@.len() implies (#[trigger] s4.ports@[h]).pipewire_id == self.ports@[h].pipewire_id
                    && s4.ports@[h].parent == self.ports@[h].parent && s4.ports@[h].name == self.ports@[h].name by {
                    assert(s4.ports.len() == s4.ports@.len());
                    let u = h as usize;
                    assert(self.ports@[u as int] == self.ports@[h]);
                }
                Self::lemma_same_shape(&s4, self);
            }
        }
    }

    /// The fields that only the message handlers for links and presets touch are the
    /// same in `a` and `b`.
    pub open spec fn links_kept(a: Self, b: Self) -> bool {
        &&& b.links() == a.links()
        &&& b.masters() == a.masters()
        &&& b.real_masters() == a.real_masters()
        &&& b.internal_nodes() == a.internal_nodes()
        &&& b.deletions() == a.deletions()
        &&& b.detached() == a.detached()
        &&& b.pending() == a.pending()
        &&& b.matrix_pending() == a.matrix_pending()
    }

    /// What taking the PipeWire node `id` out of the node that holds it does to `a`,
    /// giving `b`: `id` leaves the sub-nodes of that node; a node left with no online
    /// sub-node leaves the application groups and the canvas, another drops the ports
    /// of `id`. The entry under `id` stays.
    pub open spec fn vacated(a: Self, b: Self, id: u32) -> bool {
        &&& Self::links_kept(a, b)
        &&& b.items() == a.items()
        &&& b.ports() == a.ports()
        &&& b.offline() == a.offline()
        &&& match a.items().get(id) {
            Some(Entry::Node(on)) => {
                let node = a.nodes()[on as int];
                let empty = online_in(Self::subs_after_removal(a, on, id)) == 0;
                &&& b.nodes().len() == a.nodes().len()
                &&& forall|q: int| 0 <= q < a.nodes().len() && q != on ==> #[trigger] b.nodes()[q] == a.nodes()[q]
                &&& subs_view(b.nodes()[on as int].sub_nodes@) == Self::subs_after_removal(a, on, id)
                &&& node_frame(node, b.nodes()[on as int])
                &&& b.nodes()[on as int].master_ports == node.master_ports
                &&& b.nodes()[on as int].internal_links == node.internal_links
                &&& b.nodes()[on as int].ports@ == (if empty { node.ports@ } else { ports_not_of(node.ports@, a.ports(), id) })
                &&& b.groups() == (if empty { a.groups().remove(node.app_name@) } else { a.groups() })
                &&& (if empty { Canvas::node_removed(a.canvas(), b.canvas(), on) } else { b.canvas() == a.canvas() })
            },
            _ => b == a,
        }
    }

    fn vacate(&mut self, id: u32)
        requires
            old(self).wf(),
        ensures
            final(self).wf(),
            Self::vacated(*old(self), *final(self), id),
    {
        let ghost a = *self;
        let on = match self.items.get(&id) {
            Some(Entry::Node(on)) => *on,
            _ => {
                return;
            },
        };
        assert(a.entry_ok(id, a.items@[id]));
        self.nodes[on].remove_sub_node(id);
        let ghost s1 = *self;
        proof {
            Self::lemma_same_shape(&a, &s1);
        }
        let count = self.nodes[on].sub_node_count();
        proof {
            crate::graph_items::lemma_online_count_view(self.nodes@[on as int].sub_nodes@);
        }
        if count == 0 {
            let app = self.nodes[on].app_name.clone();
            self.app_groups.remove(&app);
            self.canvas.remove_node(on);
            proof {
                Self::lemma_arena_same(&s1, self);
                assert forall|i: u32| #[trigger] self.items@.contains_key(i) implies self.entry_ok(i, self.items@[i]) by {
                    assert(s1.entry_ok(i, s1.items@[i]));
                }
                assert forall|k: Seq<char>| #[trigger] self.app_groups@.contains_key(k) implies self.app_groups@[k] < self.nodes@.len() by {
                    assert(s1.app_groups@.contains_key(k));
                }
                assert forall|i: u32| #[trigger] self.canvas.nodes().contains_key(i) implies self.canvas.nodes()[i] < self.nodes@.len()
                    && self.canvas.node_index().contains_key(self.canvas.nodes()[i]) by {
                    assert(s1.canvas.nodes().contains_key(i));
                }
                assert forall|e: u32| #[trigger] self.canvas.edges().contains_key(e) implies self.canvas.edges()[e].2 < self.links@.len() by {
                    assert(s1.canvas.edges().contains_key(e));
                }
            }
            return;
        }
        let hs = self.nodes[on].ports();
        let mut i: usize = 0;
        let ghost mut done: Set<usize> = Set::empty();
        assert(s1.node_ok(on as int));
        while i < hs.len()
            invariant
                s1.wf(),
                s1.node_ok(on as int),
                on < s1.nodes@.len(),
                s1.ports@ == a.ports@,
                hs@.to_set() == s1.nodes@[on as int].ports@,
                i <= hs@.len(),
                forall|j: int| 0 <= j < i ==> done.contains(#[trigger] hs@[j]),
                forall|x: usize| #[trigger] done.contains(x) ==> hs@.contains(x),
                *self == (GraphManager { nodes: self.nodes, ..s1 }),
                self.nodes@.len() == s1.nodes@.len(),
                forall|q: int| 0 <= q < s1.nodes@.len() && q != on ==> #[trigger] self.nodes@[q] == s1.nodes@[q],
                node_frame(s1.nodes@[on as int], self.nodes@[on as int]),
                self.nodes@[on as int].sub_nodes == s1.nodes@[on as int].sub_nodes,
                self.nodes@[on as int].master_ports == s1.nodes@[on as int].master_ports,
                self.nodes@[on as int].internal_links == s1.nodes@[on as int].internal_links,
                self.nodes@[on as int].ports@ == s1.nodes@[on as int].ports@.filter(
                    |x: usize| !(done.contains(x) && port_node_id(a.ports(), x) == Some(id))),
            decreases hs.len() - i,
        {
            let h = hs[i];
            assert(hs@.to_set().contains(h));
            proof {
                done = done.insert(h);
            }
            if self.ports[h].node_id == id {
                self.nodes[on].remove_port(h);
            }
            assert(self.nodes@[on as int].ports@ =~= s1.nodes@[on as int].ports@.filter(
                |x: usize| !(done.contains(x) && port_node_id(a.ports(), x) == Some(id))));
            i = i + 1;
        }
        proof {
            Self::lemma_masters_unique_kept(&s1, self);
            assert(self.nodes@[on as int].ports@ =~= ports_not_of(a.nodes()[on as int].ports@, a.ports(), id)) by {
                assert forall|x: usize| s1.nodes@[on as int].ports@.contains(x) implies done.contains(x) by {
                    assert(hs@.to_set().contains(x));
                    let j = choose|j: int| 0 <= j < hs@.len() && hs@[j] == x;
                    assert(done.contains(hs@[j]));
                }
            }
            assert forall|q: int| 0 <= q < self.nodes@.len() implies #[trigger] self.node_ok(q) by {
                assert(s1.node_ok(q));
                assert forall|h: usize| #[trigger] self.nodes()[q].ports@.contains(h) implies h < self.ports().len()
                    && self.ports()[h as int].parent == Some(q as usize) by {
                    assert(s1.nodes()[q].ports@.contains(h));
                }
                assert forall|h: usize| #[trigger] self.nodes()[q].master_ports@.contains(h) implies h < self.ports().len()
                    && self.ports()[h as int].parent == Some(q as usize) by {
                    assert(s1.nodes()[q].master_ports@.contains(h));
                }
            }
            assert forall|q: int| 0 <= q < self.ports@.len() implies #[trigger] self.port_ok(q) by {
                assert(s1.port_ok(q));
            }
            assert forall|l: int| 0 <= l < self.links@.len() implies #[trigger] self.link_ok(l) by {
                assert(s1.link_ok(l));
            }
        }
    }

    /// The states `states` and requests `rs` are those of the master port steps run
    /// over the ports `hs` of node `n`, in order: step `i` takes `states[i]` to
    /// `states[i + 1]` for the port `hs[i]`, giving the requests `rs[i]`.
    pub open spec fn master_chain(states: Seq<Self>, n: usize, hs: Seq<usize>, rs: Seq<Seq<GtkMessage>>) -> bool {
        &&& states.len() == hs.len() + 1
        &&& rs.len() == hs.len()
        &&& forall|i: int| 0 <= i < hs.len() ==> #[trigger] Self::chain_link(states, n, hs, rs, i)
    }

    /// Step `i` of a chain of master port steps.
    pub open spec fn chain_link(states: Seq<Self>, n: usize, hs: Seq<usize>, rs: Seq<Seq<GtkMessage>>, i: int) -> bool {
        &&& states[i].wf()
        &&& Self::master_step(states[i], states[i + 1], n, states[i].ports()[hs[i] as int].name@,
            direction_of(states[i].ports()[hs[i] as int].direction), PortId(states[i].ports()[hs[i] as int].pipewire_id), rs[i])
    }

    /// A chain of master port steps changes neither the links, the canvas, the groups
    /// nor the offline nodes.
    pub proof fn lemma_master_chain_frame(states: Seq<Self>, n: usize, hs: Seq<usize>, rs: Seq<Seq<GtkMessage>>, k: int)
        requires
            Self::master_chain(states, n, hs, rs),
            0 <= k <= hs.len(),
        ensures
            Self::links_kept(states[0], states[k]),
            states[k].canvas() == states[0].canvas(),
            states[k].groups() == states[0].groups(),
            states[k].offline() == states[0].offline(),
        decreases k,
    {
        if k > 0 {
            Self::lemma_master_chain_frame(states, n, hs, rs, k - 1);
            assert(Self::chain_link(states, n, hs, rs, k - 1));
        }
    }

    /// A chain of master port steps on the group `n` keeps every entry under an id that
    /// is not a master port id, and keeps the group online with the same sub-nodes.
    pub proof fn lemma_master_chain_keeps(states: Seq<Self>, n: usize, hs: Seq<usize>, rs: Seq<Seq<GtkMessage>>, k: int, id: u32)
        requires
            Self::master_chain(states, n, hs, rs),
            0 <= k <= hs.len(),
            n < states[0].nodes().len(),
            !is_proxy_id(id),
        ensures
            states[k].items().get(id) == states[0].items().get(id),
            states[k].nodes().len() == states[0].nodes().len(),
            states[k].nodes()[n as int].online == states[0].nodes()[n as int].online,
            states[k].nodes()[n as int].sub_nodes == states[0].nodes()[n as int].sub_nodes,
        decreases k,
    {
        if k > 0 {
            Self::lemma_master_chain_keeps(states, n, hs, rs, k - 1, id);
            assert(Self::chain_link(states, n, hs, rs, k - 1));
            let a = states[k - 1];
            let name = a.ports()[hs[k - 1] as int].name@;
            lemma_proxy_id_for_marked(a.nodes()[n as int].app_name@, name);
        }
    }

    /// Run the master port step for every port of node `n`.
    fn refresh_master_ports(&mut self, n: usize) -> (r: Vec<GtkMessage>)
        requires
            old(self).wf(),
            n < old(self).nodes().len(),
        ensures
            final(self).wf(),
            exists|hs: Seq<usize>, states: Seq<Self>, rs: Seq<Seq<GtkMessage>>| {
                &&& hs.to_set() == old(self).nodes()[n as int].ports@
                &&& hs.no_duplicates()
                &&& #[trigger] Self::master_chain(states, n, hs, rs)
                &&& states[0] == *old(self)
                &&& states.last() == *final(self)
                &&& r@ == rs.flatten()
            },
    {
        let ghost a = *self;
        let hs = self.nodes[n].ports();
        let mut out: Vec<GtkMessage> = Vec::new();
        let mut i: usize = 0;
        let ghost mut states: Seq<Self> = seq![a];
        let ghost mut rs: Seq<Seq<GtkMessage>> = Seq::empty();
        assert(a.node_ok(n as int));
        while i < hs.len()
            invariant
                self.wf(),
                a.wf(),
                a.node_ok(n as int),
                n < self.nodes@.len(),
                n < a.nodes@.len(),
                hs@.to_set() == a.nodes@[n as int].ports@,
                self.nodes@[n as int].ports@ == a.nodes@[n as int].ports@,
                self.ports@.len() >= a.ports@.len(),
                forall|k: int| 0 <= k < a.ports@.len() ==> #[trigger] self.ports@[k] == a.ports@[k],
                i <= hs@.len(),
                Self::master_chain(states, n, hs@.take(i as int), rs),
                states[0] == a,
                states.last() == *self,
                out@ == rs.flatten(),
            decreases hs.len() - i,
        {
            let h = hs[i];
            assert(hs@.to_set().contains(h));
            assert(h < a.ports@.len());
            let name = self.ports[h].name.clone();
            let direction = Direction::from(self.ports[h].direction);
            let pid = PortId(self.ports[h].pipewire_id);
            let ghost mid = *self;
            let mut more = self.check_and_create_master_port(n, name.as_str(), direction, pid);
            let ghost r2 = more@;
            out.append(&mut more);
            proof {
                let old_states = states;
                let old_rs = rs;
                states = states.push(*self);
                rs = rs.push(r2);
                rs.drop_last().lemma_flatten_push(r2);
                assert(rs.drop_last() =~= old_rs);
                assert(out@ == rs.flatten());
                let hs1 = hs@.take(i as int + 1);
                assert(hs1 =~= hs@.take(i as int).push(h));
                assert(hs1.len() == i + 1);
                assert(rs.len() == hs1.len());
                assert forall|k: int| 0 <= k < hs1.len() implies #[trigger] Self::chain_link(states, n, hs1, rs, k) by {
                    if k < i {
                        assert(Self::chain_link(old_states, n, hs@.take(i as int), old_rs, k));
                        assert(states[k] == old_states[k]);
                        assert(states[k + 1] == old_states[k + 1]);
                        assert(rs[k] == old_rs[k]);
                        assert(hs1[k] == hs@.take(i as int)[k]);
                    } else {
                        assert(states[k] == mid);
                        assert(states[k + 1] == *self);
                        assert(hs1[k] == h);
                    }
                }
                assert(states.len() == hs1.len() + 1);
                assert(Self::master_chain(states, n, hs1, rs));
                assert forall|k: int| 0 <= k < a.ports@.len() implies #[trigger] self.ports@[k] == a.ports@[k] by {
                    assert(mid.ports@[k] == a.ports@[k]);
                    if mid.wants_master(n, name@) && !mid.has_master_named(n, name@) {
                        assert(self.ports@.subrange(0, mid.ports@.len() as int)[k] == self.ports@[k]);
                    }
                }
            }
            i = i + 1;
        }
        proof {
            assert(hs@.take(hs@.len() as int) =~= hs@);
        }
        out
    }

    /// What reviving the offline node `o` of the application `app_name` for the
    /// PipeWire node `id` named `name` does to `a`, giving `b`: the node comes online,
    /// gets `id` as a sub-node, becomes the group of the application again and is kept
    /// under `id`.
    pub open spec fn revived(a: Self, b: Self, id: u32, name: Seq<char>, app_name: Seq<char>, o: usize) -> bool {
        &&& Self::links_kept(a, b)
        &&& b.nodes().len() == a.nodes().len()
        &&& forall|q: int| 0 <= q < a.nodes().len() && q != o ==> #[trigger] b.nodes()[q] == a.nodes()[q]
        &&& sub_node_added(Node { online: true, ..a.nodes()[o as int] }, b.nodes()[o as int], a.ports(), id, name)
        &&& b.ports() == a.ports()
        &&& b.items() == a.items().insert(id, Entry::Node(o))
        &&& b.groups() == a.groups().insert(app_name, o)
        &&& b.offline() == a.offline().remove(app_name)
        &&& b.canvas() == a.canvas()
    }

    /// What giving the PipeWire node `id` named `name` a node does to `a`, giving `b`
    /// and the requests `r`. A stream of an application that is grouped (`grouped`)
    /// joins the group of its application if there is one, or revives the offline
    /// node of its application, which then runs the master port step for each of its
    /// ports; otherwise a new node is made, drawn, and made the group of its
    /// application when grouped. In every case the node is kept under `id`.
    pub open spec fn attached(a: Self, b: Self, id: u32, name: Seq<char>, internal_name: Seq<char>, app_name: Seq<char>,
        node_type: Option<NodeType>, detached: bool, r: Seq<GtkMessage>) -> bool {
        let grouped = app_name.len() > 0 && !detached;
        &&& Self::links_kept(a, b)
        &&& if grouped && a.groups().contains_key(app_name) {
            let g = a.groups()[app_name];
            &&& b.nodes().len() == a.nodes().len()
            &&& forall|q: int| 0 <= q < a.nodes().len() && q != g ==> #[trigger] b.nodes()[q] == a.nodes()[q]
            &&& sub_node_added(Node { online: true, ..a.nodes()[g as int] }, b.nodes()[g as int], a.ports(), id, name)
            &&& b.ports() == a.ports()
            &&& b.items() == a.items().insert(id, Entry::Node(g))
            &&& b.groups() == a.groups()
            &&& b.offline() == a.offline()
            &&& b.canvas() == a.canvas()
            &&& r.len() == 0
        } else if grouped && a.offline().contains_key(app_name) {
            let o = a.offline()[app_name];
            exists|m: Self, hs: Seq<usize>, states: Seq<Self>, rs: Seq<Seq<GtkMessage>>|
                #![trigger Self::revived(a, m, id, name, app_name, o), Self::master_chain(states, o, hs, rs)]
                {
                &&& Self::revived(a, m, id, name, app_name, o)
                &&& m.wf()
                &&& hs.to_set() == m.nodes()[o as int].ports@
                &&& hs.no_duplicates()
                &&& Self::master_chain(states, o, hs, rs)
                &&& states[0] == m
                &&& states.last() == b
                &&& r == rs.flatten()
            }
        } else {
            let n = a.nodes().len();
            let node = b.nodes()[n as int];
            &&& b.nodes().len() == n + 1
            &&& b.nodes().subrange(0, n as int) == a.nodes()
            &&& node.node_name@ == (if grouped { app_name } else { name })
            &&& node.media_name@ == internal_name
            &&& node.app_name@ == app_name
            &&& node.node_type == node_type
            &&& subs_view(node.sub_nodes@) == map![id => (name, true)]
            &&& node.ports@ == Set::<usize>::empty()
            &&& node.master_ports@ == Set::<usize>::empty()
            &&& node.internal_links@ == Map::<u32, InternalLink>::empty()
            &&& node.is_app == (app_name.len() > 0)
            &&& node.is_detached == detached
            &&& !node.is_pinned
            &&& !node.auto_delete
            &&& node.online
            &&& node.pipewire_id == id
            &&& b.ports() == a.ports()
            &&& b.items() == a.items().insert(id, Entry::Node(n as usize))
            &&& b.groups() == (if grouped { a.groups().insert(app_name, n as usize) } else { a.groups() })
            &&& b.offline() == a.offline()
            &&& Canvas::node_added(a.canvas(), b.canvas(), n as usize)
            &&& r.len() == 0
        }
    }

    /// What `add_node` does to `a`, giving `b` and the requests `r`: the PipeWire node
    /// `id` first leaves the node that held it, then gets a node. It counts as
    /// detached when asked so or when its id is one the user detached.
    pub open spec fn add_node_step(a: Self, b: Self, id: NodeId, name: Seq<char>, internal_name: Seq<char>, app_name: Seq<char>,
        node_type: Option<NodeType>, is_detached: bool, r: Seq<GtkMessage>) -> bool {
        let detached = is_detached || a.detached().contains(id.0);
        exists|v: Self| {
            &&& #[trigger] Self::vacated(a, v, id.0)
            &&& v.wf()
            &&& Self::attached(v, b, id.0, name, internal_name, app_name, node_type, detached, r)
        }
    }

    proof fn lemma_node_handle_off_canvas(&self)
        requires
            self.wf(),
        ensures
            !self.canvas().has_node(self.nodes().len() as usize),
    {
        assert(self.nodes.len() == self.nodes@.len());
        let n = self.nodes@.len() as usize;
        if self.canvas.node_index().contains_key(n) {
            let i = self.canvas.node_index()[n];
            assert(self.canvas.nodes().contains_key(i));
            assert(self.canvas.nodes()[i] == n);
        }
    }

    fn attach(&mut self, id: u32, name: &str, internal_name: &str, app_name: &str, node_type: Option<NodeType>, detached: bool) -> (r: Vec<GtkMessage>)
        requires
            old(self).wf(),
            old(self).canvas().nodes().len() < index_limit(),
        ensures
            final(self).wf(),
            Self::attached(*old(self), *final(self), id, name@, internal_name@, app_name@, node_type, detached, r@),
    {
        let ghost a = *self;
        let app = app_name.to_string();
        let grouped = !app_name.is_empty() && !detached;
        if grouped {
            if let Some(g) = self.app_groups.get(&app) {
                self.nodes[g].online = true;
                self.nodes[g].add_sub_node(id, name, &self.ports);
                self.items.insert(id, Entry::Node(g));
                proof {
                    Self::lemma_masters_unique_kept(&a, self);
                    assert(self.nodes@[g as int].ports@.subset_of(a.nodes@[g as int].ports@));
                    assert forall|i: u32| #[trigger] self.items@.contains_key(i) implies self.entry_ok(i, self.items@[i]) by {
                        if i != id {
                            assert(a.entry_ok(i, a.items@[i]));
                        }
                    }
                    assert forall|q: int| 0 <= q < self.nodes@.len() implies #[trigger] self.node_ok(q) by {
                        assert(a.node_ok(q));
                        assert forall|h: usize| #[trigger] self.nodes()[q].ports@.contains(h) implies h < self.ports().len()
                            && self.ports()[h as int].parent == Some(q as usize) by {
                            assert(a.nodes()[q].ports@.contains(h));
                        }
                        assert forall|h: usize| #[trigger] self.nodes()[q].master_ports@.contains(h) implies h < self.ports().len()
                            && self.ports()[h as int].parent == Some(q as usize) by {
                            assert(a.nodes()[q].master_ports@.contains(h));
                        }
                    }
                    assert forall|q: int| 0 <= q < self.ports@.len() implies #[trigger] self.port_ok(q) by {
                        assert(a.port_ok(q));
                    }
                    assert forall|l: int| 0 <= l < self.links@.len() implies #[trigger] self.link_ok(l) by {
                        assert(a.link_ok(l));
                    }
                    assert(Node { online: true, ..a.nodes()[g as int] } == Node { online: true, ..a.nodes@[g as int] });
                }
                return Vec::new();
            }
            if let Some(o) = self.offline_nodes.remove(&app) {
                self.nodes[o].online = true;
                self.nodes[o].add_sub_node(id, name, &self.ports);
                self.app_groups.insert(app, o);
                self.items.insert(id, Entry::Node(o));
                let ghost m = *self;
                proof {
                    Self::lemma_masters_unique_kept(&a, self);
                    assert forall|i: u32| #[trigger] self.items@.contains_key(i) implies self.entry_ok(i, self.items@[i]) by {
                        if i != id {
                            assert(a.entry_ok(i, a.items@[i]));
                        }
                    }
                    assert forall|q: int| 0 <= q < self.nodes@.len() implies #[trigger] self.node_ok(q) by {
                        assert(a.node_ok(q));
                        assert forall|h: usize| #[trigger] self.nodes()[q].ports@.contains(h) implies h < self.ports().len()
                            && self.ports()[h as int].parent == Some(q as usize) by {
                            assert(a.nodes()[q].ports@.contains(h));
                        }
                        assert forall|h: usize| #[trigger] self.nodes()[q].master_ports@.contains(h) implies h < self.ports().len()
                            && self.ports()[h as int].parent == Some(q as usize) by {
                            assert(a.nodes()[q].master_ports@.contains(h));
                        }
                    }
                    assert forall|q: int| 0 <= q < self.ports@.len() implies #[trigger] self.port_ok(q) by {
                        assert(a.port_ok(q));
                    }
                    assert forall|l: int| 0 <= l < self.links@.len() implies #[trigger] self.link_ok(l) by {
                        assert(a.link_ok(l));
                    }
                    assert forall|k: Seq<char>| #[trigger] self.app_groups@.contains_key(k) implies self.app_groups@[k] < self.nodes@.len() by {
                        if k != app_name@ {
                            assert(a.app_groups@.contains_key(k));
                        }
                    }
                    assert forall|k: Seq<char>| #[trigger] self.offline_nodes@.contains_key(k) implies self.offline_nodes@[k] < self.nodes@.len() by {
                        assert(a.offline_nodes@.contains_key(k));
                    }
                    assert(self.wf());
                    assert(Self::revived(a, m, id, name@, app_name@, o));
                }
                let r = self.refresh_master_ports(o);
                proof {
                    let (hs, states, rs) = choose|hs: Seq<usize>, states: Seq<Self>, rs: Seq<Seq<GtkMessage>>| {
                        &&& hs.to_set() == m.nodes()[o as int].ports@
                        &&& hs.no_duplicates()
                        &&& #[trigger] Self::master_chain(states, o, hs, rs)
                        &&& states[0] == m
                        &&& states.last() == *self
                        &&& r@ == rs.flatten()
                    };
                    assert(!a.groups().contains_key(app_name@));
                    assert(a.offline().contains_key(app_name@) && a.offline()[app_name@] == o);
                    Self::lemma_master_chain_frame(states, o, hs, rs, hs.len() as int);
                    assert(states.last() == states[hs.len() as int]);
                    assert(Self::revived(a, m, id, name@, app_name@, o) && Self::master_chain(states, o, hs, rs));
                }
                return r;
            }
        }
        let display = if grouped { app_name } else { name };
        let mut node = Node::new(display, NodeId(id));
        node.media_name = internal_name.to_string();
        node.app_name = app_name.to_string();
        node.set_node_type(node_type);
        let ghost m0 = node.sub_nodes@;
        proof {
            assert forall|k: u32| !crate::graph_items::is_offline_namesake(m0, k, name@) by {
                if m0.contains_key(k) {
                    assert(subs_view(m0).contains_key(k));
                    assert(subs_view(m0)[k].1 == m0[k].online);
                }
            }
        }
        node.add_sub_node(id, name, &self.ports);
        node.online = true;
        node.is_detached = detached;
        node.is_app = !app_name.is_empty();
        let n = self.nodes.len();
        self.nodes.push(node);
        if grouped {
            self.app_groups.insert(app, n);
        }
        self.items.insert(id, Entry::Node(n));
        proof {
            a.lemma_node_handle_off_canvas();
        }
        self.canvas.add_node(n);
        proof {
            Self::lemma_masters_unique_kept(&a, self);
            assert(self.nodes@.subrange(0, n as int) =~= a.nodes@);
            assert forall|i: u32| #[trigger] self.items@.contains_key(i) implies self.entry_ok(i, self.items@[i]) by {
                if i != id {
                    assert(a.entry_ok(i, a.items@[i]));
                }
            }
            assert forall|q: int| 0 <= q < self.nodes@.len() implies #[trigger] self.node_ok(q) by {
                if q < n {
                    assert(a.node_ok(q));
                    assert forall|h: usize| #[trigger] self.nodes()[q].ports@.contains(h) implies h < self.ports().len()
                        && self.ports()[h as int].parent == Some(q as usize) by {
                        assert(a.nodes()[q].ports@.contains(h));
                    }
                    assert forall|h: usize| #[trigger] self.nodes()[q].master_ports@.contains(h) implies h < self.ports().len()
                        && self.ports()[h as int].parent == Some(q as usize) by {
                        assert(a.nodes()[q].master_ports@.contains(h));
                    }
                }
            }
            assert forall|q: int| 0 <= q < self.ports@.len() implies #[trigger] self.port_ok(q) by {
                assert(a.port_ok(q));
            }
            assert forall|l: int| 0 <= l < self.links@.len() implies #[trigger] self.link_ok(l) by {
                assert(a.link_ok(l));
            }
            assert forall|k: Seq<char>| #[trigger] self.app_groups@.contains_key(k) implies self.app_groups@[k] < self.nodes@.len() by {
                if !(grouped && k == app_name@) {
                    assert(a.app_groups@.contains_key(k));
                }
            }
            assert forall|k: Seq<char>| #[trigger] self.offline_nodes@.contains_key(k) implies self.offline_nodes@[k] < self.nodes@.len() by {
                assert(a.offline_nodes@.contains_key(k));
            }
            assert forall|i: u32| #[trigger] self.canvas.nodes().contains_key(i) implies self.canvas.nodes()[i] < self.nodes@.len()
                && self.canvas.node_index().contains_key(self.canvas.nodes()[i]) by {
            }
            assert forall|e: u32| #[trigger] self.canvas.edges().contains_key(e) implies self.canvas.edges()[e].2 < self.links@.len() by {
                assert(a.canvas.edges().contains_key(e));
            }
            assert(subs_view(self.nodes@[n as int].sub_nodes@) =~= map![id => (name@, true)]);
            assert(self.links@ == a.links@);
            assert(self.links() == a.links());
            assert(Self::links_kept(a, *self));
            let node = self.nodes()[n as int];
            assert(!(grouped && a.groups().contains_key(app_name@)));
            assert(!(grouped && a.offline().contains_key(app_name@)));
            assert(self.nodes().len() == n + 1);
            assert(self.nodes().subrange(0, n as int) == a.nodes());
            assert(node.node_name@ == (if grouped { app_name@ } else { name@ }));
            assert(node.media_name@ == internal_name@);
            assert(node.app_name@ == app_name@);
            assert(node.node_type == node_type);
            assert(subs_view(node.sub_nodes@) == map![id => (name@, true)]);
            assert(node.ports@ == Set::<usize>::empty());
            assert(node.master_ports@ == Set::<usize>::empty());
            assert(node.internal_links@ == Map::<u32, InternalLink>::empty());
            assert(node.is_app == (app_name@.len() > 0));
            assert(node.pipewire_id == id);
            assert(self.items() == a.items().insert(id, Entry::Node(n as usize)));
            assert(self.groups() == (if grouped { a.groups().insert(app_name@, n as usize) } else { a.groups() }));
            assert(Canvas::node_added(a.canvas(), self.canvas(), n as usize));
            assert(node.is_detached == detached);
            assert(!node.is_pinned);
            assert(!node.auto_delete);
            assert(node.online);
            assert(self.ports() == a.ports());
            assert(self.offline() == a.offline());
            assert(Self::attached(a, *self, id, name@, internal_name@, app_name@, node_type, detached, Seq::<GtkMessage>::empty()));
        }
        Vec::new()
    }

    /// A PipeWire node appeared, or must be shown again: take it out of the node that
    /// held it, then give it a node, joining or reviving the group of its application
    /// when it is grouped.
    pub fn add_node(&mut self, id: NodeId, name: &str, internal_name: &str, app_name: &str, node_type: Option<NodeType>,
        is_detached: bool) -> (r: Vec<GtkMessage>)
        requires
            old(self).wf(),
            old(self).has_room(),
        ensures
            final(self).wf(),
            Self::add_node_step(*old(self), *final(self), id, name@, internal_name@, app_name@, node_type, is_detached, r@),
    {
        let ghost a = *self;
        let detached = is_detached || self.detached_ids.contains(&id.0);
        self.vacate(id.0);
        let ghost v = *self;
        proof {
            if let Some(Entry::Node(on)) = a.items().get(id.0) {
                let empty = online_in(Self::subs_after_removal(a, on, id.0)) == 0;
                if empty {
                    Canvas::lemma_node_removed_shrinks(a.canvas(), v.canvas(), on);
                }
            }
        }
        let r = self.attach(id.0, name, internal_name, app_name, node_type, detached);
        proof {
            assert(Self::vacated(a, v, id.0));
        }
        r
    }

    /// `b` is `a` with the PipeWire node `id` marked detached (`on`) or not.
    pub open spec fn detach_marked(a: Self, b: Self, id: u32, on: bool) -> bool {
        &&& b.nodes() == a.nodes()
        &&& b.ports() == a.ports()
        &&& b.links() == a.links()
        &&& b.items() == a.items()
        &&& b.canvas() == a.canvas()
        &&& b.groups() == a.groups()
        &&& b.offline() == a.offline()
        &&& b.masters() == a.masters()
        &&& b.real_masters() == a.real_masters()
        &&& b.internal_nodes() == a.internal_nodes()
        &&& b.deletions() == a.deletions()
        &&& b.pending() == a.pending()
        &&& b.matrix_pending() == a.matrix_pending()
        &&& b.detached() == (if on { a.detached().insert(id) } else { a.detached().remove(id) })
    }

    /// The name of the sub-node `id` of node `n`, or the node's own name when it has no
    /// such sub-node.
    pub open spec fn sub_name(a: Self, n: usize, id: u32) -> Seq<char> {
        if a.nodes()[n as int].sub_nodes@.contains_key(id) {
            a.nodes()[n as int].sub_nodes@[id].name@
        } else {
            a.nodes()[n as int].node_name@
        }
    }

    /// What detaching (`on`) or reattaching the PipeWire node `id` does to `a`, giving
    /// `b` and the requests `r`: the mark changes; then, when a node is kept under
    /// `id`, the PipeWire node is added again under its sub-node name, with the
    /// media name, application and type of that node, detached or not.
    pub open spec fn detach_step(a: Self, b: Self, id: u32, on: bool, r: Seq<GtkMessage>) -> bool {
        match a.items().get(id) {
            Some(Entry::Node(n)) => exists|d: Self| {
                &&& #[trigger] Self::detach_marked(a, d, id, on)
                &&& d.wf()
                &&& Self::add_node_step(d, b, NodeId(id), Self::sub_name(a, n, id), a.nodes()[n as int].media_name@,
                    a.nodes()[n as int].app_name@, a.nodes()[n as int].node_type, on, r)
            },
            _ => Self::detach_marked(a, b, id, on) && r.len() == 0,
        }
    }

    fn redo_node(&mut self, id: u32, on: bool) -> (r: Vec<GtkMessage>)
        requires
            old(self).wf(),
            old(self).has_room(),
        ensures
            final(self).wf(),
            Self::detach_step(*old(self), *final(self), id, on, r@),
    {
        let ghost a = *self;
        if on {
            self.detached_ids.insert(id);
        } else {
            self.detached_ids.remove(&id);
        }
        let ghost d = *self;
        proof {
            Self::lemma_same_shape(&a, &d);
        }
        let n = match self.items.get(&id) {
            Some(Entry::Node(n)) => *n,
            _ => {
                return Vec::new();
            },
        };
        assert(a.entry_ok(id, a.items@[id]));
        let name = match self.nodes[n].sub_node_name(id) {
            Some(s) => s,
            None => self.nodes[n].node_name.clone(),
        };
        let internal_name = self.nodes[n].media_name.clone();
        let app_name = self.nodes[n].app_name.clone();
        let node_type = self.nodes[n].node_type;
        let r = self.add_node(NodeId(id), name.as_str(), internal_name.as_str(), app_name.as_str(), node_type, on);
        proof {
            assert(Self::detach_marked(a, d, id, on));
        }
        r
    }

    /// The user detached the PipeWire node `id` from its application group: mark it,
    /// and show it as a node of its own.
    pub fn detach_node(&mut self, id: u32) -> (r: Vec<GtkMessage>)
        requires
            old(self).wf(),
            old(self).has_room(),
        ensures
            final(self).wf(),
            Self::detach_step(*old(self), *final(self), id, true, r@),
    {
        self.redo_node(id, true)
    }

    /// The user put the detached PipeWire node `id` back: clear the mark, and show it
    /// in the group of its application again.
    pub fn reattach_node(&mut self, id: u32) -> (r: Vec<GtkMessage>)
        requires
            old(self).wf(),
            old(self).has_room(),
        ensures
            final(self).wf(),
            Self::detach_step(*old(self), *final(self), id, false, r@),
    {
        self.redo_node(id, false)
    }

    /// The user deleted the offline node `n`: take it off the canvas and forget it as
    /// the offline node of its application.
    pub fn delete_offline_node(&mut self, n: usize)
        requires
            old(self).wf(),
            n < old(self).nodes().len(),
        ensures
            final(self).wf(),
            Self::links_kept(*old(self), *final(self)),
            Canvas::node_removed(old(self).canvas(), final(self).canvas(), n),
            final(self).offline() == old(self).offline().remove(old(self).nodes()[n as int].app_name@),
            final(self).nodes() == old(self).nodes(),
            final(self).ports() == old(self).ports(),
            final(self).items() == old(self).items(),
            final(self).groups() == old(self).groups(),
    {
        let ghost a = *self;
        self.canvas.remove_node(n);
        let app = self.nodes[n].app_name.clone();
        self.offline_nodes.remove(&app);
        proof {
            Self::lemma_arena_same(&a, self);
            assert forall|i: u32| #[trigger] self.items@.contains_key(i) implies self.entry_ok(i, self.items@[i]) by {
                assert(a.entry_ok(i, a.items@[i]));
            }
            assert forall|k: Seq<char>| #[trigger] self.offline_nodes@.contains_key(k) implies self.offline_nodes@[k] < self.nodes@.len() by {
                assert(a.offline_nodes@.contains_key(k));
            }
            assert forall|i: u32| #[trigger] self.canvas.nodes().contains_key(i) implies self.canvas.nodes()[i] < self.nodes@.len()
                && self.canvas.node_index().contains_key(self.canvas.nodes()[i]) by {
                assert(a.canvas.nodes().contains_key(i));
            }
            assert forall|e: u32| #[trigger] self.canvas.edges().contains_key(e) implies self.canvas.edges()[e].2 < self.links@.len() by {
                assert(a.canvas.edges().contains_key(e));
            }
        }
    }

    proof fn lemma_arena_same_links(a: &Self, b: &Self)
        requires
            a.wf(),
            b.nodes@ == a.nodes@,
            b.ports@ == a.ports@,
            b.links@.len() >= a.links@.len(),
            forall|l: int| 0 <= l < a.links@.len() ==> #[trigger] b.links@[l].output_port == a.links@[l].output_port
                && b.links@[l].input_port == a.links@[l].input_port,
            forall|l: int| a.links@.len() <= l < b.links@.len() ==> #[trigger] b.link_ok(l),
        ensures
            forall|n: int| 0 <= n < b.nodes@.len() ==> #[trigger] b.node_ok(n),
            forall|h: int| 0 <= h < b.ports@.len() ==> #[trigger] b.port_ok(h),
            forall|l: int| 0 <= l < b.links@.len() ==> #[trigger] b.link_ok(l),
    {
        assert forall|n: int| 0 <= n < b.nodes@.len() implies #[trigger] b.node_ok(n) by {
            assert(a.node_ok(n));
            assert forall|q: usize| #[trigger] b.nodes()[n].ports@.contains(q) implies q < b.ports().len()
                && b.ports()[q as int].parent == Some(n as usize) by {
                assert(a.nodes()[n].ports@.contains(q));
            }
            assert forall|q: usize| #[trigger] b.nodes()[n].master_ports@.contains(q) implies q < b.ports().len()
                && b.ports()[q as int].parent == Some(n as usize) by {
                assert(a.nodes()[n].master_ports@.contains(q));
            }
        }
        assert forall|q: int| 0 <= q < b.ports@.len() implies #[trigger] b.port_ok(q) by {
            assert(a.port_ok(q));
        }
        assert forall|l: int| 0 <= l < b.links@.len() implies #[trigger] b.link_ok(l) by {
            if l < a.links@.len() {
                assert(a.link_ok(l));
            }
        }
    }

    /// The node whose port list holds the port `h`: the node the port was put in, while
    /// it still lists it among its ports or master ports.
    pub open spec fn holder(&self, h: usize) -> Option<usize> {
        match self.ports()[h as int].parent {
            Some(n) => if n < self.nodes().len() && (self.nodes()[n as int].ports@.contains(h)
                || self.nodes()[n as int].master_ports@.contains(h)) {
                Some(n)
            } else {
                None
            },
            None => None,
        }
    }

    fn holder_exec(&self, h: usize) -> (r: Option<usize>)
        requires
            h < self.ports().len(),
        ensures
            r == self.holder(h),
    {
        match self.ports[h].parent {
            Some(n) => if n < self.nodes.len() && (self.nodes[n].ports.contains(&h) || self.nodes[n].master_ports.contains(&h)) {
                Some(n)
            } else {
                None
            },
            None => None,
        }
    }

    /// The ids of the nodes that draw the link `id` inside them, as lists.
    pub open spec fn internal_view(&self) -> Map<u32, Seq<u32>> {
        self.internal_nodes().map_values(|v: Vec<u32>| v@)
    }

    /// The id that a new link from the port `pid` is drawn at: the master port that
    /// stands for it, or the port itself.
    pub open spec fn effective_id(&self, pid: u32) -> u32 {
        match self.master_id(pid) {
            Some(m) => m,
            None => pid,
        }
    }

    /// The ports under `out` and `inp` belong to the same application group.
    pub open spec fn is_internal_link(&self, out: u32, inp: u32) -> bool {
        &&& self.node_for_port(out) is Some
        &&& self.node_for_port(out) == self.node_for_port(inp)
        &&& self.nodes()[self.node_for_port(out).unwrap() as int].is_app
    }

    /// A link from `out` to `inp` is drawn between master ports.
    pub open spec fn is_master_link(&self, out: u32, inp: u32) -> bool {
        !self.is_internal_link(out, inp) && (self.effective_id(out) != out || self.effective_id(inp) != inp)
    }

    /// The link `l` of `links` goes from the port `po` to the port `pi`.
    pub open spec fn joins(links: Seq<Link>, l: usize, po: usize, pi: usize) -> bool {
        &&& l < links.len()
        &&& links[l as int].output_port == Some(po)
        &&& links[l as int].input_port == Some(pi)
    }

    /// The drawn edge `e` of `c` carries a link of `links` from `po` to `pi`, and no
    /// edge of a smaller index does.
    pub open spec fn first_joining(links: Seq<Link>, c: Canvas, po: usize, pi: usize, e: u32) -> bool {
        &&& c.edges().contains_key(e)
        &&& Self::joins(links, c.edges()[e].2, po, pi)
        &&& forall|e2: u32| #[trigger] c.edges().contains_key(e2) && e2 < e ==> !Self::joins(links, c.edges()[e2].2, po, pi)
    }

    /// A link from `out` to `inp` can be taken in: it does not need a master link that
    /// is missing while one of its two master ends is not a known port.
    pub open spec fn add_link_ok(&self, out: u32, inp: u32) -> bool {
        self.is_master_link(out, inp) && !self.masters().contains_key(pair_key(self.effective_id(out), self.effective_id(inp)))
            ==> (self.items().get(self.effective_id(out)) matches Some(Entry::Port(_)))
            && (self.items().get(self.effective_id(inp)) matches Some(Entry::Port(_)))
    }

    /// The nodes that keep the real link `id` of a master link drawn inside them, and
    /// their internal links, after taking it in.
    pub open spec fn internal_added(a: Self, b: Self, id: u32, out: u32, inp: u32, active: bool, media_type: MediaType) -> bool {
        let on = a.node_for_port(out);
        let inn = a.node_for_port(inp);
        let out_app = on matches Some(x) && a.nodes()[x as int].is_app;
        let in_app = inn matches Some(x) && a.nodes()[x as int].is_app;
        let eff_out = a.effective_id(out);
        let eff_in = a.effective_id(inp);
        &&& b.nodes().len() == a.nodes().len()
        &&& forall|q: int| 0 <= q < a.nodes().len() && !(out_app && q == on.unwrap()) && !(in_app && q == inn.unwrap())
            ==> #[trigger] b.nodes()[q] == a.nodes()[q]
        &&& forall|q: int| 0 <= q < a.nodes().len() && ((out_app && q == on.unwrap()) || (in_app && q == inn.unwrap())) ==> {
            &&& node_frame(a.nodes()[q], #[trigger] b.nodes()[q])
            &&& b.nodes()[q].sub_nodes == a.nodes()[q].sub_nodes
            &&& b.nodes()[q].ports == a.nodes()[q].ports
            &&& b.nodes()[q].master_ports == a.nodes()[q].master_ports
        }
        &&& out_app ==> b.nodes()[on.unwrap() as int].internal_links@ == a.nodes()[on.unwrap() as int].internal_links@.insert(
            id, InternalLink { output_port_id: out, input_port_id: eff_out, active, media_type })
        &&& in_app ==> b.nodes()[inn.unwrap() as int].internal_links@ == a.nodes()[inn.unwrap() as int].internal_links@.insert(
            id, InternalLink { output_port_id: eff_in, input_port_id: inp, active, media_type })
        &&& b.internal_view() == a.internal_view().insert(id,
            (if out_app { seq![a.nodes()[on.unwrap() as int].pipewire_id] } else { Seq::<u32>::empty() })
            + (if in_app { seq![a.nodes()[inn.unwrap() as int].pipewire_id] } else { Seq::<u32>::empty() }))
    }

    /// What taking in the PipeWire link `id` from the port `out` to the port `inp`
    /// does to `a`, giving `b`.
    /// - Both ports in one application group: the group draws it inside.
    /// - An end has a master port: the real link is recorded against the master link
    ///   between the two effective ends, the groups of its ends draw it inside, and
    ///   the master link is made active, or made and drawn.
    /// - Otherwise a link drawn under `id` before is taken off the canvas; when both
    ///   ports are known, the first drawn link between them is revived, or a new link
    ///   is made and drawn; either is kept under `id`.
    pub open spec fn add_link_step(a: Self, b: Self, id: u32, out: u32, inp: u32, active: bool, media_type: MediaType) -> bool {
        if a.is_internal_link(out, inp) {
            Self::internal_link_step(a, b, id, out, inp, active, media_type)
        } else if a.is_master_link(out, inp) {
            Self::master_link_step(a, b, id, out, inp, active, media_type)
        } else {
            Self::plain_link_step(a, b, id, out, inp, active, media_type)
        }
    }

    /// `b` and `a` agree on what taking in a link never changes.
    pub open spec fn link_frame(a: Self, b: Self) -> bool {
        &&& b.ports() == a.ports()
        &&& b.groups() == a.groups()
        &&& b.offline() == a.offline()
        &&& b.deletions() == a.deletions()
        &&& b.detached() == a.detached()
        &&& b.pending() == a.pending()
        &&& b.matrix_pending() == a.matrix_pending()
    }

    /// A link inside the application group of both its ports: the group draws it.
    pub open spec fn internal_link_step(a: Self, b: Self, id: u32, out: u32, inp: u32, active: bool, media_type: MediaType) -> bool {
        let n = a.node_for_port(out).unwrap();
        &&& Self::link_frame(a, b)
        &&& b.nodes().len() == a.nodes().len()
        &&& forall|q: int| 0 <= q < a.nodes().len() && q != n ==> #[trigger] b.nodes()[q] == a.nodes()[q]
        &&& node_frame(a.nodes()[n as int], b.nodes()[n as int])
        &&& b.nodes()[n as int].sub_nodes == a.nodes()[n as int].sub_nodes
        &&& b.nodes()[n as int].ports == a.nodes()[n as int].ports
        &&& b.nodes()[n as int].master_ports == a.nodes()[n as int].master_ports
        &&& b.nodes()[n as int].internal_links@ == a.nodes()[n as int].internal_links@.insert(
            id, InternalLink { output_port_id: out, input_port_id: inp, active, media_type })
        &&& b.internal_view() == a.internal_view().insert(id, seq![a.nodes()[n as int].pipewire_id])
        &&& b.links() == a.links()
        &&& b.items() == a.items()
        &&& b.canvas() == a.canvas()
        &&& b.masters() == a.masters()
        &&& b.real_masters() == a.real_masters()
    }

    /// A link with a master end: the real link is recorded against the master link
    /// between the two effective ends, the groups of its ends draw it inside, and the
    /// master link is made active, or made and drawn.
    pub open spec fn master_link_step(a: Self, b: Self, id: u32, out: u32, inp: u32, active: bool, media_type: MediaType) -> bool {
        let key = pair_key(a.effective_id(out), a.effective_id(inp));
        &&& Self::link_frame(a, b)
        &&& Self::internal_added(a, b, id, out, inp, active, media_type)
        &&& b.real_masters() == a.real_masters().insert(id, key)
        &&& b.items() == a.items()
        &&& if a.masters().contains_key(key) {
            let l = a.masters()[key];
            &&& b.links() == a.links().update(l as int, Link { active: true, ..a.links()[l as int] })
            &&& b.masters() == a.masters()
            &&& b.canvas() == a.canvas()
        } else {
            let l = a.links().len();
            let po = a.items()[a.effective_id(out)]->Port_0;
            let pi = a.items()[a.effective_id(inp)]->Port_0;
            &&& b.links().len() == l + 1
            &&& b.links().subrange(0, l as int) == a.links()
            &&& b.links()[l as int] == (Link { output_port: Some(po), input_port: Some(pi), active, online: true,
                media_type: crate::ids::port_media_type_of(media_type), pending_check: false })
            &&& b.masters() == a.masters().insert(key, l as usize)
            &&& Canvas::link_added(a.canvas(), b.canvas(), l as usize, a.holder(po), a.holder(pi))
        }
    }

    /// A link between two ports: a link drawn under `id` before is taken off the
    /// canvas; when both ports are known, the first drawn link between them is revived,
    /// or a new link is made and drawn; either is kept under `id`.
    pub open spec fn plain_link_step(a: Self, b: Self, id: u32, out: u32, inp: u32, active: bool, media_type: MediaType) -> bool {
        let kind = crate::ids::port_media_type_of(media_type);
        &&& Self::link_frame(a, b)
        &&& b.nodes() == a.nodes()
        &&& b.masters() == a.masters()
        &&& b.real_masters() == a.real_masters()
        &&& b.internal_nodes() == a.internal_nodes()
        &&& exists|c: Canvas| {
            &&& #[trigger] c.wf()
            &&& (match a.items().get(id) {
                Some(Entry::Link(prev)) => Canvas::link_removed(a.canvas(), c, prev),
                _ => c == a.canvas(),
            })
            &&& Self::plain_link_placed(a, b, c, id, out, inp, active, kind)
        }
    }

    /// The second half of `plain_link_step`, from the canvas `c` on.
    pub open spec fn plain_link_placed(a: Self, b: Self, c: Canvas, id: u32, out: u32, inp: u32, active: bool, kind: PortMediaType) -> bool {
        match (a.items().get(out), a.items().get(inp)) {
            (Some(Entry::Port(po)), Some(Entry::Port(pi))) => if exists|e: u32| #[trigger] Self::first_joining(a.links(), c, po, pi, e) {
                let e = choose|e: u32| #[trigger] Self::first_joining(a.links(), c, po, pi, e);
                let l = c.edges()[e].2;
                &&& b.links() == a.links().update(l as int, Link { active, online: true, media_type: kind, ..a.links()[l as int] })
                &&& b.items() == a.items().insert(id, Entry::Link(l))
                &&& b.canvas() == c
            } else {
                let l = a.links().len();
                &&& b.links().len() == l + 1
                &&& b.links().subrange(0, l as int) == a.links()
                &&& b.links()[l as int] == (Link { output_port: Some(po), input_port: Some(pi), active, online: true,
                    media_type: kind, pending_check: false })
                &&& b.items() == a.items().insert(id, Entry::Link(l as usize))
                &&& Canvas::link_added(c, b.canvas(), l as usize, a.holder(po), a.holder(pi))
            },
            _ => b.links() == a.links() && b.items() == a.items() && b.canvas() == c,
        }
    }

    /// Whether `add_link_ok` holds for a link from `out` to `inp`.
    pub fn can_add_link(&self, out: PortId, inp: PortId) -> (r: bool)
        requires
            self.wf(),
        ensures
            r == self.add_link_ok(out.0, inp.0),
    {
        let on = self.get_node_for_port_id(out);
        let inn = self.get_node_for_port_id(inp);
        if let (Some(x), Some(y)) = (on, inn) {
            if x == y && self.nodes[x].is_app {
                return true;
            }
        }
        let eff_out = match self.get_master_port_id(out) {
            Some(m) => m.0,
            None => out.0,
        };
        let eff_in = match self.get_master_port_id(inp) {
            Some(m) => m.0,
            None => inp.0,
        };
        if eff_out == out.0 && eff_in == inp.0 {
            return true;
        }
        let key = make_pair_key(eff_out, eff_in);
        if self.master_links.contains_key(&key) {
            return true;
        }
        let a = match self.items.get(&eff_out) {
            Some(Entry::Port(_)) => true,
            _ => false,
        };
        let b = match self.items.get(&eff_in) {
            Some(Entry::Port(_)) => true,
            _ => false,
        };
        a && b
    }

    /// The drawn edge with the smallest index whose link goes from `po` to `pi`, with
    /// that link.
    #[verifier::spinoff_prover]
    fn find_first_joining(&self, po: usize, pi: usize) -> (r: Option<(u32, usize)>)
        requires
            self.wf(),
        ensures
            r matches Some((e, l)) ==> Self::first_joining(self.links(), self.canvas(), po, pi, e) && l == self.canvas().edges()[e].2,
            r is None ==> forall|e: u32| #[trigger] self.canvas().edges().contains_key(e) ==> !Self::joins(self.links(), self.canvas().edges()[e].2, po, pi),
    {
        let edges = self.canvas.edge_list();
        let mut k: usize = 0;
        while k < edges.len()
            invariant
                self.wf(),
                k <= edges@.len(),
                forall|i: int, j: int| 0 <= i < j < edges@.len() ==> edges@[i].0 < edges@[j].0,
                forall|i: int| 0 <= i < edges@.len() ==> #[trigger] self.canvas.edges().contains_key(edges@[i].0)
                    && self.canvas.edges()[edges@[i].0] == (edges@[i].1, edges@[i].2, edges@[i].3),
                forall|e: u32| #[trigger] self.canvas.edges().contains_key(e) ==> exists|i: int| 0 <= i < edges@.len() && edges@[i].0 == e,
                forall|i: int| 0 <= i < k ==> !Self::joins(self.links(), #[trigger] edges@[i].3, po, pi),
            decreases edges.len() - k,
        {
            let l = edges[k].3;
            assert(self.canvas.edges().contains_key(edges@[k as int].0));
            if l < self.links.len() && self.links[l].output_port == Some(po) && self.links[l].input_port == Some(pi) {
                let e = edges[k].0;
                proof {
                    assert forall|e2: u32| #[trigger] self.canvas().edges().contains_key(e2) && e2 < e implies !Self::joins(self.links(), self.canvas().edges()[e2].2, po, pi) by {
                        let i = choose|i: int| 0 <= i < edges@.len() && edges@[i].0 == e2;
                        assert(self.canvas.edges().contains_key(edges@[i].0));
                        if i >= k {
                            if i > k {
                                assert(edges@[k as int].0 < edges@[i].0);
                            }
                        }
                    }
                }
                return Some((e, l));
            }
            k = k + 1;
        }
        proof {
            assert forall|e: u32| #[trigger] self.canvas().edges().contains_key(e) implies !Self::joins(self.links(), self.canvas().edges()[e].2, po, pi) by {
                let i = choose|i: int| 0 <= i < edges@.len() && edges@[i].0 == e;
                assert(self.canvas.edges().contains_key(edges@[i].0));
                assert(!Self::joins(self.links(), edges@[i].3, po, pi));
            }
        }
        None
    }



    fn internal_link_case(&mut self, x: usize, id: u32, out: u32, inp: u32, active: bool, media_type: MediaType)
        requires
            old(self).wf(),
            old(self).is_internal_link(out, inp),
            old(self).node_for_port(out) == Some(x),
        ensures
            final(self).wf(),
            Self::internal_link_step(*old(self), *final(self), id, out, inp, active, media_type),
    {
        let ghost a = *self;
        assert(a.entry_ok(a.ports()[a.items()[out]->Port_0 as int].node_id,
            a.items()[a.ports()[a.items()[out]->Port_0 as int].node_id]));
        self.nodes[x].add_internal_link(id, out, inp, active, media_type);
        let pw = self.nodes[x].pipewire_id;
        let mut list: Vec<u32> = Vec::new();
        list.push(pw);
        assert(list@ =~= seq![pw]);
        self.link_to_internal_node.insert(id, list);
        proof {
            Self::lemma_same_shape(&a, self);
            assert(self.internal_view() =~= a.internal_view().insert(id, seq![pw]));
        }
    }

    /// Record the real link `id` from `out` to `inp`, whose master ends are `eff_out`
    /// and `eff_in`, inside the application groups of its two ends.
    fn record_internal(&mut self, id: u32, out: u32, inp: u32, eff_out: u32, eff_in: u32, active: bool, media_type: MediaType)
        requires
            old(self).wf(),
            !old(self).is_internal_link(out, inp),
            eff_out == old(self).effective_id(out),
            eff_in == old(self).effective_id(inp),
        ensures
            final(self).wf(),
            Self::internal_added(*old(self), *final(self), id, out, inp, active, media_type),
            Self::same_shape(old(self), final(self)),
            Self::link_frame(*old(self), *final(self)),
            final(self).links() == old(self).links(),
            final(self).masters() == old(self).masters(),
            final(self).real_masters() == old(self).real_masters(),
            final(self).items() == old(self).items(),
            final(self).canvas() == old(self).canvas(),
    {
        let ghost a = *self;
        let on = self.get_node_for_port_id(PortId(out));
        let inn = self.get_node_for_port_id(PortId(inp));
        let mut list: Vec<u32> = Vec::new();
        if let Some(x) = on {
            if self.nodes[x].is_app {
                assert(a.entry_ok(a.ports()[a.items()[out]->Port_0 as int].node_id,
                    a.items()[a.ports()[a.items()[out]->Port_0 as int].node_id]));
                self.nodes[x].add_internal_link(id, out, eff_out, active, media_type);
                list.push(self.nodes[x].pipewire_id);
            }
        }
        let ghost s1 = *self;
        let ghost first = if on.is_some() && a.nodes()[on.unwrap() as int].is_app {
            seq![a.nodes()[on.unwrap() as int].pipewire_id]
        } else {
            Seq::<u32>::empty()
        };
        let ghost second = if inn.is_some() && a.nodes()[inn.unwrap() as int].is_app {
            seq![a.nodes()[inn.unwrap() as int].pipewire_id]
        } else {
            Seq::<u32>::empty()
        };
        assert(list@ =~= first);
        proof {
            Self::lemma_same_shape(&a, &s1);
        }
        if let Some(y) = inn {
            if self.nodes[y].is_app {
                assert(a.entry_ok(a.ports()[a.items()[inp]->Port_0 as int].node_id,
                    a.items()[a.ports()[a.items()[inp]->Port_0 as int].node_id]));
                self.nodes[y].add_internal_link(id, eff_in, inp, active, media_type);
                list.push(self.nodes[y].pipewire_id);
            }
        }
        assert(list@ =~= first + second);
        let ghost list_view = list@;
        let ghost s2 = *self;
        proof {
            Self::lemma_same_shape(&s1, &s2);
        }
        self.link_to_internal_node.insert(id, list);
        proof {
            Self::lemma_same_shape(&s2, self);
            assert(self.internal_view() =~= a.internal_view().insert(id, list_view));
        }
    }

    fn master_link_case(&mut self, id: u32, out: u32, inp: u32, active: bool, media_type: MediaType)
        requires
            old(self).wf(),
            old(self).has_room(),
            old(self).add_link_ok(out, inp),
            old(self).is_master_link(out, inp),
        ensures
            final(self).wf(),
            Self::master_link_step(*old(self), *final(self), id, out, inp, active, media_type),
    {
        let ghost a = *self;
        let eff_out = match self.get_master_port_id(PortId(out)) {
            Some(m) => m.0,
            None => out,
        };
        let eff_in = match self.get_master_port_id(PortId(inp)) {
            Some(m) => m.0,
            None => inp,
        };
        let key = make_pair_key(eff_out, eff_in);
        self.record_internal(id, out, inp, eff_out, eff_in, active, media_type);
        self.real_to_master.insert(id, key);
        let ghost s2 = *self;
        proof {
            Self::lemma_same_shape(&a, &s2);
        }
        if let Some(l) = self.master_links.get(&key) {
            let l = *l;
            self.links[l].active = true;
            proof {
                assert(self.links@ == s2.links@.update(l as int, Link { active: true, ..s2.links@[l as int] }));
                Self::lemma_same_shape(&s2, self);
            }
            return;
        }
        let po = match self.items.get(&eff_out) {
            Some(Entry::Port(h)) => *h,
            _ => {
                assert(false);
                return;
            },
        };
        let pi = match self.items.get(&eff_in) {
            Some(Entry::Port(h)) => *h,
            _ => {
                assert(false);
                return;
            },
        };
        assert(s2.entry_ok(eff_out, s2.items@[eff_out]));
        assert(s2.entry_ok(eff_in, s2.items@[eff_in]));
        let l = self.links.len();
        let link = Link {
            output_port: Some(po),
            input_port: Some(pi),
            active,
            online: true,
            media_type: PortMediaType::from(media_type),
            pending_check: false,
        };
        self.links.push(link);
        self.master_links.insert(key, l);
        let ho = self.holder_exec(po);
        let hi = self.holder_exec(pi);
        self.canvas.add_link(l, ho, hi);
        proof {
            Self::lemma_masters_unique_kept(&s2, self);
            assert(self.links@.subrange(0, l as int) =~= s2.links@);
            assert(self.link_ok(l as int));
            Self::lemma_arena_same_links(&s2, self);
            assert forall|i: u32| #[trigger] self.items@.contains_key(i) implies self.entry_ok(i, self.items@[i]) by {
                assert(s2.entry_ok(i, s2.items@[i]));
            }
            assert forall|k: u64| #[trigger] self.master_links@.contains_key(k) implies self.master_links@[k] < self.links@.len() by {
                if k != key {
                    assert(s2.master_links@.contains_key(k));
                }
            }
            assert forall|i: u32| #[trigger] self.canvas.nodes().contains_key(i) implies self.canvas.nodes()[i] < self.nodes@.len()
                && self.canvas.node_index().contains_key(self.canvas.nodes()[i]) by {
                assert(s2.canvas.nodes().contains_key(i));
            }
            assert forall|e: u32| #[trigger] self.canvas.edges().contains_key(e) implies self.canvas.edges()[e].2 < self.links@.len() by {
                if s2.canvas.edges().contains_key(e) {
                }
            }
            assert(ho == a.holder(po) && hi == a.holder(pi));
        }
    }

    /// Put the link `id` in place between the known ports `po` and `pi` on a canvas from
    /// which any link drawn under `id` before is gone.
    fn place_plain_link(&mut self, id: u32, po: usize, pi: usize, active: bool, media_type: MediaType)
        requires
            old(self).wf(),
            old(self).canvas().edges().len() < index_limit(),
            po < old(self).ports().len(),
            pi < old(self).ports().len(),
        ensures
            final(self).wf(),
            Self::link_frame(*old(self), *final(self)),
            final(self).nodes() == old(self).nodes(),
            final(self).masters() == old(self).masters(),
            final(self).real_masters() == old(self).real_masters(),
            final(self).internal_nodes() == old(self).internal_nodes(),
            if exists|e: u32| #[trigger] Self::first_joining(old(self).links(), old(self).canvas(), po, pi, e) {
                let e = choose|e: u32| #[trigger] Self::first_joining(old(self).links(), old(self).canvas(), po, pi, e);
                let l = old(self).canvas().edges()[e].2;
                &&& final(self).links() == old(self).links().update(l as int, Link { active, online: true,
                    media_type: crate::ids::port_media_type_of(media_type), ..old(self).links()[l as int] })
                &&& final(self).items() == old(self).items().insert(id, Entry::Link(l))
                &&& final(self).canvas() == old(self).canvas()
            } else {
                let l = old(self).links().len();
                &&& final(self).links().len() == l + 1
                &&& final(self).links().subrange(0, l as int) == old(self).links()
                &&& final(self).links()[l as int] == (Link { output_port: Some(po), input_port: Some(pi), active, online: true,
                    media_type: crate::ids::port_media_type_of(media_type), pending_check: false })
                &&& final(self).items() == old(self).items().insert(id, Entry::Link(l as usize))
                &&& Canvas::link_added(old(self).canvas(), final(self).canvas(), l as usize, old(self).holder(po), old(self).holder(pi))
            },
    {
        let ghost s1 = *self;
        match self.find_first_joining(po, pi) {
            Some((e, l)) => {
                assert(s1.canvas().edges().contains_key(e));
                assert(l < s1.links@.len());
                self.links[l].active = active;
                self.links[l].online = true;
                self.links[l].media_type = PortMediaType::from(media_type);
                self.items.insert(id, Entry::Link(l));
                proof {
                    assert(self.links@ =~= s1.links@.update(l as int, Link { active, online: true,
                        media_type: crate::ids::port_media_type_of(media_type), ..s1.links@[l as int] }));
                    let w = choose|w: u32| #[trigger] Self::first_joining(s1.links(), s1.canvas(), po, pi, w);
                    if w < e {
                        assert(s1.canvas().edges().contains_key(w));
                    } else if e < w {
                        assert(s1.canvas().edges().contains_key(e));
                    }
                    Self::lemma_masters_unique_kept(&s1, self);
                    Self::lemma_arena_same_links(&s1, self);
                    assert forall|i: u32| #[trigger] self.items@.contains_key(i) implies self.entry_ok(i, self.items@[i]) by {
                        if i != id {
                            assert(s1.entry_ok(i, s1.items@[i]));
                        }
                    }
                    assert forall|k: u64| #[trigger] self.master_links@.contains_key(k) implies self.master_links@[k] < self.links@.len() by {
                        assert(s1.master_links@.contains_key(k));
                    }
                    assert forall|e2: u32| #[trigger] self.canvas.edges().contains_key(e2) implies self.canvas.edges()[e2].2 < self.links@.len() by {
                        assert(s1.canvas.edges().contains_key(e2));
                    }
                }
            },
            None => {
                let l = self.links.len();
                let link = Link {
                    output_port: Some(po),
                    input_port: Some(pi),
                    active,
                    online: true,
                    media_type: PortMediaType::from(media_type),
                    pending_check: false,
                };
                self.links.push(link);
                self.items.insert(id, Entry::Link(l));
                let ho = self.holder_exec(po);
                let hi = self.holder_exec(pi);
                self.canvas.add_link(l, ho, hi);
                proof {
                    assert(self.links@.subrange(0, l as int) =~= s1.links@);
                    Self::lemma_masters_unique_kept(&s1, self);
                    assert(self.link_ok(l as int));
                    Self::lemma_arena_same_links(&s1, self);
                    assert forall|i: u32| #[trigger] self.items@.contains_key(i) implies self.entry_ok(i, self.items@[i]) by {
                        if i != id {
                            assert(s1.entry_ok(i, s1.items@[i]));
                        }
                    }
                    assert forall|k: u64| #[trigger] self.master_links@.contains_key(k) implies self.master_links@[k] < self.links@.len() by {
                        assert(s1.master_links@.contains_key(k));
                    }
                    assert forall|i: u32| #[trigger] self.canvas.nodes().contains_key(i) implies self.canvas.nodes()[i] < self.nodes@.len()
                        && self.canvas.node_index().contains_key(self.canvas.nodes()[i]) by {
                        assert(s1.canvas.nodes().contains_key(i));
                    }
                    assert forall|e2: u32| #[trigger] self.canvas.edges().contains_key(e2) implies self.canvas.edges()[e2].2 < self.links@.len() by {
                        if s1.canvas.edges().contains_key(e2) {
                        }
                    }
                    assert(ho == s1.holder(po) && hi == s1.holder(pi));
                    if exists|w: u32| #[trigger] Self::first_joining(s1.links(), s1.canvas(), po, pi, w) {
                        let w = choose|w: u32| #[trigger] Self::first_joining(s1.links(), s1.canvas(), po, pi, w);
                        assert(s1.canvas().edges().contains_key(w));
                    }
                }
            },
        }
    }

    fn plain_link_case(&mut self, id: u32, out: u32, inp: u32, active: bool, media_type: MediaType)
        requires
            old(self).wf(),
            old(self).has_room(),
        ensures
            final(self).wf(),
            Self::plain_link_step(*old(self), *final(self), id, out, inp, active, media_type),
    {
        let ghost a = *self;
        if let Some(Entry::Link(prev)) = self.items.get(&id) {
            let prev = *prev;
            self.canvas.remove_link(prev);
        }
        let ghost c = self.canvas;
        let ghost s1 = *self;
        proof {
            if let Some(Entry::Link(prev)) = a.items().get(id) {
                Canvas::lemma_link_removed_shrinks(a.canvas, c, prev);
            }
            Self::lemma_arena_same(&a, &s1);
            assert forall|i: u32| #[trigger] s1.items@.contains_key(i) implies s1.entry_ok(i, s1.items@[i]) by {
                assert(a.entry_ok(i, a.items@[i]));
            }
            assert forall|i: u32| #[trigger] s1.canvas.nodes().contains_key(i) implies s1.canvas.nodes()[i] < s1.nodes@.len()
                && s1.canvas.node_index().contains_key(s1.canvas.nodes()[i]) by {
                assert(a.canvas.nodes().contains_key(i));
            }
            assert forall|e: u32| #[trigger] s1.canvas.edges().contains_key(e) implies s1.canvas.edges()[e].2 < s1.links@.len() by {
                assert(a.canvas.edges().contains_key(e));
            }
            assert(s1.wf());
        }
        let po = match self.items.get(&out) {
            Some(Entry::Port(h)) => *h,
            _ => {
                assert(Self::plain_link_placed(a, *self, c, id, out, inp, active, crate::ids::port_media_type_of(media_type)));
                return;
            },
        };
        let pi = match self.items.get(&inp) {
            Some(Entry::Port(h)) => *h,
            _ => {
                assert(Self::plain_link_placed(a, *self, c, id, out, inp, active, crate::ids::port_media_type_of(media_type)));
                return;
            },
        };
        assert(a.entry_ok(out, a.items@[out]));
        assert(a.entry_ok(inp, a.items@[inp]));
        self.place_plain_link(id, po, pi, active, media_type);
        proof {
            assert forall|e: u32| #[trigger] Self::first_joining(a.links(), c, po, pi, e) == Self::first_joining(s1.links(), s1.canvas(), po, pi, e) by {
                assert(a.links() == s1.links());
            }
            assert(Self::plain_link_placed(a, *self, c, id, out, inp, active, crate::ids::port_media_type_of(media_type)));
        }
    }

    /// PipeWire made the link `id` from the port `out` to the port `inp`: draw it, inside
    /// an application group, between master ports, or between the two ports.
    pub fn add_link(&mut self, id: LinkId, out: PortId, inp: PortId, active: bool, media_type: MediaType)
        requires
            old(self).wf(),
            old(self).has_room(),
            old(self).add_link_ok(out.0, inp.0),
        ensures
            final(self).wf(),
            Self::add_link_step(*old(self), *final(self), id.0, out.0, inp.0, active, media_type),
    {
        let on = self.get_node_for_port_id(out);
        let inn = self.get_node_for_port_id(inp);
        if let (Some(x), Some(y)) = (on, inn) {
            if x == y && self.nodes[x].is_app {
                self.internal_link_case(x, id.0, out.0, inp.0, active, media_type);
                return;
            }
        }
        let eff_out = match self.get_master_port_id(out) {
            Some(m) => m.0,
            None => out.0,
        };
        let eff_in = match self.get_master_port_id(inp) {
            Some(m) => m.0,
            None => inp.0,
        };
        if eff_out != out.0 || eff_in != inp.0 {
            self.master_link_case(id.0, out.0, inp.0, active, media_type);
        } else {
            self.plain_link_case(id.0, out.0, inp.0, active, media_type);
        }
    }

    /// The node `q` of `a` is kept under one of the ids of `list`.
    pub open spec fn listed(a: Self, list: Seq<u32>, q: int) -> bool {
        exists|k: int| 0 <= k < list.len() && #[trigger] a.items().get(list[k]) == Some(Entry::Node(q as usize))
    }

    /// What changing the internal link `id` of every node listed in `list` does to
    /// `a`, giving `b`; the record of which nodes draw `id` is forgotten when `forget`.
    pub open spec fn internal_changed(a: Self, b: Self, list: Seq<u32>, id: u32, c: InternalChange, forget: bool) -> bool {
        &&& b.nodes().len() == a.nodes().len()
        &&& forall|q: int| 0 <= q < a.nodes().len() ==> {
            &&& node_frame(a.nodes()[q], #[trigger] b.nodes()[q])
            &&& b.nodes()[q].sub_nodes == a.nodes()[q].sub_nodes
            &&& b.nodes()[q].ports == a.nodes()[q].ports
            &&& b.nodes()[q].master_ports == a.nodes()[q].master_ports
            &&& b.nodes()[q].internal_links@ == (if Self::listed(a, list, q) {
                changed_links(a.nodes()[q].internal_links@, id, c)
            } else {
                a.nodes()[q].internal_links@
            })
        }
        &&& b.internal_nodes() == (if forget { a.internal_nodes().remove(id) } else { a.internal_nodes() })
        &&& b.ports() == a.ports()
        &&& b.links() == a.links()
        &&& b.items() == a.items()
        &&& b.canvas() == a.canvas()
        &&& b.groups() == a.groups()
        &&& b.offline() == a.offline()
        &&& b.masters() == a.masters()
        &&& b.real_masters() == a.real_masters()
        &&& b.deletions() == a.deletions()
        &&& b.detached() == a.detached()
        &&& b.pending() == a.pending()
        &&& b.matrix_pending() == a.matrix_pending()
    }

    /// The ids of the nodes recorded as drawing the real link `id` inside them.
    pub open spec fn internal_list(&self, id: u32) -> Seq<u32> {
        if self.internal_nodes().contains_key(id) {
            self.internal_view()[id]
        } else {
            Seq::<u32>::empty()
        }
    }

    /// Change the internal link `id` of every node recorded as drawing it, and forget
    /// that record when `forget`.
    fn change_internal(&mut self, id: u32, c: InternalChange, forget: bool)
        requires
            old(self).wf(),
        ensures
            final(self).wf(),
            Self::internal_changed(*old(self), *final(self), old(self).internal_list(id), id, c, forget),
    {
        let ghost a = *self;
        let list: Vec<u32> = if forget {
            match self.link_to_internal_node.remove(&id) {
                Some(v) => v,
                None => Vec::new(),
            }
        } else {
            match self.link_to_internal_node.get(&id) {
                Some(v) => v.clone(),
                None => Vec::new(),
            }
        };
        proof {
            if a.internal_nodes().contains_key(id) {
                assert(a.internal_view()[id] == a.internal_nodes()[id]@);
            }
        }
        assert(list@ == a.internal_list(id));
        let ghost s0 = *self;
        proof {
            Self::lemma_same_shape(&a, &s0);
        }
        let mut k: usize = 0;
        while k < list.len()
            invariant
                self.wf(),
                a.wf(),
                list@ == a.internal_list(id),
                k <= list@.len(),
                self.items@ == a.items@,
                *self == (GraphManager { nodes: self.nodes, ..s0 }),
                self.nodes@.len() == a.nodes@.len(),
                forall|q: int| 0 <= q < a.nodes@.len() ==> {
                    &&& node_frame(a.nodes@[q], #[trigger] self.nodes@[q])
                    &&& self.nodes@[q].sub_nodes == a.nodes@[q].sub_nodes
                    &&& self.nodes@[q].ports == a.nodes@[q].ports
                    &&& self.nodes@[q].master_ports == a.nodes@[q].master_ports
                    &&& self.nodes@[q].internal_links@ == (if Self::listed(a, list@.take(k as int), q) {
                        changed_links(a.nodes@[q].internal_links@, id, c)
                    } else {
                        a.nodes@[q].internal_links@
                    })
                },
            decreases list.len() - k,
        {
            let nid = list[k];
            let ghost before = *self;
            if let Some(Entry::Node(n)) = self.items.get(&nid) {
                let n = *n;
                assert(self.entry_ok(nid, self.items@[nid]));
                match c {
                    InternalChange::Remove => self.nodes[n].remove_internal_link(id),
                    InternalChange::State(active) => self.nodes[n].update_internal_link_state(id, active),
                    InternalChange::Format(media_type) => self.nodes[n].update_internal_link_format(id, media_type),
                }
                proof {
                    lemma_changed_links_idempotent(a.nodes@[n as int].internal_links@, id, c);
                    Self::lemma_same_shape(&before, self);
                }
            }
            proof {
                assert forall|q: int| 0 <= q < a.nodes@.len() implies Self::listed(a, list@.take(k as int + 1), q)
                    == (Self::listed(a, list@.take(k as int), q) || a.items().get(nid) == Some(Entry::Node(q as usize))) by {
                    if Self::listed(a, list@.take(k as int + 1), q) {
                        let w = choose|w: int| 0 <= w < list@.take(k as int + 1).len()
                            && #[trigger] a.items().get(list@.take(k as int + 1)[w]) == Some(Entry::Node(q as usize));
                        if w < k {
                            assert(list@.take(k as int)[w] == list@.take(k as int + 1)[w]);
                        }
                    }
                    if Self::listed(a, list@.take(k as int), q) {
                        let w = choose|w: int| 0 <= w < list@.take(k as int).len()
                            && #[trigger] a.items().get(list@.take(k as int)[w]) == Some(Entry::Node(q as usize));
                        assert(list@.take(k as int + 1)[w] == list@.take(k as int)[w]);
                    }
                    if a.items().get(nid) == Some(Entry::Node(q as usize)) {
                        assert(list@.take(k as int + 1)[k as int] == nid);
                    }
                }
                assert(a.nodes.len() == a.nodes@.len());
                assert forall|q: int| 0 <= q < a.nodes@.len() implies {
                    &&& node_frame(a.nodes@[q], #[trigger] self.nodes@[q])
                    &&& self.nodes@[q].sub_nodes == a.nodes@[q].sub_nodes
                    &&& self.nodes@[q].ports == a.nodes@[q].ports
                    &&& self.nodes@[q].master_ports == a.nodes@[q].master_ports
                    &&& self.nodes@[q].internal_links@ == (if Self::listed(a, list@.take(k as int + 1), q) {
                        changed_links(a.nodes@[q].internal_links@, id, c)
                    } else {
                        a.nodes@[q].internal_links@
                    })
                } by {
                    if let Some(Entry::Node(n)) = a.items().get(nid) {
                        if q == n as int {
                            assert(Self::listed(a, list@.take(k as int + 1), q));
                            lemma_changed_links_idempotent(a.nodes@[q].internal_links@, id, c);
                        } else {
                            assert(self.nodes@[q] == before.nodes@[q]);
                            assert((q as usize) != n);
                        }
                    } else {
                        assert(self.nodes@[q] == before.nodes@[q]);
                    }
                }
            }
            k = k + 1;
        }
        proof {
            assert(list@.take(list@.len() as int) =~= list@);
            Self::lemma_same_shape(&s0, self);
            if !forget {
                assert(self.internal_nodes() == a.internal_nodes());
            }
        }
    }

    /// `b` agrees with `a` on everything but the links, the canvas, the master links,
    /// the real links, the entries and the pending deletions.
    pub open spec fn drop_frame(a: Self, b: Self) -> bool {
        &&& b.nodes() == a.nodes()
        &&& b.ports() == a.ports()
        &&& b.groups() == a.groups()
        &&& b.offline() == a.offline()
        &&& b.internal_nodes() == a.internal_nodes()
        &&& b.detached() == a.detached()
        &&& b.pending() == a.pending()
        &&& b.matrix_pending() == a.matrix_pending()
    }

    /// Some real link other than `id`, recorded against the master link `key`, is kept
    /// as an active link.
    pub open spec fn other_active(&self, key: u64, id: u32) -> bool {
        exists|rid: u32| {
            &&& rid != id
            &&& #[trigger] self.real_masters().contains_key(rid)
            &&& self.real_masters()[rid] == key
            &&& self.items().get(rid) matches Some(Entry::Link(rl))
            &&& rl < self.links().len()
            &&& self.links()[rl as int].active
        }
    }

    /// Some real link is still recorded against the master link `key`.
    pub open spec fn key_in_use(m: Map<u32, u64>, key: u64) -> bool {
        exists|rid: u32| #[trigger] m.contains_key(rid) && m[rid] == key
    }

    /// The live port at an end of the link `l` and whether it is online.
    pub open spec fn end_online(&self, end: Option<usize>) -> bool {
        self.live(end) matches Some(p) && self.ports()[p as int].online
    }

    /// The second half of `remove_link_step`: what follows the change of the internal
    /// links, from `m` on.
    /// - A real link of a master link leaves the record; the master link goes, off the
    ///   canvas too, when no real link is recorded against it any more.
    /// - Another link leaves the entries. When the user asked for its removal (its two
    ///   live ends are a pending deletion), it leaves the canvas. Otherwise it goes
    ///   offline; when both its ends are online it also waits for a check, and its
    ///   handle is returned.
    pub open spec fn link_dropped(m: Self, b: Self, id: u32, early: bool, r: Option<usize>) -> bool {
        &&& Self::drop_frame(m, b)
        &&& if early {
            &&& b.links() == m.links()
            &&& b.items() == m.items()
            &&& b.canvas() == m.canvas()
            &&& b.masters() == m.masters()
            &&& b.real_masters() == m.real_masters()
            &&& b.deletions() == m.deletions()
            &&& r is None
        } else if m.real_masters().contains_key(id) {
            let key = m.real_masters()[id];
            let rest = m.real_masters().remove(id);
            &&& b.real_masters() == rest
            &&& b.items() == m.items()
            &&& b.links() == m.links()
            &&& b.deletions() == m.deletions()
            &&& r is None
            &&& if !Self::key_in_use(rest, key) && m.masters().contains_key(key) {
                &&& b.masters() == m.masters().remove(key)
                &&& Canvas::link_removed(m.canvas(), b.canvas(), m.masters()[key])
            } else {
                &&& b.masters() == m.masters()
                &&& b.canvas() == m.canvas()
            }
        } else {
            &&& b.real_masters() == m.real_masters()
            &&& b.masters() == m.masters()
            &&& b.items() == m.items().remove(id)
            &&& match m.items().get(id) {
                Some(Entry::Link(l)) => {
                    let lo = m.live(m.links()[l as int].output_port);
                    let li = m.live(m.links()[l as int].input_port);
                    let both = lo is Some && li is Some;
                    let key = deletion_key(m.ports()[lo.unwrap() as int].pipewire_id, m.ports()[li.unwrap() as int].pipewire_id);
                    let asked = both && m.deletions().contains(key);
                    let check = m.end_online(m.links()[l as int].output_port) && m.end_online(m.links()[l as int].input_port);
                    &&& b.deletions() == (if both { m.deletions().remove(key) } else { m.deletions() })
                    &&& if asked {
                        &&& Canvas::link_removed(m.canvas(), b.canvas(), l)
                        &&& b.links() == m.links()
                        &&& r is None
                    } else {
                        &&& b.canvas() == m.canvas()
                        &&& b.links() == m.links().update(l as int, Link {
                            online: false,
                            pending_check: if check { true } else { m.links()[l as int].pending_check },
                            ..m.links()[l as int]
                        })
                        &&& r == (if check { Some(l) } else { None })
                    }
                },
                _ => {
                    &&& b.links() == m.links()
                    &&& b.canvas() == m.canvas()
                    &&& b.deletions() == m.deletions()
                    &&& r is None
                },
            }
        }
    }

    /// What removing the PipeWire link `id` does to `a`, giving `b` and the handle of a
    /// link left waiting for a check: the nodes that drew it inside forget it, then
    /// `link_dropped`. A link drawn only inside groups stops there.
    pub open spec fn remove_link_step(a: Self, b: Self, id: u32, r: Option<usize>) -> bool {
        exists|m: Self| {
            &&& #[trigger] Self::internal_changed(a, m, a.internal_list(id), id, InternalChange::Remove, true)
            &&& m.wf()
            &&& Self::link_dropped(m, b, id, a.internal_nodes().contains_key(id) && !a.real_masters().contains_key(id), r)
        }
    }

    fn key_in_use_exec(&self, key: u64) -> (r: bool)
        ensures
            r == Self::key_in_use(self.real_masters(), key),
    {
        let ids = keys_u32(&self.real_to_master);
        let mut i: usize = 0;
        while i < ids.len()
            invariant
                ids@.to_set() == self.real_to_master@.dom(),
                i <= ids@.len(),
                forall|j: int| 0 <= j < i ==> self.real_to_master@[#[trigger] ids@[j]] != key,
            decreases ids.len() - i,
        {
            let rid = ids[i];
            assert(ids@.to_set().contains(rid));
            if *self.real_to_master.get(&rid).unwrap() == key {
                return true;
            }
            i = i + 1;
        }
        proof {
            assert forall|rid: u32| #[trigger] self.real_masters().contains_key(rid) implies self.real_masters()[rid] != key by {
                assert(ids@.to_set().contains(rid));
                let j = choose|j: int| 0 <= j < ids@.len() && ids@[j] == rid;
            }
        }
        false
    }

    fn end_online_exec(&self, end: Option<usize>) -> (r: bool)
        requires
            self.wf(),
        ensures
            r == self.end_online(end),
    {
        match self.live_port(end) {
            Some(p) => self.ports[p].online,
            None => false,
        }
    }

    /// PipeWire removed the link `id`. Returns the handle of a link that stays drawn,
    /// offline, until a check a moment later decides whether it goes.
    pub fn remove_link(&mut self, id: LinkId) -> (r: Option<usize>)
        requires
            old(self).wf(),
        ensures
            final(self).wf(),
            Self::remove_link_step(*old(self), *final(self), id.0, r),
    {
        let ghost a = *self;
        let internal = self.link_to_internal_node.contains_key(&id.0);
        self.change_internal(id.0, InternalChange::Remove, true);
        let ghost m = *self;
        proof {
            assert(Self::internal_changed(a, m, a.internal_list(id.0), id.0, InternalChange::Remove, true));
        }
        if internal && !self.real_to_master.contains_key(&id.0) {
            return None;
        }
        if self.real_to_master.contains_key(&id.0) {
            let key = match self.real_to_master.remove(&id.0) {
                Some(k) => k,
                None => {
                    assert(false);
                    return None;
                },
            };
            let still = self.key_in_use_exec(key);
            if !still && self.master_links.contains_key(&key) {
                if let Some(l) = self.master_links.remove(&key) {
                    self.canvas.remove_link(l);
                }
            }
            proof {
                Self::lemma_arena_same(&m, self);
                assert forall|i: u32| #[trigger] self.items@.contains_key(i) implies self.entry_ok(i, self.items@[i]) by {
                    assert(m.entry_ok(i, m.items@[i]));
                }
                assert forall|k: u64| #[trigger] self.master_links@.contains_key(k) implies self.master_links@[k] < self.links@.len() by {
                    assert(m.master_links@.contains_key(k));
                }
                assert forall|i: u32| #[trigger] self.canvas.nodes().contains_key(i) implies self.canvas.nodes()[i] < self.nodes@.len()
                    && self.canvas.node_index().contains_key(self.canvas.nodes()[i]) by {
                    assert(m.canvas.nodes().contains_key(i));
                }
                assert forall|e: u32| #[trigger] self.canvas.edges().contains_key(e) implies self.canvas.edges()[e].2 < self.links@.len() by {
                    assert(m.canvas.edges().contains_key(e));
                }
                assert(Self::link_dropped(m, *self, id.0, false, None));
            }
            return None;
        }
        let l = match self.items.get(&id.0) {
            Some(Entry::Link(l)) => *l,
            _ => {
                self.items.remove(&id.0);
                proof {
                    Self::lemma_items_removed_wf(&m, self, id.0);
                }
                return None;
            },
        };
        assert(m.entry_ok(id.0, m.items@[id.0]));
        assert(m.link_ok(l as int));
        let lo = self.live_port(self.links[l].output_port);
        let li = self.live_port(self.links[l].input_port);
        let check = self.end_online_exec(self.links[l].output_port) && self.end_online_exec(self.links[l].input_port);
        self.items.remove(&id.0);
        let ghost s1 = *self;
        proof {
            Self::lemma_items_removed_wf(&m, self, id.0);
        }
        if let (Some(o), Some(i)) = (lo, li) {
            let key = make_deletion_key(self.ports[o].pipewire_id, self.ports[i].pipewire_id);
            let asked = self.pending_deletions.remove(&key);
            let ghost s2 = *self;
            proof {
                Self::lemma_same_shape(&s1, &s2);
            }
            if asked {
                self.canvas.remove_link(l);
                proof {
                    Self::lemma_arena_same(&s2, self);
                    assert forall|i: u32| #[trigger] self.items@.contains_key(i) implies self.entry_ok(i, self.items@[i]) by {
                        assert(s2.entry_ok(i, s2.items@[i]));
                    }
                    assert forall|i: u32| #[trigger] self.canvas.nodes().contains_key(i) implies self.canvas.nodes()[i] < self.nodes@.len()
                        && self.canvas.node_index().contains_key(self.canvas.nodes()[i]) by {
                        assert(s2.canvas.nodes().contains_key(i));
                    }
                    assert forall|e: u32| #[trigger] self.canvas.edges().contains_key(e) implies self.canvas.edges()[e].2 < self.links@.len() by {
                        assert(s2.canvas.edges().contains_key(e));
                    }
                }
                return None;
            }
        }
        let ghost s3 = *self;
        self.links[l].online = false;
        if check {
            self.links[l].pending_check = true;
        }
        proof {
            assert(self.links@ =~= s3.links@.update(l as int, Link {
                online: false,
                pending_check: if check { true } else { s3.links@[l as int].pending_check },
                ..s3.links@[l as int]
            }));
            Self::lemma_same_shape(&s3, self);
        }
        if check {
            Some(l)
        } else {
            None
        }
    }

    /// The check a moment after the link `l` went offline with both its ends online:
    /// when both ends are still online the link goes off the canvas; otherwise it stays
    /// as a ghost and stops waiting.
    pub fn finish_pending_check(&mut self, l: usize)
        requires
            old(self).wf(),
            l < old(self).links().len(),
        ensures
            final(self).wf(),
            Self::drop_frame(*old(self), *final(self)),
            final(self).items() == old(self).items(),
            final(self).masters() == old(self).masters(),
            final(self).real_masters() == old(self).real_masters(),
            final(self).deletions() == old(self).deletions(),
            if old(self).end_online(old(self).links()[l as int].output_port) && old(self).end_online(old(self).links()[l as int].input_port) {
                &&& Canvas::link_removed(old(self).canvas(), final(self).canvas(), l)
                &&& final(self).links() == old(self).links()
            } else {
                &&& final(self).canvas() == old(self).canvas()
                &&& final(self).links() == old(self).links().update(l as int, Link { pending_check: false, ..old(self).links()[l as int] })
            },
    {
        let ghost a = *self;
        let still = self.end_online_exec(self.links[l].output_port) && self.end_online_exec(self.links[l].input_port);
        if still {
            self.canvas.remove_link(l);
            proof {
                Self::lemma_arena_same(&a, self);
                assert forall|i: u32| #[trigger] self.items@.contains_key(i) implies self.entry_ok(i, self.items@[i]) by {
                    assert(a.entry_ok(i, a.items@[i]));
                }
                assert forall|i: u32| #[trigger] self.canvas.nodes().contains_key(i) implies self.canvas.nodes()[i] < self.nodes@.len()
                    && self.canvas.node_index().contains_key(self.canvas.nodes()[i]) by {
                    assert(a.canvas.nodes().contains_key(i));
                }
                assert forall|e: u32| #[trigger] self.canvas.edges().contains_key(e) implies self.canvas.edges()[e].2 < self.links@.len() by {
                    assert(a.canvas.edges().contains_key(e));
                }
            }
        } else {
            self.links[l].pending_check = false;
            proof {
                assert(self.links@ =~= a.links@.update(l as int, Link { pending_check: false, ..a.links@[l as int] }));
                Self::lemma_same_shape(&a, self);
            }
        }
    }

    fn other_active_exec(&self, key: u64, id: u32) -> (r: bool)
        requires
            self.wf(),
        ensures
            r == self.other_active(key, id),
    {
        let ids = keys_u32(&self.real_to_master);
        let mut i: usize = 0;
        while i < ids.len()
            invariant
                self.wf(),
                ids@.to_set() == self.real_to_master@.dom(),
                i <= ids@.len(),
                forall|j: int| 0 <= j < i ==> !Self::active_real(*self, #[trigger] ids@[j], key, id),
            decreases ids.len() - i,
        {
            let rid = ids[i];
            assert(ids@.to_set().contains(rid));
            if rid != id && *self.real_to_master.get(&rid).unwrap() == key {
                if let Some(Entry::Link(rl)) = self.items.get(&rid) {
                    let rl = *rl;
                    assert(self.entry_ok(rid, self.items@[rid]));
                    if self.links[rl].active {
                        assert(Self::active_real(*self, rid, key, id));
                        return true;
                    }
                }
            }
            i = i + 1;
        }
        proof {
            assert forall|rid: u32| !#[trigger] Self::active_real(*self, rid, key, id) by {
                if Self::active_real(*self, rid, key, id) {
                    assert(ids@.to_set().contains(rid));
                    let j = choose|j: int| 0 <= j < ids@.len() && ids@[j] == rid;
                    assert(!Self::active_real(*self, ids@[j], key, id));
                }
            }
            if self.other_active(key, id) {
                let rid = choose|rid: u32| {
                    &&& rid != id
                    &&& #[trigger] self.real_masters().contains_key(rid)
                    &&& self.real_masters()[rid] == key
                    &&& self.items().get(rid) matches Some(Entry::Link(rl))
                    &&& rl < self.links().len()
                    &&& self.links()[rl as int].active
                };
                assert(Self::active_real(*self, rid, key, id));
            }
        }
        false
    }

    /// The real link `rid`, not `id`, is recorded against the master link `key` and
    /// kept as an active link.
    pub open spec fn active_real(s: Self, rid: u32, key: u64, id: u32) -> bool {
        &&& rid != id
        &&& s.real_masters().contains_key(rid)
        &&& s.real_masters()[rid] == key
        &&& s.items().get(rid) matches Some(Entry::Link(rl))
        &&& rl < s.links().len()
        &&& s.links()[rl as int].active
    }

    /// The links of `m` once the master link of the real link `id` follows its new
    /// state `active`: made active when it is, made inactive when no other real link
    /// of it is active.
    pub open spec fn master_state_links(m: Self, id: u32, active: bool) -> Seq<Link> {
        if m.real_masters().contains_key(id) && m.masters().contains_key(m.real_masters()[id]) {
            let key = m.real_masters()[id];
            let l = m.masters()[key];
            if active {
                m.links().update(l as int, Link { active: true, ..m.links()[l as int] })
            } else if m.other_active(key, id) {
                m.links()
            } else {
                m.links().update(l as int, Link { active: false, ..m.links()[l as int] })
            }
        } else {
            m.links()
        }
    }

    /// The links of `m` once the master link of the real link `id` takes the media type
    /// `kind`.
    pub open spec fn master_format_links(m: Self, id: u32, kind: PortMediaType) -> Seq<Link> {
        if m.real_masters().contains_key(id) && m.masters().contains_key(m.real_masters()[id]) {
            let l = m.masters()[m.real_masters()[id]];
            m.links().update(l as int, Link { media_type: kind, ..m.links()[l as int] })
        } else {
            m.links()
        }
    }

    /// `b` agrees with `m` on everything but the links.
    pub open spec fn links_only(m: Self, b: Self) -> bool {
        &&& Self::drop_frame(m, b)
        &&& b.items() == m.items()
        &&& b.canvas() == m.canvas()
        &&& b.masters() == m.masters()
        &&& b.real_masters() == m.real_masters()
        &&& b.deletions() == m.deletions()
    }

    /// `b` is `m` with the links `links`, where the link kept under `id`, if any, is
    /// then changed by `set_state` (to `active`) or else to the media type `kind`.
    pub open spec fn link_set(m: Self, b: Self, id: u32, links: Seq<Link>, set_state: bool, active: bool, kind: PortMediaType) -> bool {
        &&& Self::links_only(m, b)
        &&& b.links() == (match m.items().get(id) {
            Some(Entry::Link(l)) => if set_state {
                links.update(l as int, Link { active, ..links[l as int] })
            } else {
                links.update(l as int, Link { media_type: kind, ..links[l as int] })
            },
            _ => links,
        })
    }

    /// What PipeWire's news that the link `id` is now `active` or not does to `a`,
    /// giving `b`: the nodes that draw it inside follow; unless it is drawn only
    /// inside groups, its master link follows, and so does the link kept under `id`.
    pub open spec fn link_state_step(a: Self, b: Self, id: u32, active: bool) -> bool {
        exists|m: Self| {
            &&& #[trigger] Self::internal_changed(a, m, a.internal_list(id), id, InternalChange::State(active), false)
            &&& m.wf()
            &&& if a.internal_nodes().contains_key(id) && !a.real_masters().contains_key(id) {
                Self::links_only(m, b) && b.links() == m.links()
            } else {
                Self::link_set(m, b, id, Self::master_state_links(m, id, active), true, active, PortMediaType::Unknown)
            }
        }
    }

    /// What PipeWire's news that the link `id` now carries `media_type` does to `a`,
    /// giving `b`, as `link_state_step` does for the state.
    pub open spec fn link_format_step(a: Self, b: Self, id: u32, media_type: MediaType) -> bool {
        let kind = crate::ids::port_media_type_of(media_type);
        exists|m: Self| {
            &&& #[trigger] Self::internal_changed(a, m, a.internal_list(id), id, InternalChange::Format(media_type), false)
            &&& m.wf()
            &&& if a.internal_nodes().contains_key(id) && !a.real_masters().contains_key(id) {
                Self::links_only(m, b) && b.links() == m.links()
            } else {
                Self::link_set(m, b, id, Self::master_format_links(m, id, kind), false, false, kind)
            }
        }
    }

    fn set_link_field(&mut self, l: usize, set_state: bool, active: bool, media_type: MediaType)
        requires
            old(self).wf(),
            l < old(self).links().len(),
        ensures
            final(self).wf(),
            final(self).links() == old(self).links().update(l as int, if set_state {
                Link { active, ..old(self).links()[l as int] }
            } else {
                Link { media_type: crate::ids::port_media_type_of(media_type), ..old(self).links()[l as int] }
            }),
            Self::same_shape(old(self), final(self)),
            Self::drop_frame(*old(self), *final(self)),
            final(self).masters() == old(self).masters(),
            final(self).real_masters() == old(self).real_masters(),
            final(self).deletions() == old(self).deletions(),
    {
        let ghost a = *self;
        if set_state {
            self.links[l].active = active;
        } else {
            self.links[l].media_type = PortMediaType::from(media_type);
        }
        proof {
            Self::lemma_same_shape(&a, self);
        }
    }

    /// PipeWire's news that the link `id` is now `active` or not.
    pub fn link_state_changed(&mut self, id: LinkId, active: bool)
        requires
            old(self).wf(),
        ensures
            final(self).wf(),
            Self::link_state_step(*old(self), *final(self), id.0, active),
    {
        self.link_changed(id.0, true, active, MediaType::Unknown);
    }

    /// PipeWire's news that the link `id` now carries `media_type`.
    pub fn link_format_changed(&mut self, id: LinkId, media_type: MediaType)
        requires
            old(self).wf(),
        ensures
            final(self).wf(),
            Self::link_format_step(*old(self), *final(self), id.0, media_type),
    {
        self.link_changed(id.0, false, false, media_type);
    }

    fn link_changed(&mut self, id: u32, set_state: bool, active: bool, media_type: MediaType)
        requires
            old(self).wf(),
        ensures
            final(self).wf(),
            set_state ==> Self::link_state_step(*old(self), *final(self), id, active),
            !set_state ==> Self::link_format_step(*old(self), *final(self), id, media_type),
    {
        let ghost a = *self;
        let ghost kind = crate::ids::port_media_type_of(media_type);
        let internal = self.link_to_internal_node.contains_key(&id);
        let change = if set_state {
            InternalChange::State(active)
        } else {
            InternalChange::Format(media_type)
        };
        self.change_internal(id, change, false);
        let ghost m = *self;
        if internal && !self.real_to_master.contains_key(&id) {
            proof {
                assert(Self::links_only(m, *self));
            }
            return;
        }
        if let Some(key) = self.real_to_master.get(&id) {
            let key = *key;
            if let Some(l) = self.master_links.get(&key) {
                let l = *l;
                assert(m.master_links@.contains_key(key));
                if set_state {
                    if active {
                        self.set_link_field(l, true, true, media_type);
                    } else if !self.other_active_exec(key, id) {
                        self.set_link_field(l, true, false, media_type);
                    }
                } else {
                    self.set_link_field(l, false, false, media_type);
                }
            }
        }
        let ghost s1 = *self;
        proof {
            if set_state {
                assert(s1.links() == Self::master_state_links(m, id, active));
            } else {
                assert(s1.links() == Self::master_format_links(m, id, kind));
            }
        }
        if let Some(Entry::Link(l2)) = self.items.get(&id) {
            let l2 = *l2;
            assert(s1.entry_ok(id, s1.items@[id]));
            self.set_link_field(l2, set_state, active, media_type);
        }
        proof {
            if set_state {
                assert(Self::link_set(m, *self, id, Self::master_state_links(m, id, active), true, active, kind));
                assert(Self::link_set(m, *self, id, Self::master_state_links(m, id, active), true, active, PortMediaType::Unknown));
            } else {
                assert(Self::link_set(m, *self, id, Self::master_format_links(m, id, kind), false, false, kind));
            }
        }
    }

    /// The link `l` of `links` joins the ports `p1` and `p2`, in either direction.
    pub open spec fn connects(links: Seq<Link>, l: usize, p1: usize, p2: usize) -> bool {
        Self::joins(links, l, p1, p2) || Self::joins(links, l, p2, p1)
    }

    /// The drawn edge `e` of `c` carries a link of `links` joining `p1` and `p2`, and no
    /// edge of a smaller index does.
    pub open spec fn first_connecting(links: Seq<Link>, c: Canvas, p1: usize, p2: usize, e: u32) -> bool {
        &&& c.edges().contains_key(e)
        &&& Self::connects(links, c.edges()[e].2, p1, p2)
        &&& forall|e2: u32| #[trigger] c.edges().contains_key(e2) && e2 < e ==> !Self::connects(links, c.edges()[e2].2, p1, p2)
    }

    /// The request that asks PipeWire to toggle the link between `from` and `to`.
    pub open spec fn toggle_request(from: u32, to: u32) -> Seq<GtkMessage> {
        seq![GtkMessage::ToggleLink { port_from: PortId(from), port_to: PortId(to) }]
    }

    /// What the user's request to toggle the link between the ports under `from` and
    /// `to` does to `a`, giving `b` and the requests `r`. When both are known ports and
    /// a drawn link joins them: a ghost link (offline) just leaves the canvas; an
    /// online one is marked as a deletion the user asked for. Otherwise, and in that
    /// second case, PipeWire is asked to toggle the link.
    pub open spec fn toggle_step(a: Self, b: Self, from: u32, to: u32, r: Seq<GtkMessage>) -> bool {
        &&& Self::drop_frame(a, b)
        &&& b.links() == a.links()
        &&& b.items() == a.items()
        &&& b.masters() == a.masters()
        &&& b.real_masters() == a.real_masters()
        &&& match (a.items().get(from), a.items().get(to)) {
            (Some(Entry::Port(p1)), Some(Entry::Port(p2))) => if exists|e: u32| #[trigger] Self::first_connecting(a.links(), a.canvas(), p1, p2, e) {
                let e = choose|e: u32| #[trigger] Self::first_connecting(a.links(), a.canvas(), p1, p2, e);
                let l = a.canvas().edges()[e].2;
                if !a.links()[l as int].online {
                    &&& Canvas::link_removed(a.canvas(), b.canvas(), l)
                    &&& b.deletions() == a.deletions()
                    &&& r.len() == 0
                } else {
                    &&& b.canvas() == a.canvas()
                    &&& b.deletions() == a.deletions().insert(deletion_key(from, to))
                    &&& r == Self::toggle_request(from, to)
                }
            } else {
                &&& b.canvas() == a.canvas()
                &&& b.deletions() == a.deletions()
                &&& r == Self::toggle_request(from, to)
            },
            _ => {
                &&& b.canvas() == a.canvas()
                &&& b.deletions() == a.deletions()
                &&& r == Self::toggle_request(from, to)
            },
        }
    }

    #[verifier::spinoff_prover]
    fn find_first_connecting(&self, p1: usize, p2: usize) -> (r: Option<(u32, usize)>)
        requires
            self.wf(),
        ensures
            r matches Some((e, l)) ==> Self::first_connecting(self.links(), self.canvas(), p1, p2, e) && l == self.canvas().edges()[e].2,
            r is None ==> forall|e: u32| #[trigger] self.canvas().edges().contains_key(e) ==> !Self::connects(self.links(), self.canvas().edges()[e].2, p1, p2),
    {
        let edges = self.canvas.edge_list();
        let mut k: usize = 0;
        while k < edges.len()
            invariant
                self.wf(),
                k <= edges@.len(),
                forall|i: int, j: int| 0 <= i < j < edges@.len() ==> edges@[i].0 < edges@[j].0,
                forall|i: int| 0 <= i < edges@.len() ==> #[trigger] self.canvas.edges().contains_key(edges@[i].0)
                    && self.canvas.edges()[edges@[i].0] == (edges@[i].1, edges@[i].2, edges@[i].3),
                forall|e: u32| #[trigger] self.canvas.edges().contains_key(e) ==> exists|i: int| 0 <= i < edges@.len() && edges@[i].0 == e,
                forall|i: int| 0 <= i < k ==> !Self::connects(self.links(), #[trigger] edges@[i].3, p1, p2),
            decreases edges.len() - k,
        {
            let l = edges[k].3;
            assert(self.canvas.edges().contains_key(edges@[k as int].0));
            if l < self.links.len() && ((self.links[l].output_port == Some(p1) && self.links[l].input_port == Some(p2))
                || (self.links[l].output_port == Some(p2) && self.links[l].input_port == Some(p1))) {
                let e = edges[k].0;
                proof {
                    assert forall|e2: u32| #[trigger] self.canvas().edges().contains_key(e2) && e2 < e implies !Self::connects(self.links(), self.canvas().edges()[e2].2, p1, p2) by {
                        let i = choose|i: int| 0 <= i < edges@.len() && edges@[i].0 == e2;
                        assert(self.canvas.edges().contains_key(edges@[i].0));
                        if i > k {
                            assert(edges@[k as int].0 < edges@[i].0);
                        }
                    }
                }
                return Some((e, l));
            }
            k = k + 1;
        }
        proof {
            assert forall|e: u32| #[trigger] self.canvas().edges().contains_key(e) implies !Self::connects(self.links(), self.canvas().edges()[e].2, p1, p2) by {
                let i = choose|i: int| 0 <= i < edges@.len() && edges@[i].0 == e;
                assert(self.canvas.edges().contains_key(edges@[i].0));
                assert(!Self::connects(self.links(), edges@[i].3, p1, p2));
            }
        }
        None
    }

    /// Toggle the link between the ports under `from` and `to` (see `toggle_step`).
    pub fn toggle_link_internal(&mut self, from: PortId, to: PortId) -> (r: Vec<GtkMessage>)
        requires
            old(self).wf(),
        ensures
            final(self).wf(),
            Self::toggle_step(*old(self), *final(self), from.0, to.0, r@),
    {
        let ghost a = *self;
        let mut r: Vec<GtkMessage> = Vec::new();
        let request = GtkMessage::ToggleLink { port_from: from, port_to: to };
        if let (Some(Entry::Port(p1)), Some(Entry::Port(p2))) = (self.items.get(&from.0), self.items.get(&to.0)) {
            let p1 = *p1;
            let p2 = *p2;
            if let Some((e, l)) = self.find_first_connecting(p1, p2) {
                proof {
                    let w = choose|w: u32| #[trigger] Self::first_connecting(a.links(), a.canvas(), p1, p2, w);
                    if w < e {
                        assert(a.canvas().edges().contains_key(w));
                    } else if e < w {
                        assert(a.canvas().edges().contains_key(e));
                    }
                    assert(a.canvas().edges().contains_key(e));
                }
                if !self.links[l].online {
                    self.canvas.remove_link(l);
                    proof {
                        Self::lemma_arena_same(&a, self);
                        assert forall|i: u32| #[trigger] self.items@.contains_key(i) implies self.entry_ok(i, self.items@[i]) by {
                            assert(a.entry_ok(i, a.items@[i]));
                        }
                        assert forall|i: u32| #[trigger] self.canvas.nodes().contains_key(i) implies self.canvas.nodes()[i] < self.nodes@.len()
                            && self.canvas.node_index().contains_key(self.canvas.nodes()[i]) by {
                            assert(a.canvas.nodes().contains_key(i));
                        }
                        assert forall|e2: u32| #[trigger] self.canvas.edges().contains_key(e2) implies self.canvas.edges()[e2].2 < self.links@.len() by {
                            assert(a.canvas.edges().contains_key(e2));
                        }
                    }
                    return r;
                } else {
                    let key = make_deletion_key(from.0, to.0);
                    self.pending_deletions.insert(key);
                    proof {
                        Self::lemma_same_shape(&a, self);
                    }
                }
            }
        }
        r.push(request);
        proof {
            assert(r@ =~= Self::toggle_request(from.0, to.0));
        }
        r
    }

    /// The node `n` is kept under some id, is not detached, and has the master port `m`
    /// of id `proxy`.
    pub open spec fn proxy_master(&self, n: usize, m: usize, proxy: u32) -> bool {
        &&& exists|id: u32| #[trigger] self.items().get(id) == Some(Entry::Node(n))
        &&& n < self.nodes().len()
        &&& !self.nodes()[n as int].is_detached
        &&& self.nodes()[n as int].master_ports@.contains(m)
        &&& m < self.ports().len()
        &&& self.ports()[m as int].pipewire_id == proxy
    }

    /// The ports of node `n` that share the name and direction of its master port `m`.
    pub open spec fn stream_ports(&self, n: usize, m: usize) -> Set<usize> {
        self.nodes()[n as int].ports@.filter(|p: usize| p < self.ports().len()
            && self.ports()[p as int].name@ == self.ports()[m as int].name@
            && self.ports()[p as int].direction == self.ports()[m as int].direction)
    }

    /// The states `states` and requests `rs` are those of the toggles run over the
    /// ports `hs`, in order, each between the port and `other`, the port at the `from`
    /// end when `port_is_from`.
    pub open spec fn toggle_chain(states: Seq<Self>, hs: Seq<usize>, other: u32, port_is_from: bool, rs: Seq<Seq<GtkMessage>>) -> bool {
        &&& states.len() == hs.len() + 1
        &&& rs.len() == hs.len()
        &&& forall|i: int| 0 <= i < hs.len() ==> #[trigger] Self::toggle_link_of(states, hs, other, port_is_from, rs, i)
    }

    /// Step `i` of a chain of toggles.
    pub open spec fn toggle_link_of(states: Seq<Self>, hs: Seq<usize>, other: u32, port_is_from: bool, rs: Seq<Seq<GtkMessage>>, i: int) -> bool {
        let pid = states[i].ports()[hs[i] as int].pipewire_id;
        &&& states[i].wf()
        &&& if port_is_from {
            Self::toggle_step(states[i], states[i + 1], pid, other, rs[i])
        } else {
            Self::toggle_step(states[i], states[i + 1], other, pid, rs[i])
        }
    }

    /// A chain of toggles changes neither the nodes nor the ports.
    pub proof fn lemma_toggle_chain_frame(states: Seq<Self>, hs: Seq<usize>, other: u32, port_is_from: bool, rs: Seq<Seq<GtkMessage>>, k: int)
        requires
            Self::toggle_chain(states, hs, other, port_is_from, rs),
            0 <= k <= hs.len(),
        ensures
            states[k].nodes() == states[0].nodes(),
            states[k].ports() == states[0].ports(),
            states[k].items() == states[0].items(),
        decreases k,
    {
        if k > 0 {
            Self::lemma_toggle_chain_frame(states, hs, other, port_is_from, rs, k - 1);
            assert(Self::toggle_link_of(states, hs, other, port_is_from, rs, k - 1));
        }
    }

    /// What the user's request to toggle the link between the ports `from` and `to`
    /// does to `a`, giving `b` and the requests `r`. When one end is a master port (an
    /// id at or above `0xF000_0000`, the `from` end first), the toggle is made between
    /// the other end and each port of the group that shares the master port's name and
    /// direction, on the first group found that is not detached and has that master
    /// port; nothing happens when there is none. Otherwise it is `toggle_step`.
    pub open spec fn toggle_link_step(a: Self, b: Self, from: u32, to: u32, r: Seq<GtkMessage>) -> bool {
        if is_proxy_id(from) || is_proxy_id(to) {
            if is_proxy_id(from) {
                Self::proxy_toggle(a, b, from, to, true, r)
            } else {
                Self::proxy_toggle(a, b, to, from, false, r)
            }
        } else {
            Self::toggle_step(a, b, from, to, r)
        }
    }

    /// The toggles that a request on the master port `proxy` and the port `other` makes
    /// (see `toggle_link_step`).
    pub open spec fn proxy_toggle(a: Self, b: Self, proxy: u32, other: u32, port_is_from: bool, r: Seq<GtkMessage>) -> bool {
        if exists|n: usize, m: usize| #[trigger] a.proxy_master(n, m, proxy) {
            exists|n: usize, m: usize, hs: Seq<usize>, states: Seq<Self>, rs: Seq<Seq<GtkMessage>>|
                #![trigger a.proxy_master(n, m, proxy), Self::toggle_chain(states, hs, other, port_is_from, rs)]
                {
                &&& a.proxy_master(n, m, proxy)
                &&& hs.to_set() == a.stream_ports(n, m)
                &&& hs.no_duplicates()
                &&& Self::toggle_chain(states, hs, other, port_is_from, rs)
                &&& states[0] == a
                &&& states.last() == b
                &&& r == rs.flatten()
            }
        } else {
            b == a && r.len() == 0
        }
    }

    /// The entry under `id` is a node for which `proxy_master` holds with some master
    /// port.
    pub open spec fn id_gives_proxy(&self, id: u32, proxy: u32) -> bool {
        match self.items().get(id) {
            Some(Entry::Node(n)) => exists|m: usize| #[trigger] self.proxy_master(n, m, proxy),
            _ => false,
        }
    }

    /// A node kept under some id, not detached, with a master port of id `proxy`, and
    /// that master port.
    fn find_proxy_master(&self, proxy: u32) -> (r: Option<(usize, usize)>)
        requires
            self.wf(),
        ensures
            r matches Some((n, m)) ==> self.proxy_master(n, m, proxy),
            r is None ==> forall|n: usize, m: usize| !#[trigger] self.proxy_master(n, m, proxy),
    {
        let ids = keys_u32(&self.items);
        let mut i: usize = 0;
        while i < ids.len()
            invariant
                self.wf(),
                ids@.to_set() == self.items@.dom(),
                i <= ids@.len(),
                forall|j: int| 0 <= j < i ==> !self.id_gives_proxy(#[trigger] ids@[j], proxy),
            decreases ids.len() - i,
        {
            let id = ids[i];
            assert(ids@.to_set().contains(id));
            if let Some(Entry::Node(n)) = self.items.get(&id) {
                let n = *n;
                assert(self.entry_ok(id, self.items@[id]));
                if !self.nodes[n].is_detached {
                    let masters = self.nodes[n].master_ports();
                    assert(self.node_ok(n as int));
                    let mut k: usize = 0;
                    while k < masters.len()
                        invariant
                            self.wf(),
                            n < self.nodes@.len(),
                            self.node_ok(n as int),
                            self.items@.get(id) == Some(Entry::Node(n)),
                            !self.nodes@[n as int].is_detached,
                            masters@.to_set() == self.nodes@[n as int].master_ports@,
                            k <= masters@.len(),
                            forall|j: int| 0 <= j < k ==> self.ports@[#[trigger] masters@[j] as int].pipewire_id != proxy,
                        decreases masters.len() - k,
                    {
                        let m = masters[k];
                        assert(masters@.to_set().contains(m));
                        if self.ports[m].pipewire_id == proxy {
                            assert(self.items().get(id) == Some(Entry::Node(n)));
                            return Some((n, m));
                        }
                        k = k + 1;
                    }
                    proof {
                        assert forall|m: usize| !#[trigger] self.proxy_master(n, m, proxy) by {
                            if self.nodes@[n as int].master_ports@.contains(m) {
                                assert(masters@.to_set().contains(m));
                                let j = choose|j: int| 0 <= j < masters@.len() && masters@[j] == m;
                            }
                        }
                    }
                }
            }
            assert(!self.id_gives_proxy(id, proxy));
            i = i + 1;
        }
        proof {
            assert forall|n: usize, m: usize| !#[trigger] self.proxy_master(n, m, proxy) by {
                if self.proxy_master(n, m, proxy) {
                    let id = choose|id: u32| #[trigger] self.items().get(id) == Some(Entry::Node(n));
                    assert(ids@.to_set().contains(id));
                    let j = choose|j: int| 0 <= j < ids@.len() && ids@[j] == id;
                    assert(self.id_gives_proxy(ids@[j], proxy));
                }
            }
        }
        None
    }

    /// The user asked to toggle the link between the ports `from` and `to`.
    #[verifier::spinoff_prover]
    pub fn toggle_link(&mut self, from: PortId, to: PortId) -> (r: Vec<GtkMessage>)
        requires
            old(self).wf(),
        ensures
            final(self).wf(),
            Self::toggle_link_step(*old(self), *final(self), from.0, to.0, r@),
    {
        let ghost a = *self;
        let from_proxy = from.0 >= 0xF000_0000;
        let to_proxy = to.0 >= 0xF000_0000;
        if !from_proxy && !to_proxy {
            return self.toggle_link_internal(from, to);
        }
        let proxy = if from_proxy { from.0 } else { to.0 };
        let other = if from_proxy { to.0 } else { from.0 };
        let (n, m) = match self.find_proxy_master(proxy) {
            Some(found) => found,
            None => {
                assert(Self::proxy_toggle(a, *self, proxy, other, from_proxy, Seq::<GtkMessage>::empty()));
                return Vec::new();
            },
        };
        let hs = self.nodes[n].ports();
        let name = self.ports[m].name.clone();
        let direction = self.ports[m].direction;
        let mut out: Vec<GtkMessage> = Vec::new();
        let mut chosen: Vec<usize> = Vec::new();
        let mut i: usize = 0;
        let ghost mut states: Seq<Self> = seq![a];
        let ghost mut rs: Seq<Seq<GtkMessage>> = Seq::empty();
        assert(a.node_ok(n as int));
        while i < hs.len()
            invariant
                self.wf(),
                a.wf(),
                a.node_ok(n as int),
                a.proxy_master(n, m, proxy),
                name@ == a.ports()[m as int].name@,
                direction == a.ports()[m as int].direction,
                hs@.to_set() == a.nodes@[n as int].ports@,
                hs@.no_duplicates(),
                self.nodes@ == a.nodes@,
                self.ports@ == a.ports@,
                i <= hs@.len(),
                chosen@.no_duplicates(),
                forall|x: usize| #[trigger] chosen@.contains(x) == (hs@.take(i as int).contains(x) && a.stream_ports(n, m).contains(x)),
                Self::toggle_chain(states, chosen@, other, from_proxy, rs),
                states[0] == a,
                states.last() == *self,
                out@ == rs.flatten(),
            decreases hs.len() - i,
        {
            let p = hs[i];
            assert(hs@.to_set().contains(p));
            assert(hs@.take(i as int + 1) =~= hs@.take(i as int).push(p));
            let ghost chosen_before = chosen@;
            assert(!hs@.take(i as int).contains(p)) by {
                if hs@.take(i as int).contains(p) {
                    let j = choose|j: int| 0 <= j < i && hs@.take(i as int)[j] == p;
                    assert(hs@[j] == hs@[i as int]);
                }
            }
            assert(p < a.ports@.len());
            if self.ports[p].name == name && self.ports[p].direction == direction {
                assert(a.stream_ports(n, m).contains(p));
                let pid = self.ports[p].pipewire_id;
                let ghost mid = *self;
                let mut more = if from_proxy {
                    self.toggle_link_internal(PortId(pid), PortId(other))
                } else {
                    self.toggle_link_internal(PortId(other), PortId(pid))
                };
                let ghost r2 = more@;
                out.append(&mut more);
                let ghost old_chosen = chosen@;
                chosen.push(p);
                proof {
                    assert(!hs@.take(i as int).contains(p)) by {
                        if hs@.take(i as int).contains(p) {
                            let j = choose|j: int| 0 <= j < i && hs@.take(i as int)[j] == p;
                            assert(hs@[j] == hs@[i as int]);
                        }
                    }
                    let old_states = states;
                    let old_rs = rs;
                    states = states.push(*self);
                    rs = rs.push(r2);
                    rs.drop_last().lemma_flatten_push(r2);
                    assert(rs.drop_last() =~= old_rs);
                    assert forall|k: int| 0 <= k < chosen@.len() implies #[trigger] Self::toggle_link_of(states, chosen@, other, from_proxy, rs, k) by {
                        if k < old_chosen.len() {
                            assert(Self::toggle_link_of(old_states, old_chosen, other, from_proxy, old_rs, k));
                            assert(states[k] == old_states[k]);
                            assert(states[k + 1] == old_states[k + 1]);
                            assert(rs[k] == old_rs[k]);
                            assert(chosen@[k] == old_chosen[k]);
                        } else {
                            assert(states[k] == mid);
                            assert(states[k + 1] == *self);
                            assert(chosen@[k] == p);
                        }
                    }
                    assert(Self::toggle_chain(states, chosen@, other, from_proxy, rs));
                }
            }
            else {
                assert(!a.stream_ports(n, m).contains(p));
            }
            proof {
                assert(!chosen_before.contains(p));
                assert(hs@.take(i as int + 1)[i as int] == p);
                assert(hs@.take(i as int + 1).contains(p));
                if a.stream_ports(n, m).contains(p) {
                    assert(chosen@ == chosen_before.push(p));
                    assert(chosen@.no_duplicates());
                } else {
                    assert(chosen@ == chosen_before);
                }
                assert forall|x: usize| x != p implies #[trigger] hs@.take(i as int + 1).contains(x) == hs@.take(i as int).contains(x) by {
                    if hs@.take(i as int + 1).contains(x) {
                        let w = choose|w: int| 0 <= w < i + 1 && #[trigger] hs@.take(i as int + 1)[w] == x;
                        if w == i {
                            assert(hs@.take(i as int + 1)[w] == p);
                        } else {
                            assert(hs@.take(i as int)[w] == x);
                        }
                    }
                    if hs@.take(i as int).contains(x) {
                        let w = choose|w: int| 0 <= w < i && #[trigger] hs@.take(i as int)[w] == x;
                        assert(hs@.take(i as int + 1)[w] == x);
                    }
                }
                assert forall|x: usize| #[trigger] chosen@.contains(x) == (hs@.take(i as int + 1).contains(x) && a.stream_ports(n, m).contains(x)) by {
                    if x != p {
                        assert(hs@.take(i as int + 1).contains(x) == hs@.take(i as int).contains(x));
                        assert(chosen_before.contains(x) == (hs@.take(i as int).contains(x) && a.stream_ports(n, m).contains(x)));
                        if a.stream_ports(n, m).contains(p) {
                            assert(chosen@.contains(x) == chosen_before.contains(x)) by {
                                if chosen@.contains(x) {
                                    let w = choose|w: int| 0 <= w < chosen@.len() && chosen@[w] == x;
                                    assert(chosen_before[w] == x);
                                }
                                if chosen_before.contains(x) {
                                    let w = choose|w: int| 0 <= w < chosen_before.len() && chosen_before[w] == x;
                                    assert(chosen@[w] == x);
                                }
                            }
                        }
                    } else if a.stream_ports(n, m).contains(p) {
                        assert(chosen@[chosen@.len() - 1] == p);
                    }
                }
                Self::lemma_toggle_chain_frame(states, chosen@, other, from_proxy, rs, chosen@.len() as int);
                assert(states.last() == states[chosen@.len() as int]);
            }
            i = i + 1;
        }
        proof {
            assert(hs@.take(hs@.len() as int) =~= hs@);
            assert(chosen@.to_set() =~= a.stream_ports(n, m));
            assert(a.proxy_master(n, m, proxy));
            let hs2 = chosen@;
            assert(exists|n2: usize, m2: usize, h2: Seq<usize>, st2: Seq<Self>, r2: Seq<Seq<GtkMessage>>|
                #![trigger a.proxy_master(n2, m2, proxy), Self::toggle_chain(st2, h2, other, from_proxy, r2)]
                {
                &&& a.proxy_master(n2, m2, proxy)
                &&& h2.to_set() == a.stream_ports(n2, m2)
                &&& h2.no_duplicates()
                &&& Self::toggle_chain(st2, h2, other, from_proxy, r2)
                &&& st2[0] == a
                &&& st2.last() == *self
                &&& out@ == r2.flatten()
            });
            assert(is_proxy_id(from.0) || is_proxy_id(to.0));
            assert(proxy == (if is_proxy_id(from.0) { from.0 } else { to.0 }));
            assert(other == (if is_proxy_id(from.0) { to.0 } else { from.0 }));
            assert(from_proxy == is_proxy_id(from.0));
            assert(exists|n2: usize, m2: usize| #[trigger] a.proxy_master(n2, m2, proxy));
            assert(Self::proxy_toggle(a, *self, proxy, other, from_proxy, out@));
        }
        out
    }

    /// The connection that the link `l` stands for, when it is one to save: both its
    /// ends are alive, neither end's node id is detached, and both node ids are kept as
    /// nodes; it names the applications of those nodes and the two ports.
    pub open spec fn preset_of(&self, l: usize) -> Option<(Seq<char>, Seq<char>, Seq<char>, Seq<char>)> {
        match (self.live(self.links()[l as int].output_port), self.live(self.links()[l as int].input_port)) {
            (Some(sp), Some(kp)) => {
                let sn = self.ports()[sp as int].node_id;
                let kn = self.ports()[kp as int].node_id;
                if self.detached().contains(sn) || self.detached().contains(kn) {
                    None
                } else {
                    match (self.items().get(sn), self.items().get(kn)) {
                        (Some(Entry::Node(x)), Some(Entry::Node(y))) => Some((
                            self.nodes()[x as int].app_name@,
                            self.ports()[sp as int].name@,
                            self.nodes()[y as int].app_name@,
                            self.ports()[kp as int].name@,
                        )),
                        _ => None,
                    }
                }
            },
            _ => None,
        }
    }

    /// The entry under `id` is a link to save.
    pub open spec fn saved_by(&self, id: u32) -> bool {
        self.items().get(id) matches Some(Entry::Link(l)) && self.preset_of(l) is Some
    }

    /// The connection saved for the entry under `id`.
    pub open spec fn saved_conn(&self, id: u32) -> (Seq<char>, Seq<char>, Seq<char>, Seq<char>) {
        self.preset_of(self.items()[id]->Link_0).unwrap()
    }

    /// The connection that the link `l` stands for, if it is one to save.
    fn preset_of_exec(&self, l: usize) -> (r: Option<ConnectionPreset>)
        requires
            self.wf(),
            l < self.links().len(),
        ensures
            r is Some == self.preset_of(l) is Some,
            r matches Some(c) ==> conn_view(c) == self.preset_of(l).unwrap(),
    {
        assert(self.link_ok(l as int));
        let sp = match self.live_port(self.links[l].output_port) {
            Some(p) => p,
            None => return None,
        };
        let kp = match self.live_port(self.links[l].input_port) {
            Some(p) => p,
            None => return None,
        };
        let sn = self.ports[sp].node_id;
        let kn = self.ports[kp].node_id;
        if self.detached_ids.contains(&sn) || self.detached_ids.contains(&kn) {
            return None;
        }
        let x = match self.items.get(&sn) {
            Some(Entry::Node(x)) => *x,
            _ => return None,
        };
        let y = match self.items.get(&kn) {
            Some(Entry::Node(y)) => *y,
            _ => return None,
        };
        assert(self.entry_ok(sn, self.items@[sn]));
        assert(self.entry_ok(kn, self.items@[kn]));
        Some(ConnectionPreset {
            source_app: self.nodes[x].app_name.clone(),
            source_port: self.ports[sp].name.clone(),
            sink_app: self.nodes[y].app_name.clone(),
            sink_port: self.ports[kp].name.clone(),
        })
    }

    /// The preset of the links the graph keeps: one connection for each entry that is
    /// a link to save, in the order of `ids`, which lists those entries once each.
    pub fn save_preset(&self) -> (r: Preset)
        requires
            self.wf(),
        ensures
            exists|ids: Seq<u32>| {
                &&& ids.no_duplicates()
                &&& #[trigger] ids.to_set() == self.items().dom().filter(|id: u32| self.saved_by(id))
                &&& r.connections@.len() == ids.len()
                &&& forall|i: int| 0 <= i < ids.len() ==> conn_view(#[trigger] r.connections@[i]) == self.saved_conn(ids[i])
            },
    {
        let all = keys_u32(&self.items);
        let mut connections: Vec<ConnectionPreset> = Vec::new();
        let ghost mut ids: Seq<u32> = Seq::empty();
        let mut i: usize = 0;
        while i < all.len()
            invariant
                self.wf(),
                all@.to_set() == self.items@.dom(),
                all@.no_duplicates(),
                i <= all@.len(),
                ids.no_duplicates(),
                forall|id: u32| #[trigger] ids.contains(id) == (all@.take(i as int).contains(id) && self.saved_by(id)),
                connections@.len() == ids.len(),
                forall|k: int| 0 <= k < ids.len() ==> conn_view(#[trigger] connections@[k]) == self.saved_conn(ids[k]),
            decreases all.len() - i,
        {
            let id = all[i];
            assert(all@.to_set().contains(id));
            let ghost ids_before = ids;
            let ghost conns_before = connections@;
            assert(!all@.take(i as int).contains(id)) by {
                if all@.take(i as int).contains(id) {
                    let j = choose|j: int| 0 <= j < i && all@.take(i as int)[j] == id;
                    assert(all@[j] == all@[i as int]);
                }
            }
            assert(all@.take(i as int + 1) =~= all@.take(i as int).push(id));
            if let Some(Entry::Link(l)) = self.items.get(&id) {
                let l = *l;
                assert(self.entry_ok(id, self.items@[id]));
                if let Some(c) = self.preset_of_exec(l) {
                    connections.push(c);
                    proof {
                        ids = ids.push(id);
                        assert forall|k: int| 0 <= k < ids.len() implies conn_view(#[trigger] connections@[k]) == self.saved_conn(ids[k]) by {
                            if k < ids_before.len() {
                                assert(connections@[k] == conns_before[k]);
                            }
                        }
                    }
                }
            }
            proof {
                assert(!ids_before.contains(id));
                assert(all@.take(i as int + 1)[i as int] == id);
                assert forall|x: u32| x != id implies #[trigger] all@.take(i as int + 1).contains(x) == all@.take(i as int).contains(x) by {
                    if all@.take(i as int + 1).contains(x) {
                        let w = choose|w: int| 0 <= w < i + 1 && #[trigger] all@.take(i as int + 1)[w] == x;
                        if w == i {
                            assert(all@.take(i as int + 1)[w] == id);
                        } else {
                            assert(all@.take(i as int)[w] == x);
                        }
                    }
                    if all@.take(i as int).contains(x) {
                        let w = choose|w: int| 0 <= w < i && #[trigger] all@.take(i as int)[w] == x;
                        assert(all@.take(i as int + 1)[w] == x);
                    }
                }
                assert forall|x: u32| #[trigger] ids.contains(x) == (all@.take(i as int + 1).contains(x) && self.saved_by(x)) by {
                    if x != id {
                        assert(all@.take(i as int + 1).contains(x) == all@.take(i as int).contains(x));
                        assert(ids_before.contains(x) == (all@.take(i as int).contains(x) && self.saved_by(x)));
                    }
                    if ids.contains(x) && x != id {
                        let w = choose|w: int| 0 <= w < ids.len() && ids[w] == x;
                        if w < ids_before.len() {
                            assert(ids_before[w] == x);
                        }
                    }
                    if ids_before.contains(x) {
                        let w = choose|w: int| 0 <= w < ids_before.len() && ids_before[w] == x;
                        assert(ids[w] == x);
                    }
                    if x == id && self.saved_by(id) {
                        assert(ids[ids.len() - 1] == id);
                    }
                }
            }
            i = i + 1;
        }
        proof {
            assert(all@.take(all@.len() as int) =~= all@);
            assert(ids.to_set() =~= self.items().dom().filter(|id: u32| self.saved_by(id)));
        }
        Preset { connections }
    }

    /// The waiting connections `p` once each connection of `cs` is added, in order, unless
    /// it is waiting already.
    pub open spec fn with_connections(p: Seq<(Seq<char>, Seq<char>, Seq<char>, Seq<char>)>,
        cs: Seq<(Seq<char>, Seq<char>, Seq<char>, Seq<char>)>) -> Seq<(Seq<char>, Seq<char>, Seq<char>, Seq<char>)>
        decreases cs.len(),
    {
        if cs.len() == 0 {
            p
        } else {
            let q = Self::with_connections(p, cs.drop_last());
            if q.contains(cs.last()) {
                q
            } else {
                q.push(cs.last())
            }
        }
    }

    /// What loading a preset with the connections `cs` does to `a`, giving `b` and the
    /// requests `r`: each connection joins the waiting ones unless it is there already;
    /// then the waiting connections whose ports are known are made.
    pub open spec fn load_step(a: Self, b: Self, cs: Seq<(Seq<char>, Seq<char>, Seq<char>, Seq<char>)>, r: Seq<GtkMessage>) -> bool {
        exists|m: Self| {
            &&& #[trigger] Self::pending_step(m, b, r)
            &&& m.wf()
            &&& m.pending_view() == Self::with_connections(a.pending_view(), cs)
            &&& m.nodes() == a.nodes()
            &&& m.ports() == a.ports()
            &&& m.links() == a.links()
            &&& m.items() == a.items()
            &&& m.canvas() == a.canvas()
            &&& m.groups() == a.groups()
            &&& m.offline() == a.offline()
            &&& m.masters() == a.masters()
            &&& m.real_masters() == a.real_masters()
            &&& m.internal_nodes() == a.internal_nodes()
            &&& m.deletions() == a.deletions()
            &&& m.detached() == a.detached()
            &&& m.matrix_pending() == a.matrix_pending()
        }
    }

    fn is_pending(&self, c: &ConnectionPreset) -> (r: bool)
        ensures
            r == self.pending_view().contains(conn_view(*c)),
    {
        let mut i: usize = 0;
        while i < self.pending_links.len()
            invariant
                i <= self.pending_links@.len(),
                forall|j: int| 0 <= j < i ==> conn_view(#[trigger] self.pending_links@[j]) != conn_view(*c),
            decreases self.pending_links.len() - i,
        {
            if self.pending_links[i].same_as(c) {
                assert(self.pending_view()[i as int] == conn_view(*c));
                return true;
            }
            i = i + 1;
        }
        proof {
            if self.pending_view().contains(conn_view(*c)) {
                let j = choose|j: int| 0 <= j < self.pending_view().len() && self.pending_view()[j] == conn_view(*c);
                assert(conn_view(self.pending_links@[j]) == conn_view(*c));
            }
        }
        false
    }

    /// Load a preset: wait for each of its connections, then make those whose ports are
    /// known.
    pub fn load_preset(&mut self, preset: Preset) -> (r: Vec<GtkMessage>)
        requires
            old(self).wf(),
        ensures
            final(self).wf(),
            Self::load_step(*old(self), *final(self), preset.connections@.map_values(|c: ConnectionPreset| conn_view(c)), r@),
    {
        let ghost a = *self;
        let ghost cs = preset.connections@.map_values(|c: ConnectionPreset| conn_view(c));
        let mut i: usize = 0;
        while i < preset.connections.len()
            invariant
                self.wf(),
                cs == preset.connections@.map_values(|c: ConnectionPreset| conn_view(c)),
                i <= preset.connections@.len(),
                a.wf(),
                self.pending_view() == Self::with_connections(a.pending_view(), cs.take(i as int)),
                *self == (GraphManager { pending_links: self.pending_links, ..a }),
            decreases preset.connections.len() - i,
        {
            let c = &preset.connections[i];
            let ghost before = *self;
            assert(cs.take(i as int + 1).drop_last() =~= cs.take(i as int));
            assert(cs.take(i as int + 1).last() == conn_view(*c));
            if !self.is_pending(c) {
                self.pending_links.push(c.duplicate());
                assert(self.pending_view() =~= before.pending_view().push(conn_view(*c)));
            }
            proof {
                Self::lemma_same_shape(&a, self);
            }
            i = i + 1;
        }
        proof {
            assert(cs.take(cs.len() as int) =~= cs);
        }
        let ghost m = *self;
        let r = self.check_pending_links();
        proof {
            assert(Self::pending_step(m, *self, r@));
        }
        r
    }

    /// `b` is `a` with a refresh of the matrix view waiting (`on`) or not.
    pub open spec fn matrix_set(a: Self, b: Self, on: bool) -> bool {
        &&& b.nodes() == a.nodes()
        &&& b.ports() == a.ports()
        &&& b.links() == a.links()
        &&& b.items() == a.items()
        &&& b.canvas() == a.canvas()
        &&& b.groups() == a.groups()
        &&& b.offline() == a.offline()
        &&& b.masters() == a.masters()
        &&& b.real_masters() == a.real_masters()
        &&& b.internal_nodes() == a.internal_nodes()
        &&& b.deletions() == a.deletions()
        &&& b.detached() == a.detached()
        &&& b.pending() == a.pending()
        &&& b.matrix_pending() == on
    }

    /// The message `msg` can be taken in: a new node or link finds room on the canvas,
    /// and a new link does not need a master link that is missing while one of its
    /// master ends is not a known port.
    pub open spec fn message_ok(&self, msg: PipewireMessage) -> bool {
        match msg {
            PipewireMessage::NodeAdded { .. } => self.has_room(),
            PipewireMessage::LinkAdded { port_from, port_to, .. } => self.has_room() && self.add_link_ok(port_from.0, port_to.0),
            _ => true,
        }
    }

    /// What taking in the message `msg` does to `a`, giving `b` and the reaction `r`,
    /// before the refresh of the matrix view is asked for.
    pub open spec fn handled(a: Self, b: Self, msg: PipewireMessage, r: Seq<GtkMessage>, check: Option<usize>, banner: Option<bool>) -> bool {
        match msg {
            PipewireMessage::NodeAdded { id, name, internal_name, app_name, node_type } =>
                Self::add_node_step(a, b, id, name@, internal_name@, app_name@, node_type, false, r) && check is None && banner is None,
            PipewireMessage::NodeNameChanged { id, name, media_name } =>
                Self::name_change_step(a, b, id, name@, media_name@) && b.canvas() == a.canvas() && b.groups() == a.groups()
                && b.offline() == a.offline() && b.items() == a.items() && b.masters() == a.masters() && r.len() == 0
                && check is None && banner is None,
            PipewireMessage::PortAdded { id, node_id, name, direction } => exists|ms: Seq<GtkMessage>, rs: Seq<GtkMessage>, ps: Seq<GtkMessage>| {
                &&& #[trigger] Self::add_port_step(a, b, id, name@, node_id, direction, ms, rs, ps)
                &&& r == ms + rs + ps
                &&& check is None
                &&& banner is None
            },
            PipewireMessage::PortFormatChanged { id, media_type } =>
                Self::port_format_step(a, b, id, media_type) && b.items() == a.items() && b.canvas() == a.canvas()
                && b.groups() == a.groups() && b.offline() == a.offline() && b.masters() == a.masters()
                && r.len() == 0 && check is None && banner is None,
            PipewireMessage::LinkAdded { id, port_from, port_to, active, media_type } =>
                Self::add_link_step(a, b, id.0, port_from.0, port_to.0, active, media_type) && r.len() == 0 && check is None && banner is None,
            PipewireMessage::LinkStateChanged { id, active } =>
                Self::link_state_step(a, b, id.0, active) && r.len() == 0 && check is None && banner is None,
            PipewireMessage::LinkFormatChanged { id, media_type } =>
                Self::link_format_step(a, b, id.0, media_type) && r.len() == 0 && check is None && banner is None,
            PipewireMessage::NodeRemoved { id } => Self::remove_node_step(a, b, id) && r.len() == 0 && check is None && banner is None,
            PipewireMessage::PortRemoved { id, .. } => Self::remove_port_step(a, b, id) && r.len() == 0 && check is None && banner is None,
            PipewireMessage::LinkRemoved { id } => Self::remove_link_step(a, b, id.0, check) && r.len() == 0 && banner is None,
            PipewireMessage::Connecting => b == a && r.len() == 0 && check is None && banner == Some(true),
            PipewireMessage::Connected => b == a && r.len() == 0 && check is None && banner == Some(false),
            PipewireMessage::Disconnected => Self::clear_step(a, b) && b.internal_nodes() == a.internal_nodes()
                && b.matrix_pending() == a.matrix_pending() && r.len() == 0 && check is None && banner is None,
        }
    }

    /// Take in a message of PipeWire: change the model as the message says, then ask
    /// for a refresh of the matrix view. The reaction lists the requests to send to
    /// PipeWire, the link to check a moment later, whether to show the banner that
    /// says the connection is being made, and whether a refresh must be scheduled.
    pub fn handle_message(&mut self, msg: PipewireMessage) -> (r: Reaction)
        requires
            old(self).wf(),
            old(self).message_ok(msg),
        ensures
            final(self).wf(),
            exists|mid: Self| {
                &&& #[trigger] Self::handled(*old(self), mid, msg, r.requests@, r.pending_check, r.banner)
                &&& mid.wf()
                &&& Self::matrix_set(mid, *final(self), true)
                &&& r.schedule_matrix_update == !mid.matrix_pending()
            },
    {
        let ghost a = *self;
        let mut requests: Vec<GtkMessage> = Vec::new();
        let mut pending_check: Option<usize> = None;
        let mut banner: Option<bool> = None;
        match msg {
            PipewireMessage::NodeAdded { id, name, internal_name, app_name, node_type } => {
                requests = self.add_node(id, name.as_str(), internal_name.as_str(), app_name.as_str(), node_type, false);
            },
            PipewireMessage::NodeNameChanged { id, name, media_name } => {
                self.node_name_changed(id, name.as_str(), media_name.as_str());
            },
            PipewireMessage::PortAdded { id, node_id, name, direction } => {
                let pr = self.add_port(id, name.as_str(), node_id, direction);
                let ghost ms = pr.master_links@;
                let ghost rs = pr.restored_links@;
                let ghost ps = pr.preset_links@;
                let PortRequests { master_links: mut m1, restored_links: mut m2, preset_links: mut m3 } = pr;
                requests.append(&mut m1);
                requests.append(&mut m2);
                requests.append(&mut m3);
                assert(requests@ == ms + rs + ps);
            },
            PipewireMessage::PortFormatChanged { id, media_type } => {
                self.port_media_type_changed(id, media_type);
            },
            PipewireMessage::LinkAdded { id, port_from, port_to, active, media_type } => {
                self.add_link(id, port_from, port_to, active, media_type);
            },
            PipewireMessage::LinkStateChanged { id, active } => {
                self.link_state_changed(id, active);
            },
            PipewireMessage::LinkFormatChanged { id, media_type } => {
                self.link_format_changed(id, media_type);
            },
            PipewireMessage::NodeRemoved { id } => {
                self.remove_node(id);
            },
            PipewireMessage::PortRemoved { id, node_id } => {
                self.remove_port(id, node_id);
            },
            PipewireMessage::LinkRemoved { id } => {
                pending_check = self.remove_link(id);
            },
            PipewireMessage::Connecting => {
                banner = Some(true);
            },
            PipewireMessage::Connected => {
                banner = Some(false);
            },
            PipewireMessage::Disconnected => {
                self.clear();
            },
        }
        let ghost mid = *self;
        proof {
            assert(Self::handled(a, mid, msg, requests@, pending_check, banner));
        }
        let schedule_matrix_update = !self.matrix_update_pending;
        self.matrix_update_pending = true;
        proof {
            Self::lemma_same_shape(&mid, self);
            assert(Self::matrix_set(mid, *self, true));
            assert(mid.wf());
        }
        let r = Reaction { requests, pending_check, banner, schedule_matrix_update };
        proof {
            assert(Self::handled(a, mid, msg, r.requests@, r.pending_check, r.banner));
            assert(exists|m: Self| {
                &&& #[trigger] Self::handled(a, m, msg, r.requests@, r.pending_check, r.banner)
                &&& m.wf()
                &&& Self::matrix_set(m, *self, true)
                &&& r.schedule_matrix_update == !m.matrix_pending()
            });
        }
        r
    }

    /// Whether `message_ok` holds for `msg`.
    pub fn can_handle(&self, msg: &PipewireMessage) -> (r: bool)
        requires
            self.wf(),
        ensures
            r == self.message_ok(*msg),
    {
        match msg {
            PipewireMessage::NodeAdded { .. } => self.check_room(),
            PipewireMessage::LinkAdded { port_from, port_to, .. } => self.check_room() && self.can_add_link(*port_from, *port_to),
            _ => true,
        }
    }

    /// The name of the node kept under the node id of the port `h`, or nothing.
    pub open spec fn port_node_name(&self, h: usize) -> Seq<char> {
        match self.items().get(self.ports()[h as int].node_id) {
            Some(Entry::Node(n)) => self.nodes()[n as int].node_name@,
            _ => Seq::<char>::empty(),
        }
    }

    /// The entry under `id` is a port going in the direction `dir`.
    pub open spec fn port_entry(&self, id: u32, dir: PortDirection) -> bool {
        self.items().get(id) matches Some(Entry::Port(h)) && self.ports()[h as int].direction == dir
    }

    /// `list` shows each port entry of direction `dir` once, with the name of its node
    /// and its own name, sorted by node name and then port name.
    pub open spec fn matrix_column(&self, dir: PortDirection, list: Seq<PortInfo>) -> bool {
        &&& ids_of(list).no_duplicates()
        &&& ids_of(list).to_set() == self.items().dom().filter(|id: u32| self.port_entry(id, dir))
        &&& forall|i: int| 0 <= i < list.len() ==> {
            let h = self.items()[list[i].pw_id.0]->Port_0;
            &&& (#[trigger] list[i]).node_name@ == self.port_node_name(h)
            &&& list[i].port_name@ == self.ports()[h as int].name@
        }
        &&& forall|i: int, j: int| 0 <= i < j < list.len() ==> !key_lt(
            (list[j].node_name@, list[j].port_name@), (list[i].node_name@, list[i].port_name@))
    }

    /// The pair of port ids that the master link under `key` joins, when both its ends
    /// are alive.
    pub open spec fn master_pair(&self, key: u64) -> Option<(PortId, PortId)> {
        let l = self.masters()[key];
        match (self.live(self.links()[l as int].output_port), self.live(self.links()[l as int].input_port)) {
            (Some(p), Some(q)) => Some((PortId(self.ports()[p as int].pipewire_id), PortId(self.ports()[q as int].pipewire_id))),
            _ => None,
        }
    }

    fn matrix_column_of(&self, dir: PortDirection) -> (r: Vec<PortInfo>)
        requires
            self.wf(),
        ensures
            self.matrix_column(dir, r@),
    {
        let ids = keys_u32(&self.items);
        let mut found: Vec<PortInfo> = Vec::new();
        let mut keys: Vec<(Vec<char>, Vec<char>)> = Vec::new();
        let mut i: usize = 0;
        while i < ids.len()
            invariant
                self.wf(),
                ids@.to_set() == self.items@.dom(),
                ids@.no_duplicates(),
                i <= ids@.len(),
                found@.len() == keys@.len(),
                ids_of(found@).no_duplicates(),
                forall|x: u32| #[trigger] ids_of(found@).contains(x)
                    == (ids@.take(i as int).contains(x) && self.port_entry(x, dir)),
                forall|k: int| 0 <= k < found@.len() ==> {
                    let h = self.items()[found@[k].pw_id.0]->Port_0;
                    &&& self.port_entry(found@[k].pw_id.0, dir)
                    &&& (#[trigger] found@[k]).node_name@ == self.port_node_name(h)
                    &&& found@[k].port_name@ == self.ports()[h as int].name@
                    &&& key_view(keys@[k]) == (found@[k].node_name@, found@[k].port_name@)
                },
            decreases ids.len() - i,
        {
            let id = ids[i];
            assert(ids@.to_set().contains(id));
            let ghost before = ids_of(found@);
            let ghost found_before = found@;
            assert(!ids@.take(i as int).contains(id)) by {
                if ids@.take(i as int).contains(id) {
                    let j = choose|j: int| 0 <= j < i && ids@.take(i as int)[j] == id;
                    assert(ids@[j] == ids@[i as int]);
                }
            }
            assert(ids@.take(i as int + 1)[i as int] == id);
            assert(!before.contains(id));
            if let Some(Entry::Port(h)) = self.items.get(&id) {
                let h = *h;
                assert(self.entry_ok(id, self.items@[id]));
                if self.ports[h].direction == dir {
                    let node_name = match self.items.get(&self.ports[h].node_id) {
                        Some(Entry::Node(n)) => {
                            assert(self.entry_ok(self.ports@[h as int].node_id, self.items@[self.ports@[h as int].node_id]));
                            self.nodes[*n].node_name.clone()
                        },
                        _ => String::new(),
                    };
                    let port_name = self.ports[h].name.clone();
                    keys.push((chars_of(node_name.as_str()), chars_of(port_name.as_str())));
                    found.push(PortInfo { pw_id: PortId(id), node_name, port_name });
                    proof {
                        assert(ids_of(found@) =~= before.push(id));
                        assert forall|k: int| 0 <= k < found@.len() implies {
                            let hh = self.items()[found@[k].pw_id.0]->Port_0;
                            &&& self.port_entry(found@[k].pw_id.0, dir)
                            &&& (#[trigger] found@[k]).node_name@ == self.port_node_name(hh)
                            &&& found@[k].port_name@ == self.ports()[hh as int].name@
                            &&& key_view(keys@[k]) == (found@[k].node_name@, found@[k].port_name@)
                        } by {
                            if k < found_before.len() {
                                assert(found@[k] == found_before[k]);
                            }
                        }
                    }
                }
            }
            proof {
                assert forall|x: u32| x != id implies #[trigger] ids@.take(i as int + 1).contains(x) == ids@.take(i as int).contains(x) by {
                    if ids@.take(i as int + 1).contains(x) {
                        let w = choose|w: int| 0 <= w < i + 1 && #[trigger] ids@.take(i as int + 1)[w] == x;
                        if w < i {
                            assert(ids@.take(i as int)[w] == x);
                        }
                    }
                    if ids@.take(i as int).contains(x) {
                        let w = choose|w: int| 0 <= w < i && #[trigger] ids@.take(i as int)[w] == x;
                        assert(ids@.take(i as int + 1)[w] == x);
                    }
                }
                let now = ids_of(found@);
                assert forall|x: u32| #[trigger] now.contains(x) == (ids@.take(i as int + 1).contains(x) && self.port_entry(x, dir)) by {
                    if x != id {
                        assert(before.contains(x) == (ids@.take(i as int).contains(x) && self.port_entry(x, dir)));
                        if now.contains(x) {
                            let w = choose|w: int| 0 <= w < now.len() && now[w] == x;
                            if now.len() > before.len() {
                                assert(w < before.len());
                            }
                            assert(before[w] == x);
                        }
                        if before.contains(x) {
                            let w = choose|w: int| 0 <= w < before.len() && before[w] == x;
                            assert(now[w] == x);
                        }
                    } else if self.port_entry(id, dir) {
                        assert(now[now.len() - 1] == id);
                    }
                }
            }
            i = i + 1;
        }
        assert(ids@.take(ids@.len() as int) =~= ids@);
        let perm = sort_by_names(&keys);
        let ghost kv = keys@.map_values(|k: (Vec<char>, Vec<char>)| key_view(k));
        let ghost all = found@;
        let mut out: Vec<PortInfo> = Vec::new();
        let mut k: usize = 0;
        while k < perm.len()
            invariant
                crate::layout::sorts(kv, perm@),
                kv == keys@.map_values(|k: (Vec<char>, Vec<char>)| key_view(k)),
                all == found@,
                found@.len() == keys@.len(),
                k <= perm@.len(),
                out@.len() == k,
                forall|x: int| 0 <= x < k ==> (#[trigger] out@[x]).pw_id == all[perm@[x] as int].pw_id
                    && out@[x].node_name@ == all[perm@[x] as int].node_name@
                    && out@[x].port_name@ == all[perm@[x] as int].port_name@,
            decreases perm.len() - k,
        {
            let src = &found[perm[k]];
            let info = PortInfo { pw_id: src.pw_id, node_name: src.node_name.clone(), port_name: src.port_name.clone() };
            out.push(info);
            k = k + 1;
        }
        proof {
            let ov = ids_of(out@);
            let av = ids_of(all);
            assert forall|x: int, y: int| 0 <= x < y < ov.len() implies ov[x] != ov[y] by {
                assert(perm@[x] < kv.len() && perm@[y] < kv.len() && perm@[x] != perm@[y]);
                assert(av[perm@[x] as int] != av[perm@[y] as int]);
            }
            assert forall|x: u32| #[trigger] ov.to_set().contains(x) == av.to_set().contains(x) by {
                if ov.to_set().contains(x) {
                    let w = choose|w: int| 0 <= w < ov.len() && ov[w] == x;
                    assert(perm@[w] < kv.len());
                    assert(av[perm@[w] as int] == x);
                }
                if av.to_set().contains(x) {
                    let w = choose|w: int| 0 <= w < av.len() && av[w] == x;
                    assert(perm@.contains(w as usize));
                    let y = choose|y: int| 0 <= y < perm@.len() && perm@[y] == w as usize;
                    assert(ov[y] == x);
                }
            }
            assert(ov.to_set() =~= av.to_set());
            assert(av.to_set() =~= self.items().dom().filter(|id: u32| self.port_entry(id, dir))) by {
                assert forall|x: u32| av.to_set().contains(x) == self.items().dom().filter(|id: u32| self.port_entry(id, dir)).contains(x) by {
                    assert(av.contains(x) == (ids@.contains(x) && self.port_entry(x, dir)));
                    if self.items().dom().contains(x) {
                        assert(ids@.to_set().contains(x));
                    }
                }
            }
            assert forall|i: int| 0 <= i < out@.len() implies {
                let h = self.items()[out@[i].pw_id.0]->Port_0;
                &&& (#[trigger] out@[i]).node_name@ == self.port_node_name(h)
                &&& out@[i].port_name@ == self.ports()[h as int].name@
            } by {
                assert(perm@[i] < kv.len());
            }
            assert forall|i: int, j: int| 0 <= i < j < out@.len() implies !key_lt(
                (out@[j].node_name@, out@[j].port_name@), (out@[i].node_name@, out@[i].port_name@)) by {
                assert(perm@[i] < kv.len() && perm@[j] < kv.len());
                assert(kv[perm@[j] as int] == key_view(keys@[perm@[j] as int]));
                assert(kv[perm@[i] as int] == key_view(keys@[perm@[i] as int]));
            }
        }
        out
    }

    /// The media type that colors the link `l`: its own, or when that is unknown the
    /// one of its output port, or else of its input port, while they are alive.
    pub open spec fn draw_media(&self, l: usize) -> MediaType {
        let link = self.links()[l as int];
        if media_type_of(link.media_type) != MediaType::Unknown {
            media_type_of(link.media_type)
        } else {
            match self.live(link.output_port) {
                Some(p) => media_type_of(self.ports()[p as int].media_type),
                None => match self.live(link.input_port) {
                    Some(p) => media_type_of(self.ports()[p as int].media_type),
                    None => MediaType::Unknown,
                },
            }
        }
    }

    /// How the link drawn under edge `e` is shown while the nodes `hl_nodes` and the
    /// edges `hl_edges` are highlighted: every link is highlighted when no node is.
    pub open spec fn draw_of(&self, e: u32, hl_nodes: Set<u32>, hl_edges: Set<u32>) -> LinkDraw {
        let l = self.edge_link(e);
        let link = self.links()[l as int];
        LinkDraw {
            edge: e,
            link: l,
            output_port: self.live(link.output_port),
            input_port: self.live(link.input_port),
            media_type: self.draw_media(l),
            active: link.active,
            online: link.online,
            highlighted: hl_nodes.is_empty() || hl_edges.contains(e),
        }
    }

    /// The edge `e` is drawn: it stands on the canvas and its link does not wait for the
    /// check of its removal.
    pub open spec fn drawn_edge(&self, e: u32) -> bool {
        self.canvas().edges().contains_key(e) && !self.links()[self.edge_link(e) as int].pending_check
    }

    fn link_draw_for(&self, hl: &Highlight, any: bool, e: u32, l: usize) -> (d: LinkDraw)
        requires
            self.wf(),
            any == !hl.nodes@.is_empty(),
            self.canvas().edges().contains_key(e),
            self.canvas().edges()[e].2 == l,
        ensures
            d == self.draw_of(e, hl.nodes@, hl.edges@),
    {
        let link = &self.links[l];
        let out = self.live_port(link.output_port);
        let inp = self.live_port(link.input_port);
        let own = MediaType::from(link.media_type);
        let media = if own != MediaType::Unknown {
            own
        } else {
            match out {
                Some(p) => MediaType::from(self.ports[p].media_type),
                None => match inp {
                    Some(p) => MediaType::from(self.ports[p].media_type),
                    None => MediaType::Unknown,
                },
            }
        };
        let highlighted = !any || hl.edges.contains(&e);
        LinkDraw {
            edge: e,
            link: l,
            output_port: out,
            input_port: inp,
            media_type: media,
            active: link.active,
            online: link.online,
            highlighted,
        }
    }

    /// The links to draw, in increasing order of edge: each edge of the canvas whose
    /// link does not wait for a check, shown as `draw_of` says.
    #[verifier::spinoff_prover]
    pub fn links_to_draw(&self, hl: &Highlight) -> (r: Vec<LinkDraw>)
        requires
            self.wf(),
        ensures
            forall|i: int, j: int| 0 <= i < j < r@.len() ==> r@[i].edge < r@[j].edge,
            forall|i: int| 0 <= i < r@.len() ==> self.drawn_edge(#[trigger] r@[i].edge)
                && r@[i] == self.draw_of(r@[i].edge, hl.nodes@, hl.edges@),
            forall|e: u32| #[trigger] self.drawn_edge(e) ==> exists|i: int| 0 <= i < r@.len() && r@[i].edge == e,
    {
        let list = self.canvas.edge_list();
        let any = !hl.nodes.is_empty();
        let mut r: Vec<LinkDraw> = Vec::new();
        let mut i: usize = 0;
        while i < list.len()
            invariant
                self.wf(),
                i <= list@.len(),
                any == !hl.nodes@.is_empty(),
                forall|a: int, b: int| 0 <= a < b < list@.len() ==> list@[a].0 < list@[b].0,
                forall|a: int| 0 <= a < list@.len() ==> #[trigger] self.canvas().edges().contains_key(list@[a].0)
                    && self.canvas().edges()[list@[a].0] == (list@[a].1, list@[a].2, list@[a].3),
                forall|e: u32| #[trigger] self.canvas().edges().contains_key(e) ==> exists|a: int| 0 <= a < list@.len() && list@[a].0 == e,
                forall|k: int| 0 <= k < r@.len() ==> exists|a: int| 0 <= a < i && #[trigger] r@[k].edge == list@[a].0,
                forall|k1: int, k2: int| 0 <= k1 < k2 < r@.len() ==> r@[k1].edge < r@[k2].edge,
                forall|k: int| 0 <= k < r@.len() ==> self.drawn_edge(#[trigger] r@[k].edge)
                    && r@[k] == self.draw_of(r@[k].edge, hl.nodes@, hl.edges@),
                forall|a: int| 0 <= a < i && self.drawn_edge(#[trigger] list@[a].0) ==> exists|k: int| 0 <= k < r@.len() && r@[k].edge == list@[a].0,
            decreases list.len() - i,
        {
            let (e, _, _, l) = list[i];
            assert(self.canvas().edges().contains_key(list@[i as int].0));
            assert(self.canvas().edges().contains_key(e));
            assert(self.edge_link(e) == l);
            if !self.links[l].pending_check {
                let d = self.link_draw_for(hl, any, e, l);
                let ghost r0 = r@;
                r.push(d);
                proof {
                    assert forall|k: int| 0 <= k < r@.len() implies exists|a: int| 0 <= a < i + 1 && #[trigger] r@[k].edge == list@[a].0 by {
                        if k < r0.len() {
                            assert(r0[k] == r@[k]);
                            let a = choose|a: int| 0 <= a < i && #[trigger] r0[k].edge == list@[a].0;
                            assert(r@[k].edge == list@[a].0);
                        } else {
                            assert(r@[k].edge == list@[i as int].0);
                        }
                    }
                    assert forall|k1: int, k2: int| 0 <= k1 < k2 < r@.len() implies r@[k1].edge < r@[k2].edge by {
                        if k2 == r0.len() {
                            let a = choose|a: int| 0 <= a < i && #[trigger] r0[k1].edge == list@[a].0;
                            assert(r@[k1] == r0[k1]);
                        } else {
                            assert(r@[k1] == r0[k1] && r@[k2] == r0[k2]);
                        }
                    }
                    assert forall|a: int| 0 <= a < i + 1 && self.drawn_edge(#[trigger] list@[a].0) implies exists|k: int| 0 <= k < r@.len() && r@[k].edge == list@[a].0 by {
                        if a < i {
                            let k = choose|k: int| 0 <= k < r0.len() && r0[k].edge == list@[a].0;
                            assert(r@[k] == r0[k]);
                        } else {
                            assert(r@[r0.len() as int].edge == list@[a].0);
                        }
                    }
                }
            }
            i = i + 1;
        }
        proof {
            assert forall|e: u32| #[trigger] self.drawn_edge(e) implies exists|k: int| 0 <= k < r@.len() && r@[k].edge == e by {
                let a = choose|a: int| 0 <= a < list@.len() && list@[a].0 == e;
                assert(self.drawn_edge(list@[a].0));
            }
        }
        r
    }

    /// What the matrix view shows: the output ports and the input ports, each listed
    /// once and sorted by node name and port name, and the pairs of ports that the
    /// master links join, when both ends are alive.
    pub fn matrix_data(&self) -> (r: MatrixData)
        requires
            self.wf(),
        ensures
            self.matrix_column(PortDirection::Output, r.out_ports@),
            self.matrix_column(PortDirection::Input, r.in_ports@),
            forall|pair: (PortId, PortId)| #[trigger] r.links@.contains(pair) == exists|key: u64|
                #[trigger] self.masters().contains_key(key) && self.master_pair(key) == Some(pair),
    {
        let out_ports = self.matrix_column_of(PortDirection::Output);
        let in_ports = self.matrix_column_of(PortDirection::Input);
        let keys = keys_u64(&self.master_links);
        let mut links: Vec<(PortId, PortId)> = Vec::new();
        let mut i: usize = 0;
        while i < keys.len()
            invariant
                self.wf(),
                keys@.to_set() == self.master_links@.dom(),
                i <= keys@.len(),
                forall|pair: (PortId, PortId)| #[trigger] links@.contains(pair) == exists|k: int|
                    0 <= k < i && self.master_pair(#[trigger] keys@[k]) == Some(pair),
            decreases keys.len() - i,
        {
            let key = keys[i];
            assert(keys@.to_set().contains(key));
            let l = *self.master_links.get(&key).unwrap();
            assert(self.link_ok(l as int));
            let ghost before = links@;
            let p = self.live_port(self.links[l].output_port);
            let q = self.live_port(self.links[l].input_port);
            if let (Some(p), Some(q)) = (p, q) {
                links.push((PortId(self.ports[p].pipewire_id), PortId(self.ports[q].pipewire_id)));
            }
            proof {
                assert forall|pair: (PortId, PortId)| #[trigger] links@.contains(pair) == exists|k: int|
                    0 <= k < i + 1 && self.master_pair(#[trigger] keys@[k]) == Some(pair) by {
                    if links@.contains(pair) {
                        let w = choose|w: int| 0 <= w < links@.len() && links@[w] == pair;
                        if w < before.len() {
                            assert(before.contains(pair));
                            let k = choose|k: int| 0 <= k < i && self.master_pair(#[trigger] keys@[k]) == Some(pair);
                            assert(0 <= k < i + 1 && self.master_pair(keys@[k]) == Some(pair));
                        } else {
                            assert(self.master_pair(keys@[i as int]) == Some(pair));
                        }
                    }
                    if exists|k: int| 0 <= k < i + 1 && self.master_pair(#[trigger] keys@[k]) == Some(pair) {
                        let k = choose|k: int| 0 <= k < i + 1 && self.master_pair(#[trigger] keys@[k]) == Some(pair);
                        if k < i {
                            assert(before.contains(pair));
                            let w = choose|w: int| 0 <= w < before.len() && before[w] == pair;
                            assert(links@[w] == pair);
                        } else {
                            assert(links@[links@.len() - 1] == pair);
                        }
                    }
                }
            }
            i = i + 1;
        }
        proof {
            assert forall|pair: (PortId, PortId)| #[trigger] links@.contains(pair) == exists|key: u64|
                #[trigger] self.masters().contains_key(key) && self.master_pair(key) == Some(pair) by {
                if links@.contains(pair) {
                    let k = choose|k: int| 0 <= k < keys@.len() && self.master_pair(#[trigger] keys@[k]) == Some(pair);
                    assert(keys@.to_set().contains(keys@[k]));
                }
                if exists|key: u64| #[trigger] self.masters().contains_key(key) && self.master_pair(key) == Some(pair) {
                    let key = choose|key: u64| #[trigger] self.masters().contains_key(key) && self.master_pair(key) == Some(pair);
                    assert(keys@.to_set().contains(key));
                    let k = choose|k: int| 0 <= k < keys@.len() && keys@[k] == key;
                    assert(self.master_pair(keys@[k]) == Some(pair));
                }
            }
        }
        MatrixData { out_ports, in_ports, links }
    }
}

} // verus!
