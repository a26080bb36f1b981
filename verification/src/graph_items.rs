//! The items of the graph: nodes (an application group or a single PipeWire node),
//! ports and links, with what the user interface shows of each.
use std::collections::{HashMap, HashSet};
use vstd::prelude::*;
use crate::collections::{elems_usize, keys_u32};
use crate::ids::{port_direction_of, port_media_type_of, Direction, MediaType, NodeId, NodeType, PortDirection, PortId, PortMediaType};

verus! {

broadcast use vstd::std_specs::hash::group_hash_axioms;

/// A PipeWire node inside a node of the graph.
#[derive(Clone, Debug)]
pub struct SubNode {
    pub name: String,
    pub online: bool,
}

/// A link between two ports of the same application group, drawn inside the group.
#[derive(Clone, Copy, Debug)]
pub struct InternalLink {
    pub output_port_id: u32,
    pub input_port_id: u32,
    pub active: bool,
    pub media_type: MediaType,
}

/// A node of the graph: a single PipeWire node, or the group of the streams of one
/// application.
pub struct Node {
    pub node_name: String,
    pub media_name: String,
    pub app_name: String,
    pub node_type: Option<NodeType>,
    pub sub_nodes: HashMap<u32, SubNode>,
    pub ports: HashSet<usize>,
    pub master_ports: HashSet<usize>,
    pub internal_links: HashMap<u32, InternalLink>,
    pub is_app: bool,
    pub is_detached: bool,
    pub is_pinned: bool,
    pub auto_delete: bool,
    pub online: bool,
    pub pipewire_id: u32,
}

/// A port of the graph.
pub struct Port {
    pub pipewire_id: u32,
    pub name: String,
    pub direction: PortDirection,
    pub media_type: PortMediaType,
    pub node_id: u32,
    pub online: bool,
    /// The node whose port list this port was put in.
    pub parent: Option<usize>,
}

/// A link of the graph between an output port and an input port.
pub struct Link {
    pub output_port: Option<usize>,
    pub input_port: Option<usize>,
    pub active: bool,
    pub online: bool,
    pub media_type: PortMediaType,
    pub pending_check: bool,
}

/// `a` and `b` agree on everything but their tables of sub-nodes, ports, master
/// ports and internal links.
pub open spec fn node_frame(a: Node, b: Node) -> bool {
    &&& a.node_name == b.node_name
    &&& a.media_name == b.media_name
    &&& a.app_name == b.app_name
    &&& a.node_type == b.node_type
    &&& a.is_app == b.is_app
    &&& a.is_detached == b.is_detached
    &&& a.is_pinned == b.is_pinned
    &&& a.auto_delete == b.auto_delete
    &&& a.online == b.online
    &&& a.pipewire_id == b.pipewire_id
}

/// The names and states of the sub-nodes.
pub open spec fn subs_view(m: Map<u32, SubNode>) -> Map<u32, (Seq<char>, bool)> {
    Map::new(|k: u32| m.contains_key(k), |k: u32| (m[k].name@, m[k].online))
}

/// The number of sub-nodes that are online.
pub open spec fn online_count(m: Map<u32, SubNode>) -> nat {
    m.dom().filter(|k: u32| m[k].online).len()
}

/// The number of sub-nodes marked online in a table of names and states.
pub open spec fn online_in(m: Map<u32, (Seq<char>, bool)>) -> nat {
    m.dom().filter(|k: u32| m[k].1).len()
}

/// Counting online sub-nodes gives the same on the table and on its names and states.
pub proof fn lemma_online_count_view(m: Map<u32, SubNode>)
    ensures
        online_count(m) == online_in(subs_view(m)),
{
    assert(m.dom().filter(|k: u32| m[k].online) =~= subs_view(m).dom().filter(|k: u32| subs_view(m)[k].1));
}

/// The node id recorded in the port with handle `h`, if there is such a port.
pub open spec fn port_node_id(ports: Seq<Port>, h: usize) -> Option<u32> {
    if h < ports.len() {
        Some(ports[h as int].node_id)
    } else {
        None
    }
}

/// The ports of `set` that do not belong to the PipeWire node `id`.
pub open spec fn ports_not_of(set: Set<usize>, ports: Seq<Port>, id: u32) -> Set<usize> {
    set.filter(|h: usize| port_node_id(ports, h) != Some(id))
}

/// A sub-node that is offline and carries the name `name`.
pub open spec fn is_offline_namesake(m: Map<u32, SubNode>, k: u32, name: Seq<char>) -> bool {
    m.contains_key(k) && !m[k].online && m[k].name@ == name
}

/// `b` is `a` with the sub-node `id` named `name` added, online; an offline sub-node
/// of `a` carrying the same name is dropped first, with the ports that belong to it.
pub open spec fn sub_node_added(a: Node, b: Node, ports: Seq<Port>, id: u32, name: Seq<char>) -> bool {
    &&& b.ports@.subset_of(a.ports@)
    &&& b.master_ports == a.master_ports
    &&& (forall|k: u32| !is_offline_namesake(a.sub_nodes@, k, name)) ==> {
        &&& subs_view(b.sub_nodes@) == subs_view(a.sub_nodes@).insert(id, (name, true))
        &&& b.ports@ == a.ports@
    }
    &&& (exists|k: u32| is_offline_namesake(a.sub_nodes@, k, name)) ==> exists|k: u32| {
        &&& is_offline_namesake(a.sub_nodes@, k, name)
        &&& subs_view(b.sub_nodes@) == subs_view(a.sub_nodes@).remove(k).insert(id, (name, true))
        &&& b.ports@ == ports_not_of(a.ports@, ports, k)
    }
    &&& node_frame(a, b)
    &&& b.internal_links == a.internal_links
}

impl Node {
    /// A new node named `name` for the PipeWire node `id`: online, with `id` as its only
    /// sub-node.
    pub fn new(name: &str, id: NodeId) -> (n: Node)
        ensures
            n.node_name@ == name@,
            n.pipewire_id == id.0,
            n.online,
            subs_view(n.sub_nodes@) == map![id.0 => (name@, true)],
            n.media_name@ == Seq::<char>::empty(),
            n.app_name@ == Seq::<char>::empty(),
            n.node_type.is_none(),
            n.ports@ == Set::<usize>::empty(),
            n.master_ports@ == Set::<usize>::empty(),
            n.internal_links@ == Map::<u32, InternalLink>::empty(),
            !n.is_app && !n.is_detached && !n.is_pinned && !n.auto_delete,
    {
        let mut sub_nodes: HashMap<u32, SubNode> = HashMap::new();
        sub_nodes.insert(id.0, SubNode { name: name.to_string(), online: true });
        let n = Node {
            node_name: name.to_string(),
            media_name: String::new(),
            app_name: String::new(),
            node_type: None,
            sub_nodes,
            ports: HashSet::new(),
            master_ports: HashSet::new(),
            internal_links: HashMap::new(),
            is_app: false,
            is_detached: false,
            is_pinned: false,
            auto_delete: false,
            online: true,
            pipewire_id: id.0,
        };
        assert(subs_view(n.sub_nodes@) =~= map![id.0 => (name@, true)]);
        n
    }

    /// The id of the PipeWire node this node was made for.
    pub fn pw_id(&self) -> (r: NodeId)
        ensures
            r == NodeId(self.pipewire_id),
    {
        NodeId(self.pipewire_id)
    }

    /// The name shown on the node.
    pub fn pw_name(&self) -> (r: String)
        ensures
            r@ == self.node_name@,
    {
        self.node_name.clone()
    }

    /// The media name of the node.
    pub fn internal_name(&self) -> (r: String)
        ensures
            r@ == self.media_name@,
    {
        self.media_name.clone()
    }

    /// Whether the node takes in or gives out media, if known.
    pub fn node_type(&self) -> (r: Option<NodeType>)
        ensures
            r == self.node_type,
    {
        self.node_type
    }

    /// Set the node type.
    pub fn set_node_type(&mut self, node_type: Option<NodeType>)
        ensures
            final(self).node_type == node_type,
            *final(self) == (Node { node_type, ..*old(self) }),
    {
        self.node_type = node_type;
    }

    /// The handles of the ports of this node.
    pub fn ports(&self) -> (r: Vec<usize>)
        ensures
            r@.to_set() == self.ports@,
            r@.no_duplicates(),
    {
        elems_usize(&self.ports)
    }

    /// The handles of the master ports of this node.
    pub fn master_ports(&self) -> (r: Vec<usize>)
        ensures
            r@.to_set() == self.master_ports@,
            r@.no_duplicates(),
    {
        elems_usize(&self.master_ports)
    }

    /// List the port `port` among the ports of this node.
    pub fn add_port(&mut self, port: usize)
        ensures
            final(self).ports@ == old(self).ports@.insert(port),
            node_frame(*old(self), *final(self)),
            final(self).sub_nodes == old(self).sub_nodes,
            final(self).master_ports == old(self).master_ports,
            final(self).internal_links == old(self).internal_links,
    {
        self.ports.insert(port);
    }

    /// List the port `port` among the master ports of this node.
    pub fn add_master_port(&mut self, port: usize)
        ensures
            final(self).master_ports@ == old(self).master_ports@.insert(port),
            node_frame(*old(self), *final(self)),
            final(self).sub_nodes == old(self).sub_nodes,
            final(self).ports == old(self).ports,
            final(self).internal_links == old(self).internal_links,
    {
        self.master_ports.insert(port);
    }

    /// Take the port `port` off the ports of this node.
    pub fn remove_port(&mut self, port: usize)
        ensures
            final(self).ports@ == old(self).ports@.remove(port),
            node_frame(*old(self), *final(self)),
            final(self).sub_nodes == old(self).sub_nodes,
            final(self).master_ports == old(self).master_ports,
            final(self).internal_links == old(self).internal_links,
    {
        self.ports.remove(&port);
    }

    /// Whether some master port of this node carries the name `name`.
    pub fn has_master_port(&self, name: &str, ports: &Vec<Port>) -> (r: bool)
        ensures
            r == exists|h: usize| #[trigger] self.master_ports@.contains(h) && h < ports@.len() && ports@[h as int].name@ == name@,
    {
        let hs = elems_usize(&self.master_ports);
        let target = name.to_string();
        let mut i: usize = 0;
        while i < hs.len()
            invariant
                hs@.to_set() == self.master_ports@,
                target@ == name@,
                i <= hs@.len(),
                forall|j: int| 0 <= j < i ==> !(hs@[j] < ports@.len() && ports@[hs@[j] as int].name@ == name@),
            decreases hs.len() - i,
        {
            let h = hs[i];
            assert(hs@.to_set().contains(h));
            if h < ports.len() && ports[h].name == target {
                return true;
            }
            i = i + 1;
        }
        assert forall|h: usize| #[trigger] self.master_ports@.contains(h) implies !(h < ports@.len() && ports@[h as int].name@ == name@) by {
            assert(hs@.to_set().contains(h));
            let j = choose|j: int| 0 <= j < hs@.len() && hs@[j] == h;
        }
        false
    }

    /// Add the sub-node `id` named `name`, online. An offline sub-node carrying the same
    /// name is dropped first, with the ports that belong to it.
    pub fn add_sub_node(&mut self, id: u32, name: &str, ports: &Vec<Port>)
        ensures
            sub_node_added(*old(self), *final(self), ports@, id, name@),
    {
        let keys = keys_u32(&self.sub_nodes);
        let target = name.to_string();
        let mut duplicate: Option<u32> = None;
        let mut i: usize = 0;
        while i < keys.len()
            invariant
                keys@.to_set() == self.sub_nodes@.dom(),
                self.sub_nodes == old(self).sub_nodes,
                target@ == name@,
                i <= keys@.len(),
                duplicate is None ==> forall|j: int| 0 <= j < i ==> !is_offline_namesake(self.sub_nodes@, #[trigger] keys@[j], name@),
                duplicate matches Some(k) ==> is_offline_namesake(self.sub_nodes@, k, name@),
            ensures
                duplicate matches Some(k) ==> is_offline_namesake(self.sub_nodes@, k, name@),
                duplicate is None ==> forall|j: int| 0 <= j < keys@.len() ==> !is_offline_namesake(self.sub_nodes@, #[trigger] keys@[j], name@),
            decreases keys.len() - i,
        {
            let k = keys[i];
            assert(keys@.to_set().contains(k));
            let sn = self.sub_nodes.get(&k).unwrap();
            if !sn.online && sn.name == target {
                duplicate = Some(k);
                break;
            }
            i = i + 1;
        }
        if duplicate.is_none() {
            assert forall|k: u32| !is_offline_namesake(old(self).sub_nodes@, k, name@) by {
                if old(self).sub_nodes@.contains_key(k) {
                    assert(keys@.to_set().contains(k));
                    let j = choose|j: int| 0 <= j < keys@.len() && keys@[j] == k;
                }
            }
        }
        if let Some(old_id) = duplicate {
            self.sub_nodes.remove(&old_id);
            let hs = elems_usize(&self.ports);
            let ghost before = self.ports@;
            let mut kept: HashSet<usize> = HashSet::new();
            let mut j: usize = 0;
            while j < hs.len()
                invariant
                    hs@.to_set() == before,
                    hs@.no_duplicates(),
                    j <= hs@.len(),
                    kept@ == hs@.take(j as int).to_set().filter(|h: usize| port_node_id(ports@, h) != Some(old_id)),
                decreases hs.len() - j,
            {
                let h = hs[j];
                let ghost prev = kept@;
                proof { hs@.take(j as int).lemma_push_to_set_commute(h); }
                assert(hs@.take(j as int + 1) =~= hs@.take(j as int).push(h));
                if !(h < ports.len() && ports[h].node_id == old_id) {
                    kept.insert(h);
                    assert(kept@ =~= hs@.take(j as int + 1).to_set().filter(|h: usize| port_node_id(ports@, h) != Some(old_id)));
                } else {
                    assert(kept@ =~= hs@.take(j as int + 1).to_set().filter(|h: usize| port_node_id(ports@, h) != Some(old_id)));
                }
                j = j + 1;
            }
            assert(hs@.take(hs@.len() as int) =~= hs@);
            self.ports = kept;
            assert(self.ports@ =~= ports_not_of(before, ports@, old_id));
        }
        let ghost mid = self.sub_nodes@;
        self.sub_nodes.insert(id, SubNode { name: target, online: true });
        proof {
            if let Some(k) = duplicate {
                assert(subs_view(self.sub_nodes@) =~= subs_view(old(self).sub_nodes@).remove(k).insert(id, (name@, true)));
            } else {
                assert(subs_view(self.sub_nodes@) =~= subs_view(old(self).sub_nodes@).insert(id, (name@, true)));
            }
        }
    }

    /// Take the sub-node `id` offline; with auto-delete on, drop it instead.
    pub fn remove_sub_node(&mut self, id: u32)
        ensures
            old(self).auto_delete ==> subs_view(final(self).sub_nodes@) == subs_view(old(self).sub_nodes@).remove(id),
            !old(self).auto_delete ==> subs_view(final(self).sub_nodes@) == (if old(self).sub_nodes@.contains_key(id) {
                subs_view(old(self).sub_nodes@).insert(id, (old(self).sub_nodes@[id].name@, false))
            } else {
                subs_view(old(self).sub_nodes@)
            }),
            final(self).ports == old(self).ports,
            final(self).master_ports == old(self).master_ports,
            node_frame(*old(self), *final(self)),
            final(self).internal_links == old(self).internal_links,
    {
        if self.auto_delete {
            self.sub_nodes.remove(&id);
            assert(subs_view(self.sub_nodes@) =~= subs_view(old(self).sub_nodes@).remove(id));
        } else {
            if let Some(sn) = self.sub_nodes.get(&id) {
                let name = sn.name.clone();
                self.sub_nodes.insert(id, SubNode { name, online: false });
                assert(subs_view(self.sub_nodes@) =~= subs_view(old(self).sub_nodes@).insert(id, (old(self).sub_nodes@[id].name@, false)));
            }
        }
    }

    /// Drop the sub-node `id`.
    pub fn delete_sub_node(&mut self, id: u32)
        ensures
            subs_view(final(self).sub_nodes@) == subs_view(old(self).sub_nodes@).remove(id),
            node_frame(*old(self), *final(self)),
            final(self).ports == old(self).ports,
            final(self).master_ports == old(self).master_ports,
            final(self).internal_links == old(self).internal_links,
    {
        self.sub_nodes.remove(&id);
        assert(subs_view(self.sub_nodes@) =~= subs_view(old(self).sub_nodes@).remove(id));
    }

    /// Whether `id` is a sub-node of this node and online.
    pub fn has_sub_node(&self, id: u32) -> (r: bool)
        ensures
            r == (self.sub_nodes@.contains_key(id) && self.sub_nodes@[id].online),
    {
        match self.sub_nodes.get(&id) {
            Some(sn) => sn.online,
            None => false,
        }
    }

    /// The number of sub-nodes that are online.
    pub fn sub_node_count(&self) -> (r: usize)
        ensures
            r == online_count(self.sub_nodes@),
    {
        let keys = keys_u32(&self.sub_nodes);
        let ghost m = self.sub_nodes@;
        let mut count: usize = 0;
        let mut i: usize = 0;
        proof {
            keys@.unique_seq_to_set();
            assert(keys@.take(0).to_set().filter(|k: u32| m[k].online) =~= Set::<u32>::empty());
        }
        while i < keys.len()
            invariant
                keys@.to_set() == m.dom(),
                keys@.no_duplicates(),
                m == self.sub_nodes@,
                i <= keys@.len(),
                count == keys@.take(i as int).to_set().filter(|k: u32| m[k].online).len(),
                count <= i,
            decreases keys.len() - i,
        {
            let k = keys[i];
            assert(keys@.to_set().contains(k));
            let ghost before = keys@.take(i as int).to_set().filter(|k: u32| m[k].online);
            assert(keys@.take(i as int + 1) =~= keys@.take(i as int).push(k));
            assert(!keys@.take(i as int).contains(k)) by {
                if keys@.take(i as int).contains(k) {
                    let q = choose|q: int| 0 <= q < i && keys@.take(i as int)[q] == k;
                    assert(keys@[q] == keys@[i as int]);
                }
            }
            proof { keys@.take(i as int).lemma_push_to_set_commute(k); }
            if self.sub_nodes.get(&k).unwrap().online {
                assert(keys@.take(i as int + 1).to_set().filter(|k: u32| m[k].online) =~= before.insert(k));
                count = count + 1;
            } else {
                assert(keys@.take(i as int + 1).to_set().filter(|k: u32| m[k].online) =~= before);
            }
            i = i + 1;
        }
        assert(keys@.take(keys@.len() as int) =~= keys@);
        count
    }

    /// The name of the sub-node `id`, if there is one.
    pub fn sub_node_name(&self, id: u32) -> (r: Option<String>)
        ensures
            r matches Some(s) ==> self.sub_nodes@.contains_key(id) && s@ == self.sub_nodes@[id].name@,
            r is None ==> !self.sub_nodes@.contains_key(id),
    {
        match self.sub_nodes.get(&id) {
            Some(sn) => Some(sn.name.clone()),
            None => None,
        }
    }

    /// The ids and names of the sub-nodes.
    pub fn sub_nodes(&self) -> (r: HashMap<u32, String>)
        ensures
            r@.dom() == self.sub_nodes@.dom(),
            forall|k: u32| #[trigger] r@.contains_key(k) ==> r@[k]@ == self.sub_nodes@[k].name@,
    {
        let keys = keys_u32(&self.sub_nodes);
        let mut out: HashMap<u32, String> = HashMap::new();
        let mut i: usize = 0;
        while i < keys.len()
            invariant
                keys@.to_set() == self.sub_nodes@.dom(),
                i <= keys@.len(),
                out@.dom() == keys@.take(i as int).to_set(),
                forall|k: u32| #[trigger] out@.contains_key(k) ==> out@[k]@ == self.sub_nodes@[k].name@,
            decreases keys.len() - i,
        {
            let k = keys[i];
            assert(keys@.to_set().contains(k));
            let name = self.sub_nodes.get(&k).unwrap().name.clone();
            out.insert(k, name);
            assert(keys@.take(i as int + 1) =~= keys@.take(i as int).push(k));
            proof { keys@.take(i as int).lemma_push_to_set_commute(k); }
            i = i + 1;
        }
        assert(keys@.take(keys@.len() as int) =~= keys@);
        out
    }

    /// The first sub-node id in the table's order, or 0 when there is none.
    pub fn first_sub_node_id(&self) -> (r: u32)
        ensures
            self.sub_nodes@.dom().finite(),
            self.sub_nodes@.dom().len() == 0 ==> r == 0,
            self.sub_nodes@.dom().len() > 0 ==> self.sub_nodes@.contains_key(r),
    {
        assert(self.sub_nodes@.dom().finite());
        let keys = keys_u32(&self.sub_nodes);
        if keys.len() > 0 {
            assert(keys@.to_set().contains(keys@[0]));
            keys[0]
        } else {
            proof {
                if self.sub_nodes@.dom().finite() && self.sub_nodes@.dom().len() > 0 {
                    let k = self.sub_nodes@.dom().choose();
                    assert(self.sub_nodes@.dom().contains(k));
                    assert(keys@.to_set().contains(k));
                }
            }
            0
        }
    }

    /// Draw the link `id` from `out_id` to `in_id` inside this node.
    pub fn add_internal_link(&mut self, id: u32, out_id: u32, in_id: u32, active: bool, media_type: MediaType)
        ensures
            final(self).internal_links@ == old(self).internal_links@.insert(
                id,
                InternalLink { output_port_id: out_id, input_port_id: in_id, active, media_type },
            ),
            node_frame(*old(self), *final(self)),
            final(self).sub_nodes == old(self).sub_nodes,
            final(self).ports == old(self).ports,
            final(self).master_ports == old(self).master_ports,
    {
        self.internal_links.insert(id, InternalLink { output_port_id: out_id, input_port_id: in_id, active, media_type });
    }

    /// Stop drawing the link `id` inside this node.
    pub fn remove_internal_link(&mut self, id: u32)
        ensures
            final(self).internal_links@ == old(self).internal_links@.remove(id),
            node_frame(*old(self), *final(self)),
            final(self).sub_nodes == old(self).sub_nodes,
            final(self).ports == old(self).ports,
            final(self).master_ports == old(self).master_ports,
    {
        self.internal_links.remove(&id);
    }

    /// Mark the internal link `id`, if there is one, active or not.
    pub fn update_internal_link_state(&mut self, id: u32, active: bool)
        ensures
            final(self).internal_links@ == (if old(self).internal_links@.contains_key(id) {
                old(self).internal_links@.insert(id, InternalLink { active, ..old(self).internal_links@[id] })
            } else {
                old(self).internal_links@
            }),
            node_frame(*old(self), *final(self)),
            final(self).sub_nodes == old(self).sub_nodes,
            final(self).ports == old(self).ports,
            final(self).master_ports == old(self).master_ports,
    {
        if let Some(l) = self.internal_links.get(&id) {
            let l2 = InternalLink { active, ..*l };
            self.internal_links.insert(id, l2);
        }
    }

    /// Give the internal link `id`, if there is one, the media type `media_type`.
    pub fn update_internal_link_format(&mut self, id: u32, media_type: MediaType)
        ensures
            final(self).internal_links@ == (if old(self).internal_links@.contains_key(id) {
                old(self).internal_links@.insert(id, InternalLink { media_type, ..old(self).internal_links@[id] })
            } else {
                old(self).internal_links@
            }),
            node_frame(*old(self), *final(self)),
            final(self).sub_nodes == old(self).sub_nodes,
            final(self).ports == old(self).ports,
            final(self).master_ports == old(self).master_ports,
    {
        if let Some(l) = self.internal_links.get(&id) {
            let l2 = InternalLink { media_type, ..*l };
            self.internal_links.insert(id, l2);
        }
    }
}

impl Port {
    /// A new port `id` named `name`, online, of the node 0 until it is placed.
    pub fn new(id: PortId, name: &str, direction: Direction) -> (p: Port)
        ensures
            p.pipewire_id == id.0,
            p.name@ == name@,
            p.direction == port_direction_of(direction),
            p.media_type == PortMediaType::Unknown,
            p.node_id == 0,
            p.online,
            p.parent.is_none(),
    {
        Port {
            pipewire_id: id.0,
            name: name.to_string(),
            direction: PortDirection::from(direction),
            media_type: PortMediaType::Unknown,
            node_id: 0,
            online: true,
            parent: None,
        }
    }

    /// The direction of the port.
    pub fn port_direction(&self) -> (r: PortDirection)
        ensures
            r == self.direction,
    {
        self.direction
    }

    /// The name of the port.
    pub fn name(&self) -> (r: String)
        ensures
            r@ == self.name@,
    {
        self.name.clone()
    }

    /// Set the media type of the port from a PipeWire media type.
    pub fn set_media_type(&mut self, media_type: MediaType)
        ensures
            final(self).media_type == port_media_type_of(media_type),
            final(self).pipewire_id == old(self).pipewire_id,
            final(self).name == old(self).name,
            final(self).direction == old(self).direction,
            final(self).node_id == old(self).node_id,
            final(self).online == old(self).online,
            final(self).parent == old(self).parent,
    {
        self.media_type = PortMediaType::from(media_type);
    }

    /// The media type of the port.
    pub fn media_type(&self) -> (r: PortMediaType)
        ensures
            r == self.media_type,
    {
        self.media_type
    }

    /// The PipeWire id of the port.
    pub fn pw_id(&self) -> (r: PortId)
        ensures
            r == PortId(self.pipewire_id),
    {
        PortId(self.pipewire_id)
    }

    /// Two ports can be linked when one is an output and the other an input.
    pub fn is_linkable_to(&self, other_port: &Port) -> (r: bool)
        ensures
            r == linkable(*self, *other_port),
            r == (self.direction != other_port.direction),
    {
        self.direction != other_port.direction
    }
}

/// A link can be drawn between the ports `a` and `b`: they go in opposite directions.
pub open spec fn linkable(a: Port, b: Port) -> bool {
    a.direction != b.direction
}

/// Being linkable is symmetric, and no port is linkable to itself.
pub proof fn lemma_linkable_symmetric(a: Port, b: Port)
    ensures
        linkable(a, b) == linkable(b, a),
        !linkable(a, a),
{
}

impl Link {
    /// A new link without ports: inactive, online, of unknown media type.
    pub fn new() -> (l: Link)
        ensures
            l.output_port.is_none() && l.input_port.is_none(),
            !l.active && l.online && !l.pending_check,
            l.media_type == PortMediaType::Unknown,
    {
        Link {
            output_port: None,
            input_port: None,
            active: false,
            online: true,
            media_type: PortMediaType::Unknown,
            pending_check: false,
        }
    }

    /// The port the link starts at.
    pub fn output_port(&self) -> (r: Option<usize>)
        ensures
            r == self.output_port,
    {
        self.output_port
    }

    /// Set the port the link starts at.
    pub fn set_output_port(&mut self, port: Option<usize>)
        ensures
            *final(self) == (Link { output_port: port, ..*old(self) }),
    {
        self.output_port = port;
    }

    /// The port the link ends at.
    pub fn input_port(&self) -> (r: Option<usize>)
        ensures
            r == self.input_port,
    {
        self.input_port
    }

    /// Set the port the link ends at.
    pub fn set_input_port(&mut self, port: Option<usize>)
        ensures
            *final(self) == (Link { input_port: port, ..*old(self) }),
    {
        self.input_port = port;
    }

    /// Whether media flows over the link.
    pub fn active(&self) -> (r: bool)
        ensures
            r == self.active,
    {
        self.active
    }

    /// Set whether media flows over the link.
    pub fn set_active(&mut self, active: bool)
        ensures
            *final(self) == (Link { active, ..*old(self) }),
    {
        self.active = active;
    }

    /// Whether PipeWire still knows the link.
    pub fn online(&self) -> (r: bool)
        ensures
            r == self.online,
    {
        self.online
    }

    /// Set whether PipeWire still knows the link.
    pub fn set_online(&mut self, online: bool)
        ensures
            *final(self) == (Link { online, ..*old(self) }),
    {
        self.online = online;
    }

    /// The media type of the link.
    pub fn media_type(&self) -> (r: PortMediaType)
        ensures
            r == self.media_type,
    {
        self.media_type
    }

    /// Set the media type of the link from a PipeWire media type.
    pub fn set_media_type(&mut self, media_type: MediaType)
        ensures
            *final(self) == (Link { media_type: port_media_type_of(media_type), ..*old(self) }),
    {
        self.media_type = PortMediaType::from(media_type);
    }

    /// Whether the link waits for the check that decides if its removal stands.
    pub fn pending_check(&self) -> (r: bool)
        ensures
            r == self.pending_check,
    {
        self.pending_check
    }

    /// Set whether the link waits for that check.
    pub fn set_pending_check(&mut self, pending: bool)
        ensures
            *final(self) == (Link { pending_check: pending, ..*old(self) }),
    {
        self.pending_check = pending;
    }
}

/// The color that links and ports of a media type are drawn in.
#[derive(Debug, Clone, Copy, PartialEq, Eq, Structural)]
pub enum ColorRole {
    Audio,
    Video,
    Midi,
    Unknown,
}

/// The color of a media type: audio and video have their own, streams and
/// application data (MIDI) share one, the rest are drawn as unknown.
pub fn color_for_media_type(media_type: MediaType) -> (r: ColorRole)
    ensures
        r == (match media_type {
            MediaType::Audio => ColorRole::Audio,
            MediaType::Video => ColorRole::Video,
            MediaType::Stream | MediaType::Application => ColorRole::Midi,
            _ => ColorRole::Unknown,
        }),
{
    match media_type {
        MediaType::Audio => ColorRole::Audio,
        MediaType::Video => ColorRole::Video,
        MediaType::Stream | MediaType::Application => ColorRole::Midi,
        _ => ColorRole::Unknown,
    }
}

/// What dropping the port `other` onto the port `port` asks for: nothing when the two
/// cannot be linked; otherwise a toggle of the link from the output one of them to the
/// input one, by their ids.
pub fn drop_link(port: &Port, other: &Port) -> (r: Option<(PortId, PortId)>)
    ensures
        r is Some <==> port.direction != other.direction,
        !linkable(*port, *other) ==> r is None,
        linkable(*port, *other) ==> r == Some(if port.direction == PortDirection::Output {
            (PortId(port.pipewire_id), PortId(other.pipewire_id))
        } else {
            (PortId(other.pipewire_id), PortId(port.pipewire_id))
        }),
{
    if !port.is_linkable_to(other) {
        return None;
    }
    match port.port_direction() {
        PortDirection::Output => Some((port.pw_id(), other.pw_id())),
        PortDirection::Input => Some((other.pw_id(), port.pw_id())),
    }
}

} // verus!
