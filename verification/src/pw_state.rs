//! What the PipeWire side remembers of the objects that the registry announced.
use std::collections::HashMap;
use vstd::prelude::*;
use crate::ids::{LinkId, NodeId, PortId};

verus! {

broadcast use vstd::std_specs::hash::group_hash_axioms;

/// An object announced by the PipeWire registry.
#[derive(Debug, Clone, Copy, PartialEq, Eq, Structural)]
pub enum Item {
    Node,
    Port { node_id: NodeId },
    Link { port_from: PortId, port_to: PortId },
}

/// The objects known to the PipeWire side, by id, and the link that connects each
/// pair of ports (output port, input port).
pub struct State {
    items: HashMap<u32, Item>,
    links: HashMap<u64, u32>,
}

/// The key under which the link between two ports is kept.
pub open spec fn link_key(port_from: PortId, port_to: PortId) -> int {
    port_from.0 as int * 0x1_0000_0000 + port_to.0 as int
}

proof fn lemma_link_key_injective(a: PortId, b: PortId, c: PortId, d: PortId)
    ensures
        link_key(a, b) == link_key(c, d) ==> a == c && b == d,
        0 <= link_key(a, b) <= u64::MAX,
{
}

fn make_link_key(port_from: PortId, port_to: PortId) -> (k: u64)
    ensures
        k as int == link_key(port_from, port_to),
{
    (port_from.0 as u64) * 0x1_0000_0000 + (port_to.0 as u64)
}

impl State {
    /// The objects known, by id.
    pub closed spec fn items(&self) -> Map<u32, Item> {
        self.items@
    }

    /// The link known to connect each pair of ports.
    pub closed spec fn links(&self) -> Map<(PortId, PortId), LinkId> {
        Map::new(
            |p: (PortId, PortId)| self.links@.contains_key(link_key(p.0, p.1) as u64),
            |p: (PortId, PortId)| LinkId(self.links@[link_key(p.0, p.1) as u64]),
        )
    }

    /// `b` is `a` with the object `item` remembered under `id`, and a link also as the
    /// connection of its two ports.
    pub open spec fn inserted(a: Self, b: Self, id: u32, item: Item) -> bool {
        &&& b.items() == a.items().insert(id, item)
        &&& b.links() == (match item {
            Item::Link { port_from, port_to } => a.links().insert((port_from, port_to), LinkId(id)),
            _ => a.links(),
        })
    }

    /// `b` is `a` without the object under `id`, given back as `r`, and without the
    /// connection of its ports when it was a link.
    pub open spec fn removed(a: Self, b: Self, id: u32, r: Option<Item>) -> bool {
        &&& r == (if a.items().contains_key(id) { Some(a.items()[id]) } else { None })
        &&& b.items() == a.items().remove(id)
        &&& b.links() == (match r {
            Some(Item::Link { port_from, port_to }) => a.links().remove((port_from, port_to)),
            _ => a.links(),
        })
    }

    /// Nothing known yet.
    pub fn new() -> (s: Self)
        ensures
            s.items() == Map::<u32, Item>::empty(),
            s.links() == Map::<(PortId, PortId), LinkId>::empty(),
    {
        let s = State { items: HashMap::new(), links: HashMap::new() };
        assert(s.links() =~= Map::<(PortId, PortId), LinkId>::empty());
        s
    }

    /// Remember the object `item` under `id`; a link is also remembered as the
    /// connection of its two ports.
    pub fn insert(&mut self, id: u32, item: Item)
        ensures
            Self::inserted(*old(self), *final(self), id, item),
    {
        let ghost old_links = self.links();
        if let Item::Link { port_from, port_to } = item {
            let k = make_link_key(port_from, port_to);
            self.links.insert(k, id);
            proof {
                assert forall|p: (PortId, PortId)| true implies
                    (link_key(p.0, p.1) == link_key(port_from, port_to)) == (p == (port_from, port_to)) by {
                    lemma_link_key_injective(p.0, p.1, port_from, port_to);
                }
            }
        }
        self.items.insert(id, item);
        assert(self.links() =~= (match item {
            Item::Link { port_from, port_to } => old_links.insert((port_from, port_to), LinkId(id)),
            _ => old_links,
        }));
    }

    /// The object known under `id`.
    pub fn get(&self, id: u32) -> (r: Option<&Item>)
        ensures
            r == (if self.items().contains_key(id) { Some(&self.items()[id]) } else { None }),
    {
        self.items.get(&id)
    }

    /// Forget the object known under `id` and, for a link, the connection of its ports.
    pub fn remove(&mut self, id: u32) -> (r: Option<Item>)
        ensures
            Self::removed(*old(self), *final(self), id, r),
    {
        let ghost old_links = self.links();
        let removed = self.items.remove(&id);
        if let Some(Item::Link { port_from, port_to }) = removed {
            let k = make_link_key(port_from, port_to);
            self.links.remove(&k);
            proof {
                assert forall|p: (PortId, PortId)| true implies
                    (link_key(p.0, p.1) == link_key(port_from, port_to)) == (p == (port_from, port_to)) by {
                    lemma_link_key_injective(p.0, p.1, port_from, port_to);
                }
            }
        }
        assert(self.links() =~= (match removed {
            Some(Item::Link { port_from, port_to }) => old_links.remove((port_from, port_to)),
            _ => old_links,
        }));
        removed
    }

    /// The id of the link known to connect `port_from` to `port_to`.
    pub fn get_link_id(&self, port_from: PortId, port_to: PortId) -> (r: Option<LinkId>)
        ensures
            r == (if self.links().contains_key((port_from, port_to)) {
                Some(self.links()[(port_from, port_to)])
            } else {
                None
            }),
    {
        let k = make_link_key(port_from, port_to);
        match self.links.get(&k) {
            Some(id) => Some(LinkId(*id)),
            None => None,
        }
    }

    /// The node that the port `port` belongs to, if `port` is a known port.
    pub fn get_node_of_port(&self, port: PortId) -> (r: Option<NodeId>)
        ensures
            r == (match self.items().get(port.0) {
                Some(Item::Port { node_id }) => Some(node_id),
                _ => None,
            }),
    {
        match self.items.get(&port.0) {
            Some(Item::Port { node_id }) => Some(*node_id),
            _ => None,
        }
    }
}

} // verus!
