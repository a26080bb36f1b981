//! Properties that relate several operations of the library.
use vstd::prelude::*;
use crate::canvas::{reachable, Canvas};
use crate::collections::pair_key;
use crate::graph_items::{linkable, Port};
use crate::ids::{Direction, GtkMessage, LinkId, PortDirection, PortId};
use crate::layout::column;
use crate::manager::{deletion_key, GraphManager};
use crate::naming::{is_proxy_id, lemma_proxy_ids_are_marked, proxy_id_for};
use crate::ids::{NodeId, NodeType};
use crate::manager::Entry;
use crate::graph_items::subs_view;
use crate::pw_events::{ensure_request, toggle_request, LinkRequest};
use crate::pw_state::{Item, State};
use crate::pw_loop::{after_try, alternates, announcements, try_message, LoopState};
use crate::ids::PipewireMessage;

verus! {

/// Once the PipeWire side remembers a link under `id`, the pair of its ports leads to
/// `id`; once it forgets `id` again, the pair leads nowhere.
pub proof fn law_link_remembered_then_forgotten(a: State, b: State, c: State, id: u32, port_from: PortId, port_to: PortId, r: Option<Item>)
    requires
        State::inserted(a, b, id, Item::Link { port_from, port_to }),
        State::removed(b, c, id, r),
    ensures
        b.links().contains_key((port_from, port_to)),
        b.links()[(port_from, port_to)] == LinkId(id),
        r == Some(Item::Link { port_from, port_to }),
        !c.links().contains_key((port_from, port_to)),
        !c.items().contains_key(id),
{
}

/// Ensuring a link never destroys one; when no link joins the two ports, ensuring and
/// toggling ask for the same thing, and when one does, toggling destroys exactly that
/// link while ensuring asks nothing.
pub proof fn law_ensure_and_toggle(state: State, port_from: PortId, port_to: PortId)
    ensures
        !(ensure_request(state, port_from, port_to) is Destroy),
        !state.links().contains_key((port_from, port_to)) ==> ensure_request(state, port_from, port_to)
            == toggle_request(state, port_from, port_to),
        state.links().contains_key((port_from, port_to)) ==> ensure_request(state, port_from, port_to) == LinkRequest::AlreadyLinked
            && toggle_request(state, port_from, port_to) == LinkRequest::Destroy(state.links()[(port_from, port_to)]),
{
}

/// A link can be drawn between two ports exactly when it can be drawn the other way,
/// and never from a port to itself.
pub proof fn law_linkable_symmetric(a: Port, b: Port)
    ensures
        linkable(a, b) == linkable(b, a),
        !linkable(a, a),
{
    crate::graph_items::lemma_linkable_symmetric(a, b);
}

/// The deletion the user asks for by toggling the link between two ports is found
/// whichever way round PipeWire later names its ends, and different pairs of ports
/// have different deletions.
pub proof fn law_deletion_key_symmetric(x: u32, y: u32, z: u32, w: u32)
    ensures
        deletion_key(x, y) == deletion_key(y, x),
        deletion_key(x, y) == deletion_key(z, w) ==> (x == z && y == w) || (x == w && y == z),
{
    crate::collections::lemma_pair_key_injective(x, y, z, w);
    crate::collections::lemma_pair_key_injective(y, x, z, w);
    crate::collections::lemma_pair_key_injective(x, y, w, z);
    crate::collections::lemma_pair_key_injective(y, x, w, z);
}

/// A master port that the graph makes carries an id marked as a master port id, so a
/// request to toggle a link at it is sent to the ports it stands for.
pub proof fn law_new_master_port_is_marked(a: GraphManager, b: GraphManager, n: usize, name: Seq<char>, direction: Direction,
    id: PortId, r: Seq<GtkMessage>)
    requires
        GraphManager::master_step(a, b, n, name, direction, id, r),
        a.wants_master(n, name),
        !a.has_master_named(n, name),
    ensures
        is_proxy_id(b.ports()[a.ports().len() as int].pipewire_id),
{
    crate::naming::lemma_proxy_id_for_marked(a.nodes()[n as int].app_name@, name);
}

/// An application group never holds two master ports of the same name.
pub proof fn law_master_names_unique(m: GraphManager, n: int, m1: usize, m2: usize)
    requires
        m.wf(),
        0 <= n < m.nodes().len(),
        m.nodes()[n].master_ports@.contains(m1),
        m.nodes()[n].master_ports@.contains(m2),
        m.ports()[m1 as int].name@ == m.ports()[m2 as int].name@,
    ensures
        m1 == m2,
{
    m.lemma_masters_unique_at(n);
}

/// Making the waiting connections asks for each one that it takes off the list and
/// keeps every other: what is asked for and what still waits add up to what waited,
/// and nothing that could be made is left waiting.
pub proof fn law_pending_partition(a: GraphManager, b: GraphManager, r: Seq<GtkMessage>)
    requires
        GraphManager::pending_step(a, b, r),
    ensures
        r.len() + b.pending_view().len() == a.pending_view().len(),
        forall|i: int| 0 <= i < b.pending_view().len() ==> !a.can_apply(#[trigger] b.pending_view()[i]),
{
    let f = |c: (Seq<char>, Seq<char>, Seq<char>, Seq<char>)| a.can_apply(c);
    let g = |c: (Seq<char>, Seq<char>, Seq<char>, Seq<char>)| !a.can_apply(c);
    lemma_filter_partition(a.pending_view(), f, g);
    assert(GraphManager::applicable(a) == a.pending_view().filter(f));
    a.pending_view().filter_lemma(g);
}

proof fn lemma_filter_partition<A>(s: Seq<A>, f: spec_fn(A) -> bool, g: spec_fn(A) -> bool)
    requires
        forall|x: A| #[trigger] g(x) == !f(x),
    ensures
        s.filter(f).len() + s.filter(g).len() == s.len(),
    decreases s.len(),
{
    reveal(Seq::filter);
    if s.len() > 0 {
        lemma_filter_partition(s.drop_last(), f, g);
    }
}

/// Loading connections never makes one wait twice: when no connection waits twice
/// before, none does after; and loading the same connections again adds nothing.
pub proof fn law_load_no_duplicates(p: Seq<(Seq<char>, Seq<char>, Seq<char>, Seq<char>)>,
    cs: Seq<(Seq<char>, Seq<char>, Seq<char>, Seq<char>)>)
    requires
        p.no_duplicates(),
    ensures
        GraphManager::with_connections(p, cs).no_duplicates(),
        GraphManager::with_connections(GraphManager::with_connections(p, cs), cs) == GraphManager::with_connections(p, cs),
    decreases cs.len(),
{
    if cs.len() > 0 {
        law_load_no_duplicates(p, cs.drop_last());
        let q = GraphManager::with_connections(p, cs.drop_last());
        if !q.contains(cs.last()) {
            assert forall|i: int, j: int| 0 <= i < j < q.push(cs.last()).len() implies q.push(cs.last())[i] != q.push(cs.last())[j] by {
                if j == q.len() {
                    assert(q.contains(q[i]));
                }
            }
        }
        lemma_with_connections_contains(p, cs);
        lemma_adding_present(GraphManager::with_connections(p, cs), cs);
    }
}

proof fn lemma_with_connections_contains(p: Seq<(Seq<char>, Seq<char>, Seq<char>, Seq<char>)>,
    cs: Seq<(Seq<char>, Seq<char>, Seq<char>, Seq<char>)>)
    ensures
        forall|i: int| 0 <= i < cs.len() ==> GraphManager::with_connections(p, cs).contains(#[trigger] cs[i]),
        forall|x| #[trigger] p.contains(x) ==> GraphManager::with_connections(p, cs).contains(x),
    decreases cs.len(),
{
    if cs.len() > 0 {
        lemma_with_connections_contains(p, cs.drop_last());
        let q = GraphManager::with_connections(p, cs.drop_last());
        assert forall|i: int| 0 <= i < cs.len() implies GraphManager::with_connections(p, cs).contains(#[trigger] cs[i]) by {
            if i < cs.len() - 1 {
                assert(cs.drop_last()[i] == cs[i]);
                assert(q.contains(cs[i]));
                if !q.contains(cs.last()) {
                    let k = choose|k: int| 0 <= k < q.len() && q[k] == cs[i];
                    assert(q.push(cs.last())[k] == cs[i]);
                }
            } else if !q.contains(cs.last()) {
                assert(q.push(cs.last())[q.len() as int] == cs.last());
            }
        }
        assert forall|x| #[trigger] p.contains(x) implies GraphManager::with_connections(p, cs).contains(x) by {
            assert(q.contains(x));
            if !q.contains(cs.last()) {
                let k = choose|k: int| 0 <= k < q.len() && q[k] == x;
                assert(q.push(cs.last())[k] == x);
            }
        }
    }
}

/// Adding connections that all wait already changes nothing.
proof fn lemma_adding_present(p: Seq<(Seq<char>, Seq<char>, Seq<char>, Seq<char>)>,
    cs: Seq<(Seq<char>, Seq<char>, Seq<char>, Seq<char>)>)
    requires
        forall|i: int| 0 <= i < cs.len() ==> p.contains(#[trigger] cs[i]),
    ensures
        GraphManager::with_connections(p, cs) == p,
    decreases cs.len(),
{
    if cs.len() > 0 {
        assert forall|i: int| 0 <= i < cs.drop_last().len() implies p.contains(#[trigger] cs.drop_last()[i]) by {
            assert(cs.drop_last()[i] == cs[i]);
        }
        lemma_adding_present(p, cs.drop_last());
        assert(p.contains(cs[cs.len() - 1]));
    }
}

/// Drawing a link and then forgetting it gives back the drawn edges and the lookup of
/// links, when the link was not drawn before.
pub proof fn law_add_then_remove_link(a: Canvas, b: Canvas, c: Canvas, link: usize, out_node: usize, in_node: usize)
    requires
        a.has_node(out_node),
        a.has_node(in_node),
        !a.link_index().contains_key(link),
        Canvas::link_added(a, b, link, Some(out_node), Some(in_node)),
        Canvas::link_removed(b, c, link),
    ensures
        c.edges() == a.edges(),
        c.link_index() == a.link_index(),
        c.nodes() == a.nodes(),
{
    let e = choose|e: u32| {
        &&& !a.edges().contains_key(e)
        &&& #[trigger] b.edges() == a.edges().insert(e, (a.node_index()[out_node], a.node_index()[in_node], link))
        &&& b.link_index() == a.link_index().insert(link, e)
    };
    assert(c.edges() =~= a.edges());
    assert(c.link_index() =~= a.link_index());
}

/// The node under the pointer is always among the highlighted nodes when it stands on
/// the canvas.
pub proof fn law_highlight_holds_start(c: Canvas, nodes: Set<u32>, edges: Set<u32>, h: usize)
    requires
        c.wf(),
        c.has_node(h),
    ensures
        c.highlight_after(nodes, edges, Some(h)).0.contains(c.node_index()[h]),
{
    let i = c.node_index()[h];
    let p = seq![i];
    assert(crate::canvas::is_walk(c.edges(), p));
    assert(reachable(c.edges(), i, i));
}

/// The two columns of a port grid share no port, and together they hold every port
/// listed.
pub proof fn law_columns_partition(ports: Seq<Port>, hs: Seq<usize>, ins: Seq<usize>, outs: Seq<usize>)
    requires
        column(ports, hs, PortDirection::Input, ins),
        column(ports, hs, PortDirection::Output, outs),
    ensures
        ins.to_set().disjoint(outs.to_set()),
        ins.to_set() + outs.to_set() == hs.to_set(),
{
    assert(ins.to_set() + outs.to_set() =~= hs.to_set());
}


/// A run of failed tries to connect, from a state that announced no failure yet,
/// announces once that a connection is being made; the success that ends the run
/// announces the connection; nothing is announced in between.
pub proof fn law_connection_announced_once(s: LoopState, k: nat)
    requires
        !s.is_connecting,
        k >= 1,
    ensures
        announcements(s, Seq::new(k, |i: int| false).push(true)) == seq![Some(PipewireMessage::Connecting)]
            + Seq::new((k - 1) as nat, |i: int| None::<PipewireMessage>) + seq![Some(PipewireMessage::Connected)],
{
    let tries = Seq::new(k, |i: int| false).push(true);
    let rest = tries.drop_first();
    assert(rest =~= Seq::new((k - 1) as nat, |i: int| false).push(true));
    lemma_announcements_while_connecting(after_try(s, false), (k - 1) as nat);
    assert(try_message(s, tries[0]) == Some(PipewireMessage::Connecting));
    assert(announcements(s, tries) == seq![try_message(s, tries[0])] + announcements(after_try(s, tries[0]), rest));
    assert(announcements(s, tries) =~= seq![Some(PipewireMessage::Connecting)]
        + Seq::new((k - 1) as nat, |i: int| None::<PipewireMessage>) + seq![Some(PipewireMessage::Connected)]);
}

proof fn lemma_announcements_while_connecting(s: LoopState, k: nat)
    requires
        s.is_connecting,
    ensures
        announcements(s, Seq::new(k, |i: int| false).push(true)) == Seq::new(k, |i: int| None::<PipewireMessage>)
            + seq![Some(PipewireMessage::Connected)],
    decreases k,
{
    let tries = Seq::new(k, |i: int| false).push(true);
    if k == 0 {
        assert(tries =~= seq![true]);
        assert(tries.drop_first() =~= Seq::<bool>::empty());
        assert(announcements(after_try(s, true), tries.drop_first()) =~= Seq::empty());
        assert(announcements(s, tries) =~= Seq::new(k, |i: int| None::<PipewireMessage>) + seq![Some(PipewireMessage::Connected)]);
    } else {
        let rest = tries.drop_first();
        assert(rest =~= Seq::new((k - 1) as nat, |i: int| false).push(true));
        lemma_announcements_while_connecting(after_try(s, false), (k - 1) as nat);
        assert(announcements(s, tries) == seq![try_message(s, tries[0])] + announcements(after_try(s, tries[0]), rest));
        assert(announcements(s, tries) =~= Seq::new(k, |i: int| None::<PipewireMessage>) + seq![Some(PipewireMessage::Connected)]);
    }
}

/// Over any run of tries to connect, "connecting" and "connected" strictly alternate:
/// "connecting" is announced only when no failure is outstanding, "connected" only
/// when one is, and nothing else is announced.
pub proof fn law_connection_announcements_alternate(s: LoopState, tries: Seq<bool>)
    ensures
        alternates(announcements(s, tries), s.is_connecting),
    decreases tries.len(),
{
    if tries.len() > 0 {
        let a = announcements(s, tries);
        let next = after_try(s, tries[0]);
        law_connection_announcements_alternate(next, tries.drop_first());
        assert(a.drop_first() =~= announcements(next, tries.drop_first()));
        assert(a[0] == try_message(s, tries[0]));
    }
}

/// No application has both a group and an offline node, and every group and every
/// offline node is kept under the name of its own application.
pub proof fn law_groups_and_offline_apart(m: GraphManager, k: Seq<char>)
    requires
        m.wf(),
    ensures
        m.groups().contains_key(k) ==> !m.offline().contains_key(k) && m.nodes()[m.groups()[k] as int].app_name@ == k,
        m.offline().contains_key(k) ==> m.nodes()[m.offline()[k] as int].app_name@ == k,
{
    m.lemma_groups_apart(k);
}

/// A node that went offline waits to be revived: when a new stream of its
/// application shows up while the application has no group, that same node becomes
/// the group again, online, with the stream among its sub-nodes and kept under the
/// stream's id, and no node is drawn anew. (An id that is also a master port id may
/// be taken over by a master port that the revival makes, so those ids are left out.)
pub proof fn law_offline_node_revived(a: GraphManager, b: GraphManager, id: NodeId, name: Seq<char>,
    internal_name: Seq<char>, app_name: Seq<char>, node_type: Option<NodeType>, r: Seq<GtkMessage>)
    requires
        a.wf(),
        app_name.len() > 0,
        a.offline().contains_key(app_name),
        !a.groups().contains_key(app_name),
        !a.items().contains_key(id.0),
        !a.detached().contains(id.0),
        !is_proxy_id(id.0),
        GraphManager::add_node_step(a, b, id, name, internal_name, app_name, node_type, false, r),
    ensures
        b.items().contains_key(id.0) && b.items()[id.0] == Entry::Node(a.offline()[app_name]),
        b.nodes()[a.offline()[app_name] as int].online,
        b.nodes()[a.offline()[app_name] as int].sub_nodes@.contains_key(id.0),
        b.nodes()[a.offline()[app_name] as int].sub_nodes@[id.0].online,
        !b.offline().contains_key(app_name),
        b.groups().contains_key(app_name) && b.groups()[app_name] == a.offline()[app_name],
        b.canvas().nodes().len() == a.canvas().nodes().len(),
{
    let o = a.offline()[app_name];
    a.lemma_groups_apart(app_name);
    let v = choose|v: GraphManager| {
        &&& #[trigger] GraphManager::vacated(a, v, id.0)
        &&& v.wf()
        &&& GraphManager::attached(v, b, id.0, name, internal_name, app_name, node_type, false, r)
    };
    assert(v == a);
    let (m, hs, states, rs) = choose|m: GraphManager, hs: Seq<usize>, states: Seq<GraphManager>, rs: Seq<Seq<GtkMessage>>| {
        &&& GraphManager::revived(a, m, id.0, name, app_name, o)
        &&& m.wf()
        &&& hs.to_set() == m.nodes()[o as int].ports@
        &&& hs.no_duplicates()
        &&& GraphManager::master_chain(states, o, hs, rs)
        &&& states[0] == m
        &&& states.last() == b
        &&& r == rs.flatten()
    };
    a.lemma_handles_in_range();
    assert(o < a.nodes().len());
    GraphManager::lemma_master_chain_keeps(states, o, hs, rs, hs.len() as int, id.0);
    GraphManager::lemma_master_chain_frame(states, o, hs, rs, hs.len() as int);
    assert(states[hs.len() as int] == b);
    assert(subs_view(m.nodes()[o as int].sub_nodes@).contains_key(id.0));
    assert(subs_view(m.nodes()[o as int].sub_nodes@)[id.0].1);
}

/// `msg` toggles the link between the port with id `other` and a port `h` of a group `n`
/// that is not detached and has a master port `m` of id `proxy`, where `h` is one of
/// the group's ports and carries the name and the direction of `m`; `h` is the `from`
/// end when `port_is_from`.
pub open spec fn namesake_toggle(a: GraphManager, proxy: u32, other: u32, port_is_from: bool, msg: GtkMessage) -> bool {
    exists|n: usize, m: usize, h: usize|
        #![trigger a.nodes()[n as int].master_ports@.contains(m), a.nodes()[n as int].ports@.contains(h)]
        {
        &&& n < a.nodes().len()
        &&& !a.nodes()[n as int].is_detached
        &&& a.nodes()[n as int].master_ports@.contains(m)
        &&& m < a.ports().len()
        &&& a.ports()[m as int].pipewire_id == proxy
        &&& a.nodes()[n as int].ports@.contains(h)
        &&& h < a.ports().len()
        &&& a.ports()[h as int].name@ == a.ports()[m as int].name@
        &&& a.ports()[h as int].direction == a.ports()[m as int].direction
        &&& msg == (if port_is_from {
            GtkMessage::ToggleLink { port_from: PortId(a.ports()[h as int].pipewire_id), port_to: PortId(other) }
        } else {
            GtkMessage::ToggleLink { port_from: PortId(other), port_to: PortId(a.ports()[h as int].pipewire_id) }
        })
    }
}

proof fn lemma_flatten_namesakes(a: GraphManager, proxy: u32, other: u32, port_is_from: bool, rs: Seq<Seq<GtkMessage>>)
    requires
        forall|k: int, j: int| 0 <= k < rs.len() && 0 <= j < rs[k].len() ==> namesake_toggle(a, proxy, other, port_is_from, #[trigger] rs[k][j]),
    ensures
        forall|i: int| 0 <= i < rs.flatten().len() ==> namesake_toggle(a, proxy, other, port_is_from, #[trigger] rs.flatten()[i]),
    decreases rs.len(),
{
    if rs.len() > 0 {
        let rest = rs.drop_first();
        assert forall|k: int, j: int| 0 <= k < rest.len() && 0 <= j < rest[k].len()
            implies namesake_toggle(a, proxy, other, port_is_from, #[trigger] rest[k][j]) by {
            assert(rest[k] == rs[k + 1]);
        }
        lemma_flatten_namesakes(a, proxy, other, port_is_from, rest);
        assert(rs.flatten() == rs.first() + rest.flatten());
        assert forall|i: int| 0 <= i < rs.flatten().len() implies namesake_toggle(a, proxy, other, port_is_from, #[trigger] rs.flatten()[i]) by {
            if i < rs.first().len() {
                assert(rs.flatten()[i] == rs[0][i]);
            } else {
                assert(rs.flatten()[i] == rest.flatten()[i - rs.first().len()]);
            }
        }
    }
}

proof fn lemma_master_toggle(a: GraphManager, b: GraphManager, proxy: u32, other: u32, port_is_from: bool, r: Seq<GtkMessage>)
    requires
        GraphManager::proxy_toggle(a, b, proxy, other, port_is_from, r),
    ensures
        forall|i: int| 0 <= i < r.len() ==> namesake_toggle(a, proxy, other, port_is_from, #[trigger] r[i]),
{
    if exists|n: usize, m: usize| #[trigger] a.proxy_master(n, m, proxy) {
        let (n, m, hs, states, rs) = choose|n: usize, m: usize, hs: Seq<usize>, states: Seq<GraphManager>, rs: Seq<Seq<GtkMessage>>| {
            &&& a.proxy_master(n, m, proxy)
            &&& hs.to_set() == a.stream_ports(n, m)
            &&& hs.no_duplicates()
            &&& GraphManager::toggle_chain(states, hs, other, port_is_from, rs)
            &&& states[0] == a
            &&& states.last() == b
            &&& r == rs.flatten()
        };
        assert forall|k: int, j: int| 0 <= k < rs.len() && 0 <= j < rs[k].len()
            implies namesake_toggle(a, proxy, other, port_is_from, #[trigger] rs[k][j]) by {
            assert(GraphManager::toggle_link_of(states, hs, other, port_is_from, rs, k));
            GraphManager::lemma_toggle_chain_frame(states, hs, other, port_is_from, rs, k);
            let h = hs[k];
            assert(hs.to_set().contains(h));
            assert(a.stream_ports(n, m).contains(h));
            let pid = a.ports()[h as int].pipewire_id;
            assert(states[k].ports()[h as int].pipewire_id == pid);
            if port_is_from {
                assert(rs[k] == GraphManager::toggle_request(pid, other));
            } else {
                assert(rs[k] == GraphManager::toggle_request(other, pid));
            }
            assert(a.nodes()[n as int].master_ports@.contains(m));
            assert(a.nodes()[n as int].ports@.contains(h));
        }
        lemma_flatten_namesakes(a, proxy, other, port_is_from, rs);
    }
}

/// Toggling at a master port reaches only ports of a group that has that master port:
/// each request toggles the link between the other end and one of the group's ports
/// that carries the master port's name and direction.
pub proof fn law_master_toggle_reaches_namesakes(a: GraphManager, b: GraphManager, from: u32, to: u32, r: Seq<GtkMessage>)
    requires
        GraphManager::toggle_link_step(a, b, from, to, r),
    ensures
        is_proxy_id(from) ==> forall|i: int| 0 <= i < r.len() ==> namesake_toggle(a, from, to, true, #[trigger] r[i]),
        !is_proxy_id(from) && is_proxy_id(to) ==> forall|i: int| 0 <= i < r.len()
            ==> namesake_toggle(a, to, from, false, #[trigger] r[i]),
{
    if is_proxy_id(from) {
        lemma_master_toggle(a, b, from, to, true, r);
    } else if is_proxy_id(to) {
        lemma_master_toggle(a, b, to, from, false, r);
    }
}

/// Every highlighted edge joins two highlighted nodes: when that holds before the
/// pointer moves, it holds after.
pub proof fn law_highlighted_edges_between_highlighted_nodes(c: Canvas, nodes: Set<u32>, edges: Set<u32>, node: Option<usize>)
    requires
        forall|e: u32| #[trigger] edges.contains(e) ==> c.edges().contains_key(e) && nodes.contains(c.edges()[e].0)
            && nodes.contains(c.edges()[e].1),
    ensures
        forall|e: u32| #[trigger] c.highlight_after(nodes, edges, node).1.contains(e) ==> c.edges().contains_key(e)
            && c.highlight_after(nodes, edges, node).0.contains(c.edges()[e].0)
            && c.highlight_after(nodes, edges, node).0.contains(c.edges()[e].1),
{
}

/// Whether two ports can be linked depends on their directions alone: exactly when
/// they differ, whatever names, media types or states the ports carry.
pub proof fn law_linkable_is_direction(a: Port, b: Port)
    ensures
        linkable(a, b) == (a.direction != b.direction),
{
}

/// The port `h` is known under its own id, goes in the direction `dir`, is named
/// `port`, and its node, known under the port's node id, belongs to the application
/// `app`.
pub open spec fn app_port(a: GraphManager, h: usize, app: Seq<char>, port: Seq<char>, dir: PortDirection) -> bool {
    &&& h < a.ports().len()
    &&& a.items().get(a.ports()[h as int].pipewire_id) == Some(Entry::Port(h))
    &&& a.ports()[h as int].direction == dir
    &&& a.ports()[h as int].name@ == port
    &&& match a.items().get(a.ports()[h as int].node_id) {
        Some(Entry::Node(n)) => n < a.nodes().len() && a.nodes()[n as int].app_name@ == app,
        _ => false,
    }
}

/// `msg` links an output port of the application and port named first in the
/// connection `c` to an input port of the application and port named second.
pub open spec fn saved_link(a: GraphManager, c: (Seq<char>, Seq<char>, Seq<char>, Seq<char>), msg: GtkMessage) -> bool {
    exists|s: usize, k: usize| #[trigger] app_port(a, s, c.0, c.1, PortDirection::Output)
        && #[trigger] app_port(a, k, c.2, c.3, PortDirection::Input)
        && msg == (GtkMessage::EnsureLink {
            port_from: PortId(a.ports()[s as int].pipewire_id),
            port_to: PortId(a.ports()[k as int].pipewire_id),
        })
}

/// `msg` is a `saved_link` of one of the connections `conns`.
pub open spec fn saved_link_of_one(a: GraphManager, conns: Seq<(Seq<char>, Seq<char>, Seq<char>, Seq<char>)>, msg: GtkMessage) -> bool {
    exists|c: (Seq<char>, Seq<char>, Seq<char>, Seq<char>)| conns.contains(c) && #[trigger] saved_link(a, c, msg)
}

/// Making the waiting connections links only ports of the applications that a waiting
/// connection names: each request joins an output port of the connection's source
/// application and port name to an input port of its sink application and port name.
pub proof fn law_saved_links_match_apps(a: GraphManager, b: GraphManager, r: Seq<GtkMessage>)
    requires
        GraphManager::pending_step(a, b, r),
    ensures
        forall|i: int| 0 <= i < r.len() ==> saved_link_of_one(a, a.pending_view(), #[trigger] r[i]),
{
    let f = |c: (Seq<char>, Seq<char>, Seq<char>, Seq<char>)| a.can_apply(c);
    assert forall|i: int| 0 <= i < r.len() implies saved_link_of_one(a, a.pending_view(), #[trigger] r[i]) by {
        let c = GraphManager::applicable(a)[i];
        assert(GraphManager::applicable(a) == a.pending_view().filter(f));
        assert(GraphManager::applicable(a).contains(c));
        a.pending_view().lemma_filter_contains_rev(f, c);
        assert(a.preset_request(c, r[i]));
        let (s, k) = choose|s: usize, k: usize| #[trigger] a.preset_port(s, c.0, c.1, PortDirection::Output)
            && #[trigger] a.preset_port(k, c.2, c.3, PortDirection::Input)
            && r[i] == (GtkMessage::EnsureLink {
                port_from: PortId(a.ports()[s as int].pipewire_id),
                port_to: PortId(a.ports()[k as int].pipewire_id),
            });
        assert(app_port(a, s, c.0, c.1, PortDirection::Output));
        assert(app_port(a, k, c.2, c.3, PortDirection::Input));
        assert(saved_link(a, c, r[i]));
    }
}

proof fn lemma_with_connections_from(p: Seq<(Seq<char>, Seq<char>, Seq<char>, Seq<char>)>,
    cs: Seq<(Seq<char>, Seq<char>, Seq<char>, Seq<char>)>, x: (Seq<char>, Seq<char>, Seq<char>, Seq<char>))
    requires
        GraphManager::with_connections(p, cs).contains(x),
    ensures
        p.contains(x) || cs.contains(x),
    decreases cs.len(),
{
    if cs.len() > 0 {
        let q = GraphManager::with_connections(p, cs.drop_last());
        if q.contains(x) {
            lemma_with_connections_from(p, cs.drop_last(), x);
            if cs.drop_last().contains(x) {
                let k = choose|k: int| 0 <= k < cs.drop_last().len() && cs.drop_last()[k] == x;
                assert(cs[k] == x);
            }
        } else {
            let k = choose|k: int| 0 <= k < q.push(cs.last()).len() && q.push(cs.last())[k] == x;
            if k < q.len() {
                assert(q[k] == x);
            }
            assert(cs[cs.len() - 1] == x);
        }
    }
}

/// Loading a preset links only ports of the applications that a connection names,
/// whether it waited before or comes with the preset.
pub proof fn law_loaded_links_match_apps(a: GraphManager, b: GraphManager,
    cs: Seq<(Seq<char>, Seq<char>, Seq<char>, Seq<char>)>, r: Seq<GtkMessage>)
    requires
        GraphManager::load_step(a, b, cs, r),
    ensures
        forall|i: int| 0 <= i < r.len() ==> saved_link_of_one(a, a.pending_view() + cs, #[trigger] r[i]),
{
    let m = choose|m: GraphManager| {
        &&& #[trigger] GraphManager::pending_step(m, b, r)
        &&& m.wf()
        &&& m.pending_view() == GraphManager::with_connections(a.pending_view(), cs)
        &&& m.nodes() == a.nodes()
        &&& m.ports() == a.ports()
        &&& m.links() == a.links()
        &&& m.items() == a.items()
        &&& m.canvas() == a.canvas()
        &&& m.groups() == a.groups()
        &&& m.offline() == a.offline()
        &&& m.masters() == a.masters()
        &&& m.real_masters() == a.real_masters()
        &&& m.internal_nodes() == a.internal_nodes()
        &&& m.deletions() == a.deletions()
        &&& m.detached() == a.detached()
        &&& m.matrix_pending() == a.matrix_pending()
    };
    law_saved_links_match_apps(m, b, r);
    assert forall|i: int| 0 <= i < r.len() implies saved_link_of_one(a, a.pending_view() + cs, #[trigger] r[i]) by {
        assert(saved_link_of_one(m, m.pending_view(), r[i]));
        let c = choose|c: (Seq<char>, Seq<char>, Seq<char>, Seq<char>)| m.pending_view().contains(c) && #[trigger] saved_link(m, c, r[i]);
        lemma_with_connections_from(a.pending_view(), cs, c);
        let (s, k) = choose|s: usize, k: usize| #[trigger] app_port(m, s, c.0, c.1, PortDirection::Output)
            && #[trigger] app_port(m, k, c.2, c.3, PortDirection::Input)
            && r[i] == (GtkMessage::EnsureLink {
                port_from: PortId(m.ports()[s as int].pipewire_id),
                port_to: PortId(m.ports()[k as int].pipewire_id),
            });
        assert(app_port(a, s, c.0, c.1, PortDirection::Output));
        assert(app_port(a, k, c.2, c.3, PortDirection::Input));
        assert(saved_link(a, c, r[i]));
        let all = a.pending_view() + cs;
        if a.pending_view().contains(c) {
            let k = choose|k: int| 0 <= k < a.pending_view().len() && a.pending_view()[k] == c;
            assert(all[k] == c);
        } else {
            let k = choose|k: int| 0 <= k < cs.len() && cs[k] == c;
            assert(all[a.pending_view().len() + k] == c);
        }
        assert(all.contains(c));
    }
}

} // verus!
