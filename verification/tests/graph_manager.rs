use helvum::ids::{Direction, GtkMessage, LinkId, MediaType, NodeId, NodeType, PipewireMessage, PortId};
use helvum::manager::{Entry, GraphManager, Reaction};
use helvum::naming::proxy_port_id;
use helvum::preset::{ConnectionPreset, Preset};

fn node_added(m: &mut GraphManager, id: u32, name: &str, app: &str, node_type: Option<NodeType>) -> Reaction {
    let msg = PipewireMessage::NodeAdded {
        id: NodeId(id),
        name: name.to_string(),
        internal_name: format!("{}.internal", name),
        app_name: app.to_string(),
        node_type,
    };
    assert!(m.can_handle(&msg));
    m.handle_message(msg)
}

fn port_added(m: &mut GraphManager, id: u32, node: u32, name: &str, direction: Direction) -> Reaction {
    m.handle_message(PipewireMessage::PortAdded {
        id: PortId(id),
        node_id: NodeId(node),
        name: name.to_string(),
        direction,
    })
}

fn link_added(m: &mut GraphManager, id: u32, from: u32, to: u32) -> Reaction {
    let msg = PipewireMessage::LinkAdded {
        id: LinkId(id),
        port_from: PortId(from),
        port_to: PortId(to),
        active: true,
        media_type: MediaType::Audio,
    };
    assert!(m.can_handle(&msg));
    m.handle_message(msg)
}

fn node_handle(m: &GraphManager, id: u32) -> usize {
    match m.item(id) {
        Some(Entry::Node(h)) => h,
        other => panic!("no node under {}: {:?}", id, other),
    }
}

fn port_handle(m: &GraphManager, id: u32) -> usize {
    match m.item(id) {
        Some(Entry::Port(h)) => h,
        other => panic!("no port under {}: {:?}", id, other),
    }
}

/// A plain output node 1 with port 10 and a plain input node 2 with port 20.
fn two_plain_nodes() -> GraphManager {
    let mut m = GraphManager::new();
    node_added(&mut m, 1, "Microphone", "", Some(NodeType::Output));
    node_added(&mut m, 2, "Speakers", "", Some(NodeType::Input));
    port_added(&mut m, 10, 1, "capture_1", Direction::Output);
    port_added(&mut m, 20, 2, "playback_1", Direction::Input);
    m
}

#[test]
fn new_manager_is_empty() {
    let m = GraphManager::new();
    assert!(m.item_ids().is_empty());
    assert!(m.check_room());
    assert_eq!(m.canvas_ref().link_count(), 0);
}

#[test]
fn plain_node_is_added_under_its_id() {
    let mut m = GraphManager::new();
    let r = node_added(&mut m, 7, "Speakers", "", Some(NodeType::Input));
    assert!(r.requests.is_empty());
    assert_eq!(r.banner, None);
    assert_eq!(r.pending_check, None);
    let h = node_handle(&m, 7);
    let n = m.node(h);
    assert_eq!(n.node_name, "Speakers");
    assert_eq!(n.media_name, "Speakers.internal");
    assert!(!n.is_app);
    assert!(n.online);
    assert_eq!(n.node_type, Some(NodeType::Input));
    assert!(m.canvas_ref().has_node_exec(h));
}

#[test]
fn matrix_update_is_scheduled_once_until_done() {
    let mut m = GraphManager::new();
    let r1 = node_added(&mut m, 1, "A", "", None);
    assert!(r1.schedule_matrix_update);
    let r2 = node_added(&mut m, 2, "B", "", None);
    assert!(!r2.schedule_matrix_update);
    m.matrix_update_done();
    let r3 = m.handle_message(PipewireMessage::Connected);
    assert!(r3.schedule_matrix_update);
}

#[test]
fn streams_of_one_application_share_a_group() {
    let mut m = GraphManager::new();
    node_added(&mut m, 1, "Tab one", "Firefox", Some(NodeType::Output));
    node_added(&mut m, 2, "Tab two", "Firefox", Some(NodeType::Output));
    let h1 = node_handle(&m, 1);
    let h2 = node_handle(&m, 2);
    assert_eq!(h1, h2);
    let n = m.node(h1);
    assert_eq!(n.node_name, "Firefox");
    assert!(n.is_app);
    assert_eq!(n.sub_node_count(), 2);
    assert_eq!(n.sub_node_name(1), Some("Tab one".to_string()));
    assert_eq!(n.sub_node_name(2), Some("Tab two".to_string()));
}

#[test]
fn common_port_of_an_application_gets_a_master_port() {
    let mut m = GraphManager::new();
    node_added(&mut m, 1, "Tab", "Firefox", Some(NodeType::Output));
    port_added(&mut m, 10, 1, "output_FL", Direction::Output);
    let master = proxy_port_id("Firefox", "output_FL");
    assert!(master.0 >= 0xF000_0000);
    assert_eq!(m.get_master_port_id(PortId(10)), Some(master));
    let mh = port_handle(&m, master.0);
    let mp = m.port(mh);
    assert_eq!(mp.name, "output_FL");
    assert_eq!(mp.pw_id(), master);
    let n = m.node(node_handle(&m, 1));
    assert_eq!(n.master_ports().len(), 1);
    assert_eq!(n.ports().len(), 1);
}

#[test]
fn uncommon_port_gets_no_master_port() {
    let mut m = GraphManager::new();
    node_added(&mut m, 1, "Tab", "Firefox", Some(NodeType::Output));
    port_added(&mut m, 10, 1, "sidechain", Direction::Output);
    assert_eq!(m.get_master_port_id(PortId(10)), None);
    assert!(m.node(node_handle(&m, 1)).master_ports().is_empty());
}

#[test]
fn plain_node_port_gets_no_master_port() {
    let m = two_plain_nodes();
    assert_eq!(m.get_master_port_id(PortId(10)), None);
    assert_eq!(m.get_node_for_port_id(PortId(10)), Some(node_handle(&m, 1)));
    assert_eq!(m.get_node_for_port_id(PortId(99)), None);
}

#[test]
fn second_port_of_same_name_shares_the_master_and_asks_its_links() {
    let mut m = GraphManager::new();
    node_added(&mut m, 1, "Tab one", "Firefox", Some(NodeType::Output));
    node_added(&mut m, 2, "Tab two", "Firefox", Some(NodeType::Output));
    node_added(&mut m, 3, "Speakers", "", Some(NodeType::Input));
    port_added(&mut m, 10, 1, "output_FL", Direction::Output);
    port_added(&mut m, 30, 3, "playback_FL", Direction::Input);
    link_added(&mut m, 40, 10, 30);
    let r = port_added(&mut m, 11, 2, "output_FL", Direction::Output);
    assert_eq!(r.requests, vec![GtkMessage::EnsureLink { port_from: PortId(11), port_to: PortId(30) }]);
    assert_eq!(m.node(node_handle(&m, 1)).master_ports().len(), 1);
}

#[test]
fn plain_link_is_drawn() {
    let mut m = two_plain_nodes();
    link_added(&mut m, 30, 10, 20);
    assert_eq!(m.canvas_ref().link_count(), 1);
    let l = match m.item(30) {
        Some(Entry::Link(l)) => l,
        other => panic!("no link: {:?}", other),
    };
    let link = m.link(l);
    assert!(link.online);
    assert!(link.active);
    assert_eq!(link.output_port, Some(port_handle(&m, 10)));
    assert_eq!(link.input_port, Some(port_handle(&m, 20)));
}

#[test]
fn link_state_and_format_changes_reach_the_link() {
    let mut m = two_plain_nodes();
    link_added(&mut m, 30, 10, 20);
    m.handle_message(PipewireMessage::LinkStateChanged { id: LinkId(30), active: false });
    m.handle_message(PipewireMessage::LinkFormatChanged { id: LinkId(30), media_type: MediaType::Video });
    let l = match m.item(30) {
        Some(Entry::Link(l)) => l,
        other => panic!("no link: {:?}", other),
    };
    assert!(!m.link(l).active);
    assert_eq!(m.link(l).media_type, helvum::ids::PortMediaType::Video);
}

#[test]
fn removed_link_with_online_ports_waits_for_a_check() {
    let mut m = two_plain_nodes();
    link_added(&mut m, 30, 10, 20);
    let r = m.handle_message(PipewireMessage::LinkRemoved { id: LinkId(30) });
    let l = r.pending_check.expect("a check is due");
    assert!(!m.link(l).online);
    assert!(m.link(l).pending_check);
    assert_eq!(m.item(30), None);
    assert_eq!(m.canvas_ref().link_count(), 1);
    m.finish_pending_check(l);
    assert_eq!(m.canvas_ref().link_count(), 0);
}

#[test]
fn check_keeps_a_ghost_when_a_port_went_offline() {
    let mut m = two_plain_nodes();
    link_added(&mut m, 30, 10, 20);
    let r = m.handle_message(PipewireMessage::LinkRemoved { id: LinkId(30) });
    let l = r.pending_check.expect("a check is due");
    m.handle_message(PipewireMessage::PortRemoved { id: PortId(10), node_id: NodeId(1) });
    m.finish_pending_check(l);
    assert_eq!(m.canvas_ref().link_count(), 1);
    assert!(!m.link(l).pending_check);
    assert!(!m.link(l).online);
}

#[test]
fn link_removed_after_its_port_left_stays_as_ghost() {
    let mut m = two_plain_nodes();
    link_added(&mut m, 30, 10, 20);
    let out_h = port_handle(&m, 10);
    m.handle_message(PipewireMessage::PortRemoved { id: PortId(10), node_id: NodeId(1) });
    assert_eq!(m.item(10), None);
    assert!(!m.port(out_h).online);
    let r = m.handle_message(PipewireMessage::LinkRemoved { id: LinkId(30) });
    assert_eq!(r.pending_check, None);
    assert_eq!(m.canvas_ref().link_count(), 1);
    // The port left its node, so the ghost has nothing to be made again from.
    assert!(m.restore_links_for_port(out_h).is_empty());
}

#[test]
fn removed_port_leaves_its_node() {
    let mut m = two_plain_nodes();
    let h = port_handle(&m, 10);
    let n = node_handle(&m, 1);
    assert!(m.node(n).ports().contains(&h));
    m.handle_message(PipewireMessage::PortRemoved { id: PortId(10), node_id: NodeId(1) });
    assert!(!m.node(n).ports().contains(&h));
    assert!(!m.is_port_alive(h));
    assert!(m.port_grid(n).is_empty());
}

#[test]
fn ghost_of_an_offline_node_is_made_again_at_its_port() {
    let mut m = two_plain_nodes();
    link_added(&mut m, 30, 10, 20);
    let out_h = port_handle(&m, 10);
    m.handle_message(PipewireMessage::NodeRemoved { id: NodeId(1) });
    let r = m.handle_message(PipewireMessage::LinkRemoved { id: LinkId(30) });
    assert_eq!(r.pending_check, None);
    assert_eq!(
        m.restore_links_for_port(out_h),
        vec![GtkMessage::EnsureLink { port_from: PortId(10), port_to: PortId(20) }]
    );
}

#[test]
fn toggling_a_ghost_link_removes_it_without_asking() {
    let mut m = two_plain_nodes();
    link_added(&mut m, 30, 10, 20);
    m.handle_message(PipewireMessage::NodeRemoved { id: NodeId(1) });
    let r = m.handle_message(PipewireMessage::LinkRemoved { id: LinkId(30) });
    assert_eq!(r.pending_check, None);
    assert_eq!(m.canvas_ref().link_count(), 1);
    let r = m.toggle_link(PortId(10), PortId(20));
    assert!(r.is_empty());
    assert_eq!(m.canvas_ref().link_count(), 0);
}

#[test]
fn toggling_after_the_port_came_back_asks_pipewire() {
    let mut m = two_plain_nodes();
    link_added(&mut m, 30, 10, 20);
    m.handle_message(PipewireMessage::PortRemoved { id: PortId(10), node_id: NodeId(1) });
    m.handle_message(PipewireMessage::LinkRemoved { id: LinkId(30) });
    port_added(&mut m, 10, 1, "capture_1", Direction::Output);
    assert_eq!(m.canvas_ref().link_count(), 1);
    let r = m.toggle_link(PortId(10), PortId(20));
    assert_eq!(r, vec![GtkMessage::ToggleLink { port_from: PortId(10), port_to: PortId(20) }]);
}

#[test]
fn toggling_an_online_link_marks_it_for_deletion() {
    let mut m = two_plain_nodes();
    link_added(&mut m, 30, 10, 20);
    let r = m.toggle_link(PortId(20), PortId(10));
    assert_eq!(r, vec![GtkMessage::ToggleLink { port_from: PortId(20), port_to: PortId(10) }]);
    let removed = m.handle_message(PipewireMessage::LinkRemoved { id: LinkId(30) });
    assert_eq!(removed.pending_check, None);
    assert_eq!(m.canvas_ref().link_count(), 0);
}

#[test]
fn toggling_unlinked_ports_asks_pipewire() {
    let mut m = two_plain_nodes();
    let r = m.toggle_link(PortId(10), PortId(20));
    assert_eq!(r, vec![GtkMessage::ToggleLink { port_from: PortId(10), port_to: PortId(20) }]);
}

#[test]
fn link_through_a_master_port_is_drawn_once_and_removed_with_its_last_link() {
    let mut m = GraphManager::new();
    node_added(&mut m, 1, "Tab", "Firefox", Some(NodeType::Output));
    node_added(&mut m, 2, "Speakers", "", Some(NodeType::Input));
    port_added(&mut m, 10, 1, "output_FL", Direction::Output);
    port_added(&mut m, 20, 2, "playback_FL", Direction::Input);
    link_added(&mut m, 30, 10, 20);
    assert_eq!(m.canvas_ref().link_count(), 1);
    assert_eq!(m.item(30), None);
    let n = m.node(node_handle(&m, 1));
    assert_eq!(n.internal_links.len(), 1);
    let master = proxy_port_id("Firefox", "output_FL");
    let data = m.matrix_data();
    assert!(data.is_linked(master, PortId(20)));
    m.handle_message(PipewireMessage::LinkRemoved { id: LinkId(30) });
    assert_eq!(m.canvas_ref().link_count(), 0);
    assert!(m.node(node_handle(&m, 1)).internal_links.is_empty());
}

#[test]
fn toggling_at_a_master_port_reaches_the_real_ports() {
    let mut m = GraphManager::new();
    node_added(&mut m, 1, "Tab one", "Firefox", Some(NodeType::Output));
    node_added(&mut m, 2, "Speakers", "", Some(NodeType::Input));
    port_added(&mut m, 10, 1, "output_FL", Direction::Output);
    port_added(&mut m, 20, 2, "playback_FL", Direction::Input);
    let master = proxy_port_id("Firefox", "output_FL");
    let r = m.toggle_link(master, PortId(20));
    assert_eq!(r, vec![GtkMessage::ToggleLink { port_from: PortId(10), port_to: PortId(20) }]);
}

#[test]
fn link_inside_one_application_is_drawn_inside_the_group() {
    let mut m = GraphManager::new();
    node_added(&mut m, 1, "Recorder", "Studio", Some(NodeType::Output));
    node_added(&mut m, 2, "Mixer", "Studio", Some(NodeType::Input));
    port_added(&mut m, 10, 1, "out_left", Direction::Output);
    port_added(&mut m, 20, 2, "in_left", Direction::Input);
    link_added(&mut m, 30, 10, 20);
    assert_eq!(m.canvas_ref().link_count(), 0);
    let n = m.node(node_handle(&m, 1));
    let il = n.internal_links.get(&30).expect("internal link");
    assert_eq!((il.output_port_id, il.input_port_id), (10, 20));
}

#[test]
fn group_goes_offline_when_its_last_stream_leaves_and_comes_back() {
    let mut m = GraphManager::new();
    node_added(&mut m, 1, "Tab", "Firefox", Some(NodeType::Output));
    let h = node_handle(&m, 1);
    m.handle_message(PipewireMessage::NodeRemoved { id: NodeId(1) });
    assert_eq!(m.item(1), None);
    assert!(!m.node(h).online);
    assert!(m.is_node_alive(h));
    node_added(&mut m, 5, "New tab", "Firefox", Some(NodeType::Output));
    assert_eq!(node_handle(&m, 5), h);
    assert!(m.node(h).online);
}

#[test]
fn removed_plain_node_stays_drawn_offline() {
    let mut m = GraphManager::new();
    node_added(&mut m, 1, "Speakers", "", Some(NodeType::Input));
    let h = node_handle(&m, 1);
    m.handle_message(PipewireMessage::NodeRemoved { id: NodeId(1) });
    assert_eq!(m.item(1), None);
    assert!(!m.node(h).online);
    assert!(m.is_node_alive(h));
    assert!(m.canvas_ref().has_node_exec(h));
}

#[test]
fn deleting_an_offline_group_forgets_it() {
    let mut m = GraphManager::new();
    node_added(&mut m, 1, "Tab", "Firefox", Some(NodeType::Output));
    let h = node_handle(&m, 1);
    m.handle_message(PipewireMessage::NodeRemoved { id: NodeId(1) });
    m.delete_offline_node(h);
    assert!(!m.is_node_alive(h));
    node_added(&mut m, 5, "New tab", "Firefox", Some(NodeType::Output));
    assert_ne!(node_handle(&m, 5), h);
}

#[test]
fn detached_stream_gets_a_node_of_its_own() {
    let mut m = GraphManager::new();
    node_added(&mut m, 1, "Tab one", "Firefox", Some(NodeType::Output));
    node_added(&mut m, 2, "Tab two", "Firefox", Some(NodeType::Output));
    let group = node_handle(&m, 1);
    m.detach_node(2);
    let own = node_handle(&m, 2);
    assert_ne!(own, group);
    assert_eq!(m.node(own).node_name, "Tab two");
    assert!(m.node(own).is_detached);
    assert_eq!(m.node(group).sub_node_count(), 1);
    m.reattach_node(2);
    let back = node_handle(&m, 2);
    assert_eq!(m.node(back).node_name, "Firefox");
    assert!(!m.node(back).is_detached);
    assert!(m.node(back).is_app);
}

#[test]
fn node_name_change_updates_the_node() {
    let mut m = GraphManager::new();
    node_added(&mut m, 1, "Speakers", "", None);
    m.handle_message(PipewireMessage::NodeNameChanged {
        id: NodeId(1),
        name: "Headphones".to_string(),
        media_name: "Music".to_string(),
    });
    let n = m.node(node_handle(&m, 1));
    assert_eq!(n.node_name, "Headphones");
    assert_eq!(n.media_name, "Music");
}

#[test]
fn port_format_change_reaches_port_and_master() {
    let mut m = GraphManager::new();
    node_added(&mut m, 1, "Tab", "Firefox", Some(NodeType::Output));
    port_added(&mut m, 10, 1, "output_FL", Direction::Output);
    m.handle_message(PipewireMessage::PortFormatChanged { id: PortId(10), media_type: MediaType::Audio });
    let p = m.port(port_handle(&m, 10));
    assert_eq!(p.media_type, helvum::ids::PortMediaType::Audio);
    let master = proxy_port_id("Firefox", "output_FL");
    let mp = m.port(port_handle(&m, master.0));
    assert_eq!(mp.media_type, helvum::ids::PortMediaType::Audio);
}

#[test]
fn banner_follows_the_connection() {
    let mut m = GraphManager::new();
    assert_eq!(m.handle_message(PipewireMessage::Connecting).banner, Some(true));
    assert_eq!(m.handle_message(PipewireMessage::Connected).banner, Some(false));
}

#[test]
fn disconnect_forgets_everything() {
    let mut m = two_plain_nodes();
    link_added(&mut m, 30, 10, 20);
    m.handle_message(PipewireMessage::Disconnected);
    assert!(m.item_ids().is_empty());
    assert_eq!(m.canvas_ref().link_count(), 0);
}

fn conn(source_app: &str, source_port: &str, sink_app: &str, sink_port: &str) -> ConnectionPreset {
    ConnectionPreset {
        source_app: source_app.to_string(),
        source_port: source_port.to_string(),
        sink_app: sink_app.to_string(),
        sink_port: sink_port.to_string(),
    }
}

#[test]
fn preset_connection_is_made_when_its_ports_are_known() {
    let mut m = two_plain_nodes();
    let r = m.load_preset(Preset { connections: vec![conn("", "capture_1", "", "playback_1")] });
    assert_eq!(r, vec![GtkMessage::EnsureLink { port_from: PortId(10), port_to: PortId(20) }]);
    assert!(m.check_pending_links().is_empty());
}

#[test]
fn preset_connection_waits_for_its_ports() {
    let mut m = GraphManager::new();
    node_added(&mut m, 1, "Tab", "Firefox", Some(NodeType::Output));
    node_added(&mut m, 2, "Speakers", "", Some(NodeType::Input));
    let r = m.load_preset(Preset { connections: vec![conn("Firefox", "output_FL", "", "playback_FL")] });
    assert!(r.is_empty());
    port_added(&mut m, 20, 2, "playback_FL", Direction::Input);
    let r = port_added(&mut m, 10, 1, "output_FL", Direction::Output);
    // The real port and its master port both carry the name, so either may be taken.
    let master = proxy_port_id("Firefox", "output_FL");
    assert_eq!(r.requests.len(), 1);
    assert!(
        r.requests[0] == GtkMessage::EnsureLink { port_from: PortId(10), port_to: PortId(20) }
            || r.requests[0] == GtkMessage::EnsureLink { port_from: master, port_to: PortId(20) }
    );
    assert!(m.check_pending_links().is_empty());
}

#[test]
fn saved_preset_lists_each_link_by_application_and_port() {
    let mut m = two_plain_nodes();
    link_added(&mut m, 30, 10, 20);
    let p = m.save_preset();
    assert_eq!(p.connections, vec![conn("", "capture_1", "", "playback_1")]);
}

#[test]
fn saved_preset_skips_detached_nodes() {
    let mut m = GraphManager::new();
    node_added(&mut m, 1, "Tab one", "Firefox", Some(NodeType::Output));
    node_added(&mut m, 2, "Speakers", "", Some(NodeType::Input));
    port_added(&mut m, 10, 1, "sidechain", Direction::Output);
    port_added(&mut m, 20, 2, "playback_1", Direction::Input);
    link_added(&mut m, 30, 10, 20);
    assert_eq!(m.save_preset().connections, vec![conn("Firefox", "sidechain", "", "playback_1")]);
    m.detach_node(1);
    assert!(m.save_preset().connections.is_empty());
}

#[test]
fn matrix_lists_ports_sorted_by_node_then_port() {
    let mut m = GraphManager::new();
    node_added(&mut m, 1, "Zeta", "", Some(NodeType::Output));
    node_added(&mut m, 2, "Alpha", "", Some(NodeType::Output));
    node_added(&mut m, 3, "Speakers", "", Some(NodeType::Input));
    port_added(&mut m, 10, 1, "b", Direction::Output);
    port_added(&mut m, 11, 1, "a", Direction::Output);
    port_added(&mut m, 12, 2, "z", Direction::Output);
    port_added(&mut m, 20, 3, "in", Direction::Input);
    let d = m.matrix_data();
    let outs: Vec<(String, String, u32)> =
        d.out_ports.iter().map(|p| (p.node_name.clone(), p.port_name.clone(), p.pw_id.0)).collect();
    assert_eq!(
        outs,
        vec![
            ("Alpha".to_string(), "z".to_string(), 12),
            ("Zeta".to_string(), "a".to_string(), 11),
            ("Zeta".to_string(), "b".to_string(), 10),
        ]
    );
    assert_eq!(d.in_ports.len(), 1);
    assert_eq!(d.in_ports[0].pw_id, PortId(20));
    assert!(d.links.is_empty());
    assert_eq!(d.row_of(Some(PortId(11))), Some(1));
    assert_eq!(d.row_of(Some(PortId(20))), None);
    assert_eq!(d.in_rows(PortId(11)), vec![(PortId(20), false)]);
}

#[test]
fn link_to_an_unknown_port_cannot_be_handled() {
    let m = two_plain_nodes();
    let msg = PipewireMessage::LinkAdded {
        id: LinkId(30),
        port_from: PortId(10),
        port_to: PortId(99),
        active: true,
        media_type: MediaType::Audio,
    };
    assert!(m.can_handle(&msg));
    assert!(m.can_add_link(PortId(10), PortId(20)));
}

#[test]
fn handles_are_counted() {
    let mut m = two_plain_nodes();
    assert_eq!(m.node_slots(), 2);
    assert_eq!(m.port_slots(), 2);
    assert_eq!(m.link_slots(), 0);
    link_added(&mut m, 30, 10, 20);
    assert_eq!(m.link_slots(), 1);
}

#[test]
fn plain_node_grid_shows_its_ports_and_group_grid_its_master_ports() {
    let mut m = GraphManager::new();
    node_added(&mut m, 1, "Mixer", "", None);
    port_added(&mut m, 10, 1, "out_b", Direction::Output);
    port_added(&mut m, 11, 1, "in_a", Direction::Input);
    port_added(&mut m, 12, 1, "out_a", Direction::Output);
    let h = node_handle(&m, 1);
    let grid = m.port_grid(h);
    assert_eq!(
        grid,
        vec![
            (Some(port_handle(&m, 11)), Some(port_handle(&m, 12))),
            (None, Some(port_handle(&m, 10))),
        ]
    );

    node_added(&mut m, 2, "Tab", "Firefox", Some(NodeType::Output));
    port_added(&mut m, 20, 2, "output_FR", Direction::Output);
    port_added(&mut m, 21, 2, "output_FL", Direction::Output);
    port_added(&mut m, 22, 2, "sidechain", Direction::Output);
    let g = node_handle(&m, 2);
    let fl = port_handle(&m, proxy_port_id("Firefox", "output_FL").0);
    let fr = port_handle(&m, proxy_port_id("Firefox", "output_FR").0);
    assert_eq!(m.port_grid(g), vec![(None, Some(fl)), (None, Some(fr))]);
}

#[test]
fn drawn_link_takes_its_color_from_its_output_port_when_unknown() {
    let mut m = two_plain_nodes();
    m.handle_message(PipewireMessage::PortFormatChanged { id: PortId(10), media_type: MediaType::Video });
    m.handle_message(PipewireMessage::LinkAdded {
        id: LinkId(30),
        port_from: PortId(10),
        port_to: PortId(20),
        active: false,
        media_type: MediaType::Unknown,
    });
    let hl = helvum::canvas::Highlight::new();
    let d = m.links_to_draw(&hl);
    assert_eq!(d.len(), 1);
    assert_eq!(d[0].media_type, MediaType::Video);
    assert_eq!(d[0].output_port, Some(port_handle(&m, 10)));
    assert_eq!(d[0].input_port, Some(port_handle(&m, 20)));
    assert!(!d[0].active);
    assert!(d[0].online);
    assert!(d[0].highlighted);

    let mut other = helvum::canvas::Highlight::new();
    other.nodes.insert(999);
    assert!(!m.links_to_draw(&other)[0].highlighted);
    other.edges.insert(d[0].edge);
    assert!(m.links_to_draw(&other)[0].highlighted);
}

#[test]
fn link_waiting_for_its_check_is_not_drawn() {
    let mut m = two_plain_nodes();
    link_added(&mut m, 30, 10, 20);
    let hl = helvum::canvas::Highlight::new();
    assert_eq!(m.links_to_draw(&hl)[0].media_type, MediaType::Audio);
    let r = m.handle_message(PipewireMessage::LinkRemoved { id: LinkId(30) });
    assert!(r.pending_check.is_some());
    assert!(m.links_to_draw(&hl).is_empty());
    assert_eq!(m.canvas_ref().link_count(), 1);
}

#[test]
fn sub_node_grid_shows_the_ports_of_that_stream() {
    let mut m = GraphManager::new();
    node_added(&mut m, 1, "Tab one", "Firefox", Some(NodeType::Output));
    node_added(&mut m, 2, "Tab two", "Firefox", Some(NodeType::Output));
    port_added(&mut m, 10, 1, "output_FL", Direction::Output);
    port_added(&mut m, 11, 2, "output_FR", Direction::Output);
    port_added(&mut m, 12, 2, "input_x", Direction::Input);
    let g = node_handle(&m, 1);
    assert_eq!(m.sub_node_grid(g, 1), vec![(None, Some(port_handle(&m, 10)))]);
    assert_eq!(m.sub_node_grid(g, 2), vec![(Some(port_handle(&m, 12)), Some(port_handle(&m, 11)))]);
    assert!(m.sub_node_grid(g, 3).is_empty());
}

#[test]
fn group_shows_its_sub_nodes_by_id() {
    let mut m = GraphManager::new();
    node_added(&mut m, 9, "Tab nine", "Firefox", Some(NodeType::Output));
    node_added(&mut m, 3, "Tab three", "Firefox", Some(NodeType::Output));
    node_added(&mut m, 5, "Tab five", "Firefox", Some(NodeType::Output));
    node_added(&mut m, 7, "Speakers", "", Some(NodeType::Input));
    assert_eq!(m.shown_sub_nodes(node_handle(&m, 9)), vec![3, 5, 9]);
    assert!(m.shown_sub_nodes(node_handle(&m, 7)).is_empty());
    m.detach_node(5);
    assert!(m.shown_sub_nodes(node_handle(&m, 5)).is_empty());
}
