use helvum::canvas::{Canvas, Highlight};
use helvum::graph_items::Port;
use helvum::ids::{Direction, GtkMessage, LinkId, MediaType, NodeId, NodeType, PipewireMessage, PortDirection, PortId,
    PortMediaType};
use helvum::layout::port_rows;
use helvum::manager::{make_deletion_key, Entry, GraphManager};
use helvum::naming::proxy_port_id;
use helvum::preset::{ConnectionPreset, Preset};
use helvum::pw_events::{ensure_link, toggle_link, LinkRequest};
use helvum::pw_state::{Item, State};

fn add_node(m: &mut GraphManager, id: u32, name: &str, app: &str) {
    m.handle_message(PipewireMessage::NodeAdded {
        id: NodeId(id),
        name: name.to_string(),
        internal_name: name.to_string(),
        app_name: app.to_string(),
        node_type: None,
    });
}

fn add_port(m: &mut GraphManager, id: u32, node: u32, name: &str, direction: Direction) -> Vec<GtkMessage> {
    m.handle_message(PipewireMessage::PortAdded { id: PortId(id), node_id: NodeId(node), name: name.to_string(), direction })
        .requests
}

fn preset(source_port: &str, sink_port: &str) -> Preset {
    Preset {
        connections: vec![ConnectionPreset {
            source_app: "Player".to_string(),
            source_port: source_port.to_string(),
            sink_app: "".to_string(),
            sink_port: sink_port.to_string(),
        }],
    }
}

#[test]
fn law_example_link_remembered_then_forgotten() {
    let mut s = State::new();
    s.insert(5, Item::Link { port_from: PortId(1), port_to: PortId(2) });
    assert_eq!(s.get_link_id(PortId(1), PortId(2)), Some(LinkId(5)));
    s.remove(5);
    assert_eq!(s.get_link_id(PortId(1), PortId(2)), None);
}

#[test]
fn law_example_ensure_and_toggle() {
    let mut s = State::new();
    s.insert(1, Item::Port { node_id: NodeId(7) });
    s.insert(2, Item::Port { node_id: NodeId(8) });
    assert_eq!(ensure_link(PortId(1), PortId(2), &s), toggle_link(PortId(1), PortId(2), &s));
    s.insert(5, Item::Link { port_from: PortId(1), port_to: PortId(2) });
    assert_eq!(ensure_link(PortId(1), PortId(2), &s), LinkRequest::AlreadyLinked);
    assert_eq!(toggle_link(PortId(1), PortId(2), &s), LinkRequest::Destroy(LinkId(5)));
}

#[test]
fn law_example_linkable_symmetric() {
    let a = Port::new(PortId(1), "a", Direction::Output);
    let b = Port::new(PortId(2), "b", Direction::Input);
    assert_eq!(a.is_linkable_to(&b), b.is_linkable_to(&a));
    assert!(!a.is_linkable_to(&a));
}

#[test]
fn law_example_deletion_key_symmetric() {
    assert_eq!(make_deletion_key(12, 40), make_deletion_key(40, 12));
    assert_ne!(make_deletion_key(12, 40), make_deletion_key(12, 41));
}

#[test]
fn law_example_new_master_port_is_marked() {
    let mut m = GraphManager::new();
    add_node(&mut m, 1, "Song", "Player");
    add_port(&mut m, 10, 1, "monitor_FL", Direction::Output);
    let master = m.get_master_port_id(PortId(10)).expect("master port");
    assert!(master.0 >= 0xF000_0000);
    assert_eq!(master, proxy_port_id("Player", "monitor_FL"));
}

#[test]
fn law_example_master_names_unique() {
    let mut m = GraphManager::new();
    add_node(&mut m, 1, "Song", "Player");
    add_node(&mut m, 2, "Other song", "Player");
    add_port(&mut m, 10, 1, "output_FL", Direction::Output);
    add_port(&mut m, 11, 2, "output_FL", Direction::Output);
    add_port(&mut m, 12, 2, "output_FR", Direction::Output);
    let h = match m.item(1) {
        Some(Entry::Node(h)) => h,
        other => panic!("{:?}", other),
    };
    let masters = m.node(h).master_ports();
    assert_eq!(masters.len(), 2);
    let mut names: Vec<String> = masters.iter().map(|p| m.port(*p).name.clone()).collect();
    names.sort();
    assert_eq!(names, vec!["output_FL".to_string(), "output_FR".to_string()]);
}

#[test]
fn law_example_pending_partition() {
    let mut m = GraphManager::new();
    add_node(&mut m, 1, "Song", "Player");
    add_node(&mut m, 2, "Speakers", "");
    add_port(&mut m, 10, 1, "out_1", Direction::Output);
    add_port(&mut m, 20, 2, "in_1", Direction::Input);
    let mut both = preset("out_1", "in_1");
    both.connections.extend(preset("out_2", "in_2").connections);
    let made = m.load_preset(both);
    assert_eq!(made, vec![GtkMessage::EnsureLink { port_from: PortId(10), port_to: PortId(20) }]);
    // The second connection still waits, and is made once its ports show up.
    add_port(&mut m, 21, 2, "in_2", Direction::Input);
    let later = add_port(&mut m, 11, 1, "out_2", Direction::Output);
    assert_eq!(later, vec![GtkMessage::EnsureLink { port_from: PortId(11), port_to: PortId(21) }]);
    assert!(m.check_pending_links().is_empty());
}

#[test]
fn law_example_load_no_duplicates() {
    let mut m = GraphManager::new();
    add_node(&mut m, 1, "Song", "Player");
    add_node(&mut m, 2, "Speakers", "");
    assert!(m.load_preset(preset("out_1", "in_1")).is_empty());
    assert!(m.load_preset(preset("out_1", "in_1")).is_empty());
    add_port(&mut m, 20, 2, "in_1", Direction::Input);
    let r = add_port(&mut m, 10, 1, "out_1", Direction::Output);
    assert_eq!(r, vec![GtkMessage::EnsureLink { port_from: PortId(10), port_to: PortId(20) }]);
}

#[test]
fn law_example_add_then_remove_link() {
    let mut c = Canvas::new();
    c.add_node(0);
    c.add_node(1);
    let before = c.edge_list();
    c.add_link(7, Some(0), Some(1));
    assert_eq!(c.link_count(), 1);
    c.remove_link(7);
    assert_eq!(c.edge_list(), before);
}

#[test]
fn law_example_highlight_holds_start() {
    let mut c = Canvas::new();
    c.add_node(0);
    c.add_node(1);
    let mut hl = Highlight::new();
    c.update_highlighting(&mut hl, Some(1));
    assert_eq!(hl.nodes.len(), 1);
}

#[test]
fn law_example_columns_partition() {
    let ports = vec![
        Port::new(PortId(1), "x", Direction::Output),
        Port::new(PortId(2), "y", Direction::Input),
        Port::new(PortId(3), "w", Direction::Output),
    ];
    let rows = port_rows(&ports, &vec![0, 1, 2]);
    let mut seen: Vec<usize> = Vec::new();
    for (a, b) in &rows {
        if let Some(i) = a {
            assert_eq!(ports[*i].direction, PortDirection::Input);
            seen.push(*i);
        }
        if let Some(o) = b {
            assert_eq!(ports[*o].direction, PortDirection::Output);
            seen.push(*o);
        }
    }
    seen.sort();
    assert_eq!(seen, vec![0, 1, 2]);
}

#[test]
fn law_example_link_change_applied_twice_is_applied_once() {
    let mut m = GraphManager::new();
    add_node(&mut m, 1, "Recorder", "Studio");
    add_node(&mut m, 2, "Mixer", "Studio");
    add_port(&mut m, 10, 1, "out_left", Direction::Output);
    add_port(&mut m, 20, 2, "in_left", Direction::Input);
    m.handle_message(PipewireMessage::LinkAdded {
        id: LinkId(30),
        port_from: PortId(10),
        port_to: PortId(20),
        active: true,
        media_type: MediaType::Audio,
    });
    let h = match m.item(1) {
        Some(Entry::Node(h)) => h,
        other => panic!("{:?}", other),
    };
    m.handle_message(PipewireMessage::LinkStateChanged { id: LinkId(30), active: false });
    let once = m.node(h).internal_links.get(&30).map(|l| (l.active, l.output_port_id, l.input_port_id));
    m.handle_message(PipewireMessage::LinkStateChanged { id: LinkId(30), active: false });
    let twice = m.node(h).internal_links.get(&30).map(|l| (l.active, l.output_port_id, l.input_port_id));
    assert_eq!(once, Some((false, 10, 20)));
    assert_eq!(once, twice);
}

#[test]
fn law_example_type_conversions_round_trip() {
    for d in [PortDirection::Input, PortDirection::Output] {
        assert_eq!(PortDirection::from(Direction::from(d)), d);
    }
    for p in [PortMediaType::Unknown, PortMediaType::Audio, PortMediaType::Video, PortMediaType::Application,
        PortMediaType::Stream] {
        assert_eq!(PortMediaType::from(MediaType::from(p)), p);
    }
    assert_ne!(MediaType::from(PortMediaType::from(MediaType::Image)), MediaType::Image);
    let _ = NodeType::Input;
}

#[test]
fn law_example_connection_announcements_alternate() {
    let mut s = helvum::pw_loop::LoopState::new();
    let mut seen: Vec<bool> = Vec::new();
    for connected in [false, false, true, true, false, true, false, false, true] {
        match s.connect_result(connected) {
            Some(PipewireMessage::Connecting) => seen.push(false),
            Some(PipewireMessage::Connected) => seen.push(true),
            Some(other) => panic!("{:?}", other),
            None => {}
        }
    }
    assert_eq!(seen, vec![false, true, false, true, false, true]);
}

#[test]
fn law_example_groups_and_offline_apart() {
    let mut m = GraphManager::new();
    add_node(&mut m, 1, "Song", "Player");
    let h = match m.item(1) {
        Some(Entry::Node(h)) => h,
        other => panic!("{:?}", other),
    };
    m.handle_message(PipewireMessage::NodeRemoved { id: NodeId(1) });
    // The group went offline; a new stream revives that same node as the group.
    add_node(&mut m, 2, "Other song", "Player");
    assert_eq!(m.item(2), Some(Entry::Node(h)));
    assert_eq!(m.node(h).app_name, "Player");
    assert!(m.node(h).online);
}

#[test]
fn law_example_offline_node_revived() {
    let mut m = GraphManager::new();
    add_node(&mut m, 1, "Song", "Player");
    let h = match m.item(1) {
        Some(Entry::Node(h)) => h,
        other => panic!("{:?}", other),
    };
    m.handle_message(PipewireMessage::NodeRemoved { id: NodeId(1) });
    assert!(!m.node(h).online);
    let drawn = m.node_slots();
    add_node(&mut m, 4, "Next song", "Player");
    assert_eq!(m.item(4), Some(Entry::Node(h)));
    assert!(m.node(h).online);
    assert!(m.node(h).has_sub_node(4));
    assert_eq!(m.node_slots(), drawn);
    assert!(m.canvas_ref().has_node_exec(h));
}
