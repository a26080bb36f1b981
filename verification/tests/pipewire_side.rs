use helvum::ids::{Direction, LinkId, MediaType, NodeId, NodeType, PipewireLink, PipewireMessage, PortId};
use helvum::pw_events::{
    ensure_link, get_node_name, handle_global_remove, handle_link_info, handle_node, handle_node_info,
    can_handle_port_info, handle_port_info, media_class, node_type_of, parse_u32, LinkInfo, LinkRequest, NodeProps,
};
use helvum::pw_loop::{core_error_action, CoreErrorAction, LoopState};
use helvum::pw_state::{Item, State};

fn props() -> NodeProps {
    NodeProps {
        description: None,
        nick: None,
        name: None,
        media_category: None,
        media_class: None,
        application_name: None,
    }
}

fn link_info(from: u32, to: u32) -> LinkInfo {
    LinkInfo {
        state_changed: true,
        format_changed: true,
        output_port: PortId(from),
        input_port: PortId(to),
        active: true,
        media_type: MediaType::Audio,
    }
}

/// Nodes 1 and 2 with ports 10 (of node 1) and 20 (of node 2).
fn state_with_ports() -> State {
    let mut s = State::new();
    s.insert(1, Item::Node);
    s.insert(2, Item::Node);
    s.insert(10, Item::Port { node_id: NodeId(1) });
    s.insert(20, Item::Port { node_id: NodeId(2) });
    s
}

#[test]
fn node_name_falls_back_from_description_to_nick_to_name() {
    let mut p = props();
    assert_eq!(get_node_name(&p), "");
    p.name = Some("alsa_output.pci".to_string());
    assert_eq!(get_node_name(&p), "alsa_output.pci");
    p.nick = Some("HDA Intel".to_string());
    assert_eq!(get_node_name(&p), "HDA Intel");
    p.description = Some("Built-in Audio".to_string());
    assert_eq!(get_node_name(&p), "Built-in Audio");
}

#[test]
fn media_class_gives_the_node_type() {
    assert_eq!(media_class("Audio/Sink"), Some(NodeType::Input));
    assert_eq!(media_class("Stream/Input/Audio"), Some(NodeType::Input));
    assert_eq!(media_class("Audio/Source"), Some(NodeType::Output));
    assert_eq!(media_class("Stream/Output/Audio"), Some(NodeType::Output));
    assert_eq!(media_class("Video/Source"), Some(NodeType::Output));
    assert_eq!(media_class("Midi/Bridge"), None);
    assert_eq!(media_class(""), None);
}

#[test]
fn duplex_category_still_takes_the_type_from_the_class() {
    let mut p = props();
    assert_eq!(node_type_of(&p), None);
    p.media_category = Some("Duplex".to_string());
    p.media_class = Some("Audio/Sink".to_string());
    assert_eq!(node_type_of(&p), Some(NodeType::Input));
    p.media_category = None;
    p.media_class = Some("Audio/Source".to_string());
    assert_eq!(node_type_of(&p), Some(NodeType::Output));
}

#[test]
fn parse_u32_reads_as_str_parse_does() {
    assert_eq!(parse_u32("42"), Some(42));
    assert_eq!(parse_u32("+7"), Some(7));
    assert_eq!(parse_u32("007"), Some(7));
    assert_eq!(parse_u32("4294967295"), Some(u32::MAX));
    assert_eq!(parse_u32("4294967296"), None);
    assert_eq!(parse_u32(""), None);
    assert_eq!(parse_u32("+"), None);
    assert_eq!(parse_u32("-1"), None);
    assert_eq!(parse_u32("12a"), None);
    assert_eq!(parse_u32(" 1"), None);
    for s in ["0", "15", "+3", "99999999999", "x", "1_000"] {
        assert_eq!(parse_u32(s), s.parse::<u32>().ok());
    }
}

#[test]
fn new_node_is_remembered_and_announced() {
    let mut s = State::new();
    let mut p = props();
    p.description = Some("Firefox".to_string());
    p.name = Some("firefox".to_string());
    p.media_class = Some("Stream/Output/Audio".to_string());
    p.application_name = Some("Firefox".to_string());
    let msg = handle_node(&mut s, 5, &p);
    assert_eq!(s.get(5), Some(&Item::Node));
    match msg {
        PipewireMessage::NodeAdded { id, name, internal_name, app_name, node_type } => {
            assert_eq!(id, NodeId(5));
            assert_eq!(name, "Firefox");
            assert_eq!(internal_name, "firefox");
            assert_eq!(app_name, "Firefox");
            assert_eq!(node_type, Some(NodeType::Output));
        },
        other => panic!("unexpected {:?}", other),
    }
}

#[test]
fn node_without_name_uses_its_nice_name_inside_too() {
    let mut s = State::new();
    let mut p = props();
    p.nick = Some("Mic".to_string());
    match handle_node(&mut s, 6, &p) {
        PipewireMessage::NodeAdded { name, internal_name, app_name, node_type, .. } => {
            assert_eq!(name, "Mic");
            assert_eq!(internal_name, "Mic");
            assert_eq!(app_name, "");
            assert_eq!(node_type, None);
        },
        other => panic!("unexpected {:?}", other),
    }
}

#[test]
fn node_info_reports_a_new_media_name() {
    let mut p = props();
    p.description = Some("Speakers".to_string());
    assert!(handle_node_info(false, 3, &p, &Some("Music".to_string())).is_none());
    assert!(handle_node_info(true, 3, &p, &None).is_none());
    match handle_node_info(true, 3, &p, &Some("Music".to_string())) {
        Some(PipewireMessage::NodeNameChanged { id, name, media_name }) => {
            assert_eq!(id, NodeId(3));
            assert_eq!(name, "Speakers");
            assert_eq!(media_name, "Music");
        },
        other => panic!("unexpected {:?}", other),
    }
}

#[test]
fn first_port_info_announces_the_port() {
    let mut s = State::new();
    let r = handle_port_info(&mut s, true, 10, &Some("FL".to_string()), &Some("4".to_string()), Direction::Output);
    match r {
        Some(PipewireMessage::PortAdded { id, node_id, name, direction }) => {
            assert_eq!(id, PortId(10));
            assert_eq!(node_id, NodeId(4));
            assert_eq!(name, "FL");
            assert_eq!(direction, Direction::Output);
        },
        other => panic!("unexpected {:?}", other),
    }
    assert_eq!(s.get(10), Some(&Item::Port { node_id: NodeId(4) }));
    assert_eq!(s.get_node_of_port(PortId(10)), Some(NodeId(4)));
    let again = handle_port_info(&mut s, true, 10, &Some("FL".to_string()), &Some("4".to_string()), Direction::Output);
    assert!(again.is_none());
}

#[test]
fn first_port_info_needs_a_numeric_node_id() {
    let mut s = State::new();
    assert!(!can_handle_port_info(&s, true, 10, &None));
    assert!(!can_handle_port_info(&s, true, 10, &Some("four".to_string())));
    assert!(can_handle_port_info(&s, true, 10, &Some("4".to_string())));
    // Information on an unknown port, or on a port already announced, needs nothing.
    assert!(can_handle_port_info(&s, false, 10, &None));
    let unknown = handle_port_info(&mut s, false, 10, &None, &Some("4".to_string()), Direction::Input);
    assert!(unknown.is_none());
    assert_eq!(s.get(10), None);
    handle_port_info(&mut s, true, 10, &None, &Some("4".to_string()), Direction::Input);
    assert!(can_handle_port_info(&s, true, 10, &None));
}

#[test]
fn port_without_name_is_announced_with_an_empty_name() {
    let mut s = State::new();
    match handle_port_info(&mut s, true, 11, &None, &Some("+2".to_string()), Direction::Input) {
        Some(PipewireMessage::PortAdded { name, node_id, .. }) => {
            assert_eq!(name, "");
            assert_eq!(node_id, NodeId(2));
        },
        other => panic!("unexpected {:?}", other),
    }
}

#[test]
fn first_link_info_announces_then_changes_follow() {
    let mut s = state_with_ports();
    let first = handle_link_info(&mut s, 30, link_info(10, 20));
    assert_eq!(first.len(), 1);
    assert!(matches!(
        first[0],
        PipewireMessage::LinkAdded { id: LinkId(30), port_from: PortId(10), port_to: PortId(20), active: true, media_type: MediaType::Audio }
    ));
    assert_eq!(s.get_link_id(PortId(10), PortId(20)), Some(LinkId(30)));
    let mut change = link_info(10, 20);
    change.active = false;
    change.media_type = MediaType::Video;
    let later = handle_link_info(&mut s, 30, change);
    assert_eq!(later.len(), 2);
    assert!(matches!(later[0], PipewireMessage::LinkStateChanged { id: LinkId(30), active: false }));
    assert!(matches!(later[1], PipewireMessage::LinkFormatChanged { id: LinkId(30), media_type: MediaType::Video }));
    let mut nothing = link_info(10, 20);
    nothing.state_changed = false;
    nothing.format_changed = false;
    assert!(handle_link_info(&mut s, 30, nothing).is_empty());
}

#[test]
fn removing_objects_tells_what_they_were() {
    let mut s = state_with_ports();
    handle_link_info(&mut s, 30, link_info(10, 20));
    assert!(matches!(handle_global_remove(&mut s, 30), Some(PipewireMessage::LinkRemoved { id: LinkId(30) })));
    assert_eq!(s.get_link_id(PortId(10), PortId(20)), None);
    assert!(matches!(
        handle_global_remove(&mut s, 10),
        Some(PipewireMessage::PortRemoved { id: PortId(10), node_id: NodeId(1) })
    ));
    assert!(matches!(handle_global_remove(&mut s, 1), Some(PipewireMessage::NodeRemoved { id: NodeId(1) })));
    assert!(handle_global_remove(&mut s, 1).is_none());
    assert!(handle_global_remove(&mut s, 77).is_none());
}

#[test]
fn toggle_destroys_an_existing_link_and_creates_a_missing_one() {
    let mut s = state_with_ports();
    assert_eq!(
        helvum::pw_events::toggle_link(PortId(10), PortId(20), &s),
        LinkRequest::Create(PipewireLink {
            node_from: NodeId(1),
            port_from: PortId(10),
            node_to: NodeId(2),
            port_to: PortId(20),
        })
    );
    handle_link_info(&mut s, 30, link_info(10, 20));
    assert_eq!(helvum::pw_events::toggle_link(PortId(10), PortId(20), &s), LinkRequest::Destroy(LinkId(30)));
}

#[test]
fn toggle_with_an_unknown_port_asks_nothing() {
    let s = state_with_ports();
    assert_eq!(helvum::pw_events::toggle_link(PortId(99), PortId(20), &s), LinkRequest::UnknownPort(PortId(99)));
    assert_eq!(helvum::pw_events::toggle_link(PortId(10), PortId(98), &s), LinkRequest::UnknownPort(PortId(98)));
    assert_eq!(ensure_link(PortId(1), PortId(20), &s), LinkRequest::UnknownPort(PortId(1)));
}

#[test]
fn ensure_creates_only_a_missing_link() {
    let mut s = state_with_ports();
    assert!(matches!(ensure_link(PortId(10), PortId(20), &s), LinkRequest::Create(_)));
    handle_link_info(&mut s, 30, link_info(10, 20));
    assert_eq!(ensure_link(PortId(10), PortId(20), &s), LinkRequest::AlreadyLinked);
    // The pair is ordered: the other direction is another link.
    assert!(matches!(ensure_link(PortId(20), PortId(10), &s), LinkRequest::Create(_)));
}

#[test]
fn state_remove_gives_back_what_was_inserted() {
    let mut s = State::new();
    s.insert(30, Item::Link { port_from: PortId(10), port_to: PortId(20) });
    assert_eq!(s.get_link_id(PortId(10), PortId(20)), Some(LinkId(30)));
    assert_eq!(s.remove(30), Some(Item::Link { port_from: PortId(10), port_to: PortId(20) }));
    assert_eq!(s.get(30), None);
    assert_eq!(s.get_link_id(PortId(10), PortId(20)), None);
    assert_eq!(s.remove(30), None);
}

#[test]
fn connection_is_announced_once_per_outage() {
    let mut s = LoopState::new();
    assert!(matches!(s.connect_result(false), Some(PipewireMessage::Connecting)));
    assert!(s.connect_result(false).is_none());
    assert!(s.connect_result(false).is_none());
    assert!(matches!(s.connect_result(true), Some(PipewireMessage::Connected)));
    assert!(s.connect_result(true).is_none());
    assert!(matches!(s.connect_result(false), Some(PipewireMessage::Connecting)));
}

#[test]
fn first_connection_is_not_announced() {
    let mut s = LoopState::new();
    assert!(s.connect_result(true).is_none());
    assert!(!s.is_connecting);
}

#[test]
fn terminate_stops_the_loop() {
    let mut s = LoopState::new();
    assert!(s.keeps_running());
    s.connect_result(false);
    s.terminate();
    assert!(!s.keeps_running());
    assert!(s.is_connecting);
}

#[test]
fn core_errors_are_sorted() {
    assert_eq!(core_error_action(3, -32, 32), CoreErrorAction::Ignore);
    assert_eq!(core_error_action(0, -32, 32), CoreErrorAction::Disconnect);
    assert_eq!(core_error_action(0, -2, 32), CoreErrorAction::Report);
    assert_eq!(core_error_action(0, 32, 32), CoreErrorAction::Report);
}
