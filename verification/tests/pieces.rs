use helvum::canvas::{Canvas, Highlight};
use helvum::collections::{make_pair_key, NameMap};
use helvum::graph_items::{color_for_media_type, drop_link, ColorRole, Node, Port};
use helvum::ids::{Direction, MediaType, NodeId, PortDirection, PortId, PortMediaType};
use helvum::layout::{port_rows, sort_by_names, sub_node_slot};
use helvum::manager::make_deletion_key;
use helvum::naming::{is_common_channel_name, is_common_port_name, proxy_port_id};
use helvum::preset::ConnectionPreset;
use helvum::text::{chars_lt, chars_of, str_contains};
use std::hash::{Hash, Hasher};

fn chars(s: &str) -> Vec<char> {
    s.chars().collect()
}

#[test]
fn str_contains_finds_substrings() {
    assert!(str_contains("alsa_output.pci", "output"));
    assert!(str_contains("abc", ""));
    assert!(str_contains("abc", "abc"));
    assert!(!str_contains("abc", "abcd"));
    assert!(!str_contains("Audio/Sink", "sink"));
    assert!(str_contains("äöü", "öü"));
}

#[test]
fn chars_of_splits_into_chars() {
    assert_eq!(chars_of("héllo"), vec!['h', 'é', 'l', 'l', 'o']);
    assert!(chars_of("").is_empty());
}

#[test]
fn chars_lt_is_lexicographic_order() {
    assert!(chars_lt(&chars("abc"), &chars("abd")));
    assert!(chars_lt(&chars("ab"), &chars("abc")));
    assert!(!chars_lt(&chars("abc"), &chars("abc")));
    assert!(!chars_lt(&chars("b"), &chars("abc")));
    assert!(chars_lt(&chars(""), &chars("a")));
    assert!(chars_lt(&chars("Z"), &chars("a")));
}

#[test]
fn common_channel_names_are_recognised() {
    for n in ["front-left", "capture_1", "playback_fl", "monitor_fr", "input", "output", "aux0", "fl", "fr", "rl",
        "rr", "fc", "lfe", "sl", "sr", "l", "r"] {
        assert!(is_common_channel_name(n), "{}", n);
    }
    for n in ["left", "mono", "", "ll", "sidechain", "FL"] {
        assert!(!is_common_channel_name(n), "{}", n);
    }
}

#[test]
fn common_port_names_ignore_case() {
    assert!(is_common_port_name("FL"));
    assert!(is_common_port_name("output_FR"));
    assert!(is_common_port_name("L"));
    assert!(is_common_port_name("Playback"));
    assert!(!is_common_port_name("Mono"));
    assert!(!is_common_port_name("LL"));
}

#[test]
fn master_port_id_is_the_marked_default_hash_of_both_names() {
    let mut hasher = std::collections::hash_map::DefaultHasher::new();
    "Firefox".hash(&mut hasher);
    "output_FL".hash(&mut hasher);
    let hash = hasher.finish() as u32;
    let expected = 0xF000_0000 | (hash & 0x0FFF_FFFF);
    let id = proxy_port_id("Firefox", "output_FL");
    assert_eq!(id, PortId(expected));
    assert!(id.0 >= 0xF000_0000);
    assert_eq!(proxy_port_id("Firefox", "output_FL"), id);
    assert_ne!(proxy_port_id("Firefox", "output_FR"), id);
}

#[test]
fn pair_and_deletion_keys() {
    assert_eq!(make_pair_key(1, 2), 0x1_0000_0002);
    assert_eq!(make_pair_key(u32::MAX, u32::MAX), u64::MAX);
    assert_eq!(make_deletion_key(7, 3), make_pair_key(3, 7));
    assert_eq!(make_deletion_key(3, 7), make_pair_key(3, 7));
    assert_ne!(make_deletion_key(3, 7), make_deletion_key(3, 8));
}

#[test]
fn name_map_keeps_one_value_per_name() {
    let mut m = NameMap::new();
    assert_eq!(m.get(&"a".to_string()), None);
    m.insert("a".to_string(), 1);
    m.insert("b".to_string(), 2);
    m.insert("a".to_string(), 3);
    assert_eq!(m.get(&"a".to_string()), Some(3));
    assert!(m.contains_value(2));
    assert!(!m.contains_value(1));
    assert_eq!(m.remove(&"b".to_string()), Some(2));
    assert_eq!(m.remove(&"b".to_string()), None);
    m.clear();
    assert_eq!(m.get(&"a".to_string()), None);
}

#[test]
fn connection_presets_compare_by_their_names() {
    let a = ConnectionPreset {
        source_app: "Firefox".to_string(),
        source_port: "output_FL".to_string(),
        sink_app: "".to_string(),
        sink_port: "playback_FL".to_string(),
    };
    let b = a.duplicate();
    assert!(a.same_as(&b));
    let mut c = a.duplicate();
    c.sink_port = "playback_FR".to_string();
    assert!(!a.same_as(&c));
}

#[test]
fn direction_and_media_type_conversions() {
    assert_eq!(PortDirection::from(Direction::Input), PortDirection::Input);
    assert_eq!(Direction::from(PortDirection::Output), Direction::Output);
    assert_eq!(PortMediaType::from(MediaType::Audio), PortMediaType::Audio);
    assert_eq!(PortMediaType::from(MediaType::Binary), PortMediaType::Unknown);
    assert_eq!(MediaType::from(PortMediaType::Stream), MediaType::Stream);
    assert_eq!(MediaType::from(PortMediaType::Unknown), MediaType::Unknown);
    assert_eq!(PortDirection::default(), PortDirection::Output);
    assert_eq!(PortMediaType::default(), PortMediaType::Unknown);
}

#[test]
fn media_types_have_their_colors() {
    assert_eq!(color_for_media_type(MediaType::Audio), ColorRole::Audio);
    assert_eq!(color_for_media_type(MediaType::Video), ColorRole::Video);
    assert_eq!(color_for_media_type(MediaType::Application), ColorRole::Midi);
    assert_eq!(color_for_media_type(MediaType::Stream), ColorRole::Midi);
    assert_eq!(color_for_media_type(MediaType::Image), ColorRole::Unknown);
    assert_eq!(color_for_media_type(MediaType::Unknown), ColorRole::Unknown);
}

#[test]
fn dropping_a_port_links_output_to_input() {
    let out = Port::new(PortId(10), "out", Direction::Output);
    let inp = Port::new(PortId(20), "in", Direction::Input);
    let other_out = Port::new(PortId(11), "out2", Direction::Output);
    assert_eq!(drop_link(&out, &inp), Some((PortId(10), PortId(20))));
    assert_eq!(drop_link(&inp, &out), Some((PortId(10), PortId(20))));
    assert_eq!(drop_link(&out, &other_out), None);
    assert_eq!(drop_link(&out, &out), None);
    assert!(out.is_linkable_to(&inp));
    assert!(!inp.is_linkable_to(&inp));
}

#[test]
fn new_node_holds_itself_as_its_only_sub_node() {
    let n = Node::new("Speakers", NodeId(4));
    assert_eq!(n.pw_id(), NodeId(4));
    assert_eq!(n.pw_name(), "Speakers");
    assert_eq!(n.sub_node_count(), 1);
    assert!(n.has_sub_node(4));
    assert_eq!(n.first_sub_node_id(), 4);
    assert!(n.ports().is_empty());
}

#[test]
fn sub_node_with_the_name_of_an_offline_one_replaces_it() {
    let mut n = Node::new("Tab", NodeId(1));
    let ports: Vec<Port> = Vec::new();
    n.remove_sub_node(1);
    assert_eq!(n.sub_node_count(), 0);
    assert!(!n.has_sub_node(1));
    n.add_sub_node(2, "Tab", &ports);
    assert_eq!(n.sub_node_count(), 1);
    assert_eq!(n.sub_node_name(1), None);
    assert_eq!(n.sub_node_name(2), Some("Tab".to_string()));
}

#[test]
fn port_rows_put_inputs_left_and_outputs_right_by_name() {
    let ports = vec![
        Port::new(PortId(1), "out_b", Direction::Output),
        Port::new(PortId(2), "in_z", Direction::Input),
        Port::new(PortId(3), "out_a", Direction::Output),
        Port::new(PortId(4), "in_a", Direction::Input),
        Port::new(PortId(5), "out_c", Direction::Output),
    ];
    let rows = port_rows(&ports, &vec![0, 1, 2, 3, 4]);
    assert_eq!(rows, vec![(Some(3), Some(2)), (Some(1), Some(0)), (None, Some(4))]);
    assert!(port_rows(&ports, &vec![]).is_empty());
}

#[test]
fn sort_by_names_orders_by_first_then_second_name() {
    let keys = vec![
        (chars("Zeta"), chars("a")),
        (chars("Alpha"), chars("z")),
        (chars("Zeta"), chars("0")),
        (chars("Alpha"), chars("b")),
    ];
    assert_eq!(sort_by_names(&keys), vec![3, 1, 2, 0]);
    assert!(sort_by_names(&vec![]).is_empty());
}

#[test]
fn sub_nodes_sit_three_to_a_row() {
    assert_eq!(sub_node_slot(0), (0, 0, 10, 10));
    assert_eq!(sub_node_slot(2), (2, 0, 330, 10));
    assert_eq!(sub_node_slot(3), (0, 1, 10, 130));
    assert_eq!(sub_node_slot(7), (1, 2, 170, 250));
}

fn chain_canvas() -> Canvas {
    // Nodes 0 -> 1 -> 2, and node 3 alone.
    let mut c = Canvas::new();
    c.add_node(0);
    c.add_node(1);
    c.add_node(2);
    c.add_node(3);
    c.add_link(100, Some(0), Some(1));
    c.add_link(101, Some(1), Some(2));
    c
}

#[test]
fn canvas_draws_links_between_drawn_nodes_only() {
    let mut c = chain_canvas();
    assert_eq!(c.link_count(), 2);
    c.add_link(102, Some(0), Some(9));
    c.add_link(103, None, Some(1));
    assert_eq!(c.link_count(), 2);
    c.remove_link(100);
    assert_eq!(c.link_count(), 1);
    c.remove_node(2);
    assert_eq!(c.link_count(), 0);
    assert!(!c.has_node_exec(2));
    c.clear();
    assert!(!c.has_node_exec(0));
}

#[test]
fn highlighting_follows_the_paths_through_the_node() {
    let c = chain_canvas();
    let mut hl = Highlight::new();
    assert!(c.update_highlighting(&mut hl, Some(1)));
    assert_eq!(hl.nodes.len(), 3);
    assert_eq!(hl.edges.len(), 2);
    assert!(!c.update_highlighting(&mut hl, Some(0)));
    assert!(c.update_highlighting(&mut hl, Some(3)));
    assert_eq!(hl.nodes.len(), 1);
    assert!(hl.edges.is_empty());
    assert!(c.update_highlighting(&mut hl, None));
    assert!(hl.nodes.is_empty());
    assert!(!c.update_highlighting(&mut hl, None));
    assert!(c.update_highlighting(&mut hl, Some(2)));
    assert_eq!(hl.nodes.len(), 3);
    assert!(Canvas::clear_highlighting(&mut hl));
    assert!(hl.nodes.is_empty() && hl.edges.is_empty());
    assert!(!Canvas::clear_highlighting(&mut hl));
}

#[test]
fn highlighting_a_node_off_the_canvas_clears_it() {
    let c = chain_canvas();
    let mut hl = Highlight::new();
    c.update_highlighting(&mut hl, Some(0));
    assert!(c.update_highlighting(&mut hl, Some(42)));
    assert!(hl.nodes.is_empty());
}

#[test]
fn removing_a_node_forgets_the_links_that_enter_it() {
    let mut c = Canvas::new();
    c.add_node(0);
    c.add_node(1);
    c.add_node(2);
    c.add_link(100, Some(0), Some(1));
    c.remove_node(1);
    assert_eq!(c.link_count(), 0);
    c.add_link(101, Some(0), Some(2));
    assert_eq!(c.link_count(), 1);
    // The gone link is no longer looked up, so the new link's edge stays.
    c.remove_link(100);
    assert_eq!(c.link_count(), 1);
    c.remove_link(101);
    assert_eq!(c.link_count(), 0);
}
