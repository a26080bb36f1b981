//! The decisions of the PipeWire side: what each registry or object event makes it
//! remember and tell the user interface, and what each request of the user interface
//! makes it ask of PipeWire.
use vstd::prelude::*;
use crate::ids::{Direction, LinkId, MediaType, NodeId, NodeType, PipewireLink, PipewireMessage, PortId};
use crate::pw_state::{Item, State};
use crate::text::{contains_seq, str_contains};

verus! {

/// The properties of a node that the PipeWire side reads.
pub struct NodeProps {
    pub description: Option<String>,
    pub nick: Option<String>,
    pub name: Option<String>,
    pub media_category: Option<String>,
    pub media_class: Option<String>,
    pub application_name: Option<String>,
}

/// The text of an optional string.
pub open spec fn opt_view(s: Option<String>) -> Option<Seq<char>> {
    match s {
        Some(v) => Some(v@),
        None => None,
    }
}

/// The nicest name of a node: its description, else its nick, else its name,
/// else the empty name.
pub open spec fn node_name_spec(description: Option<Seq<char>>, nick: Option<Seq<char>>, name: Option<Seq<char>>) -> Seq<char> {
    match description {
        Some(d) => d,
        None => match nick {
            Some(n) => n,
            None => match name {
                Some(n) => n,
                None => Seq::empty(),
            },
        },
    }
}

/// The nicest possible name for the node, using a fallback chain of possible name
/// attributes.
pub fn get_node_name(props: &NodeProps) -> (r: String)
    ensures
        r@ == node_name_spec(opt_view(props.description), opt_view(props.nick), opt_view(props.name)),
{
    match &props.description {
        Some(d) => d.clone(),
        None => match &props.nick {
            Some(n) => n.clone(),
            None => match &props.name {
                Some(n) => n.clone(),
                None => String::new(),
            },
        },
    }
}

/// What a media class says of a node: sinks and inputs take media in, sources and
/// outputs give it out, anything else is neither.
pub open spec fn media_class_spec(class: Seq<char>) -> Option<NodeType> {
    if contains_seq(class, "Sink"@) || contains_seq(class, "Input"@) {
        Some(NodeType::Input)
    } else if contains_seq(class, "Source"@) || contains_seq(class, "Output"@) {
        Some(NodeType::Output)
    } else {
        None
    }
}

/// The node type that the media class `class` gives.
pub fn media_class(class: &str) -> (r: Option<NodeType>)
    ensures
        r == media_class_spec(class@),
{
    if str_contains(class, "Sink") || str_contains(class, "Input") {
        Some(NodeType::Input)
    } else if str_contains(class, "Source") || str_contains(class, "Output") {
        Some(NodeType::Output)
    } else {
        None
    }
}

fn class_type(class: &Option<String>) -> (r: Option<NodeType>)
    ensures
        r == (match opt_view(*class) {
            Some(c) => media_class_spec(c),
            None => None,
        }),
{
    match class {
        Some(c) => media_class(c.as_str()),
        None => None,
    }
}

/// The type of a node. A duplex media category is looked through: whatever the
/// category, the type is the one that the media class gives.
pub fn node_type_of(props: &NodeProps) -> (r: Option<NodeType>)
    ensures
        r == (match opt_view(props.media_class) {
            Some(c) => media_class_spec(c),
            None => None,
        }),
{
    let by_category = match &props.media_category {
        Some(category) => {
            if str_contains(category.as_str(), "Duplex") {
                None
            } else {
                class_type(&props.media_class)
            }
        },
        None => None,
    };
    match by_category {
        Some(t) => Some(t),
        None => class_type(&props.media_class),
    }
}

/// Handle a new node being added: remember it, and build the message that announces
/// it to the user interface.
pub fn handle_node(state: &mut State, id: u32, props: &NodeProps) -> (r: PipewireMessage)
    ensures
        final(state).items() == old(state).items().insert(id, Item::Node),
        final(state).links() == old(state).links(),
        r matches PipewireMessage::NodeAdded { id: nid, name, internal_name, app_name, node_type }
            && nid == NodeId(id)
            && name@ == node_name_spec(opt_view(props.description), opt_view(props.nick), opt_view(props.name))
            && internal_name@ == (match opt_view(props.name) { Some(n) => n, None => name@ })
            && app_name@ == (match opt_view(props.application_name) { Some(a) => a, None => Seq::empty() })
            && node_type == (match opt_view(props.media_class) {
                Some(c) => media_class_spec(c),
                None => None,
            }),
{
    let name = get_node_name(props);
    let internal_name = match &props.name {
        Some(n) => n.clone(),
        None => name.clone(),
    };
    let app_name = match &props.application_name {
        Some(a) => a.clone(),
        None => String::new(),
    };
    let node_type = node_type_of(props);
    state.insert(id, Item::Node);
    PipewireMessage::NodeAdded { id: NodeId(id), name, internal_name, app_name, node_type }
}

/// Handle new information on a node. Information on a node that is not known gives
/// nothing; so does information without a media name. Otherwise the user interface
/// learns the node's name and media name.
pub fn handle_node_info(known_node: bool, id: u32, props: &NodeProps, media_name: &Option<String>) -> (r: Option<PipewireMessage>)
    ensures
        (!known_node || media_name.is_none()) ==> r.is_none(),
        (known_node && media_name.is_some()) ==> (r matches Some(
            PipewireMessage::NodeNameChanged { id: nid, name, media_name: m },
        ) && nid == NodeId(id)
            && name@ == node_name_spec(opt_view(props.description), opt_view(props.nick), opt_view(props.name))
            && m@ == media_name.unwrap()@),
{
    if !known_node {
        return None;
    }
    match media_name {
        Some(m) => {
            let name = get_node_name(props);
            Some(PipewireMessage::NodeNameChanged { id: NodeId(id), name, media_name: m.clone() })
        },
        None => None,
    }
}

/// A decimal digit.
pub open spec fn is_digit(c: char) -> bool {
    '0' <= c && c <= '9'
}

/// The number that a sequence of decimal digits writes.
pub open spec fn digits_value(d: Seq<char>) -> int
    decreases d.len(),
{
    if d.len() == 0 {
        0
    } else {
        digits_value(d.drop_last()) * 10 + (d.last() as int - '0' as int)
    }
}

/// The text after an optional leading `+`.
pub open spec fn digits_part(s: Seq<char>) -> Seq<char> {
    if s.len() > 0 && s[0] == '+' {
        s.drop_first()
    } else {
        s
    }
}

/// Every character is a decimal digit.
pub open spec fn all_digits(d: Seq<char>) -> bool {
    forall|i: int| 0 <= i < d.len() ==> is_digit(#[trigger] d[i])
}

/// How a `u32` is read from text: an optional `+`, then at least one decimal digit,
/// and a value that fits.
pub open spec fn parse_u32_spec(s: Seq<char>) -> Option<u32> {
    let d = digits_part(s);
    if d.len() > 0 && all_digits(d) && digits_value(d) <= u32::MAX {
        Some(digits_value(d) as u32)
    } else {
        None
    }
}

proof fn lemma_digits_value_nonneg(d: Seq<char>)
    requires
        forall|i: int| 0 <= i < d.len() ==> is_digit(#[trigger] d[i]),
    ensures
        digits_value(d) >= 0,
    decreases d.len(),
{
    if d.len() > 0 {
        assert(is_digit(d[d.len() - 1]));
        lemma_digits_value_nonneg(d.drop_last());
    }
}

proof fn lemma_digits_value_grows(d: Seq<char>, c: char)
    requires
        forall|i: int| 0 <= i < d.len() ==> is_digit(#[trigger] d[i]),
        is_digit(c),
    ensures
        digits_value(d.push(c)) >= digits_value(d),
{
    assert(d.push(c).drop_last() =~= d);
    lemma_digits_value_nonneg(d);
}

proof fn lemma_parse_fails(s: Seq<char>, d: Seq<char>)
    requires
        d == digits_part(s),
        !(forall|k: int| 0 <= k < d.len() ==> is_digit(#[trigger] d[k])) || digits_value(d) > u32::MAX,
    ensures
        parse_u32_spec(s).is_none(),
{
}

proof fn lemma_overflowing_prefix(d: Seq<char>, j: int)
    requires
        0 <= j <= d.len(),
        forall|k: int| 0 <= k < j ==> is_digit(#[trigger] d[k]),
        digits_value(d.subrange(0, j)) > u32::MAX,
    ensures
        digits_value(d) > u32::MAX || exists|k: int| 0 <= k < d.len() && !is_digit(#[trigger] d[k]),
    decreases d.len() - j,
{
    if j == d.len() {
        assert(d.subrange(0, j) =~= d);
    } else if !is_digit(d[j]) {
    } else {
        let pre = d.subrange(0, j);
        assert(d.subrange(0, j + 1) =~= pre.push(d[j]));
        lemma_digits_value_grows(pre, d[j]);
        lemma_overflowing_prefix(d, j + 1);
    }
}

/// Read a `u32` from text as `str::parse` does.
pub fn parse_u32(s: &str) -> (r: Option<u32>)
    ensures
        r == parse_u32_spec(s@),
{
    let cs = crate::text::chars_of(s);
    let start: usize = if cs.len() > 0 && cs[0] == '+' { 1 } else { 0 };
    let ghost d = digits_part(s@);
    if start >= cs.len() {
        return None;
    }
    let mut value: u64 = 0;
    let mut i: usize = start;
    assert(d =~= cs@.subrange(start as int, cs.len() as int));
    assert(d.subrange(0, 0) =~= Seq::<char>::empty());
    while i < cs.len()
        invariant
            cs@ == s@,
            start <= i <= cs.len(),
            start < cs.len(),
            d == cs@.subrange(start as int, cs.len() as int),
            d == digits_part(s@),
            forall|k: int| 0 <= k < i - start ==> is_digit(#[trigger] d[k]),
            value as int == digits_value(d.subrange(0, i - start)),
            value <= u32::MAX,
        decreases cs.len() - i,
    {
        let c = cs[i];
        let ghost pre = d.subrange(0, i - start);
        assert(d.subrange(0, i + 1 - start) =~= pre.push(c));
        assert(pre.push(c).drop_last() =~= pre);
        if !(c >= '0' && c <= '9') {
            assert(!is_digit(d[i - start]));
            assert(!(forall|k: int| 0 <= k < d.len() ==> is_digit(#[trigger] d[k])));
            proof { lemma_parse_fails(s@, d); }
            return None;
        }
        let digit = (c as u32) - ('0' as u32);
        assert(digit as int == c as int - '0' as int);
        let next: u64 = value * 10 + digit as u64;
        if next > 0xFFFF_FFFF {
            proof {
                assert forall|k: int| 0 <= k < pre.len() implies is_digit(#[trigger] pre[k]) by {
                    assert(pre[k] == d[k]);
                }
                lemma_digits_value_grows(pre, c);
                lemma_overflowing_prefix(d, i + 1 - start);
                if forall|k: int| 0 <= k < d.len() ==> is_digit(#[trigger] d[k]) {
                    assert(digits_value(d) > u32::MAX);
                }
                lemma_parse_fails(s@, d);
            }
            return None;
        }
        value = next;
        i = i + 1;
    }
    assert(d.subrange(0, cs.len() - start) =~= d);
    Some(value as u32)
}

/// The information on the port `id` is the first on a known port: it announces the
/// port.
pub open spec fn first_port_info(state: State, known_port: bool, id: u32) -> bool {
    known_port && !(state.items().get(id) matches Some(Item::Port { .. }))
}

/// The information can be handled: when it is the first on a known port, it carries a
/// `node.id` that reads as a number.
pub open spec fn port_info_ok(state: State, known_port: bool, id: u32, node_id_prop: Option<String>) -> bool {
    first_port_info(state, known_port, id) ==> match opt_view(node_id_prop) {
        Some(p) => parse_u32_spec(p) is Some,
        None => false,
    }
}

/// Whether `port_info_ok` holds: a port announced without a `node.id`, or with one
/// that is not a number, cannot be handled.
pub fn can_handle_port_info(state: &State, known_port: bool, id: u32, node_id_prop: &Option<String>) -> (r: bool)
    ensures
        r == port_info_ok(*state, known_port, id, *node_id_prop),
{
    if !known_port {
        return true;
    }
    if let Some(Item::Port { .. }) = state.get(id) {
        return true;
    }
    match node_id_prop {
        None => false,
        Some(p) => parse_u32(p.as_str()).is_some(),
    }
}

/// Handle information on a port: the first information on a known port announces the
/// port to the user interface and remembers the node it belongs to; later
/// information changes nothing; information on an unknown port is ignored.
pub fn handle_port_info(
    state: &mut State,
    known_port: bool,
    id: u32,
    port_name: &Option<String>,
    node_id_prop: &Option<String>,
    direction: Direction,
) -> (r: Option<PipewireMessage>)
    requires
        port_info_ok(*old(state), known_port, id, *node_id_prop),
    ensures
        !first_port_info(*old(state), known_port, id) ==> r is None && *final(state) == *old(state),
        first_port_info(*old(state), known_port, id) ==> {
            let n = parse_u32_spec(opt_view(*node_id_prop).unwrap()).unwrap();
            &&& final(state).items() == old(state).items().insert(id, Item::Port { node_id: NodeId(n) })
            &&& final(state).links() == old(state).links()
            &&& r matches Some(PipewireMessage::PortAdded { id: pid, node_id, name, direction: dir })
                && pid == PortId(id) && node_id == NodeId(n) && dir == direction
                && name@ == (match opt_view(*port_name) { Some(v) => v, None => Seq::empty() })
        },
{
    if !known_port {
        return None;
    }
    if let Some(Item::Port { .. }) = state.get(id) {
        return None;
    }
    let node_id = match node_id_prop {
        Some(p) => match parse_u32(p.as_str()) {
            Some(n) => NodeId(n),
            None => return None,
        },
        None => return None,
    };
    state.insert(id, Item::Port { node_id });
    let name = match port_name {
        Some(n) => n.clone(),
        None => String::new(),
    };
    Some(PipewireMessage::PortAdded { id: PortId(id), node_id, name, direction })
}

/// What the PipeWire side reads from the information on a link.
#[derive(Debug, Clone, Copy, PartialEq, Eq, Structural)]
pub struct LinkInfo {
    pub state_changed: bool,
    pub format_changed: bool,
    pub output_port: PortId,
    pub input_port: PortId,
    pub active: bool,
    pub media_type: MediaType,
}

/// Handle information on a link: the first information announces the link and
/// remembers it; later information reports a change of state and a change of format,
/// each only when it changed.
pub fn handle_link_info(state: &mut State, id: u32, info: LinkInfo) -> (r: Vec<PipewireMessage>)
    ensures
        old(state).items().get(id) matches Some(Item::Link { .. }) ==> {
            &&& *final(state) == *old(state)
            &&& r@.len() == (if info.state_changed { 1int } else { 0 }) + (if info.format_changed { 1int } else { 0 })
            &&& info.state_changed ==> r@[0] == PipewireMessage::LinkStateChanged { id: LinkId(id), active: info.active }
            &&& info.format_changed ==> r@[r@.len() - 1] == PipewireMessage::LinkFormatChanged {
                id: LinkId(id),
                media_type: info.media_type,
            }
        },
        !(old(state).items().get(id) matches Some(Item::Link { .. })) ==> {
            &&& final(state).items() == old(state).items().insert(
                id,
                Item::Link { port_from: info.output_port, port_to: info.input_port },
            )
            &&& final(state).links() == old(state).links().insert((info.output_port, info.input_port), LinkId(id))
            &&& r@ == seq![PipewireMessage::LinkAdded {
                id: LinkId(id),
                port_from: info.output_port,
                port_to: info.input_port,
                active: info.active,
                media_type: info.media_type,
            }]
        },
{
    let mut out: Vec<PipewireMessage> = Vec::new();
    if let Some(Item::Link { .. }) = state.get(id) {
        if info.state_changed {
            out.push(PipewireMessage::LinkStateChanged { id: LinkId(id), active: info.active });
        }
        if info.format_changed {
            out.push(PipewireMessage::LinkFormatChanged { id: LinkId(id), media_type: info.media_type });
        }
    } else {
        let port_from = info.output_port;
        let port_to = info.input_port;
        state.insert(id, Item::Link { port_from, port_to });
        out.push(
            PipewireMessage::LinkAdded {
                id: LinkId(id),
                port_from,
                port_to,
                active: info.active,
                media_type: info.media_type,
            },
        );
    }
    out
}

/// The message that tells the user interface that an object is gone.
pub open spec fn removal_message(id: u32, item: Item) -> PipewireMessage {
    match item {
        Item::Node => PipewireMessage::NodeRemoved { id: NodeId(id) },
        Item::Port { node_id } => PipewireMessage::PortRemoved { id: PortId(id), node_id },
        Item::Link { .. } => PipewireMessage::LinkRemoved { id: LinkId(id) },
    }
}

/// Handle an object leaving the registry: forget it and tell the user interface, or
/// give nothing if it was not known.
pub fn handle_global_remove(state: &mut State, id: u32) -> (r: Option<PipewireMessage>)
    ensures
        final(state).items() == old(state).items().remove(id),
        r == (match old(state).items().get(id) {
            Some(item) => Some(removal_message(id, item)),
            None => None,
        }),
{
    match state.remove(id) {
        Some(Item::Node) => Some(PipewireMessage::NodeRemoved { id: NodeId(id) }),
        Some(Item::Port { node_id }) => Some(PipewireMessage::PortRemoved { id: PortId(id), node_id }),
        Some(Item::Link { .. }) => Some(PipewireMessage::LinkRemoved { id: LinkId(id) }),
        None => None,
    }
}

/// What the PipeWire side asks of PipeWire for a link between two ports.
#[derive(Debug, Clone, Copy, PartialEq, Eq, Structural)]
pub enum LinkRequest {
    /// Destroy the link with this id.
    Destroy(LinkId),
    /// Create this link, lingering after the client is gone.
    Create(PipewireLink),
    /// The port is not known, so nothing is asked.
    UnknownPort(PortId),
    /// The link exists already, so nothing is asked.
    AlreadyLinked,
}

/// The request that creates a link from `port_from` to `port_to`, if both ports are
/// known.
pub open spec fn create_request(state: State, port_from: PortId, port_to: PortId) -> LinkRequest {
    match state.items().get(port_from.0) {
        Some(Item::Port { node_id: node_from }) => match state.items().get(port_to.0) {
            Some(Item::Port { node_id: node_to }) => LinkRequest::Create(
                PipewireLink { node_from, port_from, node_to, port_to },
            ),
            _ => LinkRequest::UnknownPort(port_to),
        },
        _ => LinkRequest::UnknownPort(port_from),
    }
}

fn create_link_request(state: &State, port_from: PortId, port_to: PortId) -> (r: LinkRequest)
    ensures
        r == create_request(*state, port_from, port_to),
{
    let Some(node_from) = state.get_node_of_port(port_from) else {
        return LinkRequest::UnknownPort(port_from);
    };
    let Some(node_to) = state.get_node_of_port(port_to) else {
        return LinkRequest::UnknownPort(port_to);
    };
    LinkRequest::Create(PipewireLink { node_from, port_from, node_to, port_to })
}

/// What toggling the link from `port_from` to `port_to` asks: destroy the link that
/// joins them, or else create one.
pub open spec fn toggle_request(state: State, port_from: PortId, port_to: PortId) -> LinkRequest {
    if state.links().contains_key((port_from, port_to)) {
        LinkRequest::Destroy(state.links()[(port_from, port_to)])
    } else {
        create_request(state, port_from, port_to)
    }
}

/// What ensuring the link from `port_from` to `port_to` asks: nothing when a link joins
/// them, or else to create one.
pub open spec fn ensure_request(state: State, port_from: PortId, port_to: PortId) -> LinkRequest {
    if state.links().contains_key((port_from, port_to)) {
        LinkRequest::AlreadyLinked
    } else {
        create_request(state, port_from, port_to)
    }
}

/// Toggle a link between the two specified ports: destroy it if it exists, else
/// create it.
pub fn toggle_link(port_from: PortId, port_to: PortId, state: &State) -> (r: LinkRequest)
    ensures
        r == toggle_request(*state, port_from, port_to),
{
    match state.get_link_id(port_from, port_to) {
        Some(id) => LinkRequest::Destroy(id),
        None => create_link_request(state, port_from, port_to),
    }
}

/// Ensure a link exists between the two specified ports: ask nothing if it exists,
/// else create it.
pub fn ensure_link(port_from: PortId, port_to: PortId, state: &State) -> (r: LinkRequest)
    ensures
        r == ensure_request(*state, port_from, port_to),
{
    if state.get_link_id(port_from, port_to).is_some() {
        return LinkRequest::AlreadyLinked;
    }
    create_link_request(state, port_from, port_to)
}

} // verus!
