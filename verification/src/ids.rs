//! Identifiers and small value types shared by the PipeWire side and the graph side.
use vstd::prelude::*;

verus! {

/// Id of a PipeWire node.
#[derive(Debug, Clone, Copy, PartialEq, Eq, Hash, PartialOrd, Ord, Structural)]
pub struct NodeId(pub u32);

/// Id of a PipeWire port.
#[derive(Debug, Clone, Copy, PartialEq, Eq, Hash, PartialOrd, Ord, Structural)]
pub struct PortId(pub u32);

/// Id of a PipeWire link.
#[derive(Debug, Clone, Copy, PartialEq, Eq, Hash, PartialOrd, Ord, Structural)]
pub struct LinkId(pub u32);

/// Whether a node consumes (input) or produces (output) media.
#[derive(Debug, Clone, Copy, PartialEq, Eq, Structural)]
pub enum NodeType {
    Input,
    Output,
}

impl Default for NodeType {
    fn default() -> (r: Self)
        ensures
            r == NodeType::Input,
    {
        NodeType::Input
    }
}

/// The direction of a port as PipeWire reports it.
#[derive(Debug, Clone, Copy, PartialEq, Eq, Structural)]
pub enum Direction {
    Input,
    Output,
}

/// The media type of a format as PipeWire reports it.
#[derive(Debug, Clone, Copy, PartialEq, Eq, Structural)]
pub enum MediaType {
    Unknown,
    Audio,
    Video,
    Image,
    Binary,
    Stream,
    Application,
}

/// The direction of a port as the graph shows it.
#[derive(Debug, Clone, Copy, PartialEq, Eq, Structural)]
pub enum PortDirection {
    Input,
    Output,
}

impl Default for PortDirection {
    fn default() -> (r: Self)
        ensures
            r == PortDirection::Output,
    {
        PortDirection::Output
    }
}

/// The media type of a port or link as the graph shows it.
#[derive(Debug, Clone, Copy, PartialEq, Eq, Structural)]
pub enum PortMediaType {
    Unknown,
    Audio,
    Video,
    Application,
    Stream,
}

impl Default for PortMediaType {
    fn default() -> (r: Self)
        ensures
            r == PortMediaType::Unknown,
    {
        PortMediaType::Unknown
    }
}

/// The graph's direction for a PipeWire direction.
pub open spec fn port_direction_of(d: Direction) -> PortDirection {
    match d {
        Direction::Input => PortDirection::Input,
        Direction::Output => PortDirection::Output,
    }
}

/// PipeWire's direction for a graph direction.
pub open spec fn direction_of(d: PortDirection) -> Direction {
    match d {
        PortDirection::Input => Direction::Input,
        PortDirection::Output => Direction::Output,
    }
}

/// The graph's media type for a PipeWire media type.
pub open spec fn port_media_type_of(m: MediaType) -> PortMediaType {
    match m {
        MediaType::Audio => PortMediaType::Audio,
        MediaType::Video => PortMediaType::Video,
        MediaType::Application => PortMediaType::Application,
        MediaType::Stream => PortMediaType::Stream,
        _ => PortMediaType::Unknown,
    }
}

/// PipeWire's media type for a graph media type.
pub open spec fn media_type_of(m: PortMediaType) -> MediaType {
    match m {
        PortMediaType::Audio => MediaType::Audio,
        PortMediaType::Video => MediaType::Video,
        PortMediaType::Application => MediaType::Application,
        PortMediaType::Stream => MediaType::Stream,
        PortMediaType::Unknown => MediaType::Unknown,
    }
}

impl From<Direction> for PortDirection {
    fn from(direction: Direction) -> (r: Self) {
        match direction {
            Direction::Input => PortDirection::Input,
            Direction::Output => PortDirection::Output,
        }
    }
}

impl vstd::std_specs::convert::FromSpecImpl<Direction> for PortDirection {
    open spec fn obeys_from_spec() -> bool {
        true
    }

    open spec fn from_spec(v: Direction) -> Self {
        port_direction_of(v)
    }
}

impl From<PortDirection> for Direction {
    fn from(direction: PortDirection) -> (r: Self) {
        match direction {
            PortDirection::Input => Direction::Input,
            PortDirection::Output => Direction::Output,
        }
    }
}

impl vstd::std_specs::convert::FromSpecImpl<PortDirection> for Direction {
    open spec fn obeys_from_spec() -> bool {
        true
    }

    open spec fn from_spec(v: PortDirection) -> Self {
        direction_of(v)
    }
}

impl From<MediaType> for PortMediaType {
    fn from(m: MediaType) -> (r: Self) {
        match m {
            MediaType::Audio => PortMediaType::Audio,
            MediaType::Video => PortMediaType::Video,
            MediaType::Application => PortMediaType::Application,
            MediaType::Stream => PortMediaType::Stream,
            _ => PortMediaType::Unknown,
        }
    }
}

impl vstd::std_specs::convert::FromSpecImpl<MediaType> for PortMediaType {
    open spec fn obeys_from_spec() -> bool {
        true
    }

    open spec fn from_spec(v: MediaType) -> Self {
        port_media_type_of(v)
    }
}

impl From<PortMediaType> for MediaType {
    fn from(m: PortMediaType) -> (r: Self) {
        match m {
            PortMediaType::Audio => MediaType::Audio,
            PortMediaType::Video => MediaType::Video,
            PortMediaType::Application => MediaType::Application,
            PortMediaType::Stream => MediaType::Stream,
            _ => MediaType::Unknown,
        }
    }
}

impl vstd::std_specs::convert::FromSpecImpl<PortMediaType> for MediaType {
    open spec fn obeys_from_spec() -> bool {
        true
    }

    open spec fn from_spec(v: PortMediaType) -> Self {
        media_type_of(v)
    }
}

/// Converting a graph direction to PipeWire's and back gives the same direction,
/// and the other way round.
pub proof fn lemma_direction_round_trip(d: PortDirection, e: Direction)
    ensures
        port_direction_of(direction_of(d)) == d,
        direction_of(port_direction_of(e)) == e,
{
}

/// A graph media type survives the trip to PipeWire's media type and back; a
/// PipeWire media type survives the trip the other way exactly when the graph
/// has a variant of its own for it.
pub proof fn lemma_media_type_round_trip(p: PortMediaType, m: MediaType)
    ensures
        port_media_type_of(media_type_of(p)) == p,
        media_type_of(port_media_type_of(m)) == m <==> (m != MediaType::Image && m
            != MediaType::Binary),
{
}

/// Messages sent by the user interface to the PipeWire side.
#[derive(Debug, Clone, Copy, PartialEq, Eq, Structural)]
pub enum GtkMessage {
    /// Toggle a link between the two specified ports.
    ToggleLink { port_from: PortId, port_to: PortId },
    /// Create a link between the two specified ports unless one exists.
    EnsureLink { port_from: PortId, port_to: PortId },
    /// Quit the event loop and let the thread finish.
    Terminate,
}

/// Messages sent by the PipeWire side to the user interface.
#[derive(Debug, Clone)]
pub enum PipewireMessage {
    NodeAdded {
        id: NodeId,
        name: String,
        internal_name: String,
        app_name: String,
        node_type: Option<NodeType>,
    },
    NodeNameChanged { id: NodeId, name: String, media_name: String },
    PortAdded { id: PortId, node_id: NodeId, name: String, direction: Direction },
    PortFormatChanged { id: PortId, media_type: MediaType },
    LinkAdded { id: LinkId, port_from: PortId, port_to: PortId, active: bool, media_type: MediaType },
    LinkStateChanged { id: LinkId, active: bool },
    LinkFormatChanged { id: LinkId, media_type: MediaType },
    NodeRemoved { id: NodeId },
    PortRemoved { id: PortId, node_id: NodeId },
    LinkRemoved { id: LinkId },
    Connecting,
    Connected,
    Disconnected,
}

/// A link between two ports of two nodes.
#[derive(Debug, Clone, Copy, PartialEq, Eq, Structural)]
pub struct PipewireLink {
    pub node_from: NodeId,
    pub port_from: PortId,
    pub node_to: NodeId,
    pub port_to: PortId,
}

} // verus!
