//! Presets: the connections between application ports that the user saved, to be
//! made again when those applications show up.
use vstd::prelude::*;

verus! {

/// A connection from the port `source_port` of the application `source_app` to the
/// port `sink_port` of the application `sink_app`.
#[derive(Debug, Clone, PartialEq, Eq, Hash)]
pub struct ConnectionPreset {
    pub source_app: String,
    pub source_port: String,
    pub sink_app: String,
    pub sink_port: String,
}

/// The four names of a connection.
pub open spec fn conn_view(c: ConnectionPreset) -> (Seq<char>, Seq<char>, Seq<char>, Seq<char>) {
    (c.source_app@, c.source_port@, c.sink_app@, c.sink_port@)
}

impl ConnectionPreset {
    /// Whether `self` and `other` name the same connection.
    pub fn same_as(&self, other: &ConnectionPreset) -> (r: bool)
        ensures
            r == (conn_view(*self) == conn_view(*other)),
    {
        self.source_app == other.source_app && self.source_port == other.source_port && self.sink_app
            == other.sink_app && self.sink_port == other.sink_port
    }

    /// A copy of this connection.
    pub fn duplicate(&self) -> (r: ConnectionPreset)
        ensures
            conn_view(r) == conn_view(*self),
    {
        ConnectionPreset {
            source_app: self.source_app.clone(),
            source_port: self.source_port.clone(),
            sink_app: self.sink_app.clone(),
            sink_port: self.sink_port.clone(),
        }
    }
}

/// A saved set of connections.
#[derive(Debug)]
pub struct Preset {
    pub connections: Vec<ConnectionPreset>,
}

impl Default for Preset {
    fn default() -> (p: Self)
        ensures
            p.connections@.len() == 0,
    {
        Preset { connections: Vec::new() }
    }
}

} // verus!
