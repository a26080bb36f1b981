//! The decisions of the PipeWire thread's main loop: when to announce that a
//! connection is being made or was made, when to stop, and what a core error means.
use vstd::prelude::*;
use crate::ids::PipewireMessage;

verus! {

/// What the PipeWire thread remembers between two tries to connect.
#[derive(Debug, Clone, Copy, PartialEq, Eq, Structural)]
pub struct LoopState {
    /// A failed try has been announced and no connection was made since.
    pub is_connecting: bool,
    /// The user interface asked the thread to finish.
    pub is_stopped: bool,
}

/// What a core error asks of the thread.
#[derive(Debug, Clone, Copy, PartialEq, Eq, Structural)]
pub enum CoreErrorAction {
    /// The error is about another object than the core: nothing to do.
    Ignore,
    /// The connection broke: tell the user interface and leave the loop to connect again.
    Disconnect,
    /// Any other error of the core: report it.
    Report,
}

/// What a try to connect does to the state: a failure leaves the thread connecting,
/// a success ends that; whether it is asked to stop does not change.
pub open spec fn after_try(s: LoopState, connected: bool) -> LoopState {
    LoopState { is_connecting: !connected, is_stopped: s.is_stopped }
}

/// What a try to connect announces: a failure while no failure was announced yet
/// announces that a connection is being made; a success after such an announcement
/// announces the connection; nothing else is announced.
pub open spec fn try_message(s: LoopState, connected: bool) -> Option<PipewireMessage> {
    if !connected && !s.is_connecting {
        Some(PipewireMessage::Connecting)
    } else if connected && s.is_connecting {
        Some(PipewireMessage::Connected)
    } else {
        None
    }
}

/// What the core error `res` on the object `id` asks for, `epipe` being the number of
/// a broken pipe.
pub open spec fn core_error_spec(id: u32, res: i32, epipe: i32) -> CoreErrorAction {
    if id != 0 {
        CoreErrorAction::Ignore
    } else if res == -epipe {
        CoreErrorAction::Disconnect
    } else {
        CoreErrorAction::Report
    }
}

impl LoopState {
    /// The state before the first try: not connecting, not asked to stop.
    pub fn new() -> (s: Self)
        ensures
            !s.is_connecting,
            !s.is_stopped,
    {
        LoopState { is_connecting: false, is_stopped: false }
    }

    /// Take in the outcome of a try to connect; returns the announcement to send to the
    /// user interface, if any.
    pub fn connect_result(&mut self, connected: bool) -> (r: Option<PipewireMessage>)
        ensures
            *final(self) == after_try(*old(self), connected),
            r == try_message(*old(self), connected),
    {
        let msg = if !connected && !self.is_connecting {
            Some(PipewireMessage::Connecting)
        } else if connected && self.is_connecting {
            Some(PipewireMessage::Connected)
        } else {
            None
        };
        self.is_connecting = !connected;
        msg
    }

    /// The user interface asked the thread to finish.
    pub fn terminate(&mut self)
        ensures
            final(self).is_stopped,
            final(self).is_connecting == old(self).is_connecting,
    {
        self.is_stopped = true;
    }

    /// Whether the thread goes on trying to connect.
    pub fn keeps_running(&self) -> (r: bool)
        ensures
            r == !self.is_stopped,
    {
        !self.is_stopped
    }
}

/// What the core error `res` on the object `id` asks for: errors on other objects than
/// the core (id 0) are ignored, a broken pipe ends the connection, any other error is
/// reported.
pub fn core_error_action(id: u32, res: i32, epipe: i32) -> (r: CoreErrorAction)
    requires
        epipe > i32::MIN,
    ensures
        r == core_error_spec(id, res, epipe),
{
    if id != 0 {
        CoreErrorAction::Ignore
    } else if res == -epipe {
        CoreErrorAction::Disconnect
    } else {
        CoreErrorAction::Report
    }
}

/// Announcements made over a run of tries to connect, from the state `s`.
pub open spec fn announcements(s: LoopState, tries: Seq<bool>) -> Seq<Option<PipewireMessage>>
    decreases tries.len(),
{
    if tries.len() == 0 {
        Seq::empty()
    } else {
        seq![try_message(s, tries[0])] + announcements(after_try(s, tries[0]), tries.drop_first())
    }
}

/// In the announcements `msgs`, starting while a failure is outstanding or not
/// (`connecting`), "connecting" comes only when none is outstanding and "connected"
/// only when one is, so the two strictly alternate; nothing else is announced.
pub open spec fn alternates(msgs: Seq<Option<PipewireMessage>>, connecting: bool) -> bool
    decreases msgs.len(),
{
    if msgs.len() == 0 {
        true
    } else {
        match msgs[0] {
            None => alternates(msgs.drop_first(), connecting),
            Some(PipewireMessage::Connecting) => !connecting && alternates(msgs.drop_first(), true),
            Some(PipewireMessage::Connected) => connecting && alternates(msgs.drop_first(), false),
            Some(_) => false,
        }
    }
}

} // verus!
