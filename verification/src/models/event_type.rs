//! The producer category carried by every event.

use vstd::prelude::*;

verus! {

/// The category of the producer that created an event.
///
/// On the wire a kind is a single small integer; see [`EventType::get_value`]
/// for the mapping. Socket-origin events are exempt from TTL eviction in the
/// status aggregator, which is why the kind is carried at all.
#[derive(Clone, Copy, PartialEq, Eq, Structural, Debug)]
pub enum EventType {
    Socket,
    Process,
    HWusage,
    Timestamp,
}

/// The wire integer of an event kind.
pub open spec fn kind_value(t: EventType) -> u8 {
    match t {
        EventType::Socket => 0,
        EventType::Process => 1,
        EventType::HWusage => 2,
        EventType::Timestamp => 3,
    }
}

/// The kind encoded by a wire integer, if it is a known one.
pub open spec fn kind_of_value(v: u8) -> Option<EventType> {
    if v == 0 {
        Some(EventType::Socket)
    } else if v == 1 {
        Some(EventType::Process)
    } else if v == 2 {
        Some(EventType::HWusage)
    } else if v == 3 {
        Some(EventType::Timestamp)
    } else {
        None
    }
}

impl EventType {
    /// Decodes a wire integer into a kind; only the known integers are
    /// accepted.
    pub fn from_u8(data: u8) -> (t: Self)
        requires
            kind_of_value(data) is Some,
        ensures
            kind_of_value(data) == Some(t),
    {
        if data == 0 {
            EventType::Socket
        } else if data == 1 {
            EventType::Process
        } else if data == 2 {
            EventType::HWusage
        } else {
            EventType::Timestamp
        }
    }

    /// The wire integer of this kind.
    pub fn get_value(&self) -> (v: u8)
        ensures
            v == kind_value(*self),
            kind_of_value(v) == Some(*self),
    {
        match self {
            EventType::Socket => 0,
            EventType::Process => 1,
            EventType::HWusage => 2,
            EventType::Timestamp => 3,
        }
    }
}

} // verus!
