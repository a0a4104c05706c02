//! The wall-clock producer: one timestamp event per tick.

use vstd::prelude::*;

use crate::models::event_bus_field_type::EventFieldType;
use crate::models::event_bus_message::{
    lemma_dedup_singleton, pairs_view, spec_encode, EventBusMessage,
};
use crate::models::event_type::EventType;
use crate::services::event_bus::{EventBus, Subscriber};
use crate::utils::bytes_helper::{i64_to_le_bytes, spec_i64_to_le_bytes};
use crate::utils::clock::now_timestamp;

verus! {

/// The topic the wall-clock producer publishes on.
pub const EVENT_TOPIC: &'static str = "datetime_timestamp";

/// The title every timestamp event carries.
pub open spec fn timestamp_title() -> Seq<char> {
    seq!['t', 'i', 'm', 'e', 's', 't', 'a', 'm', 'p']
}

/// The wire payload of one timestamp event: the seconds as a
/// little-endian `Timestamp` field.
pub open spec fn timestamp_payload(ts: i64) -> Seq<u8> {
    spec_encode(
        timestamp_title(),
        EventType::Timestamp,
        seq![(EventFieldType::Timestamp, spec_i64_to_le_bytes(ts))],
    )
}

/// The producer of timestamp events. It holds no state of its own: each
/// tick reads the clock and publishes; the surrounding periodic task
/// lives outside the library.
pub struct DateTimeService {
}

impl DateTimeService {
    pub fn new() -> (r: Self)
    {
        DateTimeService {  }
    }

    /// One tick: publishes the current wall-clock seconds to the topic.
    /// Whatever time the clock returns, every subscriber of the topic
    /// handles exactly one timestamp payload carrying it.
    pub fn poll<S: Subscriber>(&self, event_bus: &mut EventBus<S>)
        ensures
            exists|ts: i64|
                {
                    let pre = old(event_bus).subs_of(EVENT_TOPIC@);
                    let post = final (event_bus).subs_of(EVENT_TOPIC@);
                    &&& post.len() == pre.len()
                    &&& forall|i: int|
                        0 <= i < pre.len() ==> (#[trigger] post[i]).0 == pre[i].0 && S::handled(
                            pre[i].1,
                            post[i].1,
                            #[trigger] timestamp_payload(ts),
                        )
                },
            forall|t: Seq<char>|
                t != EVENT_TOPIC@ ==> #[trigger] final (event_bus).subs_of(t) == old(
                    event_bus,
                ).subs_of(t),
    {
        let ts = now_timestamp();
        let bytes = i64_to_le_bytes(ts);
        proof {
            lemma_dedup_singleton(EventFieldType::Timestamp, bytes@);
        }
        let fields = vec![(EventFieldType::Timestamp, bytes)];
        assert(pairs_view(fields@) =~= seq![
            (EventFieldType::Timestamp, spec_i64_to_le_bytes(ts)),
        ]);
        let msg = EventBusMessage::new("timestamp", EventType::Timestamp, Some(fields));
        let payload = msg.format_bytes();
        proof {
            reveal_strlit("timestamp");
            assert("timestamp"@ =~= timestamp_title());
            assert(payload@ == timestamp_payload(ts));
        }
        event_bus.publish(EVENT_TOPIC, &payload);
    }
}

} // verus!
