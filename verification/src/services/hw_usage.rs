//! The hardware-usage producer: one CPU/memory event per sample.
//!
//! Sampling itself happens outside the library; the sampled doubles reach
//! this module as their raw 64-bit patterns, which is all the wire format
//! carries.

use vstd::bytes::{spec_u64_to_le_bytes, u64_to_le_bytes};
use vstd::prelude::*;

use crate::models::event_bus_field_type::EventFieldType;
use crate::models::event_bus_message::{
    lemma_dedup_pair, pairs_view, spec_encode, EventBusMessage,
};
use crate::models::event_type::EventType;
use crate::services::event_bus::{EventBus, Subscriber};

verus! {

/// The topic the hardware-usage producer publishes on.
pub const EVENT_TOPIC: &'static str = "hw_usage";

/// The title every hardware-usage event carries.
pub open spec fn usage_title() -> Seq<char> {
    seq!['u', 's', 'a', 'g', 'e']
}

/// The wire payload of one usage event: the CPU bit pattern, then the
/// memory percentage bit pattern, each as 8 little-endian bytes.
pub open spec fn usage_payload(cpu_bits: u64, mem_bits: u64) -> Seq<u8> {
    spec_encode(
        usage_title(),
        EventType::HWusage,
        seq![
            (EventFieldType::Cpu, spec_u64_to_le_bytes(cpu_bits)),
            (EventFieldType::Memory, spec_u64_to_le_bytes(mem_bits)),
        ],
    )
}

/// Publishes one usage sample: every subscriber of the topic handles
/// exactly one payload carrying both bit patterns.
pub fn publish_usage<S: Subscriber>(event_bus: &mut EventBus<S>, cpu_bits: u64, mem_bits: u64)
    ensures
        ({
            let pre = old(event_bus).subs_of(EVENT_TOPIC@);
            let post = final (event_bus).subs_of(EVENT_TOPIC@);
            &&& post.len() == pre.len()
            &&& forall|i: int|
                0 <= i < pre.len() ==> (#[trigger] post[i]).0 == pre[i].0 && S::handled(
                    pre[i].1,
                    post[i].1,
                    usage_payload(cpu_bits, mem_bits),
                )
        }),
        forall|t: Seq<char>|
            t != EVENT_TOPIC@ ==> #[trigger] final (event_bus).subs_of(t) == old(
                event_bus,
            ).subs_of(t),
{
    let cpu_bytes = u64_to_le_bytes(cpu_bits);
    let mem_bytes = u64_to_le_bytes(mem_bits);
    proof {
        lemma_dedup_pair(
            EventFieldType::Cpu,
            cpu_bytes@,
            EventFieldType::Memory,
            mem_bytes@,
        );
    }
    let fields = vec![(EventFieldType::Cpu, cpu_bytes), (EventFieldType::Memory, mem_bytes)];
    assert(pairs_view(fields@) =~= seq![
        (EventFieldType::Cpu, spec_u64_to_le_bytes(cpu_bits)),
        (EventFieldType::Memory, spec_u64_to_le_bytes(mem_bits)),
    ]);
    let msg = EventBusMessage::new("usage", EventType::HWusage, Some(fields));
    let payload = msg.format_bytes();
    proof {
        reveal_strlit("usage");
        assert("usage"@ =~= usage_title());
        assert(payload@ == usage_payload(cpu_bits, mem_bits));
    }
    event_bus.publish(EVENT_TOPIC, &payload);
}

} // verus!
