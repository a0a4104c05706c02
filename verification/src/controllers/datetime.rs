//! The clock display state: the latest published timestamp, and its
//! wall-time rendering.

use vstd::arithmetic::div_mod::{lemma_fundamental_div_mod, lemma_fundamental_div_mod_converse};
use vstd::prelude::*;
use vstd::slice::slice_to_vec;
use vstd::string::{StrSliceExecFns, StringExecFns};

use crate::models::event_bus_field_type::EventFieldType;
use crate::models::event_bus_message::{
    lemma_dedup_map, lemma_not_found_len, map_of_pairs, spec_decode, DecodeError,
    EventBusMessage,
};
use crate::services::event_bus::Subscriber;
use crate::utils::bytes_helper::{bytes_to_i64, spec_i64_from_le_bytes};
use crate::utils::clock::now_timestamp;

verus! {

/// The timestamp a decoded event sets, when it carries a well-formed
/// 8-byte `Timestamp` field; otherwise the previous one stays.
pub open spec fn ts_after(pre: i64, payload: Seq<u8>) -> i64 {
    match spec_decode(payload) {
        Ok(d) => {
            let fm = map_of_pairs(d.2);
            if fm.contains_key(EventFieldType::Timestamp) && fm[EventFieldType::Timestamp].len()
                == 8 {
                spec_i64_from_le_bytes(fm[EventFieldType::Timestamp])
            } else {
                pre
            }
        },
        Err(_) => pre,
    }
}

/// The digit character of one decimal digit.
pub open spec fn digit_char(d: int) -> char {
    seq!['0', '1', '2', '3', '4', '5', '6', '7', '8', '9'][d]
}

/// A zero-padded two-digit rendering.
pub open spec fn two_digits(n: int) -> Seq<char> {
    seq![digit_char(n / 10), digit_char(n % 10)]
}

/// The second of the day a timestamp falls on, for any sign.
pub open spec fn time_of_day(ts: i64) -> int {
    (ts as int) % 86400
}

/// The `HH:MM:SS` rendering of a second of the day.
pub open spec fn hhmmss_chars(t: int) -> Seq<char> {
    two_digits(t / 3600) + seq![':'] + two_digits((t % 3600) / 60) + seq![':'] + two_digits(
        t % 60,
    )
}

/// The consumer-side clock state, fed by the wall-clock producer's
/// events.
pub struct DateTimeController {
    timestamp: i64,
}

impl View for DateTimeController {
    type V = i64;

    closed spec fn view(&self) -> i64 {
        self.timestamp
    }
}

/// Appends the two-digit rendering of `n`.
fn push_two_digits(out: &mut String, n: u64)
    requires
        n <= 99,
    ensures
        final (out)@ == old(out)@ + two_digits(n as int),
{
    let digits = "0123456789";
    proof {
        reveal_strlit("0123456789");
        assert(vstd::utf8::is_ascii_chars(digits@));
    }
    let d1 = (n / 10) as usize;
    let d2 = (n % 10) as usize;
    let ghost pre = out@;
    out.append(digits.substring_ascii(d1, d1 + 1));
    out.append(digits.substring_ascii(d2, d2 + 1));
    proof {
        assert(digits@.subrange(d1 as int, d1 + 1) =~= seq![digit_char(n as int / 10)]);
        assert(digits@.subrange(d2 as int, d2 + 1) =~= seq![digit_char(n as int % 10)]);
        assert(out@ =~= pre + two_digits(n as int));
    }
}

impl DateTimeController {
    /// A controller that starts from the current wall-clock time, as the
    /// display has nothing better until the first event arrives.
    pub fn new() -> (r: Self)
    {
        DateTimeController { timestamp: now_timestamp() }
    }

    /// Decodes a published payload and takes its `Timestamp` field over
    /// as the new clock value; a malformed payload is reported and
    /// changes nothing, and a decoded event without a well-formed
    /// 8-byte field is dropped silently.
    pub fn on_event(&mut self, data: &Vec<u8>) -> (r: Result<(), DecodeError>)
        ensures
            final (self)@ == ts_after(old(self)@, data@),
            r matches Err(e) ==> spec_decode(data@) == Err::<
                (Seq<char>, crate::models::event_type::EventType, Seq<(EventFieldType, Seq<u8>)>),
                DecodeError,
            >(e),
            spec_decode(data@) is Ok ==> r is Ok,
    {
        let msg = match EventBusMessage::from_bytes(slice_to_vec(data.as_slice())) {
            Ok(m) => m,
            Err(e) => {
                return Err(e);
            },
        };
        proof {
            lemma_dedup_map(spec_decode(data@)->Ok_0.2);
        }
        let v = msg.get_field(EventFieldType::Timestamp);
        proof {
            if !msg@.field_map().contains_key(EventFieldType::Timestamp) {
                lemma_not_found_len();
                assert(v@.len() != 8);
            }
        }
        if v.len() == 8 {
            self.timestamp = bytes_to_i64(v);
        }
        Ok(())
    }

    /// The clock value as `HH:MM:SS` wall time.
    pub fn get_formatted_time(&self) -> (r: String)
        ensures
            r@ == hhmmss_chars(time_of_day(self@)),
    {
        let ts = self.timestamp;
        let day: u64 = if ts >= 0 {
            (ts as u64) % 86400
        } else {
            let mag = (-(ts as i128)) as u64;
            let rem = mag % 86400;
            proof {
                lemma_fundamental_div_mod(mag as int, 86400);
                let q = mag as int / 86400;
                if rem == 0 {
                    lemma_fundamental_div_mod_converse(ts as int, 86400, -q, 0);
                } else {
                    lemma_fundamental_div_mod_converse(
                        ts as int,
                        86400,
                        -q - 1,
                        86400 - rem,
                    );
                }
            }
            if rem == 0 {
                0
            } else {
                86400 - rem
            }
        };
        assert(day == time_of_day(ts));
        assert(day < 86400);
        let h = day / 3600;
        let m = (day % 3600) / 60;
        let s = day % 60;
        let mut out = String::new();
        push_two_digits(&mut out, h);
        out.append(":");
        push_two_digits(&mut out, m);
        out.append(":");
        push_two_digits(&mut out, s);
        proof {
            reveal_strlit(":");
            assert(":"@ =~= seq![':']);
            assert(out@ =~= hhmmss_chars(time_of_day(ts)));
        }
        out
    }
}

impl Subscriber for DateTimeController {
    /// One delivery moves the clock to the payload's timestamp field
    /// when it is well-formed, and leaves it otherwise.
    open spec fn handled(pre: Self, post: Self, payload: Seq<u8>) -> bool {
        post@ == ts_after(pre@, payload)
    }

    fn handle(&mut self, payload: &Vec<u8>) {
        let _ = self.on_event(payload);
    }
}

} // verus!
