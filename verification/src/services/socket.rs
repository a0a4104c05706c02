//! The socket ingestion side of the bus: parsing a client's JSON status
//! report and publishing it as a socket-origin event.
//!
//! The wire schema is a UTF-8 JSON object with exactly two string fields,
//! `title` and `status`, NUL-padded to the read buffer; trailing NUL
//! bytes are trimmed before the parse. Accepting connections and reading
//! the buffer are I/O, outside the library; this module turns the read
//! bytes into a published event. String escapes cover the single-character
//! JSON escapes; `\u` escapes are rejected as malformed.

use vstd::prelude::*;
use vstd::string::{StrSliceExecFns, StringSliceAdditionalSpecFns};
use vstd::utf8::{decode_utf8, valid_utf8};

use crate::models::event_bus_field_type::EventFieldType;
use crate::models::event_bus_message::{
    lemma_dedup_singleton, pairs_view, spec_encode, utf8_to_string, DecodeError,
    EventBusMessage,
};
use crate::models::event_type::EventType;
use crate::models::socket_message::SocketMessage;
use crate::services::event_bus::{EventBus, Subscriber};

verus! {

/// The topic the socket endpoint publishes on.
pub const EVENT_TOPIC: &'static str = "socket_service";

/// The status text that removes a title instead of setting it.
pub const SOCKET_DONE_TEXT: &'static str = "done";

/// JSON whitespace.
pub open spec fn is_ws(b: u8) -> bool {
    b == 32 || b == 9 || b == 10 || b == 13
}

/// The first non-whitespace position at or after `i`.
pub open spec fn skip_ws(s: Seq<u8>, i: int) -> int
    decreases s.len() - i,
    when 0 <= i <= s.len()
{
    if i < s.len() && is_ws(s[i]) {
        skip_ws(s, i + 1)
    } else {
        i
    }
}

pub proof fn lemma_skip_ws(s: Seq<u8>, i: int)
    requires
        0 <= i <= s.len(),
    ensures
        i <= skip_ws(s, i) <= s.len(),
    decreases s.len() - i,
{
    if i < s.len() && is_ws(s[i]) {
        lemma_skip_ws(s, i + 1);
    }
}

/// The byte denoted by a single-character JSON escape, if any.
pub open spec fn esc_byte(b: u8) -> Option<u8> {
    if b == 34 {
        Some(34u8)
    } else if b == 92 {
        Some(92u8)
    } else if b == 47 {
        Some(47u8)
    } else if b == 98 {
        Some(8u8)
    } else if b == 102 {
        Some(12u8)
    } else if b == 110 {
        Some(10u8)
    } else if b == 114 {
        Some(13u8)
    } else if b == 116 {
        Some(9u8)
    } else {
        None
    }
}

/// Parses the body of a JSON string starting right after its opening
/// quote: the decoded bytes and the position right after the closing
/// quote. Control bytes, unknown escapes, and an unterminated string are
/// malformed.
pub open spec fn parse_string_body(s: Seq<u8>, i: int) -> Option<(Seq<u8>, int)>
    decreases s.len() - i,
    when 0 <= i <= s.len()
{
    if i >= s.len() {
        None
    } else if s[i] == 34 {
        Some((Seq::empty(), i + 1))
    } else if s[i] == 92 {
        if i + 1 < s.len() {
            match esc_byte(s[i + 1]) {
                Some(e) => match parse_string_body(s, i + 2) {
                    Some(p) => Some((seq![e] + p.0, p.1)),
                    None => None,
                },
                None => None,
            }
        } else {
            None
        }
    } else if s[i] < 32 {
        None
    } else {
        match parse_string_body(s, i + 1) {
            Some(p) => Some((seq![s[i]] + p.0, p.1)),
            None => None,
        }
    }
}

pub proof fn lemma_parse_string_body_bounds(s: Seq<u8>, i: int)
    requires
        0 <= i <= s.len(),
    ensures
        parse_string_body(s, i) matches Some(p) ==> i < p.1 <= s.len(),
    decreases s.len() - i,
{
    if i < s.len() && s[i] != 34 {
        if s[i] == 92 {
            if i + 1 < s.len() && esc_byte(s[i + 1]) is Some {
                lemma_parse_string_body_bounds(s, i + 2);
            }
        } else if s[i] >= 32 {
            lemma_parse_string_body_bounds(s, i + 1);
        }
    }
}

/// Parses one `"key" : "value"` member, leading whitespace included; the
/// position returned stands right after the value's closing quote.
pub open spec fn parse_member(s: Seq<u8>, i: int) -> Option<(Seq<u8>, Seq<u8>, int)>
    recommends
        0 <= i <= s.len(),
{
    let i1 = skip_ws(s, i);
    if !(i1 < s.len() && s[i1] == 34) {
        None
    } else {
        match parse_string_body(s, i1 + 1) {
            None => None,
            Some(k) => {
                let i3 = skip_ws(s, k.1);
                if !(i3 < s.len() && s[i3] == 58) {
                    None
                } else {
                    let i4 = skip_ws(s, i3 + 1);
                    if !(i4 < s.len() && s[i4] == 34) {
                        None
                    } else {
                        match parse_string_body(s, i4 + 1) {
                            None => None,
                            Some(v) => Some((k.0, v.0, v.1)),
                        }
                    }
                }
            },
        }
    }
}

/// The `title` key's bytes.
pub open spec fn title_key() -> Seq<u8> {
    seq!['t' as u8, 'i' as u8, 't' as u8, 'l' as u8, 'e' as u8]
}

/// The `status` key's bytes.
pub open spec fn status_key() -> Seq<u8> {
    seq!['s' as u8, 't' as u8, 'a' as u8, 't' as u8, 'u' as u8, 's' as u8]
}

/// Parses a socket payload: a JSON object holding exactly a `title` and
/// a `status` string member, in either order, and nothing else. The
/// result is the pair of decoded byte strings, title first.
pub open spec fn spec_parse_socket(s: Seq<u8>) -> Option<(Seq<u8>, Seq<u8>)> {
    let i0 = skip_ws(s, 0);
    if !(i0 < s.len() && s[i0] == 123) {
        None
    } else {
        match parse_member(s, i0 + 1) {
            None => None,
            Some(m1) => {
                let i2 = skip_ws(s, m1.2);
                if !(i2 < s.len() && s[i2] == 44) {
                    None
                } else {
                    match parse_member(s, i2 + 1) {
                        None => None,
                        Some(m2) => {
                            let i4 = skip_ws(s, m2.2);
                            if !(i4 < s.len() && s[i4] == 125) {
                                None
                            } else if skip_ws(s, i4 + 1) != s.len() {
                                None
                            } else if m1.0 == title_key() && m2.0 == status_key() {
                                Some((m1.1, m2.1))
                            } else if m1.0 == status_key() && m2.0 == title_key() {
                                Some((m2.1, m1.1))
                            } else {
                                None
                            }
                        },
                    }
                }
            },
        }
    }
}

/// The buffer with its trailing NUL padding removed.
pub open spec fn trim_nuls(s: Seq<u8>) -> Seq<u8>
    decreases s.len(),
{
    if s.len() > 0 && s.last() == 0 {
        trim_nuls(s.drop_last())
    } else {
        s
    }
}

/// The wire payload of one socket-origin event.
pub open spec fn socket_event_payload(title: Seq<char>, status_bytes: Seq<u8>) -> Seq<u8> {
    spec_encode(
        title,
        EventType::Socket,
        seq![(EventFieldType::Description, status_bytes)],
    )
}

/// The first non-whitespace position at or after `i`, executable form.
fn skip_ws_exec(s: &[u8], i: usize) -> (r: usize)
    requires
        i <= s@.len(),
    ensures
        r == skip_ws(s@, i as int),
        i <= r <= s@.len(),
{
    proof {
        lemma_skip_ws(s@, i as int);
    }
    let n = s.len();
    let mut j = i;
    while j < n && (s[j] == 32 || s[j] == 9 || s[j] == 10 || s[j] == 13)
        invariant
            i <= j <= n,
            n == s@.len(),
            skip_ws(s@, i as int) == skip_ws(s@, j as int),
        decreases n - j,
    {
        proof {
            assert(is_ws(s@[j as int]));
        }
        j += 1;
    }
    proof {
        lemma_skip_ws(s@, i as int);
        if j < n {
            assert(!is_ws(s@[j as int]));
        }
    }
    j
}

/// The escape's byte, executable form.
fn esc_byte_exec(b: u8) -> (r: Option<u8>)
    ensures
        r == esc_byte(b),
{
    if b == 34 {
        Some(34)
    } else if b == 92 {
        Some(92)
    } else if b == 47 {
        Some(47)
    } else if b == 98 {
        Some(8)
    } else if b == 102 {
        Some(12)
    } else if b == 110 {
        Some(10)
    } else if b == 114 {
        Some(13)
    } else if b == 116 {
        Some(9)
    } else {
        None
    }
}

/// Parses a JSON string body, executable form.
fn parse_string_body_exec(s: &[u8], start: usize) -> (r: Option<(Vec<u8>, usize)>)
    requires
        start <= s@.len(),
    ensures
        match r {
            Some(p) => parse_string_body(s@, start as int) == Some((p.0@, p.1 as int)) && start
                < p.1 <= s@.len(),
            None => parse_string_body(s@, start as int) is None,
        },
{
    proof {
        lemma_parse_string_body_bounds(s@, start as int);
    }
    let n = s.len();
    let mut acc: Vec<u8> = Vec::new();
    let mut i = start;
    assert(acc@ =~= Seq::<u8>::empty());
    while i < n
        invariant
            start <= i <= n,
            n == s@.len(),
            parse_string_body(s@, start as int) == (match parse_string_body(s@, i as int) {
                Some(p) => Some::<(Seq<u8>, int)>((acc@ + p.0, p.1)),
                None => None::<(Seq<u8>, int)>,
            }),
        decreases n - i,
    {
        let b = s[i];
        if b == 34 {
            proof {
                assert(parse_string_body(s@, i as int) == Some((Seq::<u8>::empty(), i + 1)));
                assert(acc@ + Seq::<u8>::empty() =~= acc@);
                lemma_parse_string_body_bounds(s@, start as int);
            }
            return Some((acc, i + 1));
        } else if b == 92 {
            if i + 1 >= n {
                assert(parse_string_body(s@, i as int) is None);
                return None;
            }
            let e = match esc_byte_exec(s[i + 1]) {
                Some(e) => e,
                None => {
                    assert(parse_string_body(s@, i as int) is None);
                    return None;
                },
            };
            let ghost pre = acc@;
            acc.push(e);
            proof {
                assert forall|p0: Seq<u8>| true implies pre + (seq![e] + p0) =~= acc@ + p0 by {}
                assert(parse_string_body(s@, start as int) == (
                match parse_string_body(s@, i + 2) {
                    Some(p) => Some::<(Seq<u8>, int)>((acc@ + p.0, p.1)),
                    None => None::<(Seq<u8>, int)>,
                }));
            }
            i += 2;
        } else if b < 32 {
            assert(parse_string_body(s@, i as int) is None);
            return None;
        } else {
            let ghost pre = acc@;
            acc.push(b);
            proof {
                assert forall|p0: Seq<u8>| true implies pre + (seq![b] + p0) =~= acc@ + p0 by {}
                assert(parse_string_body(s@, start as int) == (
                match parse_string_body(s@, i + 1) {
                    Some(p) => Some::<(Seq<u8>, int)>((acc@ + p.0, p.1)),
                    None => None::<(Seq<u8>, int)>,
                }));
            }
            i += 1;
        }
    }
    assert(parse_string_body(s@, i as int) is None);
    None
}

/// Parses one member, executable form.
fn parse_member_exec(s: &[u8], i: usize) -> (r: Option<(Vec<u8>, Vec<u8>, usize)>)
    requires
        i <= s@.len(),
    ensures
        match r {
            Some(m) => parse_member(s@, i as int) == Some((m.0@, m.1@, m.2 as int)) && i < m.2
                <= s@.len(),
            None => parse_member(s@, i as int) is None,
        },
{
    let n = s.len();
    let i1 = skip_ws_exec(s, i);
    if !(i1 < n && s[i1] == 34) {
        return None;
    }
    let (k, i2) = match parse_string_body_exec(s, i1 + 1) {
        Some(p) => p,
        None => {
            return None;
        },
    };
    let i3 = skip_ws_exec(s, i2);
    if !(i3 < n && s[i3] == 58) {
        return None;
    }
    let i4 = skip_ws_exec(s, i3 + 1);
    if !(i4 < n && s[i4] == 34) {
        return None;
    }
    let (v, i5) = match parse_string_body_exec(s, i4 + 1) {
        Some(p) => p,
        None => {
            return None;
        },
    };
    Some((k, v, i5))
}

/// Trims the trailing NUL padding off the read buffer.
fn trim_nuls_exec<'a>(s: &'a [u8]) -> (r: &'a [u8])
    ensures
        r@ == trim_nuls(s@),
{
    let n = s.len();
    let mut hi = n;
    assert(s@.subrange(0, n as int) =~= s@);
    while hi > 0 && s[hi - 1] == 0
        invariant
            hi <= n,
            n == s@.len(),
            trim_nuls(s@) == trim_nuls(s@.subrange(0, hi as int)),
        decreases hi,
    {
        proof {
            let cur = s@.subrange(0, hi as int);
            assert(cur.last() == s@[hi - 1]);
            assert(cur.drop_last() =~= s@.subrange(0, hi - 1));
        }
        hi -= 1;
    }
    proof {
        let cur = s@.subrange(0, hi as int);
        if hi > 0 {
            assert(cur.last() == s@[hi - 1]);
        }
        assert(trim_nuls(cur) == cur);
    }
    vstd::slice::slice_subrange(s, 0, hi)
}

/// Checks a parsed key against one of the two known key names.
fn key_is(k: &Vec<u8>, name: &str) -> (r: bool)
    ensures
        r == (k@ == name.spec_bytes()),
{
    broadcast use vstd::utf8::encode_utf8_decode_utf8;

    let nb = name.as_bytes();
    if k.len() != nb.len() {
        return false;
    }
    let n = k.len();
    let mut i: usize = 0;
    while i < n
        invariant
            i <= n,
            n == k@.len() == nb@.len(),
            nb@ == name.spec_bytes(),
            forall|j: int| 0 <= j < i ==> k@[j] == nb@[j],
        decreases n - i,
    {
        if k[i] != nb[i] {
            return false;
        }
        i += 1;
    }
    assert(k@ =~= nb@);
    true
}

/// Parses a NUL-padded socket payload into a client report. Exactly the
/// buffers whose trimmed bytes form the two-field JSON object parse; the
/// two decoded strings must be valid UTF-8.
pub fn parse_socket_message(buffer: &[u8]) -> (r: Result<SocketMessage, DecodeError>)
    ensures
        ({
            let t = trim_nuls(buffer@);
            match spec_parse_socket(t) {
                Some(p) => if valid_utf8(p.0) && valid_utf8(p.1) {
                    r matches Ok(m) && m.title@ == decode_utf8(p.0) && m.status@ == decode_utf8(
                        p.1,
                    )
                } else {
                    r == Err::<SocketMessage, DecodeError>(DecodeError::InvalidUtf8)
                },
                None => r == Err::<SocketMessage, DecodeError>(DecodeError::MalformedJson),
            }
        }),
{
    let s = trim_nuls_exec(buffer);
    let n = s.len();
    let i0 = skip_ws_exec(s, 0);
    if !(i0 < n && s[i0] == 123) {
        return Err(DecodeError::MalformedJson);
    }
    let (k1, v1, i1) = match parse_member_exec(s, i0 + 1) {
        Some(m) => m,
        None => {
            return Err(DecodeError::MalformedJson);
        },
    };
    let i2 = skip_ws_exec(s, i1);
    if !(i2 < n && s[i2] == 44) {
        return Err(DecodeError::MalformedJson);
    }
    let (k2, v2, i3) = match parse_member_exec(s, i2 + 1) {
        Some(m) => m,
        None => {
            return Err(DecodeError::MalformedJson);
        },
    };
    let i4 = skip_ws_exec(s, i3);
    if !(i4 < n && s[i4] == 125) {
        return Err(DecodeError::MalformedJson);
    }
    if skip_ws_exec(s, i4 + 1) != n {
        return Err(DecodeError::MalformedJson);
    }
    proof {
        lemma_key_literals();
    }
    let (tb, sb) = if key_is(&k1, "title") && key_is(&k2, "status") {
        (v1, v2)
    } else if key_is(&k1, "status") && key_is(&k2, "title") {
        (v2, v1)
    } else {
        return Err(DecodeError::MalformedJson);
    };
    let title = match utf8_to_string(tb) {
        Some(t) => t,
        None => {
            return Err(DecodeError::InvalidUtf8);
        },
    };
    let status = match utf8_to_string(sb) {
        Some(t) => t,
        None => {
            return Err(DecodeError::InvalidUtf8);
        },
    };
    Ok(SocketMessage { title, status })
}

/// The key literals are the key byte names.
proof fn lemma_key_literals()
    ensures
        "title".spec_bytes() == title_key(),
        "status".spec_bytes() == status_key(),
{
    reveal_strlit("title");
    reveal_strlit("status");
    assert(vstd::utf8::is_ascii_chars("title"@));
    assert(vstd::utf8::is_ascii_chars("status"@));
    vstd::utf8::is_ascii_chars_encode_utf8("title"@);
    vstd::utf8::is_ascii_chars_encode_utf8("status"@);
    assert("title".spec_bytes() =~= title_key());
    assert("status".spec_bytes() =~= status_key());
}

/// Handles one socket read: parses the padded buffer and publishes the
/// client's report as a socket-origin event, so that every subscriber of
/// the topic handles exactly one payload carrying the title and status.
/// A malformed or non-UTF-8 buffer is reported and publishes nothing,
/// leaving the bus untouched.
pub fn process_message<S: Subscriber>(buffer: Vec<u8>, event_bus: &mut EventBus<S>) -> (r: Result<
    (),
    DecodeError,
>)
    ensures
        ({
            let t = trim_nuls(buffer@);
            match spec_parse_socket(t) {
                Some(p) => if valid_utf8(p.0) && valid_utf8(p.1) {
                    let payload = socket_event_payload(decode_utf8(p.0), p.1);
                    let pre = old(event_bus).subs_of(EVENT_TOPIC@);
                    let post = final (event_bus).subs_of(EVENT_TOPIC@);
                    &&& r is Ok
                    &&& post.len() == pre.len()
                    &&& forall|i: int|
                        0 <= i < pre.len() ==> (#[trigger] post[i]).0 == pre[i].0 && S::handled(
                            pre[i].1,
                            post[i].1,
                            payload,
                        )
                } else {
                    &&& r == Err::<(), DecodeError>(DecodeError::InvalidUtf8)
                    &&& *final (event_bus) == *old(event_bus)
                },
                None => {
                    &&& r == Err::<(), DecodeError>(DecodeError::MalformedJson)
                    &&& *final (event_bus) == *old(event_bus)
                },
            }
        }),
        forall|topic: Seq<char>|
            topic != EVENT_TOPIC@ ==> #[trigger] final (event_bus).subs_of(topic) == old(
                event_bus,
            ).subs_of(topic),
{
    broadcast use vstd::utf8::decode_utf8_encode_utf8;

    let msg = match parse_socket_message(buffer.as_slice()) {
        Ok(m) => m,
        Err(e) => {
            return Err(e);
        },
    };
    let ghost p = spec_parse_socket(trim_nuls(buffer@))->Some_0;
    let desc = msg.status.as_str().as_bytes_vec();
    proof {
        assert(desc@ == vstd::utf8::encode_utf8(decode_utf8(p.1)));
        assert(desc@ == p.1);
        lemma_dedup_singleton(EventFieldType::Description, desc@);
    }
    let fields = vec![(EventFieldType::Description, desc)];
    assert(pairs_view(fields@) =~= seq![(EventFieldType::Description, p.1)]);
    let event = EventBusMessage::new(msg.title.as_str(), EventType::Socket, Some(fields));
    let payload = event.format_bytes();
    assert(payload@ == socket_event_payload(decode_utf8(p.0), p.1));
    event_bus.publish(EVENT_TOPIC, &payload);
    Ok(())
}

} // verus!
