//! The event codec: the structured unit published on the bus, its byte
//! encoding and its decoding.

use vstd::prelude::*;
use vstd::slice::{slice_subrange, slice_to_vec};
use vstd::string::{StrSliceExecFns, StringExecFns, StringSliceAdditionalSpecFns};
use vstd::utf8::{decode_utf8, encode_utf8, valid_utf8};

use crate::models::event_bus_field_type::{
    key_chars, key_from_bytes, key_name, key_of_bytes, EventFieldType,
};
use crate::models::event_type::{kind_of_value, kind_value, EventType};
use crate::models::wire_format::{
    dec_of, find_first, first_index_of, join_bytes, parse_byte_list, parse_byte_list_exec,
    parse_u8_dec, parse_u8_dec_exec, render_byte_list, render_byte_list_exec, split_bytes,
    split_bytes_exec, u8_to_dec, EQUALS, PIPE,
};
use crate::utils::clock::now_timestamp;

verus! {

/// A message must carry at least a title and a kind segment.
pub const MIN_MESSAGE_LENGTH: usize = 2;

/// Why a byte sequence failed to decode as an event. Malformed input is
/// always rejected with one of these; a partial event is never constructed.
#[derive(Clone, Copy, PartialEq, Eq, Structural, Debug)]
pub enum DecodeError {
    /// Fewer than the two mandatory `title|kind` segments.
    MissingSegments,
    /// The title bytes are not valid UTF-8.
    InvalidUtf8,
    /// The kind segment is not one of the known small integers.
    InvalidKind,
    /// A field segment has no `=` separator.
    MissingFieldValue,
    /// A field key that is none of the known field names.
    UnknownFieldKey,
    /// A numeric field value that is not a bracketed decimal byte list.
    InvalidFieldValue,
    /// A socket payload that is not a two-string-field JSON object.
    MalformedJson,
}

/// The mathematical content of an event: its title, kind, typed fields in
/// insertion order, and the local timestamp used for TTL bookkeeping.
pub ghost struct EventView {
    pub title: Seq<char>,
    pub kind: EventType,
    pub fields: Seq<(EventFieldType, Seq<u8>)>,
    pub ts: i64,
}

impl EventView {
    /// The fields as a map; with duplicate keys the later pair wins.
    pub open spec fn field_map(self) -> Map<EventFieldType, Seq<u8>> {
        map_of_pairs(self.fields)
    }
}

/// The field pairs of a field vector, by view.
pub open spec fn pairs_view(s: Seq<(EventFieldType, Vec<u8>)>) -> Seq<(EventFieldType, Seq<u8>)> {
    Seq::new(s.len(), |i: int| (s[i].0, s[i].1@))
}

/// Folds field pairs into a map; a later pair overwrites an earlier one
/// with the same key.
pub open spec fn map_of_pairs(s: Seq<(EventFieldType, Seq<u8>)>) -> Map<EventFieldType, Seq<u8>>
    decreases s.len(),
{
    if s.len() == 0 {
        Map::empty()
    } else {
        map_of_pairs(s.drop_last()).insert(s.last().0, s.last().1)
    }
}

/// No two pairs share a key.
pub open spec fn unique_keys(s: Seq<(EventFieldType, Seq<u8>)>) -> bool {
    forall|i: int, j: int| 0 <= i < j < s.len() ==> (#[trigger] s[i]).0 != (#[trigger] s[j]).0
}

/// The first index holding key `k`, or -1 when absent.
pub open spec fn key_index(s: Seq<(EventFieldType, Seq<u8>)>, k: EventFieldType) -> int
    decreases s.len(),
{
    if s.len() == 0 {
        -1
    } else if s[0].0 == k {
        0
    } else {
        let r = key_index(s.drop_first(), k);
        if r < 0 {
            -1
        } else {
            r + 1
        }
    }
}

pub proof fn lemma_key_index(s: Seq<(EventFieldType, Seq<u8>)>, k: EventFieldType)
    ensures
        -1 <= key_index(s, k) < s.len(),
        key_index(s, k) >= 0 ==> s[key_index(s, k)].0 == k,
        forall|j: int| 0 <= j < key_index(s, k) ==> (#[trigger] s[j]).0 != k,
        key_index(s, k) < 0 ==> forall|j: int| 0 <= j < s.len() ==> (#[trigger] s[j]).0 != k,
    decreases s.len(),
{
    if s.len() == 0 {
    } else if s[0].0 == k {
    } else {
        lemma_key_index(s.drop_first(), k);
        let r = key_index(s.drop_first(), k);
        assert forall|j: int| 1 <= j < s.len() implies s[j] == s.drop_first()[j - 1] by {}
    }
}

/// Replaces the value of the first pair with key `k`, or appends a new
/// pair when the key is absent.
pub open spec fn upsert_pair(
    s: Seq<(EventFieldType, Seq<u8>)>,
    k: EventFieldType,
    v: Seq<u8>,
) -> Seq<(EventFieldType, Seq<u8>)> {
    let i = key_index(s, k);
    if i >= 0 {
        s.update(i, (k, v))
    } else {
        s.push((k, v))
    }
}

/// Collapses duplicate keys, keeping each key at its first position with
/// its latest value.
pub open spec fn dedup_fields(s: Seq<(EventFieldType, Seq<u8>)>) -> Seq<(EventFieldType, Seq<u8>)>
    decreases s.len(),
{
    if s.len() == 0 {
        Seq::empty()
    } else {
        upsert_pair(dedup_fields(s.drop_last()), s.last().0, s.last().1)
    }
}

/// The wire rendering of one field value: `Description` travels verbatim,
/// numeric values as a bracketed decimal list.
pub open spec fn render_value(k: EventFieldType, v: Seq<u8>) -> Seq<u8> {
    match k {
        EventFieldType::Description => v,
        _ => render_byte_list(v),
    }
}

/// The wire segment of one field: `key=value`.
pub open spec fn field_segment(k: EventFieldType, v: Seq<u8>) -> Seq<u8> {
    key_name(k) + seq![EQUALS] + render_value(k, v)
}

/// All wire segments of a message: title, kind, then one per field.
pub open spec fn encode_segments(
    title: Seq<char>,
    kind: EventType,
    fields: Seq<(EventFieldType, Seq<u8>)>,
) -> Seq<Seq<u8>> {
    seq![encode_utf8(title), dec_of(kind_value(kind))] + fields.map_values(
        |p: (EventFieldType, Seq<u8>)| field_segment(p.0, p.1),
    )
}

/// The byte encoding of a message: its segments joined with `|`.
pub open spec fn spec_encode(
    title: Seq<char>,
    kind: EventType,
    fields: Seq<(EventFieldType, Seq<u8>)>,
) -> Seq<u8> {
    join_bytes(encode_segments(title, kind, fields), PIPE)
}

/// Parses one `key=value` wire segment.
pub open spec fn parse_field_segment(seg: Seq<u8>) -> Result<
    (EventFieldType, Seq<u8>),
    DecodeError,
> {
    let i = first_index_of(seg, EQUALS);
    if i < 0 {
        Err(DecodeError::MissingFieldValue)
    } else {
        let keyb = seg.take(i);
        let valb = seg.skip(i + 1);
        match key_of_bytes(keyb) {
            None => Err(DecodeError::UnknownFieldKey),
            Some(k) => match k {
                EventFieldType::Description => Ok((k, valb)),
                _ => match parse_byte_list(valb) {
                    Some(bs) => Ok((k, bs)),
                    None => Err(DecodeError::InvalidFieldValue),
                },
            },
        }
    }
}

/// Parses the field segments in order; the first failure wins.
pub open spec fn parse_field_segments(segs: Seq<Seq<u8>>) -> Result<
    Seq<(EventFieldType, Seq<u8>)>,
    DecodeError,
>
    decreases segs.len(),
{
    if segs.len() == 0 {
        Ok(Seq::empty())
    } else {
        match parse_field_segments(segs.drop_last()) {
            Err(e) => Err(e),
            Ok(acc) => match parse_field_segment(segs.last()) {
                Err(e) => Err(e),
                Ok(p) => Ok(acc.push(p)),
            },
        }
    }
}

/// The decoding of a byte sequence: title characters, kind, and field
/// pairs in wire order, or the first decode error.
pub open spec fn spec_decode(data: Seq<u8>) -> Result<
    (Seq<char>, EventType, Seq<(EventFieldType, Seq<u8>)>),
    DecodeError,
> {
    let segs = split_bytes(data, PIPE);
    if segs.len() < MIN_MESSAGE_LENGTH {
        Err(DecodeError::MissingSegments)
    } else if !valid_utf8(segs[0]) {
        Err(DecodeError::InvalidUtf8)
    } else {
        match parse_u8_dec(segs[1]) {
            None => Err(DecodeError::InvalidKind),
            Some(v) => match kind_of_value(v) {
                None => Err(DecodeError::InvalidKind),
                Some(kind) => match parse_field_segments(segs.skip(2)) {
                    Err(e) => Err(e),
                    Ok(fs) => Ok((decode_utf8(segs[0]), kind, fs)),
                },
            },
        }
    }
}

/// The unit of communication: a titled, typed, field-carrying message.
///
/// The timestamp is wall-clock seconds at construction time, used only for
/// local TTL bookkeeping; it does not survive the wire (decoding re-stamps
/// it with the current time).
#[derive(Debug)]
pub struct EventBusMessage {
    title: String,
    fields: Vec<(EventFieldType, Vec<u8>)>,
    event_type: EventType,
    timestamp: i64,
}

impl View for EventBusMessage {
    type V = EventView;

    closed spec fn view(&self) -> EventView {
        EventView {
            title: self.title@,
            kind: self.event_type,
            fields: pairs_view(self.fields@),
            ts: self.timestamp,
        }
    }
}

/// Relies on std's `String::from_utf8`: it accepts exactly the valid UTF-8
/// byte sequences and decodes them without loss.
#[verifier::external_body]
pub(crate) fn utf8_to_string(bytes: Vec<u8>) -> (r: Option<String>)
    ensures
        r is Some <==> valid_utf8(bytes@),
        r matches Some(s) ==> s@ == decode_utf8(bytes@),
{
    String::from_utf8(bytes).ok()
}

/// Replaces the value of the first pair with key `k`, or appends one.
fn insert_field(fields: &mut Vec<(EventFieldType, Vec<u8>)>, k: EventFieldType, v: Vec<u8>)
    ensures
        pairs_view(final(fields)@) == upsert_pair(pairs_view(old(fields)@), k, v@),
{
    let ghost gs = pairs_view(fields@);
    proof {
        lemma_key_index(gs, k);
    }
    let n = fields.len();
    let mut i: usize = 0;
    while i < n
        invariant
            i <= n,
            n == fields@.len(),
            fields@ == old(fields)@,
            gs == pairs_view(fields@),
            forall|j: int| 0 <= j < i ==> (#[trigger] gs[j]).0 != k,
        decreases n - i,
    {
        if fields[i].0 == k {
            proof {
                lemma_key_index(gs, k);
                assert(gs[i as int].0 == k);
                assert(key_index(gs, k) == i);
            }
            let slot = &mut fields[i];
            *slot = (k, v);
            assert(pairs_view(fields@) =~= upsert_pair(gs, k, v@));
            return ;
        }
        assert(gs[i as int].0 != k);
        i += 1;
    }
    proof {
        lemma_key_index(gs, k);
        assert(key_index(gs, k) < 0);
    }
    fields.push((k, v));
    assert(pairs_view(fields@) =~= upsert_pair(gs, k, v@));
}

impl EventBusMessage {
    /// No two stored fields share a key.
    #[verifier::type_invariant]
    spec fn wf(self) -> bool {
        unique_keys(self@.fields)
    }

    /// Collapses a field list into unique-key form, keeping each key at
    /// its first position with its latest value.
    fn create_fields(fields: Vec<(EventFieldType, Vec<u8>)>) -> (r: Vec<
        (EventFieldType, Vec<u8>),
    >)
        ensures
            pairs_view(r@) == dedup_fields(pairs_view(fields@)),
            unique_keys(pairs_view(r@)),
    {
        let ghost gs = pairs_view(fields@);
        let n = fields.len();
        let mut out: Vec<(EventFieldType, Vec<u8>)> = Vec::new();
        let mut i: usize = 0;
        assert(pairs_view(out@) =~= dedup_fields(gs.take(0)));
        while i < n
            invariant
                i <= n,
                n == fields@.len(),
                gs == pairs_view(fields@),
                pairs_view(out@) == dedup_fields(gs.take(i as int)),
                unique_keys(pairs_view(out@)),
            decreases n - i,
        {
            let (k, v) = &fields[i];
            let ghost pre = pairs_view(out@);
            insert_field(&mut out, *k, slice_to_vec(v.as_slice()));
            proof {
                assert(gs.take(i + 1).drop_last() =~= gs.take(i as int));
                assert(gs.take(i + 1).last() == gs[i as int]);
                assert(gs[i as int] == (fields@[i as int].0, fields@[i as int].1@));
                lemma_upsert_unique(pre, *k, v@);
            }
            i += 1;
        }
        assert(gs.take(n as int) =~= gs);
        out
    }

    /// Builds a message with the given title, kind, and optional fields,
    /// stamped with the current wall-clock time.
    pub fn new(
        title: &str,
        event_type: EventType,
        fields: Option<Vec<(EventFieldType, Vec<u8>)>>,
    ) -> (r: Self)
        ensures
            r@.title == title@,
            r@.kind == event_type,
            r@.fields == match fields {
                Some(v) => dedup_fields(pairs_view(v@)),
                None => Seq::<(EventFieldType, Seq<u8>)>::empty(),
            },
    {
        let ts = now_timestamp();
        Self::with_timestamp(title, event_type, fields, ts)
    }

    /// Builds a message with the given title, kind, optional fields, and
    /// an explicit timestamp.
    pub fn with_timestamp(
        title: &str,
        event_type: EventType,
        fields: Option<Vec<(EventFieldType, Vec<u8>)>>,
        timestamp: i64,
    ) -> (r: Self)
        ensures
            r@.title == title@,
            r@.kind == event_type,
            r@.fields == match fields {
                Some(v) => dedup_fields(pairs_view(v@)),
                None => Seq::<(EventFieldType, Seq<u8>)>::empty(),
            },
            r@.ts == timestamp,
    {
        let f = match fields {
            Some(res) => Self::create_fields(res),
            None => Vec::new(),
        };
        assert(fields is None ==> pairs_view(f@) =~= Seq::<(EventFieldType, Seq<u8>)>::empty());
        Self { title: title.to_owned(), fields: f, event_type, timestamp }
    }

    /// The aggregation key of this message.
    pub fn title(&self) -> (r: &str)
        ensures
            r@ == self@.title,
    {
        self.title.as_str()
    }

    /// The producer category of this message.
    pub fn event_type(&self) -> (r: &EventType)
        ensures
            *r == self@.kind,
    {
        &self.event_type
    }

    /// The construction-time timestamp, in wall-clock seconds.
    pub fn ts(&self) -> (r: i64)
        ensures
            r == self@.ts,
    {
        self.timestamp
    }

    /// Encodes this message for the wire: `title|kind|key=value|...`.
    pub fn format_bytes(&self) -> (r: Vec<u8>)
        ensures
            r@ == spec_encode(self@.title, self@.kind, self@.fields),
    {
        let ghost title = self@.title;
        let ghost kind = self@.kind;
        let ghost gfields = self@.fields;
        let mut out = self.title.as_str().as_bytes_vec();
        out.push(PIPE);
        let mut kd = u8_to_dec(self.event_type.get_value());
        out.append(&mut kd);
        proof {
            let segs0 = encode_segments(title, kind, gfields.take(0));
            assert(segs0 =~~= seq![encode_utf8(title), dec_of(kind_value(kind))]);
            assert(segs0.drop_last() =~~= seq![encode_utf8(title)]);
            assert(join_bytes(seq![encode_utf8(title)], PIPE) == encode_utf8(title));
            assert(join_bytes(segs0, PIPE) == join_bytes(segs0.drop_last(), PIPE) + seq![PIPE]
                + segs0.last());
            assert(out@ =~= join_bytes(segs0, PIPE));
        }
        let n = self.fields.len();
        let mut i: usize = 0;
        while i < n
            invariant
                i <= n,
                n == gfields.len(),
                title == self@.title,
                kind == self@.kind,
                gfields == self@.fields,
                gfields == pairs_view(self.fields@),
                out@ == join_bytes(encode_segments(title, kind, gfields.take(i as int)), PIPE),
            decreases n - i,
        {
            let ghost pre = encode_segments(title, kind, gfields.take(i as int));
            out.push(PIPE);
            let mut kb = self.fields[i].0.to_string().as_bytes_vec();
            out.append(&mut kb);
            out.push(EQUALS);
            match self.fields[i].0 {
                EventFieldType::Description => {
                    let mut vb = slice_to_vec(self.fields[i].1.as_slice());
                    out.append(&mut vb);
                },
                _ => {
                    let mut vb = render_byte_list_exec(self.fields[i].1.as_slice());
                    out.append(&mut vb);
                },
            }
            proof {
                let pair = gfields[i as int];
                let post = encode_segments(title, kind, gfields.take(i + 1));
                assert(post =~~= pre.push(field_segment(pair.0, pair.1)));
                assert(post.drop_last() =~~= pre);
                assert(post.last() == field_segment(pair.0, pair.1));
                assert(out@ =~= join_bytes(pre, PIPE) + seq![PIPE] + field_segment(
                    pair.0,
                    pair.1,
                ));
                assert(out@ =~= join_bytes(post, PIPE));
            }
            i += 1;
        }
        assert(gfields.take(n as int) =~= gfields);
        out
    }

    /// Decodes a wire message. Malformed input is rejected with the first
    /// decode error; a well-formed message is rebuilt with its fields
    /// collapsed to unique keys and its timestamp re-stamped with the
    /// current time.
    pub fn from_bytes(data: Vec<u8>) -> (r: Result<Self, DecodeError>)
        ensures
            match spec_decode(data@) {
                Ok(d) => r matches Ok(m) && m@.title == d.0 && m@.kind == d.1 && m@.fields
                    == dedup_fields(d.2) && m@.field_map() == map_of_pairs(d.2),
                Err(e) => r == Err::<EventBusMessage, DecodeError>(e),
            },
    {
        let segs = split_bytes_exec(data.as_slice(), PIPE);
        let ghost gsegs = split_bytes(data@, PIPE);
        if segs.len() < MIN_MESSAGE_LENGTH {
            return Err(DecodeError::MissingSegments);
        }
        assert(segs@[0]@ == gsegs[0]);
        let title = match utf8_to_string(slice_to_vec(segs[0].as_slice())) {
            Some(s) => s,
            None => {
                return Err(DecodeError::InvalidUtf8);
            },
        };
        assert(segs@[1]@ == gsegs[1]);
        let kind_num = match parse_u8_dec_exec(segs[1].as_slice()) {
            Some(v) => v,
            None => {
                return Err(DecodeError::InvalidKind);
            },
        };
        if kind_num > 3 {
            return Err(DecodeError::InvalidKind);
        }
        let event_type = EventType::from_u8(kind_num);
        let ghost tail = gsegs.skip(2);
        let n = segs.len();
        let mut fields: Vec<(EventFieldType, Vec<u8>)> = Vec::new();
        let ghost mut parsed = Seq::<(EventFieldType, Seq<u8>)>::empty();
        let mut i: usize = 2;
        assert(tail.take(0) =~~= Seq::<Seq<u8>>::empty());
        assert(pairs_view(fields@) =~= dedup_fields(parsed));
        while i < n
            invariant
                2 <= i <= n,
                n == gsegs.len(),
                segs.deep_view() == gsegs,
                gsegs == split_bytes(data@, PIPE),
                tail == gsegs.skip(2),
                n >= 2,
                valid_utf8(gsegs[0]),
                title@ == decode_utf8(gsegs[0]),
                parse_u8_dec(gsegs[1]) == Some(kind_num),
                kind_of_value(kind_num) == Some(event_type),
                parse_field_segments(tail.take(i - 2)) == Ok::<_, DecodeError>(parsed),
                pairs_view(fields@) == dedup_fields(parsed),
                unique_keys(pairs_view(fields@)),
            decreases n - i,
        {
            assert(segs@[i as int]@ == gsegs[i as int]);
            let ghost gseg = gsegs[i as int];
            assert(tail[i - 2] == gseg);
            proof {
                assert(tail.take(i - 2 + 1).drop_last() =~~= tail.take(i - 2));
                assert(tail.take(i - 2 + 1).last() == tail[i - 2]);
            }
            let seg = segs[i].as_slice();
            let pos = match find_first(seg, EQUALS) {
                Some(p) => p,
                None => {
                    proof {
                        lemma_parse_fields_err(tail, i - 2, DecodeError::MissingFieldValue);
                    }
                    return Err(DecodeError::MissingFieldValue);
                },
            };
            proof {
                assert(seg@ == gseg);
                crate::models::wire_format::lemma_first_index_of(gseg, EQUALS);
                assert(pos < gseg.len());
            }
            let seg_len = seg.len();
            let keyb = slice_subrange(seg, 0, pos);
            let valb = slice_subrange(seg, pos + 1, seg_len);
            assert(keyb@ =~= gseg.take(pos as int));
            assert(valb@ =~= gseg.skip(pos + 1));
            let k = match key_from_bytes(keyb) {
                Some(k) => k,
                None => {
                    proof {
                        lemma_parse_fields_err(tail, i - 2, DecodeError::UnknownFieldKey);
                    }
                    return Err(DecodeError::UnknownFieldKey);
                },
            };
            let val: Vec<u8> = match k {
                EventFieldType::Description => slice_to_vec(valb),
                _ => match parse_byte_list_exec(valb) {
                    Some(bs) => bs,
                    None => {
                        proof {
                            lemma_parse_fields_err(tail, i - 2, DecodeError::InvalidFieldValue);
                        }
                        return Err(DecodeError::InvalidFieldValue);
                    },
                },
            };
            assert(parse_field_segment(gseg) == Ok::<_, DecodeError>((k, val@)));
            let ghost pre = parsed;
            proof {
                parsed = parsed.push((k, val@));
                assert(parsed.drop_last() =~= pre);
            }
            let ghost prefields = pairs_view(fields@);
            insert_field(&mut fields, k, val);
            proof {
                lemma_upsert_unique(prefields, k, parsed.last().1);
            }
            i += 1;
        }
        assert(tail.take(n - 2) =~~= tail);
        proof {
            lemma_dedup_map(parsed);
        }
        let timestamp = now_timestamp();
        Ok(Self { title, fields, event_type, timestamp })
    }

    /// Encodes this message as text. Only a `Description` value can carry
    /// non-ASCII bytes, so it must be valid UTF-8 for the wire text to
    /// exist; the raw encoding is [`EventBusMessage::format_bytes`].
    pub fn format(&self) -> (r: String)
        requires
            forall|i: int|
                0 <= i < self@.fields.len() && (#[trigger] self@.fields[i]).0
                    == EventFieldType::Description ==> valid_utf8(self@.fields[i].1),
        ensures
            encode_utf8(r@) == spec_encode(self@.title, self@.kind, self@.fields),
    {
        let bytes = self.format_bytes();
        proof {
            lemma_encode_valid_utf8(self@.title, self@.kind, self@.fields);
            broadcast use vstd::utf8::decode_utf8_encode_utf8;

        }
        match utf8_to_string(bytes) {
            Some(s) => s,
            None => vstd::pervasive::unreached(),
        }
    }

    /// The value of the given field, or the bytes of a `'key' not found`
    /// note when the field is absent.
    pub fn get_field(&self, key: EventFieldType) -> (r: Vec<u8>)
        ensures
            r@ == if self@.field_map().contains_key(key) {
                self@.field_map()[key]
            } else {
                not_found_bytes(key)
            },
    {
        proof {
            use_type_invariant(&*self);
            lemma_key_index(self@.fields, key);
            lemma_map_of_pairs_lookup(self@.fields, key);
        }
        let n = self.fields.len();
        let mut i: usize = 0;
        while i < n
            invariant
                i <= n,
                n == self@.fields.len(),
                self@.fields == pairs_view(self.fields@),
                forall|j: int| 0 <= j < i ==> (#[trigger] self@.fields[j]).0 != key,
            decreases n - i,
        {
            if self.fields[i].0 == key {
                proof {
                    use_type_invariant(&*self);
                    lemma_map_of_pairs_lookup(self@.fields, key);
                    assert(self@.fields[i as int].0 == key);
                    assert(self@.field_map()[key] == self@.fields[i as int].1);
                }
                return slice_to_vec(self.fields[i].1.as_slice());
            }
            i += 1;
        }
        proof {
            lemma_map_of_pairs_lookup(self@.fields, key);
        }
        let mut s = String::new();
        s.append("'");
        s.append(key.to_string());
        s.append("' not found");
        proof {
            reveal_strlit("'");
            reveal_strlit("' not found");
            assert(s@ =~= not_found_chars(key));
        }
        s.as_str().as_bytes_vec()
    }

    /// The value of the given field as text; the field value (or the
    /// absent-field note) must be valid UTF-8.
    pub fn get_field_string(&self, key: EventFieldType) -> (r: String)
        requires
            self@.field_map().contains_key(key) ==> valid_utf8(self@.field_map()[key]),
        ensures
            r@ == if self@.field_map().contains_key(key) {
                decode_utf8(self@.field_map()[key])
            } else {
                not_found_chars(key)
            },
    {
        let bytes = self.get_field(key);
        proof {
            if !self@.field_map().contains_key(key) {
                lemma_not_found_bytes_utf8(key);
            }
        }
        match utf8_to_string(bytes) {
            Some(s) => s,
            None => vstd::pervasive::unreached(),
        }
    }
}

/// The characters of the note returned for an absent field.
pub open spec fn not_found_chars(k: EventFieldType) -> Seq<char> {
    seq!['\''] + key_chars(k) + seq!['\'', ' ', 'n', 'o', 't', ' ', 'f', 'o', 'u', 'n', 'd']
}

/// The bytes of the note returned for an absent field.
pub open spec fn not_found_bytes(k: EventFieldType) -> Seq<u8> {
    encode_utf8(not_found_chars(k))
}

/// A single field is already in unique-key form.
pub proof fn lemma_dedup_singleton(k: EventFieldType, v: Seq<u8>)
    ensures
        dedup_fields(seq![(k, v)]) == seq![(k, v)],
{
    let one = seq![(k, v)];
    assert(one.drop_last() =~= Seq::<(EventFieldType, Seq<u8>)>::empty());
    assert(dedup_fields(Seq::<(EventFieldType, Seq<u8>)>::empty()) == Seq::<
        (EventFieldType, Seq<u8>),
    >::empty());
    assert(key_index(Seq::<(EventFieldType, Seq<u8>)>::empty(), k) == -1);
    assert(dedup_fields(one) =~= one);
}

/// Two fields with distinct keys are already in unique-key form.
pub proof fn lemma_dedup_pair(k1: EventFieldType, v1: Seq<u8>, k2: EventFieldType, v2: Seq<u8>)
    requires
        k1 != k2,
    ensures
        dedup_fields(seq![(k1, v1), (k2, v2)]) == seq![(k1, v1), (k2, v2)],
{
    let two = seq![(k1, v1), (k2, v2)];
    let one = seq![(k1, v1)];
    assert(two.drop_last() =~= one);
    lemma_dedup_singleton(k1, v1);
    lemma_key_index(one, k2);
    assert(key_index(one, k2) == -1);
    assert(dedup_fields(two) =~= two);
}

/// The absent-field note is longer than any field value it could be
/// mistaken for: twelve characters around the key's name, all ASCII.
pub proof fn lemma_not_found_len()
    ensures
        forall|k: EventFieldType| (#[trigger] not_found_bytes(k)).len() == 12 + key_chars(k).len(),
{
    assert forall|k: EventFieldType| (#[trigger] not_found_bytes(k)).len() == 12 + key_chars(
        k,
    ).len() by {
        assert(vstd::utf8::is_ascii_chars(not_found_chars(k)));
        vstd::utf8::is_ascii_chars_encode_utf8(not_found_chars(k));
    }
}

/// The absent-field note is ASCII, hence valid UTF-8, and decodes to its
/// own characters.
pub proof fn lemma_not_found_bytes_utf8(k: EventFieldType)
    ensures
        valid_utf8(not_found_bytes(k)),
        decode_utf8(not_found_bytes(k)) == not_found_chars(k),
{
    broadcast use vstd::utf8::encode_utf8_valid_utf8;
    broadcast use vstd::utf8::encode_utf8_decode_utf8;

}

/// Once one field segment fails to parse, and all segments before it
/// parsed, the whole field list fails with that segment's error.
pub proof fn lemma_parse_fields_err(segs: Seq<Seq<u8>>, i: int, e: DecodeError)
    requires
        0 <= i < segs.len(),
        parse_field_segments(segs.take(i)) is Ok,
        parse_field_segment(segs[i]) == Err::<(EventFieldType, Seq<u8>), DecodeError>(e),
    ensures
        parse_field_segments(segs) == Err::<Seq<(EventFieldType, Seq<u8>)>, DecodeError>(e),
    decreases segs.len(),
{
    if i == segs.len() - 1 {
        assert(segs.take(i) =~~= segs.drop_last());
        assert(segs[i] == segs.last());
    } else {
        assert(segs.drop_last().take(i) =~~= segs.take(i));
        assert(segs.drop_last()[i] == segs[i]);
        lemma_parse_fields_err(segs.drop_last(), i, e);
    }
}

/// An upsert folds into the map as a plain insert.
pub proof fn lemma_upsert_map(s: Seq<(EventFieldType, Seq<u8>)>, k: EventFieldType, v: Seq<u8>)
    requires
        unique_keys(s),
    ensures
        map_of_pairs(upsert_pair(s, k, v)) == map_of_pairs(s).insert(k, v),
    decreases s.len(),
{
    lemma_key_index(s, k);
    let ki = key_index(s, k);
    if ki < 0 {
        assert(s.push((k, v)).drop_last() =~= s);
        assert(s.push((k, v)).last() == (k, v));
    } else {
        let t = s.update(ki, (k, v));
        if ki == s.len() - 1 {
            assert(t.drop_last() =~= s.drop_last());
            assert(t.last() == (k, v));
            assert(s.last().0 == k);
            assert(map_of_pairs(s.drop_last()).insert(k, s.last().1).insert(k, v)
                =~= map_of_pairs(s.drop_last()).insert(k, v));
        } else {
            assert(s.last().0 != k);
            assert(t.drop_last() =~= s.drop_last().update(ki, (k, v)));
            assert(t.last() == s.last());
            assert forall|a: int, b: int| 0 <= a < b < s.drop_last().len() implies (
            #[trigger] s.drop_last()[a]).0 != (#[trigger] s.drop_last()[b]).0 by {
                assert(s.drop_last()[a] == s[a]);
                assert(s.drop_last()[b] == s[b]);
            }
            lemma_key_index(s.drop_last(), k);
            assert(s.drop_last()[ki].0 == k);
            let ki2 = key_index(s.drop_last(), k);
            assert(ki2 >= 0);
            if ki2 < ki {
                assert(s.drop_last()[ki2].0 == k);
                assert(s[ki2].0 == k);
            }
            assert(ki2 == ki);
            assert(upsert_pair(s.drop_last(), k, v) == s.drop_last().update(ki, (k, v)));
            lemma_upsert_map(s.drop_last(), k, v);
            assert(map_of_pairs(t) == map_of_pairs(s.drop_last()).insert(k, v).insert(
                s.last().0,
                s.last().1,
            ));
            assert(map_of_pairs(s.drop_last()).insert(k, v).insert(s.last().0, s.last().1)
                =~= map_of_pairs(s.drop_last()).insert(s.last().0, s.last().1).insert(k, v));
        }
    }
}

/// Collapsing duplicates keeps keys unique and folds into the same map.
pub proof fn lemma_dedup_map(s: Seq<(EventFieldType, Seq<u8>)>)
    ensures
        unique_keys(dedup_fields(s)),
        map_of_pairs(dedup_fields(s)) == map_of_pairs(s),
    decreases s.len(),
{
    if s.len() > 0 {
        lemma_dedup_map(s.drop_last());
        lemma_upsert_unique(dedup_fields(s.drop_last()), s.last().0, s.last().1);
        lemma_upsert_map(dedup_fields(s.drop_last()), s.last().0, s.last().1);
    }
}

/// A list whose keys are already unique collapses to itself.
pub proof fn lemma_dedup_of_unique(s: Seq<(EventFieldType, Seq<u8>)>)
    requires
        unique_keys(s),
    ensures
        dedup_fields(s) == s,
    decreases s.len(),
{
    if s.len() > 0 {
        let d = s.drop_last();
        assert forall|a: int, b: int| 0 <= a < b < d.len() implies (#[trigger] d[a]).0 != (
        #[trigger] d[b]).0 by {
            assert(d[a] == s[a]);
            assert(d[b] == s[b]);
        }
        lemma_dedup_of_unique(d);
        lemma_key_index(d, s.last().0);
        let ki = key_index(d, s.last().0);
        if ki >= 0 {
            assert(d[ki] == s[ki]);
            assert(s[ki].0 == s.last().0);
        }
        assert(ki < 0);
        assert(d.push(s.last()) =~= s);
    }
}

/// An upsert into a unique-key pair list keeps the keys unique.
pub proof fn lemma_upsert_unique(s: Seq<(EventFieldType, Seq<u8>)>, k: EventFieldType, v: Seq<u8>)
    requires
        unique_keys(s),
    ensures
        unique_keys(upsert_pair(s, k, v)),
{
    lemma_key_index(s, k);
}

/// A sequence of ASCII bytes is valid UTF-8.
pub proof fn lemma_ascii_valid_utf8(s: Seq<u8>)
    requires
        forall|i: int| 0 <= i < s.len() ==> #[trigger] s[i] < 128,
    ensures
        valid_utf8(s),
    decreases s.len(),
{
    if s.len() > 0 {
        let b = s[0];
        assert(b < 128);
        assert(vstd::utf8::is_leading_byte_width_1(b));
        assert((b as u32) & 0x7F == b as u32) by (bit_vector)
            requires
                b < 128,
        ;
        assert(vstd::utf8::decode_first_codepoint(s) == b as u32);
        assert(vstd::utf8::length_of_first_codepoint(s) == 1);
        assert(vstd::utf8::valid_first_scalar(s));
        assert(vstd::utf8::pop_first_scalar(s) =~= s.skip(1));
        assert forall|i: int| 0 <= i < s.skip(1).len() implies #[trigger] s.skip(1)[i] < 128 by {
            assert(s.skip(1)[i] == s[i + 1]);
        }
        lemma_ascii_valid_utf8(s.skip(1));
    }
}

/// The whole encoding of a message whose `Description` values are valid
/// UTF-8 is itself valid UTF-8: every other part of the wire text is
/// ASCII, and the title is an encoding already.
pub proof fn lemma_encode_valid_utf8(
    title: Seq<char>,
    kind: EventType,
    fields: Seq<(EventFieldType, Seq<u8>)>,
)
    requires
        forall|i: int|
            0 <= i < fields.len() && (#[trigger] fields[i]).0 == EventFieldType::Description
                ==> valid_utf8(fields[i].1),
    ensures
        valid_utf8(spec_encode(title, kind, fields)),
    decreases fields.len(),
{
    broadcast use vstd::utf8::encode_utf8_valid_utf8;

    crate::models::wire_format::lemma_dec_of_digits(kind_value(kind));
    if fields.len() == 0 {
        let segs = encode_segments(title, kind, fields);
        assert(segs =~~= seq![encode_utf8(title), dec_of(kind_value(kind))]);
        assert(segs.drop_last() =~~= seq![encode_utf8(title)]);
        assert(join_bytes(seq![encode_utf8(title)], PIPE) == encode_utf8(title));
        assert(join_bytes(segs, PIPE) == join_bytes(segs.drop_last(), PIPE) + seq![PIPE]
            + segs.last());
        assert(join_bytes(segs, PIPE) == encode_utf8(title) + seq![PIPE] + dec_of(
            kind_value(kind),
        ));
        lemma_ascii_valid_utf8(seq![PIPE]);
        lemma_ascii_valid_utf8(dec_of(kind_value(kind)));
        vstd::utf8::valid_utf8_concat(encode_utf8(title), seq![PIPE]);
        vstd::utf8::valid_utf8_concat(encode_utf8(title) + seq![PIPE], dec_of(kind_value(kind)));
    } else {
        assert forall|i: int|
            0 <= i < fields.drop_last().len() && (#[trigger] fields.drop_last()[i]).0
                == EventFieldType::Description implies valid_utf8(fields.drop_last()[i].1) by {
            assert(fields.drop_last()[i] == fields[i]);
        }
        lemma_encode_valid_utf8(title, kind, fields.drop_last());
        let prev = encode_segments(title, kind, fields.drop_last());
        let segs = encode_segments(title, kind, fields);
        let pair = fields.last();
        assert(segs =~~= prev.push(field_segment(pair.0, pair.1)));
        assert(segs.drop_last() =~~= prev);
        assert(join_bytes(segs, PIPE) == join_bytes(prev, PIPE) + seq![PIPE] + field_segment(
            pair.0,
            pair.1,
        ));
        lemma_ascii_valid_utf8(seq![PIPE]);
        crate::models::event_bus_field_type::lemma_key_name_class();
        lemma_ascii_valid_utf8(key_name(pair.0) + seq![EQUALS]);
        let vb = render_value(pair.0, pair.1);
        if pair.0 == EventFieldType::Description {
            assert(pair == (fields[fields.len() - 1].0, fields[fields.len() - 1].1));
            assert(valid_utf8(vb));
        } else {
            crate::models::wire_format::lemma_render_byte_list_class(pair.1);
            lemma_ascii_valid_utf8(vb);
        }
        vstd::utf8::valid_utf8_concat(join_bytes(prev, PIPE), seq![PIPE]);
        vstd::utf8::valid_utf8_concat(key_name(pair.0) + seq![EQUALS], vb);
        vstd::utf8::valid_utf8_concat(
            join_bytes(prev, PIPE) + seq![PIPE],
            (key_name(pair.0) + seq![EQUALS]) + vb,
        );
        assert(join_bytes(segs, PIPE) =~= (join_bytes(prev, PIPE) + seq![PIPE]) + ((key_name(
            pair.0,
        ) + seq![EQUALS]) + vb));
    }
}

/// The bytes of an encoded title are free of the separator when its
/// characters are: every non-ASCII character encodes to bytes at or above
/// 0x80, and an ASCII character encodes to itself.
pub proof fn lemma_encode_utf8_no_pipe(chars: Seq<char>)
    requires
        forall|i: int| 0 <= i < chars.len() ==> #[trigger] chars[i] != '|',
    ensures
        !encode_utf8(chars).contains(PIPE),
    decreases chars.len(),
{
    broadcast use vstd::utf8::char_is_scalar;
    broadcast use vstd::utf8::char_u32_cast;

    if chars.len() > 0 {
        let c = chars[0];
        let u = c as u32;
        let enc = vstd::utf8::encode_scalar(u);
        assert forall|j: int| 0 <= j < enc.len() implies #[trigger] enc[j] != PIPE by {
            if vstd::utf8::has_width_1_encoding(u) {
                assert((u & 0x7F) == u) by (bit_vector)
                    requires
                        u <= 0x7F,
                ;
                if enc[j] == PIPE {
                    assert(u == 124);
                    assert(('|' as u32) == 124);
                    vstd::utf8::char_u32_cast(c, u);
                    vstd::utf8::char_u32_cast('|', 124);
                    assert(c == '|');
                }
            } else {
                let y2: u8 = ((u >> 6) & 0x1F) as u8;
                let y3: u8 = ((u >> 12) & 0x0F) as u8;
                let y4: u8 = ((u >> 18) & 0x7) as u8;
                let z1: u8 = (u & 0x3F) as u8;
                let z2: u8 = ((u >> 6) & 0x3F) as u8;
                let z3: u8 = ((u >> 12) & 0x3F) as u8;
                assert(0xC0 | y2 >= 0x80) by (bit_vector);
                assert(0xE0 | y3 >= 0x80) by (bit_vector);
                assert(0xF0 | y4 >= 0x80) by (bit_vector);
                assert(0x80 | z1 >= 0x80) by (bit_vector);
                assert(0x80 | z2 >= 0x80) by (bit_vector);
                assert(0x80 | z3 >= 0x80) by (bit_vector);
            }
        }
        assert forall|i: int| 0 <= i < chars.drop_first().len() implies #[trigger] chars.drop_first()[i]
            != '|' by {
            assert(chars.drop_first()[i] == chars[i + 1]);
        }
        lemma_encode_utf8_no_pipe(chars.drop_first());
        let rest = encode_utf8(chars.drop_first());
        assert forall|j: int| 0 <= j < encode_utf8(chars).len() implies #[trigger] encode_utf8(
            chars,
        )[j] != PIPE by {
            if j < enc.len() {
                assert(encode_utf8(chars)[j] == enc[j]);
            } else {
                assert(encode_utf8(chars)[j] == rest[j - enc.len()]);
                if rest.contains(rest[j - enc.len()]) {
                }
                assert(rest[j - enc.len()] != PIPE);
            }
        }
        if encode_utf8(chars).contains(PIPE) {
            let w = choose|w: int|
                0 <= w < encode_utf8(chars).len() && encode_utf8(chars)[w] == PIPE;
            assert(encode_utf8(chars)[w] != PIPE);
        }
    }
}

/// The first separator of `a + [x] + b` stands right after `a` when `a`
/// is free of it.
pub proof fn lemma_first_index_concat(a: Seq<u8>, b: Seq<u8>, x: u8)
    requires
        !a.contains(x),
    ensures
        first_index_of(a + seq![x] + b, x) == a.len(),
    decreases a.len(),
{
    let s = a + seq![x] + b;
    if a.len() == 0 {
        assert(s[0] == x);
    } else {
        assert(s[0] == a[0]);
        assert(a.contains(a[0]) || a[0] != x);
        assert(s[0] != x);
        assert(s.drop_first() =~= a.drop_first() + seq![x] + b);
        assert forall|j: int| 0 <= j < a.drop_first().len() implies #[trigger] a.drop_first()[j]
            != x by {
            assert(a.drop_first()[j] == a[j + 1]);
            assert(a.contains(a[j + 1]) || a[j + 1] != x);
        }
        if a.drop_first().contains(x) {
            let w = choose|w: int| 0 <= w < a.drop_first().len() && a.drop_first()[w] == x;
            assert(a.drop_first()[w] != x);
        }
        lemma_first_index_concat(a.drop_first(), b, x);
    }
}

/// Parsing the rendered segment of one field gives the field back.
proof fn lemma_parse_field_segment_render(k: EventFieldType, v: Seq<u8>)
    ensures
        parse_field_segment(field_segment(k, v)) == Ok::<(EventFieldType, Seq<u8>), DecodeError>(
            (k, v),
        ),
{
    let seg = field_segment(k, v);
    crate::models::event_bus_field_type::lemma_key_name_class();
    assert forall|j: int| 0 <= j < key_name(k).len() implies #[trigger] key_name(k)[j]
        != EQUALS by {}
    if key_name(k).contains(EQUALS) {
        let w = choose|w: int| 0 <= w < key_name(k).len() && key_name(k)[w] == EQUALS;
        assert(key_name(k)[w] != EQUALS);
    }
    lemma_first_index_concat(key_name(k), render_value(k, v), EQUALS);
    assert(first_index_of(seg, EQUALS) == key_name(k).len());
    assert(seg.take(key_name(k).len() as int) =~= key_name(k));
    assert(seg.skip(key_name(k).len() as int + 1) =~= render_value(k, v));
    crate::models::event_bus_field_type::lemma_key_of_own_name();
    if k != EventFieldType::Description {
        crate::models::wire_format::lemma_byte_list_round_trip(v);
    }
}

/// Parsing the rendered segments of a field list gives the list back.
proof fn lemma_parse_field_segments_render(fields: Seq<(EventFieldType, Seq<u8>)>)
    ensures
        parse_field_segments(
            fields.map_values(|p: (EventFieldType, Seq<u8>)| field_segment(p.0, p.1)),
        ) == Ok::<Seq<(EventFieldType, Seq<u8>)>, DecodeError>(fields),
    decreases fields.len(),
{
    let segs = fields.map_values(|p: (EventFieldType, Seq<u8>)| field_segment(p.0, p.1));
    if fields.len() == 0 {
        assert(segs.len() == 0);
        assert(fields =~= Seq::<(EventFieldType, Seq<u8>)>::empty());
    } else {
        assert(segs.drop_last() =~~= fields.drop_last().map_values(
            |p: (EventFieldType, Seq<u8>)| field_segment(p.0, p.1),
        ));
        lemma_parse_field_segments_render(fields.drop_last());
        lemma_parse_field_segment_render(fields.last().0, fields.last().1);
        assert(segs.last() == field_segment(fields.last().0, fields.last().1));
        assert(fields.drop_last().push(fields.last()) =~= fields);
    }
}

/// Round trip: decoding an encoded message reproduces its title, kind,
/// and every field byte value exactly, whenever the title characters and
/// the `Description` value bytes are free of the `|` separator. The
/// construction-time timestamp is deliberately not carried by the wire.
pub proof fn lemma_codec_round_trip(
    title: Seq<char>,
    kind: EventType,
    fields: Seq<(EventFieldType, Seq<u8>)>,
)
    requires
        forall|i: int| 0 <= i < title.len() ==> #[trigger] title[i] != '|',
        forall|i: int|
            0 <= i < fields.len() && (#[trigger] fields[i]).0 == EventFieldType::Description
                ==> !fields[i].1.contains(PIPE),
    ensures
        spec_decode(spec_encode(title, kind, fields)) == Ok::<
            (Seq<char>, EventType, Seq<(EventFieldType, Seq<u8>)>),
            DecodeError,
        >((title, kind, fields)),
{
    broadcast use vstd::utf8::encode_utf8_valid_utf8;
    broadcast use vstd::utf8::encode_utf8_decode_utf8;

    let segs = encode_segments(title, kind, fields);
    crate::models::wire_format::lemma_dec_of_digits(kind_value(kind));
    crate::models::event_bus_field_type::lemma_key_name_class();
    assert forall|i: int| 0 <= i < segs.len() implies !(#[trigger] segs[i]).contains(PIPE) by {
        if i == 0 {
            lemma_encode_utf8_no_pipe(title);
        } else if i == 1 {
            if dec_of(kind_value(kind)).contains(PIPE) {
                let w = choose|w: int|
                    0 <= w < dec_of(kind_value(kind)).len() && dec_of(kind_value(kind))[w]
                        == PIPE;
            }
        } else {
            let pair = fields[i - 2];
            assert(segs[i] == field_segment(pair.0, pair.1));
            let seg = field_segment(pair.0, pair.1);
            assert forall|j: int| 0 <= j < seg.len() implies #[trigger] seg[j] != PIPE by {
                if j < key_name(pair.0).len() {
                    assert(seg[j] == key_name(pair.0)[j]);
                } else if j == key_name(pair.0).len() {
                    assert(seg[j] == EQUALS);
                } else {
                    let vb = render_value(pair.0, pair.1);
                    assert(seg[j] == vb[j - key_name(pair.0).len() - 1]);
                    if pair.0 == EventFieldType::Description {
                        assert(vb == pair.1);
                        assert(vb.contains(vb[j - key_name(pair.0).len() - 1]) || vb[j
                            - key_name(pair.0).len() - 1] != PIPE);
                    } else {
                        crate::models::wire_format::lemma_render_byte_list_class(pair.1);
                    }
                }
            }
            if seg.contains(PIPE) {
                let w = choose|w: int| 0 <= w < seg.len() && seg[w] == PIPE;
                assert(seg[w] != PIPE);
            }
        }
    }
    crate::models::wire_format::lemma_split_join(segs, PIPE);
    let wire = spec_encode(title, kind, fields);
    assert(split_bytes(wire, PIPE) == segs);
    assert(segs[0] == encode_utf8(title));
    assert(segs[1] == dec_of(kind_value(kind)));
    crate::models::wire_format::lemma_parse_dec_of(kind_value(kind));
    assert(kind_of_value(kind_value(kind)) == Some(kind));
    assert(segs.skip(2) =~~= fields.map_values(
        |p: (EventFieldType, Seq<u8>)| field_segment(p.0, p.1),
    ));
    lemma_parse_field_segments_render(fields);
}

/// Round trip for a whole event: a message whose fields already carry
/// unique keys — as every constructed message does — comes back from its
/// own encoding with title, kind, and fields reproduced exactly, and the
/// decoder's duplicate-collapse is the identity on it.
pub proof fn lemma_event_round_trip(
    title: Seq<char>,
    kind: EventType,
    fields: Seq<(EventFieldType, Seq<u8>)>,
)
    requires
        unique_keys(fields),
        forall|i: int| 0 <= i < title.len() ==> #[trigger] title[i] != '|',
        forall|i: int|
            0 <= i < fields.len() && (#[trigger] fields[i]).0 == EventFieldType::Description
                ==> !fields[i].1.contains(PIPE),
    ensures
        spec_decode(spec_encode(title, kind, fields)) == Ok::<
            (Seq<char>, EventType, Seq<(EventFieldType, Seq<u8>)>),
            DecodeError,
        >((title, kind, fields)),
        dedup_fields(fields) == fields,
{
    lemma_codec_round_trip(title, kind, fields);
    lemma_dedup_of_unique(fields);
}

/// With unique keys, looking a key up in the folded map finds exactly the
/// pair that carries it.
pub proof fn lemma_map_of_pairs_lookup(s: Seq<(EventFieldType, Seq<u8>)>, k: EventFieldType)
    requires
        unique_keys(s),
    ensures
        forall|i: int|
            0 <= i < s.len() && (#[trigger] s[i]).0 == k ==> map_of_pairs(s).contains_key(k)
                && map_of_pairs(s)[k] == s[i].1,
        (forall|i: int| 0 <= i < s.len() ==> (#[trigger] s[i]).0 != k) ==> !map_of_pairs(
            s,
        ).contains_key(k),
    decreases s.len(),
{
    if s.len() > 0 {
        assert(s.drop_last() =~= s.subrange(0, s.len() - 1));
        lemma_map_of_pairs_lookup(s.drop_last(), k);
        assert forall|i: int|
            0 <= i < s.len() && (#[trigger] s[i]).0 == k implies map_of_pairs(s).contains_key(k)
            && map_of_pairs(s)[k] == s[i].1 by {
            if i < s.len() - 1 {
                assert(s.drop_last()[i] == s[i]);
                assert(s.last().0 != k);
            }
        }
    }
}

} // verus!
