//! The typed field keys an event may carry, and their wire names.

use vstd::prelude::*;
use vstd::string::StringSliceAdditionalSpecFns;
use vstd::utf8::is_ascii_chars;

verus! {

/// A field key of an event payload.
///
/// `Memory` and `Cpu` values are 8 raw bytes (the little-endian bit pattern
/// of a double), `Timestamp` values are 8 raw bytes (a little-endian signed
/// 64-bit integer), and `Description` values are UTF-8 text bytes.
#[derive(Clone, Copy, PartialEq, Eq, Structural, Hash, Debug)]
pub enum EventFieldType {
    Description,
    Memory,
    Cpu,
    Timestamp,
}

/// The wire name of a field key, as characters.
pub open spec fn key_chars(k: EventFieldType) -> Seq<char> {
    match k {
        EventFieldType::Description => seq![
            'd',
            'e',
            's',
            'c',
            'r',
            'i',
            'p',
            't',
            'i',
            'o',
            'n',
        ],
        EventFieldType::Memory => seq!['m', 'e', 'm', 'o', 'r', 'y'],
        EventFieldType::Cpu => seq!['c', 'p', 'u'],
        EventFieldType::Timestamp => seq!['t', 'i', 'm', 'e', 's', 't', 'a', 'm', 'p'],
    }
}

/// The wire name of a field key, as bytes. The names are ASCII, so each
/// byte is the corresponding character.
pub open spec fn key_name(k: EventFieldType) -> Seq<u8> {
    key_chars(k).map_values(|c: char| c as u8)
}

/// ASCII lower-casing of one byte.
pub open spec fn lower_byte(b: u8) -> u8 {
    if 'A' as u8 <= b && b <= 'Z' as u8 {
        (b + 32) as u8
    } else {
        b
    }
}

/// ASCII lower-casing of a byte sequence.
pub open spec fn lower_bytes(s: Seq<u8>) -> Seq<u8> {
    s.map_values(|b: u8| lower_byte(b))
}

/// The field key whose wire name matches `s` up to ASCII case, if any.
pub open spec fn key_of_bytes(s: Seq<u8>) -> Option<EventFieldType> {
    if lower_bytes(s) == key_name(EventFieldType::Description) {
        Some(EventFieldType::Description)
    } else if lower_bytes(s) == key_name(EventFieldType::Memory) {
        Some(EventFieldType::Memory)
    } else if lower_bytes(s) == key_name(EventFieldType::Cpu) {
        Some(EventFieldType::Cpu)
    } else if lower_bytes(s) == key_name(EventFieldType::Timestamp) {
        Some(EventFieldType::Timestamp)
    } else {
        None
    }
}

/// ASCII lower-casing of one byte, executable form.
fn lower_byte_exec(b: u8) -> (r: u8)
    ensures
        r == lower_byte(b),
{
    if 'A' as u8 <= b && b <= 'Z' as u8 {
        b + 32
    } else {
        b
    }
}

/// Whether `input` equals `name` up to ASCII case.
fn matches_key(input: &[u8], name: &str) -> (r: bool)
    ensures
        r == (lower_bytes(input@) == lower_bytes(name.spec_bytes())),
{
    let nb = name.as_bytes();
    if input.len() != nb.len() {
        assert(lower_bytes(input@).len() != lower_bytes(nb@).len());
        return false;
    }
    let n = input.len();
    let mut i: usize = 0;
    while i < n
        invariant
            nb@ == name.spec_bytes(),
            n == input@.len() == nb@.len(),
            i <= n,
            forall|j: int|
                0 <= j < i ==> lower_byte(input@[j]) == lower_byte(nb@[j]),
        decreases n - i,
    {
        if lower_byte_exec(input[i]) != lower_byte_exec(nb[i]) {
            assert(lower_bytes(input@)[i as int] != lower_bytes(nb@)[i as int]);
            return false;
        }
        i += 1;
    }
    assert(lower_bytes(input@) =~= lower_bytes(nb@));
    true
}

/// Ties the wire-name string literals to [`key_name`].
proof fn lemma_key_literals()
    ensures
        "description".spec_bytes() == key_name(EventFieldType::Description),
        "memory".spec_bytes() == key_name(EventFieldType::Memory),
        "cpu".spec_bytes() == key_name(EventFieldType::Cpu),
        "timestamp".spec_bytes() == key_name(EventFieldType::Timestamp),
{
    reveal_strlit("description");
    reveal_strlit("memory");
    reveal_strlit("cpu");
    reveal_strlit("timestamp");
    assert(is_ascii_chars("description"@));
    assert(is_ascii_chars("memory"@));
    assert(is_ascii_chars("cpu"@));
    assert(is_ascii_chars("timestamp"@));
    vstd::utf8::is_ascii_chars_encode_utf8("description"@);
    vstd::utf8::is_ascii_chars_encode_utf8("memory"@);
    vstd::utf8::is_ascii_chars_encode_utf8("cpu"@);
    vstd::utf8::is_ascii_chars_encode_utf8("timestamp"@);
    assert("description".spec_bytes() =~= key_name(EventFieldType::Description));
    assert("memory".spec_bytes() =~= key_name(EventFieldType::Memory));
    assert("cpu".spec_bytes() =~= key_name(EventFieldType::Cpu));
    assert("timestamp".spec_bytes() =~= key_name(EventFieldType::Timestamp));
}

/// The wire names are already lower case.
pub proof fn lemma_key_names_lower()
    ensures
        forall|k: EventFieldType| #[trigger] lower_bytes(key_name(k)) == key_name(k),
{
    assert forall|k: EventFieldType| #[trigger] lower_bytes(key_name(k)) == key_name(k) by {
        assert(lower_bytes(key_name(k)) =~= key_name(k));
    }
}

/// Every key resolves from its own wire name.
pub proof fn lemma_key_of_own_name()
    ensures
        forall|k: EventFieldType| #[trigger] key_of_bytes(key_name(k)) == Some(k),
{
    lemma_key_names_lower();
    assert(key_name(EventFieldType::Description).len() == 11);
    assert(key_name(EventFieldType::Memory).len() == 6);
    assert(key_name(EventFieldType::Cpu).len() == 3);
    assert(key_name(EventFieldType::Timestamp).len() == 9);
    assert forall|k: EventFieldType| #[trigger] key_of_bytes(key_name(k)) == Some(k) by {
        assert(lower_bytes(key_name(k)) == key_name(k));
    }
}

/// The wire names hold lower-case ASCII letters alone.
pub proof fn lemma_key_name_class()
    ensures
        forall|k: EventFieldType, i: int|
            0 <= i < key_name(k).len() ==> 97 <= #[trigger] key_name(k)[i] <= 121,
{
}

/// Looks a byte sequence up as a field-key wire name, up to ASCII case.
pub fn key_from_bytes(input: &[u8]) -> (r: Option<EventFieldType>)
    ensures
        r == key_of_bytes(input@),
{
    proof {
        lemma_key_literals();
        lemma_key_names_lower();
    }
    if matches_key(input, "description") {
        Some(EventFieldType::Description)
    } else if matches_key(input, "memory") {
        Some(EventFieldType::Memory)
    } else if matches_key(input, "cpu") {
        Some(EventFieldType::Cpu)
    } else if matches_key(input, "timestamp") {
        Some(EventFieldType::Timestamp)
    } else {
        None
    }
}

impl EventFieldType {
    /// Parses a field key from its wire name, matched case-insensitively.
    /// The caller must know that the name is a valid one; unknown names are
    /// rejected earlier, during decoding, by [`key_from_bytes`].
    pub fn from_string(input: &str) -> (r: Self)
        requires
            key_of_bytes(input.spec_bytes()) is Some,
        ensures
            key_of_bytes(input.spec_bytes()) == Some(r),
    {
        let b = input.as_bytes();
        match key_from_bytes(b) {
            Some(k) => k,
            None => vstd::pervasive::unreached(),
        }
    }

    /// The wire name of this field key.
    pub fn to_string(&self) -> (r: &str)
        ensures
            r@ == key_chars(*self),
            r.spec_bytes() == key_name(*self),
    {
        proof {
            lemma_key_literals();
            reveal_strlit("description");
            reveal_strlit("memory");
            reveal_strlit("cpu");
            reveal_strlit("timestamp");
        }
        match self {
            EventFieldType::Description => {
                let r = "description";
                assert(r@ =~= key_chars(EventFieldType::Description));
                r
            },
            EventFieldType::Memory => {
                let r = "memory";
                assert(r@ =~= key_chars(EventFieldType::Memory));
                r
            },
            EventFieldType::Cpu => {
                let r = "cpu";
                assert(r@ =~= key_chars(EventFieldType::Cpu));
                r
            },
            EventFieldType::Timestamp => {
                let r = "timestamp";
                assert(r@ =~= key_chars(EventFieldType::Timestamp));
                r
            },
        }
    }
}

} // verus!
