//! The text-delimited wire format shared by the event codec.
//!
//! A message is `title|kind|key1=value1|key2=value2|...`: segments split on
//! `|`, each field segment split on its first `=`. `Description` values
//! travel verbatim; numeric values travel as a bracketed, comma-separated
//! list of decimal bytes, such as `[1,2,255]`.

use vstd::prelude::*;
use vstd::slice::slice_subrange;

verus! {

pub const PIPE: u8 = 124;

pub const EQUALS: u8 = 61;

pub const COMMA: u8 = 44;

pub const LBRACKET: u8 = 91;

pub const RBRACKET: u8 = 93;

pub const SPACE: u8 = 32;

pub open spec fn is_digit(b: u8) -> bool {
    48 <= b <= 57
}

/// The number denoted by a sequence of decimal digit bytes.
pub open spec fn dec_value(s: Seq<u8>) -> int
    decreases s.len(),
{
    if s.len() == 0 {
        0
    } else {
        dec_value(s.drop_last()) * 10 + (s.last() - 48)
    }
}

/// Parses one to three decimal digits as a byte value.
pub open spec fn parse_u8_dec(s: Seq<u8>) -> Option<u8> {
    if 1 <= s.len() <= 3 && (forall|i: int| 0 <= i < s.len() ==> is_digit(#[trigger] s[i]))
        && dec_value(s) <= 255 {
        Some(dec_value(s) as u8)
    } else {
        None
    }
}

/// The shortest decimal digit rendering of a byte value.
pub open spec fn dec_of(b: u8) -> Seq<u8> {
    if b < 10 {
        seq![(48 + b) as u8]
    } else if b < 100 {
        seq![(48 + b / 10) as u8, (48 + b % 10) as u8]
    } else {
        seq![(48 + b / 100) as u8, (48 + (b / 10) % 10) as u8, (48 + b % 10) as u8]
    }
}

/// The comma-separated decimal renderings of a byte sequence.
pub open spec fn render_items(v: Seq<u8>) -> Seq<u8>
    decreases v.len(),
{
    if v.len() == 0 {
        Seq::empty()
    } else if v.len() == 1 {
        dec_of(v[0])
    } else {
        render_items(v.drop_last()) + seq![COMMA] + dec_of(v.last())
    }
}

/// The bracketed decimal rendering of a byte sequence.
pub open spec fn render_byte_list(v: Seq<u8>) -> Seq<u8> {
    seq![LBRACKET] + render_items(v) + seq![RBRACKET]
}

/// The index of the first occurrence of `b` in `s`, or -1 when absent.
pub open spec fn first_index_of(s: Seq<u8>, b: u8) -> int
    decreases s.len(),
{
    if s.len() == 0 {
        -1
    } else if s[0] == b {
        0
    } else {
        let r = first_index_of(s.drop_first(), b);
        if r < 0 {
            -1
        } else {
            r + 1
        }
    }
}

pub proof fn lemma_first_index_of(s: Seq<u8>, b: u8)
    ensures
        first_index_of(s, b) >= 0 <==> s.contains(b),
        -1 <= first_index_of(s, b) < s.len(),
        first_index_of(s, b) >= 0 ==> s[first_index_of(s, b)] == b,
        forall|j: int| 0 <= j < first_index_of(s, b) ==> s[j] != b,
    decreases s.len(),
{
    if s.len() == 0 {
    } else if s[0] == b {
    } else {
        lemma_first_index_of(s.drop_first(), b);
        let r = first_index_of(s.drop_first(), b);
        if r >= 0 {
            assert(s[r + 1] == s.drop_first()[r]);
            assert forall|j: int| 0 <= j < r + 1 implies s[j] != b by {
                if j > 0 {
                    assert(s[j] == s.drop_first()[j - 1]);
                }
            }
        } else {
            assert(!s.drop_first().contains(b));
            if s.contains(b) {
                let w = choose|w: int| 0 <= w < s.len() && s[w] == b;
                assert(s.drop_first()[w - 1] == b);
                assert(s.drop_first().contains(b));
            }
        }
    }
}

/// Splitting a byte sequence on a separator; the result always has at least
/// one segment, and none of the segments contains the separator.
pub open spec fn split_bytes(s: Seq<u8>, sep: u8) -> Seq<Seq<u8>>
    decreases s.len(),
{
    if s.len() == 0 {
        seq![Seq::<u8>::empty()]
    } else {
        let rest = split_bytes(s.drop_first(), sep);
        if s[0] == sep {
            seq![Seq::<u8>::empty()] + rest
        } else {
            seq![seq![s[0]] + rest[0]] + rest.drop_first()
        }
    }
}

pub proof fn lemma_split_bytes_len(s: Seq<u8>, sep: u8)
    ensures
        split_bytes(s, sep).len() >= 1,
    decreases s.len(),
{
    if s.len() > 0 {
        lemma_split_bytes_len(s.drop_first(), sep);
    }
}

/// Joining segments with a separator, the inverse of [`split_bytes`].
pub open spec fn join_bytes(segs: Seq<Seq<u8>>, sep: u8) -> Seq<u8>
    decreases segs.len(),
{
    if segs.len() == 0 {
        Seq::empty()
    } else if segs.len() == 1 {
        segs[0]
    } else {
        join_bytes(segs.drop_last(), sep) + seq![sep] + segs.last()
    }
}

/// Splitting a separator-free sequence yields that one segment.
pub proof fn lemma_split_no_sep(s: Seq<u8>, sep: u8)
    requires
        !s.contains(sep),
    ensures
        split_bytes(s, sep) =~~= seq![s],
    decreases s.len(),
{
    if s.len() > 0 {
        assert(s[0] != sep);
        assert forall|j: int| 0 <= j < s.drop_first().len() implies s.drop_first()[j] != sep by {
            assert(s.drop_first()[j] == s[j + 1]);
        }
        assert(!s.drop_first().contains(sep));
        lemma_split_no_sep(s.drop_first(), sep);
        assert(seq![s[0]] + s.drop_first() =~= s);
    }
}

/// Splitting distributes over a separator between two parts.
pub proof fn lemma_split_append(a: Seq<u8>, b: Seq<u8>, sep: u8)
    ensures
        split_bytes(a + seq![sep] + b, sep) =~~= split_bytes(a, sep) + split_bytes(b, sep),
    decreases a.len(),
{
    lemma_split_bytes_len(b, sep);
    if a.len() == 0 {
        assert(a + seq![sep] + b =~= seq![sep] + b);
        assert((seq![sep] + b)[0] == sep);
        assert((seq![sep] + b).drop_first() =~= b);
        assert(split_bytes(a, sep) =~~= seq![Seq::<u8>::empty()]);
    } else {
        let s = a + seq![sep] + b;
        assert(s[0] == a[0]);
        assert(s.drop_first() =~= a.drop_first() + seq![sep] + b);
        lemma_split_append(a.drop_first(), b, sep);
        lemma_split_bytes_len(a.drop_first(), sep);
        if a[0] == sep {
        } else {
            assert((split_bytes(a.drop_first(), sep) + split_bytes(b, sep))[0] == split_bytes(
                a.drop_first(),
                sep,
            )[0]);
        }
    }
}

/// Splitting the join of separator-free segments recovers the segments.
pub proof fn lemma_split_join(segs: Seq<Seq<u8>>, sep: u8)
    requires
        segs.len() >= 1,
        forall|i: int| 0 <= i < segs.len() ==> !(#[trigger] segs[i]).contains(sep),
    ensures
        split_bytes(join_bytes(segs, sep), sep) =~~= segs,
    decreases segs.len(),
{
    if segs.len() == 1 {
        lemma_split_no_sep(segs[0], sep);
        assert(split_bytes(join_bytes(segs, sep), sep) =~~= seq![segs[0]]);
    } else {
        lemma_split_join(segs.drop_last(), sep);
        lemma_split_append(join_bytes(segs.drop_last(), sep), segs.last(), sep);
        lemma_split_no_sep(segs.last(), sep);
        assert(split_bytes(join_bytes(segs, sep), sep) =~~= split_bytes(
            join_bytes(segs.drop_last(), sep),
            sep,
        ) + split_bytes(segs.last(), sep));
        assert(segs.drop_last() + seq![segs.last()] =~~= segs);
    }
}

/// Dropping leading spaces.
pub open spec fn trim_left(s: Seq<u8>) -> Seq<u8>
    decreases s.len(),
{
    if s.len() > 0 && s[0] == SPACE {
        trim_left(s.drop_first())
    } else {
        s
    }
}

/// Dropping trailing spaces.
pub open spec fn trim_right(s: Seq<u8>) -> Seq<u8>
    decreases s.len(),
{
    if s.len() > 0 && s.last() == SPACE {
        trim_right(s.drop_last())
    } else {
        s
    }
}

/// Dropping leading and trailing spaces.
pub open spec fn trim_spaces(s: Seq<u8>) -> Seq<u8> {
    trim_right(trim_left(s))
}

/// Parsing the segments between the brackets of a byte list, one trimmed
/// decimal byte per segment.
pub open spec fn parse_items(segs: Seq<Seq<u8>>) -> Option<Seq<u8>>
    decreases segs.len(),
{
    if segs.len() == 0 {
        Some(Seq::empty())
    } else {
        match parse_items(segs.drop_last()) {
            None => None,
            Some(acc) => match parse_u8_dec(trim_spaces(segs.last())) {
                None => None,
                Some(b) => Some(acc.push(b)),
            },
        }
    }
}

/// Parsing a bracketed, comma-separated list of decimal bytes.
pub open spec fn parse_byte_list(v: Seq<u8>) -> Option<Seq<u8>> {
    if v.len() < 2 || v[0] != LBRACKET || v.last() != RBRACKET {
        None
    } else {
        let segs = split_bytes(v.subrange(1, v.len() - 1), COMMA);
        if segs.len() == 1 && trim_spaces(segs[0]).len() == 0 {
            Some(Seq::empty())
        } else {
            parse_items(segs)
        }
    }
}

/// Splits a byte slice on a separator.
pub fn split_bytes_exec(data: &[u8], sep: u8) -> (r: Vec<Vec<u8>>)
    ensures
        r.deep_view() == split_bytes(data@, sep),
{
    let n = data.len();
    let mut segs: Vec<Vec<u8>> = Vec::new();
    let mut cur: Vec<u8> = Vec::new();
    let mut i: usize = 0;
    while i < n
        invariant
            i <= n,
            n == data@.len(),
            segs.deep_view().push(cur@) =~~= split_bytes(data@.take(i as int), sep),
        decreases n - i,
    {
        let ghost prefix = data@.take(i as int);
        let b = data[i];
        proof {
            lemma_split_push(prefix, sep, b);
            assert(data@.take(i + 1) =~= prefix.push(b));
            lemma_split_bytes_len(prefix, sep);
        }
        if b == sep {
            segs.push(cur);
            cur = Vec::new();
            assert(segs.deep_view().push(cur@) =~~= split_bytes(data@.take(i + 1), sep));
        } else {
            cur.push(b);
            assert(segs.deep_view().push(cur@) =~~= split_bytes(data@.take(i + 1), sep));
        }
        i += 1;
    }
    assert(data@.take(n as int) =~= data@);
    segs.push(cur);
    assert(segs.deep_view() =~~= split_bytes(data@, sep));
    segs
}

/// Appending one byte extends the last segment, or opens a new one.
pub proof fn lemma_split_push(s: Seq<u8>, sep: u8, b: u8)
    ensures
        b == sep ==> split_bytes(s.push(b), sep) =~~= split_bytes(s, sep).push(
            Seq::<u8>::empty(),
        ),
        b != sep ==> split_bytes(s.push(b), sep) =~~= split_bytes(s, sep).update(
            split_bytes(s, sep).len() - 1,
            split_bytes(s, sep).last().push(b),
        ),
    decreases s.len(),
{
    lemma_split_bytes_len(s, sep);
    if s.len() == 0 {
        let t = s.push(b);
        assert(t[0] == b);
        assert(t.drop_first() =~= Seq::<u8>::empty());
        assert(split_bytes(Seq::<u8>::empty(), sep) =~~= seq![Seq::<u8>::empty()]);
        if b == sep {
            assert(split_bytes(t, sep) =~~= seq![Seq::<u8>::empty(), Seq::<u8>::empty()]);
            assert(split_bytes(s, sep).push(Seq::<u8>::empty()) =~~= seq![
                Seq::<u8>::empty(),
                Seq::<u8>::empty(),
            ]);
        } else {
            assert(split_bytes(t, sep) =~~= seq![seq![b]]);
            assert(split_bytes(s, sep).last() =~= Seq::<u8>::empty());
            assert(split_bytes(s, sep).update(0, split_bytes(s, sep).last().push(b)) =~~= seq![
                seq![b],
            ]);
        }
    } else {
        let t = s.push(b);
        assert(t[0] == s[0]);
        assert(t.drop_first() =~= s.drop_first().push(b));
        lemma_split_push(s.drop_first(), sep, b);
        lemma_split_bytes_len(s.drop_first(), sep);
        let rest = split_bytes(s.drop_first(), sep);
        let rest2 = split_bytes(s.drop_first().push(b), sep);
        if b == sep {
            assert(rest2 =~~= rest.push(Seq::<u8>::empty()));
            if s[0] == sep {
                assert(split_bytes(t, sep) =~~= seq![Seq::<u8>::empty()] + rest2);
                assert(seq![Seq::<u8>::empty()] + rest.push(Seq::<u8>::empty()) =~~= (seq![
                    Seq::<u8>::empty(),
                ] + rest).push(Seq::<u8>::empty()));
            } else {
                assert(rest2[0] == rest[0]);
                assert(rest2.drop_first() =~~= rest.drop_first().push(Seq::<u8>::empty()));
                assert(split_bytes(t, sep) =~~= split_bytes(s, sep).push(Seq::<u8>::empty()));
            }
        } else {
            assert(rest2 =~~= rest.update(rest.len() - 1, rest.last().push(b)));
            if s[0] == sep {
                assert(split_bytes(t, sep) =~~= seq![Seq::<u8>::empty()] + rest2);
                assert(split_bytes(s, sep) =~~= seq![Seq::<u8>::empty()] + rest);
                assert(seq![Seq::<u8>::empty()] + rest2 =~~= (seq![Seq::<u8>::empty()]
                    + rest).update(rest.len() as int, rest.last().push(b)));
            } else {
                if rest.len() == 1 {
                    assert(rest2[0] == rest[0].push(b));
                    assert(split_bytes(t, sep) =~~= seq![seq![s[0]] + rest[0].push(b)]);
                    assert(seq![s[0]] + rest[0].push(b) =~= (seq![s[0]] + rest[0]).push(b));
                    assert(split_bytes(s, sep) =~~= seq![seq![s[0]] + rest[0]]);
                    assert(split_bytes(t, sep) =~~= split_bytes(s, sep).update(
                        0,
                        split_bytes(s, sep).last().push(b),
                    ));
                } else {
                    assert(rest2[0] == rest[0]);
                    assert(rest2.drop_first() =~~= rest.drop_first().update(
                        rest.len() - 2,
                        rest.last().push(b),
                    ));
                    assert(split_bytes(t, sep) =~~= seq![seq![s[0]] + rest[0]]
                        + rest.drop_first().update(rest.len() - 2, rest.last().push(b)));
                    assert(split_bytes(s, sep).last() == rest.last());
                    assert(split_bytes(t, sep) =~~= split_bytes(s, sep).update(
                        split_bytes(s, sep).len() - 1,
                        split_bytes(s, sep).last().push(b),
                    ));
                }
            }
        }
    }
}

/// The position of the first `b` in `data`, if any.
pub fn find_first(data: &[u8], b: u8) -> (r: Option<usize>)
    ensures
        match r {
            Some(i) => first_index_of(data@, b) == i as int,
            None => first_index_of(data@, b) == -1,
        },
{
    proof {
        lemma_first_index_of(data@, b);
    }
    let n = data.len();
    let mut i: usize = 0;
    while i < n
        invariant
            i <= n,
            n == data@.len(),
            forall|j: int| 0 <= j < i ==> data@[j] != b,
        decreases n - i,
    {
        if data[i] == b {
            proof {
                lemma_first_index_of(data@, b);
                assert(data@.contains(b));
                let f = first_index_of(data@, b);
                assert(f <= i);
                assert(f >= i);
            }
            return Some(i);
        }
        i += 1;
    }
    proof {
        if data@.contains(b) {
            let w = choose|w: int| 0 <= w < data@.len() && data@[w] == b;
            assert(data@[w] != b);
        }
    }
    None
}

/// Parses one to three decimal digits from a byte slice.
pub fn parse_u8_dec_exec(s: &[u8]) -> (r: Option<u8>)
    ensures
        r == parse_u8_dec(s@),
{
    let n = s.len();
    if n < 1 || n > 3 {
        return None;
    }
    let mut acc: u32 = 0;
    let mut i: usize = 0;
    assert(s@.take(0) =~= Seq::<u8>::empty());
    while i < n
        invariant
            i <= n,
            1 <= n <= 3,
            n == s@.len(),
            acc == dec_value(s@.take(i as int)),
            i == 0 ==> acc == 0,
            i == 1 ==> acc < 10,
            i == 2 ==> acc < 100,
            i == 3 ==> acc < 1000,
            forall|j: int| 0 <= j < i ==> is_digit(#[trigger] s@[j]),
        decreases n - i,
    {
        let b = s[i];
        if b < 48 || b > 57 {
            assert(!is_digit(s@[i as int]));
            return None;
        }
        proof {
            assert(s@.take(i + 1).drop_last() =~= s@.take(i as int));
            assert(s@.take(i + 1).last() == s@[i as int]);
        }
        acc = acc * 10 + ((b - 48) as u32);
        i += 1;
    }
    assert(s@.take(n as int) =~= s@);
    if acc > 255 {
        return None;
    }
    Some(acc as u8)
}

/// Renders a byte as decimal digits.
pub fn u8_to_dec(b: u8) -> (r: Vec<u8>)
    ensures
        r@ == dec_of(b),
{
    let mut out: Vec<u8> = Vec::new();
    if b < 10 {
        out.push(48 + b);
    } else if b < 100 {
        out.push(48 + b / 10);
        out.push(48 + b % 10);
    } else {
        out.push(48 + b / 100);
        out.push(48 + (b / 10) % 10);
        out.push(48 + b % 10);
    }
    assert(out@ =~= dec_of(b));
    out
}

/// Renders a byte sequence as a bracketed decimal list.
pub fn render_byte_list_exec(v: &[u8]) -> (r: Vec<u8>)
    ensures
        r@ == render_byte_list(v@),
{
    let n = v.len();
    let mut out: Vec<u8> = Vec::new();
    out.push(LBRACKET);
    let mut i: usize = 0;
    while i < n
        invariant
            i <= n,
            n == v@.len(),
            out@ =~= seq![LBRACKET] + render_items(v@.take(i as int)),
        decreases n - i,
    {
        if i > 0 {
            out.push(COMMA);
        }
        let mut digits = u8_to_dec(v[i]);
        out.append(&mut digits);
        proof {
            let p = v@.take(i + 1);
            assert(p.drop_last() =~= v@.take(i as int));
            assert(p.last() == v@[i as int]);
            if i == 0 {
                assert(render_items(p) == dec_of(v@[0]));
            }
        }
        assert(out@ =~= seq![LBRACKET] + render_items(v@.take(i + 1)));
        i += 1;
    }
    assert(v@.take(n as int) =~= v@);
    out.push(RBRACKET);
    assert(out@ =~= render_byte_list(v@));
    out
}

/// Trims leading and trailing spaces from a byte slice.
pub fn trim_spaces_exec<'a>(s: &'a [u8]) -> (r: &'a [u8])
    ensures
        r@ == trim_spaces(s@),
{
    let n = s.len();
    let mut lo: usize = 0;
    assert(s@.skip(0) =~= s@);
    while lo < n && s[lo] == SPACE
        invariant
            lo <= n,
            n == s@.len(),
            trim_left(s@) == trim_left(s@.skip(lo as int)),
        decreases n - lo,
    {
        proof {
            assert(s@.skip(lo as int)[0] == SPACE);
            assert(s@.skip(lo as int).drop_first() =~= s@.skip(lo + 1));
        }
        lo += 1;
    }
    proof {
        if lo < n {
            assert(s@.skip(lo as int)[0] == s@[lo as int]);
        }
        assert(trim_left(s@) == s@.skip(lo as int));
    }
    let mut hi: usize = n;
    assert(s@.skip(lo as int) =~= s@.subrange(lo as int, n as int));
    while hi > lo && s[hi - 1] == SPACE
        invariant
            lo <= hi <= n,
            n == s@.len(),
            trim_left(s@) == s@.skip(lo as int),
            trim_right(s@.skip(lo as int)) == trim_right(s@.subrange(lo as int, hi as int)),
        decreases hi,
    {
        proof {
            let cur = s@.subrange(lo as int, hi as int);
            assert(cur.last() == s@[hi - 1]);
            assert(cur.drop_last() =~= s@.subrange(lo as int, hi - 1));
        }
        hi -= 1;
    }
    proof {
        let cur = s@.subrange(lo as int, hi as int);
        if hi > lo {
            assert(cur.last() == s@[hi - 1]);
        }
        assert(trim_right(cur) == cur);
    }
    slice_subrange(s, lo, hi)
}

/// Parses a bracketed decimal byte list from a byte slice.
pub fn parse_byte_list_exec(v: &[u8]) -> (r: Option<Vec<u8>>)
    ensures
        match r {
            Some(out) => parse_byte_list(v@) == Some(out@),
            None => parse_byte_list(v@) is None,
        },
{
    let n = v.len();
    if n < 2 {
        return None;
    }
    if v[0] != LBRACKET || v[n - 1] != RBRACKET {
        return None;
    }
    let inner = slice_subrange(v, 1, n - 1);
    assert(inner@ == v@.subrange(1, v@.len() - 1));
    let segs = split_bytes_exec(inner, COMMA);
    let ghost gsegs = split_bytes(inner@, COMMA);
    proof {
        lemma_split_bytes_len(inner@, COMMA);
    }
    if segs.len() == 1 {
        let t = trim_spaces_exec(segs[0].as_slice());
        assert(segs[0]@ == gsegs[0]);
        if t.len() == 0 {
            let out: Vec<u8> = Vec::new();
            assert(parse_byte_list(v@) == Some(out@));
            return Some(out);
        }
    }
    let m = segs.len();
    let mut out: Vec<u8> = Vec::new();
    let mut i: usize = 0;
    assert(gsegs.take(0) =~~= Seq::<Seq<u8>>::empty());
    while i < m
        invariant
            i <= m,
            m == gsegs.len(),
            segs.deep_view() == gsegs,
            parse_items(gsegs.take(i as int)) == Some(out@),
            v@.len() >= 2,
            v@[0] == LBRACKET,
            v@.last() == RBRACKET,
            gsegs == split_bytes(v@.subrange(1, v@.len() - 1), COMMA),
            gsegs.len() == 1 ==> trim_spaces(gsegs[0]).len() != 0,
        decreases m - i,
    {
        assert(segs[i as int]@ == gsegs[i as int]);
        let t = trim_spaces_exec(segs[i].as_slice());
        let parsed = parse_u8_dec_exec(t);
        proof {
            assert(gsegs.take(i + 1).drop_last() =~= gsegs.take(i as int));
            assert(gsegs.take(i + 1).last() == gsegs[i as int]);
        }
        match parsed {
            None => {
                proof {
                    lemma_parse_items_none(gsegs, i as int);
                }
                return None;
            },
            Some(b) => {
                out.push(b);
            },
        }
        i += 1;
    }
    assert(gsegs.take(m as int) =~= gsegs);
    Some(out)
}

/// The decimal rendering of a byte consists of digits alone.
pub proof fn lemma_dec_of_digits(b: u8)
    ensures
        1 <= dec_of(b).len() <= 3,
        forall|i: int| 0 <= i < dec_of(b).len() ==> is_digit(#[trigger] dec_of(b)[i]),
{
    assert(b / 10 <= 25) by (nonlinear_arith);
    assert(b / 100 <= 2) by (nonlinear_arith);
    assert(b % 10 <= 9) by (nonlinear_arith);
    assert((b / 10) % 10 <= 9) by (nonlinear_arith);
    assert(b >= 10 ==> b / 10 >= 1) by (nonlinear_arith);
}

/// Parsing the decimal rendering of a byte gives the byte back.
pub proof fn lemma_parse_dec_of(b: u8)
    ensures
        parse_u8_dec(dec_of(b)) == Some(b),
{
    lemma_dec_of_digits(b);
    let s = dec_of(b);
    assert(dec_value(Seq::<u8>::empty()) == 0);
    if b < 10 {
        assert(s.drop_last() =~= Seq::<u8>::empty());
        assert(dec_value(s) == dec_value(Seq::<u8>::empty()) * 10 + (s.last() - 48));
        assert(dec_value(s) == b);
    } else if b < 100 {
        let s1 = seq![(48 + b / 10) as u8];
        assert(s.drop_last() =~= s1);
        assert(s1.drop_last() =~= Seq::<u8>::empty());
        assert(dec_value(s1) == dec_value(Seq::<u8>::empty()) * 10 + (s1.last() - 48));
        assert(dec_value(s1) == b / 10);
        assert(b == (b / 10) * 10 + b % 10) by (nonlinear_arith);
        assert(dec_value(s) == dec_value(s1) * 10 + (s.last() - 48));
        assert(dec_value(s) == b);
    } else {
        let s2 = seq![(48 + b / 100) as u8, (48 + (b / 10) % 10) as u8];
        let s1 = seq![(48 + b / 100) as u8];
        assert(s.drop_last() =~= s2);
        assert(s2.drop_last() =~= s1);
        assert(s1.drop_last() =~= Seq::<u8>::empty());
        assert(dec_value(s1) == dec_value(Seq::<u8>::empty()) * 10 + (s1.last() - 48));
        assert(dec_value(s1) == b / 100);
        assert(dec_value(s2) == dec_value(s1) * 10 + (s2.last() - 48));
        assert(dec_value(s2) == (b / 100) * 10 + (b / 10) % 10);
        assert(b / 10 == (b / 100) * 10 + (b / 10) % 10) by (nonlinear_arith);
        assert(b == (b / 10) * 10 + b % 10) by (nonlinear_arith);
        assert(dec_value(s) == dec_value(s2) * 10 + (s.last() - 48));
        assert(dec_value(s) == b);
    }
}

/// Every byte of a rendered item list is a digit or a comma.
pub proof fn lemma_render_items_class(v: Seq<u8>)
    ensures
        forall|i: int|
            0 <= i < render_items(v).len() ==> (is_digit(#[trigger] render_items(v)[i])
                || render_items(v)[i] == COMMA),
    decreases v.len(),
{
    if v.len() == 0 {
    } else if v.len() == 1 {
        lemma_dec_of_digits(v[0]);
    } else {
        lemma_render_items_class(v.drop_last());
        lemma_dec_of_digits(v.last());
        let r = render_items(v);
        let r1 = render_items(v.drop_last());
        let d = dec_of(v.last());
        assert forall|i: int| 0 <= i < r.len() implies (is_digit(r[i]) || r[i] == COMMA) by {
            if i < r1.len() {
                assert(r[i] == r1[i]);
            } else if i == r1.len() {
                assert(r[i] == COMMA);
            } else {
                assert(r[i] == d[i - r1.len() - 1]);
            }
        }
    }
}

/// Every byte of a rendered byte list is a digit, comma, or bracket.
pub proof fn lemma_render_byte_list_class(v: Seq<u8>)
    ensures
        forall|i: int|
            0 <= i < render_byte_list(v).len() ==> (is_digit(#[trigger] render_byte_list(v)[i])
                || render_byte_list(v)[i] == COMMA || render_byte_list(v)[i] == LBRACKET
                || render_byte_list(v)[i] == RBRACKET),
{
    lemma_render_items_class(v);
}

/// A space-free sequence trims to itself.
pub proof fn lemma_trim_no_spaces(s: Seq<u8>)
    requires
        forall|i: int| 0 <= i < s.len() ==> s[i] != SPACE,
    ensures
        trim_spaces(s) == s,
{
}

/// Splitting a rendered item list on commas recovers one rendered byte per
/// segment.
proof fn lemma_split_render_items(v: Seq<u8>)
    requires
        v.len() >= 1,
    ensures
        split_bytes(render_items(v), COMMA) =~~= v.map_values(|b: u8| dec_of(b)),
    decreases v.len(),
{
    if v.len() == 1 {
        lemma_dec_of_digits(v[0]);
        assert(!dec_of(v[0]).contains(COMMA));
        lemma_split_no_sep(dec_of(v[0]), COMMA);
        assert(split_bytes(render_items(v), COMMA) =~~= seq![dec_of(v[0])]);
        assert(v.map_values(|b: u8| dec_of(b)) =~~= seq![dec_of(v[0])]);
    } else {
        lemma_split_render_items(v.drop_last());
        lemma_dec_of_digits(v.last());
        assert(!dec_of(v.last()).contains(COMMA));
        lemma_split_append(render_items(v.drop_last()), dec_of(v.last()), COMMA);
        lemma_split_no_sep(dec_of(v.last()), COMMA);
        assert(split_bytes(render_items(v), COMMA) =~~= v.drop_last().map_values(
            |b: u8| dec_of(b),
        ) + seq![dec_of(v.last())]);
        assert(v.map_values(|b: u8| dec_of(b)) =~~= v.drop_last().map_values(|b: u8| dec_of(b))
            + seq![dec_of(v.last())]);
    }
}

/// Parsing the rendered segments gives the original bytes back.
proof fn lemma_parse_items_render(v: Seq<u8>)
    ensures
        parse_items(v.map_values(|b: u8| dec_of(b))) == Some(v),
    decreases v.len(),
{
    let segs = v.map_values(|b: u8| dec_of(b));
    if v.len() == 0 {
        assert(segs.len() == 0);
        assert(parse_items(segs) == Some(Seq::<u8>::empty()));
        assert(Seq::<u8>::empty() =~= v);
    } else {
        lemma_parse_items_render(v.drop_last());
        assert(segs.drop_last() =~~= v.drop_last().map_values(|b: u8| dec_of(b)));
        lemma_dec_of_digits(v.last());
        lemma_trim_no_spaces(dec_of(v.last()));
        lemma_parse_dec_of(v.last());
        assert(segs.last() == dec_of(v.last()));
        assert(v.drop_last().push(v.last()) =~= v);
    }
}

/// Rendering a byte sequence as a bracketed decimal list and parsing it
/// back gives the original sequence.
pub proof fn lemma_byte_list_round_trip(v: Seq<u8>)
    ensures
        parse_byte_list(render_byte_list(v)) == Some(v),
{
    let r = render_byte_list(v);
    assert(r[0] == LBRACKET);
    assert(r.last() == RBRACKET);
    let inner = r.subrange(1, r.len() - 1);
    assert(inner =~= render_items(v));
    if v.len() == 0 {
        assert(inner =~= Seq::<u8>::empty());
        assert(split_bytes(inner, COMMA) =~~= seq![Seq::<u8>::empty()]);
        assert(trim_spaces(Seq::<u8>::empty()).len() == 0);
        assert(parse_byte_list(r) == Some(Seq::<u8>::empty()));
        assert(Seq::<u8>::empty() =~= v);
    } else {
        lemma_split_render_items(v);
        let segs = split_bytes(inner, COMMA);
        assert(segs =~~= v.map_values(|b: u8| dec_of(b)));
        lemma_parse_items_render(v);
        if segs.len() == 1 {
            assert(segs[0] == dec_of(v[0]));
            lemma_dec_of_digits(v[0]);
            lemma_trim_no_spaces(dec_of(v[0]));
            assert(trim_spaces(segs[0]).len() != 0);
        }
    }
}

/// Once one segment fails to parse, the whole item list fails.
proof fn lemma_parse_items_none(segs: Seq<Seq<u8>>, i: int)
    requires
        0 <= i < segs.len(),
        parse_u8_dec(trim_spaces(segs[i])) is None,
    ensures
        parse_items(segs) is None,
    decreases segs.len(),
{
    if segs.len() > 0 {
        if i == segs.len() - 1 {
        } else {
            lemma_parse_items_none(segs.drop_last(), i);
        }
    }
}

} // verus!
