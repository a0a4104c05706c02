//! The status aggregator: a title-keyed map of the most recent message
//! per title, with time-to-live eviction and a synthetic placeholder
//! shown when nothing else is active.

use vstd::prelude::*;
use vstd::slice::slice_to_vec;
use vstd::string::StringSliceAdditionalSpecFns;

use crate::models::event_bus_field_type::{lower_bytes, EventFieldType};
use crate::models::event_bus_message::{
    dedup_fields, not_found_bytes, spec_decode, DecodeError, EventBusMessage, EventView,
};
use crate::models::event_type::EventType;
use crate::services::event_bus::Subscriber;
use crate::utils::strings::str_eq;

verus! {

/// Seconds a non-socket entry may go unrefreshed before the sweep evicts
/// it.
pub const CLEANUP_INTERVAL: u8 = 2;

/// The title of the synthetic placeholder entry.
pub open spec fn placeholder_title() -> Seq<char> {
    seq!['A', 'l', 'l', ' ', 'g', 'o', 'o', 'd', '!']
}

/// The description text of the synthetic placeholder entry.
pub open spec fn placeholder_desc_chars() -> Seq<char> {
    seq!['N', 'o', 't', 'h', 'i', 'n', 'g', ' ', 'h', 'a', 'p', 'p', 'e', 'n', 'i', 'n', 'g']
}

/// The placeholder entry itself: a Process-kind message with timestamp 0,
/// so that it never looks fresh, and is kept only by its title.
pub open spec fn placeholder_view() -> EventView {
    EventView {
        title: placeholder_title(),
        kind: EventType::Process,
        fields: seq![
            (
                EventFieldType::Description,
                placeholder_desc_chars().map_values(|c: char| c as u8),
            ),
        ],
        ts: 0,
    }
}

/// The lower-cased bytes of the "done" sentinel.
pub open spec fn done_bytes() -> Seq<u8> {
    seq!['d' as u8, 'o' as u8, 'n' as u8, 'e' as u8]
}

/// Whether a message is a socket-origin "remove this title" signal: its
/// description equals the sentinel up to ASCII case.
pub open spec fn is_done_signal(v: EventView) -> bool {
    &&& v.kind == EventType::Socket
    &&& v.field_map().contains_key(EventFieldType::Description)
    &&& lower_bytes(v.field_map()[EventFieldType::Description]) == done_bytes()
}

/// The title-keyed map folded from stored messages; a later message
/// overwrites an earlier one with the same title.
pub open spec fn smap_of(s: Seq<EventView>) -> Map<Seq<char>, EventView>
    decreases s.len(),
{
    if s.len() == 0 {
        Map::empty()
    } else {
        smap_of(s.drop_last()).insert(s.last().title, s.last())
    }
}

/// No two stored messages share a title.
pub open spec fn unique_titles(s: Seq<EventView>) -> bool {
    forall|i: int, j: int|
        0 <= i < j < s.len() ==> (#[trigger] s[i]).title != (#[trigger] s[j]).title
}

/// The first index holding the given title, or -1.
pub open spec fn title_index(s: Seq<EventView>, t: Seq<char>) -> int
    decreases s.len(),
{
    if s.len() == 0 {
        -1
    } else if s[0].title == t {
        0
    } else {
        let r = title_index(s.drop_first(), t);
        if r < 0 {
            -1
        } else {
            r + 1
        }
    }
}

pub proof fn lemma_title_index(s: Seq<EventView>, t: Seq<char>)
    ensures
        -1 <= title_index(s, t) < s.len(),
        title_index(s, t) >= 0 ==> s[title_index(s, t)].title == t,
        forall|j: int| 0 <= j < title_index(s, t) ==> (#[trigger] s[j]).title != t,
        title_index(s, t) < 0 ==> forall|j: int|
            0 <= j < s.len() ==> (#[trigger] s[j]).title != t,
    decreases s.len(),
{
    if s.len() == 0 {
    } else if s[0].title == t {
    } else {
        lemma_title_index(s.drop_first(), t);
        assert forall|j: int| 1 <= j < s.len() implies s[j] == s.drop_first()[j - 1] by {}
    }
}

/// With unique titles, the folded map holds exactly the stored messages.
pub proof fn lemma_smap_lookup(s: Seq<EventView>, t: Seq<char>)
    requires
        unique_titles(s),
    ensures
        forall|i: int|
            0 <= i < s.len() && (#[trigger] s[i]).title == t ==> smap_of(s).contains_key(t)
                && smap_of(s)[t] == s[i],
        (forall|i: int| 0 <= i < s.len() ==> (#[trigger] s[i]).title != t) ==> !smap_of(
            s,
        ).contains_key(t),
    decreases s.len(),
{
    if s.len() > 0 {
        assert forall|a: int, b: int|
            0 <= a < b < s.drop_last().len() implies (#[trigger] s.drop_last()[a]).title != (
        #[trigger] s.drop_last()[b]).title by {
            assert(s.drop_last()[a] == s[a]);
            assert(s.drop_last()[b] == s[b]);
        }
        lemma_smap_lookup(s.drop_last(), t);
        assert forall|i: int|
            0 <= i < s.len() && (#[trigger] s[i]).title == t implies smap_of(s).contains_key(t)
            && smap_of(s)[t] == s[i] by {
            if i < s.len() - 1 {
                assert(s.drop_last()[i] == s[i]);
                assert(s.last().title != t);
            }
        }
    }
}

/// With unique titles, the folded map has one key per stored message.
pub proof fn lemma_smap_len(s: Seq<EventView>)
    requires
        unique_titles(s),
    ensures
        smap_of(s).dom().len() == s.len(),
        smap_of(s).dom().finite(),
    decreases s.len(),
{
    if s.len() > 0 {
        assert forall|a: int, b: int|
            0 <= a < b < s.drop_last().len() implies (#[trigger] s.drop_last()[a]).title != (
        #[trigger] s.drop_last()[b]).title by {
            assert(s.drop_last()[a] == s[a]);
            assert(s.drop_last()[b] == s[b]);
        }
        lemma_smap_len(s.drop_last());
        lemma_smap_lookup(s.drop_last(), s.last().title);
        assert forall|i: int|
            0 <= i < s.drop_last().len() implies (#[trigger] s.drop_last()[i]).title
            != s.last().title by {
            assert(s.drop_last()[i] == s[i]);
        }
        assert(!smap_of(s.drop_last()).contains_key(s.last().title));
        assert(smap_of(s).dom() =~= smap_of(s.drop_last()).dom().insert(s.last().title));
    }
}

/// What one delivered message does to the aggregator map: a lone
/// placeholder gives way first; a "done" signal for a present title
/// removes that entry; anything else is inserted or replaces its title.
pub open spec fn spec_apply(m0: Map<Seq<char>, EventView>, msg: EventView) -> Map<
    Seq<char>,
    EventView,
> {
    let m1 = if m0.dom().len() == 1 && m0.contains_key(placeholder_title()) {
        m0.remove(placeholder_title())
    } else {
        m0
    };
    if is_done_signal(msg) && m1.contains_key(msg.title) {
        m1.remove(msg.title)
    } else {
        m1.insert(msg.title, msg)
    }
}

/// Whether the sweep keeps an entry at the given time: the placeholder
/// and socket-origin entries always stay; anything else stays while it is
/// younger than the TTL.
pub open spec fn keeps(v: EventView, now: i64) -> bool {
    ||| v.title == placeholder_title()
    ||| v.kind == EventType::Socket
    ||| now - v.ts < CLEANUP_INTERVAL as int
}

/// What one sweep does to the aggregator map: stale non-socket entries
/// go, and if nothing at all is left the placeholder is put back.
pub open spec fn spec_cleanup(m0: Map<Seq<char>, EventView>, now: i64) -> Map<
    Seq<char>,
    EventView,
> {
    let kept = Map::<Seq<char>, EventView>::new(
        |t: Seq<char>| m0.contains_key(t) && keeps(m0[t], now),
        |t: Seq<char>| m0[t],
    );
    if kept.dom() == Set::<Seq<char>>::empty() {
        Map::empty().insert(placeholder_title(), placeholder_view())
    } else {
        kept
    }
}

/// The placeholder never stands beside another entry.
pub open spec fn placeholder_alone(m: Map<Seq<char>, EventView>) -> bool {
    m.contains_key(placeholder_title()) ==> forall|t: Seq<char>|
        m.contains_key(t) ==> t == placeholder_title()
}

/// The messages a filtering sweep keeps, in order.
pub open spec fn sfilter(s: Seq<EventView>, now: i64) -> Seq<EventView>
    decreases s.len(),
{
    if s.len() == 0 {
        Seq::empty()
    } else if keeps(s.last(), now) {
        sfilter(s.drop_last(), now).push(s.last())
    } else {
        sfilter(s.drop_last(), now)
    }
}

/// Replacing the message at the index that already holds its title
/// updates the folded map in place.
proof fn lemma_supdate(s: Seq<EventView>, i: int, v: EventView)
    requires
        unique_titles(s),
        0 <= i < s.len(),
        s[i].title == v.title,
    ensures
        unique_titles(s.update(i, v)),
        smap_of(s.update(i, v)) == smap_of(s).insert(v.title, v),
    decreases s.len(),
{
    let t = s.update(i, v);
    if i == s.len() - 1 {
        assert(t.drop_last() =~= s.drop_last());
        assert(t.last() == v);
        assert(smap_of(s.drop_last()).insert(s.last().title, s.last()).insert(v.title, v)
            =~= smap_of(s.drop_last()).insert(v.title, v));
    } else {
        assert forall|a: int, b: int|
            0 <= a < b < s.drop_last().len() implies (#[trigger] s.drop_last()[a]).title != (
        #[trigger] s.drop_last()[b]).title by {
            assert(s.drop_last()[a] == s[a]);
            assert(s.drop_last()[b] == s[b]);
        }
        assert(t.drop_last() =~= s.drop_last().update(i, v));
        assert(t.last() == s.last());
        lemma_supdate(s.drop_last(), i, v);
        assert(s.last().title != v.title);
        assert(smap_of(s.drop_last()).insert(v.title, v).insert(s.last().title, s.last())
            =~= smap_of(s.drop_last()).insert(s.last().title, s.last()).insert(v.title, v));
    }
}

/// Removing the message at the index that holds a title removes that
/// title from the folded map.
proof fn lemma_sremove(s: Seq<EventView>, i: int)
    requires
        unique_titles(s),
        0 <= i < s.len(),
    ensures
        unique_titles(s.remove(i)),
        smap_of(s.remove(i)) == smap_of(s).remove(s[i].title),
    decreases s.len(),
{
    let t = s.remove(i);
    assert forall|a: int, b: int|
        0 <= a < b < s.drop_last().len() implies (#[trigger] s.drop_last()[a]).title != (
    #[trigger] s.drop_last()[b]).title by {
        assert(s.drop_last()[a] == s[a]);
        assert(s.drop_last()[b] == s[b]);
    }
    if i == s.len() - 1 {
        assert(t =~= s.drop_last());
        lemma_smap_lookup(s.drop_last(), s[i].title);
        assert forall|j: int|
            0 <= j < s.drop_last().len() implies (#[trigger] s.drop_last()[j]).title
            != s[i].title by {
            assert(s.drop_last()[j] == s[j]);
        }
        assert(!smap_of(s.drop_last()).contains_key(s[i].title));
        assert(smap_of(s.drop_last()) =~= smap_of(s.drop_last()).insert(
            s.last().title,
            s.last(),
        ).remove(s[i].title));
    } else {
        assert(t.drop_last() =~= s.drop_last().remove(i));
        assert(t.last() == s.last());
        lemma_sremove(s.drop_last(), i);
        assert(s.drop_last()[i] == s[i]);
        assert(s.last().title != s[i].title);
        assert(smap_of(s.drop_last()).remove(s[i].title).insert(s.last().title, s.last())
            =~= smap_of(s.drop_last()).insert(s.last().title, s.last()).remove(s[i].title));
    }
}

/// A sweep keeps unique titles unique and folds into the filtered map.
proof fn lemma_sfilter_map(s: Seq<EventView>, now: i64)
    requires
        unique_titles(s),
    ensures
        unique_titles(sfilter(s, now)),
        forall|i: int|
            0 <= i < sfilter(s, now).len() ==> s.contains(#[trigger] sfilter(s, now)[i]),
        smap_of(sfilter(s, now)) == Map::<Seq<char>, EventView>::new(
            |t: Seq<char>| smap_of(s).contains_key(t) && keeps(smap_of(s)[t], now),
            |t: Seq<char>| smap_of(s)[t],
        ),
    decreases s.len(),
{
    let goal = Map::<Seq<char>, EventView>::new(
        |t: Seq<char>| smap_of(s).contains_key(t) && keeps(smap_of(s)[t], now),
        |t: Seq<char>| smap_of(s)[t],
    );
    if s.len() == 0 {
        assert(smap_of(sfilter(s, now)) =~= goal);
    } else {
        let d = s.drop_last();
        let last = s.last();
        assert forall|a: int, b: int|
            0 <= a < b < d.len() implies (#[trigger] d[a]).title != (#[trigger] d[b]).title by {
            assert(d[a] == s[a]);
            assert(d[b] == s[b]);
        }
        lemma_sfilter_map(d, now);
        lemma_smap_lookup(d, last.title);
        assert forall|j: int| 0 <= j < d.len() implies (#[trigger] d[j]).title != last.title by {
            assert(d[j] == s[j]);
        }
        assert(!smap_of(d).contains_key(last.title));
        let dgoal = Map::<Seq<char>, EventView>::new(
            |t: Seq<char>| smap_of(d).contains_key(t) && keeps(smap_of(d)[t], now),
            |t: Seq<char>| smap_of(d)[t],
        );
        assert forall|i: int|
            0 <= i < sfilter(s, now).len() implies s.contains(#[trigger] sfilter(s, now)[i]) by {
            if keeps(last, now) && i == sfilter(s, now).len() - 1 {
                assert(sfilter(s, now)[i] == last);
            } else {
                assert(sfilter(s, now)[i] == sfilter(d, now)[i]);
                assert(d.contains(sfilter(d, now)[i]));
                let w = choose|w: int| 0 <= w < d.len() && d[w] == sfilter(d, now)[i];
                assert(s[w] == d[w]);
            }
        }
        if keeps(last, now) {
            assert(unique_titles(sfilter(s, now))) by {
                let f = sfilter(s, now);
                assert forall|a: int, b: int|
                    0 <= a < b < f.len() implies (#[trigger] f[a]).title != (
                #[trigger] f[b]).title by {
                    if b < f.len() - 1 {
                        assert(f[a] == sfilter(d, now)[a]);
                        assert(f[b] == sfilter(d, now)[b]);
                    } else {
                        assert(f[a] == sfilter(d, now)[a]);
                        assert(d.contains(sfilter(d, now)[a]));
                        let w = choose|w: int|
                            0 <= w < d.len() && d[w] == sfilter(d, now)[a];
                        assert(f[b] == last);
                        assert(d[w].title != last.title);
                    }
                }
            }
            assert(sfilter(s, now).drop_last() =~= sfilter(d, now));
            assert(sfilter(s, now).last() == last);
            assert(smap_of(sfilter(s, now)) == smap_of(sfilter(d, now)).insert(
                last.title,
                last,
            ));
            assert(smap_of(sfilter(s, now)) =~= goal);
        } else {
            assert(sfilter(s, now) == sfilter(d, now));
            assert(smap_of(sfilter(s, now)) =~= goal);
        }
    }
}

/// The views of stored messages, in storage order.
pub open spec fn entries_view(s: Seq<EventBusMessage>) -> Seq<EventView> {
    Seq::new(s.len(), |i: int| s[i]@)
}

/// The status aggregator. It owns its map of active messages
/// exclusively: only its own delivery callback and its own cleanup sweep
/// write it, and the rendering layer reads a snapshot.
pub struct CurrentStatusController {
    active_messages: Vec<EventBusMessage>,
}

impl View for CurrentStatusController {
    type V = Map<Seq<char>, EventView>;

    closed spec fn view(&self) -> Map<Seq<char>, EventView> {
        smap_of(entries_view(self.active_messages@))
    }
}

/// The placeholder's title as a string slice.
fn placeholder_title_exec() -> (r: &'static str)
    ensures
        r@ == placeholder_title(),
{
    proof {
        reveal_strlit("All good!");
        assert("All good!"@ =~= placeholder_title());
    }
    "All good!"
}

impl CurrentStatusController {
    /// No two stored messages share a title.
    #[verifier::type_invariant]
    spec fn inv(self) -> bool {
        unique_titles(entries_view(self.active_messages@))
    }

    /// A fresh aggregator with no active messages; the first cleanup
    /// sweep will put the placeholder in.
    pub fn new() -> (r: Self)
        ensures
            r@ == Map::<Seq<char>, EventView>::empty(),
    {
        let r = CurrentStatusController { active_messages: Vec::new() };
        proof {
            assert(entries_view(r.active_messages@) =~= Seq::<EventView>::empty());
        }
        r
    }

    /// The position of the message with the given title, if any.
    fn find_title(msgs: &Vec<EventBusMessage>, t: &str) -> (r: Option<usize>)
        ensures
            match r {
                Some(i) => title_index(entries_view(msgs@), t@) == i as int,
                None => title_index(entries_view(msgs@), t@) < 0,
            },
    {
        let ghost es = entries_view(msgs@);
        proof {
            lemma_title_index(es, t@);
        }
        let n = msgs.len();
        let mut i: usize = 0;
        while i < n
            invariant
                i <= n,
                n == msgs@.len(),
                es == entries_view(msgs@),
                forall|j: int| 0 <= j < i ==> (#[trigger] es[j]).title != t@,
            decreases n - i,
        {
            if str_eq(msgs[i].title(), t) {
                proof {
                    lemma_title_index(es, t@);
                    assert(es[i as int].title == t@);
                }
                return Some(i);
            }
            assert(es[i as int].title != t@);
            i += 1;
        }
        proof {
            lemma_title_index(es, t@);
        }
        None
    }

    /// Whether a message is the socket-origin "done" signal.
    fn is_done_exec(msg: &EventBusMessage) -> (r: bool)
        ensures
            r == is_done_signal(msg@),
    {
        if *msg.event_type() != EventType::Socket {
            return false;
        }
        let v = msg.get_field(EventFieldType::Description);
        proof {
            if !msg@.field_map().contains_key(EventFieldType::Description) {
                assert(v@ == not_found_bytes(EventFieldType::Description));
                crate::models::event_bus_message::lemma_not_found_len();
                assert(lower_bytes(v@).len() != 4);
            }
        }
        if v.len() != 4 {
            assert(lower_bytes(v@).len() != done_bytes().len());
            return false;
        }
        let ok = (v[0] == 'd' as u8 || v[0] == 'D' as u8) && (v[1] == 'o' as u8 || v[1] == 'O'
            as u8) && (v[2] == 'n' as u8 || v[2] == 'N' as u8) && (v[3] == 'e' as u8 || v[3]
            == 'E' as u8);
        proof {
            if ok {
                assert(lower_bytes(v@) =~= done_bytes());
                if !msg@.field_map().contains_key(EventFieldType::Description) {
                    crate::models::event_bus_message::lemma_not_found_len();
                }
            } else {
                assert(lower_bytes(v@) != done_bytes()) by {
                    if lower_bytes(v@) == done_bytes() {
                        assert(lower_bytes(v@)[0] == 'd' as u8);
                        assert(lower_bytes(v@)[1] == 'o' as u8);
                        assert(lower_bytes(v@)[2] == 'n' as u8);
                        assert(lower_bytes(v@)[3] == 'e' as u8);
                    }
                }
            }
        }
        ok
    }

    /// Applies one decoded message to the map, as the aggregator's
    /// delivery callback does: see [`spec_apply`].
    pub fn apply_event(&mut self, msg: EventBusMessage)
        ensures
            final (self)@ == spec_apply(old(self)@, msg@),
    {
        proof {
            use_type_invariant(&*self);
        }
        let mut msgs: Vec<EventBusMessage> = Vec::new();
        core::mem::swap(&mut msgs, &mut self.active_messages);
        let ghost e0 = entries_view(msgs@);
        let ghost m0 = smap_of(e0);
        proof {
            lemma_smap_len(e0);
            lemma_smap_lookup(e0, placeholder_title());
        }
        if msgs.len() == 1 && str_eq(msgs[0].title(), placeholder_title_exec()) {
            proof {
                assert(e0[0].title == placeholder_title());
                assert(m0.contains_key(placeholder_title()));
            }
            let _ = msgs.pop();
            proof {
                assert(entries_view(msgs@) =~= Seq::<EventView>::empty());
                assert(smap_of(entries_view(msgs@)) =~= m0.remove(placeholder_title()));
            }
        } else {
            proof {
                if m0.dom().len() == 1 && m0.contains_key(placeholder_title()) {
                    assert(e0.len() == 1);
                    let w = choose|w: int| 0 <= w < e0.len() && e0[w].title == placeholder_title();
                    assert(e0[0].title == placeholder_title());
                }
            }
        }
        let ghost e1 = entries_view(msgs@);
        let ghost m1 = smap_of(e1);
        let done = Self::is_done_exec(&msg);
        let pos = Self::find_title(&msgs, msg.title());
        proof {
            lemma_title_index(e1, msg@.title);
            lemma_smap_lookup(e1, msg@.title);
        }
        if done {
            if let Some(i) = pos {
                proof {
                    lemma_sremove(e1, i as int);
                }
                let _ = msgs.remove(i);
                proof {
                    assert(entries_view(msgs@) =~= e1.remove(i as int));
                }
                self.active_messages = msgs;
                return ;
            }
            proof {
                assert(!m1.contains_key(msg@.title));
            }
        }
        match pos {
            Some(i) => {
                proof {
                    lemma_supdate(e1, i as int, msg@);
                }
                let slot = &mut msgs[i];
                *slot = msg;
                proof {
                    assert(entries_view(msgs@) =~= e1.update(i as int, msg@));
                }
            },
            None => {
                proof {
                    assert forall|j: int|
                        0 <= j < e1.len() implies (#[trigger] e1[j]).title != msg@.title by {}
                }
                msgs.push(msg);
                proof {
                    assert(entries_view(msgs@) =~= e1.push(msg@));
                    assert(entries_view(msgs@).drop_last() =~= e1);
                }
            },
        }
        self.active_messages = msgs;
    }

    /// Decodes a published payload and applies it; a malformed payload
    /// is reported and leaves the map untouched, so one bad message can
    /// never take the aggregator down.
    pub fn on_event(&mut self, data: &Vec<u8>) -> (r: Result<(), DecodeError>)
        ensures
            match spec_decode(data@) {
                Ok(d) => r is Ok && exists|ts: i64|
                    final (self)@ == spec_apply(
                        old(self)@,
                        EventView { title: d.0, kind: d.1, fields: dedup_fields(d.2), ts: ts },
                    ),
                Err(e) => r == Err::<(), DecodeError>(e) && final (self)@ == old(self)@,
            },
    {
        match EventBusMessage::from_bytes(slice_to_vec(data.as_slice())) {
            Ok(m) => {
                let ghost w = m@.ts;
                let ghost d = spec_decode(data@)->Ok_0;
                proof {
                    assert(m@ == EventView {
                        title: d.0,
                        kind: d.1,
                        fields: dedup_fields(d.2),
                        ts: w,
                    });
                }
                self.apply_event(m);
                proof {
                    assert(final (self)@ == spec_apply(
                        old(self)@,
                        EventView { title: d.0, kind: d.1, fields: dedup_fields(d.2), ts: w },
                    ));
                }
                Ok(())
            },
            Err(e) => Err(e),
        }
    }

    /// Sweeps the map at the given time, evicting stale non-socket
    /// entries and re-seating the placeholder when nothing remains: see
    /// [`spec_cleanup`].
    pub fn cleanup(&mut self, now: i64)
        ensures
            final (self)@ == spec_cleanup(old(self)@, now),
    {
        proof {
            use_type_invariant(&*self);
        }
        let mut src: Vec<EventBusMessage> = Vec::new();
        core::mem::swap(&mut src, &mut self.active_messages);
        let ghost orig = entries_view(src@);
        let mut out: Vec<EventBusMessage> = Vec::new();
        let ghost mut k: int = 0;
        proof {
            assert(entries_view(src@) =~= orig.skip(0));
            assert(entries_view(out@) =~= sfilter(orig.take(0), now));
        }
        while src.len() > 0
            invariant
                0 <= k <= orig.len(),
                entries_view(src@) =~= orig.skip(k),
                src@.len() == orig.len() - k,
                entries_view(out@) == sfilter(orig.take(k), now),
            decreases src@.len(),
        {
            let ghost prev = src@;
            let m = src.remove(0);
            proof {
                assert(entries_view(prev)[0] == orig.skip(k)[0]);
                assert(m@ == orig[k]);
                assert(orig.take(k + 1).drop_last() =~= orig.take(k));
                assert(orig.take(k + 1).last() == orig[k]);
                assert(src@ =~= prev.drop_first());
                assert forall|j: int|
                    0 <= j < src@.len() implies entries_view(src@)[j] == orig.skip(k + 1)[j] by {
                    assert(src@[j] == prev[j + 1]);
                    assert(entries_view(prev)[j + 1] == orig.skip(k)[j + 1]);
                }
            }
            let keep_it = str_eq(m.title(), placeholder_title_exec()) || *m.event_type()
                == EventType::Socket || (now as i128) - (m.ts() as i128) < (CLEANUP_INTERVAL
                as i128);
            assert(keep_it == keeps(m@, now));
            if keep_it {
                out.push(m);
                proof {
                    assert(entries_view(out@) =~= sfilter(orig.take(k + 1), now));
                }
            } else {
                proof {
                    assert(entries_view(out@) =~= sfilter(orig.take(k + 1), now));
                }
            }
            proof {
                k = k + 1;
                assert(entries_view(src@) =~~= orig.skip(k));
            }
        }
        proof {
            assert(orig.take(orig.len() as int) =~= orig);
            lemma_sfilter_map(orig, now);
        }
        if out.len() == 0 {
            proof {
                assert(entries_view(out@) =~= Seq::<EventView>::empty());
                assert(sfilter(orig, now).len() == 0);
                assert(smap_of(sfilter(orig, now)) =~= Map::<Seq<char>, EventView>::empty());
                assert(spec_cleanup(old(self)@, now).dom() =~= Set::<Seq<char>>::empty().insert(
                    placeholder_title(),
                )) by {
                    let kept = Map::<Seq<char>, EventView>::new(
                        |t: Seq<char>| old(self)@.contains_key(t) && keeps(old(self)@[t], now),
                        |t: Seq<char>| old(self)@[t],
                    );
                    assert(kept =~= smap_of(sfilter(orig, now)));
                    assert(kept.dom() =~= Set::<Seq<char>>::empty());
                }
            }
            let desc = placeholder_desc_exec();
            let fields_vec = vec![(EventFieldType::Description, desc)];
            proof {
                assert(crate::models::event_bus_message::pairs_view(fields_vec@) =~= seq![
                    (
                        EventFieldType::Description,
                        placeholder_desc_chars().map_values(|c: char| c as u8),
                    ),
                ]);
            }
            let ph = EventBusMessage::with_timestamp(
                placeholder_title_exec(),
                EventType::Process,
                Some(fields_vec),
                0,
            );
            proof {
                lemma_placeholder_fields(ph@.fields);
                assert(ph@ == placeholder_view());
            }
            out.push(ph);
            proof {
                assert(entries_view(out@) =~= Seq::<EventView>::empty().push(placeholder_view()));
                assert(smap_of(Seq::<EventView>::empty()) == Map::<Seq<char>, EventView>::empty());
                assert(entries_view(out@).drop_last() =~= Seq::<EventView>::empty());
                assert(smap_of(entries_view(out@)) =~= Map::empty().insert(
                    placeholder_title(),
                    placeholder_view(),
                ));
            }
        } else {
            proof {
                let kept = Map::<Seq<char>, EventView>::new(
                    |t: Seq<char>| old(self)@.contains_key(t) && keeps(old(self)@[t], now),
                    |t: Seq<char>| old(self)@[t],
                );
                assert(kept =~= smap_of(sfilter(orig, now)));
                let first = entries_view(out@)[0];
                assert(first == sfilter(orig, now)[0]);
                assert(kept.dom().contains(first.title)) by {
                    lemma_smap_lookup(sfilter(orig, now), first.title);
                }
                assert(kept.dom() != Set::<Seq<char>>::empty());
            }
        }
        self.active_messages = out;
    }

    /// A read-only view of the active messages, for rendering: every
    /// stored message is in the aggregator's map under its title, and
    /// every mapped title is stored.
    pub fn get_message_lock(&self) -> (r: &Vec<EventBusMessage>)
        ensures
            forall|i: int|
                0 <= i < r@.len() ==> self@.contains_key((#[trigger] r@[i])@.title)
                    && self@[r@[i]@.title] == r@[i]@,
            forall|t: Seq<char>|
                #[trigger] self@.contains_key(t) ==> exists|i: int|
                    0 <= i < r@.len() && r@[i]@.title == t,
    {
        proof {
            use_type_invariant(&*self);
            let es = entries_view(self.active_messages@);
            assert forall|i: int|
                0 <= i < self.active_messages@.len() implies self@.contains_key(
                (#[trigger] self.active_messages@[i])@.title,
            ) && self@[self.active_messages@[i]@.title] == self.active_messages@[i]@ by {
                lemma_smap_lookup(es, es[i].title);
            }
            assert forall|t: Seq<char>| #[trigger] self@.contains_key(t) implies exists|i: int|
                0 <= i < self.active_messages@.len() && self.active_messages@[i]@.title == t by {
                lemma_smap_lookup(es, t);
                if forall|i: int| 0 <= i < es.len() ==> (#[trigger] es[i]).title != t {
                    assert(!self@.contains_key(t));
                }
                let w = choose|w: int| 0 <= w < es.len() && (#[trigger] es[w]).title == t;
                assert(self.active_messages@[w]@.title == t);
            }
        }
        &self.active_messages
    }
}

impl Subscriber for CurrentStatusController {
    /// One delivery decodes the payload and applies it; a payload that
    /// does not decode leaves the map as it was.
    open spec fn handled(pre: Self, post: Self, payload: Seq<u8>) -> bool {
        match spec_decode(payload) {
            Ok(d) => exists|ts: i64|
                post@ == spec_apply(
                    pre@,
                    EventView { title: d.0, kind: d.1, fields: dedup_fields(d.2), ts: ts },
                ),
            Err(_) => post@ == pre@,
        }
    }

    fn handle(&mut self, payload: &Vec<u8>) {
        let _ = self.on_event(payload);
    }
}

/// The placeholder's description text as owned bytes.
fn placeholder_desc_exec() -> (r: Vec<u8>)
    ensures
        r@ == placeholder_desc_chars().map_values(|c: char| c as u8),
{
    proof {
        reveal_strlit("Nothing happening");
        assert(vstd::utf8::is_ascii_chars("Nothing happening"@));
        vstd::utf8::is_ascii_chars_encode_utf8("Nothing happening"@);
        assert("Nothing happening".spec_bytes() =~= placeholder_desc_chars().map_values(
            |c: char| c as u8,
        ));
    }
    vstd::string::StrSliceExecFns::as_bytes_vec("Nothing happening")
}

/// The dedup of the one-field placeholder list is that list itself.
proof fn lemma_placeholder_fields(fields: Seq<(EventFieldType, Seq<u8>)>)
    requires
        fields == dedup_fields(
            seq![
                (
                    EventFieldType::Description,
                    placeholder_desc_chars().map_values(|c: char| c as u8),
                ),
            ],
        ),
    ensures
        fields == placeholder_view().fields,
{
    let one = seq![
        (EventFieldType::Description, placeholder_desc_chars().map_values(|c: char| c as u8)),
    ];
    assert(one.drop_last() =~= Seq::<(EventFieldType, Seq<u8>)>::empty());
    assert(dedup_fields(Seq::<(EventFieldType, Seq<u8>)>::empty())
        == Seq::<(EventFieldType, Seq<u8>)>::empty());
    assert(crate::models::event_bus_message::key_index(
        Seq::<(EventFieldType, Seq<u8>)>::empty(),
        EventFieldType::Description,
    ) == -1);
    assert(dedup_fields(one) =~= one);
}

/// Time-to-live eviction: an entry that is neither socket-origin nor the
/// placeholder is present after a sweep exactly while its age is below
/// the TTL — with a TTL of 2 seconds, an entry stamped at `T` survives a
/// sweep at `T + 1` and is gone after one at `T + 3`.
pub proof fn lemma_ttl_eviction(m: Map<Seq<char>, EventView>, t: Seq<char>, now: i64)
    requires
        m.contains_key(t),
        m[t].kind != EventType::Socket,
        t != placeholder_title(),
        m[t].title == t,
    ensures
        now - m[t].ts < CLEANUP_INTERVAL as int ==> spec_cleanup(m, now).contains_key(t)
            && spec_cleanup(m, now)[t] == m[t],
        now - m[t].ts >= CLEANUP_INTERVAL as int ==> !spec_cleanup(m, now).contains_key(t),
{
    let kept = Map::<Seq<char>, EventView>::new(
        |x: Seq<char>| m.contains_key(x) && keeps(m[x], now),
        |x: Seq<char>| m[x],
    );
    if now - m[t].ts < CLEANUP_INTERVAL as int {
        assert(kept.contains_key(t));
        assert(kept.dom() != Set::<Seq<char>>::empty()) by {
            assert(kept.dom().contains(t));
        }
    } else {
        assert(!kept.contains_key(t));
        if kept.dom() == Set::<Seq<char>>::empty() {
        }
    }
}

/// Socket exemption, first half: a socket-origin entry survives every
/// sweep unchanged, however old it is.
pub proof fn lemma_socket_exemption(m: Map<Seq<char>, EventView>, t: Seq<char>, now: i64)
    requires
        m.contains_key(t),
        m[t].kind == EventType::Socket,
    ensures
        spec_cleanup(m, now).contains_key(t),
        spec_cleanup(m, now)[t] == m[t],
{
    let kept = Map::<Seq<char>, EventView>::new(
        |x: Seq<char>| m.contains_key(x) && keeps(m[x], now),
        |x: Seq<char>| m[x],
    );
    assert(kept.contains_key(t));
    assert(kept.dom() != Set::<Seq<char>>::empty()) by {
        assert(kept.dom().contains(t));
    }
}

/// Socket exemption, second half: a "done" signal removes its title at
/// once, regardless of any TTL.
pub proof fn lemma_done_removes(m: Map<Seq<char>, EventView>, msg: EventView)
    requires
        is_done_signal(msg),
        m.contains_key(msg.title),
        msg.title != placeholder_title(),
    ensures
        !spec_apply(m, msg).contains_key(msg.title),
{
}

/// Placeholder invariant, sweep half: after a sweep the map is never
/// empty, and the placeholder never stands beside another entry.
pub proof fn lemma_placeholder_after_cleanup(m: Map<Seq<char>, EventView>, now: i64)
    requires
        placeholder_alone(m),
    ensures
        placeholder_alone(spec_cleanup(m, now)),
        spec_cleanup(m, now).dom() != Set::<Seq<char>>::empty(),
{
    let kept = Map::<Seq<char>, EventView>::new(
        |x: Seq<char>| m.contains_key(x) && keeps(m[x], now),
        |x: Seq<char>| m[x],
    );
    if kept.dom() == Set::<Seq<char>>::empty() {
        assert(spec_cleanup(m, now).dom().contains(placeholder_title()));
    } else {
        assert(exists|x: Seq<char>| kept.dom().contains(x)) by {
            if !(exists|x: Seq<char>| kept.dom().contains(x)) {
                assert(kept.dom() =~= Set::<Seq<char>>::empty());
            }
        }
        let w = choose|x: Seq<char>| kept.dom().contains(x);
        assert(spec_cleanup(m, now).dom().contains(w));
    }
}

/// Placeholder invariant, delivery half: a delivered message whose title
/// is not the placeholder's keeps the placeholder out of company. (A
/// client that uses the placeholder's own title as its message title is
/// the one input left out.)
pub proof fn lemma_placeholder_after_apply(m: Map<Seq<char>, EventView>, msg: EventView)
    requires
        placeholder_alone(m),
        msg.title != placeholder_title(),
    ensures
        placeholder_alone(spec_apply(m, msg)),
{
    let m1 = if m.dom().len() == 1 && m.contains_key(placeholder_title()) {
        m.remove(placeholder_title())
    } else {
        m
    };
    if m.dom().len() == 1 && m.contains_key(placeholder_title()) {
        assert(!m1.contains_key(placeholder_title()));
    } else {
        if m.contains_key(placeholder_title()) {
            assert(m.dom().contains(placeholder_title()));
            if exists|t: Seq<char>| m.contains_key(t) && t != placeholder_title() {
                let t = choose|t: Seq<char>| m.contains_key(t) && t != placeholder_title();
                assert(t == placeholder_title());
            }
            assert(forall|t: Seq<char>| m.dom().contains(t) ==> t == placeholder_title());
            assert(m.dom() =~= Set::<Seq<char>>::empty().insert(placeholder_title()));
            assert(Set::<Seq<char>>::empty().insert(placeholder_title()).len() == 1);
            assert(m.dom().len() == 1);
        }
        assert(!m1.contains_key(placeholder_title()));
    }
    if is_done_signal(msg) && m1.contains_key(msg.title) {
        assert(!spec_apply(m, msg).contains_key(placeholder_title()));
    } else {
        assert(spec_apply(m, msg) == m1.insert(msg.title, msg));
        if spec_apply(m, msg).contains_key(placeholder_title()) {
            assert(m1.contains_key(placeholder_title()));
        }
    }
}

} // verus!
