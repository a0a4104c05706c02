//! The process watcher: matches a watch-list of name substrings against a
//! process snapshot and publishes one event per watched name found.
//!
//! Taking the snapshot itself is the system sampler's business, outside
//! the library; a tick works on the plain list of process names.

use vstd::prelude::*;
use vstd::string::{StrSliceExecFns, StringSliceAdditionalSpecFns};
use vstd::utf8::encode_utf8;

use crate::models::event_bus_field_type::EventFieldType;
use crate::models::event_bus_message::{
    lemma_dedup_singleton, pairs_view, spec_encode, EventBusMessage,
};
use crate::models::event_type::EventType;
use crate::services::event_bus::{
    handled_star, lemma_handled_star_push, EventBus, Subscriber,
};

verus! {

/// The topic the process watcher publishes on.
pub const EVENT_TOPIC: &'static str = "process_watcher";

/// The description text every process event carries.
pub open spec fn running_chars() -> Seq<char> {
    seq!['R', 'u', 'n', 'n', 'i', 'n', 'g']
}

/// The wire payload of one process event: the watched name as title and
/// a `Running` description.
pub open spec fn process_payload(title: Seq<char>) -> Seq<u8> {
    spec_encode(
        title,
        EventType::Process,
        seq![(EventFieldType::Description, running_chars().map_values(|c: char| c as u8))],
    )
}

/// Names a result of `str::to_lowercase`: the case folding of a string's
/// characters, a function of those characters alone.
pub uninterp spec fn lower_of(s: Seq<char>) -> Seq<char>;

/// Relies on str::to_lowercase: the folded string depends on the input
/// characters alone.
#[verifier::external_body]
fn lowercase(s: &str) -> (r: String)
    ensures
        r@ == lower_of(s@),
{
    s.to_lowercase()
}

/// Whether `needle` occurs contiguously inside `hay`.
pub open spec fn is_byte_substring(hay: Seq<u8>, needle: Seq<u8>) -> bool {
    exists|k: int|
        0 <= k <= hay.len() - needle.len() && (#[trigger] hay.subrange(k, k + needle.len()))
            == needle
}

/// Decides byte-level substring occurrence.
pub fn contains_bytes(hay: &[u8], needle: &[u8]) -> (r: bool)
    ensures
        r == is_byte_substring(hay@, needle@),
{
    let n = hay.len();
    let m = needle.len();
    if m > n {
        assert(!is_byte_substring(hay@, needle@));
        return false;
    }
    let mut k: usize = 0;
    while k <= n - m
        invariant
            m <= n,
            n == hay@.len(),
            m == needle@.len(),
            k <= n - m + 1,
            forall|x: int|
                0 <= x < k ==> (#[trigger] hay@.subrange(x, x + needle@.len())) != needle@,
        decreases n - k,
    {
        let mut j: usize = 0;
        let mut hit = true;
        while j < m
            invariant
                k + m <= n,
                n == hay@.len(),
                m == needle@.len(),
                j <= m,
                hit <==> forall|y: int| 0 <= y < j ==> hay@[k + y] == needle@[y],
            decreases m - j,
        {
            if hay[k + j] != needle[j] {
                hit = false;
                assert(hay@[k + j] != needle@[j as int]);
                j = m;
            } else {
                proof {
                    if hit {
                        assert forall|y: int| 0 <= y < j + 1 implies hay@[k + y]
                            == needle@[y] by {}
                    }
                }
                j = j + 1;
            }
        }
        if hit {
            assert(hay@.subrange(k as int, k + needle@.len()) =~= needle@);
            return true;
        }
        assert(hay@.subrange(k as int, k + needle@.len()) != needle@) by {
            if hay@.subrange(k as int, k + needle@.len()) == needle@ {
                let w = choose|y: int| 0 <= y < m && hay@[k + y] != needle@[y];
                assert(hay@.subrange(k as int, k + needle@.len())[w] == needle@[w]);
            }
        }
        k = k + 1;
    }
    proof {
        if is_byte_substring(hay@, needle@) {
            let w = choose|w: int|
                0 <= w <= hay@.len() - needle@.len() && (#[trigger] hay@.subrange(
                    w,
                    w + needle@.len(),
                )) == needle@;
            assert(hay@.subrange(w, w + needle@.len()) != needle@);
        }
    }
    false
}

/// The first watched name not yet matched this tick whose folded form
/// occurs in the folded process name, scanning from `i`; -1 when none.
pub open spec fn first_match_from(
    watch: Seq<Seq<u8>>,
    matched: Seq<bool>,
    p: Seq<u8>,
    i: int,
) -> int
    decreases watch.len() - i,
    when 0 <= i <= watch.len()
{
    if i >= watch.len() {
        -1
    } else if !matched[i] && is_byte_substring(p, watch[i]) {
        i
    } else {
        first_match_from(watch, matched, p, i + 1)
    }
}

proof fn lemma_first_match_from(watch: Seq<Seq<u8>>, matched: Seq<bool>, p: Seq<u8>, i: int)
    requires
        0 <= i <= watch.len(),
    ensures
        first_match_from(watch, matched, p, i) == -1 || i <= first_match_from(
            watch,
            matched,
            p,
            i,
        ) < watch.len(),
        first_match_from(watch, matched, p, i) >= 0 ==> !matched[first_match_from(
            watch,
            matched,
            p,
            i,
        )] && is_byte_substring(p, watch[first_match_from(watch, matched, p, i)]),
        forall|j: int|
            i <= j < first_match_from(watch, matched, p, i) ==> matched[j] || !is_byte_substring(
                p,
                watch[j],
            ),
        first_match_from(watch, matched, p, i) == -1 ==> forall|j: int|
            i <= j < watch.len() ==> matched[j] || !is_byte_substring(p, watch[j]),
    decreases watch.len() - i,
{
    if i < watch.len() && !(!matched[i] && is_byte_substring(p, watch[i])) {
        lemma_first_match_from(watch, matched, p, i + 1);
    }
}

/// The watched-name indices reported for a snapshot, one process at a
/// time: each process name matches the first watched name not yet
/// matched this tick whose folded form occurs in it.
pub open spec fn spec_watch_tick(
    watch: Seq<Seq<u8>>,
    procs: Seq<Seq<u8>>,
    matched: Seq<bool>,
) -> Seq<int>
    decreases procs.len(),
{
    if procs.len() == 0 {
        Seq::empty()
    } else {
        let m = first_match_from(watch, matched, procs[0], 0);
        if m >= 0 {
            seq![m] + spec_watch_tick(watch, procs.drop_first(), matched.update(m, true))
        } else {
            spec_watch_tick(watch, procs.drop_first(), matched)
        }
    }
}

/// The watched-name indices a tick reports for folded name lists.
pub open spec fn tick_indices(watch: Seq<Seq<char>>, procs: Seq<Seq<char>>) -> Seq<int> {
    spec_watch_tick(folded_views(watch), folded_views(procs), all_false(watch.len()))
}

/// What a tick hands back: one name per reported index, each a watched
/// name, in match order.
pub open spec fn tick_names_ok(
    watch: Seq<Seq<char>>,
    procs: Seq<Seq<char>>,
    names: Seq<Seq<char>>,
) -> bool {
    let idxs = tick_indices(watch, procs);
    &&& names.len() == idxs.len()
    &&& forall|i: int| 0 <= i < idxs.len() ==> #[trigger] names[i] == watch[idxs[i]]
}

/// A fresh tick's match-flags: nothing matched yet.
pub open spec fn all_false(n: nat) -> Seq<bool> {
    Seq::new(n, |i: int| false)
}

/// How many names have been matched.
pub open spec fn count_true(s: Seq<bool>) -> int
    decreases s.len(),
{
    if s.len() == 0 {
        0
    } else {
        count_true(s.drop_last()) + if s.last() {
            1int
        } else {
            0int
        }
    }
}

proof fn lemma_count_true_update(s: Seq<bool>, i: int)
    requires
        0 <= i < s.len(),
        !s[i],
    ensures
        count_true(s.update(i, true)) == count_true(s) + 1,
    decreases s.len(),
{
    let t = s.update(i, true);
    if i == s.len() - 1 {
        assert(t.drop_last() =~= s.drop_last());
    } else {
        assert(t.drop_last() =~= s.drop_last().update(i, true));
        assert(t.last() == s.last());
        lemma_count_true_update(s.drop_last(), i);
    }
}

proof fn lemma_count_true_bound(s: Seq<bool>)
    ensures
        0 <= count_true(s) <= s.len(),
        count_true(s) == s.len() ==> forall|j: int| 0 <= j < s.len() ==> s[j],
    decreases s.len(),
{
    if s.len() > 0 {
        lemma_count_true_bound(s.drop_last());
        if count_true(s) == s.len() {
            assert forall|j: int| 0 <= j < s.len() implies s[j] by {
                if j < s.len() - 1 {
                    assert(s.drop_last()[j]);
                }
            }
        }
    }
}

/// Once every watched name is matched, the rest of the snapshot reports
/// nothing.
proof fn lemma_all_matched(watch: Seq<Seq<u8>>, procs: Seq<Seq<u8>>, matched: Seq<bool>)
    requires
        matched.len() == watch.len(),
        forall|j: int| 0 <= j < matched.len() ==> matched[j],
    ensures
        spec_watch_tick(watch, procs, matched) == Seq::<int>::empty(),
    decreases procs.len(),
{
    if procs.len() > 0 {
        lemma_first_match_from(watch, matched, procs[0], 0);
        assert(first_match_from(watch, matched, procs[0], 0) == -1) by {
            if first_match_from(watch, matched, procs[0], 0) >= 0 {
                assert(!matched[first_match_from(watch, matched, procs[0], 0)]);
            }
        }
        lemma_all_matched(watch, procs.drop_first(), matched);
    }
}

/// The first not-yet-matched watched name whose folded form occurs in
/// the folded process name.
fn first_match_exec(watch: &Vec<Vec<u8>>, matched: &Vec<bool>, p: &[u8]) -> (r: Option<usize>)
    requires
        matched@.len() == watch@.len(),
    ensures
        match r {
            Some(i) => first_match_from(watch.deep_view(), matched@, p@, 0) == i as int,
            None => first_match_from(watch.deep_view(), matched@, p@, 0) == -1,
        },
{
    let ghost w = watch.deep_view();
    proof {
        lemma_first_match_from(w, matched@, p@, 0);
    }
    let n = watch.len();
    let mut i: usize = 0;
    while i < n
        invariant
            i <= n,
            n == w.len(),
            w == watch.deep_view(),
            matched@.len() == n,
            forall|j: int| 0 <= j < i ==> matched@[j] || !is_byte_substring(p@, w[j]),
        decreases n - i,
    {
        assert(watch@[i as int]@ == w[i as int]);
        if !matched[i] && contains_bytes(p, watch[i].as_slice()) {
            proof {
                lemma_first_match_from(w, matched@, p@, 0);
                let f = first_match_from(w, matched@, p@, 0);
                assert(f != -1);
                assert(f <= i);
                assert(f >= i);
            }
            return Some(i);
        }
        i += 1;
    }
    proof {
        lemma_first_match_from(w, matched@, p@, 0);
    }
    None
}

/// Reports the watched-name indices matched by a snapshot, in snapshot
/// order, at most one per watched name; the scan stops early once every
/// watched name has been found.
pub fn match_indices(watch: &Vec<Vec<u8>>, procs: &Vec<Vec<u8>>) -> (r: Vec<usize>)
    ensures
        ({
            let idxs = spec_watch_tick(
                watch.deep_view(),
                procs.deep_view(),
                all_false(watch.deep_view().len()),
            );
            &&& r@.len() == idxs.len()
            &&& forall|i: int| 0 <= i < r@.len() ==> (#[trigger] r@[i]) as int == idxs[i]
        }),
{
    let ghost w = watch.deep_view();
    let ghost ps = procs.deep_view();
    let watch_len = watch.len();
    let mut matched: Vec<bool> = Vec::new();
    let mut z: usize = 0;
    while z < watch_len
        invariant
            z <= watch_len,
            matched@.len() == z,
            forall|j: int| 0 <= j < z ==> !matched@[j],
        decreases watch_len - z,
    {
        matched.push(false);
        z += 1;
    }
    assert(matched@ =~= all_false(w.len()));
    let mut out: Vec<usize> = Vec::new();
    let mut found: usize = 0;
    let n = procs.len();
    let mut i: usize = 0;
    proof {
        lemma_count_true_bound(matched@);
        assert(count_true(Seq::<bool>::empty()) == 0);
        assert(matched@.take(0) =~= Seq::<bool>::empty());
        assert(count_true(matched@) == 0) by {
            lemma_count_all_false(matched@);
        }
    }
    proof {
        assert(ps.skip(0) =~~= ps);
        assert(out@.map_values(|u: usize| u as int) =~= Seq::<int>::empty());
        assert(out@.map_values(|u: usize| u as int) + spec_watch_tick(w, ps.skip(0), matched@)
            =~= spec_watch_tick(w, ps, all_false(w.len())));
    }
    while i < n && found < watch_len
        invariant
            i <= n,
            n == ps.len(),
            w == watch.deep_view(),
            ps == procs.deep_view(),
            watch_len == w.len(),
            matched@.len() == watch_len,
            found == count_true(matched@),
            found <= watch_len,
            out@.map_values(|u: usize| u as int) + spec_watch_tick(w, ps.skip(i as int), matched@)
                =~= spec_watch_tick(w, ps, all_false(w.len())),
            forall|j: int| 0 <= j < out@.len() ==> (#[trigger] out@[j]) < watch_len,
        decreases n - i,
    {
        assert(procs@[i as int]@ == ps[i as int]);
        let ghost pre_matched = matched@;
        proof {
            assert(ps.skip(i as int)[0] == ps[i as int]);
            assert(ps.skip(i as int).drop_first() =~~= ps.skip(i + 1));
        }
        match first_match_exec(watch, &matched, procs[i].as_slice()) {
            Some(m) => {
                proof {
                    lemma_first_match_from(w, matched@, ps[i as int], 0);
                    lemma_count_true_update(matched@, m as int);
                }
                out.push(m);
                let slot = &mut matched[m];
                *slot = true;
                found += 1;
                proof {
                    assert(matched@ =~= pre_matched.update(m as int, true));
                    assert(out@.map_values(|u: usize| u as int) =~= out@.drop_last().map_values(
                        |u: usize| u as int,
                    ).push(m as int));
                    assert(spec_watch_tick(w, ps.skip(i as int), pre_matched) == seq![m as int]
                        + spec_watch_tick(w, ps.skip(i + 1), matched@));
                    assert(out@.map_values(|u: usize| u as int) + spec_watch_tick(
                        w,
                        ps.skip(i + 1),
                        matched@,
                    ) =~= spec_watch_tick(w, ps, all_false(w.len())));
                    lemma_count_true_bound(matched@);
                }
            },
            None => {
                proof {
                    assert(spec_watch_tick(w, ps.skip(i as int), matched@) == spec_watch_tick(
                        w,
                        ps.skip(i + 1),
                        matched@,
                    ));
                }
            },
        }
        i += 1;
    }
    proof {
        if i < n {
            lemma_count_true_bound(matched@);
            lemma_all_matched(w, ps.skip(i as int), matched@);
        } else {
            assert(ps.skip(i as int) =~~= Seq::<Seq<u8>>::empty());
        }
        assert(spec_watch_tick(w, ps.skip(i as int), matched@) == Seq::<int>::empty());
        assert(out@.map_values(|u: usize| u as int) =~= out@.map_values(|u: usize| u as int)
            + Seq::<int>::empty());
        let idxs = spec_watch_tick(w, ps, all_false(w.len()));
        assert(out@.map_values(|u: usize| u as int) == idxs);
        assert(out@.len() == idxs.len());
        assert forall|x: int| 0 <= x < out@.len() implies (#[trigger] out@[x]) as int
            == idxs[x] by {
            assert(out@.map_values(|u: usize| u as int)[x] == idxs[x]);
        }
    }
    out
}

proof fn lemma_count_all_false(s: Seq<bool>)
    requires
        forall|j: int| 0 <= j < s.len() ==> !s[j],
    ensures
        count_true(s) == 0,
    decreases s.len(),
{
    if s.len() > 0 {
        assert forall|j: int| 0 <= j < s.drop_last().len() implies !s.drop_last()[j] by {
            assert(s.drop_last()[j] == s[j]);
        }
        lemma_count_all_false(s.drop_last());
    }
}

/// The folded byte forms of a list of names.
pub open spec fn folded_views(s: Seq<Seq<char>>) -> Seq<Seq<u8>> {
    s.map_values(|w: Seq<char>| encode_utf8(lower_of(w)))
}

/// The watcher's own state: the watch-list of process-name substrings
/// supplied at startup. The periodic task and the system sampler that
/// feed it live outside the library.
pub struct ProcessWatcher {
    to_watch: Vec<String>,
}

impl ProcessWatcher {
    /// The watch-list, by characters.
    pub closed spec fn watch_view(self) -> Seq<Seq<char>> {
        self.to_watch.deep_view()
    }

    pub fn new(processes_to_watch: Vec<String>) -> (r: Self)
        ensures
            r.watch_view() == processes_to_watch.deep_view(),
    {
        ProcessWatcher { to_watch: processes_to_watch }
    }

    /// One tick's matches: the watched names found, case-insensitively,
    /// as substrings of the snapshot's process names — in snapshot
    /// order, at most once each.
    pub fn watch_tick(&self, process_names: &Vec<String>) -> (r: Vec<String>)
        ensures
            tick_names_ok(self.watch_view(), process_names.deep_view(), r.deep_view()),
    {
        let ghost wf = folded_views(self.watch_view());
        let ghost pf = folded_views(process_names.deep_view());
        let mut watch_bytes: Vec<Vec<u8>> = Vec::new();
        let wn = self.to_watch.len();
        let mut i: usize = 0;
        while i < wn
            invariant
                i <= wn,
                wn == self.to_watch@.len(),
                wf == folded_views(self.watch_view()),
                wf.len() == wn,
                watch_bytes@.len() == i,
                watch_bytes.deep_view() =~~= wf.take(i as int),
            decreases wn - i,
        {
            let folded = lowercase(self.to_watch[i].as_str());
            let fb = folded.as_str().as_bytes_vec();
            proof {
                assert(fb@ == encode_utf8(lower_of(self.to_watch@[i as int]@)));
                assert(self.watch_view()[i as int] == self.to_watch@[i as int]@);
                assert(wf[i as int] == encode_utf8(lower_of(self.watch_view()[i as int])));
                assert(fb.deep_view() =~= fb@);
            }
            let ghost prev = watch_bytes@;
            let ghost prev_dv = watch_bytes.deep_view();
            watch_bytes.push(fb);
            proof {
                assert(watch_bytes@ == prev.push(fb));
                assert forall|y: int|
                    0 <= y < i + 1 implies #[trigger] watch_bytes.deep_view()[y] == wf.take(
                    i + 1,
                )[y] by {
                    if y < i {
                        assert(watch_bytes@[y] == prev[y]);
                        assert(watch_bytes.deep_view()[y] == prev[y].deep_view());
                        assert(prev_dv[y] == prev[y].deep_view());
                        assert(prev_dv[y] == wf.take(i as int)[y]);
                    } else {
                        assert(watch_bytes@[y] == fb);
                        assert(watch_bytes.deep_view()[y] == fb.deep_view());
                        assert(fb.deep_view() =~= fb@);
                    }
                }
                assert(watch_bytes.deep_view() =~~= wf.take(i + 1));
            }
            i += 1;
        }
        assert(wf.take(wn as int) =~= wf);
        let mut proc_bytes: Vec<Vec<u8>> = Vec::new();
        let pn = process_names.len();
        let mut j: usize = 0;
        while j < pn
            invariant
                j <= pn,
                pn == process_names@.len(),
                pf == folded_views(process_names.deep_view()),
                pf.len() == pn,
                proc_bytes@.len() == j,
                proc_bytes.deep_view() =~~= pf.take(j as int),
            decreases pn - j,
        {
            let folded = lowercase(process_names[j].as_str());
            let fb = folded.as_str().as_bytes_vec();
            proof {
                assert(fb@ == encode_utf8(lower_of(process_names@[j as int]@)));
                assert(process_names.deep_view()[j as int] == process_names@[j as int]@);
                assert(pf[j as int] == encode_utf8(lower_of(process_names.deep_view()[j as int])));
                assert(fb.deep_view() =~= fb@);
            }
            let ghost prev = proc_bytes@;
            let ghost prev_dv = proc_bytes.deep_view();
            proc_bytes.push(fb);
            proof {
                assert(proc_bytes@ == prev.push(fb));
                assert forall|y: int|
                    0 <= y < j + 1 implies #[trigger] proc_bytes.deep_view()[y] == pf.take(
                    j + 1,
                )[y] by {
                    if y < j {
                        assert(proc_bytes@[y] == prev[y]);
                        assert(proc_bytes.deep_view()[y] == prev[y].deep_view());
                        assert(prev_dv[y] == prev[y].deep_view());
                        assert(prev_dv[y] == pf.take(j as int)[y]);
                    } else {
                        assert(proc_bytes@[y] == fb);
                        assert(proc_bytes.deep_view()[y] == fb.deep_view());
                        assert(fb.deep_view() =~= fb@);
                    }
                }
                assert(proc_bytes.deep_view() =~~= pf.take(j + 1));
            }
            j += 1;
        }
        assert(pf.take(pn as int) =~= pf);
        let idxs = match_indices(&watch_bytes, &proc_bytes);
        let ghost gidxs = tick_indices(self.watch_view(), process_names.deep_view());
        let ghost ov = Seq::new(gidxs.len() as nat, |x: int| self.watch_view()[gidxs[x]]);
        proof {
            assert(watch_bytes.deep_view() == wf);
            assert(proc_bytes.deep_view() == pf);
            assert(wf.len() == self.watch_view().len());
            assert(all_false(wf.len()) == all_false(self.watch_view().len()));
            assert(idxs@.len() == gidxs.len());
            assert forall|x: int| 0 <= x < idxs@.len() implies (#[trigger] idxs@[x]) as int
                == gidxs[x] by {}
        }
        let mut out: Vec<String> = Vec::new();
        let m = idxs.len();
        let mut k: usize = 0;
        while k < m
            invariant
                k <= m,
                m == gidxs.len(),
                idxs@.len() == gidxs.len(),
                forall|x: int| 0 <= x < idxs@.len() ==> (#[trigger] idxs@[x]) as int == gidxs[x],
                gidxs == tick_indices(self.watch_view(), process_names.deep_view()),
                wn == self.to_watch@.len(),
                wf == folded_views(self.watch_view()),
                wf.len() == wn,
                self.to_watch.deep_view() == self.watch_view(),
                out@.len() == k,
                ov == Seq::new(gidxs.len() as nat, |x: int| self.watch_view()[gidxs[x]]),
                ov.len() == m,
                out.deep_view() == ov.take(k as int),
            decreases m - k,
        {
            let idx = idxs[k];
            assert(idx as int == gidxs[k as int]);
            proof {
                lemma_tick_indices_bound(
                    folded_views(self.watch_view()),
                    folded_views(process_names.deep_view()),
                    all_false(folded_views(self.watch_view()).len()),
                    k as int,
                );
                assert(all_false(folded_views(self.watch_view()).len()) == all_false(
                    self.watch_view().len(),
                ));
                assert(0 <= gidxs[k as int] < self.watch_view().len());
            }
            let ghost old_out = out@;
            let ghost old_dv = out.deep_view();
            out.push(self.to_watch[idx].clone());
            proof {
                assert(out@ == old_out.push(self.to_watch@[idx as int]));
                assert(out@[k as int] == self.to_watch@[idx as int]);
                assert(self.watch_view()[idx as int] == self.to_watch@[idx as int]@);
                assert forall|y: int|
                    0 <= y < k + 1 implies #[trigger] out.deep_view()[y] == ov.take(k + 1)[y] by {
                    if y < k {
                        assert(out@[y] == old_out[y]);
                        assert(out.deep_view()[y] == old_out[y].deep_view());
                        assert(old_dv[y] == old_out[y].deep_view());
                        assert(old_dv[y] == ov.take(k as int)[y]);
                    } else {
                        assert(out.deep_view()[y] == out@[k as int].deep_view());
                        assert(out@[k as int]@ == self.watch_view()[gidxs[k as int]]);
                    }
                }
                assert(out.deep_view() =~= ov.take(k + 1));
            }
            k += 1;
        }
        proof {
            assert(out.deep_view() == ov.take(m as int));
            assert(ov.take(m as int) =~= ov);
            assert forall|i: int|
                0 <= i < gidxs.len() implies 0 <= gidxs[i] < self.watch_view().len() && (
            #[trigger] out.deep_view()[i]) == self.watch_view()[gidxs[i]] by {
                lemma_tick_indices_bound(
                    folded_views(self.watch_view()),
                    folded_views(process_names.deep_view()),
                    all_false(folded_views(self.watch_view()).len()),
                    i,
                );
                assert(out.deep_view()[i] == ov[i]);
            }
            assert(tick_names_ok(self.watch_view(), process_names.deep_view(), out.deep_view()));
        }
        out
    }

    /// One full tick against a snapshot: publishes one process event per
    /// watched name found, in match order; every subscriber of the topic
    /// handles exactly that chain of payloads.
    pub fn watch_processes<S: Subscriber>(
        &self,
        event_bus: &mut EventBus<S>,
        process_names: &Vec<String>,
    )
        ensures
            ({
                let idxs = tick_indices(self.watch_view(), process_names.deep_view());
                let payloads = Seq::new(
                    idxs.len(),
                    |i: int| process_payload(self.watch_view()[idxs[i]]),
                );
                let pre = old(event_bus).subs_of(EVENT_TOPIC@);
                let post = final (event_bus).subs_of(EVENT_TOPIC@);
                &&& post.len() == pre.len()
                &&& forall|s: int|
                    0 <= s < pre.len() ==> (#[trigger] post[s]).0 == pre[s].0 && handled_star(
                        pre[s].1,
                        post[s].1,
                        payloads,
                    )
            }),
            forall|t: Seq<char>|
                t != EVENT_TOPIC@ ==> #[trigger] final (event_bus).subs_of(t) == old(
                    event_bus,
                ).subs_of(t),
    {
        let names = self.watch_tick(process_names);
        let ghost idxs = tick_indices(self.watch_view(), process_names.deep_view());
        let ghost payloads = Seq::new(
            idxs.len(),
            |i: int| process_payload(self.watch_view()[idxs[i]]),
        );
        let ghost nv = Seq::new(idxs.len(), |x: int| self.watch_view()[idxs[x]]);
        proof {
            assert(tick_names_ok(self.watch_view(), process_names.deep_view(), names.deep_view()));
            assert(names.deep_view() =~~= nv);
        }
        let ghost pre = old(event_bus).subs_of(EVENT_TOPIC@);
        let n = names.len();
        let mut i: usize = 0;
        proof {
            assert forall|s: int|
                0 <= s < pre.len() implies handled_star(
                pre[s].1,
                pre[s].1,
                payloads.take(0),
            ) by {
                assert(payloads.take(0) =~~= Seq::<Seq<u8>>::empty());
            }
        }
        while i < n
            invariant
                i <= n,
                n == names@.len(),
                n == idxs.len(),
                payloads == Seq::new(
                    idxs.len(),
                    |x: int| process_payload(self.watch_view()[idxs[x]]),
                ),
                nv == Seq::new(idxs.len(), |x: int| self.watch_view()[idxs[x]]),
                names.deep_view() == nv,
                pre == old(event_bus).subs_of(EVENT_TOPIC@),
                event_bus.subs_of(EVENT_TOPIC@).len() == pre.len(),
                forall|s: int|
                    0 <= s < pre.len() ==> (#[trigger] event_bus.subs_of(EVENT_TOPIC@)[s]).0
                        == pre[s].0 && handled_star(
                        pre[s].1,
                        event_bus.subs_of(EVENT_TOPIC@)[s].1,
                        payloads.take(i as int),
                    ),
                forall|t: Seq<char>|
                    t != EVENT_TOPIC@ ==> #[trigger] event_bus.subs_of(t) == old(
                        event_bus,
                    ).subs_of(t),
            decreases n - i,
        {
            let payload = process_event_payload(names[i].as_str());
            proof {
                assert(names@[i as int]@ == names.deep_view()[i as int]);
                assert(names.deep_view()[i as int] == nv[i as int]);
                assert(nv[i as int] == self.watch_view()[idxs[i as int]]);
            }
            assert(payload@ == payloads[i as int]);
            let ghost mid = event_bus.subs_of(EVENT_TOPIC@);
            event_bus.publish(EVENT_TOPIC, &payload);
            proof {
                assert forall|s: int|
                    0 <= s < pre.len() implies (#[trigger] event_bus.subs_of(
                    EVENT_TOPIC@,
                )[s]).0 == pre[s].0 && handled_star(
                    pre[s].1,
                    event_bus.subs_of(EVENT_TOPIC@)[s].1,
                    payloads.take(i + 1),
                ) by {
                    assert(payloads.take(i + 1).drop_last() =~~= payloads.take(i as int));
                    assert(payloads.take(i + 1) =~~= payloads.take(i as int).push(
                        payloads[i as int],
                    ));
                    lemma_handled_star_push(
                        pre[s].1,
                        mid[s].1,
                        event_bus.subs_of(EVENT_TOPIC@)[s].1,
                        payloads.take(i as int),
                        payloads[i as int],
                    );
                }
            }
            i += 1;
        }
        assert(payloads.take(n as int) =~~= payloads);
    }
}

/// Every reported index points into the watch list.
pub proof fn lemma_tick_indices_bound(
    watch: Seq<Seq<u8>>,
    procs: Seq<Seq<u8>>,
    matched: Seq<bool>,
    k: int,
)
    requires
        matched.len() == watch.len(),
        0 <= k < spec_watch_tick(watch, procs, matched).len(),
    ensures
        0 <= spec_watch_tick(watch, procs, matched)[k] < watch.len(),
    decreases procs.len(),
{
    if procs.len() > 0 {
        let m = first_match_from(watch, matched, procs[0], 0);
        lemma_first_match_from(watch, matched, procs[0], 0);
        if m >= 0 {
            if k > 0 {
                lemma_tick_indices_bound(watch, procs.drop_first(), matched.update(m, true), k - 1);
            }
        } else {
            lemma_tick_indices_bound(watch, procs.drop_first(), matched, k);
        }
    }
}

/// Builds the wire payload of one process event for a watched name.
pub fn process_event_payload(name: &str) -> (r: Vec<u8>)
    ensures
        r@ == process_payload(name@),
{
    let desc = running_desc_exec();
    proof {
        lemma_dedup_singleton(
            EventFieldType::Description,
            running_chars().map_values(|c: char| c as u8),
        );
    }
    let fields = vec![(EventFieldType::Description, desc)];
    assert(pairs_view(fields@) =~= seq![
        (EventFieldType::Description, running_chars().map_values(|c: char| c as u8)),
    ]);
    let msg = EventBusMessage::new(name, EventType::Process, Some(fields));
    msg.format_bytes()
}

/// The `Running` description as owned bytes.
fn running_desc_exec() -> (r: Vec<u8>)
    ensures
        r@ == running_chars().map_values(|c: char| c as u8),
{
    proof {
        reveal_strlit("Running");
        assert(vstd::utf8::is_ascii_chars("Running"@));
        vstd::utf8::is_ascii_chars_encode_utf8("Running"@);
        assert("Running".spec_bytes() =~= running_chars().map_values(|c: char| c as u8));
    }
    vstd::string::StrSliceExecFns::as_bytes_vec("Running")
}

} // verus!
