//! The in-process topic-keyed publish/subscribe registry.

use vstd::prelude::*;

verus! {

/// A subscriber registered on the bus. The design replaces stored
/// closures with this one-method interface, with one concrete variant per
/// consumer, so each consumer states in `handled` what one delivery does
/// to its state.
pub trait Subscriber: Sized {
    /// The relation one delivery establishes between the subscriber's
    /// state before and after handling a payload. By default nothing is
    /// assumed of a delivery; a consumer overrides this with what its
    /// own `handle` does.
    open spec fn handled(pre: Self, post: Self, payload: Seq<u8>) -> bool {
        true
    }

    /// Handles one published payload. Callbacks must be short and
    /// non-blocking, and must not publish back into the bus that invoked
    /// them.
    fn handle(&mut self, payload: &Vec<u8>)
        ensures
            Self::handled(*old(self), *final (self), payload@),
    ;
}

/// A subscriber stepped once by each payload of a sequence, in order.
pub open spec fn handled_star<S: Subscriber>(pre: S, post: S, payloads: Seq<Seq<u8>>) -> bool
    decreases payloads.len(),
{
    if payloads.len() == 0 {
        post == pre
    } else {
        exists|mid: S|
            #[trigger] S::handled(pre, mid, payloads[0]) && handled_star(
                mid,
                post,
                payloads.drop_first(),
            )
    }
}

/// One more delivery extends a delivery chain.
pub proof fn lemma_handled_star_push<S: Subscriber>(
    pre: S,
    mid: S,
    post: S,
    payloads: Seq<Seq<u8>>,
    p: Seq<u8>,
)
    requires
        handled_star(pre, mid, payloads),
        S::handled(mid, post, p),
    ensures
        handled_star(pre, post, payloads.push(p)),
    decreases payloads.len(),
{
    if payloads.len() == 0 {
        assert(payloads.push(p)[0] == p);
        assert(payloads.push(p).drop_first() =~~= Seq::<Seq<u8>>::empty());
        assert(handled_star(post, post, payloads.push(p).drop_first()));
        assert(S::handled(pre, post, payloads.push(p)[0]) && handled_star(
            post,
            post,
            payloads.push(p).drop_first(),
        ));
    } else {
        let m1 = choose|m1: S|
            #[trigger] S::handled(pre, m1, payloads[0]) && handled_star(
                m1,
                mid,
                payloads.drop_first(),
            );
        lemma_handled_star_push(m1, mid, post, payloads.drop_first(), p);
        assert(payloads.push(p)[0] == payloads[0]);
        assert(payloads.push(p).drop_first() =~~= payloads.drop_first().push(p));
        assert(S::handled(pre, m1, payloads.push(p)[0]) && handled_star(
            m1,
            post,
            payloads.push(p).drop_first(),
        ));
    }
}

struct Topic<S> {
    name: String,
    subs: Vec<(i32, S)>,
}

/// The event bus: producers publish byte payloads to named topics, and
/// every subscriber registered on a topic handles each payload published
/// there, in subscription order.
pub struct EventBus<S: Subscriber> {
    topics: Vec<Topic<S>>,
}

/// The first topic with the given name, or -1.
spec fn find_topic<S>(ts: Seq<Topic<S>>, name: Seq<char>) -> int
    decreases ts.len(),
{
    if ts.len() == 0 {
        -1
    } else if ts[0].name@ == name {
        0
    } else {
        let r = find_topic(ts.drop_first(), name);
        if r < 0 {
            -1
        } else {
            r + 1
        }
    }
}

proof fn lemma_find_topic<S>(ts: Seq<Topic<S>>, name: Seq<char>)
    ensures
        -1 <= find_topic(ts, name) < ts.len(),
        find_topic(ts, name) >= 0 ==> ts[find_topic(ts, name)].name@ == name,
        forall|j: int| 0 <= j < find_topic(ts, name) ==> (#[trigger] ts[j]).name@ != name,
        find_topic(ts, name) < 0 ==> forall|j: int|
            0 <= j < ts.len() ==> (#[trigger] ts[j]).name@ != name,
    decreases ts.len(),
{
    if ts.len() == 0 {
    } else if ts[0].name@ == name {
    } else {
        lemma_find_topic(ts.drop_first(), name);
        assert forall|j: int| 1 <= j < ts.len() implies ts[j] == ts.drop_first()[j - 1] by {}
    }
}

/// Finding a topic looks at names alone.
proof fn lemma_find_topic_same_names<S>(ts1: Seq<Topic<S>>, ts2: Seq<Topic<S>>, name: Seq<char>)
    requires
        ts1.len() == ts2.len(),
        forall|j: int| 0 <= j < ts1.len() ==> (#[trigger] ts1[j]).name@ == (#[trigger] ts2[j]).name@,
    ensures
        find_topic(ts1, name) == find_topic(ts2, name),
    decreases ts1.len(),
{
    if ts1.len() > 0 && ts1[0].name@ != name {
        assert forall|j: int|
            0 <= j < ts1.drop_first().len() implies (#[trigger] ts1.drop_first()[j]).name@ == (
        #[trigger] ts2.drop_first()[j]).name@ by {
            assert(ts1.drop_first()[j] == ts1[j + 1]);
            assert(ts2.drop_first()[j] == ts2[j + 1]);
        }
        lemma_find_topic_same_names(ts1.drop_first(), ts2.drop_first(), name);
    }
}

/// The id just assigned is the lowest non-negative integer that was not
/// in use for the topic; ids vacated by unsubscribe are reused.
pub open spec fn is_lowest_free_id(ids: Seq<i32>, id: i32) -> bool {
    &&& id >= 0
    &&& !ids.contains(id)
    &&& forall|j: i32| 0 <= j < id ==> ids.contains(j)
}

/// The first subscription with the given id, or -1.
pub open spec fn id_index<S>(subs: Seq<(i32, S)>, id: i32) -> int
    decreases subs.len(),
{
    if subs.len() == 0 {
        -1
    } else if subs[0].0 == id {
        0
    } else {
        let r = id_index(subs.drop_first(), id);
        if r < 0 {
            -1
        } else {
            r + 1
        }
    }
}

pub proof fn lemma_id_index<S>(subs: Seq<(i32, S)>, id: i32)
    ensures
        -1 <= id_index(subs, id) < subs.len(),
        id_index(subs, id) >= 0 ==> subs[id_index(subs, id)].0 == id,
        forall|j: int| 0 <= j < id_index(subs, id) ==> (#[trigger] subs[j]).0 != id,
        id_index(subs, id) < 0 ==> forall|j: int|
            0 <= j < subs.len() ==> (#[trigger] subs[j]).0 != id,
    decreases subs.len(),
{
    if subs.len() == 0 {
    } else if subs[0].0 == id {
    } else {
        lemma_id_index(subs.drop_first(), id);
        assert forall|j: int| 1 <= j < subs.len() implies subs[j] == subs.drop_first()[j
            - 1] by {}
    }
}

/// If every integer below `c` occurs in `ids`, then `ids` has at least
/// `c` entries.
proof fn lemma_used_ids_bound(ids: Seq<i32>, c: i32)
    requires
        c >= 0,
        forall|j: i32| 0 <= j < c ==> ids.contains(j),
    ensures
        c <= ids.len(),
    decreases c,
{
    if c > 0 {
        assert(ids.contains((c - 1) as i32));
        let p = choose|p: int| 0 <= p < ids.len() && ids[p] == c - 1;
        let rest = ids.remove(p);
        assert forall|j: i32| 0 <= j < c - 1 implies rest.contains(j) by {
            assert(ids.contains(j));
            let q = choose|q: int| 0 <= q < ids.len() && ids[q] == j;
            assert(q != p);
            if q < p {
                assert(rest[q] == ids[q]);
                assert(rest.contains(j));
            } else {
                assert(rest[q - 1] == ids[q]);
                assert(rest.contains(j));
            }
        }
        lemma_used_ids_bound(rest, (c - 1) as i32);
    }
}

impl<S: Subscriber> EventBus<S> {
    /// No two topics share a name.
    #[verifier::type_invariant]
    spec fn wf(self) -> bool {
        forall|i: int, j: int|
            0 <= i < j < self.topics@.len() ==> (#[trigger] self.topics@[i]).name@ != (
            #[trigger] self.topics@[j]).name@
    }

    /// The subscriptions of a topic, in subscription order; a topic
    /// nobody ever subscribed to has none.
    pub closed spec fn subs_of(self, topic: Seq<char>) -> Seq<(i32, S)> {
        let i = find_topic(self.topics@, topic);
        if i >= 0 {
            self.topics@[i].subs@
        } else {
            Seq::empty()
        }
    }

    /// The ids in use for a topic.
    pub open spec fn ids_of(self, topic: Seq<char>) -> Seq<i32> {
        self.subs_of(topic).map_values(|p: (i32, S)| p.0)
    }

    /// A bus with no subscriptions at all.
    pub fn new() -> (r: Self)
        ensures
            forall|t: Seq<char>| #[trigger] r.subs_of(t) == Seq::<(i32, S)>::empty(),
    {
        let r = EventBus { topics: Vec::new() };
        proof {
            assert forall|t: Seq<char>| #[trigger] r.subs_of(t) == Seq::<(i32, S)>::empty() by {
                lemma_find_topic(r.topics@, t);
            }
        }
        r
    }

    /// The position of the topic in the registry, if present.
    fn find_topic_exec(&self, event_type: &str) -> (r: Option<usize>)
        ensures
            match r {
                Some(i) => find_topic(self.topics@, event_type@) == i as int,
                None => find_topic(self.topics@, event_type@) == -1,
            },
    {
        proof {
            lemma_find_topic(self.topics@, event_type@);
        }
        let n = self.topics.len();
        let mut i: usize = 0;
        while i < n
            invariant
                i <= n,
                n == self.topics@.len(),
                forall|j: int| 0 <= j < i ==> (#[trigger] self.topics@[j]).name@ != event_type@,
            decreases n - i,
        {
            if crate::utils::strings::str_eq(self.topics[i].name.as_str(), event_type) {
                proof {
                    lemma_find_topic(self.topics@, event_type@);
                }
                return Some(i);
            }
            i += 1;
        }
        proof {
            lemma_find_topic(self.topics@, event_type@);
        }
        None
    }

    /// The lowest non-negative id not in use among the subscriptions.
    fn get_free_id(subs: &Vec<(i32, S)>) -> (r: i32)
        requires
            subs@.len() < 0x7fff_ffff,
        ensures
            is_lowest_free_id(subs@.map_values(|p: (i32, S)| p.0), r),
    {
        let ghost ids = subs@.map_values(|p: (i32, S)| p.0);
        let n = subs.len();
        let mut candidate: i32 = 0;
        loop
            invariant
                0 <= candidate,
                n == subs@.len(),
                n < 0x7fff_ffff,
                ids == subs@.map_values(|p: (i32, S)| p.0),
                forall|j: i32| 0 <= j < candidate ==> ids.contains(j),
                candidate <= n,
            decreases n - candidate,
        {
            let mut found = false;
            let mut i: usize = 0;
            while i < n
                invariant
                    i <= n,
                    n == subs@.len(),
                    ids == subs@.map_values(|p: (i32, S)| p.0),
                    found <==> exists|j: int| 0 <= j < i && ids[j] == candidate,
                decreases n - i,
            {
                if subs[i].0 == candidate {
                    assert(ids[i as int] == candidate);
                    found = true;
                }
                i += 1;
            }
            if !found {
                proof {
                    if ids.contains(candidate) {
                        let w = choose|w: int| 0 <= w < ids.len() && ids[w] == candidate;
                    }
                }
                return candidate;
            }
            proof {
                assert(ids.contains(candidate));
                lemma_used_ids_bound(ids, (candidate + 1) as i32);
            }
            candidate = candidate + 1;
        }
    }

    /// The position of the first subscription with the given id.
    fn find_id(subs: &Vec<(i32, S)>, id: i32) -> (r: Option<usize>)
        ensures
            match r {
                Some(p) => id_index(subs@, id) == p as int,
                None => id_index(subs@, id) < 0,
            },
    {
        proof {
            lemma_id_index(subs@, id);
        }
        let n = subs.len();
        let mut i: usize = 0;
        while i < n
            invariant
                i <= n,
                n == subs@.len(),
                forall|j: int| 0 <= j < i ==> (#[trigger] subs@[j]).0 != id,
            decreases n - i,
        {
            if subs[i].0 == id {
                proof {
                    lemma_id_index(subs@, id);
                }
                return Some(i);
            }
            i += 1;
        }
        proof {
            lemma_id_index(subs@, id);
        }
        None
    }

    /// Registers a callback on a topic and assigns it the lowest free id
    /// for that topic; the new subscription is invoked last on a publish.
    pub fn subscribe(&mut self, event_type: &str, callback: S) -> (id: i32)
        requires
            old(self).subs_of(event_type@).len() < 0x7fff_ffff,
        ensures
            is_lowest_free_id(old(self).ids_of(event_type@), id),
            final (self).subs_of(event_type@) == old(self).subs_of(event_type@).push(
                (id, callback),
            ),
            forall|t: Seq<char>|
                t != event_type@ ==> #[trigger] final (self).subs_of(t) == old(self).subs_of(t),
    {
        proof {
            use_type_invariant(&*self);
            lemma_find_topic(self.topics@, event_type@);
        }
        let ghost pre = self.topics@;
        let found = self.find_topic_exec(event_type);
        let mut topics: Vec<Topic<S>> = Vec::new();
        core::mem::swap(&mut topics, &mut self.topics);
        proof {
            assert(topics@ == pre);
            lemma_find_topic(pre, event_type@);
        }
        match found {
            Some(ti) => {
                let id = Self::get_free_id(&topics[ti].subs);
                let topic = &mut topics[ti];
                topic.subs.push((id, callback));
                proof {
                    assert forall|j: int|
                        0 <= j < pre.len() implies (#[trigger] topics@[j]).name@
                        == pre[j].name@ by {}
                }
                self.topics = topics;
                proof {
                    assert(self.topics@[ti as int].name@ == event_type@);
                    assert forall|j: int|
                        0 <= j < pre.len() implies (#[trigger] pre[j]).name@
                        == self.topics@[j].name@ by {}
                    lemma_find_topic_same_names(pre, self.topics@, event_type@);
                    assert forall|t: Seq<char>|
                        t != event_type@ implies #[trigger] self.subs_of(t) == old(
                        self,
                    ).subs_of(t) by {
                        lemma_find_topic_same_names(pre, self.topics@, t);
                        lemma_find_topic(pre, t);
                        if find_topic(pre, t) >= 0 {
                            assert(self.topics@[find_topic(pre, t)] == pre[find_topic(pre, t)]);
                        }
                    }
                }
                id
            },
            None => {
                let mut subs: Vec<(i32, S)> = Vec::new();
                subs.push((0, callback));
                assert(subs@ =~= Seq::<(i32, S)>::empty().push((0i32, callback)));
                let topic = Topic { name: event_type.to_owned(), subs };
                topics.push(topic);
                proof {
                    lemma_find_topic(pre, event_type@);
                    assert(topics@.last().name@ == event_type@);
                    assert(topics@.drop_last() =~= pre);
                    assert forall|j: int|
                        0 <= j < pre.len() implies (#[trigger] topics@[j]).name@
                        == pre[j].name@ by {}
                }
                self.topics = topics;
                proof {
                    lemma_find_topic(pre, event_type@);
                    lemma_find_topic_push(pre, self.topics@.last(), event_type@);
                    assert(self.topics@.drop_last() =~= pre);
                    assert(self.subs_of(event_type@) == self.topics@.last().subs@);
                    assert(old(self).subs_of(event_type@) =~= Seq::<(i32, S)>::empty());
                    assert(old(self).ids_of(event_type@) =~= Seq::<i32>::empty());
                    assert forall|t: Seq<char>|
                        t != event_type@ implies #[trigger] self.subs_of(t) == old(
                        self,
                    ).subs_of(t) by {
                        lemma_find_topic_push(pre, self.topics@.last(), t);
                        lemma_find_topic(pre, t);
                        if find_topic(pre, t) >= 0 {
                            assert(self.topics@[find_topic(pre, t)] == pre[find_topic(pre, t)]);
                        }
                    }
                }
                0
            },
        }
    }

    /// Removes the subscription with the given id from a topic, returning
    /// the removed id, or nothing when no such subscription exists.
    pub fn unsubscribe(&mut self, event_type: &str, id: i32) -> (r: Option<i32>)
        ensures
            ({
                let subs = old(self).subs_of(event_type@);
                let i = id_index(subs, id);
                if i >= 0 {
                    r == Some(id) && final (self).subs_of(event_type@) == subs.remove(i)
                } else {
                    r is None && final (self).subs_of(event_type@) == subs
                }
            }),
            forall|t: Seq<char>|
                t != event_type@ ==> #[trigger] final (self).subs_of(t) == old(self).subs_of(t),
    {
        proof {
            use_type_invariant(&*self);
            lemma_id_index(self.subs_of(event_type@), id);
        }
        let ghost pre = self.topics@;
        let ti = match self.find_topic_exec(event_type) {
            Some(ti) => ti,
            None => {
                return None;
            },
        };
        let mut topics: Vec<Topic<S>> = Vec::new();
        core::mem::swap(&mut topics, &mut self.topics);
        proof {
            assert(topics@ == pre);
            lemma_find_topic(pre, event_type@);
        }
        let ghost gsubs = topics@[ti as int].subs@;
        let found = Self::find_id(&topics[ti].subs, id);
        let r = match found {
            Some(p) => {
                let topic = &mut topics[ti];
                let removed = topic.subs.remove(p);
                Some(removed.0)
            },
            None => None,
        };
        proof {
            assert forall|j: int|
                0 <= j < pre.len() implies (#[trigger] topics@[j]).name@ == pre[j].name@ by {}
        }
        self.topics = topics;
        proof {
            assert forall|j: int|
                0 <= j < pre.len() implies (#[trigger] pre[j]).name@ == self.topics@[j].name@ by {}
            lemma_find_topic_same_names(pre, self.topics@, event_type@);
            assert forall|t: Seq<char>|
                t != event_type@ implies #[trigger] self.subs_of(t) == old(self).subs_of(t) by {
                lemma_find_topic_same_names(pre, self.topics@, t);
                lemma_find_topic(pre, t);
                if find_topic(pre, t) >= 0 {
                    assert(self.topics@[find_topic(pre, t)] == pre[find_topic(pre, t)]);
                }
            }
        }
        r
    }

    /// Delivers a copy of the payload to every subscription of the topic,
    /// in subscription order, each exactly once; ids are untouched, and a
    /// topic with no subscribers is a no-op. The bus never fails on a
    /// publish.
    pub fn publish(&mut self, event_type: &str, payload: &Vec<u8>)
        ensures
            ({
                let pre = old(self).subs_of(event_type@);
                let post = final (self).subs_of(event_type@);
                &&& post.len() == pre.len()
                &&& forall|i: int|
                    0 <= i < pre.len() ==> (#[trigger] post[i]).0 == pre[i].0 && S::handled(
                        pre[i].1,
                        post[i].1,
                        payload@,
                    )
            }),
            forall|t: Seq<char>|
                t != event_type@ ==> #[trigger] final (self).subs_of(t) == old(self).subs_of(t),
    {
        proof {
            use_type_invariant(&*self);
        }
        let ghost pre = self.topics@;
        let ti = match self.find_topic_exec(event_type) {
            Some(ti) => ti,
            None => {
                return ;
            },
        };
        let mut topics: Vec<Topic<S>> = Vec::new();
        core::mem::swap(&mut topics, &mut self.topics);
        proof {
            assert(topics@ == pre);
            lemma_find_topic(pre, event_type@);
        }
        let ghost gsubs = topics@[ti as int].subs@;
        let n = topics[ti].subs.len();
        let mut i: usize = 0;
        while i < n
            invariant
                i <= n,
                ti < topics@.len(),
                n == topics@[ti as int].subs@.len(),
                n == gsubs.len(),
                topics@.len() == pre.len(),
                forall|j: int| 0 <= j < pre.len() && j != ti ==> topics@[j] == pre[j],
                topics@[ti as int].name@ == pre[ti as int].name@,
                gsubs == pre[ti as int].subs@,
                forall|j: int|
                    0 <= j < i ==> (#[trigger] topics@[ti as int].subs@[j]).0 == gsubs[j].0
                        && S::handled(gsubs[j].1, topics@[ti as int].subs@[j].1, payload@),
                forall|j: int| i <= j < n ==> #[trigger] topics@[ti as int].subs@[j] == gsubs[j],
            decreases n - i,
        {
            let topic = &mut topics[ti];
            let sub = &mut topic.subs[i];
            sub.1.handle(payload);
            i += 1;
        }
        proof {
            assert forall|j: int|
                0 <= j < pre.len() implies (#[trigger] topics@[j]).name@ == pre[j].name@ by {}
        }
        self.topics = topics;
        proof {
            assert forall|j: int|
                0 <= j < pre.len() implies (#[trigger] pre[j]).name@ == self.topics@[j].name@ by {}
            lemma_find_topic_same_names(pre, self.topics@, event_type@);
            assert forall|t: Seq<char>|
                t != event_type@ implies #[trigger] self.subs_of(t) == old(self).subs_of(t) by {
                lemma_find_topic_same_names(pre, self.topics@, t);
                lemma_find_topic(pre, t);
                if find_topic(pre, t) >= 0 {
                    assert(self.topics@[find_topic(pre, t)] == pre[find_topic(pre, t)]);
                }
            }
        }
    }
}

/// Appending a topic leaves earlier names first: lookups find the old
/// topic when there is one, and the new one only for its own name.
proof fn lemma_find_topic_push<S>(ts: Seq<Topic<S>>, t: Topic<S>, name: Seq<char>)
    ensures
        find_topic(ts, name) >= 0 ==> find_topic(ts.push(t), name) == find_topic(ts, name),
        find_topic(ts, name) < 0 && t.name@ == name ==> find_topic(ts.push(t), name)
            == ts.len(),
        find_topic(ts, name) < 0 && t.name@ != name ==> find_topic(ts.push(t), name) < 0,
    decreases ts.len(),
{
    if ts.len() == 0 {
        assert(ts.push(t)[0] == t);
        assert(ts.push(t).drop_first() =~= Seq::<Topic<S>>::empty());
        assert(find_topic(Seq::<Topic<S>>::empty(), name) == -1);
    } else {
        assert(ts.push(t)[0] == ts[0]);
        assert(ts.push(t).drop_first() =~= ts.drop_first().push(t));
        lemma_find_topic_push(ts.drop_first(), t, name);
        lemma_find_topic(ts.drop_first(), name);
        lemma_find_topic(ts.drop_first().push(t), name);
    }
}

} // verus!
