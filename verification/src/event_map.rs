//! A collection of events keyed by their ids: the library's form of the
//! `event_id -> event` hash maps that the algorithms take.
use crate::event::{strings_view, EventView, LeanEvent};
use crate::text::str_eq;
use vstd::prelude::*;

verus! {

/// The ids of a sequence of events, in order.
pub open spec fn ids_of(events: Seq<LeanEvent>) -> Seq<Seq<char>> {
    events.map_values(|e: LeanEvent| e.event_id@)
}

/// The position of the event with id `k` in a sequence of events with
/// distinct ids.
pub open spec fn slot_of(events: Seq<LeanEvent>, k: Seq<char>) -> int {
    choose|i: int| 0 <= i < events.len() && events[i].event_id@ == k
}

/// The map from id to event held by a sequence of events with distinct ids.
pub open spec fn map_of(events: Seq<LeanEvent>) -> Map<Seq<char>, EventView> {
    Map::new(|k: Seq<char>| ids_of(events).contains(k), |k: Seq<char>| events[slot_of(events, k)]@)
}

/// A well-formed id map: every entry is stored under the event's own id.
pub open spec fn keyed_by_id(m: Map<Seq<char>, EventView>) -> bool {
    &&& m.dom().finite()
    &&& forall|k: Seq<char>| #[trigger] m.dom().contains(k) ==> m[k].event_id == k
}

/// The ids an event cites: its prev events (`prev`) or its auth events.
pub open spec fn refs(e: EventView, prev: bool) -> Seq<Seq<char>> {
    if prev {
        e.prev_events
    } else {
        e.auth_events
    }
}

/// Every id that some event of the sequence cites (see `refs`).
pub open spec fn cited_ids(events: Seq<LeanEvent>, prev: bool) -> Set<Seq<char>>
    decreases events.len(),
{
    if events.len() == 0 {
        Set::empty()
    } else {
        cited_ids(events.drop_last(), prev).union(refs(events.last()@, prev).to_set())
    }
}

/// The cited ids are finitely many and include every id each event cites.
pub proof fn lemma_cited_ids(events: Seq<LeanEvent>, prev: bool)
    ensures
        cited_ids(events, prev).finite(),
        forall|i: int, a: Seq<char>|
            0 <= i < events.len() && #[trigger] refs(events[i]@, prev).contains(a) ==> cited_ids(
                events,
                prev,
            ).contains(a),
    decreases events.len(),
{
    if events.len() > 0 {
        let init = events.drop_last();
        lemma_cited_ids(init, prev);
        vstd::seq_lib::seq_to_set_is_finite(refs(events.last()@, prev));
        assert forall|i: int, a: Seq<char>|
            0 <= i < events.len() && #[trigger] refs(events[i]@, prev).contains(a) implies cited_ids(
            events,
            prev,
        ).contains(a) by {
            if i < events.len() - 1 {
                assert(init[i] == events[i]);
            } else {
                assert(refs(events.last()@, prev).to_set().contains(a));
            }
        }
    }
}

/// Events keyed by their ids; inserting an event replaces the one with the
/// same id.
#[derive(Debug)]
pub struct EventMap {
    events: Vec<LeanEvent>,
}

impl View for EventMap {
    type V = Map<Seq<char>, EventView>;

    closed spec fn view(&self) -> Map<Seq<char>, EventView> {
        map_of(self.events@)
    }
}

/// Facts about the map held by a sequence of events with distinct ids.
pub proof fn lemma_map_of(events: Seq<LeanEvent>)
    requires
        ids_of(events).no_duplicates(),
    ensures
        map_of(events).dom() == ids_of(events).to_set(),
        map_of(events).dom().len() == events.len(),
        keyed_by_id(map_of(events)),
        forall|i: int|
            0 <= i < events.len() ==> #[trigger] map_of(events)[events[i].event_id@] == events[i]@,
        forall|i: int|
            0 <= i < events.len() ==> slot_of(events, #[trigger] events[i].event_id@) == i,
{
    let ids = ids_of(events);
    assert(map_of(events).dom() =~= ids.to_set());
    ids.unique_seq_to_set();
    assert forall|i: int| 0 <= i < events.len() implies slot_of(
        events,
        #[trigger] events[i].event_id@,
    ) == i by {
        assert(ids[i] == events[i].event_id@);
        let j = slot_of(events, events[i].event_id@);
        assert(ids[j] == events[j].event_id@);
    }
    assert forall|i: int| 0 <= i < events.len() implies #[trigger] map_of(
        events,
    )[events[i].event_id@] == events[i]@ by {
        assert(ids[i] == events[i].event_id@);
        assert(ids.contains(events[i].event_id@));
        let j = slot_of(events, events[i].event_id@);
        assert(ids[j] == events[j].event_id@);
    }
    assert forall|k: Seq<char>| #[trigger] map_of(events).dom().contains(k) implies map_of(
        events,
    )[k].event_id == k by {
        let i = choose|i: int| 0 <= i < ids.len() && ids[i] == k;
        assert(events[i].event_id@ == k);
    }
    vstd::seq_lib::seq_to_set_is_finite(ids);
}

impl EventMap {
    #[verifier::type_invariant]
    spec fn distinct_ids(self) -> bool {
        ids_of(self.events@).no_duplicates()
    }

    /// The stored events, in the order they were first inserted.
    pub closed spec fn entries(self) -> Seq<LeanEvent> {
        self.events@
    }

    /// An empty map.
    pub fn new() -> (r: Self)
        ensures
            r@ == Map::<Seq<char>, EventView>::empty(),
            r.entries().len() == 0,
    {
        let r = EventMap { events: Vec::new() };
        assert(r@ =~= Map::<Seq<char>, EventView>::empty());
        r
    }

    /// Facts linking the stored events to the map (a no-op at run time).
    pub(crate) fn lemma_entries(&self)
        ensures
            ids_of(self.entries()).no_duplicates(),
            self@ == map_of(self.entries()),
            self@.dom() == ids_of(self.entries()).to_set(),
            self@.dom().len() == self.entries().len(),
            keyed_by_id(self@),
            forall|i: int|
                0 <= i < self.entries().len() ==> #[trigger] self@[self.entries()[i].event_id@]
                    == self.entries()[i]@,
            forall|i: int|
                0 <= i < self.entries().len() ==> slot_of(
                    self.entries(),
                    #[trigger] self.entries()[i].event_id@,
                ) == i,
    {
        proof {
            use_type_invariant(self);
            lemma_map_of(self.events@);
        }
    }

    /// Every id cited by a stored event lies in a finite set (a no-op at run
    /// time).
    pub(crate) fn lemma_cited(&self, prev: bool)
        ensures
            cited_ids(self.entries(), prev).finite(),
            forall|x: Seq<char>, a: Seq<char>|
                self@.dom().contains(x) && #[trigger] refs(self@[x], prev).contains(a) ==> cited_ids(
                    self.entries(),
                    prev,
                ).contains(a),
    {
        self.lemma_entries();
        proof {
            lemma_cited_ids(self.entries(), prev);
            let es = self.entries();
            assert forall|x: Seq<char>, a: Seq<char>|
                self@.dom().contains(x) && #[trigger] refs(self@[x], prev).contains(a) implies cited_ids(
                es,
                prev,
            ).contains(a) by {
                let i = choose|i: int| 0 <= i < ids_of(es).len() && ids_of(es)[i] == x;
                assert(es[i].event_id@ == x);
                assert(self@[es[i].event_id@] == es[i]@);
                assert(refs(es[i]@, prev).contains(a));
            }
        }
    }

    /// The ids of the stored events, in the order they were first inserted.
    pub fn ids(&self) -> (r: Vec<String>)
        ensures
            strings_view(r@) == ids_of(self.entries()),
            strings_view(r@).to_set() == self@.dom(),
            strings_view(r@).no_duplicates(),
    {
        self.lemma_entries();
        let mut r: Vec<String> = Vec::new();
        let mut i: usize = 0;
        while i < self.events.len()
            invariant
                i <= self.events.len(),
                self.events@ == self.entries(),
                strings_view(r@) == ids_of(self.entries()).take(i as int),
            decreases self.events.len() - i,
        {
            let id = self.events[i].event_id.clone();
            let ghost prev = r@;
            r.push(id);
            proof {
                assert(r@ == prev.push(id));
                assert(strings_view(r@) =~= strings_view(prev).push(id@));
                assert(ids_of(self.entries())[i as int] == id@);
                assert(strings_view(r@) =~= ids_of(self.entries()).take(i + 1));
            }
            i = i + 1;
        }
        assert(ids_of(self.entries()).take(i as int) =~= ids_of(self.entries()));
        r
    }

    /// The stored events, in the order they were first inserted.
    pub fn events(&self) -> (r: &Vec<LeanEvent>)
        ensures
            r@ == self.entries(),
    {
        &self.events
    }

    /// The number of events.
    pub fn len(&self) -> (r: usize)
        ensures
            r == self@.dom().len(),
            r == self.entries().len(),
    {
        self.lemma_entries();
        self.events.len()
    }

    /// The position of the event with the given id.
    pub fn position(&self, id: &str) -> (r: Option<usize>)
        ensures
            match r {
                Some(i) => i < self.entries().len() && self.entries()[i as int].event_id@ == id@,
                None => !self@.dom().contains(id@),
            },
    {
        self.lemma_entries();
        let mut i: usize = 0;
        while i < self.events.len()
            invariant
                i <= self.events.len(),
                forall|j: int| 0 <= j < i ==> self.events@[j].event_id@ != id@,
            decreases self.events.len() - i,
        {
            if str_eq(self.events[i].event_id.as_str(), id) {
                return Some(i);
            }
            i = i + 1;
        }
        proof {
            if self@.dom().contains(id@) {
                let j = choose|j: int|
                    0 <= j < ids_of(self.events@).len() && ids_of(self.events@)[j] == id@;
                assert(self.events@[j].event_id@ == id@);
            }
        }
        None
    }

    /// Whether an event with the given id is present.
    pub fn contains_key(&self, id: &str) -> (r: bool)
        ensures
            r == self@.dom().contains(id@),
    {
        self.lemma_entries();
        match self.position(id) {
            Some(i) => {
                assert(ids_of(self.entries())[i as int] == id@);
                true
            },
            None => false,
        }
    }

    /// The event with the given id.
    pub fn get(&self, id: &str) -> (r: Option<&LeanEvent>)
        ensures
            match r {
                Some(e) => self@.dom().contains(id@) && self@[id@] == e@,
                None => !self@.dom().contains(id@),
            },
    {
        self.lemma_entries();
        match self.position(id) {
            Some(i) => {
                assert(ids_of(self.entries())[i as int] == id@);
                Some(&self.events[i])
            },
            None => None,
        }
    }

    /// Adds `event` under its own id, replacing an event with the same id.
    pub fn insert(&mut self, event: LeanEvent)
        ensures
            final(self)@ == old(self)@.insert(event@.event_id, event@),
    {
        self.lemma_entries();
        let ghost ev = event@;
        let ghost old_events = self.events@;
        let pos = self.position(event.event_id.as_str());
        let mut evs: Vec<LeanEvent> = Vec::new();
        std::mem::swap(&mut evs, &mut self.events);
        match pos {
            Some(i) => {
                evs.set(i, event);
                proof {
                    assert(ids_of(evs@) =~= ids_of(old_events));
                    lemma_map_of(evs@);
                    lemma_map_of(old_events);
                    assert forall|k: Seq<char>|
                        #![trigger map_of(evs@)[k]]
                        map_of(evs@).dom().contains(k) && k != ev.event_id implies map_of(
                        evs@,
                    )[k] == map_of(old_events)[k] by {
                        let j = choose|j: int|
                            0 <= j < ids_of(evs@).len() && ids_of(evs@)[j] == k;
                        assert(evs@[j].event_id@ == k);
                        assert(old_events[j].event_id@ == k);
                    }
                    assert(ids_of(evs@)[i as int] == ev.event_id);
                    assert(map_of(evs@).dom() =~= map_of(old_events).dom().insert(ev.event_id));
                    assert(map_of(evs@)[ev.event_id] == ev);
                    assert(map_of(evs@) =~= map_of(old_events).insert(ev.event_id, ev));
                }
            },
            None => {
                evs.push(event);
                proof {
                    assert(ids_of(evs@) =~= ids_of(old_events).push(ev.event_id));
                    lemma_map_of(evs@);
                    lemma_map_of(old_events);
                    assert forall|k: Seq<char>|
                        #![trigger map_of(evs@)[k]]
                        map_of(evs@).dom().contains(k) && k != ev.event_id implies map_of(
                        evs@,
                    )[k] == map_of(old_events)[k] by {
                        let j = choose|j: int|
                            0 <= j < ids_of(evs@).len() && ids_of(evs@)[j] == k;
                        assert(evs@[j].event_id@ == k);
                        assert(j < old_events.len());
                        assert(old_events[j].event_id@ == k);
                    }
                    let n = old_events.len() as int;
                    assert(evs@[n]@ == ev);
                    assert(ids_of(evs@)[n] == ev.event_id);
                    assert forall|k: Seq<char>| map_of(evs@).dom().contains(k) <==> (map_of(
                        old_events,
                    ).dom().contains(k) || k == ev.event_id) by {
                        if map_of(evs@).dom().contains(k) && k != ev.event_id {
                            let j = choose|j: int|
                                0 <= j < ids_of(evs@).len() && ids_of(evs@)[j] == k;
                            assert(ids_of(old_events)[j] == k);
                        }
                        if map_of(old_events).dom().contains(k) {
                            let j = choose|j: int|
                                0 <= j < ids_of(old_events).len() && ids_of(old_events)[j] == k;
                            assert(ids_of(evs@)[j] == k);
                        }
                    }
                    assert(map_of(evs@).dom() =~= map_of(old_events).dom().insert(ev.event_id));
                    assert(map_of(evs@)[ev.event_id] == ev);
                    assert(map_of(evs@) =~= map_of(old_events).insert(ev.event_id, ev));
                }
            },
        }
        self.events = evs;
    }
}

/// A copy holding the same events.
impl Clone for EventMap {
    fn clone(&self) -> (r: Self)
        ensures
            r@ == self@,
    {
        proof {
            use_type_invariant(self);
        }
        let mut evs: Vec<LeanEvent> = Vec::new();
        let mut i: usize = 0;
        while i < self.events.len()
            invariant
                i <= self.events.len(),
                evs@.len() == i,
                forall|j: int| 0 <= j < i ==> #[trigger] evs@[j]@ == self.events@[j]@,
            decreases self.events.len() - i,
        {
            evs.push(self.events[i].clone());
            i = i + 1;
        }
        proof {
            let a = evs@;
            let b = self.events@;
            assert(ids_of(a) =~= ids_of(b)) by {
                assert forall|j: int| 0 <= j < a.len() implies ids_of(a)[j] == ids_of(b)[j] by {
                    assert(a[j]@ == b[j]@);
                }
            }
            lemma_map_of(a);
            lemma_map_of(b);
            assert forall|k: Seq<char>| #[trigger] map_of(a).dom().contains(k) implies map_of(a)[k] == map_of(b)[k] by {
                let j = choose|j: int| 0 <= j < ids_of(a).len() && ids_of(a)[j] == k;
                assert(a[j].event_id@ == k);
                assert(a[j]@ == b[j]@);
                assert(map_of(a)[a[j].event_id@] == a[j]@);
                assert(map_of(b)[b[j].event_id@] == b[j]@);
            }
            assert(map_of(a) =~= map_of(b));
        }
        EventMap { events: evs }
    }
}

} // verus!
