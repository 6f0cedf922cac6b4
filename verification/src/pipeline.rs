//! Resolving a room from its events: the version a room's create event
//! selects, the states at the heads, the power levels that the sort uses,
//! the split into unconflicted state and conflicted events, and the final
//! resolution.
use crate::event::{items_view, strings_view, EventView, JsonValue, JsonView, LeanEvent, StateResVersion};
use crate::event_map::{ids_of, keyed_by_id, EventMap};
use crate::state_map::{KeyView, StateMap};
use crate::resolve::{resolve_lean, resolved_state};
use crate::room_state::{head_state, latest_state, latest_state_of, state_at_head};
use crate::text::{chars_of, owned, str_eq};
use vstd::prelude::*;

verus! {

/// The state-resolution version that a room version selects: "1" selects
/// V1, "12" selects V2.1, and every other version ("2" to "11", and any
/// unknown one) selects V2.
pub open spec fn version_of_room(v: Seq<char>) -> StateResVersion {
    if v == "1"@ {
        StateResVersion::V1
    } else if v == "12"@ {
        StateResVersion::V2_1
    } else {
        StateResVersion::V2
    }
}

/// The room version that a raw event declares, when it is a create event
/// whose content names one.
pub open spec fn declared_room_version(e: JsonView) -> Option<Seq<char>> {
    if e.get_str("type"@) == Some("m.room.create"@) {
        match e.get("content"@) {
            Some(c) => c.get_str("room_version"@),
            None => None,
        }
    } else {
        None
    }
}

/// The version selected by the first create event that declares a room
/// version; V2 when none does.
pub open spec fn detected_version(events: Seq<JsonView>) -> StateResVersion
    decreases events.len(),
{
    if events.len() == 0 {
        StateResVersion::V2
    } else {
        match declared_room_version(events[0]) {
            Some(v) => version_of_room(v),
            None => detected_version(events.drop_first()),
        }
    }
}

/// The state-resolution version for a room version string.
pub fn version_for_room(v: &str) -> (r: StateResVersion)
    ensures
        r == version_of_room(v@),
{
    if str_eq(v, "1") {
        StateResVersion::V1
    } else if str_eq(v, "12") {
        StateResVersion::V2_1
    } else {
        StateResVersion::V2
    }
}

/// Detects the state-resolution version from the raw events: the version of
/// the first `m.room.create` event whose content declares a `room_version`,
/// or V2 when there is none.
pub fn detect_version(events: &Vec<JsonValue>) -> (r: StateResVersion)
    ensures
        r == detected_version(items_view(events@)),
{
    let ghost all = items_view(events@);
    proof {
        crate::event::lemma_items_view(events@);
    }
    let mut i: usize = 0;
    assert(all.skip(0) =~= all);
    while i < events.len()
        invariant
            i <= events.len(),
            all == items_view(events@),
            all.len() == events.len(),
            forall|j: int| 0 <= j < events.len() ==> #[trigger] all[j] == events@[j].view(),
            detected_version(all) == detected_version(all.skip(i as int)),
        decreases events.len() - i,
    {
        let ev = &events[i];
        assert(all.skip(i as int)[0] == all[i as int]);
        assert(all.skip(i as int).drop_first() =~= all.skip(i + 1));
        let is_create = match ev.get_str("type") {
            Some(t) => str_eq(t.as_str(), "m.room.create"),
            None => false,
        };
        if is_create {
            match ev.get("content") {
                Some(content) => match content.get_str("room_version") {
                    Some(v) => {
                        return version_for_room(v.as_str());
                    },
                    None => {},
                },
                None => {},
            }
        }
        i = i + 1;
    }
    assert(all.skip(i as int) =~= Seq::<JsonView>::empty());
    StateResVersion::V2
}

/// The version to resolve with: the one requested, or else the one the
/// events declare.
pub fn choose_version(requested: Option<StateResVersion>, events: &Vec<JsonValue>) -> (r: StateResVersion)
    ensures
        r == match requested {
            Some(v) => v,
            None => detected_version(items_view(events@)),
        },
{
    match requested {
        Some(v) => v,
        None => detect_version(events),
    }
}

/// The sender of the last create event, or empty text when there is none.
pub open spec fn creator_of(events: Seq<LeanEvent>) -> Seq<char>
    decreases events.len(),
{
    if events.len() == 0 {
        Seq::empty()
    } else if events.last()@.event_type == "m.room.create"@ {
        events.last()@.sender
    } else {
        creator_of(events.drop_last())
    }
}

/// The room's creator: the sender of the last `m.room.create` event, or an
/// empty string when there is none.
pub fn room_creator(events: &Vec<LeanEvent>) -> (r: String)
    ensures
        r@ == creator_of(events@),
{
    let mut creator = String::new();
    let mut i: usize = 0;
    while i < events.len()
        invariant
            i <= events.len(),
            creator@ == creator_of(events@.take(i as int)),
        decreases events.len() - i,
    {
        assert(events@.take(i + 1).drop_last() =~= events@.take(i as int));
        assert(events@.take(i + 1).last() == events@[i as int]);
        if str_eq(events[i].event_type.as_str(), "m.room.create") {
            creator = events[i].sender.clone();
        }
        i = i + 1;
    }
    assert(events@.take(i as int) =~= events@);
    creator
}

/// The events by id, a later event replacing an earlier one with its id.
pub open spec fn indexed(events: Seq<LeanEvent>) -> Map<Seq<char>, EventView>
    decreases events.len(),
{
    if events.len() == 0 {
        Map::empty()
    } else {
        indexed(events.drop_last()).insert(events.last()@.event_id, events.last()@)
    }
}

/// Collects the events by id; of two events with the same id, the later
/// one is kept.
pub fn index_events(events: &Vec<LeanEvent>) -> (r: EventMap)
    ensures
        r@ == indexed(events@),
{
    let mut map = EventMap::new();
    let mut i: usize = 0;
    while i < events.len()
        invariant
            i <= events.len(),
            map@ == indexed(events@.take(i as int)),
        decreases events.len() - i,
    {
        assert(events@.take(i + 1).drop_last() =~= events@.take(i as int));
        assert(events@.take(i + 1).last() == events@[i as int]);
        map.insert(events[i].clone());
        i = i + 1;
    }
    assert(events@.take(i as int) =~= events@);
    map
}

/// The event types that bear on power: create, power levels, join rules and
/// membership.
pub open spec fn is_power_type(t: Seq<char>) -> bool {
    t == "m.room.create"@ || t == "m.room.power_levels"@ || t == "m.room.join_rules"@ || t
        == "m.room.member"@
}

/// `e` with its power level replaced by `level`.
pub open spec fn with_level(e: EventView, level: i64) -> EventView {
    EventView { power_level: level, ..e }
}

/// The power level a power event is sorted with before the room's power
/// levels are known: 100 for the create event and for events sent by the
/// creator (when there is one), 0 otherwise.
pub open spec fn bootstrap_level(e: EventView, creator: Seq<char>) -> i64 {
    if (creator.len() > 0 && e.sender == creator) || e.event_type == "m.room.create"@ {
        100
    } else {
        0
    }
}

/// The power events of `m`, each with its bootstrap power level.
pub open spec fn power_events_of(m: Map<Seq<char>, EventView>, creator: Seq<char>) -> Map<Seq<char>, EventView> {
    Map::new(
        |id: Seq<char>| m.dom().contains(id) && is_power_type(m[id].event_type),
        |id: Seq<char>| with_level(m[id], bootstrap_level(m[id], creator)),
    )
}

/// The power events (create, power levels, join rules, membership), each
/// with power level 100 when it is the create event or was sent by the
/// creator, and 0 otherwise.
pub fn power_events(events: &EventMap, creator: &String) -> (r: EventMap)
    ensures
        r@ == power_events_of(events@, creator@),
{
    events.lemma_entries();
    let ghost m = events@;
    let es = events.events();
    let ghost all = es@;
    let mut r = EventMap::new();
    let mut i: usize = 0;
    while i < es.len()
        invariant
            i <= es.len(),
            all == es@,
            all == events.entries(),
            m == events@,
            ids_of(all).no_duplicates(),
            forall|j: int| 0 <= j < all.len() ==> #[trigger] m[all[j].event_id@] == all[j]@,
            forall|id: Seq<char>|
                #[trigger] r@.dom().contains(id) <==> exists|j: int|
                    0 <= j < i && all[j].event_id@ == id && is_power_type(all[j].event_type@),
            forall|j: int|
                0 <= j < i && is_power_type(all[j].event_type@) ==> #[trigger] r@[all[j].event_id@] == with_level(
                    all[j]@,
                    bootstrap_level(all[j]@, creator@),
                ),
        decreases es.len() - i,
    {
        let ev = &es[i];
        let is_power = str_eq(ev.event_type.as_str(), "m.room.create") || str_eq(
            ev.event_type.as_str(),
            "m.room.power_levels",
        ) || str_eq(ev.event_type.as_str(), "m.room.join_rules") || str_eq(
            ev.event_type.as_str(),
            "m.room.member",
        );
        let ghost before = r@;
        if is_power {
            let by_creator = chars_of(creator.as_str()).len() > 0 && str_eq(ev.sender.as_str(), creator.as_str());
            let mut copy = ev.clone();
            copy.power_level = if by_creator || str_eq(ev.event_type.as_str(), "m.room.create") {
                100
            } else {
                0
            };
            proof {
                assert(copy@ == with_level(all[i as int]@, bootstrap_level(all[i as int]@, creator@)));
            }
            r.insert(copy);
        }
        proof {
            assert forall|id: Seq<char>| #[trigger] r@.dom().contains(id) <==> exists|j: int|
                0 <= j < i + 1 && all[j].event_id@ == id && is_power_type(all[j].event_type@) by {
                if r@.dom().contains(id) && id != all[i as int].event_id@ {
                    assert(before.dom().contains(id));
                }
                if exists|j: int| 0 <= j < i + 1 && all[j].event_id@ == id && is_power_type(all[j].event_type@) {
                    let j = choose|j: int| 0 <= j < i + 1 && all[j].event_id@ == id && is_power_type(all[j].event_type@);
                    if j < i {
                        assert(before.dom().contains(id));
                    }
                }
            }
            assert forall|j: int| 0 <= j < i + 1 && is_power_type(all[j].event_type@) implies #[trigger] r@[all[j].event_id@]
                == with_level(all[j]@, bootstrap_level(all[j]@, creator@)) by {
                if j < i {
                    assert(ids_of(all)[j] != ids_of(all)[i as int]);
                }
            }
        }
        i = i + 1;
    }
    proof {
        let want = power_events_of(m, creator@);
        assert(m.dom() == ids_of(all).to_set());
        assert forall|id: Seq<char>| r@.dom().contains(id) <==> want.dom().contains(id) by {
            if want.dom().contains(id) {
                let j = choose|j: int| 0 <= j < ids_of(all).len() && ids_of(all)[j] == id;
                assert(all[j].event_id@ == id);
                assert(m[all[j].event_id@] == all[j]@);
                assert(r@.dom().contains(id));
            }
            if r@.dom().contains(id) {
                let j = choose|j: int| 0 <= j < i && all[j].event_id@ == id && is_power_type(all[j].event_type@);
                assert(ids_of(all)[j] == id);
                assert(m[all[j].event_id@] == all[j]@);
            }
        }
        assert forall|id: Seq<char>| #[trigger] r@.dom().contains(id) implies r@[id] == want[id] by {
            let j = choose|j: int| 0 <= j < i && all[j].event_id@ == id && is_power_type(all[j].event_type@);
            assert(m[all[j].event_id@] == all[j]@);
            assert(ids_of(all)[j] == id);
            assert(want.dom().contains(id));
            assert(r@[all[j].event_id@] == with_level(all[j]@, bootstrap_level(all[j]@, creator@)));
        }
        assert(r@ =~= want);
    }
    r
}

/// The power level that power-levels content grants `sender`: its entry in
/// `users` when that is an integer that fits in an `i64`, else
/// `users_default` when that is such an integer, else 0.
pub open spec fn level_in(content: JsonView, sender: Seq<char>) -> i64 {
    let default_level = match content.get_i64("users_default"@) {
        Some(n) => n,
        None => 0,
    };
    match content.get("users"@) {
        Some(users) => match users.get_i64(sender) {
            Some(n) => n,
            None => default_level,
        },
        None => default_level,
    }
}

/// The power level granted to `sender` by the power-levels event `pl`, or
/// 0 when there is none.
pub open spec fn granted_level(pl: Option<EventView>, sender: Seq<char>) -> i64 {
    match pl {
        Some(e) => level_in(e.content, sender),
        None => 0,
    }
}

/// Every event of `m` with the power level that `pl` grants its sender.
pub open spec fn leveled(m: Map<Seq<char>, EventView>, pl: Option<EventView>) -> Map<Seq<char>, EventView> {
    Map::new(
        |id: Seq<char>| m.dom().contains(id),
        |id: Seq<char>| with_level(m[id], granted_level(pl, m[id].sender)),
    )
}

/// Gives every event the power level that the power-levels event `pl`
/// grants its sender (0 for all when there is none).
pub fn assign_levels(events: &EventMap, pl: Option<&LeanEvent>) -> (r: EventMap)
    ensures
        r@ == leveled(
            events@,
            match pl {
                Some(e) => Some(e@),
                None => None,
            },
        ),
{
    events.lemma_entries();
    let ghost m = events@;
    let ghost plv = match pl {
        Some(e) => Some(e@),
        None => None,
    };
    let es = events.events();
    let ghost all = es@;
    let default_level: i64 = match pl {
        Some(e) => match e.content.get_i64("users_default") {
            Some(n) => n,
            None => 0,
        },
        None => 0,
    };
    let mut r = EventMap::new();
    let mut i: usize = 0;
    while i < es.len()
        invariant
            i <= es.len(),
            all == es@,
            all == events.entries(),
            m == events@,
            ids_of(all).no_duplicates(),
            plv == match pl {
                Some(e) => Some(e@),
                None => None,
            },
            default_level == match plv {
                Some(e) => match e.content.get_i64("users_default"@) {
                    Some(n) => n,
                    None => 0,
                },
                None => 0,
            },
            forall|j: int| 0 <= j < all.len() ==> #[trigger] m[all[j].event_id@] == all[j]@,
            forall|id: Seq<char>|
                #[trigger] r@.dom().contains(id) <==> exists|j: int| 0 <= j < i && all[j].event_id@ == id,
            forall|j: int|
                0 <= j < i ==> #[trigger] r@[all[j].event_id@] == with_level(
                    all[j]@,
                    granted_level(plv, all[j]@.sender),
                ),
        decreases es.len() - i,
    {
        let ev = &es[i];
        let level: i64 = match pl {
            Some(p) => match p.content.get("users") {
                Some(users) => match users.get_i64(ev.sender.as_str()) {
                    Some(n) => n,
                    None => default_level,
                },
                None => default_level,
            },
            None => 0,
        };
        let mut copy = ev.clone();
        copy.power_level = level;
        let ghost before = r@;
        proof {
            assert(copy@ == with_level(all[i as int]@, granted_level(plv, all[i as int]@.sender)));
        }
        r.insert(copy);
        proof {
            assert forall|id: Seq<char>| #[trigger] r@.dom().contains(id) <==> exists|j: int|
                0 <= j < i + 1 && all[j].event_id@ == id by {
                if r@.dom().contains(id) && id != all[i as int].event_id@ {
                    assert(before.dom().contains(id));
                }
                if exists|j: int| 0 <= j < i + 1 && all[j].event_id@ == id {
                    let j = choose|j: int| 0 <= j < i + 1 && all[j].event_id@ == id;
                    if j < i {
                        assert(before.dom().contains(id));
                    }
                }
            }
            assert forall|j: int| 0 <= j < i + 1 implies #[trigger] r@[all[j].event_id@] == with_level(
                all[j]@,
                granted_level(plv, all[j]@.sender),
            ) by {
                if j < i {
                    assert(ids_of(all)[j] != ids_of(all)[i as int]);
                }
            }
        }
        i = i + 1;
    }
    proof {
        let want = leveled(m, plv);
        assert(m.dom() == ids_of(all).to_set());
        assert forall|id: Seq<char>| r@.dom().contains(id) <==> want.dom().contains(id) by {
            if want.dom().contains(id) {
                let j = choose|j: int| 0 <= j < ids_of(all).len() && ids_of(all)[j] == id;
                assert(all[j].event_id@ == id);
            }
            if r@.dom().contains(id) {
                let j = choose|j: int| 0 <= j < i && all[j].event_id@ == id;
                assert(ids_of(all)[j] == id);
            }
        }
        assert forall|id: Seq<char>| #[trigger] r@.dom().contains(id) implies r@[id] == want[id] by {
            let j = choose|j: int| 0 <= j < i && all[j].event_id@ == id;
            assert(m[all[j].event_id@] == all[j]@);
            assert(ids_of(all)[j] == id);
        }
        assert(r@ =~= want);
    }
    r
}

/// The views of a list of states.
pub open spec fn state_views(maps: Seq<StateMap<String>>) -> Seq<Map<KeyView, Seq<char>>> {
    maps.map_values(|s: StateMap<String>| s@)
}

/// Every state holds slot `k`, all with the same event.
pub open spec fn agreed(states: Seq<Map<KeyView, Seq<char>>>, k: KeyView) -> bool {
    &&& states.len() > 0
    &&& forall|t: int| 0 <= t < states.len() ==> #[trigger] states[t].dom().contains(k) && states[t][k] == states[0][k]
}

/// The unconflicted state: the slots on which every state agrees.
pub open spec fn unconflicted_of(states: Seq<Map<KeyView, Seq<char>>>) -> Map<KeyView, Seq<char>> {
    Map::new(|k: KeyView| agreed(states, k), |k: KeyView| states[0][k])
}

/// An id that some state holds in a slot on which the states disagree (or,
/// for V2.1, in any slot).
pub open spec fn is_conflicted(states: Seq<Map<KeyView, Seq<char>>>, version: StateResVersion, id: Seq<char>) -> bool {
    exists|t: int, k: KeyView|
        0 <= t < states.len() && #[trigger] states[t].dom().contains(k) && states[t][k] == id && (!agreed(
            states,
            k,
        ) || version == StateResVersion::V2_1)
}

/// The conflicted events: the events of `m` whose ids are conflicted.
pub open spec fn conflicted_of(
    m: Map<Seq<char>, EventView>,
    states: Seq<Map<KeyView, Seq<char>>>,
    version: StateResVersion,
) -> Map<Seq<char>, EventView> {
    m.restrict(Set::new(|id: Seq<char>| is_conflicted(states, version, id)))
}

/// Whether every state holds `(k0, k1)`, all with the same event.
fn agrees(maps: &Vec<StateMap<String>>, k0: &String, k1: &String) -> (r: bool)
    ensures
        r == agreed(state_views(maps@), (k0@, k1@)),
{
    let ghost views = state_views(maps@);
    let ghost k = (k0@, k1@);
    if maps.len() == 0 {
        return false;
    }
    let first = match maps[0].get(k0, k1) {
        Some(v) => v,
        None => {
            assert(!views[0].dom().contains(k));
            return false;
        },
    };
    let mut t: usize = 1;
    assert(views[0] == maps@[0]@);
    while t < maps.len()
        invariant
            1 <= t <= maps.len(),
            views == state_views(maps@),
            k == (k0@, k1@),
            views[0].dom().contains(k),
            views[0][k] == first@,
            forall|u: int| #![trigger views[u]] 0 <= u < t ==> views[u].dom().contains(k) && views[u][k] == views[0][k],
        decreases maps.len() - t,
    {
        assert(views[t as int] == maps@[t as int]@);
        match maps[t].get(k0, k1) {
            Some(v) => {
                if !str_eq(v.as_str(), first.as_str()) {
                    return false;
                }
            },
            None => {
                return false;
            },
        }
        t = t + 1;
    }
    true
}

/// Splits the states into the unconflicted state (the slots on which every
/// state agrees) and the conflicted events (the events held in the other
/// slots, and for V2.1 also those of the unconflicted state).
pub fn split_states(maps: &Vec<StateMap<String>>, events: &EventMap, version: StateResVersion) -> (r: (
    StateMap<String>,
    EventMap,
))
    ensures
        r.0@ == unconflicted_of(state_views(maps@)),
        r.1@ == conflicted_of(events@, state_views(maps@), version),
{
    events.lemma_entries();
    let ghost m = events@;
    let ghost views = state_views(maps@);
    let mut unconflicted: StateMap<String> = StateMap::new();
    let mut conflicted = EventMap::new();
    let ghost mut visited: Seq<(KeyView, Seq<char>)> = Seq::empty();
    let mut i: usize = 0;
    while i < maps.len()
        invariant
            i <= maps.len(),
            m == events@,
            keyed_by_id(m),
            views == state_views(maps@),
            forall|q: (KeyView, Seq<char>)|
                #[trigger] visited.contains(q) ==> exists|t: int|
                    0 <= t < views.len() && #[trigger] views[t].dom().contains(q.0) && views[t][q.0] == q.1,
            forall|t: int, k: KeyView|
                0 <= t < i && #[trigger] views[t].dom().contains(k) ==> visited.contains((k, views[t][k])),
            unconflicted@ == Map::new(
                |k: KeyView| agreed(views, k) && exists|q: (KeyView, Seq<char>)| #[trigger] visited.contains(q) && q.0 == k,
                |k: KeyView| views[0][k],
            ),
            conflicted@ == m.restrict(
                Set::new(
                    |id: Seq<char>|
                        exists|q: (KeyView, Seq<char>)|
                            #[trigger] visited.contains(q) && q.1 == id && (!agreed(views, q.0) || version
                                == StateResVersion::V2_1),
                ),
            ),
        decreases maps.len() - i,
    {
        let es = maps[i].entries();
        let ghost ents = es@;
        let mut j: usize = 0;
        while j < es.len()
            invariant
                i < maps.len(),
                j <= es.len(),
                ents == es@,
                views[i as int] == crate::state_map::entries_map(ents),
                crate::state_map::sorted_entries(ents),
                m == events@,
                keyed_by_id(m),
                views == state_views(maps@),
                forall|q: (KeyView, Seq<char>)|
                    #[trigger] visited.contains(q) ==> exists|t: int|
                        0 <= t < views.len() && #[trigger] views[t].dom().contains(q.0) && views[t][q.0] == q.1,
                forall|t: int, k: KeyView|
                    0 <= t < i && #[trigger] views[t].dom().contains(k) ==> visited.contains((k, views[t][k])),
                forall|jj: int|
                    0 <= jj < j ==> visited.contains(
                        (#[trigger] crate::state_map::entry_key(ents[jj]), ents[jj].1@),
                    ),
                unconflicted@ == Map::new(
                    |k: KeyView|
                        agreed(views, k) && exists|q: (KeyView, Seq<char>)| #[trigger] visited.contains(q) && q.0 == k,
                    |k: KeyView| views[0][k],
                ),
                conflicted@ == m.restrict(
                    Set::new(
                        |id: Seq<char>|
                            exists|q: (KeyView, Seq<char>)|
                                #[trigger] visited.contains(q) && q.1 == id && (!agreed(views, q.0) || version
                                    == StateResVersion::V2_1),
                    ),
                ),
            decreases es.len() - j,
        {
            let k0 = &es[j].0.0;
            let k1 = &es[j].0.1;
            let id = &es[j].1;
            let ghost k = (k0@, k1@);
            let ghost q = (k, id@);
            proof {
                crate::state_map::lemma_entries_map(ents);
                assert(crate::state_map::entry_key(ents[j as int]) == k);
                assert(views[i as int].dom().contains(k) && views[i as int][k] == id@);
            }
            let ghost old_visited = visited;
            let ghost old_un = unconflicted@;
            let ghost old_co = conflicted@;
            proof {
                visited = visited.push(q);
                assert forall|x: (KeyView, Seq<char>)| #[trigger] visited.contains(x) <==> (old_visited.contains(x)
                    || x == q) by {
                    if visited.contains(x) {
                        let n = choose|n: int| 0 <= n < visited.len() && visited[n] == x;
                        if n < old_visited.len() {
                            assert(old_visited[n] == x);
                        }
                    }
                    if old_visited.contains(x) {
                        let n = choose|n: int| 0 <= n < old_visited.len() && old_visited[n] == x;
                        assert(visited[n] == x);
                    }
                    if x == q {
                        assert(visited[old_visited.len() as int] == x);
                    }
                }
            }
            let agree = agrees(maps, k0, k1);
            let add_event = !agree || version == StateResVersion::V2_1;
            if agree {
                unconflicted.insert(k0.clone(), k1.clone(), id.clone());
            }
            if add_event {
                match events.get(id.as_str()) {
                    Some(ev) => {
                        conflicted.insert(ev.clone());
                    },
                    None => {},
                }
            }
            proof {
                assert(agree ==> views[0][k] == id@) by {
                    if agree {
                        assert(views[i as int].dom().contains(k));
                    }
                }
                let un_want = Map::new(
                    |kk: KeyView|
                        agreed(views, kk) && exists|x: (KeyView, Seq<char>)| #[trigger] visited.contains(x) && x.0 == kk,
                    |kk: KeyView| views[0][kk],
                );
                assert forall|kk: KeyView| un_want.dom().contains(kk) <==> unconflicted@.dom().contains(kk) by {
                    if un_want.dom().contains(kk) {
                        let x = choose|x: (KeyView, Seq<char>)| #[trigger] visited.contains(x) && x.0 == kk;
                        if x != q {
                            assert(old_visited.contains(x));
                        }
                    }
                    if old_un.dom().contains(kk) {
                        let x = choose|x: (KeyView, Seq<char>)| #[trigger] old_visited.contains(x) && x.0 == kk;
                        assert(visited.contains(x));
                    }
                    if kk == k && agree {
                        assert(visited.contains(q));
                    }
                }
                assert forall|kk: KeyView| #[trigger] unconflicted@.dom().contains(kk) implies unconflicted@[kk]
                    == un_want[kk] by {
                    assert(un_want.dom().contains(kk));
                    if kk != k || !agree {
                        assert(old_un.dom().contains(kk));
                        assert(old_un[kk] == views[0][kk]);
                    }
                }
                assert(unconflicted@ =~= un_want);
                let co_set = Set::new(
                    |idd: Seq<char>|
                        exists|x: (KeyView, Seq<char>)|
                            #[trigger] visited.contains(x) && x.1 == idd && (!agreed(views, x.0) || version
                                == StateResVersion::V2_1),
                );
                let old_set = Set::new(
                    |idd: Seq<char>|
                        exists|x: (KeyView, Seq<char>)|
                            #[trigger] old_visited.contains(x) && x.1 == idd && (!agreed(views, x.0) || version
                                == StateResVersion::V2_1),
                );
                assert forall|idd: Seq<char>| co_set.contains(idd) <==> (old_set.contains(idd) || (add_event
                    && idd == id@)) by {
                    if co_set.contains(idd) {
                        let x = choose|x: (KeyView, Seq<char>)|
                            #[trigger] visited.contains(x) && x.1 == idd && (!agreed(views, x.0) || version
                                == StateResVersion::V2_1);
                        if x != q {
                            assert(old_visited.contains(x));
                        }
                    }
                    if old_set.contains(idd) {
                        let x = choose|x: (KeyView, Seq<char>)|
                            #[trigger] old_visited.contains(x) && x.1 == idd && (!agreed(views, x.0) || version
                                == StateResVersion::V2_1);
                        assert(visited.contains(x));
                    }
                    if add_event && idd == id@ {
                        assert(visited.contains(q));
                    }
                }
                assert(conflicted@ =~= m.restrict(co_set));
                assert forall|x: (KeyView, Seq<char>)| #[trigger] visited.contains(x) implies exists|t: int|
                    0 <= t < views.len() && #[trigger] views[t].dom().contains(x.0) && views[t][x.0] == x.1 by {
                    if x == q {
                        assert(views[i as int].dom().contains(x.0));
                    } else {
                        assert(old_visited.contains(x));
                    }
                }
                assert forall|jj: int| 0 <= jj < j + 1 implies visited.contains(
                    (#[trigger] crate::state_map::entry_key(ents[jj]), ents[jj].1@),
                ) by {
                    if jj < j {
                        assert(old_visited.contains((crate::state_map::entry_key(ents[jj]), ents[jj].1@)));
                    }
                }
                assert forall|t: int, kk: KeyView|
                    0 <= t < i && #[trigger] views[t].dom().contains(kk) implies visited.contains(
                    (kk, views[t][kk]),
                ) by {
                    assert(old_visited.contains((kk, views[t][kk])));
                }
            }
            j = j + 1;
        }
        proof {
            crate::state_map::lemma_entries_map(ents);
            assert forall|t: int, k: KeyView|
                0 <= t < i + 1 && #[trigger] views[t].dom().contains(k) implies visited.contains((k, views[t][k])) by {
                if t == i {
                    let jj = choose|jj: int| 0 <= jj < ents.len() && crate::state_map::entry_key(ents[jj]) == k;
                    assert(views[i as int][crate::state_map::entry_key(ents[jj])] == ents[jj].1@);
                    assert(visited.contains((crate::state_map::entry_key(ents[jj]), ents[jj].1@)));
                }
            }
        }
        i = i + 1;
    }
    proof {
        let want_un = unconflicted_of(views);
        assert forall|k: KeyView| agreed(views, k) implies exists|q: (KeyView, Seq<char>)|
            #[trigger] visited.contains(q) && q.0 == k by {
            assert(views[0].dom().contains(k));
            assert(visited.contains((k, views[0][k])));
        }
        assert(unconflicted@ =~= want_un);
        let want_set = Set::new(|id: Seq<char>| is_conflicted(views, version, id));
        let have_set = Set::new(
            |id: Seq<char>|
                exists|q: (KeyView, Seq<char>)|
                    #[trigger] visited.contains(q) && q.1 == id && (!agreed(views, q.0) || version
                        == StateResVersion::V2_1),
        );
        assert forall|id: Seq<char>| have_set.contains(id) <==> want_set.contains(id) by {
            if have_set.contains(id) {
                let q = choose|q: (KeyView, Seq<char>)|
                    #[trigger] visited.contains(q) && q.1 == id && (!agreed(views, q.0) || version
                        == StateResVersion::V2_1);
                let t = choose|t: int| 0 <= t < views.len() && #[trigger] views[t].dom().contains(q.0) && views[t][q.0] == q.1;
                assert(is_conflicted(views, version, id));
            }
            if want_set.contains(id) {
                let (t, k) = choose|t: int, k: KeyView|
                    0 <= t < views.len() && #[trigger] views[t].dom().contains(k) && views[t][k] == id && (!agreed(
                        views,
                        k,
                    ) || version == StateResVersion::V2_1);
                assert(visited.contains((k, views[t][k])));
            }
        }
        assert(have_set =~= want_set);
    }
    (unconflicted, conflicted)
}

/// The states the resolution starts from: the state at each head, or, when
/// no head is given, the single state of the newest event in each slot.
pub open spec fn head_states(m: Map<Seq<char>, EventView>, heads: Seq<Seq<char>>) -> Seq<Map<KeyView, Seq<char>>> {
    if heads.len() == 0 {
        seq![latest_state_of(m)]
    } else {
        heads.map_values(|h: Seq<char>| head_state(m, h))
    }
}

/// The states at the heads (see `head_states`).
pub fn states_at(events: &EventMap, heads: &Vec<String>) -> (r: Vec<StateMap<String>>)
    ensures
        state_views(r@) == head_states(events@, strings_view(heads@)),
{
    let mut r: Vec<StateMap<String>> = Vec::new();
    if heads.len() == 0 {
        r.push(latest_state(events));
        assert(state_views(r@) =~= seq![latest_state_of(events@)]);
        return r;
    }
    let mut i: usize = 0;
    while i < heads.len()
        invariant
            i <= heads.len(),
            heads.len() > 0,
            state_views(r@) == strings_view(heads@).take(i as int).map_values(
                |h: Seq<char>| head_state(events@, h),
            ),
        decreases heads.len() - i,
    {
        let ghost before = r@;
        r.push(state_at_head(events, &heads[i]));
        assert(state_views(r@) =~= strings_view(heads@).take(i + 1).map_values(
            |h: Seq<char>| head_state(events@, h),
        )) by {
            assert(state_views(r@) =~= state_views(before).push(head_state(events@, heads@[i as int]@)));
        }
        i = i + 1;
    }
    assert(strings_view(heads@).take(i as int) =~= strings_view(heads@));
    r
}

/// The key of the power-levels state slot.
pub open spec fn power_levels_key() -> KeyView {
    ("m.room.power_levels"@, Seq::empty())
}

/// The power-levels event of `m` that the power state holds, if any.
pub open spec fn power_levels_event(m: Map<Seq<char>, EventView>, power_state: Map<KeyView, Seq<char>>) -> Option<
    EventView,
> {
    if power_state.dom().contains(power_levels_key()) && m.dom().contains(power_state[power_levels_key()]) {
        Some(m[power_state[power_levels_key()]])
    } else {
        None
    }
}

/// The state that the power events alone resolve to, each with its
/// bootstrap power level.
pub open spec fn power_state_of(m: Map<Seq<char>, EventView>, creator: Seq<char>, version: StateResVersion) -> Map<
    KeyView,
    Seq<char>,
> {
    resolved_state(Map::empty(), power_events_of(m, creator), version)
}

/// The events of a room, each with the power level that the resolved power
/// levels grant its sender.
pub open spec fn leveled_events(events: Seq<LeanEvent>, version: StateResVersion) -> Map<Seq<char>, EventView> {
    let m = indexed(events);
    leveled(m, power_levels_event(m, power_state_of(m, creator_of(events), version)))
}

/// A resolved room.
pub struct RoomResolution {
    /// The resolved state.
    pub state: StateMap<String>,
    /// The room's events by id, each with the power level that the resolved
    /// power levels grant its sender.
    pub events: EventMap,
    /// The conflicted events that were sorted.
    pub conflicted: EventMap,
}

/// Resolves a room from its events and heads.
///
/// The power events (create, power levels, join rules, membership) are
/// resolved first, the create event and the creator's events ranking with
/// power level 100 and the others with 0; the power levels this selects
/// then give every event its sender's level. The states at the heads (or,
/// without heads, the newest event of each slot) are split into the
/// unconflicted state and the conflicted events, which are sorted and
/// applied over it.
pub fn resolve_room(events: &Vec<LeanEvent>, heads: &Vec<String>, version: StateResVersion) -> (r: RoomResolution)
    ensures
        r.events@ == leveled_events(events@, version),
        r.conflicted@ == conflicted_of(
            leveled_events(events@, version),
            head_states(indexed(events@), strings_view(heads@)),
            version,
        ),
        r.state@ == resolved_state(
            unconflicted_of(head_states(indexed(events@), strings_view(heads@))),
            r.conflicted@,
            version,
        ),
{
    let map = index_events(events);
    let creator = room_creator(events);
    let states = states_at(&map, heads);
    let power = power_events(&map, &creator);
    let power_state = resolve_lean(StateMap::new(), power, version);
    let pl_key = owned("m.room.power_levels");
    let empty = String::new();
    let pl_event = match power_state.get(&pl_key, &empty) {
        Some(id) => map.get(id.as_str()),
        None => None,
    };
    let leveled_map = assign_levels(&map, pl_event);
    let (unconflicted, conflicted) = split_states(&states, &leveled_map, version);
    let state = resolve_lean(unconflicted, conflicted.clone(), version);
    RoomResolution { state, events: leveled_map, conflicted }
}

/// Why the input could not be read as events and heads.
#[derive(Debug, Clone, Copy, PartialEq, Eq, Structural)]
pub enum InputError {
    /// The object's `events` member is not an array.
    EventsNotArray,
    /// The object's `heads` member is not an array.
    HeadsNotArray,
    /// A member of `heads` is not a string.
    HeadNotString,
    /// The input is neither an object nor an array.
    UnexpectedFormat,
}

/// The text of an input error.
pub open spec fn input_error_text(e: InputError) -> Seq<char> {
    match e {
        InputError::EventsNotArray => "'events' field must be a JSON array"@,
        InputError::HeadsNotArray => "'heads' field must be a JSON array"@,
        InputError::HeadNotString => "each 'head' must be a string"@,
        InputError::UnexpectedFormat => "Unexpected JSON format"@,
    }
}

impl InputError {
    /// The error's message.
    pub fn message(&self) -> (r: String)
        ensures
            r@ == input_error_text(*self),
    {
        match self {
            InputError::EventsNotArray => owned("'events' field must be a JSON array"),
            InputError::HeadsNotArray => owned("'heads' field must be a JSON array"),
            InputError::HeadNotString => owned("each 'head' must be a string"),
            InputError::UnexpectedFormat => owned("Unexpected JSON format"),
        }
    }
}

/// Whether every item is a string.
pub open spec fn all_strings(items: Seq<JsonView>) -> bool {
    forall|i: int| 0 <= i < items.len() ==> (#[trigger] items[i]).as_str() is Some
}

/// The texts of items that are all strings.
pub open spec fn texts_of(items: Seq<JsonView>) -> Seq<Seq<char>> {
    items.map_values(|x: JsonView| x.as_str().unwrap())
}

/// The events and heads that an input holds: an object with both `events`
/// (an array of events) and `heads` (an array of event ids); any other
/// object, taken as one event; or an array of events, without heads.
pub open spec fn input_parts(v: JsonView) -> Result<(Seq<JsonView>, Seq<Seq<char>>), InputError> {
    match v {
        JsonView::Object(_) => {
            if v.get("events"@) is Some && v.get("heads"@) is Some {
                match v.get("events"@).unwrap() {
                    JsonView::Array(evs) => match v.get("heads"@).unwrap() {
                        JsonView::Array(hs) => if all_strings(hs) {
                            Ok((evs, texts_of(hs)))
                        } else {
                            Err(InputError::HeadNotString)
                        },
                        _ => Err(InputError::HeadsNotArray),
                    },
                    _ => Err(InputError::EventsNotArray),
                }
            } else {
                Ok((seq![v], Seq::empty()))
            }
        },
        JsonView::Array(items) => Ok((items, Seq::empty())),
        _ => Err(InputError::UnexpectedFormat),
    }
}

/// Copies of the items of an array.
fn clone_items(items: &Vec<JsonValue>) -> (r: Vec<JsonValue>)
    ensures
        items_view(r@) == items_view(items@),
{
    let mut out: Vec<JsonValue> = Vec::new();
    let mut i: usize = 0;
    while i < items.len()
        invariant
            i <= items.len(),
            items_view(out@) == items_view(items@.take(i as int)),
        decreases items.len() - i,
    {
        let c = crate::event::clone_json(&items[i]);
        let ghost before = out@;
        out.push(c);
        assert(out@.drop_last() =~= before);
        assert(items@.take(i + 1).drop_last() =~= items@.take(i as int));
        i = i + 1;
    }
    assert(items@.take(i as int) =~= items@);
    out
}

/// Reads the input as events and heads (see `input_parts`).
pub fn split_input(input: &JsonValue) -> (r: Result<(Vec<JsonValue>, Vec<String>), InputError>)
    ensures
        match r {
            Ok((evs, hs)) => input_parts(input.view()) == Ok::<(Seq<JsonView>, Seq<Seq<char>>), InputError>(
                (items_view(evs@), strings_view(hs@)),
            ),
            Err(e) => input_parts(input.view()) == Err::<(Seq<JsonView>, Seq<Seq<char>>), InputError>(e),
        },
{
    match input {
        JsonValue::Object(_) => {
            let events_member = input.get("events");
            let heads_member = input.get("heads");
            if events_member.is_some() && heads_member.is_some() {
                let evs = match events_member.unwrap() {
                    JsonValue::Array(items) => clone_items(items),
                    _ => {
                        return Err(InputError::EventsNotArray);
                    },
                };
                let hs_items = match heads_member.unwrap() {
                    JsonValue::Array(items) => items,
                    _ => {
                        return Err(InputError::HeadsNotArray);
                    },
                };
                proof {
                    assert(input.view().get("events"@) == Some(events_member.unwrap().view()));
                    assert(input.view().get("heads"@) == Some(heads_member.unwrap().view()));
                    assert(heads_member.unwrap().view() == JsonView::Array(items_view(hs_items@)));
                    assert(events_member.unwrap().view() matches JsonView::Array(_));
                }
                let ghost hv = items_view(hs_items@);
                proof {
                    crate::event::lemma_items_view(hs_items@);
                }
                proof {
                    assert(input_parts(input.view()) == if all_strings(hv) {
                        Ok::<(Seq<JsonView>, Seq<Seq<char>>), InputError>((items_view(evs@), texts_of(hv)))
                    } else {
                        Err::<(Seq<JsonView>, Seq<Seq<char>>), InputError>(InputError::HeadNotString)
                    });
                }
                let mut hs: Vec<String> = Vec::new();
                let mut i: usize = 0;
                while i < hs_items.len()
                    invariant
                        i <= hs_items.len(),
                        input_parts(input.view()) == if all_strings(hv) {
                            Ok::<(Seq<JsonView>, Seq<Seq<char>>), InputError>((items_view(evs@), texts_of(hv)))
                        } else {
                            Err::<(Seq<JsonView>, Seq<Seq<char>>), InputError>(InputError::HeadNotString)
                        },
                        hv == items_view(hs_items@),
                        hv.len() == hs_items.len(),
                        forall|j: int| 0 <= j < hs_items.len() ==> #[trigger] hv[j] == hs_items@[j].view(),
                        all_strings(hv.take(i as int)),
                        strings_view(hs@) == texts_of(hv.take(i as int)),
                    decreases hs_items.len() - i,
                {
                    match hs_items[i].as_str() {
                        Some(h) => {
                            let ghost before = hs@;
                            hs.push(h.clone());
                            proof {
                                assert(hv.take(i + 1) =~= hv.take(i as int).push(hv[i as int]));
                                assert(strings_view(hs@) =~= strings_view(before).push(h@));
                                assert(texts_of(hv.take(i + 1)) =~= texts_of(hv.take(i as int)).push(h@));
                                assert forall|j: int| 0 <= j < i + 1 implies (#[trigger] hv.take(i + 1)[j]).as_str() is Some by {
                                    if j < i {
                                        assert(hv.take(i + 1)[j] == hv.take(i as int)[j]);
                                    }
                                }
                            }
                        },
                        None => {
                            proof {
                                assert(!all_strings(hv)) by {
                                    assert(hv[i as int].as_str() is None);
                                }
                            }
                            return Err(InputError::HeadNotString);
                        },
                    }
                    i = i + 1;
                }
                assert(hv.take(i as int) =~= hv);
                Ok((evs, hs))
            } else {
                let mut evs: Vec<JsonValue> = Vec::new();
                evs.push(crate::event::clone_json(input));
                assert(items_view(evs@) =~= seq![input.view()]) by {
                    crate::event::lemma_items_view(evs@);
                }
                let hs: Vec<String> = Vec::new();
                assert(strings_view(hs@) =~= Seq::<Seq<char>>::empty());
                Ok((evs, hs))
            }
        },
        JsonValue::Array(items) => {
            let evs = clone_items(items);
            let hs: Vec<String> = Vec::new();
            assert(strings_view(hs@) =~= Seq::<Seq<char>>::empty());
            Ok((evs, hs))
        },
        _ => Err(InputError::UnexpectedFormat),
    }
}

/// Resolving with a single state (no heads, or one head) under V1 or V2
/// conflicts nothing and gives back that state.
pub proof fn lemma_single_state_resolves_to_itself(
    m: Map<Seq<char>, EventView>,
    state: Map<KeyView, Seq<char>>,
    version: StateResVersion,
)
    requires
        version != StateResVersion::V2_1,
    ensures
        conflicted_of(m, seq![state], version) == Map::<Seq<char>, EventView>::empty(),
        unconflicted_of(seq![state]) == state,
        resolved_state(unconflicted_of(seq![state]), conflicted_of(m, seq![state], version), version) == state,
{
    let states = seq![state];
    assert forall|k: KeyView| agreed(states, k) <==> state.dom().contains(k) by {
        if state.dom().contains(k) {
            assert forall|t: int| 0 <= t < states.len() implies #[trigger] states[t].dom().contains(k)
                && states[t][k] == states[0][k] by {
                assert(t == 0);
            }
        }
        if agreed(states, k) {
            assert(states[0].dom().contains(k));
        }
    }
    assert(unconflicted_of(states) =~= state);
    assert forall|id: Seq<char>| !is_conflicted(states, version, id) by {
        if is_conflicted(states, version, id) {
            let (t, k) = choose|t: int, k: KeyView|
                0 <= t < states.len() && #[trigger] states[t].dom().contains(k) && states[t][k] == id && (!agreed(
                    states,
                    k,
                ) || version == StateResVersion::V2_1);
            assert(t == 0);
            assert(agreed(states, k));
        }
    }
    let c = conflicted_of(m, states, version);
    assert(c =~= Map::<Seq<char>, EventView>::empty());
    assert(keyed_by_id(c));
    crate::kahn::lemma_kahn_order_characterized(c, version);
    let order = crate::kahn::kahn_order(c, version);
    if order.len() > 0 {
        assert(c.dom().contains(order[0]));
    }
    assert(crate::resolve::resolution_order(c, version).len() == 0);
}

/// Under V2.1 every event that some state holds is conflicted, when the
/// room has it: the unconflicted events are sorted with the conflicted
/// ones.
pub proof fn lemma_v2_1_conflicts_every_state_event(
    m: Map<Seq<char>, EventView>,
    states: Seq<Map<KeyView, Seq<char>>>,
    t: int,
    k: KeyView,
)
    requires
        0 <= t < states.len(),
        states[t].dom().contains(k),
        m.dom().contains(states[t][k]),
    ensures
        conflicted_of(m, states, StateResVersion::V2_1).dom().contains(states[t][k]),
        conflicted_of(m, states, StateResVersion::V2_1)[states[t][k]] == m[states[t][k]],
{
    assert(is_conflicted(states, StateResVersion::V2_1, states[t][k]));
}

/// A slot on which the states disagree is conflicted: every event that a
/// state holds in it, when the room has it, is conflicted.
pub proof fn lemma_disagreement_conflicts(
    m: Map<Seq<char>, EventView>,
    states: Seq<Map<KeyView, Seq<char>>>,
    version: StateResVersion,
    t: int,
    k: KeyView,
)
    requires
        0 <= t < states.len(),
        states[t].dom().contains(k),
        m.dom().contains(states[t][k]),
        !agreed(states, k),
    ensures
        conflicted_of(m, states, version).dom().contains(states[t][k]),
        !unconflicted_of(states).dom().contains(k),
{
    assert(is_conflicted(states, version, states[t][k]));
}

/// With distinct ids, indexing holds each event under its own id.
pub proof fn lemma_indexed_distinct(events: Seq<LeanEvent>)
    requires
        ids_of(events).no_duplicates(),
    ensures
        indexed(events).dom() == ids_of(events).to_set(),
        forall|i: int| 0 <= i < events.len() ==> #[trigger] indexed(events)[events[i].event_id@] == events[i]@,
    decreases events.len(),
{
    if events.len() > 0 {
        let init = events.drop_last();
        let n = events.len() - 1;
        assert(ids_of(init) =~= ids_of(events).drop_last());
        assert(ids_of(init).no_duplicates()) by {
            assert forall|i: int, j: int| 0 <= i < ids_of(init).len() && 0 <= j < ids_of(init).len() && i != j implies ids_of(
                init,
            )[i] != ids_of(init)[j] by {
                assert(ids_of(init)[i] == ids_of(events)[i]);
                assert(ids_of(init)[j] == ids_of(events)[j]);
            }
        }
        lemma_indexed_distinct(init);
        let last = events.last();
        assert(ids_of(events)[n] == last.event_id@);
        assert(indexed(events).dom() =~= ids_of(events).to_set()) by {
            assert forall|k: Seq<char>| indexed(events).dom().contains(k) <==> ids_of(events).to_set().contains(k) by {
                if ids_of(init).to_set().contains(k) {
                    let j = choose|j: int| 0 <= j < ids_of(init).len() && ids_of(init)[j] == k;
                    assert(ids_of(events)[j] == k);
                }
                if ids_of(events).to_set().contains(k) && k != last.event_id@ {
                    let j = choose|j: int| 0 <= j < ids_of(events).len() && ids_of(events)[j] == k;
                    assert(j != n);
                    assert(ids_of(init)[j] == k);
                }
            }
        }
        assert forall|i: int| 0 <= i < events.len() implies #[trigger] indexed(events)[events[i].event_id@]
            == events[i]@ by {
            if i < n {
                assert(init[i] == events[i]);
                assert(ids_of(events)[i] != ids_of(events)[n]);
                assert(indexed(init)[init[i].event_id@] == init[i]@);
            }
        }
    }
}

/// The views of a list of events, in order.
pub open spec fn views_of(events: Seq<LeanEvent>) -> Seq<EventView> {
    events.map_values(|e: LeanEvent| e@)
}

/// The events of a list, by view.
pub open spec fn event_views(events: Seq<LeanEvent>) -> Set<EventView> {
    views_of(events).to_set()
}

/// Indexing does not depend on the order in which events arrive, when
/// their ids are distinct.
pub proof fn lemma_indexing_arrival_order_independent(a: Seq<LeanEvent>, b: Seq<LeanEvent>)
    requires
        ids_of(a).no_duplicates(),
        ids_of(b).no_duplicates(),
        event_views(a) == event_views(b),
    ensures
        indexed(a) == indexed(b),
{
    lemma_indexed_distinct(a);
    lemma_indexed_distinct(b);
    assert forall|k: Seq<char>| #[trigger] indexed(a).dom().contains(k) implies indexed(b).dom().contains(k)
        && indexed(a)[k] == indexed(b)[k] by {
        let i = choose|i: int| 0 <= i < ids_of(a).len() && ids_of(a)[i] == k;
        assert(views_of(a)[i] == a[i]@);
        assert(event_views(b).contains(a[i]@));
        let j = choose|j: int| 0 <= j < views_of(b).len() && #[trigger] views_of(b)[j] == a[i]@;
        assert(b[j]@ == a[i]@);
        assert(ids_of(b)[j] == k);
    }
    assert forall|k: Seq<char>| #[trigger] indexed(b).dom().contains(k) implies indexed(a).dom().contains(k) by {
        let j = choose|j: int| 0 <= j < ids_of(b).len() && ids_of(b)[j] == k;
        assert(views_of(b)[j] == b[j]@);
        assert(event_views(a).contains(b[j]@));
        let i = choose|i: int| 0 <= i < views_of(a).len() && #[trigger] views_of(a)[i] == b[j]@;
        assert(a[i]@ == b[j]@);
        assert(ids_of(a)[i] == k);
    }
    assert(indexed(a) =~= indexed(b));
}

/// Resolving a room does not depend on the order in which its events
/// arrive, when their ids are distinct and both orders name the same
/// creator (the sender of the last create event).
pub proof fn lemma_room_resolution_arrival_order_independent(
    a: Seq<LeanEvent>,
    b: Seq<LeanEvent>,
    heads: Seq<Seq<char>>,
    version: StateResVersion,
)
    requires
        ids_of(a).no_duplicates(),
        ids_of(b).no_duplicates(),
        event_views(a) == event_views(b),
        creator_of(a) == creator_of(b),
    ensures
        leveled_events(a, version) == leveled_events(b, version),
        head_states(indexed(a), heads) == head_states(indexed(b), heads),
        resolved_state(
            unconflicted_of(head_states(indexed(a), heads)),
            conflicted_of(leveled_events(a, version), head_states(indexed(a), heads), version),
            version,
        ) == resolved_state(
            unconflicted_of(head_states(indexed(b), heads)),
            conflicted_of(leveled_events(b, version), head_states(indexed(b), heads), version),
            version,
        ),
{
    lemma_indexing_arrival_order_independent(a, b);
}

} // verus!
