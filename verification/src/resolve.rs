//! State resolution: replaying the sorted conflicted events over a base
//! state, the later event winning each `(type, state_key)` slot.
use crate::event::{strings_view, EventView, StateResVersion};
use crate::event_map::{keyed_by_id, EventMap};
use crate::kahn::{kahn_order, lean_kahn_sort};
use crate::state_map::{KeyView, StateMap};
use vstd::prelude::*;

verus! {

/// The state slot an event fills.
pub open spec fn slot_key(e: EventView) -> KeyView {
    (e.event_type, e.state_key)
}

/// `base` with the events `ids` of `m` applied in order, each recording its
/// id under its slot.
pub open spec fn apply_events(
    base: Map<KeyView, Seq<char>>,
    m: Map<Seq<char>, EventView>,
    ids: Seq<Seq<char>>,
) -> Map<KeyView, Seq<char>>
    decreases ids.len(),
{
    if ids.len() == 0 {
        base
    } else {
        let prev = apply_events(base, m, ids.drop_last());
        if m.dom().contains(ids.last()) {
            prev.insert(slot_key(m[ids.last()]), m[ids.last()].event_id)
        } else {
            prev
        }
    }
}

/// The ids that the sort hands to resolution: the full order, or nothing
/// when a cycle stops the sort.
pub open spec fn resolution_order(m: Map<Seq<char>, EventView>, version: StateResVersion) -> Seq<
    Seq<char>,
> {
    if kahn_order(m, version).len() == m.dom().len() {
        kahn_order(m, version)
    } else {
        Seq::empty()
    }
}

/// The state that resolution produces.
pub open spec fn resolved_state(
    unconflicted: Map<KeyView, Seq<char>>,
    conflicted: Map<Seq<char>, EventView>,
    version: StateResVersion,
) -> Map<KeyView, Seq<char>> {
    let base = match version {
        StateResVersion::V2_1 => Map::empty(),
        _ => unconflicted,
    };
    apply_events(base, conflicted, resolution_order(conflicted, version))
}

/// Resolves the state: sorts the conflicted events and applies them in
/// order over the unconflicted state (V1, V2) or over an empty state
/// (V2.1, where the unconflicted events are expected among the conflicted
/// ones and are sorted together with them).
pub fn resolve_lean(
    unconflicted_state: StateMap<String>,
    conflicted_events: EventMap,
    version: StateResVersion,
) -> (r: StateMap<String>)
    ensures
        r@ == resolved_state(unconflicted_state@, conflicted_events@, version),
{
    let mut resolved = match version {
        StateResVersion::V2_1 => StateMap::new(),
        _ => unconflicted_state,
    };
    let ghost base = resolved@;
    let sorted_ids = lean_kahn_sort(&conflicted_events, version);
    let ghost ids = strings_view(sorted_ids@);
    let mut i: usize = 0;
    while i < sorted_ids.len()
        invariant
            i <= sorted_ids.len(),
            ids == strings_view(sorted_ids@),
            resolved@ == apply_events(base, conflicted_events@, ids.take(i as int)),
        decreases sorted_ids.len() - i,
    {
        proof {
            assert(ids.take(i + 1).drop_last() =~= ids.take(i as int));
            assert(ids.take(i + 1).last() == sorted_ids@[i as int]@);
        }
        match conflicted_events.get(sorted_ids[i].as_str()) {
            Some(event) => {
                resolved.insert(
                    event.event_type.clone(),
                    event.state_key.clone(),
                    event.event_id.clone(),
                );
            },
            None => {},
        }
        i = i + 1;
    }
    assert(ids.take(i as int) =~= ids);
    resolved
}

/// The last position in `ids` of a present event filling `slot`, or -1.
pub open spec fn last_filler(m: Map<Seq<char>, EventView>, ids: Seq<Seq<char>>, slot: KeyView) -> int
    decreases ids.len(),
{
    if ids.len() == 0 {
        -1
    } else if m.dom().contains(ids.last()) && slot_key(m[ids.last()]) == slot {
        ids.len() - 1
    } else {
        last_filler(m, ids.drop_last(), slot)
    }
}

/// Each slot ends up holding the last applied event that fills it; a slot
/// that no applied event fills keeps its base value.
pub proof fn lemma_last_event_wins(
    base: Map<KeyView, Seq<char>>,
    m: Map<Seq<char>, EventView>,
    ids: Seq<Seq<char>>,
    slot: KeyView,
)
    requires
        keyed_by_id(m),
    ensures
        last_filler(m, ids, slot) >= 0 ==> {
            &&& last_filler(m, ids, slot) < ids.len()
            &&& apply_events(base, m, ids).dom().contains(slot)
            &&& apply_events(base, m, ids)[slot] == ids[last_filler(m, ids, slot)]
        },
        last_filler(m, ids, slot) < 0 ==> {
            &&& apply_events(base, m, ids).dom().contains(slot) == base.dom().contains(slot)
            &&& apply_events(base, m, ids)[slot] == base[slot]
        },
    decreases ids.len(),
{
    if ids.len() > 0 {
        lemma_last_event_wins(base, m, ids.drop_last(), slot);
        let l = last_filler(m, ids.drop_last(), slot);
        if l >= 0 {
            assert(ids.drop_last()[l] == ids[l]);
        }
    }
}

/// The last position of a present event filling `slot` is the position
/// after which no present event fills it.
proof fn lemma_last_filler_at(m: Map<Seq<char>, EventView>, ids: Seq<Seq<char>>, slot: KeyView, i: int)
    requires
        0 <= i < ids.len(),
        m.dom().contains(ids[i]),
        slot_key(m[ids[i]]) == slot,
        forall|j: int| i < j < ids.len() && m.dom().contains(#[trigger] ids[j]) ==> slot_key(m[ids[j]]) != slot,
    ensures
        last_filler(m, ids, slot) == i,
    decreases ids.len(),
{
    if i < ids.len() - 1 {
        assert(m.dom().contains(ids.last()) ==> slot_key(m[ids[ids.len() - 1]]) != slot);
        lemma_last_filler_at(m, ids.drop_last(), slot, i);
    }
}

/// No position is found for a slot that no present event fills.
proof fn lemma_last_filler_none(m: Map<Seq<char>, EventView>, ids: Seq<Seq<char>>, slot: KeyView)
    requires
        forall|j: int| 0 <= j < ids.len() && m.dom().contains(#[trigger] ids[j]) ==> slot_key(m[ids[j]]) != slot,
    ensures
        last_filler(m, ids, slot) < 0,
    decreases ids.len(),
{
    if ids.len() > 0 {
        assert(m.dom().contains(ids.last()) ==> slot_key(m[ids[ids.len() - 1]]) != slot);
        lemma_last_filler_none(m, ids.drop_last(), slot);
    }
}

/// Resolution keeps, in each slot, the last event of the sort order that
/// fills it: when the sort lists every event, an event at position `i` of
/// the order that fills `slot`, with no later event of the order filling
/// it, is what the resolved state holds there, for every version.
pub proof fn lemma_resolution_last_sorted_wins(
    unconflicted: Map<KeyView, Seq<char>>,
    m: Map<Seq<char>, EventView>,
    version: StateResVersion,
    slot: KeyView,
    i: int,
)
    requires
        keyed_by_id(m),
        kahn_order(m, version).len() == m.dom().len(),
        0 <= i < kahn_order(m, version).len(),
        slot_key(m[kahn_order(m, version)[i]]) == slot,
        forall|j: int|
            i < j < kahn_order(m, version).len() ==> slot_key(m[#[trigger] kahn_order(m, version)[j]])
                != slot,
    ensures
        resolved_state(unconflicted, m, version).dom().contains(slot),
        resolved_state(unconflicted, m, version)[slot] == kahn_order(m, version)[i],
{
    let order = kahn_order(m, version);
    crate::kahn::lemma_kahn_order_characterized(m, version);
    let base = match version {
        StateResVersion::V2_1 => Map::empty(),
        _ => unconflicted,
    };
    assert(m.dom().contains(order[i]));
    lemma_last_filler_at(m, order, slot, i);
    lemma_last_event_wins(base, m, order, slot);
}

/// A slot that no sorted event fills keeps its base value: the unconflicted
/// state's under V1 and V2, nothing under V2.1. When a cycle stops the sort,
/// the whole base comes back unchanged.
pub proof fn lemma_resolution_unfilled_slot(
    unconflicted: Map<KeyView, Seq<char>>,
    m: Map<Seq<char>, EventView>,
    version: StateResVersion,
    slot: KeyView,
)
    requires
        keyed_by_id(m),
        forall|j: int|
            0 <= j < kahn_order(m, version).len() ==> slot_key(m[#[trigger] kahn_order(m, version)[j]])
                != slot,
    ensures
        version == StateResVersion::V2_1 ==> !resolved_state(unconflicted, m, version).dom().contains(slot),
        version != StateResVersion::V2_1 ==> {
            &&& resolved_state(unconflicted, m, version).dom().contains(slot) == unconflicted.dom().contains(slot)
            &&& resolved_state(unconflicted, m, version)[slot] == unconflicted[slot]
        },
        kahn_order(m, version).len() != m.dom().len() ==> resolved_state(unconflicted, m, version) == match version {
            StateResVersion::V2_1 => Map::<KeyView, Seq<char>>::empty(),
            _ => unconflicted,
        },
{
    let order = resolution_order(m, version);
    let base = match version {
        StateResVersion::V2_1 => Map::empty(),
        _ => unconflicted,
    };
    assert forall|j: int| 0 <= j < order.len() && m.dom().contains(#[trigger] order[j]) implies slot_key(m[order[j]]) != slot by {
        assert(order[j] == kahn_order(m, version)[j]);
    }
    lemma_last_filler_none(m, order, slot);
    lemma_last_event_wins(base, m, order, slot);
}

} // verus!
