//! Kahn's topological sort of events along their auth edges, processing the
//! ready events in the version's tie-break order.
use crate::event::{strings_view, EventView, KahnSortResult, LeanEvent, StateResVersion};
use crate::event_map::{ids_of, keyed_by_id, EventMap};
use crate::auth_chain::auth_walk;
use crate::text::{chars_lt, chars_of, lemma_lex_irreflexive, lemma_lex_total, lemma_lex_transitive, lex_lt};
use vstd::prelude::*;

verus! {

/// Whether `a` is processed before `b` when both are ready.
///
/// V1: lower depth first, then the lexicographically smaller id.
/// V2 and V2.1: lower power level first, then the later timestamp, then the
/// lexicographically larger id; the best event (highest power, earliest,
/// smallest id) thus comes last and overrides the others.
pub open spec fn outranks(a: EventView, b: EventView, version: StateResVersion) -> bool {
    match version {
        StateResVersion::V1 => a.depth < b.depth || (a.depth == b.depth && lex_lt(
            a.event_id,
            b.event_id,
        )),
        _ => a.power_level < b.power_level || (a.power_level == b.power_level && (
        a.origin_server_ts > b.origin_server_ts || (a.origin_server_ts == b.origin_server_ts
            && lex_lt(b.event_id, a.event_id)))),
    }
}

/// An event is ready once every auth event of it that is present in `m` has
/// been processed (its in-degree has dropped to zero).
pub open spec fn ready(m: Map<Seq<char>, EventView>, done: Seq<Seq<char>>, k: Seq<char>) -> bool {
    &&& m.dom().contains(k)
    &&& !done.contains(k)
    &&& forall|t: int|
        0 <= t < m[k].auth_events.len() && m.dom().contains(#[trigger] m[k].auth_events[t])
            ==> done.contains(m[k].auth_events[t])
}

/// `k` is the ready event that outranks every other ready event.
pub open spec fn is_next(
    m: Map<Seq<char>, EventView>,
    version: StateResVersion,
    done: Seq<Seq<char>>,
    k: Seq<char>,
) -> bool {
    &&& ready(m, done, k)
    &&& forall|k2: Seq<char>| #[trigger] ready(m, done, k2) && k2 != k ==> outranks(m[k], m[k2], version)
}

/// The event processed after the events in `done`, if any is ready.
pub open spec fn next_pick(
    m: Map<Seq<char>, EventView>,
    version: StateResVersion,
    done: Seq<Seq<char>>,
) -> Option<Seq<char>> {
    if exists|k: Seq<char>| is_next(m, version, done, k) {
        Some(choose|k: Seq<char>| is_next(m, version, done, k))
    } else {
        None
    }
}

/// The ids processed in the first `n` rounds of the sort.
pub open spec fn kahn_prefix(m: Map<Seq<char>, EventView>, version: StateResVersion, n: nat) -> Seq<
    Seq<char>,
>
    decreases n,
{
    if n == 0 {
        Seq::empty()
    } else {
        let p = kahn_prefix(m, version, (n - 1) as nat);
        match next_pick(m, version, p) {
            Some(k) => p.push(k),
            None => p,
        }
    }
}

/// The order in which Kahn's algorithm processes the events of `m`: the
/// events that ever become ready, each taken when it is the best ready one.
pub open spec fn kahn_order(m: Map<Seq<char>, EventView>, version: StateResVersion) -> Seq<
    Seq<char>,
> {
    kahn_prefix(m, version, m.dom().len())
}

/// No two events outrank each other.
pub proof fn lemma_outranks_asymmetric(a: EventView, b: EventView, version: StateResVersion)
    ensures
        !(outranks(a, b, version) && outranks(b, a, version)),
{
    lemma_lex_total(a.event_id, b.event_id);
}

/// Of two events with different ids, one outranks the other.
pub proof fn lemma_outranks_total(a: EventView, b: EventView, version: StateResVersion)
    requires
        a.event_id != b.event_id,
    ensures
        outranks(a, b, version) || outranks(b, a, version),
{
    lemma_lex_total(a.event_id, b.event_id);
}

/// Outranking is transitive.
pub proof fn lemma_outranks_transitive(
    a: EventView,
    b: EventView,
    c: EventView,
    version: StateResVersion,
)
    requires
        outranks(a, b, version),
        outranks(b, c, version),
    ensures
        outranks(a, c, version),
{
    if lex_lt(a.event_id, b.event_id) && lex_lt(b.event_id, c.event_id) {
        lemma_lex_transitive(a.event_id, b.event_id, c.event_id);
    }
    if lex_lt(c.event_id, b.event_id) && lex_lt(b.event_id, a.event_id) {
        lemma_lex_transitive(c.event_id, b.event_id, a.event_id);
    }
}

/// No event outranks itself.
pub proof fn lemma_outranks_irreflexive(a: EventView, version: StateResVersion)
    ensures
        !outranks(a, a, version),
{
    lemma_lex_irreflexive(a.event_id);
}

/// Under V2 and V2.1 the lower power level goes first; at equal power the
/// later timestamp goes first; at equal power and timestamp the
/// lexicographically larger id goes first. Nothing else is read: two pairs
/// of events that agree on power level, timestamp and id are ordered alike,
/// whatever their depths.
pub proof fn lemma_v2_tie_break(a: EventView, b: EventView, a2: EventView, b2: EventView, version: StateResVersion)
    requires
        version != StateResVersion::V1,
    ensures
        a.power_level < b.power_level ==> outranks(a, b, version),
        a.power_level == b.power_level && a.origin_server_ts > b.origin_server_ts ==> outranks(a, b, version),
        a.power_level == b.power_level && a.origin_server_ts == b.origin_server_ts ==> (outranks(a, b, version)
            <==> lex_lt(b.event_id, a.event_id)),
        a.power_level == a2.power_level && a.origin_server_ts == a2.origin_server_ts && a.event_id
            == a2.event_id && b.power_level == b2.power_level && b.origin_server_ts == b2.origin_server_ts
            && b.event_id == b2.event_id ==> outranks(a, b, version) == outranks(a2, b2, version),
{
}

/// Under V1 the lower depth goes first, and at equal depth the
/// lexicographically smaller id. Nothing else is read: two pairs of events
/// that agree on depth and id are ordered alike.
pub proof fn lemma_v1_tie_break(a: EventView, b: EventView, a2: EventView, b2: EventView)
    ensures
        a.depth < b.depth ==> outranks(a, b, StateResVersion::V1),
        a.depth == b.depth ==> (outranks(a, b, StateResVersion::V1) <==> lex_lt(a.event_id, b.event_id)),
        a.depth == a2.depth && a.event_id == a2.event_id && b.depth == b2.depth && b.event_id
            == b2.event_id ==> outranks(a, b, StateResVersion::V1) == outranks(a2, b2, StateResVersion::V1),
{
}

/// At most one event is the next one.
proof fn lemma_next_unique(
    m: Map<Seq<char>, EventView>,
    version: StateResVersion,
    done: Seq<Seq<char>>,
    k1: Seq<char>,
    k2: Seq<char>,
)
    requires
        is_next(m, version, done, k1),
        is_next(m, version, done, k2),
    ensures
        k1 == k2,
{
    if k1 != k2 {
        assert(ready(m, done, k2));
        assert(ready(m, done, k1));
        lemma_outranks_asymmetric(m[k1], m[k2], version);
    }
}

/// The prefixes grow one event per round while events are ready, hold no
/// repetition and only ids of `m`.
pub proof fn lemma_prefix_shape(m: Map<Seq<char>, EventView>, version: StateResVersion, n: nat)
    ensures
        kahn_prefix(m, version, n).len() <= n,
        kahn_prefix(m, version, n).no_duplicates(),
        forall|i: int|
            0 <= i < kahn_prefix(m, version, n).len() ==> m.dom().contains(
                #[trigger] kahn_prefix(m, version, n)[i],
            ),
    decreases n,
{
    if n > 0 {
        let p = kahn_prefix(m, version, (n - 1) as nat);
        lemma_prefix_shape(m, version, (n - 1) as nat);
        if let Some(k) = next_pick(m, version, p) {
            let k0 = choose|k: Seq<char>| is_next(m, version, p, k);
            assert(is_next(m, version, p, k0));
            assert(k == k0);
            assert(ready(m, p, k));
            assert(p.push(k)[p.len() as int] == k);
        }
    }
}

/// Once no event is ready the order stops growing.
pub proof fn lemma_prefix_stops(m: Map<Seq<char>, EventView>, version: StateResVersion, r: nat, n: nat)
    requires
        r <= n,
        next_pick(m, version, kahn_prefix(m, version, r)) is None,
    ensures
        kahn_prefix(m, version, n) == kahn_prefix(m, version, r),
    decreases n - r,
{
    if n > r {
        lemma_prefix_stops(m, version, r, (n - 1) as nat);
    }
}

/// A prefix shorter than its number of rounds has stopped growing.
proof fn lemma_prefix_short(m: Map<Seq<char>, EventView>, version: StateResVersion, n: nat)
    requires
        kahn_prefix(m, version, n).len() < n,
    ensures
        next_pick(m, version, kahn_prefix(m, version, n)) is None,
    decreases n,
{
    let p = kahn_prefix(m, version, (n - 1) as nat);
    lemma_prefix_shape(m, version, (n - 1) as nat);
    if next_pick(m, version, p) is None {
    } else {
        if p.len() < n - 1 {
            lemma_prefix_short(m, version, (n - 1) as nat);
        }
    }
}

/// A sequence without repetition drawn from a finite set is no longer than
/// the set.
proof fn lemma_distinct_within(s: Seq<Seq<char>>, dom: Set<Seq<char>>)
    requires
        s.no_duplicates(),
        dom.finite(),
        forall|i: int| 0 <= i < s.len() ==> dom.contains(#[trigger] s[i]),
    ensures
        s.len() <= dom.len(),
{
    s.unique_seq_to_set();
    assert(s.to_set().subset_of(dom));
    vstd::set_lib::lemma_len_subset(s.to_set(), dom);
}

/// Whether event `a` (with id characters `a_id`) outranks event `b`.
fn outranks_exec(
    a: &LeanEvent,
    a_id: &Vec<char>,
    b: &LeanEvent,
    b_id: &Vec<char>,
    version: StateResVersion,
) -> (r: bool)
    requires
        a_id@ == a.event_id@,
        b_id@ == b.event_id@,
    ensures
        r == outranks(a@, b@, version),
{
    match version {
        StateResVersion::V1 => a.depth < b.depth || (a.depth == b.depth && chars_lt(a_id, b_id)),
        _ => a.power_level < b.power_level || (a.power_level == b.power_level && (
        a.origin_server_ts > b.origin_server_ts || (a.origin_server_ts == b.origin_server_ts
            && chars_lt(b_id, a_id)))),
    }
}

/// The positions of the auth events of `e` among `events`: `Some(p)` when
/// the auth event is `events[p]`, `None` when it is absent.
pub open spec fn parent_slots(
    events: Seq<LeanEvent>,
    m: Map<Seq<char>, EventView>,
    e: EventView,
    ps: Seq<Option<usize>>,
) -> bool {
    &&& ps.len() == e.auth_events.len()
    &&& forall|t: int|
        0 <= t < ps.len() ==> match #[trigger] ps[t] {
            Some(p) => p < events.len() && events[p as int].event_id@ == e.auth_events[t],
            None => !m.dom().contains(e.auth_events[t]),
        }
}

/// Whether every present parent is already processed.
fn parents_done(ps: &Vec<Option<usize>>, popped: &Vec<bool>) -> (r: bool)
    requires
        forall|t: int| 0 <= t < ps.len() ==> (#[trigger] ps@[t] matches Some(p) ==> p < popped.len()),
    ensures
        r == forall|t: int| 0 <= t < ps.len() ==> (#[trigger] ps@[t] matches Some(p) ==> popped@[p as int]),
{
    let mut t: usize = 0;
    while t < ps.len()
        invariant
            t <= ps.len(),
            forall|u: int| 0 <= u < ps.len() ==> (#[trigger] ps@[u] matches Some(p) ==> p < popped.len()),
            forall|u: int| 0 <= u < t ==> (#[trigger] ps@[u] matches Some(p) ==> popped@[p as int]),
        decreases ps.len() - t,
    {
        match ps[t] {
            Some(p) => {
                if !popped[p] {
                    return false;
                }
            },
            None => {},
        }
        t = t + 1;
    }
    true
}

/// Kahn's Topological Sort with full diagnostic output.
/// Returns a `KahnSortResult` that distinguishes between successful sorts
/// and cycle detection, providing the stuck set for debugging.
pub fn lean_kahn_sort_detailed(events: &EventMap, version: StateResVersion) -> (r: KahnSortResult)
    ensures
        match r {
            KahnSortResult::Sorted(v) => {
                &&& strings_view(v@) == kahn_order(events@, version)
                &&& kahn_order(events@, version).len() == events@.dom().len()
            },
            KahnSortResult::CycleDetected { sorted, stuck } => {
                &&& strings_view(sorted@) == kahn_order(events@, version)
                &&& kahn_order(events@, version).len() < events@.dom().len()
                &&& strings_view(stuck@) == ids_of(events.entries()).filter(
                    |k: Seq<char>| !kahn_order(events@, version).contains(k),
                )
            },
        },
{
    events.lemma_entries();
    let evs = events.events();
    let n = evs.len();
    let ghost m = events@;
    let ghost ids = ids_of(evs@);

    // The characters of every id, for the tie-breaks.
    let mut idc: Vec<Vec<char>> = Vec::new();
    let mut i: usize = 0;
    while i < n
        invariant
            i <= n == evs.len(),
            idc@.len() == i,
            forall|j: int| 0 <= j < i ==> #[trigger] idc@[j]@ == evs@[j].event_id@,
        decreases n - i,
    {
        idc.push(chars_of(evs[i].event_id.as_str()));
        i = i + 1;
    }

    // The in-graph auth parents of every event.
    let mut parents: Vec<Vec<Option<usize>>> = Vec::new();
    let mut j: usize = 0;
    while j < n
        invariant
            j <= n == evs.len(),
            evs@ == events.entries(),
            m == events@,
            forall|x: int| 0 <= x < n ==> #[trigger] m[evs@[x].event_id@] == evs@[x]@,
            parents@.len() == j,
            forall|x: int|
                0 <= x < j ==> parent_slots(evs@, m, evs@[x]@, #[trigger] parents@[x]@),
        decreases n - j,
    {
        let auths = &evs[j].auth_events;
        let mut ps: Vec<Option<usize>> = Vec::new();
        let mut t: usize = 0;
        while t < auths.len()
            invariant
                t <= auths.len(),
                auths == evs@[j as int].auth_events,
                evs@ == events.entries(),
                m == events@,
                ps@.len() == t,
                forall|u: int|
                    0 <= u < t ==> match #[trigger] ps@[u] {
                        Some(p) => p < evs.len() && evs@[p as int].event_id@ == auths@[u]@,
                        None => !m.dom().contains(auths@[u]@),
                    },
            decreases auths.len() - t,
        {
            let slot = events.position(auths[t].as_str());
            ps.push(slot);
            t = t + 1;
        }
        proof {
            assert(parent_slots(evs@, m, evs@[j as int]@, ps@));
        }
        parents.push(ps);
        j = j + 1;
    }

    let mut popped: Vec<bool> = Vec::new();
    let mut i: usize = 0;
    while i < n
        invariant
            i <= n,
            popped@.len() == i,
            forall|x: int| 0 <= x < i ==> !#[trigger] popped@[x],
        decreases n - i,
    {
        popped.push(false);
        i = i + 1;
    }

    let mut result: Vec<String> = Vec::new();
    loop
        invariant_except_break
            n == evs.len(),
            evs@ == events.entries(),
            m == events@,
            ids == ids_of(evs@),
            ids.no_duplicates(),
            keyed_by_id(m),
            m.dom() == ids.to_set(),
            m.dom().len() == n,
            forall|x: int| 0 <= x < n ==> #[trigger] m[evs@[x].event_id@] == evs@[x]@,
            forall|x: int| 0 <= x < n ==> #[trigger] idc@[x]@ == evs@[x].event_id@,
            idc@.len() == n,
            parents@.len() == n,
            forall|x: int| 0 <= x < n ==> parent_slots(evs@, m, evs@[x]@, #[trigger] parents@[x]@),
            popped@.len() == n,
            forall|x: int|
                0 <= x < n ==> (#[trigger] popped@[x] <==> strings_view(result@).contains(
                    evs@[x].event_id@,
                )),
            strings_view(result@) == kahn_prefix(m, version, result.len() as nat),
            result.len() <= n,
        ensures
            strings_view(result@) == kahn_prefix(m, version, result.len() as nat),
            next_pick(m, version, strings_view(result@)) is None,
            result.len() <= n,
            forall|x: int|
                0 <= x < n ==> (#[trigger] popped@[x] <==> strings_view(result@).contains(
                    evs@[x].event_id@,
                )),
            popped@.len() == n,
        decreases n - result.len(),
    {
        let ghost done = strings_view(result@);
        let mut best: Option<usize> = None;
        let mut j: usize = 0;
        while j < n
            invariant
                j <= n == evs.len(),
                evs@ == events.entries(),
                m == events@,
                ids == ids_of(evs@),
                ids.no_duplicates(),
                keyed_by_id(m),
                m.dom() == ids.to_set(),
                forall|x: int| 0 <= x < n ==> #[trigger] m[evs@[x].event_id@] == evs@[x]@,
                forall|x: int| 0 <= x < n ==> #[trigger] idc@[x]@ == evs@[x].event_id@,
                idc@.len() == n,
                parents@.len() == n,
                forall|x: int| 0 <= x < n ==> parent_slots(evs@, m, evs@[x]@, #[trigger] parents@[x]@),
                popped@.len() == n,
                forall|x: int| 0 <= x < n ==> (#[trigger] popped@[x] <==> done.contains(evs@[x].event_id@)),
                match best {
                    Some(b) => {
                        &&& b < j
                        &&& ready(m, done, evs@[b as int].event_id@)
                        &&& forall|x: int|
                            0 <= x < j && #[trigger] ready(m, done, evs@[x].event_id@) && x != b
                                ==> outranks(evs@[b as int]@, evs@[x]@, version)
                    },
                    None => forall|x: int| 0 <= x < j ==> !#[trigger] ready(m, done, evs@[x].event_id@),
                },
            decreases n - j,
        {
            let ghost k = evs@[j as int].event_id@;
            proof {
                let ps = parents@[j as int]@;
                assert(parent_slots(evs@, m, evs@[j as int]@, ps));
                assert forall|t: int| 0 <= t < ps.len() implies (#[trigger] ps[t] matches Some(p) ==> p
                    < popped.len()) by {}
            }
            let is_ready = !popped[j] && parents_done(&parents[j], &popped);
            proof {
                let ps = parents@[j as int]@;
                let e = m[k];
                assert(e == evs@[j as int]@);
                assert(ids[j as int] == k);
                if is_ready {
                    assert forall|t: int|
                        0 <= t < e.auth_events.len() && m.dom().contains(
                            #[trigger] e.auth_events[t],
                        ) implies done.contains(e.auth_events[t]) by {
                        assert(ps[t] is Some);
                        let p = ps[t]->Some_0;
                        assert(popped@[p as int]);
                        assert(ids[p as int] == evs@[p as int].event_id@);
                    }
                    assert(ids.to_set().contains(k));
                    assert(ready(m, done, k));
                } else if !popped@[j as int] {
                    let t = choose|t: int|
                        0 <= t < ps.len() && !(#[trigger] ps[t] matches Some(p) ==> popped@[p as int]);
                    let p = ps[t]->Some_0;
                    assert(evs@[p as int].event_id@ == e.auth_events[t]);
                    assert(ids[p as int] == e.auth_events[t]);
                    assert(m.dom().contains(e.auth_events[t]));
                    assert(!done.contains(e.auth_events[t]));
                    assert(!ready(m, done, k));
                }
            }
            if is_ready {
                match best {
                    None => {
                        best = Some(j);
                    },
                    Some(b) => {
                        if outranks_exec(&evs[j], &idc[j], &evs[b], &idc[b], version) {
                            proof {
                                assert forall|x: int|
                                    0 <= x < j + 1 && #[trigger] ready(m, done, evs@[x].event_id@)
                                        && x != j implies outranks(
                                    evs@[j as int]@,
                                    evs@[x]@,
                                    version,
                                ) by {
                                    if x != b {
                                        lemma_outranks_transitive(
                                            evs@[j as int]@,
                                            evs@[b as int]@,
                                            evs@[x]@,
                                            version,
                                        );
                                    }
                                }
                            }
                            best = Some(j);
                        } else {
                            proof {
                                assert(ids[b as int] == evs@[b as int].event_id@);
                                assert(ids.no_duplicates());
                                lemma_outranks_total(evs@[j as int]@, evs@[b as int]@, version);
                            }
                        }
                    },
                }
            }
            j = j + 1;
        }
        match best {
            None => {
                proof {
                    assert forall|k: Seq<char>| !is_next(m, version, done, k) by {
                        if ready(m, done, k) {
                            assert(ids.to_set().contains(k));
                            let x = choose|x: int| 0 <= x < ids.len() && ids[x] == k;
                            assert(evs@[x].event_id@ == k);
                        }
                    }
                }
                break;
            },
            Some(b) => {
                let ghost kb = evs@[b as int].event_id@;
                proof {
                    assert forall|k2: Seq<char>| #[trigger] ready(m, done, k2) && k2 != kb implies outranks(
                        m[kb],
                        m[k2],
                        version,
                    ) by {
                        assert(ids.to_set().contains(k2));
                        let x = choose|x: int| 0 <= x < ids.len() && ids[x] == k2;
                        assert(evs@[x].event_id@ == k2);
                    }
                    assert(is_next(m, version, done, kb));
                    let c = choose|k: Seq<char>| is_next(m, version, done, k);
                    lemma_next_unique(m, version, done, c, kb);
                    assert(next_pick(m, version, done) == Some(kb));
                    lemma_prefix_shape(m, version, (result.len() + 1) as nat);
                    lemma_distinct_within(
                        kahn_prefix(m, version, (result.len() + 1) as nat),
                        m.dom(),
                    );
                }
                let ghost old_result = result@;
                let ghost old_popped = popped@;
                popped.set(b, true);
                result.push(evs[b].event_id.clone());
                proof {
                    assert(strings_view(result@) =~= strings_view(old_result).push(kb));
                    assert forall|x: int|
                        0 <= x < n implies (#[trigger] popped@[x] <==> strings_view(result@).contains(
                        evs@[x].event_id@,
                    )) by {
                        if x == b {
                            assert(strings_view(result@)[old_result.len() as int] == kb);
                        } else {
                            assert(ids[x] == evs@[x].event_id@);
                            assert(ids[b as int] == kb);
                            assert(popped@[x] == old_popped[x]);
                            assert(old_popped[x] <==> strings_view(old_result).contains(evs@[x].event_id@));
                            assert(evs@[x].event_id@ != kb);
                            if strings_view(result@).contains(evs@[x].event_id@) {
                                let y = choose|y: int|
                                    0 <= y < strings_view(result@).len() && strings_view(result@)[y]
                                        == evs@[x].event_id@;
                                if y < old_result.len() {
                                    assert(strings_view(old_result)[y] == evs@[x].event_id@);
                                }
                            }
                            if strings_view(old_result).contains(evs@[x].event_id@) {
                                let y = choose|y: int|
                                    0 <= y < strings_view(old_result).len() && strings_view(
                                        old_result,
                                    )[y] == evs@[x].event_id@;
                                assert(strings_view(result@)[y] == evs@[x].event_id@);
                            }
                        }
                    }
                }
            },
        }
    }

    let ghost order = kahn_order(m, version);
    proof {
        lemma_prefix_stops(m, version, result.len() as nat, n as nat);
    }
    if result.len() == n {
        KahnSortResult::Sorted(result)
    } else {
        let ghost pred = |k: Seq<char>| !order.contains(k);
        let mut stuck: Vec<String> = Vec::new();
        let mut x: usize = 0;
        while x < n
            invariant
                x <= n == evs.len(),
                ids == ids_of(evs@),
                popped@.len() == n,
                forall|y: int|
                    0 <= y < n ==> (#[trigger] popped@[y] <==> order.contains(evs@[y].event_id@)),
                strings_view(stuck@) == ids.take(x as int).filter(pred),
                pred == (|k: Seq<char>| !order.contains(k)),
            decreases n - x,
        {
            let ghost before = stuck@;
            proof {
                reveal_with_fuel(Seq::<_>::filter, 1);
                assert(ids.take(x + 1).drop_last() =~= ids.take(x as int));
                assert(ids[x as int] == evs@[x as int].event_id@);
            }
            proof {
                reveal_with_fuel(Seq::<_>::filter, 1);
                let t = ids.take(x + 1);
                assert(t.last() == ids[x as int]);
                assert(t.filter(pred) == if pred(t.last()) {
                    t.drop_last().filter(pred).push(t.last())
                } else {
                    t.drop_last().filter(pred)
                });
                assert(pred(ids[x as int]) == !popped@[x as int]);
            }
            if !popped[x] {
                stuck.push(evs[x].event_id.clone());
                assert(strings_view(stuck@) =~= strings_view(before).push(evs@[x as int].event_id@));
            } else {
                assert(strings_view(stuck@) =~= strings_view(before));
            }
            x = x + 1;
        }
        assert(ids.take(n as int) =~= ids);
        KahnSortResult::CycleDetected { sorted: result, stuck }
    }
}

/// A simplified implementation of Kahn's Topological Sort.
/// Backward-compatible wrapper that returns an empty Vec on cycles.
pub fn lean_kahn_sort(events: &EventMap, version: StateResVersion) -> (r: Vec<String>)
    ensures
        strings_view(r@) == if kahn_order(events@, version).len() == events@.dom().len() {
            kahn_order(events@, version)
        } else {
            Seq::empty()
        },
{
    lean_kahn_sort_detailed(events, version).into_sorted()
}

/// A finite non-empty set of ready events has a best one.
proof fn lemma_best_exists(
    m: Map<Seq<char>, EventView>,
    version: StateResVersion,
    done: Seq<Seq<char>>,
    s: Set<Seq<char>>,
)
    requires
        keyed_by_id(m),
        s.finite(),
        s.len() > 0,
        forall|k: Seq<char>| #[trigger] s.contains(k) ==> m.dom().contains(k),
    ensures
        exists|k: Seq<char>|
            s.contains(k) && forall|k2: Seq<char>|
                #[trigger] s.contains(k2) && k2 != k ==> outranks(m[k], m[k2], version),
    decreases s.len(),
{
    let a = s.choose();
    let rest = s.remove(a);
    if rest.len() == 0 {
        assert forall|k2: Seq<char>| #[trigger] s.contains(k2) && k2 != a implies outranks(
            m[a],
            m[k2],
            version,
        ) by {
            assert(rest.contains(k2));
        }
    } else {
        lemma_best_exists(m, version, done, rest);
        let b = choose|k: Seq<char>|
            rest.contains(k) && forall|k2: Seq<char>|
                #[trigger] rest.contains(k2) && k2 != k ==> outranks(m[k], m[k2], version);
        if outranks(m[a], m[b], version) {
            assert forall|k2: Seq<char>| #[trigger] s.contains(k2) && k2 != a implies outranks(
                m[a],
                m[k2],
                version,
            ) by {
                if k2 != b {
                    assert(rest.contains(k2));
                    lemma_outranks_transitive(m[a], m[b], m[k2], version);
                }
            }
        } else {
            lemma_outranks_total(m[a], m[b], version);
            assert forall|k2: Seq<char>| #[trigger] s.contains(k2) && k2 != b implies outranks(
                m[b],
                m[k2],
                version,
            ) by {
                if k2 != a {
                    assert(rest.contains(k2));
                }
            }
        }
    }
}

/// When no event is picked, no event is ready.
proof fn lemma_no_pick_no_ready(
    m: Map<Seq<char>, EventView>,
    version: StateResVersion,
    done: Seq<Seq<char>>,
    k: Seq<char>,
)
    requires
        keyed_by_id(m),
        next_pick(m, version, done) is None,
    ensures
        !ready(m, done, k),
{
    if ready(m, done, k) {
        let s = m.dom().filter(|x: Seq<char>| ready(m, done, x));
        assert(s.contains(k));
        m.dom().lemma_len_filter(|x: Seq<char>| ready(m, done, x));
        vstd::set::axiom_set_contains_len(s, k);
        lemma_best_exists(m, version, done, s);
        let b = choose|b: Seq<char>|
            s.contains(b) && forall|k2: Seq<char>|
                #[trigger] s.contains(k2) && k2 != b ==> outranks(m[b], m[k2], version);
        assert forall|k2: Seq<char>| #[trigger] ready(m, done, k2) && k2 != b implies outranks(
            m[b],
            m[k2],
            version,
        ) by {
            assert(s.contains(k2));
        }
        assert(is_next(m, version, done, b));
    }
}

/// Every processed event comes after each of its auth events that is
/// present: the order is a topological order of the auth graph.
pub proof fn lemma_order_respects_auth_events(
    m: Map<Seq<char>, EventView>,
    version: StateResVersion,
    n: nat,
    i: int,
    t: int,
)
    requires
        0 <= i < kahn_prefix(m, version, n).len(),
        0 <= t < m[kahn_prefix(m, version, n)[i]].auth_events.len(),
        m.dom().contains(m[kahn_prefix(m, version, n)[i]].auth_events[t]),
    ensures
        exists|j: int|
            0 <= j < i && kahn_prefix(m, version, n)[j] == m[kahn_prefix(
                m,
                version,
                n,
            )[i]].auth_events[t],
    decreases n,
{
    let p = kahn_prefix(m, version, (n - 1) as nat);
    if i < p.len() {
        lemma_order_respects_auth_events(m, version, (n - 1) as nat, i, t);
        let j = choose|j: int| 0 <= j < i && p[j] == m[p[i]].auth_events[t];
        assert(kahn_prefix(m, version, n)[j] == p[j]);
    } else {
        let k = kahn_prefix(m, version, n)[i];
        let k0 = choose|k: Seq<char>| is_next(m, version, p, k);
        assert(is_next(m, version, p, k0));
        assert(k == k0);
        assert(ready(m, p, k));
        let a = m[k].auth_events[t];
        assert(p.contains(a));
        let j = choose|j: int| 0 <= j < p.len() && p[j] == a;
        assert(kahn_prefix(m, version, n)[j] == p[j]);
    }
}

/// Each event of a prefix is the next pick after the events before it.
proof fn lemma_prefix_steps(m: Map<Seq<char>, EventView>, version: StateResVersion, n: nat, i: int)
    requires
        0 <= i < kahn_prefix(m, version, n).len(),
    ensures
        is_next(m, version, kahn_prefix(m, version, n).take(i), kahn_prefix(m, version, n)[i]),
    decreases n,
{
    let p = kahn_prefix(m, version, (n - 1) as nat);
    let cur = kahn_prefix(m, version, n);
    if i < p.len() {
        lemma_prefix_steps(m, version, (n - 1) as nat, i);
        assert(cur.take(i) =~= p.take(i));
        assert(cur[i] == p[i]);
    } else {
        let k0 = choose|k: Seq<char>| is_next(m, version, p, k);
        assert(is_next(m, version, p, k0));
        assert(cur.take(i) =~= p);
    }
}

/// The sort always takes the best ready event: an event listed at position
/// `j` that was already ready when the event at an earlier position `i` was
/// taken is outranked by that event.
pub proof fn lemma_sort_takes_best_ready(m: Map<Seq<char>, EventView>, version: StateResVersion, i: int, j: int)
    requires
        0 <= i < j < kahn_order(m, version).len(),
        ready(m, kahn_order(m, version).take(i), kahn_order(m, version)[j]),
    ensures
        outranks(m[kahn_order(m, version)[i]], m[kahn_order(m, version)[j]], version),
{
    let order = kahn_order(m, version);
    lemma_prefix_steps(m, version, m.dom().len(), i);
    lemma_prefix_shape(m, version, m.dom().len());
    assert(order[j] != order[i]);
}

/// The facts that characterize the result of the sort on an id map:
/// the order lists distinct events of the map; every one of them comes
/// after its present auth events; every event left out (stuck) has a
/// present auth event that is also left out, so a stuck event lies on or
/// after a cycle of auth events; and when nothing is left out the order is
/// a permutation of the map's ids.
pub proof fn lemma_kahn_order_characterized(m: Map<Seq<char>, EventView>, version: StateResVersion)
    requires
        keyed_by_id(m),
    ensures
        kahn_order(m, version).no_duplicates(),
        forall|i: int|
            0 <= i < kahn_order(m, version).len() ==> m.dom().contains(
                #[trigger] kahn_order(m, version)[i],
            ),
        forall|i: int, t: int|
            0 <= i < kahn_order(m, version).len() && 0 <= t < m[kahn_order(
                m,
                version,
            )[i]].auth_events.len() && m.dom().contains(
                #[trigger] m[kahn_order(m, version)[i]].auth_events[t],
            ) ==> exists|j: int|
                0 <= j < i && kahn_order(m, version)[j] == m[kahn_order(
                    m,
                    version,
                )[i]].auth_events[t],
        forall|k: Seq<char>|
            #[trigger] m.dom().contains(k) && !kahn_order(m, version).contains(k) ==> exists|t: int|
                0 <= t < m[k].auth_events.len() && m.dom().contains(m[k].auth_events[t])
                    && !kahn_order(m, version).contains(m[k].auth_events[t]),
        kahn_order(m, version).len() == m.dom().len() ==> kahn_order(m, version).to_set() == m.dom(),
{
    let n = m.dom().len();
    let order = kahn_order(m, version);
    lemma_prefix_shape(m, version, n);
    assert forall|i: int, t: int|
        0 <= i < order.len() && 0 <= t < m[order[i]].auth_events.len() && m.dom().contains(
            #[trigger] m[order[i]].auth_events[t],
        ) implies exists|j: int| 0 <= j < i && order[j] == m[order[i]].auth_events[t] by {
        lemma_order_respects_auth_events(m, version, n, i, t);
    }
    // The order stops by the time it has listed every event.
    let r = order.len();
    if r < n {
        lemma_prefix_short(m, version, n);
    }
    if next_pick(m, version, order) is Some {
        let k = choose|k: Seq<char>| is_next(m, version, order, k);
        assert(is_next(m, version, order, k));
        let longer = order.push(k);
        assert(longer.no_duplicates());
        assert forall|i: int| 0 <= i < longer.len() implies m.dom().contains(#[trigger] longer[i]) by {
            if i < order.len() {
                assert(longer[i] == order[i]);
            }
        }
        lemma_distinct_within(longer, m.dom());
        assert(false);
    }
    assert forall|k: Seq<char>|
        #[trigger] m.dom().contains(k) && !order.contains(k) implies exists|t: int|
            0 <= t < m[k].auth_events.len() && m.dom().contains(m[k].auth_events[t])
                && !order.contains(m[k].auth_events[t]) by {
        lemma_no_pick_no_ready(m, version, order, k);
    }
    if order.len() == m.dom().len() {
        order.unique_seq_to_set();
        assert(order.to_set().subset_of(m.dom()));
        vstd::set_lib::lemma_subset_equality(order.to_set(), m.dom());
    }
}

/// The sort depends on the events alone, not on the order in which they
/// arrived in the map.
pub proof fn lemma_sort_arrival_order_independent(
    a: Map<Seq<char>, EventView>,
    b: Map<Seq<char>, EventView>,
    version: StateResVersion,
)
    requires
        a == b,
    ensures
        kahn_order(a, version) == kahn_order(b, version),
{
}

/// V2 and V2.1 process the events in the same order.
pub proof fn lemma_v2_and_v2_1_sort_alike(m: Map<Seq<char>, EventView>, n: nat)
    ensures
        kahn_prefix(m, StateResVersion::V2, n) == kahn_prefix(m, StateResVersion::V2_1, n),
    decreases n,
{
    if n > 0 {
        lemma_v2_and_v2_1_sort_alike(m, (n - 1) as nat);
        let p = kahn_prefix(m, StateResVersion::V2, (n - 1) as nat);
        assert forall|a: EventView, b: EventView| #[trigger] outranks(a, b, StateResVersion::V2)
            == outranks(a, b, StateResVersion::V2_1) by {}
        assert((|k: Seq<char>| is_next(m, StateResVersion::V2, p, k)) =~= (|k: Seq<char>| is_next(
            m,
            StateResVersion::V2_1,
            p,
            k,
        )));
        if exists|k: Seq<char>| is_next(m, StateResVersion::V2, p, k) {
            let k1 = choose|k: Seq<char>| is_next(m, StateResVersion::V2, p, k);
            let k2 = choose|k: Seq<char>| is_next(m, StateResVersion::V2_1, p, k);
            assert(is_next(m, StateResVersion::V2_1, p, k1));
            assert(is_next(m, StateResVersion::V2, p, k2));
            lemma_next_unique(m, StateResVersion::V2, p, k1, k2);
        } else {
            assert forall|k: Seq<char>| !is_next(m, StateResVersion::V2_1, p, k) by {
                assert(!is_next(m, StateResVersion::V2, p, k));
            }
        }
        assert(next_pick(m, StateResVersion::V2, p) == next_pick(m, StateResVersion::V2_1, p));
    }
}

/// `q` is a cycle of auth edges among the events of `m`: a walk along auth
/// events that returns to where it started.
pub open spec fn auth_cycle(m: Map<Seq<char>, EventView>, q: Seq<Seq<char>>) -> bool {
    &&& q.len() >= 2
    &&& q[0] == q.last()
    &&& auth_walk(m, q)
}

/// Event `x` of `m` depends on a cycle: an auth walk from `x` reaches an
/// event that lies on a cycle of auth edges.
pub open spec fn depends_on_cycle(m: Map<Seq<char>, EventView>, x: Seq<char>) -> bool {
    exists|p: Seq<Seq<char>>, q: Seq<Seq<char>>|
        #![trigger auth_walk(m, p), auth_cycle(m, q)]
        p.len() >= 1 && p[0] == x && auth_walk(m, p) && auth_cycle(m, q) && q[0] == p.last()
}

/// The auth walk of `k + 1` stuck events that starts at a stuck event `x`,
/// each step going to a present auth event that is stuck too.
spec fn stuck_chain(m: Map<Seq<char>, EventView>, order: Seq<Seq<char>>, x: Seq<char>, k: nat) -> Seq<Seq<char>>
    decreases k,
{
    if k == 0 {
        seq![x]
    } else {
        let prev = stuck_chain(m, order, x, (k - 1) as nat);
        let y = prev.last();
        let t = choose|t: int|
            0 <= t < m[y].auth_events.len() && m.dom().contains(m[y].auth_events[t]) && !order.contains(
                m[y].auth_events[t],
            );
        prev.push(m[y].auth_events[t])
    }
}

proof fn lemma_stuck_chain(m: Map<Seq<char>, EventView>, version: StateResVersion, x: Seq<char>, k: nat)
    requires
        keyed_by_id(m),
        m.dom().contains(x),
        !kahn_order(m, version).contains(x),
    ensures
        stuck_chain(m, kahn_order(m, version), x, k).len() == k + 1,
        stuck_chain(m, kahn_order(m, version), x, k)[0] == x,
        auth_walk(m, stuck_chain(m, kahn_order(m, version), x, k)),
        forall|i: int|
            0 <= i <= k ==> m.dom().contains(#[trigger] stuck_chain(m, kahn_order(m, version), x, k)[i])
                && !kahn_order(m, version).contains(stuck_chain(m, kahn_order(m, version), x, k)[i]),
    decreases k,
{
    let order = kahn_order(m, version);
    lemma_kahn_order_characterized(m, version);
    if k > 0 {
        lemma_stuck_chain(m, version, x, (k - 1) as nat);
        let prev = stuck_chain(m, order, x, (k - 1) as nat);
        let y = prev.last();
        assert(prev[k - 1] == y);
        let t = choose|t: int|
            0 <= t < m[y].auth_events.len() && m.dom().contains(m[y].auth_events[t]) && !order.contains(
                m[y].auth_events[t],
            );
        let c = stuck_chain(m, order, x, k);
        assert(c == prev.push(m[y].auth_events[t]));
        assert forall|i: int| 0 <= i < c.len() - 1 implies m.dom().contains(#[trigger] c[i])
            && m[c[i]].auth_events.contains(c[i + 1]) by {
            if i < k - 1 {
                assert(c[i] == prev[i] && c[i + 1] == prev[i + 1]);
            } else {
                assert(c[i] == y);
                assert(c[i + 1] == m[y].auth_events[t]);
            }
        }
        assert forall|i: int| 0 <= i <= k implies m.dom().contains(#[trigger] c[i]) && !order.contains(c[i]) by {
            if i < k {
                assert(c[i] == prev[i]);
            }
        }
    }
}

/// Along an auth walk from an event in the order, every event is in the
/// order, further back.
proof fn lemma_walk_stays_ordered(
    m: Map<Seq<char>, EventView>,
    version: StateResVersion,
    p: Seq<Seq<char>>,
    pos0: int,
    k: int,
)
    requires
        keyed_by_id(m),
        auth_walk(m, p),
        m.dom().contains(p.last()),
        0 <= k < p.len(),
        0 <= pos0 < kahn_order(m, version).len(),
        kahn_order(m, version)[pos0] == p[0],
    ensures
        exists|i: int| 0 <= i && i + k <= pos0 && kahn_order(m, version)[i] == p[k],
    decreases k,
{
    let order = kahn_order(m, version);
    lemma_kahn_order_characterized(m, version);
    if k > 0 {
        lemma_walk_stays_ordered(m, version, p, pos0, k - 1);
        let i = choose|i: int| 0 <= i && i + (k - 1) <= pos0 && order[i] == p[k - 1];
        assert(m.dom().contains(p[k - 1]) && m[p[k - 1]].auth_events.contains(p[k]));
        let t = choose|t: int| 0 <= t < m[p[k - 1]].auth_events.len() && #[trigger] m[p[k - 1]].auth_events[t] == p[k];
        if k < p.len() - 1 {
            assert(m.dom().contains(p[k]));
        } else {
            assert(p[k] == p.last());
        }
        assert(m.dom().contains(m[order[i]].auth_events[t]));
        let j = choose|j: int| 0 <= j < i && order[j] == m[order[i]].auth_events[t];
        assert(order[j] == p[k]);
    }
}

/// No event on a cycle is in the order.
proof fn lemma_cycle_stuck(m: Map<Seq<char>, EventView>, version: StateResVersion, q: Seq<Seq<char>>)
    requires
        keyed_by_id(m),
        auth_cycle(m, q),
    ensures
        !kahn_order(m, version).contains(q[0]),
{
    let order = kahn_order(m, version);
    lemma_kahn_order_characterized(m, version);
    if order.contains(q[0]) {
        let pos0 = choose|i: int| 0 <= i < order.len() && order[i] == q[0];
        assert(m.dom().contains(q[0]));
        lemma_walk_stays_ordered(m, version, q, pos0, q.len() - 1);
        let i = choose|i: int| 0 <= i && i + (q.len() - 1) <= pos0 && order[i] == q[q.len() - 1];
        assert(order[i] == order[pos0]);
        assert(i != pos0);
    }
}

/// A stuck event depends on a cycle: following stuck auth events must
/// return somewhere.
proof fn lemma_stuck_depends(m: Map<Seq<char>, EventView>, version: StateResVersion, x: Seq<char>)
    requires
        keyed_by_id(m),
        m.dom().contains(x),
        !kahn_order(m, version).contains(x),
    ensures
        depends_on_cycle(m, x),
{
    let order = kahn_order(m, version);
    let n = m.dom().len();
    lemma_stuck_chain(m, version, x, n);
    let c = stuck_chain(m, order, x, n);
    // More events than the map holds: one repeats.
    assert(!c.no_duplicates()) by {
        if c.no_duplicates() {
            c.unique_seq_to_set();
            assert(c.to_set().subset_of(m.dom())) by {
                assert forall|y: Seq<char>| c.to_set().contains(y) implies m.dom().contains(y) by {
                    let i = choose|i: int| 0 <= i < c.len() && c[i] == y;
                    assert(m.dom().contains(c[i]));
                }
            }
            vstd::set_lib::lemma_len_subset(c.to_set(), m.dom());
        }
    }
    let (i0, j0) = choose|i: int, j: int| 0 <= i < c.len() && 0 <= j < c.len() && i != j && c[i] == c[j];
    let i = if i0 < j0 {
        i0
    } else {
        j0
    };
    let j = if i0 < j0 {
        j0
    } else {
        i0
    };
    let q = c.subrange(i, j + 1);
    let p = c.subrange(0, i + 1);
    assert forall|k: int| 0 <= k < q.len() - 1 implies m.dom().contains(#[trigger] q[k])
        && m[q[k]].auth_events.contains(q[k + 1]) by {
        assert(q[k] == c[i + k] && q[k + 1] == c[i + k + 1]);
    }
    assert forall|k: int| 0 <= k < p.len() - 1 implies m.dom().contains(#[trigger] p[k])
        && m[p[k]].auth_events.contains(p[k + 1]) by {
        assert(p[k] == c[k] && p[k + 1] == c[k + 1]);
    }
    assert(auth_walk(m, p) && auth_cycle(m, q) && q[0] == p.last() && p[0] == x);
}

/// An event that depends on a cycle is stuck.
proof fn lemma_depends_stuck(m: Map<Seq<char>, EventView>, version: StateResVersion, x: Seq<char>)
    requires
        keyed_by_id(m),
        depends_on_cycle(m, x),
    ensures
        !kahn_order(m, version).contains(x),
{
    let order = kahn_order(m, version);
    let (p, q) = choose|p: Seq<Seq<char>>, q: Seq<Seq<char>>|
        #![trigger auth_walk(m, p), auth_cycle(m, q)]
        p.len() >= 1 && p[0] == x && auth_walk(m, p) && auth_cycle(m, q) && q[0] == p.last();
    lemma_cycle_stuck(m, version, q);
    if order.contains(x) {
        let pos0 = choose|i: int| 0 <= i < order.len() && order[i] == x;
        assert(m.dom().contains(q[0]));
        lemma_walk_stays_ordered(m, version, p, pos0, p.len() - 1);
        let i = choose|i: int| 0 <= i && i + (p.len() - 1) <= pos0 && order[i] == p[p.len() - 1];
        assert(order.contains(q[0]));
    }
}

/// An event of `m` is left out of the order (stuck) exactly when it depends
/// on a cycle of auth edges.
pub proof fn lemma_stuck_iff_depends_on_cycle(m: Map<Seq<char>, EventView>, version: StateResVersion, x: Seq<char>)
    requires
        keyed_by_id(m),
        m.dom().contains(x),
    ensures
        !kahn_order(m, version).contains(x) <==> depends_on_cycle(m, x),
{
    if !kahn_order(m, version).contains(x) {
        lemma_stuck_depends(m, version, x);
    }
    if depends_on_cycle(m, x) {
        lemma_depends_stuck(m, version, x);
    }
}

/// The sort orders every event exactly when the auth edges among the events
/// hold no cycle.
pub proof fn lemma_sorted_iff_acyclic(m: Map<Seq<char>, EventView>, version: StateResVersion)
    requires
        keyed_by_id(m),
    ensures
        kahn_order(m, version).len() == m.dom().len() <==> !exists|q: Seq<Seq<char>>| auth_cycle(m, q),
{
    let order = kahn_order(m, version);
    lemma_kahn_order_characterized(m, version);
    if order.len() == m.dom().len() {
        if exists|q: Seq<Seq<char>>| auth_cycle(m, q) {
            let q = choose|q: Seq<Seq<char>>| auth_cycle(m, q);
            lemma_cycle_stuck(m, version, q);
            assert(m.dom().contains(q[0]));
            assert(order.to_set().contains(q[0]));
        }
    } else {
        // Some event is left out; it depends on a cycle, so a cycle exists.
        assert(order.to_set().subset_of(m.dom())) by {
            assert forall|y: Seq<char>| order.to_set().contains(y) implies m.dom().contains(y) by {
                let i = choose|i: int| 0 <= i < order.len() && order[i] == y;
            }
        }
        order.unique_seq_to_set();
        assert(exists|x: Seq<char>| m.dom().contains(x) && !order.to_set().contains(x)) by {
            if forall|x: Seq<char>| m.dom().contains(x) ==> order.to_set().contains(x) {
                assert(order.to_set() =~= m.dom());
            }
        }
        let x = choose|x: Seq<char>| m.dom().contains(x) && !order.to_set().contains(x);
        assert(!order.contains(x));
        lemma_stuck_iff_depends_on_cycle(m, version, x);
        let (p, q) = choose|p: Seq<Seq<char>>, q: Seq<Seq<char>>|
            #![trigger auth_walk(m, p), auth_cycle(m, q)]
            p.len() >= 1 && p[0] == x && auth_walk(m, p) && auth_cycle(m, q) && q[0] == p.last();
        assert(auth_cycle(m, q));
    }
}

} // verus!
