//! The room state read off the event graph: for each `(type, state_key)`
//! slot, the newest event (the one with the largest id) among a set of
//! events; with forward extremities ("heads"), the events nearest to each
//! head, found walking back along `prev_events`.
use crate::event::{strings_view, EventView};
use crate::event_map::{cited_ids, keyed_by_id, refs, EventMap};
use crate::id_set::IdSet;
use crate::resolve::slot_key;
use crate::state_map::{KeyView, StateMap};
use crate::text::{lemma_lex_irreflexive, lemma_lex_total, lemma_lex_transitive, lex_lt, str_lt};
use vstd::prelude::*;

verus! {

/// Event `x` of `m` fills slot `k`.
pub open spec fn fills(m: Map<Seq<char>, EventView>, x: Seq<char>, k: KeyView) -> bool {
    m.dom().contains(x) && slot_key(m[x]) == k
}

/// Some event of `s` fills slot `k`.
pub open spec fn slot_filled(m: Map<Seq<char>, EventView>, s: Set<Seq<char>>, k: KeyView) -> bool {
    exists|x: Seq<char>| s.contains(x) && #[trigger] fills(m, x, k)
}

/// `x` is the newest event of `s` in slot `k`: no other such event has a
/// larger id.
pub open spec fn is_newest(m: Map<Seq<char>, EventView>, s: Set<Seq<char>>, k: KeyView, x: Seq<char>) -> bool {
    &&& s.contains(x)
    &&& fills(m, x, k)
    &&& forall|y: Seq<char>| s.contains(y) && #[trigger] fills(m, y, k) ==> !lex_lt(x, y)
}

/// The newest event of `s` in slot `k`.
pub open spec fn newest(m: Map<Seq<char>, EventView>, s: Set<Seq<char>>, k: KeyView) -> Seq<char> {
    choose|x: Seq<char>| is_newest(m, s, k, x)
}

/// For each slot that an event of `s` fills and that `skip` leaves out, the
/// newest such event.
pub open spec fn newest_state(m: Map<Seq<char>, EventView>, s: Set<Seq<char>>, skip: Set<KeyView>) -> Map<
    KeyView,
    Seq<char>,
> {
    Map::new(|k: KeyView| !skip.contains(k) && slot_filled(m, s, k), |k: KeyView| newest(m, s, k))
}

/// The state without heads: every slot filled by an event of `m`, holding
/// the newest event in it.
pub open spec fn latest_state_of(m: Map<Seq<char>, EventView>) -> Map<KeyView, Seq<char>> {
    newest_state(m, m.dom(), Set::empty())
}

/// The newest event of a slot is unique, and is what `newest` names.
pub proof fn lemma_newest_unique(m: Map<Seq<char>, EventView>, s: Set<Seq<char>>, k: KeyView, x: Seq<char>)
    requires
        is_newest(m, s, k, x),
    ensures
        newest(m, s, k) == x,
        forall|y: Seq<char>| #[trigger] is_newest(m, s, k, y) ==> y == x,
{
    assert forall|y: Seq<char>| #[trigger] is_newest(m, s, k, y) implies y == x by {
        lemma_lex_total(x, y);
    }
    let c = newest(m, s, k);
    assert(is_newest(m, s, k, c));
}

/// Adds the ids `ids` to `best`, a newest-per-slot map over `s` for the
/// slots outside `skip`.
fn newest_per_slot(events: &EventMap, ids: &Vec<String>, skip: &StateMap<String>) -> (r: StateMap<String>)
    ensures
        r@ == newest_state(events@, strings_view(ids@).to_set(), skip@.dom()),
        forall|k: KeyView|
            #[trigger] r@.dom().contains(k) ==> is_newest(events@, strings_view(ids@).to_set(), k, r@[k]),
{
    events.lemma_entries();
    let ghost m = events@;
    let ghost all = strings_view(ids@);
    let mut best: StateMap<String> = StateMap::new();
    let mut i: usize = 0;
    while i < ids.len()
        invariant
            i <= ids.len(),
            m == events@,
            keyed_by_id(m),
            all == strings_view(ids@),
            forall|k: KeyView|
                #[trigger] best@.dom().contains(k) <==> (!skip@.dom().contains(k) && slot_filled(
                    m,
                    all.take(i as int).to_set(),
                    k,
                )),
            forall|k: KeyView|
                #[trigger] best@.dom().contains(k) ==> is_newest(m, all.take(i as int).to_set(), k, best@[k]),
        decreases ids.len() - i,
    {
        let ghost s0 = all.take(i as int).to_set();
        let ghost s1 = all.take(i + 1).to_set();
        let ghost id = all[i as int];
        assert(s1 =~= s0.insert(id)) by {
            let t0 = all.take(i as int);
            let t1 = all.take(i + 1);
            assert(t1 =~= t0.push(id));
            assert forall|x: Seq<char>| s1.contains(x) <==> s0.insert(id).contains(x) by {
                if s1.contains(x) {
                    let j = choose|j: int| 0 <= j < t1.len() && t1[j] == x;
                    if j < t0.len() {
                        assert(t0[j] == x);
                    }
                }
                if s0.contains(x) {
                    let j = choose|j: int| 0 <= j < t0.len() && t0[j] == x;
                    assert(t1[j] == x);
                }
                if x == id {
                    assert(t1[i as int] == x);
                }
            }
        }
        let ghost old_best = best@;
        match events.get(ids[i].as_str()) {
            Some(ev) => {
                let ghost k = slot_key(ev@);
                assert(fills(m, id, k));
                assert(ev.event_id@ == id);
                if !skip.contains_key(&ev.event_type, &ev.state_key) {
                    let replace = match best.get(&ev.event_type, &ev.state_key) {
                        Some(cur) => str_lt(cur.as_str(), ev.event_id.as_str()),
                        None => true,
                    };
                    if replace {
                        best.insert(ev.event_type.clone(), ev.state_key.clone(), ev.event_id.clone());
                        proof {
                            lemma_lex_irreflexive(id);
                            assert forall|y: Seq<char>| s1.contains(y) && #[trigger] fills(m, y, k) implies !lex_lt(id, y) by {
                                if y != id {
                                    assert(s0.contains(y));
                                    assert(old_best.dom().contains(k));
                                    let cur = old_best[k];
                                    assert(!lex_lt(cur, y));
                                    if lex_lt(id, y) {
                                        lemma_lex_transitive(cur, id, y);
                                    }
                                }
                            }
                        }
                    } else {
                        proof {
                            let cur = old_best[k];
                            assert forall|y: Seq<char>| s1.contains(y) && #[trigger] fills(m, y, k) implies !lex_lt(cur, y) by {
                                if y != id {
                                    assert(s0.contains(y));
                                }
                            }
                        }
                    }
                }
                proof {
                    assert forall|k2: KeyView| #[trigger] best@.dom().contains(k2) <==> (!skip@.dom().contains(k2)
                        && slot_filled(m, s1, k2)) by {
                        if slot_filled(m, s1, k2) && k2 != k {
                            let y = choose|y: Seq<char>| s1.contains(y) && #[trigger] fills(m, y, k2);
                            assert(s0.contains(y) && fills(m, y, k2));
                        }
                        if slot_filled(m, s0, k2) {
                            let y = choose|y: Seq<char>| s0.contains(y) && #[trigger] fills(m, y, k2);
                            assert(s1.contains(y) && fills(m, y, k2));
                        }
                        if k2 == k && !skip@.dom().contains(k2) {
                            assert(s1.contains(id) && fills(m, id, k2));
                        }
                    }
                    assert forall|k2: KeyView| #[trigger] best@.dom().contains(k2) implies is_newest(
                        m,
                        s1,
                        k2,
                        best@[k2],
                    ) by {
                        if k2 != k {
                            assert(old_best.dom().contains(k2));
                            assert forall|y: Seq<char>| s1.contains(y) && #[trigger] fills(m, y, k2) implies !lex_lt(
                                best@[k2],
                                y,
                            ) by {
                                assert(y != id);
                                assert(s0.contains(y));
                            }
                        }
                    }
                }
            },
            None => {
                proof {
                    assert forall|k2: KeyView| #[trigger] best@.dom().contains(k2) <==> (!skip@.dom().contains(k2)
                        && slot_filled(m, s1, k2)) by {
                        if slot_filled(m, s1, k2) {
                            let y = choose|y: Seq<char>| s1.contains(y) && #[trigger] fills(m, y, k2);
                            assert(s0.contains(y) && fills(m, y, k2));
                        }
                        if slot_filled(m, s0, k2) {
                            let y = choose|y: Seq<char>| s0.contains(y) && #[trigger] fills(m, y, k2);
                            assert(s1.contains(y) && fills(m, y, k2));
                        }
                    }
                    assert forall|k2: KeyView| #[trigger] best@.dom().contains(k2) implies is_newest(
                        m,
                        s1,
                        k2,
                        best@[k2],
                    ) by {
                        assert forall|y: Seq<char>| s1.contains(y) && #[trigger] fills(m, y, k2) implies !lex_lt(
                            best@[k2],
                            y,
                        ) by {
                            assert(s0.contains(y));
                        }
                    }
                }
            },
        }
        i = i + 1;
    }
    proof {
        assert(all.take(i as int) =~= all);
        let want = newest_state(m, all.to_set(), skip@.dom());
        assert forall|k: KeyView| #[trigger] best@.dom().contains(k) implies best@[k] == want[k] by {
            lemma_newest_unique(m, all.to_set(), k, best@[k]);
        }
        assert(best@ =~= want);
    }
    best
}

/// The state when no heads are given: every slot filled by some event,
/// holding the event with the largest id in it.
pub fn latest_state(events: &EventMap) -> (r: StateMap<String>)
    ensures
        r@ == latest_state_of(events@),
{
    let ids = events.ids();
    let none: StateMap<String> = StateMap::new();
    let r = newest_per_slot(events, &ids, &none);
    assert(none@.dom() =~= Set::<KeyView>::empty());
    r
}

/// The ids that the events of `s` held by `m` list among their prev events.
pub open spec fn parents(m: Map<Seq<char>, EventView>, s: Set<Seq<char>>) -> Set<Seq<char>> {
    Set::new(
        |p: Seq<char>|
            exists|x: Seq<char>| s.contains(x) && m.dom().contains(x) && #[trigger] m[x].prev_events.contains(p),
    )
}

/// The ids within `n` steps of `head`, each step going from an event of `m`
/// to one of its prev events (an id that `m` lacks ends its branch).
pub open spec fn reach(m: Map<Seq<char>, EventView>, head: Seq<char>, n: nat) -> Set<Seq<char>>
    decreases n,
{
    if n == 0 {
        Set::empty().insert(head)
    } else {
        let r = reach(m, head, (n - 1) as nat);
        r.union(parents(m, r))
    }
}

/// The ids within fewer than `n` steps of `head`.
pub open spec fn below(m: Map<Seq<char>, EventView>, head: Seq<char>, n: nat) -> Set<Seq<char>> {
    if n == 0 {
        Set::empty()
    } else {
        reach(m, head, (n - 1) as nat)
    }
}

/// Slot `k` is filled within `n` steps of `head`, and not within fewer.
pub open spec fn first_filled_at(m: Map<Seq<char>, EventView>, head: Seq<char>, k: KeyView, n: nat) -> bool {
    &&& slot_filled(m, reach(m, head, n), k)
    &&& forall|j: nat| j < n ==> !slot_filled(m, #[trigger] reach(m, head, j), k)
}

/// The fewest steps from `head` to an event filling slot `k`.
pub open spec fn first_level(m: Map<Seq<char>, EventView>, head: Seq<char>, k: KeyView) -> nat {
    choose|n: nat| first_filled_at(m, head, k, n)
}

/// The state at a head: each slot filled by an event reachable from the
/// head holds, among the events filling it that are nearest to the head,
/// the one with the largest id.
pub open spec fn head_state(m: Map<Seq<char>, EventView>, head: Seq<char>) -> Map<KeyView, Seq<char>> {
    Map::new(
        |k: KeyView| exists|n: nat| slot_filled(m, #[trigger] reach(m, head, n), k),
        |k: KeyView| newest(m, reach(m, head, first_level(m, head, k)), k),
    )
}

/// The reach only grows with the number of steps.
pub proof fn lemma_reach_grows(m: Map<Seq<char>, EventView>, head: Seq<char>, i: nat, j: nat)
    requires
        i <= j,
    ensures
        reach(m, head, i).subset_of(reach(m, head, j)),
    decreases j,
{
    if i < j {
        lemma_reach_grows(m, head, i, (j - 1) as nat);
    }
}

/// Once a step adds nothing, no later step does.
pub proof fn lemma_reach_stable(m: Map<Seq<char>, EventView>, head: Seq<char>, n: nat, j: nat)
    requires
        reach(m, head, n + 1) == reach(m, head, n),
    ensures
        reach(m, head, n + j) == reach(m, head, n),
    decreases j,
{
    if j > 0 {
        lemma_reach_stable(m, head, n, (j - 1) as nat);
        assert(reach(m, head, n + j) == reach(m, head, n + 1));
    }
}

/// The reach stays inside any set that holds the head and every prev event
/// of every event.
pub proof fn lemma_reach_within(m: Map<Seq<char>, EventView>, head: Seq<char>, n: nat, u: Set<Seq<char>>)
    requires
        u.contains(head),
        forall|x: Seq<char>, p: Seq<char>|
            m.dom().contains(x) && #[trigger] m[x].prev_events.contains(p) ==> u.contains(p),
    ensures
        reach(m, head, n).subset_of(u),
    decreases n,
{
    if n > 0 {
        lemma_reach_within(m, head, (n - 1) as nat, u);
    }
}

/// The first level at which a slot is filled is unique.
proof fn lemma_first_level(m: Map<Seq<char>, EventView>, head: Seq<char>, k: KeyView, n: nat)
    requires
        first_filled_at(m, head, k, n),
    ensures
        first_level(m, head, k) == n,
{
    let c = first_level(m, head, k);
    assert(first_filled_at(m, head, k, c));
    if c < n {
        assert(!slot_filled(m, reach(m, head, c), k));
    }
    if n < c {
        assert(!slot_filled(m, reach(m, head, n), k));
    }
}

/// The state at `head`: every slot filled by an event reachable from the
/// head along prev events, holding, among the events filling it nearest to
/// the head, the one with the largest id.
pub fn state_at_head(events: &EventMap, head: &String) -> (r: StateMap<String>)
    ensures
        r@ == head_state(events@, head@),
{
    events.lemma_entries();
    events.lemma_cited(true);
    let ghost m = events@;
    let ghost h = head@;
    let ghost univ = cited_ids(events.entries(), true).insert(h);
    proof {
        assert forall|x: Seq<char>, p: Seq<char>|
            m.dom().contains(x) && #[trigger] m[x].prev_events.contains(p) implies univ.contains(p) by {
            assert(refs(m[x], true).contains(p));
        }
    }
    let mut best: StateMap<String> = StateMap::new();
    let mut seen = IdSet::new();
    seen.insert(head.clone());
    let mut frontier: Vec<String> = Vec::new();
    frontier.push(head.clone());
    let ghost mut level: nat = 0;
    proof {
        assert(seen@ =~= reach(m, h, 0));
        assert(strings_view(frontier@) =~= seq![h]);
        assert(strings_view(frontier@).to_set() =~= reach(m, h, 0).difference(below(m, h, 0))) by {
            assert(strings_view(frontier@)[0] == h);
        }
        assert(best@.dom() =~= Set::<KeyView>::empty());
    }
    while frontier.len() > 0
        invariant
            m == events@,
            keyed_by_id(m),
            h == head@,
            univ.finite(),
            univ.contains(h),
            forall|x: Seq<char>, p: Seq<char>|
                m.dom().contains(x) && #[trigger] m[x].prev_events.contains(p) ==> univ.contains(p),
            seen@ == reach(m, h, level),
            strings_view(frontier@).to_set() == reach(m, h, level).difference(below(m, h, level)),
            frontier.len() + below(m, h, level).len() == seen@.len(),
            below(m, h, level).finite(),
            below(m, h, level).subset_of(reach(m, h, level)),
            forall|k: KeyView| #[trigger] best@.dom().contains(k) <==> slot_filled(m, below(m, h, level), k),
            forall|k: KeyView|
                #[trigger] best@.dom().contains(k) ==> exists|j: nat|
                    j < level && first_filled_at(m, h, k, j) && is_newest(
                        m,
                        reach(m, h, j),
                        k,
                        best@[k],
                    ),
        decreases univ.len() - seen@.len() + frontier.len(),
    {
        let ghost rl = reach(m, h, level);
        let ghost bl = below(m, h, level);
        let ghost f = strings_view(frontier@).to_set();
        proof {
            lemma_reach_within(m, h, level, univ);
            vstd::set_lib::lemma_len_subset(rl, univ);
            if level > 0 {
                lemma_reach_grows(m, h, (level - 1) as nat, level);
            }
        }
        // The slots first filled at this level, with their newest events.
        let fresh = newest_per_slot(events, &frontier, &best);
        let ghost old_best = best@;
        best.extend(&fresh);
        proof {
            assert(rl =~= bl.union(f));
            assert forall|k: KeyView| #[trigger] best@.dom().contains(k) <==> slot_filled(m, rl, k) by {
                if slot_filled(m, rl, k) && !old_best.dom().contains(k) {
                    let y = choose|y: Seq<char>| rl.contains(y) && #[trigger] fills(m, y, k);
                    if bl.contains(y) {
                        assert(slot_filled(m, bl, k));
                    }
                    assert(f.contains(y));
                    assert(slot_filled(m, f, k));
                }
                if old_best.dom().contains(k) {
                    let y = choose|y: Seq<char>| bl.contains(y) && #[trigger] fills(m, y, k);
                    assert(rl.contains(y));
                }
                if fresh@.dom().contains(k) {
                    let y = choose|y: Seq<char>| f.contains(y) && #[trigger] fills(m, y, k);
                    assert(rl.contains(y));
                }
            }
            assert forall|k: KeyView| #[trigger] best@.dom().contains(k) implies exists|j: nat|
                j < level + 1 && first_filled_at(m, h, k, j) && is_newest(m, reach(m, h, j), k, best@[k]) by {
                if fresh@.dom().contains(k) {
                    let x = fresh@[k];
                    assert(is_newest(m, f, k, x));
                    assert(!slot_filled(m, bl, k));
                    assert forall|y: Seq<char>| rl.contains(y) && #[trigger] fills(m, y, k) implies !lex_lt(x, y) by {
                        if bl.contains(y) {
                            assert(slot_filled(m, bl, k));
                        }
                        assert(f.contains(y));
                    }
                    assert(is_newest(m, rl, k, x));
                    assert forall|j: nat| j < level implies !slot_filled(m, #[trigger] reach(m, h, j), k) by {
                        lemma_reach_grows(m, h, j, (level - 1) as nat);
                        if slot_filled(m, reach(m, h, j), k) {
                            let y = choose|y: Seq<char>| reach(m, h, j).contains(y) && #[trigger] fills(m, y, k);
                            assert(bl.contains(y));
                        }
                    }
                    assert(slot_filled(m, rl, k)) by {
                        assert(rl.contains(x) && fills(m, x, k));
                    }
                    assert(first_filled_at(m, h, k, level));
                } else {
                    assert(old_best.dom().contains(k));
                    assert(best@[k] == old_best[k]);
                }
            }
        }
        // The next frontier: the prev events of this level not seen before.
        let mut next: Vec<String> = Vec::new();
        let mut a: usize = 0;
        while a < frontier.len()
            invariant
                a <= frontier.len(),
                m == events@,
                keyed_by_id(m),
                rl == reach(m, h, level),
                f == strings_view(frontier@).to_set(),
                f.subset_of(rl),
                rl.finite(),
                seen@ == rl.union(parents(m, strings_view(frontier@).take(a as int).to_set())),
                strings_view(next@).to_set() == seen@.difference(rl),
                next.len() + rl.len() == seen@.len(),
            decreases frontier.len() - a,
        {
            let ghost fa = strings_view(frontier@).take(a as int).to_set();
            let ghost fb = strings_view(frontier@).take(a + 1).to_set();
            let ghost x = strings_view(frontier@)[a as int];
            proof {
                assert(strings_view(frontier@).take(a + 1) =~= strings_view(frontier@).take(a as int).push(x));
                assert forall|y: Seq<char>| fb.contains(y) <==> fa.insert(x).contains(y) by {
                    let t0 = strings_view(frontier@).take(a as int);
                    let t1 = strings_view(frontier@).take(a + 1);
                    if fb.contains(y) {
                        let j = choose|j: int| 0 <= j < t1.len() && t1[j] == y;
                        if j < t0.len() {
                            assert(t0[j] == y);
                        }
                    }
                    if fa.contains(y) {
                        let j = choose|j: int| 0 <= j < t0.len() && t0[j] == y;
                        assert(t1[j] == y);
                    }
                    if y == x {
                        assert(t1[a as int] == y);
                    }
                }
                assert(fb =~= fa.insert(x));
            }
            match events.get(frontier[a].as_str()) {
                Some(ev) => {
                    let ghost prevs = ev@.prev_events;
                    let mut b: usize = 0;
                    while b < ev.prev_events.len()
                        invariant
                            b <= ev.prev_events.len(),
                            prevs == strings_view(ev.prev_events@),
                            rl.finite(),
                            seen@ == rl.union(parents(m, fa)).union(prevs.take(b as int).to_set()),
                            strings_view(next@).to_set() == seen@.difference(rl),
                            next.len() + rl.len() == seen@.len(),
                        decreases ev.prev_events.len() - b,
                    {
                        let p = ev.prev_events[b].clone();
                        let ghost before = seen@;
                        let ghost next_before = next@;
                        seen.lemma_layout();
                        if seen.insert(p.clone()) {
                            next.push(p);
                            proof {
                                assert(strings_view(next@) =~= strings_view(next_before).push(prevs[b as int]));
                                assert(strings_view(next@).to_set() =~= strings_view(next_before).to_set().insert(
                                    prevs[b as int],
                                )) by {
                                    let t0 = strings_view(next_before);
                                    let t1 = strings_view(next@);
                                    assert forall|y: Seq<char>| t1.to_set().contains(y) <==> t0.to_set().insert(
                                        prevs[b as int],
                                    ).contains(y) by {
                                        if t1.to_set().contains(y) {
                                            let j = choose|j: int| 0 <= j < t1.len() && t1[j] == y;
                                            if j < t0.len() {
                                                assert(t0[j] == y);
                                            }
                                        }
                                        if t0.to_set().contains(y) {
                                            let j = choose|j: int| 0 <= j < t0.len() && t0[j] == y;
                                            assert(t1[j] == y);
                                        }
                                        if y == prevs[b as int] {
                                            assert(t1[t0.len() as int] == y);
                                        }
                                    }
                                }
                            }
                        }
                        proof {
                            assert(prevs.take(b + 1) =~= prevs.take(b as int).push(prevs[b as int]));
                            assert(prevs.take(b + 1).to_set() =~= prevs.take(b as int).to_set().insert(
                                prevs[b as int],
                            )) by {
                                let t0 = prevs.take(b as int);
                                let t1 = prevs.take(b + 1);
                                assert forall|y: Seq<char>| t1.to_set().contains(y) <==> t0.to_set().insert(
                                    prevs[b as int],
                                ).contains(y) by {
                                    if t1.to_set().contains(y) {
                                        let j = choose|j: int| 0 <= j < t1.len() && t1[j] == y;
                                        if j < t0.len() {
                                            assert(t0[j] == y);
                                        }
                                    }
                                    if t0.to_set().contains(y) {
                                        let j = choose|j: int| 0 <= j < t0.len() && t0[j] == y;
                                        assert(t1[j] == y);
                                    }
                                    if y == prevs[b as int] {
                                        assert(t1[b as int] == y);
                                    }
                                }
                            }
                            assert(seen@ =~= rl.union(parents(m, fa)).union(prevs.take(b + 1).to_set()));
                            assert(strings_view(next@).to_set() =~= seen@.difference(rl));
                        }
                        b = b + 1;
                    }
                    proof {
                        assert(prevs.take(b as int) =~= prevs);
                        assert(m.dom().contains(x) && m[x] == ev@);
                        assert(parents(m, fb) =~= parents(m, fa).union(prevs.to_set())) by {
                            assert forall|p: Seq<char>| parents(m, fb).contains(p) <==> parents(m, fa).union(
                                prevs.to_set(),
                            ).contains(p) by {
                                if parents(m, fb).contains(p) {
                                    let y = choose|y: Seq<char>|
                                        fb.contains(y) && m.dom().contains(y) && #[trigger] m[y].prev_events.contains(p);
                                    if y != x {
                                        assert(fa.contains(y));
                                    }
                                }
                                if prevs.to_set().contains(p) {
                                    assert(m[x].prev_events.contains(p));
                                    assert(fb.contains(x));
                                }
                                if parents(m, fa).contains(p) {
                                    let y = choose|y: Seq<char>|
                                        fa.contains(y) && m.dom().contains(y) && #[trigger] m[y].prev_events.contains(p);
                                    assert(fb.contains(y));
                                }
                            }
                        }
                        assert(seen@ =~= rl.union(parents(m, fb)));
                    }
                },
                None => {
                    proof {
                        assert(!m.dom().contains(x));
                        assert(parents(m, fb) =~= parents(m, fa)) by {
                            assert forall|p: Seq<char>| parents(m, fb).contains(p) implies parents(m, fa).contains(p) by {
                                let y = choose|y: Seq<char>|
                                    fb.contains(y) && m.dom().contains(y) && #[trigger] m[y].prev_events.contains(p);
                                assert(fa.contains(y));
                            }
                            assert forall|p: Seq<char>| parents(m, fa).contains(p) implies parents(m, fb).contains(p) by {
                                let y = choose|y: Seq<char>|
                                    fa.contains(y) && m.dom().contains(y) && #[trigger] m[y].prev_events.contains(p);
                                assert(fb.contains(y));
                            }
                        }
                    }
                },
            }
            a = a + 1;
        }
        proof {
            assert(strings_view(frontier@).take(a as int) =~= strings_view(frontier@));
            // Only the events first reached at this level add new prev events.
            let nl = reach(m, h, level + 1);
            assert(nl == rl.union(parents(m, rl)));
            assert(seen@ =~= nl) by {
                assert forall|p: Seq<char>| parents(m, rl).contains(p) implies seen@.contains(p) by {
                    let y = choose|y: Seq<char>|
                        rl.contains(y) && m.dom().contains(y) && #[trigger] m[y].prev_events.contains(p);
                    if f.contains(y) {
                        assert(parents(m, f).contains(p));
                    } else {
                        assert(bl.contains(y));
                        assert(level > 0);
                        assert(parents(m, bl).contains(p));
                        assert(rl.contains(p));
                    }
                }
                assert forall|p: Seq<char>| parents(m, f).contains(p) implies nl.contains(p) by {
                    let y = choose|y: Seq<char>|
                        f.contains(y) && m.dom().contains(y) && #[trigger] m[y].prev_events.contains(p);
                    assert(parents(m, rl).contains(p));
                }
            }
            assert(below(m, h, level + 1) == rl);
        }
        frontier = next;
        proof {
            level = level + 1;
            lemma_reach_within(m, h, level, univ);
            vstd::set_lib::lemma_len_subset(reach(m, h, level), univ);
        }
    }
    proof {
        // The walk stopped: the last level added nothing.
        assert(level > 0) by {
            if level == 0 {
                assert(reach(m, h, 0).contains(h));
            }
        }
        let last = (level - 1) as nat;
        assert(reach(m, h, last + 1) =~= reach(m, h, last)) by {
            assert forall|y: Seq<char>| reach(m, h, level).contains(y) implies reach(m, h, last).contains(y) by {
                if !below(m, h, level).contains(y) {
                    assert(strings_view(frontier@).to_set().contains(y));
                }
            }
        }
        assert forall|k: KeyView, n: nat| #[trigger] slot_filled(m, reach(m, h, n), k) implies best@.dom().contains(k) by {
            if n <= last {
                lemma_reach_grows(m, h, n, last);
            } else {
                lemma_reach_stable(m, h, last, (n - last) as nat);
                assert(reach(m, h, last + (n - last) as nat) == reach(m, h, n));
            }
            let y = choose|y: Seq<char>| reach(m, h, n).contains(y) && #[trigger] fills(m, y, k);
            assert(reach(m, h, last).contains(y));
        }
        let want = head_state(m, h);
        assert forall|k: KeyView| #[trigger] best@.dom().contains(k) implies want.dom().contains(k) && best@[k] == want[k] by {
            assert(slot_filled(m, reach(m, h, last), k));
            let j = choose|j: nat|
                j < level && first_filled_at(m, h, k, j) && is_newest(m, reach(m, h, j), k, best@[k]);
            lemma_first_level(m, h, k, j);
            lemma_newest_unique(m, reach(m, h, j), k, best@[k]);
        }
        assert(best@ =~= want);
    }
    best
}

/// An event present as a head holds its own slot in the state at that
/// head: nothing is nearer to the head than the head itself.
pub proof fn lemma_head_holds_its_slot(m: Map<Seq<char>, EventView>, head: Seq<char>)
    requires
        m.dom().contains(head),
    ensures
        head_state(m, head).dom().contains(slot_key(m[head])),
        head_state(m, head)[slot_key(m[head])] == head,
{
    let k = slot_key(m[head]);
    let r0 = reach(m, head, 0);
    assert(r0.contains(head) && fills(m, head, k));
    assert(first_filled_at(m, head, k, 0));
    lemma_first_level(m, head, k, 0);
    assert(is_newest(m, r0, k, head)) by {
        assert forall|y: Seq<char>| r0.contains(y) && #[trigger] fills(m, y, k) implies !lex_lt(head, y) by {
            assert(y == head);
            lemma_lex_irreflexive(head);
        }
    }
    lemma_newest_unique(m, r0, k, head);
}

/// Every slot of the state without heads holds an event of that slot, and
/// no event of the slot has a larger id.
pub proof fn lemma_latest_state_is_newest(m: Map<Seq<char>, EventView>, k: KeyView)
    requires
        m.dom().finite(),
        latest_state_of(m).dom().contains(k),
    ensures
        fills(m, latest_state_of(m)[k], k),
        forall|y: Seq<char>| #[trigger] fills(m, y, k) ==> !lex_lt(latest_state_of(m)[k], y),
{
    let x = choose|x: Seq<char>| m.dom().contains(x) && #[trigger] fills(m, x, k);
    lemma_newest_exists(m, m.dom(), k, x);
    let n = newest(m, m.dom(), k);
    assert(is_newest(m, m.dom(), k, n));
}

/// A finite set with an event in slot `k` has a newest one there.
proof fn lemma_newest_exists(m: Map<Seq<char>, EventView>, s: Set<Seq<char>>, k: KeyView, x: Seq<char>)
    requires
        s.finite(),
        s.contains(x),
        fills(m, x, k),
    ensures
        exists|y: Seq<char>| is_newest(m, s, k, y),
    decreases s.len(),
{
    let rest = s.remove(x);
    if exists|z: Seq<char>| rest.contains(z) && #[trigger] fills(m, z, k) {
        let z = choose|z: Seq<char>| rest.contains(z) && #[trigger] fills(m, z, k);
        lemma_newest_exists(m, rest, k, z);
        let y = choose|y: Seq<char>| is_newest(m, rest, k, y);
        lemma_lex_total(x, y);
        if lex_lt(y, x) {
            assert forall|w: Seq<char>| s.contains(w) && #[trigger] fills(m, w, k) implies !lex_lt(x, w) by {
                if w == x {
                    lemma_lex_irreflexive(x);
                } else {
                    assert(rest.contains(w));
                    if lex_lt(x, w) {
                        lemma_lex_transitive(y, x, w);
                    }
                }
            }
            assert(is_newest(m, s, k, x));
        } else {
            assert forall|w: Seq<char>| s.contains(w) && #[trigger] fills(m, w, k) implies !lex_lt(y, w) by {
                if w != x {
                    assert(rest.contains(w));
                }
            }
            assert(is_newest(m, s, k, y));
        }
    } else {
        assert forall|w: Seq<char>| s.contains(w) && #[trigger] fills(m, w, k) implies !lex_lt(x, w) by {
            if w != x {
                assert(rest.contains(w));
            }
            lemma_lex_irreflexive(x);
        }
        assert(is_newest(m, s, k, x));
    }
}

} // verus!
