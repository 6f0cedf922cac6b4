//! The V2.1 conflicted subgraph: the events of the auth graph that lie both
//! above some conflicted event (reached walking back along auth events,
//! within an optional number of steps) and below some conflicted event
//! (reached walking forward to the events that cite them).
use crate::event::{strings_view, EventView};
use crate::event_map::{cited_ids, ids_of, keyed_by_id, refs, EventMap};
use crate::id_set::{increasing, IdSet};
use crate::auth_chain::{auth_chain_of, auth_walk, lemma_auth_chain_closed};
use vstd::prelude::*;

verus! {

/// The ids that the events of `s` held by `g` list among their auth events.
pub open spec fn auth_parents(g: Map<Seq<char>, EventView>, s: Set<Seq<char>>) -> Set<Seq<char>> {
    Set::new(
        |a: Seq<char>|
            exists|x: Seq<char>| s.contains(x) && g.dom().contains(x) && #[trigger] g[x].auth_events.contains(a),
    )
}

/// The ids within `n` auth steps of `roots`, each step going from an event
/// of `g` to one of its auth events (an id that `g` lacks ends its branch).
pub open spec fn auth_reach(g: Map<Seq<char>, EventView>, roots: Set<Seq<char>>, n: nat) -> Set<Seq<char>>
    decreases n,
{
    if n == 0 {
        roots
    } else {
        let r = auth_reach(g, roots, (n - 1) as nat);
        r.union(auth_parents(g, r))
    }
}

/// The ids within fewer than `n` auth steps of `roots`.
pub open spec fn auth_below(g: Map<Seq<char>, EventView>, roots: Set<Seq<char>>, n: nat) -> Set<Seq<char>> {
    if n == 0 {
        Set::empty()
    } else {
        auth_reach(g, roots, (n - 1) as nat)
    }
}

/// The ids reached walking back from the conflicted ids along auth events:
/// those within `d` steps for a bound `d`, and without a bound the
/// conflicted ids and their whole auth chain.
pub open spec fn ancestors_within(g: Map<Seq<char>, EventView>, conflicted: Seq<Seq<char>>, bound: Option<usize>) -> Set<
    Seq<char>,
> {
    match bound {
        Some(d) => auth_reach(g, conflicted.to_set(), d as nat),
        None => conflicted.to_set().union(auth_chain_of(g, conflicted.to_set())),
    }
}

/// The auth ids that the events of `s` cite and `g` lacks.
pub open spec fn missing_refs(g: Map<Seq<char>, EventView>, s: Set<Seq<char>>) -> Set<Seq<char>> {
    Set::new(|a: Seq<char>| auth_parents(g, s).contains(a) && !g.dom().contains(a))
}

/// The reach only grows with the number of steps.
pub proof fn lemma_auth_reach_grows(g: Map<Seq<char>, EventView>, roots: Set<Seq<char>>, i: nat, j: nat)
    requires
        i <= j,
    ensures
        auth_reach(g, roots, i).subset_of(auth_reach(g, roots, j)),
    decreases j,
{
    if i < j {
        lemma_auth_reach_grows(g, roots, i, (j - 1) as nat);
    }
}

/// Once a step adds nothing, no later step does.
pub proof fn lemma_auth_reach_stable(g: Map<Seq<char>, EventView>, roots: Set<Seq<char>>, n: nat, j: nat)
    requires
        auth_reach(g, roots, n + 1) == auth_reach(g, roots, n),
    ensures
        auth_reach(g, roots, n + j) == auth_reach(g, roots, n),
    decreases j,
{
    if j > 0 {
        lemma_auth_reach_stable(g, roots, n, (j - 1) as nat);
        assert(auth_reach(g, roots, n + j) == auth_reach(g, roots, n + 1));
    }
}

/// The reach stays inside any set that holds the roots and every auth event
/// of every event.
proof fn lemma_auth_reach_within(g: Map<Seq<char>, EventView>, roots: Set<Seq<char>>, n: nat, u: Set<Seq<char>>)
    requires
        roots.subset_of(u),
        forall|x: Seq<char>, a: Seq<char>|
            g.dom().contains(x) && #[trigger] g[x].auth_events.contains(a) ==> u.contains(a),
    ensures
        auth_reach(g, roots, n).subset_of(u),
    decreases n,
{
    if n > 0 {
        lemma_auth_reach_within(g, roots, (n - 1) as nat, u);
    }
}

/// Whatever is within `n` steps is a root or in the roots' auth chain.
pub proof fn lemma_auth_reach_in_chain(g: Map<Seq<char>, EventView>, roots: Set<Seq<char>>, n: nat)
    ensures
        auth_reach(g, roots, n).subset_of(roots.union(auth_chain_of(g, roots))),
    decreases n,
{
    if n > 0 {
        lemma_auth_reach_in_chain(g, roots, (n - 1) as nat);
        let r = auth_reach(g, roots, (n - 1) as nat);
        assert forall|a: Seq<char>| auth_parents(g, r).contains(a) implies auth_chain_of(g, roots).contains(a) by {
            let x = choose|x: Seq<char>| r.contains(x) && g.dom().contains(x) && #[trigger] g[x].auth_events.contains(a);
            lemma_auth_chain_closed(g, roots, x, a);
        }
    }
}

/// The `i`-th id of an auth walk from a root is within `i` steps.
proof fn lemma_walk_in_reach(g: Map<Seq<char>, EventView>, roots: Set<Seq<char>>, p: Seq<Seq<char>>, i: int)
    requires
        auth_walk(g, p),
        roots.contains(p[0]),
        0 <= i < p.len(),
    ensures
        auth_reach(g, roots, i as nat).contains(p[i]),
    decreases i,
{
    if i > 0 {
        lemma_walk_in_reach(g, roots, p, i - 1);
        assert(g.dom().contains(p[i - 1]) && g[p[i - 1]].auth_events.contains(p[i]));
        assert(auth_parents(g, auth_reach(g, roots, (i - 1) as nat)).contains(p[i]));
    }
}

/// Once the reach stops growing it holds the roots and their auth chain.
pub proof fn lemma_stable_reach_is_chain(g: Map<Seq<char>, EventView>, roots: Set<Seq<char>>, n: nat)
    requires
        auth_reach(g, roots, n + 1) == auth_reach(g, roots, n),
    ensures
        auth_reach(g, roots, n) == roots.union(auth_chain_of(g, roots)),
{
    lemma_auth_reach_in_chain(g, roots, n);
    lemma_auth_reach_grows(g, roots, 0, n);
    assert forall|a: Seq<char>| auth_chain_of(g, roots).contains(a) implies auth_reach(g, roots, n).contains(a) by {
        let p = choose|p: Seq<Seq<char>>|
            #![trigger auth_walk(g, p), p.last()]
            p.len() >= 2 && roots.contains(p[0]) && p.last() == a && auth_walk(g, p);
        let k = (p.len() - 1) as nat;
        lemma_walk_in_reach(g, roots, p, k as int);
        if k <= n {
            lemma_auth_reach_grows(g, roots, k, n);
        } else {
            lemma_auth_reach_stable(g, roots, n, (k - n) as nat);
            assert(auth_reach(g, roots, n + (k - n) as nat) == auth_reach(g, roots, k));
        }
    }
    assert(auth_reach(g, roots, n) =~= roots.union(auth_chain_of(g, roots)));
}

/// `child` cites `parent` among its auth events.
pub open spec fn cites(g: Map<Seq<char>, EventView>, parent: Seq<char>, child: Seq<char>) -> bool {
    g.dom().contains(child) && g[child].auth_events.contains(parent)
}

/// `p` is a chain of events, each citing the one before.
pub open spec fn citation_chain(g: Map<Seq<char>, EventView>, p: Seq<Seq<char>>) -> bool {
    forall|i: int| 0 <= i < p.len() - 1 ==> cites(g, #[trigger] p[i], p[i + 1])
}

/// The ids reached from a conflicted id by following citations forward:
/// the conflicted ids and every event that cites, directly or through other
/// events, a conflicted id.
pub open spec fn descendants(g: Map<Seq<char>, EventView>, conflicted: Seq<Seq<char>>) -> Set<Seq<char>> {
    Set::new(
        |x: Seq<char>|
            exists|p: Seq<Seq<char>>|
                #![trigger citation_chain(g, p), p.last()]
                p.len() >= 1 && conflicted.contains(p[0]) && p.last() == x && citation_chain(g, p),
    )
}

/// Result of conflicted subgraph computation with diagnostic info.
#[derive(Debug)]
pub struct SubgraphResult {
    /// The computed conflicted subgraph.
    pub subgraph: EventMap,
    /// Auth events referenced but not found in the graph (permanently lost to federation).
    pub missing_auth_events: Vec<String>,
}

/// A set closed under citation: an event citing a member is a member.
pub open spec fn closed_under_citation(g: Map<Seq<char>, EventView>, f: Set<Seq<char>>) -> bool {
    forall|y: Seq<char>, t: int|
        #![trigger f.contains(g[y].auth_events[t])]
        g.dom().contains(y) && 0 <= t < g[y].auth_events.len() && f.contains(g[y].auth_events[t])
            ==> f.contains(y)
}

proof fn lemma_closed_contains_descendants(
    g: Map<Seq<char>, EventView>,
    conflicted: Seq<Seq<char>>,
    f: Set<Seq<char>>,
    p: Seq<Seq<char>>,
    i: int,
)
    requires
        closed_under_citation(g, f),
        forall|c: Seq<char>| conflicted.contains(c) ==> f.contains(c),
        p.len() >= 1,
        conflicted.contains(p[0]),
        citation_chain(g, p),
        0 <= i < p.len(),
    ensures
        f.contains(p[i]),
    decreases i,
{
    if i > 0 {
        lemma_closed_contains_descendants(g, conflicted, f, p, i - 1);
        assert(cites(g, p[i - 1], p[i]));
        let t = choose|t: int| 0 <= t < g[p[i]].auth_events.len() && g[p[i]].auth_events[t] == p[i - 1];
        assert(f.contains(g[p[i]].auth_events[t]));
    }
}

/// The ids of `s` that the graph lacks.
pub open spec fn absent_of(g: Map<Seq<char>, EventView>, s: Seq<Seq<char>>) -> Set<Seq<char>> {
    Set::new(|a: Seq<char>| s.contains(a) && !g.dom().contains(a))
}

/// Whether another backwards step is allowed.
fn may_step(steps_left: Option<usize>) -> (r: bool)
    ensures
        r == match steps_left {
            Some(k) => k > 0,
            None => true,
        },
{
    match steps_left {
        Some(k) => k > 0,
        None => true,
    }
}

/// The set of a sequence grown by one element.
proof fn lemma_push_set(s: Seq<Seq<char>>, i: int)
    requires
        0 <= i < s.len(),
    ensures
        s.take(i + 1).to_set() == s.take(i).to_set().insert(s[i]),
{
    let t0 = s.take(i);
    let t1 = s.take(i + 1);
    assert(t1 =~= t0.push(s[i]));
    assert forall|y: Seq<char>| t1.to_set().contains(y) <==> t0.to_set().insert(s[i]).contains(y) by {
        if t1.to_set().contains(y) {
            let j = choose|j: int| 0 <= j < t1.len() && t1[j] == y;
            if j < t0.len() {
                assert(t0[j] == y);
            }
        }
        if t0.to_set().contains(y) {
            let j = choose|j: int| 0 <= j < t0.len() && t0[j] == y;
            assert(t1[j] == y);
        }
        if y == s[i] {
            assert(t1[i] == y);
        }
    }
    assert(t1.to_set() =~= t0.to_set().insert(s[i]));
}

/// Bounded version of conflicted subgraph computation.
/// `max_auth_depth`: If set, limits backwards traversal depth to prevent
/// history-flooding DoS attacks where a rogue admin generates millions of
/// spoofed events on a dead-end fork: only the events within that many auth
/// steps of a conflicted event are reached walking back.
pub fn compute_v2_1_conflicted_subgraph_bounded(
    auth_graph: &EventMap,
    conflicted_set: &[String],
    max_auth_depth: Option<usize>,
) -> (r: SubgraphResult)
    ensures
        r.subgraph@ == auth_graph@.restrict(
            ancestors_within(auth_graph@, strings_view(conflicted_set@), max_auth_depth).intersect(
                descendants(auth_graph@, strings_view(conflicted_set@)),
            ),
        ),
        increasing(strings_view(r.missing_auth_events@)),
        strings_view(r.missing_auth_events@).to_set() == missing_refs(
            auth_graph@,
            ancestors_within(auth_graph@, strings_view(conflicted_set@), max_auth_depth),
        ),
        forall|c: Seq<char>|
            strings_view(conflicted_set@).contains(c) && auth_graph@.dom().contains(c)
                ==> #[trigger] r.subgraph@.dom().contains(c),
{
    auth_graph.lemma_entries();
    auth_graph.lemma_cited(false);
    let ghost g = auth_graph@;
    let ghost conflicted = strings_view(conflicted_set@);
    let ghost cs = conflicted.to_set();
    let evs = auth_graph.events();
    let ghost ids = ids_of(evs@);
    let ghost univ = cited_ids(auth_graph.entries(), false).union(cs);
    proof {
        vstd::seq_lib::seq_to_set_is_finite(conflicted);
        assert forall|x: Seq<char>, a: Seq<char>|
            g.dom().contains(x) && #[trigger] g[x].auth_events.contains(a) implies univ.contains(a) by {
            assert(refs(g[x], false).contains(a));
        }
    }

    // 1. Calculate Backwards Reachable (Ancestors up the auth chain), one
    // level of auth steps at a time.
    let mut backwards_reachable = IdSet::new();
    let mut frontier: Vec<String> = Vec::new();
    let mut i: usize = 0;
    while i < conflicted_set.len()
        invariant
            i <= conflicted_set.len(),
            conflicted == strings_view(conflicted_set@),
            backwards_reachable@ == conflicted.take(i as int).to_set(),
            strings_view(frontier@).to_set() == backwards_reachable@,
            frontier.len() == backwards_reachable@.len(),
        decreases conflicted_set.len() - i,
    {
        backwards_reachable.lemma_layout();
        let c = conflicted_set[i].clone();
        let ghost before = frontier@;
        proof {
            lemma_push_set(conflicted, i as int);
            assert(conflicted[i as int] == c@);
        }
        if backwards_reachable.insert(c.clone()) {
            frontier.push(c);
            proof {
                assert(strings_view(frontier@) =~= strings_view(before).push(c@));
                lemma_push_set(strings_view(frontier@), before.len() as int);
                assert(strings_view(frontier@).take(before.len() as int + 1) =~= strings_view(frontier@));
                assert(strings_view(frontier@).take(before.len() as int) =~= strings_view(before));
            }
        }
        i = i + 1;
    }
    proof {
        assert(conflicted.take(i as int) =~= conflicted);
        assert(backwards_reachable@ == auth_reach(g, cs, 0));
        assert(strings_view(frontier@).to_set() =~= auth_reach(g, cs, 0).difference(auth_below(g, cs, 0)));
    }
    let mut steps_left: Option<usize> = max_auth_depth;
    let ghost mut level: nat = 0;
    while frontier.len() > 0 && may_step(steps_left)
        invariant
            g == auth_graph@,
            keyed_by_id(g),
            cs == strings_view(conflicted_set@).to_set(),
            univ.finite(),
            cs.subset_of(univ),
            forall|x: Seq<char>, a: Seq<char>|
                g.dom().contains(x) && #[trigger] g[x].auth_events.contains(a) ==> univ.contains(a),
            backwards_reachable@ == auth_reach(g, cs, level),
            strings_view(frontier@).to_set() == auth_reach(g, cs, level).difference(auth_below(g, cs, level)),
            frontier.len() + auth_below(g, cs, level).len() == backwards_reachable@.len(),
            auth_below(g, cs, level).finite(),
            auth_below(g, cs, level).subset_of(auth_reach(g, cs, level)),
            match max_auth_depth {
                Some(d) => level <= d && steps_left == Some((d - level) as usize),
                None => steps_left is None,
            },
        decreases univ.len() - backwards_reachable@.len() + frontier.len(),
    {
        let ghost rl = auth_reach(g, cs, level);
        let ghost bl = auth_below(g, cs, level);
        let ghost f = strings_view(frontier@).to_set();
        proof {
            lemma_auth_reach_within(g, cs, level, univ);
            vstd::set_lib::lemma_len_subset(rl, univ);
            if level > 0 {
                lemma_auth_reach_grows(g, cs, (level - 1) as nat, level);
            }
            assert(rl =~= bl.union(f));
        }
        let mut next: Vec<String> = Vec::new();
        let mut a: usize = 0;
        while a < frontier.len()
            invariant
                a <= frontier.len(),
                g == auth_graph@,
                keyed_by_id(g),
                rl == auth_reach(g, cs, level),
                f == strings_view(frontier@).to_set(),
                f.subset_of(rl),
                rl.finite(),
                backwards_reachable@ == rl.union(auth_parents(g, strings_view(frontier@).take(a as int).to_set())),
                strings_view(next@).to_set() == backwards_reachable@.difference(rl),
                next.len() + rl.len() == backwards_reachable@.len(),
            decreases frontier.len() - a,
        {
            let ghost fa = strings_view(frontier@).take(a as int).to_set();
            let ghost fb = strings_view(frontier@).take(a + 1).to_set();
            let ghost x = strings_view(frontier@)[a as int];
            proof {
                lemma_push_set(strings_view(frontier@), a as int);
            }
            match auth_graph.get(frontier[a].as_str()) {
                Some(ev) => {
                    let ghost auths = ev@.auth_events;
                    let mut b: usize = 0;
                    while b < ev.auth_events.len()
                        invariant
                            b <= ev.auth_events.len(),
                            auths == strings_view(ev.auth_events@),
                            rl.finite(),
                            backwards_reachable@ == rl.union(auth_parents(g, fa)).union(auths.take(b as int).to_set()),
                            strings_view(next@).to_set() == backwards_reachable@.difference(rl),
                            next.len() + rl.len() == backwards_reachable@.len(),
                        decreases ev.auth_events.len() - b,
                    {
                        let p = ev.auth_events[b].clone();
                        let ghost next_before = next@;
                        backwards_reachable.lemma_layout();
                        proof {
                            lemma_push_set(auths, b as int);
                        }
                        if backwards_reachable.insert(p.clone()) {
                            next.push(p);
                            proof {
                                assert(strings_view(next@) =~= strings_view(next_before).push(auths[b as int]));
                                lemma_push_set(strings_view(next@), next_before.len() as int);
                                assert(strings_view(next@).take(next_before.len() as int + 1) =~= strings_view(next@));
                                assert(strings_view(next@).take(next_before.len() as int) =~= strings_view(next_before));
                            }
                        }
                        proof {
                            assert(backwards_reachable@ =~= rl.union(auth_parents(g, fa)).union(
                                auths.take(b + 1).to_set(),
                            ));
                            assert(strings_view(next@).to_set() =~= backwards_reachable@.difference(rl));
                        }
                        b = b + 1;
                    }
                    proof {
                        assert(auths.take(b as int) =~= auths);
                        assert(g.dom().contains(x) && g[x] == ev@);
                        assert(auth_parents(g, fb) =~= auth_parents(g, fa).union(auths.to_set())) by {
                            assert forall|q: Seq<char>| auth_parents(g, fb).contains(q) <==> auth_parents(g, fa).union(
                                auths.to_set(),
                            ).contains(q) by {
                                if auth_parents(g, fb).contains(q) {
                                    let y = choose|y: Seq<char>|
                                        fb.contains(y) && g.dom().contains(y) && #[trigger] g[y].auth_events.contains(q);
                                    if y != x {
                                        assert(fa.contains(y));
                                    }
                                }
                                if auths.to_set().contains(q) {
                                    assert(g[x].auth_events.contains(q));
                                    assert(fb.contains(x));
                                }
                                if auth_parents(g, fa).contains(q) {
                                    let y = choose|y: Seq<char>|
                                        fa.contains(y) && g.dom().contains(y) && #[trigger] g[y].auth_events.contains(q);
                                    assert(fb.contains(y));
                                }
                            }
                        }
                        assert(backwards_reachable@ =~= rl.union(auth_parents(g, fb)));
                    }
                },
                None => {
                    proof {
                        assert(!g.dom().contains(x));
                        assert(auth_parents(g, fb) =~= auth_parents(g, fa)) by {
                            assert forall|q: Seq<char>| auth_parents(g, fb).contains(q) implies auth_parents(
                                g,
                                fa,
                            ).contains(q) by {
                                let y = choose|y: Seq<char>|
                                    fb.contains(y) && g.dom().contains(y) && #[trigger] g[y].auth_events.contains(q);
                                assert(fa.contains(y));
                            }
                            assert forall|q: Seq<char>| auth_parents(g, fa).contains(q) implies auth_parents(
                                g,
                                fb,
                            ).contains(q) by {
                                let y = choose|y: Seq<char>|
                                    fa.contains(y) && g.dom().contains(y) && #[trigger] g[y].auth_events.contains(q);
                                assert(fb.contains(y));
                            }
                        }
                    }
                },
            }
            a = a + 1;
        }
        proof {
            assert(strings_view(frontier@).take(a as int) =~= strings_view(frontier@));
            let nl = auth_reach(g, cs, level + 1);
            assert(nl == rl.union(auth_parents(g, rl)));
            assert(backwards_reachable@ =~= nl) by {
                assert forall|q: Seq<char>| auth_parents(g, rl).contains(q) implies backwards_reachable@.contains(q) by {
                    let y = choose|y: Seq<char>|
                        rl.contains(y) && g.dom().contains(y) && #[trigger] g[y].auth_events.contains(q);
                    if f.contains(y) {
                        assert(auth_parents(g, f).contains(q));
                    } else {
                        assert(bl.contains(y));
                        assert(level > 0);
                        assert(auth_parents(g, bl).contains(q));
                        assert(rl.contains(q));
                    }
                }
                assert forall|q: Seq<char>| auth_parents(g, f).contains(q) implies nl.contains(q) by {
                    let y = choose|y: Seq<char>|
                        f.contains(y) && g.dom().contains(y) && #[trigger] g[y].auth_events.contains(q);
                    assert(auth_parents(g, rl).contains(q));
                }
            }
            assert(auth_below(g, cs, level + 1) == rl);
        }
        frontier = next;
        steps_left = match steps_left {
            Some(k) => Some(k - 1),
            None => None,
        };
        proof {
            level = level + 1;
            lemma_auth_reach_within(g, cs, level, univ);
            vstd::set_lib::lemma_len_subset(auth_reach(g, cs, level), univ);
        }
    }
    backwards_reachable.lemma_layout();
    proof {
        let anc = ancestors_within(g, conflicted, max_auth_depth);
        if frontier.len() == 0 {
            // The walk stopped growing at `st`.
            let st: nat = if level == 0 {
                0
            } else {
                (level - 1) as nat
            };
            if level == 0 {
                assert(backwards_reachable@ =~= Set::<Seq<char>>::empty()) by {
                    if backwards_reachable@.len() == 0 {
                        vstd::set_lib::lemma_set_empty_equivalency_len(backwards_reachable@);
                    }
                }
                assert(auth_parents(g, Set::<Seq<char>>::empty()) =~= Set::<Seq<char>>::empty());
                assert(auth_reach(g, cs, 1) =~= auth_reach(g, cs, 0));
            } else {
                assert(auth_reach(g, cs, st + 1) =~= auth_reach(g, cs, st)) by {
                    lemma_auth_reach_grows(g, cs, st, level);
                    assert forall|y: Seq<char>| auth_reach(g, cs, level).contains(y) implies auth_reach(
                        g,
                        cs,
                        st,
                    ).contains(y) by {
                        if !auth_below(g, cs, level).contains(y) {
                            assert(strings_view(frontier@).to_set().contains(y));
                        }
                    }
                }
            }
            assert(backwards_reachable@ == auth_reach(g, cs, st));
            match max_auth_depth {
                Some(d) => {
                    lemma_auth_reach_stable(g, cs, st, (d - st) as nat);
                    assert(st + (d - st) as nat == d as nat);
                },
                None => {
                    lemma_stable_reach_is_chain(g, cs, st);
                },
            }
        } else {
            assert(max_auth_depth is Some);
        }
        assert(backwards_reachable@ == anc);
    }

    // 2. The auth ids that the reached events cite and the graph lacks.
    let reached = backwards_reachable.items();
    let ghost rs = strings_view(reached@);
    let mut missing_auth_events = IdSet::new();
    let mut a: usize = 0;
    proof {
        assert(missing_auth_events@ =~= missing_refs(g, rs.take(0).to_set())) by {
            assert(rs.take(0).to_set() =~= Set::<Seq<char>>::empty());
        }
    }
    while a < reached.len()
        invariant
            a <= reached.len(),
            g == auth_graph@,
            keyed_by_id(g),
            rs == strings_view(reached@),
            missing_auth_events@ == missing_refs(g, rs.take(a as int).to_set()),
        decreases reached.len() - a,
    {
        let ghost ta = rs.take(a as int).to_set();
        let ghost x = rs[a as int];
        proof {
            lemma_push_set(rs, a as int);
        }
        match auth_graph.get(reached[a].as_str()) {
            Some(ev) => {
                let ghost auths = ev@.auth_events;
                let mut b: usize = 0;
                while b < ev.auth_events.len()
                    invariant
                        b <= ev.auth_events.len(),
                        g == auth_graph@,
                        auths == strings_view(ev.auth_events@),
                        missing_auth_events@ == missing_refs(g, ta).union(absent_of(g, auths.take(b as int))),
                    decreases ev.auth_events.len() - b,
                {
                    let ghost q = auths[b as int];
                    proof {
                        assert(auths.take(b + 1) =~= auths.take(b as int).push(q));
                        assert(ev.auth_events@[b as int]@ == q);
                        assert forall|y: Seq<char>| auths.take(b + 1).contains(y) <==> (auths.take(
                            b as int,
                        ).contains(y) || y == q) by {
                            let t0 = auths.take(b as int);
                            let t1 = auths.take(b + 1);
                            if t1.contains(y) {
                                let j = choose|j: int| 0 <= j < t1.len() && t1[j] == y;
                                if j < t0.len() {
                                    assert(t0[j] == y);
                                }
                            }
                            if t0.contains(y) {
                                let j = choose|j: int| 0 <= j < t0.len() && t0[j] == y;
                                assert(t1[j] == y);
                            }
                            if y == q {
                                assert(t1[b as int] == y);
                            }
                        }
                    }
                    let ghost before = missing_auth_events@;
                    if !auth_graph.contains_key(ev.auth_events[b].as_str()) {
                        missing_auth_events.insert(ev.auth_events[b].clone());
                    }
                    proof {
                        assert(missing_auth_events@ =~= missing_refs(g, ta).union(absent_of(g, auths.take(b + 1))));
                    }
                    b = b + 1;
                }
                proof {
                    assert(auths.take(b as int) =~= auths);
                    assert(g.dom().contains(x) && g[x] == ev@);
                    let tb = rs.take(a + 1).to_set();
                    assert forall|q: Seq<char>| missing_refs(g, tb).contains(q) <==> missing_auth_events@.contains(q) by {
                        if missing_refs(g, tb).contains(q) {
                            let y = choose|y: Seq<char>|
                                tb.contains(y) && g.dom().contains(y) && #[trigger] g[y].auth_events.contains(q);
                            if y != x {
                                assert(ta.contains(y));
                                assert(auth_parents(g, ta).contains(q));
                            }
                        }
                        if missing_auth_events@.contains(q) {
                            if missing_refs(g, ta).contains(q) {
                                let y = choose|y: Seq<char>|
                                    ta.contains(y) && g.dom().contains(y) && #[trigger] g[y].auth_events.contains(q);
                                assert(tb.contains(y));
                            } else {
                                assert(auths.contains(q));
                                assert(g[x].auth_events.contains(q));
                                assert(tb.contains(x));
                            }
                        }
                    }
                    assert(missing_auth_events@ =~= missing_refs(g, tb));
                }
            },
            None => {
                proof {
                    let tb = rs.take(a + 1).to_set();
                    assert forall|q: Seq<char>| missing_refs(g, tb).contains(q) <==> missing_refs(g, ta).contains(q) by {
                        if missing_refs(g, tb).contains(q) {
                            let y = choose|y: Seq<char>|
                                tb.contains(y) && g.dom().contains(y) && #[trigger] g[y].auth_events.contains(q);
                            assert(ta.contains(y));
                            assert(auth_parents(g, ta).contains(q));
                        }
                        if missing_refs(g, ta).contains(q) {
                            let y = choose|y: Seq<char>|
                                ta.contains(y) && g.dom().contains(y) && #[trigger] g[y].auth_events.contains(q);
                            assert(tb.contains(y));
                            assert(auth_parents(g, tb).contains(q));
                        }
                    }
                    assert(missing_auth_events@ =~= missing_refs(g, tb));
                }
            },
        }
        a = a + 1;
    }
    proof {
        assert(rs.take(a as int) =~= rs);
    }

    // 2./3. Calculate Forwards Reachable (Descendants down the auth chain):
    // repeatedly add every event citing a reached id until none is added.
    let n = evs.len();
    let mut forwards_reachable = IdSet::new();
    let mut i: usize = 0;
    while i < conflicted_set.len()
        invariant
            i <= conflicted_set.len(),
            conflicted == strings_view(conflicted_set@),
            forwards_reachable@ == conflicted.take(i as int).to_set(),
        decreases conflicted_set.len() - i,
    {
        proof {
            assert(conflicted.take(i + 1) =~= conflicted.take(i as int).push(conflicted_set@[i as int]@));
            conflicted.take(i as int).lemma_push_to_set_commute(conflicted_set@[i as int]@);
        }
        forwards_reachable.insert(conflicted_set[i].clone());
        i = i + 1;
        assert(forwards_reachable@ =~= conflicted.take(i as int).to_set());
    }
    assert(conflicted.take(i as int) =~= conflicted);
    proof {
        assert forall|x: Seq<char>| forwards_reachable@.contains(x) implies descendants(g, conflicted).contains(x) by {
            let p = seq![x];
            assert(citation_chain(g, p));
            assert(p.last() == x);
        }
        vstd::seq_lib::seq_to_set_is_finite(conflicted);
        vstd::seq_lib::seq_to_set_is_finite(ids);
        vstd::set_lib::lemma_len_union(conflicted.to_set(), ids.to_set());
        conflicted.lemma_cardinality_of_set();
        ids.lemma_cardinality_of_set();
    }
    let ghost bound_all = conflicted.to_set().union(ids.to_set());
    loop
        invariant
            evs@ == auth_graph.entries(),
            g == auth_graph@,
            n == evs.len(),
            ids == ids_of(evs@),
            g.dom() == ids.to_set(),
            forall|x: int| 0 <= x < evs.len() ==> #[trigger] g[evs@[x].event_id@] == evs@[x]@,
            forall|c: Seq<char>| conflicted.contains(c) ==> forwards_reachable@.contains(c),
            forwards_reachable@.subset_of(descendants(g, conflicted)),
            forwards_reachable@.subset_of(bound_all),
            bound_all.finite(),
            bound_all.len() <= conflicted.len() + n,
            bound_all == conflicted.to_set().union(ids.to_set()),
        ensures
            forwards_reachable@ == descendants(g, conflicted),
        decreases conflicted.len() + n - forwards_reachable@.len(),
    {
        let ghost start_len = forwards_reachable@.len();
        let ghost start_set = forwards_reachable@;
        proof {
            vstd::set_lib::lemma_len_subset(forwards_reachable@, bound_all);
        }
        let mut changed = false;
        let mut j: usize = 0;
        while j < n
            invariant
                j <= n == evs.len(),
                evs@ == auth_graph.entries(),
                g == auth_graph@,
                ids == ids_of(evs@),
                g.dom() == ids.to_set(),
                forall|x: int| 0 <= x < evs.len() ==> #[trigger] g[evs@[x].event_id@] == evs@[x]@,
                forall|c: Seq<char>| conflicted.contains(c) ==> forwards_reachable@.contains(c),
                forwards_reachable@.subset_of(descendants(g, conflicted)),
                forwards_reachable@.subset_of(bound_all),
                start_set.subset_of(forwards_reachable@),
                forwards_reachable@.finite(),
                forwards_reachable@.len() <= bound_all.len(),
                bound_all.len() <= conflicted.len() + n,
                changed ==> forwards_reachable@.len() > start_len,
                !changed ==> forwards_reachable@ == start_set,
                bound_all.finite(),
                bound_all == conflicted.to_set().union(ids.to_set()),
                start_len == start_set.len(),
                !changed ==> forall|x: int, t: int|
                    #![trigger forwards_reachable@.contains(evs@[x]@.auth_events[t])]
                    0 <= x < j && 0 <= t < evs@[x]@.auth_events.len() && forwards_reachable@.contains(
                        evs@[x]@.auth_events[t],
                    ) ==> forwards_reachable@.contains(evs@[x].event_id@),
            decreases n - j,
        {
            let y = &evs[j];
            if !forwards_reachable.contains(&y.event_id) {
                let mut cited = false;
                let mut t: usize = 0;
                while t < y.auth_events.len()
                    invariant
                        t <= y.auth_events.len(),
                        !cited ==> forall|u: int| 0 <= u < t ==> !forwards_reachable@.contains(#[trigger] y@.auth_events[u]),
                        cited ==> exists|u: int| 0 <= u < y@.auth_events.len() && forwards_reachable@.contains(#[trigger] y@.auth_events[u]),
                    decreases y.auth_events.len() - t,
                {
                    if !cited && forwards_reachable.contains(&y.auth_events[t]) {
                        assert(y@.auth_events[t as int] == y.auth_events@[t as int]@);
                        cited = true;
                    }
                    t = t + 1;
                }
                if cited {
                    proof {
                        let u = choose|u: int| 0 <= u < y@.auth_events.len() && forwards_reachable@.contains(#[trigger] y@.auth_events[u]);
                        let a = y@.auth_events[u];
                        assert(descendants(g, conflicted).contains(a));
                        let p = choose|p: Seq<Seq<char>>|
                            #![trigger citation_chain(g, p), p.last()]
                            p.len() >= 1 && conflicted.contains(p[0]) && p.last() == a && citation_chain(g, p);
                        let q = p.push(y@.event_id);
                        assert(ids[j as int] == y@.event_id);
                        assert(g.dom().contains(y@.event_id));
                        assert(g[y@.event_id].auth_events.contains(a));
                        assert(cites(g, a, y@.event_id));
                        assert forall|k: int| 0 <= k < q.len() - 1 implies cites(g, #[trigger] q[k], q[k + 1]) by {
                            if k < p.len() - 1 {
                                assert(q[k] == p[k] && q[k + 1] == p[k + 1]);
                            }
                        }
                        assert(citation_chain(g, q));
                        assert(q.last() == y@.event_id);
                        assert(q[0] == p[0]);
                        assert(descendants(g, conflicted).contains(y@.event_id));
                        assert(ids.to_set().contains(y@.event_id));
                        assert(bound_all.contains(y@.event_id));
                    }
                    let ghost before = forwards_reachable@;
                    forwards_reachable.insert(y.event_id.clone());
                    proof {
                        vstd::set_lib::lemma_len_subset(forwards_reachable@, bound_all);
                    }
                    changed = true;
                }
            }
            j = j + 1;
        }
        if !changed {
            proof {
                assert forall|yk: Seq<char>, t: int|
                    #![trigger forwards_reachable@.contains(g[yk].auth_events[t])]
                    g.dom().contains(yk) && 0 <= t < g[yk].auth_events.len() && forwards_reachable@.contains(
                        g[yk].auth_events[t],
                    ) implies forwards_reachable@.contains(yk) by {
                    let x = choose|x: int| 0 <= x < ids.len() && ids[x] == yk;
                    assert(evs@[x].event_id@ == yk);
                }
                assert(closed_under_citation(g, forwards_reachable@));
                assert forall|x: Seq<char>| descendants(g, conflicted).contains(x) implies forwards_reachable@.contains(x) by {
                    let p = choose|p: Seq<Seq<char>>|
                        #![trigger citation_chain(g, p), p.last()]
                        p.len() >= 1 && conflicted.contains(p[0]) && p.last() == x && citation_chain(g, p);
                    lemma_closed_contains_descendants(g, conflicted, forwards_reachable@, p, p.len() - 1);
                }
                assert(forwards_reachable@ =~= descendants(g, conflicted));
            }
            break;
        }
    }

    // 4. Intersect and build the final Conflicted Subgraph
    let ghost keep = backwards_reachable@.intersect(forwards_reachable@);
    let mut subgraph = EventMap::new();
    let mut j: usize = 0;
    while j < n
        invariant
            j <= n == evs.len(),
            evs@ == auth_graph.entries(),
            g == auth_graph@,
            ids == ids_of(evs@),
            g.dom() == ids.to_set(),
            forall|x: int| 0 <= x < evs.len() ==> #[trigger] g[evs@[x].event_id@] == evs@[x]@,
            keep == backwards_reachable@.intersect(forwards_reachable@),
            subgraph@ == g.restrict(keep.intersect(ids.take(j as int).to_set())),
        decreases n - j,
    {
        let y = &evs[j];
        let ghost before = subgraph@;
        proof {
            assert(ids[j as int] == y@.event_id);
            assert(ids.take(j + 1) =~= ids.take(j as int).push(y@.event_id));
            ids.take(j as int).lemma_push_to_set_commute(y@.event_id);
            assert(ids.to_set().contains(y@.event_id));
        }
        if backwards_reachable.contains(&y.event_id) && forwards_reachable.contains(&y.event_id) {
            subgraph.insert(y.clone());
            assert(subgraph@ =~= g.restrict(keep.intersect(ids.take(j + 1).to_set())));
        } else {
            assert(subgraph@ =~= g.restrict(keep.intersect(ids.take(j + 1).to_set())));
        }
        j = j + 1;
    }
    assert(ids.take(j as int) =~= ids);
    assert(subgraph@ =~= g.restrict(keep));
    proof {
        assert forall|c: Seq<char>| conflicted.contains(c) && g.dom().contains(c) implies #[trigger] subgraph@.dom().contains(c) by {
            lemma_conflicted_events_in_subgraph(g, max_auth_depth, conflicted, c);
        }
    }
    SubgraphResult { subgraph, missing_auth_events: missing_auth_events.into_vec() }
}

/// The conflicted subgraph without a depth bound.
pub fn compute_v2_1_conflicted_subgraph(auth_graph: &EventMap, conflicted_set: &[String]) -> (r: EventMap)
    ensures
        r@ == auth_graph@.restrict(
            ancestors_within(auth_graph@, strings_view(conflicted_set@), None).intersect(
                descendants(auth_graph@, strings_view(conflicted_set@)),
            ),
        ),
{
    compute_v2_1_conflicted_subgraph_bounded(auth_graph, conflicted_set, None).subgraph
}

/// Every conflicted event that the graph holds belongs to the conflicted
/// subgraph, whatever the depth bound.
pub proof fn lemma_conflicted_events_in_subgraph(
    g: Map<Seq<char>, EventView>,
    bound: Option<usize>,
    conflicted: Seq<Seq<char>>,
    c: Seq<char>,
)
    requires
        conflicted.contains(c),
    ensures
        ancestors_within(g, conflicted, bound).intersect(descendants(g, conflicted)).contains(c),
{
    match bound {
        Some(d) => {
            lemma_auth_reach_grows(g, conflicted.to_set(), 0, d as nat);
        },
        None => {},
    }
    let p = seq![c];
    assert(citation_chain(g, p));
    assert(p.last() == c);
    assert(descendants(g, conflicted).contains(c));
}

/// A depth bound only shrinks what the walk reaches: the bounded subgraph
/// lies within the unbounded one, and so do the missing auth events it
/// reports.
pub proof fn lemma_bound_only_shrinks(g: Map<Seq<char>, EventView>, conflicted: Seq<Seq<char>>, d: usize)
    ensures
        ancestors_within(g, conflicted, Some(d)).subset_of(ancestors_within(g, conflicted, None)),
        g.restrict(ancestors_within(g, conflicted, Some(d)).intersect(descendants(g, conflicted))).dom().subset_of(
            g.restrict(ancestors_within(g, conflicted, None).intersect(descendants(g, conflicted))).dom(),
        ),
        missing_refs(g, ancestors_within(g, conflicted, Some(d))).subset_of(
            missing_refs(g, ancestors_within(g, conflicted, None)),
        ),
{
    let cs = conflicted.to_set();
    lemma_auth_reach_in_chain(g, cs, d as nat);
    let small = ancestors_within(g, conflicted, Some(d));
    let big = ancestors_within(g, conflicted, None);
    assert forall|q: Seq<char>| missing_refs(g, small).contains(q) implies missing_refs(g, big).contains(q) by {
        let y = choose|y: Seq<char>| small.contains(y) && g.dom().contains(y) && #[trigger] g[y].auth_events.contains(q);
        assert(big.contains(y));
        assert(auth_parents(g, big).contains(q));
    }
}

/// A bigger bound reaches at least as far back.
pub proof fn lemma_bound_monotone(g: Map<Seq<char>, EventView>, conflicted: Seq<Seq<char>>, d: usize, e: usize)
    requires
        d <= e,
    ensures
        ancestors_within(g, conflicted, Some(d)).subset_of(ancestors_within(g, conflicted, Some(e))),
{
    lemma_auth_reach_grows(g, conflicted.to_set(), d as nat, e as nat);
}

} // verus!
