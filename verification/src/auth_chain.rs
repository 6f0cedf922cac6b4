//! The auth chain of a set of events: every id reached from them by
//! following auth events, one or more steps.
use crate::event::{strings_view, EventView};
use crate::event_map::{cited_ids, keyed_by_id, refs, EventMap};
use crate::id_set::{increasing, IdSet};
use vstd::prelude::*;

verus! {

/// `p` is a walk along auth events: each id but the last belongs to an
/// event of `m` that lists the next id among its auth events.
pub open spec fn auth_walk(m: Map<Seq<char>, EventView>, p: Seq<Seq<char>>) -> bool {
    forall|i: int|
        0 <= i < p.len() - 1 ==> m.dom().contains(#[trigger] p[i]) && m[p[i]].auth_events.contains(p[i + 1])
}

/// The auth chain of `roots`: the ids at the end of an auth walk of one or
/// more steps that starts at a root.
pub open spec fn auth_chain_of(m: Map<Seq<char>, EventView>, roots: Set<Seq<char>>) -> Set<Seq<char>> {
    Set::new(
        |a: Seq<char>|
            exists|p: Seq<Seq<char>>|
                #![trigger auth_walk(m, p), p.last()]
                p.len() >= 2 && roots.contains(p[0]) && p.last() == a && auth_walk(m, p),
    )
}

/// Every auth event of `x`, when `m` holds it, lies in `s`.
pub open spec fn expanded(m: Map<Seq<char>, EventView>, s: Set<Seq<char>>, x: Seq<char>) -> bool {
    m.dom().contains(x) ==> forall|a: Seq<char>| #[trigger] m[x].auth_events.contains(a) ==> s.contains(a)
}

/// A set closed under auth steps from the roots holds every walk's end.
pub proof fn lemma_walk_in_closure(
    m: Map<Seq<char>, EventView>,
    roots: Set<Seq<char>>,
    s: Set<Seq<char>>,
    p: Seq<Seq<char>>,
    i: int,
)
    requires
        forall|x: Seq<char>| (roots.contains(x) || s.contains(x)) ==> #[trigger] expanded(m, s, x),
        auth_walk(m, p),
        roots.contains(p[0]),
        1 <= i < p.len(),
    ensures
        s.contains(p[i]),
    decreases i,
{
    if i > 1 {
        lemma_walk_in_closure(m, roots, s, p, i - 1);
    }
    assert(m.dom().contains(p[i - 1]) && m[p[i - 1]].auth_events.contains(p[i]));
    assert(expanded(m, s, p[i - 1]));
}

/// The auth chain of the events `resolved_ids`, in increasing order: every
/// id reached from them by following auth events (one or more steps). An id
/// that `events` lacks is listed when reached, and ends its walk.
pub fn compute_auth_chain(resolved_ids: &Vec<String>, events: &EventMap) -> (r: Vec<String>)
    ensures
        strings_view(r@).to_set() == auth_chain_of(events@, strings_view(resolved_ids@).to_set()),
        increasing(strings_view(r@)),
{
    events.lemma_entries();
    events.lemma_cited(false);
    let ghost m = events@;
    let ghost roots = strings_view(resolved_ids@).to_set();
    let ghost univ = cited_ids(events.entries(), false);
    let mut chain = IdSet::new();
    let mut stack: Vec<String> = Vec::new();
    let mut i: usize = 0;
    while i < resolved_ids.len()
        invariant
            i <= resolved_ids.len(),
            strings_view(stack@) == strings_view(resolved_ids@).take(i as int),
        decreases resolved_ids.len() - i,
    {
        let ghost before = stack@;
        stack.push(resolved_ids[i].clone());
        proof {
            assert(strings_view(stack@) =~= strings_view(before).push(resolved_ids@[i as int]@));
            assert(strings_view(stack@) =~= strings_view(resolved_ids@).take(i + 1));
        }
        i = i + 1;
    }
    proof {
        assert(strings_view(resolved_ids@).take(i as int) =~= strings_view(resolved_ids@));
        assert(chain@ =~= Set::<Seq<char>>::empty());
    }
    while stack.len() > 0
        invariant
            m == events@,
            keyed_by_id(m),
            univ.finite(),
            forall|x: Seq<char>, a: Seq<char>|
                m.dom().contains(x) && #[trigger] refs(m[x], false).contains(a) ==> univ.contains(a),
            chain@.subset_of(univ),
            chain@.subset_of(auth_chain_of(m, roots)),
            forall|x: Seq<char>|
                #[trigger] strings_view(stack@).contains(x) ==> roots.contains(x) || chain@.contains(x),
            forall|x: Seq<char>|
                (roots.contains(x) || chain@.contains(x)) ==> strings_view(stack@).contains(x)
                    || #[trigger] expanded(m, chain@, x),
        decreases univ.len() - chain@.len(), stack.len(),
    {
        chain.lemma_layout();
        proof {
            vstd::set_lib::lemma_len_subset(chain@, univ);
        }
        let ghost whole = strings_view(stack@);
        let id = stack.pop().unwrap();
        let ghost x = id@;
        let ghost chain0 = chain@;
        proof {
            assert(whole =~= strings_view(stack@).push(x));
            assert(whole.last() == x);
            assert forall|y: Seq<char>| #[trigger] whole.contains(y) implies y == x || strings_view(
                stack@,
            ).contains(y) by {
                let j = choose|j: int| 0 <= j < whole.len() && whole[j] == y;
                if j < whole.len() - 1 {
                    assert(strings_view(stack@)[j] == y);
                }
            }
            assert(whole.contains(x)) by {
                assert(whole[whole.len() - 1] == x);
            }
            assert forall|y: Seq<char>| #[trigger] strings_view(stack@).contains(y) implies roots.contains(y)
                || chain@.contains(y) by {
                let j = choose|j: int| 0 <= j < strings_view(stack@).len() && strings_view(stack@)[j] == y;
                assert(whole[j] == y);
                assert(whole.contains(y));
            }
        }
        match events.get(id.as_str()) {
            Some(ev) => {
                let ghost auths = ev@.auth_events;
                let mut b: usize = 0;
                while b < ev.auth_events.len()
                    invariant
                        b <= ev.auth_events.len(),
                        auths == strings_view(ev.auth_events@),
                        m.dom().contains(x),
                        m[x] == ev@,
                        roots.contains(x) || chain0.contains(x),
                        chain0.subset_of(auth_chain_of(m, roots)),
                        chain@ == chain0.union(auths.take(b as int).to_set()),
                        chain@.subset_of(univ),
                        chain@.subset_of(auth_chain_of(m, roots)),
                        univ.finite(),
                        forall|x: Seq<char>, a: Seq<char>|
                            m.dom().contains(x) && #[trigger] refs(m[x], false).contains(a) ==> univ.contains(a),
                        chain0.len() <= chain@.len(),
                        chain@.finite(),
                        forall|y: Seq<char>|
                            #[trigger] strings_view(stack@).contains(y) ==> roots.contains(y) || chain@.contains(y),
                        forall|y: Seq<char>|
                            (roots.contains(y) || chain@.contains(y)) ==> y == x || strings_view(stack@).contains(y)
                                || #[trigger] expanded(m, chain@, y),
                        stack@.len() >= whole.len() - 1,
                        chain@.len() == chain0.len() ==> stack@.len() == whole.len() - 1,
                    decreases ev.auth_events.len() - b,
                {
                    let a = ev.auth_events[b].clone();
                    let ghost av = a@;
                    let ghost chain1 = chain@;
                    let ghost stack1 = stack@;
                    chain.lemma_layout();
                    proof {
                        assert(auths[b as int] == av);
                        assert(refs(m[x], false).contains(av)) by {
                            assert(m[x].auth_events[b as int] == av);
                        }
                        // `av` ends a walk: the one that reached `x`, one step longer.
                        assert(m[x].auth_events.contains(av));
                        lemma_auth_chain_closed(m, roots, x, av);
                    }
                    if chain.insert(a.clone()) {
                        stack.push(a);
                        proof {
                            assert(strings_view(stack@) =~= strings_view(stack1).push(av));
                            assert(strings_view(stack@)[stack1.len() as int] == av);
                            assert forall|y: Seq<char>| #[trigger] strings_view(stack1).contains(y) implies strings_view(
                                stack@,
                            ).contains(y) by {
                                let j = choose|j: int| 0 <= j < stack1.len() && strings_view(stack1)[j] == y;
                                assert(strings_view(stack@)[j] == y);
                            }
                            assert forall|y: Seq<char>| #[trigger] strings_view(stack@).contains(y) implies y == av
                                || strings_view(stack1).contains(y) by {
                                let j = choose|j: int| 0 <= j < stack@.len() && strings_view(stack@)[j] == y;
                                if j < stack1.len() {
                                    assert(strings_view(stack1)[j] == y);
                                }
                            }
                        }
                    }
                    proof {
                        assert(auths.take(b + 1) =~= auths.take(b as int).push(av));
                        assert(auths.take(b + 1).to_set() =~= auths.take(b as int).to_set().insert(av)) by {
                            let t0 = auths.take(b as int);
                            let t1 = auths.take(b + 1);
                            assert forall|y: Seq<char>| t1.to_set().contains(y) <==> t0.to_set().insert(av).contains(
                                y,
                            ) by {
                                if t1.to_set().contains(y) {
                                    let j = choose|j: int| 0 <= j < t1.len() && t1[j] == y;
                                    if j < t0.len() {
                                        assert(t0[j] == y);
                                    }
                                }
                                if t0.to_set().contains(y) {
                                    let j = choose|j: int| 0 <= j < t0.len() && t0[j] == y;
                                    assert(t1[j] == y);
                                }
                                if y == av {
                                    assert(t1[b as int] == y);
                                }
                            }
                        }
                        assert(chain@ =~= chain0.union(auths.take(b + 1).to_set()));
                        assert forall|y: Seq<char>| (roots.contains(y) || chain@.contains(y)) implies y == x
                            || strings_view(stack@).contains(y) || #[trigger] expanded(m, chain@, y) by {
                            if y != x && !strings_view(stack@).contains(y) {
                                if chain1.contains(y) || roots.contains(y) {
                                    if !strings_view(stack1).contains(y) {
                                        assert(expanded(m, chain1, y));
                                    } else {
                                        if chain@.len() > chain1.len() {
                                            assert(strings_view(stack@).contains(y));
                                        }
                                    }
                                } else {
                                    assert(y == av);
                                    assert(strings_view(stack@).contains(y));
                                }
                            }
                        }
                        vstd::set_lib::lemma_len_subset(chain1, chain@);
                    }
                    b = b + 1;
                }
                proof {
                    assert(auths.take(b as int) =~= auths);
                    assert(expanded(m, chain@, x)) by {
                        assert forall|a: Seq<char>| #[trigger] m[x].auth_events.contains(a) implies chain@.contains(a) by {
                            assert(auths.to_set().contains(a));
                        }
                    }
                }
            },
            None => {
                proof {
                    assert(expanded(m, chain@, x));
                }
            },
        }
        chain.lemma_layout();
        proof {
            vstd::set_lib::lemma_len_subset(chain@, univ);
        }
    }
    proof {
        let s = chain@;
        assert forall|a: Seq<char>| auth_chain_of(m, roots).contains(a) implies s.contains(a) by {
            let p = choose|p: Seq<Seq<char>>|
                #![trigger auth_walk(m, p), p.last()]
                p.len() >= 2 && roots.contains(p[0]) && p.last() == a && auth_walk(m, p);
            assert forall|x: Seq<char>| (roots.contains(x) || s.contains(x)) implies #[trigger] expanded(m, s, x) by {
                assert(!strings_view(stack@).contains(x));
            }
            lemma_walk_in_closure(m, roots, s, p, p.len() - 1);
        }
        assert(s =~= auth_chain_of(m, roots));
    }
    chain.into_vec()
}

/// The auth chain is closed: the auth events of every event in it, or of
/// a root, are in it too.
pub proof fn lemma_auth_chain_closed(m: Map<Seq<char>, EventView>, roots: Set<Seq<char>>, x: Seq<char>, a: Seq<char>)
    requires
        roots.contains(x) || auth_chain_of(m, roots).contains(x),
        m.dom().contains(x),
        m[x].auth_events.contains(a),
    ensures
        auth_chain_of(m, roots).contains(a),
{
    if roots.contains(x) {
        let p = seq![x, a];
        assert(auth_walk(m, p));
        assert(p.last() == a);
    } else {
        let p = choose|p: Seq<Seq<char>>|
            #![trigger auth_walk(m, p), p.last()]
            p.len() >= 2 && roots.contains(p[0]) && p.last() == x && auth_walk(m, p);
        let q = p.push(a);
        assert forall|k: int| 0 <= k < q.len() - 1 implies m.dom().contains(#[trigger] q[k])
            && m[q[k]].auth_events.contains(q[k + 1]) by {
            if k < p.len() - 1 {
                assert(q[k] == p[k] && q[k + 1] == p[k + 1]);
            }
        }
        assert(auth_walk(m, q));
        assert(q.last() == a && q[0] == p[0]);
    }
}

} // verus!
