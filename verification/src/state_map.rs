//! Room state: a map from `(event type, state key)` to a value, kept in
//! key order (the order of the ordered maps that room state is held in).
use crate::event::LeanEvent;
use crate::text::{chars_of, chars_lt, lemma_lex_irreflexive, lemma_lex_total, lemma_lex_transitive, lex_lt, str_eq};
use vstd::prelude::*;

verus! {

/// The text of a state key.
pub type KeyView = (Seq<char>, Seq<char>);

/// The order of state keys: by event type, then by state key.
pub open spec fn key_lt(a: KeyView, b: KeyView) -> bool {
    lex_lt(a.0, b.0) || (a.0 == b.0 && lex_lt(a.1, b.1))
}

/// The order of state keys is a strict total order.
pub proof fn lemma_key_order(a: KeyView, b: KeyView, c: KeyView)
    ensures
        !key_lt(a, a),
        a != b ==> (key_lt(a, b) || key_lt(b, a)),
        !(key_lt(a, b) && key_lt(b, a)),
        key_lt(a, b) && key_lt(b, c) ==> key_lt(a, c),
{
    lemma_lex_irreflexive(a.0);
    lemma_lex_irreflexive(a.1);
    lemma_lex_total(a.0, b.0);
    lemma_lex_total(a.1, b.1);
    if lex_lt(a.0, b.0) && lex_lt(b.0, c.0) {
        lemma_lex_transitive(a.0, b.0, c.0);
    }
    if lex_lt(a.1, b.1) && lex_lt(b.1, c.1) {
        lemma_lex_transitive(a.1, b.1, c.1);
    }
}

/// Values whose copies keep their view.
pub trait ViewClone: View + Sized {
    fn view_clone(&self) -> (r: Self)
        ensures
            r@ == self@,
    ;
}

impl ViewClone for String {
    fn view_clone(&self) -> (r: Self) {
        self.clone()
    }
}

impl ViewClone for LeanEvent {
    fn view_clone(&self) -> (r: Self) {
        self.clone()
    }
}

/// The key of an entry, as text.
pub open spec fn entry_key<V>(e: ((String, String), V)) -> KeyView {
    (e.0.0@, e.0.1@)
}

/// Entries strictly increasing by key.
pub open spec fn sorted_entries<V>(s: Seq<((String, String), V)>) -> bool {
    forall|i: int, j: int| 0 <= i < j < s.len() ==> key_lt(entry_key(s[i]), entry_key(s[j]))
}

/// The position of key `k` among entries with distinct keys.
pub open spec fn key_slot<V>(s: Seq<((String, String), V)>, k: KeyView) -> int {
    choose|i: int| 0 <= i < s.len() && entry_key(s[i]) == k
}

/// The map held by entries with distinct keys.
pub open spec fn entries_map<V: View>(s: Seq<((String, String), V)>) -> Map<KeyView, V::V> {
    Map::new(
        |k: KeyView| exists|i: int| 0 <= i < s.len() && entry_key(s[i]) == k,
        |k: KeyView| s[key_slot(s, k)].1@,
    )
}

/// A map from `(event type, state key)` to values, iterated in key order.
#[derive(Debug)]
pub struct StateMap<V: View> {
    entries: Vec<((String, String), V)>,
}

/// The room state at a specific point in the DAG (keyed by (type, state_key) -> event).
pub type RoomState = StateMap<LeanEvent>;

/// Facts about the map held by entries in increasing key order.
pub proof fn lemma_entries_map<V: View>(s: Seq<((String, String), V)>)
    requires
        sorted_entries(s),
    ensures
        forall|i: int|
            0 <= i < s.len() ==> key_slot(s, #[trigger] entry_key(s[i])) == i,
        forall|i: int|
            0 <= i < s.len() ==> entries_map(s).dom().contains(#[trigger] entry_key(s[i])),
        forall|i: int|
            0 <= i < s.len() ==> entries_map(s)[#[trigger] entry_key(s[i])] == s[i].1@,
        entries_map(s).dom().finite(),
        entries_map(s).dom().len() == s.len(),
{
    assert forall|i: int| 0 <= i < s.len() implies key_slot(s, #[trigger] entry_key(s[i])) == i by {
        let j = key_slot(s, entry_key(s[i]));
        if j != i {
            lemma_key_order(entry_key(s[i]), entry_key(s[j]), entry_key(s[j]));
        }
    }
    let keys = s.map_values(|e: ((String, String), V)| entry_key(e));
    assert(entries_map(s).dom() =~= keys.to_set()) by {
        assert forall|k: KeyView| entries_map(s).dom().contains(k) implies keys.to_set().contains(k) by {
            let i = choose|i: int| 0 <= i < s.len() && entry_key(s[i]) == k;
            assert(keys[i] == k);
        }
        assert forall|k: KeyView| keys.to_set().contains(k) implies entries_map(s).dom().contains(k) by {
            let i = choose|i: int| 0 <= i < keys.len() && keys[i] == k;
            assert(entry_key(s[i]) == k);
        }
    }
    assert(keys.no_duplicates()) by {
        assert forall|i: int, j: int| 0 <= i < keys.len() && 0 <= j < keys.len() && i != j implies keys[i]
            != keys[j] by {
            lemma_key_order(keys[i], keys[j], keys[j]);
        }
    }
    keys.unique_seq_to_set();
    vstd::seq_lib::seq_to_set_is_finite(keys);
}

impl<V: View> View for StateMap<V> {
    type V = Map<KeyView, V::V>;

    closed spec fn view(&self) -> Map<KeyView, V::V> {
        entries_map(self.entries@)
    }
}

/// Whether entry key `(a0, a1)` precedes `(b0, b1)`.
fn key_lt_exec(a0: &String, a1: &String, b0: &String, b1: &String) -> (r: bool)
    ensures
        r == key_lt((a0@, a1@), (b0@, b1@)),
{
    let a0c = chars_of(a0.as_str());
    let b0c = chars_of(b0.as_str());
    if chars_lt(&a0c, &b0c) {
        true
    } else if *a0 == *b0 {
        chars_lt(&chars_of(a1.as_str()), &chars_of(b1.as_str()))
    } else {
        false
    }
}

impl<V: View> StateMap<V> {
    #[verifier::type_invariant]
    spec fn sorted(self) -> bool {
        sorted_entries(self.entries@)
    }

    /// The entries, in increasing key order.
    pub closed spec fn entry_seq(self) -> Seq<((String, String), V)> {
        self.entries@
    }

    /// Facts linking the entries to the map (a no-op at run time).
    pub(crate) fn lemma_layout(&self)
        ensures
            sorted_entries(self.entry_seq()),
            self@ == entries_map(self.entry_seq()),
            self@.dom().finite(),
            self@.dom().len() == self.entry_seq().len(),
            forall|i: int|
                0 <= i < self.entry_seq().len() ==> self@.dom().contains(
                    #[trigger] entry_key(self.entry_seq()[i]),
                ),
            forall|i: int|
                0 <= i < self.entry_seq().len() ==> self@[#[trigger] entry_key(self.entry_seq()[i])]
                    == self.entry_seq()[i].1@,
    {
        proof {
            use_type_invariant(self);
            lemma_entries_map(self.entries@);
        }
    }

    /// An empty map.
    pub fn new() -> (r: Self)
        ensures
            r@ == Map::<KeyView, V::V>::empty(),
    {
        let r = StateMap { entries: Vec::new() };
        assert(r@ =~= Map::<KeyView, V::V>::empty());
        r
    }

    /// The entries, in increasing key order.
    pub fn entries(&self) -> (r: &Vec<((String, String), V)>)
        ensures
            r@ == self.entry_seq(),
            sorted_entries(r@),
            self@ == entries_map(r@),
    {
        self.lemma_layout();
        &self.entries
    }

    /// The number of entries.
    pub fn len(&self) -> (r: usize)
        ensures
            r == self@.dom().len(),
    {
        self.lemma_layout();
        self.entries.len()
    }

    /// The position at which key `(k0, k1)` is or would be stored: every
    /// entry before it has a smaller key and no entry from it on has.
    fn search(&self, k0: &String, k1: &String) -> (r: usize)
        ensures
            r <= self.entry_seq().len(),
            forall|i: int| 0 <= i < r ==> key_lt(entry_key(#[trigger] self.entry_seq()[i]), (k0@, k1@)),
            forall|i: int|
                r <= i < self.entry_seq().len() ==> !key_lt(
                    entry_key(#[trigger] self.entry_seq()[i]),
                    (k0@, k1@),
                ),
    {
        proof {
            use_type_invariant(self);
        }
        let mut i: usize = 0;
        while i < self.entries.len() && key_lt_exec(
            &self.entries[i].0.0,
            &self.entries[i].0.1,
            k0,
            k1,
        )
            invariant
                i <= self.entries.len(),
                sorted_entries(self.entries@),
                forall|j: int| 0 <= j < i ==> key_lt(entry_key(#[trigger] self.entries@[j]), (k0@, k1@)),
            decreases self.entries.len() - i,
        {
            i = i + 1;
        }
        proof {
            assert forall|j: int| i <= j < self.entries@.len() implies !key_lt(
                entry_key(#[trigger] self.entries@[j]),
                (k0@, k1@),
            ) by {
                if j > i {
                    lemma_key_order(
                        entry_key(self.entries@[i as int]),
                        entry_key(self.entries@[j]),
                        (k0@, k1@),
                    );
                    lemma_key_order(
                        entry_key(self.entries@[j]),
                        (k0@, k1@),
                        entry_key(self.entries@[i as int]),
                    );
                    lemma_key_order(
                        entry_key(self.entries@[i as int]),
                        entry_key(self.entries@[j]),
                        entry_key(self.entries@[j]),
                    );
                }
            }
        }
        i
    }

    /// The value stored under `(k0, k1)`.
    pub fn get(&self, k0: &String, k1: &String) -> (r: Option<&V>)
        ensures
            match r {
                Some(v) => self@.dom().contains((k0@, k1@)) && self@[(k0@, k1@)] == v@,
                None => !self@.dom().contains((k0@, k1@)),
            },
    {
        self.lemma_layout();
        let i = self.search(k0, k1);
        if i < self.entries.len() && self.entries[i].0.0 == *k0 && self.entries[i].0.1 == *k1 {
            Some(&self.entries[i].1)
        } else {
            proof {
                if self@.dom().contains((k0@, k1@)) {
                    let j = choose|j: int|
                        0 <= j < self.entries@.len() && entry_key(self.entries@[j]) == (k0@, k1@);
                    lemma_key_order((k0@, k1@), (k0@, k1@), (k0@, k1@));
                    if j > i {
                        lemma_key_order(
                            entry_key(self.entries@[i as int]),
                            entry_key(self.entries@[j]),
                            entry_key(self.entries@[j]),
                        );
                        lemma_key_order(
                            entry_key(self.entries@[i as int]),
                            (k0@, k1@),
                            entry_key(self.entries@[i as int]),
                        );
                    }
                }
            }
            None
        }
    }

    /// Whether key `(k0, k1)` is present.
    pub fn contains_key(&self, k0: &String, k1: &String) -> (r: bool)
        ensures
            r == self@.dom().contains((k0@, k1@)),
    {
        match self.get(k0, k1) {
            Some(_) => true,
            None => false,
        }
    }

    /// Stores `value` under `(k0, k1)`, replacing any previous value.
    pub fn insert(&mut self, k0: String, k1: String, value: V)
        ensures
            final(self)@ == old(self)@.insert((k0@, k1@), value@),
    {
        self.lemma_layout();
        let ghost k = (k0@, k1@);
        let ghost vv = value@;
        let ghost old_entries = self.entries@;
        let i = self.search(&k0, &k1);
        let found = i < self.entries.len() && self.entries[i].0.0 == k0 && self.entries[i].0.1 == k1;
        let mut es: Vec<((String, String), V)> = Vec::new();
        std::mem::swap(&mut es, &mut self.entries);
        if found {
            es.set(i, ((k0, k1), value));
            proof {
                assert forall|a: int, b: int| 0 <= a < b < es@.len() implies key_lt(
                    entry_key(es@[a]),
                    entry_key(es@[b]),
                ) by {
                    assert(entry_key(es@[a]) == entry_key(old_entries[a]));
                    assert(entry_key(es@[b]) == entry_key(old_entries[b]));
                }
                lemma_entries_map(es@);
                lemma_entries_map(old_entries);
                assert forall|kk: KeyView| entries_map(es@).dom().contains(kk) <==> entries_map(
                    old_entries,
                ).dom().contains(kk) by {
                    if entries_map(es@).dom().contains(kk) {
                        let j = choose|j: int| 0 <= j < es@.len() && entry_key(es@[j]) == kk;
                        assert(entry_key(old_entries[j]) == kk);
                    }
                    if entries_map(old_entries).dom().contains(kk) {
                        let j = choose|j: int|
                            0 <= j < old_entries.len() && entry_key(old_entries[j]) == kk;
                        assert(entry_key(es@[j]) == kk);
                    }
                }
                assert forall|kk: KeyView| #[trigger]
                    entries_map(es@).dom().contains(kk) && kk != k implies entries_map(es@)[kk]
                    == entries_map(old_entries)[kk] by {
                    let j = choose|j: int| 0 <= j < es@.len() && entry_key(es@[j]) == kk;
                    assert(entry_key(old_entries[j]) == kk);
                }
                assert(entry_key(es@[i as int]) == k);
                assert(entries_map(es@) =~= entries_map(old_entries).insert(k, vv));
            }
        } else {
            es.insert(i, ((k0, k1), value));
            proof {
                if i < old_entries.len() {
                    lemma_key_order(entry_key(old_entries[i as int]), k, k);
                }
                assert forall|a: int, b: int| 0 <= a < b < es@.len() implies key_lt(
                    entry_key(es@[a]),
                    entry_key(es@[b]),
                ) by {
                    if b < i {
                    } else if b == i {
                    } else if a < i {
                        assert(es@[b] == old_entries[b - 1]);
                        lemma_key_order(entry_key(es@[a]), k, entry_key(old_entries[i as int]));
                        if b - 1 > i {
                            lemma_key_order(
                                k,
                                entry_key(old_entries[i as int]),
                                entry_key(old_entries[b - 1]),
                            );
                            lemma_key_order(
                                entry_key(es@[a]),
                                k,
                                entry_key(old_entries[b - 1]),
                            );
                        }
                    } else if a == i {
                        assert(es@[b] == old_entries[b - 1]);
                        if b - 1 > i {
                            lemma_key_order(
                                k,
                                entry_key(old_entries[i as int]),
                                entry_key(old_entries[b - 1]),
                            );
                        }
                    } else {
                        assert(es@[a] == old_entries[a - 1]);
                        assert(es@[b] == old_entries[b - 1]);
                    }
                }
                lemma_entries_map(es@);
                lemma_entries_map(old_entries);
                assert forall|kk: KeyView| entries_map(es@).dom().contains(kk) <==> (entries_map(
                    old_entries,
                ).dom().contains(kk) || kk == k) by {
                    if entries_map(es@).dom().contains(kk) && kk != k {
                        let j = choose|j: int| 0 <= j < es@.len() && entry_key(es@[j]) == kk;
                        if j < i {
                            assert(entry_key(old_entries[j]) == kk);
                        } else {
                            assert(entry_key(old_entries[j - 1]) == kk);
                        }
                    }
                    if entries_map(old_entries).dom().contains(kk) {
                        let j = choose|j: int|
                            0 <= j < old_entries.len() && entry_key(old_entries[j]) == kk;
                        if j < i {
                            assert(entry_key(es@[j]) == kk);
                        } else {
                            assert(entry_key(es@[j + 1]) == kk);
                        }
                    }
                    if kk == k {
                        assert(entry_key(es@[i as int]) == kk);
                    }
                }
                assert forall|kk: KeyView| #[trigger]
                    entries_map(es@).dom().contains(kk) && kk != k implies entries_map(es@)[kk]
                    == entries_map(old_entries)[kk] by {
                    let j = choose|j: int| 0 <= j < es@.len() && entry_key(es@[j]) == kk;
                    if j < i {
                        assert(entry_key(old_entries[j]) == kk);
                    } else {
                        assert(entry_key(old_entries[j - 1]) == kk);
                    }
                }
                assert(entry_key(es@[i as int]) == k);
                assert(entries_map(es@) =~= entries_map(old_entries).insert(k, vv));
            }
        }
        self.entries = es;
    }
}

impl<V: View + ViewClone> StateMap<V> {
    /// A copy of the map.
    pub fn duplicate(&self) -> (r: Self)
        ensures
            r@ == self@,
    {
        self.lemma_layout();
        let mut es: Vec<((String, String), V)> = Vec::new();
        let mut i: usize = 0;
        while i < self.entries.len()
            invariant
                i <= self.entries.len(),
                sorted_entries(self.entries@),
                es@.len() == i,
                forall|j: int|
                    0 <= j < i ==> entry_key(#[trigger] es@[j]) == entry_key(self.entries@[j])
                        && es@[j].1@ == self.entries@[j].1@,
            decreases self.entries.len() - i,
        {
            let k0 = self.entries[i].0.0.clone();
            let k1 = self.entries[i].0.1.clone();
            let v = self.entries[i].1.view_clone();
            es.push(((k0, k1), v));
            i = i + 1;
        }
        proof {
            assert forall|a: int, b: int| 0 <= a < b < es@.len() implies key_lt(
                entry_key(es@[a]),
                entry_key(es@[b]),
            ) by {
                assert(entry_key(es@[a]) == entry_key(self.entries@[a]));
                assert(entry_key(es@[b]) == entry_key(self.entries@[b]));
            }
            lemma_entries_map(es@);
            lemma_entries_map(self.entries@);
            assert forall|kk: KeyView| entries_map(es@).dom().contains(kk) <==> entries_map(
                self.entries@,
            ).dom().contains(kk) by {
                if entries_map(es@).dom().contains(kk) {
                    let j = choose|j: int| 0 <= j < es@.len() && entry_key(es@[j]) == kk;
                    assert(entry_key(self.entries@[j]) == kk);
                }
                if entries_map(self.entries@).dom().contains(kk) {
                    let j = choose|j: int|
                        0 <= j < self.entries@.len() && entry_key(self.entries@[j]) == kk;
                    assert(entry_key(es@[j]) == kk);
                }
            }
            assert forall|kk: KeyView| #[trigger]
                entries_map(es@).dom().contains(kk) implies entries_map(es@)[kk] == entries_map(
                self.entries@,
            )[kk] by {
                let j = choose|j: int| 0 <= j < es@.len() && entry_key(es@[j]) == kk;
                assert(entry_key(self.entries@[j]) == kk);
            }
            assert(entries_map(es@) =~= entries_map(self.entries@));
        }
        StateMap { entries: es }
    }
}

impl<V: View + ViewClone> StateMap<V> {
    /// Stores every entry of `other`, replacing the values under its keys.
    pub fn extend(&mut self, other: &Self)
        ensures
            final(self)@ == old(self)@.union_prefer_right(other@),
    {
        let es = other.entries();
        let ghost all = es@;
        let mut i: usize = 0;
        while i < es.len()
            invariant
                i <= es.len(),
                all == es@,
                sorted_entries(all),
                other@ == entries_map(all),
                self@ == old(self)@.union_prefer_right(entries_map(all.take(i as int))),
            decreases es.len() - i,
        {
            let ghost t0 = all.take(i as int);
            let ghost t1 = all.take(i + 1);
            let ghost before = self@;
            let k0 = es[i].0.0.clone();
            let k1 = es[i].0.1.clone();
            let v = es[i].1.view_clone();
            self.insert(k0, k1, v);
            proof {
                assert(t1 =~= t0.push(all[i as int]));
                assert(sorted_entries(t0));
                assert(sorted_entries(t1));
                lemma_entries_map(t0);
                lemma_entries_map(t1);
                let k = entry_key(all[i as int]);
                assert(t1[i as int] == all[i as int]);
                assert(entries_map(t1).dom() =~= entries_map(t0).dom().insert(k)) by {
                    assert forall|kk: KeyView| entries_map(t1).dom().contains(kk) implies entries_map(
                        t0,
                    ).dom().insert(k).contains(kk) by {
                        let j = choose|j: int| 0 <= j < t1.len() && entry_key(t1[j]) == kk;
                        if j < i {
                            assert(entry_key(t0[j]) == kk);
                        }
                    }
                    assert forall|kk: KeyView| entries_map(t0).dom().contains(kk) implies entries_map(
                        t1,
                    ).dom().contains(kk) by {
                        let j = choose|j: int| 0 <= j < t0.len() && entry_key(t0[j]) == kk;
                        assert(entry_key(t1[j]) == kk);
                    }
                }
                assert forall|kk: KeyView| #[trigger] entries_map(t1).dom().contains(kk) implies entries_map(
                    t1,
                )[kk] == entries_map(t0).insert(k, all[i as int].1@)[kk] by {
                    let j = choose|j: int| 0 <= j < t1.len() && entry_key(t1[j]) == kk;
                    if j < i {
                        assert(entry_key(t0[j]) == kk);
                        assert(entries_map(t0)[entry_key(t0[j])] == t0[j].1@);
                        assert(entries_map(t1)[entry_key(t1[j])] == t1[j].1@);
                        lemma_key_order(kk, k, k);
                    } else {
                        assert(entries_map(t1)[entry_key(t1[j])] == t1[j].1@);
                    }
                }
                assert(entries_map(t1) =~= entries_map(t0).insert(k, all[i as int].1@));
                assert(self@ =~= old(self)@.union_prefer_right(entries_map(t1)));
            }
            i = i + 1;
        }
        assert(all.take(i as int) =~= all);
    }
}

impl<V: View + ViewClone> Clone for StateMap<V> {
    fn clone(&self) -> (r: Self)
        ensures
            r@ == self@,
    {
        self.duplicate()
    }
}

impl StateMap<String> {
    /// The values, in increasing key order.
    pub fn values(&self) -> (r: Vec<String>)
        ensures
            r@.len() == self@.dom().len(),
            forall|i: int|
                0 <= i < r@.len() ==> self@.dom().contains(#[trigger] entry_key(self.entry_seq()[i]))
                    && self@[entry_key(self.entry_seq()[i])] == r@[i]@,
            sorted_entries(self.entry_seq()),
            forall|k: KeyView|
                #[trigger] self@.dom().contains(k) ==> exists|i: int|
                    0 <= i < r@.len() && entry_key(self.entry_seq()[i]) == k,
    {
        self.lemma_layout();
        let mut r: Vec<String> = Vec::new();
        let mut i: usize = 0;
        while i < self.entries.len()
            invariant
                i <= self.entries.len(),
                self.entries@ == self.entry_seq(),
                r@.len() == i,
                forall|j: int| 0 <= j < i ==> #[trigger] r@[j]@ == self.entries@[j].1@,
            decreases self.entries.len() - i,
        {
            r.push(self.entries[i].1.clone());
            i = i + 1;
        }
        proof {
            assert forall|k: KeyView| #[trigger] self@.dom().contains(k) implies exists|j: int|
                0 <= j < r@.len() && entry_key(self.entry_seq()[j]) == k by {
                let j = choose|j: int| 0 <= j < self.entries@.len() && entry_key(self.entries@[j]) == k;
            }
        }
        r
    }

    /// Whether two maps hold the same entries.
    pub fn same_as(&self, other: &Self) -> (r: bool)
        ensures
            r == (self@ == other@),
    {
        self.lemma_layout();
        other.lemma_layout();
        if self.entries.len() != other.entries.len() {
            return false;
        }
        let mut i: usize = 0;
        while i < self.entries.len()
            invariant
                i <= self.entries.len(),
                self@ == entries_map(self.entry_seq()),
                self.entries@ == self.entry_seq(),
                forall|j: int|
                    0 <= j < self.entry_seq().len() ==> self@.dom().contains(
                        #[trigger] entry_key(self.entry_seq()[j]),
                    ),
                forall|j: int|
                    0 <= j < self.entry_seq().len() ==> self@[#[trigger] entry_key(
                        self.entry_seq()[j],
                    )] == self.entry_seq()[j].1@,
                forall|j: int|
                    0 <= j < i ==> other@.dom().contains(#[trigger] entry_key(self.entries@[j]))
                        && other@[entry_key(self.entries@[j])] == self.entries@[j].1@,
            decreases self.entries.len() - i,
        {
            match other.get(&self.entries[i].0.0, &self.entries[i].0.1) {
                Some(v) => {
                    if *v != self.entries[i].1 {
                        return false;
                    }
                },
                None => {
                    return false;
                },
            }
            i = i + 1;
        }
        proof {
            assert(self@.dom().subset_of(other@.dom())) by {
                assert forall|kk: KeyView| self@.dom().contains(kk) implies other@.dom().contains(kk) by {
                    let j = choose|j: int|
                        0 <= j < self.entries@.len() && entry_key(self.entries@[j]) == kk;
                }
            }
            vstd::set_lib::lemma_subset_equality(self@.dom(), other@.dom());
            assert forall|kk: KeyView| #[trigger] self@.dom().contains(kk) implies self@[kk]
                == other@[kk] by {
                let j = choose|j: int|
                    0 <= j < self.entries@.len() && entry_key(self.entries@[j]) == kk;
            }
            assert(self@ =~= other@);
        }
        true
    }
}

/// Two maps are equal when they hold the same entries.
impl PartialEq for StateMap<String> {
    fn eq(&self, other: &Self) -> (r: bool) {
        self.same_as(other)
    }
}

impl vstd::std_specs::cmp::PartialEqSpecImpl for StateMap<String> {
    open spec fn obeys_eq_spec() -> bool {
        true
    }

    open spec fn eq_spec(&self, other: &Self) -> bool {
        self@ == other@
    }
}

} // verus!
