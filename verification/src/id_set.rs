//! A set of ids kept in increasing order (the order of an ordered set of
//! strings).
use crate::event::strings_view;
use crate::text::{chars_of, chars_lt, lemma_lex_irreflexive, lemma_lex_total, lemma_lex_transitive, lex_lt};
use vstd::prelude::*;

verus! {

/// Strings strictly increasing in lexicographic order.
pub open spec fn increasing(s: Seq<Seq<char>>) -> bool {
    forall|i: int, j: int| 0 <= i < j < s.len() ==> lex_lt(s[i], s[j])
}

proof fn lemma_lex(a: Seq<char>, b: Seq<char>, c: Seq<char>)
    ensures
        !lex_lt(a, a),
        a != b ==> (lex_lt(a, b) || lex_lt(b, a)),
        !(lex_lt(a, b) && lex_lt(b, a)),
        lex_lt(a, b) && lex_lt(b, c) ==> lex_lt(a, c),
{
    lemma_lex_irreflexive(a);
    lemma_lex_total(a, b);
    if lex_lt(a, b) && lex_lt(b, c) {
        lemma_lex_transitive(a, b, c);
    }
}

/// An increasing sequence has no repetition.
pub proof fn lemma_increasing_distinct(s: Seq<Seq<char>>)
    requires
        increasing(s),
    ensures
        s.no_duplicates(),
        s.to_set().len() == s.len(),
        s.to_set().finite(),
{
    assert forall|i: int, j: int| 0 <= i < s.len() && 0 <= j < s.len() && i != j implies s[i]
        != s[j] by {
        lemma_lex(s[i], s[i], s[i]);
        lemma_lex(s[j], s[j], s[j]);
    }
    s.unique_seq_to_set();
    vstd::seq_lib::seq_to_set_is_finite(s);
}

/// A set of ids, iterated in increasing order.
#[derive(Debug)]
pub struct IdSet {
    items: Vec<String>,
}

impl View for IdSet {
    type V = Set<Seq<char>>;

    closed spec fn view(&self) -> Set<Seq<char>> {
        strings_view(self.items@).to_set()
    }
}

impl IdSet {
    #[verifier::type_invariant]
    spec fn ordered(self) -> bool {
        increasing(strings_view(self.items@))
    }

    /// The ids in increasing order.
    pub closed spec fn in_order(self) -> Seq<Seq<char>> {
        strings_view(self.items@)
    }

    /// Facts linking the ordered ids to the set (a no-op at run time).
    pub(crate) fn lemma_layout(&self)
        ensures
            increasing(self.in_order()),
            self@ == self.in_order().to_set(),
            self@.finite(),
            self@.len() == self.in_order().len(),
    {
        proof {
            use_type_invariant(self);
            lemma_increasing_distinct(strings_view(self.items@));
        }
    }

    /// An empty set.
    pub fn new() -> (r: Self)
        ensures
            r@ == Set::<Seq<char>>::empty(),
    {
        let r = IdSet { items: Vec::new() };
        assert(strings_view(r.items@) =~= Seq::empty());
        assert(r@ =~= Set::<Seq<char>>::empty());
        r
    }

    /// The number of ids.
    pub fn len(&self) -> (r: usize)
        ensures
            r == self@.len(),
    {
        self.lemma_layout();
        self.items.len()
    }

    /// The position at which `id` is or would be stored.
    fn search(&self, id: &String) -> (r: usize)
        ensures
            r <= self.in_order().len(),
            forall|i: int| 0 <= i < r ==> lex_lt(#[trigger] self.in_order()[i], id@),
            forall|i: int| r <= i < self.in_order().len() ==> !lex_lt(#[trigger] self.in_order()[i], id@),
    {
        proof {
            use_type_invariant(self);
        }
        let idc = chars_of(id.as_str());
        let mut i: usize = 0;
        while i < self.items.len() && chars_lt(&chars_of(self.items[i].as_str()), &idc)
            invariant
                i <= self.items.len(),
                idc@ == id@,
                increasing(strings_view(self.items@)),
                forall|j: int| 0 <= j < i ==> lex_lt(#[trigger] strings_view(self.items@)[j], id@),
            decreases self.items.len() - i,
        {
            i = i + 1;
        }
        proof {
            let s = strings_view(self.items@);
            assert forall|j: int| i <= j < s.len() implies !lex_lt(#[trigger] s[j], id@) by {
                if j > i {
                    lemma_lex(s[i as int], s[j], id@);
                    lemma_lex(s[j], id@, s[i as int]);
                    lemma_lex(s[i as int], s[j], s[j]);
                }
            }
        }
        i
    }

    /// Whether `id` is in the set.
    pub fn contains(&self, id: &String) -> (r: bool)
        ensures
            r == self@.contains(id@),
    {
        self.lemma_layout();
        let i = self.search(id);
        if i < self.items.len() && self.items[i] == *id {
            assert(self.in_order()[i as int] == id@);
            true
        } else {
            proof {
                if self@.contains(id@) {
                    let s = self.in_order();
                    let j = choose|j: int| 0 <= j < s.len() && s[j] == id@;
                    lemma_lex(id@, id@, id@);
                    if j > i {
                        lemma_lex(s[i as int], s[j], s[j]);
                        lemma_lex(s[i as int], id@, s[i as int]);
                    }
                }
            }
            false
        }
    }

    /// Adds `id`; returns whether it was absent.
    pub fn insert(&mut self, id: String) -> (r: bool)
        ensures
            final(self)@ == old(self)@.insert(id@),
            r == !old(self)@.contains(id@),
    {
        self.lemma_layout();
        let ghost k = id@;
        let ghost old_s = self.in_order();
        let i = self.search(&id);
        if i < self.items.len() && self.items[i] == id {
            proof {
                assert(old_s[i as int] == k);
                assert(old_s.to_set().insert(k) =~= old_s.to_set());
            }
            return false;
        }
        proof {
            if old_s.to_set().contains(k) {
                let j = choose|j: int| 0 <= j < old_s.len() && old_s[j] == k;
                lemma_lex(k, k, k);
                if j > i {
                    lemma_lex(old_s[i as int], old_s[j], old_s[j]);
                    lemma_lex(old_s[i as int], k, old_s[i as int]);
                }
            }
        }
        let mut items: Vec<String> = Vec::new();
        std::mem::swap(&mut items, &mut self.items);
        items.insert(i, id);
        proof {
            let s = strings_view(items@);
            assert(s =~= old_s.insert(i as int, k));
            if i < old_s.len() {
                lemma_lex(old_s[i as int], k, k);
            }
            assert forall|a: int, b: int| 0 <= a < b < s.len() implies lex_lt(s[a], s[b]) by {
                if b < i {
                } else if b == i {
                } else if a < i {
                    lemma_lex(s[a], k, old_s[i as int]);
                    if b - 1 > i {
                        lemma_lex(k, old_s[i as int], old_s[b - 1]);
                        lemma_lex(s[a], k, old_s[b - 1]);
                    }
                } else if a == i {
                    if b - 1 > i {
                        lemma_lex(k, old_s[i as int], old_s[b - 1]);
                    }
                } else {
                }
            }
            assert(s.to_set() =~= old_s.to_set().insert(k)) by {
                assert forall|x: Seq<char>| s.to_set().contains(x) <==> old_s.to_set().insert(k).contains(x) by {
                    if s.to_set().contains(x) {
                        let j = choose|j: int| 0 <= j < s.len() && s[j] == x;
                        if j < i {
                            assert(old_s[j] == x);
                        } else if j > i {
                            assert(old_s[j - 1] == x);
                        }
                    }
                    if old_s.to_set().contains(x) {
                        let j = choose|j: int| 0 <= j < old_s.len() && old_s[j] == x;
                        if j < i {
                            assert(s[j] == x);
                        } else {
                            assert(s[j + 1] == x);
                        }
                    }
                    if x == k {
                        assert(s[i as int] == k);
                    }
                }
            }
        }
        self.items = items;
        true
    }

    /// The ids in increasing order.
    pub fn into_vec(self) -> (r: Vec<String>)
        ensures
            strings_view(r@) == self.in_order(),
            increasing(strings_view(r@)),
            strings_view(r@).to_set() == self@,
    {
        self.lemma_layout();
        self.items
    }

    /// The ids in increasing order.
    pub fn items(&self) -> (r: &Vec<String>)
        ensures
            strings_view(r@) == self.in_order(),
            increasing(strings_view(r@)),
            strings_view(r@).to_set() == self@,
    {
        self.lemma_layout();
        &self.items
    }
}

/// The increasing sequence of a finite set's elements is unique.
pub proof fn lemma_increasing_unique(a: Seq<Seq<char>>, b: Seq<Seq<char>>)
    requires
        increasing(a),
        increasing(b),
        a.to_set() == b.to_set(),
    ensures
        a == b,
    decreases a.len(),
{
    lemma_increasing_distinct(a);
    lemma_increasing_distinct(b);
    if a.len() == 0 {
        if b.len() > 0 {
            assert(b.to_set().contains(b[0]));
        }
        assert(a =~= b);
    } else if b.len() == 0 {
        assert(a.to_set().contains(a[0]));
    } else {
        // The last elements are the largest, hence equal.
        let la = a.last();
        let lb = b.last();
        assert(a.to_set().contains(la));
        assert(b.to_set().contains(lb));
        let i = choose|i: int| 0 <= i < b.len() && b[i] == la;
        let j = choose|j: int| 0 <= j < a.len() && a[j] == lb;
        if la != lb {
            if i < b.len() - 1 {
                assert(lex_lt(b[i], lb));
            }
            if j < a.len() - 1 {
                assert(lex_lt(a[j], la));
            }
            lemma_lex(la, lb, la);
        }
        let a2 = a.drop_last();
        let b2 = b.drop_last();
        assert(a2.to_set() =~= b2.to_set()) by {
            assert forall|x: Seq<char>| a2.to_set().contains(x) <==> b2.to_set().contains(x) by {
                if a2.to_set().contains(x) {
                    let p = choose|p: int| 0 <= p < a2.len() && a2[p] == x;
                    assert(a.to_set().contains(x));
                    let q = choose|q: int| 0 <= q < b.len() && b[q] == x;
                    if q == b.len() - 1 {
                        assert(x == la);
                        assert(a[p] == a[a.len() - 1]);
                    }
                    assert(b2[q] == x);
                }
                if b2.to_set().contains(x) {
                    let p = choose|p: int| 0 <= p < b2.len() && b2[p] == x;
                    assert(b.to_set().contains(x));
                    let q = choose|q: int| 0 <= q < a.len() && a[q] == x;
                    if q == a.len() - 1 {
                        assert(x == lb);
                        assert(b[p] == b[b.len() - 1]);
                    }
                    assert(a2[q] == x);
                }
            }
        }
        lemma_increasing_unique(a2, b2);
        assert(a =~= a2.push(la));
        assert(b =~= b2.push(lb));
    }
}

} // verus!
