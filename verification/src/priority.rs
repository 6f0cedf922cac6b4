//! The tie-break order of events as a three-way comparison.
use crate::event::{EventView, LeanEvent, StateResVersion};
use crate::kahn::outranks;
use crate::text::{chars_lt, chars_of, lemma_lex_irreflexive, lemma_lex_total, lemma_lex_transitive, lex_lt};
use core::cmp::Ordering;
use vstd::prelude::*;

verus! {

/// Orders events so that the event processed first by the sort compares
/// greatest: the sort repeatedly takes the greatest ready event.
#[derive(Debug, Clone, Copy)]
pub struct SortPriority<'a> {
    pub event: &'a LeanEvent,
    pub version: StateResVersion,
}

/// The comparison of two events' priorities under `version`.
pub open spec fn priority_order(a: EventView, b: EventView, version: StateResVersion) -> Ordering {
    if outranks(a, b, version) {
        Ordering::Greater
    } else if outranks(b, a, version) {
        Ordering::Less
    } else {
        Ordering::Equal
    }
}

impl<'a> SortPriority<'a> {
    /// Compares two priorities by the version of `self`.
    ///
    /// V1: the lower depth is greater, then the smaller id.
    /// V2 and V2.1: the lower power level is greater, then the later
    /// timestamp, then the larger id.
    pub fn cmp(&self, other: &Self) -> (r: Ordering)
        ensures
            r == priority_order(self.event@, other.event@, self.version),
            r == Ordering::Equal ==> match self.version {
                StateResVersion::V1 => self.event.depth == other.event.depth
                    && self.event.event_id@ == other.event.event_id@,
                _ => self.event.power_level == other.event.power_level
                    && self.event.origin_server_ts == other.event.origin_server_ts
                    && self.event.event_id@ == other.event.event_id@,
            },
            self.version == StateResVersion::V1 ==> {
                &&& self.event.depth < other.event.depth ==> r == Ordering::Greater
                &&& self.event.depth > other.event.depth ==> r == Ordering::Less
                &&& self.event.depth == other.event.depth ==> (r == Ordering::Greater <==> lex_lt(
                    self.event.event_id@,
                    other.event.event_id@,
                ))
            },
            self.version != StateResVersion::V1 ==> {
                &&& self.event.power_level < other.event.power_level ==> r == Ordering::Greater
                &&& self.event.power_level > other.event.power_level ==> r == Ordering::Less
                &&& self.event.power_level == other.event.power_level && self.event.origin_server_ts
                    > other.event.origin_server_ts ==> r == Ordering::Greater
                &&& self.event.power_level == other.event.power_level && self.event.origin_server_ts
                    < other.event.origin_server_ts ==> r == Ordering::Less
                &&& self.event.power_level == other.event.power_level && self.event.origin_server_ts
                    == other.event.origin_server_ts ==> (r == Ordering::Greater <==> lex_lt(
                    other.event.event_id@,
                    self.event.event_id@,
                ))
            },
    {
        let a = self.event;
        let b = other.event;
        let a_id = chars_of(a.event_id.as_str());
        let b_id = chars_of(b.event_id.as_str());
        proof {
            lemma_lex_total(a.event_id@, b.event_id@);
        }
        match self.version {
            StateResVersion::V1 => {
                if a.depth < b.depth {
                    Ordering::Greater
                } else if a.depth > b.depth {
                    Ordering::Less
                } else if chars_lt(&a_id, &b_id) {
                    Ordering::Greater
                } else if chars_lt(&b_id, &a_id) {
                    Ordering::Less
                } else {
                    Ordering::Equal
                }
            },
            _ => {
                if a.power_level < b.power_level {
                    Ordering::Greater
                } else if a.power_level > b.power_level {
                    Ordering::Less
                } else if a.origin_server_ts > b.origin_server_ts {
                    Ordering::Greater
                } else if a.origin_server_ts < b.origin_server_ts {
                    Ordering::Less
                } else if chars_lt(&b_id, &a_id) {
                    Ordering::Greater
                } else if chars_lt(&a_id, &b_id) {
                    Ordering::Less
                } else {
                    Ordering::Equal
                }
            },
        }
    }

    /// Always `Some(self.cmp(other))`: the order is total.
    pub fn partial_cmp(&self, other: &Self) -> (r: Option<Ordering>)
        ensures
            r == Some(priority_order(self.event@, other.event@, self.version)),
    {
        Some(self.cmp(other))
    }
}

/// Two priorities are equal when they compare equal.
impl<'a> PartialEq for SortPriority<'a> {
    fn eq(&self, other: &Self) -> (r: bool) {
        match self.cmp(other) {
            Ordering::Equal => true,
            _ => false,
        }
    }
}

impl<'a> vstd::std_specs::cmp::PartialEqSpecImpl for SortPriority<'a> {
    open spec fn obeys_eq_spec() -> bool {
        true
    }

    open spec fn eq_spec(&self, other: &Self) -> bool {
        priority_order(self.event@, other.event@, self.version) == Ordering::Equal
    }
}

impl<'a> Eq for SortPriority<'a> {

}

/// The order of events by id.
pub open spec fn id_order(a: Seq<char>, b: Seq<char>) -> Ordering {
    if lex_lt(a, b) {
        Ordering::Less
    } else if lex_lt(b, a) {
        Ordering::Greater
    } else {
        Ordering::Equal
    }
}

impl LeanEvent {
    /// Compares two events by id; events with equal ids compare equal.
    pub fn cmp(&self, other: &Self) -> (r: Ordering)
        ensures
            r == id_order(self.event_id@, other.event_id@),
            r == Ordering::Equal <==> self.event_id@ == other.event_id@,
    {
        proof {
            lemma_lex_total(self.event_id@, other.event_id@);
            lemma_lex_irreflexive(self.event_id@);
        }
        let a = chars_of(self.event_id.as_str());
        let b = chars_of(other.event_id.as_str());
        if chars_lt(&a, &b) {
            Ordering::Less
        } else if chars_lt(&b, &a) {
            Ordering::Greater
        } else {
            Ordering::Equal
        }
    }
}

/// Events are ordered by id.
impl PartialOrd for LeanEvent {
    fn partial_cmp(&self, other: &Self) -> (r: Option<Ordering>) {
        Some(self.cmp(other))
    }
}

impl vstd::std_specs::cmp::PartialOrdSpecImpl for LeanEvent {
    open spec fn obeys_partial_cmp_spec() -> bool {
        true
    }

    open spec fn partial_cmp_spec(&self, other: &Self) -> Option<Ordering> {
        Some(id_order(self.event_id@, other.event_id@))
    }
}

/// Events ordered by id form a total order: each event compares equal to
/// itself, two events compare in opposite directions, and the order is
/// transitive.
pub proof fn lemma_id_order_total(a: Seq<char>, b: Seq<char>, c: Seq<char>)
    ensures
        id_order(a, a) == Ordering::Equal,
        id_order(a, b) == Ordering::Equal <==> a == b,
        id_order(a, b) == Ordering::Less <==> id_order(b, a) == Ordering::Greater,
        id_order(a, b) == Ordering::Less && id_order(b, c) == Ordering::Less ==> id_order(a, c)
            == Ordering::Less,
{
    lemma_lex_irreflexive(a);
    lemma_lex_total(a, b);
    lemma_lex_total(b, c);
    lemma_lex_total(a, c);
    if lex_lt(a, b) && lex_lt(b, a) {
        lemma_lex_transitive(a, b, a);
        lemma_lex_irreflexive(a);
    }
    if lex_lt(a, b) && lex_lt(b, c) {
        lemma_lex_transitive(a, b, c);
    }
    if id_order(a, b) == Ordering::Less && id_order(b, c) == Ordering::Less {
        lemma_lex_transitive(a, b, c);
        if lex_lt(c, a) {
            lemma_lex_transitive(a, c, a);
            lemma_lex_irreflexive(a);
        }
    }
}

} // verus!
