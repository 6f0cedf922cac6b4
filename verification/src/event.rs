//! The event model: a lightweight Matrix event, the JSON content it carries,
//! the state-resolution version and the result of the topological sort.
use crate::text::str_eq;
use vstd::prelude::*;

verus! {

/// The version of the Matrix State Resolution algorithm to use.
#[derive(Debug, Clone, Copy, PartialEq, Eq, Structural)]
pub enum StateResVersion {
    V1,
    V2,
    V2_1,
}

/// A JSON value as carried in an event's `content`. Numbers keep the three
/// shapes of a JSON number: a non-negative integer, a negative integer, or a
/// floating-point number (kept as the bits of its IEEE 754 encoding, which
/// this library carries along but never interprets).
#[derive(Debug)]
pub enum JsonValue {
    Null,
    Bool(bool),
    PosInt(u64),
    NegInt(i64),
    Float(u64),
    Str(String),
    Array(Vec<JsonValue>),
    Object(Vec<(String, JsonValue)>),
}

/// The mathematical form of a JSON value.
pub enum JsonView {
    Null,
    Bool(bool),
    PosInt(u64),
    NegInt(i64),
    Float(u64),
    Str(Seq<char>),
    Array(Seq<JsonView>),
    Object(Seq<(Seq<char>, JsonView)>),
}

/// The views of the items of an array.
pub open spec fn items_view(items: Seq<JsonValue>) -> Seq<JsonView>
    decreases items,
{
    if items.len() == 0 {
        Seq::empty()
    } else {
        items_view(items.drop_last()).push(items.last().view())
    }
}

/// The views of the members of an object.
pub open spec fn members_view(members: Seq<(String, JsonValue)>) -> Seq<(Seq<char>, JsonView)>
    decreases members,
{
    if members.len() == 0 {
        Seq::empty()
    } else {
        members_view(members.drop_last()).push((members.last().0@, members.last().1.view()))
    }
}

impl JsonValue {
    pub open spec fn view(self) -> JsonView
        decreases self,
    {
        match self {
            JsonValue::Null => JsonView::Null,
            JsonValue::Bool(b) => JsonView::Bool(b),
            JsonValue::PosInt(n) => JsonView::PosInt(n),
            JsonValue::NegInt(n) => JsonView::NegInt(n),
            JsonValue::Float(bits) => JsonView::Float(bits),
            JsonValue::Str(s) => JsonView::Str(s@),
            JsonValue::Array(items) => JsonView::Array(items_view(items@)),
            JsonValue::Object(members) => JsonView::Object(members_view(members@)),
        }
    }
}

/// The value stored under `key` among the members of an object (the first
/// member with that key; the members of a parsed object have distinct keys).
pub open spec fn member_lookup(members: Seq<(Seq<char>, JsonView)>, key: Seq<char>) -> Option<
    JsonView,
>
    decreases members.len(),
{
    if members.len() == 0 {
        None
    } else if members[0].0 == key {
        Some(members[0].1)
    } else {
        member_lookup(members.drop_first(), key)
    }
}

impl JsonView {
    /// `self[key]` when `self` is an object holding `key`.
    pub open spec fn get(self, key: Seq<char>) -> Option<JsonView> {
        match self {
            JsonView::Object(members) => member_lookup(members, key),
            _ => None,
        }
    }

    /// The text of a string value.
    pub open spec fn as_str(self) -> Option<Seq<char>> {
        match self {
            JsonView::Str(s) => Some(s),
            _ => None,
        }
    }

    /// The value of an integer that fits in an `i64`.
    pub open spec fn as_i64(self) -> Option<i64> {
        match self {
            JsonView::PosInt(n) => if n <= i64::MAX {
                Some(n as i64)
            } else {
                None
            },
            JsonView::NegInt(n) => Some(n),
            _ => None,
        }
    }

    /// `self[key]` read as a string.
    pub open spec fn get_str(self, key: Seq<char>) -> Option<Seq<char>> {
        match self.get(key) {
            Some(v) => v.as_str(),
            None => None,
        }
    }

    /// `self[key]` read as an `i64`.
    pub open spec fn get_i64(self, key: Seq<char>) -> Option<i64> {
        match self.get(key) {
            Some(v) => v.as_i64(),
            None => None,
        }
    }
}

/// The views of an array's items, one per item.
pub proof fn lemma_items_view(items: Seq<JsonValue>)
    ensures
        items_view(items).len() == items.len(),
        forall|i: int| 0 <= i < items.len() ==> #[trigger] items_view(items)[i] == items[i].view(),
    decreases items.len(),
{
    if items.len() > 0 {
        lemma_items_view(items.drop_last());
    }
}

proof fn lemma_members_view(members: Seq<(String, JsonValue)>)
    ensures
        members_view(members).len() == members.len(),
        forall|i: int|
            0 <= i < members.len() ==> #[trigger] members_view(members)[i] == (
                members[i].0@,
                members[i].1.view(),
            ),
    decreases members.len(),
{
    if members.len() > 0 {
        lemma_members_view(members.drop_last());
    }
}

impl JsonValue {
    /// Looks up `key` in an object; `None` for a missing key or a non-object.
    #[verifier::loop_isolation(false)]
    pub fn get(&self, key: &str) -> (r: Option<&JsonValue>)
        ensures
            match r {
                Some(v) => self.view().get(key@) == Some(v.view()),
                None => self.view().get(key@) is None,
            },
    {
        match self {
            JsonValue::Object(members) => {
                let ghost mv = members_view(members@);
                proof {
                    lemma_members_view(members@);
                }
                let mut i: usize = 0;
                assert(mv.skip(0) =~= mv);
                while i < members.len()
                    invariant
                        i <= members.len(),
                        mv == members_view(members@),
                        mv.len() == members.len(),
                        forall|j: int|
                            0 <= j < members.len() ==> #[trigger] mv[j] == (
                                members@[j].0@,
                                members@[j].1.view(),
                            ),
                        member_lookup(mv, key@) == member_lookup(mv.skip(i as int), key@),
                    decreases members.len() - i,
                {
                    assert(mv.skip(i as int).drop_first() =~= mv.skip(i + 1));
                    assert(mv.skip(i as int)[0] == mv[i as int]);
                    if str_eq(members[i].0.as_str(), key) {
                        return Some(&members[i].1);
                    }
                    i = i + 1;
                }
                None
            },
            _ => None,
        }
    }

    /// The text of a string value.
    pub fn as_str(&self) -> (r: Option<&String>)
        ensures
            match r {
                Some(s) => self.view().as_str() == Some(s@),
                None => self.view().as_str() is None,
            },
    {
        match self {
            JsonValue::Str(s) => Some(s),
            _ => None,
        }
    }

    /// The value of an integer that fits in an `i64`.
    pub fn as_i64(&self) -> (r: Option<i64>)
        ensures
            r == self.view().as_i64(),
    {
        match self {
            JsonValue::PosInt(n) => if *n <= 0x7fff_ffff_ffff_ffffu64 {
                Some(*n as i64)
            } else {
                None
            },
            JsonValue::NegInt(n) => Some(*n),
            _ => None,
        }
    }

    /// `self[key]` read as a string.
    pub fn get_str(&self, key: &str) -> (r: Option<&String>)
        ensures
            match r {
                Some(s) => self.view().get_str(key@) == Some(s@),
                None => self.view().get_str(key@) is None,
            },
    {
        match self.get(key) {
            Some(v) => v.as_str(),
            None => None,
        }
    }

    /// `self[key]` read as an `i64`.
    pub fn get_i64(&self, key: &str) -> (r: Option<i64>)
        ensures
            r == self.view().get_i64(key@),
    {
        match self.get(key) {
            Some(v) => v.as_i64(),
            None => None,
        }
    }
}

/// A copy of `v` with the same view.
#[verifier::loop_isolation(false)]
pub fn clone_json(v: &JsonValue) -> (r: JsonValue)
    ensures
        r.view() == v.view(),
    decreases v,
{
    match v {
        JsonValue::Null => JsonValue::Null,
        JsonValue::Bool(b) => JsonValue::Bool(*b),
        JsonValue::PosInt(n) => JsonValue::PosInt(*n),
        JsonValue::NegInt(n) => JsonValue::NegInt(*n),
        JsonValue::Float(bits) => JsonValue::Float(*bits),
        JsonValue::Str(s) => JsonValue::Str(s.clone()),
        JsonValue::Array(items) => {
            let mut out: Vec<JsonValue> = Vec::new();
            let mut i: usize = 0;
            while i < items.len()
                invariant
                    i <= items.len(),
                    items_view(out@) == items_view(items@.take(i as int)),
                decreases items.len() - i,
            {
                proof {
                    vstd::std_specs::vec::axiom_vec_index_decreases(*items, i as int);
                }
                let c = clone_json(&items[i]);
                let ghost before = out@;
                out.push(c);
                assert(out@.drop_last() =~= before);
                assert(items@.take(i + 1).drop_last() =~= items@.take(i as int));
                i = i + 1;
            }
            assert(items@.take(i as int) =~= items@);
            JsonValue::Array(out)
        },
        JsonValue::Object(members) => {
            let mut out: Vec<(String, JsonValue)> = Vec::new();
            let mut i: usize = 0;
            while i < members.len()
                invariant
                    i <= members.len(),
                    members_view(out@) == members_view(members@.take(i as int)),
                decreases members.len() - i,
            {
                proof {
                    vstd::std_specs::vec::axiom_vec_index_decreases(*members, i as int);
                    assert(decreases_to!(members@[i as int] => members@[i as int].1));
                }
                let k = members[i].0.clone();
                let c = clone_json(&members[i].1);
                let ghost before = out@;
                out.push((k, c));
                assert(out@.drop_last() =~= before);
                assert(members@.take(i + 1).drop_last() =~= members@.take(i as int));
                i = i + 1;
            }
            assert(members@.take(i as int) =~= members@);
            JsonValue::Object(out)
        },
    }
}

impl Clone for JsonValue {
    fn clone(&self) -> (r: Self)
        ensures
            r.view() == self.view(),
    {
        clone_json(self)
    }
}

/// The text of each string, in order.
pub open spec fn strings_view(v: Seq<String>) -> Seq<Seq<char>> {
    v.map_values(|s: String| s@)
}

/// A copy of a list of strings.
pub fn clone_strings(v: &Vec<String>) -> (r: Vec<String>)
    ensures
        strings_view(r@) == strings_view(v@),
{
    let mut r: Vec<String> = Vec::new();
    let mut i: usize = 0;
    while i < v.len()
        invariant
            i <= v.len(),
            r@.len() == i,
            forall|j: int| 0 <= j < i ==> #[trigger] r@[j]@ == v@[j]@,
        decreases v.len() - i,
    {
        r.push(v[i].clone());
        i = i + 1;
    }
    assert(strings_view(r@) =~= strings_view(v@));
    r
}

/// A lightweight Matrix Event representation for Lean-equivalent resolution.
#[derive(Debug)]
pub struct LeanEvent {
    pub event_id: String,
    pub event_type: String,
    pub state_key: String,
    pub power_level: i64,
    pub origin_server_ts: u64,
    pub sender: String,
    pub content: JsonValue,
    pub prev_events: Vec<String>,
    pub auth_events: Vec<String>,
    pub depth: u64,
}

/// The mathematical form of an event.
pub struct EventView {
    pub event_id: Seq<char>,
    pub event_type: Seq<char>,
    pub state_key: Seq<char>,
    pub power_level: i64,
    pub origin_server_ts: u64,
    pub sender: Seq<char>,
    pub content: JsonView,
    pub prev_events: Seq<Seq<char>>,
    pub auth_events: Seq<Seq<char>>,
    pub depth: u64,
}

impl View for LeanEvent {
    type V = EventView;

    open spec fn view(&self) -> EventView {
        EventView {
            event_id: self.event_id@,
            event_type: self.event_type@,
            state_key: self.state_key@,
            power_level: self.power_level,
            origin_server_ts: self.origin_server_ts,
            sender: self.sender@,
            content: self.content.view(),
            prev_events: strings_view(self.prev_events@),
            auth_events: strings_view(self.auth_events@),
            depth: self.depth,
        }
    }
}

impl Clone for LeanEvent {
    fn clone(&self) -> (r: Self)
        ensures
            r@ == self@,
    {
        LeanEvent {
            event_id: self.event_id.clone(),
            event_type: self.event_type.clone(),
            state_key: self.state_key.clone(),
            power_level: self.power_level,
            origin_server_ts: self.origin_server_ts,
            sender: self.sender.clone(),
            content: clone_json(&self.content),
            prev_events: clone_strings(&self.prev_events),
            auth_events: clone_strings(&self.auth_events),
            depth: self.depth,
        }
    }
}

impl Default for LeanEvent {
    /// An event with empty text fields, zero numbers, `null` content and no
    /// references.
    fn default() -> (r: Self)
        ensures
            r@.event_id.len() == 0,
            r@.event_type.len() == 0,
            r@.state_key.len() == 0,
            r@.power_level == 0,
            r@.origin_server_ts == 0,
            r@.sender.len() == 0,
            r@.content == JsonView::Null,
            r@.prev_events.len() == 0,
            r@.auth_events.len() == 0,
            r@.depth == 0,
    {
        LeanEvent {
            event_id: String::new(),
            event_type: String::new(),
            state_key: String::new(),
            power_level: 0,
            origin_server_ts: 0,
            sender: String::new(),
            content: JsonValue::Null,
            prev_events: Vec::new(),
            auth_events: Vec::new(),
            depth: 0,
        }
    }
}

/// Two events are the same event when their ids are equal.
impl PartialEq for LeanEvent {
    fn eq(&self, other: &Self) -> (r: bool) {
        self.event_id == other.event_id
    }
}

impl vstd::std_specs::cmp::PartialEqSpecImpl for LeanEvent {
    open spec fn obeys_eq_spec() -> bool {
        true
    }

    open spec fn eq_spec(&self, other: &Self) -> bool {
        self.event_id@ == other.event_id@
    }
}

impl Eq for LeanEvent {

}

/// Result of Kahn's topological sort with diagnostic information.
#[derive(Debug)]
pub enum KahnSortResult {
    /// All events were successfully sorted.
    Sorted(Vec<String>),
    /// A cycle was detected. `sorted` contains the partial ordering of events
    /// that could be processed, `stuck` contains events that could not reach
    /// in-degree 0 (involved in cycles).
    CycleDetected { sorted: Vec<String>, stuck: Vec<String> },
}

impl KahnSortResult {
    /// Returns the sorted event IDs, or an empty vec if a cycle was detected.
    pub fn into_sorted(self) -> (r: Vec<String>)
        ensures
            strings_view(r@) == match self {
                KahnSortResult::Sorted(v) => strings_view(v@),
                KahnSortResult::CycleDetected { .. } => Seq::empty(),
            },
    {
        match self {
            KahnSortResult::Sorted(v) => v,
            KahnSortResult::CycleDetected { .. } => {
                let r: Vec<String> = Vec::new();
                assert(strings_view(r@) =~= Seq::empty());
                r
            },
        }
    }

    /// Returns true if sorting completed without cycles.
    pub fn is_ok(&self) -> (r: bool)
        ensures
            r == (self is Sorted),
    {
        match self {
            KahnSortResult::Sorted(_) => true,
            KahnSortResult::CycleDetected { .. } => false,
        }
    }
}

impl Clone for KahnSortResult {
    fn clone(&self) -> (r: Self)
        ensures
            match (r, *self) {
                (KahnSortResult::Sorted(a), KahnSortResult::Sorted(b)) => strings_view(a@) == strings_view(
                    b@,
                ),
                (
                    KahnSortResult::CycleDetected { sorted: a, stuck: b },
                    KahnSortResult::CycleDetected { sorted: c, stuck: d },
                ) => strings_view(a@) == strings_view(c@) && strings_view(b@) == strings_view(d@),
                _ => false,
            },
    {
        match self {
            KahnSortResult::Sorted(v) => KahnSortResult::Sorted(clone_strings(v)),
            KahnSortResult::CycleDetected { sorted, stuck } => KahnSortResult::CycleDetected {
                sorted: clone_strings(sorted),
                stuck: clone_strings(stuck),
            },
        }
    }
}

} // verus!
