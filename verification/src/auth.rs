//! Matrix Authorization Rules (Spec §10.4)
//!
//! Implements iterative auth-checking of events against the room state at
//! their `prev_events` — never the current time. This is the core security
//! invariant that prevents retroactive authorization tampering.
use crate::event::{EventView, JsonView, LeanEvent};
use crate::state_map::{KeyView, RoomState};
use crate::text::{concat, decimal, owned, push_decimal, starts_with, str_eq};
use vstd::prelude::*;

verus! {

/// An error indicating why an event failed authorization.
#[derive(Debug)]
pub enum AuthError {
    /// The sender is not a member of the room (or membership is not "join").
    NotMember { sender: String },
    /// The sender's power level is below the required level for this event type.
    InsufficientPowerLevel { required: i64, actual: i64, event_type: String },
    /// The sender is banned from the room.
    BannedUser { sender: String },
    /// For `m.room.member` events, the `state_key` doesn't match the expected
    /// user ID for the given membership transition.
    InvalidStateKey { expected: String, actual: String },
    /// The `m.room.create` event has `prev_events`, which is forbidden.
    CreateWithPrevEvents,
    /// An auth event referenced by this event is missing from the provided state.
    MissingAuthEvent(String),
}

/// The mathematical form of an authorization error.
pub enum AuthErrorView {
    NotMember { sender: Seq<char> },
    InsufficientPowerLevel { required: i64, actual: i64, event_type: Seq<char> },
    BannedUser { sender: Seq<char> },
    InvalidStateKey { expected: Seq<char>, actual: Seq<char> },
    CreateWithPrevEvents,
    MissingAuthEvent(Seq<char>),
}

impl View for AuthError {
    type V = AuthErrorView;

    open spec fn view(&self) -> AuthErrorView {
        match self {
            AuthError::NotMember { sender } => AuthErrorView::NotMember { sender: sender@ },
            AuthError::InsufficientPowerLevel { required, actual, event_type } =>
                AuthErrorView::InsufficientPowerLevel {
                required: *required,
                actual: *actual,
                event_type: event_type@,
            },
            AuthError::BannedUser { sender } => AuthErrorView::BannedUser { sender: sender@ },
            AuthError::InvalidStateKey { expected, actual } => AuthErrorView::InvalidStateKey {
                expected: expected@,
                actual: actual@,
            },
            AuthError::CreateWithPrevEvents => AuthErrorView::CreateWithPrevEvents,
            AuthError::MissingAuthEvent(id) => AuthErrorView::MissingAuthEvent(id@),
        }
    }
}

/// The text of an authorization error.
pub open spec fn error_message(e: AuthErrorView) -> Seq<char> {
    match e {
        AuthErrorView::NotMember { sender } => "sender "@ + sender + " is not a joined member"@,
        AuthErrorView::InsufficientPowerLevel { required, actual, event_type } => "power level "@
            + decimal(actual as int) + " < "@ + decimal(required as int) + " required for "@
            + event_type,
        AuthErrorView::BannedUser { sender } => "sender "@ + sender + " is banned"@,
        AuthErrorView::InvalidStateKey { expected, actual } => "invalid state_key: expected "@
            + expected + ", got "@ + actual,
        AuthErrorView::CreateWithPrevEvents => "m.room.create must not have prev_events"@,
        AuthErrorView::MissingAuthEvent(id) => "missing auth event: "@ + id,
    }
}

impl AuthError {
    /// A human-readable description of the error.
    pub fn to_string(&self) -> (r: String)
        ensures
            r@ == error_message(self@),
    {
        match self {
            AuthError::NotMember { sender } => {
                let mut r = concat("sender ", sender.as_str());
                r.append(" is not a joined member");
                r
            },
            AuthError::InsufficientPowerLevel { required, actual, event_type } => {
                let mut r = owned("power level ");
                push_decimal(&mut r, *actual);
                r.append(" < ");
                push_decimal(&mut r, *required);
                r.append(" required for ");
                r.append(event_type.as_str());
                r
            },
            AuthError::BannedUser { sender } => {
                let mut r = concat("sender ", sender.as_str());
                r.append(" is banned");
                r
            },
            AuthError::InvalidStateKey { expected, actual } => {
                let mut r = concat("invalid state_key: expected ", expected.as_str());
                r.append(", got ");
                r.append(actual.as_str());
                r
            },
            AuthError::CreateWithPrevEvents => owned("m.room.create must not have prev_events"),
            AuthError::MissingAuthEvent(id) => concat("missing auth event: ", id.as_str()),
        }
    }

    /// A copy of the error.
    pub fn duplicate(&self) -> (r: Self)
        ensures
            r@ == self@,
    {
        match self {
            AuthError::NotMember { sender } => AuthError::NotMember { sender: sender.clone() },
            AuthError::InsufficientPowerLevel { required, actual, event_type } =>
                AuthError::InsufficientPowerLevel {
                required: *required,
                actual: *actual,
                event_type: event_type.clone(),
            },
            AuthError::BannedUser { sender } => AuthError::BannedUser { sender: sender.clone() },
            AuthError::InvalidStateKey { expected, actual } => AuthError::InvalidStateKey {
                expected: expected.clone(),
                actual: actual.clone(),
            },
            AuthError::CreateWithPrevEvents => AuthError::CreateWithPrevEvents,
            AuthError::MissingAuthEvent(id) => AuthError::MissingAuthEvent(id.clone()),
        }
    }
}

impl Clone for AuthError {
    fn clone(&self) -> (r: Self)
        ensures
            r@ == self@,
    {
        self.duplicate()
    }
}

/// Two errors are equal when they carry the same reason and values.
impl PartialEq for AuthError {
    fn eq(&self, other: &Self) -> (r: bool) {
        match (self, other) {
            (AuthError::NotMember { sender: a }, AuthError::NotMember { sender: b }) => *a == *b,
            (
                AuthError::InsufficientPowerLevel { required: r1, actual: a1, event_type: t1 },
                AuthError::InsufficientPowerLevel { required: r2, actual: a2, event_type: t2 },
            ) => *r1 == *r2 && *a1 == *a2 && *t1 == *t2,
            (AuthError::BannedUser { sender: a }, AuthError::BannedUser { sender: b }) => *a == *b,
            (
                AuthError::InvalidStateKey { expected: e1, actual: a1 },
                AuthError::InvalidStateKey { expected: e2, actual: a2 },
            ) => *e1 == *e2 && *a1 == *a2,
            (AuthError::CreateWithPrevEvents, AuthError::CreateWithPrevEvents) => true,
            (AuthError::MissingAuthEvent(a), AuthError::MissingAuthEvent(b)) => *a == *b,
            _ => false,
        }
    }
}

impl vstd::std_specs::cmp::PartialEqSpecImpl for AuthError {
    open spec fn obeys_eq_spec() -> bool {
        true
    }

    open spec fn eq_spec(&self, other: &Self) -> bool {
        self@ == other@
    }
}

impl Eq for AuthError {

}

/// The state key of a user's membership.
pub open spec fn member_key(user: Seq<char>) -> KeyView {
    ("m.room.member"@, user)
}

/// The state key of the power levels.
pub open spec fn power_levels_key() -> KeyView {
    ("m.room.power_levels"@, Seq::empty())
}

/// `content[field][key]` read as an `i64`.
pub open spec fn nested_i64(content: JsonView, field: Seq<char>, key: Seq<char>) -> Option<i64> {
    match content.get(field) {
        Some(inner) => inner.get_i64(key),
        None => None,
    }
}

/// The power level of `sender`: its entry in `users`, else `users_default`,
/// else 0 (also 0 without a power levels event).
pub open spec fn sender_power_level(sender: Seq<char>, state: Map<KeyView, EventView>) -> i64 {
    if state.dom().contains(power_levels_key()) {
        let content = state[power_levels_key()].content;
        match nested_i64(content, "users"@, sender) {
            Some(pl) => pl,
            None => match content.get_i64("users_default"@) {
                Some(d) => d,
                None => 0,
            },
        }
    } else {
        0
    }
}

/// The power level required to send an event of `event_type`: its entry in
/// `events`, else `state_default` for `m.room.*` types, else
/// `events_default`, else 0 (also 0 without a power levels event).
pub open spec fn required_power_level(event_type: Seq<char>, state: Map<KeyView, EventView>) -> i64 {
    if state.dom().contains(power_levels_key()) {
        let content = state[power_levels_key()].content;
        match nested_i64(content, "events"@, event_type) {
            Some(pl) => pl,
            None => {
                let state_default = if event_type.len() >= "m.room."@.len() && event_type.take(
                    "m.room."@.len() as int,
                ) == "m.room."@ {
                    content.get_i64("state_default"@)
                } else {
                    None
                };
                match state_default {
                    Some(d) => d,
                    None => match content.get_i64("events_default"@) {
                        Some(d) => d,
                        None => 0,
                    },
                }
            },
        }
    } else {
        0
    }
}

/// A power level setting of the room (`kick`, `ban`), 50 when unset.
pub open spec fn action_power_level(field: Seq<char>, state: Map<KeyView, EventView>) -> i64 {
    if state.dom().contains(power_levels_key()) {
        match state[power_levels_key()].content.get_i64(field) {
            Some(pl) => pl,
            None => 50,
        }
    } else {
        50
    }
}

/// The outcome of the membership transition rules for an `m.room.member`
/// event.
pub open spec fn membership_outcome(event: EventView, state: Map<KeyView, EventView>) -> Result<
    (),
    AuthErrorView,
> {
    let membership = match event.content.get_str("membership"@) {
        Some(m) => m,
        None => Seq::empty(),
    };
    let sender_pl = sender_power_level(event.sender, state);
    if membership == "join"@ && event.state_key != event.sender {
        Err(AuthErrorView::InvalidStateKey { expected: event.sender, actual: event.state_key })
    } else if membership == "leave"@ && event.state_key != event.sender {
        let kick = action_power_level("kick"@, state);
        if sender_pl < kick {
            Err(
                AuthErrorView::InsufficientPowerLevel {
                    required: kick,
                    actual: sender_pl,
                    event_type: "kick"@,
                },
            )
        } else {
            Ok(())
        }
    } else if membership == "ban"@ {
        let ban = action_power_level("ban"@, state);
        if sender_pl < ban {
            Err(
                AuthErrorView::InsufficientPowerLevel {
                    required: ban,
                    actual: sender_pl,
                    event_type: "ban"@,
                },
            )
        } else {
            Ok(())
        }
    } else if membership == "invite"@ {
        if event.state_key == event.sender {
            Err(
                AuthErrorView::InvalidStateKey {
                    expected: "!= "@ + event.sender,
                    actual: event.state_key,
                },
            )
        } else if state.dom().contains(member_key(event.state_key)) && state[member_key(
            event.state_key,
        )].content.get_str("membership"@) == Some("ban"@) {
            Err(AuthErrorView::BannedUser { sender: event.state_key })
        } else {
            Ok(())
        }
    } else {
        Ok(())
    }
}

/// `event` is a membership event that joins or invites: the events a sender
/// who is not a joined member may send.
pub open spec fn joins_or_invites(event: EventView) -> bool {
    &&& event.event_type == "m.room.member"@
    &&& (event.content.get_str("membership"@) == Some("join"@) || event.content.get_str("membership"@)
        == Some("invite"@))
}

/// The outcome of the authorization rules for `event` against the room
/// state at its `prev_events`.
pub open spec fn auth_outcome(event: EventView, state: Map<KeyView, EventView>) -> Result<
    (),
    AuthErrorView,
> {
    if event.event_type == "m.room.create"@ {
        if event.prev_events.len() != 0 {
            Err(AuthErrorView::CreateWithPrevEvents)
        } else {
            Ok(())
        }
    } else {
        let is_member_event = event.event_type == "m.room.member"@;
        let sender_membership: Option<Seq<char>> = if state.dom().contains(member_key(event.sender)) {
            state[member_key(event.sender)].content.get_str("membership"@)
        } else {
            None
        };
        let membership_check: Option<AuthErrorView> = if sender_membership == Some("ban"@) {
            Some(AuthErrorView::BannedUser { sender: event.sender })
        } else if sender_membership != Some("join"@) && !joins_or_invites(event) {
            Some(AuthErrorView::NotMember { sender: event.sender })
        } else {
            None
        };
        match membership_check {
            Some(e) => Err(e),
            None => {
                let sender_pl = sender_power_level(event.sender, state);
                let required_pl = required_power_level(event.event_type, state);
                if sender_pl < required_pl {
                    Err(
                        AuthErrorView::InsufficientPowerLevel {
                            required: required_pl,
                            actual: sender_pl,
                            event_type: event.event_type,
                        },
                    )
                } else if is_member_event {
                    membership_outcome(event, state)
                } else {
                    Ok(())
                }
            },
        }
    }
}

/// The result of an authorization check, as a view.
pub open spec fn result_view(r: Result<(), AuthError>) -> Result<(), AuthErrorView> {
    match r {
        Ok(()) => Ok(()),
        Err(e) => Err(e@),
    }
}

/// The power levels event of the room, if any.
fn power_levels_event(state: &RoomState) -> (r: Option<&LeanEvent>)
    ensures
        match r {
            Some(e) => state@.dom().contains(power_levels_key()) && state@[power_levels_key()] == e@,
            None => !state@.dom().contains(power_levels_key()),
        },
{
    let k0 = owned("m.room.power_levels");
    let k1 = String::new();
    state.get(&k0, &k1)
}

/// Get the power level of a user from the current room state.
fn get_sender_power_level(sender: &String, state: &RoomState) -> (r: i64)
    ensures
        r == sender_power_level(sender@, state@),
{
    if let Some(pl_event) = power_levels_event(state) {
        if let Some(users) = pl_event.content.get("users") {
            if let Some(pl) = users.get_i64(sender.as_str()) {
                return pl;
            }
        }
        // Fall back to users_default
        if let Some(default) = pl_event.content.get_i64("users_default") {
            return default;
        }
    }
    0  // Default power level if no power_levels event exists

}

/// Get the required power level to send a given event type.
fn get_required_power_level(event_type: &String, state: &RoomState) -> (r: i64)
    ensures
        r == required_power_level(event_type@, state@),
{
    if let Some(pl_event) = power_levels_event(state) {
        // Check specific event type overrides
        if let Some(events) = pl_event.content.get("events") {
            if let Some(pl) = events.get_i64(event_type.as_str()) {
                return pl;
            }
        }
        // Fall back to state_default for state events, events_default for others
        if starts_with(event_type.as_str(), "m.room.") {
            if let Some(default) = pl_event.content.get_i64("state_default") {
                return default;
            }
        }
        if let Some(default) = pl_event.content.get_i64("events_default") {
            return default;
        }
    }
    0  // No restrictions if no power_levels event exists

}

/// Get the kick power level from room state.
fn get_kick_power_level(state: &RoomState) -> (r: i64)
    ensures
        r == action_power_level("kick"@, state@),
{
    if let Some(pl_event) = power_levels_event(state) {
        if let Some(kick) = pl_event.content.get_i64("kick") {
            return kick;
        }
    }
    50  // Default kick power level per Matrix spec

}

/// Get the ban power level from room state.
fn get_ban_power_level(state: &RoomState) -> (r: i64)
    ensures
        r == action_power_level("ban"@, state@),
{
    if let Some(pl_event) = power_levels_event(state) {
        if let Some(ban) = pl_event.content.get_i64("ban") {
            return ban;
        }
    }
    50  // Default ban power level per Matrix spec

}

/// Validate membership transition rules for `m.room.member` events.
fn check_membership_rules(event: &LeanEvent, state: &RoomState) -> (r: Result<(), AuthError>)
    ensures
        result_view(r) == membership_outcome(event@, state@),
{
    let empty = String::new();
    let new_membership: &String = match event.content.get_str("membership") {
        Some(m) => m,
        None => &empty,
    };
    let same_user = event.state_key == event.sender;
    if str_eq(new_membership.as_str(), "join") && !same_user {
        // A user can only join as themselves (state_key == sender)
        return Err(
            AuthError::InvalidStateKey {
                expected: event.sender.clone(),
                actual: event.state_key.clone(),
            },
        );
    } else if str_eq(new_membership.as_str(), "leave") && !same_user {
        // If state_key != sender, this is a kick — requires power level
        let sender_pl = get_sender_power_level(&event.sender, state);
        let kick_pl = get_kick_power_level(state);
        if sender_pl < kick_pl {
            return Err(
                AuthError::InsufficientPowerLevel {
                    required: kick_pl,
                    actual: sender_pl,
                    event_type: owned("kick"),
                },
            );
        }
    } else if str_eq(new_membership.as_str(), "ban") {
        // Banning requires the ban power level
        let sender_pl = get_sender_power_level(&event.sender, state);
        let ban_pl = get_ban_power_level(state);
        if sender_pl < ban_pl {
            return Err(
                AuthError::InsufficientPowerLevel {
                    required: ban_pl,
                    actual: sender_pl,
                    event_type: owned("ban"),
                },
            );
        }
    } else if str_eq(new_membership.as_str(), "invite") {
        // Inviting requires invite power level, and sender != target
        if same_user {
            return Err(
                AuthError::InvalidStateKey {
                    expected: concat("!= ", event.sender.as_str()),
                    actual: event.state_key.clone(),
                },
            );
        }
        // Check target isn't already banned
        let target_kind = owned("m.room.member");
        if let Some(target_member) = state.get(&target_kind, &event.state_key) {
            if let Some(m) = target_member.content.get_str("membership") {
                if str_eq(m.as_str(), "ban") {
                    return Err(AuthError::BannedUser { sender: event.state_key.clone() });
                }
            }
        }
    }
    Ok(())
}

/// Check whether `event` is authorized given the room state at its `prev_events`.
///
/// This implements the core Matrix authorization rules:
/// 1. `m.room.create` must be the first event (no prev_events).
/// 2. Sender must be a joined member (unless joining/being invited).
/// 3. Sender must not be banned.
/// 4. Sender's power level must meet the event type requirement.
/// 5. For `m.room.member` events, the state_key must match transition rules.
pub fn check_auth(event: &LeanEvent, state: &RoomState) -> (r: Result<(), AuthError>)
    ensures
        result_view(r) == auth_outcome(event@, state@),
{
    // Rule 1: m.room.create must be the first event
    if str_eq(event.event_type.as_str(), "m.room.create") {
        if event.prev_events.len() != 0 {
            return Err(AuthError::CreateWithPrevEvents);
        }
        // Create events are always authorized if they're first
        return Ok(());
    }
    let is_member_event = str_eq(event.event_type.as_str(), "m.room.member");

    // Rules 2 and 3: the sender must not be banned, and must be a joined
    // member unless the event joins or invites.
    let joining_or_inviting = is_member_event && match event.content.get_str("membership") {
        Some(m) => str_eq(m.as_str(), "join") || str_eq(m.as_str(), "invite"),
        None => false,
    };
    let member_kind = owned("m.room.member");
    let sender_membership = match state.get(&member_kind, &event.sender) {
        Some(member_event) => member_event.content.get_str("membership"),
        None => None,
    };
    let (banned, joined) = match sender_membership {
        Some(m) => (str_eq(m.as_str(), "ban"), str_eq(m.as_str(), "join")),
        None => (false, false),
    };
    if banned {
        return Err(AuthError::BannedUser { sender: event.sender.clone() });
    }
    if !joined && !joining_or_inviting {
        return Err(AuthError::NotMember { sender: event.sender.clone() });
    }

    // Rule 4: Check power level requirements
    let sender_pl = get_sender_power_level(&event.sender, state);
    let required_pl = get_required_power_level(&event.event_type, state);

    if sender_pl < required_pl {
        return Err(
            AuthError::InsufficientPowerLevel {
                required: required_pl,
                actual: sender_pl,
                event_type: event.event_type.clone(),
            },
        );
    }

    // Rule 5: m.room.member state_key validation
    if is_member_event {
        return check_membership_rules(event, state);
    }
    Ok(())
}

/// What iteratively auth-checking `events` in order from `state` yields:
/// the accepted ids, the rejected ids with their errors, and the final
/// state (accepted state events and the create event are applied).
pub open spec fn chain_outcome(events: Seq<EventView>, state: Map<KeyView, EventView>) -> (
    Seq<Seq<char>>,
    Seq<(Seq<char>, AuthErrorView)>,
    Map<KeyView, EventView>,
)
    decreases events.len(),
{
    if events.len() == 0 {
        (Seq::empty(), Seq::empty(), state)
    } else {
        let (accepted, rejected, st) = chain_outcome(events.drop_last(), state);
        let e = events.last();
        match auth_outcome(e, st) {
            Ok(()) => (
                accepted.push(e.event_id),
                rejected,
                if e.state_key.len() != 0 || e.event_type == "m.room.create"@ {
                    st.insert((e.event_type, e.state_key), e)
                } else {
                    st
                },
            ),
            Err(err) => (accepted, rejected.push((e.event_id, err)), st),
        }
    }
}

/// The views of a sequence of events.
pub open spec fn events_view(events: Seq<LeanEvent>) -> Seq<EventView> {
    events.map_values(|e: LeanEvent| e@)
}

/// The views of rejected events and their errors.
pub open spec fn rejections_view(r: Seq<(String, AuthError)>) -> Seq<(Seq<char>, AuthErrorView)> {
    r.map_values(|p: (String, AuthError)| (p.0@, p.1@))
}

/// Iteratively apply auth checks to a list of events in topological order.
/// Returns the list of events that passed auth checks, and the list that failed
/// with their respective errors.
pub fn check_auth_chain(sorted_events: &[LeanEvent], initial_state: &RoomState) -> (r: (
    Vec<String>,
    Vec<(String, AuthError)>,
))
    ensures
        crate::event::strings_view(r.0@) == chain_outcome(events_view(sorted_events@), initial_state@).0,
        rejections_view(r.1@) == chain_outcome(events_view(sorted_events@), initial_state@).1,
{
    let mut state = initial_state.duplicate();
    let mut accepted: Vec<String> = Vec::new();
    let mut rejected: Vec<(String, AuthError)> = Vec::new();
    let ghost evs = events_view(sorted_events@);
    let mut i: usize = 0;
    while i < sorted_events.len()
        invariant
            i <= sorted_events.len(),
            evs == events_view(sorted_events@),
            chain_outcome(evs.take(i as int), initial_state@) == (
                crate::event::strings_view(accepted@),
                rejections_view(rejected@),
                state@,
            ),
        decreases sorted_events.len() - i,
    {
        let event = &sorted_events[i];
        proof {
            assert(evs.take(i + 1).drop_last() =~= evs.take(i as int));
            assert(evs.take(i + 1).last() == event@);
        }
        match check_auth(event, &state) {
            Ok(()) => {
                // Apply event to state
                if event.state_key.as_str().unicode_len() != 0 || str_eq(
                    event.event_type.as_str(),
                    "m.room.create",
                ) {
                    state.insert(event.event_type.clone(), event.state_key.clone(), event.clone());
                }
                let ghost before = accepted@;
                accepted.push(event.event_id.clone());
                assert(crate::event::strings_view(accepted@) =~= crate::event::strings_view(
                    before,
                ).push(event@.event_id));
            },
            Err(e) => {
                let ghost before = rejected@;
                rejected.push((event.event_id.clone(), e));
                assert(rejections_view(rejected@) =~= rejections_view(before).push(
                    (event@.event_id, e@),
                ));
            },
        }
        i = i + 1;
    }
    assert(evs.take(i as int) =~= evs);
    (accepted, rejected)
}

/// A create event without `prev_events` is authorized in every state, and a
/// create event with `prev_events` is refused in every state.
pub proof fn lemma_create_event_rule(event: EventView, state: Map<KeyView, EventView>)
    requires
        event.event_type == "m.room.create"@,
    ensures
        event.prev_events.len() == 0 ==> auth_outcome(event, state) == Ok::<(), AuthErrorView>(()),
        event.prev_events.len() != 0 ==> auth_outcome(event, state) == Err::<(), AuthErrorView>(
            AuthErrorView::CreateWithPrevEvents,
        ),
{
}

/// A banned sender is refused every event other than a create event.
pub proof fn lemma_banned_sender_refused(event: EventView, state: Map<KeyView, EventView>)
    requires
        event.event_type != "m.room.create"@,
        state.dom().contains(member_key(event.sender)),
        state[member_key(event.sender)].content.get_str("membership"@) == Some("ban"@),
    ensures
        auth_outcome(event, state) == Err::<(), AuthErrorView>(
            AuthErrorView::BannedUser { sender: event.sender },
        ),
{
}

/// A sender who is not a joined member can send nothing but create events
/// and membership events that join or invite.
pub proof fn lemma_non_member_refused(event: EventView, state: Map<KeyView, EventView>)
    requires
        event.event_type != "m.room.create"@,
        !joins_or_invites(event),
        !state.dom().contains(member_key(event.sender)) || (state[member_key(
            event.sender,
        )].content.get_str("membership"@) != Some("join"@) && state[member_key(
            event.sender,
        )].content.get_str("membership"@) != Some("ban"@)),
    ensures
        auth_outcome(event, state) == Err::<(), AuthErrorView>(
            AuthErrorView::NotMember { sender: event.sender },
        ),
{
}

/// Every event of the chain is either accepted or rejected, exactly once,
/// in the order of the chain.
pub proof fn lemma_chain_partitions(events: Seq<EventView>, state: Map<KeyView, EventView>)
    ensures
        chain_outcome(events, state).0.len() + chain_outcome(events, state).1.len() == events.len(),
    decreases events.len(),
{
    if events.len() > 0 {
        lemma_chain_partitions(events.drop_last(), state);
    }
}

/// Checking an event only reads the state given to it: the chain checks each
/// event against the state built from the events accepted before it, so
/// appending events never changes how the earlier ones were judged.
pub proof fn lemma_chain_prefix_stable(
    events: Seq<EventView>,
    more: Seq<EventView>,
    state: Map<KeyView, EventView>,
)
    ensures
        chain_outcome(events + more, state).0.take(chain_outcome(events, state).0.len() as int)
            == chain_outcome(events, state).0,
        chain_outcome(events + more, state).1.take(chain_outcome(events, state).1.len() as int)
            == chain_outcome(events, state).1,
    decreases more.len(),
{
    if more.len() == 0 {
        assert(events + more =~= events);
        assert(chain_outcome(events, state).0.take(chain_outcome(events, state).0.len() as int)
            =~= chain_outcome(events, state).0);
        assert(chain_outcome(events, state).1.take(chain_outcome(events, state).1.len() as int)
            =~= chain_outcome(events, state).1);
    } else {
        lemma_chain_prefix_stable(events, more.drop_last(), state);
        assert((events + more).drop_last() =~= events + more.drop_last());
        let prev = chain_outcome(events + more.drop_last(), state);
        let cur = chain_outcome(events + more, state);
        let base = chain_outcome(events, state);
        lemma_chain_partitions(events, state);
        assert(cur.0.take(base.0.len() as int) =~= prev.0.take(base.0.len() as int)) by {
            lemma_chain_lengths_grow(events, more.drop_last(), state);
        }
        assert(cur.1.take(base.1.len() as int) =~= prev.1.take(base.1.len() as int)) by {
            lemma_chain_lengths_grow(events, more.drop_last(), state);
        }
    }
}

/// The accepted and rejected lists only grow as events are appended.
proof fn lemma_chain_lengths_grow(
    events: Seq<EventView>,
    more: Seq<EventView>,
    state: Map<KeyView, EventView>,
)
    ensures
        chain_outcome(events, state).0.len() <= chain_outcome(events + more, state).0.len(),
        chain_outcome(events, state).1.len() <= chain_outcome(events + more, state).1.len(),
    decreases more.len(),
{
    if more.len() == 0 {
        assert(events + more =~= events);
    } else {
        lemma_chain_lengths_grow(events, more.drop_last(), state);
        assert((events + more).drop_last() =~= events + more.drop_last());
    }
}

/// The level that a power levels setting such as `ban` or `kick` takes:
/// the room's entry, 50 when it has none.
pub open spec fn setting_or_default(content: JsonView, field: Seq<char>) -> i64 {
    match content.get_i64(field) {
        Some(v) => v,
        None => 50,
    }
}

/// The literals that the membership rules tell apart are distinct.
proof fn lemma_membership_literals_distinct()
    ensures
        "m.room.member"@ != "m.room.create"@,
        "ban"@ != "join"@,
        "ban"@ != "invite"@,
        "ban"@ != "leave"@,
        "leave"@ != "join"@,
        "leave"@ != "invite"@,
        "leave"@ != "ban"@,
        "invite"@ != "join"@,
{
    reveal_strlit("m.room.member");
    reveal_strlit("m.room.create");
    reveal_strlit("ban");
    reveal_strlit("join");
    reveal_strlit("leave");
    reveal_strlit("invite");
    assert("m.room.member"@[7] != "m.room.create"@[7]);
    assert("ban"@.len() != "join"@.len());
    assert("ban"@.len() != "invite"@.len());
    assert("ban"@.len() != "leave"@.len());
    assert("leave"@.len() != "join"@.len());
    assert("leave"@.len() != "invite"@.len());
}

/// A ban is judged by the level of its sender, never of its target: when a
/// joined sender whose `users` entry is `p` may send membership events at
/// all, the ban passes exactly when `p` reaches the room's `ban` level (50
/// when unset), and otherwise fails naming that level and `p`.
pub proof fn lemma_ban_needs_sender_level(event: EventView, state: Map<KeyView, EventView>, p: i64)
    requires
        event.event_type == "m.room.member"@,
        event.content.get_str("membership"@) == Some("ban"@),
        state.dom().contains(member_key(event.sender)),
        state[member_key(event.sender)].content.get_str("membership"@) == Some("join"@),
        state.dom().contains(power_levels_key()),
        nested_i64(state[power_levels_key()].content, "users"@, event.sender) == Some(p),
        p >= required_power_level("m.room.member"@, state),
    ensures
        p < setting_or_default(state[power_levels_key()].content, "ban"@) ==> auth_outcome(event, state)
            == Err::<(), AuthErrorView>(
            AuthErrorView::InsufficientPowerLevel {
                required: setting_or_default(state[power_levels_key()].content, "ban"@),
                actual: p,
                event_type: "ban"@,
            },
        ),
        p >= setting_or_default(state[power_levels_key()].content, "ban"@) ==> auth_outcome(
            event,
            state,
        ) == Ok::<(), AuthErrorView>(()),
{
    lemma_membership_literals_distinct();
}

/// A kick (a `leave` for another user) is judged by the level of its
/// sender: when a joined sender whose `users` entry is `p` may send
/// membership events at all, the kick passes exactly when `p` reaches the
/// room's `kick` level (50 when unset), and otherwise fails naming that
/// level and `p`.
pub proof fn lemma_kick_needs_sender_level(event: EventView, state: Map<KeyView, EventView>, p: i64)
    requires
        event.event_type == "m.room.member"@,
        event.content.get_str("membership"@) == Some("leave"@),
        event.state_key != event.sender,
        state.dom().contains(member_key(event.sender)),
        state[member_key(event.sender)].content.get_str("membership"@) == Some("join"@),
        state.dom().contains(power_levels_key()),
        nested_i64(state[power_levels_key()].content, "users"@, event.sender) == Some(p),
        p >= required_power_level("m.room.member"@, state),
    ensures
        p < setting_or_default(state[power_levels_key()].content, "kick"@) ==> auth_outcome(event, state)
            == Err::<(), AuthErrorView>(
            AuthErrorView::InsufficientPowerLevel {
                required: setting_or_default(state[power_levels_key()].content, "kick"@),
                actual: p,
                event_type: "kick"@,
            },
        ),
        p >= setting_or_default(state[power_levels_key()].content, "kick"@) ==> auth_outcome(
            event,
            state,
        ) == Ok::<(), AuthErrorView>(()),
{
    lemma_membership_literals_distinct();
}

/// A rejected event leaves no trace: putting into the chain an event that
/// is rejected at that point changes neither which later events are
/// accepted, nor the errors of the later rejected ones, nor the final state;
/// the rejected list only gains that event, with its error, in its place.
pub proof fn lemma_rejected_event_leaves_no_trace(
    before: Seq<EventView>,
    e: EventView,
    err: AuthErrorView,
    after: Seq<EventView>,
    state: Map<KeyView, EventView>,
)
    requires
        auth_outcome(e, chain_outcome(before, state).2) == Err::<(), AuthErrorView>(err),
    ensures
        chain_outcome(before.push(e) + after, state).0 == chain_outcome(before + after, state).0,
        chain_outcome(before.push(e) + after, state).2 == chain_outcome(before + after, state).2,
        chain_outcome(before.push(e) + after, state).1 == chain_outcome(before, state).1.push(
            (e.event_id, err),
        ) + chain_outcome(before + after, state).1.skip(chain_outcome(before, state).1.len() as int),
    decreases after.len(),
{
    let n = chain_outcome(before, state).1.len() as int;
    if after.len() == 0 {
        assert(before.push(e) + after =~= before.push(e));
        assert(before + after =~= before);
        assert(before.push(e).drop_last() =~= before);
        assert(chain_outcome(before, state).1.skip(n) =~= Seq::<(Seq<char>, AuthErrorView)>::empty());
        assert(chain_outcome(before, state).1.push((e.event_id, err)) + Seq::<(Seq<char>, AuthErrorView)>::empty()
            =~= chain_outcome(before, state).1.push((e.event_id, err)));
    } else {
        let shorter = after.drop_last();
        lemma_rejected_event_leaves_no_trace(before, e, err, shorter, state);
        assert((before.push(e) + after).drop_last() =~= before.push(e) + shorter);
        assert((before + after).drop_last() =~= before + shorter);
        assert((before.push(e) + after).last() == after.last());
        assert((before + after).last() == after.last());
        lemma_chain_lengths_grow(before, shorter, state);
        let lhs = chain_outcome(before.push(e) + shorter, state).1;
        let rhs = chain_outcome(before + shorter, state).1;
        let x = after.last();
        match auth_outcome(x, chain_outcome(before + shorter, state).2) {
            Ok(()) => {},
            Err(err2) => {
                assert(rhs.push((x.event_id, err2)).skip(n) =~= rhs.skip(n).push((x.event_id, err2)));
                assert(lhs.push((x.event_id, err2)) =~= chain_outcome(before, state).1.push(
                    (e.event_id, err),
                ) + rhs.push((x.event_id, err2)).skip(n));
            },
        }
    }
}

/// The power level gate: a joined sender whose `users` entry is `p` sends
/// an event of a type that has an entry `q` under `events` only when
/// `p >= q`; below it the event is refused naming `q`, `p` and the type.
/// At or above it, any event but a membership event is authorized.
pub proof fn lemma_power_gate(event: EventView, state: Map<KeyView, EventView>, p: i64, q: i64)
    requires
        event.event_type != "m.room.create"@,
        state.dom().contains(member_key(event.sender)),
        state[member_key(event.sender)].content.get_str("membership"@) == Some("join"@),
        state.dom().contains(power_levels_key()),
        nested_i64(state[power_levels_key()].content, "users"@, event.sender) == Some(p),
        nested_i64(state[power_levels_key()].content, "events"@, event.event_type) == Some(q),
    ensures
        p < q ==> auth_outcome(event, state) == Err::<(), AuthErrorView>(
            AuthErrorView::InsufficientPowerLevel { required: q, actual: p, event_type: event.event_type },
        ),
        p >= q && event.event_type != "m.room.member"@ ==> auth_outcome(event, state) == Ok::<
            (),
            AuthErrorView,
        >(()),
{
    lemma_membership_literals_distinct();
}

/// Where the required level of an event type comes from, once the room has
/// power levels: the type's entry under `events`; without one,
/// `state_default` for `m.room.*` types; then `events_default`; else 0.
/// Without power levels nothing is required.
pub proof fn lemma_required_level_sources(event_type: Seq<char>, state: Map<KeyView, EventView>)
    ensures
        !state.dom().contains(power_levels_key()) ==> required_power_level(event_type, state) == 0,
        state.dom().contains(power_levels_key()) ==> {
            let content = state[power_levels_key()].content;
            let room_type = "m.room."@.is_prefix_of(event_type);
            &&& (nested_i64(content, "events"@, event_type) matches Some(q) ==> required_power_level(
                event_type,
                state,
            ) == q)
            &&& (nested_i64(content, "events"@, event_type) is None && room_type && content.get_i64(
                "state_default"@,
            ) is Some ==> required_power_level(event_type, state) == content.get_i64(
                "state_default"@,
            )->Some_0)
            &&& (nested_i64(content, "events"@, event_type) is None && !(room_type && content.get_i64(
                "state_default"@,
            ) is Some) && content.get_i64("events_default"@) is Some ==> required_power_level(
                event_type,
                state,
            ) == content.get_i64("events_default"@)->Some_0)
            &&& (nested_i64(content, "events"@, event_type) is None && !(room_type && content.get_i64(
                "state_default"@,
            ) is Some) && content.get_i64("events_default"@) is None ==> required_power_level(
                event_type,
                state,
            ) == 0)
        },
{
    assert("m.room."@.is_prefix_of(event_type) == (event_type.len() >= "m.room."@.len() && event_type.take(
        "m.room."@.len() as int,
    ) == "m.room."@)) by {
        if "m.room."@.is_prefix_of(event_type) {
            assert(event_type.take("m.room."@.len() as int) =~= "m.room."@);
        }
    }
}

/// The membership transitions that do not depend on power: a user joins
/// only as themselves, nobody invites themselves, and a banned user cannot
/// be invited. Each is refused with the error that names it, for a joined
/// sender who passes the power level gate.
pub proof fn lemma_membership_transitions(event: EventView, state: Map<KeyView, EventView>)
    requires
        event.event_type == "m.room.member"@,
        state.dom().contains(member_key(event.sender)),
        state[member_key(event.sender)].content.get_str("membership"@) == Some("join"@),
        sender_power_level(event.sender, state) >= required_power_level("m.room.member"@, state),
    ensures
        event.content.get_str("membership"@) == Some("join"@) && event.state_key != event.sender
            ==> auth_outcome(event, state) == Err::<(), AuthErrorView>(
            AuthErrorView::InvalidStateKey { expected: event.sender, actual: event.state_key },
        ),
        event.content.get_str("membership"@) == Some("invite"@) && event.state_key == event.sender
            ==> auth_outcome(event, state) == Err::<(), AuthErrorView>(
            AuthErrorView::InvalidStateKey { expected: "!= "@ + event.sender, actual: event.state_key },
        ),
        event.content.get_str("membership"@) == Some("invite"@) && event.state_key != event.sender
            && state.dom().contains(member_key(event.state_key)) && state[member_key(
            event.state_key,
        )].content.get_str("membership"@) == Some("ban"@) ==> auth_outcome(event, state) == Err::<
            (),
            AuthErrorView,
        >(AuthErrorView::BannedUser { sender: event.state_key }),
        event.content.get_str("membership"@) == Some("invite"@) && event.state_key != event.sender
            && !state.dom().contains(member_key(event.state_key)) ==> auth_outcome(event, state) == Ok::<
            (),
            AuthErrorView,
        >(()),
{
    lemma_membership_literals_distinct();
}

/// Where a sender's power level comes from: its entry under `users`;
/// without one, `users_default`; else 0. Without power levels every sender
/// has level 0.
pub proof fn lemma_sender_level_sources(sender: Seq<char>, state: Map<KeyView, EventView>)
    ensures
        !state.dom().contains(power_levels_key()) ==> sender_power_level(sender, state) == 0,
        state.dom().contains(power_levels_key()) ==> {
            let content = state[power_levels_key()].content;
            &&& (nested_i64(content, "users"@, sender) is Some ==> sender_power_level(sender, state)
                == nested_i64(content, "users"@, sender)->Some_0)
            &&& (nested_i64(content, "users"@, sender) is None && content.get_i64("users_default"@) is Some
                ==> sender_power_level(sender, state) == content.get_i64("users_default"@)->Some_0)
            &&& (nested_i64(content, "users"@, sender) is None && content.get_i64("users_default"@) is None
                ==> sender_power_level(sender, state) == 0)
        },
{
}

/// An accepted event with an empty state key (other than a create event)
/// does not touch the state: putting it into the chain changes neither
/// the verdict nor the error of any later event, nor the final state; the
/// accepted list only gains that event in its place.
pub proof fn lemma_accepted_stateless_event_leaves_no_trace(
    before: Seq<EventView>,
    e: EventView,
    after: Seq<EventView>,
    state: Map<KeyView, EventView>,
)
    requires
        auth_outcome(e, chain_outcome(before, state).2) is Ok,
        e.state_key.len() == 0,
        e.event_type != "m.room.create"@,
    ensures
        chain_outcome(before.push(e) + after, state).1 == chain_outcome(before + after, state).1,
        chain_outcome(before.push(e) + after, state).2 == chain_outcome(before + after, state).2,
        chain_outcome(before.push(e) + after, state).0 == chain_outcome(before, state).0.push(e.event_id)
            + chain_outcome(before + after, state).0.skip(chain_outcome(before, state).0.len() as int),
    decreases after.len(),
{
    let n = chain_outcome(before, state).0.len() as int;
    if after.len() == 0 {
        assert(before.push(e) + after =~= before.push(e));
        assert(before + after =~= before);
        assert(before.push(e).drop_last() =~= before);
        assert(chain_outcome(before, state).0.skip(n) =~= Seq::<Seq<char>>::empty());
        assert(chain_outcome(before, state).0.push(e.event_id) + Seq::<Seq<char>>::empty()
            =~= chain_outcome(before, state).0.push(e.event_id));
    } else {
        let shorter = after.drop_last();
        lemma_accepted_stateless_event_leaves_no_trace(before, e, shorter, state);
        assert((before.push(e) + after).drop_last() =~= before.push(e) + shorter);
        assert((before + after).drop_last() =~= before + shorter);
        assert((before.push(e) + after).last() == after.last());
        assert((before + after).last() == after.last());
        lemma_chain_lengths_grow(before, shorter, state);
        let lhs = chain_outcome(before.push(e) + shorter, state).0;
        let rhs = chain_outcome(before + shorter, state).0;
        let x = after.last();
        match auth_outcome(x, chain_outcome(before + shorter, state).2) {
            Ok(()) => {
                assert(rhs.push(x.event_id).skip(n) =~= rhs.skip(n).push(x.event_id));
                assert(lhs.push(x.event_id) =~= chain_outcome(before, state).0.push(e.event_id)
                    + rhs.push(x.event_id).skip(n));
            },
            Err(err2) => {},
        }
    }
}

} // verus!
