use ruma_lean::auth::{check_auth, check_auth_chain, AuthError};
use ruma_lean::{JsonValue, LeanEvent, RoomState};

fn s(x: &str) -> String {
    x.to_string()
}

fn obj(members: Vec<(&str, JsonValue)>) -> JsonValue {
    JsonValue::Object(members.into_iter().map(|(k, v)| (s(k), v)).collect())
}

fn text(x: &str) -> JsonValue {
    JsonValue::Str(s(x))
}

fn make_event(id: &str, event_type: &str, state_key: &str, sender: &str, content: JsonValue) -> LeanEvent {
    LeanEvent {
        event_id: s(id),
        event_type: s(event_type),
        state_key: s(state_key),
        sender: s(sender),
        content,
        ..Default::default()
    }
}

#[test]
fn test_create_event_no_prev_events() {
    let create = make_event("$create", "m.room.create", "", "@alice:example.com", obj(vec![]));
    let state = RoomState::new();
    assert!(check_auth(&create, &state).is_ok());
}

#[test]
fn test_create_event_with_prev_events() {
    let mut create = make_event("$create", "m.room.create", "", "@alice:example.com", obj(vec![]));
    create.prev_events = vec![s("$other")];
    let state = RoomState::new();
    assert_eq!(check_auth(&create, &state), Err(AuthError::CreateWithPrevEvents));
}

#[test]
fn test_non_member_rejection() {
    let msg = make_event("$msg", "m.room.message", "", "@bob:example.com", obj(vec![]));
    let state = RoomState::new();
    assert!(matches!(check_auth(&msg, &state), Err(AuthError::NotMember { .. })));
}

#[test]
fn test_joined_member_can_send() {
    let msg = make_event("$msg", "m.room.message", "", "@alice:example.com", obj(vec![]));
    let mut state = RoomState::new();
    state.insert(
        s("m.room.member"),
        s("@alice:example.com"),
        make_event(
            "$join",
            "m.room.member",
            "@alice:example.com",
            "@alice:example.com",
            obj(vec![("membership", text("join"))]),
        ),
    );
    assert!(check_auth(&msg, &state).is_ok());
}

#[test]
fn test_banned_user_rejected() {
    let msg = make_event("$msg", "m.room.message", "", "@alice:example.com", obj(vec![]));
    let mut state = RoomState::new();
    state.insert(
        s("m.room.member"),
        s("@alice:example.com"),
        make_event(
            "$ban",
            "m.room.member",
            "@alice:example.com",
            "@admin:example.com",
            obj(vec![("membership", text("ban"))]),
        ),
    );
    assert!(matches!(check_auth(&msg, &state), Err(AuthError::BannedUser { .. })));
}

#[test]
fn test_insufficient_power_level() {
    let msg = make_event("$msg", "m.room.power_levels", "", "@alice:example.com", obj(vec![]));
    let mut state = RoomState::new();
    state.insert(
        s("m.room.member"),
        s("@alice:example.com"),
        make_event(
            "$join",
            "m.room.member",
            "@alice:example.com",
            "@alice:example.com",
            obj(vec![("membership", text("join"))]),
        ),
    );
    state.insert(
        s("m.room.power_levels"),
        String::new(),
        make_event(
            "$pl",
            "m.room.power_levels",
            "",
            "@admin:example.com",
            obj(vec![
                ("state_default", JsonValue::PosInt(50)),
                ("users", obj(vec![("@admin:example.com", JsonValue::PosInt(100))])),
            ]),
        ),
    );
    assert!(matches!(check_auth(&msg, &state), Err(AuthError::InsufficientPowerLevel { .. })));
}

#[test]
fn test_join_self_only() {
    let join = make_event(
        "$join",
        "m.room.member",
        "@bob:example.com",
        "@alice:example.com",
        obj(vec![("membership", text("join"))]),
    );
    let state = RoomState::new();
    assert!(matches!(check_auth(&join, &state), Err(AuthError::InvalidStateKey { .. })));
}

#[test]
fn test_iterative_auth_chain() {
    let create = make_event("$create", "m.room.create", "", "@alice:example.com", obj(vec![]));
    let join = make_event(
        "$join",
        "m.room.member",
        "@alice:example.com",
        "@alice:example.com",
        obj(vec![("membership", text("join"))]),
    );
    let msg = make_event(
        "$msg",
        "m.room.message",
        "",
        "@alice:example.com",
        obj(vec![("body", text("hello"))]),
    );
    let (accepted, rejected) = check_auth_chain(&[create, join, msg], &RoomState::new());
    assert_eq!(accepted, vec!["$create", "$join", "$msg"]);
    assert!(rejected.is_empty());
}

#[test]
fn test_auth_error_display() {
    let err = AuthError::NotMember { sender: s("@bob:example.com") };
    let msg = err.to_string();
    assert!(msg.contains("bob"));
}

#[test]
fn test_member_without_membership_is_not_joined() {
    let msg = make_event("$msg", "m.room.message", "", "@alice:example.com", obj(vec![]));
    let mut state = RoomState::new();
    state.insert(
        s("m.room.member"),
        s("@alice:example.com"),
        make_event("$m", "m.room.member", "@alice:example.com", "@alice:example.com", obj(vec![])),
    );
    assert_eq!(
        check_auth(&msg, &state),
        Err(AuthError::NotMember { sender: s("@alice:example.com") })
    );
}

#[test]
fn test_non_member_cannot_ban() {
    let ban = make_event(
        "$ban",
        "m.room.member",
        "@bob:example.com",
        "@eve:example.com",
        obj(vec![("membership", text("ban"))]),
    );
    let mut state = RoomState::new();
    state.insert(
        s("m.room.power_levels"),
        s(""),
        make_event(
            "$pl",
            "m.room.power_levels",
            "",
            "@eve:example.com",
            obj(vec![("users", obj(vec![("@eve:example.com", JsonValue::PosInt(100))]))]),
        ),
    );
    assert_eq!(
        check_auth(&ban, &state),
        Err(AuthError::NotMember { sender: s("@eve:example.com") })
    );
}

#[test]
fn test_non_member_may_join_or_invite() {
    let state = RoomState::new();
    let join = make_event("$j", "m.room.member", "@bob:x", "@bob:x", obj(vec![("membership", text("join"))]));
    assert!(check_auth(&join, &state).is_ok());
    let invite = make_event("$i", "m.room.member", "@carol:x", "@bob:x", obj(vec![("membership", text("invite"))]));
    assert!(check_auth(&invite, &state).is_ok());
}
