use ruma_lean::auth_chain::compute_auth_chain;
use ruma_lean::pipeline::{
    assign_levels, choose_version, detect_version, index_events, power_events, resolve_room,
    room_creator, split_input, split_states, states_at, version_for_room, InputError,
};
use ruma_lean::room_state::{latest_state, state_at_head};
use ruma_lean::trace_compiler::{count_active, TraceCompiler};
use ruma_lean::{EventMap, JsonValue, LeanEvent, StateMap, StateResVersion};

fn s(x: &str) -> String {
    x.to_string()
}

fn obj(members: Vec<(&str, JsonValue)>) -> JsonValue {
    JsonValue::Object(members.into_iter().map(|(k, v)| (s(k), v)).collect())
}

fn text(x: &str) -> JsonValue {
    JsonValue::Str(s(x))
}

fn ids(xs: &[&str]) -> Vec<String> {
    xs.iter().map(|x| s(x)).collect()
}

fn ev(id: &str, event_type: &str, state_key: &str, sender: &str, prev: &[&str], auth: &[&str]) -> LeanEvent {
    LeanEvent {
        event_id: s(id),
        event_type: s(event_type),
        state_key: s(state_key),
        sender: s(sender),
        prev_events: ids(prev),
        auth_events: ids(auth),
        ..Default::default()
    }
}

fn map_of(events: Vec<LeanEvent>) -> EventMap {
    let mut m = EventMap::new();
    for e in events {
        m.insert(e);
    }
    m
}

fn state_of(entries: &[(&str, &str, &str)]) -> StateMap<String> {
    let mut st = StateMap::new();
    for (t, k, id) in entries {
        st.insert(s(t), s(k), s(id));
    }
    st
}

fn get<'a>(st: &'a StateMap<String>, t: &str, k: &str) -> Option<&'a String> {
    st.get(&s(t), &s(k))
}

#[test]
fn test_version_for_room_versions() {
    assert_eq!(version_for_room("1"), StateResVersion::V1);
    for v in ["2", "3", "4", "5", "6", "7", "8", "9", "10", "11"] {
        assert_eq!(version_for_room(v), StateResVersion::V2);
    }
    assert_eq!(version_for_room("12"), StateResVersion::V2_1);
    assert_eq!(version_for_room("99"), StateResVersion::V2);
    assert_eq!(version_for_room(""), StateResVersion::V2);
}

#[test]
fn test_detect_version_first_declaring_create() {
    let message = obj(vec![("type", text("m.room.message"))]);
    let bare_create = obj(vec![("type", text("m.room.create")), ("content", obj(vec![]))]);
    let create_12 = obj(vec![
        ("type", text("m.room.create")),
        ("content", obj(vec![("room_version", text("12"))])),
    ]);
    let create_1 = obj(vec![
        ("type", text("m.room.create")),
        ("content", obj(vec![("room_version", text("1"))])),
    ]);
    assert_eq!(detect_version(&vec![message.clone(), create_12.clone()]), StateResVersion::V2_1);
    assert_eq!(detect_version(&vec![bare_create, create_1.clone(), create_12.clone()]), StateResVersion::V1);
    assert_eq!(detect_version(&vec![message.clone()]), StateResVersion::V2);
    assert_eq!(detect_version(&vec![]), StateResVersion::V2);
    // A room version given as a number is not a declaration.
    let numeric = obj(vec![
        ("type", text("m.room.create")),
        ("content", obj(vec![("room_version", JsonValue::PosInt(1))])),
    ]);
    assert_eq!(detect_version(&vec![numeric]), StateResVersion::V2);
    assert_eq!(choose_version(Some(StateResVersion::V1), &vec![create_12.clone()]), StateResVersion::V1);
    assert_eq!(choose_version(None, &vec![create_12]), StateResVersion::V2_1);
}

#[test]
fn test_room_creator_is_last_create_sender() {
    let events = vec![
        ev("$c1", "m.room.create", "", "@alice:example.com", &[], &[]),
        ev("$m", "m.room.member", "@bob:example.com", "@bob:example.com", &[], &[]),
        ev("$c2", "m.room.create", "", "@carol:example.com", &[], &[]),
    ];
    assert_eq!(room_creator(&events), "@carol:example.com");
    assert_eq!(room_creator(&events[1..2].to_vec()), "");
}

#[test]
fn test_index_events_later_duplicate_wins() {
    let mut first = ev("$x", "m.room.member", "@a", "@a", &[], &[]);
    first.power_level = 1;
    let mut second = ev("$x", "m.room.member", "@a", "@a", &[], &[]);
    second.power_level = 2;
    let m = index_events(&vec![first, second, ev("$y", "m.room.topic", "", "@a", &[], &[])]);
    assert_eq!(m.len(), 2);
    assert_eq!(m.get("$x").unwrap().power_level, 2);
}

#[test]
fn test_power_events_bootstrap_levels() {
    let m = map_of(vec![
        ev("$create", "m.room.create", "", "@alice:example.com", &[], &[]),
        ev("$pl", "m.room.power_levels", "", "@alice:example.com", &[], &[]),
        ev("$jr", "m.room.join_rules", "", "@bob:example.com", &[], &[]),
        ev("$bob", "m.room.member", "@bob:example.com", "@bob:example.com", &[], &[]),
        ev("$msg", "m.room.message", "", "@alice:example.com", &[], &[]),
    ]);
    let p = power_events(&m, &s("@alice:example.com"));
    assert_eq!(p.len(), 4);
    assert_eq!(p.get("$create").unwrap().power_level, 100);
    assert_eq!(p.get("$pl").unwrap().power_level, 100);
    assert_eq!(p.get("$jr").unwrap().power_level, 0);
    assert_eq!(p.get("$bob").unwrap().power_level, 0);
    assert!(p.get("$msg").is_none());
    // Without a creator only the create event ranks high.
    let q = power_events(&m, &s(""));
    assert_eq!(q.get("$create").unwrap().power_level, 100);
    assert_eq!(q.get("$pl").unwrap().power_level, 0);
}

#[test]
fn test_assign_levels_from_power_levels_content() {
    let m = map_of(vec![
        ev("$a", "m.room.member", "@alice", "@alice", &[], &[]),
        ev("$b", "m.room.member", "@bob", "@bob", &[], &[]),
        ev("$c", "m.room.member", "@carol", "@carol", &[], &[]),
    ]);
    let mut pl = ev("$pl", "m.room.power_levels", "", "@alice", &[], &[]);
    pl.content = obj(vec![
        ("users", obj(vec![("@alice", JsonValue::PosInt(100)), ("@bob", text("50"))])),
        ("users_default", JsonValue::NegInt(-5)),
    ]);
    let leveled = assign_levels(&m, Some(&pl));
    assert_eq!(leveled.get("$a").unwrap().power_level, 100);
    // A level given as text is not an integer: the default applies.
    assert_eq!(leveled.get("$b").unwrap().power_level, -5);
    assert_eq!(leveled.get("$c").unwrap().power_level, -5);
    let none = assign_levels(&m, None);
    assert_eq!(none.get("$a").unwrap().power_level, 0);
}

#[test]
fn test_split_states_agreement_and_conflict() {
    let m = map_of(vec![
        ev("$1", "a", "", "@x", &[], &[]),
        ev("$2", "b", "", "@x", &[], &[]),
        ev("$3", "b", "", "@x", &[], &[]),
        ev("$4", "c", "", "@x", &[], &[]),
    ]);
    let states = vec![
        state_of(&[("a", "", "$1"), ("b", "", "$2")]),
        state_of(&[("a", "", "$1"), ("b", "", "$3"), ("c", "", "$4")]),
    ];
    let (un, co) = split_states(&states, &m, StateResVersion::V2);
    assert_eq!(un.len(), 1);
    assert_eq!(get(&un, "a", ""), Some(&s("$1")));
    assert_eq!(co.len(), 3);
    assert!(co.contains_key("$2") && co.contains_key("$3") && co.contains_key("$4"));
    assert!(!co.contains_key("$1"));
    // V2.1 sorts the unconflicted events with the conflicted ones.
    let (un21, co21) = split_states(&states, &m, StateResVersion::V2_1);
    assert_eq!(un21.len(), 1);
    assert_eq!(co21.len(), 4);
    assert!(co21.contains_key("$1"));
}

#[test]
fn test_single_state_resolves_to_itself() {
    let m = map_of(vec![ev("$1", "a", "", "@x", &[], &[]), ev("$2", "b", "", "@x", &[], &[])]);
    let states = vec![state_of(&[("a", "", "$1"), ("b", "", "$2")])];
    let (un, co) = split_states(&states, &m, StateResVersion::V1);
    assert_eq!(co.len(), 0);
    assert_eq!(un, states[0]);
}

#[test]
fn test_latest_state_keeps_largest_id() {
    let m = map_of(vec![
        ev("$a", "m.room.topic", "", "@x", &[], &[]),
        ev("$c", "m.room.topic", "", "@x", &[], &[]),
        ev("$b", "m.room.topic", "", "@x", &[], &[]),
        ev("$z", "m.room.name", "", "@x", &[], &[]),
    ]);
    let st = latest_state(&m);
    assert_eq!(st.len(), 2);
    assert_eq!(get(&st, "m.room.topic", ""), Some(&s("$c")));
    assert_eq!(get(&st, "m.room.name", ""), Some(&s("$z")));
}

#[test]
fn test_state_at_head_prefers_nearest_then_largest() {
    // H(t1) -> A(t2), B(t2); A -> C(t3), D(t1), Z (missing)
    let m = map_of(vec![
        ev("$h", "t1", "", "@x", &["$a", "$b"], &[]),
        ev("$a", "t2", "", "@x", &["$c", "$d", "$zz"], &[]),
        ev("$b", "t2", "", "@x", &[], &[]),
        ev("$c", "t3", "", "@x", &[], &[]),
        ev("$d", "t1", "", "@x", &[], &[]),
        ev("$far", "t4", "", "@x", &[], &[]),
    ]);
    let st = state_at_head(&m, &s("$h"));
    assert_eq!(st.len(), 3);
    // The head holds its own slot, though "$d" is larger and reachable.
    assert_eq!(get(&st, "t1", ""), Some(&s("$h")));
    assert_eq!(get(&st, "t2", ""), Some(&s("$b")));
    assert_eq!(get(&st, "t3", ""), Some(&s("$c")));
    assert_eq!(get(&st, "t4", ""), None);
    // A head that the room lacks gives an empty state.
    assert_eq!(state_at_head(&m, &s("$nothing")).len(), 0);
    // A cycle through prev events still ends.
    let cyc = map_of(vec![ev("$p", "t", "", "@x", &["$q"], &[]), ev("$q", "u", "", "@x", &["$p"], &[])]);
    assert_eq!(state_at_head(&cyc, &s("$p")).len(), 2);
}

#[test]
fn test_states_at_with_and_without_heads() {
    let m = map_of(vec![
        ev("$1", "t", "", "@x", &[], &[]),
        ev("$2", "t", "", "@x", &["$1"], &[]),
    ]);
    let no_heads = states_at(&m, &vec![]);
    assert_eq!(no_heads.len(), 1);
    assert_eq!(get(&no_heads[0], "t", ""), Some(&s("$2")));
    let heads = states_at(&m, &ids(&["$1", "$2"]));
    assert_eq!(heads.len(), 2);
    assert_eq!(get(&heads[0], "t", ""), Some(&s("$1")));
    assert_eq!(get(&heads[1], "t", ""), Some(&s("$2")));
}

#[test]
fn test_compute_auth_chain_walks_auth_events() {
    let m = map_of(vec![
        ev("$a", "t", "", "@x", &[], &[]),
        ev("$b", "t", "", "@x", &[], &["$a"]),
        ev("$c", "t", "", "@x", &[], &["$b", "$missing"]),
        ev("$d", "t", "", "@x", &[], &["$c"]),
    ]);
    assert_eq!(compute_auth_chain(&ids(&["$c"]), &m), ids(&["$a", "$b", "$missing"]));
    assert_eq!(compute_auth_chain(&ids(&["$d", "$b"]), &m), ids(&["$a", "$b", "$c", "$missing"]));
    assert_eq!(compute_auth_chain(&ids(&["$a"]), &m), Vec::<String>::new());
    assert_eq!(compute_auth_chain(&ids(&["$unknown"]), &m), Vec::<String>::new());
}

#[test]
fn test_auth_chain_closed_under_auth_steps() {
    let m = map_of(vec![
        ev("$a", "t", "", "@x", &[], &[]),
        ev("$b", "t", "", "@x", &[], &["$a"]),
        ev("$c", "t", "", "@x", &[], &["$b"]),
    ]);
    let chain = compute_auth_chain(&ids(&["$c"]), &m);
    for id in &chain {
        if let Some(e) = m.get(id) {
            for a in &e.auth_events {
                assert!(chain.contains(a));
            }
        }
    }
}

fn small_room() -> Vec<LeanEvent> {
    let mut create = ev("$create", "m.room.create", "", "@alice:example.com", &[], &[]);
    create.origin_server_ts = 1;
    let mut pl = ev("$pl", "m.room.power_levels", "", "@alice:example.com", &["$create"], &["$create"]);
    pl.content = obj(vec![("users", obj(vec![("@alice:example.com", JsonValue::PosInt(100))]))]);
    pl.origin_server_ts = 2;
    let mut alice = ev("$alice", "m.room.member", "@alice:example.com", "@alice:example.com", &["$pl"], &["$create", "$pl"]);
    alice.origin_server_ts = 3;
    let mut bob = ev("$bob", "m.room.member", "@bob:example.com", "@bob:example.com", &["$alice"], &["$create", "$pl"]);
    bob.origin_server_ts = 4;
    vec![create, pl, alice, bob]
}

#[test]
fn test_resolve_room_without_heads() {
    let events = small_room();
    let r = resolve_room(&events, &vec![], StateResVersion::V2);
    // One state: nothing conflicts and the state is kept.
    assert_eq!(r.conflicted.len(), 0);
    assert_eq!(r.state.len(), 4);
    assert_eq!(get(&r.state, "m.room.member", "@bob:example.com"), Some(&s("$bob")));
    assert_eq!(get(&r.state, "m.room.power_levels", ""), Some(&s("$pl")));
    assert_eq!(r.events.get("$alice").unwrap().power_level, 100);
    assert_eq!(r.events.get("$bob").unwrap().power_level, 0);
    let chain = compute_auth_chain(&r.state.values(), &r.events);
    assert_eq!(chain, ids(&["$create", "$pl"]));
}

#[test]
fn test_resolve_room_v2_1_sorts_everything() {
    let events = small_room();
    let r = resolve_room(&events, &vec![], StateResVersion::V2_1);
    assert_eq!(r.conflicted.len(), 4);
    assert_eq!(r.state.len(), 4);
    assert_eq!(get(&r.state, "m.room.create", ""), Some(&s("$create")));
}

#[test]
fn test_resolve_room_with_forked_heads() {
    let mut events = small_room();
    let mut topic_a = ev("$topic_a", "m.room.topic", "", "@alice:example.com", &["$bob"], &["$create", "$pl", "$alice"]);
    topic_a.origin_server_ts = 10;
    let mut topic_b = ev("$topic_b", "m.room.topic", "", "@bob:example.com", &["$bob"], &["$create", "$pl", "$bob"]);
    topic_b.origin_server_ts = 11;
    events.push(topic_a);
    events.push(topic_b);
    let r = resolve_room(&events, &ids(&["$topic_a", "$topic_b"]), StateResVersion::V2);
    // The heads agree on everything but the topic.
    assert_eq!(r.conflicted.len(), 2);
    assert!(r.conflicted.contains_key("$topic_a") && r.conflicted.contains_key("$topic_b"));
    // Bob (level 0) sorts before Alice (level 100); the later event wins.
    assert_eq!(get(&r.state, "m.room.topic", ""), Some(&s("$topic_a")));
    assert_eq!(r.state.len(), 5);
}

#[test]
fn test_split_input_shapes() {
    let e1 = obj(vec![("event_id", text("$1"))]);
    let both = obj(vec![
        ("events", JsonValue::Array(vec![e1.clone()])),
        ("heads", JsonValue::Array(vec![text("$1")])),
    ]);
    let (evs, hs) = split_input(&both).unwrap();
    assert_eq!(evs.len(), 1);
    assert_eq!(hs, ids(&["$1"]));

    let single = obj(vec![("events", JsonValue::Array(vec![]))]);
    let (evs, hs) = split_input(&single).unwrap();
    assert_eq!(evs.len(), 1);
    assert!(hs.is_empty());

    let arr = JsonValue::Array(vec![e1.clone(), e1.clone()]);
    let (evs, hs) = split_input(&arr).unwrap();
    assert_eq!(evs.len(), 2);
    assert!(hs.is_empty());
}

#[test]
fn test_split_input_errors() {
    let bad_events = obj(vec![("events", text("x")), ("heads", JsonValue::Array(vec![]))]);
    assert_eq!(split_input(&bad_events).unwrap_err(), InputError::EventsNotArray);
    let bad_heads = obj(vec![("events", JsonValue::Array(vec![])), ("heads", JsonValue::Null)]);
    assert_eq!(split_input(&bad_heads).unwrap_err(), InputError::HeadsNotArray);
    let bad_head = obj(vec![
        ("events", JsonValue::Array(vec![])),
        ("heads", JsonValue::Array(vec![text("$1"), JsonValue::PosInt(3)])),
    ]);
    assert_eq!(split_input(&bad_head).unwrap_err(), InputError::HeadNotString);
    assert_eq!(split_input(&JsonValue::Bool(true)).unwrap_err(), InputError::UnexpectedFormat);
    assert_eq!(InputError::EventsNotArray.message(), "'events' field must be a JSON array");
    assert_eq!(InputError::HeadsNotArray.message(), "'heads' field must be a JSON array");
    assert_eq!(InputError::HeadNotString.message(), "each 'head' must be a string");
    assert_eq!(InputError::UnexpectedFormat.message(), "Unexpected JSON format");
}

#[test]
fn test_trace_one_active_row_per_event() {
    let m = map_of(vec![
        ev("A", "t", "", "@x", &[], &[]),
        ev("B", "t", "", "@x", &[], &["A"]),
        ev("C", "t", "", "@x", &[], &["B"]),
    ]);
    let trace = TraceCompiler::new().compile_trace(&m, StateResVersion::V2);
    assert_eq!(count_active(&trace), 3);
    assert!(trace.len() >= 3);
    assert_eq!(trace[0].is_active, 1);
    assert_eq!(trace[0].node_id, 0);
}

#[test]
fn test_state_values_in_key_order() {
    let st = state_of(&[("b", "", "$2"), ("a", "z", "$3"), ("a", "", "$1")]);
    assert_eq!(st.values(), ids(&["$1", "$3", "$2"]));
}

#[test]
fn test_room_resolution_independent_of_arrival_order() {
    let mut events = small_room();
    events.push(ev("$topic", "m.room.topic", "", "@alice:example.com", &["$bob"], &["$create", "$pl", "$alice"]));
    let forward = resolve_room(&events, &vec![], StateResVersion::V2_1);
    let mut reversed = events.clone();
    reversed.reverse();
    let backward = resolve_room(&reversed, &vec![], StateResVersion::V2_1);
    assert_eq!(forward.state, backward.state);
    assert_eq!(forward.state.values(), backward.state.values());
}

#[test]
fn test_trace_length_within_routing_bound() {
    let mut evs = Vec::new();
    for i in 0..20 {
        let id = format!("$e{:02}", i);
        let auth: Vec<String> = if i == 0 { vec![] } else { vec![format!("$e{:02}", i - 1)] };
        evs.push(LeanEvent { event_id: id, event_type: s("t"), auth_events: auth, ..Default::default() });
    }
    let m = map_of(evs);
    let trace = TraceCompiler::new().compile_trace(&m, StateResVersion::V2);
    // 20 events need a hypercube of dimension 5: at most 1 + 19 * 5 rows.
    assert!(trace.len() >= 20);
    assert!(trace.len() <= 1 + 19 * 5);
    assert_eq!(count_active(&trace), 20);
    for w in trace.windows(2) {
        // Consecutive rows are neighbours on the hypercube.
        assert_eq!((w[0].node_id ^ w[1].node_id).count_ones(), 1);
    }
}
