use ruma_lean::auth::{check_auth, check_auth_chain, AuthError};
use ruma_lean::ctopology::Hypercube;
use ruma_lean::trace_compiler::hash_event_id;
use ruma_lean::wasm_client::{has_duplicate_g2_elements, verify_matrix_join, verify_matrix_join_with_key};
use ruma_lean::{
    compute_v2_1_conflicted_subgraph, lean_kahn_sort, resolve_lean, check_signature, verify_signature, EventMap,
    IdSet, JsonValue, LeanEvent, RoomState, SignatureError, StateMap, StateResVersion,
};

fn s(x: &str) -> String {
    x.to_string()
}

fn obj(members: Vec<(&str, JsonValue)>) -> JsonValue {
    JsonValue::Object(members.into_iter().map(|(k, v)| (s(k), v)).collect())
}

fn event(id: &str, power_level: i64, ts: u64, auth: &[&str]) -> LeanEvent {
    LeanEvent {
        event_id: s(id),
        event_type: s("m.room.member"),
        state_key: s("@alice:example.com"),
        power_level,
        origin_server_ts: ts,
        auth_events: auth.iter().map(|a| s(a)).collect(),
        ..Default::default()
    }
}

fn map_of(events: Vec<LeanEvent>) -> EventMap {
    let mut m = EventMap::new();
    for e in events {
        m.insert(e);
    }
    m
}

fn dag() -> Vec<LeanEvent> {
    vec![
        event("A", 100, 1, &[]),
        event("B", 50, 2, &["A"]),
        event("C", 10, 3, &["A"]),
        event("D", 10, 4, &["B", "C"]),
        event("E", 0, 5, &["A"]),
    ]
}

#[test]
fn test_sort_independent_of_arrival_order() {
    let forward = map_of(dag());
    let mut reversed_events = dag();
    reversed_events.reverse();
    let backward = map_of(reversed_events);
    for v in [StateResVersion::V1, StateResVersion::V2, StateResVersion::V2_1] {
        assert_eq!(lean_kahn_sort(&forward, v), lean_kahn_sort(&backward, v));
    }
}

#[test]
fn test_v2_and_v2_1_sort_alike() {
    let m = map_of(dag());
    assert_eq!(lean_kahn_sort(&m, StateResVersion::V2), lean_kahn_sort(&m, StateResVersion::V2_1));
}

#[test]
fn test_sort_puts_auth_events_first() {
    let m = map_of(dag());
    let sorted = lean_kahn_sort(&m, StateResVersion::V2);
    assert_eq!(sorted.len(), 5);
    // The lower power level goes first among ready events.
    assert_eq!(sorted, vec!["A", "E", "C", "B", "D"]);
    for (i, id) in sorted.iter().enumerate() {
        for a in &m.get(id).unwrap().auth_events {
            let j = sorted.iter().position(|x| x == a).unwrap();
            assert!(j < i);
        }
    }
}

#[test]
fn test_last_sorted_event_wins_its_slot() {
    let m = map_of(vec![event("X", 100, 1, &[]), event("Y", 0, 1, &[])]);
    // Y (level 0) is sorted before X (level 100), so X is applied last.
    let r = resolve_lean(StateMap::new(), m, StateResVersion::V2);
    assert_eq!(r.get(&s("m.room.member"), &s("@alice:example.com")), Some(&s("X")));
}

#[test]
fn test_auth_rules_as_stated() {
    let state = RoomState::new();
    let create = LeanEvent {
        event_id: s("$c"),
        event_type: s("m.room.create"),
        sender: s("@a:x"),
        ..Default::default()
    };
    assert!(check_auth(&create, &state).is_ok());
    let msg = LeanEvent {
        event_id: s("$m"),
        event_type: s("m.room.message"),
        sender: s("@stranger:x"),
        ..Default::default()
    };
    assert_eq!(
        check_auth(&msg, &state),
        Err(AuthError::NotMember { sender: s("@stranger:x") })
    );
    let mut banned_state = RoomState::new();
    banned_state.insert(
        s("m.room.member"),
        s("@stranger:x"),
        LeanEvent {
            event_id: s("$ban"),
            event_type: s("m.room.member"),
            state_key: s("@stranger:x"),
            content: obj(vec![("membership", JsonValue::Str(s("ban")))]),
            ..Default::default()
        },
    );
    assert_eq!(
        check_auth(&msg, &banned_state),
        Err(AuthError::BannedUser { sender: s("@stranger:x") })
    );
}

#[test]
fn test_auth_chain_partitions_the_events() {
    let create = LeanEvent {
        event_id: s("$c"),
        event_type: s("m.room.create"),
        sender: s("@a:x"),
        ..Default::default()
    };
    let stray = LeanEvent {
        event_id: s("$s"),
        event_type: s("m.room.message"),
        sender: s("@b:x"),
        ..Default::default()
    };
    let (accepted, rejected) = check_auth_chain(&[create, stray], &RoomState::new());
    assert_eq!(accepted, vec![s("$c")]);
    assert_eq!(rejected.len(), 1);
    assert_eq!(rejected[0].0, "$s");
    assert_eq!(rejected[0].1, AuthError::NotMember { sender: s("@b:x") });
}

#[test]
fn test_auth_error_messages() {
    assert_eq!(
        AuthError::NotMember { sender: s("@b:x") }.to_string(),
        "sender @b:x is not a joined member"
    );
    assert_eq!(
        AuthError::InsufficientPowerLevel { required: 50, actual: -3, event_type: s("m.room.topic") }
            .to_string(),
        "power level -3 < 50 required for m.room.topic"
    );
    assert_eq!(AuthError::BannedUser { sender: s("@b:x") }.to_string(), "sender @b:x is banned");
    assert_eq!(
        AuthError::InvalidStateKey { expected: s("@a"), actual: s("@b") }.to_string(),
        "invalid state_key: expected @a, got @b"
    );
    assert_eq!(AuthError::CreateWithPrevEvents.to_string(), "m.room.create must not have prev_events");
    assert_eq!(AuthError::MissingAuthEvent(s("$x")).to_string(), "missing auth event: $x");
}

#[test]
fn test_hypercube_sizes() {
    for (n, d) in [(0usize, 1usize), (1, 1), (2, 1), (3, 2), (100, 7), (1024, 10), (1025, 11)] {
        let h = Hypercube::new(n);
        assert_eq!(h.dimension, d);
        assert_eq!(h.num_nodes, 1usize << d);
    }
    let dflt = Hypercube::default();
    assert_eq!((dflt.dimension, dflt.num_nodes), (10, 1024));
}

#[test]
fn test_path_walk_reaches_target() {
    let h = Hypercube::new(1000);
    let (u, v) = (0b1011_0010usize, 0b0110_0111usize);
    let path = h.get_path(u, v);
    assert_eq!(path, vec![0, 2, 4, 6, 7]);
    let mut node = u;
    for d in &path {
        node = h.step(node, *d);
    }
    assert_eq!(node, v);
    assert!(h.get_path(v, v).is_empty());
    assert_eq!(h.step(5, 1), 7);
}

#[test]
fn test_hash_event_id_distinguishes_ids() {
    let a = hash_event_id("$a");
    let b = hash_event_id("$b");
    assert_ne!(a, b);
    assert_eq!(a, hash_event_id("$a"));
}

#[test]
fn test_conflicted_events_stay_in_subgraph() {
    let m = map_of(dag());
    let sub = compute_v2_1_conflicted_subgraph(&m, &[s("B"), s("C")]);
    assert!(sub.contains_key("B") && sub.contains_key("C"));
}

#[test]
fn test_signature_invalid_key_and_valid_signature() {
    // A key encoding that is not a curve point.
    let bad_key = (0u8..=255)
        .map(|b| {
            let mut k = [0u8; 32];
            k[0] = b;
            k[1] = 1;
            k
        })
        .find(|k| ed25519_consensus::VerificationKey::try_from(*k).is_err())
        .unwrap();
    assert_eq!(
        check_signature(&bad_key, b"m", &[0u8; 64]),
        Err(SignatureError::InvalidPublicKey)
    );
    let sk = ed25519_consensus::SigningKey::from([7u8; 32]);
    let vk: [u8; 32] = sk.verification_key().to_bytes();
    let sig: [u8; 64] = sk.sign(b"hello").to_bytes();
    assert_eq!(check_signature(&vk, b"hello", &sig), Ok(()));
    verify_signature(&vk, b"hello", &sig);
    assert_eq!(check_signature(&vk, b"other", &sig), Err(SignatureError::VerificationFailed));
}

#[test]
fn test_duplicate_g2_detection() {
    let mut vk = vec![0u8; 300];
    for (i, b) in vk.iter_mut().enumerate() {
        *b = (i % 251) as u8;
    }
    assert!(!has_duplicate_g2_elements(&vk));
    let mut dup = vk.clone();
    for i in 0..128 {
        dup[150 + i] = dup[i];
    }
    assert!(has_duplicate_g2_elements(&dup));
    assert!(!has_duplicate_g2_elements(&vk[..200]));
}

#[test]
fn test_join_proof_refusals() {
    assert!(!verify_matrix_join(&[], &[], "0x00"));
    assert!(!verify_matrix_join(&[1, 2, 3], &[], "0x00"));
    let mut dup = vec![9u8; 256];
    dup[0] = 1;
    dup[128] = 1;
    assert!(!verify_matrix_join_with_key(&[1, 2, 3], &[], "0x00", &dup));
}

#[test]
fn test_id_set_and_state_map_basics() {
    let mut set = IdSet::new();
    assert!(set.insert(s("$b")));
    assert!(set.insert(s("$a")));
    assert!(!set.insert(s("$b")));
    assert_eq!(set.len(), 2);
    assert!(set.contains(&s("$a")));
    assert_eq!(set.into_vec(), vec![s("$a"), s("$b")]);

    let mut st: StateMap<String> = StateMap::new();
    st.insert(s("t"), s(""), s("$1"));
    st.insert(s("t"), s(""), s("$2"));
    st.insert(s("a"), s("k"), s("$3"));
    assert_eq!(st.len(), 2);
    assert_eq!(st.get(&s("t"), &s("")), Some(&s("$2")));
    assert!(!st.contains_key(&s("t"), &s("k")));
    assert_eq!(st.clone(), st);
}

#[test]
fn test_unbounded_subgraph_lies_between_conflicted_events() {
    let m = map_of(dag());
    let sub = compute_v2_1_conflicted_subgraph(&m, &[s("A"), s("D")]);
    // A..D lie on auth paths between A and D; E only descends from A.
    for id in ["A", "B", "C", "D"] {
        assert!(sub.contains_key(id));
    }
    assert!(!sub.contains_key("E"));
    assert_eq!(sub.len(), 4);
}

#[test]
fn test_bounded_subgraph_reaches_within_depth() {
    let g = map_of(vec![
        LeanEvent { event_id: s("R"), ..Default::default() },
        LeanEvent { event_id: s("S"), auth_events: vec![s("R")], ..Default::default() },
        LeanEvent { event_id: s("Q"), auth_events: vec![s("S")], ..Default::default() },
        LeanEvent { event_id: s("P"), auth_events: vec![s("Q")], ..Default::default() },
        LeanEvent { event_id: s("X"), auth_events: vec![s("Q")], ..Default::default() },
        LeanEvent { event_id: s("Y"), auth_events: vec![s("P")], ..Default::default() },
    ]);
    let conflicted = [s("R"), s("X"), s("Y")];
    let r = ruma_lean::compute_v2_1_conflicted_subgraph_bounded(&g, &conflicted, Some(2));
    for id in ["P", "Q", "R", "S", "X", "Y"] {
        assert!(r.subgraph.contains_key(id));
    }
    assert_eq!(r.subgraph.len(), 6);
    // With one step, S (two steps back from X and three from Y) is not reached.
    let r1 = ruma_lean::compute_v2_1_conflicted_subgraph_bounded(&g, &conflicted, Some(1));
    assert!(!r1.subgraph.contains_key("S"));
    assert!(r1.subgraph.len() <= r.subgraph.len());
}

#[test]
fn test_bound_only_shrinks_missing() {
    let g = map_of(vec![
        LeanEvent { event_id: s("A"), auth_events: vec![s("B"), s("GONE1")], ..Default::default() },
        LeanEvent { event_id: s("B"), auth_events: vec![s("GONE2")], ..Default::default() },
    ]);
    let bounded = ruma_lean::compute_v2_1_conflicted_subgraph_bounded(&g, &[s("A")], Some(0));
    let full = ruma_lean::compute_v2_1_conflicted_subgraph_bounded(&g, &[s("A")], None);
    assert_eq!(bounded.missing_auth_events, vec![s("GONE1")]);
    assert_eq!(full.missing_auth_events, vec![s("GONE1"), s("GONE2")]);
}

#[test]
fn test_stuck_events_are_those_depending_on_a_cycle() {
    let m = map_of(vec![
        event("A", 0, 1, &["B"]),
        event("B", 0, 1, &["A"]),
        event("C", 0, 1, &["A"]),
        event("D", 0, 1, &[]),
        event("E", 0, 1, &["D", "MISSING"]),
    ]);
    match ruma_lean::lean_kahn_sort_detailed(&m, StateResVersion::V2) {
        ruma_lean::KahnSortResult::CycleDetected { sorted, mut stuck } => {
            stuck.sort();
            assert_eq!(stuck, vec![s("A"), s("B"), s("C")]);
            assert_eq!(sorted, vec![s("D"), s("E")]);
        }
        _ => panic!("a cycle must be detected"),
    }
    let acyclic = map_of(vec![event("D", 0, 1, &[]), event("E", 0, 1, &["D"])]);
    assert!(ruma_lean::lean_kahn_sort_detailed(&acyclic, StateResVersion::V2).is_ok());
}

#[test]
fn test_path_length_is_hamming_distance() {
    let h = Hypercube::new(1 << 12);
    for (u, v) in [(0usize, 0usize), (5, 10), (4095, 0), (1234, 3210)] {
        let path = h.get_path(u, v);
        assert_eq!(path.len() as u32, (u ^ v).count_ones());
        assert!(path.windows(2).all(|w| w[0] < w[1]));
        let end = path.iter().fold(u, |x, &i| h.step(x, i));
        assert_eq!(end, v);
    }
}

#[test]
fn test_signature_result_follows_verification() {
    let sk = ed25519_consensus::SigningKey::from([3u8; 32]);
    let vk: [u8; 32] = sk.verification_key().to_bytes();
    let sig: [u8; 64] = sk.sign(b"event").to_bytes();
    assert_eq!(check_signature(&vk, b"event", &sig), Ok(()));
    let mut bad = sig;
    bad[0] ^= 1;
    assert_eq!(check_signature(&vk, b"event", &bad), Err(SignatureError::VerificationFailed));
}

#[test]
fn test_short_proof_with_unsliceable_hash_is_refused() {
    // The key hash is not sliced for a proof too short to be read.
    assert!(!verify_matrix_join(&[1u8; 10], &[], "\u{e9}x"));
}
