use core::cmp::Ordering;
use ruma_lean::{
    compute_v2_1_conflicted_subgraph_bounded, lean_kahn_sort, lean_kahn_sort_detailed,
    resolve_lean, check_signature, verify_signature, EventMap, KahnSortResult, LeanEvent, SignatureError,
    SortPriority, StateMap, StateResVersion,
};

fn s(x: &str) -> String {
    x.to_string()
}

fn member_event(
    id: &str,
    power_level: i64,
    origin_server_ts: u64,
    depth: u64,
    auth: &[&str],
) -> LeanEvent {
    LeanEvent {
        event_id: s(id),
        event_type: s("m.room.member"),
        state_key: s("@alice:example.com"),
        power_level,
        origin_server_ts,
        prev_events: auth.iter().map(|a| s(a)).collect(),
        auth_events: auth.iter().map(|a| s(a)).collect(),
        depth,
        ..Default::default()
    }
}

fn map_of(events: Vec<LeanEvent>) -> EventMap {
    let mut m = EventMap::new();
    for e in events {
        m.insert(e);
    }
    m
}

#[test]
fn test_sort_priority_v2_tie_break() {
    let e_base = LeanEvent {
        event_id: s("$1"),
        power_level: 100,
        origin_server_ts: 10,
        ..Default::default()
    };
    let e_worst_pl = LeanEvent {
        event_id: s("$2"),
        power_level: 50,
        origin_server_ts: 10,
        ..Default::default()
    };
    let p_base = SortPriority { event: &e_base, version: StateResVersion::V2 };
    let p_worst_pl = SortPriority { event: &e_worst_pl, version: StateResVersion::V2 };
    assert_eq!(p_base.cmp(&p_worst_pl), Ordering::Less);

    let e_later_ts = LeanEvent {
        event_id: s("$3"),
        power_level: 100,
        origin_server_ts: 20,
        ..Default::default()
    };
    let p_later_ts = SortPriority { event: &e_later_ts, version: StateResVersion::V2 };
    assert_eq!(p_base.cmp(&p_later_ts), Ordering::Less);

    let e_larger_id = LeanEvent {
        event_id: s("$2"),
        power_level: 100,
        origin_server_ts: 10,
        ..Default::default()
    };
    let p_larger_id = SortPriority { event: &e_larger_id, version: StateResVersion::V2 };
    assert_eq!(p_base.cmp(&p_larger_id), Ordering::Less);
}

#[test]
fn test_v1_resolution_happy_path() {
    let events = map_of(vec![
        LeanEvent { power_level: 0, ..member_event("A", 0, 100, 1, &[]) },
        member_event("B", 0, 50, 2, &["A"]),
    ]);
    let sorted = lean_kahn_sort(&events, StateResVersion::V1);
    assert_eq!(sorted, vec!["A", "B"]);
}

#[test]
fn test_v2_1_strict_resolution() {
    let mut unconflicted = StateMap::new();
    unconflicted.insert(s("m.room.member"), s("@alice:example.com"), s("A"));
    let conflicted = map_of(vec![member_event("A", 50, 100, 1, &[]), member_event("B", 100, 50, 1, &[])]);
    // In V2, A would win because it's unconflicted.
    // In V2.1, B should win because it has a higher power level (100 > 50).
    let resolved = resolve_lean(unconflicted, conflicted, StateResVersion::V2_1);
    assert_eq!(
        resolved.get(&s("m.room.member"), &s("@alice:example.com")),
        Some(&s("B"))
    );
}

#[test]
fn test_v1_tie_break_by_id() {
    let events = map_of(vec![member_event("B", 0, 100, 1, &[]), member_event("A", 0, 100, 1, &[])]);
    let sorted = lean_kahn_sort(&events, StateResVersion::V1);
    assert_eq!(sorted, vec!["A", "B"]);
}

#[test]
fn test_v2_resolution_happy_path() {
    let events = map_of(vec![member_event("A", 100, 100, 10, &[]), member_event("B", 50, 10, 1, &[])]);
    let sorted = lean_kahn_sort(&events, StateResVersion::V2);
    // Best (A) comes LAST.
    assert_eq!(sorted, vec!["B", "A"]);
}

#[test]
fn test_v2_deep_tie_break() {
    let events = map_of(vec![member_event("B", 100, 10, 1, &[]), member_event("A", 100, 10, 1, &[])]);
    let sorted = lean_kahn_sort(&events, StateResVersion::V2);
    // Best (A, smaller ID) comes LAST.
    assert_eq!(sorted, vec!["B", "A"]);
}

#[test]
fn test_v1_v2_v2_1_comparison_determinism() {
    let events = map_of(vec![member_event("A", 10, 10, 1, &[]), member_event("B", 100, 100, 10, &[])]);
    let sorted_v1 = lean_kahn_sort(&events, StateResVersion::V1);
    let sorted_v2 = lean_kahn_sort(&events, StateResVersion::V2);
    let sorted_v2_1 = lean_kahn_sort(&events, StateResVersion::V2_1);
    assert_eq!(sorted_v1, vec!["A", "B"]);
    assert_eq!(sorted_v2, vec!["A", "B"]);
    assert_eq!(sorted_v2_1, vec!["A", "B"]);
}

#[test]
fn test_unhappy_path_cycle_detection() {
    let events = map_of(vec![member_event("A", 100, 100, 1, &["B"]), member_event("B", 100, 100, 1, &["A"])]);
    let sorted = lean_kahn_sort(&events, StateResVersion::V2);
    assert!(sorted.is_empty());
}

#[test]
#[should_panic(expected = "Signature verification failed")]
fn test_signature_verification_failure() {
    let pk = [
        215, 90, 152, 1, 130, 177, 10, 183, 213, 75, 254, 211, 201, 100, 7, 58, 14, 225, 114,
        243, 218, 166, 35, 37, 175, 2, 26, 104, 247, 7, 81, 26,
    ];
    let sig = [0u8; 64];
    let msg = b"test";
    assert_eq!(check_signature(&pk, msg, &sig), Err(SignatureError::VerificationFailed));
    check_signature(&pk, msg, &sig).expect("Signature verification failed");
}

#[test]
fn test_trait_coverage() {
    let v = StateResVersion::V2;
    assert_eq!(v, StateResVersion::V2);
    let _ = format!("{:?}", v);
    let e = member_event("a", 100, 10, 1, &[]);
    let _ = e.clone();
    let _ = format!("{:?}", e);
}

#[test]
fn test_complex_dag_sort() {
    let events = map_of(vec![
        member_event("1", 100, 10, 1, &[]),
        member_event("2", 50, 20, 2, &["1"]),
        member_event("3", 50, 15, 2, &["1"]),
        member_event("4", 10, 30, 3, &["2", "3"]),
    ]);
    let sorted = lean_kahn_sort(&events, StateResVersion::V2);
    assert_eq!(sorted, vec!["1", "2", "3", "4"]);
}

#[test]
fn test_kahn_missing_parents() {
    let events = map_of(vec![member_event("A", 100, 10, 1, &["MISSING"])]);
    let sorted = lean_kahn_sort(&events, StateResVersion::V2);
    assert_eq!(sorted, vec!["A"]);
}

#[test]
fn test_resolve_lean_functionality() {
    let mut unconflicted = StateMap::new();
    unconflicted.insert(s("type"), s("key"), s("id"));
    let conflicted = EventMap::new();
    let resolved = resolve_lean(unconflicted.clone(), conflicted, StateResVersion::V2);
    assert_eq!(resolved, unconflicted);
}

#[test]
fn test_resolve_lean_v2_1_overlay() {
    let mut unconflicted = StateMap::new();
    unconflicted.insert(s("type1"), s("key1"), s("id1"));
    unconflicted.insert(s("type2"), s("key2"), s("id2"));
    let ev = |id: &str, t: &str, k: &str, pl: i64, ts: u64| LeanEvent {
        event_id: s(id),
        event_type: s(t),
        state_key: s(k),
        power_level: pl,
        origin_server_ts: ts,
        depth: 1,
        ..Default::default()
    };
    let conflicted = map_of(vec![
        ev("id1", "type1", "key1", 50, 500),
        ev("id2", "type2", "key2", 50, 500),
        ev("id2_new", "type2", "key2", 100, 1000),
    ]);
    let resolved = resolve_lean(unconflicted.clone(), conflicted, StateResVersion::V2_1);
    assert_eq!(resolved.get(&s("type1"), &s("key1")), Some(&s("id1")));
    assert_eq!(resolved.get(&s("type2"), &s("key2")), Some(&s("id2_new")));
}

fn run_batch_test(version: StateResVersion, rows: &[(&str, i64, u64, u64, &[&str])], expected: &[&str]) {
    let events = map_of(rows.iter().map(|r| member_event(r.0, r.1, r.2, r.3, r.4)).collect());
    let result = lean_kahn_sort(&events, version);
    assert_eq!(result, expected.iter().map(|x| s(x)).collect::<Vec<_>>());
}

#[test]
fn test_resolution_batch() {
    run_batch_test(
        StateResVersion::V2,
        &[("Alice", 100, 500, 1, &[]), ("Bob", 50, 100, 1, &[])],
        &["Bob", "Alice"],
    );
    run_batch_test(
        StateResVersion::V1,
        &[("Deep", 100, 100, 10, &[]), ("Shallow", 10, 100, 1, &[])],
        &["Shallow", "Deep"],
    );
}

#[test]
fn test_native_resolution_bootstrap_parity() {
    let e1 = LeanEvent { state_key: s("@user:example.com"), ..member_event("1", 100, 10, 1, &[]) };
    let e2 = LeanEvent { state_key: s("@user:example.com"), ..member_event("2", 0, 20, 2, &["1"]) };
    let events = map_of(vec![e1, e2]);
    let sorted = lean_kahn_sort(&events, StateResVersion::V2);
    let mut resolved_state = StateMap::new();
    for id in sorted {
        let ev = events.get(&id).unwrap();
        resolved_state.insert(ev.event_type.clone(), ev.state_key.clone(), ev.event_id.clone());
    }
    assert_eq!(
        resolved_state.get(&s("m.room.member"), &s("@user:example.com")),
        Some(&s("2"))
    );
}

#[test]
fn test_enum_coverage() {
    let v = StateResVersion::V2;
    let v2 = v;
    assert_eq!(v, v2);
    let debug_str = format!("{:?}", v);
    assert!(debug_str.contains("V2"));
}

#[test]
fn test_event_traits_coverage() {
    let e = member_event("a", 100, 10, 1, &[]);
    let e2 = e.clone();
    assert_eq!(e, e2);
    let debug_str = format!("{:?}", e);
    assert!(debug_str.contains("event_id"));
}

#[test]
fn test_sort_priority_traits() {
    let e = member_event("a", 100, 10, 1, &[]);
    let p = SortPriority { event: &e, version: StateResVersion::V2 };
    let p2 = p;
    assert_eq!(p, p2);
    let debug_str = format!("{:?}", p);
    assert!(debug_str.contains("version"));
}

#[test]
fn test_v1_equal_depth_tie_break() {
    let events = map_of(vec![member_event("B", 0, 10, 1, &[]), member_event("A", 0, 10, 1, &[])]);
    let sorted = lean_kahn_sort(&events, StateResVersion::V1);
    assert_eq!(sorted, vec!["A", "B"]);
}

#[test]
fn test_kahn_no_neighbors() {
    let events = map_of(vec![member_event("1", 100, 10, 1, &[])]);
    let sorted = lean_kahn_sort(&events, StateResVersion::V2);
    assert_eq!(sorted, vec!["1"]);
}

#[test]
fn test_v2_1_full_coverage() {
    let events = map_of(vec![member_event("A", 100, 10, 1, &[])]);
    let sorted = lean_kahn_sort(&events, StateResVersion::V2_1);
    assert_eq!(sorted, vec!["A"]);
}

#[test]
fn test_coverage_booster_all_branches() {
    let e_base = LeanEvent { depth: 50, ..member_event("m", 50, 50, 50, &[]) };
    let p_base = SortPriority { event: &e_base, version: StateResVersion::V2 };
    let e_high_power = LeanEvent { power_level: 100, ..e_base.clone() };
    let p_high_power = SortPriority { event: &e_high_power, version: StateResVersion::V2 };
    assert_eq!(p_base.cmp(&p_high_power), Ordering::Greater);
    let e_early_ts = LeanEvent { origin_server_ts: 10, ..e_base.clone() };
    let p_early_ts = SortPriority { event: &e_early_ts, version: StateResVersion::V2 };
    assert_eq!(p_base.cmp(&p_early_ts), Ordering::Greater);
    let e_early_id = LeanEvent { event_id: s("a"), ..e_base.clone() };
    let p_early_id = SortPriority { event: &e_early_id, version: StateResVersion::V2 };
    assert_eq!(p_base.cmp(&p_early_id), Ordering::Greater);
    let p_v1_base = SortPriority { event: &e_base, version: StateResVersion::V1 };
    let e_shallow = LeanEvent { depth: 1, ..e_base.clone() };
    let p_shallow = SortPriority { event: &e_shallow, version: StateResVersion::V1 };
    assert_eq!(p_v1_base.cmp(&p_shallow), Ordering::Less);
    let p_v1_early_id = SortPriority { event: &e_early_id, version: StateResVersion::V1 };
    assert_eq!(p_v1_base.cmp(&p_v1_early_id), Ordering::Less);
    assert_eq!(p_v1_base.cmp(&p_v1_base), Ordering::Equal);
}

#[test]
fn test_cycle_detection_detailed() {
    let events = map_of(vec![
        LeanEvent { auth_events: vec![s("B")], ..member_event("A", 0, 0, 0, &[]) },
        LeanEvent { auth_events: vec![s("A")], ..member_event("B", 0, 0, 0, &[]) },
    ]);
    let result = lean_kahn_sort_detailed(&events, StateResVersion::V2);
    match result {
        KahnSortResult::CycleDetected { sorted, stuck } => {
            assert!(sorted.is_empty());
            assert_eq!(stuck.len(), 2);
            let mut stuck_sorted = stuck.clone();
            stuck_sorted.sort();
            assert_eq!(stuck_sorted, vec!["A", "B"]);
        }
        KahnSortResult::Sorted(_) => panic!("Expected cycle detection"),
    }
}

#[test]
fn test_cycle_detection_partial_sort() {
    // C -> A -> B -> A (cycle), but C is reachable
    let events = map_of(vec![
        member_event("C", 0, 0, 0, &[]),
        LeanEvent { auth_events: vec![s("B"), s("C")], ..member_event("A", 0, 0, 0, &[]) },
        LeanEvent { auth_events: vec![s("A")], ..member_event("B", 0, 0, 0, &[]) },
    ]);
    let result = lean_kahn_sort_detailed(&events, StateResVersion::V2);
    match result {
        KahnSortResult::CycleDetected { sorted, stuck } => {
            assert_eq!(sorted, vec!["C"]);
            assert_eq!(stuck.len(), 2);
        }
        KahnSortResult::Sorted(_) => panic!("Expected cycle detection"),
    }
}

#[test]
fn test_kahn_sort_result_api() {
    let ok = KahnSortResult::Sorted(vec![s("A")]);
    assert!(ok.is_ok());
    assert_eq!(ok.into_sorted(), vec!["A"]);

    let cycle = KahnSortResult::CycleDetected { sorted: vec![s("C")], stuck: vec![s("A"), s("B")] };
    assert!(!cycle.is_ok());
    assert!(cycle.into_sorted().is_empty());
}

#[test]
fn test_deep_chain_stack_safety() {
    // 1000-event deep chain: ev_0 <- ev_1 <- ev_2 <- ... <- ev_999
    let mut events = EventMap::new();
    for i in 0..1000u32 {
        let id = format!("ev_{}", i);
        let auth = if i > 0 { vec![format!("ev_{}", i - 1)] } else { vec![] };
        events.insert(LeanEvent {
            event_id: id,
            event_type: s("m.room.member"),
            state_key: s("@alice:example.com"),
            power_level: 100,
            origin_server_ts: i as u64,
            auth_events: auth,
            depth: i as u64,
            ..Default::default()
        });
    }
    let sorted = lean_kahn_sort(&events, StateResVersion::V2);
    assert_eq!(sorted.len(), 1000);
    assert_eq!(sorted[0], "ev_0");
    assert_eq!(sorted[999], "ev_999");
}

#[test]
fn test_subgraph_bounded_depth() {
    // Chain: A <- B <- C <- D
    let graph = map_of(vec![
        LeanEvent { auth_events: vec![], ..member_event("A", 0, 0, 0, &[]) },
        LeanEvent { auth_events: vec![s("A")], ..member_event("B", 0, 0, 0, &[]) },
        LeanEvent { auth_events: vec![s("B")], ..member_event("C", 0, 0, 0, &[]) },
        LeanEvent { auth_events: vec![s("C")], ..member_event("D", 0, 0, 0, &[]) },
    ]);
    let full = compute_v2_1_conflicted_subgraph_bounded(&graph, &[s("A"), s("D")], None);
    assert!(full.subgraph.contains_key("A"));
    assert!(full.subgraph.contains_key("D"));

    let bounded = compute_v2_1_conflicted_subgraph_bounded(&graph, &[s("A"), s("D")], Some(1));
    assert!(bounded.subgraph.contains_key("D"));
    assert!(bounded.subgraph.contains_key("A"));
    // B is NOT reachable within depth 1 from D (it's at depth 2)
    assert!(!bounded.subgraph.contains_key("B"));
}

#[test]
fn test_subgraph_missing_auth_detection() {
    let graph = map_of(vec![LeanEvent {
        auth_events: vec![s("MISSING_1"), s("MISSING_2")],
        ..member_event("X", 0, 0, 0, &[])
    }]);
    let result = compute_v2_1_conflicted_subgraph_bounded(&graph, &[s("X")], None);
    let mut missing = result.missing_auth_events.clone();
    missing.sort();
    assert_eq!(missing, vec!["MISSING_1", "MISSING_2"]);
}

#[test]
fn test_partial_ord_implementations() {
    let e1 = member_event("a", 100, 10, 1, &[]);
    let e2 = member_event("b", 100, 10, 1, &[]);
    assert!(e1.partial_cmp(&e2).is_some());

    let p1 = SortPriority { event: &e1, version: StateResVersion::V2 };
    let p2 = SortPriority { event: &e2, version: StateResVersion::V2 };
    assert!(p1.partial_cmp(&p2).is_some());
}

#[test]
fn test_total_order_properties() {
    let e1 = member_event("a", 100, 10, 1, &[]);
    let e2 = member_event("b", 100, 10, 1, &[]);
    let e3 = member_event("c", 50, 10, 1, &[]);
    assert_eq!(e1.cmp(&e1), Ordering::Equal);
    assert!(e1 <= e1);
    assert!(e1 <= e2 || e2 <= e1);
    if e1 <= e2 && e2 <= e3 {
        assert!(e1 <= e3);
    }
    let e1_copy = e1.clone();
    if e1 <= e1_copy && e1_copy <= e1 {
        assert_eq!(e1, e1_copy);
    }
}

#[test]
fn test_event_order_by_id() {
    let a = member_event("$a", 0, 0, 0, &[]);
    let b = member_event("$b", 100, 0, 0, &[]);
    assert_eq!(a.cmp(&b), Ordering::Less);
    assert_eq!(b.cmp(&a), Ordering::Greater);
    assert!(a < b);
    assert_eq!(a.partial_cmp(&b), Some(Ordering::Less));
}
