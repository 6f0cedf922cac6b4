use ruma_lean::ctopology::Hypercube;

#[test]
fn test_hypercube_path() {
    let h = Hypercube::new(100);
    let u = 0b001; // 1
    let v = 0b110; // 6
    let path = h.get_path(u, v);
    // Path should flip bits at indices 0, 1, 2.
    assert_eq!(path.len(), 3);
    assert!(path.contains(&0));
    assert!(path.contains(&1));
    assert!(path.contains(&2));
}
