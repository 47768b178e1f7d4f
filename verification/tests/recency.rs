use wenv::memory::Memory;

fn s(x: &str) -> String {
    String::from(x)
}

fn files(xs: &[&str]) -> Vec<String> {
    xs.iter().map(|x| String::from(*x)).collect()
}

#[test]
fn recency_ordering_promotes_new_entry_to_front() {
    let mut m = Memory::new();
    let dir = s("/proj");
    m.record_for_key(&dir, &files(&["a", "b"]), 10);
    m.record_for_key(&dir, &files(&["c"]), 10);
    assert_eq!(m.get_for_key(&dir), Some(&files(&["c", "a", "b"])));
}

#[test]
fn recording_two_files_keeps_their_given_order() {
    let mut m = Memory::new();
    let dir = s("/proj");
    m.record_for_key(&dir, &files(&["a", "b"]), 10);
    assert_eq!(m.get_for_key(&dir), Some(&files(&["a", "b"])));
}

#[test]
fn deduplication_same_file_twice_yields_one_entry() {
    let mut m = Memory::new();
    let dir = s("/proj");
    m.record_for_key(&dir, &files(&["a"]), 10);
    m.record_for_key(&dir, &files(&["a"]), 10);
    assert_eq!(m.get_for_key(&dir), Some(&files(&["a"])));
}

#[test]
fn reusing_a_known_file_moves_it_to_front_without_duplicate() {
    let mut m = Memory::new();
    let dir = s("/proj");
    m.record_for_key(&dir, &files(&["a", "b", "c"]), 10);
    m.record_for_key(&dir, &files(&["b"]), 10);
    assert_eq!(m.get_for_key(&dir), Some(&files(&["b", "a", "c"])));
}

#[test]
fn bounded_length_truncates_to_max_entries() {
    let mut m = Memory::new();
    let dir = s("/proj");
    m.record_for_key(&dir, &files(&["a"]), 2);
    m.record_for_key(&dir, &files(&["b"]), 2);
    m.record_for_key(&dir, &files(&["c"]), 2);
    let got = m.get_for_key(&dir).unwrap();
    assert_eq!(got.len(), 2);
    assert_eq!(got, &files(&["c", "b"]));
}

#[test]
fn different_keys_have_independent_entries() {
    let mut m = Memory::new();
    m.record_for_key(&s("/one"), &files(&["a"]), 10);
    m.record_for_key(&s("/two"), &files(&["b"]), 10);
    assert_eq!(m.get_for_key(&s("/one")), Some(&files(&["a"])));
    assert_eq!(m.get_for_key(&s("/two")), Some(&files(&["b"])));
    assert_eq!(m.get_for_key(&s("/three")), None);
}

#[test]
fn canonicalization_equivalence_same_directory_spelled_differently() {
    // "." and "./." canonicalize to the same directory, so they share one
    // entry in the store.
    let mut m = Memory::new();
    m.record(&s("."), &files(&["a.env"]), 10);
    assert_eq!(m.get(&s("./.")), Some(&files(&["a.env"])));
}

#[test]
fn get_on_uncanonicalizable_directory_is_a_miss() {
    let m = Memory::new();
    assert_eq!(m.get(&s("/no/such/directory/anywhere-xyz")), None);
}

#[test]
fn record_on_uncanonicalizable_directory_still_records() {
    let mut m = Memory::new();
    let raw = s("/no/such/directory/anywhere-xyz");
    m.record(&raw, &files(&["a.env"]), 10);
    // Canonicalization fails, so the raw path serves as the key.
    assert_eq!(m.get_for_key(&raw), Some(&files(&["a.env"])));
}

#[test]
fn store_invariant_holds_after_records() {
    let mut m = Memory::new();
    m.record_for_key(&s("/one"), &files(&["a", "b", "a"]), 10);
    m.record_for_key(&s("/one"), &files(&["b"]), 10);
    assert!(m.check_wf());
    assert_eq!(m.get_for_key(&s("/one")), Some(&files(&["b", "a"])));
}
