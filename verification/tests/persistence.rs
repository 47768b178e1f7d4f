use wenv::codec::from_text;
use wenv::codec::to_text;
use wenv::memory::Memory;

fn s(x: &str) -> String {
    String::from(x)
}

fn files(xs: &[&str]) -> Vec<String> {
    xs.iter().map(|x| String::from(*x)).collect()
}

#[test]
fn rendered_document_has_the_expected_shape() {
    let mut m = Memory::new();
    m.record_for_key(&s("/proj"), &files(&["a.env"]), 10);
    assert_eq!(to_text(&m), "[entries]\n\"/proj\" = [\"a.env\"]\n");
}

#[test]
fn rendered_document_escapes_quotes_and_backslashes() {
    let mut m = Memory::new();
    m.record_for_key(&s("C:\\proj"), &files(&["a\"b.env"]), 10);
    assert_eq!(to_text(&m), "[entries]\n\"C:\\\\proj\" = [\"a\\\"b.env\"]\n");
}

#[test]
fn round_trip_preserves_every_entry() {
    let mut m = Memory::new();
    m.record_for_key(&s("/proj"), &files(&["a.env", "b.env"]), 10);
    m.record_for_key(&s("/other dir"), &files(&[".env"]), 10);
    m.record_for_key(&s("C:\\wei\"rd"), &files(&["x\\y", "q\"z"]), 10);
    let loaded = from_text(to_text(&m).as_str());
    assert_eq!(loaded.entry_count(), 3);
    assert_eq!(loaded.get_for_key(&s("/proj")), Some(&files(&["a.env", "b.env"])));
    assert_eq!(loaded.get_for_key(&s("/other dir")), Some(&files(&[".env"])));
    assert_eq!(loaded.get_for_key(&s("C:\\wei\"rd")), Some(&files(&["x\\y", "q\"z"])));
}

#[test]
fn round_trip_of_empty_store() {
    let m = Memory::new();
    let loaded = from_text(to_text(&m).as_str());
    assert_eq!(loaded.entry_count(), 0);
}

#[test]
fn round_trip_of_entry_with_no_files() {
    let mut m = Memory::new();
    m.record_for_key(&s("/proj"), &files(&[]), 10);
    assert_eq!(to_text(&m), "[entries]\n\"/proj\" = []\n");
    let loaded = from_text(to_text(&m).as_str());
    assert_eq!(loaded.get_for_key(&s("/proj")), Some(&files(&[])));
}

#[test]
fn empty_document_yields_empty_store() {
    assert_eq!(from_text("").entry_count(), 0);
}

#[test]
fn garbage_document_yields_empty_store() {
    assert_eq!(from_text("complete ( nonsense %% here").entry_count(), 0);
}

#[test]
fn malformed_entry_line_yields_empty_store() {
    assert_eq!(from_text("[entries]\n\"/proj\" = [\"broken\n").entry_count(), 0);
    assert_eq!(from_text("\"/proj\" = [oops]\n").entry_count(), 0);
}

#[test]
fn duplicate_directory_keys_yield_empty_store() {
    let doc = "[entries]\n\"/p\" = [\"a\"]\n\"/p\" = [\"b\"]\n";
    assert_eq!(from_text(doc).entry_count(), 0);
}

#[test]
fn duplicate_path_within_an_entry_yields_empty_store() {
    let doc = "[entries]\n\"/p\" = [\"a\", \"a\"]\n";
    assert_eq!(from_text(doc).entry_count(), 0);
}

#[test]
fn unknown_lines_are_ignored() {
    let doc = "[entries]\nversion = 3\n\n\"/p\" = [\"a\"]\n[future-section]\nstuff\n";
    let loaded = from_text(doc);
    assert_eq!(loaded.entry_count(), 1);
    assert_eq!(loaded.get_for_key(&s("/p")), Some(&files(&["a"])));
}

#[test]
fn document_without_trailing_line_break_parses() {
    let loaded = from_text("\"/p\" = [\"a\"]");
    assert_eq!(loaded.get_for_key(&s("/p")), Some(&files(&["a"])));
}
