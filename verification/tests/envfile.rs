use wenv::env::EnvVars;
use wenv::env::env_vars_from_contents;
use wenv::env::filter_existing;

fn s(x: &str) -> String {
    String::from(x)
}

fn files(xs: &[&str]) -> Vec<String> {
    xs.iter().map(|x| String::from(*x)).collect()
}

#[test]
fn plain_lines_define_variables() {
    let mut v = EnvVars::new();
    v.apply_content("A=1\nB=two\n");
    assert_eq!(v.get(&s("A")), Some(&s("1")));
    assert_eq!(v.get(&s("B")), Some(&s("two")));
    assert_eq!(v.var_count(), 2);
}

#[test]
fn comments_and_blank_lines_are_skipped() {
    let mut v = EnvVars::new();
    v.apply_content("# comment\n\n   \nA=1\n  # indented comment\n");
    assert_eq!(v.var_count(), 1);
    assert_eq!(v.get(&s("A")), Some(&s("1")));
}

#[test]
fn keys_and_values_are_trimmed() {
    let mut v = EnvVars::new();
    v.apply_content("  SPACED  =  padded value  \n");
    assert_eq!(v.get(&s("SPACED")), Some(&s("padded value")));
}

#[test]
fn surrounding_quotes_are_stripped() {
    let mut v = EnvVars::new();
    v.apply_content("A=\"hello world\"\nB='single'\nC=\"\"doubled\"\"\n");
    assert_eq!(v.get(&s("A")), Some(&s("hello world")));
    assert_eq!(v.get(&s("B")), Some(&s("single")));
    assert_eq!(v.get(&s("C")), Some(&s("doubled")));
}

#[test]
fn value_may_contain_further_equals_signs() {
    let mut v = EnvVars::new();
    v.apply_content("URL=http://h/?a=1&b=2\n");
    assert_eq!(v.get(&s("URL")), Some(&s("http://h/?a=1&b=2")));
}

#[test]
fn later_line_overwrites_earlier_value() {
    let mut v = EnvVars::new();
    v.apply_content("A=1\nA=2\n");
    assert_eq!(v.var_count(), 1);
    assert_eq!(v.get(&s("A")), Some(&s("2")));
}

#[test]
fn line_without_equals_is_skipped() {
    let mut v = EnvVars::new();
    v.apply_content("no equals here\nA=1\n");
    assert_eq!(v.var_count(), 1);
    assert_eq!(v.get(&s("A")), Some(&s("1")));
}

#[test]
fn last_line_without_line_break_still_counts() {
    let mut v = EnvVars::new();
    v.apply_content("A=1");
    assert_eq!(v.get(&s("A")), Some(&s("1")));
}

#[test]
fn windows_line_ends_are_handled() {
    let mut v = EnvVars::new();
    v.apply_content("A=1\r\nB=2\r\n");
    assert_eq!(v.get(&s("A")), Some(&s("1")));
    assert_eq!(v.get(&s("B")), Some(&s("2")));
}

#[test]
fn later_file_overwrites_earlier_file() {
    let v = env_vars_from_contents(&files(&["A=1\nB=1\n", "A=2\nC=3\n"]));
    assert_eq!(v.get(&s("A")), Some(&s("2")));
    assert_eq!(v.get(&s("B")), Some(&s("1")));
    assert_eq!(v.get(&s("C")), Some(&s("3")));
}

#[test]
fn filter_existing_keeps_only_paths_that_exist() {
    let got = filter_existing(&files(&[".", "/definitely/not/here-xyz"]));
    assert_eq!(got, files(&["."]));
}

#[test]
fn filter_existing_keeps_order() {
    let got = filter_existing(&files(&[".", "/definitely/not/here-xyz", "/"]));
    assert_eq!(got, files(&[".", "/"]));
}
