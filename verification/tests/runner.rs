use wenv::run::FAILURE_CODE;
use wenv::run::exit_code_for;
use wenv::run::resolve_files;

fn files(xs: &[&str]) -> Vec<String> {
    xs.iter().map(|x| String::from(*x)).collect()
}

#[test]
fn child_exit_code_is_mirrored() {
    assert_eq!(exit_code_for(Some(0)), 0);
    assert_eq!(exit_code_for(Some(3)), 3);
    assert_eq!(exit_code_for(Some(255)), 255);
}

#[test]
fn out_of_range_exit_codes_are_truncated_to_a_byte() {
    assert_eq!(exit_code_for(Some(256)), 0);
    assert_eq!(exit_code_for(Some(257)), 1);
    assert_eq!(exit_code_for(Some(-1)), 255);
}

#[test]
fn a_signalled_child_maps_to_the_failure_code() {
    assert_eq!(exit_code_for(None), 1);
    assert_eq!(FAILURE_CODE, 1);
}

#[test]
fn explicitly_given_files_win_over_memory() {
    let got = resolve_files(files(&["a.env"]), Some(files(&["old.env"])));
    assert_eq!(got, Some(files(&["a.env"])));
}

#[test]
fn without_given_files_the_remembered_ones_are_used() {
    let got = resolve_files(files(&[]), Some(files(&["old.env"])));
    assert_eq!(got, Some(files(&["old.env"])));
}

#[test]
fn nothing_given_and_nothing_remembered_resolves_to_nothing() {
    assert_eq!(resolve_files(files(&[]), None), None);
}
