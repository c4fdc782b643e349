use indent_inputs::opts::{split_stdin, Input, Opts};

fn files(opts: &Opts) -> Vec<String> {
    let mut v: Vec<String> = opts
        .inputs()
        .iter()
        .filter_map(|i| i.path().cloned())
        .collect();
    v.sort();
    v
}

fn has_stdin(opts: &Opts) -> bool {
    opts.inputs().iter().any(|i| matches!(i, Input::Stdin))
}

#[test]
fn new_options_are_empty() {
    let o = Opts::new();
    assert!(o.inputs().is_empty());
    assert_eq!(o.from_line(), None);
    assert_eq!(o.upto_line(), None);
    assert!(!o.is_check());
}

#[test]
fn builders_set_fields() {
    let o = Opts::new().from(3).upto(9).check();
    assert_eq!(o.from_line(), Some(3));
    assert_eq!(o.upto_line(), Some(9));
    assert!(o.is_check());
}

#[test]
fn same_file_is_held_once() {
    let o = Opts::new()
        .add_file("/w/a.v".to_string())
        .add_file("/w/b.v".to_string())
        .add_file("/w/a.v".to_string());
    assert_eq!(o.inputs().len(), 2);
    assert_eq!(files(&o), vec!["/w/a.v".to_string(), "/w/b.v".to_string()]);
}

#[test]
fn stdin_marker_is_distinct_from_files() {
    let raw = vec!["-".to_string(), "foo.v".to_string()];
    let (stdin, paths) = split_stdin(&raw);
    assert!(stdin);
    assert_eq!(paths, vec!["foo.v".to_string()]);
    let o = Opts::new().add_stdin().add_stdin().add_file("/w/foo.v".to_string());
    assert_eq!(o.inputs().len(), 2);
    assert!(has_stdin(&o));
    assert_eq!(files(&o), vec!["/w/foo.v".to_string()]);
}

#[test]
fn split_without_marker_keeps_order() {
    let raw = vec!["b.v".to_string(), "--".to_string(), "a.v".to_string(), "-x".to_string()];
    let (stdin, paths) = split_stdin(&raw);
    assert!(!stdin);
    assert_eq!(paths, raw);
}

#[test]
fn split_drops_every_marker() {
    let raw = vec!["-".to_string(), "a.v".to_string(), "-".to_string()];
    let (stdin, paths) = split_stdin(&raw);
    assert!(stdin);
    assert_eq!(paths, vec!["a.v".to_string()]);
}

#[test]
fn line_range_with_two_files_is_refused() {
    let o = Opts::new()
        .from(3)
        .add_file("/w/a.v".to_string())
        .add_file("/w/b.v".to_string());
    let err = o.check_line_range().unwrap_err();
    assert_eq!(
        err.message(),
        "--from and --upto cannot be used with more than one input file."
    );
}

#[test]
fn line_range_with_stdin_and_file_is_refused() {
    let o = Opts::new().upto(4).add_stdin().add_file("/w/a.v".to_string());
    assert!(o.check_line_range().is_err());
}

#[test]
fn line_range_with_one_input_is_accepted() {
    let o = Opts::new().from(1).upto(4).add_file("/w/a.v".to_string());
    assert!(o.check_line_range().is_ok());
    let o = Opts::new().from(1).add_stdin();
    assert!(o.check_line_range().is_ok());
    let o = Opts::new().from(1);
    assert!(o.check_line_range().is_ok());
}

#[test]
fn many_inputs_without_line_range_are_accepted() {
    let o = Opts::new()
        .check()
        .add_stdin()
        .add_file("/w/a.v".to_string())
        .add_file("/w/b.v".to_string());
    assert!(o.check_line_range().is_ok());
}
