use std::collections::BTreeMap;

use indent_inputs::traversal::{is_admitted, is_source_name, Child, Entry, Found, Traversal};

enum Node {
    File,
    Dir(Vec<&'static str>),
    Unreadable,
    Fifo,
}

struct Fixture {
    nodes: BTreeMap<String, Node>,
}

impl Fixture {
    fn new(nodes: Vec<(&str, Node)>) -> Self {
        Fixture {
            nodes: nodes.into_iter().map(|(p, n)| (p.to_string(), n)).collect(),
        }
    }

    fn entry(&self, path: &str) -> Entry {
        match self.nodes.get(path) {
            Some(Node::File) => Entry::File,
            Some(Node::Dir(names)) => Entry::Dir(
                names
                    .iter()
                    .map(|n| {
                        let p = format!("{}/{}", path, n);
                        let is_file = matches!(self.nodes.get(&p), Some(Node::File));
                        let is_dir =
                            matches!(self.nodes.get(&p), Some(Node::Dir(_)) | Some(Node::Unreadable));
                        Child { path: p, name: n.to_string(), is_file, is_dir }
                    })
                    .collect(),
            ),
            Some(Node::Unreadable) => Entry::Dir(Vec::new()),
            Some(Node::Fifo) | None => Entry::Other,
        }
    }
}

fn strings(v: &[&str]) -> Vec<String> {
    v.iter().map(|s| s.to_string()).collect()
}

fn run(fs: &Fixture, candidates: &[&str], excludes: &[&str]) -> (Vec<String>, Vec<String>) {
    let mut t = Traversal::new(strings(candidates), strings(excludes));
    let mut files = Vec::new();
    let mut dirs = Vec::new();
    while let Some(p) = t.next_candidate() {
        match t.classify(fs.entry(&p)) {
            Some(Found::File(f)) => files.push(f),
            Some(Found::Dir(d)) => dirs.push(d),
            None => {}
        }
    }
    files.sort();
    dirs.sort();
    (files, dirs)
}

fn tree() -> Fixture {
    Fixture::new(vec![
        ("/d", Node::Dir(vec!["a.v", "b.txt", "c"])),
        ("/d/a.v", Node::File),
        ("/d/b.txt", Node::File),
        ("/d/c", Node::Dir(vec!["e.v", "f.vo"])),
        ("/d/c/e.v", Node::File),
        ("/d/c/f.vo", Node::File),
    ])
}

#[test]
fn extension_filter_and_recursion() {
    let (files, dirs) = run(&tree(), &["/d"], &[]);
    assert_eq!(files, strings(&["/d/a.v", "/d/c/e.v"]));
    assert_eq!(dirs, strings(&["/d", "/d/c"]));
}

#[test]
fn explicitly_named_file_needs_no_extension() {
    let (files, _) = run(&tree(), &["/d/b.txt"], &[]);
    assert_eq!(files, strings(&["/d/b.txt"]));
}

#[test]
fn excluded_directory_is_not_expanded() {
    let (files, dirs) = run(&tree(), &["/d"], &["/d/c"]);
    assert_eq!(files, strings(&["/d/a.v"]));
    assert_eq!(dirs, strings(&["/d"]));
}

#[test]
fn excluded_file_is_not_produced() {
    let (files, _) = run(&tree(), &["/d", "/d/a.v"], &["/d/a.v"]);
    assert_eq!(files, strings(&["/d/c/e.v"]));
}

#[test]
fn excluded_root_yields_nothing() {
    let (files, dirs) = run(&tree(), &["/d"], &["/d"]);
    assert!(files.is_empty());
    assert!(dirs.is_empty());
}

#[test]
fn unrelated_exclusion_changes_nothing() {
    let (files, _) = run(&tree(), &["/d"], &["/elsewhere"]);
    assert_eq!(files, strings(&["/d/a.v", "/d/c/e.v"]));
}

#[test]
fn file_named_twice_is_produced_once() {
    let (files, _) = run(&tree(), &["/d/a.v", "/d/a.v", "/d", "/d/c/e.v"], &[]);
    assert_eq!(files, strings(&["/d/a.v", "/d/c/e.v"]));
}

#[test]
fn broken_entry_does_not_stop_siblings() {
    let fs = Fixture::new(vec![
        ("/d", Node::Dir(vec!["gone.v", "ok.v", "pipe"])),
        ("/d/ok.v", Node::File),
        ("/d/pipe", Node::Fifo),
    ]);
    let (files, _) = run(&fs, &["/d"], &[]);
    assert_eq!(files, strings(&["/d/ok.v"]));
}

#[test]
fn unreadable_directory_keeps_readable_sibling() {
    let fs = Fixture::new(vec![
        ("/d", Node::Dir(vec!["locked", "ok.v"])),
        ("/d/locked", Node::Unreadable),
        ("/d/ok.v", Node::File),
    ]);
    let (files, dirs) = run(&fs, &["/d"], &[]);
    assert_eq!(files, strings(&["/d/ok.v"]));
    assert_eq!(dirs, strings(&["/d", "/d/locked"]));
}

#[test]
fn missing_candidate_is_dropped() {
    let (files, dirs) = run(&tree(), &["/nowhere", "/d/a.v"], &[]);
    assert_eq!(files, strings(&["/d/a.v"]));
    assert!(dirs.is_empty());
}

#[test]
fn no_candidates_finish_at_once() {
    let mut t = Traversal::new(Vec::new(), Vec::new());
    assert!(t.next_candidate().is_none());
    assert!(t.classify(Entry::File).is_none());
}

#[test]
fn unclassified_candidate_is_handed_out_again() {
    let mut t = Traversal::new(strings(&["/d/a.v"]), Vec::new());
    let first = t.next_candidate();
    assert_eq!(first, Some("/d/a.v".to_string()));
    assert_eq!(t.next_candidate(), first);
    assert!(matches!(t.classify(Entry::File), Some(Found::File(p)) if p == "/d/a.v"));
    assert!(t.next_candidate().is_none());
}

#[test]
fn classify_without_candidate_changes_nothing() {
    let mut t = Traversal::new(strings(&["/d/a.v"]), Vec::new());
    assert!(t.classify(Entry::File).is_none());
    assert_eq!(t.next_candidate(), Some("/d/a.v".to_string()));
}

#[test]
fn candidates_come_last_first() {
    let mut t = Traversal::new(strings(&["/x", "/y", "/z"]), strings(&["/z"]));
    assert_eq!(t.next_candidate(), Some("/y".to_string()));
    assert!(t.classify(Entry::Other).is_none());
    assert_eq!(t.next_candidate(), Some("/x".to_string()));
}

#[test]
fn source_extension() {
    assert!(is_source_name("a.v"));
    assert!(is_source_name("..v"));
    assert!(is_source_name("long.name.v"));
    assert!(!is_source_name(".v"));
    assert!(!is_source_name("v"));
    assert!(!is_source_name("a.V"));
    assert!(!is_source_name("a.vo"));
    assert!(!is_source_name("a.txt"));
}

#[test]
fn admission_of_entries() {
    let child = |name: &str, is_file: bool, is_dir: bool| Child {
        path: format!("/d/{}", name),
        name: name.to_string(),
        is_file,
        is_dir,
    };
    assert!(is_admitted(&child("c.txt", false, true)));
    assert!(!is_admitted(&child("b.txt", true, false)));
    assert!(is_admitted(&child("a.v", true, false)));
    assert!(!is_admitted(&child("pipe.v", false, false)));
    assert!(!is_admitted(&child("pipe", false, false)));
}
