use blobmask::report::tally;
use blobmask::walk::{destination, file_root_relative, Entry, PathError, Step, Walker};

fn path(parts: &[&str]) -> Vec<String> {
    parts.iter().map(|s| s.to_string()).collect()
}

fn found(s: Step) -> Vec<String> {
    match s {
        Step::Found(p) => p,
        _ => panic!("expected a file"),
    }
}

#[test]
fn directory_tree_is_mirrored() {
    let out = path(&["out"]);
    let mut w = Walker::new();
    let a = found(w.step(Entry::File("a.png".to_string())));
    assert!(matches!(w.step(Entry::Dir("sub".to_string())), Step::Descend));
    let b = found(w.step(Entry::File("b.png".to_string())));
    assert!(matches!(w.step(Entry::End), Step::Ascend));
    assert!(!w.is_done());
    assert!(matches!(w.step(Entry::End), Step::Ascend));
    assert!(w.is_done());
    assert_eq!(destination(&out, &a), path(&["out", "a.png"]));
    assert_eq!(destination(&out, &b), path(&["out", "sub", "b.png"]));
    let s = tally(&vec![true, true]);
    assert_eq!((s.succeeded, s.failed), (2, 0));
}

#[test]
fn single_file_root_is_flattened() {
    let rel = file_root_relative(&path(&["x", "y", "z.png"])).unwrap();
    assert_eq!(rel, path(&["z.png"]));
    assert_eq!(destination(&path(&["out"]), &rel), path(&["out", "z.png"]));
}

#[test]
fn empty_file_root_has_no_name() {
    assert_eq!(file_root_relative(&Vec::new()), Err(PathError::NoFileName));
}

#[test]
fn unusable_entries_become_errors_and_walk_goes_on() {
    let mut w = Walker::new();
    assert!(matches!(w.step(Entry::Dir("d".to_string())), Step::Descend));
    assert!(matches!(w.step(Entry::Failed), Step::Error));
    assert!(matches!(w.step(Entry::Other), Step::Error));
    let p = found(w.step(Entry::File("c.png".to_string())));
    assert_eq!(p, path(&["d", "c.png"]));
    assert_eq!(w.frames.len(), 2);
}

#[test]
fn tally_counts_both_kinds() {
    let s = tally(&vec![true, false, false, true, false]);
    assert_eq!(s.succeeded, 2);
    assert_eq!(s.failed, 3);
    let e = tally(&Vec::new());
    assert_eq!((e.succeeded, e.failed), (0, 0));
}

#[test]
fn destination_with_nested_output_root() {
    let d = destination(&path(&["a", "b"]), &path(&["c", "d.png"]));
    assert_eq!(d, path(&["a", "b", "c", "d.png"]));
}
