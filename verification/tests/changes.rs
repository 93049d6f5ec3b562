use autocommit::changes::{
    any_changed, decode_lines, detect, truncate, ChangeSet, DiffStats, DIFF_LIMIT,
};
use autocommit::error::Error;

fn stats(files_changed: usize, insertions: usize, deletions: usize) -> DiffStats {
    DiffStats { files_changed, insertions, deletions }
}

#[test]
fn the_limit_is_a_thousand() {
    assert_eq!(DIFF_LIMIT, 1000);
}

#[test]
fn truncate_cuts_a_longer_text_to_exactly_the_limit() {
    let text = "x".repeat(1001);
    assert_eq!(truncate(&text, 1000), "x".repeat(1000));
    let long = "ab".repeat(5000);
    assert_eq!(truncate(&long, 1000).chars().count(), 1000);
    assert_eq!(truncate(&long, 1000), "ab".repeat(500));
}

#[test]
fn truncate_keeps_a_text_within_the_limit() {
    assert_eq!(truncate("", 1000), "");
    assert_eq!(truncate("abc", 1000), "abc");
    let exact = "y".repeat(1000);
    assert_eq!(truncate(&exact, 1000), exact);
}

#[test]
fn truncate_counts_characters() {
    let text = "é".repeat(1500);
    let cut = truncate(&text, 1000);
    assert_eq!(cut.chars().count(), 1000);
    assert_eq!(cut, "é".repeat(1000));
    assert_eq!(truncate("a越b", 2), "a越");
    assert_eq!(truncate("abc", 0), "");
}

#[test]
fn any_changed_looks_for_set_flags() {
    assert!(!any_changed(&[]));
    assert!(!any_changed(&[0, 0]));
    assert!(any_changed(&[0, 128]));
    assert!(any_changed(&[1]));
    assert!(any_changed(&[u32::MAX, 0]));
}

#[test]
fn diff_stats_are_empty_when_all_counts_are_zero() {
    assert!(stats(0, 0, 0).is_empty());
    assert!(!stats(1, 0, 0).is_empty());
    assert!(!stats(0, 1, 0).is_empty());
    assert!(!stats(0, 0, 1).is_empty());
    assert!(!stats(usize::MAX, usize::MAX, usize::MAX).is_empty());
}

#[test]
fn decode_lines_replaces_what_is_not_utf8() {
    let lines = vec![b"plain\n".to_vec(), vec![0x66, 0xff, 0x67], "é".as_bytes().to_vec(), vec![]];
    assert_eq!(
        decode_lines(&lines),
        vec!["plain\n".to_string(), "f\u{fffd}g".to_string(), "é".to_string(), String::new()]
    );
}

#[test]
fn unchanged_has_no_changes_and_no_text() {
    let set = ChangeSet::unchanged();
    assert!(!set.has_changes());
    assert_eq!(set.diff_text(), "");
}

#[test]
fn from_fragments_concatenates_and_cuts() {
    let parts = vec!["a".repeat(600), "b".repeat(600)];
    let set = ChangeSet::from_fragments(stats(1, 1200, 0), &parts);
    assert!(set.has_changes());
    assert_eq!(set.diff_text(), &format!("{}{}", "a".repeat(600), "b".repeat(400)));
    let small = ChangeSet::from_fragments(stats(1, 1, 0), &["+x\n".to_string(), "-y\n".to_string()]);
    assert_eq!(small.into_diff_text(), "+x\n-y\n");
}

#[test]
fn from_fragments_with_zero_counts_has_no_text() {
    let set = ChangeSet::from_fragments(stats(0, 0, 0), &["mode change".to_string()]);
    assert!(set.has_changes());
    assert_eq!(set.diff_text(), "");
}

#[test]
fn from_diff_decodes_the_lines() {
    let set = ChangeSet::from_diff(stats(1, 1, 0), &vec![b"+a".to_vec(), vec![0xc3], b"\n".to_vec()]);
    assert_eq!(set.diff_text(), "+a\u{fffd}\n");
}

#[test]
fn detect_fails_outside_a_working_tree() {
    assert_eq!(detect(false, &[128], stats(1, 1, 0), &vec![b"x".to_vec()]), Err(Error::NotAWorkingTree));
}

#[test]
fn detect_without_changes_gives_no_text() {
    let set = detect(true, &[], stats(5, 5, 5), &vec![b"x".to_vec()]).unwrap();
    assert_eq!(set, ChangeSet::unchanged());
    let current = detect(true, &[0, 0, 0], stats(0, 0, 0), &vec![]).unwrap();
    assert!(!current.has_changes());
}

#[test]
fn detect_with_changes_gives_the_cut_diff() {
    let lines = vec!["+".repeat(999).into_bytes(), b"ab".to_vec()];
    let set = detect(true, &[0, 256], stats(1, 1, 0), &lines).unwrap();
    assert!(set.has_changes());
    assert_eq!(set.diff_text(), &format!("{}a", "+".repeat(999)));
}

#[test]
fn detect_with_changes_of_mode_only_gives_no_text() {
    let set = detect(true, &[256], stats(0, 0, 0), &vec![]).unwrap();
    assert!(set.has_changes());
    assert_eq!(set.diff_text(), "");
}
