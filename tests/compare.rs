use rdiff::align::{line_key, EditTag};
use rdiff::file::{is_binary_content, FileDiffer};
use rdiff::results::count_changes;
use rdiff::types::{ChangeType, DiffError, DiffOptions, FileDiff, LineChange};

fn lines(v: &[&str]) -> Vec<String> {
    v.iter().map(|s| s.to_string()).collect()
}

fn differ() -> FileDiffer {
    FileDiffer::new(DiffOptions::default())
}

fn kinds(l: &[LineChange]) -> Vec<ChangeType> {
    l.iter().map(|c| c.change_type).collect()
}

#[test]
fn default_options() {
    let o = DiffOptions::default();
    assert_eq!(o.context_lines, 3);
    assert!(!o.ignore_whitespace);
    assert!(!o.ignore_case);
}

#[test]
fn one_changed_line_gives_one_hunk() {
    let d = differ().compare_text("a\nb\nc", "a\nx\nc", "old.txt", "new.txt");
    assert_eq!(d.hunks.len(), 1);
    let h = &d.hunks[0];
    assert_eq!((h.old_start, h.old_count, h.new_start, h.new_count), (2, 1, 2, 1));
    assert_eq!(kinds(&h.lines), vec![ChangeType::Delete, ChangeType::Add]);
    assert_eq!(h.lines[0].content, "b");
    assert_eq!(h.lines[0].old_line_num, Some(2));
    assert_eq!(h.lines[0].new_line_num, None);
    assert_eq!(h.lines[1].content, "x");
    assert_eq!(h.lines[1].old_line_num, None);
    assert_eq!(h.lines[1].new_line_num, Some(2));
    assert_eq!(d.path, "old.txt");
    assert_eq!(d.new_path, "new.txt");
    assert!(!d.is_binary && !d.is_new && !d.is_deleted);
    let full = d.full_content.unwrap();
    assert_eq!(full.len(), 3);
    assert_eq!(full[1].content, "x");
    assert_eq!(full[1].change_type, ChangeType::Context);
}

#[test]
fn new_file_from_empty_side() {
    let d: FileDiff = differ().compare_contents(None, Some(b"a\nb"), "old", "f.txt").ok().unwrap();
    assert!(d.is_new);
    assert_eq!(d.old_path, "/dev/null");
    assert_eq!(d.new_path, "f.txt");
    assert_eq!(d.hunks.len(), 1);
    let h = &d.hunks[0];
    assert_eq!((h.old_start, h.old_count, h.new_start, h.new_count), (0, 0, 1, 2));
    assert_eq!(kinds(&h.lines), vec![ChangeType::Add, ChangeType::Add]);
    assert_eq!(h.lines[1].new_line_num, Some(2));
    assert_eq!(d.full_content.unwrap().len(), 2);
}

#[test]
fn deleted_file_from_missing_side() {
    let d = differ().create_deleted_file_diff("gone.txt", "x\ny\n");
    assert!(d.is_deleted);
    assert_eq!(d.old_path, "gone.txt");
    assert_eq!(d.new_path, "/dev/null");
    let h = &d.hunks[0];
    assert_eq!((h.old_start, h.old_count, h.new_start, h.new_count), (1, 2, 0, 0));
    assert_eq!(kinds(&h.lines), vec![ChangeType::Delete, ChangeType::Delete]);
    assert!(d.full_content.is_none());
}

#[test]
fn new_file_diff_of_text() {
    let d = differ().create_new_file_diff("n.txt", "p\n");
    assert!(d.is_new);
    assert_eq!(d.hunks[0].lines[0].content, "p");
}

#[test]
fn both_missing_is_an_error() {
    let r = differ().compare_contents(None, None, "a", "b");
    assert!(matches!(r, Err(DiffError::FileNotFound(_))));
}

#[test]
fn binary_pair_has_no_hunks() {
    let d = differ().compare_contents(Some(b"ab\0cd"), Some(b"xyz"), "a.bin", "b.bin").ok().unwrap();
    assert!(d.is_binary);
    assert!(d.hunks.is_empty());
    assert!(d.full_content.is_none());
    assert_eq!(count_changes(&d.hunks), Some((0, 0)));
}

#[test]
fn binary_detection_looks_at_the_first_8_kib() {
    assert!(is_binary_content(b"\0"));
    assert!(!is_binary_content(b"plain text"));
    let mut late = vec![b'a'; 8192];
    late.push(0);
    assert!(!is_binary_content(&late));
    let mut early = vec![b'a'; 8191];
    early.push(0);
    assert!(is_binary_content(&early));
}

#[test]
fn comparing_text_with_itself_finds_nothing() {
    let t = "one\ntwo\nthree\n";
    let d = differ().compare_text(t, t, "p", "p");
    assert!(d.hunks.is_empty());
    assert!(d.full_content.unwrap().iter().all(|l| l.change_type == ChangeType::Context));
}

#[test]
fn alignment_reconstructs_both_sides() {
    let a = lines(&["a", "b", "c", "d"]);
    let b = lines(&["b", "x", "d", "e"]);
    let s = differ().align(&a, &b);
    let old: Vec<String> = s.iter().filter(|l| l.change_type != ChangeType::Add).map(|l| l.content.clone()).collect();
    let new: Vec<String> = s.iter().filter(|l| l.change_type != ChangeType::Delete).map(|l| l.content.clone()).collect();
    assert_eq!(old, a);
    assert_eq!(new, b);
}

#[test]
fn reversed_alignment_changes_the_same_lines() {
    let a = lines(&["p", "q", "r", "s"]);
    let b = lines(&["q", "r", "t"]);
    let f = differ().align(&a, &b);
    let g = differ().align(&b, &a);
    let mut net: std::collections::HashMap<String, i64> = std::collections::HashMap::new();
    for l in &f {
        match l.change_type {
            ChangeType::Add => *net.entry(l.content.clone()).or_insert(0) += 1,
            ChangeType::Delete => *net.entry(l.content.clone()).or_insert(0) -= 1,
            _ => {}
        }
    }
    for l in &g {
        match l.change_type {
            ChangeType::Delete => *net.entry(l.content.clone()).or_insert(0) -= 1,
            ChangeType::Add => *net.entry(l.content.clone()).or_insert(0) += 1,
            _ => {}
        }
    }
    assert!(net.values().all(|v| *v == 0));
}

#[test]
fn hunks_are_maximal_runs_of_changes() {
    let a = lines(&["a", "b", "c", "d", "e"]);
    let b = lines(&["a", "B", "c", "d", "E", "f"]);
    let hs = differ().diff_lines(&a, &b);
    assert_eq!(hs.len(), 2);
    assert_eq!((hs[0].old_start, hs[0].old_count, hs[0].new_start, hs[0].new_count), (2, 1, 2, 1));
    assert_eq!((hs[1].old_start, hs[1].old_count, hs[1].new_start, hs[1].new_count), (5, 1, 5, 2));
    assert_eq!(count_changes(&hs), Some((3, 2)));
}

#[test]
fn ignore_case_compares_lowercased_keys() {
    let opts = DiffOptions { context_lines: 3, ignore_whitespace: false, ignore_case: true };
    let d = FileDiffer::new(opts);
    assert!(d.diff_lines(&lines(&["Hello"]), &lines(&["hELLO"])).is_empty());
    assert_eq!(differ().diff_lines(&lines(&["Hello"]), &lines(&["hELLO"])).len(), 1);
    assert_eq!(line_key(&opts, &"ÀB".to_string()), "àb".as_bytes().to_vec());
}

#[test]
fn ignore_whitespace_collapses_runs() {
    let opts = DiffOptions { context_lines: 3, ignore_whitespace: true, ignore_case: false };
    assert_eq!(line_key(&opts, &"a \t b ".to_string()), b"a b ".to_vec());
    let d = FileDiffer::new(opts);
    let s = d.align(&lines(&["x  y"]), &lines(&["x y"]));
    assert_eq!(s.len(), 1);
    assert_eq!(s[0].change_type, ChangeType::Context);
    assert_eq!(s[0].content, "x  y");
}

#[test]
fn script_of_identical_keys_keeps_everything() {
    let k = vec![b"a".to_vec(), b"b".to_vec()];
    assert_eq!(rdiff::align::script_for(&k, &k), vec![EditTag::Equal, EditTag::Equal]);
    let e: Vec<Vec<u8>> = Vec::new();
    assert_eq!(rdiff::align::script_for(&e, &k), vec![EditTag::Insert, EditTag::Insert]);
}

#[test]
fn invalid_text_is_an_encoding_error() {
    let r = differ().compare_bytes(b"ok", b"\xff", "a", "b");
    assert!(matches!(r, Err(DiffError::EncodingError(_))));
}

#[test]
fn insertion_into_empty_text_starts_at_old_line_zero() {
    let d = differ().compare_text("", "a\nb\n", "old", "new");
    assert_eq!(d.hunks.len(), 1);
    let h = &d.hunks[0];
    assert_eq!((h.old_start, h.old_count, h.new_start, h.new_count), (0, 0, 1, 2));
    assert_eq!(kinds(&h.lines), vec![ChangeType::Add, ChangeType::Add]);
}

#[test]
fn deletion_at_end_starts_after_last_new_line() {
    let hs = differ().diff_lines(&lines(&["a", "b"]), &lines(&["a"]));
    assert_eq!((hs[0].old_start, hs[0].old_count, hs[0].new_start, hs[0].new_count), (2, 1, 1, 0));
}
