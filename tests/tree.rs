use rdiff::results::{all_lines, count_changes, paginate};
use rdiff::tree::{pair_paths, DirectoryDiffer, PathPair, TreeFile};
use rdiff::types::{ChangeType, DiffOptions, DiffResult, FileDiff};
use rdiff::web::{default_page_size, get_file_extension, WebServer};

fn tf(rel: &str, content: &[u8]) -> TreeFile {
    TreeFile { rel_path: rel.to_string(), full_path: format!("/root/{}", rel), content: content.to_vec() }
}

fn added(n: usize) -> FileDiff {
    let text: String = (0..n).map(|i| format!("l{}\n", i)).collect();
    rdiff::file::FileDiffer::new(DiffOptions::default()).create_new_file_diff("f", &text)
}

#[test]
fn paths_are_paired_once() {
    let left = vec![tf("a", b""), tf("b", b"")];
    let right = vec![tf("c", b""), tf("a", b"")];
    let p = pair_paths(&left, &right);
    assert_eq!(
        p,
        vec![
            PathPair { left: Some(0), right: Some(1) },
            PathPair { left: Some(1), right: None },
            PathPair { left: None, right: Some(0) },
        ]
    );
}

#[test]
fn left_only_file_is_deleted_under_its_relative_path() {
    let differ = DirectoryDiffer::new(DiffOptions::default());
    let left = vec![tf("sub/old.txt", b"x\ny\n")];
    let right: Vec<TreeFile> = Vec::new();
    let t = differ.compare_trees(&left, &right).unwrap();
    assert_eq!(t.result.files.len(), 1);
    let f = &t.result.files[0];
    assert_eq!(f.old_path, "sub/old.txt");
    assert_eq!(f.new_path, "/dev/null");
    assert!(f.is_deleted);
    assert!(f.hunks[0].lines.iter().all(|l| l.change_type == ChangeType::Delete));
    assert_eq!(t.result.total_deletions, 2);
    assert_eq!(t.result.total_additions, 0);
    assert_eq!(t.result.total_files_changed, 1);
}

#[test]
fn tree_comparison_sums_up_files() {
    let differ = DirectoryDiffer::new(DiffOptions::default());
    let left = vec![tf("same", b"s\n"), tf("mod", b"a\nb\n"), tf("bin", b"\0\x01"), tf("bad", b"ok")];
    let right = vec![tf("mod", b"a\nc\nd\n"), tf("same", b"s\n"), tf("new", b"n\n"), tf("bin", b"\0\x02"), tf("bad", b"\xff")];
    let t = differ.compare_trees(&left, &right).unwrap();
    let names: Vec<&str> = t.result.files.iter().map(|f| f.path.as_str()).collect();
    assert_eq!(names, vec!["/root/mod", "new"]);
    assert_eq!(t.result.total_additions, 3);
    assert_eq!(t.result.total_deletions, 1);
    assert_eq!(t.result.total_files_changed, 2);
    assert_eq!(t.failures.len(), 1);
    assert_eq!(t.failures[0].path, "bad");
}

#[test]
fn directory_differ_synthesizes_one_sided_files() {
    let differ = DirectoryDiffer::new(DiffOptions::default());
    let n = differ.create_new_diff("r.txt", "1\n2\n");
    assert!(n.is_new);
    assert_eq!(n.hunks[0].new_count, 2);
    let d = differ.create_deleted_diff("r.txt", "1\n");
    assert!(d.is_deleted);
    assert_eq!(d.hunks[0].old_count, 1);
}

#[test]
fn results_drop_files_without_hunks() {
    let binary = rdiff::file::binary_pair("a", "b");
    let r = DiffResult::from_files(vec![binary, added(3)]).unwrap();
    assert_eq!(r.files.len(), 1);
    assert_eq!(r.total_additions, 3);
    assert_eq!(r.total_deletions, 0);
    assert_eq!(r.total_files_changed, 1);
    assert_eq!(count_changes(&r.files[0].hunks), Some((3, 0)));
}

#[test]
fn pages_of_changed_lines() {
    let r = DiffResult::from_files(vec![added(120), added(130)]).unwrap();
    assert_eq!(all_lines(&r).len(), 250);
    let first = paginate(&r, 0, 100);
    let second = paginate(&r, 1, 100);
    let third = paginate(&r, 2, 100);
    assert_eq!((first.lines.len(), first.has_more), (100, true));
    assert_eq!((second.lines.len(), second.has_more), (100, true));
    assert_eq!((third.lines.len(), third.has_more), (50, false));
    assert_eq!(third.total_lines, 250);
    assert_eq!(third.total_pages, 3);
    assert_eq!(second.lines[0].content, "l100");
    let fourth = paginate(&r, 3, 100);
    assert!(fourth.lines.is_empty() && !fourth.has_more);
    let big = paginate(&r, 0, 5000);
    assert_eq!(big.page_size, 1000);
    assert_eq!(big.lines.len(), 250);
    assert_eq!(paginate(&r, usize::MAX, 100).lines.len(), 0);
}

#[test]
fn viewer_state_and_defaults() {
    let r = DiffResult::from_files(vec![added(1)]).unwrap();
    let s = WebServer::new(r, None);
    assert_eq!(s.port, 0);
    assert_eq!(s.state.diff_result.total_additions, 1);
    let r2 = DiffResult::from_files(vec![]).unwrap();
    assert_eq!(WebServer::new(r2, Some(8080)).port, 8080);
    assert_eq!(default_page_size(), 100);
}

#[test]
fn file_extensions_are_lowercased() {
    assert_eq!(get_file_extension("dir/Report.TXT"), Some("txt".to_string()));
    assert_eq!(get_file_extension("archive.tar.GZ"), Some("gz".to_string()));
    assert_eq!(get_file_extension("Makefile"), None);
    assert_eq!(get_file_extension(".bashrc"), None);
}

#[test]
fn identical_trees_list_nothing() {
    let differ = DirectoryDiffer::new(DiffOptions::default());
    let tree = vec![tf("a", b"1\n2\n"), tf("b/c", b"x"), tf("bin", b"\0z")];
    let t = differ.compare_trees(&tree, &tree).unwrap();
    assert!(t.result.files.is_empty());
    assert_eq!(t.result.total_files_changed, 0);
    assert_eq!(t.result.total_additions, 0);
    assert_eq!(t.result.total_deletions, 0);
    assert!(t.failures.is_empty());
}
