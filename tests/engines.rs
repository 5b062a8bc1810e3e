use memmap2::MmapOptions;
use rdiff::file::FileDiffer;
use rdiff::large_file::{AdaptiveDiffer, ChunkedDiffer, ParallelDiffer, Strategy};
use rdiff::line_index::MmapFile;
use rdiff::types::{ChangeType, DiffOptions, Hunk};

fn mapped(bytes: &[u8]) -> MmapFile {
    let mut m = MmapOptions::new().len(bytes.len()).map_anon().unwrap();
    m.copy_from_slice(bytes);
    MmapFile::from_mmap(m.make_read_only().unwrap())
}

fn numbered(n: usize) -> Vec<String> {
    (0..n).map(|i| format!("line {}", i)).collect()
}

fn shape(hs: &[Hunk]) -> Vec<(usize, usize, usize, usize, Vec<ChangeType>)> {
    hs.iter()
        .map(|h| (h.old_start, h.old_count, h.new_start, h.new_count, h.lines.iter().map(|l| l.change_type).collect()))
        .collect()
}

#[test]
fn windows_away_from_changes_match_whole_file() {
    let a = numbered(20);
    let mut b = a.clone();
    b[2] = "changed".to_string();
    b[12] = "also changed".to_string();
    let opts = DiffOptions::default();
    let whole = FileDiffer::new(opts).diff_lines(&a, &b);
    let chunked = ChunkedDiffer::new(5, opts).diff_windows(&a, &b);
    let parallel = ParallelDiffer::new(5, opts).diff_lines(&a, &b);
    assert_eq!(shape(&whole), shape(&chunked));
    assert_eq!(shape(&whole), shape(&parallel));
    assert_eq!(chunked[1].old_start, 13);
    assert_eq!(chunked[1].lines[0].content, "line 12");
}

#[test]
fn single_window_matches_whole_file() {
    let a = numbered(6);
    let b = vec!["line 0".to_string(), "new".to_string(), "line 2".to_string()];
    let opts = DiffOptions::default();
    let whole = FileDiffer::new(opts).diff_lines(&a, &b);
    assert_eq!(shape(&whole), shape(&ChunkedDiffer::new(100, opts).diff_windows(&a, &b)));
    assert_eq!(shape(&whole), shape(&ParallelDiffer::new(100, opts).diff_lines(&a, &b)));
}

#[test]
fn insertion_at_a_boundary_is_resynchronized() {
    let a = numbered(10);
    let mut b = a.clone();
    b.insert(3, "inserted".to_string());
    let opts = DiffOptions::default();
    let chunked = ChunkedDiffer::new(4, opts).diff_windows(&a, &b);
    assert_eq!(shape(&chunked), vec![(3, 0, 4, 1, vec![ChangeType::Add])]);
    let parallel = ParallelDiffer::new(4, opts).diff_lines(&a, &b);
    assert!(parallel.len() > 1);
}

#[test]
fn identical_files_have_no_hunks_in_any_engine() {
    let a = numbered(9);
    let opts = DiffOptions::default();
    assert!(ChunkedDiffer::with_progress(2, opts, true).diff_windows(&a, &a).is_empty());
    assert!(ParallelDiffer::with_progress(2, opts, false).diff_lines(&a, &a).is_empty());
}

#[test]
fn large_file_diff_reports_paths_and_full_content() {
    let f1 = mapped(b"a\nb\nc\n");
    let f2 = mapped(b"a\nB\nc\n");
    let opts = DiffOptions::default();
    let d = ChunkedDiffer::new(2, opts).diff_large_files(&f1, &f2, "x", "y").ok().unwrap();
    assert_eq!(d.old_path, "x");
    assert_eq!(d.new_path, "y");
    assert_eq!(d.hunks.len(), 1);
    assert_eq!(d.full_content.as_ref().unwrap().len(), 3);
    let p = ParallelDiffer::new(2, opts).diff_parallel(&f1, &f2, "x", "y").ok().unwrap();
    assert_eq!(shape(&p.hunks), shape(&d.hunks));
}

#[test]
fn strategy_follows_the_larger_size() {
    let a = AdaptiveDiffer::new(DiffOptions::default());
    assert_eq!(a.strategy_for(10, 10 * 1024 * 1024 - 1), Strategy::Whole);
    assert_eq!(a.strategy_for(10 * 1024 * 1024, 0), Strategy::Chunked);
    assert_eq!(a.strategy_for(0, 100 * 1024 * 1024), Strategy::Parallel);
    let b = AdaptiveDiffer::with_thresholds(DiffOptions::default(), 4, 8, 2);
    assert_eq!(b.strategy_for(3, 3), Strategy::Whole);
    assert_eq!(b.strategy_for(7, 3), Strategy::Chunked);
    assert_eq!(b.strategy_for(3, 8), Strategy::Parallel);
    let c = AdaptiveDiffer::with_progress(DiffOptions::default(), false);
    assert_eq!(c.strategy_for(1, 1), Strategy::Whole);
}

#[test]
fn adaptive_routes_mapped_files() {
    let f1 = mapped(b"k\nl\nm");
    let f2 = mapped(b"k\nm");
    for (small, medium) in [(100u64, 200u64), (1, 200), (1, 2)] {
        let a = AdaptiveDiffer::with_thresholds(DiffOptions::default(), small, medium, 2);
        let d = a.diff_mapped(&f1, &f2, "o", "n").ok().unwrap();
        let deleted: Vec<String> = d
            .hunks
            .iter()
            .flat_map(|h| h.lines.iter())
            .filter(|l| l.change_type == ChangeType::Delete)
            .map(|l| l.content.clone())
            .collect();
        assert!(deleted.contains(&"l".to_string()));
    }
}

#[test]
fn carriage_returns_read_alike_in_every_engine() {
    let old = b"a\r\nb\r\nc\r\n";
    let new = b"a\r\nB\r\nc\r\n";
    let opts = DiffOptions::default();
    let whole = FileDiffer::new(opts).compare_bytes(old, new, "o", "n").ok().unwrap();
    let f1 = mapped(old);
    let f2 = mapped(new);
    let chunked = ChunkedDiffer::new(2, opts).diff_large_files(&f1, &f2, "o", "n").ok().unwrap();
    let parallel = ParallelDiffer::new(2, opts).diff_parallel(&f1, &f2, "o", "n").ok().unwrap();
    assert_eq!(shape(&whole.hunks), shape(&chunked.hunks));
    assert_eq!(shape(&whole.hunks), shape(&parallel.hunks));
    assert_eq!(chunked.hunks[0].lines[1].content, "B");
    assert_eq!(chunked.full_content.unwrap().len(), 3);
}

#[test]
fn mapped_binary_files_give_a_binary_record() {
    let f1 = mapped(b"ab\0cd\n");
    let f2 = mapped(b"ab\0ce\n");
    for (small, medium) in [(100u64, 200u64), (1, 200), (1, 2)] {
        let a = AdaptiveDiffer::with_thresholds(DiffOptions::default(), small, medium, 2);
        let d = a.diff_mapped(&f1, &f2, "o", "n").ok().unwrap();
        assert!(d.is_binary);
        assert!(d.hunks.is_empty());
        assert!(d.full_content.is_none());
    }
}

#[test]
fn mapped_file_against_itself_has_no_hunks() {
    let f = mapped(b"p\nq\nr\ns\n");
    let opts = DiffOptions::default();
    let c = ChunkedDiffer::new(2, opts).diff_large_files(&f, &f, "a", "a").ok().unwrap();
    let p = ParallelDiffer::new(3, opts).diff_parallel(&f, &f, "a", "a").ok().unwrap();
    assert!(c.hunks.is_empty() && p.hunks.is_empty());
    assert!(c.full_content.unwrap().iter().all(|l| l.change_type == ChangeType::Context));
}
