use memmap2::MmapOptions;
use rdiff::line_index::{calculate_line_offsets, text_lines, MmapFile};
use rdiff::types::DiffError;

fn mapped(bytes: &[u8]) -> MmapFile {
    let mut m = MmapOptions::new().len(bytes.len()).map_anon().unwrap();
    m.copy_from_slice(bytes);
    MmapFile::from_mmap(m.make_read_only().unwrap())
}

#[test]
fn test_mmap_file_basic() {
    let mut text = String::new();
    text.push_str(&format!("{}\n", "line 1"));
    text.push_str(&format!("{}\n", "line 2"));
    text.push_str(&format!("{}\n", "line 3"));
    let mmap_file = mapped(text.as_bytes());

    assert_eq!(mmap_file.line_count(), 4);
    assert_eq!(mmap_file.get_line(0).unwrap(), Some("line 1"));
    assert_eq!(mmap_file.get_line(1).unwrap(), Some("line 2"));
    assert_eq!(mmap_file.get_line(2).unwrap(), Some("line 3"));
}

#[test]
fn test_get_lines_range() {
    let mut text = String::new();
    for i in 1..=10 {
        text.push_str(&format!("line {}\n", i));
    }
    let mmap_file = mapped(text.as_bytes());
    let lines = mmap_file.get_lines(2, 3).unwrap();

    assert_eq!(lines.len(), 3);
    assert_eq!(lines[0], "line 3");
    assert_eq!(lines[1], "line 4");
    assert_eq!(lines[2], "line 5");
}

#[test]
fn line_offsets_follow_newlines() {
    assert_eq!(calculate_line_offsets(b"ab\ncd\n\nx"), vec![0, 3, 6, 7]);
    assert_eq!(calculate_line_offsets(b""), vec![0]);
}

#[test]
fn get_line_past_end_is_none() {
    let f = mapped(b"only");
    assert_eq!(f.line_count(), 1);
    assert_eq!(f.get_line(0).unwrap(), Some("only"));
    assert_eq!(f.get_line(1).unwrap(), None);
    assert_eq!(f.size(), 4);
    assert_eq!(f.as_bytes(), b"only");
}

#[test]
fn undecodable_line_is_an_encoding_error() {
    let f = mapped(b"a\n\xff\nc");
    assert!(matches!(f.get_line(1), Err(DiffError::EncodingError(_))));
    assert_eq!(f.get_line(2).unwrap(), Some("c"));
    assert!(matches!(f.get_lines(0, 10), Err(DiffError::EncodingError(_))));
    assert!(matches!(f.get_all_lines(), Err(DiffError::EncodingError(_))));
    assert_eq!(f.get_lines(2, 10).unwrap(), vec!["c".to_string()]);
    assert_eq!(f.get_lines(5, usize::MAX).unwrap(), Vec::<String>::new());
}

#[test]
fn all_lines_keep_final_empty_line() {
    let f = mapped(b"a\r\nb\n");
    assert_eq!(f.get_all_lines().unwrap(), vec!["a\r".to_string(), "b".to_string(), String::new()]);
}

#[test]
fn text_lines_drop_final_newline_and_carriage_returns() {
    let v = text_lines(b"a\r\nb\nc\r").ok().unwrap();
    assert_eq!(v, vec!["a".to_string(), "b".to_string(), "c\r".to_string()]);
    assert_eq!(text_lines(b"").ok().unwrap(), Vec::<String>::new());
    assert_eq!(text_lines(b"x\n").ok().unwrap(), vec!["x".to_string()]);
    assert!(matches!(text_lines(b"ok\n\xc3"), Err(DiffError::EncodingError(_))));
}

#[test]
fn empty_buffer_has_one_empty_line() {
    let f = mapped(b"");
    assert_eq!(f.line_count(), 1);
    assert_eq!(f.get_line(0).unwrap(), Some(""));
    assert_eq!(f.get_line(1).unwrap(), None);
    assert_eq!(f.get_all_lines().unwrap(), vec![String::new()]);
}
