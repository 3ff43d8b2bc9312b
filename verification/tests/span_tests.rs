use rustify_ts::parser::ast::span::{LineMap, Span};

#[test]
fn test_span_new() {
    let span = Span::new(10, 20);
    assert_eq!(span.start(), 10);
    assert_eq!(span.end(), 20);
    assert_eq!(span.len(), 10);
}

#[test]
fn test_span_point() {
    let span = Span::point(10);
    assert_eq!(span.start(), 10);
    assert_eq!(span.end(), 10);
    assert_eq!(span.len(), 0);
    assert!(span.is_empty());
}

#[test]
fn test_span_empty() {
    let span = Span::empty();
    assert_eq!(span.start(), 0);
    assert_eq!(span.end(), 0);
    assert!(span.is_empty());
}

#[test]
fn test_span_contains() {
    let span = Span::new(10, 20);

    assert!(!span.contains(9));
    assert!(span.contains(10));
    assert!(span.contains(15));
    assert!(span.contains(19));
    assert!(!span.contains(20));
    assert!(!span.contains(21));
}

#[test]
fn test_span_extend() {
    let span1 = Span::new(10, 20);
    let span2 = Span::new(30, 40);
    let extended = span1.extend(span2);

    assert_eq!(extended.start(), 10);
    assert_eq!(extended.end(), 40);
}

#[test]
fn test_span_extend_reverse() {
    let span1 = Span::new(30, 40);
    let span2 = Span::new(10, 20);
    let extended = span1.extend(span2);

    assert_eq!(extended.start(), 10);
    assert_eq!(extended.end(), 40);
}

#[test]
fn test_span_merge() {
    let span1 = Span::new(10, 20);
    let span2 = Span::new(30, 40);
    let merged = Span::merge(span1, span2);

    assert_eq!(merged.start(), 10);
    assert_eq!(merged.end(), 40);
}

#[test]
fn test_span_as_range() {
    let span = Span::new(10, 20);
    let range = span.as_range();

    assert_eq!(range.start, 10);
    assert_eq!(range.end, 20);
}

#[test]
fn test_line_map_creation() {
    let source = "line 1\nline 2\nline 3";
    let line_map = LineMap::from_source(source);

    assert_eq!(line_map.line_count(), 3);
    assert_eq!(line_map.line_start(1), Some(0));
    assert_eq!(line_map.line_start(2), Some(7));
    assert_eq!(line_map.line_start(3), Some(14));
    assert_eq!(line_map.line_start(4), None);
}

#[test]
fn test_line_map_empty() {
    let source = "";
    let line_map = LineMap::from_source(source);

    assert_eq!(line_map.line_count(), 1);
    assert_eq!(line_map.line_start(1), Some(0));
}

#[test]
fn test_line_map_single_line() {
    let source = "single line";
    let line_map = LineMap::from_source(source);

    assert_eq!(line_map.line_count(), 1);
    assert_eq!(line_map.line_start(1), Some(0));
}

#[test]
fn test_line_col_lookup() {
    let source = "line 1\nline 2\nline 3";
    let line_map = LineMap::from_source(source);

    let (line, col) = line_map.line_col(0);
    assert_eq!(line, 1);
    assert_eq!(col, 1);

    let (line, col) = line_map.line_col(5);
    assert_eq!(line, 1);
    assert_eq!(col, 6);

    let (line, col) = line_map.line_col(7);
    assert_eq!(line, 2);
    assert_eq!(col, 1);

    let (line, col) = line_map.line_col(10);
    assert_eq!(line, 2);
    assert_eq!(col, 4);

    let (line, col) = line_map.line_col(14);
    assert_eq!(line, 3);
    assert_eq!(col, 1);
}

#[test]
fn test_line_col_out_of_bounds() {
    let source = "line 1\nline 2";
    let line_map = LineMap::from_source(source);

    let len = source.len();
    let (line, col) = line_map.line_col(len + 100);

    assert_eq!(line, 2);
    assert!(col > 0);
}

#[test]
fn test_line_map_windows_line_endings() {
    let source = "line 1\r\nline 2\r\nline 3";
    let line_map = LineMap::from_source(source);

    assert_eq!(line_map.line_count(), 3);
    assert_eq!(line_map.line_start(1), Some(0));
}

#[test]
fn test_line_map_no_trailing_newline() {
    let source = "line 1\nline 2";
    let line_map = LineMap::from_source(source);

    assert_eq!(line_map.line_count(), 2);
    assert_eq!(line_map.line_start(1), Some(0));
    assert_eq!(line_map.line_start(2), Some(7));
}

#[test]
fn test_line_map_trailing_newline() {
    let source = "line 1\nline 2\n";
    let line_map = LineMap::from_source(source);

    assert_eq!(line_map.line_count(), 3);
    assert_eq!(line_map.line_start(1), Some(0));
    assert_eq!(line_map.line_start(2), Some(7));
}

#[test]
fn span_text_and_symmetric_extend() {
    let a = Span::new(3, 9);
    let b = Span::new(1, 4);
    assert_eq!(a.to_string(), "3..9");
    assert_eq!(a.extend(b), b.extend(a));
    assert_eq!(Span::merge(a, b), Span::new(1, 9));
}

#[test]
fn line_start_round_trip() {
    let map = LineMap::from_source("ab\ncde\n\nf");
    for line in 1..=map.line_count() {
        let start = map.line_start(line).unwrap();
        assert_eq!(map.line_col(start), (line, 1));
    }
    assert_eq!(map.line_start(0), None);
}

#[test]
fn line_zero_has_no_start() {
    let line_map = LineMap::from_source("ab\ncd");
    assert_eq!(line_map.line_start(0), None);
    assert_eq!(line_map.line_start(2), Some(3));
}

#[test]
fn a_text_has_one_line_more_than_newlines() {
    assert_eq!(LineMap::from_source("").line_count(), 1);
    assert_eq!(LineMap::from_source("a\nb\n").line_count(), 3);
    assert_eq!(LineMap::from_source("\n\n\n").line_count(), 4);
}
