//! Byte offsets to line and column, and source locations.

use sol_dap::source_map::{byte_offset_to_line_col, source_location, SourceLocation, step_source_location};

#[test]
fn byte_offset_first_char() {
    let (line, col) = byte_offset_to_line_col("hello\nworld", 0);
    assert_eq!(line, 1);
    assert_eq!(col, 1);
}

#[test]
fn byte_offset_mid_first_line() {
    let (line, col) = byte_offset_to_line_col("hello\nworld", 3);
    assert_eq!(line, 1);
    assert_eq!(col, 4); // 'l' at index 3
}

#[test]
fn byte_offset_second_line_start() {
    // "hello\n" = 6 bytes, so offset 6 = first char of line 2
    let (line, col) = byte_offset_to_line_col("hello\nworld", 6);
    assert_eq!(line, 2);
    assert_eq!(col, 1);
}

#[test]
fn byte_offset_second_line_mid() {
    let (line, col) = byte_offset_to_line_col("hello\nworld", 8);
    assert_eq!(line, 2);
    assert_eq!(col, 3); // 'r' at offset 8
}

#[test]
fn byte_offset_beyond_end_clamped() {
    let (line, col) = byte_offset_to_line_col("ab", 100);
    // Should clamp to end (offset=2), line=1, col=3
    assert_eq!(line, 1);
    assert_eq!(col, 3);
}

#[test]
fn byte_offset_empty_source() {
    let (line, col) = byte_offset_to_line_col("", 0);
    assert_eq!(line, 1);
    assert_eq!(col, 1);
}

#[test]
fn byte_offset_multiple_newlines() {
    let source = "a\nb\nc\nd";
    let (line, col) = byte_offset_to_line_col(source, 6); // 'c' at index 4, then newline at 5, 'd' at 6
    assert_eq!(line, 4);
    assert_eq!(col, 1);
}

#[test]
fn byte_offset_counts_bytes_not_chars() {
    // "é" takes two bytes: offset 3 is the 'b' after "é" and 'a'.
    let (line, col) = byte_offset_to_line_col("éab", 3);
    assert_eq!(line, 1);
    assert_eq!(col, 4);
}

#[test]
fn source_location_fields_populated() {
    let loc = SourceLocation {
        path: String::from("test.sol"),
        line: 10,
        column: 5,
        length: 20,
    };
    assert_eq!(loc.path, String::from("test.sol"));
    assert_eq!(loc.line, 10);
    assert_eq!(loc.column, 5);
    assert_eq!(loc.length, 20);
}

#[test]
fn test_source_location_struct() {
    let loc = SourceLocation {
        path: String::from("src/Counter.sol"),
        line: 42,
        column: 5,
        length: 10,
    };
    assert_eq!(loc.line, 42);
    assert_eq!(loc.column, 5);
}

#[test]
fn source_location_of_byte_range() {
    let loc = source_location(String::from("/p/A.sol"), "contract A {\n  uint x;\n}", 15, 6);
    assert_eq!(loc.path, "/p/A.sol");
    assert_eq!(loc.line, 2);
    assert_eq!(loc.column, 3);
    assert_eq!(loc.length, 6);
}

#[test]
fn step_locations_resolve_relative_paths_under_the_root() {
    let rel = step_source_location("/proj", "src/A.sol", "a\nbc", 3, 1);
    assert_eq!(rel.path, "/proj/src/A.sol");
    assert_eq!((rel.line, rel.column, rel.length), (2, 2, 1));
    let abs = step_source_location("/proj", "/lib/B.sol", "x", 0, 1);
    assert_eq!(abs.path, "/lib/B.sol");
    assert_eq!((abs.line, abs.column), (1, 1));
}
