use notepad_classic::editor::rendered_font_height;
use notepad_classic::printing::{
    expand_tabs, page_geometry, paginate, print_line_metrics, split_logical_lines, wrap_line,
    PageGeometry,
};

fn width_of(s: &[u16]) -> Option<i32> {
    Some(s.len() as i32 * 10)
}

#[test]
fn empty_text_paginates_to_single_page() {
    let pages = paginate(&[], 100, 10, |_| Some(10)).unwrap();
    assert_eq!(pages.len(), 1);
    assert_eq!(pages[0].lines, vec![Vec::<u16>::new()]);
}

#[test]
fn short_line_fits_on_one_page() {
    let text: Vec<u16> = "Hello".encode_utf16().collect();
    let pages = paginate(&text, 100, 10, |s| Some(s.len() as i32 * 10)).unwrap();
    assert_eq!(pages.len(), 1);
    assert_eq!(pages[0].lines.len(), 1);
    assert_eq!(pages[0].lines[0], text);
}

#[test]
fn explicit_blank_lines_are_preserved() {
    let text: Vec<u16> = "Line 1\r\n\r\nLine 2".encode_utf16().collect();
    let pages = paginate(&text, 200, 10, |s| Some(s.len() as i32 * 10)).unwrap();
    assert_eq!(pages.len(), 1);
    assert_eq!(pages[0].lines.len(), 3);
    assert_eq!(String::from_utf16_lossy(&pages[0].lines[0]), "Line 1");
    assert_eq!(pages[0].lines[1], Vec::<u16>::new());
    assert_eq!(String::from_utf16_lossy(&pages[0].lines[2]), "Line 2");
}

#[test]
fn multiple_logical_lines_are_split_with_crlf_lf_and_cr() {
    let text: Vec<u16> = "A\r\nB\nC\rD".encode_utf16().collect();
    let lines = split_logical_lines(&text);
    assert_eq!(lines.len(), 4);
    assert_eq!(lines[0], &['A' as u16]);
    assert_eq!(lines[1], &['B' as u16]);
    assert_eq!(lines[2], &['C' as u16]);
    assert_eq!(lines[3], &['D' as u16]);
}

#[test]
fn narrow_width_causes_word_wrapping_at_whitespace() {
    let text: Vec<u16> = "hello world foo bar".encode_utf16().collect();
    // Each char is 10 units. max_width is 60 units -> fits 6 chars ("hello ").
    let pages = paginate(&text, 60, 10, |s| Some(s.len() as i32 * 10)).unwrap();
    assert_eq!(pages.len(), 1);
    let line_strings: Vec<String> = pages[0]
        .lines
        .iter()
        .map(|l| String::from_utf16_lossy(l))
        .collect();
    assert_eq!(line_strings, vec!["hello", "world", "foo", "bar"]);
}

#[test]
fn unbroken_token_hard_breaks_and_makes_forward_progress() {
    let text: Vec<u16> = "abcdefghijkl".encode_utf16().collect();
    // Each char 10 units, max_width 40 units -> fits 4 chars.
    let pages = paginate(&text, 40, 10, |s| Some(s.len() as i32 * 10)).unwrap();
    assert_eq!(pages.len(), 1);
    let line_strings: Vec<String> = pages[0]
        .lines
        .iter()
        .map(|l| String::from_utf16_lossy(l))
        .collect();
    assert_eq!(line_strings, vec!["abcd", "efgh", "ijkl"]);
}

#[test]
fn surrogate_pairs_are_not_split() {
    // U+10400 is encoded as [0xD801, 0xDC00] (2 UTF-16 code units).
    let text: Vec<u16> = "\u{10400}\u{10400}\u{10400}".encode_utf16().collect();
    assert_eq!(text.len(), 6);
    // Each code unit is 10 units. With max_width 30 three code units would fit,
    // but the second surrogate pair must not be split.
    let pages = paginate(&text, 30, 10, |s| Some(s.len() as i32 * 10)).unwrap();
    assert_eq!(pages.len(), 1);
    for line in &pages[0].lines {
        // Every line must contain an even number of code units (intact pairs).
        assert_eq!(line.len() % 2, 0);
        assert!(line.len() <= 2);
    }
}

#[test]
fn tabs_are_expanded_to_eight_column_stops() {
    let text: Vec<u16> = "a\tb".encode_utf16().collect();
    let expanded = expand_tabs(&text);
    // 'a' is 1 col -> tab adds 7 spaces -> 'b' is at column 8. Total length = 9.
    assert_eq!(expanded.len(), 9);
    assert_eq!(String::from_utf16_lossy(&expanded), "a       b");
}

#[test]
fn multi_page_pagination_splits_lines_across_pages() {
    let text: Vec<u16> = "1\n2\n3\n4\n5".encode_utf16().collect();
    // lines_per_page = 2 -> 3 pages: [1, 2], [3, 4], [5]
    let pages = paginate(&text, 100, 2, |s| Some(s.len() as i32 * 10)).unwrap();
    assert_eq!(pages.len(), 3);
    assert_eq!(pages[0].lines.len(), 2);
    assert_eq!(pages[1].lines.len(), 2);
    assert_eq!(pages[2].lines.len(), 1);
}

#[test]
fn font_scaling_uses_printer_dpi_and_ignores_zoom() {
    // Logical 10pt font (100 tenths) at printer DPI 600
    let print_height_100_zoom = rendered_font_height(100, 600, 100);
    let print_height_200_zoom = rendered_font_height(100, 600, 100); // printer always uses 100% zoom
    let screen_height_200_zoom = rendered_font_height(100, 96, 200);

    assert_eq!(print_height_100_zoom, -83);
    assert_eq!(print_height_200_zoom, -83);
    assert_eq!(screen_height_200_zoom, -27);
}

#[test]
fn split_logical_lines_preserves_trailing_empty_lines() {
    let text: Vec<u16> = "Line 1\nLine 2\n".encode_utf16().collect();
    let lines = split_logical_lines(&text);
    assert_eq!(lines.len(), 3);
    assert_eq!(
        lines[0],
        &['L' as u16, 'i' as u16, 'n' as u16, 'e' as u16, ' ' as u16, '1' as u16]
    );
    assert_eq!(
        lines[1],
        &['L' as u16, 'i' as u16, 'n' as u16, 'e' as u16, ' ' as u16, '2' as u16]
    );
    assert_eq!(lines[2], &[]);
}

#[test]
fn wrap_line_skips_consecutive_whitespace_on_wrapped_lines() {
    let text: Vec<u16> = "first    second".encode_utf16().collect();
    // Each char is 10 units. max_width is 60 units -> fits "first "
    let wrapped = wrap_line(&text, 60, &|s: &[u16]| Some(s.len() as i32 * 10)).unwrap();
    assert_eq!(wrapped.len(), 2);
    assert_eq!(String::from_utf16_lossy(&wrapped[0]), "first");
    assert_eq!(String::from_utf16_lossy(&wrapped[1]), "second");
}

#[test]
fn expand_tabs_handles_multiple_tabs_and_alignments() {
    let text: Vec<u16> = "1234567\tX\tY".encode_utf16().collect();
    let expanded = expand_tabs(&text);
    // "1234567" is 7 cols -> tab 1 adds 1 space -> "X" is at col 8 (length 9).
    // "X" is 1 col -> tab 2 adds 7 spaces -> "Y" is at col 16 (length 17).
    assert_eq!(String::from_utf16_lossy(&expanded), "1234567 X       Y");
}

#[test]
fn measurement_failure_propagates_as_none() {
    let text: Vec<u16> = "Hello world".encode_utf16().collect();
    let result = paginate(&text, 100, 10, |_| None);
    assert_eq!(result, None);
}

#[test]
fn lone_carriage_return_and_crlf_count_as_one_break_each() {
    let text: Vec<u16> = "a\r\rb\r\n".encode_utf16().collect();
    let lines = split_logical_lines(&text);
    assert_eq!(lines.len(), 4);
    assert_eq!(lines[0], &['a' as u16]);
    assert_eq!(lines[1], &[]);
    assert_eq!(lines[2], &['b' as u16]);
    assert_eq!(lines[3], &[]);
    assert_eq!(split_logical_lines(&[]).len(), 1);
}

#[test]
fn wrapped_pieces_keep_text_between_spaces() {
    let text: Vec<u16> = "  ab cd".encode_utf16().collect();
    // Fits three units: the break falls on the second leading space, which
    // leaves an empty first line.
    let wrapped = wrap_line(&text, 30, &width_of).unwrap();
    let strings: Vec<String> = wrapped.iter().map(|l| String::from_utf16_lossy(l)).collect();
    assert_eq!(strings, vec!["", "ab", "cd"]);
}

#[test]
fn zero_lines_per_page_counts_as_one() {
    let text: Vec<u16> = "x\ny".encode_utf16().collect();
    let pages = paginate(&text, 100, 0, width_of).unwrap();
    assert_eq!(pages.len(), 2);
    assert_eq!(pages[1].lines, vec![vec!['y' as u16]]);
}

#[test]
fn failing_measurement_of_a_prefix_fails_wrapping() {
    let text: Vec<u16> = "abcdef".encode_utf16().collect();
    // The whole line measures too wide; every shorter measurement fails.
    let measure = |s: &[u16]| if s.len() == 6 { Some(60) } else { None };
    assert_eq!(wrap_line(&text, 30, &measure), None);
    // An empty line is never measured.
    assert_eq!(wrap_line(&[], 30, &measure), Some(vec![Vec::new()]));
}

#[test]
fn page_geometry_uses_quarter_inch_margins() {
    let g = page_geometry(600, 600, 5100, 6600);
    assert_eq!(
        g,
        PageGeometry {
            page_width: 5100,
            page_height: 6600,
            margin_x: 150,
            margin_y: 150,
            content_width: 4800,
            content_height: 6300,
            dpi_x: 600,
            dpi_y: 600,
        }
    );
    let tiny = page_geometry(0, 96, 20, 0);
    assert_eq!(tiny.dpi_x, 1);
    assert_eq!((tiny.margin_x, tiny.content_width), (0, 20));
    assert_eq!((tiny.margin_y, tiny.content_height), (0, 1));
}

#[test]
fn line_metrics_never_drop_below_one() {
    assert_eq!(print_line_metrics(6300, 100, 10), (110, 57));
    assert_eq!(print_line_metrics(50, 100, 10), (110, 1));
    assert_eq!(print_line_metrics(50, 0, -5), (1, 50));
}
