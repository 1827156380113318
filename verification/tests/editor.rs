use notepad_classic::editor::{
    accumulate_wheel_delta, append_log_entry, calculate_status_parts, dpi_from_wparam, editor_height,
    go_to_line_index, is_log_document, menu_state, rendered_font_height, status_is_visible,
    status_text_width, stepped_zoom_index, window_title, zoom_percent, DEFAULT_ZOOM_INDEX,
    ZOOM_LEVEL_COUNT,
};

#[test]
fn log_entry_is_appended_only_to_dot_log_documents() {
    let mut log = ".LOG\r\nfirst entry".to_owned();
    assert!(append_log_entry(&mut log, "10:30 AM 8/26/2026"));
    assert_eq!(log, ".LOG\r\nfirst entry\r\n10:30 AM 8/26/2026\r\n");

    let mut ordinary = "ordinary text".to_owned();
    assert!(!append_log_entry(&mut ordinary, "ignored"));
    assert_eq!(ordinary, "ordinary text");

    let mut marker_only = ".LOG".to_owned();
    assert!(append_log_entry(&mut marker_only, "10:30 AM 8/26/2026"));
    assert_eq!(marker_only, ".LOG\r\n10:30 AM 8/26/2026\r\n");

    assert!(is_log_document(".LOG\n"));
    assert!(is_log_document(".LOG\r"));
    assert!(!is_log_document(".LOGGER"));
}

#[test]
fn default_zoom_is_100_percent() {
    assert_eq!(zoom_percent(DEFAULT_ZOOM_INDEX), 100);
}

#[test]
fn zoom_steps_through_the_fixed_scale() {
    assert_eq!(zoom_percent(stepped_zoom_index(DEFAULT_ZOOM_INDEX, 1)), 110);
    assert_eq!(zoom_percent(stepped_zoom_index(DEFAULT_ZOOM_INDEX, -1)), 90);
    assert_eq!(zoom_percent(stepped_zoom_index(DEFAULT_ZOOM_INDEX, 3)), 130);
    assert_eq!(zoom_percent(stepped_zoom_index(DEFAULT_ZOOM_INDEX, -3)), 70);
}

#[test]
fn zoom_clamps_at_both_ends() {
    assert_eq!(stepped_zoom_index(0, -1), 0);
    assert_eq!(stepped_zoom_index(0, -99), 0);
    assert_eq!(
        stepped_zoom_index(ZOOM_LEVEL_COUNT - 1, 1),
        ZOOM_LEVEL_COUNT - 1
    );
    assert_eq!(
        stepped_zoom_index(ZOOM_LEVEL_COUNT - 1, 99),
        ZOOM_LEVEL_COUNT - 1
    );
}

#[test]
fn wheel_delta_accumulates_small_positive_inputs() {
    let (steps, remainder) = accumulate_wheel_delta(0, 30);
    assert_eq!((steps, remainder), (0, 30));
    let (steps, remainder) = accumulate_wheel_delta(remainder, 30);
    assert_eq!((steps, remainder), (0, 60));
    assert_eq!(accumulate_wheel_delta(remainder, 60), (1, 0));
}

#[test]
fn wheel_delta_accumulates_small_negative_inputs() {
    let (steps, remainder) = accumulate_wheel_delta(0, -40);
    assert_eq!((steps, remainder), (0, -40));
    let (steps, remainder) = accumulate_wheel_delta(remainder, -40);
    assert_eq!((steps, remainder), (0, -80));
    assert_eq!(accumulate_wheel_delta(remainder, -40), (-1, 0));
}

#[test]
fn wheel_delta_handles_multiple_detents_and_direction_changes() {
    assert_eq!(accumulate_wheel_delta(0, 240), (2, 0));
    assert_eq!(accumulate_wheel_delta(100, -40), (0, 60));
    assert_eq!(accumulate_wheel_delta(60, -180), (-1, 0));
}

#[test]
fn wheel_delta_keeps_only_a_bounded_remainder() {
    let (_, remainder) = accumulate_wheel_delta(i32::MAX, i32::MAX);
    assert!((-119..=119).contains(&remainder));
}

#[test]
fn restore_default_zoom_returns_to_100_percent() {
    let current = stepped_zoom_index(DEFAULT_ZOOM_INDEX, 11);
    let restored = stepped_zoom_index(current, DEFAULT_ZOOM_INDEX as i32 - current as i32);
    assert_eq!(zoom_percent(restored), 100);
}

#[test]
fn rendered_font_height_combines_logical_size_dpi_and_zoom() {
    assert_eq!(rendered_font_height(100, 96, 100), -13);
    assert_eq!(rendered_font_height(100, 96, 150), -20);
    assert_eq!(rendered_font_height(100, 192, 150), -40);
}

#[test]
fn rendered_font_height_does_not_cumulate_scaling() {
    let at_150_percent = rendered_font_height(100, 96, 150);
    let after_dpi_change = rendered_font_height(100, 192, 150);
    let reset_at_original_dpi = rendered_font_height(100, 96, 100);

    assert_eq!(at_150_percent, -20);
    assert_eq!(after_dpi_change, -40);
    assert_eq!(reset_at_original_dpi, -13);
}

#[test]
fn unusual_logical_font_sizes_are_scaled_safely() {
    assert_eq!(rendered_font_height(1, 96, 10), -1);
    assert_eq!(rendered_font_height(55, 144, 500), -55);
    assert_eq!(rendered_font_height(1234, 120, 250), -514);
}

#[test]
fn calculate_status_parts_divides_normal_window_width() {
    let parts = calculate_status_parts(800, &[72, 120, 100]);
    assert_eq!(parts, vec![508, 580, 700, -1]);
}

#[test]
fn calculate_status_parts_degrades_gracefully_in_narrow_windows() {
    let parts = calculate_status_parts(200, &[72, 120, 100]);
    assert_eq!(parts, vec![0, 0, 100, -1]);
}

#[test]
fn calculate_status_parts_handles_zero_and_negative_client_widths() {
    let parts_zero = calculate_status_parts(0, &[72, 120, 100]);
    assert_eq!(parts_zero, vec![0, 0, 0, -1]);

    let parts_neg = calculate_status_parts(-50, &[72, 120, 100]);
    assert_eq!(parts_neg, vec![0, 0, 0, -1]);
}

#[test]
fn calculate_status_parts_handles_empty_or_single_right_widths() {
    let parts_empty = calculate_status_parts(800, &[]);
    assert_eq!(parts_empty, vec![-1]);

    let parts_single = calculate_status_parts(800, &[72]);
    assert_eq!(parts_single, vec![728, -1]);
}

#[test]
fn negative_status_widths_count_as_zero() {
    assert_eq!(calculate_status_parts(300, &[-10, 100]), vec![200, 200, -1]);
}

#[test]
fn zoom_off_the_scale_reads_as_the_default() {
    assert_eq!(zoom_percent(ZOOM_LEVEL_COUNT), 100);
    assert_eq!(zoom_percent(0), 10);
    assert_eq!(zoom_percent(ZOOM_LEVEL_COUNT - 1), 500);
    assert_eq!(stepped_zoom_index(5, i32::MIN), 0);
}

#[test]
fn word_wrap_hides_the_status_bar_and_go_to() {
    let state = menu_state(true, true, DEFAULT_ZOOM_INDEX);
    assert!(state.word_wrap_checked);
    assert!(!state.status_bar_checked && !state.status_bar_enabled && !state.go_to_enabled);
    assert!(state.zoom_in_enabled && state.zoom_out_enabled && !state.zoom_default_enabled);
    let at_top = menu_state(false, true, ZOOM_LEVEL_COUNT - 1);
    assert!(at_top.status_bar_checked && at_top.go_to_enabled);
    assert!(!at_top.zoom_in_enabled && at_top.zoom_default_enabled);
    assert!(!menu_state(false, false, 0).zoom_out_enabled);
    assert!(status_is_visible(true, false));
    assert!(!status_is_visible(true, true));
}

#[test]
fn log_entries_do_not_double_line_breaks() {
    let mut text = ".LOG\nentry\n".to_owned();
    assert!(append_log_entry(&mut text, "now"));
    assert_eq!(text, ".LOG\nentry\nnow\r\n");
    assert!(!is_log_document(".lo"));
    assert!(!is_log_document(".log"));
}

#[test]
fn go_to_line_accepts_only_existing_lines() {
    assert_eq!(go_to_line_index(0, 5), None);
    assert_eq!(go_to_line_index(6, 5), None);
    assert_eq!(go_to_line_index(1, 5), Some(0));
    assert_eq!(go_to_line_index(5, 5), Some(4));
}

#[test]
fn dpi_change_reads_the_high_word() {
    assert_eq!(dpi_from_wparam(144 << 16 | 144), 144);
    assert_eq!(dpi_from_wparam(72 << 16), 96);
}

#[test]
fn window_title_marks_unsaved_changes() {
    let localized: Vec<u16> = "notes.txt - Notepad Classic\0".encode_utf16().collect();
    let clean: Vec<u16> = "notes.txt - Notepad Classic\0".encode_utf16().collect();
    let dirty: Vec<u16> = "*notes.txt - Notepad Classic\0".encode_utf16().collect();
    assert_eq!(window_title(false, &localized), clean);
    assert_eq!(window_title(true, &localized), dirty);
    assert_eq!(window_title(true, &[]), vec![42, 0]);
}

#[test]
fn status_part_width_adds_scaled_padding() {
    assert_eq!(status_text_width(Some(50), 96), 66);
    assert_eq!(status_text_width(Some(50), 144), 74);
    assert_eq!(status_text_width(Some(-5), 96), 16);
    assert_eq!(status_text_width(None, 192), 32);
    assert_eq!(status_text_width(None, 0), 0);
}

#[test]
fn editor_fills_the_client_area_above_the_status_bar() {
    assert_eq!(editor_height(600, 22), 578);
    assert_eq!(editor_height(600, 0), 600);
    assert_eq!(editor_height(10, 22), 0);
}
