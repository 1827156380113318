use notepad_classic::dialogs::{
    centered_origin, escape_sys_link_label, file_filter, os_error, parse_line_number, push_char_units,
    save_decision, scale_for_dpi, sys_link, to_wide, SaveDecision, IDCANCEL, IDNO, IDYES,
    LICENSE_URL, REPOSITORY_URL, THREADS_URL,
};

fn units(text: &str) -> Vec<u16> {
    text.encode_utf16().collect()
}

#[test]
fn file_filters_localize_labels_but_preserve_file_patterns() {
    assert_eq!(
        file_filter(&to_wide("Text Documents"), &to_wide("All Files")),
        to_wide("Text Documents (*.txt)\0*.txt\0All Files (*.*)\0*.*\0")
    );
}

#[test]
fn file_filter_labels_follow_the_loaded_language() {
    assert_eq!(
        file_filter(&to_wide("Textdokumente"), &to_wide("Alle Dateien")),
        to_wide("Textdokumente (*.txt)\0*.txt\0Alle Dateien (*.*)\0*.*\0")
    );
}

#[test]
fn scale_for_dpi_scales_proportionally() {
    // 96 DPI (100% scale)
    assert_eq!(scale_for_dpi(380, 96), 380);
    assert_eq!(scale_for_dpi(260, 96), 260);
    assert_eq!(scale_for_dpi(32, 96), 32);

    // 120 DPI (125% scale)
    assert_eq!(scale_for_dpi(380, 120), 475);
    assert_eq!(scale_for_dpi(260, 120), 325);
    assert_eq!(scale_for_dpi(32, 120), 40);

    // 144 DPI (150% scale)
    assert_eq!(scale_for_dpi(380, 144), 570);
    assert_eq!(scale_for_dpi(260, 144), 390);
    assert_eq!(scale_for_dpi(32, 144), 48);

    // 192 DPI (200% scale)
    assert_eq!(scale_for_dpi(380, 192), 760);
    assert_eq!(scale_for_dpi(260, 192), 520);
    assert_eq!(scale_for_dpi(32, 192), 64);
}

#[test]
fn scale_for_dpi_rounds_to_nearest_and_truncates_negatives_toward_zero() {
    assert_eq!(scale_for_dpi(1, 144), 2);
    assert_eq!(scale_for_dpi(1, 96), 1);
    assert_eq!(scale_for_dpi(-1, 96), 0);
    assert_eq!(scale_for_dpi(-100, 96), -99);
    assert_eq!(scale_for_dpi(0, 0), 0);
}

#[test]
fn about_dialog_hyperlinks_keep_fixed_targets() {
    let links = [
        (REPOSITORY_URL, "Source code"),
        (LICENSE_URL, "License"),
        (THREADS_URL, "Threads"),
    ];

    for (url, label) in links {
        let link = sys_link(url, label);
        assert!(link.starts_with("<a href=\"https://"));
        assert!(link.ends_with("</a>"));
        assert!(link.contains(url));
    }
}

#[test]
fn sys_link_wraps_the_escaped_label() {
    assert_eq!(
        sys_link("https://example.com", "Q&A"),
        "<a href=\"https://example.com\">Q&amp;A</a>"
    );
}

#[test]
fn about_dialog_link_labels_escape_xml_sensitive_text() {
    assert_eq!(
        escape_sys_link_label("A & B <C> \"D\""),
        "A &amp; B &lt;C&gt; &quot;D&quot;"
    );
}

#[test]
fn escaping_leaves_plain_labels_alone() {
    assert_eq!(escape_sys_link_label("Lizenz – ünd 𐐀"), "Lizenz – ünd 𐐀");
    assert_eq!(escape_sys_link_label("&amp;"), "&amp;amp;");
}

#[test]
fn to_wide_appends_a_terminator_and_encodes_supplementary_characters() {
    assert_eq!(to_wide(""), vec![0]);
    assert_eq!(to_wide("A𐐀"), vec![65, 0xD801, 0xDC00, 0]);
    assert_eq!(to_wide("é"), vec![0xE9, 0]);
}

#[test]
fn char_units_are_utf16() {
    let mut out = vec![1u16];
    push_char_units(&mut out, '€');
    push_char_units(&mut out, '😀');
    assert_eq!(out, vec![1, 0x20AC, 0xD83D, 0xDE00]);
}

#[test]
fn os_error_names_the_cause_unless_there_is_none() {
    assert_eq!(os_error("Could not open", Some(0), "ignored"), "Could not open");
    assert_eq!(
        os_error("Could not open", Some(2), "The system cannot find the file specified."),
        "Could not open: The system cannot find the file specified."
    );
    assert_eq!(os_error("Failed", None, "disk full"), "Failed: disk full");
}

#[test]
fn save_prompt_answers_map_to_decisions() {
    assert_eq!(save_decision(IDYES), SaveDecision::Save);
    assert_eq!(save_decision(IDNO), SaveDecision::Discard);
    assert_eq!(save_decision(IDCANCEL), SaveDecision::Cancel);
    assert_eq!(save_decision(0), SaveDecision::Cancel);
}

#[test]
fn go_to_line_reads_trimmed_decimal_numbers() {
    assert_eq!(parse_line_number(&units("42")), Some(42));
    assert_eq!(parse_line_number(&units("  7\t")), Some(7));
    assert_eq!(parse_line_number(&units("\u{3000}15\u{3000}")), Some(15));
    assert_eq!(parse_line_number(&units("+3")), Some(3));
    assert_eq!(parse_line_number(&units("4294967295")), Some(u32::MAX));
}

#[test]
fn go_to_line_rejects_what_is_not_a_line_number() {
    assert_eq!(parse_line_number(&units("")), None);
    assert_eq!(parse_line_number(&units("   ")), None);
    assert_eq!(parse_line_number(&units("-1")), None);
    assert_eq!(parse_line_number(&units("4294967296")), None);
    assert_eq!(parse_line_number(&units("1 2")), None);
    assert_eq!(parse_line_number(&units("+")), None);
    assert_eq!(parse_line_number(&[0x31, 0xD800]), None);
}

#[test]
fn dialogs_are_centred_on_their_owner() {
    assert_eq!(centered_origin(100, 900, 320), 340);
    assert_eq!(centered_origin(-1920, 0, 320), -1120);
    assert_eq!(centered_origin(100, 300, 320), 100);
    assert_eq!(centered_origin(0, 321, 320), 0);
}
