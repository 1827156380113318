use notepad_classic::localization::{
    emergency_text, english_string_from_block, format_units, push_decimal, string_block,
    string_load_step, text, without_trailing_nul, FormatArg, StringLoadStep,
};

fn wide(text: &str) -> Vec<u16> {
    text.encode_utf16().collect()
}

fn wide_nul(text: &str) -> Vec<u16> {
    let mut units = wide(text);
    units.push(0);
    units
}

const EMERGENCY: &str = "Notepad Classic could not load a required language resource.";

#[test]
fn formatting_supports_reordered_repeated_and_literal_percent_arguments() {
    let template: Vec<u16> = "%2 %1 %2 %%".encode_utf16().collect();
    let formatted = format_units(
        &template,
        &[FormatArg::Unsigned(7), FormatArg::Wide(&['é' as u16])],
    )
    .unwrap();
    assert_eq!(
        String::from_utf16_lossy(without_trailing_nul(&formatted)),
        "é 7 é %"
    );
}

#[test]
fn formatting_preserves_unpaired_utf16_path_units() {
    let path = [b'C' as u16, b':' as u16, b'\\' as u16, 0xD800];
    let template: Vec<u16> = "%1".encode_utf16().collect();
    let output = format_units(&template, &[FormatArg::Os(&path)]).unwrap();
    assert_eq!(without_trailing_nul(&output), &path[..]);
}

#[test]
fn formatted_output_is_nul_terminated() {
    let output = format_units(&wide("a%1b"), &[FormatArg::Unsigned(0)]).unwrap();
    assert_eq!(output, wide_nul("a0b"));
}

#[test]
fn placeholder_without_argument_fails() {
    assert_eq!(format_units(&wide("%2"), &[FormatArg::Unsigned(1)]), None);
    assert_eq!(format_units(&wide("%0"), &[FormatArg::Unsigned(1)]), None);
}

#[test]
fn stray_percent_is_rejected() {
    assert_eq!(format_units(&wide("50%"), &[]), None);
    assert_eq!(format_units(&wide("%x"), &[]), None);
}

#[test]
fn multi_digit_placeholders_are_read_whole() {
    let args: Vec<FormatArg> = (1..=12u64).map(FormatArg::Unsigned).collect();
    let output = format_units(&wide("%12-%1"), &args).unwrap();
    assert_eq!(output, wide_nul("12-1"));
}

#[test]
fn plain_template_formats_to_itself() {
    let output = format_units(&wide("no placeholders"), &[]).unwrap();
    assert_eq!(output, wide_nul("no placeholders"));
}

#[test]
fn decimal_digits_are_written_most_significant_first() {
    let mut out = wide("n=");
    push_decimal(&mut out, 18446744073709551615);
    assert_eq!(out, wide("n=18446744073709551615"));
    let mut zero = Vec::new();
    push_decimal(&mut zero, 0);
    assert_eq!(zero, wide("0"));
}

#[test]
fn trailing_nul_is_removed_once() {
    assert_eq!(without_trailing_nul(&[65, 0, 0]), &[65, 0][..]);
    assert_eq!(without_trailing_nul(&[65]), &[65][..]);
    assert_eq!(without_trailing_nul(&[]), &[][..]);
}

#[test]
fn missing_string_falls_back_to_emergency_text() {
    assert_eq!(text(None), wide_nul(EMERGENCY));
    assert_eq!(emergency_text(), wide_nul(EMERGENCY));
    assert_eq!(text(Some(wide_nul("Open"))), wide_nul("Open"));
}

#[test]
fn format_fills_the_loaded_template() {
    let template = wide_nul("Line %1 of %2");
    let result = notepad_classic::localization::format(Some(template), &[FormatArg::Unsigned(3), FormatArg::Unsigned(10)]);
    assert_eq!(result, wide_nul("Line 3 of 10"));
}

#[test]
fn format_falls_back_when_the_template_does_not_format() {
    let result = notepad_classic::localization::format(Some(wide_nul("%3")), &[FormatArg::Unsigned(3)]);
    assert_eq!(result, wide_nul(EMERGENCY));
    assert_eq!(notepad_classic::localization::format(None, &[]), wide_nul(EMERGENCY));
}

#[test]
fn string_block_entries_are_length_prefixed() {
    // Entries: "" (slot 0), "Hi" (slot 1), "abc" (slot 2), then empties.
    let mut block = vec![0u16, 2, 72, 105, 3, 97, 98, 99];
    block.extend(std::iter::repeat(0).take(13));
    assert_eq!(english_string_from_block(&block, 1), Some(wide_nul("Hi")));
    assert_eq!(english_string_from_block(&block, 2), Some(wide_nul("abc")));
    assert_eq!(english_string_from_block(&block, 0), None);
    assert_eq!(english_string_from_block(&block, 5), None);
    assert_eq!(english_string_from_block(&block, 16), None);
}

#[test]
fn truncated_string_block_gives_nothing() {
    assert_eq!(english_string_from_block(&[5, 65, 66], 0), None);
    assert_eq!(english_string_from_block(&[], 0), None);
}

#[test]
fn string_ids_map_to_sixteen_entry_blocks() {
    assert_eq!(string_block(0), Some((1, 0)));
    assert_eq!(string_block(15), Some((1, 15)));
    assert_eq!(string_block(16), Some((2, 0)));
    assert_eq!(string_block(1234), Some((78, 2)));
}

#[test]
fn string_loading_retries_until_the_string_fits() {
    assert!(matches!(string_load_step(vec![0; 8], 0, 8), StringLoadStep::Done(None)));
    match string_load_step(vec![72, 105, 0, 0, 0, 0, 0, 0], 2, 8) {
        StringLoadStep::Done(Some(units)) => assert_eq!(units, wide_nul("Hi")),
        _ => panic!("a short string is complete"),
    }
    assert!(matches!(string_load_step(vec![65; 8], 7, 8), StringLoadStep::Retry(16)));
    assert!(matches!(string_load_step(vec![65; 8], 8, 8), StringLoadStep::Retry(16)));
    assert!(matches!(string_load_step(vec![65, 0], 1, 2), StringLoadStep::Retry(4)));
}
