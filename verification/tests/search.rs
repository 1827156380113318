use notepad_classic::search::{
    decode_surrogate_pair, find_utf16, nul_terminated_slice, replace_all_utf16, scalar_after,
    scalar_before, selection_matches, whole_word_at,
};
use windows_sys::Win32::UI::Controls::Dialogs::{FR_DOWN, FR_MATCHCASE, FR_WHOLEWORD};

/// Case-insensitive comparison for these tests.  On Windows the editor uses
/// `CompareStringOrdinal` with case ignored, which only Windows provides;
/// for the ASCII texts below both agree.
fn ignore_case(left: &[u16], right: &[u16]) -> bool {
    String::from_utf16_lossy(left).to_lowercase() == String::from_utf16_lossy(right).to_lowercase()
}

fn wide(text: &str) -> Vec<u16> {
    text.encode_utf16().collect()
}

#[test]
fn finds_forward_and_backward_in_utf16_offsets() {
    let text: Vec<u16> = "one two one".encode_utf16().collect();
    let needle: Vec<u16> = "one".encode_utf16().collect();
    assert_eq!(find_utf16(&text, &needle, 0, true, FR_DOWN, &ignore_case), Some(0));
    assert_eq!(find_utf16(&text, &needle, 4, true, FR_DOWN, &ignore_case), Some(8));
    assert_eq!(find_utf16(&text, &needle, text.len(), false, 0, &ignore_case), Some(8));
}

#[test]
fn case_and_whole_word_options_are_respected() {
    let text: Vec<u16> = "Cat category cat".encode_utf16().collect();
    let needle: Vec<u16> = "cat".encode_utf16().collect();
    assert_eq!(
        find_utf16(&text, &needle, 0, true, FR_DOWN | FR_WHOLEWORD, &ignore_case),
        Some(0)
    );
    assert_eq!(
        find_utf16(
            &text,
            &needle,
            0,
            true,
            FR_DOWN | FR_WHOLEWORD | FR_MATCHCASE,
            &ignore_case,
        ),
        Some(13)
    );
}

#[test]
fn whole_word_replacement_rejects_a_partial_selection() {
    let text: Vec<u16> = "category cat".encode_utf16().collect();
    let needle: Vec<u16> = "cat".encode_utf16().collect();
    assert!(!selection_matches(&text, 0, 3, &needle, FR_WHOLEWORD, &ignore_case));
    assert!(selection_matches(&text, 9, 12, &needle, FR_WHOLEWORD, &ignore_case));
}

#[test]
fn replace_all_uses_non_overlapping_matches() {
    let input: Vec<u16> = "ababa".encode_utf16().collect();
    let needle: Vec<u16> = "aba".encode_utf16().collect();
    let replacement: Vec<u16> = "X".encode_utf16().collect();
    let (output, count) = replace_all_utf16(&input, &needle, &replacement, FR_MATCHCASE, &ignore_case);
    assert_eq!(String::from_utf16_lossy(&output), "Xba");
    assert_eq!(count, 1);
}

#[test]
fn replace_all_respects_case_matching() {
    let input: Vec<u16> = "Cat cat".encode_utf16().collect();
    let needle: Vec<u16> = "cat".encode_utf16().collect();
    let replacement: Vec<u16> = "dog".encode_utf16().collect();

    let (insensitive, insensitive_count) =
        replace_all_utf16(&input, &needle, &replacement, 0, &ignore_case);
    assert_eq!(String::from_utf16_lossy(&insensitive), "dog dog");
    assert_eq!(insensitive_count, 2);

    let (sensitive, sensitive_count) =
        replace_all_utf16(&input, &needle, &replacement, FR_MATCHCASE, &ignore_case);
    assert_eq!(String::from_utf16_lossy(&sensitive), "Cat dog");
    assert_eq!(sensitive_count, 1);
}

#[test]
fn replace_all_respects_whole_word_boundaries() {
    let input: Vec<u16> = "cat category cat_ cat".encode_utf16().collect();
    let needle: Vec<u16> = "cat".encode_utf16().collect();
    let replacement: Vec<u16> = "dog".encode_utf16().collect();
    let (output, count) = replace_all_utf16(&input, &needle, &replacement, FR_WHOLEWORD, &ignore_case);
    assert_eq!(String::from_utf16_lossy(&output), "dog category cat_ dog");
    assert_eq!(count, 2);
}

#[test]
fn word_boundaries_treat_digits_and_underscores_as_word_characters() {
    let text: Vec<u16> = "var var_name var2 (var) var-name".encode_utf16().collect();
    let needle: Vec<u16> = "var".encode_utf16().collect();
    let replacement: Vec<u16> = "x".encode_utf16().collect();
    let (output, count) = replace_all_utf16(&text, &needle, &replacement, FR_WHOLEWORD, &ignore_case);
    assert_eq!(
        String::from_utf16_lossy(&output),
        "x var_name var2 (x) x-name"
    );
    assert_eq!(count, 3);
}

#[test]
fn whole_word_boundaries_decode_supplementary_alphanumeric_scalars() {
    let before: Vec<u16> = "\u{10400}cat".encode_utf16().collect();
    let after: Vec<u16> = "cat\u{10400}".encode_utf16().collect();
    let separated: Vec<u16> = "\u{10400} cat".encode_utf16().collect();

    assert!(!whole_word_at(&before, 2, 3));
    assert!(!whole_word_at(&after, 0, 3));
    assert!(whole_word_at(&separated, 3, 3));

    let needle: Vec<u16> = "cat".encode_utf16().collect();
    assert_eq!(
        find_utf16(&separated, &needle, 0, true, FR_DOWN | FR_WHOLEWORD, &ignore_case),
        Some(3)
    );
}

#[test]
fn isolated_surrogates_are_non_word_boundaries() {
    let before = [0xD800, b'c' as u16, b'a' as u16, b't' as u16];
    let after = [b'c' as u16, b'a' as u16, b't' as u16, 0xDC00];

    assert!(whole_word_at(&before, 1, 3));
    assert!(whole_word_at(&after, 0, 3));
    assert_eq!(scalar_before(&before, 1), None);
    assert_eq!(scalar_after(&after, 3), None);
}

#[test]
fn searching_up_only_finds_matches_ending_before_the_caret() {
    let text = wide("ab ab ab");
    let needle = wide("ab");
    assert_eq!(find_utf16(&text, &needle, 4, false, 0, &ignore_case), Some(0));
    assert_eq!(find_utf16(&text, &needle, 5, false, 0, &ignore_case), Some(3));
    assert_eq!(find_utf16(&text, &needle, 1, false, 0, &ignore_case), None);
    assert_eq!(find_utf16(&text, &needle, 7, true, FR_DOWN, &ignore_case), None);
    assert_eq!(find_utf16(&text, &needle, 99, true, FR_DOWN, &ignore_case), None);
}

#[test]
fn empty_or_oversized_needles_are_never_found() {
    let text = wide("abc");
    assert_eq!(find_utf16(&text, &[], 0, true, FR_DOWN, &ignore_case), None);
    assert_eq!(find_utf16(&text, &wide("abcd"), 0, true, FR_DOWN, &ignore_case), None);
    let (output, count) = replace_all_utf16(&text, &[], &wide("x"), 0, &ignore_case);
    assert_eq!((output, count), (text.clone(), 0));
}

#[test]
fn replacing_a_needle_by_itself_changes_nothing() {
    let text = wide("aaa aa a");
    let needle = wide("aa");
    let (output, count) = replace_all_utf16(&text, &needle, &needle, FR_MATCHCASE, &ignore_case);
    assert_eq!(output, text);
    assert_eq!(count, 2);
    let (longer, n) = replace_all_utf16(&text, &needle, &wide("bbbb"), FR_MATCHCASE, &ignore_case);
    assert_eq!(longer.len(), text.len() + n * 2);
}

#[test]
fn non_ascii_letters_and_digits_are_word_characters() {
    let text = wide("écat cat٣ cat");
    let needle = wide("cat");
    assert_eq!(find_utf16(&text, &needle, 0, true, FR_DOWN | FR_WHOLEWORD, &ignore_case), Some(10));
}

#[test]
fn surrogate_pairs_decode_to_their_scalar() {
    assert_eq!(decode_surrogate_pair(0xD801, 0xDC00), Some('\u{10400}'));
    assert_eq!(decode_surrogate_pair(0xDBFF, 0xDFFF), Some('\u{10FFFF}'));
    assert_eq!(decode_surrogate_pair(0xDC00, 0xD801), None);
    assert_eq!(scalar_before(&[b'a' as u16], 1), Some('a'));
    assert_eq!(scalar_after(&[0xD801, 0xDC00], 0), Some('\u{10400}'));
}

#[test]
fn dialog_buffers_end_at_the_first_nul() {
    assert_eq!(nul_terminated_slice(&[b'a' as u16, 0, b'b' as u16]), &[b'a' as u16]);
    assert_eq!(nul_terminated_slice(&[b'a' as u16, b'b' as u16]), &[b'a' as u16, b'b' as u16]);
}
