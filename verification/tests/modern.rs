use notepad_classic::printing::modern::{
    modern_print_unavailable, normalize_page_ranges, PrintSessions, E_NOINTERFACE, E_NOTIMPL,
    HRESULT_NOT_SUPPORTED, REGDB_E_CLASSNOTREG, RO_E_METADATA_NAME_NOT_FOUND,
};

const E_FAIL: i32 = 0x8000_4005_u32 as i32;
const E_INVALIDARG: i32 = 0x8007_0057_u32 as i32;

/// `HRESULT_FROM_WIN32` for a Win32 error code.
fn hresult_from_win32(error: u32) -> i32 {
    ((error & 0xFFFF) | (7 << 16) | 0x8000_0000) as i32
}

#[test]
fn print_session_guard_rejects_overlap_and_resets_on_drop() {
    let owner = 0x4E50_4353_isize;
    let mut sessions = PrintSessions::new();
    assert!(sessions.begin_print_session(owner), "first session should start");
    assert!(!sessions.begin_print_session(owner));
    sessions.end_print_session(owner);
    assert!(sessions.begin_print_session(owner));
}

#[test]
fn print_sessions_of_different_windows_are_independent() {
    let mut sessions = PrintSessions::new();
    assert!(sessions.begin_print_session(1));
    assert!(sessions.begin_print_session(2));
    sessions.end_print_session(1);
    assert!(!sessions.begin_print_session(2));
    assert!(sessions.begin_print_session(1));
    sessions.end_print_session(3);
    assert!(!sessions.begin_print_session(1));
}

#[test]
fn fallback_hresult_classification_is_narrow() {
    assert!(modern_print_unavailable(E_NOINTERFACE));
    assert!(modern_print_unavailable(E_NOTIMPL));
    assert!(modern_print_unavailable(REGDB_E_CLASSNOTREG));
    assert!(modern_print_unavailable(RO_E_METADATA_NAME_NOT_FOUND));
    assert!(modern_print_unavailable(hresult_from_win32(50)));
    assert!(!modern_print_unavailable(E_FAIL));
    assert!(!modern_print_unavailable(E_INVALIDARG));
}

#[test]
fn fallback_codes_have_their_documented_values() {
    assert_eq!(E_NOTIMPL as u32, 0x8000_4001);
    assert_eq!(E_NOINTERFACE as u32, 0x8000_4002);
    assert_eq!(RO_E_METADATA_NAME_NOT_FOUND as u32, 0x8000_000F);
    assert_eq!(REGDB_E_CLASSNOTREG as u32, 0x8004_0154);
    assert_eq!(HRESULT_NOT_SUPPORTED as u32, 0x8007_0032);
    assert!(!modern_print_unavailable(0));
}

#[test]
fn page_ranges_are_clamped_sorted_and_deduplicated() {
    assert_eq!(
        normalize_page_ranges(&[(3, 5), (1, 2), (5, 20)], 7),
        vec![0, 1, 2, 3, 4, 5, 6]
    );
}

#[test]
fn invalid_page_ranges_select_nothing() {
    assert!(normalize_page_ranges(&[(0, 0), (9, 12), (4, 2)], 5).is_empty());
}

#[test]
fn page_ranges_below_one_start_at_the_first_page() {
    assert_eq!(normalize_page_ranges(&[(-5, 2), (4, 4)], 10), vec![0, 1, 3]);
    assert!(normalize_page_ranges(&[(1, 3)], 0).is_empty());
}
