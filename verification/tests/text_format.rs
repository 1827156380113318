use notepad_classic::text_format::{
    bom_bytes, default_format, detect_bom, detect_newline, loaded_encoding, newline_text,
    Encoding, Newline, TextFormat,
};

fn units(text: &str) -> Vec<u16> {
    text.encode_utf16().collect()
}

#[test]
fn new_documents_are_utf8_without_a_mark() {
    assert_eq!(
        default_format(),
        TextFormat {
            encoding: Encoding::Utf8,
            newline: Newline::CrLf,
        }
    );
    assert!(bom_bytes(Encoding::Utf8).is_empty());
}

#[test]
fn byte_order_marks_are_recognized_and_skipped() {
    let utf8 = [0xEF, 0xBB, 0xBF, b'h', b'i'];
    assert_eq!(detect_bom(&utf8), (Some(Encoding::Utf8Bom), &utf8[3..]));
    let utf16 = [0xFF, 0xFE, b'h', 0];
    assert_eq!(detect_bom(&utf16), (Some(Encoding::Utf16Le), &utf16[2..]));
    let plain = [b'h', b'i'];
    assert_eq!(detect_bom(&plain), (None, &plain[..]));
    let partial = [0xEF, 0xBB];
    assert_eq!(detect_bom(&partial), (None, &partial[..]));
    assert_eq!(detect_bom(&[]), (None, &[][..]));
}

#[test]
fn marked_files_keep_their_encoding_and_others_become_utf8() {
    assert_eq!(loaded_encoding(Some(Encoding::Utf8Bom)), Encoding::Utf8Bom);
    assert_eq!(loaded_encoding(Some(Encoding::Utf16Le)), Encoding::Utf16Le);
    assert_eq!(loaded_encoding(None), Encoding::Utf8);
}

#[test]
fn saved_marks_match_the_encoding() {
    assert_eq!(bom_bytes(Encoding::Utf8Bom), vec![0xEF, 0xBB, 0xBF]);
    assert_eq!(bom_bytes(Encoding::Utf16Le), vec![0xFF, 0xFE]);
    let mark = bom_bytes(Encoding::Utf16Le);
    let (marked, rest) = detect_bom(&mark);
    assert_eq!(marked, Some(Encoding::Utf16Le));
    assert!(rest.is_empty());
}

#[test]
fn the_first_line_break_decides_the_newline() {
    assert_eq!(detect_newline(&units("a\r\nb\nc")), Newline::CrLf);
    assert_eq!(detect_newline(&units("a\nb\r\nc")), Newline::Lf);
    assert_eq!(detect_newline(&units("a\rb")), Newline::Cr);
    assert_eq!(detect_newline(&units("a\r")), Newline::Cr);
    assert_eq!(detect_newline(&units("single line")), Newline::CrLf);
    assert_eq!(newline_text(Newline::Lf), "\n");
    assert_eq!(newline_text(Newline::CrLf), "\r\n");
    assert_eq!(newline_text(Newline::Cr), "\r");
}

#[test]
fn a_saved_mark_reads_back_as_its_encoding() {
    for encoding in [Encoding::Utf8Bom, Encoding::Utf16Le] {
        let mut bytes = bom_bytes(encoding);
        bytes.extend_from_slice(&[0xEF, 0xBB, 0xBF, b'x']);
        let (marked, rest) = detect_bom(&bytes);
        assert_eq!(marked, Some(encoding));
        assert_eq!(loaded_encoding(marked), encoding);
        assert_eq!(rest, &[0xEF, 0xBB, 0xBF, b'x'][..]);
    }
}
