//! How a document's bytes are read and written: which encoding a file is in
//! (by its byte-order mark), the mark written back on save, and which line
//! break the document uses.

use vstd::prelude::*;

verus! {

/// The encodings a document keeps when it is saved again.  New documents,
/// and documents read through the ANSI code page, are saved as UTF-8
/// without a byte-order mark.
#[derive(Clone, Copy, Debug, PartialEq, Eq, Structural)]
pub enum Encoding {
    Utf8,
    Utf8Bom,
    Utf16Le,
}

/// The line break a document uses.
#[derive(Clone, Copy, Debug, PartialEq, Eq, Structural)]
pub enum Newline {
    CrLf,
    Lf,
    Cr,
}

/// A document's encoding and line break.
#[derive(Clone, Copy, Debug, PartialEq, Eq, Structural)]
pub struct TextFormat {
    pub encoding: Encoding,
    pub newline: Newline,
}

/// The format of a new document: UTF-8 without a byte-order mark, Windows
/// line breaks.
pub fn default_format() -> (format: TextFormat)
    ensures
        format == (TextFormat { encoding: Encoding::Utf8, newline: Newline::CrLf }),
{
    TextFormat { encoding: Encoding::Utf8, newline: Newline::CrLf }
}

/// The byte-order mark written at the start of a file in `encoding`.
pub open spec fn bom(encoding: Encoding) -> Seq<u8> {
    match encoding {
        Encoding::Utf8 => Seq::empty(),
        Encoding::Utf8Bom => seq![0xEFu8, 0xBBu8, 0xBFu8],
        Encoding::Utf16Le => seq![0xFFu8, 0xFEu8],
    }
}

pub fn bom_bytes(encoding: Encoding) -> (mark: Vec<u8>)
    ensures
        mark@ == bom(encoding),
{
    match encoding {
        Encoding::Utf8 => Vec::new(),
        Encoding::Utf8Bom => {
            let mut mark = Vec::new();
            mark.push(0xEF);
            mark.push(0xBB);
            mark.push(0xBF);
            assert(mark@ =~= bom(encoding));
            mark
        },
        Encoding::Utf16Le => {
            let mut mark = Vec::new();
            mark.push(0xFF);
            mark.push(0xFE);
            assert(mark@ =~= bom(encoding));
            mark
        },
    }
}

/// The encoding that a file's byte-order mark announces, if it starts
/// with one.
pub open spec fn marked_encoding(bytes: Seq<u8>) -> Option<Encoding> {
    if bytes.len() >= 3 && bytes.subrange(0, 3) == bom(Encoding::Utf8Bom) {
        Some(Encoding::Utf8Bom)
    } else if bytes.len() >= 2 && bytes.subrange(0, 2) == bom(Encoding::Utf16Le) {
        Some(Encoding::Utf16Le)
    } else {
        None
    }
}

/// Reads the byte-order mark at the start of a file: the encoding it
/// announces and the bytes after it.
pub fn detect_bom(bytes: &[u8]) -> (r: (Option<Encoding>, &[u8]))
    ensures
        r.0 == marked_encoding(bytes@),
        r.1@ == bytes@.subrange(
            match r.0 {
                Some(encoding) => bom(encoding).len() as int,
                None => 0,
            },
            bytes@.len() as int,
        ),
{
    if bytes.len() >= 3 && bytes[0] == 0xEF && bytes[1] == 0xBB && bytes[2] == 0xBF {
        assert(bytes@.subrange(0, 3) =~= bom(Encoding::Utf8Bom));
        return (Some(Encoding::Utf8Bom), &bytes[3..bytes.len()]);
    }
    assert(bytes@.len() >= 3 ==> bytes@.subrange(0, 3) != bom(Encoding::Utf8Bom)) by {
        if bytes@.len() >= 3 && bytes@.subrange(0, 3) == bom(Encoding::Utf8Bom) {
            assert(bytes@[0] == bytes@.subrange(0, 3)[0]);
            assert(bytes@[1] == bytes@.subrange(0, 3)[1]);
            assert(bytes@[2] == bytes@.subrange(0, 3)[2]);
        }
    }
    if bytes.len() >= 2 && bytes[0] == 0xFF && bytes[1] == 0xFE {
        assert(bytes@.subrange(0, 2) =~= bom(Encoding::Utf16Le));
        return (Some(Encoding::Utf16Le), &bytes[2..bytes.len()]);
    }
    assert(bytes@.len() >= 2 ==> bytes@.subrange(0, 2) != bom(Encoding::Utf16Le)) by {
        if bytes@.len() >= 2 && bytes@.subrange(0, 2) == bom(Encoding::Utf16Le) {
            assert(bytes@[0] == bytes@.subrange(0, 2)[0]);
            assert(bytes@[1] == bytes@.subrange(0, 2)[1]);
        }
    }
    assert(bytes@.subrange(0, bytes@.len() as int) =~= bytes@);
    (None, bytes)
}

/// The encoding a loaded file is saved in again: the one its mark
/// announced; otherwise UTF-8, whether the file was valid UTF-8 or was read
/// through the ANSI code page.
pub fn loaded_encoding(marked: Option<Encoding>) -> (encoding: Encoding)
    ensures
        encoding == match marked {
            Some(e) => e,
            None => Encoding::Utf8,
        },
{
    match marked {
        Some(e) => e,
        None => Encoding::Utf8,
    }
}

/// The first line break of a text, if it has one.
pub open spec fn first_newline(units: Seq<u16>) -> Option<Newline>
    decreases units.len(),
{
    if units.len() == 0 {
        None
    } else if units[0] == 13 {
        if units.len() > 1 && units[1] == 10 {
            Some(Newline::CrLf)
        } else {
            Some(Newline::Cr)
        }
    } else if units[0] == 10 {
        Some(Newline::Lf)
    } else {
        first_newline(units.drop_first())
    }
}

/// The line break a loaded document uses: the kind of its first line
/// break, and Windows line breaks for a text without any.
pub fn detect_newline(units: &[u16]) -> (newline: Newline)
    ensures
        newline == match first_newline(units@) {
            Some(n) => n,
            None => Newline::CrLf,
        },
{
    let mut i: usize = 0;
    assert(units@.subrange(0, units@.len() as int) =~= units@);
    while i < units.len()
        invariant
            i <= units@.len(),
            first_newline(units@) == first_newline(units@.subrange(i as int, units@.len() as int)),
        decreases units@.len() - i,
    {
        let ghost rest = units@.subrange(i as int, units@.len() as int);
        assert(rest[0] == units@[i as int]);
        if units[i] == 13 {
            if i + 1 < units.len() && units[i + 1] == 10 {
                assert(rest[1] == units@[i + 1]);
                return Newline::CrLf;
            }
            proof {
                if rest.len() > 1 {
                    assert(rest[1] == units@[i + 1]);
                }
            }
            return Newline::Cr;
        }
        if units[i] == 10 {
            return Newline::Lf;
        }
        assert(rest.drop_first() =~= units@.subrange(i + 1, units@.len() as int));
        i = i + 1;
    }
    Newline::CrLf
}

/// The text of a line break.
pub fn newline_text(newline: Newline) -> (text: &'static str)
    ensures
        text@ == match newline {
            Newline::CrLf => "\r\n"@,
            Newline::Lf => "\n"@,
            Newline::Cr => "\r"@,
        },
{
    match newline {
        Newline::CrLf => "\r\n",
        Newline::Lf => "\n",
        Newline::Cr => "\r",
    }
}

/// A file saved with a byte-order mark is read back in the same encoding,
/// whatever text follows the mark.
pub proof fn lemma_saved_mark_is_recognized(encoding: Encoding, body: Seq<u8>)
    requires
        encoding != Encoding::Utf8,
    ensures
        marked_encoding(bom(encoding) + body) == Some(encoding),
{
    let bytes = bom(encoding) + body;
    match encoding {
        Encoding::Utf8Bom => {
            assert(bytes.subrange(0, 3) =~= bom(Encoding::Utf8Bom));
        },
        _ => {
            assert(bytes[0] == 0xFFu8);
            if bytes.len() >= 3 {
                assert(bytes.subrange(0, 3)[0] == 0xFFu8);
                assert(bytes.subrange(0, 3) != bom(Encoding::Utf8Bom));
            }
            assert(bytes.subrange(0, 2) =~= bom(Encoding::Utf16Le));
        },
    }
}

} // verus!
