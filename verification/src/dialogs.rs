//! The computations behind the editor's dialogs: wide strings for Win32,
//! error texts, the Open/Save file filter, the About box's links, DPI
//! scaling of dialog layouts and reading the Go To Line answer.

use vstd::prelude::*;
use vstd::slice::slice_to_vec;
use vstd::string::next_post;

verus! {

broadcast use vstd::string::group_string_axioms;

/// The UTF-16 code units of one character.
pub open spec fn char_units(c: char) -> Seq<u16> {
    let v = c as int;
    if v < 0x10000 {
        seq![v as u16]
    } else {
        seq![(0xD800 + (v - 0x10000) / 0x400) as u16, (0xDC00 + (v - 0x10000) % 0x400) as u16]
    }
}

/// The UTF-16 encoding of a character sequence.
pub open spec fn utf16(s: Seq<char>) -> Seq<u16>
    decreases s.len(),
{
    if s.len() == 0 {
        Seq::empty()
    } else {
        utf16(s.drop_last()) + char_units(s.last())
    }
}

/// Appends the UTF-16 code units of `c` to `out`.
pub fn push_char_units(out: &mut Vec<u16>, c: char)
    ensures
        final(out)@ == old(out)@ + char_units(c),
{
    let v = c as u32;
    if v < 0x10000 {
        out.push(v as u16);
        assert(old(out)@.push(v as u16) =~= old(out)@ + char_units(c));
    } else {
        let w = v - 0x10000;
        out.push((0xD800 + w / 0x400) as u16);
        out.push((0xDC00 + w % 0x400) as u16);
        assert(final(out)@ =~= old(out)@ + char_units(c));
    }
}

/// A NUL-terminated UTF-16 copy of `text`, as Win32 calls take strings.
pub fn to_wide(text: &str) -> (wide: Vec<u16>)
    ensures
        wide@ == utf16(text@).push(0),
{
    let mut out: Vec<u16> = Vec::new();
    let mut chars = text.chars();
    let ghost mut consumed: Seq<char> = Seq::empty();
    proof {
        assert(consumed + vstd::std_specs::iter::IteratorSpec::remaining(&chars) =~= text@);
    }
    loop
        invariant
            consumed + vstd::std_specs::iter::IteratorSpec::remaining(&chars) == text@,
            out@ == utf16(consumed),
            vstd::std_specs::iter::IteratorSpec::decrease(&chars) is Some,
        ensures
            out@ == utf16(text@),
        decreases vstd::std_specs::iter::IteratorSpec::decrease(&chars)->0,
    {
        let ghost before = chars;
        match chars.next() {
            Some(c) => {
                proof {
                    assert(next_post(&before, &chars, Some(c)));
                }
                push_char_units(&mut out, c);
                proof {
                    let next = consumed.push(c);
                    assert(next.drop_last() =~= consumed);
                    assert(next + vstd::std_specs::iter::IteratorSpec::remaining(&chars) =~= consumed + vstd::std_specs::iter::IteratorSpec::remaining(&before));
                    consumed = next;
                }
            },
            None => {
                proof {
                    assert(next_post(&before, &chars, None));
                    assert(consumed =~= text@);
                }
                break;
            },
        }
    }
    out.push(0);
    out
}

/// The message for a failed system call: the context alone when the system
/// reported no error code (code 0), else the context, a colon and the
/// system's description of the error.
pub fn os_error(context: &str, raw_os_error: Option<i32>, description: &str) -> (message: String)
    ensures
        message@ == if raw_os_error == Some(0i32) {
            context@
        } else {
            context@ + ": "@ + description@
        },
{
    if raw_os_error == Some(0i32) {
        return String::from_str(context);
    }
    let mut message = String::from_str(context);
    message.append(": ");
    message.append(description);
    message
}

/// Appends the UTF-16 units of `text` to `out`.
pub fn push_str_units(out: &mut Vec<u16>, text: &str)
    ensures
        final(out)@ == old(out)@ + utf16(text@),
{
    let wide = to_wide(text);
    let units = crate::localization::without_trailing_nul(wide.as_slice());
    assert(units@ =~= utf16(text@));
    crate::search::push_units(out, units);
}

/// The Open/Save dialogs' filter list: the two localized labels (as loaded,
/// NUL-terminated) with their patterns appended, each label followed by its
/// pattern, every item NUL-terminated and the list ended by an extra NUL.
pub open spec fn filter_units(text_documents: Seq<u16>, all_files: Seq<u16>) -> Seq<u16> {
    crate::localization::strip_nul(text_documents) + utf16(" (*.txt)"@) + seq![0u16] + utf16("*.txt"@)
        + seq![0u16] + crate::localization::strip_nul(all_files) + utf16(" (*.*)"@) + seq![0u16] + utf16(
        "*.*"@,
    ) + seq![0u16, 0u16]
}

pub fn file_filter(text_documents: &[u16], all_files: &[u16]) -> (filter: Vec<u16>)
    ensures
        filter@ == filter_units(text_documents@, all_files@),
{
    let mut filter = slice_to_vec(crate::localization::without_trailing_nul(text_documents));
    push_str_units(&mut filter, " (*.txt)");
    filter.push(0);
    push_str_units(&mut filter, "*.txt");
    filter.push(0);
    crate::search::push_units(&mut filter, crate::localization::without_trailing_nul(all_files));
    push_str_units(&mut filter, " (*.*)");
    filter.push(0);
    push_str_units(&mut filter, "*.*");
    filter.push(0);
    filter.push(0);
    assert(filter@ =~= filter_units(text_documents@, all_files@));
    filter
}

/// The markup-safe form of one character of a link label.
pub open spec fn escaped_char(c: char) -> Seq<char> {
    if c == '&' {
        "&amp;"@
    } else if c == '<' {
        "&lt;"@
    } else if c == '>' {
        "&gt;"@
    } else if c == '"' {
        "&quot;"@
    } else {
        seq![c]
    }
}

/// A link label with `&`, `<`, `>` and `"` written as markup entities.
pub open spec fn escaped(s: Seq<char>) -> Seq<char>
    decreases s.len(),
{
    if s.len() == 0 {
        Seq::empty()
    } else {
        escaped(s.drop_last()) + escaped_char(s.last())
    }
}

pub fn escape_sys_link_label(label: &str) -> (r: String)
    ensures
        r@ == escaped(label@),
{
    let len = label.unicode_len();
    let mut out = String::new();
    let mut i: usize = 0;
    proof {
        assert(label@.subrange(0, 0) =~= Seq::<char>::empty());
    }
    while i < len
        invariant
            i <= len == label@.len(),
            out@ == escaped(label@.subrange(0, i as int)),
        decreases len - i,
    {
        let c = label.get_char(i);
        let ghost before = out@;
        if c == '&' {
            out.append("&amp;");
        } else if c == '<' {
            out.append("&lt;");
        } else if c == '>' {
            out.append("&gt;");
        } else if c == '"' {
            out.append("&quot;");
        } else {
            let piece = label.substring_char(i, i + 1);
            out.append(piece);
            assert(piece@ =~= seq![c]);
        }
        proof {
            assert(label@.subrange(0, i + 1).drop_last() =~= label@.subrange(0, i as int));
        }
        i = i + 1;
    }
    proof {
        assert(label@.subrange(0, len as int) =~= label@);
    }
    out
}

/// The About box's fixed link targets.
pub const REPOSITORY_URL: &'static str = "https://github.com/mwdavis84/notepad-classic";
pub const LICENSE_URL: &'static str = "https://github.com/mwdavis84/notepad-classic/blob/main/LICENSE";
pub const THREADS_URL: &'static str = "https://threads.com/@deekfit_apps";

/// The SysLink markup of a hyperlink with a fixed target and a localized
/// label.
pub fn sys_link(url: &str, label: &str) -> (r: String)
    ensures
        r@ == "<a href=\""@ + url@ + "\">"@ + escaped(label@) + "</a>"@,
{
    let mut link = String::from_str("<a href=\"");
    link.append(url);
    link.append("\">");
    let escaped_label = escape_sys_link_label(label);
    link.append(escaped_label.as_str());
    link.append("</a>");
    link
}

/// Division rounding toward zero, as Rust's integer division does.
pub open spec fn div_toward_zero(a: int, b: int) -> int {
    if a >= 0 { a / b } else { -((-a) / b) }
}

/// A layout length in 96-DPI units scaled to `dpi`, rounded to nearest,
/// converted to `i32` as Rust's `as` does.
pub open spec fn scaled_for_dpi(value: i32, dpi: u32) -> i32 {
    div_toward_zero(value * dpi + 48, 96) as i32
}

pub fn scale_for_dpi(value: i32, dpi: u32) -> (r: i32)
    ensures
        r == scaled_for_dpi(value, dpi),
{
    assert(-0x8000_0000 * 0xFFFF_FFFF <= value as int * dpi as int <= 0x7FFF_FFFF * 0xFFFF_FFFF) by (nonlinear_arith)
        requires
            -0x8000_0000 <= value <= 0x7FFF_FFFF,
            0 <= dpi <= 0xFFFF_FFFF,
    ;
    let numerator = value as i64 * dpi as i64 + 48;
    let quotient: i64 = if numerator >= 0 { numerator / 96 } else { -((-numerator) / 96) };
    quotient as i32
}

/// Where a dialog of `size` starts so that it is centred on its owner's
/// span `owner_start..owner_end`, never before the owner's start.
pub fn centered_origin(owner_start: i32, owner_end: i32, size: i32) -> (origin: i32)
    requires
        i32::MIN <= owner_end - owner_start - size <= i32::MAX,
        owner_start + (if owner_end - owner_start - size < 0 { 0 } else { (owner_end - owner_start - size)
            / 2 }) <= i32::MAX,
    ensures
        origin == owner_start + (if owner_end - owner_start - size < 0 { 0 } else { (owner_end - owner_start
            - size) / 2 }),
{
    let spare = owner_end as i64 - owner_start as i64 - size as i64;
    let half: i64 = if spare < 0 { 0 } else { spare / 2 };
    (owner_start as i64 + half) as i32
}

/// What the user chose in the "save changes?" box.
#[derive(Clone, Copy, Debug, Eq, PartialEq)]
pub enum SaveDecision {
    Save,
    Discard,
    Cancel,
}

pub const IDCANCEL: i32 = 2;
pub const IDYES: i32 = 6;
pub const IDNO: i32 = 7;

/// Yes saves, No discards, and anything else (Cancel, or the box closing)
/// cancels.
pub fn save_decision(answer: i32) -> (r: SaveDecision)
    ensures
        r == (if answer == IDYES {
            SaveDecision::Save
        } else if answer == IDNO {
            SaveDecision::Discard
        } else {
            SaveDecision::Cancel
        }),
{
    if answer == IDYES {
        SaveDecision::Save
    } else if answer == IDNO {
        SaveDecision::Discard
    } else {
        SaveDecision::Cancel
    }
}

} // verus!

verus! {

/// Escaped link labels hold no raw `<`, `>` or `"`.
pub proof fn lemma_escaped_has_no_markup(s: Seq<char>)
    ensures
        forall|j: int|
            0 <= j < escaped(s).len() ==> #[trigger] escaped(s)[j] != '<' && escaped(s)[j] != '>' && escaped(
                s,
            )[j] != '"',
    decreases s.len(),
{
    reveal_strlit("&amp;");
    reveal_strlit("&lt;");
    reveal_strlit("&gt;");
    reveal_strlit("&quot;");
    if s.len() > 0 {
        lemma_escaped_has_no_markup(s.drop_last());
        let before = escaped(s.drop_last());
        let tail = escaped_char(s.last());
        assert forall|j: int| 0 <= j < escaped(s).len() implies #[trigger] escaped(s)[j] != '<' && escaped(s)[j]
            != '>' && escaped(s)[j] != '"' by {
            if j >= before.len() {
                assert(escaped(s)[j] == tail[j - before.len()]);
            } else {
                assert(escaped(s)[j] == before[j]);
            }
        }
    }
}

/// At 96 DPI (100% scaling) every non-negative layout length stays as it is.
/// (A negative length is rounded toward zero: -1 becomes 0.)
pub proof fn lemma_scale_at_96_dpi_is_identity(value: i32)
    requires
        value >= 0,
    ensures
        scaled_for_dpi(value, 96) == value,
{
    assert((value * 96 + 48) / 96 == value) by (nonlinear_arith)
        requires
            value >= 0,
    ;
}

} // verus!

verus! {

/// Whether `char::is_whitespace` holds of a character (Unicode White_Space).
pub uninterp spec fn is_whitespace_scalar(c: char) -> bool;

/// `char::is_whitespace`: whether the character has the Unicode White_Space
/// property.  The Unicode table itself is not restated; the result is named
/// [`is_whitespace_scalar`].
#[verifier::external_body]
fn char_is_whitespace(c: char) -> (r: bool)
    ensures
        r == is_whitespace_scalar(c),
{
    c.is_whitespace()
}

/// Whether a code unit is a whitespace character on its own (surrogates
/// never are; every whitespace character is a single code unit).
pub open spec fn space_unit(unit: u16) -> bool {
    match crate::search::unit_char(unit) {
        Some(c) => is_whitespace_scalar(c),
        None => false,
    }
}

fn is_space_unit(unit: u16) -> (r: bool)
    ensures
        r == space_unit(unit),
{
    if crate::printing::is_high_surrogate(unit) || crate::printing::is_low_surrogate(unit) {
        return false;
    }
    match crate::search::char_from_u32(unit as u32) {
        Some(c) => char_is_whitespace(c),
        None => false,
    }
}

/// The typed text with surrounding whitespace removed: it starts at `lo`
/// and ends at `hi`.
pub open spec fn trimmed_bounds(s: Seq<u16>, lo: int, hi: int) -> bool {
    &&& 0 <= lo <= hi <= s.len()
    &&& forall|j: int| 0 <= j < lo ==> space_unit(#[trigger] s[j])
    &&& forall|j: int| hi <= j < s.len() ==> space_unit(#[trigger] s[j])
    &&& lo < hi ==> !space_unit(s[lo]) && !space_unit(s[hi - 1])
}

/// A decimal `u32` as Rust's `u32::from_str` reads it: an optional `+`,
/// then one or more ASCII digits, with a value that fits.
pub open spec fn parsed_u32(s: Seq<u16>) -> Option<u32> {
    let digits = unsigned_digits(s);
    if digits.len() == 0 || parsed_digits_fail(digits) {
        None
    } else {
        Some(crate::localization::digits_value(digits) as u32)
    }
}

/// The digits of an unsigned number: the text after an optional `+`.
pub open spec fn unsigned_digits(s: Seq<u16>) -> Seq<u16> {
    if s.len() > 0 && s[0] == 43 { s.drop_first() } else { s }
}

/// Reads the line number typed in the Go To Line box: the text with
/// surrounding whitespace trimmed, read as a decimal `u32`; `None` when it
/// is not one.
pub fn parse_line_number(typed: &[u16]) -> (r: Option<u32>)
    ensures
        exists|lo: int, hi: int| trimmed_bounds(typed@, lo, hi) && r == parsed_u32(typed@.subrange(lo, hi)),
{
    let mut lo: usize = 0;
    while lo < typed.len() && is_space_unit(typed[lo])
        invariant
            lo <= typed@.len(),
            forall|j: int| 0 <= j < lo ==> space_unit(#[trigger] typed@[j]),
        decreases typed@.len() - lo,
    {
        lo = lo + 1;
    }
    let mut hi: usize = typed.len();
    while hi > lo && is_space_unit(typed[hi - 1])
        invariant
            lo <= hi <= typed@.len(),
            forall|j: int| hi <= j < typed@.len() ==> space_unit(#[trigger] typed@[j]),
        decreases hi,
    {
        hi = hi - 1;
    }
    let ghost trimmed = typed@.subrange(lo as int, hi as int);
    assert(trimmed_bounds(typed@, lo as int, hi as int));
    let mut start = lo;
    if start < hi && typed[start] == 43 {
        start = start + 1;
    }
    let ghost digits = typed@.subrange(start as int, hi as int);
    assert(digits =~= unsigned_digits(trimmed));
    if start >= hi {
        assert(parsed_u32(trimmed) is None);
        return None;
    }
    let mut value: u32 = 0;
    let mut i = start;
    proof {
        assert(typed@.subrange(start as int, start as int) =~= Seq::<u16>::empty());
    }
    while i < hi
        invariant
            start <= i <= hi <= typed@.len(),
            forall|j: int| start <= j < i ==> crate::localization::is_digit(#[trigger] typed@[j]),
            value == crate::localization::digits_value(typed@.subrange(start as int, i as int)),
            digits == typed@.subrange(start as int, hi as int),
            trimmed == typed@.subrange(lo as int, hi as int),
            digits == unsigned_digits(trimmed),
            trimmed_bounds(typed@, lo as int, hi as int),
        decreases hi - i,
    {
        let unit = typed[i];
        if !(48 <= unit && unit <= 57) {
            assert(!crate::localization::is_digit(digits[i - start]));
            assert(parsed_digits_fail(digits));
            assert(parsed_u32(trimmed) is None);
            return None;
        }
        proof {
            assert(typed@.subrange(start as int, i + 1).drop_last() =~= typed@.subrange(start as int, i as int));
        }
        let tens = match value.checked_mul(10) {
            Some(t) => t,
            None => {
                proof {
                    lemma_rest_digits_or_not(typed@, start as int, i + 1, hi as int);
                    assert(parsed_digits_fail(digits));
                    assert(parsed_u32(trimmed) is None);
                }
                return None;
            },
        };
        value = match tens.checked_add((unit - 48) as u32) {
            Some(v) => v,
            None => {
                proof {
                    lemma_rest_digits_or_not(typed@, start as int, i + 1, hi as int);
                    assert(parsed_u32(trimmed) is None);
                }
                return None;
            },
        };
        i = i + 1;
    }
    assert(typed@.subrange(start as int, i as int) =~= digits);
    Some(value)
}

/// Once a digit prefix is too large, the whole text is either not all
/// digits or too large as well.
proof fn lemma_rest_digits_or_not(t: Seq<u16>, start: int, k: int, end: int)
    requires
        0 <= start < k <= end <= t.len(),
        forall|j: int| start <= j < k ==> crate::localization::is_digit(#[trigger] t[j]),
        crate::localization::digits_value(t.subrange(start, k)) > u32::MAX,
    ensures
        parsed_digits_fail(t.subrange(start, end)),
{
    if forall|j: int| k <= j < end ==> crate::localization::is_digit(#[trigger] t[j]) {
        crate::localization::lemma_digits_value_grows(t, start, k, end);
    } else {
        let j = choose|j: int| k <= j < end && !crate::localization::is_digit(#[trigger] t[j]);
        assert(t.subrange(start, end)[j - start] == t[j]);
    }
}

/// Digits that do not read as a `u32`: a non-digit, or too large a value.
pub open spec fn parsed_digits_fail(digits: Seq<u16>) -> bool {
    (exists|j: int| 0 <= j < digits.len() && !crate::localization::is_digit(#[trigger] digits[j]))
        || crate::localization::digits_value(digits) > u32::MAX
}

} // verus!
