//! Find and replace over UTF-16 text, with the classic Find dialog's options:
//! direction, case matching and whole-word matching.

use vstd::prelude::*;
use vstd::slice::slice_to_vec;

use crate::printing::{high_surrogate, is_high_surrogate, is_low_surrogate, low_surrogate};

verus! {

/// Search towards the end of the text.
pub const FR_DOWN: u32 = 0x1;
/// Only match whole words.
pub const FR_WHOLEWORD: u32 = 0x2;
/// Compare code units exactly instead of ignoring case.
pub const FR_MATCHCASE: u32 = 0x4;

pub open spec fn matches_case(flags: u32) -> bool {
    flags & FR_MATCHCASE != 0
}

pub open spec fn whole_words_only(flags: u32) -> bool {
    flags & FR_WHOLEWORD != 0
}

/// Whether `char::is_alphanumeric` holds of a scalar value (Unicode
/// Alphabetic or Numeric).
pub uninterp spec fn is_alphanumeric_scalar(c: char) -> bool;

/// `char::is_alphanumeric`: whether the character is Unicode Alphabetic or
/// Numeric.  The Unicode tables themselves are not restated here; the
/// result is named [`is_alphanumeric_scalar`].
#[verifier::external_body]
fn char_is_alphanumeric(c: char) -> (r: bool)
    ensures
        r == is_alphanumeric_scalar(c),
{
    c.is_alphanumeric()
}

/// Whether a value is a Unicode scalar value (a valid `char`).
pub open spec fn is_scalar_value(value: u32) -> bool {
    value <= 0x10FFFF && !(0xD800 <= value <= 0xDFFF)
}

/// `char::from_u32`: the character with the given value, or `None` when
/// the value is a surrogate or above U+10FFFF, as its documentation states.
#[verifier::external_body]
pub(crate) fn char_from_u32(value: u32) -> (r: Option<char>)
    ensures
        r == (if is_scalar_value(value) {
            Some(value as char)
        } else {
            None
        }),
{
    char::from_u32(value)
}

/// The scalar value that a surrogate pair encodes.
pub open spec fn pair_value(high: u16, low: u16) -> u32 {
    (0x1_0000 + (high - 0xD800) * 0x400 + (low - 0xDC00)) as u32
}

pub open spec fn decoded_pair(high: u16, low: u16) -> Option<char> {
    if high_surrogate(high) && low_surrogate(low) {
        Some(pair_value(high, low) as char)
    } else {
        None
    }
}

/// Decodes a surrogate pair; `None` unless `high` and `low` are a high and a
/// low surrogate.
pub fn decode_surrogate_pair(high: u16, low: u16) -> (r: Option<char>)
    ensures
        r == decoded_pair(high, low),
{
    if !is_high_surrogate(high) || !is_low_surrogate(low) {
        return None;
    }
    let h: u32 = (high - 0xD800) as u32;
    let l: u32 = (low - 0xDC00) as u32;
    assert((h << 10) | l == h * 0x400 + l) by (bit_vector)
        requires
            h < 0x400,
            l < 0x400,
    ;
    let scalar = 0x1_0000 + ((h << 10) | l);
    char_from_u32(scalar)
}

/// The character that a single code unit stands for, when it is not a
/// surrogate.
pub open spec fn unit_char(unit: u16) -> Option<char> {
    if high_surrogate(unit) || low_surrogate(unit) {
        None
    } else {
        Some(unit as char)
    }
}

/// The scalar value that ends just before `boundary`, decoding a surrogate
/// pair; `None` at the start of the text or for an unpaired surrogate.
pub open spec fn scalar_before_spec(text: Seq<u16>, boundary: int) -> Option<char> {
    if boundary < 1 || boundary > text.len() {
        None
    } else {
        let last = text[boundary - 1];
        if low_surrogate(last) {
            if boundary < 2 {
                None
            } else {
                decoded_pair(text[boundary - 2], last)
            }
        } else if high_surrogate(last) {
            None
        } else {
            unit_char(last)
        }
    }
}

/// The scalar value that starts at `boundary`, decoding a surrogate pair;
/// `None` at the end of the text or for an unpaired surrogate.
pub open spec fn scalar_after_spec(text: Seq<u16>, boundary: int) -> Option<char> {
    if boundary < 0 || boundary >= text.len() {
        None
    } else {
        let first = text[boundary];
        if high_surrogate(first) {
            if boundary + 1 >= text.len() {
                None
            } else {
                decoded_pair(first, text[boundary + 1])
            }
        } else if low_surrogate(first) {
            None
        } else {
            unit_char(first)
        }
    }
}

pub fn scalar_before(text: &[u16], boundary: usize) -> (r: Option<char>)
    ensures
        r == scalar_before_spec(text@, boundary as int),
{
    if boundary < 1 || boundary > text.len() {
        return None;
    }
    let last = text[boundary - 1];
    if is_low_surrogate(last) {
        if boundary < 2 {
            return None;
        }
        let high = text[boundary - 2];
        decode_surrogate_pair(high, last)
    } else if is_high_surrogate(last) {
        None
    } else {
        char_from_u32(last as u32)
    }
}

pub fn scalar_after(text: &[u16], boundary: usize) -> (r: Option<char>)
    ensures
        r == scalar_after_spec(text@, boundary as int),
{
    if boundary >= text.len() {
        return None;
    }
    let first = text[boundary];
    if is_high_surrogate(first) {
        if boundary + 1 >= text.len() {
            return None;
        }
        let low = text[boundary + 1];
        decode_surrogate_pair(first, low)
    } else if is_low_surrogate(first) {
        None
    } else {
        char_from_u32(first as u32)
    }
}

/// Word characters are the alphanumeric scalars and the underscore.
pub open spec fn word_scalar(c: char) -> bool {
    is_alphanumeric_scalar(c) || c == '_'
}

pub fn is_word_scalar(ch: char) -> (r: bool)
    ensures
        r == word_scalar(ch),
{
    char_is_alphanumeric(ch) || ch == '_'
}

pub open spec fn is_word_neighbor(c: Option<char>) -> bool {
    match c {
        Some(ch) => word_scalar(ch),
        None => false,
    }
}

/// Whether `text[start..start + length]` stands as a whole word: no word
/// character touches it on either side.
pub open spec fn whole_word(text: Seq<u16>, start: int, length: int) -> bool {
    !is_word_neighbor(scalar_before_spec(text, start)) && !is_word_neighbor(
        scalar_after_spec(text, start + length),
    )
}

pub fn whole_word_at(text: &[u16], start: usize, length: usize) -> (r: bool)
    requires
        start + length <= usize::MAX,
    ensures
        r == whole_word(text@, start as int, length as int),
{
    let before = match scalar_before(text, start) {
        Some(ch) => is_word_scalar(ch),
        None => false,
    };
    if before {
        return false;
    }
    match scalar_after(text, start + length) {
        Some(ch) => !is_word_scalar(ch),
        None => true,
    }
}

/// A case-insensitive comparer described as a function: every answer that
/// `eq` gives about two pieces of text is `c` of those texts.
pub open spec fn compares_as<E: Fn(&[u16], &[u16]) -> bool>(
    eq: E,
    c: spec_fn(Seq<u16>, Seq<u16>) -> bool,
) -> bool {
    forall|a: &[u16], b: &[u16], r: bool| #[trigger] call_ensures(eq, (a, b), r) ==> r == c(a@, b@)
}

pub open spec fn comparable<E: Fn(&[u16], &[u16]) -> bool>(eq: E) -> bool {
    forall|a: &[u16], b: &[u16]| call_requires(eq, (a, b))
}

/// Whether two pieces of text are equal under the search options: same
/// length, and equal code units, or equal ignoring case by `c`.
pub open spec fn units_equal(
    left: Seq<u16>,
    right: Seq<u16>,
    flags: u32,
    c: spec_fn(Seq<u16>, Seq<u16>) -> bool,
) -> bool {
    left.len() == right.len() && if matches_case(flags) {
        left == right
    } else {
        c(left, right)
    }
}

/// Whether `needle` occurs in `text` at offset `i` under the search options.
pub open spec fn match_at(
    text: Seq<u16>,
    needle: Seq<u16>,
    i: int,
    flags: u32,
    c: spec_fn(Seq<u16>, Seq<u16>) -> bool,
) -> bool {
    &&& 0 <= i
    &&& i + needle.len() <= text.len()
    &&& units_equal(text.subrange(i, i + needle.len()), needle, flags, c)
    &&& !whole_words_only(flags) || whole_word(text, i, needle.len() as int)
}

fn units_eq(left: &[u16], right: &[u16]) -> (r: bool)
    ensures
        r == (left@ == right@),
{
    if left.len() != right.len() {
        return false;
    }
    let mut i: usize = 0;
    while i < left.len()
        invariant
            i <= left@.len() == right@.len(),
            forall|j: int| 0 <= j < i ==> left@[j] == right@[j],
        decreases left@.len() - i,
    {
        if left[i] != right[i] {
            return false;
        }
        i = i + 1;
    }
    assert(left@ =~= right@);
    true
}

/// Compares two pieces of text under the search options (see
/// [`units_equal`]); `ignore_case_equal` decides equality when case does
/// not matter.
pub fn slices_equal<E: Fn(&[u16], &[u16]) -> bool>(
    left: &[u16],
    right: &[u16],
    flags: u32,
    ignore_case_equal: &E,
) -> (r: bool)
    requires
        comparable(*ignore_case_equal),
    ensures
        forall|c: spec_fn(Seq<u16>, Seq<u16>) -> bool| #[trigger]
            compares_as(*ignore_case_equal, c) ==> r == units_equal(left@, right@, flags, c),
        r ==> left@.len() == right@.len(),
{
    if left.len() != right.len() {
        return false;
    }
    if flags & FR_MATCHCASE != 0 {
        units_eq(left, right)
    } else {
        ignore_case_equal(left, right)
    }
}

/// Where a search for `needle` from caret position `from` finds it, as the
/// Find dialog does it.  Downward: the first match that starts at or after
/// `from`.  Upward: the last match that ends at or before `from`.  An empty
/// needle, or one longer than the text, is never found.
pub open spec fn found_at(
    text: Seq<u16>,
    needle: Seq<u16>,
    from: int,
    down: bool,
    flags: u32,
    c: spec_fn(Seq<u16>, Seq<u16>) -> bool,
    result: Option<int>,
) -> bool {
    let n = needle.len() as int;
    if n == 0 || n > text.len() {
        result is None
    } else if down {
        let first = if from < text.len() { from } else { text.len() as int };
        match result {
            Some(i) => first <= i && match_at(text, needle, i, flags, c) && forall|j: int|
                first <= j < i ==> !#[trigger] match_at(text, needle, j, flags, c),
            None => forall|j: int| first <= j ==> !#[trigger] match_at(text, needle, j, flags, c),
        }
    } else {
        match result {
            Some(i) => i + n <= from && match_at(text, needle, i, flags, c) && forall|j: int|
                i < j && j + n <= from ==> !#[trigger] match_at(text, needle, j, flags, c),
            None => forall|j: int| 0 <= j && j + n <= from ==> !#[trigger] match_at(text, needle, j, flags, c),
        }
    }
}

/// Searches `haystack` for `needle` from the caret position `from` in the
/// direction given, under the search options `flags` (see [`found_at`]).
pub fn find_utf16<E: Fn(&[u16], &[u16]) -> bool>(
    haystack: &[u16],
    needle: &[u16],
    from: usize,
    down: bool,
    flags: u32,
    ignore_case_equal: &E,
) -> (result: Option<usize>)
    requires
        comparable(*ignore_case_equal),
    ensures
        forall|c: spec_fn(Seq<u16>, Seq<u16>) -> bool| #[trigger]
            compares_as(*ignore_case_equal, c) ==> found_at(
                haystack@,
                needle@,
                from as int,
                down,
                flags,
                c,
                crate::printing::opt_usize_view(result),
            ),
{
    if needle.len() == 0 || needle.len() > haystack.len() {
        return None;
    }
    let n = needle.len();
    let max = haystack.len() - n;
    if down {
        let first = if from < haystack.len() { from } else { haystack.len() };
        if first > max {
            return None;
        }
        let mut index = first;
        while index <= max
            invariant
                down,
                first <= index <= max + 1,
                max + n == haystack@.len(),
                haystack@.len() <= usize::MAX,
                n == needle@.len() > 0,
                first == (if from < haystack@.len() { from as int } else { haystack@.len() as int }),
                comparable(*ignore_case_equal),
                forall|c: spec_fn(Seq<u16>, Seq<u16>) -> bool| #[trigger]
                    compares_as(*ignore_case_equal, c) ==> forall|j: int|
                        first <= j < index ==> !#[trigger] match_at(haystack@, needle@, j, flags, c),
            decreases max + 1 - index,
        {
            let candidate = &haystack[index..index + n];
            let equal = slices_equal(candidate, needle, flags, ignore_case_equal);
            let word_ok = if equal && flags & FR_WHOLEWORD != 0 {
                whole_word_at(haystack, index, n)
            } else {
                true
            };
            if equal && word_ok {
                assert forall|c: spec_fn(Seq<u16>, Seq<u16>) -> bool| #[trigger]
                    compares_as(*ignore_case_equal, c) implies match_at(haystack@, needle@, index as int, flags, c) by {
                    assert(candidate@ == haystack@.subrange(index as int, index + n));
                }
                assert forall|c: spec_fn(Seq<u16>, Seq<u16>) -> bool| #[trigger]
                    compares_as(*ignore_case_equal, c) implies found_at(haystack@, needle@, from as int, down, flags, c, Some(index as int)) by {
                    assert(match_at(haystack@, needle@, index as int, flags, c));
                    assert(forall|j: int| first <= j < index ==> !#[trigger] match_at(haystack@, needle@, j, flags, c));
                }
                return Some(index);
            }
            assert forall|c: spec_fn(Seq<u16>, Seq<u16>) -> bool| #[trigger]
                compares_as(*ignore_case_equal, c) implies !match_at(haystack@, needle@, index as int, flags, c) by {
                assert(candidate@ == haystack@.subrange(index as int, index + n));
            }
            index = index + 1;
        }
        None
    } else {
        let sub = if from >= n { from - n } else { 0 };
        let last = if sub < max { sub } else { max };
        let mut index = last + 1;
        while index > 0
            invariant
                !down,
                index <= last + 1,
                last <= max,
                max + n == haystack@.len(),
                haystack@.len() <= usize::MAX,
                n == needle@.len() > 0,
                last == (if from >= n { if from - n < max { from - n } else { max as int } } else { 0 }),
                comparable(*ignore_case_equal),
                forall|c: spec_fn(Seq<u16>, Seq<u16>) -> bool| #[trigger]
                    compares_as(*ignore_case_equal, c) ==> forall|j: int|
                        index <= j && j + n <= from ==> !#[trigger] match_at(haystack@, needle@, j, flags, c),
            decreases index,
        {
            let candidate_index = index - 1;
            let in_range = candidate_index + n <= from;
            if in_range {
                let candidate = &haystack[candidate_index..candidate_index + n];
                let equal = slices_equal(candidate, needle, flags, ignore_case_equal);
                let word_ok = if equal && flags & FR_WHOLEWORD != 0 {
                    whole_word_at(haystack, candidate_index, n)
                } else {
                    true
                };
                if equal && word_ok {
                    assert forall|c: spec_fn(Seq<u16>, Seq<u16>) -> bool| #[trigger]
                        compares_as(*ignore_case_equal, c) implies match_at(haystack@, needle@, candidate_index as int, flags, c) by {
                        assert(candidate@ == haystack@.subrange(candidate_index as int, candidate_index + n));
                    }
                    assert forall|c: spec_fn(Seq<u16>, Seq<u16>) -> bool| #[trigger]
                        compares_as(*ignore_case_equal, c) implies found_at(haystack@, needle@, from as int, down, flags, c, Some(candidate_index as int)) by {
                        assert(match_at(haystack@, needle@, candidate_index as int, flags, c));
                    }
                    return Some(candidate_index);
                }
                assert forall|c: spec_fn(Seq<u16>, Seq<u16>) -> bool| #[trigger]
                    compares_as(*ignore_case_equal, c) implies !match_at(haystack@, needle@, candidate_index as int, flags, c) by {
                    assert(candidate@ == haystack@.subrange(candidate_index as int, candidate_index + n));
                }
            }
            index = candidate_index;
        }
        None
    }
}

/// Whether the selection `text[start..end]` is an occurrence of `needle`
/// under the search options, so that Replace may replace it.
pub fn selection_matches<E: Fn(&[u16], &[u16]) -> bool>(
    text: &[u16],
    start: usize,
    end: usize,
    needle: &[u16],
    flags: u32,
    ignore_case_equal: &E,
) -> (r: bool)
    requires
        comparable(*ignore_case_equal),
    ensures
        forall|c: spec_fn(Seq<u16>, Seq<u16>) -> bool| #[trigger]
            compares_as(*ignore_case_equal, c) ==> r == (start < end && end <= text@.len()
                && match_at(text@, needle@, start as int, flags, c) && end - start == needle@.len()),
{
    if !(end > start && end <= text.len()) {
        return false;
    }
    let selected = &text[start..end];
    let equal = slices_equal(selected, needle, flags, ignore_case_equal);
    let r = equal && (flags & FR_WHOLEWORD == 0 || whole_word_at(text, start, needle.len()));
    assert forall|c: spec_fn(Seq<u16>, Seq<u16>) -> bool| #[trigger]
        compares_as(*ignore_case_equal, c) implies r == (start < end && end <= text@.len()
            && match_at(text@, needle@, start as int, flags, c) && end - start == needle@.len()) by {
        assert(selected@ == text@.subrange(start as int, end as int));
    }
    r
}

/// Replace All from offset `i` on: scanning left to right, each match is
/// replaced and scanning resumes after it, so matches never overlap.  The
/// text produced from `i` on, and how many replacements were made.
pub open spec fn replaced_from(
    input: Seq<u16>,
    i: int,
    needle: Seq<u16>,
    replacement: Seq<u16>,
    flags: u32,
    c: spec_fn(Seq<u16>, Seq<u16>) -> bool,
) -> (Seq<u16>, nat)
    decreases input.len() - i,
{
    if i < 0 || i >= input.len() || needle.len() == 0 {
        (Seq::empty(), 0)
    } else if match_at(input, needle, i, flags, c) {
        let rest = replaced_from(input, i + needle.len(), needle, replacement, flags, c);
        (replacement + rest.0, rest.1 + 1)
    } else {
        let rest = replaced_from(input, i + 1, needle, replacement, flags, c);
        (seq![input[i]] + rest.0, rest.1)
    }
}

/// The result of Replace All: the new text and the number of replacements.
/// An empty needle replaces nothing.
pub open spec fn replaced(
    input: Seq<u16>,
    needle: Seq<u16>,
    replacement: Seq<u16>,
    flags: u32,
    c: spec_fn(Seq<u16>, Seq<u16>) -> bool,
) -> (Seq<u16>, nat) {
    if needle.len() == 0 {
        (input, 0)
    } else {
        replaced_from(input, 0, needle, replacement, flags, c)
    }
}

/// Appends `items` to `out`.
pub fn push_units(out: &mut Vec<u16>, items: &[u16])
    ensures
        final(out)@ == old(out)@ + items@,
{
    let ghost start = out@;
    let mut i: usize = 0;
    while i < items.len()
        invariant
            i <= items@.len(),
            out@ == start + items@.subrange(0, i as int),
        decreases items@.len() - i,
    {
        out.push(items[i]);
        i = i + 1;
        assert(out@ =~= start + items@.subrange(0, i as int));
    }
    assert(items@.subrange(0, i as int) =~= items@);
}

/// Replaces every match of `needle` in `input` by `replacement` (see
/// [`replaced`]); returns the new text and the count of replacements.
pub fn replace_all_utf16<E: Fn(&[u16], &[u16]) -> bool>(
    input: &[u16],
    needle: &[u16],
    replacement: &[u16],
    flags: u32,
    ignore_case_equal: &E,
) -> (result: (Vec<u16>, usize))
    requires
        comparable(*ignore_case_equal),
    ensures
        forall|c: spec_fn(Seq<u16>, Seq<u16>) -> bool| #[trigger]
            compares_as(*ignore_case_equal, c) ==> (result.0@, result.1 as nat) == replaced(
                input@,
                needle@,
                replacement@,
                flags,
                c,
            ),
{
    if needle.len() == 0 {
        return (slice_to_vec(input), 0);
    }
    let mut output: Vec<u16> = Vec::with_capacity(input.len());
    let mut index: usize = 0;
    let mut count: usize = 0;
    while index < input.len()
        invariant
            index <= input@.len(),
            count <= index,
            needle@.len() > 0,
            comparable(*ignore_case_equal),
            forall|c: spec_fn(Seq<u16>, Seq<u16>) -> bool| #[trigger]
                compares_as(*ignore_case_equal, c) ==> replaced(input@, needle@, replacement@, flags, c)
                    == (output@ + replaced_from(input@, index as int, needle@, replacement@, flags, c).0,
                    (count + replaced_from(input@, index as int, needle@, replacement@, flags, c).1) as nat),
        decreases input@.len() - index,
    {
        let matches = if needle.len() <= input.len() - index {
            let candidate = &input[index..index + needle.len()];
            let equal = slices_equal(candidate, needle, flags, ignore_case_equal);
            let m = equal && (!(flags & FR_WHOLEWORD != 0) || whole_word_at(input, index, needle.len()));
            assert forall|c: spec_fn(Seq<u16>, Seq<u16>) -> bool| #[trigger]
                compares_as(*ignore_case_equal, c) implies m == match_at(input@, needle@, index as int, flags, c) by {
                assert(candidate@ == input@.subrange(index as int, index + needle@.len()));
            }
            m
        } else {
            false
        };
        let ghost before = output@;
        let ghost old_index = index;
        if matches {
            push_units(&mut output, replacement);
            index = index + needle.len();
            count = count + 1;
        } else {
            output.push(input[index]);
            index = index + 1;
        }
        assert forall|c: spec_fn(Seq<u16>, Seq<u16>) -> bool| #[trigger]
            compares_as(*ignore_case_equal, c) implies replaced(input@, needle@, replacement@, flags, c) == (
            output@ + replaced_from(input@, index as int, needle@, replacement@, flags, c).0,
            (count + replaced_from(input@, index as int, needle@, replacement@, flags, c).1) as nat,
        ) by {
            assert(matches == match_at(input@, needle@, old_index as int, flags, c));
            let rest = replaced_from(input@, index as int, needle@, replacement@, flags, c);
            if matches {
                assert(before + (replacement@ + rest.0) =~= output@ + rest.0);
            } else {
                assert(before + (seq![input@[old_index as int]] + rest.0) =~= output@ + rest.0);
            }
        }
    }
    proof {
        assert forall|c: spec_fn(Seq<u16>, Seq<u16>) -> bool| #[trigger]
            compares_as(*ignore_case_equal, c) implies (output@, count as nat) == replaced(
            input@,
            needle@,
            replacement@,
            flags,
            c,
        ) by {
            assert(output@ + Seq::<u16>::empty() =~= output@);
        }
    }
    (output, count)
}

/// The part of a fixed-size dialog buffer before its first NUL.
pub fn nul_terminated_slice(buffer: &[u16]) -> (r: &[u16])
    ensures
        r@ == buffer@.subrange(0, r@.len() as int),
        r@.len() == buffer@.len() || buffer@[r@.len() as int] == 0,
        forall|j: int| 0 <= j < r@.len() ==> r@[j] != 0,
{
    let mut len: usize = 0;
    while len < buffer.len() && buffer[len] != 0
        invariant
            len <= buffer@.len(),
            forall|j: int| 0 <= j < len ==> buffer@[j] != 0,
        decreases buffer@.len() - len,
    {
        len = len + 1;
    }
    &buffer[0..len]
}

} // verus!

verus! {

/// What Find finds, Replace replaces: a found occurrence, selected, is a
/// selection that matches the needle.
pub proof fn lemma_found_is_replaceable(
    text: Seq<u16>,
    needle: Seq<u16>,
    from: int,
    down: bool,
    flags: u32,
    c: spec_fn(Seq<u16>, Seq<u16>) -> bool,
    i: int,
)
    requires
        found_at(text, needle, from, down, flags, c, Some(i)),
    ensures
        match_at(text, needle, i, flags, c),
        0 <= i < i + needle.len() <= text.len(),
{
}

proof fn lemma_replaced_from_shape(
    input: Seq<u16>,
    i: int,
    needle: Seq<u16>,
    replacement: Seq<u16>,
    flags: u32,
    c: spec_fn(Seq<u16>, Seq<u16>) -> bool,
)
    requires
        0 <= i <= input.len(),
        needle.len() > 0,
    ensures
        ({
            let r = replaced_from(input, i, needle, replacement, flags, c);
            &&& r.0.len() == (input.len() - i) + r.1 * (replacement.len() - needle.len())
            &&& r.1 == 0 ==> r.0 == input.subrange(i, input.len() as int)
            &&& matches_case(flags) && replacement == needle ==> r.0 == input.subrange(i, input.len() as int)
        }),
    decreases input.len() - i,
{
    let n = needle.len() as int;
    if i < input.len() {
        if match_at(input, needle, i, flags, c) {
            lemma_replaced_from_shape(input, i + n, needle, replacement, flags, c);
            let rest = replaced_from(input, i + n, needle, replacement, flags, c);
            assert((replacement.len() + rest.0.len()) == (input.len() - i) + (rest.1 + 1) * (replacement.len() - n))
                by (nonlinear_arith)
                requires
                    rest.0.len() == (input.len() - (i + n)) + rest.1 * (replacement.len() - n),
            ;
            if matches_case(flags) && replacement == needle {
                assert(input.subrange(i, i + n) == needle);
                assert(replacement + rest.0 =~= input.subrange(i, input.len() as int));
            }
        } else {
            lemma_replaced_from_shape(input, i + 1, needle, replacement, flags, c);
            let rest = replaced_from(input, i + 1, needle, replacement, flags, c);
            assert(seq![input[i]] + input.subrange(i + 1, input.len() as int) =~= input.subrange(i, input.len() as int));
        }
    } else {
        assert(input.subrange(i, input.len() as int) =~= Seq::<u16>::empty());
    }
}

/// Replace All laws: each replacement changes the length by the difference
/// between replacement and needle; replacing nothing leaves the text as it
/// was; and replacing a needle by itself, matching case, changes nothing.
pub proof fn lemma_replace_all_laws(
    input: Seq<u16>,
    needle: Seq<u16>,
    replacement: Seq<u16>,
    flags: u32,
    c: spec_fn(Seq<u16>, Seq<u16>) -> bool,
)
    ensures
        ({
            let r = replaced(input, needle, replacement, flags, c);
            &&& r.0.len() == input.len() + r.1 * (replacement.len() - needle.len())
            &&& r.1 == 0 ==> r.0 == input
            &&& matches_case(flags) && replacement == needle ==> r.0 == input
        }),
{
    if needle.len() > 0 {
        lemma_replaced_from_shape(input, 0, needle, replacement, flags, c);
        assert(input.subrange(0, input.len() as int) =~= input);
    }
}

} // verus!

verus! {

/// Word characters are exactly the alphanumeric scalars and the underscore;
/// so a match that has neither of those right before and right after it
/// (punctuation such as `.`, a space, a line break, or the text's edge)
/// stands as a whole word.
pub proof fn lemma_word_characters(c: char, text: Seq<u16>, start: int, length: int)
    ensures
        word_scalar(c) <==> (is_alphanumeric_scalar(c) || c == '_'),
        (match scalar_before_spec(text, start) {
            Some(b) => !is_alphanumeric_scalar(b) && b != '_',
            None => true,
        }) && (match scalar_after_spec(text, start + length) {
            Some(a) => !is_alphanumeric_scalar(a) && a != '_',
            None => true,
        }) ==> whole_word(text, start, length),
        !is_alphanumeric_scalar(c) && c != '_' ==> !word_scalar(c),
{
}

/// The text that results from putting `replacement` in place of the
/// `n`-unit pieces starting at `positions` (in increasing order), reading
/// `input` from offset `i` on.
pub open spec fn spliced_from(input: Seq<u16>, i: int, positions: Seq<int>, n: int, replacement: Seq<u16>) -> Seq<u16>
    decreases positions.len(),
{
    if positions.len() == 0 {
        input.subrange(i, input.len() as int)
    } else {
        input.subrange(i, positions[0]) + replacement + spliced_from(
            input,
            positions[0] + n,
            positions.drop_first(),
            n,
            replacement,
        )
    }
}

/// `positions` are places where `p` holds, at or after `i`, in increasing
/// order and at least `n` apart, and every place at or after `i` where `p`
/// holds lies within `n` of one of them.
pub open spec fn covers(p: spec_fn(int) -> bool, i: int, n: int, positions: Seq<int>) -> bool {
    &&& forall|k: int| 0 <= k < positions.len() ==> i <= #[trigger] positions[k]
    &&& forall|k: int| 0 <= k < positions.len() ==> #[trigger] p(positions[k])
    &&& forall|k: int|
        #![trigger positions[k], positions[k + 1]]
        0 <= k < positions.len() - 1 ==> positions[k] + n <= positions[k + 1]
    &&& forall|j: int| i <= j && #[trigger] p(j) ==> exists|k: int|
        0 <= k < positions.len() && #[trigger] positions[k] <= j < positions[k] + n
}

/// `positions` are matches of `needle` at or after `i`, in increasing order
/// and not overlapping, and every match at or after `i` lies inside one of
/// them.
pub open spec fn covering_matches(
    input: Seq<u16>,
    needle: Seq<u16>,
    i: int,
    flags: u32,
    c: spec_fn(Seq<u16>, Seq<u16>) -> bool,
    positions: Seq<int>,
) -> bool {
    covers(|j: int| match_at(input, needle, j, flags, c), i, needle.len() as int, positions)
}

proof fn lemma_covers_take(p: spec_fn(int) -> bool, i: int, n: int, rest: Seq<int>)
    requires
        n > 0,
        p(i),
        covers(p, i + n, n, rest),
    ensures
        covers(p, i, n, seq![i] + rest),
{
    let positions = seq![i] + rest;
    assert(positions[0] == i);
    assert forall|k: int| 0 <= k < positions.len() implies i <= #[trigger] positions[k] by {
        if k > 0 {
            assert(positions[k] == rest[k - 1]);
        }
    }
    assert forall|k: int| 0 <= k < positions.len() implies #[trigger] p(positions[k]) by {
        if k > 0 {
            assert(positions[k] == rest[k - 1]);
        }
    }
    assert forall|k: int| 0 <= k < positions.len() - 1 implies #[trigger] positions[k] + n <= positions[k + 1] by {
        assert(positions[k + 1] == rest[k]);
        if k == 0 {
            assert(i + n <= rest[0]);
        } else {
            assert(positions[k] == rest[k - 1]);
            let k1 = k - 1;
            assert(rest[k1] + n <= rest[k1 + 1]);
        }
    }
    assert forall|j: int| i <= j && #[trigger] p(j) implies exists|k: int|
        0 <= k < positions.len() && #[trigger] positions[k] <= j < positions[k] + n by {
        if j < i + n {
            assert(positions[0] <= j < positions[0] + n);
        } else {
            let k = choose|k: int| 0 <= k < rest.len() && #[trigger] rest[k] <= j < rest[k] + n;
            assert(positions[k + 1] == rest[k]);
        }
    }
}

proof fn lemma_covers_skip(p: spec_fn(int) -> bool, i: int, n: int, positions: Seq<int>)
    requires
        !p(i),
        covers(p, i + 1, n, positions),
    ensures
        covers(p, i, n, positions),
{
    assert forall|j: int| i <= j && #[trigger] p(j) implies exists|k: int|
        0 <= k < positions.len() && #[trigger] positions[k] <= j < positions[k] + n by {
        assert(j != i);
    }
}

proof fn lemma_covers_none(p: spec_fn(int) -> bool, i: int, n: int)
    requires
        forall|j: int| i <= j ==> !#[trigger] p(j),
    ensures
        covers(p, i, n, Seq::<int>::empty()),
{
}

proof fn lemma_spliced_skip(input: Seq<u16>, i: int, positions: Seq<int>, n: int, replacement: Seq<u16>)
    requires
        0 <= i < input.len(),
        positions.len() > 0 ==> i + 1 <= positions[0] <= input.len(),
    ensures
        spliced_from(input, i, positions, n, replacement) == seq![input[i]] + spliced_from(
            input,
            i + 1,
            positions,
            n,
            replacement,
        ),
{
    if positions.len() == 0 {
        assert(input.subrange(i, input.len() as int) =~= seq![input[i]] + input.subrange(i + 1, input.len() as int));
    } else {
        assert(input.subrange(i, positions[0]) =~= seq![input[i]] + input.subrange(i + 1, positions[0]));
        assert(spliced_from(input, i, positions, n, replacement) =~= seq![input[i]] + spliced_from(
            input,
            i + 1,
            positions,
            n,
            replacement,
        ));
    }
}

proof fn lemma_replaced_from_matches(
    input: Seq<u16>,
    i: int,
    needle: Seq<u16>,
    replacement: Seq<u16>,
    flags: u32,
    c: spec_fn(Seq<u16>, Seq<u16>) -> bool,
) -> (positions: Seq<int>)
    requires
        0 <= i <= input.len(),
        needle.len() > 0,
    ensures
        covering_matches(input, needle, i, flags, c, positions),
        replaced_from(input, i, needle, replacement, flags, c).1 == positions.len(),
        replaced_from(input, i, needle, replacement, flags, c).0 == spliced_from(
            input,
            i,
            positions,
            needle.len() as int,
            replacement,
        ),
    decreases input.len() - i,
{
    let n = needle.len() as int;
    if i >= input.len() {
        let positions = Seq::<int>::empty();
        assert(input.subrange(i, input.len() as int) =~= Seq::<u16>::empty());
        let p = |j: int| match_at(input, needle, j, flags, c);
        assert forall|j: int| i <= j implies !#[trigger] p(j) by {}
        lemma_covers_none(p, i, n);
        positions
    } else if match_at(input, needle, i, flags, c) {
        let rest = lemma_replaced_from_matches(input, i + n, needle, replacement, flags, c);
        lemma_covers_take(|j: int| match_at(input, needle, j, flags, c), i, n, rest);
        let positions = seq![i] + rest;
        assert(positions.drop_first() =~= rest);
        assert(input.subrange(i, i) =~= Seq::<u16>::empty());
        assert(spliced_from(input, i, positions, n, replacement) =~= replacement + spliced_from(
            input,
            i + n,
            rest,
            n,
            replacement,
        ));
        positions
    } else {
        let positions = lemma_replaced_from_matches(input, i + 1, needle, replacement, flags, c);
        lemma_covers_skip(|j: int| match_at(input, needle, j, flags, c), i, n, positions);
        if positions.len() > 0 {
            assert(i + 1 <= positions[0]);
            let p = |j: int| match_at(input, needle, j, flags, c);
            assert(p(positions[0]));
            assert(positions[0] + n <= input.len());
        }
        lemma_spliced_skip(input, i, positions, n, replacement);
        positions
    }
}

/// Replace All replaces exactly the occurrences that Find accepts: the
/// result is the text with the replacement put in place of a series of
/// matches (each one a match under the same options, both word boundaries
/// included), taken from left to right without overlapping, their number is
/// the count reported, and every match of the needle lies inside one of the
/// replaced occurrences.
pub proof fn lemma_replace_all_replaces_the_matches(
    input: Seq<u16>,
    needle: Seq<u16>,
    replacement: Seq<u16>,
    flags: u32,
    c: spec_fn(Seq<u16>, Seq<u16>) -> bool,
) -> (positions: Seq<int>)
    requires
        needle.len() > 0,
    ensures
        covering_matches(input, needle, 0, flags, c, positions),
        replaced(input, needle, replacement, flags, c).1 == positions.len(),
        replaced(input, needle, replacement, flags, c).0 == spliced_from(
            input,
            0,
            positions,
            needle.len() as int,
            replacement,
        ),
{
    lemma_replaced_from_matches(input, 0, needle, replacement, flags, c)
}

} // verus!
