//! Localized message texts: the catalog lookup that falls back to the
//! embedded English string table, the `%1`..`%9` placeholder formatter, and
//! the fixed text used when no catalog string can be loaded.

use vstd::prelude::*;
use vstd::slice::slice_to_vec;

use crate::dialogs::{to_wide, utf16};
use crate::search::push_units;

verus! {

pub const PERCENT: u16 = 37;
pub const DIGIT_ZERO: u16 = 48;
pub const DIGIT_ONE: u16 = 49;
pub const DIGIT_NINE: u16 = 57;

/// An argument for a numbered placeholder.
pub enum FormatArg<'a> {
    /// UTF-16 text, inserted as it is.
    Wide(&'a [u16]),
    /// An operating-system string (such as a path), given by its UTF-16
    /// units and inserted unit for unit, unpaired surrogates included.
    Os(&'a [u16]),
    /// A number, inserted in decimal.
    Unsigned(u64),
}

/// The decimal digits of `v`, most significant first.
pub open spec fn decimal_units(v: nat) -> Seq<u16>
    decreases v,
{
    if v < 10 {
        seq![(DIGIT_ZERO + v) as u16]
    } else {
        decimal_units(v / 10).push((DIGIT_ZERO + v % 10) as u16)
    }
}

/// The code units that an argument inserts.
pub open spec fn arg_units(arg: FormatArg) -> Seq<u16> {
    match arg {
        FormatArg::Wide(units) => units@,
        FormatArg::Os(units) => units@,
        FormatArg::Unsigned(v) => decimal_units(v as nat),
    }
}

pub open spec fn args_units(args: Seq<FormatArg>) -> Seq<Seq<u16>> {
    args.map_values(|arg: FormatArg| arg_units(arg))
}

/// Appends the decimal digits of `value` to `out`.
pub fn push_decimal(out: &mut Vec<u16>, value: u64)
    ensures
        final(out)@ == old(out)@ + decimal_units(value as nat),
{
    let mut digits: Vec<u16> = Vec::new();
    let mut rest: u64 = value;
    loop
        invariant_except_break
            decimal_units(value as nat) == decimal_units(rest as nat) + digits@.reverse(),
        ensures
            decimal_units(value as nat) == digits@.reverse(),
        decreases rest,
    {
        let digit = (rest % 10) as u16;
        let ghost old_digits = digits@;
        let ghost old_rest = rest;
        digits.push(DIGIT_ZERO + digit);
        rest = rest / 10;
        proof {
            assert(digits@.reverse() =~= seq![(DIGIT_ZERO + old_rest % 10) as u16] + old_digits.reverse());
            if old_rest < 10 {
                assert(decimal_units(old_rest as nat) == seq![(DIGIT_ZERO + old_rest) as u16]);
                assert(decimal_units(value as nat) =~= digits@.reverse());
            } else {
                assert(decimal_units(old_rest as nat) == decimal_units(rest as nat).push(
                    (DIGIT_ZERO + old_rest % 10) as u16,
                ));
                assert(decimal_units(value as nat) =~= decimal_units(rest as nat) + digits@.reverse());
            }
        }
        if rest == 0 {
            break;
        }
    }
    let mut i: usize = digits.len();
    let ghost start = out@;
    while i > 0
        invariant
            i <= digits@.len(),
            out@ == start + digits@.reverse().subrange(0, digits@.len() - i),
        decreases i,
    {
        i = i - 1;
        out.push(digits[i]);
        assert(out@ =~= start + digits@.reverse().subrange(0, digits@.len() - i));
    }
    assert(digits@.reverse().subrange(0, digits@.len() as int) =~= digits@.reverse());
}

pub open spec fn is_digit(unit: u16) -> bool {
    DIGIT_ZERO <= unit <= DIGIT_NINE
}

/// The end of the run of decimal digits that starts at `k`.
pub open spec fn digits_end(t: Seq<u16>, k: int) -> int
    decreases t.len() - k,
{
    if 0 <= k < t.len() && is_digit(t[k]) {
        digits_end(t, k + 1)
    } else {
        k
    }
}

/// The number that a run of decimal digits spells.
pub open spec fn digits_value(s: Seq<u16>) -> nat
    decreases s.len(),
{
    if s.len() == 0 {
        0
    } else {
        digits_value(s.drop_last()) * 10 + (s.last() - DIGIT_ZERO) as nat
    }
}

/// The digits run that starts at `k` ends within the text, and holds only
/// digits.
pub proof fn lemma_digits_end(t: Seq<u16>, k: int)
    requires
        0 <= k <= t.len(),
    ensures
        k <= digits_end(t, k) <= t.len(),
        forall|j: int| k <= j < digits_end(t, k) ==> is_digit(#[trigger] t[j]),
    decreases t.len() - k,
{
    if k < t.len() && is_digit(t[k]) {
        lemma_digits_end(t, k + 1);
    }
}

pub open spec fn prefix_opt(head: Seq<u16>, rest: Option<Seq<u16>>) -> Option<Seq<u16>> {
    match rest {
        Some(tail) => Some(head + tail),
        None => None,
    }
}

/// Formatting of `t` from offset `i` on: `%%` is a literal percent sign and
/// `%n` (a run of decimal digits starting with 1-9) inserts argument `n`,
/// counted from one; any other `%` use, or a missing argument, fails.
pub open spec fn format_from(t: Seq<u16>, i: int, args: Seq<Seq<u16>>) -> Option<Seq<u16>>
    decreases t.len() - i,
{
    if i < 0 || i >= t.len() {
        Some(Seq::empty())
    } else if t[i] != PERCENT {
        prefix_opt(seq![t[i]], format_from(t, i + 1, args))
    } else if i + 1 < t.len() && t[i + 1] == PERCENT {
        prefix_opt(seq![PERCENT], format_from(t, i + 2, args))
    } else if i + 1 >= t.len() || !(DIGIT_ONE <= t[i + 1] <= DIGIT_NINE) {
        None
    } else {
        proof {
            lemma_digits_end(t, i + 1);
        }
        let end = digits_end(t, i + 1);
        let n = digits_value(t.subrange(i + 1, end));
        if n < 1 || n > args.len() {
            None
        } else {
            prefix_opt(args[n - 1], format_from(t, end, args))
        }
    }
}

/// A formatted message: the template with its placeholders filled in,
/// NUL-terminated; `None` when the template is malformed or refers to a
/// missing argument.
pub open spec fn formatted(t: Seq<u16>, args: Seq<Seq<u16>>) -> Option<Seq<u16>> {
    match format_from(t, 0, args) {
        Some(out) => Some(out.push(0)),
        None => None,
    }
}

pub open spec fn finish_opt(done: Seq<u16>, rest: Option<Seq<u16>>) -> Option<Seq<u16>> {
    match rest {
        Some(tail) => Some((done + tail).push(0)),
        None => None,
    }
}

pub open spec fn opt_vec_view(r: Option<Vec<u16>>) -> Option<Seq<u16>> {
    match r {
        Some(v) => Some(v@),
        None => None,
    }
}

/// A longer run of digits reads as a number at least as large.
pub(crate) proof fn lemma_digits_value_grows(t: Seq<u16>, start: int, a: int, b: int)
    requires
        0 <= start <= a <= b <= t.len(),
        forall|j: int| start <= j < b ==> is_digit(#[trigger] t[j]),
    ensures
        digits_value(t.subrange(start, a)) <= digits_value(t.subrange(start, b)),
    decreases b - a,
{
    if a < b {
        lemma_digits_value_grows(t, start, a, b - 1);
        assert(t.subrange(start, b).drop_last() =~= t.subrange(start, b - 1));
    }
}

/// Fills the numbered placeholders of `template` (see [`formatted`]).
pub fn format_units(template: &[u16], args: &[FormatArg]) -> (result: Option<Vec<u16>>)
    ensures
        opt_vec_view(result) == formatted(template@, args_units(args@)),
{
    let ghost a = args_units(args@);
    let mut output: Vec<u16> = Vec::new();
    let mut index: usize = 0;
    proof {
        assert(output@ =~= Seq::<u16>::empty());
        if let Some(out) = format_from(template@, 0, a) {
            assert(output@ + out =~= out);
        }
    }
    while index < template.len()
        invariant
            index <= template@.len(),
            a == args_units(args@),
            formatted(template@, a) == finish_opt(output@, format_from(template@, index as int, a)),
        decreases template@.len() - index,
    {
        let ghost i = index as int;
        let ghost before = output@;
        if template[index] != PERCENT {
            output.push(template[index]);
            index = index + 1;
            proof {
                if let Some(rest) = format_from(template@, index as int, a) {
                    assert(before + (seq![template@[i]] + rest) =~= output@ + rest);
                }
            }
            continue;
        }
        index = index + 1;
        if index < template.len() && template[index] == PERCENT {
            output.push(PERCENT);
            index = index + 1;
            proof {
                if let Some(rest) = format_from(template@, index as int, a) {
                    assert(before + (seq![PERCENT] + rest) =~= output@ + rest);
                }
            }
            continue;
        }
        if index >= template.len() {
            return None;
        }
        let first = template[index];
        if !(DIGIT_ONE <= first && first <= DIGIT_NINE) {
            return None;
        }
        let start = index;
        let ghost end = digits_end(template@, start as int);
        proof {
            lemma_digits_end(template@, start as int);
            assert(template@.subrange(start as int, start as int) =~= Seq::<u16>::empty());
        }
        let mut number: usize = 0;
        let args_len = args.len();
        while index < template.len() && DIGIT_ZERO <= template[index] && template[index] <= DIGIT_NINE
            invariant
                start <= index <= end <= template@.len(),
                end == digits_end(template@, start as int),
                digits_end(template@, index as int) == end,
                forall|j: int| start <= j < end ==> is_digit(#[trigger] template@[j]),
                number == digits_value(template@.subrange(start as int, index as int)),
                formatted(template@, a) == finish_opt(before, format_from(template@, i, a)),
                a == args_units(args@),
                args_len == args@.len(),
                0 <= i && i + 1 == start,
                template@[i] == PERCENT,
                DIGIT_ONE <= template@[start as int] <= DIGIT_NINE,
            decreases template@.len() - index,
        {
            let unit = template[index];
            proof {
                lemma_digits_end(template@, index + 1);
                assert(digits_end(template@, index as int) == digits_end(template@, index + 1));
            }
            let ghost next_value = digits_value(template@.subrange(start as int, index + 1));
            proof {
                assert(template@.subrange(start as int, index + 1).drop_last() =~= template@.subrange(
                    start as int,
                    index as int,
                ));
                assert(next_value == number * 10 + (unit - DIGIT_ZERO));
            }
            let tens = match number.checked_mul(10) {
                Some(tens) => tens,
                None => {
                    proof {
                        lemma_digits_value_grows(template@, start as int, index + 1, end);
                        assert(digits_value(template@.subrange(start as int, end)) > args_len);
                    }
                    return None;
                },
            };
            number = match tens.checked_add((unit - DIGIT_ZERO) as usize) {
                Some(number) => number,
                None => {
                    proof {
                        lemma_digits_value_grows(template@, start as int, index + 1, end);
                        assert(digits_value(template@.subrange(start as int, end)) > args_len);
                    }
                    return None;
                },
            };
            index = index + 1;
        }
        proof {
            assert(index == end);
        }
        if number == 0 || number - 1 >= args.len() {
            return None;
        }
        let argument = &args[number - 1];
        assert(a[number - 1] == arg_units(*argument));
        match argument {
            FormatArg::Wide(value) => push_units(&mut output, value),
            FormatArg::Os(value) => push_units(&mut output, value),
            FormatArg::Unsigned(value) => push_decimal(&mut output, *value),
        }
        proof {
            if let Some(rest) = format_from(template@, index as int, a) {
                assert(before + (a[number - 1] + rest) =~= output@ + rest);
            }
        }
    }
    output.push(0);
    proof {
        assert(output@.drop_last() + Seq::<u16>::empty() =~= output@.drop_last());
    }
    Some(output)
}

/// A text without its terminating NUL, if it has one.
pub open spec fn strip_nul(units: Seq<u16>) -> Seq<u16> {
    if units.len() > 0 && units.last() == 0 {
        units.drop_last()
    } else {
        units
    }
}

pub fn without_trailing_nul(units: &[u16]) -> (r: &[u16])
    ensures
        r@ == strip_nul(units@),
{
    if units.len() > 0 && units[units.len() - 1] == 0 {
        &units[0..units.len() - 1]
    } else {
        units
    }
}

/// The fixed English message shown when no catalog string can be loaded.
pub open spec fn emergency_units() -> Seq<u16> {
    utf16("Notepad Classic could not load a required language resource."@).push(0)
}

pub fn emergency_text() -> (r: Vec<u16>)
    ensures
        r@ == emergency_units(),
{
    to_wide("Notepad Classic could not load a required language resource.")
}

/// A catalog string as loaded (NUL-terminated), or the emergency text when
/// it could not be loaded.
pub fn text(loaded: Option<Vec<u16>>) -> (r: Vec<u16>)
    ensures
        r@ == match loaded {
            Some(units) => units@,
            None => emergency_units(),
        },
{
    match loaded {
        Some(units) => units,
        None => emergency_text(),
    }
}

/// A formatted catalog message: the loaded template (or the emergency text)
/// with its placeholders filled in; the emergency text when the template
/// cannot be formatted with these arguments.
pub fn format(loaded: Option<Vec<u16>>, args: &[FormatArg]) -> (r: Vec<u16>)
    ensures
        r@ == match formatted(
            strip_nul(
                match loaded {
                    Some(units) => units@,
                    None => emergency_units(),
                },
            ),
            args_units(args@),
        ) {
            Some(message) => message,
            None => emergency_units(),
        },
{
    let template = text(loaded);
    match format_units(without_trailing_nul(&template), args) {
        Some(message) => message,
        None => emergency_text(),
    }
}

/// Entry `slot` of a string-table block read from offset `cursor`, where
/// `index` entries have been passed.  A block holds sixteen strings, each
/// stored as its length followed by its code units; an empty or truncated
/// entry gives `None`.  The entry comes back NUL-terminated.
pub open spec fn block_entry_from(units: Seq<u16>, cursor: int, index: int, slot: int) -> Option<Seq<u16>>
    decreases 16 - index,
{
    if index < 0 || index >= 16 || cursor < 0 || cursor >= units.len() {
        None
    } else {
        let start = cursor + 1;
        let end = start + units[cursor];
        if end > units.len() {
            None
        } else if index == slot {
            if end == start {
                None
            } else {
                Some(units.subrange(start, end).push(0))
            }
        } else {
            block_entry_from(units, end, index + 1, slot)
        }
    }
}

pub open spec fn block_entry(units: Seq<u16>, slot: int) -> Option<Seq<u16>> {
    block_entry_from(units, 0, 0, slot)
}

/// Reads string `slot` out of a raw string-table block (see [`block_entry`]).
pub fn english_string_from_block(units: &[u16], slot: usize) -> (r: Option<Vec<u16>>)
    ensures
        opt_vec_view(r) == block_entry(units@, slot as int),
{
    let mut cursor: usize = 0;
    let mut index: usize = 0;
    while index < 16
        invariant
            index <= 16,
            cursor <= units@.len(),
            block_entry(units@, slot as int) == block_entry_from(units@, cursor as int, index as int, slot as int),
        decreases 16 - index,
    {
        if cursor >= units.len() {
            return None;
        }
        let length = units[cursor] as usize;
        let start = cursor + 1;
        let end = match start.checked_add(length) {
            Some(end) => end,
            None => {
                return None;
            },
        };
        if end > units.len() {
            return None;
        }
        if index == slot {
            if end == start {
                return None;
            }
            let mut output = slice_to_vec(&units[start..end]);
            output.push(0);
            return Some(output);
        }
        cursor = end;
        index = index + 1;
    }
    None
}

/// Where string `id` lives: its string-table block (numbered from one) and
/// its slot in that block.
pub fn string_block(id: usize) -> (r: Option<(usize, usize)>)
    ensures
        r == (if id / 16 + 1 <= usize::MAX {
            Some(((id / 16 + 1) as usize, (id % 16) as usize))
        } else {
            None
        }),
{
    let block = match (id / 16).checked_add(1) {
        Some(block) => block,
        None => {
            return None;
        },
    };
    Some((block, id % 16))
}

/// What to do after one attempt to load a catalog string into a buffer of
/// `capacity` units.
pub enum StringLoadStep {
    /// The string is complete (NUL-terminated), or missing.
    Done(Option<Vec<u16>>),
    /// The string may have been cut off: try again with this capacity.
    Retry(usize),
}

/// Decides after loading a catalog string: nothing written means the
/// string is missing; a result that leaves room for the terminator is
/// complete; otherwise the buffer is doubled (and the string given up when
/// the size would overflow).
pub fn string_load_step(buffer: Vec<u16>, written: i32, capacity: usize) -> (r: StringLoadStep)
    requires
        0 <= written,
        written < capacity ==> written <= buffer@.len(),
    ensures
        written == 0 ==> r matches StringLoadStep::Done(None),
        written > 0 && written + 1 < capacity ==> (r matches StringLoadStep::Done(Some(units)) && units@
            == buffer@.subrange(0, written as int).push(0)),
        written > 0 && written + 1 >= capacity ==> (if capacity * 2 <= usize::MAX {
            r matches StringLoadStep::Retry(next) && next == capacity * 2
        } else {
            r matches StringLoadStep::Done(None)
        }),
{
    if written == 0 {
        return StringLoadStep::Done(None);
    }
    if (written as usize) < capacity && written as usize + 1 < capacity {
        let mut buffer = buffer;
        buffer.truncate(written as usize);
        buffer.push(0);
        return StringLoadStep::Done(Some(buffer));
    }
    match capacity.checked_mul(2) {
        Some(next) => StringLoadStep::Retry(next),
        None => StringLoadStep::Done(None),
    }
}

} // verus!

verus! {

/// The number inserted for a placeholder reads back as itself: its decimal
/// digits spell the value.
pub proof fn lemma_decimal_reads_back(v: nat)
    ensures
        digits_value(decimal_units(v)) == v,
        forall|j: int| 0 <= j < decimal_units(v).len() ==> is_digit(#[trigger] decimal_units(v)[j]),
    decreases v,
{
    if v >= 10 {
        lemma_decimal_reads_back(v / 10);
        let d = decimal_units(v);
        assert(d.drop_last() =~= decimal_units(v / 10));
        assert(d.last() == (DIGIT_ZERO + v % 10) as u16);
        assert(digits_value(d) == digits_value(d.drop_last()) * 10 + (d.last() - DIGIT_ZERO) as nat);
        assert((v / 10) * 10 + v % 10 == v);
        assert forall|j: int| 0 <= j < d.len() implies is_digit(#[trigger] d[j]) by {
            if j < d.len() - 1 {
                assert(d[j] == decimal_units(v / 10)[j]);
            }
        }
    } else {
        let d = decimal_units(v);
        assert(d.drop_last() =~= Seq::<u16>::empty());
        assert(digits_value(d.drop_last()) == 0);
    }
}

/// A template without placeholders is its own message.
pub proof fn lemma_plain_template_formats_to_itself(t: Seq<u16>, args: Seq<Seq<u16>>, i: int)
    requires
        0 <= i <= t.len(),
        forall|j: int| 0 <= j < t.len() ==> #[trigger] t[j] != PERCENT,
    ensures
        format_from(t, i, args) == Some(t.subrange(i, t.len() as int)),
        i == 0 ==> formatted(t, args) == Some(t.push(0)),
    decreases t.len() - i,
{
    if i < t.len() {
        lemma_plain_template_formats_to_itself(t, args, i + 1);
        assert(seq![t[i]] + t.subrange(i + 1, t.len() as int) =~= t.subrange(i, t.len() as int));
    } else {
        assert(t.subrange(i, t.len() as int) =~= Seq::<u16>::empty());
    }
    if i == 0 {
        assert(t.subrange(0, t.len() as int) =~= t);
    }
}

} // verus!
