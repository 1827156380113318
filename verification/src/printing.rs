//! Print layout: splitting a document into logical lines, expanding tabs,
//! word wrapping against a measured width and cutting the result into pages.

use vstd::prelude::*;
use vstd::slice::slice_to_vec;

pub mod modern;

verus! {

pub const TAB: u16 = 9;
pub const LINE_FEED: u16 = 10;
pub const CARRIAGE_RETURN: u16 = 13;
pub const SPACE: u16 = 32;

pub open spec fn is_line_break(unit: u16) -> bool {
    unit == CARRIAGE_RETURN || unit == LINE_FEED
}

/// Offset of the first CR or LF in `s`, or `s.len()` when there is none.
pub open spec fn first_break(s: Seq<u16>) -> nat
    decreases s.len(),
{
    if s.len() == 0 {
        0
    } else if is_line_break(s[0]) {
        0
    } else {
        1 + first_break(s.drop_first())
    }
}

/// Number of units of the line break starting at `i`: CRLF counts as one
/// break of two units, a lone CR or LF as one unit.
pub open spec fn break_width(s: Seq<u16>, i: int) -> int {
    if s[i] == CARRIAGE_RETURN && i + 1 < s.len() && s[i + 1] == LINE_FEED {
        2
    } else {
        1
    }
}

/// The first line break lies within the text, and nothing before it is a
/// line break.
pub proof fn lemma_first_break_bound(s: Seq<u16>)
    ensures
        first_break(s) <= s.len(),
        first_break(s) < s.len() ==> is_line_break(s[first_break(s) as int]),
        forall|j: int| 0 <= j < first_break(s) ==> !is_line_break(#[trigger] s[j]),
    decreases s.len(),
{
    if s.len() > 0 && !is_line_break(s[0]) {
        lemma_first_break_bound(s.drop_first());
        assert forall|j: int| 0 <= j < first_break(s) implies !is_line_break(#[trigger] s[j]) by {
            if j > 0 {
                assert(s[j] == s.drop_first()[j - 1]);
            }
        }
    }
}

/// The logical lines of a text: the pieces between line breaks, where a line
/// break is CRLF, a lone LF or a lone CR.  A text ending in a break has an
/// empty last line, and the empty text has one empty line.
pub open spec fn logical_lines(s: Seq<u16>) -> Seq<Seq<u16>>
    decreases s.len(),
{
    let b = first_break(s) as int;
    if b >= s.len() {
        seq![s]
    } else {
        proof {
            lemma_first_break_bound(s);
        }
        seq![s.subrange(0, b)] + logical_lines(s.subrange(b + break_width(s, b), s.len() as int))
    }
}

/// No logical line is longer than the text it comes from.
pub proof fn lemma_logical_lines_short(s: Seq<u16>)
    ensures
        forall|k: int| 0 <= k < logical_lines(s).len() ==> (#[trigger] logical_lines(s)[k]).len() <= s.len(),
    decreases s.len(),
{
    let b = first_break(s) as int;
    lemma_first_break_bound(s);
    if b < s.len() {
        let rest = s.subrange(b + break_width(s, b), s.len() as int);
        lemma_logical_lines_short(rest);
        assert forall|k: int| 0 <= k < logical_lines(s).len() implies (#[trigger] logical_lines(s)[k]).len() <= s.len() by {
            if k > 0 {
                assert(logical_lines(s)[k] == logical_lines(rest)[k - 1]);
            }
        }
    }
}

proof fn lemma_first_break_at(s: Seq<u16>, k: int)
    requires
        0 <= k <= s.len(),
        forall|j: int| 0 <= j < k ==> !is_line_break(#[trigger] s[j]),
        k == s.len() || is_line_break(s[k]),
    ensures
        first_break(s) == k,
    decreases k,
{
    if k > 0 {
        assert forall|j: int| 0 <= j < k - 1 implies !is_line_break(#[trigger] s.drop_first()[j]) by {
            assert(s.drop_first()[j] == s[j + 1]);
        }
        lemma_first_break_at(s.drop_first(), k - 1);
    }
}

pub open spec fn slice_views(lines: Seq<&[u16]>) -> Seq<Seq<u16>> {
    lines.map_values(|line: &[u16]| line@)
}

/// Splits a text into its logical lines (see [`logical_lines`]).
pub fn split_logical_lines(text: &[u16]) -> (lines: Vec<&[u16]>)
    ensures
        slice_views(lines@) == logical_lines(text@),
{
    let mut lines: Vec<&[u16]> = Vec::new();
    let mut start: usize = 0;
    let mut i: usize = 0;
    proof {
        assert(text@.subrange(0, text@.len() as int) =~= text@);
        assert(slice_views(lines@) =~= Seq::<Seq<u16>>::empty());
        assert(slice_views(lines@) + logical_lines(text@) =~= logical_lines(text@));
    }
    while i < text.len()
        invariant
            start <= i <= text.len(),
            forall|j: int| start <= j < i ==> !is_line_break(#[trigger] text@[j]),
            logical_lines(text@) == slice_views(lines@) + logical_lines(
                text@.subrange(start as int, text@.len() as int),
            ),
        decreases text.len() - i,
    {
        if text[i] == CARRIAGE_RETURN || text[i] == LINE_FEED {
            let ghost suffix = text@.subrange(start as int, text@.len() as int);
            proof {
                assert forall|j: int| 0 <= j < i - start implies !is_line_break(#[trigger] suffix[j]) by {
                    assert(suffix[j] == text@[start + j]);
                }
                lemma_first_break_at(suffix, i - start);
            }
            let next = if text[i] == CARRIAGE_RETURN && i + 1 < text.len() && text[i + 1] == LINE_FEED {
                i + 2
            } else {
                i + 1
            };
            let ghost old_lines = lines@;
            lines.push(&text[start..i]);
            proof {
                let b = (i - start) as int;
                assert(break_width(suffix, b) == next - i);
                assert(suffix.subrange(0, b) =~= text@.subrange(start as int, i as int));
                assert(suffix.subrange(b + break_width(suffix, b), suffix.len() as int)
                    =~= text@.subrange(next as int, text@.len() as int));
                assert(slice_views(lines@) =~= slice_views(old_lines).push(
                    text@.subrange(start as int, i as int),
                ));
                assert(slice_views(lines@) + logical_lines(
                    text@.subrange(next as int, text@.len() as int),
                ) =~= slice_views(old_lines) + logical_lines(suffix));
            }
            i = next;
            start = i;
        } else {
            i = i + 1;
        }
    }
    let ghost suffix = text@.subrange(start as int, text@.len() as int);
    proof {
        assert forall|j: int| 0 <= j < text.len() - start implies !is_line_break(#[trigger] suffix[j]) by {
            assert(suffix[j] == text@[start + j]);
        }
        lemma_first_break_at(suffix, text.len() - start);
    }
    let ghost old_lines = lines@;
    lines.push(&text[start..text.len()]);
    proof {
        assert(slice_views(lines@) =~= slice_views(old_lines).push(suffix));
        assert(logical_lines(suffix) == seq![suffix]);
        assert(slice_views(lines@) =~= slice_views(old_lines) + logical_lines(suffix));
    }
    lines
}

/// `n` spaces.
pub open spec fn spaces(n: int) -> Seq<u16> {
    Seq::new(n as nat, |i: int| SPACE)
}

/// A line with every tab replaced by the spaces that reach the next tab stop;
/// tab stops are every eight columns and every code unit takes one column.
pub open spec fn expanded(line: Seq<u16>) -> Seq<u16>
    decreases line.len(),
{
    if line.len() == 0 {
        Seq::empty()
    } else {
        let before = expanded(line.drop_last());
        if line.last() == TAB {
            before + spaces(8 - before.len() % 8)
        } else {
            before.push(line.last())
        }
    }
}

/// Expands tabs to eight-column stops (see [`expanded`]).
pub fn expand_tabs(line: &[u16]) -> (result: Vec<u16>)
    requires
        line@.len() <= usize::MAX / 8,
    ensures
        result@ == expanded(line@),
        result@.len() <= 8 * line@.len(),
{
    let mut result: Vec<u16> = Vec::with_capacity(line.len());
    let mut col: usize = 0;
    let mut i: usize = 0;
    proof {
        assert(line@.subrange(0, 0) =~= Seq::<u16>::empty());
    }
    while i < line.len()
        invariant
            i <= line.len(),
            line@.len() <= usize::MAX / 8,
            col == result@.len(),
            result@.len() <= 8 * i,
            result@ == expanded(line@.subrange(0, i as int)),
        decreases line.len() - i,
    {
        let unit = line[i];
        proof {
            assert(line@.subrange(0, i + 1).drop_last() =~= line@.subrange(0, i as int));
            assert(line@.subrange(0, i + 1).last() == unit);
        }
        if unit == TAB {
            let spaces_to_add = 8 - (col % 8);
            let ghost before = result@;
            let mut k: usize = 0;
            while k < spaces_to_add
                invariant
                    k <= spaces_to_add <= 8,
                    result@ == before + spaces(k as int),
                    before.len() <= 8 * i,
                    i < line.len(),
                    line@.len() <= usize::MAX / 8,
                decreases spaces_to_add - k,
            {
                result.push(SPACE);
                k = k + 1;
                assert(result@ =~= before + spaces(k as int));
            }
            col = col + spaces_to_add;
        } else {
            result.push(unit);
            col = col + 1;
        }
        i = i + 1;
    }
    proof {
        assert(line@.subrange(0, line@.len() as int) =~= line@);
    }
    result
}

pub open spec fn high_surrogate(unit: u16) -> bool {
    0xD800 <= unit <= 0xDBFF
}

pub open spec fn low_surrogate(unit: u16) -> bool {
    0xDC00 <= unit <= 0xDFFF
}

/// Whether cutting `s` before offset `k` would separate a high surrogate from
/// the low surrogate that follows it.
pub open spec fn splits_pair(s: Seq<u16>, k: int) -> bool {
    0 < k < s.len() && high_surrogate(s[k - 1]) && low_surrogate(s[k])
}

pub fn is_high_surrogate(unit: u16) -> (r: bool)
    ensures
        r == high_surrogate(unit),
{
    unit >= 0xD800 && unit <= 0xDBFF
}

pub fn is_low_surrogate(unit: u16) -> (r: bool)
    ensures
        r == low_surrogate(unit),
{
    unit >= 0xDC00 && unit <= 0xDFFF
}

/// A text measurer described as a function: every width that `f` reports
/// for a piece of text is `m` of that text.
pub open spec fn measures_as<F: Fn(&[u16]) -> Option<i32>>(
    f: F,
    m: spec_fn(Seq<u16>) -> Option<i32>,
) -> bool {
    forall|text: &[u16], width: Option<i32>|
        #[trigger] call_ensures(f, (text,), width) ==> width == m(text@)
}

pub open spec fn measurable<F: Fn(&[u16]) -> Option<i32>>(f: F) -> bool {
    forall|text: &[u16]| call_requires(f, (text,))
}

/// The prefix length measured when the search probes `mid` units: one more
/// when `mid` would end inside a surrogate pair.
pub open spec fn probe_len(s: Seq<u16>, mid: int) -> int {
    if splits_pair(s, mid) {
        mid + 1
    } else {
        mid
    }
}

/// Binary search for a prefix of `s` whose measured width is at most
/// `max_width`, over candidate lengths `low..=high`; `best` is the longest
/// fitting prefix found so far.  `None` when a measurement fails.
pub open spec fn fitting_prefix_search(
    s: Seq<u16>,
    max_width: i32,
    m: spec_fn(Seq<u16>) -> Option<i32>,
    low: int,
    high: int,
    best: int,
) -> Option<int>
    decreases high + 2 - low,
{
    if low > high {
        Some(best)
    } else {
        let mid = low + (high - low) / 2;
        let len = probe_len(s, mid);
        match m(s.subrange(0, len)) {
            None => None,
            Some(width) => if width <= max_width {
                fitting_prefix_search(s, max_width, m, len + 1, high, len)
            } else if mid <= 1 {
                Some(best)
            } else {
                fitting_prefix_search(s, max_width, m, low, mid - 1, best)
            },
        }
    }
}

/// The fitting prefix length chosen for `s`: the search over `1..=s.len()`.
pub open spec fn fitting_prefix(
    s: Seq<u16>,
    max_width: i32,
    m: spec_fn(Seq<u16>) -> Option<i32>,
) -> Option<int> {
    fitting_prefix_search(s, max_width, m, 1, s.len() as int, 0)
}

pub open spec fn opt_usize_view(r: Option<usize>) -> Option<int> {
    match r {
        Some(v) => Some(v as int),
        None => None,
    }
}

proof fn lemma_fitting_prefix_bounds(
    s: Seq<u16>,
    max_width: i32,
    m: spec_fn(Seq<u16>) -> Option<i32>,
    low: int,
    high: int,
    best: int,
)
    requires
        1 <= low,
        high <= s.len(),
        0 <= best <= s.len(),
        best == 0 || !splits_pair(s, best),
    ensures
        fitting_prefix_search(s, max_width, m, low, high, best) matches Some(b) ==> 0 <= b <= s.len()
            && (b == 0 || !splits_pair(s, b)),
    decreases high + 2 - low,
{
    if low <= high {
        let mid = low + (high - low) / 2;
        let len = probe_len(s, mid);
        if let Some(width) = m(s.subrange(0, len)) {
            if width <= max_width {
                lemma_fitting_prefix_bounds(s, max_width, m, len + 1, high, len);
            } else if mid > 1 {
                lemma_fitting_prefix_bounds(s, max_width, m, low, mid - 1, best);
            }
        }
    }
}

/// Finds, by binary search, the length of a prefix of `text` that fits in
/// `max_width` according to `measure_width` (see [`fitting_prefix`]); `None`
/// when a measurement fails.
pub fn find_fitting_prefix_len<F: Fn(&[u16]) -> Option<i32>>(
    text: &[u16],
    max_width: i32,
    measure_width: &F,
) -> (result: Option<usize>)
    requires
        measurable(*measure_width),
        text@.len() < usize::MAX,
    ensures
        forall|m: spec_fn(Seq<u16>) -> Option<i32>|
            #[trigger] measures_as(*measure_width, m) ==> opt_usize_view(result) == fitting_prefix(
                text@,
                max_width,
                m,
            ),
        result matches Some(b) ==> b <= text@.len() && (b == 0 || !splits_pair(text@, b as int)),
{
    let mut low: usize = 1;
    let mut high: usize = text.len();
    let mut best: usize = 0;
    proof {
        assert forall|m: spec_fn(Seq<u16>) -> Option<i32>| #[trigger]
            measures_as(*measure_width, m) implies fitting_prefix_search(
            text@,
            max_width,
            m,
            low as int,
            high as int,
            best as int,
        ) == fitting_prefix(text@, max_width, m) by {}
    }
    while low <= high
        invariant
            1 <= low <= high + 2,
            high <= text@.len(),
            text@.len() < usize::MAX,
            best <= text@.len(),
            best == 0 || !splits_pair(text@, best as int),
            measurable(*measure_width),
            forall|m: spec_fn(Seq<u16>) -> Option<i32>| #[trigger]
                measures_as(*measure_width, m) ==> fitting_prefix_search(
                    text@,
                    max_width,
                    m,
                    low as int,
                    high as int,
                    best as int,
                ) == fitting_prefix(text@, max_width, m),
        ensures
            best <= text@.len(),
            best == 0 || !splits_pair(text@, best as int),
            forall|m: spec_fn(Seq<u16>) -> Option<i32>| #[trigger]
                measures_as(*measure_width, m) ==> Some(best as int) == fitting_prefix(
                    text@,
                    max_width,
                    m,
                ),
        decreases high + 2 - low,
    {
        let mid = low + (high - low) / 2;
        let measure_len = if mid < text.len() && is_high_surrogate(text[mid - 1]) && is_low_surrogate(
            text[mid],
        ) {
            mid + 1
        } else {
            mid
        };
        assert(measure_len == probe_len(text@, mid as int));
        let prefix = &text[0..measure_len];
        let measured = measure_width(prefix);
        let width = match measured {
            Some(width) => width,
            None => {
                assert forall|m: spec_fn(Seq<u16>) -> Option<i32>| #[trigger]
                    measures_as(*measure_width, m) implies None::<int> == fitting_prefix(
                    text@,
                    max_width,
                    m,
                ) by {
                    assert(m(prefix@) == measured);
                }
                return None;
            },
        };
        if width <= max_width {
            let ghost old_low = low;
            let ghost old_best = best;
            best = measure_len;
            low = measure_len + 1;
            assert forall|m: spec_fn(Seq<u16>) -> Option<i32>| #[trigger]
                measures_as(*measure_width, m) implies fitting_prefix_search(
                text@,
                max_width,
                m,
                low as int,
                high as int,
                best as int,
            ) == fitting_prefix(text@, max_width, m) by {
                assert(m(prefix@) == measured);
                assert(fitting_prefix_search(text@, max_width, m, old_low as int, high as int, old_best as int)
                    == fitting_prefix_search(text@, max_width, m, low as int, high as int, best as int));
            }
        } else {
            if mid <= 1 {
                assert forall|m: spec_fn(Seq<u16>) -> Option<i32>| #[trigger]
                    measures_as(*measure_width, m) implies Some(best as int) == fitting_prefix(
                    text@,
                    max_width,
                    m,
                ) by {
                    assert(m(prefix@) == measured);
                }
                break;
            }
            let ghost old_high = high;
            high = mid - 1;
            assert forall|m: spec_fn(Seq<u16>) -> Option<i32>| #[trigger]
                measures_as(*measure_width, m) implies fitting_prefix_search(
                text@,
                max_width,
                m,
                low as int,
                high as int,
                best as int,
            ) == fitting_prefix(text@, max_width, m) by {
                assert(m(prefix@) == measured);
                assert(fitting_prefix_search(text@, max_width, m, low as int, old_high as int, best as int)
                    == fitting_prefix_search(text@, max_width, m, low as int, high as int, best as int));
            }
        }
    }
    Some(best)
}

/// The last offset `i` with `1 <= i < k` that holds a space.
pub open spec fn last_space_before(s: Seq<u16>, k: int) -> Option<int>
    decreases k,
{
    if k <= 1 {
        None
    } else if s[k - 1] == SPACE {
        Some(k - 1)
    } else {
        last_space_before(s, k - 1)
    }
}

/// Where a line that fits in `fit` units breaks at a space: the space right
/// after the fitting prefix, else the last space inside it (never the first
/// unit).
pub open spec fn whitespace_break(s: Seq<u16>, fit: int) -> Option<int> {
    if fit == 0 || fit > s.len() {
        None
    } else if fit < s.len() && s[fit] == SPACE {
        Some(fit)
    } else {
        last_space_before(s, fit)
    }
}

proof fn lemma_last_space_before(s: Seq<u16>, k: int)
    ensures
        last_space_before(s, k) matches Some(i) ==> 1 <= i < k && s[i] == SPACE,
    decreases k,
{
    if k > 1 && s[k - 1] != SPACE {
        lemma_last_space_before(s, k - 1);
    }
}

/// Finds where to break a line at whitespace (see [`whitespace_break`]).
pub fn find_whitespace_break(text: &[u16], fit_count: usize) -> (result: Option<usize>)
    ensures
        opt_usize_view(result) == whitespace_break(text@, fit_count as int),
        result matches Some(i) ==> 1 <= i < text@.len() && text@[i as int] == SPACE,
        result matches Some(i) ==> forall|j: int| i < j < fit_count ==> text@[j] != SPACE,
{
    if fit_count == 0 || fit_count > text.len() {
        return None;
    }
    if fit_count < text.len() && text[fit_count] == SPACE {
        return Some(fit_count);
    }
    let mut i: usize = fit_count;
    assert(whitespace_break(text@, fit_count as int) == last_space_before(text@, fit_count as int));
    while i > 1
        invariant
            1 <= i <= fit_count <= text@.len(),
            whitespace_break(text@, fit_count as int) == last_space_before(text@, fit_count as int),
            last_space_before(text@, fit_count as int) == last_space_before(text@, i as int),
        decreases i,
    {
        if text[i - 1] == SPACE {
            assert(last_space_before(text@, i as int) == Some((i - 1) as int));
            proof {
                lemma_last_space_is_last(text@, fit_count as int);
            }
            return Some(i - 1);
        }
        i = i - 1;
    }
    None
}

/// Drops the spaces that end `s.subrange(0, e)`.
pub open spec fn trimmed_end(s: Seq<u16>, e: int) -> int
    decreases e,
{
    if e > 0 && s[e - 1] == SPACE {
        trimmed_end(s, e - 1)
    } else {
        e
    }
}

/// Skips the spaces that start `s.subrange(k, s.len())`.
pub open spec fn skipped_start(s: Seq<u16>, k: int) -> int
    decreases s.len() - k,
{
    if 0 <= k < s.len() && s[k] == SPACE {
        skipped_start(s, k + 1)
    } else {
        k
    }
}

proof fn lemma_trimmed_end(s: Seq<u16>, e: int)
    requires
        0 <= e <= s.len(),
    ensures
        0 <= trimmed_end(s, e) <= e,
        forall|j: int| trimmed_end(s, e) <= j < e ==> #[trigger] s[j] == SPACE,
    decreases e,
{
    if e > 0 && s[e - 1] == SPACE {
        lemma_trimmed_end(s, e - 1);
    }
}

proof fn lemma_skipped_start(s: Seq<u16>, k: int)
    requires
        0 <= k <= s.len(),
    ensures
        k <= skipped_start(s, k) <= s.len(),
        forall|j: int| k <= j < skipped_start(s, k) ==> #[trigger] s[j] == SPACE,
    decreases s.len() - k,
{
    if k < s.len() && s[k] == SPACE {
        lemma_skipped_start(s, k + 1);
    }
}

/// How many units a hard (mid-word) break keeps on the current line: at
/// least one, the fitting prefix otherwise, moved so that it does not end
/// inside a surrogate pair (one unit back, or forward over a lone pair).
pub open spec fn hard_break_len(s: Seq<u16>, fit: int) -> int {
    let count = if fit < 1 { 1 } else { fit };
    let adjusted = if splits_pair(s, count) {
        if count == 1 { 2 } else { count - 1 }
    } else {
        count
    };
    if adjusted < s.len() { adjusted } else { s.len() as int }
}

/// One wrapping step on a line that does not fit: the visual line produced
/// and the offset where the rest of the text resumes.
pub open spec fn wrap_step(s: Seq<u16>, fit: int) -> (Seq<u16>, int) {
    match whitespace_break(s, fit) {
        Some(space) => (s.subrange(0, trimmed_end(s, space)), skipped_start(s, space + 1)),
        None => {
            let count = hard_break_len(s, fit);
            (s.subrange(0, count), count)
        },
    }
}

/// A wrapping step always consumes at least one unit, and its visual line
/// is no longer than what it consumes.
pub proof fn lemma_wrap_step_progress(s: Seq<u16>, fit: int)
    requires
        0 <= fit < s.len(),
    ensures
        1 <= wrap_step(s, fit).1 <= s.len(),
        wrap_step(s, fit).0.len() <= wrap_step(s, fit).1,
{
    match whitespace_break(s, fit) {
        Some(space) => {
            lemma_last_space_before(s, fit);
            lemma_trimmed_end(s, space);
            lemma_skipped_start(s, space + 1);
        },
        None => {},
    }
}

pub open spec fn prepend_line(line: Seq<u16>, rest: Option<Seq<Seq<u16>>>) -> Option<Seq<Seq<u16>>> {
    match rest {
        Some(lines) => Some(seq![line] + lines),
        None => None,
    }
}

/// Word wrapping of a non-empty rest of a line: a rest that fits is one
/// visual line; otherwise the fitting prefix is found and one
/// [`wrap_step`] is taken.  `None` when a measurement fails.
pub open spec fn wrapped_rest(
    s: Seq<u16>,
    max_width: i32,
    m: spec_fn(Seq<u16>) -> Option<i32>,
) -> Option<Seq<Seq<u16>>>
    decreases s.len(),
{
    if s.len() == 0 {
        Some(Seq::empty())
    } else {
        match m(s) {
            None => None,
            Some(width) => if width <= max_width {
                Some(seq![s])
            } else {
                match fitting_prefix(s, max_width, m) {
                    None => None,
                    Some(fit) => if fit >= s.len() || fit < 0 {
                        Some(seq![s])
                    } else {
                        proof {
                            lemma_wrap_step_progress(s, fit);
                        }
                        let (line, next) = wrap_step(s, fit);
                        prepend_line(line, wrapped_rest(s.subrange(next, s.len() as int), max_width, m))
                    },
                }
            },
        }
    }
}

/// The visual lines of one (tab-expanded) line: an empty line stays one empty
/// visual line; otherwise see [`wrapped_rest`].
pub open spec fn wrapped(line: Seq<u16>, max_width: i32, m: spec_fn(Seq<u16>) -> Option<i32>) -> Option<
    Seq<Seq<u16>>,
> {
    if line.len() == 0 {
        Some(seq![Seq::<u16>::empty()])
    } else {
        wrapped_rest(line, max_width, m)
    }
}

pub open spec fn vec_views(lines: Seq<Vec<u16>>) -> Seq<Seq<u16>> {
    lines.map_values(|line: Vec<u16>| line@)
}

pub open spec fn opt_lines_view(r: Option<Vec<Vec<u16>>>) -> Option<Seq<Seq<u16>>> {
    match r {
        Some(lines) => Some(vec_views(lines@)),
        None => None,
    }
}

pub open spec fn append_lines(done: Seq<Seq<u16>>, rest: Option<Seq<Seq<u16>>>) -> Option<Seq<Seq<u16>>> {
    match rest {
        Some(lines) => Some(done + lines),
        None => None,
    }
}

/// Word-wraps one line to `max_width` as measured by `measure_width` (see
/// [`wrapped`]); `None` when a measurement fails.
pub fn wrap_line<F: Fn(&[u16]) -> Option<i32>>(line: &[u16], max_width: i32, measure_width: &F) -> (result:
    Option<Vec<Vec<u16>>>)
    requires
        measurable(*measure_width),
        line@.len() < usize::MAX,
    ensures
        forall|m: spec_fn(Seq<u16>) -> Option<i32>|
            #[trigger] measures_as(*measure_width, m) ==> opt_lines_view(result) == wrapped(
                line@,
                max_width,
                m,
            ),
        result matches Some(lines) ==> lines@.len() >= 1,
{
    if line.len() == 0 {
        let mut only: Vec<Vec<u16>> = Vec::new();
        only.push(Vec::new());
        proof {
            assert(vec_views(only@) =~= seq![Seq::<u16>::empty()]);
        }
        return Some(only);
    }
    let mut wrapped_lines: Vec<Vec<u16>> = Vec::new();
    let mut remaining: &[u16] = line;
    proof {
        assert forall|m: spec_fn(Seq<u16>) -> Option<i32>| #[trigger]
            measures_as(*measure_width, m) implies wrapped(line@, max_width, m) == append_lines(
            vec_views(wrapped_lines@),
            wrapped_rest(remaining@, max_width, m),
        ) by {
            assert(vec_views(wrapped_lines@) =~= Seq::<Seq<u16>>::empty());
            if let Some(lines) = wrapped_rest(remaining@, max_width, m) {
                assert(vec_views(wrapped_lines@) + lines =~= lines);
            }
        }
    }
    while remaining.len() > 0
        invariant_except_break
            wrapped_lines@.len() > 0 || remaining@.len() > 0,
            forall|m: spec_fn(Seq<u16>) -> Option<i32>| #[trigger]
                measures_as(*measure_width, m) ==> wrapped(line@, max_width, m) == append_lines(
                    vec_views(wrapped_lines@),
                    wrapped_rest(remaining@, max_width, m),
                ),
        invariant
            measurable(*measure_width),
            remaining@.len() <= line@.len() < usize::MAX,
            line@.len() > 0,
        ensures
            wrapped_lines@.len() > 0,
            forall|m: spec_fn(Seq<u16>) -> Option<i32>| #[trigger]
                measures_as(*measure_width, m) ==> wrapped(line@, max_width, m) == Some(
                    vec_views(wrapped_lines@),
                ),
        decreases remaining@.len(),
    {
        let measured = measure_width(remaining);
        let width = match measured {
            Some(width) => width,
            None => {
                assert forall|m: spec_fn(Seq<u16>) -> Option<i32>| #[trigger]
                    measures_as(*measure_width, m) implies None::<Seq<Seq<u16>>> == wrapped(
                    line@,
                    max_width,
                    m,
                ) by {
                    assert(m(remaining@) == measured);
                }
                return None;
            },
        };
        if width <= max_width {
            let ghost before = wrapped_lines@;
            wrapped_lines.push(slice_to_vec(remaining));
            assert forall|m: spec_fn(Seq<u16>) -> Option<i32>| #[trigger]
                measures_as(*measure_width, m) implies wrapped(line@, max_width, m) == Some(
                vec_views(wrapped_lines@),
            ) by {
                assert(m(remaining@) == measured);
                assert(vec_views(wrapped_lines@) =~= vec_views(before) + seq![remaining@]);
            }
            break;
        }
        let fit = find_fitting_prefix_len(remaining, max_width, measure_width);
        let fit_count = match fit {
            Some(fit_count) => fit_count,
            None => {
                assert forall|m: spec_fn(Seq<u16>) -> Option<i32>| #[trigger]
                    measures_as(*measure_width, m) implies None::<Seq<Seq<u16>>> == wrapped(
                    line@,
                    max_width,
                    m,
                ) by {
                    assert(m(remaining@) == measured);
                }
                return None;
            },
        };
        if fit_count >= remaining.len() {
            let ghost before = wrapped_lines@;
            wrapped_lines.push(slice_to_vec(remaining));
            assert forall|m: spec_fn(Seq<u16>) -> Option<i32>| #[trigger]
                measures_as(*measure_width, m) implies wrapped(line@, max_width, m) == Some(
                vec_views(wrapped_lines@),
            ) by {
                assert(m(remaining@) == measured);
                assert(vec_views(wrapped_lines@) =~= vec_views(before) + seq![remaining@]);
            }
            break;
        }
        let break_point = find_whitespace_break(remaining, fit_count);
        let ghost rem = remaining@;
        proof {
            lemma_wrap_step_progress(rem, fit_count as int);
        }
        let (current_line, next_remaining) = match break_point {
            Some(space_idx) => {
                let mut line_end = space_idx;
                while line_end > 0 && remaining[line_end - 1] == SPACE
                    invariant
                        line_end <= space_idx < remaining@.len(),
                        trimmed_end(rem, line_end as int) == trimmed_end(rem, space_idx as int),
                        rem == remaining@,
                    decreases line_end,
                {
                    line_end = line_end - 1;
                }
                let line_content = &remaining[0..line_end];
                let mut next_start = space_idx + 1;
                while next_start < remaining.len() && remaining[next_start] == SPACE
                    invariant
                        space_idx + 1 <= next_start <= remaining@.len(),
                        skipped_start(rem, next_start as int) == skipped_start(
                            rem,
                            space_idx + 1,
                        ),
                        rem == remaining@,
                    decreases remaining@.len() - next_start,
                {
                    next_start = next_start + 1;
                }
                (slice_to_vec(line_content), &remaining[next_start..remaining.len()])
            },
            None => {
                let mut count = if fit_count > 1 { fit_count } else { 1 };
                if count < remaining.len() && is_high_surrogate(remaining[count - 1]) && is_low_surrogate(
                    remaining[count],
                ) {
                    if count == 1 {
                        count = 2;
                    } else {
                        count = count - 1;
                    }
                } else if count == 1 && is_high_surrogate(remaining[0]) && remaining.len() > 1
                    && is_low_surrogate(remaining[1]) {
                    count = 2;
                }
                let count = if count < remaining.len() { count } else { remaining.len() };
                (slice_to_vec(&remaining[0..count]), &remaining[count..remaining.len()])
            },
        };
        proof {
            assert(current_line@ == wrap_step(rem, fit_count as int).0);
            assert(next_remaining@ =~= rem.subrange(wrap_step(rem, fit_count as int).1, rem.len() as int));
        }
        let ghost before = wrapped_lines@;
        wrapped_lines.push(current_line);
        remaining = next_remaining;
        assert forall|m: spec_fn(Seq<u16>) -> Option<i32>| #[trigger]
            measures_as(*measure_width, m) implies wrapped(line@, max_width, m) == append_lines(
            vec_views(wrapped_lines@),
            wrapped_rest(remaining@, max_width, m),
        ) by {
            assert(m(rem) == measured);
            assert(opt_usize_view(fit) == fitting_prefix(rem, max_width, m));
            assert(wrapped_rest(rem, max_width, m) == prepend_line(
                wrap_step(rem, fit_count as int).0,
                wrapped_rest(remaining@, max_width, m),
            ));
            assert(vec_views(wrapped_lines@) =~= vec_views(before) + seq![current_line@]);
            if let Some(rest) = wrapped_rest(remaining@, max_width, m) {
                assert(vec_views(before) + (seq![current_line@] + rest) =~= vec_views(wrapped_lines@)
                    + rest);
            }
        }
    }
    if wrapped_lines.len() == 0 {
        wrapped_lines.push(Vec::new());
    }
    Some(wrapped_lines)
}

/// One printed page: the visual lines that go on it, top to bottom.
#[derive(Clone, Debug, PartialEq, Eq)]
pub struct PrintedPage {
    pub lines: Vec<Vec<u16>>,
}

pub open spec fn page_views(pages: Seq<PrintedPage>) -> Seq<Seq<Seq<u16>>> {
    pages.map_values(|page: PrintedPage| vec_views(page.lines@))
}

pub open spec fn opt_pages_view(r: Option<Vec<PrintedPage>>) -> Option<Seq<Seq<Seq<u16>>>> {
    match r {
        Some(pages) => Some(page_views(pages@)),
        None => None,
    }
}

/// The visual lines of a sequence of logical lines: each is tab-expanded and
/// wrapped, and the results are joined in order.  `None` when a measurement
/// fails.
pub open spec fn visual_lines(
    lines: Seq<Seq<u16>>,
    max_width: i32,
    m: spec_fn(Seq<u16>) -> Option<i32>,
) -> Option<Seq<Seq<u16>>>
    decreases lines.len(),
{
    if lines.len() == 0 {
        Some(Seq::empty())
    } else {
        match visual_lines(lines.drop_last(), max_width, m) {
            None => None,
            Some(before) => append_lines(before, wrapped(expanded(lines.last()), max_width, m)),
        }
    }
}

/// Consecutive pieces of `n` lines each; the last piece holds what is left.
pub open spec fn chunked(lines: Seq<Seq<u16>>, n: int) -> Seq<Seq<Seq<u16>>>
    decreases lines.len(),
{
    if lines.len() == 0 || n < 1 {
        Seq::empty()
    } else if lines.len() <= n {
        seq![lines]
    } else {
        seq![lines.subrange(0, n)] + chunked(lines.subrange(n, lines.len() as int), n)
    }
}

/// The pages of a document: the visual lines of its logical lines, cut into
/// pages of `lines_per_page` lines (at least one); no text still gives one
/// page with one empty line.  `None` when a measurement fails.
pub open spec fn paginated(
    text: Seq<u16>,
    max_width: i32,
    lines_per_page: int,
    m: spec_fn(Seq<u16>) -> Option<i32>,
) -> Option<Seq<Seq<Seq<u16>>>> {
    match visual_lines(logical_lines(text), max_width, m) {
        None => None,
        Some(visual) => if visual.len() == 0 {
            Some(seq![seq![Seq::<u16>::empty()]])
        } else {
            Some(chunked(visual, if lines_per_page < 1 { 1 } else { lines_per_page }))
        },
    }
}

/// Lays out a document for printing (see [`paginated`]).
pub fn paginate<F: Fn(&[u16]) -> Option<i32>>(
    text: &[u16],
    max_width: i32,
    lines_per_page: usize,
    measure_width: F,
) -> (result: Option<Vec<PrintedPage>>)
    requires
        measurable(measure_width),
        text@.len() <= usize::MAX / 8,
    ensures
        forall|m: spec_fn(Seq<u16>) -> Option<i32>|
            #[trigger] measures_as(measure_width, m) ==> opt_pages_view(result) == paginated(
                text@,
                max_width,
                lines_per_page as int,
                m,
            ),
{
    let logical = split_logical_lines(text);
    proof {
        lemma_logical_lines_short(text@);
        assert forall|k: int| 0 <= k < logical@.len() implies (#[trigger] logical@[k])@.len() <= text@.len() by {
            assert(slice_views(logical@)[k] == logical@[k]@);
        }
    }
    let mut visual: Vec<Vec<u16>> = Vec::new();
    let mut i: usize = 0;
    proof {
        assert(logical_lines(text@).subrange(0, 0) =~= Seq::<Seq<u16>>::empty());
        assert(vec_views(visual@) =~= Seq::<Seq<u16>>::empty());
    }
    while i < logical.len()
        invariant
            i <= logical@.len(),
            slice_views(logical@) == logical_lines(text@),
            text@.len() <= usize::MAX / 8,
            measurable(measure_width),
            forall|k: int| 0 <= k < logical@.len() ==> (#[trigger] logical@[k])@.len() <= text@.len(),
            forall|m: spec_fn(Seq<u16>) -> Option<i32>| #[trigger]
                measures_as(measure_width, m) ==> visual_lines(
                    logical_lines(text@).subrange(0, i as int),
                    max_width,
                    m,
                ) == Some(vec_views(visual@)),
        decreases logical@.len() - i,
    {
        let line = logical[i];
        let expanded_line = expand_tabs(line);
        let wrapped_opt = wrap_line(&expanded_line, max_width, &measure_width);
        let ghost prefix = logical_lines(text@).subrange(0, i + 1);
        proof {
            assert(prefix.drop_last() =~= logical_lines(text@).subrange(0, i as int));
            assert(prefix.last() == line@);
        }
        let mut wrapped_lines = match wrapped_opt {
            Some(w) => w,
            None => {
                assert forall|m: spec_fn(Seq<u16>) -> Option<i32>| #[trigger]
                    measures_as(measure_width, m) implies None::<Seq<Seq<Seq<u16>>>> == paginated(
                    text@,
                    max_width,
                    lines_per_page as int,
                    m,
                ) by {
                    assert(measures_as(measure_width, m));
                    lemma_visual_lines_none_prefix(logical_lines(text@), i as int + 1, max_width, m);
                }
                return None;
            },
        };
        let ghost before = visual@;
        let ghost added = wrapped_lines@;
        visual.append(&mut wrapped_lines);
        i = i + 1;
        assert forall|m: spec_fn(Seq<u16>) -> Option<i32>| #[trigger]
            measures_as(measure_width, m) implies visual_lines(
            logical_lines(text@).subrange(0, i as int),
            max_width,
            m,
        ) == Some(vec_views(visual@)) by {
            assert(vec_views(visual@) =~= vec_views(before) + vec_views(added));
        }
    }
    proof {
        assert(logical_lines(text@).subrange(0, i as int) =~= logical_lines(text@));
    }
    if visual.len() == 0 {
        let mut only: Vec<Vec<u16>> = Vec::new();
        only.push(Vec::new());
        let mut pages: Vec<PrintedPage> = Vec::new();
        pages.push(PrintedPage { lines: only });
        proof {
            assert(vec_views(only@) =~= seq![Seq::<u16>::empty()]);
            assert(page_views(pages@) =~= seq![seq![Seq::<u16>::empty()]]);
        }
        return Some(pages);
    }
    let per_page = if lines_per_page > 1 { lines_per_page } else { 1 };
    let ghost all_lines = vec_views(visual@);
    let ghost n = per_page as int;
    let mut pages: Vec<PrintedPage> = Vec::new();
    let mut rest = visual;
    proof {
        assert(page_views(pages@) =~= Seq::<Seq<Seq<u16>>>::empty());
        assert(page_views(pages@) + chunked(vec_views(rest@), n) =~= chunked(all_lines, n));
    }
    while rest.len() > per_page
        invariant
            per_page >= 1,
            n == per_page,
            rest@.len() > 0,
            page_views(pages@) + chunked(vec_views(rest@), n) == chunked(all_lines, n),
        decreases rest@.len(),
    {
        let ghost old_rest = rest@;
        let tail = rest.split_off(per_page);
        let ghost whole = vec_views(rest@) + vec_views(tail@);
        let ghost before = pages@;
        proof {
            assert(whole =~= vec_views(old_rest));
            assert(chunked(whole, n) == seq![whole.subrange(0, n)] + chunked(whole.subrange(n, whole.len() as int), n));
            assert(whole.subrange(0, n) =~= vec_views(rest@));
            assert(whole.subrange(n, whole.len() as int) =~= vec_views(tail@));
        }
        pages.push(PrintedPage { lines: rest });
        proof {
            assert(page_views(pages@) =~= page_views(before).push(whole.subrange(0, n)));
        }
        rest = tail;
        proof {
            assert(page_views(pages@) + chunked(vec_views(rest@), n) =~= page_views(before) + chunked(
                whole,
                n,
            ));
            assert(page_views(pages@) + chunked(vec_views(rest@), n) == chunked(all_lines, n));
        }
    }
    let ghost before = pages@;
    let ghost last = vec_views(rest@);
    pages.push(PrintedPage { lines: rest });
    proof {
        assert(chunked(last, n) == seq![last]);
        assert(page_views(pages@) =~= page_views(before) + chunked(last, n));
    }
    Some(pages)
}

proof fn lemma_visual_lines_none_prefix(
    lines: Seq<Seq<u16>>,
    k: int,
    max_width: i32,
    m: spec_fn(Seq<u16>) -> Option<i32>,
)
    requires
        0 <= k <= lines.len(),
        visual_lines(lines.subrange(0, k), max_width, m) is None,
    ensures
        visual_lines(lines, max_width, m) is None,
    decreases lines.len() - k,
{
    if k < lines.len() {
        assert(lines.subrange(0, k + 1).drop_last() =~= lines.subrange(0, k));
        lemma_visual_lines_none_prefix(lines, k + 1, max_width, m);
    } else {
        assert(lines.subrange(0, k) =~= lines);
    }
}

/// The printable area of a page in device units, with its margins.
#[derive(Clone, Copy, Debug, PartialEq, Eq)]
pub struct PageGeometry {
    pub page_width: i32,
    pub page_height: i32,
    pub margin_x: i32,
    pub margin_y: i32,
    pub content_width: i32,
    pub content_height: i32,
    pub dpi_x: u32,
    pub dpi_y: u32,
}

/// A device resolution as reported (a signed device capability read as
/// unsigned), at least one.
pub open spec fn device_dpi(caps: i32) -> u32 {
    if (caps as u32) < 1 { 1 } else { caps as u32 }
}

/// A quarter-inch margin at `dpi`, rounded to nearest.
pub open spec fn quarter_inch(dpi: u32) -> int {
    (dpi * 25 + 50) / 100
}

/// The geometry of a printed page: quarter-inch margins on each side, unless
/// they leave no room, in which case that direction has no margin and the
/// whole page (at least one unit) is used.
pub open spec fn page_geometry_of(dpi_x_caps: i32, dpi_y_caps: i32, page_width: i32, page_height: i32) -> PageGeometry {
    let dpi_x = device_dpi(dpi_x_caps);
    let dpi_y = device_dpi(dpi_y_caps);
    let mx = quarter_inch(dpi_x);
    let my = quarter_inch(dpi_y);
    let cw = page_width - 2 * mx;
    let ch = page_height - 2 * my;
    PageGeometry {
        page_width,
        page_height,
        margin_x: if cw <= 0 { 0 } else { mx as i32 },
        margin_y: if ch <= 0 { 0 } else { my as i32 },
        content_width: if cw <= 0 { if page_width < 1 { 1 } else { page_width } } else { cw as i32 },
        content_height: if ch <= 0 { if page_height < 1 { 1 } else { page_height } } else { ch as i32 },
        dpi_x,
        dpi_y,
    }
}

/// Computes the page geometry from the printer's device capabilities (see
/// [`page_geometry_of`]).
pub fn page_geometry(dpi_x_caps: i32, dpi_y_caps: i32, page_width: i32, page_height: i32) -> (g: PageGeometry)
    requires
        2 * quarter_inch(device_dpi(dpi_x_caps)) <= i32::MAX,
        2 * quarter_inch(device_dpi(dpi_y_caps)) <= i32::MAX,
        page_width - 2 * quarter_inch(device_dpi(dpi_x_caps)) >= i32::MIN,
        page_height - 2 * quarter_inch(device_dpi(dpi_y_caps)) >= i32::MIN,
    ensures
        g == page_geometry_of(dpi_x_caps, dpi_y_caps, page_width, page_height),
{
    let raw_x = dpi_x_caps as u32;
    let raw_y = dpi_y_caps as u32;
    let dpi_x = if raw_x < 1 { 1 } else { raw_x };
    let dpi_y = if raw_y < 1 { 1 } else { raw_y };
    let mut margin_x = ((dpi_x as i64 * 25 + 50) / 100) as i32;
    let mut margin_y = ((dpi_y as i64 * 25 + 50) / 100) as i32;
    let mut content_width = page_width - 2 * margin_x;
    let mut content_height = page_height - 2 * margin_y;
    if content_width <= 0 {
        margin_x = 0;
        content_width = if page_width < 1 { 1 } else { page_width };
    }
    if content_height <= 0 {
        margin_y = 0;
        content_height = if page_height < 1 { 1 } else { page_height };
    }
    PageGeometry {
        page_width,
        page_height,
        margin_x,
        margin_y,
        content_width,
        content_height,
        dpi_x,
        dpi_y,
    }
}

/// The height of one printed line (the font's height plus its external
/// leading, at least one unit) and how many lines fit on a page (at least
/// one).
pub fn print_line_metrics(content_height: i32, text_height: i32, external_leading: i32) -> (r: (i32, usize))
    requires
        i32::MIN <= text_height + external_leading <= i32::MAX,
    ensures
        r.0 == (if text_height + external_leading < 1 { 1 } else { text_height + external_leading }),
        r.1 == (if content_height / r.0 < 1 || content_height < 0 { 1 } else { content_height / r.0 }),
{
    let sum = text_height + external_leading;
    let line_height = if sum < 1 { 1 } else { sum };
    if content_height < 0 {
        return (line_height, 1);
    }
    let per_page = content_height / line_height;
    (line_height, if per_page < 1 { 1 } else { per_page as usize })
}

} // verus!

verus! {

/// No logical line contains a line break.
pub proof fn lemma_logical_lines_have_no_breaks(s: Seq<u16>)
    ensures
        forall|k: int, j: int|
            0 <= k < logical_lines(s).len() && 0 <= j < logical_lines(s)[k].len() ==> !is_line_break(
                #[trigger] logical_lines(s)[k][j],
            ),
    decreases s.len(),
{
    let b = first_break(s) as int;
    lemma_first_break_bound(s);
    if b < s.len() {
        let rest = s.subrange(b + break_width(s, b), s.len() as int);
        lemma_logical_lines_have_no_breaks(rest);
        assert forall|k: int, j: int|
            0 <= k < logical_lines(s).len() && 0 <= j < logical_lines(s)[k].len() implies !is_line_break(
            #[trigger] logical_lines(s)[k][j],
        ) by {
            if k == 0 {
                assert(logical_lines(s)[0] == s.subrange(0, b));
                assert(s.subrange(0, b)[j] == s[j]);
            } else {
                assert(logical_lines(s)[k] == logical_lines(rest)[k - 1]);
            }
        }
    } else {
        assert forall|k: int, j: int|
            0 <= k < logical_lines(s).len() && 0 <= j < logical_lines(s)[k].len() implies !is_line_break(
            #[trigger] logical_lines(s)[k][j],
        ) by {
            assert(logical_lines(s)[k] == s);
        }
    }
}

/// A text with no line break is a single line.
pub proof fn lemma_unbroken_text_is_one_line(s: Seq<u16>)
    requires
        forall|j: int| 0 <= j < s.len() ==> !is_line_break(#[trigger] s[j]),
    ensures
        logical_lines(s) == seq![s],
{
    lemma_first_break_at(s, s.len() as int);
}

/// Splitting at the first line break: a line, then a break (CRLF, LF, or a
/// CR not followed by LF), then the lines of the rest.
pub proof fn lemma_lines_split_at_break(line: Seq<u16>, separator: Seq<u16>, rest: Seq<u16>)
    requires
        forall|j: int| 0 <= j < line.len() ==> !is_line_break(#[trigger] line[j]),
        separator == seq![CARRIAGE_RETURN, LINE_FEED] || separator == seq![LINE_FEED] || (separator
            == seq![CARRIAGE_RETURN] && !(rest.len() > 0 && rest[0] == LINE_FEED)),
    ensures
        logical_lines(line + separator + rest) == seq![line] + logical_lines(rest),
{
    let s = line + separator + rest;
    assert forall|j: int| 0 <= j < line.len() implies !is_line_break(#[trigger] s[j]) by {
        assert(s[j] == line[j]);
    }
    assert(s[line.len() as int] == separator[0]);
    lemma_first_break_at(s, line.len() as int);
    let b = line.len() as int;
    if separator.len() == 2 {
        assert(s[b + 1] == LINE_FEED);
    } else if separator[0] == CARRIAGE_RETURN && rest.len() > 0 {
        assert(s[b + 1] == rest[0]);
    }
    assert(break_width(s, b) == separator.len());
    assert(s.subrange(0, b) =~= line);
    assert(s.subrange(b + break_width(s, b), s.len() as int) =~= rest);
}

/// Tab expansion leaves no tabs, and does not touch a line without tabs.
pub proof fn lemma_expanded_has_no_tabs(line: Seq<u16>)
    ensures
        forall|j: int| 0 <= j < expanded(line).len() ==> #[trigger] expanded(line)[j] != TAB,
        (forall|j: int| 0 <= j < line.len() ==> #[trigger] line[j] != TAB) ==> expanded(line) == line,
    decreases line.len(),
{
    if line.len() > 0 {
        let before = line.drop_last();
        lemma_expanded_has_no_tabs(before);
        let eb = expanded(before);
        assert forall|j: int| 0 <= j < expanded(line).len() implies #[trigger] expanded(line)[j] != TAB by {
            if j < eb.len() {
                assert(expanded(line)[j] == eb[j]);
            } else if line.last() == TAB {
                assert(expanded(line)[j] == spaces(8 - eb.len() % 8)[j - eb.len()]);
            }
        }
        if forall|j: int| 0 <= j < line.len() ==> #[trigger] line[j] != TAB {
            assert forall|j: int| 0 <= j < before.len() implies #[trigger] before[j] != TAB by {
                assert(before[j] == line[j]);
            }
            assert(line.last() == line[line.len() - 1]);
            assert(expanded(line) =~= line);
        }
    } else {
        assert(expanded(line) =~= line);
    }
}

/// A tab moves to the next tab stop: after it the expanded line ends on a
/// multiple of eight columns, one to eight columns further on.
pub proof fn lemma_tab_reaches_next_stop(line: Seq<u16>)
    ensures
        expanded(line.push(TAB)).len() % 8 == 0,
        expanded(line).len() < expanded(line.push(TAB)).len() <= expanded(line).len() + 8,
{
    assert(line.push(TAB).drop_last() =~= line);
}

/// Offsets at which the visual lines of `text` start: each line is the piece
/// of `text` there, the pieces come in order, only spaces lie between and
/// after them, and no piece begins or ends inside a surrogate pair.
pub open spec fn spaced_pieces(text: Seq<u16>, lines: Seq<Seq<u16>>, starts: Seq<int>) -> bool {
    &&& starts.len() == lines.len()
    &&& lines.len() > 0 ==> starts[0] == 0
    &&& forall|k: int|
        #![trigger starts[k]]
        0 <= k < lines.len() ==> {
            &&& 0 <= starts[k]
            &&& starts[k] + lines[k].len() <= text.len()
            &&& text.subrange(starts[k], starts[k] + lines[k].len()) == lines[k]
            &&& !splits_pair(text, starts[k])
            &&& !splits_pair(text, starts[k] + lines[k].len())
        }
    &&& forall|k: int, j: int|
        #![trigger starts[k], text[j]]
        0 <= k < lines.len() && starts[k] + lines[k].len() <= j && (j < (if k + 1 < lines.len() {
            starts[k + 1]
        } else {
            text.len() as int
        })) ==> text[j] == SPACE
    &&& forall|k: int| #![trigger starts[k]] 0 <= k && k + 1 < lines.len() ==> starts[k] + lines[k].len() <= starts[k + 1]
}

proof fn lemma_wrap_step_shape(s: Seq<u16>, fit: int)
    requires
        0 <= fit < s.len(),
    ensures
        ({
            let (line, next) = wrap_step(s, fit);
            &&& line == s.subrange(0, line.len() as int)
            &&& line.len() <= next <= s.len()
            &&& 1 <= next
            &&& forall|j: int| line.len() <= j < next ==> #[trigger] s[j] == SPACE
            &&& !splits_pair(s, line.len() as int)
            &&& !splits_pair(s, next)
        }),
{
    lemma_wrap_step_progress(s, fit);
    match whitespace_break(s, fit) {
        Some(space) => {
            lemma_last_space_before(s, fit);
            lemma_trimmed_end(s, space);
            lemma_skipped_start(s, space + 1);
            let e = trimmed_end(s, space);
            let next = skipped_start(s, space + 1);
            assert forall|j: int| e <= j < next implies #[trigger] s[j] == SPACE by {
                if j < space {
                } else if j == space {
                } else {
                }
            }
            if 0 < next < s.len() {
                assert(s[next - 1] == SPACE);
            }
            if 0 < e < s.len() {
                assert(s[e] == SPACE);
            }
        },
        None => {},
    }
}

/// Putting one more piece in front of spaced pieces of the rest of a text.
proof fn lemma_prepend_piece(
    s: Seq<u16>,
    line: Seq<u16>,
    next: int,
    rest_lines: Seq<Seq<u16>>,
    rest_starts: Seq<int>,
) -> (starts: Seq<int>)
    requires
        line == s.subrange(0, line.len() as int),
        line.len() <= next <= s.len(),
        1 <= next,
        forall|j: int| line.len() <= j < next ==> #[trigger] s[j] == SPACE,
        !splits_pair(s, line.len() as int),
        !splits_pair(s, next),
        spaced_pieces(s.subrange(next, s.len() as int), rest_lines, rest_starts),
        rest_lines.len() == 0 ==> next == s.len(),
    ensures
        spaced_pieces(s, seq![line] + rest_lines, starts),
{
    let rest = s.subrange(next, s.len() as int);
    let lines = seq![line] + rest_lines;
    let starts = seq![0int] + rest_starts.map_values(|st: int| st + next);
    assert forall|k: int| #![trigger starts[k]] 0 <= k < lines.len() implies {
        &&& 0 <= starts[k]
        &&& starts[k] + lines[k].len() <= s.len()
        &&& s.subrange(starts[k], starts[k] + lines[k].len()) == lines[k]
        &&& !splits_pair(s, starts[k])
        &&& !splits_pair(s, starts[k] + lines[k].len())
    } by {
        if k > 0 {
            let r = rest_starts[k - 1];
            assert(starts[k] == r + next);
            assert(lines[k] == rest_lines[k - 1]);
            assert(rest.subrange(r, r + rest_lines[k - 1].len()) =~= s.subrange(r + next, r + next + lines[k].len()));
            if r > 0 && r < rest.len() {
                assert(rest[r - 1] == s[r + next - 1]);
                assert(rest[r] == s[r + next]);
            }
            let e = r + rest_lines[k - 1].len();
            if e > 0 && e < rest.len() {
                assert(rest[e - 1] == s[e + next - 1]);
                assert(rest[e] == s[e + next]);
            }
        } else {
            assert(lines[0] == line);
        }
    }
    assert forall|k: int, j: int|
        #![trigger starts[k], s[j]]
        0 <= k < lines.len() && starts[k] + lines[k].len() <= j && (j < (if k + 1 < lines.len() {
            starts[k + 1]
        } else {
            s.len() as int
        })) implies s[j] == SPACE by {
        if k == 0 {
            assert(lines[0] == line);
            if lines.len() > 1 {
                assert(starts[1] == rest_starts[0] + next);
                assert(rest_starts[0] == 0);
                assert(j < next);
            } else {
                assert(rest_lines.len() == 0);
            }
        } else {
            let jj = j - next;
            assert(rest[jj] == s[j]);
            assert(rest_starts[k - 1] == starts[k] - next);
            assert(lines[k] == rest_lines[k - 1]);
            if k + 1 < lines.len() {
                assert(rest_starts[k] == starts[k + 1] - next);
            }
            assert(rest_starts[k - 1] + rest_lines[k - 1].len() <= jj);
        }
    }
    assert forall|k: int| #![trigger starts[k]] 0 <= k && k + 1 < lines.len() implies starts[k] + lines[k].len() <= starts[k + 1] by {
        if k == 0 {
            assert(rest_starts[0] == 0);
            assert(lines[0] == line);
        } else {
            assert(lines[k] == rest_lines[k - 1]);
            assert(rest_starts[k - 1] + rest_lines[k - 1].len() <= rest_starts[k]);
        }
    }
    starts
}

/// The wrapped lines of a non-empty text are spaced pieces of it.
proof fn lemma_wrapped_rest_pieces(s: Seq<u16>, max_width: i32, m: spec_fn(Seq<u16>) -> Option<i32>) -> (starts: Seq<int>)
    requires
        wrapped_rest(s, max_width, m) is Some,
    ensures
        spaced_pieces(s, wrapped_rest(s, max_width, m)->0, starts),
    decreases s.len(),
{
    let lines = wrapped_rest(s, max_width, m)->0;
    if s.len() == 0 {
        return Seq::empty();
    }
    let width = m(s)->0;
    if width <= max_width || fitting_prefix(s, max_width, m)->0 >= s.len() || fitting_prefix(s, max_width, m)->0 < 0 {
        assert(lines == seq![s]);
        let starts = seq![0int];
        assert(s.subrange(0, s.len() as int) =~= s);
        return starts;
    }
    let fit = fitting_prefix(s, max_width, m)->0;
    lemma_wrap_step_shape(s, fit);
    let (line, next) = wrap_step(s, fit);
    let rest = s.subrange(next, s.len() as int);
    let rest_lines = wrapped_rest(rest, max_width, m)->0;
    assert(lines == seq![line] + rest_lines);
    let rest_starts = lemma_wrapped_rest_pieces(rest, max_width, m);
    if rest.len() > 0 {
        lemma_wrapped_rest_nonempty(rest, max_width, m);
    }
    lemma_prepend_piece(s, line, next, rest_lines, rest_starts)
}

/// Word wrapping law: the visual lines of a line are pieces of it, in order,
/// with only spaces dropped between them, and no surrogate pair is split.
pub proof fn lemma_wrapped_lines_are_pieces(line: Seq<u16>, max_width: i32, m: spec_fn(Seq<u16>) -> Option<i32>) -> (starts: Seq<int>)
    requires
        wrapped(line, max_width, m) is Some,
    ensures
        spaced_pieces(line, wrapped(line, max_width, m)->0, starts),
        wrapped(line, max_width, m)->0.len() >= 1,
{
    if line.len() == 0 {
        let starts = seq![0int];
        assert(line.subrange(0, 0) =~= Seq::<u16>::empty());
        starts
    } else {
        let starts = lemma_wrapped_rest_pieces(line, max_width, m);
        lemma_wrapped_rest_nonempty(line, max_width, m);
        starts
    }
}

proof fn lemma_wrapped_rest_nonempty(s: Seq<u16>, max_width: i32, m: spec_fn(Seq<u16>) -> Option<i32>)
    requires
        s.len() > 0,
        wrapped_rest(s, max_width, m) is Some,
    ensures
        wrapped_rest(s, max_width, m)->0.len() >= 1,
{
}

} // verus!

verus! {

/// The lines of a sequence of pages, read page after page.
pub open spec fn concat_pages(pages: Seq<Seq<Seq<u16>>>) -> Seq<Seq<u16>>
    decreases pages.len(),
{
    if pages.len() == 0 {
        Seq::empty()
    } else {
        pages[0] + concat_pages(pages.drop_first())
    }
}

proof fn lemma_chunked_pages(lines: Seq<Seq<u16>>, n: int)
    requires
        n >= 1,
    ensures
        concat_pages(chunked(lines, n)) == lines,
        lines.len() > 0 ==> chunked(lines, n).len() > 0,
        forall|k: int| 0 <= k < chunked(lines, n).len() ==> 0 < (#[trigger] chunked(lines, n)[k]).len() <= n,
        forall|k: int| 0 <= k < chunked(lines, n).len() - 1 ==> (#[trigger] chunked(lines, n)[k]).len() == n,
    decreases lines.len(),
{
    let pages = chunked(lines, n);
    if lines.len() == 0 {
    } else if lines.len() <= n {
        assert(pages == seq![lines]);
        assert(pages.drop_first() =~= Seq::<Seq<Seq<u16>>>::empty());
        assert(concat_pages(pages.drop_first()) == Seq::<Seq<u16>>::empty());
        assert(concat_pages(pages) =~= lines);
    } else {
        let rest = lines.subrange(n, lines.len() as int);
        lemma_chunked_pages(rest, n);
        assert(pages.drop_first() =~= chunked(rest, n));
        assert(lines.subrange(0, n) + rest =~= lines);
        assert forall|k: int| 0 <= k < pages.len() implies 0 < (#[trigger] pages[k]).len() <= n by {
            if k > 0 {
                assert(pages[k] == chunked(rest, n)[k - 1]);
            }
        }
        assert forall|k: int| 0 <= k < pages.len() - 1 implies (#[trigger] pages[k]).len() == n by {
            if k > 0 {
                assert(pages[k] == chunked(rest, n)[k - 1]);
            }
        }
    }
}

/// Pagination law: a document always has at least one page; no page is
/// empty or longer than `lines_per_page` (at least one); every page but
/// the last is full; and reading the pages in order gives back the
/// document's visual lines (one empty line for an empty document).
pub proof fn lemma_pages_hold_the_visual_lines(
    text: Seq<u16>,
    max_width: i32,
    lines_per_page: int,
    m: spec_fn(Seq<u16>) -> Option<i32>,
)
    requires
        paginated(text, max_width, lines_per_page, m) is Some,
    ensures
        ({
            let pages = paginated(text, max_width, lines_per_page, m)->0;
            let n = if lines_per_page < 1 { 1 } else { lines_per_page };
            let visual = visual_lines(logical_lines(text), max_width, m)->0;
            &&& pages.len() >= 1
            &&& forall|k: int| 0 <= k < pages.len() ==> 0 < (#[trigger] pages[k]).len() <= n
            &&& forall|k: int| 0 <= k < pages.len() - 1 ==> (#[trigger] pages[k]).len() == n
            &&& concat_pages(pages) == if visual.len() == 0 {
                seq![Seq::<u16>::empty()]
            } else {
                visual
            }
        }),
{
    let n = if lines_per_page < 1 { 1 } else { lines_per_page };
    let visual = visual_lines(logical_lines(text), max_width, m)->0;
    if visual.len() == 0 {
        let pages = seq![seq![Seq::<u16>::empty()]];
        assert(pages.drop_first() =~= Seq::<Seq<Seq<u16>>>::empty());
        assert(concat_pages(pages.drop_first()) == Seq::<Seq<u16>>::empty());
        assert(concat_pages(pages) =~= seq![Seq::<u16>::empty()]);
    } else {
        lemma_chunked_pages(visual, n);
    }
}

} // verus!

verus! {

proof fn lemma_expanded_not_shorter(line: Seq<u16>)
    ensures
        expanded(line).len() >= line.len(),
    decreases line.len(),
{
    if line.len() > 0 {
        lemma_expanded_not_shorter(line.drop_last());
    }
}

proof fn lemma_visual_lines_fail(
    lines: Seq<Seq<u16>>,
    k: int,
    max_width: i32,
    m: spec_fn(Seq<u16>) -> Option<i32>,
)
    requires
        0 <= k < lines.len(),
        wrapped(expanded(lines[k]), max_width, m) is None,
    ensures
        visual_lines(lines, max_width, m) is None,
    decreases lines.len(),
{
    if k < lines.len() - 1 {
        assert(lines.drop_last()[k] == lines[k]);
        lemma_visual_lines_fail(lines.drop_last(), k, max_width, m);
    }
}

/// A failing measurement fails the whole layout: when the measurer cannot
/// measure anything, a document with any non-empty line has no pages.
pub proof fn lemma_measure_failure_fails_layout(
    text: Seq<u16>,
    max_width: i32,
    lines_per_page: int,
    m: spec_fn(Seq<u16>) -> Option<i32>,
    k: int,
)
    requires
        forall|piece: Seq<u16>| #[trigger] m(piece) is None,
        0 <= k < logical_lines(text).len(),
        logical_lines(text)[k].len() > 0,
    ensures
        paginated(text, max_width, lines_per_page, m) is None,
{
    lemma_expanded_not_shorter(logical_lines(text)[k]);
    let e = expanded(logical_lines(text)[k]);
    assert(m(e) is None);
    lemma_visual_lines_fail(logical_lines(text), k, max_width, m);
}

} // verus!

verus! {

/// The last space before `k` is the last: no space lies after it and
/// before `k`; without one, no offset in `1..k` holds a space.
proof fn lemma_last_space_is_last(s: Seq<u16>, k: int)
    requires
        k <= s.len(),
    ensures
        last_space_before(s, k) matches Some(i) ==> 1 <= i < k && s[i] == SPACE && forall|j: int|
            i < j < k ==> s[j] != SPACE,
        last_space_before(s, k) is None ==> forall|j: int| 1 <= j < k ==> s[j] != SPACE,
    decreases k,
{
    if k > 1 && s[k - 1] != SPACE {
        lemma_last_space_is_last(s, k - 1);
    }
}

/// Word wrapping breaks at the space right after the fitting prefix, or
/// else at the last space inside it (never at the first unit), so that a
/// wrapped line keeps as many whole words as fit; with no such space there
/// is no break at whitespace.
pub proof fn lemma_whitespace_break_keeps_most_words(s: Seq<u16>, fit: int)
    requires
        0 < fit <= s.len(),
    ensures
        fit < s.len() && s[fit] == SPACE ==> whitespace_break(s, fit) == Some(fit),
        whitespace_break(s, fit) matches Some(i) ==> 1 <= i <= fit && i < s.len() && s[i] == SPACE
            && forall|j: int| i < j < fit ==> s[j] != SPACE,
        whitespace_break(s, fit) is None ==> !(fit < s.len() && s[fit] == SPACE) && forall|j: int|
            1 <= j < fit ==> s[j] != SPACE,
{
    lemma_last_space_is_last(s, fit);
}

/// A text measurer that, over the prefixes of `s`, always succeeds and never
/// reports a longer prefix as narrower than a shorter one.
pub open spec fn widens_with_length(s: Seq<u16>, m: spec_fn(Seq<u16>) -> Option<i32>) -> bool {
    forall|a: int, b: int|
        #![trigger m(s.subrange(0, a)), m(s.subrange(0, b))]
        0 <= a <= b <= s.len() ==> m(s.subrange(0, a)) is Some && m(s.subrange(0, b)) is Some && m(
            s.subrange(0, a),
        )->0 <= m(s.subrange(0, b))->0
}

proof fn lemma_fitting_search_longest(
    s: Seq<u16>,
    max_width: i32,
    m: spec_fn(Seq<u16>) -> Option<i32>,
    low: int,
    high: int,
    best: int,
)
    requires
        widens_with_length(s, m),
        1 <= low,
        high <= s.len(),
        0 <= best < low,
        best <= s.len(),
        best == 0 || !splits_pair(s, best),
        best > 0 ==> m(s.subrange(0, best))->0 <= max_width,
        forall|k: int| best < k < low && k <= s.len() && !splits_pair(s, k) ==> m(s.subrange(0, k))->0 > max_width,
        forall|k: int| high < k <= s.len() && !splits_pair(s, k) ==> m(s.subrange(0, k))->0 > max_width,
    ensures
        fitting_prefix_search(s, max_width, m, low, high, best) matches Some(f) && 0 <= f <= s.len() && (f == 0
            || !splits_pair(s, f)) && (f > 0 ==> m(s.subrange(0, f))->0 <= max_width) && forall|k: int|
            f < k <= s.len() && !splits_pair(s, k) ==> m(s.subrange(0, k))->0 > max_width,
    decreases high + 2 - low,
{
    if low <= high {
        let mid = low + (high - low) / 2;
        let len = probe_len(s, mid);
        assert(0 <= len <= s.len());
        assert(m(s.subrange(0, len)) is Some && m(s.subrange(0, len)) is Some);
        let width = m(s.subrange(0, len))->0;
        if width <= max_width {
            assert(!splits_pair(s, len));
            assert(fitting_prefix_search(s, max_width, m, low, high, best) == fitting_prefix_search(
                s,
                max_width,
                m,
                len + 1,
                high,
                len,
            ));
            lemma_fitting_search_longest(s, max_width, m, len + 1, high, len);
        } else {
            assert forall|k: int| mid <= k <= s.len() && !splits_pair(s, k) implies m(s.subrange(0, k))->0
                > max_width by {
                assert(len <= k);
                assert(m(s.subrange(0, len)) is Some && m(s.subrange(0, k)) is Some);
            }
            if mid > 1 {
                assert(fitting_prefix_search(s, max_width, m, low, high, best) == fitting_prefix_search(
                    s,
                    max_width,
                    m,
                    low,
                    mid - 1,
                    best,
                ));
                lemma_fitting_search_longest(s, max_width, m, low, mid - 1, best);
            } else {
                assert(best == 0);
                assert(fitting_prefix_search(s, max_width, m, low, high, best) == Some(best));
            }
        }
    } else {
        assert(fitting_prefix_search(s, max_width, m, low, high, best) == Some(best));
        assert forall|k: int| best < k <= s.len() && !splits_pair(s, k) implies m(s.subrange(0, k))->0
            > max_width by {
            if k < low {
            } else {
                assert(high < k);
            }
        }
    }
}

/// Word wrapping fills each line: for a measurer under which a longer
/// prefix is never narrower, the fitting prefix fits (or is empty), does not
/// split a surrogate pair, and every longer prefix that splits no pair is
/// too wide.
pub proof fn lemma_fitting_prefix_is_longest(s: Seq<u16>, max_width: i32, m: spec_fn(Seq<u16>) -> Option<i32>)
    requires
        widens_with_length(s, m),
    ensures
        fitting_prefix(s, max_width, m) matches Some(f) && 0 <= f <= s.len() && (f == 0 || !splits_pair(s, f))
            && (f > 0 ==> m(s.subrange(0, f))->0 <= max_width) && forall|k: int|
            f < k <= s.len() && !splits_pair(s, k) ==> m(s.subrange(0, k))->0 > max_width,
{
    lemma_fitting_search_longest(s, max_width, m, 1, s.len() as int, 0);
}

} // verus!
