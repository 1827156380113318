//! Editor-window arithmetic and document rules: the zoom scale, mouse-wheel
//! zoom steps, font heights for a DPI and zoom, the status bar's parts, the
//! menu's check and enable states, and `.LOG` time stamps.

use vstd::prelude::*;

verus! {

pub const ZOOM_LEVEL_COUNT: usize = 24;
pub const DEFAULT_ZOOM_INDEX: usize = 9;
/// One notch of a mouse wheel.
pub const WHEEL_DELTA: i32 = 120;

/// The zoom percentages offered, from smallest to largest.
pub open spec fn zoom_levels() -> Seq<u16> {
    seq![10, 20, 30, 40, 50, 60, 70, 80, 90, 100, 110, 120, 130, 140, 150, 160, 170, 180, 190, 200, 250, 300, 400, 500]
}

/// The zoom percentage at a scale index; an index off the scale means the
/// default zoom.
pub open spec fn zoom_at(index: int) -> u16 {
    zoom_levels()[if 0 <= index < ZOOM_LEVEL_COUNT { index } else { DEFAULT_ZOOM_INDEX as int }]
}

pub fn zoom_percent(index: usize) -> (percent: u16)
    ensures
        percent == zoom_at(index as int),
{
    let levels: [u16; 24] = [
        10, 20, 30, 40, 50, 60, 70, 80, 90, 100, 110, 120, 130, 140, 150, 160, 170, 180, 190, 200, 250,
        300, 400, 500,
    ];
    assert(levels@ =~= zoom_levels());
    levels[if index < ZOOM_LEVEL_COUNT { index } else { DEFAULT_ZOOM_INDEX }]
}

/// The scale index `steps` positions away, stopping at either end.
pub open spec fn stepped(index: int, steps: int) -> int {
    if steps >= 0 {
        if index + steps < ZOOM_LEVEL_COUNT - 1 { index + steps } else { ZOOM_LEVEL_COUNT - 1 }
    } else {
        if index + steps > 0 { index + steps } else { 0 }
    }
}

pub fn stepped_zoom_index(index: usize, steps: i32) -> (next: usize)
    ensures
        next == stepped(index as int, steps as int),
{
    if steps >= 0 {
        let raised = index.saturating_add(steps as usize);
        if raised < ZOOM_LEVEL_COUNT - 1 { raised } else { ZOOM_LEVEL_COUNT - 1 }
    } else {
        let down: u32 = if steps == i32::MIN { 0x8000_0000 } else { (-steps) as u32 };
        index.saturating_sub(down as usize)
    }
}

/// The sum of a wheel remainder and a new wheel delta, saturated to `i32`.
pub open spec fn wheel_total(remainder: i32, delta: i32) -> int {
    let sum = remainder + delta;
    if sum > i32::MAX { i32::MAX as int } else if sum < i32::MIN { i32::MIN as int } else { sum }
}

/// Splits accumulated wheel movement into whole notches and what is left:
/// `steps` notches of [`WHEEL_DELTA`] plus a remainder smaller than one notch
/// that has the sign of the movement (division rounding toward zero).
pub open spec fn wheel_split(total: int, steps: int, remainder: int) -> bool {
    &&& steps * WHEEL_DELTA + remainder == total
    &&& -WHEEL_DELTA < remainder < WHEEL_DELTA
    &&& total >= 0 ==> remainder >= 0
    &&& total < 0 ==> remainder <= 0
}

pub fn accumulate_wheel_delta(remainder: i32, delta: i32) -> (result: (i32, i32))
    ensures
        wheel_split(wheel_total(remainder, delta), result.0 as int, result.1 as int),
{
    let sum = remainder as i64 + delta as i64;
    let t: i64 = if sum > i32::MAX as i64 {
        i32::MAX as i64
    } else if sum < i32::MIN as i64 {
        i32::MIN as i64
    } else {
        sum
    };
    if t >= 0 {
        let q = t / 120;
        let r = t % 120;
        ((q as i32), (r as i32))
    } else {
        let a = -t;
        let q = a / 120;
        let r = a % 120;
        ((-q) as i32, (-r) as i32)
    }
}

/// Pixel height of a font of `point_size_tenths` tenths of a point at `dpi`
/// and `zoom_percentage`, rounded to nearest and at least one pixel, given
/// as the negative `LOGFONT` height that selects by character height.  Each
/// input below one counts as one.
pub open spec fn font_pixels(point_size_tenths: i32, dpi: u32, zoom_percentage: u16) -> int {
    let p: int = if point_size_tenths < 1 { 1 } else { point_size_tenths as int };
    let d: int = if dpi < 1 { 1 } else { dpi as int };
    let z: int = if zoom_percentage < 1 { 1 } else { zoom_percentage as int };
    let pixels = (p * d * z + 36_000) / 72_000;
    if pixels < 1 { 1 } else if pixels > i32::MAX { i32::MAX as int } else { pixels }
}

pub fn rendered_font_height(point_size_tenths: i32, dpi: u32, zoom_percentage: u16) -> (height: i32)
    requires
        (if point_size_tenths < 1 { 1 } else { point_size_tenths as int }) * (if dpi < 1 { 1 } else { dpi as int }) * (
        if zoom_percentage < 1 { 1 } else { zoom_percentage as int }) + 36_000 <= i64::MAX,
    ensures
        height == -font_pixels(point_size_tenths, dpi, zoom_percentage),
{
    let p: i64 = if point_size_tenths < 1 { 1 } else { point_size_tenths as i64 };
    let d: i64 = if dpi < 1 { 1 } else { dpi as i64 };
    let z: i64 = if zoom_percentage < 1 { 1 } else { zoom_percentage as i64 };
    assert(0 <= p * d && 0 <= p * d * z) by (nonlinear_arith)
        requires
            p >= 1,
            d >= 1,
            z >= 1,
    ;
    assert(p * d <= p * d * z) by (nonlinear_arith)
        requires
            p >= 1,
            d >= 1,
            z >= 1,
    ;
    let numerator = p * d * z;
    let pixels = (numerator + 36_000) / 72_000;
    let clamped = if pixels < 1 { 1 } else if pixels > i32::MAX as i64 { i32::MAX as i64 } else { pixels };
    -(clamped as i32)
}

pub open spec fn clamp0(w: int) -> int {
    if w < 0 { 0 } else { w }
}

/// The total of the (non-negative parts of the) widths.
pub open spec fn width_sum(widths: Seq<i32>) -> int
    decreases widths.len(),
{
    if widths.len() == 0 {
        0
    } else {
        clamp0(widths[0] as int) + width_sum(widths.drop_first())
    }
}

/// The right edges of the status bar's parts: the parts named by
/// `right_widths` are packed against the right edge (negative widths count
/// as zero), the first part takes what is left, no edge goes below zero,
/// and the last part reaches the end (`-1`).
pub open spec fn status_parts(client_width: i32, right_widths: Seq<i32>) -> Seq<i32> {
    let n = right_widths.len() as int;
    if n == 0 {
        seq![-1i32]
    } else {
        Seq::new(
            n as nat,
            |k: int| clamp0(clamp0(client_width as int) - width_sum(right_widths.subrange(k, n))) as i32,
        ).push(-1i32)
    }
}

proof fn lemma_width_sum_step(widths: Seq<i32>, k: int)
    requires
        0 <= k < widths.len(),
    ensures
        width_sum(widths.subrange(k, widths.len() as int)) == clamp0(widths[k] as int) + width_sum(
            widths.subrange(k + 1, widths.len() as int),
        ),
        width_sum(widths.subrange(k + 1, widths.len() as int)) >= 0,
{
    assert(widths.subrange(k, widths.len() as int).drop_first() =~= widths.subrange(k + 1, widths.len() as int));
    lemma_width_sum_nonneg(widths.subrange(k + 1, widths.len() as int));
}

proof fn lemma_width_sum_nonneg(widths: Seq<i32>)
    ensures
        width_sum(widths) >= 0,
    decreases widths.len(),
{
    if widths.len() > 0 {
        lemma_width_sum_nonneg(widths.drop_first());
    }
}

/// Computes the status bar's part edges (see [`status_parts`]).
pub fn calculate_status_parts(client_width: i32, right_widths: &[i32]) -> (parts: Vec<i32>)
    requires
        width_sum(right_widths@) <= i32::MAX,
    ensures
        parts@ == status_parts(client_width, right_widths@),
{
    let n = right_widths.len();
    if n == 0 {
        let mut only: Vec<i32> = Vec::new();
        only.push(-1);
        proof {
            assert(only@ =~= seq![-1i32]);
        }
        return only;
    }
    let client: i32 = if client_width < 0 { 0 } else { client_width };
    let ghost ws = right_widths@;
    let mut total: i32 = 0;
    let mut i: usize = n;
    proof {
        assert(ws.subrange(n as int, n as int) =~= Seq::<i32>::empty());
    }
    while i > 0
        invariant
            i <= n == ws.len(),
            ws == right_widths@,
            total == width_sum(ws.subrange(i as int, n as int)),
            width_sum(ws) <= i32::MAX,
            0 <= total,
        decreases i,
    {
        proof {
            lemma_width_sum_step(ws, i - 1);
            lemma_width_sum_prefix_bound(ws, i - 1);
        }
        let w = right_widths[i - 1];
        total = total + if w < 0 { 0 } else { w };
        i = i - 1;
    }
    proof {
        assert(ws.subrange(0, n as int) =~= ws);
    }
    let mut parts: Vec<i32> = Vec::new();
    let mut suffix: i32 = total;
    let mut k: usize = 0;
    while k < n
        invariant
            k <= n == ws.len(),
            n > 0,
            ws == right_widths@,
            0 <= client,
            client == clamp0(client_width as int),
            suffix == width_sum(ws.subrange(k as int, n as int)),
            0 <= suffix,
            parts@.len() == k,
            forall|j: int| 0 <= j < k ==> parts@[j] == clamp0(client - width_sum(ws.subrange(j, n as int))) as i32,
        decreases n - k,
    {
        let part = if client - suffix < 0 { 0 } else { client - suffix };
        parts.push(part);
        if k + 1 < n {
            proof {
                lemma_width_sum_step(ws, k as int);
            }
            let w = right_widths[k];
            suffix = suffix - if w < 0 { 0 } else { w };
        } else {
            proof {
                assert(ws.subrange(n as int, n as int) =~= Seq::<i32>::empty());
                lemma_width_sum_step(ws, k as int);
            }
            suffix = 0;
        }
        k = k + 1;
    }
    parts.push(-1);
    proof {
        assert(parts@ =~= status_parts(client_width, ws));
    }
    parts
}

proof fn lemma_width_sum_prefix_bound(widths: Seq<i32>, k: int)
    requires
        0 <= k <= widths.len(),
    ensures
        width_sum(widths.subrange(k, widths.len() as int)) <= width_sum(widths),
    decreases k,
{
    if k > 0 {
        lemma_width_sum_prefix_bound(widths, k - 1);
        lemma_width_sum_step(widths, k - 1);
    } else {
        assert(widths.subrange(0, widths.len() as int) =~= widths);
    }
}

/// Which menu commands are checked and which are available.
#[derive(Clone, Copy, Debug, PartialEq, Eq)]
pub struct MenuState {
    pub word_wrap_checked: bool,
    pub status_bar_checked: bool,
    pub status_bar_enabled: bool,
    pub go_to_enabled: bool,
    pub zoom_in_enabled: bool,
    pub zoom_out_enabled: bool,
    pub zoom_default_enabled: bool,
}

/// The menu's state: Word Wrap hides the status bar and disables Go To;
/// zooming in or out stops at the ends of the scale, and Restore Default
/// Zoom is unavailable at the default zoom.
pub fn menu_state(word_wrap: bool, status_requested: bool, zoom_index: usize) -> (r: MenuState)
    ensures
        r == (MenuState {
            word_wrap_checked: word_wrap,
            status_bar_checked: status_requested && !word_wrap,
            status_bar_enabled: !word_wrap,
            go_to_enabled: !word_wrap,
            zoom_in_enabled: zoom_index + 1 != ZOOM_LEVEL_COUNT,
            zoom_out_enabled: zoom_index != 0,
            zoom_default_enabled: zoom_index != DEFAULT_ZOOM_INDEX,
        }),
{
    MenuState {
        word_wrap_checked: word_wrap,
        status_bar_checked: status_requested && !word_wrap,
        status_bar_enabled: !word_wrap,
        go_to_enabled: !word_wrap,
        zoom_in_enabled: zoom_index != ZOOM_LEVEL_COUNT - 1,
        zoom_out_enabled: zoom_index != 0,
        zoom_default_enabled: zoom_index != DEFAULT_ZOOM_INDEX,
    }
}

/// Whether the status bar shows: it was asked for and Word Wrap is off.
pub fn status_is_visible(status_requested: bool, word_wrap: bool) -> (r: bool)
    ensures
        r == (status_requested && !word_wrap),
{
    status_requested && !word_wrap
}

/// A `.LOG` document starts with the line `.LOG`.
pub open spec fn log_document(text: Seq<char>) -> bool {
    &&& text.len() >= 4
    &&& text.subrange(0, 4) == ".LOG"@
    &&& text.len() == 4 || text[4] == '\r' || text[4] == '\n'
}

pub fn is_log_document(text: &str) -> (r: bool)
    ensures
        r == log_document(text@),
{
    proof {
        reveal_strlit(".LOG");
    }
    let len = text.unicode_len();
    if len < 4 {
        return false;
    }
    let prefix = text.get_char(0) == '.' && text.get_char(1) == 'L' && text.get_char(2) == 'O'
        && text.get_char(3) == 'G';
    if !prefix {
        assert(text@.subrange(0, 4) != ".LOG"@) by {
            if text@.subrange(0, 4) == ".LOG"@ {
                assert(text@.subrange(0, 4)[0] == '.');
                assert(text@.subrange(0, 4)[1] == 'L');
                assert(text@.subrange(0, 4)[2] == 'O');
                assert(text@.subrange(0, 4)[3] == 'G');
            }
        }
        return false;
    }
    assert(text@.subrange(0, 4) =~= ".LOG"@);
    if len == 4 {
        return true;
    }
    let next = text.get_char(4);
    next == '\r' || next == '\n'
}

/// The text of a `.LOG` document after opening it: the time stamp goes on
/// a line of its own at the end.
pub open spec fn with_log_entry(text: Seq<char>, timestamp: Seq<char>) -> Seq<char> {
    let ended = text.len() > 0 && (text.last() == '\r' || text.last() == '\n');
    (if ended { text } else { text + "\r\n"@ }) + timestamp + "\r\n"@
}

/// Appends a time-stamp line to a `.LOG` document; leaves any other text
/// alone.  Returns whether it appended.
pub fn append_log_entry(text: &mut String, timestamp: &str) -> (appended: bool)
    ensures
        appended == log_document(old(text)@),
        final(text)@ == if appended {
            with_log_entry(old(text)@, timestamp@)
        } else {
            old(text)@
        },
{
    if !is_log_document(text.as_str()) {
        return false;
    }
    let len = text.as_str().unicode_len();
    let last = text.as_str().get_char(len - 1);
    if last != '\r' && last != '\n' {
        text.append("\r\n");
    }
    text.append(timestamp);
    text.append("\r\n");
    true
}

} // verus!

verus! {

/// Zoom steps stay on the scale, and Restore Default Zoom (a step by the
/// distance to the default) lands on the default from anywhere on it.
pub proof fn lemma_zoom_stays_on_scale(index: int, steps: int)
    requires
        0 <= index < ZOOM_LEVEL_COUNT,
    ensures
        0 <= stepped(index, steps) < ZOOM_LEVEL_COUNT,
        stepped(index, DEFAULT_ZOOM_INDEX - index) == DEFAULT_ZOOM_INDEX,
        zoom_at(DEFAULT_ZOOM_INDEX as int) == 100,
{
}

proof fn lemma_zoom_neighbors()
    ensures
        forall|i: int| 0 <= i < ZOOM_LEVEL_COUNT - 1 ==> #[trigger] zoom_at(i) < zoom_at(i + 1),
        forall|i: int| 0 <= i < 20 ==> #[trigger] zoom_at(i) == 10 * (i + 1),
{
    let z = zoom_levels();
    assert(z[0] == 10 && z[1] == 20 && z[2] == 30 && z[3] == 40 && z[4] == 50 && z[5] == 60);
    assert(z[6] == 70 && z[7] == 80 && z[8] == 90 && z[9] == 100 && z[10] == 110 && z[11] == 120);
    assert(z[12] == 130 && z[13] == 140 && z[14] == 150 && z[15] == 160 && z[16] == 170);
    assert(z[17] == 180 && z[18] == 190 && z[19] == 200 && z[20] == 250 && z[21] == 300);
    assert(z[22] == 400 && z[23] == 500);
}

/// The zoom scale rises strictly from its smallest to its largest level:
/// zooming in always enlarges and zooming out always shrinks the text.  Up
/// to 200% the levels are ten percent apart, starting at 10%; above that
/// they are 250%, 300%, 400% and 500%.
pub proof fn lemma_zoom_scale_rises(i: int, j: int)
    requires
        0 <= i < j < ZOOM_LEVEL_COUNT,
    ensures
        zoom_at(i) < zoom_at(j),
        j < 20 ==> zoom_at(j) == 10 * (j + 1) && zoom_at(j) - zoom_at(i) == 10 * (j - i),
        zoom_at(0) == 10,
        zoom_at(20) == 250 && zoom_at(21) == 300 && zoom_at(22) == 400 && zoom_at(23) == 500,
    decreases j - i,
{
    lemma_zoom_neighbors();
    assert(zoom_levels()[20] == 250 && zoom_levels()[21] == 300 && zoom_levels()[22] == 400
        && zoom_levels()[23] == 500);
    assert(zoom_at(j - 1) < zoom_at(j - 1 + 1));
    assert(zoom_at(0) == 10);
    if j < 20 {
        assert(zoom_at(j) == 10 * (j + 1));
        assert(zoom_at(i) == 10 * (i + 1));
    }
    if i < j - 1 {
        lemma_zoom_scale_rises(i, j - 1);
    }
}

/// Zooming in and back out (or out and back in) by the same number of
/// steps returns to where it started, as long as neither end was reached.
pub proof fn lemma_zoom_steps_undo(index: int, steps: int)
    requires
        0 <= index < ZOOM_LEVEL_COUNT,
        0 <= index + steps < ZOOM_LEVEL_COUNT,
    ensures
        stepped(stepped(index, steps), -steps) == index,
{
}

/// The wheel remainder never reaches a whole notch, and the notches and
/// remainder account for all of the accumulated movement.
pub proof fn lemma_wheel_remainder_bounded(total: int, steps: int, remainder: int)
    requires
        wheel_split(total, steps, remainder),
    ensures
        -119 <= remainder <= 119,
        steps * 120 + remainder == total,
{
}

/// A font height is always a character height of at least one pixel.
pub proof fn lemma_font_height_is_negative(point_size_tenths: i32, dpi: u32, zoom_percentage: u16)
    ensures
        1 <= font_pixels(point_size_tenths, dpi, zoom_percentage) <= i32::MAX,
{
}

/// Status bar parts: one more edge than measured parts, the last edge at
/// the end (`-1`), and the other edges in order within the window width.
pub proof fn lemma_status_parts_ordered(client_width: i32, right_widths: Seq<i32>)
    ensures
        ({
            let parts = status_parts(client_width, right_widths);
            &&& parts.len() == right_widths.len() + 1
            &&& parts.last() == -1
            &&& forall|k: int| 0 <= k < right_widths.len() ==> 0 <= #[trigger] parts[k] <= clamp0(client_width as int)
            &&& forall|k: int| 0 <= k && k + 1 < right_widths.len() ==> #[trigger] parts[k] <= parts[k + 1]
        }),
{
    let n = right_widths.len() as int;
    let parts = status_parts(client_width, right_widths);
    assert forall|k: int| 0 <= k < n implies 0 <= #[trigger] parts[k] <= clamp0(client_width as int) by {
        lemma_width_sum_nonneg(right_widths.subrange(k, n));
    }
    assert forall|k: int| 0 <= k && k + 1 < n implies #[trigger] parts[k] <= parts[k + 1] by {
        lemma_width_sum_step(right_widths, k);
    }
}

/// After a time stamp is added, the document is still a `.LOG` document
/// and ends with the time stamp on a line of its own.
pub proof fn lemma_log_entry_keeps_log(text: Seq<char>, timestamp: Seq<char>)
    requires
        log_document(text),
    ensures
        log_document(with_log_entry(text, timestamp)),
        with_log_entry(text, timestamp).subrange(
            with_log_entry(text, timestamp).len() - timestamp.len() - 2,
            with_log_entry(text, timestamp).len() as int,
        ) == timestamp + "\r\n"@,
{
    reveal_strlit("\r\n");
    reveal_strlit(".LOG");
    let ended = text.len() > 0 && (text.last() == '\r' || text.last() == '\n');
    let head = if ended { text } else { text + "\r\n"@ };
    let r = with_log_entry(text, timestamp);
    assert(r == head + timestamp + "\r\n"@);
    assert(r.subrange(0, 4) =~= text.subrange(0, 4));
    if text.len() > 4 {
        assert(r[4] == text[4]);
    } else {
        assert(text[3] == text.subrange(0, 4)[3]);
        assert(r[4] == '\r');
    }
    assert(r.subrange(r.len() - timestamp.len() - 2, r.len() as int) =~= timestamp + "\r\n"@);
}

} // verus!

verus! {

/// The zero-based line to move the caret to for a Go To Line answer;
/// `None` when the line number is not between one and the line count.
pub fn go_to_line_index(line: u32, line_count: u32) -> (r: Option<u32>)
    ensures
        r == (if line == 0 || line > line_count { None } else { Some((line - 1) as u32) }),
{
    if line == 0 || line > line_count {
        None
    } else {
        Some(line - 1)
    }
}

/// The new DPI carried by a DPI-change message (the high word of its
/// `wparam`), never below 96.
pub fn dpi_from_wparam(wparam: usize) -> (dpi: u32)
    ensures
        dpi == (if (wparam / 0x10000) % 0x10000 < 96 { 96 } else { (wparam / 0x10000) % 0x10000 }),
{
    let high = (wparam / 0x10000) % 0x10000;
    if high < 96 { 96 } else { high as u32 }
}

/// The main window's title: a `*` while there are unsaved changes, then the
/// localized title text (without its terminator), NUL-terminated.
pub fn window_title(dirty: bool, localized: &[u16]) -> (title: Vec<u16>)
    ensures
        title@ == (if dirty { seq![42u16] } else { Seq::<u16>::empty() }) + crate::localization::strip_nul(
            localized@,
        ) + seq![0u16],
{
    let mut title: Vec<u16> = Vec::new();
    if dirty {
        title.push(42);
    }
    crate::search::push_units(&mut title, crate::localization::without_trailing_nul(localized));
    title.push(0);
    title
}

/// The padding around a status-bar part's text: 16 pixels at 96 DPI,
/// scaled and rounded.
pub open spec fn status_padding(dpi: u32) -> int {
    (16 * (if dpi < 1 { 1 } else { dpi as int }) + 48) / 96
}

/// The width of a status-bar part whose text measured `measured` pixels
/// (`None` when it could not be measured): the text's width plus the
/// padding.
pub fn status_text_width(measured: Option<i32>, dpi: u32) -> (width: i32)
    requires
        measured matches Some(cx) ==> (if cx < 0 { 0 } else { cx as int }) + status_padding(dpi) <= i32::MAX,
    ensures
        width == match measured {
            Some(cx) => (if cx < 0 { 0 } else { cx as int }) + status_padding(dpi),
            None => status_padding(dpi),
        },
{
    let scaled_dpi: i64 = if dpi < 1 { 1 } else { dpi as i64 };
    let padding = ((16 * scaled_dpi + 48) / 96) as i32;
    match measured {
        Some(cx) => {
            let text = if cx < 0 { 0 } else { cx };
            text + padding
        },
        None => padding,
    }
}

/// The editor's height below which the status bar (of `status_height`)
/// sits, never negative.
pub fn editor_height(client_height: i32, status_height: i32) -> (height: i32)
    requires
        i32::MIN <= client_height - status_height <= i32::MAX,
    ensures
        height == (if client_height - status_height < 0 { 0 } else { client_height - status_height }),
{
    let height = client_height - status_height;
    if height < 0 { 0 } else { height }
}

} // verus!
