//! The system print dialog's side of printing: which pages a custom page
//! range selects, one print session per window at a time, and which setup
//! failures mean the system print dialog is unavailable.

use vstd::prelude::*;

verus! {

/// Whether the range of page numbers `first..=last` (one-based, clamped
/// below at page one) covers the page with zero-based index `index`.
pub open spec fn range_covers(range: (i32, i32), index: int) -> bool {
    let first = if range.0 < 1 { 1 } else { range.0 as int };
    let last = if range.1 < 0 { 0 } else { range.1 as int };
    first <= index + 1 <= last
}

/// Whether some range of the list covers the page with index `index`.
pub open spec fn covered(ranges: Seq<(i32, i32)>, index: int) -> bool
    decreases ranges.len(),
{
    ranges.len() > 0 && (range_covers(ranges.last(), index) || covered(ranges.drop_last(), index))
}

/// The zero-based indices of the pages that the requested ranges select,
/// in increasing order and without repeats; pages past the document are
/// ignored.
pub open spec fn selects(ranges: Seq<(i32, i32)>, page_count: int, selected: Seq<usize>) -> bool {
    &&& forall|i: int, j: int| 0 <= i < j < selected.len() ==> selected[i] < selected[j]
    &&& forall|i: int| 0 <= i < selected.len() ==> selected[i] < page_count && covered(ranges, selected[i] as int)
    &&& forall|p: int| 0 <= p < page_count && covered(ranges, p) ==> selected.contains(p as usize)
}

pub fn normalize_page_ranges(ranges: &[(i32, i32)], page_count: usize) -> (selected: Vec<usize>)
    ensures
        selects(ranges@, page_count as int, selected@),
{
    let mut marks: Vec<bool> = Vec::new();
    let mut p: usize = 0;
    while p < page_count
        invariant
            p <= page_count,
            marks@.len() == p,
            forall|i: int| 0 <= i < p ==> !marks@[i],
        decreases page_count - p,
    {
        marks.push(false);
        p = p + 1;
    }
    let mut r: usize = 0;
    proof {
        assert(ranges@.subrange(0, 0) =~= Seq::<(i32, i32)>::empty());
    }
    while r < ranges.len()
        invariant
            r <= ranges@.len(),
            marks@.len() == page_count,
            forall|i: int| 0 <= i < page_count ==> marks@[i] == covered(ranges@.subrange(0, r as int), i),
        decreases ranges@.len() - r,
    {
        let (first_raw, last_raw) = ranges[r];
        let first: usize = if first_raw < 1 { 1 } else { first_raw as usize };
        let last: usize = if last_raw < 0 { 0 } else { last_raw as usize };
        let ghost prefix = ranges@.subrange(0, r + 1);
        proof {
            assert(prefix.drop_last() =~= ranges@.subrange(0, r as int));
            assert(prefix.last() == ranges@[r as int]);
        }
        if !(first > last || first > page_count) {
            let stop = if last < page_count { last } else { page_count };
            let mut page = first;
            while page <= stop
                invariant
                    1 <= first <= page <= stop + 1,
                    stop <= page_count,
                    marks@.len() == page_count,
                    prefix.drop_last() == ranges@.subrange(0, r as int),
                    range_covers(prefix.last(), first - 1),
                    first == (if prefix.last().0 < 1 { 1 } else { prefix.last().0 as int }),
                    stop == (if last < page_count { last as int } else { page_count as int }),
                    last == (if prefix.last().1 < 0 { 0 } else { prefix.last().1 as int }),
                    forall|i: int| 0 <= i < page_count ==> marks@[i] == (covered(ranges@.subrange(0, r as int), i)
                        || (first <= i + 1 < page)),
                decreases stop + 1 - page,
            {
                marks.set(page - 1, true);
                page = page + 1;
            }
            assert forall|i: int| 0 <= i < page_count implies marks@[i] == covered(prefix, i) by {
                assert(range_covers(prefix.last(), i) == (first <= i + 1 <= last));
            }
        } else {
            assert forall|i: int| 0 <= i < page_count implies marks@[i] == covered(prefix, i) by {
                assert(!range_covers(prefix.last(), i));
            }
        }
        r = r + 1;
    }
    proof {
        assert(ranges@.subrange(0, ranges@.len() as int) =~= ranges@);
    }
    let mut selected: Vec<usize> = Vec::new();
    let mut i: usize = 0;
    while i < page_count
        invariant
            i <= page_count,
            marks@.len() == page_count,
            forall|k: int| 0 <= k < page_count ==> marks@[k] == covered(ranges@, k),
            forall|a: int, b: int| 0 <= a < b < selected@.len() ==> selected@[a] < selected@[b],
            forall|a: int| 0 <= a < selected@.len() ==> selected@[a] < i && covered(ranges@, selected@[a] as int),
            forall|q: int| 0 <= q < i && covered(ranges@, q) ==> selected@.contains(q as usize),
        decreases page_count - i,
    {
        if marks[i] {
            let ghost before = selected@;
            selected.push(i);
            assert forall|q: int| 0 <= q < i + 1 && covered(ranges@, q) implies selected@.contains(q as usize) by {
                if q < i {
                    let k = choose|k: int| 0 <= k < before.len() && before[k] == q as usize;
                    assert(selected@[k] == q as usize);
                } else {
                    assert(selected@[before.len() as int] == i);
                }
            }
        }
        i = i + 1;
    }
    selected
}

/// The windows that have a print dialog open.  A window may have one print
/// session at a time.
pub struct PrintSessions {
    owners: Vec<isize>,
}

impl PrintSessions {
    /// The windows with a session in progress.
    pub closed spec fn active(&self) -> Set<isize> {
        Set::new(|owner: isize| self.owners@.contains(owner))
    }

    pub fn new() -> (sessions: Self)
        ensures
            sessions.active() == Set::<isize>::empty(),
    {
        let sessions = PrintSessions { owners: Vec::new() };
        assert(sessions.active() =~= Set::<isize>::empty());
        sessions
    }

    /// Starts a print session for `owner`; refused (`false`) while that
    /// window already has one.
    pub fn begin_print_session(&mut self, owner: isize) -> (started: bool)
        ensures
            started == !old(self).active().contains(owner),
            final(self).active() == old(self).active().insert(owner),
    {
        let mut i: usize = 0;
        while i < self.owners.len()
            invariant
                i <= self.owners@.len(),
                forall|j: int| 0 <= j < i ==> self.owners@[j] != owner,
            decreases self.owners@.len() - i,
        {
            if self.owners[i] == owner {
                assert(self.active() =~= self.active().insert(owner));
                return false;
            }
            i = i + 1;
        }
        let ghost before = self.owners@;
        self.owners.push(owner);
        assert forall|o: isize| self.active().contains(o) == old(self).active().insert(owner).contains(o) by {
            if o != owner && before.contains(o) {
                let k = choose|k: int| 0 <= k < before.len() && before[k] == o;
                assert(self.owners@[k] == o);
            }
            if o == owner {
                assert(self.owners@[before.len() as int] == owner);
            }
            if self.owners@.contains(o) && o != owner {
                let k = choose|k: int| 0 <= k < self.owners@.len() && self.owners@[k] == o;
                assert(before[k] == o);
            }
        }
        assert(self.active() =~= old(self).active().insert(owner));
        true
    }

    /// Ends the print session of `owner`, if it has one.
    pub fn end_print_session(&mut self, owner: isize)
        ensures
            final(self).active() == old(self).active().remove(owner),
    {
        let mut kept: Vec<isize> = Vec::new();
        let mut i: usize = 0;
        while i < self.owners.len()
            invariant
                i <= self.owners@.len(),
                forall|o: isize| kept@.contains(o) <==> (o != owner && self.owners@.subrange(0, i as int).contains(o)),
            decreases self.owners@.len() - i,
        {
            let o = self.owners[i];
            let ghost before = kept@;
            if o != owner {
                kept.push(o);
            }
            assert forall|x: isize| kept@.contains(x) <==> (x != owner && self.owners@.subrange(0, i + 1).contains(x)) by {
                let prefix = self.owners@.subrange(0, i + 1);
                assert(prefix.drop_last() =~= self.owners@.subrange(0, i as int));
                if prefix.contains(x) {
                    let k = choose|k: int| 0 <= k < prefix.len() && prefix[k] == x;
                    if k < i {
                        assert(self.owners@.subrange(0, i as int)[k] == x);
                    }
                }
                if self.owners@.subrange(0, i as int).contains(x) {
                    let k = choose|k: int| 0 <= k < i && self.owners@.subrange(0, i as int)[k] == x;
                    assert(prefix[k] == x);
                }
                if x == o {
                    assert(prefix[i as int] == x);
                }
                if kept@.contains(x) && x != o {
                    let k = choose|k: int| 0 <= k < kept@.len() && kept@[k] == x;
                    if o != owner {
                        assert(k < before.len());
                        assert(before[k] == x);
                    } else {
                        assert(before[k] == x);
                    }
                }
                if before.contains(x) {
                    let k = choose|k: int| 0 <= k < before.len() && before[k] == x;
                    assert(kept@[k] == x);
                }
                if x == o && o != owner {
                    assert(kept@[before.len() as int] == x);
                }
            }
            i = i + 1;
        }
        assert(self.owners@.subrange(0, i as int) =~= self.owners@);
        self.owners = kept;
        assert(self.active() =~= old(self).active().remove(owner));
    }
}

/// `HRESULT` codes that mean the system print dialog is not available here,
/// so that printing falls back to the classic print dialog.
pub const E_NOTIMPL: i32 = -2147467263; // 0x80004001
pub const E_NOINTERFACE: i32 = -2147467262; // 0x80004002
pub const RO_E_METADATA_NAME_NOT_FOUND: i32 = -2147483633; // 0x8000000F
pub const REGDB_E_CLASSNOTREG: i32 = -2147221164; // 0x80040154
/// `HRESULT_FROM_WIN32(ERROR_NOT_SUPPORTED)`.
pub const HRESULT_NOT_SUPPORTED: i32 = -2147024846; // 0x80070032

pub fn modern_print_unavailable(code: i32) -> (r: bool)
    ensures
        r == (code == E_NOINTERFACE || code == E_NOTIMPL || code == REGDB_E_CLASSNOTREG || code
            == RO_E_METADATA_NAME_NOT_FOUND || code == HRESULT_NOT_SUPPORTED),
{
    code == E_NOINTERFACE || code == E_NOTIMPL || code == REGDB_E_CLASSNOTREG || code
        == RO_E_METADATA_NAME_NOT_FOUND || code == HRESULT_NOT_SUPPORTED
}

/// One print session per window: while a window's session is open a second
/// one is refused; ending it lets the window start another; and one window
/// ending its session leaves the other windows' sessions as they were.
pub proof fn lemma_print_sessions_are_exclusive(active: Set<isize>, owner: isize, other: isize)
    requires
        other != owner,
    ensures
        active.insert(owner).contains(owner),
        !active.insert(owner).remove(owner).contains(owner),
        active.remove(owner).contains(other) == active.contains(other),
        active.insert(owner).contains(other) == active.contains(other),
{
}

} // verus!
