//! Moving through a book: which page a request lands on, where next and
//! previous go, where reading resumes, and which strip rows keep their pixels.

use crate::text::{decimal, push_decimal};
use std::collections::VecDeque;
use vstd::prelude::*;
use vstd::string::StringExecFns;

verus! {

/// The last page of a book of `len` pages (0 for an empty book).
pub open spec fn last_of(len: usize) -> usize {
    if len == 0 {
        0
    } else {
        (len - 1) as usize
    }
}

pub fn last_page(len: usize) -> (r: usize)
    ensures
        r == last_of(len),
{
    len.saturating_sub(1)
}

/// The page a request for `requested` lands on: itself, or the last page
/// when it asks past the end.
pub open spec fn clamped(requested: usize, len: usize) -> usize {
    if requested < last_of(len) {
        requested
    } else {
        last_of(len)
    }
}

pub fn clamp_page(requested: usize, len: usize) -> (r: usize)
    ensures
        r == clamped(requested, len),
        len > 0 && requested >= len ==> r == len - 1,
        requested < len ==> r == requested,
{
    let last = last_page(len);
    if requested < last {
        requested
    } else {
        last
    }
}

/// How far "next" moves: as many pages as are showing, and at least one.
pub open spec fn stride(span: i32) -> int {
    if span > 1 {
        span as int
    } else {
        1
    }
}

/// Where "next" goes from `index`: past the pages showing, unless the last
/// page is already in view.
pub open spec fn next_of(index: usize, span: i32, len: usize) -> Option<int> {
    if index < last_of(len) {
        Some(index + stride(span))
    } else {
        None
    }
}

pub fn next_page(index: usize, span: i32, len: usize) -> (r: Option<usize>)
    requires
        index + stride(span) <= usize::MAX,
    ensures
        match next_of(index, span, len) {
            Some(n) => r == Some(n as usize),
            None => r is None,
        },
{
    let step: usize = if span > 1 {
        span as usize
    } else {
        1
    };
    if index < last_page(len) {
        Some(index + step)
    } else {
        None
    }
}

/// Where "previous" goes from `index`. Facing pages are grouped with the
/// cover alone, so in spread mode stepping back lands on the start of the
/// previous pair; nothing comes before the first page.
pub open spec fn prev_of(index: usize, spread: bool) -> Option<usize> {
    if index == 0 {
        None
    } else if spread && index >= 3 {
        Some((index - 2) as usize)
    } else {
        Some((index - 1) as usize)
    }
}

pub fn prev_page(index: usize, spread: bool) -> (r: Option<usize>)
    ensures
        r == prev_of(index, spread),
{
    if index == 0 {
        None
    } else if spread && index >= 3 {
        Some(index - 2)
    } else {
        Some(index - 1)
    }
}

/// A requested page always lands inside the book.
pub proof fn lands_inside(requested: usize, len: usize)
    requires
        len > 0,
    ensures
        clamped(requested, len) < len,
        requested < len ==> clamped(requested, len) == requested,
{
}

/// A request at or past the end lands on the last page, never anywhere
/// else; and asking for a later page never lands on an earlier one.
pub proof fn past_the_end_lands_on_the_last_page(requested: usize, other: usize, len: usize)
    requires
        len > 0,
    ensures
        requested >= len ==> clamped(requested, len) == len - 1,
        requested <= other ==> clamped(requested, len) <= clamped(other, len),
        clamped(requested, len) <= requested,
{
}

/// "Previous" undoes "next" while the pages are grouped as the reader shows
/// them: one page at a time outside spread mode (and on the cover), and two
/// at a time from page two on in spread mode.
pub proof fn previous_undoes_next(index: usize, span: i32, len: usize, spread: bool)
    requires
        index < last_of(len),
        (span <= 1 && (!spread || index + 1 < 3)) || (spread && span == 2 && index >= 1),
    ensures
        next_of(index, span, len) matches Some(n) && prev_of(n as usize, spread) == Some(index),
{
}

/// "Next" never goes back, and never stays put.
pub proof fn next_moves_on(index: usize, span: i32, len: usize)
    requires
        index < last_of(len),
    ensures
        next_of(index, span, len) matches Some(n) && n > index,
{
}

/// Where reading starts in a freshly opened book: the page that was opened,
/// or, when resuming and nothing in particular was opened, the bookmark if it
/// is still inside the book, else the first page.
pub open spec fn resume_of(resume: bool, start: usize, saved: Option<usize>, count: usize) -> usize {
    if resume && start == 0 {
        match saved {
            Some(p) => if p < count {
                p
            } else {
                0
            },
            None => 0,
        }
    } else {
        start
    }
}

/// Reopening a comic with resume on, and no particular page opened, lands on
/// the saved page whenever it is inside the book (the last page included);
/// a saved page outside the book, or none, starts on the first page; a page
/// that was opened in particular, or resume off, lands where it was opened.
pub proof fn resuming_lands_on_the_bookmark(
    resume: bool,
    start: usize,
    saved: Option<usize>,
    count: usize,
)
    ensures
        resume && start == 0 && saved is Some && saved->0 < count ==> resume_of(
            resume,
            start,
            saved,
            count,
        ) == saved->0,
        resume && start == 0 && (saved is None || saved->0 >= count) ==> resume_of(
            resume,
            start,
            saved,
            count,
        ) == 0,
        !(resume && start == 0) ==> resume_of(resume, start, saved, count) == start,
        start < count ==> resume_of(resume, start, saved, count) < count,
{
}

pub fn resume_page(resume: bool, start: usize, saved: Option<usize>, count: usize) -> (r: usize)
    ensures
        r == resume_of(resume, start, saved, count),
        resume && start == 0 && saved is Some && saved->0 < count ==> r == saved->0,
{
    if resume && start == 0 {
        match saved {
            Some(p) => if p < count {
                p
            } else {
                0
            },
            None => 0,
        }
    } else {
        start
    }
}

/// The window title for a book.
pub fn window_title(title: &str) -> (r: String)
    ensures
        r@ == title@ + " \u{2014} Mangix"@,
{
    let mut s = String::from_str(title);
    s.append(" \u{2014} Mangix");
    s
}

/// The label under a thumbnail: the page number, counted from one.
pub fn thumb_label(index: usize) -> (r: String)
    ensures
        r@ == decimal(index as nat + 1),
{
    let mut s = String::new();
    push_decimal(&mut s, index as u128 + 1);
    s
}

} // verus!

verus! {

/// How many strip rows keep their pixels around the one being read.
pub const STRIP_ROWS: usize = 12;

/// The strip rows whose pixels have been asked for, oldest first.
pub struct StripWindow {
    loaded: VecDeque<usize>,
}

impl StripWindow {
    pub closed spec fn rows(self) -> Seq<usize> {
        self.loaded@
    }

    /// No row twice, and never more than `STRIP_ROWS` of them.
    pub closed spec fn well_formed(self) -> bool {
        &&& self.loaded@.no_duplicates()
        &&& self.loaded@.len() <= STRIP_ROWS
    }

    pub fn new() -> (w: StripWindow)
        ensures
            w.well_formed(),
            w.rows() == Seq::<usize>::empty(),
    {
        StripWindow { loaded: VecDeque::new() }
    }

    fn holds(&self, index: usize) -> (r: bool)
        ensures
            r == self.rows().contains(index),
    {
        let mut i: usize = 0;
        while i < self.loaded.len()
            invariant
                i <= self.loaded@.len(),
                forall|q: int| 0 <= q < i ==> self.loaded@[q] != index,
            decreases self.loaded@.len() - i,
        {
            if self.loaded[i] == index {
                return true;
            }
            i = i + 1;
        }
        false
    }

    /// Notes that row `index` wants its pixels. `None` when it has them
    /// already; otherwise the rows that lose theirs to make room, oldest first.
    pub fn want(&mut self, index: usize) -> (r: Option<Vec<usize>>)
        requires
            old(self).well_formed(),
        ensures
            final(self).well_formed(),
            old(self).rows().contains(index) ==> r is None && final(self).rows() == old(self).rows(),
            !old(self).rows().contains(index) ==> (r matches Some(dropped) && {
                let grown = old(self).rows().push(index);
                let k = grown.len() - dropped@.len();
                &&& dropped@.len() == if grown.len() > STRIP_ROWS {
                    grown.len() - STRIP_ROWS
                } else {
                    0
                }
                &&& dropped@ == grown.take(dropped@.len() as int)
                &&& final(self).rows() == grown.skip(dropped@.len() as int)
            }),
            final(self).rows().contains(index),
    {
        if self.holds(index) {
            return None;
        }
        let ghost grown = self.loaded@.push(index);
        self.loaded.push_back(index);
        let mut dropped: Vec<usize> = Vec::new();
        proof {
            assert(grown.no_duplicates()) by {
                assert forall|i: int, j: int| 0 <= i < j < grown.len() implies grown[i] != grown[j] by {
                    if j == grown.len() - 1 {
                        assert(old(self).loaded@[i] == grown[i]);
                    }
                }
            }
            assert(grown.take(0) =~= Seq::<usize>::empty());
            assert(grown.skip(0) =~= grown);
        }
        while self.loaded.len() > STRIP_ROWS
            invariant
                grown.no_duplicates(),
                grown.len() <= STRIP_ROWS + 1,
                dropped@.len() <= grown.len(),
                dropped@ == grown.take(dropped@.len() as int),
                self.loaded@ == grown.skip(dropped@.len() as int),
                dropped@.len() > 0 ==> grown.len() > STRIP_ROWS && self.loaded@.len() == STRIP_ROWS,
            decreases self.loaded@.len(),
        {
            let ghost before = self.loaded@;
            match self.loaded.pop_front() {
                Some(old) => {
                    proof {
                        assert(grown.take(dropped@.len() as int + 1) =~= grown.take(
                            dropped@.len() as int,
                        ).push(old));
                        assert(grown.skip(dropped@.len() as int + 1) =~= before.drop_first());
                    }
                    dropped.push(old);
                },
                None => {},
            }
        }
        proof {
            let s = grown.skip(dropped@.len() as int);
            assert(s.no_duplicates()) by {
                assert forall|i: int, j: int| 0 <= i < j < s.len() implies s[i] != s[j] by {
                    assert(s[i] == grown[i + dropped@.len()]);
                    assert(s[j] == grown[j + dropped@.len()]);
                }
            }
            assert(s[s.len() - 1] == index);
        }
        Some(dropped)
    }
}

/// In every state the strip window holds at most `STRIP_ROWS` rows and no
/// row twice.
pub proof fn strip_window_bounded(w: StripWindow)
    requires
        w.well_formed(),
    ensures
        w.rows().len() <= STRIP_ROWS,
        w.rows().no_duplicates(),
{
}

} // verus!
