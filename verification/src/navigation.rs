//! Sample-based time navigation: which run of samples the plot shows, kept
//! inside the capture.
//!
//! Positions and lengths are whole samples. Where the window works in
//! fractions of the plot (zooming about the pointer, panning by a share of
//! the view) it turns those into sample counts first; what follows from a
//! count is decided here.

use vstd::prelude::*;

verus! {

/// A run of samples: `len` of them from `start`.
#[derive(Debug, Clone, Copy, PartialEq, Eq, Structural)]
pub struct View {
    pub start: u64,
    pub len: u64,
}

/// Whether `view` lies within a capture of `total` samples.
pub open spec fn inside(view: View, total: u64) -> bool {
    view.start + view.len <= total
}

/// The length a view of `view.len` samples takes in a capture of `total`
/// samples when it may not be shorter than `min`: an empty view means the
/// whole capture.
pub open spec fn bounded_len(len: u64, total: u64, min: u64) -> u64 {
    if len == 0 {
        total
    } else if len < min {
        min
    } else if len > total {
        total
    } else {
        len
    }
}

impl View {
    /// The whole capture.
    pub fn full(total: u64) -> (view: Self)
        ensures
            view == (View { start: 0, len: total }),
    {
        View { start: 0, len: total }
    }

    /// This view made to fit a capture of `total` samples with at least
    /// `min` of them shown (where the capture has that many): the length is
    /// clamped, then the start moved back until the view ends in the capture.
    pub fn bounded(self, total: u64, min: u64) -> (view: Self)
        requires
            min <= total,
        ensures
            view.len == bounded_len(self.len, total, min),
            view.start == (if self.start < total - view.len { self.start } else { (total - view.len) as u64 }),
            inside(view, total),
    {
        let len = if self.len == 0 {
            total
        } else if self.len < min {
            min
        } else if self.len > total {
            total
        } else {
            self.len
        };
        let room = total - len;
        View { start: if self.start < room { self.start } else { room }, len }
    }

    /// Whether this view asks for samples the capture has, and at least one.
    pub fn within(self, total: u64) -> (within: bool)
        ensures
            within == (self.len > 0 && inside(self, total)),
    {
        self.len > 0 && match self.start.checked_add(self.len) {
            Some(end) => end <= total,
            None => false,
        }
    }

    /// The same length, centred on sample `center` as far as the capture allows.
    pub fn centered(self, center: u64, total: u64) -> (view: Self)
        requires
            self.len <= total,
        ensures
            view.len == self.len,
            view.start == ({
                let wanted = if center >= self.len / 2 { center - self.len / 2 } else { 0 };
                if wanted < total - self.len { wanted } else { total - self.len }
            }),
            inside(view, total),
    {
        let wanted = center.saturating_sub(self.len / 2);
        let room = total - self.len;
        View { start: if wanted < room { wanted } else { room }, len: self.len }
    }
}

/// `start` moved by `amount` samples, back when `backward`, never below zero
/// nor past `max`.
pub fn shifted(start: u64, backward: bool, amount: u64, max: u64) -> (moved: u64)
    ensures
        moved == ({
            let target = if backward {
                if start >= amount { start - amount } else { 0 }
            } else {
                if start + amount <= u64::MAX { start + amount } else { u64::MAX as int }
            };
            if target < max { target } else { max as int }
        }),
{
    let target = if backward {
        start.saturating_sub(amount)
    } else {
        start.saturating_add(amount)
    };
    if target < max { target } else { max }
}

/// The display columns `[first, end)` of a minimap `columns` wide that a
/// view covers in a capture of `total` samples: rounded outwards, and at
/// least one column even at the deepest zoom.
pub open spec fn covered_columns(view: View, total: u64, columns: usize) -> (int, int) {
    let start = if view.start < total { view.start as int } else { total as int };
    let stop = if view.start + view.len < total { view.start + view.len } else { total as int };
    let first = start * columns / total as int;
    let end = (stop * columns + total - 1) / total as int;
    let first = if first < columns - 1 { first } else { columns - 1 };
    let end = if end > first + 1 { end } else { first + 1 };
    let end = if end < columns { end } else { columns as int };
    (first, end)
}

pub fn viewport_columns(view: View, total: u64, columns: usize) -> (span: (usize, usize))
    requires
        total > 0,
        columns > 0,
    ensures
        span.0 as int == covered_columns(view, total, columns).0,
        span.1 as int == covered_columns(view, total, columns).1,
        span.0 < span.1 <= columns,
{
    let start = if view.start < total { view.start } else { total };
    let stop = match view.start.checked_add(view.len) {
        Some(end) => if end < total { end } else { total },
        None => total,
    };
    proof {
        assert(start as int * columns <= total as int * columns) by (nonlinear_arith)
            requires start <= total;
        assert(stop as int * columns <= total as int * columns) by (nonlinear_arith)
            requires stop <= total;
        assert(start as int * columns / total as int <= columns) by (nonlinear_arith)
            requires start <= total, total > 0;
        assert(total as int * columns <= u64::MAX as int * usize::MAX as int) by (nonlinear_arith)
            requires total <= u64::MAX, columns <= usize::MAX;
    }
    let first = (start as u128) * (columns as u128) / (total as u128);
    let end = ((stop as u128) * (columns as u128) + (total as u128) - 1) / (total as u128);
    let first = if first < (columns - 1) as u128 { first as usize } else { columns - 1 };
    let end = if end > first as u128 + 1 { end } else { first as u128 + 1 };
    let end = if end < columns as u128 { end as usize } else { columns };
    (first, end)
}

/// Bounding a view that is already bounded changes nothing.
pub proof fn lemma_bounded_is_stable(view: View, total: u64, min: u64)
    requires
        min <= total,
    ensures
        ({
            let len = bounded_len(view.len, total, min);
            let start = if view.start < total - len { view.start } else { (total - len) as u64 };
            &&& bounded_len(len, total, min) == len
            &&& (if start < total - len { start } else { (total - len) as u64 }) == start
        }),
{
}

} // verus!
