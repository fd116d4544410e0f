//! Replies from the analysis worker are tagged with the request they answer,
//! so that a superseded analysis cannot replace the view: each request takes
//! the next generation, the worker stops on a request that is no longer the
//! newest, and the window takes a reply only for the newest one.

use vstd::prelude::*;

verus! {

/// The generation after `current`; the counter wraps, as an atomic
/// `fetch_add` does.
pub open spec fn following(current: u64) -> u64 {
    if current == u64::MAX {
        0
    } else {
        (current + 1) as u64
    }
}

/// Whether a reply tagged `tag` may change the view while `current` is the
/// newest request. Untagged replies (the file's description, a failure to
/// start) belong to every request.
pub open spec fn takes(current: u64, tag: Option<u64>) -> bool {
    match tag {
        None => true,
        Some(id) => id == current,
    }
}

/// The generation a new request takes.
pub fn next_generation(current: u64) -> (next: u64)
    ensures
        next == following(current),
{
    if current == u64::MAX {
        0
    } else {
        current + 1
    }
}

/// Whether the window takes a reply tagged `tag`.
pub fn accepts(current: u64, tag: Option<u64>) -> (accepted: bool)
    ensures
        accepted == takes(current, tag),
{
    match tag {
        None => true,
        Some(id) => id == current,
    }
}

/// Whether the worker goes on with the request of generation `request`:
/// only while both channels are open and no newer request has been made.
pub fn keeps_going(current: u64, request: u64, replies_open: bool, requests_open: bool) -> (go: bool)
    ensures
        go == (replies_open && requests_open && current == request),
{
    replies_open && requests_open && current == request
}

/// Once a newer request has been made, a reply to the older one changes
/// nothing and its work stops.
pub proof fn lemma_superseded_replies_are_refused(request: u64)
    ensures
        !takes(following(request), Some(request)),
        takes(following(request), Some(following(request))),
{
}

} // verus!
