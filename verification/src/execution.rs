//! Per-document compute policy: how many workers an analysis gets and how
//! many frames each of them takes at a time.

use vstd::prelude::*;

verus! {

/// Which cores the workers may run on.
#[derive(Debug, Clone, Copy, PartialEq, Eq, Structural)]
pub enum Affinity {
    Any,
    Efficiency,
}

impl Default for Affinity {
    fn default() -> (affinity: Self)
        ensures
            affinity == Affinity::Any,
    {
        Affinity::Any
    }
}

/// Largest worker count a configuration may ask for.
pub const MAX_WORKERS: usize = 128;

/// Largest batch of frames per worker a configuration may ask for.
pub const MAX_BATCH_FRAMES: usize = 4096;

/// The batch size used when none (or a bad one) is configured.
pub const DEFAULT_BATCH_FRAMES: usize = 1024;

/// The `[analysis]` table of the configuration.
#[derive(Debug, Clone, Copy, PartialEq, Eq, Structural)]
pub struct Settings {
    /// Zero selects the conservative automatic worker budget.
    pub workers: usize,
    pub batch_frames: usize,
    pub affinity: Affinity,
}

impl Default for Settings {
    fn default() -> (settings: Self)
        ensures
            settings == (Settings { workers: 0, batch_frames: DEFAULT_BATCH_FRAMES, affinity: Affinity::Any }),
    {
        Settings { workers: 0, batch_frames: DEFAULT_BATCH_FRAMES, affinity: Affinity::Any }
    }
}

impl Settings {
    /// Replace each field that parsed but cannot be used, independently of
    /// the others: too many workers means the automatic budget, a batch size
    /// outside `1..=4096` means the default one.
    pub fn repair(&mut self)
        ensures
            final(self).workers == (if old(self).workers > MAX_WORKERS { 0 } else { old(self).workers }),
            final(self).batch_frames == (if 1 <= old(self).batch_frames <= MAX_BATCH_FRAMES {
                old(self).batch_frames
            } else {
                DEFAULT_BATCH_FRAMES
            }),
            final(self).affinity == old(self).affinity,
    {
        if self.workers > MAX_WORKERS {
            self.workers = 0;
        }
        if !(1 <= self.batch_frames && self.batch_frames <= MAX_BATCH_FRAMES) {
            self.batch_frames = DEFAULT_BATCH_FRAMES;
        }
    }
}

/// The workers a machine can run at once: the process's parallelism, cut to
/// the selected cores when there are any, and never less than one.
pub open spec fn capacity(available: usize, cpus: Option<Seq<usize>>) -> int {
    let limit = match cpus {
        Some(cpus) => if cpus.len() < available { cpus.len() as int } else { available as int },
        None => available as int,
    };
    if limit < 1 { 1 } else { limit }
}

/// The worker count an analysis pool gets: the request (or, for zero, the
/// capacity up to eight) within one and the capacity, and never above 128.
pub open spec fn spec_worker_count(requested: usize, available: usize, cpus: Option<Seq<usize>>) -> int {
    let capacity = capacity(available, cpus);
    let wanted = if requested == 0 {
        if capacity < 8 { capacity } else { 8 }
    } else {
        requested as int
    };
    let ceiling = if capacity < MAX_WORKERS { capacity } else { MAX_WORKERS as int };
    if wanted < 1 { 1 } else if wanted > ceiling { ceiling } else { wanted }
}

pub fn worker_count(requested: usize, available: usize, cpus: Option<&[usize]>) -> (count: usize)
    ensures
        count == spec_worker_count(requested, available, match cpus {
            Some(c) => Some(c@),
            None => None,
        }),
        1 <= count <= MAX_WORKERS,
{
    let limit = match cpus {
        Some(cpus) => if cpus.len() < available { cpus.len() } else { available },
        None => available,
    };
    let capacity = if limit < 1 { 1 } else { limit };
    let wanted = if requested == 0 {
        if capacity < 8 { capacity } else { 8 }
    } else {
        requested
    };
    let ceiling = if capacity < MAX_WORKERS { capacity } else { MAX_WORKERS };
    if wanted < 1 {
        1
    } else if wanted > ceiling {
        ceiling
    } else {
        wanted
    }
}

/// Whether `k` workers fit what was asked and what the machine has: at
/// least one, no more than requested (eight when the request is zero, the
/// automatic budget), no more than 128, and no more than the process's
/// parallelism or the selected cores, unless it is the one worker every
/// analysis gets.
pub open spec fn fits(k: int, requested: usize, available: usize, cpus: Option<Seq<usize>>) -> bool {
    &&& 1 <= k
    &&& k <= (if requested == 0 { 8 } else { requested as int })
    &&& k <= 128
    &&& (k <= available || k == 1)
    &&& (cpus matches Some(c) ==> (k <= c.len() || k == 1))
}

/// An analysis gets the most workers that fit: the count fits, unless
/// nothing above one does (no core selected at all), and every count that
/// fits is no larger. So a request within the machine and 128 is granted
/// exactly.
pub proof fn lemma_worker_count_is_the_most_that_fit(
    requested: usize,
    available: usize,
    cpus: Option<Seq<usize>>,
    k: int,
)
    ensures
        fits(spec_worker_count(requested, available, cpus), requested, available, cpus),
        fits(k, requested, available, cpus) ==> k <= spec_worker_count(requested, available, cpus),
        requested >= 1 && requested <= 128 && requested <= available && (cpus matches Some(c)
            ==> requested <= c.len()) ==> spec_worker_count(requested, available, cpus) == requested,
{
}

/// Repairing settings twice changes nothing the first repair did not.
pub proof fn lemma_repair_idempotent(workers: usize, batch_frames: usize)
    ensures
        ({
            let w = if workers > MAX_WORKERS { 0 } else { workers };
            let b = if 1 <= batch_frames <= MAX_BATCH_FRAMES { batch_frames } else { DEFAULT_BATCH_FRAMES };
            &&& (if w > MAX_WORKERS { 0 } else { w }) == w
            &&& (if 1 <= b <= MAX_BATCH_FRAMES { b } else { DEFAULT_BATCH_FRAMES }) == b
        }),
{
}

/// A budget never exceeds the cores it was given, nor the parallelism the
/// process has, unless those are zero.
pub proof fn lemma_budget_within_limits(requested: usize, available: usize, cpus: Option<Seq<usize>>)
    ensures
        1 <= spec_worker_count(requested, available, cpus) <= capacity(available, cpus),
        available >= 1 ==> spec_worker_count(requested, available, cpus) <= available,
        cpus matches Some(c) ==> (c.len() >= 1 ==> spec_worker_count(requested, available, cpus) <= c.len()),
{
}

} // verus!
