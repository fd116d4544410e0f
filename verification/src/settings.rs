//! Effective analysis settings: which transforms may be asked for, and the
//! hop a transform size and an overlap come to.

use vstd::prelude::*;

use crate::text::{decimal, push_decimal, push_str};

verus! {

/// The largest transform offered.
pub const MAX_FFT_SIZE: usize = 1048576;

/// The transform size used when none (or an unusable one) is configured.
pub const DEFAULT_FFT_SIZE: usize = 2048;

/// The largest overlap offered, in percent.
pub const MAX_OVERLAP: u8 = 95;

/// Whether `n` is a power of two (one counts: it is two to the zeroth).
pub open spec fn power_of_two(n: nat) -> bool
    decreases n,
{
    if n == 0 {
        false
    } else if n == 1 {
        true
    } else {
        n % 2 == 0 && power_of_two(n / 2)
    }
}

pub fn is_power_of_two(n: usize) -> (power: bool)
    ensures
        power == power_of_two(n as nat),
{
    let mut m = n;
    while m > 1 && m % 2 == 0
        invariant
            power_of_two(n as nat) == power_of_two(m as nat),
        decreases m,
    {
        m = m / 2;
    }
    m == 1
}

/// A transform size the configuration file may name: a power of two of at
/// least two, or else the default.
pub fn repaired_fft_size(fft_size: usize) -> (size: usize)
    ensures
        size == (if power_of_two(fft_size as nat) && fft_size >= 2 { fft_size } else { DEFAULT_FFT_SIZE }),
{
    if is_power_of_two(fft_size) && fft_size >= 2 {
        fft_size
    } else {
        DEFAULT_FFT_SIZE
    }
}

/// The samples between successive transforms: `fft_size` less the overlapped
/// share, rounded down, and at least one.
pub open spec fn spec_hop(fft_size: usize, overlap: u8) -> int {
    let hop = fft_size * (100 - overlap) / 100;
    if hop < 1 { 1 } else { hop }
}

/// The hop, computed without the product of size and share that could overflow.
pub fn hop(fft_size: usize, overlap: u8) -> (hop: usize)
    requires
        overlap <= 100,
    ensures
        hop == spec_hop(fft_size, overlap),
{
    let share = (100 - overlap) as usize;
    proof {
        let q = fft_size / 100;
        let r = fft_size % 100;
        assert(fft_size == 100 * q + r);
        assert(q * share <= fft_size) by (nonlinear_arith)
            requires
                q == fft_size / 100,
                share <= 100,
        ;
        assert(r * share <= 9900) by (nonlinear_arith)
            requires
                r < 100,
                share <= 100,
        ;
        assert(r * share / 100 < 100) by (nonlinear_arith)
            requires
                r < 100,
                share <= 100,
        ;
        assert(fft_size * share / 100 == q * share + r * share / 100) by (nonlinear_arith)
            requires
                fft_size == 100 * q + r,
                0 <= r < 100,
                share >= 0,
        ;
        assert(q * share + r * share / 100 <= fft_size) by (nonlinear_arith)
            requires
                fft_size == 100 * q + r,
                0 <= r < 100,
                0 <= share <= 100,
                q >= 0,
        ;
    }
    let whole = fft_size / 100 * share;
    let part = fft_size % 100 * share / 100;
    let hop = whole + part;
    if hop < 1 { 1 } else { hop }
}

pub open spec fn fft_size_message() -> Seq<char> {
    "FFT size must be a power of two from 2 to 1048576"@
}

pub open spec fn overlap_message() -> Seq<char> {
    "Overlap must be between 0 and 95%"@
}

pub open spec fn range_message() -> Seq<char> {
    "Display range must be finite and greater than zero"@
}

/// What is said of a signal shorter than one transform.
pub open spec fn length_message(samples: u64) -> Seq<char> {
    "The signal has "@ + decimal(samples as nat) + " samples; choose a smaller FFT"@
}

/// Check settings before they are used, the first problem first: the
/// transform size, the overlap, the display range (whose finiteness the
/// caller has judged), and -- for a known signal -- its length.
pub fn validate(fft_size: usize, overlap: u8, range_usable: bool, samples: Option<u64>) -> (checked: Result<(), String>)
    ensures
        !(power_of_two(fft_size as nat) && 2 <= fft_size <= MAX_FFT_SIZE) ==> (checked matches Err(m) && m@ == fft_size_message()),
        power_of_two(fft_size as nat) && 2 <= fft_size <= MAX_FFT_SIZE ==> {
            if overlap > MAX_OVERLAP {
                checked matches Err(m) && m@ == overlap_message()
            } else if !range_usable {
                checked matches Err(m) && m@ == range_message()
            } else {
                match samples {
                    Some(n) => if n < fft_size {
                        checked matches Err(m) && m@ == length_message(n)
                    } else {
                        checked is Ok
                    },
                    None => checked is Ok,
                }
            }
        },
{
    if !(is_power_of_two(fft_size) && 2 <= fft_size && fft_size <= MAX_FFT_SIZE) {
        return Err(String::from_str("FFT size must be a power of two from 2 to 1048576"));
    }
    if overlap > MAX_OVERLAP {
        return Err(String::from_str("Overlap must be between 0 and 95%"));
    }
    if !range_usable {
        return Err(String::from_str("Display range must be finite and greater than zero"));
    }
    match samples {
        Some(n) => {
            if n < fft_size as u64 {
                let mut message = String::from_str("The signal has ");
                push_decimal(&mut message, n);
                push_str(&mut message, " samples; choose a smaller FFT");
                return Err(message);
            }
        },
        None => {},
    }
    Ok(())
}

/// The hop is at least one sample and at most a whole transform, and more
/// overlap never lengthens it; which is why overlaps that round to the same
/// hop are the same picture.
pub proof fn lemma_hop_bounds(fft_size: usize, less: u8, more: u8)
    requires
        less <= more <= 100,
    ensures
        1 <= spec_hop(fft_size, less),
        fft_size >= 1 ==> spec_hop(fft_size, less) <= fft_size,
        spec_hop(fft_size, more) <= spec_hop(fft_size, less),
{
    let f = fft_size as int;
    assert(f * (100 - more) / 100 <= f * (100 - less) / 100) by (nonlinear_arith)
        requires
            0 <= f,
            less <= more <= 100,
    {
        assert(f * (100 - more) <= f * (100 - less));
    }
    assert(f * (100 - less) / 100 <= f) by (nonlinear_arith)
        requires
            0 <= f,
            less <= 100,
    ;
}

/// The hop is the part of the transform not overlapped, rounded down: a
/// hop of `h` samples covers at most `fft_size * (100 - overlap)` hundredths
/// of a sample, and one sample more would cover more than that; only when
/// that share is under one sample does the hop stay at one.
pub proof fn lemma_hop_is_the_unoverlapped_share(fft_size: usize, overlap: u8)
    requires
        overlap <= 100,
    ensures
        spec_hop(fft_size, overlap) >= 1,
        spec_hop(fft_size, overlap) * 100 <= fft_size * (100 - overlap) || (spec_hop(fft_size, overlap) == 1
            && fft_size * (100 - overlap) < 100),
        fft_size * (100 - overlap) < (spec_hop(fft_size, overlap) + 1) * 100,
{
    let x = fft_size * (100 - overlap);
    assert(x >= 0) by (nonlinear_arith)
        requires
            x == fft_size * (100 - overlap),
            fft_size >= 0,
            overlap <= 100,
    ;
    let q = x / 100;
    assert(q * 100 <= x < (q + 1) * 100) by (nonlinear_arith)
        requires
            x >= 0,
            q == x / 100,
    ;
}

/// A repaired transform size is always one the settings accept.
pub proof fn lemma_repaired_size_is_valid(fft_size: usize)
    ensures
        ({
            let size = if power_of_two(fft_size as nat) && fft_size >= 2 { fft_size } else { DEFAULT_FFT_SIZE };
            power_of_two(size as nat) && 2 <= size
        }),
{
    reveal_with_fuel(power_of_two, 12);
}

} // verus!
