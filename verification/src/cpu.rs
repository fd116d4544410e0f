//! Best-effort core-class discovery. CPU identifiers always come from the
//! operating system; this module decides what to do with them: which masks
//! to ask for, which cores a CPUID report marks as efficiency cores.

use vstd::prelude::*;

verus! {

/// CPUs a mask can name, as the kernel's `cpu_set_t` holds them.
pub const CPU_SETSIZE: usize = 1024;

/// 64-bit words in a mask of [`CPU_SETSIZE`] bits.
pub const MASK_WORDS: usize = 16;

/// Why a set of CPUs cannot be pinned to.
#[derive(Debug, Clone, Copy, PartialEq, Eq, Structural)]
pub enum PinError {
    /// No CPU at all, or one the mask cannot name.
    InvalidCpuSet,
}

/// Whether `cpu` is in `mask`: bit `cpu % 64` of word `cpu / 64`.
pub open spec fn mask_has(mask: Seq<u64>, cpu: int) -> bool {
    ((mask[cpu / 64] >> ((cpu % 64) as u64)) & 1u64) == 1u64
}

/// A set that can be pinned to: not empty, and every CPU one a mask can name.
pub open spec fn valid_cpu_set(cpus: Seq<usize>) -> bool {
    &&& cpus.len() > 0
    &&& forall|i: int| 0 <= i < cpus.len() ==> #[trigger] cpus[i] < CPU_SETSIZE
}

proof fn lemma_set_bit(x: u64, b: u64, k: u64)
    requires
        b < 64,
        k < 64,
    ensures
        ((((x | (1u64 << b)) >> k) & 1u64) == 1u64) == ((((x >> k) & 1u64) == 1u64) || k == b),
{
    assert(((((x | (1u64 << b)) >> k) & 1u64) == 1u64) == ((((x >> k) & 1u64) == 1u64) || k == b))
        by (bit_vector)
        requires
            b < 64,
            k < 64,
    ;
}

proof fn lemma_zero_word(k: u64)
    requires
        k < 64,
    ensures
        ((0u64 >> k) & 1u64) != 1u64,
{
    assert(((0u64 >> k) & 1u64) != 1u64) by (bit_vector);
}

/// The affinity mask for `cpus`, refusing an empty set and any CPU the mask
/// cannot name.
pub fn pin(cpus: &[usize]) -> (mask: Result<Vec<u64>, PinError>)
    ensures
        mask is Ok <==> valid_cpu_set(cpus@),
        mask matches Ok(m) ==> {
            &&& m@.len() == MASK_WORDS
            &&& forall|c: int| 0 <= c < CPU_SETSIZE ==> (mask_has(m@, c) <==> cpus@.contains(c as usize))
        },
{
    if cpus.len() == 0 {
        return Err(PinError::InvalidCpuSet);
    }
    let mut k: usize = 0;
    while k < cpus.len()
        invariant
            k <= cpus@.len(),
            forall|i: int| 0 <= i < k ==> #[trigger] cpus@[i] < CPU_SETSIZE,
        decreases cpus@.len() - k,
    {
        if cpus[k] >= CPU_SETSIZE {
            return Err(PinError::InvalidCpuSet);
        }
        k = k + 1;
    }
    let mut mask: Vec<u64> = Vec::new();
    let mut w: usize = 0;
    while w < MASK_WORDS
        invariant
            w <= MASK_WORDS,
            mask@.len() == w,
            forall|i: int| 0 <= i < w ==> mask@[i] == 0,
        decreases MASK_WORDS - w,
    {
        mask.push(0);
        w = w + 1;
    }
    assert forall|c: int| 0 <= c < CPU_SETSIZE implies !mask_has(mask@, c) by {
        lemma_zero_word((c % 64) as u64);
    }
    let mut k: usize = 0;
    while k < cpus.len()
        invariant
            k <= cpus@.len(),
            valid_cpu_set(cpus@),
            mask@.len() == MASK_WORDS,
            forall|c: int| 0 <= c < CPU_SETSIZE ==> (mask_has(mask@, c) <==> cpus@.take(k as int).contains(c as usize)),
        decreases cpus@.len() - k,
    {
        let cpu = cpus[k];
        assert(cpus@[k as int] < CPU_SETSIZE);
        let word = cpu / 64;
        let bit = (cpu % 64) as u64;
        let ghost before = mask@;
        let updated = mask[word] | (1u64 << bit);
        mask.set(word, updated);
        assert forall|c: int| 0 <= c < CPU_SETSIZE implies (mask_has(mask@, c) <==> cpus@.take(k + 1).contains(c as usize)) by {
            let prev = cpus@.take(k as int);
            let next = cpus@.take(k + 1);
            assert(next =~= prev.push(cpu));
            if prev.contains(c as usize) {
                let i = choose|i: int| 0 <= i < prev.len() && prev[i] == c as usize;
                assert(next[i] == c as usize);
            }
            if c == cpu as int {
                assert(next[k as int] == cpu);
            }
            if next.contains(c as usize) {
                let i = choose|i: int| 0 <= i < next.len() && next[i] == c as usize;
                if i < k {
                    assert(prev[i] == c as usize);
                }
            }
            assert(next.contains(c as usize) == (prev.contains(c as usize) || c == cpu as int));
            assert(mask@ == before.update(word as int, updated));
            assert(mask_has(before, c) == prev.contains(c as usize));
            if c / 64 == word as int {
                lemma_set_bit(before[word as int], bit, (c % 64) as u64);
                assert((c % 64 == cpu % 64) <==> c == cpu as int);
                assert(mask@[c / 64] == before[word as int] | (1u64 << bit));
                assert(mask_has(mask@, c) == (mask_has(before, c) || c == cpu as int));
            } else {
                assert(c != cpu as int);
                assert(mask@[c / 64] == before[c / 64]);
                assert(mask_has(mask@, c) == mask_has(before, c));
            }
        }
        k = k + 1;
    }
    assert(cpus@.take(cpus@.len() as int) =~= cpus@);
    Ok(mask)
}

/// The CPUs named by a mask, in increasing order.
pub fn allowed(mask: &Vec<u64>) -> (cpus: Vec<usize>)
    requires
        mask@.len() == MASK_WORDS,
    ensures
        forall|i: int, j: int| 0 <= i < j < cpus@.len() ==> cpus@[i] < cpus@[j],
        forall|i: int| 0 <= i < cpus@.len() ==> #[trigger] cpus@[i] < CPU_SETSIZE,
        forall|c: int| 0 <= c < CPU_SETSIZE ==> (cpus@.contains(c as usize) <==> mask_has(mask@, c)),
{
    let mut cpus: Vec<usize> = Vec::new();
    let mut c: usize = 0;
    while c < CPU_SETSIZE
        invariant
            c <= CPU_SETSIZE,
            mask@.len() == MASK_WORDS,
            forall|i: int, j: int| 0 <= i < j < cpus@.len() ==> cpus@[i] < cpus@[j],
            forall|i: int| 0 <= i < cpus@.len() ==> #[trigger] cpus@[i] < c,
            forall|d: int| 0 <= d < c ==> (cpus@.contains(d as usize) <==> mask_has(mask@, d)),
        decreases CPU_SETSIZE - c,
    {
        let set = ((mask[c / 64] >> ((c % 64) as u64)) & 1u64) == 1u64;
        let ghost old_cpus = cpus@;
        if set {
            cpus.push(c);
        }
        assert forall|d: int| 0 <= d < c + 1 implies (cpus@.contains(d as usize) <==> mask_has(mask@, d)) by {
            if d < c {
                if cpus@.contains(d as usize) {
                    let i = choose|i: int| 0 <= i < cpus@.len() && cpus@[i] == d as usize;
                    if i == old_cpus.len() {
                    } else {
                        assert(old_cpus[i] == d as usize);
                    }
                }
                if old_cpus.contains(d as usize) {
                    let i = choose|i: int| 0 <= i < old_cpus.len() && old_cpus[i] == d as usize;
                    assert(cpus@[i] == d as usize);
                }
            } else {
                if set {
                    assert(cpus@[old_cpus.len() as int] == c);
                } else {
                    if cpus@.contains(c) {
                        let i = choose|i: int| 0 <= i < cpus@.len() && cpus@[i] == c;
                        assert(old_cpus[i] < c);
                    }
                }
            }
        }
        c = c + 1;
    }
    cpus
}

/// The twelve bytes of the vendor string `GenuineIntel`.
pub open spec fn genuine_intel() -> Seq<u8> {
    seq![71u8, 101u8, 110u8, 117u8, 105u8, 110u8, 101u8, 73u8, 110u8, 116u8, 101u8, 108u8]
}

/// A register's bytes, least significant first.
pub open spec fn le_bytes(x: u32) -> Seq<u8> {
    seq![(x & 0xffu32) as u8, ((x >> 8u32) & 0xffu32) as u8, ((x >> 16u32) & 0xffu32) as u8, ((x >> 24u32) & 0xffu32) as u8]
}

/// The leaf that classifies hybrid cores.
pub const HYBRID_LEAF: u32 = 0x1a;

/// Whether CPUID leaf 0 (the highest leaf in `eax`, the vendor in `ebx`,
/// `edx`, `ecx`) describes an Intel processor that can report core classes.
pub fn hybrid_intel(eax: u32, ebx: u32, ecx: u32, edx: u32) -> (hybrid: bool)
    ensures
        hybrid == (eax >= HYBRID_LEAF && le_bytes(ebx) + le_bytes(edx) + le_bytes(ecx) == genuine_intel()),
{
    let vendor = [
        (ebx & 0xff) as u8, ((ebx >> 8) & 0xff) as u8, ((ebx >> 16) & 0xff) as u8, ((ebx >> 24) & 0xff) as u8,
        (edx & 0xff) as u8, ((edx >> 8) & 0xff) as u8, ((edx >> 16) & 0xff) as u8, ((edx >> 24) & 0xff) as u8,
        (ecx & 0xff) as u8, ((ecx >> 8) & 0xff) as u8, ((ecx >> 16) & 0xff) as u8, ((ecx >> 24) & 0xff) as u8,
    ];
    let expected: [u8; 12] = [71, 101, 110, 117, 105, 110, 101, 73, 110, 116, 101, 108];
    let mut same = true;
    let mut k: usize = 0;
    while k < 12
        invariant
            k <= 12,
            same == (forall|i: int| 0 <= i < k ==> vendor@[i] == expected@[i]),
        decreases 12 - k,
    {
        if vendor[k] != expected[k] {
            same = false;
        }
        k = k + 1;
    }
    proof {
        let bytes = le_bytes(ebx) + le_bytes(edx) + le_bytes(ecx);
        assert(vendor@ =~= bytes);
        assert(expected@ =~= genuine_intel());
        if same {
            assert(bytes =~= genuine_intel());
        }
    }
    eax >= HYBRID_LEAF && same
}

/// Whether CPUID leaf 0x1A, read on a core, marks it as an efficiency
/// (Atom-class) core: EAX bits 31..24 hold 0x20.
pub fn efficiency_core(eax: u32) -> (efficient: bool)
    ensures
        efficient == ((eax >> 24u32) == 0x20u32),
{
    (eax >> 24) == 0x20
}

/// The CPUs among `cpus` whose leaf 0x1A report (same position in `leaf`)
/// marks an efficiency core, in order.
pub open spec fn efficient_among(cpus: Seq<usize>, leaf: Seq<u32>) -> Seq<usize>
    decreases cpus.len(),
{
    if cpus.len() == 0 {
        Seq::empty()
    } else {
        let rest = efficient_among(cpus.drop_last(), leaf);
        if (leaf[cpus.len() - 1] >> 24u32) == 0x20u32 {
            rest.push(cpus.last())
        } else {
            rest
        }
    }
}

/// The efficiency cores among `cpus`, given what leaf 0x1A reported on each
/// of them, in the order given; `None` where there are none.
pub fn discover(cpus: &[usize], leaf: &[u32]) -> (efficient: Option<Vec<usize>>)
    requires
        cpus@.len() == leaf@.len(),
    ensures
        efficient is None <==> (forall|i: int| 0 <= i < cpus@.len() ==> (#[trigger] leaf@[i] >> 24u32) != 0x20u32),
        efficient matches Some(e) ==> e@ == efficient_among(cpus@, leaf@),
{
    let mut found: Vec<usize> = Vec::new();
    let mut k: usize = 0;
    while k < cpus.len()
        invariant
            k <= cpus@.len() == leaf@.len(),
            found@ == efficient_among(cpus@.take(k as int), leaf@),
            found@.len() == 0 <==> (forall|i: int| 0 <= i < k ==> (#[trigger] leaf@[i] >> 24u32) != 0x20u32),
        decreases cpus@.len() - k,
    {
        assert(cpus@.take(k + 1).drop_last() =~= cpus@.take(k as int));
        if efficiency_core(leaf[k]) {
            found.push(cpus[k]);
        }
        k = k + 1;
    }
    assert(cpus@.take(cpus@.len() as int) =~= cpus@);
    if found.len() == 0 {
        None
    } else {
        Some(found)
    }
}

/// Pinning to a set of CPUs and reading the mask back lists the same CPUs:
/// a mask naming exactly `cpus`, as `pin` makes it, is read by `allowed` as
/// exactly the members of `cpus`.
pub proof fn lemma_pinned_set_reads_back(cpus: Seq<usize>, mask: Seq<u64>, listed: Seq<usize>)
    requires
        valid_cpu_set(cpus),
        forall|c: int| 0 <= c < CPU_SETSIZE ==> (mask_has(mask, c) <==> cpus.contains(c as usize)),
        forall|i: int| 0 <= i < listed.len() ==> #[trigger] listed[i] < CPU_SETSIZE,
        forall|c: int| 0 <= c < CPU_SETSIZE ==> (listed.contains(c as usize) <==> mask_has(mask, c)),
    ensures
        forall|c: usize| listed.contains(c) <==> cpus.contains(c),
{
    assert forall|c: usize| listed.contains(c) <==> cpus.contains(c) by {
        if listed.contains(c) {
            let i = choose|i: int| 0 <= i < listed.len() && listed[i] == c;
            assert(listed[i] < CPU_SETSIZE);
            assert(mask_has(mask, c as int));
        }
        if cpus.contains(c) {
            let i = choose|i: int| 0 <= i < cpus.len() && cpus[i] == c;
            assert(cpus[i] < CPU_SETSIZE);
            assert(mask_has(mask, c as int));
        }
    }
}

} // verus!
