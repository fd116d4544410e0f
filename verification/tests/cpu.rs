use argand::cpu::{allowed, discover, efficiency_core, hybrid_intel, pin, PinError, CPU_SETSIZE};

#[test]
fn masks_name_exactly_the_cpus_asked_for() {
    let mask = pin(&[0, 5, 64, 1023]).unwrap();
    assert_eq!(mask.len(), 16);
    assert_eq!(mask[0], 0b100001);
    assert_eq!(mask[1], 1);
    assert_eq!(mask[15], 1 << 63);
    assert_eq!(allowed(&mask), vec![0, 5, 64, 1023]);
}

#[test]
fn empty_or_unnameable_sets_are_refused() {
    assert_eq!(pin(&[]), Err(PinError::InvalidCpuSet));
    assert_eq!(pin(&[3, CPU_SETSIZE]), Err(PinError::InvalidCpuSet));
}

#[test]
fn only_hybrid_intel_parts_are_probed_and_atom_cores_are_kept() {
    let (ebx, edx, ecx) = (0x756e6547, 0x49656e69, 0x6c65746e);
    assert!(hybrid_intel(0x20, ebx, ecx, edx));
    assert!(!hybrid_intel(0x19, ebx, ecx, edx));
    assert!(!hybrid_intel(0x20, ebx, edx, ecx));
    assert!(efficiency_core(0x2000_0001));
    assert!(!efficiency_core(0x4000_0001));
    assert_eq!(discover(&[0, 1, 2], &[0x4000_0000, 0x2000_0000, 0x2000_0000]), Some(vec![1, 2]));
    assert_eq!(discover(&[0, 1], &[0x4000_0000, 0]), None);
}
