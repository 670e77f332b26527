use invariant_finder_rust::cycle_types::{CycleCount, CycleCountConversion};

#[test]
fn test_cycle_count_conversions() {
    let c: CycleCount = 17u64.to_cycle_count();
    assert_eq!(c, 17);
    assert_eq!(u64::from_cycle_count(4_000_000_000), 4_000_000_000u64);
    assert_eq!(usize::from_cycle_count(5), 5usize);
    assert_eq!(9u32.to_cycle_count(), 9);
    assert_eq!(u32::MAX.to_cycle_count(), u32::MAX);
}
