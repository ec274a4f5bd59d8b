use higgs::unordered::{unordered_eq, DefaultHasherU64, UnorderedVec};

#[test]
fn unordered_eq_ignores_order() {
    assert!(unordered_eq(&[1, 2, 2, 3], &[3, 2, 1, 2]));
    assert!(unordered_eq::<u8>(&[], &[]));
    assert!(!unordered_eq(&[1, 2, 2], &[1, 1, 2]));
    assert!(!unordered_eq(&[1, 2], &[1, 2, 2]));
    assert!(!unordered_eq(&[1, 4], &[1, 2]));
}

#[test]
fn unordered_vec_equality() {
    let a = UnorderedVec::new(vec![1u64, 5, 5, 9]);
    let b = UnorderedVec::new(vec![9u64, 5, 1, 5]);
    let c = UnorderedVec::new(vec![9u64, 5, 1, 1]);
    assert!(a == b);
    assert!(a != c);
    assert_eq!(a.components(), &vec![1u64, 5, 5, 9]);
}

#[test]
fn unordered_vec_with_custom_hasher() {
    struct Parity;
    impl higgs::unordered::HasherU64<u32> for Parity {
        fn hash(&self, value: &u32) -> u64 {
            (value % 2) as u64
        }
    }
    let v = UnorderedVec::with_hasher(vec![2u32, 4, 6], Parity);
    assert_eq!(v.components(), &vec![2u32, 4, 6]);

    let direct = DefaultHasherU64::new();
    let _ = higgs::unordered::HasherU64::hash(&direct, &7u32);
    let from_vec: UnorderedVec<u16> = vec![3u16, 1].into();
    assert_eq!(from_vec.components(), &vec![3u16, 1]);
}
