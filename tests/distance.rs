use duplicates_agent::matcher::{minimal_distance, minimal_distance_to_group};
use duplicates_agent::DHash;

fn create_dhash(value: u64) -> DHash {
    DHash { raw: value }
}

#[test]
fn test_minimal_distance() {
    let hash1 = create_dhash(0b0000);
    let hash2 = create_dhash(0b0001);
    let hash3 = create_dhash(0b0011);
    let hash4 = create_dhash(0b0111);

    let hashes = vec![hash2, hash3, hash4];

    assert_eq!(minimal_distance(&hashes, hash1), 1);
    assert_eq!(minimal_distance(&hashes, hash4), 0);
}

#[test]
fn test_minimal_distance_to_group() {
    let target = create_dhash(0b0000);
    let group = vec![create_dhash(0b0001), create_dhash(0b0011), create_dhash(0b0111)];

    assert_eq!(minimal_distance_to_group(target, &group), 1);
}

#[test]
fn distance_counts_differing_bits() {
    assert_eq!(create_dhash(0).distance_to(create_dhash(0)), 0);
    assert_eq!(create_dhash(0b1011).distance_to(create_dhash(0b0001)), 2);
    assert_eq!(create_dhash(0).distance_to(create_dhash(u64::MAX)), 64);
    assert_eq!(create_dhash(1 << 63).distance_to(create_dhash(1)), 2);
}

#[test]
fn distance_is_symmetric_zero_on_self_and_bounded() {
    let values = [0u64, 1, 0b1111, 0xDEAD_BEEF, 1 << 40, u64::MAX, 0x0123_4567_89AB_CDEF];
    for &x in values.iter() {
        let a = create_dhash(x);
        assert_eq!(a.distance_to(a), 0);
        for &y in values.iter() {
            let b = create_dhash(y);
            let d = a.distance_to(b);
            assert_eq!(d, b.distance_to(a));
            assert!(d <= 64);
            assert_eq!(d == 0, x == y);
            assert_eq!(d, (x ^ y).count_ones());
        }
    }
}

#[test]
fn minimal_distance_matches_a_full_scan() {
    let set: Vec<DHash> = [0xF0u64, 0x0F, 0xFF00, 0x1, 0x8000_0000_0000_0000]
        .iter()
        .map(|&v| create_dhash(v))
        .collect();
    for &t in [0u64, 0xFF, 0x3, u64::MAX, 0x8000_0000_0000_0001].iter() {
        let target = create_dhash(t);
        let scan = set.iter().map(|h| h.distance_to(target)).min().unwrap();
        assert_eq!(minimal_distance(&set, target), scan);
    }
}

#[test]
fn minimal_distance_of_a_single_fingerprint() {
    let set = vec![create_dhash(0b110)];
    assert_eq!(minimal_distance(&set, create_dhash(0b011)), 2);
}
