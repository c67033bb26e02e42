use duplicates_agent::matcher::{
    best_match_for_sample, calculate_duplicate_fast_fold, minimal_distance, DEFAULT_SAMPLE_SIZE,
};
use duplicates_agent::{Collection, DHash};
use rand::rngs::StdRng;
use rand::SeedableRng;

fn create_dhash(value: u64) -> DHash {
    DHash { raw: value }
}

fn rng() -> StdRng {
    StdRng::seed_from_u64(7)
}

#[test]
fn test_calculate_duplicate_fast_fold_empty_input() {
    let current_id = String::from("test1");
    let current_hashes: Vec<DHash> = vec![];
    let all_hashes = Collection::new();

    let result = calculate_duplicate_fast_fold(
        &current_id,
        &current_hashes,
        &all_hashes,
        &mut rng(),
        DEFAULT_SAMPLE_SIZE,
    );
    assert!(result.is_none());
}

#[test]
fn test_calculate_duplicate_fast_fold_basic() {
    let id1 = String::from("test1");
    let id2 = String::from("test2");
    let id3 = String::from("test3");

    let hash1 = create_dhash(0b0000);
    let hash2 = create_dhash(0b0001);
    let hash3 = create_dhash(0b1111);

    let mut all_hashes = Collection::new();
    all_hashes.insert(id1.clone(), vec![hash1; 100]);
    all_hashes.insert(id2.clone(), vec![hash2; 100]);
    all_hashes.insert(id3.clone(), vec![hash3; 100]);

    let result = calculate_duplicate_fast_fold(
        &id1,
        all_hashes.get(&id1).unwrap(),
        &all_hashes,
        &mut rng(),
        DEFAULT_SAMPLE_SIZE,
    )
    .expect("Should find a duplicate");

    assert_eq!(result.id, id2);
    assert_eq!(result.distance, 100);
}

#[test]
fn test_calculate_duplicate_fast_fold_no_duplicates() {
    let id1 = String::from("test1");
    let id2 = String::from("test2");

    let hash1 = create_dhash(0b0000_0000);
    let hash2 = create_dhash(0b1111_1111);

    let mut all_hashes = Collection::new();
    all_hashes.insert(id1.clone(), vec![hash1; 100]);
    all_hashes.insert(id2.clone(), vec![hash2; 100]);

    let result = calculate_duplicate_fast_fold(
        &id1,
        all_hashes.get(&id1).unwrap(),
        &all_hashes,
        &mut rng(),
        DEFAULT_SAMPLE_SIZE,
    )
    .expect("Should return Some even if distances are large");

    assert_eq!(result.id, id2);
    assert!(result.distance > 0);
}

#[test]
fn empty_query_item_has_no_match() {
    let mut all_hashes = Collection::new();
    all_hashes.insert(String::from("A"), vec![]);
    all_hashes.insert(String::from("B"), vec![create_dhash(0b0001); 5]);
    let a = String::from("A");
    let result = calculate_duplicate_fast_fold(
        &a,
        all_hashes.get(&a).unwrap(),
        &all_hashes,
        &mut rng(),
        DEFAULT_SAMPLE_SIZE,
    );
    assert!(result.is_none());
}

#[test]
fn identical_items_match_at_distance_zero() {
    let mut all_hashes = Collection::new();
    all_hashes.insert(String::from("A"), vec![create_dhash(0); 3]);
    all_hashes.insert(String::from("B"), vec![create_dhash(0); 3]);
    let a = String::from("A");
    let result = calculate_duplicate_fast_fold(
        &a,
        all_hashes.get(&a).unwrap(),
        &all_hashes,
        &mut rng(),
        DEFAULT_SAMPLE_SIZE,
    )
    .unwrap();
    assert_eq!(result.id, "B");
    assert_eq!(result.distance, 0);
}

#[test]
fn no_match_when_only_the_query_and_empty_items_exist() {
    let mut all_hashes = Collection::new();
    all_hashes.insert(String::from("A"), vec![create_dhash(5); 4]);
    all_hashes.insert(String::from("B"), vec![]);
    all_hashes.insert(String::from("C"), vec![]);
    let a = String::from("A");
    let result = calculate_duplicate_fast_fold(
        &a,
        all_hashes.get(&a).unwrap(),
        &all_hashes,
        &mut rng(),
        DEFAULT_SAMPLE_SIZE,
    );
    assert!(result.is_none());
}

#[test]
fn never_matches_itself_or_an_empty_item() {
    let mut all_hashes = Collection::new();
    all_hashes.insert(String::from("empty"), vec![]);
    all_hashes.insert(String::from("self"), vec![create_dhash(9); 10]);
    all_hashes.insert(String::from("far"), vec![create_dhash(u64::MAX); 2]);
    let me = String::from("self");
    let result = calculate_duplicate_fast_fold(
        &me,
        all_hashes.get(&me).unwrap(),
        &all_hashes,
        &mut rng(),
        DEFAULT_SAMPLE_SIZE,
    )
    .unwrap();
    assert_eq!(result.id, "far");
    assert_eq!(result.distance, 10 * 62);
}

#[test]
fn sampling_takes_at_most_the_sample_size() {
    // With one sampled fingerprint the distance is that of 0b01 or of 0b11 to 0;
    // the whole set would give their sum.
    let mut all_hashes = Collection::new();
    all_hashes.insert(String::from("q"), vec![create_dhash(0b01), create_dhash(0b11)]);
    all_hashes.insert(String::from("z"), vec![create_dhash(0)]);
    let q = String::from("q");
    for seed in 0..20u64 {
        let mut r = StdRng::seed_from_u64(seed);
        let result =
            calculate_duplicate_fast_fold(&q, all_hashes.get(&q).unwrap(), &all_hashes, &mut r, 1)
                .unwrap();
        assert_eq!(result.id, "z");
        assert!(result.distance == 1 || result.distance == 2);
    }
}

fn brute_force(query: &str, sample: &[DHash], all: &Collection) -> Option<(String, u32)> {
    let mut best: Option<(String, u32)> = None;
    for i in 0..all.len() {
        let id = all.id(i);
        let group = all.hashes(i);
        if id == query || group.is_empty() {
            continue;
        }
        let total: u32 = sample.iter().map(|&s| minimal_distance(group, s)).sum();
        let better = match &best {
            Some((_, d)) => total < *d,
            None => true,
        };
        if better {
            best = Some((id.clone(), total));
        }
    }
    best
}

#[test]
fn early_abandonment_agrees_with_the_exhaustive_scan() {
    let mut all = Collection::new();
    let values: [u64; 8] = [0, 0xFF, 0xF0F0, 0x1, 0x3, 0xFFFF_FFFF, 0x8000_0000_0000_0000, 0x7];
    for i in 0..12u64 {
        let group: Vec<DHash> = (0..(i % 4))
            .map(|k| create_dhash(values[((i + k * 3) % 8) as usize] ^ (i << (k * 5))))
            .collect();
        all.insert(format!("item{}", i), group);
    }
    all.insert(String::from("twin"), vec![create_dhash(0x3), create_dhash(0xFF)]);
    let samples: Vec<Vec<DHash>> = vec![
        vec![],
        vec![create_dhash(0x3)],
        vec![create_dhash(0x3), create_dhash(0xFF)],
        vec![create_dhash(0xFFFF_FFFF), create_dhash(0), create_dhash(0x7)],
    ];
    for sample in samples.iter() {
        for query in ["item1", "item5", "twin", "absent"].iter() {
            let q = String::from(*query);
            let fast = best_match_for_sample(&q, sample, &all).map(|w| (w.id, w.distance));
            assert_eq!(fast, brute_force(query, sample, &all));
        }
    }
}

#[test]
fn ties_keep_the_earlier_candidate() {
    let mut all = Collection::new();
    all.insert(String::from("q"), vec![create_dhash(0)]);
    all.insert(String::from("first"), vec![create_dhash(1)]);
    all.insert(String::from("second"), vec![create_dhash(2)]);
    let q = String::from("q");
    let w = best_match_for_sample(&q, &[create_dhash(0)], &all).unwrap();
    assert_eq!(w.id, "first");
    assert_eq!(w.distance, 1);
}
