use vstd::prelude::*;

use rand::rngs::StdRng;
use rand::seq::SliceRandom;

use crate::collection::{Collection, CollectionView};
use crate::dhash::{lemma_distance_laws, DHash};

verus! {

/// How many of the query's fingerprints are sampled when nothing else is asked for.
pub const DEFAULT_SAMPLE_SIZE: usize = 100;

/// The largest sample whose aggregate distance always fits in a `u32`.
pub const MAX_SAMPLE_SIZE: usize = 67108863;

/// The best match found for one item.
#[derive(Debug)]
pub struct IdWithDistance {
    pub id: String,
    pub distance: u32,
}

/// An item, the item that matches it best, and their aggregate distance.
#[derive(Debug)]
pub struct Duplicate {
    pub a: String,
    pub distance: u32,
    pub b: String,
}

/// The smallest distance from `target` to a fingerprint of a non-empty `set`.
pub open spec fn min_distance(set: Seq<DHash>, target: DHash) -> nat
    decreases set.len(),
{
    if set.len() <= 1 {
        set[0].spec_distance(target)
    } else {
        let rest = min_distance(set.drop_last(), target);
        let last = set.last().spec_distance(target);
        if last < rest {
            last
        } else {
            rest
        }
    }
}

/// The sum, over the sampled fingerprints, of each one's smallest distance to `group`.
pub open spec fn aggregate_distance(sample: Seq<DHash>, group: Seq<DHash>) -> nat
    decreases sample.len(),
{
    if sample.len() == 0 {
        0
    } else {
        aggregate_distance(sample.drop_last(), group) + min_distance(group, sample.last())
    }
}

/// An entry that may be reported as the match of `query`: another id, with fingerprints.
pub open spec fn is_candidate(entry: (Seq<char>, Seq<DHash>), query: Seq<char>) -> bool {
    entry.0 != query && entry.1.len() > 0
}

/// The match that a scan without early abandonment finds: the position and aggregate
/// distance of the candidate with the smallest aggregate distance, the earliest on ties.
pub open spec fn exhaustive_best(
    sample: Seq<DHash>,
    items: CollectionView,
    query: Seq<char>,
) -> Option<(int, nat)>
    decreases items.len(),
{
    if items.len() == 0 {
        None
    } else {
        let prev = exhaustive_best(sample, items.drop_last(), query);
        let j = items.len() - 1;
        if !is_candidate(items.last(), query) {
            prev
        } else {
            let d = aggregate_distance(sample, items.last().1);
            match prev {
                Some(p) => if d < p.1 {
                    Some((j, d))
                } else {
                    prev
                },
                None => Some((j, d)),
            }
        }
    }
}

/// `r` reports `best`: nothing when there is no best, else its id and distance.
pub open spec fn reports(r: Option<IdWithDistance>, best: Option<(int, nat)>, items: CollectionView) -> bool {
    match best {
        None => r is None,
        Some(p) => r matches Some(w) && w.id@ == items[p.0].0 && w.distance == p.1,
    }
}

/// `sample` holds `min(amount, from.len())` fingerprints of `from`, taken at distinct positions.
pub open spec fn is_sample_of(sample: Seq<DHash>, from: Seq<DHash>, amount: nat) -> bool {
    &&& sample.len() == if amount < from.len() {
        amount
    } else {
        from.len()
    }
    &&& exists|picks: Seq<int>|
        picks.len() == sample.len() && picks.no_duplicates() && forall|i: int|
            0 <= i < picks.len() ==> 0 <= #[trigger] picks[i] < from.len() && sample[i]
                == from[picks[i]]
}

/// The minimum distance is attained by a member of the set and no member is closer.
pub proof fn lemma_min_distance_is_minimum(set: Seq<DHash>, target: DHash)
    requires
        set.len() > 0,
    ensures
        exists|i: int| 0 <= i < set.len() && min_distance(set, target) == set[i].spec_distance(target),
        forall|i: int|
            0 <= i < set.len() ==> min_distance(set, target) <= #[trigger] set[i].spec_distance(
                target,
            ),
        min_distance(set, target) <= 64,
    decreases set.len(),
{
    if set.len() == 1 {
        lemma_distance_laws(set[0], target);
    } else {
        let rest = set.drop_last();
        lemma_min_distance_is_minimum(rest, target);
        lemma_distance_laws(set.last(), target);
        let k = choose|k: int| 0 <= k < rest.len() && min_distance(rest, target) == rest[k].spec_distance(target);
        if set.last().spec_distance(target) < min_distance(rest, target) {
            assert(min_distance(set, target) == set[set.len() - 1].spec_distance(target));
        } else {
            assert(min_distance(set, target) == set[k].spec_distance(target));
        }
        assert forall|i: int| 0 <= i < set.len() implies min_distance(set, target)
            <= #[trigger] set[i].spec_distance(target) by {
            if i < set.len() - 1 {
                assert(set[i] == rest[i]);
            }
        }
    }
}

/// The winner of the exhaustive scan is a candidate, no candidate is closer, and every
/// earlier candidate is farther; there is no winner exactly when there is no candidate.
pub proof fn lemma_exhaustive_best_is_first_minimum(
    sample: Seq<DHash>,
    items: CollectionView,
    query: Seq<char>,
)
    ensures
        exhaustive_best(sample, items, query) is None <==> forall|i: int|
            0 <= i < items.len() ==> !is_candidate(#[trigger] items[i], query),
        exhaustive_best(sample, items, query) matches Some(p) ==> {
            &&& 0 <= p.0 < items.len()
            &&& is_candidate(items[p.0], query)
            &&& p.1 == aggregate_distance(sample, items[p.0].1)
            &&& forall|i: int|
                0 <= i < items.len() && is_candidate(#[trigger] items[i], query) ==> p.1
                    <= aggregate_distance(sample, items[i].1)
            &&& forall|i: int|
                0 <= i < p.0 && is_candidate(#[trigger] items[i], query) ==> p.1
                    < aggregate_distance(sample, items[i].1)
        },
    decreases items.len(),
{
    if items.len() > 0 {
        let rest = items.drop_last();
        lemma_exhaustive_best_is_first_minimum(sample, rest, query);
        assert forall|i: int| 0 <= i < rest.len() implies #[trigger] items[i] == rest[i] by {}
    }
}

proof fn lemma_min_distance_step(set: Seq<DHash>, target: DHash, i: int)
    requires
        1 <= i < set.len(),
    ensures
        min_distance(set.take(i + 1), target) == if set[i].spec_distance(target) < min_distance(
            set.take(i),
            target,
        ) {
            set[i].spec_distance(target)
        } else {
            min_distance(set.take(i), target)
        },
{
    assert(set.take(i + 1).drop_last() =~= set.take(i));
}

proof fn lemma_aggregate_step(sample: Seq<DHash>, group: Seq<DHash>, i: int)
    requires
        0 <= i < sample.len(),
    ensures
        aggregate_distance(sample.take(i + 1), group) == aggregate_distance(sample.take(i), group)
            + min_distance(group, sample[i]),
{
    assert(sample.take(i + 1).drop_last() =~= sample.take(i));
}

proof fn lemma_aggregate_monotone(sample: Seq<DHash>, group: Seq<DHash>, i: int, j: int)
    requires
        0 <= i <= j <= sample.len(),
    ensures
        aggregate_distance(sample.take(i), group) <= aggregate_distance(sample.take(j), group),
    decreases j - i,
{
    if i < j {
        lemma_aggregate_monotone(sample, group, i, j - 1);
        lemma_aggregate_step(sample, group, j - 1);
    }
}

/// Smallest distance from `target` to any fingerprint of `hashes`.
pub fn minimal_distance(hashes: &[DHash], target: DHash) -> (m: u32)
    requires
        hashes@.len() > 0,
    ensures
        m == min_distance(hashes@, target),
        exists|i: int| 0 <= i < hashes@.len() && m == hashes@[i].spec_distance(target),
        forall|i: int| 0 <= i < hashes@.len() ==> m <= #[trigger] hashes@[i].spec_distance(target),
        m <= 64,
{
    let mut m: u32 = hashes[0].distance_to(target);
    let mut i: usize = 1;
    while i < hashes.len()
        invariant
            1 <= i <= hashes@.len(),
            m == min_distance(hashes@.take(i as int), target),
        decreases hashes@.len() - i,
    {
        let d = hashes[i].distance_to(target);
        proof {
            lemma_min_distance_step(hashes@, target, i as int);
        }
        if d < m {
            m = d;
        }
        i = i + 1;
    }
    assert(hashes@.take(i as int) =~= hashes@);
    proof {
        lemma_min_distance_is_minimum(hashes@, target);
    }
    m
}

/// Smallest distance from `from` to any fingerprint of `to_hashes`.
pub fn minimal_distance_to_group(from: DHash, to_hashes: &[DHash]) -> (m: u32)
    requires
        to_hashes@.len() > 0,
    ensures
        m == min_distance(to_hashes@, from),
        exists|i: int| 0 <= i < to_hashes@.len() && m == to_hashes@[i].spec_distance(from),
        forall|i: int|
            0 <= i < to_hashes@.len() ==> m <= #[trigger] to_hashes@[i].spec_distance(from),
        m <= 64,
{
    minimal_distance(to_hashes, from)
}

/// Sums the sample's smallest distances to `group`, giving up as soon as the partial sum
/// is no longer below `bound`. The result is the full aggregate distance whenever that is
/// below the bound, and at least the bound otherwise.
fn accumulate_below(sample: &[DHash], group: &[DHash], bound: Option<u32>) -> (acc: u32)
    requires
        group@.len() > 0,
        sample@.len() <= MAX_SAMPLE_SIZE,
    ensures
        acc <= aggregate_distance(sample@, group@),
        match bound {
            None => acc == aggregate_distance(sample@, group@),
            Some(b) => if aggregate_distance(sample@, group@) < b {
                acc == aggregate_distance(sample@, group@)
            } else {
                b <= acc
            },
        },
{
    let mut acc: u32 = 0;
    let mut i: usize = 0;
    let mut abandoned = false;
    while i < sample.len() && !abandoned
        invariant
            i <= sample@.len(),
            sample@.len() <= MAX_SAMPLE_SIZE,
            group@.len() > 0,
            acc == aggregate_distance(sample@.take(i as int), group@),
            acc <= 64 * i,
            abandoned ==> (bound matches Some(b) && b <= acc),
        decreases sample@.len() - i + if abandoned { 0int } else { 1int },
    {
        let reached = match bound {
            Some(b) => b <= acc,
            None => false,
        };
        if reached {
            abandoned = true;
        } else {
            let d = minimal_distance_to_group(sample[i], group);
            proof {
                lemma_aggregate_step(sample@, group@, i as int);
            }
            acc = acc + d;
            i = i + 1;
        }
    }
    proof {
        lemma_aggregate_monotone(sample@, group@, i as int, sample@.len() as int);
        assert(sample@.take(sample@.len() as int) =~= sample@);
    }
    acc
}

/// Finds, for a given sample of the query's fingerprints, the candidate with the
/// smallest aggregate distance, abandoning each candidate's sum once it cannot win.
/// The outcome is exactly that of the exhaustive scan.
pub fn best_match_for_sample(
    current_id: &String,
    sample: &[DHash],
    all_hashes: &Collection,
) -> (r: Option<IdWithDistance>)
    requires
        sample@.len() <= MAX_SAMPLE_SIZE,
    ensures
        reports(r, exhaustive_best(sample@, all_hashes@, current_id@), all_hashes@),
        r matches Some(w) ==> w.id@ != current_id@,
{
    let mut best: Option<(usize, u32)> = None;
    let mut j: usize = 0;
    while j < all_hashes.len()
        invariant
            j <= all_hashes@.len(),
            sample@.len() <= MAX_SAMPLE_SIZE,
            match exhaustive_best(sample@, all_hashes@.take(j as int), current_id@) {
                None => best is None,
                Some(p) => best matches Some(b) && b.0 == p.0 && b.1 == p.1,
            },
        decreases all_hashes@.len() - j,
    {
        let ghost items = all_hashes@.take(j as int + 1);
        assert(items.drop_last() =~= all_hashes@.take(j as int));
        let id = all_hashes.id(j);
        let group = all_hashes.hashes(j);
        if *id != *current_id && group.len() > 0 {
            let bound = match best {
                Some(b) => Some(b.1),
                None => None,
            };
            let acc = accumulate_below(sample, group.as_slice(), bound);
            match best {
                Some(b) => {
                    if acc < b.1 {
                        best = Some((j, acc));
                    }
                },
                None => {
                    best = Some((j, acc));
                },
            }
        }
        j = j + 1;
    }
    assert(all_hashes@.take(j as int) =~= all_hashes@);
    proof {
        lemma_exhaustive_best_is_first_minimum(sample@, all_hashes@, current_id@);
    }
    match best {
        Some(b) => Some(IdWithDistance { id: all_hashes.id(b.0).clone(), distance: b.1 }),
        None => None,
    }
}

/// rand's standard generator, passed through to the sampling call.
#[verifier::external_type_specification]
#[verifier::external_body]
pub struct ExStdRng(StdRng);

/// Relies on rand's `SliceRandom::choose_multiple`: it returns `min(amount, len)` elements
/// of the slice, taken at distinct positions chosen by `rng`.
#[verifier::external_body]
fn choose_sample(hashes: &[DHash], rng: &mut StdRng, amount: usize) -> (sample: Vec<DHash>)
    ensures
        is_sample_of(sample@, hashes@, amount as nat),
{
    hashes.choose_multiple(rng, amount).cloned().collect()
}

/// Finds the item of `all_hashes` that best matches `current_hashes`, comparing a random
/// sample of at most `sample_size` of its fingerprints against each other non-empty item.
pub fn calculate_duplicate_fast_fold(
    current_id: &String,
    current_hashes: &Vec<DHash>,
    all_hashes: &Collection,
    rng: &mut StdRng,
    sample_size: usize,
) -> (r: Option<IdWithDistance>)
    requires
        sample_size <= MAX_SAMPLE_SIZE,
    ensures
        current_hashes@.len() == 0 ==> r is None,
        current_hashes@.len() > 0 ==> (r is Some <==> exists|i: int|
            0 <= i < all_hashes@.len() && is_candidate(#[trigger] all_hashes@[i], current_id@)),
        current_hashes@.len() > 0 ==> exists|sample: Seq<DHash>|
            is_sample_of(sample, current_hashes@, sample_size as nat) && reports(
                r,
                exhaustive_best(sample, all_hashes@, current_id@),
                all_hashes@,
            ),
        r matches Some(w) ==> exists|i: int|
            0 <= i < all_hashes@.len() && is_candidate(#[trigger] all_hashes@[i], current_id@)
                && all_hashes@[i].0 == w.id@,
{
    if current_hashes.len() == 0 {
        return None;
    }
    let sample = choose_sample(current_hashes.as_slice(), rng, sample_size);
    let r = best_match_for_sample(current_id, sample.as_slice(), all_hashes);
    proof {
        lemma_exhaustive_best_is_first_minimum(sample@, all_hashes@, current_id@);
    }
    r
}

} // verus!
