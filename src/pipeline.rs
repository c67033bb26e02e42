use vstd::prelude::*;

use rand::rngs::StdRng;

use crate::collection::{Collection, CollectionView};
use crate::dhash::DHash;
use crate::matcher::{
    calculate_duplicate_fast_fold, exhaustive_best, is_candidate, is_sample_of, Duplicate,
    MAX_SAMPLE_SIZE,
};

verus! {

broadcast use vstd::seq_lib::group_to_multiset_ensures;

/// How many workers run matches at once when nothing else is asked for.
pub const DEFAULT_WORKER_COUNT: usize = 20;

/// What a worker reports for the item at position `job`: nothing when the item has no
/// fingerprints or no other item is a candidate, else the item, its best match for some
/// admissible sample, and their aggregate distance.
pub open spec fn is_outcome_of(
    r: Option<Duplicate>,
    items: CollectionView,
    job: int,
    sample_size: nat,
) -> bool {
    let query = items[job];
    &&& r is Some <==> (query.1.len() > 0 && exists|i: int|
        0 <= i < items.len() && is_candidate(#[trigger] items[i], query.0))
    &&& r matches Some(d) ==> {
        &&& d.a@ == query.0
        &&& exists|sample: Seq<DHash>|
            is_sample_of(sample, query.1, sample_size) && (exhaustive_best(
                sample,
                items,
                query.0,
            ) matches Some(p) && items[p.0].0 == d.b@ && d.distance == p.1)
    }
}

/// The work of one job: matches the item at position `job` against the whole collection.
pub fn find_duplicate(
    all_hashes: &Collection,
    job: usize,
    rng: &mut StdRng,
    sample_size: usize,
) -> (r: Option<Duplicate>)
    requires
        job < all_hashes@.len(),
        sample_size <= MAX_SAMPLE_SIZE,
    ensures
        is_outcome_of(r, all_hashes@, job as int, sample_size as nat),
{
    let id = all_hashes.id(job);
    let hashes = all_hashes.hashes(job);
    match calculate_duplicate_fast_fold(id, hashes, all_hashes, rng, sample_size) {
        Some(other) => Some(Duplicate { a: id.clone(), distance: other.distance, b: other.id }),
        None => None,
    }
}

/// The matches among the outcomes of a log of finished jobs, in the order they were logged.
pub open spec fn matches_of(log: Seq<(int, Option<Duplicate>)>) -> Seq<Duplicate>
    decreases log.len(),
{
    if log.len() == 0 {
        Seq::empty()
    } else {
        let rest = matches_of(log.drop_last());
        match log.last().1 {
            Some(d) => rest.push(d),
            None => rest,
        }
    }
}

/// `log` records job `job`.
pub open spec fn logs_job(log: Seq<(int, Option<Duplicate>)>, job: int) -> bool {
    exists|k: int| 0 <= k < log.len() && #[trigger] log[k].0 == job
}

/// The number of `true` entries.
pub open spec fn count_true(s: Seq<bool>) -> nat
    decreases s.len(),
{
    if s.len() == 0 {
        0
    } else {
        count_true(s.drop_last()) + if s.last() {
            1nat
        } else {
            0nat
        }
    }
}

/// Why a report of a finished job was refused.
#[derive(Debug, Clone, Copy, PartialEq, Eq, Structural)]
pub enum PipelineError {
    /// The job was never handed out.
    UnknownJob,
    /// The job was already reported as finished.
    AlreadyFinished,
}

/// What the ledger knows: how many jobs there are, how many were handed out, each finished
/// job with its outcome in the order they were reported, and the matches collected.
pub struct PipelineView {
    pub job_count: nat,
    pub issued: nat,
    pub log: Seq<(int, Option<Duplicate>)>,
    pub results: Seq<Duplicate>,
}

/// The ledger of one run: hands out one job per item, takes each job's outcome once,
/// collects the matches, and says when every job is done so the results can be closed.
pub struct Pipeline {
    job_count: usize,
    issued: usize,
    finished: usize,
    done: Vec<bool>,
    results: Vec<Duplicate>,
    log: Ghost<Seq<(int, Option<Duplicate>)>>,
}

impl View for Pipeline {
    type V = PipelineView;

    closed spec fn view(&self) -> PipelineView {
        PipelineView {
            job_count: self.job_count as nat,
            issued: self.issued as nat,
            log: self.log@,
            results: self.results@,
        }
    }
}

proof fn lemma_count_true_bounded(s: Seq<bool>)
    ensures
        count_true(s) <= s.len(),
        (exists|i: int| 0 <= i < s.len() && !s[i]) ==> count_true(s) < s.len(),
    decreases s.len(),
{
    if s.len() > 0 {
        lemma_count_true_bounded(s.drop_last());
        if exists|i: int| 0 <= i < s.len() && !s[i] {
            let i = choose|i: int| 0 <= i < s.len() && !s[i];
            if i < s.len() - 1 {
                assert(!s.drop_last()[i]);
            }
        }
    }
}

proof fn lemma_count_true_set(s: Seq<bool>, j: int)
    requires
        0 <= j < s.len(),
        !s[j],
    ensures
        count_true(s.update(j, true)) == count_true(s) + 1,
    decreases s.len(),
{
    let t = s.update(j, true);
    if j == s.len() - 1 {
        assert(t.drop_last() =~= s.drop_last());
    } else {
        assert(t.drop_last() =~= s.drop_last().update(j, true));
        lemma_count_true_set(s.drop_last(), j);
    }
}

proof fn lemma_count_true_all_false(n: nat)
    ensures
        count_true(Seq::new(n, |i: int| false)) == 0,
    decreases n,
{
    if n > 0 {
        assert(Seq::new(n, |i: int| false).drop_last() =~= Seq::new((n - 1) as nat, |i: int| false));
        lemma_count_true_all_false((n - 1) as nat);
    }
}

impl Pipeline {
    /// The ledger's internal bookkeeping agrees with what it reports.
    pub closed spec fn wf(&self) -> bool {
        &&& self.issued <= self.job_count
        &&& self.done@.len() == self.job_count
        &&& self.finished == self.log@.len()
        &&& self.finished == count_true(self.done@)
        &&& forall|k: int|
            0 <= k < self.log@.len() ==> 0 <= #[trigger] self.log@[k].0 < self.issued
        &&& forall|k: int, l: int|
            0 <= k < l < self.log@.len() ==> #[trigger] self.log@[k].0 != #[trigger] self.log@[l].0
        &&& forall|j: int| 0 <= j < self.job_count ==> (#[trigger] self.done@[j] <==> logs_job(self.log@, j))
        &&& self.results@ == matches_of(self.log@)
    }

    /// A ledger for `job_count` jobs, none handed out yet.
    pub fn new(job_count: usize) -> (p: Pipeline)
        ensures
            p.wf(),
            p@.job_count == job_count,
            p@.issued == 0,
            p@.log.len() == 0,
            p@.results.len() == 0,
    {
        let mut done: Vec<bool> = Vec::new();
        let mut i: usize = 0;
        while i < job_count
            invariant
                i <= job_count,
                done@ == Seq::new(i as nat, |k: int| false),
            decreases job_count - i,
        {
            done.push(false);
            i = i + 1;
            assert(done@ =~= Seq::new(i as nat, |k: int| false));
        }
        proof {
            lemma_count_true_all_false(job_count as nat);
        }
        Pipeline {
            job_count,
            issued: 0,
            finished: 0,
            done,
            results: Vec::new(),
            log: Ghost(Seq::empty()),
        }
    }

    /// Hands out the next job, the positions `0, 1, ...` in turn, each once.
    pub fn next_job(&mut self) -> (r: Option<usize>)
        requires
            old(self).wf(),
        ensures
            final(self).wf(),
            final(self)@.job_count == old(self)@.job_count,
            final(self)@.log == old(self)@.log,
            final(self)@.results == old(self)@.results,
            old(self)@.issued < old(self)@.job_count ==> r == Some(old(self)@.issued as usize)
                && final(self)@.issued == old(self)@.issued + 1,
            old(self)@.issued == old(self)@.job_count ==> r is None && final(self)@.issued
                == old(self)@.issued,
    {
        if self.issued < self.job_count {
            let job = self.issued;
            self.issued = self.issued + 1;
            Some(job)
        } else {
            None
        }
    }

    /// Records that `job` finished with `outcome`, keeping the match if there is one.
    pub fn finish_job(&mut self, job: usize, outcome: Option<Duplicate>) -> (r: Result<
        (),
        PipelineError,
    >)
        requires
            old(self).wf(),
        ensures
            final(self).wf(),
            final(self)@.job_count == old(self)@.job_count,
            final(self)@.issued == old(self)@.issued,
            job >= old(self)@.issued ==> r == Err::<(), PipelineError>(PipelineError::UnknownJob),
            job < old(self)@.issued && logs_job(old(self)@.log, job as int) ==> r == Err::<
                (),
                PipelineError,
            >(PipelineError::AlreadyFinished),
            r is Err ==> final(self)@ == old(self)@,
            r is Ok <==> job < old(self)@.issued && !logs_job(old(self)@.log, job as int),
            r is Ok ==> final(self)@.log == old(self)@.log.push((job as int, outcome)),
            r is Ok ==> final(self)@.results == matches_of(final(self)@.log),
    {
        if job >= self.issued {
            return Err(PipelineError::UnknownJob);
        }
        if self.done[job] {
            return Err(PipelineError::AlreadyFinished);
        }
        let ghost old_log = self.log@;
        let ghost old_done = self.done@;
        let ghost entry = (job as int, outcome);
        proof {
            lemma_count_true_set(old_done, job as int);
            lemma_count_true_bounded(old_done);
        }
        self.done.set(job, true);
        self.finished = self.finished + 1;
        self.log = Ghost(old_log.push(entry));
        assert(self.log@.drop_last() =~= old_log);
        match outcome {
            Some(d) => {
                self.results.push(d);
            },
            None => {},
        }
        assert forall|j: int| 0 <= j < self.job_count implies (#[trigger] self.done@[j]
            <==> logs_job(self.log@, j)) by {
            if j != job {
                if logs_job(self.log@, j) {
                    let k = choose|k: int| 0 <= k < self.log@.len() && #[trigger] self.log@[k].0 == j;
                    assert(old_log[k].0 == j);
                }
                if logs_job(old_log, j) {
                    let k = choose|k: int| 0 <= k < old_log.len() && #[trigger] old_log[k].0 == j;
                    assert(self.log@[k].0 == j);
                }
            } else {
                assert(self.log@[old_log.len() as int].0 == j);
            }
        }
        Ok(())
    }

    /// Every job was handed out and every one has finished: nothing more can arrive.
    pub fn is_drained(&self) -> (r: bool)
        requires
            self.wf(),
        ensures
            r == (self@.issued == self@.job_count && self@.log.len() == self@.job_count),
    {
        self.issued == self.job_count && self.finished == self.job_count
    }

    /// The matches collected so far, in the order they were reported.
    pub fn results(&self) -> (r: &Vec<Duplicate>)
        ensures
            r@ == self@.results,
    {
        &self.results
    }

    /// The matches collected, nearest first.
    pub fn into_ranked(self) -> (r: Vec<Duplicate>)
        ensures
            r@.to_multiset() == self@.results.to_multiset(),
            sorted_by_distance(r@),
    {
        sort_by_distance(self.results)
    }
}

/// Once the ledger is drained, each job was taken exactly once, and the results hold
/// exactly one match for each job whose outcome was a match, in the order reported.
pub proof fn lemma_drained_runs_each_job_once(p: &Pipeline)
    requires
        p.wf(),
        p@.issued == p@.job_count,
        p@.log.len() == p@.job_count,
    ensures
        forall|j: int| 0 <= j < p@.job_count ==> logs_job(p@.log, j),
        forall|k: int, l: int|
            0 <= k < l < p@.log.len() ==> #[trigger] p@.log[k].0 != #[trigger] p@.log[l].0,
        forall|k: int| 0 <= k < p@.log.len() ==> 0 <= #[trigger] p@.log[k].0 < p@.job_count,
        p@.results == matches_of(p@.log),
{
    lemma_count_true_bounded(p.done@);
    assert forall|j: int| 0 <= j < p@.job_count implies logs_job(p@.log, j) by {
        assert(p.done@[j]);
    }
}

/// Distances never decrease along `s`.
pub open spec fn sorted_by_distance(s: Seq<Duplicate>) -> bool {
    forall|i: int, j: int| 0 <= i <= j < s.len() ==> #[trigger] s[i].distance <= #[trigger] s[j].distance
}

proof fn lemma_insert_to_multiset<A>(s: Seq<A>, i: int, x: A)
    requires
        0 <= i <= s.len(),
    ensures
        s.insert(i, x).to_multiset() == s.to_multiset().insert(x),
{
    let front = s.take(i);
    let back = s.skip(i);
    assert(s.insert(i, x) =~= front.push(x) + back);
    assert(s =~= front + back);
    vstd::seq_lib::lemma_multiset_commutative(front.push(x), back);
    vstd::seq_lib::lemma_multiset_commutative(front, back);
    assert(s.insert(i, x).to_multiset() =~= s.to_multiset().insert(x));
}

/// The same matches, ordered by ascending distance.
pub fn sort_by_distance(v: Vec<Duplicate>) -> (r: Vec<Duplicate>)
    ensures
        r@.to_multiset() == v@.to_multiset(),
        sorted_by_distance(r@),
{
    let ghost all = v@;
    let mut rest = v;
    let mut sorted: Vec<Duplicate> = Vec::new();
    while rest.len() > 0
        invariant
            sorted_by_distance(sorted@),
            sorted@.to_multiset().add(rest@.to_multiset()) == all.to_multiset(),
        decreases rest@.len(),
    {
        let ghost before = rest@;
        let d = rest.pop().unwrap();
        assert(before =~= rest@.push(d));
        let mut p: usize = 0;
        while p < sorted.len() && sorted[p].distance <= d.distance
            invariant
                p <= sorted@.len(),
                forall|k: int| 0 <= k < p ==> #[trigger] sorted@[k].distance <= d.distance,
            decreases sorted@.len() - p,
        {
            p = p + 1;
        }
        let ghost prev = sorted@;
        proof {
            lemma_insert_to_multiset(prev, p as int, d);
        }
        sorted.insert(p, d);
        assert forall|i: int, j: int| 0 <= i <= j < sorted@.len() implies #[trigger] sorted@[i].distance
            <= #[trigger] sorted@[j].distance by {
            if p < prev.len() {
                assert(d.distance < prev[p as int].distance);
            }
            if i < p && j > p {
                assert(prev[i].distance <= prev[j - 1].distance);
            } else if i > p {
                assert(prev[i - 1].distance <= prev[j - 1].distance);
            } else if i == p && j > p {
                assert(prev[p as int].distance <= prev[j - 1].distance);
            }
        }
        assert(sorted@.to_multiset().add(rest@.to_multiset()) =~= all.to_multiset());
    }
    sorted
}

/// The matches whose distance is below `bound`, in the order they were given.
pub fn closer_than(results: Vec<Duplicate>, bound: u32) -> (r: Vec<Duplicate>)
    ensures
        r@ == results@.filter(|d: Duplicate| d.distance < bound),
{
    let ghost all = results@;
    let mut kept: Vec<Duplicate> = Vec::new();
    for d in it: results
        invariant
            it.seq() == all,
            kept@ == all.take(it.index() as int).filter(|e: Duplicate| e.distance < bound),
    {
        let ghost idx = it.index() as int;
        let ghost before = all.take(idx);
        proof {
            assert(all.take(idx + 1) =~= before.push(d));
            before.lemma_filter_push(d, |e: Duplicate| e.distance < bound);
        }
        if d.distance < bound {
            kept.push(d);
        }
    }
    assert(all.take(all.len() as int) =~= all);
    kept
}

} // verus!
