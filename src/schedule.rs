use crate::digest::{md5_of, StreamHasher, DIGEST_LEN};
use vstd::prelude::*;

verus! {

/// What a worker hands back for one file, seen as plain values: the file's
/// digest, or the reason it could not be read.
pub type Outcome = Result<Seq<u8>, Seq<char>>;

pub open spec fn outcome_view(r: Result<Vec<u8>, String>) -> Outcome {
    match r {
        Ok(d) => Ok(d@),
        Err(e) => Err(e@),
    }
}

pub open spec fn slot_view(s: Option<Result<Vec<u8>, String>>) -> Option<Outcome> {
    match s {
        Some(r) => Some(outcome_view(r)),
        None => None,
    }
}

/// Position `i` holds the first failure of the run.
pub open spec fn first_failure(rs: Seq<Outcome>, i: int) -> bool {
    &&& 0 <= i < rs.len()
    &&& rs[i] is Err
    &&& forall|j: int| 0 <= j < i ==> #[trigger] rs[j] is Ok
}

/// The per-file digests, in position order.
pub open spec fn digests(rs: Seq<Outcome>) -> Seq<Seq<u8>> {
    rs.map_values(|r: Outcome| r->Ok_0)
}

/// The result of a run whose files, in canonical order, gave `rs`: the digest
/// of the concatenated per-file digests, or the position of the first file
/// that failed.
pub open spec fn run_outcome(rs: Seq<Outcome>) -> Result<Seq<u8>, int> {
    if exists|i: int| first_failure(rs, i) {
        Err(choose|i: int| first_failure(rs, i))
    } else {
        Ok(md5_of(digests(rs).flatten()))
    }
}

/// Number of admitted positions, among the first `n`, still waiting for a
/// result.
pub open spec fn waiting(slots: Seq<Option<Outcome>>, n: int) -> nat
    decreases n,
{
    if n <= 0 {
        0
    } else {
        waiting(slots, n - 1) + if slots[n - 1] is None {
            1nat
        } else {
            0nat
        }
    }
}

/// A file that could not be read after it was enumerated; the whole run
/// fails with it.
pub struct ReadFailure {
    pub index: usize,
    pub path: String,
    pub reason: String,
}

/// The scheduler's state as plain values.
pub ghost struct SchedulerView {
    /// Most workers allowed to run at once.
    pub limit: nat,
    /// Positions handed out so far; they are handed out in order.
    pub admitted: nat,
    /// Workers admitted whose result has not come back.
    pub running: nat,
    /// The result of each position, once it has come back.
    pub slots: Seq<Option<Outcome>>,
}

/// Admission control and position-indexed collection of results for one
/// run: at most `limit` files are being hashed at any time, each position is
/// handed out once, and results that come back in any order are kept by
/// position.
pub struct Scheduler {
    limit: usize,
    admitted: usize,
    running: usize,
    slots: Vec<Option<Result<Vec<u8>, String>>>,
}

impl View for Scheduler {
    type V = SchedulerView;

    closed spec fn view(&self) -> SchedulerView {
        SchedulerView {
            limit: self.limit as nat,
            admitted: self.admitted as nat,
            running: self.running as nat,
            slots: self.slots@.map_values(|s: Option<Result<Vec<u8>, String>>| slot_view(s)),
        }
    }
}

impl SchedulerView {
    pub open spec fn wf(self) -> bool {
        &&& self.limit >= 1
        &&& self.admitted <= self.slots.len()
        &&& self.running <= self.limit
        &&& self.running == waiting(self.slots, self.admitted as int)
        &&& forall|i: int| self.admitted <= i < self.slots.len() ==> #[trigger] self.slots[i] is None
    }

    /// Every position has been handed out and has come back.
    pub open spec fn finished(self) -> bool {
        self.admitted == self.slots.len() && self.running == 0
    }

    /// A worker may start: fewer than `limit` are running and some position
    /// is still to be handed out.
    pub open spec fn can_start(self) -> bool {
        self.running < self.limit && self.admitted < self.slots.len()
    }

    /// The state after asking to start a worker: the next position is handed
    /// out when a worker may start, else nothing changes.
    pub open spec fn after_start(self) -> SchedulerView {
        if self.can_start() {
            SchedulerView { admitted: self.admitted + 1, running: self.running + 1, ..self }
        } else {
            self
        }
    }

    /// Position `i` was handed out and has not come back.
    pub open spec fn accepts(self, i: int) -> bool {
        0 <= i < self.admitted && self.slots[i] is None
    }

    /// The state after a worker reports `r` for position `i`: kept when the
    /// position is waiting for it, ignored otherwise.
    pub open spec fn after_finish(self, i: int, r: Outcome) -> SchedulerView {
        if self.accepts(i) {
            SchedulerView {
                running: (self.running - 1) as nat,
                slots: self.slots.update(i, Some(r)),
                ..self
            }
        } else {
            self
        }
    }

    /// The per-file results, in position order.
    pub open spec fn results(self) -> Seq<Outcome> {
        self.slots.map_values(|s: Option<Outcome>| s->Some_0)
    }
}

pub(crate) proof fn lemma_waiting_fill(slots: Seq<Option<Outcome>>, n: int, i: int, x: Outcome)
    requires
        0 <= i < n <= slots.len(),
        slots[i] is None,
    ensures
        waiting(slots.update(i, Some(x)), n) + 1 == waiting(slots, n),
    decreases n,
{
    if n - 1 > i {
        lemma_waiting_fill(slots, n - 1, i, x);
    } else {
        lemma_waiting_same(slots, slots.update(i, Some(x)), i);
    }
}

proof fn lemma_waiting_same(a: Seq<Option<Outcome>>, b: Seq<Option<Outcome>>, n: int)
    requires
        0 <= n <= a.len(),
        n <= b.len(),
        forall|j: int| 0 <= j < n ==> a[j] == b[j],
    ensures
        waiting(a, n) == waiting(b, n),
    decreases n,
{
    if n > 0 {
        lemma_waiting_same(a, b, n - 1);
    }
}

pub(crate) proof fn lemma_waiting_zero(slots: Seq<Option<Outcome>>, n: int)
    requires
        0 <= n <= slots.len(),
        waiting(slots, n) == 0,
    ensures
        forall|i: int| 0 <= i < n ==> #[trigger] slots[i] is Some,
    decreases n,
{
    if n > 0 {
        lemma_waiting_zero(slots, n - 1);
    }
}

impl Scheduler {
    /// A run over `total` files with at most `limit` of them hashed at once.
    pub fn new(total: usize, limit: usize) -> (r: Self)
        requires
            limit >= 1,
        ensures
            r@.wf(),
            r@.limit == limit,
            r@.admitted == 0,
            r@.running == 0,
            r@.slots == Seq::new(total as nat, |i: int| None::<Outcome>),
    {
        let mut slots: Vec<Option<Result<Vec<u8>, String>>> = Vec::new();
        let mut k: usize = 0;
        while k < total
            invariant
                k <= total,
                slots@.len() == k,
                forall|i: int| 0 <= i < k ==> #[trigger] slots@[i] is None,
            decreases total - k,
        {
            slots.push(None);
            k = k + 1;
        }
        let r = Scheduler { limit, admitted: 0, running: 0, slots };
        assert(r@.slots =~= Seq::new(total as nat, |i: int| None::<Outcome>));
        r
    }

    /// Hands out the next position when a worker may start: fewer than
    /// `limit` are running and some position is still to be handed out.
    pub fn start_next(&mut self) -> (r: Option<usize>)
        requires
            old(self)@.wf(),
        ensures
            final(self)@.wf(),
            final(self)@ == old(self)@.after_start(),
            r == (if old(self)@.can_start() {
                Some(old(self)@.admitted as usize)
            } else {
                None::<usize>
            }),
    {
        if self.running < self.limit && self.admitted < self.slots.len() {
            let i = self.admitted;
            self.admitted = self.admitted + 1;
            self.running = self.running + 1;
            Some(i)
        } else {
            None
        }
    }

    /// Records what came back for `index`. Accepted only for a position that
    /// was handed out and has not come back yet; anything else leaves the
    /// state as it was.
    pub fn complete(&mut self, index: usize, result: Result<Vec<u8>, String>) -> (accepted: bool)
        requires
            old(self)@.wf(),
        ensures
            final(self)@.wf(),
            accepted == old(self)@.accepts(index as int),
            final(self)@ == old(self)@.after_finish(index as int, outcome_view(result)),
    {
        if index < self.admitted && self.slots[index].is_none() {
            proof {
                lemma_waiting_fill(self@.slots, self@.admitted as int, index as int, outcome_view(result));
            }
            let ghost before = self@;
            self.slots[index] = Some(result);
            self.running = self.running - 1;
            assert(self@.slots =~= before.slots.update(index as int, Some(outcome_view(result))));
            true
        } else {
            false
        }
    }

    pub fn is_finished(&self) -> (r: bool)
        ensures
            r == self@.finished(),
    {
        self.admitted == self.slots.len() && self.running == 0
    }

    /// Most workers allowed to run at once.
    pub fn limit(&self) -> (r: usize)
        ensures
            r == self@.limit,
    {
        self.limit
    }

    /// Workers admitted whose result has not come back.
    pub fn running(&self) -> (r: usize)
        ensures
            r == self@.running,
    {
        self.running
    }

    /// Folds the results of a finished run in position order: the digest of
    /// the concatenated per-file digests, or the first file that failed,
    /// with its path from `files` and the reason it gave.
    pub fn outcome(&self, files: &Vec<String>) -> (r: Result<Vec<u8>, ReadFailure>)
        requires
            self@.wf(),
            self@.finished(),
            files.len() == self@.slots.len(),
        ensures
            match r {
                Ok(d) => run_outcome(self@.results()) == Ok::<Seq<u8>, int>(d@) && d@.len() == DIGEST_LEN,
                Err(f) => {
                    &&& run_outcome(self@.results()) == Err::<Seq<u8>, int>(f.index as int)
                    &&& f.path@ == files@[f.index as int]@
                    &&& self@.results()[f.index as int] == Err::<Seq<u8>, Seq<char>>(f.reason@)
                },
            },
    {
        proof {
            lemma_waiting_zero(self@.slots, self@.admitted as int);
        }
        let ghost rs = self@.results();
        let mut hasher = StreamHasher::new();
        let mut i: usize = 0;
        while i < self.slots.len()
            invariant
                self@.wf(),
                self@.finished(),
                rs == self@.results(),
                forall|k: int| 0 <= k < self@.slots.len() ==> #[trigger] self@.slots[k] is Some,
                files.len() == self@.slots.len(),
                i <= self.slots.len(),
                forall|j: int| 0 <= j < i ==> #[trigger] rs[j] is Ok,
                hasher@ == digests(rs).take(i as int).flatten(),
            decreases self.slots.len() - i,
        {
            assert(self@.slots[i as int] is Some);
            match &self.slots[i] {
                Some(Ok(d)) => {
                    hasher.update(d.as_slice());
                    proof {
                        let ds = digests(rs);
                        assert(ds.take(i as int + 1) =~= ds.take(i as int).push(ds[i as int]));
                        ds.take(i as int).lemma_flatten_push(ds[i as int]);
                    }
                },
                Some(Err(e)) => {
                    proof {
                        assert(first_failure(rs, i as int));
                        lemma_first_failure_unique(rs, i as int);
                    }
                    return Err(ReadFailure { index: i, path: files[i].clone(), reason: e.clone() });
                },
                None => {
                    proof {
                        assert(false);
                    }
                },
            }
            i = i + 1;
        }
        proof {
            assert(digests(rs).take(rs.len() as int) =~= digests(rs));
            assert(!exists|k: int| first_failure(rs, k));
        }
        Ok(hasher.finish())
    }
}

proof fn lemma_first_failure_unique(rs: Seq<Outcome>, i: int)
    requires
        first_failure(rs, i),
    ensures
        run_outcome(rs) == Err::<Seq<u8>, int>(i),
{
    let k = choose|k: int| first_failure(rs, k);
    if k < i {
        assert(rs[k] is Ok);
    } else if i < k {
        assert(rs[i] is Ok);
    }
}

} // verus!
