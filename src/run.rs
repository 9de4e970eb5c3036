use crate::digest::md5_of;
use crate::schedule::{
    digests, first_failure, lemma_waiting_fill, lemma_waiting_zero, run_outcome, waiting, Outcome,
    SchedulerView,
};
use vstd::prelude::*;

verus! {

/// One thing that happens to a scheduler while a run is driven: a request
/// to start a worker, or a worker reporting the result for a position.
pub ghost enum Event {
    Start,
    Finish { index: int, result: Outcome },
}

/// A fresh scheduler over `n` files with at most `limit` workers.
pub open spec fn initial(limit: nat, n: nat) -> SchedulerView {
    SchedulerView {
        limit,
        admitted: 0,
        running: 0,
        slots: Seq::new(n, |i: int| None::<Outcome>),
    }
}

/// The state after the events, in order.
pub open spec fn replay(v: SchedulerView, events: Seq<Event>) -> SchedulerView
    decreases events.len(),
{
    if events.len() == 0 {
        v
    } else {
        let before = replay(v, events.drop_last());
        match events.last() {
            Event::Start => before.after_start(),
            Event::Finish { index, result } => before.after_finish(index, result),
        }
    }
}

/// Every worker report in `events` carries the result of its own file.
pub open spec fn reports_agree(events: Seq<Event>, file_results: Seq<Outcome>) -> bool {
    forall|k: int|
        0 <= k < events.len() ==> match #[trigger] events[k] {
            Event::Start => true,
            Event::Finish { index, result } => 0 <= index < file_results.len() ==> result
                == file_results[index],
        }
}

proof fn lemma_start_wf(v: SchedulerView)
    requires
        v.wf(),
    ensures
        v.after_start().wf(),
{
    if v.can_start() {
        assert(v.slots[v.admitted as int] is None);
        assert(waiting(v.slots, v.admitted + 1int) == waiting(v.slots, v.admitted as int) + 1);
    }
}

proof fn lemma_finish_wf(v: SchedulerView, i: int, r: Outcome)
    requires
        v.wf(),
    ensures
        v.after_finish(i, r).wf(),
{
    if v.accepts(i) {
        lemma_waiting_fill(v.slots, v.admitted as int, i, r);
    }
}

proof fn lemma_replay_keeps_results(limit: nat, events: Seq<Event>, file_results: Seq<Outcome>)
    requires
        limit >= 1,
        reports_agree(events, file_results),
    ensures
        replay(initial(limit, file_results.len()), events).wf(),
        replay(initial(limit, file_results.len()), events).slots.len() == file_results.len(),
        forall|i: int|
            0 <= i < file_results.len() ==> match #[trigger] replay(
                initial(limit, file_results.len()),
                events,
            ).slots[i] {
                Some(r) => r == file_results[i],
                None => true,
            },
    decreases events.len(),
{
    let v0 = initial(limit, file_results.len());
    if events.len() == 0 {
        assert(v0.wf());
    } else {
        let prefix = events.drop_last();
        assert forall|k: int| 0 <= k < prefix.len() implies match #[trigger] prefix[k] {
            Event::Start => true,
            Event::Finish { index, result } => 0 <= index < file_results.len() ==> result
                == file_results[index],
        } by {
            assert(prefix[k] == events[k]);
        }
        lemma_replay_keeps_results(limit, prefix, file_results);
        let before = replay(v0, prefix);
        match events.last() {
            Event::Start => {
                lemma_start_wf(before);
            },
            Event::Finish { index, result } => {
                lemma_finish_wf(before, index, result);
                assert(events[events.len() - 1] == events.last());
            },
        }
    }
}

/// Whatever the limit on concurrent workers, and in whatever order workers
/// are started and report back, a run that finishes holds at each position
/// the result of that position's file. So two runs over the same files, with
/// different limits and interleavings, end with the same outcome.
pub proof fn lemma_schedule_irrelevant(
    limit_a: nat,
    limit_b: nat,
    events_a: Seq<Event>,
    events_b: Seq<Event>,
    file_results: Seq<Outcome>,
)
    requires
        limit_a >= 1,
        limit_b >= 1,
        reports_agree(events_a, file_results),
        reports_agree(events_b, file_results),
        replay(initial(limit_a, file_results.len()), events_a).finished(),
        replay(initial(limit_b, file_results.len()), events_b).finished(),
    ensures
        replay(initial(limit_a, file_results.len()), events_a).results() == file_results,
        replay(initial(limit_b, file_results.len()), events_b).results() == file_results,
        run_outcome(replay(initial(limit_a, file_results.len()), events_a).results())
            == run_outcome(replay(initial(limit_b, file_results.len()), events_b).results()),
{
    lemma_finished_results(limit_a, events_a, file_results);
    lemma_finished_results(limit_b, events_b, file_results);
}

proof fn lemma_finished_results(limit: nat, events: Seq<Event>, file_results: Seq<Outcome>)
    requires
        limit >= 1,
        reports_agree(events, file_results),
        replay(initial(limit, file_results.len()), events).finished(),
    ensures
        replay(initial(limit, file_results.len()), events).results() == file_results,
{
    let v = replay(initial(limit, file_results.len()), events);
    lemma_replay_keeps_results(limit, events, file_results);
    lemma_waiting_zero(v.slots, v.admitted as int);
    assert forall|i: int| 0 <= i < file_results.len() implies v.results()[i] == file_results[i] by {
        assert(v.slots[i] is Some);
    }
    assert(v.results() =~= file_results);
}

/// When every file was read, the run's result is the digest of the
/// concatenation, in canonical order, of the digests of the files' contents.
pub proof fn lemma_digest_of_concatenation(rs: Seq<Outcome>, contents: Seq<Seq<u8>>)
    requires
        rs.len() == contents.len(),
        forall|i: int| 0 <= i < rs.len() ==> #[trigger] rs[i] == Ok::<Seq<u8>, Seq<char>>(md5_of(contents[i])),
    ensures
        run_outcome(rs) == Ok::<Seq<u8>, int>(
            md5_of(contents.map_values(|c: Seq<u8>| md5_of(c)).flatten()),
        ),
{
    assert(digests(rs) =~= contents.map_values(|c: Seq<u8>| md5_of(c)));
    assert(!exists|i: int| first_failure(rs, i)) by {
        if exists|i: int| first_failure(rs, i) {
            let i = choose|i: int| first_failure(rs, i);
            assert(rs[i] is Ok);
        }
    }
}

/// A tree without files is no error: its result is the digest of nothing.
pub proof fn lemma_empty_tree(rs: Seq<Outcome>)
    requires
        rs.len() == 0,
    ensures
        run_outcome(rs) == Ok::<Seq<u8>, int>(md5_of(Seq::<u8>::empty())),
{
    assert(digests(rs).flatten() =~= Seq::<u8>::empty());
}

/// A file that fails makes the whole run fail, and the failure reported is
/// that of a file that failed, no later than this one.
pub proof fn lemma_failure_propagates(rs: Seq<Outcome>, k: int)
    requires
        0 <= k < rs.len(),
        rs[k] is Err,
    ensures
        run_outcome(rs) is Err,
        rs[run_outcome(rs)->Err_0] is Err,
        run_outcome(rs)->Err_0 <= k,
    decreases k,
{
    if forall|j: int| 0 <= j < k ==> #[trigger] rs[j] is Ok {
        assert(first_failure(rs, k));
    } else {
        let j = choose|j: int| 0 <= j < k && !(#[trigger] rs[j] is Ok);
        lemma_failure_propagates(rs, j);
    }
}

} // verus!
