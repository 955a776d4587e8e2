//! The file batcher: how a directory's files are divided among workers, and
//! what becomes of what the workers bring back.
//!
//! The files of one directory are taken in rounds. A round cuts up to
//! `max_threads` contiguous batches of up to `FILES_PER_THREAD` files from the
//! front of what is left. A round of one batch is worked off in line, and its
//! first failure is the failure of the whole run. The batches of a larger
//! round each count as a whole: a batch with a failure contributes nothing but
//! that failure, which is set aside, and the run goes on.

use crate::document::{Document, DocumentMeta};
use crate::error::KnawledgeError;
use vstd::prelude::*;

verus! {

/// Largest number of files handed to one worker in a round.
pub const FILES_PER_THREAD: usize = 128;

/// A contiguous run of files: those at the indices from `start` up to, not
/// including, `end`.
#[derive(Clone, Copy, Debug, PartialEq, Eq, Structural)]
pub struct Batch {
    pub start: usize,
    pub end: usize,
}

/// What reading and parsing one file gave.
pub type Loaded = Result<(Document, DocumentMeta), KnawledgeError>;

/// How many batches the files from `start` on make.
pub open spec fn batches_left(total: int, start: int) -> int {
    if start >= total {
        0
    } else {
        (total - start + (FILES_PER_THREAD - 1)) / (FILES_PER_THREAD as int)
    }
}

/// How many batches the round that starts at `start` holds.
pub open spec fn round_len(total: int, start: int, max_threads: int) -> int {
    let left = batches_left(total, start);
    if left < max_threads {
        left
    } else if max_threads < 0 {
        0
    } else {
        max_threads
    }
}

/// Where the `i`-th batch of the round that starts at `start` ends.
pub open spec fn batch_end(total: int, start: int, i: int) -> int {
    let end = start + (i + 1) * FILES_PER_THREAD;
    if end < total {
        end
    } else {
        total
    }
}

/// The `i`-th batch of the round that starts at `start`.
pub open spec fn batch_of(total: int, start: int, i: int) -> Batch {
    Batch { start: (start + i * FILES_PER_THREAD) as usize, end: batch_end(total, start, i) as usize }
}

/// The batches of the round that starts at `start`, in order.
pub open spec fn round_plan(total: int, start: int, max_threads: int) -> Seq<Batch> {
    Seq::new(
        round_len(total, start, max_threads) as nat,
        |i: int| batch_of(total, start, i),
    )
}

/// Where the round that starts at `start` ends.
pub open spec fn round_end(total: int, start: int, max_threads: int) -> int {
    batch_end(total, start, round_len(total, start, max_threads) - 1)
}

/// The index of the first failure among `loaded[start..end]`, or `end` where
/// there is none.
pub open spec fn first_failure(loaded: Seq<Loaded>, start: int, end: int) -> int
    decreases end - start,
{
    if start >= end {
        end
    } else if loaded[start] is Err {
        start
    } else {
        first_failure(loaded, start + 1, end)
    }
}

/// The records of `loaded[start..end]`, which are to hold no failure.
pub open spec fn records(loaded: Seq<Loaded>, start: int, end: int) -> Seq<
    (Document, DocumentMeta),
> {
    Seq::new((end - start) as nat, |i: int| loaded[start + i]->Ok_0)
}

/// What a run has gathered: the records that count, and the failures that
/// were set aside.
pub ghost struct Gathered {
    pub files: Seq<(Document, DocumentMeta)>,
    pub dropped: Seq<KnawledgeError>,
}

/// A worker's batch joins what was gathered: all of its records, or its first
/// failure alone.
pub open spec fn gather_batch(loaded: Seq<Loaded>, batch: Batch, so_far: Gathered) -> Gathered {
    let failure = first_failure(loaded, batch.start as int, batch.end as int);
    if failure < batch.end {
        Gathered { files: so_far.files, dropped: so_far.dropped.push(loaded[failure]->Err_0) }
    } else {
        Gathered {
            files: so_far.files + records(loaded, batch.start as int, batch.end as int),
            dropped: so_far.dropped,
        }
    }
}

/// The first `count` batches of a round join what was gathered, in order.
pub open spec fn gather_round(loaded: Seq<Loaded>, plan: Seq<Batch>, count: int, so_far: Gathered) -> Gathered
    decreases count,
{
    if count <= 0 {
        so_far
    } else {
        gather_batch(loaded, plan[count - 1], gather_round(loaded, plan, count - 1, so_far))
    }
}

/// The run from `start` on, round by round: what is gathered at its end, and
/// the failure that ended it early, if one did.
pub open spec fn process(loaded: Seq<Loaded>, max_threads: usize, start: int, so_far: Gathered) -> (
    Gathered,
    Option<KnawledgeError>,
)
    decreases loaded.len() - start,
{
    let total = loaded.len() as int;
    if start < 0 || start >= total || max_threads < 1 {
        (so_far, None)
    } else {
        let next = round_end(total, start, max_threads as int);
        if round_len(total, start, max_threads as int) == 1 {
            let failure = first_failure(loaded, start, next);
            let with_round = Gathered {
                files: so_far.files + records(loaded, start, failure),
                dropped: so_far.dropped,
            };
            if failure < next {
                (with_round, Some(loaded[failure]->Err_0))
            } else {
                process(loaded, max_threads, next, with_round)
            }
        } else {
            let plan = round_plan(total, start, max_threads as int);
            process(loaded, max_threads, next, gather_round(loaded, plan, plan.len() as int, so_far))
        }
    }
}

/// A round's batches are contiguous from the round's start, none is empty,
/// none holds more than `FILES_PER_THREAD` files, there are at most
/// `max_threads` of them, and only the end of the files makes them fewer or
/// the last one shorter.
pub proof fn lemma_round_plan(total: usize, start: usize, max_threads: usize)
    requires
        start < total,
        max_threads >= 1,
    ensures
        ({
            let plan = round_plan(total as int, start as int, max_threads as int);
            &&& 1 <= plan.len() <= max_threads
            &&& plan[0].start == start
            &&& plan.last().end == round_end(total as int, start as int, max_threads as int)
            &&& start < plan.last().end <= total
            &&& plan.len() < max_threads ==> plan.last().end == total
            &&& forall|i: int|
                0 <= i < plan.len() ==> (#[trigger] plan[i]).start < plan[i].end && plan[i].end
                    - plan[i].start <= FILES_PER_THREAD
            &&& forall|i: int|
                0 <= i < plan.len() - 1 ==> (#[trigger] plan[i]).end == plan[i + 1].start
                    && plan[i].end - plan[i].start == FILES_PER_THREAD
        }),
{
}

/// Divides the files from `start` on into the batches of one round.
///
/// No batch is made where `start` is not below `total`, or for no thread.
pub fn plan_round(total: usize, start: usize, max_threads: usize) -> (plan: Vec<Batch>)
    ensures
        plan@ == round_plan(total as int, start as int, max_threads as int),
{
    let mut plan: Vec<Batch> = Vec::new();
    let mut at: usize = start;
    while plan.len() < max_threads && at < total
        invariant
            plan.len() <= round_len(total as int, start as int, max_threads as int),
            start < total ==> at == batch_end(total as int, start as int, plan.len() - 1),
            start >= total ==> at == start,
            at <= total || at == start,
            forall|i: int| 0 <= i < plan.len() ==> plan[i] == batch_of(total as int, start as int, i),
        decreases total - at,
    {
        let end: usize = if total - at > FILES_PER_THREAD {
            at + FILES_PER_THREAD
        } else {
            total
        };
        plan.push(Batch { start: at, end });
        at = end;
    }
    assert(plan@ =~= round_plan(total as int, start as int, max_threads as int));
    plan
}

/// The files from `from` on, last first: the order in which a stack hands
/// them out first to last.
pub open spec fn upcoming(loaded: Seq<Loaded>, from: int) -> Seq<Loaded> {
    loaded.skip(from).reverse()
}

/// The top of the pending files is the next file, and below it are the files
/// after it.
proof fn lemma_upcoming(loaded: Seq<Loaded>, from: int)
    requires
        0 <= from < loaded.len(),
    ensures
        upcoming(loaded, from).len() > 0,
        upcoming(loaded, from).last() == loaded[from],
        upcoming(loaded, from).drop_last() =~= upcoming(loaded, from + 1),
{
}

/// The same items, last first.
fn reversed(items: Vec<Loaded>) -> (r: Vec<Loaded>)
    ensures
        r@ == items@.reverse(),
{
    let ghost all = items@;
    let mut items = items;
    let mut r: Vec<Loaded> = Vec::new();
    while items.len() > 0
        invariant
            items@ == all.take(items.len() as int),
            items.len() + r.len() == all.len(),
            forall|i: int| 0 <= i < r.len() ==> r[i] == all[all.len() - 1 - i],
        decreases items.len(),
    {
        match items.pop() {
            Some(item) => {
                r.push(item);
            },
            None => {},
        }
        assert(items@ =~= all.take(items.len() as int));
    }
    assert(r@ =~= all.reverse());
    r
}

/// Takes a batch's files off the pending ones as one worker does: every record of
/// the batch, or its first failure alone.
fn take_batch(pending: &mut Vec<Loaded>, Ghost(loaded): Ghost<Seq<Loaded>>, batch: Batch) -> (r:
    Result<Vec<(Document, DocumentMeta)>, KnawledgeError>)
    requires
        old(pending)@ == upcoming(loaded, batch.start as int),
        batch.start <= batch.end <= loaded.len(),
    ensures
        final(pending)@ == upcoming(loaded, batch.end as int),
        match r {
            Ok(found) => first_failure(loaded, batch.start as int, batch.end as int) == batch.end
                && found@ == records(loaded, batch.start as int, batch.end as int),
            Err(e) => first_failure(loaded, batch.start as int, batch.end as int) < batch.end && e
                == loaded[first_failure(loaded, batch.start as int, batch.end as int)]->Err_0,
        },
{
    let mut found: Vec<(Document, DocumentMeta)> = Vec::new();
    let mut failure: Option<KnawledgeError> = None;
    let mut i: usize = batch.start;
    while i < batch.end
        invariant
            batch.start <= i <= batch.end <= loaded.len(),
            pending@ == upcoming(loaded, i as int),
            match failure {
                None => first_failure(loaded, batch.start as int, batch.end as int)
                    == first_failure(loaded, i as int, batch.end as int) && found@ == records(
                    loaded,
                    batch.start as int,
                    i as int,
                ),
                Some(e) => first_failure(loaded, batch.start as int, batch.end as int) < i && e
                    == loaded[first_failure(loaded, batch.start as int, batch.end as int)]->Err_0,
            },
        decreases batch.end - i,
    {
        proof {
            lemma_upcoming(loaded, i as int);
        }
        match pending.pop() {
            Some(Ok(record)) => {
                if failure.is_none() {
                    found.push(record);
                    assert(found@ =~= records(loaded, batch.start as int, i + 1));
                }
            },
            Some(Err(e)) => {
                if failure.is_none() {
                    failure = Some(e);
                }
            },
            None => {},
        }
        i += 1;
    }
    match failure {
        Some(e) => Err(e),
        None => Ok(found),
    }
}

/// Takes a batch's files off the pending ones in line: each record goes to
/// `files` until the first failure, which is handed back.
fn take_inline(
    pending: &mut Vec<Loaded>,
    Ghost(loaded): Ghost<Seq<Loaded>>,
    batch: Batch,
    files: &mut Vec<(Document, DocumentMeta)>,
) -> (r: Option<KnawledgeError>)
    requires
        old(pending)@ == upcoming(loaded, batch.start as int),
        batch.start <= batch.end <= loaded.len(),
    ensures
        final(files)@ == old(files)@ + records(
            loaded,
            batch.start as int,
            first_failure(loaded, batch.start as int, batch.end as int),
        ),
        match r {
            Some(e) => first_failure(loaded, batch.start as int, batch.end as int) < batch.end && e
                == loaded[first_failure(loaded, batch.start as int, batch.end as int)]->Err_0,
            None => first_failure(loaded, batch.start as int, batch.end as int) == batch.end
                && final(pending)@ == upcoming(loaded, batch.end as int),
        },
{
    let mut i: usize = batch.start;
    while i < batch.end
        invariant
            batch.start <= i <= batch.end <= loaded.len(),
            pending@ == upcoming(loaded, i as int),
            first_failure(loaded, batch.start as int, batch.end as int) == first_failure(
                loaded,
                i as int,
                batch.end as int,
            ),
            files@ == old(files)@ + records(loaded, batch.start as int, i as int),
        decreases batch.end - i,
    {
        proof {
            lemma_upcoming(loaded, i as int);
        }
        match pending.pop() {
            Some(Ok(record)) => {
                files.push(record);
                assert(files@ =~= old(files)@ + records(loaded, batch.start as int, i + 1));
            },
            Some(Err(e)) => {
                return Some(e);
            },
            None => {},
        }
        i += 1;
    }
    None
}

/// Gathers the records of a directory's files into `files`, round by round.
///
/// `loaded` holds, for each file in order, what reading and parsing it gave.
/// A round of one batch is taken in line: its records join `files` one by
/// one, and its first failure ends the run as `Err`. In a round of several
/// batches each batch joins `files` whole, in order, unless it holds a
/// failure: then nothing of it does, and its first failure is set aside. The
/// failures set aside come back under `Ok`, in order, for the caller to
/// report.
pub fn process_files(
    max_threads: usize,
    loaded: Vec<Loaded>,
    files: &mut Vec<(Document, DocumentMeta)>,
) -> (r: Result<Vec<KnawledgeError>, KnawledgeError>)
    requires
        max_threads >= 1,
    ensures
        ({
            let (gathered, failure) = process(
                loaded@,
                max_threads,
                0,
                Gathered { files: old(files)@, dropped: Seq::empty() },
            );
            &&& final(files)@ == gathered.files
            &&& match r {
                Ok(dropped) => failure is None && dropped@ == gathered.dropped,
                Err(e) => failure == Some(e),
            }
        }),
{
    let ghost all = loaded@;
    let ghost begin = Gathered { files: old(files)@, dropped: Seq::empty() };
    let total = loaded.len();
    let mut pending = reversed(loaded);
    let mut dropped: Vec<KnawledgeError> = Vec::new();
    let mut start: usize = 0;
    proof {
        assert(all.skip(0) =~= all);
    }
    while start < total
        invariant
            start <= total == all.len(),
            max_threads >= 1,
            all == loaded@,
            begin == (Gathered { files: old(files)@, dropped: Seq::empty() }),
            pending@ == upcoming(all, start as int),
            process(all, max_threads, 0, begin) == process(
                all,
                max_threads,
                start as int,
                Gathered { files: files@, dropped: dropped@ },
            ),
        decreases total - start,
    {
        let plan = plan_round(total, start, max_threads);
        let ghost so_far = Gathered { files: files@, dropped: dropped@ };
        proof {
            lemma_round_plan(total, start, max_threads);
        }
        if plan.len() == 1 {
            match take_inline(&mut pending, Ghost(all), plan[0], files) {
                Some(e) => {
                    return Err(e);
                },
                None => {},
            }
        } else {
            let mut j: usize = 0;
            while j < plan.len()
                invariant
                    j <= plan.len(),
                    total == all.len(),
                    plan@ == round_plan(total as int, start as int, max_threads as int),
                    forall|i: int| 0 <= i < plan.len() ==> (#[trigger] plan[i]).start < plan[i].end,
                    forall|i: int|
                        0 <= i < plan.len() - 1 ==> (#[trigger] plan[i]).end == plan[i + 1].start,
                    plan.len() > 0,
                    plan[0].start == start,
                    plan@.last().end <= total,
                    pending@ == upcoming(
                        all,
                        if j == 0 {
                            start as int
                        } else {
                            plan[j - 1].end as int
                        },
                    ),
                    (Gathered { files: files@, dropped: dropped@ }) == gather_round(
                        all,
                        plan@,
                        j as int,
                        so_far,
                    ),
                decreases plan.len() - j,
            {
                let batch = plan[j];
                assert(batch.end <= total) by {
                    assert(forall|i: int|
                        0 <= i < plan.len() - 1 ==> (#[trigger] plan[i]).end < plan[i + 1].end);
                    lemma_ends_grow(plan@, j as int);
                }
                match take_batch(&mut pending, Ghost(all), batch) {
                    Ok(found) => {
                        let mut found = found;
                        files.append(&mut found);
                    },
                    Err(e) => {
                        dropped.push(e);
                    },
                }
                j += 1;
            }
        }
        start = plan[plan.len() - 1].end;
    }
    Ok(dropped)
}

/// Where each batch ends before the next one does, none ends after the last.
proof fn lemma_ends_grow(plan: Seq<Batch>, j: int)
    requires
        0 <= j < plan.len(),
        forall|i: int| 0 <= i < plan.len() - 1 ==> (#[trigger] plan[i]).end < plan[i + 1].end,
    ensures
        plan[j].end <= plan.last().end,
    decreases plan.len() - j,
{
    if j < plan.len() - 1 {
        lemma_ends_grow(plan, j + 1);
    }
}

/// Where none of `loaded[start..end]` failed, there is no first failure.
proof fn lemma_no_failure(loaded: Seq<Loaded>, start: int, end: int)
    requires
        0 <= start <= end <= loaded.len(),
        forall|i: int| start <= i < end ==> (#[trigger] loaded[i]) is Ok,
    ensures
        first_failure(loaded, start, end) == end,
    decreases end - start,
{
    if start < end {
        lemma_no_failure(loaded, start + 1, end);
    }
}

/// Where none of the files of a round's first `count` batches failed, these
/// batches contribute the records of their files, in the files' order, and
/// set nothing aside.
proof fn lemma_gather_all(
    loaded: Seq<Loaded>,
    start: usize,
    max_threads: usize,
    count: int,
    so_far: Gathered,
)
    requires
        start < loaded.len() <= usize::MAX,
        max_threads >= 1,
        1 <= count <= round_plan(loaded.len() as int, start as int, max_threads as int).len(),
        forall|i: int| start <= i < loaded.len() ==> (#[trigger] loaded[i]) is Ok,
    ensures
        ({
            let plan = round_plan(loaded.len() as int, start as int, max_threads as int);
            gather_round(loaded, plan, count, so_far) == Gathered {
                files: so_far.files + records(loaded, start as int, plan[count - 1].end as int),
                dropped: so_far.dropped,
            }
        }),
    decreases count,
{
    let total = loaded.len() as usize;
    let plan = round_plan(total as int, start as int, max_threads as int);
    lemma_round_plan(total, start, max_threads);
    let batch = plan[count - 1];
    assert(batch.end <= total) by {
        assert(forall|i: int|
            0 <= i < plan.len() - 1 ==> (#[trigger] plan[i]).end < plan[i + 1].end);
        lemma_ends_grow(plan, count - 1);
    }
    lemma_no_failure(loaded, batch.start as int, batch.end as int);
    if count == 1 {
        assert(gather_round(loaded, plan, 0, so_far) == so_far);
    } else {
        lemma_gather_all(loaded, start, max_threads, count - 1, so_far);
        assert(plan[count - 2].end == batch.start);
        assert(so_far.files + records(loaded, start as int, batch.start as int) + records(
            loaded,
            batch.start as int,
            batch.end as int,
        ) =~= so_far.files + records(loaded, start as int, batch.end as int));
    }
}

/// Where no file failed, the run gathers the record of every file, in the
/// files' order, sets nothing aside and does not fail, however many threads
/// there are and however the files fall into rounds and batches.
#[verifier::rlimit(30)]
pub proof fn lemma_process_all(
    loaded: Seq<Loaded>,
    max_threads: usize,
    start: int,
    so_far: Gathered,
)
    requires
        max_threads >= 1,
        0 <= start <= loaded.len() <= usize::MAX,
        forall|i: int| start <= i < loaded.len() ==> (#[trigger] loaded[i]) is Ok,
    ensures
        process(loaded, max_threads, start, so_far) == (
            Gathered {
                files: so_far.files + records(loaded, start, loaded.len() as int),
                dropped: so_far.dropped,
            },
            None::<KnawledgeError>,
        ),
    decreases loaded.len() - start,
{
    let total = loaded.len() as int;
    if start >= total {
        assert(so_far.files + records(loaded, start, total) =~= so_far.files);
    } else {
        lemma_round_plan(total as usize, start as usize, max_threads);
        let plan = round_plan(total, start, max_threads as int);
        let next = round_end(total, start, max_threads as int);
        let with_round = Gathered {
            files: so_far.files + records(loaded, start, next),
            dropped: so_far.dropped,
        };
        assert(plan.len() == round_len(total, start, max_threads as int));
        assert(start < next <= total);
        if plan.len() == 1 {
            lemma_no_failure(loaded, start, next);
        } else {
            lemma_gather_all(loaded, start as usize, max_threads, plan.len() as int, so_far);
            assert(gather_round(loaded, plan, plan.len() as int, so_far) == with_round);
        }
        assert(process(loaded, max_threads, start, so_far) == process(
            loaded,
            max_threads,
            next,
            with_round,
        ));
        lemma_process_all(loaded, max_threads, next, with_round);
        assert(with_round.files + records(loaded, next, total) =~= so_far.files + records(
            loaded,
            start,
            total,
        ));
    }
}

} // verus!
