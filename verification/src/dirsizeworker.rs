// The bookkeeping of the one persistent directory-size worker: which batch it is walking, which of its
// rows are still to come back, and which numbering a completion must carry to be published. Slow
// filesystems can delay sizes, never navigation.
use crate::dirsizereq::DirSize;
use std::collections::HashSet;
use vstd::prelude::*;

verus! {

broadcast use vstd::std_specs::hash::group_hash_axioms;

/// What the worker is: its current numbering, and the batch it is walking with the rows still to come.
pub type WorkerView = (u64, Option<(u64, Set<usize>)>);

/// The numbering after `g`, wrapping as the counter does.
pub open spec fn next_gen(g: u64) -> u64 {
    if g == u64::MAX {
        0
    } else {
        (g + 1) as u64
    }
}

/// Whether `row` is being walked in the numbering in force.
pub open spec fn walking(w: WorkerView, row: usize) -> bool {
    match w.1 {
        Some((g, pending)) => g == w.0 && pending.contains(row),
        None => false,
    }
}

/// Whether a completion is one the batch still waits for.
pub open spec fn awaited(w: WorkerView, generation: u64, row: usize) -> bool {
    match w.1 {
        Some((g, pending)) => g == generation && pending.contains(row),
        None => false,
    }
}

/// Whether a completion is published: awaited, and of the numbering in force.
pub open spec fn publishes(w: WorkerView, generation: u64, row: usize) -> bool {
    awaited(w, generation, row) && w.0 == generation
}

/// The worker after a completion: an awaited one leaves the batch, which releases the single slot when
/// nothing else is pending; any other changes nothing.
pub open spec fn after_done(w: WorkerView, generation: u64, row: usize) -> WorkerView {
    match w.1 {
        Some((g, pending)) => if g == generation && pending.contains(row) {
            let left = pending.remove(row);
            (w.0, if left.is_empty() {
                None
            } else {
                Some((g, left))
            })
        } else {
            w
        },
        None => w,
    }
}

/// Whether a row number occurs among the first entries of `rows`.
pub open spec fn has_row(rows: Seq<(usize, Seq<char>)>, row: usize) -> bool {
    exists|i: int| 0 <= i < rows.len() && #[trigger] rows[i].0 == row
}

/// The rows with each row number kept only where it first occurs.
pub open spec fn unique_rows(rows: Seq<(usize, Seq<char>)>) -> Seq<(usize, Seq<char>)>
    decreases rows.len(),
{
    if rows.len() == 0 {
        Seq::empty()
    } else {
        let u = unique_rows(rows.drop_last());
        if has_row(u, rows.last().0) {
            u
        } else {
            u.push(rows.last())
        }
    }
}

/// The row numbers of a batch.
pub open spec fn row_set(rows: Seq<(usize, Seq<char>)>) -> Set<usize> {
    Set::new(|row: usize| has_row(rows, row))
}

/// One batch handed to the walker: its numbering, and each row with the path to walk.
pub struct Job {
    pub generation: u64,
    pub rows: Vec<(usize, String)>,
}

pub open spec fn job_rows(rows: Seq<(usize, String)>) -> Seq<(usize, Seq<char>)> {
    rows.map_values(|r: (usize, String)| (r.0, r.1@))
}

pub open spec fn job_view(job: Option<Job>) -> Option<(u64, Seq<(usize, Seq<char>)>)> {
    match job {
        Some(j) => Some((j.generation, job_rows(j.rows@))),
        None => None,
    }
}

/// The worker once a batch of `rows` is started: nothing changes when no row is left, and otherwise
/// the numbering moves on and the batch holds each of its rows once.
pub open spec fn started(w: WorkerView, rows: Seq<(usize, Seq<char>)>) -> WorkerView {
    let u = unique_rows(rows);
    if u.len() == 0 {
        w
    } else {
        (next_gen(w.0), Some((next_gen(w.0), row_set(u))))
    }
}

/// The job a start hands to the walker: its numbering and its rows, each row once in the order it
/// first came.
pub open spec fn job_of(w: WorkerView, rows: Seq<(usize, Seq<char>)>) -> Option<(u64, Seq<(usize, Seq<char>)>)> {
    let u = unique_rows(rows);
    if u.len() == 0 {
        None
    } else {
        Some((next_gen(w.0), u))
    }
}

pub struct Worker {
    generation: u64,
    active: Option<(u64, HashSet<usize>)>,
}

impl View for Worker {
    type V = WorkerView;

    closed spec fn view(&self) -> WorkerView {
        (self.generation, match self.active {
            Some((g, pending)) => Some((g, pending@)),
            None => None,
        })
    }
}

impl Worker {
    pub fn new() -> (w: Worker)
        ensures
            w@ == (0u64, None::<(u64, Set<usize>)>),
    {
        Worker { generation: 0, active: None }
    }

    pub fn busy(&self) -> (r: bool)
        ensures
            r == self@.1 is Some,
    {
        self.active.is_some()
    }

    /// The numbering in force, which the walker compares a batch's own against before each row.
    pub fn generation(&self) -> (r: u64)
        ensures
            r == self@.0,
    {
        self.generation
    }

    pub fn contains(&self, row: usize) -> (r: bool)
        ensures
            r == walking(self@, row),
    {
        match &self.active {
            Some((g, pending)) => *g == self.generation && pending.contains(&row),
            None => false,
        }
    }

    /// Starts a batch of the rows not already in it, each row once; nothing is started when no row is
    /// left. The job is handed to the walker by the caller.
    pub fn start(&mut self, rows: Vec<(usize, String)>) -> (job: Option<Job>)
        requires
            old(self)@.1 is None,
        ensures
            final(self)@ == started(old(self)@, job_rows(rows@)),
            job_view(job) == job_of(old(self)@, job_rows(rows@)),
    {
        let mut pending: HashSet<usize> = HashSet::with_capacity(rows.len());
        let mut kept: Vec<(usize, String)> = Vec::new();
        let ghost all = job_rows(rows@);
        let mut i: usize = 0;
        let n = rows.len();
        assert(job_rows(kept@) =~= unique_rows(all.take(0)));
        assert(pending@ =~= row_set(job_rows(kept@)));
        while i < n
            invariant
                i <= n,
                n == rows.len(),
                all == job_rows(rows@),
                job_rows(kept@) == unique_rows(all.take(i as int)),
                pending@ == row_set(job_rows(kept@)),
            decreases n - i,
        {
            let ghost before = kept@;
            let row = rows[i].0;
            let path = rows[i].1.clone();
            assert(all[i as int] == (row, path@));
            assert(all.take(i + 1).drop_last() =~= all.take(i as int));
            assert(all.take(i + 1).last() == all[i as int]);
            let fresh = pending.insert(row);
            if fresh {
                kept.push((row, path));
                assert(job_rows(kept@) =~= job_rows(before).push(all[i as int]));
                proof {
                    let u = job_rows(kept@);
                    assert forall|x: usize| #[trigger] pending@.contains(x) <==> has_row(u, x) by {
                        if has_row(u, x) {
                            let k = choose|k: int| 0 <= k < u.len() && #[trigger] u[k].0 == x;
                            if k < before.len() {
                                assert(job_rows(before)[k].0 == x);
                                assert(has_row(job_rows(before), x));
                            }
                        }
                        if has_row(job_rows(before), x) {
                            let k = choose|k: int| 0 <= k < before.len() && #[trigger] job_rows(before)[k].0 == x;
                            assert(u[k].0 == x);
                        }
                        if x == row {
                            assert(u[before.len() as int].0 == row);
                        }
                    }
                    assert(pending@ =~= row_set(u));
                }
            }
            i = i + 1;
        }
        assert(all.take(n as int) =~= all);
        if kept.len() == 0 {
            return None;
        }
        let generation: u64 = if self.generation == u64::MAX {
            0
        } else {
            self.generation + 1
        };
        self.generation = generation;
        self.active = Some((generation, pending));
        Some(Job { generation, rows: kept })
    }

    /// The batch could not be handed to the walker: the slot is free again, and the numbering stays
    /// spent.
    pub fn lost(&mut self)
        ensures
            final(self)@ == (old(self)@.0, None::<(u64, Set<usize>)>),
    {
        self.active = None;
    }

    /// A cancel moves the numbering on, so the running batch's rows stop counting as walked and its
    /// completions stop publishing; the batch still holds the single slot until they come back.
    pub fn cancel(&mut self)
        ensures
            final(self)@ == (next_gen(old(self)@.0), old(self)@.1),
    {
        self.generation = if self.generation == u64::MAX {
            0
        } else {
            self.generation + 1
        };
    }

    /// Takes one completion back: even a cancelled one releases its row, but only one of the numbering
    /// in force is published.
    pub fn accept(&mut self, generation: u64, row: usize) -> (r: bool)
        ensures
            r == publishes(old(self)@, generation, row),
            final(self)@ == after_done(old(self)@, generation, row),
    {
        let current = self.generation;
        match self.active.take() {
            None => false,
            Some((g, pending)) => {
                if g != generation || !pending.contains(&row) {
                    self.active = Some((g, pending));
                    return false;
                }
                let mut left = pending;
                left.remove(&row);
                let ghost p = (old(self)@.1->0).1;
                assert(left@ =~= p.remove(row));
                if !left.is_empty() {
                    self.active = Some((g, left));
                }
                current == generation
            },
        }
    }
}

/// The worker after the completions of `rows`, one after another, all of numbering `generation`.
pub open spec fn after_all(w: WorkerView, generation: u64, rows: Seq<usize>) -> WorkerView
    decreases rows.len(),
{
    if rows.len() == 0 {
        w
    } else {
        after_all(after_done(w, generation, rows[0]), generation, rows.drop_first())
    }
}

/// Whether the worker's batch, if it has one, is of a numbering other than the one a cancel moves to:
/// only a counter that has gone all the way round can bring a stale batch's number back.
pub open spec fn batch_is_not_next(w: WorkerView) -> bool {
    match w.1 {
        Some((g, _)) => g != next_gen(w.0),
        None => true,
    }
}

/// The size a row gets when its folder is never entered: nothing counted, and marked partial.
pub open spec fn empty_partial() -> DirSize {
    DirSize { bytes: 0, partial: true }
}

/// What the walker answers for a row before walking it: a row of a batch whose numbering is no longer
/// in force comes back empty and partial without its folder being entered; `None` is a row to walk.
pub open spec fn unwalked_of(current: u64, generation: u64) -> Option<DirSize> {
    if current != generation {
        Some(empty_partial())
    } else {
        None
    }
}

/// Sample input: (5, 4), a batch numbered 4 after a cancel moved the numbering to 5, which is answered
/// with 0 bytes, partial; (4, 4) is walked.
pub fn answered_unwalked(current: u64, generation: u64) -> (r: Option<DirSize>)
    ensures
        r == unwalked_of(current, generation),
{
    if current != generation {
        Some(DirSize { bytes: 0, partial: true })
    } else {
        None
    }
}

/// A row still to come when its batch is cancelled is never walked: the walker, reading the numbering
/// the cancel moved to, answers it empty and partial at once; that completion is not published, and
/// it still releases its row.
pub proof fn a_cancelled_row_comes_back_unwalked(w: WorkerView, row: usize)
    requires
        w.1 is Some,
        batch_is_not_next(w),
    ensures
        unwalked_of(next_gen(w.0), (w.1->0).0) == Some(empty_partial()),
        !publishes((next_gen(w.0), w.1), (w.1->0).0, row),
        !awaited(after_done((next_gen(w.0), w.1), (w.1->0).0, row), (w.1->0).0, row),
{
}

/// A cancel silences the running batch, whatever its numbering but the one the cancel moves to: none
/// of its rows reads as being walked any more, and no completion of it is published, though it still
/// holds the slot until its rows come back.
pub proof fn a_cancel_silences_the_running_batch(w: WorkerView, generation: u64, row: usize)
    requires
        batch_is_not_next(w),
    ensures
        !walking((next_gen(w.0), w.1), row),
        awaited(w, generation, row) ==> !publishes((next_gen(w.0), w.1), generation, row),
        (next_gen(w.0), w.1).1 is Some == w.1 is Some,
{
}

/// A completion is taken back once: a second one of the same row and numbering is not awaited, so it
/// neither publishes nor changes anything.
pub proof fn a_completion_is_taken_once(w: WorkerView, generation: u64, row: usize)
    ensures
        !awaited(after_done(w, generation, row), generation, row),
        !publishes(after_done(w, generation, row), generation, row),
        after_done(after_done(w, generation, row), generation, row) == after_done(w, generation, row),
{
}

/// One row coming back releases nothing else: any other row of the batch is still awaited, and the
/// batch still holds the slot.
pub proof fn one_row_back_keeps_the_rest(w: WorkerView, generation: u64, row: usize, other: usize)
    requires
        awaited(w, generation, row),
        awaited(w, generation, other),
        row != other,
    ensures
        awaited(after_done(w, generation, row), generation, other),
        after_done(w, generation, row).1 is Some,
{
    match w.1 {
        Some((_, pending)) => assert(pending.remove(row).contains(other)),
        None => {},
    }
}

proof fn lemma_idle_stays(w: WorkerView, generation: u64, rows: Seq<usize>)
    requires
        w.1 is None,
    ensures
        after_all(w, generation, rows) == w,
    decreases rows.len(),
{
    if rows.len() > 0 {
        lemma_idle_stays(after_done(w, generation, rows[0]), generation, rows.drop_first());
    }
}

/// Every row of a batch coming back once, in any order, frees the single slot and leaves the
/// numbering as it was.
pub proof fn every_row_back_frees_the_slot(w: WorkerView, generation: u64, rows: Seq<usize>)
    requires
        rows.len() > 0,
        rows.no_duplicates(),
        w.1 == Some((generation, rows.to_set())),
    ensures
        after_all(w, generation, rows).1 is None,
        after_all(w, generation, rows).0 == w.0,
    decreases rows.len(),
{
    let first = rows[0];
    let rest = rows.drop_first();
    assert(rows.contains(first));
    assert(rest.to_set() =~= rows.to_set().remove(first)) by {
        assert forall|x: usize| rest.to_set().contains(x) <==> rows.to_set().remove(first).contains(x) by {
            if rest.contains(x) {
                let k = choose|k: int| 0 <= k < rest.len() && rest[k] == x;
                assert(rows[k + 1] == x);
                assert(rows.contains(x));
            }
            if rows.contains(x) && x != first {
                let k = choose|k: int| 0 <= k < rows.len() && rows[k] == x;
                assert(k != 0);
                assert(rest[k - 1] == x);
                assert(rest.contains(x));
            }
        }
    }
    let w1 = after_done(w, generation, first);
    if rest.to_set().is_empty() {
        assert(w1.1 is None);
        lemma_idle_stays(w1, generation, rest);
    } else {
        assert(rest.len() > 0) by {
            if rest.len() == 0 {
                assert(rest.to_set() =~= Set::<usize>::empty());
            }
        }
        assert(rest.no_duplicates()) by {
            assert forall|i: int, j: int| 0 <= i < rest.len() && 0 <= j < rest.len() && i != j implies rest[i]
                != rest[j] by {
                assert(rest[i] == rows[i + 1]);
                assert(rest[j] == rows[j + 1]);
            }
        }
        every_row_back_frees_the_slot(w1, generation, rest);
    }
}

} // verus!
