// Directory-size requests: answering from what is known, queueing the rest for the one worker, and
// publishing only completions of the numbering in force.
use crate::dirsizeworker::{after_done, job_of, job_view, publishes, started, walking, Job, Worker, WorkerView};
use crate::paths::{join, joined};
use std::collections::HashMap;
use vstd::prelude::*;

verus! {

broadcast use vstd::std_specs::hash::group_hash_axioms;

/// What a walk found: the bytes under a folder, and whether the walk stopped short of its bottom.
#[derive(Clone, Copy, Debug, PartialEq)]
pub struct DirSize {
    pub bytes: u64,
    pub partial: bool,
}

/// The state the requests work on: the listing's rows (each its name and whether it is a folder), the
/// folder they are in, the sizes known so far, the rows waiting for the worker, and the worker.
pub struct State {
    pub listing: Vec<(String, bool)>,
    pub base: String,
    pub dirsizes: HashMap<usize, (u64, bool)>,
    pub dirsize_queue: Vec<usize>,
    pub dirsize_worker: Worker,
}

pub open spec fn is_dir_row(listing: Seq<(String, bool)>, row: usize) -> bool {
    row < listing.len() && listing[row as int].1
}

/// The queue after asking for `rows`, and the rows answered at once from the sizes already known.
pub open spec fn queued(
    listing: Seq<(String, bool)>,
    sizes: Map<usize, (u64, bool)>,
    w: WorkerView,
    queue: Seq<usize>,
    rows: Seq<usize>,
) -> (Seq<usize>, Seq<(usize, u64, bool)>)
    decreases rows.len(),
{
    if rows.len() == 0 {
        (queue, Seq::empty())
    } else {
        let before = queued(listing, sizes, w, queue, rows.drop_last());
        let row = rows.last();
        if !is_dir_row(listing, row) {
            before
        } else if sizes.contains_key(row) {
            (before.0, before.1.push((row, sizes[row].0, sizes[row].1)))
        } else if before.0.contains(row) || walking(w, row) {
            before
        } else {
            (before.0.push(row), before.1)
        }
    }
}

/// The rows a queue turns into a batch: those still folders, each with its path under `base`.
pub open spec fn batch_rows(listing: Seq<(String, bool)>, base: Seq<char>, queue: Seq<usize>) -> Seq<
    (usize, Seq<char>),
>
    decreases queue.len(),
{
    if queue.len() == 0 {
        Seq::empty()
    } else {
        let b = batch_rows(listing, base, queue.drop_last());
        let row = queue.last();
        if is_dir_row(listing, row) {
            b.push((row, joined(base, listing[row as int].0@)))
        } else {
            b
        }
    }
}

/// The sizes once the first `n` answers of a listing's own walk are seeded: a complete walk is known,
/// a floor is not.
pub open spec fn seeded(sizes: Map<usize, (u64, bool)>, sized: Seq<Option<DirSize>>, n: nat) -> Map<
    usize,
    (u64, bool),
>
    decreases n,
{
    if n == 0 {
        sizes
    } else {
        let before = seeded(sizes, sized, (n - 1) as nat);
        match sized[n - 1] {
            Some(size) => if !size.partial {
                before.insert((n - 1) as usize, (size.bytes, size.partial))
            } else {
                before
            },
            None => before,
        }
    }
}

fn queue_has(queue: &Vec<usize>, row: usize) -> (r: bool)
    ensures
        r == queue@.contains(row),
{
    let mut i: usize = 0;
    while i < queue.len()
        invariant
            i <= queue.len(),
            forall|k: int| 0 <= k < i ==> queue@[k] != row,
        decreases queue.len() - i,
    {
        if queue[i] == row {
            return true;
        }
        i = i + 1;
    }
    false
}

/// Answered rows are answered again at once; only a folder can be asked for, and a row already waiting
/// or being walked is not queued twice. Returns the rows answered at once, each with its bytes and
/// whether the walk was partial.
pub fn queue_dirsizes(st: &mut State, rows: &[usize]) -> (answered: Vec<(usize, u64, bool)>)
    ensures
        (final(st).dirsize_queue@, answered@) == queued(
            old(st).listing@,
            old(st).dirsizes@,
            old(st).dirsize_worker@,
            old(st).dirsize_queue@,
            rows@,
        ),
        final(st).listing == old(st).listing,
        final(st).base == old(st).base,
        final(st).dirsizes@ == old(st).dirsizes@,
        final(st).dirsize_worker@ == old(st).dirsize_worker@,
{
    let mut answered: Vec<(usize, u64, bool)> = Vec::new();
    let mut i: usize = 0;
    let ghost q0 = st.dirsize_queue@;
    let ghost l0 = st.listing;
    let ghost b0 = st.base;
    let ghost d0 = st.dirsizes@;
    let ghost w0 = st.dirsize_worker@;
    assert(rows@.take(0) =~= Seq::<usize>::empty());
    while i < rows.len()
        invariant
            i <= rows.len(),
            st.listing == l0,
            st.base == b0,
            st.dirsizes@ == d0,
            st.dirsize_worker@ == w0,
            (st.dirsize_queue@, answered@) == queued(l0@, d0, w0, q0, rows@.take(i as int)),
        decreases rows.len() - i,
    {
        let row = rows[i];
        assert(rows@.take(i + 1).drop_last() =~= rows@.take(i as int));
        assert(rows@.take(i + 1).last() == row);
        if row < st.listing.len() && st.listing[row].1 {
            match st.dirsizes.get(&row) {
                Some(known) => {
                    answered.push((row, known.0, known.1));
                },
                None => {
                    if !queue_has(&st.dirsize_queue, row) && !st.dirsize_worker.contains(row) {
                        st.dirsize_queue.push(row);
                    }
                },
            }
        }
        i = i + 1;
    }
    assert(rows@.take(i as int) =~= rows@);
    answered
}

/// The event loop hands out one bounded batch at a time: nothing while the worker is busy or nothing
/// waits; otherwise every waiting row that is still a folder goes to the worker at once, and the job
/// to hand it is returned.
pub fn start_next(st: &mut State) -> (job: Option<Job>)
    ensures
        final(st).listing == old(st).listing,
        final(st).base == old(st).base,
        final(st).dirsizes@ == old(st).dirsizes@,
        old(st).dirsize_worker@.1 is Some || old(st).dirsize_queue@.len() == 0 ==> {
            &&& job is None
            &&& final(st).dirsize_queue@ == old(st).dirsize_queue@
            &&& final(st).dirsize_worker@ == old(st).dirsize_worker@
        },
        !(old(st).dirsize_worker@.1 is Some || old(st).dirsize_queue@.len() == 0) ==> {
            let rows = batch_rows(old(st).listing@, old(st).base@, old(st).dirsize_queue@);
            &&& final(st).dirsize_queue@.len() == 0
            &&& final(st).dirsize_worker@ == started(old(st).dirsize_worker@, rows)
            &&& job_view(job) == job_of(old(st).dirsize_worker@, rows)
        },
{
    if st.dirsize_worker.busy() || st.dirsize_queue.len() == 0 {
        return None;
    }
    let mut queued: Vec<usize> = Vec::new();
    std::mem::swap(&mut queued, &mut st.dirsize_queue);
    let mut rows: Vec<(usize, String)> = Vec::new();
    let mut i: usize = 0;
    assert(queued@.take(0) =~= Seq::<usize>::empty());
    assert(crate::dirsizeworker::job_rows(rows@) =~= Seq::<(usize, Seq<char>)>::empty());
    while i < queued.len()
        invariant
            i <= queued.len(),
            crate::dirsizeworker::job_rows(rows@) == batch_rows(st.listing@, st.base@, queued@.take(i as int)),
        decreases queued.len() - i,
    {
        let row = queued[i];
        assert(queued@.take(i + 1).drop_last() =~= queued@.take(i as int));
        assert(queued@.take(i + 1).last() == row);
        if row < st.listing.len() && st.listing[row].1 {
            let path = join(st.base.as_str(), st.listing[row].0.as_str());
            let ghost before = rows@;
            rows.push((row, path));
            assert(crate::dirsizeworker::job_rows(rows@) =~= crate::dirsizeworker::job_rows(before).push(
                (row, path@),
            ));
        }
        i = i + 1;
    }
    assert(queued@.take(i as int) =~= queued@);
    st.dirsize_worker.start(rows)
}

/// A listing's own walk seeds the sizes it finished; a folder the sort budget cut off seeds nothing, so
/// the worker still walks it properly.
pub fn seed_answered(st: &mut State, sized: &[Option<DirSize>])
    ensures
        final(st).dirsizes@ == seeded(old(st).dirsizes@, sized@, sized@.len()),
        final(st).listing == old(st).listing,
        final(st).base == old(st).base,
        final(st).dirsize_queue@ == old(st).dirsize_queue@,
        final(st).dirsize_worker@ == old(st).dirsize_worker@,
{
    let ghost start = st.dirsizes@;
    let ghost l0 = st.listing;
    let ghost b0 = st.base;
    let ghost q0 = st.dirsize_queue@;
    let ghost w0 = st.dirsize_worker@;
    let mut row: usize = 0;
    while row < sized.len()
        invariant
            row <= sized.len(),
            st.listing == l0,
            st.base == b0,
            st.dirsize_queue@ == q0,
            st.dirsize_worker@ == w0,
            st.dirsizes@ == seeded(start, sized@, row as nat),
        decreases sized.len() - row,
    {
        match sized[row] {
            Some(size) => {
                if !size.partial {
                    st.dirsizes.insert(row, (size.bytes, size.partial));
                }
            },
            None => {},
        }
        row = row + 1;
    }
}

/// A completion is published only when the worker takes it back in the numbering in force; even a
/// cancelled one frees its row. Returns whether it was published, its size then being known.
pub fn report_done(st: &mut State, generation: u64, row: usize, result: DirSize) -> (published: bool)
    ensures
        published == publishes(old(st).dirsize_worker@, generation, row),
        final(st).dirsize_worker@ == after_done(old(st).dirsize_worker@, generation, row),
        final(st).dirsizes@ == (if published {
            old(st).dirsizes@.insert(row, (result.bytes, result.partial))
        } else {
            old(st).dirsizes@
        }),
        final(st).listing == old(st).listing,
        final(st).dirsize_queue@ == old(st).dirsize_queue@,
{
    if !st.dirsize_worker.accept(generation, row) {
        return false;
    }
    st.dirsizes.insert(row, (result.bytes, result.partial));
    true
}

} // verus!
