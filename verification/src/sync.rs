//! One resource class of the deadlock detector, shared by the mutex
//! class and the semaphore class.
//!
//! A class holds a slot list of live objects and the Banker's
//! bookkeeping: per-slot total capacity and free units, and per-thread
//! allocation and need matrices.  A mutex is an object of capacity 1; a
//! semaphore an object of capacity equal to its initial count.  The
//! class invariant ties them together: free plus held units always equal
//! the capacity, and a unit of need is exactly one thread parked on the
//! slot.

use crate::banker::{bank_safe, banker_safe, col_total, matrix_wf, to_int_row};
use crate::task::{TaskControlBlock, TaskStatus};
use vstd::prelude::*;

verus! {

/// Error returned when the detector finds that granting a request could
/// deadlock.
pub const DEADLOCK_ERR: isize = -0xDEAD;

/// One resource class: the slot list (the stored flag is the blocking
/// tag of a mutex; semaphores always carry `true`) and the detector's
/// bookkeeping vectors.
pub struct SyncClass {
    pub slots: Vec<Option<bool>>,
    pub capacity: Vec<usize>,
    pub available: Vec<usize>,
    pub allocation: Vec<Vec<usize>>,
    pub need: Vec<Vec<usize>>,
}

/// The matrices seen abstractly.
pub open spec fn mat_set(m: Seq<Seq<usize>>, t: int, r: int, v: usize) -> Seq<Seq<usize>> {
    m.update(t, m[t].update(r, v))
}

/// Bridge between the two views of a matrix: element [t][r] of the deep
/// view is element [t][r] of the nested vectors.
pub broadcast proof fn lemma_vec2_deep_view(m: Vec<Vec<usize>>)
    ensures
        (#[trigger] m.deep_view()).len() == m@.len(),
        forall|i: int| 0 <= i < m@.len() ==> m.deep_view()[i] == m@[i]@,
{
    assert forall|i: int| 0 <= i < m@.len() implies m.deep_view()[i] == m@[i]@ by {
        assert(m.deep_view()[i] =~= m@[i]@);
    }
}

/// Two matrices of the same height agree on column `j` cell by cell, so
/// they agree on its total.
pub proof fn lemma_col_total_pointwise(m1: Seq<Seq<usize>>, m2: Seq<Seq<usize>>, j: int)
    requires
        m1.len() == m2.len(),
        forall|t: int| 0 <= t < m1.len() ==> (#[trigger] m1[t])[j] == m2[t][j],
    ensures
        col_total(m1, j) == col_total(m2, j),
    decreases m1.len(),
{
    if m1.len() > 0 {
        lemma_col_total_pointwise(m1.drop_last(), m2.drop_last(), j);
    }
}

/// A column of zeroes totals zero.
pub proof fn lemma_col_total_zero(m: Seq<Seq<usize>>, j: int)
    requires
        forall|t: int| 0 <= t < m.len() ==> (#[trigger] m[t])[j] == 0,
    ensures
        col_total(m, j) == 0,
    decreases m.len(),
{
    if m.len() > 0 {
        lemma_col_total_zero(m.drop_last(), j);
    }
}

/// Changing one cell of column `j` moves its total by the difference.
pub proof fn lemma_col_total_update(m: Seq<Seq<usize>>, t: int, j: int, v: usize)
    requires
        0 <= t < m.len(),
        0 <= j < m[t].len(),
    ensures
        col_total(mat_set(m, t, j, v), j) == col_total(m, j) - m[t][j] + v,
    decreases m.len(),
{
    let m2 = mat_set(m, t, j, v);
    if t == m.len() - 1 {
        assert(m2.drop_last() =~= m.drop_last());
        assert(m2.last() == m[t].update(j, v));
    } else {
        assert(m2.drop_last() =~= mat_set(m.drop_last(), t, j, v));
        assert(m2.last() == m.last());
        lemma_col_total_update(m.drop_last(), t, j, v);
    }
}

/// One cell never exceeds its column's total, and totals are never
/// negative.
pub proof fn lemma_cell_le_col_total(m: Seq<Seq<usize>>, t: int, j: int)
    requires
        0 <= t < m.len(),
    ensures
        col_total(m, j) >= m[t][j],
        col_total(m, j) >= 0,
    decreases m.len(),
{
    if t == m.len() - 1 {
        lemma_col_total_nonneg(m.drop_last(), j);
    } else {
        lemma_cell_le_col_total(m.drop_last(), t, j);
    }
}

/// Column totals of unsigned cells are non-negative.
pub proof fn lemma_col_total_nonneg(m: Seq<Seq<usize>>, j: int)
    ensures
        col_total(m, j) >= 0,
    decreases m.len(),
{
    if m.len() > 0 {
        lemma_col_total_nonneg(m.drop_last(), j);
    }
}

/// The class invariant, for a process with `n_threads` thread slots.
pub open spec fn class_wf(sc: SyncClass, n_threads: int) -> bool {
    let cols = sc.slots@.len() as int;
    let adv = sc.allocation.deep_view();
    let ndv = sc.need.deep_view();
    &&& sc.capacity@.len() == cols
    &&& sc.available@.len() == cols
    &&& sc.allocation@.len() == n_threads
    &&& sc.need@.len() == n_threads
    &&& matrix_wf(adv, cols)
    &&& matrix_wf(ndv, cols)
    // conservation: free plus held units equal the capacity
    &&& forall|r: int|
        0 <= r < cols ==> sc.available@[r] + col_total(adv, r) == sc.capacity@[r]
    // a thread has at most one outstanding request per slot
    &&& forall|t: int, r: int|
        0 <= t < n_threads && 0 <= r < cols ==> (#[trigger] ndv[t][r]) <= 1
    // nobody waits while units are free
    &&& forall|t: int, r: int|
        0 <= t < n_threads && 0 <= r < cols && (#[trigger] ndv[t][r]) >= 1 ==> sc.available@[r]
            == 0
    // an empty slot carries no units and no waiters
    &&& forall|t: int, r: int|
        0 <= t < n_threads && 0 <= r < cols && sc.slots@[r] is None ==> (#[trigger] ndv[t][r])
            == 0
    &&& forall|t: int, r: int|
        0 <= t < n_threads && 0 <= r < cols && sc.slots@[r] is None ==> (#[trigger] adv[t][r])
            == 0
    &&& forall|r: int|
        0 <= r < cols && sc.slots@[r] is None ==> sc.available@[r] == sc.capacity@[r]
}

impl SyncClass {
    /// An empty class for a process with `n_threads` thread slots.
    pub fn empty(n_threads: usize) -> (r: SyncClass)
        ensures
            class_wf(r, n_threads as int),
            r.slots@.len() == 0,
            r.allocation@.len() == n_threads,
            r.need@.len() == n_threads,
            forall|t: int| 0 <= t < n_threads ==> (#[trigger] r.allocation.deep_view()[t]).len()
                == 0,
            forall|t: int| 0 <= t < n_threads ==> (#[trigger] r.need.deep_view()[t]).len() == 0,
    {
        let mut allocation: Vec<Vec<usize>> = Vec::new();
        let mut need: Vec<Vec<usize>> = Vec::new();
        let mut t: usize = 0;
        while t < n_threads
            invariant
                t <= n_threads,
                allocation@.len() == t,
                need@.len() == t,
                forall|i: int| 0 <= i < t ==> (#[trigger] allocation@[i])@.len() == 0,
                forall|i: int| 0 <= i < t ==> (#[trigger] need@[i])@.len() == 0,
            decreases n_threads - t,
        {
            allocation.push(Vec::new());
            need.push(Vec::new());
            t = t + 1;
        }
        let r = SyncClass {
            slots: Vec::new(),
            capacity: Vec::new(),
            available: Vec::new(),
            allocation,
            need,
        };
        proof {
            lemma_vec2_deep_view(r.allocation);
            lemma_vec2_deep_view(r.need);
        }
        r
    }

    /// Add a zeroed row for a newly created thread.
    pub fn add_thread_row(&mut self)
        requires
            class_wf(*old(self), old(self).allocation@.len() as int),
        ensures
            class_wf(*final(self), old(self).allocation@.len() as int + 1),
            final(self).slots@ == old(self).slots@,
            final(self).capacity@ == old(self).capacity@,
            final(self).available@ == old(self).available@,
            final(self).allocation.deep_view() == old(self).allocation.deep_view().push(
                Seq::new(old(self).slots@.len() as nat, |j: int| 0usize),
            ),
            final(self).need.deep_view() == old(self).need.deep_view().push(
                Seq::new(old(self).slots@.len() as nat, |j: int| 0usize),
            ),
    {
        proof {
            lemma_vec2_deep_view(self.allocation);
            lemma_vec2_deep_view(self.need);
        }
        let cols = self.slots.len();
        let zrow: Vec<usize> = vec![0usize; cols];
        let zrow2: Vec<usize> = vec![0usize; cols];
        assert(zrow@ =~= Seq::new(cols as nat, |j: int| 0usize));
        assert(zrow2@ =~= Seq::new(cols as nat, |j: int| 0usize));
        self.allocation.push(zrow);
        self.need.push(zrow2);
        proof {
            lemma_vec2_deep_view(self.allocation);
            lemma_vec2_deep_view(self.need);
            assert(self.allocation.deep_view() =~= old(self).allocation.deep_view().push(
                Seq::new(old(self).slots@.len() as nat, |j: int| 0usize),
            ));
            assert(self.need.deep_view() =~= old(self).need.deep_view().push(
                Seq::new(old(self).slots@.len() as nat, |j: int| 0usize),
            ));
            let adv = self.allocation.deep_view();
            let ndv = self.need.deep_view();
            let oadv = old(self).allocation.deep_view();
            let ondv = old(self).need.deep_view();
            let cols = self.slots@.len() as int;
            let n = old(self).allocation@.len() as int;
            assert forall|r: int| 0 <= r < cols implies self.available@[r] + col_total(adv, r)
                == self.capacity@[r] by {
                assert(adv.drop_last() =~= oadv);
                assert(adv.last()[r] == 0);
            }
            assert forall|t: int, r: int| 0 <= t < n + 1 && 0 <= r < cols implies (#[trigger] ndv[t][r])
                <= 1 && ((#[trigger] ndv[t][r]) >= 1 ==> self.available@[r] == 0) by {
                if t < n {
                    assert(ndv[t] == ondv[t]);
                    assert(ondv[t][r] <= 1);
                } else {
                    assert(ndv[t][r] == 0);
                }
            }
            assert forall|t: int, r: int|
                0 <= t < n + 1 && 0 <= r < cols && self.slots@[r] is None implies (
            #[trigger] ndv[t][r]) == 0 && (#[trigger] adv[t][r]) == 0 by {
                if t < n {
                    assert(ndv[t] == ondv[t]);
                    assert(adv[t] == oadv[t]);
                    assert(ondv[t][r] == 0 && oadv[t][r] == 0);
                } else {
                    assert(ndv[t][r] == 0 && adv[t][r] == 0);
                }
            }
        }
    }
}

/// Largest slot count the model accepts, so a slot id is always
/// representable as a non-negative `isize`.
pub const ID_LIMIT: usize = 0x7FFF_FFFF;

/// The matrix with a zeroed column appended to every row.
pub open spec fn mat_push_zero_col(m: Seq<Seq<usize>>) -> Seq<Seq<usize>> {
    Seq::new(m.len(), |t: int| m[t].push(0usize))
}

/// Law: units are conserved.  Under the class invariant — which every
/// operation of the class establishes and preserves — the free units
/// of a resource plus the units held by all threads together always
/// equal its capacity.  Acquisitions and releases move units around;
/// they never create or destroy one.
pub proof fn lemma_units_conserved(sc: SyncClass, n_threads: int, r: int)
    requires
        class_wf(sc, n_threads),
        0 <= r < sc.slots@.len(),
    ensures
        sc.available@[r] + col_total(sc.allocation.deep_view(), r) == sc.capacity@[r],
{
}

/// What a blocking acquisition does: refused for an unknown slot (-1)
/// or, under detection, for a request whose grant could deadlock
/// ([`DEADLOCK_ERR`]); otherwise 0, with a free unit taken at once or
/// the thread parked on the slot as one unit of need.
pub open spec fn acquire_outcome(
    oldc: SyncClass,
    oldt: Seq<Option<TaskControlBlock>>,
    newc: SyncClass,
    newt: Seq<Option<TaskControlBlock>>,
    detect: bool,
    tid: int,
    id: int,
    r: isize,
) -> bool {
    let cols = oldc.slots@.len() as int;
    let adv = oldc.allocation.deep_view();
    let ndv = oldc.need.deep_view();
    let valid = id < cols && oldc.slots@[id] is Some;
    let safe = bank_safe(
        to_int_row(oldc.available@),
        adv,
        mat_set(ndv, tid, id, 1),
        Seq::new(oldt.len(), |i: int| false),
    );
    &&& (r == -1 || r == 0 || r == DEADLOCK_ERR)
    &&& ((r == -1) <==> !valid)
    &&& ((r == DEADLOCK_ERR) <==> (valid && detect && !safe))
    &&& ((r == 0) <==> (valid && (!detect || safe)))
    &&& (r != 0 ==> newc == oldc && newt == oldt)
    &&& ((r == 0 && oldc.available@[id] > 0) ==> {
        &&& newc.available@ == oldc.available@.update(id, (oldc.available@[id] - 1) as usize)
        &&& newc.allocation.deep_view() == mat_set(adv, tid, id, (adv[tid][id] + 1) as usize)
        &&& newc.need.deep_view() == ndv
        &&& newc.slots@ == oldc.slots@
        &&& newc.capacity@ == oldc.capacity@
        &&& newt == oldt
    })
    &&& ((r == 0 && oldc.available@[id] == 0) ==> {
        &&& newc.available@ == oldc.available@
        &&& newc.allocation.deep_view() == adv
        &&& newc.need.deep_view() == mat_set(ndv, tid, id, 1)
        &&& newc.slots@ == oldc.slots@
        &&& newc.capacity@ == oldc.capacity@
        &&& newt == oldt.update(
            tid,
            Some(
                (TaskControlBlock {
                    task_status: TaskStatus::Blocked,
                    ..oldt[tid].unwrap()
                }),
            ),
        )
    })
}

/// What a release does: refused (-1) for an unknown slot or a unit the
/// thread does not hold; otherwise 0, the unit passing to the
/// lowest-numbered parked thread (waking it) or back to the free pool.
pub open spec fn release_outcome(
    oldc: SyncClass,
    oldt: Seq<Option<TaskControlBlock>>,
    newc: SyncClass,
    newt: Seq<Option<TaskControlBlock>>,
    tid: int,
    id: int,
    r: isize,
) -> bool {
    let n = oldt.len() as int;
    let cols = oldc.slots@.len() as int;
    let adv = oldc.allocation.deep_view();
    let ndv = oldc.need.deep_view();
    let held = id < cols && oldc.slots@[id] is Some && adv[tid][id] >= 1;
    let adv1 = mat_set(adv, tid, id, (adv[tid][id] - 1) as usize);
    &&& (r == -1 || r == 0)
    &&& ((r == 0) <==> held)
    &&& (r == -1 ==> newc == oldc && newt == oldt)
    &&& (r == 0 ==> newc.slots@ == oldc.slots@ && newc.capacity@ == oldc.capacity@)
    &&& ((r == 0 && (exists|w: int| 0 <= w < n && (#[trigger] ndv[w])[id] >= 1)) ==> (exists|
        w: int,
    |
        {
            &&& 0 <= w < n
            &&& (#[trigger] ndv[w])[id] >= 1
            &&& (forall|w2: int| 0 <= w2 < w ==> ndv[w2][id] == 0)
            &&& newc.need.deep_view() == mat_set(ndv, w, id, (ndv[w][id] - 1) as usize)
            &&& newc.allocation.deep_view() == mat_set(adv1, w, id, (adv1[w][id] + 1) as usize)
            &&& newc.available@ == oldc.available@
            &&& newt == oldt.update(
                w,
                Some(
                    (TaskControlBlock { task_status: TaskStatus::Ready, ..oldt[w].unwrap() }),
                ),
            )
        }))
    &&& ((r == 0 && !(exists|w: int| 0 <= w < n && (#[trigger] ndv[w])[id] >= 1)) ==> {
        &&& newc.need.deep_view() == ndv
        &&& newc.allocation.deep_view() == adv1
        &&& newc.available@ == oldc.available@.update(id, (oldc.available@[id] + 1) as usize)
        &&& newt == oldt
    })
}

/// What handing a freed mutex to a signalled waiter does: a free unit
/// is taken at once (the thread becomes ready), or the thread parks on
/// the slot as one unit of need.
pub open spec fn grant_outcome(
    oldc: SyncClass,
    oldt: Seq<Option<TaskControlBlock>>,
    newc: SyncClass,
    newt: Seq<Option<TaskControlBlock>>,
    tid: int,
    id: int,
) -> bool {
    let adv = oldc.allocation.deep_view();
    let ndv = oldc.need.deep_view();
    &&& newc.slots@ == oldc.slots@
    &&& newc.capacity@ == oldc.capacity@
    &&& (oldc.available@[id] > 0 ==> {
        &&& newc.available@ == oldc.available@.update(id, (oldc.available@[id] - 1) as usize)
        &&& newc.allocation.deep_view() == mat_set(adv, tid, id, (adv[tid][id] + 1) as usize)
        &&& newc.need.deep_view() == ndv
        &&& newt == oldt.update(
            tid,
            Some((TaskControlBlock { task_status: TaskStatus::Ready, ..oldt[tid].unwrap() })),
        )
    })
    &&& (oldc.available@[id] == 0 ==> {
        &&& newc.available@ == oldc.available@
        &&& newc.allocation.deep_view() == adv
        &&& newc.need.deep_view() == mat_set(ndv, tid, id, 1)
        &&& newt == oldt
    })
}

/// Copy a row of counters.
fn row_copy(v: &Vec<usize>) -> (r: Vec<usize>)
    ensures
        r@ == v@,
{
    let mut r: Vec<usize> = Vec::new();
    let n = v.len();
    let mut i: usize = 0;
    while i < n
        invariant
            i <= n,
            n == v@.len(),
            r@ =~= v@.subrange(0, i as int),
        decreases n - i,
    {
        r.push(v[i]);
        assert(r@ =~= v@.subrange(0, i + 1));
        i = i + 1;
    }
    assert(r@ =~= v@);
    r
}

/// The need matrix with the caller's tentative request added.
fn matrix_bump(m: &Vec<Vec<usize>>, t: usize, r: usize) -> (out: Vec<Vec<usize>>)
    requires
        t < m@.len(),
        r < m@[t as int]@.len(),
        m@[t as int]@[r as int] < usize::MAX,
    ensures
        out.deep_view() == mat_set(
            m.deep_view(),
            t as int,
            r as int,
            (m.deep_view()[t as int][r as int] + 1) as usize,
        ),
{
    proof {
        lemma_vec2_deep_view(*m);
    }
    let mut out: Vec<Vec<usize>> = Vec::new();
    let n = m.len();
    let mut i: usize = 0;
    while i < n
        invariant
            i <= n,
            n == m@.len(),
            out@.len() == i,
            forall|k: int| 0 <= k < i ==> (#[trigger] out@[k])@ == m@[k]@,
        decreases n - i,
    {
        out.push(row_copy(&m[i]));
        i = i + 1;
    }
    let old_cell = out[t][r];
    out[t][r] = old_cell + 1;
    proof {
        lemma_vec2_deep_view(*m);
        lemma_vec2_deep_view(out);
        assert(out.deep_view() =~= mat_set(
            m.deep_view(),
            t as int,
            r as int,
            (m.deep_view()[t as int][r as int] + 1) as usize,
        ));
    }
    out
}

/// Find the thread with the smallest id waiting on slot `id`, if any.
fn find_waiter(need: &Vec<Vec<usize>>, id: usize) -> (r: Option<usize>)
    requires
        forall|t: int| 0 <= t < need@.len() ==> id < (#[trigger] need@[t])@.len(),
    ensures
        match r {
            Some(w) => 0 <= w < need@.len() && need.deep_view()[w as int][id as int] >= 1
                && forall|w2: int| 0 <= w2 < w ==> need.deep_view()[w2][id as int] == 0,
            None => forall|w: int|
                0 <= w < need@.len() ==> need.deep_view()[w][id as int] == 0,
        },
{
    proof {
        lemma_vec2_deep_view(*need);
    }
    let n = need.len();
    let mut w: usize = 0;
    while w < n
        invariant
            w <= n,
            n == need@.len(),
            forall|t: int| 0 <= t < need@.len() ==> id < (#[trigger] need@[t])@.len(),
            forall|w2: int| 0 <= w2 < w ==> need.deep_view()[w2][id as int] == 0,
        decreases n - w,
    {
        if need[w][id] >= 1 {
            proof {
                lemma_vec2_deep_view(*need);
            }
            return Some(w);
        }
        proof {
            lemma_vec2_deep_view(*need);
        }
        w = w + 1;
    }
    None
}

impl SyncClass {
    /// Create an object with `units` total units (a mutex has 1; a
    /// semaphore its initial count) and the given blocking tag,
    /// reusing the first empty slot or appending a new one.  Returns
    /// the slot id.
    pub fn class_create(&mut self, tag: bool, units: usize) -> (id: usize)
        requires
            class_wf(*old(self), old(self).allocation@.len() as int),
            old(self).slots@.len() < ID_LIMIT,
        ensures
            class_wf(*final(self), old(self).allocation@.len() as int),
            final(self).allocation@.len() == old(self).allocation@.len(),
            id < ID_LIMIT,
            final(self).slots@.len() >= old(self).slots@.len(),
            id < final(self).slots@.len(),
            final(self).slots@[id as int] == Some(tag),
            final(self).capacity@[id as int] == units,
            final(self).available@[id as int] == units,
            ({
                let cols = old(self).slots@.len() as int;
                &&& ((exists|j: int| 0 <= j < cols && old(self).slots@[j] is None) ==> {
                    &&& (id as int) < cols
                    &&& old(self).slots@[id as int] is None
                    &&& (forall|j: int| 0 <= j < id ==> old(self).slots@[j] is Some)
                    &&& final(self).slots@ == old(self).slots@.update(id as int, Some(tag))
                    &&& final(self).capacity@ == old(self).capacity@.update(id as int, units)
                    &&& final(self).available@ == old(self).available@.update(id as int, units)
                    &&& final(self).allocation.deep_view() == old(self).allocation.deep_view()
                    &&& final(self).need.deep_view() == old(self).need.deep_view()
                })
                &&& (!(exists|j: int| 0 <= j < cols && old(self).slots@[j] is None) ==> {
                    &&& id as int == cols
                    &&& final(self).slots@ == old(self).slots@.push(Some(tag))
                    &&& final(self).capacity@ == old(self).capacity@.push(units)
                    &&& final(self).available@ == old(self).available@.push(units)
                    &&& final(self).allocation.deep_view() == mat_push_zero_col(
                        old(self).allocation.deep_view(),
                    )
                    &&& final(self).need.deep_view() == mat_push_zero_col(
                        old(self).need.deep_view(),
                    )
                })
            }),
    {
        proof {
            lemma_vec2_deep_view(self.allocation);
            lemma_vec2_deep_view(self.need);
        }
        let cols = self.slots.len();
        let n = self.allocation.len();
        let mut free: Option<usize> = None;
        let mut j: usize = 0;
        while j < cols
            invariant
                j <= cols,
                cols == self.slots@.len(),
                self == old(self),
                match free {
                    Some(f) => 0 <= f < j && self.slots@[f as int] is None && forall|j2: int|
                        0 <= j2 < f ==> self.slots@[j2] is Some,
                    None => forall|j2: int| 0 <= j2 < j ==> self.slots@[j2] is Some,
                },
            decreases cols - j,
        {
            if free.is_none() && self.slots[j].is_none() {
                free = Some(j);
                j = cols;
            } else {
                j = j + 1;
            }
        }
        match free {
            Some(f) => {
                self.slots[f] = Some(tag);
                self.capacity[f] = units;
                self.available[f] = units;
                proof {
                    lemma_vec2_deep_view(self.allocation);
                    lemma_vec2_deep_view(self.need);
                    let adv = self.allocation.deep_view();
                    assert forall|t: int| 0 <= t < n implies (#[trigger] adv[t])[f as int]
                        == 0 by {
                        assert(old(self).allocation.deep_view()[t][f as int] == 0);
                    }
                    lemma_col_total_zero(adv, f as int);
                    assert forall|r: int| 0 <= r < cols implies self.available@[r] + col_total(
                        adv,
                        r,
                    ) == self.capacity@[r] by {
                        if r != f {
                            assert(old(self).available@[r] + col_total(adv, r) == old(
                                self,
                            ).capacity@[r]);
                        }
                    }
                }
                f
            },
            None => {
                self.slots.push(Some(tag));
                self.capacity.push(units);
                self.available.push(units);
                let mut t: usize = 0;
                let ghost oadv = old(self).allocation.deep_view();
                let ghost ondv = old(self).need.deep_view();
                while t < n
                    invariant
                        t <= n,
                        n == self.allocation@.len(),
                        n == self.need@.len(),
                        oadv.len() == n,
                        ondv.len() == n,
                        self.slots@ == old(self).slots@.push(Some(tag)),
                        self.capacity@ == old(self).capacity@.push(units),
                        self.available@ == old(self).available@.push(units),
                        forall|k: int| 0 <= k < n ==> oadv[k] == old(self).allocation@[k]@,
                        forall|k: int| 0 <= k < n ==> ondv[k] == old(self).need@[k]@,
                        forall|k: int| 0 <= k < t ==> (#[trigger] self.allocation@[k])@ == oadv[k].push(0usize),
                        forall|k: int| t <= k < n ==> (#[trigger] self.allocation@[k])@ == oadv[k],
                        forall|k: int| 0 <= k < t ==> (#[trigger] self.need@[k])@ == ondv[k].push(0usize),
                        forall|k: int| t <= k < n ==> (#[trigger] self.need@[k])@ == ondv[k],
                    decreases n - t,
                {
                    self.allocation[t].push(0);
                    self.need[t].push(0);
                    t = t + 1;
                }
                proof {
                    lemma_vec2_deep_view(self.allocation);
                    lemma_vec2_deep_view(self.need);
                    let adv = self.allocation.deep_view();
                    let ndv = self.need.deep_view();
                    assert(adv =~= mat_push_zero_col(oadv));
                    assert(ndv =~= mat_push_zero_col(ondv));
                    let newcol = cols as int;
                    assert forall|r: int| 0 <= r < cols + 1 implies self.available@[r]
                        + col_total(adv, r) == self.capacity@[r] by {
                        if r < cols {
                            lemma_col_total_pointwise(adv, oadv, r);
                            assert(old(self).available@[r] + col_total(oadv, r) == old(
                                self,
                            ).capacity@[r]);
                        } else {
                            assert(forall|t2: int| 0 <= t2 < n ==> (#[trigger] adv[t2])[r] == 0);
                            lemma_col_total_zero(adv, r);
                        }
                    }
                    assert(class_wf(*self, n as int));
                }
                cols
            },
        }
    }

    /// Request one unit of slot `id` for the running thread `tid`:
    /// `mutex_lock` and `semaphore_down` both come here.  An unknown id
    /// is refused with -1.  With detection on, a request whose grant
    /// could deadlock is refused with [`DEADLOCK_ERR`] before anything
    /// blocks.  Otherwise the unit is taken when one is free, or the
    /// thread parks on the slot (status `Blocked`, one unit of need)
    /// until a release hands a unit over; either way the call reports 0.
    pub fn class_acquire(
        &mut self,
        threads: &mut Vec<Option<TaskControlBlock>>,
        tid: usize,
        id: usize,
        detect: bool,
    ) -> (r: isize)
        requires
            class_wf(*old(self), old(threads)@.len() as int),
            tid < old(threads)@.len(),
            old(threads)@[tid as int] is Some,
            old(threads)@[tid as int].unwrap().task_status == TaskStatus::Running,
            forall|r2: int|
                0 <= r2 < old(self).slots@.len() ==> old(self).need.deep_view()[tid as int][r2]
                    == 0,
        ensures
            class_wf(*final(self), old(threads)@.len() as int),
            final(threads)@.len() == old(threads)@.len(),
            acquire_outcome(
                *old(self),
                old(threads)@,
                *final(self),
                final(threads)@,
                detect,
                tid as int,
                id as int,
                r,
            ),
    {
        proof {
            lemma_vec2_deep_view(self.allocation);
            lemma_vec2_deep_view(self.need);
        }
        let cols = self.slots.len();
        if id >= cols {
            return -1;
        }
        if self.slots[id].is_none() {
            return -1;
        }
        if detect {
            proof {
                assert(self.need.deep_view()[tid as int] == self.need@[tid as int]@);
                assert(self.need@[tid as int]@.len() == cols as int);
                assert(self.need@[tid as int]@[id as int] == 0);
            }
            let need2 = matrix_bump(&self.need, tid, id);
            proof {
                lemma_vec2_deep_view(need2);
                lemma_vec2_deep_view(self.allocation);
                lemma_vec2_deep_view(self.need);
                assert(need2@.len() == self.allocation@.len());
                assert(matrix_wf(need2.deep_view(), self.available@.len() as int));
                assert forall|j: int| 0 <= j < self.available@.len() implies self.available@[j]
                    + col_total(self.allocation.deep_view(), j) <= usize::MAX by {
                    assert(self.available@[j] + col_total(self.allocation.deep_view(), j)
                        == self.capacity@[j]);
                }
            }
            let ok = banker_safe(&self.available, &self.allocation, &need2);
            if !ok {
                return DEADLOCK_ERR;
            }
        }
        let av = self.available[id];
        if av > 0 {
            proof {
                lemma_cell_le_col_total(self.allocation.deep_view(), tid as int, id as int);
                assert(self.available@[id as int] + col_total(
                    self.allocation.deep_view(),
                    id as int,
                ) == self.capacity@[id as int]);
                assert(self.allocation.deep_view()[tid as int] == self.allocation@[tid as int]@);
            }
            self.available[id] = av - 1;
            let a = self.allocation[tid][id];
            self.allocation[tid][id] = a + 1;
            proof {
                lemma_vec2_deep_view(self.allocation);
                let adv = old(self).allocation.deep_view();
                let adv2 = self.allocation.deep_view();
                assert(adv2 =~= mat_set(adv, tid as int, id as int, (a + 1) as usize));
                lemma_col_total_update(adv, tid as int, id as int, (a + 1) as usize);
                assert forall|r2: int| 0 <= r2 < cols implies self.available@[r2] + col_total(
                    adv2,
                    r2,
                ) == self.capacity@[r2] by {
                    if r2 != id {
                        lemma_col_total_pointwise(adv2, adv, r2);
                    }
                }
                assert(class_wf(*self, old(threads)@.len() as int));
            }
            0
        } else {
            self.need[tid][id] = 1;
            match &mut threads[tid] {
                Some(tc) => {
                    tc.task_status = TaskStatus::Blocked;
                },
                None => {},
            }
            proof {
                lemma_vec2_deep_view(self.need);
                let ndv = old(self).need.deep_view();
                let ndv2 = self.need.deep_view();
                assert(ndv2 =~= mat_set(ndv, tid as int, id as int, 1));
                assert(final(threads)@ =~= old(threads)@.update(
                    tid as int,
                    Some(
                        (TaskControlBlock {
                            task_status: TaskStatus::Blocked,
                            ..old(threads)@[tid as int].unwrap()
                        }),
                    ),
                ));
                assert(class_wf(*self, old(threads)@.len() as int));
            }
            0
        }
    }

    /// Hand one unit of slot `id` to the parked thread `tid` that a
    /// `condvar_signal` has just woken: take a free unit if there is
    /// one (the thread becomes ready), else park the thread on the
    /// slot as one unit of need.
    pub fn class_grant_or_wait(
        &mut self,
        threads: &mut Vec<Option<TaskControlBlock>>,
        tid: usize,
        id: usize,
    )
        requires
            class_wf(*old(self), old(threads)@.len() as int),
            tid < old(threads)@.len(),
            old(threads)@[tid as int] is Some,
            (id as int) < old(self).slots@.len(),
            old(self).slots@[id as int] is Some,
            forall|r2: int|
                0 <= r2 < old(self).slots@.len() ==> old(self).need.deep_view()[tid as int][r2]
                    == 0,
        ensures
            class_wf(*final(self), old(threads)@.len() as int),
            final(threads)@.len() == old(threads)@.len(),
            grant_outcome(
                *old(self),
                old(threads)@,
                *final(self),
                final(threads)@,
                tid as int,
                id as int,
            ),
    {
        proof {
            lemma_vec2_deep_view(self.allocation);
            lemma_vec2_deep_view(self.need);
        }
        let cols = self.slots.len();
        let av = self.available[id];
        if av > 0 {
            proof {
                lemma_cell_le_col_total(self.allocation.deep_view(), tid as int, id as int);
                assert(self.available@[id as int] + col_total(
                    self.allocation.deep_view(),
                    id as int,
                ) == self.capacity@[id as int]);
                assert(self.allocation.deep_view()[tid as int] == self.allocation@[tid as int]@);
            }
            self.available[id] = av - 1;
            let a = self.allocation[tid][id];
            self.allocation[tid][id] = a + 1;
            match &mut threads[tid] {
                Some(tc) => {
                    tc.task_status = TaskStatus::Ready;
                },
                None => {},
            }
            proof {
                lemma_vec2_deep_view(self.allocation);
                let adv = old(self).allocation.deep_view();
                let adv2 = self.allocation.deep_view();
                assert(adv2 =~= mat_set(adv, tid as int, id as int, (a + 1) as usize));
                lemma_col_total_update(adv, tid as int, id as int, (a + 1) as usize);
                assert forall|r2: int| 0 <= r2 < cols implies self.available@[r2] + col_total(
                    adv2,
                    r2,
                ) == self.capacity@[r2] by {
                    if r2 != id {
                        lemma_col_total_pointwise(adv2, adv, r2);
                    }
                }
                assert(final(threads)@ =~= old(threads)@.update(
                    tid as int,
                    Some(
                        (TaskControlBlock {
                            task_status: TaskStatus::Ready,
                            ..old(threads)@[tid as int].unwrap()
                        }),
                    ),
                ));
                assert(class_wf(*self, old(threads)@.len() as int));
            }
        } else {
            proof {
                assert(self.need.deep_view()[tid as int] == self.need@[tid as int]@);
            }
            self.need[tid][id] = 1;
            proof {
                lemma_vec2_deep_view(self.need);
                let ndv = old(self).need.deep_view();
                let ndv2 = self.need.deep_view();
                assert(ndv2 =~= mat_set(ndv, tid as int, id as int, 1));
                assert(class_wf(*self, old(threads)@.len() as int));
            }
        }
    }

    /// Hand one unit of slot `id` back from the running thread `tid`:
    /// `mutex_unlock` and `semaphore_up` both come here.  An unknown id,
    /// or a release of a unit the thread does not hold, is refused with
    /// -1.  Otherwise the unit goes to the longest-known waiter if one
    /// is parked on the slot (which wakes it), or back to the free pool,
    /// and the call reports 0.  A release is never checked for safety:
    /// giving units back cannot create deadlock.
    pub fn class_release(
        &mut self,
        threads: &mut Vec<Option<TaskControlBlock>>,
        tid: usize,
        id: usize,
    ) -> (r: isize)
        requires
            class_wf(*old(self), old(threads)@.len() as int),
            tid < old(threads)@.len(),
            forall|w: int|
                0 <= w < old(threads)@.len() && (id as int) < old(self).slots@.len() && (
                #[trigger] old(self).need.deep_view()[w])[id as int] >= 1 ==> old(
                    threads,
                )@[w] is Some,
        ensures
            class_wf(*final(self), old(threads)@.len() as int),
            final(threads)@.len() == old(threads)@.len(),
            release_outcome(
                *old(self),
                old(threads)@,
                *final(self),
                final(threads)@,
                tid as int,
                id as int,
                r,
            ),
    {
        proof {
            lemma_vec2_deep_view(self.allocation);
            lemma_vec2_deep_view(self.need);
        }
        let cols = self.slots.len();
        let n = threads.len();
        if id >= cols {
            return -1;
        }
        if self.slots[id].is_none() {
            return -1;
        }
        proof {
            assert(self.allocation.deep_view()[tid as int] == self.allocation@[tid as int]@);
            assert(self.allocation.deep_view()[tid as int].len() == cols as int);
        }
        let a = self.allocation[tid][id];
        if a == 0 {
            return -1;
        }
        self.allocation[tid][id] = a - 1;
        proof {
            lemma_vec2_deep_view(self.allocation);
            let adv = old(self).allocation.deep_view();
            let adv1 = self.allocation.deep_view();
            assert(adv1 =~= mat_set(adv, tid as int, id as int, (a - 1) as usize));
            lemma_col_total_update(adv, tid as int, id as int, (a - 1) as usize);
        }
        proof {
            lemma_vec2_deep_view(self.need);
            assert forall|t: int| 0 <= t < self.need@.len() implies id < (
            #[trigger] self.need@[t])@.len() by {
                assert(self.need.deep_view()[t] == self.need@[t]@);
            }
        }
        let w_opt = find_waiter(&self.need, id);
        match w_opt {
            Some(w) => {
                let ghost adv1 = self.allocation.deep_view();
                proof {
                    lemma_vec2_deep_view(self.allocation);
                    assert(adv1 =~= mat_set(
                        old(self).allocation.deep_view(),
                        tid as int,
                        id as int,
                        (a - 1) as usize,
                    ));
                    assert(self.need.deep_view()[w as int] == self.need@[w as int]@);
                }
                let nw = self.need[w][id];
                self.need[w][id] = nw - 1;
                proof {
                    lemma_vec2_deep_view(self.allocation);
                    assert(self.allocation.deep_view()[w as int] == self.allocation@[w as int]@);
                    assert(adv1[w as int].len() == cols as int);
                }
                let aw = self.allocation[w][id];
                proof {
                    lemma_cell_le_col_total(adv1, w as int, id as int);
                    lemma_col_total_update(
                        old(self).allocation.deep_view(),
                        tid as int,
                        id as int,
                        (a - 1) as usize,
                    );
                    assert(old(self).available@[id as int] == 0);
                    assert(aw == adv1[w as int][id as int]);
                    assert(old(self).available@[id as int] + col_total(
                        old(self).allocation.deep_view(),
                        id as int,
                    ) == old(self).capacity@[id as int]);
                    assert(col_total(adv1, id as int) == col_total(
                        old(self).allocation.deep_view(),
                        id as int,
                    ) - 1);
                    assert(aw + 1 <= old(self).capacity@[id as int]);
                }
                self.allocation[w][id] = aw + 1;
                match &mut threads[w] {
                    Some(tc) => {
                        tc.task_status = TaskStatus::Ready;
                    },
                    None => {
                        proof {
                            assert(false);
                        }
                    },
                }
                proof {
                    lemma_vec2_deep_view(self.allocation);
                    lemma_vec2_deep_view(self.need);
                    let adv = old(self).allocation.deep_view();
                    let ndv = old(self).need.deep_view();
                    let adv2 = self.allocation.deep_view();
                    let ndv2 = self.need.deep_view();
                    assert(adv2 =~= mat_set(adv1, w as int, id as int, (aw + 1) as usize));
                    assert(ndv2 =~= mat_set(ndv, w as int, id as int, (nw - 1) as usize));
                    lemma_col_total_update(adv1, w as int, id as int, (aw + 1) as usize);
                    assert forall|r2: int| 0 <= r2 < cols implies self.available@[r2] + col_total(
                        adv2,
                        r2,
                    ) == self.capacity@[r2] by {
                        if r2 != id {
                            lemma_col_total_pointwise(adv2, adv, r2);
                        }
                    }
                    assert(final(threads)@ =~= old(threads)@.update(
                        w as int,
                        Some(
                            (TaskControlBlock {
                                task_status: TaskStatus::Ready,
                                ..old(threads)@[w as int].unwrap()
                            }),
                        ),
                    ));
                    assert(class_wf(*self, n as int));
                }
                0
            },
            None => {
                let ghost adv1 = self.allocation.deep_view();
                let av = self.available[id];
                proof {
                    lemma_vec2_deep_view(self.allocation);
                    assert(adv1 =~= mat_set(
                        old(self).allocation.deep_view(),
                        tid as int,
                        id as int,
                        (a - 1) as usize,
                    ));
                    lemma_col_total_update(
                        old(self).allocation.deep_view(),
                        tid as int,
                        id as int,
                        (a - 1) as usize,
                    );
                    lemma_col_total_nonneg(adv1, id as int);
                    assert(av + 1 <= old(self).capacity@[id as int]);
                }
                self.available[id] = av + 1;
                proof {
                    let adv = old(self).allocation.deep_view();
                    assert forall|r2: int| 0 <= r2 < cols implies self.available@[r2] + col_total(
                        adv1,
                        r2,
                    ) == self.capacity@[r2] by {
                        if r2 != id {
                            lemma_col_total_pointwise(adv1, adv, r2);
                        }
                    }
                    assert(class_wf(*self, n as int));
                }
                0
            },
        }
    }
}

} // verus!
