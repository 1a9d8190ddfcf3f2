//! Banker's-algorithm safety check.
//!
//! A resource state is *safe* when the threads can all finish in some
//! order: a thread whose outstanding need fits into the free units can
//! run to completion and hand its allocation back, and so on until every
//! thread is done.  [`bank_safe`] states that condition directly as an
//! existential over completion orders; [`banker_safe`] decides it with
//! the classic greedy scan and is proved to return exactly that
//! condition — greedily finishing any satisfiable thread never discards
//! a completion order.

use vstd::prelude::*;

verus! {

/// Every row of the matrix has exactly `cols` columns.
pub open spec fn matrix_wf(m: Seq<Seq<usize>>, cols: int) -> bool {
    forall|i: int| 0 <= i < m.len() ==> (#[trigger] m[i]).len() == cols
}

/// The row fits under the work vector, column by column.
pub open spec fn row_le(row: Seq<usize>, work: Seq<int>) -> bool {
    forall|j: int| 0 <= j < work.len() ==> (#[trigger] row[j]) <= work[j]
}

/// The work vector with one thread's allocation handed back.
pub open spec fn row_add(work: Seq<int>, row: Seq<usize>) -> Seq<int> {
    Seq::new(work.len(), |j: int| work[j] + row[j])
}

/// A vector of free units, seen as unbounded integers.
pub open spec fn to_int_row(s: Seq<usize>) -> Seq<int> {
    Seq::new(s.len(), |j: int| s[j] as int)
}

/// Every thread is marked finished.
pub open spec fn all_marked(fin: Seq<bool>) -> bool {
    forall|i: int| 0 <= i < fin.len() ==> fin[i]
}

/// Number of threads not yet marked finished.
pub open spec fn count_false(fin: Seq<bool>) -> nat
    decreases fin.len(),
{
    if fin.len() == 0 {
        0
    } else {
        count_false(fin.drop_last()) + if fin.last() {
            0nat
        } else {
            1nat
        }
    }
}

/// Marking an unfinished thread lowers the unfinished count by one.
proof fn lemma_count_false_update(fin: Seq<bool>, i: int)
    requires
        0 <= i < fin.len(),
        !fin[i],
    ensures
        count_false(fin.update(i, true)) + 1 == count_false(fin),
    decreases fin.len(),
{
    if i == fin.len() - 1 {
        assert(fin.update(i, true).drop_last() =~= fin.drop_last());
    } else {
        assert(fin.update(i, true).drop_last() =~= fin.drop_last().update(i, true));
        lemma_count_false_update(fin.drop_last(), i);
    }
}

/// The Banker's safety condition, stated directly: with free units
/// `work` and the threads of `fin` already done, some unfinished thread
/// can run to completion now (its need fits under `work`), after which —
/// its allocation handed back — the rest can finish too.
pub open spec fn bank_safe(
    work: Seq<int>,
    alloc: Seq<Seq<usize>>,
    need: Seq<Seq<usize>>,
    fin: Seq<bool>,
) -> bool
    decreases count_false(fin),
    via bank_safe_decreases
{
    all_marked(fin) || (exists|i: int|
        0 <= i < fin.len() && !fin[i] && row_le(#[trigger] need[i], work) && bank_safe(
            row_add(work, alloc[i]),
            alloc,
            need,
            fin.update(i, true),
        ))
}

#[via_fn]
proof fn bank_safe_decreases(
    work: Seq<int>,
    alloc: Seq<Seq<usize>>,
    need: Seq<Seq<usize>>,
    fin: Seq<bool>,
) {
    assert forall|i: int| 0 <= i < fin.len() && !fin[i] implies count_false(fin.update(i, true))
        < count_false(fin) by {
        lemma_count_false_update(fin, i);
    }
}

/// Exchange property of safe states: if the state is safe and thread
/// `i`'s need fits under the work vector now, then granting `i` first
/// (finishing it and reclaiming its allocation) leaves a safe state.
/// This is why the greedy scan is complete: finishing a satisfiable
/// thread never discards a completion order.
pub proof fn lemma_bank_safe_grant(
    work: Seq<int>,
    alloc: Seq<Seq<usize>>,
    need: Seq<Seq<usize>>,
    fin: Seq<bool>,
    i: int,
)
    requires
        bank_safe(work, alloc, need, fin),
        alloc.len() == fin.len(),
        need.len() == fin.len(),
        matrix_wf(alloc, work.len() as int),
        matrix_wf(need, work.len() as int),
        0 <= i < fin.len(),
        !fin[i],
        row_le(need[i], work),
    ensures
        bank_safe(row_add(work, alloc[i]), alloc, need, fin.update(i, true)),
    decreases count_false(fin),
{
    assert(!all_marked(fin));
    let j = choose|j: int|
        0 <= j < fin.len() && !fin[j] && row_le(#[trigger] need[j], work) && bank_safe(
            row_add(work, alloc[j]),
            alloc,
            need,
            fin.update(j, true),
        );
    if j == i {
        // the chosen completion order already starts with i
    } else {
        lemma_count_false_update(fin, j);
        // i is still unfinished and still satisfiable after granting j
        assert(row_le(need[i], row_add(work, alloc[j])));
        lemma_bank_safe_grant(row_add(work, alloc[j]), alloc, need, fin.update(j, true), i);
        // the two grants commute
        assert(row_add(row_add(work, alloc[j]), alloc[i]) =~= row_add(
            row_add(work, alloc[i]),
            alloc[j],
        ));
        assert(fin.update(j, true).update(i, true) =~= fin.update(i, true).update(j, true));
        // so j witnesses safety of the state where i was granted first
        assert(row_le(need[j], row_add(work, alloc[i])));
        assert(bank_safe(
            row_add(row_add(work, alloc[i]), alloc[j]),
            alloc,
            need,
            fin.update(i, true).update(j, true),
        ));
        assert(bank_safe(row_add(work, alloc[i]), alloc, need, fin.update(i, true)));
    }
}

/// Total units of column `j` held across all threads.
pub open spec fn col_total(m: Seq<Seq<usize>>, j: int) -> int
    decreases m.len(),
{
    if m.len() == 0 {
        0
    } else {
        col_total(m.drop_last(), j) + m.last()[j]
    }
}

/// Units of column `j` held by the finished threads.
pub open spec fn col_sum_fin(m: Seq<Seq<usize>>, fin: Seq<bool>, j: int) -> int
    decreases m.len(),
{
    if m.len() == 0 {
        0
    } else {
        col_sum_fin(m.drop_last(), fin.drop_last(), j) + if 0 <= m.len() - 1 < fin.len() && fin[m.len()
            - 1] {
            m.last()[j]
        } else {
            0
        }
    }
}

/// Marking thread `i` finished adds its row into the finished sum.
proof fn lemma_col_sum_fin_update(m: Seq<Seq<usize>>, fin: Seq<bool>, i: int, j: int)
    requires
        m.len() == fin.len(),
        0 <= i < fin.len(),
        !fin[i],
    ensures
        col_sum_fin(m, fin.update(i, true), j) == col_sum_fin(m, fin, j) + m[i][j],
    decreases m.len(),
{
    if i == m.len() - 1 {
        assert(fin.update(i, true).drop_last() =~= fin.drop_last());
    } else {
        assert(fin.update(i, true).drop_last() =~= fin.drop_last().update(i, true));
        lemma_col_sum_fin_update(m.drop_last(), fin.drop_last(), i, j);
    }
}

/// The finished threads never hold more than everyone together.
proof fn lemma_col_sum_fin_le_total(m: Seq<Seq<usize>>, fin: Seq<bool>, j: int)
    requires
        m.len() == fin.len(),
    ensures
        0 <= col_sum_fin(m, fin, j),
        col_sum_fin(m, fin, j) <= col_total(m, j),
    decreases m.len(),
{
    if m.len() > 0 {
        lemma_col_sum_fin_le_total(m.drop_last(), fin.drop_last(), j);
    }
}

/// Find the first unfinished thread whose need fits under the work
/// vector, if any.
fn find_candidate(need: &Vec<Vec<usize>>, work: &Vec<usize>, fin: &Vec<bool>) -> (r: Option<usize>)
    requires
        need@.len() == fin@.len(),
        matrix_wf(need.deep_view(), work@.len() as int),
    ensures
        match r {
            Some(i) => 0 <= i < fin@.len() && !fin@[i as int] && row_le(
                need.deep_view()[i as int],
                to_int_row(work@),
            ),
            None => forall|i: int|
                0 <= i < fin@.len() ==> fin@[i] || !row_le(
                    #[trigger] need.deep_view()[i],
                    to_int_row(work@),
                ),
        },
{
    let n = need.len();
    let cols = work.len();
    let mut i: usize = 0;
    while i < n
        invariant
            i <= n,
            n == need@.len(),
            n == fin@.len(),
            cols == work@.len(),
            matrix_wf(need.deep_view(), cols as int),
            forall|k: int|
                0 <= k < i ==> fin@[k] || !row_le(
                    #[trigger] need.deep_view()[k],
                    to_int_row(work@),
                ),
        decreases n - i,
    {
        if !fin[i] {
            let mut fits = true;
            let mut j: usize = 0;
            assert(need.deep_view()[i as int] =~= need@[i as int]@);
            while j < cols
                invariant
                    j <= cols,
                    i < n,
                    n == need@.len(),
                    cols == work@.len(),
                    matrix_wf(need.deep_view(), cols as int),
                    need.deep_view()[i as int] == need@[i as int]@,
                    fits <==> forall|c: int|
                        0 <= c < j ==> (#[trigger] need.deep_view()[i as int][c]) <= to_int_row(
                            work@,
                        )[c],
                decreases cols - j,
            {
                if need[i][j] > work[j] {
                    fits = false;
                    assert(need.deep_view()[i as int][j as int] == need@[i as int]@[j as int]);
                    assert(!(need.deep_view()[i as int][j as int] <= to_int_row(work@)[j as int]));
                    j = cols;
                } else {
                    assert(need.deep_view()[i as int][j as int] == need@[i as int]@[j as int]);
                    j = j + 1;
                }
            }
            if fits {
                return Some(i);
            }
        }
        i = i + 1;
    }
    None
}

/// Are all threads marked finished?
fn all_finished(fin: &Vec<bool>) -> (r: bool)
    ensures
        r == all_marked(fin@),
{
    let n = fin.len();
    let mut i: usize = 0;
    while i < n
        invariant
            i <= n,
            n == fin@.len(),
            forall|k: int| 0 <= k < i ==> fin@[k],
        decreases n - i,
    {
        if !fin[i] {
            return false;
        }
        i = i + 1;
    }
    true
}

/// Decide the Banker's safety condition: returns exactly whether, with
/// `available` units free and the given per-thread allocation and need
/// matrices, every thread can run to completion in some order.  Decided
/// by the greedy scan: repeatedly finish any thread whose need fits
/// into the work vector and reclaim its allocation.
pub fn banker_safe(
    available: &Vec<usize>,
    allocation: &Vec<Vec<usize>>,
    need: &Vec<Vec<usize>>,
) -> (r: bool)
    requires
        allocation@.len() == need@.len(),
        matrix_wf(allocation.deep_view(), available@.len() as int),
        matrix_wf(need.deep_view(), available@.len() as int),
        forall|j: int|
            0 <= j < available@.len() ==> available@[j] + col_total(allocation.deep_view(), j)
                <= usize::MAX,
    ensures
        r == bank_safe(
            to_int_row(available@),
            allocation.deep_view(),
            need.deep_view(),
            Seq::new(allocation@.len() as nat, |i: int| false),
        ),
{
    let n = allocation.len();
    let cols = available.len();
    let ghost adv = allocation.deep_view();
    let ghost ndv = need.deep_view();
    let ghost av_int = to_int_row(available@);
    let ghost fin0 = Seq::new(n as nat, |i: int| false);
    let mut fin: Vec<bool> = vec![false; n];
    let mut work: Vec<usize> = Vec::new();
    let mut j: usize = 0;
    while j < cols
        invariant
            j <= cols,
            cols == available@.len(),
            work@ =~= available@.subrange(0, j as int),
        decreases cols - j,
    {
        work.push(available[j]);
        assert(work@ =~= available@.subrange(0, j + 1));
        j = j + 1;
    }
    assert(work@ =~= available@);
    assert(fin@ =~= fin0);
    assert forall|c: int| 0 <= c < cols implies work@[c] == available@[c] + col_sum_fin(
        adv,
        fin@,
        c,
    ) by {
        lemma_col_sum_fin_le_total(adv, fin@, c);
        lemma_col_sum_fin_zero(adv, fin@, c);
    }
    loop
        invariant
            n == allocation@.len(),
            n == need@.len(),
            cols == available@.len(),
            fin@.len() == n,
            work@.len() == cols,
            adv == allocation.deep_view(),
            ndv == need.deep_view(),
            av_int == to_int_row(available@),
            fin0 == Seq::new(n as nat, |i: int| false),
            matrix_wf(adv, cols as int),
            matrix_wf(ndv, cols as int),
            forall|c: int| 0 <= c < cols ==> available@[c] + col_total(adv, c) <= usize::MAX,
            forall|c: int|
                0 <= c < cols ==> work@[c] == available@[c] + col_sum_fin(adv, fin@, c),
            bank_safe(to_int_row(work@), adv, ndv, fin@) == bank_safe(av_int, adv, ndv, fin0),
        ensures
            fin@.len() == n,
            bank_safe(to_int_row(work@), adv, ndv, fin@) == bank_safe(av_int, adv, ndv, fin0),
            forall|i: int|
                0 <= i < n ==> fin@[i] || !row_le(#[trigger] ndv[i], to_int_row(work@)),
        decreases count_false(fin@),
    {
        match find_candidate(need, &work, &fin) {
            None => {
                break ;
            },
            Some(i) => {
                let ghost old_fin = fin@;
                let ghost old_work = work@;
                proof {
                    assert(adv[i as int] =~= allocation@[i as int]@);
                }
                let mut j: usize = 0;
                while j < cols
                    invariant
                        j <= cols,
                        i < n,
                        n == allocation@.len(),
                        cols == available@.len(),
                        work@.len() == cols,
                        adv == allocation.deep_view(),
                        adv[i as int] == allocation@[i as int]@,
                        matrix_wf(adv, cols as int),
                        fin@ == old_fin,
                        fin@.len() == n,
                        !old_fin[i as int],
                        forall|c: int|
                            0 <= c < cols ==> available@[c] + col_total(adv, c) <= usize::MAX,
                        forall|c: int|
                            0 <= c < cols ==> old_work[c] == available@[c] + col_sum_fin(
                                adv,
                                old_fin,
                                c,
                            ),
                        forall|c: int|
                            j <= c < cols ==> work@[c] == old_work[c],
                        forall|c: int|
                            0 <= c < j ==> work@[c] == old_work[c] + adv[i as int][c],
                    decreases cols - j,
                {
                    let a = allocation[i][j];
                    proof {
                        lemma_col_sum_fin_update(adv, old_fin, i as int, j as int);
                        lemma_col_sum_fin_le_total(adv, old_fin.update(i as int, true), j as int);
                        assert(work@[j as int] == old_work[j as int]);
                        assert(a == adv[i as int][j as int]);
                        assert(old_work[j as int] + a == available@[j as int] + col_sum_fin(
                            adv,
                            old_fin.update(i as int, true),
                            j as int,
                        ));
                        assert(old_work[j as int] + a <= available@[j as int] + col_total(
                            adv,
                            j as int,
                        ));
                    }
                    work[j] = work[j] + a;
                    j = j + 1;
                }
                fin[i] = true;
                proof {
                    assert(fin@ =~= old_fin.update(i as int, true));
                    assert(to_int_row(work@) =~= row_add(to_int_row(old_work), adv[i as int]));
                    assert forall|c: int| 0 <= c < cols implies work@[c] == available@[c]
                        + col_sum_fin(adv, fin@, c) by {
                        lemma_col_sum_fin_update(adv, old_fin, i as int, c);
                    }
                    lemma_count_false_update(old_fin, i as int);
                    // the greedy grant keeps the safety condition unchanged
                    if bank_safe(to_int_row(old_work), adv, ndv, old_fin) {
                        lemma_bank_safe_grant(to_int_row(old_work), adv, ndv, old_fin, i as int);
                    }
                    if bank_safe(to_int_row(work@), adv, ndv, fin@) {
                        // thread i itself witnesses safety of the previous state
                        assert(bank_safe(to_int_row(old_work), adv, ndv, old_fin));
                    }
                }
            },
        }
    }
    let res = all_finished(&fin);
    proof {
        if !res {
            assert(!bank_safe(to_int_row(work@), adv, ndv, fin@));
        }
    }
    res
}

/// With nothing finished, the finished threads hold nothing.
proof fn lemma_col_sum_fin_zero(m: Seq<Seq<usize>>, fin: Seq<bool>, j: int)
    requires
        m.len() == fin.len(),
        forall|i: int| 0 <= i < fin.len() ==> !fin[i],
    ensures
        col_sum_fin(m, fin, j) == 0,
    decreases m.len(),
{
    if m.len() > 0 {
        lemma_col_sum_fin_zero(m.drop_last(), fin.drop_last(), j);
    }
}

} // verus!
