//! The mathematical model of a sandpile world and of its step function.
//!
//! A step evaluates only the dirty cells, against a snapshot of the grain
//! counts taken at step entry: every dirty cell holding at least four
//! grains topples once, shedding exactly four grains and handing one to
//! each of its four torus neighbors. The step commits only if some cell
//! toppled; a stable world is left untouched.

use crate::grid::{is_neighbor, neighbor};
use vstd::prelude::*;

verus! {

/// Abstract state of a sandpile world: dimensions, iteration counter,
/// row-major grain counts, and the dirty work list of cell indices that
/// the next step evaluates.
#[verifier::ext_equal]
pub ghost struct Model {
    pub width: int,
    pub height: int,
    pub iteration: int,
    pub cells: Seq<u32>,
    pub dirty: Seq<usize>,
}

/// A sequence of indices is strictly increasing: sorted, with no
/// duplicates.
pub open spec fn strictly_increasing(s: Seq<usize>) -> bool {
    forall|a: int, b: int| 0 <= a < b < s.len() ==> s[a] < s[b]
}

/// A well-formed world: positive dimensions whose product fits the cell
/// type, one grain count per cell, an iteration counter in range, and a
/// deduplicated dirty list of in-range cell indices.
pub open spec fn wf(m: Model) -> bool {
    &&& 1 <= m.width
    &&& 1 <= m.height
    &&& m.width * m.height <= u32::MAX
    &&& m.cells.len() == m.width * m.height
    &&& 0 <= m.iteration <= u32::MAX
    &&& strictly_increasing(m.dirty)
    &&& forall|k: int| 0 <= k < m.dirty.len() ==> (#[trigger] m.dirty[k]) < m.cells.len()
}

/// The world is stable: no dirty cell holds four or more grains, so the
/// coming step topples nothing.
pub open spec fn stable(m: Model) -> bool {
    forall|k: int| 0 <= k < m.dirty.len() ==> m.cells[(#[trigger] m.dirty[k]) as int] < 4
}

/// Number of direction slots below `bound` in which `j` is the neighbor
/// of `i`. On grids of width or height below three, two slots can point
/// at the same cell, so a toppling cell may hand one neighbor several
/// grains.
pub open spec fn slot_count(w: int, h: int, i: int, j: int, bound: int) -> int
    decreases bound,
{
    if bound <= 0 {
        0
    } else {
        slot_count(w, h, i, j, bound - 1) + if neighbor(w, h, i, bound - 1) == j {
            1int
        } else {
            0int
        }
    }
}

/// Grains that cell `j` gains from the topples among the first `k` dirty
/// cells: one grain per neighbor slot of each toppling cell that points
/// at `j`. Toppling is decided on the grain counts at step entry.
pub open spec fn gain_upto(m: Model, k: int, j: int) -> int
    decreases k,
{
    if k <= 0 {
        0
    } else {
        gain_upto(m, k - 1, j) + if m.cells[m.dirty[k - 1] as int] >= 4 {
            slot_count(m.width, m.height, m.dirty[k - 1] as int, j, 4)
        } else {
            0int
        }
    }
}

/// Grains that cell `j` loses to the topples among the first `k` dirty
/// cells: exactly four if `j` is one of them and topples, else none.
pub open spec fn loss_upto(m: Model, k: int, j: int) -> int
    decreases k,
{
    if k <= 0 {
        0
    } else {
        loss_upto(m, k - 1, j) + if m.dirty[k - 1] as int == j && m.cells[j] >= 4 {
            4int
        } else {
            0int
        }
    }
}

/// Grain count of cell `j` after one full step: the count at entry, plus
/// what `j` gains from toppling cells, minus the four grains it sheds if
/// it topples itself.
pub open spec fn new_cell(m: Model, j: int) -> int {
    m.cells[j] + gain_upto(m, m.dirty.len() as int, j) - loss_upto(m, m.dirty.len() as int, j)
}

/// Cells marked dirty by the topples among the first `k` dirty cells:
/// each toppling cell together with its four neighbors.
pub open spec fn dirty_after_upto(m: Model, k: int) -> Set<usize> {
    Set::new(
        |j: usize|
            exists|t: int|
                0 <= t < k && m.cells[(#[trigger] m.dirty[t]) as int] >= 4 && (j == m.dirty[t]
                    || is_neighbor(m.width, m.height, m.dirty[t] as int, j as int)),
    )
}

/// Cells dirty after a full step.
pub open spec fn dirty_after(m: Model) -> Set<usize> {
    dirty_after_upto(m, m.dirty.len() as int)
}

/// Cells pointed at by the neighbor slots of `i` below `bound`.
pub open spec fn nbr_set_upto(w: int, h: int, i: int, bound: int) -> Set<usize> {
    Set::new(|j: usize| exists|s: int| 0 <= s < bound && neighbor(w, h, i, s) == j as int)
}

/// The strictly increasing sequence that lists a set of cell indices.
pub open spec fn seq_of_set(d: Set<usize>) -> Seq<usize> {
    choose|s: Seq<usize>| strictly_increasing(s) && s.to_set() == d
}

/// One step of the automaton. A stable world is returned unchanged — in
/// particular its iteration counter does not advance. Otherwise every
/// cell takes its stepped grain count, the newly dirtied cells become the
/// sorted dirty list, and the iteration counter advances by one.
pub open spec fn ticked(m: Model) -> Model {
    if stable(m) {
        m
    } else {
        Model {
            width: m.width,
            height: m.height,
            iteration: m.iteration + 1,
            cells: Seq::new(m.cells.len(), |j: int| new_cell(m, j) as u32),
            dirty: seq_of_set(dirty_after(m)),
        }
    }
}

/// `n` steps of the automaton.
pub open spec fn run(m: Model, n: nat) -> Model
    decreases n,
{
    if n == 0 {
        m
    } else {
        ticked(run(m, (n - 1) as nat))
    }
}

/// A cell never gains a negative number of grains.
pub proof fn lemma_slot_count_nonneg(w: int, h: int, i: int, j: int, bound: int)
    ensures
        slot_count(w, h, i, j, bound) >= 0,
    decreases bound,
{
    if bound > 0 {
        lemma_slot_count_nonneg(w, h, i, j, bound - 1);
    }
}

/// Gains only ever add grains.
pub proof fn lemma_gain_upto_nonneg(m: Model, k: int, j: int)
    ensures
        gain_upto(m, k, j) >= 0,
    decreases k,
{
    if k > 0 {
        lemma_gain_upto_nonneg(m, k - 1, j);
        lemma_slot_count_nonneg(m.width, m.height, m.dirty[k - 1] as int, j, 4);
    }
}

/// A cell that is not among the first `k` dirty cells loses nothing to
/// their topples.
pub proof fn lemma_loss_upto_absent(m: Model, k: int, j: int)
    requires
        forall|t: int| 0 <= t < k ==> (#[trigger] m.dirty[t]) as int != j,
    ensures
        loss_upto(m, k, j) == 0,
    decreases k,
{
    if k > 0 {
        lemma_loss_upto_absent(m, k - 1, j);
    }
}

/// Dropping the last element of a strictly increasing sequence removes
/// exactly its largest member from the listed set.
proof fn lemma_drop_last_to_set(a: Seq<usize>)
    requires
        strictly_increasing(a),
        a.len() > 0,
    ensures
        a.drop_last().to_set() == a.to_set().remove(a.last()),
{
    let d = a.drop_last();
    assert forall|y: usize| d.to_set().contains(y) implies a.to_set().contains(y) && y
        != a.last() by {
        let idx = choose|idx: int| 0 <= idx < d.len() && d[idx] == y;
        assert(a[idx] == y);
        assert(a[idx] < a.last());
    }
    assert forall|y: usize| a.to_set().contains(y) && y != a.last() implies d.to_set().contains(
        y,
    ) by {
        let idx = choose|idx: int| 0 <= idx < a.len() && a[idx] == y;
        assert(idx != a.len() - 1);
        assert(d[idx] == y);
    }
    assert(a.drop_last().to_set() =~= a.to_set().remove(a.last()));
}

/// A set of cell indices is listed by at most one strictly increasing
/// sequence: sorting the dirty set is deterministic.
pub proof fn lemma_strictly_increasing_unique(a: Seq<usize>, b: Seq<usize>)
    requires
        strictly_increasing(a),
        strictly_increasing(b),
        a.to_set() == b.to_set(),
    ensures
        a == b,
    decreases a.len(),
{
    if a.len() == 0 {
        if b.len() > 0 {
            assert(b.to_set().contains(b.last()));
            assert(a.contains(b.last()));
        }
        assert(a =~= b);
    } else {
        assert(a.to_set().contains(a.last()));
        if b.len() == 0 {
            assert(b.contains(a.last()));
        }
        assert(b.to_set().contains(b.last()));
        // The two largest members coincide.
        let ia = choose|idx: int| 0 <= idx < b.len() && b[idx] == a.last();
        assert(b[ia] <= b.last());
        let ib = choose|idx: int| 0 <= idx < a.len() && a[idx] == b.last();
        assert(a[ib] <= a.last());
        assert(a.last() == b.last());
        lemma_drop_last_to_set(a);
        lemma_drop_last_to_set(b);
        lemma_strictly_increasing_unique(a.drop_last(), b.drop_last());
        assert(a.len() == b.len());
        assert forall|i: int| 0 <= i < a.len() implies a[i] == b[i] by {
            if i < a.len() - 1 {
                assert(a.drop_last()[i] == b.drop_last()[i]);
            }
        }
        assert(a =~= b);
    }
}

/// No neighbor slot lies below zero: the slot set starts empty.
pub proof fn lemma_nbr_set_zero(w: int, h: int, i: int)
    ensures
        nbr_set_upto(w, h, i, 0) == Set::<usize>::empty(),
{
    assert(nbr_set_upto(w, h, i, 0) =~= Set::<usize>::empty());
}

/// Taking one more neighbor slot into account adds exactly the cell that
/// the slot points at.
pub proof fn lemma_nbr_set_step(w: int, h: int, i: int, s: int, x: usize)
    requires
        0 <= s,
        x as int == neighbor(w, h, i, s),
    ensures
        nbr_set_upto(w, h, i, s + 1) == nbr_set_upto(w, h, i, s).insert(x),
{
    assert forall|j: usize| nbr_set_upto(w, h, i, s + 1).contains(j) implies nbr_set_upto(
        w,
        h,
        i,
        s,
    ).insert(x).contains(j) by {
        let t = choose|t: int| 0 <= t < s + 1 && neighbor(w, h, i, t) == j as int;
        if t < s {
            assert(nbr_set_upto(w, h, i, s).contains(j));
        } else {
            assert(j == x);
        }
    }
    assert forall|j: usize| nbr_set_upto(w, h, i, s).insert(x).contains(j) implies nbr_set_upto(
        w,
        h,
        i,
        s + 1,
    ).contains(j) by {
        if j == x {
            assert(0 <= s < s + 1 && neighbor(w, h, i, s) == j as int);
        } else {
            let t = choose|t: int| 0 <= t < s && neighbor(w, h, i, t) == j as int;
            assert(0 <= t < s + 1 && neighbor(w, h, i, t) == j as int);
        }
    }
    assert(nbr_set_upto(w, h, i, s + 1) =~= nbr_set_upto(w, h, i, s).insert(x));
}

/// Evaluating one more dirty cell that topples adds that cell and its
/// four neighbors to the newly dirtied set.
pub proof fn lemma_dirty_after_step_topple(m: Model, k: int)
    requires
        wf(m),
        0 <= k < m.dirty.len(),
        m.cells[m.dirty[k] as int] >= 4,
    ensures
        dirty_after_upto(m, k + 1) == dirty_after_upto(m, k).insert(m.dirty[k]).union(
            nbr_set_upto(m.width, m.height, m.dirty[k] as int, 4),
        ),
{
    let i = m.dirty[k];
    let rhs = dirty_after_upto(m, k).insert(i).union(nbr_set_upto(m.width, m.height, i as int, 4));
    assert forall|j: usize| dirty_after_upto(m, k + 1).contains(j) implies rhs.contains(j) by {
        let t = choose|t: int|
            0 <= t < k + 1 && m.cells[(#[trigger] m.dirty[t]) as int] >= 4 && (j == m.dirty[t]
                || is_neighbor(m.width, m.height, m.dirty[t] as int, j as int));
        if t < k {
            assert(dirty_after_upto(m, k).contains(j));
        } else if j != i {
            let s = choose|s: int|
                0 <= s < 4 && neighbor(m.width, m.height, i as int, s) == j as int;
            assert(nbr_set_upto(m.width, m.height, i as int, 4).contains(j));
        }
    }
    assert forall|j: usize| rhs.contains(j) implies dirty_after_upto(m, k + 1).contains(j) by {
        if dirty_after_upto(m, k).contains(j) {
            let t = choose|t: int|
                0 <= t < k && m.cells[(#[trigger] m.dirty[t]) as int] >= 4 && (j == m.dirty[t]
                    || is_neighbor(m.width, m.height, m.dirty[t] as int, j as int));
            assert(0 <= t < k + 1 && m.cells[m.dirty[t] as int] >= 4 && (j == m.dirty[t]
                || is_neighbor(m.width, m.height, m.dirty[t] as int, j as int)));
        } else if j == i {
            assert(0 <= k < k + 1 && m.cells[m.dirty[k] as int] >= 4 && j == m.dirty[k]);
        } else {
            let s = choose|s: int|
                0 <= s < 4 && neighbor(m.width, m.height, i as int, s) == j as int;
            assert(is_neighbor(m.width, m.height, i as int, j as int));
            assert(0 <= k < k + 1 && m.cells[m.dirty[k] as int] >= 4 && is_neighbor(
                m.width,
                m.height,
                m.dirty[k] as int,
                j as int,
            ));
        }
    }
    assert(dirty_after_upto(m, k + 1) =~= rhs);
}

/// Evaluating one more dirty cell that does not topple dirties nothing.
pub proof fn lemma_dirty_after_step_quiet(m: Model, k: int)
    requires
        wf(m),
        0 <= k < m.dirty.len(),
        m.cells[m.dirty[k] as int] < 4,
    ensures
        dirty_after_upto(m, k + 1) == dirty_after_upto(m, k),
{
    assert forall|j: usize| dirty_after_upto(m, k + 1).contains(j) implies dirty_after_upto(
        m,
        k,
    ).contains(j) by {
        let t = choose|t: int|
            0 <= t < k + 1 && m.cells[(#[trigger] m.dirty[t]) as int] >= 4 && (j == m.dirty[t]
                || is_neighbor(m.width, m.height, m.dirty[t] as int, j as int));
        assert(t < k);
        assert(0 <= t < k && m.cells[m.dirty[t] as int] >= 4 && (j == m.dirty[t] || is_neighbor(
            m.width,
            m.height,
            m.dirty[t] as int,
            j as int,
        )));
    }
    assert forall|j: usize| dirty_after_upto(m, k).contains(j) implies dirty_after_upto(
        m,
        k + 1,
    ).contains(j) by {
        let t = choose|t: int|
            0 <= t < k && m.cells[(#[trigger] m.dirty[t]) as int] >= 4 && (j == m.dirty[t]
                || is_neighbor(m.width, m.height, m.dirty[t] as int, j as int));
        assert(0 <= t < k + 1 && m.cells[m.dirty[t] as int] >= 4 && (j == m.dirty[t]
            || is_neighbor(m.width, m.height, m.dirty[t] as int, j as int)));
    }
    assert(dirty_after_upto(m, k + 1) =~= dirty_after_upto(m, k));
}

/// Every newly dirtied cell is in range: it is a dirty cell or a
/// neighbor of one, and the torus keeps neighbors inside the grid.
pub proof fn lemma_dirty_after_upto_in_grid(m: Model, k: int, j: usize)
    requires
        wf(m),
        0 <= k <= m.dirty.len(),
        dirty_after_upto(m, k).contains(j),
    ensures
        (j as int) < m.cells.len(),
{
    let t = choose|t: int|
        0 <= t < k && m.cells[(#[trigger] m.dirty[t]) as int] >= 4 && (j == m.dirty[t]
            || is_neighbor(m.width, m.height, m.dirty[t] as int, j as int));
    if j != m.dirty[t] {
        let s = choose|s: int|
            0 <= s < 4 && neighbor(m.width, m.height, m.dirty[t] as int, s) == j as int;
        crate::grid::lemma_neighbor_in_grid(m.width, m.height, m.dirty[t] as int, s);
    }
}

/// Idempotence of a stable state: however many further steps are taken,
/// a stable world — grain counts, dirty list and iteration counter — is
/// left exactly as it is.
pub proof fn lemma_run_stable(m: Model, n: nat)
    requires
        stable(m),
    ensures
        run(m, n) == m,
    decreases n,
{
    if n > 0 {
        lemma_run_stable(m, (n - 1) as nat);
    }
}

/// Once a run reaches a stable state, later steps do not advance it: the
/// run is frozen from that point on.
pub proof fn lemma_run_frozen(m: Model, a: nat, b: nat)
    requires
        a <= b,
        stable(run(m, a)),
    ensures
        run(m, b) == run(m, a),
    decreases b - a,
{
    if b > a {
        lemma_run_frozen(m, a, (b - 1) as nat);
    }
}

} // verus!
