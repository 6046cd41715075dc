//! The sandpile world: grid state, dirty work list, and step operations.

use crate::grid::{
    flat_index, lemma_coords, lemma_flat_index_in_grid, lemma_neighbor_in_grid, neighbor,
};
use crate::model::{
    dirty_after, dirty_after_upto, gain_upto, lemma_dirty_after_step_quiet,
    lemma_dirty_after_step_topple, lemma_gain_upto_nonneg, lemma_loss_upto_absent,
    lemma_nbr_set_step, lemma_nbr_set_zero, lemma_run_frozen, lemma_strictly_increasing_unique,
    loss_upto, nbr_set_upto, new_cell, run, slot_count, stable, strictly_increasing, ticked, wf,
    Model,
};
use crate::sums::{lemma_element_le_total, lemma_total_push, lemma_total_update, total};
use vstd::prelude::*;

verus! {

/// Grain count seeded at the center cell of a freshly built world.
pub const CENTER_SEED: u32 = 10000000;

/// A sandpile world on a `width x height` torus. `cells` holds one grain
/// count per cell in row-major order; `modified_cells` is the sorted,
/// duplicate-free list of cell indices that the next step evaluates;
/// `iteration` counts the committed steps.
pub struct World {
    width: u32,
    height: u32,
    iteration: u32,
    cells: Vec<u32>,
    modified_cells: Vec<usize>,
}

impl View for World {
    type V = Model;

    closed spec fn view(&self) -> Model {
        Model {
            width: self.width as int,
            height: self.height as int,
            iteration: self.iteration as int,
            cells: self.cells@,
            dirty: self.modified_cells@,
        }
    }
}

/// The state a fresh `w x h` world holds: iteration zero, every cell
/// dirty, and all cells empty except a seed pile at the center cell.
pub open spec fn initial_model(w: int, h: int) -> Model {
    Model {
        width: w,
        height: h,
        iteration: 0,
        cells: Seq::new(
            (w * h) as nat,
            |j: int|
                if j == flat_index(w, h / 2, w / 2) {
                    CENTER_SEED
                } else {
                    0u32
                },
        ),
        dirty: Seq::new((w * h) as nat, |k: int| k as usize),
    }
}

/// Insert a cell index into a sorted, duplicate-free work list, keeping
/// it sorted and duplicate-free; inserting a present index is a no-op.
#[verifier::loop_isolation(false)]
fn insert_sorted(v: &mut Vec<usize>, x: usize)
    requires
        strictly_increasing(old(v)@),
    ensures
        strictly_increasing(final(v)@),
        final(v)@.to_set() == old(v)@.to_set().insert(x),
        final(v)@.len() >= 1,
        final(v)@.len() >= old(v)@.len(),
{
    let mut p: usize = 0;
    while p < v.len() && v[p] < x
        invariant
            p <= v@.len(),
            forall|t: int| 0 <= t < p ==> v@[t] < x,
        decreases v@.len() - p,
    {
        p += 1;
    }
    if p < v.len() && v[p] == x {
        assert(v@.to_set().contains(x));
        assert(v@.to_set() =~= v@.to_set().insert(x));
        return ;
    }
    let ghost prev = v@;
    proof {
        prev.insert_ensures(p as int, x);
    }
    v.insert(p, x);
    assert(strictly_increasing(v@)) by {
        assert forall|a: int, b: int| 0 <= a < b < v@.len() implies v@[a] < v@[b] by {
            if a < p && b > p {
                assert(v@[a] == prev[a] && v@[b] == prev[b - 1]);
                assert(prev[a] < x);
                assert(prev[b - 1] >= x && prev[b - 1] != x);
            }
        }
    }
    assert(v@.to_set() =~= prev.to_set().insert(x)) by {
        assert forall|y: usize| v@.to_set().contains(y) implies prev.to_set().contains(y) || y
            == x by {
            let t = choose|t: int| 0 <= t < v@.len() && v@[t] == y;
            if t < p {
                assert(prev[t] == y);
            } else if t > p {
                assert(prev[t - 1] == y);
            }
        }
        assert forall|y: usize| prev.to_set().contains(y) || y == x implies v@.to_set().contains(
            y,
        ) by {
            if y == x {
                assert(v@[p as int] == x);
            } else if prev.to_set().contains(y) {
                let t = choose|t: int| 0 <= t < prev.len() && prev[t] == y;
                if t < p {
                    assert(v@[t] == y);
                } else {
                    assert(v@[t + 1] == y);
                }
            }
        }
    }
    assert(v@[p as int] == x);
}

/// Elements stay in range when a work list takes one more in-range index.
proof fn lemma_insert_keeps_bound(pre: Seq<usize>, post: Seq<usize>, x: usize, len: int)
    requires
        post.to_set() == pre.to_set().insert(x),
        forall|t: int| 0 <= t < pre.len() ==> (#[trigger] pre[t]) < len,
        (x as int) < len,
    ensures
        forall|t: int| 0 <= t < post.len() ==> (#[trigger] post[t]) < len,
{
    assert forall|t: int| 0 <= t < post.len() implies (#[trigger] post[t]) < len by {
        let y = post[t];
        assert(post.to_set().contains(y));
        if y != x {
            assert(pre.to_set().contains(y));
            let u = choose|u: int| 0 <= u < pre.len() && pre[u] == y;
            assert(pre[u] < len);
        }
    }
}

impl World {
    /// Flat row-major index of the cell at `(row, col)`. The caller must
    /// keep `row` and `col` in range.
    pub fn get_index(&self, row: u32, col: u32) -> (i: usize)
        requires
            wf(self@),
            row < self@.height,
            col < self@.width,
        ensures
            i as int == flat_index(self@.width, row as int, col as int),
            i < self@.cells.len(),
    {
        proof {
            lemma_flat_index_in_grid(self@.width, self@.height, row as int, col as int);
        }
        (row * self.width + col) as usize
    }

    /// The `(row, col)` coordinates of a cell index.
    pub fn get_coords(&self, idx: usize) -> (rc: (u32, u32))
        requires
            wf(self@),
            idx < self@.cells.len(),
        ensures
            rc.0 as int == idx as int / self@.width,
            rc.1 as int == idx as int % self@.width,
            rc.0 < self@.height,
            rc.1 < self@.width,
            flat_index(self@.width, rc.0 as int, rc.1 as int) == idx as int,
    {
        proof {
            lemma_coords(self@.width, self@.height, idx as int);
        }
        let w: usize = self.width as usize;
        ((idx / w) as u32, (idx % w) as u32)
    }

    /// The four Von Neumann neighbors of the cell at `idx`: left, right,
    /// up, down, wrapping at the grid edges as on a torus.
    pub fn get_von_neumann_indexes(&self, idx: usize) -> (nbrs: [usize; 4])
        requires
            wf(self@),
            idx < self@.cells.len(),
        ensures
            forall|s: int|
                0 <= s < 4 ==> (#[trigger] nbrs@[s]) as int == neighbor(
                    self@.width,
                    self@.height,
                    idx as int,
                    s,
                ) && nbrs@[s] < self@.cells.len(),
    {
        let ghost gw: int = self@.width;
        let ghost gh: int = self@.height;
        proof {
            lemma_coords(gw, gh, idx as int);
            lemma_neighbor_in_grid(gw, gh, idx as int, 0);
            lemma_neighbor_in_grid(gw, gh, idx as int, 1);
            lemma_neighbor_in_grid(gw, gh, idx as int, 2);
            lemma_neighbor_in_grid(gw, gh, idx as int, 3);
            assert((gh - 1) * gw < gw * gh) by (nonlinear_arith)
                requires
                    1 <= gw,
                    1 <= gh,
            ;
            if idx as int / gw != 0 {
                assert(idx as int >= gw) by (nonlinear_arith)
                    requires
                        1 <= gw,
                        idx as int == (idx as int / gw) * gw + (idx as int % gw),
                        idx as int / gw >= 1,
                        idx as int % gw >= 0,
                ;
            }
        }
        let w: usize = self.width as usize;
        let h: usize = self.height as usize;
        let left: usize = if idx % w != 0 {
            idx - 1
        } else {
            idx + (w - 1)
        };
        let right: usize = if idx % w != w - 1 {
            idx + 1
        } else {
            idx - (w - 1)
        };
        let up: usize = if idx / w != 0 {
            idx - w
        } else {
            idx + (h - 1) * w
        };
        let down: usize = if idx / w != h - 1 {
            idx + w
        } else {
            idx - (h - 1) * w
        };
        [left, right, up, down]
    }

    /// Build a `width x height` world: all cells zero except a pile of
    /// `CENTER_SEED` grains at the center cell, iteration zero, and every
    /// cell initially dirty. Dimensions must be positive and their
    /// product must fit the cell index space.
    pub fn new(width: u32, height: u32) -> (world: World)
        requires
            1 <= width,
            1 <= height,
            width * height <= u32::MAX,
        ensures
            world@ == initial_model(width as int, height as int),
            wf(world@),
            total(world@.cells) == CENTER_SEED,
    {
        let n: usize = (width as usize) * (height as usize);
        let mut cells: Vec<u32> = Vec::new();
        #[verifier::loop_isolation(false)]
        while cells.len() < n
            invariant
                cells@.len() <= n,
                forall|j: int| 0 <= j < cells@.len() ==> cells@[j] == 0u32,
                total(cells@) == 0,
            decreases n - cells@.len(),
        {
            let ghost prev = cells@;
            cells.push(0);
            proof {
                lemma_total_push(prev, 0u32);
            }
        }
        let mut modified: Vec<usize> = Vec::new();
        let mut k: usize = 0;
        #[verifier::loop_isolation(false)]
        while k < n
            invariant
                k <= n,
                modified@.len() == k,
                forall|t: int| 0 <= t < k ==> (#[trigger] modified@[t]) as int == t,
            decreases n - k,
        {
            modified.push(k);
            k += 1;
        }
        let mut world = World { width, height, iteration: 0, cells, modified_cells: modified };
        assert(wf(world@));
        let center: usize = world.get_index(height / 2, width / 2);
        let ghost before = world@;
        proof {
            lemma_total_update(before.cells, center as int, CENTER_SEED);
        }
        world.cells[center] = CENTER_SEED;
        proof {
            let m0 = initial_model(width as int, height as int);
            assert(world@.cells =~= m0.cells);
            assert(world@.dirty =~= m0.dirty);
            assert(world@ =~= m0);
        }
        world
    }

    /// Advance the world by one step, evaluating only the dirty cells
    /// against a snapshot of the grain counts taken at entry. Every dirty
    /// cell holding at least four grains topples once: it sheds exactly
    /// four grains and hands one to each of its four torus neighbors; a
    /// cell with eight or more grains still topples only once per step.
    /// Returns `true` iff some cell toppled; only then are the stepped
    /// counts and the newly dirtied cells committed and the iteration
    /// counter advanced. A stable world is left untouched, and the total
    /// grain count is conserved in every case.
    #[verifier::loop_isolation(false)]
    pub fn tick(&mut self) -> (changed: bool)
        requires
            wf(old(self)@),
            total(old(self)@.cells) <= u32::MAX,
            old(self)@.iteration < u32::MAX,
        ensures
            wf(final(self)@),
            final(self)@ == ticked(old(self)@),
            changed == !stable(old(self)@),
            total(final(self)@.cells) == total(old(self)@.cells),
            final(self)@.iteration == old(self)@.iteration + if changed {
                1int
            } else {
                0int
            },
            !changed ==> *final(self) == *old(self),
    {
        let ghost m = self@;
        let ghost gw: int = m.width;
        let ghost gh: int = m.height;
        // Work on a copy: topple decisions read the entry snapshot.
        let mut cells: Vec<u32> = Vec::new();
        while cells.len() < self.cells.len()
            invariant
                cells@.len() <= m.cells.len(),
                forall|j: int| 0 <= j < cells@.len() ==> (#[trigger] cells@[j]) == m.cells[j],
            decreases m.cells.len() - cells@.len(),
        {
            let idx: usize = cells.len();
            let c: u32 = self.cells[idx];
            cells.push(c);
        }
        assert(cells@ =~= m.cells);
        let mut dirty_new: Vec<usize> = Vec::new();
        assert(dirty_new@.to_set() =~= dirty_after_upto(m, 0));
        let mut k: usize = 0;
        while k < self.modified_cells.len()
            invariant
                k <= m.dirty.len(),
                cells@.len() == m.cells.len(),
                forall|j: int|
                    0 <= j < m.cells.len() ==> (#[trigger] cells@[j]) as int == m.cells[j]
                        + gain_upto(m, k as int, j) - loss_upto(m, k as int, j),
                total(cells@) == total(m.cells),
                strictly_increasing(dirty_new@),
                dirty_new@.to_set() == dirty_after_upto(m, k as int),
                forall|t: int|
                    0 <= t < dirty_new@.len() ==> (#[trigger] dirty_new@[t]) < m.cells.len(),
                (dirty_new@.len() > 0) == exists|t: int|
                    0 <= t < k && m.cells[(#[trigger] m.dirty[t]) as int] >= 4,
            decreases m.dirty.len() - k,
        {
            let i: usize = self.modified_cells[k];
            assert(i == m.dirty[k as int]);
            let snap: u32 = self.cells[i];
            if snap / 4 > 0 {
                // Cell i topples: it has not been decremented yet, since
                // the dirty list holds no duplicates.
                assert forall|t: int| 0 <= t < k implies (#[trigger] m.dirty[t]) as int
                    != i as int by {
                    assert(m.dirty[t] < m.dirty[k as int]);
                }
                proof {
                    lemma_loss_upto_absent(m, k as int, i as int);
                    lemma_gain_upto_nonneg(m, k as int, i as int);
                }
                let cur: u32 = cells[i];
                assert(cur >= 4);
                proof {
                    lemma_total_update(cells@, i as int, (cur - 4) as u32);
                }
                cells[i] = cur - 4;
                let ghost pre_insert = dirty_new@;
                insert_sorted(&mut dirty_new, i);
                proof {
                    lemma_insert_keeps_bound(pre_insert, dirty_new@, i, m.cells.len() as int);
                    lemma_nbr_set_zero(gw, gh, i as int);
                    assert(dirty_new@.to_set() =~= dirty_after_upto(m, k as int).insert(i).union(
                        nbr_set_upto(gw, gh, i as int, 0),
                    ));
                }
                let ghost base = cells@;
                let nbrs: [usize; 4] = self.get_von_neumann_indexes(i);
                let mut s: usize = 0;
                while s < 4
                    invariant
                        s <= 4,
                        cells@.len() == m.cells.len(),
                        forall|j: int|
                            0 <= j < m.cells.len() ==> (#[trigger] cells@[j]) as int == base[j]
                                + slot_count(gw, gh, i as int, j, s as int),
                        total(cells@) == total(m.cells) - 4 + s,
                        strictly_increasing(dirty_new@),
                        dirty_new@.to_set() == dirty_after_upto(m, k as int).insert(i).union(
                            nbr_set_upto(gw, gh, i as int, s as int),
                        ),
                        dirty_new@.len() > 0,
                        forall|t: int|
                            0 <= t < dirty_new@.len() ==> (#[trigger] dirty_new@[t])
                                < m.cells.len(),
                    decreases 4 - s,
                {
                    let j: usize = nbrs[s];
                    let cj: u32 = cells[j];
                    proof {
                        lemma_element_le_total(cells@, j as int);
                        lemma_total_update(cells@, j as int, (cj + 1) as u32);
                    }
                    cells[j] = cj + 1;
                    let ghost pre2 = dirty_new@;
                    insert_sorted(&mut dirty_new, j);
                    proof {
                        lemma_insert_keeps_bound(pre2, dirty_new@, j, m.cells.len() as int);
                        lemma_nbr_set_step(gw, gh, i as int, s as int, j);
                        assert(dirty_new@.to_set() =~= dirty_after_upto(m, k as int).insert(
                            i,
                        ).union(nbr_set_upto(gw, gh, i as int, s as int + 1)));
                    }
                    s += 1;
                }
                proof {
                    lemma_dirty_after_step_topple(m, k as int);
                    assert(dirty_new@.to_set() == dirty_after_upto(m, k as int + 1));
                    assert forall|j: int| 0 <= j < m.cells.len() implies (#[trigger] cells@[j])
                        as int == m.cells[j] + gain_upto(m, k as int + 1, j) - loss_upto(
                        m,
                        k as int + 1,
                        j,
                    ) by {
                        assert(cells@[j] as int == base[j] + slot_count(gw, gh, i as int, j, 4));
                        assert(gain_upto(m, k as int + 1, j) == gain_upto(m, k as int, j)
                            + slot_count(gw, gh, i as int, j, 4));
                        if j == i as int {
                            assert(loss_upto(m, k as int + 1, j) == loss_upto(m, k as int, j) + 4);
                        } else {
                            assert(loss_upto(m, k as int + 1, j) == loss_upto(m, k as int, j));
                        }
                    }
                    assert(0 <= k < k as int + 1 && m.cells[m.dirty[k as int] as int] >= 4);
                }
            } else {
                proof {
                    lemma_dirty_after_step_quiet(m, k as int);
                    assert((exists|t: int|
                        0 <= t < k + 1 && m.cells[(#[trigger] m.dirty[t]) as int] >= 4) == (
                    exists|t: int| 0 <= t < k && m.cells[(#[trigger] m.dirty[t]) as int] >= 4)) by {
                        if exists|t: int|
                            0 <= t < k + 1 && m.cells[(#[trigger] m.dirty[t]) as int] >= 4 {
                            let t = choose|t: int|
                                0 <= t < k + 1 && m.cells[(#[trigger] m.dirty[t]) as int] >= 4;
                            assert(t < k);
                            assert(0 <= t < k && m.cells[m.dirty[t] as int] >= 4);
                        }
                    }
                }
            }
            k += 1;
        }
        if dirty_new.len() > 0 {
            proof {
                let t = choose|t: int|
                    0 <= t < m.dirty.len() && m.cells[(#[trigger] m.dirty[t]) as int] >= 4;
                assert(!stable(m));
            }
            self.cells = cells;
            self.modified_cells = dirty_new;
            self.iteration = self.iteration + 1;
            proof {
                let tm = ticked(m);
                assert forall|j: int| 0 <= j < m.cells.len() implies self@.cells[j]
                    == tm.cells[j] by {
                    assert(self@.cells[j] as int == new_cell(m, j));
                }
                assert(self@.cells =~= tm.cells);
                assert(strictly_increasing(self@.dirty) && self@.dirty.to_set() == dirty_after(m));
                assert(exists|q: Seq<usize>| strictly_increasing(q) && q.to_set() == dirty_after(m));
                assert(strictly_increasing(tm.dirty) && tm.dirty.to_set() == dirty_after(m));
                lemma_strictly_increasing_unique(self@.dirty, tm.dirty);
                assert(self@ =~= tm);
            }
            true
        } else {
            proof {
                assert forall|t: int| 0 <= t < m.dirty.len() implies m.cells[(#[trigger] m.dirty[t])
                    as int] < 4 by {
                    if m.cells[m.dirty[t] as int] >= 4 {
                        assert(0 <= t < m.dirty.len() && m.cells[m.dirty[t] as int] >= 4);
                    }
                }
                assert(stable(m));
                assert(ticked(m) == m);
            }
            false
        }
    }

    /// Advance the world by up to `steps` steps, stopping early the first
    /// time a step finds the world stable: after that no further step
    /// runs and the iteration counter stops advancing. Returns `true`
    /// only if all `steps` steps toppled something; asking for zero steps
    /// vacuously returns `true` and performs no mutation. The total grain
    /// count is conserved.
    #[verifier::loop_isolation(false)]
    pub fn compute_steps(&mut self, steps: u32) -> (all_unstable: bool)
        requires
            wf(old(self)@),
            total(old(self)@.cells) <= u32::MAX,
            old(self)@.iteration + steps <= u32::MAX,
        ensures
            wf(final(self)@),
            final(self)@ == run(old(self)@, steps as nat),
            total(final(self)@.cells) == total(old(self)@.cells),
            all_unstable == (forall|t: int| 0 <= t < steps ==> !stable(#[trigger] run(old(self)@, t as nat))),
            steps == 0 ==> all_unstable && *final(self) == *old(self),
            !all_unstable ==> stable(final(self)@),
    {
        if steps == 0 {
            return true;
        }
        let ghost m0 = self@;
        let mut n: u32 = 0;
        while n < steps
            invariant
                n <= steps,
                wf(self@),
                self@ == run(m0, n as nat),
                total(self@.cells) == total(m0.cells),
                self@.iteration <= m0.iteration + n,
                forall|t: int| 0 <= t < n ==> !stable(#[trigger] run(m0, t as nat)),
            decreases steps - n,
        {
            let changed: bool = self.tick();
            proof {
                assert(run(m0, n as nat + 1) == ticked(run(m0, n as nat)));
            }
            if !changed {
                proof {
                    assert(stable(run(m0, n as nat)));
                    lemma_run_frozen(m0, n as nat, steps as nat);
                }
                return false;
            }
            n = n + 1;
        }
        true
    }

    /// Grain count of the cell at `(row, col)`. The caller must keep
    /// `row` and `col` in range.
    pub fn get_cell(&self, row: u32, col: u32) -> (count: u32)
        requires
            wf(self@),
            row < self@.height,
            col < self@.width,
        ensures
            count == self@.cells[flat_index(self@.width, row as int, col as int)],
    {
        let i: usize = self.get_index(row, col);
        self.cells[i]
    }

    /// Overwrite the grain count of the cell at `(row, col)`. The dirty
    /// list is not touched: the caller is responsible for consistency
    /// when mutating between steps.
    pub fn set_cell(&mut self, row: u32, col: u32, val: u32)
        requires
            wf(old(self)@),
            row < old(self)@.height,
            col < old(self)@.width,
        ensures
            wf(final(self)@),
            final(self)@.cells == old(self)@.cells.update(
                flat_index(old(self)@.width, row as int, col as int),
                val,
            ),
            final(self)@.width == old(self)@.width,
            final(self)@.height == old(self)@.height,
            final(self)@.iteration == old(self)@.iteration,
            final(self)@.dirty == old(self)@.dirty,
            total(final(self)@.cells) == total(old(self)@.cells) - old(self)@.cells[flat_index(
                old(self)@.width,
                row as int,
                col as int,
            )] + val,
    {
        let idx: usize = self.get_index(row, col);
        proof {
            lemma_total_update(self@.cells, idx as int, val);
        }
        self.cells[idx] = val;
    }

    /// Grid width in cells.
    pub fn get_width(&self) -> (w: u32)
        ensures
            w as int == self@.width,
    {
        self.width
    }

    /// Grid height in cells.
    pub fn get_height(&self) -> (h: u32)
        ensures
            h as int == self@.height,
    {
        self.height
    }

    /// Number of committed steps since construction.
    pub fn get_iteration(&self) -> (it: u32)
        ensures
            it as int == self@.iteration,
    {
        self.iteration
    }

    /// Read-only view of the grain-count buffer, row-major, of length
    /// `width * height`. The borrow must not be kept across a mutating
    /// call.
    pub fn get_cells(&self) -> (cells: &Vec<u32>)
        ensures
            cells@ == self@.cells,
    {
        &self.cells
    }
}

} // verus!
