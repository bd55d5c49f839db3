//! Mathematical model of a timetable grid: rows are timeslots, columns are
//! rooms, and each cell holds a course id or `0` for an empty cell.
use vstd::multiset::Multiset;
use vstd::prelude::*;
use vstd::relations::total_ordering;

verus! {

/// Penalty for one idle timeslot between two busy ones.
pub const GAP_PENALTY: usize = 1;

/// Penalty for each course beyond the first in one timeslot.
pub const DOUBLE_BOOKING_PENALTY: usize = 3;

/// The dimensions are small enough that every student penalty on a table of
/// this size fits in a `usize`.
pub open spec fn table_fits(n_timeslots: nat, n_rooms: nat) -> bool {
    (n_timeslots * n_rooms + n_timeslots) * 4 <= usize::MAX
}

/// The grid of the given size with every cell empty.
pub open spec fn empty_grid(n_timeslots: nat, n_rooms: nat) -> Seq<Seq<usize>> {
    Seq::new(n_timeslots, |t: int| Seq::new(n_rooms, |r: int| 0usize))
}

/// Whether a cell holding `c` belongs to the entity described by `filter`
/// (`None` stands for every course).
pub open spec fn counts(c: usize, filter: Option<Set<usize>>) -> bool {
    c != 0 && match filter {
        Some(f) => f.contains(c),
        None => true,
    }
}

pub open spec fn counts_pred(filter: Option<Set<usize>>) -> spec_fn(usize) -> bool {
    |c: usize| counts(c, filter)
}

/// Number of cells of one timeslot that hold a course of the entity.
pub open spec fn slot_load(row: Seq<usize>, filter: Option<Set<usize>>) -> nat
    decreases row.len(),
{
    if row.len() == 0 {
        0
    } else {
        slot_load(row.drop_last(), filter) + if counts(row.last(), filter) {
            1nat
        } else {
            0nat
        }
    }
}

/// Number of cells of the whole grid that hold a course of the entity.
pub open spec fn grid_load(grid: Seq<Seq<usize>>, filter: Option<Set<usize>>) -> nat
    decreases grid.len(),
{
    if grid.len() == 0 {
        0
    } else {
        grid_load(grid.drop_last(), filter) + slot_load(grid.last(), filter)
    }
}

/// Every row of the grid has `n_rooms` cells.
pub open spec fn rectangular(grid: Seq<Seq<usize>>, n_rooms: nat) -> bool {
    forall|t: int| 0 <= t < grid.len() ==> (#[trigger] grid[t]).len() == n_rooms
}

pub open spec fn in_grid(grid: Seq<Seq<usize>>, t: int, r: int) -> bool {
    0 <= t < grid.len() && 0 <= r < grid[t].len()
}

/// Some cell of the grid is empty.
pub open spec fn has_free_cell(grid: Seq<Seq<usize>>) -> bool {
    exists|t: int, r: int| in_grid(grid, t, r) && #[trigger] grid[t][r] == 0
}

/// The grid with one cell replaced.
pub open spec fn with_cell(grid: Seq<Seq<usize>>, t: int, r: int, c: usize) -> Seq<Seq<usize>> {
    grid.update(t, grid[t].update(r, c))
}

pub proof fn lemma_slot_load_prefix(row: Seq<usize>, i: int, filter: Option<Set<usize>>)
    requires
        0 <= i < row.len(),
    ensures
        slot_load(row.take(i + 1), filter) == slot_load(row.take(i), filter) + if counts(
            row[i],
            filter,
        ) {
            1nat
        } else {
            0nat
        },
{
    assert(row.take(i + 1).drop_last() =~= row.take(i));
}

pub proof fn lemma_slot_load_bound(row: Seq<usize>, filter: Option<Set<usize>>)
    ensures
        slot_load(row, filter) <= row.len(),
    decreases row.len(),
{
    if row.len() > 0 {
        lemma_slot_load_bound(row.drop_last(), filter);
    }
}

pub proof fn lemma_slot_load_update(row: Seq<usize>, i: int, c: usize, filter: Option<Set<usize>>)
    requires
        0 <= i < row.len(),
    ensures
        slot_load(row.update(i, c), filter) + (if counts(row[i], filter) {
            1nat
        } else {
            0nat
        }) == slot_load(row, filter) + (if counts(c, filter) {
            1nat
        } else {
            0nat
        }),
    decreases row.len(),
{
    let row2 = row.update(i, c);
    if i == row.len() - 1 {
        assert(row2.drop_last() =~= row.drop_last());
    } else {
        assert(row2.drop_last() =~= row.drop_last().update(i, c));
        lemma_slot_load_update(row.drop_last(), i, c, filter);
    }
}

pub proof fn lemma_grid_load_update(
    grid: Seq<Seq<usize>>,
    t: int,
    row: Seq<usize>,
    filter: Option<Set<usize>>,
)
    requires
        0 <= t < grid.len(),
    ensures
        grid_load(grid.update(t, row), filter) + slot_load(grid[t], filter) == grid_load(
            grid,
            filter,
        ) + slot_load(row, filter),
    decreases grid.len(),
{
    let grid2 = grid.update(t, row);
    if t == grid.len() - 1 {
        assert(grid2.drop_last() =~= grid.drop_last());
    } else {
        assert(grid2.drop_last() =~= grid.drop_last().update(t, row));
        lemma_grid_load_update(grid.drop_last(), t, row, filter);
    }
}

/// Changing one cell changes the count of occupied cells by at most one.
pub proof fn lemma_with_cell_load(grid: Seq<Seq<usize>>, t: int, r: int, c: usize)
    requires
        in_grid(grid, t, r),
    ensures
        grid_load(with_cell(grid, t, r, c), None) + (if grid[t][r] != 0 {
            1nat
        } else {
            0nat
        }) == grid_load(grid, None) + (if c != 0 {
            1nat
        } else {
            0nat
        }),
{
    lemma_slot_load_update(grid[t], r, c, None);
    lemma_grid_load_update(grid, t, grid[t].update(r, c), None);
}

pub proof fn lemma_slot_load_full(row: Seq<usize>)
    ensures
        (forall|r: int| 0 <= r < row.len() ==> row[r] != 0) ==> slot_load(row, None) == row.len(),
        (exists|r: int| 0 <= r < row.len() && row[r] == 0) ==> slot_load(row, None) < row.len(),
    decreases row.len(),
{
    if row.len() > 0 {
        lemma_slot_load_full(row.drop_last());
        lemma_slot_load_bound(row.drop_last(), None);
        if exists|r: int| 0 <= r < row.len() && row[r] == 0 {
            let r = choose|r: int| 0 <= r < row.len() && row[r] == 0;
            if r < row.len() - 1 {
                assert(row.drop_last()[r] == 0);
            }
        }
        if forall|r: int| 0 <= r < row.len() ==> row[r] != 0 {
            assert forall|r: int| 0 <= r < row.drop_last().len() implies row.drop_last()[r] != 0 by {
                assert(row[r] != 0);
            }
        }
    }
}

/// The occupied cells of a rectangular grid number at most its size, and
/// fewer exactly when some cell is empty.
pub proof fn lemma_grid_load_full(grid: Seq<Seq<usize>>, n_rooms: nat)
    requires
        rectangular(grid, n_rooms),
    ensures
        grid_load(grid, None) <= grid.len() * n_rooms,
        grid_load(grid, None) < grid.len() * n_rooms <==> has_free_cell(grid),
    decreases grid.len(),
{
    if grid.len() > 0 {
        let g = grid.drop_last();
        let last = grid.last();
        lemma_grid_load_full(g, n_rooms);
        lemma_slot_load_full(last);
        lemma_slot_load_bound(last, None);
        assert(grid.len() * n_rooms == g.len() * n_rooms + n_rooms) by (nonlinear_arith)
            requires
                grid.len() == g.len() + 1,
        ;
        if has_free_cell(grid) {
            let (t, r) = choose|t: int, r: int| in_grid(grid, t, r) && #[trigger] grid[t][r] == 0;
            if t < g.len() {
                assert(in_grid(g, t, r) && g[t][r] == 0);
            } else {
                assert(last[r] == 0);
            }
        }
        if has_free_cell(g) {
            let (t, r) = choose|t: int, r: int| in_grid(g, t, r) && #[trigger] g[t][r] == 0;
            assert(in_grid(grid, t, r) && grid[t][r] == 0);
        }
        if exists|r: int| 0 <= r < last.len() && last[r] == 0 {
            let r = choose|r: int| 0 <= r < last.len() && last[r] == 0;
            assert(in_grid(grid, grid.len() - 1, r) && grid[grid.len() - 1][r] == 0);
        }
    }
}

/// An all-empty grid holds no course.
pub proof fn lemma_empty_grid_load(grid: Seq<Seq<usize>>, filter: Option<Set<usize>>)
    requires
        forall|t: int, r: int| in_grid(grid, t, r) ==> #[trigger] grid[t][r] == 0,
    ensures
        grid_load(grid, filter) == 0,
        forall|t: int| 0 <= t < grid.len() ==> #[trigger] slot_load(grid[t], filter) == 0,
    decreases grid.len(),
{
    assert forall|t: int| 0 <= t < grid.len() implies #[trigger] slot_load(grid[t], filter) == 0 by {
        lemma_empty_row_load(grid[t], filter);
        assert forall|r: int| 0 <= r < grid[t].len() implies grid[t][r] == 0 by {
            assert(in_grid(grid, t, r));
        }
    }
    if grid.len() > 0 {
        let g = grid.drop_last();
        assert forall|t: int, r: int| in_grid(g, t, r) implies #[trigger] g[t][r] == 0 by {
            assert(in_grid(grid, t, r));
        }
        lemma_empty_grid_load(g, filter);
        assert(slot_load(grid[grid.len() - 1], filter) == 0);
    }
}

pub proof fn lemma_empty_row_load(row: Seq<usize>, filter: Option<Set<usize>>)
    requires
        forall|r: int| 0 <= r < row.len() ==> row[r] == 0,
    ensures
        slot_load(row, filter) == 0,
    decreases row.len(),
{
    if row.len() > 0 {
        lemma_empty_row_load(row.drop_last(), filter);
    }
}

/// The load of a timeslot depends only on which courses it holds, not on
/// the order of its rooms.
pub proof fn lemma_slot_load_multiset(row: Seq<usize>, filter: Option<Set<usize>>)
    ensures
        slot_load(row, filter) == row.to_multiset().filter(counts_pred(filter)).len(),
    decreases row.len(),
{
    broadcast use vstd::seq_lib::group_to_multiset_ensures;

    let p = counts_pred(filter);
    if row.len() == 0 {
        assert(row.to_multiset().filter(p) =~= Multiset::empty());
    } else {
        let init = row.drop_last();
        lemma_slot_load_multiset(init, filter);
        assert(row =~= init.push(row.last()));
        let m = init.to_multiset();
        assert(row.to_multiset() == m.insert(row.last()));
        if counts(row.last(), filter) {
            assert(m.insert(row.last()).filter(p) =~= m.filter(p).insert(row.last()));
        } else {
            assert(m.insert(row.last()).filter(p) =~= m.filter(p));
        }
    }
}

/// Display order of the rooms of one timeslot: courses by ascending id,
/// empty cells last.
pub open spec fn room_order(a: usize, b: usize) -> bool {
    b == 0 || (a != 0 && a <= b)
}

pub open spec fn room_order_fn() -> spec_fn(usize, usize) -> bool {
    |a: usize, b: usize| room_order(a, b)
}

/// The grid with each timeslot's rooms put in display order.
pub open spec fn defragged(grid: Seq<Seq<usize>>) -> Seq<Seq<usize>> {
    Seq::new(grid.len(), |t: int| grid[t].sort_by(room_order_fn()))
}

pub proof fn lemma_room_order_total()
    ensures
        total_ordering(room_order_fn()),
{
}

/// The empty cells among the first `n` rooms of timeslot `t`, in room order.
pub open spec fn row_free(row: Seq<usize>, t: int, n: int) -> Seq<(usize, usize)>
    decreases n,
{
    if n <= 0 {
        Seq::empty()
    } else {
        row_free(row, t, n - 1) + if row[n - 1] == 0 {
            seq![(t as usize, (n - 1) as usize)]
        } else {
            Seq::empty()
        }
    }
}

/// The empty cells of the first `m` timeslots, in row order.
pub open spec fn free_upto(grid: Seq<Seq<usize>>, m: int) -> Seq<(usize, usize)>
    decreases m,
{
    if m <= 0 {
        Seq::empty()
    } else {
        free_upto(grid, m - 1) + row_free(grid[m - 1], m - 1, grid[m - 1].len() as int)
    }
}

/// The empty cells of the grid, in row order: by timeslot, then by room.
pub open spec fn free_cells(grid: Seq<Seq<usize>>) -> Seq<(usize, usize)> {
    free_upto(grid, grid.len() as int)
}

/// Cell `a` comes before cell `b` in row order.
pub open spec fn cell_before(a: (usize, usize), b: (usize, usize)) -> bool {
    a.0 < b.0 || (a.0 == b.0 && a.1 < b.1)
}

/// The cells are listed in strictly increasing row order.
pub open spec fn in_row_order(cells: Seq<(usize, usize)>) -> bool {
    forall|i: int, j: int| 0 <= i < j < cells.len() ==> cell_before(#[trigger] cells[i], #[trigger] cells[j])
}

} // verus!
