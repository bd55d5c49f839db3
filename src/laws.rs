//! Properties of the search that relate several functions or hold of all
//! inputs.
use crate::constraints::{
    contribution, lemma_role_total_bound, role_total, soft_bound, total_score, Constraints, Role,
};
use crate::fitness::{
    booking_penalty, excess, has_overlap_in, lemma_excess_zero, overlap_penalty, penalty, scan,
    PauseState,
};
use crate::genetic::{fits_problem, generation_size, is_valid_for, score_of};
use crate::model::{
    defragged, in_grid, lemma_empty_grid_load, lemma_room_order_total,
    lemma_slot_load_multiset, room_order_fn, slot_load,
};
use crate::timetable::TimeTable;
use vstd::prelude::*;
use vstd::seq_lib::lemma_sorted_unique;

verus! {

/// Timeslot `t` holds a course of the entity.
pub open spec fn busy(grid: Seq<Seq<usize>>, filter: Option<Set<usize>>, t: int) -> bool {
    slot_load(grid[t], filter) > 0
}

/// The busy timeslots of the entity form one unbroken run.
pub open spec fn contiguous(grid: Seq<Seq<usize>>, filter: Option<Set<usize>>) -> bool {
    forall|i: int, j: int, k: int|
        0 <= i < j < k < grid.len() && #[trigger] busy(grid, filter, i) && #[trigger] busy(
            grid,
            filter,
            k,
        ) ==> #[trigger] busy(grid, filter, j)
}

/// No timeslot holds two courses of the entity.
pub open spec fn no_double_booking(grid: Seq<Seq<usize>>, filter: Option<Set<usize>>) -> bool {
    forall|t: int| 0 <= t < grid.len() ==> #[trigger] slot_load(grid[t], filter) <= 1
}

/// Timeslot `t` is a single idle timeslot between two busy ones.
pub open spec fn single_gap_at(grid: Seq<Seq<usize>>, filter: Option<Set<usize>>, t: int) -> bool {
    &&& 0 < t < grid.len() - 1
    &&& busy(grid, filter, t - 1)
    &&& !busy(grid, filter, t)
    &&& busy(grid, filter, t + 1)
}

pub open spec fn no_single_gap(grid: Seq<Seq<usize>>, filter: Option<Set<usize>>) -> bool {
    forall|t: int| !#[trigger] single_gap_at(grid, filter, t)
}

/// In a well-formed table, which every operation keeps, each placed course
/// occupies exactly one cell, the one the reverse index (and so `find`)
/// reports, and every occupied cell holds a placed course.
pub proof fn law_each_course_placed_once(tt: TimeTable)
    requires
        tt.wf(),
    ensures
        forall|c: usize| #[trigger]
            tt.placed().contains(c) ==> in_grid(
                tt@,
                tt.location(c).0 as int,
                tt.location(c).1 as int,
            ) && tt@[tt.location(c).0 as int][tt.location(c).1 as int] == c,
        forall|t: int, r: int|
            in_grid(tt@, t, r) && #[trigger] tt@[t][r] != 0 ==> tt.placed().contains(tt@[t][r]),
        forall|t1: int, r1: int, t2: int, r2: int|
            in_grid(tt@, t1, r1) && in_grid(tt@, t2, r2) && #[trigger] tt@[t1][r1] != 0 && tt@[t1][r1]
                == #[trigger] tt@[t2][r2] ==> t1 == t2 && r1 == r2,
{
    tt.lemma_placement();
    assert forall|t1: int, r1: int, t2: int, r2: int|
        in_grid(tt@, t1, r1) && in_grid(tt@, t2, r2) && #[trigger] tt@[t1][r1] != 0 && tt@[t1][r1]
            == #[trigger] tt@[t2][r2] implies t1 == t2 && r1 == r2 by {
        let c = tt@[t1][r1];
        assert(tt.location(c) == (t1 as usize, r1 as usize));
        assert(tt.location(c) == (t2 as usize, r2 as usize));
        assert(tt@[t1].len() == tt.rooms() && tt@[t2].len() == tt.rooms());
    }
}

/// The state after `n` timeslots: `HasBefore` right after a busy timeslot,
/// `HasPause` after one idle timeslot that follows a busy one.
proof fn lemma_scan_state(grid: Seq<Seq<usize>>, filter: Option<Set<usize>>, n: nat)
    requires
        n <= grid.len(),
    ensures
        scan(grid, filter, n).0 == if n >= 1 && busy(grid, filter, n - 1) {
            PauseState::HasBefore
        } else if n >= 2 && busy(grid, filter, n - 2) {
            PauseState::HasPause
        } else {
            PauseState::Initial
        },
    decreases n,
{
    if n > 0 {
        lemma_scan_state(grid, filter, (n - 1) as nat);
    }
}

/// The penalty over the first `n` timeslots is zero exactly when none of
/// them is double-booked and no single idle timeslot among them lies
/// between busy ones.
proof fn lemma_scan_zero(grid: Seq<Seq<usize>>, filter: Option<Set<usize>>, n: nat)
    requires
        n <= grid.len(),
    ensures
        scan(grid, filter, n).1 == 0 <==> (forall|t: int|
            0 <= t < n ==> #[trigger] slot_load(grid[t], filter) <= 1) && (forall|t: int|
            t + 1 < n ==> !#[trigger] single_gap_at(grid, filter, t)),
    decreases n,
{
    if n > 0 {
        lemma_scan_zero(grid, filter, (n - 1) as nat);
        lemma_scan_state(grid, filter, (n - 1) as nat);
        let load = slot_load(grid[n - 1], filter);
        if load > 1 {
            assert(booking_penalty(load) > 0) by (nonlinear_arith)
                requires
                    load > 1,
                    booking_penalty(load) == (load - 1) * 3,
            ;
        }
        if n >= 3 && single_gap_at(grid, filter, n - 2) {
            assert(scan(grid, filter, (n - 1) as nat).0 == PauseState::HasPause);
        }
        if scan(grid, filter, n).1 == 0 {
            assert forall|t: int| t + 1 < n implies !#[trigger] single_gap_at(grid, filter, t) by {
                if t + 2 < n {
                } else if single_gap_at(grid, filter, t) {
                    assert(scan(grid, filter, (n - 1) as nat).0 == PauseState::HasPause);
                }
            }
        }
    }
}

/// An entity's penalty is zero exactly when no timeslot holds two of its
/// courses and no single idle timeslot lies between two busy ones.
pub proof fn law_zero_penalty(grid: Seq<Seq<usize>>, filter: Option<Set<usize>>)
    ensures
        penalty(grid, filter) == 0 <==> no_double_booking(grid, filter) && no_single_gap(grid, filter),
{
    lemma_scan_zero(grid, filter, grid.len());
    if no_double_booking(grid, filter) && (forall|t: int| t + 1 < grid.len() ==> !#[trigger] single_gap_at(grid, filter, t)) {
        assert forall|t: int| !#[trigger] single_gap_at(grid, filter, t) by {
            if t + 1 >= grid.len() {
            }
        }
    }
}

/// An entity's penalty is zero exactly when its courses fill one unbroken
/// run of timeslots, one course per timeslot. This holds of every table
/// except one whose only breaks in the run are idle stretches of two or more
/// timeslots: the pause states leave those uncharged.
pub proof fn law_zero_penalty_contiguous(grid: Seq<Seq<usize>>, filter: Option<Set<usize>>)
    requires
        contiguous(grid, filter) || !(no_double_booking(grid, filter) && no_single_gap(
            grid,
            filter,
        )),
    ensures
        penalty(grid, filter) == 0 <==> contiguous(grid, filter) && no_double_booking(grid, filter),
{
    law_zero_penalty(grid, filter);
    if contiguous(grid, filter) {
        assert forall|t: int| !#[trigger] single_gap_at(grid, filter, t) by {
            if single_gap_at(grid, filter, t) {
                assert(busy(grid, filter, t - 1) && busy(grid, filter, t + 1));
                assert(busy(grid, filter, t));
            }
        }
    }
}

proof fn lemma_idle_scan(grid: Seq<Seq<usize>>, filter: Option<Set<usize>>, n: nat)
    requires
        n <= grid.len(),
        forall|t: int| 0 <= t < grid.len() ==> #[trigger] slot_load(grid[t], filter) == 0,
    ensures
        scan(grid, filter, n).1 == 0,
        excess(grid, filter, n) == 0,
    decreases n,
{
    if n > 0 {
        lemma_idle_scan(grid, filter, (n - 1) as nat);
    }
}

/// A table with every cell empty costs nothing to any entity.
pub proof fn law_empty_table_scores_zero(
    grid: Seq<Seq<usize>>,
    filter: Option<Set<usize>>,
    prof: Set<usize>,
    weight: nat,
)
    requires
        forall|t: int, r: int| in_grid(grid, t, r) ==> #[trigger] grid[t][r] == 0,
    ensures
        penalty(grid, filter) == 0,
        overlap_penalty(grid, prof, weight) == 0,
        !has_overlap_in(grid, prof),
{
    lemma_empty_grid_load(grid, filter);
    lemma_empty_grid_load(grid, Some(prof));
    lemma_idle_scan(grid, filter, grid.len());
    lemma_idle_scan(grid, Some(prof), grid.len());
}

/// Sorting a timeslot's rooms keeps its load for every entity.
proof fn lemma_sorted_row_load(row: Seq<usize>, filter: Option<Set<usize>>)
    ensures
        slot_load(row.sort_by(room_order_fn()), filter) == slot_load(row, filter),
{
    lemma_room_order_total();
    row.lemma_sort_by_ensures(room_order_fn());
    lemma_slot_load_multiset(row, filter);
    lemma_slot_load_multiset(row.sort_by(room_order_fn()), filter);
}

/// Two grids whose timeslots have the same loads get the same scan.
proof fn lemma_same_loads_scan(
    a: Seq<Seq<usize>>,
    b: Seq<Seq<usize>>,
    filter: Option<Set<usize>>,
    n: nat,
)
    requires
        n <= a.len(),
        a.len() == b.len(),
        forall|t: int| 0 <= t < a.len() ==> slot_load(#[trigger] a[t], filter) == slot_load(b[t], filter),
    ensures
        scan(a, filter, n) == scan(b, filter, n),
        excess(a, filter, n) == excess(b, filter, n),
    decreases n,
{
    if n > 0 {
        lemma_same_loads_scan(a, b, filter, (n - 1) as nat);
    }
}

proof fn lemma_defrag_loads(grid: Seq<Seq<usize>>, filter: Option<Set<usize>>)
    ensures
        forall|t: int|
            0 <= t < grid.len() ==> slot_load(#[trigger] defragged(grid)[t], filter) == slot_load(
                grid[t],
                filter,
            ),
{
    assert forall|t: int| 0 <= t < grid.len() implies slot_load(
        #[trigger] defragged(grid)[t],
        filter,
    ) == slot_load(grid[t], filter) by {
        lemma_sorted_row_load(grid[t], filter);
    }
}

proof fn lemma_defrag_role_total(grid: Seq<Seq<usize>>, sets: Seq<Set<usize>>, role: Role, weight: nat)
    ensures
        role_total(defragged(grid), sets, role, weight) == role_total(grid, sets, role, weight),
    decreases sets.len(),
{
    if sets.len() > 0 {
        lemma_defrag_role_total(grid, sets.drop_last(), role, weight);
        let s = sets.last();
        lemma_defrag_loads(grid, Some(s));
        lemma_same_loads_scan(defragged(grid), grid, Some(s), grid.len());
    }
}

/// Defragmenting twice is defragmenting once, and it changes no entity's
/// penalty, no professor's overlap, and no table score.
pub proof fn law_defrag_idempotent(
    grid: Seq<Seq<usize>>,
    filter: Option<Set<usize>>,
    prof: Set<usize>,
    students: Seq<Set<usize>>,
    professors: Seq<Set<usize>>,
    weight: nat,
)
    ensures
        defragged(defragged(grid)) == defragged(grid),
        penalty(defragged(grid), filter) == penalty(grid, filter),
        overlap_penalty(defragged(grid), prof, weight) == overlap_penalty(grid, prof, weight),
        has_overlap_in(defragged(grid), prof) == has_overlap_in(grid, prof),
        total_score(defragged(grid), students, professors, weight) == total_score(
            grid,
            students,
            professors,
            weight,
        ),
{
    let once = defragged(grid);
    lemma_room_order_total();
    assert forall|t: int| 0 <= t < grid.len() implies #[trigger] once[t].sort_by(room_order_fn())
        == once[t] by {
        let row = grid[t];
        row.lemma_sort_by_ensures(room_order_fn());
        once[t].lemma_sort_by_ensures(room_order_fn());
        lemma_sorted_unique(once[t].sort_by(room_order_fn()), once[t], room_order_fn());
    }
    assert(defragged(once) =~= once);
    lemma_defrag_loads(grid, filter);
    lemma_same_loads_scan(once, grid, filter, grid.len());
    lemma_defrag_loads(grid, Some(prof));
    lemma_same_loads_scan(once, grid, Some(prof), grid.len());
    if has_overlap_in(grid, prof) {
        let t = choose|t: int| 0 <= t < grid.len() && #[trigger] slot_load(grid[t], Some(prof)) > 1;
        assert(slot_load(once[t], Some(prof)) > 1);
    }
    if has_overlap_in(once, prof) {
        let t = choose|t: int| 0 <= t < once.len() && #[trigger] slot_load(once[t], Some(prof)) > 1;
        assert(slot_load(grid[t], Some(prof)) > 1);
    }
    lemma_defrag_role_total(grid, students, Role::Student, weight);
    lemma_defrag_role_total(grid, professors, Role::Professor, weight);
}

/// A population of at least `2 * n_pairs` individuals gives exactly
/// `n_pairs * n_children` children.
pub proof fn law_generation_size(population_len: nat, n_pairs: nat, n_children: nat)
    requires
        population_len >= 2 * n_pairs,
    ensures
        generation_size(population_len, n_pairs, n_children) == n_pairs * n_children,
{
    assert(2 * n_pairs / 2 == n_pairs);
}

/// A professor without an overlap adds nothing to the score.
proof fn lemma_no_overlap_total(grid: Seq<Seq<usize>>, sets: Seq<Set<usize>>, weight: nat)
    requires
        forall|p: int| 0 <= p < sets.len() ==> !has_overlap_in(grid, #[trigger] sets[p]),
    ensures
        role_total(grid, sets, Role::Professor, weight) == 0,
    decreases sets.len(),
{
    if sets.len() > 0 {
        let init = sets.drop_last();
        assert forall|p: int| 0 <= p < init.len() implies !has_overlap_in(grid, #[trigger] init[p]) by {
            assert(init[p] == sets[p]);
        }
        lemma_no_overlap_total(grid, init, weight);
        let last = sets.last();
        assert(!has_overlap_in(grid, sets[sets.len() - 1]));
        lemma_excess_zero(grid, Some(last), grid.len());
    }
}

/// A sum of penalties is at least each of its parts.
proof fn lemma_total_covers(grid: Seq<Seq<usize>>, sets: Seq<Set<usize>>, role: Role, weight: nat, p: int)
    requires
        0 <= p < sets.len(),
    ensures
        role_total(grid, sets, role, weight) >= contribution(grid, sets[p], role, weight),
    decreases sets.len(),
{
    if p < sets.len() - 1 {
        lemma_total_covers(grid, sets.drop_last(), role, weight, p);
    }
}

/// One professor overlap costs more than all the students' penalties on any
/// table of the problem's size.
pub proof fn law_overlap_outweighs_students(con: &Constraints, a: TimeTable, b: TimeTable, p: int)
    requires
        con.wf(),
        fits_problem(con, a),
        fits_problem(con, b),
        0 <= p < con.professor_sets().len(),
        has_overlap_in(b@, con.professor_sets()[p]),
    ensures
        overlap_penalty(b@, con.professor_sets()[p], con.weight()) > role_total(
            a@,
            con.student_sets(),
            Role::Student,
            con.weight(),
        ),
{
    con.lemma_weight();
    a.lemma_placement();
    b.lemma_placement();
    let prof = con.professor_sets()[p];
    lemma_role_total_bound(a@, con.student_sets(), Role::Student, con.weight(), con.rooms());
    lemma_excess_zero(b@, Some(prof), b@.len());
    let e = excess(b@, Some(prof), b@.len());
    assert(e >= 1);
    assert(e * con.weight() >= con.weight()) by (nonlinear_arith)
        requires
            e >= 1,
    ;
    assert(role_total(a@, con.student_sets(), Role::Student, con.weight()) <= soft_bound(
        con.timeslots(),
        con.rooms(),
        con.student_sets().len(),
    ));
}

/// A valid table always scores below an invalid one: no sum of student
/// penalties makes up for a professor overlap.
pub proof fn law_valid_outranks_invalid(con: &Constraints, a: TimeTable, b: TimeTable)
    requires
        con.wf(),
        fits_problem(con, a),
        fits_problem(con, b),
        is_valid_for(con, a),
        !is_valid_for(con, b),
    ensures
        score_of(con, a) < score_of(con, b),
{
    let profs = con.professor_sets();
    let w = con.weight();
    let p = choose|p: int| 0 <= p < profs.len() && has_overlap_in(b@, #[trigger] profs[p]);
    law_overlap_outweighs_students(con, a, b, p);
    lemma_no_overlap_total(a@, profs, w);
    lemma_total_covers(b@, profs, Role::Professor, w, p);
}

} // verus!
