//! Penalties of a timetable for one student or professor.
use crate::model::{
    counts, lemma_slot_load_bound, lemma_slot_load_prefix, rectangular, slot_load, table_fits,
    DOUBLE_BOOKING_PENALTY, GAP_PENALTY,
};
use crate::timetable::TimeTable;
use std::collections::HashSet;
use vstd::prelude::*;

verus! {

/// Where the scan over the timeslots stands for one entity.
#[derive(Debug, Clone, Copy, PartialEq, Eq, Structural)]
pub enum PauseState {
    /// No class seen yet, or the last idle run has been left uncharged.
    Initial,
    /// Inside a run of busy timeslots.
    HasBefore,
    /// One idle timeslot after a busy one.
    HasPause,
}

impl PauseState {
    /// The next state after a busy or idle timeslot, and the gap penalty
    /// charged on that step.
    pub open spec fn step_spec(self, busy: bool) -> (PauseState, nat) {
        if busy {
            match self {
                PauseState::HasPause => (PauseState::HasBefore, GAP_PENALTY as nat),
                _ => (PauseState::HasBefore, 0),
            }
        } else {
            match self {
                PauseState::Initial => (PauseState::Initial, 0),
                PauseState::HasBefore => (PauseState::HasPause, 0),
                PauseState::HasPause => (PauseState::Initial, 0),
            }
        }
    }

    pub fn step(self, busy: bool) -> (r: (PauseState, usize))
        ensures
            r.0 == self.step_spec(busy).0,
            r.1 == self.step_spec(busy).1,
    {
        if busy {
            match self {
                PauseState::Initial => (PauseState::HasBefore, 0),
                PauseState::HasBefore => (PauseState::HasBefore, 0),
                PauseState::HasPause => (PauseState::HasBefore, GAP_PENALTY),
            }
        } else {
            match self {
                PauseState::Initial => (PauseState::Initial, 0),
                PauseState::HasBefore => (PauseState::HasPause, 0),
                PauseState::HasPause => (PauseState::Initial, 0),
            }
        }
    }
}

/// The set a filter argument stands for.
pub open spec fn filter_view(filter: Option<&HashSet<usize>>) -> Option<Set<usize>> {
    match filter {
        Some(f) => Some(f@),
        None => None,
    }
}

/// Double-booking penalty of a timeslot with `load` courses of the entity.
pub open spec fn booking_penalty(load: nat) -> nat {
    if load > 1 {
        ((load - 1) * DOUBLE_BOOKING_PENALTY) as nat
    } else {
        0
    }
}

/// The state and the penalty after the first `n` timeslots.
pub open spec fn scan(grid: Seq<Seq<usize>>, filter: Option<Set<usize>>, n: nat) -> (
    PauseState,
    nat,
)
    decreases n,
{
    if n == 0 {
        (PauseState::Initial, 0)
    } else {
        let (state, score) = scan(grid, filter, (n - 1) as nat);
        let load = slot_load(grid[n - 1], filter);
        let (next, gap) = state.step_spec(load > 0);
        (next, score + gap + booking_penalty(load))
    }
}

/// The penalty of an entity whose courses are those `filter` admits.
pub open spec fn penalty(grid: Seq<Seq<usize>>, filter: Option<Set<usize>>) -> nat {
    scan(grid, filter, grid.len()).1
}

/// Courses beyond the first that share a timeslot, over the first `n`
/// timeslots.
pub open spec fn excess(grid: Seq<Seq<usize>>, filter: Option<Set<usize>>, n: nat) -> nat
    decreases n,
{
    if n == 0 {
        0
    } else {
        let load = slot_load(grid[n - 1], filter);
        excess(grid, filter, (n - 1) as nat) + if load > 1 {
            (load - 1) as nat
        } else {
            0
        }
    }
}

/// The penalty of a professor for teaching two courses at once: `weight`
/// for each course beyond the first in a timeslot.
pub open spec fn overlap_penalty(grid: Seq<Seq<usize>>, prof: Set<usize>, weight: nat) -> nat {
    excess(grid, Some(prof), grid.len()) * weight
}

/// Some timeslot holds two or more of the professor's courses.
pub open spec fn has_overlap_in(grid: Seq<Seq<usize>>, prof: Set<usize>) -> bool {
    exists|t: int| 0 <= t < grid.len() && #[trigger] slot_load(grid[t], Some(prof)) > 1
}

pub proof fn lemma_excess_zero(grid: Seq<Seq<usize>>, filter: Option<Set<usize>>, n: nat)
    requires
        n <= grid.len(),
    ensures
        excess(grid, filter, n) == 0 <==> forall|t: int|
            0 <= t < n ==> #[trigger] slot_load(grid[t], filter) <= 1,
    decreases n,
{
    if n > 0 {
        lemma_excess_zero(grid, filter, (n - 1) as nat);
    }
}

/// An entity's penalty is at most four units per cell of the table.
pub proof fn lemma_scan_bound(
    grid: Seq<Seq<usize>>,
    filter: Option<Set<usize>>,
    n: nat,
    n_rooms: nat,
)
    requires
        rectangular(grid, n_rooms),
        n <= grid.len(),
    ensures
        scan(grid, filter, n).1 <= n * (3 * n_rooms + 1),
    decreases n,
{
    if n > 0 {
        lemma_scan_bound(grid, filter, (n - 1) as nat, n_rooms);
        lemma_slot_load_bound(grid[n - 1], filter);
        assert((n - 1) * (3 * n_rooms + 1) + 1 + 3 * n_rooms == n * (3 * n_rooms + 1))
            by (nonlinear_arith);
    }
}

pub proof fn lemma_excess_bound(
    grid: Seq<Seq<usize>>,
    filter: Option<Set<usize>>,
    n: nat,
    n_rooms: nat,
)
    requires
        rectangular(grid, n_rooms),
        n <= grid.len(),
    ensures
        excess(grid, filter, n) <= n * n_rooms,
    decreases n,
{
    if n > 0 {
        lemma_excess_bound(grid, filter, (n - 1) as nat, n_rooms);
        lemma_slot_load_bound(grid[n - 1], filter);
        assert((n - 1) * n_rooms + n_rooms == n * n_rooms) by (nonlinear_arith);
    }
}

impl TimeTable {
    /// How many cells of a timeslot hold a course that `filter` admits.
    fn slot_count(&self, time: usize, filter: Option<&HashSet<usize>>) -> (r: usize)
        requires
            self.wf(),
            time < self.timeslots(),
        ensures
            r == slot_load(self@[time as int], filter_view(filter)),
            r <= self.rooms(),
    {
        proof {
            self.lemma_placement();
        }
        let ghost row = self@[time as int];
        let n = self.n_rooms();
        let mut count: usize = 0;
        for room in 0..n
            invariant
                self.wf(),
                n == self.rooms(),
                time < self.timeslots(),
                row == self@[time as int],
                row.len() == n,
                count == slot_load(row.take(room as int), filter_view(filter)),
                count <= room,
        {
            let c = self.get(time, room);
            let admitted = c != 0 && match filter {
                Some(f) => f.contains(&c),
                None => true,
            };
            proof {
                lemma_slot_load_prefix(row, room as int, filter_view(filter));
                assert(admitted == counts(row[room as int], filter_view(filter)));
            }
            if admitted {
                count = count + 1;
            }
        }
        assert(row.take(n as int) =~= row);
        count
    }

    /// The penalty of one entity: one unit for each single idle timeslot
    /// between busy ones (as the pause states count them), and three for
    /// each course beyond the first in a timeslot. `None` counts every
    /// course.
    pub fn evaluate(&self, filter: Option<&HashSet<usize>>) -> (r: usize)
        requires
            self.wf(),
        ensures
            r == penalty(self@, filter_view(filter)),
    {
        proof {
            self.lemma_placement();
        }
        let n = self.n_timeslots();
        let rooms = self.n_rooms();
        let ghost f = filter_view(filter);
        let mut score: usize = 0;
        let mut state = PauseState::Initial;
        for time in 0..n
            invariant
                self.wf(),
                n == self.timeslots(),
                rooms == self.rooms(),
                n == self@.len(),
                table_fits(n as nat, rooms as nat),
                f == filter_view(filter),
                state == scan(self@, f, time as nat).0,
                score == scan(self@, f, time as nat).1,
                score <= time * (3 * rooms + 1),
        {
            let load = self.slot_count(time, filter);
            let (next, gap) = state.step(load > 0);
            proof {
                assert(rooms * 3 <= (n * rooms + n) * 4) by (nonlinear_arith)
                    requires
                        time < n,
                ;
            }
            let extra: usize = if load > 1 {
                (load - 1) * DOUBLE_BOOKING_PENALTY
            } else {
                0
            };
            proof {
                assert(time * (3 * rooms + 1) + 1 + 3 * rooms <= (time + 1) * (3 * rooms + 1))
                    by (nonlinear_arith);
                assert((time + 1) * (3 * rooms + 1) <= n * (3 * rooms + 1)) by (nonlinear_arith)
                    requires
                        time < n,
                ;
                assert(n * (3 * rooms + 1) <= (n * rooms + n) * 4) by (nonlinear_arith);
            }
            score = score + gap + extra;
            state = next;
        }
        score
    }

    /// The penalty of a professor for teaching courses at the same time:
    /// `weight` for each course beyond the first in a timeslot.
    pub fn professor_overlap(&self, prof: &HashSet<usize>, weight: usize) -> (r: usize)
        requires
            self.wf(),
            self.timeslots() * self.rooms() * weight <= usize::MAX,
        ensures
            r == overlap_penalty(self@, prof@, weight as nat),
    {
        proof {
            self.lemma_placement();
        }
        let n = self.n_timeslots();
        let rooms = self.n_rooms();
        let ghost f = Some(prof@);
        let mut score: usize = 0;
        for time in 0..n
            invariant
                self.wf(),
                n == self.timeslots(),
                rooms == self.rooms(),
                n == self@.len(),
                table_fits(n as nat, rooms as nat),
                f == Some(prof@),
                score == excess(self@, f, time as nat),
                score <= time * rooms,
        {
            let load = self.slot_count(time, Some(prof));
            proof {
                assert(time * rooms + rooms == (time + 1) * rooms) by (nonlinear_arith);
                assert((time + 1) * rooms <= (n * rooms + n) * 4) by (nonlinear_arith)
                    requires
                        time < n,
                ;
            }
            if load > 1 {
                score = score + (load - 1);
            }
            proof {
                assert(time * rooms + rooms == (time + 1) * rooms) by (nonlinear_arith);
            }
        }
        proof {
            assert(score * weight <= n * rooms * weight) by (nonlinear_arith)
                requires
                    score <= n * rooms,
            ;
        }
        score * weight
    }

    /// Whether some timeslot holds two or more of the professor's courses.
    pub fn has_overlap(&self, prof: &HashSet<usize>) -> (r: bool)
        requires
            self.wf(),
        ensures
            r == has_overlap_in(self@, prof@),
    {
        proof {
            self.lemma_placement();
            assert(self.timeslots() * self.rooms() * 1 <= usize::MAX) by (nonlinear_arith)
                requires
                    (self.timeslots() * self.rooms() + self.timeslots()) * 4 <= usize::MAX,
            ;
        }
        let score = self.professor_overlap(prof, 1);
        proof {
            self.lemma_placement();
            lemma_excess_zero(self@, Some(prof@), self@.len());
        }
        score != 0
    }
}

} // verus!
