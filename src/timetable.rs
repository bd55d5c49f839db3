//! One candidate solution: a grid of timeslots by rooms, with a reverse
//! index from course to cell and a cache of the free cells.
use crate::model::{
    cell_before, free_cells, free_upto, in_row_order, row_free, defragged, lemma_room_order_total, room_order, room_order_fn, empty_grid, grid_load, has_free_cell, in_grid, lemma_grid_load_full, lemma_with_cell_load,
    rectangular, table_fits, with_cell,
};
use crate::constraints::total_score;
use crate::fitness::{overlap_penalty, penalty};
use crate::laws::law_defrag_idempotent;
use crate::random::random_index;
use std::collections::HashMap;
use std::collections::HashSet;
use vstd::prelude::*;
use vstd::relations::sorted_by;
use vstd::seq_lib::lemma_sorted_unique;

verus! {

/// Why a course could not be placed.
#[derive(Debug, Clone, Copy, PartialEq, Eq, Structural)]
pub enum PlaceError {
    /// The course already sits at this `(time, room)`.
    CourseAlreadyPlaced(usize, usize),
    /// No cell of the table is free.
    NoCapacity,
}

#[derive(Debug, PartialEq, Eq)]
pub struct TimeTable {
    pub n_timeslots: usize,
    pub n_rooms: usize,
    inner: Vec<Vec<usize>>,
    lookup: HashMap<usize, (usize, usize)>,
    free_slots_cache: Option<Vec<(usize, usize)>>,
}

/// `slots` holds exactly the empty cells of `grid`.
pub open spec fn lists_free_cells(grid: Seq<Seq<usize>>, slots: Seq<(usize, usize)>) -> bool {
    &&& forall|i: int|
        0 <= i < slots.len() ==> in_grid(grid, #[trigger] slots[i].0 as int, slots[i].1 as int)
            && grid[slots[i].0 as int][slots[i].1 as int] == 0
    &&& forall|t: int, r: int|
        in_grid(grid, t, r) && #[trigger] grid[t][r] == 0 ==> slots.contains(
            (t as usize, r as usize),
        )
}

impl View for TimeTable {
    type V = Seq<Seq<usize>>;

    /// The grid: `self@[time][room]` is the course in that cell, `0` if empty.
    closed spec fn view(&self) -> Seq<Seq<usize>> {
        Seq::new(self.inner@.len(), |t: int| self.inner@[t]@)
    }
}

impl TimeTable {
    pub closed spec fn timeslots(&self) -> nat {
        self.n_timeslots as nat
    }

    pub closed spec fn rooms(&self) -> nat {
        self.n_rooms as nat
    }

    /// The courses placed in the table.
    pub closed spec fn placed(&self) -> Set<usize> {
        self.lookup@.dom()
    }

    /// The cell of a placed course, as the reverse index records it.
    pub closed spec fn location(&self, course: usize) -> (usize, usize) {
        self.lookup@[course]
    }

    pub closed spec fn wf(&self) -> bool {
        &&& self.inner@.len() == self.n_timeslots
        &&& forall|t: int| 0 <= t < self.inner@.len() ==> (#[trigger] self.inner@[t]).len() == self.n_rooms
        &&& forall|t: int, r: int|
            in_grid(self@, t, r) && #[trigger] self@[t][r] != 0 ==> self.lookup@.contains_key(
                self@[t][r],
            ) && self.lookup@[self@[t][r]] == (t as usize, r as usize)
        &&& forall|c: usize| #[trigger]
            self.lookup@.dom().contains(c) ==> c != 0 && in_grid(
                self@,
                self.lookup@[c].0 as int,
                self.lookup@[c].1 as int,
            ) && self@[self.lookup@[c].0 as int][self.lookup@[c].1 as int] == c
        &&& self.lookup@.dom().len() == grid_load(self@, None)
        &&& self.free_slots_cache matches Some(v) ==> lists_free_cells(self@, v@) && v@ == free_cells(
            self@,
        )
        &&& table_fits(self.n_timeslots as nat, self.n_rooms as nat)
    }

    /// Each placed course sits in exactly one cell, the one the reverse index
    /// gives, and every occupied cell holds a placed course.
    pub proof fn lemma_placement(&self)
        requires
            self.wf(),
        ensures
            self@.len() == self.timeslots(),
            self.timeslots() <= usize::MAX,
            self.rooms() <= usize::MAX,
            rectangular(self@, self.rooms()),
            table_fits(self.timeslots(), self.rooms()),
            forall|c: usize| #[trigger]
                self.placed().contains(c) ==> c != 0 && in_grid(
                    self@,
                    self.location(c).0 as int,
                    self.location(c).1 as int,
                ) && self@[self.location(c).0 as int][self.location(c).1 as int] == c,
            forall|t: int, r: int|
                in_grid(self@, t, r) && #[trigger] self@[t][r] != 0 ==> self.placed().contains(
                    self@[t][r],
                ) && self.location(self@[t][r]) == (t as usize, r as usize),
            self.placed().finite(),
            self.placed().len() == grid_load(self@, None),
            self.placed().len() <= self.timeslots() * self.rooms(),
            self.placed().len() < self.timeslots() * self.rooms() <==> has_free_cell(self@),
    {
        lemma_grid_load_full(self@, self.n_rooms as nat);
    }

    pub fn n_timeslots(&self) -> (r: usize)
        ensures
            r == self.timeslots(),
    {
        self.n_timeslots
    }

    pub fn n_rooms(&self) -> (r: usize)
        ensures
            r == self.rooms(),
    {
        self.n_rooms
    }

    /// An empty table of the given size.
    pub(crate) fn empty(n_timeslots: usize, n_rooms: usize) -> (r: Self)
        requires
            table_fits(n_timeslots as nat, n_rooms as nat),
        ensures
            r.wf(),
            r.timeslots() == n_timeslots,
            r.rooms() == n_rooms,
            r@ == empty_grid(n_timeslots as nat, n_rooms as nat),
            r.placed() == Set::<usize>::empty(),
    {
        let mut inner: Vec<Vec<usize>> = Vec::new();
        for t in 0..n_timeslots
            invariant
                inner@.len() == t,
                forall|i: int| 0 <= i < t ==> (#[trigger] inner@[i])@ == Seq::new(n_rooms as nat, |r: int| 0usize),
        {
            let mut row: Vec<usize> = Vec::new();
            for r in 0..n_rooms
                invariant
                    row@ == Seq::new(r as nat, |k: int| 0usize),
            {
                row.push(0);
                assert(row@ =~= Seq::new((r + 1) as nat, |k: int| 0usize));
            }
            inner.push(row);
        }
        let tt = TimeTable {
            n_timeslots,
            n_rooms,
            inner,
            lookup: HashMap::new(),
            free_slots_cache: None,
        };
        assert(tt@ =~= empty_grid(n_timeslots as nat, n_rooms as nat));
        proof {
            crate::model::lemma_empty_grid_load(tt@, None);
        }
        assert(tt.lookup@.dom() =~= Set::<usize>::empty());
        tt
    }

    /// A table of the same size, with every cell empty.
    pub fn make_empty_copy(&self) -> (r: Self)
        requires
            self.wf(),
        ensures
            r.wf(),
            r.timeslots() == self.timeslots(),
            r.rooms() == self.rooms(),
            r@ == empty_grid(self.timeslots(), self.rooms()),
            r.placed() == Set::<usize>::empty(),
    {
        Self::empty(self.n_timeslots, self.n_rooms)
    }

    /// The course in a cell, `0` if it is empty.
    pub fn get(&self, time: usize, room: usize) -> (r: usize)
        requires
            self.wf(),
            time < self.timeslots(),
            room < self.rooms(),
        ensures
            r == self@[time as int][room as int],
    {
        self.inner[time][room]
    }

    /// Writes a cell and nothing else.
    fn write_cell(&mut self, time: usize, room: usize, c: usize)
        requires
            old(self).inner@.len() == old(self).n_timeslots,
            forall|t: int| 0 <= t < old(self).inner@.len() ==> (#[trigger] old(self).inner@[t]).len() == old(self).n_rooms,
            time < old(self).n_timeslots,
            room < old(self).n_rooms,
        ensures
            final(self)@ == with_cell(old(self)@, time as int, room as int, c),
            final(self).inner@.len() == final(self).n_timeslots,
            forall|t: int| 0 <= t < final(self).inner@.len() ==> (#[trigger] final(self).inner@[t]).len() == final(self).n_rooms,
            final(self).n_timeslots == old(self).n_timeslots,
            final(self).n_rooms == old(self).n_rooms,
            final(self).lookup == old(self).lookup,
            final(self).free_slots_cache == old(self).free_slots_cache,
    {
        self.inner[time][room] = c;
        assert(self@ =~= with_cell(old(self)@, time as int, room as int, c));
    }

    /// Empties a cell and drops its course from the reverse index.
    pub fn unset(&mut self, time: usize, room: usize)
        requires
            old(self).wf(),
            time < old(self).timeslots(),
            room < old(self).rooms(),
        ensures
            final(self).wf(),
            final(self).timeslots() == old(self).timeslots(),
            final(self).rooms() == old(self).rooms(),
            final(self)@ == with_cell(old(self)@, time as int, room as int, 0),
            final(self).placed() == old(self).placed().remove(old(self)@[time as int][room as int]),
    {
        let course = self.inner[time][room];
        if course != 0 {
            self.lookup.remove(&course);
        }
        self.write_cell(time, room, 0);
        self.free_slots_cache = None;
        proof {
            lemma_with_cell_load(old(self)@, time as int, room as int, 0);
            assert(self.lookup@.dom() =~= old(self).lookup@.dom().remove(course));
        }
    }

    /// Places `course` in a cell; `0` empties the cell instead. A course that
    /// is already placed is refused with its current cell, and nothing
    /// changes. A course that sat in the cell before is dropped from the
    /// table.
    pub fn set(&mut self, time: usize, room: usize, course: usize) -> (r: Result<(), (usize, usize)>)
        requires
            old(self).wf(),
            time < old(self).timeslots(),
            room < old(self).rooms(),
        ensures
            final(self).wf(),
            final(self).timeslots() == old(self).timeslots(),
            final(self).rooms() == old(self).rooms(),
            course == 0 ==> r is Ok && final(self)@ == with_cell(
                old(self)@,
                time as int,
                room as int,
                0,
            ) && final(self).placed() == old(self).placed().remove(
                old(self)@[time as int][room as int],
            ),
            course != 0 && old(self).placed().contains(course) ==> r == Err::<(), (usize, usize)>(
                old(self).location(course),
            ) && final(self)@ == old(self)@ && final(self).placed() == old(self).placed(),
            course != 0 && !old(self).placed().contains(course) ==> r is Ok && final(self)@
                == with_cell(old(self)@, time as int, room as int, course) && final(self).placed()
                == old(self).placed().remove(old(self)@[time as int][room as int]).insert(course),
    {
        if course == 0 {
            self.unset(time, room);
            return Ok(());
        }
        match self.lookup.get(&course) {
            Some(loc) => {
                return Err(*loc);
            },
            None => {},
        }
        let prev = self.inner[time][room];
        if prev != 0 {
            self.lookup.remove(&prev);
        }
        self.lookup.insert(course, (time, room));
        self.write_cell(time, room, course);
        self.free_slots_cache = None;
        proof {
            lemma_with_cell_load(old(self)@, time as int, room as int, course);
            assert(self.lookup@.dom() =~= old(self).lookup@.dom().remove(prev).insert(course));
            assert forall|t: int, r: int|
                in_grid(self@, t, r) && #[trigger] self@[t][r] != 0 implies self.lookup@.contains_key(
                self@[t][r],
            ) && self.lookup@[self@[t][r]] == (t as usize, r as usize) by {
                if t != time || r != room {
                    assert(old(self)@[t][r] == self@[t][r]);
                    assert(in_grid(old(self)@, t, r));
                }
            }
            assert forall|c: usize| #[trigger] self.lookup@.contains_key(c) implies c != 0 && in_grid(
                self@,
                self.lookup@[c].0 as int,
                self.lookup@[c].1 as int,
            ) && self@[self.lookup@[c].0 as int][self.lookup@[c].1 as int] == c by {
                if c != course {
                    assert(old(self).lookup@.contains_key(c));
                }
            }
        }
        Ok(())
    }

    /// The cell of a course, if it is placed.
    pub fn find(&self, course: usize) -> (r: Option<(usize, usize)>)
        requires
            self.wf(),
        ensures
            r == if self.placed().contains(course) {
                Some(self.location(course))
            } else {
                None
            },
    {
        match self.lookup.get(&course) {
            Some(loc) => Some(*loc),
            None => None,
        }
    }

    /// The set of placed courses.
    pub fn courses(&self) -> (r: HashSet<usize>)
        requires
            self.wf(),
        ensures
            r@ == self.placed(),
    {
        let mut r: HashSet<usize> = HashSet::new();
        for time in 0..self.n_timeslots
            invariant
                self.wf(),
                forall|c: usize| #[trigger]
                    r@.contains(c) ==> self.placed().contains(c) && self.location(c).0 < time,
                forall|c: usize| #[trigger]
                    self.placed().contains(c) && self.location(c).0 < time ==> r@.contains(c),
        {
            for room in 0..self.n_rooms
                invariant
                    self.wf(),
                    time < self.n_timeslots,
                    forall|c: usize| #[trigger]
                        r@.contains(c) ==> self.placed().contains(c) && (self.location(c).0 < time
                            || (self.location(c).0 == time && self.location(c).1 < room)),
                    forall|c: usize| #[trigger]
                        self.placed().contains(c) && (self.location(c).0 < time || (
                        self.location(c).0 == time && self.location(c).1 < room)) ==> r@.contains(
                            c,
                        ),
            {
                let c = self.inner[time][room];
                proof {
                    assert(in_grid(self@, time as int, room as int));
                    assert(self@[time as int][room as int] == c);
                }
                if c != 0 {
                    r.insert(c);
                }
            }
        }
        assert(r@ =~= self.placed());
        r
    }

    /// All empty cells, in row order, each once.
    fn compute_free_slots(&self) -> (r: Vec<(usize, usize)>)
        requires
            self.wf(),
        ensures
            r@ == free_cells(self@),
            lists_free_cells(self@, r@),
            in_row_order(r@),
            r@.no_duplicates(),
    {
        let mut slots: Vec<(usize, usize)> = Vec::new();
        for time in 0..self.n_timeslots
            invariant
                self.wf(),
                forall|i: int|
                    0 <= i < slots@.len() ==> in_grid(
                        self@,
                        #[trigger] slots@[i].0 as int,
                        slots@[i].1 as int,
                    ) && self@[slots@[i].0 as int][slots@[i].1 as int] == 0,
                forall|t: int, r: int|
                    in_grid(self@, t, r) && t < time && #[trigger] self@[t][r] == 0
                        ==> slots@.contains((t as usize, r as usize)),
                slots@ == free_upto(self@, time as int),
                in_row_order(slots@),
                forall|i: int| 0 <= i < slots@.len() ==> (#[trigger] slots@[i]).0 < time,
        {
            for room in 0..self.n_rooms
                invariant
                    self.wf(),
                    time < self.n_timeslots,
                    forall|i: int|
                        0 <= i < slots@.len() ==> in_grid(
                            self@,
                            #[trigger] slots@[i].0 as int,
                            slots@[i].1 as int,
                        ) && self@[slots@[i].0 as int][slots@[i].1 as int] == 0,
                    forall|t: int, r: int|
                        in_grid(self@, t, r) && (t < time || (t == time && r < room))
                            && #[trigger] self@[t][r] == 0 ==> slots@.contains(
                            (t as usize, r as usize),
                        ),
                    slots@ == free_upto(self@, time as int) + row_free(self@[time as int], time as int, room as int),
                    in_row_order(slots@),
                    forall|i: int| 0 <= i < slots@.len() ==> cell_before(#[trigger] slots@[i], (time, room)),
            {
                let ghost before_push = slots@;
                proof {
                    assert(in_grid(self@, time as int, room as int));
                }
                if self.inner[time][room] == 0 {
                    let ghost before = slots@;
                    slots.push((time, room));
                    proof {
                        assert forall|t: int, r: int|
                            in_grid(self@, t, r) && (t < time || (t == time && r <= room))
                                && #[trigger] self@[t][r] == 0 implies slots@.contains(
                            (t as usize, r as usize),
                        ) by {
                            if t == time && r == room {
                                assert(slots@[slots@.len() - 1] == (t as usize, r as usize));
                            } else {
                                let i = choose|i: int|
                                    0 <= i < before.len() && before[i] == (t as usize, r as usize);
                                assert(slots@[i] == before[i]);
                            }
                        }
                    }
                }
                proof {
                    assert(slots@ =~= free_upto(self@, time as int) + row_free(
                        self@[time as int],
                        time as int,
                        room + 1,
                    ));
                }
            }
            proof {
                assert(self@[time as int].len() == self.n_rooms);
                assert(slots@ =~= free_upto(self@, time + 1));
            }
        }
        proof {
            assert(slots@ =~= free_cells(self@));
            assert forall|i: int, j: int| 0 <= i < slots@.len() && 0 <= j < slots@.len() && i != j
                implies slots@[i] != slots@[j] by {
                if i < j {
                    assert(cell_before(slots@[i], slots@[j]));
                } else {
                    assert(cell_before(slots@[j], slots@[i]));
                }
            }
        }
        slots
    }

    /// Hands out the free-cell list, from the cache when it is there.
    fn take_free_slots(&mut self) -> (r: Vec<(usize, usize)>)
        requires
            old(self).wf(),
        ensures
            final(self).wf(),
            final(self)@ == old(self)@,
            final(self).n_timeslots == old(self).n_timeslots,
            final(self).n_rooms == old(self).n_rooms,
            final(self).lookup == old(self).lookup,
            final(self).free_slots_cache is None,
            lists_free_cells(old(self)@, r@),
            r@ == free_cells(old(self)@),
    {
        match self.free_slots_cache.take() {
            Some(v) => v,
            None => self.compute_free_slots(),
        }
    }

    /// The empty cells in row order, from the cache when it is there.
    pub(crate) fn free_slot_list(&mut self) -> (r: Vec<(usize, usize)>)
        requires
            old(self).wf(),
        ensures
            final(self).wf(),
            final(self)@ == old(self)@,
            final(self).placed() == old(self).placed(),
            final(self).timeslots() == old(self).timeslots(),
            final(self).rooms() == old(self).rooms(),
            r@ == free_cells(old(self)@),
            lists_free_cells(old(self)@, r@),
    {
        self.take_free_slots()
    }

    /// How many courses are placed.
    pub(crate) fn n_placed(&self) -> (r: usize)
        requires
            self.wf(),
        ensures
            r == self.placed().len(),
    {
        self.lookup.len()
    }

    /// Places `course` in a uniformly drawn free cell. Fails with
    /// `NoCapacity` when no cell is free, and with `CourseAlreadyPlaced` when
    /// the course sits elsewhere already; then nothing changes.
    pub fn random_place(&mut self, course: usize) -> (r: Result<(), PlaceError>)
        requires
            old(self).wf(),
        ensures
            final(self).wf(),
            final(self).timeslots() == old(self).timeslots(),
            final(self).rooms() == old(self).rooms(),
            !has_free_cell(old(self)@) ==> r == Err::<(), PlaceError>(PlaceError::NoCapacity)
                && final(self)@ == old(self)@ && final(self).placed() == old(self).placed(),
            has_free_cell(old(self)@) && course != 0 && old(self).placed().contains(course) ==> r
                == Err::<(), PlaceError>(
                PlaceError::CourseAlreadyPlaced(
                    old(self).location(course).0,
                    old(self).location(course).1,
                ),
            ) && final(self)@ == old(self)@ && final(self).placed() == old(self).placed(),
            has_free_cell(old(self)@) && (course == 0 || !old(self).placed().contains(course))
                ==> r is Ok,
            r is Ok ==> exists|t: int, rm: int|
                in_grid(old(self)@, t, rm) && old(self)@[t][rm] == 0 && final(self)@ == with_cell(
                    old(self)@,
                    t,
                    rm,
                    course,
                ),
            r is Ok ==> final(self).placed() == if course == 0 {
                old(self).placed()
            } else {
                old(self).placed().insert(course)
            },
    {
        let slots = self.take_free_slots();
        if slots.len() == 0 {
            proof {
                if has_free_cell(old(self)@) {
                    let (t, rm) = choose|t: int, rm: int|
                        in_grid(old(self)@, t, rm) && #[trigger] old(self)@[t][rm] == 0;
                    assert(slots@.contains((t as usize, rm as usize)));
                }
            }
            self.free_slots_cache = Some(slots);
            return Err(PlaceError::NoCapacity);
        }
        let (time, room) = slots[random_index(slots.len())];
        assert(old(self)@[time as int][room as int] == 0);
        match self.set(time, room, course) {
            Ok(()) => {
                proof {
                    assert(self.placed() =~= if course == 0 {
                        old(self).placed()
                    } else {
                        old(self).placed().insert(course)
                    });
                    if course == 0 {
                        assert(with_cell(old(self)@, time as int, room as int, course) =~~= old(self)@);
                    }
                }
                Ok(())
            },
            Err((t, r)) => {
                self.free_slots_cache = Some(slots);
                Err(PlaceError::CourseAlreadyPlaced(t, r))
            },
        }
    }

    /// Exchanges two rooms of one timeslot, keeping the reverse index.
    fn swap_rooms(&mut self, time: usize, a: usize, b: usize)
        requires
            old(self).wf(),
            time < old(self).timeslots(),
            a < old(self).rooms(),
            b < old(self).rooms(),
        ensures
            final(self).wf(),
            final(self).timeslots() == old(self).timeslots(),
            final(self).rooms() == old(self).rooms(),
            final(self).placed() == old(self).placed(),
            final(self)@ == old(self)@.update(
                time as int,
                old(self)@[time as int].update(a as int, old(self)@[time as int][b as int]).update(
                    b as int,
                    old(self)@[time as int][a as int],
                ),
            ),
    {
        let x = self.inner[time][a];
        let y = self.inner[time][b];
        let ghost g0 = self@;
        self.write_cell(time, a, y);
        let ghost g1 = self@;
        self.write_cell(time, b, x);
        if x != 0 {
            self.lookup.insert(x, (time, b));
        }
        if y != 0 {
            self.lookup.insert(y, (time, a));
        }
        self.free_slots_cache = None;
        proof {
            assert(in_grid(g0, time as int, a as int));
            assert(in_grid(g0, time as int, b as int));
            lemma_with_cell_load(g0, time as int, a as int, y);
            lemma_with_cell_load(g1, time as int, b as int, x);
            assert(self@ =~~= old(self)@.update(
                time as int,
                old(self)@[time as int].update(a as int, old(self)@[time as int][b as int]).update(
                    b as int,
                    old(self)@[time as int][a as int],
                ),
            ));
            assert(self.lookup@.dom() =~= old(self).lookup@.dom());
            assert forall|t: int, r: int|
                in_grid(self@, t, r) && #[trigger] self@[t][r] != 0 implies self.lookup@.contains_key(
                self@[t][r],
            ) && self.lookup@[self@[t][r]] == (t as usize, r as usize) by {
                if t != time || (r != a && r != b) {
                    assert(old(self)@[t][r] == self@[t][r]);
                    assert(in_grid(old(self)@, t, r));
                }
            }
            assert forall|c: usize| #[trigger] self.lookup@.dom().contains(c) implies c != 0
                && in_grid(self@, self.lookup@[c].0 as int, self.lookup@[c].1 as int)
                && self@[self.lookup@[c].0 as int][self.lookup@[c].1 as int] == c by {
                assert(old(self).lookup@.dom().contains(c));
                if c != x && c != y {
                    let (t, r) = old(self).lookup@[c];
                    assert(t != time || (r != a && r != b));
                }
            }
        }
    }

    /// Puts the rooms of one timeslot in display order (selection sort).
    fn sort_timeslot(&mut self, time: usize)
        requires
            old(self).wf(),
            time < old(self).timeslots(),
        ensures
            final(self).wf(),
            final(self).timeslots() == old(self).timeslots(),
            final(self).rooms() == old(self).rooms(),
            final(self).placed() == old(self).placed(),
            final(self)@ == old(self)@.update(
                time as int,
                old(self)@[time as int].sort_by(room_order_fn()),
            ),
    {
        broadcast use vstd::seq_lib::group_to_multiset_ensures;

        let n = self.n_rooms;
        for i in 0..n
            invariant
                self.wf(),
                n == self.n_rooms,
                time < self.n_timeslots,
                old(self).wf(),
                self.timeslots() == old(self).timeslots(),
                self.rooms() == old(self).rooms(),
                self.placed() == old(self).placed(),
                self@ == old(self)@.update(time as int, self@[time as int]),
                self@[time as int].to_multiset() == old(self)@[time as int].to_multiset(),
                forall|p: int, q: int|
                    0 <= p < q < n && p < i ==> room_order(
                        #[trigger] self@[time as int][p],
                        #[trigger] self@[time as int][q],
                    ),
        {
            let mut m = i;
            for j in i + 1..n
                invariant
                    self.wf(),
                    n == self.n_rooms,
                    time < self.n_timeslots,
                    i <= m < n,
                    i < j,
                    old(self).wf(),
                    forall|k: int| i <= k < j ==> room_order(
                        self@[time as int][m as int],
                        #[trigger] self@[time as int][k],
                    ),
            {
                let cj = self.inner[time][j];
                let cm = self.inner[time][m];
                proof {
                    assert(self@[time as int][j as int] == cj);
                    assert(self@[time as int][m as int] == cm);
                }
                if !(cm == 0 || (cj != 0 && cj <= cm)) {
                } else if cj != cm {
                    m = j;
                }
            }
            let ghost row = self@[time as int];
            let ghost prev = self@;
            self.swap_rooms(time, i, m);
            proof {
                let row2 = self@[time as int];
                let row1 = row.update(i as int, row[m as int]);
                assert(row2 =~= row1.update(m as int, row[i as int]));
                vstd::seq_lib::to_multiset_update(row, i as int, row[m as int]);
                vstd::seq_lib::to_multiset_update(row1, m as int, row[i as int]);
                assert(row2.to_multiset() =~= row.to_multiset()) by {
                    broadcast use vstd::multiset::group_multiset_axioms;
                    broadcast use vstd::multiset::group_multiset_properties;

                    let ms = row.to_multiset();
                    assert(row.len() == n);
                    assert(row1.to_multiset() == ms.insert(row[m as int]).remove(row[i as int]));
                    assert(row2.to_multiset() == row1.to_multiset().insert(row[i as int]).remove(
                        row1[m as int],
                    ));
                    assert(row1[m as int] == row[m as int]);
                    assert(ms.count(row[i as int]) > 0) by {
                        vstd::seq_lib::to_multiset_contains(row, row[i as int]);
                        assert(row.contains(row[i as int]));
                    }
                }
                assert forall|p: int, q: int|
                    0 <= p < q < n && p < i + 1 implies room_order(
                    #[trigger] row2[p],
                    #[trigger] row2[q],
                ) by {
                    if p < i {
                        if q == m {
                            assert(room_order(row[p], row[i as int]));
                        } else if q == i {
                            assert(room_order(row[p], row[m as int]));
                        } else {
                            assert(room_order(row[p], row[q]));
                        }
                    } else {
                        if q == m {
                            assert(room_order(row[m as int], row[i as int]));
                        } else {
                            assert(room_order(row[m as int], row[q]));
                        }
                    }
                }
                assert(prev == old(self)@.update(time as int, row));
                assert(self@ == prev.update(time as int, row2));
                assert(old(self)@.update(time as int, row).update(time as int, row2) =~= old(
                    self,
                )@.update(time as int, row2));
            }
        }
        proof {
            let row = old(self)@[time as int];
            let sorted = self@[time as int];
            lemma_room_order_total();
            row.lemma_sort_by_ensures(room_order_fn());
            assert(sorted_by(sorted, room_order_fn())) by {
                assert forall|p: int, q: int| 0 <= p < q < sorted.len() implies #[trigger] room_order_fn()(
                    sorted[p],
                    sorted[q],
                ) by {
                    assert(room_order(sorted[p], sorted[q]));
                }
            }
            lemma_sorted_unique(sorted, row.sort_by(room_order_fn()), room_order_fn());
            assert(self@ =~= old(self)@.update(time as int, row.sort_by(room_order_fn())));
        }
    }

    /// Puts the rooms of every timeslot in display order: courses by
    /// ascending id, empty cells last. Which courses share a timeslot does
    /// not change.
    pub fn defrag(&mut self)
        requires
            old(self).wf(),
        ensures
            final(self).wf(),
            final(self).timeslots() == old(self).timeslots(),
            final(self).rooms() == old(self).rooms(),
            final(self).placed() == old(self).placed(),
            final(self)@ == defragged(old(self)@),
            forall|filter: Option<Set<usize>>| #[trigger] penalty(final(self)@, filter) == penalty(
                old(self)@,
                filter,
            ),
            forall|prof: Set<usize>, weight: nat| #[trigger] overlap_penalty(final(self)@, prof, weight)
                == overlap_penalty(old(self)@, prof, weight),
            forall|students: Seq<Set<usize>>, professors: Seq<Set<usize>>, weight: nat| #[trigger]
                total_score(final(self)@, students, professors, weight) == total_score(
                    old(self)@,
                    students,
                    professors,
                    weight,
                ),
    {
        let n = self.n_timeslots;
        for time in 0..n
            invariant
                self.wf(),
                n == self.timeslots(),
                self.timeslots() == old(self).timeslots(),
                self.rooms() == old(self).rooms(),
                self.placed() == old(self).placed(),
                self@.len() == old(self)@.len(),
                forall|t: int|
                    0 <= t < self@.len() ==> #[trigger] self@[t] == if t < time {
                        old(self)@[t].sort_by(room_order_fn())
                    } else {
                        old(self)@[t]
                    },
        {
            let ghost prev = self@;
            self.sort_timeslot(time);
            assert(self@ == prev.update(time as int, prev[time as int].sort_by(room_order_fn())));
        }
        self.free_slots_cache = None;
        assert(self@ =~= defragged(old(self)@));
        proof {
            let g = old(self)@;
            assert forall|filter: Option<Set<usize>>| #[trigger] penalty(self@, filter) == penalty(g, filter) by {
                law_defrag_idempotent(g, filter, Set::empty(), Seq::empty(), Seq::empty(), 0);
            }
            assert forall|prof: Set<usize>, weight: nat| #[trigger] overlap_penalty(self@, prof, weight)
                == overlap_penalty(g, prof, weight) by {
                law_defrag_idempotent(g, None, prof, Seq::empty(), Seq::empty(), weight);
            }
            assert forall|students: Seq<Set<usize>>, professors: Seq<Set<usize>>, weight: nat| #[trigger]
                total_score(self@, students, professors, weight) == total_score(g, students, professors, weight) by {
                law_defrag_idempotent(g, None, Set::empty(), students, professors, weight);
            }
        }
    }
}

impl Clone for TimeTable {
    /// A copy with the same grid and reverse index and no cached free cells.
    fn clone(&self) -> (r: Self)
        ensures
            self.wf() ==> r.wf() && r@ == self@ && r.timeslots() == self.timeslots() && r.rooms()
                == self.rooms() && r.placed() == self.placed() && forall|c: usize|
                #[trigger] r.location(c) == self.location(c),
    {
        let mut inner: Vec<Vec<usize>> = Vec::new();
        for t in 0..self.inner.len()
            invariant
                inner@.len() == t,
                t <= self.inner@.len(),
                forall|i: int| 0 <= i < t ==> (#[trigger] inner@[i])@ == self.inner@[i]@,
        {
            let mut row: Vec<usize> = Vec::new();
            let len = self.inner[t].len();
            for k in 0..len
                invariant
                    t < self.inner@.len(),
                    len == self.inner@[t as int]@.len(),
                    row@ == self.inner@[t as int]@.take(k as int),
            {
                row.push(self.inner[t][k]);
                assert(row@ =~= self.inner@[t as int]@.take(k + 1));
            }
            assert(row@ =~= self.inner@[t as int]@);
            inner.push(row);
        }
        let r = TimeTable {
            n_timeslots: self.n_timeslots,
            n_rooms: self.n_rooms,
            inner,
            lookup: self.lookup.clone(),
            free_slots_cache: None,
        };
        assert(r@ =~= self@);
        r
    }
}

} // verus!
