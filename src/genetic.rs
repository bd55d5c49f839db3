//! The genetic search: mutation, crossover, selection and one generation.
use crate::constraints::{total_score, Constraints};
use crate::fitness::has_overlap_in;
use crate::model::{free_cells, has_free_cell, in_grid, with_cell};
use crate::random::{random_index, random_ratio};
use crate::timetable::TimeTable;
use vstd::prelude::*;
use vstd::set_lib::lemma_len_subset;

verus! {

/// A probability, as `numerator / denominator`.
#[derive(Debug, Clone, Copy, PartialEq, Eq, Structural)]
pub struct Chance {
    pub numerator: u32,
    pub denominator: u32,
}

impl Chance {
    pub open spec fn valid(self) -> bool {
        0 < self.denominator && self.numerator <= self.denominator
    }
}

/// The grid of choices that a `Vec` of rows holds.
pub open spec fn choice_grid(v: Seq<Vec<bool>>) -> Seq<Seq<bool>> {
    Seq::new(v.len(), |t: int| v[t]@)
}

/// Cell `(t2, r2)` comes before cell `(t, r)` in row order.
pub open spec fn earlier(t2: int, r2: int, t: int, r: int) -> bool {
    t2 < t || (t2 == t && r2 < r)
}

/// The course that cell `(t, r)` offers to a child: `b`'s where `take_b`
/// says so, `a`'s otherwise.
pub open spec fn offered(
    a: Seq<Seq<usize>>,
    b: Seq<Seq<usize>>,
    take_b: Seq<Seq<bool>>,
    t: int,
    r: int,
) -> usize {
    if take_b[t][r] {
        b[t][r]
    } else {
        a[t][r]
    }
}

/// The grid that offering every cell in row order gives, a course offered
/// a second time being skipped.
pub open spec fn mixed(a: Seq<Seq<usize>>, b: Seq<Seq<usize>>, take_b: Seq<Seq<bool>>) -> Seq<
    Seq<usize>,
> {
    Seq::new(
        a.len(),
        |t: int|
            Seq::new(
                a[t].len(),
                |r: int|
                    {
                        let c = offered(a, b, take_b, t, r);
                        if c != 0 && forall|t2: int, r2: int|
                            in_grid(a, t2, r2) && earlier(t2, r2, t, r) ==> #[trigger] offered(
                                a,
                                b,
                                take_b,
                                t2,
                                r2,
                            ) != c {
                            c
                        } else {
                            0
                        }
                    },
            ),
    )
}

/// The grid of indices that a `Vec` of rows holds.
pub open spec fn index_grid(v: Seq<Vec<usize>>) -> Seq<Seq<usize>> {
    Seq::new(v.len(), |t: int| v[t]@)
}

/// The trial of one cell: when it succeeds and the cell holds a course, the
/// course leaves its cell and goes to the `pick`-th free cell in row order
/// (counted modulo their number), its own cell counting as free.
pub open spec fn mutate_cell(g: Seq<Seq<usize>>, moved: bool, pick: usize, t: int, r: int) -> Seq<
    Seq<usize>,
> {
    if moved && g[t][r] != 0 {
        let cleared = with_cell(g, t, r, 0);
        let free = free_cells(cleared);
        let target = free[(pick as int) % (free.len() as int)];
        with_cell(cleared, target.0 as int, target.1 as int, g[t][r])
    } else {
        g
    }
}

/// The trials of the first `n` rooms of timeslot `t`, in room order.
pub open spec fn mutate_row(
    g: Seq<Seq<usize>>,
    moves: Seq<Seq<bool>>,
    picks: Seq<Seq<usize>>,
    t: int,
    n: int,
) -> Seq<Seq<usize>>
    decreases n,
{
    if n <= 0 {
        g
    } else {
        mutate_cell(mutate_row(g, moves, picks, t, n - 1), moves[t][n - 1], picks[t][n - 1], t, n - 1)
    }
}

/// The trials of the first `m` timeslots, in row order.
pub open spec fn mutate_rows(
    g: Seq<Seq<usize>>,
    moves: Seq<Seq<bool>>,
    picks: Seq<Seq<usize>>,
    m: int,
) -> Seq<Seq<usize>>
    decreases m,
{
    if m <= 0 {
        g
    } else {
        let h = mutate_rows(g, moves, picks, m - 1);
        mutate_row(h, moves, picks, m - 1, h[m - 1].len() as int)
    }
}

/// The grid after the trials of every cell, in row order.
pub open spec fn mutated(g: Seq<Seq<usize>>, moves: Seq<Seq<bool>>, picks: Seq<Seq<usize>>) -> Seq<
    Seq<usize>,
> {
    mutate_rows(g, moves, picks, g.len() as int)
}

/// No trial succeeds.
pub open spec fn no_moves(moves: Seq<Seq<bool>>) -> bool {
    forall|t: int, r: int| 0 <= t < moves.len() && 0 <= r < moves[t].len() ==> !#[trigger] moves[t][r]
}

impl TimeTable {
    /// A mutation with the trials and picks given: cell by cell in row
    /// order, where `moves` is set and the cell holds a course, the course
    /// moves to the free cell that `picks` names (see `mutated`).
    pub fn mutate_with(&self, moves: &Vec<Vec<bool>>, picks: &Vec<Vec<usize>>) -> (r: TimeTable)
        requires
            self.wf(),
            moves@.len() == self.timeslots(),
            picks@.len() == self.timeslots(),
            forall|t: int| 0 <= t < moves@.len() ==> (#[trigger] moves@[t])@.len() == self.rooms(),
            forall|t: int| 0 <= t < picks@.len() ==> (#[trigger] picks@[t])@.len() == self.rooms(),
        ensures
            r.wf(),
            r.timeslots() == self.timeslots(),
            r.rooms() == self.rooms(),
            r.placed() == self.placed(),
            r@ == mutated(self@, choice_grid(moves@), index_grid(picks@)),
            no_moves(choice_grid(moves@)) ==> r@ == self@,
    {
        let ghost mv = choice_grid(moves@);
        let ghost pk = index_grid(picks@);
        let mut tt = self.clone();
        let n_timeslots = self.n_timeslots();
        let n_rooms = self.n_rooms();
        for time in 0..n_timeslots
            invariant
                self.wf(),
                tt.wf(),
                n_timeslots == self.timeslots(),
                n_rooms == self.rooms(),
                tt.timeslots() == self.timeslots(),
                tt.rooms() == self.rooms(),
                tt.placed() == self.placed(),
                moves@.len() == n_timeslots,
                picks@.len() == n_timeslots,
                forall|t: int| 0 <= t < moves@.len() ==> (#[trigger] moves@[t])@.len() == n_rooms,
                forall|t: int| 0 <= t < picks@.len() ==> (#[trigger] picks@[t])@.len() == n_rooms,
                mv == choice_grid(moves@),
                pk == index_grid(picks@),
                tt@ == mutate_rows(self@, mv, pk, time as int),
                no_moves(mv) ==> tt@ == self@,
        {
            let ghost start = tt@;
            proof {
                tt.lemma_placement();
            }
            for room in 0..n_rooms
                invariant
                    self.wf(),
                    tt.wf(),
                    time < n_timeslots,
                    n_timeslots == self.timeslots(),
                    n_rooms == self.rooms(),
                    tt.timeslots() == self.timeslots(),
                    tt.rooms() == self.rooms(),
                    tt.placed() == self.placed(),
                    moves@.len() == n_timeslots,
                    picks@.len() == n_timeslots,
                    forall|t: int| 0 <= t < moves@.len() ==> (#[trigger] moves@[t])@.len() == n_rooms,
                    forall|t: int| 0 <= t < picks@.len() ==> (#[trigger] picks@[t])@.len() == n_rooms,
                    mv == choice_grid(moves@),
                    pk == index_grid(picks@),
                    start == mutate_rows(self@, mv, pk, time as int),
                    start[time as int].len() == n_rooms,
                    tt@ == mutate_row(start, mv, pk, time as int, room as int),
                    no_moves(mv) ==> tt@ == self@,
            {
                let c = tt.get(time, room);
                let moved = moves[time][room];
                let pick = picks[time][room];
                let ghost g = tt@;
                proof {
                    assert(mv[time as int][room as int] == moved);
                    assert(pk[time as int][room as int] == pick);
                }
                if moved && c != 0 {
                    proof {
                        tt.lemma_placement();
                        assert(in_grid(g, time as int, room as int));
                    }
                    tt.unset(time, room);
                    let slots = tt.free_slot_list();
                    proof {
                        assert(in_grid(tt@, time as int, room as int));
                        assert(tt@[time as int][room as int] == 0);
                        assert(slots@.contains((time, room)));
                    }
                    let k = pick % slots.len();
                    let (t2, r2) = slots[k];
                    let placed = tt.set(t2, r2, c);
                    proof {
                        assert(placed is Ok);
                        assert(tt.placed() =~= self.placed());
                    }
                }
            }
            proof {
                assert(tt@ == mutate_rows(self@, mv, pk, time + 1));
            }
        }
        proof {
            self.lemma_placement();
        }
        assert(tt@ == mutated(self@, mv, pk));
        tt
    }

    /// The first phase of a crossover with the coin flips given: every cell,
    /// in row order, offers `other`'s course where `take_other` is set and
    /// `self`'s otherwise, and a course already placed is skipped.
    pub fn mix(&self, other: &TimeTable, take_other: &Vec<Vec<bool>>) -> (r: TimeTable)
        requires
            self.wf(),
            other.wf(),
            other.timeslots() == self.timeslots(),
            other.rooms() == self.rooms(),
            take_other@.len() == self.timeslots(),
            forall|t: int| 0 <= t < take_other@.len() ==> (#[trigger] take_other@[t])@.len() == self.rooms(),
        ensures
            r.wf(),
            r.timeslots() == self.timeslots(),
            r.rooms() == self.rooms(),
            r@ == mixed(self@, other@, choice_grid(take_other@)),
            r.placed().subset_of(self.placed().union(other.placed())),
    {
        let ghost picks = choice_grid(take_other@);
        let ghost target = mixed(self@, other@, picks);
        let mut tt = self.make_empty_copy();
        let n_timeslots = self.n_timeslots();
        let n_rooms = self.n_rooms();
        proof {
            self.lemma_placement();
            other.lemma_placement();
        }
        for time in 0..n_timeslots
            invariant
                self.wf(),
                other.wf(),
                tt.wf(),
                n_timeslots == self.timeslots(),
                n_rooms == self.rooms(),
                self@.len() == n_timeslots,
                other@.len() == n_timeslots,
                other.timeslots() == self.timeslots(),
                other.rooms() == self.rooms(),
                picks == choice_grid(take_other@),
                target == mixed(self@, other@, picks),
                take_other@.len() == n_timeslots,
                forall|t: int| 0 <= t < take_other@.len() ==> (#[trigger] take_other@[t])@.len() == n_rooms,
                crate::model::rectangular(self@, n_rooms as nat),
                crate::model::rectangular(other@, n_rooms as nat),
                tt.timeslots() == self.timeslots(),
                tt.rooms() == self.rooms(),
                tt@.len() == n_timeslots,
                crate::model::rectangular(tt@, n_rooms as nat),
                forall|t: int, r: int|
                    in_grid(tt@, t, r) ==> #[trigger] tt@[t][r] == if t < time {
                        target[t][r]
                    } else {
                        0
                    },
                forall|c: usize|
                    #[trigger] tt.placed().contains(c) <==> c != 0 && exists|t2: int, r2: int|
                        in_grid(self@, t2, r2) && t2 < time && #[trigger] offered(
                            self@,
                            other@,
                            picks,
                            t2,
                            r2,
                        ) == c,
                tt.placed().subset_of(self.placed().union(other.placed())),
        {
            for room in 0..n_rooms
                invariant
                    self.wf(),
                    other.wf(),
                    tt.wf(),
                    time < n_timeslots,
                    n_timeslots == self.timeslots(),
                    n_rooms == self.rooms(),
                    self@.len() == n_timeslots,
                    other@.len() == n_timeslots,
                    other.timeslots() == self.timeslots(),
                    other.rooms() == self.rooms(),
                    picks == choice_grid(take_other@),
                    target == mixed(self@, other@, picks),
                    take_other@.len() == n_timeslots,
                    forall|t: int| 0 <= t < take_other@.len() ==> (#[trigger] take_other@[t])@.len() == n_rooms,
                    crate::model::rectangular(self@, n_rooms as nat),
                    crate::model::rectangular(other@, n_rooms as nat),
                    tt.timeslots() == self.timeslots(),
                    tt.rooms() == self.rooms(),
                    tt@.len() == n_timeslots,
                    crate::model::rectangular(tt@, n_rooms as nat),
                    forall|t: int, r: int|
                        in_grid(tt@, t, r) ==> #[trigger] tt@[t][r] == if earlier(t, r, time as int, room as int) {
                            target[t][r]
                        } else {
                            0
                        },
                    forall|c: usize|
                        #[trigger] tt.placed().contains(c) <==> c != 0 && exists|t2: int, r2: int|
                            in_grid(self@, t2, r2) && earlier(t2, r2, time as int, room as int) && #[trigger] offered(
                                self@,
                                other@,
                                picks,
                                t2,
                                r2,
                            ) == c,
                    tt.placed().subset_of(self.placed().union(other.placed())),
            {
                let take = take_other[time][room];
                let which = if take {
                    other.get(time, room)
                } else {
                    self.get(time, room)
                };
                let ghost before = tt@;
                let ghost placed_before = tt.placed();
                proof {
                    self.lemma_placement();
                    other.lemma_placement();
                    assert(picks[time as int][room as int] == take);
                    assert(which == offered(self@, other@, picks, time as int, room as int));
                    assert(in_grid(self@, time as int, room as int));
                    assert(in_grid(other@, time as int, room as int));
                    assert(which != 0 ==> self.placed().union(other.placed()).contains(which));
                    // the cell's value in the target grid
                    if which != 0 && placed_before.contains(which) {
                        let (t2, r2) = choose|t2: int, r2: int|
                            in_grid(self@, t2, r2) && earlier(t2, r2, time as int, room as int)
                                && #[trigger] offered(self@, other@, picks, t2, r2) == which;
                        assert(target[time as int][room as int] == 0);
                    } else if which != 0 {
                        assert forall|t2: int, r2: int|
                            in_grid(self@, t2, r2) && earlier(t2, r2, time as int, room as int)
                                implies #[trigger] offered(self@, other@, picks, t2, r2) != which by {
                            if offered(self@, other@, picks, t2, r2) == which {
                                assert(placed_before.contains(which));
                            }
                        }
                        assert(target[time as int][room as int] == which);
                    } else {
                        assert(target[time as int][room as int] == 0);
                    }
                    assert(in_grid(tt@, time as int, room as int));
                    assert(before[time as int][room as int] == 0);
                }
                let _ = tt.set(time, room, which);
                proof {
                    assert(placed_before.remove(0) =~= placed_before);
                    assert forall|t: int, r: int|
                        in_grid(tt@, t, r) implies #[trigger] tt@[t][r] == if earlier(t, r, time as int, room as int + 1) {
                            target[t][r]
                        } else {
                            0
                        } by {
                        if t != time || r != room {
                            assert(tt@[t][r] == before[t][r]);
                        }
                    }
                    assert forall|c: usize|
                        #[trigger] tt.placed().contains(c) <==> c != 0 && exists|t2: int, r2: int|
                            in_grid(self@, t2, r2) && earlier(t2, r2, time as int, room as int + 1) && #[trigger] offered(
                                self@,
                                other@,
                                picks,
                                t2,
                                r2,
                            ) == c by {
                        if c != 0 && c == which {
                            assert(in_grid(self@, time as int, room as int) && earlier(time as int, room as int, time as int, room as int + 1) && offered(self@, other@, picks, time as int, room as int) == c);
                        }
                        if c != 0 && exists|t2: int, r2: int|
                            in_grid(self@, t2, r2) && earlier(t2, r2, time as int, room as int + 1) && #[trigger] offered(
                                self@,
                                other@,
                                picks,
                                t2,
                                r2,
                            ) == c {
                            let (t2, r2) = choose|t2: int, r2: int|
                                in_grid(self@, t2, r2) && earlier(t2, r2, time as int, room as int + 1) && #[trigger] offered(
                                    self@,
                                    other@,
                                    picks,
                                    t2,
                                    r2,
                                ) == c;
                            if t2 != time || r2 != room {
                                assert(placed_before.contains(c));
                            }
                        }
                    }
                }
            }
            proof {
                assert forall|t: int, r: int|
                    in_grid(tt@, t, r) implies #[trigger] tt@[t][r] == if t < time + 1 {
                        target[t][r]
                    } else {
                        0
                    } by {
                    assert(tt@[t].len() == n_rooms);
                }
                assert forall|c: usize|
                    #[trigger] tt.placed().contains(c) <==> c != 0 && exists|t2: int, r2: int|
                        in_grid(self@, t2, r2) && t2 < time + 1 && #[trigger] offered(
                            self@,
                            other@,
                            picks,
                            t2,
                            r2,
                        ) == c by {
                    if c != 0 && exists|t2: int, r2: int|
                        in_grid(self@, t2, r2) && t2 < time + 1 && #[trigger] offered(
                            self@,
                            other@,
                            picks,
                            t2,
                            r2,
                        ) == c {
                        let (t2, r2) = choose|t2: int, r2: int|
                            in_grid(self@, t2, r2) && t2 < time + 1 && #[trigger] offered(
                                self@,
                                other@,
                                picks,
                                t2,
                                r2,
                            ) == c;
                        assert(self@[t2].len() == n_rooms);
                        assert(earlier(t2, r2, time as int, n_rooms as int));
                    }
                }
            }
        }
        proof {
            assert forall|t: int| 0 <= t < tt@.len() implies #[trigger] tt@[t] =~= target[t] by {
                assert(self@[t].len() == n_rooms);
                assert forall|r: int| 0 <= r < tt@[t].len() implies tt@[t][r] == target[t][r] by {
                    assert(in_grid(tt@, t, r));
                }
            }
            assert(tt@ =~= target);
        }
        tt
    }

    /// A copy in which each occupied cell, with the given chance, has moved
    /// its course to a uniformly drawn free cell: the trials and picks are
    /// drawn first, each pick below the number of free cells that a lifted
    /// course sees, and `mutate_with` applies them. The courses stay the
    /// same.
    pub fn mutate(&self, chance: Chance) -> (r: TimeTable)
        requires
            self.wf(),
            chance.valid(),
        ensures
            r.wf(),
            r.timeslots() == self.timeslots(),
            r.rooms() == self.rooms(),
            r.placed() == self.placed(),
            exists|moves: Seq<Seq<bool>>, picks: Seq<Seq<usize>>| r@ == mutated(self@, moves, picks),
            chance.numerator == 0 ==> r@ == self@,
    {
        let n_timeslots = self.n_timeslots();
        let n_rooms = self.n_rooms();
        proof {
            self.lemma_placement();
            assert(n_timeslots * n_rooms + 1 <= usize::MAX) by (nonlinear_arith)
                requires
                    (n_timeslots * n_rooms + n_timeslots) * 4 <= usize::MAX,
            ;
        }
        let free_with_lifted = n_timeslots * n_rooms - self.n_placed() + 1;
        let mut moves: Vec<Vec<bool>> = Vec::new();
        let mut picks: Vec<Vec<usize>> = Vec::new();
        for time in 0..n_timeslots
            invariant
                chance.valid(),
                free_with_lifted > 0,
                moves@.len() == time,
                picks@.len() == time,
                forall|t: int| 0 <= t < time ==> (#[trigger] moves@[t])@.len() == n_rooms,
                forall|t: int| 0 <= t < time ==> (#[trigger] picks@[t])@.len() == n_rooms,
                chance.numerator == 0 ==> no_moves(choice_grid(moves@)),
        {
            let mut move_row: Vec<bool> = Vec::new();
            let mut pick_row: Vec<usize> = Vec::new();
            for room in 0..n_rooms
                invariant
                    chance.valid(),
                    free_with_lifted > 0,
                    move_row@.len() == room,
                    pick_row@.len() == room,
                    chance.numerator == 0 ==> forall|r: int| 0 <= r < room ==> !#[trigger] move_row@[r],
            {
                move_row.push(random_ratio(chance.numerator, chance.denominator));
                pick_row.push(random_index(free_with_lifted));
            }
            let ghost before = moves@;
            moves.push(move_row);
            picks.push(pick_row);
            proof {
                if chance.numerator == 0 {
                    assert forall|t: int, r: int|
                        0 <= t < choice_grid(moves@).len() && 0 <= r < choice_grid(moves@)[t].len()
                            implies !#[trigger] choice_grid(moves@)[t][r] by {
                        if t < time {
                            assert(choice_grid(moves@)[t] == choice_grid(before)[t]);
                        }
                    }
                }
            }
        }
        self.mutate_with(&moves, &picks)
    }

    /// A child of the same size: a `mix` with coin flips of even odds, after
    /// which the courses of `self` that are missing go to uniformly drawn
    /// free cells. The child keeps every course the mix placed, where it
    /// placed it. When the courses of `other` are among those of `self`, the
    /// child has exactly the courses of `self`.
    pub fn cross(&self, other: &TimeTable) -> (r: TimeTable)
        requires
            self.wf(),
            other.wf(),
            other.timeslots() == self.timeslots(),
            other.rooms() == self.rooms(),
        ensures
            r.wf(),
            r.timeslots() == self.timeslots(),
            r.rooms() == self.rooms(),
            r.placed().subset_of(self.placed().union(other.placed())),
            other.placed().subset_of(self.placed()) ==> r.placed() == self.placed(),
            exists|take_other: Seq<Seq<bool>>|
                take_other.len() == self.timeslots() && (forall|t: int|
                    0 <= t < take_other.len() ==> (#[trigger] take_other[t]).len() == self.rooms())
                    && forall|t: int, rm: int|
                    in_grid(self@, t, rm) && #[trigger] mixed(self@, other@, take_other)[t][rm] != 0
                        ==> r@[t][rm] == mixed(self@, other@, take_other)[t][rm],
    {
        let n_timeslots = self.n_timeslots();
        let n_rooms = self.n_rooms();
        let mut take_other: Vec<Vec<bool>> = Vec::new();
        for time in 0..n_timeslots
            invariant
                take_other@.len() == time,
                forall|t: int| 0 <= t < time ==> (#[trigger] take_other@[t])@.len() == n_rooms,
        {
            let mut row: Vec<bool> = Vec::new();
            for room in 0..n_rooms
                invariant
                    row@.len() == room,
            {
                row.push(random_ratio(1, 2));
            }
            take_other.push(row);
        }
        let mut tt = self.mix(other, &take_other);
        let ghost both = self.placed().union(other.placed());
        let ghost mixed_grid = tt@;
        for time in 0..n_timeslots
            invariant
                self.wf(),
                other.wf(),
                tt.wf(),
                n_timeslots == self.timeslots(),
                n_rooms == self.rooms(),
                tt.timeslots() == self.timeslots(),
                tt.rooms() == self.rooms(),
                both == self.placed().union(other.placed()),
                tt.placed().subset_of(both),
                tt@.len() == mixed_grid.len(),
                forall|t: int, r: int|
                    in_grid(mixed_grid, t, r) && #[trigger] mixed_grid[t][r] != 0 ==> in_grid(tt@, t, r) && tt@[t][r] == mixed_grid[t][r],
                other.placed().subset_of(self.placed()) ==> tt.placed().subset_of(self.placed()),
                other.placed().subset_of(self.placed()) ==> forall|c: usize|
                    #[trigger] self.placed().contains(c) && self.location(c).0 < time
                        ==> tt.placed().contains(c),
        {
            for room in 0..n_rooms
                invariant
                    self.wf(),
                    other.wf(),
                    tt.wf(),
                    time < n_timeslots,
                    n_timeslots == self.timeslots(),
                    n_rooms == self.rooms(),
                    tt.timeslots() == self.timeslots(),
                    tt.rooms() == self.rooms(),
                    both == self.placed().union(other.placed()),
                    tt.placed().subset_of(both),
                    tt@.len() == mixed_grid.len(),
                    forall|t: int, r: int|
                        in_grid(mixed_grid, t, r) && #[trigger] mixed_grid[t][r] != 0 ==> in_grid(tt@, t, r) && tt@[t][r] == mixed_grid[t][r],
                    other.placed().subset_of(self.placed()) ==> tt.placed().subset_of(
                        self.placed(),
                    ),
                    other.placed().subset_of(self.placed()) ==> forall|c: usize|
                        #[trigger] self.placed().contains(c) && (self.location(c).0 < time || (
                        self.location(c).0 == time && self.location(c).1 < room))
                            ==> tt.placed().contains(c),
            {
                let c = self.get(time, room);
                proof {
                    self.lemma_placement();
                    assert(in_grid(self@, time as int, room as int));
                }
                if c != 0 {
                    if tt.find(c).is_none() {
                        proof {
                            tt.lemma_placement();
                            if other.placed().subset_of(self.placed()) {
                                lemma_len_subset(tt.placed(), self.placed().remove(c));
                            }
                        }
                        let ghost prev = tt@;
                        let _ = tt.random_place(c);
                        proof {
                            assert forall|t: int, r: int|
                                in_grid(mixed_grid, t, r) && #[trigger] mixed_grid[t][r] != 0 implies in_grid(tt@, t, r) && tt@[t][r] == mixed_grid[t][r] by {
                                assert(prev[t][r] == mixed_grid[t][r]);
                            }
                        }
                    }
                }
            }
            proof {
                self.lemma_placement();
                if other.placed().subset_of(self.placed()) {
                    assert forall|c: usize|
                        #[trigger] self.placed().contains(c) && self.location(c).0 < time + 1
                            implies tt.placed().contains(c) by {
                        assert(self@[self.location(c).0 as int].len() == n_rooms);
                    }
                }
            }
        }
        proof {
            if other.placed().subset_of(self.placed()) {
                self.lemma_placement();
                assert(tt.placed() =~= self.placed());
            }
            let picks = choice_grid(take_other@);
            assert(mixed_grid == mixed(self@, other@, picks));
            assert(picks.len() == self.timeslots());
            assert forall|t: int| 0 <= t < picks.len() implies (#[trigger] picks[t]).len() == self.rooms() by {
                assert(picks[t] == take_other@[t]@);
            }
            self.lemma_placement();
            assert forall|t: int, rm: int|
                in_grid(self@, t, rm) && #[trigger] mixed(self@, other@, picks)[t][rm] != 0
                    implies tt@[t][rm] == mixed(self@, other@, picks)[t][rm] by {
                assert(in_grid(mixed_grid, t, rm));
            }
        }
        tt
    }
}

/// `a` is a copy of `b`.
pub open spec fn same_table(a: TimeTable, b: TimeTable) -> bool {
    &&& a@ == b@
    &&& a.placed() == b.placed()
    &&& a.timeslots() == b.timeslots()
    &&& a.rooms() == b.rooms()
}

/// `tt` is a well-formed table of the problem's size.
pub open spec fn fits_problem(con: &Constraints, tt: TimeTable) -> bool {
    &&& tt.wf()
    &&& tt.timeslots() == con.timeslots()
    &&& tt.rooms() == con.rooms()
}

pub open spec fn score_of(con: &Constraints, tt: TimeTable) -> nat {
    total_score(tt@, con.student_sets(), con.professor_sets(), con.weight())
}

/// The score of each individual of a population.
pub open spec fn scores_of(con: &Constraints, population: Seq<TimeTable>) -> Seq<nat> {
    Seq::new(population.len(), |i: int| score_of(con, population[i]))
}

/// Individual `a` comes before individual `b`: a lower score, or an equal
/// score and an earlier position.
pub open spec fn ranks_before(scores: Seq<nat>, a: int, b: int) -> bool {
    scores[a] < scores[b] || (scores[a] == scores[b] && a < b)
}

/// `order` lists the positions of `scores` from the best to the worst
/// score, equal scores in the order they stand in.
pub open spec fn is_ranking(scores: Seq<nat>, order: Seq<usize>) -> bool {
    &&& order.len() == scores.len()
    &&& forall|k: int| 0 <= k < order.len() ==> #[trigger] order[k] < scores.len()
    &&& forall|a: int, b: int|
        0 <= a < b < order.len() ==> ranks_before(scores, #[trigger] order[a] as int, #[trigger] order[b] as int)
}

/// No professor of the problem teaches two courses at once in `tt`.
pub open spec fn is_valid_for(con: &Constraints, tt: TimeTable) -> bool {
    forall|p: int|
        0 <= p < con.professor_sets().len() ==> !has_overlap_in(tt@, #[trigger] con.professor_sets()[p])
}

/// How many individuals are valid.
pub open spec fn valid_count(con: &Constraints, population: Seq<TimeTable>) -> nat
    decreases population.len(),
{
    if population.len() == 0 {
        0
    } else {
        valid_count(con, population.drop_last()) + if is_valid_for(con, population.last()) {
            1nat
        } else {
            0nat
        }
    }
}

/// The scores of the valid individuals, summed.
pub open spec fn valid_score_sum(con: &Constraints, population: Seq<TimeTable>) -> nat
    decreases population.len(),
{
    if population.len() == 0 {
        0
    } else {
        valid_score_sum(con, population.drop_last()) + if is_valid_for(con, population.last()) {
            score_of(con, population.last())
        } else {
            0nat
        }
    }
}

/// How many children a generation has: `n_children` for each pair among
/// the `2 * n_pairs` fittest, or among all when the population is smaller.
pub open spec fn generation_size(population_len: nat, n_pairs: nat, n_children: nat) -> nat {
    (if 2 * n_pairs < population_len {
        2 * n_pairs
    } else {
        population_len
    }) / 2 * n_children
}

/// Every individual holds the courses `s`.
pub open spec fn all_hold(population: Seq<TimeTable>, s: Set<usize>) -> bool {
    forall|i: int| 0 <= i < population.len() ==> (#[trigger] population[i]).placed() == s
}

/// What a generation looks like, counting valid individuals only.
#[derive(Debug)]
pub struct GenerationReport {
    pub n_valid: usize,
    pub score_sum: u128,
    pub best_score: usize,
    pub best: TimeTable,
}

/// The positions `0..scores.len()`, best score first, equal scores in
/// the order they stand in (selection sort).
fn rank(scores: &Vec<usize>) -> (r: Vec<usize>)
    ensures
        is_ranking(scores@.map_values(|s: usize| s as nat), r@),
{
    let ghost sc = scores@.map_values(|s: usize| s as nat);
    let n = scores.len();
    let mut order: Vec<usize> = Vec::new();
    for i in 0..n
        invariant
            n == scores@.len(),
            order@.len() == i,
            forall|k: int| 0 <= k < i ==> order@[k] == k,
    {
        order.push(i);
    }
    for i in 0..n
        invariant
            n == scores@.len(),
            sc == scores@.map_values(|s: usize| s as nat),
            order@.len() == n,
            forall|k: int| 0 <= k < n ==> #[trigger] order@[k] < n,
            forall|a: int, b: int| 0 <= a < n && 0 <= b < n && a != b ==> order@[a] != order@[b],
            forall|a: int, b: int|
                0 <= a < b < n && a < i ==> ranks_before(sc, #[trigger] order@[a] as int, #[trigger] order@[b] as int),
    {
        let mut m = i;
        for j in i + 1..n
            invariant
                n == scores@.len(),
                sc == scores@.map_values(|s: usize| s as nat),
                order@.len() == n,
                forall|k: int| 0 <= k < n ==> #[trigger] order@[k] < n,
                forall|a: int, b: int| 0 <= a < n && 0 <= b < n && a != b ==> order@[a] != order@[b],
                i <= m < n,
                i < j,
                forall|k: int| i <= k < j && k != m ==> ranks_before(sc, order@[m as int] as int, #[trigger] order@[k] as int),
        {
            let a = order[j];
            let b = order[m];
            if scores[a] < scores[b] || (scores[a] == scores[b] && a < b) {
                m = j;
            }
        }
        let x = order[i];
        let y = order[m];
        let ghost before = order@;
        order.set(i, y);
        order.set(m, x);
        proof {
            assert forall|a: int, b: int| 0 <= a < b < n && a < i + 1 implies ranks_before(
                sc,
                #[trigger] order@[a] as int,
                #[trigger] order@[b] as int,
            ) by {
                if a < i {
                    if b == m {
                        assert(ranks_before(sc, before[a] as int, before[i as int] as int));
                    } else if b == i {
                        assert(ranks_before(sc, before[a] as int, before[m as int] as int));
                    } else {
                        assert(ranks_before(sc, before[a] as int, before[b] as int));
                    }
                } else if b != m {
                    assert(ranks_before(sc, before[m as int] as int, before[b] as int));
                } else {
                    assert(ranks_before(sc, before[m as int] as int, before[i as int] as int));
                }
            }
        }
    }
    order
}

impl Constraints {
    /// The `n` individuals with the lowest scores, best first; among equal
    /// scores the earlier individual comes first.
    pub fn select(&self, population: Vec<TimeTable>, n: usize) -> (r: Vec<TimeTable>)
        requires
            self.wf(),
            forall|i: int| 0 <= i < population@.len() ==> fits_problem(self, #[trigger] population@[i]),
        ensures
            r@.len() == if n < population@.len() {
                n as int
            } else {
                population@.len() as int
            },
            exists|order: Seq<usize>|
                is_ranking(scores_of(self, population@), order) && forall|i: int|
                    0 <= i < r@.len() ==> same_table(#[trigger] r@[i], population@[order[i] as int]),
            forall|i: int| 0 <= i < r@.len() ==> fits_problem(self, #[trigger] r@[i]),
    {
        let len = population.len();
        let mut scores: Vec<usize> = Vec::new();
        for i in 0..len
            invariant
                self.wf(),
                len == population@.len(),
                forall|k: int| 0 <= k < population@.len() ==> fits_problem(self, #[trigger] population@[k]),
                scores@.len() == i,
                forall|k: int| 0 <= k < i ==> scores@[k] as nat == score_of(self, #[trigger] population@[k]),
        {
            let s = self.evaluate(&population[i]);
            scores.push(s);
        }
        let order = rank(&scores);
        assert(scores@.map_values(|s: usize| s as nat) =~= scores_of(self, population@));
        let k = if n < len {
            n
        } else {
            len
        };
        let mut r: Vec<TimeTable> = Vec::new();
        for i in 0..k
            invariant
                self.wf(),
                k <= len,
                len == population@.len(),
                forall|q: int| 0 <= q < population@.len() ==> fits_problem(self, #[trigger] population@[q]),
                is_ranking(scores_of(self, population@), order@),
                r@.len() == i,
                forall|q: int| 0 <= q < i ==> same_table(#[trigger] r@[q], population@[order@[q] as int]),
                forall|q: int| 0 <= q < i ==> fits_problem(self, #[trigger] r@[q]),
        {
            let j = order[i];
            assert(fits_problem(self, population@[j as int]));
            let copy = population[j].clone();
            r.push(copy);
        }
        r
    }
}

/// `c` is a possible child of `a` and `b` by `cross`.
pub open spec fn is_cross_of(c: TimeTable, a: TimeTable, b: TimeTable) -> bool {
    &&& c.wf()
    &&& c.timeslots() == a.timeslots()
    &&& c.rooms() == a.rooms()
    &&& c.placed().subset_of(a.placed().union(b.placed()))
    &&& b.placed().subset_of(a.placed()) ==> c.placed() == a.placed()
    &&& exists|take_other: Seq<Seq<bool>>|
        take_other.len() == a.timeslots() && (forall|t: int|
            0 <= t < take_other.len() ==> (#[trigger] take_other[t]).len() == a.rooms()) && forall|
            t: int,
            rm: int,
        |
            in_grid(a@, t, rm) && #[trigger] mixed(a@, b@, take_other)[t][rm] != 0 ==> c@[t][rm]
                == mixed(a@, b@, take_other)[t][rm]
}

/// `m` is a possible result of `mutate` on `c`.
pub open spec fn is_mutation_of(m: TimeTable, c: TimeTable) -> bool {
    &&& m.wf()
    &&& m.timeslots() == c.timeslots()
    &&& m.rooms() == c.rooms()
    &&& m.placed() == c.placed()
    &&& exists|moves: Seq<Seq<bool>>, picks: Seq<Seq<usize>>| m@ == mutated(c@, moves, picks)
}

/// The individuals of a population in the order a ranking gives.
pub open spec fn ranked(population: Seq<TimeTable>, order: Seq<usize>) -> Seq<TimeTable> {
    order.map_values(|i: usize| population[i as int])
}

/// Child `j` of pair `k` is a mutation of a crossover of parents `2k` and
/// `2k + 1`.
pub open spec fn bred_from(
    children: Seq<TimeTable>,
    parents: Seq<TimeTable>,
    n_children: nat,
    k: int,
    j: int,
) -> bool {
    exists|c: TimeTable|
        is_cross_of(c, parents[2 * k], parents[2 * k + 1]) && #[trigger] is_mutation_of(
            children[k * n_children + j],
            c,
        )
}

/// How many pairs a generation breeds from.
pub open spec fn pair_count(population_len: nat, n_pairs: nat) -> nat {
    (if 2 * n_pairs < population_len {
        2 * n_pairs
    } else {
        population_len
    }) / 2
}

impl Constraints {
    /// One generation: the `2 * n_pairs` fittest individuals, taken two by
    /// two in rank order, each pair giving `n_children` children by
    /// crossover and then mutation. The parents are not kept.
    pub fn generation(
        &self,
        population: Vec<TimeTable>,
        n_pairs: usize,
        n_children: usize,
        mutation_chance: Chance,
    ) -> (r: Vec<TimeTable>)
        requires
            self.wf(),
            forall|i: int| 0 <= i < population@.len() ==> fits_problem(self, #[trigger] population@[i]),
            mutation_chance.valid(),
            n_pairs * 2 <= usize::MAX,
            n_pairs * n_children <= usize::MAX,
        ensures
            r@.len() == generation_size(population@.len(), n_pairs as nat, n_children as nat),
            forall|i: int| 0 <= i < r@.len() ==> fits_problem(self, #[trigger] r@[i]),
            forall|s: Set<usize>| #[trigger] all_hold(population@, s) ==> all_hold(r@, s),
            exists|order: Seq<usize>|
                is_ranking(scores_of(self, population@), order) && forall|k: int, j: int|
                    0 <= k < pair_count(population@.len(), n_pairs as nat) && 0 <= j < n_children
                        ==> #[trigger] bred_from(
                        r@,
                        ranked(population@, order),
                        n_children as nat,
                        k,
                        j,
                    ),
    {
        let ghost pop = population@;
        let fittest = self.select(population, n_pairs * 2);
        let ghost order = choose|order: Seq<usize>|
            is_ranking(scores_of(self, pop), order) && forall|i: int|
                0 <= i < fittest@.len() ==> same_table(#[trigger] fittest@[i], pop[order[i] as int]);
        let n_fit = fittest.len();
        let pairs = n_fit / 2;
        let mut children: Vec<TimeTable> = Vec::new();
        assert(0 * n_children == 0) by (nonlinear_arith);
        for p in 0..pairs
            invariant
                self.wf(),
                mutation_chance.valid(),
                n_fit == fittest@.len(),
                pairs == n_fit / 2,
                n_fit <= 2 * n_pairs,
                n_fit <= pop.len(),
                n_pairs * n_children <= usize::MAX,
                is_ranking(scores_of(self, pop), order),
                forall|i: int| 0 <= i < fittest@.len() ==> same_table(#[trigger] fittest@[i], pop[order[i] as int]),
                forall|i: int| 0 <= i < fittest@.len() ==> fits_problem(self, #[trigger] fittest@[i]),
                children@.len() == p * n_children,
                forall|kk: int, j: int|
                    0 <= kk < p && 0 <= j < n_children ==> #[trigger] bred_from(
                        children@,
                        ranked(pop, order),
                        n_children as nat,
                        kk,
                        j,
                    ),
                forall|i: int| 0 <= i < children@.len() ==> fits_problem(self, #[trigger] children@[i]),
                forall|s: Set<usize>| #[trigger] all_hold(pop, s) ==> all_hold(children@, s),
        {
            let first = &fittest[2 * p];
            let second = &fittest[2 * p + 1];
            for k in 0..n_children
                invariant
                    self.wf(),
                    mutation_chance.valid(),
                    p < pairs,
                    pairs == n_fit / 2,
                    n_fit == fittest@.len(),
                    n_fit <= 2 * n_pairs,
                    n_fit <= pop.len(),
                    n_pairs * n_children <= usize::MAX,
                    is_ranking(scores_of(self, pop), order),
                    first == fittest@[2 * p],
                    second == fittest@[2 * p + 1],
                    forall|i: int| 0 <= i < fittest@.len() ==> same_table(#[trigger] fittest@[i], pop[order[i] as int]),
                    fits_problem(self, *first),
                    fits_problem(self, *second),
                    children@.len() == p * n_children + k,
                    forall|kk: int, j: int|
                        0 <= kk < p && 0 <= j < n_children ==> #[trigger] bred_from(
                            children@,
                            ranked(pop, order),
                            n_children as nat,
                            kk,
                            j,
                        ),
                    forall|j: int|
                        0 <= j < k ==> #[trigger] bred_from(
                            children@,
                            ranked(pop, order),
                            n_children as nat,
                            p as int,
                            j,
                        ),
                    forall|i: int| 0 <= i < children@.len() ==> fits_problem(self, #[trigger] children@[i]),
                    forall|s: Set<usize>| #[trigger] all_hold(pop, s) ==> all_hold(children@, s),
            {
                proof {
                    assert(p * n_children + k < n_pairs * n_children) by (nonlinear_arith)
                        requires
                            p < pairs,
                            pairs <= n_pairs,
                            k < n_children,
                    ;
                }
                let crossed = first.cross(second);
                let child = crossed.mutate(mutation_chance);
                let ghost before = children@;
                children.push(child);
                proof {
                    let parents = ranked(pop, order);
                    let nc = n_children as nat;
                    let a = order[2 * p];
                    let b = order[2 * p + 1];
                    assert(a < pop.len() && b < pop.len());
                    assert(parents[2 * p] == pop[a as int]);
                    assert(parents[2 * p + 1] == pop[b as int]);
                    assert(same_table(fittest@[2 * p], pop[a as int]));
                    assert(same_table(fittest@[2 * p + 1], pop[b as int]));
                    assert(is_cross_of(crossed, parents[2 * p], parents[2 * p + 1]));
                    assert(is_mutation_of(child, crossed));
                    assert(children@[p * nc + k] == child);
                    assert(bred_from(children@, parents, nc, p as int, k as int));
                    assert forall|kk: int, j: int|
                        0 <= kk < p && 0 <= j < n_children implies #[trigger] bred_from(
                        children@,
                        parents,
                        nc,
                        kk,
                        j,
                    ) by {
                        assert(kk * nc + j < p * nc) by (nonlinear_arith)
                            requires
                                kk < p,
                                0 <= j < nc,
                        ;
                        assert(bred_from(before, parents, nc, kk, j));
                        assert(children@[kk * nc + j] == before[kk * nc + j]);
                    }
                    assert forall|j: int|
                        0 <= j < k + 1 implies #[trigger] bred_from(
                        children@,
                        parents,
                        nc,
                        p as int,
                        j,
                    ) by {
                        if j < k {
                            assert(bred_from(before, parents, nc, p as int, j));
                            assert(children@[p * nc + j] == before[p * nc + j]);
                        }
                    }
                }
                proof {
                    assert forall|s: Set<usize>| #[trigger] all_hold(pop, s) implies all_hold(children@, s) by {
                        assert(all_hold(before, s));
                        let a = order[2 * p];
                        let b = order[2 * p + 1];
                        assert(a < pop.len());
                        assert(b < pop.len());
                        assert(same_table(fittest@[2 * p], pop[a as int]));
                        assert(same_table(fittest@[2 * p + 1], pop[b as int]));
                        assert(pop[a as int].placed() == s);
                        assert(pop[b as int].placed() == s);
                        assert(children@[children@.len() - 1] == child);
                    }
                }
            }
            proof {
                assert(p * n_children + n_children == (p + 1) * n_children) by (nonlinear_arith);
            }
        }
        children
    }

    /// No professor teaches two of their courses in the same timeslot.
    pub fn is_valid(&self, tt: &TimeTable) -> (r: bool)
        requires
            self.wf(),
            tt.wf(),
        ensures
            r == is_valid_for(self, *tt),
    {
        let professors = self.professors();
        for p in 0..professors.len()
            invariant
                tt.wf(),
                crate::constraints::sets_view(professors@) == self.professor_sets(),
                forall|q: int| 0 <= q < p ==> !has_overlap_in(tt@, #[trigger] self.professor_sets()[q]),
        {
            assert(self.professor_sets()[p as int] == professors@[p as int]@);
            if tt.has_overlap(&professors[p]) {
                return false;
            }
        }
        true
    }

    /// Counts the valid individuals and sums their scores; `None` when no
    /// individual is valid, otherwise also the lowest score and the first
    /// valid individual that has it.
    pub fn evaluate_generation(&self, population: &[TimeTable]) -> (r: Option<GenerationReport>)
        requires
            self.wf(),
            forall|i: int| 0 <= i < population@.len() ==> fits_problem(self, #[trigger] population@[i]),
        ensures
            r is None <==> forall|i: int|
                0 <= i < population@.len() ==> !is_valid_for(self, #[trigger] population@[i]),
            r matches Some(rep) ==> {
                &&& rep.n_valid == valid_count(self, population@)
                &&& rep.score_sum == valid_score_sum(self, population@)
                &&& fits_problem(self, rep.best)
                &&& exists|b: int|
                    0 <= b < population@.len() && is_valid_for(self, population@[b])
                        && rep.best_score == score_of(self, population@[b]) && same_table(
                        rep.best,
                        population@[b],
                    ) && (forall|i: int|
                        0 <= i < population@.len() && is_valid_for(self, #[trigger] population@[i])
                            ==> score_of(self, population@[i]) >= rep.best_score) && (forall|i: int|
                        0 <= i < b && is_valid_for(self, #[trigger] population@[i]) ==> score_of(
                            self,
                            population@[i],
                        ) > rep.best_score)
            },
    {
        let ghost pop = population@;
        let len = population.len();
        let mut n_valid: usize = 0;
        let mut score_sum: u128 = 0;
        let mut best_score: usize = 0;
        let mut best_idx: Option<usize> = None;
        for i in 0..len
            invariant
                self.wf(),
                len == pop.len(),
                pop == population@,
                forall|k: int| 0 <= k < pop.len() ==> fits_problem(self, #[trigger] pop[k]),
                n_valid == valid_count(self, pop.take(i as int)),
                n_valid <= i,
                score_sum == valid_score_sum(self, pop.take(i as int)),
                score_sum <= i * 0xffff_ffff_ffff_ffffu128,
                best_idx is None <==> forall|k: int| 0 <= k < i ==> !is_valid_for(self, #[trigger] pop[k]),
                best_idx matches Some(b) ==> {
                    &&& b < i
                    &&& is_valid_for(self, pop[b as int])
                    &&& best_score == score_of(self, pop[b as int])
                    &&& forall|k: int| 0 <= k < i && is_valid_for(self, #[trigger] pop[k]) ==> score_of(self, pop[k]) >= best_score
                    &&& forall|k: int| 0 <= k < b && is_valid_for(self, #[trigger] pop[k]) ==> score_of(self, pop[k]) > best_score
                },
        {
            assert(pop.take(i + 1).drop_last() =~= pop.take(i as int));
            assert(fits_problem(self, pop[i as int]));
            if self.is_valid(&population[i]) {
                let s = self.evaluate(&population[i]);
                proof {
                    assert(score_sum + s <= (i + 1) * 0xffff_ffff_ffff_ffffu128) by (nonlinear_arith)
                        requires
                            score_sum <= i * 0xffff_ffff_ffff_ffffu128,
                            s <= 0xffff_ffff_ffff_ffffu128,
                    ;
                    assert((i + 1) * 0xffff_ffff_ffff_ffffu128 <= 0xffff_ffff_ffff_ffff_ffff_ffff_ffff_ffffu128) by (nonlinear_arith)
                        requires
                            i + 1 <= 0xffff_ffff_ffff_ffffu128,
                    ;
                }
                n_valid = n_valid + 1;
                score_sum = score_sum + s as u128;
                match best_idx {
                    Some(_) => {
                        if s < best_score {
                            best_score = s;
                            best_idx = Some(i);
                        }
                    },
                    None => {
                        best_score = s;
                        best_idx = Some(i);
                    },
                }
            }
        }
        assert(pop.take(len as int) =~= pop);
        match best_idx {
            Some(b) => {
                let best = population[b].clone();
                Some(GenerationReport { n_valid, score_sum, best_score, best })
            },
            None => None,
        }
    }
}

/// The best valid individual seen over the generations of a run, which a
/// generation itself does not keep.
pub struct BestSoFar {
    pub score: usize,
    pub table: Option<TimeTable>,
}

impl BestSoFar {
    pub fn new() -> (r: Self)
        ensures
            r.score == usize::MAX,
            r.table is None,
    {
        BestSoFar { score: usize::MAX, table: None }
    }

    /// Takes in a generation's report: its best individual replaces the one
    /// kept when its score is lower. Returns whether the search may stop,
    /// which it may once a table without penalty is found.
    pub fn record(&mut self, report: &GenerationReport) -> (stop: bool)
        requires
            report.best.wf(),
        ensures
            stop == (report.best_score == 0),
            report.best_score < old(self).score ==> final(self).score == report.best_score && (
            final(self).table matches Some(t) && t.wf() && same_table(t, report.best)),
            report.best_score >= old(self).score ==> final(self).score == old(self).score
                && final(self).table == old(self).table,
    {
        if report.best_score < self.score {
            self.score = report.best_score;
            self.table = Some(report.best.clone());
        }
        report.best_score == 0
    }
}

} // verus!
