//! The problem description: table size, courses, and who is tied to which
//! course.
use crate::fitness::{lemma_excess_bound, lemma_scan_bound, overlap_penalty, penalty};
use crate::model::{empty_grid, rectangular, table_fits};
use crate::timetable::TimeTable;
use rayon::iter::{IntoParallelRefIterator, ParallelIterator};
use std::collections::HashSet;
use std::ops::Range;
use vstd::prelude::*;

verus! {

/// Why a problem description is refused.
#[derive(Debug, Clone, Copy, PartialEq, Eq, Structural)]
pub enum ConstraintsError {
    /// The table has fewer cells than there are courses.
    NotEnoughCells,
    /// The professors cannot teach every course, one per timeslot each.
    NotEnoughProfessors,
    /// No professor teaches this course (the smallest such id).
    CourseWithoutProfessor(usize),
    /// The penalties of a problem this large would not fit in a `usize`.
    TooLarge,
}

/// Which kind of entity a course set belongs to.
#[derive(Debug, Clone, Copy, PartialEq, Eq, Structural)]
pub enum Role {
    Student,
    Professor,
}

#[derive(Debug, PartialEq, Eq)]
pub struct Constraints {
    pub n_timeslots: usize,
    pub n_rooms: usize,
    professors: Vec<HashSet<usize>>,
    students: Vec<HashSet<usize>>,
    courses: Range<usize>,
    overlap_weight: usize,
}

/// The sets that a vector of hash sets holds.
pub open spec fn sets_view(v: Seq<HashSet<usize>>) -> Seq<Set<usize>> {
    v.map_values(|h: HashSet<usize>| h@)
}

/// Some professor teaches course `c`.
pub open spec fn course_taught(professors: Seq<Set<usize>>, c: usize) -> bool {
    exists|p: int| 0 <= p < professors.len() && #[trigger] professors[p].contains(c)
}

/// Every course `1..=n_courses` has a professor.
pub open spec fn all_taught(professors: Seq<Set<usize>>, n_courses: nat) -> bool {
    forall|c: usize| 1 <= c <= n_courses ==> #[trigger] course_taught(professors, c)
}

/// What one entity adds to the score of a table, a professor overlap
/// costing `weight`.
pub open spec fn contribution(grid: Seq<Seq<usize>>, set: Set<usize>, role: Role, weight: nat) -> nat {
    match role {
        Role::Student => penalty(grid, Some(set)),
        Role::Professor => overlap_penalty(grid, set, weight),
    }
}

/// What all the entities of one role add to the score of a table.
pub open spec fn role_total(grid: Seq<Seq<usize>>, sets: Seq<Set<usize>>, role: Role, weight: nat) -> nat
    decreases sets.len(),
{
    if sets.len() == 0 {
        0
    } else {
        role_total(grid, sets.drop_last(), role, weight) + contribution(grid, sets.last(), role, weight)
    }
}

/// The largest penalty one student can have on a table of the given size.
pub open spec fn student_bound(n_timeslots: nat, n_rooms: nat) -> nat {
    n_timeslots * (3 * n_rooms + 1)
}

/// The largest sum of student penalties on a table of the given size.
pub open spec fn soft_bound(n_timeslots: nat, n_rooms: nat, n_students: nat) -> nat {
    n_students * student_bound(n_timeslots, n_rooms)
}

/// The price of one professor overlap: one more than the students'
/// penalties can ever add up to, so that any overlap outweighs them.
pub open spec fn overlap_weight_for(n_timeslots: nat, n_rooms: nat, n_students: nat) -> nat {
    soft_bound(n_timeslots, n_rooms, n_students) + 1
}

/// The largest penalty one entity of a role can add on a table of the
/// given size.
pub open spec fn entity_bound(n_timeslots: nat, n_rooms: nat, role: Role, weight: nat) -> nat {
    match role {
        Role::Student => student_bound(n_timeslots, n_rooms),
        Role::Professor => n_timeslots * n_rooms * weight,
    }
}

/// Every score of a problem of this size fits in a `usize`.
pub open spec fn problem_fits(
    n_timeslots: nat,
    n_rooms: nat,
    n_students: nat,
    n_professors: nat,
) -> bool {
    let weight = overlap_weight_for(n_timeslots, n_rooms, n_students);
    &&& table_fits(n_timeslots, n_rooms)
    &&& weight <= usize::MAX
    &&& n_timeslots * n_rooms * weight <= usize::MAX
    &&& soft_bound(n_timeslots, n_rooms, n_students) + n_professors * (n_timeslots * n_rooms
        * weight) <= usize::MAX
}

impl Constraints {
    pub closed spec fn timeslots(&self) -> nat {
        self.n_timeslots as nat
    }

    pub closed spec fn rooms(&self) -> nat {
        self.n_rooms as nat
    }

    pub closed spec fn num_courses(&self) -> nat {
        (self.courses.end - 1) as nat
    }

    pub closed spec fn professor_sets(&self) -> Seq<Set<usize>> {
        sets_view(self.professors@)
    }

    pub closed spec fn student_sets(&self) -> Seq<Set<usize>> {
        sets_view(self.students@)
    }

    /// The price of one professor overlap.
    pub closed spec fn weight(&self) -> nat {
        self.overlap_weight as nat
    }

    /// The overlap price outweighs every sum of student penalties, and every
    /// score fits in a `usize`.
    pub proof fn lemma_weight(&self)
        requires
            self.wf(),
        ensures
            self.weight() == overlap_weight_for(self.timeslots(), self.rooms(), self.student_sets().len()),
            problem_fits(
                self.timeslots(),
                self.rooms(),
                self.student_sets().len(),
                self.professor_sets().len(),
            ),
    {
    }

    pub closed spec fn wf(&self) -> bool {
        &&& self.overlap_weight == overlap_weight_for(
            self.timeslots(),
            self.rooms(),
            self.students@.len() as nat,
        )
        &&& self.courses.start == 1
        &&& self.courses.end >= 1
        &&& self.num_courses() <= self.timeslots() * self.rooms()
        &&& self.num_courses() <= self.professors@.len() * self.timeslots()
        &&& all_taught(self.professor_sets(), self.num_courses())
        &&& problem_fits(
            self.timeslots(),
            self.rooms(),
            self.students@.len() as nat,
            self.professors@.len() as nat,
        )
    }

    /// A problem description; refused when the table is too small for the
    /// courses, when the professors cannot cover them, when a course has no
    /// professor, or when its scores would not fit in a `usize`.
    pub fn new(
        n_timeslots: usize,
        n_rooms: usize,
        n_courses: usize,
        professors: Vec<HashSet<usize>>,
        students: Vec<HashSet<usize>>,
    ) -> (r: Result<Self, ConstraintsError>)
        ensures
            (n_timeslots * n_rooms < n_courses) ==> r == Err::<Self, ConstraintsError>(
                ConstraintsError::NotEnoughCells,
            ),
            (n_timeslots * n_rooms >= n_courses && professors@.len() * n_timeslots < n_courses)
                ==> r == Err::<Self, ConstraintsError>(ConstraintsError::NotEnoughProfessors),
            (n_timeslots * n_rooms >= n_courses && professors@.len() * n_timeslots >= n_courses
                && !all_taught(sets_view(professors@), n_courses as nat)) ==> exists|c: usize|
                1 <= c <= n_courses && !course_taught(sets_view(professors@), c) && (forall|
                    d: usize,
                | 1 <= d < c ==> #[trigger] course_taught(sets_view(professors@), d)) && r
                    == Err::<Self, ConstraintsError>(ConstraintsError::CourseWithoutProfessor(c)),
            (n_timeslots * n_rooms >= n_courses && professors@.len() * n_timeslots >= n_courses
                && all_taught(sets_view(professors@), n_courses as nat) && !problem_fits(
                n_timeslots as nat,
                n_rooms as nat,
                students@.len() as nat,
                professors@.len() as nat,
            )) ==> r == Err::<Self, ConstraintsError>(ConstraintsError::TooLarge),
            r is Ok <==> (n_timeslots * n_rooms >= n_courses && professors@.len() * n_timeslots
                >= n_courses && all_taught(sets_view(professors@), n_courses as nat)
                && problem_fits(
                n_timeslots as nat,
                n_rooms as nat,
                students@.len() as nat,
                professors@.len() as nat,
            )),
            r matches Ok(con) ==> con.wf() && con.timeslots() == n_timeslots && con.rooms()
                == n_rooms && con.num_courses() == n_courses && con.weight() == overlap_weight_for(
                n_timeslots as nat,
                n_rooms as nat,
                students@.len() as nat,
            ) && con.professor_sets() == sets_view(
                professors@,
            ) && con.student_sets() == sets_view(students@),
    {
        match n_timeslots.checked_mul(n_rooms) {
            Some(cells) => {
                if cells < n_courses {
                    return Err(ConstraintsError::NotEnoughCells);
                }
            },
            None => {},
        }
        match professors.len().checked_mul(n_timeslots) {
            Some(teaching) => {
                if teaching < n_courses {
                    return Err(ConstraintsError::NotEnoughProfessors);
                }
            },
            None => {},
        }
        let ghost profs = sets_view(professors@);
        for k in 0..n_courses
            invariant
                n_timeslots * n_rooms >= n_courses,
                professors@.len() * n_timeslots >= n_courses,
                profs == sets_view(professors@),
                forall|d: usize| 1 <= d <= k ==> #[trigger] course_taught(profs, d),
        {
            let c = k + 1;
            let mut taught = false;
            for p in 0..professors.len()
                invariant
                    profs == sets_view(professors@),
                    taught <==> exists|q: int| 0 <= q < p && #[trigger] profs[q].contains(c),
            {
                assert(profs[p as int] == professors@[p as int]@);
                if professors[p].contains(&c) {
                    taught = true;
                }
            }
            if !taught {
                proof {
                    assert(!course_taught(profs, c));
                    if all_taught(profs, n_courses as nat) {
                        assert(course_taught(profs, c));
                    }
                }
                return Err(ConstraintsError::CourseWithoutProfessor(c));
            }
        }
        assert(all_taught(profs, n_courses as nat));
        let overlap_weight = match Self::weight_if_fits(
            n_timeslots,
            n_rooms,
            students.len(),
            professors.len(),
        ) {
            Some(w) => w,
            None => {
                return Err(ConstraintsError::TooLarge);
            },
        };
        Ok(
            Constraints {
                n_timeslots,
                n_rooms,
                professors,
                students,
                courses: 1..n_courses + 1,
                overlap_weight,
            },
        )
    }

    /// The overlap price of a problem of this size, when every score of it
    /// fits in a `usize`.
    fn weight_if_fits(n_timeslots: usize, n_rooms: usize, n_students: usize, n_professors: usize) -> (r:
        Option<usize>)
        ensures
            r is Some <==> problem_fits(
                n_timeslots as nat,
                n_rooms as nat,
                n_students as nat,
                n_professors as nat,
            ),
            r matches Some(w) ==> w == overlap_weight_for(
                n_timeslots as nat,
                n_rooms as nat,
                n_students as nat,
            ),
    {
        let t = n_timeslots;
        let rm = n_rooms;
        let cells = match t.checked_mul(rm) {
            Some(x) => x,
            None => {
                proof {
                    assert((t * rm + t) * 4 >= t * rm) by (nonlinear_arith);
                }
                return None;
            },
        };
        let per_slot = match cells.checked_add(t) {
            Some(x) => x,
            None => {
                return None;
            },
        };
        match per_slot.checked_mul(4) {
            Some(_) => {},
            None => {
                return None;
            },
        }
        proof {
            assert(t * (3 * rm + 1) == 3 * (t * rm) + t) by (nonlinear_arith);
        }
        let one_student = 3 * cells + t;
        let ghost soft = soft_bound(t as nat, rm as nat, n_students as nat);
        let students_total = match n_students.checked_mul(one_student) {
            Some(x) => x,
            None => {
                return None;
            },
        };
        assert(students_total == soft);
        let weight = match students_total.checked_add(1) {
            Some(x) => x,
            None => {
                return None;
            },
        };
        let per_professor = match cells.checked_mul(weight) {
            Some(x) => x,
            None => {
                return None;
            },
        };
        let professors_total = match n_professors.checked_mul(per_professor) {
            Some(x) => x,
            None => {
                proof {
                    assert(soft + n_professors * (t * rm * weight) >= n_professors * (t * rm * weight));
                }
                return None;
            },
        };
        match students_total.checked_add(professors_total) {
            Some(_) => Some(weight),
            None => None,
        }
    }
}

/// One entity adds at most `entity_bound` to the score of a table.
pub proof fn lemma_contribution_bound(
    grid: Seq<Seq<usize>>,
    set: Set<usize>,
    role: Role,
    weight: nat,
    n_rooms: nat,
)
    requires
        rectangular(grid, n_rooms),
    ensures
        contribution(grid, set, role, weight) <= entity_bound(grid.len(), n_rooms, role, weight),
{
    let t = grid.len();
    lemma_scan_bound(grid, Some(set), t, n_rooms);
    lemma_excess_bound(grid, Some(set), t, n_rooms);
    let e = crate::fitness::excess(grid, Some(set), t);
    assert(e * weight <= t * n_rooms * weight) by (nonlinear_arith)
        requires
            e <= t * n_rooms,
    ;
}

pub proof fn lemma_role_total_bound(
    grid: Seq<Seq<usize>>,
    sets: Seq<Set<usize>>,
    role: Role,
    weight: nat,
    n_rooms: nat,
)
    requires
        rectangular(grid, n_rooms),
    ensures
        role_total(grid, sets, role, weight) <= sets.len() * entity_bound(grid.len(), n_rooms, role, weight),
    decreases sets.len(),
{
    if sets.len() > 0 {
        lemma_role_total_bound(grid, sets.drop_last(), role, weight, n_rooms);
        lemma_contribution_bound(grid, sets.last(), role, weight, n_rooms);
        let b = entity_bound(grid.len(), n_rooms, role, weight);
        assert((sets.len() - 1) * b + b == sets.len() * b) by (nonlinear_arith);
    }
}

/// The score of a table: every student's penalty and every professor's
/// overlap penalty at `weight` per overlap, summed.
pub open spec fn total_score(
    grid: Seq<Seq<usize>>,
    students: Seq<Set<usize>>,
    professors: Seq<Set<usize>>,
    weight: nat,
) -> nat {
    role_total(grid, students, Role::Student, weight) + role_total(grid, professors, Role::Professor, weight)
}

/// Relies on rayon's `par_iter`, `map` and `sum`: the per-set penalties,
/// each computed by `TimeTable::contribution`, added up in parallel.
#[verifier::external_body]
fn parallel_total(tt: &TimeTable, sets: &Vec<HashSet<usize>>, role: Role, weight: usize) -> (r: usize)
    requires
        tt.wf(),
        role == Role::Professor ==> tt.timeslots() * tt.rooms() * weight <= usize::MAX,
        role_total(tt@, sets_view(sets@), role, weight as nat) <= usize::MAX,
    ensures
        r == role_total(tt@, sets_view(sets@), role, weight as nat),
{
    sets.par_iter().map(|s| tt.contribution(s, role, weight)).sum::<usize>()
}

impl TimeTable {
    /// An empty table of the problem's size.
    pub fn new(constraints: &Constraints) -> (r: Self)
        requires
            constraints.wf(),
        ensures
            r.wf(),
            r.timeslots() == constraints.timeslots(),
            r.rooms() == constraints.rooms(),
            r@ == empty_grid(constraints.timeslots(), constraints.rooms()),
            r.placed() == Set::<usize>::empty(),
    {
        TimeTable::empty(constraints.n_timeslots, constraints.n_rooms)
    }

    /// What one entity adds to the score of this table, a professor
    /// overlap costing `weight`.
    pub fn contribution(&self, set: &HashSet<usize>, role: Role, weight: usize) -> (r: usize)
        requires
            self.wf(),
            role == Role::Professor ==> self.timeslots() * self.rooms() * weight <= usize::MAX,
        ensures
            r == contribution(self@, set@, role, weight as nat),
    {
        match role {
            Role::Student => self.evaluate(Some(set)),
            Role::Professor => self.professor_overlap(set, weight),
        }
    }
}

impl Constraints {
    pub fn professors(&self) -> (r: &Vec<HashSet<usize>>)
        ensures
            sets_view(r@) == self.professor_sets(),
    {
        &self.professors
    }

    pub fn students(&self) -> (r: &Vec<HashSet<usize>>)
        ensures
            sets_view(r@) == self.student_sets(),
    {
        &self.students
    }

    /// The course ids, `1..n_courses + 1`.
    pub fn courses(&self) -> (r: &Range<usize>)
        requires
            self.wf(),
        ensures
            r.start == 1,
            r.end == self.num_courses() + 1,
    {
        &self.courses
    }

    pub fn n_timeslots(&self) -> (r: usize)
        ensures
            r == self.timeslots(),
    {
        self.n_timeslots
    }

    /// The price of one professor overlap: one more than the largest sum of
    /// student penalties a table of this size can reach.
    pub fn overlap_weight(&self) -> (r: usize)
        ensures
            r == self.weight(),
    {
        self.overlap_weight
    }

    pub fn n_rooms(&self) -> (r: usize)
        ensures
            r == self.rooms(),
    {
        self.n_rooms
    }

    /// The score of a table of the problem's size: the students' penalties
    /// plus the professors' overlap penalties, each part summed in parallel.
    pub fn evaluate(&self, tt: &TimeTable) -> (r: usize)
        requires
            self.wf(),
            tt.wf(),
            tt.timeslots() == self.timeslots(),
            tt.rooms() == self.rooms(),
        ensures
            r == total_score(tt@, self.student_sets(), self.professor_sets(), self.weight()),
    {
        proof {
            tt.lemma_placement();
            let w = self.weight();
            lemma_role_total_bound(tt@, self.student_sets(), Role::Student, w, self.rooms());
            lemma_role_total_bound(tt@, self.professor_sets(), Role::Professor, w, self.rooms());
        }
        let weight = self.overlap_weight;
        let from_students = parallel_total(tt, &self.students, Role::Student, weight);
        let from_professors = parallel_total(tt, &self.professors, Role::Professor, weight);
        from_students + from_professors
    }

    /// A table with every course placed in a uniformly drawn free cell, in
    /// order of id.
    pub fn make_random_tt(&self) -> (r: TimeTable)
        requires
            self.wf(),
        ensures
            r.wf(),
            r.timeslots() == self.timeslots(),
            r.rooms() == self.rooms(),
            r.placed() == Set::new(|c: usize| 1 <= c <= self.num_courses()),
    {
        let mut tt = TimeTable::new(self);
        let end = self.courses.end;
        for course in 1..end
            invariant
                self.wf(),
                end == self.num_courses() + 1,
                tt.wf(),
                tt.timeslots() == self.timeslots(),
                tt.rooms() == self.rooms(),
                tt.placed() == Set::new(|c: usize| 1 <= c < course),
                tt.placed().len() == course - 1,
        {
            proof {
                tt.lemma_placement();
            }
            let ghost before = tt.placed();
            let placed = tt.random_place(course);
            assert(placed is Ok);
            assert(tt.placed() =~= Set::new(|c: usize| 1 <= c < course + 1));
        }
        assert(tt.placed() =~= Set::new(|c: usize| 1 <= c <= self.num_courses()));
        tt
    }
}

} // verus!
