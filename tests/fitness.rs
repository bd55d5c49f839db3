use std::collections::HashSet;
use timetabler::constraints::Constraints;
use timetabler::fitness::PauseState;
use timetabler::genetic::Chance;
use timetabler::timetable::TimeTable;

fn courses_of(items: &[usize]) -> HashSet<usize> {
    items.iter().copied().collect()
}

/// Four timeslots, one room, courses 1 to 4 in order, one professor.
fn four_in_a_row(students: Vec<HashSet<usize>>) -> (Constraints, TimeTable) {
    let con = Constraints::new(4, 1, 4, vec![courses_of(&[1, 2, 3, 4])], students).unwrap();
    let mut tt = TimeTable::new(&con);
    for t in 0..4 {
        tt.set(t, 0, t + 1).unwrap();
    }
    (con, tt)
}

#[test]
fn pause_state_transitions() {
    assert_eq!(PauseState::Initial.step(true), (PauseState::HasBefore, 0));
    assert_eq!(PauseState::HasBefore.step(true), (PauseState::HasBefore, 0));
    assert_eq!(PauseState::HasPause.step(true), (PauseState::HasBefore, 1));
    assert_eq!(PauseState::Initial.step(false), (PauseState::Initial, 0));
    assert_eq!(PauseState::HasBefore.step(false), (PauseState::HasPause, 0));
    assert_eq!(PauseState::HasPause.step(false), (PauseState::Initial, 0));
}

#[test]
fn one_gap_is_charged_once() {
    let (_, tt) = four_in_a_row(vec![courses_of(&[1, 3])]);
    assert_eq!(tt.evaluate(Some(&courses_of(&[1, 3]))), 1);
}

#[test]
fn adjacent_courses_cost_nothing() {
    let (_, tt) = four_in_a_row(vec![courses_of(&[1, 2])]);
    assert_eq!(tt.evaluate(Some(&courses_of(&[1, 2]))), 0);
}

#[test]
fn contiguous_run_costs_nothing_and_a_break_costs() {
    let (_, tt) = four_in_a_row(vec![]);
    assert_eq!(tt.evaluate(Some(&courses_of(&[2, 3, 4]))), 0);
    assert_eq!(tt.evaluate(Some(&courses_of(&[2, 4]))), 1);
    assert_eq!(tt.evaluate(Some(&courses_of(&[1, 3, 4]))), 1);
    assert_eq!(tt.evaluate(None), 0);
}

#[test]
fn long_idle_stretch_is_not_charged() {
    let (_, tt) = four_in_a_row(vec![]);
    assert_eq!(tt.evaluate(Some(&courses_of(&[1, 4]))), 0);
}

#[test]
fn leading_and_trailing_idle_time_is_free() {
    let (_, tt) = four_in_a_row(vec![]);
    assert_eq!(tt.evaluate(Some(&courses_of(&[2]))), 0);
    assert_eq!(tt.evaluate(Some(&courses_of(&[]))), 0);
}

#[test]
fn double_booking_costs_three_per_extra_course() {
    let con = Constraints::new(2, 3, 3, vec![courses_of(&[1]), courses_of(&[2]), courses_of(&[3])], vec![])
        .unwrap();
    let mut tt = TimeTable::new(&con);
    tt.set(0, 0, 1).unwrap();
    tt.set(0, 1, 2).unwrap();
    tt.set(0, 2, 3).unwrap();
    assert_eq!(tt.evaluate(Some(&courses_of(&[1, 2, 3]))), 6);
    assert_eq!(tt.evaluate(Some(&courses_of(&[1, 3]))), 3);
    assert_eq!(tt.evaluate(None), 6);
}

#[test]
fn gap_and_double_booking_add_up() {
    let con = Constraints::new(3, 2, 4, vec![courses_of(&[1, 2]), courses_of(&[3, 4])], vec![])
        .unwrap();
    let mut tt = TimeTable::new(&con);
    tt.set(0, 0, 1).unwrap();
    tt.set(0, 1, 2).unwrap();
    tt.set(2, 0, 3).unwrap();
    assert_eq!(tt.evaluate(Some(&courses_of(&[1, 2, 3]))), 4);
}

#[test]
fn empty_table_scores_zero() {
    let con = Constraints::new(4, 2, 4, vec![courses_of(&[1, 2, 3, 4])], vec![courses_of(&[1, 3])])
        .unwrap();
    let tt = TimeTable::new(&con);
    assert_eq!(tt.evaluate(Some(&courses_of(&[1, 3]))), 0);
    assert_eq!(tt.evaluate(None), 0);
    assert_eq!(tt.professor_overlap(&courses_of(&[1, 2, 3, 4]), con.overlap_weight()), 0);
    assert!(!tt.has_overlap(&courses_of(&[1, 2, 3, 4])));
    assert_eq!(con.evaluate(&tt), 0);
}

#[test]
fn professor_overlap_in_one_timeslot() {
    let prof = courses_of(&[1, 2]);
    let con = Constraints::new(2, 2, 2, vec![prof.clone()], vec![courses_of(&[1])]).unwrap();
    let mut tt = TimeTable::new(&con);
    tt.set(0, 0, 1).unwrap();
    tt.set(0, 1, 2).unwrap();
    assert!(tt.has_overlap(&prof));
    // one student on 2 timeslots of 2 rooms: 2 * (3 * 2 + 1) + 1
    assert_eq!(con.overlap_weight(), 15);
    assert_eq!(tt.professor_overlap(&prof, 15), 15);
    assert_eq!(tt.professor_overlap(&prof, 1), 1);
    assert!(!con.is_valid(&tt));
    assert_eq!(con.evaluate(&tt), 15);
    let report = con.evaluate_generation(&[tt]);
    assert!(report.is_none());
}

#[test]
fn overlapping_table_is_excluded_whatever_its_soft_score() {
    let prof = courses_of(&[1, 2]);
    let student = courses_of(&[1, 2]);
    let con = Constraints::new(3, 2, 2, vec![prof.clone()], vec![student.clone()]).unwrap();
    let mut overlapping = TimeTable::new(&con);
    overlapping.set(0, 0, 1).unwrap();
    overlapping.set(0, 1, 2).unwrap();
    let mut gapped = TimeTable::new(&con);
    gapped.set(0, 0, 1).unwrap();
    gapped.set(2, 0, 2).unwrap();
    assert_eq!(gapped.evaluate(Some(&student)), 1);
    assert!(!gapped.has_overlap(&prof));
    let report = con.evaluate_generation(&[overlapping, gapped]).unwrap();
    assert_eq!(report.n_valid, 1);
    assert_eq!(report.best_score, 1);
    assert_eq!(report.score_sum, 1);
    assert_eq!(report.best.get(2, 0), 2);
}

#[test]
fn table_score_sums_students_and_professors() {
    let con = Constraints::new(
        4,
        2,
        5,
        vec![courses_of(&[1, 2, 3]), courses_of(&[4, 5])],
        vec![courses_of(&[1, 3]), courses_of(&[1, 2, 4])],
    )
    .unwrap();
    let mut tt = TimeTable::new(&con);
    tt.set(0, 0, 1).unwrap();
    tt.set(1, 0, 2).unwrap();
    tt.set(2, 0, 3).unwrap();
    tt.set(0, 1, 4).unwrap();
    tt.set(3, 1, 5).unwrap();
    // student {1, 3}: busy, idle, busy -> 1; student {1, 2, 4}: two in slot 0 -> 3
    assert_eq!(con.evaluate(&tt), 4);
    assert_eq!(tt.set(2, 1, 5), Err((3, 1)));
    assert_eq!(con.evaluate(&tt), 4);
    tt.set(0, 1, 0).unwrap();
    tt.set(1, 1, 4).unwrap();
    tt.unset(3, 1);
    tt.set(1, 0, 5).unwrap();
    // course 2 is dropped; 4 and 5 share slot 1: one professor overlap,
    // and student {1, 3} keeps its gap
    // two students on 4 timeslots of 2 rooms: 2 * 4 * (3 * 2 + 1) + 1
    assert_eq!(con.overlap_weight(), 57);
    assert_eq!(con.evaluate(&tt), 57 + 1);
}

#[test]
fn mutate_with_zero_chance_keeps_the_table() {
    let professors = (1..=6).map(|c| courses_of(&[c])).collect();
    let con = Constraints::new(3, 3, 6, professors, vec![]).unwrap();
    let tt = con.make_random_tt();
    let copy = tt.mutate(Chance { numerator: 0, denominator: 1 });
    for t in 0..3 {
        for r in 0..3 {
            assert_eq!(copy.get(t, r), tt.get(t, r));
        }
    }
}

#[test]
fn a_valid_table_outranks_an_invalid_one_whatever_the_students_pay() {
    let students = vec![courses_of(&[3, 4]); 10];
    let con = Constraints::new(2, 3, 4, vec![courses_of(&[1, 2]), courses_of(&[3]), courses_of(&[4])], students)
        .unwrap();
    assert_eq!(con.overlap_weight(), 10 * 2 * (3 * 3 + 1) + 1);
    let mut valid = TimeTable::new(&con);
    valid.set(0, 0, 1).unwrap();
    valid.set(1, 0, 2).unwrap();
    valid.set(0, 1, 3).unwrap();
    valid.set(0, 2, 4).unwrap();
    let mut invalid = TimeTable::new(&con);
    invalid.set(0, 0, 1).unwrap();
    invalid.set(0, 1, 2).unwrap();
    invalid.set(0, 2, 3).unwrap();
    invalid.set(1, 0, 4).unwrap();
    assert!(con.is_valid(&valid));
    assert!(!con.is_valid(&invalid));
    assert_eq!(con.evaluate(&valid), 30);
    assert_eq!(con.evaluate(&invalid), 201);
    let ranked = con.select(vec![invalid, valid], 1);
    assert_eq!(ranked[0].find(4), Some((0, 2)));
}
