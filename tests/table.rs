use std::collections::HashSet;
use timetabler::constraints::Constraints;
use timetabler::timetable::{PlaceError, TimeTable};

fn set_of(items: &[usize]) -> HashSet<usize> {
    items.iter().copied().collect()
}

/// One professor per course.
fn problem(n_timeslots: usize, n_rooms: usize, n_courses: usize) -> Constraints {
    let professors = (1..=n_courses).map(|c| set_of(&[c])).collect();
    Constraints::new(n_timeslots, n_rooms, n_courses, professors, vec![]).unwrap()
}

fn cells(tt: &TimeTable) -> Vec<Vec<usize>> {
    (0..tt.n_timeslots)
        .map(|t| (0..tt.n_rooms).map(|r| tt.get(t, r)).collect())
        .collect()
}

fn assert_consistent(tt: &TimeTable) {
    let mut seen = HashSet::new();
    for t in 0..tt.n_timeslots {
        for r in 0..tt.n_rooms {
            let c = tt.get(t, r);
            if c != 0 {
                assert!(seen.insert(c), "course {} placed twice", c);
                assert_eq!(tt.find(c), Some((t, r)));
            }
        }
    }
    assert_eq!(tt.courses(), seen);
}

#[test]
fn new_table_is_empty() {
    let con = problem(3, 2, 4);
    let tt = TimeTable::new(&con);
    assert_eq!(tt.n_timeslots, 3);
    assert_eq!(tt.n_rooms, 2);
    assert_eq!(cells(&tt), vec![vec![0, 0]; 3]);
    assert!(tt.courses().is_empty());
    assert_eq!(tt.find(1), None);
}

#[test]
fn set_places_course_and_indexes_it() {
    let con = problem(3, 2, 4);
    let mut tt = TimeTable::new(&con);
    assert_eq!(tt.set(1, 1, 3), Ok(()));
    assert_eq!(tt.get(1, 1), 3);
    assert_eq!(tt.find(3), Some((1, 1)));
    assert_eq!(tt.courses(), set_of(&[3]));
    assert_consistent(&tt);
}

#[test]
fn set_refuses_a_placed_course_and_changes_nothing() {
    let con = problem(3, 2, 4);
    let mut tt = TimeTable::new(&con);
    tt.set(0, 0, 1).unwrap();
    assert_eq!(tt.set(2, 1, 1), Err((0, 0)));
    assert_eq!(tt.get(2, 1), 0);
    assert_eq!(tt.find(1), Some((0, 0)));
    assert_eq!(tt.set(0, 0, 1), Err((0, 0)));
    assert_consistent(&tt);
}

#[test]
fn set_zero_empties_the_cell() {
    let con = problem(3, 2, 4);
    let mut tt = TimeTable::new(&con);
    tt.set(2, 0, 4).unwrap();
    assert_eq!(tt.set(2, 0, 0), Ok(()));
    assert_eq!(tt.get(2, 0), 0);
    assert_eq!(tt.find(4), None);
    assert!(tt.courses().is_empty());
}

#[test]
fn set_on_an_occupied_cell_drops_the_old_course() {
    let con = problem(3, 2, 4);
    let mut tt = TimeTable::new(&con);
    tt.set(0, 1, 1).unwrap();
    tt.set(0, 1, 2).unwrap();
    assert_eq!(tt.get(0, 1), 2);
    assert_eq!(tt.find(1), None);
    assert_eq!(tt.courses(), set_of(&[2]));
    assert_consistent(&tt);
}

#[test]
fn unset_clears_cell_and_index() {
    let con = problem(3, 2, 4);
    let mut tt = TimeTable::new(&con);
    tt.set(1, 0, 2).unwrap();
    tt.unset(1, 0);
    assert_eq!(tt.get(1, 0), 0);
    assert_eq!(tt.find(2), None);
    tt.unset(1, 0);
    assert_eq!(tt.get(1, 0), 0);
    assert!(tt.courses().is_empty());
}

#[test]
fn random_place_uses_the_only_free_cell() {
    let con = problem(2, 2, 4);
    for _ in 0..20 {
        let mut tt = TimeTable::new(&con);
        tt.set(0, 0, 1).unwrap();
        tt.set(0, 1, 2).unwrap();
        tt.set(1, 1, 3).unwrap();
        assert_eq!(tt.random_place(4), Ok(()));
        assert_eq!(tt.get(1, 0), 4);
        assert_eq!(tt.find(4), Some((1, 0)));
        assert_consistent(&tt);
    }
}

#[test]
fn random_place_fills_every_cell_then_reports_no_capacity() {
    let con = problem(2, 3, 6);
    let mut tt = TimeTable::new(&con);
    for c in 1..=6 {
        assert_eq!(tt.random_place(c), Ok(()));
        assert_consistent(&tt);
    }
    assert_eq!(tt.courses(), set_of(&[1, 2, 3, 4, 5, 6]));
    assert_eq!(tt.random_place(7), Err(PlaceError::NoCapacity));
    assert_eq!(tt.random_place(3), Err(PlaceError::NoCapacity));
}

#[test]
fn random_place_refuses_a_placed_course() {
    let con = problem(2, 2, 4);
    let mut tt = TimeTable::new(&con);
    tt.set(1, 1, 2).unwrap();
    assert_eq!(tt.random_place(2), Err(PlaceError::CourseAlreadyPlaced(1, 1)));
    assert_eq!(tt.courses(), set_of(&[2]));
    assert_eq!(tt.random_place(1), Ok(()));
    assert_consistent(&tt);
}

#[test]
fn random_place_after_set_never_collides() {
    let con = problem(3, 3, 9);
    for _ in 0..20 {
        let mut tt = TimeTable::new(&con);
        tt.random_place(1).unwrap();
        tt.set(0, 0, 9).ok();
        for c in 2..=8 {
            if tt.find(c).is_none() {
                tt.random_place(c).unwrap();
            }
        }
        assert_consistent(&tt);
    }
}

#[test]
fn make_empty_copy_keeps_size_only() {
    let con = problem(3, 2, 4);
    let mut tt = TimeTable::new(&con);
    tt.set(0, 0, 1).unwrap();
    let copy = tt.make_empty_copy();
    assert_eq!(copy.n_timeslots, 3);
    assert_eq!(copy.n_rooms, 2);
    assert_eq!(cells(&copy), vec![vec![0, 0]; 3]);
    assert!(copy.courses().is_empty());
}

#[test]
fn clone_keeps_grid_and_index() {
    let con = problem(3, 2, 4);
    let mut tt = TimeTable::new(&con);
    tt.set(2, 1, 4).unwrap();
    tt.set(0, 0, 1).unwrap();
    let copy = tt.clone();
    assert_eq!(cells(&copy), cells(&tt));
    assert_eq!(copy.find(4), Some((2, 1)));
    assert_consistent(&copy);
}

#[test]
fn defrag_sorts_rooms_and_pushes_empty_cells_last() {
    let con = problem(2, 4, 6);
    let mut tt = TimeTable::new(&con);
    tt.set(0, 1, 5).unwrap();
    tt.set(0, 3, 2).unwrap();
    tt.set(1, 0, 6).unwrap();
    tt.set(1, 1, 1).unwrap();
    tt.set(1, 3, 3).unwrap();
    tt.defrag();
    assert_eq!(cells(&tt), vec![vec![2, 5, 0, 0], vec![1, 3, 6, 0]]);
    assert_consistent(&tt);
    assert_eq!(tt.courses(), set_of(&[1, 2, 3, 5, 6]));
}

#[test]
fn defrag_twice_equals_once_and_keeps_scores() {
    let students = vec![set_of(&[1, 4]), set_of(&[2, 3, 5])];
    let con = Constraints::new(3, 3, 6, vec![set_of(&[1, 2, 3]), set_of(&[4, 5, 6])], students.clone())
        .unwrap();
    for _ in 0..10 {
        let mut tt = con.make_random_tt();
        let before: Vec<usize> = students.iter().map(|s| tt.evaluate(Some(s))).collect();
        let score = con.evaluate(&tt);
        let courses = tt.courses();
        tt.defrag();
        let once = cells(&tt);
        tt.defrag();
        assert_eq!(cells(&tt), once);
        let after: Vec<usize> = students.iter().map(|s| tt.evaluate(Some(s))).collect();
        assert_eq!(before, after);
        assert_eq!(con.evaluate(&tt), score);
        assert_eq!(tt.courses(), courses);
        assert_consistent(&tt);
    }
}
