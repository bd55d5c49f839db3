use std::collections::HashSet;
use timetabler::constraints::{Constraints, ConstraintsError};

fn course_set(items: &[usize]) -> HashSet<usize> {
    items.iter().copied().collect()
}

#[test]
fn constraints_refuse_too_few_cells() {
    let r = Constraints::new(2, 2, 5, vec![course_set(&[1, 2, 3, 4, 5])], vec![]);
    assert_eq!(r.unwrap_err(), ConstraintsError::NotEnoughCells);
}

#[test]
fn constraints_refuse_too_few_professors() {
    let r = Constraints::new(2, 3, 5, vec![course_set(&[1, 2, 3, 4, 5])], vec![]);
    assert_eq!(r.unwrap_err(), ConstraintsError::NotEnoughProfessors);
}

#[test]
fn constraints_refuse_a_course_without_professor() {
    let r = Constraints::new(3, 3, 4, vec![course_set(&[1, 3]), course_set(&[4])], vec![]);
    assert_eq!(r.unwrap_err(), ConstraintsError::CourseWithoutProfessor(2));
}

#[test]
fn constraints_refuse_sizes_whose_scores_overflow() {
    let big = 1usize << 40;
    let r = Constraints::new(big, big, 1, vec![course_set(&[1])], vec![]);
    assert_eq!(r.unwrap_err(), ConstraintsError::TooLarge);
}

#[test]
fn constraints_accept_the_exact_capacity() {
    let con = Constraints::new(2, 2, 4, vec![course_set(&[1, 2]), course_set(&[3, 4])], vec![course_set(&[2, 3])])
        .unwrap();
    assert_eq!(con.n_timeslots, 2);
    assert_eq!(con.n_rooms, 2);
    assert_eq!(*con.courses(), 1..5);
    assert_eq!(con.professors().len(), 2);
    assert!(con.professors()[1].contains(&4));
    assert_eq!(con.students(), &vec![course_set(&[2, 3])]);
}

#[test]
fn constraints_accept_no_courses() {
    let con = Constraints::new(1, 1, 0, vec![], vec![]).unwrap();
    assert_eq!(*con.courses(), 1..1);
    assert!(con.make_random_tt().courses().is_empty());
}

#[test]
fn random_table_places_every_course_once() {
    let con = Constraints::new(3, 2, 6, vec![course_set(&[1, 2, 3]), course_set(&[4, 5, 6])], vec![])
        .unwrap();
    for _ in 0..20 {
        let tt = con.make_random_tt();
        assert_eq!(tt.courses(), course_set(&[1, 2, 3, 4, 5, 6]));
        let mut seen = HashSet::new();
        for t in 0..3 {
            for r in 0..2 {
                let c = tt.get(t, r);
                assert!(c != 0);
                assert!(seen.insert(c));
                assert_eq!(tt.find(c), Some((t, r)));
            }
        }
    }
}
