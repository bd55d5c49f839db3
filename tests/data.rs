use std::collections::HashSet;
use timetabler::constraints::Constraints;
use timetabler::data::{gen_professors, gen_students};

#[test]
fn professors_cover_every_course_once() {
    let professors = gen_professors(12, 3);
    assert_eq!(professors.len(), 4);
    let mut all = HashSet::new();
    for p in &professors {
        assert_eq!(p.len(), 3);
        for c in p {
            assert!((1..=12).contains(c));
            assert!(all.insert(*c));
        }
    }
    assert_eq!(all.len(), 12);
    assert!(Constraints::new(4, 3, 12, professors, vec![]).is_ok());
}

#[test]
fn professors_are_shuffled() {
    let first: HashSet<usize> = [1, 2, 3].into_iter().collect();
    let differs = (0..30).any(|_| gen_professors(12, 3)[0] != first);
    assert!(differs);
}

#[test]
fn professors_of_no_courses() {
    assert!(gen_professors(0, 2).is_empty());
}

#[test]
fn students_take_distinct_courses_in_range() {
    let students = gen_students(5, 10, 4);
    assert_eq!(students.len(), 5);
    for s in &students {
        assert_eq!(s.len(), 4);
        assert!(s.iter().all(|c| (1..=10).contains(c)));
    }
    let all = gen_students(2, 6, 6);
    for s in &all {
        assert_eq!(*s, (1..=6).collect::<HashSet<usize>>());
    }
    assert!(gen_students(0, 3, 1).is_empty());
}
