use std::collections::HashSet;
use timetabler::constraints::Constraints;
use timetabler::genetic::{BestSoFar, Chance};
use timetabler::timetable::TimeTable;

fn ids(items: &[usize]) -> HashSet<usize> {
    items.iter().copied().collect()
}

fn six_courses() -> Constraints {
    Constraints::new(
        3,
        3,
        6,
        vec![ids(&[1, 2, 3]), ids(&[4, 5, 6])],
        vec![ids(&[1, 4]), ids(&[2, 5, 6]), ids(&[3])],
    )
    .unwrap()
}

fn grid(tt: &TimeTable) -> Vec<Vec<usize>> {
    (0..tt.n_timeslots)
        .map(|t| (0..tt.n_rooms).map(|r| tt.get(t, r)).collect())
        .collect()
}

fn placed_once(tt: &TimeTable) -> HashSet<usize> {
    let mut seen = HashSet::new();
    for t in 0..tt.n_timeslots {
        for r in 0..tt.n_rooms {
            let c = tt.get(t, r);
            if c != 0 {
                assert!(seen.insert(c));
                assert_eq!(tt.find(c), Some((t, r)));
            }
        }
    }
    assert_eq!(tt.courses(), seen);
    seen
}

/// Four timeslots, one room; course 1 always first, course 2 at `slot`.
fn line(con: &Constraints, slot: usize) -> TimeTable {
    let mut tt = TimeTable::new(con);
    tt.set(0, 0, 1).unwrap();
    tt.set(slot, 0, 2).unwrap();
    tt
}

#[test]
fn cross_of_equal_course_sets_keeps_the_set() {
    let con = six_courses();
    for _ in 0..50 {
        let a = con.make_random_tt();
        let b = con.make_random_tt();
        let child = a.cross(&b);
        assert_eq!(child.n_timeslots, 3);
        assert_eq!(child.n_rooms, 3);
        assert_eq!(placed_once(&child), ids(&[1, 2, 3, 4, 5, 6]));
    }
}

#[test]
fn cross_with_fewer_courses_restores_the_first_parents_set() {
    let con = six_courses();
    for _ in 0..20 {
        let a = con.make_random_tt();
        let mut b = a.make_empty_copy();
        b.set(2, 2, 5).unwrap();
        let child = a.cross(&b);
        assert_eq!(placed_once(&child), ids(&[1, 2, 3, 4, 5, 6]));
    }
}

#[test]
fn cross_of_a_table_with_itself_is_that_table() {
    let con = six_courses();
    let a = con.make_random_tt();
    let child = a.cross(&a);
    assert_eq!(grid(&child), grid(&a));
}

#[test]
fn mutate_keeps_courses_and_leaves_the_input_alone() {
    let con = six_courses();
    for _ in 0..20 {
        let a = con.make_random_tt();
        let before = grid(&a);
        let m = a.mutate(Chance { numerator: 1, denominator: 1 });
        assert_eq!(grid(&a), before);
        assert_eq!(placed_once(&m), ids(&[1, 2, 3, 4, 5, 6]));
        let half = a.mutate(Chance { numerator: 1, denominator: 2 });
        assert_eq!(placed_once(&half), ids(&[1, 2, 3, 4, 5, 6]));
    }
}

#[test]
fn mutate_moves_courses_into_free_cells() {
    let professors = (1..=3).map(|c| ids(&[c])).collect();
    let con = Constraints::new(2, 2, 3, professors, vec![]).unwrap();
    let mut tt = TimeTable::new(&con);
    tt.set(0, 0, 1).unwrap();
    tt.set(0, 1, 2).unwrap();
    tt.set(1, 0, 3).unwrap();
    let mut moved = false;
    for _ in 0..50 {
        let m = tt.mutate(Chance { numerator: 1, denominator: 1 });
        assert_eq!(placed_once(&m), ids(&[1, 2, 3]));
        if grid(&m) != grid(&tt) {
            moved = true;
        }
    }
    assert!(moved);
}

#[test]
fn select_orders_by_score_and_keeps_ties_in_order() {
    let con = Constraints::new(4, 1, 2, vec![ids(&[1]), ids(&[2])], vec![ids(&[1, 2])]).unwrap();
    // course 2 at slot 1 scores 0, at slot 2 scores 1 (one gap), at slot 3 scores 0
    let population = vec![line(&con, 2), line(&con, 3), line(&con, 1), line(&con, 2)];
    let chosen = con.select(population, 3);
    assert_eq!(chosen.len(), 3);
    assert_eq!(chosen[0].find(2), Some((3, 0)));
    assert_eq!(chosen[1].find(2), Some((1, 0)));
    assert_eq!(chosen[2].find(2), Some((2, 0)));
    let all = con.select(vec![line(&con, 2), line(&con, 1)], 5);
    assert_eq!(all.len(), 2);
    assert_eq!(all[0].find(2), Some((1, 0)));
}

#[test]
fn generation_has_pairs_times_children() {
    let con = six_courses();
    let population: Vec<TimeTable> = (0..6).map(|_| con.make_random_tt()).collect();
    let next = con.generation(population, 2, 3, Chance { numerator: 1, denominator: 10 });
    assert_eq!(next.len(), 6);
    for tt in &next {
        assert_eq!(placed_once(tt), ids(&[1, 2, 3, 4, 5, 6]));
    }
    let population: Vec<TimeTable> = (0..4).map(|_| con.make_random_tt()).collect();
    let next = con.generation(population, 2, 5, Chance { numerator: 0, denominator: 1 });
    assert_eq!(next.len(), 10);
}

#[test]
fn generation_of_a_small_population_uses_whole_pairs() {
    let con = six_courses();
    let population: Vec<TimeTable> = (0..3).map(|_| con.make_random_tt()).collect();
    let next = con.generation(population, 2, 4, Chance { numerator: 1, denominator: 3 });
    assert_eq!(next.len(), 4);
    assert!(con.generation(vec![], 2, 4, Chance { numerator: 1, denominator: 3 }).is_empty());
}

#[test]
fn evaluate_generation_reports_count_sum_and_first_best() {
    let con = Constraints::new(4, 1, 2, vec![ids(&[1]), ids(&[2])], vec![ids(&[1, 2])]).unwrap();
    let population = vec![line(&con, 2), line(&con, 3), line(&con, 1), line(&con, 2)];
    let report = con.evaluate_generation(&population).unwrap();
    assert_eq!(report.n_valid, 4);
    assert_eq!(report.score_sum, 2);
    assert_eq!(report.best_score, 0);
    assert_eq!(report.best.find(2), Some((3, 0)));
}

#[test]
fn evaluate_generation_of_nothing_is_none() {
    let con = six_courses();
    assert!(con.evaluate_generation(&[]).is_none());
}

#[test]
fn best_so_far_keeps_the_lowest_score() {
    let con = Constraints::new(4, 1, 2, vec![ids(&[1]), ids(&[2])], vec![ids(&[1, 2])]).unwrap();
    let mut best = BestSoFar::new();
    assert_eq!(best.score, usize::MAX);
    let gapped = con.evaluate_generation(&[line(&con, 2)]).unwrap();
    assert!(!best.record(&gapped));
    assert_eq!(best.score, 1);
    let worse = con.evaluate_generation(&[line(&con, 2)]).unwrap();
    assert!(!best.record(&worse));
    assert_eq!(best.score, 1);
    let perfect = con.evaluate_generation(&[line(&con, 1)]).unwrap();
    assert!(best.record(&perfect));
    assert_eq!(best.score, 0);
    assert_eq!(best.table.unwrap().find(2), Some((1, 0)));
}

fn two_by_two(con: &Constraints, cells: [[usize; 2]; 2]) -> TimeTable {
    let mut tt = TimeTable::new(con);
    for t in 0..2 {
        for r in 0..2 {
            tt.set(t, r, cells[t][r]).unwrap();
        }
    }
    tt
}

#[test]
fn mix_takes_the_chosen_cells_and_skips_repeats() {
    let professors = (1..=3).map(|c| ids(&[c])).collect();
    let con = Constraints::new(2, 2, 3, professors, vec![]).unwrap();
    let a = two_by_two(&con, [[1, 2], [3, 0]]);
    let b = two_by_two(&con, [[2, 1], [0, 3]]);
    let child = a.mix(&b, &vec![vec![true, false], vec![false, true]]);
    assert_eq!(grid(&child), vec![vec![2, 0], vec![3, 0]]);
    assert_eq!(placed_once(&child), ids(&[2, 3]));
    let same = a.mix(&b, &vec![vec![false, false], vec![false, false]]);
    assert_eq!(grid(&same), grid(&a));
    let other = a.mix(&b, &vec![vec![true, true], vec![true, true]]);
    assert_eq!(grid(&other), grid(&b));
}

#[test]
fn cross_keeps_every_mixed_course_in_place() {
    let professors = (1..=3).map(|c| ids(&[c])).collect();
    let con = Constraints::new(2, 2, 3, professors, vec![]).unwrap();
    let a = two_by_two(&con, [[1, 2], [3, 0]]);
    let b = two_by_two(&con, [[1, 2], [3, 0]]);
    for _ in 0..10 {
        let child = a.cross(&b);
        assert_eq!(grid(&child), grid(&a));
    }
}

#[test]
fn mutate_with_moves_to_the_picked_free_cell() {
    let professors = (1..=3).map(|c| ids(&[c])).collect();
    let con = Constraints::new(2, 2, 3, professors, vec![]).unwrap();
    let a = two_by_two(&con, [[1, 2], [3, 0]]);
    let only_first = vec![vec![true, false], vec![false, false]];
    // with course 1 lifted the free cells are (0, 0) and (1, 1), in row order
    let to_last = a.mutate_with(&only_first, &vec![vec![1, 0], vec![0, 0]]);
    assert_eq!(grid(&to_last), vec![vec![0, 2], vec![3, 1]]);
    let back = a.mutate_with(&only_first, &vec![vec![0, 0], vec![0, 0]]);
    assert_eq!(grid(&back), grid(&a));
    let wrapped = a.mutate_with(&only_first, &vec![vec![5, 0], vec![0, 0]]);
    assert_eq!(grid(&wrapped), vec![vec![0, 2], vec![3, 1]]);
    // course 2 moves to (1, 1), then course 3 finds (0, 1) and (1, 0) free
    let two = a.mutate_with(&vec![vec![false, true], vec![true, false]], &vec![vec![0, 1], vec![0, 0]]);
    assert_eq!(grid(&two), vec![vec![1, 3], vec![0, 2]]);
    assert_eq!(placed_once(&two), ids(&[1, 2, 3]));
}
