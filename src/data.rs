//! Synthetic problem data: random course subscriptions for students and
//! professors.
use crate::constraints::{course_taught, sets_view};
use crate::random::{sample_indices, shuffled};
use std::collections::HashSet;
use vstd::prelude::*;

verus! {

/// The courses at positions `q * size .. (q + 1) * size` of `s`.
pub open spec fn chunk_set(s: Seq<usize>, size: nat, q: int) -> Set<usize> {
    Set::new(|c: usize| exists|j: int| 0 <= j < size && #[trigger] s[q * size + j] == c)
}

/// `n` students, each subscribed to `n_courses_per_student` distinct courses
/// drawn from `1..=n_courses`.
pub fn gen_students(n: usize, n_courses: usize, n_courses_per_student: usize) -> (r: Vec<
    HashSet<usize>,
>)
    requires
        n_courses_per_student <= n_courses,
        n_courses <= u32::MAX || n_courses_per_student < n_courses,
    ensures
        r@.len() == n,
        forall|s: int| 0 <= s < n ==> (#[trigger] r@[s])@.len() == n_courses_per_student,
        forall|s: int, c: usize|
            0 <= s < n && #[trigger] r@[s]@.contains(c) ==> 1 <= c <= n_courses,
{
    let mut students: Vec<HashSet<usize>> = Vec::new();
    for s in 0..n
        invariant
            n_courses_per_student <= n_courses,
            n_courses <= u32::MAX || n_courses_per_student < n_courses,
            students@.len() == s,
            forall|q: int| 0 <= q < s ==> (#[trigger] students@[q])@.len() == n_courses_per_student,
            forall|q: int, c: usize|
                0 <= q < s && #[trigger] students@[q]@.contains(c) ==> 1 <= c <= n_courses,
    {
        let picked = sample_indices(n_courses, n_courses_per_student);
        let mut courses: HashSet<usize> = HashSet::new();
        for k in 0..picked.len()
            invariant
                picked@.len() == n_courses_per_student,
                picked@.no_duplicates(),
                forall|i: int| 0 <= i < picked@.len() ==> #[trigger] picked@[i] < n_courses,
                courses@.finite(),
                courses@.len() == k,
                forall|c: usize|
                    #[trigger] courses@.contains(c) <==> exists|i: int|
                        0 <= i < k && #[trigger] picked@[i] + 1 == c,
        {
            let c = picked[k] + 1;
            proof {
                if courses@.contains(c) {
                    let i = choose|i: int| 0 <= i < k && #[trigger] picked@[i] + 1 == c;
                    assert(picked@[i] == picked@[k as int]);
                }
            }
            courses.insert(c);
            proof {
                assert forall|d: usize|
                    #[trigger] courses@.contains(d) <==> exists|i: int|
                        0 <= i < k + 1 && #[trigger] picked@[i] + 1 == d by {
                    if d == c {
                        assert(picked@[k as int] + 1 == d);
                    }
                }
            }
        }
        proof {
            assert forall|c: usize| courses@.contains(c) implies 1 <= c <= n_courses by {
                let i = choose|i: int| 0 <= i < picked@.len() && #[trigger] picked@[i] + 1 == c;
            }
        }
        students.push(courses);
    }
    students
}

/// The courses `1..=n_courses` shuffled and cut into professors of
/// `n_courses_per_prof` courses each: every course has exactly one
/// professor.
pub fn gen_professors(n_courses: usize, n_courses_per_prof: usize) -> (r: Vec<HashSet<usize>>)
    requires
        n_courses_per_prof > 0,
        n_courses % n_courses_per_prof == 0,
    ensures
        r@.len() == n_courses / n_courses_per_prof,
        forall|p: int| 0 <= p < r@.len() ==> (#[trigger] r@[p])@.len() == n_courses_per_prof,
        forall|p: int, c: usize|
            0 <= p < r@.len() && #[trigger] r@[p]@.contains(c) ==> 1 <= c <= n_courses,
        forall|p: int, q: int, c: usize|
            0 <= p < r@.len() && 0 <= q < r@.len() && p != q && #[trigger] r@[p]@.contains(c)
                ==> !#[trigger] r@[q]@.contains(c),
        forall|c: usize| 1 <= c <= n_courses ==> #[trigger] course_taught(sets_view(r@), c),
{
    let mut ordered: Vec<usize> = Vec::new();
    for i in 0..n_courses
        invariant
            ordered@.len() == i,
            forall|k: int| 0 <= k < i ==> #[trigger] ordered@[k] == k + 1,
    {
        ordered.push(i + 1);
    }
    let ghost base = ordered@;
    let courses = shuffled(ordered);
    let ghost s = courses@;
    let size = n_courses_per_prof;
    let n_profs = n_courses / size;
    proof {
        broadcast use vstd::seq_lib::group_to_multiset_ensures;

        s.to_multiset_ensures();
        base.to_multiset_ensures();
        assert(s.len() == s.to_multiset().len());
        assert(s.len() == base.len());
        assert(base.no_duplicates());
        base.lemma_multiset_has_no_duplicates();
        s.lemma_multiset_has_no_duplicates_conv();
        assert forall|i: int| 0 <= i < n_courses implies 1 <= #[trigger] s[i] <= n_courses by {
            vstd::seq_lib::to_multiset_contains(s, s[i]);
            vstd::seq_lib::to_multiset_contains(base, s[i]);
            assert(s.contains(s[i]));
            let k = choose|k: int| 0 <= k < base.len() && base[k] == s[i];
            assert(base[k] == k + 1);
        }
        vstd::arithmetic::div_mod::lemma_fundamental_div_mod(n_courses as int, size as int);
    }
    let mut professors: Vec<HashSet<usize>> = Vec::new();
    for p in 0..n_profs
        invariant
            size == n_courses_per_prof,
            size > 0,
            n_profs == n_courses / size,
            n_courses == size * n_profs,
            s == courses@,
            s.len() == n_courses,
            s.no_duplicates(),
            forall|i: int| 0 <= i < n_courses ==> 1 <= #[trigger] s[i] <= n_courses,
            professors@.len() == p,
            forall|q: int| 0 <= q < p ==> (#[trigger] professors@[q])@ == chunk_set(s, size as nat, q),
            forall|q: int| 0 <= q < p ==> (#[trigger] professors@[q])@.len() == size,
    {
        let mut prof: HashSet<usize> = HashSet::new();
        for j in 0..size
            invariant
                size == n_courses_per_prof,
                size > 0,
                p < n_profs,
                n_courses == size * n_profs,
                s == courses@,
                s.len() == n_courses,
                s.no_duplicates(),
                prof@.finite(),
                prof@.len() == j,
                forall|c: usize|
                    #[trigger] prof@.contains(c) <==> exists|k: int|
                        0 <= k < j && #[trigger] s[p * size + k] == c,
        {
            proof {
                assert(p * size + j < n_courses) by (nonlinear_arith)
                    requires
                        p < n_profs,
                        j < size,
                        n_courses == size * n_profs,
                ;
            }
            let c = courses[p * size + j];
            proof {
                if prof@.contains(c) {
                    let k = choose|k: int| 0 <= k < j && #[trigger] s[p * size + k] == c;
                    assert(s[p * size + k] == s[p * size + j]);
                }
            }
            prof.insert(c);
            proof {
                assert forall|d: usize|
                    #[trigger] prof@.contains(d) <==> exists|k: int|
                        0 <= k < j + 1 && #[trigger] s[p * size + k] == d by {
                    if d == c {
                        assert(s[p * size + j] == d);
                    }
                }
            }
        }
        proof {
            assert(prof@ =~= chunk_set(s, size as nat, p as int));
        }
        professors.push(prof);
    }
    proof {
        let r = professors@;
        assert forall|q: int, c: usize|
            0 <= q < r.len() && #[trigger] r[q]@.contains(c) implies 1 <= c <= n_courses by {
            let j = choose|j: int| 0 <= j < size && #[trigger] s[q * size + j] == c;
            assert(q * size + j < n_courses) by (nonlinear_arith)
                requires
                    q < n_profs,
                    0 <= j < size,
                    n_courses == size * n_profs,
            ;
        }
        assert forall|q1: int, q2: int, c: usize|
            0 <= q1 < r.len() && 0 <= q2 < r.len() && q1 != q2 && #[trigger] r[q1]@.contains(c)
                implies !#[trigger] r[q2]@.contains(c) by {
            if r[q2]@.contains(c) {
                let j1 = choose|j: int| 0 <= j < size && #[trigger] s[q1 * size + j] == c;
                let j2 = choose|j: int| 0 <= j < size && #[trigger] s[q2 * size + j] == c;
                assert(q1 * size + j1 < n_courses && q2 * size + j2 < n_courses) by (nonlinear_arith)
                    requires
                        q1 < n_profs,
                        q2 < n_profs,
                        0 <= j1 < size,
                        0 <= j2 < size,
                        n_courses == size * n_profs,
                ;
                assert(q1 * size + j1 != q2 * size + j2) by (nonlinear_arith)
                    requires
                        q1 != q2,
                        0 <= j1 < size,
                        0 <= j2 < size,
                        0 <= q1,
                        0 <= q2,
                ;
            }
        }
        assert forall|c: usize| 1 <= c <= n_courses implies #[trigger] course_taught(sets_view(r), c) by {
            vstd::seq_lib::to_multiset_contains(base, c);
            assert(base[c - 1] == c);
            vstd::seq_lib::to_multiset_contains(s, c);
            let i = choose|i: int| 0 <= i < s.len() && s[i] == c;
            let q = i / size as int;
            let j = i % size as int;
            vstd::arithmetic::div_mod::lemma_fundamental_div_mod(i, size as int);
            assert(0 <= j < size);
            assert(0 <= q < n_profs) by (nonlinear_arith)
                requires
                    i == size * q + j,
                    0 <= i < n_courses,
                    0 <= j < size,
                    n_courses == size * n_profs,
                    size > 0,
            ;
            assert(s[q * size + j] == c) by {
                assert(q * size + j == i) by (nonlinear_arith)
                    requires
                        i == size * q + j,
                ;
            }
            assert(r[q]@.contains(c));
            assert(sets_view(r)[q].contains(c));
        }
    }
    professors
}

} // verus!
