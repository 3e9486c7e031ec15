use aspop_solver::structs::solutions::{Candidate, CandidateSet, Solution, SolutionSet};
use aspop_solver::useful::{companion_id, for_reversed_string, relative_orientation, Orientation};

fn solution(id_a: usize, id_b: usize, oha: i32, ohb: i32, ola: usize, olb: usize) -> Solution {
    Solution {
        id_a,
        id_b,
        orientation: Orientation::Normal,
        overhang_left_a: oha,
        overhang_right_b: ohb,
        overlap_a: ola,
        overlap_b: olb,
        errors: 1,
    }
}

#[test]
fn candidate_pieces() {
    let overlap = Candidate { id_b: 4, overlap_a: 5, overlap_b: 6, overhang_left_a: 3 };
    assert_eq!(overlap.a1(), 3);
    assert_eq!(overlap.b1(), 0);
    assert_eq!(overlap.a2(), 5);
    assert_eq!(overlap.b2(), 6);
    assert_eq!(overlap.a3(8), 0);
    assert_eq!(overlap.a3(10), 2);
    assert_eq!(overlap.b3(9), 3);
    let inclusion = Candidate { id_b: 4, overlap_a: 5, overlap_b: 6, overhang_left_a: -2 };
    assert_eq!(inclusion.a1(), 0);
    assert_eq!(inclusion.b1(), 2);
    assert_eq!(inclusion.a3(5), 0);
    assert_eq!(inclusion.b3(12), 4);
    let flush = Candidate { id_b: 4, overlap_a: 5, overlap_b: 5, overhang_left_a: 0 };
    assert_eq!(flush.a1(), 0);
    assert_eq!(flush.b1(), 0);
}

#[test]
fn vertical_flip_exchanges_the_roles() {
    let mut s = solution(7, 2, 3, -4, 5, 6);
    s.v_flip();
    assert_eq!(s, solution(2, 7, -3, 4, 6, 5));
    s.v_flip();
    assert_eq!(s, solution(7, 2, 3, -4, 5, 6));
}

#[test]
fn mirroring_exchanges_the_overhangs() {
    let mut s = solution(2, 7, 3, -4, 5, 6);
    s.mirror_horizontally();
    assert_eq!(s, solution(2, 7, 4, -3, 5, 6));
    s.mirror_horizontally();
    assert_eq!(s, solution(2, 7, 3, -4, 5, 6));
}

#[test]
fn horizontal_flip_passes_to_the_companions() {
    let mut s = solution(3, 6, 3, -4, 5, 6);
    s.h_flip(true);
    assert_eq!(s, solution(2, 7, 4, -3, 5, 6));
    s.h_flip(true);
    assert_eq!(s, solution(3, 6, 3, -4, 5, 6));
}

#[test]
fn companions_are_neighbours() {
    assert_eq!(companion_id(0, true), 1);
    assert_eq!(companion_id(1, true), 0);
    assert_eq!(companion_id(6, true), 7);
    assert_eq!(companion_id(7, true), 6);
    assert_eq!(companion_id(companion_id(12, true), true), 12);
    assert!(!for_reversed_string(0));
    assert!(for_reversed_string(1));
    assert!(!for_reversed_string(10));
    assert!(for_reversed_string(usize::MAX));
}

#[test]
fn orientation_follows_the_parities() {
    assert_eq!(relative_orientation(0, 2, true), Orientation::Normal);
    assert_eq!(relative_orientation(0, 3, true), Orientation::Reversed);
    assert_eq!(relative_orientation(3, 0, true), Orientation::Reversed);
    assert_eq!(relative_orientation(1, 3, true), Orientation::Normal);
    assert_eq!(relative_orientation(0, 3, false), Orientation::Normal);
    assert_eq!(relative_orientation(usize::MAX, usize::MAX - 1, true), Orientation::Reversed);
    assert_eq!(Orientation::Normal.letter(), 'N');
    assert_eq!(Orientation::Reversed.letter(), 'I');
}

#[test]
fn solutions_are_ordered_field_by_field() {
    let mut list = vec![
        solution(2, 7, 3, -4, 5, 6),
        solution(2, 5, 9, 9, 9, 9),
        solution(1, 8, 0, 0, 1, 1),
        solution(2, 7, 3, -5, 5, 6),
    ];
    list.sort();
    assert_eq!(
        list,
        vec![
            solution(1, 8, 0, 0, 1, 1),
            solution(2, 5, 9, 9, 9, 9),
            solution(2, 7, 3, -5, 5, 6),
            solution(2, 7, 3, -4, 5, 6),
        ]
    );
    let reversed = Solution { orientation: Orientation::Reversed, ..solution(1, 8, 0, 0, 1, 1) };
    assert!(solution(1, 8, 0, 0, 1, 1) < reversed);
}

#[test]
fn a_candidate_set_holds_each_candidate_once() {
    let c = Candidate { id_b: 4, overlap_a: 5, overlap_b: 6, overhang_left_a: 3 };
    let d = Candidate { id_b: 4, overlap_a: 5, overlap_b: 6, overhang_left_a: -3 };
    let mut set = CandidateSet::new();
    assert_eq!(set.len(), 0);
    assert!(set.insert(c));
    assert!(!set.insert(c));
    assert!(set.insert(d));
    assert_eq!(set.len(), 2);
    assert!(set.contains(&c));
    assert!(set.contains(&d));
    assert!(!set.contains(&Candidate { id_b: 5, ..c }));
    assert_eq!(set.get(0), c);
    assert_eq!(set.get(1), d);
}

#[test]
fn a_solution_set_holds_each_solution_once() {
    let s = solution(2, 7, 3, -4, 5, 6);
    let mut set = SolutionSet::new();
    assert!(set.insert(s));
    assert!(!set.insert(s));
    assert!(set.insert(Solution { errors: 2, ..s }));
    assert_eq!(set.len(), 2);
    assert!(set.contains(&s));
    assert_eq!(set.get(0), s);
}
