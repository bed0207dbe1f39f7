use cophmatch::candidates::reduce_row;
use cophmatch::errors::Error;
use cophmatch::solver::{build_instance, solve, solve_matrix};
use cophmatch::visited::VisitedSet;

fn path_of(rep: &cophmatch::solver::SearchReport) -> Vec<u16> {
    match &rep.outcome {
        Ok(a) => a.path.clone(),
        Err(e) => panic!("expected a solution, got {:?}", e),
    }
}

fn total_of(rep: &cophmatch::solver::SearchReport) -> u64 {
    match &rep.outcome {
        Ok(a) => a.total,
        Err(e) => panic!("expected a solution, got {:?}", e),
    }
}

#[test]
fn two_by_two_optimum() {
    // R1->S1=1, R1->S2=4, R2->S1=3, R2->S2=2: optimum is 1 + 2 = 3
    let dist = vec![vec![1u64, 4u64], vec![3u64, 2u64]];
    let rep = solve_matrix(dist, 10);
    assert_eq!(path_of(&rep), vec![0u16, 1u16]);
    assert_eq!(total_of(&rep), 3);
    assert_eq!(rep.milestones, vec![1]);
}

#[test]
fn assignment_is_injective_and_covers_all_rows() {
    let dist = vec![
        vec![7u64, 7, 7, 7],
        vec![7u64, 7, 7, 7],
        vec![7u64, 7, 7, 7],
    ];
    let rep = solve_matrix(dist, 10);
    let path = path_of(&rep);
    assert_eq!(path.len(), 3);
    for a in 0..path.len() {
        for b in (a + 1)..path.len() {
            assert_ne!(path[a], path[b]);
        }
    }
    assert_eq!(total_of(&rep), 21);
}

fn brute_force_min(dist: &[Vec<u64>]) -> u64 {
    // try every injective assignment of rows to columns
    let n = dist.len();
    let m = dist[0].len();
    let mut cols: Vec<usize> = (0..m).collect();
    let mut best = u64::MAX;
    permute(&mut cols, 0, n, dist, &mut best);
    best
}

fn permute(cols: &mut Vec<usize>, k: usize, n: usize, dist: &[Vec<u64>], best: &mut u64) {
    if k == n {
        let total: u64 = (0..n).map(|i| dist[i][cols[i]]).sum();
        if total < *best {
            *best = total;
        }
        return;
    }
    for i in k..cols.len() {
        cols.swap(k, i);
        permute(cols, k + 1, n, dist, best);
        cols.swap(k, i);
    }
}

#[test]
fn matches_brute_force_on_small_inputs() {
    let cases: Vec<Vec<Vec<u64>>> = vec![
        vec![vec![5, 9, 1], vec![10, 3, 2], vec![8, 7, 4]],
        vec![
            vec![12, 7, 7, 2],
            vec![3, 14, 1, 9],
            vec![6, 6, 6, 6],
            vec![11, 0, 5, 4],
        ],
        vec![vec![2, 2], vec![2, 2]],
        vec![vec![1, 100, 100, 100], vec![1, 2, 100, 100], vec![1, 2, 3, 100]],
    ];
    for dist in cases {
        let expect = brute_force_min(&dist);
        let rep = solve_matrix(dist.clone(), 10);
        assert_eq!(total_of(&rep), expect);
        // the reported total is the exact sum of the chosen entries
        let path = path_of(&rep);
        let sum: u64 = (0..dist.len()).map(|i| dist[i][path[i] as usize]).sum();
        assert_eq!(sum, total_of(&rep));
    }
}

#[test]
fn identical_runs_give_identical_output() {
    let dist = vec![
        vec![4u64, 4, 9, 1],
        vec![4u64, 4, 2, 8],
        vec![5u64, 5, 5, 5],
    ];
    let rep1 = solve_matrix(dist.clone(), 2);
    let rep2 = solve_matrix(dist.clone(), 2);
    assert_eq!(path_of(&rep1), path_of(&rep2));
    assert_eq!(total_of(&rep1), total_of(&rep2));
    assert_eq!(rep1.milestones, rep2.milestones);
}

#[test]
fn narrow_candidate_lists_can_exhaust() {
    // with width 1 both rows only ever try column 0
    let dist = vec![vec![1u64, 2u64], vec![1u64, 2u64]];
    let rep = solve_matrix(dist, 1);
    assert_eq!(rep.outcome.unwrap_err(), Error::NoSolution);
}

#[test]
fn width_zero_finds_nothing() {
    let dist = vec![vec![1u64]];
    let rep = solve_matrix(dist, 0);
    assert_eq!(rep.outcome.unwrap_err(), Error::NoSolution);
}

#[test]
fn too_many_columns_is_a_capacity_error() {
    let dist = vec![vec![0u64; 65536]];
    let rep = solve_matrix(dist, 10);
    assert_eq!(
        rep.outcome.unwrap_err(),
        Error::CapacityError { count: 65536, limit: 65535 }
    );
}

#[test]
fn huge_distances_overflow_the_accumulator() {
    let dist = vec![vec![u64::MAX], vec![u64::MAX]];
    let rep = solve_matrix(dist, 10);
    assert_eq!(rep.outcome.unwrap_err(), Error::DistanceOverflow);
}

#[test]
fn ragged_or_empty_matrices_are_rejected() {
    let rep = solve_matrix(Vec::new(), 10);
    assert_eq!(rep.outcome.unwrap_err(), Error::ParseError);
    let rep = solve_matrix(vec![vec![1u64, 2], vec![3u64]], 10);
    assert_eq!(rep.outcome.unwrap_err(), Error::ParseError);
    let rep = solve_matrix(vec![Vec::new()], 10);
    assert_eq!(rep.outcome.unwrap_err(), Error::ParseError);
}

#[test]
fn candidate_lists_are_sorted_and_truncated() {
    let (cands, rmin) = reduce_row(&vec![5u64, 1, 3, 1], 2);
    // ties break by column index: (1, col 1) before (1, col 3)
    assert_eq!(cands, vec![1u16, 3u16]);
    assert_eq!(rmin, 1);
    let (cands, rmin) = reduce_row(&vec![9u64, 8, 7], 10);
    assert_eq!(cands, vec![2u16, 1u16, 0u16]);
    assert_eq!(rmin, 7);
}

#[test]
fn build_instance_reduces_every_row() {
    let inst = build_instance(vec![vec![1u64, 4], vec![3u64, 2]], 10).unwrap();
    assert_eq!(inst.cand[0], vec![0u16, 1u16]);
    assert_eq!(inst.cand[1], vec![1u16, 0u16]);
    assert_eq!(inst.rowmin, vec![1u64, 2u64]);
    assert_eq!(inst.m, 2);
    let rep = solve(&inst);
    assert!(rep.outcome.is_ok());
}

#[test]
fn visited_set_tracks_membership() {
    let mut v = VisitedSet::new();
    assert!(!v.contains(5));
    assert!(v.insert(5));
    assert!(!v.insert(5));
    assert!(v.contains(5));
    assert!(!v.contains(6));
    assert!(v.insert(6));
    assert!(v.contains(6));
}

#[test]
fn milestones_strictly_increase() {
    let dist = vec![
        vec![1u64, 50, 50, 50],
        vec![50u64, 1, 50, 50],
        vec![50u64, 50, 1, 50],
        vec![50u64, 50, 50, 1],
    ];
    let rep = solve_matrix(dist, 10);
    assert_eq!(total_of(&rep), 4);
    let ms = &rep.milestones;
    for i in 1..ms.len() {
        assert!(ms[i - 1] < ms[i]);
    }
    for &d in ms {
        assert!(d >= 1 && d < 4);
    }
}
