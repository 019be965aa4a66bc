use std::cmp::Ordering;

use roommate_stable::{solve, solve_sort, sorted_row, UNMATCHED};

fn random_score_table(n: usize) -> Vec<f32> {
    let mut score_table: Vec<f32> = Vec::with_capacity(n * n);
    for _ in 0..(n * n) {
        score_table.push(0f32);
    }
    for i in 0..n {
        for j in 0..i {
            let v = rand::random::<f32>();
            score_table[i * n + j] = v;
            score_table[j * n + i] = v;
        }
    }
    score_table
}

fn symmetric_table(n: usize, pairs: &[(usize, usize, f32)]) -> Vec<f32> {
    let mut t = vec![0f32; n * n];
    for &(i, j, v) in pairs {
        t[i * n + j] = v;
        t[j * n + i] = v;
    }
    t
}

fn solve_table(n: usize, s: &Vec<f32>, min: f32) -> Vec<usize> {
    solve_sort(
        n,
        &|v1: usize, v2: usize| s[v1 * n + v2] > min,
        &|r: usize, v1: usize, v2: usize| s[r * n + v1].partial_cmp(&s[r * n + v2]).unwrap(),
    )
}

fn check_matching(n: usize, result: &Vec<usize>) {
    assert_eq!(result.len(), n);
    for i in 0..n {
        let v = result[i];
        if v != UNMATCHED {
            assert!(v < n, "partner out of bounds");
            assert_ne!(v, i, "matched with itself");
            assert_eq!(result[v], i, "matching not symmetric");
        }
    }
}

fn blocking_pair(n: usize, score_table: &Vec<f32>, result: &Vec<usize>, min: f32) -> Option<(usize, usize)> {
    let prefers_other = |obj: usize, d_other: usize| -> bool {
        if result[obj] == UNMATCHED {
            score_table[obj * n + d_other] > min
        } else {
            score_table[obj * n + d_other] > score_table[obj * n + result[obj]]
        }
    };
    for i in 1..n {
        for j in 0..i {
            if prefers_other(i, j) && prefers_other(j, i) {
                return Some((i, j));
            }
        }
    }
    None
}

fn verify(n: usize, score_table: &Vec<f32>, result: Vec<usize>, min: f32) {
    for i in 0..result.len() {
        let v = result[i];
        if (i == v) || ((v > n) && (v != UNMATCHED)) {
            panic!("Results out of bounds")
        }
        if (v != UNMATCHED) && (score_table[i * n + v] <= min) {
            panic!("Should not be matched")
        }
    }
    if let Some((i, j)) = blocking_pair(n, score_table, &result, min) {
        panic!("Found elope: ({}, {})", i, j)
    }
}

fn run(n: usize) {
    let s = random_score_table(n);
    let min = 0.1f32;
    let res = solve_table(n, &s, min);
    check_matching(n, &res);
    verify(n, &s, res, min);
}

#[test]
fn attempt() {
    for n in 0..=50 {
        for _ in 0..100 {
            run(n);
        }
    }
}

#[test]
fn empty_problem_gives_empty_result() {
    let s: Vec<f32> = Vec::new();
    assert_eq!(solve_table(0, &s, 0.1), Vec::<usize>::new());
    assert_eq!(solve(0, &|_i: usize| Vec::new()), Vec::<usize>::new());
}

#[test]
fn single_agent_is_unmatched() {
    let s = vec![0f32];
    assert_eq!(solve_table(1, &s, 0.1), vec![UNMATCHED]);
    assert_eq!(solve(1, &|_i: usize| Vec::new()), vec![UNMATCHED]);
}

#[test]
fn two_agents_that_like_each_other() {
    let s = vec![0f32, 1.0, 1.0, 0.0];
    assert_eq!(solve_table(2, &s, 0.0), vec![1, 0]);
}

#[test]
fn two_agents_that_accept_nobody() {
    let s = vec![0f32; 4];
    assert_eq!(solve_table(2, &s, 0.1), vec![UNMATCHED, UNMATCHED]);
}

#[test]
fn all_zero_scores_leave_everyone_unmatched() {
    for n in 0..8 {
        let s = vec![0f32; n * n];
        assert_eq!(solve_table(n, &s, 0.1), vec![UNMATCHED; n]);
    }
    assert_eq!(solve(5, &|_i: usize| Vec::new()), vec![UNMATCHED; 5]);
}

#[test]
fn three_agents_one_left_over() {
    let s = symmetric_table(3, &[(0, 1, 0.9), (0, 2, 0.3), (1, 2, 0.2)]);
    assert_eq!(solve_table(3, &s, 0.1), vec![1, 0, UNMATCHED]);
}

#[test]
fn four_agents_two_strong_pairs() {
    let s = symmetric_table(
        4,
        &[(0, 1, 0.9), (2, 3, 0.9), (0, 2, 0.2), (0, 3, 0.2), (1, 2, 0.2), (1, 3, 0.2)],
    );
    assert_eq!(solve_table(4, &s, 0.1), vec![1, 0, 3, 2]);
}

#[test]
fn four_agents_without_stable_matching() {
    // 0 prefers 1, 1 prefers 2, 2 prefers 0; everyone ranks 3 last.
    let n = 4;
    let mut s = vec![0f32; n * n];
    let mut set = |i: usize, j: usize, v: f32| s[i * n + j] = v;
    set(0, 1, 0.9);
    set(0, 2, 0.5);
    set(0, 3, 0.2);
    set(1, 2, 0.9);
    set(1, 0, 0.5);
    set(1, 3, 0.2);
    set(2, 0, 0.9);
    set(2, 1, 0.5);
    set(2, 3, 0.2);
    set(3, 0, 0.9);
    set(3, 1, 0.5);
    set(3, 2, 0.3);
    let res = solve_table(n, &s, 0.1);
    check_matching(n, &res);
    assert!(res.iter().any(|&v| v == UNMATCHED));
    for i in 0..n {
        if res[i] != UNMATCHED {
            assert!(s[i * n + res[i]] > 0.1);
        }
    }
}

#[test]
fn mutual_first_choices_are_paired() {
    // Everyone's top choice likes them best too: 0-3, 1-2, 4-5.
    let n = 6;
    let s = symmetric_table(
        n,
        &[
            (0, 3, 0.95),
            (1, 2, 0.9),
            (4, 5, 0.85),
            (0, 1, 0.5),
            (0, 2, 0.4),
            (0, 4, 0.3),
            (0, 5, 0.2),
            (1, 3, 0.45),
            (1, 4, 0.35),
            (1, 5, 0.25),
            (2, 3, 0.55),
            (2, 4, 0.15),
            (2, 5, 0.12),
            (3, 4, 0.6),
            (3, 5, 0.65),
        ],
    );
    let res = solve_table(n, &s, 0.1);
    assert_eq!(res, vec![3, 2, 1, 0, 5, 4]);
}

#[test]
fn lists_and_comparator_agree() {
    for n in 0..20 {
        let s = random_score_table(n);
        let min = 0.1f32;
        let by_sort = solve_table(n, &s, min);
        let by_lists = solve(n, &|i: usize| {
            let mut l: Vec<usize> = (0..n).filter(|&j| j != i && s[i * n + j] > min).collect();
            l.sort_by(|a, b| s[i * n + *b].partial_cmp(&s[i * n + *a]).unwrap_or(Ordering::Equal));
            l
        });
        check_matching(n, &by_lists);
        assert_eq!(by_sort, by_lists);
    }
}

#[test]
fn lists_single_candidate_each() {
    // 0 and 1 only accept each other; 2 accepts 0 only.
    let lists = vec![vec![1], vec![0], vec![0]];
    let res = solve(3, &|i: usize| lists[i].clone());
    assert_eq!(res, vec![1, 0, UNMATCHED]);
}

#[test]
fn lists_cycle_of_three_with_one_spare() {
    // Phase one leaves a rotation among 0, 1, 2 and 3 that must be broken.
    let lists = vec![vec![1, 2, 3], vec![2, 0, 3], vec![0, 1, 3], vec![0, 1, 2]];
    let res = solve(4, &|i: usize| lists[i].clone());
    check_matching(4, &res);
    for i in 0..4 {
        if res[i] != UNMATCHED {
            assert!(lists[i].contains(&res[i]));
        }
    }
}

#[test]
fn comparator_order_is_respected() {
    // Agent 0 prefers 2 over 1; 2 prefers 0; 1 has nobody left.
    let s = symmetric_table(3, &[(0, 1, 0.4), (0, 2, 0.8), (1, 2, 0.3)]);
    assert_eq!(solve_table(3, &s, 0.1), vec![2, UNMATCHED, 0]);
}

#[test]
fn lists_mutual_first_choices_are_paired() {
    // 0 and 2 name each other first, as do 1 and 3.
    let lists = vec![vec![2, 1, 3], vec![3, 0, 2], vec![0, 3, 1], vec![1, 2, 0]];
    let res = solve(4, &|i: usize| lists[i].clone());
    assert_eq!(res, vec![2, 3, 0, 1]);
}

#[test]
fn lists_mutual_pair_leaves_third_alone() {
    // 0 and 2 name each other first; 1 is left with nobody.
    let lists = vec![vec![2, 1], vec![2, 0], vec![0, 1]];
    let res = solve(3, &|i: usize| lists[i].clone());
    check_matching(3, &res);
    assert_eq!(res[2], 0);
    assert_eq!(res[0], 2);
    assert_eq!(res[1], UNMATCHED);
}

#[test]
fn rotation_leaves_single_candidates_that_pair() {
    // Each agent holds two candidates after the proposals; breaking the
    // rotation leaves 0 with 1 and 2 with 3 alone.
    let lists = vec![vec![3, 1], vec![0, 2], vec![1, 3], vec![2, 0]];
    let res = solve(4, &|i: usize| lists[i].clone());
    assert_eq!(res, vec![1, 0, 3, 2]);
}

#[test]
fn rotation_walk_follows_the_current_table() {
    let lists = vec![vec![], vec![3, 4], vec![4, 3], vec![2, 1, 4], vec![1, 2, 3]];
    let res = solve(5, &|i: usize| lists[i].clone());
    assert_eq!(res, vec![UNMATCHED, 4, 3, 2, 1]);
}

#[test]
fn rotation_walk_matches_everyone() {
    let lists = vec![vec![3, 1, 5], vec![4, 0], vec![5, 3, 4], vec![2, 0], vec![2, 5, 1], vec![0, 4, 2]];
    let res = solve(6, &|i: usize| lists[i].clone());
    assert_eq!(res, vec![5, 4, 3, 2, 1, 0]);
}

#[test]
fn sorted_row_lists_every_acceptable_agent_best_first() {
    let n = 5;
    let s = symmetric_table(n, &[(0, 1, 0.3), (0, 2, 0.9), (0, 3, 0.05), (0, 4, 0.6)]);
    let min = 0.1f32;
    let row = sorted_row(
        n,
        0,
        &|v1: usize, v2: usize| s[v1 * n + v2] > min,
        &|r: usize, v1: usize, v2: usize| s[r * n + v1].partial_cmp(&s[r * n + v2]).unwrap(),
    );
    assert_eq!(row, vec![2, 4, 1]);
}
