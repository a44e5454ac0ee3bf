use std::collections::HashSet;
use ttpgen::{Rawdata, Slot, Solution, Team, Distance};

fn instance(n: i32) -> Rawdata {
    let mut distances = Vec::new();
    for i in 0..n {
        for j in 0..n {
            if i != j {
                distances.push(Distance { dist: (i - j).abs() + i, team1: i, team2: j });
            }
        }
    }
    let mut teams = Vec::new();
    for i in 0..n {
        let mut t = Team::new();
        t.id = i;
        teams.push(t);
    }
    Rawdata {
        instance_name: "enum".to_string(),
        teams,
        slots: (0..2 * (n - 1)).map(|k| Slot { id: k, name: format!("S{}", k) }).collect(),
        distances,
        capacity_constraints: Vec::new(),
        separation_constraints: Vec::new(),
    }
}

#[test]
fn enumeration_covers_orderings_directions_and_anchors() {
    let data = instance(4);
    let m = Solution::generate_traveling_distance_matrix(&data);
    let orderings = vec![vec![0, 1, 2, 3], vec![2, 0, 3, 1]];
    let (solutions, distances) = Solution::generate_all_solutions(&data, &m, orderings.clone());
    assert_eq!(solutions.len(), 2 * 4 * 2);
    assert_eq!(distances.len(), solutions.len());
    let mut k = 0;
    for ordering in &orderings {
        let mut ordered = data.clone();
        ordered.teams = ordering
            .iter()
            .map(|&id| data.teams.iter().find(|t| t.id == id).unwrap().clone())
            .collect();
        for upward in [true, false] {
            for anchor in 0..4 {
                assert_eq!(solutions[k].id, k as i32 + 1);
                let expected = Solution::generate_florian_solution(&ordered, anchor, upward);
                assert_eq!(solutions[k].solution, expected.solution);
                assert_eq!(distances[k], Solution::evaluate_objective(&m, &solutions[k]));
                k += 1;
            }
        }
    }
}

#[test]
fn enumeration_of_no_orderings_is_empty() {
    let data = instance(4);
    let m = Solution::generate_traveling_distance_matrix(&data);
    let (solutions, distances) = Solution::generate_all_solutions(&data, &m, vec![]);
    assert!(solutions.is_empty());
    assert!(distances.is_empty());
}

#[test]
fn sampler_is_reproducible_and_distinct() {
    let data = instance(6);
    let a = Solution::generate_random_permutations(&data, 20, 42);
    let b = Solution::generate_random_permutations(&data, 20, 42);
    assert_eq!(a.len(), 20);
    let set_a: HashSet<Vec<i32>> = a.iter().cloned().collect();
    let set_b: HashSet<Vec<i32>> = b.iter().cloned().collect();
    assert_eq!(set_a.len(), 20);
    assert_eq!(set_a, set_b);
    for p in &a {
        let mut sorted = p.clone();
        sorted.sort();
        assert_eq!(sorted, vec![0, 1, 2, 3, 4, 5]);
    }
}

#[test]
fn sampler_can_exhaust_all_orderings() {
    let data = instance(3);
    let a = Solution::generate_random_permutations(&data, 6, 7);
    let set: HashSet<Vec<i32>> = a.iter().cloned().collect();
    assert_eq!(set.len(), 6);
}

#[test]
fn sampler_with_zero_count_is_empty() {
    let data = instance(4);
    assert!(Solution::generate_random_permutations(&data, 0, 1).is_empty());
    assert!(Solution::generate_random_permutations(&data, -3, 1).is_empty());
}

#[test]
fn orderings_available() {
    assert!(ttpgen::sampler::enough_orderings(3, 6));
    assert!(!ttpgen::sampler::enough_orderings(3, 7));
    assert!(ttpgen::sampler::enough_orderings(0, 1));
    assert!(!ttpgen::sampler::enough_orderings(0, 2));
    assert!(!ttpgen::sampler::enough_orderings(12, i32::MAX));
    assert!(ttpgen::sampler::enough_orderings(13, i32::MAX));
    assert!(ttpgen::sampler::enough_orderings(12, 479_001_600));
    assert!(!ttpgen::sampler::enough_orderings(4, 25));
    assert!(ttpgen::sampler::enough_orderings(4, 24));
}

#[test]
fn enumeration_output_has_no_duplicates() {
    let data = instance(2);
    let m = Solution::generate_traveling_distance_matrix(&data);
    let (solutions, _) = Solution::generate_all_solutions(&data, &m, vec![vec![0, 1]]);
    assert_eq!(solutions.len(), 4);
    // anchor 1 upward and anchor 0 downward give the same games under different ids
    assert_eq!(solutions[1].solution, solutions[2].solution);
    assert!(!Solution::has_duplicate_solutions(&solutions));
}

#[test]
fn sampler_rejects_more_orderings_than_exist() {
    let data = instance(3);
    assert!(Solution::generate_random_permutations(&data, 7, 42).is_empty());
    assert_eq!(Solution::generate_random_permutations(&data, 1, 42).len(), 1);
}
