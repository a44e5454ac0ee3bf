use ttpgen::{Distance, Game, Rawdata, Slot, Solution, Team};

fn instance(n: i32) -> Rawdata {
    let mut distances = Vec::new();
    for i in 0..n {
        for j in 0..n {
            if i != j {
                distances.push(Distance { dist: (i - j).abs(), team1: i, team2: j });
            }
        }
    }
    let mut teams = Vec::new();
    for i in 0..n {
        let mut t = Team::new();
        t.id = i;
        teams.push(t);
    }
    Rawdata {
        instance_name: "scoring".to_string(),
        teams,
        slots: (0..2 * (n - 1)).map(|k| Slot { id: k, name: format!("S{}", k) }).collect(),
        distances,
        capacity_constraints: Vec::new(),
        separation_constraints: Vec::new(),
    }
}

#[test]
fn matrix_from_sparse_distances() {
    let data = instance(4);
    let m = Solution::generate_traveling_distance_matrix(&data);
    assert_eq!(m.len(), 4);
    for i in 0..4 {
        assert_eq!(m[i].len(), 4);
        for j in 0..4 {
            assert_eq!(m[i][j], (i as i32 - j as i32).abs());
        }
    }
}

#[test]
fn matrix_last_write_wins_and_defaults_to_zero() {
    let mut data = instance(3);
    data.distances = vec![
        Distance { dist: 5, team1: 0, team2: 2 },
        Distance { dist: 9, team1: 2, team2: 0 },
        Distance { dist: 7, team1: 0, team2: 2 },
    ];
    let m = Solution::generate_traveling_distance_matrix(&data);
    assert_eq!(m, vec![vec![0, 0, 7], vec![0, 0, 0], vec![9, 0, 0]]);
}

#[test]
fn four_team_travel_total() {
    let data = instance(4);
    let m = Solution::generate_traveling_distance_matrix(&data);
    let s = Solution::generate_florian_solution(&data, 0, true);
    assert_eq!(Solution::evaluate_objective(&m, &s), 30);
}

#[test]
fn travel_follows_asymmetric_legs() {
    let mut data = instance(2);
    data.distances = vec![Distance { dist: 10, team1: 0, team2: 1 }, Distance { dist: 3, team1: 1, team2: 0 }];
    let m = Solution::generate_traveling_distance_matrix(&data);
    // team 0 goes away, away, home; team 1 stays home and then travels to 0
    let s = Solution {
        id: 1,
        solution: vec![
            vec![Game { home_game: false, opponent: 1 }, Game { home_game: true, opponent: 0 }],
            vec![Game { home_game: false, opponent: 1 }, Game { home_game: true, opponent: 0 }],
            vec![Game { home_game: true, opponent: 1 }, Game { home_game: false, opponent: 0 }],
        ],
    };
    assert_eq!(Solution::evaluate_objective(&m, &s), 10 + 0 + 3 + 3);
}

#[test]
fn evaluation_is_repeatable() {
    let data = instance(6);
    let m = Solution::generate_traveling_distance_matrix(&data);
    let s = Solution::generate_florian_solution(&data, 3, false);
    let first = Solution::evaluate_solution(&data, &m, &s);
    let second = Solution::evaluate_solution(&data, &m, &s);
    assert_eq!(first, second);
    assert_eq!(first.0, Solution::evaluate_objective(&m, &s));
}

#[test]
fn all_home_schedule_travels_nothing() {
    let data = instance(4);
    let m = Solution::generate_traveling_distance_matrix(&data);
    let s = Solution { id: 3, solution: vec![(0..4).map(|t| Game { home_game: true, opponent: (t + 1) % 4 }).collect(); 6] };
    assert_eq!(Solution::evaluate_objective(&m, &s), 0);
}

#[test]
fn evaluate_solution_combines_scores() {
    let mut data = instance(4);
    let mut sep = ttpgen::SeparationConstraints::new();
    sep.c_min = 0;
    sep.c_max = 1;
    data.separation_constraints.push(sep);
    let m = Solution::generate_traveling_distance_matrix(&data);
    let s = Solution::generate_florian_solution(&data, 0, true);
    assert_eq!(Solution::evaluate_solution(&data, &m, &s), (30, 0, 12, true));
}

#[test]
fn distances_of_several_schedules() {
    let data = instance(4);
    let m = Solution::generate_traveling_distance_matrix(&data);
    let a = Solution::generate_florian_solution(&data, 0, true);
    let b = Solution::generate_florian_solution(&data, 2, false);
    let expected = vec![Solution::evaluate_objective(&m, &a), Solution::evaluate_objective(&m, &b)];
    let got = Solution::generate_distances(vec![a, b], &data, &m);
    assert_eq!(got, expected);
    assert_eq!(got[0], 30);
}

#[test]
fn new_solution_is_unassigned() {
    let data = instance(4);
    let s = Solution::new(&data);
    assert_eq!(s.id, -1);
    assert_eq!(s.solution.len(), 6);
    for row in &s.solution {
        assert_eq!(row.len(), 4);
        for game in row {
            assert_eq!(*game, Game { home_game: false, opponent: -1 });
        }
    }
}

#[test]
fn duplicates_need_equal_ids_and_games() {
    let data = instance(4);
    let mut a = Solution::generate_florian_solution(&data, 0, true);
    let b = Solution::generate_florian_solution(&data, 1, true);
    a.id = 1;
    let mut c = a.clone();
    c.id = 2;
    let d = a.clone();
    assert!(!Solution::has_duplicate_solutions(&vec![a.clone(), b.clone()]));
    assert!(!Solution::has_duplicate_solutions(&vec![a.clone(), b.clone(), c.clone()]));
    assert!(Solution::has_duplicate_solutions(&vec![a, b, c, d]));
    assert!(!Solution::has_duplicate_solutions(&vec![]));
    let e1 = Solution { id: 1, solution: vec![] };
    let e2 = Solution { id: 2, solution: vec![] };
    assert!(!Solution::has_duplicate_solutions(&vec![e1.clone(), e2]));
    assert!(Solution::has_duplicate_solutions(&vec![e1.clone(), e1]));
}

#[test]
fn sorted_by_identifier() {
    let mk = |id: i32| Solution { id, solution: vec![vec![Game { home_game: true, opponent: id }]] };
    let sorted = Solution::sort_by_id(vec![mk(5), mk(-2), mk(9), mk(0), mk(5)]);
    let ids: Vec<i32> = sorted.iter().map(|s| s.id).collect();
    assert_eq!(ids, vec![-2, 0, 5, 5, 9]);
    for s in &sorted {
        assert_eq!(s.solution[0][0].opponent, s.id);
    }
    assert!(Solution::sort_by_id(vec![]).is_empty());
}

#[test]
fn travel_with_a_larger_matrix() {
    let data = instance(6);
    let m = Solution::generate_traveling_distance_matrix(&data);
    let small = instance(4);
    let s = Solution::generate_florian_solution(&small, 0, true);
    // the schedule names teams 0..4 only; the extra rows and columns are not used
    assert_eq!(Solution::evaluate_objective(&m, &s), 30);
}

#[test]
fn default_records() {
    let d = Distance::new();
    assert_eq!((d.dist, d.team1, d.team2), (0, 0, 0));
    let t = Team::new();
    assert_eq!((t.id, t.league, t.name.as_str(), t.team_groups), (0, 0, "Null", 0));
    let s = Slot::new();
    assert_eq!((s.id, s.name.as_str()), (0, "Null"));
    let c = ttpgen::CapacityConstraints::new();
    assert_eq!((c.c_intp, c.c_max, c.c_min, c.c_mode1), (0, 0, 0, 'N'));
    assert_eq!((c.c_mode2.as_str(), c.c_type.as_str()), ("Null", "Null"));
    let p = ttpgen::SeparationConstraints::new();
    assert_eq!((p.c_max, p.c_min, p.c_penalty, p.c_team_groups, p.c_type.as_str()), (0, 0, 0, 0, "Null"));
}

#[test]
fn matrix_without_distances_is_zero() {
    let mut data = instance(3);
    data.distances.clear();
    let m = Solution::generate_traveling_distance_matrix(&data);
    assert_eq!(m, vec![vec![0; 3]; 3]);
}

#[test]
fn empty_schedule_scores() {
    let mut data = instance(4);
    let mut cap = ttpgen::CapacityConstraints::new();
    cap.c_intp = 0;
    cap.c_min = 1;
    cap.c_max = 1;
    cap.c_mode1 = 'H';
    data.capacity_constraints.push(cap);
    let m = Solution::generate_traveling_distance_matrix(&data);
    let s = Solution { id: 0, solution: vec![] };
    // one empty window per team, each counting zero games
    assert_eq!(Solution::evaluate_solution(&data, &m, &s), (0, 4, 0, true));
}

#[test]
fn negative_interval_has_no_window() {
    let mut data = instance(4);
    let mut cap = ttpgen::CapacityConstraints::new();
    cap.c_intp = -2;
    cap.c_min = 1;
    data.capacity_constraints.push(cap);
    let s = Solution::generate_florian_solution(&data, 0, true);
    assert_eq!(Solution::check_constraints(&data, &s).0, 0);
}
