use ttpgen::{CapacityConstraints, Distance, Game, Rawdata, SeparationConstraints, Slot, Solution, Team};

fn team(id: i32) -> Team {
    let mut t = Team::new();
    t.id = id;
    t.name = format!("T{}", id);
    t
}

fn instance(ids: &[i32]) -> Rawdata {
    let n = ids.len() as i32;
    let mut distances = Vec::new();
    for i in 0..n {
        for j in 0..n {
            if i != j {
                distances.push(Distance { dist: (i - j).abs(), team1: i, team2: j });
            }
        }
    }
    Rawdata {
        instance_name: "test".to_string(),
        teams: ids.iter().map(|&i| team(i)).collect(),
        slots: (0..2 * (n - 1)).map(|k| Slot { id: k, name: format!("S{}", k) }).collect(),
        distances,
        capacity_constraints: Vec::new(),
        separation_constraints: Vec::new(),
    }
}

fn capacity(intp: i32, min: i32, max: i32, mode: char) -> CapacityConstraints {
    let mut c = CapacityConstraints::new();
    c.c_intp = intp;
    c.c_min = min;
    c.c_max = max;
    c.c_mode1 = mode;
    c
}

fn separation(min: i32, max: i32) -> SeparationConstraints {
    let mut c = SeparationConstraints::new();
    c.c_min = min;
    c.c_max = max;
    c
}

fn g(home: bool, opponent: i32) -> Game {
    Game { home_game: home, opponent }
}

#[test]
fn four_teams_anchor_zero_upward_schedule() {
    let data = instance(&[0, 1, 2, 3]);
    let s = Solution::generate_florian_solution(&data, 0, true);
    assert_eq!(s.id, -1);
    let expected = vec![
        vec![g(false, 1), g(true, 0), g(true, 3), g(false, 2)],
        vec![g(true, 3), g(false, 2), g(true, 1), g(false, 0)],
        vec![g(false, 2), g(false, 3), g(true, 0), g(true, 1)],
        vec![g(true, 1), g(false, 0), g(false, 3), g(true, 2)],
        vec![g(false, 3), g(true, 2), g(false, 1), g(true, 0)],
        vec![g(true, 2), g(true, 3), g(false, 0), g(false, 1)],
    ];
    assert_eq!(s.solution, expected);
}

#[test]
fn four_team_scenario_slots_opponents_and_capacity() {
    let mut data = instance(&[0, 1, 2, 3]);
    data.capacity_constraints.push(capacity(2, 0, 2, 'H'));
    let s = Solution::generate_florian_solution(&data, 0, true);
    assert_eq!(s.solution.len(), 6);
    for opp in 1..4 {
        let times = s.solution.iter().filter(|row| row[0].opponent == opp).count();
        assert_eq!(times, 2);
    }
    let (cap, _, _) = Solution::check_constraints(&data, &s);
    assert_eq!(cap, 0);
}

#[test]
fn four_team_scenario_separation_flags_every_second_meeting() {
    let mut data = instance(&[0, 1, 2, 3]);
    data.separation_constraints.push(separation(0, 1));
    let s = Solution::generate_florian_solution(&data, 0, true);
    let (_, sep, _) = Solution::check_constraints(&data, &s);
    // every team meets each of its three opponents again three slots later
    assert_eq!(sep, 12);
}

#[test]
fn separation_within_bounds_is_not_flagged() {
    let mut data = instance(&[0, 1, 2, 3]);
    data.separation_constraints.push(separation(2, 3));
    let s = Solution::generate_florian_solution(&data, 0, true);
    let (_, sep, _) = Solution::check_constraints(&data, &s);
    assert_eq!(sep, 0);
}

#[test]
fn four_team_scenario_round_robin_respected() {
    let data = instance(&[0, 1, 2, 3]);
    let s = Solution::generate_florian_solution(&data, 0, true);
    for a in 0..4 {
        for b in (a + 1)..4 {
            let meetings = s
                .solution
                .iter()
                .filter(|row| row[a].opponent == b as i32 || row[b].opponent == a as i32)
                .count();
            assert!(meetings <= 2);
        }
    }
    let (_, _, ok) = Solution::check_constraints(&data, &s);
    assert!(ok);
}

#[test]
fn round_robin_broken_by_five_meetings() {
    let data = instance(&[0, 1]);
    let s = Solution { id: 7, solution: vec![vec![g(true, 1), g(false, 0)]; 5] };
    let (_, _, ok) = Solution::check_constraints(&data, &s);
    assert!(!ok);
    let s4 = Solution { id: 7, solution: vec![vec![g(true, 1), g(false, 0)]; 4] };
    let (_, _, ok4) = Solution::check_constraints(&data, &s4);
    assert!(ok4);
}

#[test]
fn capacity_windows_counted_per_team_and_window() {
    let mut data = instance(&[0, 1, 2, 3]);
    data.capacity_constraints.push(capacity(2, 1, 1, 'H'));
    let s = Solution::generate_florian_solution(&data, 0, true);
    let (cap, _, _) = Solution::check_constraints(&data, &s);
    assert_eq!(cap, 10);
}

#[test]
fn capacity_mode_selects_home_or_away() {
    let mut data = instance(&[0, 1]);
    let s = Solution { id: 1, solution: vec![vec![g(true, 1), g(true, 0)]; 3] };
    data.capacity_constraints.push(capacity(1, 0, 0, 'H'));
    assert_eq!(Solution::check_constraints(&data, &s).0, 6);
    data.capacity_constraints[0].c_mode1 = 'A';
    assert_eq!(Solution::check_constraints(&data, &s).0, 0);
    data.capacity_constraints[0].c_mode1 = 'N';
    data.capacity_constraints[0].c_min = 1;
    assert_eq!(Solution::check_constraints(&data, &s).0, 6);
}

#[test]
fn capacity_window_longer_than_schedule_has_no_window() {
    let mut data = instance(&[0, 1, 2, 3]);
    data.capacity_constraints.push(capacity(7, 5, 5, 'H'));
    let s = Solution::generate_florian_solution(&data, 0, true);
    assert_eq!(Solution::check_constraints(&data, &s).0, 0);
}

#[test]
fn every_pair_meets_twice_with_swapped_venues() {
    let data = instance(&[3, 0, 5, 1, 4, 2]);
    let n = 6;
    for upward in [true, false] {
        for anchor in 0..n {
            let s = Solution::generate_florian_solution(&data, anchor, upward);
            assert_eq!(s.solution.len(), 2 * (n - 1));
            for row in &s.solution {
                assert_eq!(row.len(), n);
            }
            for a in 0..n {
                for b in 0..n {
                    if a == b {
                        continue;
                    }
                    let rounds: Vec<usize> =
                        (0..s.solution.len()).filter(|&r| s.solution[r][a].opponent == b as i32).collect();
                    assert_eq!(rounds.len(), 2);
                    assert_ne!(s.solution[rounds[0]][a].home_game, s.solution[rounds[1]][a].home_game);
                }
            }
        }
    }
}

#[test]
fn games_are_symmetric() {
    let data = instance(&[2, 7, 0, 5, 1, 4, 6, 3]);
    for upward in [true, false] {
        for anchor in 0..8 {
            let s = Solution::generate_florian_solution(&data, anchor, upward);
            for row in &s.solution {
                for t in 0..8 {
                    let o = row[t].opponent as usize;
                    assert_ne!(o, t);
                    assert_eq!(row[o].opponent, t as i32);
                    assert_ne!(row[t].home_game, row[o].home_game);
                }
            }
        }
    }
}

#[test]
fn construction_is_deterministic() {
    let data = instance(&[1, 3, 0, 2]);
    let a = Solution::generate_florian_solution(&data, 2, false);
    let b = Solution::generate_florian_solution(&data, 2, false);
    assert_eq!(a, b);
}

#[test]
fn two_teams_play_home_and_away() {
    let data = instance(&[1, 0]);
    let s = Solution::generate_florian_solution(&data, 1, true);
    assert_eq!(s.solution, vec![vec![g(false, 1), g(true, 0)], vec![g(true, 1), g(false, 0)]]);
}

#[test]
fn anchor_and_direction_change_the_schedule() {
    let data = instance(&[0, 1, 2, 3]);
    let a = Solution::generate_florian_solution(&data, 0, true);
    let b = Solution::generate_florian_solution(&data, 0, false);
    let c = Solution::generate_florian_solution(&data, 1, true);
    assert_ne!(a.solution, b.solution);
    assert_ne!(a.solution, c.solution);
}

#[test]
fn schedule_as_text() {
    let data = instance(&[0, 1]);
    let s = Solution::generate_florian_solution(&data, 0, true);
    let text = Solution::solution_to_string(&s, &data);
    let expected = String::new()
        + "Id: -1\n"
        + "            T0:0    T1:1\n"
        + "  Slot:0      1A      0H\n"
        + "  Slot:1      1H      0A\n";
    assert_eq!(text, expected);
}

#[test]
fn long_labels_are_not_cut() {
    let mut data = instance(&[0, 1]);
    data.teams[0].name = "Philadelphia".to_string();
    let mut s = Solution::generate_florian_solution(&data, 1, false);
    s.id = 12345;
    let text = Solution::solution_to_string(&s, &data);
    assert!(text.starts_with("Id: 12345\n        Philadelphia:0    T1:1\n"));
}
