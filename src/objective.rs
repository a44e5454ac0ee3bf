//! Total travel of a schedule, and the distance matrix it is measured with.

use vstd::prelude::*;
use crate::constraints::{counts_fit, well_formed, capacity_violations, separation_violations, round_robin_respected};
use crate::data_set::{Distance, Rawdata};
use crate::solution::{Game, Solution, rows_view};

verus! {

/// `m` is an `n` x `n` matrix.
pub open spec fn is_square(m: Seq<Seq<i32>>, n: int) -> bool {
    &&& m.len() == n
    &&& forall|i: int| 0 <= i < n ==> #[trigger] m[i].len() == n
}

/// `m` has a cell for every pair of teams of `0..n`.
pub open spec fn covers(m: Seq<Seq<i32>>, n: int) -> bool {
    &&& m.len() >= n
    &&& forall|i: int| 0 <= i < n ==> #[trigger] m[i].len() >= n
}

/// Number of teams of a schedule: the width of its first slot, zero when it
/// has none.
pub open spec fn team_count(s: Seq<Seq<Game>>) -> int {
    if s.len() > 0 {
        s[0].len() as int
    } else {
        0
    }
}

/// An empty schedule costs nothing.
proof fn lemma_empty_travel(m: Seq<Seq<i32>>, s: Seq<Seq<Game>>, t: int)
    requires
        s.len() == 0,
    ensures
        total_travel(m, s, t) == 0,
    decreases t,
{
    if t > 0 {
        lemma_empty_travel(m, s, t - 1);
    }
}

/// A well-formed schedule over `n` teams measured over its own team count
/// gives the travel of all `n` teams.
proof fn lemma_team_count(m: Seq<Seq<i32>>, s: Seq<Seq<Game>>, n: int)
    requires
        well_formed(s, n),
    ensures
        total_travel(m, s, team_count(s)) == total_travel(m, s, n),
{
    if s.len() == 0 {
        lemma_empty_travel(m, s, n);
        lemma_empty_travel(m, s, 0);
    }
}

/// A square matrix over the `n` teams of a well-formed schedule serves its
/// evaluation, and gives the same travel as the `n` teams.
pub proof fn lemma_square_covers(m: Seq<Seq<i32>>, s: Seq<Seq<Game>>, n: int)
    requires
        is_square(m, n),
        well_formed(s, n),
    ensures
        well_formed(s, team_count(s)),
        covers(m, team_count(s)),
        team_count(s) <= n,
        total_travel(m, s, team_count(s)) == total_travel(m, s, n),
{
    lemma_team_count(m, s, n);
}

/// Every distance of `ds` joins two teams of `0..n`.
pub open spec fn distances_in_range(ds: Seq<Distance>, n: int) -> bool {
    forall|k: int| 0 <= k < ds.len() ==> 0 <= #[trigger] ds[k].team1 < n && 0 <= ds[k].team2 < n
}

/// The cost from `i` to `j` given by the last of the first `k` distances
/// that names that pair, or zero when none does.
pub open spec fn distance_entry(ds: Seq<Distance>, k: int, i: int, j: int) -> i32
    decreases k,
{
    if k <= 0 {
        0
    } else if ds[k - 1].team1 as int == i && ds[k - 1].team2 as int == j {
        ds[k - 1].dist
    } else {
        distance_entry(ds, k - 1, i, j)
    }
}

/// Where team `t` plays the game `g`: at home, or at the opponent's venue.
pub open spec fn venue(g: Game, t: int) -> int {
    if g.home_game {
        t
    } else {
        g.opponent as int
    }
}

/// Where team `t` is before slot `k`: its own venue at the start, else the
/// venue of its previous game.
pub open spec fn location_before(s: Seq<Seq<Game>>, t: int, k: int) -> int {
    if k <= 0 {
        t
    } else {
        venue(s[k - 1][t], t)
    }
}

/// Distance travelled by team `t` over the first `k` slots.
pub open spec fn team_travel(m: Seq<Seq<i32>>, s: Seq<Seq<Game>>, t: int, k: int) -> int
    decreases k,
{
    if k <= 0 {
        0
    } else {
        team_travel(m, s, t, k - 1) + m[location_before(s, t, k - 1)][venue(s[k - 1][t], t)]
    }
}

/// Distance travelled by the first `t` teams over the whole schedule.
pub open spec fn total_travel(m: Seq<Seq<i32>>, s: Seq<Seq<Game>>, t: int) -> int
    decreases t,
{
    if t <= 0 {
        0
    } else {
        total_travel(m, s, t - 1) + team_travel(m, s, t - 1, s.len() as int)
    }
}

/// Bound on a running sum of at most `n * slots` matrix entries.
proof fn lemma_travel_bound(t: int, k: int, slots: int, n: int)
    requires
        0 <= t < n <= 0x8000_0000,
        0 <= k < slots <= 0x1_0000_0000_0000_0000,
    ensures
        (t * slots + k + 1) * 0x8000_0000 <= 0x4000_0000_0000_0000_0000_0000_0000_0000,
        (t * slots + k + 1) * 0x8000_0000 == (t * slots + k) * 0x8000_0000 + 0x8000_0000,
        t * slots + slots == (t + 1) * slots,
{
    assert(t * slots + slots == (t + 1) * slots) by (nonlinear_arith);
    assert((t + 1) * slots <= n * slots) by (nonlinear_arith)
        requires t + 1 <= n, 0 <= slots;
    assert(n * slots <= 0x8000_0000 * 0x1_0000_0000_0000_0000) by (nonlinear_arith)
        requires n <= 0x8000_0000, slots <= 0x1_0000_0000_0000_0000, 0 <= n, 0 <= slots;
    assert((t * slots + k + 1) * 0x8000_0000 <= (0x8000_0000 * 0x1_0000_0000_0000_0000) * 0x8000_0000)
        by (nonlinear_arith)
        requires t * slots + k + 1 <= (t + 1) * slots, (t + 1) * slots <= 0x8000_0000 * 0x1_0000_0000_0000_0000;
    assert((t * slots + k + 1) * 0x8000_0000 == (t * slots + k) * 0x8000_0000 + 0x8000_0000) by (nonlinear_arith);
}

/// One team's travel is zero when all its games are at home and staying
/// at its own venue costs nothing.
proof fn lemma_team_stays_home(m: Seq<Seq<i32>>, s: Seq<Seq<Game>>, t: int, k: int)
    requires
        0 <= k <= s.len(),
        m[t][t] == 0,
        forall|j: int| 0 <= j < s.len() ==> (#[trigger] s[j][t]).home_game,
    ensures
        team_travel(m, s, t, k) == 0,
    decreases k,
{
    if k > 0 {
        lemma_team_stays_home(m, s, t, k - 1);
        assert(s[k - 1][t].home_game);
        if k > 1 {
            assert(s[k - 2][t].home_game);
        }
    }
}

/// A schedule in which every team plays every game at home has total
/// travel zero, given a matrix whose diagonal is zero.
pub proof fn lemma_all_home_no_travel(m: Seq<Seq<i32>>, s: Seq<Seq<Game>>, n: int)
    requires
        covers(m, n),
        forall|i: int| 0 <= i < n ==> #[trigger] m[i][i] == 0,
        forall|k: int, t: int| 0 <= k < s.len() && 0 <= t < n ==> (#[trigger] s[k][t]).home_game,
    ensures
        total_travel(m, s, n) == 0,
{
    if n >= 0 {
        lemma_all_home_prefix(m, s, n, n);
    }
}

/// The travel of the first `t` teams is zero when each of them stays home.
proof fn lemma_all_home_prefix(m: Seq<Seq<i32>>, s: Seq<Seq<Game>>, t: int, n: int)
    requires
        0 <= t <= n,
        covers(m, n),
        forall|i: int| 0 <= i < n ==> #[trigger] m[i][i] == 0,
        forall|k: int, u: int| 0 <= k < s.len() && 0 <= u < n ==> (#[trigger] s[k][u]).home_game,
    ensures
        total_travel(m, s, t) == 0,
    decreases t,
{
    if t > 0 {
        lemma_all_home_prefix(m, s, t - 1, n);
        assert(m[t - 1][t - 1] == 0);
        assert forall|j: int| 0 <= j < s.len() implies (#[trigger] s[j][t - 1]).home_game by {
        }
        lemma_team_stays_home(m, s, t - 1, s.len() as int);
    }
}

impl Solution {
    /// The dense `n` x `n` distance matrix of `data`, with `n` its number of
    /// teams: each listed distance sets the cell of its pair, a later one
    /// overwriting an earlier one, and every other cell is zero.
    pub fn generate_traveling_distance_matrix(data: &Rawdata) -> (r: Vec<Vec<i32>>)
        requires
            distances_in_range(data.distances@, data.teams@.len() as int),
        ensures
            is_square(rows_view(r), data.teams@.len() as int),
            forall|i: int, j: int|
                0 <= i < data.teams@.len() && 0 <= j < data.teams@.len() ==> #[trigger] r@[i]@[j]
                    == distance_entry(data.distances@, data.distances@.len() as int, i, j),
    {
        let n = data.teams.len();
        let mut matrix: Vec<Vec<i32>> = Vec::new();
        let mut i: usize = 0;
        while i < n
            invariant
                i <= n,
                matrix@.len() == i,
                forall|a: int| 0 <= a < i ==> #[trigger] matrix@[a]@ == Seq::new(n as nat, |b: int| 0i32),
            decreases n - i,
        {
            let mut row: Vec<i32> = Vec::new();
            let mut j: usize = 0;
            while j < n
                invariant
                    j <= n,
                    row@ == Seq::new(j as nat, |b: int| 0i32),
                decreases n - j,
            {
                row.push(0);
                j += 1;
                assert(row@ =~= Seq::new(j as nat, |b: int| 0i32));
            }
            matrix.push(row);
            i += 1;
        }
        let ds = &data.distances;
        let mut k: usize = 0;
        while k < ds.len()
            invariant
                k <= ds@.len(),
                n == data.teams@.len(),
                distances_in_range(ds@, n as int),
                matrix@.len() == n,
                forall|a: int| 0 <= a < n ==> #[trigger] matrix@[a]@.len() == n,
                forall|a: int, b: int|
                    0 <= a < n && 0 <= b < n ==> #[trigger] matrix@[a]@[b] == distance_entry(ds@, k as int, a, b),
            decreases ds@.len() - k,
        {
            let d = ds[k];
            let a = d.team1 as usize;
            let b = d.team2 as usize;
            let ghost before = matrix@;
            matrix[a].set(b, d.dist);
            proof {
                assert forall|x: int, y: int| 0 <= x < n && 0 <= y < n implies #[trigger] matrix@[x]@[y]
                    == distance_entry(ds@, k + 1, x, y) by {
                    if x != a {
                        assert(matrix@[x] == before[x]);
                    }
                }
            }
            k += 1;
        }
        matrix
    }

    /// Total distance travelled by all teams: each team starts at its own
    /// venue and, slot by slot, goes to the venue of its game (its own for a
    /// home game, the opponent's for an away game), paying the matrix entry
    /// from where it is to where it goes. The teams are those of the
    /// schedule's first slot.
    pub fn evaluate_objective(traveling_distance_matrix: &Vec<Vec<i32>>, solution_matrix: &Solution) -> (r: i128)
        requires
            well_formed(solution_matrix.games(), team_count(solution_matrix.games())),
            covers(rows_view(*traveling_distance_matrix), team_count(solution_matrix.games())),
            team_count(solution_matrix.games()) <= 0x8000_0000,
        ensures
            r == total_travel(
                rows_view(*traveling_distance_matrix),
                solution_matrix.games(),
                team_count(solution_matrix.games()),
            ),
    {
        let ghost m = rows_view(*traveling_distance_matrix);
        let ghost s = solution_matrix.games();
        let matrix = traveling_distance_matrix;
        let rows = &solution_matrix.solution;
        let n = if rows.len() > 0 {
            rows[0].len()
        } else {
            0
        };
        assert(n == team_count(s));
        let slots = rows.len();
        let ghost big: int = 0x8000_0000;
        let mut total: i128 = 0;
        let mut team: usize = 0;
        while team < n
            invariant
                m == rows_view(*matrix),
                s == rows_view(*rows),
                n == team_count(s),
                n <= 0x8000_0000,
                big == 0x8000_0000,
                slots == rows@.len(),
                covers(m, n as int),
                well_formed(s, n as int),
                team <= n,
                total == total_travel(m, s, team as int),
                -((team * slots) * big) <= total <= (team * slots) * big,
            decreases n - team,
        {
            let mut current: usize = team;
            let mut slot: usize = 0;
            while slot < slots
                invariant
                    m == rows_view(*matrix),
                    s == rows_view(*rows),
                    n == team_count(s),
                    n <= 0x8000_0000,
                    big == 0x8000_0000,
                    slots == rows@.len(),
                    covers(m, n as int),
                    well_formed(s, n as int),
                    team < n,
                    slot <= slots,
                    current == location_before(s, team as int, slot as int),
                    current < n,
                    total == total_travel(m, s, team as int) + team_travel(m, s, team as int, slot as int),
                    -((team * slots + slot) * big) <= total <= (team * slots + slot) * big,
                decreases slots - slot,
            {
                assert(s[slot as int] == rows@[slot as int]@);
                let g = rows[slot][team];
                let next = if g.home_game {
                    team
                } else {
                    g.opponent as usize
                };
                assert(m[current as int] == matrix@[current as int]@);
                let step = matrix[current][next];
                proof {
                    lemma_travel_bound(team as int, slot as int, slots as int, n as int);
                }
                total = total + step as i128;
                current = next;
                slot += 1;
            }
            proof {
                assert(team * slots + slots == (team + 1) * slots) by (nonlinear_arith);
            }
            team += 1;
        }
        total
    }

    /// The total travel of each of `solutions`, in order.
    pub fn generate_distances(
        solutions: Vec<Solution>,
        data: &Rawdata,
        traveling_distance_matrix: &Vec<Vec<i32>>,
    ) -> (r: Vec<i128>)
        requires
            is_square(rows_view(*traveling_distance_matrix), data.teams@.len() as int),
            data.teams@.len() <= 0x8000_0000,
            forall|k: int| 0 <= k < solutions@.len() ==> well_formed(#[trigger] solutions@[k].games(), data.teams@.len() as int),
        ensures
            r@.len() == solutions@.len(),
            forall|k: int| 0 <= k < solutions@.len() ==> #[trigger] r@[k] == total_travel(
                rows_view(*traveling_distance_matrix),
                solutions@[k].games(),
                data.teams@.len() as int,
            ),
    {
        let mut all_distances: Vec<i128> = Vec::new();
        let mut k: usize = 0;
        while k < solutions.len()
            invariant
                is_square(rows_view(*traveling_distance_matrix), data.teams@.len() as int),
                data.teams@.len() <= 0x8000_0000,
                forall|x: int| 0 <= x < solutions@.len() ==> well_formed(#[trigger] solutions@[x].games(), data.teams@.len() as int),
                k <= solutions@.len(),
                all_distances@.len() == k,
                forall|x: int| 0 <= x < k ==> #[trigger] all_distances@[x] == total_travel(
                    rows_view(*traveling_distance_matrix),
                    solutions@[x].games(),
                    data.teams@.len() as int,
                ),
            decreases solutions@.len() - k,
        {
            proof {
                lemma_square_covers(rows_view(*traveling_distance_matrix), solutions@[k as int].games(), data.teams@.len() as int);
            }
            let distance = Self::evaluate_objective(traveling_distance_matrix, &solutions[k]);
            all_distances.push(distance);
            k += 1;
        }
        all_distances
    }

    /// The total travel of `solution_matrix` together with its constraint
    /// scores: `(distance, capacity violations, separation violations,
    /// round-robin respected)`.
    pub fn evaluate_solution(
        data: &Rawdata,
        traveling_distance_matrix: &Vec<Vec<i32>>,
        solution_matrix: &Solution,
    ) -> (r: (i128, u64, u64, bool))
        requires
            is_square(rows_view(*traveling_distance_matrix), data.teams@.len() as int),
            data.teams@.len() <= 0x8000_0000,
            well_formed(solution_matrix.games(), data.teams@.len() as int),
            counts_fit(*data, solution_matrix.solution@.len() as int),
            solution_matrix.solution@.len() < usize::MAX,
        ensures
            r.0 == total_travel(
                rows_view(*traveling_distance_matrix),
                solution_matrix.games(),
                data.teams@.len() as int,
            ),
            r.1 == capacity_violations(
                solution_matrix.games(),
                data.teams@.len() as int,
                data.capacity_constraints@,
                data.capacity_constraints@.len() as int,
            ),
            r.2 == separation_violations(
                solution_matrix.games(),
                data.teams@.len() as int,
                data.separation_constraints@,
                data.separation_constraints@.len() as int,
            ),
            r.3 == round_robin_respected(solution_matrix.games(), data.teams@.len() as int),
    {
        let (capacity, separation, respected) = Self::check_constraints(data, solution_matrix);
        proof {
            lemma_square_covers(rows_view(*traveling_distance_matrix), solution_matrix.games(), data.teams@.len() as int);
        }
        let distance = Self::evaluate_objective(traveling_distance_matrix, solution_matrix);
        (distance, capacity, separation, respected)
    }
}

} // verus!
