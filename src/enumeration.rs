//! Enumeration of schedules over orderings, directions and anchors.

use vstd::prelude::*;
use crate::construction::{florian_schedule, generate_solution, is_ordering, lemma_florian_well_formed, valid_input};
use crate::data_set::Rawdata;
use crate::objective::{is_square, lemma_square_covers, total_travel};
use crate::solution::{Solution, has_repeated_solution, rows_view, same_solution};

verus! {

/// Place, in the enumeration, of the schedule built from ordering `p`, with
/// direction `d` (`0` upward, `1` downward) and anchor position `f`, for `n`
/// teams.
pub open spec fn unit_index(n: int, p: int, d: int, f: int) -> int {
    (2 * p + d) * n + f
}

/// The inputs the enumeration accepts: an even number of teams, at least
/// two, a square matrix over them, orderings that each list every team
/// once, and few enough schedules for their identifiers to fit in `i32`.
pub open spec fn enumeration_input(data: Rawdata, matrix: Seq<Seq<i32>>, orderings: Seq<Vec<i32>>) -> bool {
    let n = data.teams@.len() as int;
    &&& n >= 2
    &&& n % 2 == 0
    &&& is_square(matrix, n)
    &&& forall|p: int| 0 <= p < orderings.len() ==> is_ordering(#[trigger] orderings[p]@, n)
    &&& 2 * n * orderings.len() <= i32::MAX
}

/// The schedule of ordering `p`, direction `d` and anchor `f` stands at its
/// place in `sols` under the identifier one above that place, and `dists`
/// holds its total travel at the same place.
pub open spec fn unit_done(
    sols: Seq<Solution>,
    dists: Seq<i128>,
    m: Seq<Seq<i32>>,
    orderings: Seq<Vec<i32>>,
    n: int,
    p: int,
    d: int,
    f: int,
) -> bool {
    let k = unit_index(n, p, d, f);
    &&& 0 <= k < sols.len()
    &&& k < dists.len()
    &&& sols[k].id == k + 1
    &&& sols[k].games() == florian_schedule(orderings[p]@, f, d == 0)
    &&& dists[k] == total_travel(m, sols[k].games(), n)
}

impl Solution {
    /// Builds and scores every schedule of the enumeration: for each ordering,
    /// for the upward then the downward direction, for each anchor position,
    /// one schedule by the circle method, with identifiers `1, 2, ...` in that
    /// order. Returns the schedules and their total travel, in the same order.
    pub fn generate_all_solutions(
        data: &Rawdata,
        traveling_distance_matrix: &Vec<Vec<i32>>,
        permutation: Vec<Vec<i32>>,
    ) -> (r: (Vec<Solution>, Vec<i128>))
        requires
            enumeration_input(*data, rows_view(*traveling_distance_matrix), permutation@),
        ensures
            r.0@.len() == 2 * data.teams@.len() * permutation@.len(),
            r.1@.len() == r.0@.len(),
            forall|k: int| 0 <= k < r.0@.len() ==> #[trigger] r.0@[k].id == k + 1,
            !has_repeated_solution(r.0@),
            forall|p: int, d: int, f: int|
                0 <= p < permutation@.len() && 0 <= d < 2 && 0 <= f < data.teams@.len() ==> #[trigger] unit_done(
                    r.0@,
                    r.1@,
                    rows_view(*traveling_distance_matrix),
                    permutation@,
                    data.teams@.len() as int,
                    p,
                    d,
                    f,
                ),
    {
        let ghost m = rows_view(*traveling_distance_matrix);
        let ghost orderings = permutation@;
        let n = data.teams.len();
        let mut solutions: Vec<Solution> = Vec::new();
        let mut all_distances: Vec<i128> = Vec::new();
        let mut id_solution: i32 = 0;
        let mut p: usize = 0;
        while p < permutation.len()
            invariant
                enumeration_input(*data, m, orderings),
                m == rows_view(*traveling_distance_matrix),
                orderings == permutation@,
                n == data.teams@.len(),
                p <= orderings.len(),
                id_solution == 2 * n * p,
                solutions@.len() == id_solution,
                all_distances@.len() == id_solution,
                forall|k: int| 0 <= k < id_solution ==> #[trigger] solutions@[k].id == k + 1,
                forall|q: int, d: int, f: int|
                    0 <= q < p && 0 <= d < 2 && 0 <= f < n ==> #[trigger] unit_done(solutions@, all_distances@, m, orderings, n as int, q, d, f),
            decreases orderings.len() - p,
        {
            let ordering = &permutation[p];
            let mut d: usize = 0;
            while d < 2
                invariant
                    enumeration_input(*data, m, orderings),
                    m == rows_view(*traveling_distance_matrix),
                    orderings == permutation@,
                    n == data.teams@.len(),
                    p < orderings.len(),
                    *ordering == orderings[p as int],
                    d <= 2,
                    id_solution == 2 * n * p + d * n,
                    solutions@.len() == id_solution,
                    all_distances@.len() == id_solution,
                    forall|k: int| 0 <= k < id_solution ==> #[trigger] solutions@[k].id == k + 1,
                    forall|q: int, e: int, f: int|
                        (0 <= q < p && 0 <= e < 2 || q == p && 0 <= e < d) && 0 <= f < n ==> #[trigger] unit_done(solutions@, all_distances@, m, orderings, n as int, q, e, f),
                decreases 2 - d,
            {
                let upward = d == 0;
                let mut fixed_team: usize = 0;
                while fixed_team < n
                    invariant
                        enumeration_input(*data, m, orderings),
                        m == rows_view(*traveling_distance_matrix),
                        orderings == permutation@,
                        n == data.teams@.len(),
                        p < orderings.len(),
                        *ordering == orderings[p as int],
                        d < 2,
                        upward == (d == 0),
                        fixed_team <= n,
                        id_solution == 2 * n * p + d * n + fixed_team,
                        solutions@.len() == id_solution,
                        all_distances@.len() == id_solution,
                        forall|k: int| 0 <= k < id_solution ==> #[trigger] solutions@[k].id == k + 1,
                        forall|q: int, e: int, f: int|
                            (0 <= q < p && 0 <= e < 2 || q == p && 0 <= e < d || q == p && e == d && f < fixed_team)
                                && 0 <= f < n ==> #[trigger] unit_done(solutions@, all_distances@, m, orderings, n as int, q, e, f),
                    decreases n - fixed_team,
                {
                    proof {
                        assert(is_ordering(orderings[p as int]@, n as int));
                        assert(valid_input(ordering@, fixed_team as int));
                        lemma_florian_well_formed(ordering@, fixed_team as int, upward);
                        assert(2 * n * p + d * n + fixed_team < 2 * n * orderings.len()) by (nonlinear_arith)
                            requires p < orderings.len(), d < 2, fixed_team < n;
                        assert(n <= 2 * n * orderings.len()) by (nonlinear_arith)
                            requires p < orderings.len(), 0 <= n;
                    }
                    let ghost old_solutions = solutions@;
                    let ghost old_distances = all_distances@;
                    id_solution = id_solution + 1;
                    let solution = generate_solution(ordering, fixed_team, upward, id_solution);
                    proof {
                        lemma_square_covers(m, solution.games(), n as int);
                    }
                    let distance = Solution::evaluate_objective(traveling_distance_matrix, &solution);
                    solutions.push(solution);
                    all_distances.push(distance);
                    proof {
                        assert(unit_index(n as int, p as int, d as int, fixed_team as int) == id_solution - 1) by (nonlinear_arith)
                            requires id_solution == 2 * n * p + d * n + fixed_team + 1;
                        assert forall|q: int, e: int, f: int|
                            (0 <= q < p && 0 <= e < 2 || q == p && 0 <= e < d || q == p && e == d && f < fixed_team + 1)
                                && 0 <= f < n implies #[trigger] unit_done(
                            solutions@,
                            all_distances@,
                            m,
                            orderings,
                            n as int,
                            q,
                            e,
                            f,
                        ) by {
                            if !(q == p && e == d && f == fixed_team) {
                                assert(unit_done(old_solutions, old_distances, m, orderings, n as int, q, e, f));
                            }
                        }
                    }
                    fixed_team += 1;
                }
                proof {
                    assert(2 * n * p + d * n + n == 2 * n * p + (d + 1) * n) by (nonlinear_arith);
                }
                d += 1;
            }
            proof {
                assert(2 * n * p + 2 * n == 2 * n * (p + 1)) by (nonlinear_arith);
            }
            p += 1;
        }
        assert(!has_repeated_solution(solutions@)) by {
            assert forall|i: int, j: int| 0 <= i < j < solutions@.len() implies !#[trigger] same_solution(
                solutions@[i],
                solutions@[j],
            ) by {
                assert(solutions@[i].id == i + 1);
                assert(solutions@[j].id == j + 1);
            }
        }
        (solutions, all_distances)
    }
}

} // verus!
