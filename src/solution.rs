//! Schedules and the games they are made of.

use vstd::prelude::*;
use crate::data_set::Rawdata;

verus! {

/// One cell of a schedule: where a team plays and against whom.
#[derive(Clone, Copy, Debug, PartialEq, Eq, Structural, Hash)]
pub struct Game {
    /// `true` when the team plays at its own venue.
    pub home_game: bool,
    /// Identifier of the opponent, or `-1` while unassigned.
    pub opponent: i32,
}

/// Orderings of team identifiers drawn from a seed, with the instance they belong to.
#[derive(Clone, Debug)]
pub struct Permutations {
    /// Seed the orderings were drawn from.
    pub seed: u64,
    /// Name of the instance.
    pub instance_name: String,
    /// The orderings.
    pub permutations: Vec<Vec<i32>>,
}

/// A schedule: `solution[slot][team]` is the game of `team` in `slot`.
#[derive(Clone, Debug, PartialEq, Eq, Hash)]
pub struct Solution {
    /// Identifier of the schedule.
    pub id: i32,
    /// The slots x teams matrix of games.
    pub solution: Vec<Vec<Game>>,
}

/// The game of an unassigned cell.
pub open spec fn placeholder() -> Game {
    Game { home_game: false, opponent: -1i32 }
}

/// The rows of a matrix as sequences.
pub open spec fn rows_view<T>(m: Vec<Vec<T>>) -> Seq<Seq<T>> {
    m@.map_values(|row: Vec<T>| row@)
}

/// `sols` is in ascending order of identifier.
pub open spec fn sorted_by_id(sols: Seq<Solution>) -> bool {
    forall|i: int, j: int| 0 <= i < j < sols.len() ==> #[trigger] sols[i].id <= #[trigger] sols[j].id
}

/// The two schedules have the same identifier and the same games.
pub open spec fn same_solution(a: Solution, b: Solution) -> bool {
    a.id == b.id && a.games() == b.games()
}

/// Some two entries of `sols`, at distinct places, are the same schedule.
pub open spec fn has_repeated_solution(sols: Seq<Solution>) -> bool {
    exists|i: int, j: int| 0 <= i < j < sols.len() && #[trigger] same_solution(sols[i], sols[j])
}

/// Whether the two matrices of games are equal.
fn same_games(a: &Vec<Vec<Game>>, b: &Vec<Vec<Game>>) -> (r: bool)
    ensures
        r == (rows_view(*a) == rows_view(*b)),
{
    if a.len() != b.len() {
        assert(rows_view(*a).len() != rows_view(*b).len());
        return false;
    }
    let mut k: usize = 0;
    while k < a.len()
        invariant
            a@.len() == b@.len(),
            k <= a@.len(),
            forall|x: int| 0 <= x < k ==> #[trigger] a@[x]@ == b@[x]@,
        decreases a@.len() - k,
    {
        let ra = &a[k];
        let rb = &b[k];
        if ra.len() != rb.len() {
            assert(rows_view(*a)[k as int] != rows_view(*b)[k as int]);
            return false;
        }
        let mut j: usize = 0;
        while j < ra.len()
            invariant
                a@.len() == b@.len(),
                k < a@.len(),
                ra@ == a@[k as int]@,
                rb@ == b@[k as int]@,
                ra@.len() == rb@.len(),
                j <= ra@.len(),
                forall|y: int| 0 <= y < j ==> #[trigger] ra@[y] == rb@[y],
            decreases ra@.len() - j,
        {
            if ra[j] != rb[j] {
                assert(rows_view(*a)[k as int][j as int] != rows_view(*b)[k as int][j as int]);
                return false;
            }
            j += 1;
        }
        assert(ra@ =~= rb@);
        k += 1;
    }
    assert(rows_view(*a) =~= rows_view(*b));
    true
}

impl Solution {
    /// The games of the schedule, slot by slot.
    pub open spec fn games(self) -> Seq<Seq<Game>> {
        rows_view(self.solution)
    }

    /// An unfilled schedule for `data`: one row per slot, one placeholder
    /// game per team, and identifier `-1`.
    pub fn new(data: &Rawdata) -> (r: Solution)
        ensures
            r.id == -1,
            r.games() == Seq::new(
                data.slots@.len(),
                |k: int| Seq::new(data.teams@.len(), |t: int| placeholder()),
            ),
    {
        let n = data.teams.len();
        let slots = data.slots.len();
        let ghost row_spec = Seq::new(n as nat, |t: int| placeholder());
        let mut rows: Vec<Vec<Game>> = Vec::new();
        let mut k: usize = 0;
        while k < slots
            invariant
                k <= slots,
                row_spec == Seq::new(n as nat, |u: int| placeholder()),
                rows@.len() == k,
                forall|x: int| 0 <= x < k ==> #[trigger] rows@[x]@ == row_spec,
            decreases slots - k,
        {
            let mut row: Vec<Game> = Vec::new();
            let mut t: usize = 0;
            while t < n
                invariant
                    k < slots,
                    rows@.len() == k,
                    row_spec == Seq::new(n as nat, |u: int| placeholder()),
                    forall|x: int| 0 <= x < k ==> #[trigger] rows@[x]@ == row_spec,
                    t <= n,
                    row@ == Seq::new(t as nat, |u: int| placeholder()),
                decreases n - t,
            {
                row.push(Game { home_game: false, opponent: -1 });
                t += 1;
                assert(row@ =~= Seq::new(t as nat, |u: int| placeholder()));
            }
            rows.push(row);
            k += 1;
        }
        let r = Solution { id: -1, solution: rows };
        assert(r.games() =~= Seq::new(
            data.slots@.len(),
            |k: int| Seq::new(data.teams@.len(), |t: int| placeholder()),
        ));
        r
    }

    /// The schedules of `solutions`, each kept as it is, in ascending order of
    /// identifier.
    pub fn sort_by_id(solutions: Vec<Solution>) -> (r: Vec<Solution>)
        ensures
            r@.to_multiset() == solutions@.to_multiset(),
            sorted_by_id(r@),
    {
        broadcast use vstd::seq_lib::group_to_multiset_ensures;

        let ghost all = solutions@.to_multiset();
        let mut rest = solutions;
        let mut out: Vec<Solution> = Vec::new();
        assert(out@.to_multiset().add(rest@.to_multiset()) =~= all);
        while rest.len() > 0
            invariant
                out@.to_multiset().add(rest@.to_multiset()) == all,
                sorted_by_id(out@),
                forall|i: int, j: int| 0 <= i < out@.len() && 0 <= j < rest@.len() ==> #[trigger] out@[i].id
                    <= #[trigger] rest@[j].id,
            decreases rest@.len(),
        {
            let mut best: usize = 0;
            let mut k: usize = 1;
            while k < rest.len()
                invariant
                    0 < rest@.len(),
                    best < rest@.len(),
                    k <= rest@.len(),
                    forall|j: int| 0 <= j < k ==> rest@[best as int].id <= #[trigger] rest@[j].id,
                decreases rest@.len() - k,
            {
                if rest[k].id < rest[best].id {
                    best = k;
                }
                k += 1;
            }
            let ghost before = rest@;
            let ghost out_before = out@;
            let chosen = rest.remove(best);
            proof {
                assert(chosen == before[best as int]);
                assert(rest@ == before.remove(best as int));
                before.to_multiset_ensures();
                assert(before.contains(chosen));
                assert(before.to_multiset().count(chosen) > 0);
            }
            out.push(chosen);
            proof {
                assert(out@ == out_before.push(chosen));
                out_before.to_multiset_ensures();
            }
            assert(out@.to_multiset() =~= out_before.to_multiset().insert(chosen));
            assert(out@.to_multiset().add(rest@.to_multiset()) =~= all);
            assert forall|i: int, j: int| 0 <= i < out@.len() && 0 <= j < rest@.len() implies #[trigger] out@[i].id
                <= #[trigger] rest@[j].id by {
                let jj = if j < best { j } else { j + 1 };
                assert(rest@[j] == before[jj]);
                if i < out_before.len() {
                    assert(out@[i] == out_before[i]);
                }
            }
            assert forall|i: int, j: int| 0 <= i < j < out@.len() implies #[trigger] out@[i].id <= #[trigger] out@[j].id by {
                if j == out_before.len() {
                    assert(out@[i] == out_before[i]);
                    assert(out_before[i].id <= before[best as int].id);
                } else {
                    assert(out@[i] == out_before[i]);
                    assert(out@[j] == out_before[j]);
                }
            }
        }
        assert(rest@.to_multiset() =~= vstd::multiset::Multiset::empty());
        assert(out@.to_multiset() =~= all);
        out
    }

    /// Whether two of `solutions` are the same schedule: equal identifiers
    /// and equal matrices of games.
    pub fn has_duplicate_solutions(solutions: &Vec<Solution>) -> (r: bool)
        ensures
            r == has_repeated_solution(solutions@),
    {
        let len = solutions.len();
        let mut i: usize = 0;
        while i < len
            invariant
                len == solutions@.len(),
                i <= len,
                forall|x: int, y: int| 0 <= x < i && x < y < len ==> !#[trigger] same_solution(solutions@[x], solutions@[y]),
            decreases len - i,
        {
            let mut j: usize = i + 1;
            while j < len
                invariant
                    len == solutions@.len(),
                    i < len,
                    i + 1 <= j <= len,
                    forall|x: int, y: int| 0 <= x < i && x < y < len ==> !#[trigger] same_solution(solutions@[x], solutions@[y]),
                    forall|y: int| i < y < j ==> !#[trigger] same_solution(solutions@[i as int], solutions@[y]),
                decreases len - j,
            {
                if solutions[i].id == solutions[j].id && same_games(&solutions[i].solution, &solutions[j].solution) {
                    assert(same_solution(solutions@[i as int], solutions@[j as int]));
                    return true;
                }
                j += 1;
            }
            i += 1;
        }
        false
    }
}

} // verus!
