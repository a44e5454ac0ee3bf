//! Scoring a schedule against capacity, separation and round-robin
//! constraints.

use vstd::prelude::*;
use crate::data_set::{CapacityConstraints, Rawdata, SeparationConstraints};
use crate::solution::{Game, Solution, rows_view};

verus! {

/// Every slot of `s` holds one game for each of `n` teams, against an
/// opponent of `0..n`.
pub open spec fn well_formed(s: Seq<Seq<Game>>, n: int) -> bool {
    &&& forall|k: int| 0 <= k < s.len() ==> #[trigger] s[k].len() == n
    &&& forall|k: int, t: int| 0 <= k < s.len() && 0 <= t < n ==> 0 <= #[trigger] s[k][t].opponent < n
}

/// Whether the game `g` counts for a capacity constraint of mode `mode`:
/// `'H'` counts home games, `'A'` away games, any other mode nothing.
pub open spec fn counted(mode: char, g: Game) -> bool {
    if mode == 'H' {
        g.home_game
    } else if mode == 'A' {
        !g.home_game
    } else {
        false
    }
}

/// Number of the `len` slots from `start` on in which team `t` has a game
/// that counts for `mode`.
pub open spec fn window_count(s: Seq<Seq<Game>>, t: int, mode: char, start: int, len: int) -> nat
    decreases len,
{
    if len <= 0 {
        0
    } else {
        window_count(s, t, mode, start, len - 1) + if counted(mode, s[start + len - 1][t]) {
            1nat
        } else {
            0nat
        }
    }
}

/// Number of windows of `intp` consecutive slots inside `slots` slots.
pub open spec fn num_windows(slots: int, intp: int) -> int {
    if 0 <= intp <= slots {
        slots - intp + 1
    } else {
        0
    }
}

/// The window of team `t` that starts at slot `w` breaks the constraint `c`.
pub open spec fn window_violated(s: Seq<Seq<Game>>, t: int, c: CapacityConstraints, w: int) -> bool {
    let k = window_count(s, t, c.c_mode1, w, c.c_intp as int);
    k < c.c_min || k > c.c_max
}

/// Number of violated windows of team `t` among the first `w` windows.
pub open spec fn team_capacity(s: Seq<Seq<Game>>, t: int, c: CapacityConstraints, w: int) -> nat
    decreases w,
{
    if w <= 0 {
        0
    } else {
        team_capacity(s, t, c, w - 1) + if window_violated(s, t, c, w - 1) {
            1nat
        } else {
            0nat
        }
    }
}

/// Number of violated windows of the constraint `c` over the first `t` teams.
pub open spec fn constraint_capacity(s: Seq<Seq<Game>>, c: CapacityConstraints, t: int) -> nat
    decreases t,
{
    if t <= 0 {
        0
    } else {
        constraint_capacity(s, c, t - 1) + team_capacity(s, t - 1, c, num_windows(s.len() as int, c.c_intp as int))
    }
}

/// Number of violated windows over the first `i` capacity constraints and
/// `n` teams.
pub open spec fn capacity_violations(s: Seq<Seq<Game>>, n: int, cs: Seq<CapacityConstraints>, i: int) -> nat
    decreases i,
{
    if i <= 0 {
        0
    } else {
        capacity_violations(s, n, cs, i - 1) + constraint_capacity(s, cs[i - 1], n)
    }
}

/// The last slot before `k` in which team `t` met `o`, or `-1`.
pub open spec fn last_meeting(s: Seq<Seq<Game>>, t: int, k: int, o: int) -> int
    decreases k,
{
    if k <= 0 {
        -1
    } else if s[k - 1][t].opponent as int == o {
        k - 1
    } else {
        last_meeting(s, t, k - 1, o)
    }
}

/// In slot `k` team `t` meets an opponent again after a gap `g` with
/// `g <= c_min` or `g > c_max`.
pub open spec fn separation_violated(s: Seq<Seq<Game>>, t: int, k: int, c: SeparationConstraints) -> bool {
    let j = last_meeting(s, t, k, s[k][t].opponent as int);
    j >= 0 && (k - j <= c.c_min || k - j > c.c_max)
}

/// Number of separation violations of team `t` in the first `k` slots.
pub open spec fn team_separation(s: Seq<Seq<Game>>, t: int, c: SeparationConstraints, k: int) -> nat
    decreases k,
{
    if k <= 0 {
        0
    } else {
        team_separation(s, t, c, k - 1) + if separation_violated(s, t, k - 1, c) {
            1nat
        } else {
            0nat
        }
    }
}

/// Number of separation violations of the constraint `c` over the first `t` teams.
pub open spec fn constraint_separation(s: Seq<Seq<Game>>, c: SeparationConstraints, t: int) -> nat
    decreases t,
{
    if t <= 0 {
        0
    } else {
        constraint_separation(s, c, t - 1) + team_separation(s, t - 1, c, s.len() as int)
    }
}

/// Number of separation violations over the first `i` constraints and `n` teams.
pub open spec fn separation_violations(s: Seq<Seq<Game>>, n: int, cs: Seq<SeparationConstraints>, i: int) -> nat
    decreases i,
{
    if i <= 0 {
        0
    } else {
        separation_violations(s, n, cs, i - 1) + constraint_separation(s, cs[i - 1], n)
    }
}

/// Teams `a` and `b` play each other in slot `k`.
pub open spec fn paired_in(s: Seq<Seq<Game>>, k: int, a: int, b: int) -> bool {
    s[k][a].opponent as int == b || s[k][b].opponent as int == a
}

/// Number of the first `k` slots in which `a` and `b` play each other.
pub open spec fn meeting_count(s: Seq<Seq<Game>>, a: int, b: int, k: int) -> nat
    decreases k,
{
    if k <= 0 {
        0
    } else {
        meeting_count(s, a, b, k - 1) + if paired_in(s, k - 1, a, b) {
            1nat
        } else {
            0nat
        }
    }
}

/// No two distinct teams of `0..n` meet in more than four slots.
pub open spec fn round_robin_respected(s: Seq<Seq<Game>>, n: int) -> bool {
    forall|a: int, b: int| 0 <= a < b < n ==> #[trigger] meeting_count(s, a, b, s.len() as int) <= 4
}

/// The violation counts of `data`'s constraints fit in 64 bits.
pub open spec fn counts_fit(data: Rawdata, slots: int) -> bool {
    (data.capacity_constraints@.len() + data.separation_constraints@.len()) * data.teams@.len() * (slots + 1)
        <= u64::MAX
}

/// A window never counts more games than it has slots.
proof fn lemma_window_count_bound(s: Seq<Seq<Game>>, t: int, mode: char, start: int, len: int)
    ensures
        window_count(s, t, mode, start, len) <= if len > 0 { len } else { 0 },
    decreases len,
{
    if len > 0 {
        lemma_window_count_bound(s, t, mode, start, len - 1);
    }
}

/// A capacity constraint that admits every count from zero to the window
/// length is never violated.
pub proof fn lemma_loose_capacity_holds(s: Seq<Seq<Game>>, n: int, cs: Seq<CapacityConstraints>)
    requires
        forall|i: int| 0 <= i < cs.len() ==> (#[trigger] cs[i]).c_min <= 0 && cs[i].c_max >= cs[i].c_intp,
    ensures
        capacity_violations(s, n, cs, cs.len() as int) == 0,
{
    lemma_loose_capacity_prefix(s, n, cs, cs.len() as int);
}

proof fn lemma_loose_capacity_prefix(s: Seq<Seq<Game>>, n: int, cs: Seq<CapacityConstraints>, i: int)
    requires
        i <= cs.len(),
        forall|x: int| 0 <= x < cs.len() ==> (#[trigger] cs[x]).c_min <= 0 && cs[x].c_max >= cs[x].c_intp,
    ensures
        capacity_violations(s, n, cs, i) == 0,
    decreases i,
{
    if i > 0 {
        lemma_loose_capacity_prefix(s, n, cs, i - 1);
        let c = cs[i - 1];
        lemma_loose_constraint(s, c, n);
    }
}

proof fn lemma_loose_constraint(s: Seq<Seq<Game>>, c: CapacityConstraints, t: int)
    requires
        c.c_min <= 0,
        c.c_max >= c.c_intp,
    ensures
        constraint_capacity(s, c, t) == 0,
    decreases t,
{
    if t > 0 {
        lemma_loose_constraint(s, c, t - 1);
        lemma_loose_team(s, t - 1, c, num_windows(s.len() as int, c.c_intp as int));
    }
}

proof fn lemma_loose_team(s: Seq<Seq<Game>>, t: int, c: CapacityConstraints, w: int)
    requires
        w <= 0 || c.c_intp >= 0,
        c.c_min <= 0,
        c.c_max >= c.c_intp,
    ensures
        team_capacity(s, t, c, w) == 0,
    decreases w,
{
    if w > 0 {
        lemma_loose_team(s, t, c, w - 1);
        lemma_window_count_bound(s, t, c.c_mode1, w - 1, c.c_intp as int);
    }
}

/// `j` as an optional slot: `None` when negative.
pub open spec fn slot_option(j: int) -> Option<usize> {
    if j >= 0 {
        Some(j as usize)
    } else {
        None
    }
}

/// The last meeting before slot `k` lies in `-1..k`.
proof fn lemma_last_meeting_range(s: Seq<Seq<Game>>, t: int, k: int, o: int)
    requires
        k >= 0,
    ensures
        -1 <= last_meeting(s, t, k, o) < k,
    decreases k,
{
    if k > 0 {
        lemma_last_meeting_range(s, t, k - 1, o);
    }
}

/// A partial sum of `c` counts, each at most `w`, stays under the bound of
/// all of them.
proof fn lemma_count_bound(i: int, t: int, c: int, n: int, w: int)
    requires
        0 <= i < c,
        0 <= t < n,
        0 <= w,
    ensures
        (i * n + t) * w + w <= c * n * w,
        (i * n + t + 1) * w == (i * n + t) * w + w,
{
    assert((i + 1) * n == i * n + n) by (nonlinear_arith);
    assert((i + 1) * n <= c * n) by (nonlinear_arith)
        requires i + 1 <= c, 0 <= n;
    assert((i * n + t + 1) * w <= (i + 1) * n * w) by (nonlinear_arith)
        requires i * n + t + 1 <= (i + 1) * n, 0 <= w;
    assert((i + 1) * n * w <= c * n * w) by (nonlinear_arith)
        requires (i + 1) * n <= c * n, 0 <= w;
    assert((i * n + t + 1) * w == (i * n + t) * w + w) by (nonlinear_arith);
}

/// Number of slots from `start` on, among `len`, in which `team` has a game
/// that counts for `mode`.
fn window_count_exec(rows: &Vec<Vec<Game>>, n: usize, team: usize, mode: char, start: usize, len: usize) -> (c: usize)
    requires
        well_formed(rows_view(*rows), n as int),
        team < n,
        start + len <= rows@.len(),
    ensures
        c == window_count(rows_view(*rows), team as int, mode, start as int, len as int),
        c <= len,
{
    let ghost s = rows_view(*rows);
    let slots = rows.len();
    let mut c: usize = 0;
    let mut j: usize = 0;
    while j < len
        invariant
            slots == rows@.len(),
            j <= len,
            start + len <= rows@.len(),
            s == rows_view(*rows),
            well_formed(s, n as int),
            team < n,
            c == window_count(s, team as int, mode, start as int, j as int),
            c <= j,
        decreases len - j,
    {
        assert(start + j < rows@.len());
        let idx = start + j;
        assert(s[idx as int] == rows@[idx as int]@);
        let g = rows[idx][team];
        let hit = if mode == 'H' {
            g.home_game
        } else if mode == 'A' {
            !g.home_game
        } else {
            false
        };
        if hit {
            c += 1;
        }
        j += 1;
    }
    c
}

/// Number of violated windows of `team` under the capacity constraint `c`.
fn team_capacity_exec(rows: &Vec<Vec<Game>>, n: usize, team: usize, c: &CapacityConstraints) -> (v: usize)
    requires
        well_formed(rows_view(*rows), n as int),
        team < n,
        rows@.len() < usize::MAX,
    ensures
        v == team_capacity(rows_view(*rows), team as int, *c, num_windows(rows@.len() as int, c.c_intp as int)),
        v <= rows@.len() + 1,
{
    let ghost s = rows_view(*rows);
    let slots = rows.len();
    if c.c_intp < 0 || c.c_intp as usize > slots {
        return 0;
    }
    let intp = c.c_intp as usize;
    let last = slots - intp;
    let mut v: usize = 0;
    let mut w: usize = 0;
    loop
        invariant
            s == rows_view(*rows),
            well_formed(s, n as int),
            team < n,
            slots == rows@.len(),
            slots < usize::MAX,
            intp == c.c_intp,
            last == slots - intp,
            w <= last,
            v == team_capacity(s, team as int, *c, w as int),
            v <= w,
        decreases last - w,
    {
        let k = window_count_exec(rows, n, team, c.c_mode1, w, intp);
        if (k as i128) < (c.c_min as i128) || (k as i128) > (c.c_max as i128) {
            v += 1;
        }
        if w == last {
            return v;
        }
        w += 1;
    }
}

/// Number of separation violations of `team` under the constraint `c`.
fn team_separation_exec(rows: &Vec<Vec<Game>>, n: usize, team: usize, c: &SeparationConstraints) -> (v: usize)
    requires
        well_formed(rows_view(*rows), n as int),
        team < n,
    ensures
        v == team_separation(rows_view(*rows), team as int, *c, rows@.len() as int),
        v <= rows@.len(),
{
    let ghost s = rows_view(*rows);
    let mut last: Vec<Option<usize>> = Vec::new();
    let mut o: usize = 0;
    while o < n
        invariant
            o <= n,
            last@.len() == o,
            forall|p: int| 0 <= p < o ==> #[trigger] last@[p] == slot_option(last_meeting(s, team as int, 0, p)),
        decreases n - o,
    {
        last.push(None);
        o += 1;
    }
    let slots = rows.len();
    let mut v: usize = 0;
    let mut k: usize = 0;
    while k < slots
        invariant
            s == rows_view(*rows),
            well_formed(s, n as int),
            team < n,
            slots == rows@.len(),
            k <= slots,
            last@.len() == n,
            forall|p: int| 0 <= p < n ==> #[trigger] last@[p] == slot_option(last_meeting(s, team as int, k as int, p)),
            v == team_separation(s, team as int, *c, k as int),
            v <= k,
        decreases slots - k,
    {
        assert(s[k as int] == rows@[k as int]@);
        let opponent = rows[k][team].opponent;
        let ghost og = opponent as int;
        let ot = opponent as usize;
        proof {
            lemma_last_meeting_range(s, team as int, k as int, og);
        }
        match last[ot] {
            Some(j) => {
                let gap = k - j;
                if (gap as i128) <= (c.c_min as i128) || (gap as i128) > (c.c_max as i128) {
                    v += 1;
                }
            },
            None => {},
        }
        last.set(ot, Some(k));
        k += 1;
    }
    v
}

/// Number of slots in which teams `a` and `b` play each other.
fn meeting_count_exec(rows: &Vec<Vec<Game>>, n: usize, a: usize, b: usize) -> (c: usize)
    requires
        well_formed(rows_view(*rows), n as int),
        a < n,
        b < n,
    ensures
        c == meeting_count(rows_view(*rows), a as int, b as int, rows@.len() as int),
{
    let ghost s = rows_view(*rows);
    let mut c: usize = 0;
    let mut k: usize = 0;
    while k < rows.len()
        invariant
            s == rows_view(*rows),
            well_formed(s, n as int),
            a < n,
            b < n,
            k <= rows@.len(),
            c == meeting_count(s, a as int, b as int, k as int),
            c <= k,
        decreases rows@.len() - k,
    {
        assert(s[k as int] == rows@[k as int]@);
        if rows[k][a].opponent as usize == b || rows[k][b].opponent as usize == a {
            c += 1;
        }
        k += 1;
    }
    c
}

/// Whether no two distinct teams meet in more than four slots.
fn round_robin_exec(rows: &Vec<Vec<Game>>, n: usize) -> (ok: bool)
    requires
        well_formed(rows_view(*rows), n as int),
    ensures
        ok == round_robin_respected(rows_view(*rows), n as int),
{
    let ghost s = rows_view(*rows);
    let mut a: usize = 0;
    while a < n
        invariant
            s == rows_view(*rows),
            well_formed(s, n as int),
            a <= n,
            forall|x: int, y: int| 0 <= x < a && x < y < n ==> #[trigger] meeting_count(s, x, y, s.len() as int) <= 4,
        decreases n - a,
    {
        let mut b: usize = a + 1;
        while b < n
            invariant
                s == rows_view(*rows),
                well_formed(s, n as int),
                a < n,
                a + 1 <= b <= n,
                forall|x: int, y: int|
                    0 <= x < a && x < y < n ==> #[trigger] meeting_count(s, x, y, s.len() as int) <= 4,
                forall|y: int| a < y < b ==> #[trigger] meeting_count(s, a as int, y, s.len() as int) <= 4,
            decreases n - b,
        {
            if meeting_count_exec(rows, n, a, b) > 4 {
                assert(!(meeting_count(s, a as int, b as int, s.len() as int) <= 4));
                return false;
            }
            b += 1;
        }
        a += 1;
    }
    true
}

impl Solution {
    /// Scores `solution_matrix` against the constraints of `data`.
    ///
    /// Returns the number of capacity violations (one per team and window of
    /// `c_intp` consecutive slots whose count of counted games lies outside
    /// `[c_min, c_max]`; an interval longer than the schedule, or negative,
    /// has no window), the number of separation violations (one per
    /// meeting whose gap to the previous meeting of the same two teams is at
    /// most `c_min` or above `c_max`), and whether no two teams meet in more
    /// than four slots.
    pub fn check_constraints(data: &Rawdata, solution_matrix: &Solution) -> (r: (u64, u64, bool))
        requires
            well_formed(solution_matrix.games(), data.teams@.len() as int),
            counts_fit(*data, solution_matrix.solution@.len() as int),
            solution_matrix.solution@.len() < usize::MAX,
        ensures
            r.0 == capacity_violations(
                solution_matrix.games(),
                data.teams@.len() as int,
                data.capacity_constraints@,
                data.capacity_constraints@.len() as int,
            ),
            r.1 == separation_violations(
                solution_matrix.games(),
                data.teams@.len() as int,
                data.separation_constraints@,
                data.separation_constraints@.len() as int,
            ),
            r.2 == round_robin_respected(solution_matrix.games(), data.teams@.len() as int),
    {
        let ghost s = solution_matrix.games();
        let rows = &solution_matrix.solution;
        let n = data.teams.len();
        let slots = rows.len();
        let ghost w: int = slots + 1;
        let ghost total_c: int = (data.capacity_constraints@.len() + data.separation_constraints@.len()) as int;
        proof {
            assert(total_c * n * w <= u64::MAX);
        }

        let caps = &data.capacity_constraints;
        let mut capacity: u64 = 0;
        let mut i: usize = 0;
        while i < caps.len()
            invariant
                s == rows_view(*rows),
                well_formed(s, n as int),
                slots == rows@.len(),
                slots < usize::MAX,
                w == slots + 1,
                total_c >= caps@.len(),
                total_c * n * w <= u64::MAX,
                i <= caps@.len(),
                capacity == capacity_violations(s, n as int, caps@, i as int),
                capacity <= i * n * w,
            decreases caps@.len() - i,
        {
            let c = &caps[i];
            let mut t: usize = 0;
            while t < n
                invariant
                    s == rows_view(*rows),
                    well_formed(s, n as int),
                    slots == rows@.len(),
                    slots < usize::MAX,
                    w == slots + 1,
                    total_c >= caps@.len(),
                    total_c * n * w <= u64::MAX,
                    i < caps@.len(),
                    *c == caps@[i as int],
                    t <= n,
                    capacity == capacity_violations(s, n as int, caps@, i as int) + constraint_capacity(
                        s,
                        *c,
                        t as int,
                    ),
                    capacity <= (i * n + t) * w,
                decreases n - t,
            {
                let v = team_capacity_exec(rows, n, t, c);
                proof {
                    lemma_count_bound(i as int, t as int, total_c as int, n as int, w as int);
                }
                capacity = capacity + v as u64;
                t += 1;
            }
            proof {
                assert(i * n + n == (i + 1) * n) by (nonlinear_arith);
            }
            i += 1;
        }

        let seps = &data.separation_constraints;
        let mut separation: u64 = 0;
        let mut i: usize = 0;
        while i < seps.len()
            invariant
                s == rows_view(*rows),
                well_formed(s, n as int),
                slots == rows@.len(),
                w == slots + 1,
                total_c >= seps@.len(),
                total_c * n * w <= u64::MAX,
                i <= seps@.len(),
                separation == separation_violations(s, n as int, seps@, i as int),
                separation <= i * n * w,
            decreases seps@.len() - i,
        {
            let c = &seps[i];
            let mut t: usize = 0;
            while t < n
                invariant
                    s == rows_view(*rows),
                    well_formed(s, n as int),
                    slots == rows@.len(),
                    w == slots + 1,
                    total_c >= seps@.len(),
                    total_c * n * w <= u64::MAX,
                    i < seps@.len(),
                    *c == seps@[i as int],
                    t <= n,
                    separation == separation_violations(s, n as int, seps@, i as int) + constraint_separation(
                        s,
                        *c,
                        t as int,
                    ),
                    separation <= (i * n + t) * w,
                decreases n - t,
            {
                let v = team_separation_exec(rows, n, t, c);
                proof {
                    lemma_count_bound(i as int, t as int, total_c as int, n as int, w as int);
                }
                separation = separation + v as u64;
                t += 1;
            }
            proof {
                assert(i * n + n == (i + 1) * n) by (nonlinear_arith);
            }
            i += 1;
        }

        let respected = round_robin_exec(rows, n);
        (capacity, separation, respected)
    }
}

} // verus!
