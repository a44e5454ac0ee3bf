//! The circle method: one complete double round-robin schedule from an
//! ordering of the teams, an anchor position and a direction.

use vstd::prelude::*;
use vstd::arithmetic::div_mod::*;
use crate::data_set::{Rawdata, team_ids};
use crate::constraints::{meeting_count, paired_in, round_robin_respected, well_formed};
use crate::solution::{Game, Solution, rows_view};

verus! {

/// `ids` lists every team of `0..n` exactly once.
pub open spec fn is_ordering(ids: Seq<i32>, n: int) -> bool {
    &&& ids.len() == n
    &&& forall|i: int| 0 <= i < n ==> 0 <= #[trigger] ids[i] < n
    &&& forall|i: int, j: int| 0 <= i < j < n ==> ids[i] != ids[j]
    &&& forall|t: int| 0 <= t < n ==> #[trigger] lists(ids, t)
}

/// Some entry of `ids` is `t`.
pub open spec fn lists(ids: Seq<i32>, t: int) -> bool {
    exists|i: int| 0 <= i < ids.len() && ids[i] as int == t
}

/// The inputs the constructor accepts: an ordering of an even number of
/// teams, at least two, and an anchor position inside it.
pub open spec fn valid_input(ids: Seq<i32>, anchor: int) -> bool {
    &&& is_ordering(ids, ids.len() as int)
    &&& ids.len() >= 2
    &&& ids.len() % 2 == 0
    &&& 0 <= anchor < ids.len()
}

/// Position in `ids` of the entry that stands at `x` once the anchor entry
/// has been moved to the end.
pub open spec fn source(ids: Seq<i32>, anchor: int, x: int) -> int {
    if x < anchor {
        x
    } else if x < ids.len() - 1 {
        x + 1
    } else {
        anchor
    }
}

/// The team at position `p` in round `r`: the last position holds the
/// anchor team, the others hold the remaining teams rotated right `r` times.
pub open spec fn team_at(ids: Seq<i32>, anchor: int, r: int, p: int) -> i32 {
    let m = ids.len() - 1;
    if p < m {
        ids[source(ids, anchor, (p - r) % m)]
    } else {
        ids[anchor]
    }
}

/// Whether the first team of each pair plays at home in round `r`.
pub open spec fn home_first(r: int, upward: bool) -> bool {
    (r % 2 == 0) == upward
}

/// The game of the team at position `p` in round `r`: it meets the team at
/// the mirrored position `n - 1 - p`, and the lower position of the two is
/// at home exactly when `home_first(r, upward)`.
pub open spec fn game_at(ids: Seq<i32>, anchor: int, upward: bool, r: int, p: int) -> Game {
    let n = ids.len() as int;
    Game {
        home_game: (p < n / 2) == home_first(r, upward),
        opponent: team_at(ids, anchor, r, n - 1 - p),
    }
}

/// Position in `ids` of the team `t`.
pub open spec fn index_of(ids: Seq<i32>, t: int) -> int {
    choose|i: int| 0 <= i < ids.len() && ids[i] as int == t
}

/// Place of the team `t` in the ordering once the anchor entry has been
/// moved to the end.
pub open spec fn rank(ids: Seq<i32>, anchor: int, t: int) -> int {
    let j = index_of(ids, t);
    if j == anchor {
        ids.len() - 1
    } else if j < anchor {
        j
    } else {
        j - 1
    }
}

/// Position of the team `t` in round `r`.
pub open spec fn position(ids: Seq<i32>, anchor: int, r: int, t: int) -> int {
    let m = ids.len() - 1;
    let x = rank(ids, anchor, t);
    if x == m {
        m
    } else {
        (x + r) % m
    }
}

/// The schedule that the circle method builds: `2 * (n - 1)` rounds of `n`
/// games each.
pub open spec fn florian_schedule(ids: Seq<i32>, anchor: int, upward: bool) -> Seq<Seq<Game>> {
    let n = ids.len() as int;
    Seq::new(
        (2 * (n - 1)) as nat,
        |r: int| Seq::new(n as nat, |t: int| game_at(ids, anchor, upward, r, position(ids, anchor, r, t))),
    )
}

/// A difference smaller than the modulus is a multiple of it only when zero.
proof fn lemma_small_multiple(d: int, m: int)
    requires
        0 < m,
        -m < d < m,
        d % m == 0,
    ensures
        d == 0,
{
    lemma_fundamental_div_mod(d, m);
    let q = d / m;
    assert(d == m * q);
    if q >= 1 {
        assert(m * q >= m) by (nonlinear_arith) requires q >= 1, m > 0;
    } else if q <= -1 {
        assert(m * q <= -m) by (nonlinear_arith) requires q <= -1, m > 0;
    } else {
        assert(m * q == 0) by (nonlinear_arith) requires q == 0;
    }
}

/// Two values in `0..m` with the same remainder are equal.
proof fn lemma_same_residue(x: int, y: int, m: int)
    requires
        0 < m,
        0 <= x < m,
        0 <= y < m,
        (x - y) % m == 0,
    ensures
        x == y,
{
    lemma_small_multiple(x - y, m);
}

/// `source` maps `0..n` one to one into `0..n`.
proof fn lemma_source(ids: Seq<i32>, anchor: int, x: int, y: int)
    requires
        0 <= anchor < ids.len(),
        0 <= x < ids.len(),
        0 <= y < ids.len(),
    ensures
        0 <= source(ids, anchor, x) < ids.len(),
        x < ids.len() - 1 ==> source(ids, anchor, x) != anchor,
        x != y ==> source(ids, anchor, x) != source(ids, anchor, y),
{
}

/// Within one round, every position holds a team of `0..n`, and no two
/// positions hold the same team.
proof fn lemma_team_at(ids: Seq<i32>, anchor: int, r: int, p: int, q: int)
    requires
        valid_input(ids, anchor),
        0 <= p < ids.len(),
        0 <= q < ids.len(),
    ensures
        0 <= team_at(ids, anchor, r, p) < ids.len(),
        p != q ==> team_at(ids, anchor, r, p) != team_at(ids, anchor, r, q),
{
    let m = ids.len() - 1;
    let x = (p - r) % m;
    let y = (q - r) % m;
    lemma_mod_bound(p - r, m);
    lemma_mod_bound(q - r, m);
    lemma_source(ids, anchor, x, y);
    lemma_source(ids, anchor, x, x);
    lemma_source(ids, anchor, y, y);
    let sp = if p < m { source(ids, anchor, x) } else { anchor };
    let sq = if q < m { source(ids, anchor, y) } else { anchor };
    assert(team_at(ids, anchor, r, p) == ids[sp]);
    assert(team_at(ids, anchor, r, q) == ids[sq]);
    if p != q {
        if p < m && q < m {
            if x == y {
                lemma_sub_mod_noop(p - r, q - r, m);
                lemma_mod_equivalence(p - r, q - r, m);
                lemma_same_residue(p, q, m);
            }
            assert(sp != sq);
        }
        assert(sp != sq);
        if sp < sq {
            assert(ids[sp] != ids[sq]);
        } else {
            assert(ids[sq] != ids[sp]);
        }
    }
}

/// Every team `t` stands at `position(ids, anchor, r, t)` in round `r`.
proof fn lemma_position(ids: Seq<i32>, anchor: int, r: int, t: int)
    requires
        valid_input(ids, anchor),
        0 <= t < ids.len(),
    ensures
        0 <= position(ids, anchor, r, t) < ids.len(),
        team_at(ids, anchor, r, position(ids, anchor, r, t)) as int == t,
{
    let m = ids.len() - 1;
    assert(lists(ids, t));
    let j = index_of(ids, t);
    assert(0 <= j < ids.len() && ids[j] as int == t);
    if j != anchor {
        let x = rank(ids, anchor, t);
        let p = (x + r) % m;
        assert(position(ids, anchor, r, t) == p);
        lemma_mod_bound(x + r, m);
        lemma_sub_mod_noop(x + r, r, m);
        lemma_mod_bound(r, m);
        lemma_sub_mod_noop(p, r, m);
        lemma_mod_twice(x + r, m);
        lemma_small_mod(x as nat, m as nat);
        assert((p - r) % m == x);
        assert(source(ids, anchor, x) == j);
    }
}

/// The team at position `p` of round `r` has position `p`.
proof fn lemma_position_of_team_at(ids: Seq<i32>, anchor: int, r: int, p: int)
    requires
        valid_input(ids, anchor),
        0 <= p < ids.len(),
    ensures
        position(ids, anchor, r, team_at(ids, anchor, r, p) as int) == p,
{
    let t = team_at(ids, anchor, r, p) as int;
    lemma_team_at(ids, anchor, r, p, p);
    lemma_position(ids, anchor, r, t);
    let q = position(ids, anchor, r, t);
    lemma_team_at(ids, anchor, r, p, q);
}

/// In round `r` the team `a` meets the team `b`.
pub open spec fn meets(s: Seq<Seq<Game>>, r: int, a: int, b: int) -> bool {
    s[r][a].opponent as int == b
}

/// A remainder of twice a number by an odd modulus is zero only when the
/// number's own remainder is.
proof fn lemma_odd_modulus(d: int, m: int)
    requires
        0 < m,
        m % 2 == 1,
        (2 * d) % m == 0,
    ensures
        d % m == 0,
{
    lemma_fundamental_div_mod(2 * d, m);
    let k = (2 * d) / m;
    assert(2 * d == m * k);
    lemma_fundamental_div_mod(k, 2);
    let j = k / 2;
    if k % 2 == 1 {
        assert(m == 2 * (d - m * j)) by (nonlinear_arith)
            requires 2 * d == m * k, k == 2 * j + 1;
        assert((2 * (d - m * j)) % 2 == 0) by (nonlinear_arith);
    } else {
        assert(k % 2 == 0);
        assert(d == j * m) by (nonlinear_arith)
            requires 2 * d == m * k, k == 2 * j;
        lemma_mod_multiples_basic(j, m);
    }
}

/// Distinct teams have distinct ranks, each below `n`.
proof fn lemma_rank(ids: Seq<i32>, anchor: int, a: int, b: int)
    requires
        valid_input(ids, anchor),
        0 <= a < ids.len(),
        0 <= b < ids.len(),
    ensures
        0 <= rank(ids, anchor, a) < ids.len(),
        a != b ==> rank(ids, anchor, a) != rank(ids, anchor, b),
{
    assert(lists(ids, a));
    assert(lists(ids, b));
}

/// Teams `a` and `b` meet in round `r` exactly when their positions add up
/// to `n - 1`.
proof fn lemma_meets_iff(ids: Seq<i32>, anchor: int, upward: bool, r: int, a: int, b: int)
    requires
        valid_input(ids, anchor),
        0 <= r < 2 * (ids.len() - 1),
        0 <= a < ids.len(),
        0 <= b < ids.len(),
    ensures
        meets(florian_schedule(ids, anchor, upward), r, a, b) <==> position(ids, anchor, r, a) + position(
            ids,
            anchor,
            r,
            b,
        ) == ids.len() - 1,
{
    let n = ids.len() as int;
    let pa = position(ids, anchor, r, a);
    let pb = position(ids, anchor, r, b);
    lemma_position(ids, anchor, r, a);
    lemma_position(ids, anchor, r, b);
    lemma_position_of_team_at(ids, anchor, r, n - 1 - pa);
    let s = florian_schedule(ids, anchor, upward);
    assert(s[r][a] == game_at(ids, anchor, upward, r, pa));
}

/// Rounds `r` and `r + n - 1` pair the same teams, with home and away swapped.
proof fn lemma_second_half(ids: Seq<i32>, anchor: int, upward: bool, r: int, t: int)
    requires
        valid_input(ids, anchor),
        0 <= r < ids.len() - 1,
        0 <= t < ids.len(),
    ensures
        position(ids, anchor, r + ids.len() - 1, t) == position(ids, anchor, r, t),
        florian_schedule(ids, anchor, upward)[r + ids.len() - 1][t].opponent
            == florian_schedule(ids, anchor, upward)[r][t].opponent,
        florian_schedule(ids, anchor, upward)[r + ids.len() - 1][t].home_game
            != florian_schedule(ids, anchor, upward)[r][t].home_game,
{
    let n = ids.len() as int;
    let m = n - 1;
    let r2 = r + m;
    let x = rank(ids, anchor, t);
    lemma_rank(ids, anchor, t, t);
    if x != m {
        lemma_mod_add_multiples_vanish(x + r, m);
        assert(x + r2 == m + (x + r));
    }
    let p = position(ids, anchor, r, t);
    lemma_position(ids, anchor, r, t);
    let q = n - 1 - p;
    if q < m {
        lemma_mod_add_multiples_vanish(q - r2, m);
        assert(q - r == m + (q - r2));
    }
    assert(team_at(ids, anchor, r2, q) == team_at(ids, anchor, r, q));
    assert(home_first(r2, upward) != home_first(r, upward));
}

/// The one round of the first half in which the distinct teams `a` and `b`
/// stand at positions adding up to `n - 1`.
proof fn lemma_meeting_round(ids: Seq<i32>, anchor: int, a: int, b: int) -> (r: int)
    requires
        valid_input(ids, anchor),
        0 <= a < ids.len(),
        0 <= b < ids.len(),
        a != b,
    ensures
        0 <= r < ids.len() - 1,
        forall|k: int|
            0 <= k < ids.len() - 1 ==> (position(ids, anchor, k, a) + position(ids, anchor, k, b) == ids.len() - 1
                <==> k == r),
{
    let n = ids.len() as int;
    let m = n - 1;
    lemma_rank(ids, anchor, a, b);
    lemma_rank(ids, anchor, b, a);
    let xa = rank(ids, anchor, a);
    let xb = rank(ids, anchor, b);
    assert(m % 2 == 1);
    if xa == m || xb == m {
        let x = if xa == m { xb } else { xa };
        let r0 = if x == 0 { 0 } else { m - x };
        lemma_mod_self_0(m);
        assert forall|k: int| 0 <= k < m implies (position(ids, anchor, k, a) + position(ids, anchor, k, b) == m
            <==> k == r0) by {
            lemma_mod_bound(x + k, m);
            if (x + k) % m == 0 {
                lemma_mod_equivalence(x + k, x + r0, m);
                assert((x + k) - (x + r0) == k - r0);
                lemma_same_residue(k, r0, m);
            }
        }
        r0
    } else {
        let c = xa + xb;
        let h = (m + 1) / 2;
        let d = m - c % m;
        lemma_mod_bound(c, m);
        lemma_mod_bound(d * h, m);
        let r0 = (d * h) % m;
        let q = (d * h) / m;
        lemma_fundamental_div_mod(d * h, m);
        lemma_fundamental_div_mod(c, m);
        let w = c / m + 1 + d - 2 * q;
        assert(c + 2 * r0 == w * m) by (nonlinear_arith)
            requires
                d * h == m * q + r0,
                2 * h == m + 1,
                c == m * (c / m) + c % m,
                d == m - c % m,
                w == c / m + 1 + d - 2 * q;
        lemma_mod_multiples_basic(w, m);
        assert forall|k: int| 0 <= k < m implies (position(ids, anchor, k, a) + position(ids, anchor, k, b) == m
            <==> k == r0) by {
            let pa = (xa + k) % m;
            let pb = (xb + k) % m;
            lemma_mod_bound(xa + k, m);
            lemma_mod_bound(xb + k, m);
            lemma_add_mod_noop(xa + k, xb + k, m);
            assert((xa + k) + (xb + k) == c + 2 * k);
            if pa + pb == m {
                lemma_mod_self_0(m);
                assert((c + 2 * k) % m == 0);
                lemma_mod_equivalence(c + 2 * k, c + 2 * r0, m);
                assert((c + 2 * k) - (c + 2 * r0) == 2 * (k - r0));
                lemma_odd_modulus(k - r0, m);
                lemma_same_residue(k, r0, m);
            }
            if k == r0 {
                assert((pa + pb) % m == 0);
                if pa + pb == 0 {
                    lemma_sub_mod_noop(xa + k, xb + k, m);
                    lemma_mod_equivalence(xa + k, xb + k, m);
                    assert((xa + k) - (xb + k) == xa - xb);
                    lemma_same_residue(xa, xb, m);
                }
                if pa + pb < m {
                    lemma_small_mod((pa + pb) as nat, m as nat);
                } else if pa + pb > m {
                    lemma_fundamental_div_mod_converse_mod(pa + pb, m, 1, pa + pb - m);
                }
            }
        }
        r0
    }
}

/// The circle method builds a double round-robin: `2 * (n - 1)` rounds in
/// which every team has one game, and any two distinct teams meet in exactly
/// two rounds, `r` and `r + n - 1`, with home and away swapped between them.
pub proof fn lemma_double_round_robin(ids: Seq<i32>, anchor: int, upward: bool, a: int, b: int) -> (r: int)
    requires
        valid_input(ids, anchor),
        0 <= a < ids.len(),
        0 <= b < ids.len(),
        a != b,
    ensures
        florian_schedule(ids, anchor, upward).len() == 2 * (ids.len() - 1),
        forall|k: int|
            0 <= k < 2 * (ids.len() - 1) ==> #[trigger] florian_schedule(ids, anchor, upward)[k].len() == ids.len(),
        0 <= r < ids.len() - 1,
        meets(florian_schedule(ids, anchor, upward), r, a, b),
        meets(florian_schedule(ids, anchor, upward), r + ids.len() - 1, a, b),
        florian_schedule(ids, anchor, upward)[r][a].home_game != florian_schedule(
            ids,
            anchor,
            upward,
        )[r + ids.len() - 1][a].home_game,
        forall|k: int|
            0 <= k < 2 * (ids.len() - 1) && #[trigger] meets(florian_schedule(ids, anchor, upward), k, a, b) ==> k
                == r || k == r + ids.len() - 1,
{
    let n = ids.len() as int;
    let m = n - 1;
    let s = florian_schedule(ids, anchor, upward);
    let r = lemma_meeting_round(ids, anchor, a, b);
    lemma_meets_iff(ids, anchor, upward, r, a, b);
    lemma_meets_iff(ids, anchor, upward, r + m, a, b);
    lemma_second_half(ids, anchor, upward, r, a);
    lemma_second_half(ids, anchor, upward, r, b);
    assert forall|k: int| 0 <= k < 2 * m && #[trigger] meets(s, k, a, b) implies k == r || k == r + m by {
        lemma_meets_iff(ids, anchor, upward, k, a, b);
        if k >= m {
            lemma_second_half(ids, anchor, upward, k - m, a);
            lemma_second_half(ids, anchor, upward, k - m, b);
        }
    }
    r
}

/// In every round of the circle method each team's opponent is another team
/// that names it back as opponent, and exactly one of the two plays at home.
pub proof fn lemma_florian_symmetric(ids: Seq<i32>, anchor: int, upward: bool, r: int, t: int)
    requires
        valid_input(ids, anchor),
        0 <= r < 2 * (ids.len() - 1),
        0 <= t < ids.len(),
    ensures
        ({
            let s = florian_schedule(ids, anchor, upward);
            let o = s[r][t].opponent as int;
            &&& 0 <= o < ids.len()
            &&& o != t
            &&& s[r][o].opponent as int == t
            &&& s[r][t].home_game != s[r][o].home_game
        }),
{
    let n = ids.len() as int;
    let p = position(ids, anchor, r, t);
    lemma_position(ids, anchor, r, t);
    lemma_team_at(ids, anchor, r, n - 1 - p, p);
    lemma_position_of_team_at(ids, anchor, r, n - 1 - p);
}

/// The circle method's schedule gives each of the `n` teams one game per
/// round, against another team of `0..n`.
pub proof fn lemma_florian_well_formed(ids: Seq<i32>, anchor: int, upward: bool)
    requires
        valid_input(ids, anchor),
    ensures
        well_formed(florian_schedule(ids, anchor, upward), ids.len() as int),
{
    let s = florian_schedule(ids, anchor, upward);
    assert forall|k: int, t: int| 0 <= k < s.len() && 0 <= t < ids.len() implies 0 <= #[trigger] s[k][t].opponent
        < ids.len() by {
        lemma_florian_symmetric(ids, anchor, upward, k, t);
    }
}

/// Counting the slots where two teams play each other, when that happens
/// exactly in the slots `r1` and `r2`.
proof fn lemma_two_meetings(s: Seq<Seq<Game>>, a: int, b: int, r1: int, r2: int, k: int)
    requires
        0 <= r1 < r2,
        0 <= k,
        forall|j: int| 0 <= j < k ==> (#[trigger] paired_in(s, j, a, b) <==> (j == r1 || j == r2)),
    ensures
        meeting_count(s, a, b, k) == (if r1 < k { 1int } else { 0int }) + (if r2 < k { 1int } else { 0int }),
    decreases k,
{
    if k > 0 {
        lemma_two_meetings(s, a, b, r1, r2, k - 1);
        assert(paired_in(s, k - 1, a, b) <==> (k - 1 == r1 || k - 1 == r2));
    }
}

/// In the circle method's schedule any two distinct teams play each other
/// in exactly two slots, so no pair exceeds the round-robin bound.
pub proof fn lemma_florian_round_robin(ids: Seq<i32>, anchor: int, upward: bool)
    requires
        valid_input(ids, anchor),
    ensures
        forall|a: int, b: int|
            0 <= a < ids.len() && 0 <= b < ids.len() && a != b ==> #[trigger] meeting_count(
                florian_schedule(ids, anchor, upward),
                a,
                b,
                2 * (ids.len() - 1),
            ) == 2,
        round_robin_respected(florian_schedule(ids, anchor, upward), ids.len() as int),
{
    let n = ids.len() as int;
    let s = florian_schedule(ids, anchor, upward);
    assert forall|a: int, b: int| 0 <= a < n && 0 <= b < n && a != b implies #[trigger] meeting_count(
        s,
        a,
        b,
        2 * (n - 1),
    ) == 2 by {
        let r = lemma_double_round_robin(ids, anchor, upward, a, b);
        assert forall|j: int| 0 <= j < 2 * (n - 1) implies (#[trigger] paired_in(s, j, a, b) <==> (j == r || j == r
            + n - 1)) by {
            lemma_florian_symmetric(ids, anchor, upward, j, b);
            lemma_florian_symmetric(ids, anchor, upward, j, a);
            if s[j][b].opponent as int == a {
                assert(meets(s, j, a, b));
            }
            if j == r || j == r + n - 1 {
                assert(meets(s, j, a, b));
            }
        }
        lemma_two_meetings(s, a, b, r, r + n - 1, 2 * (n - 1));
    }
    assert forall|a: int, b: int| 0 <= a < b < n implies #[trigger] meeting_count(s, a, b, s.len() as int) <= 4 by {
        assert(meeting_count(s, a, b, 2 * (n - 1)) == 2);
    }
}

/// Two schedules built from the same ordering, anchor and direction hold
/// the same game in every slot and for every team.
pub proof fn lemma_florian_deterministic(x: Solution, y: Solution, ids: Seq<i32>, anchor: int, upward: bool)
    requires
        x.games() == florian_schedule(ids, anchor, upward),
        y.games() == florian_schedule(ids, anchor, upward),
    ensures
        x.solution@.len() == y.solution@.len(),
        forall|k: int| 0 <= k < x.solution@.len() ==> #[trigger] x.solution@[k]@ == y.solution@[k]@,
{
    assert(x.games().len() == x.solution@.len());
    assert(y.games().len() == y.solution@.len());
    assert forall|k: int| 0 <= k < x.solution@.len() implies #[trigger] x.solution@[k]@ == y.solution@[k]@ by {
        assert(x.games()[k] == x.solution@[k]@);
        assert(y.games()[k] == y.solution@[k]@);
    }
}

/// Every entry of a valid ordering fits the position arithmetic.
proof fn lemma_size(ids: Seq<i32>, anchor: int)
    requires
        valid_input(ids, anchor),
    ensures
        ids.len() - 1 <= i32::MAX,
{
    assert(lists(ids, ids.len() - 1));
}

/// The team at position `p` of round `round`.
fn team_at_exec(ids: &Vec<i32>, anchor: usize, round: usize, p: usize) -> (t: i32)
    requires
        valid_input(ids@, anchor as int),
        p < ids@.len(),
    ensures
        t == team_at(ids@, anchor as int, round as int, p as int),
{
    proof {
        lemma_size(ids@, anchor as int);
    }
    let m = ids.len() - 1;
    if p < m {
        let shift = round % m;
        let x = (p + m - shift) % m;
        proof {
            let (pi, ri, mi) = (p as int, round as int, m as int);
            lemma_mod_add_multiples_vanish(pi - shift as int, mi);
            lemma_small_mod(p as nat, m as nat);
            lemma_sub_mod_noop(pi, ri, mi);
            assert(x as int == (pi - ri) % mi);
        }
        let s = if x < anchor { x } else { x + 1 };
        ids[s]
    } else {
        ids[anchor]
    }
}

/// The games of round `round`, indexed by team.
fn round_games(ids: &Vec<i32>, anchor: usize, upward: bool, round: usize) -> (row: Vec<Game>)
    requires
        valid_input(ids@, anchor as int),
    ensures
        row@ == Seq::new(
            ids@.len(),
            |t: int| game_at(ids@, anchor as int, upward, round as int, position(ids@, anchor as int, round as int, t)),
        ),
{
    let ghost g = ids@;
    let ghost (a, r) = (anchor as int, round as int);
    let n = ids.len();
    let mut row: Vec<Game> = Vec::new();
    let mut k: usize = 0;
    while k < n
        invariant
            k <= n,
            row@.len() == k,
        decreases n - k,
    {
        row.push(Game { home_game: false, opponent: -1 });
        k += 1;
    }
    let home = (round % 2 == 0) == upward;
    let half = n / 2;
    let mut i: usize = 0;
    while i < half
        invariant
            valid_input(g, a),
            g == ids@,
            a == anchor as int,
            r == round as int,
            n == g.len(),
            half == n / 2,
            i <= half,
            home == home_first(r, upward),
            row@.len() == n,
            forall|p: int|
                0 <= p < n && (p < i || p >= n - i) ==> row@[team_at(g, a, r, p) as int] == game_at(g, a, upward, r, p),
        decreases half - i,
    {
        let j = n - 1 - i;
        let ta = team_at_exec(ids, anchor, round, i);
        let tb = team_at_exec(ids, anchor, round, j);
        proof {
            lemma_team_at(g, a, r, i as int, j as int);
            lemma_team_at(g, a, r, j as int, j as int);
            assert forall|p: int| 0 <= p < n && p != i && p != j implies
                team_at(g, a, r, p) != ta && team_at(g, a, r, p) != tb by {
                lemma_team_at(g, a, r, p, i as int);
                lemma_team_at(g, a, r, p, j as int);
            }
        }
        row.set(ta as usize, Game { home_game: home, opponent: tb });
        row.set(tb as usize, Game { home_game: !home, opponent: ta });
        i += 1;
    }
    proof {
        assert forall|t: int| 0 <= t < n implies row@[t] == game_at(g, a, upward, r, position(g, a, r, t)) by {
            lemma_position(g, a, r, t);
        }
    }
    assert(row@ =~= Seq::new(
        ids@.len(),
        |t: int| game_at(ids@, anchor as int, upward, round as int, position(ids@, anchor as int, round as int, t)),
    ));
    row
}

/// The schedule of the circle method for the ordering `ids`.
fn build_schedule(ids: &Vec<i32>, anchor: usize, upward: bool) -> (rows: Vec<Vec<Game>>)
    requires
        valid_input(ids@, anchor as int),
    ensures
        rows_view(rows) == florian_schedule(ids@, anchor as int, upward),
{
    proof {
        lemma_size(ids@, anchor as int);
    }
    let rounds = 2 * (ids.len() - 1);
    let mut rows: Vec<Vec<Game>> = Vec::new();
    let mut round: usize = 0;
    while round < rounds
        invariant
            valid_input(ids@, anchor as int),
            rounds == 2 * (ids@.len() - 1),
            round <= rounds,
            rows@.len() == round,
            forall|k: int| 0 <= k < round ==> #[trigger] rows@[k]@ == florian_schedule(ids@, anchor as int, upward)[k],
        decreases rounds - round,
    {
        let row = round_games(ids, anchor, upward, round);
        rows.push(row);
        round += 1;
    }
    assert(rows_view(rows) =~= florian_schedule(ids@, anchor as int, upward));
    rows
}

impl Solution {
    /// Builds one double round-robin schedule by the circle method, with the
    /// teams of `data` in their listed order.
    ///
    /// The team at position `fixed_team` is moved to the last position and
    /// stays there; in each round position `i` meets position `n - 1 - i`, and
    /// the other positions then rotate one step to the right. In even rounds
    /// the lower position plays at home when `upward`, in odd rounds when not.
    pub fn generate_florian_solution(data: &Rawdata, fixed_team: usize, upward: bool) -> (r: Solution)
        requires
            valid_input(team_ids(data.teams@), fixed_team as int),
        ensures
            r.id == -1,
            r.games() == florian_schedule(team_ids(data.teams@), fixed_team as int, upward),
    {
        let mut ids: Vec<i32> = Vec::new();
        let mut k: usize = 0;
        while k < data.teams.len()
            invariant
                k <= data.teams@.len(),
                ids@ == team_ids(data.teams@).subrange(0, k as int),
            decreases data.teams@.len() - k,
        {
            ids.push(data.teams[k].id);
            k += 1;
            assert(ids@ =~= team_ids(data.teams@).subrange(0, k as int));
        }
        assert(ids@ =~= team_ids(data.teams@));
        Solution { id: -1, solution: build_schedule(&ids, fixed_team, upward) }
    }
}

/// The schedule of the circle method for `ordering`, under the identifier `id`.
pub(crate) fn generate_solution(ordering: &Vec<i32>, fixed_team: usize, upward: bool, id: i32) -> (r: Solution)
    requires
        valid_input(ordering@, fixed_team as int),
    ensures
        r.id == id,
        r.games() == florian_schedule(ordering@, fixed_team as int, upward),
{
    Solution { id, solution: build_schedule(ordering, fixed_team, upward) }
}

} // verus!
