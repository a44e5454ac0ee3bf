//! A schedule as text: one right-aligned column of eight characters per
//! team, one line per slot.

use vstd::prelude::*;
use vstd::string::*;
use crate::data_set::{Rawdata, Team};
use crate::solution::{Game, Solution, rows_view};

verus! {

/// The decimal digit `d`.
pub open spec fn digit_char(d: nat) -> char {
    if d == 0 {
        '0'
    } else if d == 1 {
        '1'
    } else if d == 2 {
        '2'
    } else if d == 3 {
        '3'
    } else if d == 4 {
        '4'
    } else if d == 5 {
        '5'
    } else if d == 6 {
        '6'
    } else if d == 7 {
        '7'
    } else if d == 8 {
        '8'
    } else {
        '9'
    }
}

/// The decimal digits of `v`, without leading zeros.
pub open spec fn digits(v: nat) -> Seq<char>
    decreases v,
{
    if v < 10 {
        seq![digit_char(v)]
    } else {
        digits(v / 10) + seq![digit_char(v % 10)]
    }
}

/// `v` in decimal, with a leading `-` when negative.
pub open spec fn decimal(v: int) -> Seq<char> {
    if v < 0 {
        seq!['-'] + digits((-v) as nat)
    } else {
        digits(v as nat)
    }
}

/// `s` preceded by spaces up to a width of eight characters.
pub open spec fn right_aligned(s: Seq<char>) -> Seq<char> {
    if s.len() < 8 {
        Seq::new((8 - s.len()) as nat, |i: int| ' ') + s
    } else {
        s
    }
}

/// Heading of a team's column: its name, a colon and its identifier.
pub open spec fn team_label(t: Team) -> Seq<char> {
    t.name@ + seq![':'] + decimal(t.id as int)
}

/// A cell: the opponent, then `H` for a home game or `A` for an away game.
pub open spec fn game_label(g: Game) -> Seq<char> {
    decimal(g.opponent as int) + seq![if g.home_game { 'H' } else { 'A' }]
}

/// The column headings of the first `k` teams.
pub open spec fn header_text(teams: Seq<Team>, k: int) -> Seq<char>
    decreases k,
{
    if k <= 0 {
        Seq::empty()
    } else {
        header_text(teams, k - 1) + right_aligned(team_label(teams[k - 1]))
    }
}

/// The first `k` cells of a row.
pub open spec fn row_text(row: Seq<Game>, k: int) -> Seq<char>
    decreases k,
{
    if k <= 0 {
        Seq::empty()
    } else {
        row_text(row, k - 1) + right_aligned(game_label(row[k - 1]))
    }
}

/// The lines of the first `k` slots.
pub open spec fn slots_text(s: Seq<Seq<Game>>, k: int) -> Seq<char>
    decreases k,
{
    if k <= 0 {
        Seq::empty()
    } else {
        slots_text(s, k - 1) + right_aligned(seq!['S', 'l', 'o', 't', ':'] + decimal(k - 1)) + row_text(
            s[k - 1],
            s[k - 1].len() as int,
        ) + seq!['\n']
    }
}

/// The whole text: the identifier line, the headings line, then one line
/// per slot.
pub open spec fn solution_text(sol: Solution, teams: Seq<Team>) -> Seq<char> {
    seq!['I', 'd', ':', ' '] + decimal(sol.id as int) + seq!['\n'] + Seq::new(8, |i: int| ' ') + header_text(
        teams,
        teams.len() as int,
    ) + seq!['\n'] + slots_text(sol.games(), sol.games().len() as int)
}

/// The decimal digit `d` as text.
fn digit_str(d: u64) -> (r: &'static str)
    requires
        d < 10,
    ensures
        r@ == seq![digit_char(d as nat)],
{
    proof {
        reveal_strlit("0");
        reveal_strlit("1");
        reveal_strlit("2");
        reveal_strlit("3");
        reveal_strlit("4");
        reveal_strlit("5");
        reveal_strlit("6");
        reveal_strlit("7");
        reveal_strlit("8");
        reveal_strlit("9");
    }
    if d == 0 {
        "0"
    } else if d == 1 {
        "1"
    } else if d == 2 {
        "2"
    } else if d == 3 {
        "3"
    } else if d == 4 {
        "4"
    } else if d == 5 {
        "5"
    } else if d == 6 {
        "6"
    } else if d == 7 {
        "7"
    } else if d == 8 {
        "8"
    } else {
        "9"
    }
}

/// Appends the decimal digits of `v`.
fn push_digits(out: &mut String, v: u64)
    ensures
        final(out)@ == old(out)@ + digits(v as nat),
    decreases v,
{
    if v >= 10 {
        push_digits(out, v / 10);
    }
    out.append(digit_str(v % 10));
    assert(final(out)@ =~= old(out)@ + digits(v as nat)) by {
        if v >= 10 {
            assert(digits(v as nat) == digits((v / 10) as nat) + seq![digit_char((v % 10) as nat)]);
        }
    };
}

/// Appends `v` in decimal.
fn push_decimal(out: &mut String, v: i64)
    requires
        v > i64::MIN,
    ensures
        final(out)@ == old(out)@ + decimal(v as int),
{
    if v < 0 {
        proof {
            reveal_strlit("-");
        }
        out.append("-");
        push_digits(out, (-v) as u64);
        assert(final(out)@ =~= old(out)@ + decimal(v as int));
    } else {
        push_digits(out, v as u64);
    }
}

/// Appends `piece` preceded by spaces up to a width of eight characters.
fn push_right_aligned(out: &mut String, piece: &String)
    ensures
        final(out)@ == old(out)@ + right_aligned(piece@),
{
    let len = piece.as_str().unicode_len();
    proof {
        reveal_strlit(" ");
    }
    let ghost start = out@;
    if len < 8 {
        let mut k: usize = len;
        while k < 8
            invariant
                len <= k <= 8,
                len == piece@.len(),
                out@ == start + Seq::new((k - len) as nat, |i: int| ' '),
            decreases 8 - k,
        {
            proof {
                reveal_strlit(" ");
            }
            out.append(" ");
            k += 1;
            assert(out@ =~= start + Seq::new((k - len) as nat, |i: int| ' '));
        }
    }
    out.append(piece.as_str());
    assert(out@ =~= start + right_aligned(piece@));
}

impl Solution {
    /// The schedule as text: `Id: <id>`, then a line of column headings
    /// `<name>:<id>` for the teams of `data`, then for each slot `k` a line
    /// `Slot:<k>` followed by one cell `<opponent>H` or `<opponent>A` per
    /// game. Each heading and cell is right-aligned in eight characters and
    /// every line ends with a newline.
    pub fn solution_to_string(solution_matrix: &Solution, data: &Rawdata) -> (r: String)
        requires
            solution_matrix.solution@.len() <= i64::MAX,
        ensures
            r@ == solution_text(*solution_matrix, data.teams@),
    {
        proof {
            reveal_strlit("Id: ");
            reveal_strlit("\n");
            reveal_strlit("");
            reveal_strlit(":");
            reveal_strlit("Slot:");
            reveal_strlit("H");
            reveal_strlit("A");
        }
        let mut output = String::new();
        output.append("Id: ");
        push_decimal(&mut output, solution_matrix.id as i64);
        output.append("\n");
        push_right_aligned(&mut output, &String::from_str(""));
        assert(right_aligned(Seq::<char>::empty()) =~= Seq::new(8, |i: int| ' '));
        let ghost head = output@;
        let teams = &data.teams;
        let mut t: usize = 0;
        while t < teams.len()
            invariant
                t <= teams@.len(),
                output@ == head + header_text(teams@, t as int),
            decreases teams@.len() - t,
        {
            proof {
                reveal_strlit(":");
            }
            let mut label = teams[t].name.clone();
            label.append(":");
            push_decimal(&mut label, teams[t].id as i64);
            assert(label@ == team_label(teams@[t as int]));
            push_right_aligned(&mut output, &label);
            t += 1;
            assert(output@ =~= head + header_text(teams@, t as int));
        }
        output.append("\n");
        let ghost body = output@;
        let rows = &solution_matrix.solution;
        let ghost s = solution_matrix.games();
        let mut k: usize = 0;
        while k < rows.len()
            invariant
                rows@.len() <= i64::MAX,
                s == solution_matrix.games(),
                s == rows_view(*rows),
                k <= rows@.len(),
                output@ == body + slots_text(s, k as int),
            decreases rows@.len() - k,
        {
            proof {
                reveal_strlit("Slot:");
                reveal_strlit("\n");
            }
            let mut slot_label = String::from_str("Slot:");
            push_decimal(&mut slot_label, k as i64);
            push_right_aligned(&mut output, &slot_label);
            let ghost line = output@;
            let row = &rows[k];
            assert(s[k as int] == row@);
            let mut j: usize = 0;
            while j < row.len()
                invariant
                    j <= row@.len(),
                    output@ == line + row_text(row@, j as int),
                decreases row@.len() - j,
            {
                proof {
                    reveal_strlit("H");
                    reveal_strlit("A");
                }
                let game = row[j];
                let mut cell = String::new();
                push_decimal(&mut cell, game.opponent as i64);
                if game.home_game {
                    cell.append("H");
                } else {
                    cell.append("A");
                }
                assert(cell@ =~= game_label(game));
                push_right_aligned(&mut output, &cell);
                j += 1;
                assert(output@ =~= line + row_text(row@, j as int));
            }
            output.append("\n");
            k += 1;
            assert(output@ =~= body + slots_text(s, k as int));
        }
        assert(output@ =~= solution_text(*solution_matrix, data.teams@));
        output
    }
}

} // verus!
