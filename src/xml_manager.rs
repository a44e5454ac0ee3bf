//! Instance records from the attributes of their XML elements.
//!
//! Each element is handed over as its list of `(name, value)` attributes.
//! A known attribute sets its field; a later attribute of the same name
//! overrides an earlier one, unknown attributes are ignored, and a missing
//! attribute leaves the field at its default. Numbers that do not read as
//! an `i32` count as zero.

use vstd::prelude::*;
use vstd::string::*;
use crate::data_set::{CapacityConstraints, Distance, SeparationConstraints, Slot, Team};

verus! {

/// Builds instance records from XML attributes.
pub struct XmlManager;

/// `c` is an ASCII decimal digit.
pub open spec fn is_digit(c: char) -> bool {
    '0' <= c && c <= '9'
}

/// `s` is a non-empty run of decimal digits.
pub open spec fn all_digits(s: Seq<char>) -> bool {
    s.len() > 0 && forall|i: int| 0 <= i < s.len() ==> is_digit(#[trigger] s[i])
}

/// The value of the decimal digits `s`.
pub open spec fn digits_value(s: Seq<char>) -> int
    decreases s.len(),
{
    if s.len() == 0 {
        0
    } else {
        digits_value(s.drop_last()) * 10 + (s.last() as int - '0' as int)
    }
}

/// The integer that `s` writes: an optional `+` or `-` followed by decimal
/// digits, nothing else.
pub open spec fn signed_value(s: Seq<char>) -> Option<int> {
    if s.len() > 0 && (s[0] == '-' || s[0] == '+') {
        if all_digits(s.drop_first()) {
            Some(if s[0] == '-' { -digits_value(s.drop_first()) } else { digits_value(s.drop_first()) })
        } else {
            None
        }
    } else if all_digits(s) {
        Some(digits_value(s))
    } else {
        None
    }
}

/// The `i32` that `s` writes, or zero when it writes none.
pub open spec fn number_or_zero(s: Seq<char>) -> i32 {
    match signed_value(s) {
        Some(v) => if i32::MIN <= v <= i32::MAX {
            v as i32
        } else {
            0
        },
        None => 0,
    }
}

/// The value of the last of the first `k` attributes named `name`.
pub open spec fn last_value(attrs: Seq<(String, String)>, name: Seq<char>, k: int) -> Option<Seq<char>>
    decreases k,
{
    if k <= 0 {
        None
    } else if attrs[k - 1].0@ == name {
        Some(attrs[k - 1].1@)
    } else {
        last_value(attrs, name, k - 1)
    }
}

/// A numeric field after the first `k` attributes: the number its attribute
/// writes, zero by default.
pub open spec fn number_attr(attrs: Seq<(String, String)>, name: Seq<char>, k: int) -> i32 {
    match last_value(attrs, name, k) {
        Some(v) => number_or_zero(v),
        None => 0,
    }
}

/// A text field after the first `k` attributes: its attribute's value,
/// `Null` by default.
pub open spec fn text_attr(attrs: Seq<(String, String)>, name: Seq<char>, k: int) -> Seq<char> {
    match last_value(attrs, name, k) {
        Some(v) => v,
        None => "Null"@,
    }
}

/// A mode field after the first `k` attributes: the first character of its
/// attribute's value (`n` for an empty value), `N` by default.
pub open spec fn mode_attr(attrs: Seq<(String, String)>, name: Seq<char>, k: int) -> char {
    match last_value(attrs, name, k) {
        Some(v) => if v.len() > 0 {
            v[0]
        } else {
            'n'
        },
        None => 'N',
    }
}

/// Whether the two texts are equal.
fn text_equals(a: &str, b: &str) -> (r: bool)
    ensures
        r == (a@ == b@),
{
    let n = a.unicode_len();
    if n != b.unicode_len() {
        return false;
    }
    let mut i: usize = 0;
    while i < n
        invariant
            n == a@.len(),
            n == b@.len(),
            i <= n,
            forall|j: int| 0 <= j < i ==> #[trigger] a@[j] == b@[j],
        decreases n - i,
    {
        if a.get_char(i) != b.get_char(i) {
            return false;
        }
        i += 1;
    }
    assert(a@ =~= b@);
    true
}

/// Adding a digit multiplies the value so far by ten and adds the digit.
proof fn lemma_digits_push(s: Seq<char>, c: char)
    ensures
        digits_value(s.push(c)) == digits_value(s) * 10 + (c as int - '0' as int),
{
    assert(s.push(c).drop_last() =~= s);
}

/// The value of digits is never negative.
proof fn lemma_digits_nonnegative(s: Seq<char>)
    requires
        forall|i: int| 0 <= i < s.len() ==> is_digit(#[trigger] s[i]),
    ensures
        digits_value(s) >= 0,
    decreases s.len(),
{
    if s.len() > 0 {
        lemma_digits_nonnegative(s.drop_last());
    }
}

/// The `i32` that `text` writes in decimal, with an optional sign, or zero
/// when it writes none or one out of range.
pub fn parse_number(text: &str) -> (r: i32)
    ensures
        r == number_or_zero(text@),
{
    let len = text.unicode_len();
    if len == 0 {
        return 0;
    }
    let first = text.get_char(0);
    let negative = first == '-';
    let start: usize = if first == '-' || first == '+' {
        1
    } else {
        0
    };
    let ghost rest = text@.subrange(start as int, len as int);
    assert(start == 1 ==> rest =~= text@.drop_first());
    assert(start == 0 ==> rest =~= text@);
    if start == len {
        return 0;
    }
    let limit: i64 = 0x8000_0000;
    let mut acc: i64 = 0;
    let mut big = false;
    let mut i: usize = start;
    while i < len
        invariant
            len == text@.len(),
            start <= i <= len,
            start <= 1,
            rest == text@.subrange(start as int, len as int),
            start == 1 ==> rest == text@.drop_first() && (text@[0] == '-' || text@[0] == '+'),
            start == 0 ==> rest == text@ && !(text@[0] == '-' || text@[0] == '+'),
            negative == (text@[0] == '-'),
            len > 0,
            limit == 0x8000_0000,
            forall|j: int| start <= j < i ==> is_digit(#[trigger] text@[j]),
            !big ==> acc == digits_value(text@.subrange(start as int, i as int)),
            0 <= acc <= limit,
            big ==> digits_value(text@.subrange(start as int, i as int)) > limit,
        decreases len - i,
    {
        let c = text.get_char(i);
        if !('0' <= c && c <= '9') {
            assert(!is_digit(rest[i - start]));
            assert(!all_digits(rest));
            assert(signed_value(text@) == None::<int>);
            return 0;
        }
        let ghost before = text@.subrange(start as int, i as int);
        assert(text@.subrange(start as int, i + 1) =~= before.push(c));
        proof {
            lemma_digits_push(before, c);
            assert forall|j: int| 0 <= j < before.len() implies is_digit(#[trigger] before[j]) by {
                assert(before[j] == text@[start + j]);
            }
            lemma_digits_nonnegative(before);
        }
        let d = (c as u32 - '0' as u32) as i64;
        if !big {
            let next = acc * 10 + d;
            if next > limit {
                big = true;
            } else {
                acc = next;
            }
        }
        i += 1;
    }
    assert(text@.subrange(start as int, len as int) == rest);
    assert(all_digits(rest)) by {
        assert forall|j: int| 0 <= j < rest.len() implies is_digit(#[trigger] rest[j]) by {
            assert(rest[j] == text@[start + j]);
        }
    }
    if big {
        return 0;
    }
    if negative {
        (-acc) as i32
    } else if acc > 0x7fff_ffff {
        0
    } else {
        acc as i32
    }
}

/// The value of a mode attribute: its first character, `n` when empty.
fn first_char(text: &str) -> (c: char)
    ensures
        c == if text@.len() > 0 { text@[0] } else { 'n' },
{
    if text.unicode_len() > 0 {
        text.get_char(0)
    } else {
        'n'
    }
}

impl XmlManager {
    /// A team from the attributes `id`, `league`, `name` and `teamGroups`.
    pub fn parse_team(attributes: &Vec<(String, String)>) -> (r: Team)
        ensures
            r.id == number_attr(attributes@, "id"@, attributes@.len() as int),
            r.league == number_attr(attributes@, "league"@, attributes@.len() as int),
            r.name@ == text_attr(attributes@, "name"@, attributes@.len() as int),
            r.team_groups == number_attr(attributes@, "teamGroups"@, attributes@.len() as int),
    {
        let mut team = Team::new();
        let mut k: usize = 0;
        while k < attributes.len()
            invariant
                k <= attributes@.len(),
                team.id == number_attr(attributes@, "id"@, k as int),
                team.league == number_attr(attributes@, "league"@, k as int),
                team.name@ == text_attr(attributes@, "name"@, k as int),
                team.team_groups == number_attr(attributes@, "teamGroups"@, k as int),
            decreases attributes@.len() - k,
        {
            let name = attributes[k].0.as_str();
            let value = attributes[k].1.as_str();
            if text_equals(name, "id") {
                team.id = parse_number(value);
            }
            if text_equals(name, "league") {
                team.league = parse_number(value);
            }
            if text_equals(name, "name") {
                team.name = attributes[k].1.clone();
            }
            if text_equals(name, "teamGroups") {
                team.team_groups = parse_number(value);
            }
            k += 1;
        }
        team
    }

    /// A slot from the attributes `id` and `name`.
    pub fn parse_slot(attributes: &Vec<(String, String)>) -> (r: Slot)
        ensures
            r.id == number_attr(attributes@, "id"@, attributes@.len() as int),
            r.name@ == text_attr(attributes@, "name"@, attributes@.len() as int),
    {
        let mut slot = Slot::new();
        let mut k: usize = 0;
        while k < attributes.len()
            invariant
                k <= attributes@.len(),
                slot.id == number_attr(attributes@, "id"@, k as int),
                slot.name@ == text_attr(attributes@, "name"@, k as int),
            decreases attributes@.len() - k,
        {
            let name = attributes[k].0.as_str();
            let value = attributes[k].1.as_str();
            if text_equals(name, "id") {
                slot.id = parse_number(value);
            }
            if text_equals(name, "name") {
                slot.name = attributes[k].1.clone();
            }
            k += 1;
        }
        slot
    }

    /// A distance from the attributes `dist`, `team1` and `team2`.
    pub fn parse_distance(attributes: &Vec<(String, String)>) -> (r: Distance)
        ensures
            r.dist == number_attr(attributes@, "dist"@, attributes@.len() as int),
            r.team1 == number_attr(attributes@, "team1"@, attributes@.len() as int),
            r.team2 == number_attr(attributes@, "team2"@, attributes@.len() as int),
    {
        let mut distance = Distance::new();
        let mut k: usize = 0;
        while k < attributes.len()
            invariant
                k <= attributes@.len(),
                distance.dist == number_attr(attributes@, "dist"@, k as int),
                distance.team1 == number_attr(attributes@, "team1"@, k as int),
                distance.team2 == number_attr(attributes@, "team2"@, k as int),
            decreases attributes@.len() - k,
        {
            let name = attributes[k].0.as_str();
            let value = attributes[k].1.as_str();
            if text_equals(name, "dist") {
                distance.dist = parse_number(value);
            }
            if text_equals(name, "team1") {
                distance.team1 = parse_number(value);
            }
            if text_equals(name, "team2") {
                distance.team2 = parse_number(value);
            }
            k += 1;
        }
        distance
    }

    /// A capacity constraint from the attributes `intp`, `max`, `min`, `mode1`,
    /// `mode2`, `penalty`, `teamGroups1`, `teamGroups2` and `type`.
    pub fn parse_capacity(attributes: &Vec<(String, String)>) -> (r: CapacityConstraints)
        ensures
            r.c_intp == number_attr(attributes@, "intp"@, attributes@.len() as int),
            r.c_max == number_attr(attributes@, "max"@, attributes@.len() as int),
            r.c_min == number_attr(attributes@, "min"@, attributes@.len() as int),
            r.c_mode1 == mode_attr(attributes@, "mode1"@, attributes@.len() as int),
            r.c_mode2@ == text_attr(attributes@, "mode2"@, attributes@.len() as int),
            r.c_penalty == number_attr(attributes@, "penalty"@, attributes@.len() as int),
            r.c_team_groups1 == number_attr(attributes@, "teamGroups1"@, attributes@.len() as int),
            r.c_team_groups2 == number_attr(attributes@, "teamGroups2"@, attributes@.len() as int),
            r.c_type@ == text_attr(attributes@, "type"@, attributes@.len() as int),
    {
        let mut cap = CapacityConstraints::new();
        let mut k: usize = 0;
        while k < attributes.len()
            invariant
                k <= attributes@.len(),
                cap.c_intp == number_attr(attributes@, "intp"@, k as int),
                cap.c_max == number_attr(attributes@, "max"@, k as int),
                cap.c_min == number_attr(attributes@, "min"@, k as int),
                cap.c_mode1 == mode_attr(attributes@, "mode1"@, k as int),
                cap.c_mode2@ == text_attr(attributes@, "mode2"@, k as int),
                cap.c_penalty == number_attr(attributes@, "penalty"@, k as int),
                cap.c_team_groups1 == number_attr(attributes@, "teamGroups1"@, k as int),
                cap.c_team_groups2 == number_attr(attributes@, "teamGroups2"@, k as int),
                cap.c_type@ == text_attr(attributes@, "type"@, k as int),
            decreases attributes@.len() - k,
        {
            let name = attributes[k].0.as_str();
            let value = attributes[k].1.as_str();
            if text_equals(name, "intp") {
                cap.c_intp = parse_number(value);
            }
            if text_equals(name, "max") {
                cap.c_max = parse_number(value);
            }
            if text_equals(name, "min") {
                cap.c_min = parse_number(value);
            }
            if text_equals(name, "mode1") {
                cap.c_mode1 = first_char(value);
            }
            if text_equals(name, "mode2") {
                cap.c_mode2 = attributes[k].1.clone();
            }
            if text_equals(name, "penalty") {
                cap.c_penalty = parse_number(value);
            }
            if text_equals(name, "teamGroups1") {
                cap.c_team_groups1 = parse_number(value);
            }
            if text_equals(name, "teamGroups2") {
                cap.c_team_groups2 = parse_number(value);
            }
            if text_equals(name, "type") {
                cap.c_type = attributes[k].1.clone();
            }
            k += 1;
        }
        cap
    }

    /// A separation constraint from the attributes `max`, `min`, `penalty`,
    /// `teamGroups` and `type`.
    pub fn parse_separation(attributes: &Vec<(String, String)>) -> (r: SeparationConstraints)
        ensures
            r.c_max == number_attr(attributes@, "max"@, attributes@.len() as int),
            r.c_min == number_attr(attributes@, "min"@, attributes@.len() as int),
            r.c_penalty == number_attr(attributes@, "penalty"@, attributes@.len() as int),
            r.c_team_groups == number_attr(attributes@, "teamGroups"@, attributes@.len() as int),
            r.c_type@ == text_attr(attributes@, "type"@, attributes@.len() as int),
    {
        let mut sep = SeparationConstraints::new();
        let mut k: usize = 0;
        while k < attributes.len()
            invariant
                k <= attributes@.len(),
                sep.c_max == number_attr(attributes@, "max"@, k as int),
                sep.c_min == number_attr(attributes@, "min"@, k as int),
                sep.c_penalty == number_attr(attributes@, "penalty"@, k as int),
                sep.c_team_groups == number_attr(attributes@, "teamGroups"@, k as int),
                sep.c_type@ == text_attr(attributes@, "type"@, k as int),
            decreases attributes@.len() - k,
        {
            let name = attributes[k].0.as_str();
            let value = attributes[k].1.as_str();
            if text_equals(name, "max") {
                sep.c_max = parse_number(value);
            }
            if text_equals(name, "min") {
                sep.c_min = parse_number(value);
            }
            if text_equals(name, "penalty") {
                sep.c_penalty = parse_number(value);
            }
            if text_equals(name, "teamGroups") {
                sep.c_team_groups = parse_number(value);
            }
            if text_equals(name, "type") {
                sep.c_type = attributes[k].1.clone();
            }
            k += 1;
        }
        sep
    }
}

} // verus!
