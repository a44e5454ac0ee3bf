//! The instance model: teams, slots, distances and constraints.

use vstd::prelude::*;
use vstd::string::*;

verus! {

/// All data of one tournament instance.
#[derive(Clone, Debug)]
pub struct Rawdata {
    /// Name of the instance.
    pub instance_name: String,
    /// Teams taking part in the tournament.
    pub teams: Vec<Team>,
    /// Time slots (rounds) of the tournament.
    pub slots: Vec<Slot>,
    /// Sparse travel distances between pairs of teams.
    pub distances: Vec<Distance>,
    /// Capacity constraints of the instance.
    pub capacity_constraints: Vec<CapacityConstraints>,
    /// Separation constraints of the instance.
    pub separation_constraints: Vec<SeparationConstraints>,
}

/// Travel distance from `team1` to `team2`.
#[derive(Clone, Copy, Debug, PartialEq, Eq, Hash)]
pub struct Distance {
    /// Cost of travelling from `team1` to `team2`.
    pub dist: i32,
    /// Team of origin.
    pub team1: i32,
    /// Team of destination.
    pub team2: i32,
}

impl Distance {
    /// A distance with every field zero.
    pub fn new() -> (r: Self)
        ensures
            r.dist == 0,
            r.team1 == 0,
            r.team2 == 0,
    {
        Distance { dist: 0, team1: 0, team2: 0 }
    }
}

/// A team of the tournament.
#[derive(Clone, Debug, PartialEq, Eq, Hash)]
pub struct Team {
    /// Identifier of the team, also its index in schedules and matrices.
    pub id: i32,
    /// League or division.
    pub league: i32,
    /// Display name.
    pub name: String,
    /// Group tag.
    pub team_groups: i32,
}

impl Team {
    /// A team with zero numbers and the name `Null`.
    pub fn new() -> (r: Self)
        ensures
            r.id == 0,
            r.league == 0,
            r.name@ == "Null"@,
            r.team_groups == 0,
    {
        Team { id: 0, league: 0, name: String::from_str("Null"), team_groups: 0 }
    }
}

/// One round of the tournament.
#[derive(Clone, Debug, PartialEq, Eq, Hash)]
pub struct Slot {
    /// Identifier of the slot.
    pub id: i32,
    /// Display name.
    pub name: String,
}

impl Slot {
    /// A slot with identifier zero and the name `Null`.
    pub fn new() -> (r: Self)
        ensures
            r.id == 0,
            r.name@ == "Null"@,
    {
        Slot { id: 0, name: String::from_str("Null") }
    }
}

/// Bounds the number of home (or away) games of a team in every window of
/// `c_intp` consecutive slots.
#[derive(Clone, Debug)]
pub struct CapacityConstraints {
    /// Length of the sliding window, in slots.
    pub c_intp: i32,
    /// Largest allowed count in a window.
    pub c_max: i32,
    /// Smallest allowed count in a window.
    pub c_min: i32,
    /// `'H'` counts home games, `'A'` counts away games; any other mode counts nothing.
    pub c_mode1: char,
    /// Secondary mode, kept as given.
    pub c_mode2: String,
    /// Penalty weight of a violation (not used in counting).
    pub c_penalty: i32,
    /// First team group the constraint applies to.
    pub c_team_groups1: i32,
    /// Second team group the constraint applies to.
    pub c_team_groups2: i32,
    /// Kind of constraint (e.g. hard or soft).
    pub c_type: String,
}

impl CapacityConstraints {
    /// A constraint with zero numbers, mode `'N'` and `Null` texts.
    pub fn new() -> (r: Self)
        ensures
            r.c_intp == 0,
            r.c_max == 0,
            r.c_min == 0,
            r.c_mode1 == 'N',
            r.c_mode2@ == "Null"@,
            r.c_penalty == 0,
            r.c_team_groups1 == 0,
            r.c_team_groups2 == 0,
            r.c_type@ == "Null"@,
    {
        CapacityConstraints {
            c_intp: 0,
            c_max: 0,
            c_min: 0,
            c_mode1: 'N',
            c_mode2: String::from_str("Null"),
            c_penalty: 0,
            c_team_groups1: 0,
            c_team_groups2: 0,
            c_type: String::from_str("Null"),
        }
    }
}

/// Bounds the number of slots between two consecutive meetings of the same
/// pair of teams.
#[derive(Clone, Debug)]
pub struct SeparationConstraints {
    /// A gap above this is a violation.
    pub c_max: i32,
    /// A gap at or below this is a violation.
    pub c_min: i32,
    /// Penalty weight of a violation (not used in counting).
    pub c_penalty: i32,
    /// Team group the constraint applies to.
    pub c_team_groups: i32,
    /// Kind of constraint (e.g. hard or soft).
    pub c_type: String,
}

impl SeparationConstraints {
    /// A constraint with zero numbers and the kind `Null`.
    pub fn new() -> (r: Self)
        ensures
            r.c_max == 0,
            r.c_min == 0,
            r.c_penalty == 0,
            r.c_team_groups == 0,
            r.c_type@ == "Null"@,
    {
        SeparationConstraints {
            c_max: 0,
            c_min: 0,
            c_penalty: 0,
            c_team_groups: 0,
            c_type: String::from_str("Null"),
        }
    }
}

/// The team identifiers of `teams`, in order.
pub open spec fn team_ids(teams: Seq<Team>) -> Seq<i32> {
    teams.map_values(|t: Team| t.id)
}

} // verus!
