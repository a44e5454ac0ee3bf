use ttpgen::xml_manager::{parse_number, XmlManager};

fn attrs(pairs: &[(&str, &str)]) -> Vec<(String, String)> {
    pairs.iter().map(|(n, v)| (n.to_string(), v.to_string())).collect()
}

#[test]
fn numbers_read_like_i32() {
    assert_eq!(parse_number("42"), 42);
    assert_eq!(parse_number("-17"), -17);
    assert_eq!(parse_number("+8"), 8);
    assert_eq!(parse_number("007"), 7);
    assert_eq!(parse_number("2147483647"), i32::MAX);
    assert_eq!(parse_number("-2147483648"), i32::MIN);
    assert_eq!(parse_number("2147483648"), 0);
    assert_eq!(parse_number("-2147483649"), 0);
    assert_eq!(parse_number("99999999999999999999"), 0);
    assert_eq!(parse_number(""), 0);
    assert_eq!(parse_number("-"), 0);
    assert_eq!(parse_number("+"), 0);
    assert_eq!(parse_number(" 5"), 0);
    assert_eq!(parse_number("5x"), 0);
    assert_eq!(parse_number("--5"), 0);
}

#[test]
fn team_from_attributes() {
    let t = XmlManager::parse_team(&attrs(&[("id", "5"), ("league", "1"), ("name", "Eagles"), ("teamGroups", "2")]));
    assert_eq!((t.id, t.league, t.name.as_str(), t.team_groups), (5, 1, "Eagles", 2));
}

#[test]
fn team_defaults_and_bad_numbers() {
    let t = XmlManager::parse_team(&attrs(&[("id", "x"), ("color", "red")]));
    assert_eq!((t.id, t.league, t.name.as_str(), t.team_groups), (0, 0, "Null", 0));
}

#[test]
fn later_attribute_overrides() {
    let t = XmlManager::parse_team(&attrs(&[("id", "5"), ("id", "6")]));
    assert_eq!(t.id, 6);
}

#[test]
fn slot_from_attributes() {
    let s = XmlManager::parse_slot(&attrs(&[("id", "3"), ("name", "ATL")]));
    assert_eq!((s.id, s.name.as_str()), (3, "ATL"));
}

#[test]
fn distance_from_attributes() {
    let d = XmlManager::parse_distance(&attrs(&[("dist", "15"), ("team1", "2"), ("team2", "5")]));
    assert_eq!((d.dist, d.team1, d.team2), (15, 2, 5));
}

#[test]
fn capacity_from_attributes() {
    let c = XmlManager::parse_capacity(&attrs(&[
        ("intp", "2"),
        ("max", "5"),
        ("min", "1"),
        ("mode1", "H"),
        ("mode2", "A"),
        ("penalty", "10"),
        ("teamGroups1", "3"),
        ("teamGroups2", "2"),
        ("type", "hard"),
    ]));
    assert_eq!((c.c_intp, c.c_max, c.c_min, c.c_mode1, c.c_penalty), (2, 5, 1, 'H', 10));
    assert_eq!((c.c_mode2.as_str(), c.c_team_groups1, c.c_team_groups2, c.c_type.as_str()), ("A", 3, 2, "hard"));
}

#[test]
fn capacity_mode_defaults() {
    assert_eq!(XmlManager::parse_capacity(&attrs(&[])).c_mode1, 'N');
    assert_eq!(XmlManager::parse_capacity(&attrs(&[("mode1", "")])).c_mode1, 'n');
    assert_eq!(XmlManager::parse_capacity(&attrs(&[("mode1", "Away")])).c_mode1, 'A');
}

#[test]
fn separation_from_attributes() {
    let s = XmlManager::parse_separation(&attrs(&[
        ("max", "3"),
        ("min", "1"),
        ("penalty", "5"),
        ("teamGroups", "2"),
        ("type", "soft"),
    ]));
    assert_eq!((s.c_max, s.c_min, s.c_penalty, s.c_team_groups, s.c_type.as_str()), (3, 1, 5, 2, "soft"));
}
