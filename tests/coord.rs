use hoydedata::coord::Coord;

#[test]
fn new_coord() {
    let c = Coord::new(1050, -1130);
    assert_eq!(c.e, 1050);
    assert_eq!(c.n, -1130);
}

#[test]
fn format() {
    let c = Coord::new(1050, -1130);
    let f = c.to_string();
    assert_eq!(f, "N-11.3E10.5");
}

#[test]
fn format_whole_and_two_decimals() {
    assert_eq!(Coord::new(0, 0).to_string(), "N0E0");
    assert_eq!(Coord::new(12500, -5).to_string(), "N-0.05E125");
    assert_eq!(Coord::new(7402882, 685737859).to_string(), "N6857378.59E74028.82");
}

#[test]
fn parse_numeric_form() {
    assert_eq!(Coord::from_str("N-11.3E10.5"), Ok(Coord::new(1050, -1130)));
    assert_eq!(Coord::from_str("N6789745E100"), Ok(Coord::new(10000, 678974500)));
    assert_eq!(Coord::from_str("N0.05E-3.25"), Ok(Coord::new(-325, 5)));
}

#[test]
fn parse_more_decimals_truncates() {
    assert_eq!(Coord::from_str("N1.234E5"), Ok(Coord::new(500, 123)));
    assert_eq!(Coord::from_str("N6789745.129E100"), Ok(Coord::new(10000, 678974512)));
    assert_eq!(Coord::from_str("N-0.999E0"), Ok(Coord::new(0, -99)));
}

#[test]
fn parse_bare_point_forms() {
    assert_eq!(Coord::from_str("N.5E1"), Ok(Coord::new(100, 50)));
    assert_eq!(Coord::from_str("N5.E-.25"), Ok(Coord::new(-25, 500)));
}

#[test]
fn parse_named_place() {
    assert_eq!(Coord::from_str("Koven"), Ok(Coord::new(79600084, 780156174)));
    assert_eq!(Coord::from_str("Store Skagastølstind"), Ok(Coord::new(12060900, 683496293)));
}

#[test]
fn parse_rejects_malformed() {
    assert_eq!(Coord::from_str("X1E2"), Err(String::from("Invalid coordinate X1E2")));
    assert!(Coord::from_str("N1E").is_err());
    assert!(Coord::from_str("N.E1").is_err());
    assert!(Coord::from_str("N1.2.3E1").is_err());
    assert!(Coord::from_str("N1E2E3").is_err());
    assert!(Coord::from_str("N99999999E1").is_err());
    assert!(Coord::from_str("").is_err());
}

#[test]
fn text_round_trip() {
    for c in [Coord::new(1050, -1130), Coord::new(-1, 7), Coord::new(2_000_000_000, -2_000_000_000), Coord::new(10, 100)] {
        assert_eq!(Coord::from_str(&c.to_string()), Ok(c));
    }
}

#[test]
fn named_place_parses_to_numeric_form() {
    let c = Coord::from_str("Snøhetta").unwrap();
    assert_eq!(c.to_string(), "N6922988.3E203182.98");
}

#[test]
fn arithmetic() {
    let a = Coord::new(300, -200);
    let b = Coord::new(-100, 50);
    assert_eq!(a.add(b), Coord::new(200, -150));
    assert_eq!(a.sub(b), Coord::new(400, -250));
    assert_eq!(a.mul(3), Coord::new(900, -600));
    assert_eq!(a.rot90(), Coord::new(200, 300));
    assert_eq!(a.dot(&b), -30000 - 10000);
    assert_eq!(a.abs_sq(), 90000 + 40000);
    let mut c = a;
    c.add_assign(b);
    assert_eq!(c, Coord::new(200, -150));
}
