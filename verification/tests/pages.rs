use book_parser::pages::{parse_range, PageRange, RangeErrorKind};

fn kind_of(s: &str) -> (RangeErrorKind, String) {
    match parse_range(s) {
        Ok(_) => panic!("expected an error for {s:?}"),
        Err(e) => (e.kind, e.text),
    }
}

#[test]
fn all_selects_everything() {
    let r = PageRange::all();
    assert!(r.is_all());
    assert!(r.contains(0));
    assert!(r.contains(u32::MAX));
    assert_eq!(r.label(), "");
}

#[test]
fn from_sorted_selects_exactly_the_numbers() {
    let r = PageRange::from_sorted(&[2, 4, 9]);
    assert!(!r.is_all());
    assert!(r.contains(2) && r.contains(4) && r.contains(9));
    assert!(!r.contains(3) && !r.contains(10) && !r.contains(0));
    assert_eq!(r.label(), "_[2,9]");
}

#[test]
fn labels_of_selections() {
    assert_eq!(PageRange::from_sorted(&[5]).label(), "_5");
    assert_eq!(PageRange::from_sorted(&[3, 4, 5, 6, 7]).label(), "_3..=7");
    assert_eq!(PageRange::from_sorted(&[1, 3]).label(), "_[1,3]");
    assert_eq!(PageRange::from_sorted(&[]).label(), "");
    assert_eq!(PageRange::from_sorted(&[0, u32::MAX]).label(), "_[0,4294967295]");
}

#[test]
fn select_keeps_order() {
    let r = PageRange::from_sorted(&[1, 3, 5]);
    assert_eq!(r.select(&vec![5, 4, 3, 2, 1, 3]), vec![5, 3, 1, 3]);
    assert_eq!(PageRange::all().select(&vec![7, 1]), vec![7, 1]);
}

#[test]
fn parse_range_numbers_and_ranges() {
    let r = parse_range("1..=3, 5,8..10").ok().unwrap();
    for n in [1, 2, 3, 5, 8, 9] {
        assert!(r.contains(n), "{n} should be selected");
    }
    for n in [0, 4, 6, 7, 10] {
        assert!(!r.contains(n), "{n} should not be selected");
    }
    assert_eq!(r.label(), "_[1,9]");
    assert_eq!(parse_range("3..=7").ok().unwrap().label(), "_3..=7");
    assert_eq!(parse_range("517").ok().unwrap().label(), "_517");
    assert_eq!(parse_range("+7,007").ok().unwrap().label(), "_7");
    assert_eq!(parse_range("1,2,4").ok().unwrap().label(), "_[1,4]");
    assert_eq!(parse_range("4..5").ok().unwrap().label(), "_4");
    assert_eq!(parse_range(",,2,").ok().unwrap().label(), "_2");
}

#[test]
fn parse_range_errors() {
    assert_eq!(kind_of("abc"), (RangeErrorKind::Invalid, "abc".to_string()));
    assert_eq!(kind_of("1, x..2"), (RangeErrorKind::Invalid, "x..2".to_string()));
    assert_eq!(kind_of("1...3"), (RangeErrorKind::Invalid, "1...3".to_string()));
    assert_eq!(kind_of("5..0"), (RangeErrorKind::EmptyRange, "5..0".to_string()));
    assert_eq!(kind_of("7..=3"), (RangeErrorKind::EmptyRange, "7..=3".to_string()));
    assert_eq!(kind_of("3..3"), (RangeErrorKind::EmptyRange, "3..3".to_string()));
    assert_eq!(kind_of(".."), (RangeErrorKind::OpenEnded, "..".to_string()));
    assert_eq!(kind_of("3, ..="), (RangeErrorKind::OpenEnded, "..=".to_string()));
    assert_eq!(kind_of("..0"), (RangeErrorKind::EmptyRange, "..0".to_string()));
    assert_eq!(kind_of("99999999999..=1"), (RangeErrorKind::NumberTooLarge, "99999999999..=1".to_string()));
    assert_eq!(kind_of(""), (RangeErrorKind::NothingSelected, "".to_string()));
    assert_eq!(kind_of(" , "), (RangeErrorKind::NothingSelected, " , ".to_string()));
}

#[test]
fn open_ended_range_on_its_own() {
    let r = parse_range(" 5.. ").ok().unwrap();
    assert!(!r.is_all());
    assert!(r.contains(5) && r.contains(6) && r.contains(u32::MAX));
    assert!(!r.contains(4) && !r.contains(0));
    assert_eq!(r.label(), "_5..=4294967295");
    let r = parse_range("..=20").ok().unwrap();
    assert!(r.contains(0) && r.contains(20) && !r.contains(21));
    assert_eq!(r.label(), "_0..=20");
    let r = parse_range("..20").ok().unwrap();
    assert!(r.contains(19) && !r.contains(20));
    assert_eq!(r.select(&vec![25, 3, 19, 20]), vec![3, 19]);
    assert_eq!(parse_range("4294967295..").ok().unwrap().label(), "_4294967295");
    assert_eq!(parse_range("..=0").ok().unwrap().label(), "_0");
}

#[test]
fn lists_select_the_union_of_their_parts() {
    let r = parse_range("5..,3").ok().unwrap();
    assert!(r.contains(3) && r.contains(5) && r.contains(u32::MAX));
    assert!(!r.contains(4) && !r.contains(2));
    assert_eq!(r.label(), "_[3,4294967295]");
    let r = parse_range("..=20, 30").ok().unwrap();
    assert!(r.contains(0) && r.contains(20) && r.contains(30));
    assert!(!r.contains(21) && !r.contains(31));
    assert_eq!(r.label(), "_[0,30]");
    // Numbers that fill the stretch between the open ends make one run.
    assert_eq!(parse_range("..=2, 3, 4..").ok().unwrap().label(), "_0..=4294967295");
    assert_eq!(parse_range("..=2, 5..").ok().unwrap().label(), "_[0,4294967295]");
    assert_eq!(parse_range("10.., 7..12, 8").ok().unwrap().label(), "_7..=4294967295");
    assert_eq!(parse_range("..5, 9.., 5..=8").ok().unwrap().label(), "_0..=4294967295");
    let r = parse_range("1,5..").ok().unwrap();
    assert_eq!(r.select(&vec![6, 1, 2, 5]), vec![6, 1, 5]);
    // Order and repetition do not matter.
    assert_eq!(parse_range("9..,..3,9..").ok().unwrap().label(), parse_range("..3,9..").ok().unwrap().label());
}
