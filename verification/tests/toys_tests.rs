use protohack::toys::Toy;

#[test]
fn test_display_formatting() {
    let toy = Toy {
        amount: 3,
        name: "Teddy Bear  ".into(),
    };
    assert_eq!(toy.to_display_string(), "3x Teddy Bear\n");
}

#[test]
fn test_partial_eq_same_amount() {
    let toy1 = Toy {
        amount: 5,
        name: "Car".into(),
    };
    let toy2 = Toy {
        amount: 5,
        name: "Train".into(),
    };
    assert_eq!(toy1, toy2);
}

#[test]
fn test_partial_eq_different_amount() {
    let toy1 = Toy {
        amount: 4,
        name: "Car".into(),
    };
    let toy2 = Toy {
        amount: 6,
        name: "Car".into(),
    };
    assert_ne!(toy1, toy2);
}

#[test]
fn test_partial_ord_less_than() {
    let toy1 = Toy {
        amount: 1,
        name: "Car".into(),
    };
    let toy2 = Toy {
        amount: 2,
        name: "Truck".into(),
    };
    assert!(toy1 < toy2);
}

#[test]
fn test_partial_ord_greater_than() {
    let toy1 = Toy {
        amount: 10,
        name: "Spaceship".into(),
    };
    let toy2 = Toy {
        amount: 3,
        name: "Drone".into(),
    };
    assert!(toy1 > toy2);
}

#[test]
fn test_partial_ord_equal() {
    let toy1 = Toy {
        amount: 7,
        name: "Ball".into(),
    };
    let toy2 = Toy {
        amount: 7,
        name: "Ball".into(),
    };
    assert!(toy1.partial_cmp(&toy2) == Some(std::cmp::Ordering::Equal));
}

#[test]
fn test_parse_picks_largest() {
    let toys = protohack::toys::parse_toys("4x dog,5x car");
    assert_eq!(toys.len(), 2);
    assert_eq!(toys[0].amount, 4);
    assert_eq!(toys[0].name, " dog");
    let best = protohack::toys::largest_toy(&toys);
    assert_eq!(best, Some(1));
}

#[test]
fn test_reply_for_line() {
    let reply = protohack::toys::reply_for_line("4x dog,5x car\n");
    assert_eq!(reply, Some("5x car\n".to_string()));
}

#[test]
fn test_reply_skips_bad_entries() {
    let reply = protohack::toys::reply_for_line("no count,12x kite");
    assert_eq!(reply, Some("12x kite\n".to_string()));
    assert_eq!(protohack::toys::reply_for_line(""), None);
}
