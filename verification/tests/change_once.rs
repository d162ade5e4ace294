use data_generation::change_once::{distinct_districts, open_leg, transfer_pairs, Leg, Transfer};

fn leg(d: Option<&str>, n: Option<&str>) -> Leg {
    Leg { district: d.map(|x| x.to_string()), next_district: n.map(|x| x.to_string()) }
}

fn names(v: &[&str]) -> Vec<String> {
    v.iter().map(|s| s.to_string()).collect()
}

#[test]
fn distinct_districts_keeps_first_occurrences() {
    let out = distinct_districts(&names(&["B", "A", "B", "C", "A"]));
    assert_eq!(out, names(&["B", "A", "C"]));
    assert!(distinct_districts(&Vec::new()).is_empty());
}

#[test]
fn transfer_pairs_joins_unreached_districts() {
    let rows = vec![
        leg(Some("A"), Some("B")), // 0
        leg(Some("B"), Some("C")), // 1
        leg(Some("A"), Some("A")), // 2
        leg(Some("C"), Some("C")), // 3
    ];
    let out = transfer_pairs(&rows, &names(&["A", "B", "C"])).unwrap();
    // From A: reaches A, B directly; C is not reached: departures {0, 2} x arrivals at C {1, 3}.
    // From B: reaches C; A is not reached but no row arrives at A other than row 2.
    //   B->A: departures {1} x arrivals at A {2}.
    // From C: reaches C; A: {3} x {2}; B: {3} x {0}.
    assert_eq!(
        out,
        vec![
            Transfer { first: 0, second: 1 },
            Transfer { first: 0, second: 3 },
            Transfer { first: 2, second: 1 },
            Transfer { first: 2, second: 3 },
            Transfer { first: 1, second: 2 },
            Transfer { first: 3, second: 2 },
            Transfer { first: 3, second: 0 },
        ]
    );
}

#[test]
fn transfer_pairs_refuses_an_open_leg() {
    let rows = vec![leg(Some("A"), None), leg(Some("B"), Some("A"))];
    assert!(open_leg(&rows, &names(&["A", "B"])));
    assert_eq!(transfer_pairs(&rows, &names(&["A", "B"])), None);
    // An open leg from a district outside the list does not matter.
    assert!(!open_leg(&rows, &names(&["B"])));
    assert_eq!(transfer_pairs(&rows, &names(&["B"])), Some(vec![]));
}

#[test]
fn transfer_pairs_never_pairs_directly_joined_districts() {
    let rows = vec![leg(Some("A"), Some("B")), leg(Some("B"), Some("A"))];
    assert_eq!(transfer_pairs(&rows, &names(&["A", "B"])), Some(vec![]));
}
