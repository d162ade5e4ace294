use data_generation::no_change::{direct_routes, journey_legs, DirectRoute, Segment};

fn seg(t: &str, id: &str, seq: &str, s: Option<u32>, d: Option<&str>, n: Option<u32>, nd: Option<&str>) -> Segment {
    Segment {
        transport: t.to_string(),
        route_id: id.to_string(),
        route_seq: seq.to_string(),
        stop_seq: s,
        district: d.map(|x| x.to_string()),
        next_stop_seq: n,
        next_district: nd.map(|x| x.to_string()),
    }
}

fn names(v: &[&str]) -> Vec<String> {
    v.iter().map(|s| s.to_string()).collect()
}

fn sample() -> Vec<Segment> {
    vec![
        // bus 1: A -> A -> B -> C
        seg("BUS", "1", "1", Some(1), Some("A"), Some(2), Some("A")),
        seg("BUS", "1", "1", Some(2), Some("A"), Some(3), Some("B")),
        seg("BUS", "1", "1", Some(3), Some("B"), Some(4), Some("C")),
        // MTR line: A -> C, never taken here
        seg("MTR", "9", "1", Some(1), Some("A"), Some(2), Some("C")),
        // minibus 2: C -> A
        seg("GMB", "2", "1", Some(1), Some("C"), Some(2), Some("A")),
    ]
}

#[test]
fn direct_routes_finds_forward_journeys() {
    let rows = sample();
    let out = direct_routes(&rows, &names(&["A", "C"]));
    // A->A: route 1 boards at 1,2 ; leaves A at 2 (row 0). 1<2 only.
    // A->C: route 1 boards 1,2 ; leaves C at 4 -> (1,4),(2,4).
    // C->A: minibus boards 1 ; leaves A at 2 -> (1,2) ; bus 1 boards nothing in C.
    // C->C: bus 1 leaves C at 4, boards nothing in C; minibus boards at 1, leaves C nowhere.
    assert_eq!(
        out,
        vec![
            DirectRoute { route: 0, stop_seq: 1, next_stop_seq: 2 },
            DirectRoute { route: 0, stop_seq: 1, next_stop_seq: 4 },
            DirectRoute { route: 0, stop_seq: 2, next_stop_seq: 4 },
            DirectRoute { route: 4, stop_seq: 1, next_stop_seq: 2 },
        ]
    );
}

#[test]
fn direct_routes_never_uses_the_mtr() {
    let rows = vec![seg("MTR", "9", "1", Some(1), Some("A"), Some(2), Some("C"))];
    assert!(direct_routes(&rows, &names(&["A", "C"])).is_empty());
}

#[test]
fn direct_routes_skips_backward_and_missing_stops() {
    let rows = vec![
        seg("BUS", "5", "2", Some(7), Some("A"), Some(8), Some("B")),
        seg("BUS", "5", "2", Some(3), Some("B"), None, Some("A")),
        seg("BUS", "5", "2", None, Some("A"), Some(9), None),
    ];
    // A->B: boards at 7, leaves B at 8; B->B: boards at 3, leaves B at 8.
    // Rows without a stop number take no part.
    let out = direct_routes(&rows, &names(&["A", "B"]));
    assert_eq!(
        out,
        vec![
            DirectRoute { route: 0, stop_seq: 7, next_stop_seq: 8 },
            DirectRoute { route: 0, stop_seq: 3, next_stop_seq: 8 },
        ]
    );
}

#[test]
fn direct_routes_groups_by_first_qualifying_segment() {
    let rows = vec![
        seg("BUS", "7", "1", Some(5), Some("X"), Some(6), Some("B")),
        seg("BUS", "8", "1", Some(1), Some("A"), Some(2), Some("B")),
        seg("BUS", "7", "1", Some(1), Some("A"), Some(2), Some("X")),
    ];
    // A->B: route 7 qualifies first through row 0 (ends in B); route 8 through row 1.
    let out = direct_routes(&rows, &names(&["A", "B"]));
    assert_eq!(
        out,
        vec![
            DirectRoute { route: 0, stop_seq: 1, next_stop_seq: 6 },
            DirectRoute { route: 1, stop_seq: 1, next_stop_seq: 2 },
        ]
    );
}

#[test]
fn direct_routes_with_no_districts_is_empty() {
    assert!(direct_routes(&sample(), &Vec::new()).is_empty());
}

#[test]
fn journey_legs_are_the_segments_in_between() {
    let rows = sample();
    assert_eq!(journey_legs(&rows, 0, 1, 4), vec![0, 1, 2]);
    assert_eq!(journey_legs(&rows, 0, 2, 4), vec![1, 2]);
    assert_eq!(journey_legs(&rows, 0, 2, 3), vec![1]);
    assert_eq!(journey_legs(&rows, 4, 1, 2), vec![4]);
    assert!(journey_legs(&rows, 0, 3, 3).is_empty());
}
