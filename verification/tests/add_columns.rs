use data_generation::add_columns::{first_match, mtr_rows, with_columns_expr, RouteStop, StopColumn};

fn stop(t: &str, id: &str, seq: &str, s: Option<u32>, n: Option<u32>) -> RouteStop {
    RouteStop {
        transport: t.to_string(),
        route_id: id.to_string(),
        route_seq: seq.to_string(),
        stop_seq: s,
        next_stop_seq: n,
    }
}

fn main_table() -> Vec<RouteStop> {
    vec![
        stop("BUS", "1", "1", Some(1), Some(2)),
        stop("BUS", "1", "1", Some(2), Some(3)),
        stop("MTR", "9", "1", Some(1), Some(2)),
        stop("BUS", "1", "2", Some(1), Some(2)),
        stop("BUS", "1", "1", Some(2), Some(5)),
        stop("MTR", "9", "1", Some(2), None),
    ]
}

#[test]
fn first_match_finds_the_first_answering_row() {
    let main = main_table();
    assert_eq!(first_match(&main, &stop("BUS", "1", "1", Some(2), Some(9)), StopColumn::Stop), Some(1));
    assert_eq!(first_match(&main, &stop("BUS", "1", "2", Some(1), None), StopColumn::Stop), Some(3));
    assert_eq!(first_match(&main, &stop("BUS", "1", "1", Some(7), Some(5)), StopColumn::NextStop), Some(4));
    assert_eq!(first_match(&main, &stop("BUS", "2", "1", Some(1), Some(2)), StopColumn::Stop), None);
    assert_eq!(first_match(&main, &stop("MTR", "9", "1", None, None), StopColumn::NextStop), None);
}

#[test]
fn with_columns_expr_looks_up_every_row() {
    let main = main_table();
    let rows = vec![
        stop("BUS", "1", "1", Some(1), Some(3)),
        stop("BUS", "1", "1", Some(2), Some(5)),
        stop("BUS", "3", "1", Some(1), Some(2)),
    ];
    assert_eq!(with_columns_expr(&main, StopColumn::Stop, &rows), vec![Some(0), Some(1), None]);
    assert_eq!(with_columns_expr(&main, StopColumn::NextStop, &rows), vec![Some(1), Some(4), None]);
    assert!(with_columns_expr(&main, StopColumn::Stop, &Vec::new()).is_empty());
}

#[test]
fn mtr_rows_are_carried_over_in_order() {
    assert_eq!(mtr_rows(&main_table()), vec![2, 5]);
    assert!(mtr_rows(&Vec::new()).is_empty());
}
