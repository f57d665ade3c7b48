use postgres_named_parameters::query::{decode_rows, Query};
use std::cell::Cell;

fn query() -> Query {
    Query::new("SELECT * FROM Person", &Vec::new()).unwrap()
}

fn decode(row: &i32) -> Result<String, String> {
    if *row < 0 {
        Err(format!("bad row {}", row))
    } else {
        Ok(format!("row {}", row))
    }
}

#[test]
fn all_rows_are_decoded_in_order() {
    let fetched: Result<Vec<i32>, String> = Ok(vec![3, 1, 2]);
    assert_eq!(
        query().query_all(fetched, decode),
        Ok(vec!["row 3".to_string(), "row 1".to_string(), "row 2".to_string()])
    );
}

#[test]
fn no_rows_are_no_records() {
    let fetched: Result<Vec<i32>, String> = Ok(vec![]);
    assert_eq!(query().query_all(fetched, decode), Ok(vec![]));
}

#[test]
fn first_bad_row_fails_all_rows() {
    let fetched: Result<Vec<i32>, String> = Ok(vec![1, -2, 3, -4]);
    assert_eq!(query().query_all(fetched, decode), Err("bad row -2".to_string()));
}

#[test]
fn rows_behind_a_bad_row_are_not_decoded() {
    let calls = Cell::new(0);
    let counting = |row: &i32| {
        calls.set(calls.get() + 1);
        decode(row)
    };
    let rows = vec![1, 2, -3, 4, 5];
    assert_eq!(decode_rows(&rows, &counting), Err("bad row -3".to_string()));
    assert_eq!(calls.get(), 3);
}

#[test]
fn each_row_is_decoded_once() {
    let calls = Cell::new(0);
    let counting = |row: &i32| {
        calls.set(calls.get() + 1);
        decode(row)
    };
    let fetched: Result<Vec<i32>, String> = Ok(vec![1, 2, 3, 4]);
    assert_eq!(query().query_all(fetched, counting).unwrap().len(), 4);
    assert_eq!(calls.get(), 4);
}

#[test]
fn driver_failure_is_handed_on() {
    let calls = Cell::new(0);
    let counting = |row: &i32| {
        calls.set(calls.get() + 1);
        decode(row)
    };
    let fetched: Result<Vec<i32>, String> = Err("connection lost".to_string());
    assert_eq!(query().query_all(fetched, &counting), Err("connection lost".to_string()));
    let fetched: Result<Option<i32>, String> = Err("more than one row".to_string());
    assert_eq!(query().query_opt(fetched, &counting), Err("more than one row".to_string()));
    let fetched: Result<i32, String> = Err("no rows".to_string());
    assert_eq!(query().query_one(fetched, &counting), Err("no rows".to_string()));
    assert_eq!(calls.get(), 0);
}

#[test]
fn optional_row_may_be_none() {
    let fetched: Result<Option<i32>, String> = Ok(None);
    assert_eq!(query().query_opt(fetched, decode), Ok(None));
}

#[test]
fn optional_row_is_decoded() {
    let fetched: Result<Option<i32>, String> = Ok(Some(5));
    assert_eq!(query().query_opt(fetched, decode), Ok(Some("row 5".to_string())));
    let fetched: Result<Option<i32>, String> = Ok(Some(-5));
    assert_eq!(query().query_opt(fetched, decode), Err("bad row -5".to_string()));
}

#[test]
fn required_row_is_decoded() {
    let fetched: Result<i32, String> = Ok(8);
    assert_eq!(query().query_one(fetched, decode), Ok("row 8".to_string()));
    let fetched: Result<i32, String> = Ok(-8);
    assert_eq!(query().query_one(fetched, decode), Err("bad row -8".to_string()));
}
