use postgres_named_parameters::binder::{bind, find_field, BindError, Field};
use postgres_named_parameters::numberify::rewrite;
use postgres_named_parameters::query::Query;
use postgres_named_parameters::statement::Statement;

fn declared(list: &[&str]) -> Vec<String> {
    list.iter().map(|name| name.to_string()).collect()
}

fn field(name: &str, value: &str) -> Field<String> {
    Field { name: name.to_string(), value: value.to_string() }
}

#[test]
fn values_come_in_position_order() {
    let rewritten = rewrite(
        "SELECT * FROM Person WHERE (first_name = @name OR last_name = @name) AND alive = @alive",
        &declared(&["alive", "name"]),
    )
    .unwrap();
    let record = vec![field("alive", "true"), field("name", "John")];
    let values = bind(&rewritten.table, &record).unwrap();
    assert_eq!(values, vec![&"John".to_string(), &"true".to_string()]);
}

#[test]
fn the_value_at_a_slot_is_the_field_of_its_name() {
    let rewritten = rewrite("@c @a @c @b", &declared(&["a", "b", "c"])).unwrap();
    let record = vec![field("b", "2"), field("c", "3"), field("a", "1")];
    let values = bind(&rewritten.table, &record).unwrap();
    assert_eq!(values.len(), 3);
    for slot in &rewritten.table.slots {
        let at = find_field(&record, &slot.name).unwrap();
        assert_eq!(values[slot.position - 1], &record[at].value);
    }
    assert_eq!(rewritten.sql, "$1 $2 $1 $3");
    assert_eq!(values, vec![&"3".to_string(), &"1".to_string(), &"2".to_string()]);
}

#[test]
fn missing_field_is_told() {
    let rewritten = rewrite("@a @b", &declared(&["a", "b"])).unwrap();
    let record = vec![field("a", "1")];
    assert_eq!(bind(&rewritten.table, &record), Err(BindError::MissingField("b".to_string())));
}

#[test]
fn only_a_placeholder_can_be_missing() {
    let rewritten = rewrite("@c", &declared(&["a", "b", "c"])).unwrap();
    let record = vec![field("b", "2")];
    assert_eq!(bind(&rewritten.table, &record), Err(BindError::MissingField("c".to_string())));
    let record = vec![field("c", "3")];
    assert_eq!(bind(&rewritten.table, &record).unwrap(), vec![&"3".to_string()]);
}

#[test]
fn first_missing_placeholder_is_the_one_told() {
    let rewritten = rewrite("@c @a @b", &declared(&["a", "b", "c"])).unwrap();
    let record = vec![field("c", "3")];
    assert_eq!(bind(&rewritten.table, &record), Err(BindError::MissingField("a".to_string())));
    let record = vec![field("a", "1"), field("b", "2")];
    assert_eq!(bind(&rewritten.table, &record), Err(BindError::MissingField("c".to_string())));
}

#[test]
fn an_unused_field_takes_no_slot() {
    let rewritten = rewrite("SELECT @a, @a", &declared(&["a", "b"])).unwrap();
    let record = vec![field("b", "2"), field("a", "1")];
    assert_eq!(bind(&rewritten.table, &record).unwrap(), vec![&"1".to_string()]);
    let record = vec![field("a", "1")];
    assert_eq!(bind(&rewritten.table, &record).unwrap(), vec![&"1".to_string()]);
}

#[test]
fn first_field_of_a_name_is_taken() {
    let rewritten = rewrite("@a", &declared(&["a"])).unwrap();
    let record = vec![field("x", "0"), field("a", "first"), field("a", "second")];
    assert_eq!(bind(&rewritten.table, &record).unwrap(), vec![&"first".to_string()]);
    assert_eq!(find_field(&record, &"a".to_string()), Some(1));
    assert_eq!(find_field(&record, &"b".to_string()), None);
}

#[test]
fn nothing_declared_binds_nothing() {
    let rewritten = rewrite("CREATE TABLE Users ()", &declared(&[])).unwrap();
    let record: Vec<Field<String>> = vec![field("unused", "1")];
    assert_eq!(bind(&rewritten.table, &record).unwrap(), Vec::<&String>::new());
}

#[test]
fn statement_is_defined_once_and_bound_each_time() {
    let statement = Statement::new("DELETE FROM Person WHERE id = @id", &declared(&["id"])).unwrap();
    assert_eq!(statement.sql(), "DELETE FROM Person WHERE id = $1");
    let first = vec![Field { name: "id".to_string(), value: 123 }];
    let second = vec![Field { name: "id".to_string(), value: 7 }];
    assert_eq!(statement.parameters(&first).unwrap(), vec![&123]);
    assert_eq!(statement.parameters(&second).unwrap(), vec![&7]);
    let other = vec![Field { name: "idd".to_string(), value: 7 }];
    assert_eq!(statement.parameters(&other), Err(BindError::MissingField("id".to_string())));
}

#[test]
fn bad_statement_is_refused_when_defined() {
    assert_eq!(
        Statement::new("DELETE FROM Person WHERE id = @idd", &declared(&["id"])).unwrap_err().message(),
        "The provided SQL contains \"@idd\", but there is no matching field in the struct with the name \"idd\""
    );
    assert!(Statement::new("DELETE FROM Person WHERE id = @", &declared(&["id"])).is_err());
}

#[test]
fn query_is_defined_once_and_bound_each_time() {
    let query = Query::new(
        "SELECT * FROM Person WHERE (first_name = @name OR last_name = @name) AND alive = @alive",
        &declared(&["alive", "name"]),
    )
    .unwrap();
    assert_eq!(
        query.sql(),
        "SELECT * FROM Person WHERE (first_name = $1 OR last_name = $1) AND alive = $2"
    );
    let record = vec![field("alive", "true"), field("name", "John")];
    assert_eq!(query.parameters(&record).unwrap(), vec![&"John".to_string(), &"true".to_string()]);
    assert!(Query::new("@missing", &declared(&[])).is_err());
}
