use postgres_named_parameters::binder::Field;
use postgres_named_parameters::transpose::{column_of, transpose, Column};

#[derive(Debug, PartialEq)]
enum Value {
    Text(String),
    Int(i32),
    Bool(bool),
}

fn text(s: &str) -> Value {
    Value::Text(s.to_string())
}

fn field(name: &str, value: Value) -> Field<Value> {
    Field { name: name.to_string(), value }
}

fn names(list: &[&str]) -> Vec<String> {
    list.iter().map(|name| name.to_string()).collect()
}

#[test]
fn two_records_give_two_columns() {
    let records = vec![
        vec![field("n", text("A")), field("v", Value::Int(1))],
        vec![field("n", text("B")), field("v", Value::Int(2))],
    ];
    let columns = transpose(&records, &names(&["n", "v"]));
    assert_eq!(
        columns,
        vec![
            Column { name: "n".to_string(), values: vec![Some(&text("A")), Some(&text("B"))] },
            Column { name: "v".to_string(), values: vec![Some(&Value::Int(1)), Some(&Value::Int(2))] },
        ]
    );
}

#[test]
fn every_column_is_as_long_as_the_records() {
    let people = [("John", "Doe", None, true), ("Long", "Da", Some("Cello"), true), ("A", "B", None, false)];
    let records: Vec<Vec<Field<Value>>> = people
        .iter()
        .map(|(first, last, hobby, alive)| {
            let mut record = vec![field("first_name", text(first)), field("last_name", text(last))];
            if let Some(hobby) = hobby {
                record.push(field("hobby", text(hobby)));
            }
            record.push(field("alive", Value::Bool(*alive)));
            record
        })
        .collect();
    let fields = names(&["first_name", "last_name", "hobby", "alive"]);
    let columns = transpose(&records, &fields);
    assert_eq!(columns.len(), fields.len());
    for (j, column) in columns.iter().enumerate() {
        assert_eq!(column.name, fields[j]);
        assert_eq!(column.values.len(), records.len());
        for (i, record) in records.iter().enumerate() {
            let expected = record.iter().find(|f| f.name == fields[j]).map(|f| &f.value);
            assert_eq!(column.values[i], expected);
        }
    }
    assert_eq!(columns[2].values, vec![None, Some(&text("Cello")), None]);
    assert_eq!(
        columns[3].values,
        vec![Some(&Value::Bool(true)), Some(&Value::Bool(true)), Some(&Value::Bool(false))]
    );
}

#[test]
fn no_records_give_empty_columns() {
    let records: Vec<Vec<Field<Value>>> = vec![];
    let columns = transpose(&records, &names(&["a", "b"]));
    assert_eq!(
        columns,
        vec![
            Column { name: "a".to_string(), values: vec![] },
            Column { name: "b".to_string(), values: vec![] },
        ]
    );
}

#[test]
fn no_fields_give_no_columns() {
    let records = vec![vec![field("a", Value::Int(1))]];
    assert_eq!(transpose(&records, &names(&[])), vec![]);
}

#[test]
fn order_of_fields_in_a_record_does_not_matter() {
    let records = vec![
        vec![field("a", Value::Int(1)), field("b", Value::Int(2))],
        vec![field("b", Value::Int(4)), field("a", Value::Int(3))],
    ];
    let columns = transpose(&records, &names(&["b", "a"]));
    assert_eq!(columns[0].values, vec![Some(&Value::Int(2)), Some(&Value::Int(4))]);
    assert_eq!(columns[1].values, vec![Some(&Value::Int(1)), Some(&Value::Int(3))]);
}

#[test]
fn transposing_twice_gives_the_same() {
    let records = vec![
        vec![field("n", text("A")), field("v", Value::Int(1))],
        vec![field("n", text("B"))],
    ];
    let fields = names(&["v", "n", "w"]);
    assert_eq!(transpose(&records, &fields), transpose(&records, &fields));
}

#[test]
fn one_column_alone() {
    let records = vec![
        vec![field("n", text("A")), field("n", text("shadowed"))],
        vec![field("v", Value::Int(2))],
    ];
    let n = column_of(&records, &"n".to_string());
    assert_eq!(n, Column { name: "n".to_string(), values: vec![Some(&text("A")), None] });
}
