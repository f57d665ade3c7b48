use postgres_named_parameters::expansion::{expand, Data, Expansion};
use postgres_named_parameters::numberify::rewrite;
use postgres_named_parameters::query::{derive_query, derive_query_impl, find_sql, Attribute, Meta, Value};
use postgres_named_parameters::statement::derive_statement_impl;
use postgres_named_parameters::util::{
    get_field_identifiers, get_field_names, get_parameter_list, Fields,
};

fn named(list: &[&str]) -> Fields {
    Fields::Named(list.iter().map(|name| Some(name.to_string())).collect())
}

fn members(list: &[&str]) -> Vec<String> {
    list.iter().map(|name| name.to_string()).collect()
}

fn sql_attribute(sql: &str) -> Attribute {
    Attribute { ident: Some("sql".to_string()), meta: Meta::NameValue(Value::Str(sql.to_string())) }
}

#[test]
fn identifiers_keep_their_order() {
    let fields = vec![Some("b".to_string()), None, Some("a".to_string()), None];
    assert_eq!(get_field_identifiers(&fields), vec!["b".to_string(), "a".to_string()]);
    assert_eq!(get_field_identifiers(&vec![]), Vec::<String>::new());
}

#[test]
fn only_named_fields_declare_names() {
    assert_eq!(get_field_names(&named(&["alive", "name"])), vec!["alive".to_string(), "name".to_string()]);
    assert_eq!(get_field_names(&Fields::Unnamed(3)), Vec::<String>::new());
    assert_eq!(get_field_names(&Fields::Unit), Vec::<String>::new());
}

#[test]
fn parameters_are_the_placeholders_in_position_order() {
    let declared = get_field_names(&named(&["alive", "unused", "name"]));
    let rewritten = rewrite("@name, @alive, @name", &declared).unwrap();
    assert_eq!(get_parameter_list(&rewritten.table), members(&["name", "alive"]));
    let rewritten = rewrite("SELECT 1", &declared).unwrap();
    assert_eq!(get_parameter_list(&rewritten.table), Vec::<String>::new());
}

#[test]
fn query_is_derived_for_a_struct() {
    let derived = derive_query_impl(
        "SELECT * FROM Person WHERE (first_name = @name OR last_name = @name) AND alive = @alive"
            .to_string(),
        &Data::Struct(named(&["alive", "name"])),
    );
    assert_eq!(
        derived,
        Ok(Expansion {
            sql: "SELECT * FROM Person WHERE (first_name = $1 OR last_name = $1) AND alive = $2"
                .to_string(),
            parameters: members(&["name", "alive"]),
        })
    );
}

#[test]
fn statement_is_derived_for_a_struct() {
    let derived = derive_statement_impl(
        "INSERT INTO Person VALUES @people".to_string(),
        &Data::Struct(named(&["people"])),
    );
    assert_eq!(
        derived,
        Ok(Expansion {
            sql: "INSERT INTO Person VALUES $1".to_string(),
            parameters: members(&["people"]),
        })
    );
    let unit = derive_statement_impl("DELETE FROM Person".to_string(), &Data::Struct(Fields::Unit));
    assert_eq!(unit, Ok(Expansion { sql: "DELETE FROM Person".to_string(), parameters: vec![] }));
}

#[test]
fn only_structs_have_definitions() {
    assert_eq!(
        derive_query_impl("SELECT 1".to_string(), &Data::Enum),
        Err("#[derive(Query)] can only be used on structs".to_string())
    );
    assert_eq!(
        derive_statement_impl("SELECT 1".to_string(), &Data::Union),
        Err("#[derive(Statement)] can only be used on structs".to_string())
    );
}

#[test]
fn bad_sql_is_told_with_its_reason() {
    assert_eq!(
        derive_query_impl("SELECT @naame".to_string(), &Data::Struct(named(&["name"]))),
        Err("Error with SQL provided to #[derive(Query)]: The provided SQL contains \"@naame\", but there is no matching field in the struct with the name \"naame\"".to_string())
    );
    assert_eq!(
        derive_statement_impl("DELETE @".to_string(), &Data::Struct(named(&["id"]))),
        Err("Error with SQL provided to #[derive(Statement)]: Input SQL should not end with '@'. If a single literal '@' is desired, it should be doubled ('@@')".to_string())
    );
}

#[test]
fn tuple_struct_declares_no_names() {
    assert_eq!(
        derive_query_impl("SELECT 1".to_string(), &Data::Struct(Fields::Unnamed(2))),
        Ok(Expansion { sql: "SELECT 1".to_string(), parameters: vec![] })
    );
    assert!(derive_query_impl("SELECT @x".to_string(), &Data::Struct(Fields::Unnamed(2))).is_err());
}

#[test]
fn expansion_names_what_is_derived() {
    assert_eq!(
        expand("Other", "x".to_string(), &Data::Enum),
        Err("#[derive(Other)] can only be used on structs".to_string())
    );
}

#[test]
fn query_is_derived_from_the_sql_attribute() {
    let attributes = vec![
        Attribute { ident: Some("doc".to_string()), meta: Meta::NameValue(Value::Str("x".to_string())) },
        Attribute { ident: None, meta: Meta::Path },
        sql_attribute("SELECT * FROM Person WHERE age = @age AND name = @name"),
        sql_attribute("SELECT 2"),
    ];
    assert_eq!(find_sql(&attributes), Some(2));
    assert_eq!(
        derive_query(&attributes, &Data::Struct(named(&["name", "age"]))),
        Ok(Expansion {
            sql: "SELECT * FROM Person WHERE age = $1 AND name = $2".to_string(),
            parameters: members(&["age", "name"]),
        })
    );
}

#[test]
fn sql_attribute_is_required() {
    let attributes = vec![Attribute { ident: Some("query".to_string()), meta: Meta::List }];
    assert_eq!(find_sql(&attributes), None);
    assert_eq!(
        derive_query(&attributes, &Data::Struct(Fields::Unit)),
        Err("In order to use #[derive(Query)] on a struct, you must also put #[sql = \"some SQL query\"] on the struct.".to_string())
    );
}

#[test]
fn sql_attribute_holds_a_string_literal() {
    let text = "The provided query must be a string literal. Example usage: #[sql = \"SELECT * FROM some_table\"]";
    for meta in [
        Meta::Path,
        Meta::List,
        Meta::NameValue(Value::OtherLiteral),
        Meta::NameValue(Value::Expression),
    ] {
        let attributes = vec![Attribute { ident: Some("sql".to_string()), meta }];
        assert_eq!(derive_query(&attributes, &Data::Struct(Fields::Unit)), Err(text.to_string()));
    }
}

#[test]
fn attribute_is_read_before_the_item() {
    assert_eq!(
        derive_query(&vec![], &Data::Enum),
        Err("In order to use #[derive(Query)] on a struct, you must also put #[sql = \"some SQL query\"] on the struct.".to_string())
    );
    assert_eq!(
        derive_query(&vec![sql_attribute("SELECT 1")], &Data::Enum),
        Err("#[derive(Query)] can only be used on structs".to_string())
    );
    assert_eq!(
        derive_query(&vec![sql_attribute("SELECT @x")], &Data::Struct(Fields::Unit)),
        Err("The provided SQL contains \"@x\", but there is no matching field in the struct with the name \"x\"".to_string())
    );
}
