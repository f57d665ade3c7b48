//! Queries: SQL that returns rows, and the three ways to take them: all of
//! them, at most one, exactly one.

use crate::binder::{bind, bind_spec, names_of, BindError, Field};
use crate::expansion::{expand, expand_spec, expansion_outcome, Data, Expansion};
use crate::numberify::{rewrite, Rewritten, TemplateError};
use crate::template::{rewrite_spec, slot_names, views};
use vstd::prelude::*;
use vstd::string::StringExecFns;

verus! {

/// A query, ready to be run: its SQL has been rewritten.
#[derive(Debug, Clone, PartialEq, Eq)]
pub struct Query {
    pub rewritten: Rewritten,
}

/// Whether `decode` may turn `row` into a record.
pub open spec fn decodes<R, T, E, F: Fn(&R) -> Result<T, E>>(decode: F, row: R) -> bool {
    exists|record: T| #[trigger] decode.ensures((&row,), Ok(record))
}

/// Whether `decode` may turn each of the first `count` rows into a record.
pub open spec fn decodes_before<R, T, E, F: Fn(&R) -> Result<T, E>>(
    decode: F,
    rows: Seq<R>,
    count: int,
) -> bool {
    forall|i: int| 0 <= i < count ==> #[trigger] decodes::<R, T, E, F>(decode, rows[i])
}

/// Whether `r` is what decoding `rows` one after the other may give: the
/// records, one for each row, or the failure of the first row that fails.
pub open spec fn decoded_as<R, T, E, F: Fn(&R) -> Result<T, E>>(
    decode: F,
    rows: Seq<R>,
    r: Result<Vec<T>, E>,
) -> bool {
    match r {
        Ok(records) => records@.len() == rows.len() && forall|i: int|
            0 <= i < rows.len() ==> decode.ensures((&rows[i],), Ok(#[trigger] records@[i])),
        Err(error) => exists|k: int|
            0 <= k < rows.len() && #[trigger] decode.ensures((&rows[k],), Err(error))
                && decodes_before(decode, rows, k),
    }
}

/// Decodes `rows` one after the other, up to the first that fails.
pub fn decode_rows<R, T, E, F: Fn(&R) -> Result<T, E>>(rows: &Vec<R>, decode: &F) -> (r: Result<
    Vec<T>,
    E,
>)
    requires
        forall|i: int| 0 <= i < rows@.len() ==> decode.requires((&#[trigger] rows@[i],)),
    ensures
        decoded_as(*decode, rows@, r),
{
    let mut records: Vec<T> = Vec::new();
    let mut i: usize = 0;
    while i < rows.len()
        invariant
            i <= rows.len(),
            records@.len() == i,
            forall|j: int| 0 <= j < rows@.len() ==> decode.requires((&#[trigger] rows@[j],)),
            forall|j: int| 0 <= j < i ==> decode.ensures((&rows@[j],), Ok(#[trigger] records@[j])),
        decreases rows.len() - i,
    {
        let outcome = decode(&rows[i]);
        match outcome {
            Ok(record) => {
                records.push(record);
            },
            Err(error) => {
                proof {
                    assert forall|j: int| 0 <= j < i implies #[trigger] decodes::<R, T, E, F>(
                        *decode,
                        rows@[j],
                    ) by {
                        assert(decode.ensures((&rows@[j],), Ok(records@[j])));
                    }
                    assert(decode.ensures((&rows@[i as int],), Err(error)));
                    assert(Err::<Vec<T>, E>(error)->Err_0 == error);
                }
                return Err(error);
            },
        }
        i += 1;
    }
    Ok(records)
}

impl Query {
    /// Defines a query. The SQL is rewritten here, so that a template that
    /// cannot be rewritten is refused before anything is run.
    pub fn new(sql: &str, declared: &Vec<String>) -> (r: Result<Query, TemplateError>)
        ensures
            match rewrite_spec(sql@, views(declared@)) {
                Ok(rewritten) => r is Ok && r->Ok_0.rewritten@ == rewritten
                    && r->Ok_0.rewritten@.table.wf(),
                Err(fault) => r is Err && r->Err_0@ == fault,
            },
    {
        match rewrite(sql, declared) {
            Ok(rewritten) => Ok(Query { rewritten }),
            Err(error) => Err(error),
        }
    }

    /// The SQL that goes to the driver.
    pub fn sql(&self) -> (sql: &String)
        ensures
            sql@ == self.rewritten@.sql,
    {
        &self.rewritten.sql
    }

    /// The values that go to the driver with the SQL, taken from `record`: one
    /// for each distinct placeholder, in position order.
    pub fn parameters<'a, V>(&self, record: &'a Vec<Field<V>>) -> (r: Result<
        Vec<&'a V>,
        BindError,
    >)
        ensures
            match bind_spec(slot_names(self.rewritten@.table.slots), names_of(record@)) {
                Ok(indices) => r is Ok && r->Ok_0@.len() == self.rewritten@.table.slots.len()
                    && forall|p: int|
                    0 <= p < indices.len() ==> *(#[trigger] r->Ok_0@[p])
                        == record@[indices[p]].value,
                Err(name) => r is Err && r->Err_0@ == name,
            },
    {
        bind(&self.rewritten.table, record)
    }

    /// All rows: what the driver fetched, each row decoded, in order.
    ///
    /// A failure of the driver is handed on as it is. So is the first failure
    /// to decode a row; the rows behind it are then not decoded.
    pub fn query_all<R, T, E, F: Fn(&R) -> Result<T, E>>(
        &self,
        fetched: Result<Vec<R>, E>,
        decode: F,
    ) -> (r: Result<Vec<T>, E>)
        requires
            fetched matches Ok(rows) ==> forall|i: int|
                0 <= i < rows@.len() ==> decode.requires((&#[trigger] rows@[i],)),
        ensures
            match fetched {
                Err(error) => r == Err::<Vec<T>, E>(error),
                Ok(rows) => decoded_as(decode, rows@, r),
            },
    {
        match fetched {
            Err(error) => Err(error),
            Ok(rows) => decode_rows(&rows, &decode),
        }
    }

    /// At most one row: the row that the driver fetched, decoded, or none where
    /// it fetched none.
    ///
    /// A failure of the driver, which more than one row is, is handed on as it
    /// is. So is a failure to decode the row.
    pub fn query_opt<R, T, E, F: Fn(&R) -> Result<T, E>>(
        &self,
        fetched: Result<Option<R>, E>,
        decode: F,
    ) -> (r: Result<Option<T>, E>)
        requires
            fetched matches Ok(Some(row)) ==> decode.requires((&row,)),
        ensures
            match fetched {
                Err(error) => r == Err::<Option<T>, E>(error),
                Ok(None) => r == Ok::<Option<T>, E>(None),
                Ok(Some(row)) => match r {
                    Ok(Some(record)) => decode.ensures((&row,), Ok(record)),
                    Ok(None) => false,
                    Err(error) => decode.ensures((&row,), Err(error)),
                },
            },
    {
        match fetched {
            Err(error) => Err(error),
            Ok(None) => Ok(None),
            Ok(Some(row)) => match decode(&row) {
                Ok(record) => Ok(Some(record)),
                Err(error) => Err(error),
            },
        }
    }

    /// Exactly one row: the row that the driver fetched, decoded.
    ///
    /// A failure of the driver, which no row is and more than one row too, is
    /// handed on as it is. So is a failure to decode the row.
    pub fn query_one<R, T, E, F: Fn(&R) -> Result<T, E>>(
        &self,
        fetched: Result<R, E>,
        decode: F,
    ) -> (r: Result<T, E>)
        requires
            fetched matches Ok(row) ==> decode.requires((&row,)),
        ensures
            match fetched {
                Err(error) => r == Err::<T, E>(error),
                Ok(row) => decode.ensures((&row,), r),
            },
    {
        match fetched {
            Err(error) => Err(error),
            Ok(row) => decode(&row),
        }
    }
}

/// What a query derived for `data` with `sql` holds, or why none can be
/// derived.
pub fn derive_query_impl(sql: String, data: &Data) -> (r: Result<Expansion, String>)
    ensures
        expansion_outcome(r) == expand_spec("Query"@, sql@, *data),
{
    expand("Query", sql, data)
}

/// What stands behind the `=` of an attribute.
#[derive(Debug, Clone, PartialEq, Eq)]
pub enum Value {
    /// A string literal, with what it holds.
    Str(String),
    /// A literal of another kind.
    OtherLiteral,
    /// An expression that is no literal.
    Expression,
}

/// The form of an attribute.
#[derive(Debug, Clone, PartialEq, Eq)]
pub enum Meta {
    /// A path alone, as in `#[name]`.
    Path,
    /// A path with a list, as in `#[name(a, b)]`.
    List,
    /// A path with a value, as in `#[name = value]`.
    NameValue(Value),
}

/// An attribute of the item that a query is derived for.
#[derive(Debug, Clone, PartialEq, Eq)]
pub struct Attribute {
    /// The attribute's path where it is a single identifier.
    pub ident: Option<String>,
    pub meta: Meta,
}

/// Whether `attribute` is named `name`.
pub open spec fn is_named(attribute: Attribute, name: Seq<char>) -> bool {
    attribute.ident matches Some(ident) && ident@ == name
}

/// The least index from `from` on of an attribute named `name`.
pub open spec fn find_from(attributes: Seq<Attribute>, name: Seq<char>, from: int) -> Option<int>
    decreases attributes.len() - from,
{
    if from < 0 || from >= attributes.len() {
        None
    } else if is_named(attributes[from], name) {
        Some(from)
    } else {
        find_from(attributes, name, from + 1)
    }
}

/// The refusal of an item without an `sql` attribute.
pub open spec fn no_sql() -> Seq<char> {
    "In order to use #[derive(Query)] on a struct, you must also put #[sql = \"some SQL query\"] on the struct."@
}

/// The refusal of an `sql` attribute that holds no string literal.
pub open spec fn no_literal() -> Seq<char> {
    "The provided query must be a string literal. Example usage: #[sql = \"SELECT * FROM some_table\"]"@
}

/// The SQL that the first attribute named `sql` holds, or why there is none.
pub open spec fn sql_of(attributes: Seq<Attribute>) -> Result<Seq<char>, Seq<char>> {
    match find_from(attributes, "sql"@, 0) {
        None => Err(no_sql()),
        Some(at) => match attributes[at].meta {
            Meta::NameValue(Value::Str(sql)) => Ok(sql@),
            _ => Err(no_literal()),
        },
    }
}

/// What a query derived from the attribute `sql` holds, or why none can be
/// derived. Here a refusal of the SQL is told as it is.
pub open spec fn derive_query_spec(attributes: Seq<Attribute>, data: Data) -> Result<
    crate::expansion::ExpansionView,
    Seq<char>,
> {
    match sql_of(attributes) {
        Err(text) => Err(text),
        Ok(sql) => match data {
            Data::Struct(fields) => match rewrite_spec(sql, views(crate::util::field_names(fields))) {
                Ok(rewritten) => Ok(
                    (crate::expansion::ExpansionView {
                        sql: rewritten.sql,
                        parameters: slot_names(rewritten.table.slots),
                    }),
                ),
                Err(fault) => Err(crate::numberify::message_of(fault)),
            },
            _ => Err(crate::expansion::only_structs("Query"@)),
        },
    }
}

/// The first attribute named `sql`, if there is one.
pub fn find_sql(attributes: &Vec<Attribute>) -> (r: Option<usize>)
    ensures
        match r {
            Some(at) => at < attributes.len() && find_from(attributes@, "sql"@, 0) == Some(
                at as int,
            ),
            None => find_from(attributes@, "sql"@, 0) is None,
        },
{
    let wanted = String::from_str("sql");
    let mut k: usize = 0;
    while k < attributes.len()
        invariant
            k <= attributes.len(),
            wanted@ == "sql"@,
            find_from(attributes@, "sql"@, 0) == find_from(attributes@, "sql"@, k as int),
        decreases attributes.len() - k,
    {
        let named = match &attributes[k].ident {
            Some(ident) => *ident == wanted,
            None => false,
        };
        if named {
            return Some(k);
        }
        k += 1;
    }
    None
}

/// What a query derived for `data` holds, its SQL being that of the attribute
/// named `sql`; or why none can be derived.
///
/// The attribute has to be there and to hold a string literal, the item has to
/// be a struct, and the SQL has to be one that can be rewritten against the
/// struct's named fields.
pub fn derive_query(attributes: &Vec<Attribute>, data: &Data) -> (r: Result<Expansion, String>)
    ensures
        expansion_outcome(r) == derive_query_spec(attributes@, *data),
{
    let at = match find_sql(attributes) {
        Some(at) => at,
        None => {
            return Err(
                String::from_str(
                    "In order to use #[derive(Query)] on a struct, you must also put #[sql = \"some SQL query\"] on the struct.",
                ),
            );
        },
    };
    let sql = match &attributes[at].meta {
        Meta::NameValue(Value::Str(sql)) => sql.clone(),
        _ => {
            return Err(
                String::from_str(
                    "The provided query must be a string literal. Example usage: #[sql = \"SELECT * FROM some_table\"]",
                ),
            );
        },
    };
    match data {
        Data::Struct(fields) => {
            let named_parameters = crate::util::get_field_names(fields);
            match rewrite(sql.as_str(), &named_parameters) {
                Ok(rewritten) => {
                    let parameters = crate::util::get_parameter_list(&rewritten.table);
                    Ok(Expansion { sql: rewritten.sql, parameters })
                },
                Err(error) => Err(error.message()),
            }
        },
        _ => {
            let mut text = String::from_str("#[derive(");
            text.append("Query");
            text.append(")] can only be used on structs");
            Err(text)
        },
    }
}

} // verus!
