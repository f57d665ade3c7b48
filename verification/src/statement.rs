//! Statements: SQL that returns no rows, only the number of rows it affected.

use crate::binder::{bind, bind_spec, names_of, BindError, Field};
use crate::expansion::{expand, expand_spec, expansion_outcome, Data, Expansion};
use crate::numberify::{rewrite, Rewritten, TemplateError};
use crate::template::{rewrite_spec, slot_names, views};
use vstd::prelude::*;

verus! {

/// A statement, ready to be executed: its SQL has been rewritten.
#[derive(Debug, Clone, PartialEq, Eq)]
pub struct Statement {
    pub rewritten: Rewritten,
}

impl Statement {
    /// Defines a statement. The SQL is rewritten here, so that a template that
    /// cannot be rewritten is refused before anything is executed.
    pub fn new(sql: &str, declared: &Vec<String>) -> (r: Result<Statement, TemplateError>)
        ensures
            match rewrite_spec(sql@, views(declared@)) {
                Ok(rewritten) => r is Ok && r->Ok_0.rewritten@ == rewritten
                    && r->Ok_0.rewritten@.table.wf(),
                Err(fault) => r is Err && r->Err_0@ == fault,
            },
    {
        match rewrite(sql, declared) {
            Ok(rewritten) => Ok(Statement { rewritten }),
            Err(error) => Err(error),
        }
    }

    /// The SQL that goes to the driver.
    pub fn sql(&self) -> (sql: &String)
        ensures
            sql@ == self.rewritten@.sql,
    {
        &self.rewritten.sql
    }

    /// The values that go to the driver with the SQL, taken from `record`: one
    /// for each distinct placeholder, in position order.
    pub fn parameters<'a, V>(&self, record: &'a Vec<Field<V>>) -> (r: Result<
        Vec<&'a V>,
        BindError,
    >)
        ensures
            match bind_spec(slot_names(self.rewritten@.table.slots), names_of(record@)) {
                Ok(indices) => r is Ok && r->Ok_0@.len() == self.rewritten@.table.slots.len()
                    && forall|p: int|
                    0 <= p < indices.len() ==> *(#[trigger] r->Ok_0@[p])
                        == record@[indices[p]].value,
                Err(name) => r is Err && r->Err_0@ == name,
            },
    {
        bind(&self.rewritten.table, record)
    }
}

/// What a statement derived for `data` with `sql` holds, or why none can be
/// derived.
pub fn derive_statement_impl(sql: String, data: &Data) -> (r: Result<Expansion, String>)
    ensures
        expansion_outcome(r) == expand_spec("Statement"@, sql@, *data),
{
    expand("Statement", sql, data)
}

} // verus!
