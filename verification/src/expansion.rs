//! From the item that a definition is derived for to what the definition
//! holds: the rewritten SQL and the fields that supply its values.

use crate::numberify::{message_of, rewrite};
use crate::template::{rewrite_spec, slot_names, views};
use crate::util::{field_names, get_field_names, get_parameter_list, Fields};
use vstd::prelude::*;
use vstd::string::StringExecFns;

verus! {

/// What kind of item a definition is asked for.
#[derive(Debug, Clone, PartialEq, Eq)]
pub enum Data {
    Struct(Fields),
    Enum,
    Union,
}

/// What a definition holds.
#[derive(Debug, Clone, PartialEq, Eq)]
pub struct Expansion {
    /// The SQL with positional markers.
    pub sql: String,
    /// The names of the fields whose values are handed to the driver, in
    /// position order: one for each distinct placeholder of the SQL.
    pub parameters: Vec<String>,
}

/// An expansion, as contracts see it.
pub struct ExpansionView {
    pub sql: Seq<char>,
    pub parameters: Seq<Seq<char>>,
}

impl View for Expansion {
    type V = ExpansionView;

    open spec fn view(&self) -> ExpansionView {
        ExpansionView { sql: self.sql@, parameters: views(self.parameters@) }
    }
}

/// What a result of [`expand`] is to contracts.
pub open spec fn expansion_outcome(r: Result<Expansion, String>) -> Result<
    ExpansionView,
    Seq<char>,
> {
    match r {
        Ok(expansion) => Ok(expansion@),
        Err(text) => Err(text@),
    }
}

/// The refusal of an item that is no struct.
pub open spec fn only_structs(derived: Seq<char>) -> Seq<char> {
    "#[derive("@ + derived + ")] can only be used on structs"@
}

/// The refusal of SQL that cannot be rewritten, `reason` being why.
pub open spec fn bad_sql(derived: Seq<char>, reason: Seq<char>) -> Seq<char> {
    "Error with SQL provided to #[derive("@ + derived + ")]: "@ + reason
}

/// What deriving `derived` for `data` with `sql` gives.
pub open spec fn expand_spec(derived: Seq<char>, sql: Seq<char>, data: Data) -> Result<
    ExpansionView,
    Seq<char>,
> {
    match data {
        Data::Struct(fields) => match rewrite_spec(sql, views(field_names(fields))) {
            Ok(rewritten) => Ok(
                (ExpansionView {
                    sql: rewritten.sql,
                    parameters: slot_names(rewritten.table.slots),
                }),
            ),
            Err(fault) => Err(bad_sql(derived, message_of(fault))),
        },
        _ => Err(only_structs(derived)),
    }
}

/// Derives the definition named `derived` for `data`.
///
/// Only a struct can have one. Its named fields are the declared names that
/// the placeholders of `sql` are checked against, and the parameters are the
/// fields that the placeholders name, in position order.
pub fn expand(derived: &str, sql: String, data: &Data) -> (r: Result<Expansion, String>)
    ensures
        expansion_outcome(r) == expand_spec(derived@, sql@, *data),
{
    match data {
        Data::Struct(fields) => {
            let named_parameters = get_field_names(fields);
            match rewrite(sql.as_str(), &named_parameters) {
                Ok(rewritten) => {
                    let parameters = get_parameter_list(&rewritten.table);
                    Ok(Expansion { sql: rewritten.sql, parameters })
                },
                Err(error) => {
                    let reason = error.message();
                    let mut text = String::from_str("Error with SQL provided to #[derive(");
                    text.append(derived);
                    text.append(")]: ");
                    text.append(reason.as_str());
                    Err(text)
                },
            }
        },
        _ => {
            let mut text = String::from_str("#[derive(");
            text.append(derived);
            text.append(")] can only be used on structs");
            Err(text)
        },
    }
}

} // verus!
