//! The fields of a parameter struct: which names it declares, and which of
//! its fields supply the values that are handed to the driver.

use crate::numberify::ResolutionTable;
use crate::template::{slot_names, views};
use vstd::prelude::*;

verus! {

/// The fields of a struct, as far as a definition reads them.
#[derive(Debug, Clone, PartialEq, Eq)]
pub enum Fields {
    /// The fields of a struct with braces, in declaration order, each with its
    /// identifier where it has one.
    Named(Vec<Option<String>>),
    /// The number of fields of a tuple struct.
    Unnamed(usize),
    /// A struct without fields.
    Unit,
}

/// The identifiers that `named` holds, in order.
pub open spec fn identifiers(named: Seq<Option<String>>) -> Seq<String>
    decreases named.len(),
{
    if named.len() == 0 {
        seq![]
    } else {
        match named.last() {
            Some(identifier) => identifiers(named.drop_last()).push(identifier),
            None => identifiers(named.drop_last()),
        }
    }
}

/// The names that `fields` declares: the identifiers of named fields, and
/// nothing for a tuple struct or a struct without fields.
pub open spec fn field_names(fields: Fields) -> Seq<String> {
    match fields {
        Fields::Named(named) => identifiers(named@),
        Fields::Unnamed(_) => seq![],
        Fields::Unit => seq![],
    }
}

/// The identifiers of named fields, in declaration order. A field without an
/// identifier is passed over.
pub fn get_field_identifiers(named: &Vec<Option<String>>) -> (r: Vec<String>)
    ensures
        r@ == identifiers(named@),
{
    let mut r: Vec<String> = Vec::new();
    let mut k: usize = 0;
    while k < named.len()
        invariant
            k <= named.len(),
            r@ == identifiers(named@.subrange(0, k as int)),
        decreases named.len() - k,
    {
        proof {
            assert(named@.subrange(0, k + 1).drop_last() =~= named@.subrange(0, k as int));
        }
        match &named[k] {
            Some(identifier) => {
                r.push(identifier.clone());
            },
            None => {},
        }
        k += 1;
    }
    assert(named@.subrange(0, named.len() as int) =~= named@);
    r
}

/// The names that a struct declares for its query.
pub fn get_field_names(fields: &Fields) -> (r: Vec<String>)
    ensures
        r@ == field_names(*fields),
{
    match fields {
        Fields::Unnamed(_) => Vec::new(),
        Fields::Unit => Vec::new(),
        Fields::Named(named) => get_field_identifiers(named),
    }
}

/// The fields whose values go to the driver, in the order in which they go:
/// for each position of `table` the field of the position's name. A field that
/// no placeholder names is not among them.
pub fn get_parameter_list(table: &ResolutionTable) -> (r: Vec<String>)
    ensures
        views(r@) == slot_names(table@.slots),
{
    let mut r: Vec<String> = Vec::new();
    let mut k: usize = 0;
    while k < table.slots.len()
        invariant
            k <= table.slots.len(),
            r@.len() == k,
            forall|j: int| 0 <= j < k ==> (#[trigger] r@[j])@ == table.slots@[j].name@,
        decreases table.slots.len() - k,
    {
        r.push(table.slots[k].name.clone());
        k += 1;
    }
    assert(views(r@) =~= slot_names(table@.slots));
    r
}

} // verus!
