//! The transposer: from a sequence of records to one sequence per field, so
//! that a bulk statement can take one array per column.

use crate::binder::{find_field, names_of, Field};
use crate::template::first_index;
use vstd::prelude::*;

verus! {

/// One column: the values of one field, record by record.
#[derive(Debug, Clone, PartialEq, Eq)]
pub struct Column<'a, V> {
    /// The field's name.
    pub name: String,
    /// One entry for each record, in the order of the records: the field's
    /// value in that record, or nothing where the record lacks the field.
    pub values: Vec<Option<&'a V>>,
}

/// The value of the first field of `record` whose name is `name`, if it has
/// such a field.
pub open spec fn value_of<V>(record: Seq<Field<V>>, name: Seq<char>) -> Option<V> {
    match first_index(names_of(record), name) {
        Some(k) => Some(record[k].value),
        None => None,
    }
}

/// What an entry of a column holds.
pub open spec fn entry<V>(cell: Option<&V>) -> Option<V> {
    match cell {
        Some(value) => Some(*value),
        None => None,
    }
}

/// Whether `column` is the column of the field `name` over `records`.
pub open spec fn is_column_of<V>(column: Column<V>, records: Seq<Vec<Field<V>>>, name: Seq<char>) -> bool {
    &&& column.name@ == name
    &&& column.values@.len() == records.len()
    &&& forall|i: int|
        0 <= i < records.len() ==> entry(#[trigger] column.values@[i]) == value_of(
            records[i]@,
            name,
        )
}

/// The column of the field `name` over `records`.
pub fn column_of<'a, V>(records: &'a Vec<Vec<Field<V>>>, name: &String) -> (r: Column<'a, V>)
    ensures
        is_column_of(r, records@, name@),
{
    let mut values: Vec<Option<&'a V>> = Vec::new();
    let mut i: usize = 0;
    while i < records.len()
        invariant
            i <= records.len(),
            values@.len() == i,
            forall|k: int|
                0 <= k < i ==> entry(#[trigger] values@[k]) == value_of(records@[k]@, name@),
        decreases records.len() - i,
    {
        let ghost before = values@;
        let found = find_field(&records[i], name);
        if found.is_some() {
            let at = found.unwrap();
            values.push(Some(&records[i][at].value));
        } else {
            values.push(None);
        }
        assert forall|k: int| 0 <= k < i + 1 implies entry(#[trigger] values@[k]) == value_of(
            records@[k]@,
            name@,
        ) by {
            if k < i {
                assert(values@[k] == before[k]);
            }
        }
        i += 1;
    }
    Column { name: name.clone(), values }
}

/// One column for each of `field_names`, in their order.
///
/// Every column has one entry for each record, in the order of the records, so
/// that the entries at one index, over all columns, are those of one record. A
/// record that lacks a field has an empty entry in that field's column.
pub fn transpose<'a, V>(records: &'a Vec<Vec<Field<V>>>, field_names: &Vec<String>) -> (columns:
    Vec<Column<'a, V>>)
    ensures
        columns@.len() == field_names@.len(),
        forall|j: int|
            0 <= j < field_names@.len() ==> is_column_of(
                #[trigger] columns@[j],
                records@,
                field_names@[j]@,
            ),
{
    let mut columns: Vec<Column<'a, V>> = Vec::new();
    let mut j: usize = 0;
    while j < field_names.len()
        invariant
            j <= field_names.len(),
            columns@.len() == j,
            forall|k: int|
                0 <= k < j ==> is_column_of(#[trigger] columns@[k], records@, field_names@[k]@),
        decreases field_names.len() - j,
    {
        let ghost before = columns@;
        columns.push(column_of(records, &field_names[j]));
        assert forall|k: int| 0 <= k < j + 1 implies is_column_of(
            #[trigger] columns@[k],
            records@,
            field_names@[k]@,
        ) by {
            if k < j {
                assert(columns@[k] == before[k]);
            }
        }
        j += 1;
    }
    columns
}

} // verus!
