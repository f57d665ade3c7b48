//! The binder: from a record's fields to the values that the driver gets, one
//! for each position, in position order.

use crate::numberify::ResolutionTable;
use crate::template::{
    distinct_names, first_index, first_index_from, lemma_first_index_from,
    lemma_slots_are_well_formed, lex, rewrite_spec, slot_names,
};
use vstd::prelude::*;

verus! {

/// One field of a record: its name and its value.
#[derive(Debug, Clone, PartialEq, Eq)]
pub struct Field<V> {
    pub name: String,
    pub value: V,
}

/// Why a record cannot be bound.
#[derive(Debug, Clone, PartialEq, Eq)]
pub enum BindError {
    /// The record has no field of this name.
    MissingField(String),
}

impl View for BindError {
    type V = Seq<char>;

    /// The name of the field that is missing.
    open spec fn view(&self) -> Seq<char> {
        match self {
            BindError::MissingField(name) => name@,
        }
    }
}

/// The names of the fields of `record`, in order.
pub open spec fn names_of<V>(record: Seq<Field<V>>) -> Seq<Seq<char>> {
    record.map_values(|field: Field<V>| field.name@)
}

/// The least index from `from` on of a name that no field has.
pub open spec fn first_missing(names: Seq<Seq<char>>, fields: Seq<Seq<char>>, from: int) -> Option<
    int,
>
    decreases names.len() - from,
{
    if from < 0 || from >= names.len() {
        None
    } else if first_index(fields, names[from]) is None {
        Some(from)
    } else {
        first_missing(names, fields, from + 1)
    }
}

/// What binding the placeholders `names`, given in position order, gives: for
/// each of them the index of the first field of that name; or the first of
/// them that no field has.
pub open spec fn bind_spec(names: Seq<Seq<char>>, fields: Seq<Seq<char>>) -> Result<
    Seq<int>,
    Seq<char>,
> {
    match first_missing(names, fields, 0) {
        Some(at) => Err(names[at]),
        None => Ok(Seq::new(names.len(), |p: int| first_index(fields, names[p]).unwrap())),
    }
}

/// What [`first_missing`] finds is the least index from `from` on whose name no
/// field has; it finds none only where every name has a field.
pub proof fn lemma_first_missing(names: Seq<Seq<char>>, fields: Seq<Seq<char>>, from: int)
    requires
        0 <= from,
    ensures
        match first_missing(names, fields, from) {
            Some(at) => {
                &&& from <= at < names.len()
                &&& first_index(fields, names[at]) is None
                &&& forall|p: int| from <= p < at ==> first_index(fields, names[p]) is Some
            },
            None => forall|p: int|
                from <= p < names.len() ==> first_index(fields, names[p]) is Some,
        },
    decreases names.len() - from,
{
    if from < names.len() && first_index(fields, names[from]) is Some {
        lemma_first_missing(names, fields, from + 1);
    }
}

/// The values of `record` for the placeholders of `table`, one for each line
/// and in the order of the lines, which for the table of a rewritten template
/// is the order of the positions: the value at index `p - 1` is that of the
/// first field whose name is the placeholder of position `p`.
///
/// A placeholder whose name no field has is an error, and the first such
/// placeholder is the one that is told. A field that no placeholder names is
/// passed over.
pub fn bind<'a, V>(table: &ResolutionTable, record: &'a Vec<Field<V>>) -> (r: Result<
    Vec<&'a V>,
    BindError,
>)
    ensures
        match bind_spec(slot_names(table@.slots), names_of(record@)) {
            Ok(indices) => r is Ok && r->Ok_0@.len() == table@.slots.len() && forall|p: int|
                0 <= p < indices.len() ==> *(#[trigger] r->Ok_0@[p]) == record@[indices[p]].value,
            Err(name) => r is Err && r->Err_0@ == name,
        },
{
    let ghost names = slot_names(table@.slots);
    let mut values: Vec<&'a V> = Vec::new();
    let mut p: usize = 0;
    while p < table.slots.len()
        invariant
            p <= table.slots.len(),
            names == slot_names(table@.slots),
            names.len() == table.slots.len(),
            first_missing(names, names_of(record@), 0) == first_missing(
                names,
                names_of(record@),
                p as int,
            ),
            values.len() == p,
            forall|q: int|
                0 <= q < p ==> first_index(names_of(record@), #[trigger] names[q]) is Some,
            forall|q: int|
                0 <= q < p ==> *(#[trigger] values@[q]) == record@[first_index(
                    names_of(record@),
                    names[q],
                ).unwrap()].value,
        decreases table.slots.len() - p,
    {
        assert(names[p as int] == table.slots@[p as int].name@);
        let found = find_field(record, &table.slots[p].name);
        if found.is_none() {
            return Err(BindError::MissingField(table.slots[p].name.clone()));
        }
        let index = found.unwrap();
        let ghost before = values@;
        values.push(&record[index].value);
        p += 1;
        assert forall|q: int| 0 <= q < p implies *(#[trigger] values@[q]) == record@[first_index(
            names_of(record@),
            names[q],
        ).unwrap()].value by {
            if q < p - 1 {
                assert(values@[q] == before[q]);
            }
        }
    }
    Ok(values)
}

/// The index of the first field of `record` whose name is `name`, if there is
/// one.
pub fn find_field<V>(record: &Vec<Field<V>>, name: &String) -> (r: Option<usize>)
    ensures
        match r {
            Some(k) => k < record.len() && first_index(names_of(record@), name@) == Some(k as int),
            None => first_index(names_of(record@), name@) is None,
        },
{
    let mut k: usize = 0;
    while k < record.len()
        invariant
            k <= record.len(),
            first_index(names_of(record@), name@) == first_index_from(
                names_of(record@),
                name@,
                k as int,
            ),
        decreases record.len() - k,
    {
        if record[k].name == *name {
            return Some(k);
        }
        k += 1;
    }
    None
}

/// A record is bound exactly where each placeholder is the name of one of its
/// fields; and where it is not bound, the name that is told is that of a
/// placeholder that no field has.
pub proof fn lemma_bound_iff_every_name_has_a_field(names: Seq<Seq<char>>, fields: Seq<Seq<char>>)
    ensures
        bind_spec(names, fields) is Ok <==> forall|p: int|
            0 <= p < names.len() ==> fields.contains(#[trigger] names[p]),
        bind_spec(names, fields) matches Err(name) ==> names.contains(name) && !fields.contains(
            name,
        ),
        bind_spec(names, fields) matches Ok(indices) ==> indices.len() == names.len(),
{
    lemma_first_missing(names, fields, 0);
    assert forall|p: int| 0 <= p < names.len() implies (first_index(fields, names[p]) is Some
        <==> fields.contains(#[trigger] names[p])) by {
        lemma_first_index_from(fields, names[p], 0);
        if fields.contains(names[p]) {
            let k = choose|k: int| 0 <= k < fields.len() && fields[k] == names[p];
            assert(fields[k] == names[p]);
        }
    }
    if bind_spec(names, fields) is Err {
        let at = first_missing(names, fields, 0).unwrap();
        assert(!fields.contains(names[at]));
        assert(names[at] == names[at]);
    }
}

/// Binding is sound: where a template is rewritten and a record is bound to
/// its table, there is one value for each distinct placeholder of the
/// template and no other, and the value that goes to the position of a
/// placeholder is that of a field whose name is the placeholder's.
pub proof fn lemma_binding_is_sound(
    template: Seq<char>,
    declared: Seq<Seq<char>>,
    fields: Seq<Seq<char>>,
)
    requires
        rewrite_spec(template, declared) is Ok,
        bind_spec(slot_names(rewrite_spec(template, declared)->Ok_0.table.slots), fields) is Ok,
    ensures
        ({
            let slots = rewrite_spec(template, declared)->Ok_0.table.slots;
            let indices = bind_spec(slot_names(slots), fields)->Ok_0;
            &&& indices.len() == slots.len()
            &&& slots.len() == distinct_names(lex(template)).len()
            &&& forall|i: int|
                0 <= i < slots.len() ==> {
                    let slot = #[trigger] slots[i];
                    &&& slot.position == i + 1
                    &&& 0 <= indices[slot.position - 1] < fields.len()
                    &&& fields[indices[slot.position - 1]] == slot.name
                }
        }),
{
    let slots = rewrite_spec(template, declared)->Ok_0.table.slots;
    let names = slot_names(slots);
    let indices = bind_spec(names, fields)->Ok_0;
    lemma_slots_are_well_formed(lex(template));
    lemma_first_missing(names, fields, 0);
    assert forall|i: int| 0 <= i < slots.len() implies {
        let slot = #[trigger] slots[i];
        &&& slot.position == i + 1
        &&& 0 <= indices[slot.position - 1] < fields.len()
        &&& fields[indices[slot.position - 1]] == slot.name
    } by {
        assert(names[i] == slots[i].name);
        lemma_first_index_from(fields, names[i], 0);
    }
}

} // verus!
