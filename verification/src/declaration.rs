//! What a document declaration says: the names of its type and its schema, and the slots of its
//! fields.

use crate::error::{CultCacheError, Failure, FailureView};
use crate::text::same_text;
use vstd::prelude::*;

verus! {

/// The attributes of a declaration.
#[derive(Clone, Copy, Debug, PartialEq, Eq, Structural)]
pub enum EntryAttribute {
    Type,
    Schema,
}

/// The attributes of a field.
#[derive(Clone, Copy, Debug, PartialEq, Eq, Structural)]
pub enum FieldAttribute {
    /// The slot that the field is written in.
    Key,
    /// The field is written as binary data.
    Bytes,
    /// The field may be absent, and has its default value there.
    Default,
}

/// The attributes that a declaration has given so far.
#[derive(Debug)]
pub struct EntryDeclaration {
    pub entry_type: Option<String>,
    pub schema_name: Option<String>,
}

/// The attribute of the name `name`.
pub open spec fn attribute_named(name: Seq<char>) -> Result<EntryAttribute, FailureView> {
    if name == "type"@ {
        Ok(EntryAttribute::Type)
    } else if name == "schema"@ {
        Ok(EntryAttribute::Schema)
    } else {
        Err(Failure::AttributeUnsupported)
    }
}

/// The attribute of the name `name`.
pub fn entry_attribute(name: &str) -> (attribute: Result<EntryAttribute, CultCacheError>)
    ensures
        crate::error::outcome(attribute) == attribute_named(name@),
{
    if same_text(name, "type") {
        Ok(EntryAttribute::Type)
    } else if same_text(name, "schema") {
        Ok(EntryAttribute::Schema)
    } else {
        Err(Failure::AttributeUnsupported)
    }
}

/// The attribute of a field of the name `name`; attributes of other names say nothing.
pub open spec fn field_attribute_named(name: Seq<char>) -> Option<FieldAttribute> {
    if name == "key"@ {
        Some(FieldAttribute::Key)
    } else if name == "bytes"@ {
        Some(FieldAttribute::Bytes)
    } else if name == "default"@ {
        Some(FieldAttribute::Default)
    } else {
        None
    }
}

/// The attribute of a field of the name `name`; attributes of other names say nothing.
pub fn field_attribute(name: &str) -> (attribute: Option<FieldAttribute>)
    ensures
        attribute == field_attribute_named(name@),
{
    if same_text(name, "key") {
        Some(FieldAttribute::Key)
    } else if same_text(name, "bytes") {
        Some(FieldAttribute::Bytes)
    } else if same_text(name, "default") {
        Some(FieldAttribute::Default)
    } else {
        None
    }
}

/// The field `a` stands before the field `b`: it has a smaller slot, or the same slot and is
/// declared first.
pub open spec fn stands_before(slots: Seq<usize>, a: int, b: int) -> bool {
    slots[a] < slots[b] || (slots[a] == slots[b] && a < b)
}

/// `order` names fields of the first `n`, in the order of their slots.
pub open spec fn follows_slots(slots: Seq<usize>, order: Seq<usize>, n: int) -> bool {
    &&& forall|i: int| 0 <= i < order.len() ==> (#[trigger] order[i]) < n
    &&& forall|i: int, j: int|
        0 <= i < j < order.len() ==> stands_before(
            slots,
            (#[trigger] order[i]) as int,
            (#[trigger] order[j]) as int,
        )
}

/// The fields in the order of their slots; fields of one slot stay in the order in which they are
/// declared.
pub fn slot_order(slots: &[usize]) -> (order: Vec<usize>)
    ensures
        order@.len() == slots@.len(),
        follows_slots(slots@, order@, slots@.len() as int),
{
    let mut order: Vec<usize> = Vec::with_capacity(slots.len());
    let mut field: usize = 0;
    while field < slots.len()
        invariant
            field <= slots@.len(),
            order@.len() == field,
            follows_slots(slots@, order@, field as int),
        decreases slots@.len() - field,
    {
        let mut at: usize = order.len();
        while at > 0 && slots[order[at - 1]] > slots[field]
            invariant
                at <= order@.len(),
                field < slots@.len(),
                follows_slots(slots@, order@, field as int),
                forall|j: int|
                    at <= j < order@.len() ==> slots@[(#[trigger] order@[j]) as int]
                        > slots@[field as int],
            decreases at,
        {
            at = at - 1;
        }
        let ghost before = order@;
        order.insert(at, field);
        proof {
            let after = order@;
            assert forall|i: int, j: int| 0 <= i < j < after.len() implies stands_before(
                slots@,
                (#[trigger] after[i]) as int,
                (#[trigger] after[j]) as int,
            ) by {
                if i < at {
                    assert(after[i] == before[i]);
                    if j == at {
                        if i < at - 1 {
                            assert(stands_before(
                                slots@,
                                before[i] as int,
                                before[at - 1] as int,
                            ));
                        }
                    } else if j < at {
                        assert(after[j] == before[j]);
                    } else {
                        assert(after[j] == before[j - 1]);
                    }
                } else {
                    assert(after[j] == before[j - 1]);
                    if i > at {
                        assert(after[i] == before[i - 1]);
                    }
                }
            }
        }
        field = field + 1;
    }
    order
}

/// Every field stands in the order of the slots, once.
pub proof fn every_field_has_its_place(slots: Seq<usize>, order: Seq<usize>, field: int)
    requires
        order.len() == slots.len(),
        follows_slots(slots, order, slots.len() as int),
        0 <= field < slots.len(),
    ensures
        exists|i: int| 0 <= i < order.len() && #[trigger] order[i] == field,
        forall|i: int, j: int|
            0 <= i < j < order.len() ==> (#[trigger] order[i]) != (#[trigger] order[j]),
{
    let places = order.map_values(|f: usize| f as int);
    assert forall|i: int, j: int| 0 <= i < j < order.len() implies (#[trigger] order[i]) != (
    #[trigger] order[j]) by {
        assert(stands_before(slots, order[i] as int, order[j] as int));
    }
    assert(places.no_duplicates()) by {
        assert forall|i: int, j: int|
            0 <= i < places.len() && 0 <= j < places.len() && i != j implies places[i]
            != places[j] by {
            if i < j {
                assert(order[i] != order[j]);
            } else {
                assert(order[j] != order[i]);
            }
        }
    }
    places.unique_seq_to_set();
    let all = vstd::set_lib::set_int_range(0, slots.len() as int);
    vstd::set_lib::lemma_int_range(0, slots.len() as int);
    assert(places.to_set().subset_of(all)) by {
        assert forall|f: int| #[trigger] places.to_set().contains(f) implies all.contains(f) by {
            let i = choose|i: int| 0 <= i < places.len() && places[i] == f;
            assert(order[i] < slots.len());
        }
    }
    vstd::seq_lib::seq_to_set_is_finite(places);
    vstd::set_lib::lemma_subset_equality(places.to_set(), all);
    assert(places.to_set().contains(field));
    let i = choose|i: int| 0 <= i < places.len() && places[i] == field;
    assert(order[i] == field);
}

/// Fields that are numbered from zero on stand at the places that their slots name.
pub proof fn numbered_fields_stand_at_their_slots(slots: Seq<usize>, order: Seq<usize>, i: int)
    requires
        order.len() == slots.len(),
        follows_slots(slots, order, slots.len() as int),
        forall|f: int| 0 <= f < slots.len() ==> (#[trigger] slots[f]) < slots.len(),
        forall|f: int, g: int|
            0 <= f < g < slots.len() ==> (#[trigger] slots[f]) != (#[trigger] slots[g]),
        0 <= i < order.len(),
    ensures
        slots[order[i] as int] == i,
{
    lemma_slots_from_below(slots, order, i);
    lemma_slots_from_above(slots, order, i);
}

proof fn lemma_slots_from_below(slots: Seq<usize>, order: Seq<usize>, i: int)
    requires
        order.len() == slots.len(),
        follows_slots(slots, order, slots.len() as int),
        forall|f: int, g: int|
            0 <= f < g < slots.len() ==> (#[trigger] slots[f]) != (#[trigger] slots[g]),
        0 <= i < order.len(),
    ensures
        slots[order[i] as int] >= i,
    decreases i,
{
    if i > 0 {
        lemma_slots_from_below(slots, order, i - 1);
        assert(stands_before(slots, order[i - 1] as int, order[i] as int));
    }
}

proof fn lemma_slots_from_above(slots: Seq<usize>, order: Seq<usize>, i: int)
    requires
        order.len() == slots.len(),
        follows_slots(slots, order, slots.len() as int),
        forall|f: int| 0 <= f < slots.len() ==> (#[trigger] slots[f]) < slots.len(),
        forall|f: int, g: int|
            0 <= f < g < slots.len() ==> (#[trigger] slots[f]) != (#[trigger] slots[g]),
        0 <= i < order.len(),
    ensures
        slots[order[i] as int] <= i,
    decreases order.len() - i,
{
    if i < order.len() - 1 {
        lemma_slots_from_above(slots, order, i + 1);
        assert(stands_before(slots, order[i] as int, order[i + 1] as int));
    }
}

impl EntryDeclaration {
    /// The type's name, where one was given.
    pub open spec fn given_type(&self) -> Option<Seq<char>> {
        crate::envelope::text_option(self.entry_type)
    }

    /// The schema's name, where one was given.
    pub open spec fn given_schema(&self) -> Option<Seq<char>> {
        crate::envelope::text_option(self.schema_name)
    }

    /// A declaration that has given nothing yet.
    pub fn new() -> (declaration: Self)
        ensures
            declaration.given_type() is None,
            declaration.given_schema() is None,
    {
        EntryDeclaration { entry_type: None, schema_name: None }
    }

    /// Notes the value of an attribute, in the place of one that was given before.
    pub fn give(&mut self, attribute: EntryAttribute, value: String)
        ensures
            final(self).given_type() == if attribute == EntryAttribute::Type {
                Some(value@)
            } else {
                old(self).given_type()
            },
            final(self).given_schema() == if attribute == EntryAttribute::Schema {
                Some(value@)
            } else {
                old(self).given_schema()
            },
    {
        match attribute {
            EntryAttribute::Type => {
                self.entry_type = Some(value);
            },
            EntryAttribute::Schema => {
                self.schema_name = Some(value);
            },
        }
    }

    /// The type's name, which must have been given, and the schema's name, which is the declared
    /// name `ident` where none was given.
    pub fn names(self, ident: &str) -> (names: Result<(String, String), CultCacheError>)
        ensures
            match self.given_type() {
                None => names is Err && names->Err_0@ == FailureView::TypeAttributeMissing,
                Some(entry_type) => {
                    &&& names is Ok
                    &&& names->Ok_0.0@ == entry_type
                    &&& names->Ok_0.1@ == match self.given_schema() {
                        Some(schema) => schema,
                        None => ident@,
                    }
                },
            },
    {
        match self.entry_type {
            None => Err(Failure::TypeAttributeMissing),
            Some(entry_type) => {
                let schema_name = match self.schema_name {
                    Some(schema) => schema,
                    None => ident.to_owned(),
                };
                Ok((entry_type, schema_name))
            },
        }
    }
}

/// A declaration knows the attributes `type` and `schema`, and a field `key`, `bytes` and
/// `default`; a declaration refuses every other, and a field passes it over.
pub proof fn attributes_are_known_by_name(name: Seq<char>)
    ensures
        attribute_named("type"@) == Ok::<EntryAttribute, FailureView>(EntryAttribute::Type),
        attribute_named("schema"@) == Ok::<EntryAttribute, FailureView>(EntryAttribute::Schema),
        name != "type"@ && name != "schema"@ ==> attribute_named(name) == Err::<
            EntryAttribute,
            FailureView,
        >(Failure::AttributeUnsupported),
        field_attribute_named("key"@) == Some(FieldAttribute::Key),
        field_attribute_named("bytes"@) == Some(FieldAttribute::Bytes),
        field_attribute_named("default"@) == Some(FieldAttribute::Default),
        name != "key"@ && name != "bytes"@ && name != "default"@ ==> field_attribute_named(name)
            is None,
{
    reveal_strlit("type");
    reveal_strlit("schema");
    reveal_strlit("key");
    reveal_strlit("bytes");
    reveal_strlit("default");
    assert("type"@.len() != "schema"@.len());
    assert("key"@.len() != "bytes"@.len() && "key"@.len() != "default"@.len());
    assert("bytes"@.len() != "default"@.len());
}

} // verus!
