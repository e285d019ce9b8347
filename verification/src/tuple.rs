//! Tuples, the rows that operators pass on, and the schema that names
//! their columns.
use vstd::prelude::*;
use crate::field::{Field, FieldValue};

verus! {

/// The rows that `fields` hold, field by field.
pub open spec fn values_of(fields: Seq<Field>) -> Seq<FieldValue> {
    Seq::new(fields.len(), |i: int| fields[i]@)
}

/// The rows that `tuples` hold.
pub open spec fn rows_of(tuples: Seq<Tuple>) -> Seq<Seq<FieldValue>> {
    Seq::new(tuples.len(), |i: int| tuples[i]@)
}

/// A copy of `fields`.
pub fn copy_fields(fields: &Vec<Field>) -> (copy: Vec<Field>)
    ensures
        values_of(copy@) == values_of(fields@),
{
    let mut copy: Vec<Field> = Vec::new();
    let mut i: usize = 0;
    while i < fields.len()
        invariant
            i <= fields@.len(),
            copy@.len() == i,
            values_of(copy@) == values_of(fields@.take(i as int)),
        decreases fields@.len() - i,
    {
        let ghost before = copy@;
        let field = fields[i].clone();
        assert(field@ == fields@[i as int]@);
        copy.push(field);
        i += 1;
        assert forall|j: int| 0 <= j < i implies values_of(copy@)[j] == values_of(
            fields@.take(i as int),
        )[j] by {
            if j < i - 1 {
                assert(copy@[j] == before[j]);
                assert(values_of(before)[j] == values_of(fields@.take(i - 1))[j]);
            }
        }
        assert(values_of(copy@) =~= values_of(fields@.take(i as int)));
    }
    assert(fields@.take(i as int) =~= fields@);
    copy
}

/// A row: fields in order.
#[derive(Debug, PartialEq, Eq, PartialOrd, Ord)]
pub struct Tuple {
    /// The fields of the row.
    pub field_vals: Vec<Field>,
}

impl View for Tuple {
    type V = Seq<FieldValue>;

    open spec fn view(&self) -> Seq<FieldValue> {
        values_of(self.field_vals@)
    }
}

impl Clone for Tuple {
    fn clone(&self) -> (copy: Self)
        ensures
            copy@ == self@,
    {
        Tuple { field_vals: copy_fields(&self.field_vals) }
    }
}

impl Tuple {
    /// The row of the given fields.
    pub fn new(field_vals: Vec<Field>) -> (tuple: Tuple)
        ensures
            tuple@ == values_of(field_vals@),
    {
        Tuple { field_vals }
    }

    /// The number of fields.
    pub fn size(&self) -> (size: usize)
        ensures
            size == self@.len(),
    {
        self.field_vals.len()
    }

    /// The field in column `i`, if the row has one.
    pub fn get_field(&self, i: usize) -> (field: Option<&Field>)
        ensures
            match field {
                Some(f) => i < self@.len() && f@ == self@[i as int],
                None => i >= self@.len(),
            },
    {
        if i < self.field_vals.len() {
            Some(&self.field_vals[i])
        } else {
            None
        }
    }

    /// The row of the fields of `self` followed by those of `other`.
    pub fn concat(&self, other: &Tuple) -> (joined: Tuple)
        ensures
            joined@ == self@ + other@,
    {
        let mut fields = copy_fields(&self.field_vals);
        let mut i: usize = 0;
        while i < other.field_vals.len()
            invariant
                i <= other@.len(),
                fields@.len() == self@.len() + i,
                values_of(fields@) == self@ + other@.take(i as int),
            decreases other@.len() - i,
        {
            let ghost before = fields@;
            let field = other.field_vals[i].clone();
            fields.push(field);
            i += 1;
            assert forall|j: int| 0 <= j < fields@.len() implies values_of(fields@)[j] == (self@
                + other@.take(i as int))[j] by {
                if j < fields@.len() - 1 {
                    assert(fields@[j] == before[j]);
                    assert(values_of(before)[j] == (self@ + other@.take(i - 1))[j]);
                }
            }
            assert(values_of(fields@) =~= self@ + other@.take(i as int));
        }
        assert(other@.take(i as int) =~= other@);
        Tuple { field_vals: fields }
    }

    /// Whether two rows hold the same: as many fields, and the same in
    /// each column.
    pub fn same(&self, other: &Tuple) -> (same: bool)
        ensures
            same == (self@ == other@),
    {
        if self.field_vals.len() != other.field_vals.len() {
            return false;
        }
        let mut i: usize = 0;
        while i < self.field_vals.len()
            invariant
                i <= self@.len(),
                self@.len() == other@.len(),
                forall|j: int| 0 <= j < i ==> self@[j] == other@[j],
            decreases self@.len() - i,
        {
            if !self.field_vals[i].same(&other.field_vals[i]) {
                assert(self@[i as int] != other@[i as int]);
                return false;
            }
            i += 1;
        }
        assert(self@ =~= other@);
        true
    }
}

/// The kind of the values of a column.
#[derive(Debug, Clone, Copy, PartialEq, Eq, Structural)]
pub enum DataType {
    Int,
    Decimal,
    String,
}

/// A column: its name and the kind of its values.
#[derive(Debug, Clone, PartialEq, Eq)]
pub struct Attribute {
    pub name: String,
    pub dtype: DataType,
}

/// The columns of the rows of an operator. Operators hand it on and do
/// not read it.
#[derive(Debug, Clone, PartialEq, Eq)]
pub struct TableSchema {
    pub attributes: Vec<Attribute>,
}

impl TableSchema {
    /// The schema of the given columns.
    pub fn new(attributes: Vec<Attribute>) -> (schema: TableSchema)
        ensures
            schema.attributes == attributes,
    {
        TableSchema { attributes }
    }
}

} // verus!
