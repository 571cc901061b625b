//! Records: a deletion flag and one value per field.

use vstd::prelude::*;
use crate::error::{Error, ErrorKind, Result};
use crate::header::{FieldDescriptor, FieldModel, empty_value_of};
use crate::text::{
    chars_equal, chars_of, is_space, string_from_chars, trim, trim_chars, trim_end, trim_start, upper,
    upper_all, upper_chars,
};
use crate::value::{Value, ValueModel};

verus! {

/// One row of a table.
#[derive(Debug, Clone, PartialEq)]
pub struct Record {
    deleted: bool,
    values: Vec<Value>,
}

/// The model of a [`Record`].
pub struct RecordModel {
    pub deleted: bool,
    pub values: Seq<ValueModel>,
}

/// The models of a list of values.
pub open spec fn values_view(v: Seq<Value>) -> Seq<ValueModel> {
    v.map_values(|x: Value| x@)
}

/// The models of a list of field descriptors.
pub open spec fn fields_view(v: Seq<FieldDescriptor>) -> Seq<FieldModel> {
    v.map_values(|f: FieldDescriptor| f@)
}

impl View for Record {
    type V = RecordModel;

    closed spec fn view(&self) -> RecordModel {
        RecordModel { deleted: self.deleted, values: values_view(self.values@) }
    }
}

/// How a field name given by a caller is matched: trimmed and ASCII upper-cased.
pub open spec fn normalized_name(name: Seq<char>) -> Seq<char> {
    upper_all(trim(name))
}

/// The position of the first field called `name`, if any.
pub open spec fn field_position(fields: Seq<FieldModel>, name: Seq<char>) -> Option<nat>
    decreases fields.len(),
{
    if fields.len() == 0 {
        None
    } else if fields[0].name == name {
        Some(0)
    } else {
        match field_position(fields.drop_first(), name) {
            Some(i) => Some(i + 1),
            None => None,
        }
    }
}

pub proof fn lemma_field_position(fields: Seq<FieldModel>, name: Seq<char>)
    ensures
        field_position(fields, name) matches Some(i) ==> i < fields.len() && fields[i as int].name
            == name && forall|k: int| 0 <= k < i ==> fields[k].name != name,
        field_position(fields, name) is None ==> forall|k: int|
            0 <= k < fields.len() ==> fields[k].name != name,
    decreases fields.len(),
{
    if fields.len() > 0 && fields[0].name != name {
        lemma_field_position(fields.drop_first(), name);
        assert forall|k: int| 0 < k < fields.len() implies fields[k] == fields.drop_first()[k - 1] by {}
    }
}

pub proof fn lemma_field_position_is(fields: Seq<FieldModel>, name: Seq<char>, i: int)
    requires
        0 <= i <= fields.len(),
        forall|k: int| 0 <= k < i ==> fields[k].name != name,
        i < fields.len() ==> fields[i].name == name,
    ensures
        field_position(fields, name) == if i < fields.len() { Some(i as nat) } else { None::<nat> },
    decreases i,
{
    if i > 0 {
        assert forall|k: int| 0 <= k < i - 1 implies fields.drop_first()[k].name != name by {
            assert(fields.drop_first()[k] == fields[k + 1]);
        }
        lemma_field_position_is(fields.drop_first(), name, i - 1);
    }
}

/// ASCII upper-casing keeps every character's whitespace-ness.
proof fn lemma_upper_space(c: char)
    ensures
        is_space(upper(c)) == is_space(c),
{
}

/// Upper-casing commutes with trimming the start.
proof fn lemma_upper_trim_start(s: Seq<char>)
    ensures
        upper_all(trim_start(s)) == trim_start(upper_all(s)),
    decreases s.len(),
{
    if s.len() > 0 {
        lemma_upper_space(s[0]);
        if is_space(s[0]) {
            assert(upper_all(s).drop_first() =~= upper_all(s.drop_first()));
            lemma_upper_trim_start(s.drop_first());
        }
    }
}

/// Upper-casing commutes with trimming the end.
proof fn lemma_upper_trim_end(s: Seq<char>)
    ensures
        upper_all(trim_end(s)) == trim_end(upper_all(s)),
    decreases s.len(),
{
    if s.len() > 0 {
        lemma_upper_space(s.last());
        if is_space(s.last()) {
            assert(upper_all(s).drop_last() =~= upper_all(s.drop_last()));
            lemma_upper_trim_end(s.drop_last());
        }
    }
}

/// Field names are matched without regard to ASCII case: two names that
/// upper-case alike (`"name"`, `"NAME"`, `"Name"`) find the same field of
/// any table.
pub proof fn law_field_lookup_ignores_case(fields: Seq<FieldModel>, a: Seq<char>, b: Seq<char>)
    requires
        upper_all(a) == upper_all(b),
    ensures
        field_position(fields, normalized_name(a)) == field_position(fields, normalized_name(b)),
{
    lemma_upper_trim_start(a);
    lemma_upper_trim_end(trim_start(a));
    lemma_upper_trim_start(b);
    lemma_upper_trim_end(trim_start(b));
    assert(normalized_name(a) == normalized_name(b));
}

/// Setting a field by one name and reading a field by another: the read
/// gives back the value set when the two names differ at most in ASCII
/// case, and the field's earlier value when they name different fields.
/// (`values.update(..)` is what [`Record::insert`] leaves, and indexing is
/// what [`Record::get`] returns.)
pub proof fn law_read_after_insert(
    values: Seq<ValueModel>,
    fields: Seq<FieldModel>,
    set_name: Seq<char>,
    read_name: Seq<char>,
    v: ValueModel,
)
    requires
        field_position(fields, normalized_name(set_name)) matches Some(i) && i < values.len(),
        field_position(fields, normalized_name(read_name)) matches Some(j) && j < values.len(),
    ensures
        ({
            let i = field_position(fields, normalized_name(set_name))->0;
            let j = field_position(fields, normalized_name(read_name))->0;
            let after = values.update(i as int, v);
            &&& upper_all(set_name) == upper_all(read_name) ==> after[j as int] == v
            &&& normalized_name(set_name) != normalized_name(read_name) ==> after[j as int]
                == values[j as int]
        }),
{
    lemma_field_position(fields, normalized_name(set_name));
    lemma_field_position(fields, normalized_name(read_name));
    if upper_all(set_name) == upper_all(read_name) {
        law_field_lookup_ignores_case(fields, set_name, read_name);
    }
}

/// The index of the field that `name` names, after normalizing it; the
/// error carries the normalized name.
pub fn index_of(fields: &[FieldDescriptor], name: &str) -> (r: Result<usize>)
    ensures
        match r {
            Ok(i) => field_position(fields_view(fields@), normalized_name(name@)) == Some(i as nat),
            Err(e) => field_position(fields_view(fields@), normalized_name(name@)) is None
                && e.kind() == ErrorKind::FieldNotFound && e->FieldNotFound_0@ == normalized_name(
                name@,
            ),
        },
{
    let chars = chars_of(name);
    let t = trim_chars(chars.as_slice());
    let normalized = upper_chars(t.as_slice());
    let ghost fv = fields_view(fields@);
    let mut i: usize = 0;
    while i < fields.len()
        invariant
            i <= fields@.len(),
            fv == fields_view(fields@),
            normalized@ == normalized_name(name@),
            forall|k: int| 0 <= k < i ==> fv[k].name != normalized@,
        decreases fields.len() - i,
    {
        let field_chars = chars_of(fields[i].name.as_str());
        if chars_equal(field_chars.as_slice(), normalized.as_slice()) {
            proof {
                lemma_field_position_is(fv, normalized@, i as int);
            }
            return Ok(i);
        }
        i += 1;
    }
    proof {
        lemma_field_position_is(fv, normalized@, i as int);
    }
    Err(Error::FieldNotFound(string_from_chars(normalized.as_slice())))
}

impl Record {
    /// A record that is not deleted and holds each field's empty value.
    pub fn new(fields: &[FieldDescriptor]) -> (r: Record)
        ensures
            !r@.deleted,
            r@.values == fields@.map_values(|f: FieldDescriptor| empty_value_of(f@)),
    {
        let mut values: Vec<Value> = Vec::new();
        let mut i: usize = 0;
        while i < fields.len()
            invariant
                i <= fields@.len(),
                values@.len() == i,
                values_view(values@) == fields@.take(i as int).map_values(
                    |f: FieldDescriptor| empty_value_of(f@),
                ),
            decreases fields.len() - i,
        {
            let v = fields[i].empty_value();
            let ghost old_vals = values@;
            values.push(v);
            proof {
                let target = fields@.take(i + 1).map_values(|f: FieldDescriptor| empty_value_of(f@));
                assert forall|q: int| 0 <= q < i + 1 implies values_view(values@)[q] == target[q] by {
                    if q < i {
                        assert(values@[q] == old_vals[q]);
                        assert(values_view(old_vals)[q] == fields@.take(i as int).map_values(
                            |f: FieldDescriptor| empty_value_of(f@),
                        )[q]);
                    }
                }
                assert(values_view(values@) =~= target);
            }
            i += 1;
        }
        proof {
            assert(fields@.take(fields@.len() as int) =~= fields@);
        }
        Record { deleted: false, values }
    }

    pub fn from_values(deleted: bool, values: Vec<Value>) -> (r: Record)
        ensures
            r@.deleted == deleted,
            r@.values == values_view(values@),
    {
        Record { deleted, values }
    }

    pub fn is_deleted(&self) -> (b: bool)
        ensures
            b == self@.deleted,
    {
        self.deleted
    }

    pub fn set_deleted(&mut self, deleted: bool)
        ensures
            final(self)@.deleted == deleted,
            final(self)@.values == old(self)@.values,
    {
        self.deleted = deleted;
    }

    pub fn values(&self) -> (v: &[Value])
        ensures
            values_view(v@) == self@.values,
    {
        self.values.as_slice()
    }

    pub fn values_mut(&mut self) -> (v: &mut [Value])
        ensures
            values_view(v@) == old(self)@.values,
            final(self)@.values == values_view(final(v)@),
            final(self)@.deleted == old(self)@.deleted,
    {
        self.values.as_mut_slice()
    }

    /// The value of the field that `name` names.
    pub fn get(&self, fields: &[FieldDescriptor], name: &str) -> (r: Result<&Value>)
        requires
            field_position(fields_view(fields@), normalized_name(name@)) matches Some(i) ==> i
                < self@.values.len(),
        ensures
            match r {
                Ok(v) => field_position(fields_view(fields@), normalized_name(name@)) matches Some(
                    i,
                ) && v@ == self@.values[i as int],
                Err(e) => field_position(fields_view(fields@), normalized_name(name@)) is None
                    && e.kind() == ErrorKind::FieldNotFound && e->FieldNotFound_0@ == normalized_name(
                    name@,
                ),
            },
    {
        let index = index_of(fields, name)?;
        Ok(&self.values[index])
    }

    /// The value of the field that `name` names, to change in place.
    pub fn get_mut(&mut self, fields: &[FieldDescriptor], name: &str) -> (r: Result<&mut Value>)
        requires
            field_position(fields_view(fields@), normalized_name(name@)) matches Some(i) ==> i
                < old(self)@.values.len(),
        ensures
            match r {
                Ok(v) => field_position(fields_view(fields@), normalized_name(name@)) matches Some(
                    i,
                ) && v@ == old(self)@.values[i as int] && final(self)@.values == old(
                    self,
                )@.values.update(i as int, final(v)@) && final(self)@.deleted == old(self)@.deleted,
                Err(e) => field_position(fields_view(fields@), normalized_name(name@)) is None
                    && e.kind() == ErrorKind::FieldNotFound && e->FieldNotFound_0@ == normalized_name(
                    name@,
                ) && final(self)@ == old(self)@,
            },
    {
        let index = index_of(fields, name)?;
        Ok(&mut self.values[index])
    }

    /// Sets the value of the field that `name` names.
    pub fn insert(&mut self, fields: &[FieldDescriptor], name: &str, value: Value) -> (r: Result<()>)
        requires
            field_position(fields_view(fields@), normalized_name(name@)) matches Some(i) ==> i
                < old(self)@.values.len(),
        ensures
            match r {
                Ok(_) => field_position(fields_view(fields@), normalized_name(name@)) matches Some(
                    i,
                ) && final(self)@.values == old(self)@.values.update(i as int, value@)
                    && final(self)@.deleted == old(self)@.deleted,
                Err(e) => field_position(fields_view(fields@), normalized_name(name@)) is None
                    && e.kind() == ErrorKind::FieldNotFound && e->FieldNotFound_0@ == normalized_name(
                    name@,
                ) && final(self)@ == old(self)@,
            },
    {
        let index = index_of(fields, name)?;
        self.values.set(index, value);
        proof {
            assert(values_view(self.values@) =~= old(self)@.values.update(index as int, value@));
        }
        Ok(())
    }

    /// A copy of this record.
    pub fn duplicate(&self) -> (r: Record)
        ensures
            r@ == self@,
    {
        let mut values: Vec<Value> = Vec::new();
        let mut i: usize = 0;
        while i < self.values.len()
            invariant
                i <= self.values@.len(),
                values@.len() == i,
                values_view(values@) == values_view(self.values@.take(i as int)),
            decreases self.values.len() - i,
        {
            let v = self.values[i].duplicate();
            let ghost old_vals = values@;
            values.push(v);
            proof {
                let target = values_view(self.values@.take(i + 1));
                assert forall|q: int| 0 <= q < i + 1 implies values_view(values@)[q] == target[q] by {
                    if q < i {
                        assert(values@[q] == old_vals[q]);
                        assert(values_view(old_vals)[q] == values_view(self.values@.take(i as int))[q]);
                    }
                }
                assert(values_view(values@) =~= target);
            }
            i += 1;
        }
        proof {
            assert(self.values@.take(self.values@.len() as int) =~= self.values@);
        }
        Record { deleted: self.deleted, values }
    }
}

} // verus!
