//! Schemas: ordered sequences of named, typed fields describing the output
//! of a plan node.  Names are unique within a well-formed schema; lookup is
//! by name and returns the first matching field.

use vstd::prelude::*;

verus! {

/// The data type of a column.
#[derive(Clone, Copy, PartialEq, Eq, Structural, Debug)]
pub enum DataType {
    Boolean,
    Int32,
    Int64,
    Utf8,
}

/// Mathematical image of a [`Field`]: the name as a character sequence.
#[verifier::ext_equal]
pub ghost struct SField {
    pub name: Seq<char>,
    pub dtype: DataType,
}

/// A named, typed column of a schema.
#[derive(Debug, PartialEq)]
pub struct Field {
    pub name: String,
    pub dtype: DataType,
}

impl View for Field {
    type V = SField;

    open spec fn view(&self) -> SField {
        SField { name: self.name@, dtype: self.dtype }
    }
}

impl Field {
    pub fn new(name: String, dtype: DataType) -> (r: Field)
        ensures
            r@ == (SField { name: name@, dtype }),
    {
        Field { name, dtype }
    }

    /// The field's name.
    pub fn name(&self) -> (r: &String)
        ensures
            r@ == self@.name,
    {
        &self.name
    }
}

/// First field of `s` named `name`, if any.
pub open spec fn s_lookup(s: Seq<SField>, name: Seq<char>) -> Option<SField>
    decreases s.len(),
{
    if s.len() == 0 {
        None
    } else if s[0].name == name {
        Some(s[0])
    } else {
        s_lookup(s.skip(1), name)
    }
}

impl Clone for Field {
    fn clone(&self) -> (r: Self)
        ensures
            r == *self,
    {
        Field { name: self.name.clone(), dtype: self.dtype }
    }
}

/// An ordered sequence of fields, name-indexed.
#[derive(Debug, PartialEq)]
pub struct Schema {
    pub fields: Vec<Field>,
}

impl View for Schema {
    type V = Seq<SField>;

    open spec fn view(&self) -> Seq<SField> {
        self.fields@.map_values(|f: Field| f@)
    }
}

impl Clone for Schema {
    fn clone(&self) -> (r: Self)
        ensures
            r.fields@ == self.fields@,
            r@ == self@,
    {
        let fields = self.fields.clone();
        proof {
            assert(fields@ =~= self.fields@);
        }
        Schema { fields }
    }
}

impl Schema {
    pub fn new(fields: Vec<Field>) -> (r: Schema)
        ensures
            r@ == fields@.map_values(|f: Field| f@),
    {
        Schema { fields }
    }

    /// The fields, in schema order.
    pub fn fields(&self) -> (r: &Vec<Field>)
        ensures
            r@.map_values(|f: Field| f@) == self@,
    {
        &self.fields
    }

    /// Number of fields.
    pub fn len(&self) -> (r: usize)
        ensures
            r == self@.len(),
    {
        self.fields.len()
    }

    /// First field named `name`, if any.
    pub fn field(&self, name: &String) -> (r: Option<&Field>)
        ensures
            match r {
                Some(f) => s_lookup(self@, name@) == Some(f@),
                None => s_lookup(self@, name@) is None,
            },
    {
        proof {
            assert(self@.skip(0) =~= self@);
        }
        let mut i: usize = 0;
        while i < self.fields.len()
            invariant
                i <= self.fields.len(),
                s_lookup(self@, name@) == s_lookup(self@.skip(i as int), name@),
            decreases self.fields.len() - i,
        {
            proof {
                assert(self@.skip(i as int)[0] == self@[i as int]);
                assert(self@.skip(i as int).skip(1) =~= self@.skip(i + 1));
            }
            if self.fields[i].name.eq(name) {
                return Some(&self.fields[i]);
            }
            i += 1;
        }
        proof {
            assert(self@.skip(i as int).len() == 0);
        }
        None
    }
}

} // verus!
