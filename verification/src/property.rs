//! The property bag of an input line.

use vstd::prelude::*;

verus! {

/// The value of a property. A number is held as the bit pattern of the
/// double-precision number it stands for; an array or a nested object is
/// carried as text and never looked into.
#[derive(Clone, Debug, PartialEq, Eq)]
pub enum PropertyValue {
    Null,
    Bool(bool),
    Number(u64),
    Text(String),
    Composite(String),
}

/// A named value in the property bag of an input line.
#[derive(Clone, Debug, PartialEq, Eq)]
pub struct Property {
    pub name: String,
    pub value: PropertyValue,
}

/// The value that the bag has under `name`: that of the first property of
/// this name, if there is one.
pub open spec fn lookup(bag: Seq<Property>, name: Seq<char>) -> Option<PropertyValue>
    decreases bag.len(),
{
    if bag.len() == 0 {
        None
    } else if bag[0].name@ == name {
        Some(bag[0].value)
    } else {
        lookup(bag.drop_first(), name)
    }
}

/// The number that a value stands for, if it is a number.
pub open spec fn number_of(value: PropertyValue) -> Option<u64> {
    match value {
        PropertyValue::Number(bits) => Some(bits),
        _ => None,
    }
}

impl PropertyValue {
    /// The number that the value stands for, if it is a number.
    pub fn as_number(&self) -> (r: Option<u64>)
        ensures
            r == number_of(*self),
    {
        match self {
            PropertyValue::Number(bits) => Some(*bits),
            _ => None,
        }
    }

    /// A copy of the value.
    pub fn duplicate(&self) -> (copy: PropertyValue)
        ensures
            copy == *self,
    {
        match self {
            PropertyValue::Null => PropertyValue::Null,
            PropertyValue::Bool(b) => PropertyValue::Bool(*b),
            PropertyValue::Number(bits) => PropertyValue::Number(*bits),
            PropertyValue::Text(text) => PropertyValue::Text(text.clone()),
            PropertyValue::Composite(text) => PropertyValue::Composite(text.clone()),
        }
    }
}

/// Looks a property up by name.
pub fn find_property<'a>(bag: &'a Vec<Property>, name: &String) -> (found: Option<
    &'a PropertyValue,
>)
    ensures
        match found {
            Some(value) => lookup(bag@, name@) == Some(*value),
            None => lookup(bag@, name@) is None,
        },
{
    let mut i: usize = 0;
    assert(bag@.subrange(0, bag.len() as int) =~= bag@);
    while i < bag.len()
        invariant
            i <= bag.len(),
            lookup(bag@, name@) == lookup(bag@.subrange(i as int, bag.len() as int), name@),
        decreases bag.len() - i,
    {
        let ghost rest = bag@.subrange(i as int, bag.len() as int);
        assert(rest[0] == bag[i as int]);
        assert(rest.drop_first() =~= bag@.subrange(i + 1, bag.len() as int));
        if bag[i].name == *name {
            return Some(&bag[i].value);
        }
        i += 1;
    }
    None
}

} // verus!
