//! The roster entry: a display name together with a timezone
//! identifier, both kept as character vectors.

use vstd::prelude::*;
use crate::chars::str_to_chars;

verus! {

/// A named roster entry with an associated timezone identifier.
/// Names are case-preserved for display; the timezone identifier is
/// resolved only when the roster is listed.
pub struct Person {
    pub name: Vec<char>,
    pub tz: Vec<char>,
}

/// The mathematical value of a `Person`: its two character sequences.
pub struct PersonV {
    pub name: Seq<char>,
    pub tz: Seq<char>,
}

impl View for Person {
    type V = PersonV;

    open spec fn view(&self) -> PersonV {
        PersonV { name: self.name@, tz: self.tz@ }
    }
}

impl DeepView for Person {
    type V = PersonV;

    open spec fn deep_view(&self) -> PersonV {
        self@
    }
}

impl Person {
    /// Builds a `Person` from a name and a timezone identifier.
    pub fn new(name: &str, tz: &str) -> (p: Person)
        ensures
            p@.name == name@,
            p@.tz == tz@,
    {
        Person { name: str_to_chars(name), tz: str_to_chars(tz) }
    }
}

} // verus!
