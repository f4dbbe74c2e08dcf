//! The tree of a rule as its author wrote it: scalars, sequences and
//! mappings whose keys are themselves values.
use vstd::prelude::*;
use crate::value::Number;

verus! {

/// A value of a rule document.
#[derive(Debug)]
pub enum Yaml {
    Null,
    Bool(bool),
    Number(Number),
    String(String),
    Sequence(Vec<Yaml>),
    Mapping(Vec<(Yaml, Yaml)>),
}

/// The text of a value that is a string.
pub open spec fn text_of(y: Yaml) -> Option<Seq<char>> {
    match y {
        Yaml::String(s) => Some(s@),
        _ => None,
    }
}

impl Yaml {
    /// The text, if this is a string.
    pub fn as_str(&self) -> (r: Option<&String>)
        ensures
            match r {
                Some(s) => text_of(*self) == Some(s@),
                None => text_of(*self) is None,
            },
    {
        match self {
            Yaml::String(s) => Some(s),
            _ => None,
        }
    }
}

} // verus!
