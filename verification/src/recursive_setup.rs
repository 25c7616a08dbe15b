//! The templates of the recursive proving stages.
use vstd::prelude::*;

verus! {

/// A recursive proving stage.
#[derive(Debug, Clone, Copy, PartialEq, Eq, Structural)]
pub enum RecursiveTemplate {
    Compressor,
    Recursive1,
    Recursive2,
}

impl RecursiveTemplate {
    /// The name of the stage.
    pub fn as_str(&self) -> (s: &'static str)
        ensures
            s@ == match *self {
                RecursiveTemplate::Compressor => "compressor"@,
                RecursiveTemplate::Recursive1 => "recursive1"@,
                RecursiveTemplate::Recursive2 => "recursive2"@,
            },
    {
        match self {
            RecursiveTemplate::Compressor => "compressor",
            RecursiveTemplate::Recursive1 => "recursive1",
            RecursiveTemplate::Recursive2 => "recursive2",
        }
    }

    /// The path of the stage's circuit template.
    pub fn tera_template(&self) -> (s: &'static str)
        ensures
            s@ == match *self {
                RecursiveTemplate::Compressor => "vadcop/compressor.circom.tera"@,
                RecursiveTemplate::Recursive1 => "vadcop/recursive1.circom.tera"@,
                RecursiveTemplate::Recursive2 => "vadcop/recursive2.circom.tera"@,
            },
    {
        match self {
            RecursiveTemplate::Compressor => "vadcop/compressor.circom.tera",
            RecursiveTemplate::Recursive1 => "vadcop/recursive1.circom.tera",
            RecursiveTemplate::Recursive2 => "vadcop/recursive2.circom.tera",
        }
    }
}

} // verus!
