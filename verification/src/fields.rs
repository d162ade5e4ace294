//! Comparisons on the nullable text fields of the tables.
use vstd::prelude::*;

verus! {

/// A nullable text field holds exactly `name`; a missing value names nothing.
pub open spec fn names(d: Option<String>, name: Seq<char>) -> bool {
    d matches Some(s) && s@ == name
}

/// Tests whether a nullable text field holds exactly `name`.
pub fn names_exec(d: &Option<String>, name: &String) -> (r: bool)
    ensures
        r == names(*d, name@),
{
    match d {
        Some(s) => *s == *name,
        None => false,
    }
}

} // verus!
