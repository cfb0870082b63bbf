use vstd::prelude::*;

pub mod model;
pub mod node;
pub mod path;
pub mod service;
pub mod tree;

verus! {

/// An absolute path begins with the separator character.
pub open spec fn is_absolute(s: Seq<char>) -> bool {
    s.len() > 0 && s[0] == '/'
}

} // verus!
