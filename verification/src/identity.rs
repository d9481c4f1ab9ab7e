//! What makes two points, or two namespaces, the same: their full names.

use crate::point::{Namespace, Point};
use crate::text::str_eq;
use vstd::prelude::*;
use vstd::std_specs::cmp::PartialEqSpecImpl;

verus! {

impl PartialEq for Point {
    /// Points are the same when their full names are.
    fn eq(&self, other: &Point) -> (same: bool) {
        str_eq(self.full_name.as_str(), other.full_name.as_str())
    }
}

impl PartialEqSpecImpl for Point {
    open spec fn obeys_eq_spec() -> bool {
        true
    }

    open spec fn eq_spec(&self, other: &Point) -> bool {
        self.full_name@ == other.full_name@
    }
}

impl Eq for Point {

}

/// `Hash::hash` of std for `String`: it feeds the text to the hasher.
/// Nothing is claimed of what the hasher makes of it.
pub assume_specification<H: std::hash::Hasher>[
    <std::string::String as std::hash::Hash>::hash::<H>
](text: &std::string::String, state: &mut H);

impl std::hash::Hash for Point {
    /// Points are hashed by their full names.
    fn hash<H: std::hash::Hasher>(&self, state: &mut H) {
        self.full_name.hash(state)
    }
}

impl PartialEq for Namespace {
    /// Namespaces are the same when their full names are.
    fn eq(&self, other: &Namespace) -> (same: bool) {
        str_eq(self.name.as_str(), other.name.as_str())
    }
}

impl PartialEqSpecImpl for Namespace {
    open spec fn obeys_eq_spec() -> bool {
        true
    }

    open spec fn eq_spec(&self, other: &Namespace) -> bool {
        self.name@ == other.name@
    }
}

} // verus!
