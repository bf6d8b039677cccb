//! Synchronizable directories.

use vstd::prelude::*;
use crate::keyed::Keyed;

verus! {

/// The mathematical content of a [`Target`]: its name and path.
pub struct TargetView {
    pub name: Seq<char>,
    pub path: Seq<char>,
}

impl Keyed for TargetView {
    open spec fn key(self) -> Seq<char> {
        self.name
    }
}

/// A named directory kept in sync. The path may start with `~` and is taken
/// to be the same on the local host and on every node.
pub struct Target {
    pub name: String,
    pub path: String,
}

impl View for Target {
    type V = TargetView;

    open spec fn view(&self) -> TargetView {
        TargetView { name: self.name@, path: self.path@ }
    }
}

impl DeepView for Target {
    type V = TargetView;

    open spec fn deep_view(&self) -> TargetView {
        self@
    }
}

impl Target {
    /// Creates a target with the given name and path.
    pub fn new(name: String, path: String) -> (r: Target)
        ensures
            r@.name == name@,
            r@.path == path@,
    {
        Target { name, path }
    }
}

impl Clone for Target {
    /// Cloning keeps both fields.
    fn clone(&self) -> (r: Target)
        ensures
            r == *self,
    {
        Target { name: self.name.clone(), path: self.path.clone() }
    }
}

impl PartialEq for Target {
    /// Targets are compared by name alone; paths are ignored.
    fn eq(&self, other: &Target) -> (r: bool)
        ensures
            r == (self@.name == other@.name),
    {
        self.name == other.name
    }
}

impl vstd::std_specs::cmp::PartialEqSpecImpl for Target {
    open spec fn obeys_eq_spec() -> bool {
        true
    }

    open spec fn eq_spec(&self, other: &Target) -> bool {
        self@.name == other@.name
    }
}

} // verus!
