//! Remote synchronization endpoints.

use vstd::prelude::*;
use crate::keyed::Keyed;

verus! {

/// The mathematical content of a [`Node`]: its name and description.
pub struct NodeView {
    pub name: Seq<char>,
    pub description: Seq<char>,
}

impl Keyed for NodeView {
    open spec fn key(self) -> Seq<char> {
        self.name
    }
}

/// A named remote host reachable for synchronization. The name doubles as the
/// SSH host alias; the description is free-form.
pub struct Node {
    pub name: String,
    pub description: String,
}

impl View for Node {
    type V = NodeView;

    open spec fn view(&self) -> NodeView {
        NodeView { name: self.name@, description: self.description@ }
    }
}

impl DeepView for Node {
    type V = NodeView;

    open spec fn deep_view(&self) -> NodeView {
        self@
    }
}

impl Node {
    /// Creates a node with the given name and an empty description.
    pub fn new(name: String) -> (r: Node)
        ensures
            r@.name == name@,
            r@.description == Seq::<char>::empty(),
    {
        Node { name, description: String::new() }
    }

    /// Builder step: the same node with its description replaced.
    pub fn description(self, description: String) -> (r: Node)
        ensures
            r@.name == self@.name,
            r@.description == description@,
    {
        Node { name: self.name, description }
    }
}

impl Clone for Node {
    /// Cloning keeps both fields.
    fn clone(&self) -> (r: Node)
        ensures
            r == *self,
    {
        Node { name: self.name.clone(), description: self.description.clone() }
    }
}

impl PartialEq for Node {
    /// Nodes are compared by name alone; descriptions are ignored.
    fn eq(&self, other: &Node) -> (r: bool)
        ensures
            r == (self@.name == other@.name),
    {
        self.name == other.name
    }
}

impl vstd::std_specs::cmp::PartialEqSpecImpl for Node {
    open spec fn obeys_eq_spec() -> bool {
        true
    }

    open spec fn eq_spec(&self, other: &Node) -> bool {
        self@.name == other@.name
    }
}

} // verus!
