//! Cursors over the edges of a diagram.

use vstd::prelude::*;
use crate::diagram::{BinaryDecisionDiagram, BinaryIndex, Link, Parent};

verus! {

/// A copyable, non-owning cursor over one edge of a diagram.
#[derive(Clone, Copy, Debug, PartialEq, Eq, Structural)]
pub struct NodeHandler(pub Link);

/// What a cursor stands on: a decision node's variable, or a terminal value.
#[derive(Clone, Copy, Debug, PartialEq, Eq, Hash, PartialOrd, Ord)]
pub enum Element<T> {
    Variable(T),
    Binary(bool),
}

impl NodeHandler {
    /// The cursor over the chosen outgoing edge of a decision node; `None`
    /// on a terminal, which has no children.
    pub fn get_child<T>(&self, diagram: &BinaryDecisionDiagram<T>, child_index: BinaryIndex) -> (r:
        Option<NodeHandler>)
        requires
            diagram.link_valid(self.0),
        ensures
            r == (match self.0 {
                Link::Node(i) => Some(NodeHandler(diagram.child(i as int, child_index))),
                Link::Leaf(_) => None::<NodeHandler>,
            }),
    {
        match self.0 {
            Link::Node(i) => {
                let links = diagram.node_links(i);
                Some(
                    match child_index {
                        BinaryIndex::Left => NodeHandler(links.0),
                        BinaryIndex::Right => NodeHandler(links.1),
                    },
                )
            },
            Link::Leaf(_) => None,
        }
    }

    /// Whether the cursor stands on a terminal.
    pub fn is_leaf(&self) -> (r: bool)
        ensures
            r == self.0 is Leaf,
    {
        match self.0 {
            Link::Leaf(_) => true,
            Link::Node(_) => false,
        }
    }

    /// The node's variable, by reference, or the terminal's value.
    pub fn get_element<'a, T>(&self, diagram: &'a BinaryDecisionDiagram<T>) -> (r: Element<&'a T>)
        requires
            diagram.link_valid(self.0),
        ensures
            r == (match self.0 {
                Link::Node(i) => Element::Variable(&diagram.variable(i as int)),
                Link::Leaf(b) => Element::<&T>::Binary(b),
            }),
    {
        match self.0 {
            Link::Node(i) => Element::Variable(diagram.node_variable(i)),
            Link::Leaf(value) => Element::Binary(value),
        }
    }

    /// The parent set of the node under the cursor: the node's own for a
    /// decision node, the diagram's for a terminal.
    pub fn get_parents<'a, T>(&self, diagram: &'a BinaryDecisionDiagram<T>) -> (r: &'a Vec<Parent>)
        requires
            diagram.wf(),
            diagram.link_valid(self.0),
        ensures
            r@ == diagram.parent_seq(self.0),
            r@.no_duplicates(),
            forall|p: Parent| #[trigger] r@.contains(p) <==> diagram.is_source(p, self.0),
    {
        match self.0 {
            Link::Node(i) => diagram.node_parents(i),
            Link::Leaf(value) => diagram.leaf_parents(value),
        }
    }
}

} // verus!
