//! The node kinds of an expression and what each kind demands of its children.

use vstd::prelude::*;

verus! {

/// One node of an expression over a single variable.
#[derive(Clone, Copy, Debug, PartialEq)]
pub enum Node<T> {
    Add,
    Subtract,
    Multiply,
    Divide,
    Sine,
    Cosine,
    Variable,
    Number(T),
}

impl<T> Node<T> {
    /// The number of children the node takes: two for the arithmetic
    /// operators, one for sine and cosine, none for a terminal.
    pub open spec fn arity(self) -> nat {
        match self {
            Node::Add | Node::Subtract | Node::Multiply | Node::Divide => 2,
            Node::Sine | Node::Cosine => 1,
            Node::Variable | Node::Number(_) => 0,
        }
    }

    /// An operator takes at least one child.
    pub open spec fn is_operator(self) -> bool {
        self.arity() > 0
    }

    /// A terminal takes no child.
    pub open spec fn is_terminal(self) -> bool {
        self.arity() == 0
    }

    /// The operator of the same arity that a point mutation turns this one
    /// into; a terminal is its own.
    pub open spec fn twin(self) -> Node<T> {
        match self {
            Node::Add => Node::Subtract,
            Node::Subtract => Node::Add,
            Node::Multiply => Node::Divide,
            Node::Divide => Node::Multiply,
            Node::Sine => Node::Cosine,
            Node::Cosine => Node::Sine,
            other => other,
        }
    }
}

impl<T: Copy> Node<T> {
    /// The number of children the node takes.
    pub fn children(&self) -> (n: usize)
        ensures
            n == self.arity(),
    {
        match self {
            Node::Add | Node::Subtract | Node::Multiply | Node::Divide => 2,
            Node::Sine | Node::Cosine => 1,
            Node::Variable | Node::Number(_) => 0,
        }
    }

    /// The operator that a point mutation puts in this one's place.
    pub fn similar(&self) -> (other: Node<T>)
        ensures
            other == self.twin(),
            other.arity() == self.arity(),
    {
        match self {
            Node::Add => Node::Subtract,
            Node::Subtract => Node::Add,
            Node::Multiply => Node::Divide,
            Node::Divide => Node::Multiply,
            Node::Sine => Node::Cosine,
            Node::Cosine => Node::Sine,
            Node::Variable => Node::Variable,
            Node::Number(n) => Node::Number(*n),
        }
    }
}

/// The number of children that the content of a slot takes; an empty slot
/// takes none.
pub open spec fn slot_arity<T>(slot: Option<Node<T>>) -> nat {
    match slot {
        Some(node) => node.arity(),
        None => 0,
    }
}

/// The number of children that the content of a slot takes.
pub fn arity_of<T: Copy>(slot: &Option<Node<T>>) -> (n: usize)
    ensures
        n == slot_arity(*slot),
{
    match slot {
        Some(node) => node.children(),
        None => 0,
    }
}

} // verus!
