use vstd::prelude::*;

use crate::callable::Callable;
use crate::procedure::Procedure;
use crate::source_mapped::SourceMapped;
use crate::value::Value;

verus! {

/// An object that garbage collection follows references to.
#[derive(Debug, Clone, Copy, PartialEq, Eq, Structural)]
pub enum Node {
    Pair(usize),
    Scope(usize),
    Procedure(usize),
}

/// The objects that a value refers to directly.
pub open spec fn value_nodes(v: Value) -> Seq<Node> {
    match v {
        Value::Pair(p) => seq![Node::Pair(p.0.0)],
        Value::Callable(Callable::Procedure(Procedure::Compound(c))) => seq![Node::Procedure(c.id)],
        _ => Seq::empty(),
    }
}

/// Collects the objects that traversed values refer to.
pub struct Visitor {
    pub debug: bool,
    pub pending: Vec<Node>,
}

/// Something whose references garbage collection follows.
pub trait Traverser {
    spec fn spec_nodes(&self) -> Seq<Node>;

    /// Hands the objects this refers to to the visitor.
    fn traverse(&self, visitor: &mut Visitor)
        ensures
            final(visitor).pending() == old(visitor).pending() + self.spec_nodes(),
            final(visitor).debug == old(visitor).debug,
    ;
}

impl Visitor {
    /// The objects reached and not yet taken.
    pub open spec fn pending(&self) -> Seq<Node> {
        self.pending@
    }

    pub fn new(debug: bool) -> (res: Self)
        ensures
            res.debug == debug,
            res.pending().len() == 0,
    {
        Visitor { debug, pending: Vec::new() }
    }

    /// Reports that `node` is referred to.
    pub fn visit(&mut self, node: Node)
        ensures
            final(self).pending() == old(self).pending().push(node),
            final(self).debug == old(self).debug,
    {
        self.pending.push(node);
    }

    /// Traverses `traverser`, collecting what it refers to.
    pub fn traverse<T: Traverser>(&mut self, traverser: &T)
        ensures
            final(self).pending() == old(self).pending() + traverser.spec_nodes(),
            final(self).debug == old(self).debug,
    {
        traverser.traverse(self);
    }

    /// Takes the most recently reported object, if any.
    pub fn take(&mut self) -> (res: Option<Node>)
        ensures
            old(self).pending().len() == 0 ==> res is None && final(self).pending() == old(self).pending(),
            old(self).pending().len() > 0 ==> res == Some(old(self).pending().last())
                && final(self).pending() == old(self).pending().drop_last(),
            final(self).debug == old(self).debug,
    {
        self.pending.pop()
    }

    pub fn pending_len(&self) -> (res: usize)
        ensures
            res == self.pending().len(),
    {
        self.pending.len()
    }
}

impl Traverser for Value {
    open spec fn spec_nodes(&self) -> Seq<Node> {
        value_nodes(*self)
    }

    fn traverse(&self, visitor: &mut Visitor) {
        match self {
            Value::Pair(p) => {
                visitor.visit(Node::Pair(p.0.0));
                assert(visitor.pending() =~= old(visitor).pending() + value_nodes(*self));
            },
            Value::Callable(Callable::Procedure(Procedure::Compound(c))) => {
                visitor.visit(Node::Procedure(c.id));
                assert(visitor.pending() =~= old(visitor).pending() + value_nodes(*self));
            },
            _ => {
                assert(visitor.pending() =~= old(visitor).pending() + value_nodes(*self));
            },
        }
    }
}

impl Traverser for SourceMapped<Value> {
    open spec fn spec_nodes(&self) -> Seq<Node> {
        value_nodes(self.0)
    }

    fn traverse(&self, visitor: &mut Visitor) {
        visitor.traverse(&self.0);
    }
}

} // verus!
