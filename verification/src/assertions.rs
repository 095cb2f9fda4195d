//! What operators assert of the shapes at their paths.
use crate::node::ShapeNode;
use crate::path::PathPattern;
use crate::value::ValueType;
use vstd::prelude::*;

verus! {

#[derive(Clone, Debug, PartialEq, Eq, Hash)]
pub struct AssertionRef(pub String);

#[derive(Clone, Debug)]
pub enum AssertionTarget {
    Mapping,
    Record,
    Tuple,
    List,
    OrderSignificant,
    Bag,
    Type(ValueType),
    VariantArm(Box<ShapeNode>),
}

#[derive(Clone, Debug)]
pub struct Assertion {
    pub id: AssertionRef,
    pub path: PathPattern,
    pub target: AssertionTarget,
    /// Violating docs tolerated before an error is emitted.
    pub tolerance: u32,
}

#[derive(Clone, Debug)]
pub struct AssertionSet {
    pub assertions: Vec<Assertion>,
}

impl Default for AssertionSet {
    fn default() -> (s: AssertionSet)
        ensures
            s.assertions@.len() == 0,
    {
        AssertionSet { assertions: Vec::new() }
    }
}

} // verus!
