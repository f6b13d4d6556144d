//! Names and small enumerations of the query language.
use vstd::prelude::*;

verus! {

/// A string value of the query language.
#[derive(Debug, Clone, PartialEq, Eq, Hash)]
pub struct Strand(pub String);

impl Strand {
    pub open spec fn view(&self) -> Seq<char> {
        self.0@
    }

    pub fn new(val: String) -> (r: Strand)
        ensures
            r@ == val@,
    {
        Strand(val)
    }

    pub fn as_str(&self) -> (r: &str)
        ensures
            r@ == self@,
    {
        self.0.as_str()
    }

    pub fn as_string(&self) -> (r: String)
        ensures
            r@ == self@,
    {
        self.0.clone()
    }

    pub fn is_empty(&self) -> (r: bool)
        ensures
            r == (self@.len() == 0),
    {
        self.0.as_str().is_empty()
    }

    /// A copy holding the same characters.
    pub fn duplicate(&self) -> (r: Strand)
        ensures
            r@ == self@,
    {
        Strand(self.0.clone())
    }
}

/// An identifier: the name of a field.
#[derive(Debug, Clone, PartialEq, Eq, Hash)]
pub struct Ident(pub String);

impl Ident {
    pub open spec fn view(&self) -> Seq<char> {
        self.0@
    }

    pub fn new(ident: String) -> (r: Ident)
        ensures
            r@ == ident@,
    {
        Ident(ident)
    }

    pub fn to_string(&self) -> (r: String)
        ensures
            r@ == self@,
    {
        self.0.clone()
    }
}

/// The direction of a hop along an edge.
#[derive(Debug, Clone, Copy, PartialEq, Eq, Structural, PartialOrd, Ord, Hash)]
pub enum Direction {
    In,
    Out,
    Both,
}

impl Direction {
    pub fn is_in(&self) -> (r: bool)
        ensures
            r == (*self == Direction::In),
    {
        matches!(self, Direction::In)
    }

    pub fn is_out(&self) -> (r: bool)
        ensures
            r == (*self == Direction::Out),
    {
        matches!(self, Direction::Out)
    }

    pub fn is_both(&self) -> (r: bool)
        ensures
            r == (*self == Direction::Both),
    {
        matches!(self, Direction::Both)
    }
}

impl Default for Direction {
    fn default() -> (r: Direction)
        ensures
            r == Direction::Both,
    {
        Direction::Both
    }
}

/// The operators of expressions.
#[derive(Debug, Clone, Copy, PartialEq, Eq, Structural, PartialOrd, Ord, Hash)]
pub enum Operator {
    Neg,
    Not,
    Or,
    And,
    Add,
    Sub,
    Mult,
    Div,
    Eq,
    NtEq,
    Lt,
    Gt,
    LtEq,
    GtEq,
}

/// A reference to a table by its name.
#[derive(Debug, Clone, PartialEq, Eq, Hash)]
pub struct Table(pub String);

impl Table {
    pub open spec fn view(&self) -> Seq<char> {
        self.0@
    }

    pub fn duplicate(&self) -> (r: Table)
        ensures
            r@ == self@,
    {
        Table(self.0.clone())
    }
}

} // verus!
