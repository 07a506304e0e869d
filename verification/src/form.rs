//! First-order formulas as the semantic compiler builds them: names are interner keys.

use vstd::prelude::*;

verus! {

/// A term of a formula. Variables and constants are interner keys.
#[derive(Clone, Copy, PartialEq, Eq, Debug, Structural)]
pub enum Term {
    Variable(u32),
    Constant(u32),
    Number(u32),
    /// An unfilled place.
    Unspecified,
}

/// A first-order formula with tense and deontic operators.
#[derive(Debug)]
pub enum LogicalForm {
    Predicate { relation: u32, args: Vec<Term> },
    And(Box<LogicalForm>, Box<LogicalForm>),
    Or(Box<LogicalForm>, Box<LogicalForm>),
    Biconditional(Box<LogicalForm>, Box<LogicalForm>),
    Xor(Box<LogicalForm>, Box<LogicalForm>),
    Not(Box<LogicalForm>),
    Exists(u32, Box<LogicalForm>),
    ForAll(u32, Box<LogicalForm>),
    /// Exactly `count` values of `var` satisfy `body`.
    Count { var: u32, count: u32, body: Box<LogicalForm> },
    Past(Box<LogicalForm>),
    Present(Box<LogicalForm>),
    Future(Box<LogicalForm>),
    Obligatory(Box<LogicalForm>),
    Permitted(Box<LogicalForm>),
}

} // verus!
