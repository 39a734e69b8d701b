//! The closed set of node kinds an expression tree can be built from,
//! together with each kind's arity range, precedence, commutativity and
//! fixed ordering rank.

use vstd::prelude::*;
use crate::view::{KindView, arity_min, arity_max, kind_precedence, kind_commutative, kind_rank};

verus! {

/// The kind tag of a tree node. `Function` with zero children denotes a
/// symbol (variable); with one or more children, a function application.
pub enum MathTypeName {
    Undefined,
    Function(String),
    NaturalNumber(u128),
    Sum,
    FlipSign,
    Product,
    Exp,
    LogN,
    Power,
}

impl View for MathTypeName {
    type V = KindView;

    open spec fn view(&self) -> KindView {
        match self {
            MathTypeName::Undefined => KindView::Undefined,
            MathTypeName::Function(name) => KindView::Function(name@),
            MathTypeName::NaturalNumber(value) => KindView::NaturalNumber(*value),
            MathTypeName::Sum => KindView::Sum,
            MathTypeName::FlipSign => KindView::FlipSign,
            MathTypeName::Product => KindView::Product,
            MathTypeName::Exp => KindView::Exp,
            MathTypeName::LogN => KindView::LogN,
            MathTypeName::Power => KindView::Power,
        }
    }
}

impl Clone for MathTypeName {
    fn clone(&self) -> (r: Self)
        ensures
            r@ == self@,
    {
        match self {
            MathTypeName::Undefined => MathTypeName::Undefined,
            MathTypeName::Function(name) => MathTypeName::Function(name.clone()),
            MathTypeName::NaturalNumber(value) => MathTypeName::NaturalNumber(*value),
            MathTypeName::Sum => MathTypeName::Sum,
            MathTypeName::FlipSign => MathTypeName::FlipSign,
            MathTypeName::Product => MathTypeName::Product,
            MathTypeName::Exp => MathTypeName::Exp,
            MathTypeName::LogN => MathTypeName::LogN,
            MathTypeName::Power => MathTypeName::Power,
        }
    }
}

impl MathTypeName {
    /// Whether two kind tags are the same kind, names and values included.
    pub fn kind_eq(&self, other: &MathTypeName) -> (r: bool)
        ensures
            r == (self@ == other@),
    {
        match (self, other) {
            (MathTypeName::Undefined, MathTypeName::Undefined) => true,
            (MathTypeName::Function(x), MathTypeName::Function(y)) => *x == *y,
            (MathTypeName::NaturalNumber(x), MathTypeName::NaturalNumber(y)) => *x == *y,
            (MathTypeName::Sum, MathTypeName::Sum) => true,
            (MathTypeName::FlipSign, MathTypeName::FlipSign) => true,
            (MathTypeName::Product, MathTypeName::Product) => true,
            (MathTypeName::Exp, MathTypeName::Exp) => true,
            (MathTypeName::LogN, MathTypeName::LogN) => true,
            (MathTypeName::Power, MathTypeName::Power) => true,
            _ => false,
        }
    }

    /// The smallest and largest child count this kind admits; variadic
    /// kinds report `usize::MAX` as their upper bound.
    pub fn parameter_range(&self) -> (r: (usize, usize))
        ensures
            r.0 == arity_min(self@),
            r.1 == arity_max(self@),
    {
        match self {
            MathTypeName::Sum => (0, usize::MAX),
            MathTypeName::Product => (0, usize::MAX),
            MathTypeName::Function(_) => (0, usize::MAX),
            MathTypeName::FlipSign => (1, 1),
            MathTypeName::Exp => (1, 1),
            MathTypeName::LogN => (1, 1),
            MathTypeName::Power => (2, 2),
            _ => (0, 0),
        }
    }

    /// Rendering precedence: a child is parenthesized iff its precedence is
    /// at most its parent's. Atoms and function applications never are.
    pub fn precedence(&self) -> (r: u8)
        ensures
            r == kind_precedence(self@),
    {
        if self.parameter_range().1 == 0 || matches!(self, MathTypeName::Function(_)) {
            return u8::MAX;
        }
        match self {
            MathTypeName::Power => 4,
            MathTypeName::FlipSign => 3,
            MathTypeName::Product => 2,
            MathTypeName::Sum => 1,
            _ => 0,
        }
    }

    /// Whether the order of this kind's children carries no meaning.
    pub fn is_commutative(&self) -> (r: bool)
        ensures
            r == kind_commutative(self@),
    {
        match self {
            MathTypeName::Sum => true,
            MathTypeName::Product => true,
            _ => false,
        }
    }

    /// The fixed discriminant rank that is the primary key of the total
    /// order on kinds.
    pub fn index(&self) -> (r: u8)
        ensures
            r == kind_rank(self@),
    {
        match self {
            MathTypeName::Undefined => 0,
            MathTypeName::NaturalNumber(_) => 1,
            MathTypeName::Function(_) => 2,
            MathTypeName::Power => 3,
            MathTypeName::Sum => 4,
            MathTypeName::FlipSign => 5,
            MathTypeName::Product => 6,
            MathTypeName::Exp => 7,
            MathTypeName::LogN => 8,
        }
    }
}

} // verus!
