//! What the class-name handling reads of the syntax tree: attribute names,
//! the shape of callee expressions, and the chain of ancestors of a string
//! or template literal.

use vstd::prelude::*;

use crate::span::Span;

verus! {

/// The name of a JSX attribute.
pub enum AttributeName {
    /// `name`
    Identifier(String),
    /// `namespace:name`
    NamespacedName,
}

/// The shape of a callee expression, as far as class function detection
/// reads it.
pub enum Callee {
    /// `callee(...)`
    Call(Box<Callee>),
    /// `object.property`
    StaticMember(Box<Callee>),
    /// `object[property]`
    ComputedMember(Box<Callee>),
    /// `name`
    Identifier(String),
    /// Any other expression.
    Other,
}

/// The kind of an ancestor node, with what the class-name handling reads of it.
pub enum AncestorKind {
    /// A JSX attribute with this name.
    JSXAttribute { name: AttributeName },
    /// A tagged template with this tag.
    TaggedTemplateExpression { tag: Callee },
    /// A call of `callee`, which spans `callee_span`.
    CallExpression { callee: Callee, callee_span: Span },
    /// A conditional whose test spans `test_span`.
    ConditionalExpression { test_span: Span },
    /// A binary expression; `addition` for `+`.
    BinaryExpression { addition: bool, left_span: Span, right_span: Span },
    /// An object property; `computed` for `[key]`, the key spans `key_span`.
    ObjectProperty { computed: bool, key_span: Span },
    JSXExpressionContainer,
    ParenthesizedExpression,
    LogicalExpression,
    ArrayExpression,
    ObjectExpression,
    TemplateLiteral,
    TSAsExpression,
    TSSatisfiesExpression,
    TSNonNullExpression,
    TSTypeAssertion,
    /// Any other node.
    Other,
}

/// An ancestor node: its span and kind.
pub struct Ancestor {
    pub span: Span,
    pub kind: AncestorKind,
}

} // verus!
