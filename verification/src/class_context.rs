//! One entry of the class context stack.

use vstd::prelude::*;

use crate::options::SortTailwindcssOptions;

verus! {

/// Entry in the class context stack, tracking whether we're inside a class
/// string context targeted by `sort_tailwindcss` and/or `wrap_class_names`.
#[derive(Clone, Copy, Debug, PartialEq, Eq, Structural)]
pub struct ClassContext {
    /// Whether to preserve whitespace (newlines) in template literals.
    pub preserve_whitespace: bool,
    /// Whether we're inside a template literal expression (between `${` and `}`).
    pub in_template_expression: bool,
    /// Whether the quasi before this expression ends with whitespace.
    pub quasi_before_has_trailing_ws: bool,
    /// Whether the quasi after this expression starts with whitespace.
    pub quasi_after_has_leading_ws: bool,
    /// Whether this is the first quasi in a template literal.
    pub is_first_quasi: bool,
    /// Whether this is the last quasi in a template literal.
    pub is_last_quasi: bool,
    /// Whether class handling is disabled in this context (inside a nested
    /// non-class call expression).
    pub disabled: bool,
    /// Whether `wrap_class_names` targets this context.
    pub wrap: bool,
    /// Whether `sort_tailwindcss` targets this context.
    pub sort: bool,
}

impl ClassContext {
    /// The entry that `new` builds for an attribute or a call that at least
    /// one of the two features targets.
    pub open spec fn spec_new(sort: Option<bool>, wrap: bool) -> ClassContext {
        ClassContext {
            preserve_whitespace: sort == Some(true),
            in_template_expression: false,
            quasi_before_has_trailing_ws: true,
            quasi_after_has_leading_ws: true,
            is_first_quasi: true,
            is_last_quasi: true,
            disabled: false,
            wrap,
            sort: sort is Some,
        }
    }

    /// Whether sorting or wrapping applies in this context.
    pub open spec fn active(self) -> bool {
        self.sort || self.wrap
    }

    /// Create a new context entry for JSX attributes or function calls,
    /// given the `sort_tailwindcss` options when sorting targets it and whether
    /// wrapping targets it. Returns `None` when neither does.
    pub fn new(sort: Option<&SortTailwindcssOptions>, wrap: bool) -> (r: Option<Self>)
        ensures
            sort is None && !wrap ==> r is None,
            sort is Some || wrap ==> r == Some(Self::spec_new(
                match sort {
                    Some(options) => Some(options.preserve_whitespace),
                    None => None,
                },
                wrap,
            )),
    {
        if sort.is_none() && !wrap {
            return None;
        }
        let preserve_whitespace = match sort {
            Some(options) => options.preserve_whitespace,
            None => false,
        };
        Some(Self {
            preserve_whitespace,
            in_template_expression: false,
            // Default: can collapse
            quasi_before_has_trailing_ws: true,
            quasi_after_has_leading_ws: true,
            is_first_quasi: true,
            is_last_quasi: true,
            disabled: false,
            wrap,
            sort: sort.is_some(),
        })
    }

    /// Returns this context with wrapping turned off.
    pub fn without_wrap(self) -> (r: Self)
        ensures
            r == (ClassContext { wrap: false, ..self }),
    {
        let mut ctx = self;
        ctx.wrap = false;
        ctx
    }

    /// Whether sorting or wrapping applies in this context.
    pub fn is_active(&self) -> (r: bool)
        ensures
            r == self.active(),
    {
        self.sort || self.wrap
    }

    /// Create a new context entry for template literal expressions.
    /// Inherits `preserve_whitespace`, `wrap` and `sort` from the parent context.
    pub fn template_expression(
        parent: ClassContext,
        quasi_before_has_trailing_ws: bool,
        quasi_after_has_leading_ws: bool,
    ) -> (r: Self)
        ensures
            r == (ClassContext {
                preserve_whitespace: parent.preserve_whitespace,
                in_template_expression: true,
                quasi_before_has_trailing_ws,
                quasi_after_has_leading_ws,
                is_first_quasi: true,
                is_last_quasi: true,
                disabled: false,
                wrap: parent.wrap,
                sort: parent.sort,
            }),
    {
        Self {
            preserve_whitespace: parent.preserve_whitespace,
            in_template_expression: true,
            quasi_before_has_trailing_ws,
            quasi_after_has_leading_ws,
            is_first_quasi: true,
            is_last_quasi: true,
            disabled: false,
            wrap: parent.wrap,
            sort: parent.sort,
        }
    }

    /// Create a new context entry with updated quasi position.
    pub fn with_quasi_position(self, is_first: bool, is_last: bool) -> (r: Self)
        ensures
            r == (ClassContext { is_first_quasi: is_first, is_last_quasi: is_last, ..self }),
    {
        let mut ctx = self;
        ctx.is_first_quasi = is_first;
        ctx.is_last_quasi = is_last;
        ctx
    }
}

} // verus!
