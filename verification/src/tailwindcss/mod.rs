//! Class string utilities for Tailwind CSS class sorting (`sort_tailwindcss`)
//! and class string wrapping (`wrap_class_names`).
//!
//! Both features share one class context and collect class strings within:
//! - JSX attributes (`className`, `class`, or custom attributes)
//! - Function calls (`clsx()`, `cn()`, `tw()`, or custom functions)
//! - Template literals with expressions

use vstd::prelude::*;

pub mod write;

pub use self::write::{
    class_context_for_string_literal, is_wrap_convertible_string_container, try_wrap_convert_template,
    write_class_string_literal, write_class_template_element,
};

use crate::ast::{Ancestor, AncestorKind, AttributeName, Callee};
use crate::class_context::ClassContext;
use crate::context::ContextView;
use crate::js_formatter::JsFormatter;
use crate::options::{JsFormatOptions, SortTailwindcssOptions};
use crate::span::Span;
use crate::strings::chars_of;

verus! {

// ============================================================================
// Detection Functions
// ============================================================================

/// Whether two strings are equal.
pub fn str_eq(a: &str, b: &str) -> (r: bool)
    ensures
        r == (a@ == b@),
{
    let x = chars_of(a);
    let y = chars_of(b);
    if x.len() != y.len() {
        return false;
    }
    let mut i: usize = 0;
    while i < x.len()
        invariant
            i <= x.len(),
            x.len() == y.len(),
            x@ == a@,
            y@ == b@,
            forall|j: int| 0 <= j < i ==> x@[j] == y@[j],
        decreases x.len() - i,
    {
        if x[i] != y[i] {
            return false;
        }
        i += 1;
    }
    assert(x@ =~= y@);
    true
}

/// Whether `name` is one of `list`.
pub open spec fn listed(list: Seq<String>, name: Seq<char>) -> bool {
    exists|i: int| 0 <= i < list.len() && #[trigger] list[i]@ == name
}

/// Whether `name` is one of `list`.
pub fn is_listed(list: &[String], name: &str) -> (r: bool)
    ensures
        r == listed(list@, name@),
{
    let mut i: usize = 0;
    while i < list.len()
        invariant
            i <= list.len(),
            forall|j: int| 0 <= j < i ==> #[trigger] list@[j]@ != name@,
        decreases list.len() - i,
    {
        if str_eq(list[i].as_str(), name) {
            return true;
        }
        i += 1;
    }
    false
}

/// `class`, `className`, or one of `extra_attributes`.
pub open spec fn spec_is_class_attribute(attr_name: AttributeName, extra_attributes: Seq<String>) -> bool {
    match attr_name {
        AttributeName::Identifier(name) => name@ == "class"@ || name@ == "className"@ || listed(
            extra_attributes,
            name@,
        ),
        AttributeName::NamespacedName => false,
    }
}

/// Checks if a JSX attribute is a class attribute: `class`, `className`, or
/// one of the feature's `attributes`.
pub fn is_class_attribute(attr_name: &AttributeName, extra_attributes: &[String]) -> (r: bool)
    ensures
        r == spec_is_class_attribute(*attr_name, extra_attributes@),
{
    let name = match attr_name {
        AttributeName::Identifier(name) => name,
        AttributeName::NamespacedName => {
            return false;
        },
    };
    if str_eq(name.as_str(), "class") || str_eq(name.as_str(), "className") {
        return true;
    }
    is_listed(extra_attributes, name.as_str())
}

/// The class context that `sort` (the `sort_tailwindcss` options, when
/// sorting targets the node) and `wrap` (whether wrapping targets it) give.
pub open spec fn context_for(sort: Option<SortTailwindcssOptions>, wrap: bool) -> Option<ClassContext> {
    if sort is None && !wrap {
        None
    } else {
        Some(
            ClassContext::spec_new(
                match sort {
                    Some(options) => Some(options.preserve_whitespace),
                    None => None,
                },
                wrap,
            ),
        )
    }
}

/// The class context of a JSX attribute targeted by `sort_tailwindcss`
/// and/or `wrap_class_names`.
pub open spec fn spec_class_attribute_context(attr_name: AttributeName, options: JsFormatOptions) -> Option<
    ClassContext,
> {
    context_for(
        match options.sort_tailwindcss {
            Some(opts) => if spec_is_class_attribute(attr_name, opts.attributes@) {
                Some(opts)
            } else {
                None
            },
            None => None,
        },
        match options.wrap_class_names {
            Some(opts) => spec_is_class_attribute(attr_name, opts.attributes@),
            None => false,
        },
    )
}

/// Builds the class context for a JSX attribute targeted by
/// `sort_tailwindcss` and/or `wrap_class_names`.
pub fn class_attribute_context(attr_name: &AttributeName, options: &JsFormatOptions) -> (r: Option<
    ClassContext,
>)
    ensures
        r == spec_class_attribute_context(*attr_name, *options),
{
    let sort = match &options.sort_tailwindcss {
        Some(opts) => if is_class_attribute(attr_name, opts.attributes.as_slice()) {
            Some(opts)
        } else {
            None
        },
        None => None,
    };
    let wrap = match &options.wrap_class_names {
        Some(opts) => is_class_attribute(attr_name, opts.attributes.as_slice()),
        None => false,
    };
    ClassContext::new(sort, wrap)
}

/// The identifier at the root of a callee, through calls and member accesses.
pub open spec fn root_identifier(callee: Callee) -> Option<Seq<char>>
    decreases callee,
{
    match callee {
        Callee::Call(inner) => root_identifier(*inner),
        Callee::StaticMember(object) => root_identifier(*object),
        Callee::ComputedMember(object) => root_identifier(*object),
        Callee::Identifier(name) => Some(name@),
        Callee::Other => None,
    }
}

/// How many calls and member accesses lie above the root of a callee.
pub open spec fn callee_depth(callee: Callee) -> nat
    decreases callee,
{
    match callee {
        Callee::Call(inner) => 1 + callee_depth(*inner),
        Callee::StaticMember(object) => 1 + callee_depth(*object),
        Callee::ComputedMember(object) => 1 + callee_depth(*object),
        _ => 0,
    }
}

/// A call of one of `functions`, possibly through member accesses and calls
/// (`clsx(...)`, `clsx.foo(...)`, `obj.clsx(...)`, `foo().clsx(...)`): the
/// root identifier is one of `functions`.
pub open spec fn spec_is_class_function_call(callee: Callee, functions: Seq<String>) -> bool {
    functions.len() > 0 && match root_identifier(callee) {
        Some(name) => listed(functions, name),
        None => false,
    }
}

/// Checks if a callee expression is a class function: traverses calls and
/// member accesses to the leading identifier, then checks if it is one of
/// `functions`.
pub fn is_class_function_call(callee: &Callee, functions: &[String]) -> (r: bool)
    ensures
        r == spec_is_class_function_call(*callee, functions@),
{
    if functions.len() == 0 {
        return false;
    }
    let mut node = callee;
    loop
        invariant
            functions@.len() > 0,
            root_identifier(*node) == root_identifier(*callee),
        decreases callee_depth(*node),
    {
        match node {
            Callee::Call(inner) => {
                node = inner;
            },
            Callee::StaticMember(object) => {
                node = object;
            },
            Callee::ComputedMember(object) => {
                node = object;
            },
            Callee::Identifier(name) => {
                return is_listed(functions, name.as_str());
            },
            Callee::Other => {
                return false;
            },
        }
    }
}

/// The class context of a call or tagged template targeted by
/// `sort_tailwindcss` and/or `wrap_class_names`.
pub open spec fn spec_class_function_context(callee: Callee, options: JsFormatOptions) -> Option<
    ClassContext,
> {
    context_for(
        match options.sort_tailwindcss {
            Some(opts) => if spec_is_class_function_call(callee, opts.functions@) {
                Some(opts)
            } else {
                None
            },
            None => None,
        },
        match options.wrap_class_names {
            Some(opts) => spec_is_class_function_call(callee, opts.functions@),
            None => false,
        },
    )
}

/// Builds the class context for a call expression or tagged template
/// targeted by `sort_tailwindcss` and/or `wrap_class_names`.
pub fn class_function_context(callee: &Callee, options: &JsFormatOptions) -> (r: Option<ClassContext>)
    ensures
        r == spec_class_function_context(*callee, *options),
{
    let sort = match &options.sort_tailwindcss {
        Some(opts) => if is_class_function_call(callee, opts.functions.as_slice()) {
            Some(opts)
        } else {
            None
        },
        None => None,
    };
    let wrap = match &options.wrap_class_names {
        Some(opts) => is_class_function_call(callee, opts.functions.as_slice()),
        None => false,
    };
    ClassContext::new(sort, wrap)
}

/// `ctx` with wrapping kept only in a class position: walking up from the
/// node at `span` through `ancestors`, every node up to the class attribute,
/// class call or class tag passes the value through unchanged (call
/// argument, conditional branch, logical or `+` operand, array element,
/// object value, `${}` of a template).
pub open spec fn spec_narrow_class_context(
    ctx: ClassContext,
    span: Span,
    ancestors: Seq<Ancestor>,
    options: JsFormatOptions,
) -> ClassContext
    decreases ancestors.len(),
{
    let off = ClassContext { wrap: false, ..ctx };
    if !ctx.wrap {
        ctx
    } else if ancestors.len() == 0 {
        off
    } else {
        let ancestor = ancestors[0];
        let rest = ancestors.drop_first();
        match ancestor.kind {
            AncestorKind::JSXAttribute { name } => if spec_class_attribute_context(name, options) is Some {
                ctx
            } else {
                off
            },
            AncestorKind::TaggedTemplateExpression { tag } => if spec_class_function_context(tag, options) is Some {
                ctx
            } else {
                off
            },
            AncestorKind::CallExpression { callee, callee_span } => if !callee_span.spec_contains_inclusive(
                span,
            ) && spec_class_function_context(callee, options) is Some {
                ctx
            } else {
                off
            },
            AncestorKind::ConditionalExpression { test_span } => if !test_span.spec_contains_inclusive(span) {
                spec_narrow_class_context(ctx, ancestor.span, rest, options)
            } else {
                off
            },
            AncestorKind::BinaryExpression { addition, .. } => if addition {
                spec_narrow_class_context(ctx, ancestor.span, rest, options)
            } else {
                off
            },
            AncestorKind::ObjectProperty { computed, key_span } => if !computed
                && !key_span.spec_contains_inclusive(span) {
                spec_narrow_class_context(ctx, ancestor.span, rest, options)
            } else {
                off
            },
            AncestorKind::JSXExpressionContainer | AncestorKind::ParenthesizedExpression
            | AncestorKind::LogicalExpression | AncestorKind::ArrayExpression
            | AncestorKind::ObjectExpression | AncestorKind::TemplateLiteral => spec_narrow_class_context(
                ctx,
                ancestor.span,
                rest,
                options,
            ),
            _ => off,
        }
    }
}

/// Returns `ctx` for a string or template at `span`, with wrapping turned off
/// unless it sits in a class position (see [`spec_narrow_class_context`]).
/// Anywhere else (a comparison, `in`, a computed key, a `new` argument, a
/// type, ...) the string is not a class list, and adding newlines would
/// change it.
pub fn narrow_class_context(
    ctx: ClassContext,
    span: Span,
    ancestors: &[Ancestor],
    options: &JsFormatOptions,
) -> (r: ClassContext)
    ensures
        r == spec_narrow_class_context(ctx, span, ancestors@, *options),
{
    if !ctx.wrap {
        return ctx;
    }
    let mut cur = span;
    let mut i: usize = 0;
    assert(ancestors@.skip(0) =~= ancestors@);
    while i < ancestors.len()
        invariant
            ctx.wrap,
            i <= ancestors.len(),
            spec_narrow_class_context(ctx, cur, ancestors@.skip(i as int), *options)
                == spec_narrow_class_context(ctx, span, ancestors@, *options),
        decreases ancestors.len() - i,
    {
        let ancestor = &ancestors[i];
        proof {
            assert(ancestors@.skip(i as int)[0] == *ancestor);
            assert(ancestors@.skip(i as int).drop_first() =~= ancestors@.skip(i + 1));
        }
        let passes_through = match &ancestor.kind {
            AncestorKind::JSXAttribute { name } => {
                return if class_attribute_context(name, options).is_some() {
                    ctx
                } else {
                    ctx.without_wrap()
                };
            },
            AncestorKind::TaggedTemplateExpression { tag } => {
                return if class_function_context(tag, options).is_some() {
                    ctx
                } else {
                    ctx.without_wrap()
                };
            },
            AncestorKind::CallExpression { callee, callee_span } => {
                return if !callee_span.contains_inclusive(cur) && class_function_context(
                    callee,
                    options,
                ).is_some() {
                    ctx
                } else {
                    ctx.without_wrap()
                };
            },
            AncestorKind::ConditionalExpression { test_span } => !test_span.contains_inclusive(cur),
            AncestorKind::BinaryExpression { addition, .. } => *addition,
            AncestorKind::ObjectProperty { computed, key_span } => !*computed
                && !key_span.contains_inclusive(cur),
            AncestorKind::JSXExpressionContainer | AncestorKind::ParenthesizedExpression
            | AncestorKind::LogicalExpression | AncestorKind::ArrayExpression
            | AncestorKind::ObjectExpression | AncestorKind::TemplateLiteral => true,
            _ => false,
        };
        if !passes_through {
            return ctx.without_wrap();
        }
        cur = ancestor.span;
        i += 1;
    }
    ctx.without_wrap()
}

// ============================================================================
// Whitespace Collapse Logic
// ============================================================================

/// Controls whether whitespace can be trimmed at string boundaries.
///
/// When `start` or `end` is `false`, a single space must be preserved
/// at that boundary to maintain proper class separation.
#[derive(Debug, Clone, Copy, PartialEq, Eq, Structural)]
pub struct CollapseWhitespace {
    /// `true` = can trim leading whitespace, `false` = preserve one space
    pub start: bool,
    /// `true` = can trim trailing whitespace, `false` = preserve one space
    pub end: bool,
}

impl CollapseWhitespace {
    /// Both boundaries may be trimmed.
    pub fn new() -> (r: Self)
        ensures
            r == (CollapseWhitespace { start: true, end: true }),
    {
        Self { start: true, end: true }
    }
}

/// The walk up a `+` concatenation: the string at `span` on the left of a `+`
/// keeps its trailing space, on the right its leading space; conditionals,
/// parentheses and TypeScript wrappers are transparent; the walk stops at
/// anything else, or once both spaces are kept.
pub open spec fn collapse_walk(c: CollapseWhitespace, span: Span, ancestors: Seq<Ancestor>) -> CollapseWhitespace
    decreases ancestors.len(),
{
    if ancestors.len() == 0 {
        c
    } else {
        let rest = ancestors.drop_first();
        match ancestors[0].kind {
            AncestorKind::BinaryExpression { addition, left_span, right_span } => if addition {
                let next = CollapseWhitespace {
                    end: if left_span.spec_contains_inclusive(span) {
                        false
                    } else {
                        c.end
                    },
                    start: if right_span.spec_contains_inclusive(span) {
                        false
                    } else {
                        c.start
                    },
                };
                if !next.start && !next.end {
                    next
                } else {
                    collapse_walk(next, span, rest)
                }
            } else {
                c
            },
            AncestorKind::ConditionalExpression { .. } | AncestorKind::ParenthesizedExpression
            | AncestorKind::TSAsExpression | AncestorKind::TSSatisfiesExpression
            | AncestorKind::TSNonNullExpression | AncestorKind::TSTypeAssertion => collapse_walk(
                c,
                span,
                rest,
            ),
            _ => c,
        }
    }
}

/// The innermost class context of `c`, if any.
pub open spec fn current_class_context<L>(c: ContextView<L>) -> Option<ClassContext> {
    if c.class_context_stack.len() > 0 {
        Some(c.class_context_stack.last())
    } else {
        None
    }
}

/// The whitespace collapse rules for a string or template literal at `span`:
/// 1. in a template expression (`${...}`), a quasi before that does not end
///    with whitespace keeps the leading space, and a quasi after that does
///    not start with whitespace keeps the trailing space;
/// 2. in a `+` concatenation, see [`collapse_walk`].
pub open spec fn spec_can_collapse_whitespace(
    class_context: Option<ClassContext>,
    span: Span,
    ancestors: Seq<Ancestor>,
) -> CollapseWhitespace {
    let c = match class_context {
        Some(ctx) => if ctx.in_template_expression {
            CollapseWhitespace {
                start: ctx.quasi_before_has_trailing_ws,
                end: ctx.quasi_after_has_leading_ws,
            }
        } else {
            CollapseWhitespace { start: true, end: true }
        },
        None => CollapseWhitespace { start: true, end: true },
    };
    collapse_walk(c, span, ancestors)
}

/// Determines whitespace collapse rules for a string/template literal based
/// on context (see [`spec_can_collapse_whitespace`]).
pub fn can_collapse_whitespace<'ast, L: Copy>(
    span: Span,
    ancestors: &[Ancestor],
    f: &JsFormatter<'ast, L>,
) -> (r: CollapseWhitespace)
    ensures
        r == spec_can_collapse_whitespace(current_class_context(f@.context), span, ancestors@),
{
    let mut collapse = CollapseWhitespace::new();

    // 1. Check template expression context
    if let Some(ctx) = f.context().class_context() {
        if ctx.in_template_expression {
            if !ctx.quasi_before_has_trailing_ws {
                collapse.start = false;
            }
            if !ctx.quasi_after_has_leading_ws {
                collapse.end = false;
            }
        }
    }
    // 2. Check binary concat context (walk parent chain)
    let mut i: usize = 0;
    assert(ancestors@.skip(0) =~= ancestors@);
    while i < ancestors.len()
        invariant
            i <= ancestors.len(),
            collapse_walk(collapse, span, ancestors@.skip(i as int)) == spec_can_collapse_whitespace(
                current_class_context(f@.context),
                span,
                ancestors@,
            ),
        decreases ancestors.len() - i,
    {
        let ancestor = &ancestors[i];
        proof {
            assert(ancestors@.skip(i as int)[0] == *ancestor);
            assert(ancestors@.skip(i as int).drop_first() =~= ancestors@.skip(i + 1));
        }
        match &ancestor.kind {
            AncestorKind::BinaryExpression { addition, left_span, right_span } => {
                if !*addition {
                    return collapse;
                }
                // Left operand needs trailing space for separation from `+ right`
                if left_span.contains_inclusive(span) {
                    collapse.end = false;
                }
                // Right operand needs leading space for separation from `left +`
                if right_span.contains_inclusive(span) {
                    collapse.start = false;
                }
                // Both flags are one-way latches; no need to continue once both are set.
                if !collapse.start && !collapse.end {
                    return collapse;
                }
            },
            // Transparent nodes: skip through to find outer `+`
            AncestorKind::ConditionalExpression { .. } | AncestorKind::ParenthesizedExpression
            | AncestorKind::TSAsExpression | AncestorKind::TSSatisfiesExpression
            | AncestorKind::TSNonNullExpression | AncestorKind::TSTypeAssertion => {},
            _ => {
                return collapse;
            },
        }
        i += 1;
    }
    collapse
}

/// Narrowing only ever turns wrapping off: the result is the context itself
/// or the context without wrapping, and a context that does not wrap is
/// returned unchanged.
pub proof fn lemma_narrow_only_turns_off_wrap(
    ctx: ClassContext,
    span: Span,
    ancestors: Seq<Ancestor>,
    options: JsFormatOptions,
)
    ensures
        ({
            let r = spec_narrow_class_context(ctx, span, ancestors, options);
            &&& r == ctx || r == (ClassContext { wrap: false, ..ctx })
            &&& !ctx.wrap ==> r == ctx
            &&& r.wrap ==> ctx.wrap
        }),
    decreases ancestors.len(),
{
    if ctx.wrap && ancestors.len() > 0 {
        lemma_narrow_only_turns_off_wrap(ctx, ancestors[0].span, ancestors.drop_first(), options);
    }
}

/// The two collapse flags are one-way latches: walking up a concatenation
/// only ever turns them off.
pub proof fn lemma_collapse_flags_latch(c: CollapseWhitespace, span: Span, ancestors: Seq<Ancestor>)
    ensures
        collapse_walk(c, span, ancestors).start ==> c.start,
        collapse_walk(c, span, ancestors).end ==> c.end,
    decreases ancestors.len(),
{
    if ancestors.len() > 0 {
        let rest = ancestors.drop_first();
        match ancestors[0].kind {
            AncestorKind::BinaryExpression { addition, left_span, right_span } => {
                let next = CollapseWhitespace {
                    end: if left_span.spec_contains_inclusive(span) {
                        false
                    } else {
                        c.end
                    },
                    start: if right_span.spec_contains_inclusive(span) {
                        false
                    } else {
                        c.start
                    },
                };
                lemma_collapse_flags_latch(next, span, rest);
            },
            _ => {
                lemma_collapse_flags_latch(c, span, rest);
            },
        }
    }
}


/// A conditional branch, parentheses and the TypeScript wrappers (`as`,
/// `satisfies`, `!`, `<T>`) are transparent to the walk up a concatenation:
/// a string under one of them is separated from its `+` neighbours as if it
/// stood there itself.
pub proof fn lemma_collapse_transparent(
    c: CollapseWhitespace,
    span: Span,
    a: Ancestor,
    rest: Seq<Ancestor>,
)
    requires
        a.kind is ConditionalExpression || a.kind is ParenthesizedExpression || a.kind is TSAsExpression
            || a.kind is TSSatisfiesExpression || a.kind is TSNonNullExpression
            || a.kind is TSTypeAssertion,
    ensures
        collapse_walk(c, span, seq![a] + rest) == collapse_walk(c, span, rest),
{
    assert((seq![a] + rest)[0] == a);
    assert((seq![a] + rest).drop_first() =~= rest);
}

/// A string that is (through conditional branches, parentheses and
/// TypeScript wrappers) the right operand of a `+` keeps its leading space,
/// and the left operand its trailing space, so that it stays apart from the
/// class on the other side of the `+`.
pub proof fn lemma_collapse_keeps_operand_space(
    c: CollapseWhitespace,
    span: Span,
    through: Seq<Ancestor>,
    plus: Ancestor,
    rest: Seq<Ancestor>,
)
    requires
        forall|i: int|
            0 <= i < through.len() ==> {
                let k = #[trigger] through[i].kind;
                k is ConditionalExpression || k is ParenthesizedExpression || k is TSAsExpression
                    || k is TSSatisfiesExpression || k is TSNonNullExpression || k is TSTypeAssertion
            },
        plus.kind matches AncestorKind::BinaryExpression { addition, .. } && addition,
    ensures
        ({
            let r = collapse_walk(c, span, through + seq![plus] + rest);
            &&& (plus.kind matches AncestorKind::BinaryExpression { right_span, .. }
                && right_span.spec_contains_inclusive(span)) ==> !r.start
            &&& (plus.kind matches AncestorKind::BinaryExpression { left_span, .. }
                && left_span.spec_contains_inclusive(span)) ==> !r.end
        }),
    decreases through.len(),
{
    if through.len() == 0 {
        assert(through + seq![plus] + rest =~= seq![plus] + rest);
        assert((seq![plus] + rest)[0] == plus);
        assert((seq![plus] + rest).drop_first() =~= rest);
        match plus.kind {
            AncestorKind::BinaryExpression { addition, left_span, right_span } => {
                let next = CollapseWhitespace {
                    end: if left_span.spec_contains_inclusive(span) {
                        false
                    } else {
                        c.end
                    },
                    start: if right_span.spec_contains_inclusive(span) {
                        false
                    } else {
                        c.start
                    },
                };
                lemma_collapse_flags_latch(next, span, rest);
            },
            _ => {},
        }
    } else {
        let a = through[0];
        let tail = through.drop_first();
        assert(through + seq![plus] + rest =~= seq![a] + (tail + seq![plus] + rest));
        lemma_collapse_transparent(c, span, a, tail + seq![plus] + rest);
        assert forall|i: int| 0 <= i < tail.len() implies {
            let k = #[trigger] tail[i].kind;
            k is ConditionalExpression || k is ParenthesizedExpression || k is TSAsExpression
                || k is TSSatisfiesExpression || k is TSNonNullExpression || k is TSTypeAssertion
        } by {
            assert(tail[i] == through[i + 1]);
        }
        lemma_collapse_keeps_operand_space(c, span, tail, plus, rest);
    }
}

/// A wrapping context passes unchanged through an expression container,
/// parentheses, a logical operand, an array element, an object and a
/// template's `${}`: the string is in a class position exactly when that
/// node is.
pub proof fn lemma_narrow_passes_through(
    ctx: ClassContext,
    span: Span,
    a: Ancestor,
    rest: Seq<Ancestor>,
    options: JsFormatOptions,
)
    requires
        a.kind is JSXExpressionContainer || a.kind is ParenthesizedExpression || a.kind is LogicalExpression
            || a.kind is ArrayExpression || a.kind is ObjectExpression || a.kind is TemplateLiteral,
    ensures
        spec_narrow_class_context(ctx, span, seq![a] + rest, options) == spec_narrow_class_context(
            ctx,
            a.span,
            rest,
            options,
        ),
{
    assert((seq![a] + rest)[0] == a);
    assert((seq![a] + rest).drop_first() =~= rest);
}

/// A string reached from a class function's argument list through
/// pass-through nodes (see [`lemma_narrow_passes_through`]) is a class
/// list: its context keeps wrapping. `through` lists those nodes from the
/// string outward; the call is `call`.
pub proof fn lemma_narrow_class_call_argument(
    ctx: ClassContext,
    span: Span,
    through: Seq<Ancestor>,
    call: Ancestor,
    rest: Seq<Ancestor>,
    options: JsFormatOptions,
)
    requires
        forall|i: int|
            0 <= i < through.len() ==> {
                let k = #[trigger] through[i].kind;
                k is JSXExpressionContainer || k is ParenthesizedExpression || k is LogicalExpression
                    || k is ArrayExpression || k is ObjectExpression || k is TemplateLiteral
            },
        call.kind matches AncestorKind::CallExpression { callee, callee_span }
            && spec_class_function_context(callee, options) is Some
            && !callee_span.spec_contains_inclusive(
            if through.len() == 0 {
                span
            } else {
                through.last().span
            },
        ),
    ensures
        spec_narrow_class_context(ctx, span, through + seq![call] + rest, options) == ctx,
    decreases through.len(),
{
    if through.len() == 0 {
        assert(through + seq![call] + rest =~= seq![call] + rest);
        assert((seq![call] + rest)[0] == call);
    } else {
        let a = through[0];
        let tail = through.drop_first();
        assert(through + seq![call] + rest =~= seq![a] + (tail + seq![call] + rest));
        lemma_narrow_passes_through(ctx, span, a, tail + seq![call] + rest, options);
        assert forall|i: int| 0 <= i < tail.len() implies {
            let k = #[trigger] tail[i].kind;
            k is JSXExpressionContainer || k is ParenthesizedExpression || k is LogicalExpression
                || k is ArrayExpression || k is ObjectExpression || k is TemplateLiteral
        } by {
            assert(tail[i] == through[i + 1]);
        }
        if tail.len() > 0 {
            assert(tail.last() == through.last());
        }
        lemma_narrow_class_call_argument(ctx, a.span, tail, call, rest, options);
    }
}

} // verus!
