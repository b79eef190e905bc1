//! The class-context bookkeeping around formatting a call expression.
//!
//! A call of a class function (`clsx(...)`, `cn(...)`, `tw(...)`) opens a
//! class context for its arguments. A call of any other function inside a
//! class context disables class handling for its arguments, so that strings
//! there (`classNames("a", x.includes("\n") ? "b" : "c")`) are left alone;
//! leaving the call restores the context as it was.
//!
//! Formatting the call goes: [`enter_call_expression`], then (unless the
//! call is printed as part of a member chain) [`begin_call_arguments`],
//! the arguments, [`end_call_arguments`]; then [`exit_call_expression`].

use vstd::prelude::*;

use crate::ast::Callee;
use crate::class_context::ClassContext;
use crate::context::{ContextView, JsFormatContext};
use crate::tailwindcss::{class_function_context, spec_class_function_context};

verus! {

/// What entering a call expression records, to be undone when leaving it.
#[derive(Clone, Copy, Debug, PartialEq, Eq, Structural)]
pub struct CallClassState {
    /// The class context that the call opens for its arguments, when it is a
    /// class function call.
    pub class_call_ctx: Option<ClassContext>,
    /// The `disabled` flag of the enclosing class context before a non-class
    /// call disabled it.
    pub was_disabled: Option<bool>,
}

/// `c` with the innermost class context's `disabled` flag set to `disabled`
/// (unchanged outside any class context).
pub open spec fn set_top_disabled<L>(c: ContextView<L>, disabled: bool) -> ContextView<L> {
    let stack = c.class_context_stack;
    if stack.len() > 0 {
        ContextView {
            class_context_stack: stack.update(
                stack.len() - 1,
                ClassContext { disabled, ..stack.last() },
            ),
            ..c
        }
    } else {
        c
    }
}

/// Entering a call expression whose callee is `callee`: the class context
/// the call opens (a class function call, when a class feature is on), and,
/// for any other call inside a class context, that context disabled.
pub open spec fn spec_enter_call<L>(c: ContextView<L>, callee: Callee) -> (ContextView<L>, CallClassState) {
    let class_call_ctx = if c.has_class_features {
        spec_class_function_context(callee, c.options)
    } else {
        None
    };
    if class_call_ctx is None && c.class_context_stack.len() > 0 {
        (
            set_top_disabled(c, true),
            CallClassState {
                class_call_ctx,
                was_disabled: Some(c.class_context_stack.last().disabled),
            },
        )
    } else {
        (c, CallClassState { class_call_ctx, was_disabled: None })
    }
}

/// Before the arguments: a class call pushes its class context.
pub open spec fn spec_begin_arguments<L>(c: ContextView<L>, state: CallClassState) -> ContextView<L> {
    match state.class_call_ctx {
        Some(ctx) => ContextView { class_context_stack: c.class_context_stack.push(ctx), ..c },
        None => c,
    }
}

/// After the arguments: a class call pops its class context.
pub open spec fn spec_end_arguments<L>(c: ContextView<L>, state: CallClassState) -> ContextView<L> {
    match state.class_call_ctx {
        Some(_) => ContextView {
            class_context_stack: if c.class_context_stack.len() > 0 {
                c.class_context_stack.drop_last()
            } else {
                c.class_context_stack
            },
            ..c
        },
        None => c,
    }
}

/// Leaving the call: the disabled flag that entering it changed is restored.
pub open spec fn spec_exit_call<L>(c: ContextView<L>, state: CallClassState) -> ContextView<L> {
    match state.was_disabled {
        Some(was) => set_top_disabled(c, was),
        None => c,
    }
}

/// Enters a call expression whose callee is `callee` (see [`spec_enter_call`]).
pub fn enter_call_expression<'ast, L: Copy>(context: &mut JsFormatContext<'ast, L>, callee: &Callee) -> (r:
    CallClassState)
    ensures
        (final(context)@, r) == spec_enter_call(old(context)@, *callee),
{
    // Check if this is a class-context function call (e.g., clsx, cn, tw)
    // for Tailwind sorting and/or class wrapping
    let class_call_ctx = if context.has_class_features() {
        class_function_context(callee, context.options())
    } else {
        None
    };

    // For nested non-class calls inside a class context, disable class handling
    // to prevent sorting strings inside the nested call's arguments.
    let was_disabled = if class_call_ctx.is_none() {
        match context.class_context_mut() {
            Some(ctx) => {
                let was = ctx.disabled;
                ctx.disabled = true;
                Some(was)
            },
            None => None,
        }
    } else {
        None
    };
    CallClassState { class_call_ctx, was_disabled }
}

/// Before formatting the arguments of the call (see [`spec_begin_arguments`]).
pub fn begin_call_arguments<'ast, L: Copy>(context: &mut JsFormatContext<'ast, L>, state: &CallClassState)
    ensures
        final(context)@ == spec_begin_arguments(old(context)@, *state),
{
    // If this IS a class-context call, push the class context
    // before formatting arguments
    if let Some(ctx) = state.class_call_ctx {
        context.push_class_context(ctx);
    }
}

/// After formatting the arguments of the call (see [`spec_end_arguments`]).
pub fn end_call_arguments<'ast, L: Copy>(context: &mut JsFormatContext<'ast, L>, state: &CallClassState)
    ensures
        final(context)@ == spec_end_arguments(old(context)@, *state),
{
    // Pop class context after formatting
    if state.class_call_ctx.is_some() {
        context.pop_class_context();
    }
}

/// Leaves the call (see [`spec_exit_call`]).
pub fn exit_call_expression<'ast, L: Copy>(context: &mut JsFormatContext<'ast, L>, state: CallClassState)
    ensures
        final(context)@ == spec_exit_call(old(context)@, state),
{
    // Restore the previous disabled state
    if let Some(was) = state.was_disabled {
        match context.class_context_mut() {
            Some(ctx) => {
                ctx.disabled = was;
            },
            None => {},
        }
    }
}

/// Formatting a call leaves the class context stack as it found it: after
/// entering the call and beginning its arguments, formatting the arguments
/// may change anything but the class context stack (collect classes, ...);
/// ending the arguments and leaving the call then restore the stack exactly.
pub proof fn lemma_call_restores_class_contexts<L>(c: ContextView<L>, callee: Callee, during: ContextView<L>)
    requires
        during.class_context_stack == spec_begin_arguments(
            spec_enter_call(c, callee).0,
            spec_enter_call(c, callee).1,
        ).class_context_stack,
    ensures
        ({
            let state = spec_enter_call(c, callee).1;
            spec_exit_call(spec_end_arguments(during, state), state).class_context_stack
                == c.class_context_stack
        }),
{
    let (c1, state) = spec_enter_call(c, callee);
    let stack = c.class_context_stack;
    if state.class_call_ctx is Some {
        assert(during.class_context_stack.drop_last() =~= stack);
    } else if stack.len() > 0 {
        assert(stack.update(stack.len() - 1, ClassContext { disabled: true, ..stack.last() }).update(
            stack.len() - 1,
            ClassContext { disabled: stack.last().disabled, ..stack.last() },
        ) =~= stack);
    }
}

/// Inside the arguments of a call that is not a class function call, within
/// a class context, that context is disabled; inside the arguments of a class
/// function call, the call's own (enabled) class context is the current one.
pub proof fn lemma_call_arguments_context<L>(c: ContextView<L>, callee: Callee)
    ensures
        ({
            let (c1, state) = spec_enter_call(c, callee);
            let inside = spec_begin_arguments(c1, state);
            &&& state.class_call_ctx is None && c.class_context_stack.len() > 0 ==> inside.class_context_stack.last().disabled
            &&& state.class_call_ctx matches Some(ctx) ==> inside.class_context_stack.last() == ctx && !ctx.disabled
        }),
{
    let (c1, state) = spec_enter_call(c, callee);
    if let Some(ctx) = state.class_call_ctx {
        assert(!ctx.disabled);
    }
}

} // verus!
