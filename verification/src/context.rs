//! The state that formatting a program carries: options, source, and the
//! class-name bookkeeping (collected class strings, the class context stack,
//! and which collected strings are unsorted or wrap).

use vstd::prelude::*;

use oxc_ast::Comment;
use oxc_span::SourceType;
use rustc_hash::FxHashMap;

use crate::class_context::ClassContext;
use crate::format_element::{clone_element, Elem, FormatElement};
use crate::memo::{memo_get, memo_insert, memo_new, SliceKey};
use crate::options::JsFormatOptions;
use crate::span::Span;
use crate::strings::views;

verus! {

#[verifier::external_type_specification]
#[verifier::external_body]
pub struct ExSourceType(oxc_span::SourceType);

#[verifier::external_type_specification]
#[verifier::external_body]
pub struct ExComment(oxc_ast::Comment);

/// The mathematical value of a [`JsFormatContext`].
pub struct ContextView<L> {
    pub options: JsFormatOptions,
    pub source_text: Seq<char>,
    pub source_type: SourceType,
    pub comments: Seq<Comment>,
    /// The cached elements, by the key of the node's span ([`Span::spec_key`]).
    pub cached_elements: Map<SliceKey, Elem>,
    pub arrow_assignment_layout: Option<(Span, L)>,
    pub quote_needed_stack: Seq<bool>,
    pub tailwind_classes: Seq<Seq<char>>,
    pub class_context_stack: Seq<ClassContext>,
    pub unsorted_class_indices: Seq<usize>,
    pub wrapped_class_indices: Seq<usize>,
    pub has_class_features: bool,
}

/// Every recorded unsorted or wrapping index refers to a collected class.
pub open spec fn class_indices_valid<L>(c: ContextView<L>) -> bool {
    &&& forall|k: int|
        0 <= k < c.unsorted_class_indices.len() ==> #[trigger] c.unsorted_class_indices[k]
            < c.tailwind_classes.len()
    &&& forall|k: int|
        0 <= k < c.wrapped_class_indices.len() ==> #[trigger] c.wrapped_class_indices[k]
            < c.tailwind_classes.len()
}

/// `c` after handing `layout` to the arrow expression at `span`.
pub open spec fn with_arrow_layout<L>(c: ContextView<L>, span: Span, layout: L) -> ContextView<L> {
    ContextView { arrow_assignment_layout: Some((span, layout)), ..c }
}

/// Taking the layout handed to the arrow expression at `span`: the layout
/// and `c` without it when it was handed to that span, else nothing and `c`.
pub open spec fn taken_arrow_layout<L>(c: ContextView<L>, span: Span) -> (ContextView<L>, Option<L>) {
    match c.arrow_assignment_layout {
        Some((key, layout)) => if key == span {
            (ContextView { arrow_assignment_layout: None, ..c }, Some(layout))
        } else {
            (c, None)
        },
        None => (c, None),
    }
}

/// `c` after entering a class context.
pub open spec fn pushed_class_context<L>(c: ContextView<L>, entry: ClassContext) -> ContextView<L> {
    ContextView { class_context_stack: c.class_context_stack.push(entry), ..c }
}

/// `c` after leaving a class context (an empty stack stays empty).
pub open spec fn popped_class_context<L>(c: ContextView<L>) -> ContextView<L> {
    ContextView {
        class_context_stack: if c.class_context_stack.len() > 0 {
            c.class_context_stack.drop_last()
        } else {
            c.class_context_stack
        },
        ..c
    }
}

/// Context object storing data relevant when formatting a program. `L` is
/// the layout that an assignment-like hands to the arrow function on its
/// right-hand side.
pub struct JsFormatContext<'ast, L> {
    options: JsFormatOptions,
    source_text: &'ast str,
    source_type: SourceType,
    comments: &'ast [Comment],
    cached_elements: FxHashMap<SliceKey, FormatElement>,
    /// One-shot handoff of the assignment layout to the arrow expression on
    /// the right-hand side of an assignment-like, keyed by the arrow's span so
    /// no other node can consume it.
    arrow_assignment_layout: Option<(Span, L)>,
    /// Whether quotes are needed for properties in each enclosing object-like
    /// node (when keys are quoted consistently).
    quote_needed_stack: Vec<bool>,
    /// Collected class strings; sorted by the host and replaced during printing.
    tailwind_classes: Vec<String>,
    /// The class contexts we are inside of (JSX attributes, calls, `${}`).
    class_context_stack: Vec<ClassContext>,
    /// Indices into `tailwind_classes` that are excluded from sorting,
    /// because only `wrap_class_names` targets their context.
    unsorted_class_indices: Vec<usize>,
    /// Indices into `tailwind_classes` whose marker wraps to the print width.
    wrapped_class_indices: Vec<usize>,
    /// Whether `sort_tailwindcss` or `wrap_class_names` is configured.
    has_class_features: bool,
}

impl<'ast, L: Copy> View for JsFormatContext<'ast, L> {
    type V = ContextView<L>;

    closed spec fn view(&self) -> ContextView<L> {
        ContextView {
            options: self.options,
            source_text: self.source_text@,
            source_type: self.source_type,
            comments: self.comments@,
            cached_elements: self.cached_elements@.map_values(|e: FormatElement| e@),
            arrow_assignment_layout: self.arrow_assignment_layout,
            quote_needed_stack: self.quote_needed_stack@,
            tailwind_classes: views(self.tailwind_classes@),
            class_context_stack: self.class_context_stack@,
            unsorted_class_indices: self.unsorted_class_indices@,
            wrapped_class_indices: self.wrapped_class_indices@,
            has_class_features: self.has_class_features,
        }
    }
}

impl<'ast, L: Copy> JsFormatContext<'ast, L> {
    /// A context for formatting `source_text` with `options`, with nothing
    /// collected yet.
    pub fn new(
        source_text: &'ast str,
        source_type: SourceType,
        comments: &'ast [Comment],
        options: JsFormatOptions,
    ) -> (r: Self)
        ensures
            r@ == (ContextView::<L> {
                options,
                source_text: source_text@,
                source_type,
                comments: comments@,
                cached_elements: Map::empty(),
                arrow_assignment_layout: None,
                quote_needed_stack: seq![],
                tailwind_classes: seq![],
                class_context_stack: seq![],
                unsorted_class_indices: seq![],
                wrapped_class_indices: seq![],
                has_class_features: options.sort_tailwindcss is Some
                    || options.wrap_class_names is Some,
            }),
    {
        let has_class_features = options.sort_tailwindcss.is_some()
            || options.wrap_class_names.is_some();
        let r = JsFormatContext {
            options,
            source_text,
            source_type,
            comments,
            cached_elements: memo_new(),
            arrow_assignment_layout: None,
            quote_needed_stack: Vec::new(),
            tailwind_classes: Vec::new(),
            class_context_stack: Vec::new(),
            unsorted_class_indices: Vec::new(),
            wrapped_class_indices: Vec::new(),
            has_class_features,
        };
        proof {
            assert(r.cached_elements@.map_values(|e: FormatElement| e@) =~= Map::<SliceKey, Elem>::empty());
            assert(views(r.tailwind_classes@) =~= Seq::<Seq<char>>::empty());
        }
        r
    }

    /// The options.
    pub fn options(&self) -> (r: &JsFormatOptions)
        ensures
            *r == self@.options,
    {
        &self.options
    }

    /// Returns the program's comments.
    pub fn comments(&self) -> (r: &'ast [Comment])
        ensures
            r@ == self@.comments,
    {
        self.comments
    }

    /// Returns the program's comments, to replace them.
    pub fn comments_mut(&mut self) -> (r: &mut &'ast [Comment])
        ensures
            (*r)@ == old(self)@.comments,
            final(self)@ == (ContextView { comments: (*final(r))@, ..old(self)@ }),
    {
        &mut self.comments
    }

    /// Returns the source text.
    pub fn source_text(&self) -> (r: &'ast str)
        ensures
            r@ == self@.source_text,
    {
        self.source_text
    }

    /// Returns the source code (the source text).
    pub fn source_code(&self) -> (r: &'ast str)
        ensures
            r@ == self@.source_text,
    {
        self.source_text
    }

    /// Returns the source type.
    pub fn source_type(&self) -> (r: SourceType)
        ensures
            r == self@.source_type,
    {
        self.source_type
    }

    /// The collected class string at `idx`, if any.
    pub fn get_tailwind_class(&self, idx: usize) -> (r: Option<&String>)
        ensures
            idx < self@.tailwind_classes.len() ==> r is Some && r.unwrap()@
                == self@.tailwind_classes[idx as int],
            idx >= self@.tailwind_classes.len() ==> r is None,
    {
        if idx < self.tailwind_classes.len() {
            Some(&self.tailwind_classes[idx])
        } else {
            None
        }
    }

    /// Returns the cached formatted element for the node at `key`.
    pub fn get_cached_element(&self, key: Span) -> (r: Option<FormatElement>)
        ensures
            self@.cached_elements.contains_key(key.spec_key()) ==> r is Some && r.unwrap()@
                == self@.cached_elements[key.spec_key()],
            !self@.cached_elements.contains_key(key.spec_key()) ==> r is None,
    {
        match memo_get(&self.cached_elements, key.key()) {
            Some(element) => Some(clone_element(element)),
            None => None,
        }
    }

    /// Caches the formatted element for the node at `key`.
    pub fn cache_element(&mut self, key: Span, formatted: FormatElement)
        ensures
            final(self)@ == (ContextView {
                cached_elements: old(self)@.cached_elements.insert(key.spec_key(), formatted@),
                ..old(self)@
            }),
    {
        let ghost v = formatted@;
        memo_insert(&mut self.cached_elements, key.key(), formatted);
        proof {
            assert(self.cached_elements@.map_values(|e: FormatElement| e@) =~= old(
                self,
            ).cached_elements@.map_values(|e: FormatElement| e@).insert(key.spec_key(), v));
        }
    }

    /// Hands `layout` to the arrow expression at `span`; a previous layout
    /// must have been taken or cleared.
    pub fn set_arrow_assignment_layout(&mut self, span: Span, layout: L)
        requires
            old(self)@.arrow_assignment_layout is None,
        ensures
            final(self)@ == with_arrow_layout(old(self)@, span, layout),
    {
        self.arrow_assignment_layout = Some((span, layout));
    }

    /// Takes the layout handed to the arrow expression at `span`; a layout
    /// handed to another span stays.
    pub fn take_arrow_assignment_layout(&mut self, span: Span) -> (r: Option<L>)
        ensures
            (final(self)@, r) == taken_arrow_layout(old(self)@, span),
    {
        match self.arrow_assignment_layout {
            Some((key, layout)) => {
                if key == span {
                    self.arrow_assignment_layout = None;
                    Some(layout)
                } else {
                    None
                }
            },
            None => None,
        }
    }

    /// Clears a layout left behind when the arrow was printed without
    /// taking it.
    pub fn clear_arrow_assignment_layout(&mut self)
        ensures
            final(self)@ == (ContextView { arrow_assignment_layout: None, ..old(self)@ }),
    {
        self.arrow_assignment_layout = None;
    }

    /// Pushes a new quote needed state onto the stack (keys are quoted
    /// consistently).
    pub fn push_quote_needed(&mut self, needed: bool)
        requires
            old(self)@.options.quote_properties == crate::options::QuoteProperties::Consistent,
        ensures
            final(self)@ == (ContextView {
                quote_needed_stack: old(self)@.quote_needed_stack.push(needed),
                ..old(self)@
            }),
    {
        self.quote_needed_stack.push(needed);
    }

    /// Pops the top quote needed state from the stack (keys are quoted
    /// consistently); an empty stack stays empty.
    pub fn pop_quote_needed(&mut self)
        requires
            old(self)@.options.quote_properties == crate::options::QuoteProperties::Consistent,
        ensures
            final(self)@ == (ContextView {
                quote_needed_stack: if old(self)@.quote_needed_stack.len() > 0 {
                    old(self)@.quote_needed_stack.drop_last()
                } else {
                    old(self)@.quote_needed_stack
                },
                ..old(self)@
            }),
    {
        self.quote_needed_stack.pop();
    }

    /// Whether the innermost object-like node needs quoted keys (`false`
    /// outside any).
    pub fn is_quote_needed(&self) -> (r: bool)
        ensures
            r == (self@.quote_needed_stack.len() > 0 && self@.quote_needed_stack.last()),
    {
        let n = self.quote_needed_stack.len();
        n > 0 && self.quote_needed_stack[n - 1]
    }

    /// Adds a class string found in a class context. Returns the index where
    /// the class was stored.
    pub fn add_tailwind_class(&mut self, class: String) -> (r: usize)
        requires
            old(self)@.tailwind_classes.len() < usize::MAX,
        ensures
            r == old(self)@.tailwind_classes.len(),
            final(self)@ == (ContextView {
                tailwind_classes: old(self)@.tailwind_classes.push(class@),
                ..old(self)@
            }),
    {
        let index = self.tailwind_classes.len();
        let ghost c = class@;
        self.tailwind_classes.push(class);
        proof {
            assert(views(self.tailwind_classes@) =~= views(old(self).tailwind_classes@).push(c));
        }
        index
    }

    /// Adds a class string for a host that merges its classes into this
    /// context's index space ([`Self::add_tailwind_class`]).
    pub fn add_class(&mut self, class: String) -> (r: usize)
        requires
            old(self)@.tailwind_classes.len() < usize::MAX,
        ensures
            r == old(self)@.tailwind_classes.len(),
            final(self)@ == (ContextView {
                tailwind_classes: old(self)@.tailwind_classes.push(class@),
                ..old(self)@
            }),
    {
        self.add_tailwind_class(class)
    }

    /// Adds a class string that must not be sorted (a `wrap_class_names`-only
    /// context). Returns the index where the class was stored.
    pub fn add_unsorted_class(&mut self, class: String) -> (r: usize)
        requires
            old(self)@.tailwind_classes.len() < usize::MAX,
        ensures
            r == old(self)@.tailwind_classes.len(),
            final(self)@ == (ContextView {
                tailwind_classes: old(self)@.tailwind_classes.push(class@),
                unsorted_class_indices: old(self)@.unsorted_class_indices.push(r),
                ..old(self)@
            }),
    {
        let index = self.add_tailwind_class(class);
        self.unsorted_class_indices.push(index);
        index
    }

    /// Takes all collected class strings, clearing the internal storage.
    pub fn take_tailwind_classes(&mut self) -> (r: Vec<String>)
        ensures
            views(r@) == old(self)@.tailwind_classes,
            final(self)@ == (ContextView { tailwind_classes: seq![], ..old(self)@ }),
    {
        let mut taken: Vec<String> = Vec::new();
        std::mem::swap(&mut taken, &mut self.tailwind_classes);
        proof {
            assert(views(self.tailwind_classes@) =~= Seq::<Seq<char>>::empty());
        }
        taken
    }

    /// Takes the indices of classes added with [`Self::add_unsorted_class`].
    pub fn take_unsorted_class_indices(&mut self) -> (r: Vec<usize>)
        ensures
            r@ == old(self)@.unsorted_class_indices,
            final(self)@ == (ContextView { unsorted_class_indices: seq![], ..old(self)@ }),
    {
        let mut taken: Vec<usize> = Vec::new();
        std::mem::swap(&mut taken, &mut self.unsorted_class_indices);
        proof {
            assert(self.unsorted_class_indices@ =~= Seq::<usize>::empty());
        }
        taken
    }

    /// Sets the collected class strings.
    pub fn set_tailwind_classes(&mut self, classes: Vec<String>)
        ensures
            final(self)@ == (ContextView { tailwind_classes: views(classes@), ..old(self)@ }),
    {
        self.tailwind_classes = classes;
    }

    /// Pushes a class context entry: entering a class attribute or call.
    pub fn push_class_context(&mut self, entry: ClassContext)
        ensures
            final(self)@ == pushed_class_context(old(self)@, entry),
    {
        self.class_context_stack.push(entry);
    }

    /// Pops a class context entry: leaving a class attribute or call. An
    /// empty stack stays empty.
    pub fn pop_class_context(&mut self)
        ensures
            final(self)@ == popped_class_context(old(self)@),
    {
        self.class_context_stack.pop();
    }

    /// The current class context, if we are inside one.
    pub fn class_context(&self) -> (r: Option<&ClassContext>)
        ensures
            self@.class_context_stack.len() == 0 ==> r is None,
            self@.class_context_stack.len() > 0 ==> r is Some && *r.unwrap()
                == self@.class_context_stack.last(),
    {
        let n = self.class_context_stack.len();
        if n == 0 {
            None
        } else {
            Some(&self.class_context_stack[n - 1])
        }
    }

    /// The current class context, if we are inside one, to change in place.
    pub fn class_context_mut(&mut self) -> (r: Option<&mut ClassContext>)
        ensures
            old(self)@.class_context_stack.len() == 0 ==> r is None && final(self)@ == old(
                self,
            )@,
            old(self)@.class_context_stack.len() > 0 ==> {
                let stack = old(self)@.class_context_stack;
                &&& r is Some
                &&& *r.unwrap() == stack.last()
                &&& final(self)@ == (ContextView {
                    class_context_stack: stack.update(stack.len() - 1, *final(r.unwrap())),
                    ..old(self)@
                })
            },
    {
        if self.class_context_stack.len() == 0 {
            return None;
        }
        self.class_context_stack.last_mut()
    }

    /// Whether any class feature (`sort_tailwindcss`, `wrap_class_names`) is on.
    pub fn has_class_features(&self) -> (r: bool)
        ensures
            r == self@.has_class_features,
    {
        self.has_class_features
    }

    /// Marks the class at `index` as wrapping to the print width.
    pub fn mark_class_wrapped(&mut self, index: usize)
        ensures
            final(self)@ == (ContextView {
                wrapped_class_indices: old(self)@.wrapped_class_indices.push(index),
                ..old(self)@
            }),
    {
        self.wrapped_class_indices.push(index);
    }

    /// Takes the indices marked with [`Self::mark_class_wrapped`].
    pub fn take_wrapped_class_indices(&mut self) -> (r: Vec<usize>)
        ensures
            r@ == old(self)@.wrapped_class_indices,
            final(self)@ == (ContextView { wrapped_class_indices: seq![], ..old(self)@ }),
    {
        let mut taken: Vec<usize> = Vec::new();
        std::mem::swap(&mut taken, &mut self.wrapped_class_indices);
        proof {
            assert(self.wrapped_class_indices@ =~= Seq::<usize>::empty());
        }
        taken
    }
}

/// The arrow assignment layout is a one-shot handoff keyed by the arrow's
/// span: a node at another span cannot take it; the arrow at that span takes
/// it once, which leaves the context as it was before the handoff, and a
/// second take finds nothing.
pub proof fn lemma_arrow_layout_one_shot<L>(c: ContextView<L>, span: Span, layout: L, other: Span)
    requires
        c.arrow_assignment_layout is None,
    ensures
        other != span ==> taken_arrow_layout(with_arrow_layout(c, span, layout), other) == (
            with_arrow_layout(c, span, layout),
            None::<L>,
        ),
        taken_arrow_layout(with_arrow_layout(c, span, layout), span) == (c, Some(layout)),
        taken_arrow_layout(c, span).1 is None,
{
}

/// Leaving a class context undoes entering it.
pub proof fn lemma_pop_undoes_push<L>(c: ContextView<L>, entry: ClassContext)
    ensures
        popped_class_context(pushed_class_context(c, entry)) == c,
{
    assert(c.class_context_stack.push(entry).drop_last() =~= c.class_context_stack);
}

/// A class string added to the context is stored at the index that adding
/// it returns (the former number of classes), and the classes collected
/// before it keep their indices.
pub proof fn lemma_added_class_at_returned_index(classes: Seq<Seq<char>>, class: Seq<char>)
    ensures
        classes.push(class)[classes.len() as int] == class,
        forall|i: int| 0 <= i < classes.len() ==> #[trigger] classes.push(class)[i] == classes[i],
{
}

} // verus!
