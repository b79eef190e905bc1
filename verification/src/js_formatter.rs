//! The formatter that the class-name writers write into: the formatting
//! context, the elements written so far, and the arena that holds the
//! variants of best-fitting elements.

use vstd::prelude::*;

use crate::context::{ContextView, JsFormatContext};
use crate::format_element::{arena_wf, elems, seq_refs_below, Elem, ElementArena, FormatElement};
use crate::options::JsFormatOptions;

verus! {

/// The mathematical value of a [`JsFormatter`].
pub struct FormatterView<L> {
    pub context: ContextView<L>,
    pub elements: Seq<Elem>,
    pub arena: Seq<Seq<Elem>>,
}

/// The document written so far is well formed: each arena slot references
/// only slots created before it, and the elements reference only slots of
/// the arena (what `format` needs of its input).
pub open spec fn document_wf<L>(v: FormatterView<L>) -> bool {
    arena_wf(v.arena) && seq_refs_below(v.elements, v.arena.len() as int)
}

/// Writes formatting elements, with the context of the run.
pub struct JsFormatter<'ast, L> {
    pub context: JsFormatContext<'ast, L>,
    pub elements: Vec<FormatElement>,
    pub arena: ElementArena<FormatElement>,
}

impl<'ast, L: Copy> View for JsFormatter<'ast, L> {
    type V = FormatterView<L>;

    open spec fn view(&self) -> FormatterView<L> {
        FormatterView {
            context: self.context@,
            elements: elems(self.elements@),
            arena: self.arena@,
        }
    }
}

impl<'ast, L: Copy> JsFormatter<'ast, L> {
    /// A formatter that has written nothing yet.
    pub fn new(context: JsFormatContext<'ast, L>) -> (r: Self)
        ensures
            r@ == (FormatterView::<L> {
                context: context@,
                elements: seq![],
                arena: seq![],
            }),
    {
        let r = JsFormatter { context, elements: Vec::new(), arena: ElementArena::new() };
        assert(elems(r.elements@) =~= Seq::<Elem>::empty());
        r
    }

    /// The formatting context.
    pub fn context(&self) -> (r: &JsFormatContext<'ast, L>)
        ensures
            r@ == self@.context,
    {
        &self.context
    }

    /// The options.
    pub fn options(&self) -> (r: &JsFormatOptions)
        ensures
            *r == self@.context.options,
    {
        self.context.options()
    }

    /// Writes one element.
    pub fn write_element(&mut self, element: FormatElement)
        ensures
            final(self)@ == (FormatterView {
                elements: old(self)@.elements.push(element@),
                ..old(self)@
            }),
    {
        let ghost e = element@;
        self.elements.push(element);
        assert(elems(self.elements@) =~= elems(old(self).elements@).push(e));
    }

    /// Writes each of `elements`, in order.
    pub fn write_elements(&mut self, elements: Vec<FormatElement>)
        ensures
            final(self)@ == (FormatterView {
                elements: old(self)@.elements + elems(elements@),
                ..old(self)@
            }),
    {
        let mut elements = elements;
        let ghost added = elements@;
        let ghost before = self.elements@;
        self.elements.append(&mut elements);
        assert(elems(before + added) =~= elems(before) + elems(added));
    }
}

} // verus!
