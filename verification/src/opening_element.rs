//! The layout of a JSX opening element, and where its closing bracket goes.
//!
//! A class attribute that `wrap_class_names` wraps gets a layout of its own:
//! it stays on the tag line while its class string fits there, and moves
//! onto its own line otherwise.

use vstd::prelude::*;

use crate::ast::AttributeName;
use crate::format_element::LineMode;
use crate::options::JsFormatOptions;
use crate::span::Span;
use crate::strings::{chars_of, split_ascii_whitespace, split_ascii_whitespace_exec};
use crate::tailwindcss::{class_attribute_context, spec_class_attribute_context};

verus! {

/// The value of a JSX attribute, as far as the layout reads it.
pub enum AttributeValue {
    /// A string literal with this value.
    StringLiteral(String),
    /// An expression container, element or fragment.
    Other,
}

/// One item of a JSX opening element's attribute list.
pub enum AttributeItem {
    /// `name`, `name="..."`, `name={...}`.
    Attribute { name: AttributeName, value: Option<AttributeValue>, span: Span },
    /// `{...props}`.
    SpreadAttribute { span: Span },
}

impl AttributeItem {
    /// The span of the item.
    pub open spec fn spec_span(self) -> Span {
        match self {
            AttributeItem::Attribute { span, .. } => span,
            AttributeItem::SpreadAttribute { span } => span,
        }
    }

    /// The span of the item.
    pub fn span(&self) -> (r: Span)
        ensures
            r == self.spec_span(),
    {
        match self {
            AttributeItem::Attribute { span, .. } => *span,
            AttributeItem::SpreadAttribute { span } => *span,
        }
    }
}

/// A JSX opening element: `<name<type arguments> attributes...>`.
pub struct OpeningElement {
    /// The span of the whole opening element.
    pub span: Span,
    /// The span of the element's name.
    pub name_span: Span,
    /// The span of the type arguments, if any.
    pub type_arguments_span: Option<Span>,
    /// The attributes, in source order.
    pub attributes: Vec<AttributeItem>,
}

/// How an opening element is laid out.
#[derive(Copy, Clone, Debug, PartialEq, Eq, Structural)]
pub enum OpeningElementLayout {
    /// Don't create a group around the element to avoid it breaking ever.
    ///
    /// Applied for elements that have no attributes nor any comment attached to their name.
    ///
    /// ```javascript
    /// <ASuperLongComponentNameThatWouldBreakButDoesntSinceTheComponent<DonTBreakThis>></ASuperLongComponentNameThatWouldBreakButDoesntSinceTheComponent>
    /// ```
    Inline,
    /// Opening element with a single attribute that contains no line breaks, nor has comments.
    ///
    /// ```javascript
    /// <div tooltip="A very long tooltip text that would otherwise make the attribute break onto the same line but it is not because of the single string layout" more></div>;
    /// ```
    SingleStringAttribute,
    /// Opening element with a single class attribute that `wrap_class_names` wraps.
    ///
    /// The attribute stays on the tag line while its class string fits there;
    /// otherwise it moves onto its own line, where the classes wrap.
    SingleWrappedClassAttribute,
    /// Default layout that indents the attributes and formats each attribute on its own line.
    ///
    /// ```javascript
    /// <div
    ///   oneAttribute
    ///   another="with value"
    ///   moreAttributes={withSomeExpression}
    /// ></div>;
    /// ```
    IndentAttributes { name_has_comment: bool, last_attribute_has_comment: bool },
}

/// The value of the attribute, when it is a string literal.
pub open spec fn string_literal_value(attribute: AttributeItem) -> Option<Seq<char>> {
    match attribute {
        AttributeItem::Attribute { value, .. } => match value {
            Some(AttributeValue::StringLiteral(string)) => Some(string@),
            _ => None,
        },
        AttributeItem::SpreadAttribute { .. } => None,
    }
}

/// Returns the value of this attribute when it is a string literal, `None`
/// otherwise.
fn as_string_literal_attribute_value(attribute: &AttributeItem) -> (r: Option<&String>)
    ensures
        match string_literal_value(*attribute) {
            Some(value) => r is Some && r.unwrap()@ == value,
            None => r is None,
        },
{
    match attribute {
        AttributeItem::Attribute { value, .. } => match value {
            Some(AttributeValue::StringLiteral(string)) => Some(string),
            _ => None,
        },
        AttributeItem::SpreadAttribute { .. } => None,
    }
}

/// Whether `wrap_class_names` wraps this attribute's value: a class attribute
/// that wrapping targets, unless sorting keeps its whitespace verbatim.
pub open spec fn spec_is_wrapped_class_attribute(attribute: AttributeItem, options: JsFormatOptions) -> bool {
    options.wrap_class_names is Some && match attribute {
        AttributeItem::Attribute { name, .. } => match spec_class_attribute_context(name, options) {
            Some(ctx) => ctx.wrap && !ctx.preserve_whitespace,
            None => false,
        },
        AttributeItem::SpreadAttribute { .. } => false,
    }
}

/// Returns `true` if `wrap_class_names` wraps this attribute's value
/// (strings kept verbatim by `sortTailwindcss.preserveWhitespace` are not wrapped).
fn is_wrapped_class_attribute(attribute: &AttributeItem, options: &JsFormatOptions) -> (r: bool)
    ensures
        r == spec_is_wrapped_class_attribute(*attribute, *options),
{
    // With wrapping off, the cheapest check already decides it.
    if options.wrap_class_names.is_none() {
        return false;
    }
    match attribute {
        AttributeItem::Attribute { name, .. } => match class_attribute_context(name, options) {
            Some(ctx) => ctx.wrap && !ctx.preserve_whitespace,
            None => false,
        },
        AttributeItem::SpreadAttribute { .. } => false,
    }
}

/// Whether `s` holds a line feed.
pub open spec fn has_newline(s: Seq<char>) -> bool {
    exists|i: int| 0 <= i < s.len() && #[trigger] s[i] == '\n'
}

/// Whether `s` holds a line feed.
fn contains_newline(s: &str) -> (r: bool)
    ensures
        r == has_newline(s@),
{
    let chars = chars_of(s);
    let mut i: usize = 0;
    while i < chars.len()
        invariant
            i <= chars.len(),
            chars@ == s@,
            forall|j: int| 0 <= j < i ==> #[trigger] chars@[j] != '\n',
        decreases chars.len() - i,
    {
        if chars[i] == '\n' {
            return true;
        }
        i += 1;
    }
    false
}

/// An attribute with a string literal value that contains a line feed,
/// unless it is a wrapped class attribute: its whitespace, including
/// newlines from a previous wrap, is collapsed before printing, so the
/// source newlines must not decide the layout.
pub open spec fn spec_is_multiline_string_literal_attribute(
    attribute: AttributeItem,
    options: JsFormatOptions,
) -> bool {
    match string_literal_value(attribute) {
        Some(value) => has_newline(value) && !spec_is_wrapped_class_attribute(attribute, options),
        None => false,
    }
}

/// Returns `true` if this is an attribute with a string literal initializer
/// that contains at least one new line character and is not a wrapped class
/// attribute (see [`spec_is_multiline_string_literal_attribute`]).
fn is_multiline_string_literal_attribute(attribute: &AttributeItem, options: &JsFormatOptions) -> (r: bool)
    ensures
        r == spec_is_multiline_string_literal_attribute(*attribute, *options),
{
    // The value check comes first: it is almost always false, so the class
    // lookup rarely runs.
    match as_string_literal_attribute_value(attribute) {
        Some(string) => contains_newline(string.as_str()) && !is_wrapped_class_attribute(
            attribute,
            options,
        ),
        None => false,
    }
}

/// An attribute with a string literal value that holds no line feed; for a
/// wrapped class attribute, one that holds at most one class (one with
/// several takes [`OpeningElementLayout::SingleWrappedClassAttribute`]).
pub open spec fn spec_is_single_line_string_literal_attribute(
    attribute: AttributeItem,
    options: JsFormatOptions,
) -> bool {
    match string_literal_value(attribute) {
        Some(value) => if spec_is_wrapped_class_attribute(attribute, options) {
            split_ascii_whitespace(value).len() < 2
        } else {
            !has_newline(value)
        },
        None => false,
    }
}

/// Returns `true` if this is an attribute with a string literal initializer
/// that does not contain any new line characters (see
/// [`spec_is_single_line_string_literal_attribute`]).
fn is_single_line_string_literal_attribute(attribute: &AttributeItem, options: &JsFormatOptions) -> (r:
    bool)
    ensures
        r == spec_is_single_line_string_literal_attribute(*attribute, *options),
{
    match as_string_literal_attribute_value(attribute) {
        Some(string) => if is_wrapped_class_attribute(attribute, options) {
            let chars = chars_of(string.as_str());
            let words = split_ascii_whitespace_exec(chars.as_slice());
            proof {
                assert(words@.len() == crate::strings::views(words@).len());
            }
            words.len() < 2
        } else {
            !contains_newline(string.as_str())
        },
        None => false,
    }
}

/// Formats a JSX opening element.
pub struct FormatOpeningElement<'b> {
    element: &'b OpeningElement,
    is_self_closing: bool,
}

impl<'b> FormatOpeningElement<'b> {
    /// The element that is formatted.
    pub closed spec fn spec_element(self) -> OpeningElement {
        *self.element
    }

    /// Whether the element closes itself (`<div />`).
    pub closed spec fn spec_is_self_closing(self) -> bool {
        self.is_self_closing
    }

    /// The element that is formatted.
    pub fn element(&self) -> (r: &OpeningElement)
        ensures
            *r == self.spec_element(),
    {
        self.element
    }

    /// Formats `element`, which closes itself when `is_self_closing`.
    pub fn new(element: &'b OpeningElement, is_self_closing: bool) -> (r: Self)
        ensures
            r.spec_element() == *element,
            r.spec_is_self_closing() == is_self_closing,
    {
        Self { element, is_self_closing }
    }

    /// The source range in which a comment is attached to the element's
    /// name: from the end of the type arguments (or the name) to the start
    /// of the first attribute (or the end of the element).
    pub open spec fn spec_name_comment_range(self) -> (u32, u32) {
        let element = self.spec_element();
        (
            match element.type_arguments_span {
                Some(span) => span.end,
                None => element.name_span.end,
            },
            if element.attributes.len() > 0 {
                element.attributes@[0].spec_span().start
            } else {
                element.span.end
            },
        )
    }

    /// The source range in which a comment is attached to the element's
    /// name (see [`Self::spec_name_comment_range`]); the layout asks the
    /// comments whether one lies there.
    pub fn name_comment_range(&self) -> (r: (u32, u32))
        ensures
            r == self.spec_name_comment_range(),
    {
        let element = self.element;
        let type_arguments_or_name_end = match element.type_arguments_span {
            Some(span) => span.end,
            None => element.name_span.end,
        };
        let first_attribute_start_or_element_end = if element.attributes.len() > 0 {
            element.attributes[0].span().start
        } else {
            element.span.end
        };
        (type_arguments_or_name_end, first_attribute_start_or_element_end)
    }

    /// The source range after the last attribute, up to the end of the
    /// element, in which a comment is attached to that attribute; `None`
    /// without attributes.
    pub open spec fn spec_last_attribute_comment_range(self) -> Option<(u32, u32)> {
        let element = self.spec_element();
        if element.attributes.len() > 0 {
            Some((element.attributes@.last().spec_span().end, element.span.end))
        } else {
            None
        }
    }

    /// The source range after the last attribute in which a comment is
    /// attached to it (see [`Self::spec_last_attribute_comment_range`]).
    pub fn last_attribute_comment_range(&self) -> (r: Option<(u32, u32)>)
        ensures
            r == self.spec_last_attribute_comment_range(),
    {
        let element = self.element;
        let n = element.attributes.len();
        if n > 0 {
            Some((element.attributes[n - 1].span().end, element.span.end))
        } else {
            None
        }
    }

    /// The layout of the element, given whether a comment is attached to its
    /// name (in [`Self::spec_name_comment_range`]) and to its last attribute
    /// (in [`Self::spec_last_attribute_comment_range`]).
    pub open spec fn spec_layout(
        self,
        name_has_comment: bool,
        last_attribute_has_comment: bool,
        options: JsFormatOptions,
    ) -> OpeningElementLayout {
        let attributes = self.spec_element().attributes@;
        let indent = OpeningElementLayout::IndentAttributes { name_has_comment, last_attribute_has_comment };
        if attributes.len() == 0 && !name_has_comment {
            OpeningElementLayout::Inline
        } else if attributes.len() == 1 && !name_has_comment && !last_attribute_has_comment {
            if spec_is_single_line_string_literal_attribute(attributes[0], options) {
                OpeningElementLayout::SingleStringAttribute
            } else if spec_is_wrapped_class_attribute(attributes[0], options) && string_literal_value(
                attributes[0],
            ) is Some {
                OpeningElementLayout::SingleWrappedClassAttribute
            } else {
                indent
            }
        } else {
            indent
        }
    }

    /// Computes the layout of the element (see [`Self::spec_layout`]).
    pub fn compute_layout(
        &self,
        name_has_comment: bool,
        last_attribute_has_comment: bool,
        options: &JsFormatOptions,
    ) -> (r: OpeningElementLayout)
        ensures
            r == self.spec_layout(name_has_comment, last_attribute_has_comment, *options),
    {
        let attributes = &self.element.attributes;
        // No attributes nor any comment attached to the name: the element
        // never breaks, whether it closes itself or not.
        if attributes.len() == 0 && !name_has_comment {
            OpeningElementLayout::Inline
        } else if attributes.len() == 1 && !name_has_comment && !last_attribute_has_comment {
            if is_single_line_string_literal_attribute(&attributes[0], options) {
                OpeningElementLayout::SingleStringAttribute
            } else if is_wrapped_class_attribute(&attributes[0], options)
                && as_string_literal_attribute_value(&attributes[0]).is_some() {
                OpeningElementLayout::SingleWrappedClassAttribute
            } else {
                OpeningElementLayout::IndentAttributes { name_has_comment, last_attribute_has_comment }
            }
        } else {
            OpeningElementLayout::IndentAttributes { name_has_comment, last_attribute_has_comment }
        }
    }

    /// Whether some attribute is a multi-line string (see
    /// [`spec_is_multiline_string_literal_attribute`]): the group of indented
    /// attributes then always breaks.
    pub open spec fn spec_has_multiline_string_attribute(self, options: JsFormatOptions) -> bool {
        exists|i: int|
            0 <= i < self.spec_element().attributes@.len()
                && spec_is_multiline_string_literal_attribute(
                #[trigger] self.spec_element().attributes@[i],
                options,
            )
    }

    /// Whether the group of indented attributes always breaks (see
    /// [`Self::spec_has_multiline_string_attribute`]).
    pub fn has_multiline_string_attribute(&self, options: &JsFormatOptions) -> (r: bool)
        ensures
            r == self.spec_has_multiline_string_attribute(*options),
    {
        let attributes = &self.element.attributes;
        let mut i: usize = 0;
        while i < attributes.len()
            invariant
                i <= attributes.len(),
                *attributes == self.spec_element().attributes,
                forall|j: int|
                    0 <= j < i ==> !spec_is_multiline_string_literal_attribute(
                        #[trigger] attributes@[j],
                        *options,
                    ),
            decreases attributes.len() - i,
        {
            if is_multiline_string_literal_attribute(&attributes[i], options) {
                return true;
            }
            i += 1;
        }
        false
    }

    /// The line break before the closing `>` (or `/>`) of an element with
    /// indented attributes: a line break or space for a self-closing element;
    /// a soft line break after a commented last attribute; none when the
    /// bracket stays on the same line (`bracket_same_line` with attributes,
    /// or no attributes and no comment on the name); a soft line break
    /// otherwise.
    pub open spec fn spec_break_before_close(
        self,
        name_has_comment: bool,
        last_attribute_has_comment: bool,
        options: JsFormatOptions,
    ) -> Option<LineMode> {
        let has_attributes = self.spec_element().attributes.len() > 0;
        if self.spec_is_self_closing() {
            Some(LineMode::SoftOrSpace)
        } else if last_attribute_has_comment {
            Some(LineMode::Soft)
        } else if (options.bracket_same_line && has_attributes) || (!has_attributes
            && !name_has_comment) {
            None
        } else {
            Some(LineMode::Soft)
        }
    }

    /// The line break before the closing bracket of an element with
    /// indented attributes (see [`Self::spec_break_before_close`]).
    pub fn break_before_close(
        &self,
        name_has_comment: bool,
        last_attribute_has_comment: bool,
        options: &JsFormatOptions,
    ) -> (r: Option<LineMode>)
        ensures
            r == self.spec_break_before_close(name_has_comment, last_attribute_has_comment, *options),
    {
        let force_bracket_same_line = options.bracket_same_line;
        let has_attributes = self.element.attributes.len() > 0;
        let wants_bracket_same_line = !has_attributes && !name_has_comment;
        if self.is_self_closing {
            Some(LineMode::SoftOrSpace)
        } else if last_attribute_has_comment {
            Some(LineMode::Soft)
        } else if (force_bracket_same_line && has_attributes) || wants_bracket_same_line {
            None
        } else {
            Some(LineMode::Soft)
        }
    }

    /// Whether an element laid out [`OpeningElementLayout::Inline`] has a space
    /// before its closing bracket: `<Name />` closes itself after one, while
    /// `<Name<T>>` (which opens children) takes none.
    pub fn inline_space_before_close(&self) -> (r: bool)
        ensures
            r == self.spec_is_self_closing(),
    {
        self.is_self_closing
    }

    /// Whether the broken form of a single wrapped class attribute (the
    /// attribute on its own line) puts the closing bracket on a line of its
    /// own: always for a self-closing element, else unless `bracket_same_line`.
    pub fn wrapped_class_attribute_breaks_before_close(&self, options: &JsFormatOptions) -> (r: bool)
        ensures
            r == (self.spec_is_self_closing() || !options.bracket_same_line),
    {
        self.is_self_closing || !options.bracket_same_line
    }
}

/// A wrapped class attribute is never a multi-line string attribute: its
/// whitespace, newlines from a previous wrap included, is collapsed before
/// printing, so the newlines of the source never force the attributes apart.
pub proof fn lemma_wrapped_class_attribute_not_multiline(attribute: AttributeItem, options: JsFormatOptions)
    requires
        spec_is_wrapped_class_attribute(attribute, options),
    ensures
        !spec_is_multiline_string_literal_attribute(attribute, options),
{
}

} // verus!
