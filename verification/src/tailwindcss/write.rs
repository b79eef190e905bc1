//! Writing class strings (sorted and/or wrapped): string literals, template
//! literals and template elements become class markers that the host's sort
//! and the wrap expansion fill in later.
//!
//! Each writer is specified by what it appends to the formatter: elements,
//! arena slots for best-fitting variants, collected class strings, and the
//! indices of classes that are unsorted or wrap.

use vstd::prelude::*;

use crate::ast::{Ancestor, AncestorKind};
use crate::class_context::ClassContext;
use crate::context::ContextView;
use crate::format_element::{elems, refs_below, seq_refs_below, text, token, Elem, FormatElement, Tag};
use crate::js_formatter::{document_wf, FormatterView, JsFormatter};
use crate::options::JsFormatOptions;
use crate::span::Span;
use crate::strings::{
    chars_of, ends_with_ascii_ws, has_ascii_ws, is_ascii_ws, join_with_single_spaces, join_with_space,
    split_ascii_whitespace, split_ascii_whitespace_exec, starts_with_ascii_ws, string_from_chars,
    trim, trim_bounds,
};
use super::{
    can_collapse_whitespace, class_attribute_context, current_class_context, narrow_class_context,
    spec_can_collapse_whitespace, spec_class_attribute_context, spec_narrow_class_context,
    CollapseWhitespace,
};

verus! {

// ============================================================================
// Class content
// ============================================================================

/// Whether `s` holds ASCII whitespace other than a plain space (a newline
/// left by a previous wrap, a tab, ...).
pub open spec fn has_other_ascii_ws(s: Seq<char>) -> bool {
    exists|i: int| 0 <= i < s.len() && is_ascii_ws(#[trigger] s[i]) && s[i] != ' '
}

/// The class string that a marker stands for: in a wrapping context,
/// whitespace runs (including newlines left by a previous wrap) collapse to
/// single spaces, so the unwrapped form is always a legal single-line string.
pub open spec fn class_content(trimmed: Seq<char>, wrap: bool) -> Seq<char> {
    if wrap {
        join_with_space(split_ascii_whitespace(trimmed))
    } else {
        trimmed
    }
}

/// `c` after collecting `content`: an unsorted index too when `sort` is off.
pub open spec fn push_class<L>(c: ContextView<L>, content: Seq<char>, sort: bool) -> ContextView<L> {
    ContextView {
        tailwind_classes: c.tailwind_classes.push(content),
        unsorted_class_indices: if sort {
            c.unsorted_class_indices
        } else {
            c.unsorted_class_indices.push(c.tailwind_classes.len() as usize)
        },
        ..c
    }
}

/// `c` with the class at `index` marked as wrapping, when `wrap`.
pub open spec fn mark_wrapped<L>(c: ContextView<L>, index: usize, wrap: bool) -> ContextView<L> {
    if wrap {
        ContextView { wrapped_class_indices: c.wrapped_class_indices.push(index), ..c }
    } else {
        c
    }
}

/// A text element holding one space, when `b`.
pub open spec fn space_if(b: bool) -> Seq<Elem> {
    if b {
        seq![Elem::Text(seq![' '])]
    } else {
        seq![]
    }
}

/// The elements of a class marker: a wrapping marker with `indent` sits in
/// an indent, so its wrapped lines go one level deeper.
pub open spec fn marker_elems(index: usize, wrap: bool, indent: bool) -> Seq<Elem> {
    if wrap && indent {
        seq![Elem::Tag(Tag::StartIndent), Elem::TailwindClass(index), Elem::Tag(Tag::EndIndent)]
    } else {
        seq![Elem::TailwindClass(index)]
    }
}

/// `body` between the tokens `open` and `close`, with a space after `open`
/// when `lead` and before `close` when `trail`.
pub open spec fn delimited(open: Seq<char>, lead: bool, body: Seq<Elem>, trail: bool, close: Seq<char>) -> Seq<
    Elem,
> {
    seq![Elem::Token(open)] + space_if(lead) + body + space_if(trail) + seq![Elem::Token(close)]
}

/// Collects a class string for a marker and returns its index. Only sorting
/// contexts are sent to the sorter; the others are recorded as unsorted.
fn add_class_content<'ast, L: Copy>(f: &mut JsFormatter<'ast, L>, trimmed: &[char], ctx: ClassContext) -> (r:
    usize)
    requires
        old(f)@.context.tailwind_classes.len() < usize::MAX,
    ensures
        r == old(f)@.context.tailwind_classes.len(),
        final(f)@ == (FormatterView {
            context: push_class(old(f)@.context, class_content(trimmed@, ctx.wrap), ctx.sort),
            ..old(f)@
        }),
{
    let content = if ctx.wrap {
        let words = split_ascii_whitespace_exec(trimmed);
        let joined = join_with_single_spaces(&words);
        string_from_chars(joined.as_slice())
    } else {
        string_from_chars(trimmed)
    };
    if ctx.sort {
        f.context.add_tailwind_class(content)
    } else {
        f.context.add_unsorted_class(content)
    }
}

/// The elements of a class marker (see [`marker_elems`]).
fn marker_elements(index: usize, wrap: bool, indent: bool) -> (r: Vec<FormatElement>)
    ensures
        elems(r@) == marker_elems(index, wrap, indent),
{
    let r = if wrap && indent {
        vec![
            FormatElement::Tag(Tag::StartIndent),
            FormatElement::TailwindClass(index),
            FormatElement::Tag(Tag::EndIndent),
        ]
    } else {
        vec![FormatElement::TailwindClass(index)]
    };
    assert(elems(r@) =~= marker_elems(index, wrap, indent));
    r
}

/// Writes a class marker. A wrapping marker is recorded on the context, so
/// `format` expands it into a fill after sorting. With `indent`, wrapped
/// lines sit one level deeper than the current indentation; otherwise they
/// align with it.
fn write_class_marker<'ast, L: Copy>(f: &mut JsFormatter<'ast, L>, index: usize, wrap: bool, indent: bool)
    ensures
        final(f)@ == (FormatterView {
            context: mark_wrapped(old(f)@.context, index, wrap),
            elements: old(f)@.elements + marker_elems(index, wrap, indent),
            ..old(f)@
        }),
{
    if wrap {
        f.context.mark_class_wrapped(index);
    }
    f.write_elements(marker_elements(index, wrap, indent));
}

/// Writes one space.
fn write_space<'ast, L: Copy>(f: &mut JsFormatter<'ast, L>)
    ensures
        final(f)@ == (FormatterView {
            elements: old(f)@.elements.push(Elem::Text(seq![' '])),
            ..old(f)@
        }),
{
    proof {
        reveal_strlit(" ");
        assert(" "@ =~= seq![' ']);
    }
    f.write_element(text(" "));
}

/// Writes one space when `b`.
fn write_space_if<'ast, L: Copy>(f: &mut JsFormatter<'ast, L>, b: bool)
    ensures
        final(f)@ == (FormatterView { elements: old(f)@.elements + space_if(b), ..old(f)@ }),
{
    if b {
        write_space(f);
    }
    assert(old(f)@.elements + space_if(b) =~= f@.elements);
}

// ============================================================================
// Delimiter conversion
// ============================================================================

/// Whether `s` has a backtick, a backslash or `${`: a class string without
/// them can swap delimiters (quote <-> backtick) with no re-escaping.
pub open spec fn convertible(s: Seq<char>) -> bool {
    forall|i: int|
        0 <= i < s.len() ==> #[trigger] s[i] != '`' && s[i] != '\\' && !(s[i] == '$' && i + 1 < s.len()
            && s[i + 1] == '{')
}

/// Whether a class string's content can safely swap delimiters
/// (quote <-> backtick) without any re-escaping analysis.
///
/// Backslashes rule out escape sequences, backticks and `${` rule out
/// template collisions. Real-world class lists contain none of these.
fn is_convertible_class_content(content: &[char]) -> (r: bool)
    ensures
        r == convertible(content@),
{
    let n = content.len();
    let mut i: usize = 0;
    while i < n
        invariant
            n == content@.len(),
            i <= n,
            forall|j: int|
                0 <= j < i ==> #[trigger] content@[j] != '`' && content@[j] != '\\' && !(content@[j] == '$'
                    && j + 1 < n && content@[j + 1] == '{'),
        decreases n - i,
    {
        let c = content[i];
        if c == '`' || c == '\\' {
            return false;
        }
        if c == '$' && i + 1 < n && content[i + 1] == '{' {
            return false;
        }
        i += 1;
    }
    true
}

/// `&` at `i` opens an HTML character reference: a `;` follows before the
/// next whitespace or `&`.
pub open spec fn reference_at(s: Seq<char>, i: int) -> bool {
    &&& 0 <= i < s.len()
    &&& s[i] == '&'
    &&& exists|j: int|
        i < j < s.len() && #[trigger] s[j] == ';' && forall|k: int|
            i < k < j ==> !is_ascii_ws(#[trigger] s[k]) && s[k] != '&'
}

/// Whether `s` may hold an HTML character reference (`&amp;`, `&#38;`).
pub open spec fn has_reference(s: Seq<char>) -> bool {
    exists|i: int| #[trigger] reference_at(s, i)
}

/// Whether a JSX attribute string may hold an HTML character reference
/// (`&amp;`, `&#38;`, `&#x26;`). JSX decodes those in an attribute string but
/// not in a template literal, so converting such a string would change its value.
///
/// Conservative: any `&` followed by `;` before the next whitespace counts.
/// Tailwind's arbitrary variants (`[&_svg]:size-4`) have no `;` and still convert.
fn has_html_character_reference(content: &[char]) -> (r: bool)
    ensures
        r == has_reference(content@),
{
    let n = content.len();
    let mut i: usize = 0;
    while i < n
        invariant
            n == content@.len(),
            i <= n,
            forall|x: int| 0 <= x < i ==> !#[trigger] reference_at(content@, x),
        decreases n - i,
    {
        if content[i] == '&' {
            let mut j: usize = i + 1;
            while j < n && !crate::strings::is_ascii_whitespace(content[j]) && content[j] != '&'
                invariant
                    n == content@.len(),
                    i < j <= n,
                    content@[i as int] == '&',
                    forall|k: int|
                        i < k < j ==> !is_ascii_ws(#[trigger] content@[k]) && content@[k] != '&'
                            && content@[k] != ';',
                decreases n - j,
            {
                if content[j] == ';' {
                    assert(reference_at(content@, i as int));
                    return true;
                }
                j += 1;
            }
            assert(!reference_at(content@, i as int)) by {
                if reference_at(content@, i as int) {
                    let w = choose|w: int|
                        i < w < content@.len() && #[trigger] content@[w] == ';' && forall|k: int|
                            i < k < w ==> !is_ascii_ws(#[trigger] content@[k]) && content@[k] != '&';
                    if w < j {
                        assert(content@[w] != ';');
                    } else {
                        assert(i < j < w);
                        assert(!is_ascii_ws(content@[j as int]) && content@[j as int] != '&');
                    }
                }
            }
        }
        i += 1;
    }
    false
}

/// Which boundary spaces a class string keeps: `(leading, trailing)`.
/// Sorting trims them unless the surrounding concatenation needs the space;
/// with `keep`, a wrap-only context in an expression keeps them.
pub open spec fn spec_boundary_spaces(content: Seq<char>, collapse: CollapseWhitespace, keep: bool) -> (
    bool,
    bool,
) {
    (
        starts_with_ascii_ws(content) && (!collapse.start || keep),
        ends_with_ascii_ws(content) && (!collapse.end || keep),
    )
}

/// Which boundary spaces a class string keeps: `(leading, trailing)`.
fn boundary_spaces(content: &[char], collapse: CollapseWhitespace, keep: bool) -> (r: (bool, bool))
    ensures
        r == spec_boundary_spaces(content@, collapse, keep),
{
    let leading = crate::strings::starts_with_ascii_whitespace(content);
    let trailing = crate::strings::ends_with_ascii_whitespace(content);
    (leading && (!collapse.start || keep), trailing && (!collapse.end || keep))
}

/// The delimiters of [`write_convertible_class_string`]'s two forms.
#[derive(Clone, Copy)]
pub struct ConvertibleDelimiters {
    /// The quote of the form that fits on one line.
    pub quote: &'static str,
    /// Opens the wrapped form: a template, or a JSX expression container
    /// holding one (`syntax_transformation`).
    pub wrapped_open: &'static str,
    /// Closes the wrapped form. The expansion glues it onto the last class,
    /// so its width counts toward that line.
    pub wrapped_close: &'static str,
}

impl ConvertibleDelimiters {
    /// `"a b"` <-> `` `a b` ``
    pub fn template(quote: &'static str) -> (r: Self)
        ensures
            r.quote@ == quote@,
            r.wrapped_open@ == seq!['`'],
            r.wrapped_close@ == seq!['`'],
    {
        proof {
            reveal_strlit("`");
        }
        Self { quote, wrapped_open: "`", wrapped_close: "`" }
    }

    /// `class="a b"` <-> `` class={`a b`} `` (`syntax_transformation`)
    pub fn jsx_expression(quote: &'static str) -> (r: Self)
        ensures
            r.quote@ == quote@,
            r.wrapped_open@ == seq!['{', '`'],
            r.wrapped_close@ == seq!['`', '}'],
    {
        proof {
            reveal_strlit("{`");
            reveal_strlit("`}");
        }
        Self { quote, wrapped_open: "{`", wrapped_close: "`}" }
    }
}

/// What [`write_convertible_class_string`] does to `v`: two class entries
/// for `trimmed` (one for each form; the second wraps), two arena slots (the
/// quoted form, measured alone, and the wrapped form), and a best-fitting
/// element that picks the first of them that fits.
pub open spec fn convertible_writes<L>(
    v: FormatterView<L>,
    quote: Seq<char>,
    open: Seq<char>,
    close: Seq<char>,
    trimmed: Seq<char>,
    ctx: ClassContext,
    lead: bool,
    trail: bool,
    indent: bool,
) -> FormatterView<L> {
    let n = v.context.tailwind_classes.len();
    let content = class_content(trimmed, ctx.wrap);
    let slot = v.arena.len();
    FormatterView {
        context: mark_wrapped(
            push_class(push_class(v.context, content, ctx.sort), content, ctx.sort),
            (n + 1) as usize,
            true,
        ),
        elements: v.elements.push(Elem::BestFitting(seq![slot as usize, (slot + 1) as usize])),
        arena: v.arena.push(
            delimited(quote, lead, seq![Elem::TailwindClass(n as usize)], trail, quote).push(
                Elem::MeasureAlone,
            ),
        ).push(delimited(open, lead, marker_elems((n + 1) as usize, true, indent), trail, close)),
    }
}

/// `body` between the tokens `open` and `close`, as elements.
fn delimited_elements(
    open: &str,
    lead: bool,
    body: Vec<FormatElement>,
    trail: bool,
    close: &str,
) -> (r: Vec<FormatElement>)
    ensures
        elems(r@) == delimited(open@, lead, elems(body@), trail, close@),
{
    proof {
        reveal_strlit(" ");
        assert(" "@ =~= seq![' ']);
    }
    let mut out: Vec<FormatElement> = Vec::new();
    out.push(token(open));
    assert(elems(out@) =~= seq![Elem::Token(open@)]);
    if lead {
        let ghost e0 = elems(out@);
        out.push(text(" "));
        assert(elems(out@) =~= e0.push(Elem::Text(seq![' '])));
    }
    assert(elems(out@) =~= seq![Elem::Token(open@)] + space_if(lead));
    let ghost before = out@;
    let mut body = body;
    let ghost b = body@;
    out.append(&mut body);
    assert(elems(before + b) =~= elems(before) + elems(b));
    assert(elems(out@) =~= seq![Elem::Token(open@)] + space_if(lead) + elems(b));
    if trail {
        let ghost e1 = elems(out@);
        out.push(text(" "));
        assert(elems(out@) =~= e1.push(Elem::Text(seq![' '])));
    }
    assert(elems(out@) =~= seq![Elem::Token(open@)] + space_if(lead) + elems(b) + space_if(trail));
    let ghost e2 = elems(out@);
    out.push(token(close));
    assert(elems(out@) =~= e2.push(Elem::Token(close@)));
    assert(elems(out@) =~= delimited(open@, lead, elems(b), trail, close@));
    out
}

/// Writes a class string outside a JSX attribute value, where a quoted string
/// cannot contain a newline: a best-fitting pair of the quoted string and a
/// backtick template whose classes wrap to the print width.
///
/// The printer picks the quoted form whenever it fits, so `` `a b` ``
/// normalizes to `"a b"` and a long `"..."` becomes a wrapped template.
///
/// The quoted form gets its own class entry that never wraps: a buffer that
/// removes soft line breaks (e.g. inside `${}`) prints it without flat mode,
/// so a shared, wrapping entry could break inside the quotes.
fn write_convertible_class_string<'ast, L: Copy>(
    delimiters: ConvertibleDelimiters,
    trimmed: &[char],
    ctx: ClassContext,
    spaces: (bool, bool),
    indent: bool,
    f: &mut JsFormatter<'ast, L>,
)
    requires
        old(f)@.context.tailwind_classes.len() + 1 < usize::MAX,
    ensures
        final(f)@ == convertible_writes(
            old(f)@,
            delimiters.quote@,
            delimiters.wrapped_open@,
            delimiters.wrapped_close@,
            trimmed@,
            ctx,
            spaces.0,
            spaces.1,
            indent,
        ),
{
    let (leading_space, trailing_space) = spaces;
    let flat_index = add_class_content(f, trimmed, ctx);
    let index = add_class_content(f, trimmed, ctx);
    let mut flat = delimited_elements(
        delimiters.quote,
        leading_space,
        vec![FormatElement::TailwindClass(flat_index)],
        trailing_space,
        delimiters.quote,
    );
    // Like the plugin, the quoted form fits when the string itself does,
    // whatever follows it on the line (`,`, `)`).
    let ghost flat0 = elems(flat@);
    flat.push(FormatElement::MeasureAlone);
    assert(elems(flat@) =~= flat0.push(Elem::MeasureAlone));
    f.context.mark_class_wrapped(index);
    let wrapped = delimited_elements(
        delimiters.wrapped_open,
        leading_space,
        marker_elements(index, true, indent),
        trailing_space,
        delimiters.wrapped_close,
    );
    let ghost flat_view = elems(flat@);
    let ghost wrapped_view = elems(wrapped@);
    let flat_slot = f.arena.intern(flat);
    let wrapped_slot = f.arena.intern(wrapped);
    f.write_element(FormatElement::BestFitting(vec![flat_slot, wrapped_slot]));
    proof {
        let v = old(f)@;
        let n = v.context.tailwind_classes.len();
        assert(elems(seq![FormatElement::TailwindClass(flat_index)]) =~= seq![Elem::TailwindClass(n as usize)]);
        assert(flat_view =~= delimited(
            delimiters.quote@,
            leading_space,
            seq![Elem::TailwindClass(n as usize)],
            trailing_space,
            delimiters.quote@,
        ).push(Elem::MeasureAlone));
    }
}

// ============================================================================
// Indentation of wrapped lines
// ============================================================================

/// The walk of [`spec_wraps_one_level_deeper`] from a node at `span` up
/// through `ancestors`; `direct` while every node passed so far is a
/// parenthesis.
pub open spec fn deeper_walk(span: Span, ancestors: Seq<Ancestor>, direct: bool) -> bool
    decreases ancestors.len(),
{
    if ancestors.len() == 0 {
        false
    } else {
        match ancestors[0].kind {
            AncestorKind::ConditionalExpression { test_span } => !direct
                || test_span.spec_contains_inclusive(span),
            AncestorKind::ParenthesizedExpression => deeper_walk(
                ancestors[0].span,
                ancestors.drop_first(),
                direct,
            ),
            _ => deeper_walk(ancestors[0].span, ancestors.drop_first(), false),
        }
    }
}

/// Whether the wrapped lines of a class string at `span` (whose ancestors,
/// from its parent up, are `ancestors`) sit one level deeper than the line
/// the string starts on: for an attribute's own value (`className="..."`,
/// `` className={`...`} ``) and for any string inside a ternary, even one
/// nested in a call there, but not for a branch printed right after `? `/`: `,
/// which already gets the extra level from the ternary's own alignment.
/// Elsewhere (`clsx(...)` arguments, tagged templates) the wrapped lines keep
/// the start line's indentation.
pub open spec fn spec_wraps_one_level_deeper(span: Span, ancestors: Seq<Ancestor>) -> bool {
    if ancestors.len() > 0 && (ancestors[0].kind is JSXAttribute || ancestors[0].kind is JSXExpressionContainer) {
        true
    } else {
        deeper_walk(span, ancestors, true)
    }
}

/// Whether the wrapped lines of a class string sit one level deeper than the
/// line the string starts on (see [`spec_wraps_one_level_deeper`]).
pub fn wraps_one_level_deeper(span: Span, ancestors: &[Ancestor]) -> (r: bool)
    ensures
        r == spec_wraps_one_level_deeper(span, ancestors@),
{
    if ancestors.len() > 0 {
        match &ancestors[0].kind {
            AncestorKind::JSXAttribute { .. } | AncestorKind::JSXExpressionContainer => {
                return true;
            },
            _ => {},
        }
    }
    let mut cur = span;
    let mut direct = true;
    let mut i: usize = 0;
    assert(ancestors@.skip(0) =~= ancestors@);
    while i < ancestors.len()
        invariant
            i <= ancestors.len(),
            deeper_walk(cur, ancestors@.skip(i as int), direct) == spec_wraps_one_level_deeper(
                span,
                ancestors@,
            ),
        decreases ancestors.len() - i,
    {
        let ancestor = &ancestors[i];
        proof {
            assert(ancestors@.skip(i as int)[0] == *ancestor);
            assert(ancestors@.skip(i as int).drop_first() =~= ancestors@.skip(i + 1));
        }
        match &ancestor.kind {
            AncestorKind::ConditionalExpression { test_span } => {
                return !direct || test_span.contains_inclusive(cur);
            },
            AncestorKind::ParenthesizedExpression => {},
            _ => {
                direct = false;
            },
        }
        cur = ancestor.span;
        i += 1;
    }
    false
}

// ============================================================================
// String literals
// ============================================================================

/// Whether `wrap_class_names` turns a JSX attribute string that has to wrap
/// into an expression holding a template (`syntax_transformation`).
pub open spec fn syntax_transformation(options: JsFormatOptions) -> bool {
    match options.wrap_class_names {
        Some(opts) => opts.syntax_transformation,
        None => false,
    }
}

/// Whether the node whose ancestors are `ancestors` is a JSX attribute's value.
pub open spec fn in_jsx_attribute(ancestors: Seq<Ancestor>) -> bool {
    ancestors.len() > 0 && ancestors[0].kind is JSXAttribute
}

/// What [`write_class_string_literal`] does to `v` for the string whose
/// normalized source text (quotes included) is `normalized`, at `span`, with
/// these ancestors (from its parent up), in class context `ctx`:
/// - with `preserve_whitespace`, the content is one sorted class entry;
/// - whitespace-only content becomes a single space (or nothing);
/// - otherwise the content is trimmed, keeping the boundary spaces that the
///   context needs; a wrapping string outside a JSX attribute (or inside one,
///   with `syntax_transformation`) that can swap delimiters is written as a
///   quoted/template best-fitting pair; anything else is one marker between
///   the quotes, wrapping in place only in a JSX attribute.
pub open spec fn string_literal_writes<L>(
    v: FormatterView<L>,
    normalized: Seq<char>,
    span: Span,
    ancestors: Seq<Ancestor>,
    ctx: ClassContext,
) -> FormatterView<L> {
    let quote = seq![normalized[0]];
    let content = normalized.subrange(1, normalized.len() - 1);
    let trimmed = trim(content);
    let n = v.context.tailwind_classes.len() as usize;
    let is_jsx = in_jsx_attribute(ancestors);
    if ctx.preserve_whitespace {
        FormatterView {
            context: push_class(v.context, content, true),
            elements: v.elements + seq![
                Elem::Token(quote),
                Elem::TailwindClass(n),
                Elem::Token(quote),
            ],
            ..v
        }
    } else if trimmed.len() == 0 {
        FormatterView {
            elements: v.elements + seq![Elem::Token(quote)] + space_if(content.len() > 0) + seq![
                Elem::Token(quote),
            ],
            ..v
        }
    } else {
        let collapse = spec_can_collapse_whitespace(current_class_context(v.context), span, ancestors);
        let (lead, trail) = spec_boundary_spaces(content, collapse, !ctx.sort && !is_jsx);
        if ctx.wrap && is_jsx && syntax_transformation(v.context.options) && convertible(content)
            && !has_reference(content) {
            convertible_writes(v, quote, seq!['{', '`'], seq!['`', '}'], trimmed, ctx, lead, trail, true)
        } else if ctx.wrap && !is_jsx && convertible(content) {
            convertible_writes(
                v,
                quote,
                seq!['`'],
                seq!['`'],
                trimmed,
                ctx,
                lead,
                trail,
                spec_wraps_one_level_deeper(span, ancestors),
            )
        } else {
            FormatterView {
                context: mark_wrapped(
                    push_class(v.context, class_content(trimmed, ctx.wrap), ctx.sort),
                    n,
                    ctx.wrap && is_jsx,
                ),
                elements: v.elements + delimited(
                    quote,
                    lead,
                    marker_elems(n, ctx.wrap && is_jsx, true),
                    trail,
                    quote,
                ),
                ..v
            }
        }
    }
}

/// The quote token of a normalized string literal.
fn quote_of(c: char) -> (r: &'static str)
    requires
        c == '"' || c == '\'',
    ensures
        r@ == seq![c],
{
    if c == '\'' {
        proof {
            reveal_strlit("'");
            assert("'"@ =~= seq!['\'']);
        }
        "'"
    } else {
        proof {
            reveal_strlit("\"");
            assert("\""@ =~= seq!['"']);
        }
        "\""
    }
}

/// Writes a string literal holding class names (sorted and/or wrapped);
/// `normalized` is its source text with normalized quotes, and `ancestors`
/// are its ancestors from its parent up (see [`string_literal_writes`]).
///
/// Handles whitespace based on context:
/// - Trims and normalizes whitespace by default
/// - Preserves boundary spaces when required by concat/template context
/// - With `preserve_whitespace`, outputs content unchanged
pub fn write_class_string_literal<'ast, L: Copy>(
    normalized: &str,
    span: Span,
    ancestors: &[Ancestor],
    ctx: ClassContext,
    f: &mut JsFormatter<'ast, L>,
)
    requires
        normalized@.len() >= 2,
        normalized@[0] == '"' || normalized@[0] == '\'',
        old(f)@.context.tailwind_classes.len() + 1 < usize::MAX,
    ensures
        final(f)@ == string_literal_writes(old(f)@, normalized@, span, ancestors@, ctx),
{
    let chars = chars_of(normalized);
    let quote = quote_of(chars[0]);
    // At least two characters: opening quote, closing quote
    let content = vstd::slice::slice_subrange(chars.as_slice(), 1, chars.len() - 1);
    let ghost v = f@;
    let ghost n = v.context.tailwind_classes.len() as usize;

    if ctx.preserve_whitespace {
        f.write_element(token(quote));
        let index = f.context.add_tailwind_class(string_from_chars(content));
        f.write_element(FormatElement::TailwindClass(index));
        f.write_element(token(quote));
        assert(f@.elements =~= v.elements + seq![
            Elem::Token(seq![chars@[0]]),
            Elem::TailwindClass(n),
            Elem::Token(seq![chars@[0]]),
        ]);
        assert(f@.context == push_class(v.context, content@, true));
        return;
    }

    let (start, end) = trim_bounds(content);
    let trimmed = vstd::slice::slice_subrange(content, start, end);

    // Whitespace-only → normalize to single space
    if start == end {
        f.write_element(token(quote));
        write_space_if(f, content.len() > 0);
        f.write_element(token(quote));
        assert(f@.elements =~= v.elements + seq![Elem::Token(seq![chars@[0]])] + space_if(
            content@.len() > 0,
        ) + seq![Elem::Token(seq![chars@[0]])]);
        return;
    }

    let is_jsx_attribute = ancestors.len() > 0 && match &ancestors[0].kind {
        AncestorKind::JSXAttribute { .. } => true,
        _ => false,
    };

    let collapse = can_collapse_whitespace(span, ancestors, f);
    // JSX attribute values always trim their boundary whitespace.
    let (leading_space, trailing_space) = boundary_spaces(
        content,
        collapse,
        !ctx.sort && !is_jsx_attribute,
    );

    let syntax_transformation = match &f.options().wrap_class_names {
        Some(opts) => opts.syntax_transformation,
        None => false,
    };
    // With `syntax_transformation`, a JSX attribute string that has to wrap
    // becomes an expression holding a template instead of wrapping in place.
    if ctx.wrap && is_jsx_attribute && syntax_transformation && is_convertible_class_content(content)
        && !has_html_character_reference(content) {
        write_convertible_class_string(
            ConvertibleDelimiters::jsx_expression(quote),
            trimmed,
            ctx,
            (leading_space, trailing_space),
            true,
            f,
        );
        return;
    }
    // A JSX attribute string may contain newlines and wraps in place;
    // elsewhere wrapping goes through the delimiter conversion.
    if ctx.wrap && !is_jsx_attribute && is_convertible_class_content(content) {
        let indent = wraps_one_level_deeper(span, ancestors);
        write_convertible_class_string(
            ConvertibleDelimiters::template(quote),
            trimmed,
            ctx,
            (leading_space, trailing_space),
            indent,
            f,
        );
        return;
    }

    let index = add_class_content(f, trimmed, ctx);
    let body = marker_elements(index, ctx.wrap && is_jsx_attribute, true);
    if ctx.wrap && is_jsx_attribute {
        f.context.mark_class_wrapped(index);
    }
    f.write_elements(delimited_elements(quote, leading_space, body, trailing_space, quote));
}

// ============================================================================
// Template literals
// ============================================================================

/// Whether `s` holds a quote (`"` or `'`).
pub open spec fn has_quote(s: Seq<char>) -> bool {
    exists|i: int| 0 <= i < s.len() && (#[trigger] s[i] == '"' || s[i] == '\'')
}

/// Whether `s` holds a quote (`"` or `'`).
fn contains_quote(s: &[char]) -> (r: bool)
    ensures
        r == has_quote(s@),
{
    let mut i: usize = 0;
    while i < s.len()
        invariant
            i <= s.len(),
            forall|j: int| 0 <= j < i ==> !(#[trigger] s@[j] == '"' || s@[j] == '\''),
        decreases s.len() - i,
    {
        if s[i] == '"' || s[i] == '\'' {
            return true;
        }
        i += 1;
    }
    false
}

/// What [`try_wrap_convert_template`] does to `v` for the template at `span`
/// (ancestors from its parent up), with `expression_count` expressions and
/// these raw quasis: `None` when it is not eligible (no wrapping class
/// context there; a template with expressions; a single class; content that
/// cannot swap delimiters or holds a quote; whitespace only), else the
/// formatter after the quoted/template best-fitting pair is written.
pub open spec fn template_conversion<L>(
    v: FormatterView<L>,
    span: Span,
    ancestors: Seq<Ancestor>,
    expression_count: usize,
    quasis: Seq<Seq<char>>,
) -> Option<FormatterView<L>> {
    match current_class_context(v.context) {
        None => None,
        Some(top) => {
            let ctx = spec_narrow_class_context(top, span, ancestors, v.context.options);
            if !ctx.wrap || ctx.disabled || ctx.preserve_whitespace {
                None
            } else if expression_count != 0 || quasis.len() != 1 {
                None
            } else {
                let content = quasis[0];
                if !has_ascii_ws(content) || !convertible(content) || has_quote(content) || trim(
                    content,
                ).len() == 0 {
                    None
                } else {
                    let collapse = spec_can_collapse_whitespace(Some(top), span, ancestors);
                    let (lead, trail) = spec_boundary_spaces(content, collapse, !ctx.sort);
                    let quote = v.context.options.quote_style.spec_as_str();
                    Some(
                        convertible_writes(
                            v,
                            quote,
                            seq!['`'],
                            seq!['`'],
                            trim(content),
                            ctx,
                            lead,
                            trail,
                            spec_wraps_one_level_deeper(span, ancestors),
                        ),
                    )
                }
            }
        },
    }
}

/// Writes an untagged, expression-free template literal in a wrapping class
/// context as a quoted/template best-fitting pair (see
/// [`template_conversion`]); `ancestors` are the template's, from its parent
/// up.
///
/// Returns `false` (writing nothing) when the template is not eligible, so
/// the caller falls through to the regular template formatting.
pub fn try_wrap_convert_template<'ast, L: Copy>(
    span: Span,
    ancestors: &[Ancestor],
    expression_count: usize,
    quasis: &[String],
    f: &mut JsFormatter<'ast, L>,
) -> (r: bool)
    requires
        old(f)@.context.tailwind_classes.len() + 1 < usize::MAX,
    ensures
        match template_conversion(old(f)@, span, ancestors@, expression_count, crate::strings::views(quasis@)) {
            None => !r && final(f)@ == old(f)@,
            Some(after) => r && final(f)@ == after,
        },
{
    let top = match f.context().class_context() {
        Some(ctx) => *ctx,
        None => {
            return false;
        },
    };
    let ctx = narrow_class_context(top, span, ancestors, f.options());
    if !ctx.wrap || ctx.disabled || ctx.preserve_whitespace {
        return false;
    }
    if expression_count != 0 || quasis.len() != 1 {
        return false;
    }
    let content = chars_of(quasis[0].as_str());
    assert(crate::strings::views(quasis@)[0] == content@);
    // Multiple classes only (single class strings keep their source form),
    // and the quoted variant must need no re-escaping analysis at all.
    if !crate::strings::contains_ascii_whitespace(content.as_slice()) {
        return false;
    }
    if !is_convertible_class_content(content.as_slice()) || contains_quote(content.as_slice()) {
        return false;
    }
    let (start, end) = trim_bounds(content.as_slice());
    if start == end {
        return false;
    }
    let trimmed = vstd::slice::slice_subrange(content.as_slice(), start, end);

    let collapse = can_collapse_whitespace(span, ancestors, f);
    let (leading_space, trailing_space) = boundary_spaces(content.as_slice(), collapse, !ctx.sort);

    let quote = f.options().quote_style.as_str();
    let indent = wraps_one_level_deeper(span, ancestors);
    write_convertible_class_string(
        ConvertibleDelimiters::template(quote),
        trimmed,
        ctx,
        (leading_space, trailing_space),
        indent,
        f,
    );
    true
}

// ============================================================================
// Template elements
// ============================================================================

/// `i` is the first position of ASCII whitespace in `s`.
pub open spec fn is_first_ascii_ws(s: Seq<char>, i: int) -> bool {
    0 <= i < s.len() && is_ascii_ws(s[i]) && forall|j: int| 0 <= j < i ==> !is_ascii_ws(#[trigger] s[j])
}

/// `i` is the last position of ASCII whitespace in `s`.
pub open spec fn is_last_ascii_ws(s: Seq<char>, i: int) -> bool {
    0 <= i < s.len() && is_ascii_ws(s[i]) && forall|j: int| i < j < s.len() ==> !is_ascii_ws(#[trigger] s[j])
}

/// The first position of ASCII whitespace in `s`, if any.
pub open spec fn first_ascii_ws(s: Seq<char>) -> Option<int> {
    if exists|i: int| is_first_ascii_ws(s, i) {
        Some(choose|i: int| is_first_ascii_ws(s, i))
    } else {
        None
    }
}

/// The last position of ASCII whitespace in `s`, if any.
pub open spec fn last_ascii_ws(s: Seq<char>) -> Option<int> {
    if exists|i: int| is_last_ascii_ws(s, i) {
        Some(choose|i: int| is_last_ascii_ws(s, i))
    } else {
        None
    }
}

/// Where a template element's content splits into prefix, sortable middle
/// and suffix: `(a, b)` with prefix `s[..a]`, sortable `s[a..b]`, suffix
/// `s[b..]`. The prefix is the first class when it touches the previous
/// expression (the quasi is not the first and does not start with
/// whitespace), the suffix the last class when it touches the next one; a
/// quasi without whitespace is one class, which is then the prefix (or, at
/// the first quasi, the suffix).
pub open spec fn template_split(s: Seq<char>, is_first: bool, is_last: bool) -> (int, int) {
    let has_prefix = !is_first && !starts_with_ascii_ws(s);
    let has_suffix = !is_last && !ends_with_ascii_ws(s);
    let prefix_end = if has_prefix {
        match first_ascii_ws(s) {
            Some(i) => Some(i),
            None => Some(s.len() as int),
        }
    } else {
        None
    };
    let suffix_start = if has_suffix {
        match last_ascii_ws(s) {
            Some(i) => Some(i + 1),
            None => Some(0),
        }
    } else {
        None
    };
    match (prefix_end, suffix_start) {
        (Some(p), Some(q)) => if p < q {
            (p, q)
        } else {
            (p, s.len() as int)
        },
        (Some(p), None) => (p, s.len() as int),
        (None, Some(q)) => (0, q),
        (None, None) => (0, s.len() as int),
    }
}

/// The first position of ASCII whitespace in `s`, if any.
fn find_ascii_whitespace(s: &[char]) -> (r: Option<usize>)
    ensures
        match first_ascii_ws(s@) {
            Some(i) => r == Some(i as usize),
            None => r is None,
        },
        r matches Some(k) ==> k < s@.len(),
{
    let mut i: usize = 0;
    while i < s.len()
        invariant
            i <= s.len(),
            forall|j: int| 0 <= j < i ==> !is_ascii_ws(#[trigger] s@[j]),
        decreases s.len() - i,
    {
        if crate::strings::is_ascii_whitespace(s[i]) {
            proof {
                assert(is_first_ascii_ws(s@, i as int));
                let c = choose|c: int| is_first_ascii_ws(s@, c);
                assert(c == i) by {
                    if c < i {
                        assert(!is_ascii_ws(s@[c]));
                    } else if c > i {
                        assert(!is_ascii_ws(s@[i as int]));
                    }
                }
            }
            return Some(i);
        }
        i += 1;
    }
    assert(!exists|c: int| is_first_ascii_ws(s@, c)) by {
        if exists|c: int| is_first_ascii_ws(s@, c) {
            let c = choose|c: int| is_first_ascii_ws(s@, c);
            assert(!is_ascii_ws(s@[c]));
        }
    }
    None
}

/// The last position of ASCII whitespace in `s`, if any.
fn rfind_ascii_whitespace(s: &[char]) -> (r: Option<usize>)
    ensures
        match last_ascii_ws(s@) {
            Some(i) => r == Some(i as usize),
            None => r is None,
        },
        r matches Some(k) ==> k < s@.len(),
{
    let mut i: usize = s.len();
    while i > 0
        invariant
            i <= s.len(),
            forall|j: int| i <= j < s.len() ==> !is_ascii_ws(#[trigger] s@[j]),
        decreases i,
    {
        if crate::strings::is_ascii_whitespace(s[i - 1]) {
            proof {
                let k = i - 1;
                assert(is_last_ascii_ws(s@, k as int));
                let c = choose|c: int| is_last_ascii_ws(s@, c);
                assert(c == k) by {
                    if c < k {
                        assert(!is_ascii_ws(s@[k as int]));
                    } else if c > k {
                        assert(!is_ascii_ws(s@[c]));
                    }
                }
            }
            return Some(i - 1);
        }
        i -= 1;
    }
    assert(!exists|c: int| is_last_ascii_ws(s@, c)) by {
        if exists|c: int| is_last_ascii_ws(s@, c) {
            let c = choose|c: int| is_last_ascii_ws(s@, c);
            assert(!is_ascii_ws(s@[c]));
        }
    }
    None
}

/// Some ASCII whitespace at `j` means there is a first one.
proof fn lemma_first_exists(s: Seq<char>, j: int)
    requires
        0 <= j < s.len(),
        is_ascii_ws(s[j]),
    ensures
        first_ascii_ws(s) is Some,
    decreases j,
{
    if forall|k: int| 0 <= k < j ==> !is_ascii_ws(#[trigger] s[k]) {
        assert(is_first_ascii_ws(s, j));
    } else {
        let k = choose|k: int| 0 <= k < j && is_ascii_ws(#[trigger] s[k]);
        lemma_first_exists(s, k);
    }
}

/// Some ASCII whitespace at `j` means there is a last one.
proof fn lemma_last_exists(s: Seq<char>, j: int)
    requires
        0 <= j < s.len(),
        is_ascii_ws(s[j]),
    ensures
        last_ascii_ws(s) is Some,
    decreases s.len() - j,
{
    if forall|k: int| j < k < s.len() ==> !is_ascii_ws(#[trigger] s[k]) {
        assert(is_last_ascii_ws(s, j));
    } else {
        let k = choose|k: int| j < k < s.len() && is_ascii_ws(#[trigger] s[k]);
        lemma_last_exists(s, k);
    }
}

/// The positions that [`first_ascii_ws`] and [`last_ascii_ws`] give lie in `s`.
proof fn lemma_first_last_in_bounds(s: Seq<char>)
    ensures
        first_ascii_ws(s) matches Some(i) ==> 0 <= i < s.len(),
        last_ascii_ws(s) matches Some(i) ==> 0 <= i < s.len(),
{
    if exists|i: int| is_first_ascii_ws(s, i) {
        let i = choose|i: int| is_first_ascii_ws(s, i);
        assert(is_first_ascii_ws(s, i));
    }
    if exists|i: int| is_last_ascii_ws(s, i) {
        let i = choose|i: int| is_last_ascii_ws(s, i);
        assert(is_last_ascii_ws(s, i));
    }
}

/// Splits template content into prefix, sortable middle and suffix (see
/// [`template_split`]); returns the two split points.
///
/// - **prefix**: First class if it touches previous expression (no leading whitespace)
/// - **suffix**: Last class if it touches next expression (no trailing whitespace)
/// - **sortable**: Everything in between
pub fn split_template_content(content: &[char], is_first: bool, is_last: bool) -> (r: (usize, usize))
    ensures
        r.0 <= r.1 <= content@.len(),
        (r.0 as int, r.1 as int) == template_split(content@, is_first, is_last),
        !has_ascii_ws(content@.take(r.0 as int)),
        !has_ascii_ws(content@.skip(r.1 as int)),
        is_first || starts_with_ascii_ws(content@) ==> r.0 == 0,
        is_last || ends_with_ascii_ws(content@) ==> r.1 == content@.len(),
        !is_first && !starts_with_ascii_ws(content@) ==> r.0 == content@.len() || is_ascii_ws(
            content@[r.0 as int],
        ),
{
    let n = content.len();
    let has_leading_ws = crate::strings::starts_with_ascii_whitespace(content);
    let has_trailing_ws = crate::strings::ends_with_ascii_whitespace(content);

    // Determine what to ignore (not sort)
    let has_prefix = !is_first && !has_leading_ws;
    let has_suffix = !is_last && !has_trailing_ws;

    proof {
        lemma_first_last_in_bounds(content@);
    }
    // Find split points
    let prefix_end = if has_prefix {
        match find_ascii_whitespace(content) {
            Some(i) => Some(i),
            // One class, touching the previous expression
            None => Some(n),
        }
    } else {
        None
    };
    let suffix_start = if has_suffix {
        match rfind_ascii_whitespace(content) {
            Some(i) => Some(i + 1),
            // One class, touching the next expression
            None => Some(0),
        }
    } else {
        None
    };
    proof {
        let c = content@;
        if let Some(i) = first_ascii_ws(c) {
            assert(is_first_ascii_ws(c, i));
        } else {
            assert forall|j: int| 0 <= j < c.len() implies !is_ascii_ws(#[trigger] c[j]) by {
                if is_ascii_ws(c[j]) {
                    lemma_first_exists(c, j);
                }
            }
        }
        if let Some(i) = last_ascii_ws(c) {
            assert(is_last_ascii_ws(c, i));
        } else {
            assert forall|j: int| 0 <= j < c.len() implies !is_ascii_ws(#[trigger] c[j]) by {
                if is_ascii_ws(c[j]) {
                    lemma_last_exists(c, j);
                }
            }
        }
    }
    match (prefix_end, suffix_start) {
        // Both prefix and suffix
        (Some(pe), Some(ss)) => if pe < ss {
            (pe, ss)
        } else {
            (pe, n)
        },
        // Only prefix (suffix_start overlaps or doesn't exist)
        (Some(pe), None) => (pe, n),
        // Only suffix
        (None, Some(ss)) => (0, ss),
        // Neither
        (None, None) => (0, n),
    }
}

/// A text element holding `s`, when `s` is not empty.
pub open spec fn text_if_any(s: Seq<char>) -> Seq<Elem> {
    if s.len() > 0 {
        seq![Elem::Text(s)]
    } else {
        seq![]
    }
}

/// Whitespace collapse rules for a template element at `element_span`: only
/// the first and last quasi can be affected by the context, which is that of
/// the template (whose ancestors, from its parent up, are `template_ancestors`).
pub open spec fn spec_can_collapse_whitespace_template(
    class_context: Option<ClassContext>,
    element_span: Span,
    template_ancestors: Seq<Ancestor>,
    is_first: bool,
    is_last: bool,
) -> CollapseWhitespace {
    if !is_first && !is_last {
        CollapseWhitespace { start: true, end: true }
    } else {
        spec_can_collapse_whitespace(class_context, element_span, template_ancestors)
    }
}

/// Determines whitespace collapse rules for a template element based on
/// binary expression context (see [`spec_can_collapse_whitespace_template`]).
fn can_collapse_whitespace_template<'ast, L: Copy>(
    element_span: Span,
    template_ancestors: &[Ancestor],
    is_first: bool,
    is_last: bool,
    f: &JsFormatter<'ast, L>,
) -> (r: CollapseWhitespace)
    ensures
        r == spec_can_collapse_whitespace_template(
            current_class_context(f@.context),
            element_span,
            template_ancestors@,
            is_first,
            is_last,
        ),
{
    // Only first/last quasis can be affected by binary expression context
    if !is_first && !is_last {
        return CollapseWhitespace::new();
    }
    can_collapse_whitespace(element_span, template_ancestors, f)
}

/// What [`write_class_template_element`] does to `v` for a quasi with source
/// text `content` at `element_span`, whose parent is `parent` (a template
/// literal, whose ancestors from its parent up are `template_ancestors`), in
/// class context `ctx` (which carries the quasi's position):
/// the prefix and suffix that touch the neighbouring expressions stay as
/// text; the sortable middle becomes a class marker, with the spaces that
/// separate it from its neighbours, or a single space when it is whitespace
/// only; with `preserve_whitespace` the middle is collected as written.
pub open spec fn template_element_writes<L>(
    v: FormatterView<L>,
    content: Seq<char>,
    element_span: Span,
    parent: Ancestor,
    template_ancestors: Seq<Ancestor>,
    ctx: ClassContext,
) -> FormatterView<L> {
    let is_first = ctx.is_first_quasi;
    let is_last = ctx.is_last_quasi;
    let (a, b) = template_split(content, is_first, is_last);
    let prefix = content.take(a);
    let sortable = content.subrange(a, b);
    let suffix = content.skip(b);
    let n = v.context.tailwind_classes.len() as usize;
    if ctx.preserve_whitespace {
        FormatterView {
            context: push_class(v.context, sortable, true),
            elements: v.elements + text_if_any(prefix) + seq![Elem::TailwindClass(n)] + text_if_any(
                suffix,
            ),
            ..v
        }
    } else if trim(sortable).len() == 0 {
        FormatterView {
            elements: v.elements + text_if_any(prefix) + space_if(sortable.len() > 0) + text_if_any(
                suffix,
            ),
            ..v
        }
    } else {
        let collapse = spec_can_collapse_whitespace_template(
            current_class_context(v.context),
            element_span,
            template_ancestors,
            is_first,
            is_last,
        );
        let need_leading = !is_first || prefix.len() > 0 || (starts_with_ascii_ws(sortable)
            && !collapse.start);
        let need_trailing = !is_last || suffix.len() > 0 || (ends_with_ascii_ws(sortable)
            && !collapse.end);
        let indent = parent.kind is TemplateLiteral && spec_wraps_one_level_deeper(
            parent.span,
            template_ancestors,
        );
        FormatterView {
            context: mark_wrapped(
                push_class(v.context, class_content(trim(sortable), ctx.wrap), ctx.sort),
                n,
                ctx.wrap,
            ),
            elements: v.elements + text_if_any(prefix) + space_if(need_leading) + marker_elems(
                n,
                ctx.wrap,
                indent,
            ) + space_if(need_trailing) + text_if_any(suffix),
            ..v
        }
    }
}

/// Writes `s` as a text element, when it is not empty.
fn write_text_if_any<'ast, L: Copy>(f: &mut JsFormatter<'ast, L>, s: &[char])
    ensures
        final(f)@ == (FormatterView { elements: old(f)@.elements + text_if_any(s@), ..old(f)@ }),
{
    if s.len() > 0 {
        f.write_element(FormatElement::Text(string_from_chars(s)));
    }
    assert(f@.elements =~= old(f)@.elements + text_if_any(s@));
}

/// Writes a template element (quasi) holding class names (sorted and/or
/// wrapped); see [`template_element_writes`].
///
/// Template elements need special handling because classes can "touch"
/// adjacent expressions without whitespace separation:
///
/// ```text
/// `${variant}items-center p-4`
/// //         ^^^^^^^^^^^^ "items-center" touches ${variant}, not sorted
/// //                      ^^^ "p-4" is separated by space, will be sorted
/// ```
pub fn write_class_template_element<'ast, L: Copy>(
    content: &str,
    element_span: Span,
    parent: &Ancestor,
    template_ancestors: &[Ancestor],
    ctx: ClassContext,
    f: &mut JsFormatter<'ast, L>,
)
    requires
        old(f)@.context.tailwind_classes.len() < usize::MAX,
    ensures
        final(f)@ == template_element_writes(
            old(f)@,
            content@,
            element_span,
            *parent,
            template_ancestors@,
            ctx,
        ),
{
    let chars = chars_of(content);
    let content = chars.as_slice();
    let ghost v = f@;
    let ghost n = v.context.tailwind_classes.len() as usize;

    // Get quasi position from context (set when the quasi was written)
    let is_first = ctx.is_first_quasi;
    let is_last = ctx.is_last_quasi;

    // Split into prefix/sortable/suffix. Classes glued to an adjacent `${...}`
    // expression stay in place even when preserving whitespace.
    let (a, b) = split_template_content(content, is_first, is_last);
    let prefix = vstd::slice::slice_subrange(content, 0, a);
    let sortable = vstd::slice::slice_subrange(content, a, b);
    let suffix = vstd::slice::slice_subrange(content, b, content.len());
    assert(prefix@ =~= content@.take(a as int));
    assert(suffix@ =~= content@.skip(b as int));

    // Write prefix (unsorted class touching previous expression)
    write_text_if_any(f, prefix);

    if ctx.preserve_whitespace {
        // Whitespace (including whitespace-only content) round-trips through the sorter unchanged
        let index = f.context.add_tailwind_class(string_from_chars(sortable));
        f.write_element(FormatElement::TailwindClass(index));
        write_text_if_any(f, suffix);
        assert(f@.elements =~= v.elements + text_if_any(prefix@) + seq![Elem::TailwindClass(n)]
            + text_if_any(suffix@));
        assert(f@.context == push_class(v.context, sortable@, true));
        return;
    }
    let (start, end) = trim_bounds(sortable);
    if start == end {
        // Whitespace-only → normalize to single space
        write_space_if(f, sortable.len() > 0);
        write_text_if_any(f, suffix);
        assert(f@.elements =~= v.elements + text_if_any(prefix@) + space_if(sortable@.len() > 0)
            + text_if_any(suffix@));
        return;
    }
    // Check if binary expression context requires preserving boundary whitespace
    let collapse = can_collapse_whitespace_template(element_span, template_ancestors, is_first, is_last, f);
    let has_leading_ws = crate::strings::starts_with_ascii_whitespace(sortable);
    let has_trailing_ws = crate::strings::ends_with_ascii_whitespace(sortable);

    // Leading space: required if not at start of template, or if binary context requires it
    let need_leading = !is_first || prefix.len() > 0 || (has_leading_ws && !collapse.start);
    write_space_if(f, need_leading);

    // Template literals may contain literal newlines, so the sortable
    // middle section can wrap; the boundary prefix/suffix and the
    // separating spaces stay as literal text outside the marker.
    let trimmed = vstd::slice::slice_subrange(sortable, start, end);
    let index = add_class_content(f, trimmed, ctx);
    let indent = match &parent.kind {
        AncestorKind::TemplateLiteral => wraps_one_level_deeper(parent.span, template_ancestors),
        _ => false,
    };
    write_class_marker(f, index, ctx.wrap, indent);

    // Trailing space: required if not at end of template, or if binary context requires it
    let need_trailing = !is_last || suffix.len() > 0 || (has_trailing_ws && !collapse.end);
    write_space_if(f, need_trailing);

    // Write suffix (unsorted class touching next expression)
    write_text_if_any(f, suffix);
    assert(f@.elements =~= v.elements + text_if_any(prefix@) + space_if(need_leading) + marker_elems(
        n,
        ctx.wrap,
        indent,
    ) + space_if(need_trailing) + text_if_any(suffix@));
}

// ============================================================================
// Detection
// ============================================================================

/// The class context in which a string literal with source text `text` at
/// `span` (ancestors from its parent up) holds classes to sort or wrap: the
/// current, not disabled, class context when the string holds whitespace
/// (so more than one class), with wrapping turned off outside a class
/// position; `None` when neither sorting nor wrapping remains.
pub open spec fn spec_class_context_for_string_literal(
    class_context: Option<ClassContext>,
    text: Seq<char>,
    span: Span,
    ancestors: Seq<Ancestor>,
    options: JsFormatOptions,
) -> Option<ClassContext> {
    match class_context {
        Some(ctx) => if !ctx.disabled && has_ascii_ws(text) {
            let narrowed = spec_narrow_class_context(ctx, span, ancestors, options);
            if narrowed.active() {
                Some(narrowed)
            } else {
                None
            }
        } else {
            None
        },
        None => None,
    }
}

/// Returns the class context if the string literal whose source text is
/// `text`, at `span` with these ancestors (from its parent up), holds classes
/// to sort or wrap (see [`spec_class_context_for_string_literal`]).
pub fn class_context_for_string_literal<'ast, L: Copy>(
    text: &str,
    span: Span,
    ancestors: &[Ancestor],
    f: &JsFormatter<'ast, L>,
) -> (r: Option<ClassContext>)
    ensures
        r == spec_class_context_for_string_literal(
            current_class_context(f@.context),
            text@,
            span,
            ancestors@,
            f@.context.options,
        ),
{
    let ctx = match f.context().class_context() {
        Some(ctx) => *ctx,
        None => {
            return None;
        },
    };
    if ctx.disabled {
        return None;
    }
    let chars = chars_of(text);
    if !crate::strings::contains_ascii_whitespace(chars.as_slice()) {
        return None;
    }
    let narrowed = narrow_class_context(ctx, span, ancestors, f.options());
    if narrowed.is_active() {
        Some(narrowed)
    } else {
        None
    }
}

/// Whether a JSX expression container holds a string literal that
/// [`write_class_string_literal`] writes as a quoted/template pair: the
/// container holds a string literal (source text `string_text`, quotes
/// included) with whitespace whose content can swap delimiters and is not
/// whitespace only, in a wrapping (not disabled, not whitespace-preserving)
/// class context, and it
/// is the value of an attribute (`parent`) that `wrap_class_names` targets.
pub open spec fn spec_is_wrap_convertible_string_container(
    class_context: Option<ClassContext>,
    string_text: Option<Seq<char>>,
    parent: Ancestor,
    options: JsFormatOptions,
) -> bool {
    match (string_text, class_context) {
        (Some(text), Some(ctx)) => {
            &&& ctx.wrap && !ctx.disabled && !ctx.preserve_whitespace
            &&& match parent.kind {
                AncestorKind::JSXAttribute { name } => match spec_class_attribute_context(name, options) {
                    Some(attribute_ctx) => attribute_ctx.wrap,
                    None => false,
                },
                _ => false,
            }
            &&& has_ascii_ws(text)
            &&& convertible(text.subrange(1, text.len() - 1))
            &&& trim(text.subrange(1, text.len() - 1)).len() > 0
        },
        _ => false,
    }
}

/// Whether a JSX expression container holds a string literal that
/// [`write_class_string_literal`] writes as a quoted/template pair (see
/// [`spec_is_wrap_convertible_string_container`]); `string_text` is the
/// source text of the string literal the container holds, if it holds one,
/// and `parent` the container's parent.
///
/// Such containers hug their braces like template literals do
/// (`` className={`...`} ``), since the wrapped form is a template.
pub fn is_wrap_convertible_string_container<'ast, L: Copy>(
    string_text: Option<&str>,
    parent: &Ancestor,
    f: &JsFormatter<'ast, L>,
) -> (r: bool)
    requires
        string_text matches Some(text) ==> text@.len() >= 2,
    ensures
        r == spec_is_wrap_convertible_string_container(
            current_class_context(f@.context),
            match string_text {
                Some(text) => Some(text@),
                None => None,
            },
            *parent,
            f@.context.options,
        ),
{
    let string_text = match string_text {
        Some(text) => text,
        None => {
            return false;
        },
    };
    let ctx = match f.context().class_context() {
        Some(ctx) => *ctx,
        None => {
            return false;
        },
    };
    if !ctx.wrap || ctx.disabled || ctx.preserve_whitespace {
        return false;
    }
    // The container must be a class attribute's own value: an attribute of an
    // element nested in a class call (`clsx(<div id={"a b"} />)`) never wraps.
    let name = match &parent.kind {
        AncestorKind::JSXAttribute { name } => name,
        _ => {
            return false;
        },
    };
    match class_attribute_context(name, f.options()) {
        Some(attribute_ctx) => if !attribute_ctx.wrap {
            return false;
        },
        None => {
            return false;
        },
    }
    let chars = chars_of(string_text);
    let content = vstd::slice::slice_subrange(chars.as_slice(), 1, chars.len() - 1);
    // A whitespace-only string is written as a single space, never converted.
    let (start, end) = trim_bounds(content);
    crate::strings::contains_ascii_whitespace(chars.as_slice()) && is_convertible_class_content(content)
        && start < end
}

// ============================================================================
// Laws
// ============================================================================

/// The class content of a marker holds the same classes, in the same order,
/// as the class string it was collected from.
pub proof fn lemma_class_content_keeps_classes(trimmed: Seq<char>, wrap: bool)
    ensures
        split_ascii_whitespace(class_content(trimmed, wrap)) == split_ascii_whitespace(trimmed),
{
    if wrap {
        crate::strings::lemma_split_words(trimmed);
        crate::strings::lemma_split_join(split_ascii_whitespace(trimmed));
    }
}

/// In a wrapping context, the class content of a marker is a legal
/// single-line string whose classes are separated by single spaces: its
/// only whitespace is plain spaces, and no two of them are adjacent,
/// whatever runs, newlines or tabs (from a previous wrap) the source held.
pub proof fn lemma_wrapped_class_content_single_line(trimmed: Seq<char>)
    ensures
        !has_other_ascii_ws(class_content(trimmed, true)),
        class_content(trimmed, true) == join_with_space(
            split_ascii_whitespace(class_content(trimmed, true)),
        ),
{
    let words = split_ascii_whitespace(trimmed);
    crate::strings::lemma_split_words(trimmed);
    assert forall|i: int| 0 <= i < words.len() implies !has_ascii_ws(#[trigger] words[i]) by {
        assert(crate::strings::is_word(words[i]));
    }
    crate::strings::lemma_join_only_spaces(words);
    lemma_class_content_keeps_classes(trimmed, true);
}

/// Collecting a class and marking the new class as wrapping keep every
/// recorded index pointing at a collected class.
proof fn lemma_push_class_valid<L>(c: ContextView<L>, content: Seq<char>, sort: bool)
    requires
        crate::context::class_indices_valid(c),
    ensures
        crate::context::class_indices_valid(push_class(c, content, sort)),
        push_class(c, content, sort).tailwind_classes.len() == c.tailwind_classes.len() + 1,
{
    let c2 = push_class(c, content, sort);
    assert forall|k: int| 0 <= k < c2.unsorted_class_indices.len() implies #[trigger] c2.unsorted_class_indices[k]
        < c2.tailwind_classes.len() by {
        if k < c.unsorted_class_indices.len() {
            assert(c2.unsorted_class_indices[k] == c.unsorted_class_indices[k]);
        }
    }
}

proof fn lemma_mark_wrapped_valid<L>(c: ContextView<L>, index: usize, wrap: bool)
    requires
        crate::context::class_indices_valid(c),
        wrap ==> index < c.tailwind_classes.len(),
    ensures
        crate::context::class_indices_valid(mark_wrapped(c, index, wrap)),
        mark_wrapped(c, index, wrap).tailwind_classes == c.tailwind_classes,
{
    let c2 = mark_wrapped(c, index, wrap);
    assert forall|k: int| 0 <= k < c2.wrapped_class_indices.len() implies #[trigger] c2.wrapped_class_indices[k]
        < c2.tailwind_classes.len() by {
        if k < c.wrapped_class_indices.len() {
            assert(c2.wrapped_class_indices[k] == c.wrapped_class_indices[k]);
        }
    }
}

/// The quoted form of a convertible class string gets its own class entry
/// that never wraps: only the template form's entry is marked as wrapping,
/// so a buffer that prints the quoted form without flat mode cannot break
/// inside the quotes.
pub proof fn lemma_quoted_entry_never_wraps<L>(
    v: FormatterView<L>,
    quote: Seq<char>,
    open: Seq<char>,
    close: Seq<char>,
    trimmed: Seq<char>,
    ctx: ClassContext,
    lead: bool,
    trail: bool,
    indent: bool,
)
    requires
        crate::context::class_indices_valid(v.context),
        v.context.tailwind_classes.len() + 1 < usize::MAX,
    ensures
        ({
            let after = convertible_writes(v, quote, open, close, trimmed, ctx, lead, trail, indent);
            let n = v.context.tailwind_classes.len() as usize;
            &&& !after.context.wrapped_class_indices.contains(n)
            &&& after.context.wrapped_class_indices.contains((n + 1) as usize)
            &&& after.arena[v.arena.len() as int].contains(Elem::TailwindClass(n))
            &&& after.context.tailwind_classes[n as int] == after.context.tailwind_classes[n + 1]
        }),
{
    let after = convertible_writes(v, quote, open, close, trimmed, ctx, lead, trail, indent);
    let n = v.context.tailwind_classes.len() as usize;
    let w = v.context.wrapped_class_indices;
    assert(after.context.wrapped_class_indices == w.push((n + 1) as usize));
    assert(!after.context.wrapped_class_indices.contains(n)) by {
        if after.context.wrapped_class_indices.contains(n) {
            let k = choose|k: int| 0 <= k < w.push((n + 1) as usize).len() && #[trigger] w.push((n + 1) as usize)[k] == n;
            if k < w.len() {
                assert(w[k] < v.context.tailwind_classes.len());
            }
        }
    }
    assert(after.context.wrapped_class_indices[w.len() as int] == (n + 1) as usize);
    let flat = delimited(quote, lead, seq![Elem::TailwindClass(n)], trail, quote).push(Elem::MeasureAlone);
    assert(after.arena[v.arena.len() as int] == flat);
    let k: int = 1 + space_if(lead).len() as int;
    assert(flat[k] == Elem::TailwindClass(n));
}

/// Writing a class string literal keeps every recorded unsorted or wrapping
/// index pointing at a collected class.
pub proof fn lemma_string_literal_keeps_indices_valid<L>(
    v: FormatterView<L>,
    normalized: Seq<char>,
    span: Span,
    ancestors: Seq<Ancestor>,
    ctx: ClassContext,
)
    requires
        crate::context::class_indices_valid(v.context),
        v.context.tailwind_classes.len() + 1 < usize::MAX,
    ensures
        crate::context::class_indices_valid(string_literal_writes(v, normalized, span, ancestors, ctx).context),
{
    let content = normalized.subrange(1, normalized.len() - 1);
    let trimmed = trim(content);
    let n = v.context.tailwind_classes.len() as usize;
    lemma_push_class_valid(v.context, content, true);
    lemma_push_class_valid(v.context, class_content(trimmed, ctx.wrap), ctx.sort);
    let c1 = push_class(v.context, class_content(trimmed, ctx.wrap), ctx.sort);
    lemma_push_class_valid(c1, class_content(trimmed, ctx.wrap), ctx.sort);
    let c2 = push_class(c1, class_content(trimmed, ctx.wrap), ctx.sort);
    lemma_mark_wrapped_valid(c2, (n + 1) as usize, true);
    lemma_mark_wrapped_valid(c1, n, in_jsx_attribute(ancestors) && ctx.wrap);
}

/// Converting a template literal keeps every recorded unsorted or wrapping
/// index pointing at a collected class.
pub proof fn lemma_template_conversion_keeps_indices_valid<L>(
    v: FormatterView<L>,
    span: Span,
    ancestors: Seq<Ancestor>,
    expression_count: usize,
    quasis: Seq<Seq<char>>,
)
    requires
        crate::context::class_indices_valid(v.context),
        v.context.tailwind_classes.len() + 1 < usize::MAX,
    ensures
        template_conversion(v, span, ancestors, expression_count, quasis) matches Some(after)
            ==> crate::context::class_indices_valid(after.context),
{
    if let Some(top) = current_class_context(v.context) {
        let ctx = spec_narrow_class_context(top, span, ancestors, v.context.options);
        if quasis.len() == 1 {
            let content = class_content(trim(quasis[0]), ctx.wrap);
            let n = v.context.tailwind_classes.len() as usize;
            lemma_push_class_valid(v.context, content, ctx.sort);
            let c1 = push_class(v.context, content, ctx.sort);
            lemma_push_class_valid(c1, content, ctx.sort);
            lemma_mark_wrapped_valid(push_class(c1, content, ctx.sort), (n + 1) as usize, true);
        }
    }
}

/// Writing a class template element keeps every recorded unsorted or
/// wrapping index pointing at a collected class.
pub proof fn lemma_template_element_keeps_indices_valid<L>(
    v: FormatterView<L>,
    content: Seq<char>,
    element_span: Span,
    parent: Ancestor,
    template_ancestors: Seq<Ancestor>,
    ctx: ClassContext,
)
    requires
        crate::context::class_indices_valid(v.context),
        v.context.tailwind_classes.len() < usize::MAX,
    ensures
        crate::context::class_indices_valid(
            template_element_writes(v, content, element_span, parent, template_ancestors, ctx).context,
        ),
{
    let (a, b) = template_split(content, ctx.is_first_quasi, ctx.is_last_quasi);
    let sortable = content.subrange(a, b);
    let n = v.context.tailwind_classes.len() as usize;
    lemma_push_class_valid(v.context, sortable, true);
    lemma_push_class_valid(v.context, class_content(trim(sortable), ctx.wrap), ctx.sort);
    lemma_mark_wrapped_valid(
        push_class(v.context, class_content(trim(sortable), ctx.wrap), ctx.sort),
        n,
        ctx.wrap,
    );
}

/// A JSX expression container that [`is_wrap_convertible_string_container`]
/// accepts holds a string that [`write_class_string_literal`] writes as a
/// quoted/template best-fitting pair, in the class context that
/// [`class_context_for_string_literal`] gives it: the string's ancestors are
/// the container and then the attribute. This holds when the string is
/// written as it stands in the source (its normalized text is its source
/// text).
pub proof fn lemma_convertible_container_is_converted<L>(
    v: FormatterView<L>,
    text: Seq<char>,
    span: Span,
    container: Ancestor,
    attribute: Ancestor,
)
    requires
        text.len() >= 2,
        text[0] == '"' || text[0] == '\'',
        container.kind is JSXExpressionContainer,
        spec_is_wrap_convertible_string_container(
            current_class_context(v.context),
            Some(text),
            attribute,
            v.context.options,
        ),
    ensures
        ({
            let ancestors = seq![container, attribute];
            let ctx = spec_class_context_for_string_literal(
                current_class_context(v.context),
                text,
                span,
                ancestors,
                v.context.options,
            );
            &&& ctx is Some
            &&& string_literal_writes(v, text, span, ancestors, ctx.unwrap()).elements == v.elements.push(
                Elem::BestFitting(seq![v.arena.len() as usize, (v.arena.len() + 1) as usize]),
            )
        }),
{
    let ancestors = seq![container, attribute];
    let top = current_class_context(v.context).unwrap();
    assert(ancestors.drop_first() =~= seq![attribute]);
    assert(seq![attribute][0] == attribute);
    assert(top.wrap);
    assert(spec_narrow_class_context(top, container.span, seq![attribute], v.context.options) == top);
    assert(spec_narrow_class_context(top, span, ancestors, v.context.options) == top);
}

/// Elements that reference no arena slot.
pub open spec fn plain(s: Seq<Elem>) -> bool {
    forall|i: int| 0 <= i < s.len() ==> #[trigger] refs_below(s[i], 0)
}

/// Concatenating elements that reference no slot.
proof fn lemma_plain_add(s1: Seq<Elem>, s2: Seq<Elem>)
    requires
        plain(s1),
        plain(s2),
    ensures
        plain(s1 + s2),
{
    assert forall|i: int| 0 <= i < (s1 + s2).len() implies #[trigger] refs_below((s1 + s2)[i], 0) by {
        if i < s1.len() {
            assert((s1 + s2)[i] == s1[i]);
        } else {
            assert((s1 + s2)[i] == s2[i - s1.len()]);
        }
    }
}

/// The pieces that the writers put around a marker reference no slot.
proof fn lemma_pieces_plain(
    open: Seq<char>,
    lead: bool,
    index: usize,
    wrap: bool,
    indent: bool,
    trail: bool,
    close: Seq<char>,
    s: Seq<char>,
)
    ensures
        plain(space_if(lead)),
        plain(text_if_any(s)),
        plain(marker_elems(index, wrap, indent)),
        plain(delimited(open, lead, marker_elems(index, wrap, indent), trail, close)),
        plain(seq![Elem::TailwindClass(index)]),
        plain(delimited(open, lead, seq![Elem::TailwindClass(index)], trail, close).push(Elem::MeasureAlone)),
{
    let t = seq![Elem::Token(open)];
    let c = seq![Elem::Token(close)];
    assert(plain(t));
    assert(plain(c));
    assert(plain(space_if(lead)));
    assert(plain(space_if(trail)));
    assert(plain(marker_elems(index, wrap, indent)));
    assert(plain(seq![Elem::TailwindClass(index)]));
    lemma_plain_add(t, space_if(lead));
    lemma_plain_add(t + space_if(lead), marker_elems(index, wrap, indent));
    lemma_plain_add(t + space_if(lead) + marker_elems(index, wrap, indent), space_if(trail));
    lemma_plain_add(t + space_if(lead) + marker_elems(index, wrap, indent) + space_if(trail), c);
    lemma_plain_add(t + space_if(lead), seq![Elem::TailwindClass(index)]);
    lemma_plain_add(t + space_if(lead) + seq![Elem::TailwindClass(index)], space_if(trail));
    lemma_plain_add(t + space_if(lead) + seq![Elem::TailwindClass(index)] + space_if(trail), c);
    let d = delimited(open, lead, seq![Elem::TailwindClass(index)], trail, close);
    lemma_plain_add(d, seq![Elem::MeasureAlone]);
    assert(d.push(Elem::MeasureAlone) =~= d + seq![Elem::MeasureAlone]);
}

/// Appending elements that reference no slot keeps the document well formed.
proof fn lemma_append_plain<L>(v: FormatterView<L>, p: Seq<Elem>)
    requires
        document_wf(v),
        plain(p),
    ensures
        document_wf(FormatterView { elements: v.elements + p, ..v }),
{
    let s = v.elements + p;
    assert forall|i: int| 0 <= i < s.len() implies #[trigger] refs_below(s[i], v.arena.len() as int) by {
        if i < v.elements.len() {
            assert(s[i] == v.elements[i]);
        } else {
            assert(s[i] == p[i - v.elements.len()]);
            assert(refs_below(p[i - v.elements.len()], 0));
        }
    }
}

/// The quoted/template pair keeps the document well formed: its two slots
/// reference no slot, and the best-fitting element references just them.
proof fn lemma_convertible_writes_wf<L>(
    v: FormatterView<L>,
    quote: Seq<char>,
    open: Seq<char>,
    close: Seq<char>,
    trimmed: Seq<char>,
    ctx: ClassContext,
    lead: bool,
    trail: bool,
    indent: bool,
)
    requires
        document_wf(v),
        v.arena.len() + 2 <= usize::MAX,
        v.context.tailwind_classes.len() + 1 < usize::MAX,
    ensures
        document_wf(convertible_writes(v, quote, open, close, trimmed, ctx, lead, trail, indent)),
{
    let after = convertible_writes(v, quote, open, close, trimmed, ctx, lead, trail, indent);
    let n = v.context.tailwind_classes.len();
    lemma_pieces_plain(quote, lead, n as usize, false, false, trail, quote, seq![]);
    lemma_pieces_plain(open, lead, (n + 1) as usize, true, indent, trail, close, seq![]);
    let a = v.arena;
    let flat = delimited(quote, lead, seq![Elem::TailwindClass(n as usize)], trail, quote).push(Elem::MeasureAlone);
    let wrapped = delimited(open, lead, marker_elems((n + 1) as usize, true, indent), trail, close);
    assert(after.arena == a.push(flat).push(wrapped));
    assert forall|k: int| 0 <= k < after.arena.len() implies seq_refs_below(#[trigger] after.arena[k], k) by {
        if k < a.len() {
            assert(after.arena[k] == a[k]);
        } else if k == a.len() {
            assert(after.arena[k] == flat);
            assert forall|i: int| 0 <= i < flat.len() implies refs_below(#[trigger] flat[i], k) by {
                assert(refs_below(flat[i], 0));
            }
        } else {
            assert(after.arena[k] == wrapped);
            assert forall|i: int| 0 <= i < wrapped.len() implies refs_below(#[trigger] wrapped[i], k) by {
                assert(refs_below(wrapped[i], 0));
            }
        }
    }
    let e = Elem::BestFitting(seq![a.len() as usize, (a.len() + 1) as usize]);
    assert(refs_below(e, after.arena.len() as int));
    assert forall|i: int| 0 <= i < after.elements.len() implies #[trigger] refs_below(
        after.elements[i],
        after.arena.len() as int,
    ) by {
        if i < v.elements.len() {
            assert(after.elements[i] == v.elements[i]);
            assert(refs_below(v.elements[i], a.len() as int));
        }
    }
}

/// Writing a class string literal keeps the document well formed.
pub proof fn lemma_string_literal_keeps_document_wf<L>(
    v: FormatterView<L>,
    normalized: Seq<char>,
    span: Span,
    ancestors: Seq<Ancestor>,
    ctx: ClassContext,
)
    requires
        document_wf(v),
        v.arena.len() + 2 <= usize::MAX,
        v.context.tailwind_classes.len() + 1 < usize::MAX,
    ensures
        document_wf(string_literal_writes(v, normalized, span, ancestors, ctx)),
{
    let quote = seq![normalized[0]];
    let content = normalized.subrange(1, normalized.len() - 1);
    let trimmed = trim(content);
    let n = v.context.tailwind_classes.len() as usize;
    let is_jsx = in_jsx_attribute(ancestors);
    if ctx.preserve_whitespace {
        let p = seq![Elem::Token(quote), Elem::TailwindClass(n), Elem::Token(quote)];
        assert(plain(p));
        lemma_append_plain(v, p);
    } else if trimmed.len() == 0 {
        let t = seq![Elem::Token(quote)];
        assert(plain(t));
        lemma_pieces_plain(quote, content.len() > 0, n, false, false, false, quote, seq![]);
        lemma_plain_add(t, space_if(content.len() > 0));
        lemma_plain_add(t + space_if(content.len() > 0), t);
        lemma_append_plain(v, t + space_if(content.len() > 0) + t);
        assert(v.elements + (t + space_if(content.len() > 0) + t) =~= v.elements + t + space_if(
            content.len() > 0,
        ) + t);
    } else {
        let collapse = spec_can_collapse_whitespace(current_class_context(v.context), span, ancestors);
        let (lead, trail) = spec_boundary_spaces(content, collapse, !ctx.sort && !is_jsx);
        let ind = spec_wraps_one_level_deeper(span, ancestors);
        lemma_convertible_writes_wf(v, quote, seq!['{', '`'], seq!['`', '}'], trimmed, ctx, lead, trail, true);
        lemma_convertible_writes_wf(v, quote, seq!['`'], seq!['`'], trimmed, ctx, lead, trail, ind);
        lemma_pieces_plain(quote, lead, n, ctx.wrap && is_jsx, true, trail, quote, seq![]);
        lemma_append_plain(v, delimited(quote, lead, marker_elems(n, ctx.wrap && is_jsx, true), trail, quote));
    }
}

/// Converting a template literal keeps the document well formed.
pub proof fn lemma_template_conversion_keeps_document_wf<L>(
    v: FormatterView<L>,
    span: Span,
    ancestors: Seq<Ancestor>,
    expression_count: usize,
    quasis: Seq<Seq<char>>,
)
    requires
        document_wf(v),
        v.arena.len() + 2 <= usize::MAX,
        v.context.tailwind_classes.len() + 1 < usize::MAX,
    ensures
        template_conversion(v, span, ancestors, expression_count, quasis) matches Some(after)
            ==> document_wf(after),
{
    if let Some(top) = current_class_context(v.context) {
        let ctx = spec_narrow_class_context(top, span, ancestors, v.context.options);
        if quasis.len() == 1 {
            let content = quasis[0];
            let collapse = spec_can_collapse_whitespace(Some(top), span, ancestors);
            let (lead, trail) = spec_boundary_spaces(content, collapse, !ctx.sort);
            lemma_convertible_writes_wf(
                v,
                v.context.options.quote_style.spec_as_str(),
                seq!['`'],
                seq!['`'],
                trim(content),
                ctx,
                lead,
                trail,
                spec_wraps_one_level_deeper(span, ancestors),
            );
        }
    }
}

/// Appending three runs of elements that reference no slot keeps the
/// document well formed.
proof fn lemma_append_plain3<L>(v: FormatterView<L>, p1: Seq<Elem>, p2: Seq<Elem>, p3: Seq<Elem>)
    requires
        document_wf(v),
        plain(p1),
        plain(p2),
        plain(p3),
    ensures
        document_wf(FormatterView { elements: v.elements + p1 + p2 + p3, ..v }),
{
    lemma_plain_add(p1, p2);
    lemma_plain_add(p1 + p2, p3);
    lemma_append_plain(v, p1 + p2 + p3);
    assert(v.elements + (p1 + p2 + p3) =~= v.elements + p1 + p2 + p3);
}

/// Writing a class template element keeps the document well formed.
#[verifier::rlimit(30)]
pub proof fn lemma_template_element_keeps_document_wf<L>(
    v: FormatterView<L>,
    content: Seq<char>,
    element_span: Span,
    parent: Ancestor,
    template_ancestors: Seq<Ancestor>,
    ctx: ClassContext,
)
    requires
        document_wf(v),
    ensures
        document_wf(template_element_writes(v, content, element_span, parent, template_ancestors, ctx)),
{
    let is_first = ctx.is_first_quasi;
    let is_last = ctx.is_last_quasi;
    let (a, b) = template_split(content, is_first, is_last);
    let prefix = content.take(a);
    let sortable = content.subrange(a, b);
    let suffix = content.skip(b);
    let n = v.context.tailwind_classes.len() as usize;
    let tp = text_if_any(prefix);
    let ts = text_if_any(suffix);
    lemma_pieces_plain(seq![], false, n, false, false, false, seq![], prefix);
    lemma_pieces_plain(seq![], false, n, false, false, false, seq![], suffix);
    if ctx.preserve_whitespace {
        let v1 = FormatterView { context: push_class(v.context, sortable, true), ..v };
        lemma_append_plain3(v1, tp, seq![Elem::TailwindClass(n)], ts);
    } else if trim(sortable).len() == 0 {
        lemma_pieces_plain(seq![], sortable.len() > 0, n, false, false, false, seq![], prefix);
        lemma_append_plain3(v, tp, space_if(sortable.len() > 0), ts);
    } else {
        let collapse = spec_can_collapse_whitespace_template(
            current_class_context(v.context),
            element_span,
            template_ancestors,
            is_first,
            is_last,
        );
        let need_leading = !is_first || prefix.len() > 0 || (starts_with_ascii_ws(sortable)
            && !collapse.start);
        let need_trailing = !is_last || suffix.len() > 0 || (ends_with_ascii_ws(sortable)
            && !collapse.end);
        let indent = parent.kind is TemplateLiteral && spec_wraps_one_level_deeper(
            parent.span,
            template_ancestors,
        );
        let sl = space_if(need_leading);
        let st = space_if(need_trailing);
        let mk = marker_elems(n, ctx.wrap, indent);
        lemma_pieces_plain(seq![], need_leading, n, ctx.wrap, indent, false, seq![], prefix);
        lemma_pieces_plain(seq![], need_trailing, n, ctx.wrap, indent, false, seq![], prefix);
        lemma_plain_add(sl, mk);
        lemma_plain_add(sl + mk, st);
        let v1 = FormatterView {
            context: mark_wrapped(
                push_class(v.context, class_content(trim(sortable), ctx.wrap), ctx.sort),
                n,
                ctx.wrap,
            ),
            ..v
        };
        lemma_append_plain3(v1, tp, sl + mk + st, ts);
        assert(v1.elements + tp + (sl + mk + st) + ts =~= v.elements + tp + sl + mk + st + ts);
    }
}


/// In `s`, the class marker at `j` is followed by a space (after the end of
/// its indent, when it has one).
pub open spec fn space_after_marker(s: Seq<Elem>, j: int) -> bool {
    ||| j + 1 < s.len() && s[j + 1] == Elem::Text(seq![' '])
    ||| j + 2 < s.len() && s[j + 1] == Elem::Tag(Tag::EndIndent) && s[j + 2] == Elem::Text(seq![' '])
}

/// In `s`, the class marker at `j` is preceded by a space at or after
/// `from` (before the start of its indent, when it has one).
pub open spec fn space_before_marker(s: Seq<Elem>, j: int, from: int) -> bool {
    ||| from <= j - 1 && j - 1 < s.len() && s[j - 1] == Elem::Text(seq![' '])
    ||| from <= j - 2 && j - 1 < s.len() && s[j - 1] == Elem::Tag(Tag::StartIndent) && s[j - 2]
        == Elem::Text(seq![' '])
}

/// The sortable middle of a quasi is kept apart from the `${}` around it:
/// when it holds a class, its marker is written, and is followed by a space
/// unless the quasi is the last one, and preceded by one unless it is the
/// first; so a class never runs into an expression's value.
pub proof fn lemma_template_element_separates_expressions<L>(
    v: FormatterView<L>,
    content: Seq<char>,
    element_span: Span,
    parent: Ancestor,
    template_ancestors: Seq<Ancestor>,
    ctx: ClassContext,
)
    requires
        !ctx.preserve_whitespace,
        ({
            let (a, b) = template_split(content, ctx.is_first_quasi, ctx.is_last_quasi);
            trim(content.subrange(a, b)).len() > 0
        }),
    ensures
        ({
            let w = template_element_writes(v, content, element_span, parent, template_ancestors, ctx);
            let n = v.context.tailwind_classes.len() as usize;
            exists|j: int|
                v.elements.len() <= j < w.elements.len() && #[trigger] w.elements[j] == Elem::TailwindClass(n)
                    && (!ctx.is_last_quasi ==> space_after_marker(w.elements, j)) && (!ctx.is_first_quasi
                    ==> space_before_marker(w.elements, j, v.elements.len() as int))
        }),
{
    let is_first = ctx.is_first_quasi;
    let is_last = ctx.is_last_quasi;
    let (a, b) = template_split(content, is_first, is_last);
    let prefix = content.take(a);
    let sortable = content.subrange(a, b);
    let suffix = content.skip(b);
    let n = v.context.tailwind_classes.len() as usize;
    let collapse = spec_can_collapse_whitespace_template(
        current_class_context(v.context),
        element_span,
        template_ancestors,
        is_first,
        is_last,
    );
    let need_leading = !is_first || prefix.len() > 0 || (starts_with_ascii_ws(sortable) && !collapse.start);
    let need_trailing = !is_last || suffix.len() > 0 || (ends_with_ascii_ws(sortable) && !collapse.end);
    let indent = parent.kind is TemplateLiteral && spec_wraps_one_level_deeper(parent.span, template_ancestors);
    let tp = text_if_any(prefix);
    let sl = space_if(need_leading);
    let mk = marker_elems(n, ctx.wrap, indent);
    let st = space_if(need_trailing);
    let ts = text_if_any(suffix);
    let w = template_element_writes(v, content, element_span, parent, template_ancestors, ctx);
    assert(w.elements == v.elements + tp + sl + mk + st + ts);
    let base: int = v.elements.len() + tp.len() + sl.len() + 0int;
    let j: int = if ctx.wrap && indent {
        base + 1
    } else {
        base
    };
    let all = v.elements + tp + sl + mk + st + ts;
    assert(all =~= (v.elements + tp + sl) + (mk + st + ts));
    assert((v.elements + tp + sl).len() == base);
    assert(all[j] == Elem::TailwindClass(n));
    if !is_last {
        assert(all[j + 1] == Elem::Text(seq![' ']) || (all[j + 1] == Elem::Tag(Tag::EndIndent) && all[j + 2]
            == Elem::Text(seq![' '])));
    }
    if !is_first {
        assert((v.elements + tp + sl)[base - 1] == Elem::Text(seq![' ']));
        assert(all[j - 1] == Elem::Text(seq![' ']) || (all[j - 1] == Elem::Tag(Tag::StartIndent) && all[j - 2]
            == Elem::Text(seq![' '])));
    }
    assert(w.elements[j] == Elem::TailwindClass(n));
}

/// The boundary spaces of a converted template are read from its raw text:
/// when the quasi starts (ends) with whitespace and the space must stay (the
/// `+` around it needs it, or the context only wraps), both written forms
/// hold a space right after the opening (before the closing) delimiter;
/// otherwise neither does.
pub proof fn lemma_template_conversion_keeps_boundary_spaces<L>(
    v: FormatterView<L>,
    span: Span,
    ancestors: Seq<Ancestor>,
    expression_count: usize,
    quasis: Seq<Seq<char>>,
)
    requires
        template_conversion(v, span, ancestors, expression_count, quasis) is Some,
    ensures
        ({
            let after = template_conversion(v, span, ancestors, expression_count, quasis).unwrap();
            let top = current_class_context(v.context).unwrap();
            let ctx = spec_narrow_class_context(top, span, ancestors, v.context.options);
            let collapse = spec_can_collapse_whitespace(Some(top), span, ancestors);
            let lead = starts_with_ascii_ws(quasis[0]) && (!collapse.start || !ctx.sort);
            let trail = ends_with_ascii_ws(quasis[0]) && (!collapse.end || !ctx.sort);
            let quoted = after.arena[v.arena.len() as int];
            let wrapped = after.arena[v.arena.len() + 1int];
            &&& after.arena.len() == v.arena.len() + 2
            &&& (quoted[1] == Elem::Text(seq![' '])) == lead
            &&& (wrapped[1] == Elem::Text(seq![' '])) == lead
            &&& (quoted[quoted.len() - 3] == Elem::Text(seq![' '])) == trail
            &&& (wrapped[wrapped.len() - 2] == Elem::Text(seq![' '])) == trail
        }),
{
    let top = current_class_context(v.context).unwrap();
    let ctx = spec_narrow_class_context(top, span, ancestors, v.context.options);
    let content = quasis[0];
    let collapse = spec_can_collapse_whitespace(Some(top), span, ancestors);
    let (lead, trail) = spec_boundary_spaces(content, collapse, !ctx.sort);
    let quote = v.context.options.quote_style.spec_as_str();
    let n = v.context.tailwind_classes.len();
    let ind = spec_wraps_one_level_deeper(span, ancestors);
    let after = template_conversion(v, span, ancestors, expression_count, quasis).unwrap();
    assert(after == convertible_writes(v, quote, seq!['`'], seq!['`'], trim(content), ctx, lead, trail, ind));
    let q = delimited(quote, lead, seq![Elem::TailwindClass(n as usize)], trail, quote).push(Elem::MeasureAlone);
    let mk = marker_elems((n + 1) as usize, true, ind);
    let wr = delimited(seq!['`'], lead, mk, trail, seq!['`']);
    assert(after.arena[v.arena.len() as int] == q);
    assert(after.arena[v.arena.len() + 1int] == wr);
    let sl = space_if(lead);
    let st = space_if(trail);
    assert(q =~= seq![Elem::Token(quote)] + sl + seq![Elem::TailwindClass(n as usize)] + st + seq![
        Elem::Token(quote), Elem::MeasureAlone]);
    assert(wr =~= seq![Elem::Token(seq!['`'])] + sl + mk + st + seq![Elem::Token(seq!['`'])]);
    assert(q[1] == Elem::Text(seq![' ']) <==> lead);
    assert(wr[1] == Elem::Text(seq![' ']) <==> lead);
    assert(q[q.len() - 3] == Elem::Text(seq![' ']) <==> trail);
    assert(wr[wr.len() - 2] == Elem::Text(seq![' ']) <==> trail);
}

/// A class string that does not wrap is written between its quotes with a
/// space after the opening quote exactly when its raw text starts with
/// whitespace and the space must stay (the `+` around it needs it, or the
/// context only wraps outside a JSX attribute), and likewise before the
/// closing quote.
pub proof fn lemma_string_literal_keeps_boundary_spaces<L>(
    v: FormatterView<L>,
    normalized: Seq<char>,
    span: Span,
    ancestors: Seq<Ancestor>,
    ctx: ClassContext,
)
    requires
        normalized.len() >= 2,
        !ctx.wrap,
        !ctx.preserve_whitespace,
        trim(normalized.subrange(1, normalized.len() - 1)).len() > 0,
    ensures
        ({
            let w = string_literal_writes(v, normalized, span, ancestors, ctx);
            let content = normalized.subrange(1, normalized.len() - 1);
            let collapse = spec_can_collapse_whitespace(current_class_context(v.context), span, ancestors);
            let keep = !ctx.sort && !in_jsx_attribute(ancestors);
            let lead = starts_with_ascii_ws(content) && (!collapse.start || keep);
            let trail = ends_with_ascii_ws(content) && (!collapse.end || keep);
            &&& w.elements.len() >= v.elements.len() + 3
            &&& w.elements[v.elements.len() as int] == Elem::Token(seq![normalized[0]])
            &&& w.elements.last() == Elem::Token(seq![normalized[0]])
            &&& (w.elements[v.elements.len() + 1int] == Elem::Text(seq![' '])) == lead
            &&& (w.elements[w.elements.len() - 2] == Elem::Text(seq![' '])) == trail
        }),
{
    let quote = seq![normalized[0]];
    let content = normalized.subrange(1, normalized.len() - 1);
    let collapse = spec_can_collapse_whitespace(current_class_context(v.context), span, ancestors);
    let (lead, trail) = spec_boundary_spaces(content, collapse, !ctx.sort && !in_jsx_attribute(ancestors));
    let n = v.context.tailwind_classes.len() as usize;
    let d = delimited(quote, lead, marker_elems(n, false, true), trail, quote);
    let w = string_literal_writes(v, normalized, span, ancestors, ctx);
    assert(w.elements == v.elements + d);
    assert(d =~= seq![Elem::Token(quote)] + space_if(lead) + seq![Elem::TailwindClass(n)] + space_if(trail)
        + seq![Elem::Token(quote)]);
    assert(d[1] == Elem::Text(seq![' ']) <==> lead);
    assert(d[d.len() - 2] == Elem::Text(seq![' ']) <==> trail);
    assert(w.elements[v.elements.len() + 1int] == d[1]);
    assert(w.elements[w.elements.len() - 2] == d[d.len() - 2]);
}

} // verus!
