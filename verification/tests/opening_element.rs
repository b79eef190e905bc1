use oxc_class_names::ast::AttributeName;
use oxc_class_names::format_element::LineMode;
use oxc_class_names::opening_element::{
    AttributeItem, AttributeValue, FormatOpeningElement, OpeningElement, OpeningElementLayout,
};
use oxc_class_names::options::{
    JsFormatOptions, QuoteProperties, QuoteStyle, SortTailwindcssOptions, WrapClassNamesOptions,
};
use oxc_class_names::span::Span;

fn options(wrap: bool, preserve_whitespace: bool, bracket_same_line: bool) -> JsFormatOptions {
    JsFormatOptions {
        sort_tailwindcss: Some(SortTailwindcssOptions {
            preserve_whitespace,
            attributes: vec![],
            functions: vec![],
        }),
        wrap_class_names: if wrap {
            Some(WrapClassNamesOptions { attributes: vec![], functions: vec![], syntax_transformation: false })
        } else {
            None
        },
        quote_properties: QuoteProperties::AsNeeded,
        quote_style: QuoteStyle::Double,
        bracket_same_line,
    }
}

fn string_attribute(name: &str, value: &str, start: u32, end: u32) -> AttributeItem {
    AttributeItem::Attribute {
        name: AttributeName::Identifier(name.to_string()),
        value: Some(AttributeValue::StringLiteral(value.to_string())),
        span: Span::new(start, end),
    }
}

fn element(attributes: Vec<AttributeItem>) -> OpeningElement {
    OpeningElement {
        span: Span::new(0, 60),
        name_span: Span::new(1, 4),
        type_arguments_span: None,
        attributes,
    }
}

#[test]
fn inline_without_attributes() {
    let e = element(vec![]);
    let f = FormatOpeningElement::new(&e, true);
    assert_eq!(f.compute_layout(false, false, &options(false, false, false)), OpeningElementLayout::Inline);
    assert_eq!(
        f.compute_layout(true, false, &options(false, false, false)),
        OpeningElementLayout::IndentAttributes { name_has_comment: true, last_attribute_has_comment: false }
    );
    // `<Long<DonTBreakThis>></Long>`: no attributes nor comment, also inline
    let open = FormatOpeningElement::new(&e, false);
    assert_eq!(open.compute_layout(false, false, &options(false, false, false)), OpeningElementLayout::Inline);
    assert!(!open.inline_space_before_close());
    assert!(f.inline_space_before_close());
}

#[test]
fn single_string_attribute() {
    let e = element(vec![string_attribute("tooltip", "a long text", 5, 30)]);
    let f = FormatOpeningElement::new(&e, false);
    assert_eq!(f.compute_layout(false, false, &options(true, false, false)), OpeningElementLayout::SingleStringAttribute);
    let multi = element(vec![string_attribute("tooltip", "a\nb", 5, 30)]);
    let f = FormatOpeningElement::new(&multi, false);
    assert_eq!(
        f.compute_layout(false, false, &options(true, false, false)),
        OpeningElementLayout::IndentAttributes { name_has_comment: false, last_attribute_has_comment: false }
    );
    assert!(f.has_multiline_string_attribute(&options(true, false, false)));
}

#[test]
fn wrapped_class_attribute_layout() {
    let e = element(vec![string_attribute("className", "flex p-4\n  m-2", 5, 30)]);
    let f = FormatOpeningElement::new(&e, true);
    assert_eq!(
        f.compute_layout(false, false, &options(true, false, false)),
        OpeningElementLayout::SingleWrappedClassAttribute
    );
    // its newlines never force the attributes apart
    assert!(!f.has_multiline_string_attribute(&options(true, false, false)));
    // a single class keeps the single string layout
    let single = element(vec![string_attribute("className", " flex ", 5, 30)]);
    let f = FormatOpeningElement::new(&single, true);
    assert_eq!(f.compute_layout(false, false, &options(true, false, false)), OpeningElementLayout::SingleStringAttribute);
    // whitespace kept verbatim is not wrapped
    let f = FormatOpeningElement::new(&e, true);
    assert_eq!(
        f.compute_layout(false, false, &options(true, true, false)),
        OpeningElementLayout::IndentAttributes { name_has_comment: false, last_attribute_has_comment: false }
    );
    assert!(f.wrapped_class_attribute_breaks_before_close(&options(true, false, true)));
    let open = FormatOpeningElement::new(&e, false);
    assert!(!open.wrapped_class_attribute_breaks_before_close(&options(true, false, true)));
    assert!(open.wrapped_class_attribute_breaks_before_close(&options(true, false, false)));
}

#[test]
fn comment_ranges() {
    let e = OpeningElement {
        span: Span::new(0, 60),
        name_span: Span::new(1, 4),
        type_arguments_span: Some(Span::new(4, 12)),
        attributes: vec![
            string_attribute("a", "x", 13, 18),
            AttributeItem::SpreadAttribute { span: Span::new(19, 30) },
        ],
    };
    let f = FormatOpeningElement::new(&e, false);
    assert_eq!(f.name_comment_range(), (12, 13));
    assert_eq!(f.last_attribute_comment_range(), Some((30, 60)));
    let bare = element(vec![]);
    let f = FormatOpeningElement::new(&bare, false);
    assert_eq!(f.name_comment_range(), (4, 60));
    assert_eq!(f.last_attribute_comment_range(), None);
}

#[test]
fn break_before_closing_bracket() {
    let e = element(vec![string_attribute("a", "x", 5, 10), string_attribute("b", "y", 11, 16)]);
    let open = FormatOpeningElement::new(&e, false);
    assert_eq!(open.break_before_close(false, false, &options(false, false, false)), Some(LineMode::Soft));
    assert_eq!(open.break_before_close(false, false, &options(false, false, true)), None);
    assert_eq!(open.break_before_close(false, true, &options(false, false, true)), Some(LineMode::Soft));
    let closing = FormatOpeningElement::new(&e, true);
    assert_eq!(closing.break_before_close(false, false, &options(false, false, true)), Some(LineMode::SoftOrSpace));
    let bare = element(vec![]);
    let open = FormatOpeningElement::new(&bare, false);
    assert_eq!(open.break_before_close(false, false, &options(false, false, false)), None);
    assert_eq!(open.break_before_close(true, false, &options(false, false, false)), Some(LineMode::Soft));
}
