use oxc_ast::Comment;
use oxc_class_names::class_context::ClassContext;
use oxc_class_names::context::JsFormatContext;
use oxc_class_names::format_element::FormatElement;
use oxc_class_names::options::{JsFormatOptions, QuoteProperties, QuoteStyle, WrapClassNamesOptions};
use oxc_class_names::span::Span;
use oxc_span::SourceType;

const NO_COMMENTS: &[Comment] = &[];

fn options(quote_properties: QuoteProperties, wrap: bool) -> JsFormatOptions {
    JsFormatOptions {
        sort_tailwindcss: None,
        wrap_class_names: if wrap {
            Some(WrapClassNamesOptions { attributes: vec![], functions: vec![], syntax_transformation: false })
        } else {
            None
        },
        quote_properties,
        quote_style: QuoteStyle::Single,
        bracket_same_line: false,
    }
}

fn context(wrap: bool) -> JsFormatContext<'static, u8> {
    JsFormatContext::new("let a = 1;", SourceType::default(), NO_COMMENTS, options(QuoteProperties::Consistent, wrap))
}

#[test]
fn new_context_is_empty() {
    let c = context(false);
    assert_eq!(c.source_text(), "let a = 1;");
    assert_eq!(c.source_code(), "let a = 1;");
    assert!(c.comments().is_empty());
    assert!(!c.has_class_features());
    assert_eq!(c.class_context(), None);
    assert!(!c.is_quote_needed());
    assert!(context(true).has_class_features());
    assert_eq!(c.options().quote_style, QuoteStyle::Single);
    assert_eq!(c.source_type(), SourceType::default());
}

#[test]
fn classes_are_stored_at_returned_indices() {
    let mut c = context(true);
    assert_eq!(c.add_tailwind_class("flex p-4".to_string()), 0);
    assert_eq!(c.add_unsorted_class("a b".to_string()), 1);
    assert_eq!(c.add_class("m-2".to_string()), 2);
    assert_eq!(c.get_tailwind_class(1).map(String::as_str), Some("a b"));
    assert_eq!(c.get_tailwind_class(3), None);
    c.mark_class_wrapped(1);
    assert_eq!(c.take_unsorted_class_indices(), vec![1]);
    assert_eq!(c.take_wrapped_class_indices(), vec![1]);
    assert_eq!(c.take_tailwind_classes(), vec!["flex p-4".to_string(), "a b".to_string(), "m-2".to_string()]);
    assert_eq!(c.get_tailwind_class(0), None);
    c.set_tailwind_classes(vec!["z".to_string()]);
    assert_eq!(c.get_tailwind_class(0).map(String::as_str), Some("z"));
}

#[test]
fn arrow_layout_is_taken_once_by_its_span() {
    let mut c = context(false);
    c.set_arrow_assignment_layout(Span::new(3, 9), 7);
    assert_eq!(c.take_arrow_assignment_layout(Span::new(0, 9)), None);
    assert_eq!(c.take_arrow_assignment_layout(Span::new(3, 9)), Some(7));
    assert_eq!(c.take_arrow_assignment_layout(Span::new(3, 9)), None);
    c.set_arrow_assignment_layout(Span::new(1, 2), 8);
    c.clear_arrow_assignment_layout();
    assert_eq!(c.take_arrow_assignment_layout(Span::new(1, 2)), None);
}

#[test]
fn quote_needed_stack() {
    let mut c = context(false);
    c.push_quote_needed(true);
    c.push_quote_needed(false);
    assert!(!c.is_quote_needed());
    c.pop_quote_needed();
    assert!(c.is_quote_needed());
    c.pop_quote_needed();
    c.pop_quote_needed();
    assert!(!c.is_quote_needed());
}

#[test]
fn class_context_stack() {
    let mut c = context(true);
    let ctx = ClassContext::new(None, true).unwrap();
    c.push_class_context(ctx);
    c.class_context_mut().unwrap().disabled = true;
    assert!(c.class_context().unwrap().disabled);
    c.pop_class_context();
    assert_eq!(c.class_context(), None);
    assert!(c.class_context_mut().is_none());
    c.pop_class_context();
    assert_eq!(c.class_context(), None);
}

#[test]
fn cached_elements_by_span() {
    let mut c = context(false);
    assert!(c.get_cached_element(Span::new(0, 3)).is_none());
    c.cache_element(Span::new(0, 3), FormatElement::Text("x".to_string()));
    assert_eq!(format!("{:?}", c.get_cached_element(Span::new(0, 3))), "Some(Text(\"x\"))");
    assert!(c.get_cached_element(Span::new(0, 4)).is_none());
}

#[test]
fn comments_can_be_replaced() {
    let mut c = context(false);
    *c.comments_mut() = NO_COMMENTS;
    assert!(c.comments().is_empty());
}
