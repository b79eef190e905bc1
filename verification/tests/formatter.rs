use oxc_ast::Comment;
use oxc_class_names::context::JsFormatContext;
use oxc_class_names::format_element::{ElementArena, FormatElement};
use oxc_class_names::formatter::sort_classes;
use oxc_class_names::options::{JsFormatOptions, QuoteProperties, QuoteStyle, WrapClassNamesOptions};
use oxc_span::SourceType;

const NO_COMMENTS: &[Comment] = &[];

fn sort_words(classes: Vec<String>) -> Vec<String> {
    classes
        .into_iter()
        .map(|class| {
            let mut words: Vec<&str> = class.split_ascii_whitespace().collect();
            words.sort_unstable();
            words.join(" ")
        })
        .collect()
}

fn strings(values: &[&str]) -> Vec<String> {
    values.iter().map(ToString::to_string).collect()
}

#[test]
fn all_classes_go_to_the_sorter() {
    let sorted = sort_classes(&sort_words, strings(&["b a", "d c"]), &[]);
    assert_eq!(sorted, strings(&["a b", "c d"]));
}

#[test]
fn unsorted_classes_keep_content_and_slot() {
    let seen = std::cell::RefCell::new(Vec::new());
    let sorter = |classes: Vec<String>| {
        seen.borrow_mut().extend(classes.iter().cloned());
        sort_words(classes)
    };
    let sorted = sort_classes(&sorter, strings(&["b a", "z y", "d c"]), &[1]);
    assert_eq!(sorted, strings(&["a b", "z y", "c d"]));
    assert_eq!(*seen.borrow(), strings(&["b a", "d c"]));
}

#[test]
fn short_sorter_answer_leaves_remaining_slots() {
    let sorter = |_classes: Vec<String>| strings(&["x"]);
    let sorted = sort_classes(&sorter, strings(&["b a", "u", "d c"]), &[1]);
    assert_eq!(sorted, strings(&["x", "u", "d c"]));
}

#[test]
fn identity_sorter_keeps_classes() {
    let sorted = sort_classes(&|classes: Vec<String>| classes, strings(&["b a", "u", "d c"]), &[0, 2]);
    assert_eq!(sorted, strings(&["b a", "u", "d c"]));
}

fn context() -> JsFormatContext<'static, ()> {
    let options = JsFormatOptions {
        sort_tailwindcss: None,
        wrap_class_names: Some(WrapClassNamesOptions {
            attributes: vec![],
            functions: vec![],
            syntax_transformation: false,
        }),
        quote_properties: QuoteProperties::AsNeeded,
        quote_style: QuoteStyle::Double,
        bracket_same_line: false,
    };
    JsFormatContext::new("", SourceType::default(), NO_COMMENTS, options)
}

#[test]
fn format_sorts_then_expands_wrapped_markers() {
    let mut c = context();
    let sorted_index = c.add_tailwind_class("b a".to_string());
    let wrapped_index = c.add_unsorted_class("z y".to_string());
    c.mark_class_wrapped(wrapped_index);
    let elements = vec![
        FormatElement::TailwindClass(sorted_index),
        FormatElement::TailwindClass(wrapped_index),
        FormatElement::Token("\"".to_string()),
    ];
    let mut arena = ElementArena::new();
    let formatted = oxc_class_names::formatter::format(c, &sort_words, elements, &mut arena);
    assert_eq!(formatted.document.sorted_tailwind_classes, strings(&["a b", "z y"]));
    assert_eq!(
        format!("{:?}", formatted.document.elements),
        "[TailwindClass(0), Tag(StartFill), Tag(StartEntry), Text(\"z\"), Tag(EndEntry), \
         Tag(StartEntry), Line(SoftOrSpace), Tag(EndEntry), \
         Tag(StartEntry), Text(\"y\"), Token(\"\\\"\"), Tag(EndEntry), Tag(EndFill)]"
    );
    assert_eq!(formatted.context.get_tailwind_class(0), None);
}

#[test]
fn format_without_wrapping_keeps_elements() {
    let mut c = context();
    c.add_tailwind_class("b a".to_string());
    let mut arena = ElementArena::new();
    let formatted = oxc_class_names::formatter::format(c, &sort_words, vec![FormatElement::TailwindClass(0)], &mut arena);
    assert_eq!(format!("{:?}", formatted.document.elements), "[TailwindClass(0)]");
    assert_eq!(formatted.document.sorted_tailwind_classes, strings(&["a b"]));
}

#[test]
fn short_sorter_answer_keeps_length_without_unsorted() {
    let sorter = |_classes: Vec<String>| strings(&["x"]);
    let sorted = sort_classes(&sorter, strings(&["b a", "u", "d c"]), &[]);
    assert_eq!(sorted, strings(&["x", "u", "d c"]));
}
