use oxc_ast::Comment;
use oxc_class_names::ast::{Ancestor, AncestorKind, AttributeName, Callee};
use oxc_class_names::class_context::ClassContext;
use oxc_class_names::context::JsFormatContext;
use oxc_class_names::format_element::{ElementArena, FormatElement};
use oxc_class_names::js_formatter::JsFormatter;
use oxc_class_names::options::{
    JsFormatOptions, QuoteProperties, QuoteStyle, SortTailwindcssOptions, WrapClassNamesOptions,
};
use oxc_class_names::span::Span;
use oxc_class_names::tailwindcss::write::split_template_content;
use oxc_class_names::tailwindcss::{
    class_context_for_string_literal, is_wrap_convertible_string_container, try_wrap_convert_template,
    write_class_string_literal, write_class_template_element,
};
use oxc_span::SourceType;

const NO_COMMENTS: &[Comment] = &[];

fn options(sort: bool, wrap: bool, syntax_transformation: bool) -> JsFormatOptions {
    JsFormatOptions {
        sort_tailwindcss: if sort {
            Some(SortTailwindcssOptions {
                preserve_whitespace: false,
                attributes: vec![],
                functions: vec!["clsx".to_string()],
            })
        } else {
            None
        },
        wrap_class_names: if wrap {
            Some(WrapClassNamesOptions {
                attributes: vec![],
                functions: vec!["clsx".to_string()],
                syntax_transformation,
            })
        } else {
            None
        },
        quote_properties: QuoteProperties::AsNeeded,
        quote_style: QuoteStyle::Double,
        bracket_same_line: false,
    }
}

fn formatter(options: JsFormatOptions) -> JsFormatter<'static, ()> {
    JsFormatter::new(JsFormatContext::new("", SourceType::default(), NO_COMMENTS, options))
}

fn ctx(sort: bool, wrap: bool) -> ClassContext {
    let sort_options = SortTailwindcssOptions {
        preserve_whitespace: false,
        attributes: vec![],
        functions: vec![],
    };
    ClassContext::new(if sort { Some(&sort_options) } else { None }, wrap).unwrap()
}

fn class_attribute() -> Ancestor {
    Ancestor {
        span: Span::new(0, 100),
        kind: AncestorKind::JSXAttribute { name: AttributeName::Identifier("className".to_string()) },
    }
}

fn clsx_call() -> Ancestor {
    Ancestor {
        span: Span::new(0, 100),
        kind: AncestorKind::CallExpression {
            callee: Callee::Identifier("clsx".to_string()),
            callee_span: Span::new(0, 4),
        },
    }
}

fn render(elements: &[FormatElement], arena: &ElementArena<FormatElement>) -> String {
    let parts: Vec<String> = elements
        .iter()
        .map(|element| match element {
            FormatElement::BestFitting(variants) => {
                let inner: Vec<String> =
                    variants.iter().map(|slot| render(arena.slice(*slot), arena)).collect();
                format!("BestFitting([{}])", inner.join(", "))
            }
            other => format!("{other:?}"),
        })
        .collect();
    format!("[{}]", parts.join(", "))
}

fn classes(f: &mut JsFormatter<'static, ()>) -> Vec<String> {
    f.context.take_tailwind_classes()
}

#[test]
fn sorted_attribute_string_is_trimmed() {
    let mut f = formatter(options(true, false, false));
    write_class_string_literal("\"  flex  p-4 \"", Span::new(10, 24), &[class_attribute()], ctx(true, false), &mut f);
    assert_eq!(render(&f.elements, &f.arena), "[Token(\"\\\"\"), TailwindClass(0), Token(\"\\\"\")]");
    assert_eq!(classes(&mut f), vec!["flex  p-4".to_string()]);
    assert!(f.context.take_unsorted_class_indices().is_empty());
}

#[test]
fn preserved_whitespace_is_collected_as_written() {
    let mut f = formatter(options(true, false, false));
    let mut context = ctx(true, false);
    context.preserve_whitespace = true;
    write_class_string_literal("'  a\n b '", Span::new(0, 9), &[class_attribute()], context, &mut f);
    assert_eq!(render(&f.elements, &f.arena), "[Token(\"'\"), TailwindClass(0), Token(\"'\")]");
    assert_eq!(classes(&mut f), vec!["  a\n b ".to_string()]);
}

#[test]
fn whitespace_only_string_becomes_one_space() {
    let mut f = formatter(options(true, false, false));
    write_class_string_literal("\"   \"", Span::new(0, 5), &[class_attribute()], ctx(true, false), &mut f);
    assert_eq!(render(&f.elements, &f.arena), "[Token(\"\\\"\"), Text(\" \"), Token(\"\\\"\")]");
    assert!(classes(&mut f).is_empty());
}

#[test]
fn wrapped_attribute_string_wraps_in_place() {
    let mut f = formatter(options(false, true, false));
    write_class_string_literal("\"a\n   b\"", Span::new(0, 8), &[class_attribute()], ctx(false, true), &mut f);
    assert_eq!(
        render(&f.elements, &f.arena),
        "[Token(\"\\\"\"), Tag(StartIndent), TailwindClass(0), Tag(EndIndent), Token(\"\\\"\")]"
    );
    assert_eq!(f.context.take_wrapped_class_indices(), vec![0]);
    assert_eq!(f.context.take_unsorted_class_indices(), vec![0]);
    assert_eq!(classes(&mut f), vec!["a b".to_string()]);
}

#[test]
fn wrapped_string_outside_attribute_becomes_best_fitting() {
    let mut f = formatter(options(false, true, false));
    write_class_string_literal("\"a b\"", Span::new(5, 10), &[clsx_call()], ctx(false, true), &mut f);
    assert_eq!(
        render(&f.elements, &f.arena),
        "[BestFitting([[Token(\"\\\"\"), TailwindClass(0), Token(\"\\\"\"), MeasureAlone], \
         [Token(\"`\"), TailwindClass(1), Token(\"`\")]])]"
    );
    assert_eq!(f.context.take_wrapped_class_indices(), vec![1]);
    assert_eq!(f.context.take_unsorted_class_indices(), vec![0, 1]);
    assert_eq!(classes(&mut f), vec!["a b".to_string(), "a b".to_string()]);
}

#[test]
fn syntax_transformation_turns_attribute_into_template() {
    let mut f = formatter(options(true, true, true));
    write_class_string_literal("\"a b\"", Span::new(10, 15), &[class_attribute()], ctx(true, true), &mut f);
    assert_eq!(
        render(&f.elements, &f.arena),
        "[BestFitting([[Token(\"\\\"\"), TailwindClass(0), Token(\"\\\"\"), MeasureAlone], \
         [Token(\"{`\"), Tag(StartIndent), TailwindClass(1), Tag(EndIndent), Token(\"`}\")]])]"
    );
    assert!(f.context.take_unsorted_class_indices().is_empty());
}

#[test]
fn character_reference_keeps_attribute_string() {
    let mut f = formatter(options(false, true, true));
    write_class_string_literal("\"a &amp; b\"", Span::new(0, 11), &[class_attribute()], ctx(false, true), &mut f);
    assert_eq!(
        render(&f.elements, &f.arena),
        "[Token(\"\\\"\"), Tag(StartIndent), TailwindClass(0), Tag(EndIndent), Token(\"\\\"\")]"
    );
}

#[test]
fn arbitrary_variant_still_converts() {
    let mut f = formatter(options(false, true, true));
    write_class_string_literal("\"[&_svg]:size-4 p-2\"", Span::new(0, 20), &[class_attribute()], ctx(false, true), &mut f);
    assert!(render(&f.elements, &f.arena).starts_with("[BestFitting"));
}

#[test]
fn backtick_prevents_conversion() {
    let mut f = formatter(options(false, true, false));
    write_class_string_literal("\"a `b`\"", Span::new(5, 12), &[clsx_call()], ctx(false, true), &mut f);
    assert_eq!(render(&f.elements, &f.arena), "[Token(\"\\\"\"), TailwindClass(0), Token(\"\\\"\")]");
    assert!(f.context.take_wrapped_class_indices().is_empty());
}

#[test]
fn concatenation_keeps_separating_space() {
    // `"a b " + x` inside `className={...}`: the left operand keeps its trailing space.
    let mut f = formatter(options(true, false, false));
    let plus = Ancestor {
        span: Span::new(11, 21),
        kind: AncestorKind::BinaryExpression {
            addition: true,
            left_span: Span::new(11, 17),
            right_span: Span::new(20, 21),
        },
    };
    write_class_string_literal("\"a b \"", Span::new(11, 17), &[plus, class_attribute()], ctx(true, false), &mut f);
    assert_eq!(
        render(&f.elements, &f.arena),
        "[Token(\"\\\"\"), TailwindClass(0), Text(\" \"), Token(\"\\\"\")]"
    );
    assert_eq!(classes(&mut f), vec!["a b".to_string()]);
}

#[test]
fn template_without_expressions_converts() {
    let mut f = formatter(options(false, true, false));
    f.context.push_class_context(ctx(false, true));
    let converted = try_wrap_convert_template(
        Span::new(5, 12),
        &[clsx_call()],
        0,
        &["a   b".to_string()],
        &mut f,
    );
    assert!(converted);
    assert_eq!(
        render(&f.elements, &f.arena),
        "[BestFitting([[Token(\"\\\"\"), TailwindClass(0), Token(\"\\\"\"), MeasureAlone], \
         [Token(\"`\"), TailwindClass(1), Token(\"`\")]])]"
    );
    // in a wrapping context, runs of spaces collapse to single spaces
    assert_eq!(classes(&mut f), vec!["a b".to_string(), "a b".to_string()]);
}

#[test]
fn template_not_eligible_writes_nothing() {
    let mut f = formatter(options(false, true, false));
    f.context.push_class_context(ctx(false, true));
    assert!(!try_wrap_convert_template(Span::new(5, 9), &[clsx_call()], 1, &["a ".to_string(), "".to_string()], &mut f));
    assert!(!try_wrap_convert_template(Span::new(5, 9), &[clsx_call()], 0, &["single".to_string()], &mut f));
    assert!(!try_wrap_convert_template(Span::new(5, 9), &[clsx_call()], 0, &["a 'b'".to_string()], &mut f));
    assert!(f.elements.is_empty());
    let mut outside = formatter(options(false, true, false));
    assert!(!try_wrap_convert_template(Span::new(5, 9), &[clsx_call()], 0, &["a b".to_string()], &mut outside));
}

#[test]
fn template_split_examples() {
    let content: Vec<char> = "items-center p-4 m-2".chars().collect();
    assert_eq!(split_template_content(&content, false, true), (12, 20));
    let content: Vec<char> = " flex p-4".chars().collect();
    assert_eq!(split_template_content(&content, true, true), (0, 9));
    let content: Vec<char> = "a b c".chars().collect();
    assert_eq!(split_template_content(&content, false, false), (1, 4));
    // one class touching the previous expression is the prefix
    let content: Vec<char> = "flex".chars().collect();
    assert_eq!(split_template_content(&content, false, true), (4, 4));
    assert_eq!(split_template_content(&content, false, false), (4, 4));
    // at the first quasi, one class touching the next expression is the suffix
    assert_eq!(split_template_content(&content, true, false), (0, 0));
    assert_eq!(split_template_content(&content, true, true), (0, 4));
}

#[test]
fn template_element_keeps_touching_classes() {
    // `${variant}items-center p-4`
    let mut f = formatter(options(true, false, false));
    let template = Ancestor { span: Span::new(0, 30), kind: AncestorKind::TemplateLiteral };
    let context = ctx(true, false).with_quasi_position(false, true);
    write_class_template_element("items-center p-4", Span::new(11, 27), &template, &[class_attribute()], context, &mut f);
    assert_eq!(
        render(&f.elements, &f.arena),
        "[Text(\"items-center\"), Text(\" \"), TailwindClass(0)]"
    );
    assert_eq!(classes(&mut f), vec!["p-4".to_string()]);
}

#[test]
fn template_element_whitespace_only() {
    let mut f = formatter(options(true, false, false));
    let template = Ancestor { span: Span::new(0, 30), kind: AncestorKind::TemplateLiteral };
    let context = ctx(true, false).with_quasi_position(false, false);
    write_class_template_element("   ", Span::new(5, 8), &template, &[], context, &mut f);
    assert_eq!(render(&f.elements, &f.arena), "[Text(\" \")]");
}

#[test]
fn string_context_requires_whitespace_and_enabled_context() {
    let mut f = formatter(options(true, false, false));
    assert_eq!(class_context_for_string_literal("\"a b\"", Span::new(0, 5), &[class_attribute()], &f), None);
    f.context.push_class_context(ctx(true, false));
    assert_eq!(class_context_for_string_literal("\"ab\"", Span::new(0, 4), &[class_attribute()], &f), None);
    assert_eq!(
        class_context_for_string_literal("\"a b\"", Span::new(0, 5), &[class_attribute()], &f),
        Some(ctx(true, false))
    );
    let mut disabled = ctx(true, false);
    disabled.disabled = true;
    f.context.push_class_context(disabled);
    assert_eq!(class_context_for_string_literal("\"a b\"", Span::new(0, 5), &[class_attribute()], &f), None);
}

#[test]
fn wrap_only_string_outside_class_position_is_skipped() {
    let mut f = formatter(options(false, true, false));
    f.context.push_class_context(ctx(false, true));
    let comparison = Ancestor {
        span: Span::new(0, 20),
        kind: AncestorKind::BinaryExpression {
            addition: false,
            left_span: Span::new(0, 5),
            right_span: Span::new(9, 20),
        },
    };
    assert_eq!(
        class_context_for_string_literal("\"a b\"", Span::new(0, 5), &[comparison, clsx_call()], &f),
        None
    );
}

#[test]
fn convertible_container_detection() {
    let mut f = formatter(options(false, true, false));
    f.context.push_class_context(ctx(false, true));
    assert!(is_wrap_convertible_string_container(Some("\"a b\""), &class_attribute(), &f));
    assert!(!is_wrap_convertible_string_container(Some("\"ab\""), &class_attribute(), &f));
    assert!(!is_wrap_convertible_string_container(Some("\"a \\n b\""), &class_attribute(), &f));
    assert!(!is_wrap_convertible_string_container(None, &class_attribute(), &f));
    // a whitespace-only string is written as a single space, never converted
    assert!(!is_wrap_convertible_string_container(Some("\"   \""), &class_attribute(), &f));
    let id = Ancestor {
        span: Span::new(0, 10),
        kind: AncestorKind::JSXAttribute { name: AttributeName::Identifier("id".to_string()) },
    };
    assert!(!is_wrap_convertible_string_container(Some("\"a b\""), &id, &f));
}

#[test]
fn convertible_container_string_is_converted() {
    let mut f = formatter(options(false, true, false));
    f.context.push_class_context(ctx(false, true));
    let container = Ancestor { span: Span::new(10, 17), kind: AncestorKind::JSXExpressionContainer };
    assert!(is_wrap_convertible_string_container(Some("\"a b\""), &class_attribute(), &f));
    let ancestors = [container, class_attribute()];
    let context = class_context_for_string_literal("\"a b\"", Span::new(11, 16), &ancestors, &f).unwrap();
    write_class_string_literal("\"a b\"", Span::new(11, 16), &ancestors, context, &mut f);
    assert!(render(&f.elements, &f.arena).starts_with("[BestFitting([[Token(\"\\\"\"), TailwindClass(0)"));
}

#[test]
fn template_element_lone_class_touching_expression() {
    // `${variant}flex`: the one class touches the expression and stays as text
    let mut f = formatter(options(true, false, false));
    let template = Ancestor { span: Span::new(0, 20), kind: AncestorKind::TemplateLiteral };
    let context = ctx(true, false).with_quasi_position(false, true);
    write_class_template_element("flex", Span::new(11, 15), &template, &[class_attribute()], context, &mut f);
    assert_eq!(render(&f.elements, &f.arena), "[Text(\"flex\")]");
    assert!(classes(&mut f).is_empty());
}
