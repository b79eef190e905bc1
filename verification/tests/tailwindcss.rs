use oxc_ast::Comment;
use oxc_class_names::ast::{Ancestor, AncestorKind, AttributeName, Callee};
use oxc_class_names::class_context::ClassContext;
use oxc_class_names::context::JsFormatContext;
use oxc_class_names::js_formatter::JsFormatter;
use oxc_class_names::options::{
    JsFormatOptions, QuoteProperties, QuoteStyle, SortTailwindcssOptions, WrapClassNamesOptions,
};
use oxc_class_names::span::Span;
use oxc_class_names::tailwindcss::{
    can_collapse_whitespace, class_attribute_context, class_function_context, is_class_attribute,
    is_class_function_call, narrow_class_context, CollapseWhitespace,
};
use oxc_span::SourceType;

const NO_COMMENTS: &[Comment] = &[];

fn options(sort_functions: &[&str], wrap_functions: Option<&[&str]>) -> JsFormatOptions {
    JsFormatOptions {
        sort_tailwindcss: Some(SortTailwindcssOptions {
            preserve_whitespace: false,
            attributes: vec!["tw".to_string()],
            functions: sort_functions.iter().map(ToString::to_string).collect(),
        }),
        wrap_class_names: wrap_functions.map(|functions| WrapClassNamesOptions {
            attributes: vec![],
            functions: functions.iter().map(ToString::to_string).collect(),
            syntax_transformation: false,
        }),
        quote_properties: QuoteProperties::AsNeeded,
        quote_style: QuoteStyle::Double,
        bracket_same_line: false,
    }
}

fn ident(name: &str) -> Callee {
    Callee::Identifier(name.to_string())
}

fn attribute(name: &str) -> AttributeName {
    AttributeName::Identifier(name.to_string())
}

fn clsx() -> Ancestor {
    ancestor(0, 40, AncestorKind::CallExpression { callee: ident("clsx"), callee_span: Span::new(0, 4) })
}

fn wrapping() -> ClassContext {
    ClassContext::new(None, true).unwrap()
}

fn ancestor(start: u32, end: u32, kind: AncestorKind) -> Ancestor {
    Ancestor { span: Span::new(start, end), kind }
}

#[test]
fn class_attributes() {
    assert!(is_class_attribute(&attribute("class"), &[]));
    assert!(is_class_attribute(&attribute("className"), &[]));
    assert!(is_class_attribute(&attribute("tw"), &["tw".to_string()]));
    assert!(!is_class_attribute(&attribute("id"), &["tw".to_string()]));
    assert!(!is_class_attribute(&AttributeName::NamespacedName, &[]));
}

#[test]
fn class_function_calls_follow_the_root_identifier() {
    let functions = vec!["clsx".to_string()];
    assert!(is_class_function_call(&ident("clsx"), &functions));
    // `clsx.foo(...)`
    assert!(is_class_function_call(&Callee::StaticMember(Box::new(ident("clsx"))), &functions));
    // `clsx()[x](...)`
    let chained = Callee::ComputedMember(Box::new(Callee::Call(Box::new(ident("clsx")))));
    assert!(is_class_function_call(&chained, &functions));
    // `obj.clsx(...)`: the root identifier is `obj`
    assert!(!is_class_function_call(&Callee::StaticMember(Box::new(ident("obj"))), &functions));
    assert!(!is_class_function_call(&Callee::Other, &functions));
    assert!(!is_class_function_call(&ident("clsx"), &[]));
}

#[test]
fn contexts_of_attributes_and_calls() {
    let opts = options(&["clsx"], Some(&["cn"]));
    // `className` is a class attribute for both features
    let both = class_attribute_context(&attribute("className"), &opts).unwrap();
    assert!(both.sort && both.wrap);
    assert_eq!(class_attribute_context(&attribute("id"), &opts), None);
    let tw = class_attribute_context(&attribute("tw"), &opts).unwrap();
    assert!(tw.sort && !tw.wrap);
    let clsx = class_function_context(&ident("clsx"), &opts).unwrap();
    assert!(clsx.sort && !clsx.wrap);
    let cn = class_function_context(&ident("cn"), &opts).unwrap();
    assert!(!cn.sort && cn.wrap);
    assert_eq!(class_function_context(&ident("lookup"), &opts), None);
}

#[test]
fn narrowing_keeps_wrap_in_class_positions() {
    let opts = options(&[], Some(&["clsx"]));
    let ctx = wrapping();
    let attribute = ancestor(0, 50, AncestorKind::JSXAttribute { name: attribute("className") });
    let container = ancestor(10, 50, AncestorKind::JSXExpressionContainer);
    let conditional = ancestor(11, 49, AncestorKind::ConditionalExpression { test_span: Span::new(11, 12) });
    // `className={x ? "a b" : ""}`: a branch of the ternary
    let r = narrow_class_context(ctx, Span::new(15, 20), &[conditional, container, attribute], &opts);
    assert!(r.wrap);
}

#[test]
fn narrowing_turns_wrap_off_elsewhere() {
    let opts = options(&[], Some(&["clsx"]));
    let ctx = wrapping();
    // `clsx(x === "a b")`
    let comparison = ancestor(5, 16, AncestorKind::BinaryExpression {
        addition: false,
        left_span: Span::new(5, 6),
        right_span: Span::new(11, 16),
    });
    assert!(!narrow_class_context(ctx, Span::new(11, 16), &[comparison, clsx()], &opts).wrap);
    // `clsx(lookup("a b"))`
    let lookup = ancestor(5, 20, AncestorKind::CallExpression { callee: ident("lookup"), callee_span: Span::new(5, 11) });
    let clsx2 = ancestor(0, 21, AncestorKind::CallExpression { callee: ident("clsx"), callee_span: Span::new(0, 4) });
    assert!(!narrow_class_context(ctx, Span::new(12, 17), &[lookup, clsx2], &opts).wrap);
    // `clsx({ ["a b"]: x })`
    let property = ancestor(7, 20, AncestorKind::ObjectProperty { computed: true, key_span: Span::new(8, 13) });
    let object = ancestor(5, 22, AncestorKind::ObjectExpression);
    assert!(!narrow_class_context(ctx, Span::new(8, 13), &[property, object, clsx()], &opts).wrap);
    // the test of a ternary
    let conditional = ancestor(5, 20, AncestorKind::ConditionalExpression { test_span: Span::new(5, 10) });
    assert!(!narrow_class_context(ctx, Span::new(5, 10), &[conditional, clsx()], &opts).wrap);
    // not inside any class attribute or call
    assert!(!narrow_class_context(ctx, Span::new(5, 10), &[], &opts).wrap);
    // a context that does not wrap is kept as it is
    let sort_only = ClassContext::new(Some(&SortTailwindcssOptions {
        preserve_whitespace: true,
        attributes: vec![],
        functions: vec![],
    }), false).unwrap();
    assert_eq!(narrow_class_context(sort_only, Span::new(5, 10), &[], &opts), sort_only);
}

#[test]
fn narrowing_object_values_and_arrays_pass_through() {
    let opts = options(&[], Some(&["clsx"]));
    let array = ancestor(5, 39, AncestorKind::ArrayExpression);
    let object = ancestor(6, 30, AncestorKind::ObjectExpression);
    let property = ancestor(7, 29, AncestorKind::ObjectProperty { computed: false, key_span: Span::new(7, 8) });
    assert!(narrow_class_context(wrapping(), Span::new(10, 15), &[property, object, array, clsx()], &opts).wrap);
}

fn formatter() -> JsFormatter<'static, ()> {
    JsFormatter::new(JsFormatContext::new("", SourceType::default(), NO_COMMENTS, options(&[], None)))
}

#[test]
fn collapse_in_template_expression() {
    let mut f = formatter();
    let parent = ClassContext::new(None, true).unwrap();
    f.context.push_class_context(ClassContext::template_expression(parent, false, true));
    let c = can_collapse_whitespace(Span::new(3, 8), &[], &f);
    assert_eq!(c, CollapseWhitespace { start: false, end: true });
}

#[test]
fn collapse_in_concatenation() {
    let f = formatter();
    // `a + " p-4 " + b`: `(a + " p-4 ") + b`
    let inner = ancestor(0, 11, AncestorKind::BinaryExpression {
        addition: true,
        left_span: Span::new(0, 1),
        right_span: Span::new(4, 11),
    });
    let outer = ancestor(0, 15, AncestorKind::BinaryExpression {
        addition: true,
        left_span: Span::new(0, 11),
        right_span: Span::new(14, 15),
    });
    let c = can_collapse_whitespace(Span::new(4, 11), &[inner, outer], &f);
    assert_eq!(c, CollapseWhitespace { start: false, end: false });
    // a TypeScript wrapper is transparent; anything else stops the walk
    let cast = ancestor(4, 20, AncestorKind::TSAsExpression);
    let plus = ancestor(0, 20, AncestorKind::BinaryExpression {
        addition: true,
        left_span: Span::new(0, 1),
        right_span: Span::new(4, 20),
    });
    assert_eq!(can_collapse_whitespace(Span::new(4, 11), &[cast, plus], &f), CollapseWhitespace { start: false, end: true });
    let call = ancestor(4, 20, AncestorKind::Other);
    let plus = ancestor(0, 20, AncestorKind::BinaryExpression {
        addition: true,
        left_span: Span::new(0, 1),
        right_span: Span::new(4, 20),
    });
    assert_eq!(can_collapse_whitespace(Span::new(4, 11), &[call, plus], &f), CollapseWhitespace::new());
}
