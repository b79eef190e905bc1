use oxc_ast::Comment;
use oxc_class_names::ast::Callee;
use oxc_class_names::call_expression::{
    begin_call_arguments, end_call_arguments, enter_call_expression, exit_call_expression,
};
use oxc_class_names::class_context::ClassContext;
use oxc_class_names::context::JsFormatContext;
use oxc_class_names::options::{JsFormatOptions, QuoteProperties, QuoteStyle, SortTailwindcssOptions};
use oxc_span::SourceType;

const NO_COMMENTS: &[Comment] = &[];

fn context(with_sorting: bool) -> JsFormatContext<'static, ()> {
    let options = JsFormatOptions {
        sort_tailwindcss: if with_sorting {
            Some(SortTailwindcssOptions {
                preserve_whitespace: false,
                attributes: vec![],
                functions: vec!["clsx".to_string()],
            })
        } else {
            None
        },
        wrap_class_names: None,
        quote_properties: QuoteProperties::AsNeeded,
        quote_style: QuoteStyle::Double,
        bracket_same_line: false,
    };
    JsFormatContext::new("", SourceType::default(), NO_COMMENTS, options)
}

fn sorting() -> ClassContext {
    let options = SortTailwindcssOptions { preserve_whitespace: false, attributes: vec![], functions: vec![] };
    ClassContext::new(Some(&options), false).unwrap()
}

#[test]
fn class_call_opens_a_context_for_its_arguments() {
    let mut c = context(true);
    let state = enter_call_expression(&mut c, &Callee::Identifier("clsx".to_string()));
    assert!(state.class_call_ctx.is_some());
    assert_eq!(state.was_disabled, None);
    begin_call_arguments(&mut c, &state);
    assert_eq!(c.class_context(), state.class_call_ctx.as_ref());
    end_call_arguments(&mut c, &state);
    exit_call_expression(&mut c, state);
    assert_eq!(c.class_context(), None);
}

#[test]
fn nested_call_disables_and_restores() {
    // `classNames("a", x.includes("\n") ? "b" : "c")`
    let mut c = context(true);
    c.push_class_context(sorting());
    let state = enter_call_expression(&mut c, &Callee::StaticMember(Box::new(Callee::Identifier("x".to_string()))));
    assert_eq!(state.class_call_ctx, None);
    assert_eq!(state.was_disabled, Some(false));
    begin_call_arguments(&mut c, &state);
    assert!(c.class_context().unwrap().disabled);
    end_call_arguments(&mut c, &state);
    exit_call_expression(&mut c, state);
    assert_eq!(c.class_context(), Some(&sorting()));
}

#[test]
fn without_class_features_nothing_opens() {
    let mut c = context(false);
    let state = enter_call_expression(&mut c, &Callee::Identifier("clsx".to_string()));
    assert_eq!(state.class_call_ctx, None);
    assert_eq!(state.was_disabled, None);
    begin_call_arguments(&mut c, &state);
    assert_eq!(c.class_context(), None);
}
