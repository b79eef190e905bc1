use oxc_class_names::class_context::ClassContext;
use oxc_class_names::options::SortTailwindcssOptions;

fn sort_options(preserve_whitespace: bool) -> SortTailwindcssOptions {
    SortTailwindcssOptions { preserve_whitespace, attributes: vec![], functions: vec![] }
}

#[test]
fn new_needs_a_feature() {
    assert_eq!(ClassContext::new(None, false), None);
    let wrap_only = ClassContext::new(None, true).unwrap();
    assert!(wrap_only.wrap && !wrap_only.sort && !wrap_only.preserve_whitespace);
    let sort = ClassContext::new(Some(&sort_options(true)), false).unwrap();
    assert!(sort.sort && !sort.wrap && sort.preserve_whitespace);
    assert!(!sort.disabled && !sort.in_template_expression);
    assert!(sort.quasi_before_has_trailing_ws && sort.quasi_after_has_leading_ws);
    assert!(sort.is_first_quasi && sort.is_last_quasi);
}

#[test]
fn without_wrap_and_activity() {
    let both = ClassContext::new(Some(&sort_options(false)), true).unwrap();
    let sorted = both.without_wrap();
    assert!(!sorted.wrap && sorted.sort && sorted.is_active());
    let wrap_only = ClassContext::new(None, true).unwrap();
    assert!(wrap_only.is_active());
    assert!(!wrap_only.without_wrap().is_active());
}

#[test]
fn template_expression_inherits_features() {
    let mut parent = ClassContext::new(Some(&sort_options(true)), true).unwrap();
    parent.disabled = true;
    parent.is_first_quasi = false;
    let inner = ClassContext::template_expression(parent, false, true);
    assert!(inner.in_template_expression && !inner.disabled);
    assert!(inner.sort && inner.wrap && inner.preserve_whitespace);
    assert!(!inner.quasi_before_has_trailing_ws && inner.quasi_after_has_leading_ws);
    assert!(inner.is_first_quasi && inner.is_last_quasi);
}

#[test]
fn quasi_position() {
    let ctx = ClassContext::new(None, true).unwrap().with_quasi_position(false, true);
    assert!(!ctx.is_first_quasi && ctx.is_last_quasi && ctx.wrap);
}
