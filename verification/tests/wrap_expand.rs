use oxc_class_names::format_element::ElementArena;
use oxc_class_names::wrap_expand::{expand_wrap_markers, slice_contains_wrap_marker, FormatElement};

fn render(elements: &[FormatElement], arena: &ElementArena<FormatElement>) -> String {
    let parts: Vec<String> = elements
        .iter()
        .map(|element| match element {
            FormatElement::Interned(slot) => {
                format!("Interned({})", render(arena.slice(*slot), arena))
            }
            FormatElement::BestFitting(variants) => {
                let inner: Vec<String> =
                    variants.iter().map(|slot| render(arena.slice(*slot), arena)).collect();
                format!("BestFitting([{}])", inner.join(", "))
            }
            other => format!("{other:?}"),
        })
        .collect();
    format!("Vec([{}])", parts.join(", "))
}

fn run_in(
    elements: Vec<FormatElement>,
    classes: &[&str],
    arena: &mut ElementArena<FormatElement>,
) -> String {
    let classes: Vec<String> = classes.iter().map(ToString::to_string).collect();
    let result = expand_wrap_markers(elements, &classes, arena);
    render(&result, arena)
}

fn run(elements: Vec<FormatElement>, classes: &[&str]) -> String {
    let mut arena = ElementArena::new();
    run_in(elements, classes, &mut arena)
}

#[test]
fn wrap_expand_passthrough_non_wrap_marker() {
    let out = run(vec![FormatElement::TailwindClass { index: 0, wrap: false }], &["b a"]);
    assert_eq!(out, "Vec([TailwindClass { index: 0, wrap: false }])");
}

#[test]
fn wrap_expand_single_class_becomes_plain_text() {
    let out = run(vec![FormatElement::TailwindClass { index: 0, wrap: true }], &["only-class"]);
    assert_eq!(out, "Vec([Text(\"only-class\")])");
}

#[test]
fn wrap_expand_multiple_classes_become_fill() {
    let out = run(vec![FormatElement::TailwindClass { index: 0, wrap: true }], &["a b c"]);
    assert_eq!(
        out,
        "Vec([Tag(StartIndent), Tag(StartFill), \
         Tag(StartEntry), Text(\"a\"), Tag(EndEntry), \
         Tag(StartEntry), Line(SoftOrSpace), Tag(EndEntry), \
         Tag(StartEntry), Text(\"b\"), Tag(EndEntry), \
         Tag(StartEntry), Line(SoftOrSpace), Tag(EndEntry), \
         Tag(StartEntry), Text(\"c\"), Tag(EndEntry), \
         Tag(EndFill), Tag(EndIndent)])"
    );
}

#[test]
fn wrap_expand_collapses_internal_newlines() {
    // Idempotency: previously wrapped output re-parses with embedded
    // newlines and indentation; the split collapses them.
    let out = run(vec![FormatElement::TailwindClass { index: 0, wrap: true }], &["a\n  b"]);
    assert!(out.contains("Text(\"a\")") && out.contains("Text(\"b\")"), "{out}");
}

#[test]
fn wrap_expand_expands_inside_interned_and_best_fitting() {
    let mut arena = ElementArena::new();
    let inner = arena.intern(vec![FormatElement::TailwindClass { index: 0, wrap: true }]);
    let interned = FormatElement::Interned(inner);
    let flat = arena.intern(vec![FormatElement::TailwindClass { index: 0, wrap: true }]);
    let expanded = arena.intern(vec![FormatElement::TailwindClass { index: 0, wrap: true }]);
    let best_fitting = FormatElement::BestFitting(vec![flat, expanded]);

    let out = run_in(vec![interned, best_fitting], &["a b"], &mut arena);
    assert!(!out.contains("TailwindClass"), "all markers must expand: {out}");
    assert_eq!(out.matches("Tag(StartFill)").count(), 3, "{out}");
}

#[test]
fn wrap_expand_whitespace_only_becomes_nothing() {
    let out = run(vec![FormatElement::TailwindClass { index: 0, wrap: true }], &[" \n "]);
    assert_eq!(out, "Vec([])");
}

#[test]
fn wrap_expand_dangling_index_stops_wrapping() {
    let out = run(vec![FormatElement::TailwindClass { index: 2, wrap: true }], &["a b"]);
    assert_eq!(out, "Vec([TailwindClass { index: 2, wrap: false }])");
}

#[test]
fn wrap_expand_slice_contains_wrap_marker() {
    let mut arena = ElementArena::new();
    let plain = arena.intern(vec![FormatElement::TailwindClass { index: 0, wrap: false }]);
    let marked = arena.intern(vec![FormatElement::TailwindClass { index: 0, wrap: true }]);
    let nested = arena.intern(vec![FormatElement::Interned(marked)]);
    let fitting = arena.intern(vec![FormatElement::BestFitting(vec![plain, nested])]);
    assert!(!slice_contains_wrap_marker(&arena, plain));
    assert!(slice_contains_wrap_marker(&arena, marked));
    assert!(slice_contains_wrap_marker(&arena, nested));
    assert!(slice_contains_wrap_marker(&arena, fitting));
}

#[test]
fn wrap_expand_unchanged_content_is_kept() {
    let mut arena = ElementArena::new();
    let plain = arena.intern(vec![FormatElement::Text("x".to_string())]);
    let out = run_in(
        vec![FormatElement::Interned(plain), FormatElement::Space],
        &["a b"],
        &mut arena,
    );
    assert_eq!(out, "Vec([Interned(Vec([Text(\"x\")])), Space])");
}

#[test]
fn wrap_expand_rewrapped_string_expands_like_single_line() {
    let single = run(vec![FormatElement::TailwindClass { index: 0, wrap: true }], &["p-4 flex m-2"]);
    let wrapped = run(vec![FormatElement::TailwindClass { index: 0, wrap: true }], &["p-4\n    flex\tm-2 "]);
    assert_eq!(single, wrapped);
}

#[test]
fn wrap_expand_slice_without_marker_is_reused() {
    let mut arena = ElementArena::new();
    let plain = arena.intern(vec![FormatElement::TailwindClass { index: 0, wrap: false }]);
    let before = arena.len();
    let classes = vec!["a b".to_string()];
    let out = expand_wrap_markers(
        vec![FormatElement::Interned(plain), FormatElement::BestFitting(vec![plain])],
        &classes,
        &mut arena,
    );
    assert_eq!(format!("{out:?}"), format!("[Interned({plain}), BestFitting([{plain}])]"));
    assert_eq!(arena.len(), before);
}

#[test]
fn wrap_expand_no_wrapping_marker_remains() {
    let mut arena = ElementArena::new();
    let inner = arena.intern(vec![FormatElement::TailwindClass { index: 5, wrap: true }]);
    let out = run_in(
        vec![
            FormatElement::Interned(inner),
            FormatElement::TailwindClass { index: 0, wrap: true },
        ],
        &["a b"],
        &mut arena,
    );
    assert!(!out.contains("wrap: true"), "{out}");
}

#[test]
fn wrap_expand_concatenation_expands_each_part() {
    let a = vec![FormatElement::TailwindClass { index: 0, wrap: true }];
    let b = vec![FormatElement::Space, FormatElement::TailwindClass { index: 0, wrap: true }];
    let both = run(
        vec![
            FormatElement::TailwindClass { index: 0, wrap: true },
            FormatElement::Space,
            FormatElement::TailwindClass { index: 0, wrap: true },
        ],
        &["x y"],
    );
    let first = run(a, &["x y"]);
    let second = run(b, &["x y"]);
    let joined = format!("{}, {}", first.trim_end_matches("])"), second.trim_start_matches("Vec(["));
    assert_eq!(both, joined);
}
