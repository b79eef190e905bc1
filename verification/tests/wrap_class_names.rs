use oxc_class_names::format_element::{ElementArena, FormatElement, LineMode, Tag};
use oxc_class_names::wrap_class_names::expand_wrap_markers;

/// Renders elements as the IR's debug form, with nested content (interned
/// slices and best-fitting variants) written out in place.
fn render(elements: &[FormatElement], arena: &ElementArena<FormatElement>) -> String {
    let parts: Vec<String> = elements
        .iter()
        .map(|element| match element {
            FormatElement::Interned(slot) => {
                format!("Interned({})", render(arena.slice(*slot), arena))
            }
            FormatElement::BestFitting(variants) => {
                let inner: Vec<String> =
                    variants.iter().map(|slot| render(arena.slice(*slot), arena)).collect();
                format!("BestFitting([{}])", inner.join(", "))
            }
            other => format!("{other:?}"),
        })
        .collect();
    format!("Vec([{}])", parts.join(", "))
}

fn run_in(
    elements: Vec<FormatElement>,
    classes: &[&str],
    arena: &mut ElementArena<FormatElement>,
) -> String {
    let classes: Vec<String> = classes.iter().map(ToString::to_string).collect();
    let wraps = vec![true; classes.len()];
    let result = expand_wrap_markers(elements, &classes, &wraps, arena);
    render(&result, arena)
}

fn run(elements: Vec<FormatElement>, classes: &[&str]) -> String {
    let mut arena = ElementArena::new();
    run_in(elements, classes, &mut arena)
}

#[test]
fn mod_passthrough_non_wrap_marker() {
    let mut arena = ElementArena::new();
    let elements = vec![FormatElement::TailwindClass(0)];
    let classes = vec!["b a".to_string()];
    let out = expand_wrap_markers(elements, &classes, &[false], &mut arena);
    assert_eq!(format!("Vec({out:?})"), "Vec([TailwindClass(0)])");
}

#[test]
fn mod_single_class_becomes_plain_text() {
    let out = run(vec![FormatElement::TailwindClass(0)], &["only-class"]);
    assert_eq!(out, "Vec([Text(\"only-class\")])");
}

#[test]
fn mod_multiple_classes_become_fill() {
    let out = run(vec![FormatElement::TailwindClass(0)], &["a b c"]);
    assert_eq!(
        out,
        "Vec([Tag(StartFill), \
         Tag(StartEntry), Text(\"a\"), Tag(EndEntry), \
         Tag(StartEntry), Line(SoftOrSpace), Tag(EndEntry), \
         Tag(StartEntry), Text(\"b\"), Tag(EndEntry), \
         Tag(StartEntry), Line(SoftOrSpace), Tag(EndEntry), \
         Tag(StartEntry), Text(\"c\"), Tag(EndEntry), \
         Tag(EndFill)])"
    );
}

#[test]
fn closing_delimiter_joins_last_entry() {
    let out = run(
        vec![FormatElement::TailwindClass(0), FormatElement::Token("\"".to_string())],
        &["a b"],
    );
    assert!(out.ends_with("Text(\"b\"), Token(\"\\\"\"), Tag(EndEntry), Tag(EndFill)])"), "{out}");
}

#[test]
fn mod_collapses_internal_newlines() {
    // Idempotency: previously wrapped output re-parses with embedded
    // newlines and indentation; the split collapses them.
    let out = run(vec![FormatElement::TailwindClass(0)], &["a\n  b"]);
    assert!(out.contains("Text(\"a\")") && out.contains("Text(\"b\")"), "{out}");
}

#[test]
fn shared_interned_content_is_expanded_once() {
    let mut arena = ElementArena::new();
    let interned = arena.intern(vec![FormatElement::TailwindClass(0)]);
    let elements = vec![FormatElement::Interned(interned), FormatElement::Interned(interned)];
    let classes = vec!["a b".to_string()];
    let out = expand_wrap_markers(elements, &classes, &[true], &mut arena);

    let [FormatElement::Interned(first), FormatElement::Interned(second)] = out.as_slice() else {
        panic!("expected two interned elements: {out:?}");
    };
    assert!(first == second, "{out:?}");
}

#[test]
fn mod_expands_inside_interned_and_best_fitting() {
    let mut arena = ElementArena::new();
    let inner = arena.intern(vec![FormatElement::TailwindClass(0)]);
    let interned = FormatElement::Interned(inner);
    let flat = arena.intern(vec![FormatElement::TailwindClass(0)]);
    let expanded = arena.intern(vec![FormatElement::TailwindClass(0)]);
    let best_fitting = FormatElement::BestFitting(vec![flat, expanded]);

    let out = run_in(vec![interned, best_fitting], &["a b"], &mut arena);
    assert!(!out.contains("TailwindClass"), "all markers must expand: {out}");
    assert_eq!(out.matches("Tag(StartFill)").count(), 3, "{out}");
}

#[test]
fn end_indent_follows_fill_and_closing_moves_inside() {
    // `indent(marker)` then a space and a closing backtick: the space and the
    // backtick close the last line, the indent ends after the fill.
    let out = run(
        vec![
            FormatElement::Tag(Tag::StartIndent),
            FormatElement::TailwindClass(0),
            FormatElement::Tag(Tag::EndIndent),
            FormatElement::Text(" ".to_string()),
            FormatElement::Token("`".to_string()),
        ],
        &["a b"],
    );
    assert_eq!(
        out,
        "Vec([Tag(StartIndent), Tag(StartFill), \
         Tag(StartEntry), Text(\"a\"), Tag(EndEntry), \
         Tag(StartEntry), Line(SoftOrSpace), Tag(EndEntry), \
         Tag(StartEntry), Text(\"b\"), Text(\" \"), Token(\"`\"), Tag(EndEntry), \
         Tag(EndFill), Tag(EndIndent)])"
    );
}

#[test]
fn space_without_closing_token_stays_outside() {
    let out = run(
        vec![FormatElement::TailwindClass(0), FormatElement::Text(" ".to_string())],
        &["a"],
    );
    assert_eq!(out, "Vec([Text(\"a\"), Text(\" \")])");
}

#[test]
fn whitespace_only_class_becomes_nothing() {
    let out = run(
        vec![FormatElement::TailwindClass(0), FormatElement::Token("'".to_string())],
        &["   "],
    );
    assert_eq!(out, "Vec([Token(\"'\")])");
}

#[test]
fn dangling_index_keeps_marker() {
    let mut arena = ElementArena::new();
    let classes = vec!["a b".to_string()];
    let out =
        expand_wrap_markers(vec![FormatElement::TailwindClass(3)], &classes, &[true], &mut arena);
    assert_eq!(format!("{out:?}"), "[TailwindClass(3)]");
}

#[test]
fn unchanged_slices_are_reused() {
    let mut arena = ElementArena::new();
    let plain = arena.intern(vec![FormatElement::Text("x".to_string())]);
    let classes = vec!["a b".to_string()];
    let before = arena.len();
    let out = expand_wrap_markers(vec![FormatElement::Interned(plain)], &classes, &[true], &mut arena);
    assert_eq!(format!("{out:?}"), format!("[Interned({plain})]"));
    assert_eq!(arena.len(), before);
}

#[test]
fn rewrapped_string_expands_like_single_line() {
    let single = run(vec![FormatElement::TailwindClass(0)], &["p-4 flex m-2"]);
    let wrapped = run(vec![FormatElement::TailwindClass(0)], &["p-4\n    flex\tm-2 "]);
    assert_eq!(single, wrapped);
    assert!(!single.contains(&format!("{:?}", LineMode::Hard)));
}

#[test]
fn references_to_one_slot_share_its_rebuilt_copy() {
    let mut arena = ElementArena::new();
    let shared = arena.intern(vec![FormatElement::TailwindClass(0)]);
    let other = arena.intern(vec![FormatElement::Text("x".to_string())]);
    let elements = vec![
        FormatElement::Interned(shared),
        FormatElement::BestFitting(vec![shared, other]),
        FormatElement::Interned(other),
    ];
    let classes = vec!["a b".to_string()];
    let out = expand_wrap_markers(elements, &classes, &[true], &mut arena);
    let [FormatElement::Interned(first), FormatElement::BestFitting(variants), FormatElement::Interned(kept)] =
        out.as_slice()
    else {
        panic!("expected the elements in place: {out:?}");
    };
    assert_eq!(variants, &vec![*first, other]);
    assert_eq!(*kept, other);
    assert_ne!(*first, shared);
}

#[test]
fn without_markers_nothing_is_rebuilt() {
    let mut arena = ElementArena::new();
    let inner = arena.intern(vec![FormatElement::TailwindClass(0)]);
    let before = arena.len();
    let elements = vec![FormatElement::Interned(inner), FormatElement::BestFitting(vec![inner])];
    let classes = vec!["a b".to_string()];
    let out = expand_wrap_markers(elements, &classes, &[false], &mut arena);
    assert_eq!(format!("{out:?}"), format!("[Interned({inner}), BestFitting([{inner}])]"));
    assert_eq!(arena.len(), before);
}
