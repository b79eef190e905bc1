//! Post-sort expansion of wrapping class-string markers (`wrap_class_names`).
//!
//! The class string writers mark some `FormatElement::TailwindClass` indices
//! as wrapping. Their final content is only known after the host's batched
//! class sort, so `format` calls [`expand_wrap_markers`] right after sorting
//! to replace each wrapping marker with a `fill` of the post-sort classes,
//! separated by `SoftOrSpace` lines. The printer's fill algorithm then packs
//! as many classes per line as fit.
//!
//! The pass is recursive: markers may sit inside `Interned` or `BestFitting`
//! payloads. Unchanged nested slices are reused as-is, and each shared slice
//! is scanned and rebuilt once: the same interned content is referenced from
//! several best-fitting variants at every nesting level, so rebuilding it per
//! reference would grow exponentially with nesting depth.
//!
//! Splitting after the sort also makes re-formatting idempotent: a previously
//! wrapped string contains newlines and indentation, and the split on ASCII
//! whitespace collapses them back into single classes.

pub mod expander;
pub mod fill;

use vstd::prelude::*;

use crate::format_element::{
    arena_wf, elems, extends, resolve_seq, seq_refs_below, Elem, ElementArena, FormatElement,
    Node, Tag,
};
use crate::memo::memo_new;
use crate::strings::views;

use self::expander::{map_slots, Expander};
use self::fill::marker_elems;

verus! {

/// The class index of a marker leaf.
pub open spec fn marker_index(n: Node) -> usize {
    match n {
        Node::Leaf(Elem::TailwindClass(index)) => index,
        _ => 0,
    }
}

/// The element of a leaf.
pub open spec fn leaf_elem(n: Node) -> Elem {
    match n {
        Node::Leaf(e) => e,
        _ => Elem::Space,
    }
}

/// A marker whose class string wraps.
pub open spec fn is_wrap_marker_elem(wraps: Seq<bool>, e: Elem) -> bool {
    match e {
        Elem::TailwindClass(index) => index < wraps.len() && wraps[index as int],
        _ => false,
    }
}

/// A leaf that is a wrapping marker.
pub open spec fn is_wrap_marker_node(wraps: Seq<bool>, n: Node) -> bool {
    match n {
        Node::Leaf(e) => is_wrap_marker_elem(wraps, e),
        _ => false,
    }
}

/// The text of a token that closes a string: a quote, a backtick, or a
/// backtick and a brace.
pub open spec fn is_closing_text(t: Seq<char>) -> bool {
    t == seq!['"'] || t == seq!['\''] || t == seq!['`'] || t == seq!['`', '}']
}

/// The end of an indent.
pub open spec fn is_end_indent_node(n: Node) -> bool {
    n == Node::Leaf(Elem::Tag(Tag::EndIndent))
}

/// A text that is one space.
pub open spec fn is_space_node(n: Node) -> bool {
    n == Node::Leaf(Elem::Text(seq![' ']))
}

/// A token that closes a string.
pub open spec fn is_closing_node(n: Node) -> bool {
    match n {
        Node::Leaf(Elem::Token(t)) => is_closing_text(t),
        _ => false,
    }
}

/// Whether a wrapping marker occurs in `ns`, at any depth.
pub open spec fn nodes_contain(wraps: Seq<bool>, ns: Seq<Node>) -> bool
    decreases ns,
{
    if ns.len() == 0 {
        false
    } else {
        node_contains(wraps, ns[0]) || nodes_contain(wraps, ns.drop_first())
    }
}

/// Whether a wrapping marker occurs in `n`, at any depth.
pub open spec fn node_contains(wraps: Seq<bool>, n: Node) -> bool
    decreases n,
{
    match n {
        Node::Leaf(e) => is_wrap_marker_elem(wraps, e),
        Node::Interned(content) => nodes_contain(wraps, content),
        Node::BestFitting(variants) => variants_contain(wraps, variants),
    }
}

/// Whether a wrapping marker occurs in one of `variants`, at any depth.
pub open spec fn variants_contain(wraps: Seq<bool>, variants: Seq<Seq<Node>>) -> bool
    decreases variants,
{
    if variants.len() == 0 {
        false
    } else {
        nodes_contain(wraps, variants[0]) || variants_contain(wraps, variants.drop_first())
    }
}

/// Where the lookahead after the wrapping marker at the start of `ns` ends:
/// past an `EndIndent`, then past a space. Returns `(p2, p3)`: the space (if
/// any) is `ns[p2..p3]`, and a closing token would be `ns[p3]`.
pub open spec fn lookahead(ns: Seq<Node>) -> (int, int) {
    let p2: int = if ns.len() > 1 && is_end_indent_node(ns[1]) {
        2
    } else {
        1
    };
    let p3: int = if ns.len() > p2 && is_space_node(ns[p2]) {
        p2 + 1
    } else {
        p2
    };
    (p2, p3)
}

/// The elements of leaves.
pub open spec fn leaf_elems(ns: Seq<Node>) -> Seq<Elem> {
    ns.map_values(|n: Node| leaf_elem(n))
}

/// What expanding the wrapping markers turns `ns` into.
///
/// A wrapping marker becomes its fill ([`marker_elems`]). What closes the
/// string belongs to the last line, so when the marker is followed (past an
/// optional `EndIndent`) by an optional space and a closing token, the space
/// and the token move into the fill, after the last class; the `EndIndent`
/// follows the fill. A space with no closing token after it stays outside
/// the fill. Nested content is expanded in place; everything else is kept.
pub open spec fn expand_nodes(classes: Seq<Seq<char>>, wraps: Seq<bool>, ns: Seq<Node>) -> Seq<
    Node,
>
    decreases ns,
{
    if ns.len() == 0 {
        seq![]
    } else if is_wrap_marker_node(wraps, ns[0]) {
        let index = marker_index(ns[0]);
        let (p2, p3) = lookahead(ns);
        let end_indent = ns.subrange(1, p2);
        let space = ns.subrange(p2, p3);
        if ns.len() > p3 && is_closing_node(ns[p3]) {
            crate::format_element::leaves(
                marker_elems(classes, index, leaf_elems(space).push(leaf_elem(ns[p3]))),
            ) + end_indent + expand_nodes(classes, wraps, ns.subrange(p3 + 1, ns.len() as int))
        } else {
            crate::format_element::leaves(marker_elems(classes, index, seq![])) + end_indent
                + space + expand_nodes(classes, wraps, ns.subrange(p3, ns.len() as int))
        }
    } else {
        seq![expand_node(classes, wraps, ns[0])] + expand_nodes(classes, wraps, ns.drop_first())
    }
}

/// What expanding the wrapping markers turns nested content into.
pub open spec fn expand_node(classes: Seq<Seq<char>>, wraps: Seq<bool>, n: Node) -> Node
    decreases n,
{
    match n {
        Node::Leaf(_) => n,
        Node::Interned(content) => Node::Interned(expand_nodes(classes, wraps, content)),
        Node::BestFitting(variants) => Node::BestFitting(
            Seq::new(
                variants.len(),
                |i: int|
                    if 0 <= i < variants.len() {
                        expand_nodes(classes, wraps, variants[i])
                    } else {
                        seq![]
                    },
            ),
        ),
    }
}

/// `output` is `input` element for element, each slot that an element
/// references moved by `image`: two references to one slot of the input are
/// references to one slot of the output.
pub open spec fn moves_slots(image: spec_fn(usize) -> usize, input: Seq<Elem>, output: Seq<Elem>) -> bool {
    output == input.map_values(|e: Elem| map_slots(image, e))
}

/// Replaces every `TailwindClass(index)` marker whose `wraps[index]` is `true`
/// with a `fill` of the post-sort classes (see [`expand_nodes`]). New slices
/// are added to `arena`; slices without a wrapping marker are reused.
///
/// Other markers pass through unchanged: the printer resolves them against
/// `sorted_classes`, which stays index-compatible because this pass never
/// adds or removes classes.
///
/// Unchanged nested slices are reused as they are, and a shared slice is
/// rebuilt once: without a wrapping marker at the top level, the elements
/// come out in place, and every reference to one input slot becomes a
/// reference to one output slot; without a wrapping marker at any depth,
/// the elements come out as they are and the arena is left alone.
pub fn expand_wrap_markers(
    elements: Vec<FormatElement>,
    sorted_classes: &[String],
    wraps: &[bool],
    arena: &mut ElementArena<FormatElement>,
) -> (r: Vec<FormatElement>)
    requires
        arena_wf(old(arena)@),
        seq_refs_below(elems(elements@), old(arena)@.len() as int),
    ensures
        extends(final(arena)@, old(arena)@),
        arena_wf(final(arena)@),
        seq_refs_below(elems(r@), final(arena)@.len() as int),
        resolve_seq(final(arena)@, elems(r@), final(arena)@.len() as int) == expand_nodes(
            views(sorted_classes@),
            wraps@,
            resolve_seq(old(arena)@, elems(elements@), old(arena)@.len() as int),
        ),
        !nodes_contain(wraps@, resolve_seq(old(arena)@, elems(elements@), old(arena)@.len() as int))
            ==> elems(r@) == elems(elements@) && final(arena)@ == old(arena)@,
        (forall|j: int| 0 <= j < elements@.len() ==> !is_wrap_marker_elem(wraps@, #[trigger] elements@[j]@))
            ==> exists|image: spec_fn(usize) -> usize| #[trigger] moves_slots(image, elems(elements@), elems(r@)),
{
    let ghost initial = arena@;
    let mut expander = Expander {
        sorted_classes,
        wraps,
        contains: memo_new(),
        expanded: memo_new(),
        initial: Ghost(initial),
    };
    let mut out: Vec<FormatElement> = Vec::new();
    proof {
        assert(initial.take(initial.len() as int) =~= initial);
        assert(resolve_seq(initial, elems(out@), initial.len() as int) =~= Seq::<Node>::empty());
    }
    let len = arena.len();
    let ghost input = elems(elements@);
    let ghost given = elements@;
    expander.expand_into(arena, elements, Ghost(len as int), &mut out);
    proof {
        assert(Seq::<Elem>::empty() + input =~= input);
        let image = expander.image();
        assert(Seq::<Elem>::empty() + input.map_values(|e: Elem| map_slots(image, e)) =~= input.map_values(
            |e: Elem| map_slots(image, e),
        ));
        if forall|j: int| 0 <= j < input.len() ==> !is_wrap_marker_elem(wraps@, #[trigger] input[j]) {
            assert forall|j: int| 0 <= j < given.len() implies !is_wrap_marker_elem(
                wraps@,
                #[trigger] given[j]@,
            ) by {
                assert(input[j] == given[j]@);
            }
            assert(moves_slots(image, input, elems(out@)));
        }
        assert(Seq::<Node>::empty() + expand_nodes(
            views(sorted_classes@),
            wraps@,
            resolve_seq(initial, elems(elements@), initial.len() as int),
        ) =~= expand_nodes(
            views(sorted_classes@),
            wraps@,
            resolve_seq(initial, elems(elements@), initial.len() as int),
        ));
    }
    out
}

/// A leaf that is not a class marker.
pub open spec fn is_plain_leaf(n: Node) -> bool {
    match n {
        Node::Leaf(e) => !(e is TailwindClass),
        _ => false,
    }
}

/// Leaves none of which is a class marker.
pub open spec fn no_marker_leaves(ns: Seq<Node>) -> bool {
    forall|k: int| 0 <= k < ns.len() ==> is_plain_leaf(#[trigger] ns[k])
}

/// `nodes_contain` of a concatenation.
proof fn lemma_nodes_contain_add(wraps: Seq<bool>, a: Seq<Node>, b: Seq<Node>)
    ensures
        nodes_contain(wraps, a + b) == (nodes_contain(wraps, a) || nodes_contain(wraps, b)),
{
    self::expander::lemma_nodes_contain_exists(wraps, a);
    self::expander::lemma_nodes_contain_exists(wraps, b);
    self::expander::lemma_nodes_contain_exists(wraps, a + b);
    if nodes_contain(wraps, a + b) {
        let i = choose|i: int| 0 <= i < (a + b).len() && #[trigger] node_contains(wraps, (a + b)[i]);
        if i < a.len() {
            assert((a + b)[i] == a[i]);
        } else {
            assert((a + b)[i] == b[i - a.len()]);
        }
    }
    if nodes_contain(wraps, a) {
        let i = choose|i: int| 0 <= i < a.len() && #[trigger] node_contains(wraps, a[i]);
        assert((a + b)[i] == a[i]);
    }
    if nodes_contain(wraps, b) {
        let i = choose|i: int| 0 <= i < b.len() && #[trigger] node_contains(wraps, b[i]);
        assert((a + b)[a.len() + i] == b[i]);
    }
}

/// Leaves without a class marker hold no wrapping marker.
proof fn lemma_no_marker_leaves(wraps: Seq<bool>, ns: Seq<Node>)
    requires
        no_marker_leaves(ns),
    ensures
        !nodes_contain(wraps, ns),
{
    self::expander::lemma_nodes_contain_exists(wraps, ns);
    assert forall|k: int| 0 <= k < ns.len() implies !#[trigger] node_contains(wraps, ns[k]) by {
        assert(no_marker_leaves(ns));
        if let Node::Leaf(e) = ns[k] {
            assert(!(e is TailwindClass));
        }
    }
}

/// The fill entries hold no class marker when what closes them holds none.
proof fn lemma_fill_entries_no_marker(words: Seq<Seq<char>>, from: int, to: int, closing: Seq<Elem>)
    requires
        forall|i: int| 0 <= i < closing.len() ==> !(#[trigger] closing[i] is TailwindClass),
    ensures
        forall|i: int|
            0 <= i < fill::fill_entries(words, from, to, closing).len() ==> !(
            #[trigger] fill::fill_entries(words, from, to, closing)[i] is TailwindClass),
    decreases to - from,
{
    if to > from {
        lemma_fill_entries_no_marker(words, from, to - 1, closing);
        let prefix = fill::fill_entries(words, from, to - 1, closing);
        let entry = fill::fill_entry(words, to - 1, closing);
        assert(fill::fill_entries(words, from, to, closing) == prefix + entry);
        assert forall|i: int| 0 <= i < entry.len() implies !(#[trigger] entry[i] is TailwindClass) by {
            if 5 <= i < entry.len() - 1 {
                assert(to - 1 == words.len() - 1);
                assert(entry[i] == closing[i - 5]);
            }
        }
        assert forall|i: int| 0 <= i < (prefix + entry).len() implies !(#[trigger] (prefix + entry)[i] is TailwindClass) by {
            if i >= prefix.len() {
                assert((prefix + entry)[i] == entry[i - prefix.len()]);
            } else {
                assert((prefix + entry)[i] == prefix[i]);
            }
        }
    }
}

/// The fill of a marker whose class string exists holds no class marker
/// when what closes it holds none.
proof fn lemma_marker_fill_no_marker(classes: Seq<Seq<char>>, index: usize, closing: Seq<Elem>)
    requires
        index < classes.len(),
        forall|i: int| 0 <= i < closing.len() ==> !(#[trigger] closing[i] is TailwindClass),
    ensures
        no_marker_leaves(crate::format_element::leaves(marker_elems(classes, index, closing))),
{
    let m = marker_elems(classes, index, closing);
    let words = crate::strings::split_ascii_whitespace(classes[index as int]);
    if words.len() > 1 {
        let h = seq![
            Elem::Tag(Tag::StartFill),
            Elem::Tag(Tag::StartEntry),
            Elem::Text(words[0]),
            Elem::Tag(Tag::EndEntry),
        ];
        let es = fill::fill_entries(words, 1, words.len() as int, closing);
        lemma_fill_entries_no_marker(words, 1, words.len() as int, closing);
        assert forall|k: int| 0 <= k < m.len() implies !(#[trigger] m[k] is TailwindClass) by {
            if k < h.len() {
                assert(m[k] == h[k]);
            } else if k < h.len() + es.len() {
                assert(m[k] == es[k - h.len()]);
            }
        }
    } else if words.len() == 1 {
        assert forall|k: int| 0 <= k < m.len() implies !(#[trigger] m[k] is TailwindClass) by {
            if k > 0 {
                assert(m[k] == closing[k - 1]);
            }
        }
    }
    let ns = crate::format_element::leaves(m);
    assert forall|k: int| 0 <= k < ns.len() implies is_plain_leaf(#[trigger] ns[k]) by {
        assert(ns[k] == Node::Leaf(m[k]));
    }
}

/// No wrapping marker remains after the expansion, at any depth, when every
/// wrapping class string exists (as `format` arranges: `wraps` has one flag
/// per sorted class).
pub proof fn lemma_no_marker_remains(classes: Seq<Seq<char>>, wraps: Seq<bool>, ns: Seq<Node>)
    requires
        wraps.len() <= classes.len(),
    ensures
        !nodes_contain(wraps, expand_nodes(classes, wraps, ns)),
    decreases ns, 1int,
{
    if ns.len() > 0 {
        if is_wrap_marker_node(wraps, ns[0]) {
            let index = marker_index(ns[0]);
            let (p2, p3) = lookahead(ns);
            let end_indent = ns.subrange(1, p2);
            let space = ns.subrange(p2, p3);
            assert(no_marker_leaves(end_indent)) by {
                assert forall|k: int| 0 <= k < end_indent.len() implies is_plain_leaf(#[trigger] end_indent[k]) by {
                    assert(end_indent[k] == ns[1 + k]);
                }
            }
            assert(no_marker_leaves(space)) by {
                assert forall|k: int| 0 <= k < space.len() implies is_plain_leaf(#[trigger] space[k]) by {
                    assert(space[k] == ns[p2 + k]);
                }
            }
            lemma_no_marker_leaves(wraps, end_indent);
            lemma_no_marker_leaves(wraps, space);
            if ns.len() > p3 && is_closing_node(ns[p3]) {
                let closing = leaf_elems(space).push(leaf_elem(ns[p3]));
                assert forall|i: int| 0 <= i < closing.len() implies !(#[trigger] closing[i] is TailwindClass) by {
                    if i < space.len() {
                        assert(closing[i] == leaf_elem(space[i]));
                    }
                }
                lemma_marker_fill_no_marker(classes, index, closing);
                let fill = crate::format_element::leaves(marker_elems(classes, index, closing));
                lemma_no_marker_leaves(wraps, fill);
                let rest = ns.subrange(p3 + 1, ns.len() as int);
                lemma_no_marker_remains(classes, wraps, rest);
                lemma_nodes_contain_add(wraps, fill, end_indent);
                lemma_nodes_contain_add(wraps, fill + end_indent, expand_nodes(classes, wraps, rest));
                assert(expand_nodes(classes, wraps, ns) == fill + end_indent + expand_nodes(
                    classes,
                    wraps,
                    rest,
                ));
            } else {
                lemma_marker_fill_no_marker(classes, index, seq![]);
                let fill = crate::format_element::leaves(marker_elems(classes, index, seq![]));
                lemma_no_marker_leaves(wraps, fill);
                let rest = ns.subrange(p3, ns.len() as int);
                lemma_no_marker_remains(classes, wraps, rest);
                lemma_nodes_contain_add(wraps, fill, end_indent);
                lemma_nodes_contain_add(wraps, fill + end_indent, space);
                lemma_nodes_contain_add(wraps, fill + end_indent + space, expand_nodes(classes, wraps, rest));
                assert(expand_nodes(classes, wraps, ns) == fill + end_indent + space + expand_nodes(
                    classes,
                    wraps,
                    rest,
                ));
            }
        } else {
            lemma_no_marker_remains_node(classes, wraps, ns[0]);
            lemma_no_marker_remains(classes, wraps, ns.drop_first());
            let head = seq![expand_node(classes, wraps, ns[0])];
            assert(head.drop_first() =~= Seq::<Node>::empty());
            lemma_nodes_contain_add(wraps, head, expand_nodes(classes, wraps, ns.drop_first()));
            assert(head[0] == expand_node(classes, wraps, ns[0]));
            assert(!node_contains(wraps, head[0]));
            assert(!nodes_contain(wraps, head.drop_first()));
            assert(!nodes_contain(wraps, head));
            assert(expand_nodes(classes, wraps, ns) == head + expand_nodes(classes, wraps, ns.drop_first()));
        }
    } else {
        assert(expand_nodes(classes, wraps, ns) == Seq::<Node>::empty());
    }
}

/// No wrapping marker remains after expanding the content of a node that is
/// not itself a wrapping marker.
pub proof fn lemma_no_marker_remains_node(classes: Seq<Seq<char>>, wraps: Seq<bool>, n: Node)
    requires
        wraps.len() <= classes.len(),
        !is_wrap_marker_node(wraps, n),
    ensures
        !node_contains(wraps, expand_node(classes, wraps, n)),
    decreases n, 0int,
{
    match n {
        Node::Leaf(_) => {},
        Node::Interned(content) => {
            assert(decreases_to!(n => content));
            lemma_no_marker_remains(classes, wraps, content);
        },
        Node::BestFitting(variants) => {
            let vs = Seq::new(
                variants.len(),
                |i: int|
                    if 0 <= i < variants.len() {
                        expand_nodes(classes, wraps, variants[i])
                    } else {
                        seq![]
                    },
            );
            if let Node::BestFitting(x) = expand_node(classes, wraps, n) {
                assert(x =~= vs);
            }
            assert forall|i: int| 0 <= i < vs.len() implies !#[trigger] nodes_contain(wraps, vs[i]) by {
                assert(decreases_to!(n => variants));
                assert(decreases_to!(variants => variants[i]));
                lemma_no_marker_remains(classes, wraps, variants[i]);
            }
            self::expander::lemma_variants_contain_exists(wraps, vs);
        },
    }
}

} // verus!
