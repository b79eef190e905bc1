//! Post-sort expansion of wrapping Tailwind class markers, for the IR whose
//! class markers carry their own `wrap` flag.
//!
//! A consumer emits `FormatElement::TailwindClass { wrap: true }` for class
//! strings that should wrap to the print width. Their final content is only
//! known after the host's batched class sort, so the consumer calls
//! [`expand_wrap_markers`] right after sorting to replace each wrapping marker
//! with `indent(fill(classes, soft_line_break_or_space))` built from the
//! post-sort string. The printer's fill algorithm then packs as many classes
//! per line as fit.
//!
//! The pass is recursive: markers may sit inside `Interned` or `BestFitting`
//! payloads. Unchanged nested slices are reused as-is.
//!
//! Splitting after the sort also makes re-formatting idempotent: a previously
//! wrapped string contains newlines and indentation, and the split on ASCII
//! whitespace collapses them back into single classes.

use vstd::prelude::*;

use crate::format_element::{
    arena_wf, elems, extends, is_leaf, leaves, lemma_extends_trans, lemma_resolve_elem_bound,
    lemma_resolve_elem_extends, lemma_resolve_leaves, lemma_resolve_seq_add, lemma_resolve_seq_extends,
    lemma_resolve_slice_extends, refs_below, resolve_elem, resolve_seq, resolve_slice,
    seq_refs_below, Elem, ElementArena, LineMode, Node, Tag,
};
use crate::strings::{chars_of, split_ascii_whitespace, split_ascii_whitespace_exec, views};

verus! {

/// One element of the core formatting IR: as
/// [`crate::format_element::FormatElement`], except that a class marker
/// carries whether its class string wraps.
#[derive(Debug)]
pub enum FormatElement {
    Space,
    Line(LineMode),
    Text(String),
    Token(String),
    Tag(Tag),
    MeasureAlone,
    /// The class string at `index` of the (sorted) class list; `wrap` marks
    /// one that wraps to the print width.
    TailwindClass { index: usize, wrap: bool },
    Interned(usize),
    BestFitting(Vec<usize>),
}

impl View for FormatElement {
    type V = Elem;

    open spec fn view(&self) -> Elem {
        match self {
            FormatElement::Space => Elem::Space,
            FormatElement::Line(mode) => Elem::Line(*mode),
            FormatElement::Text(text) => Elem::Text(text@),
            FormatElement::Token(text) => Elem::Token(text@),
            FormatElement::Tag(tag) => Elem::Tag(*tag),
            FormatElement::MeasureAlone => Elem::MeasureAlone,
            FormatElement::TailwindClass { index, wrap } => if *wrap {
                Elem::WrapMarker(*index)
            } else {
                Elem::TailwindClass(*index)
            },
            FormatElement::Interned(slot) => Elem::Interned(*slot),
            FormatElement::BestFitting(variants) => Elem::BestFitting(variants@),
        }
    }
}

/// The entry of the `k`-th class of `words` (`k >= 1`).
pub open spec fn entry(words: Seq<Seq<char>>, k: int) -> Seq<Elem> {
    seq![
        Elem::Tag(Tag::StartEntry),
        Elem::Line(LineMode::SoftOrSpace),
        Elem::Tag(Tag::EndEntry),
        Elem::Tag(Tag::StartEntry),
        Elem::Text(words[k]),
        Elem::Tag(Tag::EndEntry),
    ]
}

/// The entries of the classes `from..to` of `words`.
pub open spec fn entries(words: Seq<Seq<char>>, from: int, to: int) -> Seq<Elem>
    decreases to - from,
{
    if to <= from {
        seq![]
    } else {
        entries(words, from, to - 1) + entry(words, to - 1)
    }
}

/// What the wrapping marker of class string `index` becomes:
/// - a dangling index becomes a marker that does not wrap;
/// - whitespace-only content becomes nothing;
/// - a single class becomes its text;
/// - several classes become an indented fill of them separated by
///   `SoftOrSpace` lines (continuation lines sit one level deeper).
pub open spec fn marker_elems(classes: Seq<Seq<char>>, index: usize) -> Seq<Elem> {
    if index >= classes.len() {
        seq![Elem::TailwindClass(index)]
    } else {
        let words = split_ascii_whitespace(classes[index as int]);
        if words.len() == 0 {
            seq![]
        } else if words.len() == 1 {
            seq![Elem::Text(words[0])]
        } else {
            seq![
                Elem::Tag(Tag::StartIndent),
                Elem::Tag(Tag::StartFill),
                Elem::Tag(Tag::StartEntry),
                Elem::Text(words[0]),
                Elem::Tag(Tag::EndEntry),
            ] + entries(words, 1, words.len() as int) + seq![
                Elem::Tag(Tag::EndFill),
                Elem::Tag(Tag::EndIndent),
            ]
        }
    }
}

/// Whether a wrapping marker occurs in `ns`, at any depth.
pub open spec fn nodes_contain(ns: Seq<Node>) -> bool
    decreases ns,
{
    if ns.len() == 0 {
        false
    } else {
        node_contains(ns[0]) || nodes_contain(ns.drop_first())
    }
}

/// Whether a wrapping marker occurs in `n`, at any depth.
pub open spec fn node_contains(n: Node) -> bool
    decreases n,
{
    match n {
        Node::Leaf(e) => e is WrapMarker,
        Node::Interned(content) => nodes_contain(content),
        Node::BestFitting(variants) => variants_contain(variants),
    }
}

/// Whether a wrapping marker occurs in one of `variants`, at any depth.
pub open spec fn variants_contain(variants: Seq<Seq<Node>>) -> bool
    decreases variants,
{
    if variants.len() == 0 {
        false
    } else {
        nodes_contain(variants[0]) || variants_contain(variants.drop_first())
    }
}

/// What expanding the wrapping markers turns `ns` into: each wrapping marker
/// becomes [`marker_elems`], nested content is expanded in place, anything
/// else is kept.
pub open spec fn expand_nodes(classes: Seq<Seq<char>>, ns: Seq<Node>) -> Seq<Node>
    decreases ns,
{
    if ns.len() == 0 {
        seq![]
    } else {
        expand_node(classes, ns[0]) + expand_nodes(classes, ns.drop_first())
    }
}

/// What expanding the wrapping markers turns one node into.
pub open spec fn expand_node(classes: Seq<Seq<char>>, n: Node) -> Seq<Node>
    decreases n,
{
    match n {
        Node::Leaf(Elem::WrapMarker(index)) => leaves(marker_elems(classes, index)),
        Node::Leaf(_) => seq![n],
        Node::Interned(content) => seq![Node::Interned(expand_nodes(classes, content))],
        Node::BestFitting(variants) => seq![
            Node::BestFitting(
                Seq::new(
                    variants.len(),
                    |i: int|
                        if 0 <= i < variants.len() {
                            expand_nodes(classes, variants[i])
                        } else {
                            seq![]
                        },
                ),
            ),
        ],
    }
}

/// `nodes_contain` holds exactly when some node contains a wrapping marker.
pub proof fn lemma_nodes_contain_exists(ns: Seq<Node>)
    ensures
        nodes_contain(ns) <==> exists|i: int| 0 <= i < ns.len() && #[trigger] node_contains(ns[i]),
    decreases ns.len(),
{
    if ns.len() > 0 {
        let rest = ns.drop_first();
        lemma_nodes_contain_exists(rest);
        assert(nodes_contain(ns) == (node_contains(ns[0]) || nodes_contain(rest)));
        if nodes_contain(ns) {
            if !node_contains(ns[0]) {
                let i = choose|i: int| 0 <= i < rest.len() && #[trigger] node_contains(rest[i]);
                assert(rest[i] == ns[i + 1]);
                assert(node_contains(ns[i + 1]));
            }
        } else {
            assert forall|i: int| 0 <= i < ns.len() implies !#[trigger] node_contains(ns[i]) by {
                if i > 0 {
                    assert(rest[i - 1] == ns[i]);
                }
            }
        }
    }
}

/// `variants_contain` holds exactly when some variant contains a wrapping marker.
pub proof fn lemma_variants_contain_exists(vs: Seq<Seq<Node>>)
    ensures
        variants_contain(vs) <==> exists|i: int|
            0 <= i < vs.len() && #[trigger] nodes_contain(vs[i]),
    decreases vs.len(),
{
    if vs.len() > 0 {
        let rest = vs.drop_first();
        lemma_variants_contain_exists(rest);
        assert(variants_contain(vs) == (nodes_contain(vs[0]) || variants_contain(rest)));
        if variants_contain(vs) {
            if !nodes_contain(vs[0]) {
                let i = choose|i: int| 0 <= i < rest.len() && #[trigger] nodes_contain(rest[i]);
                assert(rest[i] == vs[i + 1]);
                assert(nodes_contain(vs[i + 1]));
            }
        } else {
            assert forall|i: int| 0 <= i < vs.len() implies !#[trigger] nodes_contain(vs[i]) by {
                if i > 0 {
                    assert(rest[i - 1] == vs[i]);
                }
            }
        }
    }
}

/// Without a wrapping marker, the expansion changes nothing.
pub proof fn lemma_expand_nodes_unchanged(classes: Seq<Seq<char>>, ns: Seq<Node>)
    requires
        !nodes_contain(ns),
    ensures
        expand_nodes(classes, ns) == ns,
    decreases ns,
{
    if ns.len() > 0 {
        assert(!node_contains(ns[0]));
        lemma_expand_node_unchanged(classes, ns[0]);
        lemma_expand_nodes_unchanged(classes, ns.drop_first());
        assert(seq![ns[0]] + ns.drop_first() =~= ns);
    }
}

/// Without a wrapping marker, the expansion changes nothing.
pub proof fn lemma_expand_node_unchanged(classes: Seq<Seq<char>>, n: Node)
    requires
        !node_contains(n),
    ensures
        expand_node(classes, n) == seq![n],
    decreases n,
{
    match n {
        Node::Leaf(e) => {
            assert(!(e is WrapMarker));
        },
        Node::Interned(content) => {
            lemma_expand_nodes_unchanged(classes, content);
        },
        Node::BestFitting(variants) => {
            lemma_variants_contain_exists(variants);
            assert forall|i: int| 0 <= i < variants.len() implies expand_nodes(classes, variants[i])
                == variants[i] by {
                assert(decreases_to!(n => variants));
                assert(decreases_to!(variants => variants[i]));
                lemma_expand_nodes_unchanged(classes, variants[i]);
            }
            let r = expand_node(classes, n);
            if let Node::BestFitting(x) = r[0] {
                assert(x =~= variants);
            }
            assert(r =~= seq![n]);
        },
    }
}

/// The entries are made of leaves.
proof fn lemma_entries_leaves(words: Seq<Seq<char>>, from: int, to: int)
    ensures
        forall|i: int| 0 <= i < entries(words, from, to).len() ==> is_leaf(#[trigger] entries(words, from, to)[i]),
    decreases to - from,
{
    if to > from {
        lemma_entries_leaves(words, from, to - 1);
        let p = entries(words, from, to - 1);
        let e = entry(words, to - 1);
        assert forall|i: int| 0 <= i < (p + e).len() implies is_leaf(#[trigger] (p + e)[i]) by {
            if i >= p.len() {
                assert((p + e)[i] == e[i - p.len()]);
            } else {
                assert((p + e)[i] == p[i]);
            }
        }
    }
}

/// What a marker becomes is made of leaves.
proof fn lemma_marker_leaves(classes: Seq<Seq<char>>, index: usize)
    ensures
        forall|i: int| 0 <= i < marker_elems(classes, index).len() ==> is_leaf(#[trigger] marker_elems(classes, index)[i]),
{
    if index < classes.len() {
        let words = split_ascii_whitespace(classes[index as int]);
        if words.len() > 1 {
            lemma_entries_leaves(words, 1, words.len() as int);
            let h = seq![
                Elem::Tag(Tag::StartIndent),
                Elem::Tag(Tag::StartFill),
                Elem::Tag(Tag::StartEntry),
                Elem::Text(words[0]),
                Elem::Tag(Tag::EndEntry),
            ];
            let m = entries(words, 1, words.len() as int);
            let t = seq![Elem::Tag(Tag::EndFill), Elem::Tag(Tag::EndIndent)];
            assert forall|i: int| 0 <= i < (h + m + t).len() implies is_leaf(#[trigger] (h + m + t)[i]) by {
                if i < h.len() {
                    assert((h + m + t)[i] == h[i]);
                } else if i < h.len() + m.len() {
                    assert((h + m + t)[i] == m[i - h.len()]);
                } else {
                    assert((h + m + t)[i] == t[i - h.len() - m.len()]);
                }
            }
        }
    }
}

/// A copy of `e`.
pub fn clone_element(e: &FormatElement) -> (r: FormatElement)
    ensures
        r@ == e@,
{
    match e {
        FormatElement::Space => FormatElement::Space,
        FormatElement::Line(mode) => FormatElement::Line(*mode),
        FormatElement::Text(text) => FormatElement::Text(text.clone()),
        FormatElement::Token(text) => FormatElement::Token(text.clone()),
        FormatElement::Tag(tag) => FormatElement::Tag(*tag),
        FormatElement::MeasureAlone => FormatElement::MeasureAlone,
        FormatElement::TailwindClass { index, wrap } => FormatElement::TailwindClass {
            index: *index,
            wrap: *wrap,
        },
        FormatElement::Interned(slot) => FormatElement::Interned(*slot),
        FormatElement::BestFitting(variants) => {
            let mut copy: Vec<usize> = Vec::new();
            let mut i: usize = 0;
            while i < variants.len()
                invariant
                    i <= variants.len(),
                    copy@ == variants@.take(i as int),
                decreases variants.len() - i,
            {
                copy.push(variants[i]);
                proof {
                    assert(variants@.take(i + 1) =~= variants@.take(i as int).push(variants@[i as int]));
                }
                i += 1;
            }
            assert(variants@.take(variants.len() as int) =~= variants@);
            FormatElement::BestFitting(copy)
        },
    }
}

/// Whether the slice in `slot` contains a wrapping marker, at any depth.
pub fn slice_contains_wrap_marker(arena: &ElementArena<FormatElement>, slot: usize) -> (r: bool)
    requires
        arena_wf(arena@),
        slot < arena@.len(),
    ensures
        r == nodes_contain(resolve_slice(arena@, slot as int)),
    decreases slot,
{
    let ghost a = arena@;
    let slice = arena.slice(slot);
    let ghost rs = resolve_slice(a, slot as int);
    let mut i: usize = 0;
    while i < slice.len()
        invariant
            arena_wf(a),
            a == arena@,
            slot < a.len(),
            elems(slice@) == a[slot as int],
            rs == resolve_slice(a, slot as int),
            rs.len() == slice.len(),
            i <= slice.len(),
            forall|j: int| 0 <= j < i ==> !node_contains(#[trigger] rs[j]),
        decreases slice.len() - i,
    {
        let ghost e = slice@[i as int]@;
        assert(elems(slice@)[i as int] == e);
        assert(refs_below(e, slot as int));
        assert(rs[i as int] == resolve_elem(a, e, slot as int));
        let found = match &slice[i] {
            FormatElement::TailwindClass { wrap, .. } => *wrap,
            FormatElement::Interned(k) => slice_contains_wrap_marker(arena, *k),
            FormatElement::BestFitting(variants) => {
                let ghost vnodes = Seq::new(
                    variants@.len(),
                    |m: int|
                        if 0 <= variants@[m] < slot {
                            resolve_slice(a, variants@[m] as int)
                        } else {
                            seq![]
                        },
                );
                proof {
                    if let Node::BestFitting(x) = rs[i as int] {
                        assert(x =~= vnodes);
                    }
                }
                let mut found = false;
                let mut m: usize = 0;
                while m < variants.len() && !found
                    invariant
                        arena_wf(a),
                        a == arena@,
                        slot < a.len(),
                        m <= variants.len(),
                        forall|v: int| 0 <= v < variants@.len() ==> #[trigger] variants@[v] < slot,
                        vnodes.len() == variants@.len(),
                        forall|v: int|
                            0 <= v < variants@.len() ==> #[trigger] vnodes[v] == resolve_slice(
                                a,
                                variants@[v] as int,
                            ),
                        !found ==> forall|v: int| 0 <= v < m ==> !nodes_contain(#[trigger] vnodes[v]),
                        found ==> exists|v: int| 0 <= v < vnodes.len() && nodes_contain(#[trigger] vnodes[v]),
                    decreases variants.len() - m,
                {
                    found = slice_contains_wrap_marker(arena, variants[m]);
                    assert(found == nodes_contain(vnodes[m as int]));
                    m += 1;
                }
                proof {
                    lemma_variants_contain_exists(vnodes);
                }
                found
            },
            _ => false,
        };
        assert(found == node_contains(rs[i as int]));
        if found {
            proof {
                lemma_nodes_contain_exists(rs);
            }
            return true;
        }
        i += 1;
    }
    proof {
        lemma_nodes_contain_exists(rs);
    }
    false
}

/// Appends what the wrapping marker of class string `index` becomes (see
/// [`marker_elems`]) to `out`.
pub fn expand_marker_into(index: usize, out: &mut Vec<FormatElement>, sorted_classes: &[String])
    ensures
        elems(final(out)@) == elems(old(out)@) + marker_elems(views(sorted_classes@), index),
{
    let ghost classes = views(sorted_classes@);
    let ghost out0 = elems(out@);
    if index >= sorted_classes.len() {
        // Dangling index: keep the marker so the printer reports it.
        out.push(FormatElement::TailwindClass { index, wrap: false });
        proof {
            assert(elems(out@) =~= out0 + marker_elems(classes, index));
        }
        return;
    }
    let class_chars = chars_of(sorted_classes[index].as_str());
    let words = split_ascii_whitespace_exec(class_chars.as_slice());
    let ghost ws = views(words@);
    assert(ws == split_ascii_whitespace(classes[index as int]));
    if words.len() == 0 {
        // Whitespace-only content: nothing to emit.
        assert(elems(out@) =~= out0 + marker_elems(classes, index));
        return;
    }
    if words.len() == 1 {
        // Single class: nothing to wrap.
        out.push(FormatElement::Text(words[0].clone()));
        proof {
            assert(elems(out@) =~= out0 + marker_elems(classes, index));
        }
        return;
    }
    out.push(FormatElement::Tag(Tag::StartIndent));
    out.push(FormatElement::Tag(Tag::StartFill));
    out.push(FormatElement::Tag(Tag::StartEntry));
    out.push(FormatElement::Text(words[0].clone()));
    out.push(FormatElement::Tag(Tag::EndEntry));
    let ghost head = seq![
        Elem::Tag(Tag::StartIndent),
        Elem::Tag(Tag::StartFill),
        Elem::Tag(Tag::StartEntry),
        Elem::Text(ws[0]),
        Elem::Tag(Tag::EndEntry),
    ];
    assert(elems(out@) =~= out0 + head + entries(ws, 1, 1));
    let mut k: usize = 1;
    while k < words.len()
        invariant
            1 <= k <= words.len(),
            ws == views(words@),
            ws.len() == words.len(),
            elems(out@) == out0 + head + entries(ws, 1, k as int),
        decreases words.len() - k,
    {
        let ghost before = elems(out@);
        out.push(FormatElement::Tag(Tag::StartEntry));
        out.push(FormatElement::Line(LineMode::SoftOrSpace));
        out.push(FormatElement::Tag(Tag::EndEntry));
        out.push(FormatElement::Tag(Tag::StartEntry));
        out.push(FormatElement::Text(words[k].clone()));
        out.push(FormatElement::Tag(Tag::EndEntry));
        proof {
            assert(elems(out@) =~= before + entry(ws, k as int));
            assert(entries(ws, 1, k + 1) == entries(ws, 1, k as int) + entry(ws, k as int));
            assert(elems(out@) =~= out0 + head + entries(ws, 1, k + 1));
        }
        k += 1;
    }
    let ghost before_end = elems(out@);
    out.push(FormatElement::Tag(Tag::EndFill));
    out.push(FormatElement::Tag(Tag::EndIndent));
    proof {
        assert(elems(out@) =~= before_end + seq![Elem::Tag(Tag::EndFill), Elem::Tag(Tag::EndIndent)]);
        assert(elems(out@) =~= out0 + marker_elems(classes, index));
    }
}

/// Returns the slice in `slot` itself when it contains no wrapping marker,
/// otherwise the slot of a copy rebuilt with the markers expanded.
pub fn expand_slice(arena: &mut ElementArena<FormatElement>, slot: usize, sorted_classes: &[String]) -> (r: usize)
    requires
        arena_wf(old(arena)@),
        slot < old(arena)@.len(),
    ensures
        arena_wf(final(arena)@),
        extends(final(arena)@, old(arena)@),
        r < final(arena)@.len(),
        resolve_slice(final(arena)@, r as int) == expand_nodes(
            views(sorted_classes@),
            resolve_slice(old(arena)@, slot as int),
        ),
        !nodes_contain(resolve_slice(old(arena)@, slot as int)) ==> r == slot && final(arena)@ == old(
            arena,
        )@,
    decreases slot, 2int,
{
    let ghost a0 = arena@;
    let ghost cls = views(sorted_classes@);
    proof {
        assert(a0.take(a0.len() as int) =~= a0);
    }
    if !slice_contains_wrap_marker(arena, slot) {
        proof {
            lemma_expand_nodes_unchanged(cls, resolve_slice(a0, slot as int));
        }
        return slot;
    }
    let source = arena.slice(slot);
    let mut elements: Vec<FormatElement> = Vec::new();
    let mut i: usize = 0;
    while i < source.len()
        invariant
            i <= source.len(),
            elems(elements@) == elems(source@).take(i as int),
        decreases source.len() - i,
    {
        let e = clone_element(&source[i]);
        proof {
            assert(elems(source@)[i as int] == source@[i as int]@);
            assert(elems(elements@.push(e)) =~= elems(elements@).push(e@));
            assert(elems(elements@.push(e)) =~= elems(source@).take(i + 1));
        }
        elements.push(e);
        i += 1;
    }
    assert(elems(source@).take(source.len() as int) =~= elems(source@));
    let ghost es = elems(elements@);
    assert(es == a0[slot as int]);
    let mut out: Vec<FormatElement> = Vec::new();
    let mut i: usize = 0;
    proof {
        assert(elems(out@) =~= Seq::<Elem>::empty());
        assert(resolve_seq(a0, es, slot as int).subrange(0, 0) =~= Seq::<Node>::empty());
    }
    while i < elements.len()
        invariant
            i <= elements.len(),
            es == elems(elements@),
            es == a0[slot as int],
            slot < a0.len(),
            arena_wf(a0),
            arena_wf(arena@),
            extends(arena@, a0),
            seq_refs_below(elems(out@), arena@.len() as int),
            resolve_seq(arena@, elems(out@), arena@.len() as int) == expand_nodes(
                cls,
                resolve_seq(a0, es, slot as int).subrange(0, i as int),
            ),
            cls == views(sorted_classes@),
        decreases elements.len() - i,
    {
        let ghost a_i = arena@;
        let e = clone_element(&elements[i]);
        proof {
            assert(es[i as int] == elements@[i as int]@);
            assert(refs_below(es[i as int], slot as int));
        }
        expand_element_into(e, &mut out, sorted_classes, arena, Ghost(slot as int));
        proof {
            let rr = resolve_seq(a0, es, slot as int);
            lemma_resolve_elem_extends(a0, a_i, es[i as int], slot as int);
            lemma_expand_nodes_append(cls, rr.subrange(0, i as int), rr[i as int]);
            assert(rr.subrange(0, i + 1) =~= rr.subrange(0, i as int).push(rr[i as int]));
            lemma_extends_trans(arena@, a_i, a0);
        }
        i += 1;
    }
    let ghost a1 = arena@;
    let ghost outs = elems(out@);
    let r = arena.intern(out);
    proof {
        let a2 = arena@;
        assert(a2.take(a1.len() as int) =~= a1);
        assert forall|k: int| 0 <= k < a2.len() implies seq_refs_below(#[trigger] a2[k], k) by {
            if k < a1.len() {
                assert(a2[k] == a1[k]);
            }
        }
        assert forall|k: int| 0 <= k < outs.len() implies resolve_elem(a2, outs[k], a1.len() as int)
            == resolve_elem(a1, outs[k], a1.len() as int) by {
            lemma_resolve_elem_extends(a1, a2, outs[k], a1.len() as int);
        }
        assert(resolve_slice(a2, r as int) =~= resolve_seq(a1, outs, a1.len() as int));
        assert(resolve_seq(a0, es, slot as int).subrange(0, es.len() as int) =~= resolve_slice(a0, slot as int));
        lemma_extends_trans(a2, a1, a0);
    }
    r
}

/// `expand_nodes` of a sequence followed by one node.
pub proof fn lemma_expand_nodes_append(classes: Seq<Seq<char>>, ns: Seq<Node>, n: Node)
    ensures
        expand_nodes(classes, ns.push(n)) == expand_nodes(classes, ns) + expand_node(classes, n),
    decreases ns.len(),
{
    if ns.len() == 0 {
        assert(ns.push(n).drop_first() =~= Seq::<Node>::empty());
        assert(ns.push(n)[0] == n);
        assert(expand_nodes(classes, Seq::<Node>::empty()) == Seq::<Node>::empty());
        assert(expand_nodes(classes, ns) == Seq::<Node>::empty());
        assert(expand_nodes(classes, ns.push(n)) == expand_node(classes, n) + expand_nodes(
            classes,
            ns.push(n).drop_first(),
        ));
        assert(expand_nodes(classes, ns.push(n)) =~= expand_nodes(classes, ns) + expand_node(
            classes,
            n,
        ));
    } else {
        assert(ns.push(n).drop_first() =~= ns.drop_first().push(n));
        lemma_expand_nodes_append(classes, ns.drop_first(), n);
        assert(expand_nodes(classes, ns.push(n)) =~= expand_nodes(classes, ns) + expand_node(
            classes,
            n,
        ));
    }
}

/// Appends the expansion of `element` to `out`: a wrapping marker becomes
/// its fill, nested content is expanded, anything else is kept.
pub fn expand_element_into(
    element: FormatElement,
    out: &mut Vec<FormatElement>,
    sorted_classes: &[String],
    arena: &mut ElementArena<FormatElement>,
    bound: Ghost<int>,
)
    requires
        arena_wf(old(arena)@),
        0 <= bound@ <= old(arena)@.len(),
        refs_below(element@, bound@),
        seq_refs_below(elems(old(out)@), old(arena)@.len() as int),
    ensures
        arena_wf(final(arena)@),
        extends(final(arena)@, old(arena)@),
        seq_refs_below(elems(final(out)@), final(arena)@.len() as int),
        resolve_seq(final(arena)@, elems(final(out)@), final(arena)@.len() as int) == resolve_seq(
            old(arena)@,
            elems(old(out)@),
            old(arena)@.len() as int,
        ) + expand_node(views(sorted_classes@), resolve_elem(old(arena)@, element@, bound@)),
        !node_contains(resolve_elem(old(arena)@, element@, bound@)) ==> final(arena)@ == old(arena)@
            && elems(final(out)@) == elems(old(out)@).push(element@),
    decreases bound@, 1int,
{
    let ghost a0 = arena@;
    let ghost cls = views(sorted_classes@);
    let ghost out0 = elems(out@);
    proof {
        assert(a0.take(a0.len() as int) =~= a0);
    }
    match element {
        FormatElement::TailwindClass { index, wrap: true } => {
            expand_marker_into(index, out, sorted_classes);
            proof {
                lemma_marker_leaves(cls, index);
                let added = marker_elems(cls, index);
                lemma_resolve_seq_add(a0, out0, added, a0.len() as int);
                lemma_resolve_leaves(a0, added, a0.len() as int);
                assert forall|k: int| 0 <= k < elems(out@).len() implies refs_below(#[trigger] elems(out@)[k], a0.len() as int) by {
                    if k < out0.len() {
                        assert(elems(out@)[k] == out0[k]);
                    } else {
                        assert(elems(out@)[k] == added[k - out0.len()]);
                    }
                }
            }
        },
        FormatElement::Interned(k) => {
            let r = expand_slice(arena, k, sorted_classes);
            let x = FormatElement::Interned(r);
            proof {
                assert(elems(out@.push(x)) =~= out0.push(x@));
                lemma_resolve_seq_extends(a0, arena@, out0);
                assert(elems(out@.push(x)) =~= out0.push(x@));
                assert(resolve_seq(arena@, out0.push(x@), arena@.len() as int) =~= resolve_seq(
                    arena@,
                    out0,
                    arena@.len() as int,
                ).push(resolve_elem(arena@, x@, arena@.len() as int)));
                assert forall|j: int| 0 <= j < out0.push(x@).len() implies refs_below(#[trigger] out0.push(x@)[j], arena@.len() as int) by {
                    if j < out0.len() {
                        assert(refs_below(out0[j], a0.len() as int));
                    }
                }
            }
            out.push(x);
        },
        FormatElement::BestFitting(variants) => {
            let ghost vnodes = Seq::new(
                variants@.len(),
                |m: int|
                    if 0 <= variants@[m] < bound@ {
                        resolve_slice(a0, variants@[m] as int)
                    } else {
                        seq![]
                    },
            );
            proof {
                if let Node::BestFitting(x) = resolve_elem(a0, element@, bound@) {
                    assert(x =~= vnodes);
                }
            }
            let mut found = false;
            let mut m: usize = 0;
            while m < variants.len() && !found
                invariant
                    arena_wf(a0),
                    arena@ == a0,
                    0 <= bound@ <= a0.len(),
                    m <= variants.len(),
                    forall|v: int| 0 <= v < variants@.len() ==> #[trigger] variants@[v] < bound@,
                    vnodes.len() == variants@.len(),
                    forall|v: int|
                        0 <= v < variants@.len() ==> #[trigger] vnodes[v] == resolve_slice(
                            a0,
                            variants@[v] as int,
                        ),
                    !found ==> forall|v: int| 0 <= v < m ==> !nodes_contain(#[trigger] vnodes[v]),
                    found ==> exists|v: int| 0 <= v < vnodes.len() && nodes_contain(#[trigger] vnodes[v]),
                decreases variants.len() - m,
            {
                found = slice_contains_wrap_marker(arena, variants[m]);
                assert(found == nodes_contain(vnodes[m as int]));
                m += 1;
            }
            proof {
                lemma_variants_contain_exists(vnodes);
            }
            if found {
                let mut expanded: Vec<usize> = Vec::new();
                let mut m: usize = 0;
                while m < variants.len()
                    invariant
                        arena_wf(a0),
                        arena_wf(arena@),
                        extends(arena@, a0),
                        0 <= bound@ <= a0.len(),
                        m <= variants.len(),
                        expanded@.len() == m,
                        cls == views(sorted_classes@),
                        forall|v: int| 0 <= v < variants@.len() ==> #[trigger] variants@[v] < bound@,
                        vnodes.len() == variants@.len(),
                        forall|v: int|
                            0 <= v < variants@.len() ==> #[trigger] vnodes[v] == resolve_slice(
                                a0,
                                variants@[v] as int,
                            ),
                        forall|v: int|
                            0 <= v < m ==> {
                                &&& #[trigger] expanded@[v] < arena@.len()
                                &&& resolve_slice(arena@, expanded@[v] as int) == expand_nodes(
                                    cls,
                                    vnodes[v],
                                )
                            },
                    decreases variants.len() - m,
                {
                    let ghost before = arena@;
                    proof {
                        lemma_resolve_slice_extends(a0, before, variants@[m as int] as int);
                    }
                    let r = expand_slice(arena, variants[m], sorted_classes);
                    proof {
                        lemma_extends_trans(arena@, before, a0);
                        assert forall|v: int| 0 <= v < m implies {
                            &&& #[trigger] expanded@[v] < arena@.len()
                            &&& resolve_slice(arena@, expanded@[v] as int) == expand_nodes(
                                cls,
                                vnodes[v],
                            )
                        } by {
                            lemma_resolve_slice_extends(before, arena@, expanded@[v] as int);
                        }
                    }
                    expanded.push(r);
                    m += 1;
                }
                let x = FormatElement::BestFitting(expanded);
                proof {
                    lemma_resolve_seq_extends(a0, arena@, out0);
                    assert(elems(out@.push(x)) =~= out0.push(x@));
                    assert(resolve_seq(arena@, out0.push(x@), arena@.len() as int) =~= resolve_seq(
                        arena@,
                        out0,
                        arena@.len() as int,
                    ).push(resolve_elem(arena@, x@, arena@.len() as int)));
                    let en = expand_node(cls, Node::BestFitting(vnodes));
                    if let Node::BestFitting(y) = resolve_elem(arena@, x@, arena@.len() as int) {
                        if let Node::BestFitting(z) = en[0] {
                            assert(y =~= z);
                        }
                    }
                    assert(en =~= seq![resolve_elem(arena@, x@, arena@.len() as int)]);
                    assert forall|j: int| 0 <= j < out0.push(x@).len() implies refs_below(#[trigger] out0.push(x@)[j], arena@.len() as int) by {
                        if j < out0.len() {
                            assert(refs_below(out0[j], a0.len() as int));
                        } else {
                            assert forall|v: int| 0 <= v < x@->BestFitting_0.len() implies #[trigger] x@->BestFitting_0[v] < arena@.len() by {}
                        }
                    }
                }
                out.push(x);
            } else {
                let x = FormatElement::BestFitting(variants);
                proof {
                    lemma_expand_node_unchanged(cls, Node::BestFitting(vnodes));
                    assert(elems(out@.push(x)) =~= out0.push(x@));
                    assert(resolve_seq(a0, out0.push(x@), a0.len() as int) =~= resolve_seq(
                        a0,
                        out0,
                        a0.len() as int,
                    ).push(resolve_elem(a0, x@, a0.len() as int)));
                    lemma_resolve_elem_bound(a0, x@, bound@, a0.len() as int);
                    assert forall|j: int| 0 <= j < out0.push(x@).len() implies refs_below(#[trigger] out0.push(x@)[j], a0.len() as int) by {
                        if j < out0.len() {
                            assert(refs_below(out0[j], a0.len() as int));
                        }
                    }
                }
                out.push(x);
            }
        },
        other => {
            let ghost ov = other@;
            proof {
                assert(!(ov is WrapMarker));
                assert(resolve_elem(a0, ov, bound@) == Node::Leaf(ov));
                assert(resolve_elem(a0, ov, a0.len() as int) == Node::Leaf(ov));
            }
            let x = other;
            proof {
                assert(elems(out@.push(x)) =~= out0.push(x@));
                assert(resolve_seq(a0, out0.push(x@), a0.len() as int) =~= resolve_seq(
                    a0,
                    out0,
                    a0.len() as int,
                ).push(resolve_elem(a0, x@, a0.len() as int)));
                assert forall|j: int| 0 <= j < out0.push(x@).len() implies refs_below(#[trigger] out0.push(x@)[j], a0.len() as int) by {
                    if j < out0.len() {
                        assert(refs_below(out0[j], a0.len() as int));
                    }
                }
            }
            out.push(x);
        },
    }
}

/// Replaces every `TailwindClass { wrap: true }` marker with an
/// `indent(fill(...))` sequence of the post-sort classes (see
/// [`expand_nodes`]). New slices are added to `arena`.
///
/// `wrap: false` markers pass through unchanged (they are resolved by the
/// printer against `sorted_classes`, which stays index-compatible because
/// this pass never adds or removes classes).
pub fn expand_wrap_markers(
    elements: Vec<FormatElement>,
    sorted_classes: &[String],
    arena: &mut ElementArena<FormatElement>,
) -> (r: Vec<FormatElement>)
    requires
        arena_wf(old(arena)@),
        seq_refs_below(elems(elements@), old(arena)@.len() as int),
    ensures
        extends(final(arena)@, old(arena)@),
        arena_wf(final(arena)@),
        seq_refs_below(elems(r@), final(arena)@.len() as int),
        resolve_seq(final(arena)@, elems(r@), final(arena)@.len() as int) == expand_nodes(
            views(sorted_classes@),
            resolve_seq(old(arena)@, elems(elements@), old(arena)@.len() as int),
        ),
        !nodes_contain(resolve_seq(old(arena)@, elems(elements@), old(arena)@.len() as int))
            ==> elems(r@) == elems(elements@) && final(arena)@ == old(arena)@,
{
    let ghost a0 = arena@;
    let ghost cls = views(sorted_classes@);
    let ghost es = elems(elements@);
    let ghost rr = resolve_seq(a0, es, a0.len() as int);
    let mut result: Vec<FormatElement> = Vec::new();
    let mut elements = elements;
    let mut rest: Vec<FormatElement> = Vec::new();
    // Move the elements out in order: reverse them, then pop.
    while elements.len() > 0
        invariant
            rest@.len() + elements@.len() == es.len(),
            forall|k: int| 0 <= k < rest@.len() ==> #[trigger] rest@[k]@ == es[es.len() - 1 - k],
            forall|k: int| 0 <= k < elements@.len() ==> #[trigger] elements@[k]@ == es[k],
        decreases elements.len(),
    {
        let e = elements.pop().unwrap();
        rest.push(e);
    }
    let len = rest.len();
    proof {
        assert(a0.take(a0.len() as int) =~= a0);
        assert(elems(result@) =~= Seq::<Elem>::empty());
        assert(rr.subrange(0, 0) =~= Seq::<Node>::empty());
    }
    let mut i: usize = 0;
    while i < len
        invariant
            i <= len,
            len == es.len(),
            rest@.len() == len - i,
            forall|k: int| 0 <= k < rest@.len() ==> #[trigger] rest@[k]@ == es[es.len() - 1 - k],
            seq_refs_below(es, a0.len() as int),
            rr == resolve_seq(a0, es, a0.len() as int),
            arena_wf(arena@),
            extends(arena@, a0),
            seq_refs_below(elems(result@), arena@.len() as int),
            resolve_seq(arena@, elems(result@), arena@.len() as int) == expand_nodes(
                cls,
                rr.subrange(0, i as int),
            ),
            cls == views(sorted_classes@),
            !nodes_contain(rr) ==> arena@ == a0 && elems(result@) == es.take(i as int),
        decreases len - i,
    {
        let ghost a_i = arena@;
        let ghost res_i = elems(result@);
        proof {
            if !nodes_contain(rr) {
                lemma_nodes_contain_exists(rr);
                assert(!node_contains(rr[i as int]));
            }
        }
        let e = rest.pop().unwrap();
        proof {
            assert(e@ == es[i as int]);
            assert(refs_below(es[i as int], a0.len() as int));
            lemma_resolve_elem_bound(a_i, e@, a0.len() as int, a_i.len() as int);
            lemma_resolve_elem_extends(a0, a_i, e@, a0.len() as int);
        }
        expand_element_into(e, &mut result, sorted_classes, arena, Ghost(a_i.len() as int));
        proof {
            lemma_expand_nodes_append(cls, rr.subrange(0, i as int), rr[i as int]);
            assert(rr.subrange(0, i + 1) =~= rr.subrange(0, i as int).push(rr[i as int]));
            lemma_extends_trans(arena@, a_i, a0);
            if !nodes_contain(rr) {
                assert(es.take(i + 1) =~= es.take(i as int).push(es[i as int]));
            }
        }
        i += 1;
    }
    proof {
        assert(rr.subrange(0, len as int) =~= rr);
        assert(es.take(len as int) =~= es);
    }
    result
}

/// Re-formatting is idempotent: a class string that an earlier run wrapped
/// (its classes separated by newlines and indentation) expands to the same
/// fill as the single-line string of the same classes, because the split on
/// ASCII whitespace collapses every run of whitespace.
pub proof fn lemma_rewrap_idempotent(classes: Seq<Seq<char>>, index: usize)
    requires
        index < classes.len(),
    ensures
        marker_elems(
            classes.update(
                index as int,
                crate::strings::join_with_space(split_ascii_whitespace(classes[index as int])),
            ),
            index,
        ) == marker_elems(classes, index),
{
    crate::strings::lemma_split_words(classes[index as int]);
    crate::strings::lemma_split_join(split_ascii_whitespace(classes[index as int]));
}

/// Expanding a concatenation expands each part: the pass reads no node
/// across a boundary, so `expand_wrap_markers(a ++ b)` resolves to
/// `expand_wrap_markers(a) ++ expand_wrap_markers(b)`.
pub proof fn lemma_expand_nodes_concat(classes: Seq<Seq<char>>, a: Seq<Node>, b: Seq<Node>)
    ensures
        expand_nodes(classes, a + b) == expand_nodes(classes, a) + expand_nodes(classes, b),
    decreases a.len(),
{
    if a.len() == 0 {
        assert(a + b =~= b);
        assert(expand_nodes(classes, a) == Seq::<Node>::empty());
        assert(Seq::<Node>::empty() + expand_nodes(classes, b) =~= expand_nodes(classes, b));
    } else {
        assert((a + b)[0] == a[0]);
        assert((a + b).drop_first() =~= a.drop_first() + b);
        lemma_expand_nodes_concat(classes, a.drop_first(), b);
        assert(expand_nodes(classes, a + b) =~= expand_nodes(classes, a) + expand_nodes(classes, b));
    }
}

/// `nodes_contain` of a concatenation.
proof fn lemma_nodes_contain_add(a: Seq<Node>, b: Seq<Node>)
    ensures
        nodes_contain(a + b) == (nodes_contain(a) || nodes_contain(b)),
{
    lemma_nodes_contain_exists(a);
    lemma_nodes_contain_exists(b);
    lemma_nodes_contain_exists(a + b);
    if nodes_contain(a + b) {
        let i = choose|i: int| 0 <= i < (a + b).len() && #[trigger] node_contains((a + b)[i]);
        if i < a.len() {
            assert((a + b)[i] == a[i]);
        } else {
            assert((a + b)[i] == b[i - a.len()]);
        }
    }
    if nodes_contain(a) {
        let i = choose|i: int| 0 <= i < a.len() && #[trigger] node_contains(a[i]);
        assert((a + b)[i] == a[i]);
    }
    if nodes_contain(b) {
        let i = choose|i: int| 0 <= i < b.len() && #[trigger] node_contains(b[i]);
        assert((a + b)[a.len() + i] == b[i]);
    }
}

/// The entries of a fill hold no wrapping marker.
proof fn lemma_entries_no_marker(words: Seq<Seq<char>>, from: int, to: int)
    ensures
        forall|k: int| 0 <= k < entries(words, from, to).len() ==> !(#[trigger] entries(words, from, to)[k] is WrapMarker),
    decreases to - from,
{
    if to > from {
        lemma_entries_no_marker(words, from, to - 1);
        let p = entries(words, from, to - 1);
        let e = entry(words, to - 1);
        assert forall|k: int| 0 <= k < (p + e).len() implies !(#[trigger] (p + e)[k] is WrapMarker) by {
            if k < p.len() {
                assert((p + e)[k] == p[k]);
            } else {
                assert((p + e)[k] == e[k - p.len()]);
            }
        }
    }
}

/// What a wrapping marker becomes holds no wrapping marker.
proof fn lemma_marker_no_marker(classes: Seq<Seq<char>>, index: usize)
    ensures
        !nodes_contain(leaves(marker_elems(classes, index))),
{
    let m = marker_elems(classes, index);
    if index < classes.len() {
        let words = split_ascii_whitespace(classes[index as int]);
        if words.len() > 1 {
            let h = seq![
                Elem::Tag(Tag::StartIndent),
                Elem::Tag(Tag::StartFill),
                Elem::Tag(Tag::StartEntry),
                Elem::Text(words[0]),
                Elem::Tag(Tag::EndEntry),
            ];
            let es = entries(words, 1, words.len() as int);
            let t = seq![Elem::Tag(Tag::EndFill), Elem::Tag(Tag::EndIndent)];
            lemma_entries_no_marker(words, 1, words.len() as int);
            assert forall|k: int| 0 <= k < m.len() implies !(#[trigger] m[k] is WrapMarker) by {
                if k < h.len() {
                    assert(m[k] == h[k]);
                } else if k < h.len() + es.len() {
                    assert(m[k] == es[k - h.len()]);
                } else {
                    assert(m[k] == t[k - h.len() - es.len()]);
                }
            }
        }
    }
    let ns = leaves(m);
    lemma_nodes_contain_exists(ns);
    assert forall|k: int| 0 <= k < ns.len() implies !#[trigger] node_contains(ns[k]) by {
        assert(ns[k] == Node::Leaf(m[k]));
    }
}

/// No wrapping marker remains after the expansion, at any depth.
pub proof fn lemma_no_marker_remains(classes: Seq<Seq<char>>, ns: Seq<Node>)
    ensures
        !nodes_contain(expand_nodes(classes, ns)),
    decreases ns,
{
    if ns.len() > 0 {
        lemma_no_marker_remains_node(classes, ns[0]);
        lemma_no_marker_remains(classes, ns.drop_first());
        lemma_nodes_contain_add(expand_node(classes, ns[0]), expand_nodes(classes, ns.drop_first()));
    }
}

/// No wrapping marker remains after expanding one node, at any depth.
pub proof fn lemma_no_marker_remains_node(classes: Seq<Seq<char>>, n: Node)
    ensures
        !nodes_contain(expand_node(classes, n)),
    decreases n,
{
    match n {
        Node::Leaf(Elem::WrapMarker(index)) => {
            lemma_marker_no_marker(classes, index);
            assert(expand_node(classes, n) == leaves(marker_elems(classes, index)));
            assert(!nodes_contain(leaves(marker_elems(classes, index))));
            assert(!nodes_contain(expand_node(classes, n)));
        },
        Node::Leaf(e) => {
            let r = expand_node(classes, n);
            assert(r == seq![n]);
            assert(!(e is WrapMarker));
            assert(!node_contains(n));
            assert(r.drop_first() =~= Seq::<Node>::empty());
            assert(!nodes_contain(Seq::<Node>::empty()));
            assert(!nodes_contain(r));
        },
        Node::Interned(content) => {
            lemma_no_marker_remains(classes, content);
            let r = expand_node(classes, n);
            assert(r[0] == Node::Interned(expand_nodes(classes, content)));
            assert(!node_contains(r[0]));
            assert(r.drop_first() =~= Seq::<Node>::empty());
            assert(!nodes_contain(Seq::<Node>::empty()));
            assert(!nodes_contain(r));
        },
        Node::BestFitting(variants) => {
            let r = expand_node(classes, n);
            let vs = Seq::new(
                variants.len(),
                |i: int|
                    if 0 <= i < variants.len() {
                        expand_nodes(classes, variants[i])
                    } else {
                        seq![]
                    },
            );
            if let Node::BestFitting(x) = r[0] {
                assert(x =~= vs);
            }
            assert(r =~= seq![Node::BestFitting(vs)]);
            assert forall|i: int| 0 <= i < vs.len() implies !#[trigger] nodes_contain(vs[i]) by {
                assert(decreases_to!(n => variants));
                assert(decreases_to!(variants => variants[i]));
                lemma_no_marker_remains(classes, variants[i]);
            }
            lemma_variants_contain_exists(vs);
            assert(!node_contains(r[0]));
            assert(r.drop_first() =~= Seq::<Node>::empty());
            assert(!nodes_contain(Seq::<Node>::empty()));
            assert(!nodes_contain(r));
        },
    }
}

/// Expanding the elements of a concatenated document expands each part:
/// the trees of `expand_wrap_markers(a ++ b)` are those of
/// `expand_wrap_markers(a)` followed by those of `expand_wrap_markers(b)`.
pub proof fn lemma_expand_elements_concat(
    classes: Seq<Seq<char>>,
    arena: Seq<Seq<Elem>>,
    a: Seq<Elem>,
    b: Seq<Elem>,
    bound: int,
)
    ensures
        expand_nodes(classes, resolve_seq(arena, a + b, bound)) == expand_nodes(
            classes,
            resolve_seq(arena, a, bound),
        ) + expand_nodes(classes, resolve_seq(arena, b, bound)),
{
    lemma_resolve_seq_add(arena, a, b, bound);
    lemma_expand_nodes_concat(classes, resolve_seq(arena, a, bound), resolve_seq(arena, b, bound));
}

} // verus!
