//! The recursive walk that rebuilds the document around wrapping markers.
//!
//! Each shared slice is scanned and rebuilt once: whether a slice contains a
//! wrapping marker, and the rebuilt version of a slice that does, are kept in
//! memo tables keyed by the slice.

use vstd::prelude::*;

use rustc_hash::FxHashMap;

use crate::format_element::{
    arena_wf, clone_element, clone_elements, elems, extends, is_leaf, leaves, lemma_extends_trans,
    lemma_resolve_elem_bound, lemma_resolve_elem_extends, lemma_resolve_leaves, lemma_resolve_seq_add,
    lemma_resolve_seq_extends, lemma_resolve_slice_extends,
    refs_below, resolve_elem, resolve_seq, resolve_slice, seq_refs_below, text, Elem,
    ElementArena, FormatElement, Node, Tag,
};
use crate::memo::{memo_get, memo_insert, SliceKey};
use crate::strings::views;

use super::fill::marker_elems;
use super::{
    expand_node, expand_nodes, is_closing_node, is_closing_text, is_end_indent_node,
    is_space_node, is_wrap_marker_elem, is_wrap_marker_node, leaf_elem, leaf_elems, lookahead,
    marker_index, node_contains, nodes_contain, variants_contain,
};

verus! {

/// The key of the slice in `slot`: its slot and its length.
pub fn slice_key(slot: usize, slice: &[FormatElement]) -> (r: SliceKey)
    ensures
        r == (slot, slice@.len() as usize),
{
    (slot, slice.len())
}

/// The state of one expansion pass.
pub struct Expander<'b> {
    /// The class strings after the host's sort.
    pub sorted_classes: &'b [String],
    /// Whether the class string at each index wraps.
    pub wraps: &'b [bool],
    /// Whether a slice contains a wrapping marker, at any depth.
    pub contains: FxHashMap<SliceKey, bool>,
    /// The slot of the rebuilt version of each slice that contains one.
    pub expanded: FxHashMap<SliceKey, usize>,
    /// The arena as the pass found it.
    pub initial: Ghost<Seq<Seq<Elem>>>,
}

/// `nodes_contain` holds exactly when some node contains a wrapping marker.
pub proof fn lemma_nodes_contain_exists(wraps: Seq<bool>, ns: Seq<Node>)
    ensures
        nodes_contain(wraps, ns) <==> exists|i: int|
            0 <= i < ns.len() && #[trigger] node_contains(wraps, ns[i]),
    decreases ns.len(),
{
    if ns.len() > 0 {
        let rest = ns.drop_first();
        lemma_nodes_contain_exists(wraps, rest);
        assert(nodes_contain(wraps, ns) == (node_contains(wraps, ns[0]) || nodes_contain(
            wraps,
            rest,
        )));
        if nodes_contain(wraps, ns) {
            if !node_contains(wraps, ns[0]) {
                let i = choose|i: int| 0 <= i < rest.len() && #[trigger] node_contains(wraps, rest[i]);
                assert(rest[i] == ns[i + 1]);
                assert(node_contains(wraps, ns[i + 1]));
            }
        } else {
            assert forall|i: int| 0 <= i < ns.len() implies !#[trigger] node_contains(wraps, ns[i]) by {
                if i > 0 {
                    assert(rest[i - 1] == ns[i]);
                }
            }
        }
    }
}

/// `variants_contain` holds exactly when some variant contains a wrapping marker.
pub proof fn lemma_variants_contain_exists(wraps: Seq<bool>, vs: Seq<Seq<Node>>)
    ensures
        variants_contain(wraps, vs) <==> exists|i: int|
            0 <= i < vs.len() && #[trigger] nodes_contain(wraps, vs[i]),
    decreases vs.len(),
{
    if vs.len() > 0 {
        let rest = vs.drop_first();
        lemma_variants_contain_exists(wraps, rest);
        assert(variants_contain(wraps, vs) == (nodes_contain(wraps, vs[0]) || variants_contain(
            wraps,
            rest,
        )));
        if variants_contain(wraps, vs) {
            if !nodes_contain(wraps, vs[0]) {
                let i = choose|i: int| 0 <= i < rest.len() && #[trigger] nodes_contain(wraps, rest[i]);
                assert(rest[i] == vs[i + 1]);
                assert(nodes_contain(wraps, vs[i + 1]));
            }
        } else {
            assert forall|i: int| 0 <= i < vs.len() implies !#[trigger] nodes_contain(wraps, vs[i]) by {
                if i > 0 {
                    assert(rest[i - 1] == vs[i]);
                }
            }
        }
    }
}

/// Without a wrapping marker, the expansion changes nothing.
pub proof fn lemma_expand_nodes_unchanged(classes: Seq<Seq<char>>, wraps: Seq<bool>, ns: Seq<Node>)
    requires
        !nodes_contain(wraps, ns),
    ensures
        expand_nodes(classes, wraps, ns) == ns,
    decreases ns,
{
    if ns.len() > 0 {
        lemma_expand_node_unchanged(classes, wraps, ns[0]);
        lemma_expand_nodes_unchanged(classes, wraps, ns.drop_first());
        assert(!node_contains(wraps, ns[0]));
        if let Node::Leaf(e) = ns[0] {
            assert(!is_wrap_marker_elem(wraps, e));
        }
        assert(!is_wrap_marker_node(wraps, ns[0]));
        assert(expand_nodes(classes, wraps, ns) == seq![expand_node(classes, wraps, ns[0])]
            + expand_nodes(classes, wraps, ns.drop_first()));
        assert(seq![ns[0]] + ns.drop_first() =~= ns);
    }
}

/// Without a wrapping marker, the expansion changes nothing.
pub proof fn lemma_expand_node_unchanged(classes: Seq<Seq<char>>, wraps: Seq<bool>, n: Node)
    requires
        !node_contains(wraps, n),
    ensures
        expand_node(classes, wraps, n) == n,
    decreases n,
{
    match n {
        Node::Leaf(_) => {},
        Node::Interned(content) => {
            lemma_expand_nodes_unchanged(classes, wraps, content);
        },
        Node::BestFitting(variants) => {
            lemma_variants_contain_exists(wraps, variants);
            assert forall|i: int| 0 <= i < variants.len() implies expand_nodes(
                classes,
                wraps,
                variants[i],
            ) == variants[i] by {
                assert(decreases_to!(n => variants));
                assert(decreases_to!(variants => variants[i]));
                lemma_expand_nodes_unchanged(classes, wraps, variants[i]);
            }
            if let Node::BestFitting(x) = expand_node(classes, wraps, n) {
                assert(x =~= variants);
            }
        },
    }
}

/// The tree of a leaf element is the leaf; other elements do not give a leaf.
pub proof fn lemma_resolve_elem_leaf(a: Seq<Seq<Elem>>, e: Elem, bound: int)
    requires
        refs_below(e, bound),
        0 <= bound,
    ensures
        is_leaf(e) ==> resolve_elem(a, e, bound) == Node::Leaf(e),
        !is_leaf(e) ==> !(resolve_elem(a, e, bound) is Leaf),
{
}

/// A slot below the length of an extended arena holds the same slice.
pub proof fn lemma_extends_index(a: Seq<Seq<Elem>>, b: Seq<Seq<Elem>>, k: int)
    requires
        extends(a, b),
        0 <= k < b.len(),
    ensures
        a[k] == b[k],
{
    assert(a.take(b.len() as int)[k] == a[k]);
}

/// The key of the slice in slot `k` of `initial`: its slot and its length.
pub open spec fn slot_key(initial: Seq<Seq<Elem>>, k: usize) -> SliceKey {
    (k, initial[k as int].len() as usize)
}

/// Where a pass with the memo table `memo` puts the content of slot `k`:
/// the slot itself when its slice holds no wrapping marker (the slice is
/// reused as it is), else the slot of its rebuilt copy, one for each slice.
pub open spec fn slot_image(
    initial: Seq<Seq<Elem>>,
    wraps: Seq<bool>,
    memo: Map<SliceKey, usize>,
    k: usize,
) -> usize {
    if k < initial.len() && nodes_contain(wraps, resolve_slice(initial, k as int)) {
        memo[slot_key(initial, k)]
    } else {
        k
    }
}

/// The rebuilt copy of slot `k`, when it needs one, is in `memo`.
pub open spec fn slot_covered(
    initial: Seq<Seq<Elem>>,
    wraps: Seq<bool>,
    memo: Map<SliceKey, usize>,
    k: usize,
) -> bool {
    k < initial.len() && nodes_contain(wraps, resolve_slice(initial, k as int)) ==> memo.contains_key(
        slot_key(initial, k),
    )
}

/// `e` with each slot it references moved by `image`.
pub open spec fn map_slots(image: spec_fn(usize) -> usize, e: Elem) -> Elem {
    match e {
        Elem::Interned(k) => Elem::Interned(image(k)),
        Elem::BestFitting(variants) => Elem::BestFitting(variants.map_values(image)),
        _ => e,
    }
}

/// Every slot that `e` references is covered by `memo`.
pub open spec fn elem_covered(
    initial: Seq<Seq<Elem>>,
    wraps: Seq<bool>,
    memo: Map<SliceKey, usize>,
    e: Elem,
) -> bool {
    match e {
        Elem::Interned(k) => slot_covered(initial, wraps, memo, k),
        Elem::BestFitting(variants) => forall|i: int|
            0 <= i < variants.len() ==> #[trigger] slot_covered(initial, wraps, memo, variants[i]),
        _ => true,
    }
}

/// `m2` keeps every entry of `m1`.
pub open spec fn memo_grows(m1: Map<SliceKey, usize>, m2: Map<SliceKey, usize>) -> bool {
    forall|key: SliceKey| #[trigger] m1.contains_key(key) ==> m2.contains_key(key) && m2[key] == m1[key]
}

/// A covered element keeps its image while the memo table grows.
pub proof fn lemma_image_stable(
    initial: Seq<Seq<Elem>>,
    wraps: Seq<bool>,
    m1: Map<SliceKey, usize>,
    m2: Map<SliceKey, usize>,
    e: Elem,
)
    requires
        memo_grows(m1, m2),
        elem_covered(initial, wraps, m1, e),
    ensures
        elem_covered(initial, wraps, m2, e),
        map_slots(|k: usize| slot_image(initial, wraps, m2, k), e) == map_slots(
            |k: usize| slot_image(initial, wraps, m1, k),
            e,
        ),
{
    if let Elem::BestFitting(variants) = e {
        assert forall|i: int| 0 <= i < variants.len() implies #[trigger] slot_covered(initial, wraps, m2, variants[i]) by {
            assert(slot_covered(initial, wraps, m1, variants[i]));
        }
        assert forall|i: int| 0 <= i < variants.len() implies slot_image(initial, wraps, m2, variants[i])
            == slot_image(initial, wraps, m1, variants[i]) by {
            assert(slot_covered(initial, wraps, m1, variants[i]));
            let k = variants[i];
            if k < initial.len() && nodes_contain(wraps, resolve_slice(initial, k as int)) {
                assert(m1.contains_key(slot_key(initial, k)));
            }
        }
        assert(variants.map_values(|k: usize| slot_image(initial, wraps, m2, k)) =~= variants.map_values(
            |k: usize| slot_image(initial, wraps, m1, k),
        ));
    }
    if let Elem::Interned(k) = e {
        if k < initial.len() && nodes_contain(wraps, resolve_slice(initial, k as int)) {
            assert(m1.contains_key(slot_key(initial, k)));
        }
        assert(slot_image(initial, wraps, m2, k) == slot_image(initial, wraps, m1, k));
        assert(map_slots(|k: usize| slot_image(initial, wraps, m2, k), e) == Elem::Interned(
            slot_image(initial, wraps, m2, k),
        ));
        assert(map_slots(|k: usize| slot_image(initial, wraps, m1, k), e) == Elem::Interned(
            slot_image(initial, wraps, m1, k),
        ));
    }
}

/// `memo_grows` is transitive.
pub proof fn lemma_memo_grows_trans(m1: Map<SliceKey, usize>, m2: Map<SliceKey, usize>, m3: Map<SliceKey, usize>)
    requires
        memo_grows(m1, m2),
        memo_grows(m2, m3),
    ensures
        memo_grows(m1, m3),
{
}

impl<'b> Expander<'b> {
    /// The class strings after the sort.
    pub open spec fn classes(&self) -> Seq<Seq<char>> {
        views(self.sorted_classes@)
    }

    /// Where the pass, as far as it has got, puts the content of each slot.
    pub open spec fn image(&self) -> spec_fn(usize) -> usize {
        |k: usize| slot_image(self.initial@, self.wraps@, self.expanded@, k)
    }

    /// Every slot that `e` references has its place in the memo table.
    pub open spec fn covers(&self, e: Elem) -> bool {
        elem_covered(self.initial@, self.wraps@, self.expanded@, e)
    }

    /// The memo tables agree with the initial arena and with `a`, an
    /// extension of it.
    pub open spec fn inv(&self, a: Seq<Seq<Elem>>) -> bool {
        let o = self.initial@;
        &&& arena_wf(o)
        &&& arena_wf(a)
        &&& extends(a, o)
        &&& forall|key: SliceKey|
            #[trigger] self.contains@.contains_key(key) ==> {
                &&& key.0 < o.len()
                &&& self.contains@[key] == nodes_contain(self.wraps@, resolve_slice(o, key.0 as int))
            }
        &&& forall|key: SliceKey|
            #[trigger] self.expanded@.contains_key(key) ==> {
                &&& key.0 < o.len()
                &&& self.expanded@[key] < a.len()
                &&& resolve_slice(a, self.expanded@[key] as int) == expand_nodes(
                    self.classes(),
                    self.wraps@,
                    resolve_slice(o, key.0 as int),
                )
            }
    }

    /// The parts that a pass never changes.
    pub open spec fn same_config(&self, other: &Self) -> bool {
        &&& self.sorted_classes@ == other.sorted_classes@
        &&& self.wraps@ == other.wraps@
        &&& self.initial@ == other.initial@
    }

    /// The invariant survives a growing arena.
    proof fn lemma_inv_extends(&self, a: Seq<Seq<Elem>>, a2: Seq<Seq<Elem>>)
        requires
            self.inv(a),
            extends(a2, a),
            arena_wf(a2),
        ensures
            self.inv(a2),
    {
        lemma_extends_trans(a2, a, self.initial@);
        assert forall|key: SliceKey| #[trigger] self.expanded@.contains_key(key) implies {
            &&& self.expanded@[key] < a2.len()
            &&& resolve_slice(a2, self.expanded@[key] as int) == expand_nodes(
                self.classes(),
                self.wraps@,
                resolve_slice(self.initial@, key.0 as int),
            )
        } by {
            lemma_resolve_slice_extends(a, a2, self.expanded@[key] as int);
        }
    }

    /// Whether `element` is a marker whose class string wraps.
    pub fn is_wrap_marker(&self, element: &FormatElement) -> (r: bool)
        ensures
            r == is_wrap_marker_elem(self.wraps@, element@),
    {
        match element {
            FormatElement::TailwindClass(index) => *index < self.wraps.len() && self.wraps[*index],
            _ => false,
        }
    }

    /// Whether the slice in `slot` of the initial arena contains a wrapping
    /// marker, at any depth. Each slice is scanned once: afterwards its answer
    /// is in the memo table, and an answer found there is returned with the
    /// table left as it is.
    pub fn contains_wrap_marker(&mut self, arena: &ElementArena<FormatElement>, slot: usize) -> (r: bool)
        requires
            old(self).inv(arena@),
            slot < old(self).initial@.len(),
        ensures
            final(self).inv(arena@),
            final(self).same_config(old(self)),
            final(self).expanded@ == old(self).expanded@,
            r == nodes_contain(old(self).wraps@, resolve_slice(old(self).initial@, slot as int)),
            final(self).contains@.contains_key(slot_key(old(self).initial@, slot)),
            old(self).contains@.contains_key(slot_key(old(self).initial@, slot))
                ==> final(self).contains@ == old(self).contains@,
        decreases slot,
    {
        let ghost o = self.initial@;
        let ghost wraps = self.wraps@;
        proof {
            lemma_extends_index(arena@, o, slot as int);
        }
        let slice = arena.slice(slot);
        let key = slice_key(slot, slice.as_slice());
        assert(elems(slice@).len() == slice@.len());
        assert(key == slot_key(o, slot));
        if let Some(contains) = memo_get(&self.contains, key) {
            return *contains;
        }
        let ghost rs = resolve_slice(o, slot as int);
        assert(elems(slice@) == o[slot as int]);
        let mut i: usize = 0;
        while i < slice.len()
            invariant
                self.inv(arena@),
                self.same_config(old(self)),
                self.expanded@ == old(self).expanded@,
                o == self.initial@,
                wraps == self.wraps@,
                elems(slice@) == o[slot as int],
                slot < o.len(),
                rs == resolve_slice(o, slot as int),
                rs.len() == slice.len(),
                i <= slice.len(),
                forall|j: int| 0 <= j < i ==> !node_contains(wraps, #[trigger] rs[j]),
                key == (slot, slice@.len() as usize),
                !old(self).contains@.contains_key(key),
            decreases slice.len() - i,
        {
            let ghost e = slice@[i as int]@;
            assert(elems(slice@)[i as int] == e);
            assert(refs_below(e, slot as int));
            assert(rs[i as int] == resolve_elem(o, e, slot as int));
            let found = match &slice[i] {
                FormatElement::Interned(k) => self.contains_wrap_marker(arena, *k),
                FormatElement::BestFitting(variants) => {
                    let ghost vnodes = Seq::new(
                        variants@.len(),
                        |m: int|
                            if 0 <= variants@[m] < slot {
                                resolve_slice(o, variants@[m] as int)
                            } else {
                                seq![]
                            },
                    );
                    proof {
                        if let Node::BestFitting(x) = rs[i as int] {
                            assert(x =~= vnodes);
                        }
                    }
                    let mut found = false;
                    let mut m: usize = 0;
                    while m < variants.len() && !found
                        invariant
                            self.inv(arena@),
                            self.same_config(old(self)),
                            self.expanded@ == old(self).expanded@,
                            o == self.initial@,
                            wraps == self.wraps@,
                            slot < o.len(),
                            m <= variants.len(),
                            forall|v: int| 0 <= v < variants@.len() ==> #[trigger] variants@[v] < slot,
                            vnodes.len() == variants@.len(),
                            forall|v: int| 0 <= v < variants@.len() ==> #[trigger] vnodes[v] == resolve_slice(o, variants@[v] as int),
                            !found ==> forall|v: int| 0 <= v < m ==> !nodes_contain(wraps, #[trigger] vnodes[v]),
                            found ==> exists|v: int| 0 <= v < vnodes.len() && nodes_contain(wraps, #[trigger] vnodes[v]),
                        decreases variants.len() - m,
                    {
                        found = self.contains_wrap_marker(arena, variants[m]);
                        assert(found == nodes_contain(wraps, vnodes[m as int]));
                        m += 1;
                    }
                    proof {
                        lemma_variants_contain_exists(wraps, vnodes);
                    }
                    found
                },
                other => {
                    proof {
                        lemma_resolve_elem_leaf(o, e, slot as int);
                    }
                    self.is_wrap_marker(other)
                },
            };
            assert(found == node_contains(wraps, rs[i as int]));
            if found {
                proof {
                    lemma_nodes_contain_exists(wraps, rs);
                }
                memo_insert(&mut self.contains, key, true);
                return true;
            }
            i += 1;
        }
        proof {
            lemma_nodes_contain_exists(wraps, rs);
        }
        memo_insert(&mut self.contains, key, false);
        false
    }
}


/// A marker's class index.
pub fn marker_class_index(element: &FormatElement) -> (r: usize)
    ensures
        element@ is TailwindClass ==> element@ == Elem::TailwindClass(r),
{
    match element {
        FormatElement::TailwindClass(index) => *index,
        _ => 0,
    }
}

/// Whether `element` ends an indent.
pub fn is_end_indent_element(element: &FormatElement) -> (r: bool)
    ensures
        r == (element@ == Elem::Tag(Tag::EndIndent)),
{
    match element {
        FormatElement::Tag(Tag::EndIndent) => true,
        _ => false,
    }
}

/// Whether `element` is a text of one space.
pub fn is_space_element(element: &FormatElement) -> (r: bool)
    ensures
        r == (element@ == Elem::Text(seq![' '])),
{
    match element {
        FormatElement::Text(t) => {
            let chars = crate::strings::chars_of(t.as_str());
            let r = chars.len() == 1 && chars[0] == ' ';
            proof {
                if r {
                    assert(t@ =~= seq![' ']);
                }
            }
            r
        },
        _ => false,
    }
}

/// Whether `element` is a token that closes a string.
pub fn is_closing_element(element: &FormatElement) -> (r: bool)
    ensures
        r == (match element@ {
            Elem::Token(t) => is_closing_text(t),
            _ => false,
        }),
{
    match element {
        FormatElement::Token(t) => {
            let chars = crate::strings::chars_of(t.as_str());
            let r = (chars.len() == 1 && (chars[0] == '"' || chars[0] == '\'' || chars[0] == '`'))
                || (chars.len() == 2 && chars[0] == '`' && chars[1] == '}');
            proof {
                if chars.len() == 1 {
                    if chars[0] == '"' {
                        assert(t@ =~= seq!['"']);
                    } else if chars[0] == '\'' {
                        assert(t@ =~= seq!['\'']);
                    } else if chars[0] == '`' {
                        assert(t@ =~= seq!['`']);
                    }
                }
                if chars.len() == 2 && chars[0] == '`' && chars[1] == '}' {
                    assert(t@ =~= seq!['`', '}']);
                }
            }
            r
        },
        _ => false,
    }
}

/// What the lookahead reads of the tree of an element, it reads of the
/// element itself.
pub proof fn lemma_lookahead_elem(a: Seq<Seq<Elem>>, wraps: Seq<bool>, e: Elem, bound: int)
    requires
        refs_below(e, bound),
        0 <= bound,
    ensures
        is_end_indent_node(resolve_elem(a, e, bound)) == (e == Elem::Tag(Tag::EndIndent)),
        is_space_node(resolve_elem(a, e, bound)) == (e == Elem::Text(seq![' '])),
        is_closing_node(resolve_elem(a, e, bound)) == (match e {
            Elem::Token(t) => is_closing_text(t),
            _ => false,
        }),
        is_wrap_marker_node(wraps, resolve_elem(a, e, bound)) == is_wrap_marker_elem(wraps, e),
        is_leaf(e) ==> leaf_elem(resolve_elem(a, e, bound)) == e,
{
    lemma_resolve_elem_leaf(a, e, bound);
}

/// The trees of `s` followed by `x`.
pub proof fn lemma_resolve_seq_push(a: Seq<Seq<Elem>>, s: Seq<FormatElement>, x: FormatElement, bound: int)
    ensures
        resolve_seq(a, elems(s.push(x)), bound) == resolve_seq(a, elems(s), bound).push(
            resolve_elem(a, x@, bound),
        ),
{
    assert(elems(s.push(x)) =~= elems(s).push(x@));
    assert(resolve_seq(a, elems(s.push(x)), bound) =~= resolve_seq(a, elems(s), bound).push(
        resolve_elem(a, x@, bound),
    ));
}

/// Unfolding in a longer arena with the same bound gives the same trees.
pub proof fn lemma_resolve_seq_extends_bound(a: Seq<Seq<Elem>>, a2: Seq<Seq<Elem>>, s: Seq<Elem>, bound: int)
    requires
        extends(a2, a),
        bound <= a.len(),
    ensures
        resolve_seq(a2, s, bound) == resolve_seq(a, s, bound),
{
    assert forall|i: int| 0 <= i < s.len() implies resolve_elem(a2, s[i], bound) == resolve_elem(a, s[i], bound) by {
        lemma_resolve_elem_extends(a, a2, s[i], bound);
    }
    assert(resolve_seq(a2, s, bound) =~= resolve_seq(a, s, bound));
}

/// The fill of a marker is made of leaves when what closes it is.
pub proof fn lemma_marker_leaves(classes: Seq<Seq<char>>, index: usize, closing: Seq<Elem>)
    requires
        forall|i: int| 0 <= i < closing.len() ==> is_leaf(#[trigger] closing[i]),
    ensures
        forall|i: int| 0 <= i < marker_elems(classes, index, closing).len() ==> is_leaf(
            #[trigger] marker_elems(classes, index, closing)[i],
        ),
{
    if index < classes.len() {
        let words = crate::strings::split_ascii_whitespace(classes[index as int]);
        if words.len() > 1 {
            lemma_fill_entries_leaves(words, 1, words.len() as int, closing);
        }
    }
}

/// The fill entries are made of leaves when what closes them is.
pub proof fn lemma_fill_entries_leaves(words: Seq<Seq<char>>, from: int, to: int, closing: Seq<Elem>)
    requires
        forall|i: int| 0 <= i < closing.len() ==> is_leaf(#[trigger] closing[i]),
    ensures
        forall|i: int| 0 <= i < super::fill::fill_entries(words, from, to, closing).len() ==> is_leaf(
            #[trigger] super::fill::fill_entries(words, from, to, closing)[i],
        ),
    decreases to - from,
{
    if to > from {
        lemma_fill_entries_leaves(words, from, to - 1, closing);
        let prefix = super::fill::fill_entries(words, from, to - 1, closing);
        let entry = super::fill::fill_entry(words, to - 1, closing);
        assert(super::fill::fill_entries(words, from, to, closing) == prefix + entry);
        assert forall|i: int| 0 <= i < entry.len() implies is_leaf(#[trigger] entry[i]) by {
            if 5 <= i < entry.len() - 1 {
                assert(to - 1 == words.len() - 1);
                assert(entry[i] == closing[i - 5]);
            }
        }
        assert forall|i: int| 0 <= i < (prefix + entry).len() implies is_leaf(#[trigger] (prefix + entry)[i]) by {
            if i >= prefix.len() {
                assert((prefix + entry)[i] == entry[i - prefix.len()]);
            } else {
                assert((prefix + entry)[i] == prefix[i]);
            }
        }
    }
}

/// Pushing an element whose references are below the new length keeps all
/// references below it.
pub proof fn lemma_refs_push(s: Seq<FormatElement>, x: FormatElement, b1: int, b2: int)
    requires
        seq_refs_below(elems(s), b1),
        b1 <= b2,
        refs_below(x@, b2),
    ensures
        seq_refs_below(elems(s.push(x)), b2),
{
    assert(elems(s.push(x)) =~= elems(s).push(x@));
    assert forall|i: int| 0 <= i < elems(s.push(x)).len() implies refs_below(#[trigger] elems(s.push(x))[i], b2) by {
        if i < s.len() {
            assert(refs_below(elems(s)[i], b1));
        }
    }
}

impl<'b> Expander<'b> {
    /// Appends the expansion of `element`, which is not a wrapping marker, to
    /// `out`: nested content is expanded, anything else is kept.
    fn expand_element_into(
        &mut self,
        arena: &mut ElementArena<FormatElement>,
        element: &FormatElement,
        bound: Ghost<int>,
        out: &mut Vec<FormatElement>,
    )
        requires
            old(self).inv(old(arena)@),
            0 <= bound@ <= old(self).initial@.len(),
            refs_below(element@, bound@),
            !is_wrap_marker_elem(old(self).wraps@, element@),
            seq_refs_below(elems(old(out)@), old(arena)@.len() as int),
        ensures
            final(self).inv(final(arena)@),
            final(self).same_config(old(self)),
            extends(final(arena)@, old(arena)@),
            seq_refs_below(elems(final(out)@), final(arena)@.len() as int),
            resolve_seq(final(arena)@, elems(final(out)@), final(arena)@.len() as int)
                == resolve_seq(old(arena)@, elems(old(out)@), old(arena)@.len() as int).push(
                expand_node(
                    old(self).classes(),
                    old(self).wraps@,
                    resolve_elem(old(self).initial@, element@, bound@),
                ),
            ),
            memo_grows(old(self).expanded@, final(self).expanded@),
            final(self).covers(element@),
            elems(final(out)@) == elems(old(out)@).push(map_slots(final(self).image(), element@)),
            !node_contains(old(self).wraps@, resolve_elem(old(self).initial@, element@, bound@))
                ==> final(arena)@ == old(arena)@ && elems(final(out)@) == elems(old(out)@).push(
                element@,
            ),
        decreases bound@, 0int,
    {
        let ghost o = self.initial@;
        let ghost cls = self.classes();
        let ghost wraps = self.wraps@;
        let ghost a0 = arena@;
        let ghost out0 = out@;
        proof {
            assert(a0.take(a0.len() as int) =~= a0);
        }
        match element {
            FormatElement::Interned(k) => {
                let r = self.expand_slice(arena, *k);
                let x = FormatElement::Interned(r);
                proof {
                    assert(x@ == map_slots(self.image(), element@));
                    lemma_refs_push(out0, x, a0.len() as int, arena@.len() as int);
                    lemma_resolve_seq_extends(a0, arena@, elems(out0));
                    lemma_resolve_seq_push(arena@, out0, x, arena@.len() as int);
                    assert(elems(out0.push(x)) =~= elems(out0).push(x@));
                }
                out.push(x);
            },
            FormatElement::BestFitting(variants) => {
                let ghost vnodes = Seq::new(
                    variants@.len(),
                    |m: int|
                        if 0 <= variants@[m] < bound@ {
                            resolve_slice(o, variants@[m] as int)
                        } else {
                            seq![]
                        },
                );
                proof {
                    if let Node::BestFitting(x) = resolve_elem(o, element@, bound@) {
                        assert(x =~= vnodes);
                    }
                }
                let mut found = false;
                let mut m: usize = 0;
                while m < variants.len() && !found
                    invariant
                        self.inv(arena@),
                        self.same_config(old(self)),
                        self.expanded@ == old(self).expanded@,
                        o == self.initial@,
                        wraps == self.wraps@,
                        arena@ == a0,
                        0 <= bound@ <= o.len(),
                        m <= variants.len(),
                        forall|v: int| 0 <= v < variants@.len() ==> #[trigger] variants@[v] < bound@,
                        vnodes.len() == variants@.len(),
                        forall|v: int|
                            0 <= v < variants@.len() ==> #[trigger] vnodes[v] == resolve_slice(
                                o,
                                variants@[v] as int,
                            ),
                        !found ==> forall|v: int|
                            0 <= v < m ==> !nodes_contain(wraps, #[trigger] vnodes[v]),
                        found ==> exists|v: int|
                            0 <= v < vnodes.len() && nodes_contain(wraps, #[trigger] vnodes[v]),
                    decreases variants.len() - m,
                {
                    found = self.contains_wrap_marker(arena, variants[m]);
                    assert(found == nodes_contain(wraps, vnodes[m as int]));
                    m += 1;
                }
                proof {
                    lemma_variants_contain_exists(wraps, vnodes);
                }
                if found {
                    let mut expanded: Vec<usize> = Vec::new();
                    let mut m: usize = 0;
                    while m < variants.len()
                        invariant
                            self.inv(arena@),
                            self.same_config(old(self)),
                            o == self.initial@,
                            cls == self.classes(),
                            wraps == self.wraps@,
                            extends(arena@, a0),
                            0 <= bound@ <= o.len(),
                            m <= variants.len(),
                            expanded@.len() == m,
                            forall|v: int| 0 <= v < variants@.len() ==> #[trigger] variants@[v] < bound@,
                            vnodes.len() == variants@.len(),
                            forall|v: int|
                                0 <= v < variants@.len() ==> #[trigger] vnodes[v] == resolve_slice(
                                    o,
                                    variants@[v] as int,
                                ),
                            forall|v: int|
                                0 <= v < m ==> {
                                    &&& #[trigger] expanded@[v] < arena@.len()
                                    &&& resolve_slice(arena@, expanded@[v] as int) == expand_nodes(
                                        cls,
                                        wraps,
                                        vnodes[v],
                                    )
                                },
                            memo_grows(old(self).expanded@, self.expanded@),
                            forall|v: int|
                                0 <= v < m ==> #[trigger] expanded@[v] == (self.image())(variants@[v])
                                    && slot_covered(o, wraps, self.expanded@, variants@[v]),
                        decreases variants.len() - m,
                    {
                        let ghost before = arena@;
                        let ghost mb = self.expanded@;
                        let r = self.expand_slice(arena, variants[m]);
                        proof {
                            lemma_memo_grows_trans(old(self).expanded@, mb, self.expanded@);
                            assert forall|v: int| 0 <= v < m implies #[trigger] expanded@[v] == (self.image())(
                                variants@[v],
                            ) && slot_covered(o, wraps, self.expanded@, variants@[v]) by {
                                assert(expanded@[v] == slot_image(o, wraps, mb, variants@[v]));
                                assert(slot_covered(o, wraps, mb, variants@[v]));
                                assert(elem_covered(o, wraps, mb, Elem::Interned(variants@[v])));
                                lemma_image_stable(o, wraps, mb, self.expanded@, Elem::Interned(variants@[v]));
                            }
                            lemma_extends_trans(arena@, before, a0);
                            assert forall|v: int| 0 <= v < m implies {
                                &&& #[trigger] expanded@[v] < arena@.len()
                                &&& resolve_slice(arena@, expanded@[v] as int) == expand_nodes(
                                    cls,
                                    wraps,
                                    vnodes[v],
                                )
                            } by {
                                lemma_resolve_slice_extends(before, arena@, expanded@[v] as int);
                            }
                        }
                        expanded.push(r);
                        m += 1;
                    }
                    let x = FormatElement::BestFitting(expanded);
                    proof {
                        assert forall|v: int| 0 <= v < variants@.len() implies #[trigger] slot_covered(
                            o,
                            wraps,
                            self.expanded@,
                            variants@[v],
                        ) by {
                            assert(expanded@[v] == (self.image())(variants@[v]));
                        }
                        assert(self.covers(element@));
                        assert(expanded@ =~= variants@.map_values(self.image()));
                        assert(x@ == map_slots(self.image(), element@));
                        assert forall|v: int| 0 <= v < x@->BestFitting_0.len() implies #[trigger] x@->BestFitting_0[v] < arena@.len() by {}
                        lemma_refs_push(out0, x, a0.len() as int, arena@.len() as int);
                        lemma_resolve_seq_extends(a0, arena@, elems(out0));
                        lemma_resolve_seq_push(arena@, out0, x, arena@.len() as int);
                        if let Node::BestFitting(y) = resolve_elem(arena@, x@, arena@.len() as int) {
                            if let Node::BestFitting(z) = expand_node(cls, wraps, Node::BestFitting(vnodes)) {
                                assert(y =~= z);
                            }
                        }
                        assert forall|v: int| 0 <= v < x@->BestFitting_0.len() implies #[trigger] x@->BestFitting_0[v] < arena@.len() by {}
                    }
                    out.push(x);
                } else {
                    let x = clone_element(element);
                    proof {
                        assert forall|v: int| 0 <= v < variants@.len() implies (self.image())(variants@[v])
                            == #[trigger] variants@[v] && slot_covered(o, wraps, self.expanded@, variants@[v]) by {
                            assert(!nodes_contain(wraps, vnodes[v]));
                        }
                        assert(variants@.map_values(self.image()) =~= variants@);
                        assert(x@ == map_slots(self.image(), element@));
                        lemma_refs_push(out0, x, a0.len() as int, arena@.len() as int);
                        lemma_expand_node_unchanged(cls, wraps, Node::BestFitting(vnodes));
                        lemma_resolve_seq_push(arena@, out0, x, arena@.len() as int);
                        lemma_resolve_elem_bound(arena@, x@, bound@, arena@.len() as int);
                        lemma_resolve_elem_extends(o, arena@, x@, bound@);
                        assert(elems(out0.push(x)) =~= elems(out0).push(x@));
                    }
                    out.push(x);
                }
            },
            other => {
                let x = clone_element(other);
                proof {
                    assert(x@ == map_slots(self.image(), element@));
                    lemma_refs_push(out0, x, a0.len() as int, arena@.len() as int);
                    lemma_resolve_elem_leaf(o, x@, bound@);
                    lemma_resolve_elem_leaf(arena@, x@, arena@.len() as int);
                    lemma_resolve_seq_push(arena@, out0, x, arena@.len() as int);
                    assert(elems(out0.push(x)) =~= elems(out0).push(x@));
                }
                out.push(x);
            },
        }
    }

    /// Returns the slice in `slot` itself when it contains no wrapping
    /// marker (the slice is reused as it is), otherwise the slot of a copy
    /// rebuilt with the markers expanded; the copy is built once per slice,
    /// and a slice already rebuilt gets the slot of that copy back.
    pub fn expand_slice(&mut self, arena: &mut ElementArena<FormatElement>, slot: usize) -> (r: usize)
        requires
            old(self).inv(old(arena)@),
            slot < old(self).initial@.len(),
        ensures
            final(self).inv(final(arena)@),
            final(self).same_config(old(self)),
            extends(final(arena)@, old(arena)@),
            r < final(arena)@.len(),
            resolve_slice(final(arena)@, r as int) == expand_nodes(
                old(self).classes(),
                old(self).wraps@,
                resolve_slice(old(self).initial@, slot as int),
            ),
            memo_grows(old(self).expanded@, final(self).expanded@),
            final(self).covers(Elem::Interned(slot)),
            r == (final(self).image())(slot),
            nodes_contain(old(self).wraps@, resolve_slice(old(self).initial@, slot as int))
                ==> final(self).expanded@.contains_key(slot_key(old(self).initial@, slot))
                && final(self).expanded@[slot_key(old(self).initial@, slot)] == r,
            !nodes_contain(old(self).wraps@, resolve_slice(old(self).initial@, slot as int)) ==> r
                == slot && final(arena)@ == old(arena)@,
            old(self).expanded@.contains_key(slot_key(old(self).initial@, slot)) && nodes_contain(
                old(self).wraps@,
                resolve_slice(old(self).initial@, slot as int),
            ) ==> r == old(self).expanded@[slot_key(old(self).initial@, slot)] && final(arena)@ == old(
                arena,
            )@,
        decreases slot, 2int,
    {
        let ghost o = self.initial@;
        let ghost cls = self.classes();
        let ghost wraps = self.wraps@;
        proof {
            lemma_extends_index(arena@, o, slot as int);
            assert(arena@.take(arena@.len() as int) =~= arena@);
        }
        if !self.contains_wrap_marker(arena, slot) {
            proof {
                lemma_expand_nodes_unchanged(cls, wraps, resolve_slice(o, slot as int));
                lemma_resolve_slice_extends(o, arena@, slot as int);
            }
            return slot;
        }
        let source = arena.slice(slot);
        let key = slice_key(slot, source.as_slice());
        assert(elems(source@).len() == source@.len());
        assert(key == slot_key(o, slot));
        if let Some(expanded) = memo_get(&self.expanded, key) {
            return *expanded;
        }
        let ghost m0 = self.expanded@;
        let elements = clone_elements(arena.slice(slot).as_slice());
        let mut out: Vec<FormatElement> = Vec::new();
        proof {
            assert(elems(elements@) == o[slot as int]);
            assert(elems(out@) =~= Seq::<Elem>::empty());
            assert(resolve_seq(arena@, elems(out@), arena@.len() as int) =~= Seq::<Node>::empty());
        }
        self.expand_into(arena, elements, Ghost(slot as int), &mut out);
        let ghost a1 = arena@;
        let ghost outs = elems(out@);
        let r = arena.intern(out);
        proof {
            let a2 = arena@;
            assert(a2.take(a1.len() as int) =~= a1);
            assert forall|k: int| 0 <= k < a2.len() implies crate::format_element::seq_refs_below(#[trigger] a2[k], k) by {
                if k < a1.len() {
                    assert(a2[k] == a1[k]);
                }
            }
            lemma_resolve_seq_extends_bound(a1, a2, outs, a1.len() as int);
            assert(resolve_slice(a2, r as int) =~= resolve_seq(a2, outs, a1.len() as int));
            assert(resolve_seq(o, o[slot as int], slot as int) =~= resolve_slice(o, slot as int));
            assert(Seq::<Node>::empty() + expand_nodes(cls, wraps, resolve_slice(o, slot as int))
                =~= expand_nodes(cls, wraps, resolve_slice(o, slot as int)));
            self.lemma_inv_extends(a1, a2);
            lemma_extends_trans(a2, a1, old(arena)@);
        }
        let ghost m1 = self.expanded@;
        memo_insert(&mut self.expanded, key, r);
        proof {
            assert forall|k: SliceKey| #[trigger] m0.contains_key(k) implies self.expanded@.contains_key(k)
                && self.expanded@[k] == m0[k] by {
                assert(k != key);
                assert(m1.contains_key(k));
            }
        }
        r
    }

    /// Appends the expansion of the wrapping marker `elements[i]` and of what
    /// the lookahead takes after it to `out`, and returns where the
    /// expansion continues.
    #[verifier::rlimit(60)]
    fn expand_marker_group(
        &self,
        elements: &Vec<FormatElement>,
        i: usize,
        a: Ghost<Seq<Seq<Elem>>>,
        bound: Ghost<int>,
        out: &mut Vec<FormatElement>,
    ) -> (next: usize)
        requires
            i < elements@.len(),
            0 <= bound@,
            seq_refs_below(elems(elements@), bound@),
            is_wrap_marker_elem(self.wraps@, elements@[i as int]@),
        ensures
            i < next <= elements@.len(),
            elems(old(out)@).len() <= elems(final(out)@).len(),
            elems(final(out)@) == elems(old(out)@) + elems(final(out)@).subrange(
                elems(old(out)@).len() as int,
                elems(final(out)@).len() as int,
            ),
            forall|k: int|
                elems(old(out)@).len() <= k < elems(final(out)@).len() ==> is_leaf(
                    #[trigger] elems(final(out)@)[k],
                ),
            leaves(
                elems(final(out)@).subrange(
                    elems(old(out)@).len() as int,
                    elems(final(out)@).len() as int,
                ),
            ) + expand_nodes(
                self.classes(),
                self.wraps@,
                resolve_seq(a@, elems(elements@), bound@).subrange(
                    next as int,
                    elements@.len() as int,
                ),
            ) == expand_nodes(
                self.classes(),
                self.wraps@,
                resolve_seq(a@, elems(elements@), bound@).subrange(
                    i as int,
                    elements@.len() as int,
                ),
            ),
    {
        let ghost o = a@;
        let ghost cls = self.classes();
        let ghost wraps = self.wraps@;
        let ghost es = elems(elements@);
        let ghost rr = resolve_seq(o, es, bound@);
        let len = elements.len();
        let ghost ns = rr.subrange(i as int, len as int);
        proof {
            assert(es[i as int] == elements@[i as int]@);
            lemma_lookahead_elem(o, wraps, es[i as int], bound@);
            assert(ns[0] == rr[i as int]);
        }
            let index = marker_class_index(&elements[i]);
            let mut j: usize = i + 1;
            let has_end_indent = j < len && is_end_indent_element(&elements[j]);
            if has_end_indent {
                j = j + 1;
            }
            let p2 = j;
            let has_space = j < len && is_space_element(&elements[j]);
            if has_space {
                j = j + 1;
            }
            let p3 = j;
            let has_closing = j < len && is_closing_element(&elements[j]);
            proof {
                if i + 1 < len {
                    assert(es[i + 1] == elements@[i + 1]@);
                    lemma_lookahead_elem(o, wraps, es[i + 1], bound@);
                    assert(ns[1] == rr[i + 1]);
                }
                if p2 < len {
                    assert(es[p2 as int] == elements@[p2 as int]@);
                    lemma_lookahead_elem(o, wraps, es[p2 as int], bound@);
                    assert(ns[p2 - i] == rr[p2 as int]);
                }
                if p3 < len {
                    assert(es[p3 as int] == elements@[p3 as int]@);
                    lemma_lookahead_elem(o, wraps, es[p3 as int], bound@);
                    assert(ns[p3 - i] == rr[p3 as int]);
                }
                assert(lookahead(ns) == ((p2 - i) as int, (p3 - i) as int));
                assert(marker_index(ns[0]) == index);
            }
            let ghost out_before = elems(out@);
            let ghost end_indent = if has_end_indent {
                seq![Elem::Tag(Tag::EndIndent)]
            } else {
                Seq::<Elem>::empty()
            };
            let ghost space_elems = if has_space {
                seq![Elem::Text(seq![' '])]
            } else {
                Seq::<Elem>::empty()
            };
            proof {
                assert(ns.subrange(1, (p2 - i) as int) =~= leaves(end_indent));
                assert(ns.subrange((p2 - i) as int, (p3 - i) as int) =~= leaves(space_elems));
            }
            if has_closing {
                let mut closing: Vec<FormatElement> = Vec::new();
                proof {
                    reveal_strlit(" ");
                }
                if has_space {
                    let sp = text(" ");
                    assert(" "@ =~= seq![' ']);
                    assert(sp@ == Elem::Text(seq![' ']));
                    closing.push(sp);
                    assert(closing@ =~= seq![sp]);
                    assert(elems(closing@) =~= seq![sp@]);
                } else {
                    assert(elems(closing@) =~= Seq::<Elem>::empty());
                }
                let ghost c1 = elems(closing@);
                assert(c1 =~= space_elems);
                let tok = clone_element(&elements[j]);
                closing.push(tok);
                let ghost cl = elems(closing@);
                proof {
                    assert(cl =~= c1.push(tok@));
                    assert(es[p3 as int] == tok@);
                    assert(leaf_elems(leaves(space_elems)) =~= space_elems);
                    assert(leaf_elems(ns.subrange((p2 - i) as int, (p3 - i) as int)).push(
                        leaf_elem(ns[p3 - i]),
                    ) =~= cl);
                    assert forall|k: int| 0 <= k < cl.len() implies is_leaf(#[trigger] cl[k]) by {}
                    lemma_marker_leaves(cls, index, cl);
                }
                self.expand_marker_into(index, closing, out);
                let ghost m1 = elems(out@);
                if has_end_indent {
                    out.push(FormatElement::Tag(Tag::EndIndent));
                }
                assert(elems(out@) =~= m1 + end_indent);
                let ghost added = marker_elems(cls, index, cl) + end_indent;
                proof {
                    assert(elems(out@) =~= out_before + added);
                    assert forall|k: int| 0 <= k < added.len() implies is_leaf(#[trigger] added[k]) by {
                        if k < marker_elems(cls, index, cl).len() {
                            assert(added[k] == marker_elems(cls, index, cl)[k]);
                        }
                    }
                    assert(leaves(added) =~= leaves(marker_elems(cls, index, cl)) + leaves(end_indent));
                    assert(expand_nodes(cls, wraps, ns) == leaves(marker_elems(cls, index, cl))
                        + ns.subrange(1, (p2 - i) as int) + expand_nodes(
                        cls,
                        wraps,
                        ns.subrange((p3 - i) + 1, ns.len() as int),
                    ));
                    assert(ns.subrange((p3 - i) + 1, ns.len() as int) =~= rr.subrange(
                        p3 + 1,
                        len as int,
                    ));
                    assert(leaves(added) + expand_nodes(cls, wraps, rr.subrange(p3 + 1, len as int))
                        =~= expand_nodes(cls, wraps, ns));
                    let fin = elems(out@);
                    assert(fin.subrange(out_before.len() as int, fin.len() as int) =~= added);
                    assert forall|k: int| out_before.len() <= k < fin.len() implies is_leaf(#[trigger] fin[k]) by {
                        assert(fin[k] == added[k - out_before.len()]);
                    }
                }
                j + 1
            } else {
                proof {
                    lemma_marker_leaves(cls, index, seq![]);
                }
                let no_closing: Vec<FormatElement> = Vec::new();
                assert(elems(no_closing@) =~= Seq::<Elem>::empty());
                self.expand_marker_into(index, no_closing, out);
                let ghost m1 = elems(out@);
                if has_end_indent {
                    out.push(FormatElement::Tag(Tag::EndIndent));
                }
                let ghost m2 = elems(out@);
                assert(m2 =~= m1 + end_indent);
                proof {
                    reveal_strlit(" ");
                }
                if has_space {
                    let sp = text(" ");
                    assert(" "@ =~= seq![' ']);
                    assert(sp@ == Elem::Text(seq![' ']));
                    let ghost before_sp = out@;
                    out.push(sp);
                    assert(elems(out@) =~= elems(before_sp).push(sp@));
                }
                let ghost added = marker_elems(cls, index, seq![]) + end_indent + space_elems;
                proof {
                    assert(elems(out@) =~= out_before + added);
                    assert forall|k: int| 0 <= k < added.len() implies is_leaf(#[trigger] added[k]) by {
                        if k < marker_elems(cls, index, seq![]).len() {
                            assert(added[k] == marker_elems(cls, index, seq![])[k]);
                        }
                    }
                    assert(leaves(added) =~= leaves(marker_elems(cls, index, seq![]))
                        + leaves(end_indent) + leaves(space_elems));
                    assert(!(ns.len() > (p3 - i) && is_closing_node(ns[(p3 - i) as int])));
                    assert(expand_nodes(cls, wraps, ns) == leaves(marker_elems(cls, index, seq![]))
                        + ns.subrange(1, (p2 - i) as int) + ns.subrange(
                        (p2 - i) as int,
                        (p3 - i) as int,
                    ) + expand_nodes(cls, wraps, ns.subrange((p3 - i) as int, ns.len() as int)));
                    assert(ns.subrange((p3 - i) as int, ns.len() as int) =~= rr.subrange(
                        p3 as int,
                        len as int,
                    ));
                    assert(leaves(added) + expand_nodes(cls, wraps, rr.subrange(p3 as int, len as int))
                        =~= expand_nodes(cls, wraps, ns));
                    let fin = elems(out@);
                    assert(fin.subrange(out_before.len() as int, fin.len() as int) =~= added);
                    assert forall|k: int| out_before.len() <= k < fin.len() implies is_leaf(#[trigger] fin[k]) by {
                        assert(fin[k] == added[k - out_before.len()]);
                    }
                }
                j
            }
    }

    /// Appends the expansion of `elements` (see `expand_nodes`) to `out`.
    /// Without a wrapping marker at the top level, each element comes out in
    /// its place, with each nested slice reused or replaced by its one rebuilt
    /// copy; without a wrapping marker at any depth, the elements come out as
    /// they are and nothing is rebuilt.
    pub fn expand_into(
        &mut self,
        arena: &mut ElementArena<FormatElement>,
        elements: Vec<FormatElement>,
        bound: Ghost<int>,
        out: &mut Vec<FormatElement>,
    )
        requires
            old(self).inv(old(arena)@),
            0 <= bound@ <= old(self).initial@.len(),
            seq_refs_below(elems(elements@), bound@),
            seq_refs_below(elems(old(out)@), old(arena)@.len() as int),
        ensures
            final(self).inv(final(arena)@),
            final(self).same_config(old(self)),
            extends(final(arena)@, old(arena)@),
            seq_refs_below(elems(final(out)@), final(arena)@.len() as int),
            resolve_seq(final(arena)@, elems(final(out)@), final(arena)@.len() as int)
                == resolve_seq(old(arena)@, elems(old(out)@), old(arena)@.len() as int)
                + expand_nodes(
                old(self).classes(),
                old(self).wraps@,
                resolve_seq(old(self).initial@, elems(elements@), bound@),
            ),
            memo_grows(old(self).expanded@, final(self).expanded@),
            (forall|j: int| 0 <= j < elements@.len() ==> !is_wrap_marker_elem(old(self).wraps@, #[trigger] elements@[j]@))
                ==> elems(final(out)@) == elems(old(out)@) + elems(elements@).map_values(
                |e: Elem| map_slots(final(self).image(), e),
            ),
            !nodes_contain(old(self).wraps@, resolve_seq(old(self).initial@, elems(elements@), bound@))
                ==> final(arena)@ == old(arena)@ && elems(final(out)@) == elems(old(out)@) + elems(
                elements@,
            ),
        decreases bound@, 1int,
    {
        let ghost o = self.initial@;
        let ghost cls = self.classes();
        let ghost wraps = self.wraps@;
        let ghost es = elems(elements@);
        let ghost rr = resolve_seq(o, es, bound@);
        let ghost a0 = arena@;
        let ghost r0 = resolve_seq(a0, elems(out@), a0.len() as int);
        let ghost out0 = elems(out@);
        let ghost no_top = forall|j: int|
            0 <= j < elements@.len() ==> !is_wrap_marker_elem(wraps, #[trigger] elements@[j]@);
        let len = elements.len();
        let mut i: usize = 0;
        proof {
            assert(rr.subrange(0, len as int) =~= rr);
            assert(a0.take(a0.len() as int) =~= a0);
            assert(es.take(0) =~= Seq::<Elem>::empty());
            assert(out0 + es.take(0) =~= out0);
            assert(es.take(0).map_values(|e: Elem| map_slots(self.image(), e)) =~= Seq::<Elem>::empty());
            assert(out0 + Seq::<Elem>::empty() =~= out0);
        }
        while i < len
            invariant
                i <= len,
                len == elements@.len(),
                es == elems(elements@),
                rr == resolve_seq(o, es, bound@),
                rr.len() == len,
                self.inv(arena@),
                self.same_config(old(self)),
                o == self.initial@,
                cls == self.classes(),
                wraps == self.wraps@,
                0 <= bound@ <= o.len(),
                seq_refs_below(es, bound@),
                extends(arena@, a0),
                seq_refs_below(elems(out@), arena@.len() as int),
                resolve_seq(arena@, elems(out@), arena@.len() as int) + expand_nodes(
                    cls,
                    wraps,
                    rr.subrange(i as int, len as int),
                ) == r0 + expand_nodes(cls, wraps, rr),
                out0 == elems(old(out)@),
                no_top == forall|j: int|
                    0 <= j < elements@.len() ==> !is_wrap_marker_elem(wraps, #[trigger] elements@[j]@),
                memo_grows(old(self).expanded@, self.expanded@),
                no_top ==> elems(out@) == out0 + es.take(i as int).map_values(
                    |e: Elem| map_slots(self.image(), e),
                ) && forall|j: int| 0 <= j < i ==> self.covers(#[trigger] es[j]),
                !nodes_contain(wraps, rr) ==> arena@ == a0 && elems(out@) == out0 + es.take(i as int),
            decreases len - i,
        {
            let ghost ns = rr.subrange(i as int, len as int);
            let ghost i0 = i as int;
            let ghost a_i = arena@;
            let ghost m_i = self.expanded@;
            let ghost out_i = elems(out@);
            let ghost res_i = resolve_seq(a_i, elems(out@), a_i.len() as int);
            proof {
                assert(es[i as int] == elements@[i as int]@);
                lemma_lookahead_elem(o, wraps, es[i as int], bound@);
                assert(ns[0] == rr[i as int]);
                if !nodes_contain(wraps, rr) {
                    lemma_nodes_contain_exists(wraps, rr);
                    assert(!node_contains(wraps, rr[i as int]));
                }
            }
            if self.is_wrap_marker(&elements[i]) {
                proof {
                    assert(!no_top);
                    assert(is_wrap_marker_node(wraps, rr[i as int]));
                    assert(nodes_contain(wraps, rr)) by {
                        lemma_nodes_contain_exists(wraps, rr);
                    }
                }
                let ghost out_before = elems(out@);
                let next = self.expand_marker_group(&elements, i, Ghost(o), bound, out);
                proof {
                    let added = elems(out@).subrange(out_before.len() as int, elems(out@).len() as int);
                    assert(elems(out@) =~= out_before + added);
                    lemma_resolve_seq_add(a_i, out_before, added, a_i.len() as int);
                    lemma_resolve_leaves(a_i, added, a_i.len() as int);
                    assert forall|k: int| 0 <= k < elems(out@).len() implies refs_below(#[trigger] elems(out@)[k], a_i.len() as int) by {
                        if k < out_before.len() {
                            assert(elems(out@)[k] == out_before[k]);
                        } else {
                            assert(elems(out@)[k] == added[k - out_before.len()]);
                        }
                    }
                }
                i = next;
            } else {
                self.expand_element_into(arena, &elements[i], bound, out);
                proof {
                    lemma_memo_grows_trans(old(self).expanded@, m_i, self.expanded@);
                    if no_top {
                        assert forall|j: int| 0 <= j < i + 1 implies self.covers(#[trigger] es[j])
                            && map_slots(self.image(), es[j]) == map_slots(
                            |k: usize| slot_image(o, wraps, m_i, k),
                            es[j],
                        ) || j == i by {
                            if j < i {
                                lemma_image_stable(o, wraps, m_i, self.expanded@, es[j]);
                            }
                        }
                        assert(es.take(i + 1).map_values(|e: Elem| map_slots(self.image(), e)) =~= es.take(
                            i as int,
                        ).map_values(|e: Elem| map_slots(|k: usize| slot_image(o, wraps, m_i, k), e)).push(
                            map_slots(self.image(), es[i as int]),
                        ));
                        assert(elems(out@) =~= out0 + es.take(i + 1).map_values(
                            |e: Elem| map_slots(self.image(), e),
                        ));
                    }
                    if !nodes_contain(wraps, rr) {
                        assert(es.take(i + 1) =~= es.take(i as int).push(es[i as int]));
                        assert(elems(out@) =~= out0 + es.take(i + 1));
                    }
                    assert(ns.drop_first() =~= rr.subrange(i + 1, len as int));
                    assert(expand_nodes(cls, wraps, ns) == seq![expand_node(cls, wraps, ns[0])]
                        + expand_nodes(cls, wraps, ns.drop_first()));
                    lemma_extends_trans(arena@, a_i, a0);
                }
                i += 1;
            }
        }
        proof {
            assert(rr.subrange(len as int, len as int) =~= Seq::<Node>::empty());
            assert(es.take(len as int) =~= es);
        }
    }
}

} // verus!
