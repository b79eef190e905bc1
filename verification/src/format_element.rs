//! The formatting IR that the class-name features read and write.
//!
//! Nested content (`Interned` payloads and the variants of `BestFitting`) is
//! held in an [`ElementArena`] and referenced by its slot: the same slot may be
//! referenced from several places, as the same interned slice is in a shared
//! document. A slot only references slots created before it, so a document is
//! a DAG that [`resolve_slice`] unfolds into a tree ([`Node`]).

use vstd::prelude::*;


verus! {

/// Start and end tags of the IR.
#[derive(Clone, Copy, Debug, PartialEq, Eq, Structural)]
pub enum Tag {
    StartIndent,
    EndIndent,
    StartGroup,
    EndGroup,
    StartFill,
    EndFill,
    StartEntry,
    EndEntry,
}

/// The kinds of line break.
#[derive(Clone, Copy, Debug, PartialEq, Eq, Structural)]
pub enum LineMode {
    /// A space in flat mode, a line break otherwise.
    SoftOrSpace,
    /// Nothing in flat mode, a line break otherwise.
    Soft,
    /// Always a line break.
    Hard,
}

/// One element of the formatting IR.
#[derive(Debug)]
pub enum FormatElement {
    /// A space.
    Space,
    /// A line break of the given mode.
    Line(LineMode),
    /// Text that may contain anything but a line break.
    Text(String),
    /// A token of the source, such as a quote.
    Token(String),
    /// A start or end tag.
    Tag(Tag),
    /// Measures the preceding content on its own (what follows it on the line
    /// does not count) when fitting a best-fitting variant.
    MeasureAlone,
    /// The class string at this index of the (sorted) class list.
    TailwindClass(usize),
    /// The content of this arena slot.
    Interned(usize),
    /// The printer picks the first of these arena slots that fits.
    BestFitting(Vec<usize>),
}

/// The mathematical value of a [`FormatElement`].
pub enum Elem {
    Space,
    Line(LineMode),
    Text(Seq<char>),
    Token(Seq<char>),
    Tag(Tag),
    MeasureAlone,
    TailwindClass(usize),
    /// A marker whose class string wraps, where the IR carries that flag on
    /// the marker itself (see `wrap_expand`).
    WrapMarker(usize),
    Interned(usize),
    BestFitting(Seq<usize>),
}

impl View for FormatElement {
    type V = Elem;

    open spec fn view(&self) -> Elem {
        match self {
            FormatElement::Space => Elem::Space,
            FormatElement::Line(mode) => Elem::Line(*mode),
            FormatElement::Text(text) => Elem::Text(text@),
            FormatElement::Token(text) => Elem::Token(text@),
            FormatElement::Tag(tag) => Elem::Tag(*tag),
            FormatElement::MeasureAlone => Elem::MeasureAlone,
            FormatElement::TailwindClass(index) => Elem::TailwindClass(*index),
            FormatElement::Interned(slot) => Elem::Interned(*slot),
            FormatElement::BestFitting(variants) => Elem::BestFitting(variants@),
        }
    }
}

/// The views of a sequence of elements.
pub open spec fn elems<T: View<V = Elem>>(s: Seq<T>) -> Seq<Elem> {
    s.map_values(|e: T| e@)
}

/// Every slot that `e` references is below `bound`.
pub open spec fn refs_below(e: Elem, bound: int) -> bool {
    match e {
        Elem::Interned(slot) => slot < bound,
        Elem::BestFitting(variants) => forall|i: int|
            0 <= i < variants.len() ==> #[trigger] variants[i] < bound,
        _ => true,
    }
}

/// Every slot that the elements of `s` reference is below `bound`.
pub open spec fn seq_refs_below(s: Seq<Elem>, bound: int) -> bool {
    forall|i: int| 0 <= i < s.len() ==> refs_below(#[trigger] s[i], bound)
}

/// Each slot references only slots created before it.
pub open spec fn arena_wf(a: Seq<Seq<Elem>>) -> bool {
    forall|k: int| 0 <= k < a.len() ==> seq_refs_below(#[trigger] a[k], k)
}

/// `a` begins with `p`.
pub open spec fn extends(a: Seq<Seq<Elem>>, p: Seq<Seq<Elem>>) -> bool {
    p.len() <= a.len() && a.take(p.len() as int) == p
}

/// The tree that a document denotes: nested content unfolded.
pub enum Node {
    Leaf(Elem),
    Interned(Seq<Node>),
    BestFitting(Seq<Seq<Node>>),
}

/// The tree content of slot `j`.
pub open spec fn resolve_slice(a: Seq<Seq<Elem>>, j: int) -> Seq<Node>
    decreases j, 1int,
{
    if 0 <= j < a.len() {
        Seq::new(a[j].len(), |i: int| resolve_elem(a, a[j][i], j))
    } else {
        seq![]
    }
}

/// The tree of element `e`, where only slots below `bound` are unfolded.
pub open spec fn resolve_elem(a: Seq<Seq<Elem>>, e: Elem, bound: int) -> Node
    decreases bound, 0int,
{
    match e {
        Elem::Interned(slot) => if 0 <= slot < bound {
            Node::Interned(resolve_slice(a, slot as int))
        } else {
            Node::Leaf(e)
        },
        Elem::BestFitting(variants) => Node::BestFitting(
            Seq::new(
                variants.len(),
                |i: int|
                    if 0 <= variants[i] < bound {
                        resolve_slice(a, variants[i] as int)
                    } else {
                        seq![]
                    },
            ),
        ),
        _ => Node::Leaf(e),
    }
}

/// The trees of the elements of `s`.
pub open spec fn resolve_seq(a: Seq<Seq<Elem>>, s: Seq<Elem>, bound: int) -> Seq<Node> {
    Seq::new(s.len(), |i: int| resolve_elem(a, s[i], bound))
}

/// An element that references no slot.
pub open spec fn is_leaf(e: Elem) -> bool {
    !(e is Interned) && !(e is BestFitting)
}

/// Each element of `s` as a leaf.
pub open spec fn leaves(s: Seq<Elem>) -> Seq<Node> {
    s.map_values(|e: Elem| Node::Leaf(e))
}

/// Unfolding in a longer arena gives the same tree.
pub proof fn lemma_resolve_slice_extends(a: Seq<Seq<Elem>>, a2: Seq<Seq<Elem>>, j: int)
    requires
        extends(a2, a),
    ensures
        0 <= j < a.len() ==> resolve_slice(a2, j) == resolve_slice(a, j),
    decreases j, 1int,
{
    if 0 <= j < a.len() {
        assert(a2[j] == a[j]) by {
            assert(a2.take(a.len() as int)[j] == a2[j]);
        }
        assert forall|i: int| 0 <= i < a[j].len() implies resolve_elem(a2, a[j][i], j)
            == resolve_elem(a, a[j][i], j) by {
            lemma_resolve_elem_extends(a, a2, a[j][i], j);
        }
        assert(resolve_slice(a2, j) =~= resolve_slice(a, j));
    }
}

/// Unfolding an element in a longer arena gives the same tree.
pub proof fn lemma_resolve_elem_extends(a: Seq<Seq<Elem>>, a2: Seq<Seq<Elem>>, e: Elem, bound: int)
    requires
        extends(a2, a),
        bound <= a.len(),
    ensures
        resolve_elem(a2, e, bound) == resolve_elem(a, e, bound),
    decreases bound, 0int,
{
    match e {
        Elem::Interned(slot) => {
            if 0 <= slot < bound {
                lemma_resolve_slice_extends(a, a2, slot as int);
            }
        },
        Elem::BestFitting(variants) => {
            assert forall|i: int| 0 <= i < variants.len() && 0 <= variants[i] < bound implies
                resolve_slice(a2, variants[i] as int) == resolve_slice(a, variants[i] as int) by {
                lemma_resolve_slice_extends(a, a2, variants[i] as int);
            }
            if let Node::BestFitting(x) = resolve_elem(a2, e, bound) {
                if let Node::BestFitting(y) = resolve_elem(a, e, bound) {
                    assert(x =~= y);
                }
            }
        },
        _ => {},
    }
}

/// Unfolding an element with a larger bound gives the same tree.
pub proof fn lemma_resolve_elem_bound(a: Seq<Seq<Elem>>, e: Elem, b1: int, b2: int)
    requires
        refs_below(e, b1),
        b1 <= b2,
    ensures
        resolve_elem(a, e, b1) == resolve_elem(a, e, b2),
{
    if let Elem::BestFitting(variants) = e {
        if let Node::BestFitting(x) = resolve_elem(a, e, b1) {
            if let Node::BestFitting(y) = resolve_elem(a, e, b2) {
                assert(x =~= y);
            }
        }
    }
}

/// The trees of a sequence do not change when the arena grows and the bound
/// moves up to the new length.
pub proof fn lemma_resolve_seq_extends(
    a: Seq<Seq<Elem>>,
    a2: Seq<Seq<Elem>>,
    s: Seq<Elem>,
)
    requires
        extends(a2, a),
        seq_refs_below(s, a.len() as int),
    ensures
        resolve_seq(a2, s, a2.len() as int) == resolve_seq(a, s, a.len() as int),
{
    assert forall|i: int| 0 <= i < s.len() implies resolve_elem(a2, s[i], a2.len() as int)
        == resolve_elem(a, s[i], a.len() as int) by {
        lemma_resolve_elem_bound(a2, s[i], a.len() as int, a2.len() as int);
        lemma_resolve_elem_extends(a, a2, s[i], a.len() as int);
    }
    assert(resolve_seq(a2, s, a2.len() as int) =~= resolve_seq(a, s, a.len() as int));
}

/// The tree of a leaf is the leaf.
pub proof fn lemma_resolve_leaves(a: Seq<Seq<Elem>>, s: Seq<Elem>, bound: int)
    requires
        forall|i: int| 0 <= i < s.len() ==> is_leaf(#[trigger] s[i]),
    ensures
        resolve_seq(a, s, bound) == leaves(s),
{
    assert(resolve_seq(a, s, bound) =~= leaves(s));
}

/// The trees of a concatenation.
pub proof fn lemma_resolve_seq_add(a: Seq<Seq<Elem>>, s1: Seq<Elem>, s2: Seq<Elem>, bound: int)
    ensures
        resolve_seq(a, s1 + s2, bound) == resolve_seq(a, s1, bound) + resolve_seq(a, s2, bound),
{
    assert(resolve_seq(a, s1 + s2, bound) =~= resolve_seq(a, s1, bound) + resolve_seq(
        a,
        s2,
        bound,
    ));
}

/// `a` extends `c` when it extends `b` and `b` extends `c`.
pub proof fn lemma_extends_trans(a: Seq<Seq<Elem>>, b: Seq<Seq<Elem>>, c: Seq<Seq<Elem>>)
    requires
        extends(a, b),
        extends(b, c),
    ensures
        extends(a, c),
{
    assert(a.take(c.len() as int) =~= b.take(c.len() as int));
}

/// A store of element slices that later slices (and documents) reference.
pub struct ElementArena<T> {
    pub slices: Vec<Vec<T>>,
}

impl<T: View<V = Elem>> View for ElementArena<T> {
    type V = Seq<Seq<Elem>>;

    open spec fn view(&self) -> Seq<Seq<Elem>> {
        self.slices@.map_values(|s: Vec<T>| elems(s@))
    }
}

impl<T: View<V = Elem>> ElementArena<T> {
    /// An empty arena.
    pub fn new() -> (r: Self)
        ensures
            r@ == Seq::<Seq<Elem>>::empty(),
    {
        let r = ElementArena { slices: Vec::new() };
        assert(r@ =~= Seq::<Seq<Elem>>::empty());
        r
    }

    /// The number of slots.
    pub fn len(&self) -> (r: usize)
        ensures
            r == self@.len(),
    {
        self.slices.len()
    }

    /// Stores `elements` in a new slot and returns the slot.
    pub fn intern(&mut self, elements: Vec<T>) -> (r: usize)
        ensures
            r == old(self)@.len(),
            final(self)@ == old(self)@.push(elems(elements@)),
    {
        let r = self.slices.len();
        self.slices.push(elements);
        assert(self@ =~= old(self)@.push(elems(elements@)));
        r
    }

    /// The elements of slot `slot`.
    pub fn slice(&self, slot: usize) -> (r: &Vec<T>)
        requires
            slot < self@.len(),
        ensures
            elems(r@) == self@[slot as int],
    {
        &self.slices[slot]
    }
}

/// A copy of `e`.
pub fn clone_element(e: &FormatElement) -> (r: FormatElement)
    ensures
        r@ == e@,
{
    match e {
        FormatElement::Space => FormatElement::Space,
        FormatElement::Line(mode) => FormatElement::Line(*mode),
        FormatElement::Text(text) => FormatElement::Text(text.clone()),
        FormatElement::Token(text) => FormatElement::Token(text.clone()),
        FormatElement::Tag(tag) => FormatElement::Tag(*tag),
        FormatElement::MeasureAlone => FormatElement::MeasureAlone,
        FormatElement::TailwindClass(index) => FormatElement::TailwindClass(*index),
        FormatElement::Interned(slot) => FormatElement::Interned(*slot),
        FormatElement::BestFitting(variants) => {
            let mut copy: Vec<usize> = Vec::new();
            let mut i: usize = 0;
            while i < variants.len()
                invariant
                    i <= variants.len(),
                    copy@ == variants@.take(i as int),
                decreases variants.len() - i,
            {
                copy.push(variants[i]);
                proof {
                    assert(variants@.take(i + 1) =~= variants@.take(i as int).push(variants@[i as int]));
                }
                i += 1;
            }
            assert(variants@.take(variants.len() as int) =~= variants@);
            FormatElement::BestFitting(copy)
        },
    }
}

/// A copy of `s`.
pub fn clone_elements(s: &[FormatElement]) -> (r: Vec<FormatElement>)
    ensures
        elems(r@) == elems(s@),
{
    let mut out: Vec<FormatElement> = Vec::new();
    let mut i: usize = 0;
    while i < s.len()
        invariant
            i <= s.len(),
            elems(out@) == elems(s@).take(i as int),
        decreases s.len() - i,
    {
        let e = clone_element(&s[i]);
        proof {
            assert(elems(s@)[i as int] == s@[i as int]@);
            assert(elems(out@.push(e)) =~= elems(out@).push(e@));
            assert(elems(out@.push(e)) =~= elems(s@).take(i + 1));
        }
        out.push(e);
        i += 1;
    }
    assert(elems(s@).take(s.len() as int) =~= elems(s@));
    out
}

/// A text element holding `s`.
pub fn text(s: &str) -> (r: FormatElement)
    ensures
        r@ == Elem::Text(s@),
{
    FormatElement::Text(s.to_owned())
}

/// A token element holding `s`.
pub fn token(s: &str) -> (r: FormatElement)
    ensures
        r@ == Elem::Token(s@),
{
    FormatElement::Token(s.to_owned())
}

} // verus!
