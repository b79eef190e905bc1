//! Building the `fill` that packs the post-sort classes across lines.

use vstd::prelude::*;

use crate::format_element::{elems, text, Elem, FormatElement, LineMode, Tag};
use crate::strings::{chars_of, split_ascii_whitespace, split_ascii_whitespace_exec, views};

use super::expander::Expander;

verus! {

/// The entry of the `k`-th class of `words` (`k >= 1`): a separator entry,
/// then the class, with `closing` glued to the last class.
pub open spec fn fill_entry(words: Seq<Seq<char>>, k: int, closing: Seq<Elem>) -> Seq<Elem> {
    seq![
        Elem::Tag(Tag::StartEntry),
        Elem::Line(LineMode::SoftOrSpace),
        Elem::Tag(Tag::EndEntry),
        Elem::Tag(Tag::StartEntry),
        Elem::Text(words[k]),
    ] + (if k == words.len() - 1 {
        closing
    } else {
        seq![]
    }) + seq![Elem::Tag(Tag::EndEntry)]
}

/// The entries of the classes `from..to` of `words`.
pub open spec fn fill_entries(words: Seq<Seq<char>>, from: int, to: int, closing: Seq<Elem>) -> Seq<
    Elem,
>
    decreases to - from,
{
    if to <= from {
        seq![]
    } else {
        fill_entries(words, from, to - 1, closing) + fill_entry(words, to - 1, closing)
    }
}

/// What the marker of class string `index` becomes, with `closing` (the
/// delimiter that closes the string, and a space before it) counted on the
/// last line:
/// - a dangling index keeps the marker;
/// - whitespace-only content leaves just `closing`;
/// - a single class becomes its text;
/// - several classes become a fill of them separated by `SoftOrSpace` lines.
pub open spec fn marker_elems(classes: Seq<Seq<char>>, index: usize, closing: Seq<Elem>) -> Seq<
    Elem,
> {
    if index >= classes.len() {
        seq![Elem::TailwindClass(index)] + closing
    } else {
        let words = split_ascii_whitespace(classes[index as int]);
        if words.len() == 0 {
            closing
        } else if words.len() == 1 {
            seq![Elem::Text(words[0])] + closing
        } else {
            seq![
                Elem::Tag(Tag::StartFill),
                Elem::Tag(Tag::StartEntry),
                Elem::Text(words[0]),
                Elem::Tag(Tag::EndEntry),
            ] + fill_entries(words, 1, words.len() as int, closing) + seq![
                Elem::Tag(Tag::EndFill),
            ]
        }
    }
}

/// Appends `s` to `out`.
pub fn append_elements(out: &mut Vec<FormatElement>, s: &mut Vec<FormatElement>)
    ensures
        elems(final(out)@) == elems(old(out)@) + elems(old(s)@),
{
    let ghost before = out@;
    let ghost added = s@;
    out.append(s);
    assert(elems(before + added) =~= elems(before) + elems(added));
}

impl<'b> Expander<'b> {
    /// Appends what the marker of class string `index` becomes (see
    /// [`marker_elems`]) to `out`. Continuation lines start at the current
    /// indentation; the writer wraps the marker in an indent where it wants
    /// one more level.
    pub fn expand_marker_into(
        &self,
        index: usize,
        mut closing: Vec<FormatElement>,
        out: &mut Vec<FormatElement>,
    )
        ensures
            elems(final(out)@) == elems(old(out)@) + marker_elems(
                views(self.sorted_classes@),
                index,
                elems(closing@),
            ),
            elems(final(out)@).len() >= elems(old(out)@).len() + closing@.len() + closing_tail_len(
                views(self.sorted_classes@),
                index,
            ),
            elems(final(out)@).subrange(
                elems(final(out)@).len() - closing_tail_len(views(self.sorted_classes@), index)
                    - closing@.len(),
                elems(final(out)@).len() - closing_tail_len(views(self.sorted_classes@), index),
            ) == elems(closing@),
    {
        proof {
            lemma_marker_keeps_closing(views(self.sorted_classes@), index, elems(closing@));
        }
        let ghost classes = views(self.sorted_classes@);
        let ghost c0 = elems(closing@);
        let ghost out0 = elems(out@);
        if index >= self.sorted_classes.len() {
            // Dangling index: keep the marker so the printer reports it.
            out.push(FormatElement::TailwindClass(index));
            proof {
                assert(elems(out@) =~= out0.push(Elem::TailwindClass(index)));
            }
            append_elements(out, &mut closing);
            proof {
                assert(out0.push(Elem::TailwindClass(index)) + c0 =~= out0 + (seq![
                    Elem::TailwindClass(index),
                ] + c0));
            }
            return;
        }
        let class_chars = chars_of(self.sorted_classes[index].as_str());
        let words = split_ascii_whitespace_exec(class_chars.as_slice());
        let ghost ws = views(words@);
        assert(ws == split_ascii_whitespace(classes[index as int]));
        if words.len() == 0 {
            // Whitespace-only content: nothing to wrap.
            append_elements(out, &mut closing);
            return;
        }
        if words.len() == 1 {
            out.push(FormatElement::Text(words[0].clone()));
            proof {
                assert(elems(out@) =~= out0.push(Elem::Text(ws[0])));
            }
            append_elements(out, &mut closing);
            proof {
                assert(out0.push(Elem::Text(ws[0])) + c0 =~= out0 + (seq![Elem::Text(ws[0])] + c0));
            }
            return;
        }
        out.push(FormatElement::Tag(Tag::StartFill));
        out.push(FormatElement::Tag(Tag::StartEntry));
        out.push(FormatElement::Text(words[0].clone()));
        out.push(FormatElement::Tag(Tag::EndEntry));
        let ghost head = seq![
            Elem::Tag(Tag::StartFill),
            Elem::Tag(Tag::StartEntry),
            Elem::Text(ws[0]),
            Elem::Tag(Tag::EndEntry),
        ];
        assert(elems(out@) =~= out0 + head + fill_entries(ws, 1, 1, c0));
        let last = words.len() - 1;
        let mut k: usize = 1;
        while k <= last
            invariant
                1 <= k <= last + 1,
                last + 1 == words.len(),
                ws == views(words@),
                ws.len() == words.len(),
                k <= last ==> elems(closing@) == c0,
                elems(out@) == out0 + head + fill_entries(ws, 1, k as int, c0),
            decreases last + 1 - k,
        {
            let ghost before = elems(out@);
            out.push(FormatElement::Tag(Tag::StartEntry));
            out.push(FormatElement::Line(LineMode::SoftOrSpace));
            out.push(FormatElement::Tag(Tag::EndEntry));
            out.push(FormatElement::Tag(Tag::StartEntry));
            out.push(FormatElement::Text(words[k].clone()));
            let ghost mid = elems(out@);
            assert(mid =~= before + seq![
                Elem::Tag(Tag::StartEntry),
                Elem::Line(LineMode::SoftOrSpace),
                Elem::Tag(Tag::EndEntry),
                Elem::Tag(Tag::StartEntry),
                Elem::Text(ws[k as int]),
            ]);
            if k == last {
                append_elements(out, &mut closing);
            }
            let ghost mid2 = elems(out@);
            out.push(FormatElement::Tag(Tag::EndEntry));
            proof {
                assert(elems(out@) =~= mid2.push(Elem::Tag(Tag::EndEntry)));
                assert(fill_entries(ws, 1, k + 1, c0) == fill_entries(ws, 1, k as int, c0)
                    + fill_entry(ws, k as int, c0));
                assert(elems(out@) =~= out0 + head + fill_entries(ws, 1, k + 1, c0));
            }
            k += 1;
        }
        let ghost before_end = elems(out@);
        out.push(FormatElement::Tag(Tag::EndFill));
        proof {
            assert(elems(out@) =~= before_end.push(Elem::Tag(Tag::EndFill)));
            assert(elems(out@) =~= out0 + marker_elems(classes, index, c0));
        }
    }
}

/// Re-formatting is idempotent: a class string that an earlier run wrapped
/// (its classes separated by newlines and indentation) expands to the same
/// fill as the single-line string of the same classes, because the split on
/// ASCII whitespace collapses every run of whitespace.
pub proof fn lemma_rewrap_idempotent(classes: Seq<Seq<char>>, index: usize, closing: Seq<Elem>)
    requires
        index < classes.len(),
    ensures
        marker_elems(
            classes.update(
                index as int,
                crate::strings::join_with_space(split_ascii_whitespace(classes[index as int])),
            ),
            index, closing,
        ) == marker_elems(classes, index, closing),
{
    crate::strings::lemma_split_words(classes[index as int]);
    crate::strings::lemma_split_join(split_ascii_whitespace(classes[index as int]));
}

/// How many elements follow the closing elements at the end of what a
/// marker becomes: a fill of several classes closes its last entry and
/// itself after them.
pub open spec fn closing_tail_len(classes: Seq<Seq<char>>, index: usize) -> int {
    if index < classes.len() && split_ascii_whitespace(classes[index as int]).len() > 1 {
        2
    } else {
        0
    }
}

/// The last fill entry ends with the closing elements and its `EndEntry`.
proof fn lemma_fill_entries_end(words: Seq<Seq<char>>, from: int, to: int, closing: Seq<Elem>)
    requires
        from < to,
        to == words.len(),
    ensures
        ({
            let es = fill_entries(words, from, to, closing);
            &&& es.len() >= closing.len() + 1
            &&& es.subrange(es.len() - 1 - closing.len(), es.len() as int) == closing.push(
                Elem::Tag(Tag::EndEntry),
            )
        }),
{
    let p = fill_entries(words, from, to - 1, closing);
    let e = fill_entry(words, to - 1, closing);
    assert(fill_entries(words, from, to, closing) == p + e);
    assert(e == seq![
        Elem::Tag(Tag::StartEntry),
        Elem::Line(LineMode::SoftOrSpace),
        Elem::Tag(Tag::EndEntry),
        Elem::Tag(Tag::StartEntry),
        Elem::Text(words[to - 1]),
    ] + closing + seq![Elem::Tag(Tag::EndEntry)]);
    let es = p + e;
    assert(es.subrange(es.len() - 1 - closing.len(), es.len() as int) =~= closing.push(
        Elem::Tag(Tag::EndEntry),
    ));
}

/// Expanding a marker loses no element: what the marker of an existing
/// class string becomes carries the closing elements it was handed (a
/// quote or backtick, and the space before it) on its last line, in order:
/// at the very end, or, for a fill of several classes, just before the
/// `EndEntry` and `EndFill` that close the last entry and the fill.
pub proof fn lemma_marker_keeps_closing(classes: Seq<Seq<char>>, index: usize, closing: Seq<Elem>)
    ensures
        ({
            let m = marker_elems(classes, index, closing);
            let tail = closing_tail_len(classes, index);
            &&& m.len() >= closing.len() + tail
            &&& m.subrange(m.len() - tail - closing.len(), m.len() - tail) == closing
            &&& tail == 2 ==> m.subrange(m.len() - 2, m.len() as int) == seq![
                Elem::Tag(Tag::EndEntry),
                Elem::Tag(Tag::EndFill),
            ]
        }),
{
    let m = marker_elems(classes, index, closing);
    if index >= classes.len() {
        assert(m.subrange(m.len() - closing.len(), m.len() as int) =~= closing);
    } else {
        let words = split_ascii_whitespace(classes[index as int]);
        if words.len() == 0 {
            assert(m.subrange(m.len() - closing.len(), m.len() as int) =~= closing);
        } else if words.len() == 1 {
            assert(m.subrange(m.len() - closing.len(), m.len() as int) =~= closing);
        } else {
            let h = seq![
                Elem::Tag(Tag::StartFill),
                Elem::Tag(Tag::StartEntry),
                Elem::Text(words[0]),
                Elem::Tag(Tag::EndEntry),
            ];
            let es = fill_entries(words, 1, words.len() as int, closing);
            lemma_fill_entries_end(words, 1, words.len() as int, closing);
            assert(m == h + es + seq![Elem::Tag(Tag::EndFill)]);
            let k = es.len() - 1 - closing.len();
            assert forall|i: int| 0 <= i < closing.len() implies m.subrange(
                m.len() - 2 - closing.len(),
                m.len() - 2,
            )[i] == closing[i] by {
                assert(m[h.len() + k + i] == es[k + i]);
                assert(es.subrange(k, es.len() as int)[i] == closing.push(Elem::Tag(Tag::EndEntry))[i]);
            }
            assert(m.subrange(m.len() - 2 - closing.len(), m.len() - 2) =~= closing);
            assert(m[m.len() - 2] == es[es.len() - 1]);
            assert(es.subrange(k, es.len() as int)[closing.len() as int] == Elem::Tag(Tag::EndEntry));
            assert(m.subrange(m.len() - 2, m.len() as int) =~= seq![
                Elem::Tag(Tag::EndEntry),
                Elem::Tag(Tag::EndFill),
            ]);
        }
    }
}

} // verus!
