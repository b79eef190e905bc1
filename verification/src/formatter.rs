//! The end of a formatting run: sorting the collected class strings with the
//! host's sorter, and expanding the wrapping class markers once the sorted
//! content is known.

use vstd::prelude::*;

use crate::context::{ContextView, JsFormatContext};
use crate::format_element::{
    arena_wf, elems, extends, resolve_seq, seq_refs_below, ElementArena, FormatElement,
};
use crate::strings::views;
use crate::wrap_class_names::{expand_nodes, expand_wrap_markers, nodes_contain};

verus! {

/// `flags[i]` says whether index `i` is one of `indices`.
pub open spec fn index_flags(n: nat, indices: Seq<usize>) -> Seq<bool> {
    Seq::new(n, |i: int| indices.contains(i as usize))
}

/// The number of sortable slots (those not flagged) before slot `i`.
pub open spec fn rank(flags: Seq<bool>, i: int) -> nat
    decreases i,
{
    if i <= 0 {
        0
    } else {
        rank(flags, i - 1) + if !flags[i - 1] {
            1nat
        } else {
            0nat
        }
    }
}

/// The classes of the first `n` slots that are not flagged, in order.
pub open spec fn sortable_prefix(classes: Seq<Seq<char>>, flags: Seq<bool>, n: int) -> Seq<
    Seq<char>,
>
    decreases n,
{
    if n <= 0 {
        seq![]
    } else {
        sortable_prefix(classes, flags, n - 1) + if !flags[n - 1] {
            seq![classes[n - 1]]
        } else {
            seq![]
        }
    }
}

/// The classes that are handed to the sorter: those not flagged, in order.
pub open spec fn sortable(classes: Seq<Seq<char>>, flags: Seq<bool>) -> Seq<Seq<char>> {
    sortable_prefix(classes, flags, classes.len() as int)
}

/// The sorted strings put back into the slots they were taken from: a
/// flagged slot keeps its class, and so does a slot past the end of what the
/// sorter returned.
pub open spec fn merge_sorted(classes: Seq<Seq<char>>, flags: Seq<bool>, sorted: Seq<Seq<char>>) -> Seq<
    Seq<char>,
> {
    Seq::new(
        classes.len(),
        |i: int|
            if !flags[i] && rank(flags, i) < sorted.len() {
                sorted[rank(flags, i) as int]
            } else {
                classes[i]
            },
    )
}

/// `result` is what sorting `classes` with `sorter` gives when the classes at
/// `unsorted` are left out: the sorter is handed the others, in order, and
/// its answer is put back into their slots (see [`merge_sorted`]).
pub open spec fn sort_outcome<F: Fn(Vec<String>) -> Vec<String>>(
    sorter: F,
    classes: Seq<Seq<char>>,
    unsorted: Seq<usize>,
    result: Seq<Seq<char>>,
) -> bool {
    let flags = index_flags(classes.len(), unsorted);
    exists|input: Vec<String>, output: Vec<String>|
        views(input@) == sortable(classes, flags) && call_ensures(sorter, (input,), output) && result
            == merge_sorted(classes, flags, views(output@))
}

/// With nothing left out, every slot is sortable and ranks as its index.
proof fn lemma_rank_all_sortable(flags: Seq<bool>, i: int)
    requires
        0 <= i <= flags.len(),
        forall|j: int| 0 <= j < flags.len() ==> !#[trigger] flags[j],
    ensures
        rank(flags, i) == i,
    decreases i,
{
    if i > 0 {
        lemma_rank_all_sortable(flags, i - 1);
    }
}

/// With nothing left out, the sorter is handed all the classes, in order.
proof fn lemma_sortable_all(classes: Seq<Seq<char>>, flags: Seq<bool>, n: int)
    requires
        0 <= n <= classes.len(),
        flags.len() == classes.len(),
        forall|j: int| 0 <= j < flags.len() ==> !#[trigger] flags[j],
    ensures
        sortable_prefix(classes, flags, n) == classes.take(n),
    decreases n,
{
    if n > 0 {
        lemma_sortable_all(classes, flags, n - 1);
        assert(classes.take(n) =~= classes.take(n - 1) + seq![classes[n - 1]]);
    } else {
        assert(classes.take(0) =~= Seq::<Seq<char>>::empty());
    }
}

/// With no class left out, the sorter is handed all the classes, and its
/// `k`-th answer goes to slot `k` while its answer lasts; the slots after
/// that keep their collected class. The list keeps its length.
pub proof fn lemma_nothing_unsorted(classes: Seq<Seq<char>>, sorted: Seq<Seq<char>>)
    ensures
        ({
            let flags = index_flags(classes.len(), Seq::<usize>::empty());
            let result = merge_sorted(classes, flags, sorted);
            &&& sortable(classes, flags) == classes
            &&& result.len() == classes.len()
            &&& forall|k: int|
                0 <= k < classes.len() ==> #[trigger] result[k] == if k < sorted.len() {
                    sorted[k]
                } else {
                    classes[k]
                }
        }),
{
    let flags = index_flags(classes.len(), Seq::<usize>::empty());
    assert forall|j: int| 0 <= j < flags.len() implies !#[trigger] flags[j] by {
        assert(!Seq::<usize>::empty().contains(j as usize));
    }
    lemma_sortable_all(classes, flags, classes.len() as int);
    assert(classes.take(classes.len() as int) =~= classes);
    assert forall|k: int| 0 <= k < classes.len() implies #[trigger] merge_sorted(classes, flags, sorted)[k]
        == if k < sorted.len() {
        sorted[k]
    } else {
        classes[k]
    } by {
        lemma_rank_all_sortable(flags, k);
    }
}

/// Sorts the collected class strings with `sorter`, except those at
/// `unsorted_indices`, which keep their content and position.
///
/// The sorter reorders classes within each string, never the vector itself,
/// so the sorted strings are put back into the slots they were taken from.
/// A sorter that breaks that contract and returns fewer strings leaves the
/// remaining slots with their collected content instead of emptying them,
/// also when no class is left out: the list keeps its length.
pub fn sort_classes<F: Fn(Vec<String>) -> Vec<String>>(
    sorter: &F,
    classes: Vec<String>,
    unsorted_indices: &[usize],
) -> (r: Vec<String>)
    requires
        forall|k: int| 0 <= k < unsorted_indices@.len() ==> #[trigger] unsorted_indices@[k] < classes@.len(),
        forall|v: Vec<String>| call_requires(*sorter, (v,)),
    ensures
        sort_outcome(*sorter, views(classes@), unsorted_indices@, views(r@)),
        r@.len() == classes@.len(),
        unsorted_indices@.len() == 0 ==> exists|input: Vec<String>, output: Vec<String>|
            views(input@) == views(classes@) && #[trigger] call_ensures(*sorter, (input,), output)
                && forall|k: int|
                0 <= k < classes@.len() ==> #[trigger] views(r@)[k] == if k < output@.len() {
                    output@[k]@
                } else {
                    classes@[k]@
                },
{
    let n = classes.len();
    let ghost cls = views(classes@);
    let ghost flags = index_flags(n as nat, unsorted_indices@);
    let mut is_unsorted: Vec<bool> = Vec::new();
    let mut i: usize = 0;
    while i < n
        invariant
            i <= n,
            is_unsorted@ == Seq::new(i as nat, |j: int| false),
        decreases n - i,
    {
        is_unsorted.push(false);
        proof {
            assert(is_unsorted@ =~= Seq::new((i + 1) as nat, |j: int| false));
        }
        i += 1;
    }
    let mut k: usize = 0;
    while k < unsorted_indices.len()
        invariant
            n == classes@.len(),
            k <= unsorted_indices@.len(),
            is_unsorted@.len() == n,
            forall|m: int| 0 <= m < unsorted_indices@.len() ==> #[trigger] unsorted_indices@[m] < n,
            forall|j: int|
                0 <= j < n ==> #[trigger] is_unsorted@[j] == unsorted_indices@.take(k as int).contains(
                    j as usize,
                ),
        decreases unsorted_indices.len() - k,
    {
        let index = unsorted_indices[k];
        let ghost before = is_unsorted@;
        is_unsorted.set(index, true);
        proof {
            let t0 = unsorted_indices@.take(k as int);
            let t1 = unsorted_indices@.take(k + 1);
            assert(t1 =~= t0.push(index));
            assert forall|j: int| 0 <= j < n implies #[trigger] is_unsorted@[j] == t1.contains(
                j as usize,
            ) by {
                if j == index as int {
                    assert(t1[k as int] == index);
                } else {
                    assert(is_unsorted@[j] == before[j]);
                    if t0.contains(j as usize) {
                        let w = choose|w: int| 0 <= w < t0.len() && #[trigger] t0[w] == j as usize;
                        assert(t1[w] == j as usize);
                    }
                    if t1.contains(j as usize) {
                        let w = choose|w: int| 0 <= w < t1.len() && #[trigger] t1[w] == j as usize;
                        assert(w != k);
                        assert(t0[w] == j as usize);
                    }
                }
            }
        }
        k += 1;
    }
    assert(unsorted_indices@.take(unsorted_indices@.len() as int) =~= unsorted_indices@);
    assert(is_unsorted@ =~= flags);
    let mut sortable_classes: Vec<String> = Vec::new();
    let mut i: usize = 0;
    while i < n
        invariant
            i <= n,
            n == classes@.len(),
            cls == views(classes@),
            is_unsorted@ == flags,
            flags.len() == n,
            views(sortable_classes@) == sortable_prefix(cls, flags, i as int),
        decreases n - i,
    {
        if !is_unsorted[i] {
            let c = classes[i].clone();
            proof {
                assert(views(sortable_classes@.push(c)) =~= views(sortable_classes@).push(c@));
                assert(seq![cls[i as int]] =~= seq![c@]);
            }
            sortable_classes.push(c);
        } else {
            assert(sortable_prefix(cls, flags, i + 1) =~= sortable_prefix(cls, flags, i as int));
        }
        i += 1;
    }
    let ghost input = sortable_classes;
    let sorted = sorter(sortable_classes);
    let ghost out = views(sorted@);
    let mut result = classes;
    let mut next: usize = 0;
    let mut i: usize = 0;
    while i < n
        invariant
            i <= n,
            n == result@.len(),
            flags.len() == n,
            is_unsorted@ == flags,
            out == views(sorted@),
            cls.len() == n,
            next == if rank(flags, i as int) < out.len() {
                rank(flags, i as int)
            } else {
                out.len()
            },
            forall|j: int| 0 <= j < i ==> #[trigger] views(result@)[j] == merge_sorted(cls, flags, out)[j],
            forall|j: int| i <= j < n ==> #[trigger] views(result@)[j] == cls[j],
        decreases n - i,
    {
        let ghost before = result@;
        if !is_unsorted[i] && next < sorted.len() {
            let c = sorted[next].clone();
            result.set(i, c);
            proof {
                assert(views(result@)[i as int] == out[next as int]);
                assert forall|j: int| 0 <= j < n && j != i implies #[trigger] views(result@)[j]
                    == views(before)[j] by {
                    assert(result@[j] == before[j]);
                }
            }
            next += 1;
        }
        proof {
            assert(merge_sorted(cls, flags, out)[i as int] == (if !flags[i as int] && rank(
                flags,
                i as int,
            ) < out.len() {
                out[rank(flags, i as int) as int]
            } else {
                cls[i as int]
            }));
            assert(rank(flags, i + 1) == rank(flags, i as int) + if !flags[i as int] {
                1nat
            } else {
                0nat
            });
            assert(views(result@)[i as int] == merge_sorted(cls, flags, out)[i as int]);
        }
        i += 1;
    }
    proof {
        assert(views(result@) =~= merge_sorted(cls, flags, out));
        assert(views(input@) == sortable(cls, flags) && call_ensures(*sorter, (input,), sorted)
            && views(result@) == merge_sorted(cls, flags, views(sorted@)));
        if unsorted_indices@.len() == 0 {
            lemma_nothing_unsorted(cls, out);
            assert(unsorted_indices@ =~= Seq::<usize>::empty());
            assert forall|k: int| 0 <= k < classes@.len() implies #[trigger] views(result@)[k] == if k
                < sorted@.len() {
                sorted@[k]@
            } else {
                classes@[k]@
            } by {
                assert(merge_sorted(cls, flags, out)[k] == if k < out.len() {
                    out[k]
                } else {
                    cls[k]
                });
            }
            assert(views(input@) == views(classes@));
        }
    }
    result
}

/// The first `n` slots hand the sorter as many classes as they rank.
proof fn lemma_sortable_prefix_len(classes: Seq<Seq<char>>, flags: Seq<bool>, n: int)
    requires
        0 <= n,
    ensures
        sortable_prefix(classes, flags, n).len() == rank(flags, n),
    decreases n,
{
    if n > 0 {
        lemma_sortable_prefix_len(classes, flags, n - 1);
    }
}

/// The rank grows with the slot.
proof fn lemma_rank_monotone(flags: Seq<bool>, m: int, n: int)
    requires
        0 <= m <= n,
    ensures
        rank(flags, m) <= rank(flags, n),
    decreases n,
{
    if m < n {
        lemma_rank_monotone(flags, m, n - 1);
    }
}

/// What the first `m` slots hand the sorter begins what the first `n` do.
proof fn lemma_sortable_prefix_take(classes: Seq<Seq<char>>, flags: Seq<bool>, m: int, n: int)
    requires
        0 <= m <= n,
    ensures
        sortable_prefix(classes, flags, n).take(rank(flags, m) as int) == sortable_prefix(classes, flags, m),
    decreases n,
{
    lemma_sortable_prefix_len(classes, flags, m);
    lemma_sortable_prefix_len(classes, flags, n);
    if m == n {
        assert(sortable_prefix(classes, flags, n).take(rank(flags, n) as int) =~= sortable_prefix(
            classes,
            flags,
            n,
        ));
    } else {
        lemma_sortable_prefix_take(classes, flags, m, n - 1);
        lemma_sortable_prefix_len(classes, flags, n - 1);
        lemma_rank_monotone(flags, m, n - 1);
        let p = sortable_prefix(classes, flags, n - 1);
        let q = sortable_prefix(classes, flags, n);
        assert(q.take(rank(flags, m) as int) =~= p.take(rank(flags, m) as int));
    }
}

/// A sortable slot `i` hands its class to the sorter at position
/// `rank(flags, i)`.
proof fn lemma_sortable_slot(classes: Seq<Seq<char>>, flags: Seq<bool>, i: int)
    requires
        0 <= i < classes.len(),
        !flags[i],
    ensures
        rank(flags, i) < sortable(classes, flags).len(),
        sortable(classes, flags)[rank(flags, i) as int] == classes[i],
{
    let n = classes.len() as int;
    lemma_sortable_prefix_take(classes, flags, i + 1, n);
    lemma_sortable_prefix_len(classes, flags, i);
    lemma_sortable_prefix_len(classes, flags, n);
    lemma_rank_monotone(flags, i + 1, n);
    let p = sortable_prefix(classes, flags, i + 1);
    assert(p == sortable_prefix(classes, flags, i) + seq![classes[i]]);
    assert(p[rank(flags, i) as int] == classes[i]);
    assert(sortable(classes, flags).take(rank(flags, i + 1) as int)[rank(flags, i) as int] == classes[i]);
}

/// The classes at the unsorted indices keep their content and their slot,
/// whatever the sorter answers; the class list keeps its length.
pub proof fn lemma_unsorted_classes_kept(
    classes: Seq<Seq<char>>,
    unsorted: Seq<usize>,
    sorted: Seq<Seq<char>>,
)
    ensures
        ({
            let result = merge_sorted(classes, index_flags(classes.len(), unsorted), sorted);
            &&& result.len() == classes.len()
            &&& forall|k: int|
                0 <= k < unsorted.len() && unsorted[k] < classes.len() ==> result[#[trigger] unsorted[k] as int]
                    == classes[unsorted[k] as int]
        }),
{
    let flags = index_flags(classes.len(), unsorted);
    assert forall|k: int| 0 <= k < unsorted.len() && unsorted[k] < classes.len() implies merge_sorted(
        classes,
        flags,
        sorted,
    )[#[trigger] unsorted[k] as int] == classes[unsorted[k] as int] by {
        assert(unsorted.contains(unsorted[k]));
        assert(flags[unsorted[k] as int]);
    }
}

/// The sorted strings go back into the slots they were taken from: a sorter
/// that hands back the strings it was given leaves every class as collected.
pub proof fn lemma_sorting_in_place_keeps_classes(classes: Seq<Seq<char>>, unsorted: Seq<usize>)
    ensures
        ({
            let flags = index_flags(classes.len(), unsorted);
            merge_sorted(classes, flags, sortable(classes, flags)) == classes
        }),
{
    let flags = index_flags(classes.len(), unsorted);
    let result = merge_sorted(classes, flags, sortable(classes, flags));
    assert forall|i: int| 0 <= i < classes.len() implies result[i] == classes[i] by {
        if !flags[i] {
            lemma_sortable_slot(classes, flags, i);
        }
    }
    assert(result =~= classes);
}

/// `wraps[i]` says whether the class string at `i` (of `n`) wraps.
pub open spec fn wrap_flags(n: nat, wrapped: Seq<usize>) -> Seq<bool> {
    index_flags(n, wrapped)
}

/// Which of the `n` class strings wrap: those at `wrapped` that are in range.
/// A sorter that returned fewer classes than it was given leaves the tail out
/// of range; the printer reports that on its own.
pub fn wrap_flags_exec(n: usize, wrapped: &[usize]) -> (r: Vec<bool>)
    ensures
        r@ == wrap_flags(n as nat, wrapped@),
{
    let mut wraps: Vec<bool> = Vec::new();
    let mut i: usize = 0;
    while i < n
        invariant
            i <= n,
            wraps@ == Seq::new(i as nat, |j: int| false),
        decreases n - i,
    {
        wraps.push(false);
        proof {
            assert(wraps@ =~= Seq::new((i + 1) as nat, |j: int| false));
        }
        i += 1;
    }
    let mut k: usize = 0;
    while k < wrapped.len()
        invariant
            k <= wrapped@.len(),
            wraps@.len() == n,
            forall|j: int|
                0 <= j < n ==> #[trigger] wraps@[j] == wrapped@.take(k as int).contains(j as usize),
        decreases wrapped.len() - k,
    {
        let index = wrapped[k];
        let ghost before = wraps@;
        if index < wraps.len() {
            wraps.set(index, true);
        }
        proof {
            let t0 = wrapped@.take(k as int);
            let t1 = wrapped@.take(k + 1);
            assert(t1 =~= t0.push(index));
            assert forall|j: int| 0 <= j < n implies #[trigger] wraps@[j] == t1.contains(j as usize) by {
                if j == index as int {
                    assert(t1[k as int] == index);
                } else {
                    assert(wraps@[j] == before[j]);
                    if t0.contains(j as usize) {
                        let w = choose|w: int| 0 <= w < t0.len() && #[trigger] t0[w] == j as usize;
                        assert(t1[w] == j as usize);
                    }
                    if t1.contains(j as usize) {
                        let w = choose|w: int| 0 <= w < t1.len() && #[trigger] t1[w] == j as usize;
                        assert(w != k);
                        assert(t0[w] == j as usize);
                    }
                }
            }
        }
        k += 1;
    }
    assert(wrapped@.take(wrapped@.len() as int) =~= wrapped@);
    assert(wraps@ =~= wrap_flags(n as nat, wrapped@));
    wraps
}

/// The formatting IR of a program: its elements, and the sorted class
/// strings that its class markers refer to.
pub struct Document {
    pub elements: Vec<FormatElement>,
    pub sorted_tailwind_classes: Vec<String>,
}

/// The result of formatting: the document and the context it was built in.
pub struct Formatted<'ast, L> {
    pub document: Document,
    pub context: JsFormatContext<'ast, L>,
}

/// Finishes a formatting run whose IR is `elements` (nested content in
/// `arena`): sorts the collected class strings with `sorter` (except the
/// unsorted ones), then expands the wrapping class markers into fills now
/// that the sorted content is known.
pub fn format<'ast, L: Copy, F: Fn(Vec<String>) -> Vec<String>>(
    context: JsFormatContext<'ast, L>,
    sorter: &F,
    elements: Vec<FormatElement>,
    arena: &mut ElementArena<FormatElement>,
) -> (r: Formatted<'ast, L>)
    requires
        forall|k: int|
            0 <= k < context@.unsorted_class_indices.len() ==> #[trigger] context@.unsorted_class_indices[k]
                < context@.tailwind_classes.len(),
        forall|v: Vec<String>| call_requires(*sorter, (v,)),
        arena_wf(old(arena)@),
        seq_refs_below(elems(elements@), old(arena)@.len() as int),
    ensures
        r.context@ == (ContextView {
            tailwind_classes: seq![],
            unsorted_class_indices: seq![],
            wrapped_class_indices: seq![],
            ..context@
        }),
        sort_outcome(
            *sorter,
            context@.tailwind_classes,
            context@.unsorted_class_indices,
            views(r.document.sorted_tailwind_classes@),
        ),
        arena_wf(final(arena)@),
        extends(final(arena)@, old(arena)@),
        seq_refs_below(elems(r.document.elements@), final(arena)@.len() as int),
        context@.wrapped_class_indices.len() == 0 ==> elems(r.document.elements@) == elems(
            elements@,
        ) && final(arena)@ == old(arena)@,
        context@.wrapped_class_indices.len() > 0 ==> !nodes_contain(
            wrap_flags(r.document.sorted_tailwind_classes@.len(), context@.wrapped_class_indices),
            resolve_seq(final(arena)@, elems(r.document.elements@), final(arena)@.len() as int),
        ),
        context@.wrapped_class_indices.len() > 0 ==> resolve_seq(
            final(arena)@,
            elems(r.document.elements@),
            final(arena)@.len() as int,
        ) == expand_nodes(
            views(r.document.sorted_tailwind_classes@),
            wrap_flags(r.document.sorted_tailwind_classes@.len(), context@.wrapped_class_indices),
            resolve_seq(old(arena)@, elems(elements@), old(arena)@.len() as int),
        ),
{
    let mut context = context;
    let tailwind_classes = context.take_tailwind_classes();
    let unsorted_indices = context.take_unsorted_class_indices();
    let sorted_tailwind_classes = sort_classes(sorter, tailwind_classes, unsorted_indices.as_slice());

    // Expand the wrapping class markers into fills now that the sorted content is known.
    let wrapped_indices = context.take_wrapped_class_indices();
    let elements = if wrapped_indices.len() == 0 {
        proof {
            assert(old(arena)@.take(old(arena)@.len() as int) =~= old(arena)@);
        }
        elements
    } else {
        let wraps = wrap_flags_exec(sorted_tailwind_classes.len(), wrapped_indices.as_slice());
        let ghost input = resolve_seq(old(arena)@, elems(elements@), old(arena)@.len() as int);
        let expanded = expand_wrap_markers(elements, sorted_tailwind_classes.as_slice(), wraps.as_slice(), arena);
        proof {
            crate::wrap_class_names::lemma_no_marker_remains(
                views(sorted_tailwind_classes@),
                wraps@,
                input,
            );
        }
        expanded
    };
    let document = Document { elements, sorted_tailwind_classes };
    Formatted { document, context }
}

} // verus!
