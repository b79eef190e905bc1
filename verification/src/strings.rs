//! Character-level helpers on class strings: ASCII and Unicode whitespace,
//! trimming, and splitting on ASCII whitespace, each with the mathematical
//! definition its implementation is proved against.

use vstd::prelude::*;

verus! {

/// `char::is_ascii_whitespace`: space, tab, line feed, form feed, carriage return.
pub open spec fn is_ascii_ws(c: char) -> bool {
    c == ' ' || c == '\t' || c == '\n' || c == '\x0C' || c == '\r'
}

/// `char::is_whitespace`: the Unicode `White_Space` property.
pub open spec fn is_unicode_ws(c: char) -> bool {
    ||| ('\t' <= c && c <= '\r')
    ||| c == ' '
    ||| c == '\u{85}'
    ||| c == '\u{A0}'
    ||| c == '\u{1680}'
    ||| ('\u{2000}' <= c && c <= '\u{200A}')
    ||| c == '\u{2028}'
    ||| c == '\u{2029}'
    ||| c == '\u{202F}'
    ||| c == '\u{205F}'
    ||| c == '\u{3000}'
}

/// Whether some character of `s` is ASCII whitespace.
pub open spec fn has_ascii_ws(s: Seq<char>) -> bool {
    exists|i: int| 0 <= i < s.len() && is_ascii_ws(#[trigger] s[i])
}

/// Whether `s` starts with ASCII whitespace.
pub open spec fn starts_with_ascii_ws(s: Seq<char>) -> bool {
    s.len() > 0 && is_ascii_ws(s[0])
}

/// Whether `s` ends with ASCII whitespace.
pub open spec fn ends_with_ascii_ws(s: Seq<char>) -> bool {
    s.len() > 0 && is_ascii_ws(s.last())
}

/// `str::trim_start`: `s` without its leading (Unicode) whitespace.
pub open spec fn trim_start(s: Seq<char>) -> Seq<char>
    decreases s.len(),
{
    if s.len() > 0 && is_unicode_ws(s[0]) {
        trim_start(s.drop_first())
    } else {
        s
    }
}

/// `str::trim_end`: `s` without its trailing (Unicode) whitespace.
pub open spec fn trim_end(s: Seq<char>) -> Seq<char>
    decreases s.len(),
{
    if s.len() > 0 && is_unicode_ws(s.last()) {
        trim_end(s.drop_last())
    } else {
        s
    }
}

/// `str::trim`.
pub open spec fn trim(s: Seq<char>) -> Seq<char> {
    trim_end(trim_start(s))
}

/// Reading `s` from the left: the words completed so far and the word being read.
pub open spec fn split_state(s: Seq<char>) -> (Seq<Seq<char>>, Seq<char>)
    decreases s.len(),
{
    if s.len() == 0 {
        (seq![], seq![])
    } else {
        let (words, cur) = split_state(s.drop_last());
        let c = s.last();
        if is_ascii_ws(c) {
            if cur.len() > 0 {
                (words.push(cur), seq![])
            } else {
                (words, cur)
            }
        } else {
            (words, cur.push(c))
        }
    }
}

/// `str::split_ascii_whitespace`: the maximal runs of characters that are not
/// ASCII whitespace, from left to right.
pub open spec fn split_ascii_whitespace(s: Seq<char>) -> Seq<Seq<char>> {
    let (words, cur) = split_state(s);
    if cur.len() > 0 {
        words.push(cur)
    } else {
        words
    }
}

/// The words joined by single spaces.
pub open spec fn join_with_space(words: Seq<Seq<char>>) -> Seq<char>
    decreases words.len(),
{
    if words.len() == 0 {
        seq![]
    } else if words.len() == 1 {
        words[0]
    } else {
        join_with_space(words.drop_last()) + seq![' '] + words.last()
    }
}

/// The views of a vector of strings.
pub open spec fn views(v: Seq<String>) -> Seq<Seq<char>> {
    v.map_values(|s: String| s@)
}

/// A word as `split_ascii_whitespace` yields it: not empty, no ASCII whitespace.
pub open spec fn is_word(w: Seq<char>) -> bool {
    w.len() > 0 && !has_ascii_ws(w)
}

/// `char::is_ascii_whitespace`.
pub fn is_ascii_whitespace(c: char) -> (r: bool)
    ensures
        r == is_ascii_ws(c),
{
    c == ' ' || c == '\t' || c == '\n' || c == '\x0C' || c == '\r'
}

/// `char::is_whitespace`.
pub fn is_whitespace(c: char) -> (r: bool)
    ensures
        r == is_unicode_ws(c),
{
    ('\t' <= c && c <= '\r') || c == ' ' || c == '\u{85}' || c == '\u{A0}' || c == '\u{1680}'
        || ('\u{2000}' <= c && c <= '\u{200A}') || c == '\u{2028}' || c == '\u{2029}' || c
        == '\u{202F}' || c == '\u{205F}' || c == '\u{3000}'
}

/// The characters of `s`.
pub fn chars_of(s: &str) -> (r: Vec<char>)
    ensures
        r@ == s@,
{
    let mut v: Vec<char> = Vec::new();
    for c in it: s.chars()
        invariant
            v@ == it.seq().take(it.index() as int),
            it.seq() == s@,
    {
        v.push(c);
    }
    v
}

/// The string made of the characters `chars` (`String: FromIterator<char>`).
#[verifier::external_body]
pub(crate) fn string_from_chars(chars: &[char]) -> (r: String)
    ensures
        r@ == chars@,
{
    chars.iter().collect()
}

/// Whether some character of `s` is ASCII whitespace.
pub fn contains_ascii_whitespace(s: &[char]) -> (r: bool)
    ensures
        r == has_ascii_ws(s@),
{
    let mut i: usize = 0;
    while i < s.len()
        invariant
            i <= s.len(),
            forall|j: int| 0 <= j < i ==> !is_ascii_ws(#[trigger] s@[j]),
        decreases s.len() - i,
    {
        if is_ascii_whitespace(s[i]) {
            return true;
        }
        i += 1;
    }
    false
}

/// Whether `s` starts with ASCII whitespace.
pub fn starts_with_ascii_whitespace(s: &[char]) -> (r: bool)
    ensures
        r == starts_with_ascii_ws(s@),
{
    s.len() > 0 && is_ascii_whitespace(s[0])
}

/// Whether `s` ends with ASCII whitespace.
pub fn ends_with_ascii_whitespace(s: &[char]) -> (r: bool)
    ensures
        r == ends_with_ascii_ws(s@),
{
    s.len() > 0 && is_ascii_whitespace(s[s.len() - 1])
}

proof fn lemma_trim_start_skip(s: Seq<char>, i: int)
    requires
        0 <= i < s.len(),
        is_unicode_ws(s[i]),
    ensures
        trim_start(s.skip(i)) == trim_start(s.skip(i + 1)),
{
    assert(s.skip(i).drop_first() =~= s.skip(i + 1));
}

proof fn lemma_trim_end_take(s: Seq<char>, j: int)
    requires
        0 < j <= s.len(),
        is_unicode_ws(s[j - 1]),
    ensures
        trim_end(s.take(j)) == trim_end(s.take(j - 1)),
{
    assert(s.take(j).drop_last() =~= s.take(j - 1));
}

/// The bounds of `str::trim`: `trim(s) == s[start..end]`.
pub fn trim_bounds(s: &[char]) -> (r: (usize, usize))
    ensures
        r.0 <= r.1 <= s.len(),
        s@.subrange(r.0 as int, r.1 as int) == trim(s@),
{
    let mut i: usize = 0;
    assert(s@.skip(0) =~= s@);
    while i < s.len() && is_whitespace(s[i])
        invariant
            i <= s.len(),
            trim_start(s@) == trim_start(s@.skip(i as int)),
        decreases s.len() - i,
    {
        proof {
            lemma_trim_start_skip(s@, i as int);
        }
        i += 1;
    }
    let ghost t = s@.skip(i as int);
    assert(trim_start(s@) == t);
    let mut j: usize = s.len();
    assert(t.take(t.len() as int) =~= t);
    while j > i && is_whitespace(s[j - 1])
        invariant
            i <= j <= s.len(),
            t == s@.skip(i as int),
            trim_end(t) == trim_end(t.take(j - i)),
        decreases j,
    {
        proof {
            lemma_trim_end_take(t, (j - i) as int);
        }
        j -= 1;
    }
    assert(t.take(j - i) =~= s@.subrange(i as int, j as int));
    (i, j)
}

/// `split_state` of `s` followed by one character.
proof fn lemma_split_state_push(s: Seq<char>, c: char)
    ensures
        split_state(s.push(c)) == ({
            let (words, cur) = split_state(s);
            if is_ascii_ws(c) {
                if cur.len() > 0 {
                    (words.push(cur), Seq::<char>::empty())
                } else {
                    (words, cur)
                }
            } else {
                (words, cur.push(c))
            }
        }),
{
    assert(s.push(c).drop_last() =~= s);
}

/// Reading a run of characters that are not ASCII whitespace extends the
/// word being read.
proof fn lemma_split_state_append_word(s: Seq<char>, w: Seq<char>)
    requires
        !has_ascii_ws(w),
    ensures
        split_state(s + w) == (split_state(s).0, split_state(s).1 + w),
    decreases w.len(),
{
    if w.len() == 0 {
        assert(s + w =~= s);
        assert(split_state(s).1 + w =~= split_state(s).1);
    } else {
        let w0 = w.drop_last();
        let c = w.last();
        assert(!has_ascii_ws(w0)) by {
            if has_ascii_ws(w0) {
                let i = choose|i: int| 0 <= i < w0.len() && is_ascii_ws(#[trigger] w0[i]);
                assert(w[i] == w0[i]);
            }
        }
        assert(!is_ascii_ws(w[w.len() - 1]));
        lemma_split_state_append_word(s, w0);
        assert(s + w =~= (s + w0).push(c));
        lemma_split_state_push(s + w0, c);
        assert((split_state(s).1 + w0).push(c) =~= split_state(s).1 + w);
    }
}

/// Reading words joined by spaces: all but the last word are complete, and
/// the last one is being read.
proof fn lemma_split_state_join(words: Seq<Seq<char>>)
    requires
        words.len() > 0,
        forall|i: int| 0 <= i < words.len() ==> is_word(#[trigger] words[i]),
    ensures
        split_state(join_with_space(words)) == (words.drop_last(), words.last()),
    decreases words.len(),
{
    if words.len() == 1 {
        assert(is_word(words[0]));
        lemma_split_state_append_word(Seq::<char>::empty(), words[0]);
        assert(Seq::<char>::empty() + words[0] =~= words[0]);
        assert(split_state(Seq::<char>::empty()) == (Seq::<Seq<char>>::empty(), Seq::<char>::empty()));
        assert(words.drop_last() =~= Seq::<Seq<char>>::empty());
    } else {
        let ws = words.drop_last();
        let last = words.last();
        assert forall|i: int| 0 <= i < ws.len() implies is_word(#[trigger] ws[i]) by {
            assert(ws[i] == words[i]);
        }
        assert(is_word(words[words.len() - 1]));
        lemma_split_state_join(ws);
        let j = join_with_space(ws);
        lemma_split_state_push(j, ' ');
        assert(ws.drop_last().push(ws.last()) =~= ws);
        lemma_split_state_append_word(j.push(' '), last);
        assert(Seq::<char>::empty() + last =~= last);
        assert(j + seq![' '] + last =~= j.push(' ') + last);
    }
}

/// Splitting words joined by single spaces gives the words back.
pub proof fn lemma_split_join(words: Seq<Seq<char>>)
    requires
        forall|i: int| 0 <= i < words.len() ==> is_word(#[trigger] words[i]),
    ensures
        split_ascii_whitespace(join_with_space(words)) == words,
{
    if words.len() == 0 {
        assert(split_state(Seq::<char>::empty()) == (Seq::<Seq<char>>::empty(), Seq::<char>::empty()));
    } else {
        lemma_split_state_join(words);
        assert(is_word(words[words.len() - 1]));
        assert(words.drop_last().push(words.last()) =~= words);
    }
}

/// While reading `s`, the completed words are words and the word being read
/// holds no ASCII whitespace.
proof fn lemma_split_state_words(s: Seq<char>)
    ensures
        forall|i: int| 0 <= i < split_state(s).0.len() ==> is_word(#[trigger] split_state(s).0[i]),
        !has_ascii_ws(split_state(s).1),
    decreases s.len(),
{
    if s.len() > 0 {
        let s0 = s.drop_last();
        let c = s.last();
        lemma_split_state_words(s0);
        assert(s0.push(c) =~= s);
        lemma_split_state_push(s0, c);
        let (words, cur) = split_state(s0);
        if !is_ascii_ws(c) {
            assert(!has_ascii_ws(cur.push(c))) by {
                if has_ascii_ws(cur.push(c)) {
                    let i = choose|i: int| 0 <= i < cur.push(c).len() && is_ascii_ws(#[trigger] cur.push(c)[i]);
                    if i < cur.len() {
                        assert(cur.push(c)[i] == cur[i]);
                    }
                }
            }
        } else if cur.len() > 0 {
            assert forall|i: int| 0 <= i < words.push(cur).len() implies is_word(#[trigger] words.push(cur)[i]) by {
                if i < words.len() {
                    assert(words.push(cur)[i] == words[i]);
                }
            }
        }
    }
}

/// Every piece that splitting on ASCII whitespace yields is a word.
pub proof fn lemma_split_words(s: Seq<char>)
    ensures
        forall|i: int| 0 <= i < split_ascii_whitespace(s).len() ==> is_word(#[trigger] split_ascii_whitespace(s)[i]),
{
    lemma_split_state_words(s);
    let (words, cur) = split_state(s);
    if cur.len() > 0 {
        assert forall|i: int| 0 <= i < words.push(cur).len() implies is_word(#[trigger] words.push(cur)[i]) by {
            if i < words.len() {
                assert(words.push(cur)[i] == words[i]);
            }
        }
    }
}

/// Joining words by single spaces adds no whitespace but plain spaces.
pub proof fn lemma_join_only_spaces(words: Seq<Seq<char>>)
    requires
        forall|i: int| 0 <= i < words.len() ==> !has_ascii_ws(#[trigger] words[i]),
    ensures
        forall|k: int|
            0 <= k < join_with_space(words).len() && is_ascii_ws(#[trigger] join_with_space(words)[k])
                ==> join_with_space(words)[k] == ' ',
    decreases words.len(),
{
    if words.len() == 1 {
        assert(!has_ascii_ws(words[0]));
    } else if words.len() > 1 {
        let ws = words.drop_last();
        let last = words.last();
        assert forall|i: int| 0 <= i < ws.len() implies !has_ascii_ws(#[trigger] ws[i]) by {
            assert(ws[i] == words[i]);
        }
        assert(!has_ascii_ws(words[words.len() - 1]));
        lemma_join_only_spaces(ws);
        let j = join_with_space(ws);
        let all = join_with_space(words);
        assert(all == j + seq![' '] + last);
        assert forall|k: int| 0 <= k < all.len() && is_ascii_ws(#[trigger] all[k]) implies all[k] == ' ' by {
            if k < j.len() {
                assert(all[k] == j[k]);
            } else if k > j.len() {
                assert(all[k] == last[k - j.len() - 1]);
            }
        }
    }
}

/// The words of `s`, each as a string.
pub fn split_ascii_whitespace_exec(s: &[char]) -> (r: Vec<String>)
    ensures
        views(r@) == split_ascii_whitespace(s@),
{
    let mut words: Vec<String> = Vec::new();
    let mut cur: Vec<char> = Vec::new();
    let mut i: usize = 0;
    assert(s@.take(0) =~= Seq::<char>::empty());
    while i < s.len()
        invariant
            i <= s.len(),
            split_state(s@.take(i as int)) == (views(words@), cur@),
        decreases s.len() - i,
    {
        let c = s[i];
        proof {
            assert(s@.take(i as int).push(c) =~= s@.take(i + 1));
            lemma_split_state_push(s@.take(i as int), c);
        }
        if is_ascii_whitespace(c) {
            if cur.len() > 0 {
                let w = string_from_chars(cur.as_slice());
                proof {
                    assert(views(words@.push(w)) =~= views(words@).push(cur@));
                }
                words.push(w);
                cur = Vec::new();
            }
        } else {
            cur.push(c);
        }
        i += 1;
    }
    assert(s@.take(i as int) =~= s@);
    if cur.len() > 0 {
        let w = string_from_chars(cur.as_slice());
        proof {
            assert(views(words@.push(w)) =~= views(words@).push(cur@));
        }
        words.push(w);
    }
    words
}

/// The words joined by single spaces.
pub fn join_with_single_spaces(words: &Vec<String>) -> (r: Vec<char>)
    ensures
        r@ == join_with_space(views(words@)),
{
    let mut out: Vec<char> = Vec::new();
    let mut k: usize = 0;
    while k < words.len()
        invariant
            k <= words.len(),
            out@ == join_with_space(views(words@).take(k as int)),
        decreases words.len() - k,
    {
        let w = chars_of(words[k].as_str());
        proof {
            let vs = views(words@);
            assert(vs.take(k + 1).drop_last() =~= vs.take(k as int));
            assert(vs.take(k + 1).last() == w@);
            if k == 0 {
                assert(vs.take(1) =~= seq![w@]);
            }
        }
        if k > 0 {
            out.push(' ');
        }
        let mut j: usize = 0;
        let ghost before = out@;
        while j < w.len()
            invariant
                j <= w.len(),
                out@ == before + w@.take(j as int),
            decreases w.len() - j,
        {
            out.push(w[j]);
            proof {
                assert(w@.take(j + 1) =~= w@.take(j as int).push(w[j as int]));
            }
            j += 1;
        }
        assert(w@.take(w.len() as int) =~= w@);
        k += 1;
    }
    assert(views(words@).take(words.len() as int) =~= views(words@));
    out
}

} // verus!
