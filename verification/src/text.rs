//! Text primitives shared by the parser and the help renderers.
//!
//! All reasoning about text is done over `Seq<char>`, the view of `str` and
//! `String`. The executable helpers here move between strings and `Vec<char>`
//! and implement trimming and word splitting against spec functions.

use vstd::prelude::*;

verus! {

/// `String::push` appends the given character to the end of the string.
pub assume_specification[ String::push ](s: &mut String, c: char)
    ensures
        final(s)@ == old(s)@.push(c),
;

/// Whether `c` has the Unicode `White_Space` property: the controls
/// U+0009 to U+000D and U+0085, the space, the no-break spaces U+00A0 and
/// U+202F, the Ogham space mark, the spaces U+2000 to U+200A, the line and
/// paragraph separators, the medium mathematical space and the ideographic
/// space.
pub open spec fn is_whitespace(c: char) -> bool {
    ||| '\u{9}' <= c <= '\u{D}'
    ||| c == ' '
    ||| c == '\u{85}'
    ||| c == '\u{A0}'
    ||| c == '\u{1680}'
    ||| '\u{2000}' <= c <= '\u{200A}'
    ||| c == '\u{2028}'
    ||| c == '\u{2029}'
    ||| c == '\u{202F}'
    ||| c == '\u{205F}'
    ||| c == '\u{3000}'
}

/// Calls `char::is_whitespace`, which std documents to tell whether a
/// character has the `White_Space` property: the result is
/// [`is_whitespace`] of the character.
#[verifier::external_body]
fn char_is_whitespace(c: char) -> (b: bool)
    ensures
        b == is_whitespace(c),
{
    c.is_whitespace()
}

/// The five ASCII whitespace characters: space, tab, line feed, form feed
/// and carriage return.
pub open spec fn is_ascii_space(c: char) -> bool {
    c == ' ' || c == '\t' || c == '\n' || c == '\x0C' || c == '\r'
}

/// The views of a list of string slices.
pub open spec fn texts<'a>(items: Seq<&'a str>) -> Seq<Seq<char>> {
    Seq::new(items.len(), |i: int| items[i]@)
}

/// `n` space characters.
pub open spec fn spaces(n: nat) -> Seq<char> {
    Seq::new(n, |i: int| ' ')
}

/// The items in order, each between `before` and `after`.
pub open spec fn surround(items: Seq<Seq<char>>, before: Seq<char>, after: Seq<char>) -> Seq<char>
    decreases items.len(),
{
    if items.len() == 0 {
        Seq::empty()
    } else {
        surround(items.drop_last(), before, after) + before + items.last() + after
    }
}

/// Surrounding the first `k + 1` items is surrounding the first `k` and
/// then the item at `k`.
pub proof fn lemma_surround_step(items: Seq<Seq<char>>, before: Seq<char>, after: Seq<char>, k: int)
    requires
        0 <= k < items.len(),
    ensures
        surround(items.take(k + 1), before, after) == surround(items.take(k), before, after)
            + before + items[k] + after,
{
    assert(items.take(k + 1).drop_last() =~= items.take(k));
}

/// Each item of `items`, trimmed.
pub open spec fn trimmed_all(items: Seq<Seq<char>>) -> Seq<Seq<char>> {
    Seq::new(items.len(), |i: int| trimmed(items[i]))
}

/// `s` without its leading whitespace.
pub open spec fn skip_leading_space(s: Seq<char>) -> Seq<char>
    decreases s.len(),
{
    if s.len() > 0 && is_whitespace(s[0]) {
        skip_leading_space(s.drop_first())
    } else {
        s
    }
}

/// `s` without its trailing whitespace.
pub open spec fn drop_trailing_space(s: Seq<char>) -> Seq<char>
    decreases s.len(),
{
    if s.len() > 0 && is_whitespace(s.last()) {
        drop_trailing_space(s.drop_last())
    } else {
        s
    }
}

/// `s` with leading and trailing whitespace removed.
pub open spec fn trimmed(s: Seq<char>) -> Seq<char> {
    drop_trailing_space(skip_leading_space(s))
}

/// Length of the run of non-ASCII-whitespace characters at the start of `s`.
pub open spec fn word_len(s: Seq<char>) -> nat
    decreases s.len(),
{
    if s.len() == 0 || is_ascii_space(s[0]) {
        0
    } else {
        1 + word_len(s.drop_first())
    }
}

/// The maximal runs of non-ASCII-whitespace characters of `s`, in order.
pub open spec fn words(s: Seq<char>) -> Seq<Seq<char>>
    decreases s.len(),
{
    if s.len() == 0 {
        Seq::empty()
    } else if is_ascii_space(s[0]) {
        words(s.drop_first())
    } else {
        let n = word_len(s) as int;
        if 0 < n <= s.len() {
            seq![s.take(n)] + words(s.skip(n))
        } else {
            Seq::empty()
        }
    }
}

/// Whether `c` is one of the five ASCII whitespace characters.
pub fn ascii_space(c: char) -> (b: bool)
    ensures
        b == is_ascii_space(c),
{
    c == ' ' || c == '\t' || c == '\n' || c == '\x0C' || c == '\r'
}

/// The texts `v[a..b]` for each pair `(a, b)` of `spans`.
pub open spec fn span_texts(v: Seq<char>, spans: Seq<(usize, usize)>) -> Seq<Seq<char>> {
    Seq::new(spans.len(), |k: int| v.subrange(spans[k].0 as int, spans[k].1 as int))
}

/// Whether every pair of `spans` is a range inside a text of length `len`.
pub open spec fn spans_within(spans: Seq<(usize, usize)>, len: nat) -> bool {
    forall|k: int| 0 <= k < spans.len() ==> (#[trigger] spans[k]).0 <= spans[k].1 <= len
}

/// Finds the part of `v` that is left after trimming: `v[a..b]` for the
/// returned pair `(a, b)`.
pub fn trim_bounds(v: &[char]) -> (r: (usize, usize))
    ensures
        r.0 <= r.1 <= v@.len(),
        v@.subrange(r.0 as int, r.1 as int) == trimmed(v@),
{
    let n: usize = v.len();
    let mut a: usize = 0;
    assert(v@.subrange(0, n as int) =~= v@);
    while a < n && char_is_whitespace(v[a])
        invariant
            a <= n == v@.len(),
            skip_leading_space(v@) == skip_leading_space(v@.subrange(a as int, n as int)),
        decreases n - a,
    {
        assert(v@.subrange(a as int, n as int).drop_first() =~= v@.subrange(a + 1, n as int));
        a += 1;
    }
    assert(skip_leading_space(v@) == v@.subrange(a as int, n as int));
    let mut b: usize = n;
    while b > a && char_is_whitespace(v[b - 1])
        invariant
            a <= b <= n == v@.len(),
            trimmed(v@) == drop_trailing_space(v@.subrange(a as int, b as int)),
        decreases b - a,
    {
        assert(v@.subrange(a as int, b as int).drop_last() =~= v@.subrange(a as int, b - 1));
        b -= 1;
    }
    (a, b)
}

/// Splits `v[from..to]` into its words, returned as ranges of `v`.
pub fn split_words(v: &[char], from: usize, to: usize) -> (spans: Vec<(usize, usize)>)
    requires
        from <= to <= v@.len(),
    ensures
        spans_within(spans@, v@.len()),
        span_texts(v@, spans@) == words(v@.subrange(from as int, to as int)),
{
    let mut spans: Vec<(usize, usize)> = Vec::new();
    let mut i: usize = from;
    assert(span_texts(v@, spans@) =~= Seq::<Seq<char>>::empty());
    while i < to
        invariant
            from <= i <= to <= v@.len(),
            spans_within(spans@, v@.len()),
            words(v@.subrange(from as int, to as int)) == span_texts(v@, spans@) + words(
                v@.subrange(i as int, to as int),
            ),
        decreases to - i,
    {
        let ghost tail = v@.subrange(i as int, to as int);
        if ascii_space(v[i]) {
            assert(tail.drop_first() =~= v@.subrange(i + 1, to as int));
            i += 1;
        } else {
            let mut j: usize = i + 1;
            assert(tail.drop_first() =~= v@.subrange(j as int, to as int));
            while j < to && !ascii_space(v[j])
                invariant
                    i < j <= to <= v@.len(),
                    tail == v@.subrange(i as int, to as int),
                    word_len(tail) == (j - i) + word_len(v@.subrange(j as int, to as int)),
                decreases to - j,
            {
                assert(v@.subrange(j as int, to as int).drop_first() =~= v@.subrange(
                    j + 1,
                    to as int,
                ));
                j += 1;
            }
            assert(word_len(tail) == j - i);
            assert(tail.take(j - i) =~= v@.subrange(i as int, j as int));
            assert(tail.skip(j - i) =~= v@.subrange(j as int, to as int));
            let ghost before = span_texts(v@, spans@);
            spans.push((i, j));
            assert(span_texts(v@, spans@) =~= before + seq![v@.subrange(i as int, j as int)]);
            assert(words(tail) == seq![v@.subrange(i as int, j as int)] + words(
                v@.subrange(j as int, to as int),
            ));
            assert(before + words(tail) =~= span_texts(v@, spans@) + words(
                v@.subrange(j as int, to as int),
            ));
            i = j;
        }
    }
    assert(words(v@.subrange(i as int, to as int)) =~= Seq::<Seq<char>>::empty());
    assert(span_texts(v@, spans@) + Seq::<Seq<char>>::empty() =~= span_texts(v@, spans@));
    spans
}

/// The characters of `s`.
pub fn chars_of(s: &str) -> (v: Vec<char>)
    ensures
        v@ == s@,
{
    let mut v: Vec<char> = Vec::new();
    for c in it: s.chars()
        invariant
            it.seq() == s@,
            v@ == s@.take(it.index()),
    {
        v.push(c);
    }
    assert(s@.take(s@.len() as int) == s@);
    v
}

/// Appends the characters `v[from..to]` to `buf`.
pub fn push_chars(buf: &mut String, v: &[char], from: usize, to: usize)
    requires
        from <= to <= v@.len(),
    ensures
        final(buf)@ == old(buf)@ + v@.subrange(from as int, to as int),
{
    let mut i: usize = from;
    while i < to
        invariant
            from <= i <= to <= v@.len(),
            buf@ == old(buf)@ + v@.subrange(from as int, i as int),
        decreases to - i,
    {
        buf.push(v[i]);
        i += 1;
        assert(buf@ == old(buf)@ + v@.subrange(from as int, i as int));
    }
}

/// The string made of the characters `v[from..to]`.
pub fn string_of(v: &[char], from: usize, to: usize) -> (s: String)
    requires
        from <= to <= v@.len(),
    ensures
        s@ == v@.subrange(from as int, to as int),
{
    let mut s = String::new();
    push_chars(&mut s, v, from, to);
    assert(s@ == v@.subrange(from as int, to as int));
    s
}

/// Appends the text of `s` to `buf`.
pub fn push_text(buf: &mut String, s: &str)
    ensures
        final(buf)@ == old(buf)@ + s@,
{
    for c in it: s.chars()
        invariant
            it.seq() == s@,
            buf@ == old(buf)@ + s@.take(it.index()),
    {
        buf.push(c);
        assert(buf@ == old(buf)@ + s@.take(it.index() + 1));
    }
    assert(s@.take(s@.len() as int) == s@);
}

/// Appends every item of `items` to `buf`, each between `before` and
/// `after`.
pub fn push_each(buf: &mut String, items: &[&str], before: &str, after: &str)
    ensures
        final(buf)@ == old(buf)@ + surround(texts(items@), before@, after@),
{
    let ghost all = texts(items@);
    let mut i: usize = 0;
    assert(buf@ =~= old(buf)@ + surround(all.take(0), before@, after@));
    while i < items.len()
        invariant
            i <= items@.len(),
            all == texts(items@),
            buf@ == old(buf)@ + surround(all.take(i as int), before@, after@),
        decreases items@.len() - i,
    {
        proof {
            lemma_surround_step(all, before@, after@, i as int);
        }
        push_text(buf, before);
        push_text(buf, items[i]);
        push_text(buf, after);
        i += 1;
        assert(buf@ =~= old(buf)@ + surround(all.take(i as int), before@, after@));
    }
    assert(all.take(i as int) =~= all);
}

/// Appends `n` spaces to `buf`.
pub fn push_spaces(buf: &mut String, n: usize)
    ensures
        final(buf)@ == old(buf)@ + spaces(n as nat),
{
    let mut i: usize = 0;
    while i < n
        invariant
            i <= n,
            buf@ == old(buf)@ + spaces(i as nat),
        decreases n - i,
    {
        buf.push(' ');
        i += 1;
        assert(buf@ == old(buf)@ + spaces(i as nat));
    }
}

/// Whether `s` and `v` hold the same characters.
pub fn same_text(s: &str, v: &[char]) -> (b: bool)
    ensures
        b == (s@ == v@),
{
    let mut same: bool = true;
    let mut i: usize = 0;
    for c in it: s.chars()
        invariant
            it.seq() == s@,
            same ==> i == it.index() && i <= v@.len(),
            same == (it.index() <= v@.len() && s@.take(it.index()) =~= v@.take(it.index())),
    {
        let ghost n = it.index();
        if same && i < v.len() && c == v[i] {
            assert(s@.take(n + 1) =~= s@.take(n).push(c));
            assert(v@.take(n + 1) =~= v@.take(n).push(c));
            i += 1;
        } else {
            assert(!(n + 1 <= v@.len() && s@.take(n + 1) =~= v@.take(n + 1))) by {
                if n + 1 <= v@.len() && s@.take(n + 1) =~= v@.take(n + 1) {
                    assert(s@.take(n + 1)[n] == v@.take(n + 1)[n]);
                    assert(s@.take(n) =~= s@.take(n + 1).take(n));
                    assert(v@.take(n) =~= v@.take(n + 1).take(n));
                }
            }
            same = false;
        }
    }
    assert(s@.take(s@.len() as int) =~= s@);
    if same && i == v.len() {
        assert(v@.take(v@.len() as int) =~= v@);
        true
    } else {
        false
    }
}

} // verus!
