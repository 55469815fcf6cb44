//! Help text with word wrapping.
//!
//! Doc lines are trimmed, split into words and laid out again: words follow
//! each other on a line, separated by one space, while the line stays short
//! of [`LINE_WIDTH`] columns; a word that no longer fits starts a new,
//! indented line. An empty doc line is a paragraph break. Columns are
//! counted in characters.

use vstd::prelude::*;
use crate::docs::{Flag, FlagText, flag_texts};
use crate::text::{
    chars_of, lemma_surround_step, push_chars, push_each, push_spaces, span_texts, spaces,
    split_words, surround, texts, trim_bounds, trimmed, trimmed_all, words,
};

verus! {

/// The number of columns that a line of several words stays under.
pub const LINE_WIDTH: usize = 80;

/// The indent of wrapped doc lines below a flag's heading.
pub const DOC_INDENT: usize = 4;

/// Text laid out so far, and the number of columns used on its last line:
/// zero when the next word starts a line, and counted no further than
/// [`LINE_WIDTH`], since a line that long takes no other word anyway.
pub struct Layout {
    pub text: Seq<char>,
    pub col: nat,
}

/// What stands between the text laid out so far and the next word, of
/// `len` characters. At the start of a line that is the indent. Otherwise
/// it is a single space if the line, with the space and the word, stays
/// under [`LINE_WIDTH`] columns, and else a line break and the indent.
pub open spec fn lead(col: nat, len: nat, indent: nat) -> Seq<char> {
    if col == 0 {
        spaces(indent)
    } else if col + 1 + len < LINE_WIDTH {
        seq![' ']
    } else {
        seq!['\n'] + spaces(indent)
    }
}

/// The columns used once a word of `len` characters is placed.
pub open spec fn next_col(col: nat, len: nat, indent: nat) -> nat {
    if col != 0 && col + 1 + len < LINE_WIDTH {
        col + 1 + len
    } else if len + indent < LINE_WIDTH {
        len + indent
    } else {
        LINE_WIDTH as nat
    }
}

/// The layout after one more word.
pub open spec fn place_word(l: Layout, w: Seq<char>, indent: nat) -> Layout {
    Layout {
        text: l.text + lead(l.col, w.len(), indent) + w,
        col: next_col(l.col, w.len(), indent),
    }
}

/// The layout after the words `ws`, placed in order.
pub open spec fn place_words(l: Layout, ws: Seq<Seq<char>>, indent: nat) -> Layout
    decreases ws.len(),
{
    if ws.len() == 0 {
        l
    } else {
        place_word(place_words(l, ws.drop_last(), indent), ws.last(), indent)
    }
}

/// The layout after one doc line: a line that is empty once trimmed breaks
/// the paragraph, any other contributes its words.
pub open spec fn place_line(l: Layout, line: Seq<char>, indent: nat) -> Layout {
    let d = trimmed(line);
    if d.len() == 0 {
        Layout { text: l.text.push('\n'), col: 0 }
    } else {
        place_words(l, words(d), indent)
    }
}

/// The layout after the doc lines `lines`, placed in order.
pub open spec fn place_lines(l: Layout, lines: Seq<Seq<char>>, indent: nat) -> Layout
    decreases lines.len(),
{
    if lines.len() == 0 {
        l
    } else {
        place_line(place_lines(l, lines.drop_last(), indent), lines.last(), indent)
    }
}

/// The doc lines `lines`, laid out from the start of a line.
pub open spec fn doc_body(lines: Seq<Seq<char>>, indent: nat) -> Seq<char> {
    place_lines(Layout { text: Seq::empty(), col: 0 }, lines, indent).text
}

/// What [`add_doccoments`] appends: nothing where there are no doc lines,
/// else the laid out doc lines and two line breaks.
pub open spec fn doc_block(lines: Seq<Seq<char>>, indent: nat) -> Seq<char> {
    if lines.len() == 0 {
        Seq::empty()
    } else {
        doc_body(lines, indent).push('\n').push('\n')
    }
}

/// Placing the first `k + 1` of some words is placing the first `k` and then
/// the word at `k`.
proof fn lemma_place_words_step(l: Layout, ws: Seq<Seq<char>>, k: int, indent: nat)
    requires
        0 <= k < ws.len(),
    ensures
        place_words(l, ws.take(k + 1), indent) == place_word(
            place_words(l, ws.take(k), indent),
            ws[k],
            indent,
        ),
{
    assert(ws.take(k + 1).drop_last() =~= ws.take(k));
}

/// Placing the first `i + 1` of some lines is placing the first `i` and then
/// the line at `i`.
proof fn lemma_place_lines_step(l: Layout, lines: Seq<Seq<char>>, i: int, indent: nat)
    requires
        0 <= i < lines.len(),
    ensures
        place_lines(l, lines.take(i + 1), indent) == place_line(
            place_lines(l, lines.take(i), indent),
            lines[i],
            indent,
        ),
{
    assert(lines.take(i + 1).drop_last() =~= lines.take(i));
}

/// Appends the word `line[from..to]` to the text in `buf`, of which `col`
/// columns stand on the last line, and returns the columns then used: see
/// [`lead`] and [`next_col`].
pub fn add_word(
    buf: &mut String,
    col: usize,
    line: &[char],
    from: usize,
    to: usize,
    indent_level: usize,
) -> (next: usize)
    requires
        from <= to <= line@.len(),
    ensures
        final(buf)@ == old(buf)@ + lead(col as nat, (to - from) as nat, indent_level as nat)
            + line@.subrange(from as int, to as int),
        next == next_col(col as nat, (to - from) as nat, indent_level as nat),
{
    let len: usize = to - from;
    if col != 0 && col < LINE_WIDTH && len < LINE_WIDTH && col + 1 + len < LINE_WIDTH {
        buf.push(' ');
        push_chars(buf, line, from, to);
        assert(buf@ =~= old(buf)@ + seq![' '] + line@.subrange(from as int, to as int));
        col + 1 + len
    } else {
        if col != 0 {
            buf.push('\n');
        }
        push_spaces(buf, indent_level);
        push_chars(buf, line, from, to);
        assert(buf@ =~= old(buf)@ + lead(col as nat, len as nat, indent_level as nat)
            + line@.subrange(from as int, to as int));
        if len < LINE_WIDTH && indent_level < LINE_WIDTH && len + indent_level < LINE_WIDTH {
            len + indent_level
        } else {
            LINE_WIDTH
        }
    }
}

/// Trims, concatenates, performs line wrapping, and indents doc comments.
///
/// Appends [`doc_block`] of the doc lines to `buf`: the laid out lines and
/// two line breaks, or nothing where `docs` is empty.
pub fn add_doccoments(buf: &mut String, docs: &[&str], indent_level: usize)
    ensures
        final(buf)@ == old(buf)@ + doc_block(texts(docs@), indent_level as nat),
{
    let ghost head = buf@;
    let ghost lines = texts(docs@);
    let ghost indent = indent_level as nat;
    let ghost empty = Layout { text: Seq::empty(), col: 0 };
    let mut col: usize = 0;
    let mut i: usize = 0;
    assert(buf@ =~= head + empty.text);
    while i < docs.len()
        invariant
            i <= docs@.len(),
            lines == texts(docs@),
            indent == indent_level as nat,
            empty == (Layout { text: Seq::empty(), col: 0 }),
            buf@ == head + place_lines(empty, lines.take(i as int), indent).text,
            col == place_lines(empty, lines.take(i as int), indent).col,
        decreases docs@.len() - i,
    {
        let ghost before = place_lines(empty, lines.take(i as int), indent);
        proof {
            lemma_place_lines_step(empty, lines, i as int, indent);
        }
        let line = chars_of(docs[i]);
        assert(line@ == lines[i as int]);
        let (a, b) = trim_bounds(line.as_slice());
        if a == b {
            buf.push('\n');
            col = 0;
            assert(buf@ =~= head + before.text.push('\n'));
        } else {
            let spans = split_words(line.as_slice(), a, b);
            let ghost ws = words(trimmed(line@));
            let mut k: usize = 0;
            assert(ws.take(0) =~= Seq::<Seq<char>>::empty());
            while k < spans.len()
                invariant
                    k <= spans@.len(),
                    spans@.len() == ws.len(),
                    ws == span_texts(line@, spans@),
                    crate::text::spans_within(spans@, line@.len()),
                    buf@ == head + place_words(before, ws.take(k as int), indent).text,
                    col == place_words(before, ws.take(k as int), indent).col,
                    indent == indent_level as nat,
                decreases spans@.len() - k,
            {
                let ghost sofar = place_words(before, ws.take(k as int), indent);
                proof {
                    lemma_place_words_step(before, ws, k as int, indent);
                }
                let span = spans[k];
                assert(ws[k as int] == line@.subrange(span.0 as int, span.1 as int));
                col = add_word(buf, col, line.as_slice(), span.0, span.1, indent_level);
                assert(buf@ =~= head + place_word(sofar, ws[k as int], indent).text);
                k += 1;
            }
            assert(ws.take(k as int) =~= ws);
        }
        i += 1;
    }
    assert(lines.take(i as int) =~= lines);
    if docs.len() > 0 {
        buf.push('\n');
        buf.push('\n');
        assert(buf@ =~= head + place_lines(empty, lines, indent).text.push('\n').push('\n'));
    }
}

/// The wrapped rendering of one flag. One without aliases renders as
/// nothing. Any other gets a heading on a line of its own: two spaces,
/// then each alias, trimmed, behind a space, then each parameter as
/// `<name>` behind a space. Below it stand its doc lines, laid out, and
/// behind them, whether there are any or none, two line breaks that part
/// the flag from the next.
pub open spec fn wrapped_entry(f: FlagText) -> Seq<char> {
    if f.flags.len() == 0 {
        Seq::empty()
    } else {
        seq![' ', ' '] + surround(trimmed_all(f.flags), seq![' '], Seq::empty()) + surround(
            f.params,
            seq![' ', '<'],
            seq!['>'],
        ) + seq!['\n'] + doc_body(f.doc, DOC_INDENT as nat) + seq!['\n', '\n']
    }
}

/// The wrapped rendering of a list of flags: their entries, in order.
pub open spec fn wrapped_help(flags: Seq<FlagText>) -> Seq<char>
    decreases flags.len(),
{
    if flags.len() == 0 {
        Seq::empty()
    } else {
        wrapped_help(flags.drop_last()) + wrapped_entry(flags.last())
    }
}

/// Appends each alias of `aliases`, trimmed and after a space, to `buf`.
fn push_aliases(buf: &mut String, aliases: &[&str])
    ensures
        final(buf)@ == old(buf)@ + surround(
            trimmed_all(texts(aliases@)),
            seq![' '],
            Seq::empty(),
        ),
{
    let ghost all = trimmed_all(texts(aliases@));
    let ghost gap = seq![' '];
    let ghost none = Seq::<char>::empty();
    let mut j: usize = 0;
    assert(buf@ =~= old(buf)@ + surround(all.take(0), gap, none));
    while j < aliases.len()
        invariant
            j <= aliases@.len(),
            all == trimmed_all(texts(aliases@)),
            gap == seq![' '],
            none == Seq::<char>::empty(),
            buf@ == old(buf)@ + surround(all.take(j as int), gap, none),
        decreases aliases@.len() - j,
    {
        proof {
            lemma_surround_step(all, gap, none, j as int);
        }
        let alias = chars_of(aliases[j]);
        let (a, b) = trim_bounds(alias.as_slice());
        buf.push(' ');
        push_chars(buf, alias.as_slice(), a, b);
        j += 1;
        assert(buf@ =~= old(buf)@ + surround(all.take(j as int), gap, none));
    }
    assert(all.take(j as int) =~= all);
}

/// More complicated runtime formatting of commandline options.
///
/// This will automatically trim whitespace, indent, and perform line
/// wrapping: it appends [`wrapped_help`] of the flags to `buf`.
pub fn wrapping_format(buf: &mut String, docs: &[Flag])
    ensures
        final(buf)@ == old(buf)@ + wrapped_help(flag_texts(docs@)),
{
    let ghost all = flag_texts(docs@);
    let mut i: usize = 0;
    assert(buf@ =~= old(buf)@ + wrapped_help(all.take(0)));
    while i < docs.len()
        invariant
            i <= docs@.len(),
            all == flag_texts(docs@),
            buf@ == old(buf)@ + wrapped_help(all.take(i as int)),
        decreases docs@.len() - i,
    {
        assert(all.take(i + 1).drop_last() =~= all.take(i as int));
        let ghost sofar = buf@;
        let flag = &docs[i];
        if flag.flags.len() > 0 {
            proof {
                reveal_strlit(" <");
                reveal_strlit(">");
                assert(" <"@ =~= seq![' ', '<']);
                assert(">"@ =~= seq!['>']);
            }
            buf.push(' ');
            buf.push(' ');
            push_aliases(buf, flag.flags);
            push_each(buf, flag.params, " <", ">");
            buf.push('\n');
            add_doccoments(buf, flag.doc, DOC_INDENT);
            if flag.doc.len() == 0 {
                buf.push('\n');
                buf.push('\n');
            }
            assert(all[i as int].doc.len() == flag.doc@.len());
            assert(buf@ =~= sofar + wrapped_entry(all[i as int]));
        } else {
            assert(buf@ =~= sofar + wrapped_entry(all[i as int]));
        }
        i += 1;
        assert(buf@ =~= old(buf)@ + wrapped_help(all.take(i as int)));
    }
    assert(all.take(i as int) =~= all);
}

} // verus!
