//! Help text without word wrapping.
//!
//! Each flag is shown as its aliases and parameters on one line and its doc
//! lines below, indented as they are. Nothing is trimmed or wrapped, so the
//! text is determined line by line by the entries given.

use vstd::prelude::*;
use vstd::slice::slice_subrange;
use crate::docs::{Flag, FlagText, flag_texts};
use crate::text::{push_each, push_text, surround, texts};

verus! {

/// The aliases of a flag, separated by a comma and a space and followed by
/// one space; nothing for a flag without aliases.
pub open spec fn simple_aliases(aliases: Seq<Seq<char>>) -> Seq<char> {
    if aliases.len() == 0 {
        Seq::empty()
    } else {
        aliases[0] + surround(aliases.skip(1), seq![',', ' '], Seq::empty()) + seq![' ']
    }
}

/// The simple rendering of one flag: two spaces, the aliases, each
/// parameter as `<name>` followed by a space, each doc line on a line of its
/// own behind three spaces, and two blank lines.
pub open spec fn simple_entry(f: FlagText) -> Seq<char> {
    seq![' ', ' '] + simple_aliases(f.flags) + surround(f.params, seq!['<'], seq!['>', ' '])
        + surround(f.doc, seq!['\n', ' ', ' ', ' '], Seq::empty()) + seq!['\n', '\n', '\n']
}

/// The simple rendering of a list of flags: their entries, in order.
pub open spec fn simple_entries(flags: Seq<FlagText>) -> Seq<char>
    decreases flags.len(),
{
    if flags.len() == 0 {
        Seq::empty()
    } else {
        simple_entries(flags.drop_last()) + simple_entry(flags.last())
    }
}

/// The whole simple help text: the prefix lines, the entries of the flags,
/// and the suffix lines, every prefix and suffix line closed by a newline.
pub open spec fn simple_help(
    prefix: Seq<Seq<char>>,
    flags: Seq<FlagText>,
    suffix: Seq<Seq<char>>,
) -> Seq<char> {
    surround(prefix, Seq::empty(), seq!['\n']) + simple_entries(flags) + surround(
        suffix,
        Seq::empty(),
        seq!['\n'],
    )
}

/// Appends [`simple_entry`] of `flag` to `buf`.
fn push_simple_entry(buf: &mut String, flag: &Flag)
    ensures
        final(buf)@ == old(buf)@ + simple_entry(flag@),
{
    proof {
        reveal_strlit("");
        reveal_strlit(", ");
        reveal_strlit("<");
        reveal_strlit("> ");
        reveal_strlit("\n   ");
        assert(""@ =~= Seq::<char>::empty());
        assert(", "@ =~= seq![',', ' ']);
        assert("<"@ =~= seq!['<']);
        assert("> "@ =~= seq!['>', ' ']);
        assert("\n   "@ =~= seq!['\n', ' ', ' ', ' ']);
    }
    buf.push(' ');
    buf.push(' ');
    let ghost start = buf@;
    let aliases = flag.flags;
    if aliases.len() > 0 {
        let rest = slice_subrange(aliases, 1, aliases.len());
        assert(texts(rest@) =~= texts(aliases@).skip(1));
        push_text(buf, aliases[0]);
        push_each(buf, rest, ", ", "");
        buf.push(' ');
        assert(buf@ =~= start + simple_aliases(flag@.flags));
    } else {
        assert(buf@ =~= start + simple_aliases(flag@.flags));
    }
    push_each(buf, flag.params, "<", "> ");
    push_each(buf, flag.doc, "\n   ", "");
    buf.push('\n');
    buf.push('\n');
    buf.push('\n');
    assert(buf@ =~= old(buf)@ + simple_entry(flag@));
}

/// Simple formatting of commandline options.
///
/// Indents the doc lines but performs no line wrapping: the result is
/// [`simple_help`] of the prefix lines, the flags and the suffix lines.
pub fn simple_format(prefix: &[&str], docs: &[Flag], suffix: &[&str]) -> (out: String)
    ensures
        out@ == simple_help(texts(prefix@), flag_texts(docs@), texts(suffix@)),
{
    proof {
        reveal_strlit("");
        reveal_strlit("\n");
        assert(""@ =~= Seq::<char>::empty());
        assert("\n"@ =~= seq!['\n']);
    }
    let ghost all = flag_texts(docs@);
    let mut out = String::new();
    push_each(&mut out, prefix, "", "\n");
    let ghost head = out@;
    let mut i: usize = 0;
    assert(out@ =~= head + simple_entries(all.take(0)));
    while i < docs.len()
        invariant
            i <= docs@.len(),
            all == flag_texts(docs@),
            out@ == head + simple_entries(all.take(i as int)),
        decreases docs@.len() - i,
    {
        assert(all.take(i + 1).drop_last() =~= all.take(i as int));
        push_simple_entry(&mut out, &docs[i]);
        i += 1;
        assert(out@ =~= head + simple_entries(all.take(i as int)));
    }
    assert(all.take(i as int) =~= all);
    push_each(&mut out, suffix, "", "\n");
    assert(head =~= surround(texts(prefix@), Seq::empty(), seq!['\n']));
    out
}

} // verus!
