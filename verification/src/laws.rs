//! Laws of the dispatcher and of the help renderers, proved over the spec
//! functions that the contracts of the library use.

use vstd::prelude::*;
use crate::docs::{FlagText, RuleText};
use crate::formatters::{simple_entries, simple_entry, simple_help};
use crate::help::{
    DOC_INDENT, LINE_WIDTH, Layout, doc_body, lead, place_line, place_lines, place_word, place_words,
    wrapped_entry, wrapped_help,
};
use crate::parse::{
    DispatchText, SessionState, after, fetch, first_equals, first_named, flag_part, is_cluster, is_long,
    names, pending, pulled, run, short_flag, start, stashed_value, step, taken,
};
use crate::table::{doc_entries, first_catch_all};
use crate::text::{is_ascii_space, surround, trimmed, trimmed_all, word_len, words};

verus! {

/// The dispatch of a flag that takes no value.
pub open spec fn plain(rule: int, alias: Seq<char>) -> DispatchText {
    DispatchText::Flag { rule, alias, params: Seq::empty() }
}

/// The dispatch of a flag that takes the one value `value`.
pub open spec fn with_value(rule: int, alias: Seq<char>, value: Seq<char>) -> DispatchText {
    DispatchText::Flag { rule, alias, params: seq![Some(value)] }
}

/// Whether the short flag of `c` is named by a rule with `n` parameters.
pub open spec fn short_takes(rules: Seq<RuleText>, c: char, n: nat) -> bool {
    match first_named(rules, short_flag(c), 0) {
        Some(i) => 0 <= i < rules.len() && rules[i].parameter_count() == n,
        None => false,
    }
}

/// The rule that names `flag`; meant for flags that some rule names.
pub open spec fn rule_of(rules: Seq<RuleText>, flag: Seq<char>) -> int {
    first_named(rules, flag, 0).unwrap()
}

/// The dispatches of the short flags of `flags`, none of them with a value.
pub open spec fn plain_run(rules: Seq<RuleText>, flags: Seq<char>) -> Seq<DispatchText> {
    Seq::new(flags.len(), |k: int| plain(rule_of(rules, short_flag(flags[k])), short_flag(flags[k])))
}

/// What [`first_named`] finds is the least index of a rule that names the
/// token.
pub proof fn lemma_first_named(rules: Seq<RuleText>, token: Seq<char>, from: int)
    requires
        0 <= from,
    ensures
        match first_named(rules, token, from) {
            Some(i) => from <= i < rules.len() && names(rules[i], token) && forall|k: int|
                from <= k < i ==> !names(#[trigger] rules[k], token),
            None => forall|k: int| from <= k < rules.len() ==> !names(#[trigger] rules[k], token),
        },
    decreases rules.len() - from,
{
    if from < rules.len() && !names(rules[from], token) {
        lemma_first_named(rules, token, from + 1);
    }
}

/// A token without `=` has no first `=`.
pub proof fn lemma_no_equals(t: Seq<char>, from: int)
    requires
        0 <= from,
        forall|k: int| from <= k < t.len() ==> t[k] != '=',
    ensures
        first_equals(t, from) is None,
    decreases t.len() - from,
{
    if from < t.len() {
        lemma_no_equals(t, from + 1);
    }
}

/// What [`first_equals`] finds is the least index of an `=`.
pub proof fn lemma_first_equals(t: Seq<char>, from: int)
    requires
        0 <= from,
    ensures
        match first_equals(t, from) {
            Some(i) => from <= i < t.len() && t[i] == '=' && forall|k: int|
                from <= k < i ==> t[k] != '=',
            None => forall|k: int| from <= k < t.len() ==> t[k] != '=',
        },
    decreases t.len() - from,
{
    if from < t.len() && t[from] != '=' {
        lemma_first_equals(t, from + 1);
    }
}

/// A short flag is never parted: it is its own flag part and carries no
/// value.
pub proof fn lemma_short_flag_is_whole(c: char)
    ensures
        flag_part(short_flag(c)) == short_flag(c),
        stashed_value(short_flag(c)) is None,
        !is_cluster(short_flag(c)),
{
    let t = short_flag(c);
    if is_long(t) {
        assert(t[1] == '-');
        lemma_no_equals(t, 0);
    }
}

/// A fetched token never leaves both a value behind `=` and a residue:
/// only a token that is no cluster is parted at `=`.
pub proof fn lemma_value_or_residue(s: SessionState)
    ensures
        fetch(s) matches Some(f) ==> stashed_value(f.token) is None || f.state.residue.len() == 0,
{
    match fetch(s) {
        Some(f) => {
            if s.residue.len() > 0 {
                lemma_short_flag_is_whole(s.residue[0]);
            } else if is_cluster(s.tokens[0]) {
                lemma_short_flag_is_whole(s.tokens[0][1]);
            }
        },
        None => {},
    }
}

/// A session with nothing left dispatches nothing.
pub proof fn lemma_empty_run(rules: Seq<RuleText>)
    ensures
        run(rules, start(Seq::empty())) == Seq::<DispatchText>::empty(),
{
}

/// While a cluster is worked off, flags that take no value are dispatched
/// one after the other, and neither the rest of the cluster nor the stream
/// is touched.
pub proof fn lemma_residue_run(
    rules: Seq<RuleText>,
    head: Seq<char>,
    tail: Seq<char>,
    tokens: Seq<Seq<char>>,
)
    requires
        forall|k: int| 0 <= k < head.len() ==> short_takes(rules, #[trigger] head[k], 0),
    ensures
        run(rules, SessionState { residue: head + tail, stopped: false, tokens }) == plain_run(
            rules,
            head,
        ) + run(rules, SessionState { residue: tail, stopped: false, tokens }),
    decreases head.len(),
{
    let s = SessionState { residue: head + tail, stopped: false, tokens };
    if head.len() == 0 {
        assert(head + tail =~= tail);
        assert(plain_run(rules, head) + run(rules, s) =~= run(rules, s));
    } else {
        let c = head[0];
        assert((head + tail)[0] == c);
        assert(short_takes(rules, c, 0));
        lemma_short_flag_is_whole(c);
        let next = SessionState { residue: head.drop_first() + tail, stopped: false, tokens };
        assert((head + tail).drop_first() =~= head.drop_first() + tail);
        let f = fetch(s).unwrap();
        assert(f.token == short_flag(c));
        assert(f.state == next);
        let i = rule_of(rules, short_flag(c));
        assert(pulled(pending(next.residue, None) + tokens, 0) =~= Seq::empty());
        assert(step(rules, s).unwrap().event == plain(i, short_flag(c)));
        assert(step(rules, s).unwrap().state == next);
        assert forall|k: int| 0 <= k < head.drop_first().len() implies short_takes(
            rules,
            #[trigger] head.drop_first()[k],
            0,
        ) by {
            assert(head.drop_first()[k] == head[k + 1]);
        }
        lemma_residue_run(rules, head.drop_first(), tail, tokens);
        assert(plain_run(rules, head) =~= seq![plain(i, short_flag(c))] + plain_run(
            rules,
            head.drop_first(),
        ));
        assert(run(rules, s) =~= plain_run(rules, head) + run(
            rules,
            SessionState { residue: tail, stopped: false, tokens },
        ));
    }
}

/// A token that begins with a dash and the flags `flags` sets the session to
/// work: the first flag is fetched and the others become the residue.
proof fn lemma_cluster_opens(rules: Seq<RuleText>, flags: Seq<char>, rest: Seq<Seq<char>>)
    requires
        flags.len() >= 1,
        flags[0] != '-',
    ensures
        run(rules, start(seq![seq!['-'] + flags] + rest)) == run(
            rules,
            SessionState { residue: flags, stopped: false, tokens: rest },
        ),
{
    let t = seq!['-'] + flags;
    let tokens = seq![t] + rest;
    let s = start(tokens);
    let r = SessionState { residue: flags, stopped: false, tokens: rest };
    assert(tokens.drop_first() =~= rest);
    assert(tokens[0] == t);
    assert(t[1] == flags[0]);
    if flags.len() >= 2 {
        assert(is_cluster(t));
        assert(t.skip(2) =~= flags.drop_first());
        assert(fetch(s) == fetch(r));
    } else {
        assert(t =~= short_flag(flags[0]));
        assert(flags.drop_first() =~= Seq::<char>::empty());
        assert(fetch(s) == fetch(r));
    }
    assert(step(rules, s) == step(rules, r));
}

/// A cluster of short flags that take no value dispatches each of its
/// flags, in the order in which they are written, and nothing else.
pub proof fn lemma_cluster_in_order(rules: Seq<RuleText>, flags: Seq<char>)
    requires
        flags.len() >= 1,
        flags[0] != '-',
        forall|k: int| 0 <= k < flags.len() ==> short_takes(rules, #[trigger] flags[k], 0),
    ensures
        run(rules, start(seq![seq!['-'] + flags])) == plain_run(rules, flags),
{
    let none = Seq::<Seq<char>>::empty();
    assert(seq![seq!['-'] + flags] + none =~= seq![seq!['-'] + flags]);
    lemma_cluster_opens(rules, flags, none);
    assert(flags + Seq::<char>::empty() =~= flags);
    lemma_residue_run(rules, flags, Seq::empty(), none);
    assert(run(rules, start(none)) =~= Seq::<DispatchText>::empty());
    assert(plain_run(rules, flags) + Seq::<DispatchText>::empty() =~= plain_run(rules, flags));
}

/// Clustering composes with a flag that takes a value: where a cluster ends
/// in such a flag, the flags before it are dispatched without a value, and
/// the last one gets the token that follows the cluster.
pub proof fn lemma_cluster_then_value(
    rules: Seq<RuleText>,
    flags: Seq<char>,
    last: char,
    value: Seq<char>,
    rest: Seq<Seq<char>>,
)
    requires
        flags.len() >= 1,
        flags[0] != '-',
        forall|k: int| 0 <= k < flags.len() ==> short_takes(rules, #[trigger] flags[k], 0),
        short_takes(rules, last, 1),
    ensures
        run(rules, start(seq![seq!['-'] + flags.push(last), value] + rest)) == plain_run(
            rules,
            flags,
        ).push(with_value(rule_of(rules, short_flag(last)), short_flag(last), value)) + run(
            rules,
            start(rest),
        ),
{
    let tokens = seq![value] + rest;
    assert(seq![seq!['-'] + flags.push(last), value] + rest =~= seq![seq!['-'] + flags.push(last)]
        + tokens);
    lemma_cluster_opens(rules, flags.push(last), tokens);
    assert(flags.push(last) =~= flags + seq![last]);
    lemma_residue_run(rules, flags, seq![last], tokens);
    let s = SessionState { residue: seq![last], stopped: false, tokens };
    lemma_short_flag_is_whole(last);
    let f = fetch(s).unwrap();
    assert(f.token == short_flag(last));
    assert(f.state.residue =~= Seq::<char>::empty());
    let ready = pending(f.state.residue, None);
    assert(ready =~= Seq::<Seq<char>>::empty());
    assert(pulled(ready + tokens, 1) =~= seq![Some(value)]);
    assert(taken(1, ready.len(), tokens.len()) == 1);
    assert(tokens.skip(1) =~= rest);
    let event = with_value(rule_of(rules, short_flag(last)), short_flag(last), value);
    assert(step(rules, s).unwrap().event == event);
    assert(step(rules, s).unwrap().state == start(rest));
    assert(run(rules, s) == seq![event] + run(rules, start(rest)));
    assert(plain_run(rules, flags) + (seq![event] + run(rules, start(rest))) =~= plain_run(
        rules,
        flags,
    ).push(event) + run(rules, start(rest)));
}

/// Whether `flag` is named by a rule with one parameter.
pub open spec fn takes_one(rules: Seq<RuleText>, flag: Seq<char>) -> bool {
    match first_named(rules, flag, 0) {
        Some(i) => 0 <= i < rules.len() && rules[i].parameter_count() == 1,
        None => false,
    }
}

/// A flag with one parameter gets the same value however the value is
/// attached: as the next token behind the short or the long alias, behind
/// `=` in the token of the long alias, or directly behind the short alias.
pub proof fn lemma_value_forms_agree(
    rules: Seq<RuleText>,
    c: char,
    long: Seq<char>,
    value: Seq<char>,
)
    requires
        takes_one(rules, short_flag(c)),
        takes_one(rules, long),
        is_long(long),
        forall|k: int| 0 <= k < long.len() ==> long[k] != '=',
    ensures
        run(rules, start(seq![short_flag(c), value])) == seq![
            with_value(rule_of(rules, short_flag(c)), short_flag(c), value),
        ],
        run(rules, start(seq![long, value])) == seq![
            with_value(rule_of(rules, long), long, value),
        ],
        run(rules, start(seq![long + seq!['='] + value])) == seq![
            with_value(rule_of(rules, long), long, value),
        ],
        c != '-' && value.len() > 0 ==> run(rules, start(seq![short_flag(c) + value])) == seq![
            with_value(rule_of(rules, short_flag(c)), short_flag(c), value),
        ],
{
    let none = Seq::<Seq<char>>::empty();
    let done = start(none);
    assert(run(rules, done) =~= Seq::<DispatchText>::empty());
    lemma_short_flag_is_whole(c);
    lemma_no_equals(long, 0);
    // the value as the next token, behind the short alias
    {
        let tokens = seq![short_flag(c), value];
        let s = start(tokens);
        let f = fetch(s).unwrap();
        assert(f.token == short_flag(c));
        assert(f.state.tokens =~= seq![value]);
        assert(pending(f.state.residue, None) =~= none);
        assert(pulled(none + f.state.tokens, 1) =~= seq![Some(value)]);
        assert(f.state.tokens.skip(1) =~= none);
        let event = with_value(rule_of(rules, short_flag(c)), short_flag(c), value);
        assert(step(rules, s).unwrap().event == event);
        assert(step(rules, s).unwrap().state == done);
        assert(run(rules, s) =~= seq![event]);
    }
    // the value as the next token, behind the long alias
    {
        let tokens = seq![long, value];
        let s = start(tokens);
        let f = fetch(s).unwrap();
        assert(!is_cluster(long));
        assert(f.token == long);
        assert(f.state.tokens =~= seq![value]);
        assert(pending(f.state.residue, None) =~= none);
        assert(pulled(none + f.state.tokens, 1) =~= seq![Some(value)]);
        assert(f.state.tokens.skip(1) =~= none);
        let event = with_value(rule_of(rules, long), long, value);
        assert(step(rules, s).unwrap().event == event);
        assert(step(rules, s).unwrap().state == done);
        assert(run(rules, s) =~= seq![event]);
    }
    // the value behind `=`
    {
        let t = long + seq!['='] + value;
        let s = start(seq![t]);
        let f = fetch(s).unwrap();
        assert(is_long(t));
        assert(!is_cluster(t));
        assert(f.token == t);
        assert(f.state.tokens =~= none);
        lemma_first_equals(t, 0);
        assert(t[long.len() as int] == '=');
        assert(forall|k: int| 0 <= k < long.len() ==> t[k] == long[k]);
        assert(first_equals(t, 0) == Some(long.len() as int));
        assert(t.take(long.len() as int) =~= long);
        assert(t.skip(long.len() as int + 1) =~= value);
        assert(flag_part(t) == long);
        assert(stashed_value(t) == Some(value));
        assert(pending(f.state.residue, Some(value)) =~= seq![value]);
        assert(pulled(seq![value] + none, 1) =~= seq![Some(value)]);
        assert(none.skip(0) =~= none);
        let event = with_value(rule_of(rules, long), long, value);
        assert(step(rules, s).unwrap().event == event);
        assert(step(rules, s).unwrap().state == done);
        assert(run(rules, s) =~= seq![event]);
    }
    // the value directly behind the short alias
    if c != '-' && value.len() > 0 {
        let t = short_flag(c) + value;
        let s = start(seq![t]);
        let f = fetch(s).unwrap();
        assert(is_cluster(t));
        assert(t[1] == c);
        assert(f.token == short_flag(c));
        assert(t.skip(2) =~= value);
        assert(f.state.residue == value);
        assert(f.state.tokens =~= none);
        assert(pending(value, None) =~= seq![value]);
        assert(pulled(seq![value] + none, 1) =~= seq![Some(value)]);
        assert(none.skip(0) =~= none);
        let event = with_value(rule_of(rules, short_flag(c)), short_flag(c), value);
        assert(step(rules, s).unwrap().event == event);
        assert(step(rules, s).unwrap().state == done);
        assert(run(rules, s) =~= seq![event]);
    }
}

/// What a step dispatches. A flag goes to the first rule that names it, a
/// rule that takes part in matching, under the alias as it was written,
/// with one value or absence for each parameter of the rule. Only a token
/// that no rule names goes to the catch-all, and only where there is none
/// is it reported as unmatched.
pub proof fn lemma_dispatch_is_sound(rules: Seq<RuleText>, s: SessionState)
    ensures
        match step(rules, s) {
            None => fetch(s) is None,
            Some(st) => fetch(s) matches Some(f) && match st.event {
                DispatchText::Flag { rule, alias, params } => {
                    &&& 0 <= rule < rules.len()
                    &&& !rules[rule].is_fake
                    &&& !rules[rule].is_catch_all
                    &&& alias == flag_part(f.token)
                    &&& rules[rule].aliases.contains(alias)
                    &&& forall|k: int| 0 <= k < rule ==> !names(#[trigger] rules[k], alias)
                    &&& params.len() == rules[rule].parameter_count()
                },
                DispatchText::CatchAll { rule, token } => {
                    &&& 0 <= rule < rules.len()
                    &&& !rules[rule].is_fake
                    &&& rules[rule].is_catch_all
                    &&& token == f.token
                    &&& forall|k: int|
                        0 <= k < rules.len() ==> !names(#[trigger] rules[k], flag_part(token))
                },
                DispatchText::Unmatched { token } => {
                    &&& token == f.token
                    &&& forall|k: int|
                        0 <= k < rules.len() ==> !names(#[trigger] rules[k], flag_part(token))
                            && !(rules[k].dispatchable() && rules[k].is_catch_all)
                },
            },
        },
{
    match fetch(s) {
        None => {},
        Some(f) => {
            let flag = flag_part(f.token);
            lemma_first_named(rules, flag, 0);
            crate::table::lemma_first_catch_all(rules, 0);
        },
    }
}

/// A rule that is shown only is never matched: no step dispatches to it.
pub proof fn lemma_fake_rule_is_never_matched(rules: Seq<RuleText>, s: SessionState, i: int)
    requires
        0 <= i < rules.len(),
        rules[i].is_fake,
    ensures
        match step(rules, s) {
            Some(st) => match st.event {
                DispatchText::Flag { rule, .. } => rule != i,
                DispatchText::CatchAll { rule, .. } => rule != i,
                DispatchText::Unmatched { .. } => true,
            },
            None => true,
        },
{
    lemma_dispatch_is_sound(rules, s);
}

/// Whether `b` holds the rules of `a` with nothing changed but, possibly,
/// their visibility.
pub open spec fn same_but_visibility(a: Seq<RuleText>, b: Seq<RuleText>) -> bool {
    &&& a.len() == b.len()
    &&& forall|i: int|
        0 <= i < a.len() ==> #[trigger] b[i] == (RuleText { visible: b[i].visible, ..a[i] })
}

/// Hiding a rule from the help text, or showing it, changes nothing in
/// what is dispatched.
pub proof fn lemma_matching_ignores_visibility(
    a: Seq<RuleText>,
    b: Seq<RuleText>,
    s: SessionState,
)
    requires
        same_but_visibility(a, b),
    ensures
        step(a, s) == step(b, s),
{
    match fetch(s) {
        None => {},
        Some(f) => {
            let flag = flag_part(f.token);
            lemma_same_first_named(a, b, flag, 0);
            lemma_same_first_catch_all(a, b, 0);
            match first_named(a, flag, 0) {
                Some(i) => {
                    lemma_first_named(a, flag, 0);
                    assert(b[i].parameter_count() == a[i].parameter_count());
                },
                None => {},
            }
        },
    }
}

proof fn lemma_same_first_named(a: Seq<RuleText>, b: Seq<RuleText>, token: Seq<char>, from: int)
    requires
        same_but_visibility(a, b),
        0 <= from,
    ensures
        first_named(a, token, from) == first_named(b, token, from),
    decreases a.len() - from,
{
    if from < a.len() {
        assert(b[from] == (RuleText { visible: b[from].visible, ..a[from] }));
        lemma_same_first_named(a, b, token, from + 1);
    }
}

proof fn lemma_same_first_catch_all(a: Seq<RuleText>, b: Seq<RuleText>, from: int)
    requires
        same_but_visibility(a, b),
        0 <= from,
    ensures
        first_catch_all(a, from) == first_catch_all(b, from),
    decreases a.len() - from,
{
    if from < a.len() {
        assert(b[from] == (RuleText { visible: b[from].visible, ..a[from] }));
        lemma_same_first_catch_all(a, b, from + 1);
    }
}

/// A stopped session dispatches nothing and keeps what it holds, however
/// often it is asked.
pub proof fn lemma_stopped_session_rests(rules: Seq<RuleText>, s: SessionState, n: nat)
    requires
        s.stopped,
    ensures
        step(rules, s) is None,
        run(rules, s) == Seq::<DispatchText>::empty(),
        after(rules, s, n) == s,
{
}

/// A step takes tokens from the front of the stream only, and never stops
/// the session by itself: what is left of the stream is a tail of what was
/// there.
pub proof fn lemma_step_leaves_tail(rules: Seq<RuleText>, s: SessionState)
    ensures
        match step(rules, s) {
            Some(st) => {
                &&& !st.state.stopped
                &&& st.state.tokens.len() <= s.tokens.len()
                &&& st.state.tokens == s.tokens.skip(s.tokens.len() - st.state.tokens.len())
            },
            None => true,
        },
{
    match fetch(s) {
        None => {},
        Some(f) => {
            assert(f.state.tokens.len() <= s.tokens.len());
            assert(f.state.tokens =~= s.tokens.skip(s.tokens.len() - f.state.tokens.len()));
            let st = step(rules, s).unwrap();
            assert(st.state.tokens.len() <= f.state.tokens.len());
            assert(st.state.tokens =~= f.state.tokens.skip(
                f.state.tokens.len() - st.state.tokens.len(),
            ));
            assert(st.state.tokens =~= s.tokens.skip(s.tokens.len() - st.state.tokens.len()));
        },
    }
}

/// The help entries of two lists of rules, one after the other, are the
/// entries of the first followed by those of the second.
pub proof fn lemma_doc_entries_concat(a: Seq<RuleText>, b: Seq<RuleText>)
    ensures
        doc_entries(a + b) == doc_entries(a) + doc_entries(b),
    decreases b.len(),
{
    if b.len() == 0 {
        assert(a + b =~= a);
        assert(doc_entries(a) + doc_entries(b) =~= doc_entries(a));
    } else {
        assert((a + b).drop_last() =~= a + b.drop_last());
        assert((a + b).last() == b.last());
        lemma_doc_entries_concat(a, b.drop_last());
        assert(doc_entries(a + b) =~= doc_entries(a) + doc_entries(b));
    }
}

/// The simple rendering of two lists of entries, one after the other, is
/// the rendering of the first followed by that of the second.
pub proof fn lemma_simple_entries_concat(a: Seq<FlagText>, b: Seq<FlagText>)
    ensures
        simple_entries(a + b) == simple_entries(a) + simple_entries(b),
    decreases b.len(),
{
    if b.len() == 0 {
        assert(a + b =~= a);
        assert(simple_entries(a) + simple_entries(b) =~= simple_entries(a));
    } else {
        assert((a + b).drop_last() =~= a + b.drop_last());
        assert((a + b).last() == b.last());
        lemma_simple_entries_concat(a, b.drop_last());
        assert(simple_entries(a + b) =~= simple_entries(a) + simple_entries(b));
    }
}

/// The wrapped rendering of two lists of entries, one after the other, is
/// the rendering of the first followed by that of the second.
pub proof fn lemma_wrapped_help_concat(a: Seq<FlagText>, b: Seq<FlagText>)
    ensures
        wrapped_help(a + b) == wrapped_help(a) + wrapped_help(b),
    decreases b.len(),
{
    if b.len() == 0 {
        assert(a + b =~= a);
        assert(wrapped_help(a) + wrapped_help(b) =~= wrapped_help(a));
    } else {
        assert((a + b).drop_last() =~= a + b.drop_last());
        assert((a + b).last() == b.last());
        lemma_wrapped_help_concat(a, b.drop_last());
        assert(wrapped_help(a + b) =~= wrapped_help(a) + wrapped_help(b));
    }
}

/// A hidden rule never shows in the help text: with the rule taken out of
/// the table, the entries and both renderings are what they were.
pub proof fn lemma_hidden_rule_is_not_rendered(
    rules: Seq<RuleText>,
    i: int,
    prefix: Seq<Seq<char>>,
    suffix: Seq<Seq<char>>,
)
    requires
        0 <= i < rules.len(),
        !rules[i].visible,
    ensures
        doc_entries(rules) == doc_entries(rules.remove(i)),
        simple_help(prefix, doc_entries(rules), suffix) == simple_help(
            prefix,
            doc_entries(rules.remove(i)),
            suffix,
        ),
        wrapped_help(doc_entries(rules)) == wrapped_help(doc_entries(rules.remove(i))),
{
    let before = rules.take(i);
    let one = seq![rules[i]];
    let after = rules.skip(i + 1);
    assert(rules =~= before + one + after);
    assert(rules.remove(i) =~= before + after);
    lemma_doc_entries_concat(before, one);
    lemma_doc_entries_concat(before + one, after);
    lemma_doc_entries_concat(before, after);
    assert(one.drop_last() =~= Seq::<RuleText>::empty());
    assert(doc_entries(Seq::<RuleText>::empty()) =~= Seq::<FlagText>::empty());
    assert(doc_entries(one) =~= Seq::<FlagText>::empty());
    assert(doc_entries(before) + doc_entries(one) =~= doc_entries(before));
}

/// A visible rule shows in the help text, whether it is fake or not: its
/// entry stands in both renderings, between what is rendered of the rules
/// before it and of the rules after it.
pub proof fn lemma_visible_rule_is_rendered(rules: Seq<RuleText>, i: int)
    requires
        0 <= i < rules.len(),
        rules[i].visible,
    ensures
        doc_entries(rules) == doc_entries(rules.take(i)).push(rules[i].entry()) + doc_entries(
            rules.skip(i + 1),
        ),
        simple_entries(doc_entries(rules)) == simple_entries(doc_entries(rules.take(i)))
            + simple_entry(rules[i].entry()) + simple_entries(doc_entries(rules.skip(i + 1))),
        wrapped_help(doc_entries(rules)) == wrapped_help(doc_entries(rules.take(i)))
            + wrapped_entry(rules[i].entry()) + wrapped_help(doc_entries(rules.skip(i + 1))),
{
    let before = rules.take(i);
    let one = seq![rules[i]];
    let after = rules.skip(i + 1);
    assert(rules =~= before + one + after);
    lemma_doc_entries_concat(before, one);
    lemma_doc_entries_concat(before + one, after);
    assert(one.drop_last() =~= Seq::<RuleText>::empty());
    let entry = seq![rules[i].entry()];
    assert(doc_entries(Seq::<RuleText>::empty()) =~= Seq::<FlagText>::empty());
    assert(doc_entries(one) =~= entry);
    assert(doc_entries(before) + entry =~= doc_entries(before).push(rules[i].entry()));
    let head = doc_entries(before);
    let tail = doc_entries(after);
    assert(doc_entries(rules) == head + entry + tail);
    lemma_simple_entries_concat(head, entry);
    lemma_simple_entries_concat(head + entry, tail);
    lemma_wrapped_help_concat(head, entry);
    lemma_wrapped_help_concat(head + entry, tail);
    assert(entry.drop_last() =~= Seq::<FlagText>::empty());
    assert(simple_entries(Seq::<FlagText>::empty()) =~= Seq::<char>::empty());
    assert(wrapped_help(Seq::<FlagText>::empty()) =~= Seq::<char>::empty());
    assert(simple_entries(entry) =~= simple_entry(rules[i].entry()));
    assert(wrapped_help(entry) =~= wrapped_entry(rules[i].entry()));
}

/// Rendering has no hidden state: two simple renderings of the same
/// prefix, entries and suffix are the same text.
pub proof fn lemma_simple_format_is_repeatable(
    first: Seq<char>,
    second: Seq<char>,
    prefix: Seq<Seq<char>>,
    flags: Seq<FlagText>,
    suffix: Seq<Seq<char>>,
)
    requires
        first == simple_help(prefix, flags, suffix),
        second == simple_help(prefix, flags, suffix),
    ensures
        first == second,
{
}

/// The run at the start of `s` stays inside `s`, and is non-empty exactly
/// when `s` starts with a non-space character.
pub proof fn lemma_word_len_bounds(s: Seq<char>)
    ensures
        word_len(s) <= s.len(),
        s.len() > 0 && !is_ascii_space(s[0]) ==> word_len(s) > 0,
    decreases s.len(),
{
    if s.len() > 0 && !is_ascii_space(s[0]) {
        lemma_word_len_bounds(s.drop_first());
    }
}

/// Columns are counted no further than the line width, whatever is
/// placed.
pub proof fn lemma_columns_are_bounded(l: Layout, ws: Seq<Seq<char>>, indent: nat)
    requires
        l.col <= LINE_WIDTH,
    ensures
        place_words(l, ws, indent).col <= LINE_WIDTH,
    decreases ws.len(),
{
    if ws.len() > 0 {
        lemma_columns_are_bounded(l, ws.drop_last(), indent);
    }
}

/// What is laid out stays: placing words only adds to the text.
pub proof fn lemma_layout_grows(l: Layout, ws: Seq<Seq<char>>, indent: nat)
    ensures
        l.text.is_prefix_of(place_words(l, ws, indent).text),
    decreases ws.len(),
{
    if ws.len() > 0 {
        lemma_layout_grows(l, ws.drop_last(), indent);
        let before = place_words(l, ws.drop_last(), indent);
        let now = place_word(before, ws.last(), indent);
        assert(before.text.is_prefix_of(now.text));
    }
}

/// Whether `w` is a word: not empty, and free of ASCII whitespace.
pub open spec fn is_word(w: Seq<char>) -> bool {
    w.len() > 0 && forall|j: int| 0 <= j < w.len() ==> !is_ascii_space(#[trigger] w[j])
}

/// Whether `s` holds nothing but ASCII whitespace.
pub open spec fn is_blank(s: Seq<char>) -> bool {
    forall|j: int| 0 <= j < s.len() ==> is_ascii_space(#[trigger] s[j])
}

/// The words of each item of `items`, one item after the other.
pub open spec fn all_words(items: Seq<Seq<char>>) -> Seq<Seq<char>>
    decreases items.len(),
{
    if items.len() == 0 {
        Seq::empty()
    } else {
        all_words(items.drop_last()) + words(items.last())
    }
}

/// Each item of `items` between `before` and `after`.
pub open spec fn framed(items: Seq<Seq<char>>, before: Seq<char>, after: Seq<char>) -> Seq<
    Seq<char>,
> {
    Seq::new(items.len(), |i: int| before + items[i] + after)
}

/// The words that the wrapped entry of a flag shows: the words of its
/// trimmed aliases, its parameters in angle brackets, and the words of its
/// trimmed doc lines. A flag without aliases shows none.
pub open spec fn entry_words(f: FlagText) -> Seq<Seq<char>> {
    if f.flags.len() == 0 {
        Seq::empty()
    } else {
        all_words(trimmed_all(f.flags)) + all_words(framed(f.params, seq!['<'], seq!['>']))
            + all_words(trimmed_all(f.doc))
    }
}

/// The words that the wrapped help of `flags` shows, flag by flag.
pub open spec fn help_words(flags: Seq<FlagText>) -> Seq<Seq<char>>
    decreases flags.len(),
{
    if flags.len() == 0 {
        Seq::empty()
    } else {
        help_words(flags.drop_last()) + entry_words(flags.last())
    }
}

/// The run at the start of a text made of two parts ends in the first part
/// if it ends before that part does, and else goes on into the second.
pub proof fn lemma_word_len_concat(a: Seq<char>, b: Seq<char>)
    ensures
        word_len(a + b) == if word_len(a) < a.len() {
            word_len(a)
        } else {
            a.len() + word_len(b)
        },
        word_len(a) <= a.len(),
        forall|j: int| 0 <= j < word_len(a) ==> !is_ascii_space(#[trigger] a[j]),
    decreases a.len(),
{
    if a.len() == 0 {
        assert(a + b =~= b);
    } else if is_ascii_space(a[0]) {
        assert((a + b)[0] == a[0]);
    } else {
        let rest = a.drop_first();
        assert((a + b)[0] == a[0]);
        assert((a + b).drop_first() =~= rest + b);
        lemma_word_len_concat(rest, b);
        assert forall|j: int| 0 <= j < word_len(a) implies !is_ascii_space(#[trigger] a[j]) by {
            if j > 0 {
                assert(a[j] == rest[j - 1]);
            }
        }
    }
}

/// The words of a text made of two parts are the words of the one and then
/// those of the other, provided that whitespace parts them: the first ends
/// in whitespace, or the second begins with it, or one of them is empty.
pub proof fn lemma_words_concat(a: Seq<char>, b: Seq<char>)
    requires
        a.len() == 0 || b.len() == 0 || is_ascii_space(a.last()) || is_ascii_space(b[0]),
    ensures
        words(a + b) == words(a) + words(b),
    decreases a.len(),
{
    if a.len() == 0 {
        assert(a + b =~= b);
        assert(words(a) + words(b) =~= words(b));
    } else if is_ascii_space(a[0]) {
        let rest = a.drop_first();
        assert((a + b)[0] == a[0]);
        assert((a + b).drop_first() =~= rest + b);
        if rest.len() > 0 {
            assert(rest.last() == a.last());
        }
        lemma_words_concat(rest, b);
    } else {
        lemma_word_len_concat(a, b);
        lemma_word_len_bounds(a);
        let n = word_len(a) as int;
        assert((a + b)[0] == a[0]);
        if n < a.len() {
            let rest = a.skip(n);
            assert((a + b).take(n) =~= a.take(n));
            assert((a + b).skip(n) =~= rest + b);
            assert(rest.last() == a.last());
            lemma_words_concat(rest, b);
            assert(words(a + b) == seq![a.take(n)] + words(rest + b));
            assert(words(a) == seq![a.take(n)] + words(rest));
            assert(seq![a.take(n)] + (words(rest) + words(b)) =~= (seq![a.take(n)] + words(rest))
                + words(b));
        } else {
            assert(!is_ascii_space(a[a.len() - 1]));
            assert(word_len(b) == 0);
            assert((a + b).take(n) =~= a);
            assert((a + b).skip(n) =~= b);
            assert(a.take(n) =~= a);
            assert(a.skip(n) =~= Seq::<char>::empty());
            assert(words(a.skip(n)) =~= Seq::<Seq<char>>::empty());
            assert(words(a + b) == seq![a] + words(b));
            assert(words(a) =~= seq![a]);
        }
    }
}

/// A text of nothing but whitespace has no words.
pub proof fn lemma_blank_has_no_words(s: Seq<char>)
    requires
        is_blank(s),
    ensures
        words(s) == Seq::<Seq<char>>::empty(),
    decreases s.len(),
{
    if s.len() > 0 {
        assert(is_ascii_space(s[0]));
        assert forall|j: int| 0 <= j < s.drop_first().len() implies is_ascii_space(
            #[trigger] s.drop_first()[j],
        ) by {
            assert(s.drop_first()[j] == s[j + 1]);
        }
        lemma_blank_has_no_words(s.drop_first());
    }
}

/// A word is the one word of itself.
pub proof fn lemma_word_is_its_words(w: Seq<char>)
    requires
        is_word(w),
    ensures
        words(w) == seq![w],
        word_len(w) == w.len(),
    decreases w.len(),
{
    let rest = w.drop_first();
    assert(!is_ascii_space(w[0]));
    if rest.len() > 0 {
        assert forall|j: int| 0 <= j < rest.len() implies !is_ascii_space(#[trigger] rest[j]) by {
            assert(rest[j] == w[j + 1]);
        }
        lemma_word_is_its_words(rest);
    } else {
        assert(word_len(rest) == 0);
    }
    assert(word_len(w) == w.len());
    let n = w.len() as int;
    assert(w.take(n) =~= w);
    assert(w.skip(n) =~= Seq::<char>::empty());
    assert(words(w.skip(n)) =~= Seq::<Seq<char>>::empty());
    assert(words(w) =~= seq![w]);
}

/// The words of a text are words: none is empty, none holds whitespace.
pub proof fn lemma_words_are_words(s: Seq<char>)
    ensures
        forall|k: int| 0 <= k < words(s).len() ==> is_word(#[trigger] words(s)[k]),
    decreases s.len(),
{
    if s.len() == 0 {
    } else if is_ascii_space(s[0]) {
        lemma_words_are_words(s.drop_first());
        assert(words(s) == words(s.drop_first()));
    } else {
        lemma_word_len_bounds(s);
        lemma_word_len_concat(s, Seq::empty());
        let n = word_len(s) as int;
        let rest = words(s.skip(n));
        lemma_words_are_words(s.skip(n));
        assert(words(s) == seq![s.take(n)] + rest);
        assert(is_word(s.take(n)));
        assert forall|k: int| 0 <= k < words(s).len() implies is_word(#[trigger] words(s)[k]) by {
            if k > 0 {
                assert(words(s)[k] == rest[k - 1]);
            } else {
                assert(words(s)[0] == s.take(n));
            }
        }
    }
}

/// Whether the next word can be told from the text laid out so far: where
/// it will start a line, the text is empty or ends in whitespace.
pub open spec fn parts_words(l: Layout) -> bool {
    l.col == 0 ==> l.text.len() == 0 || is_ascii_space(l.text.last())
}

/// A word that is placed becomes the last word of the text.
pub proof fn lemma_placed_word(l: Layout, w: Seq<char>, indent: nat)
    requires
        is_word(w),
        parts_words(l),
    ensures
        words(place_word(l, w, indent).text) == words(l.text).push(w),
        place_word(l, w, indent).col > 0,
{
    let gap = lead(l.col, w.len(), indent);
    assert(is_blank(gap));
    lemma_blank_has_no_words(gap);
    lemma_word_is_its_words(w);
    if gap.len() > 0 {
        assert(is_ascii_space(gap[0]));
        assert((l.text + gap).last() == gap.last());
        assert(is_ascii_space(gap.last()));
    } else {
        assert(l.col == 0);
        assert(l.text + gap =~= l.text);
    }
    lemma_words_concat(l.text, gap);
    lemma_words_concat(l.text + gap, w);
    assert(words(l.text) + Seq::<Seq<char>>::empty() + seq![w] =~= words(l.text).push(w));
}

/// Words that are placed follow the words of the text, in their order.
pub proof fn lemma_placed_words(l: Layout, ws: Seq<Seq<char>>, indent: nat)
    requires
        forall|k: int| 0 <= k < ws.len() ==> is_word(#[trigger] ws[k]),
        parts_words(l),
    ensures
        words(place_words(l, ws, indent).text) == words(l.text) + ws,
        parts_words(place_words(l, ws, indent)),
    decreases ws.len(),
{
    if ws.len() == 0 {
        assert(words(l.text) + ws =~= words(l.text));
    } else {
        let before = ws.drop_last();
        assert forall|k: int| 0 <= k < before.len() implies is_word(#[trigger] before[k]) by {
            assert(before[k] == ws[k]);
        }
        lemma_placed_words(l, before, indent);
        assert(is_word(ws.last()));
        lemma_placed_word(place_words(l, before, indent), ws.last(), indent);
        assert((words(l.text) + before).push(ws.last()) =~= words(l.text) + ws);
    }
}

/// A doc line that is placed adds the words of the trimmed line to the
/// words of the text.
pub proof fn lemma_placed_line(l: Layout, line: Seq<char>, indent: nat)
    requires
        parts_words(l),
    ensures
        words(place_line(l, line, indent).text) == words(l.text) + words(trimmed(line)),
        parts_words(place_line(l, line, indent)),
{
    let d = trimmed(line);
    if d.len() == 0 {
        let br = seq!['\n'];
        assert(is_blank(br));
        lemma_blank_has_no_words(br);
        assert(l.text.push('\n') =~= l.text + br);
        lemma_words_concat(l.text, br);
        assert(words(l.text) + words(d) =~= words(l.text));
        assert(words(l.text) + words(br) =~= words(l.text));
        assert(l.text.push('\n').last() == '\n');
    } else {
        lemma_words_are_words(d);
        lemma_placed_words(l, words(d), indent);
    }
}

/// Doc lines that are placed add the words of each trimmed line, in order.
pub proof fn lemma_placed_lines(l: Layout, lines: Seq<Seq<char>>, indent: nat)
    requires
        parts_words(l),
    ensures
        words(place_lines(l, lines, indent).text) == words(l.text) + all_words(trimmed_all(lines)),
        parts_words(place_lines(l, lines, indent)),
    decreases lines.len(),
{
    if lines.len() == 0 {
        assert(trimmed_all(lines) =~= Seq::<Seq<char>>::empty());
        assert(words(l.text) + all_words(trimmed_all(lines)) =~= words(l.text));
    } else {
        let before = lines.drop_last();
        lemma_placed_lines(l, before, indent);
        lemma_placed_line(place_lines(l, before, indent), lines.last(), indent);
        assert(trimmed_all(lines).drop_last() =~= trimmed_all(before));
        assert(trimmed_all(lines).last() == trimmed(lines.last()));
        assert(words(l.text) + all_words(trimmed_all(before)) + words(trimmed(lines.last()))
            =~= words(l.text) + all_words(trimmed_all(lines)));
    }
}

/// Items behind a text, each behind whitespace, add their words to the words
/// of the text.
pub proof fn lemma_surrounded_words(
    head: Seq<char>,
    items: Seq<Seq<char>>,
    before: Seq<char>,
    after: Seq<char>,
)
    requires
        before.len() > 0,
        is_ascii_space(before[0]),
    ensures
        words(head + surround(items, before, after)) == words(head) + all_words(
            framed(items, before.drop_first(), after),
        ),
    decreases items.len(),
{
    let shown = framed(items, before.drop_first(), after);
    if items.len() == 0 {
        assert(head + surround(items, before, after) =~= head);
        assert(shown =~= Seq::<Seq<char>>::empty());
        assert(words(head) + all_words(shown) =~= words(head));
    } else {
        let first = items.drop_last();
        let piece = before + items.last() + after;
        assert(head + surround(items, before, after) =~= (head + surround(first, before, after))
            + piece);
        assert(piece[0] == before[0]);
        lemma_words_concat(head + surround(first, before, after), piece);
        lemma_surrounded_words(head, first, before, after);
        assert(piece.drop_first() =~= before.drop_first() + items.last() + after);
        assert(words(piece) == words(piece.drop_first()));
        assert(shown.drop_last() =~= framed(first, before.drop_first(), after));
        assert(shown.last() == before.drop_first() + items.last() + after);
        assert(words(head) + all_words(shown.drop_last()) + words(shown.last()) =~= words(head)
            + all_words(shown));
    }
}

/// Every word of the wrapped entry of a flag stems from the flag: the
/// words of the entry are those of its trimmed aliases, its parameters in
/// angle brackets and its trimmed doc lines, in this order.
pub proof fn lemma_entry_words(f: FlagText)
    ensures
        words(wrapped_entry(f)) == entry_words(f),
{
    if f.flags.len() > 0 {
        let none = Seq::<Seq<char>>::empty();
        let a = seq![' ', ' '];
        let aliases = surround(trimmed_all(f.flags), seq![' '], Seq::empty());
        let params = surround(f.params, seq![' ', '<'], seq!['>']);
        let br = seq!['\n'];
        let body = doc_body(f.doc, DOC_INDENT as nat);
        let end = seq!['\n', '\n'];
        assert(is_blank(a) && is_blank(br) && is_blank(end));
        lemma_blank_has_no_words(a);
        lemma_blank_has_no_words(br);
        lemma_blank_has_no_words(end);
        lemma_surrounded_words(a, trimmed_all(f.flags), seq![' '], Seq::empty());
        assert(seq![' '].drop_first() =~= Seq::<char>::empty());
        assert(framed(trimmed_all(f.flags), Seq::empty(), Seq::empty()) =~= trimmed_all(f.flags))
            by {
            assert forall|i: int| 0 <= i < f.flags.len() implies #[trigger] framed(
                trimmed_all(f.flags),
                Seq::empty(),
                Seq::empty(),
            )[i] == trimmed_all(f.flags)[i] by {
                let t = trimmed_all(f.flags)[i];
                assert(Seq::<char>::empty() + t + Seq::<char>::empty() =~= t);
            }
        }
        assert(words(a + aliases) == none + all_words(trimmed_all(f.flags)));
        lemma_surrounded_words(a + aliases, f.params, seq![' ', '<'], seq!['>']);
        assert(seq![' ', '<'].drop_first() =~= seq!['<']);
        lemma_words_concat(a + aliases + params, br);
        assert((a + aliases + params + br).last() == '\n');
        let start = Layout { text: Seq::empty(), col: 0 };
        lemma_placed_lines(start, f.doc, DOC_INDENT as nat);
        assert(words(start.text) =~= none);
        assert(words(body) =~= all_words(trimmed_all(f.doc)));
        lemma_words_concat(a + aliases + params + br, body);
        lemma_words_concat(a + aliases + params + br + body, end);
        assert(words(wrapped_entry(f)) =~= entry_words(f));
    } else {
        assert(words(wrapped_entry(f)) =~= entry_words(f));
    }
}

/// Every word of the wrapped help stems from a flag that is rendered: the
/// words of the help text are the words of its entries, flag by flag. A
/// word that no rendered flag holds is therefore not in the text.
pub proof fn lemma_help_words(flags: Seq<FlagText>)
    ensures
        words(wrapped_help(flags)) == help_words(flags),
    decreases flags.len(),
{
    if flags.len() > 0 {
        let entry = wrapped_entry(flags.last());
        lemma_help_words(flags.drop_last());
        lemma_entry_words(flags.last());
        if entry.len() > 0 {
            assert(entry[0] == ' ');
        }
        lemma_words_concat(wrapped_help(flags.drop_last()), entry);
    }
}

/// Whether the word `h` stems from the flag `f`: the flag has an alias, and
/// `h` is a word of one of its trimmed aliases, of one of its parameters in
/// angle brackets, or of one of its trimmed doc lines.
pub open spec fn stems_from(h: Seq<char>, f: FlagText) -> bool {
    &&& f.flags.len() > 0
    &&& {
        ||| exists|j: int| 0 <= j < f.flags.len() && words(trimmed(#[trigger] f.flags[j])).contains(h)
        ||| exists|j: int|
            0 <= j < f.params.len() && words(seq!['<'] + #[trigger] f.params[j] + seq!['>']).contains(
                h,
            )
        ||| exists|j: int| 0 <= j < f.doc.len() && words(trimmed(#[trigger] f.doc[j])).contains(h)
    }
}

/// A word among the words of some items is a word of one of the items.
pub proof fn lemma_all_words_source(items: Seq<Seq<char>>, h: Seq<char>)
    requires
        all_words(items).contains(h),
    ensures
        exists|j: int| 0 <= j < items.len() && words(#[trigger] items[j]).contains(h),
    decreases items.len(),
{
    if items.len() > 0 {
        let first = all_words(items.drop_last());
        let k = choose|k: int| 0 <= k < all_words(items).len() && all_words(items)[k] == h;
        if k < first.len() {
            assert(first[k] == h);
            lemma_all_words_source(items.drop_last(), h);
            let j = choose|j: int|
                0 <= j < items.drop_last().len() && words(#[trigger] items.drop_last()[j]).contains(h);
            assert(items[j] == items.drop_last()[j]);
        } else {
            assert(words(items.last())[k - first.len()] == h);
            assert(words(items[items.len() - 1]).contains(h));
        }
    }
}

/// A word of the wrapped entry of a flag stems from the flag.
pub proof fn lemma_entry_word_source(f: FlagText, h: Seq<char>)
    requires
        words(wrapped_entry(f)).contains(h),
    ensures
        stems_from(h, f),
{
    lemma_entry_words(f);
    let a = all_words(trimmed_all(f.flags));
    let p = all_words(framed(f.params, seq!['<'], seq!['>']));
    let d = all_words(trimmed_all(f.doc));
    let k = choose|k: int| 0 <= k < entry_words(f).len() && entry_words(f)[k] == h;
    if k < a.len() {
        assert(a[k] == h);
        lemma_all_words_source(trimmed_all(f.flags), h);
        let j = choose|j: int|
            0 <= j < f.flags.len() && words(#[trigger] trimmed_all(f.flags)[j]).contains(h);
        assert(words(trimmed(f.flags[j])).contains(h));
    } else if k < a.len() + p.len() {
        assert(p[k - a.len()] == h);
        lemma_all_words_source(framed(f.params, seq!['<'], seq!['>']), h);
        let j = choose|j: int|
            0 <= j < f.params.len() && words(
                #[trigger] framed(f.params, seq!['<'], seq!['>'])[j],
            ).contains(h);
        assert(words(seq!['<'] + f.params[j] + seq!['>']).contains(h));
    } else {
        assert(d[k - a.len() - p.len()] == h);
        lemma_all_words_source(trimmed_all(f.doc), h);
        let j = choose|j: int|
            0 <= j < f.doc.len() && words(#[trigger] trimmed_all(f.doc)[j]).contains(h);
        assert(words(trimmed(f.doc[j])).contains(h));
    }
}

/// Every word of the wrapped help stems from one of the flags given: a
/// word that none of them holds, such as an alias or a doc word of a rule
/// that was left out as hidden, is not in the text.
pub proof fn lemma_help_word_source(flags: Seq<FlagText>, h: Seq<char>)
    requires
        words(wrapped_help(flags)).contains(h),
    ensures
        exists|i: int| 0 <= i < flags.len() && stems_from(h, #[trigger] flags[i]),
    decreases flags.len(),
{
    lemma_help_words(flags);
    if flags.len() > 0 {
        lemma_help_words(flags.drop_last());
        lemma_entry_words(flags.last());
        let first = help_words(flags.drop_last());
        let k = choose|k: int| 0 <= k < help_words(flags).len() && help_words(flags)[k] == h;
        if k < first.len() {
            assert(first[k] == h);
            lemma_help_word_source(flags.drop_last(), h);
            let i = choose|i: int|
                0 <= i < flags.drop_last().len() && stems_from(h, #[trigger] flags.drop_last()[i]);
            assert(flags[i] == flags.drop_last()[i]);
        } else {
            assert(entry_words(flags.last())[k - first.len()] == h);
            lemma_entry_word_source(flags.last(), h);
            assert(stems_from(h, flags[flags.len() - 1]));
        }
    }
}

/// Each help entry of a table is the entry of one of its visible rules.
pub proof fn lemma_doc_entry_source(rules: Seq<RuleText>, k: int)
    requires
        0 <= k < doc_entries(rules).len(),
    ensures
        exists|i: int|
            0 <= i < rules.len() && (#[trigger] rules[i]).visible && rules[i].entry()
                == doc_entries(rules)[k],
    decreases rules.len(),
{
    if rules.len() > 0 {
        let first = rules.drop_last();
        if k < doc_entries(first).len() {
            lemma_doc_entry_source(first, k);
            let i = choose|i: int|
                0 <= i < first.len() && (#[trigger] first[i]).visible && first[i].entry()
                    == doc_entries(first)[k];
            assert(rules[i] == first[i]);
        } else {
            assert(rules[rules.len() - 1].visible);
        }
    }
}

/// A hidden rule shows no word in the wrapped help of its table: every
/// word there stems from a visible rule. So a word that only hidden rules
/// hold is not in the text.
pub proof fn lemma_shown_word_stems_from_visible_rule(rules: Seq<RuleText>, h: Seq<char>)
    requires
        words(wrapped_help(doc_entries(rules))).contains(h),
    ensures
        exists|i: int|
            0 <= i < rules.len() && (#[trigger] rules[i]).visible && stems_from(
                h,
                rules[i].entry(),
            ),
{
    let shown = doc_entries(rules);
    lemma_help_word_source(shown, h);
    let k = choose|k: int| 0 <= k < shown.len() && stems_from(h, #[trigger] shown[k]);
    lemma_doc_entry_source(rules, k);
}

} // verus!
