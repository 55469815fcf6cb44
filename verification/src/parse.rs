//! The dispatcher: from raw argument tokens to matched rules and their
//! parameter values.
//!
//! A [`ParseSession`] walks over the tokens. Each call of
//! [`ParseSession::next`] yields one [`Dispatch`]: the rule that the next
//! flag matched, with the values taken for its parameters. The caller acts
//! on it, and may [`ParseSession::stop`] the session; the tokens not yet
//! taken are then still there to be had.
//!
//! What a session does is stated by the spec function [`step`] over
//! [`SessionState`], the view of a session.

use vstd::prelude::*;
use vstd::slice::slice_subrange;
use crate::docs::{FlagDescriptor, RuleText, rule_texts};
use crate::table::{FlagTable, find_catch_all, first_catch_all};
use crate::text::{chars_of, same_text, string_of, texts};

verus! {

/// What is left to parse.
pub struct SessionState {
    /// The flag characters of a cluster such as `-abc` that are still to be
    /// dispatched.
    pub residue: Seq<char>,
    /// Whether the session was stopped.
    pub stopped: bool,
    /// The tokens not yet taken.
    pub tokens: Seq<Seq<char>>,
}

/// The short flag of one character: a dash and the character.
pub open spec fn short_flag(c: char) -> Seq<char> {
    seq!['-', c]
}

/// Whether `t` clusters short flags: one dash, then two characters or more.
pub open spec fn is_cluster(t: Seq<char>) -> bool {
    t.len() > 2 && t[0] == '-' && t[1] != '-'
}

/// Whether `t` starts with two dashes.
pub open spec fn is_long(t: Seq<char>) -> bool {
    t.len() >= 2 && t[0] == '-' && t[1] == '-'
}

/// A token as it comes out of the session, and the state that it leaves.
pub struct Fetched {
    pub token: Seq<char>,
    pub state: SessionState,
}

/// The next token. While a cluster is being worked off, that is the short
/// flag of its next character. Otherwise it is the next token of the stream,
/// or, where that token is a cluster, the short flag of its first flag
/// character, the rest becoming the residue. A stopped or exhausted session
/// has none.
pub open spec fn fetch(s: SessionState) -> Option<Fetched> {
    if s.stopped {
        None
    } else if s.residue.len() > 0 {
        Some(
            Fetched {
                token: short_flag(s.residue[0]),
                state: SessionState { residue: s.residue.drop_first(), ..s },
            },
        )
    } else if s.tokens.len() > 0 {
        let t = s.tokens[0];
        let rest = s.tokens.drop_first();
        if is_cluster(t) {
            Some(
                Fetched {
                    token: short_flag(t[1]),
                    state: SessionState { residue: t.skip(2), stopped: false, tokens: rest },
                },
            )
        } else {
            Some(
                Fetched {
                    token: t,
                    state: SessionState { residue: Seq::empty(), stopped: false, tokens: rest },
                },
            )
        }
    } else {
        None
    }
}

/// Index of the first `=` of `t` at or after `from`.
pub open spec fn first_equals(t: Seq<char>, from: int) -> Option<int>
    decreases t.len() - from,
{
    if from < 0 || from >= t.len() {
        None
    } else if t[from] == '=' {
        Some(from)
    } else {
        first_equals(t, from + 1)
    }
}

/// The part of a token that names the flag: for a long flag written as
/// `--flag=value` what stands before the first `=`, else the whole token.
pub open spec fn flag_part(t: Seq<char>) -> Seq<char> {
    if is_long(t) {
        match first_equals(t, 0) {
            Some(i) => t.take(i),
            None => t,
        }
    } else {
        t
    }
}

/// The value that a long flag written as `--flag=value` carries: what
/// stands behind the first `=`.
pub open spec fn stashed_value(t: Seq<char>) -> Option<Seq<char>> {
    if is_long(t) {
        match first_equals(t, 0) {
            Some(i) => Some(t.skip(i + 1)),
            None => None,
        }
    } else {
        None
    }
}

/// Whether `rule` is a flag that takes part in matching and has `token`
/// among its aliases.
pub open spec fn names(rule: RuleText, token: Seq<char>) -> bool {
    rule.dispatchable() && !rule.is_catch_all && rule.aliases.contains(token)
}

/// Index of the first rule at or after `from` that names `token`.
pub open spec fn first_named(rules: Seq<RuleText>, token: Seq<char>, from: int) -> Option<int>
    decreases rules.len() - from,
{
    if from < 0 || from >= rules.len() {
        None
    } else if names(rules[from], token) {
        Some(from)
    } else {
        first_named(rules, token, from + 1)
    }
}

/// The values at hand before the stream is asked: the value that came with
/// `=`, and the rest of a cluster, taken as one value (`-Wall` gives `-W`
/// the value `all`). A token never leaves both.
pub open spec fn pending(residue: Seq<char>, stash: Option<Seq<char>>) -> Seq<Seq<char>> {
    let first = match stash {
        Some(v) => seq![v],
        None => Seq::empty(),
    };
    if residue.len() > 0 {
        first.push(residue)
    } else {
        first
    }
}

/// The first `n` of the values `avail`, absent where `avail` runs out.
pub open spec fn pulled(avail: Seq<Seq<char>>, n: nat) -> Seq<Option<Seq<char>>> {
    Seq::new(
        n,
        |k: int|
            if k < avail.len() {
                Some(avail[k])
            } else {
                None
            },
    )
}

/// How many tokens of a stream of `len` are taken for `n` parameters of
/// which `ready` are at hand already.
pub open spec fn taken(n: nat, ready: nat, len: nat) -> nat {
    if n <= ready {
        0
    } else if n - ready <= len {
        (n - ready) as nat
    } else {
        len
    }
}

/// One dispatched flag occurrence.
pub enum DispatchText {
    /// The rule at `rule` names `alias`; `params` holds a value, or its
    /// absence, for each of the rule's parameters.
    Flag { rule: int, alias: Seq<char>, params: Seq<Option<Seq<char>>> },
    /// No rule names the flag part of `token`; the catch-all at `rule`
    /// takes the token.
    CatchAll { rule: int, token: Seq<char> },
    /// No rule names the flag part of `token`, and the table has no
    /// catch-all.
    Unmatched { token: Seq<char> },
}

/// A dispatch and the state that it leaves.
pub struct Step {
    pub event: DispatchText,
    pub state: SessionState,
}

/// One step of the dispatcher.
///
/// The next token is fetched and parted at `=`. The first rule that names
/// its flag part is matched and given its values: first what is at hand
/// (see [`pending`]), then tokens of the stream, one for each parameter
/// still open. A value that came with `=` and was not taken is dropped.
/// With no such rule the token, whole as it was fetched, goes to the
/// catch-all, or is reported as unmatched.
pub open spec fn step(rules: Seq<RuleText>, s: SessionState) -> Option<Step> {
    match fetch(s) {
        None => None,
        Some(f) => {
            let flag = flag_part(f.token);
            match first_named(rules, flag, 0) {
                Some(i) => {
                    let n = rules[i].parameter_count();
                    let ready = pending(f.state.residue, stashed_value(f.token));
                    let event = DispatchText::Flag {
                        rule: i,
                        alias: flag,
                        params: pulled(ready + f.state.tokens, n),
                    };
                    if n == 0 {
                        Some(Step { event, state: f.state })
                    } else {
                        Some(
                            Step {
                                event,
                                state: SessionState {
                                    residue: Seq::empty(),
                                    stopped: false,
                                    tokens: f.state.tokens.skip(
                                        taken(n, ready.len(), f.state.tokens.len()) as int,
                                    ),
                                },
                            },
                        )
                    }
                },
                None => match first_catch_all(rules, 0) {
                    Some(i) => Some(
                        Step {
                            event: DispatchText::CatchAll { rule: i, token: f.token },
                            state: f.state,
                        },
                    ),
                    None => Some(
                        Step { event: DispatchText::Unmatched { token: f.token }, state: f.state },
                    ),
                },
            }
        },
    }
}

/// The dispatches of a session that is run until nothing is left, in
/// order.
pub open spec fn run(rules: Seq<RuleText>, s: SessionState) -> Seq<DispatchText>
    decreases s.tokens.len(), s.residue.len(),
{
    match step(rules, s) {
        None => Seq::empty(),
        Some(st) => seq![st.event] + run(rules, st.state),
    }
}

/// The state of a session over `tokens` of which nothing was taken.
pub open spec fn start(tokens: Seq<Seq<char>>) -> SessionState {
    SessionState { residue: Seq::empty(), stopped: false, tokens }
}

/// The state of a session after `n` more dispatches, or after as many as
/// there are.
pub open spec fn after(rules: Seq<RuleText>, s: SessionState, n: nat) -> SessionState
    decreases n,
{
    if n == 0 {
        s
    } else {
        match step(rules, s) {
            Some(st) => after(rules, st.state, (n - 1) as nat),
            None => s,
        }
    }
}

/// Builds the text of single-character flags.
pub struct FlagView {
    buf: String,
}

impl View for FlagView {
    type V = Seq<char>;

    closed spec fn view(&self) -> Seq<char> {
        self.buf@
    }
}

impl FlagView {
    /// A view that holds no text yet.
    pub fn new() -> (v: Self)
        ensures
            v@ == Seq::<char>::empty(),
    {
        Self { buf: String::new() }
    }

    /// The short flag of `flag`: a dash followed by the character.
    pub fn get(&mut self, flag: char) -> (text: &str)
        ensures
            text@ == short_flag(flag),
            final(self)@ == short_flag(flag),
    {
        let mut buf = String::new();
        buf.push('-');
        buf.push(flag);
        self.buf = buf;
        assert(self.buf@ =~= short_flag(flag));
        self.buf.as_str()
    }
}

/// The texts of a list of strings.
pub open spec fn string_texts(items: Seq<String>) -> Seq<Seq<char>> {
    Seq::new(items.len(), |i: int| items[i]@)
}

/// The texts of a list of values, each present or absent.
pub open spec fn option_texts(items: Seq<Option<String>>) -> Seq<Option<Seq<char>>> {
    Seq::new(
        items.len(),
        |i: int|
            match items[i] {
                Some(s) => Some(s@),
                None => None,
            },
    )
}

/// The text of a value that may be absent.
pub open spec fn option_text(item: Option<String>) -> Option<Seq<char>> {
    match item {
        Some(s) => Some(s@),
        None => None,
    }
}

/// One dispatched flag occurrence, handed to the caller to act on.
#[derive(Debug, PartialEq, Eq)]
pub enum Dispatch {
    /// The rule at index `rule` of the table was matched by `alias`, the
    /// alias as it was written. `params` holds one entry for each parameter
    /// of the rule: the value taken for it, or `None` where the tokens ran
    /// out.
    Flag { rule: usize, alias: String, params: Vec<Option<String>> },
    /// No flag is named as `token` asks; the token, whole, falls to the
    /// catch-all at index `rule`.
    CatchAll { rule: usize, token: String },
    /// No flag is named as `token` asks, and the table has no catch-all to
    /// take it. What to make of it is left to the caller.
    Unmatched { token: String },
}

impl View for Dispatch {
    type V = DispatchText;

    open spec fn view(&self) -> DispatchText {
        match self {
            Dispatch::Flag { rule, alias, params } => DispatchText::Flag {
                rule: *rule as int,
                alias: alias@,
                params: option_texts(params@),
            },
            Dispatch::CatchAll { rule, token } => DispatchText::CatchAll {
                rule: *rule as int,
                token: token@,
            },
            Dispatch::Unmatched { token } => DispatchText::Unmatched { token: token@ },
        }
    }
}

/// The views of a list of dispatches.
pub open spec fn dispatch_texts(events: Seq<Dispatch>) -> Seq<DispatchText> {
    Seq::new(events.len(), |i: int| events[i]@)
}

/// The characters of the short flag of `c`, as [`FlagView`] builds it.
fn short_flag_chars(c: char) -> (v: Vec<char>)
    ensures
        v@ == short_flag(c),
{
    let mut view = FlagView::new();
    chars_of(view.get(c))
}

/// Parts a token at its first `=` if it is a long flag: returns the length
/// of the flag part and the value behind the `=`.
fn split_value(token: &[char]) -> (r: (usize, Option<String>))
    ensures
        r.0 <= token@.len(),
        token@.take(r.0 as int) == flag_part(token@),
        match r.1 {
            Some(v) => stashed_value(token@) == Some(v@),
            None => stashed_value(token@) is None,
        },
{
    let n: usize = token.len();
    assert(token@.take(n as int) =~= token@);
    if n >= 2 && token[0] == '-' && token[1] == '-' {
        let mut i: usize = 0;
        while i < n
            invariant
                i <= n == token@.len(),
                is_long(token@),
                first_equals(token@, 0) == first_equals(token@, i as int),
            decreases n - i,
        {
            if token[i] == '=' {
                let value = string_of(token, i + 1, n);
                assert(token@.skip(i + 1) =~= token@.subrange(i + 1, n as int));
                return (i, Some(value));
            }
            i += 1;
        }
        (n, None)
    } else {
        (n, None)
    }
}

/// Finds the first rule that names `flag`.
fn find_named(rules: &[FlagDescriptor], flag: &[char]) -> (found: Option<usize>)
    ensures
        match found {
            Some(i) => i < rules@.len() && first_named(rule_texts(rules@), flag@, 0) == Some(
                i as int,
            ),
            None => first_named(rule_texts(rules@), flag@, 0) is None,
        },
{
    let ghost all = rule_texts(rules@);
    let mut i: usize = 0;
    while i < rules.len()
        invariant
            all == rule_texts(rules@),
            first_named(all, flag@, 0) == first_named(all, flag@, i as int),
        decreases rules@.len() - i,
    {
        let rule = &rules[i];
        if !rule.is_fake && !rule.is_catch_all {
            let ghost aliases = texts(rule.aliases@);
            let mut j: usize = 0;
            while j < rule.aliases.len()
                invariant
                    aliases == texts(rule.aliases@),
                    forall|k: int| 0 <= k < j ==> aliases[k] != flag@,
                    i < rules@.len(),
                    all == rule_texts(rules@),
                    all[i as int].aliases == aliases,
                    names(all[i as int], flag@) == aliases.contains(flag@),
                    first_named(all, flag@, 0) == first_named(all, flag@, i as int),
                decreases rule.aliases@.len() - j,
            {
                if same_text(rule.aliases[j], flag) {
                    assert(aliases[j as int] == flag@);
                    return Some(i);
                }
                j += 1;
            }
            assert(!aliases.contains(flag@));
        }
        i += 1;
    }
    None
}

/// A walk over argument tokens that hands out one [`Dispatch`] at a time.
pub struct ParseSession {
    tokens: Vec<String>,
    pos: usize,
    residue: Vec<char>,
    rpos: usize,
    stopped: bool,
}

impl View for ParseSession {
    type V = SessionState;

    closed spec fn view(&self) -> SessionState {
        SessionState {
            residue: if self.rpos <= self.residue@.len() {
                self.residue@.skip(self.rpos as int)
            } else {
                Seq::empty()
            },
            stopped: self.stopped,
            tokens: if self.pos <= self.tokens@.len() {
                string_texts(self.tokens@.skip(self.pos as int))
            } else {
                Seq::empty()
            },
        }
    }
}

impl ParseSession {
    /// A session over `tokens`, with nothing taken yet.
    pub fn new(tokens: Vec<String>) -> (s: Self)
        ensures
            s@ == (SessionState {
                residue: Seq::empty(),
                stopped: false,
                tokens: string_texts(tokens@),
            }),
    {
        let s = ParseSession { tokens, pos: 0, residue: Vec::new(), rpos: 0, stopped: false };
        assert(s.tokens@.skip(0) =~= s.tokens@);
        assert(s.residue@.skip(0) =~= Seq::<char>::empty());
        s
    }

    /// Takes the next token out of the session; see [`fetch`].
    fn fetch_token(&mut self) -> (token: Option<Vec<char>>)
        ensures
            match fetch(old(self)@) {
                Some(f) => token matches Some(v) && v@ == f.token && final(self)@ == f.state,
                None => token is None && final(self)@ == old(self)@,
            },
    {
        if self.stopped {
            None
        } else if self.rpos < self.residue.len() {
            let c = self.residue[self.rpos];
            assert(self.residue@.skip(self.rpos as int).drop_first() =~= self.residue@.skip(
                self.rpos + 1,
            ));
            self.rpos += 1;
            Some(short_flag_chars(c))
        } else if self.pos < self.tokens.len() {
            let t = chars_of(self.tokens[self.pos].as_str());
            assert(string_texts(self.tokens@.skip(self.pos as int)).drop_first() =~= string_texts(
                self.tokens@.skip(self.pos + 1),
            ));
            assert(self@.residue =~= Seq::<char>::empty());
            self.pos += 1;
            if t.len() > 2 && t[0] == '-' && t[1] != '-' {
                let first = short_flag_chars(t[1]);
                self.residue = t;
                self.rpos = 2;
                Some(first)
            } else {
                Some(t)
            }
        } else {
            assert(self@.residue =~= Seq::<char>::empty());
            assert(self@.tokens =~= Seq::<Seq<char>>::empty());
            None
        }
    }

    /// Takes the values for the `n` parameters of a matched flag: those at
    /// hand first, then tokens of the stream.
    fn pull_params(&mut self, n: usize, stash: Option<String>) -> (params: Vec<Option<String>>)
        requires
            n > 0,
        ensures
            option_texts(params@) == pulled(
                pending(old(self)@.residue, option_text(stash)) + old(self)@.tokens,
                n as nat,
            ),
            final(self)@ == (SessionState {
                residue: Seq::empty(),
                stopped: old(self)@.stopped,
                tokens: old(self)@.tokens.skip(
                    taken(
                        n as nat,
                        pending(old(self)@.residue, option_text(stash)).len(),
                        old(self)@.tokens.len(),
                    ) as int,
                ),
            }),
    {
        let ghost before = self@;
        let ghost stream = before.tokens;
        let mut ready: Vec<String> = Vec::new();
        match stash {
            Some(v) => {
                ready.push(v);
            },
            None => {},
        }
        if self.rpos < self.residue.len() {
            let rest = string_of(self.residue.as_slice(), self.rpos, self.residue.len());
            assert(rest@ =~= before.residue);
            ready.push(rest);
        }
        assert(string_texts(ready@) =~= pending(before.residue, option_text(stash)));
        self.rpos = self.residue.len();
        assert(self@.residue =~= Seq::<char>::empty());
        let ghost avail = string_texts(ready@) + stream;
        let mut params: Vec<Option<String>> = Vec::new();
        let mut k: usize = 0;
        assert(stream.skip(0) =~= stream);
        assert(option_texts(params@) =~= pulled(avail, 0));
        while k < n
            invariant
                k <= n,
                ready@.len() <= 2,
                avail == string_texts(ready@) + stream,
                params@.len() == k,
                option_texts(params@) == pulled(avail, k as nat),
                self@ == (SessionState {
                    residue: Seq::empty(),
                    stopped: before.stopped,
                    tokens: stream.skip(taken(k as nat, ready@.len(), stream.len()) as int),
                }),
            decreases n - k,
        {
            let ghost sofar = option_texts(params@);
            let ghost used = taken(k as nat, ready@.len(), stream.len()) as int;
            if k < ready.len() {
                let value = ready[k].clone();
                assert(value@ == avail[k as int]);
                params.push(Some(value));
                assert(option_texts(params@) =~= sofar.push(Some(avail[k as int])));
            } else if self.pos < self.tokens.len() {
                let value = self.tokens[self.pos].clone();
                assert(self@.tokens.len() > 0);
                assert(used < stream.len());
                assert(value@ == self@.tokens[0]);
                assert(self@.tokens[0] == stream[used]);
                assert(avail[k as int] == stream[k - ready@.len()]);
                assert(string_texts(self.tokens@.skip(self.pos as int)).drop_first()
                    =~= string_texts(self.tokens@.skip(self.pos + 1)));
                assert(stream.skip(used).drop_first() =~= stream.skip(used + 1));
                self.pos += 1;
                params.push(Some(value));
                assert(option_texts(params@) =~= sofar.push(Some(avail[k as int])));
            } else {
                assert(self@.tokens =~= Seq::<Seq<char>>::empty());
                assert(used == stream.len());
                params.push(None);
                assert(option_texts(params@) =~= sofar.push(None));
            }
            k += 1;
            assert(option_texts(params@) =~= pulled(avail, k as nat));
        }
        params
    }

    /// Dispatches the next flag occurrence, if there is one: see [`step`].
    ///
    /// Returns `None` when the session was stopped or everything was
    /// taken; the session is then left as it is.
    pub fn next(&mut self, table: &FlagTable) -> (event: Option<Dispatch>)
        ensures
            match step(table@, old(self)@) {
                Some(st) => event matches Some(d) && d@ == st.event && final(self)@ == st.state,
                None => event is None && final(self)@ == old(self)@,
            },
    {
        let token = match self.fetch_token() {
            Some(token) => token,
            None => {
                return None;
            },
        };
        let (end, stash) = split_value(token.as_slice());
        let flag = slice_subrange(token.as_slice(), 0, end);
        assert(flag@ =~= flag_part(token@));
        let rules = table.rules();
        match find_named(rules, flag) {
            Some(rule) => {
                let n: usize = rules[rule].parameter_count();
                let alias = string_of(flag, 0, flag.len());
                assert(alias@ =~= flag@);
                let params = if n > 0 {
                    self.pull_params(n, stash)
                } else {
                    Vec::new()
                };
                assert(option_texts(params@) =~= pulled(
                    pending(fetch(old(self)@).unwrap().state.residue, option_text(stash)) + fetch(
                        old(self)@,
                    ).unwrap().state.tokens,
                    n as nat,
                ));
                Some(Dispatch::Flag { rule, alias, params })
            },
            None => {
                let text = string_of(token.as_slice(), 0, token.len());
                assert(text@ =~= token@);
                match find_catch_all(rules, 0) {
                    Some(rule) => Some(Dispatch::CatchAll { rule, token: text }),
                    None => Some(Dispatch::Unmatched { token: text }),
                }
            },
        }
    }

    /// Stops the session: no further flag is dispatched, and the tokens not
    /// yet taken stay where they are.
    pub fn stop(&mut self)
        ensures
            final(self)@ == (SessionState { stopped: true, ..old(self)@ }),
    {
        self.stopped = true;
    }

    /// The tokens that the session has not taken.
    pub fn into_remaining(self) -> (rest: Vec<String>)
        ensures
            string_texts(rest@) == self@.tokens,
    {
        let mut rest: Vec<String> = Vec::new();
        let mut i: usize = self.pos;
        if i > self.tokens.len() {
            assert(string_texts(rest@) =~= self@.tokens);
            return rest;
        }
        let ghost all = self.tokens@.skip(self.pos as int);
        while i < self.tokens.len()
            invariant
                self.pos <= i <= self.tokens@.len(),
                all == self.tokens@.skip(self.pos as int),
                string_texts(rest@) == string_texts(all.take(i - self.pos)),
            decreases self.tokens@.len() - i,
        {
            let ghost before = string_texts(rest@);
            let token = self.tokens[i].clone();
            rest.push(token);
            assert(string_texts(rest@) =~= before.push(token@));
            i += 1;
            assert(string_texts(all.take(i - self.pos)) =~= string_texts(
                all.take(i - self.pos - 1),
            ).push(token@));
        }
        assert(all.take(i - self.pos) =~= all);
        rest
    }
}

/// One more dispatch extends a run that was followed for `n` dispatches.
proof fn lemma_run_extends(rules: Seq<RuleText>, s: SessionState, n: nat)
    requires
        n <= run(rules, s).len(),
    ensures
        match step(rules, after(rules, s, n)) {
            Some(st) => {
                &&& n < run(rules, s).len()
                &&& run(rules, s)[n as int] == st.event
                &&& after(rules, s, n + 1) == st.state
            },
            None => n == run(rules, s).len() && after(rules, s, n + 1) == after(rules, s, n),
        },
    decreases n,
{
    if n == 0 {
        match step(rules, s) {
            Some(st) => {
                assert(after(rules, st.state, 0) == st.state);
            },
            None => {},
        }
    } else {
        let st = step(rules, s).unwrap();
        assert(run(rules, s) == seq![st.event] + run(rules, st.state));
        lemma_run_extends(rules, st.state, (n - 1) as nat);
        assert(after(rules, s, n) == after(rules, st.state, (n - 1) as nat));
        assert(after(rules, s, n + 1) == after(rules, st.state, n as nat));
    }
}

/// Dispatches every flag occurrence of `tokens`, in order: a session run
/// to its end.
pub fn parse(tokens: Vec<String>, table: &FlagTable) -> (events: Vec<Dispatch>)
    ensures
        dispatch_texts(events@) == run(table@, start(string_texts(tokens@))),
{
    let ghost begin = start(string_texts(tokens@));
    let mut session = ParseSession::new(tokens);
    let mut events: Vec<Dispatch> = Vec::new();
    assert(dispatch_texts(events@) + run(table@, session@) =~= run(table@, begin));
    loop
        invariant
            begin == start(string_texts(tokens@)),
            run(table@, begin) == dispatch_texts(events@) + run(table@, session@),
        decreases session@.tokens.len(), session@.residue.len(),
    {
        let ghost sofar = dispatch_texts(events@);
        let ghost rest = run(table@, session@);
        match session.next(table) {
            Some(event) => {
                events.push(event);
                assert(dispatch_texts(events@) =~= sofar.push(event@));
                assert(sofar + rest =~= dispatch_texts(events@) + run(table@, session@));
            },
            None => {
                assert(sofar + rest =~= sofar);
                return events;
            },
        }
    }
}

/// Dispatches flag occurrences to `handler` until the session is at its
/// end or the handler asks to stop by returning `true`.
///
/// Returns what was dispatched: the run of the session up to the point
/// where it ended. The handler has seen each of these, and answered `true`
/// to the last one at most. When it did, the session is stopped and keeps
/// the tokens that were not yet taken.
pub fn parse_with<F: Fn(&Dispatch) -> bool>(
    session: &mut ParseSession,
    table: &FlagTable,
    handler: F,
) -> (events: Vec<Dispatch>)
    requires
        forall|d: Dispatch| call_requires(handler, (&d,)),
    ensures
        events@.len() <= run(table@, old(session)@).len(),
        dispatch_texts(events@) == run(table@, old(session)@).take(events@.len() as int),
        forall|i: int|
            0 <= i < events@.len() - 1 ==> call_ensures(handler, (&#[trigger] events@[i],), false),
        events@.len() > 0 ==> call_ensures(
            handler,
            (&events@.last(),),
            final(session)@.stopped,
        ),
        events@.len() < run(table@, old(session)@).len() ==> final(session)@.stopped,
        final(session)@ == (SessionState {
            stopped: final(session)@.stopped,
            ..after(table@, old(session)@, events@.len() as nat)
        }),
        events@.len() == 0 ==> final(session)@ == old(session)@,
{
    let ghost begin = session@;
    let ghost all = run(table@, begin);
    let mut events: Vec<Dispatch> = Vec::new();
    assert(dispatch_texts(events@) =~= all.take(0));
    loop
        invariant
            forall|d: Dispatch| call_requires(handler, (&d,)),
            begin == old(session)@,
            all == run(table@, begin),
            events@.len() <= all.len(),
            dispatch_texts(events@) == all.take(events@.len() as int),
            forall|i: int|
                0 <= i < events@.len() ==> call_ensures(handler, (&#[trigger] events@[i],), false),
            session@ == after(table@, begin, events@.len() as nat),
            events@.len() == 0 ==> session@ == begin,
            events@.len() > 0 ==> !session@.stopped,
        decreases session@.tokens.len(), session@.residue.len(),
    {
        let ghost sofar = dispatch_texts(events@);
        proof {
            lemma_run_extends(table@, begin, events@.len() as nat);
        }
        match session.next(table) {
            Some(event) => {
                let stop = handler(&event);
                events.push(event);
                assert(dispatch_texts(events@) =~= sofar.push(event@));
                assert(all.take(events@.len() as int) =~= sofar.push(event@));
                if stop {
                    session.stop();
                    return events;
                }
            },
            None => {
                return events;
            },
        }
    }
}

} // verus!
