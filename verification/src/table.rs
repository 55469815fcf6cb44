//! The flag table: the declared rules, in order, checked once when the table
//! is built.
//!
//! A table is accepted when each rule is well formed and a catch-all that
//! takes part in matching is the last rule that does. That makes the
//! catch-all unique, and it makes "the first alias that matches, else the
//! catch-all" the same as trying the rules one after the other.

use vstd::prelude::*;
use crate::docs::{Flag, FlagDescriptor, FlagText, RuleText, flag_texts, rule_texts};

verus! {

/// Why a list of rules is not accepted as a table.
#[derive(Clone, Copy, Debug, PartialEq, Eq, Structural)]
pub enum ConfigError {
    /// The rule at `index` is a catch-all with an alias or without exactly
    /// one name, or a flag without any alias.
    MalformedRule { index: usize },
    /// The catch-all at `first` is followed by another one at `second`.
    MultipleCatchAll { first: usize, second: usize },
    /// The catch-all at `catch_all` is followed by the flag at `later`,
    /// which could then never match.
    CatchAllNotLast { catch_all: usize, later: usize },
}

/// Index of the first rule at or after `from` that is not well formed.
pub open spec fn first_malformed(rules: Seq<RuleText>, from: int) -> Option<int>
    decreases rules.len() - from,
{
    if from < 0 || from >= rules.len() {
        None
    } else if !rules[from].well_formed() {
        Some(from)
    } else {
        first_malformed(rules, from + 1)
    }
}

/// Index of the first catch-all at or after `from` that takes part in
/// matching.
pub open spec fn first_catch_all(rules: Seq<RuleText>, from: int) -> Option<int>
    decreases rules.len() - from,
{
    if from < 0 || from >= rules.len() {
        None
    } else if rules[from].dispatchable() && rules[from].is_catch_all {
        Some(from)
    } else {
        first_catch_all(rules, from + 1)
    }
}

/// Index of the first rule at or after `from` that takes part in matching.
pub open spec fn first_dispatchable(rules: Seq<RuleText>, from: int) -> Option<int>
    decreases rules.len() - from,
{
    if from < 0 || from >= rules.len() {
        None
    } else if rules[from].dispatchable() {
        Some(from)
    } else {
        first_dispatchable(rules, from + 1)
    }
}

/// The first defect of a list of rules, if it has one: the first malformed
/// rule; else whatever rule first follows the first catch-all in matching.
pub open spec fn defect(rules: Seq<RuleText>) -> Option<ConfigError> {
    match first_malformed(rules, 0) {
        Some(i) => Some(ConfigError::MalformedRule { index: i as usize }),
        None => match first_catch_all(rules, 0) {
            None => None,
            Some(c) => match first_dispatchable(rules, c + 1) {
                None => None,
                Some(j) => if rules[j].is_catch_all {
                    Some(ConfigError::MultipleCatchAll { first: c as usize, second: j as usize })
                } else {
                    Some(ConfigError::CatchAllNotLast { catch_all: c as usize, later: j as usize })
                },
            },
        },
    }
}

/// Every rule is well formed, and no rule that takes part in matching
/// follows a catch-all that does.
pub open spec fn valid_table(rules: Seq<RuleText>) -> bool {
    &&& forall|i: int| 0 <= i < rules.len() ==> (#[trigger] rules[i]).well_formed()
    &&& forall|i: int, j: int|
        0 <= i < j < rules.len() && (#[trigger] rules[i]).dispatchable() && rules[i].is_catch_all
            ==> !(#[trigger] rules[j]).dispatchable()
}

/// What [`first_malformed`] finds is the least index of a malformed rule.
pub proof fn lemma_first_malformed(rules: Seq<RuleText>, from: int)
    requires
        0 <= from,
    ensures
        match first_malformed(rules, from) {
            Some(i) => from <= i < rules.len() && !rules[i].well_formed() && forall|k: int|
                from <= k < i ==> (#[trigger] rules[k]).well_formed(),
            None => forall|k: int| from <= k < rules.len() ==> (#[trigger] rules[k]).well_formed(),
        },
    decreases rules.len() - from,
{
    if from < rules.len() && rules[from].well_formed() {
        lemma_first_malformed(rules, from + 1);
    }
}

/// What [`first_catch_all`] finds is the least index of a catch-all that
/// takes part in matching.
pub proof fn lemma_first_catch_all(rules: Seq<RuleText>, from: int)
    requires
        0 <= from,
    ensures
        match first_catch_all(rules, from) {
            Some(i) => from <= i < rules.len() && rules[i].dispatchable() && rules[i].is_catch_all
                && forall|k: int|
                from <= k < i ==> !((#[trigger] rules[k]).dispatchable() && rules[k].is_catch_all),
            None => forall|k: int|
                from <= k < rules.len() ==> !((#[trigger] rules[k]).dispatchable()
                    && rules[k].is_catch_all),
        },
    decreases rules.len() - from,
{
    if from < rules.len() && !(rules[from].dispatchable() && rules[from].is_catch_all) {
        lemma_first_catch_all(rules, from + 1);
    }
}

/// What [`first_dispatchable`] finds is the least index of a rule that
/// takes part in matching.
pub proof fn lemma_first_dispatchable(rules: Seq<RuleText>, from: int)
    requires
        0 <= from,
    ensures
        match first_dispatchable(rules, from) {
            Some(i) => from <= i < rules.len() && rules[i].dispatchable() && forall|k: int|
                from <= k < i ==> !(#[trigger] rules[k]).dispatchable(),
            None => forall|k: int|
                from <= k < rules.len() ==> !(#[trigger] rules[k]).dispatchable(),
        },
    decreases rules.len() - from,
{
    if from < rules.len() && !rules[from].dispatchable() {
        lemma_first_dispatchable(rules, from + 1);
    }
}

/// A list of rules has a defect exactly when it is not a valid table.
pub proof fn lemma_defect_iff_invalid(rules: Seq<RuleText>)
    ensures
        defect(rules) is None <==> valid_table(rules),
{
    lemma_first_malformed(rules, 0);
    match first_malformed(rules, 0) {
        Some(i) => {
            assert(!rules[i].well_formed());
        },
        None => {
            lemma_first_catch_all(rules, 0);
            match first_catch_all(rules, 0) {
                None => {},
                Some(c) => {
                    lemma_first_dispatchable(rules, c + 1);
                    match first_dispatchable(rules, c + 1) {
                        None => {
                            assert forall|i: int, j: int|
                                0 <= i < j < rules.len() && (#[trigger] rules[i]).dispatchable()
                                    && rules[i].is_catch_all implies !(
                            #[trigger] rules[j]).dispatchable() by {
                                assert(i >= c);
                            }
                        },
                        Some(j) => {
                            assert(rules[c].dispatchable() && rules[c].is_catch_all);
                            assert(rules[j].dispatchable());
                        },
                    }
                },
            }
        },
    }
}

/// The help entries of the visible rules, in order.
pub open spec fn doc_entries(rules: Seq<RuleText>) -> Seq<FlagText>
    decreases rules.len(),
{
    if rules.len() == 0 {
        Seq::empty()
    } else if rules.last().visible {
        doc_entries(rules.drop_last()).push(rules.last().entry())
    } else {
        doc_entries(rules.drop_last())
    }
}

/// Finds the first rule at or after `from` that is not well formed.
fn find_malformed(rules: &[FlagDescriptor], from: usize) -> (found: Option<usize>)
    ensures
        match found {
            Some(i) => i < rules@.len() && first_malformed(rule_texts(rules@), from as int) == Some(
                i as int,
            ),
            None => first_malformed(rule_texts(rules@), from as int) is None,
        },
{
    let ghost all = rule_texts(rules@);
    let mut i: usize = from;
    while i < rules.len()
        invariant
            from <= i,
            all == rule_texts(rules@),
            first_malformed(all, from as int) == first_malformed(all, i as int),
        decreases rules@.len() - i,
    {
        let rule = &rules[i];
        let fine = if rule.is_catch_all {
            rule.aliases.len() == 0 && rule.params.len() == 1
        } else {
            rule.aliases.len() > 0
        };
        assert(fine == all[i as int].well_formed());
        if !fine {
            return Some(i);
        }
        i += 1;
    }
    None
}

/// Finds the first catch-all at or after `from` that takes part in
/// matching.
pub fn find_catch_all(rules: &[FlagDescriptor], from: usize) -> (found: Option<usize>)
    ensures
        match found {
            Some(i) => i < rules@.len() && first_catch_all(rule_texts(rules@), from as int) == Some(
                i as int,
            ),
            None => first_catch_all(rule_texts(rules@), from as int) is None,
        },
{
    let ghost all = rule_texts(rules@);
    let mut i: usize = from;
    while i < rules.len()
        invariant
            from <= i,
            all == rule_texts(rules@),
            first_catch_all(all, from as int) == first_catch_all(all, i as int),
        decreases rules@.len() - i,
    {
        if !rules[i].is_fake && rules[i].is_catch_all {
            return Some(i);
        }
        i += 1;
    }
    None
}

/// Finds the first rule behind the one at `index` that takes part in
/// matching.
fn find_dispatchable_after(rules: &[FlagDescriptor], index: usize) -> (found: Option<usize>)
    ensures
        match found {
            Some(i) => i < rules@.len() && first_dispatchable(rule_texts(rules@), index + 1)
                == Some(i as int),
            None => first_dispatchable(rule_texts(rules@), index + 1) is None,
        },
{
    if index >= rules.len() {
        return None;
    }
    let ghost all = rule_texts(rules@);
    let mut i: usize = index + 1;
    while i < rules.len()
        invariant
            index < i,
            all == rule_texts(rules@),
            first_dispatchable(all, index + 1) == first_dispatchable(all, i as int),
        decreases rules@.len() - i,
    {
        if !rules[i].is_fake {
            return Some(i);
        }
        i += 1;
    }
    None
}

/// Looks for the first defect of a list of rules.
pub fn check_rules(rules: &[FlagDescriptor]) -> (found: Option<ConfigError>)
    ensures
        found == defect(rule_texts(rules@)),
        found is None <==> valid_table(rule_texts(rules@)),
{
    proof {
        lemma_defect_iff_invalid(rule_texts(rules@));
    }
    match find_malformed(rules, 0) {
        Some(index) => Some(ConfigError::MalformedRule { index }),
        None => match find_catch_all(rules, 0) {
            None => None,
            Some(c) => match find_dispatchable_after(rules, c) {
                None => None,
                Some(j) => if rules[j].is_catch_all {
                    Some(ConfigError::MultipleCatchAll { first: c, second: j })
                } else {
                    Some(ConfigError::CatchAllNotLast { catch_all: c, later: j })
                },
            },
        },
    }
}

/// A list of rules that was checked: see [`valid_table`].
pub struct FlagTable {
    rules: Vec<FlagDescriptor>,
}

impl View for FlagTable {
    type V = Seq<RuleText>;

    closed spec fn view(&self) -> Seq<RuleText> {
        rule_texts(self.rules@)
    }
}

impl FlagTable {
    #[verifier::type_invariant]
    spec fn checked(self) -> bool {
        valid_table(rule_texts(self.rules@))
    }

    /// Builds the table of `rules`, or names their first defect.
    pub fn new(rules: Vec<FlagDescriptor>) -> (r: Result<FlagTable, ConfigError>)
        ensures
            r is Ok <==> valid_table(rule_texts(rules@)),
            match r {
                Ok(table) => table@ == rule_texts(rules@),
                Err(e) => defect(rule_texts(rules@)) == Some(e),
            },
    {
        match check_rules(rules.as_slice()) {
            Some(e) => Err(e),
            None => Ok(FlagTable { rules }),
        }
    }

    /// The rules of the table, in the order of their declaration.
    pub fn rules(&self) -> (rules: &[FlagDescriptor])
        ensures
            rule_texts(rules@) == self@,
            valid_table(self@),
    {
        proof {
            use_type_invariant(self);
        }
        self.rules.as_slice()
    }

    /// The entries for the help text: one for each visible rule, in order.
    pub fn docs(&self) -> (out: Vec<Flag>)
        ensures
            flag_texts(out@) == doc_entries(self@),
    {
        let ghost all = rule_texts(self.rules@);
        let mut out: Vec<Flag> = Vec::new();
        let mut i: usize = 0;
        assert(flag_texts(out@) =~= doc_entries(all.take(0)));
        while i < self.rules.len()
            invariant
                i <= self.rules@.len(),
                all == rule_texts(self.rules@),
                flag_texts(out@) == doc_entries(all.take(i as int)),
            decreases self.rules@.len() - i,
        {
            assert(all.take(i + 1).drop_last() =~= all.take(i as int));
            let ghost before = flag_texts(out@);
            if self.rules[i].visible {
                out.push(self.rules[i].docs());
                assert(flag_texts(out@) =~= before.push(all[i as int].entry()));
            }
            i += 1;
        }
        assert(all.take(i as int) =~= all);
        out
    }
}

} // verus!
