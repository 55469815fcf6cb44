//! The documentation entry of a flag, as the help renderers consume it.

use vstd::prelude::*;
use crate::text::texts;

verus! {

/// What the help text shows of one flag: its doc lines, its aliases and the
/// names of its parameters.
#[derive(Clone, Copy, Debug)]
pub struct Flag {
    pub doc: &'static [&'static str],
    pub flags: &'static [&'static str],
    pub params: &'static [&'static str],
}

/// The text held by a [`Flag`].
pub struct FlagText {
    pub doc: Seq<Seq<char>>,
    pub flags: Seq<Seq<char>>,
    pub params: Seq<Seq<char>>,
}

impl View for Flag {
    type V = FlagText;

    open spec fn view(&self) -> FlagText {
        FlagText { doc: texts(self.doc@), flags: texts(self.flags@), params: texts(self.params@) }
    }
}

/// The texts of a list of flags.
pub open spec fn flag_texts(flags: Seq<Flag>) -> Seq<FlagText> {
    Seq::new(flags.len(), |i: int| flags[i]@)
}

/// One declared flag rule.
///
/// A normal rule names its flag by one or more literal aliases and takes as
/// many values as it has parameter names. The catch-all rule has no alias
/// and a single name, to which the token that nothing else matched is bound.
/// A rule that is not `visible` is left out of the help text; one that
/// `is_fake` is shown there and never matched.
#[derive(Clone, Copy, Debug)]
pub struct FlagDescriptor {
    pub aliases: &'static [&'static str],
    pub params: &'static [&'static str],
    pub doc_lines: &'static [&'static str],
    pub is_catch_all: bool,
    pub visible: bool,
    pub is_fake: bool,
}

/// The content of a [`FlagDescriptor`].
pub struct RuleText {
    pub aliases: Seq<Seq<char>>,
    pub params: Seq<Seq<char>>,
    pub doc_lines: Seq<Seq<char>>,
    pub is_catch_all: bool,
    pub visible: bool,
    pub is_fake: bool,
}

impl RuleText {
    /// Number of values the rule takes from the tokens that follow its flag.
    pub open spec fn parameter_count(self) -> nat {
        if self.is_catch_all {
            0
        } else {
            self.params.len()
        }
    }

    /// Whether the rule takes part in matching.
    pub open spec fn dispatchable(self) -> bool {
        !self.is_fake
    }

    /// A catch-all has no alias and exactly one name; any other rule has at
    /// least one alias.
    pub open spec fn well_formed(self) -> bool {
        if self.is_catch_all {
            self.aliases.len() == 0 && self.params.len() == 1
        } else {
            self.aliases.len() > 0
        }
    }

    /// What the help text shows of the rule.
    pub open spec fn entry(self) -> FlagText {
        FlagText { doc: self.doc_lines, flags: self.aliases, params: self.params }
    }
}

impl View for FlagDescriptor {
    type V = RuleText;

    open spec fn view(&self) -> RuleText {
        RuleText {
            aliases: texts(self.aliases@),
            params: texts(self.params@),
            doc_lines: texts(self.doc_lines@),
            is_catch_all: self.is_catch_all,
            visible: self.visible,
            is_fake: self.is_fake,
        }
    }
}

/// The contents of a list of rules.
pub open spec fn rule_texts(rules: Seq<FlagDescriptor>) -> Seq<RuleText> {
    Seq::new(rules.len(), |i: int| rules[i]@)
}

impl FlagDescriptor {
    /// A visible, real flag with the given aliases, parameter names and doc
    /// lines.
    pub fn flag(
        aliases: &'static [&'static str],
        params: &'static [&'static str],
        doc_lines: &'static [&'static str],
    ) -> (d: FlagDescriptor)
        ensures
            d == (FlagDescriptor {
                aliases,
                params,
                doc_lines,
                is_catch_all: false,
                visible: true,
                is_fake: false,
            }),
    {
        FlagDescriptor { aliases, params, doc_lines, is_catch_all: false, visible: true, is_fake: false }
    }

    /// A visible, real catch-all rule; `binding` holds its one name.
    pub fn catch_all(binding: &'static [&'static str], doc_lines: &'static [&'static str]) -> (d:
        FlagDescriptor)
        ensures
            d == (FlagDescriptor {
                aliases: d.aliases,
                params: binding,
                doc_lines,
                is_catch_all: true,
                visible: true,
                is_fake: false,
            }),
            d.aliases@.len() == 0,
    {
        let none: &'static [&'static str] = &[];
        FlagDescriptor {
            aliases: none,
            params: binding,
            doc_lines,
            is_catch_all: true,
            visible: true,
            is_fake: false,
        }
    }

    /// The same rule, left out of the help text.
    pub fn hidden(self) -> (d: FlagDescriptor)
        ensures
            d == (FlagDescriptor { visible: false, ..self }),
    {
        FlagDescriptor { visible: false, ..self }
    }

    /// The same rule, shown in the help text only.
    pub fn fake(self) -> (d: FlagDescriptor)
        ensures
            d == (FlagDescriptor { is_fake: true, ..self }),
    {
        FlagDescriptor { is_fake: true, ..self }
    }

    /// Number of values the rule takes from the tokens that follow its flag:
    /// one for each parameter of a flag, none for a catch-all.
    pub fn parameter_count(&self) -> (n: usize)
        ensures
            n == self@.parameter_count(),
    {
        if self.is_catch_all {
            0
        } else {
            self.params.len()
        }
    }

    /// The rule's entry for the help text.
    pub fn docs(&self) -> (f: Flag)
        ensures
            f == (Flag { doc: self.doc_lines, flags: self.aliases, params: self.params }),
            f@ == self@.entry(),
    {
        Flag { doc: self.doc_lines, flags: self.aliases, params: self.params }
    }
}

} // verus!
