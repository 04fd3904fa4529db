//! A curated round: a rule and the secret word it is played on.

use vstd::prelude::*;

use crate::rule::Rule;

verus! {

/// One round of a curated challenge or tutorial, adopted as it stands.
#[derive(Debug, Clone)]
pub struct ChallengeInstruction {
    pub rule: Rule,
    pub word: String,
}

/// A curated round, by the name used for the built-in rounds of a game.
pub type GameInstruction = ChallengeInstruction;

impl ChallengeInstruction {
    pub fn new(rule: Rule, word: &str) -> (r: Self)
        ensures
            r.rule == rule,
            r.word@ == word@,
    {
        Self { rule, word: String::from_str(word) }
    }
}

} // verus!
