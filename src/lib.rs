//! A word puzzle engine: deterministic text rules that scramble a secret
//! word, a generator that chains them into rounds of rising difficulty, and a
//! session that steps through those rounds.

mod text;

pub mod rule;

pub mod gen;

pub mod challenge_instruction;

pub mod game;

pub use challenge_instruction::{ChallengeInstruction, GameInstruction};
pub use game::{Game, GameError, Iter, RoundData, WordData};
pub use rule::{Duplicate, Remove, Rule, TargetDestination};
