//! A play-through: the table of rounds and a cursor that only moves forward.

use vstd::prelude::*;

use rand::rngs::StdRng;

use crate::challenge_instruction::ChallengeInstruction;
use crate::gen::{
    candidate_pool, drawn_by_policy, eligible, generate_rule, generate_word, lemma_policy_kinds,
    lemma_target_in_word, lemma_word_draw_succeeds, shares_char, targets,
};
use crate::rule::Rule;

verus! {

/// The failures a caller can recover from.
#[derive(Debug, Clone, Copy, PartialEq, Eq, Structural)]
pub enum GameError {
    /// No dictionary word or no trigger character fits the policy of a round.
    GenerationExhausted,
    /// The session was advanced past its last round.
    InvalidAdvance,
}

/// The rules applied in order, the first one first.
pub open spec fn apply_rules(rules: Seq<Rule>, s: Seq<char>) -> Seq<char>
    decreases rules.len(),
{
    if rules.len() == 0 {
        s
    } else {
        rules.last().transform(apply_rules(rules.drop_last(), s))
    }
}

/// Applies every rule to `input`, the first rule first.
pub fn apply_all(rules: &[Rule], input: &str) -> (r: String)
    ensures
        r@ == apply_rules(rules@, input@),
{
    let mut word = String::from_str(input);
    let mut i: usize = 0;
    while i < rules.len()
        invariant
            i <= rules@.len(),
            word@ == apply_rules(rules@.take(i as int), input@),
        decreases rules.len() - i,
    {
        proof {
            assert(rules@.take(i + 1).drop_last() =~= rules@.take(i as int));
        }
        word = rules[i].apply(word.as_str());
        i += 1;
    }
    proof {
        assert(rules@.take(rules@.len() as int) =~= rules@);
    }
    word
}

/// A round's secret word and what the rules so far make of it.
#[derive(Debug, Clone)]
pub struct WordData {
    pub secret: String,
    pub hard_word: String,
}

/// What a player sees of one round: every rule revealed so far, in the order
/// they run, and this round's word.
pub struct RoundData<'a> {
    pub rules: &'a [Rule],
    pub word_data: &'a WordData,
}

/// The number of rounds of a generated session.
pub const DEFAULT_ROUNDS: usize = 8;

/// The main struct of the game.
pub struct Game {
    rules: Vec<Rule>,
    words: Vec<WordData>,
    current_round: usize,
}

impl Game {
    /// The rule of each round.
    pub closed spec fn rule_list(&self) -> Seq<Rule> {
        self.rules@
    }

    /// The secret word of each round.
    pub closed spec fn secrets(&self) -> Seq<Seq<char>> {
        self.words@.map_values(|w: WordData| w.secret@)
    }

    /// The scrambled word shown in each round.
    pub closed spec fn hard_words(&self) -> Seq<Seq<char>> {
        self.words@.map_values(|w: WordData| w.hard_word@)
    }

    /// The round being played; the number of rounds once all are solved.
    pub closed spec fn cursor(&self) -> nat {
        self.current_round as nat
    }

    /// One secret and one hard word per rule, the cursor within the rounds,
    /// and each hard word the secret run through the rules up to its round.
    pub open spec fn wf(&self) -> bool {
        &&& self.secrets().len() == self.rule_list().len()
        &&& self.hard_words().len() == self.rule_list().len()
        &&& self.cursor() <= self.rule_list().len()
        &&& forall|i: int|
            0 <= i < self.rule_list().len() ==> #[trigger] self.hard_words()[i] == apply_rules(
                self.rule_list().take(i + 1),
                self.secrets()[i],
            )
    }

    /// The view of round `i` that a player gets.
    pub open spec fn shows_round(&self, rd: RoundData, i: int) -> bool {
        &&& rd.rules@ == self.rule_list().take(i + 1)
        &&& rd.word_data.secret@ == self.secrets()[i]
        &&& rd.word_data.hard_word@ == self.hard_words()[i]
    }

    /// Whether this is a fresh session of `rounds` rounds, each drawn from
    /// `dictionary` as the generator's policy allows.
    pub open spec fn is_generated(&self, dictionary: Seq<String>, rounds: nat) -> bool {
        &&& self.wf()
        &&& self.cursor() == 0
        &&& self.rule_list().len() == rounds
        &&& forall|i: int|
            0 <= i < rounds ==> #[trigger] drawn_by_policy(
                self.rule_list(),
                self.secrets()[i],
                dictionary,
                i,
            )
    }

    /// A generated session of the default number of rounds.
    pub fn new(rng: &mut StdRng, dictionary: &[String]) -> (r: Result<Game, GameError>)
        ensures
            r matches Ok(g) ==> g.is_generated(dictionary@, DEFAULT_ROUNDS as nat),
            r matches Err(e) ==> e == GameError::GenerationExhausted,
            dictionary@.len() == 0 ==> r is Err,
            dictionary@.len() > 0 && (forall|j: int|
                0 <= j < dictionary@.len() ==> (#[trigger] dictionary@[j])@.to_set().len()
                    >= DEFAULT_ROUNDS) ==> r is Ok,
    {
        Game::generate(rng, dictionary, DEFAULT_ROUNDS)
    }

    /// A session of `rounds` generated rounds of rising difficulty.
    ///
    /// Generation fails when a round finds no word or no trigger character
    /// that its policy allows. It cannot fail when the dictionary is not empty
    /// and each word has at least `rounds` distinct characters (an earlier
    /// round's word then always shares the target drawn from it), nor, with a
    /// dictionary of non-empty words, in the first two rounds.
    pub fn generate(rng: &mut StdRng, dictionary: &[String], rounds: usize) -> (r: Result<
        Game,
        GameError,
    >)
        ensures
            r matches Ok(g) ==> g.is_generated(dictionary@, rounds as nat),
            r matches Ok(g) ==> forall|i: int|
                0 <= i < rounds && i < 3 ==> (#[trigger] g.rule_list()[i]) is Convert,
            r matches Ok(g) ==> rounds > 4 ==> !(g.rule_list()[4] is Convert),
            r matches Ok(g) ==> forall|i: int|
                5 <= i < rounds ==> shares_char(
                    #[trigger] g.secrets()[i],
                    targets(g.rule_list().take(i)),
                ),
            r matches Err(e) ==> e == GameError::GenerationExhausted,
            dictionary@.len() == 0 && rounds > 0 ==> r is Err,
            dictionary@.len() > 0 && rounds <= 2 && (forall|j: int|
                0 <= j < dictionary@.len() ==> (#[trigger] dictionary@[j])@.len() > 0) ==> r is Ok,
            dictionary@.len() > 0 && (forall|j: int|
                0 <= j < dictionary@.len() ==> (#[trigger] dictionary@[j])@.to_set().len()
                    >= rounds) ==> r is Ok,
    {
        let mut rules: Vec<Rule> = Vec::new();
        let mut words: Vec<WordData> = Vec::new();
        let mut i: usize = 0;
        while i < rounds
            invariant
                i <= rounds,
                rules@.len() == i,
                words@.len() == i,
                forall|k: int|
                    0 <= k < i ==> (#[trigger] words@[k]).hard_word@ == apply_rules(
                        rules@.take(k + 1),
                        words@[k].secret@,
                    ) && drawn_by_policy(rules@, words@[k].secret@, dictionary@, k),
                dictionary@.len() > 0 && rounds <= 2 && (forall|j: int|
                    0 <= j < dictionary@.len() ==> (#[trigger] dictionary@[j])@.len() > 0)
                    ==> eligible(dictionary@[0]@, i as int, targets(rules@)),
            decreases rounds - i,
        {
            let (secret, pool) = match generate_word(rng, dictionary, rules.as_slice()) {
                Ok(drawn) => drawn,
                Err(e) => {
                    proof {
                        if dictionary@.len() > 0 && (forall|j: int|
                            0 <= j < dictionary@.len() ==> (#[trigger] dictionary@[j])@.to_set().len()
                                >= rounds) {
                            let used = targets(rules@);
                            if i >= 5 {
                                let s0 = words@[0].secret@;
                                assert(drawn_by_policy(rules@, s0, dictionary@, 0));
                                lemma_target_in_word(
                                    s0,
                                    0,
                                    targets(rules@.take(0)),
                                    rules@[0],
                                );
                                let j = choose|j: int|
                                    0 <= j < dictionary@.len() && (#[trigger] dictionary@[j])@
                                        == s0;
                                let k = choose|k: int|
                                    0 <= k < s0.len() && s0[k] == rules@[0].target_of();
                                assert(used[0] == rules@[0].target_of());
                                assert(used.contains(s0[k]));
                                assert(shares_char(dictionary@[j]@, used));
                            }
                            lemma_word_draw_succeeds(dictionary@, i as int, used);
                        }
                    }
                    return Err(e);
                },
            };
            let rule = match generate_rule(i, rng, pool.as_slice()) {
                Ok(rule) => rule,
                Err(e) => {
                    return Err(e);
                },
            };
            let ghost old_rules = rules@;
            rules.push(rule);
            let hard_word = apply_all(rules.as_slice(), secret.as_str());
            proof {
                assert(rules@.take(i as int) =~= old_rules);
                assert(rules@.take(i + 1) =~= rules@);
                assert forall|k: int| 0 <= k < i implies #[trigger] rules@.take(k + 1)
                    == old_rules.take(k + 1) && rules@.take(k) == old_rules.take(k) by {
                    assert(rules@.take(k + 1) =~= old_rules.take(k + 1));
                    assert(rules@.take(k) =~= old_rules.take(k));
                }
            }
            words.push(WordData { secret, hard_word });
            i += 1;
            proof {
                assert forall|k: int| 0 <= k < i implies (#[trigger] words@[k]).hard_word@
                    == apply_rules(rules@.take(k + 1), words@[k].secret@) && drawn_by_policy(
                    rules@,
                    words@[k].secret@,
                    dictionary@,
                    k,
                ) by {
                    if k < i - 1 {
                        assert(rules@.take(k) =~= old_rules.take(k));
                        assert(drawn_by_policy(old_rules, words@[k].secret@, dictionary@, k));
                    }
                }
            }
        }
        let g = Game { rules, words, current_round: 0 };
        proof {
            assert forall|k: int| 0 <= k < g.rule_list().len() implies #[trigger] g.hard_words()[k]
                == apply_rules(g.rule_list().take(k + 1), g.secrets()[k]) by {
                assert(g.words@[k].secret@ == g.secrets()[k]);
            }
            assert forall|k: int| 0 <= k < rounds implies #[trigger] drawn_by_policy(
                g.rule_list(),
                g.secrets()[k],
                dictionary@,
                k,
            ) by {
                assert(g.words@[k].secret@ == g.secrets()[k]);
            }
            lemma_generator_policy(&g, dictionary@, rounds as nat);
            if rounds > 0 {
                assert(drawn_by_policy(g.rule_list(), g.secrets()[0], dictionary@, 0));
            }
        }
        Ok(g)
    }

    /// A session over curated rounds, each rule and word adopted as given.
    pub fn new_instructions(instructions: &[ChallengeInstruction]) -> (g: Game)
        ensures
            g.wf(),
            g.cursor() == 0,
            g.rule_list() == instructions@.map_values(|ci: ChallengeInstruction| ci.rule),
            g.secrets() == instructions@.map_values(|ci: ChallengeInstruction| ci.word@),
    {
        let mut rules: Vec<Rule> = Vec::new();
        let mut words: Vec<WordData> = Vec::new();
        let mut i: usize = 0;
        while i < instructions.len()
            invariant
                i <= instructions@.len(),
                rules@ == instructions@.map_values(|ci: ChallengeInstruction| ci.rule).take(
                    i as int,
                ),
                words@.len() == i,
                forall|k: int|
                    0 <= k < i ==> (#[trigger] words@[k]).secret@ == instructions@[k].word@
                        && words@[k].hard_word@ == apply_rules(
                        rules@.take(k + 1),
                        words@[k].secret@,
                    ),
            decreases instructions.len() - i,
        {
            let instruction = &instructions[i];
            let ghost old_rules = rules@;
            rules.push(instruction.rule);
            proof {
                assert(rules@ =~= instructions@.map_values(
                    |ci: ChallengeInstruction| ci.rule,
                ).take(i + 1));
                assert forall|k: int| 0 <= k < i implies #[trigger] rules@.take(k + 1)
                    == old_rules.take(k + 1) by {
                    assert(rules@.take(k + 1) =~= old_rules.take(k + 1));
                }
                assert(rules@.take(i + 1) =~= rules@);
            }
            let hard_word = apply_all(rules.as_slice(), instruction.word.as_str());
            words.push(WordData { secret: instruction.word.clone(), hard_word });
            i += 1;
        }
        let g = Game { rules, words, current_round: 0 };
        proof {
            assert(g.secrets() =~= instructions@.map_values(|ci: ChallengeInstruction| ci.word@));
            assert(g.rule_list() =~= instructions@.map_values(|ci: ChallengeInstruction| ci.rule));
            assert forall|k: int| 0 <= k < g.rule_list().len() implies #[trigger] g.hard_words()[k]
                == apply_rules(g.rule_list().take(k + 1), g.secrets()[k]) by {
                assert(g.words@[k].secret@ == g.secrets()[k]);
            }
        }
        g
    }

    /// Get the number of rounds.
    pub fn len(&self) -> (r: usize)
        ensures
            r == self.rule_list().len(),
    {
        self.rules.len()
    }

    pub fn is_empty(&self) -> (r: bool)
        ensures
            r == (self.rule_list().len() == 0),
    {
        self.rules.len() == 0
    }

    /// Whether every round has been solved.
    pub fn is_complete(&self) -> (r: bool)
        ensures
            r == (self.cursor() == self.rule_list().len()),
    {
        self.current_round == self.rules.len()
    }

    /// Moves on to the next round; past the last round this is refused.
    pub fn advance_game(&mut self) -> (r: Result<(), GameError>)
        requires
            old(self).wf(),
        ensures
            final(self).wf(),
            final(self).rule_list() == old(self).rule_list(),
            final(self).secrets() == old(self).secrets(),
            final(self).hard_words() == old(self).hard_words(),
            r is Ok <==> old(self).cursor() < old(self).rule_list().len(),
            r is Ok ==> final(self).cursor() == old(self).cursor() + 1,
            r is Err ==> r == Err::<(), GameError>(GameError::InvalidAdvance) && final(self).cursor()
                == old(self).cursor(),
    {
        if self.current_round < self.rules.len() {
            self.current_round += 1;
            Ok(())
        } else {
            Err(GameError::InvalidAdvance)
        }
    }

    /// The current round, or `None` once every round has been solved.
    pub fn round_data(&self) -> (r: Option<RoundData<'_>>)
        requires
            self.wf(),
        ensures
            r is None <==> self.cursor() == self.rule_list().len(),
            r matches Some(rd) ==> self.shows_round(rd, self.cursor() as int),
    {
        if self.current_round == self.rules.len() {
            return None;
        }
        let word_data = &self.words[self.current_round];
        let rules = &self.rules.as_slice()[0..self.current_round + 1];
        Some(RoundData { rules, word_data })
    }

    /// Checks a guess, already trimmed and lower-cased, against the current
    /// secret; a match moves the session to the next round.
    pub fn submit_guess(&mut self, guess: &str) -> (r: bool)
        requires
            old(self).wf(),
        ensures
            final(self).wf(),
            final(self).rule_list() == old(self).rule_list(),
            final(self).secrets() == old(self).secrets(),
            final(self).hard_words() == old(self).hard_words(),
            r == (old(self).cursor() < old(self).rule_list().len() && guess@ == old(
                self,
            ).secrets()[old(self).cursor() as int]),
            final(self).cursor() == if r {
                old(self).cursor() + 1
            } else {
                old(self).cursor()
            },
    {
        if self.current_round == self.rules.len() {
            return false;
        }
        let matched = String::from_str(guess) == self.words[self.current_round].secret;
        if matched {
            self.current_round += 1;
        }
        matched
    }

    /// Walks the rounds from the first, whatever the cursor.
    pub fn iter(&self) -> (it: Iter<'_>)
        requires
            self.wf(),
        ensures
            it.wf(),
            it.game() == self,
            it.position() == 0,
    {
        Iter { game: self, cursor: 0 }
    }
}

/// In every generated session, the rules of rounds 0 to 2 convert, the rule
/// of round 4 does not, and from round 5 on each word holds a character that
/// an earlier round's rule targets.
pub proof fn lemma_generator_policy(g: &Game, dictionary: Seq<String>, rounds: nat)
    requires
        g.is_generated(dictionary, rounds),
    ensures
        forall|i: int| 0 <= i < rounds && i < 3 ==> (#[trigger] g.rule_list()[i]) is Convert,
        rounds > 4 ==> !(g.rule_list()[4] is Convert),
        forall|i: int|
            5 <= i < rounds ==> shares_char(
                #[trigger] g.secrets()[i],
                targets(g.rule_list().take(i)),
            ),
{
    assert forall|k: int| 0 <= k < rounds implies ((k < 3 ==> (
    #[trigger] g.rule_list()[k]) is Convert) && (k == 4 ==> !(g.rule_list()[k] is Convert))) by {
        assert(drawn_by_policy(g.rule_list(), g.secrets()[k], dictionary, k));
        let used = targets(g.rule_list().take(k));
        lemma_policy_kinds(k, g.rule_list()[k], candidate_pool(g.secrets()[k], k, used));
    }
    assert forall|k: int| 5 <= k < rounds implies shares_char(
        #[trigger] g.secrets()[k],
        targets(g.rule_list().take(k)),
    ) by {
        assert(drawn_by_policy(g.rule_list(), g.secrets()[k], dictionary, k));
    }
}

/// In every session, generated or curated, each round's hard word is that
/// round's secret run through the rules of every round up to and including
/// it, first rule first.
pub proof fn lemma_hard_word_chain(g: &Game, i: int)
    requires
        g.wf(),
        0 <= i < g.rule_list().len(),
    ensures
        g.hard_words()[i] == apply_rules(g.rule_list().take(i + 1), g.secrets()[i]),
{
}

/// The rounds of a game, one after another.
pub struct Iter<'a> {
    game: &'a Game,
    cursor: usize,
}

impl<'a> Iter<'a> {
    /// The game walked.
    pub closed spec fn game(&self) -> &'a Game {
        self.game
    }

    /// The number of rounds handed out so far.
    pub closed spec fn position(&self) -> nat {
        self.cursor as nat
    }

    pub open spec fn wf(&self) -> bool {
        &&& self.game().wf()
        &&& self.position() <= self.game().rule_list().len()
    }

    /// The next round, or `None` after the last.
    pub fn next(&mut self) -> (r: Option<RoundData<'a>>)
        requires
            old(self).wf(),
        ensures
            final(self).wf(),
            final(self).game() == old(self).game(),
            r is None <==> old(self).position() == old(self).game().rule_list().len(),
            r matches Some(rd) ==> old(self).game().shows_round(rd, old(self).position() as int)
                && final(self).position() == old(self).position() + 1,
            r is None ==> final(self).position() == old(self).position(),
    {
        if self.cursor < self.game.rules.len() {
            let word_data = &self.game.words[self.cursor];
            let rules = &self.game.rules.as_slice()[0..self.cursor + 1];
            self.cursor += 1;
            Some(RoundData { rules, word_data })
        } else {
            None
        }
    }

    /// The exact number of rounds still to come, as lower and upper bound.
    pub fn size_hint(&self) -> (r: (usize, Option<usize>))
        requires
            self.wf(),
        ensures
            r.0 == self.game().rule_list().len() - self.position(),
            r.1 == Some(r.0),
    {
        let left = self.game.rules.len() - self.cursor;
        (left, Some(left))
    }
}

} // verus!
