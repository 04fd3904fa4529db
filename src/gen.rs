//! Picking words and rules for generated rounds.
//!
//! Round `i` draws a word (from round 5 on, only words that share a character
//! with an earlier rule's target), then a trigger character from the word
//! (its ends in rounds 0 and 1, afterwards a character no earlier rule
//! targets), then a rule: always a conversion in rounds 0 to 2, a surprise
//! rule in round 4, and otherwise conversion, duplication or removal at odds
//! of 7, 2 and 1 in 10.

use vstd::prelude::*;

use rand::rngs::StdRng;
use rand::seq::SliceRandom;
use rand::Rng;

use crate::game::GameError;
use crate::rule::{Duplicate, Remove, Rule, TargetDestination};
use crate::text::chars_of;

verus! {

/// rand's seedable generator, carried through the generator as it is.
#[verifier::external_type_specification]
#[verifier::external_body]
pub struct ExStdRng(StdRng);

/// Relies on rand's `SliceRandom::choose`: `None` for an empty slice,
/// otherwise one of its items.
#[verifier::external_body]
fn choose_from<'a, T>(rng: &mut StdRng, items: &'a [T]) -> (r: Option<&'a T>)
    ensures
        r is None <==> items@.len() == 0,
        r matches Some(x) ==> items@.contains(*x),
{
    items.choose(rng)
}

/// Relies on rand's `Rng::gen_range` over `0..bound`: a value below `bound`.
/// It panics on an empty range, which the precondition leaves out.
#[verifier::external_body]
fn random_below(rng: &mut StdRng, bound: usize) -> (r: usize)
    requires
        bound > 0,
    ensures
        r < bound,
{
    rng.gen_range(0..bound)
}

/// The kind of a rule, without its fields.
#[derive(Debug, Clone, Copy, PartialEq, Eq, Structural)]
pub enum RuleKind {
    Convert,
    Duplicate,
    Remove,
    Switch,
}

pub open spec fn kind_of(r: Rule) -> RuleKind {
    match r {
        Rule::Convert(_) => RuleKind::Convert,
        Rule::Duplicate(_) => RuleKind::Duplicate,
        Rule::Remove(_) => RuleKind::Remove,
        Rule::Switch(_) => RuleKind::Switch,
    }
}

pub open spec fn is_lowercase(c: char) -> bool {
    'a' <= c <= 'z'
}

/// How many equally likely draws decide the kind of rule in `round`.
pub open spec fn kind_draws(round: int) -> int {
    if round < 3 {
        1
    } else if round == 4 {
        3
    } else {
        10
    }
}

/// The kind of rule that `draw` selects in `round`.
pub open spec fn kind_for(round: int, draw: int) -> RuleKind {
    if round < 3 {
        RuleKind::Convert
    } else if round == 4 {
        if draw == 0 {
            RuleKind::Duplicate
        } else if draw == 1 {
            RuleKind::Remove
        } else {
            RuleKind::Switch
        }
    } else if draw <= 6 {
        RuleKind::Convert
    } else if draw <= 8 {
        RuleKind::Duplicate
    } else {
        RuleKind::Remove
    }
}

/// The targets of the rules, in order.
pub open spec fn targets(rules: Seq<Rule>) -> Seq<char> {
    rules.map_values(|r: Rule| r.target_of())
}

/// Whether `w` holds a character of `used`.
pub open spec fn shares_char(w: Seq<char>, used: Seq<char>) -> bool {
    exists|i: int| 0 <= i < w.len() && used.contains(#[trigger] w[i])
}

/// The test a word passes to be picked once `used` holds the earlier targets.
pub open spec fn sharing(used: Seq<char>) -> spec_fn(String) -> bool {
    |w: String| shares_char(w@, used)
}

/// The test a character passes to be a new trigger.
pub open spec fn unused(used: Seq<char>) -> spec_fn(char) -> bool {
    |c: char| !used.contains(c)
}

/// Whether `w` may be the word of `round`.
pub open spec fn eligible(w: Seq<char>, round: int, used: Seq<char>) -> bool {
    round < 5 || shares_char(w, used)
}

/// The characters a rule of `round` may target, given its word.
pub open spec fn candidate_pool(w: Seq<char>, round: int, used: Seq<char>) -> Seq<char> {
    if round < 2 {
        if w.len() == 0 {
            Seq::empty()
        } else {
            seq![w[0], w.last()]
        }
    } else {
        w.filter(unused(used))
    }
}

/// Whether `w` is the text of one of the dictionary's words.
pub open spec fn in_dictionary(dictionary: Seq<String>, w: Seq<char>) -> bool {
    exists|j: int| 0 <= j < dictionary.len() && (#[trigger] dictionary[j])@ == w
}

/// Whether `r` is a rule that round `round` may draw from the pool.
pub open spec fn follows_policy(round: int, r: Rule, pool: Seq<char>) -> bool {
    &&& pool.contains(r.target_of())
    &&& exists|d: int| 0 <= d < kind_draws(round) && #[trigger] kind_for(round, d) == kind_of(r)
    &&& match r {
        Rule::Convert(td) => is_lowercase(td.destination),
        Rule::Duplicate(dup) => 2 <= dup.count < 5,
        Rule::Remove(_) => true,
        Rule::Switch(td) => pool.contains(td.destination),
    }
}

/// Whether round `i` of a session with these rules and this secret is one
/// the generator may draw from `dictionary`.
pub open spec fn drawn_by_policy(rules: Seq<Rule>, secret: Seq<char>, dictionary: Seq<String>, i: int) -> bool {
    let used = targets(rules.take(i));
    &&& in_dictionary(dictionary, secret)
    &&& eligible(secret, i, used)
    &&& follows_policy(i, rules[i], candidate_pool(secret, i, used))
}

/// The kinds of rule the policy allows: only conversions in rounds 0 to 2,
/// never a conversion in round 4, and a switch in no other round.
pub proof fn lemma_policy_kinds(round: int, r: Rule, pool: Seq<char>)
    requires
        follows_policy(round, r, pool),
    ensures
        round < 3 ==> r is Convert,
        round == 4 ==> !(r is Convert),
        round != 4 ==> !(r is Switch),
{
}

/// The kind of rule that `draw` selects in `round`.
pub fn rule_kind(round: usize, draw: usize) -> (k: RuleKind)
    requires
        draw < kind_draws(round as int),
    ensures
        k == kind_for(round as int, draw as int),
{
    if round < 3 {
        RuleKind::Convert
    } else if round == 4 {
        if draw == 0 {
            RuleKind::Duplicate
        } else if draw == 1 {
            RuleKind::Remove
        } else {
            RuleKind::Switch
        }
    } else if draw <= 6 {
        RuleKind::Convert
    } else if draw <= 8 {
        RuleKind::Duplicate
    } else {
        RuleKind::Remove
    }
}

/// The rule that the draws of `round` make: the kind draw picks the kind,
/// then a conversion takes `letter`, a duplication `2 + count_draw` copies,
/// and a switch `partner`.
pub open spec fn rule_for_draws(
    round: int,
    kind_draw: int,
    target: char,
    letter: char,
    count_draw: int,
    partner: char,
) -> Rule {
    match kind_for(round, kind_draw) {
        RuleKind::Convert => Rule::Convert(TargetDestination { target, destination: letter }),
        RuleKind::Duplicate => Rule::Duplicate(Duplicate { target, count: (2 + count_draw) as usize }),
        RuleKind::Remove => Rule::Remove(Remove(target)),
        RuleKind::Switch => Rule::Switch(TargetDestination { target, destination: partner }),
    }
}

/// The rule that the draws of `round` make.
pub fn rule_from_draws(
    round: usize,
    kind_draw: usize,
    target: char,
    letter: char,
    count_draw: usize,
    partner: char,
) -> (r: Rule)
    requires
        kind_draw < kind_draws(round as int),
        count_draw < 3,
    ensures
        r == rule_for_draws(round as int, kind_draw as int, target, letter, count_draw as int, partner),
{
    match rule_kind(round, kind_draw) {
        RuleKind::Convert => Rule::convert(target, letter),
        RuleKind::Duplicate => Rule::duplicate(target, 2 + count_draw),
        RuleKind::Remove => Rule::remove(target),
        RuleKind::Switch => Rule::switch(target, partner),
    }
}

fn contains_char(v: &[char], c: char) -> (r: bool)
    ensures
        r == v@.contains(c),
{
    let mut i: usize = 0;
    while i < v.len()
        invariant
            i <= v@.len(),
            forall|k: int| 0 <= k < i ==> v@[k] != c,
        decreases v.len() - i,
    {
        if v[i] == c {
            return true;
        }
        i += 1;
    }
    false
}

fn targets_of(rules: &[Rule]) -> (r: Vec<char>)
    ensures
        r@ == targets(rules@),
{
    let mut r: Vec<char> = Vec::new();
    let mut i: usize = 0;
    while i < rules.len()
        invariant
            i <= rules@.len(),
            r@ == targets(rules@.take(i as int)),
        decreases rules.len() - i,
    {
        r.push(rules[i].target());
        i += 1;
        proof {
            assert(r@ =~= targets(rules@.take(i as int)));
        }
    }
    proof {
        assert(rules@.take(rules@.len() as int) =~= rules@);
    }
    r
}

fn shares_any(w: &str, used: &[char]) -> (r: bool)
    ensures
        r == shares_char(w@, used@),
{
    let chars = chars_of(w);
    let mut i: usize = 0;
    while i < chars.len()
        invariant
            chars@ == w@,
            i <= chars@.len(),
            forall|k: int| 0 <= k < i ==> !used@.contains(#[trigger] w@[k]),
        decreases chars.len() - i,
    {
        if contains_char(used, chars[i]) {
            return true;
        }
        i += 1;
    }
    false
}

/// The dictionary's words that share a character with `used`, in order.
pub fn qualifying_words(dictionary: &[String], used: &[char]) -> (r: Vec<String>)
    ensures
        r@ == dictionary@.filter(sharing(used@)),
{
    let mut r: Vec<String> = Vec::new();
    let mut i: usize = 0;
    while i < dictionary.len()
        invariant
            i <= dictionary@.len(),
            r@ == dictionary@.take(i as int).filter(sharing(used@)),
        decreases dictionary.len() - i,
    {
        proof {
            assert(dictionary@.take(i + 1).drop_last() =~= dictionary@.take(i as int));
            reveal(Seq::filter);
        }
        if shares_any(dictionary[i].as_str(), used) {
            r.push(dictionary[i].clone());
        }
        i += 1;
    }
    proof {
        assert(dictionary@.take(dictionary@.len() as int) =~= dictionary@);
    }
    r
}

/// The characters a rule of `round` may target, given its word and the
/// targets of the earlier rules.
pub fn candidate_chars(word: &str, round: usize, used: &[char]) -> (r: Vec<char>)
    ensures
        r@ == candidate_pool(word@, round as int, used@),
{
    let w = chars_of(word);
    let mut r: Vec<char> = Vec::new();
    if round < 2 {
        if w.len() > 0 {
            r.push(w[0]);
            r.push(w[w.len() - 1]);
            proof {
                assert(r@ =~= seq![word@[0], word@.last()]);
            }
        }
        return r;
    }
    let mut i: usize = 0;
    while i < w.len()
        invariant
            w@ == word@,
            i <= w@.len(),
            r@ == w@.take(i as int).filter(unused(used@)),
        decreases w.len() - i,
    {
        proof {
            assert(w@.take(i + 1).drop_last() =~= w@.take(i as int));
            reveal(Seq::filter);
        }
        if !contains_char(used, w[i]) {
            r.push(w[i]);
        }
        i += 1;
    }
    proof {
        assert(w@.take(w@.len() as int) =~= w@);
    }
    r
}

/// What a filter keeps comes from the filtered sequence and passes the test.
proof fn lemma_filter_keeps<A>(s: Seq<A>, pred: spec_fn(A) -> bool, x: A)
    requires
        s.filter(pred).contains(x),
    ensures
        s.contains(x),
        pred(x),
    decreases s.len(),
{
    reveal(Seq::filter);
    if s.len() > 0 {
        let prev = s.drop_last();
        let sub = prev.filter(pred);
        if sub.contains(x) {
            lemma_filter_keeps(prev, pred, x);
            let k = choose|k: int| 0 <= k < prev.len() && prev[k] == x;
            assert(s[k] == x);
        } else {
            let k = choose|k: int| 0 <= k < s.filter(pred).len() && s.filter(pred)[k] == x;
            if k < sub.len() {
                assert(sub[k] == x);
            }
            assert(s[s.len() - 1] == x);
        }
    }
}

fn random_letter(rng: &mut StdRng) -> (c: char)
    ensures
        is_lowercase(c),
{
    let i = random_below(rng, 26);
    let b: u8 = 97u8 + i as u8;
    b as char
}

fn pick_word(rng: &mut StdRng, dictionary: &[String], round: usize, used: &[char]) -> (r: Option<
    String,
>)
    ensures
        r is None <==> !(exists|j: int|
            0 <= j < dictionary@.len() && eligible(
                #[trigger] dictionary@[j]@,
                round as int,
                used@,
            )),
        r matches Some(w) ==> dictionary@.contains(w) && eligible(w@, round as int, used@),
{
    broadcast use vstd::seq_lib::group_filter_ensures;

    if round < 5 {
        let picked = choose_from(rng, dictionary);
        proof {
            if dictionary@.len() > 0 {
                assert(eligible(dictionary@[0]@, round as int, used@));
            }
        }
        match picked {
            Some(w) => Some(w.clone()),
            None => None,
        }
    } else {
        let candidates = qualifying_words(dictionary, used);
        proof {
            if exists|j: int|
                0 <= j < dictionary@.len() && eligible(
                    #[trigger] dictionary@[j]@,
                    round as int,
                    used@,
                ) {
                let j = choose|j: int|
                    0 <= j < dictionary@.len() && eligible(
                        #[trigger] dictionary@[j]@,
                        round as int,
                        used@,
                    );
                assert(sharing(used@)(dictionary@[j]));
                assert(candidates@.contains(dictionary@[j]));
            }
        }
        match choose_from(rng, candidates.as_slice()) {
            Some(w) => {
                proof {
                    lemma_filter_keeps(dictionary@, sharing(used@), *w);
                }
                Some(w.clone())
            },
            None => None,
        }
    }
}

/// Draws the word of the next round and the characters its rule may target;
/// the round is the number of rules chosen so far.
pub fn generate_word(rng: &mut StdRng, dictionary: &[String], previous_rules: &[Rule]) -> (r:
    Result<(String, Vec<char>), GameError>)
    ensures
        ({
            let round = previous_rules@.len() as int;
            let used = targets(previous_rules@);
            &&& r matches Ok((w, pool)) ==> {
                &&& in_dictionary(dictionary@, w@)
                &&& eligible(w@, round, used)
                &&& pool@ == candidate_pool(w@, round, used)
                &&& pool@.len() > 0
            }
            &&& r matches Err(e) ==> e == GameError::GenerationExhausted && ((forall|j: int|
                0 <= j < dictionary@.len() ==> !eligible(#[trigger] dictionary@[j]@, round, used))
                || exists|j: int|
                0 <= j < dictionary@.len() && eligible(#[trigger] dictionary@[j]@, round, used)
                    && candidate_pool(dictionary@[j]@, round, used).len() == 0)
        }),
{
    let round = previous_rules.len();
    let used = targets_of(previous_rules);
    match pick_word(rng, dictionary, round, used.as_slice()) {
        None => Err(GameError::GenerationExhausted),
        Some(word) => {
            let pool = candidate_chars(word.as_str(), round, used.as_slice());
            proof {
                let j = choose|j: int| 0 <= j < dictionary@.len() && dictionary@[j] == word;
                assert(dictionary@[j]@ == word@);
            }
            if pool.len() == 0 {
                Err(GameError::GenerationExhausted)
            } else {
                Ok((word, pool))
            }
        },
    }
}

/// Draws the rule of `round`, targeting one of `choices`; with no choices
/// there is no rule to draw.
pub fn generate_rule(round: usize, rng: &mut StdRng, choices: &[char]) -> (r: Result<
    Rule,
    GameError,
>)
    ensures
        r is Err <==> choices@.len() == 0,
        r matches Err(e) ==> e == GameError::GenerationExhausted,
        r matches Ok(rule) ==> follows_policy(round as int, rule, choices@),
{
    let kind_draw = if round < 3 {
        0
    } else if round == 4 {
        random_below(rng, 3)
    } else {
        random_below(rng, 10)
    };
    let target = match choose_from(rng, choices) {
        Some(c) => *c,
        None => {
            return Err(GameError::GenerationExhausted);
        },
    };
    let letter = random_letter(rng);
    let count_draw = random_below(rng, 3);
    let partner = *choose_from(rng, choices).unwrap();
    let rule = rule_from_draws(round, kind_draw, target, letter, count_draw, partner);
    proof {
        assert(kind_for(round as int, kind_draw as int) == kind_of(rule));
    }
    Ok(rule)
}

/// A sequence of `n` characters holds at most `n` distinct ones, so a word
/// with more distinct characters than that holds one outside it.
proof fn lemma_char_outside(w: Seq<char>, used: Seq<char>)
    requires
        w.to_set().len() > used.len(),
    ensures
        exists|k: int| 0 <= k < w.len() && !used.contains(#[trigger] w[k]),
{
    broadcast use vstd::seq_lib::seq_to_set_is_finite;

    used.lemma_cardinality_of_set();
    if forall|k: int| 0 <= k < w.len() ==> used.contains(#[trigger] w[k]) {
        assert(w.to_set().subset_of(used.to_set()));
        vstd::set_lib::lemma_len_subset(w.to_set(), used.to_set());
    }
}

/// A rule drawn by the policy targets a character of its word.
pub proof fn lemma_target_in_word(w: Seq<char>, round: int, used: Seq<char>, r: Rule)
    requires
        follows_policy(round, r, candidate_pool(w, round, used)),
    ensures
        w.contains(r.target_of()),
{
    if round >= 2 {
        lemma_filter_keeps(w, unused(used), r.target_of());
    } else {
        assert(w[0] == candidate_pool(w, round, used)[0]);
        assert(w[w.len() - 1] == candidate_pool(w, round, used)[1]);
    }
}

/// The word draw of `round` cannot fail when the dictionary is not empty,
/// each of its words has more distinct characters than there are earlier
/// rules, and (from round 5 on) one of its words holds an earlier target.
pub proof fn lemma_word_draw_succeeds(dictionary: Seq<String>, round: int, used: Seq<char>)
    requires
        dictionary.len() > 0,
        0 <= round,
        used.len() == round,
        forall|j: int|
            0 <= j < dictionary.len() ==> (#[trigger] dictionary[j])@.to_set().len() > round,
        round >= 5 ==> exists|j: int|
            0 <= j < dictionary.len() && shares_char((#[trigger] dictionary[j])@, used),
    ensures
        exists|j: int| 0 <= j < dictionary.len() && eligible((#[trigger] dictionary[j])@, round, used),
        forall|j: int|
            0 <= j < dictionary.len() ==> candidate_pool((#[trigger] dictionary[j])@, round, used).len()
                > 0,
{
    broadcast use vstd::seq_lib::group_filter_ensures;

    if round < 5 {
        assert(eligible(dictionary[0]@, round, used));
    } else {
        let j = choose|j: int|
            0 <= j < dictionary.len() && shares_char((#[trigger] dictionary[j])@, used);
        assert(eligible(dictionary[j]@, round, used));
    }
    assert forall|j: int| 0 <= j < dictionary.len() implies candidate_pool(
        (#[trigger] dictionary[j])@,
        round,
        used,
    ).len() > 0 by {
        let w = dictionary[j]@;
        if round < 2 {
            w.lemma_cardinality_of_set();
        } else {
            lemma_char_outside(w, used);
            let k = choose|k: int| 0 <= k < w.len() && !used.contains(#[trigger] w[k]);
            assert(unused(used)(w[k]));
            assert(w.filter(unused(used)).contains(w[k]));
        }
    }
}
} // verus!
