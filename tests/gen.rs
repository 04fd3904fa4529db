use rand::rngs::StdRng;
use rand::SeedableRng;
use words_are_hard::game::GameError;
use words_are_hard::gen::{
    candidate_chars, generate_rule, generate_word, qualifying_words, rule_from_draws, rule_kind,
    RuleKind,
};
use words_are_hard::rule::{Duplicate, Remove, Rule, TargetDestination};

fn words(list: &[&str]) -> Vec<String> {
    list.iter().map(|w| w.to_string()).collect()
}

#[test]
fn draws_map_to_rule_kinds() {
    for round in 0..3 {
        assert_eq!(rule_kind(round, 0), RuleKind::Convert);
    }
    assert_eq!(rule_kind(4, 0), RuleKind::Duplicate);
    assert_eq!(rule_kind(4, 1), RuleKind::Remove);
    assert_eq!(rule_kind(4, 2), RuleKind::Switch);
    for round in [3, 5, 7] {
        for draw in 0..=6 {
            assert_eq!(rule_kind(round, draw), RuleKind::Convert);
        }
        assert_eq!(rule_kind(round, 7), RuleKind::Duplicate);
        assert_eq!(rule_kind(round, 8), RuleKind::Duplicate);
        assert_eq!(rule_kind(round, 9), RuleKind::Remove);
    }
}

#[test]
fn early_rounds_target_the_word_ends() {
    assert_eq!(candidate_chars("hello", 0, &[]), vec!['h', 'o']);
    assert_eq!(candidate_chars("hello", 1, &['h']), vec!['h', 'o']);
    assert_eq!(candidate_chars("a", 0, &[]), vec!['a', 'a']);
    assert_eq!(candidate_chars("", 1, &[]), Vec::<char>::new());
}

#[test]
fn later_rounds_target_new_characters() {
    assert_eq!(candidate_chars("hello", 2, &['l']), vec!['h', 'e', 'o']);
    assert_eq!(candidate_chars("hello", 6, &['h', 'e', 'l', 'o']), Vec::<char>::new());
    assert_eq!(candidate_chars("noon", 3, &[]), vec!['n', 'o', 'o', 'n']);
}

#[test]
fn qualifying_words_share_a_used_character() {
    let dict = words(&["abc", "xyz", "bq", "mno"]);
    assert_eq!(qualifying_words(&dict, &['b']), words(&["abc", "bq"]));
    assert_eq!(qualifying_words(&dict, &[]), Vec::<String>::new());
    assert_eq!(qualifying_words(&dict, &['z', 'o']), words(&["xyz", "mno"]));
}

#[test]
fn generate_word_draws_from_the_dictionary() {
    let dict = words(&["apple", "melon"]);
    for seed in 0..20u64 {
        let mut rng = StdRng::seed_from_u64(seed);
        let (word, pool) = generate_word(&mut rng, &dict, &[]).unwrap();
        assert!(dict.contains(&word));
        let chars: Vec<char> = word.chars().collect();
        assert_eq!(pool, vec![chars[0], chars[chars.len() - 1]]);
    }
}

#[test]
fn generate_word_from_round_five_needs_a_shared_character() {
    let dict = words(&["xyz", "cab"]);
    let previous = [
        Rule::convert('a', 'q'),
        Rule::convert('b', 'q'),
        Rule::convert('m', 'q'),
        Rule::remove('n'),
        Rule::duplicate('o', 2),
    ];
    for seed in 0..20u64 {
        let mut rng = StdRng::seed_from_u64(seed);
        let (word, pool) = generate_word(&mut rng, &dict, &previous).unwrap();
        assert_eq!(word, "cab");
        assert_eq!(pool, vec!['c']);
    }
}

#[test]
fn generate_word_failures() {
    let mut rng = StdRng::seed_from_u64(1);
    assert_eq!(generate_word(&mut rng, &[], &[]), Err(GameError::GenerationExhausted));
    let previous = [
        Rule::convert('a', 'q'),
        Rule::convert('b', 'q'),
        Rule::convert('c', 'q'),
        Rule::convert('d', 'q'),
        Rule::convert('e', 'q'),
    ];
    assert_eq!(
        generate_word(&mut rng, &words(&["xyz"]), &previous),
        Err(GameError::GenerationExhausted)
    );
    assert_eq!(
        generate_word(&mut rng, &words(&["abc"]), &previous[..3]),
        Err(GameError::GenerationExhausted)
    );
    assert_eq!(generate_word(&mut rng, &words(&[""]), &[]), Err(GameError::GenerationExhausted));
}

#[test]
fn generated_rules_follow_the_policy() {
    let choices = ['k', 'r'];
    for seed in 0..200u64 {
        let mut rng = StdRng::seed_from_u64(seed);
        for round in 0..9 {
            let rule = generate_rule(round, &mut rng, &choices).unwrap();
            assert!(choices.contains(&rule.target()));
            match rule {
                Rule::Convert(td) => {
                    assert!(round != 4);
                    assert!(td.destination.is_ascii_lowercase());
                }
                Rule::Duplicate(dup) => {
                    assert!(round >= 3);
                    assert!((2..5).contains(&dup.count));
                }
                Rule::Remove(_) => assert!(round >= 3),
                Rule::Switch(td) => {
                    assert_eq!(round, 4);
                    assert!(choices.contains(&td.destination));
                }
            }
        }
    }
}

#[test]
fn round_four_draws_every_surprise_kind() {
    let mut seen = [false; 3];
    for seed in 0..200u64 {
        let mut rng = StdRng::seed_from_u64(seed);
        match generate_rule(4, &mut rng, &['a']).unwrap() {
            Rule::Duplicate(_) => seen[0] = true,
            Rule::Remove(_) => seen[1] = true,
            Rule::Switch(_) => seen[2] = true,
            Rule::Convert(_) => panic!("round four never converts"),
        }
    }
    assert_eq!(seen, [true, true, true]);
}

#[test]
fn generate_rule_without_choices_fails() {
    let mut rng = StdRng::seed_from_u64(3);
    for round in 0..9 {
        assert_eq!(generate_rule(round, &mut rng, &[]), Err(GameError::GenerationExhausted));
    }
}

#[test]
fn draws_make_rules() {
    assert_eq!(rule_from_draws(0, 0, 't', 'q', 2, 'p'), Rule::convert('t', 'q'));
    assert_eq!(rule_from_draws(2, 0, 't', 'q', 0, 'p'), Rule::convert('t', 'q'));
    assert_eq!(rule_from_draws(4, 0, 't', 'q', 1, 'p'), Rule::Duplicate(Duplicate::new('t', 3)));
    assert_eq!(rule_from_draws(4, 1, 't', 'q', 1, 'p'), Rule::Remove(Remove('t')));
    assert_eq!(
        rule_from_draws(4, 2, 't', 'q', 1, 'p'),
        Rule::Switch(TargetDestination::new('t', 'p'))
    );
    assert_eq!(rule_from_draws(3, 6, 't', 'q', 0, 'p'), Rule::convert('t', 'q'));
    assert_eq!(rule_from_draws(5, 7, 't', 'q', 0, 'p'), Rule::duplicate('t', 2));
    assert_eq!(rule_from_draws(6, 8, 't', 'q', 2, 'p'), Rule::duplicate('t', 4));
    assert_eq!(rule_from_draws(7, 9, 't', 'q', 2, 'p'), Rule::remove('t'));
}
