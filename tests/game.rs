use rand::rngs::StdRng;
use rand::SeedableRng;
use words_are_hard::challenge_instruction::ChallengeInstruction;
use words_are_hard::game::{apply_all, Game, GameError, DEFAULT_ROUNDS};
use words_are_hard::rule::{Duplicate, Remove, Rule, TargetDestination};

fn tutorial() -> Vec<ChallengeInstruction> {
    vec![
        ChallengeInstruction::new(Rule::Convert(TargetDestination::new('r', 'e')), "arbitrary"),
        ChallengeInstruction::new(Rule::Convert(TargetDestination::new('i', 't')), "warranties"),
        ChallengeInstruction::new(Rule::Convert(TargetDestination::new('n', 'o')), "signatures"),
        ChallengeInstruction::new(Rule::Remove(Remove('h')), "horoscope"),
        ChallengeInstruction::new(Rule::Duplicate(Duplicate::new('c', 2)), "helicopter"),
        ChallengeInstruction::new(Rule::Switch(TargetDestination::new('c', 'e')), "convicted"),
    ]
}

fn dictionary() -> Vec<String> {
    [
        "arbitrary", "warranties", "signatures", "horoscope", "helicopter", "convicted",
        "doorbells", "classification", "orangutang", "plasma", "horizon", "snake",
        "quartz", "juxtapose", "kingfisher", "labyrinth", "mythology", "zeppelin",
    ]
    .iter()
    .map(|w| w.to_string())
    .collect()
}

fn assert_chained(game: &Game) {
    let mut it = game.iter();
    let mut i = 0;
    while let Some(round) = it.next() {
        assert_eq!(round.rules.len(), i + 1);
        let again = apply_all(round.rules, &round.word_data.secret);
        assert_eq!(again, round.word_data.hard_word);
        i += 1;
    }
    assert_eq!(i, game.len());
}

#[test]
fn curated_two_round_challenge() {
    let game = Game::new_instructions(&[
        ChallengeInstruction::new(Rule::convert('r', 'e'), "arbitrary"),
        ChallengeInstruction::new(Rule::convert('i', 't'), "warranties"),
    ]);
    let mut it = game.iter();
    let first = it.next().unwrap();
    assert_eq!(first.word_data.secret, "arbitrary");
    assert_eq!(first.word_data.hard_word, "aebiteaey");
    assert_eq!(first.rules, &[Rule::convert('r', 'e')][..]);
    let second = it.next().unwrap();
    assert_eq!(second.word_data.secret, "warranties");
    assert_eq!(second.word_data.hard_word, "waeeanttes");
    let by_hand = Rule::convert('i', 't').apply(&Rule::convert('r', 'e').apply("warranties"));
    assert_eq!(second.word_data.hard_word, by_hand);
    assert!(it.next().is_none());
}

#[test]
fn curated_session_hard_words_recompute() {
    let game = Game::new_instructions(&tutorial());
    assert_eq!(game.len(), 6);
    assert_chained(&game);
    let mut it = game.iter();
    let last = (0..6).map(|_| it.next().unwrap()).last().unwrap();
    assert_eq!(last.rules.len(), 6);
}

#[test]
fn apply_all_runs_rules_in_order() {
    let rules = [Rule::convert('v', 'e'), Rule::convert('e', 'q')];
    assert_eq!(apply_all(&rules, "eve"), "qqq");
    let rules = [Rule::duplicate('l', 3), Rule::convert('l', 'a')];
    assert_eq!(apply_all(&rules, "plasma"), "paaaasma");
    let rules = [Rule::convert('s', 'u'), Rule::remove('u')];
    assert_eq!(apply_all(&rules, "sunny"), "nny");
    let rules = [Rule::convert('o', 'a'), Rule::switch('a', 'g')];
    assert_eq!(apply_all(&rules, "orangutang"), "argnautgna");
    assert_eq!(apply_all(&[], "word"), "word");
}

#[test]
fn round_data_follows_the_cursor() {
    let mut game = Game::new_instructions(&tutorial());
    assert!(!game.is_empty());
    assert!(!game.is_complete());
    for i in 0..6 {
        let round = game.round_data().unwrap();
        assert_eq!(round.rules.len(), i + 1);
        assert_eq!(round.word_data.secret, tutorial()[i].word);
        assert_eq!(game.advance_game(), Ok(()));
    }
    assert!(game.is_complete());
    assert!(game.round_data().is_none());
}

#[test]
fn advancing_a_complete_session_is_refused() {
    let mut game = Game::new_instructions(&[ChallengeInstruction::new(Rule::remove('a'), "a")]);
    assert_eq!(game.advance_game(), Ok(()));
    assert_eq!(game.advance_game(), Err(GameError::InvalidAdvance));
    assert!(game.is_complete());
}

#[test]
fn empty_session() {
    let mut game = Game::new_instructions(&[]);
    assert!(game.is_empty());
    assert_eq!(game.len(), 0);
    assert!(game.is_complete());
    assert!(game.round_data().is_none());
    assert_eq!(game.advance_game(), Err(GameError::InvalidAdvance));
    assert!(game.iter().next().is_none());
}

#[test]
fn guesses_move_the_session_on() {
    let mut game = Game::new_instructions(&tutorial());
    assert!(!game.submit_guess("arbitery"));
    assert_eq!(game.round_data().unwrap().word_data.secret, "arbitrary");
    assert!(game.submit_guess("arbitrary"));
    assert_eq!(game.round_data().unwrap().word_data.secret, "warranties");
    for w in ["warranties", "signatures", "horoscope", "helicopter", "convicted"] {
        assert!(game.submit_guess(w));
    }
    assert!(game.is_complete());
    assert!(!game.submit_guess("convicted"));
}

#[test]
fn iterator_size_hint_counts_down() {
    let game = Game::new_instructions(&tutorial());
    let mut it = game.iter();
    assert_eq!(it.size_hint(), (6, Some(6)));
    it.next();
    it.next();
    assert_eq!(it.size_hint(), (4, Some(4)));
}

#[test]
fn generated_sessions_follow_the_policy() {
    let dict = dictionary();
    let mut generated = 0;
    for seed in 0..60u64 {
        let mut rng = StdRng::seed_from_u64(seed);
        let game = match Game::new(&mut rng, &dict) {
            Ok(game) => game,
            Err(e) => {
                assert_eq!(e, GameError::GenerationExhausted);
                continue;
            }
        };
        generated += 1;
        assert_eq!(game.len(), DEFAULT_ROUNDS);
        assert_chained(&game);
        let mut it = game.iter();
        let mut i = 0;
        while let Some(round) = it.next() {
            let rule = round.rules[i];
            assert!(dict.contains(&round.word_data.secret));
            if i < 3 {
                assert!(matches!(rule, Rule::Convert(_)));
            }
            if i == 4 {
                assert!(!matches!(rule, Rule::Convert(_)));
            } else {
                assert!(!matches!(rule, Rule::Switch(_)));
            }
            if i >= 5 {
                let earlier: Vec<char> = round.rules[..i].iter().map(|r| r.target()).collect();
                assert!(round.word_data.secret.chars().any(|c| earlier.contains(&c)));
            }
            if i >= 2 {
                let earlier: Vec<char> = round.rules[..i].iter().map(|r| r.target()).collect();
                assert!(!earlier.contains(&rule.target()));
            }
            assert!(round.word_data.secret.contains(rule.target()));
            i += 1;
        }
    }
    assert!(generated > 0);
}

#[test]
fn generation_from_an_empty_dictionary_fails() {
    let mut rng = StdRng::seed_from_u64(7);
    assert!(matches!(Game::new(&mut rng, &[]), Err(GameError::GenerationExhausted)));
    assert!(Game::generate(&mut rng, &[], 0).is_ok());
}

#[test]
fn two_rounds_always_generate() {
    let dict = vec!["ab".to_string(), "q".to_string()];
    for seed in 0..20u64 {
        let mut rng = StdRng::seed_from_u64(seed);
        let game = Game::generate(&mut rng, &dict, 2).unwrap();
        assert_eq!(game.len(), 2);
        assert_chained(&game);
    }
}

#[test]
fn same_seed_same_session() {
    let dict = dictionary();
    let mut a = StdRng::seed_from_u64(42);
    let mut b = StdRng::seed_from_u64(42);
    let ga = Game::generate(&mut a, &dict, 4).unwrap();
    let gb = Game::generate(&mut b, &dict, 4).unwrap();
    let (mut ia, mut ib) = (ga.iter(), gb.iter());
    while let (Some(x), Some(y)) = (ia.next(), ib.next()) {
        assert_eq!(x.rules, y.rules);
        assert_eq!(x.word_data.secret, y.word_data.secret);
    }
}

#[test]
fn words_with_enough_distinct_letters_always_generate() {
    let dict: Vec<String> = ["backgrounds", "documentary", "lumberjacks", "playwrights"]
        .iter()
        .map(|w| w.to_string())
        .collect();
    for seed in 0..100u64 {
        let mut rng = StdRng::seed_from_u64(seed);
        let game = Game::new(&mut rng, &dict).unwrap();
        assert_eq!(game.len(), DEFAULT_ROUNDS);
        assert_chained(&game);
    }
}
