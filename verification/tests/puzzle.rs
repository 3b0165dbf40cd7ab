use bee_solver::{get_plays, validate_ring, Dictionary, Game, GameError, Play};

fn sample() -> Dictionary {
    Dictionary::from_text(
        "aah\ndeaden\nhand\nhanded\nhead\nopened\nopenhanded\npanda\nzoo\nzythum\n",
    )
}

fn words(plays: &[Play]) -> Vec<&str> {
    plays.iter().map(|play| play.word.as_str()).collect()
}

#[test]
fn game() {
    let game = Game {
        center: 'a',
        ring: ['h', 'n', 'p', 'd', 'o', 'e'],
    };
    let plays = game.plays(&sample());
    assert!(!plays.is_empty());
    assert_eq!(plays[0].word, "openhanded");
    assert_eq!(plays[0].is_pangram, true);
    assert_eq!(plays[0].score, 17);
}

#[test]
fn plays_hold_only_the_puzzles_letters_and_the_center() {
    let game = Game::new('a', "hnpdoe").unwrap();
    let plays = game.plays(&sample());
    assert!(!plays.is_empty());
    for play in &plays {
        assert!(play.word.contains('a'));
        assert!(play.word.chars().all(|c| "ahnpdoe".contains(c)));
    }
}

#[test]
fn plays_fall_in_score_and_keep_dictionary_order_among_equals() {
    let game = Game::new('a', "hnpdoe").unwrap();
    let plays = game.plays(&sample());
    assert_eq!(
        words(&plays),
        vec!["openhanded", "deaden", "handed", "panda", "aah", "hand", "head"]
    );
    let scores: Vec<usize> = plays.iter().map(|play| play.score).collect();
    assert_eq!(scores, vec![17, 6, 6, 5, 3, 1, 1]);
    let flags: Vec<bool> = plays.iter().map(|play| play.is_pangram).collect();
    assert_eq!(flags, vec![true, false, false, false, false, false, false]);
}

#[test]
fn words_without_the_center_letter_are_left_out() {
    let game = Game::new('a', "hnpdoe").unwrap();
    let plays = game.plays(&Dictionary::from_text("opened\nphone\nnoon\n\n"));
    assert!(plays.is_empty());
}

#[test]
fn empty_word_never_qualifies() {
    let game = Game::new('a', "hnpdoe").unwrap();
    assert!(!game.accepts(""));
    let plays = game.plays(&Dictionary::from_text("\n\nhand\n\n"));
    assert_eq!(words(&plays), vec!["hand"]);
}

#[test]
fn no_matching_word_gives_an_empty_answer() {
    let game = Game::new('q', "xzjkvw").unwrap();
    let plays = game.plays(&sample());
    assert!(plays.is_empty());
    let nothing = game.plays(&Dictionary::from_text(""));
    assert!(nothing.is_empty());
}

#[test]
fn letters_are_folded_to_lower_case() {
    let game = Game::new('A', "HnPdOe").unwrap();
    assert_eq!(game.center, 'a');
    assert_eq!(game.ring, ['h', 'n', 'p', 'd', 'o', 'e']);
    let plays = game.plays(&sample());
    assert_eq!(plays[0].word, "openhanded");
}

#[test]
fn letters_beyond_ascii_are_folded_to_lower_case() {
    let game = Game::new('a', "Ébcdfg").unwrap();
    assert_eq!(game.center, 'a');
    assert_eq!(game.ring, ['é', 'b', 'c', 'd', 'f', 'g']);

    let game = Game::new('É', "TUDÄab").unwrap();
    assert_eq!(game.center, 'é');
    assert_eq!(game.ring, ['t', 'u', 'd', 'ä', 'a', 'b']);
    let plays = game.plays(&Dictionary::from_text("étude\ndate\ndébut\n"));
    assert_eq!(words(&plays), vec!["début"]);
    assert_eq!(plays[0].score, 5);

    let game = Game::new('Ω', "ΑΒΓΔΕΖ").unwrap();
    assert_eq!(game.center, 'ω');
    assert_eq!(game.ring, ['α', 'β', 'γ', 'δ', 'ε', 'ζ']);
}

#[test]
fn letter_with_a_lower_case_form_of_two_characters_keeps_the_first() {
    let game = Game::new('a', "\u{130}bcdef").unwrap();
    assert_eq!(game.ring, ['i', 'b', 'c', 'd', 'e', 'f']);
    let game = Game::new('\u{130}', "abcdef").unwrap();
    assert_eq!(game.center, 'i');
    assert!(game.accepts("fib"));
}

#[test]
fn letters_without_case_stay_as_they_are() {
    let game = Game::new('中', "日本語文字学").unwrap();
    assert_eq!(game.center, '中');
    assert_eq!(game.ring, ['日', '本', '語', '文', '字', '学']);
}

#[test]
fn case_of_a_word_plays_no_part() {
    let game = Game::new('a', "hnpdoe").unwrap();
    assert!(game.accepts("hand"));
    assert!(game.accepts("Hand"));
    assert!(game.accepts("HAND"));
    assert!(!game.accepts("HOPED"));
    assert!(!game.accepts("band"));
    assert!(game.permits('h'));
    assert!(game.permits('H'));
    assert!(game.permits('a'));
    assert!(game.permits('A'));
    assert!(!game.permits('z'));
    assert!(!game.permits('Z'));

    let game = Game::new('é', "tudbac").unwrap();
    assert!(game.accepts("DÉBUT"));
    assert!(!game.accepts("DEBUT"));
}

#[test]
fn words_with_capitals_are_played_as_the_dictionary_has_them() {
    let game = Game::new('a', "hnpdoe").unwrap();
    let plays = game.plays(&Dictionary::from_text("Hand\nOpenhanded\nPANDA\nphone\n"));
    assert_eq!(words(&plays), vec!["Openhanded", "PANDA", "Hand"]);
    assert_eq!(plays[0].score, 17);
    assert!(plays[0].is_pangram);
    assert_eq!(plays[1].score, 5);
    assert_eq!(plays[2].score, 1);
}

#[test]
fn puzzle_built_by_hand_with_capitals_counts_them_in_lower_case() {
    let game = Game {
        center: 'A',
        ring: ['H', 'N', 'P', 'D', 'O', 'E'],
    };
    assert_eq!(game.letters(), ['a', 'h', 'n', 'p', 'd', 'o', 'e']);
    assert!(game.accepts("openhanded"));
    assert!(game.accepts("OPENHANDED"));
    assert!(!game.accepts("opened"));
    let plays = game.plays(&sample());
    assert_eq!(plays[0].word, "openhanded");
    assert_eq!(plays.len(), 7);
}

#[test]
fn ring_of_five_or_seven_is_an_invalid_length() {
    assert_eq!(Game::new('a', "hnpdo").unwrap_err(), GameError::InvalidRingLength);
    assert_eq!(Game::new('a', "hnpdoet").unwrap_err(), GameError::InvalidRingLength);
    assert_eq!(Game::new('a', "").unwrap_err(), GameError::InvalidRingLength);
}

#[test]
fn ring_length_counts_characters() {
    assert!(Game::new('a', "äöüßéè").is_ok());
    assert_eq!(Game::new('a', "äöü").unwrap_err(), GameError::InvalidRingLength);
}

#[test]
fn ring_with_a_digit_has_invalid_characters() {
    assert_eq!(
        Game::new('a', "hnpd1e").unwrap_err(),
        GameError::InvalidRingCharacters
    );
    assert_eq!(
        Game::new('a', "hn pde").unwrap_err(),
        GameError::InvalidRingCharacters
    );
    assert_eq!(
        Game::new('a', "hnp-de").unwrap_err(),
        GameError::InvalidRingCharacters
    );
}

#[test]
fn center_that_is_no_letter_is_invalid() {
    assert_eq!(
        Game::new('1', "hnpdoe").unwrap_err(),
        GameError::InvalidCenterCharacter
    );
    assert_eq!(
        Game::new(' ', "hnpdoe").unwrap_err(),
        GameError::InvalidCenterCharacter
    );
}

#[test]
fn ring_is_judged_before_the_center() {
    assert_eq!(Game::new('1', "hnpd").unwrap_err(), GameError::InvalidRingLength);
    assert_eq!(
        Game::new('1', "hnpd1e").unwrap_err(),
        GameError::InvalidRingCharacters
    );
    assert_eq!(Game::new('a', "1").unwrap_err(), GameError::InvalidRingLength);
}

#[test]
fn center_that_stands_in_the_ring_is_accepted_and_has_no_pangram() {
    let game = Game::new('a', "abcdef").unwrap();
    let plays = game.plays(&Dictionary::from_text("abcdef\nfacade\nbead\n"));
    assert_eq!(words(&plays), vec!["abcdef", "facade", "bead"]);
    assert!(plays.iter().all(|play| !play.is_pangram));
    assert_eq!(plays[0].score, 6);
}

#[test]
fn error_messages() {
    assert_eq!(
        GameError::InvalidCenterCharacter.message(),
        "Invalid center character"
    );
    assert_eq!(GameError::InvalidRingLength.message(), "Invalid ring length");
    assert_eq!(
        GameError::InvalidRingCharacters.message(),
        "Invalid ring characters"
    );
    assert_eq!(GameError::Unknown.message(), "Unknown error");
}

#[test]
fn validate_ring_accepts_six_letters() {
    assert_eq!(validate_ring("hnpdoe"), Ok(String::from("hnpdoe")));
    assert_eq!(validate_ring("HNPdoe"), Ok(String::from("HNPdoe")));
    assert_eq!(validate_ring("äöüßéè"), Ok(String::from("äöüßéè")));
}

#[test]
fn validate_ring_turns_down_everything_else() {
    let advice = Err(String::from("Ring must contain exactly 6 letters"));
    assert_eq!(validate_ring(""), advice);
    assert_eq!(validate_ring("hnpdo"), advice);
    assert_eq!(validate_ring("hnpdoet"), advice);
    assert_eq!(validate_ring("hnpd1e"), advice);
    assert_eq!(validate_ring("hnpd e"), advice);
    assert_eq!(validate_ring("ééé"), advice);
}

#[test]
fn get_plays_answers_a_typed_puzzle() {
    let plays = get_plays("a", "hnpdoe", &sample()).unwrap();
    assert_eq!(plays[0].word, "openhanded");
    assert_eq!(plays[0].score, 17);
    assert_eq!(plays.len(), 7);
    let shouted = get_plays("A", "HNPDOE", &sample()).unwrap();
    assert_eq!(words(&shouted), words(&plays));
}

#[test]
fn get_plays_wants_exactly_one_center_character() {
    assert_eq!(
        get_plays("", "hnpdoe", &sample()).unwrap_err(),
        GameError::InvalidCenterCharacter
    );
    assert_eq!(
        get_plays("ab", "hnpdoe", &sample()).unwrap_err(),
        GameError::InvalidCenterCharacter
    );
    assert_eq!(
        get_plays("abc", "hnpdoe", &sample()).unwrap_err(),
        GameError::InvalidCenterCharacter
    );
    assert!(get_plays("é", "hnpdoe", &sample()).is_ok());
}

#[test]
fn get_plays_hands_on_what_stands_in_the_way_of_the_puzzle() {
    assert_eq!(
        get_plays("a", "hnpdo", &sample()).unwrap_err(),
        GameError::InvalidRingLength
    );
    assert_eq!(
        get_plays("a", "hnpdo3", &sample()).unwrap_err(),
        GameError::InvalidRingCharacters
    );
    assert_eq!(
        get_plays("7", "hnpdoe", &sample()).unwrap_err(),
        GameError::InvalidCenterCharacter
    );
    assert_eq!(
        get_plays("ab", "hnpdo", &sample()).unwrap_err(),
        GameError::InvalidCenterCharacter
    );
}
