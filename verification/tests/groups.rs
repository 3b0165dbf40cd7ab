use bee_solver::ranking::{group_by_score, rank};
use bee_solver::Play;

fn play(word: &str, score: usize) -> Play {
    Play {
        word: String::from(word),
        score,
        is_pangram: false,
    }
}

fn words(plays: &[Play]) -> Vec<&str> {
    plays.iter().map(|play| play.word.as_str()).collect()
}

#[test]
fn rank_puts_the_best_score_first() {
    let ranked = rank(vec![play("low", 1), play("high", 9), play("mid", 5)]);
    assert_eq!(words(&ranked), vec!["high", "mid", "low"]);
}

#[test]
fn rank_keeps_the_order_of_equal_scores() {
    let ranked = rank(vec![
        play("a", 3),
        play("b", 7),
        play("c", 3),
        play("d", 7),
        play("e", 3),
        play("f", 1),
        play("g", 7),
    ]);
    assert_eq!(words(&ranked), vec!["b", "d", "g", "a", "c", "e", "f"]);
}

#[test]
fn rank_of_nothing_is_nothing() {
    assert!(rank(Vec::new()).is_empty());
}

#[test]
fn rank_leaves_a_ranked_list_as_it_is() {
    let ranked = rank(vec![play("a", 9), play("b", 9), play("c", 2), play("d", 0)]);
    assert_eq!(words(&ranked), vec!["a", "b", "c", "d"]);
    let again = rank(ranked);
    assert_eq!(words(&again), vec!["a", "b", "c", "d"]);
}

#[test]
fn rank_turns_a_rising_list_round() {
    let ranked = rank(vec![play("a", 1), play("b", 2), play("c", 3), play("d", 4)]);
    assert_eq!(words(&ranked), vec!["d", "c", "b", "a"]);
}

#[test]
fn groups_hold_the_plays_of_one_score() {
    let groups = group_by_score(vec![
        play("openhanded", 17),
        play("deaden", 6),
        play("handed", 6),
        play("panda", 5),
        play("hand", 1),
        play("head", 1),
    ]);
    let scores: Vec<usize> = groups.iter().map(|group| group.score).collect();
    assert_eq!(scores, vec![17, 6, 5, 1]);
    assert_eq!(words(&groups[0].plays), vec!["openhanded"]);
    assert_eq!(words(&groups[1].plays), vec!["deaden", "handed"]);
    assert_eq!(words(&groups[2].plays), vec!["panda"]);
    assert_eq!(words(&groups[3].plays), vec!["hand", "head"]);
}

#[test]
fn groups_do_not_need_ranked_plays() {
    let groups = group_by_score(vec![
        play("a", 3),
        play("b", 7),
        play("c", 3),
        play("d", 7),
        play("e", 5),
    ]);
    let scores: Vec<usize> = groups.iter().map(|group| group.score).collect();
    assert_eq!(scores, vec![7, 5, 3]);
    assert_eq!(words(&groups[0].plays), vec!["b", "d"]);
    assert_eq!(words(&groups[1].plays), vec!["e"]);
    assert_eq!(words(&groups[2].plays), vec!["a", "c"]);
}

#[test]
fn no_plays_no_groups() {
    assert!(group_by_score(Vec::new()).is_empty());
}
