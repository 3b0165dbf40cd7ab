//! Answering a puzzle over a word list.

use crate::dictionary::Dictionary;
use crate::game::{
    all_ascii_letters, has_ascii_non_letter, letters, lowered, qualifies, rejection, spells, Game,
    GameError, RING_LETTERS,
};
use crate::letters::{is_ascii_letter, lower, only_char};
use crate::play::{word_score, Play};
use crate::ranking::{descending, lemma_same_order, rank, seen, with_score};
use vstd::prelude::*;

verus! {

/// The words of a list of plays.
pub open spec fn words_of(plays: Seq<Play>) -> Seq<Seq<char>> {
    Seq::new(plays.len(), |i: int| plays[i].word@)
}

/// The words of `dictionary` that answer a puzzle with this center and ring,
/// in the order of the dictionary.
pub open spec fn candidates(center: char, ring: Seq<char>, dictionary: Seq<Seq<char>>) -> Seq<
    Seq<char>,
> {
    dictionary.filter(|word: Seq<char>| qualifies(center, ring, word))
}

/// The words of `words` that earn this score, in the order of `words`.
pub open spec fn worth(words: Seq<Seq<char>>, score: usize) -> Seq<Seq<char>> {
    words.filter(|word: Seq<char>| word_score(word) == score)
}

/// Whether `plays` is the answer to a puzzle with this center and ring over
/// `dictionary`:
/// - every play holds a word that answers the puzzle, with the score and the
///   pangram flag of that word;
/// - there is one play for each word of the dictionary that answers the
///   puzzle;
/// - no play is followed by one of a higher score;
/// - the words of any one score stand in the order of the dictionary.
pub open spec fn answers(
    center: char,
    ring: Seq<char>,
    dictionary: Seq<Seq<char>>,
    plays: Seq<Play>,
) -> bool {
    &&& forall|i: int|
        0 <= i < plays.len() ==> (#[trigger] plays[i]).is_scored() && qualifies(
            center,
            ring,
            plays[i].word@,
        )
    &&& plays.len() == candidates(center, ring, dictionary).len()
    &&& descending(plays)
    &&& forall|score: usize| #[trigger]
        worth(words_of(plays), score) == worth(candidates(center, ring, dictionary), score)
}

/// One more word at the end of the dictionary is one more candidate if it
/// answers the puzzle, and changes nothing if it does not.
pub proof fn lemma_candidates_push(
    center: char,
    ring: Seq<char>,
    dictionary: Seq<Seq<char>>,
    word: Seq<char>,
)
    ensures
        candidates(center, ring, dictionary.push(word)) == if qualifies(center, ring, word) {
            candidates(center, ring, dictionary).push(word)
        } else {
            candidates(center, ring, dictionary)
        },
{
    reveal(Seq::filter);
    assert(dictionary.push(word).drop_last() == dictionary);
}

/// Among scored plays, picking those of one score and reading their words
/// gives the same as reading the words and picking those that earn the score.
pub proof fn lemma_words_with_score(plays: Seq<Play>, score: usize)
    requires
        forall|i: int| 0 <= i < plays.len() ==> (#[trigger] plays[i]).is_scored(),
    ensures
        words_of(with_score(plays, score)) == worth(words_of(plays), score),
    decreases plays.len(),
{
    reveal(Seq::filter);
    if plays.len() > 0 {
        let front = plays.drop_last();
        let last = plays.last();
        lemma_words_with_score(front, score);
        assert(last.is_scored());
        assert(words_of(plays).drop_last() == words_of(front));
        assert(words_of(plays).last() == last.word@);
        if last.score == score {
            assert(words_of(with_score(front, score).push(last)) == words_of(
                with_score(front, score),
            ).push(last.word@));
        }
    } else {
        assert(words_of(plays) == Seq::<Seq<char>>::empty());
        assert(words_of(with_score(plays, score)) == Seq::<Seq<char>>::empty());
    }
}

/// A dictionary without a word that answers the puzzle has no candidates.
pub proof fn lemma_no_candidates(center: char, ring: Seq<char>, dictionary: Seq<Seq<char>>)
    requires
        forall|i: int| 0 <= i < dictionary.len() ==> !qualifies(center, ring, dictionary[i]),
    ensures
        candidates(center, ring, dictionary) == Seq::<Seq<char>>::empty(),
    decreases dictionary.len(),
{
    reveal(Seq::filter);
    if dictionary.len() > 0 {
        lemma_no_candidates(center, ring, dictionary.drop_last());
    }
}

/// Where no word of the dictionary answers the puzzle, the answer is the
/// empty list.
pub proof fn lemma_nothing_to_play(
    center: char,
    ring: Seq<char>,
    dictionary: Seq<Seq<char>>,
    plays: Seq<Play>,
)
    requires
        answers(center, ring, dictionary, plays),
        forall|i: int| 0 <= i < dictionary.len() ==> !qualifies(center, ring, dictionary[i]),
    ensures
        plays == Seq::<Play>::empty(),
{
    lemma_no_candidates(center, ring, dictionary);
    assert(plays =~= Seq::<Play>::empty());
}

/// A puzzle has one answer over a dictionary: two lists of plays that both
/// answer it hold the same words, with the same scores and the same pangram
/// flags, in the same order.
pub proof fn lemma_answer_is_unique(
    center: char,
    ring: Seq<char>,
    dictionary: Seq<Seq<char>>,
    first: Seq<Play>,
    second: Seq<Play>,
)
    requires
        answers(center, ring, dictionary, first),
        answers(center, ring, dictionary, second),
    ensures
        first.len() == second.len(),
        forall|i: int|
            0 <= i < first.len() ==> {
                &&& (#[trigger] first[i]).word@ == second[i].word@
                &&& first[i].score == second[i].score
                &&& first[i].is_pangram == second[i].is_pangram
            },
{
    let wanted = candidates(center, ring, dictionary);
    let word = |play: Play| play.word@;
    assert forall|score: usize| #[trigger]
        seen(with_score(first, score), word) == seen(with_score(second, score), word) by {
        lemma_words_with_score(first, score);
        lemma_words_with_score(second, score);
        assert(worth(words_of(first), score) == worth(wanted, score));
        assert(worth(words_of(second), score) == worth(wanted, score));
        assert(seen(with_score(first, score), word) =~= words_of(with_score(first, score)));
        assert(seen(with_score(second, score), word) =~= words_of(with_score(second, score)));
    }
    lemma_same_order(first, second, word);
    assert forall|i: int| 0 <= i < first.len() implies {
        &&& (#[trigger] first[i]).word@ == second[i].word@
        &&& first[i].score == second[i].score
        &&& first[i].is_pangram == second[i].is_pangram
    } by {
        assert(seen(first, word)[i] == seen(second, word)[i]);
        assert(first[i].is_scored());
        assert(second[i].is_scored());
    }
}

impl Game {
    /// Whether `plays` is this puzzle's answer over `dictionary`.
    pub open spec fn answered_by(&self, dictionary: Seq<Seq<char>>, plays: Seq<Play>) -> bool {
        answers(self.center, self.ring@, dictionary, plays)
    }

    /// The answer to the puzzle: a play for each word of `dictionary` that
    /// holds the center letter and nothing but the puzzle's letters, the best
    /// score first, words of equal score in the order of the dictionary.
    ///
    /// Where no word answers the puzzle the list is empty.
    pub fn plays(&self, dictionary: &Dictionary) -> (plays: Vec<Play>)
        ensures
            self.answered_by(dictionary@, plays@),
    {
        let ghost all = dictionary@;
        let folded: [char; 7] = self.letters();
        let mut found: Vec<Play> = Vec::new();
        let mut k: usize = 0;
        assert(all.take(0) == Seq::<Seq<char>>::empty());
        assert(words_of(found@) == candidates(self.center, self.ring@, all.take(0))) by {
            reveal(Seq::filter);
        }
        while k < dictionary.words.len()
            invariant
                all == dictionary@,
                folded@ == letters(self.center, self.ring@),
                k <= dictionary.words.len(),
                words_of(found@) == candidates(self.center, self.ring@, all.take(k as int)),
                forall|i: int|
                    0 <= i < found@.len() ==> (#[trigger] found@[i]).is_scored() && self.admits(
                        found@[i].word@,
                    ),
            decreases dictionary.words.len() - k,
        {
            let word: &str = dictionary.words[k].as_str();
            proof {
                assert(all.take(k + 1) == all.take(k as int).push(word@));
                lemma_candidates_push(self.center, self.ring@, all.take(k as int), word@);
            }
            if spells(&folded, word) {
                let play = Play::new(word);
                assert(words_of(found@.push(play)) == words_of(found@).push(word@));
                found.push(play);
            }
            k = k + 1;
        }
        assert(all.take(k as int) == all);
        let ghost unranked = found@;
        let ranked = rank(found);
        proof {
            assert forall|i: int| 0 <= i < ranked@.len() implies (#[trigger] ranked@[i]).is_scored()
                && self.admits(ranked@[i].word@) by {
                let j = choose|j: int| 0 <= j < unranked.len() && unranked[j] == ranked@[i];
                assert(unranked[j].is_scored());
            }
            assert forall|score: usize| #[trigger]
                worth(words_of(ranked@), score) == worth(
                    candidates(self.center, self.ring@, all),
                    score,
                ) by {
                lemma_words_with_score(ranked@, score);
                lemma_words_with_score(unranked, score);
                assert(with_score(ranked@, score) == with_score(unranked, score));
            }
        }
        ranked
    }
}

/// Answers the puzzle that a user typed: `core` is to be the one center
/// letter, `ring` the six letters around it.
///
/// A `core` of no character or of several is turned down with
/// `InvalidCenterCharacter`; after that `core` and `ring` are judged as
/// `Game::new` judges them.
pub fn get_plays(core: &str, ring: &str, dictionary: &Dictionary) -> (answer: Result<
    Vec<Play>,
    GameError,
>)
    ensures
        match answer {
            Ok(plays) => {
                &&& core@.len() == 1
                &&& rejection(core@[0], ring@) is None
                &&& answers(lower(core@[0]), lowered(ring@), dictionary@, plays@)
            },
            Err(e) => if core@.len() == 1 {
                rejection(core@[0], ring@) == Some(e)
            } else {
                e == GameError::InvalidCenterCharacter
            },
        },
        core@.len() == 1 && ring@.len() == RING_LETTERS && has_ascii_non_letter(ring@) ==> answer
            == Err::<Vec<Play>, GameError>(GameError::InvalidRingCharacters),
        core@.len() == 1 && ring@.len() == RING_LETTERS && all_ascii_letters(ring@)
            && is_ascii_letter(core@[0]) ==> answer is Ok,
        core@.len() == 1 && ring@.len() == RING_LETTERS && all_ascii_letters(ring@) && core@[0]
            <= '\x7f' && !is_ascii_letter(core@[0]) ==> answer == Err::<Vec<Play>, GameError>(
            GameError::InvalidCenterCharacter,
        ),
        core@.len() == 1 && ring@.len() != RING_LETTERS ==> answer == Err::<Vec<Play>, GameError>(
            GameError::InvalidRingLength,
        ),
        core@.len() != 1 ==> answer == Err::<Vec<Play>, GameError>(
            GameError::InvalidCenterCharacter,
        ),
{
    let center: char = match only_char(core) {
        Some(c) => c,
        None => return Err(GameError::InvalidCenterCharacter),
    };
    let game = match Game::new(center, ring) {
        Ok(game) => game,
        Err(e) => return Err(e),
    };
    Ok(game.plays(dictionary))
}

} // verus!
