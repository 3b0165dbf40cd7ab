//! Plays: what makes a word a pangram and how many points a word earns.

use vstd::prelude::*;
use vstd::seq_lib::seq_to_set_is_finite;
use vstd::set_lib::lemma_len_subset;

verus! {

/// How many letters a pangram uses: the center letter and the six of the ring.
pub const PANGRAM_LETTERS: usize = 7;

/// The points a pangram earns on top of its base value.
pub const PANGRAM_BONUS: usize = 7;

/// The length at which a word is worth a single point.
pub const SHORT_WORD: usize = 4;

/// The number of distinct characters of a word.
pub open spec fn distinct_letters(word: Seq<char>) -> nat {
    word.to_set().len()
}

/// A word is a pangram when it is spelled with exactly seven distinct
/// characters.
pub open spec fn pangram(word: Seq<char>) -> bool {
    distinct_letters(word) == PANGRAM_LETTERS
}

/// The base value of a word of `len` characters: its length, but a single
/// point for a word of four.
pub open spec fn base_points(len: nat) -> nat {
    if len == SHORT_WORD {
        1
    } else {
        len
    }
}

/// The points of a word of `len` characters before they are cut to the range
/// of `usize`: the base value, and seven more for a pangram.
pub open spec fn points(len: nat, is_pangram: bool) -> nat {
    base_points(len) + if is_pangram {
        PANGRAM_BONUS as nat
    } else {
        0
    }
}

/// `n` as a `usize`, with everything above `usize::MAX` held at `usize::MAX`.
pub open spec fn saturated(n: nat) -> usize {
    if n > usize::MAX {
        usize::MAX
    } else {
        n as usize
    }
}

/// The score of a word: its points, held at `usize::MAX`.
pub open spec fn word_score(word: Seq<char>) -> usize {
    saturated(points(word.len(), pangram(word)))
}

/// One scored word of a puzzle's answer.
#[derive(Debug)]
pub struct Play {
    pub word: String,
    pub score: usize,
    pub is_pangram: bool,
}

impl Play {
    /// The play carries the pangram flag and the score that its own word
    /// earns.
    pub open spec fn is_scored(&self) -> bool {
        &&& self.is_pangram == pangram(self.word@)
        &&& self.score == word_score(self.word@)
    }

    /// Scores `word` and wraps it up as a play.
    pub fn new(word: &str) -> (play: Play)
        ensures
            play.word@ == word@,
            play.is_pangram == pangram(word@),
            play.score == word_score(word@),
            play.is_scored(),
    {
        let is_pangram: bool = is_pangram(word);
        let score: usize = score(word, is_pangram);
        Play { word: word.to_owned(), score, is_pangram }
    }
}

/// Whether `c` is among the characters collected in `seen`.
fn already_seen(seen: &Vec<char>, c: char) -> (found: bool)
    ensures
        found == seen@.contains(c),
{
    let mut i: usize = 0;
    while i < seen.len()
        invariant
            i <= seen.len(),
            forall|j: int| 0 <= j < i ==> seen@[j] != c,
        decreases seen.len() - i,
    {
        if seen[i] == c {
            return true;
        }
        i = i + 1;
    }
    false
}

/// Whether `word` is spelled with exactly seven distinct characters.
///
/// Characters are compared as they stand: a capital and its small letter
/// count as two.
pub fn is_pangram(word: &str) -> (b: bool)
    ensures
        b == pangram(word@),
{
    let mut seen: Vec<char> = Vec::new();
    for c in it: word.chars()
        invariant
            it.seq() == word@,
            seen@.no_duplicates(),
            seen@.to_set() == word@.take(it.index()).to_set(),
            seen.len() <= PANGRAM_LETTERS,
    {
        let ghost before = word@.take(it.index());
        let ghost after = word@.take(it.index() + 1);
        proof {
            assert(after == before.push(c));
            before.lemma_push_to_set_commute(c);
        }
        if !already_seen(&seen, c) {
            if seen.len() == PANGRAM_LETTERS {
                proof {
                    let grown = seen@.push(c);
                    seen@.lemma_push_to_set_commute(c);
                    grown.unique_seq_to_set();
                    seq_to_set_is_finite(word@);
                    assert(after.to_set().subset_of(word@.to_set()));
                    lemma_len_subset(after.to_set(), word@.to_set());
                }
                return false;
            }
            proof {
                seen@.lemma_push_to_set_commute(c);
            }
            seen.push(c);
        }
    }
    proof {
        assert(word@.take(word@.len() as int) == word@);
        seen@.unique_seq_to_set();
    }
    seen.len() == PANGRAM_LETTERS
}

/// The points that `word` earns: its length in characters, or one point for
/// a word of four, and seven more when `is_pangram` is set. The sum stops
/// at `usize::MAX`.
pub fn score(word: &str, is_pangram: bool) -> (score: usize)
    ensures
        score == saturated(points(word@.len(), is_pangram)),
        word@.len() == 4 && !is_pangram ==> score == 1,
        word@.len() == 4 && is_pangram ==> score == 8,
        word@.len() != 4 && !is_pangram ==> score == word@.len(),
        word@.len() != 4 && is_pangram && word@.len() + 7 <= usize::MAX ==> score == word@.len()
            + 7,
        word@.len() != 4 && is_pangram && word@.len() + 7 > usize::MAX ==> score == usize::MAX,
{
    let len: usize = word.unicode_len();
    let mut score: usize = 0;
    if len == SHORT_WORD {
        score = score.saturating_add(1);
    } else {
        score = score.saturating_add(len);
    }
    if is_pangram {
        score = score.saturating_add(PANGRAM_BONUS);
    }
    score
}

} // verus!
