//! The puzzle: which center and ring make one, which characters it lets
//! into a word, and which words answer it.

use crate::letters::{alphabetic, is_ascii_letter, lower, to_lower};
use crate::play::pangram;
use vstd::prelude::*;
use vstd::seq_lib::seq_to_set_is_finite;
use vstd::set_lib::{lemma_len_subset, lemma_subset_equality};

verus! {

/// The number of letters around the center letter.
pub const RING_LETTERS: usize = 6;

/// The number of letters of a puzzle: the center and the ring.
pub const LETTERS: usize = 7;

/// Why a puzzle could not be set up or answered.
#[derive(Debug, Clone, Copy, PartialEq, Eq, Structural)]
pub enum GameError {
    InvalidCenterCharacter,
    InvalidRingLength,
    InvalidRingCharacters,
    Unknown,
}

impl GameError {
    /// The sentence that tells a user what went wrong.
    pub fn message(&self) -> (text: String)
        ensures
            text@ == match *self {
                GameError::InvalidCenterCharacter => "Invalid center character"@,
                GameError::InvalidRingLength => "Invalid ring length"@,
                GameError::InvalidRingCharacters => "Invalid ring characters"@,
                GameError::Unknown => "Unknown error"@,
            },
    {
        match self {
            GameError::InvalidCenterCharacter => "Invalid center character".to_owned(),
            GameError::InvalidRingLength => "Invalid ring length".to_owned(),
            GameError::InvalidRingCharacters => "Invalid ring characters".to_owned(),
            GameError::Unknown => "Unknown error".to_owned(),
        }
    }
}

/// Every character of `s` is alphabetic.
pub open spec fn all_alphabetic(s: Seq<char>) -> bool {
    forall|i: int| 0 <= i < s.len() ==> alphabetic(#[trigger] s[i])
}

/// Every character of `s` is a letter of ASCII.
pub open spec fn all_ascii_letters(s: Seq<char>) -> bool {
    forall|i: int| 0 <= i < s.len() ==> is_ascii_letter(#[trigger] s[i])
}

/// Some character of `s` lies in ASCII and is no letter: a digit, a sign,
/// a blank.
pub open spec fn has_ascii_non_letter(s: Seq<char>) -> bool {
    exists|i: int| 0 <= i < s.len() && #[trigger] s[i] <= '\x7f' && !is_ascii_letter(s[i])
}

/// `s` with each character in lower case.
pub open spec fn lowered(s: Seq<char>) -> Seq<char> {
    Seq::new(s.len(), |i: int| lower(s[i]))
}

/// A ring is six alphabetic characters.
pub open spec fn ring_is_valid(ring: Seq<char>) -> bool {
    ring.len() == RING_LETTERS && all_alphabetic(ring)
}

/// What stands in the way of a puzzle with this center and ring, if anything.
/// The ring's length is looked at first, then its characters, then the
/// center.
pub open spec fn rejection(center: char, ring: Seq<char>) -> Option<GameError> {
    if ring.len() != RING_LETTERS {
        Some(GameError::InvalidRingLength)
    } else if !all_alphabetic(ring) {
        Some(GameError::InvalidRingCharacters)
    } else if !alphabetic(center) {
        Some(GameError::InvalidCenterCharacter)
    } else {
        None
    }
}

/// Within ASCII, being alphabetic and being one of the 52 letters are the
/// same thing for `c`.
spec fn ascii_agrees(c: char) -> bool {
    c <= '\x7f' ==> alphabetic(c) == is_ascii_letter(c)
}

/// The letters of a puzzle with this center and ring, as words are held
/// against them: in lower case, the center first, then the ring.
pub open spec fn letters(center: char, ring: Seq<char>) -> Seq<char> {
    seq![lower(center)] + lowered(ring)
}

/// Whether a puzzle with this center and ring lets the character `c` stand in
/// a word: `c`, in lower case, is one of the puzzle's letters. Case plays no
/// part, neither that of `c` nor that in which the puzzle was given.
pub open spec fn allowed(center: char, ring: Seq<char>, c: char) -> bool {
    letters(center, ring).contains(lower(c))
}

/// Whether `word` is spelled with these letters and holds the first of them.
/// The word's characters count in lower case.
pub open spec fn spelled_with(letters: Seq<char>, word: Seq<char>) -> bool {
    &&& letters.len() > 0
    &&& lowered(word).contains(letters[0])
    &&& forall|i: int| 0 <= i < word.len() ==> letters.contains(lower(#[trigger] word[i]))
}

/// Whether `word` answers a puzzle with this center and ring: it holds the
/// center letter and no character beyond the puzzle's letters, case left
/// aside on both sides. The empty word holds no center letter and never
/// qualifies.
pub open spec fn qualifies(center: char, ring: Seq<char>, word: Seq<char>) -> bool {
    spelled_with(letters(center, ring), word)
}

/// Every letter of the puzzle occurs in `word`.
pub open spec fn uses_every_letter(center: char, ring: Seq<char>, word: Seq<char>) -> bool {
    forall|i: int|
        0 <= i < letters(center, ring).len() ==> word.contains(#[trigger] letters(center, ring)[i])
}

/// A puzzle has seven letters at most: fewer where the center stands in the
/// ring as well or the ring repeats a letter.
pub proof fn lemma_at_most_seven_letters(center: char, ring: Seq<char>)
    requires
        ring.len() == RING_LETTERS,
    ensures
        letters(center, ring).to_set().finite(),
        letters(center, ring).to_set().len() <= 7,
        letters(center, ring).to_set().len() == 7 <==> letters(center, ring).no_duplicates(),
{
    let all = letters(center, ring);
    seq_to_set_is_finite(all);
    all.lemma_cardinality_of_set();
    if all.no_duplicates() {
        all.unique_seq_to_set();
    }
    if all.to_set().len() == 7 {
        all.lemma_no_dup_set_cardinality();
    }
}

/// Among the lower-case words that answer a puzzle, the pangrams are the
/// words that use every letter of the puzzle, and only a puzzle of seven
/// different letters has any.
///
/// A word with capitals is left out: a capital and its small letter are two
/// characters of the word and one letter of the puzzle.
pub proof fn lemma_pangram_uses_every_letter(center: char, ring: Seq<char>, word: Seq<char>)
    requires
        ring.len() == RING_LETTERS,
        qualifies(center, ring, word),
        lowered(word) == word,
    ensures
        pangram(word) <==> letters(center, ring).no_duplicates() && uses_every_letter(
            center,
            ring,
            word,
        ),
{
    let all = letters(center, ring);
    let offered = all.to_set();
    let used = word.to_set();
    seq_to_set_is_finite(all);
    seq_to_set_is_finite(word);
    all.lemma_cardinality_of_set();
    assert(used.subset_of(offered)) by {
        assert forall|c: char| used.contains(c) implies offered.contains(c) by {
            let i = choose|i: int| 0 <= i < word.len() && word[i] == c;
            assert(lowered(word)[i] == lower(word[i]));
            assert(all.contains(lower(word[i])));
        }
    }
    lemma_len_subset(used, offered);
    if pangram(word) {
        lemma_subset_equality(used, offered);
        all.lemma_no_dup_set_cardinality();
        assert forall|i: int| 0 <= i < all.len() implies word.contains(#[trigger] all[i]) by {
            assert(offered.contains(all[i]));
        }
    }
    if all.no_duplicates() && uses_every_letter(center, ring, word) {
        all.unique_seq_to_set();
        assert(offered.subset_of(used)) by {
            assert forall|c: char| offered.contains(c) implies used.contains(c) by {
                let i = choose|i: int| 0 <= i < all.len() && all[i] == c;
                assert(word.contains(all[i]));
            }
        }
        assert(used =~= offered);
    }
}

/// A puzzle in which a letter is given twice, be it that the center stands in
/// the ring as well or that the ring repeats a letter, has no pangram among
/// the lower-case words that answer it.
pub proof fn lemma_repeated_letter_no_pangram(center: char, ring: Seq<char>, word: Seq<char>)
    requires
        ring.len() == RING_LETTERS,
        qualifies(center, ring, word),
        lowered(word) == word,
        !letters(center, ring).no_duplicates(),
    ensures
        !pangram(word),
{
    lemma_pangram_uses_every_letter(center, ring, word);
}

/// A puzzle: the letter every word has to hold, and the six that it may hold
/// besides.
#[derive(Debug, Clone, Copy)]
pub struct Game {
    pub center: char,
    pub ring: [char; 6],
}

impl Game {
    /// Whether the puzzle lets `c` stand in a word.
    pub open spec fn allows(&self, c: char) -> bool {
        allowed(self.center, self.ring@, c)
    }

    /// Whether `word` answers the puzzle.
    pub open spec fn admits(&self, word: Seq<char>) -> bool {
        qualifies(self.center, self.ring@, word)
    }

    /// Sets up the puzzle with `center` in the middle and the six characters
    /// of `ring` around it, each in lower case.
    ///
    /// The ring has to be six characters, or the result is
    /// `InvalidRingLength`; all six alphabetic, or it is
    /// `InvalidRingCharacters`; and the center alphabetic, or it is
    /// `InvalidCenterCharacter`. Whether the center occurs in the ring as well
    /// is not looked at: such a puzzle has fewer than seven letters and
    /// therefore no pangram among lower-case words.
    pub fn new(center: char, ring: &str) -> (made: Result<Game, GameError>)
        ensures
            made is Ok <==> rejection(center, ring@) is None,
            made matches Err(e) ==> rejection(center, ring@) == Some(e),
            made matches Ok(game) ==> game.center == lower(center) && game.ring@ == lowered(ring@),
            ring@.len() == RING_LETTERS && has_ascii_non_letter(ring@) ==> made == Err::<
                Game,
                GameError,
            >(GameError::InvalidRingCharacters),
            ring@.len() == RING_LETTERS && all_ascii_letters(ring@) && is_ascii_letter(center)
                ==> made is Ok,
            ring@.len() == RING_LETTERS && all_ascii_letters(ring@) && center <= '\x7f'
                && !is_ascii_letter(center) ==> made == Err::<Game, GameError>(
                GameError::InvalidCenterCharacter,
            ),
    {
        if ring.unicode_len() != RING_LETTERS {
            return Err(GameError::InvalidRingLength);
        }
        if !only_letters(ring) {
            return Err(GameError::InvalidRingCharacters);
        }
        if !center.is_alphabetic() {
            return Err(GameError::InvalidCenterCharacter);
        }
        let low: char = to_lower(center);
        let mut letters: [char; 6] = [low; 6];
        let mut i: usize = 0;
        for c in it: ring.chars()
            invariant
                it.seq() == ring@,
                ring@.len() == RING_LETTERS,
                i == it.index(),
                forall|j: int| 0 <= j < i ==> letters@[j] == lower(ring@[j]),
        {
            letters[i] = to_lower(c);
            i = i + 1;
        }
        assert(letters@ =~= lowered(ring@));
        Ok(Game { center: low, ring: letters })
    }

    /// The puzzle's letters in lower case, the center first, then the ring.
    pub fn letters(&self) -> (all: [char; 7])
        ensures
            all@ == letters(self.center, self.ring@),
    {
        let first: char = to_lower(self.center);
        let mut all: [char; 7] = [first; 7];
        let mut i: usize = 0;
        while i < RING_LETTERS
            invariant
                i <= RING_LETTERS,
                all@[0] == lower(self.center),
                forall|j: int| 0 <= j < i ==> all@[j + 1] == lower(self.ring@[j]),
            decreases RING_LETTERS - i,
        {
            all[i + 1] = to_lower(self.ring[i]);
            i = i + 1;
        }
        assert(all@ =~= letters(self.center, self.ring@));
        all
    }

    /// Whether the puzzle lets `c` stand in a word.
    pub fn permits(&self, c: char) -> (b: bool)
        ensures
            b == self.allows(c),
    {
        let all: [char; 7] = self.letters();
        among(&all, to_lower(c))
    }

    /// Whether `word` answers the puzzle: it holds the center letter and
    /// nothing but the puzzle's letters, case left aside.
    pub fn accepts(&self, word: &str) -> (b: bool)
        ensures
            b == self.admits(word@),
    {
        let all: [char; 7] = self.letters();
        spells(&all, word)
    }
}

/// Whether `c` is one of `letters`.
fn among(letters: &[char; 7], c: char) -> (found: bool)
    ensures
        found == letters@.contains(c),
{
    let mut i: usize = 0;
    while i < LETTERS
        invariant
            i <= LETTERS,
            forall|j: int| 0 <= j < i ==> letters@[j] != c,
        decreases LETTERS - i,
    {
        if letters[i] == c {
            return true;
        }
        i = i + 1;
    }
    false
}

/// Whether `word`, in lower case, holds the first of `letters` and nothing
/// but `letters`.
pub(crate) fn spells(letters: &[char; 7], word: &str) -> (b: bool)
    ensures
        b == spelled_with(letters@, word@),
{
    let center: char = letters[0];
    let mut centered: bool = false;
    for c in it: word.chars()
        invariant
            it.seq() == word@,
            center == letters@[0],
            centered == lowered(word@).take(it.index()).contains(center),
            forall|j: int| 0 <= j < it.index() ==> letters@.contains(lower(#[trigger] word@[j])),
    {
        let ghost at = it.index();
        let letter: char = to_lower(c);
        if !among(letters, letter) {
            return false;
        }
        if letter == center {
            centered = true;
        }
        proof {
            let before = lowered(word@).take(at);
            let after = lowered(word@).take(at + 1);
            assert(after == before.push(letter));
            if before.contains(center) {
                let k = choose|k: int| 0 <= k < before.len() && before[k] == center;
                assert(after[k] == center);
            }
            if letter == center {
                assert(after[at] == center);
            }
        }
    }
    assert(lowered(word@).take(word@.len() as int) == lowered(word@));
    centered
}

/// The message for a ring that is not six letters.
pub open spec fn ring_advice() -> Seq<char> {
    "Ring must contain exactly 6 letters"@
}

/// Whether every character of `text` is alphabetic.
fn only_letters(text: &str) -> (b: bool)
    ensures
        b == all_alphabetic(text@),
        has_ascii_non_letter(text@) ==> !b,
        all_ascii_letters(text@) ==> b,
{
    for c in it: text.chars()
        invariant
            it.seq() == text@,
            forall|j: int| 0 <= j < it.index() ==> alphabetic(#[trigger] text@[j]),
            forall|j: int| 0 <= j < it.index() ==> ascii_agrees(#[trigger] text@[j]),
    {
        if !c.is_alphabetic() {
            return false;
        }
    }
    proof {
        if has_ascii_non_letter(text@) {
            let k = choose|k: int|
                0 <= k < text@.len() && #[trigger] text@[k] <= '\x7f' && !is_ascii_letter(
                    text@[k],
                );
            assert(ascii_agrees(text@[k]));
        }
    }
    true
}

/// Checks the ring that a user typed, before a puzzle is made of it: six
/// characters, each of them alphabetic. A ring that passes comes back as it
/// was given; any other is answered with a sentence for the user.
pub fn validate_ring(ring: &str) -> (checked: Result<String, String>)
    ensures
        ring_is_valid(ring@) ==> (checked matches Ok(same) && same@ == ring@),
        !ring_is_valid(ring@) ==> (checked matches Err(advice) && advice@ == ring_advice()),
        ring@.len() == RING_LETTERS && all_ascii_letters(ring@) ==> checked is Ok,
        ring@.len() != RING_LETTERS || has_ascii_non_letter(ring@) ==> checked is Err,
{
    if ring.unicode_len() == RING_LETTERS && only_letters(ring) {
        Ok(ring.to_owned())
    } else {
        Err("Ring must contain exactly 6 letters".to_owned())
    }
}

} // verus!
