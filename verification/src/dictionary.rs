//! The word list: unpacking it from its gzip form and splitting it into
//! words, one to a line.

use libflate::gzip::Decoder;
use std::io::Read;
use vstd::prelude::*;

verus! {

/// The text that a gzip stream holds: what `libflate`'s gzip decoder yields
/// for these bytes, read as UTF-8. `None` where the bytes are no gzip stream,
/// where the stream is damaged, and where what it holds is not UTF-8.
pub uninterp spec fn gzip_text(compressed: Seq<u8>) -> Option<Seq<char>>;

/// `std::io::Error`, with which the decoder reports a stream that it cannot
/// read. It is carried through and never looked into.
#[verifier::external_type_specification]
#[verifier::external_body]
pub struct ExIoError(std::io::Error);

/// `libflate::gzip::Decoder::new` on the bytes, and `Read::read_to_string` on
/// the decoder it makes: the text of the stream, or the error of whichever of
/// the two steps failed. The same bytes always decode to the same text.
#[verifier::external_body]
fn gunzip(compressed: &[u8]) -> (decoded: Result<String, std::io::Error>)
    ensures
        decoded matches Ok(text) ==> gzip_text(compressed@) == Some(text@),
        decoded is Err ==> gzip_text(compressed@) is None,
{
    let mut text = String::new();
    let mut decoder = Decoder::new(compressed)?;
    decoder.read_to_string(&mut text)?;
    Ok(text)
}

/// `String::push` puts one character at the end of the string.
pub assume_specification[ String::push ](text: &mut String, c: char)
    ensures
        final(text)@ == old(text)@.push(c),
;

/// The word list could not be had from the bytes that were to hold it.
#[derive(Debug, Clone, Copy, PartialEq, Eq, Structural)]
pub enum DictionaryError {
    /// The bytes are no gzip stream of UTF-8 text.
    Undecodable,
}

impl DictionaryError {
    /// The sentence that tells a user what went wrong.
    pub fn message(&self) -> (text: String)
        ensures
            text@ == "Failed to decompress dictionary"@,
    {
        "Failed to decompress dictionary".to_owned()
    }
}

/// Unpacks the word list from its gzip form.
///
/// Bytes that hold no word list are answered with an error and never with a
/// part of a list. What is to happen then is the caller's to say: a program
/// that cannot go on without its word list stops there.
pub fn get_dict(compressed: &[u8]) -> (unpacked: Result<String, DictionaryError>)
    ensures
        unpacked matches Ok(text) ==> gzip_text(compressed@) == Some(text@),
        unpacked is Err <==> gzip_text(compressed@) is None,
{
    match gunzip(compressed) {
        Ok(text) => Ok(text),
        Err(_) => Err(DictionaryError::Undecodable),
    }
}

/// Where the first line of `text` ends: at its first line feed, or at its end
/// if it holds none.
pub open spec fn line_end(text: Seq<char>) -> int
    decreases text.len(),
{
    if text.len() == 0 || text[0] == '\n' {
        0
    } else {
        1 + line_end(text.skip(1))
    }
}

/// A line without the carriage return that may stand at its end.
pub open spec fn without_cr(line: Seq<char>) -> Seq<char> {
    if line.len() > 0 && line.last() == '\r' {
        line.drop_last()
    } else {
        line
    }
}

/// The lines of a text. A line ends with a line feed, or with a carriage
/// return and a line feed; neither belongs to the line. What follows the last
/// line feed is a line too, unless nothing follows it.
pub open spec fn lines_of(text: Seq<char>) -> Seq<Seq<char>>
    decreases text.len(),
{
    let end = line_end(text);
    if text.len() == 0 {
        Seq::empty()
    } else if end >= text.len() {
        seq![text]
    } else {
        proof {
            lemma_line_end(text);
        }
        seq![without_cr(text.take(end))] + lines_of(text.skip(end + 1))
    }
}

/// `line_end` points at the first line feed.
pub proof fn lemma_line_end(text: Seq<char>)
    ensures
        0 <= line_end(text) <= text.len(),
        forall|j: int| 0 <= j < line_end(text) ==> text[j] != '\n',
        line_end(text) < text.len() ==> text[line_end(text)] == '\n',
    decreases text.len(),
{
    if text.len() == 0 || text[0] == '\n' {
    } else {
        let rest = text.skip(1);
        lemma_line_end(rest);
        assert forall|j: int| 0 <= j < line_end(text) implies text[j] != '\n' by {
            if j > 0 {
                assert(text[j] == rest[j - 1]);
            }
        }
        if line_end(text) < text.len() {
            assert(text[line_end(text)] == rest[line_end(rest)]);
        }
    }
}

/// The first line feed is where `line_end` points.
pub proof fn lemma_line_end_is(text: Seq<char>, end: int)
    requires
        0 <= end <= text.len(),
        forall|j: int| 0 <= j < end ==> text[j] != '\n',
        end < text.len() ==> text[end] == '\n',
    ensures
        line_end(text) == end,
{
    lemma_line_end(text);
    let found = line_end(text);
    if found < end {
        assert(text[found] == '\n');
    } else if end < found {
        assert(text[end] != '\n');
    }
}

/// A text without a line feed is one line, unless it is empty.
pub proof fn lemma_unbroken_line(line: Seq<char>)
    requires
        line.len() > 0,
        forall|j: int| 0 <= j < line.len() ==> line[j] != '\n',
    ensures
        lines_of(line) == seq![line],
{
    lemma_line_end_is(line, line.len() as int);
}

/// A text that ends with its only line feed is one line.
pub proof fn lemma_closed_line(body: Seq<char>)
    requires
        forall|j: int| 0 <= j < body.len() ==> body[j] != '\n',
    ensures
        lines_of(body.push('\n')) == seq![without_cr(body)],
{
    let text = body.push('\n');
    let end = body.len() as int;
    lemma_line_end_is(text, end);
    assert(text.take(end) == body);
    assert(text.skip(end + 1).len() == 0);
    assert(lines_of(text.skip(end + 1)) == Seq::<Seq<char>>::empty());
    assert(seq![without_cr(body)] + Seq::<Seq<char>>::empty() == seq![without_cr(body)]);
}

/// Behind a line feed a text may be cut in two: the lines of the whole are
/// the lines of the first part and then those of the second.
pub proof fn lemma_lines_of_parts(head: Seq<char>, tail: Seq<char>)
    requires
        head.len() == 0 || head.last() == '\n',
    ensures
        lines_of(head + tail) == lines_of(head) + lines_of(tail),
    decreases head.len(),
{
    if head.len() == 0 {
        assert(head + tail == tail);
        assert(lines_of(head) + lines_of(tail) == lines_of(tail));
    } else {
        let whole = head + tail;
        let end = line_end(head);
        lemma_line_end(head);
        if end == head.len() {
            assert(head[head.len() - 1] != '\n');
        }
        assert forall|j: int| 0 <= j < end implies whole[j] != '\n' by {
            assert(whole[j] == head[j]);
        }
        assert(whole[end] == head[end]);
        lemma_line_end_is(whole, end);
        let rest = head.skip(end + 1);
        assert(whole.take(end) == head.take(end));
        assert(whole.skip(end + 1) == rest + tail);
        if rest.len() > 0 {
            assert(rest.last() == head.last());
        }
        lemma_lines_of_parts(rest, tail);
        let first = seq![without_cr(head.take(end))];
        assert(first + (lines_of(rest) + lines_of(tail)) == (first + lines_of(rest)) + lines_of(
            tail,
        ));
    }
}

/// The character views of a list of strings.
pub open spec fn texts(words: Seq<String>) -> Seq<Seq<char>> {
    Seq::new(words.len(), |i: int| words[i]@)
}

/// Splits a text into its lines.
pub fn lines(text: &str) -> (found: Vec<String>)
    ensures
        texts(found@) == lines_of(text@),
{
    let mut found: Vec<String> = Vec::new();
    let mut line = String::new();
    // A carriage return was read and is kept back until the next character
    // shows whether it belongs to the line or to the line's end.
    let mut held: bool = false;
    let ghost mut start: int = 0;
    for c in it: text.chars()
        invariant
            it.seq() == text@,
            0 <= start <= it.index(),
            start == 0 || text@[start - 1] == '\n',
            forall|j: int| start <= j < it.index() ==> text@[j] != '\n',
            texts(found@) == lines_of(text@.take(start)),
            text@.subrange(start, it.index()) == if held {
                line@.push('\r')
            } else {
                line@
            },
            !held && line@.len() > 0 ==> line@.last() != '\r',
    {
        let ghost at = it.index();
        let ghost body = text@.subrange(start, at);
        if c == '\n' {
            proof {
                let head = text@.take(start);
                assert(text@.take(at + 1) == head + body.push('\n'));
                lemma_lines_of_parts(head, body.push('\n'));
                lemma_closed_line(body);
                assert(without_cr(body) == line@);
                assert(texts(found@.push(line)) == texts(found@).push(line@));
                start = at + 1;
            }
            found.push(line);
            line = String::new();
            held = false;
            assert(text@.subrange(start, at + 1) == line@);
        } else {
            if held {
                line.push('\r');
            }
            if c == '\r' {
                held = true;
            } else {
                line.push(c);
                held = false;
            }
            assert(text@.subrange(start, at + 1) == body.push(c));
        }
    }
    if held {
        line.push('\r');
    }
    let ghost rest = text@.subrange(start, text@.len() as int);
    if !line.as_str().is_empty() {
        proof {
            let head = text@.take(start);
            assert(text@ == head + rest);
            lemma_lines_of_parts(head, rest);
            lemma_unbroken_line(rest);
            assert(texts(found@.push(line)) == texts(found@).push(line@));
        }
        found.push(line);
    } else {
        assert(text@.take(start) == text@);
    }
    found
}

/// A word list: the candidate words of every puzzle, in the order in which
/// their source lists them.
#[derive(Debug)]
pub struct Dictionary {
    pub words: Vec<String>,
}

impl View for Dictionary {
    type V = Seq<Seq<char>>;

    open spec fn view(&self) -> Seq<Seq<char>> {
        texts(self.words@)
    }
}

/// Whether `loaded` is what comes of loading a word list from these bytes:
/// the lines of the text that the gzip stream holds, or an error where the
/// bytes hold none.
pub open spec fn loads(compressed: Seq<u8>, loaded: Result<Dictionary, DictionaryError>) -> bool {
    match gzip_text(compressed) {
        Some(text) => loaded matches Ok(dictionary) && dictionary@ == lines_of(text),
        None => loaded is Err,
    }
}

impl Dictionary {
    /// The word list with one word for each line of `text`.
    pub fn from_text(text: &str) -> (dictionary: Dictionary)
        ensures
            dictionary@ == lines_of(text@),
    {
        Dictionary { words: lines(text) }
    }

    /// The word list that a gzip stream holds, one word to a line.
    pub fn from_gzip(compressed: &[u8]) -> (loaded: Result<Dictionary, DictionaryError>)
        ensures
            loads(compressed@, loaded),
    {
        match get_dict(compressed) {
            Ok(text) => Ok(Dictionary::from_text(text.as_str())),
            Err(e) => Err(e),
        }
    }

    /// The number of words.
    pub fn len(&self) -> (n: usize)
        ensures
            n == self@.len(),
    {
        self.words.len()
    }

    /// The last word of the list, if it has any.
    pub fn last(&self) -> (word: Option<&str>)
        ensures
            self@.len() == 0 ==> word is None,
            self@.len() > 0 ==> (word matches Some(w) && w@ == self@.last()),
    {
        let n: usize = self.words.len();
        if n == 0 {
            None
        } else {
            Some(self.words[n - 1].as_str())
        }
    }
}

/// Loading is repeatable: two loads from the same bytes both fail or both
/// give the same words, and so the same number of words and the same last
/// word.
pub proof fn lemma_loading_is_repeatable(
    compressed: Seq<u8>,
    first: Result<Dictionary, DictionaryError>,
    second: Result<Dictionary, DictionaryError>,
)
    requires
        loads(compressed, first),
        loads(compressed, second),
    ensures
        first is Ok <==> second is Ok,
        first is Ok ==> {
            &&& first->Ok_0@ == second->Ok_0@
            &&& first->Ok_0@.len() == second->Ok_0@.len()
            &&& first->Ok_0@.len() > 0 ==> first->Ok_0@.last() == second->Ok_0@.last()
        },
{
}

} // verus!
