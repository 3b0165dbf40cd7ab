use bee_solver::dictionary::lines;
use bee_solver::{get_dict, Dictionary, DictionaryError};
use libflate::gzip::Encoder;
use std::io::Write;

fn gzip(data: &[u8]) -> Vec<u8> {
    let mut encoder = Encoder::new(Vec::new()).unwrap();
    encoder.write_all(data).unwrap();
    encoder.finish().into_result().unwrap()
}

#[test]
fn dict() {
    let packed = gzip(b"aah\naardvark\nopenhanded\nzythum\n");
    assert_eq!(get_dict(&packed).unwrap().lines().last().unwrap(), "zythum");
}

#[test]
fn get_dict_unpacks_a_known_stream() {
    let packed: [u8; 35] = [
        31, 139, 8, 0, 123, 0, 0, 0, 0, 3, 1, 12, 0, 243, 255, 72, 101, 108, 108, 111, 32, 87,
        111, 114, 108, 100, 33, 163, 28, 41, 28, 12, 0, 0, 0,
    ];
    assert_eq!(get_dict(&packed).unwrap(), "Hello World!");
}

#[test]
fn get_dict_gives_back_what_was_packed() {
    let text = "aah\naardvark\nétude\nzythum\n";
    let packed = gzip(text.as_bytes());
    assert_ne!(packed, text.as_bytes());
    assert_eq!(get_dict(&packed).unwrap(), text);
    assert_eq!(get_dict(&gzip(b"")).unwrap(), "");
}

#[test]
fn bytes_that_are_no_gzip_stream_are_undecodable() {
    assert_eq!(get_dict(b"aah\nzythum\n").unwrap_err(), DictionaryError::Undecodable);
    assert_eq!(get_dict(&[]).unwrap_err(), DictionaryError::Undecodable);
    assert!(Dictionary::from_gzip(b"not gzip").is_err());
}

#[test]
fn damaged_stream_is_undecodable() {
    let mut packed = gzip(b"aah\naardvark\nopenhanded\nzythum\n");
    let cut = packed.len() - 6;
    packed.truncate(cut);
    assert_eq!(get_dict(&packed).unwrap_err(), DictionaryError::Undecodable);
}

#[test]
fn stream_that_holds_no_utf8_is_undecodable() {
    let packed = gzip(&[0x61, 0xff, 0xfe, 0x0a]);
    assert_eq!(get_dict(&packed).unwrap_err(), DictionaryError::Undecodable);
}

#[test]
fn dictionary_error_message() {
    assert_eq!(
        DictionaryError::Undecodable.message(),
        "Failed to decompress dictionary"
    );
}

#[test]
fn dictionary_from_gzip_has_one_word_per_line() {
    let dictionary = Dictionary::from_gzip(&gzip(b"aah\naardvark\nzythum\n")).unwrap();
    assert_eq!(dictionary.words, vec!["aah", "aardvark", "zythum"]);
    assert_eq!(dictionary.len(), 3);
    assert_eq!(dictionary.last(), Some("zythum"));
}

#[test]
fn loading_twice_gives_the_same_count_and_last_word() {
    let packed = gzip(b"aah\naardvark\nopenhanded\nzythum\n");
    let first = Dictionary::from_gzip(&packed).unwrap();
    let second = Dictionary::from_gzip(&packed).unwrap();
    assert_eq!(first.len(), 4);
    assert_eq!(first.len(), second.len());
    assert_eq!(first.last(), Some("zythum"));
    assert_eq!(first.last(), second.last());
    assert_eq!(first.words, second.words);
}

#[test]
fn empty_dictionary_has_no_last_word() {
    let dictionary = Dictionary::from_text("");
    assert_eq!(dictionary.len(), 0);
    assert_eq!(dictionary.last(), None);
}

#[test]
fn lines_end_with_a_line_feed() {
    assert_eq!(lines("aah\nhand\nzythum\n"), vec!["aah", "hand", "zythum"]);
    assert_eq!(lines("aah\nhand\nzythum"), vec!["aah", "hand", "zythum"]);
    assert_eq!(lines("aah"), vec!["aah"]);
}

#[test]
fn empty_text_has_no_line() {
    assert_eq!(lines(""), Vec::<String>::new());
}

#[test]
fn empty_lines_are_lines() {
    assert_eq!(lines("\n"), vec![""]);
    assert_eq!(lines("\n\n"), vec!["", ""]);
    assert_eq!(lines("a\n\nb\n"), vec!["a", "", "b"]);
    assert_eq!(lines("\na"), vec!["", "a"]);
}

#[test]
fn carriage_return_before_a_line_feed_belongs_to_the_line_end() {
    assert_eq!(lines("aah\r\nhand\r\n"), vec!["aah", "hand"]);
    assert_eq!(lines("aah\r\nhand"), vec!["aah", "hand"]);
    assert_eq!(lines("\r\n"), vec![""]);
}

#[test]
fn other_carriage_returns_belong_to_the_line() {
    assert_eq!(lines("a\rb\n"), vec!["a\rb"]);
    assert_eq!(lines("a\r"), vec!["a\r"]);
    assert_eq!(lines("a\r\r\n"), vec!["a\r"]);
    assert_eq!(lines("\r"), vec!["\r"]);
    assert_eq!(lines("\r\r"), vec!["\r\r"]);
    assert_eq!(lines("a\r\rb"), vec!["a\r\rb"]);
}

#[test]
fn lines_agree_with_the_standard_library() {
    let texts = [
        "",
        "\n",
        "\r",
        "\r\n",
        "\n\r",
        "a",
        "a\n",
        "a\r\n",
        "a\n\r\nb",
        "a\r\n\r\n",
        "a\rb\r\nc\n\rd\r",
        "étude\r\ndébut\nzythum",
        "\r\r\n\r\n\n\r",
    ];
    for text in texts {
        let expected: Vec<String> = text.lines().map(String::from).collect();
        assert_eq!(lines(text), expected);
    }
}
