use wordle_solver::word::{Word, WordError};

fn word(s: &str) -> Word {
    Word::from_bytes(s.as_bytes()).unwrap()
}

#[test]
fn word_is_built_from_five_lowercase_letters() {
    let w = word("apple");
    assert_eq!(w.bytes(), *b"apple");
    assert_eq!(w.text(), "apple");
    assert_eq!(w.at(0), b'a');
    assert_eq!(w.at(4), b'e');
}

#[test]
fn word_of_wrong_length_is_refused() {
    assert_eq!(Word::from_bytes(b"appl"), Err(WordError::WrongLength));
    assert_eq!(Word::from_bytes(b"apples"), Err(WordError::WrongLength));
    assert_eq!(Word::from_bytes(b""), Err(WordError::WrongLength));
}

#[test]
fn word_with_other_symbols_is_refused() {
    assert_eq!(Word::from_bytes(b"Apple"), Err(WordError::NotLowercase));
    assert_eq!(Word::from_bytes(b"app e"), Err(WordError::NotLowercase));
    assert_eq!(Word::from_bytes(b"appl{"), Err(WordError::NotLowercase));
    assert_eq!(Word::from_bytes(b"appl`"), Err(WordError::NotLowercase));
}
