use wordle_solver::word::WordError;
use wordle_solver::wordlist::Wordlist;

fn members(pool: &Wordlist) -> Vec<String> {
    pool.words().iter().map(|w| w.text()).collect()
}

#[test]
fn dictionary_holds_one_word_for_each_line() {
    let pool = Wordlist::parse(b"apple\nangle\nankle\nample\n").unwrap();
    assert_eq!(pool.len(), 4);
    assert_eq!(members(&pool), vec!["ample", "angle", "ankle", "apple"]);
}

#[test]
fn dictionary_without_a_final_line_end_is_read_whole() {
    let pool = Wordlist::parse(b"apple\nangle").unwrap();
    assert_eq!(members(&pool), vec!["angle", "apple"]);
    let one = Wordlist::parse(b"apple").unwrap();
    assert_eq!(members(&one), vec!["apple"]);
}

#[test]
fn lines_are_trimmed() {
    let pool = Wordlist::parse(b"  apple \r\n\tangle\r\n\n  \nankle\x0c").unwrap();
    assert_eq!(members(&pool), vec!["angle", "ankle", "apple"]);
}

#[test]
fn lines_of_another_length_are_passed_over() {
    let pool = Wordlist::parse(b"apple\nfour\nsixsix\n\nan gle\nA\nangle\n").unwrap();
    assert_eq!(members(&pool), vec!["angle", "apple"]);
}

#[test]
fn a_word_given_twice_is_one_member() {
    let pool = Wordlist::parse(b"apple\nangle\napple\n apple\n").unwrap();
    assert_eq!(members(&pool), vec!["angle", "apple"]);
}

#[test]
fn empty_text_is_an_empty_dictionary() {
    assert!(Wordlist::parse(b"").unwrap().is_empty());
    assert!(Wordlist::parse(b"\n\n \n").unwrap().is_empty());
}

#[test]
fn five_bytes_that_are_no_word_fail_the_whole_reading() {
    assert_eq!(Wordlist::parse(b"apple\nAngle\nankle\n").err(), Some(WordError::NotLowercase));
    assert_eq!(Wordlist::parse(b"apple\nan le\n").err(), Some(WordError::NotLowercase));
    assert_eq!(Wordlist::parse(b"12345").err(), Some(WordError::NotLowercase));
    assert_eq!(Wordlist::parse("caf\u{e9}s\n".as_bytes()).err(), None);
    assert_eq!(Wordlist::parse("ab\u{e9}d\n".as_bytes()).err(), Some(WordError::NotLowercase));
    assert_eq!(Wordlist::parse(b"apple\nangl\xff\n").err(), Some(WordError::NotLowercase));
}
