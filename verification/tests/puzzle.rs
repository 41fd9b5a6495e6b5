use typeshift_solver::puzzle::{place_word, text_is_less, SolverError, Typeshift};

fn dict(words: &[&str]) -> Vec<String> {
    words.iter().map(|w| w.to_string()).collect()
}

#[test]
fn new_keeps_only_spellable_words() {
    let words = dict(&["cat", "cot", "dog", "cog", "cats", "at", "cut", "c0t"]);
    let puzzle = Typeshift::new("cd\nao\ntg\n", &words).unwrap();

    assert_eq!(puzzle.size(), 4);
    assert_eq!(puzzle.width(), 3);
    assert_eq!(puzzle.word(0), "cat");
    assert_eq!(puzzle.word(1), "cot");
    assert_eq!(puzzle.word(2), "dog");
    assert_eq!(puzzle.word(3), "cog");
}

#[test]
fn candidates_keep_the_order_and_the_repeats_of_the_dictionary() {
    let words = dict(&["dog", "cot", "cat", "dog", "cog", "cat", "dot", "cut"]);
    let puzzle = Typeshift::new("cd\nao\ntg", &words).unwrap();

    assert_eq!(puzzle.size(), 7);
    assert_eq!(puzzle.word(0), "dog");
    assert_eq!(puzzle.word(1), "cot");
    assert_eq!(puzzle.word(2), "cat");
    assert_eq!(puzzle.word(3), "dog");
    assert_eq!(puzzle.word(4), "cog");
    assert_eq!(puzzle.word(5), "cat");
    assert_eq!(puzzle.word(6), "dot");
    assert_eq!(puzzle.word_string(6), "dot");
    assert_eq!(puzzle.char_freq('d'), 3);
    assert_eq!(puzzle.char_freq('c'), 4);
    assert_eq!(puzzle.char_freq('a'), 2);
}

#[test]
fn a_word_twice_in_the_dictionary_is_two_candidates() {
    let puzzle = Typeshift::new("c\na\nt", &dict(&["cat", "cat"])).unwrap();

    assert_eq!(puzzle.size(), 2);
    assert_eq!(puzzle.find_first_solution(), Ok((dict(&["cat"]), 2)));
    assert_eq!(puzzle.find_all_solutions(), Ok((vec![dict(&["cat"])], 3)));
}

#[test]
fn place_word_keeps_the_order_of_texts() {
    let mut words = dict(&["basic", "study"]);
    place_word(&mut words, &"above".to_string());
    place_word(&mut words, &"wheel".to_string());
    place_word(&mut words, &"steel".to_string());
    place_word(&mut words, &"basic".to_string());

    assert_eq!(words, dict(&["above", "basic", "steel", "study", "wheel"]));
}

#[test]
fn text_order_goes_by_the_first_difference() {
    assert!(text_is_less("cat", "cot"));
    assert!(!text_is_less("cot", "cat"));
    assert!(!text_is_less("cat", "cat"));
    assert!(text_is_less("ca", "cat"));
    assert!(!text_is_less("cat", "ca"));
    assert!(text_is_less("", "a"));
    assert!(!text_is_less("", ""));
    assert!(text_is_less("az", "b"));
}

#[test]
fn new_reads_columns_line_by_line() {
    let puzzle = Typeshift::new("ba\nxx\nc", &dict(&[])).unwrap();

    assert_eq!(puzzle.width(), 3);
    assert!(puzzle.column(0).contains('a'));
    assert!(puzzle.column(0).contains('b'));
    assert!(!puzzle.column(0).contains('x'));
    assert!(puzzle.column(1).contains('x'));
    assert!(puzzle.column(2).contains('c'));
    assert!(!puzzle.column(2).contains('a'));
}

#[test]
fn trailing_line_break_adds_no_column() {
    let with = Typeshift::new("ab\ncd\n", &dict(&[])).unwrap();
    let without = Typeshift::new("ab\ncd", &dict(&[])).unwrap();

    assert_eq!(with.width(), 2);
    assert_eq!(without.width(), 2);
}

#[test]
fn empty_line_is_a_column_without_letters() {
    let puzzle = Typeshift::new("ab\n\ncd", &dict(&["axc"])).unwrap();

    assert_eq!(puzzle.width(), 3);
    assert_eq!(puzzle.size(), 0);
}

#[test]
fn empty_input_is_invalid() {
    assert_eq!(
        Typeshift::new("", &dict(&["cat"])).err(),
        Some(SolverError::InvalidPuzzleInput)
    );
}

#[test]
fn non_letters_are_invalid() {
    let words = dict(&["cat"]);

    assert_eq!(Typeshift::new("ab\nC\n", &words).err(), Some(SolverError::InvalidPuzzleInput));
    assert_eq!(Typeshift::new("ab c", &words).err(), Some(SolverError::InvalidPuzzleInput));
    assert_eq!(Typeshift::new("ab\r\ncd", &words).err(), Some(SolverError::InvalidPuzzleInput));
    assert_eq!(Typeshift::new("a1", &words).err(), Some(SolverError::InvalidPuzzleInput));
    assert_eq!(Typeshift::new("\u{e9}", &words).err(), Some(SolverError::InvalidPuzzleInput));
}

#[test]
fn duplicate_letters_in_a_line_collapse() {
    let puzzle = Typeshift::new("aab\nbbb", &dict(&["ab", "bb", "ba"])).unwrap();

    assert_eq!(puzzle.size(), 2);
    assert_eq!(puzzle.word(0), "ab");
    assert_eq!(puzzle.word(1), "bb");
}

#[test]
fn char_freq_counts_letters_of_candidates() {
    let words = dict(&["cat", "cot", "dog", "cog", "zzz"]);
    let puzzle = Typeshift::new("cd\nao\ntg", &words).unwrap();

    assert_eq!(puzzle.char_freq('c'), 3);
    assert_eq!(puzzle.char_freq('o'), 3);
    assert_eq!(puzzle.char_freq('a'), 1);
    assert_eq!(puzzle.char_freq('t'), 2);
    assert_eq!(puzzle.char_freq('g'), 2);
    assert_eq!(puzzle.char_freq('d'), 1);
    assert_eq!(puzzle.char_freq('z'), 0);
}
