use typeshift_solver::index::{
    count_chars, create_dict, create_index, dict_with_counts, is_word, load_dictionary,
    load_dictionary_between, load_index, LINE_END, MAX_WORD_LEN, MIN_WORD_LEN,
};

fn dict(words: &[&str]) -> Vec<String> {
    words.iter().map(|w| w.to_string()).collect()
}

#[test]
fn create_index_writes_one_word_per_line() {
    assert_eq!(create_index(&dict(&["above", "basic"])), b"above\nbasic\n".to_vec());
    assert_eq!(create_index(&dict(&[])), Vec::<u8>::new());
    assert_eq!(create_index(&dict(&[""])), vec![LINE_END]);
    assert_eq!(create_index(&dict(&["h\u{e9}"])), vec![b'h', 0xc3, 0xa9, b'\n']);
}

#[test]
fn count_chars_counts_each_letter() {
    let counts = count_chars("heyyy");

    assert_eq!(counts[(b'h' - b'a') as usize], 1);
    assert_eq!(counts[(b'e' - b'a') as usize], 1);
    assert_eq!(counts[(b'y' - b'a') as usize], 3);
    assert_eq!(counts[25], 0);
    assert_eq!(counts.iter().sum::<usize>(), 5);
    assert_eq!(count_chars(""), [0usize; 26]);
}

#[test]
fn dict_with_counts_selects_by_length() {
    let words = dict(&["above", "cat", "basic", "bas1c", "Basic", "wheels"]);
    let found = dict_with_counts(&words, 5);

    assert_eq!(found.len(), 2);
    assert_eq!(found[0].0, "above");
    assert_eq!(found[0].1, count_chars("above"));
    assert_eq!(found[1].0, "basic");
    assert_eq!(found[1].1[0], 1);
    assert_eq!(found[1].1[1], 1);
    assert_eq!(found[1].1[2], 1);
    assert_eq!(found[1].1[3], 0);
    assert_eq!(dict_with_counts(&words, 4).len(), 0);
    assert_eq!(dict_with_counts(&words, 3).len(), 1);
}

#[test]
fn is_word_wants_lowercase_letters() {
    assert!(is_word("above"));
    assert!(is_word(""));
    assert!(!is_word("Above"));
    assert!(!is_word("abo ve"));
    assert!(!is_word("abov\u{e9}"));
}

#[test]
fn load_dictionary_keeps_words_of_the_right_length() {
    let text = "\"cat\"\n\"above\"\n\"wheels\"\n\"whistle\"\n\"bask\"\n";

    assert_eq!(MIN_WORD_LEN, 4);
    assert_eq!(MAX_WORD_LEN, 6);
    assert_eq!(load_dictionary(text), Some(dict(&["above", "wheels", "bask"])));
}

#[test]
fn load_dictionary_reads_a_last_line_without_line_break() {
    assert_eq!(load_dictionary("\"above\"\n\"basic\""), Some(dict(&["above", "basic"])));
    assert_eq!(load_dictionary("\"above\""), Some(dict(&["above"])));
    assert_eq!(load_dictionary(""), Some(dict(&[])));
}

#[test]
fn load_dictionary_wants_quoted_lines() {
    assert_eq!(load_dictionary("above\n"), None);
    assert_eq!(load_dictionary("\"above\"\n\n\"basic\"\n"), None);
    assert_eq!(load_dictionary("\"above\n"), None);
    assert_eq!(load_dictionary("above\"\n"), None);
    assert_eq!(load_dictionary("\"\n"), None);
    assert_eq!(load_dictionary("\"above\"\r\n"), None);
    assert_eq!(load_dictionary("\"above\"\nbasic"), None);
    assert_eq!(load_dictionary("\"\"\n"), Some(dict(&[])));
}

#[test]
fn load_dictionary_keeps_the_characters_between_the_quotes() {
    assert_eq!(load_dictionary("\"a\"b\"c\"\n"), Some(dict(&["a\"b\"c"])));
    assert_eq!(load_dictionary("\"h\u{e9}llo\"\n"), Some(dict(&["h\u{e9}llo"])));
}

#[test]
fn load_index_reads_one_word_per_line() {
    assert_eq!(load_index(b"above\nbasic\n"), Some(dict(&["above", "basic"])));
    assert_eq!(load_index(b"above\nbasic"), Some(dict(&["above", "basic"])));
    assert_eq!(load_index(b""), Some(dict(&[])));
    assert_eq!(load_index(b"\n"), Some(dict(&[""])));
    assert_eq!(load_index(b"a\n\nb\n"), Some(dict(&["a", "", "b"])));
    assert_eq!(load_index(&[b'h', 0xc3, 0xa9, b'\n']), Some(dict(&["h\u{e9}"])));
}

#[test]
fn load_index_wants_utf8() {
    assert_eq!(load_index(&[b'a', b'\n', 0xff, b'\n']), None);
    assert_eq!(load_index(&[0xc3]), None);
    assert_eq!(load_index(&[0xc3, b'\n', 0xa9]), None);
}

#[test]
fn index_is_read_back_as_written() {
    let words = dict(&["above", "basic", "h\u{e9}llo", "", "whups"]);

    assert_eq!(load_index(&create_index(&words)), Some(words));
}

#[test]
fn load_dictionary_between_takes_its_limits() {
    let text = "\"cat\"\n\"above\"\n\"wheels\"\n\"whistle\"\n\"whistles\"\n";

    assert_eq!(
        load_dictionary_between(text, 4, 7),
        Some(dict(&["above", "wheels", "whistle"]))
    );
    assert_eq!(load_dictionary_between(text, 0, 3), Some(dict(&["cat"])));
    assert_eq!(load_dictionary_between(text, 6, 5), Some(dict(&[])));
    assert_eq!(load_dictionary_between("cat", 0, 9), None);
}

#[test]
fn create_dict_writes_the_words_as_an_array() {
    assert_eq!(
        create_dict(&dict(&["above", "basic"])),
        "/// The reduced word list\npub static DICT: [&str; 2] = [\n    \"above\",\n    \"basic\",\n];\n"
    );
    assert_eq!(
        create_dict(&dict(&[])),
        "/// The reduced word list\npub static DICT: [&str; 0] = [\n];\n"
    );
}

#[test]
fn create_dict_counts_in_decimal() {
    let words: Vec<String> = (0..12).map(|_| "word".to_string()).collect();
    let source = create_dict(&words);

    assert!(source.starts_with("/// The reduced word list\npub static DICT: [&str; 12] = [\n"));
    assert_eq!(source.matches("    \"word\",\n").count(), 12);
    assert!(source.ends_with("\",\n];\n"));
}
