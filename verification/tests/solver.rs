use typeshift_solver::partial::PartialSolution;
use typeshift_solver::ranking::{NodeRank, WordRank};
use typeshift_solver::{SolveMode, SolverError, Typeshift};

fn dict(words: &[&str]) -> Vec<String> {
    words.iter().map(|w| w.to_string()).collect()
}

fn strings(words: &[&str]) -> Vec<String> {
    dict(words)
}

const SMALL_INPUT: &str = "wsab\nhbta\noesu\ndpive\nlceys\n";

const LARGE_INPUT: &str = "cfgp\nhoir\nurfai\nmvens\npern\nsyr\n";

fn small_dict() -> Vec<String> {
    dict(&[
        "about", "above", "abuse", "basic", "basil", "bases", "study", "stove", "wheel", "whups",
        "whose", "shove", "sheds", "steel", "wisps", "house", "weeds",
    ])
}

fn large_dict() -> Vec<String> {
    dict(&[
        "chumps", "corves", "fifers", "granny", "poiser", "comers", "givers", "porers", "firers",
        "grimes", "primes", "horses", "cofers",
    ])
}

fn test_input(
    input: &str,
    words: &Vec<String>,
    expected_solution: &[&str],
    expected_steps: usize,
) {
    let typeshift = Typeshift::new(input, words).unwrap();
    let (solution, steps) = typeshift.find_first_solution().unwrap();

    assert_eq!(steps, expected_steps);
    assert_eq!(solution, strings(expected_solution));
}

#[test]
fn small_example() {
    let solution = ["above", "basic", "study", "wheel", "whups"];
    let steps = 18;

    test_input(SMALL_INPUT, &small_dict(), &solution, steps);
}

#[test]
fn large_example() {
    let solution = ["chumps", "corves", "fifers", "granny", "poiser"];
    let steps = 14;

    test_input(LARGE_INPUT, &large_dict(), &solution, steps);
}

#[test]
fn small_example_has_two_smallest_covers() {
    let typeshift = Typeshift::new(SMALL_INPUT, &small_dict()).unwrap();

    assert_eq!(typeshift.size(), 11);
    assert_eq!(
        typeshift.find_all_solutions(),
        Ok((
            vec![
                strings(&["above", "basic", "steel", "study", "whups"]),
                strings(&["above", "basic", "study", "wheel", "whups"]),
            ],
            34
        ))
    );
}

#[test]
fn large_example_has_one_smallest_cover() {
    let typeshift = Typeshift::new(LARGE_INPUT, &large_dict()).unwrap();

    assert_eq!(typeshift.size(), 10);
    assert_eq!(
        typeshift.find_all_solutions(),
        Ok((vec![strings(&["chumps", "corves", "fifers", "granny", "poiser"])], 26))
    );
}

#[test]
fn all_solutions_may_miss_a_smallest_cover() {
    let input = "be\nbde\ndf";
    let typeshift =
        Typeshift::new(input, &dict(&["bbd", "bef", "ebd", "ebf", "edd"])).unwrap();
    let missed = strings(&["bbd", "bef", "edd"]);

    assert_eq!(typeshift.find_first_solution(), Ok((strings(&["bef", "ebd", "edd"]), 5)));
    assert_eq!(
        typeshift.find_all_solutions(),
        Ok((vec![strings(&["bef", "ebd", "edd"]), strings(&["bef", "ebf", "edd"])], 9))
    );
    assert!(is_cover(input, &missed));
    assert!(fits(input, &missed));
}

#[test]
fn first_solution_may_not_be_a_smallest_cover() {
    let input = "cde\nab\nabe";
    let typeshift =
        Typeshift::new(input, &dict(&["cae", "daa", "dbb", "eab", "ebb"])).unwrap();
    let smaller = strings(&["cae", "daa", "ebb"]);

    assert_eq!(
        typeshift.find_first_solution(),
        Ok((strings(&["cae", "daa", "dbb", "eab"]), 5))
    );
    assert_eq!(
        typeshift.find_all_solutions(),
        Ok((
            vec![
                strings(&["cae", "daa", "dbb", "eab"]),
                strings(&["cae", "daa", "dbb", "ebb"]),
            ],
            6
        ))
    );
    assert!(is_cover(input, &smaller));
    assert!(fits(input, &smaller));
    assert_eq!(widest_column(input), 3);
}

fn is_cover(input: &str, solution: &[String]) -> bool {
    input.lines().enumerate().all(|(col, line)| {
        line.chars().all(|ch| solution.iter().any(|word| word.chars().nth(col) == Some(ch)))
    })
}

fn fits(input: &str, solution: &[String]) -> bool {
    let columns: Vec<&str> = input.lines().collect();
    solution.iter().all(|word| {
        word.chars().count() == columns.len()
            && word.chars().zip(columns.iter()).all(|(ch, col)| col.contains(ch))
    })
}

fn widest_column(input: &str) -> usize {
    input
        .lines()
        .map(|line| line.chars().collect::<std::collections::BTreeSet<char>>().len())
        .max()
        .unwrap()
}

#[test]
fn small_example_takes_one_word_per_letter_of_the_widest_column() {
    let typeshift = Typeshift::new(SMALL_INPUT, &small_dict()).unwrap();
    let (solution, _steps) = typeshift.find_first_solution().unwrap();

    assert_eq!(solution.len(), 5);
    assert_eq!(solution.len(), widest_column(SMALL_INPUT));
    assert!(is_cover(SMALL_INPUT, &solution));
    assert!(fits(SMALL_INPUT, &solution));
}

#[test]
fn empty_dictionary_has_no_cover() {
    let typeshift = Typeshift::new(SMALL_INPUT, &dict(&[])).unwrap();

    assert_eq!(typeshift.size(), 0);
    assert_eq!(typeshift.find_first_solution().err(), Some(SolverError::NoCoverExists));
    assert_eq!(typeshift.find_all_solutions().err(), Some(SolverError::NoCoverExists));
}

#[test]
fn missing_letter_has_no_cover() {
    let typeshift = Typeshift::new("cd\nao\ntg", &dict(&["cat", "cot", "cog"])).unwrap();

    assert_eq!(typeshift.find_first_solution().err(), Some(SolverError::NoCoverExists));
    assert_eq!(typeshift.find_all_solutions().err(), Some(SolverError::NoCoverExists));
}

#[test]
fn single_letter_columns_give_a_single_word() {
    let typeshift = Typeshift::new("c\na\nt", &dict(&["dog", "cat", "cot"])).unwrap();

    assert_eq!(typeshift.size(), 1);
    assert_eq!(typeshift.find_first_solution(), Ok((strings(&["cat"]), 2)));
    assert_eq!(typeshift.find_all_solutions(), Ok((vec![strings(&["cat"])], 2)));
}

#[test]
fn columns_without_letters_are_covered_by_no_word() {
    let typeshift = Typeshift::new("\n", &dict(&["a"])).unwrap();

    assert_eq!(typeshift.find_first_solution(), Ok((strings(&[]), 1)));
}

#[test]
fn first_solution_of_two_by_two() {
    let typeshift = Typeshift::new("ab\ncd", &dict(&["ac", "ad", "bc", "bd"])).unwrap();

    assert_eq!(typeshift.find_first_solution(), Ok((strings(&["ac", "bd"]), 3)));
}

#[test]
fn all_solutions_of_two_by_two() {
    let typeshift = Typeshift::new("ab\ncd", &dict(&["ac", "ad", "bc", "bd"])).unwrap();

    assert_eq!(
        typeshift.find_all_solutions(),
        Ok((vec![strings(&["ac", "bd"]), strings(&["ad", "bc"])], 9))
    );
}

#[test]
fn all_solutions_hold_the_first() {
    let typeshift = Typeshift::new(SMALL_INPUT, &small_dict()).unwrap();
    let (first, _) = typeshift.find_first_solution().unwrap();
    let (all, _) = typeshift.find_all_solutions().unwrap();

    assert!(all.iter().any(|solution| solution.len() == first.len()));
    assert!(all.contains(&first));
    for solution in &all {
        assert!(is_cover(SMALL_INPUT, solution));
        assert!(fits(SMALL_INPUT, solution));
        assert!(solution.len() >= widest_column(SMALL_INPUT));
    }
}

#[test]
fn first_solution_repeats() {
    let typeshift = Typeshift::new(LARGE_INPUT, &large_dict()).unwrap();
    let once = typeshift.find_first_solution();
    let again = typeshift.find_first_solution();

    assert!(once.is_ok());
    assert_eq!(once, again);
}

#[test]
fn cover_is_no_smaller_than_the_widest_column() {
    let typeshift = Typeshift::new(LARGE_INPUT, &large_dict()).unwrap();
    let (solution, _) = typeshift.find_first_solution().unwrap();

    assert_eq!(widest_column(LARGE_INPUT), 5);
    assert!(solution.len() >= 5);
    assert!(is_cover(LARGE_INPUT, &solution));
    assert!(fits(LARGE_INPUT, &solution));
}

#[test]
fn solutions_stand_in_text_order_whatever_the_dictionary() {
    let shuffled = dict(&["whups", "study", "wheel", "basic", "above", "whups", "steel"]);
    let typeshift = Typeshift::new(SMALL_INPUT, &shuffled).unwrap();
    let solution = strings(&["above", "basic", "study", "wheel", "whups"]);

    assert_eq!(typeshift.size(), 7);
    assert_eq!(typeshift.find_first_solution(), Ok((solution.clone(), 18)));
    assert_eq!(typeshift.solve(SolveMode::FindFirst, 18), Ok((vec![vec![0, 1, 2, 3, 4]], 18)));
    assert_eq!(typeshift.find_all_solutions(), Ok((vec![solution], 34)));
    assert_eq!(
        typeshift.solve(SolveMode::FindAll, 34),
        Ok((vec![vec![0, 1, 2, 3, 4], vec![1, 2, 3, 4, 5]], 34))
    );
}

#[test]
fn next_words_keep_the_order_of_the_dictionary() {
    let words = dict(&["aa", "bb", "cc", "ab", "bc", "ca"]);
    let typeshift = Typeshift::new("abc\nabc", &words).unwrap();
    let mut node = PartialSolution::empty(&typeshift);
    node.add_word(0);

    assert_eq!(node.next_words(), vec![1, 2, 4]);
    assert_eq!(typeshift.solution_words(&node.next_words()), strings(&["bb", "bc", "cc"]));
    assert_eq!(typeshift.word(1), "bb");
    assert_eq!(typeshift.word(2), "cc");
    assert_eq!(typeshift.word(4), "bc");
}

#[test]
fn rank_words_lists_the_candidates_best_first() {
    let words = dict(&["aa", "bb", "cc", "ab", "bc", "ca"]);
    let typeshift = Typeshift::new("abc\nabc", &words).unwrap();
    let mut node = PartialSolution::empty(&typeshift);
    node.add_word(0);
    let rank = |new_letters: usize| WordRank { new_letters, min_freq: 4 };

    assert_eq!(
        node.rank_words(),
        vec![(1, rank(2)), (2, rank(2)), (4, rank(2)), (3, rank(1)), (5, rank(1)), (0, rank(0))]
    );
}

#[test]
fn rank_words_breaks_ties_by_the_rarest_letter() {
    let typeshift = three_columns();
    let mut node = PartialSolution::empty(&typeshift);
    let rank = |new_letters: usize, min_freq: usize| WordRank { new_letters, min_freq };

    assert_eq!(
        node.rank_words(),
        vec![(0, rank(3, 1)), (3, rank(3, 1)), (1, rank(3, 2)), (2, rank(3, 2))]
    );
    node.add_word(0);
    assert_eq!(
        node.rank_words(),
        vec![(3, rank(3, 1)), (1, rank(2, 2)), (2, rank(1, 2)), (0, rank(0, 1))]
    );
    assert_eq!(node.word_rank(3), rank(3, 1));
    node.add_word(1);
    assert_eq!(
        node.rank_words(),
        vec![(3, rank(1, 1)), (0, rank(0, 1)), (1, rank(0, 2)), (2, rank(0, 2))]
    );
}

#[test]
fn a_chosen_word_is_used_wherever_it_stands_in_the_dictionary() {
    let typeshift = Typeshift::new("c\nao\nt", &dict(&["cat", "cot", "cat"])).unwrap();
    let mut node = PartialSolution::empty(&typeshift);
    node.add_word(0);

    assert!(node.is_used(0));
    assert!(node.is_used(2));
    assert!(!node.is_used(1));
    assert_eq!(node.next_words(), vec![1]);
}

#[test]
fn all_solutions_stand_in_order() {
    let typeshift = Typeshift::new("ab\ncd", &dict(&["bd", "bc", "ad", "ac"])).unwrap();

    assert_eq!(
        typeshift.find_all_solutions(),
        Ok((vec![strings(&["ac", "bd"]), strings(&["ad", "bc"])], 9))
    );
}

#[test]
fn budget_stops_the_search() {
    let typeshift = Typeshift::new("ab\ncd", &dict(&["ac", "ad", "bc", "bd"])).unwrap();

    assert_eq!(
        typeshift.solve(SolveMode::FindFirst, 0).err(),
        Some(SolverError::SearchBudgetExceeded)
    );
    assert_eq!(
        typeshift.solve(SolveMode::FindFirst, 2).err(),
        Some(SolverError::SearchBudgetExceeded)
    );
    assert_eq!(typeshift.solve(SolveMode::FindFirst, 3), Ok((vec![vec![0, 3]], 3)));
    assert_eq!(
        typeshift.solve(SolveMode::FindAll, 8).err(),
        Some(SolverError::SearchBudgetExceeded)
    );
    assert_eq!(typeshift.solve(SolveMode::FindAll, 9), Ok((vec![vec![0, 3], vec![1, 2]], 9)));
}

#[test]
fn solution_words_follow_the_indices() {
    let typeshift = Typeshift::new("ab\ncd", &dict(&["ac", "ad", "bc", "bd"])).unwrap();

    assert_eq!(typeshift.solution_words(&vec![1, 2]), strings(&["ad", "bc"]));
    assert_eq!(typeshift.solution_words(&vec![]), strings(&[]));
}

fn three_columns() -> Typeshift {
    Typeshift::new("cd\nao\ntg", &dict(&["cat", "cog", "cot", "dog"])).unwrap()
}

#[test]
fn empty_partial_solution_uses_nothing() {
    let typeshift = three_columns();
    let node = PartialSolution::empty(&typeshift);

    assert_eq!(node.len(), 0);
    assert!(!node.solved());
    assert_eq!(node.overlaps(), 0);
    assert_eq!(node.included_char_counts(0), vec![0, 0]);
    assert_eq!(node.rank(), NodeRank { solved: false, overlaps: 0, words: 0 });
}

#[test]
fn word_ranks_of_the_empty_partial_solution() {
    let typeshift = three_columns();
    let node = PartialSolution::empty(&typeshift);

    assert_eq!(node.new_letters(0), 3);
    assert_eq!(node.min_char_freq(0), 1);
    assert_eq!(node.min_char_freq(1), 2);
    assert_eq!(node.min_char_freq(2), 2);
    assert_eq!(node.min_char_freq(3), 1);
    assert_eq!(node.next_words(), vec![0, 3]);
}

#[test]
fn add_word_counts_its_letters() {
    let typeshift = three_columns();
    let mut node = PartialSolution::empty(&typeshift);
    node.add_word(1);
    node.add_word(0);

    assert_eq!(node.used_words(), &vec![0, 1]);
    assert!(node.is_used(0));
    assert!(!node.is_used(2));
    assert_eq!(node.included_char_counts(0), vec![2, 0]);
    assert_eq!(node.included_char_counts(1), vec![1, 1]);
    assert_eq!(node.included_char_counts(2), vec![1, 1]);
    assert_eq!(node.overlaps(), 1);
    assert!(!node.solved());
    assert_eq!(node.new_letters(2), 0);
    assert_eq!(node.new_letters(3), 1);
    assert_eq!(node.next_words(), vec![3]);
}

#[test]
fn partial_solution_is_solved_when_every_letter_is_used() {
    let typeshift = three_columns();
    let mut node = PartialSolution::empty(&typeshift);
    node.add_word(0);
    assert!(!node.solved());
    assert_eq!(node.next_words(), vec![3]);
    node.add_word(3);

    assert!(node.solved());
    assert_eq!(node.overlaps(), 0);
    assert_eq!(node.rank(), NodeRank { solved: true, overlaps: 0, words: 2 });

    let mut wasteful = node.clone();
    wasteful.add_word(2);
    assert_eq!(wasteful.overlaps(), 3);
    assert_eq!(wasteful.used_words(), &vec![0, 2, 3]);
    assert_eq!(node.used_words(), &vec![0, 3]);
    assert_eq!(wasteful.next_words(), vec![1]);
}

#[test]
fn node_ranks_prefer_covers_then_few_overlaps_then_few_words() {
    let solved = NodeRank { solved: true, overlaps: 9, words: 9 };
    let tidy = NodeRank { solved: false, overlaps: 0, words: 5 };
    let small = NodeRank { solved: false, overlaps: 0, words: 2 };
    let wasteful = NodeRank { solved: false, overlaps: 1, words: 1 };

    assert!(solved.is_better(&tidy));
    assert!(!tidy.is_better(&solved));
    assert!(tidy.is_better(&wasteful));
    assert!(small.is_better(&tidy));
    assert!(!tidy.is_better(&small));
    assert!(!small.is_better(&small));
}

#[test]
fn best_solution_is_the_first_of_the_smallest() {
    let typeshift = Typeshift::new("ab\ncd", &dict(&["bd", "bc", "ad", "ac"])).unwrap();

    assert_eq!(typeshift.find_best_solution(), Ok((strings(&["ac", "bd"]), 9)));
}

#[test]
fn best_solution_of_the_small_example() {
    let typeshift = Typeshift::new(SMALL_INPUT, &small_dict()).unwrap();
    let (all, steps) = typeshift.find_all_solutions().unwrap();
    let (best, best_steps) = typeshift.find_best_solution().unwrap();

    assert_eq!(best, all[0]);
    assert_eq!(best_steps, steps);
    assert!(all.windows(2).all(|pair| pair[0] < pair[1]));
    assert!(all.iter().all(|solution| solution.len() == best.len()));
}

#[test]
fn best_solution_needs_a_cover() {
    let typeshift = Typeshift::new("ab\ncd", &dict(&["ac"])).unwrap();

    assert_eq!(typeshift.find_best_solution().err(), Some(SolverError::NoCoverExists));
}

#[test]
fn default_mode_finds_the_first() {
    assert_eq!(SolveMode::default(), SolveMode::FindFirst);
}

#[test]
fn partial_solution_as_text() {
    let typeshift = three_columns();
    let mut node = PartialSolution::empty(&typeshift);

    assert_eq!(
        node.debug_string(),
        "PartialSolution { used_words: {}, char_usages: [{}, {}, {}] }"
    );
    node.add_word(1);
    assert_eq!(
        node.debug_string(),
        "PartialSolution { used_words: {\"cog\"}, char_usages: [{'c': 1}, {'o': 1}, {'g': 1}] }"
    );
    node.add_word(0);
    assert_eq!(
        node.debug_string(),
        "PartialSolution { used_words: {\"cat\", \"cog\"}, char_usages: [{'c': 2}, {'a': 1, 'o': 1}, {'g': 1, 't': 1}] }"
    );
    assert_eq!(node.char_usages(0).get('c'), 2);
    assert_eq!(node.typeshift().size(), 4);
}

#[test]
fn repeated_words_give_each_cover_once() {
    let words = dict(&["zz", "ace", "a", "bde", "bca", "bda", "bca", "aca", "bde", "bce"]);
    let typeshift = Typeshift::new("ba\ncd\nea", &words).unwrap();

    assert_eq!(typeshift.size(), 8);
    assert_eq!(typeshift.find_first_solution(), Ok((strings(&["aca", "bde"]), 3)));
    assert_eq!(typeshift.solve(SolveMode::FindFirst, 3), Ok((vec![vec![1, 5]], 3)));
    assert_eq!(
        typeshift.find_all_solutions(),
        Ok((vec![strings(&["aca", "bde"]), strings(&["ace", "bda"])], 7))
    );
    assert_eq!(
        typeshift.solve(SolveMode::FindAll, 7),
        Ok((vec![vec![0, 3], vec![1, 5], vec![5, 6]], 7))
    );
    assert_eq!(typeshift.find_best_solution(), Ok((strings(&["aca", "bde"]), 7)));
}

#[test]
fn shuffled_dictionary_with_three_columns() {
    let words =
        dict(&["bee", "a", "bad", "eeb", "zz", "eab", "aeb", "aae", "bcd", "eeb", "bee"]);
    let typeshift = Typeshift::new("aeb\naec\nedb", &words).unwrap();

    assert_eq!(typeshift.size(), 9);
    assert_eq!(typeshift.find_first_solution(), Ok((strings(&["aae", "bcd", "eeb"]), 6)));
    assert_eq!(typeshift.solve(SolveMode::FindFirst, 6), Ok((vec![vec![2, 5, 6]], 6)));
    assert_eq!(typeshift.find_all_solutions(), Ok((vec![strings(&["aae", "bcd", "eeb"])], 15)));
    assert_eq!(
        typeshift.solve(SolveMode::FindAll, 15),
        Ok((vec![vec![2, 5, 6], vec![5, 6, 7]], 15))
    );
}

#[test]
fn shuffled_dictionary_with_two_columns() {
    let words = dict(&["de", "ad", "a", "ae", "zz", "cc", "ad", "dc", "ae", "cd", "ac"]);
    let typeshift = Typeshift::new("dca\necd", &words).unwrap();

    assert_eq!(typeshift.size(), 9);
    assert_eq!(typeshift.find_first_solution(), Ok((strings(&["ad", "cc", "de"]), 6)));
    assert_eq!(
        typeshift.find_all_solutions(),
        Ok((
            vec![
                strings(&["ac", "cd", "de"]),
                strings(&["ad", "cc", "de"]),
                strings(&["ae", "cd", "dc"]),
            ],
            33
        ))
    );
    assert_eq!(
        typeshift.solve(SolveMode::FindAll, 33),
        Ok((
            vec![vec![0, 1, 3], vec![0, 3, 4], vec![0, 7, 8], vec![2, 5, 7], vec![5, 6, 7]],
            33
        ))
    );
}
