use std::collections::BTreeSet;

use typeshift_solver::collections::{is_lowercase, letter_of, LetterCounts, LetterSet};
use typeshift_solver::format::push_digits;

#[test]
fn filter_counts_smoke() {
    let column = LetterSet::from_iter("eiz");
    let usages = LetterCounts::from_iter("eeeii");
    let result: BTreeSet<_> = column.filter_counts(&usages).into_iter().collect();

    assert_eq!(BTreeSet::from_iter([3, 2, 0]), result);
}

#[test]
fn letter_set_smoke() {
    let set = LetterSet::from_iter("hi");

    assert!(set.contains('h'));
    assert!(set.contains('i'));
    assert!(!set.contains('z'));
}

#[test]
fn letter_counts_smoke() {
    let counts = LetterCounts::from_iter("heyyy");

    assert_eq!(counts.get('h'), 1);
    assert_eq!(counts.get('e'), 1);
    assert_eq!(counts.get('y'), 3);
    assert_eq!(counts.get('z'), 0);
}

#[test]
fn filter_counts_keeps_alphabetical_order() {
    let column = LetterSet::from_iter("zie");
    let usages = LetterCounts::from_iter("eeeii");

    assert_eq!(column.filter_counts(&usages), vec![3, 2, 0]);
}

#[test]
fn filter_counts_of_empty_set_is_empty() {
    let column = LetterSet::new();
    let usages = LetterCounts::from_iter("abc");

    assert_eq!(column.filter_counts(&usages), Vec::<usize>::new());
}

#[test]
fn letter_set_add_is_idempotent() {
    let mut set = LetterSet::new();
    assert!(!set.contains('a'));
    set.add('a');
    set.add('a');
    set.add('z');

    assert!(set.contains('a'));
    assert!(set.contains('z'));
    assert!(!set.contains('b'));
    assert_eq!(set.filter_counts(&LetterCounts::from_iter("zzaxa")), vec![2, 2]);
}

#[test]
fn letter_counts_add_counts_each_call() {
    let mut counts = LetterCounts::new();
    assert_eq!(counts.get('q'), 0);
    counts.add('q');
    counts.add('q');
    counts.add('a');

    assert_eq!(counts.get('q'), 2);
    assert_eq!(counts.get('a'), 1);
    assert_eq!(counts.get('z'), 0);
}

#[test]
fn letter_counts_clone_keeps_counts() {
    let counts = LetterCounts::from_iter("heyyy");
    let copy = counts.clone();

    assert_eq!(copy.get('y'), 3);
    assert_eq!(copy.get('h'), 1);
    assert_eq!(copy.get('a'), 0);
}

#[test]
fn lowercase_letters_are_recognised() {
    assert!(is_lowercase('a'));
    assert!(is_lowercase('z'));
    assert!(!is_lowercase('A'));
    assert!(!is_lowercase('\n'));
    assert!(!is_lowercase('{'));
    assert!(!is_lowercase('`'));
}

#[test]
fn letter_set_debug() {
    let set = LetterSet::from_iter("hi");
    let debug = set.debug_string();

    assert_eq!(debug, "{'h', 'i'}");
}

#[test]
fn letter_counts_debug() {
    let counts = LetterCounts::from_iter("heyyy");
    let debug = counts.debug_string();

    assert_eq!(debug, "{'e': 1, 'h': 1, 'y': 3}");
}

#[test]
fn empty_collections_as_text() {
    assert_eq!(LetterSet::new().debug_string(), "{}");
    assert_eq!(LetterCounts::new().debug_string(), "{}");
}

#[test]
fn counts_with_several_digits_as_text() {
    let mut counts = LetterCounts::new();
    for _ in 0..120 {
        counts.add('z');
    }
    for _ in 0..10 {
        counts.add('a');
    }

    assert_eq!(counts.debug_string(), "{'a': 10, 'z': 120}");
}

#[test]
fn digits_are_decimal() {
    let mut out = String::from("n=");
    push_digits(&mut out, 0);
    out.push(' ');
    push_digits(&mut out, 907);

    assert_eq!(out, "n=0 907");
    assert_eq!(letter_of(0), 'a');
    assert_eq!(letter_of(25), 'z');
}

#[test]
fn letter_set_lists_its_members_in_alphabetical_order() {
    assert_eq!(LetterSet::from_iter("zebra").iter(), vec!['a', 'b', 'e', 'r', 'z']);
    assert_eq!(LetterSet::new().iter(), Vec::<char>::new());
}
