//! Solving a puzzle: the covers as words, and what holds of every cover.

use crate::cover::{covered, covers, picked, sorted_insert, taken, valid_choice};
use crate::order::{
    increasing, lemma_lex_irreflexive, lemma_lex_total, lemma_lex_transitive, lemma_place_entries,
    lemma_place_increasing, lemma_place_len, lemma_place_tail, lex_less, place, strict_total,
};
use crate::puzzle::{
    lemma_text_order, place_word, spellable, text_is_less, text_order, texts, SolverError,
    Typeshift, TypeshiftView,
};
use crate::ranking::{
    best_index, is_next_word, lemma_best_index, lemma_next_words_below, min_freq_below,
    new_letters_below, next_words, word_better,
};
use crate::search::{
    fresh_children, initial_state, lemma_min_len_attained, lemma_of_len_below, lemma_record_entries,
    lemma_run_ok, lists, min_len, ranks_of, run, search_result, served, smallest, state_ok, step,
    Outcome, SearchState, SolveMode,
};
use vstd::prelude::*;
use vstd::seq_lib::seq_to_set_is_finite;
use vstd::set_lib::lemma_len_subset;

verus! {

/// The words of the chosen candidates, in the order of texts.
pub open spec fn words_of(p: TypeshiftView, chosen: Seq<usize>) -> Seq<Seq<char>>
    decreases chosen.len(),
{
    if chosen.len() == 0 {
        Seq::empty()
    } else {
        place(words_of(p, chosen.drop_last()), p.words[chosen.last() as int], text_order())
    }
}

/// The word lists of the given choices, each once, in the order of word lists.
pub open spec fn word_lists_of(p: TypeshiftView, found: Seq<Seq<usize>>) -> Seq<Seq<Seq<char>>>
    decreases found.len(),
{
    if found.len() == 0 {
        Seq::empty()
    } else {
        place(word_lists_of(p, found.drop_last()), words_of(p, found.last()), word_list_order())
    }
}

/// The character sequences of lists of strings.
pub open spec fn text_lists(v: Seq<Vec<String>>) -> Seq<Seq<Seq<char>>> {
    Seq::new(v.len(), |i: int| texts(v[i]@))
}

/// The words cover the columns if every allowed letter of every column
/// stands at that column's position in at least one of the words.
pub open spec fn is_cover(columns: Seq<Set<char>>, words: Seq<Seq<char>>) -> bool {
    forall|col: int, ch: char|
        0 <= col < columns.len() && columns[col].contains(ch) ==> exists|k: int|
            0 <= k < words.len() && col < words[k].len() && #[trigger] words[k][col] == ch
}

/// Every word has one letter per column, and each letter is allowed in its column.
pub open spec fn fits(columns: Seq<Set<char>>, words: Seq<Seq<char>>) -> bool {
    forall|k: int| 0 <= k < words.len() ==> spellable(columns, #[trigger] words[k])
}

/// Every word is one of the candidates.
pub open spec fn all_candidates(candidates: Seq<Seq<char>>, words: Seq<Seq<char>>) -> bool {
    forall|k: int| 0 <= k < words.len() ==> candidates.contains(#[trigger] words[k])
}

/// What holds of the words of every cover that a search returns: they are
/// candidates that fit the columns and cover them, each once, in the order
/// of texts.
pub open spec fn is_solution(p: TypeshiftView, words: Seq<Seq<char>>) -> bool {
    &&& all_candidates(p.words, words)
    &&& fits(p.columns, words)
    &&& is_cover(p.columns, words)
    &&& increasing(words, text_order())
}

/// Whether the word of some chosen candidate is `w`.
pub open spec fn chosen_word(p: TypeshiftView, chosen: Seq<usize>, w: Seq<char>) -> bool {
    exists|k: int| 0 <= k < chosen.len() && p.words[#[trigger] chosen[k] as int] == w
}

/// Whether `l` is the word list of one of the choices.
pub open spec fn found_list(p: TypeshiftView, found: Seq<Seq<usize>>, l: Seq<Seq<char>>) -> bool {
    exists|i: int| 0 <= i < found.len() && words_of(p, #[trigger] found[i]) == l
}

/// Whether the word list `a` comes before the word list `b`: at the first
/// place where they differ the word of `a` comes before that of `b` in the
/// order of texts, or `a` ends there and `b` does not.
pub open spec fn word_list_less(a: Seq<Seq<char>>, b: Seq<Seq<char>>) -> bool {
    lex_less(a, b, text_order())
}

/// The order of word lists, as a relation.
pub open spec fn word_list_order() -> spec_fn(Seq<Seq<char>>, Seq<Seq<char>>) -> bool {
    |a: Seq<Seq<char>>, b: Seq<Seq<char>>| word_list_less(a, b)
}

/// The largest number of steps that a search without a budget of its own makes.
pub open spec fn no_budget() -> nat {
    usize::MAX as nat
}

/// What the search for the first cover returns: its words, in the order of
/// texts, and the number of steps made.
pub open spec fn first_solution(p: TypeshiftView) -> Result<(Seq<Seq<char>>, nat), SolverError> {
    match search_result(p, SolveMode::FindFirst, no_budget()) {
        Ok((found, steps)) => Ok((words_of(p, found[0]), steps)),
        Err(e) => Err(e),
    }
}

/// What the search for all smallest covers returns: the word list of each,
/// in the order of word lists, and the number of steps made.
pub open spec fn all_solutions(p: TypeshiftView) -> Result<(Seq<Seq<Seq<char>>>, nat), SolverError> {
    match search_result(p, SolveMode::FindAll, no_budget()) {
        Ok((found, steps)) => Ok((word_lists_of(p, found), steps)),
        Err(e) => Err(e),
    }
}

/// What the search for the best cover returns: of all smallest covers the
/// one that comes first in the order of word lists, and the number of steps made.
pub open spec fn best_solution(p: TypeshiftView) -> Result<(Seq<Seq<char>>, nat), SolverError> {
    match all_solutions(p) {
        Ok((found, steps)) => Ok((found[0], steps)),
        Err(e) => Err(e),
    }
}

/// What a returned first cover stands for.
pub open spec fn first_view(r: Result<(Vec<String>, usize), SolverError>) -> Result<
    (Seq<Seq<char>>, nat),
    SolverError,
> {
    match r {
        Ok((words, steps)) => Ok((texts(words@), steps as nat)),
        Err(e) => Err(e),
    }
}

/// What returned covers stand for.
pub open spec fn all_view(r: Result<(Vec<Vec<String>>, usize), SolverError>) -> Result<
    (Seq<Seq<Seq<char>>>, nat),
    SolverError,
> {
    match r {
        Ok((found, steps)) => Ok((text_lists(found@), steps as nat)),
        Err(e) => Err(e),
    }
}

/// The order of word lists orders any two different word lists, one way
/// only, and passes on.
pub proof fn lemma_word_list_order()
    ensures
        strict_total(word_list_order()),
{
    let less = word_list_order();
    lemma_text_order();
    assert forall|a: Seq<Seq<char>>, b: Seq<Seq<char>>|
        a == b || #[trigger] less(a, b) || less(b, a) by {
        lemma_lex_total(a, b, text_order());
    }
    assert forall|a: Seq<Seq<char>>, b: Seq<Seq<char>>, c: Seq<Seq<char>>| #[trigger]
        less(a, b) && #[trigger] less(b, c) implies less(a, c) by {
        lemma_lex_transitive(a, b, c, text_order());
    }
    assert forall|a: Seq<Seq<char>>| !#[trigger] less(a, a) by {
        lemma_lex_irreflexive(a, text_order());
    }
}

/// The words of a valid choice are the words of its candidates, as many as
/// it has candidates, in the order of texts; and if the choice covers the
/// puzzle, they are a solution.
pub proof fn lemma_words_of_choice(p: TypeshiftView, chosen: Seq<usize>)
    requires
        p.wf(),
        valid_choice(p, chosen),
    ensures
        forall|w: Seq<char>| #[trigger] words_of(p, chosen).contains(w) <==> chosen_word(p, chosen, w),
        words_of(p, chosen).len() == chosen.len(),
        all_candidates(p.words, words_of(p, chosen)),
        fits(p.columns, words_of(p, chosen)),
        increasing(words_of(p, chosen), text_order()),
        covers(p, chosen) ==> is_solution(p, words_of(p, chosen)),
    decreases chosen.len(),
{
    let words = words_of(p, chosen);
    if chosen.len() > 0 {
        let rest = chosen.drop_last();
        let last = p.words[chosen.last() as int];
        let before = words_of(p, rest);
        assert(valid_choice(p, rest)) by {
            assert forall|k: int| 0 <= k < rest.len() implies (#[trigger] rest[k])
                < p.words.len() by {
                assert(rest[k] == chosen[k]);
            }
            assert forall|a: int, b: int| 0 <= a < b < rest.len() implies p.words[#[trigger] rest[a] as int]
                != p.words[#[trigger] rest[b] as int] by {
                assert(rest[a] == chosen[a] && rest[b] == chosen[b]);
            }
        }
        lemma_words_of_choice(p, rest);
        lemma_text_order();
        lemma_place_entries(before, last, text_order());
        lemma_place_increasing(before, last, text_order());
        assert(!before.contains(last)) by {
            if before.contains(last) {
                assert(chosen_word(p, rest, last));
                let k = choose|k: int|
                    0 <= k < rest.len() && p.words[#[trigger] rest[k] as int] == last;
                assert(rest[k] == chosen[k]);
                assert(p.words[chosen[k] as int] != p.words[chosen[chosen.len() - 1] as int]);
            }
        }
        lemma_place_len(before, last, text_order());
        assert forall|w: Seq<char>| #[trigger] words.contains(w) <==> chosen_word(p, chosen, w) by {
            if words.contains(w) {
                if w == last {
                    assert(p.words[chosen[chosen.len() - 1] as int] == w);
                } else {
                    assert(before.contains(w));
                    assert(chosen_word(p, rest, w));
                    let k = choose|k: int|
                        0 <= k < rest.len() && p.words[#[trigger] rest[k] as int] == w;
                    assert(p.words[chosen[k] as int] == w);
                }
            }
            if chosen_word(p, chosen, w) {
                let k = choose|k: int|
                    0 <= k < chosen.len() && p.words[#[trigger] chosen[k] as int] == w;
                if k < rest.len() {
                    assert(p.words[rest[k] as int] == w);
                    assert(chosen_word(p, rest, w));
                    assert(before.contains(w));
                }
            }
        }
    }
    assert forall|k: int| 0 <= k < words.len() implies p.words.contains(#[trigger] words[k])
        && spellable(p.columns, words[k]) by {
        assert(words.contains(words[k]));
        assert(chosen_word(p, chosen, words[k]));
        let m = choose|m: int|
            0 <= m < chosen.len() && p.words[#[trigger] chosen[m] as int] == words[k];
        assert(p.words[chosen[m] as int] == words[k]);
    }
    if covers(p, chosen) {
        assert forall|col: int, ch: char|
            0 <= col < p.columns.len() && p.columns[col].contains(ch) implies exists|k: int|
            0 <= k < words.len() && col < words[k].len() && #[trigger] words[k][col] == ch by {
            assert(covered(p, chosen, col, ch));
            let k = choose|k: int|
                0 <= k < chosen.len() && #[trigger] p.words[chosen[k] as int][col] == ch;
            let w = p.words[chosen[k] as int];
            assert(spellable(p.columns, w));
            assert(chosen_word(p, chosen, w));
            assert(words.contains(w));
            let m = choose|m: int| 0 <= m < words.len() && words[m] == w;
            assert(words[m][col] == ch);
        }
    }
}

/// The word lists of choices are the word lists of each, in the order of
/// word lists.
pub proof fn lemma_word_lists(p: TypeshiftView, found: Seq<Seq<usize>>)
    ensures
        forall|l: Seq<Seq<char>>| #[trigger]
            word_lists_of(p, found).contains(l) <==> found_list(p, found, l),
        increasing(word_lists_of(p, found), word_list_order()),
        found.len() > 0 ==> word_lists_of(p, found).len() > 0,
    decreases found.len(),
{
    let all = word_lists_of(p, found);
    if found.len() > 0 {
        let rest = found.drop_last();
        let last = words_of(p, found.last());
        let before = word_lists_of(p, rest);
        lemma_word_lists(p, rest);
        lemma_word_list_order();
        lemma_place_entries(before, last, word_list_order());
        lemma_place_increasing(before, last, word_list_order());
        assert(all.contains(last));
        assert forall|l: Seq<Seq<char>>| #[trigger] all.contains(l) <==> found_list(
            p,
            found,
            l,
        ) by {
            if all.contains(l) {
                if l == last {
                    assert(words_of(p, found[found.len() - 1]) == l);
                } else {
                    assert(before.contains(l));
                    assert(found_list(p, rest, l));
                    let i = choose|i: int| 0 <= i < rest.len() && words_of(p, #[trigger] rest[i]) == l;
                    assert(words_of(p, found[i]) == l);
                }
            }
            if found_list(p, found, l) {
                let i = choose|i: int| 0 <= i < found.len() && words_of(p, #[trigger] found[i]) == l;
                if i < rest.len() {
                    assert(words_of(p, rest[i]) == l);
                    assert(found_list(p, rest, l));
                    assert(before.contains(l));
                }
            }
        }
    }
}

/// A cover has at least as many words as any column has letters: a word
/// uses one letter per column.
pub proof fn lemma_cover_lower_bound(columns: Seq<Set<char>>, words: Seq<Seq<char>>, col: int)
    requires
        is_cover(columns, words),
        0 <= col < columns.len(),
    ensures
        columns[col].finite(),
        columns[col].len() <= words.len(),
{
    let used = Seq::new(words.len(), |k: int| if col < words[k].len() { words[k][col] } else { 'a' });
    seq_to_set_is_finite(used);
    used.lemma_cardinality_of_set();
    assert forall|ch: char| columns[col].contains(ch) implies used.to_set().contains(ch) by {
        let k = choose|k: int|
            0 <= k < words.len() && col < words[k].len() && #[trigger] words[k][col] == ch;
        assert(used[k] == ch);
    }
    lemma_len_subset(columns[col], used.to_set());
}

/// A search for all covers never loses a cover that it has recorded.
pub proof fn lemma_complete_grows(p: TypeshiftView, s: SearchState, budget: nat, x: Seq<usize>)
    requires
        s.complete.contains(x),
        run(p, SolveMode::FindAll, s, budget) is Exhausted,
    ensures
        run(p, SolveMode::FindAll, s, budget)->Exhausted_0.complete.contains(x),
    decreases budget,
{
    if s.frontier.len() > 0 && budget > 0 {
        lemma_record_entries(s.complete, served(p, s));
        lemma_complete_grows(p, step(p, s), (budget - 1) as nat, x);
    }
}

/// A search for the first cover records nothing.
pub proof fn lemma_first_records_nothing(p: TypeshiftView, s: SearchState, budget: nat)
    requires
        s.complete.len() == 0,
        run(p, SolveMode::FindFirst, s, budget) is Exhausted,
    ensures
        run(p, SolveMode::FindFirst, s, budget)->Exhausted_0.complete.len() == 0,
    decreases budget,
{
    if s.frontier.len() > 0 && budget > 0 {
        lemma_first_records_nothing(p, step(p, s), (budget - 1) as nat);
    }
}

/// A search for all covers does not stop at the first.
pub proof fn lemma_all_goes_on(p: TypeshiftView, s: SearchState, budget: nat)
    ensures
        !(run(p, SolveMode::FindAll, s, budget) is Found),
    decreases budget,
{
    if s.frontier.len() > 0 && budget > 0 {
        lemma_all_goes_on(p, step(p, s), (budget - 1) as nat);
    }
}

/// The cover that the search for the first cover returns is recorded by the
/// search for all covers, if that search comes to its end from the same
/// frontier and the same attempted partial solutions.
pub proof fn lemma_first_is_recorded(
    p: TypeshiftView,
    s: SearchState,
    t: SearchState,
    first_budget: nat,
    all_budget: nat,
)
    requires
        s.frontier == t.frontier,
        s.attempted == t.attempted,
        s.steps == t.steps,
        run(p, SolveMode::FindFirst, s, first_budget) is Found,
        run(p, SolveMode::FindAll, t, all_budget) is Exhausted,
    ensures
        run(p, SolveMode::FindAll, t, all_budget)->Exhausted_0.complete.contains(
            run(p, SolveMode::FindFirst, s, first_budget)->Found_0,
        ),
    decreases first_budget,
{
    if covers(p, served(p, s)) {
        let x = served(p, s);
        lemma_record_entries(t.complete, x);
        lemma_complete_grows(p, step(p, t), (all_budget - 1) as nat, x);
    } else {
        lemma_first_is_recorded(
            p,
            step(p, s),
            step(p, t),
            (first_budget - 1) as nat,
            (all_budget - 1) as nat,
        );
    }
}

/// If the first cover found has as many words as the smallest covers, it is
/// one of them.
pub proof fn lemma_first_among_all(p: TypeshiftView)
    requires
        p.wf(),
        first_solution(p) is Ok,
        all_solutions(p) is Ok,
        exists|i: int|
            0 <= i < all_solutions(p)->Ok_0.0.len() && (#[trigger] all_solutions(p)->Ok_0.0[i]).len()
                == first_solution(p)->Ok_0.0.len(),
    ensures
        all_solutions(p)->Ok_0.0.contains(first_solution(p)->Ok_0.0),
{
    let start = initial_state();
    let first = run(p, SolveMode::FindFirst, start, no_budget());
    let all = run(p, SolveMode::FindAll, start, no_budget());
    if first is Exhausted {
        lemma_first_records_nothing(p, start, no_budget());
    }
    lemma_all_goes_on(p, start, no_budget());
    assert(first is Found);
    assert(all is Exhausted);
    let x = first->Found_0;
    let end = all->Exhausted_0;
    assert(search_result(p, SolveMode::FindFirst, no_budget())->Ok_0.0 == seq![x]);
    assert(seq![x][0] == x);
    assert(first_solution(p)->Ok_0.0 == words_of(p, x));
    assert(search_result(p, SolveMode::FindAll, no_budget())->Ok_0.0 == smallest(end.complete));
    assert(state_ok(p, start)) by {
        assert(start.frontier[0] =~= Seq::<usize>::empty());
    }
    lemma_run_ok(p, SolveMode::FindFirst, start, no_budget());
    lemma_run_ok(p, SolveMode::FindAll, start, no_budget());
    lemma_first_is_recorded(p, start, start, no_budget(), no_budget());
    let found = smallest(end.complete);
    let n = min_len(end.complete);
    lemma_of_len_below(end.complete, n, end.complete.len() as int);
    let lists_found = word_lists_of(p, found);
    lemma_word_lists(p, found);
    let i = choose|i: int|
        0 <= i < lists_found.len() && (#[trigger] lists_found[i]).len() == words_of(p, x).len();
    assert(lists_found.contains(lists_found[i]));
    assert(found_list(p, found, lists_found[i]));
    let j = choose|j: int| 0 <= j < found.len() && words_of(p, #[trigger] found[j]) == lists_found[i];
    assert(end.complete.contains(found[j]));
    let c = choose|c: int| 0 <= c < end.complete.len() && end.complete[c] == found[j];
    assert(valid_choice(p, end.complete[c]));
    lemma_words_of_choice(p, found[j]);
    lemma_words_of_choice(p, x);
    assert(found[j].len() == n);
    assert(x.len() == n);
    let m = choose|m: int| 0 <= m < end.complete.len() && end.complete[m] == x;
    assert(found.contains(end.complete[m]));
    let k = choose|k: int| 0 <= k < found.len() && found[k] == x;
    assert(words_of(p, found[k]) == words_of(p, x));
    assert(found_list(p, found, words_of(p, x)));
}

/// Two searches for the first cover of one puzzle return the same words and
/// the same number of steps.
pub proof fn lemma_first_solution_repeats(
    puzzle: Typeshift,
    once: Result<(Vec<String>, usize), SolverError>,
    again: Result<(Vec<String>, usize), SolverError>,
)
    requires
        first_view(once) == first_solution(puzzle@),
        first_view(again) == first_solution(puzzle@),
    ensures
        first_view(once) == first_view(again),
{
}

/// Whether two word lists hold the same words in the same order.
pub fn same_words(a: &Vec<String>, b: &Vec<String>) -> (same: bool)
    ensures
        same == (texts(a@) == texts(b@)),
{
    if a.len() != b.len() {
        return false;
    }
    let mut i: usize = 0;
    while i < a.len()
        invariant
            i <= a@.len(),
            a@.len() == b@.len(),
            forall|j: int| 0 <= j < i ==> texts(a@)[j] == texts(b@)[j],
        decreases a@.len() - i,
    {
        if a[i] != b[i] {
            assert(texts(a@)[i as int] != texts(b@)[i as int]);
            return false;
        }
        i += 1;
    }
    assert(texts(a@) =~= texts(b@));
    true
}

/// Whether the word list `a` comes before the word list `b`.
pub fn word_list_is_less(a: &Vec<String>, b: &Vec<String>) -> (less: bool)
    ensures
        less == word_list_less(texts(a@), texts(b@)),
{
    let ghost ta = texts(a@);
    let ghost tb = texts(b@);
    let mut i: usize = 0;
    proof {
        assert(ta.skip(0) =~= ta);
        assert(tb.skip(0) =~= tb);
    }
    while i < a.len() && i < b.len()
        invariant
            ta == texts(a@),
            tb == texts(b@),
            i <= a@.len(),
            i <= b@.len(),
            word_list_less(ta, tb) == word_list_less(ta.skip(i as int), tb.skip(i as int)),
        decreases a@.len() - i,
    {
        proof {
            assert(ta.skip(i as int).skip(1) =~= ta.skip(i + 1));
            assert(tb.skip(i as int).skip(1) =~= tb.skip(i + 1));
            assert(ta.skip(i as int)[0] == a@[i as int]@);
            assert(tb.skip(i as int)[0] == b@[i as int]@);
        }
        if a[i] != b[i] {
            return text_is_less(a[i].as_str(), b[i].as_str());
        }
        i += 1;
    }
    i < b.len()
}

/// Puts a word list in its place among word lists, unless it is there already.
pub fn place_words(found: &mut Vec<Vec<String>>, words: Vec<String>)
    ensures
        text_lists(final(found)@) == place(text_lists(old(found)@), texts(words@), word_list_order()),
{
    let ghost before = text_lists(found@);
    let ghost new = texts(words@);
    let mut i: usize = found.len();
    let mut placed = false;
    while i > 0 && !placed
        invariant
            i <= found@.len(),
            found@ == old(found)@,
            before == text_lists(found@),
            new == texts(words@),
            forall|k: int| i <= k < before.len() ==> before[k] != new && !word_list_less(before[k], new),
            placed ==> i > 0 && before[i - 1] != new && word_list_less(before[i - 1], new),
        decreases i + if placed { 0int } else { 1int },
    {
        if same_words(&found[i - 1], &words) {
            proof {
                lemma_place_tail(before, new, word_list_order(), i as int);
                assert(before.take(i as int).last() == new);
                assert(before.take(i as int) + before.skip(i as int) =~= before);
            }
            return ;
        }
        if word_list_is_less(&found[i - 1], &words) {
            placed = true;
        } else {
            i -= 1;
        }
    }
    proof {
        lemma_place_tail(before, new, word_list_order(), i as int);
        if i > 0 {
            assert(before.take(i as int).last() == before[i - 1]);
        }
        assert(place(before.take(i as int), new, word_list_order()) =~= before.take(i as int).push(
            new,
        ));
    }
    found.insert(i, words);
    proof {
        assert(text_lists(found@) =~= before.take(i as int).push(new) + before.skip(i as int));
    }
}

impl Typeshift {
    /// The words of the candidates with the given indices, in the order of texts.
    pub fn solution_words(&self, chosen: &Vec<usize>) -> (words: Vec<String>)
        requires
            forall|k: int| 0 <= k < chosen@.len() ==> (#[trigger] chosen@[k]) < self@.words.len(),
        ensures
            texts(words@) == words_of(self@, chosen@),
    {
        let mut words: Vec<String> = Vec::new();
        let mut k: usize = 0;
        proof {
            assert(texts(words@) =~= words_of(self@, chosen@.take(0)));
        }
        while k < chosen.len()
            invariant
                k <= chosen@.len(),
                forall|k: int| 0 <= k < chosen@.len() ==> (#[trigger] chosen@[k]) < self@.words.len(),
                texts(words@) == words_of(self@, chosen@.take(k as int)),
            decreases chosen@.len() - k,
        {
            proof {
                assert(chosen@.take(k + 1).drop_last() =~= chosen@.take(k as int));
                assert(chosen@.take(k + 1).last() == chosen@[k as int]);
            }
            place_word(&mut words, self.word_string(chosen[k]));
            k += 1;
        }
        proof {
            assert(chosen@.take(k as int) =~= chosen@);
        }
        words
    }

    /// The first cover that the search finds, as its words in the order of
    /// texts, and the number of partial solutions looked at.
    pub fn find_first_solution(&self) -> (r: Result<(Vec<String>, usize), SolverError>)
        requires
            self.wf(),
        ensures
            first_view(r) == first_solution(self@),
            r is Ok ==> is_solution(self@, texts(r->Ok_0.0@)),
    {
        proof {
            if run(self@, SolveMode::FindFirst, initial_state(), no_budget()) is Exhausted {
                lemma_first_records_nothing(self@, initial_state(), no_budget());
            }
            self.lemma_wf();
        }
        match self.solve(SolveMode::FindFirst, usize::MAX) {
            Ok((found, steps)) => {
                proof {
                    let end = run(self@, SolveMode::FindFirst, initial_state(), no_budget());
                    assert(end is Found);
                    assert(lists(found@) == seq![end->Found_0]);
                    assert(seq![end->Found_0].len() == 1);
                    assert(lists(found@)[0] == found@[0]@);
                    assert(valid_choice(self@, lists(found@)[0]));
                    lemma_words_of_choice(self@, found@[0]@);
                }
                Ok((self.solution_words(&found[0]), steps))
            },
            Err(e) => Err(e),
        }
    }

    /// Of all smallest covers that the search finds the one that comes first
    /// in the order of word lists, as its words in the order of texts, and
    /// the number of partial solutions looked at.
    pub fn find_best_solution(&self) -> (r: Result<(Vec<String>, usize), SolverError>)
        requires
            self.wf(),
        ensures
            first_view(r) == best_solution(self@),
            r is Ok ==> is_solution(self@, texts(r->Ok_0.0@)),
            r is Ok ==> forall|i: int|
                1 <= i < all_solutions(self@)->Ok_0.0.len() ==> word_list_less(
                    texts(r->Ok_0.0@),
                    #[trigger] all_solutions(self@)->Ok_0.0[i],
                ),
    {
        match self.find_all_solutions() {
            Ok((mut found, steps)) => {
                proof {
                    assert forall|i: int| 1 <= i < found@.len() implies word_list_less(
                        texts(found@[0]@),
                        #[trigger] text_lists(found@)[i],
                    ) by {
                        assert(word_list_order()(text_lists(found@)[0], text_lists(found@)[i]));
                    }
                    assert(text_lists(found@)[0] == texts(found@[0]@));
                }
                let best = found.swap_remove(0);
                Ok((best, steps))
            },
            Err(e) => Err(e),
        }
    }

    /// All smallest covers among those that the search finds, each as its
    /// words in the order of texts, in the order of word lists, and the
    /// number of partial solutions looked at.
    pub fn find_all_solutions(&self) -> (r: Result<(Vec<Vec<String>>, usize), SolverError>)
        requires
            self.wf(),
        ensures
            all_view(r) == all_solutions(self@),
            r is Ok ==> r->Ok_0.0@.len() > 0,
            r is Ok ==> forall|i: int|
                0 <= i < r->Ok_0.0@.len() ==> is_solution(self@, #[trigger] text_lists(r->Ok_0.0@)[i]),
            r is Ok ==> increasing(text_lists(r->Ok_0.0@), word_list_order()),
    {
        proof {
            self.lemma_wf();
        }
        match self.solve(SolveMode::FindAll, usize::MAX) {
            Ok((found, steps)) => {
                let mut out: Vec<Vec<String>> = Vec::new();
                let mut i: usize = 0;
                proof {
                    assert(text_lists(out@) =~= word_lists_of(self@, lists(found@).take(0)));
                }
                while i < found.len()
                    invariant
                        i <= found@.len(),
                        self@.wf(),
                        forall|i: int|
                            0 <= i < found@.len() ==> valid_choice(
                                self@,
                                #[trigger] lists(found@)[i],
                            ) && covers(self@, lists(found@)[i]),
                        text_lists(out@) == word_lists_of(self@, lists(found@).take(i as int)),
                    decreases found@.len() - i,
                {
                    proof {
                        assert(valid_choice(self@, lists(found@)[i as int]));
                        assert(lists(found@).take(i + 1).drop_last() =~= lists(found@).take(
                            i as int,
                        ));
                        assert(lists(found@).take(i + 1).last() == found@[i as int]@);
                    }
                    place_words(&mut out, self.solution_words(&found[i]));
                    i += 1;
                }
                proof {
                    assert(lists(found@).take(i as int) =~= lists(found@));
                    lemma_word_lists(self@, lists(found@));
                    let end = run(self@, SolveMode::FindAll, initial_state(), no_budget());
                    lemma_all_goes_on(self@, initial_state(), no_budget());
                    assert(end is Exhausted);
                    lemma_min_len_attained(end->Exhausted_0.complete);
                    assert(found@.len() > 0);
                    assert forall|i: int| 0 <= i < out@.len() implies is_solution(
                        self@,
                        #[trigger] text_lists(out@)[i],
                    ) by {
                        let l = text_lists(out@)[i];
                        assert(text_lists(out@).contains(l));
                        assert(found_list(self@, lists(found@), l));
                        let j = choose|j: int|
                            0 <= j < lists(found@).len() && words_of(
                                self@,
                                #[trigger] lists(found@)[j],
                            ) == l;
                        assert(valid_choice(self@, lists(found@)[j]));
                        lemma_words_of_choice(self@, lists(found@)[j]);
                    }
                }
                Ok((out, steps))
            },
            Err(e) => Err(e),
        }
    }
}

/// Whether each column allows exactly the letter that `word` has there.
pub open spec fn spells_columns(columns: Seq<Set<char>>, word: Seq<char>) -> bool {
    &&& word.len() == columns.len()
    &&& forall|col: int, ch: char|
        0 <= col < columns.len() ==> (#[trigger] columns[col].contains(ch) <==> ch == word[col])
}

/// Candidates with the same word have the same rank as the next word.
proof fn lemma_same_word_same_rank(p: TypeshiftView, chosen: Seq<usize>, v: int, w: int, n: int)
    requires
        p.words[v] == p.words[w],
    ensures
        new_letters_below(p, chosen, v, n) == new_letters_below(p, chosen, w, n),
        min_freq_below(p, v, n) == min_freq_below(p, w, n),
    decreases n,
{
    if n > 0 {
        lemma_same_word_same_rank(p, chosen, v, w, n - 1);
    }
}

/// With nothing attempted, the children by `words` of the empty choice are
/// the single words, one child for each of `words`.
proof fn lemma_first_children(words: Seq<usize>)
    ensures
        fresh_children(Seq::empty(), words, Seq::empty()).len() == words.len(),
        forall|k: int|
            0 <= k < words.len() ==> #[trigger] fresh_children(
                Seq::empty(),
                words,
                Seq::empty(),
            )[k] == seq![words[k]],
    decreases words.len(),
{
    let none = Seq::<usize>::empty();
    if words.len() > 0 {
        lemma_first_children(words.drop_last());
        let child = sorted_insert(none, words.last());
        assert(child =~= seq![words.last()]);
        assert(!Seq::<Seq<usize>>::empty().contains(child));
        let prev = fresh_children(none, words.drop_last(), Seq::empty());
        let cur = fresh_children(none, words, Seq::empty());
        assert(cur == prev.push(child));
        assert forall|k: int| 0 <= k < words.len() implies #[trigger] cur[k] == seq![words[k]] by {
            if k < prev.len() {
                assert(cur[k] == prev[k]);
                assert(words.drop_last()[k] == words[k]);
            }
        }
    }
}

/// Where every column allows one letter only and those letters spell a
/// candidate, the first cover found is that word alone, found in two steps.
pub proof fn lemma_single_word(p: TypeshiftView, word: Seq<char>)
    requires
        p.wf(),
        spells_columns(p.columns, word),
        p.words.contains(word),
    ensures
        first_solution(p) == Ok::<(Seq<Seq<char>>, nat), SolverError>((seq![word], 2nat)),
{
    let none = Seq::<usize>::empty();
    let start = initial_state();
    let n = p.words.len() as int;
    assert forall|i: int| 0 <= i < n implies #[trigger] p.words[i] == word by {
        assert(spellable(p.columns, p.words[i]));
        assert forall|c: int| 0 <= c < word.len() implies p.words[i][c] == word[c] by {
            assert(p.columns[c].contains(p.words[i][c]));
        }
        assert(p.words[i] =~= word);
    }
    assert(n > 0);
    // Nothing is covered before a word is chosen.
    assert(start.frontier =~= seq![none]);
    assert(ranks_of(p, start.frontier).len() == 1);
    assert(served(p, start) == none);
    assert(!covers(p, none)) by {
        assert(p.columns[0].contains(word[0]));
        assert(!covered(p, none, 0, word[0]));
    }
    // Every candidate is a next word.
    assert forall|w: int| 0 <= w < n implies is_next_word(p, none, w) by {
        assert forall|v: int| 0 <= v < n && !taken(p, none, v) implies !#[trigger] word_better(
            p,
            none,
            v,
            w,
        ) by {
            lemma_same_word_same_rank(p, none, v, w, p.columns.len() as int);
        }
    }
    let words = next_words(p, none);
    lemma_next_words_below(p, none, n);
    assert(picked(words, 0));
    assert(words.len() > 0);
    lemma_first_children(words);
    let second = step(p, start);
    let children = fresh_children(none, words, Seq::empty());
    assert(start.frontier.remove(0) =~= Seq::<Seq<usize>>::empty());
    assert(second.frontier =~= children);
    assert(second.steps == 1);
    let ranks = ranks_of(p, second.frontier);
    lemma_best_index(ranks);
    let k = best_index(ranks);
    let node = second.frontier[k];
    assert(node == seq![words[k]]);
    assert(is_next_word(p, none, words[k] as int));
    assert(covers(p, node)) by {
        assert forall|col: int, ch: char|
            0 <= col < p.columns.len() && p.columns[col].contains(ch) implies #[trigger] covered(
            p,
            node,
            col,
            ch,
        ) by {
            assert(p.words[node[0] as int][col] == ch);
        }
    }
    assert(served(p, second) == node);
    assert(run(p, SolveMode::FindFirst, second, (no_budget() - 1) as nat) == Outcome::Found(
        node,
        2,
    ));
    assert(run(p, SolveMode::FindFirst, start, no_budget()) == Outcome::Found(node, 2));
    assert(search_result(p, SolveMode::FindFirst, no_budget()) == Ok::<
        (Seq<Seq<usize>>, nat),
        SolverError,
    >((seq![node], 2nat)));
    assert(seq![node][0] == node);
    assert(node.drop_last() =~= none);
    assert(words_of(p, node.drop_last()) =~= Seq::<Seq<char>>::empty());
    assert(words_of(p, node) =~= seq![word]);
}

} // verus!
