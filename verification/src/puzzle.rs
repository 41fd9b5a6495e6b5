//! The puzzle: its columns of allowed letters and the dictionary words that
//! can be spelled from them.

use crate::collections::{all_letters, is_letter, is_lowercase, occurrences, LetterCounts, LetterSet};
use crate::order::{
    lemma_lex_irreflexive, lemma_lex_total, lemma_lex_transitive, lemma_place_tail, lex_less, place,
    strict_total,
};
use vstd::prelude::*;

verus! {

/// Why a puzzle could not be built or solved.
#[derive(Clone, Copy, Debug, PartialEq, Eq, Structural)]
pub enum SolverError {
    /// The puzzle text is empty or holds a character that is neither a
    /// lowercase letter nor a line break.
    InvalidPuzzleInput,
    /// Every branch of the search ended without a cover.
    NoCoverExists,
    /// The search was stopped by its step budget.
    SearchBudgetExceeded,
}

/// The position of the first line break in `s`, or `s.len()` if it has none.
pub open spec fn first_newline(s: Seq<char>) -> int
    decreases s.len(),
{
    if s.len() == 0 || s[0] == '\n' {
        0
    } else {
        1 + first_newline(s.skip(1))
    }
}

/// The letter sets of the lines of `s`. A line break ends a line; text after
/// the last line break is a line of its own unless it is empty.
pub open spec fn parse_columns(s: Seq<char>) -> Seq<Set<char>>
    decreases s.len(),
{
    if s.len() == 0 {
        Seq::empty()
    } else {
        let k = first_newline(s);
        if 0 <= k < s.len() {
            seq![s.take(k).to_set()] + parse_columns(s.skip(k + 1))
        } else {
            seq![s.to_set()]
        }
    }
}

/// Puzzle text is valid if it is not empty and holds only lowercase letters
/// and line breaks.
pub open spec fn valid_input(s: Seq<char>) -> bool {
    &&& s.len() > 0
    &&& forall|i: int| 0 <= i < s.len() ==> is_letter(#[trigger] s[i]) || s[i] == '\n'
}

/// A word can be spelled from the columns if it has one letter per column and
/// each letter is allowed in its column.
pub open spec fn spellable(columns: Seq<Set<char>>, word: Seq<char>) -> bool {
    &&& word.len() == columns.len()
    &&& forall|i: int| 0 <= i < word.len() ==> (#[trigger] columns[i]).contains(word[i])
}

/// The order of characters by code point, as a relation.
pub open spec fn char_order() -> spec_fn(char, char) -> bool {
    |c: char, d: char| c < d
}

/// Whether the text `a` comes before the text `b`: at the first place where
/// they differ `a` has the smaller character, or `a` ends there and `b` does not.
pub open spec fn text_less(a: Seq<char>, b: Seq<char>) -> bool {
    lex_less(a, b, char_order())
}

/// The order of texts, as a relation.
pub open spec fn text_order() -> spec_fn(Seq<char>, Seq<char>) -> bool {
    |a: Seq<char>, b: Seq<char>| text_less(a, b)
}

/// The words of `dict` that can be spelled from the columns, in the order of
/// `dict`, as often as `dict` holds them.
pub open spec fn candidates(columns: Seq<Set<char>>, dict: Seq<Seq<char>>) -> Seq<Seq<char>> {
    dict.filter(|w: Seq<char>| spellable(columns, w))
}

/// How often `ch` occurs in all of `words` together.
pub open spec fn letter_total(words: Seq<Seq<char>>, ch: char) -> nat
    decreases words.len(),
{
    if words.len() == 0 {
        0
    } else {
        letter_total(words.drop_last(), ch) + occurrences(words.last(), ch)
    }
}

/// `n`, capped at the largest `usize`.
pub open spec fn capped(n: nat) -> nat {
    if n <= usize::MAX {
        n
    } else {
        usize::MAX as nat
    }
}

/// The rarity of a letter: its frequency over the candidate words, capped at
/// the largest `usize`.
pub open spec fn rarity(words: Seq<Seq<char>>, ch: char) -> nat {
    capped(letter_total(words, ch))
}

/// The character sequences of a list of strings.
pub open spec fn texts(v: Seq<String>) -> Seq<Seq<char>> {
    v.map_values(|s: String| s@)
}

/// The letter sets of a list of columns.
pub open spec fn column_sets(v: Seq<LetterSet>) -> Seq<Set<char>> {
    v.map_values(|c: LetterSet| c@)
}

/// What a puzzle is: its columns and its candidate words.
pub struct TypeshiftView {
    /// The allowed letters of each column, the leftmost column first.
    pub columns: Seq<Set<char>>,
    /// The candidate words.
    pub words: Seq<Seq<char>>,
}

impl TypeshiftView {
    /// A puzzle has a column and no more words than a machine can count, its
    /// columns hold letters only, and each of its words can be spelled from them.
    pub open spec fn wf(self) -> bool {
        &&& self.columns.len() > 0
        &&& self.words.len() <= usize::MAX
        &&& forall|c: int, ch: char|
            0 <= c < self.columns.len() && (#[trigger] self.columns[c].contains(ch))
                ==> is_letter(ch)
        &&& forall|i: int| 0 <= i < self.words.len() ==> spellable(self.columns, #[trigger] self.words[i])
    }
}

/// An unsolved puzzle.
pub struct Typeshift {
    /// The allowed letters of each column, the leftmost column first.
    columns: Vec<LetterSet>,
    /// The dictionary words that can be spelled from the columns.
    words: Vec<String>,
    /// How often each letter occurs in `words`.
    char_freqs: LetterCounts,
}

impl View for Typeshift {
    type V = TypeshiftView;

    closed spec fn view(&self) -> TypeshiftView {
        TypeshiftView { columns: column_sets(self.columns@), words: texts(self.words@) }
    }
}

/// `first_newline` is the first position that holds a line break.
pub proof fn lemma_first_newline(s: Seq<char>, k: int)
    requires
        0 <= k <= s.len(),
        forall|j: int| 0 <= j < k ==> s[j] != '\n',
        k < s.len() ==> s[k] == '\n',
    ensures
        first_newline(s) == k,
    decreases k,
{
    if k > 0 {
        lemma_first_newline(s.skip(1), k - 1);
    }
}

/// Reads the columns of a puzzle, one per line.
fn read_columns(input: &str) -> (r: Result<Vec<LetterSet>, SolverError>)
    ensures
        match r {
            Ok(cols) => valid_input(input@) && column_sets(cols@) == parse_columns(input@),
            Err(e) => e == SolverError::InvalidPuzzleInput && !valid_input(input@),
        },
{
    let n: usize = input.unicode_len();
    let ghost s = input@;
    let mut cols: Vec<LetterSet> = Vec::new();
    let mut cur = LetterSet::new();
    let mut start: usize = 0;
    let mut i: usize = 0;
    proof {
        assert(s.skip(0) =~= s);
        assert(s.subrange(0, 0).to_set() =~= Set::<char>::empty());
    }
    while i < n
        invariant
            n == s.len(),
            s == input@,
            start <= i <= n,
            forall|j: int| 0 <= j < i ==> is_letter(#[trigger] s[j]) || s[j] == '\n',
            forall|j: int| start <= j < i ==> s[j] != '\n',
            cur@ == s.subrange(start as int, i as int).to_set(),
            column_sets(cols@) + parse_columns(s.skip(start as int)) =~= parse_columns(s),
        decreases n - i,
    {
        let ch = input.get_char(i);
        if ch == '\n' {
            proof {
                let rest = s.skip(start as int);
                lemma_first_newline(rest, i - start);
                assert(rest.take(i - start) =~= s.subrange(start as int, i as int));
                assert(rest.skip(i - start + 1) =~= s.skip(i + 1));
                assert(column_sets(cols@.push(cur)) =~= column_sets(cols@) + seq![cur@]);
                assert(s.subrange(i + 1, i + 1) =~= Seq::<char>::empty());
                assert(Seq::<char>::empty().to_set() =~= Set::<char>::empty());
            }
            cols.push(cur);
            cur = LetterSet::new();
            start = i + 1;
        } else if is_lowercase(ch) {
            proof {
                let t = s.subrange(start as int, i as int);
                let u = s.subrange(start as int, i + 1);
                assert(u =~= t.push(ch));
                t.lemma_push_to_set_commute(ch);
            }
            cur.add(ch);
        } else {
            return Err(SolverError::InvalidPuzzleInput);
        }
        i += 1;
    }
    if start < n {
        proof {
            let rest = s.skip(start as int);
            lemma_first_newline(rest, n - start);
            assert(rest =~= s.subrange(start as int, n as int));
            assert(column_sets(cols@.push(cur)) =~= column_sets(cols@) + seq![cur@]);
        }
        cols.push(cur);
    } else {
        assert(column_sets(cols@) + Seq::<Set<char>>::empty() =~= column_sets(cols@));
    }
    if n == 0 {
        return Err(SolverError::InvalidPuzzleInput);
    }
    Ok(cols)
}

/// Whether `word` can be spelled from the columns.
fn can_spell(cols: &Vec<LetterSet>, word: &str) -> (b: bool)
    ensures
        b == spellable(column_sets(cols@), word@),
{
    let n: usize = word.unicode_len();
    if n != cols.len() {
        return false;
    }
    let mut i: usize = 0;
    while i < n
        invariant
            i <= n,
            n == word@.len(),
            n == cols@.len(),
            forall|j: int| 0 <= j < i ==> (#[trigger] column_sets(cols@)[j]).contains(word@[j]),
        decreases n - i,
    {
        let ch = word.get_char(i);
        proof {
            cols[i as int].lemma_members_are_letters();
            assert(column_sets(cols@)[i as int] == cols[i as int]@);
        }
        if !is_lowercase(ch) || !cols[i].contains(ch) {
            return false;
        }
        i += 1;
    }
    true
}

/// Adds the letters of `word` to a tally whose counters stop at the largest `usize`.
fn tally_word(freqs: &mut LetterCounts, word: &str)
    requires
        all_letters(word@),
    ensures
        forall|ch: char|
            is_letter(ch) ==> final(freqs).count(ch) == capped(
                old(freqs).count(ch) + occurrences(word@, ch),
            ),
{
    let n: usize = word.unicode_len();
    let mut i: usize = 0;
    assert(forall|ch: char| is_letter(ch) ==> old(freqs).count(ch) <= usize::MAX) by {
        old(freqs).lemma_counts_fit();
    }
    while i < n
        invariant
            i <= n,
            n == word@.len(),
            all_letters(word@),
            forall|ch: char| is_letter(ch) ==> old(freqs).count(ch) <= usize::MAX,
            forall|ch: char|
                is_letter(ch) ==> freqs.count(ch) == capped(
                    old(freqs).count(ch) + occurrences(word@.take(i as int), ch),
                ),
        decreases n - i,
    {
        let ch = word.get_char(i);
        proof {
            assert(word@.take(i + 1).drop_last() =~= word@.take(i as int));
        }
        if freqs.get(ch) < usize::MAX {
            freqs.add(ch);
        }
        i += 1;
    }
    assert(word@.take(n as int) =~= word@);
}

/// The order of texts orders any two different texts, one way only, and passes on.
pub proof fn lemma_text_order()
    ensures
        strict_total(text_order()),
{
    let less = text_order();
    assert(strict_total(char_order()));
    assert forall|a: Seq<char>, b: Seq<char>| a == b || #[trigger] less(a, b) || less(b, a) by {
        lemma_lex_total(a, b, char_order());
    }
    assert forall|a: Seq<char>, b: Seq<char>, c: Seq<char>| #[trigger]
        less(a, b) && #[trigger] less(b, c) implies less(a, c) by {
        lemma_lex_transitive(a, b, c, char_order());
    }
    assert forall|a: Seq<char>| !#[trigger] less(a, a) by {
        lemma_lex_irreflexive(a, char_order());
    }
}

/// Whether the text `a` comes before the text `b`.
pub fn text_is_less(a: &str, b: &str) -> (less: bool)
    ensures
        less == text_less(a@, b@),
{
    let n: usize = a.unicode_len();
    let m: usize = b.unicode_len();
    let mut i: usize = 0;
    proof {
        assert(a@.skip(0) =~= a@);
        assert(b@.skip(0) =~= b@);
    }
    while i < n && i < m
        invariant
            n == a@.len(),
            m == b@.len(),
            i <= n,
            i <= m,
            text_less(a@, b@) == text_less(a@.skip(i as int), b@.skip(i as int)),
        decreases n - i,
    {
        proof {
            assert(a@.skip(i as int).skip(1) =~= a@.skip(i + 1));
            assert(b@.skip(i as int).skip(1) =~= b@.skip(i + 1));
        }
        let x = a.get_char(i);
        let y = b.get_char(i);
        if x != y {
            return x < y;
        }
        i += 1;
    }
    i < m
}

/// Puts `word` in its place among `words` in the order of texts, unless it
/// is there already.
pub fn place_word(words: &mut Vec<String>, word: &String)
    ensures
        texts(final(words)@) == place(texts(old(words)@), word@, text_order()),
{
    let ghost before = texts(words@);
    let mut i: usize = words.len();
    let mut placed = false;
    while i > 0 && !placed
        invariant
            i <= words@.len(),
            words@ == old(words)@,
            before == texts(words@),
            forall|k: int|
                i <= k < before.len() ==> before[k] != word@ && !text_less(before[k], word@),
            placed ==> i > 0 && before[i - 1] != word@ && text_less(before[i - 1], word@),
        decreases i + if placed { 0int } else { 1int },
    {
        if words[i - 1] == *word {
            proof {
                lemma_place_tail(before, word@, text_order(), i as int);
                assert(before.take(i as int).last() == word@);
                assert(before.take(i as int) + before.skip(i as int) =~= before);
            }
            return ;
        }
        if text_is_less(words[i - 1].as_str(), word.as_str()) {
            placed = true;
        } else {
            i -= 1;
        }
    }
    proof {
        lemma_place_tail(before, word@, text_order(), i as int);
        if i > 0 {
            assert(before.take(i as int).last() == before[i - 1]);
        }
        assert(place(before.take(i as int), word@, text_order()) =~= before.take(i as int).push(
            word@,
        ));
    }
    words.insert(i, word.clone());
    proof {
        assert(texts(words@) =~= before.take(i as int).push(word@) + before.skip(i as int));
    }
}

impl Typeshift {
    /// The table of letter frequencies agrees with the candidate words, and
    /// the puzzle is well formed.
    pub closed spec fn wf(&self) -> bool {
        &&& self@.wf()
        &&& forall|ch: char|
            is_letter(ch) ==> self.char_freqs.count(ch) == rarity(self@.words, ch)
    }

    /// A valid puzzle is a well-formed one.
    pub proof fn lemma_wf(&self)
        requires
            self.wf(),
        ensures
            self@.wf(),
            self@.words.len() <= usize::MAX,
            self@.columns.len() <= usize::MAX,
    {
        assert(self.words.len() == self.words@.len());
        assert(self.columns.len() == self.columns@.len());
    }

    /// Builds the puzzle whose columns are the lines of `input`, the leftmost
    /// column first, with the words of `dict` that can be spelled from them.
    pub fn new(input: &str, dict: &Vec<String>) -> (r: Result<Typeshift, SolverError>)
        ensures
            match r {
                Ok(puzzle) => {
                    &&& valid_input(input@)
                    &&& puzzle.wf()
                    &&& puzzle@.columns == parse_columns(input@)
                    &&& puzzle@.words == candidates(parse_columns(input@), texts(dict@))
                },
                Err(e) => e == SolverError::InvalidPuzzleInput && !valid_input(input@),
            },
    {
        let columns = match read_columns(input) {
            Ok(columns) => columns,
            Err(e) => {
                return Err(e);
            },
        };
        let ghost cols = column_sets(columns@);
        let ghost pred = |w: Seq<char>| spellable(cols, w);
        let mut words: Vec<String> = Vec::new();
        let mut char_freqs = LetterCounts::new();
        let n: usize = dict.len();
        let mut i: usize = 0;
        proof {
            assert(texts(dict@).take(0) =~= Seq::<Seq<char>>::empty());
            reveal(Seq::filter);
            assert(texts(words@) =~= Seq::<Seq<char>>::empty());
            assert forall|c: int, ch: char| 0 <= c < cols.len() && (#[trigger] cols[c].contains(ch)) implies is_letter(ch) by {
                columns[c].lemma_members_are_letters();
            }
            lemma_parse_nonempty(input@);
        }
        while i < n
            invariant
                i <= n,
                n == dict@.len(),
                cols == column_sets(columns@),
                cols.len() > 0,
                pred == |w: Seq<char>| spellable(cols, w),
                forall|c: int, ch: char|
                    0 <= c < cols.len() && (#[trigger] cols[c].contains(ch)) ==> is_letter(ch),
                texts(words@) == texts(dict@).take(i as int).filter(pred),
                forall|k: int| 0 <= k < words@.len() ==> spellable(cols, #[trigger] texts(words@)[k]),
                forall|ch: char| is_letter(ch) ==> char_freqs.count(ch) == rarity(texts(words@), ch),
            decreases n - i,
        {
            let word = &dict[i];
            proof {
                assert(texts(dict@).take(i + 1) =~= texts(dict@).take(i as int).push(word@));
                texts(dict@).take(i as int).lemma_filter_push(word@, pred);
            }
            if can_spell(&columns, word.as_str()) {
                proof {
                    assert(all_letters(word@)) by {
                        assert forall|j: int| 0 <= j < word@.len() implies is_letter(#[trigger] word@[j]) by {
                            assert(cols[j].contains(word@[j]));
                        }
                    }
                    assert(texts(words@.push(*word)) =~= texts(words@).push(word@));
                    assert(texts(words@).push(word@).drop_last() =~= texts(words@));
                }
                tally_word(&mut char_freqs, word.as_str());
                words.push(word.clone());
            }
            i += 1;
        }
        proof {
            assert(texts(dict@).take(n as int) =~= texts(dict@));
            assert(words.len() == words@.len());
        }
        Ok(Typeshift { columns, words, char_freqs })
    }

    /// The number of candidate words.
    pub fn size(&self) -> (n: usize)
        ensures
            n == self@.words.len(),
    {
        self.words.len()
    }

    /// The number of columns.
    pub fn width(&self) -> (n: usize)
        ensures
            n == self@.columns.len(),
    {
        self.columns.len()
    }

    /// The allowed letters of column `c`.
    pub fn column(&self, c: usize) -> (col: &LetterSet)
        requires
            c < self@.columns.len(),
        ensures
            col@ == self@.columns[c as int],
    {
        &self.columns[c]
    }

    /// The candidate word of index `i`.
    pub fn word(&self, i: usize) -> (w: &str)
        requires
            i < self@.words.len(),
        ensures
            w@ == self@.words[i as int],
    {
        self.words[i].as_str()
    }

    /// The candidate word of index `i`, as a string.
    pub fn word_string(&self, i: usize) -> (w: &String)
        requires
            i < self@.words.len(),
        ensures
            w@ == self@.words[i as int],
    {
        &self.words[i]
    }

    /// The rarity of `ch`: how often it occurs in the candidate words.
    pub fn char_freq(&self, ch: char) -> (n: usize)
        requires
            self.wf(),
            is_letter(ch),
        ensures
            n == rarity(self@.words, ch),
    {
        self.char_freqs.get(ch)
    }
}

/// Text that is not empty has a first line.
proof fn lemma_parse_nonempty(s: Seq<char>)
    ensures
        s.len() > 0 ==> parse_columns(s).len() > 0,
{
}

} // verus!
