//! A partial solution: the words chosen so far on one branch of the search,
//! with a tally per column of the letters they use.

use crate::collections::{is_letter, lemma_members_below, members, LetterCounts};
use crate::cover::{
    covered, covers, lemma_covered_usage, lemma_insert_position,
    lemma_sorted_insert, lemma_usage_bound, lemma_usage_empty, lemma_usage_insert, overlap_count,
    letter_use, overlaps_among, overlaps_below, picked, sorted_insert, taken, usage,
    valid_choice,
};
use crate::puzzle::{capped, spellable, Typeshift};
use crate::ranking::{
    comes_before, is_next_word, is_ranking, is_word_rank, lemma_increasing_unique,
    lemma_next_words_below, min_char_freq, min_freq_below, new_letters, new_letters_below,
    next_words, node_rank, word_better, NodeRank, WordRank,
};
use vstd::prelude::*;

verus! {

/// A copy of a list of indices.
pub fn copy_indices(v: &Vec<usize>) -> (out: Vec<usize>)
    ensures
        out@ == v@,
{
    let mut out: Vec<usize> = Vec::new();
    let mut i: usize = 0;
    while i < v.len()
        invariant
            i <= v.len(),
            out@ == v@.take(i as int),
        decreases v.len() - i,
    {
        out.push(v[i]);
        proof {
            assert(v@.take(i + 1) =~= v@.take(i as int).push(v@[i as int]));
        }
        i += 1;
    }
    proof {
        assert(v@.take(v.len() as int) =~= v@);
    }
    out
}

/// One node of the search: some candidate words of a puzzle.
pub struct PartialSolution<'a> {
    /// The puzzle that the words are chosen for.
    typeshift: &'a Typeshift,
    /// The indices of the chosen candidate words, in increasing order.
    used_words: Vec<usize>,
    /// For each column, how often the chosen words use each letter there.
    char_usages: Vec<LetterCounts>,
}

impl<'a> View for PartialSolution<'a> {
    type V = Seq<usize>;

    /// The indices of the chosen candidate words, in increasing order.
    closed spec fn view(&self) -> Seq<usize> {
        self.used_words@
    }
}

impl<'a> Clone for PartialSolution<'a> {
    /// A copy of this partial solution for another branch.
    fn clone(&self) -> (node: Self)
        ensures
            node@ == self@,
            node.puzzle() == self.puzzle(),
            self.wf() ==> node.wf(),
    {
        let mut char_usages: Vec<LetterCounts> = Vec::new();
        let mut c: usize = 0;
        while c < self.char_usages.len()
            invariant
                c <= self.char_usages@.len(),
                char_usages@ == self.char_usages@.take(c as int),
            decreases self.char_usages@.len() - c,
        {
            char_usages.push(self.char_usages[c].clone());
            proof {
                assert(self.char_usages@.take(c + 1) =~= self.char_usages@.take(c as int).push(
                    self.char_usages@[c as int],
                ));
            }
            c += 1;
        }
        proof {
            assert(self.char_usages@.take(c as int) =~= self.char_usages@);
        }
        PartialSolution {
            typeshift: self.typeshift,
            used_words: copy_indices(&self.used_words),
            char_usages,
        }
    }
}

impl<'a> PartialSolution<'a> {
    /// The puzzle that the words are chosen for.
    pub closed spec fn puzzle(&self) -> Typeshift {
        *self.typeshift
    }

    /// The chosen words are a valid choice for the puzzle, and the tallies
    /// count exactly their letters.
    pub closed spec fn wf(&self) -> bool {
        &&& self.typeshift.wf()
        &&& valid_choice(self.typeshift@, self@)
        &&& self.char_usages@.len() == self.typeshift@.columns.len()
        &&& forall|c: int, ch: char|
            0 <= c < self.char_usages@.len() && is_letter(ch) ==> self.char_usages@[c].count(ch)
                == #[trigger] usage(self.typeshift@, self@, c, ch)
    }

    /// A well-formed partial solution holds a valid choice for a well-formed puzzle.
    pub proof fn lemma_wf(&self)
        requires
            self.wf(),
        ensures
            self.puzzle().wf(),
            valid_choice(self.puzzle()@, self@),
    {
    }

    /// The partial solution in which no word is chosen.
    pub fn empty(typeshift: &'a Typeshift) -> (node: Self)
        requires
            typeshift.wf(),
        ensures
            node.wf(),
            node@ == Seq::<usize>::empty(),
            node.puzzle() == *typeshift,
            forall|c: int, ch: char| #[trigger] usage(typeshift@, node@, c, ch) == 0,
    {
        let width: usize = typeshift.width();
        let mut char_usages: Vec<LetterCounts> = Vec::new();
        while char_usages.len() < width
            invariant
                char_usages@.len() <= width,
                forall|c: int, ch: char|
                    0 <= c < char_usages@.len() && is_letter(ch) ==> #[trigger] char_usages@[c].count(
                        ch,
                    ) == 0,
            decreases width - char_usages@.len(),
        {
            char_usages.push(LetterCounts::new());
        }
        let node = PartialSolution { typeshift, used_words: Vec::new(), char_usages };
        proof {
            assert forall|c: int, ch: char| #[trigger] usage(typeshift@, node@, c, ch) == 0 by {
                lemma_usage_empty(typeshift@, c, ch, typeshift@.words.len() as int);
                assert(node@ =~= Seq::<usize>::empty());
            }
            assert forall|c: int, ch: char|
                0 <= c < node.char_usages@.len() && is_letter(ch) implies node.char_usages@[c].count(
                ch,
            ) == #[trigger] usage(typeshift@, node@, c, ch) by {
                lemma_usage_empty(typeshift@, c, ch, typeshift@.words.len() as int);
                assert(node@ =~= Seq::<usize>::empty());
            }
        }
        node
    }

    /// The puzzle that the words are chosen for.
    pub fn typeshift(&self) -> (typeshift: &'a Typeshift)
        ensures
            *typeshift == self.puzzle(),
    {
        self.typeshift
    }

    /// The tally of the letters that the chosen words use in column `col`.
    pub fn char_usages(&self, col: usize) -> (counts: &LetterCounts)
        requires
            self.wf(),
            col < self.puzzle()@.columns.len(),
        ensures
            forall|ch: char|
                is_letter(ch) ==> counts.count(ch) == #[trigger] usage(
                    self.puzzle()@,
                    self@,
                    col as int,
                    ch,
                ),
    {
        &self.char_usages[col]
    }

    /// The number of chosen words.
    pub fn len(&self) -> (n: usize)
        ensures
            n == self@.len(),
    {
        self.used_words.len()
    }

    /// The indices of the chosen words, in increasing order.
    pub fn used_words(&self) -> (used: &Vec<usize>)
        ensures
            used@ == self@,
    {
        &self.used_words
    }

    /// Whether the word of the candidate `word` is among the chosen words.
    pub fn is_used(&self, word: usize) -> (b: bool)
        requires
            self.wf(),
            word < self.puzzle()@.words.len(),
        ensures
            b == taken(self.puzzle()@, self@, word as int),
    {
        let text = self.typeshift.word_string(word);
        let mut k: usize = 0;
        while k < self.used_words.len()
            invariant
                self.wf(),
                word < self.typeshift@.words.len(),
                text@ == self.typeshift@.words[word as int],
                k <= self.used_words@.len(),
                forall|j: int|
                    0 <= j < k ==> self.typeshift@.words[#[trigger] self.used_words@[j] as int]
                        != text@,
            decreases self.used_words@.len() - k,
        {
            if *self.typeshift.word_string(self.used_words[k]) == *text {
                return true;
            }
            k += 1;
        }
        false
    }

    /// Chooses one more word: the candidate of index `word`.
    pub fn add_word(&mut self, word: usize)
        requires
            old(self).wf(),
            word < old(self).puzzle()@.words.len(),
            !taken(old(self).puzzle()@, old(self)@, word as int),
        ensures
            final(self).wf(),
            final(self)@ == sorted_insert(old(self)@, word),
            final(self).puzzle() == old(self).puzzle(),
            forall|c: int, ch: char|
                0 <= c < old(self).puzzle()@.columns.len() ==> #[trigger] usage(
                    old(self).puzzle()@,
                    final(self)@,
                    c,
                    ch,
                ) == usage(old(self).puzzle()@, old(self)@, c, ch) + letter_use(
                    old(self).puzzle()@,
                    word as int,
                    c,
                    ch,
                ),
    {
        let ghost p = self.typeshift@;
        let ghost before = self@;
        let ghost after = sorted_insert(before, word);
        let text = self.typeshift.word(word);
        let width: usize = self.typeshift.width();
        let size: usize = self.typeshift.size();
        proof {
            self.typeshift.lemma_wf();
            lemma_sorted_insert(p, before, word);
            assert forall|c: int, ch: char| 0 <= c < width implies #[trigger] usage(p, after, c, ch)
                == usage(p, before, c, ch) + if p.words[word as int][c] == ch {
                1nat
            } else {
                0nat
            } && usage(p, after, c, ch) <= size by {
                lemma_usage_insert(p, before, after, word as int, c, ch, size as int);
                lemma_usage_bound(p, after, c, ch, size as int);
            }
        }
        let mut col: usize = 0;
        while col < width
            invariant
                col <= width,
                width == p.columns.len(),
                p == self.typeshift@,
                self.typeshift == old(self).typeshift,
                self.used_words == old(self).used_words,
                self.char_usages@.len() == width,
                word < p.words.len(),
                text@ == p.words[word as int],
                spellable(p.columns, text@),
                p.wf(),
                forall|c: int, ch: char|
                    0 <= c < width ==> #[trigger] usage(p, after, c, ch) == usage(
                        p,
                        before,
                        c,
                        ch,
                    ) + if p.words[word as int][c] == ch {
                        1nat
                    } else {
                        0nat
                    } && usage(p, after, c, ch) <= size,
                forall|c: int, ch: char|
                    0 <= c < col && is_letter(ch) ==> self.char_usages@[c].count(ch)
                        == #[trigger] usage(p, after, c, ch),
                forall|c: int, ch: char|
                    col <= c < width && is_letter(ch) ==> self.char_usages@[c].count(ch)
                        == #[trigger] usage(p, before, c, ch),
            decreases width - col,
        {
            let ch = text.get_char(col);
            proof {
                assert(p.columns[col as int].contains(ch));
                assert(is_letter(ch));
                assert(usage(p, after, col as int, ch) == usage(p, before, col as int, ch) + 1);
            }
            let mut counts = self.char_usages[col].clone();
            counts.add(ch);
            let ghost prev = self.char_usages@;
            self.char_usages.set(col, counts);
            proof {
                assert forall|c: int, l: char|
                    0 <= c < col + 1 && is_letter(l) implies self.char_usages@[c].count(l)
                    == #[trigger] usage(p, after, c, l) by {
                    if c == col {
                        assert(usage(p, before, c, l) == prev[c].count(l));
                    } else {
                        assert(self.char_usages@[c] == prev[c]);
                    }
                }
                assert forall|c: int, l: char|
                    col + 1 <= c < width && is_letter(l) implies self.char_usages@[c].count(l)
                    == #[trigger] usage(p, before, c, l) by {
                    assert(self.char_usages@[c] == prev[c]);
                }
            }
            col += 1;
        }
        let mut pos: usize = 0;
        while pos < self.used_words.len() && self.used_words[pos] < word
            invariant
                pos <= self.used_words@.len(),
                self.used_words@ == before,
                forall|k: int| 0 <= k < pos ==> before[k] < word,
            decreases self.used_words@.len() - pos,
        {
            pos += 1;
        }
        proof {
            assert forall|k: int| pos <= k < before.len() implies before[k] > word by {
                assert(before[k] != word);
                if k > pos {
                    assert(before[pos as int] < before[k]);
                }
            }
            lemma_insert_position(before, word, pos as int);
        }
        self.used_words.insert(pos, word);
    }

    /// The usage counts of the allowed letters of column `col`, in
    /// alphabetical order of the letters.
    pub fn included_char_counts(&self, col: usize) -> (out: Vec<usize>)
        requires
            self.wf(),
            col < self.puzzle()@.columns.len(),
        ensures
            out@.len() == members(self.puzzle()@.columns[col as int]).len(),
            forall|k: int|
                0 <= k < out@.len() ==> #[trigger] out@[k] == usage(
                    self.puzzle()@,
                    self@,
                    col as int,
                    members(self.puzzle()@.columns[col as int])[k],
                ),
    {
        proof {
            lemma_members_below(self.typeshift@.columns[col as int], 26);
        }
        self.typeshift.column(col).filter_counts(&self.char_usages[col])
    }

    /// Whether the chosen words cover the puzzle: every allowed letter of
    /// every column is used at least once.
    pub fn solved(&self) -> (b: bool)
        requires
            self.wf(),
        ensures
            b == covers(self.puzzle()@, self@),
    {
        let ghost p = self.typeshift@;
        let width: usize = self.typeshift.width();
        let mut col: usize = 0;
        while col < width
            invariant
                self.wf(),
                p == self.typeshift@,
                col <= width,
                width == p.columns.len(),
                forall|c: int, ch: char|
                    0 <= c < col && p.columns[c].contains(ch) ==> #[trigger] covered(
                        p,
                        self@,
                        c,
                        ch,
                    ),
            decreases width - col,
        {
            let counts = self.included_char_counts(col);
            let ghost letters = members(p.columns[col as int]);
            proof {
                lemma_members_below(p.columns[col as int], 26);
            }
            let mut k: usize = 0;
            while k < counts.len()
                invariant
                    k <= counts@.len(),
                    forall|j: int| 0 <= j < k ==> counts@[j] > 0,
                    self.wf(),
                    p == self.typeshift@,
                    col < width,
                    width == p.columns.len(),
                    letters == members(p.columns[col as int]),
                    counts@.len() == letters.len(),
                    forall|j: int|
                        0 <= j < counts@.len() ==> #[trigger] counts@[j] == usage(
                            p,
                            self@,
                            col as int,
                            letters[j],
                        ),
                    forall|j: int|
                        0 <= j < letters.len() ==> p.columns[col as int].contains(
                            #[trigger] letters[j],
                        ),
                decreases counts@.len() - k,
            {
                if counts[k] == 0 {
                    proof {
                        let ch = letters[k as int];
                        assert(counts@[k as int] == usage(p, self@, col as int, ch));
                        lemma_covered_usage(p, self@, col as int, ch);
                        assert(p.columns[col as int].contains(ch));
                        assert(!covered(p, self@, col as int, ch));
                    }
                    return false;
                }
                k += 1;
            }
            proof {
                assert forall|ch: char| p.columns[col as int].contains(ch) implies #[trigger] covered(
                    p,
                    self@,
                    col as int,
                    ch,
                ) by {
                    self.typeshift.lemma_wf();
                    assert(is_letter(ch));
                    assert(letters.contains(ch));
                    let j = choose|j: int| 0 <= j < letters.len() && letters[j] == ch;
                    assert(counts@[j] > 0);
                    lemma_covered_usage(p, self@, col as int, ch);
                }
            }
            col += 1;
        }
        true
    }

    /// The number of overlaps: pairs of a column and an allowed letter that
    /// the chosen words use more than once.
    pub fn overlaps(&self) -> (n: usize)
        requires
            self.wf(),
        ensures
            n == overlap_count(self.puzzle()@, self@),
    {
        let ghost p = self.typeshift@;
        let width: usize = self.typeshift.width();
        let mut total: usize = 0;
        let mut col: usize = 0;
        while col < width
            invariant
                self.wf(),
                p == self.typeshift@,
                col <= width,
                width == p.columns.len(),
                total == capped(overlaps_below(p, self@, col as int)),
            decreases width - col,
        {
            let counts = self.included_char_counts(col);
            let ghost letters = members(p.columns[col as int]);
            proof {
                lemma_members_below(p.columns[col as int], 26);
                assert(letters.take(0) =~= Seq::<char>::empty());
            }
            let mut found: usize = 0;
            let mut k: usize = 0;
            while k < counts.len()
                invariant
                    k <= counts@.len(),
                    found <= k,
                    counts@.len() == letters.len(),
                    letters.len() <= 26,
                    found == overlaps_among(p, self@, col as int, letters.take(k as int)),
                    forall|j: int|
                        0 <= j < counts@.len() ==> #[trigger] counts@[j] == usage(
                            p,
                            self@,
                            col as int,
                            letters[j],
                        ),
                decreases counts@.len() - k,
            {
                proof {
                    assert(letters.take(k + 1).drop_last() =~= letters.take(k as int));
                    assert(counts@[k as int] == usage(p, self@, col as int, letters[k as int]));
                }
                if counts[k] > 1 {
                    found += 1;
                }
                k += 1;
            }
            proof {
                assert(letters.take(k as int) =~= letters);
            }
            total = if total > usize::MAX - found {
                usize::MAX
            } else {
                total + found
            };
            col += 1;
        }
        total
    }

    /// The priority of this partial solution in the search.
    pub fn rank(&self) -> (rank: NodeRank)
        requires
            self.wf(),
        ensures
            rank == node_rank(self.puzzle()@, self@),
    {
        NodeRank { solved: self.solved(), overlaps: self.overlaps(), words: self.used_words.len() }
    }
    /// In how many columns the candidate `word` would use a letter that no
    /// chosen word uses there.
    pub fn new_letters(&self, word: usize) -> (n: usize)
        requires
            self.wf(),
            word < self.puzzle()@.words.len(),
        ensures
            n == new_letters(self.puzzle()@, self@, word as int),
    {
        let ghost p = self.typeshift@;
        let text = self.typeshift.word(word);
        let width: usize = self.typeshift.width();
        proof {
            self.typeshift.lemma_wf();
        }
        let mut n: usize = 0;
        let mut col: usize = 0;
        while col < width
            invariant
                self.wf(),
                p == self.typeshift@,
                p.wf(),
                col <= width,
                width == p.columns.len(),
                word < p.words.len(),
                text@ == p.words[word as int],
                spellable(p.columns, text@),
                n <= col,
                n == new_letters_below(p, self@, word as int, col as int),
            decreases width - col,
        {
            let ch = text.get_char(col);
            proof {
                assert(p.columns[col as int].contains(ch));
                assert(is_letter(ch));
                assert(self.char_usages@[col as int].count(ch) == usage(p, self@, col as int, ch));
            }
            if self.char_usages[col].get(ch) == 0 {
                n += 1;
            }
            col += 1;
        }
        n
    }

    /// The rarity of the rarest letter of the candidate `word`.
    pub fn min_char_freq(&self, word: usize) -> (n: usize)
        requires
            self.wf(),
            word < self.puzzle()@.words.len(),
        ensures
            n == min_char_freq(self.puzzle()@, word as int),
    {
        let ghost p = self.typeshift@;
        let text = self.typeshift.word(word);
        let width: usize = self.typeshift.width();
        proof {
            self.typeshift.lemma_wf();
            assert(p.columns[0].contains(text@[0]));
        }
        let mut best: usize = self.typeshift.char_freq(text.get_char(0));
        let mut col: usize = 1;
        while col < width
            invariant
                self.wf(),
                p == self.typeshift@,
                p.wf(),
                1 <= col <= width,
                width == p.columns.len(),
                word < p.words.len(),
                text@ == p.words[word as int],
                spellable(p.columns, text@),
                best == min_freq_below(p, word as int, col as int),
            decreases width - col,
        {
            let ch = text.get_char(col);
            proof {
                assert(p.columns[col as int].contains(ch));
                assert(is_letter(ch));
            }
            let freq: usize = self.typeshift.char_freq(ch);
            if freq < best {
                best = freq;
            }
            col += 1;
        }
        best
    }

    /// The rank of the candidate `word` as the next word.
    pub fn word_rank(&self, word: usize) -> (rank: WordRank)
        requires
            self.wf(),
            word < self.puzzle()@.words.len(),
        ensures
            is_word_rank(self.puzzle()@, self@, word as int, rank),
    {
        WordRank { new_letters: self.new_letters(word), min_freq: self.min_char_freq(word) }
    }

    /// All candidates with their ranks as the next word, best first: more
    /// new letters first, then the rarer rarest letter, and candidates of
    /// equal rank in their order in the puzzle.
    pub fn rank_words(&self) -> (ranked: Vec<(usize, WordRank)>)
        requires
            self.wf(),
        ensures
            is_ranking(self.puzzle()@, self@, firsts(ranked@)),
            forall|k: int|
                0 <= k < ranked@.len() ==> is_word_rank(
                    self.puzzle()@,
                    self@,
                    (#[trigger] ranked@[k]).0 as int,
                    ranked@[k].1,
                ),
    {
        let ghost p = self.typeshift@;
        let size: usize = self.typeshift.size();
        let mut ranked: Vec<(usize, WordRank)> = Vec::new();
        let mut word: usize = 0;
        while word < size
            invariant
                self.wf(),
                p == self.puzzle()@,
                word <= size,
                size == p.words.len(),
                ranked@.len() == word,
                forall|k: int| 0 <= k < ranked@.len() ==> (#[trigger] ranked@[k]).0 < word,
                forall|w: int| 0 <= w < word ==> #[trigger] picked(firsts(ranked@), w),
                forall|k: int|
                    0 <= k < ranked@.len() ==> is_word_rank(
                        p,
                        self@,
                        (#[trigger] ranked@[k]).0 as int,
                        ranked@[k].1,
                    ),
                forall|i: int, j: int|
                    0 <= i < j < ranked@.len() ==> comes_before(
                        p,
                        self@,
                        (#[trigger] ranked@[i]).0 as int,
                        (#[trigger] ranked@[j]).0 as int,
                    ),
            decreases size - word,
        {
            let rank = self.word_rank(word);
            let mut pos: usize = ranked.len();
            while pos > 0 && rank.is_better(&ranked[pos - 1].1)
                invariant
                    pos <= ranked@.len(),
                    forall|k: int| pos <= k < ranked@.len() ==> rank.better((#[trigger] ranked@[k]).1),
                decreases pos,
            {
                pos -= 1;
            }
            let ghost before = ranked@;
            ranked.insert(pos, (word, rank));
            proof {
                let after = ranked@;
                assert forall|w: int| 0 <= w < word + 1 implies #[trigger] picked(
                    firsts(after),
                    w,
                ) by {
                    if w < word {
                        assert(picked(firsts(before), w));
                        let k = choose|k: int|
                            0 <= k < firsts(before).len() && #[trigger] firsts(before)[k] == w;
                        if k < pos {
                            assert(firsts(after)[k] == w);
                        } else {
                            assert(firsts(after)[k + 1] == w);
                        }
                    } else {
                        assert(firsts(after)[pos as int] == w);
                    }
                }
                assert forall|i: int, j: int| 0 <= i < j < after.len() implies comes_before(
                    p,
                    self@,
                    (#[trigger] after[i]).0 as int,
                    (#[trigger] after[j]).0 as int,
                ) by {
                    let bi = if i < pos { i } else { i - 1 };
                    let bj = if j < pos { j } else { j - 1 };
                    if i == pos {
                        assert(after[j] == before[bj]);
                        assert(rank.better(before[bj].1));
                    } else if j == pos {
                        assert(after[i] == before[bi]);
                        assert(before[bi].0 < word);
                        if pos > 0 {
                            assert(!rank.better(before[pos - 1].1));
                            if bi < pos - 1 {
                                assert(comes_before(
                                    p,
                                    self@,
                                    before[bi].0 as int,
                                    before[pos - 1].0 as int,
                                ));
                            }
                        }
                    } else {
                        assert(after[i] == before[bi]);
                        assert(after[j] == before[bj]);
                    }
                }
            }
            word += 1;
        }
        ranked
    }

    /// The words to try next: the leading candidates of the ranking whose
    /// word is not chosen yet, as far as they are tied for the best rank.
    pub fn next_words(&self) -> (out: Vec<usize>)
        requires
            self.wf(),
        ensures
            out@ == next_words(self.puzzle()@, self@),
    {
        let ghost p = self.typeshift@;
        let size: usize = self.typeshift.size();
        let ranked = self.rank_words();
        let ghost order = firsts(ranked@);
        let mut first: usize = 0;
        proof {
            assert forall|k: int| 0 <= k < ranked@.len() implies (#[trigger] ranked@[k]).0
                < size by {
                assert(order[k] < p.words.len());
            }
        }
        while first < size && self.is_used(ranked[first].0)
            invariant
                self.wf(),
                forall|k: int| 0 <= k < ranked@.len() ==> (#[trigger] ranked@[k]).0 < size,
                p == self.puzzle()@,
                first <= size,
                size == p.words.len(),
                ranked@.len() == size,
                order == firsts(ranked@),
                is_ranking(p, self@, order),
                forall|k: int| 0 <= k < first ==> taken(p, self@, #[trigger] order[k] as int),
            decreases size - first,
        {
            proof {
                assert(order[first as int] == ranked@[first as int].0);
            }
            first += 1;
        }
        let mut out: Vec<usize> = Vec::new();
        proof {
            self.typeshift.lemma_wf();
            lemma_next_words_below(p, self@, size as int);
        }
        if first < size {
            let best: WordRank = ranked[first].1;
            let ghost lead = order[first as int] as int;
            proof {
                assert(order[first as int] == ranked@[first as int].0);
                assert(!taken(p, self@, lead));
            }
            let mut k: usize = first;
            while k < size
                invariant
                    self.wf(),
                    p == self.puzzle()@,
                    first <= k <= size,
                    forall|k: int| 0 <= k < ranked@.len() ==> (#[trigger] ranked@[k]).0 < size,
                    size == p.words.len(),
                    ranked@.len() == size,
                    order == firsts(ranked@),
                    is_ranking(p, self@, order),
                    lead == order[first as int],
                    !taken(p, self@, lead),
                    is_word_rank(p, self@, lead, best),
                    forall|j: int|
                        0 <= j < ranked@.len() ==> is_word_rank(
                            p,
                            self@,
                            (#[trigger] ranked@[j]).0 as int,
                            ranked@[j].1,
                        ),
                    forall|j: int| 0 <= j < first ==> taken(p, self@, #[trigger] order[j] as int),
                    forall|j: int|
                        0 <= j < out@.len() ==> is_next_word(p, self@, (#[trigger] out@[j]) as int),
                    forall|i: int, j: int| 0 <= i < j < out@.len() ==> out@[i] < out@[j],
                    forall|j: int|
                        0 <= j < k && is_next_word(p, self@, order[j] as int) ==> #[trigger] picked(
                            out@,
                            order[j] as int,
                        ),
                    forall|j: int|
                        0 <= j < out@.len() ==> exists|i: int|
                            first <= i < k && order[i] == #[trigger] out@[j],
                decreases size - k,
            {
                let word: usize = ranked[k].0;
                proof {
                    assert(order[k as int] == word);
                    assert(is_word_rank(p, self@, ranked@[k as int].0 as int, ranked@[k as int].1));
                }
                let tied = !best.is_better(&ranked[k].1) && !self.is_used(word);
                proof {
                    let w = word as int;
                    if tied {
                        assert forall|v: int|
                            0 <= v < p.words.len() && !taken(p, self@, v) implies !#[trigger] word_better(
                            p,
                            self@,
                            v,
                            w,
                        ) by {
                            assert(picked(order, v));
                            let m = choose|m: int| 0 <= m < order.len() && #[trigger] order[m] == v;
                            if m < first {
                                assert(taken(p, self@, order[m] as int));
                            } else if m > first {
                                assert(comes_before(p, self@, order[first as int] as int, order[m] as int));
                            }
                        }
                        assert(is_next_word(p, self@, w));
                        assert forall|j: int| 0 <= j < out@.len() implies out@[j] < word by {
                            let i = choose|i: int| first <= i < k && order[i] == #[trigger] out@[j];
                            assert(comes_before(p, self@, order[i] as int, order[k as int] as int));
                            assert(is_next_word(p, self@, out@[j] as int));
                        }
                    } else if is_next_word(p, self@, w) {
                        assert(!word_better(p, self@, lead, w));
                        assert(false);
                    }
                }
                if tied {
                    let ghost prev = out@;
                    out.push(word);
                    proof {
                        assert forall|j: int|
                            0 <= j < k + 1 && is_next_word(p, self@, order[j] as int) implies #[trigger] picked(
                            out@,
                            order[j] as int,
                        ) by {
                            if j < k {
                                assert(picked(prev, order[j] as int));
                                let m = choose|m: int|
                                    0 <= m < prev.len() && #[trigger] prev[m] == order[j] as int;
                                assert(out@[m] == order[j]);
                            } else {
                                assert(out@[prev.len() as int] == order[j]);
                            }
                        }
                        assert forall|j: int| 0 <= j < out@.len() implies exists|i: int|
                            first <= i < k + 1 && order[i] == #[trigger] out@[j] by {
                            if j < prev.len() {
                                let i = choose|i: int| first <= i < k && order[i] == #[trigger] prev[j];
                                assert(order[i] == out@[j]);
                            } else {
                                assert(order[k as int] == out@[j]);
                            }
                        }
                    }
                }
                k += 1;
            }
        }
        proof {
            let spec = next_words(p, self@);
            assert forall|w: int| picked(out@, w) <==> picked(spec, w) by {
                if picked(out@, w) {
                    let j = choose|j: int| 0 <= j < out@.len() && #[trigger] out@[j] == w;
                    assert(is_next_word(p, self@, out@[j] as int));
                    assert(picked(spec, w));
                }
                if picked(spec, w) {
                    let j = choose|j: int| 0 <= j < spec.len() && #[trigger] spec[j] == w;
                    assert(is_next_word(p, self@, spec[j] as int));
                    assert(picked(order, w));
                    let m = choose|m: int| 0 <= m < order.len() && #[trigger] order[m] == w;
                    if m < first {
                        assert(taken(p, self@, order[m] as int));
                    }
                    assert(picked(out@, order[m] as int));
                }
            }
            lemma_increasing_unique(out@, spec);
        }
        out
    }
}

/// The candidate indices of a ranking.
pub open spec fn firsts(ranked: Seq<(usize, WordRank)>) -> Seq<usize> {
    Seq::new(ranked.len(), |k: int| ranked[k].0)
}

} // verus!
