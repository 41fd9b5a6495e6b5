//! The letter collections and the partial solutions written out as text, in
//! the form of a set, of a map and of a record.

use crate::collections::{is_letter, letter_at, letter_of, LetterCounts, LetterSet};
use crate::cover::usage;
use crate::partial::PartialSolution;
use crate::puzzle::{texts, TypeshiftView};
use crate::solver::words_of;
use vstd::prelude::*;
use vstd::string::StringExecFns;

verus! {

/// The entries with `, ` between them.
pub open spec fn joined(items: Seq<Seq<char>>) -> Seq<char>
    decreases items.len(),
{
    if items.len() == 0 {
        Seq::empty()
    } else if items.len() == 1 {
        items[0]
    } else {
        joined(items.drop_last()) + seq![',', ' '] + items.last()
    }
}

/// The entries with `, ` between them, in braces.
pub open spec fn braced(items: Seq<Seq<char>>) -> Seq<char> {
    seq!['{'] + joined(items) + seq!['}']
}

/// A letter in single quotes.
pub open spec fn letter_text(ch: char) -> Seq<char> {
    seq!['\'', ch, '\'']
}

/// The decimal digit of a number below ten.
pub open spec fn digit(d: nat) -> char {
    (48 + d) as char
}

/// A number in decimal digits.
pub open spec fn digits(n: nat) -> Seq<char>
    decreases n,
{
    if n < 10 {
        seq![digit(n)]
    } else {
        digits(n / 10).push(digit(n % 10))
    }
}

/// A letter in single quotes, a colon, and its count.
pub open spec fn count_text(ch: char, n: nat) -> Seq<char> {
    letter_text(ch) + seq![':', ' '] + digits(n)
}

/// The texts of the members of `set` among the first `n` letters, in
/// alphabetical order.
pub open spec fn set_entries(set: Set<char>, n: int) -> Seq<Seq<char>>
    decreases n,
{
    if n <= 0 {
        Seq::empty()
    } else if set.contains(letter_at(n - 1)) {
        set_entries(set, n - 1).push(letter_text(letter_at(n - 1)))
    } else {
        set_entries(set, n - 1)
    }
}

/// The texts of the counts that are not zero among the first `n` letters,
/// in alphabetical order.
pub open spec fn count_entries(counts: LetterCounts, n: int) -> Seq<Seq<char>>
    decreases n,
{
    if n <= 0 {
        Seq::empty()
    } else if counts.count(letter_at(n - 1)) > 0 {
        count_entries(counts, n - 1).push(
            count_text(letter_at(n - 1), counts.count(letter_at(n - 1))),
        )
    } else {
        count_entries(counts, n - 1)
    }
}

/// Appends `ch` to `s` by `String::push`. Its contract is not proved here; it
/// is what the documentation of `String::push` says: the string keeps its
/// characters and `ch` follows them.
#[verifier::external_body]
pub(crate) fn push_char(s: &mut String, ch: char)
    ensures
        final(s)@ == old(s)@.push(ch),
{
    s.push(ch)
}

/// Appends `n` in decimal digits.
pub fn push_digits(out: &mut String, n: usize)
    ensures
        final(out)@ == old(out)@ + digits(n as nat),
    decreases n,
{
    if n >= 10 {
        push_digits(out, n / 10);
    }
    let code: u8 = 48 + (n % 10) as u8;
    push_char(out, code as char);
    proof {
        assert(out@ =~= old(out)@ + digits(n as nat));
    }
}

/// Appends a letter in single quotes, with `, ` before it unless it is the
/// first entry.
fn push_letter(out: &mut String, ch: char, first: bool)
    ensures
        final(out)@ == old(out)@ + if first {
            letter_text(ch)
        } else {
            seq![',', ' '] + letter_text(ch)
        },
{
    if !first {
        push_char(out, ',');
        push_char(out, ' ');
    }
    push_char(out, '\'');
    push_char(out, ch);
    push_char(out, '\'');
    proof {
        if first {
            assert(out@ =~= old(out)@ + letter_text(ch));
        } else {
            assert(out@ =~= old(out)@ + (seq![',', ' '] + letter_text(ch)));
        }
    }
}

impl LetterSet {
    /// The set as text: its letters in single quotes, in alphabetical order,
    /// with `, ` between them, in braces.
    pub fn debug_string(&self) -> (text: String)
        ensures
            text@ == braced(set_entries(self@, 26)),
    {
        let mut out = String::new();
        push_char(&mut out, '{');
        let mut first = true;
        let mut i: usize = 0;
        while i < 26
            invariant
                i <= 26,
                first == (set_entries(self@, i as int).len() == 0),
                out@ == seq!['{'] + joined(set_entries(self@, i as int)),
            decreases 26 - i,
        {
            let ch = letter_of(i);
            if self.contains(ch) {
                let ghost before = set_entries(self@, i as int);
                push_letter(&mut out, ch, first);
                proof {
                    let after = set_entries(self@, i + 1);
                    assert(after.drop_last() =~= before);
                    assert(out@ =~= seq!['{'] + joined(after));
                }
                first = false;
            }
            i += 1;
        }
        push_char(&mut out, '}');
        proof {
            assert(out@ =~= braced(set_entries(self@, 26)));
        }
        out
    }
}

impl LetterCounts {
    /// The tally as text: each letter that was counted, in single quotes, with
    /// a colon and its count, in alphabetical order, with `, ` between the
    /// entries, in braces.
    pub fn debug_string(&self) -> (text: String)
        ensures
            text@ == braced(count_entries(*self, 26)),
    {
        let mut out = String::new();
        push_char(&mut out, '{');
        let mut first = true;
        let mut i: usize = 0;
        while i < 26
            invariant
                i <= 26,
                first == (count_entries(*self, i as int).len() == 0),
                out@ == seq!['{'] + joined(count_entries(*self, i as int)),
            decreases 26 - i,
        {
            let ch = letter_of(i);
            let n: usize = self.get(ch);
            if n > 0 {
                let ghost before = count_entries(*self, i as int);
                let ghost start = out@;
                push_letter(&mut out, ch, first);
                push_char(&mut out, ':');
                push_char(&mut out, ' ');
                push_digits(&mut out, n);
                proof {
                    let after = count_entries(*self, i + 1);
                    assert(after.drop_last() =~= before);
                    assert(after.last() == count_text(ch, n as nat));
                    if first {
                        assert(out@ =~= start + count_text(ch, n as nat));
                    } else {
                        assert(out@ =~= start + seq![',', ' '] + count_text(ch, n as nat));
                    }
                    assert(out@ =~= seq!['{'] + joined(after));
                }
                first = false;
            }
            i += 1;
        }
        push_char(&mut out, '}');
        proof {
            assert(out@ =~= braced(count_entries(*self, 26)));
        }
        out
    }
}

/// A word in double quotes.
pub open spec fn word_text(word: Seq<char>) -> Seq<char> {
    seq!['"'] + word + seq!['"']
}

/// Each of the words in double quotes.
pub open spec fn word_entries(words: Seq<Seq<char>>) -> Seq<Seq<char>> {
    Seq::new(words.len(), |k: int| word_text(words[k]))
}

/// The texts of the usage counts of column `col` that are not zero, among
/// the first `n` letters, in alphabetical order.
pub open spec fn usage_entries(p: TypeshiftView, chosen: Seq<usize>, col: int, n: int) -> Seq<
    Seq<char>,
>
    decreases n,
{
    if n <= 0 {
        Seq::empty()
    } else if usage(p, chosen, col, letter_at(n - 1)) > 0 {
        usage_entries(p, chosen, col, n - 1).push(
            count_text(letter_at(n - 1), usage(p, chosen, col, letter_at(n - 1))),
        )
    } else {
        usage_entries(p, chosen, col, n - 1)
    }
}

/// The usage counts of each column as text.
pub open spec fn column_texts(p: TypeshiftView, chosen: Seq<usize>) -> Seq<Seq<char>> {
    Seq::new(p.columns.len(), |c: int| braced(usage_entries(p, chosen, c, 26)))
}

/// A partial solution as text: its words and, column by column, the counts
/// of the letters that they use.
pub open spec fn partial_text(p: TypeshiftView, chosen: Seq<usize>) -> Seq<char> {
    "PartialSolution { used_words: "@ + braced(word_entries(words_of(p, chosen)))
        + ", char_usages: ["@ + joined(column_texts(p, chosen)) + "] }"@
}

/// A tally that agrees with the usage counts of a column is written as they are.
proof fn lemma_usage_entries(
    p: TypeshiftView,
    chosen: Seq<usize>,
    col: int,
    counts: LetterCounts,
    n: int,
)
    requires
        0 <= n <= 26,
        forall|ch: char| is_letter(ch) ==> counts.count(ch) == #[trigger] usage(p, chosen, col, ch),
    ensures
        count_entries(counts, n) == usage_entries(p, chosen, col, n),
    decreases n,
{
    if n > 0 {
        lemma_usage_entries(p, chosen, col, counts, n - 1);
        assert(is_letter(letter_at(n - 1)));
    }
}

/// Appends an entry, with `, ` before it unless it is the first.
fn push_entry(out: &mut String, entry: &str, first: bool)
    ensures
        final(out)@ == old(out)@ + if first {
            entry@
        } else {
            seq![',', ' '] + entry@
        },
{
    if !first {
        push_char(out, ',');
        push_char(out, ' ');
    }
    out.append(entry);
    proof {
        if first {
            assert(out@ =~= old(out)@ + entry@);
        } else {
            assert(out@ =~= old(out)@ + (seq![',', ' '] + entry@));
        }
    }
}

impl<'a> PartialSolution<'a> {
    /// The partial solution as text: its words in the order of texts, and
    /// the tally of each column.
    pub fn debug_string(&self) -> (text: String)
        requires
            self.wf(),
        ensures
            text@ == partial_text(self.puzzle()@, self@),
    {
        let ghost p = self.puzzle()@;
        let typeshift = self.typeshift();
        proof {
            self.lemma_wf();
        }
        let used = typeshift.solution_words(self.used_words());
        let mut words = String::new();
        let ghost entries = word_entries(words_of(p, self@));
        let mut k: usize = 0;
        while k < used.len()
            invariant
                k <= used@.len(),
                texts(used@) == words_of(p, self@),
                entries == word_entries(words_of(p, self@)),
                words@ == joined(entries.take(k as int)),
            decreases used@.len() - k,
        {
            let mut entry = String::new();
            push_char(&mut entry, '"');
            entry.append(used[k].as_str());
            push_char(&mut entry, '"');
            proof {
                assert(texts(used@)[k as int] == used@[k as int]@);
                assert(entry@ =~= entries[k as int]);
                assert(entries.take(k + 1).drop_last() =~= entries.take(k as int));
            }
            push_entry(&mut words, entry.as_str(), k == 0);
            k += 1;
        }
        proof {
            assert(entries.take(k as int) =~= entries);
        }
        let mut columns = String::new();
        let ghost texts = column_texts(p, self@);
        let width: usize = typeshift.width();
        let mut col: usize = 0;
        while col < width
            invariant
                col <= width,
                self.wf(),
                p == self.puzzle()@,
                width == p.columns.len(),
                texts == column_texts(p, self@),
                columns@ == joined(texts.take(col as int)),
            decreases width - col,
        {
            let counts = self.char_usages(col);
            let entry = counts.debug_string();
            proof {
                lemma_usage_entries(p, self@, col as int, *counts, 26);
                assert(entry@ == texts[col as int]);
                assert(texts.take(col + 1).drop_last() =~= texts.take(col as int));
            }
            push_entry(&mut columns, entry.as_str(), col == 0);
            col += 1;
        }
        proof {
            assert(texts.take(col as int) =~= texts);
        }
        let mut out = String::new();
        out.append("PartialSolution { used_words: ");
        push_char(&mut out, '{');
        out.append(words.as_str());
        push_char(&mut out, '}');
        out.append(", char_usages: [");
        out.append(columns.as_str());
        out.append("] }");
        proof {
            assert(out@ =~= partial_text(p, self@));
        }
        out
    }
}

} // verus!
