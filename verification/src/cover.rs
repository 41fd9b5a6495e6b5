//! What it means for chosen words to cover a puzzle, stated over the puzzle's
//! view and the indices of the chosen candidate words.

use crate::collections::members;
use crate::puzzle::{capped, TypeshiftView};
use vstd::prelude::*;

verus! {

/// A choice of words is a strictly increasing list of candidate indices
/// whose words differ from each other.
pub open spec fn valid_choice(p: TypeshiftView, chosen: Seq<usize>) -> bool {
    &&& forall|k: int| 0 <= k < chosen.len() ==> (#[trigger] chosen[k]) < p.words.len()
    &&& forall|a: int, b: int| 0 <= a < b < chosen.len() ==> chosen[a] < chosen[b]
    &&& forall|a: int, b: int|
        0 <= a < b < chosen.len() ==> p.words[#[trigger] chosen[a] as int] != p.words[#[trigger] chosen[b] as int]
}

/// Whether the word of the candidate `w` is among the chosen words.
pub open spec fn taken(p: TypeshiftView, chosen: Seq<usize>, w: int) -> bool {
    exists|k: int| 0 <= k < chosen.len() && p.words[#[trigger] chosen[k] as int] == p.words[w]
}

/// Whether the candidate of index `w` is among the chosen.
pub open spec fn picked(chosen: Seq<usize>, w: int) -> bool {
    exists|k: int| 0 <= k < chosen.len() && #[trigger] chosen[k] == w
}

/// 1 if the candidate `w` has `ch` in column `col`, else 0.
pub open spec fn letter_use(p: TypeshiftView, w: int, col: int, ch: char) -> nat {
    if p.words[w][col] == ch {
        1
    } else {
        0
    }
}

/// How many chosen words among the first `n` candidates have `ch` in column `col`.
pub open spec fn usage_below(p: TypeshiftView, chosen: Seq<usize>, col: int, ch: char, n: int) -> nat
    decreases n,
{
    if n <= 0 {
        0
    } else {
        usage_below(p, chosen, col, ch, n - 1) + if picked(chosen, n - 1) && p.words[n - 1][col]
            == ch {
            1nat
        } else {
            0nat
        }
    }
}

/// How many chosen words have `ch` in column `col`.
pub open spec fn usage(p: TypeshiftView, chosen: Seq<usize>, col: int, ch: char) -> nat {
    usage_below(p, chosen, col, ch, p.words.len() as int)
}

/// Whether some chosen word has `ch` in column `col`.
pub open spec fn covered(p: TypeshiftView, chosen: Seq<usize>, col: int, ch: char) -> bool {
    exists|k: int| 0 <= k < chosen.len() && #[trigger] p.words[chosen[k] as int][col] == ch
}

/// The chosen words cover the puzzle if every allowed letter of every column
/// stands in that column in one of them.
pub open spec fn covers(p: TypeshiftView, chosen: Seq<usize>) -> bool {
    forall|col: int, ch: char|
        0 <= col < p.columns.len() && p.columns[col].contains(ch) ==> #[trigger] covered(
            p,
            chosen,
            col,
            ch,
        )
}

/// How many of `letters` are used more than once in column `col`.
pub open spec fn overlaps_among(
    p: TypeshiftView,
    chosen: Seq<usize>,
    col: int,
    letters: Seq<char>,
) -> nat
    decreases letters.len(),
{
    if letters.len() == 0 {
        0
    } else {
        overlaps_among(p, chosen, col, letters.drop_last()) + if usage(
            p,
            chosen,
            col,
            letters.last(),
        ) > 1 {
            1nat
        } else {
            0nat
        }
    }
}

/// How many pairs of a column among the first `n` and one of its allowed
/// letters are used more than once.
pub open spec fn overlaps_below(p: TypeshiftView, chosen: Seq<usize>, n: int) -> nat
    decreases n,
{
    if n <= 0 {
        0
    } else {
        overlaps_below(p, chosen, n - 1) + overlaps_among(
            p,
            chosen,
            n - 1,
            members(p.columns[n - 1]),
        )
    }
}

/// The number of overlaps: pairs of a column and an allowed letter that the
/// chosen words use more than once, capped at the largest `usize`.
pub open spec fn overlap_count(p: TypeshiftView, chosen: Seq<usize>) -> nat {
    capped(overlaps_below(p, chosen, p.columns.len() as int))
}

/// Where `x` goes in an increasing list: behind the entries below it.
pub open spec fn insert_position(s: Seq<usize>, x: usize) -> int
    decreases s.len(),
{
    if s.len() == 0 {
        0
    } else {
        insert_position(s.drop_last(), x) + if s.last() < x {
            1int
        } else {
            0int
        }
    }
}

/// An increasing list with `x` put in its place.
pub open spec fn sorted_insert(s: Seq<usize>, x: usize) -> Seq<usize> {
    s.insert(insert_position(s, x), x)
}

/// No word is used where none is chosen.
pub proof fn lemma_usage_empty(p: TypeshiftView, col: int, ch: char, n: int)
    ensures
        usage_below(p, Seq::<usize>::empty(), col, ch, n) == 0,
    decreases n,
{
    if n > 0 {
        lemma_usage_empty(p, col, ch, n - 1);
    }
}

/// A usage count is at most the number of candidates counted.
pub proof fn lemma_usage_bound(p: TypeshiftView, chosen: Seq<usize>, col: int, ch: char, n: int)
    requires
        0 <= n,
    ensures
        usage_below(p, chosen, col, ch, n) <= n,
    decreases n,
{
    if n > 0 {
        lemma_usage_bound(p, chosen, col, ch, n - 1);
    }
}

/// A usage count is positive exactly if a chosen word has the letter in the column.
pub proof fn lemma_usage_witness(p: TypeshiftView, chosen: Seq<usize>, col: int, ch: char, n: int)
    ensures
        usage_below(p, chosen, col, ch, n) > 0 <==> exists|w: int|
            0 <= w < n && picked(chosen, w) && #[trigger] p.words[w][col] == ch,
    decreases n,
{
    if n > 0 {
        lemma_usage_witness(p, chosen, col, ch, n - 1);
        if usage_below(p, chosen, col, ch, n) > 0 {
            if usage_below(p, chosen, col, ch, n - 1) > 0 {
                let w = choose|w: int|
                    0 <= w < n - 1 && picked(chosen, w) && #[trigger] p.words[w][col] == ch;
                assert(0 <= w < n && picked(chosen, w) && p.words[w][col] == ch);
            } else {
                assert(picked(chosen, n - 1) && p.words[n - 1][col] == ch);
            }
        }
    }
}

/// For a valid choice, a letter is covered in a column exactly if its usage
/// count there is positive.
pub proof fn lemma_covered_usage(p: TypeshiftView, chosen: Seq<usize>, col: int, ch: char)
    requires
        valid_choice(p, chosen),
    ensures
        covered(p, chosen, col, ch) <==> usage(p, chosen, col, ch) > 0,
{
    let n = p.words.len() as int;
    lemma_usage_witness(p, chosen, col, ch, n);
    if covered(p, chosen, col, ch) {
        let k = choose|k: int|
            0 <= k < chosen.len() && #[trigger] p.words[chosen[k] as int][col] == ch;
        let w = chosen[k] as int;
        assert(picked(chosen, w));
        assert(0 <= w < n && picked(chosen, w) && p.words[w][col] == ch);
    }
    if usage(p, chosen, col, ch) > 0 {
        let w = choose|w: int| 0 <= w < n && picked(chosen, w) && #[trigger] p.words[w][col] == ch;
        let k = choose|k: int| 0 <= k < chosen.len() && #[trigger] chosen[k] == w;
        assert(p.words[chosen[k] as int][col] == ch);
    }
}

/// Choosing one more word raises by one the usage of each of its letters in
/// its column, and changes no other usage.
pub proof fn lemma_usage_insert(
    p: TypeshiftView,
    a: Seq<usize>,
    b: Seq<usize>,
    j: int,
    col: int,
    ch: char,
    n: int,
)
    requires
        !picked(a, j),
        forall|w: int| picked(b, w) <==> picked(a, w) || w == j,
    ensures
        usage_below(p, b, col, ch, n) == usage_below(p, a, col, ch, n) + if 0 <= j < n
            && p.words[j][col] == ch {
            1nat
        } else {
            0nat
        },
    decreases n,
{
    if n > 0 {
        lemma_usage_insert(p, a, b, j, col, ch, n - 1);
    }
}

/// In an increasing list that lacks `x`, the entries below `x` come first.
pub proof fn lemma_insert_position(s: Seq<usize>, x: usize, pos: int)
    requires
        0 <= pos <= s.len(),
        forall|k: int| 0 <= k < pos ==> s[k] < x,
        forall|k: int| pos <= k < s.len() ==> s[k] > x,
    ensures
        insert_position(s, x) == pos,
    decreases s.len(),
{
    if s.len() > 0 {
        if pos == s.len() {
            lemma_insert_position(s.drop_last(), x, pos - 1);
        } else {
            lemma_insert_position(s.drop_last(), x, pos);
        }
    }
}

/// The position of a new entry lies within the list, with smaller entries
/// before it and larger ones behind.
pub proof fn lemma_position_splits(s: Seq<usize>, x: usize)
    requires
        forall|a: int, b: int| 0 <= a < b < s.len() ==> s[a] < s[b],
        !picked(s, x as int),
    ensures
        0 <= insert_position(s, x) <= s.len(),
        forall|k: int| 0 <= k < insert_position(s, x) ==> s[k] < x,
        forall|k: int| insert_position(s, x) <= k < s.len() ==> s[k] > x,
    decreases s.len(),
{
    if s.len() > 0 {
        let t = s.drop_last();
        assert(!picked(t, x as int)) by {
            if picked(t, x as int) {
                let k = choose|k: int| 0 <= k < t.len() && #[trigger] t[k] == x as int;
                assert(s[k] == x as int);
            }
        }
        lemma_position_splits(t, x);
        assert(s[s.len() - 1] != x);
        if s.last() < x {
            assert forall|k: int| 0 <= k < t.len() implies t[k] < x by {
                assert(s[k] < s[s.len() - 1]);
            }
            lemma_insert_position(t, x, t.len() as int);
        }
        let pos = insert_position(s, x);
        assert forall|k: int| 0 <= k < pos implies s[k] < x by {
            if k < t.len() {
                assert(t[k] == s[k]);
            }
        }
        assert forall|k: int| pos <= k < s.len() implies s[k] > x by {
            if k < t.len() {
                assert(t[k] == s[k]);
            }
        }
    }
}

/// Putting a new word in its place keeps the choice valid and adds that word
/// and no other.
pub proof fn lemma_sorted_insert(p: TypeshiftView, s: Seq<usize>, x: usize)
    requires
        valid_choice(p, s),
        x < p.words.len(),
        !taken(p, s, x as int),
    ensures
        !picked(s, x as int),
        valid_choice(p, sorted_insert(s, x)),
        sorted_insert(s, x).len() == s.len() + 1,
        picked(sorted_insert(s, x), x as int),
        forall|w: int| picked(sorted_insert(s, x), w) <==> picked(s, w) || w == x,
{
    assert(!picked(s, x as int)) by {
        if picked(s, x as int) {
            let k = choose|k: int| 0 <= k < s.len() && #[trigger] s[k] == x as int;
            assert(p.words[s[k] as int] == p.words[x as int]);
        }
    }
    lemma_position_splits(s, x);
    let pos = insert_position(s, x);
    let t = sorted_insert(s, x);
    assert(t[pos] == x);
    assert forall|a: int, b: int| 0 <= a < b < t.len() implies p.words[#[trigger] t[a] as int]
        != p.words[#[trigger] t[b] as int] by {
        let ia = if a < pos { a } else { a - 1 };
        let ib = if b < pos { b } else { b - 1 };
        if a == pos {
            assert(t[b] == s[ib]);
            assert(p.words[s[ib] as int] != p.words[x as int]);
        } else if b == pos {
            assert(t[a] == s[ia]);
            assert(p.words[s[ia] as int] != p.words[x as int]);
        } else {
            assert(t[a] == s[ia]);
            assert(t[b] == s[ib]);
        }
    }
    assert forall|w: int| picked(t, w) <==> picked(s, w) || w == x by {
        if picked(s, w) {
            let k = choose|k: int| 0 <= k < s.len() && #[trigger] s[k] == w;
            if k < pos {
                assert(t[k] == w);
            } else {
                assert(t[k + 1] == w);
            }
        }
        if picked(t, w) {
            let k = choose|k: int| 0 <= k < t.len() && #[trigger] t[k] == w;
            if k < pos {
                assert(s[k] == w);
            } else if k > pos {
                assert(s[k - 1] == w);
            }
        }
    }
}

} // verus!
