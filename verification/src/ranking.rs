//! The two orders that steer the search: which word to try next, and which
//! partial solution to look at next.

use crate::cover::{covers, overlap_count, picked, taken, usage};
use crate::puzzle::{rarity, TypeshiftView};
use vstd::prelude::*;

verus! {

/// In how many of the first `n` columns the candidate `w` would use a letter
/// that no chosen word uses there.
pub open spec fn new_letters_below(p: TypeshiftView, chosen: Seq<usize>, w: int, n: int) -> nat
    decreases n,
{
    if n <= 0 {
        0
    } else {
        new_letters_below(p, chosen, w, n - 1) + if usage(p, chosen, n - 1, p.words[w][n - 1])
            == 0 {
            1nat
        } else {
            0nat
        }
    }
}

/// In how many columns the candidate `w` would use a letter that no chosen
/// word uses there.
pub open spec fn new_letters(p: TypeshiftView, chosen: Seq<usize>, w: int) -> nat {
    new_letters_below(p, chosen, w, p.columns.len() as int)
}

/// The least rarity among the first `n` letters of the candidate `w`, for `n >= 1`.
pub open spec fn min_freq_below(p: TypeshiftView, w: int, n: int) -> nat
    decreases n,
{
    if n <= 1 {
        rarity(p.words, p.words[w][0])
    } else {
        let rest = min_freq_below(p, w, n - 1);
        let last = rarity(p.words, p.words[w][n - 1]);
        if last < rest {
            last
        } else {
            rest
        }
    }
}

/// The rarity of the rarest letter of the candidate `w`.
pub open spec fn min_char_freq(p: TypeshiftView, w: int) -> nat {
    min_freq_below(p, w, p.columns.len() as int)
}

/// How good a word is as the next one: more new letters are better, and among
/// equals a rarer rarest letter.
#[derive(Clone, Copy, Debug, PartialEq, Eq, Structural)]
pub struct WordRank {
    /// The number of columns in which the word uses a letter not yet used.
    pub new_letters: usize,
    /// The rarity of the word's rarest letter.
    pub min_freq: usize,
}

impl WordRank {
    /// Whether this rank is strictly better than `other`.
    pub open spec fn better(self, other: WordRank) -> bool {
        self.new_letters > other.new_letters || (self.new_letters == other.new_letters
            && self.min_freq < other.min_freq)
    }

    /// Whether this rank is strictly better than `other`.
    pub fn is_better(&self, other: &WordRank) -> (b: bool)
        ensures
            b == self.better(*other),
    {
        self.new_letters > other.new_letters || (self.new_letters == other.new_letters
            && self.min_freq < other.min_freq)
    }
}

/// Whether `rank` is the rank of the candidate `w` beside the chosen words.
pub open spec fn is_word_rank(p: TypeshiftView, chosen: Seq<usize>, w: int, rank: WordRank) -> bool {
    rank.new_letters == new_letters(p, chosen, w) && rank.min_freq == min_char_freq(p, w)
}

/// Whether the candidate `v` is a strictly better next word than `w`.
pub open spec fn word_better(p: TypeshiftView, chosen: Seq<usize>, v: int, w: int) -> bool {
    new_letters(p, chosen, v) > new_letters(p, chosen, w) || (new_letters(p, chosen, v)
        == new_letters(p, chosen, w) && min_char_freq(p, v) < min_char_freq(p, w))
}

/// Whether the candidate `v` comes before the candidate `w` when the
/// candidates are ranked: it is strictly better, or as good and earlier in
/// the list of candidates.
pub open spec fn comes_before(p: TypeshiftView, chosen: Seq<usize>, v: int, w: int) -> bool {
    word_better(p, chosen, v, w) || (!word_better(p, chosen, w, v) && v < w)
}

/// Whether `order` lists all candidates, each once, best first, and those
/// of equal rank in the order of the candidates.
pub open spec fn is_ranking(p: TypeshiftView, chosen: Seq<usize>, order: Seq<usize>) -> bool {
    &&& order.len() == p.words.len()
    &&& forall|k: int| 0 <= k < order.len() ==> (#[trigger] order[k]) < p.words.len()
    &&& forall|w: int| 0 <= w < p.words.len() ==> #[trigger] picked(order, w)
    &&& forall|i: int, j: int|
        0 <= i < j < order.len() ==> comes_before(
            p,
            chosen,
            #[trigger] order[i] as int,
            #[trigger] order[j] as int,
        )
}

/// A candidate is a next word if its word is not chosen yet and no other
/// such candidate is strictly better.
pub open spec fn is_next_word(p: TypeshiftView, chosen: Seq<usize>, w: int) -> bool {
    &&& 0 <= w < p.words.len()
    &&& !taken(p, chosen, w)
    &&& forall|v: int|
        0 <= v < p.words.len() && !taken(p, chosen, v) ==> !#[trigger] word_better(p, chosen, v, w)
}

/// The next words among the first `n` candidates, in increasing order.
pub open spec fn next_words_below(p: TypeshiftView, chosen: Seq<usize>, n: int) -> Seq<usize>
    decreases n,
{
    if n <= 0 {
        Seq::empty()
    } else if is_next_word(p, chosen, n - 1) {
        next_words_below(p, chosen, n - 1).push((n - 1) as usize)
    } else {
        next_words_below(p, chosen, n - 1)
    }
}

/// The words to try next: all candidates tied for the best rank among those
/// whose word is not chosen yet, in the order of the candidates.
pub open spec fn next_words(p: TypeshiftView, chosen: Seq<usize>) -> Seq<usize> {
    next_words_below(p, chosen, p.words.len() as int)
}

/// The priority of a partial solution in the search.
#[derive(Clone, Copy, Debug, PartialEq, Eq, Structural)]
pub struct NodeRank {
    /// Whether the chosen words cover the puzzle.
    pub solved: bool,
    /// The number of overlaps.
    pub overlaps: usize,
    /// The number of chosen words.
    pub words: usize,
}

impl NodeRank {
    /// Whether this rank comes strictly before `other`: a cover beats what is
    /// none; then fewer overlaps win; then fewer words.
    pub open spec fn better(self, other: NodeRank) -> bool {
        if self.solved != other.solved {
            self.solved
        } else if self.overlaps != other.overlaps {
            self.overlaps < other.overlaps
        } else {
            self.words < other.words
        }
    }

    /// Whether this rank comes strictly before `other`.
    pub fn is_better(&self, other: &NodeRank) -> (b: bool)
        ensures
            b == self.better(*other),
    {
        if self.solved != other.solved {
            self.solved
        } else if self.overlaps != other.overlaps {
            self.overlaps < other.overlaps
        } else {
            self.words < other.words
        }
    }
}

/// The priority of the partial solution with the given chosen words.
pub open spec fn node_rank(p: TypeshiftView, chosen: Seq<usize>) -> NodeRank {
    NodeRank {
        solved: covers(p, chosen),
        overlaps: overlap_count(p, chosen) as usize,
        words: chosen.len() as usize,
    }
}

/// The position of the entry that is served next: the first among those that
/// no entry is strictly better than. It is 0 for an empty list.
pub open spec fn best_index(ranks: Seq<NodeRank>) -> int
    decreases ranks.len(),
{
    if ranks.len() <= 1 {
        0
    } else {
        let b = best_index(ranks.drop_last());
        if ranks.last().better(ranks[b]) {
            ranks.len() - 1
        } else {
            b
        }
    }
}

/// The entry that is served next is the first among those that no entry is
/// strictly better than.
pub proof fn lemma_best_index(ranks: Seq<NodeRank>)
    requires
        ranks.len() > 0,
    ensures
        0 <= best_index(ranks) < ranks.len(),
        forall|k: int| 0 <= k < ranks.len() ==> !(#[trigger] ranks[k]).better(ranks[best_index(ranks)]),
        forall|k: int|
            0 <= k < best_index(ranks) ==> ranks[best_index(ranks)].better(#[trigger] ranks[k]),
    decreases ranks.len(),
{
    if ranks.len() > 1 {
        let t = ranks.drop_last();
        lemma_best_index(t);
        let b = best_index(t);
        assert forall|k: int| 0 <= k < ranks.len() implies !(#[trigger] ranks[k]).better(
            ranks[best_index(ranks)],
        ) by {
            if k < t.len() {
                assert(!t[k].better(t[b]));
            }
        }
        assert forall|k: int| 0 <= k < best_index(ranks) implies ranks[best_index(ranks)].better(
            #[trigger] ranks[k],
        ) by {
            assert(!t[k].better(t[b]));
            if k < b {
                assert(t[b].better(t[k]));
            }
        }
    }
}

/// The next words among the first `n` candidates are exactly the next words
/// below `n`, in increasing order.
pub proof fn lemma_next_words_below(p: TypeshiftView, chosen: Seq<usize>, n: int)
    requires
        0 <= n <= usize::MAX,
    ensures
        forall|k: int|
            0 <= k < next_words_below(p, chosen, n).len() ==> is_next_word(
                p,
                chosen,
                (#[trigger] next_words_below(p, chosen, n)[k]) as int,
            ) && next_words_below(p, chosen, n)[k] < n,
        forall|w: int|
            0 <= w < n && is_next_word(p, chosen, w) ==> #[trigger] picked(
                next_words_below(p, chosen, n),
                w,
            ),
        forall|i: int, j: int|
            0 <= i < j < next_words_below(p, chosen, n).len() ==> next_words_below(p, chosen, n)[i]
                < next_words_below(p, chosen, n)[j],
    decreases n,
{
    if n > 0 {
        lemma_next_words_below(p, chosen, n - 1);
        let prev = next_words_below(p, chosen, n - 1);
        let cur = next_words_below(p, chosen, n);
        assert forall|w: int| 0 <= w < n && is_next_word(p, chosen, w) implies #[trigger] picked(
            cur,
            w,
        ) by {
            if w < n - 1 {
                assert(picked(prev, w));
                let k = choose|k: int| 0 <= k < prev.len() && #[trigger] prev[k] == w;
                assert(cur[k] == w);
            } else {
                assert(cur[cur.len() - 1] == w);
            }
        }
        assert forall|i: int, j: int| 0 <= i < j < cur.len() implies cur[i] < cur[j] by {
            if j < prev.len() {
                assert(prev[i] < prev[j]);
            } else if i < prev.len() {
                assert(prev[i] < n - 1);
            }
        }
        assert forall|k: int| 0 <= k < cur.len() implies is_next_word(
            p,
            chosen,
            (#[trigger] cur[k]) as int,
        ) && cur[k] < n by {
            if k < prev.len() {
                assert(cur[k] == prev[k]);
            } else {
                assert(cur[k] == (n - 1) as usize);
            }
        }
    }
}

/// Two strictly increasing lists with the same entries are equal.
pub proof fn lemma_increasing_unique(a: Seq<usize>, b: Seq<usize>)
    requires
        forall|i: int, j: int| 0 <= i < j < a.len() ==> a[i] < a[j],
        forall|i: int, j: int| 0 <= i < j < b.len() ==> b[i] < b[j],
        forall|w: int| picked(a, w) <==> picked(b, w),
    ensures
        a == b,
    decreases a.len(),
{
    if a.len() == 0 {
        if b.len() > 0 {
            assert(picked(b, b[0] as int));
        }
        assert(a =~= b);
    } else if b.len() == 0 {
        assert(picked(a, a[0] as int));
    } else {
        let x = a.last();
        let y = b.last();
        assert(picked(a, x as int));
        assert(picked(b, y as int));
        let kx = choose|k: int| 0 <= k < b.len() && #[trigger] b[k] == x as int;
        let ky = choose|k: int| 0 <= k < a.len() && #[trigger] a[k] == y as int;
        assert(x == y) by {
            if kx < b.len() - 1 {
                assert(b[kx] < b[b.len() - 1]);
            }
            if ky < a.len() - 1 {
                assert(a[ky] < a[a.len() - 1]);
            }
        }
        let s = a.drop_last();
        let t = b.drop_last();
        assert forall|w: int| picked(s, w) <==> picked(t, w) by {
            if picked(s, w) {
                let k = choose|k: int| 0 <= k < s.len() && #[trigger] s[k] == w;
                assert(a[k] == w);
                assert(a[k] < a[a.len() - 1]);
                assert(picked(a, w));
                let m = choose|m: int| 0 <= m < b.len() && #[trigger] b[m] == w;
                assert(t[m] == w);
            }
            if picked(t, w) {
                let k = choose|k: int| 0 <= k < t.len() && #[trigger] t[k] == w;
                assert(b[k] == w);
                assert(b[k] < b[b.len() - 1]);
                assert(picked(b, w));
                let m = choose|m: int| 0 <= m < a.len() && #[trigger] a[m] == w;
                assert(s[m] == w);
            }
        }
        lemma_increasing_unique(s, t);
        assert(a =~= s.push(x));
        assert(b =~= t.push(y));
    }
}

} // verus!
