//! Fixed-size collections over the lowercase ASCII letters, backed by arrays.

use vstd::prelude::*;

verus! {

/// Whether `ch` is one of the 26 lowercase ASCII letters.
pub open spec fn is_letter(ch: char) -> bool {
    'a' <= ch <= 'z'
}

/// The slot of a letter: 0 for `a`, 25 for `z`.
pub open spec fn letter_index(ch: char) -> int {
    ch as int - 97
}

/// The letter of a slot; the inverse of `letter_index` on `0..26`.
pub open spec fn letter_at(i: int) -> char {
    (i + 97) as char
}

/// Whether every character of `s` is a lowercase letter.
pub open spec fn all_letters(s: Seq<char>) -> bool {
    forall|i: int| 0 <= i < s.len() ==> is_letter(#[trigger] s[i])
}

/// How often `ch` occurs in `s`.
pub open spec fn occurrences(s: Seq<char>, ch: char) -> nat
    decreases s.len(),
{
    if s.len() == 0 {
        0
    } else {
        occurrences(s.drop_last(), ch) + if s.last() == ch {
            1nat
        } else {
            0nat
        }
    }
}

/// The members of `set` in alphabetical order, taken from the first `n` letters.
pub open spec fn members_below(set: Set<char>, n: int) -> Seq<char>
    decreases n,
{
    if n <= 0 {
        Seq::empty()
    } else if set.contains(letter_at(n - 1)) {
        members_below(set, n - 1).push(letter_at(n - 1))
    } else {
        members_below(set, n - 1)
    }
}

/// The members of a set of letters in alphabetical order.
pub open spec fn members(set: Set<char>) -> Seq<char> {
    members_below(set, 26)
}

/// Every entry of `members_below` is a letter of the set, and every letter of
/// the set among the first `n` is an entry.
pub proof fn lemma_members_below(set: Set<char>, n: int)
    requires
        0 <= n <= 26,
    ensures
        forall|k: int|
            0 <= k < members_below(set, n).len() ==> {
                &&& set.contains(#[trigger] members_below(set, n)[k])
                &&& is_letter(members_below(set, n)[k])
                &&& letter_index(members_below(set, n)[k]) < n
            },
        forall|ch: char|
            is_letter(ch) && letter_index(ch) < n && set.contains(ch) ==> members_below(
                set,
                n,
            ).contains(ch),
        members_below(set, n).len() <= n,
    decreases n,
{
    if n > 0 {
        lemma_members_below(set, n - 1);
        let prev = members_below(set, n - 1);
        let cur = members_below(set, n);
        assert forall|ch: char|
            is_letter(ch) && letter_index(ch) < n && set.contains(ch) implies cur.contains(
            ch,
        ) by {
            if letter_index(ch) < n - 1 {
                assert(prev.contains(ch));
                let k = choose|k: int| 0 <= k < prev.len() && prev[k] == ch;
                assert(cur[k] == ch);
            } else {
                assert(ch == letter_at(n - 1));
                assert(cur[cur.len() - 1] == ch);
            }
        }
    }
}

/// Executable test for `is_letter`.
pub fn is_lowercase(ch: char) -> (b: bool)
    ensures
        b == is_letter(ch),
{
    'a' <= ch && ch <= 'z'
}

/// The slot of a lowercase letter.
pub fn index(ch: char) -> (i: usize)
    requires
        is_letter(ch),
    ensures
        i == letter_index(ch),
        i < 26,
{
    let code: u32 = ch as u32;
    (code - 97) as usize
}

/// The letter of a slot: `a` for 0, `z` for 25.
pub fn letter_of(i: usize) -> (ch: char)
    requires
        i < 26,
    ensures
        ch == letter_at(i as int),
        is_letter(ch),
        letter_index(ch) == i,
{
    let code: u8 = 97 + i as u8;
    code as char
}

/// A set of lowercase ASCII letters.
pub struct LetterSet {
    flags: [bool; 26],
}

impl View for LetterSet {
    type V = Set<char>;

    closed spec fn view(&self) -> Set<char> {
        Set::new(|ch: char| is_letter(ch) && self.flags[letter_index(ch)])
    }
}

impl LetterSet {
    /// The empty set.
    pub fn new() -> (set: Self)
        ensures
            set@ == Set::<char>::empty(),
    {
        let set = LetterSet { flags: [false; 26] };
        assert(set@ =~= Set::<char>::empty());
        set
    }

    /// The set of the characters of `chars`.
    pub fn from_iter(chars: &str) -> (set: Self)
        requires
            all_letters(chars@),
        ensures
            set@ == chars@.to_set(),
    {
        let mut set = Self::new();
        let n: usize = chars.unicode_len();
        let mut i: usize = 0;
        while i < n
            invariant
                i <= n,
                n == chars@.len(),
                all_letters(chars@),
                set@ == chars@.take(i as int).to_set(),
            decreases n - i,
        {
            let ch = chars.get_char(i);
            set.add(ch);
            proof {
                assert(chars@.take(i + 1) =~= chars@.take(i as int).push(ch));
                let t = chars@.take(i as int);
                assert forall|c: char| #[trigger]
                    t.push(ch).to_set().contains(c) <==> t.to_set().insert(ch).contains(c) by {
                    if t.contains(c) {
                        let k = choose|k: int| 0 <= k < t.len() && t[k] == c;
                        assert(t.push(ch)[k] == c);
                    }
                    if c == ch {
                        assert(t.push(ch)[t.len() as int] == c);
                    }
                    if t.push(ch).contains(c) {
                        let k = choose|k: int| 0 <= k < t.push(ch).len() && t.push(ch)[k] == c;
                        if k < t.len() {
                            assert(t[k] == c);
                        }
                    }
                }
                assert(t.push(ch).to_set() =~= t.to_set().insert(ch));
            }
            i += 1;
        }
        assert(chars@.take(n as int) =~= chars@);
        set
    }

    /// Puts `ch` into the set.
    pub fn add(&mut self, ch: char)
        requires
            is_letter(ch),
        ensures
            final(self)@ == old(self)@.insert(ch),
    {
        let i = index(ch);
        self.flags[i] = true;
        assert(self@ =~= old(self)@.insert(ch)) by {
            assert forall|c: char| self@.contains(c) <==> old(self)@.insert(ch).contains(c) by {
                if is_letter(c) && c != ch {
                    assert(letter_index(c) != letter_index(ch));
                }
            }
        }
    }

    /// Whether `ch` is in the set.
    pub fn contains(&self, ch: char) -> (b: bool)
        requires
            is_letter(ch),
        ensures
            b == self@.contains(ch),
    {
        self.flags[index(ch)]
    }

    /// The counts that `counts` holds for the members of the set, in
    /// alphabetical order of the members.
    pub fn filter_counts(&self, counts: &LetterCounts) -> (out: Vec<usize>)
        ensures
            out@.len() == members(self@).len(),
            forall|k: int|
                0 <= k < out@.len() ==> #[trigger] out@[k] == counts.count(members(self@)[k]),
    {
        let mut out: Vec<usize> = Vec::new();
        let mut i: usize = 0;
        while i < 26
            invariant
                i <= 26,
                out@.len() == members_below(self@, i as int).len(),
                forall|k: int|
                    0 <= k < out@.len() ==> #[trigger] out@[k] == counts.count(
                        members_below(self@, i as int)[k],
                    ),
            decreases 26 - i,
        {
            proof {
                assert(is_letter(letter_at(i as int)));
                assert(letter_index(letter_at(i as int)) == i);
            }
            if self.flags[i] {
                out.push(counts.counts[i]);
            }
            i += 1;
        }
        out
    }

    /// The members of the set in alphabetical order.
    pub fn iter(&self) -> (letters: Vec<char>)
        ensures
            letters@ == members(self@),
    {
        let mut letters: Vec<char> = Vec::new();
        let mut i: usize = 0;
        while i < 26
            invariant
                i <= 26,
                letters@ == members_below(self@, i as int),
            decreases 26 - i,
        {
            let ch = letter_of(i);
            if self.contains(ch) {
                letters.push(ch);
            }
            i += 1;
        }
        letters
    }

    /// Every member of a set is a lowercase letter.
    pub proof fn lemma_members_are_letters(&self)
        ensures
            forall|ch: char| self@.contains(ch) ==> is_letter(ch),
            self@.finite(),
            self@.len() == members(self@).len(),
    {
        lemma_members_below(self@, 26);
        lemma_members_len(self@, 26);
        assert(self@.filter(|c: char| letter_index(c) < 26) =~= self@);
    }
}

/// `members_below` lists each member once: its length is the number of members
/// among the first `n` letters.
pub proof fn lemma_members_len(set: Set<char>, n: int)
    requires
        0 <= n <= 26,
        forall|ch: char| set.contains(ch) ==> is_letter(ch),
    ensures
        set.filter(|c: char| letter_index(c) < n).finite(),
        set.filter(|c: char| letter_index(c) < n).len() == members_below(set, n).len(),
    decreases n,
{
    let cur = set.filter(|c: char| letter_index(c) < n);
    if n == 0 {
        assert forall|c: char| !cur.contains(c) by {
            if set.contains(c) {
                assert(is_letter(c));
            }
        }
        assert(cur =~= Set::<char>::empty());
    } else {
        lemma_members_len(set, n - 1);
        let prev = set.filter(|c: char| letter_index(c) < n - 1);
        let l = letter_at(n - 1);
        assert(letter_index(l) == n - 1);
        if set.contains(l) {
            assert(cur =~= prev.insert(l)) by {
                assert forall|c: char| cur.contains(c) <==> prev.insert(l).contains(c) by {
                    if set.contains(c) && letter_index(c) == n - 1 {
                        assert(c == l);
                    }
                }
            }
        } else {
            assert(cur =~= prev) by {
                assert forall|c: char| cur.contains(c) <==> prev.contains(c) by {
                    if set.contains(c) && letter_index(c) == n - 1 {
                        assert(c == l);
                    }
                }
            }
        }
    }
}

/// A tally of lowercase ASCII letters.
pub struct LetterCounts {
    counts: [usize; 26],
}

impl View for LetterCounts {
    type V = Seq<nat>;

    /// The 26 counters, the one of `a` first.
    closed spec fn view(&self) -> Seq<nat> {
        Seq::new(26, |i: int| self.counts[i] as nat)
    }
}

impl Clone for LetterCounts {
    fn clone(&self) -> (copy: Self)
        ensures
            copy == *self,
    {
        LetterCounts { counts: self.counts }
    }
}

impl LetterCounts {
    /// How often `ch` was counted.
    pub open spec fn count(&self, ch: char) -> nat {
        self@[letter_index(ch)]
    }

    /// A tally in which every counter is zero.
    pub fn new() -> (counts: Self)
        ensures
            forall|ch: char| is_letter(ch) ==> counts.count(ch) == 0,
            counts@ == Seq::new(26, |i: int| 0nat),
    {
        let counts = LetterCounts { counts: [0usize; 26] };
        assert(counts@ =~= Seq::new(26, |i: int| 0nat));
        counts
    }

    /// The tally of the characters of `chars`.
    pub fn from_iter(chars: &str) -> (counts: Self)
        requires
            all_letters(chars@),
        ensures
            forall|ch: char| is_letter(ch) ==> counts.count(ch) == occurrences(chars@, ch),
    {
        let mut counts = Self::new();
        let n: usize = chars.unicode_len();
        let mut i: usize = 0;
        while i < n
            invariant
                i <= n,
                n == chars@.len(),
                all_letters(chars@),
                forall|ch: char|
                    is_letter(ch) ==> counts.count(ch) == occurrences(chars@.take(i as int), ch),
                forall|ch: char| is_letter(ch) ==> occurrences(chars@.take(i as int), ch) <= i,
            decreases n - i,
        {
            let ch = chars.get_char(i);
            proof {
                assert(chars@.take(i + 1).drop_last() =~= chars@.take(i as int));
            }
            counts.add(ch);
            i += 1;
        }
        assert(chars@.take(n as int) =~= chars@);
        counts
    }

    /// Counts `ch` once more.
    pub fn add(&mut self, ch: char)
        requires
            is_letter(ch),
            old(self).count(ch) < usize::MAX,
        ensures
            final(self).count(ch) == old(self).count(ch) + 1,
            forall|c: char| is_letter(c) && c != ch ==> final(self).count(c) == old(self).count(c),
            final(self)@ == old(self)@.update(letter_index(ch), old(self).count(ch) + 1),
    {
        let i = index(ch);
        let n: usize = self.counts[i];
        self.counts[i] = n + 1;
        assert(self@ =~= old(self)@.update(letter_index(ch), old(self).count(ch) + 1));
    }

    /// A counter never exceeds the largest `usize`.
    pub proof fn lemma_counts_fit(&self)
        ensures
            forall|ch: char| is_letter(ch) ==> self.count(ch) <= usize::MAX,
    {
    }

    /// How often `ch` was counted.
    pub fn get(&self, ch: char) -> (n: usize)
        requires
            is_letter(ch),
        ensures
            n == self.count(ch),
    {
        self.counts[index(ch)]
    }
}

} // verus!
