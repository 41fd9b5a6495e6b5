//! The dictionary as data: words paired with their letter counts, and the
//! word list written out as bytes, one word per line.

use crate::collections::{all_letters, index, is_lowercase, letter_at, occurrences};
use crate::format::{digits, push_char, push_digits};
use crate::puzzle::{first_newline, lemma_first_newline, texts};
use vstd::prelude::*;
use vstd::std_specs::iter::IteratorSpec;
use vstd::string::StringExecFns;
use vstd::utf8::{
    char_is_scalar, char_u32_cast, decode_utf8, encode_scalar, encode_utf8,
    encode_utf8_decode_utf8, encode_utf8_valid_utf8, valid_utf8,
};

verus! {

/// The byte that ends a line.
pub const LINE_END: u8 = 10;

/// The bytes of a word list: each word in UTF-8, with a line end behind it.
pub open spec fn index_bytes(words: Seq<Seq<char>>) -> Seq<u8>
    decreases words.len(),
{
    if words.len() == 0 {
        Seq::empty()
    } else {
        index_bytes(words.drop_last()) + encode_utf8(words.last()) + seq![LINE_END]
    }
}

/// The words of `dict` that have `len` characters, all of them lowercase
/// letters, in the order of `dict`.
pub open spec fn of_length(dict: Seq<Seq<char>>, len: nat) -> Seq<Seq<char>>
    decreases dict.len(),
{
    if dict.len() == 0 {
        Seq::empty()
    } else if dict.last().len() == len && all_letters(dict.last()) {
        of_length(dict.drop_last(), len).push(dict.last())
    } else {
        of_length(dict.drop_last(), len)
    }
}

/// Whether `counts` holds for each letter how often it occurs in `word`.
pub open spec fn counts_of(word: Seq<char>, counts: [usize; 26]) -> bool {
    forall|i: int| 0 <= i < 26 ==> #[trigger] counts[i] == occurrences(word, letter_at(i))
}

/// Writes a word list out as bytes, one word per line.
pub fn create_index(dict: &Vec<String>) -> (bytes: Vec<u8>)
    ensures
        bytes@ == index_bytes(texts(dict@)),
{
    let mut bytes: Vec<u8> = Vec::new();
    let mut i: usize = 0;
    proof {
        assert(texts(dict@).take(0) =~= Seq::<Seq<char>>::empty());
    }
    while i < dict.len()
        invariant
            i <= dict@.len(),
            bytes@ == index_bytes(texts(dict@).take(i as int)),
        decreases dict@.len() - i,
    {
        let word = dict[i].as_str().as_bytes();
        let ghost before = bytes@;
        let mut j: usize = 0;
        while j < word.len()
            invariant
                j <= word@.len(),
                bytes@ == before + word@.take(j as int),
            decreases word@.len() - j,
        {
            bytes.push(word[j]);
            proof {
                assert(word@.take(j + 1) =~= word@.take(j as int).push(word@[j as int]));
                assert(bytes@ =~= before + word@.take(j + 1));
            }
            j += 1;
        }
        bytes.push(LINE_END);
        proof {
            assert(word@.take(j as int) =~= word@);
            assert(texts(dict@).take(i + 1).drop_last() =~= texts(dict@).take(i as int));
            assert(texts(dict@).take(i + 1).last() == dict@[i as int]@);
        }
        i += 1;
    }
    proof {
        assert(texts(dict@).take(i as int) =~= texts(dict@));
    }
    bytes
}

/// Whether every character of `word` is a lowercase letter.
pub fn is_word(word: &str) -> (b: bool)
    ensures
        b == all_letters(word@),
{
    let n: usize = word.unicode_len();
    let mut i: usize = 0;
    while i < n
        invariant
            i <= n,
            n == word@.len(),
            forall|j: int| 0 <= j < i ==> crate::collections::is_letter(#[trigger] word@[j]),
        decreases n - i,
    {
        if !is_lowercase(word.get_char(i)) {
            return false;
        }
        i += 1;
    }
    true
}

/// Counts how often each letter occurs in `word`: slot 0 is `a`, slot 25 is `z`.
pub fn count_chars(word: &str) -> (counts: [usize; 26])
    requires
        all_letters(word@),
    ensures
        counts_of(word@, counts),
{
    let mut counts: [usize; 26] = [0usize; 26];
    let n: usize = word.unicode_len();
    let mut i: usize = 0;
    while i < n
        invariant
            i <= n,
            n == word@.len(),
            all_letters(word@),
            forall|k: int|
                0 <= k < 26 ==> #[trigger] counts[k] == occurrences(
                    word@.take(i as int),
                    letter_at(k),
                ),
            forall|k: int| 0 <= k < 26 ==> #[trigger] counts[k] <= i,
        decreases n - i,
    {
        let ch = word.get_char(i);
        let slot: usize = index(ch);
        proof {
            assert(word@.take(i + 1).drop_last() =~= word@.take(i as int));
            assert(letter_at(slot as int) == ch);
            assert forall|k: int| 0 <= k < 26 && k != slot implies letter_at(k) != ch by {}
        }
        let seen: usize = counts[slot];
        counts[slot] = seen + 1;
        i += 1;
    }
    proof {
        assert(word@.take(n as int) =~= word@);
    }
    counts
}

/// The words of `dict` that have `len` lowercase letters, each with its
/// letter counts.
pub fn dict_with_counts(dict: &Vec<String>, len: usize) -> (out: Vec<(String, [usize; 26])>)
    ensures
        out@.len() == of_length(texts(dict@), len as nat).len(),
        forall|k: int|
            0 <= k < out@.len() ==> (#[trigger] out@[k]).0@ == of_length(texts(dict@), len as nat)[k]
                && counts_of(out@[k].0@, out@[k].1),
{
    let mut out: Vec<(String, [usize; 26])> = Vec::new();
    let mut i: usize = 0;
    proof {
        assert(texts(dict@).take(0) =~= Seq::<Seq<char>>::empty());
    }
    while i < dict.len()
        invariant
            i <= dict@.len(),
            out@.len() == of_length(texts(dict@).take(i as int), len as nat).len(),
            forall|k: int|
                0 <= k < out@.len() ==> (#[trigger] out@[k]).0@ == of_length(
                    texts(dict@).take(i as int),
                    len as nat,
                )[k] && counts_of(out@[k].0@, out@[k].1),
        decreases dict@.len() - i,
    {
        let word = &dict[i];
        proof {
            assert(texts(dict@).take(i + 1).drop_last() =~= texts(dict@).take(i as int));
            assert(texts(dict@).take(i + 1).last() == word@);
        }
        if word.as_str().unicode_len() == len && is_word(word.as_str()) {
            out.push((word.clone(), count_chars(word.as_str())));
        }
        i += 1;
    }
    proof {
        assert(texts(dict@).take(i as int) =~= texts(dict@));
    }
    out
}

/// The least number of letters of a word that is kept.
pub const MIN_WORD_LEN: usize = 4;

/// The largest number of letters of a word that is kept.
pub const MAX_WORD_LEN: usize = 6;

/// A line of a word list holds a word between two double quotes.
pub open spec fn quoted(line: Seq<char>) -> bool {
    line.len() >= 2 && line.first() == '"' && line.last() == '"'
}

/// What stands between the quotes of a line.
pub open spec fn unquoted(line: Seq<char>) -> Seq<char> {
    line.subrange(1, line.len() - 1)
}

/// A word is kept if its length is within the limits.
pub open spec fn kept(word: Seq<char>, min: usize, max: usize) -> bool {
    min <= word.len() <= max
}

/// `words` in front of what is listed behind them, if anything is.
pub open spec fn in_front(words: Seq<Seq<char>>, rest: Option<Seq<Seq<char>>>) -> Option<
    Seq<Seq<char>>,
> {
    match rest {
        Some(more) => Some(words + more),
        None => None,
    }
}

/// The words of a word list: one quoted word per line, of which those of a
/// kept length are listed in their order. A line break ends a line; text
/// behind the last line break is a line unless it is empty. There are no
/// words if some line is not quoted.
pub open spec fn listed_words(s: Seq<char>, min: usize, max: usize) -> Option<Seq<Seq<char>>>
    decreases s.len(),
{
    if s.len() == 0 {
        Some(Seq::empty())
    } else {
        let k = first_newline(s);
        let line = s.take(k);
        let rest = if 0 <= k < s.len() {
            listed_words(s.skip(k + 1), min, max)
        } else {
            Some(Seq::empty())
        };
        if !quoted(line) {
            None
        } else if kept(unquoted(line), min, max) {
            in_front(seq![unquoted(line)], rest)
        } else {
            rest
        }
    }
}

/// Reads a word list: one quoted word per line. Gives the words of a kept
/// length, or nothing if a line is not a quoted word.
pub fn load_dictionary(text: &str) -> (r: Option<Vec<String>>)
    ensures
        match r {
            Some(words) => listed_words(text@, MIN_WORD_LEN, MAX_WORD_LEN) == Some(texts(words@)),
            None => listed_words(text@, MIN_WORD_LEN, MAX_WORD_LEN) is None,
        },
{
    load_dictionary_between(text, MIN_WORD_LEN, MAX_WORD_LEN)
}

/// Reads a word list: one quoted word per line. Gives the words of `min`
/// to `max` characters, or nothing if a line is not a quoted word.
pub fn load_dictionary_between(text: &str, min: usize, max: usize) -> (r: Option<Vec<String>>)
    ensures
        match r {
            Some(words) => listed_words(text@, min, max) == Some(texts(words@)),
            None => listed_words(text@, min, max) is None,
        },
{
    let total: usize = text.unicode_len();
    let ghost s = text@;
    let mut words: Vec<String> = Vec::new();
    let mut inner = String::new();
    let mut count: usize = 0;
    let mut first: char = '"';
    let mut last: char = '"';
    let mut it = text.chars();
    let ghost mut consumed: int = 0;
    let ghost mut start: int = 0;
    proof {
        assert(s.skip(0) =~= s);
        assert(texts(words@) + listed_words(s, min, max)->0 =~= listed_words(s, min, max)->0);
    }
    loop
        invariant
            s == text@,
            total == s.len(),
            0 <= start <= consumed <= s.len(),
            count == consumed - start,
            IteratorSpec::remaining(&it) == s.skip(consumed),
            IteratorSpec::obeys_prophetic_iter_laws(&it),
            forall|j: int| start <= j < consumed ==> s[j] != '\n',
            count >= 1 ==> first == s[start] && last == s[consumed - 1],
            count >= 2 ==> inner@ == s.subrange(start + 1, consumed - 1),
            count < 2 ==> inner@ == Seq::<char>::empty(),
            listed_words(s, min, max) == in_front(texts(words@), listed_words(s.skip(start), min, max)),
        ensures
            consumed == s.len(),
        decreases s.len() - consumed,
    {
        match it.next() {
            Some(c) => {
                proof {
                    assert(s.skip(consumed).drop_first() =~= s.skip(consumed + 1));
                    assert(c == s[consumed]);
                }
                if c == '\n' {
                    let ghost rest = s.skip(start);
                    let ghost line = s.subrange(start, consumed);
                    proof {
                        lemma_first_newline(rest, consumed - start);
                        assert(rest.take(consumed - start) =~= line);
                        assert(rest.skip(consumed - start + 1) =~= s.skip(consumed + 1));
                    }
                    if count < 2 || first != '"' || last != '"' {
                        return None;
                    }
                    proof {
                        assert(unquoted(line) =~= inner@);
                    }
                    if min <= count - 2 && count - 2 <= max {
                        let ghost before = texts(words@);
                        words.push(inner);
                        proof {
                            assert(texts(words@) =~= before.push(unquoted(line)));
                            let more = listed_words(s.skip(consumed + 1), min, max);
                            if more is Some {
                                assert(before + (seq![unquoted(line)] + more->0) =~= texts(words@)
                                    + more->0);
                            }
                        }
                    }
                    inner = String::new();
                    count = 0;
                    proof {
                        start = consumed + 1;
                    }
                } else {
                    if count >= 2 {
                        push_char(&mut inner, last);
                        proof {
                            assert(s.subrange(start + 1, consumed) =~= s.subrange(
                                start + 1,
                                consumed - 1,
                            ).push(last));
                        }
                    } else if count == 1 {
                        proof {
                            assert(s.subrange(start + 1, consumed) =~= Seq::<char>::empty());
                        }
                    }
                    if count == 0 {
                        first = c;
                    }
                    last = c;
                    count += 1;
                }
                proof {
                    consumed = consumed + 1;
                }
            },
            None => {
                break ;
            },
        }
    }
    let ghost rest = s.skip(start);
    if count > 0 {
        proof {
            lemma_first_newline(rest, consumed - start);
            assert(rest.take(consumed - start) =~= rest);
            assert(rest =~= s.subrange(start, consumed));
        }
        if count < 2 || first != '"' || last != '"' {
            return None;
        }
        proof {
            assert(unquoted(rest) =~= inner@);
        }
        if min <= count - 2 && count - 2 <= max {
            let ghost before = texts(words@);
            words.push(inner);
            proof {
                assert(texts(words@) =~= before.push(unquoted(rest)));
                assert(before + (seq![unquoted(rest)] + Seq::<Seq<char>>::empty()) =~= texts(
                    words@,
                ));
            }
        } else {
            proof {
                assert(texts(words@) + Seq::<Seq<char>>::empty() =~= texts(words@));
            }
        }
    } else {
        proof {
            assert(texts(words@) + Seq::<Seq<char>>::empty() =~= texts(words@));
        }
    }
    Some(words)
}

/// The position of the first line end in `b`, or `b.len()` if it has none.
pub open spec fn first_line_end(b: Seq<u8>) -> int
    decreases b.len(),
{
    if b.len() == 0 || b[0] == LINE_END {
        0
    } else {
        1 + first_line_end(b.skip(1))
    }
}

/// The words of an index: the lines of `b`, each read as UTF-8. A line end
/// ends a line; bytes behind the last line end are a line unless there are
/// none. There are no words if some line is not valid UTF-8.
pub open spec fn index_words(b: Seq<u8>) -> Option<Seq<Seq<char>>>
    decreases b.len(),
{
    if b.len() == 0 {
        Some(Seq::empty())
    } else {
        let k = first_line_end(b);
        let rest = if 0 <= k < b.len() {
            index_words(b.skip(k + 1))
        } else {
            Some(Seq::empty())
        };
        if !valid_utf8(b.take(k)) {
            None
        } else {
            in_front(seq![decode_utf8(b.take(k))], rest)
        }
    }
}

/// `first_line_end` is the first position that holds a line end.
proof fn lemma_first_line_end(b: Seq<u8>, k: int)
    requires
        0 <= k <= b.len(),
        forall|j: int| 0 <= j < k ==> b[j] != LINE_END,
        k < b.len() ==> b[k] == LINE_END,
    ensures
        first_line_end(b) == k,
    decreases k,
{
    if k > 0 {
        lemma_first_line_end(b.skip(1), k - 1);
    }
}

/// Reads bytes as text by `String::from_utf8`. Its contract is not proved
/// here; it is what the documentation of `String::from_utf8` says: the call
/// fails exactly where the bytes are not valid UTF-8, and else gives the text
/// that they encode.
#[verifier::external_body]
fn text_of(bytes: Vec<u8>) -> (r: Option<String>)
    ensures
        match r {
            Some(text) => valid_utf8(bytes@) && text@ == decode_utf8(bytes@),
            None => !valid_utf8(bytes@),
        },
{
    String::from_utf8(bytes).ok()
}

/// Reads an index: one word per line, in UTF-8. Gives the words, or nothing
/// if a line is not valid UTF-8.
pub fn load_index(bytes: &[u8]) -> (r: Option<Vec<String>>)
    ensures
        match r {
            Some(words) => index_words(bytes@) == Some(texts(words@)),
            None => index_words(bytes@) is None,
        },
{
    let ghost b = bytes@;
    let mut words: Vec<String> = Vec::new();
    let mut line: Vec<u8> = Vec::new();
    let mut start: usize = 0;
    let mut i: usize = 0;
    proof {
        assert(b.skip(0) =~= b);
        assert(b.subrange(0, 0) =~= line@);
        assert(texts(words@) + index_words(b)->0 =~= index_words(b)->0);
    }
    while i < bytes.len()
        invariant
            b == bytes@,
            start <= i <= b.len(),
            forall|j: int| start <= j < i ==> b[j] != LINE_END,
            line@ == b.subrange(start as int, i as int),
            index_words(b) == in_front(texts(words@), index_words(b.skip(start as int))),
        decreases b.len() - i,
    {
        let byte: u8 = bytes[i];
        if byte == LINE_END {
            let ghost rest = b.skip(start as int);
            let ghost before = texts(words@);
            let ghost read = line@;
            proof {
                lemma_first_line_end(rest, i - start);
                assert(rest.take(i - start) =~= line@);
                assert(rest.skip(i - start + 1) =~= b.skip(i + 1));
            }
            match text_of(line) {
                Some(word) => {
                    words.push(word);
                },
                None => {
                    return None;
                },
            }
            line = Vec::new();
            start = i + 1;
            proof {
                assert(texts(words@) =~= before.push(decode_utf8(read)));
                let more = index_words(b.skip(i + 1));
                if more is Some {
                    assert(before + (seq![decode_utf8(read)] + more->0) =~= texts(words@)
                        + more->0);
                }
                assert(b.subrange(i + 1, i + 1) =~= line@);
            }
        } else {
            line.push(byte);
            proof {
                assert(b.subrange(start as int, i + 1) =~= b.subrange(start as int, i as int).push(
                    byte,
                ));
            }
        }
        i += 1;
    }
    let ghost rest = b.skip(start as int);
    let ghost before = texts(words@);
    if start < i {
        proof {
            lemma_first_line_end(rest, i - start);
            assert(rest.take(i - start) =~= rest);
            assert(rest =~= line@);
        }
        match text_of(line) {
            Some(word) => {
                words.push(word);
            },
            None => {
                return None;
            },
        }
        proof {
            assert(texts(words@) =~= before.push(decode_utf8(rest)));
            assert(before + (seq![decode_utf8(rest)] + Seq::<Seq<char>>::empty()) =~= texts(words@));
        }
    } else {
        proof {
            assert(before + Seq::<Seq<char>>::empty() =~= before);
        }
    }
    Some(words)
}

/// The bytes of a word list start with its first word and a line end.
proof fn lemma_index_bytes_front(word: Seq<char>, rest: Seq<Seq<char>>)
    ensures
        index_bytes(seq![word] + rest) == encode_utf8(word) + seq![LINE_END] + index_bytes(rest),
    decreases rest.len(),
{
    let all = seq![word] + rest;
    if rest.len() == 0 {
        assert(all.drop_last() =~= Seq::<Seq<char>>::empty());
        assert(all.last() == word);
        assert(index_bytes(all.drop_last()) =~= Seq::<u8>::empty());
        assert(index_bytes(rest) =~= Seq::<u8>::empty());
        assert(index_bytes(all) =~= encode_utf8(word) + seq![LINE_END] + index_bytes(rest));
    } else {
        lemma_index_bytes_front(word, rest.drop_last());
        assert(all.drop_last() =~= seq![word] + rest.drop_last());
        assert(all.last() == rest.last());
        assert(index_bytes(all) =~= encode_utf8(word) + seq![LINE_END] + index_bytes(rest));
    }
}

/// No byte of the UTF-8 encoding of a scalar value is a line end, unless the
/// value is the line break itself.
proof fn lemma_scalar_bytes(v: u32)
    by (bit_vector)
    ensures
        v <= 0x7F && v != 10 ==> (v & 0x7F) as u8 != 10u8,
        (0xC0u8 | ((v >> 6) & 0x1F) as u8) != 10u8,
        (0xE0u8 | ((v >> 12) & 0x0F) as u8) != 10u8,
        (0xF0u8 | ((v >> 18) & 0x7) as u8) != 10u8,
        (0x80u8 | (v & 0x3F) as u8) != 10u8,
        (0x80u8 | ((v >> 6) & 0x3F) as u8) != 10u8,
        (0x80u8 | ((v >> 12) & 0x3F) as u8) != 10u8,
{
}

/// The UTF-8 encoding of a text without line breaks holds no line end.
pub proof fn lemma_encoding_has_no_line_end(text: Seq<char>)
    requires
        forall|i: int| 0 <= i < text.len() ==> text[i] != '\n',
    ensures
        forall|j: int| 0 <= j < encode_utf8(text).len() ==> encode_utf8(text)[j] != LINE_END,
    decreases text.len(),
{
    if text.len() > 0 {
        let rest = text.drop_first();
        assert forall|i: int| 0 <= i < rest.len() implies rest[i] != '\n' by {
            assert(rest[i] == text[i + 1]);
        }
        lemma_encoding_has_no_line_end(rest);
        let v = text[0] as u32;
        char_is_scalar(text[0]);
        char_u32_cast(text[0], v);
        char_u32_cast('\n', 10u32);
        assert(v != 10);
        lemma_scalar_bytes(v);
        let head = encode_scalar(v);
        assert forall|j: int| 0 <= j < head.len() implies head[j] != LINE_END by {}
        let tail = encode_utf8(rest);
        let all = encode_utf8(text);
        assert(all == head + tail);
        assert forall|j: int| 0 <= j < all.len() implies all[j] != LINE_END by {
            if j < head.len() {
                assert(all[j] == head[j]);
            } else {
                assert(all[j] == tail[j - head.len()]);
            }
        }
    }
}

/// An index that was written from words is read back as the same words, if
/// no word holds a line break.
pub proof fn lemma_index_round_trip(words: Seq<Seq<char>>)
    requires
        forall|k: int, i: int|
            0 <= k < words.len() && 0 <= i < words[k].len() ==> #[trigger] words[k][i] != '\n',
    ensures
        index_words(index_bytes(words)) == Some(words),
    decreases words.len(),
{
    if words.len() > 0 {
        let word = words[0];
        let rest = words.skip(1);
        let line = encode_utf8(word);
        let b = index_bytes(words);
        assert(words =~= seq![word] + rest);
        lemma_index_bytes_front(word, rest);
        assert forall|k: int, i: int|
            0 <= k < rest.len() && 0 <= i < rest[k].len() implies #[trigger] rest[k][i] != '\n' by {
            assert(rest[k][i] == words[k + 1][i]);
        }
        lemma_index_round_trip(rest);
        assert forall|i: int| 0 <= i < word.len() implies word[i] != '\n' by {
            assert(words[0][i] != '\n');
        }
        lemma_encoding_has_no_line_end(word);
        assert forall|j: int| 0 <= j < line.len() implies b[j] != LINE_END by {
            assert(b[j] == line[j]);
        }
        lemma_first_line_end(b, line.len() as int);
        assert(b.take(line.len() as int) =~= line);
        assert(b.skip(line.len() as int + 1) =~= index_bytes(rest));
        encode_utf8_valid_utf8(word);
        encode_utf8_decode_utf8(word);
    }
}

/// The lines of a word list written as the entries of an array: each word
/// in double quotes, indented, with a comma behind it.
pub open spec fn dict_entries(words: Seq<Seq<char>>) -> Seq<char>
    decreases words.len(),
{
    if words.len() == 0 {
        Seq::empty()
    } else {
        dict_entries(words.drop_last()) + "    \""@ + words.last() + "\",\n"@
    }
}

/// A word list written as a source file that holds it as one array of
/// strings, with the number of words as the length of the array.
pub open spec fn dict_source(words: Seq<Seq<char>>) -> Seq<char> {
    "/// The reduced word list\npub static DICT: [&str; "@ + digits(words.len()) + "] = [\n"@
        + dict_entries(words) + "];\n"@
}

/// Writes a word list as a source file that holds it as one array of strings.
pub fn create_dict(dict: &Vec<String>) -> (source: String)
    ensures
        source@ == dict_source(texts(dict@)),
{
    let mut entries = String::new();
    let mut i: usize = 0;
    proof {
        assert(texts(dict@).take(0) =~= Seq::<Seq<char>>::empty());
    }
    while i < dict.len()
        invariant
            i <= dict@.len(),
            entries@ == dict_entries(texts(dict@).take(i as int)),
        decreases dict@.len() - i,
    {
        let ghost before = entries@;
        entries.append("    \"");
        entries.append(dict[i].as_str());
        entries.append("\",\n");
        proof {
            assert(texts(dict@).take(i + 1).drop_last() =~= texts(dict@).take(i as int));
            assert(texts(dict@).take(i + 1).last() == dict@[i as int]@);
            assert(entries@ =~= before + "    \""@ + dict@[i as int]@ + "\",\n"@);
        }
        i += 1;
    }
    proof {
        assert(texts(dict@).take(i as int) =~= texts(dict@));
    }
    let mut source = String::new();
    source.append("/// The reduced word list\npub static DICT: [&str; ");
    push_digits(&mut source, dict.len());
    source.append("] = [\n");
    source.append(entries.as_str());
    source.append("];\n");
    proof {
        assert(source@ =~= dict_source(texts(dict@)));
    }
    source
}

} // verus!
