//! Reading a word list, one line at a time: the fields of a line, which words are
//! kept, and how words are grouped into tranches of growing size.
use crate::parser::{chars_of, is_digit};
use crate::text::string_from_chars;
use crate::words::{index_byte, word_chars, Tranche, Word};
use vstd::prelude::*;

verus! {

/// The size of the first tranche; each later one is half again as large.
pub const INITIAL_TRANCHE_SIZE: usize = 10000;

/// The position of the first tab in `s`, if there is one.
pub open spec fn first_tab(s: Seq<char>) -> Option<int>
    decreases s.len(),
{
    if s.len() == 0 {
        None
    } else {
        match first_tab(s.drop_last()) {
            Some(k) => Some(k),
            None => if s.last() == '\t' {
                Some(s.len() - 1)
            } else {
                None
            },
        }
    }
}

/// The number written by the decimal digits `s`.
pub open spec fn digits_value(s: Seq<char>) -> int
    decreases s.len(),
{
    if s.len() == 0 {
        0
    } else {
        digits_value(s.drop_last()) * 10 + (s.last() as int - '0' as int)
    }
}

/// Every character of `s` is a decimal digit.
pub open spec fn all_digits(s: Seq<char>) -> bool {
    forall|i: int| 0 <= i < s.len() ==> is_digit(#[trigger] s[i])
}

/// The count that a column holds, read as `u32` reads a decimal number: an optional
/// `+`, then one or more digits, for a value no larger than `u32::MAX`.
pub open spec fn count_value(s: Seq<char>) -> Option<u32> {
    let d = if s.len() > 0 && s[0] == '+' {
        s.drop_first()
    } else {
        s
    };
    if d.len() > 0 && all_digits(d) && digits_value(d) <= u32::MAX {
        Some(digits_value(d) as u32)
    } else {
        None
    }
}

/// The word and score of a line of `bytes` bytes: with a tab after a count, the
/// rest of the line scored by that count; otherwise the whole line, scored by its
/// length in bytes (as a `u32`).
pub open spec fn line_fields(line: Seq<char>, bytes: nat) -> (Seq<char>, u32) {
    match first_tab(line) {
        Some(k) => match count_value(line.take(k)) {
            Some(c) => (line.skip(k + 1), c),
            None => (line, bytes as u32),
        },
        None => (line, bytes as u32),
    }
}

/// Every character of `s` is an ASCII lower-case letter.
pub open spec fn plain_lowercase(s: Seq<char>) -> bool {
    forall|i: int| 0 <= i < s.len() ==> 'a' <= #[trigger] s[i] <= 'z'
}

/// Some character of `s` is a decimal digit.
pub open spec fn has_digit(s: Seq<char>) -> bool {
    exists|i: int| 0 <= i < s.len() && is_digit(#[trigger] s[i])
}

/// A word is kept unless it is a single letter (two symbols with the word end)
/// other than `I` and `a`, or holds a digit.
pub open spec fn word_kept(symbols: nat, text: Seq<char>) -> bool {
    &&& (symbols > 2 || text == seq!['I'] || text == seq!['a'])
    &&& !has_digit(text)
}

proof fn lemma_first_tab(s: Seq<char>)
    ensures
        match first_tab(s) {
            Some(k) => 0 <= k < s.len() && s[k] == '\t' && forall|j: int| 0 <= j < k ==> s[j] != '\t',
            None => forall|j: int| 0 <= j < s.len() ==> s[j] != '\t',
        },
    decreases s.len(),
{
    if s.len() > 0 {
        let p = s.drop_last();
        lemma_first_tab(p);
        assert forall|j: int| 0 <= j < p.len() implies s[j] == p[j] by {
        }
        match first_tab(p) {
            Some(k) => {
                assert(s[k] == p[k]);
            },
            None => {
            },
        }
    }
}

/// The position of the first tab, if any.
fn find_tab(s: &Vec<char>) -> (r: Option<usize>)
    ensures
        match r {
            Some(k) => first_tab(s@) == Some(k as int),
            None => first_tab(s@) is None,
        },
{
    let mut i: usize = 0;
    while i < s.len()
        invariant
            i <= s@.len(),
            forall|j: int| 0 <= j < i ==> s@[j] != '\t',
        decreases s@.len() - i,
    {
        if s[i] == '\t' {
            proof {
                lemma_first_tab(s@);
                match first_tab(s@) {
                    Some(k) => {
                        assert(k == i);
                    },
                    None => {
                        assert(s@[i as int] != '\t');
                    },
                }
            }
            return Some(i);
        }
        i += 1;
    }
    proof {
        lemma_first_tab(s@);
    }
    None
}

/// The count in the first `end` characters of `s` (see `count_value`).
fn parse_count(s: &Vec<char>, end: usize) -> (r: Option<u32>)
    requires
        end <= s@.len(),
    ensures
        r == count_value(s@.take(end as int)),
{
    let ghost c = s@.take(end as int);
    let mut start: usize = 0;
    if end > 0 && s[0] == '+' {
        start = 1;
    }
    let ghost d = if c.len() > 0 && c[0] == '+' {
        c.drop_first()
    } else {
        c
    };
    proof {
        assert(d =~= s@.subrange(start as int, end as int));
    }
    let ghost result = if d.len() > 0 && all_digits(d) && digits_value(d) <= u32::MAX {
        Some(digits_value(d) as u32)
    } else {
        None
    };
    assert(count_value(c) == result);
    if start == end {
        return None;
    }
    let mut value: u64 = 0;
    let mut i: usize = start;
    while i < end
        invariant
            start <= i <= end,
            end <= s@.len(),
            d == s@.subrange(start as int, end as int),
            c == s@.take(end as int),
            count_value(c) == result,
            result == (if d.len() > 0 && all_digits(d) && digits_value(d) <= u32::MAX {
                Some(digits_value(d) as u32)
            } else {
                None
            }),
            forall|j: int| start <= j < i ==> is_digit(#[trigger] s@[j]),
            value == digits_value(s@.subrange(start as int, i as int)),
            value <= u32::MAX,
        decreases end - i,
    {
        let ch = s[i];
        if !('0' <= ch && ch <= '9') {
            proof {
                assert(d[i - start] == ch);
                assert(!is_digit(d[i - start]));
                assert(!all_digits(d));
            }
            return None;
        }
        proof {
            let p = s@.subrange(start as int, i + 1);
            assert(p.drop_last() =~= s@.subrange(start as int, i as int));
            assert(p.last() == ch);
        }
        let digit = (ch as u32 - '0' as u32) as u64;
        value = value * 10 + digit;
        if value > 4294967295u64 {
            proof {
                if all_digits(d) {
                    let k = i + 1 - start;
                    assert(d.take(k) =~= s@.subrange(start as int, i + 1));
                    lemma_digits_mono(d, k, d.len() as int);
                    assert(d.take(d.len() as int) =~= d);
                }
            }
            return None;
        }
        i += 1;
    }
    proof {
        assert(d =~= s@.subrange(start as int, end as int));
        assert forall|j: int| 0 <= j < d.len() implies is_digit(#[trigger] d[j]) by {
            assert(d[j] == s@[start + j]);
        }
    }
    Some(value as u32)
}

/// A longer run of digits is worth at least as much as its prefix.
proof fn lemma_digits_mono(d: Seq<char>, k: int, m: int)
    requires
        0 <= k <= m <= d.len(),
        all_digits(d),
    ensures
        0 <= digits_value(d.take(k)) <= digits_value(d.take(m)),
    decreases m - k,
{
    if k < m {
        lemma_digits_mono(d, k, m - 1);
        let t = d.take(m);
        assert(t.drop_last() =~= d.take(m - 1));
        assert(t.last() == d[m - 1]);
        assert(is_digit(d[m - 1]));
    } else {
        lemma_digits_nonneg(d, k);
    }
}

proof fn lemma_digits_nonneg(d: Seq<char>, k: int)
    requires
        0 <= k <= d.len(),
        all_digits(d),
    ensures
        0 <= digits_value(d.take(k)),
    decreases k,
{
    if k > 0 {
        lemma_digits_nonneg(d, k - 1);
        let t = d.take(k);
        assert(t.drop_last() =~= d.take(k - 1));
        assert(t.last() == d[k - 1]);
        assert(is_digit(d[k - 1]));
    }
}

/// Whether every character is an ASCII lower-case letter.
fn is_plain_lowercase(s: &Vec<char>) -> (r: bool)
    ensures
        r == plain_lowercase(s@),
{
    let mut i: usize = 0;
    while i < s.len()
        invariant
            i <= s@.len(),
            forall|j: int| 0 <= j < i ==> 'a' <= #[trigger] s@[j] <= 'z',
        decreases s@.len() - i,
    {
        if !('a' <= s[i] && s[i] <= 'z') {
            return false;
        }
        i += 1;
    }
    true
}

/// Whether some character is a decimal digit.
fn holds_digit(s: &Vec<char>) -> (r: bool)
    ensures
        r == has_digit(s@),
{
    let mut i: usize = 0;
    while i < s.len()
        invariant
            i <= s@.len(),
            forall|j: int| 0 <= j < i ==> !is_digit(#[trigger] s@[j]),
        decreases s@.len() - i,
    {
        if '0' <= s[i] && s[i] <= '9' {
            proof {
                assert(is_digit(s@[i as int]));
            }
            return true;
        }
        i += 1;
    }
    false
}

/// Splits a word-list line into its word and score (see `line_fields`).
pub fn parse_wordlist_line(line: &str) -> (r: (Vec<char>, u32))
    ensures
        (r.0@, r.1) == line_fields(line@, line.len() as nat),
{
    let s = chars_of(line);
    let bytes = line.len() as u32;
    proof {
        lemma_first_tab(s@);
    }
    match find_tab(&s) {
        Some(k) => match parse_count(&s, k) {
            Some(c) => {
                let mut word: Vec<char> = Vec::new();
                let mut i: usize = k + 1;
                while i < s.len()
                    invariant
                        k < s@.len(),
                        k + 1 <= i <= s@.len(),
                        word@ == s@.subrange(k + 1, i as int),
                    decreases s@.len() - i,
                {
                    word.push(s[i]);
                    proof {
                        assert(word@ =~= s@.subrange(k + 1, i + 1));
                    }
                    i += 1;
                }
                proof {
                    lemma_first_tab(s@);
                    assert(word@ =~= s@.skip(k + 1));
                }
                (word, c)
            },
            None => (s, bytes),
        },
        None => (s, bytes),
    }
}

/// Reads the lines of a word list in order, keeping count of the words kept and
/// skipped and of the tranches.
pub struct WordlistReader {
    /// The size of the current tranche.
    pub tranche_size: usize,
    /// How many words the current tranche holds.
    pub tranche_count: usize,
    /// The tranche of the plain words read now.
    pub tranche: Tranche,
    /// How many words were kept.
    pub word_count: usize,
    /// How many words were skipped.
    pub skipped_count: usize,
}

impl WordlistReader {
    /// The size of the current tranche.
    pub open spec fn size(&self) -> usize {
        self.tranche_size
    }

    /// How many words the current tranche holds.
    pub open spec fn filled(&self) -> usize {
        self.tranche_count
    }

    /// One more line can be read without a counter overflowing.
    pub open spec fn ready(&self) -> bool {
        &&& self.tranche < 255
        &&& self.word_count < usize::MAX
        &&& self.skipped_count < usize::MAX
        &&& self.filled() < usize::MAX
        &&& self.size() + self.size() / 2 <= usize::MAX
    }

    /// A reader before the first line.
    pub fn new() -> (r: WordlistReader)
        ensures
            r.tranche == 0,
            r.word_count == 0,
            r.skipped_count == 0,
            r.size() == INITIAL_TRANCHE_SIZE,
            r.filled() == 0,
    {
        WordlistReader { tranche_size: INITIAL_TRANCHE_SIZE, tranche_count: 0, tranche: 0, word_count: 0, skipped_count: 0 }
    }

    /// Whether one more line can be read (see `ready`).
    pub fn is_ready(&self) -> (r: bool)
        ensures
            r == self.ready(),
    {
        self.tranche < 255 && self.word_count < usize::MAX && self.skipped_count < usize::MAX && self.tranche_count
            < usize::MAX && self.tranche_size <= usize::MAX - self.tranche_size / 2
    }

    /// The word of one line, if it is kept (see `line_fields` and `word_kept`): its
    /// tranche is the current one, one more for a word that is not all lower-case
    /// ASCII letters. After more words than its size, a tranche is closed and the
    /// next one is half again as large.
    pub fn read_line(&mut self, line: &str) -> (r: Option<Word>)
        requires
            old(self).ready(),
        ensures
            ({
                let (text, score) = line_fields(line@, line.len() as nat);
                let t = old(self).tranche + if plain_lowercase(text) {
                    0int
                } else {
                    1int
                };
                if word_kept(word_chars(text).len(), text) {
                    &&& r matches Some(w) && w.text@ == text && w.chars@ == word_chars(text) && w.tranche == t && w.score == score
                    &&& final(self).word_count == old(self).word_count + 1
                    &&& final(self).skipped_count == old(self).skipped_count
                    &&& if old(self).filled() + 1 > old(self).size() {
                        &&& final(self).size() == old(self).size() + old(self).size() / 2
                        &&& final(self).filled() == 0
                        &&& final(self).tranche == old(self).tranche + 1
                    } else {
                        &&& final(self).size() == old(self).size()
                        &&& final(self).filled() == old(self).filled() + 1
                        &&& final(self).tranche == old(self).tranche
                    }
                } else {
                    &&& r is None
                    &&& final(self).skipped_count == old(self).skipped_count + 1
                    &&& final(self).word_count == old(self).word_count
                    &&& final(self).size() == old(self).size()
                    &&& final(self).filled() == old(self).filled()
                    &&& final(self).tranche == old(self).tranche
                }
            }),
    {
        let (text, score) = parse_wordlist_line(line);
        let bump: Tranche = if is_plain_lowercase(&text) {
            0
        } else {
            1
        };
        let t = self.tranche + bump;
        let text_string = string_from_chars(&text);
        let word = Word::new(text_string.as_str(), t, score);
        let single = word.chars.len() <= 2;
        let is_i = text.len() == 1 && text[0] == 'I';
        let is_a = text.len() == 1 && text[0] == 'a';
        proof {
            assert(is_i == (text@ == seq!['I'])) by {
                if text@ == seq!['I'] {
                    assert(text@[0] == 'I');
                }
                if is_i {
                    assert(text@ =~= seq!['I']);
                }
            }
            assert(is_a == (text@ == seq!['a'])) by {
                if text@ == seq!['a'] {
                    assert(text@[0] == 'a');
                }
                if is_a {
                    assert(text@ =~= seq!['a']);
                }
            }
        }
        if single && !is_i && !is_a {
            self.skipped_count += 1;
            return None;
        }
        if holds_digit(&text) {
            self.skipped_count += 1;
            return None;
        }
        self.word_count += 1;
        self.tranche_count += 1;
        if self.tranche_count > self.tranche_size {
            self.tranche_size += self.tranche_size / 2;
            self.tranche_count = 0;
            self.tranche += 1;
        }
        Some(word)
    }
}

/// The key under which a word is stored in a word-list map: the byte of each of its
/// symbols (see `index_byte`).
pub open spec fn fst_key(w: Word) -> Seq<u8> {
    Seq::new(w.chars@.len(), |i: int| index_byte(w.chars@[i].index()))
}

/// `a` comes before `b` in byte-wise lexicographic order.
pub open spec fn bytes_less(a: Seq<u8>, b: Seq<u8>) -> bool
    decreases a.len(),
{
    if b.len() == 0 {
        false
    } else if a.len() == 0 {
        true
    } else if a[0] != b[0] {
        a[0] < b[0]
    } else {
        bytes_less(a.drop_first(), b.drop_first())
    }
}

proof fn lemma_bytes_irreflexive(a: Seq<u8>)
    ensures
        !bytes_less(a, a),
    decreases a.len(),
{
    if a.len() > 0 {
        lemma_bytes_irreflexive(a.drop_first());
    }
}

proof fn lemma_bytes_asymmetric(a: Seq<u8>, b: Seq<u8>)
    ensures
        bytes_less(a, b) ==> !bytes_less(b, a),
    decreases a.len(),
{
    if a.len() > 0 && b.len() > 0 && a[0] == b[0] {
        lemma_bytes_asymmetric(a.drop_first(), b.drop_first());
    }
}

proof fn lemma_bytes_transitive(a: Seq<u8>, b: Seq<u8>, c: Seq<u8>)
    ensures
        bytes_less(a, b) && bytes_less(b, c) ==> bytes_less(a, c),
    decreases a.len(),
{
    if a.len() > 0 && b.len() > 0 && c.len() > 0 && a[0] == b[0] && b[0] == c[0] {
        lemma_bytes_transitive(a.drop_first(), b.drop_first(), c.drop_first());
    }
}

proof fn lemma_bytes_total(a: Seq<u8>, b: Seq<u8>)
    ensures
        a != b ==> bytes_less(a, b) || bytes_less(b, a),
    decreases a.len(),
{
    if a.len() == 0 && b.len() == 0 {
        assert(a =~= b);
    } else if a.len() > 0 && b.len() > 0 && a[0] == b[0] {
        lemma_bytes_total(a.drop_first(), b.drop_first());
        if a.drop_first() == b.drop_first() {
            assert(a.len() == a.drop_first().len() + 1);
            assert(b.len() == b.drop_first().len() + 1);
            assert forall|i: int| 0 <= i < a.len() implies a[i] == b[i] by {
                if i > 0 {
                    assert(a[i] == a.drop_first()[i - 1]);
                    assert(b[i] == b.drop_first()[i - 1]);
                }
            }
            assert(a =~= b);
        }
    }
}

/// Byte-wise lexicographic order is a strict total order.
pub proof fn lemma_bytes_order(a: Seq<u8>, b: Seq<u8>, c: Seq<u8>)
    ensures
        !bytes_less(a, a),
        bytes_less(a, b) ==> !bytes_less(b, a),
        bytes_less(a, b) && bytes_less(b, c) ==> bytes_less(a, c),
        a != b ==> bytes_less(a, b) || bytes_less(b, a),
{
    lemma_bytes_irreflexive(a);
    lemma_bytes_asymmetric(a, b);
    lemma_bytes_transitive(a, b, c);
    lemma_bytes_total(a, b);
}

/// Whether `a` comes before `b` (see `bytes_less`).
fn bytes_before(a: &Vec<u8>, b: &Vec<u8>) -> (r: bool)
    ensures
        r == bytes_less(a@, b@),
{
    let mut i: usize = 0;
    assert(a@.skip(0) =~= a@);
    assert(b@.skip(0) =~= b@);
    while i < a.len() && i < b.len()
        invariant
            i <= a@.len(),
            i <= b@.len(),
            bytes_less(a@, b@) == bytes_less(a@.skip(i as int), b@.skip(i as int)),
        decreases a@.len() - i,
    {
        if a[i] != b[i] {
            assert(a@.skip(i as int)[0] == a@[i as int]);
            assert(b@.skip(i as int)[0] == b@[i as int]);
            return a[i] < b[i];
        }
        proof {
            assert(a@.skip(i as int)[0] == a@[i as int]);
            assert(b@.skip(i as int)[0] == b@[i as int]);
            assert(a@.skip(i as int).drop_first() =~= a@.skip(i + 1));
            assert(b@.skip(i as int).drop_first() =~= b@.skip(i + 1));
        }
        i += 1;
    }
    assert(a@.skip(i as int).len() == a@.len() - i);
    assert(b@.skip(i as int).len() == b@.len() - i);
    i < b.len()
}

/// The key of a word (see `fst_key`).
pub fn word_key(word: &Word) -> (r: Vec<u8>)
    ensures
        r@ == fst_key(*word),
{
    let mut r: Vec<u8> = Vec::new();
    let mut i: usize = 0;
    while i < word.chars.len()
        invariant
            i <= word.chars@.len(),
            r@.len() == i,
            forall|j: int| 0 <= j < i ==> r@[j] == index_byte(word.chars@[j].index()),
        decreases word.chars@.len() - i,
    {
        let b = word.chars[i].into_u8();
        r.push(b);
        i += 1;
    }
    assert(r@ =~= fst_key(*word));
    r
}

/// Some word of `ws` has key `key` and score `score`.
pub open spec fn scored(ws: Seq<Word>, key: Seq<u8>, score: u64) -> bool {
    exists|k: int| 0 <= k < ws.len() && fst_key(#[trigger] ws[k]) == key && ws[k].score == score
}

/// No word of `ws` with key `key` scores lower than `score`.
pub open spec fn least(ws: Seq<Word>, key: Seq<u8>, score: u64) -> bool {
    forall|k: int| 0 <= k < ws.len() && fst_key(#[trigger] ws[k]) == key ==> score <= ws[k].score
}

/// Some entry of `es` has key `key`.
pub open spec fn holds_key(es: Seq<(Vec<u8>, u64)>, key: Seq<u8>) -> bool {
    exists|i: int| 0 <= i < es.len() && (#[trigger] es[i]).0@ == key
}

/// The keys of `es` increase strictly.
pub open spec fn keys_increasing(es: Seq<(Vec<u8>, u64)>) -> bool {
    forall|i: int, j: int| #![trigger es[i], es[j]] 0 <= i < j < es.len() ==> bytes_less(es[i].0@, es[j].0@)
}

/// `es` are the entries of a word-list map of the words `ws`: one for each key of a
/// word, in increasing order of keys, each with the lowest score of the words with
/// that key.
pub open spec fn entries_of(es: Seq<(Vec<u8>, u64)>, ws: Seq<Word>) -> bool {
    &&& keys_increasing(es)
    &&& forall|i: int| 0 <= i < es.len() ==> scored(ws, (#[trigger] es[i]).0@, es[i].1) && least(ws, es[i].0@, es[i].1)
    &&& forall|k: int| 0 <= k < ws.len() ==> holds_key(es, fst_key(#[trigger] ws[k]))
}

/// A key held by neither the entries left in `rest` (all below `key`) nor those in
/// `done` (all above `key`) is the key of no word of `ws`, whose keys `all` holds.
proof fn lemma_key_unused(
    all: Seq<(Vec<u8>, u64)>,
    ws: Seq<Word>,
    n: int,
    done: Seq<(Vec<u8>, u64)>,
    key: Seq<u8>,
)
    requires
        entries_of(all, ws),
        0 <= n <= all.len(),
        n > 0 ==> bytes_less(all[n - 1].0@, key),
        forall|j: int| n <= j < all.len() ==> holds_key(done, (#[trigger] all[j]).0@),
        forall|i: int| 0 <= i < done.len() ==> bytes_less(key, (#[trigger] done[i]).0@),
    ensures
        forall|k: int| 0 <= k < ws.len() ==> fst_key(#[trigger] ws[k]) != key,
{
    assert forall|k: int| 0 <= k < ws.len() implies fst_key(#[trigger] ws[k]) != key by {
        assert(holds_key(all, fst_key(ws[k])));
        let j = choose|j: int| 0 <= j < all.len() && (#[trigger] all[j]).0@ == fst_key(ws[k]);
        if j < n {
            if j < n - 1 {
                assert(bytes_less(all[j].0@, all[n - 1].0@));
                lemma_bytes_transitive(all[j].0@, all[n - 1].0@, key);
            }
            lemma_bytes_irreflexive(key);
        } else {
            assert(holds_key(done, all[j].0@));
            let i = choose|i: int| 0 <= i < done.len() && (#[trigger] done[i]).0@ == all[j].0@;
            assert(bytes_less(key, done[i].0@));
            lemma_bytes_irreflexive(key);
        }
    }
}

/// A key and score that fit the words of `wa` and of `wb` fit the words of both.
proof fn lemma_joined(wa: Seq<Word>, wb: Seq<Word>, key: Seq<u8>, score: u64)
    requires
        scored(wa, key, score) || scored(wb, key, score),
        least(wa, key, score),
        least(wb, key, score),
    ensures
        scored(wa + wb, key, score),
        least(wa + wb, key, score),
{
    let ws = wa + wb;
    if scored(wa, key, score) {
        let k = choose|k: int| 0 <= k < wa.len() && fst_key(#[trigger] wa[k]) == key && wa[k].score == score;
        assert(ws[k] == wa[k]);
    } else {
        let k = choose|k: int| 0 <= k < wb.len() && fst_key(#[trigger] wb[k]) == key && wb[k].score == score;
        assert(ws[wa.len() + k] == wb[k]);
    }
    assert forall|k: int| 0 <= k < ws.len() && fst_key(#[trigger] ws[k]) == key implies score <= ws[k].score by {
        if k < wa.len() {
            assert(ws[k] == wa[k]);
        } else {
            assert(ws[k] == wb[k - wa.len()]);
        }
    }
}

/// Merges the entries of two word lists into those of the two lists together; a
/// key of both keeps the lower score.
fn merge_entries(
    a: Vec<(Vec<u8>, u64)>,
    b: Vec<(Vec<u8>, u64)>,
    Ghost(wa): Ghost<Seq<Word>>,
    Ghost(wb): Ghost<Seq<Word>>,
) -> (r: Vec<(Vec<u8>, u64)>)
    requires
        entries_of(a@, wa),
        entries_of(b@, wb),
    ensures
        entries_of(r@, wa + wb),
{
    let ghost ea = a@;
    let ghost eb = b@;
    let ghost ws = wa + wb;
    let mut a = a;
    let mut b = b;
    // the merged entries, highest key first
    let mut out: Vec<(Vec<u8>, u64)> = Vec::new();
    while a.len() > 0 || b.len() > 0
        invariant
            entries_of(ea, wa),
            entries_of(eb, wb),
            ws == wa + wb,
            a@.len() <= ea.len(),
            a@ == ea.take(a@.len() as int),
            b@.len() <= eb.len(),
            b@ == eb.take(b@.len() as int),
            forall|i: int, j: int|
                #![trigger out@[i], out@[j]]
                0 <= i < j < out@.len() ==> bytes_less(out@[j].0@, out@[i].0@),
            forall|i: int, j: int|
                #![trigger out@[i], ea[j]]
                0 <= i < out@.len() && 0 <= j < a@.len() ==> bytes_less(ea[j].0@, out@[i].0@),
            forall|i: int, j: int|
                #![trigger out@[i], eb[j]]
                0 <= i < out@.len() && 0 <= j < b@.len() ==> bytes_less(eb[j].0@, out@[i].0@),
            forall|i: int|
                0 <= i < out@.len() ==> scored(ws, (#[trigger] out@[i]).0@, out@[i].1) && least(ws, out@[i].0@, out@[i].1),
            forall|j: int| a@.len() <= j < ea.len() ==> holds_key(out@, (#[trigger] ea[j]).0@),
            forall|j: int| b@.len() <= j < eb.len() ==> holds_key(out@, (#[trigger] eb[j]).0@),
        decreases a@.len() + b@.len(),
    {
        let na = a.len();
        let nb = b.len();
        let side: u8 = if na == 0 {
            1
        } else if nb == 0 {
            0
        } else if bytes_before(&a[na - 1].0, &b[nb - 1].0) {
            1
        } else if bytes_before(&b[nb - 1].0, &a[na - 1].0) {
            0
        } else {
            2
        };
        let ghost old_out = out@;
        if side == 0 {
            let x = a.pop().unwrap();
            proof {
                assert(x == ea[na - 1]);
                lemma_key_unused(eb, wb, nb as int, old_out, x.0@);
                assert(least(wb, x.0@, x.1));
                lemma_joined(wa, wb, x.0@, x.1);
                assert forall|j: int| 0 <= j < nb implies bytes_less(#[trigger] eb[j].0@, x.0@) by {
                    if j < nb - 1 {
                        lemma_bytes_transitive(eb[j].0@, eb[nb - 1].0@, x.0@);
                    }
                }
            }
            out.push(x);
        } else if side == 1 {
            let y = b.pop().unwrap();
            proof {
                assert(y == eb[nb - 1]);
                lemma_key_unused(ea, wa, na as int, old_out, y.0@);
                assert(least(wa, y.0@, y.1));
                lemma_joined(wa, wb, y.0@, y.1);
                assert forall|j: int| 0 <= j < na implies bytes_less(#[trigger] ea[j].0@, y.0@) by {
                    if j < na - 1 {
                        lemma_bytes_transitive(ea[j].0@, ea[na - 1].0@, y.0@);
                    }
                }
            }
            out.push(y);
        } else {
            let x = a.pop().unwrap();
            let y = b.pop().unwrap();
            let score = if x.1 <= y.1 {
                x.1
            } else {
                y.1
            };
            proof {
                assert(x == ea[na - 1]);
                assert(y == eb[nb - 1]);
                lemma_bytes_total(x.0@, y.0@);
                assert(x.0@ == y.0@);
                lemma_joined(wa, wb, x.0@, score);
            }
            out.push((x.0, score));
        }
        proof {
            let n = out@.len() - 1;
            assert forall|j: int| a@.len() <= j < ea.len() implies holds_key(out@, (#[trigger] ea[j]).0@) by {
                if j < na {
                    assert(out@[n].0@ == ea[j].0@);
                } else {
                    let i = choose|i: int| 0 <= i < old_out.len() && (#[trigger] old_out[i]).0@ == ea[j].0@;
                    assert(out@[i] == old_out[i]);
                }
            }
            assert forall|j: int| b@.len() <= j < eb.len() implies holds_key(out@, (#[trigger] eb[j]).0@) by {
                if j < nb {
                    assert(out@[n].0@ == eb[j].0@);
                } else {
                    let i = choose|i: int| 0 <= i < old_out.len() && (#[trigger] old_out[i]).0@ == eb[j].0@;
                    assert(out@[i] == old_out[i]);
                }
            }
        }
    }
    // out holds the entries highest key first: turn it around
    let ghost eo = out@;
    let mut r: Vec<(Vec<u8>, u64)> = Vec::new();
    while out.len() > 0
        invariant
            out@ == eo.take(out@.len() as int),
            out@.len() <= eo.len(),
            r@.len() + out@.len() == eo.len(),
            forall|i: int| 0 <= i < r@.len() ==> (#[trigger] r@[i]) == eo[eo.len() - 1 - i],
        decreases out@.len(),
    {
        let e = out.pop().unwrap();
        r.push(e);
    }
    proof {
        assert forall|i: int, j: int| #![trigger r@[i], r@[j]] 0 <= i < j < r@.len() implies bytes_less(r@[i].0@, r@[j].0@) by {
            assert(r@[i] == eo[eo.len() - 1 - i]);
            assert(r@[j] == eo[eo.len() - 1 - j]);
        }
        assert forall|i: int| 0 <= i < r@.len() implies scored(ws, (#[trigger] r@[i]).0@, r@[i].1) && least(ws, r@[i].0@, r@[i].1) by {
            assert(r@[i] == eo[eo.len() - 1 - i]);
        }
        assert forall|k: int| 0 <= k < ws.len() implies holds_key(r@, fst_key(#[trigger] ws[k])) by {
            let key = fst_key(ws[k]);
            if k < wa.len() {
                assert(ws[k] == wa[k]);
                assert(holds_key(ea, fst_key(wa[k])));
                let j = choose|j: int| 0 <= j < ea.len() && (#[trigger] ea[j]).0@ == fst_key(wa[k]);
                assert(holds_key(eo, ea[j].0@));
            } else {
                assert(ws[k] == wb[k - wa.len()]);
                assert(holds_key(eb, fst_key(wb[k - wa.len()])));
                let j = choose|j: int| 0 <= j < eb.len() && (#[trigger] eb[j]).0@ == fst_key(wb[k - wa.len()]);
                assert(holds_key(eo, eb[j].0@));
            }
            let i = choose|i: int| 0 <= i < eo.len() && (#[trigger] eo[i]).0@ == key;
            assert(r@[eo.len() - 1 - i] == eo[i]);
        }
    }
    r
}

/// The entries of a word-list map of the words `lo..hi` of `wordlist` (see
/// `entries_of`).
fn entries_between(wordlist: &[Word], lo: usize, hi: usize) -> (r: Vec<(Vec<u8>, u64)>)
    requires
        lo <= hi <= wordlist@.len(),
    ensures
        entries_of(r@, wordlist@.subrange(lo as int, hi as int)),
    decreases hi - lo,
{
    let ghost ws = wordlist@.subrange(lo as int, hi as int);
    if hi - lo == 0 {
        Vec::new()
    } else if hi - lo == 1 {
        let key = word_key(&wordlist[lo]);
        let score = wordlist[lo].score as u64;
        let mut r: Vec<(Vec<u8>, u64)> = Vec::new();
        r.push((key, score));
        proof {
            assert(ws[0] == wordlist@[lo as int]);
            assert(scored(ws, r@[0].0@, r@[0].1));
            assert(holds_key(r@, fst_key(ws[0])));
        }
        r
    } else {
        let mid = lo + (hi - lo) / 2;
        let a = entries_between(wordlist, lo, mid);
        let b = entries_between(wordlist, mid, hi);
        proof {
            assert(wordlist@.subrange(lo as int, mid as int) + wordlist@.subrange(mid as int, hi as int) =~= ws);
        }
        merge_entries(a, b, Ghost(wordlist@.subrange(lo as int, mid as int)), Ghost(wordlist@.subrange(mid as int, hi as int)))
    }
}

/// The entries that a word-list map of `wordlist` is built from (see `entries_of`):
/// for each key of a word (see `fst_key`), in increasing byte-wise order, the key
/// with the lowest score of the words that have it.
pub fn fst_entries(wordlist: &[Word]) -> (r: Vec<(Vec<u8>, u64)>)
    ensures
        entries_of(r@, wordlist@),
{
    let r = entries_between(wordlist, 0, wordlist.len());
    proof {
        assert(wordlist@.subrange(0, wordlist@.len() as int) =~= wordlist@);
    }
    r
}

} // verus!
