//! The reduced alphabet that words are matched in, and words themselves.
//!
//! Every character is folded into one of 28 symbols: the letters `a`-`z`
//! (case-insensitive), a word boundary (space or `_`), and "punctuation"
//! (anything else).
use unicode_normalization::char::is_combining_mark;
use unicode_normalization::UnicodeNormalization;
use vstd::prelude::*;

verus! {

/// A word's position in the frequency ordering: lower tranches hold more common words.
pub type Tranche = u8;

/// One symbol of the reduced alphabet: 0-25 are `a`-`z`, then punctuation, then a word end.
#[derive(PartialEq, Eq, Structural, PartialOrd, Ord, Copy, Clone, Debug, Hash)]
pub struct Char(u8);

/// The number of symbols in the alphabet.
pub const CHAR_COUNT: usize = 28;

/// The symbol of a character: `'A'..='Z'` and `'a'..='z'` are letters,
/// space and `_` end a word, anything else is punctuation.
pub open spec fn char_index(c: char) -> int {
    if 'A' <= c <= 'Z' {
        c as int - 'A' as int
    } else if 'a' <= c <= 'z' {
        c as int - 'a' as int
    } else if c == ' ' || c == '_' {
        27
    } else {
        26
    }
}

/// The symbol of a byte, by the same rules as `char_index`.
pub open spec fn byte_index(c: u8) -> int {
    if 65 <= c <= 90 {
        c - 65
    } else if 97 <= c <= 122 {
        c - 97
    } else if c == 32 || c == 95 {
        27
    } else {
        26
    }
}

/// The byte that stands for a symbol: `'` for punctuation, `_` for a word end,
/// and the lower-case letter otherwise.
pub open spec fn index_byte(i: int) -> u8 {
    if i == 26 {
        39u8
    } else if i == 27 {
        95u8
    } else {
        (97 + i) as u8
    }
}

impl Char {
    /// Any punctuation.
    pub fn punctuation() -> (r: Char)
        ensures
            r.index() == 26,
    {
        Char(26)
    }

    /// The end of a word (a space).
    pub fn word_end() -> (r: Char)
        ensures
            r.index() == 27,
    {
        Char(27)
    }

    #[verifier::type_invariant]
    spec fn inv(self) -> bool {
        self.0 < 28
    }

    /// The symbol's number, `0..28`.
    pub closed spec fn index(self) -> int {
        self.0 as int
    }

    /// The byte that stands for this symbol (a lower-case letter, `'` or `_`).
    pub fn into_u8(self) -> (r: u8)
        ensures
            r == index_byte(self.index()),
    {
        proof {
            use_type_invariant(self);
        }
        if self.0 == 26 {
            39u8
        } else if self.0 == 27 {
            95u8
        } else {
            97u8 + self.0
        }
    }

    /// The symbol's number, `0..28`.
    pub fn as_index(self) -> (r: usize)
        ensures
            r == self.index(),
            r < CHAR_COUNT,
    {
        proof {
            use_type_invariant(self);
        }
        self.0 as usize
    }

    /// The symbol with number `i`.
    pub fn from_index(i: usize) -> (r: Char)
        requires
            i < CHAR_COUNT,
        ensures
            r.index() == i,
    {
        Char(i as u8)
    }

    /// The character that stands for this symbol: an upper-case letter,
    /// `'` for punctuation or `_` for a word end.
    pub fn into_char(self) -> (r: char)
        ensures
            self.index() == 26 ==> r == '\'',
            self.index() == 27 ==> r == '_',
            self.index() < 26 ==> r as int == 'A' as int + self.index(),
    {
        proof {
            use_type_invariant(self);
        }
        if self.0 == 26 {
            '\''
        } else if self.0 == 27 {
            '_'
        } else {
            (65u8 + self.0) as char
        }
    }

    /// The symbol of a character (see `char_index`).
    pub fn from_char(c: char) -> (r: Char)
        ensures
            r.index() == char_index(c),
            r == char_symbol(c),
    {
        if 'A' <= c && c <= 'Z' {
            Char(((c as u32) - ('A' as u32)) as u8)
        } else if 'a' <= c && c <= 'z' {
            Char(((c as u32) - ('a' as u32)) as u8)
        } else if c == ' ' || c == '_' {
            Char::word_end()
        } else {
            Char::punctuation()
        }
    }

    /// The symbol of a byte (see `byte_index`).
    pub fn from_byte(c: u8) -> (r: Char)
        ensures
            r.index() == byte_index(c),
            r == byte_symbol(c),
    {
        if 65u8 <= c && c <= 90u8 {
            Char(c - 65u8)
        } else if 97u8 <= c && c <= 122u8 {
            Char(c - 97u8)
        } else if c == 32u8 || c == 95u8 {
            Char::word_end()
        } else {
            Char::punctuation()
        }
    }
}

impl From<char> for Char {
    fn from(c: char) -> (r: Char) {
        Char::from_char(c)
    }
}

impl vstd::std_specs::convert::FromSpecImpl<char> for Char {
    open spec fn obeys_from_spec() -> bool {
        true
    }

    open spec fn from_spec(v: char) -> Char {
        char_symbol(v)
    }
}

impl From<u8> for Char {
    fn from(c: u8) -> (r: Char) {
        Char::from_byte(c)
    }
}

impl vstd::std_specs::convert::FromSpecImpl<u8> for Char {
    open spec fn obeys_from_spec() -> bool {
        true
    }

    open spec fn from_spec(v: u8) -> Char {
        byte_symbol(v)
    }
}

/// The symbol of a character.
pub closed spec fn char_symbol(c: char) -> Char {
    Char(char_index(c) as u8)
}

/// The symbol of a byte.
pub closed spec fn byte_symbol(c: u8) -> Char {
    Char(byte_index(c) as u8)
}

pub proof fn lemma_char_symbol(c: char)
    ensures
        char_symbol(c).index() == char_index(c),
        0 <= char_index(c) < 28,
{
}

pub proof fn lemma_byte_symbol(c: u8)
    ensures
        byte_symbol(c).index() == byte_index(c),
        0 <= byte_index(c) < 28,
{
}

/// Two symbols are equal exactly when their numbers are.
pub proof fn lemma_char_eq(a: Char, b: Char)
    ensures
        (a == b) <==> (a.index() == b.index()),
{
}

/// Letters are read without regard to case: the `i`-th lower-case letter and the
/// `i`-th upper-case letter are both the `i`-th symbol.
pub proof fn lemma_case_insensitive(i: int)
    requires
        0 <= i < 26,
    ensures
        char_symbol(('a' as int + i) as char) == char_symbol(('A' as int + i) as char),
        char_symbol(('a' as int + i) as char).index() == i,
{
    assert(('a' as int + i) as char as int == 'a' as int + i);
    assert(('A' as int + i) as char as int == 'A' as int + i);
}

/// A space and `_` both end a word, and every character that is neither a letter
/// nor one of these is punctuation.
pub proof fn lemma_other_symbols(c: char)
    ensures
        (c == ' ' || c == '_') ==> char_symbol(c).index() == 27,
        !('A' <= c <= 'Z') && !('a' <= c <= 'z') && c != ' ' && c != '_' ==> char_symbol(c).index() == 26,
{
}

} // verus!

verus! {

/// Bit `j` of a 32-bit word.
pub open spec fn bit32(x: u32, j: int) -> bool {
    (x >> (j as u32)) & 1u32 == 1u32
}

/// The symbols whose bits are set in `x`.
pub open spec fn symbols(x: u32) -> Set<int> {
    Set::new(|i: int| 0 <= i < 28 && bit32(x, i))
}

/// The 26 letters.
pub open spec fn letter_set() -> Set<int> {
    Set::new(|i: int| 0 <= i < 26)
}

/// Every symbol.
pub open spec fn all_set() -> Set<int> {
    Set::new(|i: int| 0 <= i < 28)
}

/// The symbols of the characters from `low` to `high` (inclusive).
pub open spec fn range_symbols(low: char, high: char) -> Set<int> {
    Set::new(|i: int| exists|c: char| low <= c <= high && #[trigger] char_index(c) == i)
}

proof fn lemma_bit32_or(x: u32, y: u32, j: u32)
    requires
        j < 32,
    ensures
        bit32(x | y, j as int) == (bit32(x, j as int) || bit32(y, j as int)),
{
    assert(((x | y) >> j) & 1u32 == 1u32 <==> ((x >> j) & 1u32 == 1u32 || (y >> j) & 1u32 == 1u32))
        by (bit_vector);
}

proof fn lemma_bit32_and(x: u32, y: u32, j: u32)
    requires
        j < 32,
    ensures
        bit32(x & y, j as int) == (bit32(x, j as int) && bit32(y, j as int)),
{
    assert(((x & y) >> j) & 1u32 == 1u32 <==> ((x >> j) & 1u32 == 1u32 && (y >> j) & 1u32 == 1u32))
        by (bit_vector);
}

proof fn lemma_bit32_and_not(x: u32, y: u32, j: u32)
    requires
        j < 32,
    ensures
        bit32(x & !y, j as int) == (bit32(x, j as int) && !bit32(y, j as int)),
{
    assert(((x & !y) >> j) & 1u32 == 1u32 <==> ((x >> j) & 1u32 == 1u32 && (y >> j) & 1u32
        != 1u32)) by (bit_vector);
}

proof fn lemma_bit32_xor(x: u32, y: u32, j: u32)
    requires
        j < 32,
    ensures
        bit32(x ^ y, j as int) == (bit32(x, j as int) != bit32(y, j as int)),
{
    assert(((x ^ y) >> j) & 1u32 == 1u32 <==> (((x >> j) & 1u32 == 1u32) != ((y >> j) & 1u32
        == 1u32))) by (bit_vector);
}

proof fn lemma_bit32_single(s: u32, j: u32)
    requires
        j < 32,
        s < 32,
    ensures
        bit32(1u32 << s, j as int) == (j == s),
{
    assert(((1u32 << s) >> j) & 1u32 == 1u32 <==> j == s) by (bit_vector)
        requires
            j < 32,
            s < 32,
    ;
}

/// The bits below 28 of a mask with only low bits set.
proof fn lemma_bit32_mask(n: u32, j: u32)
    requires
        j < 32,
        n <= 28,
    ensures
        bit32(((1u32 << n) - 1) as u32, j as int) == (j < n),
{
    assert(((((1u32 << n) - 1) as u32) >> j) & 1u32 == 1u32 <==> j < n) by (bit_vector)
        requires
            j < 32,
            n <= 28,
    ;
}

proof fn lemma_bit32_high(x: u32, j: u32)
    requires
        x < 0x1000_0000,
        28 <= j < 32,
    ensures
        !bit32(x, j as int),
{
    assert((x >> j) & 1u32 != 1u32) by (bit_vector)
        requires
            x < 0x1000_0000,
            28 <= j < 32,
    ;
}

/// A 28-bit word is zero exactly when it holds no symbol.
proof fn lemma_symbols_zero(x: u32)
    requires
        x < 0x1000_0000,
    ensures
        (x == 0) <==> symbols(x) == Set::<int>::empty(),
{
    broadcast use vstd::std_specs::bits::axiom_u32_trailing_zeros;

    if x == 0 {
        assert forall|i: int| !#[trigger] symbols(x).contains(i) by {
            if 0 <= i < 28 {
                let j = i as u32;
                assert((0u32 >> j) & 1u32 != 1u32) by (bit_vector);
            }
        }
        assert(symbols(x) =~= Set::<int>::empty());
    } else {
        let t = x.trailing_zeros();
        assert(0 <= t < 32);
        if t >= 28 {
            lemma_bit32_high(x, t);
        }
        assert(symbols(x).contains(t as int));
    }
}

/// The set with its letters swapped in and out: the letters it lacks, and what it
/// holds beside letters.
pub open spec fn inverted(s: Set<int>) -> Set<int> {
    letter_set().difference(s).union(s.difference(letter_set()))
}

/// Swapping the letters twice gives back the set.
pub proof fn lemma_invert_twice(s: Set<int>)
    ensures
        inverted(inverted(s)) == s,
{
    assert(inverted(inverted(s)) =~= s);
}

/// A set of symbols, as a 28-bit mask.
#[derive(Copy, Clone, PartialEq, Eq, Structural, Hash, Debug)]
pub struct CharBitset(u32);

impl View for CharBitset {
    type V = Set<int>;

    closed spec fn view(&self) -> Set<int> {
        symbols(self.0)
    }
}

impl CharBitset {
    #[verifier::type_invariant]
    spec fn inv(self) -> bool {
        self.0 < 0x1000_0000
    }

    /// No symbols.
    pub fn empty() -> (r: CharBitset)
        ensures
            r@ == Set::<int>::empty(),
    {
        let r = CharBitset(0);
        proof {
            lemma_symbols_zero(0);
        }
        r
    }

    /// The 26 letters (what `.` matches).
    pub fn letters() -> (r: CharBitset)
        ensures
            r@ == letter_set(),
    {
        let r = CharBitset(0x3ff_ffff);
        proof {
            assert(0x3ff_ffffu32 == ((1u32 << 26u32) - 1) as u32) by (bit_vector);
            assert forall|i: int| #[trigger] r@.contains(i) == letter_set().contains(i) by {
                if 0 <= i < 28 {
                    lemma_bit32_mask(26, i as u32);
                }
            }
            assert(r@ =~= letter_set());
        }
        r
    }

    /// The letters except `i`.
    pub fn letters_but_i() -> (r: CharBitset)
        ensures
            r@ == letter_set().remove(8),
    {
        let r = CharBitset(0x3ff_feff);
        proof {
            assert(0x3ff_feffu32 == ((1u32 << 26u32) - 1) as u32 & !(1u32 << 8u32)) by (bit_vector);
            assert forall|i: int| #[trigger] r@.contains(i) == letter_set().remove(8).contains(i) by {
                if 0 <= i < 28 {
                    lemma_bit32_mask(26, i as u32);
                    lemma_bit32_single(8, i as u32);
                    lemma_bit32_and_not(((1u32 << 26u32) - 1) as u32, 1u32 << 8u32, i as u32);
                }
            }
            assert(r@ =~= letter_set().remove(8));
        }
        r
    }

    /// Every symbol.
    pub fn all() -> (r: CharBitset)
        ensures
            r@ == all_set(),
    {
        let r = CharBitset(0xfff_ffff);
        proof {
            assert(0xfff_ffffu32 == ((1u32 << 28u32) - 1) as u32) by (bit_vector);
            assert forall|i: int| #[trigger] r@.contains(i) == all_set().contains(i) by {
                if 0 <= i < 28 {
                    lemma_bit32_mask(28, i as u32);
                }
            }
            assert(r@ =~= all_set());
        }
        r
    }

    /// The set holding one symbol.
    pub fn from_char_symbol(c: Char) -> (r: CharBitset)
        ensures
            r@ == Set::<int>::empty().insert(c.index()),
            r == symbol_set(c),
    {
        proof {
            use_type_invariant(c);
        }
        let s = c.as_index() as u32;
        proof {
            assert(s < 28 ==> (1u32 << s) < 0x1000_0000u32) by (bit_vector);
        }
        let r = CharBitset(1u32 << s);
        proof {
            assert forall|i: int| #[trigger] r@.contains(i) == Set::<int>::empty().insert(
                c.index(),
            ).contains(i) by {
                if 0 <= i < 28 {
                    lemma_bit32_single(s, i as u32);
                }
            }
            assert(r@ =~= Set::<int>::empty().insert(c.index()));
        }
        r
    }

    /// The symbols of the characters from `low` to `high` (inclusive).
    pub fn from_range(low: char, high: char) -> (r: CharBitset)
        ensures
            r@ == range_symbols(low, high),
    {
        let mut x: u32 = 0;
        let mut code: u32 = low as u32;
        let end: u32 = high as u32;
        proof {
            lemma_symbols_zero(0);
            assert(symbols(0) =~= Set::new(
                |i: int| exists|c: char| low <= c && (c as int) < code && #[trigger] char_index(c) == i,
            ));
        }
        while code <= end
            invariant
                low as u32 <= code,
                code <= end + 1 || code == low as u32,
                end == high as u32,
                code <= 0x11_0000,
                x < 0x1000_0000,
                symbols(x) == Set::new(
                    |i: int| exists|c: char| low <= c && (c as int) < code && #[trigger] char_index(c) == i,
                ),
            decreases 0x11_0000 - code,
        {
            let ghost before = symbols(x);
            if code < 0xd800 || code > 0xdfff {
                proof {
                    vstd::utf8::char_is_scalar(high);
                }
                let c = Char::from_code(code);
                let bit = CharBitset::from_char_symbol(c);
                proof {
                    use_type_invariant(bit);
                    let b = bit.0;
                    assert(x < 0x1000_0000 && b < 0x1000_0000 ==> (x | b) < 0x1000_0000u32)
                        by (bit_vector);
                    assert forall|i: int| #[trigger] symbols(x | bit.0).contains(i) == (
                    before.contains(i) || bit@.contains(i)) by {
                        if 0 <= i < 28 {
                            lemma_bit32_or(x, bit.0, i as u32);
                        }
                    }
                }
                x = x | bit.0;
                proof {
                    let ch = code as char;
                    assert(ch as int == code);
                    assert(char_index(ch) == c.index());
                    assert forall|i: int| #[trigger] symbols(x).contains(i) == (exists|c2: char|
                        low <= c2 && (c2 as int) < code + 1 && #[trigger] char_index(c2) == i) by {
                        if symbols(x).contains(i) {
                            if i == c.index() {
                                assert(low <= ch && (ch as u32) < code + 1 && char_index(ch) == i);
                            } else {
                                assert(before.contains(i));
                            }
                        }
                        if exists|c2: char|
                            low <= c2 && (c2 as int) < code + 1 && #[trigger] char_index(c2) == i {
                            let c2 = choose|c2: char|
                                low <= c2 && (c2 as int) < code + 1 && #[trigger] char_index(c2)
                                    == i;
                            if (c2 as int) < code {
                                assert(before.contains(i));
                            } else {
                                assert(c2 as int == ch as int);
                                assert(c2 == ch);
                            }
                        }
                    }
                    assert(symbols(x) =~= Set::new(
                        |i: int| exists|c2: char|
                            low <= c2 && (c2 as int) < code + 1 && #[trigger] char_index(c2) == i,
                    ));
                }
            } else {
                proof {
                    assert forall|i: int| #[trigger] symbols(x).contains(i) == (exists|c2: char|
                        low <= c2 && (c2 as int) < code + 1 && #[trigger] char_index(c2) == i) by {
                        if exists|c2: char|
                            low <= c2 && (c2 as int) < code + 1 && #[trigger] char_index(c2) == i {
                            let c2 = choose|c2: char|
                                low <= c2 && (c2 as int) < code + 1 && #[trigger] char_index(c2)
                                    == i;
                            vstd::utf8::char_is_scalar(c2);
                            assert((c2 as int) < code);
                        }
                    }
                    assert(symbols(x) =~= Set::new(
                        |i: int| exists|c2: char|
                            low <= c2 && (c2 as int) < code + 1 && #[trigger] char_index(c2) == i,
                    ));
                }
            }
            code = code + 1;
        }
        let r = CharBitset(x);
        proof {
            assert(r@ =~= range_symbols(low, high));
        }
        r
    }

    /// Swap letters in and out of the set; punctuation and word ends are kept as they are.
    pub fn invert(&mut self)
        ensures
            final(self)@ == inverted(old(self)@),
    {
        proof {
            use_type_invariant(&*self);
        }
        let m: u32 = 0x3ff_ffff;
        let x = self.0;
        proof {
            assert(x < 0x1000_0000 ==> (x ^ 0x3ff_ffffu32) < 0x1000_0000u32) by (bit_vector);
        }
        self.0 = x ^ m;
        proof {
            assert(0x3ff_ffffu32 == ((1u32 << 26u32) - 1) as u32) by (bit_vector);
            assert forall|i: int| #[trigger] symbols(x ^ m).contains(i) == letter_set().difference(
                symbols(x),
            ).union(symbols(x).difference(letter_set())).contains(i) by {
                if 0 <= i < 28 {
                    lemma_bit32_xor(x, m, i as u32);
                    lemma_bit32_mask(26, i as u32);
                }
            }
            assert(self@ =~= letter_set().difference(old(self)@).union(
                old(self)@.difference(letter_set()),
            ));
        }
    }

    /// Add the symbols of `other`.
    pub fn union_with(&mut self, other: Self)
        ensures
            final(self)@ == old(self)@.union(other@),
    {
        proof {
            use_type_invariant(&*self);
            use_type_invariant(other);
        }
        let x = self.0;
        let y = other.0;
        proof {
            assert(x < 0x1000_0000 && y < 0x1000_0000 ==> (x | y) < 0x1000_0000u32) by (bit_vector);
        }
        self.0 = x | y;
        proof {
            assert forall|i: int| #[trigger] symbols(x | y).contains(i) == symbols(x).union(
                symbols(y),
            ).contains(i) by {
                if 0 <= i < 28 {
                    lemma_bit32_or(x, y, i as u32);
                }
            }
            assert(self@ =~= old(self)@.union(other@));
        }
    }

    /// Add the symbols of `other` (the same as `union_with`).
    pub fn union(&mut self, other: Self)
        ensures
            final(self)@ == old(self)@.union(other@),
    {
        self.union_with(other)
    }

    /// Remove the symbols of `other`.
    pub fn difference_with(&mut self, other: Self)
        ensures
            final(self)@ == old(self)@.difference(other@),
    {
        proof {
            use_type_invariant(&*self);
            use_type_invariant(other);
        }
        let x = self.0;
        let y = other.0;
        proof {
            assert(x < 0x1000_0000 ==> (x & !y) < 0x1000_0000u32) by (bit_vector);
        }
        self.0 = x & !y;
        proof {
            assert forall|i: int| #[trigger] symbols(x & !y).contains(i) == symbols(x).difference(
                symbols(y),
            ).contains(i) by {
                if 0 <= i < 28 {
                    lemma_bit32_and_not(x, y, i as u32);
                }
            }
            assert(self@ =~= old(self)@.difference(other@));
        }
    }

    /// Whether the two sets hold the same symbols.
    pub fn same_set(&self, other: &Self) -> (r: bool)
        ensures
            r == (self@ == other@),
    {
        let mut a = *self;
        a.difference_with(*other);
        let mut b = *other;
        b.difference_with(*self);
        let ae = a.is_empty();
        let be = b.is_empty();
        let r = ae && be;
        proof {
            if r {
                assert forall|i: int| #[trigger] self@.contains(i) == other@.contains(i) by {
                    assert(!a@.contains(i) && !b@.contains(i));
                }
                assert(self@ =~= other@);
            } else if ae {
                assert(!(b@ =~= Set::<int>::empty()));
                let i = choose|i: int| b@.contains(i);
                assert(!self@.contains(i) && other@.contains(i));
            } else {
                assert(!(a@ =~= Set::<int>::empty()));
                let i = choose|i: int| a@.contains(i);
                assert(self@.contains(i) && !other@.contains(i));
            }
        }
        r
    }

    /// Whether the set holds no symbol.
    pub fn is_empty(&self) -> (r: bool)
        ensures
            r == (self@ == Set::<int>::empty()),
    {
        let all = CharBitset::all();
        let r = !self.is_intersecting(all);
        proof {
            if r {
                assert forall|i: int| !#[trigger] self@.contains(i) by {
                    if self@.contains(i) {
                        assert(all@.contains(i));
                    }
                }
                assert(self@ =~= Set::<int>::empty());
            }
        }
        r
    }

    /// Whether the two sets share a symbol.
    pub fn is_intersecting(&self, other: Self) -> (r: bool)
        ensures
            r == !self@.disjoint(other@),
    {
        proof {
            use_type_invariant(*self);
            use_type_invariant(other);
        }
        let x = self.0;
        let y = other.0;
        proof {
            assert(x < 0x1000_0000 ==> (x & y) < 0x1000_0000u32) by (bit_vector);
            lemma_symbols_zero(x & y);
            assert forall|i: int| #[trigger] symbols(x & y).contains(i) == (symbols(x).contains(i)
                && symbols(y).contains(i)) by {
                if 0 <= i < 28 {
                    lemma_bit32_and(x, y, i as u32);
                }
            }
            if (x & y) == 0 {
                assert forall|i: int| !(#[trigger] symbols(x).contains(i) && symbols(y).contains(i))
                    by {
                    assert(!symbols(x & y).contains(i));
                }
            } else {
                assert(!(symbols(x & y) =~= Set::<int>::empty()));
                let i = choose|i: int| #[trigger] symbols(x & y).contains(i);
                assert(symbols(x).contains(i) && symbols(y).contains(i));
            }
        }
        (x & y) != 0
    }

    /// Whether symbol `chr` is in the set.
    pub fn contains(&self, chr: Char) -> (r: bool)
        ensures
            r == self@.contains(chr.index()),
    {
        let c = CharBitset::from_char_symbol(chr);
        let r = self.is_intersecting(c);
        proof {
            if r {
                let i = choose|i: int| self@.contains(i) && c@.contains(i);
                assert(i == chr.index());
            } else {
                assert(c@.contains(chr.index()));
            }
        }
        r
    }
}

impl Char {
    /// The symbol of a character, given by its code point.
    fn from_code(code: u32) -> (r: Char)
        requires
            code < 0xd800 || 0xdfff < code <= 0x10_ffff,
        ensures
            r.index() == char_index(code as char),
    {
        if 65 <= code && code <= 90 {
            Char((code - 65) as u8)
        } else if 97 <= code && code <= 122 {
            Char((code - 97) as u8)
        } else if code == 32 || code == 95 {
            Char::word_end()
        } else {
            Char::punctuation()
        }
    }
}

/// The set holding only symbol `c`.
pub closed spec fn symbol_set(c: Char) -> CharBitset {
    CharBitset(1u32 << (c.0 as u32))
}

impl vstd::std_specs::convert::FromSpecImpl<Char> for CharBitset {
    open spec fn obeys_from_spec() -> bool {
        true
    }

    open spec fn from_spec(v: Char) -> CharBitset {
        symbol_set(v)
    }
}

impl vstd::std_specs::convert::FromSpecImpl<char> for CharBitset {
    open spec fn obeys_from_spec() -> bool {
        true
    }

    open spec fn from_spec(v: char) -> CharBitset {
        symbol_set(char_symbol(v))
    }
}

impl From<Char> for CharBitset {
    fn from(c: Char) -> (r: CharBitset) {
        CharBitset::from_char_symbol(c)
    }
}

impl From<char> for CharBitset {
    fn from(c: char) -> (r: CharBitset) {
        CharBitset::from_char_symbol(Char::from_char(c))
    }
}

} // verus!

verus! {

/// The symbol that ends every word.
pub closed spec fn word_end_char() -> Char {
    Char(27)
}

pub proof fn lemma_word_end_char()
    ensures
        word_end_char().index() == 27,
{
}

/// The compatibility decomposition (Unicode NFKD) of a sequence of characters.
pub uninterp spec fn spec_nfkd(s: Seq<char>) -> Seq<char>;

/// Whether a character is a combining mark (`General_Category=Mark`).
pub uninterp spec fn spec_is_combining_mark(c: char) -> bool;

/// The upper-case mapping of a character (`char::to_uppercase`).
pub uninterp spec fn spec_to_uppercase(c: char) -> Seq<char>;

/// The lower-case mapping of a character (`char::to_lowercase`).
pub uninterp spec fn spec_to_lowercase(c: char) -> Seq<char>;

/// Runs `unicode_normalization::UnicodeNormalization::nfkd` over the characters of
/// `text` and collects the result; the result is named, not described.
#[verifier::external_body]
fn nfkd(text: &str) -> (r: Vec<char>)
    ensures
        r@ == spec_nfkd(text@),
{
    text.nfkd().collect()
}

/// Calls `unicode_normalization::char::is_combining_mark`; the result is named, not described.
#[verifier::external_body]
fn combining_mark(c: char) -> (r: bool)
    ensures
        r == spec_is_combining_mark(c),
{
    is_combining_mark(c)
}

/// Collects `char::to_uppercase`; the result is named, not described.
#[verifier::external_body]
fn to_uppercase(c: char) -> (r: Vec<char>)
    ensures
        r@ == spec_to_uppercase(c),
{
    c.to_uppercase().collect()
}

/// Collects `char::to_lowercase`; the result is named, not described.
#[verifier::external_body]
fn to_lowercase(c: char) -> (r: Vec<char>)
    ensures
        r@ == spec_to_lowercase(c),
{
    c.to_lowercase().collect()
}

/// The ligatures `æ` and `œ` are spelled out as two letters.
pub open spec fn ligature(c: char) -> Seq<char> {
    if c == 'æ' || c == 'Æ' {
        seq!['a', 'e']
    } else if c == 'œ' || c == 'Œ' {
        seq!['o', 'e']
    } else {
        seq![c]
    }
}

/// Each character replaced by its upper-case mapping.
pub open spec fn upper_all(s: Seq<char>) -> Seq<char>
    decreases s.len(),
{
    if s.len() == 0 {
        seq![]
    } else {
        upper_all(s.drop_last()) + spec_to_uppercase(s.last())
    }
}

/// Each character replaced by its lower-case mapping.
pub open spec fn lower_all(s: Seq<char>) -> Seq<char>
    decreases s.len(),
{
    if s.len() == 0 {
        seq![]
    } else {
        lower_all(s.drop_last()) + spec_to_lowercase(s.last())
    }
}

/// The symbols that one decomposed character contributes to a spelling:
/// none for a combining mark; otherwise its ligature expansion, case-folded
/// (upper-cased, then lower-cased), each character mapped to its symbol.
pub open spec fn char_spelling(c: char) -> Seq<Char> {
    if spec_is_combining_mark(c) {
        seq![]
    } else {
        lower_all(upper_all(ligature(c))).map_values(|x: char| char_symbol(x))
    }
}

/// The symbols of a decomposed string, without the final word end.
pub open spec fn spelling(s: Seq<char>) -> Seq<Char>
    decreases s.len(),
{
    if s.len() == 0 {
        seq![]
    } else {
        spelling(s.drop_last()) + char_spelling(s.last())
    }
}

/// The spelling of a word's text: its decomposition, spelled, then a word end.
pub open spec fn word_chars(text: Seq<char>) -> Seq<Char> {
    spelling(spec_nfkd(text)).push(word_end_char())
}

/// Every word's spelling ends with a word end.
pub proof fn lemma_word_chars_end(text: Seq<char>)
    ensures
        word_chars(text).len() >= 1,
        word_chars(text).last() == word_end_char(),
        word_chars(text).last().index() == 27,
{
}

/// The characters of `s` with a mapping applied to each, in order.
fn map_each(s: &Vec<char>, upper: bool) -> (r: Vec<char>)
    ensures
        upper ==> r@ == upper_all(s@),
        !upper ==> r@ == lower_all(s@),
{
    let mut r: Vec<char> = Vec::new();
    let mut i: usize = 0;
    while i < s.len()
        invariant
            0 <= i <= s@.len(),
            upper ==> r@ == upper_all(s@.subrange(0, i as int)),
            !upper ==> r@ == lower_all(s@.subrange(0, i as int)),
        decreases s@.len() - i,
    {
        let mut m = if upper {
            to_uppercase(s[i])
        } else {
            to_lowercase(s[i])
        };
        proof {
            let t = s@.subrange(0, i + 1);
            assert(t.drop_last() =~= s@.subrange(0, i as int));
            assert(t.last() == s@[i as int]);
        }
        r.append(&mut m);
        i += 1;
    }
    assert(s@.subrange(0, s@.len() as int) =~= s@);
    r
}

/// Spell a decomposed string (see `spelling`), ending it with a word end.
pub fn spell(decomposed: &[char]) -> (r: Vec<Char>)
    ensures
        r@ == spelling(decomposed@).push(word_end_char()),
{
    let mut r: Vec<Char> = Vec::new();
    let mut i: usize = 0;
    while i < decomposed.len()
        invariant
            0 <= i <= decomposed@.len(),
            r@ == spelling(decomposed@.subrange(0, i as int)),
        decreases decomposed@.len() - i,
    {
        let c = decomposed[i];
        let ghost before = r@;
        if !combining_mark(c) {
            let expanded: Vec<char> = if c == 'æ' || c == 'Æ' {
                vec!['a', 'e']
            } else if c == 'œ' || c == 'Œ' {
                vec!['o', 'e']
            } else {
                vec![c]
            };
            assert(expanded@ =~= ligature(c));
            let upper = map_each(&expanded, true);
            let lower = map_each(&upper, false);
            let mut j: usize = 0;
            while j < lower.len()
                invariant
                    0 <= j <= lower@.len(),
                    r@ == before + lower@.subrange(0, j as int).map_values(|x: char| char_symbol(x)),
                decreases lower@.len() - j,
            {
                r.push(Char::from_char(lower[j]));
                proof {
                    assert(lower@.subrange(0, j + 1).map_values(|x: char| char_symbol(x)) =~= lower@.subrange(
                        0,
                        j as int,
                    ).map_values(|x: char| char_symbol(x)).push(char_symbol(lower@[j as int])));
                }
                j += 1;
            }
            assert(lower@.subrange(0, lower@.len() as int) =~= lower@);
        }
        proof {
            let t = decomposed@.subrange(0, i + 1);
            assert(t.drop_last() =~= decomposed@.subrange(0, i as int));
            assert(t.last() == c);
            assert(r@ =~= spelling(t));
        }
        i += 1;
    }
    assert(decomposed@.subrange(0, decomposed@.len() as int) =~= decomposed@);
    let e = Char::word_end();
    assert(e == word_end_char());
    r.push(e);
    r
}

/// A word from a wordlist.
#[derive(Debug, Clone, PartialEq, Eq, PartialOrd, Ord)]
pub struct Word {
    /// The frequency class of the word (lower is more common).
    pub tranche: Tranche,
    /// The word spelled in the reduced alphabet, ending with a word end.
    pub chars: Vec<Char>,
    /// The word as it was written.
    pub text: String,
    /// A score used for ranking results.
    pub score: u32,
}

impl Word {
    /// A word with its text spelled in the reduced alphabet (see `word_chars`).
    pub fn new(text: &str, tranche: Tranche, score: u32) -> (r: Word)
        ensures
            r.text@ == text@,
            r.chars@ == word_chars(text@),
            r.tranche == tranche,
            r.score == score,
    {
        let decomposed = nfkd(text);
        let chars = spell(decomposed.as_slice());
        Word { text: text.to_owned(), chars, tranche, score }
    }
}

} // verus!

verus! {

/// Indexed access to a list of words.
pub trait WordListRef<'word> {
    /// The words, in order.
    spec fn spec_words(&self) -> Seq<Word>;

    /// The number of words.
    fn size(&self) -> (r: usize)
        ensures
            r == self.spec_words().len(),
    ;

    /// The word at `index`.
    fn borrow(&self, index: usize) -> (r: &'word Word)
        requires
            index < self.spec_words().len(),
        ensures
            *r == self.spec_words()[index as int],
    ;
}

impl<'word, 'a> WordListRef<'word> for &'a [&'word Word] {
    open spec fn spec_words(&self) -> Seq<Word> {
        self@.map_values(|w: &'word Word| *w)
    }

    fn size(&self) -> (r: usize) {
        self.len()
    }

    fn borrow(&self, index: usize) -> (r: &'word Word) {
        self[index]
    }
}

impl<'word> WordListRef<'word> for &'word [Word] {
    open spec fn spec_words(&self) -> Seq<Word> {
        self@
    }

    fn size(&self) -> (r: usize) {
        self.len()
    }

    fn borrow(&self, index: usize) -> (r: &'word Word) {
        &self[index]
    }
}

} // verus!
