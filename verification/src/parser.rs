//! Noodle expressions and queries: their syntax trees and their grammar.
//!
//! An expression is a regular-expression-like pattern over the reduced alphabet,
//! followed by flags:
//!
//! ```text
//! expression    := (alternatives | sequence) flag*
//! alternatives  := sequence ('|' sequence)+
//! sequence      := item+
//! item          := number | term repetition?
//! term          := character | '.' | class | group | partial_group | anagram
//! group         := '(' (alternatives | sequence) ')'
//! partial_group := '(' item+ ':?' ')'
//! repetition    := '?' | '*' | '+' | '{' number '}' | '{' number ',' '}'
//!                | '{' ',' number '}' | '{' number ',' number '}'
//! class         := '[' '^'? class_item+ ']'          (no spaces inside)
//! class_item    := '.' | character '-' character | character
//! anagram       := '<' character+ ('+' number? | '-' number?)? '>'   (no spaces inside)
//! flag          := '!' ('_' | '\'' | '-' | number)                     (no spaces inside)
//! character     := 'a'-'z' | 'A'-'Z' | '\'' | '_'
//! number        := digit+
//! ```
//!
//! Spaces, tabs and comments (`// ...` to the end, `/* ... */`) may stand between tokens.
//! The grammar is ordered (a PEG): where an item or a repetition does not parse,
//! the sequence ends before it.
use crate::words::{char_index, char_symbol, letter_set, range_symbols, Char, CharBitset};
use vstd::prelude::*;

verus! {

/// How an anagram constraint relates a word to its letter bank.
#[derive(Debug, Clone, Copy, PartialEq, Eq, Structural)]
pub enum AnagramKind {
    /// Exactly the letters of the bank.
    Standard,
    /// At least the letters of the bank.
    Super,
    /// At most the letters of the bank.
    Sub,
    /// The letters of the bank plus this many more.
    TransAdd(usize),
    /// The letters of the bank but this many.
    TransDelete(usize),
}

/// A syntax tree of an expression.
#[derive(Debug, PartialEq, Eq)]
pub enum Ast {
    /// One symbol out of a set.
    CharClass(CharBitset),
    /// Any one of the alternatives.
    Alternatives(Vec<Ast>),
    /// Each term in turn.
    Sequence(Vec<Ast>),
    /// `term` repeated between `min` and `max` times (no upper bound if `max` is `None`).
    Repetition { term: Box<Ast>, min: usize, max: Option<usize> },
    /// An anagram constraint on the letters of `bank`.
    Anagram { kind: AnagramKind, bank: Vec<Char> },
}

/// The mathematical form of an `Ast`.
pub enum AstView {
    CharClass(Set<int>),
    Alternatives(Seq<AstView>),
    Sequence(Seq<AstView>),
    Repetition { term: Box<AstView>, min: usize, max: Option<usize> },
    Anagram { kind: AnagramKind, bank: Seq<Char> },
}

/// The views of a list of trees.
pub open spec fn ast_list_view(s: Seq<Ast>) -> Seq<AstView>
    decreases s,
{
    if s.len() == 0 {
        seq![]
    } else {
        ast_list_view(s.drop_last()).push(s.last()@)
    }
}

impl View for Ast {
    type V = AstView;

    open spec fn view(&self) -> AstView
        decreases self,
    {
        match self {
            Ast::CharClass(c) => AstView::CharClass(c@),
            Ast::Alternatives(v) => AstView::Alternatives(ast_list_view(v@)),
            Ast::Sequence(v) => AstView::Sequence(ast_list_view(v@)),
            Ast::Repetition { term, min, max } => AstView::Repetition {
                term: Box::new((**term)@),
                min: *min,
                max: *max,
            },
            Ast::Anagram { kind, bank } => AstView::Anagram { kind: *kind, bank: bank@ },
        }
    }
}

pub proof fn lemma_ast_list_view(s: Seq<Ast>)
    ensures
        ast_list_view(s).len() == s.len(),
        forall|i: int| 0 <= i < s.len() ==> #[trigger] ast_list_view(s)[i] == s[i]@,
    decreases s.len(),
{
    if s.len() > 0 {
        lemma_ast_list_view(s.drop_last());
        assert(ast_list_view(s) == ast_list_view(s.drop_last()).push(s.last()@));
    }
}

/// Options that an expression's flags set (`None` where no flag or symbol sets one).
#[derive(Debug, Clone, Copy, PartialEq, Eq, Structural)]
pub struct ExpressionOptions {
    /// Match word ends (`_`, space) explicitly.
    pub explicit_word_boundaries: Option<bool>,
    /// Match punctuation (`'`) explicitly.
    pub explicit_punctuation: Option<bool>,
    /// The edit distance allowed in a match.
    pub fuzz: Option<usize>,
}

/// A parsed expression.
#[derive(Debug, Clone, PartialEq, Eq)]
pub struct ExpressionAst {
    /// The text that the expression was parsed from.
    pub original_text: Option<String>,
    pub root: Ast,
    pub options: ExpressionOptions,
}

/// Where a query or an expression stopped parsing: the line (from 1), and the
/// column of the first character that the grammar could not take (from 1).
#[derive(Debug, Clone, Copy, PartialEq, Eq, Structural)]
pub struct ParseError {
    pub line: usize,
    pub column: usize,
}

// ---------------------------------------------------------------------------
// Characters.

pub open spec fn is_space(c: char) -> bool {
    c == ' ' || c == '\t'
}

/// A literal symbol in an expression.
pub open spec fn is_character(c: char) -> bool {
    ('a' <= c <= 'z') || ('A' <= c <= 'Z') || c == '\'' || c == '_'
}

pub open spec fn is_digit(c: char) -> bool {
    '0' <= c <= '9'
}

/// The set holding the symbol of `c`.
pub open spec fn char_set(c: char) -> Set<int> {
    Set::empty().insert(char_index(c))
}

pub open spec fn digit_value(c: char) -> int {
    c as int - '0' as int
}

// ---------------------------------------------------------------------------
// The grammar, as functions from a position to what parses there and where it ends.

/// The end of the block comment whose body starts at `pos` (just past its `*/`).
pub open spec fn comment_end(s: Seq<char>, pos: int) -> Option<int>
    decreases s.len() - pos,
{
    if pos < 0 || pos + 1 >= s.len() {
        None
    } else if s[pos] == '*' && s[pos + 1] == '/' {
        Some(pos + 2)
    } else {
        comment_end(s, pos + 1)
    }
}

/// The position after any spaces and comments at `pos`.
pub open spec fn skip(s: Seq<char>, pos: int) -> int
    decreases s.len() - pos,
{
    if pos < 0 || pos >= s.len() {
        pos
    } else if is_space(s[pos]) {
        skip(s, pos + 1)
    } else if pos + 1 < s.len() && s[pos] == '/' && s[pos + 1] == '/' {
        s.len() as int
    } else if pos + 1 < s.len() && s[pos] == '/' && s[pos + 1] == '*' {
        match comment_end(s, pos + 2) {
            Some(e) => if pos < e <= s.len() {
                skip(s, e)
            } else {
                pos
            },
            None => pos,
        }
    } else {
        pos
    }
}

/// The end of the run of digits at `pos`.
pub open spec fn digits_end(s: Seq<char>, pos: int) -> int
    decreases s.len() - pos,
{
    if 0 <= pos < s.len() && is_digit(s[pos]) {
        digits_end(s, pos + 1)
    } else {
        pos
    }
}

/// The decimal value of `s[lo..hi]`.
pub open spec fn digits_value(s: Seq<char>, lo: int, hi: int) -> int
    decreases hi - lo,
{
    if hi <= lo {
        0
    } else {
        digits_value(s, lo, hi - 1) * 10 + digit_value(s[hi - 1])
    }
}

/// A number at `pos`: one or more digits whose value fits in a `usize`.
pub open spec fn p_number(s: Seq<char>, pos: int) -> Option<(usize, int)> {
    let e = digits_end(s, pos);
    if 0 <= pos < e && digits_value(s, pos, e) <= usize::MAX {
        Some((digits_value(s, pos, e) as usize, e))
    } else {
        None
    }
}

/// The char at `pos` is `c`.
pub open spec fn at(s: Seq<char>, pos: int, c: char) -> bool {
    0 <= pos < s.len() && s[pos] == c
}

/// A class item at `pos`: `.`, a range `c-d` or a single character.
pub open spec fn p_class_item(s: Seq<char>, pos: int) -> Option<(Set<int>, int)> {
    if at(s, pos, '.') {
        Some((letter_set(), pos + 1))
    } else if 0 <= pos < s.len() && is_character(s[pos]) {
        if at(s, pos + 1, '-') && pos + 2 < s.len() && is_character(s[pos + 2]) {
            Some((range_symbols(s[pos], s[pos + 2]), pos + 3))
        } else {
            Some((char_set(s[pos]), pos + 1))
        }
    } else {
        None
    }
}

/// The union of the class items from `pos` on, and where they end.
pub open spec fn p_class_items(s: Seq<char>, pos: int) -> (Set<int>, int)
    decreases s.len() - pos,
{
    if pos < 0 || pos > s.len() {
        (Set::empty(), pos)
    } else {
        match p_class_item(s, pos) {
            Some((b, e)) => {
                let (rest, end) = p_class_items(s, e);
                (b.union(rest), end)
            },
            None => (Set::empty(), pos),
        }
    }
}

/// The symbols that a class with the given items and inversion stands for.
pub open spec fn class_set(items: Set<int>, invert: bool) -> Set<int> {
    if invert {
        letter_set().difference(items).union(items.difference(letter_set()))
    } else {
        items
    }
}

/// A class `[...]` at `pos`.
pub open spec fn p_class(s: Seq<char>, pos: int) -> Option<(Set<int>, int)> {
    if at(s, pos, '[') {
        let invert = at(s, pos + 1, '^');
        let start = if invert {
            pos + 2
        } else {
            pos + 1
        };
        let (items, end) = p_class_items(s, start);
        if end > start && at(s, end, ']') {
            Some((class_set(items, invert), end + 1))
        } else {
            None
        }
    } else {
        None
    }
}

/// The characters from `pos` on, and where they end.
pub open spec fn characters_end(s: Seq<char>, pos: int) -> int
    decreases s.len() - pos,
{
    if 0 <= pos < s.len() && is_character(s[pos]) {
        characters_end(s, pos + 1)
    } else {
        pos
    }
}

/// The symbols of `s[lo..hi]`.
pub open spec fn symbols_of(s: Seq<char>, lo: int, hi: int) -> Seq<Char> {
    s.subrange(lo, hi).map_values(|c: char| char_symbol(c))
}

/// An anagram `<...>` at `pos`.
pub open spec fn p_anagram(s: Seq<char>, pos: int) -> Option<(AstView, int)> {
    if at(s, pos, '<') && characters_end(s, pos + 1) > pos + 1 {
        let e = characters_end(s, pos + 1);
        let bank = symbols_of(s, pos + 1, e);
        if at(s, e, '>') {
            Some((AstView::Anagram { kind: AnagramKind::Standard, bank }, e + 1))
        } else if at(s, e, '+') && at(s, e + 1, '>') {
            Some((AstView::Anagram { kind: AnagramKind::Super, bank }, e + 2))
        } else if at(s, e, '-') && at(s, e + 1, '>') {
            Some((AstView::Anagram { kind: AnagramKind::Sub, bank }, e + 2))
        } else if at(s, e, '+') || at(s, e, '-') {
            match p_number(s, e + 1) {
                Some((n, q)) => if at(s, q, '>') {
                    if at(s, e, '+') {
                        Some((AstView::Anagram { kind: AnagramKind::TransAdd(n), bank }, q + 1))
                    } else {
                        let d = if n > bank.len() {
                            bank.len() as usize
                        } else {
                            n
                        };
                        Some((AstView::Anagram { kind: AnagramKind::TransDelete(d), bank }, q + 1))
                    }
                } else {
                    None
                },
                None => None,
            }
        } else {
            None
        }
    } else {
        None
    }
}

/// A run of characters from `a` ends at `b`, the first position that holds none.
proof fn lemma_characters_end_run(s: Seq<char>, a: int, b: int)
    requires
        0 <= a <= b <= s.len(),
        forall|i: int| a <= i < b ==> is_character(#[trigger] s[i]),
        b < s.len() ==> !is_character(s[b]),
    ensures
        characters_end(s, a) == b,
    decreases b - a,
{
    if a < b {
        lemma_characters_end_run(s, a + 1, b);
    }
}

/// The text `<`, the letters `w`, and then `suffix`, at `pos` in `s`.
pub open spec fn anagram_text_at(s: Seq<char>, pos: int, w: Seq<char>, suffix: Seq<char>) -> bool {
    &&& 0 <= pos
    &&& pos + 1 + w.len() + suffix.len() <= s.len()
    &&& w.len() > 0
    &&& forall|i: int| 0 <= i < w.len() ==> is_character(#[trigger] w[i])
    &&& s.subrange(pos, pos + 1 + w.len() + suffix.len()) == seq!['<'] + w + suffix
}

/// How the end of an anagram names its kind: `<w>` is an anagram of the letters
/// `w`, `<w+>` a superanagram (at least those letters), and `<w->` a subanagram (at
/// most those letters); the bank is the letters' symbols, and parsing goes on after
/// the `>`.
pub proof fn lemma_anagram_kinds(s: Seq<char>, pos: int, w: Seq<char>)
    ensures
        anagram_text_at(s, pos, w, seq!['>']) ==> p_anagram(s, pos) == Some(
            (AstView::Anagram { kind: AnagramKind::Standard, bank: w.map_values(|c: char| char_symbol(c)) }, pos + w.len() + 2),
        ),
        anagram_text_at(s, pos, w, seq!['+', '>']) ==> p_anagram(s, pos) == Some(
            (AstView::Anagram { kind: AnagramKind::Super, bank: w.map_values(|c: char| char_symbol(c)) }, pos + w.len() + 3),
        ),
        anagram_text_at(s, pos, w, seq!['-', '>']) ==> p_anagram(s, pos) == Some(
            (AstView::Anagram { kind: AnagramKind::Sub, bank: w.map_values(|c: char| char_symbol(c)) }, pos + w.len() + 3),
        ),
{
    let e = pos + 1 + w.len();
    assert forall|suffix: Seq<char>| anagram_text_at(s, pos, w, suffix) && suffix.len() >= 1 && !is_character(suffix[0]) implies {
        &&& characters_end(s, pos + 1) == e
        &&& symbols_of(s, pos + 1, e) == w.map_values(|c: char| char_symbol(c))
        &&& at(s, pos, '<')
        &&& forall|j: int| 0 <= j < suffix.len() ==> s[e + j] == #[trigger] suffix[j]
    } by {
        let full = seq!['<'] + w + suffix;
        assert forall|i: int| pos + 1 <= i < e implies is_character(#[trigger] s[i]) by {
            assert(s[i] == s.subrange(pos, pos + full.len())[i - pos]);
            assert(full[i - pos] == w[i - pos - 1]);
        }
        assert(s[e] == s.subrange(pos, pos + full.len())[e - pos]);
        assert(full[e - pos] == suffix[0]);
        lemma_characters_end_run(s, pos + 1, e);
        assert(s.subrange(pos + 1, e) =~= w) by {
            assert forall|i: int| 0 <= i < w.len() implies s.subrange(pos + 1, e)[i] == w[i] by {
                assert(s[pos + 1 + i] == s.subrange(pos, pos + full.len())[1 + i]);
            }
        }
        assert(s[pos] == s.subrange(pos, pos + full.len())[0]);
        assert forall|j: int| 0 <= j < suffix.len() implies s[e + j] == #[trigger] suffix[j] by {
            assert(s[e + j] == s.subrange(pos, pos + full.len())[e + j - pos]);
            assert(full[e + j - pos] == suffix[j]);
        }
    }
    if anagram_text_at(s, pos, w, seq!['>']) {
        assert(!is_character(seq!['>'][0]));
        assert(seq!['>'][0] == '>');
    }
    if anagram_text_at(s, pos, w, seq!['+', '>']) {
        assert(!is_character(seq!['+', '>'][0]));
        assert(seq!['+', '>'][1] == '>');
    }
    if anagram_text_at(s, pos, w, seq!['-', '>']) {
        assert(!is_character(seq!['-', '>'][0]));
        assert(seq!['-', '>'][1] == '>');
    }
}

/// `term` repeated between `min` and `max` times.
pub open spec fn repeat_view(term: AstView, min: usize, max: Option<usize>) -> AstView {
    AstView::Repetition { term: Box::new(term), min, max }
}

/// A repetition operator at `pos`, as its bounds.
pub open spec fn p_repetition(s: Seq<char>, pos: int) -> Option<(usize, Option<usize>, int)> {
    if at(s, pos, '?') {
        Some((0, Some(1), pos + 1))
    } else if at(s, pos, '*') {
        Some((0, None, pos + 1))
    } else if at(s, pos, '+') {
        Some((1, None, pos + 1))
    } else if at(s, pos, '{') {
        let a = skip(s, pos + 1);
        if at(s, a, ',') {
            let b = skip(s, a + 1);
            match p_number(s, b) {
                Some((m, e)) => if at(s, skip(s, e), '}') {
                    Some((0, Some(m), skip(s, e) + 1))
                } else {
                    None
                },
                None => None,
            }
        } else {
            match p_number(s, a) {
                Some((n, e)) => {
                    let b = skip(s, e);
                    if at(s, b, '}') {
                        Some((n, Some(n), b + 1))
                    } else if at(s, b, ',') {
                        let c = skip(s, b + 1);
                        if at(s, c, '}') {
                            Some((n, None, c + 1))
                        } else {
                            match p_number(s, c) {
                                Some((m, e2)) => if at(s, skip(s, e2), '}') {
                                    Some((n, Some(m), skip(s, e2) + 1))
                                } else {
                                    None
                                },
                                None => None,
                            }
                        }
                    } else {
                        None
                    }
                },
                None => None,
            }
        }
    } else {
        None
    }
}

/// An enumeration number `n`: `n` letters, then a word end.
pub open spec fn number_view(n: usize) -> AstView {
    AstView::Sequence(
        seq![
            repeat_view(AstView::CharClass(letter_set()), n, Some(n)),
            AstView::CharClass(Set::empty().insert(27)),
        ],
    )
}

/// Each item made optional.
pub open spec fn optional_all(items: Seq<AstView>) -> Seq<AstView> {
    items.map_values(|a: AstView| repeat_view(a, 0, Some(1)))
}

/// A term at `pos`.
pub open spec fn p_term(s: Seq<char>, pos: int) -> Option<(AstView, int)>
    decreases s.len() - pos, 0int,
{
    if pos < 0 || pos >= s.len() {
        None
    } else if is_character(s[pos]) {
        Some((AstView::CharClass(char_set(s[pos])), pos + 1))
    } else if s[pos] == '.' {
        Some((AstView::CharClass(letter_set()), pos + 1))
    } else if s[pos] == '[' {
        match p_class(s, pos) {
            Some((set, e)) => Some((AstView::CharClass(set), e)),
            None => None,
        }
    } else if s[pos] == '<' {
        p_anagram(s, pos)
    } else if s[pos] == '(' {
        p_group(s, pos + 1)
    } else {
        None
    }
}

/// The rest of a group, after its `(`.
pub open spec fn p_group(s: Seq<char>, pos: int) -> Option<(AstView, int)>
    decreases s.len() - pos, 4int,
{
    if pos < 0 || pos > s.len() {
        None
    } else {
        let a = skip(s, pos);
        if a < pos || a > s.len() {
            None
        } else {
            match p_items(s, a) {
                Some((items, e)) => {
                    let b = skip(s, e);
                    if b < e || e <= a || b > s.len() {
                        None
                    } else if at(s, b, ':') && at(s, b + 1, '?') && at(s, skip(s, b + 2), ')') {
                        Some((AstView::Sequence(optional_all(items)), skip(s, b + 2) + 1))
                    } else if at(s, b, ')') {
                        Some((AstView::Sequence(items), b + 1))
                    } else if at(s, b, '|') {
                        match p_alternatives_rest(s, b) {
                            Some((alts, e2)) => if at(s, skip(s, e2), ')') {
                                Some(
                                    (
                                        AstView::Alternatives(
                                            seq![AstView::Sequence(items)] + alts,
                                        ),
                                        skip(s, e2) + 1,
                                    ),
                                )
                            } else {
                                None
                            },
                            None => None,
                        }
                    } else {
                        None
                    }
                },
                None => None,
            }
        }
    }
}

/// An item at `pos`: a number, or a term with an optional repetition.
pub open spec fn p_item(s: Seq<char>, pos: int) -> Option<(AstView, int)>
    decreases s.len() - pos, 1int,
{
    if pos < 0 || pos >= s.len() {
        None
    } else if is_digit(s[pos]) {
        match p_number(s, pos) {
            Some((n, e)) => Some((number_view(n), e)),
            None => None,
        }
    } else {
        match p_term(s, pos) {
            Some((t, e)) => if e <= pos {
                None
            } else {
                match p_repetition(s, e) {
                    Some((min, max, e2)) => Some((repeat_view(t, min, max), e2)),
                    None => Some((t, e)),
                }
            },
            None => None,
        }
    }
}

/// One or more items from `pos`, separated by spaces or comments.
pub open spec fn p_items(s: Seq<char>, pos: int) -> Option<(Seq<AstView>, int)>
    decreases s.len() - pos, 2int,
{
    if pos < 0 || pos >= s.len() {
        None
    } else {
        match p_item(s, pos) {
            Some((item, e)) => if e <= pos || e > s.len() {
                None
            } else {
                let a = skip(s, e);
                if a < e || a > s.len() {
                    None
                } else {
                    match p_items(s, a) {
                        Some((rest, e2)) => Some((seq![item] + rest, e2)),
                        None => Some((seq![item], e)),
                    }
                }
            },
            None => None,
        }
    }
}

/// The alternatives after the first one, each following a `|` at or after `pos`.
pub open spec fn p_alternatives_rest(s: Seq<char>, pos: int) -> Option<(Seq<AstView>, int)>
    decreases s.len() - pos, 3int,
{
    if pos < 0 || pos >= s.len() || !at(s, pos, '|') {
        None
    } else {
        let a = skip(s, pos + 1);
        if a <= pos || a > s.len() {
            None
        } else {
            match p_items(s, a) {
                Some((items, e)) => {
                    let b = skip(s, e);
                    if b < e || e <= pos || b > s.len() {
                        None
                    } else if at(s, b, '|') {
                        match p_alternatives_rest(s, b) {
                            Some((rest, e2)) => Some((seq![AstView::Sequence(items)] + rest, e2)),
                            None => None,
                        }
                    } else {
                        Some((seq![AstView::Sequence(items)], e))
                    }
                },
                None => None,
            }
        }
    }
}

/// The body of an expression at `pos`: alternatives, or else a sequence.
pub open spec fn p_body(s: Seq<char>, pos: int) -> Option<(AstView, int)> {
    match p_items(s, pos) {
        Some((items, e)) => {
            let b = skip(s, e);
            if at(s, b, '|') {
                match p_alternatives_rest(s, b) {
                    Some((alts, e2)) => Some(
                        (AstView::Alternatives(seq![AstView::Sequence(items)] + alts), e2),
                    ),
                    None => Some((AstView::Sequence(items), e)),
                }
            } else {
                Some((AstView::Sequence(items), e))
            }
        },
        None => None,
    }
}

/// A flag at `pos`, applied to `opts`.
pub open spec fn p_flag(s: Seq<char>, pos: int, opts: ExpressionOptions) -> Option<
    (ExpressionOptions, int),
> {
    if at(s, pos, '!') {
        if at(s, pos + 1, '_') {
            Some((ExpressionOptions { explicit_word_boundaries: Some(true), ..opts }, pos + 2))
        } else if at(s, pos + 1, '\'') || at(s, pos + 1, '-') {
            Some((ExpressionOptions { explicit_punctuation: Some(true), ..opts }, pos + 2))
        } else {
            match p_number(s, pos + 1) {
                Some((n, e)) => Some((ExpressionOptions { fuzz: Some(n), ..opts }, e)),
                None => None,
            }
        }
    } else {
        None
    }
}

/// The flags from `pos` on, each after spaces or comments, applied to `opts`
/// in order; and where they end.
pub open spec fn p_flags(s: Seq<char>, pos: int, opts: ExpressionOptions) -> (ExpressionOptions, int)
    decreases s.len() - pos,
{
    let a = skip(s, pos);
    if pos < 0 || pos > s.len() || a < pos {
        (opts, pos)
    } else {
        match p_flag(s, a, opts) {
            Some((o, e)) => if a < e <= s.len() {
                p_flags(s, e, o)
            } else {
                (opts, pos)
            },
            None => (opts, pos),
        }
    }
}

/// No options set.
pub open spec fn no_options() -> ExpressionOptions {
    ExpressionOptions { explicit_word_boundaries: None, explicit_punctuation: None, fuzz: None }
}

/// The whole of `s` as an expression: its tree and the options its flags set
/// (before the options that its symbols imply), or the position where it stops parsing.
pub open spec fn parse_expression_text(s: Seq<char>) -> Result<(AstView, ExpressionOptions), int> {
    let a = skip(s, 0);
    match p_body(s, a) {
        Some((root, e)) => {
            let (opts, f) = p_flags(s, e, no_options());
            let z = skip(s, f);
            if z == s.len() {
                Ok((root, opts))
            } else {
                Err(z)
            }
        },
        None => Err(a),
    }
}

} // verus!

verus! {

// ---------------------------------------------------------------------------
// Facts about the grammar functions.

proof fn lemma_comment_end(s: Seq<char>, pos: int)
    ensures
        comment_end(s, pos) matches Some(e) ==> pos + 2 <= e <= s.len(),
    decreases s.len() - pos,
{
    if !(pos < 0 || pos + 1 >= s.len()) && !(s[pos] == '*' && s[pos + 1] == '/') {
        lemma_comment_end(s, pos + 1);
    }
}

pub(crate) proof fn lemma_skip(s: Seq<char>, pos: int)
    requires
        0 <= pos <= s.len(),
    ensures
        pos <= skip(s, pos) <= s.len(),
    decreases s.len() - pos,
{
    if pos < s.len() {
        if is_space(s[pos]) {
            lemma_skip(s, pos + 1);
        } else if pos + 1 < s.len() && s[pos] == '/' && s[pos + 1] == '/' {
        } else if pos + 1 < s.len() && s[pos] == '/' && s[pos + 1] == '*' {
            lemma_comment_end(s, pos + 2);
            match comment_end(s, pos + 2) {
                Some(e) => if pos < e <= s.len() {
                    lemma_skip(s, e);
                },
                None => {},
            }
        }
    }
}

pub(crate) proof fn lemma_digits_end(s: Seq<char>, pos: int)
    requires
        0 <= pos <= s.len(),
    ensures
        pos <= digits_end(s, pos) <= s.len(),
        forall|i: int| pos <= i < digits_end(s, pos) ==> is_digit(#[trigger] s[i]),
        digits_end(s, pos) < s.len() ==> !is_digit(s[digits_end(s, pos)]),
    decreases s.len() - pos,
{
    if pos < s.len() && is_digit(s[pos]) {
        lemma_digits_end(s, pos + 1);
    }
}

proof fn lemma_characters_end(s: Seq<char>, pos: int)
    requires
        0 <= pos <= s.len(),
    ensures
        pos <= characters_end(s, pos) <= s.len(),
        forall|i: int| pos <= i < characters_end(s, pos) ==> is_character(#[trigger] s[i]),
        characters_end(s, pos) < s.len() ==> !is_character(s[characters_end(s, pos)]),
    decreases s.len() - pos,
{
    if pos < s.len() && is_character(s[pos]) {
        lemma_characters_end(s, pos + 1);
    }
}

proof fn lemma_digits_value_mono(s: Seq<char>, lo: int, k: int, hi: int)
    requires
        lo <= k <= hi,
        forall|i: int| lo <= i < hi ==> is_digit(#[trigger] s[i]),
    ensures
        0 <= digits_value(s, lo, k) <= digits_value(s, lo, hi),
    decreases hi - k,
{
    if k < hi {
        lemma_digits_value_mono(s, lo, k, hi - 1);
        assert(is_digit(s[hi - 1]));
    } else {
        lemma_digits_value_nonneg(s, lo, k);
    }
}

proof fn lemma_digits_value_nonneg(s: Seq<char>, lo: int, hi: int)
    requires
        forall|i: int| lo <= i < hi ==> is_digit(#[trigger] s[i]),
    ensures
        0 <= digits_value(s, lo, hi),
    decreases hi - lo,
{
    if lo < hi {
        lemma_digits_value_nonneg(s, lo, hi - 1);
        assert(is_digit(s[hi - 1]));
    }
}

pub proof fn lemma_ast_list_view_append(a: Seq<Ast>, b: Seq<Ast>)
    ensures
        ast_list_view(a + b) == ast_list_view(a) + ast_list_view(b),
    decreases b.len(),
{
    if b.len() == 0 {
        assert(a + b =~= a);
        assert(ast_list_view(b) =~= Seq::<AstView>::empty());
        assert(ast_list_view(a) + ast_list_view(b) =~= ast_list_view(a));
    } else {
        lemma_ast_list_view_append(a, b.drop_last());
        assert((a + b).drop_last() =~= a + b.drop_last());
        assert((a + b).last() == b.last());
        assert(ast_list_view(a) + ast_list_view(b) =~= (ast_list_view(a) + ast_list_view(
            b.drop_last(),
        )).push(b.last()@));
    }
}

proof fn lemma_ast_list_view_single(x: Ast)
    ensures
        ast_list_view(seq![x]) == seq![x@],
{
    assert(seq![x].drop_last() =~= Seq::<Ast>::empty());
    assert(ast_list_view(Seq::<Ast>::empty()) =~= Seq::<AstView>::empty());
    assert(ast_list_view(seq![x]) =~= seq![x@]);
}

// ---------------------------------------------------------------------------
// The parser.

/// The characters of a string.
pub fn chars_of(text: &str) -> (r: Vec<char>)
    ensures
        r@ == text@,
{
    let mut r: Vec<char> = Vec::new();
    for c in it: text.chars()
        invariant
            r@ == it.seq().subrange(0, it.index() as int),
            it.seq() == text@,
    {
        r.push(c);
        proof {
            assert(it.seq().subrange(0, it.index() + 1) =~= r@);
        }
    }
    assert(r@ =~= text@);
    r
}

pub(crate) fn is_space_exec(c: char) -> (r: bool)
    ensures
        r == is_space(c),
{
    c == ' ' || c == '\t'
}

fn is_character_exec(c: char) -> (r: bool)
    ensures
        r == is_character(c),
{
    ('a' <= c && c <= 'z') || ('A' <= c && c <= 'Z') || c == '\'' || c == '_'
}

pub(crate) fn is_digit_exec(c: char) -> (r: bool)
    ensures
        r == is_digit(c),
{
    '0' <= c && c <= '9'
}

pub(crate) fn at_exec(s: &Vec<char>, pos: usize, c: char) -> (r: bool)
    requires
        s@.len() < usize::MAX,
    ensures
        r == at(s@, pos as int, c),
{
    pos < s.len() && s[pos] == c
}

fn comment_end_exec(s: &Vec<char>, pos: usize) -> (r: Option<usize>)
    requires
        s@.len() < usize::MAX,
    ensures
        match r {
            Some(e) => comment_end(s@, pos as int) == Some(e as int),
            None => comment_end(s@, pos as int) is None,
        },
    decreases s@.len() - pos,
{
    proof {
        lemma_comment_end(s@, pos as int);
    }
    if pos >= s.len() || pos + 1 >= s.len() {
        None
    } else if s[pos] == '*' && s[pos + 1] == '/' {
        Some(pos + 2)
    } else {
        comment_end_exec(s, pos + 1)
    }
}

pub(crate) fn skip_exec(s: &Vec<char>, pos: usize) -> (r: usize)
    requires
        s@.len() < usize::MAX,
        pos <= s@.len(),
    ensures
        r == skip(s@, pos as int),
        pos <= r <= s@.len(),
    decreases s@.len() - pos,
{
    proof {
        lemma_skip(s@, pos as int);
    }
    if pos >= s.len() {
        pos
    } else if is_space_exec(s[pos]) {
        skip_exec(s, pos + 1)
    } else if pos + 1 < s.len() && s[pos] == '/' && s[pos + 1] == '/' {
        s.len()
    } else if pos + 1 < s.len() && s[pos] == '/' && s[pos + 1] == '*' {
        proof {
            lemma_comment_end(s@, pos + 2);
        }
        match comment_end_exec(s, pos + 2) {
            Some(e) => if pos < e && e <= s.len() {
                skip_exec(s, e)
            } else {
                pos
            },
            None => pos,
        }
    } else {
        pos
    }
}

pub(crate) fn number_exec(s: &Vec<char>, pos: usize) -> (r: Option<(usize, usize)>)
    requires
        s@.len() < usize::MAX,
        pos <= s@.len(),
    ensures
        match r {
            Some((n, e)) => p_number(s@, pos as int) == Some((n, e as int)),
            None => p_number(s@, pos as int) is None,
        },
{
    proof {
        lemma_digits_end(s@, pos as int);
    }
    let ghost e = digits_end(s@, pos as int);
    let mut i = pos;
    let mut value: usize = 0;
    while i < s.len() && is_digit_exec(s[i])
        invariant
            pos <= i <= e,
            e == digits_end(s@, pos as int),
            pos <= e <= s@.len(),
            forall|k: int| pos <= k < e ==> is_digit(#[trigger] s@[k]),
            e < s@.len() ==> !is_digit(s@[e]),
            value == digits_value(s@, pos as int, i as int),
        decreases s@.len() - i,
    {
        let d = (s[i] as u32 - '0' as u32) as usize;
        if value > (usize::MAX - d) / 10 {
            proof {
                assert(digits_value(s@, pos as int, i + 1) == value * 10 + d);
                assert(value * 10 + d > usize::MAX) by (nonlinear_arith)
                    requires
                        value > (usize::MAX - d) / 10,
                        d <= 9,
                ;
                lemma_digits_value_mono(s@, pos as int, i + 1, e);
            }
            return None;
        }
        proof {
            assert(value * 10 + d <= usize::MAX) by (nonlinear_arith)
                requires
                    value <= (usize::MAX - d) / 10,
                    d <= 9,
            ;
        }
        value = value * 10 + d;
        i += 1;
    }
    if i == pos {
        None
    } else {
        Some((value, i))
    }
}

} // verus!

verus! {

fn class_item_exec(s: &Vec<char>, pos: usize) -> (r: Option<(CharBitset, usize)>)
    requires
        s@.len() < usize::MAX,
    ensures
        match r {
            Some((b, e)) => p_class_item(s@, pos as int) == Some((b@, e as int)) && pos < e <= s@.len(),
            None => p_class_item(s@, pos as int) is None,
        },
{
    if at_exec(s, pos, '.') {
        Some((CharBitset::letters(), pos + 1))
    } else if pos < s.len() && is_character_exec(s[pos]) {
        if at_exec(s, pos + 1, '-') && pos + 2 < s.len() && is_character_exec(s[pos + 2]) {
            Some((CharBitset::from_range(s[pos], s[pos + 2]), pos + 3))
        } else {
            let b = CharBitset::from_char_symbol(Char::from_char(s[pos]));
            Some((b, pos + 1))
        }
    } else {
        None
    }
}

fn class_exec(s: &Vec<char>, pos: usize) -> (r: Option<(CharBitset, usize)>)
    requires
        s@.len() < usize::MAX,
        pos <= s@.len(),
    ensures
        match r {
            Some((b, e)) => p_class(s@, pos as int) == Some((b@, e as int)) && pos < e <= s@.len(),
            None => p_class(s@, pos as int) is None,
        },
{
    if !at_exec(s, pos, '[') {
        return None;
    }
    let invert = at_exec(s, pos + 1, '^');
    let start = if invert {
        pos + 2
    } else {
        pos + 1
    };
    let mut acc = CharBitset::empty();
    let mut cur = start;
    while cur < s.len()
        invariant
            s@.len() < usize::MAX,
            start <= cur <= s@.len(),
            start <= s@.len(),
            p_class_items(s@, start as int) == (acc@.union(p_class_items(s@, cur as int).0), p_class_items(s@, cur as int).1),
        ensures
            start <= cur <= s@.len(),
            p_class_items(s@, start as int) == (acc@.union(p_class_items(s@, cur as int).0), p_class_items(s@, cur as int).1),
            cur >= s@.len() || p_class_item(s@, cur as int) is None,
        decreases s@.len() - cur,
    {
        match class_item_exec(s, cur) {
            Some((b, e)) => {
                let ghost before = acc@;
                acc.union_with(b);
                proof {
                    assert(before.union(b@.union(p_class_items(s@, e as int).0)) =~= acc@.union(
                        p_class_items(s@, e as int).0,
                    ));
                }
                cur = e;
            },
            None => {
                break;
            },
        }
    }
    proof {
        if cur >= s@.len() {
            assert(p_class_item(s@, cur as int) is None);
        }
        assert(p_class_items(s@, cur as int) == (Set::<int>::empty(), cur as int));
        assert(acc@.union(Set::<int>::empty()) =~= acc@);
    }
    if cur > start && at_exec(s, cur, ']') {
        if invert {
            acc.invert();
        }
        Some((acc, cur + 1))
    } else {
        None
    }
}

fn anagram_exec(s: &Vec<char>, pos: usize) -> (r: Option<(Ast, usize)>)
    requires
        s@.len() < usize::MAX,
        pos <= s@.len(),
    ensures
        match r {
            Some((a, e)) => p_anagram(s@, pos as int) == Some((a@, e as int)) && pos < e <= s@.len(),
            None => p_anagram(s@, pos as int) is None,
        },
{
    if !at_exec(s, pos, '<') {
        return None;
    }
    proof {
        lemma_characters_end(s@, pos + 1);
    }
    let mut e = pos + 1;
    let mut bank: Vec<Char> = Vec::new();
    while e < s.len() && is_character_exec(s[e])
        invariant
            pos + 1 <= e <= characters_end(s@, pos + 1),
            pos + 1 <= characters_end(s@, pos + 1) <= s@.len(),
            forall|i: int| pos + 1 <= i < characters_end(s@, pos + 1) ==> is_character(#[trigger] s@[i]),
            characters_end(s@, pos + 1) < s@.len() ==> !is_character(s@[characters_end(s@, pos + 1)]),
            bank@ == symbols_of(s@, pos + 1, e as int),
        decreases s@.len() - e,
    {
        bank.push(Char::from_char(s[e]));
        proof {
            assert(symbols_of(s@, pos + 1, e + 1) =~= symbols_of(s@, pos + 1, e as int).push(
                char_symbol(s@[e as int]),
            ));
        }
        e += 1;
    }
    if e == pos + 1 {
        return None;
    }
    let kind = if at_exec(s, e, '>') {
        let r = Ast::Anagram { kind: AnagramKind::Standard, bank };
        return Some((r, e + 1));
    } else if at_exec(s, e, '+') && at_exec(s, e + 1, '>') {
        let r = Ast::Anagram { kind: AnagramKind::Super, bank };
        return Some((r, e + 2));
    } else if at_exec(s, e, '-') && at_exec(s, e + 1, '>') {
        let r = Ast::Anagram { kind: AnagramKind::Sub, bank };
        return Some((r, e + 2));
    } else if at_exec(s, e, '+') || at_exec(s, e, '-') {
        match number_exec(s, e + 1) {
            Some((n, q)) => {
                proof {
                    lemma_digits_end(s@, e + 1);
                }
                if at_exec(s, q, '>') {
                    if at_exec(s, e, '+') {
                        AnagramKind::TransAdd(n)
                    } else {
                        let d = if n > bank.len() {
                            bank.len()
                        } else {
                            n
                        };
                        AnagramKind::TransDelete(d)
                    }
                } else {
                    return None;
                }
            },
            None => {
                return None;
            },
        }
    } else {
        return None;
    };
    let q = match number_exec(s, e + 1) {
        Some((_, q)) => q,
        None => e,
    };
    proof {
        lemma_digits_end(s@, e + 1);
    }
    Some((Ast::Anagram { kind, bank }, q + 1))
}

fn repetition_exec(s: &Vec<char>, pos: usize) -> (r: Option<(usize, Option<usize>, usize)>)
    requires
        s@.len() < usize::MAX,
        pos <= s@.len(),
    ensures
        match r {
            Some((min, max, e)) => p_repetition(s@, pos as int) == Some((min, max, e as int)) && pos
                < e <= s@.len(),
            None => p_repetition(s@, pos as int) is None,
        },
{
    if at_exec(s, pos, '?') {
        Some((0, Some(1), pos + 1))
    } else if at_exec(s, pos, '*') {
        Some((0, None, pos + 1))
    } else if at_exec(s, pos, '+') {
        Some((1, None, pos + 1))
    } else if at_exec(s, pos, '{') {
        let a = skip_exec(s, pos + 1);
        if at_exec(s, a, ',') {
            let b = skip_exec(s, a + 1);
            match number_exec(s, b) {
                Some((m, e)) => {
                    proof {
                        lemma_digits_end(s@, b as int);
                    }
                    let c = skip_exec(s, e);
                    if at_exec(s, c, '}') {
                        Some((0, Some(m), c + 1))
                    } else {
                        None
                    }
                },
                None => None,
            }
        } else {
            match number_exec(s, a) {
                Some((n, e)) => {
                    proof {
                        lemma_digits_end(s@, a as int);
                    }
                    let b = skip_exec(s, e);
                    if at_exec(s, b, '}') {
                        Some((n, Some(n), b + 1))
                    } else if at_exec(s, b, ',') {
                        let c = skip_exec(s, b + 1);
                        if at_exec(s, c, '}') {
                            Some((n, None, c + 1))
                        } else {
                            match number_exec(s, c) {
                                Some((m, e2)) => {
                                    proof {
                                        lemma_digits_end(s@, c as int);
                                    }
                                    let d = skip_exec(s, e2);
                                    if at_exec(s, d, '}') {
                                        Some((n, Some(m), d + 1))
                                    } else {
                                        None
                                    }
                                },
                                None => None,
                            }
                        }
                    } else {
                        None
                    }
                },
                None => None,
            }
        }
    } else {
        None
    }
}

} // verus!

verus! {

/// The tree of an enumeration number `n` (see `number_view`).
fn number_ast(n: usize) -> (r: Ast)
    ensures
        r@ == number_view(n),
{
    let dot = Ast::CharClass(CharBitset::letters());
    let ghost dot_view = dot@;
    let rep = Ast::Repetition { term: Box::new(dot), min: n, max: Some(n) };
    assert(dot_view == AstView::CharClass(letter_set()));
    let end = Ast::CharClass(CharBitset::from_char_symbol(Char::word_end()));
    let mut v: Vec<Ast> = Vec::new();
    v.push(rep);
    v.push(end);
    proof {
        lemma_ast_list_view(v@);
        assert(v@[0] == rep && v@[1] == end);
        assert(rep@ == repeat_view(AstView::CharClass(letter_set()), n, Some(n)));
        assert(end@ == AstView::CharClass(Set::empty().insert(27)));
        assert(ast_list_view(v@) =~= seq![
            repeat_view(AstView::CharClass(letter_set()), n, Some(n)),
            AstView::CharClass(Set::empty().insert(27)),
        ]);
    }
    Ast::Sequence(v)
}

/// One tree followed by others.
fn prepend(first: Ast, rest: Vec<Ast>) -> (r: Vec<Ast>)
    ensures
        ast_list_view(r@) == seq![first@] + ast_list_view(rest@),
{
    let mut v: Vec<Ast> = Vec::new();
    v.push(first);
    let mut rest = rest;
    let ghost a = v@;
    let ghost b = rest@;
    v.append(&mut rest);
    proof {
        lemma_ast_list_view_append(a, b);
        lemma_ast_list_view_single(first);
        assert(a =~= seq![first]);
    }
    v
}

fn single(first: Ast) -> (r: Vec<Ast>)
    ensures
        ast_list_view(r@) == seq![first@],
{
    let mut v: Vec<Ast> = Vec::new();
    v.push(first);
    proof {
        lemma_ast_list_view_single(first);
        assert(v@ =~= seq![first]);
    }
    v
}

/// Each tree made optional.
fn optional_each(items: Vec<Ast>) -> (r: Vec<Ast>)
    ensures
        ast_list_view(r@) == optional_all(ast_list_view(items@)),
{
    let ghost orig = items@;
    let mut items = items;
    let mut out: Vec<Ast> = Vec::new();
    while items.len() > 0
        invariant
            out@.len() + items@.len() == orig.len(),
            items@ == orig.subrange(out@.len() as int, orig.len() as int),
            forall|i: int|
                0 <= i < out@.len() ==> #[trigger] out@[i]@ == repeat_view(orig[i]@, 0, Some(1)),
        decreases items@.len(),
    {
        let ghost k = out@.len();
        let x = items.remove(0);
        out.push(Ast::Repetition { term: Box::new(x), min: 0, max: Some(1) });
        proof {
            assert(x == orig[k as int]);
            assert(items@ =~= orig.subrange((k + 1) as int, orig.len() as int));
        }
    }
    proof {
        lemma_ast_list_view(out@);
        lemma_ast_list_view(orig);
        assert(ast_list_view(out@) =~= optional_all(ast_list_view(orig)));
    }
    out
}

fn term_exec(s: &Vec<char>, pos: usize) -> (r: Option<(Ast, usize)>)
    requires
        s@.len() < usize::MAX,
        pos <= s@.len(),
    ensures
        match r {
            Some((a, e)) => p_term(s@, pos as int) == Some((a@, e as int)) && pos < e <= s@.len(),
            None => p_term(s@, pos as int) is None,
        },
    decreases s@.len() - pos, 0int,
{
    if pos >= s.len() {
        None
    } else if is_character_exec(s[pos]) {
        let b = CharBitset::from_char_symbol(Char::from_char(s[pos]));
        Some((Ast::CharClass(b), pos + 1))
    } else if s[pos] == '.' {
        Some((Ast::CharClass(CharBitset::letters()), pos + 1))
    } else if s[pos] == '[' {
        match class_exec(s, pos) {
            Some((b, e)) => Some((Ast::CharClass(b), e)),
            None => None,
        }
    } else if s[pos] == '<' {
        anagram_exec(s, pos)
    } else if s[pos] == '(' {
        group_exec(s, pos + 1)
    } else {
        None
    }
}

fn group_exec(s: &Vec<char>, pos: usize) -> (r: Option<(Ast, usize)>)
    requires
        s@.len() < usize::MAX,
        pos <= s@.len(),
    ensures
        match r {
            Some((a, e)) => p_group(s@, pos as int) == Some((a@, e as int)) && pos < e <= s@.len(),
            None => p_group(s@, pos as int) is None,
        },
    decreases s@.len() - pos, 4int,
{
    let a = skip_exec(s, pos);
    match items_exec(s, a) {
        Some((items, e)) => {
            let b = skip_exec(s, e);
            if at_exec(s, b, ':') && at_exec(s, b + 1, '?') && at_exec(s, skip_exec(s, b + 2), ')') {
                let c = skip_exec(s, b + 2);
                Some((Ast::Sequence(optional_each(items)), c + 1))
            } else if at_exec(s, b, ')') {
                Some((Ast::Sequence(items), b + 1))
            } else if at_exec(s, b, '|') {
                match alternatives_rest_exec(s, b) {
                    Some((alts, e2)) => {
                        let c = skip_exec(s, e2);
                        if at_exec(s, c, ')') {
                            let alts = prepend(Ast::Sequence(items), alts);
                            Some((Ast::Alternatives(alts), c + 1))
                        } else {
                            None
                        }
                    },
                    None => None,
                }
            } else {
                None
            }
        },
        None => None,
    }
}

fn item_exec(s: &Vec<char>, pos: usize) -> (r: Option<(Ast, usize)>)
    requires
        s@.len() < usize::MAX,
        pos <= s@.len(),
    ensures
        match r {
            Some((a, e)) => p_item(s@, pos as int) == Some((a@, e as int)) && pos < e <= s@.len(),
            None => p_item(s@, pos as int) is None,
        },
    decreases s@.len() - pos, 1int,
{
    if pos >= s.len() {
        None
    } else if is_digit_exec(s[pos]) {
        match number_exec(s, pos) {
            Some((n, e)) => {
                proof {
                    lemma_digits_end(s@, pos as int);
                }
                Some((number_ast(n), e))
            },
            None => None,
        }
    } else {
        match term_exec(s, pos) {
            Some((t, e)) => match repetition_exec(s, e) {
                Some((min, max, e2)) => Some((Ast::Repetition { term: Box::new(t), min, max }, e2)),
                None => Some((t, e)),
            },
            None => None,
        }
    }
}

fn items_exec(s: &Vec<char>, pos: usize) -> (r: Option<(Vec<Ast>, usize)>)
    requires
        s@.len() < usize::MAX,
        pos <= s@.len(),
    ensures
        match r {
            Some((v, e)) => p_items(s@, pos as int) == Some((ast_list_view(v@), e as int)) && pos < e
                <= s@.len(),
            None => p_items(s@, pos as int) is None,
        },
    decreases s@.len() - pos, 2int,
{
    if pos >= s.len() {
        return None;
    }
    match item_exec(s, pos) {
        Some((item, e)) => {
            let a = skip_exec(s, e);
            match items_exec(s, a) {
                Some((rest, e2)) => Some((prepend(item, rest), e2)),
                None => Some((single(item), e)),
            }
        },
        None => None,
    }
}

fn alternatives_rest_exec(s: &Vec<char>, pos: usize) -> (r: Option<(Vec<Ast>, usize)>)
    requires
        s@.len() < usize::MAX,
        pos <= s@.len(),
    ensures
        match r {
            Some((v, e)) => p_alternatives_rest(s@, pos as int) == Some((ast_list_view(v@), e as int))
                && pos < e <= s@.len(),
            None => p_alternatives_rest(s@, pos as int) is None,
        },
    decreases s@.len() - pos, 3int,
{
    if pos >= s.len() || !at_exec(s, pos, '|') {
        return None;
    }
    let a = skip_exec(s, pos + 1);
    match items_exec(s, a) {
        Some((items, e)) => {
            let b = skip_exec(s, e);
            if at_exec(s, b, '|') {
                match alternatives_rest_exec(s, b) {
                    Some((rest, e2)) => Some((prepend(Ast::Sequence(items), rest), e2)),
                    None => None,
                }
            } else {
                Some((single(Ast::Sequence(items)), e))
            }
        },
        None => None,
    }
}

fn body_exec(s: &Vec<char>, pos: usize) -> (r: Option<(Ast, usize)>)
    requires
        s@.len() < usize::MAX,
        pos <= s@.len(),
    ensures
        match r {
            Some((a, e)) => p_body(s@, pos as int) == Some((a@, e as int)) && pos < e <= s@.len(),
            None => p_body(s@, pos as int) is None,
        },
{
    match items_exec(s, pos) {
        Some((items, e)) => {
            let b = skip_exec(s, e);
            if at_exec(s, b, '|') {
                match alternatives_rest_exec(s, b) {
                    Some((alts, e2)) => {
                        let alts = prepend(Ast::Sequence(items), alts);
                        Some((Ast::Alternatives(alts), e2))
                    },
                    None => Some((Ast::Sequence(items), e)),
                }
            } else {
                Some((Ast::Sequence(items), e))
            }
        },
        None => None,
    }
}

} // verus!

verus! {

// ---------------------------------------------------------------------------
// Flags and the options implied by an expression's symbols.

fn flag_exec(s: &Vec<char>, pos: usize, opts: ExpressionOptions) -> (r: Option<(ExpressionOptions, usize)>)
    requires
        s@.len() < usize::MAX,
        pos <= s@.len(),
    ensures
        match r {
            Some((o, e)) => p_flag(s@, pos as int, opts) == Some((o, e as int)) && pos < e <= s@.len(),
            None => p_flag(s@, pos as int, opts) is None,
        },
{
    if !at_exec(s, pos, '!') {
        None
    } else if at_exec(s, pos + 1, '_') {
        Some((ExpressionOptions { explicit_word_boundaries: Some(true), ..opts }, pos + 2))
    } else if at_exec(s, pos + 1, '\'') || at_exec(s, pos + 1, '-') {
        Some((ExpressionOptions { explicit_punctuation: Some(true), ..opts }, pos + 2))
    } else {
        match number_exec(s, pos + 1) {
            Some((n, e)) => {
                proof {
                    lemma_digits_end(s@, pos + 1);
                }
                Some((ExpressionOptions { fuzz: Some(n), ..opts }, e))
            },
            None => None,
        }
    }
}

fn flags_exec(s: &Vec<char>, pos: usize, opts: ExpressionOptions) -> (r: (ExpressionOptions, usize))
    requires
        s@.len() < usize::MAX,
        pos <= s@.len(),
    ensures
        p_flags(s@, pos as int, opts) == (r.0, r.1 as int),
        pos <= r.1 <= s@.len(),
    decreases s@.len() - pos,
{
    let a = skip_exec(s, pos);
    match flag_exec(s, a, opts) {
        Some((o, e)) => flags_exec(s, e, o),
        None => (opts, pos),
    }
}

/// The tree mentions the symbol with number `sym`, in a class or an anagram's bank.
pub open spec fn mentions(a: AstView, sym: int) -> bool
    decreases a,
{
    match a {
        AstView::CharClass(set) => set.contains(sym),
        AstView::Alternatives(v) => mentions_list(v, sym),
        AstView::Sequence(v) => mentions_list(v, sym),
        AstView::Repetition { term, .. } => mentions(*term, sym),
        AstView::Anagram { bank, .. } => bank_mentions(bank, sym),
    }
}

/// The bank holds the symbol with number `sym`.
pub open spec fn bank_mentions(bank: Seq<Char>, sym: int) -> bool {
    exists|i: int| 0 <= i < bank.len() && #[trigger] bank[i].index() == sym
}

/// Some tree of the list mentions the symbol with number `sym`.
pub open spec fn mentions_list(v: Seq<AstView>, sym: int) -> bool
    decreases v,
{
    if v.len() == 0 {
        false
    } else {
        mentions_list(v.drop_last(), sym) || mentions(v.last(), sym)
    }
}

proof fn lemma_mentions_list(v: Seq<AstView>, sym: int)
    ensures
        mentions_list(v, sym) == exists|j: int| 0 <= j < v.len() && mentions(#[trigger] v[j], sym),
    decreases v.len(),
{
    if v.len() > 0 {
        lemma_mentions_list(v.drop_last(), sym);
        if mentions_list(v, sym) {
            if mentions(v.last(), sym) {
                assert(mentions(v[v.len() - 1], sym));
            } else {
                let j = choose|j: int| 0 <= j < v.len() - 1 && mentions(#[trigger] v.drop_last()[j], sym);
                assert(mentions(v[j], sym));
            }
        }
        if exists|j: int| 0 <= j < v.len() && mentions(#[trigger] v[j], sym) {
            let j = choose|j: int| 0 <= j < v.len() && mentions(#[trigger] v[j], sym);
            if j < v.len() - 1 {
                assert(mentions(v.drop_last()[j], sym));
            }
        }
    }
}

/// `opts` with word boundaries and punctuation made explicit where `word_end`
/// and `punctuation` hold.
pub open spec fn with_explicit(opts: ExpressionOptions, word_end: bool, punctuation: bool) -> ExpressionOptions {
    ExpressionOptions {
        explicit_word_boundaries: if word_end {
            Some(true)
        } else {
            opts.explicit_word_boundaries
        },
        explicit_punctuation: if punctuation {
            Some(true)
        } else {
            opts.explicit_punctuation
        },
        fuzz: opts.fuzz,
    }
}

/// The options of an expression with tree `a` whose flags set `opts`: a word end or
/// a punctuation symbol anywhere in the tree makes that symbol explicit.
pub open spec fn detected(a: AstView, opts: ExpressionOptions) -> ExpressionOptions {
    with_explicit(opts, mentions(a, 27), mentions(a, 26))
}

/// Makes word boundaries and punctuation explicit where the tree mentions them.
pub fn detect_options(ast: &Ast, options: &mut ExpressionOptions)
    ensures
        *final(options) == detected(ast@, *old(options)),
    decreases ast, 1int,
{
    let ghost start0 = *options;
    match ast {
        Ast::CharClass(char_bitset) => {
            let w = char_bitset.contains(Char::word_end());
            let p = char_bitset.contains(Char::punctuation());
            if w {
                options.explicit_word_boundaries = Some(true);
            }
            if p {
                options.explicit_punctuation = Some(true);
            }
            assert(*options == detected(ast@, start0));
        },
        Ast::Alternatives(nodes) => {
            detect_options_each(nodes, options);
            assert(ast@ == AstView::Alternatives(ast_list_view(nodes@)));
        },
        Ast::Sequence(nodes) => {
            detect_options_each(nodes, options);
            assert(ast@ == AstView::Sequence(ast_list_view(nodes@)));
        },
        Ast::Repetition { term, .. } => {
            detect_options(term, options);
            assert(*options == detected(ast@, start0));
        },
        Ast::Anagram { kind, bank } => {
            let ghost start = *options;
            let mut i: usize = 0;
            while i < bank.len()
                invariant
                    i <= bank@.len(),
                    *options == with_explicit(
                        start,
                        exists|j: int| 0 <= j < i && #[trigger] bank@[j].index() == 27,
                        exists|j: int| 0 <= j < i && #[trigger] bank@[j].index() == 26,
                    ),
                decreases bank@.len() - i,
            {
                let c = bank[i].as_index();
                if c == 27 {
                    options.explicit_word_boundaries = Some(true);
                }
                if c == 26 {
                    options.explicit_punctuation = Some(true);
                }
                proof {
                    if bank@[i as int].index() == 27 {
                        assert(exists|j: int| 0 <= j < i + 1 && #[trigger] bank@[j].index() == 27);
                    }
                    if bank@[i as int].index() == 26 {
                        assert(exists|j: int| 0 <= j < i + 1 && #[trigger] bank@[j].index() == 26);
                    }
                }
                i += 1;
            }
            assert(ast@ == AstView::Anagram { kind: *kind, bank: bank@ });
            assert(i == bank@.len());
            assert(mentions(ast@, 27) == exists|j: int| 0 <= j < i && #[trigger] bank@[j].index() == 27);
            assert(mentions(ast@, 26) == exists|j: int| 0 <= j < i && #[trigger] bank@[j].index() == 26);
            assert(*options == detected(ast@, start0));
        },
    }
}

/// `detect_options` on each tree in turn.
fn detect_options_each(nodes: &Vec<Ast>, options: &mut ExpressionOptions)
    ensures
        *final(options) == with_explicit(
            *old(options),
            mentions_list(ast_list_view(nodes@), 27),
            mentions_list(ast_list_view(nodes@), 26),
        ),
    decreases nodes, 0int,
{
    let ghost start = *options;
    proof {
        lemma_ast_list_view(nodes@);
    }
    let mut i: usize = 0;
    while i < nodes.len()
        invariant
            i <= nodes@.len(),
            ast_list_view(nodes@).len() == nodes@.len(),
            forall|j: int| 0 <= j < nodes@.len() ==> #[trigger] ast_list_view(nodes@)[j] == nodes@[j]@,
            *options == with_explicit(
                start,
                exists|j: int| 0 <= j < i && mentions(#[trigger] ast_list_view(nodes@)[j], 27),
                exists|j: int| 0 <= j < i && mentions(#[trigger] ast_list_view(nodes@)[j], 26),
            ),
        decreases nodes@.len() - i,
    {
        proof {
            assert(decreases_to!(*nodes => nodes@));
            assert(decreases_to!(nodes@ => nodes@[i as int]));
        }
        detect_options(&nodes[i], options);
        proof {
            let v = ast_list_view(nodes@);
            assert(v[i as int] == nodes@[i as int]@);
            if mentions(v[i as int], 27) {
                assert(exists|j: int| 0 <= j < i + 1 && mentions(#[trigger] v[j], 27));
            }
            if mentions(v[i as int], 26) {
                assert(exists|j: int| 0 <= j < i + 1 && mentions(#[trigger] v[j], 26));
            }
        }
        i += 1;
    }
    proof {
        lemma_mentions_list(ast_list_view(nodes@), 27);
        lemma_mentions_list(ast_list_view(nodes@), 26);
    }
}

/// The whole of `text` as an expression (see `parse_expression_text`), with the
/// options that its symbols imply; or where it stops parsing.
pub open spec fn expression_of(text: Seq<char>) -> Result<(AstView, ExpressionOptions), int> {
    match parse_expression_text(text) {
        Ok((root, opts)) => Ok((root, detected(root, opts))),
        Err(z) => Err(z),
    }
}

impl ExpressionAst {
    /// Parses an expression. On success the tree and options are those of
    /// `expression_of`, and the text is kept; otherwise the error gives line 1 and
    /// the column where parsing stopped.
    pub fn new_from_str(input_str: &str) -> (r: Result<ExpressionAst, ParseError>)
        requires
            input_str@.len() < usize::MAX,
        ensures
            match r {
                Ok(e) => {
                    &&& expression_of(input_str@) == Ok::<(AstView, ExpressionOptions), int>(
                        (e.root@, e.options),
                    )
                    &&& e.original_text matches Some(t) && t@ == input_str@
                },
                Err(pe) => expression_of(input_str@) == Err::<(AstView, ExpressionOptions), int>(
                    pe.column - 1,
                ) && pe.line == 1,
            },
    {
        let s = chars_of(input_str);
        match parse_expression_chars(&s) {
            Ok((root, options)) => Ok(
                ExpressionAst { original_text: Some(input_str.to_owned()), root, options },
            ),
            Err(z) => Err(ParseError { line: 1, column: z + 1 }),
        }
    }
}

/// The tree and options of the expression `s`, or where it stops parsing.
pub(crate) fn parse_expression_chars(s: &Vec<char>) -> (r: Result<(Ast, ExpressionOptions), usize>)
    requires
        s@.len() < usize::MAX,
    ensures
        match r {
            Ok((root, opts)) => expression_of(s@) == Ok::<(AstView, ExpressionOptions), int>(
                (root@, opts),
            ),
            Err(z) => expression_of(s@) == Err::<(AstView, ExpressionOptions), int>(z as int) && z
                <= s@.len(),
        },
{
    let a = skip_exec(s, 0);
    match body_exec(s, a) {
        Some((root, e)) => {
            let (opts, f) = flags_exec(s, e, ExpressionOptions {
                explicit_word_boundaries: None,
                explicit_punctuation: None,
                fuzz: None,
            });
            let z = skip_exec(s, f);
            if z == s.len() {
                let mut opts = opts;
                detect_options(&root, &mut opts);
                Ok((root, opts))
            } else {
                Err(z)
            }
        },
        None => Err(a),
    }
}


impl Ast {
    /// A copy of the tree.
    pub fn duplicate(&self) -> (r: Ast)
        ensures
            r@ == self@,
        decreases self, 1int,
    {
        match self {
            Ast::CharClass(c) => Ast::CharClass(*c),
            Ast::Alternatives(nodes) => Ast::Alternatives(duplicate_each(nodes)),
            Ast::Sequence(nodes) => Ast::Sequence(duplicate_each(nodes)),
            Ast::Repetition { term, min, max } => Ast::Repetition {
                term: Box::new((**term).duplicate()),
                min: *min,
                max: *max,
            },
            Ast::Anagram { kind, bank } => Ast::Anagram { kind: *kind, bank: bank.clone() },
        }
    }
}

/// A copy of each tree.
fn duplicate_each(nodes: &Vec<Ast>) -> (r: Vec<Ast>)
    ensures
        ast_list_view(r@) == ast_list_view(nodes@),
    decreases nodes, 0int,
{
    let mut out: Vec<Ast> = Vec::new();
    let mut k: usize = 0;
    while k < nodes.len()
        invariant
            k <= nodes@.len(),
            out@.len() == k,
            forall|j: int| 0 <= j < k ==> #[trigger] out@[j]@ == nodes@[j]@,
        decreases nodes@.len() - k,
    {
        proof {
            assert(decreases_to!(*nodes => nodes@));
            assert(decreases_to!(nodes@ => nodes@[k as int]));
        }
        out.push(nodes[k].duplicate());
        k += 1;
    }
    proof {
        lemma_ast_list_view(out@);
        lemma_ast_list_view(nodes@);
        assert(ast_list_view(out@) =~= ast_list_view(nodes@));
    }
    out
}

impl Clone for Ast {
    fn clone(&self) -> (r: Ast)
        ensures
            r@ == self@,
    {
        self.duplicate()
    }
}

} // verus!
