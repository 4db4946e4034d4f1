//! Queries: several expressions, one per line, with pragmas and macros.
//!
//! ```text
//! query  := line (('\n' | ';') line)*
//! line   := pragma | macro | expression | (nothing)
//! pragma := '#words' number | '#limit' number | '#dict' name | '#quiet'
//! macro  := identifier '=' text         (an identifier starts with a letter)
//! ```
//!
//! Spaces and comments may surround each part of a line. Before a line is parsed,
//! each macro defined so far is substituted into it, in the order of definition,
//! by a plain find-and-replace.
use crate::parser::{
    at, at_exec, chars_of, expression_of, is_space, is_space_exec, lemma_digits_end, lemma_skip,
    number_exec, p_number, parse_expression_chars, skip, skip_exec, AnagramKind, AstView,
    ExpressionAst, ExpressionOptions, ParseError,
};
use crate::text::string_from_chars;
use crate::words::{letter_set, Char, CharBitset, Word};
use indexmap::IndexMap;
use vstd::prelude::*;

verus! {

// ---------------------------------------------------------------------------
// The macro table, an `IndexMap` from names to values.

#[verifier::external_type_specification]
#[verifier::external_body]
#[verifier::reject_recursive_types(K)]
#[verifier::reject_recursive_types(V)]
#[verifier::reject_recursive_types(S)]
pub struct ExIndexMap<K, V, S>(IndexMap<K, V, S>);

/// The entries of a macro table, in order: each name with its value.
pub uninterp spec fn macro_entries(m: IndexMap<String, String>) -> Seq<(Seq<char>, Seq<char>)>;

/// The entries after inserting `name` with `value`: an entry of that name keeps
/// its place and takes the new value; otherwise the pair goes last.
pub open spec fn entries_insert(
    e: Seq<(Seq<char>, Seq<char>)>,
    name: Seq<char>,
    value: Seq<char>,
) -> Seq<(Seq<char>, Seq<char>)> {
    if exists|i: int| 0 <= i < e.len() && #[trigger] e[i].0 == name {
        let i = choose|i: int| 0 <= i < e.len() && #[trigger] e[i].0 == name;
        e.update(i, (name, value))
    } else {
        e.push((name, value))
    }
}

/// `IndexMap::new`: an empty table.
#[verifier::external_body]
fn macros_new() -> (r: IndexMap<String, String>)
    ensures
        macro_entries(r) == Seq::<(Seq<char>, Seq<char>)>::empty(),
{
    IndexMap::new()
}

/// `IndexMap::insert`: an entry whose name equals `name` takes the new value in its
/// place; otherwise the pair is added last.
#[verifier::external_body]
fn macros_insert(m: &mut IndexMap<String, String>, name: String, value: String)
    requires
        forall|i: int, j: int|
            0 <= i < j < macro_entries(*old(m)).len() ==> #[trigger] macro_entries(*old(m))[i].0
                != #[trigger] macro_entries(*old(m))[j].0,
    ensures
        macro_entries(*final(m)) == entries_insert(macro_entries(*old(m)), name@, value@),
{
    m.insert(name, value);
}

/// `IndexMap::len`: the number of entries.
#[verifier::external_body]
fn macros_len(m: &IndexMap<String, String>) -> (r: usize)
    ensures
        r == macro_entries(*m).len(),
{
    m.len()
}

/// `IndexMap::get_index`: the entry at position `i`, if there is one.
#[verifier::external_body]
fn macros_get_index(m: &IndexMap<String, String>, i: usize) -> (r: Option<(&String, &String)>)
    ensures
        match r {
            Some((k, v)) => i < macro_entries(*m).len() && (k@, v@) == macro_entries(*m)[i as int],
            None => i >= macro_entries(*m).len(),
        },
{
    m.get_index(i)
}

// ---------------------------------------------------------------------------
// Lines and substitution.

pub open spec fn is_line_end(c: char) -> bool {
    c == '\n' || c == ';'
}

/// The text split at each `'\n'` and `';'`.
pub open spec fn split_lines(s: Seq<char>) -> Seq<Seq<char>>
    decreases s.len(),
{
    if s.len() == 0 {
        seq![Seq::<char>::empty()]
    } else {
        let p = split_lines(s.drop_last());
        if is_line_end(s.last()) {
            p.push(Seq::<char>::empty())
        } else {
            p.update(p.len() - 1, p.last().push(s.last()))
        }
    }
}

proof fn lemma_split_lines_len(s: Seq<char>)
    ensures
        split_lines(s).len() >= 1,
    decreases s.len(),
{
    if s.len() > 0 {
        lemma_split_lines_len(s.drop_last());
    }
}

/// Every non-overlapping occurrence of `p` in `s`, from the left, replaced by `t`.
pub open spec fn replaced(s: Seq<char>, p: Seq<char>, t: Seq<char>) -> Seq<char>
    decreases s.len(),
{
    if p.len() == 0 || s.len() < p.len() {
        s
    } else if s.subrange(0, p.len() as int) == p {
        t + replaced(s.subrange(p.len() as int, s.len() as int), p, t)
    } else {
        seq![s[0]] + replaced(s.subrange(1, s.len() as int), p, t)
    }
}

/// `p` occurs in `s` at position `i`.
pub open spec fn occurs_at(s: Seq<char>, p: Seq<char>, i: int) -> bool {
    0 <= i && i + p.len() <= s.len() && s.subrange(i, i + p.len()) == p
}

/// Where a non-empty `p` does not occur in `s`, replacing it leaves `s` as it is.
pub proof fn lemma_replaced_none(s: Seq<char>, p: Seq<char>, t: Seq<char>)
    requires
        p.len() > 0,
        forall|i: int| !#[trigger] occurs_at(s, p, i),
    ensures
        replaced(s, p, t) == s,
    decreases s.len(),
{
    if s.len() >= p.len() {
        assert(!occurs_at(s, p, 0));
        let s1 = s.subrange(1, s.len() as int);
        assert forall|i: int| !#[trigger] occurs_at(s1, p, i) by {
            if occurs_at(s1, p, i) {
                assert(s.subrange(i + 1, i + 1 + p.len()) =~= s1.subrange(i, i + p.len()));
                assert(occurs_at(s, p, i + 1));
            }
        }
        lemma_replaced_none(s1, p, t);
        assert(seq![s[0]] + s1 =~= s);
    }
}

/// Where the first occurrence of a non-empty `p` in `s` is at `k`, replacing gives
/// the text before it, then `t`, then the rest after it with every occurrence
/// replaced: so no occurrence is left unreplaced after the first.
pub proof fn lemma_replaced_first(s: Seq<char>, p: Seq<char>, t: Seq<char>, k: int)
    requires
        p.len() > 0,
        occurs_at(s, p, k),
        forall|i: int| 0 <= i < k ==> !#[trigger] occurs_at(s, p, i),
    ensures
        replaced(s, p, t) == s.subrange(0, k) + t + replaced(s.subrange(k + p.len(), s.len() as int), p, t),
    decreases k,
{
    if k == 0 {
        assert(s.subrange(0, 0) + t =~= t);
    } else {
        assert(!occurs_at(s, p, 0));
        let s1 = s.subrange(1, s.len() as int);
        assert(s1.subrange(k - 1, k - 1 + p.len()) =~= s.subrange(k, k + p.len()));
        assert forall|i: int| 0 <= i < k - 1 implies !#[trigger] occurs_at(s1, p, i) by {
            if occurs_at(s1, p, i) {
                assert(s.subrange(i + 1, i + 1 + p.len()) =~= s1.subrange(i, i + p.len()));
                assert(occurs_at(s, p, i + 1));
            }
        }
        lemma_replaced_first(s1, p, t, k - 1);
        assert(s1.subrange(k - 1 + p.len(), s1.len() as int) =~= s.subrange(k + p.len(), s.len() as int));
        assert(seq![s[0]] + (s1.subrange(0, k - 1) + t + replaced(s.subrange(k + p.len(), s.len() as int), p, t))
            =~= s.subrange(0, k) + t + replaced(s.subrange(k + p.len(), s.len() as int), p, t));
    }
}

/// The line with each macro substituted in turn.
pub open spec fn apply_macros(line: Seq<char>, e: Seq<(Seq<char>, Seq<char>)>) -> Seq<char>
    decreases e.len(),
{
    if e.len() == 0 {
        line
    } else {
        replaced(apply_macros(line, e.drop_last()), e.last().0, e.last().1)
    }
}

/// The lines of `text`, as split by `split_lines`.
fn split_lines_exec(text: &Vec<char>) -> (r: Vec<Vec<char>>)
    ensures
        r@.len() == split_lines(text@).len(),
        forall|i: int| 0 <= i < r@.len() ==> #[trigger] r@[i]@ == split_lines(text@)[i],
{
    let mut lines: Vec<Vec<char>> = Vec::new();
    let mut cur: Vec<char> = Vec::new();
    let mut i: usize = 0;
    proof {
        assert(text@.subrange(0, 0) =~= Seq::<char>::empty());
    }
    while i < text.len()
        invariant
            i <= text@.len(),
            lines@.len() + 1 == split_lines(text@.subrange(0, i as int)).len(),
            forall|k: int| 0 <= k < lines@.len() ==> #[trigger] lines@[k]@ == split_lines(
                text@.subrange(0, i as int),
            )[k],
            cur@ == split_lines(text@.subrange(0, i as int)).last(),
        decreases text@.len() - i,
    {
        let c = text[i];
        proof {
            assert(text@.subrange(0, i + 1).drop_last() =~= text@.subrange(0, i as int));
            lemma_split_lines_len(text@.subrange(0, i as int));
        }
        if c == '\n' || c == ';' {
            lines.push(cur);
            cur = Vec::new();
        } else {
            cur.push(c);
        }
        i += 1;
    }
    proof {
        assert(text@.subrange(0, text@.len() as int) =~= text@);
    }
    lines.push(cur);
    lines
}

/// `s` with `p` replaced by `t` (see `replaced`).
fn replace_all(s: &Vec<char>, p: &Vec<char>, t: &Vec<char>) -> (r: Vec<char>)
    ensures
        r@ == replaced(s@, p@, t@),
{
    if p.len() == 0 {
        return s.clone();
    }
    let mut out: Vec<char> = Vec::new();
    let mut i: usize = 0;
    proof {
        assert(s@.subrange(0, s@.len() as int) =~= s@);
    }
    while i < s.len()
        invariant
            p@.len() > 0,
            i <= s@.len(),
            out@ + replaced(s@.subrange(i as int, s@.len() as int), p@, t@) == replaced(s@, p@, t@),
        decreases s@.len() - i,
    {
        let ghost rest = s@.subrange(i as int, s@.len() as int);
        let mut matches = s.len() - i >= p.len();
        let mut k: usize = 0;
        while k < p.len() && matches
            invariant
                p@.len() > 0,
                i < s@.len(),
                k <= p@.len(),
                rest == s@.subrange(i as int, s@.len() as int),
                matches ==> i + p@.len() <= s@.len(),
                matches ==> forall|j: int| 0 <= j < k ==> s@[i + j] == p@[j],
                !matches ==> rest.len() < p@.len() || rest.subrange(0, p@.len() as int) != p@,
            decreases p@.len() - k,
        {
            assert(i + k < s.len());
            if s[i + k] != p[k] {
                proof {
                    assert(rest.len() >= p@.len());
                    assert(rest.subrange(0, p@.len() as int)[k as int] == s@[i + k]);
                    assert(rest.subrange(0, p@.len() as int)[k as int] != p@[k as int]);
                }
                matches = false;
            }
            k += 1;
        }
        if matches {
            proof {
                assert(rest.subrange(0, p@.len() as int) =~= p@);
                assert(rest.subrange(p@.len() as int, rest.len() as int) =~= s@.subrange(
                    i + p@.len(),
                    s@.len() as int,
                ));
            }
            let mut j: usize = 0;
            let ghost before = out@;
            while j < t.len()
                invariant
                    j <= t@.len(),
                    out@ == before + t@.subrange(0, j as int),
                decreases t@.len() - j,
            {
                out.push(t[j]);
                proof {
                    assert(before + t@.subrange(0, j + 1) =~= (before + t@.subrange(0, j as int)).push(t@[j as int]));
                }
                j += 1;
            }
            proof {
                assert(t@.subrange(0, t@.len() as int) =~= t@);
                assert(out@ + replaced(s@.subrange(i + p@.len(), s@.len() as int), p@, t@) =~= before
                    + replaced(rest, p@, t@));
            }
            i += p.len();
        } else {
            proof {
                assert(rest.subrange(1, rest.len() as int) =~= s@.subrange(i + 1, s@.len() as int));
                assert(rest[0] == s@[i as int]);
                assert(out@.push(s@[i as int]) + replaced(s@.subrange(i + 1, s@.len() as int), p@, t@)
                    =~= out@ + replaced(rest, p@, t@));
            }
            out.push(s[i]);
            i += 1;
        }
    }
    proof {
        assert(s@.subrange(s@.len() as int, s@.len() as int) =~= Seq::<char>::empty());
        assert(out@ + Seq::<char>::empty() =~= out@);
    }
    out
}


// ---------------------------------------------------------------------------
// The grammar of a line.

/// What a line holds.
pub enum LineItem {
    Blank,
    Expression(AstView, ExpressionOptions),
    Words(usize),
    Limit(usize),
    Dict(Seq<char>),
    Quiet,
    Macro(Seq<char>, Seq<char>),
}

pub open spec fn is_ascii_letter(c: char) -> bool {
    ('a' <= c <= 'z') || ('A' <= c <= 'Z')
}

pub open spec fn is_name_char(c: char) -> bool {
    is_ascii_letter(c) || ('0' <= c <= '9') || c == '_'
}

/// The end of the run of letters at `pos`.
pub open spec fn letters_end(s: Seq<char>, pos: int) -> int
    decreases s.len() - pos,
{
    if 0 <= pos < s.len() && is_ascii_letter(s[pos]) {
        letters_end(s, pos + 1)
    } else {
        pos
    }
}

/// The end of the run of identifier characters at `pos`.
pub open spec fn name_end(s: Seq<char>, pos: int) -> int
    decreases s.len() - pos,
{
    if 0 <= pos < s.len() && is_name_char(s[pos]) {
        name_end(s, pos + 1)
    } else {
        pos
    }
}

/// The end of the run of characters other than spaces at `pos`.
pub open spec fn word_end(s: Seq<char>, pos: int) -> int
    decreases s.len() - pos,
{
    if 0 <= pos < s.len() && !is_space(s[pos]) {
        word_end(s, pos + 1)
    } else {
        pos
    }
}

/// The end of the run of spaces at `pos`.
pub open spec fn spaces_end(s: Seq<char>, pos: int) -> int
    decreases s.len() - pos,
{
    if 0 <= pos < s.len() && is_space(s[pos]) {
        spaces_end(s, pos + 1)
    } else {
        pos
    }
}

/// `hi` moved back over the spaces before it, but not below `lo`.
pub open spec fn trim_end(s: Seq<char>, lo: int, hi: int) -> int
    decreases hi - lo,
{
    if lo < hi && 0 < hi <= s.len() && is_space(s[hi - 1]) {
        trim_end(s, lo, hi - 1)
    } else {
        hi
    }
}

/// A pragma taking a number, after its keyword ends at `k`.
pub open spec fn p_number_pragma(s: Seq<char>, k: int, words: bool) -> Result<LineItem, int> {
    let b = skip(s, k);
    match p_number(s, b) {
        Some((n, e)) => if skip(s, e) == s.len() {
            if words {
                Ok(LineItem::Words(n))
            } else {
                Ok(LineItem::Limit(n))
            }
        } else {
            Err(skip(s, e))
        },
        None => Err(b),
    }
}

/// A line: blank, a pragma, a macro definition, or an expression; or the position
/// where it stops parsing.
pub open spec fn p_line(s: Seq<char>) -> Result<LineItem, int> {
    let a = skip(s, 0);
    if a >= s.len() {
        Ok(LineItem::Blank)
    } else if s[a] == '#' {
        let k = letters_end(s, a + 1);
        let kw = s.subrange(a + 1, k);
        if kw == seq!['w', 'o', 'r', 'd', 's'] {
            p_number_pragma(s, k, true)
        } else if kw == seq!['l', 'i', 'm', 'i', 't'] {
            p_number_pragma(s, k, false)
        } else if kw == seq!['d', 'i', 'c', 't'] {
            let b = skip(s, k);
            let e = word_end(s, b);
            if e == b {
                Err(b)
            } else if skip(s, e) == s.len() {
                Ok(LineItem::Dict(s.subrange(b, e)))
            } else {
                Err(skip(s, e))
            }
        } else if kw == seq!['q', 'u', 'i', 'e', 't'] {
            if skip(s, k) == s.len() {
                Ok(LineItem::Quiet)
            } else {
                Err(skip(s, k))
            }
        } else {
            Err(a)
        }
    } else if is_ascii_letter(s[a]) && at(s, skip(s, name_end(s, a)), '=') {
        let eq = skip(s, name_end(s, a));
        let v = spaces_end(s, eq + 1);
        let w = trim_end(s, v, s.len() as int);
        if v < w {
            Ok(LineItem::Macro(s.subrange(a, name_end(s, a)), s.subrange(v, w)))
        } else {
            Err(v)
        }
    } else {
        match expression_of(s) {
            Ok((root, opts)) => Ok(LineItem::Expression(root, opts)),
            Err(z) => Err(z),
        }
    }
}

proof fn lemma_letters_end(s: Seq<char>, pos: int)
    requires
        0 <= pos <= s.len(),
    ensures
        pos <= letters_end(s, pos) <= s.len(),
    decreases s.len() - pos,
{
    if pos < s.len() && is_ascii_letter(s[pos]) {
        lemma_letters_end(s, pos + 1);
    }
}

proof fn lemma_name_end(s: Seq<char>, pos: int)
    requires
        0 <= pos <= s.len(),
    ensures
        pos <= name_end(s, pos) <= s.len(),
    decreases s.len() - pos,
{
    if pos < s.len() && is_name_char(s[pos]) {
        lemma_name_end(s, pos + 1);
    }
}

proof fn lemma_word_end(s: Seq<char>, pos: int)
    requires
        0 <= pos <= s.len(),
    ensures
        pos <= word_end(s, pos) <= s.len(),
    decreases s.len() - pos,
{
    if pos < s.len() && !is_space(s[pos]) {
        lemma_word_end(s, pos + 1);
    }
}

proof fn lemma_spaces_end(s: Seq<char>, pos: int)
    requires
        0 <= pos <= s.len(),
    ensures
        pos <= spaces_end(s, pos) <= s.len(),
    decreases s.len() - pos,
{
    if pos < s.len() && is_space(s[pos]) {
        lemma_spaces_end(s, pos + 1);
    }
}

proof fn lemma_trim_end(s: Seq<char>, lo: int, hi: int)
    requires
        0 <= lo <= hi <= s.len(),
    ensures
        lo <= trim_end(s, lo, hi) <= hi,
    decreases hi - lo,
{
    if lo < hi && 0 < hi && is_space(s[hi - 1]) {
        lemma_trim_end(s, lo, hi - 1);
    }
}

fn letters_end_exec(s: &Vec<char>, pos: usize) -> (r: usize)
    requires
        pos <= s@.len(),
    ensures
        r == letters_end(s@, pos as int),
    decreases s@.len() - pos,
{
    if pos < s.len() && (('a' <= s[pos] && s[pos] <= 'z') || ('A' <= s[pos] && s[pos] <= 'Z')) {
        letters_end_exec(s, pos + 1)
    } else {
        pos
    }
}

fn name_end_exec(s: &Vec<char>, pos: usize) -> (r: usize)
    requires
        pos <= s@.len(),
    ensures
        r == name_end(s@, pos as int),
    decreases s@.len() - pos,
{
    if pos < s.len() && (('a' <= s[pos] && s[pos] <= 'z') || ('A' <= s[pos] && s[pos] <= 'Z') || (
    '0' <= s[pos] && s[pos] <= '9') || s[pos] == '_') {
        name_end_exec(s, pos + 1)
    } else {
        pos
    }
}

fn word_end_exec(s: &Vec<char>, pos: usize) -> (r: usize)
    requires
        pos <= s@.len(),
    ensures
        r == word_end(s@, pos as int),
    decreases s@.len() - pos,
{
    if pos < s.len() && !is_space_exec(s[pos]) {
        word_end_exec(s, pos + 1)
    } else {
        pos
    }
}

fn spaces_end_exec(s: &Vec<char>, pos: usize) -> (r: usize)
    requires
        pos <= s@.len(),
    ensures
        r == spaces_end(s@, pos as int),
    decreases s@.len() - pos,
{
    if pos < s.len() && is_space_exec(s[pos]) {
        spaces_end_exec(s, pos + 1)
    } else {
        pos
    }
}

fn trim_end_exec(s: &Vec<char>, lo: usize, hi: usize) -> (r: usize)
    requires
        lo <= hi <= s@.len(),
    ensures
        r == trim_end(s@, lo as int, hi as int),
    decreases hi - lo,
{
    if lo < hi && is_space_exec(s[hi - 1]) {
        trim_end_exec(s, lo, hi - 1)
    } else {
        hi
    }
}

/// Whether `s[lo..hi]` spells `word`.
fn spells(s: &Vec<char>, lo: usize, hi: usize, word: &[char]) -> (r: bool)
    requires
        lo <= hi <= s@.len(),
    ensures
        r == (s@.subrange(lo as int, hi as int) == word@),
{
    if hi - lo != word.len() {
        return false;
    }
    let mut k: usize = 0;
    while k < word.len()
        invariant
            hi - lo == word@.len(),
            lo <= hi <= s@.len(),
            k <= word@.len(),
            forall|j: int| 0 <= j < k ==> s@[lo + j] == word@[j],
        decreases word@.len() - k,
    {
        if s[lo + k] != word[k] {
            proof {
                assert(s@.subrange(lo as int, hi as int)[k as int] != word@[k as int]);
            }
            return false;
        }
        k += 1;
    }
    proof {
        assert(s@.subrange(lo as int, hi as int) =~= word@);
    }
    true
}

/// The item of a line as plain values: the pragmas and macro hold text, an
/// expression its tree and options.
pub enum ParsedLine {
    Blank,
    Expression(crate::parser::Ast, ExpressionOptions),
    Words(usize),
    Limit(usize),
    Dict(Vec<char>),
    Quiet,
    Macro(Vec<char>, Vec<char>),
}

/// The parsed line stands for the item.
pub open spec fn parsed_as(p: ParsedLine, item: LineItem) -> bool {
    match p {
        ParsedLine::Blank => item == LineItem::Blank,
        ParsedLine::Expression(root, opts) => item == LineItem::Expression(root@, opts),
        ParsedLine::Words(n) => item == LineItem::Words(n),
        ParsedLine::Limit(n) => item == LineItem::Limit(n),
        ParsedLine::Dict(d) => item == LineItem::Dict(d@),
        ParsedLine::Quiet => item == LineItem::Quiet,
        ParsedLine::Macro(n, v) => item == LineItem::Macro(n@, v@),
    }
}

fn number_pragma_exec(s: &Vec<char>, k: usize, words: bool) -> (r: Result<ParsedLine, usize>)
    requires
        s@.len() < usize::MAX,
        k <= s@.len(),
    ensures
        match r {
            Ok(p) => p_number_pragma(s@, k as int, words) matches Ok(item) && parsed_as(p, item),
            Err(z) => p_number_pragma(s@, k as int, words) == Err::<LineItem, int>(z as int) && z
                <= s@.len(),
        },
{
    let b = skip_exec(s, k);
    match number_exec(s, b) {
        Some((n, e)) => {
            proof {
                lemma_digits_end(s@, b as int);
            }
            let z = skip_exec(s, e);
            if z == s.len() {
                if words {
                    Ok(ParsedLine::Words(n))
                } else {
                    Ok(ParsedLine::Limit(n))
                }
            } else {
                Err(z)
            }
        },
        None => Err(b),
    }
}

/// Parses a line (see `p_line`).
fn parse_line(s: &Vec<char>) -> (r: Result<ParsedLine, usize>)
    requires
        s@.len() < usize::MAX,
    ensures
        match r {
            Ok(p) => p_line(s@) matches Ok(item) && parsed_as(p, item),
            Err(z) => p_line(s@) == Err::<LineItem, int>(z as int) && z <= s@.len(),
        },
{
    let a = skip_exec(s, 0);
    if a >= s.len() {
        assert(p_line(s@) == Ok::<LineItem, int>(LineItem::Blank));
        return Ok(ParsedLine::Blank);
    }
    if s[a] == '#' {
        let k = letters_end_exec(s, a + 1);
        proof {
            lemma_letters_end(s@, a + 1);
        }
        let kw_words = ['w', 'o', 'r', 'd', 's'];
        let kw_limit = ['l', 'i', 'm', 'i', 't'];
        let kw_dict = ['d', 'i', 'c', 't'];
        let kw_quiet = ['q', 'u', 'i', 'e', 't'];
        proof {
            assert(kw_words@ =~= seq!['w', 'o', 'r', 'd', 's']);
            assert(kw_limit@ =~= seq!['l', 'i', 'm', 'i', 't']);
            assert(kw_dict@ =~= seq!['d', 'i', 'c', 't']);
            assert(kw_quiet@ =~= seq!['q', 'u', 'i', 'e', 't']);
        }
        if spells(s, a + 1, k, &kw_words) {
            let r = number_pragma_exec(s, k, true);
            assert(p_line(s@) == p_number_pragma(s@, k as int, true));
            r
        } else if spells(s, a + 1, k, &kw_limit) {
            let r = number_pragma_exec(s, k, false);
            assert(p_line(s@) == p_number_pragma(s@, k as int, false));
            r
        } else if spells(s, a + 1, k, &kw_dict) {
            let b = skip_exec(s, k);
            let e = word_end_exec(s, b);
            proof {
                lemma_word_end(s@, b as int);
            }
            if e == b {
                Err(b)
            } else {
                let z = skip_exec(s, e);
                if z == s.len() {
                    let mut d: Vec<char> = Vec::new();
                    let mut i = b;
                    while i < e
                        invariant
                            b <= i <= e <= s@.len(),
                            d@ == s@.subrange(b as int, i as int),
                        decreases e - i,
                    {
                        d.push(s[i]);
                        proof {
                            assert(d@ =~= s@.subrange(b as int, i + 1));
                        }
                        i += 1;
                    }
                    assert(p_line(s@) == Ok::<LineItem, int>(LineItem::Dict(d@)));
                    Ok(ParsedLine::Dict(d))
                } else {
                    Err(z)
                }
            }
        } else if spells(s, a + 1, k, &kw_quiet) {
            let z = skip_exec(s, k);
            if z == s.len() {
                assert(p_line(s@) == Ok::<LineItem, int>(LineItem::Quiet));
                Ok(ParsedLine::Quiet)
            } else {
                Err(z)
            }
        } else {
            Err(a)
        }
    } else {
        let ne = name_end_exec(s, a);
        proof {
            lemma_name_end(s@, a as int);
        }
        let eq = skip_exec(s, ne);
        let letter = ('a' <= s[a] && s[a] <= 'z') || ('A' <= s[a] && s[a] <= 'Z');
        if letter && at_exec(s, eq, '=') {
            let v = spaces_end_exec(s, eq + 1);
            proof {
                lemma_spaces_end(s@, eq + 1);
            }
            let w = trim_end_exec(s, v, s.len());
            proof {
                lemma_trim_end(s@, v as int, s@.len() as int);
            }
            if v < w {
                let mut name: Vec<char> = Vec::new();
                let mut i = a;
                while i < ne
                    invariant
                        a <= i <= ne <= s@.len(),
                        name@ == s@.subrange(a as int, i as int),
                    decreases ne - i,
                {
                    name.push(s[i]);
                    proof {
                        assert(name@ =~= s@.subrange(a as int, i + 1));
                    }
                    i += 1;
                }
                let mut value: Vec<char> = Vec::new();
                let mut i = v;
                while i < w
                    invariant
                        v <= i <= w <= s@.len(),
                        value@ == s@.subrange(v as int, i as int),
                    decreases w - i,
                {
                    value.push(s[i]);
                    proof {
                        assert(value@ =~= s@.subrange(v as int, i + 1));
                    }
                    i += 1;
                }
                assert(p_line(s@) == Ok::<LineItem, int>(LineItem::Macro(name@, value@)));
                Ok(ParsedLine::Macro(name, value))
            } else {
                Err(v)
            }
        } else {
            match parse_expression_chars(s) {
                Ok((root, opts)) => {
                    assert(p_line(s@) == Ok::<LineItem, int>(LineItem::Expression(root@, opts)));
                    Ok(ParsedLine::Expression(root, opts))
                },
                Err(z) => Err(z),
            }
        }
    }
}


// ---------------------------------------------------------------------------
// Queries.

/// Options that a query's pragmas set (`None` where no pragma sets one).
#[derive(Debug, Clone, PartialEq, Eq)]
pub struct QueryOptions {
    /// `#words`: the most words to combine into a phrase.
    pub max_words: Option<usize>,
    /// `#dict`: the word list to use.
    pub dictionary: Option<String>,
    /// `#limit`: the most results to return.
    pub results_limit: Option<usize>,
    /// `#quiet`: no progress output.
    pub quiet: Option<bool>,
}

/// One answer while a query is evaluated: the time ran out, progress messages, a
/// matching word or phrase, or the end of the evaluation with a summary.
#[derive(Debug, Clone, PartialEq, Eq)]
pub enum QueryResponse {
    Timeout,
    Logs(Vec<String>),
    Match(Vec<Word>),
    Complete(String),
}

/// A parsed query: its text, macros, expressions (anagrams expanded) and options.
#[derive(Debug)]
pub struct QueryAst {
    original_text: String,
    macros: IndexMap<String, String>,
    pub expressions: Vec<ExpressionAst>,
    pub options: QueryOptions,
}

/// An expression of a query, before anagrams are expanded: its tree, options,
/// and the line it was parsed from (macros substituted).
pub struct QueryExpression {
    pub root: AstView,
    pub options: ExpressionOptions,
    pub text: Seq<char>,
}

/// What the lines parsed so far have defined.
pub struct QueryState {
    pub macros: Seq<(Seq<char>, Seq<char>)>,
    pub expressions: Seq<QueryExpression>,
    pub max_words: Option<usize>,
    pub dictionary: Option<Seq<char>>,
    pub results_limit: Option<usize>,
    pub quiet: Option<bool>,
}

/// Nothing defined yet.
pub open spec fn initial_state() -> QueryState {
    QueryState {
        macros: Seq::empty(),
        expressions: Seq::empty(),
        max_words: None,
        dictionary: None,
        results_limit: None,
        quiet: None,
    }
}

/// The state after a line `text` holding `item`.
pub open spec fn apply_item(st: QueryState, item: LineItem, text: Seq<char>) -> QueryState {
    match item {
        LineItem::Blank => st,
        LineItem::Expression(root, options) => QueryState {
            expressions: st.expressions.push(QueryExpression { root, options, text }),
            ..st
        },
        LineItem::Words(n) => QueryState { max_words: Some(n), ..st },
        LineItem::Limit(n) => QueryState { results_limit: Some(n), ..st },
        LineItem::Dict(d) => QueryState { dictionary: Some(d), ..st },
        LineItem::Quiet => QueryState { quiet: Some(true), ..st },
        LineItem::Macro(name, value) => QueryState {
            macros: entries_insert(st.macros, name, value),
            ..st
        },
    }
}

/// The state after the first `k` lines, or the first error: a line that does not
/// parse gives its number (from 1) and the column where it stops (from 1); a line
/// that macros make too long to index gives column 0.
pub open spec fn query_state(lines: Seq<Seq<char>>, k: int) -> Result<QueryState, ParseError>
    decreases k,
{
    if k <= 0 {
        Ok(initial_state())
    } else {
        match query_state(lines, k - 1) {
            Err(e) => Err(e),
            Ok(st) => {
                let line = apply_macros(lines[k - 1], st.macros);
                if line.len() >= usize::MAX {
                    Err(ParseError { line: k as usize, column: 0 })
                } else {
                    match p_line(line) {
                        Err(z) => Err(ParseError { line: k as usize, column: (z + 1) as usize }),
                        Ok(item) => Ok(apply_item(st, item, line)),
                    }
                }
            },
        }
    }
}

/// The query `text` line by line, before anagrams are expanded.
pub open spec fn parse_query(text: Seq<char>) -> Result<QueryState, ParseError> {
    query_state(split_lines(text), split_lines(text).len() as int)
}

/// No two entries have the same name.
pub open spec fn distinct_names(e: Seq<(Seq<char>, Seq<char>)>) -> bool {
    forall|i: int, j: int| 0 <= i < j < e.len() ==> #[trigger] e[i].0 != #[trigger] e[j].0
}

proof fn lemma_entries_insert(e: Seq<(Seq<char>, Seq<char>)>, name: Seq<char>, value: Seq<char>)
    requires
        distinct_names(e),
    ensures
        distinct_names(entries_insert(e, name, value)),
{
    let r = entries_insert(e, name, value);
    if exists|i: int| 0 <= i < e.len() && #[trigger] e[i].0 == name {
        let k = choose|i: int| 0 <= i < e.len() && #[trigger] e[i].0 == name;
        assert forall|i: int, j: int| 0 <= i < j < r.len() implies #[trigger] r[i].0 != #[trigger] r[j].0 by {
            assert(e[i].0 != e[j].0);
        }
    } else {
        assert forall|i: int, j: int| 0 <= i < j < r.len() implies #[trigger] r[i].0 != #[trigger] r[j].0 by {
            if j == e.len() {
                assert(e[i].0 != name);
            } else {
                assert(e[i].0 != e[j].0);
            }
        }
    }
}

proof fn lemma_query_state_macros(lines: Seq<Seq<char>>, k: int)
    ensures
        query_state(lines, k) matches Ok(st) ==> distinct_names(st.macros),
    decreases k,
{
    if k > 0 {
        lemma_query_state_macros(lines, k - 1);
        if let Ok(st) = query_state(lines, k - 1) {
            let line = apply_macros(lines[k - 1], st.macros);
            if line.len() < usize::MAX {
                if let Ok(item) = p_line(line) {
                    if let LineItem::Macro(name, value) = item {
                        lemma_entries_insert(st.macros, name, value);
                    }
                }
            }
        }
    }
}

/// The line with the table's macros substituted in turn.
fn substitute_macros(line: Vec<char>, macros: &IndexMap<String, String>) -> (r: Vec<char>)
    ensures
        r@ == apply_macros(line@, macro_entries(*macros)),
{
    let ghost e = macro_entries(*macros);
    let n = macros_len(macros);
    let mut line = line;
    let ghost start = line@;
    let mut i: usize = 0;
    proof {
        assert(e.subrange(0, 0) =~= Seq::<(Seq<char>, Seq<char>)>::empty());
    }
    while i < n
        invariant
            n == e.len(),
            e == macro_entries(*macros),
            i <= n,
            line@ == apply_macros(start, e.subrange(0, i as int)),
        decreases n - i,
    {
        match macros_get_index(macros, i) {
            Some((name, value)) => {
                let p = chars_of(name.as_str());
                let t = chars_of(value.as_str());
                line = replace_all(&line, &p, &t);
                proof {
                    assert(e.subrange(0, i + 1).drop_last() =~= e.subrange(0, i as int));
                }
            },
            None => {},
        }
        i += 1;
    }
    proof {
        assert(e.subrange(0, n as int) =~= e);
    }
    line
}

impl QueryAst {
    /// The macros, in the order of definition.
    pub closed spec fn macros_view(&self) -> Seq<(Seq<char>, Seq<char>)> {
        macro_entries(self.macros)
    }

    /// The text the query was parsed from.
    pub closed spec fn text_view(&self) -> Seq<char> {
        self.original_text@
    }

    /// The expressions, anagrams expanded.
    pub closed spec fn expression_list(&self) -> Seq<ExpressionAst> {
        self.expressions@
    }

    /// The options the pragmas set.
    pub closed spec fn query_options(&self) -> QueryOptions {
        self.options
    }

    /// The expressions, anagrams expanded.
    pub fn expression_asts(&self) -> (r: &Vec<ExpressionAst>)
        ensures
            r@ == self.expression_list(),
    {
        &self.expressions
    }

    /// The options the pragmas set.
    pub fn options_ref(&self) -> (r: &QueryOptions)
        ensures
            *r == self.query_options(),
    {
        &self.options
    }
}


// ---------------------------------------------------------------------------
// Expanding anagrams: an expression with anagrams becomes several expressions,
// each constraining one letter of every anagram (or its length).

/// The anagrams of a tree, in order, leaving out those inside repetitions.
pub open spec fn anagrams_of(a: AstView) -> Seq<(AnagramKind, Seq<Char>)>
    decreases a, 1int,
{
    match a {
        AstView::CharClass(_) => seq![],
        AstView::Alternatives(v) => anagrams_list(v),
        AstView::Sequence(v) => anagrams_list(v),
        AstView::Repetition { .. } => seq![],
        AstView::Anagram { kind, bank } => seq![(kind, bank)],
    }
}

pub open spec fn anagrams_list(v: Seq<AstView>) -> Seq<(AnagramKind, Seq<Char>)>
    decreases v, 0int,
{
    if v.len() == 0 {
        seq![]
    } else {
        anagrams_list(v.drop_last()) + anagrams_of(v.last())
    }
}

/// How many symbols of the bank are symbol `i`.
pub open spec fn count_in(bank: Seq<Char>, i: int) -> nat
    decreases bank.len(),
{
    if bank.len() == 0 {
        0
    } else {
        count_in(bank.drop_last(), i) + if bank.last().index() == i {
            1nat
        } else {
            0nat
        }
    }
}

/// The symbols below `k` that the bank holds, in order, each with its count.
pub open spec fn histogram_upto(bank: Seq<Char>, k: int) -> Seq<(int, nat)>
    decreases k,
{
    if k <= 0 {
        seq![]
    } else {
        histogram_upto(bank, k - 1) + if count_in(bank, k - 1) > 0 {
            seq![(k - 1, count_in(bank, k - 1))]
        } else {
            Seq::<(int, nat)>::empty()
        }
    }
}

/// The symbols of the bank, in order, each with its count.
pub open spec fn histogram(bank: Seq<Char>) -> Seq<(int, nat)> {
    histogram_upto(bank, 28)
}

/// The sum of the counts.
pub open spec fn total(h: Seq<(int, nat)>) -> nat
    decreases h.len(),
{
    if h.len() == 0 {
        0
    } else {
        total(h.drop_last()) + h.last().1
    }
}

/// The symbols of the histogram.
pub open spec fn hist_symbols(h: Seq<(int, nat)>) -> Set<int> {
    Set::new(|x: int| exists|j: int| 0 <= j < h.len() && #[trigger] h[j].0 == x)
}

/// `term` repeated between `min` and `max` times.
pub open spec fn rep(term: AstView, min: usize, max: Option<usize>) -> AstView {
    AstView::Repetition { term: Box::new(term), min, max }
}

/// The expression that stands for an anagram of the histogram's letters in the
/// `nth` of its expansions: for each of its symbols, that many copies of the symbol
/// with only the bank's other letters (any letters, if it may grow) around them;
/// after the last symbol, a constraint on the length.
pub open spec fn ast_for_anagram(kind: AnagramKind, h: Seq<(int, nat)>, nth: int) -> AstView {
    let chars = hist_symbols(h);
    let exact = kind is Standard || kind is Super || kind is TransAdd;
    if 0 <= nth < h.len() {
        let ch = h[nth].0;
        let count = h[nth].1;
        let one = AstView::CharClass(Set::empty().insert(ch));
        let char_ast = if exact {
            one
        } else {
            rep(one, 0, Some(1))
        };
        let fill_ast = if kind is Standard || kind is Sub || kind is TransDelete {
            rep(AstView::CharClass(chars.remove(ch)), 0, None)
        } else {
            rep(AstView::CharClass(letter_set()), 0, None)
        };
        AstView::Sequence(
            Seq::new(
                2 * count + 1,
                |k: int|
                    if k % 2 == 0 {
                        fill_ast
                    } else {
                        char_ast
                    },
            ),
        )
    } else {
        let t = total(h);
        match kind {
            AnagramKind::Standard => rep(AstView::CharClass(chars), t as usize, Some(t as usize)),
            AnagramKind::Sub => rep(AstView::CharClass(chars), 0, Some(t as usize)),
            AnagramKind::TransDelete(d) => {
                let m = if t >= d {
                    (t - d) as usize
                } else {
                    0usize
                };
                rep(AstView::CharClass(chars), m, Some(m))
            },
            AnagramKind::Super => rep(AstView::CharClass(letter_set()), t as usize, None),
            AnagramKind::TransAdd(a) => rep(
                AstView::CharClass(letter_set()),
                (t + a) as usize,
                Some((t + a) as usize),
            ),
        }
    }
}

// ---------------------------------------------------------------------------
// The words a tree matches, and what an anagram's expansion lets through.

/// The tree matches the word, a sequence of symbols: a class one of its symbols,
/// alternatives when one does, a sequence when the word splits into parts that its
/// trees match in turn, a repetition when the word splits into between `min` and
/// `max` parts that its term matches. An anagram matches nothing until expanded.
pub open spec fn tree_matches(a: AstView, w: Seq<int>) -> bool
    decreases a, 0nat,
{
    match a {
        AstView::CharClass(c) => w.len() == 1 && c.contains(w[0]),
        AstView::Alternatives(v) => exists|k: int| 0 <= k < v.len() && tree_matches(#[trigger] v[k], w),
        AstView::Sequence(v) => seq_matches(v, w),
        AstView::Repetition { term, min, max } => exists|n: nat|
            #[trigger] within(n, min, max) && rep_matches(*term, n, w),
        AstView::Anagram { .. } => false,
    }
}

/// `n` lies between `min` and `max` (no upper bound where `max` is `None`).
pub open spec fn within(n: nat, min: usize, max: Option<usize>) -> bool {
    min <= n && (max matches Some(m) ==> n <= m)
}

/// The word splits into parts that the trees of `v` match in turn.
pub open spec fn seq_matches(v: Seq<AstView>, w: Seq<int>) -> bool
    decreases v, 0nat,
{
    if v.len() == 0 {
        w.len() == 0
    } else {
        exists|i: int|
            #![trigger w.subrange(i, w.len() as int)]
            0 <= i <= w.len() && seq_matches(v.subrange(0, v.len() - 1), w.subrange(0, i)) && tree_matches(
                v[v.len() - 1],
                w.subrange(i, w.len() as int),
            )
    }
}

/// The word splits into `n` parts that `term` matches.
pub open spec fn rep_matches(term: AstView, n: nat, w: Seq<int>) -> bool
    decreases term, n + 1,
{
    if n == 0 {
        w.len() == 0
    } else {
        exists|i: int|
            #![trigger w.subrange(i, w.len() as int)]
            0 <= i <= w.len() && tree_matches(term, w.subrange(0, i)) && rep_matches(
                term,
                (n - 1) as nat,
                w.subrange(i, w.len() as int),
            )
    }
}

proof fn lemma_rep_intro(term: AstView, min: usize, max: Option<usize>, n: nat, w: Seq<int>)
    requires
        within(n, min, max),
        rep_matches(term, n, w),
    ensures
        tree_matches(AstView::Repetition { term: Box::new(term), min, max }, w),
{
    let a = AstView::Repetition { term: Box::new(term), min, max };
    assert(within(n, min, max));
    match a {
        AstView::Repetition { term: t2, min: m1, max: m2 } => {
            assert(*t2 == term);
            assert(within(n, m1, m2) && rep_matches(*t2, n, w));
        },
        _ => {},
    }
}

proof fn lemma_rep_step(term: AstView, n: nat, w: Seq<int>, i: int)
    requires
        n > 0,
        0 <= i <= w.len(),
        tree_matches(term, w.subrange(0, i)),
        rep_matches(term, (n - 1) as nat, w.subrange(i, w.len() as int)),
    ensures
        rep_matches(term, n, w),
{
    reveal_with_fuel(tree_matches, 2);
    reveal_with_fuel(rep_matches, 2);
    reveal_with_fuel(seq_matches, 2);
    assert(rep_matches(term, n, w) == exists|k: int|
        #![trigger w.subrange(k, w.len() as int)]
        0 <= k <= w.len() && tree_matches(term, w.subrange(0, k)) && rep_matches(term, (n - 1) as nat, w.subrange(k, w.len() as int)));
}

proof fn lemma_seq_step(v: Seq<AstView>, w: Seq<int>, i: int)
    requires
        v.len() > 0,
        0 <= i <= w.len(),
        seq_matches(v.subrange(0, v.len() - 1), w.subrange(0, i)),
        tree_matches(v[v.len() - 1], w.subrange(i, w.len() as int)),
    ensures
        seq_matches(v, w),
        tree_matches(AstView::Sequence(v), w),
{
    reveal_with_fuel(tree_matches, 2);
    reveal_with_fuel(rep_matches, 2);
    reveal_with_fuel(seq_matches, 2);
    assert(seq_matches(v, w) == exists|k: int|
        #![trigger w.subrange(k, w.len() as int)]
        0 <= k <= w.len() && seq_matches(v.subrange(0, v.len() - 1), w.subrange(0, k)) && tree_matches(
            v[v.len() - 1],
            w.subrange(k, w.len() as int),
        ));
    assert(tree_matches(AstView::Sequence(v), w) == seq_matches(v, w));
}

/// How many times `x` occurs in the word.
pub open spec fn occurrences(w: Seq<int>, x: int) -> nat
    decreases w.len(),
{
    if w.len() == 0 {
        0
    } else {
        occurrences(w.drop_last(), x) + if w.last() == x {
            1nat
        } else {
            0nat
        }
    }
}

/// The last position of `x` in a word that holds it.
proof fn lemma_last_occurrence(u: Seq<int>, x: int) -> (l: int)
    requires
        occurrences(u, x) > 0,
    ensures
        0 <= l < u.len(),
        u[l] == x,
        forall|j: int| l < j < u.len() ==> u[j] != x,
        occurrences(u.subrange(0, l), x) + 1 == occurrences(u, x),
    decreases u.len(),
{
    if u.last() == x {
        assert(u.subrange(0, u.len() - 1) =~= u.drop_last());
        u.len() - 1
    } else {
        let l = lemma_last_occurrence(u.drop_last(), x);
        assert(u.subrange(0, l) =~= u.drop_last().subrange(0, l));
        assert forall|j: int| l < j < u.len() implies u[j] != x by {
            if j < u.len() - 1 {
                assert(u[j] == u.drop_last()[j]);
            }
        }
        l
    }
}

/// A class repeated as many times as the word is long matches a word of its symbols.
proof fn lemma_class_repeated(f: Set<int>, u: Seq<int>)
    requires
        forall|i: int| 0 <= i < u.len() ==> f.contains(#[trigger] u[i]),
    ensures
        rep_matches(AstView::CharClass(f), u.len(), u),
    decreases u.len(),
{
    if u.len() > 0 {
        let rest = u.subrange(1, u.len() as int);
        assert forall|i: int| 0 <= i < rest.len() implies f.contains(#[trigger] rest[i]) by {
            assert(rest[i] == u[i + 1]);
        }
        lemma_class_repeated(f, rest);
        assert(tree_matches(AstView::CharClass(f), u.subrange(0, 1)));
        lemma_rep_step(AstView::CharClass(f), u.len(), u, 1);
    }
}

proof fn lemma_seq_tree(v: Seq<AstView>, w: Seq<int>)
    requires
        seq_matches(v, w),
    ensures
        tree_matches(AstView::Sequence(v), w),
{
    let a = AstView::Sequence(v);
    match a {
        AstView::Sequence(v2) => {
            assert(v2 == v);
            assert(seq_matches(v2, w));
        },
        _ => {},
    }
}

/// Trees that each match the empty word match it in sequence.
proof fn lemma_seq_empty(v: Seq<AstView>)
    requires
        forall|k: int| 0 <= k < v.len() ==> tree_matches(#[trigger] v[k], Seq::<int>::empty()),
    ensures
        seq_matches(v, Seq::<int>::empty()),
    decreases v.len(),
{
    let e = Seq::<int>::empty();
    if v.len() > 0 {
        let v1 = v.subrange(0, v.len() - 1);
        assert forall|k: int| 0 <= k < v1.len() implies tree_matches(#[trigger] v1[k], Seq::<int>::empty()) by {
            assert(v1[k] == v[k]);
        }
        lemma_seq_empty(v1);
        assert(e.subrange(0, 0) =~= e);
        assert(tree_matches(v[v.len() - 1], e.subrange(0, 0)));
        lemma_seq_step(v, e, 0);
    } else {
        assert(seq_matches(v, e));
    }
}

/// The sequence of an expanded anagram's symbol: `fill`, then `c` times over `opt`
/// and `fill`.
pub open spec fn slots(v: Seq<AstView>, fill: AstView, opt: AstView, c: nat) -> bool {
    &&& v.len() == 2 * c + 1
    &&& forall|k: int| 0 <= k < v.len() ==> #[trigger] v[k] == if k % 2 == 0 {
        fill
    } else {
        opt
    }
}

/// Slots that let the symbol `ch` be left out match a word with at most as many
/// copies of `ch` as there are slots, the rest of its symbols from `f`.
proof fn lemma_optional_slots(f: Set<int>, ch: int, v: Seq<AstView>, c: nat, u: Seq<int>)
    requires
        slots(
            v,
            AstView::Repetition { term: Box::new(AstView::CharClass(f)), min: 0, max: None },
            AstView::Repetition { term: Box::new(AstView::CharClass(Set::empty().insert(ch))), min: 0, max: Some(1) },
            c,
        ),
        forall|i: int| 0 <= i < u.len() ==> #[trigger] u[i] == ch || f.contains(u[i]),
        occurrences(u, ch) <= c,
    ensures
        seq_matches(v, u),
    decreases c,
{
    let fill = AstView::Repetition { term: Box::new(AstView::CharClass(f)), min: 0, max: None };
    let one = AstView::CharClass(Set::empty().insert(ch));
    let opt = AstView::Repetition { term: Box::new(one), min: 0, max: Some(1) };
    let e = Seq::<int>::empty();
    assert(rep_matches(AstView::CharClass(f), 0, e));
    lemma_rep_intro(AstView::CharClass(f), 0, None, 0, e);
    assert(rep_matches(one, 0, e));
    lemma_rep_intro(one, 0, Some(1), 0, e);
    let v1 = v.subrange(0, v.len() - 1);
    assert(v[v.len() - 1] == fill);
    if occurrences(u, ch) == 0 {
        // no copy: the last fill takes the whole word, every other slot nothing
        assert forall|i: int| 0 <= i < u.len() implies f.contains(#[trigger] u[i]) by {
            if u[i] == ch {
                lemma_occurrence_counted(u, ch, i);
            }
        }
        lemma_class_repeated(f, u);
        lemma_rep_intro(AstView::CharClass(f), 0, None, u.len(), u);
        assert(u.subrange(0, u.len() as int) =~= u);
        assert forall|k: int| 0 <= k < v1.len() implies tree_matches(#[trigger] v1[k], Seq::<int>::empty()) by {
            assert(v1[k] == v[k]);
        }
        lemma_seq_empty(v1);
        assert(u.subrange(0, 0) =~= e);
        lemma_seq_step(v, u, 0);
    } else {
        // the last copy goes in the last optional slot, what follows it in the last fill
        let l = lemma_last_occurrence(u, ch);
        let after = u.subrange(l + 1, u.len() as int);
        assert forall|i: int| 0 <= i < after.len() implies f.contains(#[trigger] after[i]) by {
            assert(after[i] == u[l + 1 + i]);
        }
        lemma_class_repeated(f, after);
        lemma_rep_intro(AstView::CharClass(f), 0, None, after.len(), after);
        let upto = u.subrange(0, l + 1);
        let before = u.subrange(0, l);
        assert(c >= 1);
        let v2 = v1.subrange(0, v1.len() - 1);
        assert(slots(v2, fill, opt, (c - 1) as nat)) by {
            assert forall|k: int| 0 <= k < v2.len() implies #[trigger] v2[k] == if k % 2 == 0 {
                fill
            } else {
                opt
            } by {
                assert(v2[k] == v[k]);
            }
        }
        assert forall|i: int| 0 <= i < before.len() implies #[trigger] before[i] == ch || f.contains(before[i]) by {
            assert(before[i] == u[i]);
        }
        lemma_optional_slots(f, ch, v2, (c - 1) as nat, before);
        let last = upto.subrange(l, upto.len() as int);
        assert(last =~= seq![ch]);
        assert(last.subrange(1, 1) =~= e);
        assert(rep_matches(one, 0, last.subrange(1, last.len() as int)));
        assert(tree_matches(one, last.subrange(0, 1)));
        lemma_rep_step(one, 1, last, 1);
        lemma_rep_intro(one, 0, Some(1), 1, last);
        assert(v1[v1.len() - 1] == opt);
        assert(upto.subrange(0, l) =~= before);
        lemma_seq_step(v1, upto, l);
        assert(u.subrange(0, l + 1) == upto);
        assert(u.subrange(l + 1, u.len() as int) == after);
        lemma_seq_step(v, u, l + 1);
    }
}

/// Slots that each need the symbol `ch` match a word with exactly as many copies of
/// `ch` as there are slots, the rest of its symbols from `f`; or with at least as
/// many, where `f` holds `ch` too.
proof fn lemma_required_slots(f: Set<int>, ch: int, v: Seq<AstView>, c: nat, u: Seq<int>)
    requires
        slots(
            v,
            AstView::Repetition { term: Box::new(AstView::CharClass(f)), min: 0, max: None },
            AstView::CharClass(Set::empty().insert(ch)),
            c,
        ),
        forall|i: int| 0 <= i < u.len() ==> #[trigger] u[i] == ch || f.contains(u[i]),
        occurrences(u, ch) == c || (f.contains(ch) && occurrences(u, ch) >= c),
    ensures
        seq_matches(v, u),
    decreases c,
{
    let fill = AstView::Repetition { term: Box::new(AstView::CharClass(f)), min: 0, max: None };
    let one = AstView::CharClass(Set::empty().insert(ch));
    let e = Seq::<int>::empty();
    let v1 = v.subrange(0, v.len() - 1);
    assert(v[v.len() - 1] == fill);
    if c == 0 {
        assert forall|i: int| 0 <= i < u.len() implies f.contains(#[trigger] u[i]) by {
            if u[i] == ch && !f.contains(ch) {
                lemma_occurrence_counted(u, ch, i);
            }
        }
        lemma_class_repeated(f, u);
        lemma_rep_intro(AstView::CharClass(f), 0, None, u.len(), u);
        assert(u.subrange(0, u.len() as int) =~= u);
        assert(v1 =~= Seq::<AstView>::empty());
        assert(u.subrange(0, 0) =~= e);
        assert(seq_matches(v1, u.subrange(0, 0)));
        lemma_seq_step(v, u, 0);
    } else {
        // the last copy takes the last slot, what follows it the last fill
        let l = lemma_last_occurrence(u, ch);
        let after = u.subrange(l + 1, u.len() as int);
        assert forall|i: int| 0 <= i < after.len() implies f.contains(#[trigger] after[i]) by {
            assert(after[i] == u[l + 1 + i]);
        }
        lemma_class_repeated(f, after);
        lemma_rep_intro(AstView::CharClass(f), 0, None, after.len(), after);
        let upto = u.subrange(0, l + 1);
        let before = u.subrange(0, l);
        let v2 = v1.subrange(0, v1.len() - 1);
        assert(slots(v2, fill, one, (c - 1) as nat)) by {
            assert forall|k: int| 0 <= k < v2.len() implies #[trigger] v2[k] == if k % 2 == 0 {
                fill
            } else {
                one
            } by {
                assert(v2[k] == v[k]);
            }
        }
        assert forall|i: int| 0 <= i < before.len() implies #[trigger] before[i] == ch || f.contains(before[i]) by {
            assert(before[i] == u[i]);
        }
        lemma_required_slots(f, ch, v2, (c - 1) as nat, before);
        let last = upto.subrange(l, upto.len() as int);
        assert(last =~= seq![ch]);
        assert(tree_matches(one, last));
        assert(v1[v1.len() - 1] == one);
        assert(upto.subrange(0, l) =~= before);
        lemma_seq_step(v1, upto, l);
        assert(u.subrange(0, l + 1) == upto);
        assert(u.subrange(l + 1, u.len() as int) == after);
        lemma_seq_step(v, u, l + 1);
    }
}

/// What an anagram `<bank>`, a superanagram `<bank+>` and a transadd `<bank+a>` let
/// through (`h` is the bank's histogram): for an anagram, a word of the bank's
/// letters that uses each exactly as often as the bank (so of the bank's length);
/// for a superanagram, a word of letters that uses each of the bank's at least as
/// often as the bank; for a transadd, such a word of exactly `a` letters more. Such
/// a word matches every expression of the expansion.
pub proof fn lemma_enough_letters_match(kind: AnagramKind, h: Seq<(int, nat)>, w: Seq<int>, nth: int)
    requires
        kind is Standard || kind is Super || kind is TransAdd,
        0 <= nth <= h.len(),
        total(h) <= usize::MAX,
        kind is Standard ==> {
            &&& forall|i: int| 0 <= i < w.len() ==> hist_symbols(h).contains(#[trigger] w[i])
            &&& forall|j: int| 0 <= j < h.len() ==> occurrences(w, (#[trigger] h[j]).0) == h[j].1
            &&& w.len() == total(h)
        },
        !(kind is Standard) ==> {
            &&& forall|i: int| 0 <= i < w.len() ==> letter_set().contains(#[trigger] w[i])
            &&& forall|j: int| 0 <= j < h.len() ==> letter_set().contains((#[trigger] h[j]).0) && occurrences(w, h[j].0) >= h[j].1
        },
        kind is Super ==> w.len() >= total(h),
        kind matches AnagramKind::TransAdd(a) ==> w.len() == total(h) + a && total(h) + a <= usize::MAX,
    ensures
        tree_matches(ast_for_anagram(kind, h, nth), w),
{
    let chars = hist_symbols(h);
    if nth < h.len() {
        let ch = h[nth].0;
        let count = h[nth].1;
        let f = if kind is Standard {
            chars.remove(ch)
        } else {
            letter_set()
        };
        let fill = AstView::Repetition { term: Box::new(AstView::CharClass(f)), min: 0, max: None };
        let one = AstView::CharClass(Set::empty().insert(ch));
        let a = ast_for_anagram(kind, h, nth);
        let v = Seq::new(2 * count + 1, |k: int| if k % 2 == 0 { fill } else { one });
        assert(a == AstView::Sequence(v));
        assert(slots(v, fill, one, count));
        assert forall|i: int| 0 <= i < w.len() implies #[trigger] w[i] == ch || f.contains(w[i]) by {
            if kind is Standard {
                assert(chars.contains(w[i]));
            }
        }
        lemma_required_slots(f, ch, v, count, w);
        lemma_seq_tree(v, w);
    } else {
        let t = total(h);
        match kind {
            AnagramKind::Standard => {
                lemma_class_repeated(chars, w);
                lemma_rep_intro(AstView::CharClass(chars), t as usize, Some(t as usize), w.len(), w);
            },
            AnagramKind::Super => {
                lemma_class_repeated(letter_set(), w);
                lemma_rep_intro(AstView::CharClass(letter_set()), t as usize, None, w.len(), w);
            },
            AnagramKind::TransAdd(d) => {
                lemma_class_repeated(letter_set(), w);
                lemma_rep_intro(AstView::CharClass(letter_set()), (t + d) as usize, Some((t + d) as usize), w.len(), w);
            },
            _ => {},
        }
    }
}

/// A symbol of a word that occurs nowhere in it is not there.
proof fn lemma_occurrence_counted(u: Seq<int>, x: int, i: int)
    requires
        0 <= i < u.len(),
        u[i] == x,
    ensures
        occurrences(u, x) > 0,
    decreases u.len(),
{
    if i < u.len() - 1 {
        lemma_occurrence_counted(u.drop_last(), x, i);
    }
}

/// What a subanagram `<bank->` and a transdelete `<bank-d>` let through: a word of
/// the bank's letters that uses each at most as often as the bank holds it (`h` is
/// the bank's histogram), of at most the bank's length for a subanagram and of
/// exactly `d` letters fewer for a transdelete, matches every expression of the
/// expansion, that of each symbol and that of the length.
pub proof fn lemma_fewer_letters_match(kind: AnagramKind, h: Seq<(int, nat)>, w: Seq<int>, nth: int)
    requires
        kind is Sub || kind is TransDelete,
        0 <= nth <= h.len(),
        forall|i: int| 0 <= i < w.len() ==> hist_symbols(h).contains(#[trigger] w[i]),
        forall|j: int| 0 <= j < h.len() ==> occurrences(w, (#[trigger] h[j]).0) <= h[j].1,
        total(h) <= usize::MAX,
        kind is Sub ==> w.len() <= total(h),
        kind matches AnagramKind::TransDelete(d) ==> w.len() + d == total(h),
    ensures
        tree_matches(ast_for_anagram(kind, h, nth), w),
{
    let chars = hist_symbols(h);
    if nth < h.len() {
        let ch = h[nth].0;
        let count = h[nth].1;
        let f = chars.remove(ch);
        let fill = AstView::Repetition { term: Box::new(AstView::CharClass(f)), min: 0, max: None };
        let opt = AstView::Repetition { term: Box::new(AstView::CharClass(Set::empty().insert(ch))), min: 0, max: Some(1) };
        let a = ast_for_anagram(kind, h, nth);
        let v = Seq::new(2 * count + 1, |k: int| if k % 2 == 0 { fill } else { opt });
        assert(a == AstView::Sequence(v));
        assert(slots(v, fill, opt, count));
        assert forall|i: int| 0 <= i < w.len() implies #[trigger] w[i] == ch || f.contains(w[i]) by {
            assert(chars.contains(w[i]));
        }
        lemma_optional_slots(f, ch, v, count, w);
        lemma_seq_tree(v, w);
    } else {
        let t = total(h);
        lemma_class_repeated(chars, w);
        match kind {
            AnagramKind::Sub => {
                lemma_rep_intro(AstView::CharClass(chars), 0, Some(t as usize), w.len(), w);
            },
            AnagramKind::TransDelete(d) => {
                lemma_rep_intro(AstView::CharClass(chars), (t - d) as usize, Some((t - d) as usize), w.len(), w);
            },
            _ => {},
        }
    }
}

/// The tree with its anagrams, in the order of `anagrams_of`, replaced by the trees
/// of `repl` from position `j` on; and the position after the last one used.
pub open spec fn replace_anagrams(a: AstView, repl: Seq<AstView>, j: int) -> (AstView, int)
    decreases a, 1int,
{
    match a {
        AstView::CharClass(_) => (a, j),
        AstView::Alternatives(v) => {
            let (w, k) = replace_list(v, repl, j);
            (AstView::Alternatives(w), k)
        },
        AstView::Sequence(v) => {
            let (w, k) = replace_list(v, repl, j);
            (AstView::Sequence(w), k)
        },
        AstView::Repetition { .. } => (a, j),
        AstView::Anagram { .. } => (repl[j], j + 1),
    }
}

pub open spec fn replace_list(v: Seq<AstView>, repl: Seq<AstView>, j: int) -> (Seq<AstView>, int)
    decreases v, 0int,
{
    if v.len() == 0 {
        (seq![], j)
    } else {
        let (p, k) = replace_list(v.drop_last(), repl, j);
        let (x, m) = replace_anagrams(v.last(), repl, k);
        (p.push(x), m)
    }
}

/// The longest histogram's length, or 0.
pub open spec fn max_len(hs: Seq<Seq<(int, nat)>>) -> int
    decreases hs.len(),
{
    if hs.len() == 0 {
        0
    } else {
        let m = max_len(hs.drop_last());
        if hs.last().len() > m {
            hs.last().len() as int
        } else {
            m
        }
    }
}

/// The expressions that an expression expands to: one more than the most distinct
/// letters of any of its anagrams, the `i`-th replacing each anagram by its `i`-th
/// expansion (see `ast_for_anagram`).
pub open spec fn expand_one(x: QueryExpression) -> Seq<QueryExpression> {
    let an = anagrams_of(x.root);
    let hs = an.map_values(|p: (AnagramKind, Seq<Char>)| histogram(p.1));
    Seq::new(
        (max_len(hs) + 1) as nat,
        |i: int|
            QueryExpression {
                root: replace_anagrams(
                    x.root,
                    Seq::new(an.len(), |j: int| ast_for_anagram(an[j].0, hs[j], i)),
                    0,
                ).0,
                ..x
            },
    )
}

/// The expressions expanded, in order.
pub open spec fn expand_all(xs: Seq<QueryExpression>) -> Seq<QueryExpression>
    decreases xs.len(),
{
    if xs.len() == 0 {
        seq![]
    } else {
        expand_all(xs.drop_last()) + expand_one(xs.last())
    }
}

/// Every transadd's length, its bank's plus the letters added, fits in a `usize`.
pub open spec fn expandable(xs: Seq<QueryExpression>) -> bool {
    forall|i: int, j: int|
        0 <= i < xs.len() && 0 <= j < anagrams_of(xs[i].root).len() ==> (#[trigger] anagrams_of(
            xs[i].root,
        )[j]).0 matches AnagramKind::TransAdd(a) && total(histogram(anagrams_of(xs[i].root)[j].1))
            + a <= usize::MAX
            || !(anagrams_of(xs[i].root)[j].0 is TransAdd)
}


/// The total of the bank's histogram, its number of symbols counted by symbol.
fn bank_total(bank: &Vec<Char>) -> (r: usize)
    ensures
        r == total(histogram(bank@)),
{
    let h = histogram_exec(bank);
    let ghost hv = hist_view(h@);
    proof {
        lemma_total_histogram(bank@, 28);
        lemma_below_len(bank@, 28);
        assert(histogram(bank@) == histogram_upto(bank@, 28));
        assert(bank@.len() == bank.len());
        assert(hv.subrange(0, 0) =~= Seq::<(int, nat)>::empty());
    }
    let mut t: usize = 0;
    let mut j: usize = 0;
    while j < h.len()
        invariant
            hv == hist_view(h@),
            hv == histogram(bank@),
            j <= h@.len(),
            total(hv) <= usize::MAX,
            t == total(hv.subrange(0, j as int)),
        decreases h@.len() - j,
    {
        proof {
            lemma_total_prefix(hv, j + 1);
            assert(hv.subrange(0, j + 1).drop_last() =~= hv.subrange(0, j as int));
        }
        t = t + h[j].1;
        j += 1;
    }
    proof {
        assert(hv.subrange(0, h@.len() as int) =~= hv);
    }
    t
}

/// The anagram fits: where it adds letters to its bank, the sum fits in a `usize`.
pub open spec fn anagram_fits(p: (AnagramKind, Seq<Char>)) -> bool {
    p.0 matches AnagramKind::TransAdd(a) ==> total(histogram(p.1)) + a <= usize::MAX
}

/// Whether every anagram of the expression fits (see `anagram_fits`).
fn expression_fits(e: &ExpressionAst) -> (r: bool)
    ensures
        r == forall|j: int| 0 <= j < anagrams_of(e.root@).len() ==> anagram_fits(#[trigger] anagrams_of(e.root@)[j]),
{
    let mut kinds: Vec<AnagramKind> = Vec::new();
    let mut banks: Vec<Vec<Char>> = Vec::new();
    proof {
        assert(pairs_view(kinds@, banks@) =~= Seq::<(AnagramKind, Seq<Char>)>::empty());
    }
    collect_anagrams(&e.root, &mut kinds, &mut banks);
    let ghost an = anagrams_of(e.root@);
    proof {
        assert(pairs_view(kinds@, banks@) =~= an);
    }
    let mut q: usize = 0;
    while q < kinds.len()
        invariant
            kinds@.len() == banks@.len(),
            pairs_view(kinds@, banks@) == an,
            an == anagrams_of(e.root@),
            q <= kinds@.len(),
            forall|j: int| 0 <= j < q ==> anagram_fits(#[trigger] an[j]),
        decreases kinds@.len() - q,
    {
        proof {
            assert(an[q as int] == (kinds@[q as int], banks@[q as int]@));
        }
        match kinds[q] {
            AnagramKind::TransAdd(a) => {
                let t = bank_total(&banks[q]);
                if t > usize::MAX - a {
                    proof {
                        assert(!anagram_fits(an[q as int]));
                        assert(an == anagrams_of(e.root@));
                        assert(0 <= q < anagrams_of(e.root@).len());
                        assert(!anagram_fits(anagrams_of(e.root@)[q as int]));
                    }
                    return false;
                }
            },
            _ => {},
        }
        q += 1;
    }
    true
}

/// Whether every anagram of the expressions fits: whether they are `expandable`.
fn all_expressions_fit(es: &Vec<ExpressionAst>, xs: Ghost<Seq<QueryExpression>>) -> (r: bool)
    requires
        all_agree(es@, xs@),
    ensures
        r == expandable(xs@),
{
    let ghost xv = xs@;
    let mut k: usize = 0;
    while k < es.len()
        invariant
            all_agree(es@, xv),
            xv == xs@,
            k <= es@.len(),
            forall|i: int, j: int|
                0 <= i < k && 0 <= j < anagrams_of(xv[i].root).len() ==> anagram_fits(#[trigger] anagrams_of(xv[i].root)[j]),
        decreases es@.len() - k,
    {
        proof {
            assert(agrees(es@[k as int], xv[k as int]));
        }
        if !expression_fits(&es[k]) {
            proof {
                assert(es@[k as int].root@ == xv[k as int].root);
                let j = choose|j: int| 0 <= j < anagrams_of(xv[k as int].root).len() && !anagram_fits(#[trigger] anagrams_of(xv[k as int].root)[j]);
                assert(!expandable(xv)) by {
                    if expandable(xv) {
                        let p = anagrams_of(xv[k as int].root)[j];
                        assert(p.0 matches AnagramKind::TransAdd(a) && total(histogram(p.1)) + a <= usize::MAX || !(p.0 is TransAdd));
                    }
                }
            }
            proof {
                assert(!expandable(xs@));
            }
            return false;
        }
        k += 1;
    }
    proof {
        assert forall|i: int, j: int|
            0 <= i < xv.len() && 0 <= j < anagrams_of(xv[i].root).len() implies (#[trigger] anagrams_of(xv[i].root)[j]).0 matches AnagramKind::TransAdd(a)
                && total(histogram(anagrams_of(xv[i].root)[j].1)) + a <= usize::MAX || !(anagrams_of(xv[i].root)[j].0 is TransAdd) by {
            assert(anagram_fits(anagrams_of(xv[i].root)[j]));
        }
    }
    true
}

/// The anagrams collected so far, as pairs.
pub open spec fn pairs_view(kinds: Seq<AnagramKind>, banks: Seq<Vec<Char>>) -> Seq<(AnagramKind, Seq<Char>)> {
    Seq::new(kinds.len(), |k: int| (kinds[k], banks[k]@))
}

/// Appends the anagrams of the tree (see `anagrams_of`).
fn collect_anagrams(ast: &crate::parser::Ast, kinds: &mut Vec<AnagramKind>, banks: &mut Vec<Vec<Char>>)
    requires
        old(kinds)@.len() == old(banks)@.len(),
    ensures
        final(kinds)@.len() == final(banks)@.len(),
        pairs_view(final(kinds)@, final(banks)@) == pairs_view(old(kinds)@, old(banks)@) + anagrams_of(ast@),
    decreases ast, 1int,
{
    let ghost start = pairs_view(kinds@, banks@);
    match ast {
        crate::parser::Ast::Alternatives(nodes) => {
            collect_anagrams_each(nodes, kinds, banks);
        },
        crate::parser::Ast::Sequence(nodes) => {
            collect_anagrams_each(nodes, kinds, banks);
        },
        crate::parser::Ast::Anagram { kind, bank } => {
            kinds.push(*kind);
            banks.push(bank.clone());
            proof {
                assert(pairs_view(kinds@, banks@) =~= start + seq![(*kind, bank@)]);
            }
        },
        _ => {
            proof {
                assert(pairs_view(kinds@, banks@) =~= start + Seq::<(AnagramKind, Seq<Char>)>::empty());
            }
        },
    }
}

fn collect_anagrams_each(nodes: &Vec<crate::parser::Ast>, kinds: &mut Vec<AnagramKind>, banks: &mut Vec<Vec<Char>>)
    requires
        old(kinds)@.len() == old(banks)@.len(),
    ensures
        final(kinds)@.len() == final(banks)@.len(),
        pairs_view(final(kinds)@, final(banks)@) == pairs_view(old(kinds)@, old(banks)@) + anagrams_list(
            crate::parser::ast_list_view(nodes@),
        ),
    decreases nodes, 0int,
{
    let ghost start = pairs_view(kinds@, banks@);
    let ghost v = crate::parser::ast_list_view(nodes@);
    proof {
        crate::parser::lemma_ast_list_view(nodes@);
        assert(v.subrange(0, 0) =~= Seq::<AstView>::empty());
        assert(start + anagrams_list(v.subrange(0, 0)) =~= start);
    }
    let mut k: usize = 0;
    while k < nodes.len()
        invariant
            v == crate::parser::ast_list_view(nodes@),
            v.len() == nodes@.len(),
            forall|j: int| 0 <= j < nodes@.len() ==> #[trigger] v[j] == nodes@[j]@,
            k <= nodes@.len(),
            kinds@.len() == banks@.len(),
            pairs_view(kinds@, banks@) == start + anagrams_list(v.subrange(0, k as int)),
        decreases nodes@.len() - k,
    {
        proof {
            assert(decreases_to!(*nodes => nodes@));
            assert(decreases_to!(nodes@ => nodes@[k as int]));
        }
        collect_anagrams(&nodes[k], kinds, banks);
        proof {
            assert(v.subrange(0, k + 1).drop_last() =~= v.subrange(0, k as int));
            assert(pairs_view(kinds@, banks@) =~= start + anagrams_list(v.subrange(0, k + 1)));
        }
        k += 1;
    }
    proof {
        assert(v.subrange(0, v.len() as int) =~= v);
    }
}

/// A histogram as integers.
pub open spec fn hist_view(h: Seq<(usize, usize)>) -> Seq<(int, nat)> {
    h.map_values(|p: (usize, usize)| (p.0 as int, p.1 as nat))
}

proof fn lemma_count_in_bound(bank: Seq<Char>, i: int)
    ensures
        count_in(bank, i) <= bank.len(),
    decreases bank.len(),
{
    if bank.len() > 0 {
        lemma_count_in_bound(bank.drop_last(), i);
    }
}

/// The histogram of the bank (see `histogram`).
fn histogram_exec(bank: &Vec<Char>) -> (r: Vec<(usize, usize)>)
    ensures
        hist_view(r@) == histogram(bank@),
        r@.len() <= 28,
{
    let mut counts: Vec<usize> = Vec::new();
    let mut i: usize = 0;
    while i < 28
        invariant
            i <= 28,
            counts@.len() == i,
            forall|x: int| 0 <= x < i ==> #[trigger] counts@[x] == 0,
        decreases 28 - i,
    {
        counts.push(0);
        i += 1;
    }
    let mut k: usize = 0;
    proof {
        assert(bank@.subrange(0, 0) =~= Seq::<Char>::empty());
    }
    while k < bank.len()
        invariant
            k <= bank@.len(),
            counts@.len() == 28,
            forall|x: int| 0 <= x < 28 ==> #[trigger] counts@[x] == count_in(bank@.subrange(0, k as int), x),
        decreases bank@.len() - k,
    {
        let c = bank[k].as_index();
        proof {
            assert(bank@.subrange(0, k + 1).drop_last() =~= bank@.subrange(0, k as int));
            lemma_count_in_bound(bank@.subrange(0, k as int), c as int);
        }
        counts.set(c, counts[c] + 1);
        k += 1;
    }
    proof {
        assert(bank@.subrange(0, bank@.len() as int) =~= bank@);
    }
    let mut h: Vec<(usize, usize)> = Vec::new();
    let mut x: usize = 0;
    while x < 28
        invariant
            x <= 28,
            counts@.len() == 28,
            forall|y: int| 0 <= y < 28 ==> #[trigger] counts@[y] == count_in(bank@, y),
            hist_view(h@) == histogram_upto(bank@, x as int),
            h@.len() <= x,
        decreases 28 - x,
    {
        if counts[x] > 0 {
            h.push((x, counts[x]));
        }
        proof {
            assert(hist_view(h@) =~= histogram_upto(bank@, x + 1));
        }
        x += 1;
    }
    h
}


proof fn lemma_total_prefix(h: Seq<(int, nat)>, k: int)
    requires
        0 <= k <= h.len(),
    ensures
        total(h.subrange(0, k)) <= total(h),
    decreases h.len() - k,
{
    if k < h.len() {
        lemma_total_prefix(h, k + 1);
        assert(h.subrange(0, k + 1).drop_last() =~= h.subrange(0, k));
    } else {
        assert(h.subrange(0, k) =~= h);
    }
}

/// `term` repeated between `min` and `max` times.
fn rep_exec(term: crate::parser::Ast, min: usize, max: Option<usize>) -> (r: crate::parser::Ast)
    ensures
        r@ == rep(term@, min, max),
{
    crate::parser::Ast::Repetition { term: Box::new(term), min, max }
}

/// The expansion of an anagram (see `ast_for_anagram`).
fn ast_for_anagram_exec(kind: AnagramKind, h: &Vec<(usize, usize)>, nth: usize) -> (r: crate::parser::Ast)
    requires
        forall|j: int| 0 <= j < h@.len() ==> (#[trigger] h@[j]).0 < 28,
        total(hist_view(h@)) <= usize::MAX,
        kind matches AnagramKind::TransAdd(a) ==> total(hist_view(h@)) + a <= usize::MAX,
    ensures
        r@ == ast_for_anagram(kind, hist_view(h@), nth as int),
{
    let ghost hv = hist_view(h@);
    let mut char_bitset = CharBitset::empty();
    let mut j: usize = 0;
    proof {
        assert(hist_symbols(hv.subrange(0, 0)) =~= Set::<int>::empty());
    }
    while j < h.len()
        invariant
            hv == hist_view(h@),
            j <= h@.len(),
            forall|j: int| 0 <= j < h@.len() ==> (#[trigger] h@[j]).0 < 28,
            char_bitset@ == hist_symbols(hv.subrange(0, j as int)),
        decreases h@.len() - j,
    {
        let c = CharBitset::from_char_symbol(Char::from_index(h[j].0));
        let ghost before = char_bitset@;
        char_bitset.union_with(c);
        proof {
            let w = hv.subrange(0, j + 1);
            assert(w[j as int].0 == h@[j as int].0 as int);
            assert forall|x: int| #[trigger] char_bitset@.contains(x) == hist_symbols(w).contains(x) by {
                if char_bitset@.contains(x) {
                    if before.contains(x) {
                        let i = choose|i: int| 0 <= i < j && #[trigger] hv.subrange(0, j as int)[i].0 == x;
                        assert(w[i].0 == x);
                    } else {
                        assert(w[j as int].0 == x);
                    }
                }
                if hist_symbols(w).contains(x) {
                    let i = choose|i: int| 0 <= i < j + 1 && #[trigger] w[i].0 == x;
                    if i < j {
                        assert(hv.subrange(0, j as int)[i].0 == x);
                    }
                }
            }
            assert(char_bitset@ =~= hist_symbols(w));
        }
        j += 1;
    }
    proof {
        assert(hv.subrange(0, h@.len() as int) =~= hv);
    }
    let exact = match kind {
        AnagramKind::Standard | AnagramKind::Super | AnagramKind::TransAdd(_) => true,
        _ => false,
    };
    let bank_fill = match kind {
        AnagramKind::Standard | AnagramKind::Sub | AnagramKind::TransDelete(_) => true,
        _ => false,
    };
    if nth < h.len() {
        let (ch, count) = h[nth];
        let one_set = CharBitset::from_char_symbol(Char::from_index(ch));
        let one = crate::parser::Ast::CharClass(one_set);
        let char_ast = if exact {
            one
        } else {
            rep_exec(one, 0, Some(1))
        };
        let fill_ast = if bank_fill {
            let mut fill = char_bitset;
            fill.difference_with(one_set);
            proof {
                assert(fill@ =~= hist_symbols(hv).remove(ch as int));
            }
            rep_exec(crate::parser::Ast::CharClass(fill), 0, None)
        } else {
            rep_exec(crate::parser::Ast::CharClass(CharBitset::letters()), 0, None)
        };
        let ghost fv = fill_ast@;
        let ghost cv = char_ast@;
        let mut items: Vec<crate::parser::Ast> = Vec::new();
        let mut i: usize = 0;
        while i < count
            invariant
                i <= count,
                items@.len() == 2 * i,
                fv == fill_ast@,
                cv == char_ast@,
                forall|k: int| 0 <= k < items@.len() ==> #[trigger] items@[k]@ == if k % 2 == 0 {
                    fv
                } else {
                    cv
                },
            decreases count - i,
        {
            items.push(fill_ast.clone());
            items.push(char_ast.clone());
            i += 1;
        }
        items.push(fill_ast);
        proof {
            crate::parser::lemma_ast_list_view(items@);
            assert(crate::parser::ast_list_view(items@) =~= Seq::new(
                (2 * count + 1) as nat,
                |k: int|
                    if k % 2 == 0 {
                        fv
                    } else {
                        cv
                    },
            ));
        }
        crate::parser::Ast::Sequence(items)
    } else {
        let mut t: usize = 0;
        let mut j: usize = 0;
        proof {
            assert(hv.subrange(0, 0) =~= Seq::<(int, nat)>::empty());
        }
        while j < h.len()
            invariant
                hv == hist_view(h@),
                j <= h@.len(),
                total(hv) <= usize::MAX,
                t == total(hv.subrange(0, j as int)),
            decreases h@.len() - j,
        {
            proof {
                lemma_total_prefix(hv, j + 1);
                assert(hv.subrange(0, j + 1).drop_last() =~= hv.subrange(0, j as int));
            }
            t = t + h[j].1;
            j += 1;
        }
        proof {
            assert(hv.subrange(0, h@.len() as int) =~= hv);
        }
        match kind {
            AnagramKind::Standard => rep_exec(crate::parser::Ast::CharClass(char_bitset), t, Some(t)),
            AnagramKind::Sub => rep_exec(crate::parser::Ast::CharClass(char_bitset), 0, Some(t)),
            AnagramKind::TransDelete(d) => {
                let m = if t >= d {
                    t - d
                } else {
                    0
                };
                rep_exec(crate::parser::Ast::CharClass(char_bitset), m, Some(m))
            },
            AnagramKind::Super => rep_exec(crate::parser::Ast::CharClass(CharBitset::letters()), t, None),
            AnagramKind::TransAdd(a) => rep_exec(
                crate::parser::Ast::CharClass(CharBitset::letters()),
                t + a,
                Some(t + a),
            ),
        }
    }
}


proof fn lemma_replace_count(a: AstView, repl: Seq<AstView>, j: int)
    ensures
        replace_anagrams(a, repl, j).1 == j + anagrams_of(a).len(),
    decreases a, 1int,
{
    match a {
        AstView::Alternatives(v) => {
            lemma_replace_list_count(v, repl, j);
        },
        AstView::Sequence(v) => {
            lemma_replace_list_count(v, repl, j);
        },
        _ => {},
    }
}

proof fn lemma_replace_list_count(v: Seq<AstView>, repl: Seq<AstView>, j: int)
    ensures
        replace_list(v, repl, j).1 == j + anagrams_list(v).len(),
        replace_list(v, repl, j).0.len() == v.len(),
    decreases v, 0int,
{
    if v.len() > 0 {
        lemma_replace_list_count(v.drop_last(), repl, j);
        let k = replace_list(v.drop_last(), repl, j).1;
        lemma_replace_count(v.last(), repl, k);
    }
}

/// The tree with its anagrams replaced (see `replace_anagrams`).
fn replace_anagrams_exec(ast: &crate::parser::Ast, repl: &Vec<crate::parser::Ast>, j: usize) -> (r: (crate::parser::Ast, usize))
    requires
        j + anagrams_of(ast@).len() <= repl@.len(),
    ensures
        (r.0@, r.1 as int) == replace_anagrams(ast@, crate::parser::ast_list_view(repl@), j as int),
    decreases ast, 1int,
{
    proof {
        crate::parser::lemma_ast_list_view(repl@);
        lemma_replace_count(ast@, crate::parser::ast_list_view(repl@), j as int);
    }
    match ast {
        crate::parser::Ast::Alternatives(nodes) => {
            let (w, k) = replace_each(nodes, repl, j);
            (crate::parser::Ast::Alternatives(w), k)
        },
        crate::parser::Ast::Sequence(nodes) => {
            let (w, k) = replace_each(nodes, repl, j);
            (crate::parser::Ast::Sequence(w), k)
        },
        crate::parser::Ast::Anagram { .. } => {
            assert(anagrams_of(ast@).len() == 1);
            assert(j < repl.len());
            (repl[j].clone(), j + 1)
        },
        _ => (ast.duplicate(), j),
    }
}

fn replace_each(nodes: &Vec<crate::parser::Ast>, repl: &Vec<crate::parser::Ast>, j: usize) -> (r: (Vec<crate::parser::Ast>, usize))
    requires
        j + anagrams_list(crate::parser::ast_list_view(nodes@)).len() <= repl@.len(),
    ensures
        (crate::parser::ast_list_view(r.0@), r.1 as int) == replace_list(
            crate::parser::ast_list_view(nodes@),
            crate::parser::ast_list_view(repl@),
            j as int,
        ),
    decreases nodes, 0int,
{
    let ghost v = crate::parser::ast_list_view(nodes@);
    let ghost rv = crate::parser::ast_list_view(repl@);
    proof {
        crate::parser::lemma_ast_list_view(nodes@);
        assert(v.subrange(0, 0) =~= Seq::<AstView>::empty());
        lemma_replace_list_count(v, rv, j as int);
    }
    let mut out: Vec<crate::parser::Ast> = Vec::new();
    let mut idx = j;
    let mut k: usize = 0;
    proof {
        crate::parser::lemma_ast_list_view(out@);
        assert(crate::parser::ast_list_view(out@) =~= Seq::<AstView>::empty());
    }
    while k < nodes.len()
        invariant
            v == crate::parser::ast_list_view(nodes@),
            rv == crate::parser::ast_list_view(repl@),
            v.len() == nodes@.len(),
            forall|i: int| 0 <= i < nodes@.len() ==> #[trigger] v[i] == nodes@[i]@,
            k <= nodes@.len(),
            j + anagrams_list(v).len() <= repl@.len(),
            (crate::parser::ast_list_view(out@), idx as int) == replace_list(v.subrange(0, k as int), rv, j as int),
            idx == j + anagrams_list(v.subrange(0, k as int)).len(),
        decreases nodes@.len() - k,
    {
        proof {
            assert(decreases_to!(*nodes => nodes@));
            assert(decreases_to!(nodes@ => nodes@[k as int]));
            assert(v.subrange(0, k + 1).drop_last() =~= v.subrange(0, k as int));
            lemma_anagrams_prefix(v, k + 1);
            lemma_replace_count(v[k as int], rv, idx as int);
        }
        let (x, next) = replace_anagrams_exec(&nodes[k], repl, idx);
        let ghost before = out@;
        out.push(x);
        proof {
            crate::parser::lemma_ast_list_view_append(before, seq![x]);
            crate::parser::lemma_ast_list_view(seq![x]);
            assert(before + seq![x] =~= out@);
            assert(crate::parser::ast_list_view(seq![x]) =~= seq![x@]);
            assert(crate::parser::ast_list_view(out@) =~= crate::parser::ast_list_view(before).push(x@));
        }
        idx = next;
        k += 1;
    }
    proof {
        assert(v.subrange(0, v.len() as int) =~= v);
    }
    (out, idx)
}

proof fn lemma_anagrams_prefix(v: Seq<AstView>, k: int)
    requires
        0 <= k <= v.len(),
    ensures
        anagrams_list(v.subrange(0, k)).len() <= anagrams_list(v).len(),
    decreases v.len() - k,
{
    if k < v.len() {
        lemma_anagrams_prefix(v, k + 1);
        assert(v.subrange(0, k + 1).drop_last() =~= v.subrange(0, k));
    } else {
        assert(v.subrange(0, k) =~= v);
    }
}


/// The number of symbols of the bank below `k`, counted symbol by symbol.
pub open spec fn below(bank: Seq<Char>, k: int) -> nat
    decreases k,
{
    if k <= 0 {
        0
    } else {
        below(bank, k - 1) + count_in(bank, k - 1)
    }
}

proof fn lemma_total_histogram(bank: Seq<Char>, k: int)
    requires
        0 <= k,
    ensures
        total(histogram_upto(bank, k)) == below(bank, k),
        forall|j: int| 0 <= j < histogram_upto(bank, k).len() ==> 0 <= #[trigger] histogram_upto(bank, k)[j].0 < k,
    decreases k,
{
    if k > 0 {
        lemma_total_histogram(bank, k - 1);
        let p = histogram_upto(bank, k - 1);
        if count_in(bank, k - 1) > 0 {
            let q = p + seq![(k - 1, count_in(bank, k - 1))];
            assert(q.drop_last() =~= p);
        } else {
            assert(p + Seq::<(int, nat)>::empty() =~= p);
        }
    }
}

proof fn lemma_below_drop_last(bank: Seq<Char>, k: int)
    requires
        bank.len() > 0,
        0 <= k,
    ensures
        below(bank, k) == below(bank.drop_last(), k) + if 0 <= bank.last().index() < k {
            1nat
        } else {
            0nat
        },
    decreases k,
{
    if k > 0 {
        lemma_below_drop_last(bank, k - 1);
    }
}

proof fn lemma_below_len(bank: Seq<Char>, k: int)
    requires
        0 <= k,
    ensures
        below(bank, k) <= bank.len(),
    decreases bank.len(),
{
    if bank.len() == 0 {
        lemma_below_empty(bank, k);
    } else {
        lemma_below_drop_last(bank, k);
        lemma_below_len(bank.drop_last(), k);
    }
}

proof fn lemma_below_empty(bank: Seq<Char>, k: int)
    requires
        bank.len() == 0,
    ensures
        below(bank, k) == 0,
    decreases k,
{
    if k > 0 {
        lemma_below_empty(bank, k - 1);
    }
}

/// An expression of the query as it was parsed.
pub open spec fn agrees(e: ExpressionAst, x: QueryExpression) -> bool {
    &&& e.root@ == x.root
    &&& e.options == x.options
    &&& e.original_text matches Some(t) && t@ == x.text
}

/// The expansions of `e` (see `expand_one`), appended to `out`.
fn expand_one_exec(e: &ExpressionAst, x: Ghost<QueryExpression>, out: &mut Vec<ExpressionAst>)
    requires
        agrees(*e, x@),
        expandable(seq![x@]),
    ensures
        final(out)@.len() == old(out)@.len() + expand_one(x@).len(),
        forall|k: int| 0 <= k < old(out)@.len() ==> #[trigger] final(out)@[k] == old(out)@[k],
        forall|k: int|
            0 <= k < expand_one(x@).len() ==> agrees(#[trigger] final(out)@[old(out)@.len() + k], expand_one(x@)[k]),
{
    let ghost xv = x@;
    let mut kinds: Vec<AnagramKind> = Vec::new();
    let mut banks: Vec<Vec<Char>> = Vec::new();
    collect_anagrams(&e.root, &mut kinds, &mut banks);
    let ghost an = anagrams_of(xv.root);
    proof {
        assert(pairs_view(Seq::<AnagramKind>::empty(), Seq::<Vec<Char>>::empty()) =~= Seq::<(AnagramKind, Seq<Char>)>::empty());
        assert(pairs_view(kinds@, banks@) =~= an);
    }
    let ghost hs = an.map_values(|p: (AnagramKind, Seq<Char>)| histogram(p.1));
    let mut hists: Vec<Vec<(usize, usize)>> = Vec::new();
    let mut m: usize = 0;
    let mut j: usize = 0;
    proof {
        assert(hs.subrange(0, 0) =~= Seq::<Seq<(int, nat)>>::empty());
    }
    while j < banks.len()
        invariant
            kinds@.len() == banks@.len(),
            pairs_view(kinds@, banks@) == an,
            an == anagrams_of(xv.root),
            hs == an.map_values(|p: (AnagramKind, Seq<Char>)| histogram(p.1)),
            j <= banks@.len(),
            hists@.len() == j,
            forall|i: int| 0 <= i < j ==> hist_view(#[trigger] hists@[i]@) == hs[i],
            forall|i: int| 0 <= i < j ==> (#[trigger] hists@[i])@.len() <= 28,
            m == max_len(hs.subrange(0, j as int)),
            m <= 28,
        decreases banks@.len() - j,
    {
        let h = histogram_exec(&banks[j]);
        proof {
            assert(pairs_view(kinds@, banks@)[j as int].1 == banks@[j as int]@);
            assert(hs.subrange(0, j + 1).drop_last() =~= hs.subrange(0, j as int));
            assert(hs[j as int] == histogram(banks@[j as int]@));
        }
        if h.len() > m {
            m = h.len();
        }
        hists.push(h);
        j += 1;
    }
    proof {
        assert(hs.subrange(0, hs.len() as int) =~= hs);
    }
    let ghost start = out@;
    let ghost ex = expand_one(xv);
    let mut i: usize = 0;
    while i <= m
        invariant
            agrees(*e, xv),
            expandable(seq![xv]),
            kinds@.len() == banks@.len(),
            pairs_view(kinds@, banks@) == an,
            an == anagrams_of(xv.root),
            hs == an.map_values(|p: (AnagramKind, Seq<Char>)| histogram(p.1)),
            hists@.len() == an.len(),
            forall|q: int| 0 <= q < an.len() ==> hist_view(#[trigger] hists@[q]@) == hs[q],
            m == max_len(hs),
            m <= 28,
            ex == expand_one(xv),
            ex.len() == m + 1,
            i <= m + 1,
            out@.len() == start.len() + i,
            forall|k: int| 0 <= k < start.len() ==> #[trigger] out@[k] == start[k],
            forall|k: int| 0 <= k < i ==> agrees(#[trigger] out@[start.len() + k], ex[k]),
        decreases m + 1 - i,
    {
        let mut repl: Vec<crate::parser::Ast> = Vec::new();
        let mut q: usize = 0;
        while q < kinds.len()
            invariant
                expandable(seq![xv]),
                kinds@.len() == banks@.len(),
                pairs_view(kinds@, banks@) == an,
                an == anagrams_of(xv.root),
                hs == an.map_values(|p: (AnagramKind, Seq<Char>)| histogram(p.1)),
                hists@.len() == an.len(),
                forall|q: int| 0 <= q < an.len() ==> hist_view(#[trigger] hists@[q]@) == hs[q],
                q <= kinds@.len(),
                repl@.len() == q,
                forall|k: int| 0 <= k < q ==> (#[trigger] repl@[k])@ == ast_for_anagram(an[k].0, hs[k], i as int),
            decreases kinds@.len() - q,
        {
            proof {
                let bank = banks@[q as int]@;
                assert(pairs_view(kinds@, banks@)[q as int] == (kinds@[q as int], bank));
                assert(hs[q as int] == histogram(bank));
                lemma_total_histogram(bank, 28);
                lemma_below_len(bank, 28);
                assert(bank.len() == banks@[q as int].len());
                assert(hist_view(hists@[q as int]@) == histogram(bank));
                assert forall|t: int| 0 <= t < hists@[q as int]@.len() implies (#[trigger] hists@[q as int]@[t]).0 < 28 by {
                    assert(hist_view(hists@[q as int]@)[t].0 == hists@[q as int]@[t].0 as int);
                }
                assert(seq![xv][0] == xv);
                assert(anagrams_of(seq![xv][0].root)[q as int] == an[q as int]);
            }
            let a = ast_for_anagram_exec(kinds[q], &hists[q], i);
            repl.push(a);
            q += 1;
        }
        proof {
            crate::parser::lemma_ast_list_view(repl@);
            assert(crate::parser::ast_list_view(repl@) =~= Seq::new(an.len(), |k: int| ast_for_anagram(an[k].0, hs[k], i as int)));
            lemma_replace_count(xv.root, crate::parser::ast_list_view(repl@), 0);
        }
        let (root, _) = replace_anagrams_exec(&e.root, &repl, 0);
        out.push(ExpressionAst { original_text: e.original_text.clone(), root, options: e.options });
        proof {
            assert(out@[start.len() + i] == out@[out@.len() - 1]);
        }
        i += 1;
    }
}


/// Each expression agrees with the parsed expression at its place.
pub open spec fn all_agree(es: Seq<ExpressionAst>, xs: Seq<QueryExpression>) -> bool {
    &&& es.len() == xs.len()
    &&& forall|k: int| 0 <= k < es.len() ==> agrees(#[trigger] es[k], xs[k])
}

/// The options agree with what the pragmas set.
pub open spec fn options_agree(o: QueryOptions, st: QueryState) -> bool {
    &&& o.max_words == st.max_words
    &&& o.results_limit == st.results_limit
    &&& o.quiet == st.quiet
    &&& match o.dictionary {
        Some(d) => st.dictionary == Some(d@),
        None => st.dictionary is None,
    }
}

impl QueryAst {
    /// Replaces each expression with its expansions (see `expand_one`).
    fn expand_expressions(&mut self, xs: Ghost<Seq<QueryExpression>>)
        requires
            all_agree(old(self).expressions@, xs@),
            expandable(xs@),
        ensures
            all_agree(final(self).expressions@, expand_all(xs@)),
            final(self).options == old(self).options,
            final(self).macros == old(self).macros,
            final(self).original_text == old(self).original_text,
    {
        let ghost xv = xs@;
        let mut new_expressions: Vec<ExpressionAst> = Vec::new();
        let mut k: usize = 0;
        proof {
            assert(xv.subrange(0, 0) =~= Seq::<QueryExpression>::empty());
        }
        while k < self.expressions.len()
            invariant
                all_agree(self.expressions@, xv),
                expandable(xv),
                k <= xv.len(),
                all_agree(new_expressions@, expand_all(xv.subrange(0, k as int))),
            decreases xv.len() - k,
        {
            proof {
                assert(xv.subrange(0, k + 1).drop_last() =~= xv.subrange(0, k as int));
                assert(xv.subrange(0, k + 1).last() == xv[k as int]);
                assert forall|i: int, j: int|
                    0 <= i < seq![xv[k as int]].len() && 0 <= j < anagrams_of(seq![xv[k as int]][i].root).len() implies
                    (#[trigger] anagrams_of(seq![xv[k as int]][i].root)[j]).0 matches AnagramKind::TransAdd(a)
                    && total(histogram(anagrams_of(seq![xv[k as int]][i].root)[j].1)) + a <= usize::MAX
                    || !(anagrams_of(seq![xv[k as int]][i].root)[j].0 is TransAdd) by {
                    assert(seq![xv[k as int]][i] == xv[k as int]);
                    assert(anagrams_of(xv[k as int].root)[j] == anagrams_of(xv[k as int].root)[j]);
                }
            }
            let ghost before = new_expressions@;
            expand_one_exec(&self.expressions[k], Ghost(xv[k as int]), &mut new_expressions);
            proof {
                let ea = expand_all(xv.subrange(0, k + 1));
                assert(ea == expand_all(xv.subrange(0, k as int)) + expand_one(xv[k as int]));
                assert forall|i: int| 0 <= i < new_expressions@.len() implies agrees(#[trigger] new_expressions@[i], ea[i]) by {
                    if i < before.len() {
                        assert(new_expressions@[i] == before[i]);
                    } else {
                        let t = i - before.len();
                        assert(new_expressions@[before.len() + t] == new_expressions@[i]);
                    }
                }
            }
            k += 1;
        }
        proof {
            assert(xv.subrange(0, xv.len() as int) =~= xv);
        }
        self.expressions = new_expressions;
    }
}


proof fn lemma_query_state_err(lines: Seq<Seq<char>>, k: int, m: int)
    requires
        0 <= k <= m,
        query_state(lines, k) is Err,
    ensures
        query_state(lines, m) == query_state(lines, k),
    decreases m - k,
{
    if k < m {
        lemma_query_state_err(lines, k, m - 1);
    }
}

/// A copy of the characters.
fn copy_chars(v: &Vec<char>) -> (r: Vec<char>)
    ensures
        r@ == v@,
{
    let mut r: Vec<char> = Vec::new();
    let mut i: usize = 0;
    while i < v.len()
        invariant
            i <= v@.len(),
            r@ == v@.subrange(0, i as int),
        decreases v@.len() - i,
    {
        r.push(v[i]);
        proof {
            assert(r@ =~= v@.subrange(0, i + 1));
        }
        i += 1;
    }
    proof {
        assert(v@.subrange(0, v@.len() as int) =~= v@);
    }
    r
}

/// What has been parsed agrees with the state.
pub open spec fn state_agrees(
    st: QueryState,
    es: Seq<ExpressionAst>,
    macros: IndexMap<String, String>,
    o: QueryOptions,
) -> bool {
    &&& all_agree(es, st.expressions)
    &&& macro_entries(macros) == st.macros
    &&& options_agree(o, st)
}

impl QueryAst {
    /// Parses a query (see `parse_query`) and expands its anagrams (see `expand_all`).
    /// An error gives the line (from 1) and column (from 1) where parsing stopped.
    pub fn new_from_str(input_str: &str) -> (r: Result<QueryAst, ParseError>)
        requires
            input_str@.len() < usize::MAX,
            parse_query(input_str@) matches Ok(st) ==> expandable(st.expressions),
        ensures
            match r {
                Ok(q) => {
                    &&& parse_query(input_str@) matches Ok(st)
                    &&& q.macros_view() == st.macros
                    &&& q.text_view() == input_str@
                    &&& options_agree(q.query_options(), st)
                    &&& all_agree(q.expression_list(), expand_all(st.expressions))
                },
                Err(e) => parse_query(input_str@) == Err::<QueryState, ParseError>(e),
            },
    {
        match QueryAst::parse_lines(input_str) {
            Err(e) => Err(e),
            Ok((mut ast, st)) => {
                ast.expand_expressions(Ghost(st@.expressions));
                Ok(ast)
            },
        }
    }

    /// `new_from_str` where the anagrams' sizes may not fit: `None` where, once
    /// parsed, some anagram adding letters to its bank would need more letters than a
    /// `usize` counts (see `expandable`), else what `new_from_str` gives.
    pub fn new_from_str_checked(input_str: &str) -> (r: Option<Result<QueryAst, ParseError>>)
        requires
            input_str@.len() < usize::MAX,
        ensures
            r is None <==> (parse_query(input_str@) matches Ok(st) && !expandable(st.expressions)),
            r matches Some(Ok(q)) ==> {
                &&& parse_query(input_str@) matches Ok(st)
                &&& q.macros_view() == st.macros
                &&& q.text_view() == input_str@
                &&& options_agree(q.query_options(), st)
                &&& all_agree(q.expression_list(), expand_all(st.expressions))
            },
            r matches Some(Err(e)) ==> parse_query(input_str@) == Err::<QueryState, ParseError>(e),
    {
        match QueryAst::parse_lines(input_str) {
            Err(e) => Some(Err(e)),
            Ok((mut ast, st)) => {
                if !all_expressions_fit(&ast.expressions, Ghost(st@.expressions)) {
                    return None;
                }
                ast.expand_expressions(Ghost(st@.expressions));
                Some(Ok(ast))
            },
        }
    }

    /// The query's lines parsed, its anagrams not yet expanded.
    fn parse_lines(input_str: &str) -> (r: Result<(QueryAst, Ghost<QueryState>), ParseError>)
        requires
            input_str@.len() < usize::MAX,
        ensures
            match r {
                Ok((q, st)) => {
                    &&& parse_query(input_str@) == Ok::<QueryState, ParseError>(st@)
                    &&& state_agrees(st@, q.expressions@, q.macros, q.options)
                    &&& q.original_text@ == input_str@
                },
                Err(e) => parse_query(input_str@) == Err::<QueryState, ParseError>(e),
            },
    {
        let text = chars_of(input_str);
        let lines = split_lines_exec(&text);
        let ghost lv = split_lines(text@);
        let mut expressions: Vec<ExpressionAst> = Vec::new();
        let mut macros = macros_new();
        let mut options = QueryOptions {
            max_words: None,
            dictionary: None,
            results_limit: None,
            quiet: None,
        };
        let mut i: usize = 0;
        while i < lines.len()
            invariant
                lv == split_lines(text@),
                text@ == input_str@,
                lines@.len() == lv.len(),
                forall|k: int| 0 <= k < lines@.len() ==> #[trigger] lines@[k]@ == lv[k],
                i <= lines@.len(),
                query_state(lv, i as int) matches Ok(st) && state_agrees(st, expressions@, macros, options),
            decreases lines@.len() - i,
        {
            let ghost st = query_state(lv, i as int)->Ok_0;
            proof {
                lemma_query_state_macros(lv, i as int);
            }
            let line = substitute_macros(copy_chars(&lines[i]), &macros);
            if line.len() == usize::MAX {
                proof {
                    lemma_query_state_err(lv, i + 1, lv.len() as int);
                }
                return Err(ParseError { line: i + 1, column: 0 });
            }
            match parse_line(&line) {
                Err(z) => {
                    proof {
                        lemma_query_state_err(lv, i + 1, lv.len() as int);
                    }
                    return Err(ParseError { line: i + 1, column: z + 1 });
                },
                Ok(item) => {
                    let ghost item_view = p_line(line@)->Ok_0;
                    match item {
                        ParsedLine::Blank => {},
                        ParsedLine::Expression(root, opts) => {
                            let ghost before = expressions@;
                            expressions.push(
                                ExpressionAst { original_text: Some(string_from_chars(&line)), root, options: opts },
                            );
                            proof {
                                let st2 = apply_item(st, item_view, line@);
                                assert forall|k: int| 0 <= k < expressions@.len() implies agrees(#[trigger] expressions@[k], st2.expressions[k]) by {
                                    if k < before.len() {
                                        assert(expressions@[k] == before[k]);
                                    }
                                }
                            }
                        },
                        ParsedLine::Words(n) => {
                            options.max_words = Some(n);
                        },
                        ParsedLine::Limit(n) => {
                            options.results_limit = Some(n);
                        },
                        ParsedLine::Dict(d) => {
                            options.dictionary = Some(string_from_chars(&d));
                        },
                        ParsedLine::Quiet => {
                            options.quiet = Some(true);
                        },
                        ParsedLine::Macro(name, value) => {
                            macros_insert(&mut macros, string_from_chars(&name), string_from_chars(&value));
                        },
                    }
                },
            }
            i += 1;
        }
        let ghost st = query_state(lv, lv.len() as int)->Ok_0;
        let ast = QueryAst { original_text: input_str.to_owned(), macros, expressions, options };
        Ok((ast, Ghost(st)))
    }
}

} // verus!
