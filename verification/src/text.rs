//! How symbol sets, syntax trees and expressions are written out.
use crate::parser::{ast_list_view, lemma_ast_list_view, Ast, AstView, ExpressionAst, ExpressionOptions};
use crate::words::{all_set, char_index, index_byte, letter_set, Char, CharBitset};
use vstd::prelude::*;

verus! {

/// The character written for symbol `i`: its lower-case letter, `'` or `_`.
pub open spec fn symbol_char(i: int) -> char {
    index_byte(i) as char
}

/// The character written for a symbol reads back as that symbol.
pub proof fn lemma_symbol_char_roundtrip(i: int)
    requires
        0 <= i < 28,
    ensures
        char_index(symbol_char(i)) == i,
{
}

/// The characters of the symbols below `k` in `set`, in order.
pub open spec fn listed(set: Set<int>, k: int) -> Seq<char>
    decreases k,
{
    if k <= 0 {
        seq![]
    } else {
        listed(set, k - 1) + if set.contains(k - 1) {
            seq![symbol_char(k - 1)]
        } else {
            Seq::<char>::empty()
        }
    }
}

/// How a symbol set is written: `.` for the letters, `[a-z_']` for every symbol,
/// `0` for none, a lone symbol as itself, and other sets as their symbols in brackets.
pub open spec fn charset_text(set: Set<int>) -> Seq<char> {
    let l = listed(set, 28);
    if set == letter_set() {
        seq!['.']
    } else if set == all_set() {
        seq!['[', 'a', '-', 'z', '_', '\'', ']']
    } else if l.len() == 0 {
        seq!['0']
    } else if l.len() == 1 {
        l
    } else {
        seq!['['] + l + seq![']']
    }
}

/// The decimal digits of `n`.
pub open spec fn decimal(n: nat) -> Seq<char>
    decreases n,
{
    if n < 10 {
        seq![('0' as int + n) as char]
    } else {
        decimal(n / 10) + seq![('0' as int + n % 10) as char]
    }
}

/// How a tree is written.
pub open spec fn ast_text(a: AstView) -> Seq<char>
    decreases a, 1int,
{
    match a {
        AstView::CharClass(set) => charset_text(set),
        AstView::Alternatives(v) => if v.len() == 0 {
            seq![]
        } else {
            seq!['('] + joined(v, '|') + seq![')']
        },
        AstView::Sequence(v) => if v.len() > 1 {
            seq!['('] + concat(v) + seq![')']
        } else {
            concat(v)
        },
        AstView::Repetition { term, min, max } => ast_text(*term) + repetition_text(min, max),
        AstView::Anagram { bank, .. } => seq!['<'] + bank.map_values(|c: Char| symbol_char(c.index()))
            + seq!['>'],
    }
}

/// The trees written one after another.
pub open spec fn concat(v: Seq<AstView>) -> Seq<char>
    decreases v, 0int,
{
    if v.len() == 0 {
        seq![]
    } else {
        concat(v.drop_last()) + ast_text(v.last())
    }
}

/// The trees written with `sep` between them.
pub open spec fn joined(v: Seq<AstView>, sep: char) -> Seq<char>
    decreases v, 0int,
{
    if v.len() == 0 {
        seq![]
    } else if v.len() == 1 {
        ast_text(v[0])
    } else {
        joined(v.drop_last(), sep) + seq![sep] + ast_text(v.last())
    }
}

/// How a repetition's bounds are written.
pub open spec fn repetition_text(min: usize, max: Option<usize>) -> Seq<char> {
    match max {
        None => if min == 0 {
            seq!['*']
        } else if min == 1 {
            seq!['+']
        } else {
            seq!['{'] + decimal(min as nat) + seq![',', '}']
        },
        Some(m) => if min == 0 && m == 1 {
            seq!['?']
        } else if min == 0 {
            seq!['{', ','] + decimal(m as nat) + seq!['}']
        } else if min == m {
            seq!['{'] + decimal(min as nat) + seq!['}']
        } else {
            seq!['{'] + decimal(min as nat) + seq![',', ' '] + decimal(m as nat) + seq!['}']
        },
    }
}

/// How an expression is written: its tree, then its flags.
pub open spec fn expression_text(root: AstView, opts: ExpressionOptions) -> Seq<char> {
    ast_text(root) + (if opts.explicit_word_boundaries == Some(true) {
        seq![' ', '!', '_']
    } else {
        Seq::<char>::empty()
    }) + (if opts.explicit_punctuation == Some(true) {
        seq![' ', '!', '\'']
    } else {
        Seq::<char>::empty()
    }) + match opts.fuzz {
        Some(n) => seq![' ', '!'] + decimal(n as nat),
        None => Seq::<char>::empty(),
    }
}

/// Collects the characters into a `String` (`FromIterator<char>`): the string
/// holds exactly those characters.
#[verifier::external_body]
pub(crate) fn string_from_chars(chars: &Vec<char>) -> (r: String)
    ensures
        r@ == chars@,
{
    chars.iter().collect()
}

/// Appends the characters of `s`.
fn push_all(out: &mut Vec<char>, s: &[char])
    ensures
        final(out)@ == old(out)@ + s@,
{
    let ghost start = out@;
    let mut i: usize = 0;
    while i < s.len()
        invariant
            i <= s@.len(),
            out@ == start + s@.subrange(0, i as int),
        decreases s@.len() - i,
    {
        out.push(s[i]);
        proof {
            assert(start + s@.subrange(0, i + 1) =~= (start + s@.subrange(0, i as int)).push(s@[i as int]));
        }
        i += 1;
    }
    proof {
        assert(s@.subrange(0, s@.len() as int) =~= s@);
    }
}

/// Appends the decimal digits of `n`.
fn push_decimal(out: &mut Vec<char>, n: usize)
    ensures
        final(out)@ == old(out)@ + decimal(n as nat),
    decreases n,
{
    if n >= 10 {
        push_decimal(out, n / 10);
    }
    let d = (n % 10) as u8;
    out.push((48u8 + d) as char);
    proof {
        assert(('0' as int + n % 10) as char == (48u8 + d) as char);
    }
}

/// The character written for a symbol.
fn symbol_char_exec(c: Char) -> (r: char)
    ensures
        r == symbol_char(c.index()),
{
    c.into_u8() as char
}

impl CharBitset {
    /// How the set is written (see `charset_text`).
    pub fn to_text(&self) -> (r: String)
        ensures
            r@ == charset_text(self@),
    {
        let mut out: Vec<char> = Vec::new();
        self.push_text(&mut out);
        string_from_chars(&out)
    }

    /// Appends how the set is written.
    fn push_text(&self, out: &mut Vec<char>)
        ensures
            final(out)@ == old(out)@ + charset_text(self@),
    {
        let letters = CharBitset::letters();
        let all = CharBitset::all();
        if self.same_set(&letters) {
            out.push('.');
            return;
        }
        if self.same_set(&all) {
            push_all(out, &['[', 'a', '-', 'z', '_', '\'', ']']);
            proof {
                assert(self@ == all_set());
            }
            return;
        }
        let mut list: Vec<char> = Vec::new();
        let mut i: usize = 0;
        while i < 28
            invariant
                i <= 28,
                list@ == listed(self@, i as int),
            decreases 28 - i,
        {
            if self.contains(Char::from_index(i)) {
                list.push(symbol_char_exec(Char::from_index(i)));
            }
            proof {
                let l = listed(self@, i as int);
                assert(listed(self@, i + 1) == l + if self@.contains(i as int) {
                    seq![symbol_char(i as int)]
                } else {
                    Seq::<char>::empty()
                });
                assert(l + Seq::<char>::empty() =~= l);
            }
            i += 1;
        }
        if list.len() == 0 {
            out.push('0');
        } else if list.len() == 1 {
            push_all(out, list.as_slice());
        } else {
            out.push('[');
            push_all(out, list.as_slice());
            out.push(']');
            proof {
                assert(old(out)@ + charset_text(self@) =~= old(out)@.push('[') + list@ + seq![']']);
            }
        }
    }
}


/// Appends how the repetition bounds are written.
fn push_repetition(out: &mut Vec<char>, min: usize, max: Option<usize>)
    ensures
        final(out)@ == old(out)@ + repetition_text(min, max),
{
    match max {
        None => if min == 0 {
            out.push('*');
        } else if min == 1 {
            out.push('+');
        } else {
            out.push('{');
            push_decimal(out, min);
            out.push(',');
            out.push('}');
        },
        Some(m) => if min == 0 && m == 1 {
            out.push('?');
        } else if min == 0 {
            out.push('{');
            out.push(',');
            push_decimal(out, m);
            out.push('}');
        } else if min == m {
            out.push('{');
            push_decimal(out, min);
            out.push('}');
        } else {
            out.push('{');
            push_decimal(out, min);
            out.push(',');
            out.push(' ');
            push_decimal(out, m);
            out.push('}');
        },
    }
    assert(final(out)@ =~= old(out)@ + repetition_text(min, max)) by {
    }
}

/// Appends how the tree is written.
fn push_ast(ast: &Ast, out: &mut Vec<char>)
    ensures
        final(out)@ == old(out)@ + ast_text(ast@),
    decreases ast, 1int,
{
    let ghost start = out@;
    match ast {
        Ast::CharClass(c) => {
            c.push_text(out);
        },
        Ast::Alternatives(nodes) => {
            if nodes.len() > 0 {
                out.push('(');
                push_joined(nodes, out);
                out.push(')');
                proof {
                    lemma_ast_list_view(nodes@);
                    assert(out@ =~= start + (seq!['('] + joined(ast_list_view(nodes@), '|') + seq![')']));
                }
            } else {
                proof {
                    lemma_ast_list_view(nodes@);
                    assert(out@ =~= start + ast_text(ast@));
                }
            }
        },
        Ast::Sequence(nodes) => {
            proof {
                lemma_ast_list_view(nodes@);
            }
            if nodes.len() > 1 {
                out.push('(');
                push_concat(nodes, out);
                out.push(')');
                proof {
                    assert(out@ =~= start + (seq!['('] + concat(ast_list_view(nodes@)) + seq![')']));
                }
            } else {
                push_concat(nodes, out);
            }
        },
        Ast::Repetition { term, min, max } => {
            push_ast(term, out);
            push_repetition(out, *min, *max);
            proof {
                assert(out@ =~= start + (ast_text((**term)@) + repetition_text(*min, *max)));
            }
        },
        Ast::Anagram { bank, .. } => {
            out.push('<');
            let ghost mid = out@;
            let mut i: usize = 0;
            while i < bank.len()
                invariant
                    i <= bank@.len(),
                    out@ == mid + bank@.subrange(0, i as int).map_values(|c: Char| symbol_char(c.index())),
                decreases bank@.len() - i,
            {
                out.push(symbol_char_exec(bank[i]));
                proof {
                    let f = |c: Char| symbol_char(c.index());
                    assert(bank@.subrange(0, i + 1).map_values(f) =~= bank@.subrange(0, i as int).map_values(f).push(f(bank@[i as int])));
                }
                i += 1;
            }
            out.push('>');
            proof {
                assert(bank@.subrange(0, bank@.len() as int) =~= bank@);
                assert(out@ =~= start + ast_text(ast@));
            }
        },
    }
}

/// Appends the trees one after another.
fn push_concat(nodes: &Vec<Ast>, out: &mut Vec<char>)
    ensures
        final(out)@ == old(out)@ + concat(ast_list_view(nodes@)),
    decreases nodes, 0int,
{
    let ghost start = out@;
    let ghost v = ast_list_view(nodes@);
    proof {
        lemma_ast_list_view(nodes@);
        assert(v.subrange(0, 0) =~= Seq::<AstView>::empty());
    }
    let mut k: usize = 0;
    while k < nodes.len()
        invariant
            v == ast_list_view(nodes@),
            v.len() == nodes@.len(),
            forall|j: int| 0 <= j < nodes@.len() ==> #[trigger] v[j] == nodes@[j]@,
            k <= nodes@.len(),
            out@ == start + concat(v.subrange(0, k as int)),
        decreases nodes@.len() - k,
    {
        proof {
            assert(decreases_to!(*nodes => nodes@));
            assert(decreases_to!(nodes@ => nodes@[k as int]));
        }
        push_ast(&nodes[k], out);
        proof {
            assert(v.subrange(0, k + 1).drop_last() =~= v.subrange(0, k as int));
            assert(out@ =~= start + concat(v.subrange(0, k + 1)));
        }
        k += 1;
    }
    proof {
        assert(v.subrange(0, v.len() as int) =~= v);
    }
}

/// Appends the trees with `|` between them.
fn push_joined(nodes: &Vec<Ast>, out: &mut Vec<char>)
    ensures
        final(out)@ == old(out)@ + joined(ast_list_view(nodes@), '|'),
    decreases nodes, 0int,
{
    let ghost start = out@;
    let ghost v = ast_list_view(nodes@);
    proof {
        lemma_ast_list_view(nodes@);
        assert(v.subrange(0, 0) =~= Seq::<AstView>::empty());
    }
    let mut k: usize = 0;
    while k < nodes.len()
        invariant
            v == ast_list_view(nodes@),
            v.len() == nodes@.len(),
            forall|j: int| 0 <= j < nodes@.len() ==> #[trigger] v[j] == nodes@[j]@,
            k <= nodes@.len(),
            out@ == start + joined(v.subrange(0, k as int), '|'),
        decreases nodes@.len() - k,
    {
        proof {
            assert(decreases_to!(*nodes => nodes@));
            assert(decreases_to!(nodes@ => nodes@[k as int]));
        }
        if k > 0 {
            out.push('|');
        }
        push_ast(&nodes[k], out);
        proof {
            let w = v.subrange(0, k + 1);
            assert(w.drop_last() =~= v.subrange(0, k as int));
            assert(w.last() == v[k as int]);
            if k == 0 {
                assert(w[0] == v[0]);
            }
            assert(out@ =~= start + joined(w, '|'));
        }
        k += 1;
    }
    proof {
        assert(v.subrange(0, v.len() as int) =~= v);
    }
}

impl Ast {
    /// How the tree is written (see `ast_text`).
    pub fn to_text(&self) -> (r: String)
        ensures
            r@ == ast_text(self@),
    {
        let mut out: Vec<char> = Vec::new();
        push_ast(self, &mut out);
        string_from_chars(&out)
    }
}

impl ExpressionAst {
    /// How the expression is written (see `expression_text`).
    pub fn to_text(&self) -> (r: String)
        ensures
            r@ == expression_text(self.root@, self.options),
    {
        let mut out: Vec<char> = Vec::new();
        push_ast(&self.root, &mut out);
        let ghost a = out@;
        if self.options.explicit_word_boundaries == Some(true) {
            out.push(' ');
            out.push('!');
            out.push('_');
        }
        let ghost b = out@;
        if self.options.explicit_punctuation == Some(true) {
            out.push(' ');
            out.push('!');
            out.push('\'');
        }
        let ghost c = out@;
        match self.options.fuzz {
            Some(n) => {
                out.push(' ');
                out.push('!');
                push_decimal(&mut out, n);
            },
            None => {},
        }
        proof {
            assert(out@ =~= expression_text(self.root@, self.options));
        }
        string_from_chars(&out)
    }
}

} // verus!
