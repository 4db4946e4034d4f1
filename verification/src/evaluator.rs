//! Evaluating a query over a word list: first the single words that match every
//! expression, then the phrases, searched phase by phase.
use crate::expression::{buildable, state_count, Expression, MAX_SET_SIZE};
use crate::matcher::{
    alive_in_all, all_ready, chained, finish_words, lemma_words_between_split, words_between, lemma_alive_in_all, instant_later, instant_now, matched_count, matches_all, next_word_match, same_word,
    lemma_shape_fewer_states, shape_fits, table_shape_ok, word_matchers, words_fit, words_of, PhraseMatcher, WordMatcher,
};
use crate::parser::{chars_of, ExpressionAst};
use crate::phrases::{matchers_ok, phases_ok, phrase_found, seq_before, words_at, yet_to_find, PhraseSearch, PhraseStep};
use crate::query::{QueryAst, QueryResponse};
use crate::search::{depths_within, lemma_ordered_within, lemma_phases_upto_within, order_phases, phases_upto, search_queue, size_phases, tranches_sorted, word_tranches, SearchPhase};
use crate::text::{expression_text, string_from_chars};
use crate::words::{Tranche, Word};
use std::time::Instant;
use vstd::prelude::*;

verus! {

/// The decimal digits of `n`.
pub open spec fn decimal(n: nat) -> Seq<char>
    decreases n,
{
    if n < 10 {
        seq![(48 + n) as char]
    } else {
        decimal(n / 10).push((48 + n % 10) as char)
    }
}

/// Appends the decimal digits of `n`.
fn push_decimal(out: &mut Vec<char>, n: usize)
    ensures
        final(out)@ == old(out)@ + decimal(n as nat),
    decreases n,
{
    if n >= 10 {
        push_decimal(out, n / 10);
    }
    let d = (n % 10) as u8;
    out.push((48u8 + d) as char);
    proof {
        if n < 10 {
            assert(old(out)@ + decimal(n as nat) =~= old(out)@.push((48 + n) as char));
        }
    }
}

/// Appends the characters of `s`.
fn push_text(out: &mut Vec<char>, s: &str)
    ensures
        final(out)@ == old(out)@ + s@,
{
    let cs = chars_of(s);
    let mut i: usize = 0;
    let ghost start = out@;
    while i < cs.len()
        invariant
            i <= cs@.len(),
            cs@ == s@,
            out@ == start + cs@.take(i as int),
        decreases cs@.len() - i,
    {
        out.push(cs[i]);
        i += 1;
        proof {
            assert(out@ =~= start + cs@.take(i as int));
        }
    }
    proof {
        assert(cs@.take(i as int) =~= cs@);
    }
}

/// The text `a`, then the number `n`, then the text `b`.
fn text_with_number(a: &str, n: usize, b: &str) -> (r: String)
    ensures
        r@ == a@ + decimal(n as nat) + b@,
{
    let mut out: Vec<char> = Vec::new();
    push_text(&mut out, a);
    push_decimal(&mut out, n);
    push_text(&mut out, b);
    proof {
        assert(out@ =~= a@ + decimal(n as nat) + b@);
    }
    string_from_chars(&out)
}

/// The text of a fixed message.
fn text_of(a: &str) -> (r: String)
    ensures
        r@ == a@,
{
    let mut out: Vec<char> = Vec::new();
    push_text(&mut out, a);
    proof {
        assert(out@ =~= a@);
    }
    string_from_chars(&out)
}

/// `Instant::elapsed`, written as `Debug` writes a `Duration`. Nothing is stated of
/// the text, which depends on the clock.
#[verifier::external_body]
fn elapsed_text(start: &Instant) -> String {
    format!("{:?}", start.elapsed())
}

/// A copy of the word, field by field.
pub fn copy_word(w: &Word) -> (r: Word)
    ensures
        same_word(r, *w),
{
    let chars = w.chars.clone();
    proof {
        assert(chars@ =~= w.chars@);
    }
    Word { tranche: w.tranche, chars, text: w.text.clone(), score: w.score }
}

/// Whether the words are in order of tranche.
pub fn tranches_in_order(words: &[&Word]) -> (r: bool)
    ensures
        r == tranches_sorted(words@),
{
    let mut k: usize = 1;
    if words.len() == 0 {
        return true;
    }
    while k < words.len()
        invariant
            1 <= k <= words@.len(),
            forall|i: int, j: int| 0 <= i < j < k ==> (#[trigger] words@[i]).tranche <= (#[trigger] words@[j]).tranche,
        decreases words@.len() - k,
    {
        if words[k - 1].tranche > words[k].tranche {
            return false;
        }
        proof {
            assert forall|i: int, j: int| 0 <= i < j < k + 1 implies (#[trigger] words@[i]).tranche <= (#[trigger] words@[j]).tranche by {
                if j == k && i < k - 1 {
                    assert(words@[i].tranche <= words@[k - 1].tranche);
                }
            }
        }
        k += 1;
    }
    true
}

/// Whether the phases can be searched over the words (see `phases_ok`); the list
/// must not be empty.
fn phases_fit(queue: &Vec<SearchPhase>, words: &[&Word]) -> (r: bool)
    requires
        words@.len() >= 1,
    ensures
        r == phases_ok(queue@, words@),
{
    let t0 = words[0].tranche;
    let mut i: usize = 0;
    while i < queue.len()
        invariant
            words@.len() >= 1,
            t0 == words@[0].tranche,
            i <= queue@.len(),
            forall|k: int| 0 <= k < i ==> 1 <= (#[trigger] queue@[k]).depth && t0 <= queue@[k].tranche,
        decreases queue@.len() - i,
    {
        if queue[i].depth < 1 || t0 > queue[i].tranche {
            assert(!(1 <= queue@[i as int].depth && words@[0].tranche <= queue@[i as int].tranche));
            return false;
        }
        i += 1;
    }
    true
}

/// The stage that an evaluation is at.
enum QueryPhase<'word> {
    /// Single words: a word matcher for each expression, and the word list.
    Word { matchers: Vec<WordMatcher<'word>>, wordlist: &'word [&'word Word] },
    /// Phrases of several words.
    Phrase { search: PhraseSearch<'word> },
    Done,
}

/// Evaluates a query, made of several expressions, over a word list: returns the
/// words, and then the phrases, that match every expression.
pub struct QueryEvaluator<'word> {
    phase: QueryPhase<'word>,
    /// The most words in a phrase.
    search_depth_limit: usize,
    /// The most results to return; once reached, the evaluation is done.
    results_limit: Option<usize>,
    /// The number of results returned so far.
    results_count: usize,
    /// The expressions of the query.
    expressions: Ghost<Seq<Expression>>,
}

/// The parsed expression can be compiled: it has no anagram and no repetition
/// whose maximum is below its minimum, and fewer than `MAX_SET_SIZE` states (see
/// `Expression::try_from_ast`).
pub open spec fn compiles(ast: ExpressionAst) -> bool {
    buildable(ast.root@) && state_count(ast.root@) < MAX_SET_SIZE
}

/// The fuzz of a parsed expression: its `!n` option, or 0.
pub open spec fn fuzz_of(ast: ExpressionAst) -> usize {
    match ast.options.fuzz {
        Some(f) => f,
        None => 0,
    }
}

/// The tables of the compiled expression fit in memory addresses whatever the
/// number of states it is left with: they fit for one state more than the tree
/// compiles to.
pub open spec fn surely_fits(ast: ExpressionAst) -> bool {
    fuzz_of(ast) < usize::MAX && table_shape_ok(state_count(ast.root@) as int + 1, fuzz_of(ast) + 1)
}

/// The expression is what `Expression::try_from_ast` compiles of the parsed one: its
/// flags, fuzz and text are those of the tree and its options.
pub open spec fn compiled_from(e: Expression, ast: ExpressionAst) -> bool {
    &&& e@.len() <= state_count(ast.root@) + 1
    &&& e.skips_word_ends() == (ast.options.explicit_word_boundaries != Some(true))
    &&& e.skips_punctuation() == (ast.options.explicit_punctuation != Some(true))
    &&& e.max_fuzz() == fuzz_of(ast)
    &&& e.text_view() == expression_text(ast.root@, ast.options)
}

/// The words are in order of tranche.
pub open spec fn in_tranche_order(ws: Seq<Word>) -> bool {
    forall|i: int, j: int| 0 <= i < j < ws.len() ==> (#[trigger] ws[i]).tranche <= (#[trigger] ws[j]).tranche
}

/// The word matches every expression.
pub open spec fn matches_exprs(es: Seq<Expression>, w: Word) -> bool {
    forall|i: int| 0 <= i < es.len() ==> (#[trigger] es[i]).matches_chars(w.chars@)
}

/// The words are the same, one for one (see `same_word`).
pub open spec fn same_words(a: Seq<Word>, b: Seq<&Word>) -> bool {
    &&& a.len() == b.len()
    &&& forall|i: int| 0 <= i < a.len() ==> same_word(#[trigger] a[i], *b[i])
}

impl<'word> QueryEvaluator<'word> {
    /// The expressions of the query.
    pub closed spec fn exprs(&self) -> Seq<Expression> {
        self.expressions@
    }

    /// The number of results returned so far.
    pub closed spec fn count(&self) -> nat {
        self.results_count as nat
    }

    /// The most results to return.
    pub closed spec fn limit(&self) -> Option<usize> {
        self.results_limit
    }

    /// The most words in a phrase.
    pub closed spec fn depth_limit(&self) -> usize {
        self.search_depth_limit
    }

    /// The evaluation is over.
    pub closed spec fn is_done(&self) -> bool {
        self.phase is Done
    }

    /// The evaluation is at the single words.
    pub closed spec fn in_word_phase(&self) -> bool {
        self.phase is Word
    }

    /// The evaluation is at the phrases.
    pub closed spec fn in_phrase_phase(&self) -> bool {
        self.phase is Phrase
    }

    /// The word list, while the evaluation is at the single words.
    pub closed spec fn word_list(&self) -> Seq<&'word Word> {
        match self.phase {
            QueryPhase::Word { wordlist, .. } => wordlist@,
            _ => Seq::empty(),
        }
    }

    /// How many words of the list have been tried, while the evaluation is at the
    /// single words.
    pub closed spec fn word_position(&self) -> nat {
        match self.phase {
            QueryPhase::Word { matchers, .. } => matchers@[0].index(),
            _ => 0,
        }
    }

    /// The phrase search, while the evaluation is at the phrases.
    pub closed spec fn search(&self) -> PhraseSearch<'word> {
        match self.phase {
            QueryPhase::Phrase { search } => search,
            _ => arbitrary(),
        }
    }

    /// The evaluation is consistent: at the single words, a word matcher for each
    /// expression, ready for the next word; at the phrases, a consistent search with a
    /// matcher for each expression.
    pub closed spec fn wf(&self) -> bool {
        let es = self.expressions@;
        match self.phase {
            QueryPhase::Word { matchers, wordlist } => {
                let ms = matchers@;
                &&& ms.len() >= 1
                &&& ms.len() == es.len()
                &&& all_ready(ms, ms[0].max_len())
                &&& chained(ms)
                &&& forall|j: int| 0 <= j < ms.len() ==> words_fit((#[trigger] ms[j]).seen(), ms[0].max_len())
                &&& forall|j: int| 0 <= j < ms.len() ==> (#[trigger] ms[j]).expr() == es[j]
                &&& forall|k: int| ms[0].index() <= k < wordlist@.len() ==> (#[trigger] wordlist@[k]).chars@.len() < ms[0].max_len()
                &&& ms[0].index() <= wordlist@.len()
                &&& ms[0].seen() == words_between(wordlist@, 0, ms[0].index() as int)
            },
            QueryPhase::Phrase { search } => {
                &&& search.wf() || search.queue().len() == 0
                &&& depths_within(search.queue(), 2, self.search_depth_limit as int)
                &&& search.matchers_view().len() == es.len()
                &&& forall|j: int| 0 <= j < es.len() ==> (#[trigger] search.matchers_view()[j]).expr() == es[j]
            },
            QueryPhase::Done => true,
        }
    }

    /// An evaluation of the expressions over the word list: phrases of up to
    /// `search_depth_limit` words, and up to `results_limit` results.
    pub fn new(
        expressions: Vec<Expression>,
        input_wordlist: &'word [&'word Word],
        search_depth_limit: usize,
        results_limit: Option<usize>,
    ) -> (r: Self)
        requires
            expressions@.len() >= 1,
            forall|i: int|
                0 <= i < expressions@.len() ==> (#[trigger] expressions@[i]).wf() && expressions@[i].max_fuzz() < usize::MAX
                    && table_shape_ok(expressions@[i]@.len() as int, expressions@[i].max_fuzz() + 1),
            forall|k: int| 0 <= k < input_wordlist@.len() ==> (#[trigger] input_wordlist@[k]).chars@.len() < usize::MAX,
        ensures
            r.wf(),
            r.in_word_phase(),
            r.exprs() == expressions@,
            r.count() == 0,
            r.limit() == results_limit,
            r.depth_limit() == search_depth_limit,
            r.word_list() == input_wordlist@,
            r.word_position() == 0,
    {
        let ghost es = expressions@;
        let matchers = word_matchers(expressions, input_wordlist);
        proof {
            assert forall|j: int| 0 <= j < matchers@.len() implies words_fit((#[trigger] matchers@[j]).seen(), matchers@[0].max_len()) by {
                assert(matchers@[j].seen().len() == 0);
            }
            matchers@[0].lemma_alive();
            assert(matchers@[0].seen() =~= words_between(input_wordlist@, 0, 0));
        }
        QueryEvaluator {
            phase: QueryPhase::Word { matchers, wordlist: input_wordlist },
            search_depth_limit,
            results_limit,
            results_count: 0,
            expressions: Ghost(es),
        }
    }

    /// An evaluation of a parsed query over the word list: phrases of up to the
    /// query's `#words` words (10 by default), and up to its `#limit` results (300 by
    /// default). `None` where the query has no expression, or an expression cannot be
    /// compiled (see `Expression::try_from_ast`) or its tables would not fit (see
    /// `shape_fits`), or a word is too long to count.
    pub fn from_ast(query_ast: &QueryAst, input_wordlist: &'word [&'word Word]) -> (r: Option<Self>)
        ensures
            r matches Some(e) ==> {
                &&& e.wf()
                &&& e.in_word_phase()
                &&& e.count() == 0
                &&& e.exprs().len() == query_ast.expression_list().len()
                &&& forall|i: int|
                    0 <= i < e.exprs().len() ==> compiled_from(#[trigger] e.exprs()[i], query_ast.expression_list()[i])
                &&& e.depth_limit() == match query_ast.query_options().max_words {
                    Some(m) => m,
                    None => 10,
                }
                &&& e.limit() == match query_ast.query_options().results_limit {
                    Some(l) => Some(l),
                    None => Some(300usize),
                }
                &&& e.word_list() == input_wordlist@
            },
            ({
                let asts = query_ast.expression_list();
                let long = exists|k: int| 0 <= k < input_wordlist@.len() && (#[trigger] input_wordlist@[k]).chars@.len() == usize::MAX;
                &&& asts.len() == 0 || long || !(forall|i: int| 0 <= i < asts.len() ==> compiles(#[trigger] asts[i])) ==> r is None
                &&& asts.len() > 0 && !long && (forall|i: int| 0 <= i < asts.len() ==> compiles(#[trigger] asts[i]) && surely_fits(asts[i]))
                    ==> r is Some
            }),
    {
        let asts = query_ast.expression_asts();
        let options = query_ast.options_ref();
        let search_depth_limit = match options.max_words {
            Some(m) => m,
            None => 10,
        };
        let results_limit = match options.results_limit {
            Some(l) => Some(l),
            None => Some(300),
        };
        if asts.len() == 0 {
            return None;
        }
        let mut k: usize = 0;
        while k < input_wordlist.len()
            invariant
                k <= input_wordlist@.len(),
                forall|j: int| 0 <= j < k ==> (#[trigger] input_wordlist@[j]).chars@.len() < usize::MAX,
            decreases input_wordlist@.len() - k,
        {
            if input_wordlist[k].chars.len() == usize::MAX {
                assert(input_wordlist@[k as int].chars@.len() == usize::MAX);
                return None;
            }
            k += 1;
        }
        let mut expressions: Vec<Expression> = Vec::new();
        let mut i: usize = 0;
        while i < asts.len()
            invariant
                asts@ == query_ast.expression_list(),
                i <= asts@.len(),
                expressions@.len() == i,
                forall|j: int| 0 <= j < i ==> compiles(#[trigger] asts@[j]),
                forall|j: int| 0 <= j < i ==> compiled_from(#[trigger] expressions@[j], asts@[j]),
                !(exists|k: int| 0 <= k < input_wordlist@.len() && (#[trigger] input_wordlist@[k]).chars@.len() == usize::MAX),
                forall|j: int|
                    0 <= j < i ==> (#[trigger] expressions@[j]).wf() && expressions@[j].max_fuzz() < usize::MAX && table_shape_ok(
                        expressions@[j]@.len() as int,
                        expressions@[j].max_fuzz() + 1,
                    ),
            decreases asts@.len() - i,
        {
            match Expression::try_from_ast(&asts[i]) {
                Some(e) => {
                    if !shape_fits(&e) {
                        proof {
                            let ast = asts@[i as int];
                            if surely_fits(ast) {
                                e.lemma_wf();
                                lemma_shape_fewer_states(e@.len() as int, state_count(ast.root@) as int + 1, e.max_fuzz() + 1);
                            }
                            assert(!surely_fits(asts@[i as int]));
                            assert(compiles(asts@[i as int]));
                        }
                        return None;
                    }
                    expressions.push(e);
                },
                None => {
                    assert(!compiles(asts@[i as int]));
                    return None;
                },
            }
            i += 1;
        }
        Some(Self::new(expressions, input_wordlist, search_depth_limit, results_limit))
    }
}

impl<'word> QueryEvaluator<'word> {
    /// The most results to return has been reached.
    pub open spec fn limit_reached(&self) -> bool {
        self.limit() matches Some(l) && self.count() >= l
    }

    /// Sets the most words in a phrase; only before any phrase is searched.
    pub fn set_search_depth_limit(&mut self, search_depth_limit: usize)
        requires
            old(self).wf(),
            old(self).in_word_phase(),
        ensures
            final(self).wf(),
            final(self).in_word_phase(),
            final(self).depth_limit() == search_depth_limit,
            final(self).exprs() == old(self).exprs(),
            final(self).count() == old(self).count(),
            final(self).limit() == old(self).limit(),
            final(self).word_list() == old(self).word_list(),
            final(self).word_position() == old(self).word_position(),
    {
        self.search_depth_limit = search_depth_limit;
    }

    /// Sets the most results to return; only before any phrase is searched.
    pub fn set_results_limit(&mut self, results_limit: Option<usize>)
        requires
            old(self).wf(),
            old(self).in_word_phase(),
        ensures
            final(self).wf(),
            final(self).in_word_phase(),
            final(self).limit() == results_limit,
            final(self).exprs() == old(self).exprs(),
            final(self).count() == old(self).count(),
            final(self).depth_limit() == old(self).depth_limit(),
            final(self).word_list() == old(self).word_list(),
            final(self).word_position() == old(self).word_position(),
    {
        self.results_limit = results_limit;
    }

    /// The expressions of the query, while they are being evaluated.
    pub fn expressions(&self) -> (r: Vec<&Expression>)
        requires
            self.wf(),
        ensures
            self.is_done() ==> r@.len() == 0,
            !self.is_done() ==> r@.len() == self.exprs().len() && forall|i: int| 0 <= i < r@.len() ==> *(#[trigger] r@[i]) == self.exprs()[i],
    {
        match &self.phase {
            QueryPhase::Word { matchers, .. } => {
                let mut r: Vec<&Expression> = Vec::new();
                let mut i: usize = 0;
                while i < matchers.len()
                    invariant
                        i <= matchers@.len(),
                        r@.len() == i,
                        forall|k: int| 0 <= k < i ==> *(#[trigger] r@[k]) == matchers@[k].expr(),
                    decreases matchers@.len() - i,
                {
                    r.push(matchers[i].expression());
                    i += 1;
                }
                r
            },
            QueryPhase::Phrase { search } => search.expressions(),
            QueryPhase::Done => Vec::new(),
        }
    }
}

/// The numbers as `Debug` writes them after the first `k`: each after a comma and a
/// space.
pub open spec fn list_tail(ns: Seq<usize>, k: int) -> Seq<char>
    decreases ns.len() - k,
{
    if k >= ns.len() || k < 0 {
        Seq::empty()
    } else {
        ", "@ + decimal(ns[k] as nat) + list_tail(ns, k + 1)
    }
}

/// The numbers as `Debug` writes a list of them: in brackets, separated by a comma
/// and a space.
pub open spec fn list_text(ns: Seq<usize>) -> Seq<char> {
    if ns.len() == 0 {
        "[]"@
    } else {
        "["@ + decimal(ns[0] as nat) + list_tail(ns, 1) + "]"@
    }
}

/// The numbers written before position `k` (see `list_text`), without brackets.
spec fn list_prefix(ns: Seq<usize>, k: int) -> Seq<char>
    decreases k,
{
    if k <= 0 {
        Seq::empty()
    } else if k == 1 {
        decimal(ns[0] as nat)
    } else {
        list_prefix(ns, k - 1) + ", "@ + decimal(ns[k - 1] as nat)
    }
}

proof fn lemma_list_prefix(ns: Seq<usize>, k: int)
    requires
        1 <= k <= ns.len(),
    ensures
        list_prefix(ns, k) + list_tail(ns, k) == decimal(ns[0] as nat) + list_tail(ns, 1),
    decreases k,
{
    if k > 1 {
        lemma_list_prefix(ns, k - 1);
        assert(list_tail(ns, k - 1) == ", "@ + decimal(ns[k - 1] as nat) + list_tail(ns, k));
        assert(list_prefix(ns, k - 1) + list_tail(ns, k - 1) =~= list_prefix(ns, k) + list_tail(ns, k));
    }
}

/// Appends the numbers as `Debug` writes a list of them (see `list_text`).
fn push_list(out: &mut Vec<char>, ns: &Vec<usize>)
    ensures
        final(out)@ == old(out)@ + list_text(ns@),
{
    let ghost start = out@;
    push_text(out, "[");
    let mut i: usize = 0;
    while i < ns.len()
        invariant
            i <= ns@.len(),
            out@ == start + "["@ + list_prefix(ns@, i as int),
        decreases ns@.len() - i,
    {
        let ghost before = out@;
        if i > 0 {
            push_text(out, ", ");
        }
        push_decimal(out, ns[i]);
        proof {
            if i > 0 {
                assert(out@ =~= start + "["@ + list_prefix(ns@, i + 1));
            } else {
                assert(out@ =~= start + "["@ + list_prefix(ns@, 1));
            }
        }
        i += 1;
    }
    push_text(out, "]");
    proof {
        if ns@.len() > 0 {
            lemma_list_prefix(ns@, ns@.len() as int);
            assert(list_tail(ns@, ns@.len() as int) =~= Seq::<char>::empty());
            assert(list_prefix(ns@, ns@.len() as int) =~= decimal(ns@[0] as nat) + list_tail(ns@, 1));
            assert(out@ =~= old(out)@ + list_text(ns@));
        } else {
            reveal_strlit("[");
            reveal_strlit("]");
            reveal_strlit("[]");
            assert(list_prefix(ns@, 0) =~= Seq::<char>::empty());
            assert(out@ =~= old(out)@ + list_text(ns@));
        }
    }
}

/// The message that ends the evaluation when no phrase can match.
fn no_phrases() -> (r: String)
    ensures
        r@ == "Complete, found all single-word matches (no phrases possible)"@,
{
    text_of("Complete, found all single-word matches (no phrases possible)")
}

proof fn lemma_no_phases(limit: int)
    ensures
        phases_upto(limit, Seq::<Tranche>::empty()).len() == 0,
    decreases limit,
{
    if limit >= 2 {
        lemma_no_phases(limit - 1);
    }
}

impl<'word> QueryEvaluator<'word> {
    /// Ends the single-word stage and prepares the phrase search: the matchers after
    /// the first see the alive words of the one before; then, pass after pass, each
    /// matcher from the last to the first is narrowed to the words alive in all so far
    /// and optimized for phrases of up to the search depth (see
    /// `WordMatcher::narrow_and_optimize`), until a pass changes nothing or after 100
    /// passes. The phases are those of each phrase length from 2 up to the search
    /// depth and each tranche of the words alive at first, sized over the words left
    /// and ordered by size (see `size_phases` and `order_phases`). Where no word or no
    /// phase is left, or phrases of the words cannot reach some matcher's success
    /// state, no phrase can match and the evaluation is complete.
    fn start_phrases(&mut self, matchers: Vec<WordMatcher<'word>>, Ghost(len): Ghost<nat>) -> (r: QueryResponse)
        requires
            old(self).is_done(),
            old(self).depth_limit() >= 2,
            matchers@.len() >= 1,
            matchers@.len() == old(self).exprs().len(),
            all_ready(matchers@, len),
            chained(matchers@),
            forall|j: int| 0 <= j < matchers@.len() ==> words_fit((#[trigger] matchers@[j]).seen(), len),
            forall|j: int| 0 <= j < matchers@.len() ==> (#[trigger] matchers@[j]).expr() == old(self).exprs()[j],
        ensures
            final(self).wf(),
            final(self).exprs() == old(self).exprs(),
            final(self).limit() == old(self).limit(),
            final(self).depth_limit() == old(self).depth_limit(),
            final(self).count() == old(self).count(),
            r is Complete ==> final(self).is_done(),
            r is Logs ==> final(self).in_phrase_phase(),
            r is Complete || r is Logs,
            r matches QueryResponse::Complete(m) ==> m@ == "Complete, found all single-word matches (no phrases possible)"@,
            alive_in_all(old(self).exprs(), matchers@[0].seen()).len() == 0 ==> r is Complete,
            !in_tranche_order(alive_in_all(old(self).exprs(), matchers@[0].seen())) ==> r is Complete,
    {
        let ghost es = self.expressions@;
        let ghost first_seen = matchers@[0].seen();
        let mut matchers = matchers;
        finish_words(&mut matchers, Ghost(len));
        let m_count = matchers.len();
        let mut alive_wordlist: Vec<&'word Word> = matchers[m_count - 1].alive_words().clone();
        proof {
            lemma_alive_in_all(matchers@, len, es, m_count - 1);
            assert(es.take(m_count as int) =~= es);
            assert(alive_wordlist@.len() == alive_in_all(es, first_seen).len());
            let aw = alive_in_all(es, first_seen);
            assert(words_of(alive_wordlist@) == aw);
            assert(tranches_sorted(alive_wordlist@) == in_tranche_order(aw)) by {
                let al = alive_wordlist@;
                if tranches_sorted(al) {
                    assert forall|i: int, j: int| 0 <= i < j < aw.len() implies (#[trigger] aw[i]).tranche <= (#[trigger] aw[j]).tranche by {
                        assert(aw[i] == *al[i]);
                        assert(aw[j] == *al[j]);
                        assert(al[i].tranche <= al[j].tranche);
                    }
                }
                if in_tranche_order(aw) {
                    assert forall|i: int, j: int| 0 <= i < j < al.len() implies (#[trigger] al[i]).tranche <= (#[trigger] al[j]).tranche by {
                        assert(aw[i] == *al[i]);
                        assert(aw[j] == *al[j]);
                        assert(aw[i].tranche <= aw[j].tranche);
                    }
                }
            }
        }
        if !tranches_in_order(&alive_wordlist) {
            return QueryResponse::Complete(no_phrases());
        }
        let tranches = word_tranches(&alive_wordlist);
        let mut queue = search_queue(self.search_depth_limit, &tranches);
        proof {
            if alive_wordlist@.len() == 0 {
                if tranches@.len() > 0 {
                    assert(tranches@.contains(tranches@[0]));
                }
                assert(tranches@ =~= Seq::<Tranche>::empty());
                lemma_no_phases(self.search_depth_limit as int);
            }
        }
        if queue.len() == 0 {
            return QueryResponse::Complete(no_phrases());
        }
        proof {
            lemma_phases_upto_within(self.search_depth_limit as int, tranches@);
        }
        let ghost some_alive = alive_in_all(es, first_seen).len() > 0;
        assert(some_alive);
        let mut log_messages: Vec<String> = Vec::new();
        let start = instant_now();
        let initial_size = alive_wordlist.len();
        let mut passes: usize = 0;
        proof {
            assert forall|j: int| 0 <= j < matchers@.len() implies (#[trigger] matchers@[j]).phrase_ok() && matchers@[j].phrase().expr() == es[j] by {
                matchers@[j].lemma_phrase_ok();
                matchers@[j].lemma_phrase_wf();
            }
        }
        loop
            invariant_except_break
                passes < 100,
            invariant
                matchers@.len() == m_count,
                m_count == es.len(),
                m_count >= 1,
                es == self.expressions@,
                self.phase is Done,
                self.search_depth_limit == old(self).search_depth_limit,
                self.results_limit == old(self).results_limit,
                self.results_count == old(self).results_count,
                old(self).expressions@ == es,
                passes <= 100,
                forall|j: int| 0 <= j < matchers@.len() ==> (#[trigger] matchers@[j]).phrase_ok() && matchers@[j].phrase().expr() == es[j],
            decreases 100 - passes,
        {
            passes += 1;
            let mut converged = true;
            let mut i: usize = m_count;
            while i > 0
                invariant
                    matchers@.len() == m_count,
                    m_count == es.len(),
                    es == self.expressions@,
                    self.phase is Done,
                    self.search_depth_limit == old(self).search_depth_limit,
                    self.results_limit == old(self).results_limit,
                    self.results_count == old(self).results_count,
                    old(self).expressions@ == es,
                    i <= m_count,
                    forall|j: int| 0 <= j < matchers@.len() ==> (#[trigger] matchers@[j]).phrase_ok() && matchers@[j].phrase().expr() == es[j],
                decreases i,
            {
                i -= 1;
                if !matchers[i].alive_covers(&alive_wordlist) {
                    return QueryResponse::Complete(no_phrases());
                }
                match matchers[i].narrow_and_optimize(&alive_wordlist, self.search_depth_limit) {
                    None => {
                        return QueryResponse::Complete(no_phrases());
                    },
                    Some(did_optimize) => {
                        if did_optimize {
                            converged = false;
                        }
                    },
                }
                if matchers[i].alive_words().len() != alive_wordlist.len() {
                    converged = false;
                    alive_wordlist = matchers[i].alive_words().clone();
                    if alive_wordlist.len() == 0 {
                        break;
                    }
                }
            }
            if converged {
                break;
            }
            if passes >= 100 {
                log_messages.push(text_with_number("gave up after performing ", passes, " optimization passes"));
                break;
            }
        }
        let mut message: Vec<char> = Vec::new();
        push_text(&mut message, "optimizing took ");
        let took = elapsed_text(&start);
        push_text(&mut message, took.as_str());
        push_text(&mut message, " in ");
        push_decimal(&mut message, passes);
        push_text(&mut message, " passes, wordlist shrunk ");
        push_decimal(&mut message, initial_size);
        push_text(&mut message, " -> ");
        push_decimal(&mut message, alive_wordlist.len());
        log_messages.push(string_from_chars(&message));
        if alive_wordlist.len() == 0 {
            return QueryResponse::Complete(no_phrases());
        }
        let ghost unsized_queue = queue@;
        size_phases(&mut queue, &alive_wordlist);
        proof {
            assert(depths_within(queue@, 2, self.search_depth_limit as int)) by {
                assert forall|i: int| 0 <= i < queue@.len() implies 2 <= (#[trigger] queue@[i]).depth <= self.search_depth_limit by {
                    assert(queue@[i].depth == unsized_queue[i].depth);
                }
            }
            lemma_ordered_within(queue@, 2, self.search_depth_limit as int);
        }
        let queue = order_phases(queue);
        if queue.len() == 0 {
            return QueryResponse::Complete(no_phrases());
        }
        // the phrase matchers, in the order of the expressions
        let mut phrase_matchers: Vec<PhraseMatcher> = Vec::new();
        let mut sizes_before: Vec<usize> = Vec::new();
        let mut sizes_after: Vec<usize> = Vec::new();
        let mut fits = true;
        while matchers.len() > 0
            invariant
                phrase_matchers@.len() + matchers@.len() == m_count,
                forall|j: int| 0 <= j < matchers@.len() ==> (#[trigger] matchers@[j]).phrase_ok() && matchers@[j].phrase().expr() == es[phrase_matchers@.len() + j],
                forall|j: int| 0 <= j < phrase_matchers@.len() ==> (#[trigger] phrase_matchers@[j]).wf() && phrase_matchers@[j].expr() == es[j],
                fits ==> matchers_ok(phrase_matchers@, alive_wordlist@.len()),
            decreases matchers@.len(),
        {
            let m = matchers.remove(0);
            proof {
                m.lemma_phrase_wf();
            }
            let pm = m.into_phrase_matcher();
            sizes_before.push(pm.expression_ref().states_len());
            sizes_after.push(pm.n_states());
            if pm.word_count() != alive_wordlist.len() || !pm.words_classed() {
                fits = false;
            }
            let ghost before = phrase_matchers@;
            phrase_matchers.push(pm);
            proof {
                assert forall|j: int| 0 <= j < matchers@.len() implies (#[trigger] matchers@[j]).phrase_ok() && matchers@[j].phrase().expr() == es[phrase_matchers@.len() + j] by {
                }
                if fits {
                    assert forall|k: int| 0 <= k < phrase_matchers@.len() implies {
                        &&& (#[trigger] phrase_matchers@[k]).wf()
                        &&& phrase_matchers@[k].word_class_list().len() == alive_wordlist@.len()
                        &&& forall|w: int| 0 <= w < alive_wordlist@.len() ==> #[trigger] phrase_matchers@[k].word_class_list()[w] != 0
                    } by {
                        if k < before.len() {
                            assert(phrase_matchers@[k] == before[k]);
                        }
                    }
                }
            }
        }
        let mut message: Vec<char> = Vec::new();
        push_text(&mut message, "optimized state sizes: ");
        push_list(&mut message, &sizes_before);
        push_text(&mut message, " -> ");
        push_list(&mut message, &sizes_after);
        log_messages.push(string_from_chars(&message));
        if !fits || !tranches_in_order(&alive_wordlist) || !phases_fit(&queue, &alive_wordlist) {
            return QueryResponse::Complete(no_phrases());
        }
        let search = PhraseSearch::new(phrase_matchers, alive_wordlist, queue);
        self.phase = QueryPhase::Phrase { search };
        QueryResponse::Logs(log_messages)
    }
}

impl<'word> QueryEvaluator<'word> {
    /// The next answer of the evaluation.
    ///
    /// Once the most results have been returned, the evaluation is complete. At the
    /// single words: the next word of the list that matches every expression (see
    /// `next_word_match`); once no word is left, the phrase search is prepared and its
    /// log returned (see `start_phrases`), or, where phrases are limited to one word,
    /// the evaluation is complete. At the phrases: the next phrase found (see
    /// `PhraseSearch::next_phrase`), or the end of the search. With a deadline, the
    /// evaluation may stop early with `Timeout`, to be resumed by the next call.
    pub fn next_within_deadline(&mut self, deadline: Option<Instant>) -> (r: QueryResponse)
        requires
            old(self).wf(),
        ensures
            final(self).wf(),
            final(self).exprs() == old(self).exprs(),
            final(self).limit() == old(self).limit(),
            final(self).depth_limit() == old(self).depth_limit(),
            old(self).is_done() || old(self).limit_reached() ==> r is Complete && final(self).is_done() && final(self).count()
                == old(self).count(),
            r is Match ==> final(self).count() == if old(self).count() < usize::MAX {
                old(self).count() + 1
            } else {
                old(self).count()
            },
            !(r is Match) ==> final(self).count() == old(self).count(),
            r is Timeout ==> deadline is Some,
            r is Complete ==> final(self).is_done(),
            old(self).in_word_phase() && !old(self).limit_reached() && deadline is None && old(self).depth_limit() >= 2 && !(r is Match)
                ==> {
                let wl = old(self).word_list();
                let alive = alive_in_all(old(self).exprs(), words_between(wl, 0, wl.len() as int));
                alive.len() == 0 || !in_tranche_order(alive) ==> r is Complete
            },
            forall|l: usize| old(self).limit() == Some(l) && old(self).count() <= l ==> final(self).count() <= l,
            old(self).in_word_phase() && !old(self).limit_reached() ==> {
                let a = old(self).word_position() as int;
                let wl = old(self).word_list();
                match r {
                    QueryResponse::Match(ws) => {
                        let b = final(self).word_position() as int;
                        &&& final(self).in_word_phase()
                        &&& final(self).word_list() == wl
                        &&& a < b <= wl.len()
                        &&& ws@.len() == 1
                        &&& same_word(ws@[0], *wl[b - 1])
                        &&& matches_exprs(old(self).exprs(), *wl[b - 1])
                        &&& forall|k: int| a <= k < b - 1 ==> !matches_exprs(old(self).exprs(), *(#[trigger] wl[k]))
                    },
                    QueryResponse::Timeout => final(self).in_word_phase() && final(self).word_list() == wl,
                    QueryResponse::Logs(_) => {
                        &&& final(self).in_phrase_phase()
                        &&& deadline is None ==> forall|k: int| a <= k < wl.len() ==> !matches_exprs(old(self).exprs(), *(#[trigger] wl[k]))
                    },
                    QueryResponse::Complete(_) => {
                        &&& final(self).is_done()
                        &&& deadline is None ==> forall|k: int| a <= k < wl.len() ==> !matches_exprs(old(self).exprs(), *(#[trigger] wl[k]))
                    },
                }
            },
            old(self).in_phrase_phase() && !old(self).limit_reached() ==> match r {
                QueryResponse::Match(ws) => {
                    let s = old(self).search();
                    &&& final(self).in_phrase_phase()
                    &&& 2 <= ws@.len() <= old(self).depth_limit()
                    &&& exists|p: Seq<usize>, ph: SearchPhase|
                        phrase_found(s.matchers_view(), s.words(), s.queue(), p, ph) && same_words(ws@, words_at(s.words(), p))
                    &&& exists|k: int, c: Seq<usize>|
                        {
                            &&& yet_to_find(s.matchers_view(), s.words(), s.queue(), s.path_view(), k, c)
                            &&& same_words(ws@, words_at(s.words(), c))
                            &&& forall|j: int, c2: Seq<usize>|
                                yet_to_find(s.matchers_view(), s.words(), s.queue(), s.path_view(), j, c2) ==> k < j || (k == j
                                    && !seq_before(c2, c))
                        }
                },
                QueryResponse::Timeout => final(self).in_phrase_phase(),
                QueryResponse::Complete(_) => {
                    let s = old(self).search();
                    &&& final(self).is_done()
                    &&& forall|j: int, c2: Seq<usize>| !yet_to_find(s.matchers_view(), s.words(), s.queue(), s.path_view(), j, c2)
                },
                QueryResponse::Logs(_) => false,
            },
    {
        let reached = match self.results_limit {
            Some(l) => self.results_count >= l,
            None => false,
        };
        let mut phase = QueryPhase::Done;
        std::mem::swap(&mut phase, &mut self.phase);
        if reached {
            match phase {
                QueryPhase::Done => {
                    return QueryResponse::Complete(text_of("QueryEvaluator.next_within_deadline called repeatedly"));
                },
                _ => {
                    return QueryResponse::Complete(text_with_number("Found ", self.results_count, " results, stopping"));
                },
            }
        }
        match phase {
            QueryPhase::Word { mut matchers, wordlist } => {
                let ghost ms0 = matchers@;
                let ghost es = self.expressions@;
                proof {
                    assert forall|w: Word| matches_all(ms0, w) == matches_exprs(es, w) by {
                        if matches_all(ms0, w) {
                            assert forall|i: int| 0 <= i < es.len() implies (#[trigger] es[i]).matches_chars(w.chars@) by {
                                assert(ms0[i].expr() == es[i]);
                            }
                        }
                        if matches_exprs(es, w) {
                            assert forall|i: int| 0 <= i < ms0.len() implies (#[trigger] ms0[i]).expr().matches_chars(w.chars@) by {
                                assert(ms0[i].expr() == es[i]);
                            }
                        }
                    }
                }
                let found = next_word_match(&mut matchers, wordlist, deadline);
                proof {
                    lemma_words_between_split(wordlist@, 0, ms0[0].index() as int, matchers@[0].index() as int);
                }
                match found {
                    Some(word) => {
                        if self.results_count < usize::MAX {
                            self.results_count += 1;
                        }
                        let copy = copy_word(word);
                        self.phase = QueryPhase::Word { matchers, wordlist };
                        let mut ws: Vec<Word> = Vec::new();
                        ws.push(copy);
                        QueryResponse::Match(ws)
                    },
                    None => {
                        if let Some(limit) = &deadline {
                            let now = instant_now();
                            if instant_later(&now, limit) {
                                self.phase = QueryPhase::Word { matchers, wordlist };
                                return QueryResponse::Timeout;
                            }
                        }
                        if self.search_depth_limit <= 1 {
                            return QueryResponse::Complete(text_of("Complete, found all single-word matches"));
                        }
                        let ghost len = matchers@[0].max_len();
                        self.start_phrases(matchers, Ghost(len))
                    },
                }
            },
            QueryPhase::Phrase { mut search } => {
                let ghost s0 = search;
                let step = if search.has_phases() {
                    search.next_phrase(deadline)
                } else {
                    PhraseStep::Complete
                };
                match step {
                    PhraseStep::Match(words) => {
                        if self.results_count < usize::MAX {
                            self.results_count += 1;
                        }
                        let mut ws: Vec<Word> = Vec::new();
                        let mut i: usize = 0;
                        while i < words.len()
                            invariant
                                i <= words@.len(),
                                ws@.len() == i,
                                forall|k: int| 0 <= k < i ==> same_word(#[trigger] ws@[k], *words@[k]),
                            decreases words@.len() - i,
                        {
                            ws.push(copy_word(words[i]));
                            i += 1;
                        }
                        proof {
                            let (p, ph) = choose|p: Seq<usize>, ph: SearchPhase|
                                phrase_found(s0.matchers_view(), s0.words(), s0.queue(), p, ph) && words@ == words_at(s0.words(), p);
                            assert(same_words(ws@, words_at(s0.words(), p)));
                            assert(old(self).search() == s0);
                            assert(phrase_found(old(self).search().matchers_view(), old(self).search().words(), old(self).search().queue(), p, ph));
                            let (k, c) = choose|k: int, c: Seq<usize>|
                                {
                                    &&& yet_to_find(s0.matchers_view(), s0.words(), s0.queue(), s0.path_view(), k, c)
                                    &&& words@ == words_at(s0.words(), c)
                                    &&& forall|j: int, c2: Seq<usize>|
                                        yet_to_find(s0.matchers_view(), s0.words(), s0.queue(), s0.path_view(), j, c2) ==> k < j || (k == j
                                            && !seq_before(c2, c))
                                };
                            assert(same_words(ws@, words_at(s0.words(), c)));
                        }
                        self.phase = QueryPhase::Phrase { search };
                        QueryResponse::Match(ws)
                    },
                    PhraseStep::Timeout => {
                        self.phase = QueryPhase::Phrase { search };
                        QueryResponse::Timeout
                    },
                    PhraseStep::Complete => {
                        let mut message: Vec<char> = Vec::new();
                        push_text(&mut message, "Complete, found all ");
                        push_decimal(&mut message, self.results_count);
                        push_text(&mut message, " phrases up to ");
                        push_decimal(&mut message, self.search_depth_limit);
                        push_text(&mut message, " words");
                        QueryResponse::Complete(string_from_chars(&message))
                    },
                }
            },
            QueryPhase::Done => QueryResponse::Complete(text_of("QueryEvaluator.next_within_deadline called repeatedly")),
        }
    }
}

} // verus!
