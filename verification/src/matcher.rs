//! Matching words and phrases against a compiled expression.
//!
//! A `WordMatcher` runs each word of a word list through the automaton, keeping
//! the transition tables of the common prefix of consecutive words. Each word
//! that can still be part of a phrase match is "alive"; words whose tables are
//! equal form a class, and a `PhraseMatcher` steps sets of states through whole
//! words by their class's table.
use crate::bitset::{row_set, shape_wf, BitSet1D, BitSet2D, BitSet3D, BitSetRef, BitSetRef2D, BitSetRef3D};
use crate::expression::{blocks_for, kept, lemma_kept_mono, lemma_kept_nonneg, lemma_rows_distinct, rows_of, Expression};
use crate::words::{Char, Word};
use indexmap::IndexMap;
use std::time::Instant;
use vstd::prelude::*;

verus! {

/// The number of words in a phrase.
pub type PhraseLength = usize;

/// A group of words by how common they are.
pub type Tranche = usize;

// ---------------------------------------------------------------------------
// Word classes.

/// The words that share a transition table.
pub struct WordClass {
    pub words_per_tranche: Vec<usize>,
    pub words_count: usize,
    pub min_tranche: Tranche,
}

impl Default for WordClass {
    fn default() -> (r: WordClass)
        ensures
            r.words_count == 0,
            r.min_tranche == 0,
            r.words_per_tranche@.len() == 0,
    {
        WordClass { words_per_tranche: Vec::new(), words_count: 0, min_tranche: 0 }
    }
}

impl WordClass {
    /// Counts one more word.
    fn add_word(&mut self, _word: &Word)
        requires
            old(self).words_count < usize::MAX,
        ensures
            final(self).words_count == old(self).words_count + 1,
            final(self).min_tranche == old(self).min_tranche,
            final(self).words_per_tranche@ == old(self).words_per_tranche@,
    {
        self.words_count += 1;
    }

    /// Forgets every word.
    fn clear(&mut self)
        ensures
            final(self).words_count == 0,
            final(self).min_tranche == 0,
            final(self).words_per_tranche@.len() == 0,
    {
        *self = WordClass::default();
    }
}

/// The classes of a matcher, an `IndexMap` from a table's blocks to its class:
/// each table's blocks with the class, in order.
pub uninterp spec fn class_entries(m: IndexMap<Vec<u64>, WordClass>) -> Seq<(Seq<u64>, WordClass)>;

/// `IndexMap::new`: no classes.
#[verifier::external_body]
fn classes_new() -> (r: IndexMap<Vec<u64>, WordClass>)
    ensures
        class_entries(r) == Seq::<(Seq<u64>, WordClass)>::empty(),
{
    IndexMap::new()
}

/// `IndexMap::len`: the number of classes.
#[verifier::external_body]
fn classes_len(m: &IndexMap<Vec<u64>, WordClass>) -> (r: usize)
    ensures
        r == class_entries(*m).len(),
{
    m.len()
}

/// `IndexMap::get_index`: the class at position `i`, if there is one.
#[verifier::external_body]
fn classes_get_index(m: &IndexMap<Vec<u64>, WordClass>, i: usize) -> (r: Option<(&Vec<u64>, &WordClass)>)
    ensures
        match r {
            Some((k, v)) => i < class_entries(*m).len() && k@ == class_entries(*m)[i as int].0 && *v
                == class_entries(*m)[i as int].1,
            None => i >= class_entries(*m).len(),
        },
{
    m.get_index(i)
}

/// `IndexMap::get_index_of`: the position of the class with these blocks, if any.
#[verifier::external_body]
fn classes_get_index_of(m: &IndexMap<Vec<u64>, WordClass>, key: &Vec<u64>) -> (r: Option<usize>)
    requires
        distinct_keys(class_entries(*m)),
    ensures
        match r {
            Some(i) => i < class_entries(*m).len() && class_entries(*m)[i as int].0 == key@,
            None => forall|i: int| 0 <= i < class_entries(*m).len() ==> #[trigger] class_entries(*m)[i].0 != key@,
        },
{
    m.get_index_of(key)
}

/// `IndexMap::insert_full`: a class with these blocks takes the new value in its
/// place, and its position and old value are returned; otherwise the pair goes last.
#[verifier::external_body]
fn classes_insert_full(m: &mut IndexMap<Vec<u64>, WordClass>, key: Vec<u64>, value: WordClass) -> (r: (usize, Option<WordClass>))
    requires
        distinct_keys(class_entries(*old(m))),
    ensures
        ({
            let e = class_entries(*old(m));
            match r.1 {
                Some(v) => r.0 < e.len() && e[r.0 as int].0 == key@ && v == e[r.0 as int].1
                    && class_entries(*final(m)) == e.update(r.0 as int, (key@, value)),
                None => r.0 == e.len() && (forall|i: int| 0 <= i < e.len() ==> #[trigger] e[i].0 != key@)
                    && class_entries(*final(m)) == e.push((key@, value)),
            }
        }),
{
    m.insert_full(key, value)
}

/// No two classes have the same blocks.
pub open spec fn distinct_keys(e: Seq<(Seq<u64>, WordClass)>) -> bool {
    forall|i: int, j: int| 0 <= i < j < e.len() ==> #[trigger] e[i].0 != #[trigger] e[j].0
}

/// How many of `ws` are `i`.
pub open spec fn count_of(ws: Seq<usize>, i: int) -> nat
    decreases ws.len(),
{
    if ws.len() == 0 {
        0
    } else {
        count_of(ws.drop_last(), i) + if ws.last() == i {
            1nat
        } else {
            0nat
        }
    }
}

proof fn lemma_count_of_bound(ws: Seq<usize>, i: int)
    ensures
        count_of(ws, i) <= ws.len(),
    decreases ws.len(),
{
    if ws.len() > 0 {
        lemma_count_of_bound(ws.drop_last(), i);
    }
}

proof fn lemma_count_of_push(ws: Seq<usize>, x: usize, i: int)
    ensures
        count_of(ws.push(x), i) == count_of(ws, i) + if x == i {
            1nat
        } else {
            0nat
        },
{
    assert(ws.push(x).drop_last() =~= ws);
}


// ---------------------------------------------------------------------------
// Stepping sets of states through a word.

/// The rows of a table, by state and fuzz.
pub open spec fn ref3_rows(t: BitSetRef3D) -> spec_fn(usize, usize) -> Set<int> {
    |s: usize, f: usize| t.row((s, f))
}

/// The rows of a list of sets, by fuzz.
pub open spec fn ref2_rows(t: BitSetRef2D) -> spec_fn(usize) -> Set<int> {
    |f: usize| t.row(f)
}

/// The states that a word with table `table` leads to with fuzz `g`, from the
/// states `prev` with fuzz below `fcount`: from a state `dst` reached with fuzz `f`,
/// the word's row `(dst, g - f)`.
pub open spec fn step_upto(
    n: int,
    table: spec_fn(usize, usize) -> Set<int>,
    prev: spec_fn(usize) -> Set<int>,
    fcount: int,
    g: usize,
) -> Set<int> {
    Set::new(
        |t: int|
            exists|f: usize, dst: int|
                f < fcount && f <= g && #[trigger] prev(f).contains(dst) && 0 <= dst < n && table(
                    dst as usize,
                    (g - f) as usize,
                ).contains(t),
    )
}

/// `step_upto` counting only the states `dsts` at fuzz `f`.
pub open spec fn step_one(
    n: int,
    table: spec_fn(usize, usize) -> Set<int>,
    f: usize,
    dsts: Set<int>,
    g: usize,
) -> Set<int> {
    Set::new(
        |t: int|
            exists|dst: int|
                f <= g && #[trigger] dsts.contains(dst) && 0 <= dst < n && table(dst as usize, (g - f) as usize).contains(t),
    )
}

/// A table of `n` states and `flim` fuzz values, each row holding the states.
pub open spec fn table3_ok(t: BitSetRef3D, n: usize, flim: usize) -> bool {
    &&& t.wf()
    &&& t.shape() == (n, flim)
    &&& t.row_len() == blocks_for(n as int)
    &&& forall|s: usize, f: usize, x: int| s < n && f < flim && #[trigger] t.row((s, f)).contains(x) ==> 0 <= x < n
}

/// A list of `flim` sets of states.
pub open spec fn list2_ok(t: BitSet2D, n: usize, flim: usize) -> bool {
    &&& t.wf()
    &&& t.shape() == flim
    &&& t.row_len() == blocks_for(n as int)
}

/// Adds what the word with table `table` leads to from state `dst` at fuzz `f`.
fn step_from(n: usize, flim: usize, table: BitSetRef3D<'_>, f: usize, dst: usize, next: &mut BitSet2D)
    requires
        table3_ok(table, n, flim),
        list2_ok(*old(next), n, flim),
        f < flim,
        dst < n,
    ensures
        list2_ok(*final(next), n, flim),
        forall|g: usize| g < flim ==> #[trigger] final(next).row(g) == old(next).row(g).union(
            if f <= g {
                table.row((dst, (g - f) as usize))
            } else {
                Set::<int>::empty()
            },
        ),
{
    let ghost start = *next;
    let mut df: usize = 0;
    while f + df < flim
        invariant
            table3_ok(table, n, flim),
            list2_ok(*next, n, flim),
            f < flim,
            dst < n,
            f + df <= flim,
            forall|g: usize| g < flim ==> #[trigger] next.row(g) == start.row(g).union(
                if f <= g < f + df {
                    table.row((dst, (g - f) as usize))
                } else {
                    Set::<int>::empty()
                },
            ),
        decreases flim - f - df,
    {
        let ghost before = *next;
        let r = table.slice((dst, df));
        proof {
            r.lemma_single_row();
        }
        next.union_into_row(f + df, r);
        proof {
            assert forall|g: usize| g < flim implies #[trigger] next.row(g) == start.row(g).union(
                if f <= g < f + df + 1 {
                    table.row((dst, (g - f) as usize))
                } else {
                    Set::<int>::empty()
                },
            ) by {
                if g == f + df {
                    assert(next.row(g) == before.row(g).union(table.row((dst, df))));
                    assert(before.row(g) =~= start.row(g));
                    assert(next.row(g) =~= start.row(g).union(table.row((dst, (g - f) as usize))));
                } else {
                    assert(next.row(g) == before.row(g));
                    if f <= g < f + df {
                    } else {
                        assert(start.row(g).union(Set::<int>::empty()) =~= start.row(g));
                    }
                }
            }
        }
        df += 1;
    }
    proof {
        assert forall|g: usize| g < flim implies #[trigger] next.row(g) == start.row(g).union(
            if f <= g {
                table.row((dst, (g - f) as usize))
            } else {
                Set::<int>::empty()
            },
        ) by {
        }
    }
}


/// Steps the states `prev` (by fuzz) through a word with table `table`, adding the
/// states reached to `next` (see `step_upto`).
fn step_table(n: usize, flim: usize, table: BitSetRef3D<'_>, prev: BitSetRef2D<'_>, next: &mut BitSet2D)
    requires
        table3_ok(table, n, flim),
        list2_ok(*old(next), n, flim),
        prev.wf(),
        prev.shape() == flim,
        forall|f: usize, x: int| f < flim && #[trigger] prev.row(f).contains(x) ==> 0 <= x < n,
    ensures
        list2_ok(*final(next), n, flim),
        forall|g: usize| g < flim ==> #[trigger] final(next).row(g) == old(next).row(g).union(
            step_upto(n as int, ref3_rows(table), ref2_rows(prev), flim as int, g),
        ),
{
    let ghost start = *next;
    let ghost tr = ref3_rows(table);
    let ghost pr = ref2_rows(prev);
    let mut f: usize = 0;
    proof {
        assert forall|g: usize| g < flim implies #[trigger] next.row(g) == start.row(g).union(
            step_upto(n as int, tr, pr, 0, g),
        ) by {
            assert(step_upto(n as int, tr, pr, 0, g) =~= Set::<int>::empty());
            assert(start.row(g).union(Set::<int>::empty()) =~= start.row(g));
        }
    }
    while f < flim
        invariant
            table3_ok(table, n, flim),
            list2_ok(*next, n, flim),
            prev.wf(),
            prev.shape() == flim,
            forall|f: usize, x: int| f < flim && #[trigger] prev.row(f).contains(x) ==> 0 <= x < n,
            tr == ref3_rows(table),
            pr == ref2_rows(prev),
            f <= flim,
            forall|g: usize| g < flim ==> #[trigger] next.row(g) == start.row(g).union(
                step_upto(n as int, tr, pr, f as int, g),
            ),
        decreases flim - f,
    {
        let ghost mid = *next;
        let row = prev.slice(f);
        proof {
            row.lemma_bounded();
        }
        let mut ones = row.ones();
        let ghost all = row@;
        let ghost mut done: Set<int> = Set::empty();
        proof {
            assert forall|g: usize| g < flim implies #[trigger] next.row(g) == mid.row(g).union(
                step_one(n as int, tr, f, done, g),
            ) by {
                assert(step_one(n as int, tr, f, done, g) =~= Set::<int>::empty());
                assert(mid.row(g).union(Set::<int>::empty()) =~= mid.row(g));
            }
        }
        loop
            invariant
                table3_ok(table, n, flim),
                list2_ok(*next, n, flim),
                f < flim,
                tr == ref3_rows(table),
                all == prev.row(f),
                forall|x: int| #[trigger] all.contains(x) ==> 0 <= x < n,
                ones.wf(),
                done.union(ones@) == all,
                done.disjoint(ones@),
                forall|g: usize| g < flim ==> #[trigger] next.row(g) == mid.row(g).union(
                    step_one(n as int, tr, f, done, g),
                ),
            ensures
                list2_ok(*next, n, flim),
                forall|g: usize| g < flim ==> #[trigger] next.row(g) == mid.row(g).union(
                    step_one(n as int, tr, f, all, g),
                ),
            decreases ones@.len(),
        {
            proof {
                ones.lemma_finite();
            }
            let ghost before = *next;
            match ones.next() {
                Some(dst) => {
                    assert(all.contains(dst as int));
                    step_from(n, flim, table, f, dst, next);
                    proof {
                        let nd = done.insert(dst as int);
                        assert forall|g: usize| g < flim implies #[trigger] next.row(g) == mid.row(g).union(
                            step_one(n as int, tr, f, nd, g),
                        ) by {
                            assert forall|t: int| #[trigger] next.row(g).contains(t) == mid.row(g).union(
                                step_one(n as int, tr, f, nd, g),
                            ).contains(t) by {
                                if next.row(g).contains(t) && !mid.row(g).contains(t) {
                                    if before.row(g).contains(t) {
                                        let d = choose|d: int| f <= g && #[trigger] done.contains(d) && 0 <= d < n && tr(d as usize, (g - f) as usize).contains(t);
                                        assert(nd.contains(d));
                                    } else {
                                        assert(f <= g && tr(dst, (g - f) as usize).contains(t));
                                        assert(nd.contains(dst as int));
                                    }
                                }
                                if step_one(n as int, tr, f, nd, g).contains(t) {
                                    let d = choose|d: int| f <= g && #[trigger] nd.contains(d) && 0 <= d < n && tr(d as usize, (g - f) as usize).contains(t);
                                    if d != dst {
                                        assert(step_one(n as int, tr, f, done, g).contains(t));
                                    }
                                }
                            }
                            assert(next.row(g) =~= mid.row(g).union(step_one(n as int, tr, f, nd, g)));
                        }
                        done = nd;
                        assert(done.union(ones@) =~= all);
                    }
                },
                None => {
                    proof {
                        assert(done =~= all);
                    }
                    break;
                },
            }
        }
        proof {
            assert forall|g: usize| g < flim implies #[trigger] next.row(g) == start.row(g).union(
                step_upto(n as int, tr, pr, f + 1, g),
            ) by {
                assert forall|t: int| #[trigger] step_upto(n as int, tr, pr, f + 1, g).contains(t)
                    == (step_upto(n as int, tr, pr, f as int, g).contains(t) || step_one(n as int, tr, f, all, g).contains(t)) by {
                    if step_upto(n as int, tr, pr, f + 1, g).contains(t) {
                        let (f2, d) = choose|f2: usize, d: int| f2 < f + 1 && f2 <= g && #[trigger] pr(f2).contains(d) && 0 <= d < n && tr(d as usize, (g - f2) as usize).contains(t);
                        if f2 == f {
                            assert(all.contains(d));
                        } else {
                            assert(step_upto(n as int, tr, pr, f as int, g).contains(t));
                        }
                    }
                    if step_one(n as int, tr, f, all, g).contains(t) {
                        let d = choose|d: int| f <= g && #[trigger] all.contains(d) && 0 <= d < n && tr(d as usize, (g - f) as usize).contains(t);
                        assert(pr(f).contains(d));
                    }
                }
                assert(next.row(g) =~= start.row(g).union(step_upto(n as int, tr, pr, f + 1, g)));
            }
        }
        f += 1;
    }
}


// ---------------------------------------------------------------------------
// Phrases.

/// The rows of a table given by its blocks, `flim` fuzz values per state and
/// `rb` blocks per row.
pub open spec fn key_rows(key: Seq<u64>, flim: int, rb: int) -> spec_fn(usize, usize) -> Set<int> {
    |s: usize, f: usize| row_set(key, rb, s * flim + f)
}

/// The tables of a matcher's states, `n` states and `flim` fuzz values.
pub open spec fn table_shape_ok(n: int, flim: int) -> bool {
    &&& 1 <= n
    &&& 1 <= flim
    &&& shape_wf(n * flim * blocks_for(n), (n as usize, flim as usize), blocks_for(n))
    &&& shape_wf(flim * blocks_for(n), flim as usize, blocks_for(n))
}

/// Tables of fewer states fit where those of more states fit.
pub proof fn lemma_shape_fewer_states(n1: int, n2: int, flim: int)
    requires
        1 <= n1 <= n2,
        table_shape_ok(n2, flim),
    ensures
        table_shape_ok(n1, flim),
{
    let b1 = blocks_for(n1);
    let b2 = blocks_for(n2);
    assert(0 <= b1 <= b2);
    assert(0 <= flim * b1 <= flim * b2) by (nonlinear_arith)
        requires
            0 <= b1 <= b2,
            1 <= flim,
    ;
    assert(0 <= n1 * flim <= n2 * flim) by (nonlinear_arith)
        requires
            1 <= n1 <= n2,
            1 <= flim,
    ;
    assert(0 <= n1 * flim * b1 <= n2 * flim * b2) by (nonlinear_arith)
        requires
            0 <= n1 * flim <= n2 * flim,
            0 <= b1 <= b2,
    ;
    assert(b2 >= 1);
    assert(n2 * flim * b2 >= n2 && n2 * flim * b2 >= flim) by (nonlinear_arith)
        requires
            1 <= n2,
            1 <= flim,
            1 <= b2,
    ;
    assert(n2 * flim * b2 * 64 <= usize::MAX);
    assert(n1 <= usize::MAX && flim <= usize::MAX);
    assert((n1 as usize) as int == n1);
    assert((flim as usize) as int == flim);
}

/// Steps sets of states through whole words, by their class.
pub struct PhraseMatcher {
    pub expression: Expression,
    pub states_len: usize,
    pub fuzz_limit: usize,
    pub start_states: BitSet1D,
    /// The classes of words by their transition tables, `[from_state][fuzz][to_state]`;
    /// class 0 is the empty table.
    classes: IndexMap<Vec<u64>, WordClass>,
    /// The class of each alive word.
    word_classes: Vec<usize>,
}

impl PhraseMatcher {
    /// The compiled expression.
    pub closed spec fn expr(&self) -> Expression {
        self.expression
    }

    /// The number of states.
    pub closed spec fn n(&self) -> usize {
        self.states_len
    }

    /// One more than the most fuzz.
    pub closed spec fn flim(&self) -> usize {
        self.fuzz_limit
    }

    /// The states at the start of a phrase.
    pub closed spec fn start(&self) -> Set<int> {
        self.start_states@
    }

    /// The classes: each table's blocks with its class.
    pub closed spec fn entries(&self) -> Seq<(Seq<u64>, WordClass)> {
        class_entries(self.classes)
    }

    /// The class of each alive word.
    pub closed spec fn word_class_list(&self) -> Seq<usize> {
        self.word_classes@
    }

    /// The rows of the table of class `i`.
    pub open spec fn class_rows(&self, i: int) -> spec_fn(usize, usize) -> Set<int> {
        key_rows(self.entries()[i].0, self.flim() as int, blocks_for(self.n() as int))
    }

    /// The matcher is consistent: tables of its shape whose rows hold states, distinct
    /// tables, and each class counting the alive words of it.
    pub closed spec fn wf(&self) -> bool {
        let n = self.states_len as int;
        let flim = self.fuzz_limit as int;
        let rb = blocks_for(n);
        let e = class_entries(self.classes);
        &&& table_shape_ok(n, flim)
        &&& self.start_states.wf()
        &&& self.start_states.row_len() == rb
        &&& forall|x: int| #[trigger] self.start_states@.contains(x) ==> 0 <= x < n
        &&& e.len() >= 1
        &&& distinct_keys(e)
        &&& forall|i: int| 0 <= i < e.len() ==> (#[trigger] e[i]).0.len() == n * flim * rb
        &&& forall|i: int, s: usize, f: usize, x: int|
            0 <= i < e.len() && s < n && f < flim && #[trigger] row_set(e[i].0, rb, s * flim + f).contains(x)
                ==> 0 <= x < n
        &&& forall|w: int| 0 <= w < self.word_classes@.len() ==> #[trigger] self.word_classes@[w] < e.len()
        &&& forall|i: int| 0 <= i < e.len() ==> (#[trigger] e[i]).1.words_count == count_of(self.word_classes@, i)
    }

    /// The table of class `i`, read-only.
    fn class_table(&self, i: usize) -> (r: BitSetRef3D<'_>)
        requires
            self.wf(),
            i < self.entries().len(),
        ensures
            table3_ok(r, self.n(), self.flim()),
            forall|s: usize, f: usize| #[trigger] r.row((s, f)) == self.class_rows(i as int)(s, f),
    {
        let n = self.states_len;
        let flim = self.fuzz_limit;
        let rb = blocks_for_exec(n);
        match classes_get_index(&self.classes, i) {
            Some((key, _)) => {
                let r = BitSetRef3D::from_blocks(key.as_slice(), (n, flim), rb);
                proof {
                    assert forall|s: usize, f: usize| #[trigger] r.row((s, f)) == self.class_rows(i as int)(s, f) by {
                        r.lemma_row_def((s, f));
                    }
                    assert forall|s: usize, f: usize, x: int| s < n && f < flim && #[trigger] r.row((s, f)).contains(x) implies 0 <= x < n by {
                        r.lemma_row_def((s, f));
                        assert(row_set(class_entries(self.classes)[i as int].0, rb as int, s * flim + f).contains(x));
                    }
                }
                r
            },
            None => {
                proof {
                    assert(false);
                }
                BitSetRef3D::from_blocks(&[], (0, 0), 0)
            },
        }
    }
}

/// The block length of a set of `n` positions.
fn blocks_for_exec(n: usize) -> (r: usize)
    ensures
        r == blocks_for(n as int),
{
    n / 64 + if n % 64 > 0 {
        1
    } else {
        0
    }
}


/// A copy of a class.
fn copy_class(c: &WordClass) -> (r: WordClass)
    ensures
        r.words_count == c.words_count,
        r.min_tranche == c.min_tranche,
{
    WordClass { words_per_tranche: c.words_per_tranche.clone(), words_count: c.words_count, min_tranche: c.min_tranche }
}

impl PhraseMatcher {
    /// A matcher for the expression, with no words yet: its start states are the
    /// epsilon set of the start state, and its only class is that of the empty table.
    pub fn new(expression: Expression) -> (r: PhraseMatcher)
        requires
            expression.wf(),
            expression.max_fuzz() < usize::MAX,
            table_shape_ok(expression@.len() as int, expression.max_fuzz() + 1),
        ensures
            r.wf(),
            r.n() == expression@.len(),
            r.flim() == expression.max_fuzz() + 1,
            r.start() == expression@[0].eps,
            r.entries().len() == 1,
            r.word_class_list().len() == 0,
            r.expr() == expression,
    {
        let states_len = expression.states_len();
        proof {
            expression.lemma_wf();
        }
        let fuzz_limit = expression.fuzz_value() + 1;
        let empty_table_src_fuzz_dst = BitSet3D::new((states_len, fuzz_limit), states_len);
        let mut classes = classes_new();
        let key = empty_table_src_fuzz_dst.blocks_vec();
        proof {
            empty_table_src_fuzz_dst.lemma_wf_sizes();
        }
        classes_insert_full(&mut classes, key, WordClass::default());
        let eps0 = expression.epsilon_states(0);
        let start_states = eps0.to_bitset();
        let r = PhraseMatcher {
            expression,
            states_len,
            fuzz_limit,
            start_states,
            classes,
            word_classes: Vec::new(),
        };
        proof {
            let rb = blocks_for(states_len as int);
            let e = class_entries(r.classes);
            assert forall|i: int, s: usize, f: usize, x: int|
                0 <= i < e.len() && s < states_len && f < fuzz_limit && #[trigger] row_set(e[i].0, rb, s * fuzz_limit + f).contains(x)
                implies 0 <= x < states_len by {
                empty_table_src_fuzz_dst.lemma_row_def((s, f));
                assert(empty_table_src_fuzz_dst.row((s, f)) == Set::<int>::empty());
            }
            assert forall|i: int| 0 <= i < e.len() implies (#[trigger] e[i]).1.words_count == count_of(r.word_classes@, i) by {
            }
            r.start_states.lemma_one_row();
            assert(r.start_states@ == expression@[0].eps);
            assert(table_shape_ok(states_len as int, fuzz_limit as int));
            assert(r.start_states.wf());
            assert(forall|x: int| #[trigger] r.start_states@.contains(x) ==> 0 <= x < states_len);
            assert(e.len() >= 1);
            assert(distinct_keys(e));
            assert(forall|i: int| 0 <= i < e.len() ==> (#[trigger] e[i]).0.len() == states_len * fuzz_limit * rb);
        }
        r
    }

    /// What a consistent matcher keeps: its fields are what the specs name, its
    /// tables have a shape that fits in memory, its start states and the rows of its
    /// classes hold states, and each alive word is of one of its classes.
    pub proof fn lemma_consistent(&self)
        requires
            self.wf(),
        ensures
            table_shape_ok(self.n() as int, self.flim() as int),
            forall|x: int| #[trigger] self.start().contains(x) ==> 0 <= x < self.n(),
            forall|w: int| 0 <= w < self.word_class_list().len() ==> #[trigger] self.word_class_list()[w] < self.entries().len(),
            forall|i: int, s: usize, f: usize, x: int|
                0 <= i < self.entries().len() && s < self.n() && f < self.flim() && #[trigger] self.class_rows(i)(s, f).contains(x)
                    ==> 0 <= x < self.n(),
    {
        self.start_states.lemma_one_row();
        assert forall|i: int, s: usize, f: usize, x: int|
            0 <= i < self.entries().len() && s < self.n() && f < self.flim() && #[trigger] self.class_rows(i)(s, f).contains(x)
                implies 0 <= x < self.n() by {
            assert(row_set(class_entries(self.classes)[i].0, blocks_for(self.n() as int), s * self.flim() + f).contains(x));
        }
    }

    /// The number of states.
    pub fn n_states(&self) -> (r: usize)
        ensures
            r == self.n(),
    {
        self.states_len
    }

    /// One more than the most fuzz.
    pub fn fuzz_count(&self) -> (r: usize)
        ensures
            r == self.flim(),
    {
        self.fuzz_limit
    }

    /// The compiled expression.
    pub fn expression_ref(&self) -> (r: &Expression)
        ensures
            *r == self.expr(),
    {
        &self.expression
    }

    /// The number of alive words filed.
    pub fn word_count(&self) -> (r: usize)
        ensures
            r == self.word_class_list().len(),
    {
        self.word_classes.len()
    }

    /// Whether no alive word is of the class of the empty table.
    pub fn words_classed(&self) -> (r: bool)
        ensures
            r == forall|w: int| 0 <= w < self.word_class_list().len() ==> #[trigger] self.word_class_list()[w] != 0,
    {
        let mut w: usize = 0;
        while w < self.word_classes.len()
            invariant
                w <= self.word_classes@.len(),
                forall|k: int| 0 <= k < w ==> #[trigger] self.word_classes@[k] != 0,
            decreases self.word_classes@.len() - w,
        {
            if self.word_classes[w] == 0 {
                assert(self.word_class_list()[w as int] == 0);
                return false;
            }
            w += 1;
        }
        true
    }

    /// No state, at any fuzz.
    pub fn empty_table(&self) -> (r: BitSet2D)
        requires
            self.wf(),
        ensures
            list2_ok(r, self.n(), self.flim()),
            forall|g: usize| g < self.flim() ==> #[trigger] r.row(g) == Set::<int>::empty(),
    {
        BitSet2D::new(self.fuzz_limit, self.states_len)
    }

    /// The states at the start of a phrase, at fuzz 0.
    pub fn start_table(&self) -> (r: BitSet2D)
        requires
            self.wf(),
        ensures
            list2_ok(r, self.n(), self.flim()),
            forall|g: usize| g < self.flim() ==> #[trigger] r.row(g) == self.start_rows()(g),
    {
        proof {
            self.start_states.lemma_one_row();
        }
        self.rows_at_zero(self.start_states.borrow())
    }

    /// Whether some fuzz reaches the success state (the last one).
    pub fn has_success_state(&self, table_fuzz_dst: BitSetRef2D<'_>) -> (r: bool)
        requires
            self.wf(),
            table_fuzz_dst.wf(),
            table_fuzz_dst.shape() == self.flim(),
        ensures
            r == exists|f: usize| f < self.flim() && #[trigger] table_fuzz_dst.row(f).contains(self.n() - 1),
    {
        let mut f: usize = 0;
        while f < self.fuzz_limit
            invariant
                self.wf(),
                table_fuzz_dst.wf(),
                table_fuzz_dst.shape() == self.flim(),
                f <= self.flim(),
                forall|g: usize| g < f ==> !#[trigger] table_fuzz_dst.row(g).contains(self.n() - 1),
            decreases self.flim() - f,
        {
            if table_fuzz_dst.slice(f).contains(self.states_len - 1) {
                assert(table_fuzz_dst.row(f).contains(self.n() - 1));
                return true;
            }
            f += 1;
        }
        false
    }

    /// Steps the states `prev_fuzz_dst` through a word with table `table`, adding the
    /// states reached to `next_fuzz_dst` (see `step_upto`).
    fn step(&self, table: BitSetRef3D<'_>, prev_fuzz_dst: BitSetRef2D<'_>, next_fuzz_dst: &mut BitSet2D)
        requires
            self.wf(),
            table3_ok(table, self.n(), self.flim()),
            list2_ok(*old(next_fuzz_dst), self.n(), self.flim()),
            prev_fuzz_dst.wf(),
            prev_fuzz_dst.shape() == self.flim(),
            forall|f: usize, x: int| f < self.flim() && #[trigger] prev_fuzz_dst.row(f).contains(x) ==> 0 <= x < self.n(),
        ensures
            list2_ok(*final(next_fuzz_dst), self.n(), self.flim()),
            forall|g: usize| g < self.flim() ==> #[trigger] final(next_fuzz_dst).row(g) == old(next_fuzz_dst).row(g).union(
                step_upto(self.n() as int, ref3_rows(table), ref2_rows(prev_fuzz_dst), self.flim() as int, g),
            ),
    {
        step_table(self.states_len, self.fuzz_limit, table, prev_fuzz_dst, next_fuzz_dst);
    }

    /// Steps the states `prev_fuzz_dst` through the alive word at `word_index`, by its
    /// class's table. The word must not be of the empty class.
    ///
    /// The states reached are added to `next_fuzz_dst`.
    pub fn step_by_word_index(&self, word_index: usize, prev_fuzz_dst: BitSetRef2D<'_>, next_fuzz_dst: &mut BitSet2D)
        requires
            self.wf(),
            word_index < self.word_class_list().len(),
            self.word_class_list()[word_index as int] != 0,
            list2_ok(*old(next_fuzz_dst), self.n(), self.flim()),
            prev_fuzz_dst.wf(),
            prev_fuzz_dst.shape() == self.flim(),
            forall|f: usize, x: int| f < self.flim() && #[trigger] prev_fuzz_dst.row(f).contains(x) ==> 0 <= x < self.n(),
        ensures
            list2_ok(*final(next_fuzz_dst), self.n(), self.flim()),
            forall|g: usize| g < self.flim() ==> #[trigger] final(next_fuzz_dst).row(g) == old(next_fuzz_dst).row(g).union(
                step_upto(
                    self.n() as int,
                    self.class_rows(self.word_class_list()[word_index as int] as int),
                    ref2_rows(prev_fuzz_dst),
                    self.flim() as int,
                    g,
                ),
            ),
    {
        let class_index = self.word_classes[word_index];
        let table = self.class_table(class_index);
        self.step(table, prev_fuzz_dst, next_fuzz_dst);
        proof {
            assert(ref3_rows(table) =~= self.class_rows(class_index as int));
        }
    }

    /// Files the table of a newly alive word: the word joins the class of that table,
    /// which is made if there is none.
    fn insert_word_table(&mut self, word: &Word, table_src_fuzz_dst: &BitSet3D)
        requires
            old(self).wf(),
            table_src_fuzz_dst.wf(),
            table_src_fuzz_dst.shape() == (old(self).n(), old(self).flim()),
            table_src_fuzz_dst.row_len() == blocks_for(old(self).n() as int),
            forall|s: usize, f: usize, x: int|
                s < old(self).n() && f < old(self).flim() && #[trigger] table_src_fuzz_dst.row((s, f)).contains(x) ==> 0 <= x < old(self).n(),
            old(self).word_class_list().len() < usize::MAX,
        ensures
            final(self).wf(),
            final(self).n() == old(self).n(),
            final(self).flim() == old(self).flim(),
            final(self).start() == old(self).start(),
            final(self).expr() == old(self).expr(),
            final(self).word_class_list().len() == old(self).word_class_list().len() + 1,
            final(self).word_class_list().drop_last() == old(self).word_class_list(),
            ({
                let i = final(self).word_class_list().last();
                &&& final(self).entries()[i as int].0 == table_src_fuzz_dst.blocks_view()
                &&& forall|j: int| 0 <= j < old(self).entries().len() ==> #[trigger] final(self).entries()[j].0 == old(self).entries()[j].0
                &&& final(self).entries().len() == old(self).entries().len() + if i == old(self).entries().len() { 1int } else { 0int }
            }),
    {
        let ghost n = self.states_len as int;
        let ghost flim = self.fuzz_limit as int;
        let ghost rb = blocks_for(n);
        let ghost e = class_entries(self.classes);
        let ghost old_ws = self.word_classes@;
        let key = table_src_fuzz_dst.blocks_vec();
        proof {
            table_src_fuzz_dst.lemma_wf_sizes();
            assert forall|s: usize, f: usize| #[trigger] row_set(key@, rb, s * flim + f) == table_src_fuzz_dst.row((s, f)) by {
                table_src_fuzz_dst.lemma_row_def((s, f));
            }
        }
        let index = match classes_get_index_of(&self.classes, &key) {
            Some(i) => {
                let class = match classes_get_index(&self.classes, i) {
                    Some((_, c)) => copy_class(c),
                    None => WordClass::default(),
                };
                self.word_classes.push(i);
                proof {
                    lemma_count_of_bound(old_ws, i as int);
                }
                let mut class = class;
                class.add_word(word);
                classes_insert_full(&mut self.classes, key, class);
                i
            },
            None => {
                let i = classes_len(&self.classes);
                self.word_classes.push(i);
                let mut class = WordClass::default();
                class.add_word(word);
                classes_insert_full(&mut self.classes, key, class);
                proof {
                    assert(count_of(old_ws, i as int) == 0) by {
                        lemma_count_of_absent(old_ws, i as int);
                    }
                }
                i
            },
        };
        proof {
            let e2 = class_entries(self.classes);
            assert(self.word_classes@ == old_ws.push(index));
            assert(self.word_classes@.drop_last() =~= old_ws);
            assert forall|j: int| 0 <= j < e2.len() implies (#[trigger] e2[j]).1.words_count == count_of(self.word_classes@, j) by {
                lemma_count_of_push(old_ws, index, j);
            }
            assert forall|i: int, j: int| 0 <= i < j < e2.len() implies #[trigger] e2[i].0 != #[trigger] e2[j].0 by {
                if j == index as int {
                    if i < e.len() {
                        assert(e[i].0 != key@);
                    }
                } else if i == index as int {
                    assert(e[j].0 != key@);
                } else {
                    assert(e[i].0 != e[j].0);
                }
            }
            assert forall|w: int| 0 <= w < self.word_classes@.len() implies #[trigger] self.word_classes@[w] < e2.len() by {
                if w < old_ws.len() {
                    assert(self.word_classes@[w] == old_ws[w]);
                }
            }
            assert forall|i: int, s: usize, f: usize, x: int|
                0 <= i < e2.len() && s < n && f < flim && #[trigger] row_set(e2[i].0, rb, s * flim + f).contains(x)
                implies 0 <= x < n by {
                if i == index as int {
                    assert(row_set(key@, rb, s * flim + f) == table_src_fuzz_dst.row((s, f)));
                } else {
                    assert(e2[i] == e[i]);
                }
            }
        }
    }
}

proof fn lemma_count_of_absent(ws: Seq<usize>, i: int)
    requires
        forall|w: int| 0 <= w < ws.len() ==> #[trigger] ws[w] < i,
    ensures
        count_of(ws, i) == 0,
    decreases ws.len(),
{
    if ws.len() > 0 {
        lemma_count_of_absent(ws.drop_last(), i);
    }
}


/// The rows are equal below `flim`.
pub open spec fn rows_same(a: spec_fn(usize) -> Set<int>, b: spec_fn(usize) -> Set<int>, flim: int) -> bool {
    forall|g: usize| g < flim ==> #[trigger] a(g) == b(g)
}

/// The rows are empty below `flim`.
pub open spec fn rows_empty(a: spec_fn(usize) -> Set<int>, flim: int) -> bool {
    forall|g: usize| g < flim ==> #[trigger] a(g) == Set::<int>::empty()
}

impl PhraseMatcher {
    /// What the classes below `m` lead to from `prev`, at fuzz `g`.
    pub open spec fn classes_step(&self, prev: spec_fn(usize) -> Set<int>, m: int, g: usize) -> Set<int> {
        Set::new(
            |t: int|
                exists|i: int|
                    0 <= i < m && #[trigger] step_upto(self.n() as int, self.class_rows(i), prev, self.flim() as int, g).contains(t),
        )
    }

    /// The states, by fuzz, after `k` words of any class.
    pub open spec fn phrase_rows(&self, k: nat) -> spec_fn(usize) -> Set<int>
        decreases k,
    {
        if k == 0 {
            |f: usize|
                if f == 0 {
                    self.start()
                } else {
                    Set::<int>::empty()
                }
        } else {
            |g: usize| self.classes_step(self.phrase_rows((k - 1) as nat), self.entries().len() as int, g)
        }
    }

    /// The phrase length bound from `w` words on: `max` if the states stop changing,
    /// one less than the first count of words after which no state is left.
    pub open spec fn phrase_bound_from(&self, max: usize, w: int) -> int
        decreases max + 1 - w,
    {
        if w > max || w < 1 {
            max as int
        } else if rows_same(self.phrase_rows(w as nat), self.phrase_rows((w - 1) as nat), self.flim() as int) {
            max as int
        } else if rows_empty(self.phrase_rows(w as nat), self.flim() as int) {
            w - 1
        } else {
            self.phrase_bound_from(max, w + 1)
        }
    }

    /// The most words that a phrase can have: the number of words, up to
    /// `max_length`, after which some state is still reachable (see
    /// `phrase_bound_from`).
    pub fn phrase_length_bounds(&self, max_length: usize) -> (r: usize)
        requires
            self.wf(),
        ensures
            r == self.phrase_bound_from(max_length, 1),
    {
        let n = self.states_len;
        let flim = self.fuzz_limit;
        let mut states_fuzz_dst = BitSet2D::new(flim, n);
        proof {
            self.start_states.lemma_one_row();
            states_fuzz_dst.lemma_wf_sizes();
        }
        states_fuzz_dst.union_into_row(0, self.start_states.borrow());
        proof {
            assert forall|g: usize| g < flim implies #[trigger] states_fuzz_dst.row(g) == self.phrase_rows(0)(g) by {
                if g == 0 {
                    assert(states_fuzz_dst.row(g) =~= self.start());
                }
            }
        }
        let mut w: usize = 1;
        while w <= max_length
            invariant_except_break
                forall|g: usize| g < flim ==> #[trigger] states_fuzz_dst.row(g) == self.phrase_rows((w - 1) as nat)(g),
                forall|g: usize, x: int| g < flim && #[trigger] states_fuzz_dst.row(g).contains(x) ==> 0 <= x < n,
                self.phrase_bound_from(max_length, 1) == self.phrase_bound_from(max_length, w as int),
            invariant
                self.wf(),
                n == self.n(),
                flim == self.flim(),
                1 <= w,
                w <= max_length + 1,
                list2_ok(states_fuzz_dst, n, flim),
            ensures
                self.phrase_bound_from(max_length, 1) == max_length,
            decreases max_length + 1 - w,
        {
            let ghost prev = self.phrase_rows((w - 1) as nat);
            let mut next_states_fuzz_dst = BitSet2D::new(flim, n);
            let classes_count = classes_len(&self.classes);
            let mut i: usize = 0;
            let states_ref = states_fuzz_dst.borrow();
            proof {
                assert forall|g: usize| g < flim implies #[trigger] next_states_fuzz_dst.row(g) == self.classes_step(prev, 0, g) by {
                    assert(self.classes_step(prev, 0, g) =~= Set::<int>::empty());
                }
            }
            while i < classes_count
                invariant
                    self.wf(),
                    n == self.n(),
                    flim == self.flim(),
                    classes_count == self.entries().len(),
                    i <= classes_count,
                    list2_ok(next_states_fuzz_dst, n, flim),
                    states_ref.wf(),
                    states_ref.shape() == flim,
                    forall|g: usize| g < flim ==> #[trigger] states_ref.row(g) == prev(g),
                    forall|g: usize, x: int| g < flim && #[trigger] states_ref.row(g).contains(x) ==> 0 <= x < n,
                    forall|g: usize| g < flim ==> #[trigger] next_states_fuzz_dst.row(g) == self.classes_step(prev, i as int, g),
                decreases classes_count - i,
            {
                let table = self.class_table(i);
                let ghost before = next_states_fuzz_dst;
                self.step(table, states_ref, &mut next_states_fuzz_dst);
                proof {
                    assert forall|g: usize| g < flim implies #[trigger] next_states_fuzz_dst.row(g) == self.classes_step(prev, i + 1, g) by {
                        assert(ref3_rows(table) =~= self.class_rows(i as int));
                        assert forall|t: int| #[trigger] next_states_fuzz_dst.row(g).contains(t) == self.classes_step(prev, i + 1, g).contains(t) by {
                            let su = step_upto(n as int, self.class_rows(i as int), ref2_rows(states_ref), flim as int, g);
                            let sp = step_upto(n as int, self.class_rows(i as int), prev, flim as int, g);
                            assert(su =~= sp) by {
                                assert forall|t2: int| #[trigger] su.contains(t2) == sp.contains(t2) by {
                                    if su.contains(t2) {
                                        let (f, d) = choose|f: usize, d: int| f < flim && f <= g && #[trigger] ref2_rows(states_ref)(f).contains(d) && 0 <= d < n && self.class_rows(i as int)(d as usize, (g - f) as usize).contains(t2);
                                        assert(prev(f).contains(d));
                                    }
                                    if sp.contains(t2) {
                                        let (f, d) = choose|f: usize, d: int| f < flim && f <= g && #[trigger] prev(f).contains(d) && 0 <= d < n && self.class_rows(i as int)(d as usize, (g - f) as usize).contains(t2);
                                        assert(ref2_rows(states_ref)(f).contains(d));
                                    }
                                }
                            }
                            if self.classes_step(prev, i + 1, g).contains(t) {
                                let k = choose|k: int| 0 <= k < i + 1 && #[trigger] step_upto(n as int, self.class_rows(k), prev, flim as int, g).contains(t);
                                if k < i {
                                    assert(self.classes_step(prev, i as int, g).contains(t));
                                }
                            }
                            if before.row(g).contains(t) {
                                let k = choose|k: int| 0 <= k < i && #[trigger] step_upto(n as int, self.class_rows(k), prev, flim as int, g).contains(t);
                            }
                        }
                        assert(next_states_fuzz_dst.row(g) =~= self.classes_step(prev, i + 1, g));
                    }
                }
                i += 1;
            }
            proof {
                next_states_fuzz_dst.lemma_wf_sizes();
                states_fuzz_dst.lemma_wf_sizes();
                next_states_fuzz_dst.lemma_equal_rows(&states_fuzz_dst);
                next_states_fuzz_dst.lemma_empty_rows();
                assert forall|g: usize| g < flim implies #[trigger] next_states_fuzz_dst.row(g) == self.phrase_rows(w as nat)(g) by {
                }
            }
            if next_states_fuzz_dst.equals(&states_fuzz_dst) {
                proof {
                    assert forall|g: usize| g < flim implies #[trigger] self.phrase_rows(w as nat)(g) == self.phrase_rows((w - 1) as nat)(g) by {
                        assert(next_states_fuzz_dst.row(g) == states_fuzz_dst.row(g));
                    }
                    assert(rows_same(self.phrase_rows(w as nat), self.phrase_rows((w - 1) as nat), flim as int));
                }
                break;
            } else if next_states_fuzz_dst.borrow().is_empty() {
                proof {
                    if rows_same(self.phrase_rows(w as nat), self.phrase_rows((w - 1) as nat), flim as int) {
                        assert forall|g: usize| g < flim implies #[trigger] next_states_fuzz_dst.row(g) == states_fuzz_dst.row(g) by {
                        }
                    }
                    assert forall|g: usize| g < flim implies #[trigger] self.phrase_rows(w as nat)(g) == Set::<int>::empty() by {
                        assert(next_states_fuzz_dst.row(g) == Set::<int>::empty());
                    }
                    assert(rows_empty(self.phrase_rows(w as nat), flim as int));
                }
                return w - 1;
            }
            proof {
                if rows_same(self.phrase_rows(w as nat), self.phrase_rows((w - 1) as nat), flim as int) {
                    assert forall|g: usize| g < flim implies #[trigger] next_states_fuzz_dst.row(g) == states_fuzz_dst.row(g) by {
                    }
                }
                if rows_empty(self.phrase_rows(w as nat), flim as int) {
                    assert forall|g: usize| g < flim implies #[trigger] next_states_fuzz_dst.row(g) == Set::<int>::empty() by {
                    }
                }
                assert forall|g: usize, x: int| g < flim && #[trigger] next_states_fuzz_dst.row(g).contains(x) implies 0 <= x < n by {
                    let k = choose|k: int| 0 <= k < self.entries().len() && #[trigger] step_upto(n as int, self.class_rows(k), prev, flim as int, g).contains(x);
                    let (f, d) = choose|f: usize, d: int| f < flim && f <= g && #[trigger] prev(f).contains(d) && 0 <= d < n && self.class_rows(k)(d as usize, (g - f) as usize).contains(x);
                    assert(row_set(self.entries()[k].0, blocks_for(n as int), d * flim + (g - f)).contains(x));
                }
                assert(self.phrase_bound_from(max_length, w as int) == self.phrase_bound_from(max_length, w + 1));
            }
            states_fuzz_dst = next_states_fuzz_dst;
            if w == max_length {
                break;
            }
            w += 1;
        }
        max_length
    }
}


// ---------------------------------------------------------------------------
// The clock.

#[verifier::external_type_specification]
#[verifier::external_body]
pub struct ExInstant(Instant);

/// `Instant::now`: the current time. Nothing is stated of what the clock reads.
#[verifier::external_body]
pub(crate) fn instant_now() -> (r: Instant) {
    Instant::now()
}

/// `Instant`'s `>`: whether `a` is later than `b`. Nothing is stated of the result,
/// which rests on what the clock read.
#[verifier::external_body]
pub(crate) fn instant_later(a: &Instant, b: &Instant) -> (r: bool) {
    *a > *b
}

// ---------------------------------------------------------------------------
// Words.

/// The words of `a` match the first words of `b`, all of them.
proof fn lemma_matched_prefix(a: Seq<Word>, b: Seq<Word>)
    requires
        a.len() <= b.len(),
        forall|k: int| 0 <= k < a.len() ==> a[k] == b[k],
    ensures
        matched_count(a, b) == a.len(),
    decreases a.len(),
{
    if a.len() > 0 {
        lemma_matched_prefix(a.drop_last(), b);
        assert(a.last() == b[a.len() - 1]);
    }
}

/// Where the alive words are the first input words and none is of the empty
/// class, every alive word stays.
proof fn lemma_positions_all(a: Seq<Word>, c: Seq<usize>, b: Seq<Word>)
    requires
        a.len() <= b.len(),
        forall|k: int| 0 <= k < a.len() ==> a[k] == b[k],
        a.len() <= c.len(),
        forall|j: int| 0 <= j < a.len() ==> #[trigger] c[j] != 0,
    ensures
        input_positions(a, c, b) == Seq::new(a.len(), |j: int| j),
    decreases a.len(),
{
    if a.len() > 0 {
        lemma_positions_all(a.drop_last(), c, b);
        lemma_matched_prefix(a.drop_last(), b);
        assert(a.last() == b[a.len() - 1]);
        assert(input_positions(a, c, b) =~= Seq::new(a.len(), |j: int| j));
    }
}

/// The positions of the words that stay are positions of alive words of a class
/// other than the empty one.
proof fn lemma_positions_classed(a: Seq<Word>, c: Seq<usize>, b: Seq<Word>)
    ensures
        forall|k: int|
            0 <= k < input_positions(a, c, b).len() ==> 0 <= #[trigger] input_positions(a, c, b)[k] < a.len() && c[input_positions(
                a,
                c,
                b,
            )[k]] != 0,
    decreases a.len(),
{
    if a.len() > 0 {
        lemma_positions_classed(a.drop_last(), c, b);
        let p = input_positions(a, c, b);
        let p0 = input_positions(a.drop_last(), c, b);
        assert forall|k: int| 0 <= k < p.len() implies 0 <= #[trigger] p[k] < a.len() && c[p[k]] != 0 by {
            if k < p0.len() {
                assert(p[k] == p0[k]);
            }
        }
    }
}

impl<'word> WordMatcher<'word> {
    /// Whether the alive words match all the words of `input` in turn (see
    /// `matched_count`).
    pub fn alive_covers(&self, input: &[&'word Word]) -> (r: bool)
        ensures
            r == (matched_count(self.alive(), words_of(input@)) == input@.len()),
    {
        let ghost alive = self.alive();
        let ghost inw = words_of(input@);
        let mut c: usize = 0;
        let mut i: usize = 0;
        while i < self.alive_wordlist.len()
            invariant
                alive == self.alive(),
                inw == words_of(input@),
                alive.len() == self.alive_wordlist@.len(),
                i <= alive.len(),
                c == matched_count(alive.take(i as int), inw),
                c <= input@.len(),
            decreases alive.len() - i,
        {
            proof {
                assert(alive.take(i + 1).drop_last() =~= alive.take(i as int));
                assert(alive[i as int] == *self.alive_wordlist@[i as int]);
            }
            if c < input.len() && same_word_exec(self.alive_wordlist[i], input[c]) {
                c += 1;
            }
            i += 1;
        }
        proof {
            assert(alive.take(i as int) =~= alive);
        }
        c == input.len()
    }

    /// Narrows the matcher to the words of `input` (see `filter_alive`); then, where
    /// phrases of the words left reach the success state within `search_depth_limit`
    /// words, optimizes it for them (see `optimize_for_wordlist`) and returns whether
    /// a state was removed; returns `None` where they do not.
    pub fn narrow_and_optimize(&mut self, input: &[&'word Word], search_depth_limit: usize) -> (r: Option<bool>)
        requires
            old(self).phrase_ok(),
            matched_count(old(self).alive(), words_of(input@)) == input@.len(),
        ensures
            final(self).phrase_ok(),
            final(self).phrase().expr() == old(self).phrase().expr(),
            final(self).phrase().flim() == old(self).phrase().flim(),
            r is None ==> {
                &&& narrowed_to(*old(self), *final(self), words_of(input@))
                &&& !final(self).phrase().reachable_set(final(self).phrase().word_class_list(), search_depth_limit as nat).contains(
                    final(self).phrase().n() - 1,
                )
            },
            r matches Some(changed) ==> exists|w: WordMatcher<'word>|
                {
                    &&& narrowed_to(*old(self), w, words_of(input@))
                    &&& w.phrase().reachable_set(w.phrase().word_class_list(), search_depth_limit as nat).contains(w.phrase().n() - 1)
                    &&& optimized_to(w, *final(self), w.alive(), search_depth_limit as nat, changed)
                },
    {
        let ghost p = input_positions(old(self).alive(), old(self).phrase().word_class_list(), words_of(input@));
        self.filter_alive(input);
        proof {
            lemma_positions_classed(old(self).alive(), old(self).phrase().word_class_list(), words_of(input@));
        }
        let ghost w = *self;
        proof {
            assert(same_tables(w.phrase(), old(self).phrase()));
            assert(narrowed_to(*old(self), w, words_of(input@)));
        }
        let reachable = self.phrase_matcher.reachable_srcs(search_depth_limit);
        if !reachable.has(self.phrase_matcher.states_len - 1) {
            return None;
        }
        let own: Vec<&'word Word> = self.alive_wordlist.clone();
        proof {
            let a = self.alive();
            let c = self.phrase().word_class_list();
            assert(words_of(own@) =~= a);
            lemma_matched_prefix(a, a);
            assert forall|j: int| 0 <= j < a.len() implies #[trigger] c[j] != 0 by {
                assert(c[j] == old(self).phrase().word_class_list()[p[j]]);
            }
            lemma_positions_all(a, c, a);
            assert(self.staying_classes(a) =~= c);
        }
        let changed = self.optimize_for_wordlist(&own, search_depth_limit);
        proof {
            assert(words_of(own@) == w.alive());
            assert(optimized_to(w, *self, w.alive(), search_depth_limit as nat, changed));
        }
        Some(changed)
    }
}


/// The words `ws[a..b]`.
pub open spec fn words_between(ws: Seq<&Word>, a: int, b: int) -> Seq<Word> {
    Seq::new((b - a) as nat, |i: int| *ws[a + i])
}

/// The words of `ws` whose symbols are viable for `e` (see `Expression::viable`), in
/// order.
pub open spec fn viable_words(e: Expression, ws: Seq<Word>) -> Seq<Word>
    decreases ws.len(),
{
    if ws.len() == 0 {
        Seq::empty()
    } else {
        let rest = viable_words(e, ws.drop_last());
        if e.viable(ws.last().chars@) {
            rest.push(ws.last())
        } else {
            rest
        }
    }
}

proof fn lemma_viable_words_len(e: Expression, ws: Seq<Word>)
    ensures
        viable_words(e, ws).len() <= ws.len(),
    decreases ws.len(),
{
    if ws.len() > 0 {
        lemma_viable_words_len(e, ws.drop_last());
    }
}

/// The length of the common prefix of `a` and `b.take(b_len)`.
fn common_prefix(a: &[Char], b: &[Char], b_len: usize) -> (r: usize)
    requires
        b_len <= b@.len(),
    ensures
        r <= a@.len(),
        r <= b_len,
        a@.take(r as int) == b@.take(r as int),
        r < a@.len() && r < b_len ==> a@[r as int] != b@[r as int],
{
    let mut i: usize = 0;
    while i < a.len() && i < b_len && a[i] == b[i]
        invariant
            b_len <= b@.len(),
            i <= a@.len(),
            i <= b_len,
            a@.take(i as int) == b@.take(i as int),
        decreases a@.len() - i,
    {
        proof {
            assert(a@.take(i + 1) =~= a@.take(i as int).push(a@[i as int]));
            assert(b@.take(i + 1) =~= b@.take(i as int).push(b@[i as int]));
        }
        i += 1;
    }
    i
}

/// Finds the words of a word list that match an expression, one at a time, and
/// gathers the words that may be part of a phrase match.
pub struct WordMatcher<'word> {
    phrase_matcher: PhraseMatcher,
    /// The words seen so far that may still be part of a phrase match, in order.
    pub alive_wordlist: Vec<&'word Word>,
    /// `[char_index][from_state][fuzz][to_state]`: the table after each prefix of
    /// `table_chars`.
    table_char_src_fuzz_dst: Vec<BitSet3D>,
    /// The symbols of the last word seen; the tables hold its first `table_len`.
    table_chars: &'word [Char],
    table_len: usize,
    /// How many words of the word list have been seen.
    word_index: usize,
    /// The words seen so far.
    seen: Ghost<Seq<Word>>,
}

impl<'word> WordMatcher<'word> {
    /// The compiled expression.
    pub closed spec fn expr(&self) -> Expression {
        self.phrase_matcher.expression
    }

    /// The phrase matcher that the alive words are filed in.
    pub closed spec fn phrase(&self) -> PhraseMatcher {
        self.phrase_matcher
    }

    /// How many words of the word list have been seen.
    pub closed spec fn index(&self) -> nat {
        self.word_index as nat
    }

    /// The words seen so far, in order.
    pub closed spec fn seen(&self) -> Seq<Word> {
        self.seen@
    }

    /// One more than the longest word (in symbols) that can be matched.
    pub closed spec fn max_len(&self) -> nat {
        self.table_char_src_fuzz_dst@.len()
    }

    /// The alive words.
    pub closed spec fn alive(&self) -> Seq<Word> {
        self.alive_wordlist@.map_values(|w: &'word Word| *w)
    }

    /// The matcher is consistent: its tables have the automaton's shape and hold the
    /// rows after each prefix of the last word's symbols; the alive words are the
    /// viable words seen, and each is filed under a class whose table holds the rows
    /// after its symbols.
    pub closed spec fn wf(&self) -> bool {
        &&& self.tables_wf()
        &&& self.words_wf()
    }

    /// The tables have the automaton's shape and hold the rows after each prefix of
    /// the last word's symbols, which are viable.
    closed spec fn tables_wf(&self) -> bool {
        let e = self.phrase_matcher.expression;
        let t = self.table_char_src_fuzz_dst@;
        let tc = self.table_chars@;
        &&& e.wf()
        &&& e.max_fuzz() < usize::MAX
        &&& forall|k: int| 0 <= k < t.len() ==> e.table_ok(#[trigger] t[k])
        &&& self.table_len <= tc.len()
        &&& self.table_len > 0 ==> self.table_len < t.len()
        &&& self.table_len > 0 ==> forall|k: int|
            0 <= k <= self.table_len ==> e.rows_agree(rows_of(#[trigger] t[k]), e.rows_after(tc.take(k)))
        &&& forall|k: int|
            0 <= k < self.table_len ==> e.ignored(#[trigger] tc[k]) || e.rows_nonempty(e.rows_after(tc.take(k)))
    }

    /// The alive words are the viable words seen, and each is filed under a class
    /// whose table holds the rows after its symbols.
    closed spec fn words_wf(&self) -> bool {
        let e = self.phrase_matcher.expression;
        let pm = self.phrase_matcher;
        let alive = self.alive();
        &&& pm.wf()
        &&& pm.n() == e@.len()
        &&& pm.flim() == e.max_fuzz() + 1
        &&& self.seen@.len() == self.word_index
        &&& alive == viable_words(e, self.seen@)
        &&& pm.word_class_list().len() == alive.len()
        &&& forall|i: int|
            0 <= i < alive.len() ==> e.rows_agree(
                pm.class_rows(#[trigger] pm.word_class_list()[i] as int),
                e.rows_after(alive[i].chars@),
            )
    }
}

impl<'word> WordMatcher<'word> {
    /// A matcher for the expression with no word seen, for words of fewer than
    /// `max_word_len` symbols.
    pub fn new(expression: Expression, max_word_len: usize) -> (r: WordMatcher<'word>)
        requires
            expression.wf(),
            expression.max_fuzz() < usize::MAX,
            table_shape_ok(expression@.len() as int, expression.max_fuzz() + 1),
        ensures
            r.wf(),
            r.expr() == expression,
            r.max_len() == max_word_len,
            r.index() == 0,
            r.seen() == Seq::<Word>::empty(),
            r.alive() == Seq::<Word>::empty(),
    {
        let phrase_matcher = PhraseMatcher::new(expression);
        let states_len = phrase_matcher.states_len;
        let fuzz_limit = phrase_matcher.fuzz_limit;
        proof {
            expression.lemma_wf();
        }
        let empty_table_src_fuzz_dst = BitSet3D::new((states_len, fuzz_limit), states_len);
        let mut table_char_src_fuzz_dst: Vec<BitSet3D> = Vec::new();
        let mut i: usize = 0;
        while i < max_word_len
            invariant
                i <= max_word_len,
                table_char_src_fuzz_dst@.len() == i,
                expression.table_ok(empty_table_src_fuzz_dst),
                forall|k: int| 0 <= k < i ==> expression.table_ok(#[trigger] table_char_src_fuzz_dst@[k]),
            decreases max_word_len - i,
        {
            table_char_src_fuzz_dst.push(empty_table_src_fuzz_dst.clone());
            i += 1;
        }
        let r = WordMatcher {
            phrase_matcher,
            alive_wordlist: Vec::new(),
            table_char_src_fuzz_dst,
            table_chars: &[],
            table_len: 0,
            word_index: 0,
            seen: Ghost(Seq::empty()),
        };
        proof {
            assert(r.alive() =~= Seq::<Word>::empty());
        }
        r
    }

    /// The compiled expression.
    pub fn expression(&self) -> (r: &Expression)
        ensures
            *r == self.expr(),
    {
        &self.phrase_matcher.expression
    }

    /// The most words that a phrase can have (see
    /// `PhraseMatcher::phrase_length_bounds`).
    pub fn phrase_length_bounds(&self, search_depth_limit: usize) -> (r: usize)
        requires
            self.wf(),
        ensures
            r == self.phrase().phrase_bound_from(search_depth_limit, 1),
    {
        self.phrase_matcher.phrase_length_bounds(search_depth_limit)
    }

    /// The phrase matcher that the alive words were filed in.
    pub fn into_phrase_matcher(self) -> (r: PhraseMatcher)
        ensures
            r == self.phrase(),
    {
        self.phrase_matcher
    }

    /// Whether the table's rows from the start state reach the success state with
    /// some fuzz.
    fn reaches_success(&self, t: &BitSet3D) -> (r: bool)
        requires
            self.wf(),
            self.expr().table_ok(*t),
        ensures
            r == exists|f: usize| f <= self.expr().max_fuzz() && #[trigger] t.row((0, f)).contains(self.expr()@.len() - 1),
    {
        let success_state = self.phrase_matcher.states_len - 1;
        let fuzz_limit = self.phrase_matcher.fuzz_limit;
        let mut f: usize = 0;
        while f < fuzz_limit
            invariant
                self.wf(),
                self.expr().table_ok(*t),
                fuzz_limit == self.expr().max_fuzz() + 1,
                success_state == self.expr()@.len() - 1,
                f <= fuzz_limit,
                forall|g: usize| g < f ==> !#[trigger] t.row((0, g)).contains(self.expr()@.len() - 1),
            decreases fuzz_limit - f,
        {
            if t.slice((0, f)).contains(success_state) {
                return true;
            }
            f += 1;
        }
        false
    }
}


/// Each table after the one at `p` is `next_row` of the one before it, up to `hi`:
/// the tables from `p` to `hi` hold the rows after the prefixes of `chars`.
proof fn lemma_filled_rows(e: Expression, t: Seq<BitSet3D>, chars: Seq<Char>, p: int, hi: int, k: int)
    requires
        0 <= p <= k <= hi <= chars.len(),
        hi < t.len(),
        e.rows_agree(rows_of(t[p]), e.rows_after(chars.take(p))),
        forall|j: int, s: usize, f: usize|
            p <= j < hi && s < e@.len() && f <= e.max_fuzz() ==> #[trigger] t[j + 1].row((s, f)) == e.next_row(
                t[j],
                chars[j],
                s,
                f,
            ),
    ensures
        e.rows_agree(rows_of(t[k]), e.rows_after(chars.take(k))),
    decreases k - p,
{
    if k > p {
        lemma_filled_rows(e, t, chars, p, hi, k - 1);
        assert forall|s: usize, f: usize| s < e@.len() && f <= e.max_fuzz() implies #[trigger] t[k].row((s, f))
            == e.next_row(t[k - 1], chars[k - 1], s, f) by {
            assert(t[(k - 1) + 1].row((s, f)) == e.next_row(t[k - 1], chars[k - 1], s, f));
        }
        e.lemma_next_rows(t[k - 1], t[k], chars, k - 1);
    }
}

/// The spec of filling the tables from `p` on with the rest of `chars`: `rest`
/// holds the tables from `p` on after the fill (see
/// `Expression::fill_transition_table`).
pub open spec fn filled_ok(e: Expression, mid: Seq<BitSet3D>, rest: Seq<BitSet3D>, chars: Seq<Char>, p: int, filled: int) -> bool {
    let rc = chars.subrange(p, chars.len() as int);
    &&& 0 <= filled <= rc.len()
    &&& rest[0] == mid[p]
    &&& forall|k: int| 0 <= k <= rc.len() ==> e.table_ok(#[trigger] rest[k])
    &&& forall|k: int, s: usize, f: usize|
        0 <= k < rc.len() && k <= filled && s < e@.len() && f <= e.max_fuzz() ==> #[trigger] rest[k + 1].row((s, f))
            == e.next_row(rest[k], rc[k], s, f)
    &&& forall|k: int| rc.len() < k < rest.len() ==> #[trigger] rest[k] == mid[p + k]
    &&& filled < rc.len() ==> !e.ignored(rc[filled]) && e.table_empty(rest[filled])
    &&& forall|k: int| 0 <= k < filled ==> e.ignored(#[trigger] rc[k]) || !e.table_empty(rest[k])
}

/// `t` is `mid` with the tables from `p` on replaced by `rest`.
pub open spec fn spliced(t: Seq<BitSet3D>, mid: Seq<BitSet3D>, rest: Seq<BitSet3D>, p: int) -> bool {
    &&& t.len() == mid.len()
    &&& rest.len() == mid.len() - p
    &&& forall|j: int| 0 <= j < t.len() - p ==> #[trigger] t[p + j] == rest[j]
}

/// After the fill, the tables from `p` to one past the symbols kept hold the rows
/// after the prefixes of `chars`.
proof fn lemma_fill_rows(e: Expression, mid: Seq<BitSet3D>, t: Seq<BitSet3D>, rest: Seq<BitSet3D>, chars: Seq<Char>, p: int, filled: int)
    requires
        0 <= p <= chars.len(),
        chars.len() < mid.len(),
        spliced(t, mid, rest, p),
        e.rows_agree(rows_of(mid[p]), e.rows_after(chars.take(p))),
        filled_ok(e, mid, rest, chars, p, filled),
    ensures
        forall|k: int|
            p <= k <= p + filled || (p <= k <= chars.len() && p + filled == chars.len()) ==> e.rows_agree(
                rows_of(#[trigger] t[k]),
                e.rows_after(chars.take(k)),
            ),
{
    let rc = chars.subrange(p, chars.len() as int);
    let partial = p + filled;
    let hi = if filled < rc.len() { partial + 1 } else { chars.len() as int };
    assert forall|j: int, s: usize, f: usize|
        p <= j < hi && s < e@.len() && f <= e.max_fuzz() implies #[trigger] t[j + 1].row((s, f)) == e.next_row(
            t[j],
            chars[j],
            s,
            f,
        ) by {
        let jj = j - p;
        assert(t[p + jj] == rest[jj]);
        assert(t[p + (jj + 1)] == rest[jj + 1]);
        assert(rc[jj] == chars[j]);
        assert(rest[jj + 1].row((s, f)) == e.next_row(rest[jj], rc[jj], s, f));
    }
    assert(t[p] == mid[p]) by {
        assert(t[p + 0] == rest[0]);
    }
    assert forall|k: int| p <= k <= hi implies e.rows_agree(rows_of(#[trigger] t[k]), e.rows_after(chars.take(k))) by {
        lemma_filled_rows(e, t, chars, p, hi, k);
    }
}

/// After the fill, every table still has the automaton's shape.
proof fn lemma_fill_shapes(e: Expression, mid: Seq<BitSet3D>, t: Seq<BitSet3D>, rest: Seq<BitSet3D>, chars: Seq<Char>, p: int, filled: int)
    requires
        0 <= p <= chars.len(),
        chars.len() < mid.len(),
        spliced(t, mid, rest, p),
        forall|j: int| 0 <= j < p ==> #[trigger] t[j] == mid[j],
        forall|k: int| 0 <= k < mid.len() ==> e.table_ok(#[trigger] mid[k]),
        filled_ok(e, mid, rest, chars, p, filled),
    ensures
        forall|k: int| 0 <= k < t.len() ==> e.table_ok(#[trigger] t[k]),
{
    let rc = chars.subrange(p, chars.len() as int);
    assert forall|k: int| 0 <= k < t.len() implies e.table_ok(#[trigger] t[k]) by {
        if k >= p {
            let jj = k - p;
            assert(t[p + jj] == rest[jj]);
            if jj > rc.len() {
                assert(rest[jj] == mid[p + jj]);
            }
        }
    }
}

/// After the fill, the symbols kept are viable, and when fewer than all are kept,
/// the word is not viable.
proof fn lemma_fill_viable(e: Expression, mid: Seq<BitSet3D>, t: Seq<BitSet3D>, rest: Seq<BitSet3D>, chars: Seq<Char>, tc: Seq<Char>, p: int, filled: int)
    requires
        0 <= p <= chars.len(),
        chars.len() < mid.len(),
        spliced(t, mid, rest, p),
        filled_ok(e, mid, rest, chars, p, filled),
        chars.take(p) == tc.take(p),
        p <= tc.len(),
        forall|k: int| 0 <= k < p ==> e.ignored(#[trigger] tc[k]) || e.rows_nonempty(e.rows_after(tc.take(k))),
        forall|k: int|
            p <= k <= p + filled ==> e.rows_agree(
                rows_of(#[trigger] t[k]),
                e.rows_after(chars.take(k)),
            ),
    ensures
        forall|k: int|
            0 <= k < p + filled ==> e.ignored(#[trigger] chars[k]) || e.rows_nonempty(e.rows_after(chars.take(k))),
        p + filled < chars.len() ==> !e.viable(chars),
{
    let rc = chars.subrange(p, chars.len() as int);
    let partial = p + filled;
    assert forall|k: int| 0 <= k < partial implies e.ignored(#[trigger] chars[k]) || e.rows_nonempty(
        e.rows_after(chars.take(k)),
    ) by {
        if k < p {
            assert(chars.take(k) =~= tc.take(k)) by {
                assert(chars.take(p).take(k) =~= chars.take(k));
                assert(tc.take(p).take(k) =~= tc.take(k));
            }
            assert(chars[k] == tc[k]) by {
                assert(chars.take(p)[k] == chars[k]);
                assert(tc.take(p)[k] == tc[k]);
            }
        } else {
            let jj = k - p;
            assert(t[p + jj] == rest[jj]);
            assert(rc[jj] == chars[k]);
            if !e.ignored(chars[k]) {
                assert(!e.table_empty(rest[jj]));
                let (s, f) = choose|s: usize, f: usize| s < e@.len() && f <= e.max_fuzz() && #[trigger] rest[jj].row((s, f)) != Set::<int>::empty();
                assert(rows_of(t[k])(s, f) == e.rows_after(chars.take(k))(s, f));
            }
        }
    }
    if partial < chars.len() {
        let jj = filled;
        assert(t[p + jj] == rest[jj]);
        assert(rc[jj] == chars[partial]);
        if e.rows_nonempty(e.rows_after(chars.take(partial))) {
            let (s, f) = choose|s: usize, f: usize| s < e@.len() && f <= e.max_fuzz() && #[trigger] e.rows_after(chars.take(partial))(s, f) != Set::<int>::empty();
            assert(rows_of(t[partial])(s, f) == e.rows_after(chars.take(partial))(s, f));
            assert(rest[jj].row((s, f)) == Set::<int>::empty());
        }
        assert(!(e.ignored(chars[partial]) || e.rows_nonempty(e.rows_after(chars.take(partial)))));
    }
}

impl<'word> WordMatcher<'word> {
    /// Runs the word's symbols through the automaton, reusing the tables of the
    /// prefix it shares with the last word, until no state is left. Returns how many
    /// symbols the tables now hold.
    fn fill_tables(&mut self, word: &'word Word) -> (partial_len: usize)
        requires
            old(self).tables_wf(),
            word.chars@.len() < old(self).max_len(),
        ensures
            final(self).tables_wf(),
            final(self).phrase_matcher == old(self).phrase_matcher,
            final(self).alive_wordlist == old(self).alive_wordlist,
            final(self).seen == old(self).seen,
            final(self).word_index == old(self).word_index,
            final(self).max_len() == old(self).max_len(),
            final(self).table_chars@ == word.chars@,
            final(self).table_len == partial_len,
            partial_len <= word.chars@.len(),
            partial_len < word.chars@.len() ==> !old(self).expr().viable(word.chars@),
            partial_len == word.chars@.len() ==> old(self).expr().viable(word.chars@) && old(self).expr().rows_agree(
                rows_of(final(self).table_char_src_fuzz_dst@[partial_len as int]),
                old(self).expr().rows_after(word.chars@),
            ),
    {
        let ghost e = self.phrase_matcher.expression;
        let ghost chars = word.chars@;
        let ghost tc = self.table_chars@;
        let ghost old_len = self.table_len as int;
        let ghost old_t = self.table_char_src_fuzz_dst@;
        proof {
            e.lemma_wf();
        }
        let word_len = word.chars.len();
        let prefix_len = common_prefix(word.chars.as_slice(), self.table_chars, self.table_len);
        if prefix_len == 0 {
            proof {
                self.table_char_src_fuzz_dst@[0].lemma_wf_sizes();
            }
            let t0 = self.phrase_matcher.expression.initial_table();
            self.table_char_src_fuzz_dst.set(0, t0);
            proof {
                assert(chars.take(0) =~= Seq::<Char>::empty());
            }
        }
        let ghost mid = self.table_char_src_fuzz_dst@;
        proof {
            assert(e.rows_agree(rows_of(mid[prefix_len as int]), e.rows_after(chars.take(prefix_len as int)))) by {
                if prefix_len > 0 {
                    assert(chars.take(prefix_len as int) == tc.take(prefix_len as int));
                }
            }
            assert forall|k: int| 0 <= k < mid.len() implies e.table_ok(#[trigger] mid[k]) by {
            }
        }
        let (_, rest_chars) = word.chars.as_slice().split_at(prefix_len);
        let (_, rest_tables) = self.table_char_src_fuzz_dst.as_mut_slice().split_at_mut(prefix_len);
        let filled = self.phrase_matcher.expression.fill_transition_table(rest_chars, rest_tables);
        let partial_len = prefix_len + filled;
        let ghost t = self.table_char_src_fuzz_dst@;
        proof {
            assert(rest_chars@ == chars.subrange(prefix_len as int, chars.len() as int));
            assert forall|j: int| 0 <= j < t.len() - prefix_len implies #[trigger] t[prefix_len + j] == rest_tables@[j] by {
            }
            assert(filled_ok(e, mid, rest_tables@, chars, prefix_len as int, filled as int));
            assert(spliced(t, mid, rest_tables@, prefix_len as int));
            assert forall|j: int| 0 <= j < prefix_len implies #[trigger] t[j] == mid[j] by {
            }
            lemma_fill_rows(e, mid, t, rest_tables@, chars, prefix_len as int, filled as int);
            lemma_fill_shapes(e, mid, t, rest_tables@, chars, prefix_len as int, filled as int);
            lemma_fill_viable(e, mid, t, rest_tables@, chars, tc, prefix_len as int, filled as int);
            assert forall|k: int| 0 <= k < prefix_len implies e.rows_agree(rows_of(#[trigger] t[k]), e.rows_after(chars.take(k))) by {
                assert(t[k] == mid[k]);
                assert(mid[k] == old_t[k]);
                assert(chars.take(k) =~= tc.take(k)) by {
                    assert(chars.take(prefix_len as int).take(k) =~= chars.take(k));
                    assert(tc.take(prefix_len as int).take(k) =~= tc.take(k));
                }
            }
        }
        self.table_chars = word.chars.as_slice();
        self.table_len = partial_len;
        proof {
            assert forall|k: int| 0 <= k <= partial_len implies e.rows_agree(rows_of(#[trigger] t[k]), e.rows_after(chars.take(k))) by {
            }
            if partial_len == word_len {
                assert(e.viable(chars));
                assert(chars.take(word_len as int) =~= chars);
            }
        }
        partial_len
    }

    /// Runs one more word through the automaton and files it if it is viable.
    /// Returns whether it is viable and whether it matches.
    fn process_word(&mut self, word: &'word Word) -> (r: (bool, bool))
        requires
            old(self).wf(),
            word.chars@.len() < old(self).max_len(),
            old(self).index() < usize::MAX,
        ensures
            final(self).wf(),
            final(self).expr() == old(self).expr(),
            final(self).phrase().expr() == old(self).phrase().expr(),
            final(self).max_len() == old(self).max_len(),
            final(self).index() == old(self).index() + 1,
            final(self).seen() == old(self).seen().push(*word),
            r.0 == old(self).expr().viable(word.chars@),
            r.1 == old(self).expr().matches_chars(word.chars@),
    {
        let ghost e = self.phrase_matcher.expression;
        let ghost chars = word.chars@;
        let ghost old_alive = self.alive();
        let ghost old_seen = self.seen@;
        let ghost old_classes = self.phrase_matcher.word_class_list();
        let ghost old_entries = self.phrase_matcher.entries();
        proof {
            e.lemma_wf();
        }
        let word_len = word.chars.len();
        let partial_len = self.fill_tables(word);
        self.word_index = self.word_index + 1;
        self.seen = Ghost(self.seen@.push(*word));
        proof {
            assert(self.seen@.drop_last() =~= old_seen);
            lemma_viable_words_len(e, old_seen);
        }
        if partial_len < word_len {
            proof {
                assert(!e.viable(chars));
                e.lemma_not_viable(chars);
                assert(self.alive() == viable_words(e, self.seen@));
            }
            return (false, false);
        }
        proof {
            e.lemma_rows_after_bounded(chars);
            let tw = self.table_char_src_fuzz_dst@[word_len as int];
            assert(e.rows_agree(rows_of(tw), e.rows_after(chars)));
            assert forall|s: usize, f: usize, x: int|
                s < e@.len() && f < e.max_fuzz() + 1 && #[trigger] tw.row((s, f)).contains(x) implies 0 <= x < e@.len() by {
                assert(rows_of(tw)(s, f) == e.rows_after(chars)(s, f));
            }
        }
        self.alive_wordlist.push(word);
        let ghost table = self.table_char_src_fuzz_dst@[word_len as int];
        self.phrase_matcher.insert_word_table(word, &self.table_char_src_fuzz_dst[word_len]);
        proof {
            assert(self.alive() =~= old_alive.push(*word));
            assert(self.alive() == viable_words(e, self.seen@));
            let pm = self.phrase_matcher;
            let rb = blocks_for(e@.len() as int);
            assert forall|i: int| 0 <= i < self.alive().len() implies e.rows_agree(
                pm.class_rows(#[trigger] pm.word_class_list()[i] as int),
                e.rows_after(self.alive()[i].chars@),
            ) by {
                if i < old_alive.len() {
                    assert(pm.word_class_list()[i] == old_classes[i]);
                    assert(pm.entries()[old_classes[i] as int].0 == old_entries[old_classes[i] as int].0);
                } else {
                    let c = pm.word_class_list()[i] as int;
                    assert(c == pm.word_class_list().last());
                    assert(pm.entries()[c].0 == table.blocks_view());
                    assert(self.alive()[i] == *word);
                    assert forall|s: usize, f: usize| s < e@.len() && f <= e.max_fuzz() implies #[trigger] pm.class_rows(c)(s, f)
                        == e.rows_after(chars)(s, f) by {
                        table.lemma_row_def((s, f));
                        assert(rows_of(table)(s, f) == e.rows_after(chars)(s, f));
                    }
                }
            }
        }
        proof {
            assert(self.table_char_src_fuzz_dst@[word_len as int] == table);
            assert(self.expr() == e);
        }
        let matched = self.reaches_success(&self.table_char_src_fuzz_dst[word_len]);
        proof {
            assert(e.rows_agree(rows_of(table), e.rows_after(chars)));
            if matched {
                let f = choose|f: usize| f <= e.max_fuzz() && #[trigger] table.row((0, f)).contains(e@.len() - 1);
                assert(rows_of(table)(0, f) == e.rows_after(chars)(0, f));
                assert(e.rows_after(chars)(0, f).contains(e@.len() - 1));
                assert(e.matches_chars(chars));
            }
            if e.matches_chars(chars) {
                let f = choose|f: usize| f <= e.max_fuzz() && #[trigger] e.rows_after(chars)(0, f).contains(e@.len() - 1);
                assert(rows_of(table)(0, f) == e.rows_after(chars)(0, f));
                assert(table.row((0, f)).contains(e@.len() - 1));
            }
        }
        (true, matched)
    }
}


impl<'word> WordMatcher<'word> {
    /// Finds the next word of `wordlist`, from the first not yet seen, that matches
    /// the expression, seeing each word up to it (and filing those that are viable
    /// for phrases). Returns `None` when every word has been seen, or, with a
    /// deadline, possibly earlier once the deadline has passed (the clock is read
    /// after every 256 viable words that do not match).
    ///
    /// Between calls, `wordlist` may grow; the words already seen are not read again.
    pub fn next_single_word(&mut self, wordlist: &[&'word Word], deadline: Option<Instant>) -> (r: Option<&'word Word>)
        requires
            old(self).wf(),
            forall|i: int|
                old(self).index() <= i < wordlist@.len() ==> (#[trigger] wordlist@[i]).chars@.len() < old(self).max_len(),
        ensures
            final(self).wf(),
            final(self).expr() == old(self).expr(),
            final(self).phrase().expr() == old(self).phrase().expr(),
            final(self).max_len() == old(self).max_len(),
            final(self).index() == old(self).index() || old(self).index() < final(self).index() <= wordlist@.len(),
            final(self).seen() == old(self).seen() + words_between(wordlist@, old(self).index() as int, final(self).index() as int),
            final(self).alive() == viable_words(final(self).expr(), final(self).seen()),
            forall|i: int|
                old(self).index() <= i < final(self).index() && (r is None || i < final(self).index() - 1)
                    ==> !final(self).expr().matches_chars((#[trigger] wordlist@[i]).chars@),
            match r {
                Some(w) => {
                    &&& old(self).index() < final(self).index()
                    &&& w == wordlist@[final(self).index() - 1]
                    &&& final(self).expr().matches_chars(w.chars@)
                },
                None => deadline is None ==> final(self).index() >= wordlist@.len(),
            },
    {
        let ghost old_index = self.word_index as int;
        let ghost old_seen = self.seen@;
        let ghost e = self.phrase_matcher.expression;
        assert(old_index == old(self).index() && old_seen == old(self).seen());
        let mut deadline_check_count: usize = 0;
        proof {
            assert(words_between(wordlist@, old_index, old_index) =~= Seq::<Word>::empty());
            assert(old_seen + Seq::<Word>::empty() =~= old_seen);
        }
        while self.word_index < wordlist.len()
            invariant
                self.wf(),
                self.expr() == e,
                self.phrase().expr() == e,
                old(self).expr() == e,
                old(self).phrase().expr() == e,
                old(self).index() == old_index,
                old(self).seen() == old_seen,
                self.max_len() == old(self).max_len(),
                old_index <= self.index(),
                self.index() == old_index || self.index() <= wordlist@.len(),
                self.seen() == old_seen + words_between(wordlist@, old_index, self.index() as int),
                forall|i: int| old_index <= i < self.index() ==> !e.matches_chars((#[trigger] wordlist@[i]).chars@),
                forall|i: int|
                    old_index <= i < wordlist@.len() ==> (#[trigger] wordlist@[i]).chars@.len() < self.max_len(),
                deadline_check_count <= self.index() - old_index,
            decreases wordlist@.len() - self.index(),
        {
            let word = wordlist[self.word_index];
            let ghost i = self.word_index as int;
            proof {
                self.lemma_alive();
            }
            let (alive, matched) = self.process_word(word);
            proof {
                assert(words_between(wordlist@, old_index, i + 1) =~= words_between(wordlist@, old_index, i).push(*word));
                self.lemma_alive();
            }
            if matched {
                return Some(word);
            }
            if alive {
                deadline_check_count += 1;
                if deadline_check_count % 256 == 0 {
                    match &deadline {
                        Some(d) => {
                            let now = instant_now();
                            if instant_later(&now, d) {
                                return None;
                            }
                        },
                        None => {},
                    }
                }
            }
        }
        proof {
            self.lemma_alive();
        }
        None
    }

    /// What a consistent matcher keeps: its alive words are the viable words seen,
    /// and each is filed under a class whose table holds the rows after its symbols.
    pub proof fn lemma_alive(&self)
        requires
            self.wf(),
        ensures
            self.alive() == viable_words(self.expr(), self.seen()),
            self.seen().len() == self.index(),
            self.phrase().n() == self.expr()@.len(),
            self.phrase().flim() == self.expr().max_fuzz() + 1,
            self.phrase().word_class_list().len() == self.alive().len(),
            forall|i: int|
                0 <= i < self.alive().len() ==> self.expr().rows_agree(
                    self.phrase().class_rows(#[trigger] self.phrase().word_class_list()[i] as int),
                    self.expr().rows_after(self.alive()[i].chars@),
                ),
    {
    }
}


// ---------------------------------------------------------------------------
// Optimizing for a word list: the states that phrases of the alive words use.

/// A class has words exactly when it is one of the alive words' classes.
proof fn lemma_count_of_contains(ws: Seq<usize>, i: int)
    requires
        0 <= i <= usize::MAX,
    ensures
        (count_of(ws, i) != 0) == ws.contains(i as usize),
    decreases ws.len(),
{
    if ws.len() > 0 {
        lemma_count_of_contains(ws.drop_last(), i);
        let last = ws.len() - 1;
        assert(ws.last() == ws[last]);
        if ws.drop_last().contains(i as usize) {
            let k = choose|k: int| 0 <= k < ws.drop_last().len() && ws.drop_last()[k] == i as usize;
            assert(ws[k] == i as usize);
        }
        if ws.contains(i as usize) && ws.last() != i {
            let k = choose|k: int| 0 <= k < ws.len() && ws[k] == i as usize;
            assert(k != last);
            assert(ws.drop_last()[k] == i as usize);
        }
    }
}

/// The rows of a list of sets, by fuzz.
pub open spec fn rows2(t: BitSet2D) -> spec_fn(usize) -> Set<int> {
    |f: usize| t.row(f)
}

/// The rows with state `src` alone, at fuzz 0.
pub open spec fn single_rows(src: int) -> spec_fn(usize) -> Set<int> {
    |f: usize|
        if f == 0 {
            Set::<int>::empty().insert(src)
        } else {
            Set::<int>::empty()
        }
}

/// The states of the rows below fuzz `flim`.
pub open spec fn union_rows(rows: spec_fn(usize) -> Set<int>, flim: int) -> Set<int> {
    Set::new(|x: int| exists|f: usize| f < flim && #[trigger] rows(f).contains(x))
}

impl PhraseMatcher {
    /// The rows at the start of a phrase: the start states, at fuzz 0.
    pub open spec fn start_rows(&self) -> spec_fn(usize) -> Set<int> {
        |f: usize|
            if f == 0 {
                self.start()
            } else {
                Set::<int>::empty()
            }
    }

    /// What the classes below `m` that are among `ws` lead to from `prev`, at fuzz
    /// `g`.
    pub open spec fn live_step(&self, ws: Seq<usize>, prev: spec_fn(usize) -> Set<int>, m: int, g: usize) -> Set<int> {
        Set::new(
            |t: int|
                exists|i: int|
                    0 <= i < m && ws.contains(i as usize) && #[trigger] step_upto(
                        self.n() as int,
                        self.class_rows(i),
                        prev,
                        self.flim() as int,
                        g,
                    ).contains(t),
        )
    }

    /// The rows after `k` rounds from `init`, each adding what one more word of a
    /// class among `ws` leads to.
    pub open spec fn reach_rows(&self, ws: Seq<usize>, init: spec_fn(usize) -> Set<int>, k: nat) -> spec_fn(usize) -> Set<int>
        decreases k,
    {
        if k == 0 {
            init
        } else {
            let prev = self.reach_rows(ws, init, (k - 1) as nat);
            |g: usize| prev(g).union(self.live_step(ws, prev, self.entries().len() as int, g))
        }
    }
}

/// `prev` and `prev2` agree below `flim`, so one step from each agrees too.
proof fn lemma_live_step_agree(pm: PhraseMatcher, ws: Seq<usize>, p1: spec_fn(usize) -> Set<int>, p2: spec_fn(usize) -> Set<int>, g: usize)
    requires
        rows_same(p1, p2, pm.flim() as int),
    ensures
        pm.live_step(ws, p1, pm.entries().len() as int, g) == pm.live_step(ws, p2, pm.entries().len() as int, g),
{
    let m = pm.entries().len() as int;
    let n = pm.n() as int;
    let flim = pm.flim() as int;
    assert forall|t: int| #[trigger] pm.live_step(ws, p1, m, g).contains(t) == pm.live_step(ws, p2, m, g).contains(t) by {
        if pm.live_step(ws, p1, m, g).contains(t) {
            let i = choose|i: int| 0 <= i < m && ws.contains(i as usize) && #[trigger] step_upto(n, pm.class_rows(i), p1, flim, g).contains(t);
            let (f, d) = choose|f: usize, d: int| f < flim && f <= g && #[trigger] p1(f).contains(d) && 0 <= d < n && pm.class_rows(i)(d as usize, (g - f) as usize).contains(t);
            assert(p2(f).contains(d));
            assert(step_upto(n, pm.class_rows(i), p2, flim, g).contains(t));
        }
        if pm.live_step(ws, p2, m, g).contains(t) {
            let i = choose|i: int| 0 <= i < m && ws.contains(i as usize) && #[trigger] step_upto(n, pm.class_rows(i), p2, flim, g).contains(t);
            let (f, d) = choose|f: usize, d: int| f < flim && f <= g && #[trigger] p2(f).contains(d) && 0 <= d < n && pm.class_rows(i)(d as usize, (g - f) as usize).contains(t);
            assert(p1(f).contains(d));
            assert(step_upto(n, pm.class_rows(i), p1, flim, g).contains(t));
        }
    }
    assert(pm.live_step(ws, p1, m, g) =~= pm.live_step(ws, p2, m, g));
}

/// Once a round changes nothing, no later round does.
proof fn lemma_reach_fixpoint(pm: PhraseMatcher, ws: Seq<usize>, init: spec_fn(usize) -> Set<int>, k: nat, m: nat)
    requires
        k <= m,
        rows_same(pm.reach_rows(ws, init, k + 1), pm.reach_rows(ws, init, k), pm.flim() as int),
    ensures
        rows_same(pm.reach_rows(ws, init, m), pm.reach_rows(ws, init, k), pm.flim() as int),
    decreases m - k,
{
    if m > k {
        lemma_reach_fixpoint(pm, ws, init, k, (m - 1) as nat);
        let pk = pm.reach_rows(ws, init, k);
        let pm1 = pm.reach_rows(ws, init, (m - 1) as nat);
        assert forall|g: usize| g < pm.flim() implies #[trigger] pm.reach_rows(ws, init, m)(g) == pk(g) by {
            lemma_live_step_agree(pm, ws, pm1, pk, g);
            assert(pm.reach_rows(ws, init, m)(g) == pm1(g).union(pm.live_step(ws, pm1, pm.entries().len() as int, g)));
            assert(pm.reach_rows(ws, init, k + 1)(g) == pk(g).union(pm.live_step(ws, pk, pm.entries().len() as int, g)));
        }
    }
}

/// Rounds from rows that agree below `flim` agree below `flim`.
proof fn lemma_reach_agree(pm: PhraseMatcher, ws: Seq<usize>, i1: spec_fn(usize) -> Set<int>, i2: spec_fn(usize) -> Set<int>, k: nat)
    requires
        rows_same(i1, i2, pm.flim() as int),
    ensures
        rows_same(pm.reach_rows(ws, i1, k), pm.reach_rows(ws, i2, k), pm.flim() as int),
    decreases k,
{
    if k > 0 {
        lemma_reach_agree(pm, ws, i1, i2, (k - 1) as nat);
        let p1 = pm.reach_rows(ws, i1, (k - 1) as nat);
        let p2 = pm.reach_rows(ws, i2, (k - 1) as nat);
        assert forall|g: usize| g < pm.flim() implies #[trigger] pm.reach_rows(ws, i1, k)(g) == pm.reach_rows(ws, i2, k)(g) by {
            lemma_live_step_agree(pm, ws, p1, p2, g);
            assert(pm.reach_rows(ws, i1, k)(g) == p1(g).union(pm.live_step(ws, p1, pm.entries().len() as int, g)));
            assert(pm.reach_rows(ws, i2, k)(g) == p2(g).union(pm.live_step(ws, p2, pm.entries().len() as int, g)));
        }
    }
}

impl PhraseMatcher {
    /// Adds to `next` what one word of each class with words leads to from `prev`
    /// (see `live_step`).
    fn live_step_into(&self, prev: BitSetRef2D<'_>, next: &mut BitSet2D)
        requires
            self.wf(),
            list2_ok(*old(next), self.n(), self.flim()),
            prev.wf(),
            prev.shape() == self.flim(),
            forall|f: usize, x: int| f < self.flim() && #[trigger] prev.row(f).contains(x) ==> 0 <= x < self.n(),
        ensures
            list2_ok(*final(next), self.n(), self.flim()),
            forall|g: usize| g < self.flim() ==> #[trigger] final(next).row(g) == old(next).row(g).union(
                self.live_step(self.word_class_list(), ref2_rows(prev), self.entries().len() as int, g),
            ),
    {
        let ghost start = *next;
        let ghost ws = self.word_class_list();
        let ghost pr = ref2_rows(prev);
        let n = self.states_len;
        let flim = self.fuzz_limit;
        let classes_count = classes_len(&self.classes);
        let mut i: usize = 0;
        proof {
            assert forall|g: usize| g < flim implies #[trigger] next.row(g) == start.row(g).union(self.live_step(ws, pr, 0, g)) by {
                assert(self.live_step(ws, pr, 0, g) =~= Set::<int>::empty());
                assert(start.row(g).union(Set::<int>::empty()) =~= start.row(g));
            }
        }
        while i < classes_count
            invariant
                self.wf(),
                n == self.n(),
                flim == self.flim(),
                ws == self.word_class_list(),
                pr == ref2_rows(prev),
                classes_count == self.entries().len(),
                i <= classes_count,
                list2_ok(*next, n, flim),
                prev.wf(),
                prev.shape() == flim,
                forall|f: usize, x: int| f < flim && #[trigger] prev.row(f).contains(x) ==> 0 <= x < n,
                forall|g: usize| g < flim ==> #[trigger] next.row(g) == start.row(g).union(self.live_step(ws, pr, i as int, g)),
            decreases classes_count - i,
        {
            let ghost before = *next;
            let count = match classes_get_index(&self.classes, i) {
                Some((_, c)) => c.words_count,
                None => 0,
            };
            proof {
                lemma_count_of_contains(ws, i as int);
            }
            if count != 0 {
                let table = self.class_table(i);
                self.step(table, prev, next);
                proof {
                    assert(ref3_rows(table) =~= self.class_rows(i as int));
                    assert forall|g: usize| g < flim implies #[trigger] next.row(g) == start.row(g).union(self.live_step(ws, pr, i + 1, g)) by {
                        assert forall|t: int| #[trigger] next.row(g).contains(t) == start.row(g).union(self.live_step(ws, pr, i + 1, g)).contains(t) by {
                            if self.live_step(ws, pr, i + 1, g).contains(t) {
                                let k = choose|k: int| 0 <= k < i + 1 && ws.contains(k as usize) && #[trigger] step_upto(n as int, self.class_rows(k), pr, flim as int, g).contains(t);
                                if k < i {
                                    assert(self.live_step(ws, pr, i as int, g).contains(t));
                                }
                            }
                            if before.row(g).contains(t) && !start.row(g).contains(t) {
                                let k = choose|k: int| 0 <= k < i && ws.contains(k as usize) && #[trigger] step_upto(n as int, self.class_rows(k), pr, flim as int, g).contains(t);
                                assert(self.live_step(ws, pr, i + 1, g).contains(t));
                            }
                            if next.row(g).contains(t) && !before.row(g).contains(t) {
                                assert(step_upto(n as int, self.class_rows(i as int), pr, flim as int, g).contains(t));
                                assert(self.live_step(ws, pr, i + 1, g).contains(t));
                            }
                        }
                        assert(next.row(g) =~= start.row(g).union(self.live_step(ws, pr, i + 1, g)));
                    }
                }
            } else {
                proof {
                    assert forall|g: usize| g < flim implies #[trigger] next.row(g) == start.row(g).union(self.live_step(ws, pr, i + 1, g)) by {
                        assert(self.live_step(ws, pr, i + 1, g) =~= self.live_step(ws, pr, i as int, g)) by {
                            assert forall|t: int| #[trigger] self.live_step(ws, pr, i + 1, g).contains(t) implies self.live_step(ws, pr, i as int, g).contains(t) by {
                                let k = choose|k: int| 0 <= k < i + 1 && ws.contains(k as usize) && #[trigger] step_upto(n as int, self.class_rows(k), pr, flim as int, g).contains(t);
                                assert(k != i);
                            }
                        }
                    }
                }
            }
            i += 1;
        }
    }

    /// The rows after `depth` rounds from `init` (see `reach_rows`), stopping early
    /// once a round changes nothing.
    fn reach(&self, init: BitSet2D, depth: usize) -> (r: BitSet2D)
        requires
            self.wf(),
            list2_ok(init, self.n(), self.flim()),
            forall|f: usize, x: int| f < self.flim() && #[trigger] init.row(f).contains(x) ==> 0 <= x < self.n(),
        ensures
            list2_ok(r, self.n(), self.flim()),
            forall|f: usize, x: int| f < self.flim() && #[trigger] r.row(f).contains(x) ==> 0 <= x < self.n(),
            forall|g: usize| g < self.flim() ==> #[trigger] r.row(g) == self.reach_rows(self.word_class_list(), rows2(init), depth as nat)(g),
    {
        let ghost ws = self.word_class_list();
        let ghost ir = rows2(init);
        let n = self.states_len;
        let flim = self.fuzz_limit;
        let mut cur = init;
        let mut k: usize = 0;
        while k < depth
            invariant_except_break
                k <= depth,
            invariant
                self.wf(),
                n == self.n(),
                flim == self.flim(),
                ws == self.word_class_list(),
                ir == rows2(init),
                list2_ok(cur, n, flim),
                forall|f: usize, x: int| f < flim && #[trigger] cur.row(f).contains(x) ==> 0 <= x < n,
                forall|g: usize| g < flim ==> #[trigger] cur.row(g) == self.reach_rows(ws, ir, k as nat)(g),
            ensures
                list2_ok(cur, n, flim),
                forall|f: usize, x: int| f < flim && #[trigger] cur.row(f).contains(x) ==> 0 <= x < n,
                forall|g: usize| g < flim ==> #[trigger] cur.row(g) == self.reach_rows(ws, ir, depth as nat)(g),
            decreases depth - k,
        {
            let mut next = cur.clone();
            proof {
                assert forall|g: usize| #[trigger] next.row(g) == cur.row(g) by {
                    next.lemma_same_blocks(cur, g);
                }
            }
            let ghost prev = self.reach_rows(ws, ir, k as nat);
            let cur_ref = cur.borrow();
            self.live_step_into(cur_ref, &mut next);
            proof {
                assert(rows_same(ref2_rows(cur_ref), prev, flim as int)) by {
                    assert forall|g: usize| g < flim implies #[trigger] ref2_rows(cur_ref)(g) == prev(g) by {
                        assert(cur_ref.row(g) == cur.row(g));
                    }
                }
                assert forall|g: usize| g < flim implies #[trigger] next.row(g) == self.reach_rows(ws, ir, (k + 1) as nat)(g) by {
                    lemma_live_step_agree(*self, ws, ref2_rows(cur_ref), prev, g);
                    assert(self.reach_rows(ws, ir, (k + 1) as nat)(g) == prev(g).union(
                        self.live_step(ws, prev, self.entries().len() as int, g),
                    ));
                }
                assert forall|f: usize, x: int| f < flim && #[trigger] next.row(f).contains(x) implies 0 <= x < n by {
                    if !cur.row(f).contains(x) {
                        let m = self.entries().len() as int;
                        let i = choose|i: int| 0 <= i < m && ws.contains(i as usize) && #[trigger] step_upto(n as int, self.class_rows(i), ref2_rows(cur_ref), flim as int, f).contains(x);
                        let (f2, d) = choose|f2: usize, d: int| f2 < flim && f2 <= f && #[trigger] ref2_rows(cur_ref)(f2).contains(d) && 0 <= d < n && self.class_rows(i)(d as usize, (f - f2) as usize).contains(x);
                        assert(row_set(self.entries()[i].0, blocks_for(n as int), d * flim + (f - f2)).contains(x));
                    }
                }
                next.lemma_wf_sizes();
                cur.lemma_wf_sizes();
                next.lemma_equal_rows(&cur);
            }
            if next.equals(&cur) {
                proof {
                    assert(rows_same(self.reach_rows(ws, ir, (k + 1) as nat), self.reach_rows(ws, ir, k as nat), flim as int)) by {
                        assert forall|g: usize| g < flim implies #[trigger] self.reach_rows(ws, ir, (k + 1) as nat)(g) == self.reach_rows(ws, ir, k as nat)(g) by {
                            assert(next.row(g) == cur.row(g));
                        }
                    }
                    lemma_reach_fixpoint(*self, ws, ir, k as nat, depth as nat);
                    assert forall|g: usize| g < flim implies #[trigger] cur.row(g) == self.reach_rows(ws, ir, depth as nat)(g) by {
                        assert(self.reach_rows(ws, ir, depth as nat)(g) == self.reach_rows(ws, ir, k as nat)(g));
                    }
                }
                break;
            }
            cur = next;
            k += 1;
        }
        cur
    }
}


impl PhraseMatcher {
    /// The states that phrases of words of the classes among `ws` reach from the
    /// start within `depth` words, at any fuzz.
    pub open spec fn reachable_set(&self, ws: Seq<usize>, depth: nat) -> Set<int> {
        union_rows(self.reach_rows(ws, self.start_rows(), depth), self.flim() as int)
    }

    /// From state `src`, phrases of words of the classes among `ws` reach the success
    /// state within `depth` words.
    pub open spec fn leads_to_success(&self, ws: Seq<usize>, depth: nat, src: int) -> bool {
        exists|k: nat|
            k <= depth && #[trigger] union_rows(self.reach_rows(ws, single_rows(src), k), self.flim() as int).contains(
                self.n() - 1,
            )
    }

    /// The states that are both reachable and lead to success (see `reachable_set`
    /// and `leads_to_success`).
    pub open spec fn useful_states(&self, ws: Seq<usize>, depth: nat) -> Set<int> {
        Set::new(|x: int| 0 <= x < self.n() && self.reachable_set(ws, depth).contains(x) && self.leads_to_success(ws, depth, x))
    }

    /// The rows with only the given states at fuzz 0.
    fn rows_at_zero(&self, states: BitSetRef<'_, ()>) -> (r: BitSet2D)
        requires
            self.wf(),
            states.wf(),
            states.blocks_view().len() == blocks_for(self.n() as int),
        ensures
            list2_ok(r, self.n(), self.flim()),
            forall|g: usize| g < self.flim() ==> #[trigger] r.row(g) == (if g == 0 {
                states@
            } else {
                Set::<int>::empty()
            }),
    {
        let mut r = BitSet2D::new(self.fuzz_limit, self.states_len);
        proof {
            r.lemma_wf_sizes();
        }
        r.union_into_row(0, states);
        proof {
            assert forall|g: usize| g < self.flim() implies #[trigger] r.row(g) == (if g == 0 {
                states@
            } else {
                Set::<int>::empty()
            }) by {
                if g == 0 {
                    assert(r.row(g) =~= states@);
                }
            }
        }
        r
    }

    /// The states reachable from the start (see `reachable_set`).
    fn reachable_srcs(&self, depth: usize) -> (r: BitSet1D)
        requires
            self.wf(),
        ensures
            r.wf(),
            r.row_len() == blocks_for(self.n() as int),
            r@ == self.reachable_set(self.word_class_list(), depth as nat),
            forall|x: int| #[trigger] r@.contains(x) ==> 0 <= x < self.n(),
    {
        let n = self.states_len;
        let flim = self.fuzz_limit;
        proof {
            self.start_states.lemma_one_row();
            self.start_states.lemma_wf_sizes();
        }
        let init = self.rows_at_zero(self.start_states.borrow());
        let reached = self.reach(init, depth);
        proof {
            assert(rows_same(rows2(init), self.start_rows(), flim as int)) by {
                assert forall|g: usize| g < flim implies #[trigger] rows2(init)(g) == self.start_rows()(g) by {
                }
            }
            lemma_reach_agree(*self, self.word_class_list(), rows2(init), self.start_rows(), depth as nat);
        }
        let mut r = BitSet1D::new((), n);
        let mut f: usize = 0;
        while f < flim
            invariant
                self.wf(),
                n == self.n(),
                flim == self.flim(),
                list2_ok(reached, n, flim),
                rows_same(rows2(reached), self.reach_rows(self.word_class_list(), self.start_rows(), depth as nat), flim as int),
                forall|g: usize, x: int| g < flim && #[trigger] reached.row(g).contains(x) ==> 0 <= x < n,
                f <= flim,
                r.wf(),
                r.row_len() == blocks_for(n as int),
                r@ == union_rows(self.reach_rows(self.word_class_list(), self.start_rows(), depth as nat), f as int),
            decreases flim - f,
        {
            let row = reached.slice(f);
            proof {
                row.lemma_single_row();
                r.lemma_one_row();
            }
            r.union_from(row);
            proof {
                let rr = self.reach_rows(self.word_class_list(), self.start_rows(), depth as nat);
                assert(r@ =~= union_rows(rr, f + 1)) by {
                    assert forall|x: int| #[trigger] union_rows(rr, f + 1).contains(x) implies r@.contains(x) by {
                        let g = choose|g: usize| g < f + 1 && #[trigger] rr(g).contains(x);
                        if g < f {
                            assert(union_rows(rr, f as int).contains(x));
                        } else {
                            assert(rows2(reached)(f) == rr(f));
                        }
                    }
                    assert forall|x: int| r@.contains(x) implies #[trigger] union_rows(rr, f + 1).contains(x) by {
                        if row@.contains(x) {
                            assert(rows2(reached)(f) == rr(f));
                            assert(rr(f).contains(x));
                        } else {
                            let g = choose|g: usize| g < f && #[trigger] rr(g).contains(x);
                        }
                    }
                }
            }
            f += 1;
        }
        proof {
            assert forall|x: int| #[trigger] r@.contains(x) implies 0 <= x < n by {
                let g = choose|g: usize| g < flim && #[trigger] self.reach_rows(self.word_class_list(), self.start_rows(), depth as nat)(g).contains(x);
                assert(rows2(reached)(g) == self.reach_rows(self.word_class_list(), self.start_rows(), depth as nat)(g));
                assert(reached.row(g).contains(x));
            }
        }
        r
    }
}


impl PhraseMatcher {
    /// Whether phrases from state `src` reach the success state within `depth` words
    /// (see `leads_to_success`), stopping once a round changes nothing.
    fn src_leads(&self, src: usize, depth: usize) -> (r: bool)
        requires
            self.wf(),
            src < self.n(),
        ensures
            r == self.leads_to_success(self.word_class_list(), depth as nat, src as int),
    {
        let ghost ws = self.word_class_list();
        let ghost sr = single_rows(src as int);
        let n = self.states_len;
        let flim = self.fuzz_limit;
        proof {
            self.start_states.lemma_wf_sizes();
        }
        let mut one = BitSet1D::new((), n);
        proof {
            one.lemma_one_row();
        }
        one.insert_one(src);
        proof {
            one.lemma_one_row();
        }
        let mut t = self.rows_at_zero(one.borrow());
        proof {
            assert(rows_same(rows2(t), sr, flim as int)) by {
                assert forall|g: usize| g < flim implies #[trigger] rows2(t)(g) == sr(g) by {
                    if g == 0 {
                        assert(one@ =~= Set::<int>::empty().insert(src as int));
                    }
                }
            }
            lemma_reach_agree(*self, ws, sr, rows2(t), 0);
        }
        let mut k: usize = 0;
        loop
            invariant
                self.wf(),
                n == self.n(),
                flim == self.flim(),
                ws == self.word_class_list(),
                sr == single_rows(src as int),
                src < n,
                k <= depth,
                list2_ok(t, n, flim),
                forall|f: usize, x: int| f < flim && #[trigger] t.row(f).contains(x) ==> 0 <= x < n,
                rows_same(rows2(t), self.reach_rows(ws, sr, k as nat), flim as int),
                forall|j: nat| j < k ==> !#[trigger] union_rows(self.reach_rows(ws, sr, j), flim as int).contains(n - 1),
            decreases depth - k,
        {
            let ghost cur = self.reach_rows(ws, sr, k as nat);
            proof {
                assert(union_rows(cur, flim as int).contains(n - 1) == exists|f: usize| f < flim && #[trigger] t.row(f).contains(n - 1)) by {
                    if union_rows(cur, flim as int).contains(n - 1) {
                        let f = choose|f: usize| f < flim && #[trigger] cur(f).contains(n - 1);
                        assert(rows2(t)(f) == cur(f));
                        assert(t.row(f).contains(n - 1));
                    }
                    if exists|f: usize| f < flim && #[trigger] t.row(f).contains(n - 1) {
                        let f = choose|f: usize| f < flim && #[trigger] t.row(f).contains(n - 1);
                        assert(rows2(t)(f) == cur(f));
                        assert(cur(f).contains(n - 1));
                    }
                }
            }
            let t_ref = t.borrow();
            if self.has_success_state(t_ref) {
                proof {
                    let f = choose|f: usize| f < flim && #[trigger] t_ref.row(f).contains(n - 1);
                    assert(t.row(f).contains(n - 1));
                    assert(union_rows(cur, flim as int).contains(n - 1));
                    let kn = k as nat;
                    assert(union_rows(self.reach_rows(ws, single_rows(src as int), kn), self.flim() as int).contains(self.n() - 1));
                    assert(kn <= depth as nat);
                }
                return true;
            }
            if k == depth {
                proof {
                    assert(!union_rows(cur, flim as int).contains(n - 1)) by {
                        if union_rows(cur, flim as int).contains(n - 1) {
                            let f = choose|f: usize| f < flim && #[trigger] t.row(f).contains(n - 1);
                            assert(t_ref.row(f).contains(n - 1));
                        }
                    }
                    assert(!self.leads_to_success(ws, depth as nat, src as int)) by {
                        if self.leads_to_success(ws, depth as nat, src as int) {
                            let j = choose|j: nat| j <= depth && #[trigger] union_rows(self.reach_rows(ws, sr, j), flim as int).contains(n - 1);
                            assert(j < k || j == k);
                        }
                    }
                }
                return false;
            }
            proof {
                assert(!union_rows(cur, flim as int).contains(n - 1)) by {
                    if union_rows(cur, flim as int).contains(n - 1) {
                        let f = choose|f: usize| f < flim && #[trigger] t.row(f).contains(n - 1);
                        assert(t_ref.row(f).contains(n - 1));
                    }
                }
            }
            let mut next = t.clone();
            proof {
                assert forall|g: usize| #[trigger] next.row(g) == t.row(g) by {
                    next.lemma_same_blocks(t, g);
                }
            }
            self.live_step_into(t_ref, &mut next);
            proof {
                assert(rows_same(ref2_rows(t_ref), cur, flim as int)) by {
                    assert forall|g: usize| g < flim implies #[trigger] ref2_rows(t_ref)(g) == cur(g) by {
                        assert(t_ref.row(g) == t.row(g));
                        assert(rows2(t)(g) == cur(g));
                    }
                }
                assert forall|g: usize| g < flim implies #[trigger] next.row(g) == self.reach_rows(ws, sr, (k + 1) as nat)(g) by {
                    lemma_live_step_agree(*self, ws, ref2_rows(t_ref), cur, g);
                    assert(rows2(t)(g) == cur(g));
                    assert(self.reach_rows(ws, sr, (k + 1) as nat)(g) == cur(g).union(
                        self.live_step(ws, cur, self.entries().len() as int, g),
                    ));
                }
                assert forall|f: usize, x: int| f < flim && #[trigger] next.row(f).contains(x) implies 0 <= x < n by {
                    if !t.row(f).contains(x) {
                        let m = self.entries().len() as int;
                        let i = choose|i: int| 0 <= i < m && ws.contains(i as usize) && #[trigger] step_upto(n as int, self.class_rows(i), ref2_rows(t_ref), flim as int, f).contains(x);
                        let (f2, d) = choose|f2: usize, d: int| f2 < flim && f2 <= f && #[trigger] ref2_rows(t_ref)(f2).contains(d) && 0 <= d < n && self.class_rows(i)(d as usize, (f - f2) as usize).contains(x);
                        assert(row_set(self.entries()[i].0, blocks_for(n as int), d * flim + (f - f2)).contains(x));
                    }
                }
                next.lemma_wf_sizes();
                t.lemma_wf_sizes();
                next.lemma_equal_rows(&t);
            }
            if next.equals(&t) {
                proof {
                    let kn = k as nat;
                    assert(rows_same(self.reach_rows(ws, sr, kn + 1), self.reach_rows(ws, sr, kn), flim as int)) by {
                        assert forall|g: usize| g < flim implies #[trigger] self.reach_rows(ws, sr, kn + 1)(g) == self.reach_rows(ws, sr, kn)(g) by {
                            assert(next.row(g) == t.row(g));
                            assert(rows2(t)(g) == cur(g));
                        }
                    }
                    assert(!union_rows(cur, flim as int).contains(n - 1)) by {
                        if union_rows(cur, flim as int).contains(n - 1) {
                            let f = choose|f: usize| f < flim && #[trigger] t.row(f).contains(n - 1);
                            assert(t_ref.row(f).contains(n - 1));
                        }
                    }
                    assert(!self.leads_to_success(ws, depth as nat, src as int)) by {
                        if self.leads_to_success(ws, depth as nat, src as int) {
                            let j = choose|j: nat| j <= depth && #[trigger] union_rows(self.reach_rows(ws, sr, j), flim as int).contains(n - 1);
                            if j >= k {
                                lemma_reach_fixpoint(*self, ws, sr, kn, j);
                                assert(rows_same(self.reach_rows(ws, sr, j), self.reach_rows(ws, sr, kn), flim as int));
                                let f = choose|f: usize| f < flim && #[trigger] self.reach_rows(ws, sr, j)(f).contains(n - 1);
                                assert(self.reach_rows(ws, sr, j)(f) == self.reach_rows(ws, sr, kn)(f));
                                assert(union_rows(cur, flim as int).contains(n - 1));
                            }
                        }
                    }
                }
                return false;
            }
            t = next;
            proof {
                assert(rows_same(rows2(t), self.reach_rows(ws, sr, (k + 1) as nat), flim as int)) by {
                    assert forall|g: usize| g < flim implies #[trigger] rows2(t)(g) == self.reach_rows(ws, sr, (k + 1) as nat)(g) by {
                    }
                }
                assert forall|j: nat| j < k + 1 implies !#[trigger] union_rows(self.reach_rows(ws, sr, j), flim as int).contains(n - 1) by {
                    if j == k {
                        assert(cur == self.reach_rows(ws, sr, j));
                    }
                }
            }
            k += 1;
        }
    }

    /// The states from which phrases reach the success state (see
    /// `leads_to_success`).
    fn candidate_srcs(&self, depth: usize) -> (r: BitSet1D)
        requires
            self.wf(),
        ensures
            r.wf(),
            r.row_len() == blocks_for(self.n() as int),
            forall|x: int| #[trigger] r@.contains(x) == (0 <= x < self.n() && self.leads_to_success(self.word_class_list(), depth as nat, x)),
    {
        let n = self.states_len;
        proof {
            self.start_states.lemma_wf_sizes();
        }
        let mut c = BitSet1D::new((), n);
        let mut src: usize = 0;
        while src < n
            invariant
                self.wf(),
                n == self.n(),
                src <= n,
                c.wf(),
                c.row_len() == blocks_for(n as int),
                c.capacity() >= n,
                forall|x: int| #[trigger] c@.contains(x) == (0 <= x < src && self.leads_to_success(self.word_class_list(), depth as nat, x)),
            decreases n - src,
        {
            if self.src_leads(src, depth) {
                c.insert_one(src);
            }
            src += 1;
        }
        c
    }
}


impl PhraseMatcher {
    /// Row `(s, f)` of class `c` holds state `x`.
    pub open spec fn class_has(&self, c: int, s: int, f: usize, x: int) -> bool {
        self.class_rows(c)(s as usize, f).contains(x)
    }

    /// By class `c` at fuzz `f`, states `i` and `j` lead to the same states of
    /// `useful` and are led to from the same states of `useful`.
    pub open spec fn io_match(&self, useful: Set<int>, c: int, f: usize, i: int, j: int) -> bool {
        &&& forall|d: int| useful.contains(d) ==> (#[trigger] self.class_has(c, i, f, d)) == self.class_has(c, j, f, d)
        &&& forall|s: int| useful.contains(s) ==> (#[trigger] self.class_has(c, s, f, i)) == self.class_has(c, s, f, j)
    }

    /// States `i` and `j` behave the same within `useful` for every class among `ws`
    /// at every fuzz (see `io_match`).
    pub open spec fn same_io(&self, ws: Seq<usize>, useful: Set<int>, i: int, j: int) -> bool {
        forall|c: int, f: usize|
            0 <= c < self.entries().len() && ws.contains(c as usize) && f < self.flim() ==> #[trigger] self.io_match(
                useful,
                c,
                f,
                i,
                j,
            )
    }

    /// The marks after state `i` has been compared with the states from `i + 1` below
    /// `j`: each that is still unmarked and behaves as `i` is marked as `i`'s.
    pub open spec fn red_inner(&self, ws: Seq<usize>, useful: Set<int>, r: Seq<Option<usize>>, i: int, j: int) -> Seq<Option<usize>>
        decreases j - i,
    {
        if j <= i + 1 {
            r
        } else {
            let r2 = self.red_inner(ws, useful, r, i, j - 1);
            if r2[j - 1] is None && self.same_io(ws, useful, i, j - 1) {
                r2.update(j - 1, Some(i as usize))
            } else {
                r2
            }
        }
    }

    /// The marks after the states below `i` have been handled: a state outside
    /// `useful` is marked as itself, and each unmarked state marks the later ones
    /// (but the last) that behave as it does.
    pub open spec fn red_outer(&self, ws: Seq<usize>, useful: Set<int>, i: int) -> Seq<Option<usize>>
        decreases i,
    {
        if i <= 0 {
            Seq::new(self.n() as nat, |s: int| if useful.contains(s) { None } else { Some(s as usize) })
        } else {
            let r = self.red_outer(ws, useful, i - 1);
            if r[i - 1] is None {
                self.red_inner(ws, useful, r, i - 1, self.n() - 1)
            } else {
                r
            }
        }
    }
}

proof fn lemma_red_inner_len(pm: PhraseMatcher, ws: Seq<usize>, useful: Set<int>, r: Seq<Option<usize>>, i: int, j: int)
    requires
        0 <= i,
        j <= r.len(),
    ensures
        pm.red_inner(ws, useful, r, i, j).len() == r.len(),
    decreases j - i,
{
    if j > i + 1 {
        lemma_red_inner_len(pm, ws, useful, r, i, j - 1);
    }
}

proof fn lemma_red_outer_len(pm: PhraseMatcher, ws: Seq<usize>, useful: Set<int>, i: int)
    requires
        pm.n() >= 1,
    ensures
        pm.red_outer(ws, useful, i).len() == pm.n(),
    decreases i,
{
    if i > 0 {
        lemma_red_outer_len(pm, ws, useful, i - 1);
        lemma_red_inner_len(pm, ws, useful, pm.red_outer(ws, useful, i - 1), i - 1, pm.n() - 1);
    }
}

impl PhraseMatcher {
    /// Whether, by class `c` at fuzz `f`, states `i` and `j` behave the same within
    /// `useful` (see `io_match`).
    fn class_io_match(&self, table: BitSetRef3D<'_>, useful: &BitSet1D, c: usize, f: usize, i: usize, j: usize) -> (r: bool)
        requires
            self.wf(),
            c < self.entries().len(),
            table3_ok(table, self.n(), self.flim()),
            forall|s: usize, g: usize| #[trigger] table.row((s, g)) == self.class_rows(c as int)(s, g),
            f < self.flim(),
            i < self.n(),
            j < self.n(),
            forall|x: int| #[trigger] useful@.contains(x) ==> 0 <= x < self.n(),
        ensures
            r == self.io_match(useful@, c as int, f, i as int, j as int),
    {
        let n = self.states_len;
        let mut x: usize = 0;
        while x < n
            invariant
                self.wf(),
                n == self.n(),
                c < self.entries().len(),
                table3_ok(table, n, self.flim()),
                forall|s: usize, g: usize| #[trigger] table.row((s, g)) == self.class_rows(c as int)(s, g),
                f < self.flim(),
                i < n,
                j < n,
                x <= n,
                forall|y: int| 0 <= y < x && useful@.contains(y) ==> (#[trigger] self.class_has(c as int, i as int, f, y)) == self.class_has(c as int, j as int, f, y),
                forall|y: int| 0 <= y < x && useful@.contains(y) ==> (#[trigger] self.class_has(c as int, y, f, i as int)) == self.class_has(c as int, y, f, j as int),
            decreases n - x,
        {
            if useful.has(x) {
                let out_i = table.slice((i, f)).contains(x);
                let out_j = table.slice((j, f)).contains(x);
                let in_i = table.slice((x, f)).contains(i);
                let in_j = table.slice((x, f)).contains(j);
                proof {
                    assert(table.row((i, f)) == self.class_rows(c as int)(i, f));
                    assert(table.row((j, f)) == self.class_rows(c as int)(j, f));
                    assert(table.row((x, f)) == self.class_rows(c as int)(x, f));
                }
                if out_i != out_j || in_i != in_j {
                    proof {
                        if out_i != out_j {
                            assert(self.class_has(c as int, i as int, f, x as int) != self.class_has(c as int, j as int, f, x as int));
                        } else {
                            assert(self.class_has(c as int, x as int, f, i as int) != self.class_has(c as int, x as int, f, j as int));
                        }
                    }
                    return false;
                }
            }
            x += 1;
        }
        true
    }

    /// Whether states `i` and `j` behave the same within `useful` (see `same_io`).
    fn same_io_exec(&self, useful: &BitSet1D, i: usize, j: usize) -> (r: bool)
        requires
            self.wf(),
            i < self.n(),
            j < self.n(),
            forall|x: int| #[trigger] useful@.contains(x) ==> 0 <= x < self.n(),
        ensures
            r == self.same_io(self.word_class_list(), useful@, i as int, j as int),
    {
        let ghost ws = self.word_class_list();
        let flim = self.fuzz_limit;
        let classes_count = classes_len(&self.classes);
        let mut f: usize = 0;
        while f < flim
            invariant
                self.wf(),
                ws == self.word_class_list(),
                flim == self.flim(),
                classes_count == self.entries().len(),
                i < self.n(),
                j < self.n(),
                forall|x: int| #[trigger] useful@.contains(x) ==> 0 <= x < self.n(),
                f <= flim,
                forall|c: int, g: usize|
                    0 <= c < classes_count && ws.contains(c as usize) && g < f ==> #[trigger] self.io_match(useful@, c, g, i as int, j as int),
            decreases flim - f,
        {
            let mut c: usize = 0;
            while c < classes_count
                invariant
                    self.wf(),
                    ws == self.word_class_list(),
                    flim == self.flim(),
                    classes_count == self.entries().len(),
                    i < self.n(),
                    j < self.n(),
                    forall|x: int| #[trigger] useful@.contains(x) ==> 0 <= x < self.n(),
                    f < flim,
                    c <= classes_count,
                    forall|c2: int, g: usize|
                        0 <= c2 < classes_count && ws.contains(c2 as usize) && g < f ==> #[trigger] self.io_match(useful@, c2, g, i as int, j as int),
                    forall|c2: int| 0 <= c2 < c && ws.contains(c2 as usize) ==> #[trigger] self.io_match(useful@, c2, f, i as int, j as int),
                decreases classes_count - c,
            {
                let count = match classes_get_index(&self.classes, c) {
                    Some((_, cl)) => cl.words_count,
                    None => 0,
                };
                proof {
                    lemma_count_of_contains(ws, c as int);
                }
                if count != 0 {
                    let table = self.class_table(c);
                    if !self.class_io_match(table, useful, c, f, i, j) {
                        proof {
                            assert(!self.io_match(useful@, c as int, f, i as int, j as int));
                        }
                        return false;
                    }
                }
                c += 1;
            }
            proof {
                assert forall|c2: int, g: usize|
                    0 <= c2 < classes_count && ws.contains(c2 as usize) && g < f + 1 implies #[trigger] self.io_match(useful@, c2, g, i as int, j as int) by {
                    if g == f {
                    }
                }
            }
            f += 1;
        }
        true
    }

    /// Marks the states that are not useful, or that behave as an earlier unmarked
    /// state (see `red_outer`).
    fn redundant_states(&self, useful: &BitSet1D) -> (r: Vec<Option<usize>>)
        requires
            self.wf(),
            forall|x: int| #[trigger] useful@.contains(x) ==> 0 <= x < self.n(),
        ensures
            r@ == self.red_outer(self.word_class_list(), useful@, self.n() as int),
    {
        let ghost ws = self.word_class_list();
        let n = self.states_len;
        let mut red: Vec<Option<usize>> = Vec::new();
        let mut s: usize = 0;
        while s < n
            invariant
                s <= n,
                n == self.n(),
                red@.len() == s,
                forall|k: int| 0 <= k < s ==> #[trigger] red@[k] == (if useful@.contains(k) { None } else { Some(k as usize) }),
            decreases n - s,
        {
            if useful.has(s) {
                red.push(None);
            } else {
                red.push(Some(s));
            }
            s += 1;
        }
        proof {
            assert(red@ =~= self.red_outer(ws, useful@, 0));
        }
        let mut i: usize = 0;
        while i < n
            invariant
                self.wf(),
                ws == self.word_class_list(),
                n == self.n(),
                i <= n,
                forall|x: int| #[trigger] useful@.contains(x) ==> 0 <= x < self.n(),
                red@ == self.red_outer(ws, useful@, i as int),
            decreases n - i,
        {
            proof {
                lemma_red_outer_len(*self, ws, useful@, i as int);
            }
            let ghost r0 = red@;
            if red[i].is_none() {
                let mut j: usize = i + 1;
                while j < n - 1
                    invariant
                        self.wf(),
                        ws == self.word_class_list(),
                        n == self.n(),
                        i < n,
                        i + 1 <= j,
                        j <= n - 1 || j == i + 1,
                        forall|x: int| #[trigger] useful@.contains(x) ==> 0 <= x < self.n(),
                        r0.len() == n,
                        red@ == self.red_inner(ws, useful@, r0, i as int, j as int),
                    decreases n - j,
                {
                    proof {
                        lemma_red_inner_len(*self, ws, useful@, r0, i as int, j as int);
                    }
                    if red[j].is_none() && self.same_io_exec(useful, i, j) {
                        red.set(j, Some(i));
                    }
                    j += 1;
                }
                proof {
                    assert(red@ == self.red_inner(ws, useful@, r0, i as int, n - 1)) by {
                        if (i + 1) as int > n - 1 {
                            assert(self.red_inner(ws, useful@, r0, i as int, n - 1) == r0);
                        }
                    }
                }
            }
            i += 1;
        }
        red
    }
}


/// Every mark names the state itself, or an earlier unmarked state below `bound`.
pub open spec fn marks_ok(r: Seq<Option<usize>>, bound: int) -> bool {
    forall|s: int|
        0 <= s < r.len() && #[trigger] r[s] is Some ==> r[s]->0 == s || (r[s]->0 < bound && r[s]->0 < s
            && r[r[s]->0 as int] is None)
}

proof fn lemma_red_inner_marks(pm: PhraseMatcher, ws: Seq<usize>, useful: Set<int>, r: Seq<Option<usize>>, i: int, j: int)
    requires
        0 <= i,
        i < r.len(),
        r.len() <= usize::MAX,
        j <= r.len(),
        r[i] is None,
        marks_ok(r, i),
    ensures
        marks_ok(pm.red_inner(ws, useful, r, i, j), i + 1),
        pm.red_inner(ws, useful, r, i, j).len() == r.len(),
        forall|k: int| 0 <= k < r.len() && (k <= i || k >= j) ==> #[trigger] pm.red_inner(ws, useful, r, i, j)[k] == r[k],
    decreases j - i,
{
    if j > i + 1 {
        lemma_red_inner_marks(pm, ws, useful, r, i, j - 1);
        let r2 = pm.red_inner(ws, useful, r, i, j - 1);
        if r2[j - 1] is None && pm.same_io(ws, useful, i, j - 1) {
            let r3 = r2.update(j - 1, Some(i as usize));
            assert(r2[i] == r[i]);
            assert forall|s: int| 0 <= s < r3.len() && #[trigger] r3[s] is Some implies r3[s]->0 == s || (r3[s]->0 < i + 1 && r3[s]->0 < s
                && r3[r3[s]->0 as int] is None) by {
                if s != j - 1 {
                    assert(r3[s] == r2[s]);
                    assert(r2[s] is Some);
                    let t = r2[s]->0 as int;
                    if t != s {
                        assert(t < i + 1 && t < s && r2[t] is None);
                        assert(t != j - 1);
                        assert(r3[t] == r2[t]);
                    }
                } else {
                    assert(r3[s] == Some(i as usize));
                    assert(r3[i] == r2[i]);
                    assert(r2[i] == r[i]);
                }
            }
        }
    }
}

proof fn lemma_red_outer_marks(pm: PhraseMatcher, ws: Seq<usize>, useful: Set<int>, i: int)
    requires
        pm.n() >= 1,
        0 <= i <= pm.n(),
    ensures
        marks_ok(pm.red_outer(ws, useful, i), i),
        pm.red_outer(ws, useful, i).len() == pm.n(),
        pm.red_outer(ws, useful, i)[pm.n() - 1] == (if useful.contains(pm.n() - 1) { None } else { Some((pm.n() - 1) as usize) }),
    decreases i,
{
    lemma_red_outer_len(pm, ws, useful, i);
    if i > 0 {
        lemma_red_outer_marks(pm, ws, useful, i - 1);
        let r = pm.red_outer(ws, useful, i - 1);
        if r[i - 1] is None {
            assert(marks_ok(r, i - 1)) by {
                assert forall|s: int| 0 <= s < r.len() && #[trigger] r[s] is Some implies r[s]->0 == s || (r[s]->0 < i - 1 && r[s]->0 < s
                    && r[r[s]->0 as int] is None) by {
                    if r[s]->0 != s {
                        assert(r[s]->0 != i - 1);
                    }
                }
            }
            lemma_red_inner_marks(pm, ws, useful, r, i - 1, pm.n() - 1);
        } else {
            assert(marks_ok(r, i)) by {
                assert forall|s: int| 0 <= s < r.len() && #[trigger] r[s] is Some implies r[s]->0 == s || (r[s]->0 < i && r[s]->0 < s
                    && r[r[s]->0 as int] is None) by {
                }
            }
        }
    } else {
        let r = pm.red_outer(ws, useful, 0);
        assert forall|s: int| 0 <= s < r.len() && #[trigger] r[s] is Some implies r[s]->0 == s by {
        }
    }
}

/// The new position of state `i` among the unmarked states, if it is unmarked.
pub open spec fn new_index(red: Seq<Option<usize>>, i: int) -> Option<usize> {
    if red[i] is None {
        Some(kept(red, i) as usize)
    } else {
        None
    }
}

/// The new state that state `s`'s rows go to: its own new position, or that of the
/// state it is marked as; none for a state marked as itself.
pub open spec fn rep(red: Seq<Option<usize>>, s: int) -> Option<usize> {
    match red[s] {
        None => Some(kept(red, s) as usize),
        Some(t) => if t == s {
            None
        } else {
            Some(kept(red, t as int) as usize)
        },
    }
}

/// A table's rows over the unmarked states (see `rep` and `new_index`).
pub open spec fn remap_rows(red: Seq<Option<usize>>, n: int, rows: spec_fn(usize, usize) -> Set<int>) -> spec_fn(usize, usize) -> Set<int> {
    |ns: usize, f: usize|
        Set::new(
            |nd: int|
                exists|s: int, d: int|
                    0 <= s < n && 0 <= d < n && rep(red, s) == Some(ns) && red[d] is None && kept(red, d) == nd
                        && #[trigger] rows(s as usize, f).contains(d),
        )
}

/// Some row of a table, over the unmarked states, holds a state.
pub open spec fn remap_nonempty(red: Seq<Option<usize>>, n: int, flim: int, rows: spec_fn(usize, usize) -> Set<int>) -> bool {
    exists|s: int, f: usize, d: int|
        0 <= s < n && f < flim && 0 <= d < n && rep(red, s) is Some && red[d] is None && #[trigger] rows(s as usize, f).contains(d)
}

/// A set of states over the unmarked states.
pub open spec fn remap_set(red: Seq<Option<usize>>, n: int, set: Set<int>) -> Set<int> {
    Set::new(|nd: int| exists|d: int| 0 <= d < n && red[d] is None && kept(red, d) == nd && #[trigger] set.contains(d))
}

/// The new positions of the states (see `new_index`), and how many are unmarked.
fn new_positions(red: &Vec<Option<usize>>) -> (r: (Vec<Option<usize>>, usize))
    ensures
        r.0@.len() == red@.len(),
        forall|i: int| 0 <= i < red@.len() ==> #[trigger] r.0@[i] == new_index(red@, i),
        r.1 == kept(red@, red@.len() as int),
{
    let mut v: Vec<Option<usize>> = Vec::new();
    let mut count: usize = 0;
    let mut i: usize = 0;
    while i < red.len()
        invariant
            i <= red@.len(),
            v@.len() == i,
            count == kept(red@, i as int),
            count <= i,
            forall|k: int| 0 <= k < i ==> #[trigger] v@[k] == new_index(red@, k),
        decreases red@.len() - i,
    {
        proof {
            lemma_kept_nonneg(red@, i as int);
        }
        if red[i].is_none() {
            v.push(Some(count));
            count += 1;
        } else {
            v.push(None);
        }
        i += 1;
    }
    (v, count)
}


/// The part of `remap_rows` from the states below `m`, and from state `m` at the
/// fuzz values below `fcut`.
pub open spec fn remap_part(red: Seq<Option<usize>>, n: int, rows: spec_fn(usize, usize) -> Set<int>, m: int, fcut: int) -> spec_fn(usize, usize) -> Set<int> {
    |ns: usize, g: usize|
        Set::new(
            |nd: int|
                exists|s: int, d: int|
                    0 <= s < n && 0 <= d < n && (s < m || (s == m && g < fcut)) && rep(red, s) == Some(ns) && red[d] is None && kept(red, d) == nd && #[trigger] rows(s as usize, g).contains(d),
        )
}

/// The part of `remap_nonempty` from the states below `m`, and from state `m` at the
/// fuzz values below `fcut`.
pub open spec fn nonempty_part(red: Seq<Option<usize>>, n: int, flim: int, rows: spec_fn(usize, usize) -> Set<int>, m: int, fcut: int) -> bool {
    exists|s: int, g: usize, d: int|
        0 <= s < n && g < flim && (s < m || (s == m && g < fcut)) && 0 <= d < n && rep(red, s) is Some && red[d] is None
            && #[trigger] rows(s as usize, g).contains(d)
}

/// An unmarked state's new position is below the number of unmarked states.
proof fn lemma_new_index_bound(red: Seq<Option<usize>>, i: int)
    requires
        0 <= i < red.len(),
        red[i] is None,
    ensures
        0 <= kept(red, i) < kept(red, red.len() as int),
{
    lemma_kept_nonneg(red, i);
    lemma_kept_mono(red, i + 1, red.len() as int);
}

/// Fewer states fit where more do.
proof fn lemma_shape_smaller(n: int, m: int, flim: int)
    requires
        table_shape_ok(n, flim),
        1 <= m <= n <= usize::MAX,
        flim <= usize::MAX,
    ensures
        table_shape_ok(m, flim),
{
    assert((m as usize) as int == m);
    assert((n as usize) as int == n);
    assert((flim as usize) as int == flim);
    let rb = blocks_for(n);
    let rbm = blocks_for(m);
    assert(rbm <= rb);
    assert(0 <= m * flim <= n * flim) by (nonlinear_arith)
        requires
            1 <= m <= n,
            1 <= flim,
    ;
    assert(0 <= m * flim * rbm <= n * flim * rb) by (nonlinear_arith)
        requires
            0 <= m * flim <= n * flim,
            0 <= rbm <= rb,
    ;
    assert(0 <= flim * rbm <= flim * rb) by (nonlinear_arith)
        requires
            1 <= flim,
            0 <= rbm <= rb,
    ;
    assert(m * flim * rbm * 64 <= n * flim * rb * 64) by (nonlinear_arith)
        requires
            0 <= m * flim * rbm <= n * flim * rb,
    ;
    assert(flim * rbm * 64 <= flim * rb * 64) by (nonlinear_arith)
        requires
            0 <= flim * rbm <= flim * rb,
    ;
}

impl PhraseMatcher {
    /// The new positions of the states of row `(src, f)` of a table that are unmarked.
    fn remap_row(&self, table: BitSetRef3D<'_>, src: usize, f: usize, red: &Vec<Option<usize>>, pos: &Vec<Option<usize>>, new_n: usize) -> (r: (BitSet1D, bool))
        requires
            self.wf(),
            table3_ok(table, self.n(), self.flim()),
            src < self.n(),
            f < self.flim(),
            red@.len() == self.n(),
            pos@.len() == self.n(),
            forall|i: int| 0 <= i < self.n() ==> #[trigger] pos@[i] == new_index(red@, i),
            new_n == kept(red@, self.n() as int),
            1 <= new_n <= self.n(),
        ensures
            r.0.wf(),
            r.0.row_len() == blocks_for(new_n as int),
            r.0@ == Set::new(
                |nd: int|
                    exists|d: int|
                        0 <= d < self.n() && red@[d] is None && kept(red@, d) == nd && #[trigger] table.row((src, f)).contains(d),
            ),
            forall|x: int| #[trigger] r.0@.contains(x) ==> 0 <= x < new_n,
            r.1 == exists|d: int| 0 <= d < self.n() && red@[d] is None && #[trigger] table.row((src, f)).contains(d),
    {
        let n = self.states_len;
        let ghost target = Set::new(
            |nd: int|
                exists|d: int|
                    0 <= d < n && red@[d] is None && kept(red@, d) == nd && #[trigger] table.row((src, f)).contains(d),
        );
        proof {
            lemma_shape_smaller(n as int, new_n as int, self.flim() as int);
            let flim = self.flim() as int;
            let rbm = blocks_for(new_n as int);
            assert(1 * rbm * 64 <= usize::MAX) by (nonlinear_arith)
                requires
                    flim * rbm * 64 <= usize::MAX,
                    1 <= flim,
                    0 <= rbm,
            ;
        }
        let mut row = BitSet1D::new((), new_n);
        let mut any = false;
        let slice = table.slice((src, f));
        proof {
            slice.lemma_single_row();
        }
        let mut d: usize = 0;
        while d < n
            invariant
                n == self.n(),
                d <= n,
                red@.len() == n,
                pos@.len() == n,
                forall|i: int| 0 <= i < n ==> #[trigger] pos@[i] == new_index(red@, i),
                new_n == kept(red@, n as int),
                row.wf(),
                row.row_len() == blocks_for(new_n as int),
                row.capacity() >= new_n,
                slice@ == table.row((src, f)),
                row@ == Set::new(
                    |nd: int|
                        exists|d2: int|
                            0 <= d2 < d && red@[d2] is None && kept(red@, d2) == nd && #[trigger] table.row((src, f)).contains(d2),
                ),
                forall|x: int| #[trigger] row@.contains(x) ==> 0 <= x < new_n,
                any == exists|d2: int| 0 <= d2 < d && red@[d2] is None && #[trigger] table.row((src, f)).contains(d2),
            decreases n - d,
        {
            let ghost before = row@;
            if slice.contains(d) {
                match pos[d] {
                    Some(nd) => {
                        proof {
                            assert(red@[d as int] is None);
                            lemma_new_index_bound(red@, d as int);
                        }
                        row.insert_one(nd);
                        any = true;
                        proof {
                            assert(table.row((src, f)).contains(d as int));
                        }
                    },
                    None => {},
                }
            }
            proof {
                let want = Set::new(
                    |nd: int|
                        exists|d2: int|
                            0 <= d2 < d + 1 && red@[d2] is None && kept(red@, d2) == nd && #[trigger] table.row((src, f)).contains(d2),
                );
                assert forall|nd: int| #[trigger] row@.contains(nd) == want.contains(nd) by {
                    if want.contains(nd) {
                        let d2 = choose|d2: int| 0 <= d2 < d + 1 && red@[d2] is None && kept(red@, d2) == nd && #[trigger] table.row((src, f)).contains(d2);
                        if d2 < d {
                            assert(before.contains(nd));
                        }
                    }
                    if before.contains(nd) {
                        let d2 = choose|d2: int| 0 <= d2 < d && red@[d2] is None && kept(red@, d2) == nd && #[trigger] table.row((src, f)).contains(d2);
                        assert(want.contains(nd));
                    }
                }
                assert(row@ =~= want);
                if exists|d2: int| 0 <= d2 < d + 1 && red@[d2] is None && #[trigger] table.row((src, f)).contains(d2) {
                    let d2 = choose|d2: int| 0 <= d2 < d + 1 && red@[d2] is None && #[trigger] table.row((src, f)).contains(d2);
                    if d2 == d {
                        assert(pos@[d as int] is Some);
                    }
                }
            }
            d += 1;
        }
        proof {
            assert(row@ =~= target);
        }
        (row, any)
    }
}


impl PhraseMatcher {
    /// A table over the unmarked states (see `remap_rows`), and whether some row of
    /// it holds a state (see `remap_nonempty`).
    fn remap_table(&self, table: BitSetRef3D<'_>, red: &Vec<Option<usize>>, pos: &Vec<Option<usize>>, new_n: usize) -> (r: (BitSet3D, bool))
        requires
            self.wf(),
            table3_ok(table, self.n(), self.flim()),
            red@.len() == self.n(),
            pos@.len() == self.n(),
            forall|i: int| 0 <= i < self.n() ==> #[trigger] pos@[i] == new_index(red@, i),
            new_n == kept(red@, self.n() as int),
            1 <= new_n <= self.n(),
            marks_ok(red@, self.n() as int),
        ensures
            r.0.wf(),
            r.0.shape() == (new_n, self.flim()),
            r.0.row_len() == blocks_for(new_n as int),
            forall|ns: usize, f: usize|
                ns < new_n && f < self.flim() ==> #[trigger] r.0.row((ns, f)) == remap_rows(red@, self.n() as int, ref3_rows(table))(ns, f),
            forall|ns: usize, f: usize, x: int|
                ns < new_n && f < self.flim() && #[trigger] r.0.row((ns, f)).contains(x) ==> 0 <= x < new_n,
            r.1 == remap_nonempty(red@, self.n() as int, self.flim() as int, ref3_rows(table)),
    {
        let n = self.states_len;
        let flim = self.fuzz_limit;
        let ghost rows = ref3_rows(table);
        proof {
            lemma_shape_smaller(n as int, new_n as int, flim as int);
        }
        let mut t = BitSet3D::new((new_n, flim), new_n);
        let mut nonempty = false;
        let mut src: usize = 0;
        proof {
            assert forall|ns: usize, g: usize| ns < new_n && g < flim implies #[trigger] t.row((ns, g)) == remap_part(red@, n as int, rows, 0, 0)(ns, g) by {
                assert(remap_part(red@, n as int, rows, 0, 0)(ns, g) =~= Set::<int>::empty());
            }
        }
        while src < n
            invariant
                self.wf(),
                n == self.n(),
                flim == self.flim(),
                rows == ref3_rows(table),
                table3_ok(table, n, flim),
                red@.len() == n,
                pos@.len() == n,
                forall|i: int| 0 <= i < n ==> #[trigger] pos@[i] == new_index(red@, i),
                new_n == kept(red@, n as int),
                1 <= new_n <= n,
                marks_ok(red@, n as int),
                src <= n,
                t.wf(),
                t.shape() == (new_n, flim),
                t.row_len() == blocks_for(new_n as int),
                forall|ns: usize, g: usize| ns < new_n && g < flim ==> #[trigger] t.row((ns, g)) == remap_part(red@, n as int, rows, src as int, 0)(ns, g),
                forall|ns: usize, g: usize, x: int| ns < new_n && g < flim && #[trigger] t.row((ns, g)).contains(x) ==> 0 <= x < new_n,
                nonempty == nonempty_part(red@, n as int, flim as int, rows, src as int, 0),
            decreases n - src,
        {
            let self_marked = match red[src] {
                Some(m) => m == src,
                None => false,
            };
            if !self_marked {
                let new_src = match pos[src] {
                    Some(p) => p,
                    None => match red[src] {
                        Some(m) => match pos[m] {
                            Some(p) => p,
                            None => 0,
                        },
                        None => 0,
                    },
                };
                proof {
                    if red@[src as int] is None {
                        lemma_new_index_bound(red@, src as int);
                    } else {
                        let m = red@[src as int]->0 as int;
                        assert(m < src && red@[m] is None);
                        lemma_new_index_bound(red@, m);
                    }
                    assert(rep(red@, src as int) == Some(new_src));
                    assert(new_src < new_n);
                    assert forall|ns: usize, g: usize| ns < new_n && g < flim implies #[trigger] t.row((ns, g)) == remap_part(red@, n as int, rows, src as int, 0)(ns, g) by {
                    }
                }
                let mut f: usize = 0;
                while f < flim
                    invariant
                        self.wf(),
                        n == self.n(),
                        flim == self.flim(),
                        rows == ref3_rows(table),
                        table3_ok(table, n, flim),
                        red@.len() == n,
                        pos@.len() == n,
                        forall|i: int| 0 <= i < n ==> #[trigger] pos@[i] == new_index(red@, i),
                        new_n == kept(red@, n as int),
                        1 <= new_n <= n,
                        src < n,
                        rep(red@, src as int) == Some(new_src),
                        new_src < new_n,
                        f <= flim,
                        t.wf(),
                        t.shape() == (new_n, flim),
                        t.row_len() == blocks_for(new_n as int),
                        forall|ns: usize, g: usize| ns < new_n && g < flim ==> #[trigger] t.row((ns, g)) == remap_part(red@, n as int, rows, src as int, f as int)(ns, g),
                        forall|ns: usize, g: usize, x: int| ns < new_n && g < flim && #[trigger] t.row((ns, g)).contains(x) ==> 0 <= x < new_n,
                        nonempty == nonempty_part(red@, n as int, flim as int, rows, src as int, f as int),
                    decreases flim - f,
                {
                    let ghost before = t;
                    let (row, any) = self.remap_row(table, src, f, red, pos, new_n);
                    proof {
                        row.lemma_one_row();
                    }
                    t.union_into_row((new_src, f), row.borrow());
                    let ghost was = nonempty;
                    nonempty = nonempty || any;
                    proof {
                        assert forall|ns: usize, g: usize| ns < new_n && g < flim implies #[trigger] t.row((ns, g)) == remap_part(red@, n as int, rows, src as int, f + 1)(ns, g) by {
                            let want = remap_part(red@, n as int, rows, src as int, f + 1)(ns, g);
                            let old_part = remap_part(red@, n as int, rows, src as int, f as int)(ns, g);
                            if ns == new_src && g == f {
                                assert forall|nd: int| #[trigger] t.row((ns, g)).contains(nd) == want.contains(nd) by {
                                    if want.contains(nd) {
                                        let (s2, d) = choose|s2: int, d: int| 0 <= s2 < n && 0 <= d < n && (s2 < src || (s2 == src && g < f + 1)) && rep(red@, s2) == Some(ns) && red@[d] is None && kept(red@, d) == nd && #[trigger] rows(s2 as usize, g).contains(d);
                                        if s2 < src {
                                            assert(old_part.contains(nd));
                                            assert(before.row((ns, g)).contains(nd));
                                        } else {
                                            assert(table.row((src, f)).contains(d));
                                            assert(row@.contains(nd));
                                        }
                                    }
                                    if before.row((ns, g)).contains(nd) {
                                        let (s2, d) = choose|s2: int, d: int| 0 <= s2 < n && 0 <= d < n && (s2 < src || (s2 == src && g < f)) && rep(red@, s2) == Some(ns) && red@[d] is None && kept(red@, d) == nd && #[trigger] rows(s2 as usize, g).contains(d);
                                        assert(want.contains(nd));
                                    }
                                    if row@.contains(nd) {
                                        let d = choose|d: int| 0 <= d < n && red@[d] is None && kept(red@, d) == nd && #[trigger] table.row((src, f)).contains(d);
                                        assert(rows(src as usize, g).contains(d));
                                        assert(want.contains(nd));
                                    }
                                }
                                assert(t.row((ns, g)) =~= want);
                            } else {
                                lemma_rows_distinct(ns as int, g as int, new_src as int, f as int, flim as int);
                                assert(t.row((ns, g)) == before.row((ns, g)));
                                assert forall|nd: int| #[trigger] old_part.contains(nd) == want.contains(nd) by {
                                    if want.contains(nd) {
                                        let (s2, d) = choose|s2: int, d: int| 0 <= s2 < n && 0 <= d < n && (s2 < src || (s2 == src && g < f + 1)) && rep(red@, s2) == Some(ns) && red@[d] is None && kept(red@, d) == nd && #[trigger] rows(s2 as usize, g).contains(d);
                                        if s2 == src && g == f {
                                            assert(ns == new_src);
                                        }
                                    }
                                }
                                assert(old_part =~= want);
                            }
                        }
                        assert forall|ns: usize, g: usize, x: int| ns < new_n && g < flim && #[trigger] t.row((ns, g)).contains(x) implies 0 <= x < new_n by {
                            if ns == new_src && g == f {
                                if !before.row((ns, g)).contains(x) {
                                    assert(row@.contains(x));
                                }
                            } else {
                                lemma_rows_distinct(ns as int, g as int, new_src as int, f as int, flim as int);
                                assert(t.row((ns, g)) == before.row((ns, g)));
                            }
                        }
                        let np = nonempty_part(red@, n as int, flim as int, rows, src as int, f + 1);
                        if np {
                            let (s2, g, d) = choose|s2: int, g: usize, d: int| 0 <= s2 < n && g < flim && (s2 < src || (s2 == src && g < f + 1)) && 0 <= d < n && rep(red@, s2) is Some && red@[d] is None && #[trigger] rows(s2 as usize, g).contains(d);
                            if !(s2 < src || (s2 == src && g < f)) {
                                assert(table.row((src, f)).contains(d));
                            }
                        }
                        if any {
                            let d = choose|d: int| 0 <= d < n && red@[d] is None && #[trigger] table.row((src, f)).contains(d);
                            assert(rows(src as usize, f).contains(d));
                        }
                        assert(nonempty == np);
                    }
                    f += 1;
                }
                proof {
                    assert forall|ns: usize, g: usize| ns < new_n && g < flim implies #[trigger] t.row((ns, g)) == remap_part(red@, n as int, rows, src + 1, 0)(ns, g) by {
                        assert(remap_part(red@, n as int, rows, src as int, flim as int)(ns, g) =~= remap_part(red@, n as int, rows, src + 1, 0)(ns, g));
                    }
                    assert(nonempty_part(red@, n as int, flim as int, rows, src as int, flim as int) == nonempty_part(red@, n as int, flim as int, rows, src + 1, 0));
                }
            } else {
                proof {
                    assert(rep(red@, src as int) is None);
                    assert forall|ns: usize, g: usize| ns < new_n && g < flim implies #[trigger] t.row((ns, g)) == remap_part(red@, n as int, rows, src + 1, 0)(ns, g) by {
                        assert(remap_part(red@, n as int, rows, src as int, 0)(ns, g) =~= remap_part(red@, n as int, rows, src + 1, 0)(ns, g));
                    }
                    assert(nonempty_part(red@, n as int, flim as int, rows, src as int, 0) == nonempty_part(red@, n as int, flim as int, rows, src + 1, 0));
                }
            }
            src += 1;
        }
        proof {
            assert forall|ns: usize, f: usize| ns < new_n && f < flim implies #[trigger] t.row((ns, f)) == remap_rows(red@, n as int, rows)(ns, f) by {
                assert(remap_part(red@, n as int, rows, n as int, 0)(ns, f) =~= remap_rows(red@, n as int, rows)(ns, f));
            }
            assert(nonempty_part(red@, n as int, flim as int, rows, n as int, 0) == remap_nonempty(red@, n as int, flim as int, rows));
        }
        (t, nonempty)
    }
}


impl PhraseMatcher {
    /// The start states over the unmarked states (see `remap_set`).
    fn remap_start(&self, red: &Vec<Option<usize>>, pos: &Vec<Option<usize>>, new_n: usize) -> (r: BitSet1D)
        requires
            self.wf(),
            red@.len() == self.n(),
            pos@.len() == self.n(),
            forall|i: int| 0 <= i < self.n() ==> #[trigger] pos@[i] == new_index(red@, i),
            new_n == kept(red@, self.n() as int),
            1 <= new_n <= self.n(),
        ensures
            r.wf(),
            r.row_len() == blocks_for(new_n as int),
            r@ == remap_set(red@, self.n() as int, self.start()),
            forall|x: int| #[trigger] r@.contains(x) ==> 0 <= x < new_n,
    {
        let n = self.states_len;
        proof {
            lemma_shape_smaller(n as int, new_n as int, self.flim() as int);
            let flim = self.flim() as int;
            let rbm = blocks_for(new_n as int);
            assert(1 * rbm * 64 <= usize::MAX) by (nonlinear_arith)
                requires
                    flim * rbm * 64 <= usize::MAX,
                    1 <= flim,
                    0 <= rbm,
            ;
        }
        let mut r = BitSet1D::new((), new_n);
        let mut i: usize = 0;
        while i < n
            invariant
                self.wf(),
                n == self.n(),
                i <= n,
                red@.len() == n,
                pos@.len() == n,
                forall|k: int| 0 <= k < n ==> #[trigger] pos@[k] == new_index(red@, k),
                new_n == kept(red@, n as int),
                r.wf(),
                r.row_len() == blocks_for(new_n as int),
                r.capacity() >= new_n,
                r@ == Set::new(|nd: int| exists|d: int| 0 <= d < i && red@[d] is None && kept(red@, d) == nd && #[trigger] self.start().contains(d)),
                forall|x: int| #[trigger] r@.contains(x) ==> 0 <= x < new_n,
            decreases n - i,
        {
            let ghost before = r@;
            if self.start_states.has(i) {
                match pos[i] {
                    Some(p) => {
                        proof {
                            lemma_new_index_bound(red@, i as int);
                        }
                        r.insert_one(p);
                    },
                    None => {},
                }
            }
            proof {
                let want = Set::new(|nd: int| exists|d: int| 0 <= d < i + 1 && red@[d] is None && kept(red@, d) == nd && #[trigger] self.start().contains(d));
                assert forall|nd: int| #[trigger] r@.contains(nd) == want.contains(nd) by {
                    if want.contains(nd) {
                        let d = choose|d: int| 0 <= d < i + 1 && red@[d] is None && kept(red@, d) == nd && #[trigger] self.start().contains(d);
                        if d < i {
                            assert(before.contains(nd));
                        } else {
                            assert(self.start_states@.contains(i as int));
                        }
                    }
                    if before.contains(nd) {
                        let d = choose|d: int| 0 <= d < i && red@[d] is None && kept(red@, d) == nd && #[trigger] self.start().contains(d);
                        assert(want.contains(nd));
                    }
                }
                assert(r@ =~= want);
            }
            i += 1;
        }
        proof {
            assert(r@ =~= remap_set(red@, n as int, self.start()));
        }
        r
    }

    /// The classes over the unmarked states: the empty table first, then, each once,
    /// the table of each class with words whose table keeps a state (see
    /// `remap_rows`); and where each class goes, 0 for the others.
    fn remap_classes(&self, red: &Vec<Option<usize>>, pos: &Vec<Option<usize>>, new_n: usize) -> (r: (IndexMap<Vec<u64>, WordClass>, Vec<usize>))
        requires
            self.wf(),
            red@.len() == self.n(),
            pos@.len() == self.n(),
            forall|i: int| 0 <= i < self.n() ==> #[trigger] pos@[i] == new_index(red@, i),
            new_n == kept(red@, self.n() as int),
            1 <= new_n <= self.n(),
            marks_ok(red@, self.n() as int),
        ensures
            ({
                let e2 = class_entries(r.0);
                let rb2 = blocks_for(new_n as int);
                let flim = self.flim() as int;
                &&& e2.len() >= 1
                &&& distinct_keys(e2)
                &&& forall|i: int| 0 <= i < e2.len() ==> (#[trigger] e2[i]).0.len() == new_n * flim * rb2
                &&& forall|i: int| 0 <= i < e2.len() ==> (#[trigger] e2[i]).1.words_count == 0
                &&& forall|i: int, s: usize, f: usize, x: int|
                    0 <= i < e2.len() && s < new_n && f < flim && #[trigger] row_set(e2[i].0, rb2, s * flim + f).contains(x) ==> 0 <= x < new_n
                &&& forall|s: usize, f: usize| s < new_n && f < flim ==> #[trigger] row_set(e2[0].0, rb2, s * flim + f) == Set::<int>::empty()
                &&& r.1@.len() == self.entries().len()
                &&& forall|c: int| 0 <= c < self.entries().len() ==> #[trigger] r.1@[c] < e2.len()
                &&& forall|c: int|
                    0 <= c < self.entries().len() ==> (#[trigger] r.1@[c] != 0) == (self.word_class_list().contains(c as usize)
                        && remap_nonempty(red@, self.n() as int, flim, self.class_rows(c)))
                &&& forall|c: int, s: usize, f: usize|
                    0 <= c < self.entries().len() && r.1@[c] != 0 && s < new_n && f < flim ==> #[trigger] key_rows(e2[r.1@[c] as int].0, flim, rb2)(s, f)
                        == remap_rows(red@, self.n() as int, self.class_rows(c))(s, f)
            }),
    {
        let ghost ws = self.word_class_list();
        let n = self.states_len;
        let flim = self.fuzz_limit;
        let ghost rb2 = blocks_for(new_n as int);
        proof {
            lemma_shape_smaller(n as int, new_n as int, flim as int);
        }
        let empty_table = BitSet3D::new((new_n, flim), new_n);
        proof {
            empty_table.lemma_wf_sizes();
            assert forall|s: usize, f: usize| #[trigger] row_set(empty_table.blocks_view(), rb2, s * flim + f) == empty_table.row((s, f)) by {
                empty_table.lemma_row_def((s, f));
            }
        }
        let mut new_classes = classes_new();
        classes_insert_full(&mut new_classes, empty_table.blocks_vec(), WordClass::default());
        let classes_count = classes_len(&self.classes);
        let mut class_map: Vec<usize> = Vec::new();
        let mut c: usize = 0;
        while c < classes_count
            invariant
                self.wf(),
                ws == self.word_class_list(),
                n == self.n(),
                flim == self.flim(),
                rb2 == blocks_for(new_n as int),
                classes_count == self.entries().len(),
                red@.len() == n,
                pos@.len() == n,
                forall|i: int| 0 <= i < n ==> #[trigger] pos@[i] == new_index(red@, i),
                new_n == kept(red@, n as int),
                1 <= new_n <= n,
                marks_ok(red@, n as int),
                table_shape_ok(new_n as int, flim as int),
                c <= classes_count,
                class_map@.len() == c,
                ({
                    let e2 = class_entries(new_classes);
                    &&& e2.len() >= 1
                    &&& distinct_keys(e2)
                    &&& forall|i: int| 0 <= i < e2.len() ==> (#[trigger] e2[i]).0.len() == new_n * flim * rb2
                    &&& forall|i: int| 0 <= i < e2.len() ==> (#[trigger] e2[i]).1.words_count == 0
                    &&& forall|i: int, s: usize, f: usize, x: int|
                        0 <= i < e2.len() && s < new_n && f < flim && #[trigger] row_set(e2[i].0, rb2, s * flim + f).contains(x) ==> 0 <= x < new_n
                    &&& forall|s: usize, f: usize| s < new_n && f < flim ==> #[trigger] row_set(e2[0].0, rb2, s * flim + f) == Set::<int>::empty()
                    &&& forall|k: int| 0 <= k < c ==> #[trigger] class_map@[k] < e2.len()
                    &&& forall|k: int|
                        0 <= k < c ==> (#[trigger] class_map@[k] != 0) == (ws.contains(k as usize) && remap_nonempty(
                            red@,
                            n as int,
                            flim as int,
                            self.class_rows(k),
                        ))
                    &&& forall|k: int, s: usize, f: usize|
                        0 <= k < c && class_map@[k] != 0 && s < new_n && f < flim ==> #[trigger] key_rows(e2[class_map@[k] as int].0, flim as int, rb2)(s, f)
                            == remap_rows(red@, n as int, self.class_rows(k))(s, f)
                }),
            decreases classes_count - c,
        {
            let ghost e2 = class_entries(new_classes);
            let count = match classes_get_index(&self.classes, c) {
                Some((_, cl)) => cl.words_count,
                None => 0,
            };
            proof {
                lemma_count_of_contains(ws, c as int);
            }
            let mut target: usize = 0;
            if count != 0 {
                let table = self.class_table(c);
                let (t, nonempty) = self.remap_table(table, red, pos, new_n);
                proof {
                    assert(ref3_rows(table) =~= self.class_rows(c as int));
                }
                if nonempty {
                    let key = t.blocks_vec();
                    proof {
                        t.lemma_wf_sizes();
                        assert forall|s: usize, f: usize| #[trigger] row_set(key@, rb2, s * flim + f) == t.row((s, f)) by {
                            t.lemma_row_def((s, f));
                        }
                        // the table keeps a state, so its key is not the empty table's
                        let (s0, f0, d0) = choose|s0: int, f0: usize, d0: int|
                            0 <= s0 < n && f0 < flim && 0 <= d0 < n && rep(red@, s0) is Some && red@[d0] is None && #[trigger] self.class_rows(c as int)(s0 as usize, f0).contains(d0);
                        let ns = rep(red@, s0)->0;
                        if red@[s0] is None {
                            lemma_new_index_bound(red@, s0);
                        } else {
                            lemma_new_index_bound(red@, red@[s0]->0 as int);
                        }
                        lemma_new_index_bound(red@, d0);
                        assert(remap_rows(red@, n as int, self.class_rows(c as int))(ns, f0).contains(kept(red@, d0)));
                        assert(t.row((ns, f0)).contains(kept(red@, d0)));
                        assert(key@ != e2[0].0) by {
                            if key@ == e2[0].0 {
                                assert(row_set(key@, rb2, ns * flim + f0) == Set::<int>::empty());
                            }
                        }
                    }
                    match classes_get_index_of(&new_classes, &key) {
                        Some(ix) => {
                            target = ix;
                        },
                        None => {
                            let (ix, _) = classes_insert_full(&mut new_classes, key, WordClass::default());
                            target = ix;
                        },
                    }
                    proof {
                        let e3 = class_entries(new_classes);
                        assert(e3[target as int].0 == key@);
                        assert(target != 0);
                        assert forall|s: usize, f: usize| s < new_n && f < flim implies #[trigger] key_rows(e3[target as int].0, flim as int, rb2)(s, f)
                            == remap_rows(red@, n as int, self.class_rows(c as int))(s, f) by {
                            assert(row_set(key@, rb2, s * flim + f) == t.row((s, f)));
                        }
                    }
                } else {
                    proof {
                        assert(!remap_nonempty(red@, n as int, flim as int, self.class_rows(c as int)));
                    }
                }
            }
            let ghost e_before = e2;
            class_map.push(target);
            proof {
                let e3 = class_entries(new_classes);
                assert(e3.len() >= e_before.len());
                assert forall|i: int| 0 <= i < e_before.len() implies #[trigger] e3[i] == e_before[i] by {
                }
                assert forall|i: int, j: int| 0 <= i < j < e3.len() implies #[trigger] e3[i].0 != #[trigger] e3[j].0 by {
                    if j >= e_before.len() {
                        assert(j == e_before.len());
                        if i < e_before.len() {
                            assert(e_before[i].0 != e3[j].0);
                        }
                    } else {
                        assert(e_before[i].0 != e_before[j].0);
                    }
                }
                assert forall|i: int, s: usize, f: usize, x: int|
                    0 <= i < e3.len() && s < new_n && f < flim && #[trigger] row_set(e3[i].0, rb2, s * flim + f).contains(x) implies 0 <= x < new_n by {
                    if i >= e_before.len() {
                        assert(key_rows(e3[target as int].0, flim as int, rb2)(s, f) == remap_rows(red@, n as int, self.class_rows(c as int))(s, f));
                        let (s2, d) = choose|s2: int, d: int|
                            0 <= s2 < n && 0 <= d < n && rep(red@, s2) == Some(s) && red@[d] is None && kept(red@, d) == x && #[trigger] self.class_rows(c as int)(s2 as usize, f).contains(d);
                        lemma_new_index_bound(red@, d);
                    } else {
                        assert(e3[i] == e_before[i]);
                    }
                }
                assert forall|k: int| 0 <= k < c + 1 implies (#[trigger] class_map@[k] != 0) == (ws.contains(k as usize) && remap_nonempty(
                    red@,
                    n as int,
                    flim as int,
                    self.class_rows(k),
                )) by {
                }
                assert forall|k: int, s: usize, f: usize|
                    0 <= k < c + 1 && class_map@[k] != 0 && s < new_n && f < flim implies #[trigger] key_rows(e3[class_map@[k] as int].0, flim as int, rb2)(s, f)
                        == remap_rows(red@, n as int, self.class_rows(k))(s, f) by {
                    if k < c {
                        assert(e3[class_map@[k] as int] == e_before[class_map@[k] as int]);
                    }
                }
            }
            c += 1;
        }
        (new_classes, class_map)
    }
}


/// The words behind the references.
pub open spec fn words_of(ws: Seq<&Word>) -> Seq<Word> {
    ws.map_values(|w: &Word| *w)
}

/// The words are equal, field by field.
pub open spec fn same_word(a: Word, b: Word) -> bool {
    &&& a.tranche == b.tranche
    &&& a.score == b.score
    &&& a.chars@ == b.chars@
    &&& a.text@ == b.text@
}

/// How many words of `input` the words of `alive` match in turn: each alive word
/// matches the next input word if they are the same.
pub open spec fn matched_count(alive: Seq<Word>, input: Seq<Word>) -> nat
    decreases alive.len(),
{
    if alive.len() == 0 {
        0
    } else {
        let c = matched_count(alive.drop_last(), input);
        if c < input.len() && same_word(alive.last(), input[c as int]) {
            c + 1
        } else {
            c
        }
    }
}

/// The positions of the alive words that stay: each that matches the next input word
/// in turn (see `matched_count`) and whose class (in `classes`) is not 0.
pub open spec fn input_positions(alive: Seq<Word>, classes: Seq<usize>, input: Seq<Word>) -> Seq<int>
    decreases alive.len(),
{
    if alive.len() == 0 {
        Seq::empty()
    } else {
        let j = alive.len() - 1;
        let prev = input_positions(alive.drop_last(), classes, input);
        let c = matched_count(alive.drop_last(), input);
        if c < input.len() && same_word(alive.last(), input[c as int]) && classes[j] != 0 {
            prev.push(j)
        } else {
            prev
        }
    }
}

/// The items of `s` at the positions `idx`.
pub open spec fn pick<T>(s: Seq<T>, idx: Seq<int>) -> Seq<T> {
    Seq::new(idx.len(), |k: int| s[idx[k]])
}

/// Whether the words are equal, field by field.
fn same_word_exec(a: &Word, b: &Word) -> (r: bool)
    ensures
        r == same_word(*a, *b),
{
    if a.tranche != b.tranche || a.score != b.score || a.chars.len() != b.chars.len() {
        return false;
    }
    let mut i: usize = 0;
    while i < a.chars.len()
        invariant
            a.chars@.len() == b.chars@.len(),
            i <= a.chars@.len(),
            forall|k: int| 0 <= k < i ==> a.chars@[k] == b.chars@[k],
        decreases a.chars@.len() - i,
    {
        if a.chars[i] != b.chars[i] {
            return false;
        }
        i += 1;
    }
    proof {
        assert(a.chars@ =~= b.chars@);
    }
    a.text == b.text
}

impl<'word> WordMatcher<'word> {
    /// The phrase matcher is consistent and files each alive word.
    pub closed spec fn phrase_ok(&self) -> bool {
        &&& self.phrase_matcher.wf()
        &&& self.phrase_matcher.word_class_list().len() == self.alive().len()
    }

    /// Keeps, of the alive words, those that match the words of `input` in turn and
    /// are not of the empty class, and files only them (see `input_positions`).
    fn filter_alive(&mut self, input: &[&'word Word])
        requires
            old(self).phrase_ok(),
            matched_count(old(self).alive(), words_of(input@)) == input@.len(),
        ensures
            final(self).phrase_ok(),
            final(self).phrase().n() == old(self).phrase().n(),
            final(self).phrase().flim() == old(self).phrase().flim(),
            final(self).phrase().start() == old(self).phrase().start(),
            final(self).phrase().expr() == old(self).phrase().expr(),
            final(self).phrase().entries().len() == old(self).phrase().entries().len(),
            forall|i: int| 0 <= i < old(self).phrase().entries().len() ==> #[trigger] final(self).phrase().entries()[i].0 == old(self).phrase().entries()[i].0,
            ({
                let p = input_positions(old(self).alive(), old(self).phrase().word_class_list(), words_of(input@));
                &&& final(self).alive() == pick(old(self).alive(), p)
                &&& final(self).phrase().word_class_list() == pick(old(self).phrase().word_class_list(), p)
            }),
    {
        let ghost alive0 = self.alive();
        let ghost ws0 = self.phrase_matcher.word_classes@;
        let ghost e0 = class_entries(self.phrase_matcher.classes);
        let ghost inw = words_of(input@);
        let ghost pm0 = self.phrase_matcher;
        let classes_count = classes_len(&self.phrase_matcher.classes);
        let mut c: usize = 0;
        while c < classes_count
            invariant
                self.alive() == alive0,
                self.phrase_matcher.word_classes@ == ws0,
                self.phrase_matcher.states_len == pm0.states_len,
                self.phrase_matcher.fuzz_limit == pm0.fuzz_limit,
                self.phrase_matcher.start_states == pm0.start_states,
                self.phrase_matcher.expression == pm0.expression,
                classes_count == e0.len(),
                c <= classes_count,
                class_entries(self.phrase_matcher.classes).len() == e0.len(),
                forall|i: int| 0 <= i < e0.len() ==> #[trigger] class_entries(self.phrase_matcher.classes)[i].0 == e0[i].0,
                forall|i: int| 0 <= i < c ==> #[trigger] class_entries(self.phrase_matcher.classes)[i].1.words_count == 0,
                distinct_keys(class_entries(self.phrase_matcher.classes)),
            decreases classes_count - c,
        {
            let key = match classes_get_index(&self.phrase_matcher.classes, c) {
                Some((k, _)) => k.clone(),
                None => Vec::new(),
            };
            let ghost before = class_entries(self.phrase_matcher.classes);
            classes_insert_full(&mut self.phrase_matcher.classes, key, WordClass::default());
            proof {
                let e = class_entries(self.phrase_matcher.classes);
                assert forall|i: int, j: int| 0 <= i < j < e.len() implies #[trigger] e[i].0 != #[trigger] e[j].0 by {
                    assert(e[i].0 == before[i].0);
                    assert(e[j].0 == before[j].0);
                }
            }
            c += 1;
        }
        let mut new_word_classes: Vec<usize> = Vec::new();
        let mut new_alive_wordlist: Vec<&'word Word> = Vec::new();
        let ghost mut positions: Seq<int> = Seq::empty();
        let mut i: usize = 0;
        let mut j: usize = 0;
        proof {
            assert(alive0.take(0) =~= Seq::<Word>::empty());
        }
        while j < self.alive_wordlist.len()
            invariant
                self.alive() == alive0,
                self.phrase_matcher.word_classes@ == ws0,
                self.phrase_matcher.states_len == pm0.states_len,
                self.phrase_matcher.fuzz_limit == pm0.fuzz_limit,
                self.phrase_matcher.start_states == pm0.start_states,
                self.phrase_matcher.expression == pm0.expression,
                ws0.len() == alive0.len(),
                self.alive_wordlist@.len() == alive0.len(),
                inw == words_of(input@),
                forall|w: int| 0 <= w < ws0.len() ==> #[trigger] ws0[w] < e0.len(),
                j <= alive0.len(),
                i == matched_count(alive0.take(j as int), inw),
                i <= input@.len(),
                positions == input_positions(alive0.take(j as int), ws0, inw),
                forall|k: int| 0 <= k < positions.len() ==> 0 <= #[trigger] positions[k] < j,
                new_alive_wordlist@.map_values(|w: &'word Word| *w) == pick(alive0, positions),
                new_word_classes@ == pick(ws0, positions),
                new_word_classes@.len() <= j,
                class_entries(self.phrase_matcher.classes).len() == e0.len(),
                forall|k: int| 0 <= k < e0.len() ==> #[trigger] class_entries(self.phrase_matcher.classes)[k].0 == e0[k].0,
                forall|k: int| 0 <= k < e0.len() ==> #[trigger] class_entries(self.phrase_matcher.classes)[k].1.words_count == count_of(new_word_classes@, k),
                distinct_keys(class_entries(self.phrase_matcher.classes)),
            decreases alive0.len() - j,
        {
            let word = self.alive_wordlist[j];
            let class_index = self.phrase_matcher.word_classes[j];
            proof {
                assert(alive0.take(j + 1).drop_last() =~= alive0.take(j as int));
                assert(alive0.take(j + 1).last() == alive0[j as int]);
                assert(*word == alive0[j as int]);
            }
            if i < input.len() && same_word_exec(word, input[i]) {
                if class_index != 0 {
                    let ghost before = class_entries(self.phrase_matcher.classes);
                    let ghost old_list = new_word_classes@;
                    let ghost old_words = new_alive_wordlist@;
                    new_word_classes.push(class_index);
                    new_alive_wordlist.push(word);
                    proof {
                        assert(new_alive_wordlist@ == old_words.push(word));
                        assert(new_alive_wordlist@.map_values(|w: &'word Word| *w) =~= old_words.map_values(|w: &'word Word| *w).push(*word));
                    }
                    let (key, class) = match classes_get_index(&self.phrase_matcher.classes, class_index) {
                        Some((k, cl)) => (k.clone(), copy_class(cl)),
                        None => (Vec::new(), WordClass::default()),
                    };
                    proof {
                        lemma_count_of_bound(old_list, class_index as int);
                    }
                    let mut class = class;
                    class.add_word(word);
                    classes_insert_full(&mut self.phrase_matcher.classes, key, class);
                    proof {
                        let e = class_entries(self.phrase_matcher.classes);
                        assert forall|k: int| 0 <= k < e0.len() implies #[trigger] e[k].1.words_count == count_of(new_word_classes@, k) by {
                            lemma_count_of_push(old_list, class_index, k);
                        }
                        assert forall|a: int, b: int| 0 <= a < b < e.len() implies #[trigger] e[a].0 != #[trigger] e[b].0 by {
                            assert(e[a].0 == before[a].0);
                            assert(e[b].0 == before[b].0);
                        }
                        positions = positions.push(j as int);
                        assert(new_alive_wordlist@.map_values(|w: &'word Word| *w) =~= pick(alive0, positions));
                        assert(new_word_classes@ =~= pick(ws0, positions));
                    }
                } else {
                }
                i += 1;
            }
            j += 1;
        }
        proof {
            assert(alive0.take(alive0.len() as int) =~= alive0);
        }
        self.phrase_matcher.word_classes = new_word_classes;
        self.alive_wordlist = new_alive_wordlist;
        proof {
            let pm = self.phrase_matcher;
            assert(self.alive() == pick(alive0, positions));
            assert forall|w: int| 0 <= w < pm.word_classes@.len() implies #[trigger] pm.word_classes@[w] < class_entries(pm.classes).len() by {
                assert(pm.word_classes@[w] == pick(ws0, positions)[w]);
            }
            assert forall|a: int, s: usize, f: usize, x: int|
                0 <= a < class_entries(pm.classes).len() && s < pm.states_len && f < pm.fuzz_limit && #[trigger] row_set(class_entries(pm.classes)[a].0, blocks_for(pm.states_len as int), s * pm.fuzz_limit + f).contains(x)
                implies 0 <= x < pm.states_len by {
                assert(class_entries(pm.classes)[a].0 == e0[a].0);
                assert(row_set(e0[a].0, blocks_for(pm.states_len as int), s * pm.fuzz_limit + f).contains(x));
            }
        }
    }
}


/// The two matchers have the same states and tables; their classes may count
/// different words.
pub open spec fn same_tables(a: PhraseMatcher, b: PhraseMatcher) -> bool {
    &&& a.n() == b.n()
    &&& a.flim() == b.flim()
    &&& a.start() == b.start()
    &&& a.entries().len() == b.entries().len()
    &&& forall|i: int| 0 <= i < a.entries().len() ==> #[trigger] a.entries()[i].0 == b.entries()[i].0
}

proof fn lemma_same_class_rows(a: PhraseMatcher, b: PhraseMatcher)
    requires
        same_tables(a, b),
    ensures
        forall|i: int| 0 <= i < a.entries().len() ==> #[trigger] a.class_rows(i) == b.class_rows(i),
{
    assert forall|i: int| 0 <= i < a.entries().len() implies #[trigger] a.class_rows(i) == b.class_rows(i) by {
        assert(a.entries()[i].0 == b.entries()[i].0);
    }
}

proof fn lemma_same_reach(a: PhraseMatcher, b: PhraseMatcher, ws: Seq<usize>, init: spec_fn(usize) -> Set<int>, k: nat)
    requires
        same_tables(a, b),
    ensures
        a.reach_rows(ws, init, k) == b.reach_rows(ws, init, k),
    decreases k,
{
    if k > 0 {
        lemma_same_reach(a, b, ws, init, (k - 1) as nat);
        lemma_same_class_rows(a, b);
        let prev = a.reach_rows(ws, init, (k - 1) as nat);
        let m = a.entries().len() as int;
        assert forall|g: usize| #[trigger] a.live_step(ws, prev, m, g) == b.live_step(ws, prev, m, g) by {
            assert forall|t: int| #[trigger] a.live_step(ws, prev, m, g).contains(t) == b.live_step(ws, prev, m, g).contains(t) by {
                if a.live_step(ws, prev, m, g).contains(t) {
                    let i = choose|i: int| 0 <= i < m && ws.contains(i as usize) && #[trigger] step_upto(a.n() as int, a.class_rows(i), prev, a.flim() as int, g).contains(t);
                    assert(a.class_rows(i) == b.class_rows(i));
                    assert(step_upto(b.n() as int, b.class_rows(i), prev, b.flim() as int, g).contains(t));
                }
                if b.live_step(ws, prev, m, g).contains(t) {
                    let i = choose|i: int| 0 <= i < m && ws.contains(i as usize) && #[trigger] step_upto(b.n() as int, b.class_rows(i), prev, b.flim() as int, g).contains(t);
                    assert(a.class_rows(i) == b.class_rows(i));
                    assert(step_upto(a.n() as int, a.class_rows(i), prev, a.flim() as int, g).contains(t));
                }
            }
            assert(a.live_step(ws, prev, m, g) =~= b.live_step(ws, prev, m, g));
        }
        assert(a.reach_rows(ws, init, k) =~= b.reach_rows(ws, init, k));
    }
}

proof fn lemma_same_useful(a: PhraseMatcher, b: PhraseMatcher, ws: Seq<usize>, depth: nat)
    requires
        same_tables(a, b),
    ensures
        a.reachable_set(ws, depth) == b.reachable_set(ws, depth),
        a.useful_states(ws, depth) == b.useful_states(ws, depth),
{
    lemma_same_reach(a, b, ws, a.start_rows(), depth);
    assert(a.start_rows() =~= b.start_rows());
    assert forall|x: int| #[trigger] a.leads_to_success(ws, depth, x) == b.leads_to_success(ws, depth, x) by {
        if a.leads_to_success(ws, depth, x) {
            let k = choose|k: nat| k <= depth && #[trigger] union_rows(a.reach_rows(ws, single_rows(x), k), a.flim() as int).contains(a.n() - 1);
            lemma_same_reach(a, b, ws, single_rows(x), k);
            assert(union_rows(b.reach_rows(ws, single_rows(x), k), b.flim() as int).contains(b.n() - 1));
        }
        if b.leads_to_success(ws, depth, x) {
            let k = choose|k: nat| k <= depth && #[trigger] union_rows(b.reach_rows(ws, single_rows(x), k), b.flim() as int).contains(b.n() - 1);
            lemma_same_reach(a, b, ws, single_rows(x), k);
            assert(union_rows(a.reach_rows(ws, single_rows(x), k), a.flim() as int).contains(a.n() - 1));
        }
    }
    assert(a.useful_states(ws, depth) =~= b.useful_states(ws, depth));
}

proof fn lemma_same_marks(a: PhraseMatcher, b: PhraseMatcher, ws: Seq<usize>, useful: Set<int>, i: int)
    requires
        same_tables(a, b),
    ensures
        a.red_outer(ws, useful, i) == b.red_outer(ws, useful, i),
    decreases i,
{
    lemma_same_class_rows(a, b);
    assert forall|x: int, y: int| #[trigger] a.same_io(ws, useful, x, y) == b.same_io(ws, useful, x, y) by {
        let m = a.entries().len();
        assert forall|c: int, f: usize| 0 <= c < m implies #[trigger] a.io_match(useful, c, f, x, y) == b.io_match(useful, c, f, x, y) by {
            assert(a.class_rows(c) == b.class_rows(c));
            assert forall|s2: int, x2: int| #[trigger] a.class_has(c, s2, f, x2) == b.class_has(c, s2, f, x2) by {
            }
            if a.io_match(useful, c, f, x, y) {
                assert forall|d: int| useful.contains(d) implies (#[trigger] b.class_has(c, x, f, d)) == b.class_has(c, y, f, d) by {
                    assert(a.class_has(c, x, f, d) == a.class_has(c, y, f, d));
                }
                assert forall|d: int| useful.contains(d) implies (#[trigger] b.class_has(c, d, f, x)) == b.class_has(c, d, f, y) by {
                    assert(a.class_has(c, d, f, x) == a.class_has(c, d, f, y));
                }
            }
            if b.io_match(useful, c, f, x, y) {
                assert forall|d: int| useful.contains(d) implies (#[trigger] a.class_has(c, x, f, d)) == a.class_has(c, y, f, d) by {
                    assert(b.class_has(c, x, f, d) == b.class_has(c, y, f, d));
                }
                assert forall|d: int| useful.contains(d) implies (#[trigger] a.class_has(c, d, f, x)) == a.class_has(c, d, f, y) by {
                    assert(b.class_has(c, d, f, x) == b.class_has(c, d, f, y));
                }
            }
        }
        if a.same_io(ws, useful, x, y) {
            assert forall|c: int, f: usize| 0 <= c < b.entries().len() && ws.contains(c as usize) && f < b.flim() implies #[trigger] b.io_match(useful, c, f, x, y) by {
                assert(a.io_match(useful, c, f, x, y));
            }
        }
        if b.same_io(ws, useful, x, y) {
            assert forall|c: int, f: usize| 0 <= c < a.entries().len() && ws.contains(c as usize) && f < a.flim() implies #[trigger] a.io_match(useful, c, f, x, y) by {
                assert(b.io_match(useful, c, f, x, y));
            }
        }
    }
    if i > 0 {
        lemma_same_marks(a, b, ws, useful, i - 1);
        let r = a.red_outer(ws, useful, i - 1);
        if r[i - 1] is None {
            lemma_same_marks_inner(a, b, ws, useful, r, i - 1, a.n() - 1);
        }
    } else {
        assert(a.red_outer(ws, useful, i) =~= b.red_outer(ws, useful, i));
    }
}

proof fn lemma_same_marks_inner(a: PhraseMatcher, b: PhraseMatcher, ws: Seq<usize>, useful: Set<int>, r: Seq<Option<usize>>, i: int, j: int)
    requires
        same_tables(a, b),
        forall|x: int, y: int| #[trigger] a.same_io(ws, useful, x, y) == b.same_io(ws, useful, x, y),
    ensures
        a.red_inner(ws, useful, r, i, j) == b.red_inner(ws, useful, r, i, j),
    decreases j - i,
{
    if j > i + 1 {
        lemma_same_marks_inner(a, b, ws, useful, r, i, j - 1);
        assert(a.same_io(ws, useful, i, j - 1) == b.same_io(ws, useful, i, j - 1));
    }
}


/// The positions of the classes `ws` whose tables keep a state over the unmarked
/// states (see `remap_nonempty`).
pub open spec fn nonempty_positions(pm: PhraseMatcher, red: Seq<Option<usize>>, ws: Seq<usize>) -> Seq<int>
    decreases ws.len(),
{
    if ws.len() == 0 {
        Seq::empty()
    } else {
        let prev = nonempty_positions(pm, red, ws.drop_last());
        if remap_nonempty(red, pm.n() as int, pm.flim() as int, pm.class_rows(ws.last() as int)) {
            prev.push(ws.len() - 1)
        } else {
            prev
        }
    }
}

impl<'word> WordMatcher<'word> {
    /// The classes of the alive words that stay for `input` (see `input_positions`).
    pub open spec fn staying_classes(&self, input: Seq<Word>) -> Seq<usize> {
        pick(self.phrase().word_class_list(), input_positions(self.alive(), self.phrase().word_class_list(), input))
    }

    /// The alive words that stay for `input` (see `input_positions`).
    pub open spec fn staying_words(&self, input: Seq<Word>) -> Seq<Word> {
        pick(self.alive(), input_positions(self.alive(), self.phrase().word_class_list(), input))
    }

    /// The marks of the states for the words that stay for `input`: those of the
    /// states that are not useful within `depth` words, or that behave as an earlier
    /// one (see `PhraseMatcher::red_outer`).
    pub open spec fn state_marks(&self, input: Seq<Word>, depth: nat) -> Seq<Option<usize>> {
        let ws = self.staying_classes(input);
        self.phrase().red_outer(ws, self.phrase().useful_states(ws, depth), self.phrase().n() as int)
    }

    /// A consistent matcher's expression is consistent.
    pub proof fn lemma_expr_wf(&self)
        requires
            self.wf(),
        ensures
            self.expr().wf(),
    {
    }

    /// A consistent matcher's phrase matcher is consistent and files each alive word.
    pub proof fn lemma_phrase_ok(&self)
        requires
            self.wf(),
        ensures
            self.phrase_ok(),
    {
    }

    /// What `phrase_ok` says: the phrase matcher is consistent and files each alive
    /// word, and the alive words are those of the list.
    pub proof fn lemma_phrase_wf(&self)
        requires
            self.phrase_ok(),
        ensures
            self.phrase().wf(),
            self.phrase().word_class_list().len() == self.alive().len(),
            self.phrase().expr() == self.expr(),
    {
    }

    /// The alive words.
    pub fn alive_words(&self) -> (r: &Vec<&'word Word>)
        ensures
            words_of(r@) == self.alive(),
    {
        &self.alive_wordlist
    }
}

impl PhraseMatcher {
    /// The states that are reachable and lead to success (see `useful_states`).
    fn useful_srcs(&self, depth: usize) -> (r: BitSet1D)
        requires
            self.wf(),
        ensures
            r.wf(),
            r@ == self.useful_states(self.word_class_list(), depth as nat),
            forall|x: int| #[trigger] r@.contains(x) ==> 0 <= x < self.n(),
    {
        let reachable = self.reachable_srcs(depth);
        let candidate = self.candidate_srcs(depth);
        let n = self.states_len;
        proof {
            self.start_states.lemma_wf_sizes();
        }
        let mut useful = BitSet1D::new((), n);
        let mut x: usize = 0;
        while x < n
            invariant
                n == self.n(),
                x <= n,
                useful.wf(),
                useful.capacity() >= n,
                reachable@ == self.reachable_set(self.word_class_list(), depth as nat),
                forall|y: int| #[trigger] candidate@.contains(y) == (0 <= y < n && self.leads_to_success(self.word_class_list(), depth as nat, y)),
                forall|y: int| #[trigger] useful@.contains(y) == (0 <= y < x && self.useful_states(self.word_class_list(), depth as nat).contains(y)),
            decreases n - x,
        {
            if reachable.has(x) && candidate.has(x) {
                useful.insert_one(x);
            }
            x += 1;
        }
        proof {
            assert(useful@ =~= self.useful_states(self.word_class_list(), depth as nat));
        }
        useful
    }
}


/// What optimizing `before` for the words `input` and phrases of up to `depth` words
/// gives (see `WordMatcher::optimize_for_wordlist`): `after`, and whether a state was
/// removed (`r`).
pub open spec fn optimized_to<'word>(before: WordMatcher<'word>, after: WordMatcher<'word>, input: Seq<Word>, depth: nat, r: bool) -> bool {
    let pm = before.phrase();
    let n = pm.n() as int;
    let ws = before.staying_classes(input);
    let words = before.staying_words(input);
    let red = before.state_marks(input, depth);
    let nn = kept(red, n);
    let q = nonempty_positions(pm, red, ws);
    &&& r == (nn < n)
    &&& !r ==> {
        &&& same_tables(after.phrase(), pm)
        &&& after.alive() == words
        &&& after.phrase().word_class_list() == ws
    }
    &&& r ==> {
        &&& after.phrase().n() == nn
        &&& after.phrase().start() == remap_set(red, n, pm.start())
        &&& after.alive() == pick(words, q)
        &&& after.phrase().word_class_list().len() == q.len()
        &&& forall|i: int, s: usize, f: usize|
            0 <= i < q.len() && s < nn && f < pm.flim() ==> #[trigger] after.phrase().class_rows(
                after.phrase().word_class_list()[i] as int,
            )(s, f) == remap_rows(red, n, pm.class_rows(ws[q[i]] as int))(s, f)
    }
}

/// `after` is `before` narrowed to the words of `input` (see `filter_alive`): the
/// words and classes that stay, with the same tables.
pub open spec fn narrowed_to<'word>(before: WordMatcher<'word>, after: WordMatcher<'word>, input: Seq<Word>) -> bool {
    &&& after.phrase_ok()
    &&& after.expr() == before.expr()
    &&& after.phrase().expr() == before.phrase().expr()
    &&& same_tables(after.phrase(), before.phrase())
    &&& after.alive() == before.staying_words(input)
    &&& after.phrase().word_class_list() == before.staying_classes(input)
}

impl<'word> WordMatcher<'word> {
    /// Narrows the matcher to the words of `new_input_wordlist`, which must be alive
    /// words in the same order, and removes the states that phrases of them cannot use
    /// or that behave as an earlier state. Returns whether any state was removed.
    ///
    /// The alive words become those matched in turn by the input that are not of the
    /// empty class. A state is useful when phrases of those words reach it from the
    /// start and lead from it to the success state, each within
    /// `search_depth_limit` words; of the useful states, a later one that leads to and
    /// is led to from the same useful states as an earlier one, by every class at
    /// every fuzz, is merged into it (see `state_marks`). When states go, the tables
    /// are rewritten over the states that stay (see `remap_rows`), and the words whose
    /// tables are left empty go.
    pub fn optimize_for_wordlist(&mut self, new_input_wordlist: &[&'word Word], search_depth_limit: usize) -> (r: bool)
        requires
            old(self).phrase_ok(),
            matched_count(old(self).alive(), words_of(new_input_wordlist@)) == new_input_wordlist@.len(),
            old(self).phrase().reachable_set(old(self).staying_classes(words_of(new_input_wordlist@)), search_depth_limit as nat).contains(
                old(self).phrase().n() - 1,
            ),
        ensures
            final(self).phrase_ok(),
            final(self).phrase().flim() == old(self).phrase().flim(),
            final(self).phrase().expr() == old(self).phrase().expr(),
            optimized_to(*old(self), *final(self), words_of(new_input_wordlist@), search_depth_limit as nat, r),
    {
        let ghost input = words_of(new_input_wordlist@);
        let ghost pm0 = self.phrase_matcher;
        let ghost ws = old(self).staying_classes(input);
        let ghost words = old(self).staying_words(input);
        let ghost depth = search_depth_limit as nat;
        self.filter_alive(new_input_wordlist);
        let ghost pm1 = self.phrase_matcher;
        proof {
            assert(same_tables(pm1, pm0));
            assert(pm1.word_class_list() == ws);
            lemma_same_useful(pm1, pm0, ws, depth);
            lemma_same_marks(pm1, pm0, ws, pm0.useful_states(ws, depth), pm0.n() as int);
            lemma_same_class_rows(pm1, pm0);
        }
        let useful = self.phrase_matcher.useful_srcs(search_depth_limit);
        let n = self.phrase_matcher.states_len;
        let red = self.phrase_matcher.redundant_states(&useful);
        let ghost rd = red@;
        proof {
            assert(rd == old(self).state_marks(input, depth));
            // the success state is useful: reachable by the requirement, and it leads to itself
            let sr = single_rows(n - 1);
            assert(union_rows(pm1.reach_rows(ws, sr, 0), pm1.flim() as int).contains(n - 1)) by {
                assert(sr(0).contains(n - 1));
            }
            assert(pm1.leads_to_success(ws, depth, n - 1));
            assert(useful@.contains(n - 1));
            lemma_red_outer_marks(pm1, ws, useful@, n as int);
            assert(rd[n - 1] is None);
            lemma_new_index_bound(rd, n - 1);
            lemma_kept_mono(rd, 0, n as int);
        }
        let (pos, new_n) = new_positions(&red);
        if new_n == n {
            return false;
        }
        let new_start = self.phrase_matcher.remap_start(&red, &pos, new_n);
        let (new_classes, class_map) = self.phrase_matcher.remap_classes(&red, &pos, new_n);
        let ghost e2 = class_entries(new_classes);
        let mut new_classes = new_classes;
        let mut new_alive_wordlist: Vec<&'word Word> = Vec::new();
        let mut new_word_classes: Vec<usize> = Vec::new();
        let ghost mut q: Seq<int> = Seq::empty();
        let mut j: usize = 0;
        while j < self.alive_wordlist.len()
            invariant
                self.phrase_matcher == pm1,
                n == pm1.n(),
                self.alive() == words,
                pm1.wf(),
                pm1.word_class_list() == ws,
                ws.len() == words.len(),
                self.alive_wordlist@.len() == words.len(),
                class_map@.len() == pm1.entries().len(),
                forall|c: int| 0 <= c < pm1.entries().len() ==> #[trigger] class_map@[c] < e2.len(),
                forall|c: int|
                    0 <= c < pm1.entries().len() ==> (#[trigger] class_map@[c] != 0) == (ws.contains(c as usize)
                        && remap_nonempty(rd, n as int, pm1.flim() as int, pm1.class_rows(c))),
                j <= words.len(),
                q == nonempty_positions(pm1, rd, ws.take(j as int)),
                forall|k: int| 0 <= k < q.len() ==> 0 <= #[trigger] q[k] < j,
                new_alive_wordlist@.map_values(|w: &'word Word| *w) == pick(words, q),
                new_word_classes@.len() == q.len(),
                forall|k: int| 0 <= k < q.len() ==> #[trigger] new_word_classes@[k] == class_map@[ws[q[k]] as int],
                forall|k: int| 0 <= k < q.len() ==> #[trigger] new_word_classes@[k] != 0,
                class_entries(new_classes).len() == e2.len(),
                forall|k: int| 0 <= k < e2.len() ==> #[trigger] class_entries(new_classes)[k].0 == e2[k].0,
                forall|k: int| 0 <= k < e2.len() ==> #[trigger] class_entries(new_classes)[k].1.words_count == count_of(new_word_classes@, k),
                distinct_keys(class_entries(new_classes)),
                new_word_classes@.len() <= j,
            decreases words.len() - j,
        {
            let word = self.alive_wordlist[j];
            let old_class = self.phrase_matcher.word_classes[j];
            let new_class = class_map[old_class];
            proof {
                assert(ws.take(j + 1).drop_last() =~= ws.take(j as int));
                assert(ws.take(j + 1).last() == ws[j as int]);
                assert(ws.contains(old_class)) by {
                    assert(ws[j as int] == old_class);
                }
                let ne = remap_nonempty(rd, n as int, pm1.flim() as int, pm1.class_rows(old_class as int));
                assert(ne == (new_class != 0));
                let t = ws.take(j + 1);
                assert(t.len() == j + 1);
                assert(t.drop_last() == ws.take(j as int));
                assert(t.last() == old_class);
                assert(pm1.n() == n);
                assert(nonempty_positions(pm1, rd, ws.take(j + 1)) == (if ne {
                    q.push(j as int)
                } else {
                    q
                }));
            }
            if new_class != 0 {
                let ghost before = class_entries(new_classes);
                let ghost old_list = new_word_classes@;
                let ghost old_words = new_alive_wordlist@;
                new_word_classes.push(new_class);
                new_alive_wordlist.push(word);
                let (key, class) = match classes_get_index(&new_classes, new_class) {
                    Some((k, cl)) => (k.clone(), copy_class(cl)),
                    None => (Vec::new(), WordClass::default()),
                };
                proof {
                    lemma_count_of_bound(old_list, new_class as int);
                }
                let mut class = class;
                class.add_word(word);
                classes_insert_full(&mut new_classes, key, class);
                proof {
                    let e = class_entries(new_classes);
                    assert forall|k: int| 0 <= k < e2.len() implies #[trigger] e[k].1.words_count == count_of(new_word_classes@, k) by {
                        lemma_count_of_push(old_list, new_class, k);
                    }
                    assert forall|a: int, b: int| 0 <= a < b < e.len() implies #[trigger] e[a].0 != #[trigger] e[b].0 by {
                        assert(e[a].0 == before[a].0);
                        assert(e[b].0 == before[b].0);
                    }
                    assert(new_alive_wordlist@.map_values(|w: &'word Word| *w) =~= old_words.map_values(|w: &'word Word| *w).push(*word));
                    q = q.push(j as int);
                    assert(new_alive_wordlist@.map_values(|w: &'word Word| *w) =~= pick(words, q));
                }
            }
            j += 1;
        }
        proof {
            assert(ws.take(ws.len() as int) =~= ws);
        }
        self.alive_wordlist = new_alive_wordlist;
        self.phrase_matcher.classes = new_classes;
        self.phrase_matcher.word_classes = new_word_classes;
        self.phrase_matcher.states_len = new_n;
        self.phrase_matcher.start_states = new_start;
        proof {
            let pm = self.phrase_matcher;
            let rb2 = blocks_for(new_n as int);
            let flim = pm.fuzz_limit as int;
            lemma_shape_smaller(n as int, new_n as int, flim);
            assert(self.alive() == pick(words, q));
            assert forall|w: int| 0 <= w < pm.word_classes@.len() implies #[trigger] pm.word_classes@[w] < class_entries(pm.classes).len() by {
                assert(pm.word_classes@[w] == class_map@[ws[q[w]] as int]);
            }
            assert forall|a: int, s2: usize, f: usize, x: int|
                0 <= a < class_entries(pm.classes).len() && s2 < new_n && f < flim && #[trigger] row_set(class_entries(pm.classes)[a].0, rb2, s2 * flim + f).contains(x)
                implies 0 <= x < new_n by {
                assert(class_entries(pm.classes)[a].0 == e2[a].0);
                assert(row_set(e2[a].0, rb2, s2 * flim + f).contains(x));
            }
            assert(pm.wf());
            assert forall|i: int, s2: usize, f: usize|
                0 <= i < q.len() && s2 < new_n && f < flim implies #[trigger] pm.class_rows(pm.word_class_list()[i] as int)(s2, f)
                    == remap_rows(rd, n as int, pm0.class_rows(ws[q[i]] as int))(s2, f) by {
                let c = ws[q[i]] as int;
                assert(pm.word_class_list()[i] == class_map@[c]);
                assert(pm.entries()[class_map@[c] as int].0 == e2[class_map@[c] as int].0);
                assert(pm1.class_rows(c) == pm0.class_rows(c));
            }
            assert(nonempty_positions(pm1, rd, ws) == nonempty_positions(pm0, rd, ws)) by {
                lemma_same_nonempty_positions(pm1, pm0, rd, ws);
            }
        }
        true
    }
}

proof fn lemma_same_nonempty_positions(a: PhraseMatcher, b: PhraseMatcher, red: Seq<Option<usize>>, ws: Seq<usize>)
    requires
        same_tables(a, b),
        forall|k: int| 0 <= k < ws.len() ==> #[trigger] ws[k] < a.entries().len(),
    ensures
        nonempty_positions(a, red, ws) == nonempty_positions(b, red, ws),
    decreases ws.len(),
{
    if ws.len() > 0 {
        lemma_same_nonempty_positions(a, b, red, ws.drop_last());
        lemma_same_class_rows(a, b);
        assert(a.class_rows(ws.last() as int) == b.class_rows(ws.last() as int));
    }
}


/// The last word of `ws` whose symbols match `e`, if any.
pub open spec fn last_match(e: Expression, ws: Seq<Word>) -> Option<Word>
    decreases ws.len(),
{
    if ws.len() == 0 {
        None
    } else if e.matches_chars(ws.last().chars@) {
        Some(ws.last())
    } else {
        last_match(e, ws.drop_last())
    }
}

proof fn lemma_last_match_skip(e: Expression, a: Seq<Word>, b: Seq<Word>)
    requires
        forall|k: int| 0 <= k < b.len() ==> !e.matches_chars((#[trigger] b[k]).chars@),
    ensures
        last_match(e, a + b) == last_match(e, a),
    decreases b.len(),
{
    if b.len() == 0 {
        assert(a + b =~= a);
    } else {
        let c = a + b;
        assert(c.drop_last() =~= a + b.drop_last());
        assert(c.last() == b[b.len() - 1]);
        lemma_last_match_skip(e, a, b.drop_last());
    }
}

proof fn lemma_last_match_matches(e: Expression, ws: Seq<Word>)
    ensures
        last_match(e, ws) matches Some(x) ==> e.matches_chars(x.chars@),
    decreases ws.len(),
{
    if ws.len() > 0 && !e.matches_chars(ws.last().chars@) {
        lemma_last_match_matches(e, ws.drop_last());
    }
}

pub proof fn lemma_words_between_split(ws: Seq<&Word>, a: int, b: int, c: int)
    requires
        a <= b <= c,
    ensures
        words_between(ws, a, c) == words_between(ws, a, b) + words_between(ws, b, c),
{
    assert(words_between(ws, a, c) =~= words_between(ws, a, b) + words_between(ws, b, c));
}

impl<'word> WordMatcher<'word> {
    /// Sees every remaining word of `wordlist` and returns the last that matches
    /// (the last item of the matcher's iteration over `wordlist`).
    pub fn last_single_word(&mut self, wordlist: &[&'word Word]) -> (r: Option<&'word Word>)
        requires
            old(self).wf(),
            old(self).index() <= wordlist@.len(),
            forall|i: int|
                old(self).index() <= i < wordlist@.len() ==> (#[trigger] wordlist@[i]).chars@.len() < old(self).max_len(),
        ensures
            final(self).wf(),
            final(self).expr() == old(self).expr(),
            final(self).max_len() == old(self).max_len(),
            final(self).index() == wordlist@.len(),
            final(self).seen() == old(self).seen() + words_between(wordlist@, old(self).index() as int, wordlist@.len() as int),
            match r {
                Some(w) => last_match(old(self).expr(), words_between(wordlist@, old(self).index() as int, wordlist@.len() as int)) == Some(*w),
                None => last_match(old(self).expr(), words_between(wordlist@, old(self).index() as int, wordlist@.len() as int)) is None,
            },
    {
        let ghost start = self.word_index as int;
        let ghost seen0 = self.seen@;
        let ghost e = self.phrase_matcher.expression;
        let mut last: Option<&'word Word> = None;
        proof {
            assert(words_between(wordlist@, start, start) =~= Seq::<Word>::empty());
            assert(seen0 + Seq::<Word>::empty() =~= seen0);
        }
        loop
            invariant
                self.wf(),
                self.expr() == e,
                old(self).expr() == e,
                self.max_len() == old(self).max_len(),
                old(self).index() == start,
                old(self).seen() == seen0,
                start <= self.index() <= wordlist@.len(),
                self.seen() == seen0 + words_between(wordlist@, start, self.index() as int),
                forall|i: int|
                    self.index() <= i < wordlist@.len() ==> (#[trigger] wordlist@[i]).chars@.len() < self.max_len(),
                match last {
                    Some(w) => last_match(e, words_between(wordlist@, start, self.index() as int)) == Some(*w),
                    None => last_match(e, words_between(wordlist@, start, self.index() as int)) is None,
                },
            decreases wordlist@.len() - self.index(),
        {
            let ghost before = self.index() as int;
            match self.next_single_word(wordlist, None) {
                Some(w) => {
                    proof {
                        let after = self.index() as int;
                        lemma_words_between_split(wordlist@, start, before, after - 1);
                        lemma_words_between_split(wordlist@, start, after - 1, after);
                        let mid = words_between(wordlist@, before, after - 1);
                        assert forall|k: int| 0 <= k < mid.len() implies !e.matches_chars((#[trigger] mid[k]).chars@) by {
                            assert(mid[k] == *wordlist@[before + k]);
                        }
                        lemma_last_match_skip(e, words_between(wordlist@, start, before), mid);
                        let all = words_between(wordlist@, start, after);
                        assert(all.last() == *w);
                        assert(all.drop_last() =~= words_between(wordlist@, start, after - 1));
                    }
                    last = Some(w);
                },
                None => {
                    proof {
                        let after = self.index() as int;
                        lemma_words_between_split(wordlist@, start, before, after);
                        let mid = words_between(wordlist@, before, after);
                        assert forall|k: int| 0 <= k < mid.len() implies !e.matches_chars((#[trigger] mid[k]).chars@) by {
                            assert(mid[k] == *wordlist@[before + k]);
                        }
                        lemma_last_match_skip(e, words_between(wordlist@, start, before), mid);
                    }
                    return last;
                },
            }
        }
    }
}


/// The word matches the expression of every matcher.
pub open spec fn matches_all(ms: Seq<WordMatcher>, w: Word) -> bool {
    forall|i: int| 0 <= i < ms.len() ==> (#[trigger] ms[i]).expr().matches_chars(w.chars@)
}

/// Matcher `i` has seen the first alive words of the one before it, in order.
pub open spec fn chained_at(ms: Seq<WordMatcher>, i: int) -> bool {
    &&& ms[i].seen().len() <= ms[i - 1].alive().len()
    &&& ms[i - 1].alive().take(ms[i].seen().len() as int) == ms[i].seen()
}

/// Each matcher after the first has seen the first alive words of the one before it,
/// in order.
pub open spec fn chained(ms: Seq<WordMatcher>) -> bool {
    forall|i: int| 1 <= i < ms.len() ==> #[trigger] chained_at(ms, i)
}

/// Each matcher is consistent, and takes words of fewer than `len` symbols.
pub open spec fn all_ready(ms: Seq<WordMatcher>, len: nat) -> bool {
    forall|i: int| 0 <= i < ms.len() ==> (#[trigger] ms[i]).wf() && ms[i].max_len() == len
}

/// Every word has fewer than `len` symbols.
pub open spec fn words_fit(ws: Seq<Word>, len: nat) -> bool {
    forall|k: int| 0 <= k < ws.len() ==> (#[trigger] ws[k]).chars@.len() < len
}

proof fn lemma_viable_words_append(e: Expression, a: Seq<Word>, b: Seq<Word>)
    ensures
        viable_words(e, a + b) == viable_words(e, a) + viable_words(e, b),
    decreases b.len(),
{
    if b.len() == 0 {
        assert(a + b =~= a);
        assert(viable_words(e, a) + viable_words(e, b) =~= viable_words(e, a));
    } else {
        let c = a + b;
        assert(c.drop_last() =~= a + b.drop_last());
        assert(c.last() == b.last());
        lemma_viable_words_append(e, a, b.drop_last());
        if e.viable(b.last().chars@) {
            assert(viable_words(e, a) + viable_words(e, b) =~= (viable_words(e, a) + viable_words(e, b.drop_last())).push(b.last()));
        }
    }
}

proof fn lemma_viable_words_in(e: Expression, ws: Seq<Word>, k: int)
    requires
        0 <= k < viable_words(e, ws).len(),
    ensures
        ws.contains(viable_words(e, ws)[k]),
    decreases ws.len(),
{
    if ws.len() > 0 {
        let rest = viable_words(e, ws.drop_last());
        if k < rest.len() {
            lemma_viable_words_in(e, ws.drop_last(), k);
            let j = choose|j: int| 0 <= j < ws.drop_last().len() && ws.drop_last()[j] == rest[k];
            assert(ws[j] == rest[k]);
        } else {
            assert(ws[ws.len() - 1] == ws.last());
        }
    }
}


/// Runs the next word of the list that the first matcher matches through the other
/// matchers, each seeing the words that the one before it keeps alive (the
/// single-word stage of a query). Returns whether every matcher matched it.
fn match_through<'word>(matchers: &mut Vec<WordMatcher<'word>>, word: &'word Word, Ghost(len): Ghost<nat>) -> (all_match: bool)
    requires
        old(matchers)@.len() >= 1,
        all_ready(old(matchers)@, len),
        chained(old(matchers)@),
        old(matchers)@.len() >= 2 ==> old(matchers)@[0].alive().len() > old(matchers)@[1].seen().len(),
        old(matchers)@[0].alive().last() == *word,
        old(matchers)@[0].alive().len() > 0,
        old(matchers)@[0].expr().matches_chars(word.chars@),
        forall|j: int| 0 <= j < old(matchers)@.len() ==> words_fit((#[trigger] old(matchers)@[j]).seen(), len),
    ensures
        final(matchers)@.len() == old(matchers)@.len(),
        all_ready(final(matchers)@, len),
        chained(final(matchers)@),
        final(matchers)@[0] == old(matchers)@[0],
        forall|j: int| 0 <= j < final(matchers)@.len() ==> (#[trigger] final(matchers)@[j]).expr() == old(matchers)@[j].expr(),
        forall|j: int| 0 <= j < final(matchers)@.len() ==> words_fit((#[trigger] final(matchers)@[j]).seen(), len),
        all_match == matches_all(final(matchers)@, *word),
{
    let ghost orig = matchers@;
    let mut all_match = true;
    let mut i: usize = 1;
    while i < matchers.len()
        invariant
            1 <= i <= matchers@.len(),
            matchers@.len() == orig.len(),
            all_ready(matchers@, len),
            matchers@[0] == orig[0],
            forall|j: int| 0 <= j < matchers@.len() ==> (#[trigger] matchers@[j]).expr() == orig[j].expr(),
            forall|j: int| i <= j < matchers@.len() ==> #[trigger] matchers@[j] == orig[j],
            chained(matchers@),
            forall|j: int| 0 <= j < matchers@.len() ==> words_fit((#[trigger] matchers@[j]).seen(), len),
            all_match == (forall|j: int| 0 <= j < i ==> (#[trigger] matchers@[j]).expr().matches_chars(word.chars@)),
            all_match ==> matchers@[i - 1].alive().len() > 0 && matchers@[i - 1].alive().last() == *word,
            all_match && i < matchers@.len() ==> matchers@[i - 1].alive().len() > matchers@[i as int].seen().len(),
        decreases matchers@.len() - i,
    {
        let ghost before = matchers@;
        let prev: Vec<&'word Word> = matchers[i - 1].alive_wordlist.clone();
        let ghost p = before[i - 1];
        let ghost m = before[i as int];
        proof {
            assert(prev@.map_values(|w: &'word Word| *w) == p.alive());
            m.lemma_alive();
            p.lemma_alive();
            assert(m.index() == m.seen().len());
            assert(chained_at(before, i as int));
            assert(m.seen().len() <= p.alive().len());
            assert forall|k: int| m.index() <= k < prev@.len() implies (#[trigger] prev@[k]).chars@.len() < m.max_len() by {
                assert(*prev@[k] == p.alive()[k]);
                lemma_viable_words_in(p.expr(), p.seen(), k);
                let q = choose|q: int| 0 <= q < p.seen().len() && p.seen()[q] == p.alive()[k];
                assert(words_fit(p.seen(), len));
            }
        }
        let last = matchers[i].last_single_word(&prev);
        let ok = match last {
            Some(l) => same_word_exec(l, word),
            None => false,
        };
        proof {
            let m2 = matchers@[i as int];
            let portion = words_between(prev@, m.index() as int, prev@.len() as int);
            assert(portion =~= p.alive().skip(m.seen().len() as int));
            assert(m2.seen() =~= p.alive()) by {
                assert(p.alive() =~= p.alive().take(m.seen().len() as int) + p.alive().skip(m.seen().len() as int));
            }
            assert forall|k: int| 0 <= k < m2.seen().len() implies (#[trigger] m2.seen()[k]).chars@.len() < len by {
                lemma_viable_words_in(p.expr(), p.seen(), k);
                let q = choose|q: int| 0 <= q < p.seen().len() && p.seen()[q] == p.alive()[k];
                assert(words_fit(p.seen(), len));
            }
            m2.lemma_alive();
            if all_match {
                // the new words end with `word`, which either matches or decides
                assert(portion.len() > 0);
                assert(portion.last() == *word);
                if m.expr().matches_chars(word.chars@) {
                    assert(last_match(m.expr(), portion) == Some(*word));
                    lemma_viable_words_append(m.expr(), m.seen(), portion);
                    m.lemma_alive();
                    assert(m.expr().wf()) by { m.lemma_expr_wf(); }
                    if !m.expr().viable(word.chars@) { m.expr().lemma_not_viable(word.chars@); }
                    assert(portion.drop_last() + seq![*word] =~= portion);
                    lemma_viable_words_append(m.expr(), portion.drop_last(), seq![*word]);
                    assert(viable_words(m.expr(), seq![*word]) == seq![*word]) by {
                        assert(seq![*word].drop_last() =~= Seq::<Word>::empty());
                    }
                    assert(m2.alive() == viable_words(m.expr(), m.seen()) + viable_words(m.expr(), portion));
                    assert(m2.alive().last() == *word);
                    assert(m2.alive().len() > m.alive().len());
                    if i + 1 < orig.len() {
                        assert(chained_at(before, i + 1));
                        assert(before[i + 1].seen().len() <= m.alive().len());
                    }
                } else {
                    match last {
                        Some(l) => {
                            lemma_last_match_matches(m.expr(), portion);
                            if same_word(*l, *word) {
                                assert(l.chars@ == word.chars@);
                            }
                        },
                        None => {},
                    }
                }
            }
        }
        all_match = all_match && ok;
        proof {
            let m2 = matchers@[i as int];
            m2.lemma_alive();
            m.lemma_alive();
            lemma_viable_words_append(m.expr(), m.seen(), words_between(prev@, m.index() as int, prev@.len() as int));
            assert(m2.alive().take(m.alive().len() as int) =~= m.alive());
            assert forall|j: int| 1 <= j < matchers@.len() implies #[trigger] chained_at(matchers@, j) by {
                if j < i {
                    assert(matchers@[j] == before[j]);
                    assert(matchers@[j - 1] == before[j - 1]);
                    assert(chained_at(before, j));
                } else if j == i {
                    assert(m2.seen() == p.alive());
                    assert(p.alive().take(p.alive().len() as int) =~= p.alive());
                } else if j == i + 1 {
                    assert(matchers@[j] == before[j]);
                    assert(chained_at(before, j));
                    let k = before[j].seen().len() as int;
                    assert(m.alive().take(k) == before[j].seen());
                    assert(m2.alive().take(k) =~= m.alive().take(k));
                } else {
                    assert(matchers@[j] == before[j]);
                    assert(matchers@[j - 1] == before[j - 1]);
                    assert(chained_at(before, j));
                }
            }
            if all_match {
                assert forall|j: int| 0 <= j < i + 1 implies (#[trigger] matchers@[j]).expr().matches_chars(word.chars@) by {
                    if j < i {
                        assert(matchers@[j] == before[j]);
                    }
                }
            }
            if !all_match {
                if forall|j: int| 0 <= j < i + 1 ==> (#[trigger] matchers@[j]).expr().matches_chars(word.chars@) {
                    assert forall|j: int| 0 <= j < i implies (#[trigger] before[j]).expr().matches_chars(word.chars@) by {
                        assert(matchers@[j] == before[j]);
                    }
                    assert(matchers@[i as int].expr().matches_chars(word.chars@));
                }
            }
        }
        i += 1;
    }
    all_match
}


/// Has each matcher after the first see every alive word of the one before it (the
/// rest of the single-word stage, which leaves no match to report but files the
/// words that phrases can use).
pub fn finish_words<'word>(matchers: &mut Vec<WordMatcher<'word>>, Ghost(len): Ghost<nat>)
    requires
        old(matchers)@.len() >= 1,
        all_ready(old(matchers)@, len),
        chained(old(matchers)@),
        forall|j: int| 0 <= j < old(matchers)@.len() ==> words_fit((#[trigger] old(matchers)@[j]).seen(), len),
    ensures
        final(matchers)@.len() == old(matchers)@.len(),
        all_ready(final(matchers)@, len),
        chained(final(matchers)@),
        final(matchers)@[0] == old(matchers)@[0],
        forall|j: int| 0 <= j < final(matchers)@.len() ==> (#[trigger] final(matchers)@[j]).expr() == old(matchers)@[j].expr(),
        forall|j: int| 0 <= j < final(matchers)@.len() ==> words_fit((#[trigger] final(matchers)@[j]).seen(), len),
        forall|j: int| 1 <= j < final(matchers)@.len() ==> (#[trigger] final(matchers)@[j]).seen() == final(matchers)@[j - 1].alive(),
{
    let ghost orig = matchers@;
    let mut i: usize = 1;
    while i < matchers.len()
        invariant
            1 <= i <= matchers@.len(),
            matchers@.len() == orig.len(),
            all_ready(matchers@, len),
            matchers@[0] == orig[0],
            forall|j: int| 0 <= j < matchers@.len() ==> (#[trigger] matchers@[j]).expr() == orig[j].expr(),
            forall|j: int| i <= j < matchers@.len() ==> #[trigger] matchers@[j] == orig[j],
            chained(matchers@),
            forall|j: int| 0 <= j < matchers@.len() ==> words_fit((#[trigger] matchers@[j]).seen(), len),
            forall|j: int| 1 <= j < i ==> (#[trigger] matchers@[j]).seen() == matchers@[j - 1].alive(),
        decreases matchers@.len() - i,
    {
        let ghost before = matchers@;
        let prev: Vec<&'word Word> = matchers[i - 1].alive_wordlist.clone();
        let ghost p = before[i - 1];
        let ghost m = before[i as int];
        proof {
            assert(prev@.map_values(|w: &'word Word| *w) == p.alive());
            m.lemma_alive();
            p.lemma_alive();
            assert(chained_at(before, i as int));
            assert forall|k: int| m.index() <= k < prev@.len() implies (#[trigger] prev@[k]).chars@.len() < m.max_len() by {
                assert(*prev@[k] == p.alive()[k]);
                lemma_viable_words_in(p.expr(), p.seen(), k);
                let q = choose|q: int| 0 <= q < p.seen().len() && p.seen()[q] == p.alive()[k];
                assert(words_fit(p.seen(), len));
            }
        }
        let _ = matchers[i].last_single_word(&prev);
        proof {
            let m2 = matchers@[i as int];
            let portion = words_between(prev@, m.index() as int, prev@.len() as int);
            assert(portion =~= p.alive().skip(m.seen().len() as int));
            assert(m2.seen() =~= p.alive()) by {
                assert(p.alive() =~= p.alive().take(m.seen().len() as int) + p.alive().skip(m.seen().len() as int));
            }
            assert forall|k: int| 0 <= k < m2.seen().len() implies (#[trigger] m2.seen()[k]).chars@.len() < len by {
                lemma_viable_words_in(p.expr(), p.seen(), k);
                let q = choose|q: int| 0 <= q < p.seen().len() && p.seen()[q] == p.alive()[k];
                assert(words_fit(p.seen(), len));
            }
            m2.lemma_alive();
            lemma_viable_words_append(m.expr(), m.seen(), portion);
            assert(m2.alive().take(m.alive().len() as int) =~= m.alive());
            assert forall|j: int| 1 <= j < matchers@.len() implies #[trigger] chained_at(matchers@, j) by {
                if j < i {
                    assert(matchers@[j] == before[j]);
                    assert(matchers@[j - 1] == before[j - 1]);
                    assert(chained_at(before, j));
                } else if j == i {
                    assert(p.alive().take(p.alive().len() as int) =~= p.alive());
                } else if j == i + 1 {
                    assert(matchers@[j] == before[j]);
                    assert(chained_at(before, j));
                    let k = before[j].seen().len() as int;
                    assert(m.alive().take(k) == before[j].seen());
                    assert(m2.alive().take(k) =~= m.alive().take(k));
                } else {
                    assert(matchers@[j] == before[j]);
                    assert(matchers@[j - 1] == before[j - 1]);
                    assert(chained_at(before, j));
                }
            }
            assert forall|j: int| 1 <= j < i + 1 implies (#[trigger] matchers@[j]).seen() == matchers@[j - 1].alive() by {
                if j < i {
                    assert(matchers@[j] == before[j]);
                    assert(matchers@[j - 1] == before[j - 1]);
                }
            }
        }
        i += 1;
    }
}


/// The words of `ws` that each expression of `es` in turn finds viable, each among
/// the words the ones before it kept.
pub open spec fn alive_in_all(es: Seq<Expression>, ws: Seq<Word>) -> Seq<Word>
    decreases es.len(),
{
    if es.len() == 0 {
        ws
    } else {
        viable_words(es.last(), alive_in_all(es.drop_last(), ws))
    }
}

/// Where each matcher after the first has seen exactly the alive words of the one
/// before, matcher `k` keeps alive the words that the first `k + 1` expressions keep.
pub proof fn lemma_alive_in_all(ms: Seq<WordMatcher>, len: nat, es: Seq<Expression>, k: int)
    requires
        all_ready(ms, len),
        es.len() == ms.len(),
        forall|j: int| 0 <= j < ms.len() ==> (#[trigger] ms[j]).expr() == es[j],
        forall|j: int| 1 <= j < ms.len() ==> (#[trigger] ms[j]).seen() == ms[j - 1].alive(),
        0 <= k < ms.len(),
    ensures
        ms[k].alive() == alive_in_all(es.take(k + 1), ms[0].seen()),
    decreases k,
{
    ms[k].lemma_alive();
    let t = es.take(k + 1);
    assert(t.last() == es[k]);
    assert(t.len() > 0);
    assert(alive_in_all(t, ms[0].seen()) == viable_words(es[k], alive_in_all(t.drop_last(), ms[0].seen())));
    if k == 0 {
        assert(t.drop_last() =~= Seq::<Expression>::empty());
        assert(alive_in_all(t.drop_last(), ms[0].seen()) == ms[0].seen());
    } else {
        lemma_alive_in_all(ms, len, es, k - 1);
        assert(t.drop_last() =~= es.take(k));
        assert(ms[k].seen() == ms[k - 1].alive());
    }
}

/// The next word of `wordlist` that matches the expressions of all the matchers (the
/// single-word stage of a query): the first matcher reads the list from the first
/// word it has not seen, and each later matcher reads the words that the one before
/// it keeps alive. Returns `None` once the first matcher has seen every word, or,
/// with a deadline, possibly earlier once it has passed.
#[verifier::rlimit(50)]
pub fn next_word_match<'word>(matchers: &mut Vec<WordMatcher<'word>>, wordlist: &[&'word Word], deadline: Option<Instant>) -> (r: Option<&'word Word>)
    requires
        old(matchers)@.len() >= 1,
        all_ready(old(matchers)@, old(matchers)@[0].max_len()),
        chained(old(matchers)@),
        forall|j: int| 0 <= j < old(matchers)@.len() ==> words_fit((#[trigger] old(matchers)@[j]).seen(), old(matchers)@[0].max_len()),
        forall|k: int|
            old(matchers)@[0].index() <= k < wordlist@.len() ==> (#[trigger] wordlist@[k]).chars@.len() < old(matchers)@[0].max_len(),
    ensures
        final(matchers)@.len() == old(matchers)@.len(),
        all_ready(final(matchers)@, old(matchers)@[0].max_len()),
        chained(final(matchers)@),
        forall|j: int| 0 <= j < final(matchers)@.len() ==> (#[trigger] final(matchers)@[j]).expr() == old(matchers)@[j].expr(),
        forall|j: int| 0 <= j < final(matchers)@.len() ==> words_fit((#[trigger] final(matchers)@[j]).seen(), old(matchers)@[0].max_len()),
        ({
            let a = old(matchers)@[0].index() as int;
            let b = final(matchers)@[0].index() as int;
            &&& b == a || a < b <= wordlist@.len()
            &&& final(matchers)@[0].seen() == old(matchers)@[0].seen() + words_between(wordlist@, a, b)
            &&& forall|k: int| a <= k < b && (r is None || k < b - 1) ==> !matches_all(old(matchers)@, *(#[trigger] wordlist@[k]))
            &&& match r {
                Some(w) => a < b && w == wordlist@[b - 1] && matches_all(old(matchers)@, *w),
                None => deadline is None ==> b >= wordlist@.len(),
            }
        }),
{
    let ghost orig = matchers@;
    assert(orig == old(matchers)@);
    let ghost len = orig[0].max_len();
    let ghost a = orig[0].index() as int;
    proof {
        assert(words_between(wordlist@, a, a) =~= Seq::<Word>::empty());
        assert(orig[0].seen() + Seq::<Word>::empty() =~= orig[0].seen());
    }
    loop
        invariant
            orig == old(matchers)@,
            matchers@.len() == orig.len(),
            orig.len() >= 1,
            len == orig[0].max_len(),
            a == orig[0].index(),
            all_ready(matchers@, len),
            chained(matchers@),
            forall|j: int| 0 <= j < matchers@.len() ==> (#[trigger] matchers@[j]).expr() == orig[j].expr(),
            forall|j: int| 0 <= j < matchers@.len() ==> words_fit((#[trigger] matchers@[j]).seen(), len),
            matchers@[0].index() == a || a < matchers@[0].index() <= wordlist@.len(),
            matchers@[0].seen() == orig[0].seen() + words_between(wordlist@, a, matchers@[0].index() as int),
            forall|k: int| a <= k < matchers@[0].index() ==> !matches_all(orig, *(#[trigger] wordlist@[k])),
            forall|k: int| matchers@[0].index() <= k < wordlist@.len() ==> (#[trigger] wordlist@[k]).chars@.len() < len,
        decreases wordlist@.len() - matchers@[0].index(),
    {
        let ghost before = matchers@;
        let ghost m0 = before[0];
        proof {
            m0.lemma_alive();
        }
        let found = matchers[0].next_single_word(wordlist, deadline);
        let ghost after0 = matchers@[0];
        let ghost b = after0.index() as int;
        proof {
            lemma_words_between_split(wordlist@, a, m0.index() as int, b);
            assert(after0.seen() == orig[0].seen() + words_between(wordlist@, a, b));
            assert forall|k: int| m0.index() <= k < b && (found is None || k < b - 1) implies !matches_all(orig, *(#[trigger] wordlist@[k])) by {
                assert(!after0.expr().matches_chars(wordlist@[k].chars@));
                assert(orig[0].expr() == after0.expr());
            }
            assert forall|k: int| 0 <= k < after0.seen().len() implies (#[trigger] after0.seen()[k]).chars@.len() < len by {
                if k < m0.seen().len() {
                    assert(after0.seen()[k] == m0.seen()[k]);
                } else {
                    assert(after0.seen()[k] == *wordlist@[m0.index() + (k - m0.seen().len())]);
                }
            }
            assert(all_ready(matchers@, len)) by {
                assert forall|j: int| 0 <= j < matchers@.len() implies (#[trigger] matchers@[j]).wf() && matchers@[j].max_len() == len by {
                    if j > 0 {
                        assert(matchers@[j] == before[j]);
                    }
                }
            }
            after0.lemma_alive();
            lemma_viable_words_append(m0.expr(), m0.seen(), words_between(wordlist@, m0.index() as int, b));
            assert(after0.alive().take(m0.alive().len() as int) =~= m0.alive());
            assert forall|j: int| 1 <= j < matchers@.len() implies #[trigger] chained_at(matchers@, j) by {
                assert(matchers@[j] == before[j]);
                assert(chained_at(before, j));
                if j > 1 {
                    assert(matchers@[j - 1] == before[j - 1]);
                } else {
                    let k = before[1].seen().len() as int;
                    assert(after0.alive().take(k) =~= m0.alive().take(k));
                }
            }
            assert forall|j: int| 0 <= j < matchers@.len() implies words_fit((#[trigger] matchers@[j]).seen(), len) by {
                if j > 0 {
                    assert(matchers@[j] == before[j]);
                }
            }
        }
        let word = match found {
            Some(w) => w,
            None => {
                return None;
            },
        };
        proof {
            after0.lemma_alive();
            let wb = words_between(wordlist@, m0.index() as int, b);
            lemma_viable_words_append(m0.expr(), m0.seen(), wb);
            assert(wb.last() == *word);
            if !m0.expr().viable(word.chars@) {
                m0.lemma_expr_wf();
                m0.expr().lemma_not_viable(word.chars@);
            }
            assert(wb.drop_last() + seq![*word] =~= wb);
            lemma_viable_words_append(m0.expr(), wb.drop_last(), seq![*word]);
            assert(viable_words(m0.expr(), seq![*word]) == seq![*word]) by {
                assert(seq![*word].drop_last() =~= Seq::<Word>::empty());
            }
            assert(after0.alive().last() == *word);
            if matchers@.len() >= 2 {
                assert(matchers@[1] == before[1]);
                assert(chained_at(before, 1));
                assert(after0.alive().len() > m0.alive().len());
            }
        }
        let all_match = match_through(matchers, word, Ghost(len));
        proof {
            assert forall|j: int| 0 <= j < matchers@.len() implies (#[trigger] matchers@[j]).expr() == orig[j].expr() by {
            }
            if !all_match {
                assert(!matches_all(orig, *word)) by {
                    if matches_all(orig, *word) {
                        assert forall|j: int| 0 <= j < matchers@.len() implies (#[trigger] matchers@[j]).expr().matches_chars(word.chars@) by {
                            assert(orig[j].expr().matches_chars(word.chars@));
                        }
                    }
                }
            } else {
                assert forall|j: int| 0 <= j < orig.len() implies (#[trigger] orig[j]).expr().matches_chars(word.chars@) by {
                    assert(matchers@[j].expr().matches_chars(word.chars@));
                }
            }
            assert(word == wordlist@[b - 1]);
        }
        if all_match {
            return Some(word);
        }
    }
}


/// Whether the tables of a matcher for the expression fit in memory addresses (see
/// `table_shape_ok`).
pub fn shape_fits(expression: &Expression) -> (r: bool)
    requires
        expression.wf(),
    ensures
        r == (expression.max_fuzz() < usize::MAX && table_shape_ok(expression@.len() as int, expression.max_fuzz() + 1)),
{
    proof {
        expression.lemma_wf();
    }
    let n = expression.states_len();
    let fuzz = expression.fuzz_value();
    if fuzz == usize::MAX {
        return false;
    }
    let flim = fuzz + 1;
    let rb = blocks_for_exec(n);
    let ghost shape_ok = table_shape_ok(n as int, flim as int);
    proof {
        assert((n as usize) as int == n);
        assert((flim as usize) as int == flim);
    }
    match n.checked_mul(flim) {
        None => {
            return false;
        },
        Some(total) => match total.checked_mul(rb) {
            None => {
                proof {
                    assert(!shape_ok) by {
                        if shape_ok {
                            assert(n * flim * rb * 64 <= usize::MAX);
                            assert(n * flim * rb <= n * flim * rb * 64) by (nonlinear_arith)
                                requires
                                    n * flim * rb >= 0,
                            ;
                        }
                    }
                }
                return false;
            },
            Some(len) => match len.checked_mul(64) {
                None => {
                    return false;
                },
                Some(_) => {
                    proof {
                        assert(0 <= flim * rb <= n * flim * rb) by (nonlinear_arith)
                            requires
                                1 <= n,
                                0 <= flim,
                                0 <= rb,
                        ;
                        assert(0 <= n * flim) by (nonlinear_arith)
                            requires
                                0 <= n,
                                0 <= flim,
                        ;
                        assert(0 <= n * flim * rb) by (nonlinear_arith)
                            requires
                                0 <= n * flim,
                                0 <= rb,
                        ;
                        assert(flim * rb * 64 <= n * flim * rb * 64) by (nonlinear_arith)
                            requires
                                0 <= flim * rb <= n * flim * rb,
                        ;
                        assert(flim <= n * flim) by (nonlinear_arith)
                            requires
                                1 <= n,
                                0 <= flim,
                        ;
                    }
                    return true;
                },
            },
        },
    }
}

/// The word matchers that a query evaluation starts with: one for each expression,
/// taking words of up to the longest word of the list.
pub fn word_matchers<'word>(expressions: Vec<Expression>, input_wordlist: &[&'word Word]) -> (r: Vec<WordMatcher<'word>>)
    requires
        expressions@.len() >= 1,
        forall|i: int|
            0 <= i < expressions@.len() ==> (#[trigger] expressions@[i]).wf() && expressions@[i].max_fuzz() < usize::MAX
                && table_shape_ok(expressions@[i]@.len() as int, expressions@[i].max_fuzz() + 1),
        forall|k: int| 0 <= k < input_wordlist@.len() ==> (#[trigger] input_wordlist@[k]).chars@.len() < usize::MAX,
    ensures
        r@.len() == expressions@.len(),
        all_ready(r@, r@[0].max_len()),
        chained(r@),
        forall|i: int| 0 <= i < r@.len() ==> (#[trigger] r@[i]).expr() == expressions@[i],
        forall|i: int| 0 <= i < r@.len() ==> (#[trigger] r@[i]).index() == 0 && r@[i].seen().len() == 0,
        forall|k: int| 0 <= k < input_wordlist@.len() ==> (#[trigger] input_wordlist@[k]).chars@.len() < r@[0].max_len(),
        forall|k: int| 0 <= k < input_wordlist@.len() ==> (#[trigger] input_wordlist@[k]).chars@.len() + 1 <= r@[0].max_len(),
        (exists|k: int| 0 <= k < input_wordlist@.len() && (#[trigger] input_wordlist@[k]).chars@.len() + 1 == r@[0].max_len())
            || (input_wordlist@.len() == 0 && r@[0].max_len() == 1),
{
    let mut longest: usize = 0;
    let mut k: usize = 0;
    while k < input_wordlist.len()
        invariant
            k <= input_wordlist@.len(),
            forall|j: int| 0 <= j < input_wordlist@.len() ==> (#[trigger] input_wordlist@[j]).chars@.len() < usize::MAX,
            forall|j: int| 0 <= j < k ==> (#[trigger] input_wordlist@[j]).chars@.len() <= longest,
            (k == 0 && longest == 0) || exists|j: int| 0 <= j < k && (#[trigger] input_wordlist@[j]).chars@.len() == longest,
            longest < usize::MAX,
        decreases input_wordlist@.len() - k,
    {
        let l = input_wordlist[k].chars.len();
        if l > longest {
            longest = l;
        }
        k += 1;
    }
    let max_word_len = 1 + longest;
    let ghost reached = (exists|j: int| 0 <= j < input_wordlist@.len() && (#[trigger] input_wordlist@[j]).chars@.len() + 1 == max_word_len)
        || (input_wordlist@.len() == 0 && max_word_len == 1);
    proof {
        if k > 0 {
            let j = choose|j: int| 0 <= j < k && (#[trigger] input_wordlist@[j]).chars@.len() == longest;
            assert(input_wordlist@[j].chars@.len() + 1 == max_word_len);
        }
    }
    assert(reached);
    let mut matchers: Vec<WordMatcher<'word>> = Vec::new();
    let mut expressions = expressions;
    let ghost all = expressions@;
    let mut i: usize = 0;
    let count = expressions.len();
    let mut rest: Vec<Expression> = Vec::new();
    // take the expressions in order
    while expressions.len() > 0
        invariant
            all.len() == count,
            rest@.len() + expressions@.len() == count,
            rest@ == all.subrange(expressions@.len() as int, count as int).reverse(),
            expressions@ == all.subrange(0, expressions@.len() as int),
        decreases expressions@.len(),
    {
        let e = expressions.pop().unwrap();
        rest.push(e);
        proof {
            assert(rest@ =~= all.subrange(expressions@.len() as int, count as int).reverse());
        }
    }
    while rest.len() > 0
        invariant
            all.len() == count,
            count >= 1,
            rest@.len() + matchers@.len() == count,
            rest@ == all.subrange(matchers@.len() as int, count as int).reverse(),
            forall|j: int|
                0 <= j < all.len() ==> (#[trigger] all[j]).wf() && all[j].max_fuzz() < usize::MAX && table_shape_ok(
                    all[j]@.len() as int,
                    all[j].max_fuzz() + 1,
                ),
            forall|j: int| 0 <= j < matchers@.len() ==> (#[trigger] matchers@[j]).wf() && matchers@[j].max_len() == max_word_len,
            forall|j: int| 0 <= j < matchers@.len() ==> (#[trigger] matchers@[j]).expr() == all[j],
            forall|j: int| 0 <= j < matchers@.len() ==> (#[trigger] matchers@[j]).index() == 0 && matchers@[j].seen().len() == 0 && matchers@[j].alive().len() == 0,
        decreases rest@.len(),
    {
        let ghost j = matchers@.len() as int;
        let e = rest.pop().unwrap();
        proof {
            assert(e == all[j]);
            assert(rest@ =~= all.subrange(j + 1, count as int).reverse());
        }
        let m = WordMatcher::new(e, max_word_len);
        proof {
            m.lemma_alive();
        }
        matchers.push(m);
    }
    proof {
        assert forall|j: int| 1 <= j < matchers@.len() implies #[trigger] chained_at(matchers@, j) by {
            assert(matchers@[j].seen().len() == 0);
            assert(matchers@[j - 1].alive().take(0) =~= matchers@[j].seen());
        }
        assert(matchers@[0].max_len() == max_word_len);
    }
    matchers
}

} // verus!
