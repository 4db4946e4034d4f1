//! The depth-first search for phrases: phrases of the length of the current search
//! phase, tried in order of their words, each followed word by word in every phrase
//! matcher, and given up as soon as some matcher is left with no state.
use crate::bitset::BitSet2D;
use crate::expression::Expression;
use crate::matcher::{instant_later, instant_now, list2_ok, ref2_rows, step_upto, PhraseMatcher};
use crate::search::{count_upto_tranche, tranches_sorted, SearchPhase};
use crate::words::{Tranche, Word};
use std::time::Instant;
use vstd::prelude::*;

verus! {

/// The states of `pm`, by fuzz, after the alive words at the positions `path` in
/// turn, from its start states.
pub open spec fn path_rows(pm: PhraseMatcher, path: Seq<usize>) -> spec_fn(usize) -> Set<int>
    decreases path.len(),
{
    if path.len() == 0 {
        pm.start_rows()
    } else {
        |g: usize|
            step_upto(
                pm.n() as int,
                pm.class_rows(pm.word_class_list()[path.last() as int] as int),
                path_rows(pm, path.drop_last()),
                pm.flim() as int,
                g,
            )
    }
}

/// Some state of `pm` is left after the words at `path`.
pub open spec fn path_alive(pm: PhraseMatcher, path: Seq<usize>) -> bool {
    exists|g: usize| g < pm.flim() && #[trigger] path_rows(pm, path)(g) != Set::<int>::empty()
}

/// The words at `path` lead `pm` to its success state within its fuzz.
pub open spec fn path_accepted(pm: PhraseMatcher, path: Seq<usize>) -> bool {
    exists|g: usize| g < pm.flim() && #[trigger] path_rows(pm, path)(g).contains(pm.n() - 1)
}

/// Each matcher is consistent, has a class for each of `len` words, and none of
/// those is the class of the empty table.
pub open spec fn matchers_ok(ms: Seq<PhraseMatcher>, len: nat) -> bool {
    forall|m: int|
        0 <= m < ms.len() ==> {
            &&& (#[trigger] ms[m]).wf()
            &&& ms[m].word_class_list().len() == len
            &&& forall|w: int| 0 <= w < len ==> #[trigger] ms[m].word_class_list()[w] != 0
        }
}

/// The highest tranche of the words at `path`.
pub open spec fn top_tranche(ws: Seq<&Word>, path: Seq<usize>) -> int
    decreases path.len(),
{
    if path.len() == 0 {
        0
    } else {
        let t = ws[path.last() as int].tranche as int;
        let rest = top_tranche(ws, path.drop_last());
        if rest >= t {
            rest
        } else {
            t
        }
    }
}

/// The words at `path`.
pub open spec fn words_at<'word>(ws: Seq<&'word Word>, path: Seq<usize>) -> Seq<&'word Word> {
    Seq::new(path.len(), |i: int| ws[path[i] as int])
}

/// The number of positions in a search tree of height `h` whose nodes each have
/// `b` children.
spec fn subtree_size(b: int, h: nat) -> int
    decreases h,
{
    if h == 0 {
        1
    } else {
        1 + b * subtree_size(b, (h - 1) as nat)
    }
}

/// The positions of a search of depth `d` over `b` words that come after the
/// subtrees of the positions on `path`.
spec fn later_size(path: Seq<usize>, b: int, d: int) -> int
    decreases path.len(),
{
    if path.len() == 0 {
        0
    } else {
        later_size(path.drop_last(), b, d) + (b - 1 - path.last()) * subtree_size(b, (d - path.len()) as nat)
    }
}

/// The positions left to try from `path` on.
spec fn search_left(path: Seq<usize>, b: int, d: int) -> int {
    subtree_size(b, (d - path.len()) as nat) + later_size(path, b, d)
}

proof fn lemma_subtree_positive(b: int, h: nat)
    requires
        b >= 0,
    ensures
        subtree_size(b, h) >= 1,
    decreases h,
{
    if h > 0 {
        lemma_subtree_positive(b, (h - 1) as nat);
        assert(b * subtree_size(b, (h - 1) as nat) >= 0) by (nonlinear_arith)
            requires
                b >= 0,
                subtree_size(b, (h - 1) as nat) >= 1,
        ;
    }
}

proof fn lemma_later_nonnegative(path: Seq<usize>, b: int, d: int)
    requires
        b >= 1,
        forall|j: int| 0 <= j < path.len() ==> #[trigger] path[j] < b,
    ensures
        later_size(path, b, d) >= 0,
    decreases path.len(),
{
    if path.len() > 0 {
        lemma_later_nonnegative(path.drop_last(), b, d);
        let t = subtree_size(b, (d - path.len()) as nat);
        lemma_subtree_positive(b, (d - path.len()) as nat);
        assert((b - 1 - path.last()) * t >= 0) by (nonlinear_arith)
            requires
                b - 1 - path.last() >= 0,
                t >= 1,
        ;
    }
}

/// Going one word deeper leaves one position fewer.
proof fn lemma_left_descend(path: Seq<usize>, b: int, d: int)
    requires
        b >= 1,
        path.len() < d,
    ensures
        search_left(path.push(0), b, d) == search_left(path, b, d) - 1,
{
    let p = path.push(0);
    assert(p.drop_last() =~= path);
    let h = (d - path.len() - 1) as nat;
    assert((d - p.len()) as nat == h);
    assert((d - path.len()) as nat == h + 1);
    let t = subtree_size(b, h);
    assert(subtree_size(b, h + 1) == 1 + b * t);
    assert((b - 1 - 0) * t + t == b * t) by (nonlinear_arith);
}

/// Moving to the next word at the last position leaves fewer positions.
proof fn lemma_left_next(path: Seq<usize>, b: int, d: int)
    requires
        b >= 1,
        b <= usize::MAX,
        path.len() >= 1,
        path.last() + 1 < b,
    ensures
        later_size(path, b, d) < search_left(path, b, d),
        search_left(path.update(path.len() - 1, (path.last() + 1) as usize), b, d) == later_size(path, b, d),
{
    let l = path.len() - 1;
    let q = path.update(l, (path.last() + 1) as usize);
    assert(q.drop_last() =~= path.drop_last());
    assert(q.last() == path.last() + 1);
    assert(q.len() == path.len());
    let t = subtree_size(b, (d - path.len()) as nat);
    lemma_subtree_positive(b, (d - path.len()) as nat);
    assert((b - 1 - path.last()) * t == (b - 1 - (path.last() + 1)) * t + t) by (nonlinear_arith);
}

/// At the last word of the last position, the positions after its subtree are those
/// after the subtrees of the positions before it.
proof fn lemma_left_ascend(path: Seq<usize>, b: int, d: int)
    requires
        path.len() >= 1,
        path.last() + 1 == b,
    ensures
        later_size(path, b, d) == later_size(path.drop_last(), b, d),
{
    let t = subtree_size(b, (d - path.len()) as nat);
    assert((b - 1 - path.last()) * t == 0) by (nonlinear_arith)
        requires
            b - 1 - path.last() == 0,
    ;
}

/// The states after a path hold states of the matcher.
proof fn lemma_path_rows_bounded(pm: PhraseMatcher, path: Seq<usize>)
    requires
        pm.wf(),
        forall|j: int| 0 <= j < path.len() ==> #[trigger] path[j] < pm.word_class_list().len(),
    ensures
        forall|g: usize, x: int| g < pm.flim() && #[trigger] path_rows(pm, path)(g).contains(x) ==> 0 <= x < pm.n(),
    decreases path.len(),
{
    pm.lemma_consistent();
    if path.len() > 0 {
        lemma_path_rows_bounded(pm, path.drop_last());
        let c = pm.word_class_list()[path.last() as int] as int;
        assert forall|g: usize, x: int| g < pm.flim() && #[trigger] path_rows(pm, path)(g).contains(x) implies 0 <= x < pm.n() by {
            let prev = path_rows(pm, path.drop_last());
            let (f, dst) = choose|f: usize, dst: int|
                f < pm.flim() && f <= g && #[trigger] prev(f).contains(dst) && 0 <= dst < pm.n() && pm.class_rows(c)(
                    dst as usize,
                    (g - f) as usize,
                ).contains(x);
            assert(pm.class_rows(c)(dst as usize, (g - f) as usize).contains(x));
        }
    }
}

/// The highest tranche of a path is at least that of each of its words, and it is
/// the tranche of one of them.
proof fn lemma_top_tranche(ws: Seq<&Word>, path: Seq<usize>)
    requires
        path.len() >= 1,
    ensures
        forall|j: int| 0 <= j < path.len() ==> ws[#[trigger] path[j] as int].tranche <= top_tranche(ws, path),
        exists|j: int| 0 <= j < path.len() && ws[#[trigger] path[j] as int].tranche == top_tranche(ws, path),
    decreases path.len(),
{
    if path.len() > 1 {
        lemma_top_tranche(ws, path.drop_last());
        assert forall|j: int| 0 <= j < path.len() implies ws[#[trigger] path[j] as int].tranche <= top_tranche(ws, path) by {
            if j < path.len() - 1 {
                assert(path[j] == path.drop_last()[j]);
            }
        }
        if top_tranche(ws, path) == top_tranche(ws, path.drop_last()) {
            let j = choose|j: int| 0 <= j < path.drop_last().len() && ws[#[trigger] path.drop_last()[j] as int].tranche == top_tranche(ws, path.drop_last());
            assert(path[j] == path.drop_last()[j]);
        } else {
            assert(path[path.len() - 1] == path.last());
            assert(ws[path[path.len() - 1] as int].tranche == top_tranche(ws, path));
        }
    } else {
        assert(path.drop_last().len() == 0);
        assert(top_tranche(ws, path.drop_last()) == 0);
        assert(path[0] == path.last());
        assert(ws[path[0] as int].tranche == top_tranche(ws, path));
    }
}

/// In a list in order of tranche, the words of tranche `t` or lower come first.
proof fn lemma_tranche_prefix(ws: Seq<&Word>, t: int)
    requires
        tranches_sorted(ws),
    ensures
        count_upto_tranche(ws, t) <= ws.len(),
        forall|k: int| 0 <= k < ws.len() ==> (k < count_upto_tranche(ws, t) <==> (#[trigger] ws[k]).tranche <= t),
    decreases ws.len(),
{
    if ws.len() > 0 {
        let v = ws.drop_last();
        assert(tranches_sorted(v)) by {
            assert forall|i: int, j: int| 0 <= i < j < v.len() implies (#[trigger] v[i]).tranche <= (#[trigger] v[j]).tranche by {
                assert(v[i] == ws[i] && v[j] == ws[j]);
            }
        }
        lemma_tranche_prefix(v, t);
        assert forall|k: int| 0 <= k < ws.len() implies (k < count_upto_tranche(ws, t) <==> (#[trigger] ws[k]).tranche <= t) by {
            if k < ws.len() - 1 {
                assert(ws[k] == v[k]);
                if ws.last().tranche <= t {
                    assert(ws[k].tranche <= ws[ws.len() - 1].tranche);
                    assert(v[k].tranche <= t);
                }
            } else {
                if ws.last().tranche <= t {
                    assert forall|i: int| 0 <= i < v.len() implies (#[trigger] v[i]).tranche <= t by {
                        assert(ws[i].tranche <= ws[ws.len() - 1].tranche);
                    }
                    if count_upto_tranche(v, t) < v.len() {
                        assert(v[v.len() - 1].tranche <= t);
                    }
                }
            }
        }
    }
}

/// The step of one matcher through the word at the end of the path: its states after
/// the whole path, from its states before the last word.
fn step_matcher(pm: &PhraseMatcher, prev: &BitSet2D, word_index: usize, Ghost(path): Ghost<Seq<usize>>) -> (r: BitSet2D)
    requires
        pm.wf(),
        path.len() >= 1,
        path.last() == word_index,
        word_index < pm.word_class_list().len(),
        pm.word_class_list()[word_index as int] != 0,
        forall|j: int| 0 <= j < path.len() ==> #[trigger] path[j] < pm.word_class_list().len(),
        list2_ok(*prev, pm.n(), pm.flim()),
        forall|g: usize| g < pm.flim() ==> #[trigger] prev.row(g) == path_rows(*pm, path.drop_last())(g),
    ensures
        list2_ok(r, pm.n(), pm.flim()),
        forall|g: usize| g < pm.flim() ==> #[trigger] r.row(g) == path_rows(*pm, path)(g),
{
    proof {
        pm.lemma_consistent();
        lemma_path_rows_bounded(*pm, path.drop_last());
    }
    let mut next = pm.empty_table();
    let pr = prev.borrow();
    pm.step_by_word_index(word_index, pr, &mut next);
    proof {
        assert forall|g: usize| g < pm.flim() implies #[trigger] next.row(g) == path_rows(*pm, path)(g) by {
            let c = pm.word_class_list()[word_index as int] as int;
            let a = step_upto(pm.n() as int, pm.class_rows(c), ref2_rows(pr), pm.flim() as int, g);
            let b = step_upto(pm.n() as int, pm.class_rows(c), path_rows(*pm, path.drop_last()), pm.flim() as int, g);
            assert(a =~= b) by {
                assert forall|x: int| #[trigger] a.contains(x) == b.contains(x) by {
                    if a.contains(x) {
                        let (f, dst) = choose|f: usize, dst: int|
                            f < pm.flim() && f <= g && #[trigger] ref2_rows(pr)(f).contains(dst) && 0 <= dst < pm.n()
                                && pm.class_rows(c)(dst as usize, (g - f) as usize).contains(x);
                        assert(path_rows(*pm, path.drop_last())(f).contains(dst));
                    }
                    if b.contains(x) {
                        let (f, dst) = choose|f: usize, dst: int|
                            f < pm.flim() && f <= g && #[trigger] path_rows(*pm, path.drop_last())(f).contains(dst) && 0 <= dst < pm.n()
                                && pm.class_rows(c)(dst as usize, (g - f) as usize).contains(x);
                        assert(ref2_rows(pr)(f).contains(dst));
                    }
                }
            }
            assert(Set::<int>::empty().union(a) =~= a);
        }
    }
    next
}

/// The end of a step of the search: a phrase found, the deadline passed, or no phase
/// left to search.
pub enum PhraseStep<'word> {
    Match(Vec<&'word Word>),
    Timeout,
    Complete,
}

/// The phases can be searched over the words: each is of at least one word, and no
/// word is of a lower tranche than the first.
pub open spec fn phases_ok(q: Seq<SearchPhase>, ws: Seq<&Word>) -> bool {
    forall|i: int| 0 <= i < q.len() ==> 1 <= (#[trigger] q[i]).depth && ws[0].tranche <= q[i].tranche
}

/// The words at `path` make a phrase that the phase `ph` of `q` looks for: as many
/// words as its depth, of highest tranche its tranche, accepted by every matcher.
pub open spec fn phrase_found(ms: Seq<PhraseMatcher>, ws: Seq<&Word>, q: Seq<SearchPhase>, path: Seq<usize>, ph: SearchPhase) -> bool {
    &&& q.contains(ph)
    &&& path.len() == ph.depth
    &&& forall|j: int| 0 <= j < path.len() ==> #[trigger] path[j] < ws.len()
    &&& top_tranche(ws, path) == ph.tranche
    &&& forall|m: int| 0 <= m < ms.len() ==> path_accepted(#[trigger] ms[m], path)
}

/// The phases of `q` that stay after a phase `done` in which no phrase of its length
/// left a state in every matcher: those of a higher tranche or of fewer words.
pub open spec fn kept_phases(q: Seq<SearchPhase>, done: SearchPhase) -> Seq<SearchPhase>
    decreases q.len(),
{
    if q.len() == 0 {
        Seq::empty()
    } else if q.last().tranche > done.tranche || q.last().depth < done.depth {
        kept_phases(q.drop_last(), done).push(q.last())
    } else {
        kept_phases(q.drop_last(), done)
    }
}

proof fn lemma_kept_phases(q: Seq<SearchPhase>, done: SearchPhase)
    ensures
        kept_phases(q, done).len() <= q.len(),
        forall|i: int| 0 <= i < kept_phases(q, done).len() ==> q.contains(#[trigger] kept_phases(q, done)[i]),
    decreases q.len(),
{
    if q.len() > 0 {
        lemma_kept_phases(q.drop_last(), done);
        let k = kept_phases(q, done);
        let k0 = kept_phases(q.drop_last(), done);
        assert forall|i: int| 0 <= i < k.len() implies q.contains(#[trigger] k[i]) by {
            if i < k0.len() {
                assert(k[i] == k0[i]);
                assert(q.drop_last().contains(k0[i]));
                let j = choose|j: int| 0 <= j < q.drop_last().len() && q.drop_last()[j] == k0[i];
                assert(q[j] == k0[i]);
            } else {
                assert(k[i] == q[q.len() - 1]);
            }
        }
    }
}

/// The phases of `queue` that stay after the phase `done` (see `kept_phases`).
fn keep_phases(queue: &Vec<SearchPhase>, done: SearchPhase) -> (r: Vec<SearchPhase>)
    ensures
        r@ == kept_phases(queue@, done),
{
    let mut r: Vec<SearchPhase> = Vec::new();
    let mut k: usize = 0;
    while k < queue.len()
        invariant
            k <= queue@.len(),
            r@ == kept_phases(queue@.take(k as int), done),
        decreases queue@.len() - k,
    {
        let p = queue[k];
        proof {
            assert(queue@.take(k + 1).drop_last() =~= queue@.take(k as int));
            assert(queue@.take(k + 1).last() == p);
        }
        if p.tranche > done.tranche || p.depth < done.depth {
            r.push(p);
        }
        k += 1;
    }
    proof {
        assert(queue@.take(queue@.len() as int) =~= queue@);
    }
    r
}

/// The phrase search over the alive words: the phases left, the phrase tried so far
/// and each matcher's states along it.
pub struct PhraseSearch<'word> {
    matchers: Vec<PhraseMatcher>,
    wordlist: Vec<&'word Word>,
    search_queue: Vec<SearchPhase>,
    /// The word tried at each position of the phrase so far.
    path: Vec<usize>,
    /// The highest tranche of the words up to each position.
    path_tranche: Vec<Tranche>,
    /// At each position, each matcher's states, by fuzz, before the word there.
    tables: Vec<Vec<BitSet2D>>,
    /// Whether some phrase of the current phase's length left a state in every
    /// matcher.
    phase_had_partial_match: bool,
}

impl<'word> PhraseSearch<'word> {
    /// The phrase matchers.
    pub closed spec fn matchers_view(&self) -> Seq<PhraseMatcher> {
        self.matchers@
    }

    /// The words that phrases are made of, in order of tranche.
    pub closed spec fn words(&self) -> Seq<&'word Word> {
        self.wordlist@
    }

    /// The phases left, the current one first.
    pub closed spec fn queue(&self) -> Seq<SearchPhase> {
        self.search_queue@
    }

    /// The positions, in the word list, of the words of the phrase tried next.
    pub closed spec fn path_view(&self) -> Seq<usize> {
        self.path@
    }

    /// The search is consistent: matchers with a class for every word, words in
    /// order of tranche, phases that fit them, and a phrase of no more words than the
    /// current phase, of words of its tranche or lower, with the highest tranche and
    /// each matcher's states before each of its words.
    pub closed spec fn wf(&self) -> bool {
        &&& self.core_wf()
        &&& self.phase_had_partial_match == exists|c: Seq<usize>|
            candidate(self.wordlist@, self.search_queue@[0], c) && !pending(c, self.path@) && alive_in_all(self.matchers@, c)
    }

    /// `wf`, but for what the flag of partial matches says.
    closed spec fn core_wf(&self) -> bool {
        let ms = self.matchers@;
        let ws = self.wordlist@;
        let q = self.search_queue@;
        let p = self.path@;
        &&& ms.len() >= 1
        &&& matchers_ok(ms, ws.len())
        &&& ws.len() >= 1
        &&& tranches_sorted(ws)
        &&& q.len() >= 1
        &&& phases_ok(q, ws)
        &&& 1 <= p.len() <= q[0].depth
        &&& self.path_tranche@.len() == p.len()
        &&& self.tables@.len() == p.len()
        &&& forall|j: int| 0 <= j < p.len() ==> (#[trigger] p[j]) < ws.len() && ws[p[j] as int].tranche <= q[0].tranche
        &&& forall|j: int| 0 <= j < p.len() ==> #[trigger] self.path_tranche@[j] == top_tranche(ws, p.take(j + 1))
        &&& forall|j: int| 0 <= j < p.len() ==> (#[trigger] self.tables@[j])@.len() == ms.len()
        &&& forall|j: int, m: int|
            #![trigger self.tables@[j]@[m]]
            0 <= j < p.len() && 0 <= m < ms.len() ==> {
                &&& list2_ok(self.tables@[j]@[m], ms[m].n(), ms[m].flim())
                &&& forall|g: usize| g < ms[m].flim() ==> #[trigger] self.tables@[j]@[m].row(g) == path_rows(ms[m], p.take(j))(g)
            }
    }
}

impl<'word> PhraseSearch<'word> {
    /// A search over the words with the matchers, through the phases of
    /// `search_queue` in order, starting at the first word.
    pub fn new(matchers: Vec<PhraseMatcher>, wordlist: Vec<&'word Word>, search_queue: Vec<SearchPhase>) -> (r: Self)
        requires
            matchers@.len() >= 1,
            matchers_ok(matchers@, wordlist@.len()),
            wordlist@.len() >= 1,
            tranches_sorted(wordlist@),
            search_queue@.len() >= 1,
            phases_ok(search_queue@, wordlist@),
        ensures
            r.wf(),
            r.matchers_view() == matchers@,
            r.words() == wordlist@,
            r.queue() == search_queue@,
            r.path_view() == seq![0usize],
    {
        let mut starts: Vec<BitSet2D> = Vec::new();
        let mut m: usize = 0;
        while m < matchers.len()
            invariant
                m <= matchers@.len(),
                matchers_ok(matchers@, wordlist@.len()),
                starts@.len() == m,
                forall|k: int|
                    0 <= k < m ==> list2_ok(#[trigger] starts@[k], matchers@[k].n(), matchers@[k].flim()) && forall|g: usize|
                        g < matchers@[k].flim() ==> #[trigger] starts@[k].row(g) == matchers@[k].start_rows()(g),
            decreases matchers@.len() - m,
        {
            let t = matchers[m].start_table();
            starts.push(t);
            m += 1;
        }
        let t0 = wordlist[0].tranche;
        let mut path: Vec<usize> = Vec::new();
        path.push(0);
        let mut path_tranche: Vec<Tranche> = Vec::new();
        path_tranche.push(t0);
        let mut tables: Vec<Vec<BitSet2D>> = Vec::new();
        tables.push(starts);
        let r = PhraseSearch { matchers, wordlist, search_queue, path, path_tranche, tables, phase_had_partial_match: false };
        proof {
            assert(r.path@ =~= seq![0usize]);
            assert(r.path@.take(1) =~= r.path@);
            assert(r.path@.take(0) =~= Seq::<usize>::empty());
            assert(r.path@.drop_last() =~= Seq::<usize>::empty());
            assert(top_tranche(r.wordlist@, r.path@.drop_last()) == 0);
            assert(phases_ok(r.search_queue@, r.wordlist@));
            assert(r.search_queue@[0].depth >= 1);
            assert forall|c: Seq<usize>| candidate(r.wordlist@, r.search_queue@[0], c) implies pending(c, r.path@) by {
                lemma_pending_start(c);
            }
        }
        r
    }

    /// The words of the phrase tried now.
    fn current_words(&self) -> (r: Vec<&'word Word>)
        requires
            self.core_wf(),
        ensures
            r@ == words_at(self.words(), self.path_view()),
    {
        let mut r: Vec<&'word Word> = Vec::new();
        let mut j: usize = 0;
        while j < self.path.len()
            invariant
                self.core_wf(),
                j <= self.path@.len(),
                r@ =~= words_at(self.wordlist@, self.path@.take(j as int)),
            decreases self.path@.len() - j,
        {
            r.push(self.wordlist[self.path[j]]);
            j += 1;
            proof {
                assert(r@ =~= words_at(self.wordlist@, self.path@.take(j as int)));
            }
        }
        proof {
            assert(self.path@.take(j as int) =~= self.path@);
        }
        r
    }

    /// Each matcher's states after the whole phrase tried now: whether every
    /// matcher is left with a state, and whether every matcher reaches success.
    /// Where every matcher is left with a state, the states after the phrase.
    fn step_all(&self) -> (r: (Vec<BitSet2D>, bool, bool))
        requires
            self.core_wf(),
        ensures
            r.1 == forall|m: int| 0 <= m < self.matchers_view().len() ==> path_alive(#[trigger] self.matchers_view()[m], self.path_view()),
            r.2 == forall|m: int| 0 <= m < self.matchers_view().len() ==> path_accepted(#[trigger] self.matchers_view()[m], self.path_view()),
            r.1 ==> r.0@.len() == self.matchers_view().len(),
            r.1 ==> forall|m: int|
                0 <= m < self.matchers_view().len() ==> list2_ok(#[trigger] r.0@[m], self.matchers_view()[m].n(), self.matchers_view()[m].flim()),
            r.1 ==> forall|m: int, g: usize|
                0 <= m < self.matchers_view().len() && g < self.matchers_view()[m].flim() ==> #[trigger] r.0@[m].row(g) == path_rows(
                    self.matchers_view()[m],
                    self.path_view(),
                )(g),
    {
        let li = self.path.len() - 1;
        let word_index = self.path[li];
        let ghost ms = self.matchers@;
        let ghost p = self.path@;
        proof {
            assert(p.take(li as int) =~= p.drop_last());
        }
        let mut next: Vec<BitSet2D> = Vec::new();
        let mut all_exact = true;
        let mut m: usize = 0;
        while m < self.matchers.len()
            invariant
                self.core_wf(),
                ms == self.matchers@,
                p == self.path@,
                li == p.len() - 1,
                word_index == p[li as int],
                p.take(li as int) == p.drop_last(),
                m <= ms.len(),
                next@.len() == m,
                forall|k: int| 0 <= k < m ==> list2_ok(#[trigger] next@[k], ms[k].n(), ms[k].flim()),
                forall|k: int, g: usize| 0 <= k < m && g < ms[k].flim() ==> #[trigger] next@[k].row(g) == path_rows(ms[k], p)(g),
                forall|k: int| 0 <= k < m ==> path_alive(#[trigger] ms[k], p),
                all_exact == forall|k: int| 0 <= k < m ==> path_accepted(#[trigger] ms[k], p),
            decreases ms.len() - m,
        {
            let pm = &self.matchers[m];
            proof {
                assert(ms[m as int].wf());
                assert(self.tables@[li as int]@.len() == ms.len());
                assert(list2_ok(self.tables@[li as int]@[m as int], ms[m as int].n(), ms[m as int].flim()));
                assert forall|j: int| 0 <= j < p.len() implies #[trigger] p[j] < ms[m as int].word_class_list().len() by {
                    assert(p[j] < self.wordlist@.len());
                }
                assert(ms[m as int].word_class_list()[word_index as int] != 0);
            }
            let t = step_matcher(pm, &self.tables[li][m], word_index, Ghost(p));
            proof {
                t.lemma_empty_rows();
            }
            if t.borrow().is_empty() {
                proof {
                    assert forall|g: usize| g < ms[m as int].flim() implies #[trigger] path_rows(ms[m as int], p)(g) == Set::<int>::empty() by {
                        assert(t.row(g) == Set::<int>::empty());
                    }
                    assert(!path_alive(ms[m as int], p));
                    assert(!path_accepted(ms[m as int], p)) by {
                        if path_accepted(ms[m as int], p) {
                            let g = choose|g: usize| g < ms[m as int].flim() && #[trigger] path_rows(ms[m as int], p)(g).contains(ms[m as int].n() - 1);
                            assert(t.row(g).contains(ms[m as int].n() - 1));
                        }
                    }
                    assert(self.matchers_view() == ms);
                    assert(self.path_view() == p);
                    assert(!path_alive(self.matchers_view()[m as int], self.path_view()));
                    assert(!path_accepted(self.matchers_view()[m as int], self.path_view()));
                }
                return (next, false, false);
            }
            proof {
                assert(path_alive(ms[m as int], p)) by {
                    let g = choose|g: usize| g < t.shape() && #[trigger] t.row(g) != Set::<int>::empty();
                    assert(path_rows(ms[m as int], p)(g) != Set::<int>::empty());
                }
            }
            let tb = t.borrow();
            if !pm.has_success_state(tb) {
                all_exact = false;
                proof {
                    assert(!path_accepted(ms[m as int], p)) by {
                        if path_accepted(ms[m as int], p) {
                            let g = choose|g: usize| g < ms[m as int].flim() && #[trigger] path_rows(ms[m as int], p)(g).contains(ms[m as int].n() - 1);
                            assert(tb.row(g).contains(ms[m as int].n() - 1));
                        }
                    }
                }
            } else {
                proof {
                    let g = choose|g: usize| g < ms[m as int].flim() && #[trigger] tb.row(g).contains(ms[m as int].n() - 1);
                    assert(path_rows(ms[m as int], p)(g).contains(ms[m as int].n() - 1));
                }
            }
            next.push(t);
            m += 1;
        }
        proof {
            assert(self.matchers_view() == ms);
            assert(self.path_view() == p);
        }
        (next, true, all_exact)
    }
}

impl<'word> PhraseSearch<'word> {
    /// The facts of a consistent search that stepping through it uses: the words of
    /// the current phase's tranche or lower come first, and the phrase tried now is
    /// of those words, with positions left to try.
    proof fn lemma_bounds(&self)
        requires
            self.core_wf(),
        ensures
            ({
                let ws = self.wordlist@;
                let ph = self.search_queue@[0];
                let b = count_upto_tranche(ws, ph.tranche as int) as int;
                &&& 1 <= b <= ws.len()
                &&& forall|k: int| 0 <= k < ws.len() ==> (k < b <==> (#[trigger] ws[k]).tranche <= ph.tranche)
                &&& forall|j: int| 0 <= j < self.path@.len() ==> #[trigger] self.path@[j] < b
                &&& later_size(self.path@, b, ph.depth as int) >= 0
                &&& search_left(self.path@, b, ph.depth as int) > later_size(self.path@, b, ph.depth as int)
            }),
    {
        let ws = self.wordlist@;
        let ph = self.search_queue@[0];
        let b = count_upto_tranche(ws, ph.tranche as int) as int;
        lemma_tranche_prefix(ws, ph.tranche as int);
        assert(ws[0].tranche <= ph.tranche);
        assert forall|j: int| 0 <= j < self.path@.len() implies #[trigger] self.path@[j] < b by {
            assert(ws[self.path@[j] as int].tranche <= ph.tranche);
        }
        lemma_later_nonnegative(self.path@, b, ph.depth as int);
        lemma_subtree_positive(b, (ph.depth - self.path@.len()) as nat);
    }

    /// Moves to the next phrase to try, where the one tried now is not extended: the
    /// next word at the last position; past the last word of the current phase's
    /// tranche or lower, the next word at the position before. Past the last word at
    /// the first position the current phase is done: it leaves the queue, and where
    /// no phrase of its length left a state in every matcher, so do the phases of no
    /// more words and no higher tranche; the search restarts from the first word.
    /// Returns whether no phase is left.
    #[verifier::rlimit(80)]
    fn advance(&mut self) -> (done: bool)
        requires
            old(self).core_wf(),
            old(self).phase_had_partial_match == exists|c: Seq<usize>|
                candidate(old(self).words(), old(self).queue()[0], c) && (!pending(c, old(self).path_view()) || c.take(
                    old(self).path_view().len() as int,
                ) == old(self).path_view()) && alive_in_all(old(self).matchers_view(), c),
        ensures
            final(self).queue() == old(self).queue() ==> forall|c: Seq<usize>|
                candidate(old(self).words(), old(self).queue()[0], c) ==> ((pending(c, old(self).path_view()) && !pending(
                    c,
                    final(self).path_view(),
                )) <==> c.take(old(self).path_view().len() as int) == old(self).path_view()),
            final(self).queue() == old(self).queue() ==> forall|c: Seq<usize>|
                candidate(old(self).words(), old(self).queue()[0], c) && !pending(c, old(self).path_view()) ==> !pending(
                    c,
                    final(self).path_view(),
                ),
            final(self).queue() != old(self).queue() ==> forall|j: int|
                0 <= j < old(self).path_view().len() ==> #[trigger] old(self).path_view()[j] + 1 == count_upto_tranche(
                    old(self).words(),
                    old(self).queue()[0].tranche as int,
                ),
            final(self).queue() != old(self).queue() && !done ==> final(self).path_view() == seq![0usize],
            final(self).queue() != old(self).queue() ==> {
                &&& final(self).queue() == if old(self).phase_had_partial_match {
                    old(self).queue().skip(1)
                } else {
                    kept_phases(old(self).queue().skip(1), old(self).queue()[0])
                }
                &&& forall|c: Seq<usize>|
                    candidate(old(self).words(), old(self).queue()[0], c) && pending(c, old(self).path_view()) ==> c.take(
                        old(self).path_view().len() as int,
                    ) == old(self).path_view()
            },
            final(self).matchers_view() == old(self).matchers_view(),
            final(self).words() == old(self).words(),
            forall|i: int| 0 <= i < final(self).queue().len() ==> old(self).queue().contains(#[trigger] final(self).queue()[i]),
            done <==> final(self).queue().len() == 0,
            !done ==> final(self).wf(),
            !done ==> final(self).queue().len() < old(self).queue().len() || (final(self).queue() == old(self).queue()
                && search_left(
                final(self).path_view(),
                count_upto_tranche(old(self).words(), old(self).queue()[0].tranche as int) as int,
                old(self).queue()[0].depth as int,
            ) < search_left(
                old(self).path_view(),
                count_upto_tranche(old(self).words(), old(self).queue()[0].tranche as int) as int,
                old(self).queue()[0].depth as int,
            )),
    {
        let ghost ms = self.matchers@;
        let ghost ws = self.wordlist@;
        let ghost q0 = self.search_queue@;
        let ghost p0 = self.path@;
        let phase = self.search_queue[0];
        let ghost b: int = count_upto_tranche(ws, phase.tranche as int) as int;
        let ghost d = phase.depth as int;
        let n = self.wordlist.len();
        proof {
            self.lemma_bounds();
        }
        let ghost flag = self.phase_had_partial_match;
        proof {
            assert(old(self).words() == ws);
            assert(old(self).queue() == q0);
            assert(old(self).path_view() == p0);
            assert(old(self).matchers_view() == ms);
            assert(p0.take(p0.len() as int) =~= p0);
            assert(1 <= p0.len() <= d);
        }
        loop
            invariant
                self.core_wf(),
                ms == old(self).matchers@,
                ws == old(self).wordlist@,
                q0 == old(self).search_queue@,
                p0 == old(self).path@,
                flag == old(self).phase_had_partial_match,
                self.phase_had_partial_match == flag,
                flag == exists|c: Seq<usize>|
                    candidate(ws, q0[0], c) && (!pending(c, p0) || c.take(p0.len() as int) == p0) && alive_in_all(ms, c),
                self.path@.len() <= p0.len(),
                1 <= p0.len() <= d,
                self.path@ == p0.take(self.path@.len() as int),
                forall|j: int| self.path@.len() <= j < p0.len() ==> #[trigger] p0[j] + 1 == b,
                n == ws.len(),
                self.matchers@ == ms,
                self.wordlist@ == ws,
                self.search_queue@ == q0,
                phase == q0[0],
                b == count_upto_tranche(ws, phase.tranche as int),
                d == phase.depth,
                1 <= b <= ws.len(),
                forall|k: int| 0 <= k < ws.len() ==> (k < b <==> (#[trigger] ws[k]).tranche <= phase.tranche),
                forall|j: int| 0 <= j < self.path@.len() ==> #[trigger] self.path@[j] < b,
                later_size(self.path@, b, d) < search_left(p0, b, d),
            decreases self.path@.len(),
        {
            let l = self.path.len() - 1;
            let ghost p = self.path@;
            let w = self.path[l] + 1;
            if w >= self.wordlist.len() || self.wordlist[w].tranche > phase.tranche {
                proof {
                    assert(w == b);
                    lemma_left_ascend(p, b, d);
                }
                if l == 0 {
                    proof {
                        assert forall|c: Seq<usize>| candidate(ws, q0[0], c) && pending(c, p0) implies c.take(p0.len() as int) == p0 by {
                            assert forall|j: int| 0 <= j < p0.len() implies #[trigger] p0[j] + 1 == b by {
                                if j == 0 {
                                    assert(p0[0] == p[0]);
                                }
                            }
                            lemma_pending_end(c, p0, b);
                        }
                        assert(q0.remove(0) =~= q0.skip(1));
                    }
                    let done_phase = self.search_queue.remove(0);
                    proof {
                        assert(self.search_queue@ == q0.skip(1));
                        assert(done_phase == q0[0]);
                    }
                    if !self.phase_had_partial_match {
                        let kept = keep_phases(&self.search_queue, done_phase);
                        proof {
                            lemma_kept_phases(self.search_queue@, done_phase);
                        }
                        self.search_queue = kept;
                    }
                    proof {
                        assert forall|i: int| 0 <= i < self.search_queue@.len() implies q0.contains(#[trigger] self.search_queue@[i]) by {
                            if !self.phase_had_partial_match {
                                let rest = q0.remove(0);
                                assert(rest.contains(self.search_queue@[i]));
                                let k = choose|k: int| 0 <= k < rest.len() && rest[k] == self.search_queue@[i];
                                assert(q0[k + 1] == rest[k]);
                            } else {
                                assert(q0[i + 1] == self.search_queue@[i]);
                            }
                        }
                    }
                    proof {
                        assert(self.search_queue@ == if flag {
                            q0.skip(1)
                        } else {
                            kept_phases(q0.skip(1), q0[0])
                        });
                    }
                    if self.search_queue.len() == 0 {
                        return true;
                    }
                    self.phase_had_partial_match = false;
                    self.path.set(0, 0);
                    let t0 = self.wordlist[0].tranche;
                    self.path_tranche.set(0, t0);
                    proof {
                        let np = self.path@;
                        assert(np =~= seq![0usize]);
                        assert(np.take(1) =~= np);
                        assert(np.take(0) =~= p.take(0));
                        assert(np.drop_last() =~= Seq::<usize>::empty());
                        assert(top_tranche(ws, np.drop_last()) == 0);
                        let q = self.search_queue@;
                        assert forall|i: int| 0 <= i < q.len() implies 1 <= (#[trigger] q[i]).depth && ws[0].tranche <= q[i].tranche by {
                            assert(q0.contains(q[i]));
                            let k = choose|k: int| 0 <= k < q0.len() && q0[k] == q[i];
                            assert(phases_ok(q0, ws));
                            assert(1 <= q0[k].depth && ws[0].tranche <= q0[k].tranche);
                        }
                        assert(q[0].depth >= 1);
                        assert forall|c: Seq<usize>| candidate(ws, q[0], c) implies pending(c, np) by {
                            lemma_pending_start(c);
                        }
                    }
                    return false;
                }
                self.path.pop();
                self.path_tranche.pop();
                self.tables.pop();
                proof {
                    let np = self.path@;
                    assert(np =~= p.drop_last());
                    assert(np =~= p0.take(np.len() as int));
                    assert(p0[l as int] == p[l as int]);
                    assert forall|j: int| 0 <= j <= np.len() implies #[trigger] np.take(j) == p.take(j) by {
                        assert(np.take(j) =~= p.take(j));
                    }
                    assert forall|j: int| 0 <= j < np.len() implies #[trigger] self.path_tranche@[j] == top_tranche(ws, np.take(j + 1)) by {
                        assert(np.take(j + 1) == p.take(j + 1));
                    }
                    assert forall|j: int, m: int|
                        #![trigger self.tables@[j]@[m]]
                        0 <= j < np.len() && 0 <= m < ms.len() implies {
                            &&& list2_ok(self.tables@[j]@[m], ms[m].n(), ms[m].flim())
                            &&& forall|g: usize| g < ms[m].flim() ==> #[trigger] self.tables@[j]@[m].row(g) == path_rows(ms[m], np.take(j))(g)
                        } by {
                        assert(np.take(j) == p.take(j));
                    }
                }
            } else {
                proof {
                    assert(w < b);
                    lemma_left_next(p, b, d);
                }
                self.path.set(l, w);
                let old_top = self.path_tranche[l];
                let wt = self.wordlist[w].tranche;
                let nt = if old_top >= wt {
                    old_top
                } else {
                    wt
                };
                self.path_tranche.set(l, nt);
                proof {
                    let np = self.path@;
                    assert(np =~= p.update(l as int, w));
                    assert forall|j: int| 0 <= j <= l implies #[trigger] np.take(j) == p.take(j) by {
                        assert(np.take(j) =~= p.take(j));
                    }
                    assert(np.take(l + 1).drop_last() =~= p.take(l as int));
                    assert(p.take(l + 1).drop_last() =~= p.take(l as int));
                    assert(np.take(l + 1).last() == w);
                    assert(p.take(l + 1).last() == p[l as int]);
                    assert(ws[p[l as int] as int].tranche <= ws[w as int].tranche);
                    assert(nt == top_tranche(ws, np.take(l + 1)));
                    assert forall|j: int| 0 <= j < np.len() implies #[trigger] self.path_tranche@[j] == top_tranche(ws, np.take(j + 1)) by {
                        if j < l {
                            assert(np.take(j + 1) == p.take(j + 1));
                        }
                    }
                    assert(p0[l as int] == p[l as int]);
                    assert(np =~= p0.take(l as int).push((p0[l as int] + 1) as usize));
                    assert forall|c: Seq<usize>| candidate(ws, q0[0], c) implies ((pending(c, p0) && !pending(c, np)) <==> c.take(
                        p0.len() as int,
                    ) == p0) && (!pending(c, np) <==> (!pending(c, p0) || c.take(p0.len() as int) == p0)) by {
                        lemma_pending_next(c, p0, l as int, b);
                    }
                    assert forall|j: int, m: int|
                        #![trigger self.tables@[j]@[m]]
                        0 <= j < np.len() && 0 <= m < ms.len() implies {
                            &&& list2_ok(self.tables@[j]@[m], ms[m].n(), ms[m].flim())
                            &&& forall|g: usize| g < ms[m].flim() ==> #[trigger] self.tables@[j]@[m].row(g) == path_rows(ms[m], np.take(j))(g)
                        } by {
                        assert(np.take(j) == p.take(j));
                    }
                    assert(np.len() == p.len());
                    assert(np.last() == w);
                }
                return false;
            }
        }
    }
}

impl<'word> PhraseSearch<'word> {
    /// Searches on for the next phrase (the phrase search stage of a query): tries
    /// the phrase at the current position in every matcher; where every matcher is
    /// left with a state and the phrase is shorter than the current phase's length,
    /// tries it with one more word, and otherwise moves on (see `advance`). A phrase
    /// of the phase's length that every matcher accepts and whose highest tranche is
    /// the phase's is returned. With a deadline, the time is checked every 256 phrases
    /// tried, and the search stops once it has passed. Once no phase is left, the
    /// search is complete.
    ///
    /// The phrase returned is the first of those yet to be found (see
    /// `yet_to_find`): phases in the order of the queue, and within a phase, phrases
    /// in the order of their words' positions. A phrase found on the last step is
    /// returned though it leaves no phase (the search is then exhausted); the search
    /// is complete only when no phrase is left to be found.
    #[verifier::rlimit(80)]
    pub fn next_phrase(&mut self, deadline: Option<Instant>) -> (r: PhraseStep<'word>)
        requires
            old(self).wf(),
        ensures
            final(self).matchers_view() == old(self).matchers_view(),
            final(self).words() == old(self).words(),
            forall|i: int| 0 <= i < final(self).queue().len() ==> old(self).queue().contains(#[trigger] final(self).queue()[i]),
            match r {
                PhraseStep::Match(words) => {
                    &&& final(self).wf() || final(self).queue().len() == 0
                    &&& exists|p: Seq<usize>, ph: SearchPhase|
                        phrase_found(old(self).matchers_view(), old(self).words(), old(self).queue(), p, ph) && words@ == words_at(
                            old(self).words(),
                            p,
                        )
                },
                PhraseStep::Timeout => final(self).wf() && deadline is Some,
                PhraseStep::Complete => final(self).queue().len() == 0,
            },
            match r {
                PhraseStep::Match(words) => exists|k: int, c: Seq<usize>|
                    {
                        &&& yet_to_find(old(self).matchers_view(), old(self).words(), old(self).queue(), old(self).path_view(), k, c)
                        &&& words@ == words_at(old(self).words(), c)
                        &&& forall|j: int, c2: Seq<usize>|
                            yet_to_find(old(self).matchers_view(), old(self).words(), old(self).queue(), old(self).path_view(), j, c2)
                                ==> k < j || (k == j && !seq_before(c2, c))
                    },
                PhraseStep::Complete => forall|j: int, c2: Seq<usize>|
                    !yet_to_find(old(self).matchers_view(), old(self).words(), old(self).queue(), old(self).path_view(), j, c2),
                PhraseStep::Timeout => true,
            },
    {
        let ghost ms = self.matchers@;
        let ghost ws = self.wordlist@;
        let ghost q0 = self.search_queue@;
        let ghost p0 = self.path@;
        let ghost mut idx: Seq<int> = Seq::new(q0.len(), |i: int| i);
        proof {
            assert(old(self).matchers_view() == ms);
            assert(old(self).words() == ws);
            assert(old(self).queue() == q0);
            assert(old(self).path_view() == p0);
            assert forall|j: int, c2: Seq<usize>| yet_to_find(ms, ws, q0, p0, j, c2) implies idx.contains(j) by {
                assert(idx[j] == j);
            }
        }
        let mut checks: u32 = 0;
        loop
            invariant
                p0 == old(self).path@,
                phases_ok(q0, ws),
                positions_ok(q0, idx),
                idx.len() == self.search_queue@.len(),
                forall|i: int| 0 <= i < idx.len() ==> self.search_queue@[i] == q0[#[trigger] idx[i]],
                forall|j: int, c2: Seq<usize>|
                    yet_to_find(ms, ws, q0, p0, j, c2) ==> idx.contains(j) && (j == idx[0] ==> pending(c2, self.path@)),
                idx[0] == 0 ==> forall|c: Seq<usize>| candidate(ws, q0[0], c) && pending(c, self.path@) ==> pending(c, p0),
                self.wf(),
                ms == old(self).matchers@,
                ws == old(self).wordlist@,
                q0 == old(self).search_queue@,
                self.matchers@ == ms,
                self.wordlist@ == ws,
                forall|i: int| 0 <= i < self.search_queue@.len() ==> q0.contains(#[trigger] self.search_queue@[i]),
                checks < 256,
            decreases self.search_queue@.len(), search_left(
                self.path@,
                count_upto_tranche(ws, self.search_queue@[0].tranche as int) as int,
                self.search_queue@[0].depth as int,
            ),
        {
            let phase = self.search_queue[0];
            let li = self.path.len() - 1;
            let ghost p = self.path@;
            let ghost q = self.search_queue@;
            let ghost b: int = count_upto_tranche(ws, phase.tranche as int) as int;
            let ghost d: int = phase.depth as int;
            let ghost idx0 = idx;
            let ghost mut fl = false;
            proof {
                self.lemma_bounds();
                assert(q0.contains(q[0]));
                assert(q[0] == q0[idx0[0]]);
            }
            let ghost old_flag = self.phase_had_partial_match;
            let (next, all_partial, all_exact) = self.step_all();
            if all_partial && li + 1 == phase.depth {
                self.phase_had_partial_match = true;
            }
            let found = all_exact && li + 1 == phase.depth && self.path_tranche[li] == phase.tranche;
            let words = if found {
                self.current_words()
            } else {
                Vec::new()
            };
            proof {
                if found {
                    assert(p.take(li + 1) =~= p);
                    assert(phrase_found(ms, ws, q0, p, phase));
                }
            }
            if all_partial && li + 1 < phase.depth {
                let t = self.path_tranche[li];
                self.tables.push(next);
                self.path.push(0);
                self.path_tranche.push(t);
                proof {
                    let np = self.path@;
                    assert(np =~= p.push(0));
                    assert forall|j: int| 0 <= j <= p.len() implies #[trigger] np.take(j) == p.take(j) by {
                        assert(np.take(j) =~= p.take(j));
                    }
                    assert(np.take(li + 2) =~= np);
                    assert(np.drop_last() =~= p);
                    assert(p.take(li + 1) =~= p);
                    lemma_top_tranche(ws, p);
                    assert(ws[0].tranche <= ws[p[li as int] as int].tranche);
                    assert(t == top_tranche(ws, np.take(li + 2)));
                    assert forall|j: int| 0 <= j < np.len() implies #[trigger] self.path_tranche@[j] == top_tranche(ws, np.take(j + 1)) by {
                        if j < p.len() {
                            assert(np.take(j + 1) == p.take(j + 1));
                        }
                    }
                    assert forall|j: int, m: int|
                        #![trigger self.tables@[j]@[m]]
                        0 <= j < np.len() && 0 <= m < ms.len() implies {
                            &&& list2_ok(self.tables@[j]@[m], ms[m].n(), ms[m].flim())
                            &&& forall|g: usize| g < ms[m].flim() ==> #[trigger] self.tables@[j]@[m].row(g) == path_rows(ms[m], np.take(j))(g)
                        } by {
                        assert(np.take(j) == p.take(j));
                        if j == p.len() {
                            assert(p.take(j) =~= p);
                        }
                    }
                    assert(phases_ok(q, ws));
                    assert(ws[0].tranche <= q[0].tranche);
                    lemma_left_descend(p, b, d);
                    assert forall|c: Seq<usize>| candidate(ws, q[0], c) implies pending(c, np) == pending(c, p) by {
                        lemma_pending_descend_iff(c, p);
                    }
                }
            } else {
                proof {
                    assert(all_partial == alive_in_all(ms, p));
                    let t = exists|c: Seq<usize>|
                        candidate(ws, q[0], c) && (!pending(c, p) || c.take(p.len() as int) == p) && alive_in_all(ms, c);
                    if self.phase_had_partial_match {
                        if old_flag {
                            let c = choose|c: Seq<usize>| candidate(ws, q[0], c) && !pending(c, p) && alive_in_all(ms, c);
                            assert(candidate(ws, q[0], c) && (!pending(c, p) || c.take(p.len() as int) == p) && alive_in_all(ms, c));
                        } else {
                            assert(candidate(ws, q[0], p));
                            assert(p.take(p.len() as int) =~= p);
                            assert(candidate(ws, q[0], p) && (!pending(p, p) || p.take(p.len() as int) == p) && alive_in_all(ms, p));
                        }
                        assert(t);
                    }
                    if t {
                        let c = choose|c: Seq<usize>|
                            candidate(ws, q[0], c) && (!pending(c, p) || c.take(p.len() as int) == p) && alive_in_all(ms, c);
                        if pending(c, p) {
                            assert(c.take(p.len() as int) == p);
                            if li + 1 == phase.depth {
                                assert(c =~= c.take(p.len() as int));
                                assert(all_partial);
                            } else {
                                assert(!all_partial);
                                let m = choose|m: int| 0 <= m < ms.len() && !path_alive(#[trigger] ms[m], p);
                                lemma_dead_extension(ms[m], p, c);
                                assert(false);
                            }
                        } else {
                            assert(old_flag);
                        }
                    }
                    assert(self.phase_had_partial_match == t);
                    assert(self.words() == ws);
                    assert(self.queue() == q);
                    assert(self.path_view() == p);
                    assert(self.matchers_view() == ms);
                    assert(self.core_wf());
                    fl = self.phase_had_partial_match;
                    // a phrase passed over is the one tried, where it is found
                    assert forall|c2: Seq<usize>| good(ms, ws, q[0], c2) && c2.take(p.len() as int) == p implies found && c2 == p by {
                        if li + 1 == phase.depth {
                            assert(c2 =~= c2.take(p.len() as int));
                            assert(p.take(li + 1) =~= p);
                        } else {
                            assert(!all_partial);
                            let m = choose|m: int| 0 <= m < ms.len() && !path_alive(#[trigger] ms[m], p);
                            lemma_dead_extension(ms[m], p, c2);
                        }
                    }
                }
                let done = self.advance();
                if done && !found {
                    proof {
                        assert forall|j: int, c2: Seq<usize>| yet_to_find(ms, ws, q0, p0, j, c2) implies false by {
                            assert(idx0.contains(j));
                            let i = choose|i: int| 0 <= i < idx0.len() && idx0[i] == j;
                            if i == 0 {
                                assert(q0[j] == q[0]);
                                assert(c2.take(p.len() as int) == p);
                                assert(c2 == p);
                                assert(found);
                            } else {
                                if fl {
                                    assert(q.skip(1).len() == 0);
                                    assert(false);
                                }
                                let rest = idx0.skip(1);
                                assert(positions_ok(q0, rest));
                                lemma_kept_indices(q0, rest, q[0]);
                                assert(phases_at(q0, rest) =~= q.skip(1));
                                assert(rest[i - 1] == j);
                                assert(rest.contains(j));
                                assert(!kept_indices(q0, rest, q[0]).contains(j)) by {
                                    if kept_indices(q0, rest, q[0]).contains(j) {
                                        let i2 = choose|i2: int| 0 <= i2 < kept_indices(q0, rest, q[0]).len() && kept_indices(q0, rest, q[0])[i2] == j;
                                        assert(phases_at(q0, kept_indices(q0, rest, q[0])).len() > 0);
                                    }
                                }
                                assert forall|c: Seq<usize>| candidate(ws, q[0], c) implies !alive_in_all(ms, c) by {
                                    if pending(c, p) {
                                        assert(c.take(p.len() as int) == p);
                                    }
                                }
                                lemma_dropped_phase(ms, ws, q[0], q0[j]);
                                assert(false);
                            }
                        }
                    }
                    return PhraseStep::Complete;
                }
            }
            if found {
                proof {
                    assert(old(self).matchers_view() == ms);
                    assert(old(self).words() == ws);
                    assert(old(self).queue() == q0);
                    assert(phrase_found(old(self).matchers_view(), old(self).words(), old(self).queue(), p, phase));
                    assert(words@ == words_at(old(self).words(), p));
                    assert(q0[idx0[0]] == q[0]);
                    assert(good(ms, ws, q[0], p));
                    lemma_found_first(ms, ws, q0, p0, idx0, p);
                    assert(old(self).path_view() == p0);
                    assert(yet_to_find(old(self).matchers_view(), old(self).words(), old(self).queue(), old(self).path_view(), idx0[0], p)
                        && words@ == words_at(old(self).words(), p));
                }
                return PhraseStep::Match(words);
            }
            proof {
                if !(all_partial && li + 1 < phase.depth) {
                    if self.search_queue@ == q {
                        lemma_same_phase(ms, ws, q0, p0, idx0, p, self.path@, found);
                    } else {
                        assert(q =~= phases_at(q0, idx0));
                        assert(p.take(p.len() as int) =~= p);
                        assert(!good(ms, ws, q0[idx0[0]], p));
                        idx = lemma_next_phase(ms, ws, q0, p0, idx0, p, fl, self.search_queue@);
                    }
                }
            }
            checks += 1;
            if checks == 256 {
                checks = 0;
                if let Some(limit) = &deadline {
                    let now = instant_now();
                    if instant_later(&now, limit) {
                        return PhraseStep::Timeout;
                    }
                }
            }
            proof {
                self.lemma_bounds();
            }
        }
    }
}

impl<'word> PhraseSearch<'word> {
    /// Whether a phase is left to search; once none is, the search is exhausted.
    pub fn has_phases(&self) -> (r: bool)
        ensures
            r == (self.queue().len() > 0),
    {
        self.search_queue.len() > 0
    }

    /// The expression of each matcher.
    pub fn expressions(&self) -> (r: Vec<&Expression>)
        ensures
            r@.len() == self.matchers_view().len(),
            forall|i: int| 0 <= i < r@.len() ==> *(#[trigger] r@[i]) == self.matchers_view()[i].expr(),
    {
        let mut r: Vec<&Expression> = Vec::new();
        let mut i: usize = 0;
        while i < self.matchers.len()
            invariant
                i <= self.matchers@.len(),
                r@.len() == i,
                forall|k: int| 0 <= k < i ==> *(#[trigger] r@[k]) == self.matchers@[k].expr(),
            decreases self.matchers@.len() - i,
        {
            r.push(self.matchers[i].expression_ref());
            i += 1;
        }
        r
    }
}

// ---------------------------------------------------------------------------
// The order in which phrases are tried.

/// `a` comes before `b`, a sequence of the same length, in lexicographic order.
pub open spec fn seq_before(a: Seq<usize>, b: Seq<usize>) -> bool
    decreases a.len(),
{
    if a.len() == 0 || a.len() != b.len() {
        false
    } else {
        seq_before(a.drop_last(), b.drop_last()) || (a.drop_last() == b.drop_last() && a.last() < b.last())
    }
}

/// The phrase at the positions `c` is yet to be tried from the search position
/// `p`: its first words do not come before `p`.
pub open spec fn pending(c: Seq<usize>, p: Seq<usize>) -> bool {
    !seq_before(c.take(p.len() as int), p)
}

/// Lexicographic order: the first difference decides.
proof fn lemma_before_first_difference(a: Seq<usize>, b: Seq<usize>)
    requires
        a.len() == b.len(),
    ensures
        seq_before(a, b) <==> exists|k: int| 0 <= k < a.len() && a.take(k) == b.take(k) && #[trigger] a[k] < b[k],
    decreases a.len(),
{
    if a.len() > 0 {
        let n = a.len() - 1;
        lemma_before_first_difference(a.drop_last(), b.drop_last());
        if seq_before(a, b) {
            if seq_before(a.drop_last(), b.drop_last()) {
                let k = choose|k: int| 0 <= k < a.drop_last().len() && a.drop_last().take(k) == b.drop_last().take(k) && #[trigger] a.drop_last()[k] < b.drop_last()[k];
                assert(a.take(k) =~= a.drop_last().take(k));
                assert(b.take(k) =~= b.drop_last().take(k));
                assert(a[k] < b[k]);
            } else {
                assert(a.take(n) =~= a.drop_last());
                assert(b.take(n) =~= b.drop_last());
                assert(a[n] < b[n]);
            }
        }
        if exists|k: int| 0 <= k < a.len() && a.take(k) == b.take(k) && #[trigger] a[k] < b[k] {
            let k = choose|k: int| 0 <= k < a.len() && a.take(k) == b.take(k) && #[trigger] a[k] < b[k];
            if k < n {
                assert(a.drop_last().take(k) =~= a.take(k));
                assert(b.drop_last().take(k) =~= b.take(k));
                assert(a.drop_last()[k] < b.drop_last()[k]);
            } else {
                assert(a.drop_last() =~= a.take(k));
                assert(b.drop_last() =~= b.take(k));
            }
        }
    }
}

/// No sequence comes before itself.
proof fn lemma_before_irreflexive(a: Seq<usize>)
    ensures
        !seq_before(a, a),
    decreases a.len(),
{
    if a.len() > 0 {
        lemma_before_irreflexive(a.drop_last());
    }
}

/// Going one word deeper, at the first word, leaves which phrases are yet to be
/// tried unchanged.
proof fn lemma_pending_descend_iff(c: Seq<usize>, p: Seq<usize>)
    requires
        p.len() < c.len(),
    ensures
        pending(c, p.push(0)) == pending(c, p),
{
    let l = p.len() as int;
    let a = c.take(l + 1);
    assert(a.drop_last() =~= c.take(l));
    assert(p.push(0).drop_last() =~= p);
}

/// Moving on from the search position `p` to `q`: the next word at position `l`,
/// where every word after it in `p` is the last one, below `b`; the phrases of words
/// below `b` that stop being yet to be tried are those that start with `p`.
proof fn lemma_pending_next(c: Seq<usize>, p: Seq<usize>, l: int, b: int)
    requires
        0 <= l < p.len() <= c.len(),
        forall|j: int| 0 <= j < c.len() ==> #[trigger] c[j] < b,
        forall|j: int| l < j < p.len() ==> #[trigger] p[j] + 1 == b,
        p[l] + 1 < b,
        b <= usize::MAX,
    ensures
        (pending(c, p) && !pending(c, p.take(l).push((p[l] + 1) as usize))) <==> c.take(p.len() as int) == p,
        !pending(c, p) ==> !pending(c, p.take(l).push((p[l] + 1) as usize)),
{
    let q = p.take(l).push((p[l] + 1) as usize);
    let cp = c.take(p.len() as int);
    let cq = c.take(l + 1);
    lemma_before_first_difference(cp, p);
    lemma_before_first_difference(cq, q);
    if pending(c, p) && !pending(c, q) {
        let k = choose|k: int| 0 <= k < cq.len() && cq.take(k) == q.take(k) && #[trigger] cq[k] < q[k];
        if k < l {
            assert(cp.take(k) =~= cq.take(k));
            assert(q.take(k) =~= p.take(k));
            assert(cp[k] < p[k]);
            assert(false);
        }
        assert(k == l);
        assert(cp.take(l) =~= cq.take(l));
        assert(q.take(l) =~= p.take(l));
        if cp[l] < p[l] {
            assert(false);
        }
        assert(cp[l] == p[l]);
        assert(cp.take(l + 1) =~= p.take(l + 1)) by {
            assert forall|j: int| 0 <= j < l + 1 implies cp[j] == p[j] by {
                if j < l {
                    assert(cp[j] == cp.take(l)[j]);
                    assert(p[j] == p.take(l)[j]);
                }
            }
        }
        lemma_equal_after(cp, p, l, p.len() - 1, b);
        assert(cp.take(p.len() as int) =~= cp);
        assert(p.take(p.len() as int) =~= p);
        assert(cp =~= p);
    }
    if !pending(c, p) {
        let k = choose|k: int| 0 <= k < cp.len() && cp.take(k) == p.take(k) && #[trigger] cp[k] < p[k];
        if k <= l {
            assert(cq.take(k) =~= cp.take(k));
            assert(q.take(k) =~= p.take(k));
            assert(cq[k] < q[k]);
        } else {
            assert(cq.take(l) =~= q.take(l)) by {
                assert forall|i: int| 0 <= i < l implies cq[i] == q[i] by {
                    assert(cp[i] == cp.take(k)[i]);
                    assert(p[i] == p.take(k)[i]);
                }
            }
            assert(cp[l] == cp.take(k)[l]);
            assert(p[l] == p.take(k)[l]);
            assert(cq[l] < q[l]);
        }
    }
    if cp == p {
        lemma_before_irreflexive(p);
        assert(cq.take(l) =~= q.take(l));
        assert(cq[l] == c[l]);
        assert(cp[l] == c[l]);
        assert(q[l] == p[l] + 1);
        assert(cq[l] < q[l]);
    }
}

/// A sequence that agrees with `p` up to `l`, does not come before it, and whose
/// items are below `b`, agrees with it on each item after `l` that is `b - 1` in `p`.
proof fn lemma_equal_after(cp: Seq<usize>, p: Seq<usize>, l: int, j: int, b: int)
    requires
        cp.len() == p.len(),
        0 <= l <= j < p.len(),
        cp.take(l + 1) == p.take(l + 1),
        !seq_before(cp, p),
        forall|i: int| 0 <= i < cp.len() ==> #[trigger] cp[i] < b,
        forall|i: int| l < i < p.len() ==> #[trigger] p[i] + 1 == b,
    ensures
        cp.take(j + 1) == p.take(j + 1),
    decreases j - l,
{
    if j > l {
        lemma_equal_after(cp, p, l, j - 1, b);
        lemma_before_first_difference(cp, p);
        assert(cp.take(j) =~= cp.take(j + 1).take(j) || true);
        if cp[j] != p[j] {
            assert(cp.take(j) =~= p.take(j)) by {
                assert forall|i: int| 0 <= i < j implies cp[i] == p[i] by {
                    assert(cp[i] == cp.take(j)[i]);
                    assert(p[i] == p.take(j)[i]);
                }
            }
            assert(cp[j] < p[j]);
            assert(false);
        }
        assert(cp.take(j + 1) =~= p.take(j + 1)) by {
            assert forall|i: int| 0 <= i < j + 1 implies cp[i] == p[i] by {
                if i < j {
                    assert(cp[i] == cp.take(j)[i]);
                    assert(p[i] == p.take(j)[i]);
                }
            }
        }
    }
}

/// At the last word of every position, nothing is left to try after the phrases
/// that start with `p`.
proof fn lemma_pending_end(c: Seq<usize>, p: Seq<usize>, b: int)
    requires
        1 <= p.len() <= c.len(),
        forall|j: int| 0 <= j < c.len() ==> #[trigger] c[j] < b,
        forall|j: int| 0 <= j < p.len() ==> #[trigger] p[j] + 1 == b,
        pending(c, p),
    ensures
        c.take(p.len() as int) == p,
{
    let cp = c.take(p.len() as int);
    lemma_before_first_difference(cp, p);
    assert(cp.take(0) =~= p.take(0));
    if cp[0] != p[0] {
        assert(cp[0] < p[0]);
        assert(false);
    }
    assert(cp.take(1) =~= p.take(1));
    lemma_equal_after(cp, p, 0, p.len() - 1, b);
    assert(cp.take(p.len() as int) =~= cp);
    assert(p.take(p.len() as int) =~= p);
}

/// The phrases that the phase `ph` tries: as many words as its depth, each of its
/// tranche or lower.
pub open spec fn candidate(ws: Seq<&Word>, ph: SearchPhase, c: Seq<usize>) -> bool {
    &&& c.len() == ph.depth
    &&& forall|j: int| 0 <= j < c.len() ==> #[trigger] c[j] < count_upto_tranche(ws, ph.tranche as int)
}

/// Every matcher is left with a state after the words at `c`.
pub open spec fn alive_in_all(ms: Seq<PhraseMatcher>, c: Seq<usize>) -> bool {
    forall|m: int| 0 <= m < ms.len() ==> path_alive(#[trigger] ms[m], c)
}

/// The phrase at `c` is one that the phase `ph` looks for: one it tries, of highest
/// tranche its tranche, that every matcher accepts.
pub open spec fn good(ms: Seq<PhraseMatcher>, ws: Seq<&Word>, ph: SearchPhase, c: Seq<usize>) -> bool {
    &&& candidate(ws, ph, c)
    &&& top_tranche(ws, c) == ph.tranche
    &&& forall|m: int| 0 <= m < ms.len() ==> path_accepted(#[trigger] ms[m], c)
}

/// A matcher left with no state after some words is left with none after more.
proof fn lemma_dead_extension(pm: PhraseMatcher, p: Seq<usize>, c: Seq<usize>)
    requires
        p.len() <= c.len(),
        c.take(p.len() as int) == p,
        !path_alive(pm, p),
    ensures
        !path_alive(pm, c),
        !path_accepted(pm, c),
    decreases c.len() - p.len(),
{
    if c.len() == p.len() {
        assert(c =~= c.take(p.len() as int));
    } else {
        let d = c.drop_last();
        assert(d.take(p.len() as int) =~= c.take(p.len() as int));
        lemma_dead_extension(pm, p, d);
        assert forall|g: usize| g < pm.flim() implies #[trigger] path_rows(pm, c)(g) == Set::<int>::empty() by {
            let prev = path_rows(pm, d);
            let cl = pm.class_rows(pm.word_class_list()[c.last() as int] as int);
            assert forall|x: int| !(#[trigger] path_rows(pm, c)(g).contains(x)) by {
                if path_rows(pm, c)(g).contains(x) {
                    let (f, dst) = choose|f: usize, dst: int|
                        f < pm.flim() && f <= g && #[trigger] prev(f).contains(dst) && 0 <= dst < pm.n() && cl(dst as usize, (g - f) as usize).contains(x);
                    assert(prev(f) == Set::<int>::empty());
                }
            }
            assert(path_rows(pm, c)(g) =~= Set::<int>::empty());
        }
        if path_accepted(pm, c) {
            let g = choose|g: usize| g < pm.flim() && #[trigger] path_rows(pm, c)(g).contains(pm.n() - 1);
            assert(path_rows(pm, c)(g) == Set::<int>::empty());
        }
    }
}

/// Fewer words are of a lower tranche or lower.
proof fn lemma_count_upto_mono(ws: Seq<&Word>, t1: int, t2: int)
    requires
        t1 <= t2,
    ensures
        count_upto_tranche(ws, t1) <= count_upto_tranche(ws, t2),
    decreases ws.len(),
{
    if ws.len() > 0 {
        lemma_count_upto_mono(ws.drop_last(), t1, t2);
    }
}

/// Where no phrase of a phase leaves a state in every matcher, no phase of no more
/// words and no higher tranche finds a phrase.
proof fn lemma_dropped_phase(ms: Seq<PhraseMatcher>, ws: Seq<&Word>, ph: SearchPhase, other: SearchPhase)
    requires
        forall|c: Seq<usize>| candidate(ws, ph, c) ==> !alive_in_all(ms, c),
        other.tranche <= ph.tranche,
        other.depth >= ph.depth,
    ensures
        forall|c: Seq<usize>| !good(ms, ws, other, c),
{
    assert forall|c: Seq<usize>| !good(ms, ws, other, c) by {
        if good(ms, ws, other, c) {
            let d = c.take(ph.depth as int);
            lemma_count_upto_mono(ws, other.tranche as int, ph.tranche as int);
            assert(candidate(ws, ph, d)) by {
                assert forall|j: int| 0 <= j < d.len() implies #[trigger] d[j] < count_upto_tranche(ws, ph.tranche as int) by {
                    assert(d[j] == c[j]);
                }
            }
            assert(!alive_in_all(ms, d));
            let m = choose|m: int| 0 <= m < ms.len() && !path_alive(#[trigger] ms[m], d);
            assert(d.len() == ph.depth);
            lemma_dead_extension(ms[m], d, c);
            assert(!path_accepted(ms[m], c));
        }
    }
}

/// Nothing comes before the first word at the first position.
proof fn lemma_pending_start(c: Seq<usize>)
    requires
        c.len() >= 1,
    ensures
        pending(c, seq![0usize]),
{
    let p = seq![0usize];
    let cp = c.take(1);
    lemma_before_first_difference(cp, p);
    if seq_before(cp, p) {
        let k = choose|k: int| 0 <= k < cp.len() && cp.take(k) == p.take(k) && #[trigger] cp[k] < p[k];
        assert(k == 0);
        assert(p[0] == 0);
    }
}

/// The positions, among `is`, of the phases of `q0` that stay after the phase `done`
/// (see `kept_phases`).
spec fn kept_indices(q0: Seq<SearchPhase>, is: Seq<int>, done: SearchPhase) -> Seq<int>
    decreases is.len(),
{
    if is.len() == 0 {
        Seq::empty()
    } else if q0[is.last()].tranche > done.tranche || q0[is.last()].depth < done.depth {
        kept_indices(q0, is.drop_last(), done).push(is.last())
    } else {
        kept_indices(q0, is.drop_last(), done)
    }
}

/// The phases of `q0` at the increasing positions `is`.
spec fn phases_at(q0: Seq<SearchPhase>, is: Seq<int>) -> Seq<SearchPhase> {
    Seq::new(is.len(), |i: int| q0[is[i]])
}

/// The positions are increasing and are positions of `q0`.
spec fn positions_ok(q0: Seq<SearchPhase>, is: Seq<int>) -> bool {
    &&& forall|i: int| 0 <= i < is.len() ==> 0 <= #[trigger] is[i] < q0.len()
    &&& forall|i: int, j: int| 0 <= i < j < is.len() ==> #[trigger] is[i] < #[trigger] is[j]
}

proof fn lemma_kept_indices(q0: Seq<SearchPhase>, is: Seq<int>, done: SearchPhase)
    requires
        positions_ok(q0, is),
    ensures
        positions_ok(q0, kept_indices(q0, is, done)),
        phases_at(q0, kept_indices(q0, is, done)) == kept_phases(phases_at(q0, is), done),
        forall|x: int| kept_indices(q0, is, done).contains(x) ==> is.contains(x),
        forall|x: int|
            is.contains(x) && !kept_indices(q0, is, done).contains(x) ==> !(q0[x].tranche > done.tranche || q0[x].depth < done.depth),
    decreases is.len(),
{
    if is.len() > 0 {
        let js = is.drop_last();
        assert(positions_ok(q0, js));
        lemma_kept_indices(q0, js, done);
        let ks = kept_indices(q0, is, done);
        let k0 = kept_indices(q0, js, done);
        assert(phases_at(q0, is).drop_last() =~= phases_at(q0, js));
        assert(phases_at(q0, is).last() == q0[is.last()]);
        assert forall|x: int| k0.contains(x) implies x < is.last() by {
            assert(js.contains(x));
            let i = choose|i: int| 0 <= i < js.len() && js[i] == x;
            assert(is[i] < is[is.len() - 1]);
        }
        if q0[is.last()].tranche > done.tranche || q0[is.last()].depth < done.depth {
            assert(ks == k0.push(is.last()));
            assert forall|i: int, j: int| 0 <= i < j < ks.len() implies #[trigger] ks[i] < #[trigger] ks[j] by {
                if j == ks.len() - 1 {
                    assert(k0.contains(ks[i]));
                }
            }
            assert(phases_at(q0, ks) =~= phases_at(q0, k0).push(q0[is.last()]));
        }
        assert forall|x: int| ks.contains(x) implies is.contains(x) by {
            if k0.contains(x) {
                assert(js.contains(x));
                let i = choose|i: int| 0 <= i < js.len() && js[i] == x;
                assert(js[i] == is[i]);
                assert(is[i] == x);
            } else {
                assert(x == is.last());
                assert(is[is.len() - 1] == x);
            }
        }
        assert forall|x: int|
            is.contains(x) && !ks.contains(x) implies !(q0[x].tranche > done.tranche || q0[x].depth < done.depth) by {
            let i = choose|i: int| 0 <= i < is.len() && is[i] == x;
            if i < is.len() - 1 {
                assert(js[i] == x);
                assert(js.contains(x));
                if k0.contains(x) {
                    let i2 = choose|i2: int| 0 <= i2 < k0.len() && k0[i2] == x;
                    assert(ks[i2] == x);
                }
            } else {
                if q0[x].tranche > done.tranche || q0[x].depth < done.depth {
                    assert(ks[ks.len() - 1] == x);
                }
            }
        }
    }
}

/// A phrase yet to be found at the start of a search step: one that the phase at
/// `j` in the queue `q` looks for, and, for the current phase (the first), one still
/// to be tried from the search position `p`.
pub open spec fn yet_to_find(ms: Seq<PhraseMatcher>, ws: Seq<&Word>, q: Seq<SearchPhase>, p: Seq<usize>, j: int, c: Seq<usize>) -> bool {
    &&& 0 <= j < q.len()
    &&& good(ms, ws, q[j], c)
    &&& j == 0 ==> pending(c, p)
}

/// The phrase tried, found, is the first phrase yet to be found.
proof fn lemma_found_first(ms: Seq<PhraseMatcher>, ws: Seq<&Word>, q0: Seq<SearchPhase>, p0: Seq<usize>, idx0: Seq<int>, p: Seq<usize>)
    requires
        positions_ok(q0, idx0),
        idx0.len() >= 1,
        good(ms, ws, q0[idx0[0]], p),
        forall|j: int, c2: Seq<usize>| yet_to_find(ms, ws, q0, p0, j, c2) ==> idx0.contains(j) && (j == idx0[0] ==> pending(c2, p)),
        idx0[0] == 0 ==> forall|c: Seq<usize>| candidate(ws, q0[0], c) && pending(c, p) ==> pending(c, p0),
    ensures
        yet_to_find(ms, ws, q0, p0, idx0[0], p),
        forall|j: int, c2: Seq<usize>|
            yet_to_find(ms, ws, q0, p0, j, c2) ==> idx0[0] < j || (idx0[0] == j && !seq_before(c2, p)),
{
    let k = idx0[0];
    if k == 0 {
        lemma_before_irreflexive(p);
        assert(p.take(p.len() as int) =~= p);
        assert(pending(p, p));
    }
    assert forall|j: int, c2: Seq<usize>| yet_to_find(ms, ws, q0, p0, j, c2) implies k < j || (k == j && !seq_before(c2, p)) by {
        assert(idx0.contains(j));
        let i = choose|i: int| 0 <= i < idx0.len() && idx0[i] == j;
        if i > 0 {
            assert(idx0[0] < idx0[i]);
        } else {
            assert(pending(c2, p));
            assert(c2.take(p.len() as int) =~= c2);
        }
    }
}

/// Moving on within the current phase keeps every phrase yet to be found still to be
/// tried.
proof fn lemma_same_phase(
    ms: Seq<PhraseMatcher>,
    ws: Seq<&Word>,
    q0: Seq<SearchPhase>,
    p0: Seq<usize>,
    idx: Seq<int>,
    p: Seq<usize>,
    np: Seq<usize>,
    found: bool,
)
    requires
        idx.len() >= 1,
        0 <= idx[0] < q0.len(),
        !found,
        forall|c2: Seq<usize>| good(ms, ws, q0[idx[0]], c2) && c2.take(p.len() as int) == p ==> found && c2 == p,
        forall|c: Seq<usize>|
            candidate(ws, q0[idx[0]], c) ==> ((pending(c, p) && !pending(c, np)) <==> c.take(p.len() as int) == p),
        forall|c: Seq<usize>| candidate(ws, q0[idx[0]], c) && !pending(c, p) ==> !pending(c, np),
        forall|j: int, c2: Seq<usize>| yet_to_find(ms, ws, q0, p0, j, c2) ==> idx.contains(j) && (j == idx[0] ==> pending(c2, p)),
        idx[0] == 0 ==> forall|c: Seq<usize>| candidate(ws, q0[0], c) && pending(c, p) ==> pending(c, p0),
    ensures
        forall|j: int, c2: Seq<usize>| yet_to_find(ms, ws, q0, p0, j, c2) ==> idx.contains(j) && (j == idx[0] ==> pending(c2, np)),
        idx[0] == 0 ==> forall|c: Seq<usize>| candidate(ws, q0[0], c) && pending(c, np) ==> pending(c, p0),
{
    assert forall|j: int, c2: Seq<usize>| yet_to_find(ms, ws, q0, p0, j, c2) implies idx.contains(j) && (j == idx[0] ==> pending(c2, np)) by {
        if j == idx[0] {
            if c2.take(p.len() as int) == p {
                assert(false);
            }
        }
    }
}

/// Moving on to a later phase: the phrases yet to be found are all in the phases
/// left, at the positions returned.
proof fn lemma_next_phase(
    ms: Seq<PhraseMatcher>,
    ws: Seq<&Word>,
    q0: Seq<SearchPhase>,
    p0: Seq<usize>,
    idx0: Seq<int>,
    p: Seq<usize>,
    fl: bool,
    nq: Seq<SearchPhase>,
) -> (ni: Seq<int>)
    requires
        positions_ok(q0, idx0),
        idx0.len() >= 1,
        phases_ok(q0, ws),
        forall|c2: Seq<usize>| good(ms, ws, q0[idx0[0]], c2) && c2.take(p.len() as int) == p ==> c2 == p,
        !good(ms, ws, q0[idx0[0]], p),
        forall|c: Seq<usize>| candidate(ws, q0[idx0[0]], c) && pending(c, p) ==> c.take(p.len() as int) == p,
        fl == exists|c: Seq<usize>| candidate(ws, q0[idx0[0]], c) && (!pending(c, p) || c.take(p.len() as int) == p) && alive_in_all(ms, c),
        nq == if fl {
            phases_at(q0, idx0).skip(1)
        } else {
            kept_phases(phases_at(q0, idx0).skip(1), q0[idx0[0]])
        },
        nq.len() >= 1,
        forall|j: int, c2: Seq<usize>| yet_to_find(ms, ws, q0, p0, j, c2) ==> idx0.contains(j) && (j == idx0[0] ==> pending(c2, p)),
    ensures
        positions_ok(q0, ni),
        ni.len() == nq.len(),
        forall|i: int| 0 <= i < ni.len() ==> nq[i] == q0[#[trigger] ni[i]],
        forall|j: int, c2: Seq<usize>|
            yet_to_find(ms, ws, q0, p0, j, c2) ==> ni.contains(j) && (j == ni[0] ==> pending(c2, seq![0usize])),
        ni[0] > 0,
{
    let rest = idx0.skip(1);
    let ph = q0[idx0[0]];
    assert(positions_ok(q0, rest));
    assert(phases_at(q0, rest) =~= phases_at(q0, idx0).skip(1));
    lemma_kept_indices(q0, rest, ph);
    let ni = if fl {
        rest
    } else {
        kept_indices(q0, rest, ph)
    };
    assert(nq =~= phases_at(q0, ni));
    assert forall|i: int| 0 <= i < ni.len() implies nq[i] == q0[#[trigger] ni[i]] by {
        assert(phases_at(q0, ni)[i] == q0[ni[i]]);
    }
    assert forall|x: int| ni.contains(x) implies rest.contains(x) by {}
    assert forall|j: int, c2: Seq<usize>| yet_to_find(ms, ws, q0, p0, j, c2) implies ni.contains(j) && (j == ni[0]
        ==> pending(c2, seq![0usize])) by {
        assert(idx0.contains(j));
        let i = choose|i: int| 0 <= i < idx0.len() && idx0[i] == j;
        if i == 0 {
            assert(c2.take(p.len() as int) == p);
            assert(false);
        }
        assert(rest[i - 1] == j);
        assert(rest.contains(j));
        if !ni.contains(j) {
            assert forall|c: Seq<usize>| candidate(ws, ph, c) implies !alive_in_all(ms, c) by {
                if pending(c, p) {
                    assert(c.take(p.len() as int) == p);
                }
            }
            lemma_dropped_phase(ms, ws, ph, q0[j]);
            assert(false);
        }
        assert(q0[j].depth >= 1);
        lemma_pending_start(c2);
    }
    assert(ni[0] > 0) by {
        assert(ni.contains(ni[0]));
        assert(rest.contains(ni[0]));
        let i = choose|i: int| 0 <= i < rest.len() && rest[i] == ni[0];
        assert(idx0[0] < idx0[i + 1]);
    }
    ni
}

} // verus!
