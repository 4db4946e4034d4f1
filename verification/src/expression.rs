//! Expressions compiled to nondeterministic automata over symbols.
//!
//! A state has epsilon transitions (a set of states) and at most one symbol
//! transition: on any symbol of `char_bitset`, go to `next_state`. State 0 is
//! the start state and the last state is the success state.
use crate::bitset::{bits, BitSet, BitSet1D, BitSet3D, BitSetRef, BitSetRef1D, BitSetRefMut1D};
use vstd::set_lib::{lemma_int_range, lemma_len_subset, set_int_range};
use crate::parser::{
    ast_list_view, expression_of, lemma_ast_list_view, Ast, AstView, ExpressionAst, ExpressionOptions,
    ParseError,
};
use crate::text::expression_text;
use crate::words::{Char, CharBitset};
use vstd::prelude::*;

verus! {

/// The capacity of the epsilon sets while an automaton is built; an expression
/// must compile to fewer states than this.
pub const MAX_SET_SIZE: usize = 16384;

/// The block length of a set of capacity `MAX_SET_SIZE`.
pub open spec fn build_blocks() -> int {
    256
}

/// The block length of a set holding `n` positions.
pub open spec fn blocks_for(n: int) -> int {
    (n + 63) / 64
}

/// One state of the automaton.
pub struct State {
    epsilon_states: BitSet1D,
    char_bitset: CharBitset,
    next_state: usize,
}

/// The mathematical form of a state.
pub struct StateView {
    /// The states reachable by epsilon transitions.
    pub eps: Set<int>,
    /// The symbols of the symbol transition.
    pub chars: Set<int>,
    /// Where the symbol transition goes.
    pub next: int,
}

impl View for State {
    type V = StateView;

    closed spec fn view(&self) -> StateView {
        StateView {
            eps: self.epsilon_states@,
            chars: self.char_bitset@,
            next: self.next_state as int,
        }
    }
}

impl State {
    /// The epsilon set is well formed and `blocks` blocks long.
    pub closed spec fn sized(&self, blocks: int) -> bool {
        &&& self.epsilon_states.wf()
        &&& self.epsilon_states.row_len() == blocks
    }

    /// A pure-epsilon state with no transitions yet.
    fn new() -> (r: State)
        ensures
            r.sized(build_blocks()),
            r@.eps == Set::<int>::empty(),
            r@.chars == Set::<int>::empty(),
            r@.next == 0,
    {
        State::new_transition(CharBitset::empty(), 0)
    }

    /// A state going to `next_state` on `char_bitset`.
    fn new_transition(char_bitset: CharBitset, next_state: usize) -> (r: State)
        ensures
            r.sized(build_blocks()),
            r@.eps == Set::<int>::empty(),
            r@.chars == char_bitset@,
            r@.next == next_state,
    {
        State { epsilon_states: BitSet1D::new((), MAX_SET_SIZE), char_bitset, next_state }
    }

    /// The epsilon set, read-only.
    fn epsilon_states_bitset(&self) -> (r: BitSetRef1D<'_>)
        requires
            self.epsilon_states.wf(),
        ensures
            r.wf(),
            r@ == self@.eps,
            r.blocks_view().len() == self.epsilon_states.row_len(),
    {
        proof {
            self.epsilon_states.lemma_one_row();
        }
        self.epsilon_states.borrow()
    }
}

/// Every state is well formed, with epsilon sets `blocks` blocks long.
pub open spec fn all_sized(states: Seq<State>, blocks: int) -> bool {
    forall|i: int| 0 <= i < states.len() ==> #[trigger] states[i].sized(blocks)
}

/// The views of the states.
pub open spec fn states_view(states: Seq<State>) -> Seq<StateView> {
    states.map_values(|s: State| s@)
}

// ---------------------------------------------------------------------------
// Building the automaton of a syntax tree.

/// The tree can be compiled: it holds no anagram (those are expanded by the
/// query first) and no repetition whose upper bound is below its lower bound.
pub open spec fn buildable(a: AstView) -> bool
    decreases a,
{
    match a {
        AstView::CharClass(_) => true,
        AstView::Alternatives(v) => buildable_list(v),
        AstView::Sequence(v) => buildable_list(v),
        AstView::Repetition { term, min, max } => (max matches Some(m) ==> min <= m) && buildable(
            *term,
        ),
        AstView::Anagram { .. } => false,
    }
}

pub open spec fn buildable_list(v: Seq<AstView>) -> bool
    decreases v,
{
    if v.len() == 0 {
        true
    } else {
        buildable_list(v.drop_last()) && buildable(v.last())
    }
}

/// How many times a general repetition builds its term.
pub open spec fn repeats(min: usize, max: Option<usize>) -> int {
    let m = match max {
        Some(m) => m as int,
        None => min as int,
    };
    let a = if min as int >= m {
        min as int
    } else {
        m
    };
    if a >= 1 {
        a
    } else {
        1
    }
}

/// The number of states that the tree compiles to.
pub open spec fn state_count(a: AstView) -> nat
    decreases a,
{
    match a {
        AstView::CharClass(_) => 1,
        AstView::Alternatives(v) => 1 + state_count_list(v),
        AstView::Sequence(v) => state_count_list(v),
        AstView::Repetition { term, min, max } => if min == 0 && max == Some(0usize) {
            0
        } else if min == 1 && max == Some(1usize) {
            state_count(*term)
        } else {
            (2 + repeats(min, max) * state_count(*term)) as nat
        },
        AstView::Anagram { .. } => 0,
    }
}

pub open spec fn state_count_list(v: Seq<AstView>) -> nat
    decreases v,
{
    if v.len() == 0 {
        0
    } else {
        state_count_list(v.drop_last()) + state_count(v.last())
    }
}

/// The states from `lo` on have epsilon transitions only to states in `lo..=hi`,
/// and symbol transitions to states up to `hi`.
pub open spec fn local(states: Seq<State>, lo: int, hi: int) -> bool {
    forall|i: int|
        lo <= i < states.len() ==> {
            &&& 0 <= #[trigger] states[i]@.next <= hi
            &&& forall|j: int| #[trigger] states[i]@.eps.contains(j) ==> lo <= j <= hi
        }
}

proof fn lemma_list_split(v: Seq<AstView>, k: int)
    requires
        0 <= k < v.len(),
    ensures
        state_count_list(v.subrange(0, k + 1)) == state_count_list(v.subrange(0, k)) + state_count(
            v[k],
        ),
        buildable_list(v) ==> buildable(v[k]) && buildable_list(v.subrange(0, k + 1)),
    decreases v.len(),
{
    assert(v.subrange(0, k + 1).drop_last() =~= v.subrange(0, k));
    if buildable_list(v) && k < v.len() - 1 {
        lemma_list_split(v.drop_last(), k);
        assert(v.drop_last().subrange(0, k + 1) =~= v.subrange(0, k + 1));
        assert(v.drop_last()[k] == v[k]);
    }
}

proof fn lemma_list_whole(v: Seq<AstView>)
    ensures
        v.subrange(0, v.len() as int) == v,
{
    assert(v.subrange(0, v.len() as int) =~= v);
}

} // verus!

verus! {

proof fn lemma_list_prefix_mono(v: Seq<AstView>, k: int, j: int)
    requires
        0 <= k <= j <= v.len(),
    ensures
        state_count_list(v.subrange(0, k)) <= state_count_list(v.subrange(0, j)),
    decreases j - k,
{
    if k < j {
        lemma_list_prefix_mono(v, k, j - 1);
        lemma_list_split(v, j - 1);
    }
}

proof fn lemma_mul_step(i: int, c: int, r: int)
    requires
        0 <= i < r,
        0 <= c,
    ensures
        (i + 1) * c == i * c + c,
        (i + 1) * c <= r * c,
        0 <= i * c,
{
    assert((i + 1) * c == i * c + c) by (nonlinear_arith);
    assert((i + 1) * c <= r * c) by (nonlinear_arith)
        requires
            i + 1 <= r,
            0 <= c,
    ;
    assert(0 <= i * c) by (nonlinear_arith)
        requires
            0 <= i,
            0 <= c,
    ;
}

/// Makes state `i`, the last of a tree's states, end at `target` in place of the
/// state after it: its symbol transition goes to `target`, and so does its epsilon
/// transition to the state after it if it has one.
fn repoint(states: &mut Vec<State>, i: usize, target: usize)
    requires
        i < old(states).len(),
        old(states)@[i as int].sized(build_blocks()),
        target < MAX_SET_SIZE,
        i + 1 < MAX_SET_SIZE,
    ensures
        final(states).len() == old(states).len(),
        final(states)@[i as int].sized(build_blocks()),
        final(states)@[i as int]@ == (StateView {
            eps: if old(states)@[i as int]@.eps.contains(i + 1) {
                old(states)@[i as int]@.eps.remove(i + 1).insert(target as int)
            } else {
                old(states)@[i as int]@.eps
            },
            next: target as int,
            ..old(states)@[i as int]@
        }),
        forall|j: int| 0 <= j < old(states).len() && j != i ==> final(states)@[j] == old(states)@[j],
{
    if states[i].epsilon_states.has(i + 1) {
        states[i].epsilon_states.remove_one(i + 1);
        states[i].epsilon_states.insert_one(target);
    }
    states[i].next_state = target;
}

/// Adds `target` to the epsilon set of state `i`.
fn add_epsilon(states: &mut Vec<State>, i: usize, target: usize)
    requires
        i < old(states).len(),
        old(states)@[i as int].epsilon_states.wf(),
        (target as int) < old(states)@[i as int].epsilon_states.capacity(),
    ensures
        final(states).len() == old(states).len(),
        final(states)@[i as int].epsilon_states.wf(),
        final(states)@[i as int].epsilon_states.row_len() == old(states)@[i as int].epsilon_states.row_len(),
        forall|b: int| old(states)@[i as int].sized(b) ==> final(states)@[i as int].sized(b),
        final(states)@[i as int]@ == (StateView {
            eps: old(states)@[i as int]@.eps.insert(target as int),
            ..old(states)@[i as int]@
        }),
        forall|j: int| 0 <= j < old(states).len() && j != i ==> final(states)@[j] == old(states)@[j],
{
    states[i].epsilon_states.insert_one(target);
}

} // verus!

verus! {

/// A compiled expression: the automaton, the text it was printed from, and how it
/// treats word ends, punctuation and errors.
pub struct Expression {
    states: Vec<State>,
    text: String,
    /// Word ends in a word are skipped rather than matched.
    pub ignore_word_boundaries: bool,
    /// Punctuation in a word is skipped rather than matched.
    pub ignore_punctuation: bool,
    /// How many edits a match may need.
    pub fuzz: usize,
}

impl Expression {
    /// Appends the states of `ast` to `states`. The first new state is the start of
    /// the tree's automaton; the last one goes on success to the state after it.
    fn build_states(ast: &Ast, states: &mut Vec<State>)
        requires
            buildable(ast@),
            old(states).len() + state_count(ast@) < MAX_SET_SIZE,
            all_sized(old(states)@, build_blocks()),
        ensures
            final(states).len() == old(states).len() + state_count(ast@),
            all_sized(final(states)@, build_blocks()),
            forall|i: int| 0 <= i < old(states).len() ==> #[trigger] final(states)@[i] == old(states)@[i],
            local(final(states)@, old(states).len() as int, final(states).len() as int),
        decreases ast, 1int,
    {
        match ast {
            Ast::CharClass(char_bitset) => {
                let n = states.len();
                states.push(State::new_transition(*char_bitset, n + 1));
            },
            Ast::Alternatives(alts) => {
                Self::build_alternatives(alts, states);
            },
            Ast::Sequence(terms) => {
                Self::build_sequence(terms, states);
            },
            Ast::Repetition { term, min, max } => {
                if *min == 0 && *max == Some(0usize) {
                } else if *min == 1 && *max == Some(1usize) {
                    Self::build_states(term, states);
                } else {
                    assert(decreases_to!(*ast => **term));
                    Self::build_repetition(term, *min, *max, states);
                }
            },
            Ast::Anagram { .. } => {},
        }
    }

    /// The states of each tree in turn.
    fn build_sequence(terms: &Vec<Ast>, states: &mut Vec<State>)
        requires
            buildable_list(ast_list_view(terms@)),
            old(states).len() + state_count_list(ast_list_view(terms@)) < MAX_SET_SIZE,
            all_sized(old(states)@, build_blocks()),
        ensures
            final(states).len() == old(states).len() + state_count_list(ast_list_view(terms@)),
            all_sized(final(states)@, build_blocks()),
            forall|i: int| 0 <= i < old(states).len() ==> #[trigger] final(states)@[i] == old(states)@[i],
            local(final(states)@, old(states).len() as int, final(states).len() as int),
        decreases terms, 0int,
    {
        let ghost v = ast_list_view(terms@);
        let ghost start = states.len() as int;
        let ghost old_states = states@;
        proof {
            lemma_ast_list_view(terms@);
            lemma_list_prefix_mono(v, 0, v.len() as int);
            lemma_list_whole(v);
            assert(v.subrange(0, 0) =~= Seq::<AstView>::empty());
        }
        let mut k: usize = 0;
        while k < terms.len()
            invariant
                v == ast_list_view(terms@),
                v.len() == terms@.len(),
                forall|j: int| 0 <= j < terms@.len() ==> #[trigger] v[j] == terms@[j]@,
                buildable_list(v),
                start + state_count_list(v) < MAX_SET_SIZE,
                k <= terms@.len(),
                states.len() == start + state_count_list(v.subrange(0, k as int)),
                all_sized(states@, build_blocks()),
                old_states.len() == start,
                forall|i: int| 0 <= i < start ==> #[trigger] states@[i] == old_states[i],
                local(states@, start, states.len() as int),
            decreases terms@.len() - k,
        {
            proof {
                lemma_list_split(v, k as int);
                lemma_list_prefix_mono(v, k + 1, v.len() as int);
                lemma_list_whole(v);
                assert(decreases_to!(*terms => terms@));
                assert(decreases_to!(terms@ => terms@[k as int]));
            }
            let ghost before = states@;
            Self::build_states(&terms[k], states);
            proof {
                assert forall|i: int| 0 <= i < start implies #[trigger] states@[i] == old_states[i] by {
                    assert(states@[i] == before[i]);
                }
                assert forall|i: int| start <= i < states@.len() implies {
                    &&& 0 <= #[trigger] states@[i]@.next <= states@.len()
                    &&& forall|j: int| #[trigger] states@[i]@.eps.contains(j) ==> start <= j <= states@.len()
                } by {
                    if i < before.len() {
                        assert(states@[i] == before[i]);
                        assert(0 <= before[i]@.next <= before.len());
                        assert forall|j: int| #[trigger] states@[i]@.eps.contains(j) implies start <= j <= states@.len() by {
                            assert(before[i]@.eps.contains(j));
                        }
                    } else {
                        assert(before.len() <= i < states@.len());
                        assert(0 <= states@[i]@.next <= states@.len());
                        assert forall|j: int| #[trigger] states@[i]@.eps.contains(j) implies start <= j <= states@.len() by {
                            assert(before.len() <= j);
                        }
                    }
                }
            }
            k += 1;
        }
        proof {
            lemma_list_whole(v);
        }
    }

    /// An alternative among the trees: a pure-epsilon start state going to the
    /// start of each tree, each tree ending at the state after all of them.
    fn build_alternatives(alts: &Vec<Ast>, states: &mut Vec<State>)
        requires
            buildable_list(ast_list_view(alts@)),
            old(states).len() + 1 + state_count_list(ast_list_view(alts@)) < MAX_SET_SIZE,
            all_sized(old(states)@, build_blocks()),
        ensures
            final(states).len() == old(states).len() + 1 + state_count_list(ast_list_view(alts@)),
            all_sized(final(states)@, build_blocks()),
            forall|i: int| 0 <= i < old(states).len() ==> #[trigger] final(states)@[i] == old(states)@[i],
            local(final(states)@, old(states).len() as int, final(states).len() as int),
            alts@.len() > 0 && state_count(alts@[0]@) > 0 ==> forall|k: int|
                0 <= k < alts@.len() ==> #[trigger] final(states)@[old(states).len() as int]@.eps.contains(
                    alt_start(old(states).len() as int, ast_list_view(alts@), k),
                ),
        decreases alts, 0int,
    {
        let ghost v = ast_list_view(alts@);
        let ghost old_states = states@;
        let initial_len = states.len();
        proof {
            lemma_ast_list_view(alts@);
            lemma_list_prefix_mono(v, 0, v.len() as int);
            lemma_list_whole(v);
            assert(v.subrange(0, 0) =~= Seq::<AstView>::empty());
        }
        states.push(State::new());
        let mut end_indexes: Vec<usize> = Vec::new();
        let mut k: usize = 0;
        while k < alts.len()
            invariant
                v == ast_list_view(alts@),
                v.len() == alts@.len(),
                forall|j: int| 0 <= j < alts@.len() ==> #[trigger] v[j] == alts@[j]@,
                buildable_list(v),
                initial_len + 1 + state_count_list(v) < MAX_SET_SIZE,
                initial_len == old_states.len(),
                k <= alts@.len(),
                states.len() == initial_len + 1 + state_count_list(v.subrange(0, k as int)),
                all_sized(states@, build_blocks()),
                forall|i: int| 0 <= i < initial_len ==> #[trigger] states@[i] == old_states[i],
                local(states@, initial_len as int, states.len() as int),
                forall|j: int| 0 <= j < end_indexes@.len() ==> initial_len <= #[trigger] end_indexes@[j] < states.len(),
                end_indexes@.len() == k,
                states.len() > initial_len,
                forall|j: int| 0 <= j < k ==> #[trigger] states@[initial_len as int]@.eps.contains(alt_start(initial_len as int, v, j)),
                v.len() > 0 && state_count(v[0]) > 0 ==> forall|j: int| 0 <= j < end_indexes@.len() ==> initial_len < #[trigger] end_indexes@[j],
            decreases alts@.len() - k,
        {
            proof {
                lemma_list_split(v, k as int);
                lemma_list_prefix_mono(v, k + 1, v.len() as int);
                lemma_list_whole(v);
                assert(decreases_to!(*alts => alts@));
                assert(decreases_to!(alts@ => alts@[k as int]));
            }
            let next_index = states.len();
            proof {
                assert(states@[initial_len as int].sized(build_blocks()));
            }
            let ghost before_eps = states@;
            add_epsilon(states, initial_len, next_index);
            let ghost before = states@;
            Self::build_states(&alts[k], states);
            let ghost ends_before = end_indexes@;
            end_indexes.push(states.len() - 1);
            proof {
                assert(states@[initial_len as int] == before[initial_len as int]);
                assert forall|j: int| 0 <= j < k + 1 implies #[trigger] states@[initial_len as int]@.eps.contains(alt_start(initial_len as int, v, j)) by {
                    if j < k {
                        assert(before_eps[initial_len as int]@.eps.contains(alt_start(initial_len as int, v, j)));
                    }
                }
                if v.len() > 0 && state_count(v[0]) > 0 {
                    lemma_list_split(v, 0);
                    assert(v.subrange(0, 0) =~= Seq::<AstView>::empty());
                    lemma_list_prefix_mono(v, 1, k + 1);
                    assert forall|j: int| 0 <= j < end_indexes@.len() implies initial_len < #[trigger] end_indexes@[j] by {
                        if j < ends_before.len() {
                            assert(end_indexes@[j] == ends_before[j]);
                        }
                    }
                }
                assert forall|i: int| 0 <= i < initial_len implies #[trigger] states@[i] == old_states[i] by {
                    assert(states@[i] == before[i]);
                }
                assert forall|i: int| initial_len <= i < states@.len() implies {
                    &&& 0 <= #[trigger] states@[i]@.next <= states@.len()
                    &&& forall|j: int| #[trigger] states@[i]@.eps.contains(j) ==> initial_len <= j <= states@.len()
                } by {
                    if i < before.len() {
                        assert(states@[i] == before[i]);
                    }
                }
            }
            k += 1;
        }
        proof {
            lemma_list_whole(v);
        }
        let next_index = states.len();
        let mut e: usize = 0;
        while e < end_indexes.len()
            invariant
                initial_len == old_states.len(),
                next_index == states.len(),
                next_index < MAX_SET_SIZE,
                all_sized(states@, build_blocks()),
                forall|i: int| 0 <= i < initial_len ==> #[trigger] states@[i] == old_states[i],
                local(states@, initial_len as int, states.len() as int),
                forall|j: int| 0 <= j < end_indexes@.len() ==> initial_len <= #[trigger] end_indexes@[j] < states.len(),
                v == ast_list_view(alts@),
                v.len() == alts@.len(),
                end_indexes@.len() == alts@.len(),
                v.len() > 0 && state_count(v[0]) > 0 ==> {
                    &&& forall|j: int| 0 <= j < end_indexes@.len() ==> initial_len < #[trigger] end_indexes@[j]
                    &&& forall|j: int| 0 <= j < v.len() ==> #[trigger] states@[initial_len as int]@.eps.contains(alt_start(initial_len as int, v, j))
                },
            decreases end_indexes@.len() - e,
        {
            let end_index = end_indexes[e];
            let ghost before = states@;
            repoint(states, end_index, next_index);
            proof {
                if v.len() > 0 && state_count(v[0]) > 0 {
                    assert(initial_len < end_indexes@[e as int]);
                    assert(states@[initial_len as int] == before[initial_len as int]);
                }
                assert forall|i: int| 0 <= i < initial_len implies #[trigger] states@[i] == old_states[i] by {
                    assert(states@[i] == before[i]);
                }
                assert forall|i: int| initial_len <= i < states@.len() implies {
                    &&& 0 <= #[trigger] states@[i]@.next <= states@.len()
                    &&& forall|j: int| #[trigger] states@[i]@.eps.contains(j) ==> initial_len <= j <= states@.len()
                } by {
                    if i != end_index {
                        assert(states@[i] == before[i]);
                    } else {
                        assert(0 <= before[i]@.next <= before.len());
                        assert forall|j: int| #[trigger] states@[i]@.eps.contains(j) implies initial_len
                            <= j <= states@.len() by {
                            if j != next_index {
                                assert(before[i]@.eps.contains(j));
                            }
                        }
                    }
                }
            }
            e += 1;
        }
    }
}


/// The first state of alternative `k` of `v`, where the alternatives' states start
/// after the pure-epsilon state at `initial`: the states of the alternatives before
/// it come first.
pub open spec fn alt_start(initial: int, v: Seq<AstView>, k: int) -> int {
    initial + 1 + state_count_list(v.subrange(0, k))
}

impl Expression {
    /// `term` repeated: a pure-epsilon start state, the term's states `repeats` times
    /// over, and a pure-epsilon final state. The start state can skip to each copy
    /// that lies after the `min`-th from the end, and to the final state when `min` is 0;
    /// without an upper bound the final state can go back to the last copy.
    fn build_repetition(term: &Ast, min: usize, max: Option<usize>, states: &mut Vec<State>)
        requires
            buildable(term@),
            max matches Some(m) ==> min <= m,
            old(states).len() + 2 + repeats(min, max) * state_count(term@) < MAX_SET_SIZE,
            all_sized(old(states)@, build_blocks()),
        ensures
            final(states).len() == old(states).len() + 2 + repeats(min, max) * state_count(term@),
            all_sized(final(states)@, build_blocks()),
            forall|i: int| 0 <= i < old(states).len() ==> #[trigger] final(states)@[i] == old(states)@[i],
            local(final(states)@, old(states).len() as int, final(states).len() as int),
        decreases term, 2int,
    {
        let ghost old_states = states@;
        let ghost c = state_count(term@) as int;
        let initial_len = states.len();
        states.push(State::new());
        let m = match max {
            Some(m) => m,
            None => min,
        };
        let a = if min >= m {
            min
        } else {
            m
        };
        let reps = if a >= 1 {
            a
        } else {
            1
        };
        assert(reps == repeats(min, max));
        let mut final_term_index: usize = 0;
        let mut i: usize = 0;
        while i < reps
            invariant
                initial_len == old_states.len(),
                reps == repeats(min, max),
                reps >= 1,
                m >= min,
                c == state_count(term@),
                buildable(term@),
                initial_len + 2 + reps * c < MAX_SET_SIZE,
                i <= reps,
                0 <= i * c,
                states.len() == initial_len + 1 + i * c,
                all_sized(states@, build_blocks()),
                forall|k: int| 0 <= k < initial_len ==> #[trigger] states@[k] == old_states[k],
                local(states@, initial_len as int, states.len() as int),
                i > 0 ==> initial_len < final_term_index <= states.len(),
            decreases reps - i,
        {
            proof {
                lemma_mul_step(i as int, c, reps as int);
            }
            if i <= m - min {
                let next_index = states.len();
                proof {
                    assert(states@[initial_len as int].sized(build_blocks()));
                }
                add_epsilon(states, initial_len, next_index);
            }
            final_term_index = states.len();
            let ghost before = states@;
            Self::build_states(term, states);
            proof {
                assert forall|k: int| 0 <= k < initial_len implies #[trigger] states@[k] == old_states[k] by {
                    assert(states@[k] == before[k]);
                }
                assert forall|k: int| initial_len <= k < states@.len() implies {
                    &&& 0 <= #[trigger] states@[k]@.next <= states@.len()
                    &&& forall|j: int| #[trigger] states@[k]@.eps.contains(j) ==> initial_len <= j <= states@.len()
                } by {
                    if k < before.len() {
                        assert(states@[k] == before[k]);
                    }
                }
            }
            i += 1;
        }
        let final_index = states.len();
        states.push(State::new());
        proof {
            assert(states@[final_index as int].sized(build_blocks()));
        }
        add_epsilon(states, final_index, final_index + 1);
        if min == 0 {
            proof {
                assert(states@[initial_len as int].sized(build_blocks()));
            }
            add_epsilon(states, initial_len, final_index);
        }
        if max.is_none() {
            proof {
                assert(states@[final_index as int].sized(build_blocks()));
            }
            add_epsilon(states, final_index, final_term_index);
        }
    }
}


// ---------------------------------------------------------------------------
// Optimizing the automaton.

/// Every symbol transition and epsilon transition goes to one of the `n` states.
pub open spec fn bounded(states: Seq<State>, n: int) -> bool {
    forall|i: int|
        0 <= i < states.len() ==> {
            &&& 0 <= #[trigger] states[i]@.next < n
            &&& forall|j: int| #[trigger] states[i]@.eps.contains(j) ==> 0 <= j < n
        }
}

/// State `k` reaches itself by epsilon transitions, and reaches by them whatever the
/// states it reaches do.
pub open spec fn closed_at(states: Seq<State>, k: int) -> bool {
    &&& states[k]@.eps.contains(k)
    &&& forall|j: int| #[trigger] states[k]@.eps.contains(j) ==> states[j]@.eps.subset_of(states[k]@.eps)
}

/// The epsilon sets are reflexive and transitively closed.
pub open spec fn eps_closed(states: Seq<State>) -> bool {
    forall|k: int| 0 <= k < states.len() ==> #[trigger] closed_at(states, k)
}

/// The two lists have the same symbol transitions.
pub open spec fn same_symbols(a: Seq<State>, b: Seq<State>) -> bool {
    &&& a.len() == b.len()
    &&& forall|i: int| 0 <= i < a.len() ==> #[trigger] a[i]@.chars == b[i]@.chars && a[i]@.next == b[i]@.next
}

/// Closes the epsilon sets: each state reaches itself, and whatever the states it
/// reaches do.
fn epsilon_transitive_closure(states: &mut Vec<State>, Ghost(b): Ghost<int>)
    requires
        all_sized(old(states)@, b),
        old(states).len() <= b * 64,
        bounded(old(states)@, old(states).len() as int),
    ensures
        all_sized(final(states)@, b),
        bounded(final(states)@, final(states).len() as int),
        same_symbols(final(states)@, old(states)@),
        eps_closed(final(states)@),
        forall|i: int| 0 <= i < old(states).len() ==> old(states)@[i]@.eps.subset_of(#[trigger] final(states)@[i]@.eps),
{
    let ghost old_states = states@;
    let n = states.len();
    let mut i: usize = 0;
    while i < n
        invariant
            n == states.len(),
            n <= b * 64,
            all_sized(states@, b),
            bounded(states@, n as int),
            same_symbols(states@, old_states),
            forall|k: int| 0 <= k < n ==> old_states[k]@.eps.subset_of(#[trigger] states@[k]@.eps),
            i <= n,
            forall|k: int| 0 <= k < i ==> #[trigger] closed_at(states@, k),
        decreases n - i,
    {
        proof {
            assert(states@[i as int].sized(b));
        }
        let ghost before = states@;
        add_epsilon(states, i, i);
        proof {
            assert forall|k: int| 0 <= k < i implies #[trigger] closed_at(states@, k) by {
                assert(closed_at(before, k));
                assert(states@[k] == before[k]);
                assert forall|j: int| #[trigger] states@[k]@.eps.contains(j) implies states@[j]@.eps.subset_of(states@[k]@.eps) by {
                    assert(before[k]@.eps.contains(j));
                    assert(0 <= before[k]@.next < n);
                    if j == i {
                        assert(before[k]@.eps.contains(i as int));
                        assert(before[i as int]@.eps.subset_of(before[k]@.eps));
                    } else {
                        assert(states@[j] == before[j]);
                    }
                }
            }
            assert(states@[i as int].sized(b));
            assert forall|k: int| 0 <= k < n implies old_states[k]@.eps.subset_of(#[trigger] states@[k]@.eps) by {
                if k != i {
                    assert(states@[k] == before[k]);
                }
            }
            assert forall|k: int| 0 <= k < n implies {
                &&& 0 <= #[trigger] states@[k]@.next < n
                &&& forall|j: int| #[trigger] states@[k]@.eps.contains(j) ==> 0 <= j < n
            } by {
                if k != i {
                    assert(states@[k] == before[k]);
                } else {
                    assert(0 <= before[k]@.next < n);
                    assert forall|j: int| #[trigger] states@[k]@.eps.contains(j) implies 0 <= j < n by {
                        if j != i {
                            assert(before[k]@.eps.contains(j));
                        }
                    }
                }
            }
        }
        loop
            invariant
                n == states.len(),
                n <= b * 64,
                i < n,
                all_sized(states@, b),
                bounded(states@, n as int),
                same_symbols(states@, old_states),
                forall|k: int| 0 <= k < n ==> old_states[k]@.eps.subset_of(#[trigger] states@[k]@.eps),
                forall|k: int| 0 <= k < i ==> #[trigger] closed_at(states@, k),
                states@[i as int]@.eps.contains(i as int),
            ensures
                closed_at(states@, i as int),
            decreases n - states@[i as int]@.eps.len(),
        {
            proof {
                assert(states@[i as int].sized(b));
                assert(0 <= states@[i as int]@.next < n);
                lemma_int_range(0, n as int);
                assert(states@[i as int]@.eps.subset_of(set_int_range(0, n as int)));
                lemma_len_subset(states@[i as int]@.eps, set_int_range(0, n as int));
            }
            let ghost start = states@[i as int]@.eps;
            let mut ss: BitSet1D = states[i].epsilon_states.clone();
            assert(ss@ == start);
            proof {
                assert forall|k: int| 0 <= k < i && states@[k]@.eps.contains(i as int) implies ss@.subset_of(#[trigger] states@[k]@.eps) by {
                    assert(closed_at(states@, k));
                }
            }
            let mut i2: usize = 0;
            while i2 < n
                invariant
                    n == states.len(),
                    i < n,
                    all_sized(states@, b),
                    bounded(states@, n as int),
                    forall|k: int| 0 <= k < i ==> #[trigger] closed_at(states@, k),
                    start == states@[i as int]@.eps,
                    ss.wf(),
                    ss.row_len() == b,
                    start.subset_of(ss@),
                    forall|j: int| #[trigger] ss@.contains(j) ==> 0 <= j < n,
                    forall|k: int| 0 <= k < i && states@[k]@.eps.contains(i as int) ==> ss@.subset_of(#[trigger] states@[k]@.eps),
                    forall|j: int| 0 <= j < i2 && start.contains(j) ==> (#[trigger] states@[j]@.eps).subset_of(ss@),
                    i2 <= n,
                decreases n - i2,
            {
                if ss.has(i2) {
                    proof {
                        assert(states@[i2 as int].sized(b));
                        ss.lemma_one_row();
                        states@[i2 as int].epsilon_states.lemma_one_row();
                    }
                    let ghost ss_before = ss@;
                    ss.union_from(states[i2].epsilon_states_bitset());
                    proof {
                        assert forall|k: int| 0 <= k < i && states@[k]@.eps.contains(i as int) implies ss@.subset_of(#[trigger] states@[k]@.eps) by {
                            assert(closed_at(states@, k));
                            assert(ss_before.subset_of(states@[k]@.eps));
                            assert(states@[k]@.eps.contains(i2 as int));
                        }
                        assert(0 <= states@[i2 as int]@.next < n);
                        assert forall|j: int| #[trigger] ss@.contains(j) implies 0 <= j < n by {
                            if !ss_before.contains(j) {
                                assert(states@[i2 as int]@.eps.contains(j));
                            }
                        }
                    }
                }
                i2 += 1;
            }
            proof {
                ss.lemma_one_row();
                states@[i as int].epsilon_states.lemma_one_row();
            }
            if states[i].epsilon_states.equals(&ss) {
                proof {
                    assert(ss@ == start);
                    assert forall|j: int| #[trigger] states@[i as int]@.eps.contains(j) implies states@[j]@.eps.subset_of(states@[i as int]@.eps) by {
                    }
                    assert(closed_at(states@, i as int));
                }
                break;
            }
            proof {
                assert(ss@ != start);
                assert(!ss@.subset_of(start)) by {
                    if ss@.subset_of(start) {
                        assert(ss@ =~= start);
                    }
                }
                let x = choose|x: int| ss@.contains(x) && !start.contains(x);
                assert(ss@.subset_of(set_int_range(0, n as int)));
                lemma_len_subset(ss@, set_int_range(0, n as int));
                start.lemma_subset_not_in_lt(ss@, x);
            }
            let ghost before = states@;
            states[i].epsilon_states = ss;
            proof {
                assert forall|k: int| 0 <= k < i implies #[trigger] closed_at(states@, k) by {
                    assert(closed_at(before, k));
                    assert(states@[k] == before[k]);
                    assert forall|j: int| #[trigger] states@[k]@.eps.contains(j) implies states@[j]@.eps.subset_of(states@[k]@.eps) by {
                        assert(0 <= before[k]@.next < n);
                        if j != i {
                            assert(states@[j] == before[j]);
                        }
                    }
                }
                assert forall|k: int| 0 <= k < n implies old_states[k]@.eps.subset_of(#[trigger] states@[k]@.eps) by {
                    if k != i {
                        assert(states@[k] == before[k]);
                    }
                }
                assert(states@[i as int].sized(b));
                assert forall|k: int| 0 <= k < n implies {
                    &&& 0 <= #[trigger] states@[k]@.next < n
                    &&& forall|j: int| #[trigger] states@[k]@.eps.contains(j) ==> 0 <= j < n
                } by {
                    if k != i {
                        assert(states@[k] == before[k]);
                    } else {
                        assert(0 <= before[k]@.next < n);
                    }
                }
                assert forall|k: int| 0 <= k < n implies #[trigger] states@[k].sized(b) by {
                    if k != i {
                        assert(states@[k] == before[k]);
                    }
                }
                assert forall|k: int| 0 <= k < n implies #[trigger] states@[k]@.chars == old_states[k]@.chars && states@[k]@.next == old_states[k]@.next by {
                    assert(before[k]@.chars == old_states[k]@.chars && before[k]@.next == old_states[k]@.next);
                    if k != i {
                        assert(states@[k] == before[k]);
                    }
                }
            }
        }
        i += 1;
    }
}


/// The set of `map[x]` for the positions `x` of `src`, in a set holding `size` positions.
fn image_set(src: &BitSet1D, map: &Vec<usize>, size: usize) -> (r: BitSet1D)
    requires
        src.wf(),
        size <= MAX_SET_SIZE,
        forall|x: int| #[trigger] src@.contains(x) ==> 0 <= x < map@.len(),
        forall|k: int| 0 <= k < map@.len() ==> #[trigger] map@[k] < size,
    ensures
        r.wf(),
        r.row_len() == blocks_for(size as int),
        r@ == src@.map(|x: int| map@[x] as int),
{
    let mut r = BitSet1D::new((), size);
    proof {
        src.lemma_one_row();
    }
    let mut ones = src.borrow().ones();
    let ghost all = src@;
    let ghost mut done: Set<int> = Set::empty();
    loop
        invariant
            r.wf(),
            r.row_len() == blocks_for(size as int),
            r.capacity() >= size,
            ones.wf(),
            all == src@,
            done.union(ones@) == all,
            done.disjoint(ones@),
            forall|x: int| #[trigger] all.contains(x) ==> 0 <= x < map@.len(),
            forall|k: int| 0 <= k < map@.len() ==> #[trigger] map@[k] < size,
            r@ == done.map(|x: int| map@[x] as int),
        ensures
            r.wf(),
            r.row_len() == blocks_for(size as int),
            r@ == all.map(|x: int| map@[x] as int),
        decreases ones@.len(),
    {
        proof {
            ones.lemma_finite();
        }
        let ghost before = ones@;
        match ones.next() {
            Some(x) => {
                assert(all.contains(x as int));
                let y = map[x];
                let ghost r_before = r@;
                r.insert_one(y);
                proof {
                    let f = |x: int| map@[x] as int;
                    done.lemma_set_map_insert_commute(x as int, f);
                    done = done.insert(x as int);
                    assert(done.union(ones@) =~= all);
                }
            },
            None => {
                proof {
                    assert(done =~= all);
                }
                break;
            },
        }
    }
    r
}


/// How many of the first `k` states are kept (`None`: not replaced by another).
pub open spec fn kept(r: Seq<Option<usize>>, k: int) -> int
    decreases k,
{
    if k <= 0 {
        0
    } else {
        kept(r, k - 1) + if r[k - 1] is None {
            1int
        } else {
            0int
        }
    }
}

pub(crate) proof fn lemma_kept_mono(r: Seq<Option<usize>>, a: int, b: int)
    requires
        0 <= a <= b,
    ensures
        kept(r, a) <= kept(r, b),
        kept(r, b) - kept(r, a) <= b - a,
        0 <= kept(r, a),
    decreases b - a,
{
    if a < b {
        lemma_kept_mono(r, a, b - 1);
    } else {
        lemma_kept_nonneg(r, a);
    }
}

pub(crate) proof fn lemma_kept_nonneg(r: Seq<Option<usize>>, a: int)
    ensures
        0 <= kept(r, a),
    decreases a,
{
    if a > 0 {
        lemma_kept_nonneg(r, a - 1);
    }
}

proof fn lemma_kept_update(r: Seq<Option<usize>>, q: int, v: usize, k: int)
    requires
        0 <= q < r.len(),
        r[q] is None,
        0 <= k <= r.len(),
    ensures
        kept(r.update(q, Some(v)), k) == kept(r, k) - if q < k {
            1int
        } else {
            0int
        },
    decreases k,
{
    if k > 0 {
        lemma_kept_update(r, q, v, k - 1);
    }
}

pub(crate) proof fn lemma_kept_all(r: Seq<Option<usize>>, k: int)
    requires
        0 <= k <= r.len(),
        forall|q: int| 0 <= q < r.len() ==> #[trigger] r[q] is None,
    ensures
        kept(r, k) == k,
    decreases k,
{
    if k > 0 {
        lemma_kept_all(r, k - 1);
    }
}

/// Removes pure-epsilon states that duplicate another: when state `i2` reaches by
/// epsilon transitions exactly what an earlier pure-epsilon state `i` reaches but `i`
/// itself, `i2` is dropped, its content moves to the place of `i`, and transitions to
/// either go there. A state already dropped neither drops nor is dropped again.
fn prune_epsilon_pairs(states: &mut Vec<State>, Ghost(b): Ghost<int>)
    requires
        all_sized(old(states)@, b),
        old(states).len() <= b * 64,
        1 <= old(states).len() <= MAX_SET_SIZE,
        bounded(old(states)@, old(states).len() as int),
    ensures
        1 <= final(states).len() <= old(states).len(),
        all_sized(final(states)@, blocks_for(final(states).len() as int)),
        bounded(final(states)@, final(states).len() as int),
        final(states).len() == old(states).len() ==> forall|i: int|
            0 <= i < old(states).len() ==> #[trigger] final(states)@[i]@ == old(states)@[i]@,
{
    let n = states.len();
    let mut replaced_by: Vec<Option<usize>> = Vec::new();
    let mut source: Vec<usize> = Vec::new();
    let mut k: usize = 0;
    while k < n
        invariant
            k <= n,
            replaced_by@.len() == k,
            source@.len() == k,
            forall|q: int| 0 <= q < k ==> #[trigger] replaced_by@[q] is None,
            forall|q: int| 0 <= q < k ==> #[trigger] source@[q] == q,
        decreases n - k,
    {
        replaced_by.push(None);
        source.push(k);
        k += 1;
    }
    proof {
        lemma_kept_all(replaced_by@, n as int);
    }
    let mut deleted: usize = 0;
    let mut i: usize = 1;
    while i < n
        invariant
            n == states.len(),
            n <= b * 64,
            all_sized(states@, b),
            1 <= i <= n,
            replaced_by@.len() == n,
            source@.len() == n,
            replaced_by@[0] is None,
            forall|q: int|
                0 <= q < n ==> (#[trigger] replaced_by@[q] matches Some(j) ==> j < q && j < i
                    && replaced_by@[j as int] is None),
            forall|p: int| 0 <= p < n ==> #[trigger] source@[p] < n,
            deleted + kept(replaced_by@, n as int) == n,
            deleted == 0 ==> forall|q: int| 0 <= q < n ==> #[trigger] replaced_by@[q] is None,
            deleted == 0 ==> forall|p: int| 0 <= p < n ==> #[trigger] source@[p] == p,
        decreases n - i,
    {
        if replaced_by[i].is_none() && states[i].char_bitset == CharBitset::empty() {
            proof {
                assert(states@[i as int].sized(b));
            }
            let mut similar = states[i].epsilon_states.clone();
            similar.remove_one(i);
            let mut i2 = i + 1;
            while i2 < n
                invariant
                    n == states.len(),
                    all_sized(states@, b),
                    1 <= i < n,
                    i + 1 <= i2 <= n,
                    replaced_by@.len() == n,
                    source@.len() == n,
                    replaced_by@[0] is None,
                    replaced_by@[i as int] is None,
                    forall|q: int|
                        0 <= q < n ==> (#[trigger] replaced_by@[q] matches Some(j) ==> j < q && j
                            <= i && replaced_by@[j as int] is None),
                    forall|p: int| 0 <= p < n ==> #[trigger] source@[p] < n,
                    deleted + kept(replaced_by@, n as int) == n,
                    deleted == 0 ==> forall|q: int| 0 <= q < n ==> #[trigger] replaced_by@[q] is None,
                    deleted == 0 ==> forall|p: int| 0 <= p < n ==> #[trigger] source@[p] == p,
                    similar.wf(),
                    similar.row_len() == b,
                ensures
                    forall|q: int|
                        0 <= q < n ==> (#[trigger] replaced_by@[q] matches Some(j) ==> j < q && j
                            <= i && replaced_by@[j as int] is None),
                    replaced_by@.len() == n,
                    source@.len() == n,
                    replaced_by@[0] is None,
                    forall|p: int| 0 <= p < n ==> #[trigger] source@[p] < n,
                    deleted + kept(replaced_by@, n as int) == n,
                    deleted == 0 ==> forall|q: int| 0 <= q < n ==> #[trigger] replaced_by@[q] is None,
                    deleted == 0 ==> forall|p: int| 0 <= p < n ==> #[trigger] source@[p] == p,
                decreases n - i2,
            {
                proof {
                    assert(states@[i2 as int].sized(b));
                    similar.lemma_one_row();
                    states@[i2 as int].epsilon_states.lemma_one_row();
                }
                if replaced_by[i2].is_none() && similar.equals(&states[i2].epsilon_states) {
                    proof {
                        lemma_kept_update(replaced_by@, i2 as int, i, n as int);
                        lemma_kept_mono(replaced_by@, 1, n as int);
                        assert(kept(replaced_by@, 0) == 0);
                        assert(kept(replaced_by@, 1) == 1);
                    }
                    replaced_by.set(i2, Some(i));
                    source.set(i, i2);
                    deleted += 1;
                    break;
                }
                i2 += 1;
            }
        }
        i += 1;
    }
    // The new index of each kept state, and where each old state's transitions now go.
    let mut rank: Vec<usize> = Vec::new();
    let mut c: usize = 0;
    let mut p: usize = 0;
    while p < n
        invariant
            p <= n,
            replaced_by@.len() == n,
            rank@.len() == p,
            c == kept(replaced_by@, p as int),
            forall|q: int| 0 <= q < p ==> #[trigger] rank@[q] == kept(replaced_by@, q),
        decreases n - p,
    {
        proof {
            lemma_kept_mono(replaced_by@, p as int, p + 1);
            lemma_kept_mono(replaced_by@, 0, p as int);
        }
        rank.push(c);
        if replaced_by[p].is_none() {
            c += 1;
        }
        p += 1;
    }
    let new_len = n - deleted;
    proof {
        lemma_kept_mono(replaced_by@, 1, n as int);
        assert(kept(replaced_by@, 0) == 0);
                        assert(kept(replaced_by@, 1) == 1);
    }
    let mut map: Vec<usize> = Vec::new();
    let mut q: usize = 0;
    while q < n
        invariant
            q <= n,
            new_len == kept(replaced_by@, n as int),
            replaced_by@.len() == n,
            rank@.len() == n,
            forall|x: int| 0 <= x < n ==> #[trigger] rank@[x] == kept(replaced_by@, x),
            forall|x: int|
                0 <= x < n ==> (#[trigger] replaced_by@[x] matches Some(j) ==> j < x
                    && replaced_by@[j as int] is None),
            map@.len() == q,
            forall|x: int| 0 <= x < q ==> #[trigger] map@[x] < new_len,
            deleted == 0 ==> forall|x: int| 0 <= x < n ==> #[trigger] replaced_by@[x] is None,
            deleted == 0 ==> new_len == n,
            deleted == 0 ==> forall|x: int| 0 <= x < q ==> #[trigger] map@[x] == x,
        decreases n - q,
    {
        let target = match replaced_by[q] {
            Some(j) => j,
            None => q,
        };
        proof {
            assert(replaced_by@[target as int] is None);
            lemma_kept_mono(replaced_by@, target + 1, n as int);
            if deleted == 0 {
                lemma_kept_all(replaced_by@, q as int);
            }
        }
        map.push(rank[target]);
        q += 1;
    }
    let mut new_states: Vec<State> = Vec::new();
    let mut p: usize = 0;
    while p < n
        invariant
            p <= n,
            n == states.len(),
            n <= MAX_SET_SIZE,
            all_sized(states@, b),
            bounded(states@, n as int),
            new_len == kept(replaced_by@, n as int),
            1 <= new_len <= n,
            replaced_by@.len() == n,
            source@.len() == n,
            map@.len() == n,
            forall|p: int| 0 <= p < n ==> #[trigger] source@[p] < n,
            forall|x: int| 0 <= x < n ==> #[trigger] map@[x] < new_len,
            new_states@.len() == kept(replaced_by@, p as int),
            all_sized(new_states@, blocks_for(new_len as int)),
            bounded(new_states@, new_len as int),
            deleted == 0 ==> forall|x: int| 0 <= x < n ==> #[trigger] replaced_by@[x] is None,
            deleted == 0 ==> forall|x: int| 0 <= x < n ==> #[trigger] source@[x] == x,
            deleted == 0 ==> forall|x: int| 0 <= x < n ==> #[trigger] map@[x] == x,
            deleted == 0 ==> new_len == n,
            deleted == 0 ==> forall|x: int| 0 <= x < new_states@.len() ==> #[trigger] new_states@[x]@ == states@[x]@,
        decreases n - p,
    {
        if replaced_by[p].is_none() {
            let from = source[p];
            proof {
                assert(states@[from as int].sized(b));
                assert(0 <= states@[from as int]@.next < n);
                assert forall|x: int| #[trigger] states@[from as int].epsilon_states@.contains(x) implies 0 <= x < map@.len() by {
                    assert(states@[from as int]@.eps.contains(x));
                }
            }
            let eps = image_set(&states[from].epsilon_states, &map, new_len);
            let st = State {
                epsilon_states: eps,
                char_bitset: states[from].char_bitset,
                next_state: map[states[from].next_state],
            };
            proof {
                if deleted == 0 {
                    lemma_kept_all(replaced_by@, p as int);
                    let f = |x: int| map@[x] as int;
                    assert(states@[from as int]@.eps.map(f) =~= states@[from as int]@.eps);
                }
                assert forall|j: int| #[trigger] st@.eps.contains(j) implies 0 <= j < new_len by {
                    let x = choose|x: int| states@[from as int]@.eps.contains(x) && map@[x] as int == j;
                }
            }
            let ghost before = new_states@;
            new_states.push(st);
            proof {
                assert forall|x: int| 0 <= x < new_states@.len() implies #[trigger] new_states@[x].sized(blocks_for(new_len as int)) by {
                    if x < before.len() {
                        assert(new_states@[x] == before[x]);
                    }
                }
                assert forall|x: int| 0 <= x < new_states@.len() implies {
                    &&& 0 <= #[trigger] new_states@[x]@.next < new_len
                    &&& forall|j: int| #[trigger] new_states@[x]@.eps.contains(j) ==> 0 <= j < new_len
                } by {
                    if x < before.len() {
                        assert(new_states@[x] == before[x]);
                    }
                }
            }
        }
        p += 1;
    }
    *states = new_states;
}


/// States `e` and `c` can be merged: `e` is pure epsilon, `c` is a pure symbol
/// transition to another state, `e` reaches `c` and where `c` goes, and `e` reaches
/// nothing but itself, `c`, and what `c`'s target reaches.
pub open spec fn is_pair(s: Seq<State>, e: int, c: int) -> bool {
    let es = s[e]@;
    let cs = s[c]@;
    &&& c != 0
    &&& es.chars == Set::<int>::empty()
    &&& cs.next != e
    &&& cs.next != c
    &&& cs.eps.subset_of(Set::<int>::empty().insert(c))
    &&& es.eps.contains(c)
    &&& es.eps.contains(cs.next)
    &&& es.eps.subset_of(cs.eps.insert(e).union(s[cs.next]@.eps))
}

/// Whether the set holds nothing but `index`.
fn bitset_only_contains(bitset: &BitSet1D, index: usize) -> (r: bool)
    requires
        bitset.wf(),
        (index as int) < bitset.capacity(),
    ensures
        r == bitset@.subset_of(Set::<int>::empty().insert(index as int)),
{
    let mut rest = bitset.clone();
    rest.remove_one(index);
    proof {
        rest.lemma_one_row();
    }
    let r = rest.borrow().is_empty();
    proof {
        if !r {
            assert(exists|x: int| rest@.contains(x)) by {
                if forall|x: int| !rest@.contains(x) {
                    assert(rest@ =~= Set::<int>::empty());
                }
            }
            let x = choose|x: int| rest@.contains(x);
            assert(bitset@.contains(x) && x != index);
        } else {
            assert forall|x: int| #[trigger] bitset@.contains(x) implies Set::<int>::empty().insert(index as int).contains(x) by {
                if x != index {
                    assert(rest@.contains(x));
                }
            }
        }
    }
    r
}

/// Whether states `eps_index` and `char_index` can be merged (see `is_pair`).
fn is_a_pair(eps_index: usize, char_index: usize, states: &Vec<State>, Ghost(b): Ghost<int>) -> (r: bool)
    requires
        eps_index < states.len(),
        char_index < states.len(),
        states.len() <= b * 64,
        all_sized(states@, b),
        bounded(states@, states.len() as int),
    ensures
        r == is_pair(states@, eps_index as int, char_index as int),
{
    let eps_state = &states[eps_index];
    let char_state = &states[char_index];
    proof {
        assert(states@[eps_index as int].sized(b));
        assert(states@[char_index as int].sized(b));
        assert(0 <= states@[char_index as int]@.next < states.len());
        assert(states@[char_state.next_state as int].sized(b));
        eps_state.epsilon_states.lemma_one_row();
    }
    let mut allowed = char_state.epsilon_states.clone();
    allowed.insert_one(eps_index);
    proof {
        allowed.lemma_one_row();
        states@[char_state.next_state as int].epsilon_states.lemma_one_row();
    }
    allowed.union_from(states[char_state.next_state].epsilon_states_bitset());
    proof {
        allowed.lemma_one_row();
    }
    char_index != 0 && eps_state.char_bitset.is_empty() && char_state.next_state != eps_index
        && char_state.next_state != char_index && bitset_only_contains(
        &char_state.epsilon_states,
        char_index,
    ) && eps_state.epsilon_states.has(char_index) && eps_state.epsilon_states.has(
        char_state.next_state,
    ) && eps_state.epsilon_states.borrow().is_subset(&allowed.borrow())
}

/// Where state `i` goes when the symbol state `c` is merged into the epsilon state
/// `e` and removed.
pub open spec fn merged_index(e: int, c: int, i: int) -> int {
    if i < c {
        i
    } else if i == c {
        if e < c {
            e
        } else {
            e - 1
        }
    } else {
        i - 1
    }
}

/// The states after merging the symbol state `c` into the epsilon state `e`: `e`
/// takes the symbol transition of `c`, `c` goes, and the states are renumbered (see
/// `merged_index`).
pub open spec fn merged(v: Seq<StateView>, e: int, c: int) -> Seq<StateView> {
    Seq::new(
        (v.len() - 1) as nat,
        |x: int|
            {
                let p = if x < c {
                    x
                } else {
                    x + 1
                };
                let from = if p == e {
                    c
                } else {
                    p
                };
                StateView {
                    eps: v[p].eps.map(|y: int| merged_index(e, c, y)),
                    chars: v[from].chars,
                    next: merged_index(e, c, v[from].next),
                }
            },
    )
}

/// Merges state `char_index` into state `eps_index`: the latter takes the symbol
/// transition of the former, which is removed, and every reference is renumbered.
fn collapse(eps_index: usize, char_index: usize, states: &mut Vec<State>, Ghost(b): Ghost<int>)
    requires
        eps_index < old(states).len(),
        char_index < old(states).len(),
        eps_index != char_index,
        old(states).len() <= b * 64,
        old(states).len() <= MAX_SET_SIZE,
        all_sized(old(states)@, b),
        bounded(old(states)@, old(states).len() as int),
    ensures
        final(states).len() == old(states).len() - 1,
        all_sized(final(states)@, blocks_for(final(states).len() as int)),
        bounded(final(states)@, final(states).len() as int),
        states_view(final(states)@) == merged(states_view(old(states)@), eps_index as int, char_index as int),
{
    let ghost v = states_view(states@);
    let n = states.len();
    let mut map: Vec<usize> = Vec::new();
    let mut k: usize = 0;
    while k < n
        invariant
            k <= n,
            n >= 2,
            eps_index < n,
            char_index < n,
            eps_index != char_index,
            map@.len() == k,
            forall|x: int| 0 <= x < k ==> #[trigger] map@[x] < n - 1,
            forall|x: int| 0 <= x < k ==> #[trigger] map@[x] == merged_index(eps_index as int, char_index as int, x),
        decreases n - k,
    {
        let m = if k < char_index {
            k
        } else if k == char_index {
            if eps_index < char_index {
                eps_index
            } else {
                eps_index - 1
            }
        } else {
            k - 1
        };
        map.push(m);
        k += 1;
    }
    let new_len = n - 1;
    let mut new_states: Vec<State> = Vec::new();
    let mut p: usize = 0;
    while p < n
        invariant
            p <= n,
            n == states.len(),
            n <= MAX_SET_SIZE,
            new_len == n - 1,
            eps_index < n,
            char_index < n,
            all_sized(states@, b),
            bounded(states@, n as int),
            map@.len() == n,
            forall|x: int| 0 <= x < n ==> #[trigger] map@[x] < new_len,
            new_states@.len() == if p <= char_index {
                p as int
            } else {
                p - 1
            },
            all_sized(new_states@, blocks_for(new_len as int)),
            bounded(new_states@, new_len as int),
            v == states_view(states@),
            forall|x: int| 0 <= x < n ==> #[trigger] map@[x] == merged_index(eps_index as int, char_index as int, x),
            forall|x: int| 0 <= x < new_states@.len() ==> #[trigger] new_states@[x]@ == merged(v, eps_index as int, char_index as int)[x],
        decreases n - p,
    {
        if p != char_index {
            let from = if p == eps_index {
                char_index
            } else {
                p
            };
            proof {
                assert(states@[p as int].sized(b));
                assert(0 <= states@[from as int]@.next < n);
                assert(0 <= states@[p as int]@.next < n);
                assert forall|x: int| #[trigger] states@[p as int].epsilon_states@.contains(x) implies 0 <= x < map@.len() by {
                    assert(states@[p as int]@.eps.contains(x));
                }
            }
            let eps = image_set(&states[p].epsilon_states, &map, new_len);
            let st = State {
                epsilon_states: eps,
                char_bitset: states[from].char_bitset,
                next_state: map[states[from].next_state],
            };
            proof {
                assert forall|j: int| #[trigger] st@.eps.contains(j) implies 0 <= j < new_len by {
                    let x = choose|x: int| states@[p as int]@.eps.contains(x) && map@[x] as int == j;
                }
            }
            proof {
                let x = new_states@.len() as int;
                let mv = merged(v, eps_index as int, char_index as int);
                assert(x == if p < char_index { p as int } else { p - 1 });
                assert(v[p as int] == states@[p as int]@);
                assert(v[from as int] == states@[from as int]@);
                assert(st@.eps =~= mv[x].eps) by {
                    assert forall|y: int| #[trigger] st@.eps.contains(y) implies mv[x].eps.contains(y) by {
                        let z = choose|z: int| states@[p as int].epsilon_states@.contains(z) && map@[z] as int == y;
                        assert(states@[p as int]@.eps.contains(z));
                        assert(v[p as int].eps.contains(z) && merged_index(eps_index as int, char_index as int, z) == y);
                    }
                    assert forall|y: int| mv[x].eps.contains(y) implies #[trigger] st@.eps.contains(y) by {
                        let z = choose|z: int| v[p as int].eps.contains(z) && merged_index(eps_index as int, char_index as int, z) == y;
                        assert(states@[p as int].epsilon_states@.contains(z));
                        assert(states@[p as int]@.eps.contains(z));
                        assert(0 <= z < n);
                        assert(map@[z] as int == y);
                    }
                }
                assert(st@ == mv[x]);
            }
            let ghost before = new_states@;
            new_states.push(st);
            proof {
                assert forall|x: int| 0 <= x < new_states@.len() implies #[trigger] new_states@[x].sized(blocks_for(new_len as int)) by {
                    if x < before.len() {
                        assert(new_states@[x] == before[x]);
                    }
                }
                assert forall|x: int| 0 <= x < new_states@.len() implies {
                    &&& 0 <= #[trigger] new_states@[x]@.next < new_len
                    &&& forall|j: int| #[trigger] new_states@[x]@.eps.contains(j) ==> 0 <= j < new_len
                } by {
                    if x < before.len() {
                        assert(new_states@[x] == before[x]);
                    }
                }
                assert forall|x: int| 0 <= x < new_states@.len() implies #[trigger] new_states@[x]@ == merged(v, eps_index as int, char_index as int)[x] by {
                    if x < before.len() {
                        assert(new_states@[x] == before[x]);
                    }
                }
            }
        }
        p += 1;
    }
    proof {
        assert(states_view(new_states@) =~= merged(v, eps_index as int, char_index as int));
    }
    *states = new_states;
}

/// `is_pair` over the views of the states.
pub open spec fn pair_view(v: Seq<StateView>, e: int, c: int) -> bool {
    let es = v[e];
    let cs = v[c];
    &&& c != 0
    &&& es.chars == Set::<int>::empty()
    &&& cs.next != e
    &&& cs.next != c
    &&& cs.eps.subset_of(Set::<int>::empty().insert(c))
    &&& es.eps.contains(c)
    &&& es.eps.contains(cs.next)
    &&& es.eps.subset_of(cs.eps.insert(e).union(v[cs.next].eps))
}

/// The first pair found for state `i` from state `j` on: for each `k` in turn, `i`
/// with `k` as its symbol state, then `k` with `i` as its symbol state.
pub open spec fn first_pair(v: Seq<StateView>, i: int, j: int) -> Option<(int, int)>
    decreases v.len() - j,
{
    if j < 0 || j >= v.len() {
        None
    } else if pair_view(v, i, j) {
        Some((i, j))
    } else if pair_view(v, j, i) {
        Some((j, i))
    } else {
        first_pair(v, i, j + 1)
    }
}

/// The states left once pairs are merged from state `i` on: while a pair is found for
/// state `i` it is merged, and when none is left the search moves to the next state.
pub open spec fn collapse_from(v: Seq<StateView>, i: nat) -> Seq<StateView>
    decreases 2 * v.len() - i,
{
    if i >= v.len() {
        v
    } else {
        match first_pair(v, i as int, 0) {
            Some((e, c)) => if e != c && 0 <= e < v.len() && 0 <= c < v.len() {
                collapse_from(merged(v, e, c), i)
            } else {
                v
            },
            None => collapse_from(v, i + 1),
        }
    }
}

proof fn lemma_pair_view(s: Seq<State>, e: int, c: int)
    requires
        bounded(s, s.len() as int),
        0 <= e < s.len(),
        0 <= c < s.len(),
    ensures
        is_pair(s, e, c) == pair_view(states_view(s), e, c),
{
    let v = states_view(s);
    assert(v[e] == s[e]@);
    assert(v[c] == s[c]@);
    assert(0 <= s[c]@.next < s.len());
    assert(v[s[c]@.next] == s[s[c]@.next]@);
}

/// Merges pairs of states (see `is_pair`) until none is left.
fn collapse_epsilon_char_pairs(states: &mut Vec<State>, Ghost(b): Ghost<int>)
    requires
        1 <= old(states).len() <= MAX_SET_SIZE,
        old(states).len() <= b * 64,
        all_sized(old(states)@, b),
        bounded(old(states)@, old(states).len() as int),
    ensures
        1 <= final(states).len() <= old(states).len(),
        bounded(final(states)@, final(states).len() as int),
        states_view(final(states)@) == collapse_from(states_view(old(states)@), 0),
        final(states).len() == old(states).len() ==> final(states)@ == old(states)@,
        final(states).len() < old(states).len() ==> all_sized(
            final(states)@,
            blocks_for(final(states).len() as int),
        ),
{
    let ghost start = states@;
    let ghost mut bb = b;
    let mut i: usize = 0;
    while i < states.len()
        invariant
            1 <= states.len() <= start.len(),
            start.len() <= MAX_SET_SIZE,
            i <= states.len(),
            states.len() <= bb * 64,
            all_sized(states@, bb),
            bounded(states@, states.len() as int),
            states.len() == start.len() ==> states@ == start,
            states.len() < start.len() ==> bb == blocks_for(states.len() as int),
            collapse_from(states_view(states@), i as nat) == collapse_from(states_view(start), 0),
        decreases 2 * states.len() - i,
    {
        let ghost v = states_view(states@);
        let mut found: Option<(usize, usize)> = None;
        let mut j: usize = 0;
        while j < states.len()
            invariant_except_break
                found is None,
                first_pair(v, i as int, 0) == first_pair(v, i as int, j as int),
            invariant
                i < states.len(),
                j <= states.len(),
                states.len() <= bb * 64,
                all_sized(states@, bb),
                bounded(states@, states.len() as int),
                v == states_view(states@),
            ensures
                found matches Some((e, c)) ==> e < states.len() && c < states.len() && is_pair(
                    states@,
                    e as int,
                    c as int,
                ) && first_pair(v, i as int, 0) == Some((e as int, c as int)),
                found is None ==> first_pair(v, i as int, 0) == None::<(int, int)>,
            decreases states.len() - j,
        {
            proof {
                lemma_pair_view(states@, i as int, j as int);
                lemma_pair_view(states@, j as int, i as int);
            }
            if is_a_pair(i, j, states, Ghost(bb)) {
                proof {
                    assert(first_pair(v, i as int, j as int) == Some((i as int, j as int)));
                }
                found = Some((i, j));
                break;
            } else if is_a_pair(j, i, states, Ghost(bb)) {
                proof {
                    assert(first_pair(v, i as int, j as int) == Some((j as int, i as int)));
                }
                found = Some((j, i));
                break;
            }
            proof {
                assert(first_pair(v, i as int, j as int) == first_pair(v, i as int, j + 1));
            }
            j += 1;
        }
        match found {
            Some((e, c)) => {
                proof {
                    // A pair needs `e` to reach both `c` and `c`'s target, which `c` alone
                    // does not: so the two states differ.
                    if e == c {
                        let cs = states@[c as int]@;
                        assert(cs.eps.contains(cs.next));
                        assert(Set::<int>::empty().insert(c as int).contains(cs.next));
                    }
                }
                collapse(e, c, states, Ghost(bb));
                proof {
                    bb = blocks_for(states.len() as int);
                }
            },
            None => {
                i += 1;
            },
        }
    }
}


/// Shrinks each epsilon set to hold exactly the states there are.
fn shrink_bitsets(states: &mut Vec<State>, Ghost(b): Ghost<int>)
    requires
        all_sized(old(states)@, b),
        old(states).len() <= MAX_SET_SIZE,
        bounded(old(states)@, old(states).len() as int),
    ensures
        final(states).len() == old(states).len(),
        all_sized(final(states)@, blocks_for(final(states).len() as int)),
        forall|i: int| 0 <= i < old(states).len() ==> #[trigger] final(states)@[i]@ == old(states)@[i]@,
{
    let n = states.len();
    let ghost old_states = states@;
    let mut i: usize = 0;
    while i < n
        invariant
            n == states.len(),
            n <= MAX_SET_SIZE,
            i <= n,
            old_states.len() == n,
            bounded(old_states, n as int),
            forall|k: int| 0 <= k < n ==> #[trigger] states@[k]@ == old_states[k]@,
            forall|k: int| i <= k < n ==> #[trigger] states@[k] == old_states[k],
            all_sized(old_states, b),
            forall|k: int| 0 <= k < i ==> #[trigger] states@[k].sized(blocks_for(n as int)),
        decreases n - i,
    {
        proof {
            assert(states@[i as int] == old_states[i as int]);
            assert(old_states[i as int].sized(b));
            assert(0 <= old_states[i as int]@.next < n);
            states@[i as int].epsilon_states.lemma_one_row();
        }
        let resized = states[i].epsilon_states.borrow().resize(n);
        let ghost before = states@;
        states[i].epsilon_states = resized;
        proof {
            resized.lemma_one_row();
            assert(states@[i as int]@.eps =~= old_states[i as int]@.eps);
            assert forall|k: int| 0 <= k < n implies #[trigger] states@[k]@ == old_states[k]@ by {
                if k != i {
                    assert(states@[k] == before[k]);
                }
            }
            assert forall|k: int| 0 <= k < i + 1 implies #[trigger] states@[k].sized(blocks_for(n as int)) by {
                if k != i {
                    assert(states@[k] == before[k]);
                }
            }
            assert forall|k: int| i + 1 <= k < n implies #[trigger] states@[k] == old_states[k] by {
                assert(states@[k] == before[k]);
            }
        }
        i += 1;
    }
}

proof fn lemma_blocks_for(n: int)
    requires
        0 <= n,
    ensures
        n <= blocks_for(n) * 64,
        blocks_for(n) >= 0,
{
}

/// Transforms the automaton into an equivalent one that is quicker to run, until
/// that changes nothing: closes the epsilon sets, prunes duplicate pure-epsilon
/// states, and merges epsilon/symbol pairs. The result has closed epsilon sets,
/// each sized to the number of states.
fn optimize_states(states: &mut Vec<State>, Ghost(b): Ghost<int>)
    requires
        1 <= old(states).len() <= MAX_SET_SIZE,
        old(states).len() <= b * 64,
        all_sized(old(states)@, b),
        bounded(old(states)@, old(states).len() as int),
    ensures
        1 <= final(states).len() <= old(states).len(),
        all_sized(final(states)@, blocks_for(final(states).len() as int)),
        bounded(final(states)@, final(states).len() as int),
        eps_closed(final(states)@),
{
    let ghost start_len = states.len();
    let ghost mut bb = b;
    loop
        invariant_except_break
            states.len() <= bb * 64,
            all_sized(states@, bb),
        invariant
            1 <= states.len() <= start_len,
            start_len <= MAX_SET_SIZE,
            bounded(states@, states.len() as int),
        ensures
            1 <= states.len() <= start_len,
            all_sized(states@, blocks_for(states.len() as int)),
            bounded(states@, states.len() as int),
            eps_closed(states@),
        decreases states.len(),
    {
        let states_len = states.len();
        epsilon_transitive_closure(states, Ghost(bb));
        let ghost closed = states@;
        prune_epsilon_pairs(states, Ghost(bb));
        let ghost pruned = states@;
        proof {
            lemma_blocks_for(states.len() as int);
        }
        collapse_epsilon_char_pairs(states, Ghost(blocks_for(states.len() as int)));
        if states.len() == states_len {
            proof {
                assert(states@ == pruned);
                assert forall|k: int| 0 <= k < states@.len() implies #[trigger] closed_at(states@, k) by {
                    assert(closed_at(closed, k));
                    assert(states@[k]@ == closed[k]@);
                    assert forall|j: int| #[trigger] states@[k]@.eps.contains(j) implies states@[j]@.eps.subset_of(states@[k]@.eps) by {
                        assert(closed[k]@.eps.contains(j));
                        assert(0 <= closed[k]@.next < states_len);
                        assert(states@[j]@ == closed[j]@);
                    }
                }
            }
            break;
        }
        let ghost collapsed = states@;
        shrink_bitsets(states, Ghost(blocks_for(states.len() as int)));
        proof {
            bb = blocks_for(states.len() as int);
            lemma_blocks_for(states.len() as int);
            assert forall|k: int| 0 <= k < states@.len() implies {
                &&& 0 <= #[trigger] states@[k]@.next < states@.len()
                &&& forall|j: int| #[trigger] states@[k]@.eps.contains(j) ==> 0 <= j < states@.len()
            } by {
                assert(states@[k]@ == collapsed[k]@);
                assert(0 <= collapsed[k]@.next < states@.len());
            }
        }
    }
}


// ---------------------------------------------------------------------------
// Running the automaton.

impl View for Expression {
    type V = Seq<StateView>;

    closed spec fn view(&self) -> Seq<StateView> {
        states_view(self.states@)
    }
}

/// The states reached from the states in `from` below `m` that have a symbol of `c`:
/// everything their symbol transitions' targets reach by epsilon transitions.
pub open spec fn step_upto(e: Seq<StateView>, c: Set<int>, from: Set<int>, m: int) -> Set<int> {
    Set::new(
        |t: int|
            exists|x: int|
                0 <= x < m && #[trigger] from.contains(x) && !c.disjoint(e[x].chars)
                    && e[e[x].next].eps.contains(t),
    )
}

/// The states reached from the states in `from` by one symbol of `c`, followed by
/// epsilon transitions.
pub open spec fn step(e: Seq<StateView>, c: Set<int>, from: Set<int>) -> Set<int> {
    step_upto(e, c, from, e.len() as int)
}

impl Expression {
    /// The automaton is usable: there is at least one state, every transition goes to
    /// a state, every epsilon set holds its own state and is transitively closed, and
    /// the sets hold exactly as many positions as there are states.
    pub closed spec fn wf(&self) -> bool {
        let n = self.states@.len() as int;
        &&& 1 <= n <= MAX_SET_SIZE
        &&& all_sized(self.states@, blocks_for(n))
        &&& bounded(self.states@, n)
        &&& eps_closed(self.states@)
    }

    /// The most edits that a match may need.
    pub closed spec fn max_fuzz(&self) -> usize {
        self.fuzz
    }

    /// Word ends in a word are skipped.
    pub closed spec fn skips_word_ends(&self) -> bool {
        self.ignore_word_boundaries
    }

    /// Punctuation in a word is skipped.
    pub closed spec fn skips_punctuation(&self) -> bool {
        self.ignore_punctuation
    }

    /// The number of positions in the sets that the automaton works with.
    pub closed spec fn set_blocks(&self) -> int {
        blocks_for(self.states@.len() as int)
    }

    /// What a well-formed automaton guarantees of its states.
    pub proof fn lemma_wf(&self)
        requires
            self.wf(),
        ensures
            1 <= self@.len() <= MAX_SET_SIZE,
            self.set_blocks() == blocks_for(self@.len() as int),
            forall|i: int| 0 <= i < self@.len() ==> 0 <= #[trigger] self@[i].next < self@.len(),
            forall|i: int, j: int|
                0 <= i < self@.len() && #[trigger] self@[i].eps.contains(j) ==> 0 <= j < self@.len(),
            forall|i: int| 0 <= i < self@.len() ==> #[trigger] self@[i].eps.contains(i),
            forall|i: int, j: int|
                0 <= i < self@.len() && #[trigger] self@[i].eps.contains(j) ==> self@[j].eps.subset_of(
                    self@[i].eps,
                ),
    {
        assert forall|i: int| 0 <= i < self@.len() implies 0 <= #[trigger] self@[i].next < self@.len() by {
            assert(0 <= self.states@[i]@.next < self@.len());
        }
        assert forall|i: int, j: int| 0 <= i < self@.len() && #[trigger] self@[i].eps.contains(j) implies 0 <= j < self@.len() by {
            assert(0 <= self.states@[i]@.next < self@.len());
            assert(self.states@[i]@.eps.contains(j));
        }
        assert forall|i: int| 0 <= i < self@.len() implies #[trigger] self@[i].eps.contains(i) by {
            assert(closed_at(self.states@, i));
        }
        assert forall|i: int, j: int| 0 <= i < self@.len() && #[trigger] self@[i].eps.contains(j) implies self@[j].eps.subset_of(self@[i].eps) by {
            assert(closed_at(self.states@, i));
            assert(self.states@[i]@.eps.contains(j));
            assert(0 <= self.states@[i]@.next < self@.len());
        }
    }

    /// The most edits that a match may need.
    pub fn fuzz_value(&self) -> (r: usize)
        ensures
            r == self.max_fuzz(),
    {
        self.fuzz
    }

    /// The number of states.
    pub fn states_len(&self) -> (r: usize)
        ensures
            r == self@.len(),
    {
        self.states.len()
    }

    /// The states reachable by epsilon transitions from state `state_index`.
    pub fn epsilon_states(&self, state_index: usize) -> (r: BitSetRef1D<'_>)
        requires
            self.wf(),
            state_index < self@.len(),
        ensures
            r.wf(),
            r@ == self@[state_index as int].eps,
            r.blocks_view().len() == self.set_blocks(),
    {
        proof {
            assert(self.states@[state_index as int].sized(blocks_for(self.states@.len() as int)));
        }
        self.states[state_index].epsilon_states_bitset()
    }

    /// The set of states that `state_index` reaches by epsilon transitions, to
    /// write. Once the borrow ends, that state's epsilon set is what was written, and
    /// all else stays.
    pub fn epsilon_states_mut(&mut self, state_index: usize) -> (r: BitSetRefMut1D<'_>)
        requires
            old(self).wf(),
            state_index < old(self)@.len(),
        ensures
            r.wf(),
            r@ == old(self)@[state_index as int].eps,
            r.blocks@.len() == old(self).set_blocks(),
            final(r.blocks)@.len() == r.blocks@.len() ==> final(self)@ == old(self)@.update(
                state_index as int,
                StateView { eps: bits(final(r.blocks)@), ..old(self)@[state_index as int] },
            ),
            final(self).max_fuzz() == old(self).max_fuzz(),
            final(self).skips_word_ends() == old(self).skips_word_ends(),
            final(self).skips_punctuation() == old(self).skips_punctuation(),
            final(self).text_view() == old(self).text_view(),
    {
        proof {
            assert(self.states@[state_index as int].sized(blocks_for(self.states@.len() as int)));
        }
        let state = &mut self.states[state_index];
        let r = state.epsilon_states.borrow_mut();
        proof {
            BitSet1D::lemma_views_are_bits();
        }
        r
    }

    /// The states reachable from `start_states` by one symbol of `char_bitset`,
    /// followed by epsilon transitions.
    fn char_transitions(&self, char_bitset: CharBitset, start_states: BitSetRef1D<'_>) -> (r: BitSet1D)
        requires
            self.wf(),
        ensures
            r.wf(),
            r.row_len() == self.set_blocks(),
            r@ == step(self@, char_bitset@, start_states@),
    {
        let n = self.states.len();
        let mut result_bitset = BitSet1D::new((), n);
        let ghost e = self@;
        if !start_states.is_empty() {
            let mut si: usize = 0;
            while si < n
                invariant
                    self.wf(),
                    n == self.states@.len(),
                    e == self@,
                    si <= n,
                    result_bitset.wf(),
                    result_bitset.row_len() == self.set_blocks(),
                    result_bitset@ == step_upto(e, char_bitset@, start_states@, si as int),
                decreases n - si,
            {
                let ghost before = result_bitset@;
                let state = &self.states[si];
                if start_states.contains(si) && char_bitset.is_intersecting(state.char_bitset) {
                    proof {
                        assert(0 <= self.states@[si as int]@.next < n);
                        result_bitset.lemma_one_row();
                    }
                    result_bitset.union_from(self.epsilon_states(state.next_state));
                    proof {
                        assert(result_bitset@ =~= step_upto(e, char_bitset@, start_states@, si + 1)) by {
                            assert forall|t: int| #[trigger] result_bitset@.contains(t) implies step_upto(e, char_bitset@, start_states@, si + 1).contains(t) by {
                                if !before.contains(t) {
                                    assert(start_states@.contains(si as int));
                                }
                            }
                        }
                    }
                } else {
                    proof {
                        assert(result_bitset@ =~= step_upto(e, char_bitset@, start_states@, si + 1));
                    }
                }
                si += 1;
            }
        } else {
            proof {
                assert(result_bitset@ =~= step(e, char_bitset@, start_states@));
            }
        }
        result_bitset
    }
}


// ---------------------------------------------------------------------------
// Transition tables: `[from_state][fuzz]` rows of states.

/// Rows `(s, f)` and `(s2, f2)` of a table are distinct rows when the pairs differ.
pub(crate) proof fn lemma_rows_distinct(s: int, f: int, s2: int, f2: int, m: int)
    requires
        0 <= f < m,
        0 <= f2 < m,
        0 <= s,
        0 <= s2,
        s != s2 || f != f2,
    ensures
        s * m + f != s2 * m + f2,
{
    if s == s2 {
    } else if s < s2 {
        assert(s * m + m <= s2 * m) by (nonlinear_arith)
            requires
                s < s2,
                0 <= m,
        ;
    } else {
        assert(s2 * m + m <= s * m) by (nonlinear_arith)
            requires
                s2 < s,
                0 <= m,
        ;
    }
}

/// The rows of a table, by state and fuzz.
pub open spec fn rows_of(t: BitSet3D) -> spec_fn(usize, usize) -> Set<int> {
    |s: usize, f: usize| t.row((s, f))
}

/// Row `f` of state `s` after one symbol of `c`, and the states of rows 0 to `f`
/// together. Row `f + 1` adds to what the symbol leads to from row `f + 1` what row
/// `f` reaches with one edit: the symbol skipped (deletion), changed to any letter
/// (change), or a letter put before it (insertion); and it leaves out every state
/// that a row of less fuzz holds, so that a state is in at most one row.
pub open spec fn fuzz_pass(
    e: Seq<StateView>,
    c: Set<int>,
    t: spec_fn(usize, usize) -> Set<int>,
    s: usize,
    f: int,
) -> (Set<int>, Set<int>)
    decreases f,
{
    let base = step(e, c, t(s, f as usize));
    if f <= 0 {
        (base, base)
    } else {
        let sup = fuzz_pass(e, c, t, s, f - 1).1;
        let cur = t(s, (f - 1) as usize);
        let change = step(e, crate::words::letter_set(), cur);
        let insertion = step(e, c, change);
        let r = base.union(cur).union(change).union(insertion).difference(sup);
        (r, sup.union(r))
    }
}

impl Expression {
    /// A table of this automaton's shape: a row for each state and fuzz value, each
    /// holding the states.
    pub open spec fn table_ok(&self, t: BitSet3D) -> bool {
        &&& t.wf()
        &&& t.shape() == (self@.len() as usize, (self.max_fuzz() + 1) as usize)
        &&& t.row_len() == self.set_blocks()
    }

    /// The symbol is skipped rather than matched.
    pub open spec fn ignored(&self, chr: Char) -> bool {
        ||| self.skips_word_ends() && chr.index() == 27
        ||| self.skips_punctuation() && chr.index() == 26
    }

    /// The rows after symbol `chr`, given the rows `t` before it: the same rows
    /// for a symbol that is skipped, else those of `fuzz_pass`.
    pub open spec fn step_rows(&self, t: spec_fn(usize, usize) -> Set<int>, chr: Char) -> spec_fn(usize, usize) -> Set<int> {
        |s: usize, f: usize|
            if self.ignored(chr) {
                t(s, f)
            } else {
                fuzz_pass(self@, Set::empty().insert(chr.index()), t, s, f as int).0
            }
    }

    /// Matching a symbol costs no edit, and one edit costs one fuzz: after a symbol,
    /// a row of fuzz at most `f` holds what the row of fuzz `f` reaches by the symbol,
    /// and what the row of fuzz `f - 1` reaches with the symbol skipped (deletion),
    /// read as any letter (change), or by any letter of the pattern and then the
    /// symbol (insertion).
    pub proof fn lemma_edits_cost_one(&self, t: BitSet3D, chr: Char, s: usize, f: usize, y: int)
        requires
            !self.ignored(chr),
            ({
                let c = Set::empty().insert(chr.index());
                let prev = t.row((s, (f - 1) as usize));
                ||| step(self@, c, t.row((s, f))).contains(y)
                ||| 1 <= f && prev.contains(y)
                ||| 1 <= f && step(self@, crate::words::letter_set(), prev).contains(y)
                ||| 1 <= f && step(self@, c, step(self@, crate::words::letter_set(), prev)).contains(y)
            }),
        ensures
            exists|g: usize| g <= f && #[trigger] self.next_row(t, chr, s, g).contains(y),
    {
        let c = Set::empty().insert(chr.index());
        let rt = rows_of(t);
        assert(rt(s, (f - 1) as usize) == t.row((s, (f - 1) as usize)));
        assert(rt(s, f) == t.row((s, f)));
        let sup = fuzz_pass(self@, c, rt, s, f - 1).1;
        if f == 0 {
            assert(fuzz_pass(self@, c, rt, s, 0).0.contains(y));
            assert(self.next_row(t, chr, s, 0).contains(y));
        } else if sup.contains(y) {
            lemma_fuzz_pass_sup(self@, c, rt, s, f - 1, y);
            let g = choose|g: int| 0 <= g <= f - 1 && #[trigger] fuzz_pass(self@, c, rt, s, g).0.contains(y);
            assert(self.next_row(t, chr, s, g as usize).contains(y));
        } else {
            assert(fuzz_pass(self@, c, rt, s, f as int).0.contains(y));
            assert(self.next_row(t, chr, s, f).contains(y));
        }
    }

    /// After a matched symbol, a state is in at most one row of each state: a row of
    /// some fuzz holds none of the states of the rows of less fuzz.
    pub proof fn lemma_rows_disjoint(&self, t: BitSet3D, chr: Char, s: usize, g: usize, f: usize, x: int)
        requires
            g < f,
            !self.ignored(chr),
        ensures
            !(self.next_row(t, chr, s, f).contains(x) && self.next_row(t, chr, s, g).contains(x)),
    {
        let c = Set::empty().insert(chr.index());
        lemma_fuzz_pass_gathered(self@, c, rows_of(t), s, g as int, f - 1);
    }

    /// Row `(s, f)` of the table after symbol `chr`, given table `t` before it.
    pub open spec fn next_row(&self, t: BitSet3D, chr: Char, s: usize, f: usize) -> Set<int> {
        self.step_rows(rows_of(t), chr)(s, f)
    }

    /// Every row of the table is empty.
    pub open spec fn table_empty(&self, t: BitSet3D) -> bool {
        forall|s: usize, f: usize|
            s < self@.len() && f <= self.max_fuzz() ==> #[trigger] t.row((s, f)) == Set::<int>::empty()
    }

    /// The rows of state `s` after symbol `chr`, written into `next`.
    fn fill_state_rows(&self, cur: &BitSet3D, chr_set: CharBitset, s: usize, next: &mut BitSet3D) -> (all_fuzz_empty: bool)
        requires
            self.wf(),
            self.fuzz < usize::MAX,
            self.table_ok(*cur),
            self.table_ok(*old(next)),
            s < self@.len(),
            forall|f: usize| f <= self.fuzz ==> #[trigger] old(next).row((s, f)) == Set::<int>::empty(),
        ensures
            self.table_ok(*final(next)),
            forall|f: usize| f <= self.fuzz ==> #[trigger] final(next).row((s, f)) == fuzz_pass(self@, chr_set@, rows_of(*cur), s, f as int).0,
            forall|s2: usize, f: usize|
                s2 < self@.len() && s2 != s && f <= self.fuzz ==> #[trigger] final(next).row((s2, f)) == old(next).row((s2, f)),
            all_fuzz_empty == forall|f: usize| f <= self.fuzz ==> #[trigger] cur.row((s, f)) == Set::<int>::empty(),
    {
        let ghost e = self@;
        let ghost n = self@.len();
        let ghost m = self.fuzz + 1;
        let ghost start = *next;
        let fuzz = self.fuzz;
        let mut all_fuzz_empty = true;
        let mut f: usize = 0;
        while f <= fuzz
            invariant
                self.wf(),
                e == self@,
                n == self@.len(),
                fuzz == self.fuzz,
                fuzz < usize::MAX,
                m == fuzz + 1,
                s < n,
                self.table_ok(*cur),
                self.table_ok(*next),
                f <= fuzz + 1,
                forall|g: usize| g < f ==> #[trigger] next.row((s, g)) == step(e, chr_set@, cur.row((s, g))),
                forall|g: usize| f <= g <= fuzz ==> #[trigger] next.row((s, g)) == Set::<int>::empty(),
                forall|s2: usize, g: usize|
                    s2 < n && s2 != s && g <= fuzz ==> #[trigger] next.row((s2, g)) == start.row((s2, g)),
                all_fuzz_empty == forall|g: usize| g < f ==> #[trigger] cur.row((s, g)) == Set::<int>::empty(),
            decreases fuzz + 1 - f,
        {
            let ghost before = *next;
            let state_transitions = cur.slice((s, f));
            if state_transitions.is_empty() {
                proof {
                    assert(step(e, chr_set@, cur.row((s, f))) =~= Set::<int>::empty());
                }
            } else {
                let t = self.char_transitions(chr_set, state_transitions);
                proof {
                    t.lemma_one_row();
                }
                next.set_row((s, f), t.borrow());
                all_fuzz_empty = false;
                proof {
                    assert forall|g: usize| g <= fuzz && g != f implies #[trigger] next.row((s, g)) == before.row((s, g)) by {
                        lemma_rows_distinct(s as int, g as int, s as int, f as int, m as int);
                    }
                    assert forall|s2: usize, g: usize| s2 < n && s2 != s && g <= fuzz implies #[trigger] next.row((s2, g)) == start.row((s2, g)) by {
                        lemma_rows_distinct(s2 as int, g as int, s as int, f as int, m as int);
                        assert(next.row((s2, g)) == before.row((s2, g)));
                    }
                }
            }
            f += 1;
        }
        let ghost mid = *next;
        let mut fuzz_superset = next.slice((s, 0)).to_bitset();
        proof {
            fuzz_superset.lemma_one_row();
        }
        let letters = CharBitset::letters();
        let mut f: usize = 0;
        while f < fuzz
            invariant
                self.wf(),
                e == self@,
                n == self@.len(),
                fuzz == self.fuzz,
                fuzz < usize::MAX,
                m == fuzz + 1,
                s < n,
                letters@ == crate::words::letter_set(),
                self.table_ok(*cur),
                self.table_ok(*next),
                f <= fuzz,
                fuzz_superset.wf(),
                fuzz_superset.row_len() == self.set_blocks(),
                fuzz_superset@ == fuzz_pass(e, chr_set@, rows_of(*cur), s, f as int).1,
                forall|g: usize| g <= f ==> #[trigger] next.row((s, g)) == fuzz_pass(e, chr_set@, rows_of(*cur), s, g as int).0,
                forall|g: usize| f < g <= fuzz ==> #[trigger] next.row((s, g)) == step(e, chr_set@, cur.row((s, g))),
                forall|s2: usize, g: usize|
                    s2 < n && s2 != s && g <= fuzz ==> #[trigger] next.row((s2, g)) == start.row((s2, g)),
            decreases fuzz - f,
        {
            let ghost before = *next;
            let state_transitions = cur.slice((s, f));
            proof {
                state_transitions.lemma_single_row();
                fuzz_superset.lemma_one_row();
            }
            let mut fuzzed = next.slice((s, f + 1)).to_bitset();
            proof {
                fuzzed.lemma_one_row();
            }
            if !state_transitions.is_empty() {
                // Deletion
                fuzzed.union_from(state_transitions);
                // Change
                let change_set = self.char_transitions(letters, state_transitions);
                proof {
                    change_set.lemma_one_row();
                    fuzzed.lemma_one_row();
                }
                fuzzed.union_from(change_set.borrow());
                // Insertion
                let insertion_set = self.char_transitions(chr_set, change_set.borrow());
                proof {
                    insertion_set.lemma_one_row();
                    fuzzed.lemma_one_row();
                }
                fuzzed.union_from(insertion_set.borrow());
            } else {
                proof {
                    assert(cur.row((s, f)) =~= Set::<int>::empty());
                    assert(step(e, crate::words::letter_set(), Set::<int>::empty()) =~= Set::<int>::empty());
                    assert(step(e, chr_set@, Set::<int>::empty()) =~= Set::<int>::empty());
                }
            }
            // What less fuzz reaches is left out.
            proof {
                fuzzed.lemma_one_row();
            }
            fuzzed.difference_from(fuzz_superset.borrow());
            proof {
                fuzzed.lemma_one_row();
            }
            fuzz_superset.union_from(fuzzed.borrow());
            proof {
                fuzzed.lemma_one_row();
            }
            next.set_row((s, f + 1), fuzzed.borrow());
            proof {
                assert(next.row((s, (f + 1) as usize)) =~= fuzz_pass(e, chr_set@, rows_of(*cur), s, f + 1).0);
                assert(fuzz_superset@ =~= fuzz_pass(e, chr_set@, rows_of(*cur), s, f + 1).1);
                assert forall|g: usize| g <= fuzz && g != f + 1 implies #[trigger] next.row((s, g)) == before.row((s, g)) by {
                    lemma_rows_distinct(s as int, g as int, s as int, f + 1, m as int);
                }
                assert forall|s2: usize, g: usize| s2 < n && s2 != s && g <= fuzz implies #[trigger] next.row((s2, g)) == start.row((s2, g)) by {
                    lemma_rows_distinct(s2 as int, g as int, s as int, f + 1, m as int);
                    assert(next.row((s2, g)) == before.row((s2, g)));
                }
            }
            f += 1;
        }
        all_fuzz_empty
    }
}


impl Expression {
    /// The table after one matched symbol (see `next_row`), and whether the table
    /// before it was empty.
    fn next_table(&self, cur: &BitSet3D, chr: Char) -> (r: (BitSet3D, bool))
        requires
            self.wf(),
            self.max_fuzz() < usize::MAX,
            self.table_ok(*cur),
            !self.ignored(chr),
        ensures
            self.table_ok(r.0),
            forall|s: usize, f: usize|
                s < self@.len() && f <= self.max_fuzz() ==> #[trigger] r.0.row((s, f)) == self.next_row(*cur, chr, s, f),
            r.1 == self.table_empty(*cur),
    {
        let n = self.states.len();
        let fuzz = self.fuzz;
        let ghost m = fuzz + 1;
        let chr_set = CharBitset::from_char_symbol(chr);
        proof {
            cur.lemma_wf_sizes();
        }
        let mut next = BitSet3D::new((n, fuzz + 1), n);
        let mut all_states_are_empty = true;
        let mut s: usize = 0;
        while s < n
            invariant
                self.wf(),
                n == self@.len(),
                fuzz == self.fuzz,
                fuzz < usize::MAX,
                !self.ignored(chr),
                chr_set@ == Set::<int>::empty().insert(chr.index()),
                self.table_ok(*cur),
                self.table_ok(next),
                s <= n,
                forall|s2: usize, f: usize|
                    s2 < s && f <= fuzz ==> #[trigger] next.row((s2, f)) == self.next_row(*cur, chr, s2, f),
                forall|s2: usize, f: usize|
                    s <= s2 < n && f <= fuzz ==> #[trigger] next.row((s2, f)) == Set::<int>::empty(),
                all_states_are_empty == forall|s2: usize, f: usize|
                    s2 < s && f <= fuzz ==> #[trigger] cur.row((s2, f)) == Set::<int>::empty(),
            decreases n - s,
        {
            let ghost before = next;
            let empty = self.fill_state_rows(cur, chr_set, s, &mut next);
            proof {
                assert forall|s2: usize, f: usize| s2 < s + 1 && f <= fuzz implies #[trigger] next.row((s2, f)) == self.next_row(*cur, chr, s2, f) by {
                    if s2 < s {
                        assert(next.row((s2, f)) == before.row((s2, f)));
                    }
                }
                assert forall|s2: usize, f: usize| s + 1 <= s2 < n && f <= fuzz implies #[trigger] next.row((s2, f)) == Set::<int>::empty() by {
                    assert(next.row((s2, f)) == before.row((s2, f)));
                }
            }
            if !empty {
                all_states_are_empty = false;
                proof {
                    let f = choose|f: usize| f <= fuzz && #[trigger] cur.row((s, f)) != Set::<int>::empty();
                    assert(!(forall|s2: usize, f: usize| s2 < s + 1 && f <= fuzz ==> #[trigger] cur.row((s2, f)) == Set::<int>::empty()));
                }
            } else {
                proof {
                    if all_states_are_empty {
                        assert forall|s2: usize, f: usize| s2 < s + 1 && f <= fuzz implies #[trigger] cur.row((s2, f)) == Set::<int>::empty() by {
                            if s2 < s {
                                assert(s2 < s && f <= fuzz);
                            }
                        }
                    } else {
                        let (s3, f3) = choose|s2: usize, f: usize| s2 < s && f <= fuzz && #[trigger] cur.row((s2, f)) != Set::<int>::empty();
                        assert(!(forall|s2: usize, f: usize| s2 < s + 1 && f <= fuzz ==> #[trigger] cur.row((s2, f)) == Set::<int>::empty()));
                    }
                }
            }
            s += 1;
        }
        (next, all_states_are_empty)
    }

    /// Fills the transition table for the symbols `chars`: `transition_table[k + 1]`
    /// from `transition_table[k]` and `chars[k]` (see `next_row`), for each `k` in turn.
    ///
    /// Row `(from, fuzz)` of `transition_table[k]` holds the states that `chars[..k]`
    /// leads to from state `from` with that fuzz and no less: a state set in a row is
    /// unset in the rows of more fuzz (see `fuzz_pass`). The caller fills
    /// `transition_table[0]`. Returns the first `k` whose table is empty (after
    /// writing the table after it), where no longer word can match; or `chars.len()`.
    pub fn fill_transition_table(&self, chars: &[Char], transition_table: &mut [BitSet3D]) -> (r: usize)
        requires
            self.wf(),
            self.max_fuzz() < usize::MAX,
            old(transition_table)@.len() > chars@.len(),
            forall|k: int| 0 <= k <= chars@.len() ==> self.table_ok(#[trigger] old(transition_table)@[k]),
        ensures
            final(transition_table)@.len() == old(transition_table)@.len(),
            r <= chars@.len(),
            final(transition_table)@[0] == old(transition_table)@[0],
            forall|k: int| 0 <= k <= chars@.len() ==> self.table_ok(#[trigger] final(transition_table)@[k]),
            forall|k: int, s: usize, f: usize|
                0 <= k < chars@.len() && k <= r && s < self@.len() && f <= self.max_fuzz()
                    ==> #[trigger] final(transition_table)@[k + 1].row((s, f))
                    == self.next_row(final(transition_table)@[k], chars@[k], s, f),
            forall|k: int|
                r + 1 < k < final(transition_table)@.len()
                    ==> #[trigger] final(transition_table)@[k] == old(transition_table)@[k],
            forall|k: int|
                chars@.len() < k < final(transition_table)@.len()
                    ==> #[trigger] final(transition_table)@[k] == old(transition_table)@[k],
            r < chars@.len() ==> !self.ignored(chars@[r as int])
                && self.table_empty(final(transition_table)@[r as int]),
            forall|k: int|
                0 <= k < r ==> self.ignored(#[trigger] chars@[k])
                    || !self.table_empty(final(transition_table)@[k]),
    {
        let ghost start = transition_table@;
        let mut char_index: usize = 0;
        while char_index < chars.len()
            invariant
                self.wf(),
                self.max_fuzz() < usize::MAX,
                transition_table@.len() == start.len(),
                old(transition_table)@ == start,
                start.len() > chars@.len(),
                char_index <= chars@.len(),
                transition_table@[0] == start[0],
                forall|k: int| 0 <= k <= chars@.len() ==> self.table_ok(#[trigger] transition_table@[k]),
                forall|k: int, s: usize, f: usize|
                    0 <= k < char_index && s < self@.len() && f <= self.max_fuzz() ==> #[trigger] transition_table@[k
                        + 1].row((s, f)) == self.next_row(transition_table@[k], chars@[k], s, f),
                forall|k: int| char_index < k < start.len() ==> #[trigger] transition_table@[k] == start[k],
                forall|k: int|
                    0 <= k < char_index ==> self.ignored(#[trigger] chars@[k]) || !self.table_empty(
                        transition_table@[k],
                    ),
            decreases chars@.len() - char_index,
        {
            let chr = chars[char_index];
            let ghost before = transition_table@;
            let c = chr.as_index();
            if (self.ignore_word_boundaries && c == 27) || (self.ignore_punctuation && c == 26) {
                let copy = transition_table[char_index].clone();
                proof {
                    assert(self.table_ok(before[char_index as int]));
                }
                transition_table[char_index + 1] = copy;
                proof {
                    assert forall|s: usize, f: usize| s < self@.len() && f <= self.max_fuzz() implies #[trigger] transition_table@[char_index + 1].row((s, f)) == self.next_row(transition_table@[char_index as int], chars@[char_index as int], s, f) by {
                        copy.lemma_same_blocks(before[char_index as int], (s, f));
                    }
                    assert forall|k: int, s: usize, f: usize| 0 <= k < char_index + 1 && s < self@.len() && f <= self.max_fuzz() implies #[trigger] transition_table@[k + 1].row((s, f)) == self.next_row(transition_table@[k], chars@[k], s, f) by {
                        if k < char_index {
                            assert(transition_table@[k + 1] == before[k + 1]);
                            assert(transition_table@[k] == before[k]);
                        }
                    }
                }
                char_index += 1;
                continue;
            }
            let (next, all_empty) = self.next_table(&transition_table[char_index], chr);
            transition_table[char_index + 1] = next;
            proof {
                assert forall|k: int, s: usize, f: usize| 0 <= k < char_index + 1 && s < self@.len() && f <= self.max_fuzz() implies #[trigger] transition_table@[k + 1].row((s, f)) == self.next_row(transition_table@[k], chars@[k], s, f) by {
                    if k < char_index {
                        assert(transition_table@[k + 1] == before[k + 1]);
                        assert(transition_table@[k] == before[k]);
                    }
                }
            }
            if all_empty {
                proof {
                    assert(transition_table@.len() == start.len());
                    assert(transition_table@[0] == start[0]);
                }
                return char_index;
            }
            char_index += 1;
        }
        chars.len()
    }
}


impl Expression {
    /// The text that the automaton was compiled from, as the tree writes it.
    pub closed spec fn text_view(&self) -> Seq<char> {
        self.text@
    }

    /// Compiles a parsed expression. A word end or punctuation is matched only where
    /// the expression makes it explicit; the fuzz is the expression's, or 0.
    pub fn from_ast(ast_root: &ExpressionAst) -> (r: Expression)
        requires
            buildable(ast_root.root@),
            state_count(ast_root.root@) < MAX_SET_SIZE,
        ensures
            r.wf(),
            r@.len() <= state_count(ast_root.root@) + 1,
            r.skips_word_ends() == (ast_root.options.explicit_word_boundaries != Some(true)),
            r.skips_punctuation() == (ast_root.options.explicit_punctuation != Some(true)),
            r.max_fuzz() == match ast_root.options.fuzz {
                Some(f) => f,
                None => 0,
            },
            r.text_view() == expression_text(ast_root.root@, ast_root.options),
    {
        let ignore_word_boundaries = !(ast_root.options.explicit_word_boundaries == Some(true));
        let ignore_punctuation = !(ast_root.options.explicit_punctuation == Some(true));
        let mut states: Vec<State> = Vec::new();
        Self::build_states(&ast_root.root, &mut states);
        let n = states.len();
        states.push(State::new_transition(CharBitset::from_char_symbol(Char::word_end()), n));
        proof {
            assert forall|i: int| 0 <= i < states@.len() implies {
                &&& 0 <= #[trigger] states@[i]@.next < states@.len()
                &&& forall|j: int| #[trigger] states@[i]@.eps.contains(j) ==> 0 <= j < states@.len()
            } by {
                if i < n {
                    assert(0 <= states@[i]@.next <= n);
                }
            }
            assert forall|i: int| 0 <= i < states@.len() implies #[trigger] states@[i].sized(build_blocks()) by {
                if i < n {
                    assert(states@[i].sized(build_blocks()));
                }
            }
        }
        optimize_states(&mut states, Ghost(build_blocks()));
        let fuzz = match ast_root.options.fuzz {
            Some(f) => f,
            None => 0,
        };
        Expression {
            states,
            text: ast_root.to_text(),
            ignore_word_boundaries,
            ignore_punctuation,
            fuzz,
        }
    }

    /// Parses and compiles an expression (see `ExpressionAst::new_from_str` and
    /// `Expression::from_ast`).
    pub fn new(text: &str) -> (r: Result<Expression, ParseError>)
        requires
            text@.len() < usize::MAX,
            expression_of(text@) matches Ok((root, _)) ==> buildable(root) && state_count(root)
                < MAX_SET_SIZE,
        ensures
            match r {
                Ok(e) => {
                    &&& expression_of(text@) matches Ok((root, opts))
                    &&& e.wf()
                    &&& e.skips_word_ends() == (opts.explicit_word_boundaries != Some(true))
                    &&& e.skips_punctuation() == (opts.explicit_punctuation != Some(true))
                    &&& e.max_fuzz() == match opts.fuzz {
                        Some(f) => f,
                        None => 0,
                    }
                    &&& e.text_view() == expression_text(root, opts)
                },
                Err(pe) => expression_of(text@) == Err::<(AstView, ExpressionOptions), int>(
                    pe.column - 1,
                ) && pe.line == 1,
            },
    {
        match ExpressionAst::new_from_str(text) {
            Ok(ast_root) => Ok(Self::from_ast(&ast_root)),
            Err(e) => Err(e),
        }
    }
}


impl Expression {
    /// The rows before any symbol: from each state, its epsilon set with no fuzz.
    pub open spec fn initial_rows(&self) -> spec_fn(usize, usize) -> Set<int> {
        |s: usize, f: usize|
            if f == 0 && s < self@.len() {
                self@[s as int].eps
            } else {
                Set::<int>::empty()
            }
    }

    /// The rows after the symbols `chars`: row `(s, f)` holds the states that
    /// `chars` lead to from state `s` with fuzz `f` (see `step_rows`).
    pub open spec fn rows_after(&self, chars: Seq<Char>) -> spec_fn(usize, usize) -> Set<int>
        decreases chars.len(),
    {
        if chars.len() == 0 {
            self.initial_rows()
        } else {
            self.step_rows(self.rows_after(chars.drop_last()), chars.last())
        }
    }

    /// The symbols lead from the start state to the success state within the fuzz.
    pub open spec fn matches_chars(&self, chars: Seq<Char>) -> bool {
        exists|f: usize| f <= self.max_fuzz() && #[trigger] self.rows_after(chars)(0, f).contains(self@.len() - 1)
    }
}


proof fn lemma_fuzz_pass_agree(
    e: Seq<StateView>,
    c: Set<int>,
    t1: spec_fn(usize, usize) -> Set<int>,
    t2: spec_fn(usize, usize) -> Set<int>,
    s: usize,
    f: int,
)
    requires
        0 <= f <= usize::MAX,
        forall|g: usize| g <= f ==> #[trigger] t1(s, g) == t2(s, g),
    ensures
        fuzz_pass(e, c, t1, s, f) == fuzz_pass(e, c, t2, s, f),
    decreases f,
{
    assert(t1(s, f as usize) == t2(s, f as usize));
    if f > 0 {
        lemma_fuzz_pass_agree(e, c, t1, t2, s, f - 1);
        assert(t1(s, (f - 1) as usize) == t2(s, (f - 1) as usize));
    }
}

/// The rows of less fuzz than `k` are among the states gathered at `k`.
proof fn lemma_fuzz_pass_gathered(e: Seq<StateView>, c: Set<int>, t: spec_fn(usize, usize) -> Set<int>, s: usize, g: int, k: int)
    requires
        0 <= g <= k,
    ensures
        fuzz_pass(e, c, t, s, g).0.subset_of(fuzz_pass(e, c, t, s, k).1),
    decreases k,
{
    if g < k {
        lemma_fuzz_pass_gathered(e, c, t, s, g, k - 1);
    }
}

/// The states gathered at `k` are those of the rows of fuzz up to `k`.
proof fn lemma_fuzz_pass_sup(e: Seq<StateView>, c: Set<int>, t: spec_fn(usize, usize) -> Set<int>, s: usize, k: int, y: int)
    requires
        0 <= k,
        fuzz_pass(e, c, t, s, k).1.contains(y),
    ensures
        exists|g: int| 0 <= g <= k && #[trigger] fuzz_pass(e, c, t, s, g).0.contains(y),
    decreases k,
{
    if k > 0 && fuzz_pass(e, c, t, s, k - 1).1.contains(y) {
        lemma_fuzz_pass_sup(e, c, t, s, k - 1, y);
    } else {
        assert(fuzz_pass(e, c, t, s, k).0.contains(y));
    }
}

proof fn lemma_fuzz_pass_empty(e: Seq<StateView>, c: Set<int>, t: spec_fn(usize, usize) -> Set<int>, s: usize, f: int)
    requires
        0 <= f <= usize::MAX,
        forall|g: usize| g <= f ==> #[trigger] t(s, g) == Set::<int>::empty(),
    ensures
        fuzz_pass(e, c, t, s, f).0 == Set::<int>::empty(),
        fuzz_pass(e, c, t, s, f).1 == Set::<int>::empty(),
    decreases f,
{
    assert(t(s, f as usize) == Set::<int>::empty());
    assert(step(e, c, Set::<int>::empty()) =~= Set::<int>::empty());
    if f > 0 {
        lemma_fuzz_pass_empty(e, c, t, s, f - 1);
        assert(t(s, (f - 1) as usize) == Set::<int>::empty());
        assert(step(e, crate::words::letter_set(), Set::<int>::empty()) =~= Set::<int>::empty());
        let sup = fuzz_pass(e, c, t, s, f - 1).1;
        let r = Set::<int>::empty().union(Set::<int>::empty()).union(Set::<int>::empty()).union(Set::<int>::empty()).difference(sup);
        assert(r =~= Set::<int>::empty());
        assert(sup.union(r) =~= Set::<int>::empty());
    }
}

impl Expression {
    /// The rows after a symbol depend only on the rows of the table's shape before it.
    pub proof fn lemma_step_rows_agree(&self, t1: spec_fn(usize, usize) -> Set<int>, t2: spec_fn(usize, usize) -> Set<int>, chr: Char)
        requires
            forall|s: usize, f: usize| s < self@.len() && f <= self.max_fuzz() ==> #[trigger] t1(s, f) == t2(s, f),
        ensures
            forall|s: usize, f: usize|
                s < self@.len() && f <= self.max_fuzz() ==> #[trigger] self.step_rows(t1, chr)(s, f) == self.step_rows(t2, chr)(s, f),
    {
        assert forall|s: usize, f: usize| s < self@.len() && f <= self.max_fuzz() implies #[trigger] self.step_rows(t1, chr)(s, f)
            == self.step_rows(t2, chr)(s, f) by {
            assert forall|g: usize| g <= f implies #[trigger] t1(s, g) == t2(s, g) by {
            }
            lemma_fuzz_pass_agree(self@, Set::empty().insert(chr.index()), t1, t2, s, f as int);
        }
    }

    /// No state is reached after a symbol when none was before it.
    pub proof fn lemma_step_rows_empty(&self, t: spec_fn(usize, usize) -> Set<int>, chr: Char)
        requires
            forall|s: usize, f: usize| s < self@.len() && f <= self.max_fuzz() ==> #[trigger] t(s, f) == Set::<int>::empty(),
        ensures
            forall|s: usize, f: usize|
                s < self@.len() && f <= self.max_fuzz() ==> #[trigger] self.step_rows(t, chr)(s, f) == Set::<int>::empty(),
    {
        assert forall|s: usize, f: usize| s < self@.len() && f <= self.max_fuzz() implies #[trigger] self.step_rows(t, chr)(s, f)
            == Set::<int>::empty() by {
            assert forall|g: usize| g <= f implies #[trigger] t(s, g) == Set::<int>::empty() by {
            }
            lemma_fuzz_pass_empty(self@, Set::empty().insert(chr.index()), t, s, f as int);
        }
    }
}


impl Expression {
    /// The rows `a` and `b` agree on every state and fuzz value of the automaton.
    pub open spec fn rows_agree(&self, a: spec_fn(usize, usize) -> Set<int>, b: spec_fn(usize, usize) -> Set<int>) -> bool {
        forall|s: usize, f: usize| s < self@.len() && f <= self.max_fuzz() ==> #[trigger] a(s, f) == b(s, f)
    }

    /// Some row of the automaton's shape holds a state.
    pub open spec fn rows_nonempty(&self, t: spec_fn(usize, usize) -> Set<int>) -> bool {
        exists|s: usize, f: usize| s < self@.len() && f <= self.max_fuzz() && #[trigger] t(s, f) != Set::<int>::empty()
    }

    /// The symbols can still lead somewhere: before each symbol that is not
    /// skipped, some state is reached.
    pub open spec fn viable(&self, chars: Seq<Char>) -> bool {
        forall|k: int|
            0 <= k < chars.len() ==> self.ignored(#[trigger] chars[k]) || self.rows_nonempty(self.rows_after(chars.take(k)))
    }

    /// The rows after one more symbol of `chars` are those after `chars[k]`.
    pub proof fn lemma_rows_after_take(&self, chars: Seq<Char>, k: int)
        requires
            0 <= k < chars.len(),
        ensures
            self.rows_after(chars.take(k + 1)) == self.step_rows(self.rows_after(chars.take(k)), chars[k]),
    {
        assert(chars.take(k + 1).drop_last() =~= chars.take(k));
        assert(chars.take(k + 1).last() == chars[k]);
    }

    /// A table after `chars.take(k)` gives, by `next_row` with `chars[k]`, the rows
    /// after `chars.take(k + 1)`.
    pub proof fn lemma_next_rows(&self, t: BitSet3D, next: BitSet3D, chars: Seq<Char>, k: int)
        requires
            0 <= k < chars.len(),
            self.rows_agree(rows_of(t), self.rows_after(chars.take(k))),
            forall|s: usize, f: usize|
                s < self@.len() && f <= self.max_fuzz() ==> #[trigger] next.row((s, f)) == self.next_row(t, chars[k], s, f),
        ensures
            self.rows_agree(rows_of(next), self.rows_after(chars.take(k + 1))),
    {
        self.lemma_step_rows_agree(rows_of(t), self.rows_after(chars.take(k)), chars[k]);
        self.lemma_rows_after_take(chars, k);
        assert forall|s: usize, f: usize| s < self@.len() && f <= self.max_fuzz() implies #[trigger] rows_of(next)(s, f)
            == self.rows_after(chars.take(k + 1))(s, f) by {
            assert(next.row((s, f)) == self.next_row(t, chars[k], s, f));
        }
    }

    /// Once no state is reached, none is reached after any further symbols.
    pub proof fn lemma_rows_stay_empty(&self, chars: Seq<Char>, k: int)
        requires
            0 <= k <= chars.len(),
            !self.rows_nonempty(self.rows_after(chars.take(k))),
        ensures
            !self.rows_nonempty(self.rows_after(chars)),
        decreases chars.len() - k,
    {
        if k == chars.len() {
            assert(chars.take(k) =~= chars);
        } else {
            let t = self.rows_after(chars.take(k));
            assert forall|s: usize, f: usize| s < self@.len() && f <= self.max_fuzz() implies #[trigger] t(s, f)
                == Set::<int>::empty() by {
            }
            self.lemma_step_rows_empty(t, chars[k]);
            self.lemma_rows_after_take(chars, k);
            let t2 = self.rows_after(chars.take(k + 1));
            if self.rows_nonempty(t2) {
                let (s, f) = choose|s: usize, f: usize| s < self@.len() && f <= self.max_fuzz() && #[trigger] t2(s, f) != Set::<int>::empty();
                if self.ignored(chars[k]) {
                    assert(t2(s, f) == t(s, f));
                } else {
                    assert(t2(s, f) == self.step_rows(t, chars[k])(s, f));
                }
            }
            self.lemma_rows_stay_empty(chars, k + 1);
        }
    }

    /// Symbols that are not viable do not match.
    pub proof fn lemma_not_viable(&self, chars: Seq<Char>)
        requires
            self.wf(),
            !self.viable(chars),
        ensures
            !self.matches_chars(chars),
    {
        self.lemma_wf();
        let k = choose|k: int|
            0 <= k < chars.len() && !(self.ignored(#[trigger] chars[k]) || self.rows_nonempty(self.rows_after(chars.take(k))));
        let t = self.rows_after(chars.take(k));
        assert forall|s: usize, f: usize| s < self@.len() && f <= self.max_fuzz() implies #[trigger] t(s, f)
            == Set::<int>::empty() by {
        }
        self.lemma_step_rows_empty(t, chars[k]);
        self.lemma_rows_after_take(chars, k);
        let t2 = self.rows_after(chars.take(k + 1));
        if self.rows_nonempty(t2) {
            let (s, f) = choose|s: usize, f: usize| s < self@.len() && f <= self.max_fuzz() && #[trigger] t2(s, f) != Set::<int>::empty();
            assert(t2(s, f) == self.step_rows(t, chars[k])(s, f));
        }
        self.lemma_rows_stay_empty(chars, k + 1);
        if self.matches_chars(chars) {
            let f = choose|f: usize| f <= self.max_fuzz() && #[trigger] self.rows_after(chars)(0, f).contains(self@.len() - 1);
            assert(self.rows_after(chars)(0, f) != Set::<int>::empty());
        }
    }
}

proof fn lemma_step_bounded(e: Seq<StateView>, c: Set<int>, from: Set<int>)
    requires
        forall|i: int| 0 <= i < e.len() ==> 0 <= #[trigger] e[i].next < e.len(),
        forall|i: int, j: int| 0 <= i < e.len() && #[trigger] e[i].eps.contains(j) ==> 0 <= j < e.len(),
    ensures
        forall|x: int| #[trigger] step(e, c, from).contains(x) ==> 0 <= x < e.len(),
{
    assert forall|x: int| #[trigger] step(e, c, from).contains(x) implies 0 <= x < e.len() by {
        let y = choose|y: int| 0 <= y < e.len() && #[trigger] from.contains(y) && !c.disjoint(e[y].chars) && e[e[y].next].eps.contains(x);
        assert(0 <= e[y].next < e.len());
    }
}

proof fn lemma_fuzz_pass_bounded(e: Seq<StateView>, c: Set<int>, t: spec_fn(usize, usize) -> Set<int>, s: usize, f: int)
    requires
        0 <= f <= usize::MAX,
        forall|i: int| 0 <= i < e.len() ==> 0 <= #[trigger] e[i].next < e.len(),
        forall|i: int, j: int| 0 <= i < e.len() && #[trigger] e[i].eps.contains(j) ==> 0 <= j < e.len(),
        forall|g: usize, x: int| #[trigger] t(s, g).contains(x) ==> 0 <= x < e.len(),
    ensures
        forall|x: int| #[trigger] fuzz_pass(e, c, t, s, f).0.contains(x) ==> 0 <= x < e.len(),
        forall|x: int| #[trigger] fuzz_pass(e, c, t, s, f).1.contains(x) ==> 0 <= x < e.len(),
    decreases f,
{
    lemma_step_bounded(e, c, t(s, f as usize));
    if f > 0 {
        lemma_fuzz_pass_bounded(e, c, t, s, f - 1);
        let cur = t(s, (f - 1) as usize);
        let change = step(e, crate::words::letter_set(), cur);
        lemma_step_bounded(e, crate::words::letter_set(), cur);
        lemma_step_bounded(e, c, change);
        let sup = fuzz_pass(e, c, t, s, f - 1).1;
        let base = step(e, c, t(s, f as usize));
        let insertion = step(e, c, change);
        let r = base.union(cur).union(change).union(insertion).difference(sup);
        assert(fuzz_pass(e, c, t, s, f) == (r, sup.union(r)));
        assert forall|x: int| #[trigger] sup.union(r).contains(x) implies 0 <= x < e.len() by {
            if r.contains(x) {
                assert(cur.contains(x) ==> t(s, (f - 1) as usize).contains(x));
            }
        }
    }
}

impl Expression {
    /// The rows after any symbols hold only states.
    pub proof fn lemma_rows_after_bounded(&self, chars: Seq<Char>)
        requires
            self.wf(),
        ensures
            forall|s: usize, f: usize, x: int| #[trigger] self.rows_after(chars)(s, f).contains(x) ==> 0 <= x < self@.len(),
        decreases chars.len(),
    {
        self.lemma_wf();
        if chars.len() > 0 {
            let p = chars.drop_last();
            self.lemma_rows_after_bounded(p);
            let t = self.rows_after(p);
            assert forall|s: usize, f: usize, x: int| #[trigger] self.rows_after(chars)(s, f).contains(x) implies 0 <= x < self@.len() by {
                if !self.ignored(chars.last()) {
                    assert forall|g: usize, y: int| #[trigger] t(s, g).contains(y) implies 0 <= y < self@.len() by {
                    }
                    lemma_fuzz_pass_bounded(self@, Set::empty().insert(chars.last().index()), t, s, f as int);
                }
            }
        }
    }
}


impl Expression {
    /// The table before any symbol (see `initial_rows`).
    pub(crate) fn initial_table(&self) -> (r: BitSet3D)
        requires
            self.wf(),
            self.max_fuzz() < usize::MAX,
            self@.len() * (self.max_fuzz() + 1) <= usize::MAX,
            self@.len() * (self.max_fuzz() + 1) * self.set_blocks() * 64 <= usize::MAX,
        ensures
            self.table_ok(r),
            self.rows_agree(rows_of(r), self.initial_rows()),
    {
        proof {
            self.lemma_wf();
        }
        let n = self.states.len();
        let flim = self.fuzz + 1;
        let mut t = BitSet3D::new((n, flim), n);
        let mut src: usize = 0;
        while src < n
            invariant
                self.wf(),
                n == self@.len(),
                flim == self.max_fuzz() + 1,
                src <= n,
                self.table_ok(t),
                self.set_blocks() == blocks_for(n as int),
                forall|s: usize, f: usize|
                    s < n && f < flim ==> #[trigger] t.row((s, f)) == (if f == 0 && s < src {
                        self@[s as int].eps
                    } else {
                        Set::<int>::empty()
                    }),
            decreases n - src,
        {
            let ghost before = t;
            let eps = self.epsilon_states(src);
            t.union_into_row((src, 0), eps);
            proof {
                assert forall|s: usize, f: usize| s < n && f < flim implies #[trigger] t.row((s, f)) == (if f == 0 && s < src + 1 {
                    self@[s as int].eps
                } else {
                    Set::<int>::empty()
                }) by {
                    if s == src && f == 0 {
                        assert(before.row((s, f)) == Set::<int>::empty());
                        assert(t.row((s, f)) =~= self@[s as int].eps);
                    } else {
                        lemma_rows_distinct(s as int, f as int, src as int, 0, flim as int);
                        assert(t.row((s, f)) == before.row((s, f)));
                    }
                }
            }
            src += 1;
        }
        t
    }
}


/// `x`, or `MAX_SET_SIZE` if it is larger.
pub open spec fn capped(x: int) -> int {
    if x < MAX_SET_SIZE {
        x
    } else {
        MAX_SET_SIZE as int
    }
}

proof fn lemma_list_step(v: Seq<AstView>, k: int)
    requires
        0 <= k < v.len(),
    ensures
        state_count_list(v.take(k + 1)) == state_count_list(v.take(k)) + state_count(v[k]),
        buildable_list(v.take(k + 1)) == (buildable_list(v.take(k)) && buildable(v[k])),
{
    assert(v.take(k + 1).drop_last() =~= v.take(k));
    assert(v.take(k + 1).last() == v[k]);
}

/// Whether the tree can be compiled: it has no anagram, and no repetition with a
/// maximum below its minimum (see `buildable`).
pub fn is_buildable(ast: &Ast) -> (r: bool)
    ensures
        r == buildable(ast@),
    decreases ast, 1int,
{
    match ast {
        Ast::CharClass(_) => true,
        Ast::Alternatives(nodes) => all_buildable(nodes),
        Ast::Sequence(nodes) => all_buildable(nodes),
        Ast::Repetition { term, min, max } => {
            let ordered = match max {
                Some(m) => *min <= *m,
                None => true,
            };
            ordered && is_buildable(term)
        },
        Ast::Anagram { .. } => false,
    }
}

fn all_buildable(nodes: &Vec<Ast>) -> (r: bool)
    ensures
        r == buildable_list(ast_list_view(nodes@)),
    decreases nodes, 0int,
{
    let ghost v = ast_list_view(nodes@);
    proof {
        lemma_ast_list_view(nodes@);
        assert(v.take(0) =~= Seq::<AstView>::empty());
    }
    let mut k: usize = 0;
    while k < nodes.len()
        invariant
            k <= nodes@.len(),
            v == ast_list_view(nodes@),
            v.len() == nodes@.len(),
            forall|i: int| 0 <= i < nodes@.len() ==> #[trigger] v[i] == nodes@[i]@,
            buildable_list(v.take(k as int)),
        decreases nodes@.len() - k,
    {
        proof {
            assert(decreases_to!(*nodes => nodes@));
            assert(decreases_to!(nodes@ => nodes@[k as int]));
            lemma_list_step(v, k as int);
        }
        if !is_buildable(&nodes[k]) {
            proof {
                lemma_list_prefix_buildable(v, k + 1, v.len() as int);
                assert(v.take(v.len() as int) =~= v);
            }
            return false;
        }
        k += 1;
    }
    proof {
        assert(v.take(v.len() as int) =~= v);
    }
    true
}

proof fn lemma_list_prefix_buildable(v: Seq<AstView>, k: int, j: int)
    requires
        0 <= k <= j <= v.len(),
        !buildable_list(v.take(k)),
    ensures
        !buildable_list(v.take(j)),
    decreases j - k,
{
    if k < j {
        lemma_list_prefix_buildable(v, k, j - 1);
        lemma_list_step(v, j - 1);
    }
}

/// The number of states that the tree compiles to, capped at `MAX_SET_SIZE`.
pub fn capped_state_count(ast: &Ast) -> (r: usize)
    ensures
        r == capped(state_count(ast@) as int),
    decreases ast, 1int,
{
    let r: usize = match ast {
        Ast::CharClass(c) => 1,
        Ast::Alternatives(nodes) => {
            let c = capped_list_count(nodes);
            let x = if c >= MAX_SET_SIZE - 1 {
                MAX_SET_SIZE
            } else {
                c + 1
            };
            assert(x == capped(state_count(ast@) as int));
            x
        },
        Ast::Sequence(nodes) => {
            let x = capped_list_count(nodes);
            assert(x == capped(state_count(ast@) as int));
            x
        },
        Ast::Repetition { term, min, max } => {
            if *min == 0 && *max == Some(0usize) {
                assert(0 == capped(state_count(ast@) as int));
                0
            } else if *min == 1 && *max == Some(1usize) {
                let x = capped_state_count(term);
                assert(x == capped(state_count(ast@) as int));
                x
            } else {
                let t = capped_state_count(term);
                let m = match max {
                    Some(m) => *m,
                    None => *min,
                };
                let a = if *min >= m {
                    *min
                } else {
                    m
                };
                let reps = if a >= 1 {
                    a
                } else {
                    1
                };
                proof {
                    assert(reps == repeats(*min, *max));
                }
                if t == 0 {
                    assert(state_count(term@) == 0);
                    assert(repeats(*min, *max) * state_count(term@) == 0) by (nonlinear_arith)
                        requires
                            state_count(term@) == 0,
                    ;
                    assert(state_count(ast@) == 2);
                    2
                } else if reps >= MAX_SET_SIZE || t >= MAX_SET_SIZE {
                    proof {
                        assert(repeats(*min, *max) * state_count(term@) >= MAX_SET_SIZE) by (nonlinear_arith)
                            requires
                                repeats(*min, *max) >= 1,
                                state_count(term@) >= 1,
                                repeats(*min, *max) >= MAX_SET_SIZE || state_count(term@) >= MAX_SET_SIZE,
                        ;
                    }
                    assert(state_count(ast@) >= MAX_SET_SIZE);
                    MAX_SET_SIZE
                } else {
                    proof {
                        assert(reps * t <= 16384 * 16384) by (nonlinear_arith)
                            requires
                                reps < 16384,
                                t < 16384,
                        ;
                    }
                    let p = reps * t;
                    assert(t == state_count(term@));
                    assert(state_count(ast@) == 2 + p);
                    if p >= MAX_SET_SIZE - 2 {
                        MAX_SET_SIZE
                    } else {
                        p + 2
                    }
                }
            }
        },
        Ast::Anagram { .. } => 0,
    };
    r
}

fn capped_list_count(nodes: &Vec<Ast>) -> (r: usize)
    ensures
        r == capped(state_count_list(ast_list_view(nodes@)) as int),
    decreases nodes, 0int,
{
    let ghost v = ast_list_view(nodes@);
    proof {
        lemma_ast_list_view(nodes@);
        assert(v.take(0) =~= Seq::<AstView>::empty());
    }
    let mut total: usize = 0;
    let mut k: usize = 0;
    while k < nodes.len()
        invariant
            k <= nodes@.len(),
            v == ast_list_view(nodes@),
            v.len() == nodes@.len(),
            forall|i: int| 0 <= i < nodes@.len() ==> #[trigger] v[i] == nodes@[i]@,
            total == capped(state_count_list(v.take(k as int)) as int),
        decreases nodes@.len() - k,
    {
        proof {
            assert(decreases_to!(*nodes => nodes@));
            assert(decreases_to!(nodes@ => nodes@[k as int]));
            lemma_list_step(v, k as int);
        }
        let c = capped_state_count(&nodes[k]);
        if total >= MAX_SET_SIZE || c >= MAX_SET_SIZE || total + c >= MAX_SET_SIZE {
            total = MAX_SET_SIZE;
        } else {
            total = total + c;
        }
        k += 1;
    }
    proof {
        assert(v.take(v.len() as int) =~= v);
    }
    total
}

impl Expression {
    /// Compiles a parsed expression when it can be (see `from_ast`): when it has no
    /// anagram and no repetition whose maximum is below its minimum, and compiles to
    /// fewer than `MAX_SET_SIZE` states; `None` otherwise.
    pub fn try_from_ast(ast_root: &ExpressionAst) -> (r: Option<Expression>)
        ensures
            r is Some <==> buildable(ast_root.root@) && state_count(ast_root.root@) < MAX_SET_SIZE,
            r matches Some(e) ==> {
                &&& e.wf()
                &&& e@.len() <= state_count(ast_root.root@) + 1
                &&& e.skips_word_ends() == (ast_root.options.explicit_word_boundaries != Some(true))
                &&& e.skips_punctuation() == (ast_root.options.explicit_punctuation != Some(true))
                &&& e.max_fuzz() == match ast_root.options.fuzz {
                    Some(f) => f,
                    None => 0,
                }
                &&& e.text_view() == expression_text(ast_root.root@, ast_root.options)
            },
    {
        if is_buildable(&ast_root.root) && capped_state_count(&ast_root.root) < MAX_SET_SIZE {
            Some(Self::from_ast(ast_root))
        } else {
            None
        }
    }
}

} // verus!
