//! Planning the phrase search: which phrase lengths and tranches are searched, how
//! large each search is estimated to be, and in what order they run.
use crate::words::{Tranche, Word};
use vstd::prelude::*;

verus! {

/// One pass of the phrase search: phrases of `depth` words whose highest tranche is
/// `tranche`, with an estimate of how many phrases it may try.
#[derive(Debug, Clone, Copy, PartialEq, Eq, Structural)]
pub struct SearchPhase {
    pub depth: usize,
    pub tranche: Tranche,
    pub total_size: u64,
}

/// The tranches of the words are in increasing order.
pub open spec fn tranches_sorted(ws: Seq<&Word>) -> bool {
    forall|i: int, j: int| 0 <= i < j < ws.len() ==> (#[trigger] ws[i]).tranche <= (#[trigger] ws[j]).tranche
}

/// Some word of `ws` is of tranche `t`.
pub open spec fn has_tranche(ws: Seq<&Word>, t: Tranche) -> bool {
    exists|k: int| 0 <= k < ws.len() && (#[trigger] ws[k]).tranche == t
}

/// The values of `ts` increase strictly.
pub open spec fn strictly_increasing(ts: Seq<Tranche>) -> bool {
    forall|i: int, j: int| 0 <= i < j < ts.len() ==> (#[trigger] ts[i]) < (#[trigger] ts[j])
}

/// The tranches that the words are of, each once, in increasing order. The words
/// must be in order of tranche.
pub fn word_tranches(words: &[&Word]) -> (r: Vec<Tranche>)
    requires
        tranches_sorted(words@),
    ensures
        strictly_increasing(r@),
        forall|t: Tranche| r@.contains(t) <==> has_tranche(words@, t),
{
    let mut r: Vec<Tranche> = Vec::new();
    let mut k: usize = 0;
    while k < words.len()
        invariant
            k <= words@.len(),
            tranches_sorted(words@),
            strictly_increasing(r@),
            k == 0 <==> r@.len() == 0,
            k > 0 ==> r@.last() == words@[k - 1].tranche,
            forall|t: Tranche| r@.contains(t) <==> exists|j: int| 0 <= j < k && (#[trigger] words@[j]).tranche == t,
        decreases words@.len() - k,
    {
        let t = words[k].tranche;
        let ghost before = r@;
        if r.len() == 0 || r[r.len() - 1] != t {
            proof {
                if k > 0 {
                    assert(words@[k - 1].tranche <= words@[k as int].tranche);
                }
            }
            r.push(t);
            proof {
                assert forall|u: Tranche| r@.contains(u) <==> exists|j: int| 0 <= j < k + 1 && (#[trigger] words@[j]).tranche == u by {
                    if r@.contains(u) && u != t {
                        let i = choose|i: int| 0 <= i < r@.len() && r@[i] == u;
                        assert(before[i] == u);
                        assert(before.contains(u));
                    }
                    if exists|j: int| 0 <= j < k + 1 && (#[trigger] words@[j]).tranche == u {
                        if u != t {
                            let j = choose|j: int| 0 <= j < k + 1 && (#[trigger] words@[j]).tranche == u;
                            assert(j < k);
                            assert(before.contains(u));
                            let i = choose|i: int| 0 <= i < before.len() && before[i] == u;
                            assert(r@[i] == u);
                        } else {
                            assert(r@[r@.len() - 1] == u);
                        }
                    }
                }
            }
        } else {
            proof {
                assert forall|u: Tranche| r@.contains(u) <==> exists|j: int| 0 <= j < k + 1 && (#[trigger] words@[j]).tranche == u by {
                    if u == t {
                        assert(words@[k - 1].tranche == u);
                    }
                }
            }
        }
        k += 1;
    }
    proof {
        assert forall|t: Tranche| r@.contains(t) <==> has_tranche(words@, t) by {
            if has_tranche(words@, t) {
                let j = choose|j: int| 0 <= j < words@.len() && (#[trigger] words@[j]).tranche == t;
                assert(exists|j: int| 0 <= j < k && (#[trigger] words@[j]).tranche == t);
            }
        }
    }
    r
}

/// The search phases for phrases of 2 to `limit` words: for each length in turn,
/// one phase for each tranche, with no size yet.
pub open spec fn phases_upto(limit: int, tranches: Seq<Tranche>) -> Seq<SearchPhase>
    decreases limit,
{
    if limit < 2 {
        Seq::empty()
    } else {
        phases_upto(limit - 1, tranches) + Seq::new(
            tranches.len(),
            |k: int| SearchPhase { depth: limit as usize, tranche: tranches[k], total_size: 0 },
        )
    }
}

/// The search phases for phrases of 2 to `search_depth_limit` words (see
/// `phases_upto`).
pub fn search_queue(search_depth_limit: usize, tranches: &[Tranche]) -> (r: Vec<SearchPhase>)
    ensures
        r@ == phases_upto(search_depth_limit as int, tranches@),
{
    let mut r: Vec<SearchPhase> = Vec::new();
    let mut d: usize = 1;
    while d < search_depth_limit
        invariant
            1 <= d <= search_depth_limit || (d == 1 && search_depth_limit < 1),
            r@ == phases_upto(d as int, tranches@),
        decreases search_depth_limit - d,
    {
        d += 1;
        let ghost start = r@;
        let mut k: usize = 0;
        while k < tranches.len()
            invariant
                k <= tranches@.len(),
                r@ == start + Seq::new(
                    k as nat,
                    |i: int| SearchPhase { depth: d, tranche: tranches@[i], total_size: 0 },
                ),
            decreases tranches@.len() - k,
        {
            r.push(SearchPhase { depth: d, tranche: tranches[k], total_size: 0 });
            proof {
                assert(r@ =~= start + Seq::new(
                    (k + 1) as nat,
                    |i: int| SearchPhase { depth: d, tranche: tranches@[i], total_size: 0 },
                ));
            }
            k += 1;
        }
        proof {
            assert(r@ =~= phases_upto(d as int, tranches@));
        }
    }
    proof {
        if search_depth_limit < 2 {
            assert(r@ =~= phases_upto(search_depth_limit as int, tranches@));
        }
    }
    r
}

/// The number of words of `ws` of tranche `t`.
pub open spec fn count_of_tranche(ws: Seq<&Word>, t: int) -> nat
    decreases ws.len(),
{
    if ws.len() == 0 {
        0
    } else {
        count_of_tranche(ws.drop_last(), t) + if ws.last().tranche == t {
            1nat
        } else {
            0nat
        }
    }
}

/// The number of words of `ws` of tranche `t` or lower.
pub open spec fn count_upto_tranche(ws: Seq<&Word>, t: int) -> nat
    decreases ws.len(),
{
    if ws.len() == 0 {
        0
    } else {
        count_upto_tranche(ws.drop_last(), t) + if ws.last().tranche <= t {
            1nat
        } else {
            0nat
        }
    }
}

/// `b` to the power `e`.
pub open spec fn power(b: int, e: nat) -> int
    decreases e,
{
    if e == 0 {
        1
    } else {
        b * power(b, (e - 1) as nat)
    }
}

/// `v`, or `u64::MAX` where it is larger.
pub open spec fn saturated(v: int) -> u64 {
    if v > u64::MAX {
        u64::MAX
    } else {
        v as u64
    }
}

/// The estimated size of a phase over the words `ws`: none where no word is of its
/// tranche, and otherwise the number of words of its tranche or lower to the power
/// of its depth (taken as a `u32`), saturated.
pub open spec fn phase_size(ws: Seq<&Word>, p: SearchPhase) -> u64 {
    if count_of_tranche(ws, p.tranche as int) == 0 {
        0
    } else {
        saturated(power(count_upto_tranche(ws, p.tranche as int) as int, (p.depth as u32) as nat))
    }
}

proof fn lemma_count_upto_step(ws: Seq<&Word>, t: int)
    ensures
        count_upto_tranche(ws, t) == count_upto_tranche(ws, t - 1) + count_of_tranche(ws, t),
    decreases ws.len(),
{
    if ws.len() > 0 {
        lemma_count_upto_step(ws.drop_last(), t);
    }
}

proof fn lemma_count_upto_start(ws: Seq<&Word>)
    ensures
        count_upto_tranche(ws, -1) == 0,
        count_upto_tranche(ws, 255) == ws.len(),
        count_of_tranche(ws, 0) <= ws.len(),
    decreases ws.len(),
{
    if ws.len() > 0 {
        lemma_count_upto_start(ws.drop_last());
    }
}

proof fn lemma_count_upto_bounded(ws: Seq<&Word>, t: int)
    ensures
        count_upto_tranche(ws, t) <= ws.len(),
    decreases ws.len(),
{
    if ws.len() > 0 {
        lemma_count_upto_bounded(ws.drop_last(), t);
    }
}

proof fn lemma_power_grows(b: int, e: nat)
    requires
        b >= 1,
    ensures
        power(b, e) >= 1,
        power(b, e + 1) >= power(b, e),
    decreases e,
{
    if e > 0 {
        lemma_power_grows(b, (e - 1) as nat);
    }
    assert(b * power(b, e) >= power(b, e)) by (nonlinear_arith)
        requires
            b >= 1,
            power(b, e) >= 1 || e > 0,
            e > 0 ==> power(b, e) == b * power(b, (e - 1) as nat),
            e > 0 ==> power(b, (e - 1) as nat) >= 1,
    ;
}

/// `b` to the power `e`, saturated at `u64::MAX`.
fn saturating_power(b: u64, e: u32) -> (r: u64)
    ensures
        r == saturated(power(b as int, e as nat)),
{
    let mut acc: u64 = 1;
    let mut full = false;
    let mut i: u32 = 0;
    while i < e
        invariant
            i <= e,
            full ==> power(b as int, i as nat) > u64::MAX && b >= 1,
            !full ==> acc == power(b as int, i as nat),
        decreases e - i,
    {
        let ghost p = power(b as int, i as nat);
        proof {
            if b >= 1 {
                lemma_power_grows(b as int, i as nat);
            }
            assert(power(b as int, (i + 1) as nat) == b * p);
        }
        if !full {
            match acc.checked_mul(b) {
                Some(v) => {
                    acc = v;
                    assert(p * b == b * p) by (nonlinear_arith);
                },
                None => {
                    full = true;
                    assert(b >= 1 && b * p > u64::MAX) by (nonlinear_arith)
                        requires
                            p * b > u64::MAX,
                            p <= u64::MAX,
                    ;
                },
            }
        }
        i += 1;
    }
    if full {
        u64::MAX
    } else {
        acc
    }
}

/// Sets the size of each phase over the words (see `phase_size`).
pub fn size_phases(queue: &mut Vec<SearchPhase>, words: &[&Word])
    ensures
        final(queue)@.len() == old(queue)@.len(),
        forall|i: int|
            0 <= i < final(queue)@.len() ==> #[trigger] final(queue)@[i] == (SearchPhase {
                total_size: phase_size(words@, old(queue)@[i]),
                ..old(queue)@[i]
            }),
{
    // the number of words of each tranche
    let mut counts: Vec<u64> = Vec::new();
    let mut t: usize = 0;
    while t < 256
        invariant
            t <= 256,
            counts@.len() == t,
            forall|u: int| 0 <= u < t ==> counts@[u] == 0,
        decreases 256 - t,
    {
        counts.push(0);
        t += 1;
    }
    let mut k: usize = 0;
    while k < words.len()
        invariant
            k <= words@.len(),
            counts@.len() == 256,
            forall|u: int| 0 <= u < 256 ==> #[trigger] counts@[u] == count_of_tranche(words@.take(k as int), u),
        decreases words@.len() - k,
    {
        let w = words[k].tranche as usize;
        proof {
            assert(words@.take(k + 1).drop_last() =~= words@.take(k as int));
            lemma_count_upto_start(words@.take(k as int));
            assert forall|u: int| 0 <= u < 256 implies count_of_tranche(words@.take(k as int), u) <= k by {
                lemma_count_upto_step(words@.take(k as int), u);
                lemma_count_upto_bounded(words@.take(k as int), u);
            }
            assert(counts@[w as int] <= k);
        }
        counts.set(w, counts[w] + 1);
        k += 1;
    }
    proof {
        assert(words@.take(words@.len() as int) =~= words@);
    }
    // the number of words of each tranche or lower
    let mut upto: Vec<u64> = Vec::new();
    let mut sum: u64 = 0;
    let n = words.len();
    let mut t: usize = 0;
    proof {
        lemma_count_upto_start(words@);
    }
    while t < 256
        invariant
            t <= 256,
            counts@.len() == 256,
            forall|u: int| 0 <= u < 256 ==> #[trigger] counts@[u] == count_of_tranche(words@, u),
            upto@.len() == t,
            n == words@.len(),
            sum == count_upto_tranche(words@, t - 1),
            forall|u: int| 0 <= u < t ==> #[trigger] upto@[u] == count_upto_tranche(words@, u),
        decreases 256 - t,
    {
        proof {
            lemma_count_upto_step(words@, t as int);
            lemma_count_upto_bounded(words@, t as int);
        }
        sum = sum + counts[t];
        upto.push(sum);
        t += 1;
    }
    let ghost before = queue@;
    let mut i: usize = 0;
    while i < queue.len()
        invariant
            i <= queue@.len(),
            queue@.len() == before.len(),
            counts@.len() == 256,
            upto@.len() == 256,
            forall|u: int| 0 <= u < 256 ==> #[trigger] counts@[u] == count_of_tranche(words@, u),
            forall|u: int| 0 <= u < 256 ==> #[trigger] upto@[u] == count_upto_tranche(words@, u),
            forall|j: int|
                0 <= j < i ==> #[trigger] queue@[j] == (SearchPhase { total_size: phase_size(words@, before[j]), ..before[j] }),
            forall|j: int| i <= j < queue@.len() ==> #[trigger] queue@[j] == before[j],
        decreases queue@.len() - i,
    {
        let p = queue[i];
        let tr = p.tranche as usize;
        let size = if counts[tr] == 0 {
            0
        } else {
            saturating_power(upto[tr], p.depth as u32)
        };
        queue.set(i, SearchPhase { total_size: size, ..p });
        i += 1;
    }
}

/// The phases of `s` whose size is not zero, in order.
pub open spec fn sized_phases(s: Seq<SearchPhase>) -> Seq<SearchPhase>
    decreases s.len(),
{
    if s.len() == 0 {
        Seq::empty()
    } else if s.last().total_size > 0 {
        sized_phases(s.drop_last()).push(s.last())
    } else {
        sized_phases(s.drop_last())
    }
}

/// `s` with `p` placed after the last phase no larger than it, from the end, that is
/// after every phase no larger than `p` where `s` is in order of size.
pub open spec fn insert_by_size(s: Seq<SearchPhase>, p: SearchPhase) -> Seq<SearchPhase>
    decreases s.len(),
{
    if s.len() == 0 || s.last().total_size <= p.total_size {
        s.push(p)
    } else {
        insert_by_size(s.drop_last(), p).push(s.last())
    }
}

/// `s` in order of size, phases of equal size in their order in `s`.
pub open spec fn by_size(s: Seq<SearchPhase>) -> Seq<SearchPhase>
    decreases s.len(),
{
    if s.len() == 0 {
        Seq::empty()
    } else {
        insert_by_size(by_size(s.drop_last()), s.last())
    }
}

/// The phases worth searching, smallest first: those whose size is not zero, in
/// order of size, phases of equal size in their order in `queue`.
pub fn order_phases(queue: Vec<SearchPhase>) -> (r: Vec<SearchPhase>)
    ensures
        r@ == by_size(sized_phases(queue@)),
{
    let mut r: Vec<SearchPhase> = Vec::new();
    let mut k: usize = 0;
    while k < queue.len()
        invariant
            k <= queue@.len(),
            r@ == by_size(sized_phases(queue@.take(k as int))),
        decreases queue@.len() - k,
    {
        let p = queue[k];
        proof {
            assert(queue@.take(k + 1).drop_last() =~= queue@.take(k as int));
            assert(queue@.take(k + 1).last() == p);
        }
        if p.total_size > 0 {
            let ghost s = r@;
            let mut j: usize = r.len();
            proof {
                assert(s.take(j as int) =~= s);
                assert(s.skip(j as int) =~= Seq::<SearchPhase>::empty());
                assert(insert_by_size(s, p) =~= insert_by_size(s.take(j as int), p) + s.skip(j as int));
            }
            while j > 0 && r[j - 1].total_size > p.total_size
                invariant
                    r@ == s,
                    j <= s.len(),
                    insert_by_size(s, p) == insert_by_size(s.take(j as int), p) + s.skip(j as int),
                decreases j,
            {
                proof {
                    let t = s.take(j as int);
                    assert(t.drop_last() =~= s.take(j - 1));
                    assert(t.last() == s[j - 1]);
                    assert(insert_by_size(t, p) == insert_by_size(s.take(j - 1), p).push(s[j - 1]));
                    assert(s.skip(j - 1) =~= seq![s[j - 1]] + s.skip(j as int));
                    assert(insert_by_size(s.take(j - 1), p).push(s[j - 1]) + s.skip(j as int) =~= insert_by_size(
                        s.take(j - 1),
                        p,
                    ) + s.skip(j - 1));
                }
                j -= 1;
            }
            proof {
                let t = s.take(j as int);
                if j > 0 {
                    assert(t.last() == s[j - 1]);
                }
                assert(insert_by_size(t, p) == t.push(p));
            }
            r.insert(j, p);
            proof {
                assert(r@ =~= s.take(j as int).push(p) + s.skip(j as int));
                assert(r@ =~= insert_by_size(s, p));
                let x = sized_phases(queue@.take(k as int));
                assert(sized_phases(queue@.take(k + 1)) == x.push(p));
                assert(x.push(p).drop_last() =~= x);
                assert(by_size(x.push(p)) == insert_by_size(by_size(x), p));
            }
        } else {
            assert(sized_phases(queue@.take(k + 1)) == sized_phases(queue@.take(k as int)));
        }
        k += 1;
    }
    proof {
        assert(queue@.take(queue@.len() as int) =~= queue@);
    }
    r
}

/// Every phase of `s` looks for phrases of `lo` to `hi` words.
pub open spec fn depths_within(s: Seq<SearchPhase>, lo: int, hi: int) -> bool {
    forall|i: int| 0 <= i < s.len() ==> lo <= (#[trigger] s[i]).depth <= hi
}

/// The phases of `phases_upto(limit, ts)` look for phrases of 2 to `limit` words.
pub proof fn lemma_phases_upto_within(limit: int, ts: Seq<Tranche>)
    requires
        limit <= usize::MAX,
    ensures
        depths_within(phases_upto(limit, ts), 2, limit),
    decreases limit,
{
    if limit >= 2 {
        lemma_phases_upto_within(limit - 1, ts);
        let a = phases_upto(limit - 1, ts);
        let b = Seq::new(ts.len(), |k: int| SearchPhase { depth: limit as usize, tranche: ts[k], total_size: 0 });
        assert forall|i: int| 0 <= i < (a + b).len() implies 2 <= (#[trigger] (a + b)[i]).depth <= limit by {
            if i >= a.len() {
                assert((a + b)[i] == b[i - a.len()]);
            } else {
                assert((a + b)[i] == a[i]);
            }
        }
    }
}

/// Keeping the phases that have a size, and ordering them by size, keeps the number
/// of words each looks for within the same bounds.
pub proof fn lemma_ordered_within(s: Seq<SearchPhase>, lo: int, hi: int)
    requires
        depths_within(s, lo, hi),
    ensures
        depths_within(by_size(sized_phases(s)), lo, hi),
{
    lemma_sized_within(s, lo, hi);
    lemma_by_size_within(sized_phases(s), lo, hi);
}

proof fn lemma_sized_within(s: Seq<SearchPhase>, lo: int, hi: int)
    requires
        depths_within(s, lo, hi),
    ensures
        depths_within(sized_phases(s), lo, hi),
    decreases s.len(),
{
    if s.len() > 0 {
        lemma_sized_within(s.drop_last(), lo, hi);
    }
}

proof fn lemma_insert_within(s: Seq<SearchPhase>, p: SearchPhase, lo: int, hi: int)
    requires
        depths_within(s, lo, hi),
        lo <= p.depth <= hi,
    ensures
        depths_within(insert_by_size(s, p), lo, hi),
    decreases s.len(),
{
    if s.len() > 0 && s.last().total_size > p.total_size {
        lemma_insert_within(s.drop_last(), p, lo, hi);
    }
}

proof fn lemma_by_size_within(s: Seq<SearchPhase>, lo: int, hi: int)
    requires
        depths_within(s, lo, hi),
    ensures
        depths_within(by_size(s), lo, hi),
    decreases s.len(),
{
    if s.len() > 0 {
        lemma_by_size_within(s.drop_last(), lo, hi);
        lemma_insert_within(by_size(s.drop_last()), s.last(), lo, hi);
    }
}

} // verus!
