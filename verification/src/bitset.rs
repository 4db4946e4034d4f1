//! Fixed-size bitsets, laid out as rows of 64-bit blocks.
//!
//! A `BitSet<Idx>` holds `idx.total_size()` rows; each row is a set of small
//! integers (states, in the NFA code) and is `row_len()` blocks long.
//! `Idx` selects the shape: `()` is a single row, `usize` a list of rows and
//! `(usize, usize)` a table of rows.
use std::ops::Range;
use vstd::prelude::*;

verus! {

const BLOCK_BITS: usize = 64;

// ---------------------------------------------------------------------------
// The model: a sequence of blocks is a set of bit positions.

/// Bit `j` (from the least significant end) of `block`.
pub open spec fn bit_of(block: u64, j: u64) -> bool {
    (block >> j) & 1u64 == 1u64
}

/// Position `i` is set in the blocks (bit `i % 64` of block `i / 64`).
pub open spec fn has_bit(blocks: Seq<u64>, i: int) -> bool {
    0 <= i < blocks.len() * 64 && bit_of(blocks[i / 64], (i % 64) as u64)
}

/// The set of positions that are set in `blocks`.
pub open spec fn bits(blocks: Seq<u64>) -> Set<int> {
    Set::new(|i: int| has_bit(blocks, i))
}

proof fn lemma_bit_or(x: u64, y: u64, j: u64)
    requires
        j < 64,
    ensures
        bit_of(x | y, j) == (bit_of(x, j) || bit_of(y, j)),
{
    assert(((x | y) >> j) & 1u64 == 1u64 <==> ((x >> j) & 1u64 == 1u64 || (y >> j) & 1u64 == 1u64))
        by (bit_vector);
}

proof fn lemma_bit_and(x: u64, y: u64, j: u64)
    requires
        j < 64,
    ensures
        bit_of(x & y, j) == (bit_of(x, j) && bit_of(y, j)),
{
    assert(((x & y) >> j) & 1u64 == 1u64 <==> ((x >> j) & 1u64 == 1u64 && (y >> j) & 1u64 == 1u64))
        by (bit_vector);
}

proof fn lemma_bit_and_not(x: u64, y: u64, j: u64)
    requires
        j < 64,
    ensures
        bit_of(x & !y, j) == (bit_of(x, j) && !bit_of(y, j)),
{
    assert(((x & !y) >> j) & 1u64 == 1u64 <==> ((x >> j) & 1u64 == 1u64 && (y >> j) & 1u64
        != 1u64)) by (bit_vector);
}

proof fn lemma_bit_xor(x: u64, y: u64, j: u64)
    requires
        j < 64,
    ensures
        bit_of(x ^ y, j) == (bit_of(x, j) != bit_of(y, j)),
{
    assert(((x ^ y) >> j) & 1u64 == 1u64 <==> (((x >> j) & 1u64 == 1u64) != ((y >> j) & 1u64
        == 1u64))) by (bit_vector);
}

proof fn lemma_bit_single(s: u64, j: u64)
    requires
        j < 64,
        s < 64,
    ensures
        bit_of(1u64 << s, j) == (j == s),
{
    assert(((1u64 << s) >> j) & 1u64 == 1u64 <==> j == s) by (bit_vector)
        requires
            j < 64,
            s < 64,
    ;
}

proof fn lemma_bit_zero(j: u64)
    requires
        j < 64,
    ensures
        !bit_of(0u64, j),
{
    assert((0u64 >> j) & 1u64 != 1u64) by (bit_vector);
}

/// A nonzero block has a set bit.
proof fn lemma_block_nonzero(x: u64)
    requires
        x != 0,
    ensures
        exists|j: u64| j < 64 && #[trigger] bit_of(x, j),
{
    broadcast use vstd::std_specs::bits::axiom_u64_trailing_zeros;

    let t = x.trailing_zeros() as u64;
    assert(bit_of(x, t));
}

/// A block is zero exactly when none of its bits are set.
proof fn lemma_block_zero(x: u64)
    ensures
        (x == 0) <==> (forall|j: u64| j < 64 ==> !#[trigger] bit_of(x, j)),
{
    if x == 0 {
        assert forall|j: u64| j < 64 implies !#[trigger] bit_of(x, j) by {
            lemma_bit_zero(j);
        }
    } else {
        lemma_block_nonzero(x);
    }
}

/// Two blocks with the same bits are equal.
proof fn lemma_block_ext(x: u64, y: u64)
    requires
        forall|j: u64| j < 64 ==> #[trigger] bit_of(x, j) == bit_of(y, j),
    ensures
        x == y,
{
    let z = x ^ y;
    assert forall|j: u64| j < 64 implies !#[trigger] bit_of(z, j) by {
        lemma_bit_xor(x, y, j);
        assert(bit_of(x, j) == bit_of(y, j));
    }
    lemma_block_zero(z);
    assert(x ^ y == 0 ==> x == y) by (bit_vector);
}

/// `(x | y) == y` says that the bits of `x` are among those of `y`.
proof fn lemma_block_subset(x: u64, y: u64)
    ensures
        ((x | y) == y) <==> (forall|j: u64| j < 64 && #[trigger] bit_of(x, j) ==> bit_of(y, j)),
{
    if (x | y) == y {
        assert forall|j: u64| j < 64 && #[trigger] bit_of(x, j) implies bit_of(y, j) by {
            lemma_bit_or(x, y, j);
        }
    } else {
        let z = x & !y;
        assert((x | y) != y ==> (x & !y) != 0) by (bit_vector);
        lemma_block_nonzero(z);
        let j = choose|j: u64| j < 64 && #[trigger] bit_of(z, j);
        lemma_bit_and_not(x, y, j);
    }
}

/// The position of bit `j` of block `k`.
proof fn lemma_position(k: int, j: int)
    requires
        0 <= k,
        0 <= j < 64,
    ensures
        (k * 64 + j) / 64 == k,
        (k * 64 + j) % 64 == j,
{
}

/// `bits` is determined blockwise by `f` when each block of `c` relates
/// to those of `a` and `b` through `op`.
proof fn lemma_bits_union(a: Seq<u64>, b: Seq<u64>, c: Seq<u64>)
    requires
        a.len() == b.len() == c.len(),
        forall|k: int| 0 <= k < a.len() ==> #[trigger] c[k] == a[k] | b[k],
    ensures
        bits(c) == bits(a).union(bits(b)),
{
    assert forall|i: int| #[trigger] bits(c).contains(i) == bits(a).union(bits(b)).contains(i) by {
        if 0 <= i < c.len() * 64 {
            lemma_bit_or(a[i / 64], b[i / 64], (i % 64) as u64);
        }
    }
    assert(bits(c) =~= bits(a).union(bits(b)));
}

proof fn lemma_bits_difference(a: Seq<u64>, b: Seq<u64>, c: Seq<u64>)
    requires
        a.len() == b.len() == c.len(),
        forall|k: int| 0 <= k < a.len() ==> #[trigger] c[k] == a[k] & !b[k],
    ensures
        bits(c) == bits(a).difference(bits(b)),
{
    assert forall|i: int| #[trigger]
        bits(c).contains(i) == bits(a).difference(bits(b)).contains(i) by {
        if 0 <= i < c.len() * 64 {
            lemma_bit_and_not(a[i / 64], b[i / 64], (i % 64) as u64);
        }
    }
    assert(bits(c) =~= bits(a).difference(bits(b)));
}

proof fn lemma_bits_intersect(a: Seq<u64>, b: Seq<u64>, c: Seq<u64>)
    requires
        a.len() == b.len() == c.len(),
        forall|k: int| 0 <= k < a.len() ==> #[trigger] c[k] == a[k] & b[k],
    ensures
        bits(c) == bits(a).intersect(bits(b)),
{
    assert forall|i: int| #[trigger]
        bits(c).contains(i) == bits(a).intersect(bits(b)).contains(i) by {
        if 0 <= i < c.len() * 64 {
            lemma_bit_and(a[i / 64], b[i / 64], (i % 64) as u64);
        }
    }
    assert(bits(c) =~= bits(a).intersect(bits(b)));
}

/// All-zero blocks are exactly the empty set.
proof fn lemma_bits_empty(a: Seq<u64>)
    ensures
        (forall|k: int| 0 <= k < a.len() ==> #[trigger] a[k] == 0) <==> bits(a) == Set::<int>::empty(),
{
    if forall|k: int| 0 <= k < a.len() ==> #[trigger] a[k] == 0 {
        assert forall|i: int| !#[trigger] bits(a).contains(i) by {
            if 0 <= i < a.len() * 64 {
                lemma_bit_zero((i % 64) as u64);
            }
        }
        assert(bits(a) =~= Set::<int>::empty());
    } else {
        let k = choose|k: int| 0 <= k < a.len() && #[trigger] a[k] != 0;
        lemma_block_nonzero(a[k]);
        let j = choose|j: u64| j < 64 && #[trigger] bit_of(a[k], j);
        lemma_position(k, j as int);
        assert(bits(a).contains(k * 64 + j));
    }
}

/// Blocks of the same length are equal exactly when they hold the same set.
proof fn lemma_bits_ext(a: Seq<u64>, b: Seq<u64>)
    requires
        a.len() == b.len(),
    ensures
        (a == b) <==> (bits(a) == bits(b)),
{
    if bits(a) == bits(b) {
        assert forall|k: int| 0 <= k < a.len() implies #[trigger] a[k] == b[k] by {
            assert forall|j: u64| j < 64 implies #[trigger] bit_of(a[k], j) == bit_of(b[k], j) by {
                lemma_position(k, j as int);
                assert(bits(a).contains(k * 64 + j) == bits(b).contains(k * 64 + j));
            }
            lemma_block_ext(a[k], b[k]);
        }
        assert(a =~= b);
    }
}

/// Blockwise `(a | b) == b` is set inclusion.
proof fn lemma_bits_subset(a: Seq<u64>, b: Seq<u64>)
    requires
        a.len() == b.len(),
    ensures
        (forall|k: int| 0 <= k < a.len() ==> #[trigger] (a[k] | b[k]) == b[k]) <==> bits(
            a,
        ).subset_of(bits(b)),
{
    if forall|k: int| 0 <= k < a.len() ==> #[trigger] (a[k] | b[k]) == b[k] {
        assert forall|i: int| bits(a).contains(i) implies bits(b).contains(i) by {
            let k = i / 64;
            lemma_block_subset(a[k], b[k]);
            assert((a[k] | b[k]) == b[k]);
        }
    } else {
        let k = choose|k: int| 0 <= k < a.len() && #[trigger] (a[k] | b[k]) != b[k];
        lemma_block_subset(a[k], b[k]);
        let j = choose|j: u64| j < 64 && #[trigger] bit_of(a[k], j) && !bit_of(b[k], j);
        lemma_position(k, j as int);
        assert(bits(a).contains(k * 64 + j));
    }
}

/// Setting or clearing one bit of one block.
proof fn lemma_bits_update(a: Seq<u64>, i: int, v: u64, set: bool)
    requires
        0 <= i < a.len() * 64,
        set ==> v == a[i / 64] | (1u64 << ((i % 64) as u64)),
        !set ==> v == a[i / 64] & !(1u64 << ((i % 64) as u64)),
    ensures
        set ==> bits(a.update(i / 64, v)) == bits(a).insert(i),
        !set ==> bits(a.update(i / 64, v)) == bits(a).remove(i),
{
    let c = a.update(i / 64, v);
    let s = (i % 64) as u64;
    let x = a[i / 64];
    assert forall|p: int| #[trigger] bits(c).contains(p) == (if set {
        bits(a).insert(i)
    } else {
        bits(a).remove(i)
    }).contains(p) by {
        if 0 <= p < a.len() * 64 {
            let j = (p % 64) as u64;
            if p / 64 == i / 64 {
                lemma_bit_single(s, j);
                if set {
                    lemma_bit_or(x, 1u64 << s, j);
                } else {
                    lemma_bit_and_not(x, 1u64 << s, j);
                }
            }
        }
    }
    if set {
        assert(bits(c) =~= bits(a).insert(i));
    } else {
        assert(bits(c) =~= bits(a).remove(i));
    }
}

/// Every set position lies below the capacity, so the set is finite.
pub proof fn lemma_bits_finite(a: Seq<u64>)
    ensures
        bits(a).finite(),
        forall|i: int| #[trigger] bits(a).contains(i) ==> 0 <= i < a.len() * 64,
{
    let r = Set::new(|i: int| 0 <= i < a.len() * 64);
    assert(r =~= vstd::set_lib::set_int_range(0, (a.len() * 64) as int));
    vstd::set_lib::lemma_int_range(0, (a.len() * 64) as int);
    assert(bits(a).subset_of(r));
    vstd::set_lib::lemma_len_subset(bits(a), r);
}

proof fn lemma_bits_subrange(a: Seq<u64>, lo: int, hi: int, i: int)
    requires
        0 <= lo <= hi <= a.len(),
        0 <= i < (hi - lo) * 64,
    ensures
        bits(a.subrange(lo, hi)).contains(i) == bits(a).contains(lo * 64 + i),
{
    assert((lo * 64 + i) / 64 == lo + i / 64);
    assert((lo * 64 + i) % 64 == i % 64);
}

// ---------------------------------------------------------------------------
// Operations on raw block slices.

fn div_rem(x: usize, d: usize) -> (r: (usize, usize))
    requires
        d > 0,
    ensures
        r.0 == x / d,
        r.1 == x % d,
{
    (x / d, x % d)
}

fn blocks_is_empty(blocks: &[u64]) -> (r: bool)
    ensures
        r == (bits(blocks@) == Set::<int>::empty()),
{
    proof {
        lemma_bits_empty(blocks@);
    }
    let mut i: usize = 0;
    while i < blocks.len()
        invariant
            0 <= i <= blocks@.len(),
            forall|k: int| 0 <= k < i ==> #[trigger] blocks@[k] == 0,
        decreases blocks@.len() - i,
    {
        if blocks[i] != 0 {
            assert(blocks@[i as int] != 0);
            proof {
                lemma_bits_empty(blocks@);
            }
            return false;
        }
        i += 1;
    }
    true
}

fn blocks_contains(blocks: &[u64], index: usize) -> (r: bool)
    ensures
        r == bits(blocks@).contains(index as int),
{
    let (block, bit) = div_rem(index, BLOCK_BITS);
    if block >= blocks.len() {
        return false;
    }
    let b = blocks[block];
    proof {
        let s = bit as u64;
        assert((b & (1u64 << s)) != 0 <==> (b >> s) & 1u64 == 1u64) by (bit_vector)
            requires
                s < 64,
        ;
    }
    b & (1u64 << bit) != 0
}

fn blocks_is_subset(a: &[u64], b: &[u64]) -> (r: bool)
    requires
        a@.len() == b@.len(),
    ensures
        r == bits(a@).subset_of(bits(b@)),
{
    proof {
        lemma_bits_subset(a@, b@);
    }
    let mut i: usize = 0;
    while i < a.len()
        invariant
            0 <= i <= a@.len(),
            a@.len() == b@.len(),
            forall|k: int| 0 <= k < i ==> #[trigger] (a@[k] | b@[k]) == b@[k],
        decreases a@.len() - i,
    {
        if (a[i] | b[i]) != b[i] {
            assert((a@[i as int] | b@[i as int]) != b@[i as int]);
            proof {
                lemma_bits_subset(a@, b@);
            }
            return false;
        }
        i += 1;
    }
    true
}

fn blocks_equal(a: &[u64], b: &[u64]) -> (r: bool)
    requires
        a@.len() == b@.len(),
    ensures
        r == (bits(a@) == bits(b@)),
        r == (a@ == b@),
{
    proof {
        lemma_bits_ext(a@, b@);
    }
    let mut i: usize = 0;
    while i < a.len()
        invariant
            0 <= i <= a@.len(),
            a@.len() == b@.len(),
            forall|k: int| 0 <= k < i ==> #[trigger] a@[k] == b@[k],
        decreases a@.len() - i,
    {
        if a[i] != b[i] {
            assert(a@[i as int] != b@[i as int]);
            proof {
                lemma_bits_ext(a@, b@);
            }
            return false;
        }
        i += 1;
    }
    assert(a@ =~= b@);
    true
}

fn blocks_clear(blocks: &mut [u64])
    ensures
        final(blocks)@.len() == old(blocks)@.len(),
        bits(final(blocks)@) == Set::<int>::empty(),
{
    let mut i: usize = 0;
    while i < blocks.len()
        invariant
            0 <= i <= blocks@.len(),
            blocks@.len() == old(blocks)@.len(),
            forall|k: int| 0 <= k < i ==> #[trigger] blocks@[k] == 0,
        decreases blocks@.len() - i,
    {
        blocks[i] = 0;
        i += 1;
    }
    proof {
        lemma_bits_empty(blocks@);
    }
}

fn blocks_insert(blocks: &mut [u64], index: usize)
    requires
        (index as int) < old(blocks)@.len() * 64,
    ensures
        final(blocks)@.len() == old(blocks)@.len(),
        bits(final(blocks)@) == bits(old(blocks)@).insert(index as int),
{
    let (block, bit) = div_rem(index, BLOCK_BITS);
    let v = blocks[block] | (1u64 << bit);
    proof {
        lemma_bits_update(blocks@, index as int, v, true);
    }
    blocks[block] = v;
}

fn blocks_remove(blocks: &mut [u64], index: usize)
    requires
        (index as int) < old(blocks)@.len() * 64,
    ensures
        final(blocks)@.len() == old(blocks)@.len(),
        bits(final(blocks)@) == bits(old(blocks)@).remove(index as int),
{
    let (block, bit) = div_rem(index, BLOCK_BITS);
    let v = blocks[block] & !(1u64 << bit);
    proof {
        lemma_bits_update(blocks@, index as int, v, false);
    }
    blocks[block] = v;
}

fn blocks_union_with(blocks: &mut [u64], other: &[u64])
    requires
        old(blocks)@.len() == other@.len(),
    ensures
        final(blocks)@.len() == old(blocks)@.len(),
        bits(final(blocks)@) == bits(old(blocks)@).union(bits(other@)),
{
    let ghost a = blocks@;
    let mut i: usize = 0;
    while i < blocks.len()
        invariant
            0 <= i <= blocks@.len(),
            blocks@.len() == a.len() == other@.len(),
            forall|k: int| 0 <= k < i ==> #[trigger] blocks@[k] == a[k] | other@[k],
            forall|k: int| i <= k < a.len() ==> #[trigger] blocks@[k] == a[k],
        decreases blocks@.len() - i,
    {
        let v = blocks[i] | other[i];
        blocks[i] = v;
        i += 1;
    }
    proof {
        lemma_bits_union(a, other@, blocks@);
    }
}

fn blocks_difference_with(blocks: &mut [u64], other: &[u64])
    requires
        old(blocks)@.len() == other@.len(),
    ensures
        final(blocks)@.len() == old(blocks)@.len(),
        bits(final(blocks)@) == bits(old(blocks)@).difference(bits(other@)),
{
    let ghost a = blocks@;
    let mut i: usize = 0;
    while i < blocks.len()
        invariant
            0 <= i <= blocks@.len(),
            blocks@.len() == a.len() == other@.len(),
            forall|k: int| 0 <= k < i ==> #[trigger] blocks@[k] == a[k] & !other@[k],
            forall|k: int| i <= k < a.len() ==> #[trigger] blocks@[k] == a[k],
        decreases blocks@.len() - i,
    {
        let v = blocks[i] & !other[i];
        blocks[i] = v;
        i += 1;
    }
    proof {
        lemma_bits_difference(a, other@, blocks@);
    }
}

fn blocks_intersect_with(blocks: &mut [u64], other: &[u64])
    requires
        old(blocks)@.len() == other@.len(),
    ensures
        final(blocks)@.len() == old(blocks)@.len(),
        bits(final(blocks)@) == bits(old(blocks)@).intersect(bits(other@)),
{
    let ghost a = blocks@;
    let mut i: usize = 0;
    while i < blocks.len()
        invariant
            0 <= i <= blocks@.len(),
            blocks@.len() == a.len() == other@.len(),
            forall|k: int| 0 <= k < i ==> #[trigger] blocks@[k] == a[k] & other@[k],
            forall|k: int| i <= k < a.len() ==> #[trigger] blocks@[k] == a[k],
        decreases blocks@.len() - i,
    {
        let v = blocks[i] & other[i];
        blocks[i] = v;
        i += 1;
    }
    proof {
        lemma_bits_intersect(a, other@, blocks@);
    }
}

fn blocks_copy_from(blocks: &mut [u64], other: &[u64])
    requires
        old(blocks)@.len() == other@.len(),
    ensures
        final(blocks)@ == other@,
{
    let mut i: usize = 0;
    while i < blocks.len()
        invariant
            0 <= i <= blocks@.len(),
            blocks@.len() == other@.len(),
            forall|k: int| 0 <= k < i ==> #[trigger] blocks@[k] == other@[k],
        decreases blocks@.len() - i,
    {
        blocks[i] = other[i];
        i += 1;
    }
    assert(blocks@ =~= other@);
}

} // verus!

verus! {

// ---------------------------------------------------------------------------
// Shapes.

/// The shape of a `BitSet`: how many rows it holds and how a sub-index picks one.
pub trait Index: Sized {
    /// The number of rows a set of this shape holds.
    spec fn spec_total_size(&self) -> int;

    /// Whether `sub` names a row of this shape.
    spec fn spec_in_bounds(&self, sub: Self) -> bool;

    /// The position of row `sub` among all the rows, in row-major order.
    spec fn spec_row(&self, sub: Self) -> int;

    proof fn lemma_shape(&self, sub: Self)
        ensures
            0 <= self.spec_total_size(),
            self.spec_in_bounds(sub) ==> 0 <= self.spec_row(sub) < self.spec_total_size(),
    ;

    /// The number of rows.
    fn total_size(&self) -> (r: usize)
        requires
            self.spec_total_size() <= usize::MAX,
        ensures
            r == self.spec_total_size(),
    ;

    /// The range of row positions that `sub` selects (one row).
    fn slice(&self, sub: Self) -> (r: Range<usize>)
        requires
            self.spec_in_bounds(sub),
            self.spec_total_size() <= usize::MAX,
        ensures
            r.start == self.spec_row(sub),
            r.end == r.start + 1,
    ;
}

impl Index for () {
    open spec fn spec_total_size(&self) -> int {
        1
    }

    open spec fn spec_in_bounds(&self, sub: Self) -> bool {
        true
    }

    open spec fn spec_row(&self, sub: Self) -> int {
        0
    }

    proof fn lemma_shape(&self, sub: Self) {
    }

    fn total_size(&self) -> (r: usize) {
        1
    }

    fn slice(&self, _sub: Self) -> (r: Range<usize>) {
        0..1
    }
}

impl Index for usize {
    open spec fn spec_total_size(&self) -> int {
        *self as int
    }

    open spec fn spec_in_bounds(&self, sub: Self) -> bool {
        sub < *self
    }

    open spec fn spec_row(&self, sub: Self) -> int {
        sub as int
    }

    proof fn lemma_shape(&self, sub: Self) {
    }

    fn total_size(&self) -> (r: usize) {
        *self
    }

    fn slice(&self, sub: Self) -> (r: Range<usize>) {
        sub..sub + 1
    }
}

proof fn lemma_row_major(i: int, j: int, a: int, b: int) by (nonlinear_arith)
    requires
        0 <= i < a,
        0 <= j < b,
    ensures
        0 <= i * b + j < a * b,
        0 <= a * b,
{
}

impl Index for (usize, usize) {
    open spec fn spec_total_size(&self) -> int {
        self.0 * self.1
    }

    open spec fn spec_in_bounds(&self, sub: Self) -> bool {
        sub.0 < self.0 && sub.1 < self.1
    }

    open spec fn spec_row(&self, sub: Self) -> int {
        sub.0 * self.1 + sub.1
    }

    proof fn lemma_shape(&self, sub: Self) {
        assert(0 <= self.0 * self.1) by (nonlinear_arith);
        if self.spec_in_bounds(sub) {
            lemma_row_major(sub.0 as int, sub.1 as int, self.0 as int, self.1 as int);
        }
    }

    fn total_size(&self) -> (r: usize) {
        self.0 * self.1
    }

    fn slice(&self, sub: Self) -> (r: Range<usize>) {
        proof {
            lemma_row_major(sub.0 as int, sub.1 as int, self.0 as int, self.1 as int);
        }
        let start = sub.0 * self.1 + sub.1;
        start..start + 1
    }
}

// ---------------------------------------------------------------------------
// Rows of a block sequence.

/// The blocks of row `r`, when each row is `rb` blocks long.
pub open spec fn row_blocks(blocks: Seq<u64>, rb: int, r: int) -> Seq<u64> {
    blocks.subrange(r * rb, r * rb + rb)
}

/// The set held in row `r`.
pub open spec fn row_set(blocks: Seq<u64>, rb: int, r: int) -> Set<int> {
    bits(row_blocks(blocks, rb, r))
}

proof fn lemma_row_in_range(r: int, t: int, rb: int) by (nonlinear_arith)
    requires
        0 <= r < t,
        0 <= rb,
    ensures
        0 <= r * rb,
        r * rb + rb <= t * rb,
{
}

/// Shape bookkeeping shared by owned and borrowed sets.
pub open spec fn shape_wf<Idx: Index>(len: int, size: Idx, rb: int) -> bool {
    &&& 0 <= size.spec_total_size() <= usize::MAX
    &&& 0 <= rb
    &&& len == size.spec_total_size() * rb
    &&& len * 64 <= usize::MAX
}

proof fn lemma_row_of<Idx: Index>(len: int, size: Idx, rb: int, sub: Idx)
    requires
        shape_wf(len, size, rb),
        size.spec_in_bounds(sub),
    ensures
        0 <= size.spec_row(sub) * rb,
        size.spec_row(sub) * rb + rb <= len,
{
    size.lemma_shape(sub);
    lemma_row_in_range(size.spec_row(sub), size.spec_total_size(), rb);
}

// ---------------------------------------------------------------------------
// Owned sets.

/// A rectangular array of bitsets, each row `row_len()` blocks long.
#[derive(Hash, PartialEq, Eq)]
pub struct BitSet<Idx: Index> {
    blocks: Vec<u64>,
    size: Idx,
    row_blocks: usize,
}

/// One set.
pub type BitSet1D = BitSet<()>;

/// A list of sets.
pub type BitSet2D = BitSet<usize>;

/// A table of sets.
pub type BitSet3D = BitSet<(usize, usize)>;

/// A borrowed, read-only view of some rows of a `BitSet`.
#[derive(Copy, Clone)]
pub struct BitSetRef<'a, Idx: Index> {
    blocks: &'a [u64],
    size: Idx,
    row_blocks: usize,
}

pub type BitSetRef1D<'a> = BitSetRef<'a, ()>;

pub type BitSetRef2D<'a> = BitSetRef<'a, usize>;

pub type BitSetRef3D<'a> = BitSetRef<'a, (usize, usize)>;

/// A borrowed, writable view of some rows of a `BitSet`.
///
/// Its fields are public so that contracts can relate the blocks
/// it ends with to the set it was borrowed from.
pub struct BitSetRefMut<'a, Idx: Index> {
    pub blocks: &'a mut [u64],
    pub size: Idx,
    pub row_blocks: usize,
}

pub type BitSetRefMut1D<'a> = BitSetRefMut<'a, ()>;

pub type BitSetRefMut2D<'a> = BitSetRefMut<'a, usize>;

pub type BitSetRefMut3D<'a> = BitSetRefMut<'a, (usize, usize)>;

/// The set positions of some blocks, lowest first.
pub struct Ones<'a> {
    block: u64,
    offset: usize,
    remaining_blocks: &'a [u64],
}

impl<Idx: Index> View for BitSet<Idx> {
    type V = Set<int>;

    /// All set positions, rows laid end to end.
    closed spec fn view(&self) -> Set<int> {
        bits(self.blocks@)
    }
}

impl<Idx: Index + Copy> BitSet<Idx> {
    pub closed spec fn blocks_view(&self) -> Seq<u64> {
        self.blocks@
    }

    /// The positions of every such set are the set bits of its blocks.
    pub proof fn lemma_views_are_bits()
        ensures
            forall|b: Self| #[trigger] b@ == bits(b.blocks_view()),
    {
    }

    pub closed spec fn shape(&self) -> Idx {
        self.size
    }

    /// Blocks per row.
    pub closed spec fn row_len(&self) -> int {
        self.row_blocks as int
    }

    /// How many positions a row can hold.
    pub open spec fn capacity(&self) -> int {
        self.row_len() * 64
    }

    pub closed spec fn wf(&self) -> bool {
        shape_wf(self.blocks@.len() as int, self.size, self.row_blocks as int)
    }

    pub open spec fn in_bounds(&self, sub: Idx) -> bool {
        self.shape().spec_in_bounds(sub)
    }

    /// The set held in row `sub`.
    pub closed spec fn row(&self, sub: Idx) -> Set<int> {
        row_set(self.blocks@, self.row_blocks as int, self.size.spec_row(sub))
    }

    /// Every row holds the empty set.
    pub open spec fn all_empty(&self) -> bool {
        forall|sub: Idx| self.in_bounds(sub) ==> #[trigger] self.row(sub) == Set::<int>::empty()
    }

    /// Same shape, and every row of `self` equals the same row of `other`.
    pub open spec fn same_rows(&self, other: &Self) -> bool {
        &&& self.shape() == other.shape()
        &&& self.row_len() == other.row_len()
        &&& forall|sub: Idx| self.in_bounds(sub) ==> #[trigger] self.row(sub) == other.row(sub)
    }

    /// The blocks outside row `index` are those of `other`.
    pub closed spec fn same_outside(&self, other: Self, index: Idx) -> bool {
        let lo = self.size.spec_row(index) * self.row_blocks;
        let hi = lo + self.row_blocks;
        &&& self.blocks@.len() == other.blocks@.len()
        &&& forall|k: int|
            0 <= k < self.blocks@.len() && !(lo <= k < hi) ==> #[trigger] self.blocks@[k]
                == other.blocks@[k]
    }

    /// When only row `index` changed, every other row is as it was.
    pub proof fn lemma_same_outside(&self, other: Self, index: Idx)
        requires
            self.wf(),
            other.wf(),
            self.shape() == other.shape(),
            self.row_len() == other.row_len(),
            self.in_bounds(index),
            self.same_outside(other, index),
        ensures
            forall|sub: Idx|
                self.in_bounds(sub) && self.shape().spec_row(sub) != self.shape().spec_row(index)
                    ==> #[trigger] self.row(sub) == other.row(sub),
    {
        let rb = self.row_blocks as int;
        let ri = self.size.spec_row(index);
        lemma_row_of(self.blocks@.len() as int, self.size, rb, index);
        assert forall|sub: Idx|
            self.in_bounds(sub) && self.shape().spec_row(sub) != ri implies #[trigger] self.row(sub)
            == other.row(sub) by {
            lemma_row_of(self.blocks@.len() as int, self.size, rb, sub);
            self.size.lemma_shape(sub);
            self.size.lemma_shape(index);
            let rs = self.size.spec_row(sub);
            lemma_rows_disjoint(rs, ri, rb);
            assert(row_blocks(self.blocks@, rb, rs) =~= row_blocks(other.blocks@, rb, rs));
        }
    }

    pub proof fn lemma_row_bounded(&self, sub: Idx)
        requires
            self.wf(),
            self.in_bounds(sub),
        ensures
            self.row(sub).finite(),
            forall|i: int| #[trigger] self.row(sub).contains(i) ==> 0 <= i < self.capacity(),
    {
        lemma_row_of(self.blocks@.len() as int, self.size, self.row_blocks as int, sub);
        lemma_bits_finite(row_blocks(self.blocks@, self.row_blocks as int, self.size.spec_row(sub)));
    }

    /// Create a set of the given shape, each row holding `inner_size` positions,
    /// with every row empty.
    pub fn new(outer_size: Idx, inner_size: usize) -> (r: Self)
        requires
            outer_size.spec_total_size() <= usize::MAX,
            0 <= outer_size.spec_total_size() * ((inner_size as int + 63) / 64) * 64 <= usize::MAX,
        ensures
            r.wf(),
            r.shape() == outer_size,
            r.row_len() == (inner_size as int + 63) / 64,
            r.capacity() >= inner_size,
            r.all_empty(),
            r@ == Set::<int>::empty(),
    {
        let (mut block_size, rem) = div_rem(inner_size, BLOCK_BITS);
        if rem > 0 {
            block_size += 1;
        }
        proof {
            outer_size.lemma_shape(outer_size);
            assert(0 <= outer_size.spec_total_size() * block_size) by (nonlinear_arith)
                requires
                    0 <= outer_size.spec_total_size(),
            ;
            assert(outer_size.spec_total_size() * block_size <= outer_size.spec_total_size()
                * block_size * 64) by (nonlinear_arith)
                requires
                    0 <= outer_size.spec_total_size() * block_size,
            ;
        }
        let blocks_count = outer_size.total_size();
        let blocks: Vec<u64> = vec![0; blocks_count * block_size];
        let r = Self { blocks, size: outer_size, row_blocks: block_size };
        proof {
            assert forall|k: int| 0 <= k < r.blocks@.len() implies #[trigger] r.blocks@[k] == 0 by {
            }
            lemma_bits_empty(r.blocks@);
            assert forall|sub: Idx| r.in_bounds(sub) implies #[trigger] r.row(sub)
                == Set::<int>::empty() by {
                lemma_row_of(r.blocks@.len() as int, r.size, block_size as int, sub);
                let rb = row_blocks(r.blocks@, block_size as int, r.size.spec_row(sub));
                assert forall|k: int| 0 <= k < rb.len() implies #[trigger] rb[k] == 0 by {
                }
                lemma_bits_empty(rb);
            }
        }
        r
    }

    /// Start of the blocks of row `sub`.
    fn row_start(&self, sub: Idx) -> (r: usize)
        requires
            self.wf(),
            self.in_bounds(sub),
        ensures
            r == self.size.spec_row(sub) * self.row_blocks,
            r + self.row_blocks <= self.blocks@.len(),
    {
        proof {
            lemma_row_of(self.blocks@.len() as int, self.size, self.row_blocks as int, sub);
        }
        let range = self.size.slice(sub);
        range.start * self.row_blocks
    }

    /// A read-only view of row `index`.
    pub fn slice(&self, index: Idx) -> (r: BitSetRef<'_, ()>)
        requires
            self.wf(),
            self.in_bounds(index),
        ensures
            r.wf(),
            r@ == self.row(index),
            r.row_len() == self.row_len(),
    {
        let start = self.row_start(index);
        let end = start + self.row_blocks;
        let blocks = &self.blocks.as_slice()[start..end];
        BitSetRef { blocks, size: (), row_blocks: self.row_blocks }
    }

    /// A writable view of row `index`.
    #[verifier::spinoff_prover]
    pub fn slice_mut(&mut self, index: Idx) -> (r: BitSetRefMut<'_, ()>)
        requires
            old(self).wf(),
            old(self).in_bounds(index),
        ensures
            r.wf(),
            r@ == old(self).row(index),
            r.row_blocks == old(self).row_len(),
            final(r.blocks)@.len() == r.blocks@.len() ==> final(self).blocks_view()
                == old(self).blocks_view().subrange(
                0,
                old(self).shape().spec_row(index) * old(self).row_len(),
            ) + (final(r.blocks)@ + old(self).blocks_view().subrange(
                old(self).shape().spec_row(index) * old(self).row_len() + old(self).row_len(),
                old(self).blocks_view().len() as int,
            )),
            final(r.blocks)@.len() == r.blocks@.len() ==> final(self).wf(),
            final(r.blocks)@.len() == r.blocks@.len() ==> final(self).shape() == old(self).shape(),
            final(r.blocks)@.len() == r.blocks@.len() ==> final(self).row_len() == old(
                self,
            ).row_len(),
            final(r.blocks)@.len() == r.blocks@.len() ==> final(self).row(index) == bits(
                final(r.blocks)@,
            ),
            final(r.blocks)@.len() == r.blocks@.len() ==> final(self).same_outside(
                *old(self),
                index,
            ),
    {
        let start = self.row_start(index);
        let rb = self.row_blocks;
        let size = self.size;
        let ghost old_blocks = self.blocks@;
        let all = self.blocks.as_mut_slice();
        let (_prefix, rest) = all.split_at_mut(start);
        let (row, _suffix) = rest.split_at_mut(rb);
        proof {
            assert(row@ =~= row_blocks(old_blocks, rb as int, size.spec_row(index)));
        }
        proof {
            lemma_row_of(old_blocks.len() as int, size, rb as int, index);
            lemma_splice_rows(
                old_blocks,
                old_blocks.subrange(0, start as int),
                old_blocks.subrange(start + rb, old_blocks.len() as int),
                size,
                rb as int,
                index,
            );
        }
        BitSetRefMut { blocks: row, size: (), row_blocks: rb }
    }
}

/// Replacing the blocks of one row leaves the other rows as they were.
proof fn lemma_splice_rows<Idx: Index>(
    blocks: Seq<u64>,
    pre: Seq<u64>,
    suf: Seq<u64>,
    size: Idx,
    rb: int,
    index: Idx,
)
    requires
        shape_wf(blocks.len() as int, size, rb),
        size.spec_in_bounds(index),
        pre == blocks.subrange(0, size.spec_row(index) * rb),
        suf == blocks.subrange(size.spec_row(index) * rb + rb, blocks.len() as int),
    ensures
        forall|fr: Seq<u64>|
            fr.len() == rb ==> shape_wf((pre + (fr + suf)).len() as int, size, rb) && #[trigger] row_set(
                pre + (fr + suf),
                rb,
                size.spec_row(index),
            ) == bits(fr),
{
    lemma_row_of(blocks.len() as int, size, rb, index);
    let ri = size.spec_row(index);
    assert forall|fr: Seq<u64>| fr.len() == rb implies shape_wf(
        (pre + (fr + suf)).len() as int,
        size,
        rb,
    ) && #[trigger] row_set(pre + (fr + suf), rb, ri) == bits(fr) by {
        assert(row_blocks(pre + (fr + suf), rb, ri) =~= fr);
    }
}

proof fn lemma_rows_disjoint(r1: int, r2: int, rb: int) by (nonlinear_arith)
    requires
        0 <= r1,
        0 <= r2,
        r1 != r2,
        0 <= rb,
    ensures
        r1 < r2 ==> r1 * rb + rb <= r2 * rb,
        r2 < r1 ==> r2 * rb + rb <= r1 * rb,
{
}

} // verus!

verus! {

impl<'a, Idx: Index> View for BitSetRef<'a, Idx> {
    type V = Set<int>;

    /// All set positions, rows laid end to end.
    closed spec fn view(&self) -> Set<int> {
        bits(self.blocks@)
    }
}

impl<'a, Idx: Index + Copy> BitSetRef<'a, Idx> {
    pub closed spec fn blocks_view(&self) -> Seq<u64> {
        self.blocks@
    }

    pub closed spec fn shape(&self) -> Idx {
        self.size
    }

    pub closed spec fn row_len(&self) -> int {
        self.row_blocks as int
    }

    pub open spec fn capacity(&self) -> int {
        self.row_len() * 64
    }

    pub closed spec fn wf(&self) -> bool {
        shape_wf(self.blocks@.len() as int, self.size, self.row_blocks as int)
    }

    pub open spec fn in_bounds(&self, sub: Idx) -> bool {
        self.shape().spec_in_bounds(sub)
    }

    pub closed spec fn row(&self, sub: Idx) -> Set<int> {
        row_set(self.blocks@, self.row_blocks as int, self.size.spec_row(sub))
    }

    pub proof fn lemma_bounded(&self)
        requires
            self.wf(),
        ensures
            self@.finite(),
            forall|i: int| #[trigger] self@.contains(i) ==> 0 <= i < self.blocks_view().len() * 64,
    {
        lemma_bits_finite(self.blocks@);
    }

    /// For a single row, the view is the row itself.
    pub proof fn lemma_single_row(&self)
        requires
            self.wf(),
            self.shape().spec_total_size() == 1,
            self.in_bounds(self.shape()),
            self.shape().spec_row(self.shape()) == 0,
        ensures
            self@ == self.row(self.shape()),
            self.blocks_view().len() == self.row_len(),
    {
        assert(self.blocks@.subrange(0, self.row_blocks as int) =~= self.blocks@);
    }

    /// Whether no position is set.
    pub fn is_empty(&self) -> (r: bool)
        ensures
            r == (self@ == Set::<int>::empty()),
    {
        blocks_is_empty(self.blocks)
    }

    /// Whether position `index` is set.
    pub fn contains(&self, index: usize) -> (r: bool)
        ensures
            r == self@.contains(index as int),
    {
        blocks_contains(self.blocks, index)
    }

    /// Whether every position set here is also set in `other`.
    pub fn is_subset(&self, other: &Self) -> (r: bool)
        requires
            self.blocks_view().len() == other.blocks_view().len(),
        ensures
            r == self@.subset_of(other@),
    {
        blocks_is_subset(self.blocks, other.blocks)
    }

    /// Whether both views hold the same positions.
    pub fn equals(&self, other: &Self) -> (r: bool)
        requires
            self.blocks_view().len() == other.blocks_view().len(),
        ensures
            r == (self@ == other@),
    {
        blocks_equal(self.blocks, other.blocks)
    }

    /// The set positions, lowest first; a set of no blocks has none.
    pub fn ones(&self) -> (r: Ones<'a>)
        requires
            self.wf(),
        ensures
            r.wf(),
            r@ == self@,
            self.blocks_view().len() == 0 ==> r@ == Set::<int>::empty(),
    {
        if self.blocks.len() == 0 {
            let r = Ones { block: 0, offset: 0, remaining_blocks: self.blocks };
            proof {
                lemma_ones_view(r.block, r.offset as int, r.remaining_blocks@);
                assert forall|i: int| !#[trigger] r@.contains(i) by {
                    if 0 <= i - r.offset < 64 {
                        lemma_bit_zero((i - r.offset) as u64);
                    }
                }
                assert(r@ =~= self@);
            }
            r
        } else {
            let r = Ones {
                block: self.blocks[0],
                offset: 0,
                remaining_blocks: &self.blocks[1..self.blocks.len()],
            };
            proof {
                lemma_ones_view(r.block, r.offset as int, r.remaining_blocks@);
                let b = self.blocks@;
                assert(r.remaining_blocks@ == b.subrange(1, b.len() as int));
                assert forall|i: int| #[trigger] r@.contains(i) == self@.contains(i) by {
                    if 64 <= i < b.len() * 64 {
                        lemma_bits_subrange(b, 1, b.len() as int, i - 64);
                        assert(1 * 64 + (i - 64) == i);
                    } else if 0 <= i < 64 {
                        assert(i / 64 == 0);
                        assert(i % 64 == i);
                        assert(!bits(r.remaining_blocks@).contains(i - 64));
                    } else {
                        assert(!has_bit(b, i));
                        assert(!bits(r.remaining_blocks@).contains(i - 64));
                    }
                }
                assert(r@ =~= self@);
            }
            r
        }
    }

    /// A read-only view of row `index`.
    pub fn slice(&self, index: Idx) -> (r: BitSetRef<'a, ()>)
        requires
            self.wf(),
            self.in_bounds(index),
        ensures
            r.wf(),
            r@ == self.row(index),
            r.row_len() == self.row_len(),
    {
        proof {
            lemma_row_of(self.blocks@.len() as int, self.size, self.row_blocks as int, index);
        }
        let range = self.size.slice(index);
        let start = range.start * self.row_blocks;
        let end = start + self.row_blocks;
        let blocks = &self.blocks[start..end];
        BitSetRef { blocks, size: (), row_blocks: self.row_blocks }
    }

    /// A copy of this single-row view as an owned set.
    pub fn to_bitset(&self) -> (r: BitSet<Idx>)
        requires
            self.wf(),
        ensures
            r.wf(),
            r@ == self@,
            r.blocks_view() == self.blocks_view(),
            r.shape() == self.shape(),
            r.row_len() == self.row_len(),
    {
        let mut blocks: Vec<u64> = Vec::new();
        let mut i: usize = 0;
        while i < self.blocks.len()
            invariant
                0 <= i <= self.blocks@.len(),
                blocks@ == self.blocks@.subrange(0, i as int),
            decreases self.blocks@.len() - i,
        {
            blocks.push(self.blocks[i]);
            i += 1;
        }
        assert(blocks@ =~= self.blocks@);
        BitSet { blocks, size: self.size, row_blocks: self.row_blocks }
    }
}

impl<'a> BitSetRef<'a, ()> {
    /// A single-row set holding `new_inner_size` positions, keeping the
    /// positions of this view that still fit.
    pub fn resize(&self, new_inner_size: usize) -> (r: BitSet<()>)
        requires
            (new_inner_size as int + 63) / 64 * 64 <= usize::MAX,
        ensures
            r.wf(),
            r.shape() == (),
            r.row_len() == (new_inner_size as int + 63) / 64,
            r.row(()) == self@.intersect(Set::new(|i: int| 0 <= i < r.capacity())),
    {
        let mut r = BitSet::<()>::new((), new_inner_size);
        proof {
            lemma_bits_empty(r.blocks@);
        }
        let n = r.row_blocks;
        let mut i: usize = 0;
        while i < n && i < self.blocks.len()
            invariant
                r.wf(),
                r.size == (),
                r.row_blocks == n,
                r.blocks@.len() == n,
                0 <= i <= n,
                i <= self.blocks@.len(),
                forall|k: int| 0 <= k < r.blocks@.len() ==> #[trigger] r.blocks@[k] == if k < i {
                    self.blocks@[k]
                } else {
                    0
                },
            decreases n - i,
        {
            let v = self.blocks[i];
            r.blocks.set(i, v);
            i += 1;
        }
        proof {
            let nb = r.blocks@;
            assert(row_blocks(nb, n as int, 0) =~= nb);
            assert forall|p: int| #[trigger] bits(nb).contains(p) == self@.intersect(
                Set::new(|i: int| 0 <= i < r.capacity()),
            ).contains(p) by {
                if 0 <= p < nb.len() * 64 {
                    let k = p / 64;
                    if k < self.blocks@.len() {
                        assert(nb[k] == self.blocks@[k]);
                    } else {
                        assert(nb[k] == 0);
                        lemma_bit_zero((p % 64) as u64);
                    }
                }
            }
            assert(bits(nb) =~= self@.intersect(Set::new(|i: int| 0 <= i < r.capacity())));
        }
        r
    }
}

impl<'a, Idx: Index> View for BitSetRefMut<'a, Idx> {
    type V = Set<int>;

    /// All set positions, rows laid end to end.
    open spec fn view(&self) -> Set<int> {
        bits(self.blocks@)
    }
}

impl<'a, Idx: Index + Copy> BitSetRefMut<'a, Idx> {
    pub open spec fn wf(&self) -> bool {
        shape_wf(self.blocks@.len() as int, self.size, self.row_blocks as int)
    }

    /// A read-only view of the same blocks.
    pub fn reborrow(self) -> (r: BitSetRef<'a, Idx>)
        requires
            self.wf(),
        ensures
            r.wf(),
            r@ == bits(old(self.blocks)@),
            r.blocks_view() == old(self.blocks)@,
            r.shape() == self.size,
            r.row_len() == self.row_blocks,
            final(self.blocks)@ == old(self.blocks)@,
    {
        BitSetRef { blocks: self.blocks, size: self.size, row_blocks: self.row_blocks }
    }

    pub fn is_empty(&self) -> (r: bool)
        ensures
            r == (self@ == Set::<int>::empty()),
    {
        blocks_is_empty(self.blocks)
    }

    pub fn contains(&self, index: usize) -> (r: bool)
        ensures
            r == self@.contains(index as int),
    {
        blocks_contains(self.blocks, index)
    }

    /// The set positions, lowest first.
    pub fn ones(self) -> (r: Ones<'a>)
        requires
            self.wf(),
        ensures
            r.wf(),
            r@ == bits(old(self.blocks)@),
            final(self.blocks)@ == old(self.blocks)@,
    {
        let view = self.reborrow();
        view.ones()
    }

    pub fn remove(self, index: usize)
        requires
            (index as int) < old(self.blocks)@.len() * 64,
        ensures
            final(self.blocks)@.len() == old(self.blocks)@.len(),
            bits(final(self.blocks)@) == bits(old(self.blocks)@).remove(index as int),
    {
        let blocks = self.blocks;
        blocks_remove(blocks, index);
    }

    pub fn insert(self, index: usize)
        requires
            (index as int) < old(self.blocks)@.len() * 64,
        ensures
            final(self.blocks)@.len() == old(self.blocks)@.len(),
            bits(final(self.blocks)@) == bits(old(self.blocks)@).insert(index as int),
    {
        let blocks = self.blocks;
        blocks_insert(blocks, index);
    }

    pub fn clear(self)
        ensures
            final(self.blocks)@.len() == old(self.blocks)@.len(),
            bits(final(self.blocks)@) == Set::<int>::empty(),
    {
        let blocks = self.blocks;
        blocks_clear(blocks);
    }

    pub fn union_with(self, other: BitSetRef<'_, Idx>)
        requires
            old(self.blocks)@.len() == other.blocks_view().len(),
        ensures
            final(self.blocks)@.len() == old(self.blocks)@.len(),
            bits(final(self.blocks)@) == bits(old(self.blocks)@).union(other@),
    {
        let blocks = self.blocks;
        blocks_union_with(blocks, other.blocks);
    }

    pub fn difference_with(self, other: BitSetRef<'_, Idx>)
        requires
            old(self.blocks)@.len() == other.blocks_view().len(),
        ensures
            final(self.blocks)@.len() == old(self.blocks)@.len(),
            bits(final(self.blocks)@) == bits(old(self.blocks)@).difference(other@),
    {
        let blocks = self.blocks;
        blocks_difference_with(blocks, other.blocks);
    }

    pub fn intersect_with(self, other: BitSetRef<'_, Idx>)
        requires
            old(self.blocks)@.len() == other.blocks_view().len(),
        ensures
            final(self.blocks)@.len() == old(self.blocks)@.len(),
            bits(final(self.blocks)@) == bits(old(self.blocks)@).intersect(other@),
    {
        let blocks = self.blocks;
        blocks_intersect_with(blocks, other.blocks);
    }

    pub fn copy_from(self, other: BitSetRef<'_, Idx>)
        requires
            old(self.blocks)@.len() == other.blocks_view().len(),
        ensures
            final(self.blocks)@ == other.blocks_view(),
            bits(final(self.blocks)@) == other@,
    {
        let blocks = self.blocks;
        blocks_copy_from(blocks, other.blocks);
    }
}

// ---------------------------------------------------------------------------
// Iterating over set positions.

/// The positions that an `Ones` still has to yield.
pub open spec fn ones_view(block: u64, offset: int, remaining: Seq<u64>) -> Set<int> {
    Set::new(
        |i: int|
            (offset <= i < offset + 64 && bit_of(block, (i - offset) as u64)) || bits(
                remaining,
            ).contains(i - offset - 64),
    )
}

proof fn lemma_ones_view(block: u64, offset: int, remaining: Seq<u64>)
    ensures
        ones_view(block, offset, remaining).finite(),
        forall|i: int| #[trigger]
            ones_view(block, offset, remaining).contains(i) ==> offset <= i < offset + 64 + 64
                * remaining.len(),
{
    lemma_bits_finite(remaining);
    let hi = offset + 64 + 64 * remaining.len();
    let r = Set::new(|i: int| offset <= i < hi);
    assert(r =~= vstd::set_lib::set_int_range(offset, hi));
    vstd::set_lib::lemma_int_range(offset, hi);
    assert(ones_view(block, offset, remaining).subset_of(r));
    vstd::set_lib::lemma_len_subset(ones_view(block, offset, remaining), r);
}

impl<'a> View for Ones<'a> {
    type V = Set<int>;

    closed spec fn view(&self) -> Set<int> {
        ones_view(self.block, self.offset as int, self.remaining_blocks@)
    }
}

impl<'a> Ones<'a> {
    pub closed spec fn wf(&self) -> bool {
        self.offset + 64 + 64 * self.remaining_blocks@.len() <= usize::MAX + 1
    }

    pub proof fn lemma_finite(&self)
        ensures
            self@.finite(),
    {
        lemma_ones_view(self.block, self.offset as int, self.remaining_blocks@);
    }

    /// The lowest position not yet yielded, or `None` once all are.
    pub fn next(&mut self) -> (r: Option<usize>)
        requires
            old(self).wf(),
        ensures
            final(self).wf(),
            match r {
                None => old(self)@ == Set::<int>::empty() && final(self)@ == Set::<int>::empty(),
                Some(x) => {
                    &&& old(self)@.contains(x as int)
                    &&& final(self)@ == old(self)@.remove(x as int)
                    &&& forall|y: int| #[trigger] old(self)@.contains(y) ==> x <= y
                },
            },
    {
        let ghost start = self@;
        while self.block == 0
            invariant
                self.wf(),
                self@ == start,
                old(self)@ == start,
            decreases self.remaining_blocks@.len(),
        {
            if self.remaining_blocks.len() == 0 {
                proof {
                    assert forall|i: int| !#[trigger] self@.contains(i) by {
                        if 0 <= i - self.offset < 64 {
                            lemma_bit_zero((i - self.offset) as u64);
                        }
                    }
                    assert(self@ =~= Set::<int>::empty());
                }
                return None;
            }
            let ghost before = self@;
            let ghost rem = self.remaining_blocks@;
            self.block = self.remaining_blocks[0];
            self.remaining_blocks = &self.remaining_blocks[1..self.remaining_blocks.len()];
            self.offset += BLOCK_BITS;
            proof {
                assert forall|i: int| #[trigger] self@.contains(i) == before.contains(i) by {
                    let off = self.offset - 64;
                    if off + 64 <= i {
                        let p = i - off - 64;
                        if p < 64 {
                            assert(p / 64 == 0 && p % 64 == p);
                        } else if p < rem.len() * 64 {
                            lemma_bits_subrange(rem, 1, rem.len() as int, p - 64);
                        }
                    } else if off <= i {
                        lemma_bit_zero((i - off) as u64);
                    }
                }
                assert(self@ =~= before);
            }
        }
        proof {
            broadcast use vstd::std_specs::bits::axiom_u64_trailing_zeros;

        }
        let r = self.block.trailing_zeros() as usize;
        let ghost before = self@;
        let ghost b0 = self.block;
        let t = 1u64 << r;
        self.block = self.block & !t;
        let x = self.offset + r;
        proof {
            let rr = r as u64;
            assert(bit_of(b0, rr));
            assert forall|i: int| #[trigger] self@.contains(i) == before.remove(x as int).contains(i)
                by {
                let off = self.offset as int;
                if off <= i < off + 64 {
                    let j = (i - off) as u64;
                    lemma_bit_single(rr, j);
                    lemma_bit_and_not(b0, 1u64 << rr, j);
                }
            }
            assert(self@ =~= before.remove(x as int));
            assert forall|y: int| #[trigger] before.contains(y) implies x <= y by {
                let off = self.offset as int;
                if off <= y < off + 64 {
                    let j = (y - off) as u64;
                    if j < rr {
                        assert((b0 >> j) & 1u64 == 0u64);
                    }
                }
            }
        }
        Some(x)
    }
}

} // verus!

verus! {

impl<Idx: Index + Copy> BitSet<Idx> {
    /// A set with exactly one row is its own row.
    pub proof fn lemma_single_row(&self, sub: Idx)
        requires
            self.wf(),
            self.shape().spec_total_size() == 1,
            self.in_bounds(sub),
        ensures
            self.row(sub) == self@,
            self.blocks_view().len() == self.row_len(),
    {
        self.size.lemma_shape(sub);
        assert(self.size.spec_row(sub) == 0);
        assert(self.blocks@.subrange(0, self.row_blocks as int) =~= self.blocks@);
    }

    /// A read-only view of the whole set.
    pub fn borrow(&self) -> (r: BitSetRef<'_, Idx>)
        requires
            self.wf(),
        ensures
            r.wf(),
            r@ == self@,
            r.blocks_view() == self.blocks_view(),
            r.shape() == self.shape(),
            r.row_len() == self.row_len(),
            forall|sub: Idx| #[trigger] r.row(sub) == self.row(sub),
    {
        BitSetRef { blocks: self.blocks.as_slice(), size: self.size, row_blocks: self.row_blocks }
    }

    /// A writable view of the whole set.
    pub fn borrow_mut(&mut self) -> (r: BitSetRefMut<'_, Idx>)
        requires
            old(self).wf(),
        ensures
            r.wf(),
            r@ == old(self)@,
            r.blocks@ == old(self).blocks_view(),
            r.size == old(self).shape(),
            r.row_blocks == old(self).row_len(),
            final(r.blocks)@.len() == r.blocks@.len() ==> {
                &&& final(self).wf()
                &&& final(self).blocks_view() == final(r.blocks)@
                &&& final(self).shape() == old(self).shape()
                &&& final(self).row_len() == old(self).row_len()
            },
    {
        BitSetRefMut {
            blocks: self.blocks.as_mut_slice(),
            size: self.size,
            row_blocks: self.row_blocks,
        }
    }

    /// Whether both sets hold the same positions.
    pub fn equals(&self, other: &Self) -> (r: bool)
        requires
            self.blocks_view().len() == other.blocks_view().len(),
        ensures
            r == (self@ == other@),
            r == (self.blocks_view() == other.blocks_view()),
    {
        blocks_equal(self.blocks.as_slice(), other.blocks.as_slice())
    }
}

impl<Idx: Index + Copy> Clone for BitSet<Idx> {
    fn clone(&self) -> (r: Self)
        ensures
            r.blocks_view() == self.blocks_view(),
            r.shape() == self.shape(),
            r.row_len() == self.row_len(),
            r@ == self@,
            self.wf() ==> r.wf(),
    {
        BitSet { blocks: self.blocks.clone(), size: self.size, row_blocks: self.row_blocks }
    }
}

impl BitSet<(usize, usize)> {
    /// A read-only view of the rows `(index, _)`.
    pub fn slice2d(&self, index: usize) -> (r: BitSetRef<'_, usize>)
        requires
            self.wf(),
            index < self.shape().0,
        ensures
            r.wf(),
            r.shape() == self.shape().1,
            r.row_len() == self.row_len(),
            forall|j: usize| j < self.shape().1 ==> #[trigger] r.row(j) == self.row((index, j)),
    {
        let b = self.size.1;
        let rb = self.row_blocks;
        proof {
            assert(0 <= (index as int + 1) * b <= self.size.0 * b) by (nonlinear_arith)
                requires
                    index < self.size.0,
            ;
            assert(0 <= (index as int + 1) * b * rb <= self.size.0 * b * rb) by (nonlinear_arith)
                requires
                    0 <= (index as int + 1) * b <= self.size.0 * b,
            ;
            assert((index as int + 1) * b * rb == index * b * rb + b * rb) by (nonlinear_arith);
            assert(index * b <= self.size.0 * b) by (nonlinear_arith)
                requires
                    index < self.size.0,
            ;
            assert(self.size.0 * b * rb == self.size.0 * (b * rb)) by (nonlinear_arith);
        }
        let start = index * b * rb;
        let end = start + b * rb;
        let blocks = &self.blocks.as_slice()[start..end];
        let r = BitSetRef { blocks, size: b, row_blocks: rb };
        proof {
            assert(0 <= b * rb) by (nonlinear_arith);
            assert((b * rb) * 64 <= self.blocks@.len() * 64) by (nonlinear_arith)
                requires
                    start + b * rb <= self.blocks@.len(),
                    0 <= start,
            ;
            assert forall|j: usize| j < b implies #[trigger] r.row(j) == self.row((index, j)) by {
                lemma_row_in_range(j as int, b as int, rb as int);
                assert((index * b + j) * rb == index * b * rb + j * rb) by (nonlinear_arith);
                assert(row_blocks(r.blocks@, rb as int, j as int) =~= row_blocks(
                    self.blocks@,
                    rb as int,
                    index * b + j,
                ));
            }
        }
        r
    }
}

} // verus!

verus! {

impl BitSet<()> {
    /// A single-row set holds only positions below its capacity, and its row is the
    /// whole set.
    pub proof fn lemma_one_row(&self)
        requires
            self.wf(),
        ensures
            self.row(()) == self@,
            self.blocks_view().len() == self.row_len(),
            self@.finite(),
            forall|i: int| #[trigger] self@.contains(i) ==> 0 <= i < self.capacity(),
    {
        assert(self.blocks@.subrange(0, self.row_blocks as int) =~= self.blocks@);
        lemma_bits_finite(self.blocks@);
    }

    /// Sets position `index`.
    pub fn insert_one(&mut self, index: usize)
        requires
            old(self).wf(),
            (index as int) < old(self).capacity(),
        ensures
            final(self).wf(),
            final(self).row_len() == old(self).row_len(),
            final(self)@ == old(self)@.insert(index as int),
    {
        proof {
            self.lemma_one_row();
        }
        blocks_insert(self.blocks.as_mut_slice(), index);
    }

    /// Clears position `index`.
    pub fn remove_one(&mut self, index: usize)
        requires
            old(self).wf(),
            (index as int) < old(self).capacity(),
        ensures
            final(self).wf(),
            final(self).row_len() == old(self).row_len(),
            final(self)@ == old(self)@.remove(index as int),
    {
        proof {
            self.lemma_one_row();
        }
        blocks_remove(self.blocks.as_mut_slice(), index);
    }

    /// Whether position `index` is set.
    pub fn has(&self, index: usize) -> (r: bool)
        ensures
            r == self@.contains(index as int),
    {
        blocks_contains(self.blocks.as_slice(), index)
    }

    /// Adds the positions of `other`, a set of the same length.
    pub fn union_from(&mut self, other: BitSetRef<'_, ()>)
        requires
            old(self).wf(),
            other.blocks_view().len() == old(self).blocks_view().len(),
        ensures
            final(self).wf(),
            final(self).row_len() == old(self).row_len(),
            final(self)@ == old(self)@.union(other@),
    {
        blocks_union_with(self.blocks.as_mut_slice(), other.blocks);
    }

    /// Removes the positions of `other`, a set of the same length.
    pub fn difference_from(&mut self, other: BitSetRef<'_, ()>)
        requires
            old(self).wf(),
            other.blocks_view().len() == old(self).blocks_view().len(),
        ensures
            final(self).wf(),
            final(self).row_len() == old(self).row_len(),
            final(self)@ == old(self)@.difference(other@),
    {
        blocks_difference_with(self.blocks.as_mut_slice(), other.blocks);
    }

    /// Removes every position.
    pub fn clear_all(&mut self)
        requires
            old(self).wf(),
        ensures
            final(self).wf(),
            final(self).row_len() == old(self).row_len(),
            final(self)@ == Set::<int>::empty(),
    {
        blocks_clear(self.blocks.as_mut_slice());
    }
}


impl<Idx: Index + Copy> BitSet<Idx> {
    /// Replaces row `index` with the positions of `value`, a row of the same length.
    pub fn set_row(&mut self, index: Idx, value: BitSetRef<'_, ()>)
        requires
            old(self).wf(),
            old(self).in_bounds(index),
            value.blocks_view().len() == old(self).row_len(),
        ensures
            final(self).wf(),
            final(self).shape() == old(self).shape(),
            final(self).row_len() == old(self).row_len(),
            final(self).row(index) == value@,
            forall|sub: Idx|
                old(self).in_bounds(sub) && old(self).shape().spec_row(sub) != old(
                    self,
                ).shape().spec_row(index) ==> #[trigger] final(self).row(sub) == old(self).row(sub),
    {
        let ghost before = *self;
        let r = self.slice_mut(index);
        proof {
            lemma_row_of(before.blocks@.len() as int, before.size, before.row_blocks as int, index);
            assert(r.blocks@.len() == before.row_blocks);
        }
        r.copy_from(value);
        proof {
            self.lemma_same_outside(before, index);
        }
    }
}


impl<Idx: Index + Copy> BitSet<Idx> {
    /// The sizes that a well-formed set keeps within `usize`.
    pub proof fn lemma_wf_sizes(&self)
        requires
            self.wf(),
        ensures
            0 <= self.shape().spec_total_size() <= usize::MAX,
            0 <= self.shape().spec_total_size() * self.row_len() * 64 <= usize::MAX,
            self.row_len() >= 0,
            self.blocks_view().len() == self.shape().spec_total_size() * self.row_len(),
    {
        assert(0 <= self.size.spec_total_size() * self.row_blocks) by (nonlinear_arith)
            requires
                0 <= self.size.spec_total_size(),
                0 <= self.row_blocks,
        ;
    }

    /// Sets with the same blocks and shape have the same rows.
    pub proof fn lemma_same_blocks(&self, other: Self, sub: Idx)
        requires
            self.blocks_view() == other.blocks_view(),
            self.shape() == other.shape(),
            self.row_len() == other.row_len(),
        ensures
            self.row(sub) == other.row(sub),
    {
    }
}


impl<'a, Idx: Index + Copy> BitSetRef<'a, Idx> {
    /// A view of the given blocks as a set of the given shape.
    pub fn from_blocks(blocks: &'a [u64], size: Idx, row_blocks: usize) -> (r: BitSetRef<'a, Idx>)
        requires
            shape_wf(blocks@.len() as int, size, row_blocks as int),
        ensures
            r.wf(),
            r.blocks_view() == blocks@,
            r.shape() == size,
            r.row_len() == row_blocks,
    {
        BitSetRef { blocks, size, row_blocks }
    }

    /// A row is the set held in its blocks.
    pub proof fn lemma_row_def(&self, sub: Idx)
        ensures
            self.row(sub) == row_set(self.blocks_view(), self.row_len(), self.shape().spec_row(sub)),
    {
    }
}

impl<Idx: Index + Copy> BitSet<Idx> {
    /// A row is the set held in its blocks.
    pub proof fn lemma_row_def(&self, sub: Idx)
        ensures
            self.row(sub) == row_set(self.blocks_view(), self.row_len(), self.shape().spec_row(sub)),
    {
    }

    /// A copy of the blocks.
    pub fn blocks_vec(&self) -> (r: Vec<u64>)
        ensures
            r@ == self.blocks_view(),
    {
        self.blocks.clone()
    }

    /// Adds the positions of `value`, a row of the same length, to row `index`.
    pub fn union_into_row(&mut self, index: Idx, value: BitSetRef<'_, ()>)
        requires
            old(self).wf(),
            old(self).in_bounds(index),
            value.blocks_view().len() == old(self).row_len(),
        ensures
            final(self).wf(),
            final(self).shape() == old(self).shape(),
            final(self).row_len() == old(self).row_len(),
            final(self).row(index) == old(self).row(index).union(value@),
            forall|sub: Idx|
                old(self).in_bounds(sub) && old(self).shape().spec_row(sub) != old(
                    self,
                ).shape().spec_row(index) ==> #[trigger] final(self).row(sub) == old(self).row(sub),
    {
        let ghost before = *self;
        let r = self.slice_mut(index);
        proof {
            lemma_row_of(before.blocks@.len() as int, before.size, before.row_blocks as int, index);
            assert(r.blocks@.len() == before.row_blocks);
        }
        r.union_with(value);
        proof {
            self.lemma_same_outside(before, index);
        }
    }
}


proof fn lemma_split_position(p: int, w: int)
    requires
        0 <= p,
        0 < w,
    ensures
        p == (p / w) * w + p % w,
        0 <= p % w < w,
        0 <= p / w,
{
    vstd::arithmetic::div_mod::lemma_fundamental_div_mod(p, w);
    vstd::arithmetic::div_mod::lemma_mod_bound(p, w);
    vstd::arithmetic::div_mod::lemma_div_pos_is_pos(p, w);
    assert(w * (p / w) == (p / w) * w) by (nonlinear_arith);
}

proof fn lemma_row_position(r: int, rb: int, x: int, total: int)
    requires
        0 <= r < total,
        0 <= x < rb * 64,
        0 <= rb,
    ensures
        (r * rb) * 64 + x == r * (rb * 64) + x,
        r * rb + rb <= total * rb,
        0 <= r * rb,
        r * (rb * 64) + x < total * rb * 64,
{
    assert((r * rb) * 64 == r * (rb * 64)) by (nonlinear_arith);
    assert(r * rb + rb <= total * rb) by (nonlinear_arith)
        requires
            r < total,
            0 <= rb,
    ;
    assert(0 <= r * rb) by (nonlinear_arith)
        requires
            0 <= r,
            0 <= rb,
    ;
    assert(r * (rb * 64) + x < total * rb * 64) by (nonlinear_arith)
        requires
            r < total,
            0 <= x < rb * 64,
            0 <= rb,
    ;
}

impl BitSet<usize> {
    /// Position `x` of row `r` is set exactly when position `r * row length + x` of the
    /// whole set is.
    proof fn lemma_row_contains(&self, r: usize, x: int)
        requires
            self.wf(),
            r < self.size,
            0 <= x < self.row_blocks * 64,
        ensures
            self.row(r).contains(x) == self@.contains(r * (self.row_blocks * 64) + x),
    {
        let rb = self.row_blocks as int;
        lemma_row_position(r as int, rb, x, self.size as int);
        lemma_bits_subrange(self.blocks@, r * rb, r * rb + rb, x);
    }

    /// The whole set is empty exactly when every row is.
    pub proof fn lemma_empty_rows(&self)
        requires
            self.wf(),
        ensures
            (self@ == Set::<int>::empty()) == (forall|r: usize| r < self.shape() ==> #[trigger] self.row(r) == Set::<int>::empty()),
    {
        let rb = self.row_blocks as int;
        if self@ == Set::<int>::empty() {
            assert forall|r: usize| r < self.shape() implies #[trigger] self.row(r) == Set::<int>::empty() by {
                assert forall|x: int| !#[trigger] self.row(r).contains(x) by {
                    self.lemma_row_bounded(r);
                    if 0 <= x < rb * 64 {
                        self.lemma_row_contains(r, x);
                    }
                }
                assert(self.row(r) =~= Set::<int>::empty());
            }
        } else {
            assert(exists|p: int| self@.contains(p)) by {
                if forall|p: int| !self@.contains(p) {
                    assert(self@ =~= Set::<int>::empty());
                }
            }
            let p = choose|p: int| self@.contains(p);
            assert(has_bit(self.blocks@, p));
            assert(0 <= p < self.blocks@.len() * 64);
            assert(rb > 0) by {
                if rb == 0 {
                    assert(self.blocks@.len() == self.size * 0);
                }
            }
            lemma_split_position(p, rb * 64);
            let r = p / (rb * 64);
            let x = p % (rb * 64);
            assert(r < self.size) by {
                assert(self.blocks@.len() * 64 == self.size * rb * 64);
                if r >= self.size {
                    assert(r * (rb * 64) >= self.size * (rb * 64)) by (nonlinear_arith)
                        requires
                            r >= self.size,
                            rb >= 0,
                    ;
                    assert(self.size * (rb * 64) == self.size * rb * 64) by (nonlinear_arith);
                }
            }
            self.lemma_row_contains(r as usize, x);
            assert(self.row(r as usize).contains(x));
        }
    }

    /// Two sets of the same shape are equal exactly when every row is.
    pub proof fn lemma_equal_rows(&self, other: &Self)
        requires
            self.wf(),
            other.wf(),
            self.shape() == other.shape(),
            self.row_len() == other.row_len(),
        ensures
            (self@ == other@) == (forall|r: usize| r < self.shape() ==> #[trigger] self.row(r) == other.row(r)),
    {
        let rb = self.row_blocks as int;
        if self@ == other@ {
            assert forall|r: usize| r < self.shape() implies #[trigger] self.row(r) == other.row(r) by {
                assert forall|x: int| #[trigger] self.row(r).contains(x) == other.row(r).contains(x) by {
                    self.lemma_row_bounded(r);
                    other.lemma_row_bounded(r);
                    if 0 <= x < rb * 64 {
                        self.lemma_row_contains(r, x);
                        other.lemma_row_contains(r, x);
                    }
                }
                assert(self.row(r) =~= other.row(r));
            }
        } else {
            if forall|r: usize| r < self.shape() ==> #[trigger] self.row(r) == other.row(r) {
                assert forall|p: int| #[trigger] self@.contains(p) == other@.contains(p) by {
                    if (self@.contains(p) || other@.contains(p)) {
                        assert(has_bit(self.blocks@, p) || has_bit(other.blocks@, p));
                        assert(0 <= p < self.blocks@.len() * 64);
                        assert(rb > 0) by {
                            if rb == 0 {
                                assert(self.blocks@.len() == self.size * 0);
                            }
                        }
                        lemma_split_position(p, rb * 64);
                        let r = p / (rb * 64);
                        let x = p % (rb * 64);
                        assert(r < self.size) by {
                            assert(self.blocks@.len() * 64 == self.size * rb * 64);
                            if r >= self.size {
                                assert(r * (rb * 64) >= self.size * (rb * 64)) by (nonlinear_arith)
                                    requires
                                        r >= self.size,
                                        rb >= 0,
                                ;
                                assert(self.size * (rb * 64) == self.size * rb * 64) by (nonlinear_arith);
                            }
                        }
                        self.lemma_row_contains(r as usize, x);
                        other.lemma_row_contains(r as usize, x);
                        assert(self.row(r as usize) == other.row(r as usize));
                    }
                }
                assert(self@ =~= other@);
            }
        }
    }
}

} // verus!
