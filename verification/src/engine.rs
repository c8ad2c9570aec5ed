//! The buddy allocation engine.
//!
//! The engine manages a contiguous region of `capacity` bytes as blocks of
//! size `min_block * 2^k` ("order `k`" blocks), identified by their byte
//! offset from the start of the region.  Free blocks are kept in one list
//! per order; blocks handed out are tracked as a ghost set of live blocks.
//! The well-formedness invariant ties the two together: every tracked block
//! lies inside the region, no two tracked blocks overlap, no two buddies are
//! simultaneously free at the same order, and together the free and live
//! blocks cover the whole region.

use vstd::prelude::*;
use vstd::arithmetic::power2::{
    pow2, lemma_pow2_adds, lemma_pow2_pos, lemma_pow2_strictly_increases, lemma_pow2_unfold,
    lemma2_to64,
};
use vstd::arithmetic::div_mod::{lemma_fundamental_div_mod, lemma_mod_multiples_basic};

verus! {

/// Number of block size classes: order `k` blocks span `min_block * 2^k`
/// bytes, for `k` in `0 .. ORDER`.
pub const ORDER: usize = 32;

/// Size in bytes of a block of order `k` when the smallest block has
/// `mb` bytes.
pub open spec fn bsz(mb: nat, k: nat) -> nat {
    mb * pow2(k)
}

/// Two byte ranges `[o1, o1 + s1)` and `[o2, o2 + s2)` do not overlap.
pub open spec fn ranges_disjoint(o1: nat, s1: nat, o2: nat, s2: nat) -> bool {
    o1 + s1 <= o2 || o2 + s2 <= o1
}

/// An order-`k` block at offset `off` is aligned to its own size and lies
/// entirely inside a region of `cap` bytes.
pub open spec fn block_ok(off: nat, mb: nat, k: nat, cap: nat) -> bool {
    off % bsz(mb, k) == 0 && off + bsz(mb, k) <= cap
}

/// The buddy of the size-`s` block at offset `off`: the other half of the
/// size-`2*s` block that contains it.
pub open spec fn buddy_of(off: nat, s: nat) -> nat
    recommends
        s > 0,
        off % s == 0,
{
    if (off / s) % 2 == 0 {
        off + s
    } else {
        (off - s) as nat
    }
}

/// `n` is a power of two.
pub open spec fn is_power_of_two(n: nat) -> bool {
    exists|e: nat| n == pow2(e)
}

/// The size class a request rounds up to is driven by the larger of the
/// requested size and alignment.
pub open spec fn request_need(size: nat, align: nat) -> nat {
    if size >= align {
        size
    } else {
        align
    }
}

/// A region size is valid when it is exactly the size of one block of some
/// representable order.
pub open spec fn valid_region_size(mb: nat, size: nat) -> bool {
    exists|t: nat| t < ORDER && size == bsz(mb, t)
}

/// The order whose block size equals the whole region.
pub open spec fn region_order(mb: nat, size: nat) -> nat {
    choose|t: nat| t < ORDER && size == bsz(mb, t)
}

/// The smallest order at or above `k` whose block size reaches `need`
/// (saturating at the top order).
pub open spec fn order_from(mb: nat, need: nat, k: nat) -> nat
    decreases ORDER - k,
{
    if k >= (ORDER - 1) as nat {
        (ORDER - 1) as nat
    } else if bsz(mb, k) >= need {
        k
    } else {
        order_from(mb, need, (k + 1) as nat)
    }
}

/// The smallest order whose block size reaches `need`.
pub open spec fn order_for_spec(mb: nat, need: nat) -> nat {
    order_from(mb, need, 0)
}

/// Every free block is aligned to its size and lies inside the region.
pub open spec fn free_blocks_ok(fr: Seq<Seq<usize>>, mb: nat, cap: nat) -> bool {
    forall|k: int, i: int|
        0 <= k < fr.len() && 0 <= i < fr[k].len() ==> block_ok(
            (#[trigger] fr[k][i]) as nat,
            mb,
            k as nat,
            cap,
        )
}

/// Every live block has a representable order, is aligned to its size and
/// lies inside the region.
pub open spec fn live_blocks_ok(live: Set<(nat, nat)>, mb: nat, cap: nat) -> bool {
    forall|b: (nat, nat)| #[trigger]
        live.contains(b) ==> b.1 < ORDER && block_ok(b.0, mb, b.1, cap)
}

/// No two distinct free blocks overlap.
pub open spec fn free_free_disjoint(fr: Seq<Seq<usize>>, mb: nat) -> bool {
    forall|k1: int, i1: int, k2: int, i2: int|
        0 <= k1 < fr.len() && 0 <= i1 < fr[k1].len() && 0 <= k2 < fr.len() && 0 <= i2
            < fr[k2].len() && (k1 != k2 || i1 != i2) ==> ranges_disjoint(
            (#[trigger] fr[k1][i1]) as nat,
            bsz(mb, k1 as nat),
            (#[trigger] fr[k2][i2]) as nat,
            bsz(mb, k2 as nat),
        )
}

/// No free block overlaps a live block.
pub open spec fn free_live_disjoint(fr: Seq<Seq<usize>>, live: Set<(nat, nat)>, mb: nat) -> bool {
    forall|k: int, i: int, b: (nat, nat)|
        #![trigger fr[k][i], live.contains(b)]
        0 <= k < fr.len() && 0 <= i < fr[k].len() && live.contains(b) ==> ranges_disjoint(
            fr[k][i] as nat,
            bsz(mb, k as nat),
            b.0,
            bsz(mb, b.1),
        )
}

/// No two distinct live blocks overlap.
pub open spec fn live_live_disjoint(live: Set<(nat, nat)>, mb: nat) -> bool {
    forall|b1: (nat, nat), b2: (nat, nat)|
        live.contains(b1) && live.contains(b2) && b1 != b2 ==> ranges_disjoint(
            b1.0,
            bsz(mb, b1.1),
            b2.0,
            bsz(mb, b2.1),
        )
}

/// The coalescing invariant: no block and its buddy are both free at the
/// same order.
pub open spec fn no_free_buddies(fr: Seq<Seq<usize>>, mb: nat) -> bool {
    forall|k: int, i: int, j: int|
        0 <= k < fr.len() && 0 <= i < fr[k].len() && 0 <= j < fr[k].len() ==> (
        #[trigger] fr[k][i]) as nat != buddy_of((#[trigger] fr[k][j]) as nat, bsz(mb, k as nat))
}

/// Byte `b` lies inside some free block.
pub open spec fn free_covers(fr: Seq<Seq<usize>>, mb: nat, b: nat) -> bool {
    exists|k: int, i: int|
        0 <= k < fr.len() && 0 <= i < fr[k].len() && (#[trigger] fr[k][i]) as nat <= b < fr[k][i]
            + bsz(mb, k as nat)
}

/// Byte `b` lies inside some live block.
pub open spec fn live_covers(live: Set<(nat, nat)>, mb: nat, b: nat) -> bool {
    exists|blk: (nat, nat)| #[trigger] live.contains(blk) && blk.0 <= b < blk.0 + bsz(mb, blk.1)
}

/// Conservation: every byte of the region belongs to a free or a live block.
pub open spec fn region_covered(fr: Seq<Seq<usize>>, live: Set<(nat, nat)>, mb: nat, cap: nat) -> bool {
    forall|b: nat| b < cap ==> #[trigger] free_covers(fr, mb, b) || live_covers(live, mb, b)
}

/// The free lists after taking the last block of order `j` and splitting it
/// down to order `k0`: list `j` loses its last entry, each list in
/// `[k0, j)` gains the upper half shed at that order, the rest are
/// untouched.
pub open spec fn split_effect(fr: Seq<Seq<usize>>, mb: nat, off: nat, k0: int, j: int) -> Seq<
    Seq<usize>,
> {
    Seq::new(
        fr.len(),
        |q: int|
            if q == j {
                fr[q].drop_last()
            } else if k0 <= q < j {
                fr[q].push((off + bsz(mb, q as nat)) as usize)
            } else {
                fr[q]
            },
    )
}

/// The free lists after freeing the order-`k` block at `off`: while the
/// buddy of the block is itself free at the same order, the two merge and
/// the merged block is freed one order up; once the buddy is not free (or
/// the top order is reached) the block joins its free list.
pub open spec fn coalesce_effect(fr: Seq<Seq<usize>>, mb: nat, off: nat, k: nat) -> Seq<Seq<usize>>
    decreases ORDER - k,
{
    let bud = buddy_of(off, bsz(mb, k));
    if k < (ORDER - 1) as nat && fr[k as int].contains(bud as usize) {
        coalesce_effect(
            fr.update(k as int, fr[k as int].remove_value(bud as usize)),
            mb,
            if bud < off {
                bud
            } else {
                off
            },
            (k + 1) as nat,
        )
    } else {
        fr.update(k as int, fr[k as int].push(off as usize))
    }
}

// ------------------------------------------------------------------
// Arithmetic lemmas about block sizes, alignment and buddies.
// ------------------------------------------------------------------

/// An order-0 block is exactly one minimum block.
pub proof fn lemma_bsz_zero(mb: nat)
    ensures
        bsz(mb, 0) == mb,
{
    lemma2_to64();
}

/// Each order doubles the block size.
pub proof fn lemma_bsz_double(mb: nat, k: nat)
    ensures
        bsz(mb, k + 1) == 2 * bsz(mb, k),
{
    lemma_pow2_unfold(k + 1);
    assert(mb * (2 * pow2(k)) == 2 * (mb * pow2(k))) by (nonlinear_arith);
}

/// Block sizes are at least the minimum block and positive.
pub proof fn lemma_bsz_pos(mb: nat, k: nat)
    ensures
        bsz(mb, k) >= mb,
        mb > 0 ==> bsz(mb, k) > 0,
{
    lemma_pow2_pos(k);
    assert(pow2(k) >= 1);
    assert(mb * pow2(k) >= mb * 1) by (nonlinear_arith)
        requires
            pow2(k) >= 1,
    ;
}

/// Block sizes grow with the order.
pub proof fn lemma_bsz_mono(mb: nat, k1: nat, k2: nat)
    requires
        k1 <= k2,
    ensures
        bsz(mb, k1) <= bsz(mb, k2),
{
    if k1 < k2 {
        lemma_pow2_strictly_increases(k1, k2);
        assert(mb * pow2(k1) <= mb * pow2(k2)) by (nonlinear_arith)
            requires
                pow2(k1) <= pow2(k2),
        ;
    }
}

/// A strictly larger order at least doubles the block size.
pub proof fn lemma_bsz_strict_mono(mb: nat, k1: nat, k2: nat)
    requires
        k1 < k2,
        mb > 0,
    ensures
        2 * bsz(mb, k1) <= bsz(mb, k2),
        bsz(mb, k1) < bsz(mb, k2),
{
    lemma_bsz_double(mb, k1);
    lemma_bsz_mono(mb, (k1 + 1) as nat, k2);
    lemma_bsz_pos(mb, k1);
}

/// A smaller order's block size divides a larger order's block size.
pub proof fn lemma_bsz_divides(mb: nat, k1: nat, k2: nat)
    requires
        k1 <= k2,
    ensures
        bsz(mb, k2) == bsz(mb, k1) * pow2((k2 - k1) as nat),
{
    lemma_pow2_adds(k1, (k2 - k1) as nat);
    assert(mb * (pow2(k1) * pow2((k2 - k1) as nat)) == (mb * pow2(k1)) * pow2((k2 - k1) as nat))
        by (nonlinear_arith);
}

/// Facts about the buddy of an aligned block: it is aligned at the same
/// order, distinct, the relation is an involution, and whichever of the two
/// is lower is aligned one order up and the pair tiles `[lower, lower+2s)`.
pub proof fn lemma_buddy(off: nat, s: nat)
    requires
        s > 0,
        off % s == 0,
    ensures
        buddy_of(off, s) % s == 0,
        buddy_of(off, s) != off,
        buddy_of(buddy_of(off, s), s) == off,
        (off / s) % 2 == 0 ==> buddy_of(off, s) == off + s && off % (2 * s) == 0,
        (off / s) % 2 != 0 ==> buddy_of(off, s) + s == off && buddy_of(off, s) % (2 * s)
            == 0,
{
    let q = (off as int) / (s as int);
    lemma_fundamental_div_mod(off as int, s as int);
    assert(off == q * s);
    if q % 2 == 0 {
        let b = (off + s) as nat;
        assert(b == (q + 1) * s) by (nonlinear_arith)
            requires
                off == q * s,
                b == off + s,
        ;
        lemma_mod_multiples_basic(q + 1, s as int);
        assert(b % s == 0);
        assert((b as int) / (s as int) == q + 1) by (nonlinear_arith)
            requires
                b == (q + 1) * s,
                s > 0,
        ;
        assert((q + 1) % 2 == 1);
        assert(buddy_of(b, s) == b - s);
        let m = q / 2;
        assert(q == 2 * m);
        assert(off == m * (2 * s)) by (nonlinear_arith)
            requires
                off == q * s,
                q == 2 * m,
        ;
        lemma_mod_multiples_basic(m, 2 * (s as int));
    } else {
        assert(q % 2 == 1);
        assert(q * s >= 1 * s) by (nonlinear_arith)
            requires
                q >= 1,
                s > 0,
        ;
        let b = (off - s) as nat;
        assert(b == (q - 1) * s) by (nonlinear_arith)
            requires
                off == q * s,
                b == off - s,
        ;
        lemma_mod_multiples_basic(q - 1, s as int);
        assert(b % s == 0);
        assert((b as int) / (s as int) == q - 1) by (nonlinear_arith)
            requires
                b == (q - 1) * s,
                s > 0,
        ;
        assert((q - 1) % 2 == 0);
        assert(buddy_of(off, s) == b);
        assert(buddy_of(b, s) == b + s);
        let m = (q - 1) / 2;
        assert(q - 1 == 2 * m);
        assert(b == m * (2 * s)) by (nonlinear_arith)
            requires
                b == (q - 1) * s,
                q - 1 == 2 * m,
        ;
        lemma_mod_multiples_basic(m, 2 * (s as int));
    }
}

/// A block aligned one order up is aligned at the lower order too, with an
/// even index there.
pub proof fn lemma_align_half(off: nat, s: nat)
    requires
        s > 0,
        off % (2 * s) == 0,
    ensures
        off % s == 0,
        ((off as int) / (s as int)) % 2 == 0,
{
    let m = (off as int) / (2 * (s as int));
    lemma_fundamental_div_mod(off as int, 2 * (s as int));
    assert(off == m * (2 * s));
    assert(off == (2 * m) * s) by (nonlinear_arith)
        requires
            off == m * (2 * s),
    ;
    lemma_mod_multiples_basic(2 * m, s as int);
    assert((off as int) / (s as int) == 2 * m) by (nonlinear_arith)
        requires
            off == (2 * m) * s,
            s > 0,
    ;
    assert((2 * m) % 2 == 0);
}

/// An offset aligned to a block size is aligned to every power of two that
/// does not exceed that block size.
pub proof fn lemma_align_to_smaller_pow2(off: nat, align: nat, mb: nat, k: nat)
    requires
        is_power_of_two(align),
        is_power_of_two(mb),
        align <= bsz(mb, k),
        off % bsz(mb, k) == 0,
    ensures
        off % align == 0,
{
    let a = choose|e: nat| align == pow2(e);
    let m = choose|e: nat| mb == pow2(e);
    lemma_pow2_adds(m, k);
    assert(bsz(mb, k) == pow2(m + k));
    if a > m + k {
        lemma_pow2_strictly_increases(m + k, a);
        assert(false);
    }
    lemma_pow2_adds(a, ((m + k) - a) as nat);
    let c = pow2(((m + k) - a) as nat);
    assert(bsz(mb, k) == align * c);
    let q = (off as int) / (bsz(mb, k) as int);
    lemma_pow2_pos(m + k);
    lemma_fundamental_div_mod(off as int, bsz(mb, k) as int);
    assert(off == q * (align * c));
    assert(off == (q * (c as int)) * (align as int)) by (nonlinear_arith)
        requires
            off == q * ((align * c) as int),
    ;
    lemma_pow2_pos(a);
    lemma_mod_multiples_basic(q * (c as int), align as int);
}

/// `order_from` is pinned by its characterization: if `kk` is minimal with
/// `bsz(mb, kk) >= need` then `order_from` from any starting point at or
/// below `kk` returns `kk`.
pub proof fn lemma_order_from_exact(mb: nat, need: nat, k: nat, kk: nat)
    requires
        k <= kk,
        kk < ORDER,
        bsz(mb, kk) >= need,
        forall|j: nat| k <= j < kk ==> bsz(mb, j) < need,
    ensures
        order_from(mb, need, k) == kk,
    decreases ORDER - k,
{
    if k != kk {
        assert(bsz(mb, k) < need);
        lemma_order_from_exact(mb, need, (k + 1) as nat, kk);
    }
}

// ------------------------------------------------------------------
// The engine.
// ------------------------------------------------------------------

/// The buddy allocation engine: one free list per order, over a region of
/// `size` bytes, plus a ghost record of the blocks currently handed out.
pub struct BuddyEngine {
    min_block: usize,
    size: usize,
    inited: bool,
    free_lists: Vec<Vec<usize>>,
    allocated: Ghost<Set<(nat, nat)>>,
}

impl BuddyEngine {
    /// The free lists, as sequences of block offsets indexed by order.
    pub closed spec fn frees(self) -> Seq<Seq<usize>> {
        self.free_lists@.map_values(|v: Vec<usize>| v@)
    }

    /// The blocks currently handed out, as `(offset, order)` pairs.
    pub closed spec fn live(self) -> Set<(nat, nat)> {
        self.allocated@
    }

    /// The region size in bytes (zero before initialization).
    pub closed spec fn capacity(self) -> nat {
        self.size as nat
    }

    /// The minimum block size in bytes.
    pub closed spec fn min_blk(self) -> nat {
        self.min_block as nat
    }

    /// Whether `init` has run.
    pub closed spec fn is_init(self) -> bool {
        self.inited
    }

    /// The engine invariant.
    pub open spec fn wf(self) -> bool {
        &&& self.frees().len() == ORDER
        &&& is_power_of_two(self.min_blk())
        &&& self.min_blk() >= 8
        &&& self.capacity() <= usize::MAX / 2
        &&& (self.is_init() ==> valid_region_size(self.min_blk(), self.capacity()))
        &&& (!self.is_init() ==> self.capacity() == 0 && self.live() =~= Set::<(nat, nat)>::empty()
            && (forall|k: int| 0 <= k < ORDER ==> (#[trigger] self.frees()[k]).len() == 0))
        &&& free_blocks_ok(self.frees(), self.min_blk(), self.capacity())
        &&& live_blocks_ok(self.live(), self.min_blk(), self.capacity())
        &&& free_free_disjoint(self.frees(), self.min_blk())
        &&& free_live_disjoint(self.frees(), self.live(), self.min_blk())
        &&& live_live_disjoint(self.live(), self.min_blk())
        &&& no_free_buddies(self.frees(), self.min_blk())
        &&& region_covered(self.frees(), self.live(), self.min_blk(), self.capacity())
    }

    /// Creates an engine with no region: every free list empty, nothing
    /// live, waiting for `init`.
    pub fn new(min_block: usize) -> (r: BuddyEngine)
        requires
            is_power_of_two(min_block as nat),
            min_block >= 8,
        ensures
            r.wf(),
            !r.is_init(),
            r.min_blk() == min_block as nat,
            r.capacity() == 0,
            r.live() =~= Set::<(nat, nat)>::empty(),
    {
        let mut fl: Vec<Vec<usize>> = Vec::new();
        let mut k: usize = 0;
        while k < ORDER
            invariant
                fl@.len() == k,
                k <= ORDER,
                forall|i: int| 0 <= i < k ==> (#[trigger] fl@[i])@.len() == 0,
            decreases ORDER - k,
        {
            fl.push(Vec::new());
            k += 1;
        }
        let r = BuddyEngine {
            min_block,
            size: 0,
            inited: false,
            free_lists: fl,
            allocated: Ghost(Set::empty()),
        };
        proof {
            assert(forall|q: int| 0 <= q < ORDER ==> (#[trigger] r.frees()[q]).len() == 0);
        }
        r
    }

    /// The region size in bytes.
    pub fn capacity_bytes(&self) -> (r: usize)
        ensures
            r as nat == self.capacity(),
    {
        self.size
    }

    /// The minimum block size in bytes.
    pub fn min_block_bytes(&self) -> (r: usize)
        ensures
            r as nat == self.min_blk(),
    {
        self.min_block
    }

    /// Whether `init` has run.
    pub fn is_initialized(&self) -> (r: bool)
        ensures
            r == self.is_init(),
    {
        self.inited
    }

    /// How many free blocks the order-`k` list holds.
    pub fn free_count(&self, k: usize) -> (r: usize)
        requires
            self.wf(),
            k < ORDER,
        ensures
            r == self.frees()[k as int].len(),
    {
        self.free_lists[k].len()
    }

    /// The offset of the `i`-th free block in the order-`k` list.
    pub fn free_block(&self, k: usize, i: usize) -> (r: usize)
        requires
            self.wf(),
            k < ORDER,
            i < self.frees()[k as int].len(),
        ensures
            r == self.frees()[k as int][i as int],
    {
        self.free_lists[k][i]
    }

    /// The size in bytes of an order-`k` block.
    fn block_size(&self, k: usize) -> (r: usize)
        requires
            self.min_blk() >= 1,
            bsz(self.min_blk(), k as nat) <= usize::MAX,
        ensures
            r as nat == bsz(self.min_blk(), k as nat),
    {
        proof {
            lemma_bsz_zero(self.min_blk());
        }
        let mut s: usize = self.min_block;
        let mut i: usize = 0;
        while i < k
            invariant
                i <= k,
                self.min_blk() >= 1,
                s as nat == bsz(self.min_blk(), i as nat),
                bsz(self.min_blk(), k as nat) <= usize::MAX,
            decreases k - i,
        {
            proof {
                lemma_bsz_double(self.min_blk(), i as nat);
                lemma_bsz_mono(self.min_blk(), (i + 1) as nat, k as nat);
            }
            s = s * 2;
            i += 1;
        }
        s
    }

    /// Whether `n` is a power of two (an allowed alignment).
    pub fn power_of_two_check(n: usize) -> (r: bool)
        ensures
            r <==> is_power_of_two(n as nat),
    {
        proof {
            lemma2_to64();
        }
        if n == 0 {
            proof {
                assert forall|e: nat| n as nat != pow2(e) by {
                    lemma_pow2_pos(e);
                }
            }
            return false;
        }
        let mut p: usize = 1;
        let ghost mut ec: nat = 0;
        while p < n
            invariant
                n >= 1,
                p >= 1,
                p as nat == pow2(ec),
                forall|e: nat| e < ec ==> pow2(e) < n as nat,
            decreases (if p < n { n - p } else { 0 }),
        {
            if p > usize::MAX / 2 {
                proof {
                    assert forall|e: nat| n as nat != pow2(e) by {
                        if e <= ec {
                            lemma_bsz_mono(1, e, ec);
                            lemma2_to64();
                            assert(pow2(e) <= pow2(ec)) by {
                                if e < ec {
                                    lemma_pow2_strictly_increases(e, ec);
                                }
                            }
                        } else {
                            lemma_pow2_strictly_increases(ec, e);
                            lemma_pow2_unfold(e);
                            assert(pow2(e) >= 2 * pow2(ec)) by {
                                if ec < e - 1 {
                                    lemma_pow2_strictly_increases(ec, (e - 1) as nat);
                                }
                            }
                        }
                    }
                }
                return false;
            }
            p = p * 2;
            proof {
                lemma_pow2_unfold(ec + 1);
                ec = ec + 1;
            }
        }
        proof {
            if p != n {
                assert forall|e: nat| n as nat != pow2(e) by {
                    if e < ec {
                        assert(pow2(e) < n as nat);
                    } else {
                        assert(pow2(e) >= pow2(ec)) by {
                            if ec < e {
                                lemma_pow2_strictly_increases(ec, e);
                            }
                        }
                    }
                }
            }
        }
        p == n
    }

    /// Whether `size` is a valid region size for this engine: exactly one
    /// block of some representable order, small enough for the arithmetic
    /// the engine does.
    pub fn region_size_ok(&self, size: usize) -> (r: bool)
        requires
            self.min_blk() >= 1,
        ensures
            r <==> (valid_region_size(self.min_blk(), size as nat) && size <= usize::MAX / 2),
    {
        let ghost mb = self.min_blk();
        if size > usize::MAX / 2 {
            return false;
        }
        proof {
            lemma_bsz_zero(mb);
        }
        let mut p: usize = self.min_block;
        let mut t: usize = 0;
        while p < size
            invariant
                self.min_blk() == mb,
                mb >= 1,
                p >= 1,
                t < ORDER,
                p as nat == bsz(mb, t as nat),
                forall|e: nat| e < t ==> bsz(mb, e) < size as nat,
                size <= usize::MAX / 2,
            decreases (if p < size { size - p } else { 0 }),
        {
            if t + 1 >= ORDER {
                proof {
                    assert forall|tt: nat| !(tt < ORDER && size as nat == bsz(mb, tt)) by {
                        if tt < ORDER {
                            if tt <= t as nat {
                                lemma_bsz_mono(mb, tt, t as nat);
                            }
                        }
                    }
                }
                return false;
            }
            if p > usize::MAX / 2 {
                proof {
                    assert forall|tt: nat| !(tt < ORDER && size as nat == bsz(mb, tt)) by {
                        if tt < ORDER {
                            if tt <= t as nat {
                                lemma_bsz_mono(mb, tt, t as nat);
                            } else {
                                lemma_bsz_strict_mono(mb, t as nat, tt);
                            }
                        }
                    }
                }
                return false;
            }
            proof {
                lemma_bsz_double(mb, t as nat);
            }
            p = p * 2;
            t += 1;
        }
        proof {
            if p == size {
                assert(valid_region_size(mb, size as nat));
            } else {
                assert forall|tt: nat| !(tt < ORDER && size as nat == bsz(mb, tt)) by {
                    if tt < ORDER {
                        if tt < t as nat {
                            assert(bsz(mb, tt) < size as nat);
                        } else {
                            lemma_bsz_mono(mb, t as nat, tt);
                        }
                    }
                }
            }
        }
        p == size
    }

    /// The order a request for `size` bytes at alignment `align` rounds up
    /// to: the smallest order whose block size covers both.  `None` exactly
    /// when the request exceeds the region capacity.
    pub fn order_for(&self, size: usize, align: usize) -> (r: Option<usize>)
        requires
            self.wf(),
            self.is_init(),
        ensures
            match r {
                Some(k) => {
                    let mb = self.min_blk();
                    let need = request_need(size as nat, align as nat);
                    &&& k < ORDER
                    &&& k as nat == order_for_spec(mb, need)
                    &&& bsz(mb, k as nat) >= need
                    &&& bsz(mb, k as nat) <= self.capacity()
                    &&& (forall|e: nat| e < k ==> bsz(mb, e) < need)
                },
                None => request_need(size as nat, align as nat) > self.capacity(),
            },
            r is Some <==> request_need(size as nat, align as nat) <= self.capacity(),
    {
        let ghost mb = self.min_blk();
        let need = if size >= align {
            size
        } else {
            align
        };
        if need > self.size {
            return None;
        }
        let ghost t0 = choose|t: nat| t < ORDER && self.capacity() == bsz(mb, t);
        proof {
            lemma_bsz_zero(mb);
        }
        let mut p: usize = self.min_block;
        let mut k: usize = 0;
        while p < need
            invariant
                self.wf(),
                self.is_init(),
                mb == self.min_blk(),
                k < ORDER,
                k as nat <= t0,
                t0 < ORDER,
                self.capacity() == bsz(mb, t0),
                p as nat == bsz(mb, k as nat),
                forall|e: nat| e < k ==> bsz(mb, e) < need as nat,
                need <= self.size,
            decreases t0 - k,
        {
            proof {
                if k as nat >= t0 {
                    lemma_bsz_mono(mb, t0, k as nat);
                    assert(false);
                }
                lemma_bsz_double(mb, k as nat);
                lemma_bsz_strict_mono(mb, k as nat, t0);
            }
            p = p * 2;
            k += 1;
        }
        proof {
            lemma_bsz_mono(mb, k as nat, t0);
            lemma_order_from_exact(mb, need as nat, 0, k as nat);
        }
        Some(k)
    }

    /// Serves an allocation request: pops a free block of the request's
    /// order, splitting the smallest sufficiently large free block down to
    /// it if none is free at that order, or reports that no memory is
    /// available.  A failed request leaves the engine untouched.
    pub fn allocate(&mut self, size: usize, align: usize) -> (r: Option<usize>)
        requires
            old(self).wf(),
            old(self).is_init(),
            is_power_of_two(align as nat),
        ensures
            final(self).wf(),
            final(self).is_init(),
            final(self).capacity() == old(self).capacity(),
            final(self).min_blk() == old(self).min_blk(),
            r is None ==> *final(self) == *old(self),
            r is Some <==> ({
                let need = request_need(size as nat, align as nat);
                need <= old(self).capacity() && (exists|j: int|
                    order_for_spec(old(self).min_blk(), need) <= j < ORDER && (#[trigger] old(
                        self,
                    ).frees()[j]).len() > 0)
            }),
            r matches Some(off) ==> ({
                let mb = old(self).min_blk();
                let need = request_need(size as nat, align as nat);
                let k0 = order_for_spec(mb, need);
                &&& bsz(mb, k0) >= need
                &&& bsz(mb, k0) >= size as nat
                &&& off as nat % align as nat == 0
                &&& block_ok(off as nat, mb, k0, old(self).capacity())
                &&& final(self).live() == old(self).live().insert((off as nat, k0))
                &&& !old(self).live().contains((off as nat, k0))
                &&& (exists|j: int|
                    {
                        &&& k0 <= j < ORDER
                        &&& (#[trigger] old(self).frees()[j]).len() > 0
                        &&& (forall|j2: int| k0 <= j2 < j ==> old(self).frees()[j2].len() == 0)
                        &&& off == old(self).frees()[j].last()
                        &&& final(self).frees() == split_effect(
                            old(self).frees(),
                            mb,
                            off as nat,
                            k0 as int,
                            j,
                        )
                    })
            }),
    {
        let ghost mb = self.min_blk();
        let ghost fr0 = self.frees();
        let ghost live0 = self.live();
        let need = if size >= align {
            size
        } else {
            align
        };
        if need > self.size {
            return None;
        }
        let k0 = match self.order_for(size, align) {
            Some(k) => k,
            None => {
                proof {
                    assert(false);
                }
                return None;
            },
        };
        // Find the smallest order at or above `k0` with a free block.
        let mut j: usize = k0;
        while j < ORDER && self.free_lists[j].len() == 0
            invariant
                *self == *old(self),
                self.wf(),
                k0 <= j <= ORDER,
                self.frees().len() == ORDER,
                forall|j2: int| k0 <= j2 < j ==> (#[trigger] self.frees()[j2]).len() == 0,
            decreases ORDER - j,
        {
            proof {
                assert(self.frees()[j as int] == self.free_lists@[j as int]@);
            }
            j += 1;
        }
        if j == ORDER {
            return None;
        }
        proof {
            assert(self.frees()[j as int] == self.free_lists@[j as int]@);
            assert(self.frees()[j as int].len() > 0);
        }
        let off = match self.free_lists[j].pop() {
            Some(o) => o,
            None => {
                proof {
                    assert(false);
                }
                return None;
            },
        };
        proof {
            let frp = self.frees();
            assert(self.free_lists@[j as int]@ == fr0[j as int].drop_last());
            assert(forall|q: int|
                0 <= q < ORDER && q != j ==> self.free_lists@[q] == old(self).free_lists@[q]);
            assert(forall|q: int| 0 <= q < ORDER ==> (#[trigger] frp[q]) == self.free_lists@[q]@);
            assert(forall|q: int| 0 <= q < ORDER ==> (#[trigger] fr0[q]) == old(self).free_lists@[q]@);
            assert(frp =~= split_effect(fr0, mb, off as nat, j as int, j as int));
            assert(off == fr0[j as int].last());
            // The popped block is well formed and disjoint from everything
            // still tracked.
            assert(block_ok(off as nat, mb, j as nat, self.capacity()));
            assert forall|q: int, i: int|
                0 <= q < ORDER && 0 <= i < frp[q].len() implies ranges_disjoint(
                (frp[q][i]) as nat,
                bsz(mb, q as nat),
                off as nat,
                bsz(mb, j as nat),
            ) by {
                assert(fr0[q][i] == frp[q][i]);
                assert(ranges_disjoint(
                    (fr0[q][i]) as nat,
                    bsz(mb, q as nat),
                    (fr0[j as int][fr0[j as int].len() - 1]) as nat,
                    bsz(mb, j as nat),
                ));
            }
            assert forall|b: (nat, nat)| #[trigger]
                live0.contains(b) implies ranges_disjoint(
                off as nat,
                bsz(mb, j as nat),
                b.0,
                bsz(mb, b.1),
            ) by {
                assert(fr0[j as int][fr0[j as int].len() - 1] == off);
            }
            assert forall|b: nat|
                b < self.capacity() implies free_covers(frp, mb, b) || live_covers(live0, mb, b)
                    || (off as nat <= b < off as nat + bsz(mb, j as nat)) by {
                if free_covers(fr0, mb, b) {
                    let (q, i) = choose|q: int, i: int|
                        0 <= q < fr0.len() && 0 <= i < fr0[q].len() && (#[trigger] fr0[q][i])
                            as nat <= b < fr0[q][i] + bsz(mb, q as nat);
                    if q == j && i == fr0[j as int].len() - 1 {
                        assert(fr0[q][i] == off);
                    } else {
                        assert(frp[q][i] == fr0[q][i]);
                        assert(free_covers(frp, mb, b));
                    }
                }
            }
        }
        // Split the block down to the requested order, shedding the upper
        // half at each step.
        let mut k: usize = j;
        while k > k0
            invariant
                k0 <= k <= j < ORDER,
                self.min_blk() == mb,
                self.min_blk() >= 8,
                is_power_of_two(mb),
                self.capacity() == old(self).capacity(),
                self.capacity() <= usize::MAX / 2,
                self.is_init(),
                valid_region_size(mb, self.capacity()),
                self.live() == live0,
                self.frees().len() == ORDER,
                fr0.len() == ORDER,
                live_blocks_ok(live0, mb, self.capacity()),
                live_live_disjoint(live0, mb),
                block_ok(off as nat, mb, k as nat, self.capacity()),
                free_blocks_ok(self.frees(), mb, self.capacity()),
                free_free_disjoint(self.frees(), mb),
                free_live_disjoint(self.frees(), live0, mb),
                no_free_buddies(self.frees(), mb),
                forall|q: int, i: int|
                    0 <= q < ORDER && 0 <= i < self.frees()[q].len() ==> ranges_disjoint(
                        (#[trigger] self.frees()[q][i]) as nat,
                        bsz(mb, q as nat),
                        off as nat,
                        bsz(mb, k as nat),
                    ),
                forall|b: (nat, nat)| #[trigger]
                    live0.contains(b) ==> ranges_disjoint(
                        off as nat,
                        bsz(mb, k as nat),
                        b.0,
                        bsz(mb, b.1),
                    ),
                forall|b: nat|
                    b < self.capacity() ==> free_covers(self.frees(), mb, b) || live_covers(
                        live0,
                        mb,
                        b,
                    ) || (off as nat <= b < off as nat + bsz(mb, k as nat)),
                self.frees() == split_effect(fr0, mb, off as nat, k as int, j as int),
            decreases k,
        {
            let ghost frp = self.frees();
            proof {
                lemma_bsz_double(mb, (k - 1) as nat);
                lemma_bsz_mono(mb, (k - 1) as nat, k as nat);
            }
            let half_sz = self.block_size(k - 1);
            let half = off + half_sz;
            proof {
                lemma_bsz_pos(mb, (k - 1) as nat);
                lemma_align_half(off as nat, bsz(mb, (k - 1) as nat));
                lemma_buddy(off as nat, bsz(mb, (k - 1) as nat));
                assert(buddy_of(off as nat, bsz(mb, (k - 1) as nat)) == half as nat);
                lemma_buddy(half as nat, bsz(mb, (k - 1) as nat));
                assert(buddy_of(half as nat, bsz(mb, (k - 1) as nat)) == off as nat);
                assert(self.free_lists@.len() == ORDER);
            }
            self.free_lists[k - 1].push(half);
            k -= 1;
            proof {
                let frn = self.frees();
                assert(forall|q: int|
                    0 <= q < ORDER && q != k ==> self.free_lists@[q]@ == (#[trigger] frp[q]));
                assert(forall|q: int| 0 <= q < ORDER ==> (#[trigger] frn[q]) == self.free_lists@[q]@);
                assert(frn[k as int] == frp[k as int].push(half));
                let ksz = bsz(mb, k as nat);
                // The half being shed is aligned and sits in the upper part
                // of the held block.
                assert(half as nat % ksz == 0);
                assert(block_ok(half as nat, mb, k as nat, self.capacity()));
                assert(block_ok(off as nat, mb, k as nat, self.capacity()));
                // Every free block of the previous state is disjoint from
                // the whole held block, hence from the shed half and from
                // the kept half.
                assert forall|q: int, i: int|
                    0 <= q < ORDER && 0 <= i < frn[q].len() implies ranges_disjoint(
                    (#[trigger] frn[q][i]) as nat,
                    bsz(mb, q as nat),
                    off as nat,
                    ksz,
                ) by {
                    if q == k && i == frn[q].len() - 1 {
                        assert(frn[q][i] == half);
                        assert(ranges_disjoint(half as nat, ksz, off as nat, ksz));
                    } else {
                        assert(frn[q][i] == frp[q][i]);
                        assert(ranges_disjoint(
                            (frp[q][i]) as nat,
                            bsz(mb, q as nat),
                            off as nat,
                            bsz(mb, (k + 1) as nat),
                        ));
                    }
                }
                assert forall|q: int, i: int|
                    0 <= q < ORDER && 0 <= i < frn[q].len() implies block_ok(
                    (#[trigger] frn[q][i]) as nat,
                    mb,
                    q as nat,
                    self.capacity(),
                ) by {
                    if q == k && i == frn[q].len() - 1 {
                        assert(frn[q][i] == half);
                    } else {
                        assert(frn[q][i] == frp[q][i]);
                        assert(block_ok((frp[q][i]) as nat, mb, q as nat, self.capacity()));
                    }
                }
                assert(free_blocks_ok(frn, mb, self.capacity()));
                assert forall|k1: int, i1: int, k2: int, i2: int|
                    0 <= k1 < ORDER && 0 <= i1 < frn[k1].len() && 0 <= k2 < ORDER && 0 <= i2
                        < frn[k2].len() && (k1 != k2 || i1 != i2) implies ranges_disjoint(
                    (frn[k1][i1]) as nat,
                    bsz(mb, k1 as nat),
                    (frn[k2][i2]) as nat,
                    bsz(mb, k2 as nat),
                ) by {
                    if k1 == k && i1 == frn[k1].len() - 1 && k2 == k && i2 == frn[k2].len() - 1 {
                        assert(false);
                    } else if k1 == k && i1 == frn[k1].len() - 1 {
                        assert(frn[k1][i1] == half);
                        assert(frn[k2][i2] == frp[k2][i2]);
                        assert(ranges_disjoint(
                            (frp[k2][i2]) as nat,
                            bsz(mb, k2 as nat),
                            off as nat,
                            bsz(mb, (k + 1) as nat),
                        ));
                    } else if k2 == k && i2 == frn[k2].len() - 1 {
                        assert(frn[k2][i2] == half);
                        assert(frn[k1][i1] == frp[k1][i1]);
                        assert(ranges_disjoint(
                            (frp[k1][i1]) as nat,
                            bsz(mb, k1 as nat),
                            off as nat,
                            bsz(mb, (k + 1) as nat),
                        ));
                    } else {
                        assert(frn[k1][i1] == frp[k1][i1] && frn[k2][i2] == frp[k2][i2]);
                    }
                }
                assert forall|q: int, i: int, b: (nat, nat)|
                    #![trigger frn[q][i], live0.contains(b)]
                    0 <= q < ORDER && 0 <= i < frn[q].len() && live0.contains(b) implies
                    ranges_disjoint((frn[q][i]) as nat, bsz(mb, q as nat), b.0, bsz(mb, b.1)) by {
                    if q == k && i == frn[q].len() - 1 {
                        assert(ranges_disjoint(
                            off as nat,
                            bsz(mb, (k + 1) as nat),
                            b.0,
                            bsz(mb, b.1),
                        ));
                    } else {
                        assert(frn[q][i] == frp[q][i]);
                    }
                }
                assert forall|q: int, i: int, i2: int|
                    0 <= q < ORDER && 0 <= i < frn[q].len() && 0 <= i2 < frn[q].len() implies (
                frn[q][i]) as nat != buddy_of((frn[q][i2]) as nat, bsz(mb, q as nat)) by {
                    let qsz = bsz(mb, q as nat);
                    if q == k && i2 == frn[q].len() - 1 {
                        // The shed half's buddy is the kept half, which is
                        // not free.
                        assert(buddy_of(half as nat, qsz) == off as nat);
                        if i < frn[q].len() - 1 {
                            assert(frn[q][i] == frp[q][i]);
                            assert(ranges_disjoint((frp[q][i]) as nat, qsz, off as nat, qsz));
                        }
                    } else {
                        assert(frn[q][i2] == frp[q][i2]);
                        if q == k && i == frn[q].len() - 1 {
                            assert((frp[q][i2]) as nat % qsz == 0);
                            lemma_buddy((frp[q][i2]) as nat, qsz);
                            if (half as nat) == buddy_of((frp[q][i2]) as nat, qsz) {
                                assert((frp[q][i2]) as nat == buddy_of(half as nat, qsz));
                                assert(ranges_disjoint((frp[q][i2]) as nat, qsz, off as nat, qsz));
                                assert(false);
                            }
                        } else {
                            assert(frn[q][i] == frp[q][i]);
                        }
                    }
                }
                assert forall|b: nat|
                    b < self.capacity() implies free_covers(frn, mb, b) || live_covers(live0, mb, b)
                        || (off as nat <= b < off as nat + ksz) by {
                    if free_covers(frp, mb, b) {
                        let (q, i) = choose|q: int, i: int|
                            0 <= q < frp.len() && 0 <= i < frp[q].len() && (#[trigger] frp[q][i])
                                as nat <= b < frp[q][i] + bsz(mb, q as nat);
                        assert(frn[q][i] == frp[q][i]);
                        assert(free_covers(frn, mb, b));
                    } else if live_covers(live0, mb, b) {
                    } else if off as nat <= b < off as nat + bsz(mb, (k + 1) as nat) {
                        if b >= off as nat + ksz {
                            let ii = frn[k as int].len() - 1;
                            assert(frn[k as int][ii] == half);
                            assert((half as nat) <= b < half as nat + ksz);
                            assert(0 <= k < frn.len() && 0 <= ii < frn[k as int].len() && (
                            frn[k as int][ii]) as nat <= b < frn[k as int][ii] + bsz(mb, k as nat));
                            assert(free_covers(frn, mb, b));
                        }
                    }
                }
                let se = split_effect(fr0, mb, off as nat, k as int, j as int);
                let sp = split_effect(fr0, mb, off as nat, (k + 1) as int, j as int);
                assert forall|q: int| 0 <= q < ORDER implies frn[q] == se[q] by {
                    assert(frp[q] == sp[q]);
                    if q == k {
                        assert(half as nat == off as nat + bsz(mb, k as nat));
                        assert(se[q] == fr0[q].push((off as nat + bsz(mb, q as nat)) as usize));
                        assert(sp[q] == fr0[q]);
                        assert(frn[q] == frp[q].push(half));
                    } else {
                        assert(frn[q] == frp[q]);
                        assert(se[q] == sp[q]);
                    }
                }
                assert(frn =~= se);
            }
        }
        proof {
            self.allocated@ = self.allocated@.insert((off as nat, k0 as nat));
            if live0.contains((off as nat, k0 as nat)) {
                assert(ranges_disjoint(
                    off as nat,
                    bsz(mb, k0 as nat),
                    off as nat,
                    bsz(mb, k0 as nat),
                ));
                lemma_bsz_pos(mb, k0 as nat);
                assert(false);
            }
            let livn = self.live();
            let frn = self.frees();
            assert(live_blocks_ok(livn, mb, self.capacity()));
            assert forall|b1: (nat, nat), b2: (nat, nat)|
                livn.contains(b1) && livn.contains(b2) && b1 != b2 implies ranges_disjoint(
                b1.0,
                bsz(mb, b1.1),
                b2.0,
                bsz(mb, b2.1),
            ) by {
                if b1 == ((off as nat, k0 as nat)) {
                    assert(live0.contains(b2));
                } else if b2 == ((off as nat, k0 as nat)) {
                    assert(live0.contains(b1));
                } else {
                    assert(live0.contains(b1) && live0.contains(b2));
                }
            }
            assert forall|q: int, i: int, b: (nat, nat)|
                #![trigger frn[q][i], livn.contains(b)]
                0 <= q < ORDER && 0 <= i < frn[q].len() && livn.contains(b) implies ranges_disjoint(
                (frn[q][i]) as nat,
                bsz(mb, q as nat),
                b.0,
                bsz(mb, b.1),
            ) by {
                if b != ((off as nat, k0 as nat)) {
                    assert(live0.contains(b));
                }
            }
            assert forall|b: nat|
                b < self.capacity() implies free_covers(frn, mb, b) || live_covers(livn, mb, b) by {
                if !free_covers(frn, mb, b) && !(off as nat <= b < off as nat + bsz(
                    mb,
                    k0 as nat,
                )) {
                    assert(live_covers(live0, mb, b));
                    let blk = choose|blk: (nat, nat)| #[trigger]
                        live0.contains(blk) && blk.0 <= b < blk.0 + bsz(mb, blk.1);
                    assert(livn.contains(blk));
                } else if off as nat <= b < off as nat + bsz(mb, k0 as nat) {
                    assert(livn.contains((off as nat, k0 as nat)));
                    assert(live_covers(livn, mb, b));
                }
            }
            assert(self.wf());
            // Alignment of the returned offset.
            lemma_bsz_pos(mb, k0 as nat);
            lemma_align_to_smaller_pow2(off as nat, align as nat, mb, k0 as nat);
            // Witness for the success condition.
            assert(fr0[j as int].len() > 0);
        }
        Some(off)
    }

    /// Finds the first entry equal to `target` in the order-`k` free list.
    fn find_in_list(&self, k: usize, target: usize) -> (r: Option<usize>)
        requires
            self.frees().len() == ORDER,
            k < ORDER,
        ensures
            match r {
                Some(i) => i < self.frees()[k as int].len() && self.frees()[k as int][i as int]
                    == target && (forall|j: int|
                    0 <= j < i ==> self.frees()[k as int][j] != target),
                None => forall|j: int|
                    0 <= j < self.frees()[k as int].len() ==> self.frees()[k as int][j] != target,
            },
    {
        proof {
            assert(self.frees()[k as int] == self.free_lists@[k as int]@);
        }
        let n = self.free_lists[k].len();
        let mut i: usize = 0;
        while i < n
            invariant
                self.frees().len() == ORDER,
                k < ORDER,
                n == self.frees()[k as int].len(),
                i <= n,
                self.frees()[k as int] == self.free_lists@[k as int]@,
                forall|j: int| 0 <= j < i ==> self.frees()[k as int][j] != target,
            decreases n - i,
        {
            if self.free_lists[k][i] == target {
                return Some(i);
            }
            i += 1;
        }
        None
    }

    /// Returns a block to the free lists, merging it with its buddy as
    /// long as the buddy is itself free, exactly as `coalesce_effect`
    /// describes.  `size` and `align` must be the values the block was
    /// allocated with.
    #[verifier::rlimit(100)]
    #[verifier::loop_isolation(false)]
    pub fn deallocate(&mut self, off: usize, size: usize, align: usize)
        requires
            old(self).wf(),
            old(self).is_init(),
            is_power_of_two(align as nat),
            request_need(size as nat, align as nat) <= old(self).capacity(),
            old(self).live().contains(
                (
                    off as nat,
                    order_for_spec(
                        old(self).min_blk(),
                        request_need(size as nat, align as nat),
                    ),
                ),
            ),
        ensures
            final(self).wf(),
            final(self).is_init(),
            final(self).capacity() == old(self).capacity(),
            final(self).min_blk() == old(self).min_blk(),
            final(self).live() == old(self).live().remove(
                (
                    off as nat,
                    order_for_spec(
                        old(self).min_blk(),
                        request_need(size as nat, align as nat),
                    ),
                ),
            ),
            final(self).frees() == coalesce_effect(
                old(self).frees(),
                old(self).min_blk(),
                off as nat,
                order_for_spec(old(self).min_blk(), request_need(size as nat, align as nat)),
            ),
    {
        let ghost mb = self.min_blk();
        let ghost fr0 = self.frees();
        let ghost live0 = self.live();
        let k0 = match self.order_for(size, align) {
            Some(k) => k,
            None => {
                proof {
                    assert(false);
                }
                return ;
            },
        };
        let ghost blk0 = (off as nat, k0 as nat);
        proof {
            self.allocated@ = self.allocated@.remove(blk0);
            assert(live_blocks_ok(live0, mb, self.capacity()));
            assert(live0.contains(blk0));
            assert(block_ok(off as nat, mb, k0 as nat, self.capacity()));
            let live1 = self.live();
            assert forall|q: int, i: int|
                0 <= q < ORDER && 0 <= i < fr0[q].len() implies ranges_disjoint(
                (#[trigger] fr0[q][i]) as nat,
                bsz(mb, q as nat),
                off as nat,
                bsz(mb, k0 as nat),
            ) by {
                assert(live0.contains(blk0));
            }
            assert forall|b: (nat, nat)| #[trigger]
                live1.contains(b) implies ranges_disjoint(
                off as nat,
                bsz(mb, k0 as nat),
                b.0,
                bsz(mb, b.1),
            ) by {
                assert(live0.contains(b) && b != blk0);
            }
            assert forall|b: nat|
                b < self.capacity() implies free_covers(fr0, mb, b) || live_covers(live1, mb, b)
                    || (off as nat <= b < off as nat + bsz(mb, k0 as nat)) by {
                if !free_covers(fr0, mb, b) {
                    let blk = choose|blk: (nat, nat)| #[trigger]
                        live0.contains(blk) && blk.0 <= b < blk.0 + bsz(mb, blk.1);
                    if blk != blk0 {
                        assert(live1.contains(blk));
                    }
                }
            }
        }
        let mut cur = off;
        let mut k = k0;
        while k < ORDER - 1
            invariant
                k0 <= k < ORDER,
                self.min_blk() == mb,
                self.min_blk() >= 8,
                is_power_of_two(mb),
                self.capacity() == old(self).capacity(),
                self.capacity() <= usize::MAX / 2,
                self.is_init(),
                valid_region_size(mb, self.capacity()),
                self.live() == live0.remove(blk0),
                self.frees().len() == ORDER,
                live_blocks_ok(self.live(), mb, self.capacity()),
                live_live_disjoint(self.live(), mb),
                block_ok(cur as nat, mb, k as nat, self.capacity()),
                free_blocks_ok(self.frees(), mb, self.capacity()),
                free_free_disjoint(self.frees(), mb),
                free_live_disjoint(self.frees(), self.live(), mb),
                no_free_buddies(self.frees(), mb),
                forall|q: int, i: int|
                    0 <= q < ORDER && 0 <= i < self.frees()[q].len() ==> ranges_disjoint(
                        (#[trigger] self.frees()[q][i]) as nat,
                        bsz(mb, q as nat),
                        cur as nat,
                        bsz(mb, k as nat),
                    ),
                forall|b: (nat, nat)| #[trigger]
                    self.live().contains(b) ==> ranges_disjoint(
                        cur as nat,
                        bsz(mb, k as nat),
                        b.0,
                        bsz(mb, b.1),
                    ),
                forall|b: nat|
                    b < self.capacity() ==> free_covers(self.frees(), mb, b) || live_covers(
                        self.live(),
                        mb,
                        b,
                    ) || (cur as nat <= b < cur as nat + bsz(mb, k as nat)),
                coalesce_effect(fr0, mb, off as nat, k0 as nat) == coalesce_effect(
                    self.frees(),
                    mb,
                    cur as nat,
                    k as nat,
                ),
            decreases ORDER - k,
        {
            let ghost frc = self.frees();
            proof {
                lemma_bsz_pos(mb, k as nat);
                lemma_bsz_mono(mb, k as nat, k as nat);
            }
            let s = self.block_size(k);
            proof {
                lemma_buddy(cur as nat, s as nat);
                lemma_bsz_double(mb, k as nat);
            }
            let bud = if (cur / s) % 2 == 0 {
                cur + s
            } else {
                cur - s
            };
            let ghost budn = buddy_of(cur as nat, bsz(mb, k as nat));
            proof {
                assert(bud as nat == budn);
            }
            match self.find_in_list(k, bud) {
                Some(i) => {
                    proof {
                        assert(frc[k as int][i as int] == bud);
                        assert(frc[k as int].contains(bud));
                        assert(self.free_lists@.len() == ORDER);
                        assert(self.free_lists@[k as int]@ == frc[k as int]);
                    }
                    let _removed = self.free_lists[k].remove(i);
                    let merged = if bud < cur {
                        bud
                    } else {
                        cur
                    };
                    proof {
                        let frn = self.frees();
                        let live1 = self.live();
                        assert(forall|q: int|
                            0 <= q < ORDER ==> (#[trigger] frn[q]) == self.free_lists@[q]@);
                        assert(frn[k as int] == frc[k as int].remove(i as int));
                        assert(forall|q: int| 0 <= q < ORDER && q != k ==> frn[q] == frc[q]);
                        // The removed entry is the first occurrence, so the
                        // spec-level removal by value removes the same index.
                        frc[k as int].index_of_first_ensures(bud);
                        let idx = frc[k as int].index_of_first(bud).unwrap();
                        assert(frc[k as int][idx] == bud);
                        if idx < i as int {
                            assert(frc[k as int][idx] != bud);
                            assert(false);
                        }
                        if idx > i as int {
                            assert(frc[k as int][i as int] != bud);
                            assert(false);
                        }
                        assert(frn[k as int] == frc[k as int].remove_value(bud));
                        assert(frn =~= frc.update(k as int, frc[k as int].remove_value(bud)));
                        // One unfolding of the coalescing recursion.
                        assert(coalesce_effect(frc, mb, cur as nat, k as nat) == coalesce_effect(
                            frn,
                            mb,
                            merged as nat,
                            (k + 1) as nat,
                        ));
                        // The merged block is well formed.
                        let ks = bsz(mb, k as nat);
                        let ks2 = bsz(mb, (k + 1) as nat);
                        assert(block_ok(bud as nat, mb, k as nat, self.capacity()));
                        if (cur as nat / ks) % 2 == 0 {
                            assert(merged == cur);
                            assert(merged as nat % ks2 == 0);
                            assert(merged as nat + ks2 == bud as nat + ks);
                        } else {
                            assert(merged == bud);
                            lemma_buddy(bud as nat, ks);
                            assert(merged as nat % ks2 == 0);
                            assert(merged as nat + ks2 == cur as nat + ks);
                        }
                        assert(block_ok(merged as nat, mb, (k + 1) as nat, self.capacity()));
                        assert forall|b: (nat, nat)| #[trigger]
                            live1.contains(b) implies ranges_disjoint(
                            merged as nat,
                            ks2,
                            b.0,
                            bsz(mb, b.1),
                        ) by {
                            lemma_bsz_pos(mb, b.1);
                            assert(ranges_disjoint(cur as nat, ks, b.0, bsz(mb, b.1)));
                            assert(ranges_disjoint(
                                (frc[k as int][i as int]) as nat,
                                bsz(mb, k as nat),
                                b.0,
                                bsz(mb, b.1),
                            ));
                        }
                        // Every remaining free block is disjoint from both
                        // halves of the merged block.
                        assert forall|q: int, i2: int|
                            0 <= q < ORDER && 0 <= i2 < frn[q].len() implies ranges_disjoint(
                            (#[trigger] frn[q][i2]) as nat,
                            bsz(mb, q as nat),
                            merged as nat,
                            ks2,
                        ) by {
                            let i3: int = if q == k && i2 >= i as int {
                                i2 + 1
                            } else {
                                i2
                            };
                            assert(frn[q][i2] == frc[q][i3]);
                            assert(ranges_disjoint(
                                (frc[q][i3]) as nat,
                                bsz(mb, q as nat),
                                cur as nat,
                                ks,
                            ));
                            assert((q != k || i3 != i as int) ==> ranges_disjoint(
                                (frc[q][i3]) as nat,
                                bsz(mb, q as nat),
                                (frc[k as int][i as int]) as nat,
                                bsz(mb, k as nat),
                            ));
                        }
                        assert forall|q: int, i2: int|
                            0 <= q < ORDER && 0 <= i2 < frn[q].len() implies block_ok(
                            (#[trigger] frn[q][i2]) as nat,
                            mb,
                            q as nat,
                            self.capacity(),
                        ) by {
                            let i3: int = if q == k && i2 >= i as int {
                                i2 + 1
                            } else {
                                i2
                            };
                            assert(frn[q][i2] == frc[q][i3]);
                        }
                        assert forall|k1: int, i1: int, k2: int, i2: int|
                            0 <= k1 < ORDER && 0 <= i1 < frn[k1].len() && 0 <= k2 < ORDER && 0
                                <= i2 < frn[k2].len() && (k1 != k2 || i1 != i2) implies
                            ranges_disjoint(
                            (frn[k1][i1]) as nat,
                            bsz(mb, k1 as nat),
                            (frn[k2][i2]) as nat,
                            bsz(mb, k2 as nat),
                        ) by {
                            let i3: int = if k1 == k && i1 >= i as int {
                                i1 + 1
                            } else {
                                i1
                            };
                            let i4: int = if k2 == k && i2 >= i as int {
                                i2 + 1
                            } else {
                                i2
                            };
                            assert(frn[k1][i1] == frc[k1][i3]);
                            assert(frn[k2][i2] == frc[k2][i4]);
                        }
                        assert forall|q: int, i2: int, b: (nat, nat)|
                            #![trigger frn[q][i2], live1.contains(b)]
                            0 <= q < ORDER && 0 <= i2 < frn[q].len() && live1.contains(b) implies
                            ranges_disjoint(
                            (frn[q][i2]) as nat,
                            bsz(mb, q as nat),
                            b.0,
                            bsz(mb, b.1),
                        ) by {
                            let i3: int = if q == k && i2 >= i as int {
                                i2 + 1
                            } else {
                                i2
                            };
                            assert(frn[q][i2] == frc[q][i3]);
                        }
                        assert forall|q: int, i2: int, j2: int|
                            0 <= q < ORDER && 0 <= i2 < frn[q].len() && 0 <= j2 < frn[q].len()
                            implies (frn[q][i2]) as nat != buddy_of(
                            (frn[q][j2]) as nat,
                            bsz(mb, q as nat),
                        ) by {
                            let i3: int = if q == k && i2 >= i as int {
                                i2 + 1
                            } else {
                                i2
                            };
                            let j3: int = if q == k && j2 >= i as int {
                                j2 + 1
                            } else {
                                j2
                            };
                            assert(frn[q][i2] == frc[q][i3]);
                            assert(frn[q][j2] == frc[q][j3]);
                        }
                        assert forall|b: nat|
                            b < self.capacity() implies free_covers(frn, mb, b) || live_covers(
                            live1,
                            mb,
                            b,
                        ) || (merged as nat <= b < merged as nat + ks2) by {
                            if free_covers(frc, mb, b) {
                                let (q, i2) = choose|q: int, i2: int|
                                    0 <= q < frc.len() && 0 <= i2 < frc[q].len() && (
                                    #[trigger] frc[q][i2]) as nat <= b < frc[q][i2] + bsz(
                                        mb,
                                        q as nat,
                                    );
                                if q == k && i2 == i as int {
                                    assert(bud as nat <= b < bud as nat + ks);
                                } else {
                                    let i3: int = if q == k && i2 > i as int {
                                        i2 - 1
                                    } else {
                                        i2
                                    };
                                    assert(frn[q][i3] == frc[q][i2]);
                                    assert(free_covers(frn, mb, b));
                                }
                            } else if live_covers(live1, mb, b) {
                            } else if cur as nat <= b < cur as nat + ks {
                            }
                        }
                    }
                    cur = merged;
                    k += 1;
                },
                None => {
                    proof {
                        assert(self.free_lists@.len() == ORDER);
                    }
                    self.free_lists[k].push(cur);
                    proof {
                        let frn = self.frees();
                        let live1 = self.live();
                        let ks = bsz(mb, k as nat);
                        assert(forall|q: int|
                            0 <= q < ORDER ==> (#[trigger] frn[q]) == self.free_lists@[q]@);
                        assert(frn[k as int] == frc[k as int].push(cur));
                        assert(forall|q: int| 0 <= q < ORDER && q != k ==> frn[q] == frc[q]);
                        assert(!frc[k as int].contains(bud as usize));
                        assert(coalesce_effect(frc, mb, cur as nat, k as nat) == frc.update(
                            k as int,
                            frc[k as int].push(cur),
                        ));
                        assert(frn =~= coalesce_effect(frc, mb, cur as nat, k as nat));
                        self.prove_after_push(frc, mb, cur, k, live1);
                    }
                    return ;
                },
            }
        }
        proof {
            let frc = self.frees();
            lemma_bsz_pos(mb, k as nat);
            lemma_buddy(cur as nat, bsz(mb, k as nat));
            let bud = buddy_of(cur as nat, bsz(mb, k as nat));
            let t = choose|t: nat| t < ORDER && self.capacity() == bsz(mb, t);
            if t < (ORDER - 1) as nat {
                lemma_bsz_strict_mono(mb, t, (ORDER - 1) as nat);
                assert(false);
            }
            assert(cur as nat == 0);
            assert(bud == bsz(mb, k as nat));
            assert forall|j2: int|
                0 <= j2 < frc[k as int].len() implies (#[trigger] frc[k as int][j2]) as nat
                != bud by {
                assert(block_ok((frc[k as int][j2]) as nat, mb, k as nat, self.capacity()));
            }
            assert(self.free_lists@.len() == ORDER);
        }
        let ghost frc2 = self.frees();
        self.free_lists[k].push(cur);
        proof {
            let frn = self.frees();
            let live1 = self.live();
            assert(forall|q: int| 0 <= q < ORDER ==> (#[trigger] frn[q]) == self.free_lists@[q]@);
            assert(frn[k as int] == frc2[k as int].push(cur));
            assert(forall|q: int| 0 <= q < ORDER && q != k ==> frn[q] == frc2[q]);
            let bud = buddy_of(cur as nat, bsz(mb, k as nat));
            assert(!frc2[k as int].contains(bud as usize)) by {
                if frc2[k as int].contains(bud as usize) {
                    let j2 = choose|j2: int|
                        0 <= j2 < frc2[k as int].len() && frc2[k as int][j2] == bud as usize;
                    assert((frc2[k as int][j2]) as nat != bud);
                    assert(false);
                }
            }
            assert(coalesce_effect(frc2, mb, cur as nat, k as nat) == frc2.update(
                k as int,
                frc2[k as int].push(cur),
            ));
            assert(frn =~= coalesce_effect(frc2, mb, cur as nat, k as nat));
            self.prove_after_push(frc2, mb, cur, k, live1);
        }
    }

    /// Re-establishes the engine invariant after `cur` has been pushed onto
    /// the order-`k` free list, given that the state before the push
    /// satisfied every invariant piece with `(cur, k)` held out, and that
    /// the buddy of `cur` was not free at order `k`.
    proof fn prove_after_push(
        &self,
        frc: Seq<Seq<usize>>,
        mb: nat,
        cur: usize,
        k: usize,
        live1: Set<(nat, nat)>,
    )
        requires
            self.min_blk() == mb,
            mb >= 8,
            is_power_of_two(mb),
            self.capacity() <= usize::MAX / 2,
            self.is_init(),
            valid_region_size(mb, self.capacity()),
            self.live() == live1,
            frc.len() == ORDER,
            k < ORDER,
            self.frees() == frc.update(k as int, frc[k as int].push(cur)),
            block_ok(cur as nat, mb, k as nat, self.capacity()),
            free_blocks_ok(frc, mb, self.capacity()),
            free_free_disjoint(frc, mb),
            free_live_disjoint(frc, live1, mb),
            live_blocks_ok(live1, mb, self.capacity()),
            live_live_disjoint(live1, mb),
            no_free_buddies(frc, mb),
            forall|q: int, i: int|
                0 <= q < ORDER && 0 <= i < frc[q].len() ==> ranges_disjoint(
                    (#[trigger] frc[q][i]) as nat,
                    bsz(mb, q as nat),
                    cur as nat,
                    bsz(mb, k as nat),
                ),
            forall|b: (nat, nat)| #[trigger]
                live1.contains(b) ==> ranges_disjoint(
                    cur as nat,
                    bsz(mb, k as nat),
                    b.0,
                    bsz(mb, b.1),
                ),
            forall|b: nat|
                b < self.capacity() ==> free_covers(frc, mb, b) || live_covers(live1, mb, b) || (
                cur as nat <= b < cur as nat + bsz(mb, k as nat)),
            forall|j2: int|
                0 <= j2 < frc[k as int].len() ==> (#[trigger] frc[k as int][j2]) as nat
                    != buddy_of(cur as nat, bsz(mb, k as nat)),
        ensures
            self.wf(),
    {
        let frn = self.frees();
        let ks = bsz(mb, k as nat);
        lemma_bsz_pos(mb, k as nat);
        lemma_buddy(cur as nat, ks);
        assert(frn.len() == ORDER);
        assert(frn[k as int] == frc[k as int].push(cur));
        assert(forall|q: int| 0 <= q < ORDER && q != k ==> frn[q] == frc[q]);
        assert forall|q: int, i: int|
            0 <= q < ORDER && 0 <= i < frn[q].len() implies block_ok(
            (#[trigger] frn[q][i]) as nat,
            mb,
            q as nat,
            self.capacity(),
        ) by {
            if q == k && i == frn[q].len() - 1 {
                assert(frn[q][i] == cur);
            } else {
                assert(frn[q][i] == frc[q][i]);
            }
        }
        assert forall|k1: int, i1: int, k2: int, i2: int|
            0 <= k1 < ORDER && 0 <= i1 < frn[k1].len() && 0 <= k2 < ORDER && 0 <= i2
                < frn[k2].len() && (k1 != k2 || i1 != i2) implies ranges_disjoint(
            (frn[k1][i1]) as nat,
            bsz(mb, k1 as nat),
            (frn[k2][i2]) as nat,
            bsz(mb, k2 as nat),
        ) by {
            if k1 == k && i1 == frn[k1].len() - 1 {
                assert(frn[k1][i1] == cur);
                assert(frn[k2][i2] == frc[k2][i2]);
            } else if k2 == k && i2 == frn[k2].len() - 1 {
                assert(frn[k2][i2] == cur);
                assert(frn[k1][i1] == frc[k1][i1]);
            } else {
                assert(frn[k1][i1] == frc[k1][i1] && frn[k2][i2] == frc[k2][i2]);
            }
        }
        assert forall|q: int, i: int, b: (nat, nat)|
            #![trigger frn[q][i], live1.contains(b)]
            0 <= q < ORDER && 0 <= i < frn[q].len() && live1.contains(b) implies ranges_disjoint(
            (frn[q][i]) as nat,
            bsz(mb, q as nat),
            b.0,
            bsz(mb, b.1),
        ) by {
            if q == k && i == frn[q].len() - 1 {
                assert(frn[q][i] == cur);
            } else {
                assert(frn[q][i] == frc[q][i]);
            }
        }
        assert forall|q: int, i: int, j2: int|
            0 <= q < ORDER && 0 <= i < frn[q].len() && 0 <= j2 < frn[q].len() implies (
        frn[q][i]) as nat != buddy_of((frn[q][j2]) as nat, bsz(mb, q as nat)) by {
            let qsz = bsz(mb, q as nat);
            if q == k && j2 == frn[q].len() - 1 {
                assert(frn[q][j2] == cur);
                if i == frn[q].len() - 1 {
                    assert(frn[q][i] == cur);
                    assert((cur as nat) != buddy_of(cur as nat, qsz));
                } else {
                    assert(frn[q][i] == frc[q][i]);
                }
            } else {
                assert(frn[q][j2] == frc[q][j2]);
                if q == k && i == frn[q].len() - 1 {
                    assert(frn[q][i] == cur);
                    assert((frc[q][j2]) as nat % qsz == 0);
                    lemma_buddy((frc[q][j2]) as nat, qsz);
                    if (cur as nat) == buddy_of((frc[q][j2]) as nat, qsz) {
                        assert((frc[q][j2]) as nat == buddy_of(cur as nat, qsz));
                        assert(false);
                    }
                } else {
                    assert(frn[q][i] == frc[q][i]);
                }
            }
        }
        assert forall|b: nat|
            b < self.capacity() implies free_covers(frn, mb, b) || live_covers(live1, mb, b) by {
            if free_covers(frc, mb, b) {
                let (q, i) = choose|q: int, i: int|
                    0 <= q < frc.len() && 0 <= i < frc[q].len() && (#[trigger] frc[q][i]) as nat
                        <= b < frc[q][i] + bsz(mb, q as nat);
                assert(frn[q][i] == frc[q][i]);
                assert(free_covers(frn, mb, b));
            } else if live_covers(live1, mb, b) {
            } else {
                let ii = frn[k as int].len() - 1;
                assert(frn[k as int][ii] == cur);
                assert(free_covers(frn, mb, b));
            }
        }
        assert(self.wf());
    }

    /// Seeds the engine with one maximal free block spanning the whole
    /// region.
    pub fn init(&mut self, size: usize)
        requires
            old(self).wf(),
            !old(self).is_init(),
            valid_region_size(old(self).min_blk(), size as nat),
            size <= usize::MAX / 2,
        ensures
            final(self).wf(),
            final(self).is_init(),
            final(self).capacity() == size as nat,
            final(self).min_blk() == old(self).min_blk(),
            final(self).live() == old(self).live(),
            forall|q: int|
                0 <= q < ORDER ==> final(self).frees()[q] == (if q == region_order(
                    old(self).min_blk(),
                    size as nat,
                ) {
                    seq![0usize]
                } else {
                    Seq::<usize>::empty()
                }),
    {
        let ghost mb = self.min_blk();
        let ghost t0 = region_order(mb, size as nat);
        proof {
            assert(t0 < ORDER && size as nat == bsz(mb, t0));
            lemma_bsz_zero(mb);
        }
        let mut p: usize = self.min_block;
        let mut t: usize = 0;
        while p < size
            invariant
                *self == *old(self),
                self.min_blk() == mb,
                mb >= 8,
                p >= 1,
                t < ORDER,
                p as nat == bsz(mb, t as nat),
                forall|e: nat| e < t ==> bsz(mb, e) < size as nat,
                size as nat == bsz(mb, t0),
                t0 < ORDER,
            decreases size - p,
        {
            proof {
                if t as nat >= t0 {
                    lemma_bsz_mono(mb, t0, t as nat);
                    assert(false);
                }
                lemma_bsz_double(mb, t as nat);
                lemma_bsz_strict_mono(mb, t as nat, t0);
            }
            p = p * 2;
            t += 1;
        }
        proof {
            if t as nat != t0 {
                if (t as nat) < t0 {
                    lemma_bsz_strict_mono(mb, t as nat, t0);
                } else {
                    lemma_bsz_mono(mb, t0, t as nat);
                }
                assert(false);
            }
        }
        proof {
            assert(self.free_lists@.len() == ORDER);
        }
        self.free_lists[t].push(0);
        self.size = size;
        self.inited = true;
        proof {
            let fl0 = old(self).free_lists@;
            let fl1 = self.free_lists@;
            assert(fl1[t as int]@ =~= fl0[t as int]@.push(0usize));
            assert(forall|q: int| 0 <= q < ORDER && q != t ==> fl1[q] == fl0[q]);
            assert(forall|q: int| 0 <= q < ORDER ==> (#[trigger] old(self).frees()[q]).len() == 0);
            assert(forall|q: int| 0 <= q < ORDER ==> (#[trigger] self.frees()[q]) == fl1[q]@);
            assert(forall|q: int| 0 <= q < ORDER ==> (#[trigger] old(self).frees()[q]) == fl0[q]@);
            let fr = self.frees();
            assert(old(self).frees()[t as int] == fl0[t as int]@);
            assert(fr[t as int] =~= seq![0usize]);
            assert forall|q: int| 0 <= q < ORDER && q != t implies fr[q] == Seq::<usize>::empty() by {
                assert(old(self).frees()[q] == fl0[q]@);
                assert(fr[q].len() == 0);
                assert(fr[q] =~= Seq::<usize>::empty());
            }
            lemma_bsz_pos(mb, t0);
            assert(0 as nat % bsz(mb, t0) == 0);
            assert(block_ok(0, mb, t0, self.capacity()));
            assert forall|k1: int, i1: int, k2: int, i2: int|
                0 <= k1 < fr.len() && 0 <= i1 < fr[k1].len() && 0 <= k2 < fr.len() && 0 <= i2
                    < fr[k2].len() && (k1 != k2 || i1 != i2) implies ranges_disjoint(
                (fr[k1][i1]) as nat,
                bsz(mb, k1 as nat),
                (fr[k2][i2]) as nat,
                bsz(mb, k2 as nat),
            ) by {
                assert(k1 == t && k2 == t && i1 == 0 && i2 == 0);
            }
            assert forall|k: int, i: int, j: int|
                0 <= k < fr.len() && 0 <= i < fr[k].len() && 0 <= j < fr[k].len() implies (
            fr[k][i]) as nat != buddy_of((fr[k][j]) as nat, bsz(mb, k as nat)) by {
                assert(k == t && i == 0 && j == 0);
                lemma_buddy(0, bsz(mb, t0));
            }
            assert forall|b: nat| b < self.capacity() implies free_covers(fr, mb, b) || live_covers(
                self.live(),
                mb,
                b,
            ) by {
                assert(fr[t as int][0] == 0usize);
                assert(0 <= b < 0 + bsz(mb, t as nat));
                assert(free_covers(fr, mb, b));
            }
            assert(self.wf());
        }
    }
}

/// Two distinct multiples of `d` are at least `d` apart.
proof fn lemma_multiples_step(a: nat, b: nat, d: nat)
    requires
        d > 0,
        a % d == 0,
        b % d == 0,
        a < b,
    ensures
        a + d <= b,
{
    let qa = (a as int) / (d as int);
    let qb = (b as int) / (d as int);
    lemma_fundamental_div_mod(a as int, d as int);
    lemma_fundamental_div_mod(b as int, d as int);
    assert(qa < qb) by (nonlinear_arith)
        requires
            a == qa * d,
            b == qb * d,
            a < b,
            d > 0,
    ;
    assert((qa + 1) * d <= qb * d) by (nonlinear_arith)
        requires
            qa + 1 <= qb,
            d > 0,
    ;
    assert(qa * d + d <= qb * d) by (nonlinear_arith)
        requires
            (qa + 1) * d <= qb * d,
    ;
}

/// An offset aligned to a larger order's block size is aligned to every
/// smaller order's block size.
proof fn lemma_align_down(mb: nat, off: nat, k1: nat, k2: nat)
    requires
        k1 <= k2,
        off % bsz(mb, k2) == 0,
        mb > 0,
    ensures
        off % bsz(mb, k1) == 0,
{
    lemma_bsz_divides(mb, k1, k2);
    let c = pow2((k2 - k1) as nat);
    lemma_pow2_pos((k2 - k1) as nat);
    lemma_bsz_pos(mb, k1);
    lemma_bsz_pos(mb, k2);
    let q = (off as int) / (bsz(mb, k2) as int);
    lemma_fundamental_div_mod(off as int, bsz(mb, k2) as int);
    assert(off == (bsz(mb, k2) as int) * q);
    assert(bsz(mb, k2) == bsz(mb, k1) * c);
    assert(off == (q * (c as int)) * (bsz(mb, k1) as int)) by (nonlinear_arith)
        requires
            off == (bsz(mb, k2) as int) * q,
            bsz(mb, k2) == bsz(mb, k1) * c,
    ;
    lemma_mod_multiples_basic(q * (c as int), bsz(mb, k1) as int);
}

/// Law: splitting a free block down to order `k` and then freeing the
/// order-`k` block that came out coalesces all the shed halves back and
/// restores the free lists exactly.  `j` is the order the block was taken
/// from: the lists between `k` and `j` were empty, as they are whenever
/// the splitting path of `allocate` runs.
pub proof fn lemma_round_trip_restores_free_lists(
    fr0: Seq<Seq<usize>>,
    mb: nat,
    off: usize,
    k: nat,
    j: int,
)
    requires
        mb >= 8,
        fr0.len() == ORDER,
        k <= j < ORDER,
        fr0[j].len() > 0,
        forall|j2: int| k <= j2 < j ==> fr0[j2].len() == 0,
        off == fr0[j].last(),
        (off as nat) % bsz(mb, j as nat) == 0,
        off as nat + bsz(mb, j as nat) <= usize::MAX,
        no_free_buddies(fr0, mb),
    ensures
        coalesce_effect(split_effect(fr0, mb, off as nat, k as int, j), mb, off as nat, k) == fr0,
    decreases j - k,
{
    lemma_bsz_pos(mb, k);
    lemma_bsz_mono(mb, k, j as nat);
    lemma_align_down(mb, off as nat, k, j as nat);
    let s = bsz(mb, k);
    let frk = split_effect(fr0, mb, off as nat, k as int, j);
    if k as int == j {
        let bud = buddy_of(off as nat, s);
        lemma_buddy(off as nat, s);
        assert(frk[j] == fr0[j].drop_last());
        if k < (ORDER - 1) as nat && frk[k as int].contains(bud as usize) {
            let i = choose|i: int|
                0 <= i < frk[k as int].len() && frk[k as int][i] == bud as usize;
            assert(fr0[j][i] == frk[j][i]);
            assert(fr0[j][fr0[j].len() - 1] == off);
            assert((fr0[j][i]) as nat == buddy_of((fr0[j][fr0[j].len() - 1]) as nat, s));
            assert(false);
        }
        let res = frk.update(k as int, frk[k as int].push(off));
        assert(coalesce_effect(frk, mb, off as nat, k) == res);
        assert(res[j] == fr0[j].drop_last().push(off));
        assert(res[j] =~= fr0[j]);
        assert(res =~= fr0);
    } else {
        lemma_bsz_double(mb, k);
        lemma_align_down(mb, off as nat, (k + 1) as nat, j as nat);
        lemma_align_half(off as nat, s);
        lemma_buddy(off as nat, s);
        let bud = buddy_of(off as nat, s);
        assert(bud == off as nat + s);
        assert(frk[k as int] == fr0[k as int].push((off as nat + s) as usize));
        assert(fr0[k as int].len() == 0);
        assert(frk[k as int].len() == 1);
        assert(frk[k as int][0] == (off as nat + s) as usize);
        assert((off as nat + s) as usize as nat == bud);
        assert(frk[k as int].contains(bud as usize));
        assert(k < (ORDER - 1) as nat);
        // Removing the shed half at order `k` leaves the split state one
        // order up.
        frk[k as int].index_of_first_ensures(bud as usize);
        let idx = frk[k as int].index_of_first(bud as usize).unwrap();
        assert(idx == 0);
        assert(frk[k as int].remove_value(bud as usize) =~= fr0[k as int]);
        let frk1 = frk.update(k as int, frk[k as int].remove_value(bud as usize));
        assert(frk1 =~= split_effect(fr0, mb, off as nat, (k + 1) as int, j));
        assert(coalesce_effect(frk, mb, off as nat, k) == coalesce_effect(
            frk1,
            mb,
            off as nat,
            (k + 1) as nat,
        ));
        lemma_bsz_mono(mb, (k + 1) as nat, j as nat);
        lemma_round_trip_restores_free_lists(fr0, mb, off, (k + 1) as nat, j);
    }
}

/// Law: an `allocate` that succeeds, immediately followed by `deallocate`
/// of the returned block with the same size and alignment, returns the
/// engine to exactly the free lists and live set it started from -- and
/// so does any number of such round trips in sequence.  `mid` is the
/// state after the allocation, `post` the state after the deallocation,
/// and `j` the order the allocation took its block from.
pub proof fn lemma_allocate_deallocate_round_trip(
    pre: BuddyEngine,
    mid: BuddyEngine,
    post: BuddyEngine,
    size: usize,
    align: usize,
    off: usize,
    j: int,
)
    requires
        pre.wf(),
        pre.is_init(),
        ({
            let mb = pre.min_blk();
            let k0 = order_for_spec(mb, request_need(size as nat, align as nat));
            &&& k0 <= j < ORDER
            &&& pre.frees()[j].len() > 0
            &&& (forall|j2: int| k0 <= j2 < j ==> pre.frees()[j2].len() == 0)
            &&& off == pre.frees()[j].last()
            &&& mid.frees() == split_effect(pre.frees(), mb, off as nat, k0 as int, j)
            &&& mid.live() == pre.live().insert((off as nat, k0))
            &&& mid.min_blk() == mb
            &&& post.frees() == coalesce_effect(mid.frees(), mb, off as nat, k0)
            &&& post.live() == mid.live().remove((off as nat, k0))
        }),
    ensures
        post.frees() == pre.frees(),
        post.live() == pre.live(),
{
    let mb = pre.min_blk();
    let k0 = order_for_spec(mb, request_need(size as nat, align as nat));
    assert(block_ok(
        (pre.frees()[j][pre.frees()[j].len() - 1]) as nat,
        mb,
        j as nat,
        pre.capacity(),
    ));
    assert((off as nat) % bsz(mb, j as nat) == 0);
    assert(off as nat + bsz(mb, j as nat) <= usize::MAX);
    lemma_round_trip_restores_free_lists(pre.frees(), mb, off, k0, j);
    // The block was free before the allocation, so it was not live; the
    // insert/remove pair cancels.
    assert(!pre.live().contains((off as nat, k0))) by {
        if pre.live().contains((off as nat, k0)) {
            lemma_bsz_pos(mb, k0);
            lemma_bsz_pos(mb, j as nat);
            assert(ranges_disjoint(
                (pre.frees()[j][pre.frees()[j].len() - 1]) as nat,
                bsz(mb, j as nat),
                off as nat,
                bsz(mb, k0),
            ));
        }
    }
    assert(post.live() =~= pre.live());
}

/// Law: when nothing is live, the free lists have coalesced all the way
/// back: exactly one free block, spanning the whole region at the top
/// order.
pub proof fn lemma_full_coalescence(e: BuddyEngine)
    requires
        e.wf(),
        e.is_init(),
        e.live() =~= Set::<(nat, nat)>::empty(),
    ensures
        forall|q: int|
            0 <= q < ORDER ==> e.frees()[q] == (if q == region_order(e.min_blk(), e.capacity()) {
                seq![0usize]
            } else {
                Seq::<usize>::empty()
            }),
{
    let mb = e.min_blk();
    let cap = e.capacity();
    let fr = e.frees();
    let t = region_order(mb, cap);
    assert(t < ORDER && cap == bsz(mb, t));
    lemma_bsz_pos(mb, t);
    // Some free block covers byte 0.
    assert(free_covers(fr, mb, 0)) by {
        assert(0 < cap);
        if live_covers(e.live(), mb, 0) {
            let blk = choose|blk: (nat, nat)| #[trigger]
                e.live().contains(blk) && blk.0 <= 0 < blk.0 + bsz(mb, blk.1);
            assert(false);
        }
    }
    let (qe, ie) = choose|qe: int, ie: int|
        0 <= qe < fr.len() && 0 <= ie < fr[qe].len() && (#[trigger] fr[qe][ie]) as nat <= 0
            < fr[qe][ie] + bsz(mb, qe as nat);
    let qm = min_nonempty_order(fr, 0);
    let om = (fr[qm][0]) as nat;
    let s = bsz(mb, qm as nat);
    lemma_bsz_pos(mb, qm as nat);
    assert(block_ok(om, mb, qm as nat, cap));
    if qm < t as int {
        // A minimal-order block below the top would have its whole buddy
        // pair inside the region, and the buddy's bytes must be covered
        // by some free block: every case contradicts an invariant.
        lemma_bsz_double(mb, qm as nat);
        lemma_buddy(om, s);
        let bud = buddy_of(om, s);
        let m: nat = if bud < om {
            bud
        } else {
            om
        };
        assert(m % (2 * s) == 0);
        lemma_bsz_divides(mb, (qm + 1) as nat, t);
        assert(cap % (2 * s) == 0) by {
            lemma_mod_multiples_basic(pow2((t - (qm + 1) as nat) as nat) as int, (2 * s) as int);
            assert(cap == (2 * s) * pow2((t - (qm + 1) as nat) as nat));
            assert(cap == pow2((t - (qm + 1) as nat) as nat) * (2 * s)) by (nonlinear_arith)
                requires
                    cap == (2 * s) * pow2((t - (qm + 1) as nat) as nat),
            ;
        }
        assert(m < cap);
        assert(m + 2 * s <= cap) by {
            lemma_multiples_step(m, cap, 2 * s);
        }
        assert(bud < cap);
        assert(free_covers(fr, mb, bud)) by {
            if live_covers(e.live(), mb, bud) {
                let blk = choose|blk: (nat, nat)| #[trigger]
                    e.live().contains(blk) && blk.0 <= bud < blk.0 + bsz(mb, blk.1);
                assert(false);
            }
        }
        let (qb, ib) = choose|qb: int, ib: int|
            0 <= qb < fr.len() && 0 <= ib < fr[qb].len() && (#[trigger] fr[qb][ib]) as nat <= bud
                < fr[qb][ib] + bsz(mb, qb as nat);
        let ob = (fr[qb][ib]) as nat;
        if qb < qm {
            assert(fr[qb].len() == 0);
            assert(false);
        } else if qb == qm {
            assert(ob % s == 0);
            if ob < bud {
                lemma_multiples_step(ob, bud, s);
                assert(false);
            }
            assert(ob == bud);
            assert((fr[qb][ib]) as nat == buddy_of((fr[qm][0]) as nat, s));
            assert(false);
        } else {
            let sb = bsz(mb, qb as nat);
            lemma_bsz_divides(mb, (qm + 1) as nat, qb as nat);
            lemma_align_down(mb, ob, (qm + 1) as nat, qb as nat);
            assert(ob % (2 * s) == 0);
            assert(ob <= m) by {
                if m < ob {
                    lemma_multiples_step(m, ob, 2 * s);
                    assert(false);
                }
            }
            assert(m + 2 * s <= ob + sb) by {
                assert((ob + sb) % (2 * s) == 0) by {
                    let c2 = pow2((qb as nat - (qm + 1) as nat) as nat);
                    assert(sb == (2 * s) * c2);
                    let qo = (ob as int) / ((2 * s) as int);
                    lemma_fundamental_div_mod(ob as int, (2 * s) as int);
                    assert(ob + sb == (qo + c2) * ((2 * s) as int)) by (nonlinear_arith)
                        requires
                            ob == qo * ((2 * s) as int),
                            sb == (2 * s) * c2,
                    ;
                    lemma_mod_multiples_basic(qo + c2 as int, (2 * s) as int);
                }
                assert(m < ob + sb);
                lemma_multiples_step(m, ob + sb, 2 * s);
            }
            assert(om < ob + sb && ob < om + s);
            assert(!ranges_disjoint(ob, sb, om, s));
            assert(ranges_disjoint(
                (fr[qb][ib]) as nat,
                bsz(mb, qb as nat),
                (fr[qm][0]) as nat,
                bsz(mb, qm as nat),
            ));
            assert(false);
        }
    }
    assert(qm <= t as int) by {
        if qm > t as int {
            lemma_bsz_strict_mono(mb, t, qm as nat);
            assert(om + bsz(mb, qm as nat) <= cap);
            assert(false);
        }
    }
    assert(qm == t as int);
    assert(om + s <= cap && s == cap);
    assert(om == 0);
    assert forall|q: int| 0 <= q < ORDER && q != t as int implies (#[trigger] fr[q]).len()
        == 0 by {
        if fr[q].len() > 0 {
            assert(block_ok((fr[q][0]) as nat, mb, q as nat, cap));
            lemma_bsz_pos(mb, q as nat);
            if q > t as int {
                lemma_bsz_strict_mono(mb, t, q as nat);
            }
            assert(false);
        }
    }
    assert(fr[t as int].len() == 1) by {
        if fr[t as int].len() > 1 {
            assert(block_ok((fr[t as int][0]) as nat, mb, t, cap));
            assert(block_ok((fr[t as int][1]) as nat, mb, t, cap));
            assert((fr[t as int][0]) as nat == 0 && (fr[t as int][1]) as nat == 0);
            assert(ranges_disjoint(
                (fr[t as int][0]) as nat,
                bsz(mb, t),
                (fr[t as int][1]) as nat,
                bsz(mb, t),
            ));
            assert(false);
        }
    }
    assert(block_ok((fr[t as int][0]) as nat, mb, t, cap));
    assert((fr[t as int][0]) as nat == 0);
    assert forall|q: int| 0 <= q < ORDER implies fr[q] == (if q == t as int {
        seq![0usize]
    } else {
        Seq::<usize>::empty()
    }) by {
        if q == t as int {
            assert(fr[q] =~= seq![0usize]);
        } else {
            assert(fr[q] =~= Seq::<usize>::empty());
        }
    }
}

/// The smallest order at or above `lo` whose free list is non-empty.
proof fn min_nonempty_order(fr: Seq<Seq<usize>>, lo: int) -> (q: int)
    requires
        0 <= lo < fr.len(),
        exists|q2: int| lo <= q2 < fr.len() && (#[trigger] fr[q2]).len() > 0,
    ensures
        lo <= q < fr.len(),
        fr[q].len() > 0,
        forall|q2: int| 0 <= q2 < q ==> lo <= q2 ==> (#[trigger] fr[q2]).len() == 0,
    decreases fr.len() - lo,
{
    if fr[lo].len() > 0 {
        lo
    } else {
        min_nonempty_order(fr, lo + 1)
    }
}

/// Law: under the engine invariant every tracked block -- free or live --
/// lies inside the region, and no two distinct tracked blocks overlap.  In
/// particular any block `allocate` has handed out and not yet taken back
/// overlaps neither another live block nor any free block.
pub proof fn lemma_blocks_in_region_and_disjoint(e: BuddyEngine)
    requires
        e.wf(),
    ensures
        free_blocks_ok(e.frees(), e.min_blk(), e.capacity()),
        live_blocks_ok(e.live(), e.min_blk(), e.capacity()),
        free_free_disjoint(e.frees(), e.min_blk()),
        free_live_disjoint(e.frees(), e.live(), e.min_blk()),
        live_live_disjoint(e.live(), e.min_blk()),
{
}

} // verus!
