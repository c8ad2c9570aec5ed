//! A heap: the buddy engine together with the bytes of the region it
//! manages, exposing the four operations of the allocator interface --
//! allocate, allocate-zeroed, deallocate and reallocate -- with their
//! content semantics.  Offsets returned by the engine index directly into
//! the region's bytes.

use vstd::prelude::*;
use crate::engine::{
    bsz, block_ok, coalesce_effect, is_power_of_two, order_for_spec, ranges_disjoint,
    region_order, request_need, split_effect, valid_region_size, BuddyEngine,
    lemma_blocks_in_region_and_disjoint, ORDER,
};

verus! {

/// A buddy-managed region of bytes.
pub struct RegionHeap {
    engine: BuddyEngine,
    mem: Vec<u8>,
}

impl RegionHeap {
    /// The underlying engine.
    pub closed spec fn eng(self) -> BuddyEngine {
        self.engine
    }

    /// The bytes of the region.
    pub closed spec fn bytes(self) -> Seq<u8> {
        self.mem@
    }

    /// The free lists of the underlying engine.
    pub closed spec fn frees(self) -> Seq<Seq<usize>> {
        self.engine.frees()
    }

    /// The live blocks of the underlying engine.
    pub closed spec fn live(self) -> Set<(nat, nat)> {
        self.engine.live()
    }

    /// The region size in bytes.
    pub closed spec fn capacity(self) -> nat {
        self.engine.capacity()
    }

    /// The minimum block size in bytes.
    pub closed spec fn min_blk(self) -> nat {
        self.engine.min_blk()
    }

    /// The heap invariant: an initialized, well-formed engine whose
    /// capacity equals the number of bytes held.
    pub open spec fn wf(self) -> bool {
        &&& self.eng().wf()
        &&& self.eng().is_init()
        &&& self.bytes().len() == self.capacity()
    }

    /// Creates a heap over a fresh all-zero region of `size` bytes.
    pub fn new(min_block: usize, size: usize) -> (r: RegionHeap)
        requires
            is_power_of_two(min_block as nat),
            min_block >= 8,
            valid_region_size(min_block as nat, size as nat),
            size <= usize::MAX / 2,
        ensures
            r.wf(),
            r.capacity() == size as nat,
            r.min_blk() == min_block as nat,
            r.live() =~= Set::<(nat, nat)>::empty(),
            forall|q: int|
                0 <= q < ORDER ==> r.frees()[q] == (if q == region_order(
                    min_block as nat,
                    size as nat,
                ) {
                    seq![0usize]
                } else {
                    Seq::<usize>::empty()
                }),
            r.bytes().len() == size as nat,
            forall|i: int| 0 <= i < size ==> r.bytes()[i] == 0u8,
    {
        let mut engine = BuddyEngine::new(min_block);
        engine.init(size);
        let mem = vec![0u8; size];
        RegionHeap { engine, mem }
    }

    /// The region size in bytes.
    pub fn capacity_bytes(&self) -> (r: usize)
        ensures
            r as nat == self.capacity(),
    {
        self.engine.capacity_bytes()
    }

    /// The minimum block size in bytes.
    pub fn min_block_bytes(&self) -> (r: usize)
        ensures
            r as nat == self.min_blk(),
    {
        self.engine.min_block_bytes()
    }

    /// How many free blocks the order-`k` list holds.
    pub fn free_count(&self, k: usize) -> (r: usize)
        requires
            self.wf(),
            k < ORDER,
        ensures
            r == self.frees()[k as int].len(),
    {
        self.engine.free_count(k)
    }

    /// The offset of the `i`-th free block in the order-`k` list.
    pub fn free_block(&self, k: usize, i: usize) -> (r: usize)
        requires
            self.wf(),
            k < ORDER,
            i < self.frees()[k as int].len(),
        ensures
            r == self.frees()[k as int][i as int],
    {
        self.engine.free_block(k, i)
    }

    /// Reads the byte at `i`.
    pub fn read_byte(&self, i: usize) -> (r: u8)
        requires
            self.wf(),
            i < self.capacity(),
        ensures
            r == self.bytes()[i as int],
    {
        self.mem[i]
    }

    /// Writes the byte at `i`.
    pub fn write_byte(&mut self, i: usize, v: u8)
        requires
            old(self).wf(),
            i < old(self).capacity(),
        ensures
            final(self).wf(),
            final(self).bytes() == old(self).bytes().update(i as int, v),
            final(self).frees() == old(self).frees(),
            final(self).live() == old(self).live(),
            final(self).capacity() == old(self).capacity(),
            final(self).min_blk() == old(self).min_blk(),
    {
        self.mem[i] = v;
    }

    /// Serves an allocation request; the bytes of the region are left as
    /// they are.
    pub fn allocate(&mut self, size: usize, align: usize) -> (r: Option<usize>)
        requires
            old(self).wf(),
            is_power_of_two(align as nat),
        ensures
            final(self).wf(),
            final(self).capacity() == old(self).capacity(),
            final(self).min_blk() == old(self).min_blk(),
            final(self).bytes() == old(self).bytes(),
            r is None ==> *final(self) == *old(self),
            r is Some <==> ({
                let need = request_need(size as nat, align as nat);
                need <= old(self).capacity() && (exists|j: int|
                    order_for_spec(old(self).min_blk(), need) <= j < ORDER && (#[trigger] old(
                        self,
                    ).frees()[j]).len() > 0)
            }),
            r matches Some(off) ==> ({
                let mb = old(self).min_blk();
                let k0 = order_for_spec(mb, request_need(size as nat, align as nat));
                &&& bsz(mb, k0) >= size as nat
                &&& off as nat % align as nat == 0
                &&& block_ok(off as nat, mb, k0, old(self).capacity())
                &&& final(self).live() == old(self).live().insert((off as nat, k0))
                &&& !old(self).live().contains((off as nat, k0))
                &&& (exists|j: int|
                    {
                        &&& k0 <= j < ORDER
                        &&& (#[trigger] old(self).frees()[j]).len() > 0
                        &&& (forall|j2: int| k0 <= j2 < j ==> old(self).frees()[j2].len() == 0)
                        &&& off == old(self).frees()[j].last()
                        &&& final(self).frees() == split_effect(
                            old(self).frees(),
                            mb,
                            off as nat,
                            k0 as int,
                            j,
                        )
                    })
            }),
    {
        let r = self.engine.allocate(size, align);
        proof {
            let need = request_need(size as nat, align as nat);
            let k0 = order_for_spec(old(self).min_blk(), need);
            if exists|j: int| k0 <= j < ORDER && (#[trigger] old(self).frees()[j]).len() > 0 {
                let j = choose|j: int|
                    k0 <= j < ORDER && (#[trigger] old(self).frees()[j]).len() > 0;
                assert(k0 <= j < ORDER && (#[trigger] old(self).eng().frees()[j]).len() > 0);
            }
            if exists|j: int| k0 <= j < ORDER && (#[trigger] old(self).eng().frees()[j]).len() > 0 {
                let j = choose|j: int|
                    k0 <= j < ORDER && (#[trigger] old(self).eng().frees()[j]).len() > 0;
                assert(k0 <= j < ORDER && (#[trigger] old(self).frees()[j]).len() > 0);
            }
            if r is Some {
                let off = r.unwrap();
                let jj = choose|jj: int|
                    {
                        &&& k0 <= jj < ORDER
                        &&& (#[trigger] old(self).eng().frees()[jj]).len() > 0
                        &&& (forall|j2: int|
                            k0 <= j2 < jj ==> old(self).eng().frees()[j2].len() == 0)
                        &&& off == old(self).eng().frees()[jj].last()
                        &&& self.eng().frees() == split_effect(
                            old(self).eng().frees(),
                            old(self).min_blk(),
                            off as nat,
                            k0 as int,
                            jj,
                        )
                    };
                assert((#[trigger] old(self).frees()[jj]).len() > 0);
                assert(forall|j2: int| k0 <= j2 < jj ==> old(self).frees()[j2].len() == 0);
            }
        }
        r
    }

    /// Serves an allocation request and zero-fills the requested length.
    #[verifier::loop_isolation(false)]
    pub fn allocate_zeroed(&mut self, size: usize, align: usize) -> (r: Option<usize>)
        requires
            old(self).wf(),
            is_power_of_two(align as nat),
        ensures
            final(self).wf(),
            final(self).capacity() == old(self).capacity(),
            final(self).min_blk() == old(self).min_blk(),
            r is None ==> *final(self) == *old(self),
            r is Some <==> ({
                let need = request_need(size as nat, align as nat);
                need <= old(self).capacity() && (exists|j: int|
                    order_for_spec(old(self).min_blk(), need) <= j < ORDER && (#[trigger] old(
                        self,
                    ).frees()[j]).len() > 0)
            }),
            r matches Some(off) ==> ({
                let mb = old(self).min_blk();
                let k0 = order_for_spec(mb, request_need(size as nat, align as nat));
                &&& bsz(mb, k0) >= size as nat
                &&& off as nat % align as nat == 0
                &&& block_ok(off as nat, mb, k0, old(self).capacity())
                &&& final(self).live() == old(self).live().insert((off as nat, k0))
                &&& (forall|i: int|
                    off <= i < off + size ==> final(self).bytes()[i] == 0u8)
                &&& (forall|i: int|
                    0 <= i < old(self).capacity() && !(off <= i < off + size)
                        ==> final(self).bytes()[i] == old(self).bytes()[i])
            }),
    {
        let r = self.engine.allocate(size, align);
        proof {
            let need = request_need(size as nat, align as nat);
            let k0 = order_for_spec(old(self).min_blk(), need);
            if exists|j: int| k0 <= j < ORDER && (#[trigger] old(self).frees()[j]).len() > 0 {
                let j = choose|j: int|
                    k0 <= j < ORDER && (#[trigger] old(self).frees()[j]).len() > 0;
                assert(k0 <= j < ORDER && (#[trigger] old(self).eng().frees()[j]).len() > 0);
            }
            if exists|j: int| k0 <= j < ORDER && (#[trigger] old(self).eng().frees()[j]).len() > 0 {
                let j = choose|j: int|
                    k0 <= j < ORDER && (#[trigger] old(self).eng().frees()[j]).len() > 0;
                assert(k0 <= j < ORDER && (#[trigger] old(self).frees()[j]).len() > 0);
            }
        }
        match r {
            Some(off) => {
                proof {
                    let mb = old(self).min_blk();
                    let k0 = order_for_spec(mb, request_need(size as nat, align as nat));
                    assert(bsz(mb, k0) >= size as nat);
                    assert(off as nat + size as nat <= self.capacity());
                }
                let ghost eng1 = self.engine;
                let mut i: usize = 0;
                while i < size
                    invariant
                        self.engine == eng1,
                        i <= size,
                        off + size <= self.mem@.len(),
                        self.mem@.len() == old(self).capacity(),
                        forall|x: int| off <= x < off + i ==> self.mem@[x] == 0u8,
                        forall|x: int|
                            0 <= x < self.mem@.len() && !(off <= x < off + i) ==> self.mem@[x]
                                == old(self).bytes()[x],
                    decreases size - i,
                {
                    self.mem[off + i] = 0u8;
                    i += 1;
                }
                Some(off)
            },
            None => None,
        }
    }

    /// Returns a block to the free lists.  `size` and `align` must be the
    /// values it was allocated with.
    pub fn deallocate(&mut self, off: usize, size: usize, align: usize)
        requires
            old(self).wf(),
            is_power_of_two(align as nat),
            request_need(size as nat, align as nat) <= old(self).capacity(),
            old(self).live().contains(
                (
                    off as nat,
                    order_for_spec(
                        old(self).min_blk(),
                        request_need(size as nat, align as nat),
                    ),
                ),
            ),
        ensures
            final(self).wf(),
            final(self).capacity() == old(self).capacity(),
            final(self).min_blk() == old(self).min_blk(),
            final(self).bytes() == old(self).bytes(),
            final(self).live() == old(self).live().remove(
                (
                    off as nat,
                    order_for_spec(
                        old(self).min_blk(),
                        request_need(size as nat, align as nat),
                    ),
                ),
            ),
            final(self).frees() == coalesce_effect(
                old(self).frees(),
                old(self).min_blk(),
                off as nat,
                order_for_spec(old(self).min_blk(), request_need(size as nat, align as nat)),
            ),
    {
        self.engine.deallocate(off, size, align)
    }

    /// Resizes a live block.  If the new size still fits the block's order
    /// class the block is returned unchanged; otherwise a new block is
    /// allocated, the first `min(old_size, new_size)` bytes are copied
    /// over, and the old block is freed.  On failure the heap -- the old
    /// block included -- is left untouched.
    #[verifier::rlimit(60)]
    #[verifier::loop_isolation(false)]
    pub fn reallocate(&mut self, off: usize, old_size: usize, align: usize, new_size: usize) -> (r:
        Option<usize>)
        requires
            old(self).wf(),
            is_power_of_two(align as nat),
            request_need(old_size as nat, align as nat) <= old(self).capacity(),
            old(self).live().contains(
                (
                    off as nat,
                    order_for_spec(
                        old(self).min_blk(),
                        request_need(old_size as nat, align as nat),
                    ),
                ),
            ),
        ensures
            final(self).wf(),
            final(self).capacity() == old(self).capacity(),
            final(self).min_blk() == old(self).min_blk(),
            r is None ==> *final(self) == *old(self),
            r is Some <==> ({
                let mb = old(self).min_blk();
                let k_old = order_for_spec(mb, request_need(old_size as nat, align as nat));
                let need_new = request_need(new_size as nat, align as nat);
                let k_new = order_for_spec(mb, need_new);
                need_new <= old(self).capacity() && (k_new == k_old || (exists|j: int|
                    k_new <= j < ORDER && (#[trigger] old(self).frees()[j]).len() > 0))
            }),
            ({
                let mb = old(self).min_blk();
                let k_old = order_for_spec(mb, request_need(old_size as nat, align as nat));
                let k_new = order_for_spec(mb, request_need(new_size as nat, align as nat));
                let m: int = if old_size <= new_size {
                    old_size as int
                } else {
                    new_size as int
                };
                &&& (request_need(new_size as nat, align as nat) > old(self).capacity() ==> r
                    is None)
                &&& (request_need(new_size as nat, align as nat) <= old(self).capacity()
                    && k_new == k_old ==> r == Some(off) && *final(self) == *old(self))
                &&& (r matches Some(noff) ==> k_new == k_old || {
                    &&& block_ok(noff as nat, mb, k_new, old(self).capacity())
                    &&& noff as nat % align as nat == 0
                    &&& final(self).live() == old(self).live().remove(
                        (off as nat, k_old),
                    ).insert((noff as nat, k_new))
                    &&& (forall|x: int|
                        0 <= x < m ==> #[trigger] final(self).bytes()[noff + x] == old(
                            self,
                        ).bytes()[off + x])
                    &&& (forall|y: int|
                        0 <= y < old(self).capacity() && !(noff <= y < noff + m)
                            ==> final(self).bytes()[y] == old(self).bytes()[y])
                })
            }),
    {
        let ghost mb = self.min_blk();
        let ghost k_oldg = order_for_spec(mb, request_need(old_size as nat, align as nat));
        let ghost k_newg = order_for_spec(mb, request_need(new_size as nat, align as nat));
        let k_old = match self.engine.order_for(old_size, align) {
            Some(k) => k,
            None => {
                proof {
                    assert(false);
                }
                return None;
            },
        };
        let k_new = match self.engine.order_for(new_size, align) {
            Some(k) => k,
            None => {
                return None;
            },
        };
        if k_new == k_old {
            return Some(off);
        }
        let noff = match self.engine.allocate(new_size, align) {
            Some(o) => o,
            None => {
                proof {
                    if exists|j: int|
                        k_newg <= j < ORDER && (#[trigger] old(self).frees()[j]).len() > 0 {
                        let j = choose|j: int|
                            k_newg <= j < ORDER && (#[trigger] old(self).frees()[j]).len() > 0;
                        assert(k_newg <= j < ORDER && (#[trigger] old(self).eng().frees()[j]).len()
                            > 0);
                        assert(false);
                    }
                }
                return None;
            },
        };
        proof {
            assert(exists|j: int|
                k_newg <= j < ORDER && (#[trigger] old(self).frees()[j]).len() > 0) by {
                let j = choose|j: int|
                    k_newg <= j < ORDER && (#[trigger] old(self).eng().frees()[j]).len() > 0;
                assert(k_newg <= j < ORDER && (#[trigger] old(self).frees()[j]).len() > 0);
            }
        }
        proof {
            // The new block and the old block are distinct live blocks,
            // hence disjoint; the copied prefixes cannot overlap.
            let ob = (off as nat, k_oldg);
            let nb = (noff as nat, k_newg);
            assert(self.engine.live().contains(nb));
            assert(old(self).live().contains(ob));
            assert(self.engine.live().contains(ob));
            assert(nb != ob);
            lemma_blocks_in_region_and_disjoint(self.engine);
            assert(ranges_disjoint(nb.0, bsz(mb, k_newg), ob.0, bsz(mb, k_oldg)));
            assert(bsz(mb, k_oldg) >= old_size as nat);
            assert(bsz(mb, k_newg) >= new_size as nat);
            assert(noff as nat + new_size as nat <= self.capacity());
            assert(off as nat + old_size as nat <= self.capacity());
        }
        let m = if old_size <= new_size {
            old_size
        } else {
            new_size
        };
        let ghost mem1 = self.mem@;
        let ghost eng1 = self.engine;
        let mut x: usize = 0;
        while x < m
            invariant
                self.engine == eng1,
                x <= m,
                m <= old_size && m <= new_size,
                noff + m <= self.mem@.len(),
                off + m <= self.mem@.len(),
                self.mem@.len() == old(self).capacity(),
                ranges_disjoint(noff as nat, m as nat, off as nat, m as nat) || noff == off,
                mem1 == old(self).bytes(),
                forall|y: int| off <= y < off + m ==> self.mem@[y] == mem1[y],
                forall|y: int| 0 <= y < x ==> #[trigger] self.mem@[noff + y] == mem1[off + y],
                forall|y: int|
                    0 <= y < self.mem@.len() && !(noff <= y < noff + x) ==> self.mem@[y] == mem1[y],
            decreases m - x,
        {
            let b = self.mem[off + x];
            self.mem[noff + x] = b;
            x += 1;
        }
        self.engine.deallocate(off, old_size, align);
        proof {
            assert(self.live() =~= old(self).live().remove((off as nat, k_oldg)).insert(
                (noff as nat, k_newg),
            ));
        }
        Some(noff)
    }
}

} // verus!