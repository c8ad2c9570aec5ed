//! The shared heap region descriptor and the initialization protocol.
//!
//! The region descriptor records where the mapped segment lives and how
//! large it is; the process glue that performs the actual mapping
//! validates its parameters through `HeapRegion::new` before feeding the
//! size to the engine.  The protocol state machine makes the one-shot
//! initialization order -- construct, map, initialize, only then allocate
//! -- explicit and checkable.

use vstd::prelude::*;
use crate::engine::{is_power_of_two, BuddyEngine};

verus! {

/// A contiguous region of the address space backing the heap: a base
/// address and a size in bytes.  The base is aligned to the region size,
/// so every block offset the engine hands out keeps its alignment as an
/// absolute address.
pub struct HeapRegion {
    base: usize,
    size: usize,
}

impl HeapRegion {
    /// The base address.
    pub closed spec fn base_addr(self) -> nat {
        self.base as nat
    }

    /// The size in bytes.
    pub closed spec fn size_bytes(self) -> nat {
        self.size as nat
    }

    /// A valid descriptor: power-of-two size, base aligned to the minimum
    /// block so offsets keep their alignment, and no wrap-around.
    pub open spec fn wf(self) -> bool {
        &&& is_power_of_two(self.size_bytes())
        &&& self.size_bytes() <= usize::MAX / 2
        &&& self.base_addr() + self.size_bytes() <= usize::MAX
    }

    /// Builds a descriptor for a mapped segment, exactly when the
    /// parameters are acceptable: `size` a power of two no larger than
    /// half the address space, and `base + size` not wrapping around.
    pub fn new(base: usize, size: usize) -> (r: Option<HeapRegion>)
        ensures
            match r {
                Some(hr) => hr.wf() && hr.base_addr() == base as nat && hr.size_bytes()
                    == size as nat,
                None => !(is_power_of_two(size as nat) && size <= usize::MAX / 2 && base + size
                    <= usize::MAX),
            },
            r is Some <==> (is_power_of_two(size as nat) && size <= usize::MAX / 2 && base + size
                <= usize::MAX),
    {
        if !BuddyEngine::power_of_two_check(size) {
            return None;
        }
        if size > usize::MAX / 2 {
            return None;
        }
        if base > usize::MAX - size {
            return None;
        }
        Some(HeapRegion { base, size })
    }

    /// The base address.
    pub fn base(&self) -> (r: usize)
        ensures
            r as nat == self.base_addr(),
    {
        self.base
    }

    /// The size in bytes.
    pub fn size(&self) -> (r: usize)
        ensures
            r as nat == self.size_bytes(),
    {
        self.size
    }

    /// Turns an absolute address inside the region into an offset the
    /// engine understands.
    pub fn offset_of(&self, addr: usize) -> (r: usize)
        requires
            self.wf(),
            self.base_addr() <= addr as nat,
            (addr as nat) < self.base_addr() + self.size_bytes(),
        ensures
            r as nat == addr as nat - self.base_addr(),
            r < self.size_bytes(),
    {
        addr - self.base
    }

    /// Turns an engine offset into the absolute address it names.
    pub fn address_of(&self, off: usize) -> (r: usize)
        requires
            self.wf(),
            (off as nat) < self.size_bytes(),
        ensures
            r as nat == self.base_addr() + off as nat,
    {
        self.base + off
    }
}

/// The phases of process start-up: nothing mapped yet, the shared segment
/// being opened and mapped, and the engine initialized over it.  Requests
/// may reach the allocator only in the last phase; the transitions go one
/// way.
pub enum InitState {
    Uninitialized,
    Mapping,
    Initialized,
}

impl InitState {
    /// The state a process starts in.
    pub fn start() -> (r: InitState)
        ensures
            r is Uninitialized,
    {
        InitState::Uninitialized
    }

    /// Entering the mapping phase: only allowed once, from the start
    /// state.
    pub fn begin_mapping(&mut self)
        requires
            *old(self) is Uninitialized,
        ensures
            *final(self) is Mapping,
    {
        *self = InitState::Mapping;
    }

    /// The region is mapped and the engine seeded: the allocator becomes
    /// usable.
    pub fn finish(&mut self)
        requires
            *old(self) is Mapping,
        ensures
            *final(self) is Initialized,
    {
        *self = InitState::Initialized;
    }

    /// Whether allocation requests may be served in this state.
    pub fn allocation_allowed(&self) -> (r: bool)
        ensures
            r <==> *self is Initialized,
    {
        match self {
            InitState::Initialized => true,
            InitState::Uninitialized => false,
            InitState::Mapping => false,
        }
    }
}

} // verus!