//! Model of a process address space, as the OS memory map reports it.
//!
//! A [`MemorySpace`] is an explicit snapshot of the map: a sorted, disjoint
//! sequence of [`Region`]s, each a contiguous span with one protection value
//! and its bytes.  Every component of the engine — scanner, writer,
//! orchestrator — works on this model, so its behaviour is provable; a host
//! adapter is responsible for filling the model from the live process.

use vstd::prelude::*;

verus! {

/// Protection classification of one region, as the OS reports it.
#[derive(Clone, Copy, PartialEq, Eq, Structural, Debug)]
pub enum Protection {
    ExecuteRead,
    ExecuteReadWrite,
    ReadOnly,
    ReadWrite,
    /// No-access, guard and reserved-but-unmapped pages, and every other
    /// protection value.  Such regions are skipped entirely by the scanner.
    NoAccess,
}

/// The four protection values whose regions are scan candidates.
pub open spec fn spec_readable(p: Protection) -> bool {
    ||| p == Protection::ExecuteRead
    ||| p == Protection::ExecuteReadWrite
    ||| p == Protection::ReadOnly
    ||| p == Protection::ReadWrite
}

/// Runtime test for [`spec_readable`].
pub fn is_readable(p: Protection) -> (r: bool)
    ensures
        r == spec_readable(p),
{
    match p {
        Protection::NoAccess => false,
        _ => true,
    }
}

/// One contiguous span of address space: base address, bytes, protection.
pub struct Region {
    pub base: usize,
    pub protect: Protection,
    pub data: Vec<u8>,
}

/// Mathematical model of a [`Region`].
pub struct RegionModel {
    pub base: int,
    pub protect: Protection,
    pub data: Seq<u8>,
}

impl View for Region {
    type V = RegionModel;

    open spec fn view(&self) -> RegionModel {
        RegionModel { base: self.base as int, protect: self.protect, data: self.data@ }
    }
}

/// The address one past the last byte of the region.
pub open spec fn region_end(r: RegionModel) -> int {
    r.base + r.data.len()
}

/// A region is well formed when it is non-empty (the OS never reports an
/// empty region) and lies within the address space.  A region may end exactly
/// at the top of the address space, in which case `region_end` is one past
/// the largest address.
pub open spec fn region_wf(r: RegionModel) -> bool {
    &&& r.data.len() >= 1
    &&& region_end(r) <= usize::MAX as int + 1
}

/// Whether `addr` falls inside the region.
pub open spec fn region_contains(r: RegionModel, addr: int) -> bool {
    r.base <= addr < region_end(r)
}

/// A well-formed memory map: every region well formed, and the regions
/// sorted by base address and pairwise disjoint.
pub open spec fn space_wf(s: Seq<RegionModel>) -> bool {
    &&& forall|i: int| 0 <= i < s.len() ==> #[trigger] region_wf(s[i])
    &&& forall|i: int| 0 <= i && i + 1 < s.len() ==> #[trigger] region_end(s[i]) <= s[i + 1].base
}

/// A snapshot of the address space: the regions of the memory map in
/// ascending address order.
pub struct MemorySpace {
    pub regions: Vec<Region>,
}

impl View for MemorySpace {
    type V = Seq<RegionModel>;

    open spec fn view(&self) -> Seq<RegionModel> {
        self.regions@.map_values(|r: Region| r@)
    }
}

impl MemorySpace {
    pub open spec fn wf(&self) -> bool {
        space_wf(self@)
    }
}

/// In a well-formed map the regions are ordered: everything in an earlier
/// region lies strictly below everything in a later one.
pub proof fn lemma_space_ordered(s: Seq<RegionModel>, i: int, j: int)
    requires
        space_wf(s),
        0 <= i < j < s.len(),
    ensures
        region_end(s[i]) <= s[j].base,
    decreases j - i,
{
    if i + 1 < j {
        lemma_space_ordered(s, i, j - 1);
        assert(region_end(s[j - 1]) <= s[j].base);
    }
}

/// In a well-formed map no address lies in two distinct regions.
pub proof fn lemma_region_at_unique(s: Seq<RegionModel>, addr: int, i: int, j: int)
    requires
        space_wf(s),
        0 <= i < s.len(),
        0 <= j < s.len(),
        region_contains(s[i], addr),
        region_contains(s[j], addr),
    ensures
        i == j,
{
    if i < j {
        lemma_space_ordered(s, i, j);
    } else if j < i {
        lemma_space_ordered(s, j, i);
    }
}

/// The index of the region containing `addr`, if any.
pub open spec fn spec_region_at(s: Seq<RegionModel>, addr: int) -> Option<int> {
    if exists|i: int| 0 <= i < s.len() && #[trigger] region_contains(s[i], addr) {
        Some(choose|i: int| 0 <= i < s.len() && #[trigger] region_contains(s[i], addr))
    } else {
        None
    }
}

/// What [`spec_region_at`] returns: the unique containing region, or proof
/// that none contains the address.
pub proof fn lemma_region_at(s: Seq<RegionModel>, addr: int)
    requires
        space_wf(s),
    ensures
        match spec_region_at(s, addr) {
            Some(i) => 0 <= i < s.len() && region_contains(s[i], addr) && forall|j: int|
                0 <= j < s.len() && #[trigger] region_contains(s[j], addr) ==> j == i,
            None => forall|j: int| 0 <= j < s.len() ==> !(#[trigger] region_contains(s[j], addr)),
        },
{
    if exists|i: int| 0 <= i < s.len() && #[trigger] region_contains(s[i], addr) {
        let i = choose|i: int| 0 <= i < s.len() && #[trigger] region_contains(s[i], addr);
        assert forall|j: int| 0 <= j < s.len() && #[trigger] region_contains(s[j], addr) implies j
            == i by {
            lemma_region_at_unique(s, addr, i, j);
        }
    }
}

/// Find the region containing `addr`, mirroring an OS query of the memory
/// map at that address.
pub fn region_at(space: &MemorySpace, addr: usize) -> (r: Option<usize>)
    requires
        space.wf(),
    ensures
        match r {
            Some(i) => i < space.regions.len() && spec_region_at(space@, addr as int) == Some(
                i as int,
            ),
            None => spec_region_at(space@, addr as int) is None,
        },
{
    let n = space.regions.len();
    let mut k: usize = 0;
    while k < n
        invariant
            space.wf(),
            n == space.regions.len(),
            k <= n,
            forall|j: int| 0 <= j < k ==> !(#[trigger] region_contains(space@[j], addr as int)),
        decreases n - k,
    {
        let rg = &space.regions[k];
        if rg.base <= addr {
            let off = addr - rg.base;
            if off < rg.data.len() {
                proof {
                    let s = space@;
                    let a = addr as int;
                    assert(region_contains(s[k as int], a));
                    lemma_region_at(s, a);
                }
                return Some(k);
            }
        }
        proof {
            assert(!region_contains(space@[k as int], addr as int));
        }
        k += 1;
    }
    proof {
        lemma_region_at(space@, addr as int);
    }
    None
}

} // verus!
