//! The data model of a process's memory map: regions, their permissions,
//! and what backs them.

use vstd::prelude::*;

verus! {

/// What a region maps: a file, the heap, a stack, a thread's stack, a
/// kernel-provided object, anonymous memory, or some other pseudo-path.
#[derive(Debug)]
pub enum Backing {
    FilePath(String),
    Heap,
    Stack,
    ThreadStack(u32),
    Vdso,
    Vvar,
    Vsyscall,
    Anonymous,
    Other(String),
}

/// A contiguous address range in a process's address space with uniform
/// permissions and a single backing object.
#[derive(Debug)]
pub struct Region {
    pub start: u64,
    pub end: u64,
    pub read: bool,
    pub write: bool,
    pub execute: bool,
    pub shared: bool,
    pub backing: Backing,
}

impl Region {
    /// A well-formed region spans at least one byte.
    pub open spec fn wf(self) -> bool {
        self.start < self.end
    }

    /// The region's size in bytes.
    pub fn size(&self) -> (r: u64)
        requires
            self.wf(),
        ensures
            r == self.end - self.start,
    {
        self.end - self.start
    }
}

/// Every region of the string is well-formed.
pub open spec fn all_wf(rs: Seq<Region>) -> bool {
    forall|k: int| 0 <= k < rs.len() ==> (#[trigger] rs[k]).wf()
}

/// Regions stand in ascending `start` order and never overlap: each one
/// ends at or before the next begins.
pub open spec fn sorted_disjoint(rs: Seq<Region>) -> bool {
    forall|i: int, j: int|
        0 <= i < j < rs.len() ==> (#[trigger] rs[i]).end <= (#[trigger] rs[j]).start
}

} // verus!
