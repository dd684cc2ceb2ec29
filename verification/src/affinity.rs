//! Execution-unit affinity, modelled as an optional platform capability.
//!
//! Binding a lane to an execution unit is a pure performance hint with
//! no correctness effect.  The mask arithmetic is verified here; the
//! actual binding is a platform call that the embedding program may
//! supply.  Where no such call is available, binding is a no-op that
//! reports failure, which callers must treat as non-fatal.

use vstd::prelude::*;

verus! {

/// The number of 64-bit words in an affinity mask.
pub const CPU_SET_WORDS: usize = 16;

/// An affinity mask: one bit per execution unit, in sixteen 64-bit
/// words, unit `c` at bit `c % 64` of word `c / 64`.
pub struct CpuSet {
    bits: Vec<u64>,
}

impl CpuSet {
    pub closed spec fn wf(&self) -> bool {
        self.bits@.len() == CPU_SET_WORDS
    }

    /// The words of the mask.
    pub closed spec fn words(&self) -> Seq<u64> {
        self.bits@
    }

    /// An all-zero mask.
    pub fn new() -> (r: CpuSet)
        ensures
            r.wf(),
            r.words() == Seq::<u64>::new(CPU_SET_WORDS as nat, |i: int| 0u64),
    {
        let mut bits: Vec<u64> = Vec::new();
        let mut i: usize = 0;
        while i < CPU_SET_WORDS
            invariant
                i <= CPU_SET_WORDS,
                bits@.len() == i,
                forall|j: int| 0 <= j < i ==> bits@[j] == 0u64,
            decreases CPU_SET_WORDS - i,
        {
            bits.push(0);
            i += 1;
        }
        let r = CpuSet { bits };
        proof {
            assert(r.words() =~= Seq::<u64>::new(CPU_SET_WORDS as nat, |i: int| 0u64));
        }
        r
    }

    /// The word at `idx`.
    pub fn word(&self, idx: usize) -> (r: u64)
        requires
            self.wf(),
            idx < CPU_SET_WORDS,
        ensures
            r == self.words()[idx as int],
    {
        self.bits[idx]
    }
}

/// Set the bit of one execution unit in an affinity mask: bit `cpu % 64`
/// of word `cpu / 64` is raised and every other word is untouched.
#[allow(non_snake_case)]
pub fn CPU_SET(cpu: usize, cpuset: &mut CpuSet)
    requires
        old(cpuset).wf(),
        cpu < 64 * CPU_SET_WORDS,
    ensures
        final(cpuset).wf(),
        final(cpuset).words()[cpu as int / 64] == (old(cpuset).words()[cpu as int / 64] | (
        1u64 << ((cpu % 64) as u64))),
        forall|w: int|
            0 <= w < CPU_SET_WORDS && w != cpu as int / 64 ==> final(cpuset).words()[w] == old(
                cpuset,
            ).words()[w],
{
    let idx = cpu / 64;
    let off = cpu % 64;
    let updated = cpuset.bits[idx] | (1u64 << (off as u64));
    cpuset.bits.set(idx, updated);
}

/// Best-effort binding of the calling lane to one execution unit.  The
/// platform capability is absent here, so the hint reports failure;
/// the embedding program may substitute a real binding.  Success or
/// failure never affects the aggregation result.
pub fn set_cpu_affinity(_id: usize) -> (r: bool)
    ensures
        !r,
{
    false
}

} // verus!
