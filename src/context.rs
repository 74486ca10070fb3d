use vstd::prelude::*;

verus! {

/// Number of general-purpose registers held in a snapshot.
pub const NUM_REGS: usize = 16;

/// Number of further processor registers held in a snapshot.
pub const NUM_SPECIAL: usize = 16;

/// A snapshot of one task's machine state: enough to resume it exactly where
/// it was suspended.
#[derive(Clone, Copy, Debug, PartialEq, Eq)]
pub struct Context {
    /// Program counter.
    pub pc: u32,
    /// Stack pointer.
    pub sp: u32,
    /// The general-purpose register file.
    pub regs: [u32; 16],
    /// Whether interrupts are enabled when this context runs.
    pub int_enabled: bool,
    /// Further processor state that the platform saves on interrupt entry
    /// (status word, shift amount, loop and accumulator registers); carried
    /// through unchanged, and cleared for a fresh task.
    pub special: [u32; 16],
}

impl Context {
    /// The snapshot a freshly registered task starts from: it enters at
    /// `entry` on an empty stack whose top is `stack_top`, with every general
    /// and further register cleared and interrupts enabled.
    pub open spec fn is_initial(self, entry: u32, stack_top: u32) -> bool {
        &&& self.pc == entry
        &&& self.sp == stack_top
        &&& self.int_enabled
        &&& forall|i: int| 0 <= i < NUM_REGS ==> self.regs@[i] == 0
        &&& forall|i: int| 0 <= i < NUM_SPECIAL ==> self.special@[i] == 0
    }

    /// Builds the starting snapshot of a task.
    pub fn initial(entry: u32, stack_top: u32) -> (c: Context)
        ensures
            c.is_initial(entry, stack_top),
    {
        Context {
            pc: entry,
            sp: stack_top,
            regs: [0u32; 16],
            int_enabled: true,
            special: [0u32; 16],
        }
    }
}

} // verus!
