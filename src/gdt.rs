use vstd::prelude::*;

verus! {

/// Index in the task state's interrupt stack table of the stack that the
/// double-fault handler runs on.
pub const DOUBLE_FAULT_IST_INDEX: u16 = 0;

/// Size in bytes of the double-fault stack.
pub const STACK_SIZE: u64 = 4096 * 5;

/// Entries in the interrupt stack table.
pub const IST_ENTRIES: usize = 7;

/// The task state: the top of each alternate interrupt stack (zero where
/// none is set).
#[derive(Debug, Clone, Copy, PartialEq, Eq)]
pub struct TaskStateSegment {
    pub interrupt_stack_table: [u64; 7],
}

/// The interrupt stack table of the kernel's task state: the end of the
/// double-fault stack at its index, nothing elsewhere.
pub open spec fn kernel_ist(stack_start: u64) -> Seq<u64> {
    Seq::new(
        IST_ENTRIES as nat,
        |i: int|
            if i == DOUBLE_FAULT_IST_INDEX {
                (stack_start + STACK_SIZE) as u64
            } else {
                0
            },
    )
}

/// The task state of the kernel, whose double-fault stack is the
/// `STACK_SIZE` bytes from `stack_start`; stacks grow down, so its entry is
/// the end of that region.
pub fn double_fault_tss(stack_start: u64) -> (r: TaskStateSegment)
    requires
        stack_start + STACK_SIZE <= u64::MAX,
    ensures
        r.interrupt_stack_table@ == kernel_ist(stack_start),
{
    let mut tss = TaskStateSegment { interrupt_stack_table: [0u64; 7] };
    let stack_end = stack_start + STACK_SIZE;
    tss.interrupt_stack_table[DOUBLE_FAULT_IST_INDEX as usize] = stack_end;
    assert(tss.interrupt_stack_table@ =~= kernel_ist(stack_start));
    tss
}

} // verus!
