//! Memory management and trap dispatch for a small x86_64 kernel: the frame
//! source, the four-level page-table mapper, the heap window, the descriptor
//! tables and the interrupt dispatch table, with the text-mode writer they
//! report through.
pub mod memory;
pub mod paging;
pub mod allocator;
pub mod vga_buffer;
pub mod gdt;
pub mod interrupts;
pub mod pit_8254;

use vstd::prelude::*;

verus! {

/// What the kernel reports to the emulator when its tests end.
#[derive(Debug, Clone, Copy, PartialEq, Eq)]
pub enum QemuExitCode {
    Success,
    Failed,
}

pub open spec fn exit_code_value(c: QemuExitCode) -> u32 {
    match c {
        QemuExitCode::Success => 0x10,
        QemuExitCode::Failed => 0x11,
    }
}

impl QemuExitCode {
    /// The value written to the emulator's exit port.
    pub fn code(self) -> (r: u32)
        ensures
            r == exit_code_value(self),
    {
        match self {
            QemuExitCode::Success => 0x10,
            QemuExitCode::Failed => 0x11,
        }
    }
}

/// A test that the kernel's test runner can run.
pub trait Testable {
    fn run(&self);
}

/// Run every test in order; a test that fails panics and never returns, so
/// reaching the end means success.
pub fn test_runner<T: Testable>(tests: &[T]) -> (r: QemuExitCode)
    ensures
        r == QemuExitCode::Success,
{
    let mut i: usize = 0;
    while i < tests.len()
        invariant
            i <= tests@.len(),
        decreases tests@.len() - i,
    {
        tests[i].run();
        i = i + 1;
    }
    QemuExitCode::Success
}

} // verus!
