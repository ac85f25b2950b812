use vstd::prelude::*;
use crate::gdt::{kernel_ist, DOUBLE_FAULT_IST_INDEX, STACK_SIZE};

verus! {

/// Vector of the first line of the primary interrupt controller.
pub const PIC_1_OFFSET: u8 = 32;

/// Vector of the first line of the secondary interrupt controller.
pub const PIC_2_OFFSET: u8 = 40;

/// Vectors in the dispatch table.
pub const IDT_ENTRIES: usize = 256;

/// Vector of the breakpoint exception.
pub const BREAKPOINT_VECTOR: u8 = 3;

/// Vector of the double fault.
pub const DOUBLE_FAULT_VECTOR: u8 = 8;

/// Vector of the page fault.
pub const PAGE_FAULT_VECTOR: u8 = 14;

/// The hardware interrupts that have handlers, on their remapped vectors.
#[derive(Debug, Clone, Copy, PartialEq, Eq)]
pub enum InterruptIndex {
    Timer,
    Keyboard,
}

pub open spec fn interrupt_vector(i: InterruptIndex) -> u8 {
    match i {
        InterruptIndex::Timer => PIC_1_OFFSET,
        InterruptIndex::Keyboard => (PIC_1_OFFSET + 1) as u8,
    }
}

impl InterruptIndex {
    /// The vector: the timer on the first line of the primary controller,
    /// the keyboard on the second.
    pub fn as_u8(self) -> (r: u8)
        ensures
            r == interrupt_vector(self),
    {
        match self {
            InterruptIndex::Timer => PIC_1_OFFSET,
            InterruptIndex::Keyboard => PIC_1_OFFSET + 1,
        }
    }

    pub fn as_usize(self) -> (r: usize)
        ensures
            r == interrupt_vector(self),
    {
        self.as_u8() as usize
    }
}

/// The handlers that the kernel installs.
#[derive(Debug, Clone, Copy, PartialEq, Eq)]
pub enum Handler {
    /// Logs the stack frame and returns.
    Breakpoint,
    /// Logs the stack frame and halts.
    DoubleFault,
    /// Acknowledges the timer tick.
    Timer,
    /// Reads and shows the key, then acknowledges.
    Keyboard,
}

/// One vector of the dispatch table: its handler and, where it runs on an
/// alternate stack, that stack's index in the task state.
#[derive(Debug, Clone, Copy, PartialEq, Eq)]
pub struct IdtEntry {
    pub handler: Handler,
    pub stack_index: Option<u16>,
}

/// The 256-vector dispatch table.
pub struct InterruptDescriptorTable {
    entries: Vec<Option<IdtEntry>>,
}

impl InterruptDescriptorTable {
    /// The entry of each vector.
    pub closed spec fn view(&self) -> Seq<Option<IdtEntry>> {
        self.entries@
    }

    /// A table without any handler.
    pub fn new() -> (r: Self)
        ensures
            r@ == Seq::new(IDT_ENTRIES as nat, |v: int| None::<IdtEntry>),
    {
        let mut entries: Vec<Option<IdtEntry>> = Vec::new();
        let mut v: usize = 0;
        while v < IDT_ENTRIES
            invariant
                v <= IDT_ENTRIES,
                entries@ == Seq::new(v as nat, |j: int| None::<IdtEntry>),
            decreases IDT_ENTRIES - v,
        {
            entries.push(None);
            v = v + 1;
            assert(entries@ =~= Seq::new(v as nat, |j: int| None::<IdtEntry>));
        }
        InterruptDescriptorTable { entries }
    }

    /// The entry of `vector`.
    pub fn entry(&self, vector: u8) -> (r: Option<IdtEntry>)
        requires
            self@.len() == IDT_ENTRIES,
        ensures
            r == self@[vector as int],
    {
        self.entries[vector as usize]
    }

    /// Let `handler` serve `vector` on the current stack.
    pub fn set_handler_fn(&mut self, vector: u8, handler: Handler)
        requires
            old(self)@.len() == IDT_ENTRIES,
        ensures
            final(self)@ == old(self)@.update(
                vector as int,
                Some(IdtEntry { handler, stack_index: None }),
            ),
    {
        self.entries.set(vector as usize, Some(IdtEntry { handler, stack_index: None }));
    }

    /// Let the handler of `vector` run on the alternate stack `index`.
    pub fn set_stack_index(&mut self, vector: u8, index: u16)
        requires
            old(self)@.len() == IDT_ENTRIES,
            old(self)@[vector as int] is Some,
        ensures
            final(self)@ == old(self)@.update(
                vector as int,
                Some(IdtEntry { handler: old(self)@[vector as int].unwrap().handler, stack_index: Some(index) }),
            ),
    {
        match self.entries[vector as usize] {
            Some(e) => {
                self.entries.set(vector as usize, Some(IdtEntry { handler: e.handler, stack_index: Some(index) }));
            },
            None => {},
        }
    }
}

/// The kernel's table: breakpoint, double fault on its alternate stack,
/// timer and keyboard.
pub open spec fn kernel_idt() -> Seq<Option<IdtEntry>> {
    Seq::new(
        IDT_ENTRIES as nat,
        |v: int|
            if v == BREAKPOINT_VECTOR {
                Some(IdtEntry { handler: Handler::Breakpoint, stack_index: None })
            } else if v == DOUBLE_FAULT_VECTOR {
                Some(IdtEntry { handler: Handler::DoubleFault, stack_index: Some(DOUBLE_FAULT_IST_INDEX) })
            } else if v == PIC_1_OFFSET {
                Some(IdtEntry { handler: Handler::Timer, stack_index: None })
            } else if v == PIC_1_OFFSET + 1 {
                Some(IdtEntry { handler: Handler::Keyboard, stack_index: None })
            } else {
                None
            },
    )
}

/// Build the kernel's dispatch table, for the CPU to load.
pub fn init_idt() -> (r: InterruptDescriptorTable)
    ensures
        r@ == kernel_idt(),
{
    let mut idt = InterruptDescriptorTable::new();
    idt.set_handler_fn(BREAKPOINT_VECTOR, Handler::Breakpoint);
    idt.set_handler_fn(DOUBLE_FAULT_VECTOR, Handler::DoubleFault);
    idt.set_stack_index(DOUBLE_FAULT_VECTOR, DOUBLE_FAULT_IST_INDEX);
    idt.set_handler_fn(InterruptIndex::Timer.as_u8(), Handler::Timer);
    idt.set_handler_fn(InterruptIndex::Keyboard.as_u8(), Handler::Keyboard);
    assert(idt@ =~= kernel_idt());
    idt
}

/// The double-fault entry of the kernel's table runs on an alternate stack,
/// and the kernel's task state sets that stack to the end of the reserved
/// region, so a double fault never runs on the faulting stack.
pub proof fn lemma_double_fault_stack_is_set(stack_start: u64)
    requires
        stack_start + STACK_SIZE <= u64::MAX,
    ensures
        kernel_idt()[DOUBLE_FAULT_VECTOR as int] matches Some(e) && e.stack_index matches Some(i)
            && kernel_ist(stack_start)[i as int] == stack_start + STACK_SIZE,
{
}

/// What the CPU does with an exception or interrupt.
#[derive(Debug, Clone, Copy, PartialEq, Eq)]
pub enum Outcome {
    /// The handler logged and returned; execution goes on at `resume_at`.
    Resumed { handler: Handler, resume_at: u64 },
    /// The handler acknowledged `vector` at the interrupt controller and
    /// returned; execution goes on at `resume_at`.
    Acknowledged { handler: Handler, vector: u8, resume_at: u64 },
    /// The handler logged and halted the CPU.
    Halted { handler: Handler },
    /// No handler could run: the machine resets.
    Reset,
}

/// Whether a handler can run: the current stack is usable, or the entry
/// switches to an alternate one.
pub open spec fn can_run(e: IdtEntry, stack_usable: bool) -> bool {
    stack_usable || e.stack_index is Some
}

/// What a handler that runs does.
pub open spec fn handler_outcome(h: Handler, vector: u8, pc: u64) -> Outcome {
    match h {
        Handler::Breakpoint => Outcome::Resumed { handler: h, resume_at: pc },
        Handler::DoubleFault => Outcome::Halted { handler: h },
        _ => Outcome::Acknowledged { handler: h, vector, resume_at: pc },
    }
}

/// What happens when `vector` is raised with return address `pc`: its handler
/// runs if it can; a vector that cannot be served escalates to a double fault,
/// and a double fault that cannot be served resets the machine.
pub open spec fn delivery(idt: Seq<Option<IdtEntry>>, vector: u8, pc: u64, stack_usable: bool) -> Outcome {
    let served = |v: u8|
        idt[v as int] is Some && can_run(idt[v as int].unwrap(), stack_usable);
    if vector != DOUBLE_FAULT_VECTOR && served(vector) {
        handler_outcome(idt[vector as int].unwrap().handler, vector, pc)
    } else if served(DOUBLE_FAULT_VECTOR) {
        handler_outcome(idt[DOUBLE_FAULT_VECTOR as int].unwrap().handler, DOUBLE_FAULT_VECTOR, pc)
    } else {
        Outcome::Reset
    }
}

/// Decide what raising `vector` leads to, under the loaded table `idt`.
/// `pc` is the return address the CPU saves (for a breakpoint, the
/// instruction after it); `stack_usable` tells whether the current stack
/// can take the exception frame.
pub fn dispatch(idt: &InterruptDescriptorTable, vector: u8, pc: u64, stack_usable: bool) -> (r: Outcome)
    requires
        idt@.len() == IDT_ENTRIES,
    ensures
        r == delivery(idt@, vector, pc, stack_usable),
{
    if vector != DOUBLE_FAULT_VECTOR {
        match idt.entry(vector) {
            Some(e) => {
                if stack_usable || e.stack_index.is_some() {
                    return run_handler(e.handler, vector, pc);
                }
            },
            None => {},
        }
    }
    match idt.entry(DOUBLE_FAULT_VECTOR) {
        Some(e) => {
            if stack_usable || e.stack_index.is_some() {
                run_handler(e.handler, DOUBLE_FAULT_VECTOR, pc)
            } else {
                Outcome::Reset
            }
        },
        None => Outcome::Reset,
    }
}

fn run_handler(h: Handler, vector: u8, pc: u64) -> (r: Outcome)
    ensures
        r == handler_outcome(h, vector, pc),
{
    match h {
        Handler::Breakpoint => Outcome::Resumed { handler: h, resume_at: pc },
        Handler::DoubleFault => Outcome::Halted { handler: h },
        _ => Outcome::Acknowledged { handler: h, vector, resume_at: pc },
    }
}

} // verus!
