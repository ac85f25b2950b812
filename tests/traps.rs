use h_os::gdt::{double_fault_tss, DOUBLE_FAULT_IST_INDEX, STACK_SIZE};
use h_os::interrupts::{
    dispatch, init_idt, Handler, IdtEntry, InterruptDescriptorTable, InterruptIndex, Outcome, BREAKPOINT_VECTOR,
    DOUBLE_FAULT_VECTOR, PAGE_FAULT_VECTOR, PIC_1_OFFSET, PIC_2_OFFSET,
};
use h_os::{test_runner, QemuExitCode, Testable};
use std::cell::Cell;

#[test]
fn interrupt_indexes_follow_the_remapped_controller() {
    assert_eq!(PIC_1_OFFSET, 32);
    assert_eq!(PIC_2_OFFSET, 40);
    assert_eq!(InterruptIndex::Timer.as_u8(), 32);
    assert_eq!(InterruptIndex::Keyboard.as_u8(), 33);
    assert_eq!(InterruptIndex::Keyboard.as_usize(), 33);
}

#[test]
fn kernel_table_entries() {
    let idt = init_idt();
    assert_eq!(idt.entry(BREAKPOINT_VECTOR), Some(IdtEntry { handler: Handler::Breakpoint, stack_index: None }));
    assert_eq!(
        idt.entry(DOUBLE_FAULT_VECTOR),
        Some(IdtEntry { handler: Handler::DoubleFault, stack_index: Some(DOUBLE_FAULT_IST_INDEX) })
    );
    assert_eq!(idt.entry(32), Some(IdtEntry { handler: Handler::Timer, stack_index: None }));
    assert_eq!(idt.entry(33), Some(IdtEntry { handler: Handler::Keyboard, stack_index: None }));
    assert_eq!(idt.entry(PAGE_FAULT_VECTOR), None);
    assert_eq!(idt.entry(255), None);
}

#[test]
fn breakpoint_resumes_after_the_instruction() {
    let idt = init_idt();
    assert_eq!(
        dispatch(&idt, BREAKPOINT_VECTOR, 0x20_1235, true),
        Outcome::Resumed { handler: Handler::Breakpoint, resume_at: 0x20_1235 }
    );
}

#[test]
fn stack_overflow_reaches_double_fault_once() {
    let mut idt = InterruptDescriptorTable::new();
    idt.set_handler_fn(DOUBLE_FAULT_VECTOR, Handler::DoubleFault);
    idt.set_stack_index(DOUBLE_FAULT_VECTOR, DOUBLE_FAULT_IST_INDEX);
    assert_eq!(
        dispatch(&idt, PAGE_FAULT_VECTOR, 0x20_0000, false),
        Outcome::Halted { handler: Handler::DoubleFault }
    );
}

#[test]
fn double_fault_without_alternate_stack_resets() {
    let mut idt = InterruptDescriptorTable::new();
    idt.set_handler_fn(DOUBLE_FAULT_VECTOR, Handler::DoubleFault);
    assert_eq!(dispatch(&idt, PAGE_FAULT_VECTOR, 0x20_0000, false), Outcome::Reset);
    assert_eq!(dispatch(&InterruptDescriptorTable::new(), BREAKPOINT_VECTOR, 0x10, true), Outcome::Reset);
}

#[test]
fn unhandled_vector_escalates_to_double_fault() {
    let idt = init_idt();
    assert_eq!(dispatch(&idt, 13, 0x10, true), Outcome::Halted { handler: Handler::DoubleFault });
}

#[test]
fn hardware_interrupts_are_acknowledged() {
    let idt = init_idt();
    assert_eq!(
        dispatch(&idt, 32, 0x400, true),
        Outcome::Acknowledged { handler: Handler::Timer, vector: 32, resume_at: 0x400 }
    );
    assert_eq!(
        dispatch(&idt, 33, 0x404, true),
        Outcome::Acknowledged { handler: Handler::Keyboard, vector: 33, resume_at: 0x404 }
    );
}

#[test]
fn double_fault_stack_top() {
    let tss = double_fault_tss(0x8000);
    assert_eq!(STACK_SIZE, 20480);
    assert_eq!(tss.interrupt_stack_table[0], 0x8000 + 20480);
    assert_eq!(&tss.interrupt_stack_table[1..], &[0u64; 6]);
}

struct Counted<'a>(&'a Cell<u32>);

impl<'a> Testable for Counted<'a> {
    fn run(&self) {
        self.0.set(self.0.get() + 1);
    }
}

#[test]
fn runner_runs_every_test() {
    let count = Cell::new(0);
    let tests = [Counted(&count), Counted(&count), Counted(&count)];
    assert_eq!(test_runner(&tests), QemuExitCode::Success);
    assert_eq!(count.get(), 3);
}

#[test]
fn exit_codes() {
    assert_eq!(QemuExitCode::Success.code(), 0x10);
    assert_eq!(QemuExitCode::Failed.code(), 0x11);
}

#[test]
fn timer_reload_bytes() {
    let pit = h_os::pit_8254::PIT::new(100);
    assert_eq!(pit.reload_bytes(), (0x9b, 0x2e));
    let slow = h_os::pit_8254::PIT::new(19);
    assert_eq!(slow.reload_bytes(), (0x4f, 0xf5));
}
