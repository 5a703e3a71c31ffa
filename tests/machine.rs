use m8db::parse::{parse, Register, Span, Stmt, StmtIdx};
use m8db::vm::{max_register, Vm, VmState};

fn machine(text: &str) -> Vm {
    Vm::new(parse(text, "prog".to_string()).unwrap())
}

const SCENARIO: &str = "INC 0\nIS_ZERO 0 4\nDEC 0\nSTOP\n";

#[test]
fn scenario_runs_to_stop() {
    let mut vm = machine(SCENARIO);
    assert_eq!(vm.registers, vec![0]);
    assert_eq!(vm.run(u64::MAX), VmState::Stop);
    assert_eq!(vm.registers, vec![0]);
    assert_eq!(vm.pc, StmtIdx(3));
}

#[test]
fn scenario_steps_one_statement_at_a_time() {
    let mut vm = machine(SCENARIO);
    assert_eq!(vm.step(), VmState::Run);
    assert_eq!((vm.pc, vm.registers.clone()), (StmtIdx(1), vec![1]));
    assert_eq!(vm.step(), VmState::Run);
    assert_eq!((vm.pc, vm.registers.clone()), (StmtIdx(2), vec![1]));
    assert_eq!(vm.step(), VmState::Run);
    assert_eq!((vm.pc, vm.registers.clone()), (StmtIdx(3), vec![0]));
    assert_eq!(vm.step(), VmState::Stop);
    assert_eq!((vm.pc, vm.registers.clone()), (StmtIdx(3), vec![0]));
}

#[test]
fn scenario_breaks_before_dec() {
    let mut vm = machine(SCENARIO);
    let idx = vm.statement_at_span(Span(2)).unwrap();
    assert_eq!(idx, StmtIdx(2));
    vm.toggle_breakpoint(idx);
    assert_eq!(vm.run(u64::MAX), VmState::Break);
    assert_eq!(vm.pc, StmtIdx(2));
    assert_eq!(vm.registers, vec![1]);
    assert_eq!(vm.run(u64::MAX), VmState::Stop);
    assert_eq!(vm.registers, vec![0]);
}

#[test]
fn breakpoint_on_comment_or_blank_line_moves_to_next_statement() {
    let vm = machine("INC 0\n# note\n\nDEC 0\nSTOP\n");
    assert_eq!(vm.statement_at_span(Span(1)), Some(StmtIdx(1)));
    assert_eq!(vm.statement_at_span(Span(2)), Some(StmtIdx(1)));
    assert_eq!(vm.statement_at_span(Span(0)), Some(StmtIdx(0)));
    assert_eq!(vm.statement_at_span(Span(4)), Some(StmtIdx(2)));
    assert_eq!(vm.statement_at_span(Span(5)), None);
}

#[test]
fn toggling_twice_restores_breakpoints() {
    let mut vm = machine(SCENARIO);
    vm.toggle_breakpoint(StmtIdx(2));
    let before = vm.breakpoints.clone();
    vm.toggle_breakpoint(StmtIdx(1));
    assert_eq!(vm.breakpoints.len(), 2);
    vm.toggle_breakpoint(StmtIdx(1));
    assert_eq!(vm.breakpoints, before);
    vm.toggle_breakpoint(StmtIdx(2));
    assert!(vm.breakpoints.is_empty());
    vm.toggle_breakpoint(StmtIdx(2));
    assert_eq!(vm.breakpoints, vec![StmtIdx(2)]);
}

#[test]
fn lone_stop_stops_at_once() {
    let mut vm = machine("STOP\n");
    vm.set_register(Register(0), 5);
    assert_eq!(vm.step(), VmState::Stop);
    assert_eq!((vm.pc, vm.registers.clone()), (StmtIdx(0), vec![5]));
    assert_eq!(vm.run(u64::MAX), VmState::Stop);
    assert_eq!((vm.pc, vm.registers.clone()), (StmtIdx(0), vec![5]));
}

#[test]
fn program_without_stop_runs_off_the_end_after_last_statement() {
    let mut vm = machine("INC 0\nINC 1\nDEC 1\n");
    assert_eq!(vm.step(), VmState::Run);
    assert_eq!(vm.step(), VmState::Run);
    assert_eq!(vm.step(), VmState::Run);
    assert_eq!(vm.pc, StmtIdx(3));
    assert_eq!(vm.registers, vec![1, 0]);
    assert_eq!(vm.step(), VmState::OutOfBounds);
    assert_eq!(vm.pc, StmtIdx(3));
    assert_eq!(vm.registers, vec![1, 0]);
    let mut vm = machine("INC 0\nINC 1\nDEC 1\n");
    assert_eq!(vm.run(3), VmState::Run);
    assert_eq!(vm.run(u64::MAX), VmState::OutOfBounds);
    assert_eq!(vm.pc, StmtIdx(3));
}

#[test]
fn dec_of_zero_wraps_around() {
    let mut vm = machine("DEC 0\nINC 0\nSTOP\n");
    assert_eq!(vm.step(), VmState::Run);
    assert_eq!(vm.registers, vec![usize::MAX]);
    assert_eq!(vm.step(), VmState::Run);
    assert_eq!(vm.registers, vec![0]);
}

#[test]
fn jump_sets_program_counter_to_target() {
    let mut vm = machine(".top\nJUMP skip\nINC 0\n.skip\nINC 1\nJUMP top\n");
    assert_eq!(vm.step(), VmState::Run);
    assert_eq!(vm.pc, StmtIdx(2));
    assert_eq!(vm.step(), VmState::Run);
    assert_eq!(vm.step(), VmState::Run);
    assert_eq!(vm.pc, StmtIdx(0));
    assert_eq!(vm.registers, vec![0, 1]);
}

#[test]
fn is_zero_branches_only_on_zero() {
    let mut vm = machine("IS_ZERO 0 3\nINC 0\nSTOP\n");
    assert_eq!(vm.step(), VmState::Run);
    assert_eq!(vm.pc, StmtIdx(2));
    let mut vm = machine("IS_ZERO 0 3\nINC 0\nSTOP\n");
    vm.set_register(Register(0), 4);
    assert_eq!(vm.step(), VmState::Run);
    assert_eq!(vm.pc, StmtIdx(1));
}

#[test]
fn run_is_bounded_by_step_count() {
    let mut vm = machine(".loop\nINC 0\nJUMP loop\n");
    assert_eq!(vm.run(10), VmState::Run);
    assert_eq!(vm.registers, vec![5]);
    assert_eq!(vm.pc, StmtIdx(0));
    assert_eq!(vm.run(0), VmState::Run);
    assert_eq!(vm.registers, vec![5]);
}

#[test]
fn registers_cover_highest_index_named() {
    let code = parse("INC 2\nIS_ZERO 7 1\nJUMP 1\n", "p".to_string()).unwrap();
    assert_eq!(max_register(&code.stmts), 7);
    let vm = Vm::new(code);
    assert_eq!(vm.registers, vec![0; 8]);
    assert_eq!(max_register(&vec![Stmt::Stop, Stmt::Jump(StmtIdx(0))]), 0);
}

#[test]
fn program_window_clips_to_source() {
    let text = "INC 0\nINC 0\nINC 0\nINC 0\nINC 0\nINC 0\nINC 0\nINC 0\nSTOP\n";
    let mut vm = machine(text);
    assert_eq!(vm.program_window(), Some((0, 6, 0)));
    vm.run(7);
    assert_eq!(vm.pc, StmtIdx(7));
    assert_eq!(vm.program_window(), Some((2, 9, 7)));
    let mut vm = machine("INC 0\n");
    vm.step();
    assert_eq!(vm.program_window(), None);
}

#[test]
fn is_breakpoint_reports_membership() {
    let mut vm = machine(SCENARIO);
    assert!(!vm.is_breakpoint(StmtIdx(1)));
    vm.toggle_breakpoint(StmtIdx(1));
    assert!(vm.is_breakpoint(StmtIdx(1)));
}
