use m8db::parse::{parse, Register, StmtIdx};
use m8db::session::{
    decode_load_command, flow_of, DebugCommand, Flow, LoadInstruction, VmInstruction, VmRunKind,
};
use m8db::vm::{Vm, VmState};

fn machine(text: &str) -> Vm {
    Vm::new(parse(text, "prog".to_string()).unwrap())
}

fn invalid(c: DebugCommand) -> String {
    match c {
        DebugCommand::Invalid(m) => m,
        other => panic!("expected an error, got {:?}", other),
    }
}

fn instruction(c: DebugCommand) -> VmInstruction {
    match c {
        DebugCommand::Instruction(i) => i,
        other => panic!("expected an instruction, got {:?}", other),
    }
}

const SCENARIO: &str = "INC 0\n# note\nIS_ZERO 0 5\nDEC 0\nSTOP\n";

#[test]
fn decodes_simple_commands() {
    let vm = machine(SCENARIO);
    assert!(matches!(vm.decode_command("r"), DebugCommand::ShowRegisters));
    assert!(matches!(vm.decode_command("register"), DebugCommand::ShowRegisters));
    assert!(matches!(vm.decode_command("p"), DebugCommand::ShowProgram));
    assert!(matches!(vm.decode_command("?"), DebugCommand::Help));
    assert!(matches!(vm.decode_command("help"), DebugCommand::Help));
    assert!(matches!(vm.decode_command("b"), DebugCommand::ListBreakpoints));
    assert!(matches!(vm.decode_command("   "), DebugCommand::Nothing));
    assert_eq!(instruction(vm.decode_command("s")), VmInstruction::Step);
    assert_eq!(instruction(vm.decode_command("quit")), VmInstruction::Stop);
    assert_eq!(
        instruction(vm.decode_command("c")),
        VmInstruction::Run(VmRunKind::WithoutTime)
    );
    assert_eq!(
        instruction(vm.decode_command("continue time")),
        VmInstruction::Run(VmRunKind::WithTime)
    );
}

#[test]
fn break_on_comment_line_targets_next_statement() {
    let vm = machine(SCENARIO);
    assert_eq!(
        instruction(vm.decode_command("break 2")),
        VmInstruction::Break(StmtIdx(1))
    );
    assert_eq!(
        instruction(vm.decode_command("b 4")),
        VmInstruction::Break(StmtIdx(2))
    );
}

#[test]
fn break_past_last_line_is_rejected() {
    let vm = machine(SCENARIO);
    assert_eq!(
        invalid(vm.decode_command("b 6")),
        "error: Line number '6' out of bounds for length 5."
    );
    assert_eq!(
        invalid(vm.decode_command("b 0")),
        "error: Line number '0' out of bounds for length 5."
    );
    assert_eq!(
        invalid(vm.decode_command("b x")),
        "error: Invalid argument provided."
    );
}

#[test]
fn set_command_checks_its_arguments() {
    let vm = machine(SCENARIO);
    assert_eq!(
        instruction(vm.decode_command("set 0 42")),
        VmInstruction::SetRegister(Register(0), 42)
    );
    assert_eq!(invalid(vm.decode_command("set 0")), "error: Invalid arguments provided.");
    assert_eq!(invalid(vm.decode_command("set a 1")), "error: Invalid arguments provided.");
    assert_eq!(
        invalid(vm.decode_command("set 3 1")),
        "error: Register '3' out of bounds for length 1."
    );
}

#[test]
fn unknown_command_is_reported() {
    let vm = machine(SCENARIO);
    assert_eq!(invalid(vm.decode_command("jump 3")), "error: Unknown command: jump.");
}

#[test]
fn apply_runs_the_session() {
    let mut vm = machine(SCENARIO);
    assert_eq!(vm.apply(VmInstruction::Break(StmtIdx(2))), Flow::Prompt);
    assert_eq!(vm.apply(VmInstruction::Run(VmRunKind::WithoutTime)), Flow::Prompt);
    assert_eq!(vm.pc, StmtIdx(2));
    assert_eq!(vm.apply(VmInstruction::SetRegister(Register(0), 9)), Flow::Prompt);
    assert_eq!(vm.registers, vec![9]);
    assert_eq!(vm.apply(VmInstruction::Step), Flow::Prompt);
    assert_eq!(vm.registers, vec![8]);
    assert_eq!(vm.apply(VmInstruction::Step), Flow::Finished);
    assert_eq!(vm.apply(VmInstruction::Stop), Flow::Finished);
}

#[test]
fn apply_reports_out_of_bounds() {
    let mut vm = machine("INC 0\n");
    assert_eq!(vm.apply(VmInstruction::Run(VmRunKind::WithTime)), Flow::OutOfBounds);
    assert_eq!(vm.registers, vec![1]);
}

#[test]
fn flow_follows_state() {
    assert_eq!(flow_of(VmState::Stop), Flow::Finished);
    assert_eq!(flow_of(VmState::OutOfBounds), Flow::OutOfBounds);
    assert_eq!(flow_of(VmState::Break), Flow::Prompt);
    assert_eq!(flow_of(VmState::Run), Flow::Prompt);
}

#[test]
fn decodes_load_commands() {
    assert!(matches!(decode_load_command("q"), LoadInstruction::Quit));
    assert!(matches!(decode_load_command("help"), LoadInstruction::Help));
    assert!(matches!(decode_load_command(""), LoadInstruction::Nothing));
    match decode_load_command("load progs/add.m8") {
        LoadInstruction::Load(p) => assert_eq!(p, "progs/add.m8"),
        other => panic!("unexpected {:?}", other),
    }
    match decode_load_command("l") {
        LoadInstruction::Invalid(m) => {
            assert_eq!(m, "error: No file path provided to load from.")
        }
        other => panic!("unexpected {:?}", other),
    }
    match decode_load_command("run x") {
        LoadInstruction::Invalid(m) => assert_eq!(m, "error: Unknown command: run."),
        other => panic!("unexpected {:?}", other),
    }
}
