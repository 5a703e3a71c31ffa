use vstd::prelude::*;

use crate::parse::{Register, Span, StmtIdx};
use crate::text::{
    chars_of, decimal, is_word, parse_usize, push_decimal, push_str, read_usize, string_of, tokens,
    tokens_of, views,
};
use crate::vm::{first_at_or_after, Vm, VmState};

verus! {

/// Whether a run reports how long it took.
#[derive(Clone, Copy, Debug, PartialEq, Eq, Structural)]
pub enum VmRunKind {
    WithTime,
    WithoutTime,
}

/// What a debugger command asks of the machine.
#[derive(Clone, Copy, Debug, PartialEq, Eq, Structural)]
pub enum VmInstruction {
    Step,
    Run(VmRunKind),
    Break(StmtIdx),
    SetRegister(Register, usize),
    Stop,
}

/// A line typed at the debugger prompt, decoded.
#[derive(Debug)]
pub enum DebugCommand {
    ShowRegisters,
    ShowProgram,
    Help,
    ListBreakpoints,
    Nothing,
    Invalid(String),
    Instruction(VmInstruction),
}

pub enum DebugCommandView {
    ShowRegisters,
    ShowProgram,
    Help,
    ListBreakpoints,
    Nothing,
    Invalid(Seq<char>),
    Instruction(VmInstruction),
}

impl View for DebugCommand {
    type V = DebugCommandView;

    open spec fn view(&self) -> DebugCommandView {
        match self {
            DebugCommand::ShowRegisters => DebugCommandView::ShowRegisters,
            DebugCommand::ShowProgram => DebugCommandView::ShowProgram,
            DebugCommand::Help => DebugCommandView::Help,
            DebugCommand::ListBreakpoints => DebugCommandView::ListBreakpoints,
            DebugCommand::Nothing => DebugCommandView::Nothing,
            DebugCommand::Invalid(m) => DebugCommandView::Invalid(m@),
            DebugCommand::Instruction(i) => DebugCommandView::Instruction(*i),
        }
    }
}

/// What the session does after a command has been carried out.
#[derive(Clone, Copy, Debug, PartialEq, Eq, Structural)]
pub enum Flow {
    Prompt,
    Finished,
    OutOfBounds,
}

/// A line typed at the program-loading prompt, decoded.
#[derive(Debug)]
pub enum LoadInstruction {
    Quit,
    Load(String),
    Help,
    Nothing,
    Invalid(String),
}

pub enum LoadInstructionView {
    Quit,
    Load(Seq<char>),
    Help,
    Nothing,
    Invalid(Seq<char>),
}

impl View for LoadInstruction {
    type V = LoadInstructionView;

    open spec fn view(&self) -> LoadInstructionView {
        match self {
            LoadInstruction::Quit => LoadInstructionView::Quit,
            LoadInstruction::Load(p) => LoadInstructionView::Load(p@),
            LoadInstruction::Help => LoadInstructionView::Help,
            LoadInstruction::Nothing => LoadInstructionView::Nothing,
            LoadInstruction::Invalid(m) => LoadInstructionView::Invalid(m@),
        }
    }
}

/// The register and value of `set <register> <value>`.
pub open spec fn set_args(t: Seq<Seq<char>>) -> Option<(usize, usize)> {
    if t.len() < 2 {
        None
    } else {
        match parse_usize(t[1]) {
            Err(_) => None,
            Ok(r) => if t.len() < 3 {
                None
            } else {
                match parse_usize(t[2]) {
                    Err(_) => None,
                    Ok(v) => Some((r, v)),
                }
            },
        }
    }
}

/// The statement a breakpoint on 1-based line `n` stands at: the first one on that line or
/// after it.
pub open spec fn breakpoint_at_line(spans: Seq<Span>, n: usize) -> Option<usize> {
    if n == 0 {
        None
    } else {
        first_at_or_after(spans, (n - 1) as usize)
    }
}

pub open spec fn unknown_command_text(cmd: Seq<char>) -> Seq<char> {
    "error: Unknown command: "@ + cmd + "."@
}

/// A debugger command line, given the spans of the program, its number of source lines and
/// of registers.
pub open spec fn debug_command(
    t: Seq<Seq<char>>,
    spans: Seq<Span>,
    n_lines: nat,
    n_registers: nat,
) -> DebugCommandView {
    if t.len() == 0 {
        DebugCommandView::Nothing
    } else if t[0] == "r"@ || t[0] == "register"@ {
        DebugCommandView::ShowRegisters
    } else if t[0] == "p"@ || t[0] == "program"@ {
        DebugCommandView::ShowProgram
    } else if t[0] == "h"@ || t[0] == "?"@ || t[0] == "help"@ {
        DebugCommandView::Help
    } else if t[0] == "b"@ || t[0] == "break"@ {
        if t.len() < 2 {
            DebugCommandView::ListBreakpoints
        } else {
            match parse_usize(t[1]) {
                Err(_) => DebugCommandView::Invalid("error: Invalid argument provided."@),
                Ok(n) => match breakpoint_at_line(spans, n) {
                    Some(i) => DebugCommandView::Instruction(VmInstruction::Break(StmtIdx(i))),
                    None => DebugCommandView::Invalid(
                        "error: Line number '"@ + decimal(n as nat) + "' out of bounds for length "@
                            + decimal(n_lines) + "."@,
                    ),
                },
            }
        }
    } else if t[0] == "set"@ {
        match set_args(t) {
            None => DebugCommandView::Invalid("error: Invalid arguments provided."@),
            Some((r, v)) => if r < n_registers {
                DebugCommandView::Instruction(VmInstruction::SetRegister(Register(r), v))
            } else {
                DebugCommandView::Invalid(
                    "error: Register '"@ + decimal(r as nat) + "' out of bounds for length "@
                        + decimal(n_registers) + "."@,
                )
            },
        }
    } else if t[0] == "c"@ || t[0] == "continue"@ {
        if t.len() >= 2 && t[1] == "time"@ {
            DebugCommandView::Instruction(VmInstruction::Run(VmRunKind::WithTime))
        } else {
            DebugCommandView::Instruction(VmInstruction::Run(VmRunKind::WithoutTime))
        }
    } else if t[0] == "s"@ || t[0] == "step"@ {
        DebugCommandView::Instruction(VmInstruction::Step)
    } else if t[0] == "q"@ || t[0] == "quit"@ {
        DebugCommandView::Instruction(VmInstruction::Stop)
    } else {
        DebugCommandView::Invalid(unknown_command_text(t[0]))
    }
}

/// A command line at the program-loading prompt.
pub open spec fn load_command(t: Seq<Seq<char>>) -> LoadInstructionView {
    if t.len() == 0 {
        LoadInstructionView::Nothing
    } else if t[0] == "l"@ || t[0] == "load"@ {
        if t.len() < 2 {
            LoadInstructionView::Invalid("error: No file path provided to load from."@)
        } else {
            LoadInstructionView::Load(t[1])
        }
    } else if t[0] == "h"@ || t[0] == "help"@ {
        LoadInstructionView::Help
    } else if t[0] == "q"@ || t[0] == "quit"@ {
        LoadInstructionView::Quit
    } else {
        LoadInstructionView::Invalid(unknown_command_text(t[0]))
    }
}

/// What the session does once a step or a run has ended in `state`.
pub open spec fn flow_after(state: VmState) -> Flow {
    match state {
        VmState::Stop => Flow::Finished,
        VmState::OutOfBounds => Flow::OutOfBounds,
        _ => Flow::Prompt,
    }
}

/// Reads the register and the value of `set <register> <value>`.
pub fn parse_set_command(toks: &Vec<Vec<char>>) -> (r: Option<(Register, usize)>)
    ensures
        r == (match set_args(views(toks@)) {
            Some((reg, v)) => Some((Register(reg), v)),
            None => None::<(Register, usize)>,
        }),
{
    if toks.len() < 2 {
        return None;
    }
    assert(views(toks@)[1] == toks@[1]@);
    let reg = match read_usize(&toks[1]) {
        Ok(reg) => reg,
        Err(_) => {
            return None;
        },
    };
    if toks.len() < 3 {
        return None;
    }
    assert(views(toks@)[2] == toks@[2]@);
    let value = match read_usize(&toks[2]) {
        Ok(value) => value,
        Err(_) => {
            return None;
        },
    };
    Some((Register(reg), value))
}

fn unknown_command(cmd: &Vec<char>) -> (r: String)
    ensures
        r@ == unknown_command_text(cmd@),
{
    let mut out = chars_of("error: Unknown command: ");
    let mut i: usize = 0;
    let ghost head = out@;
    while i < cmd.len()
        invariant
            i <= cmd.len(),
            out@ == head + cmd@.take(i as int),
        decreases cmd.len() - i,
    {
        out.push(cmd[i]);
        i += 1;
        assert(cmd@.take(i as int) =~= cmd@.take(i - 1).push(cmd@[i - 1]));
    }
    assert(cmd@.take(cmd.len() as int) =~= cmd@);
    push_str(&mut out, ".");
    assert(out@ =~= unknown_command_text(cmd@));
    string_of(&out)
}

fn out_of_bounds_text(what: &str, n: usize, len: usize) -> (r: String)
    ensures
        r@ == what@ + decimal(n as nat) + "' out of bounds for length "@ + decimal(len as nat)
            + "."@,
{
    let mut out = chars_of(what);
    push_decimal(&mut out, n);
    push_str(&mut out, "' out of bounds for length ");
    push_decimal(&mut out, len);
    push_str(&mut out, ".");
    string_of(&out)
}

impl Vm {
    /// Decodes a line typed at the debugger prompt.
    pub fn decode_command(&self, input: &str) -> (r: DebugCommand)
        requires
            self.wf(),
        ensures
            r@ == debug_command(
                tokens(input@),
                self.span@,
                self.code_lines.len() as nat,
                self.registers.len() as nat,
            ),
            r matches DebugCommand::Instruction(VmInstruction::SetRegister(reg, _)) ==> reg.0
                < self.registers.len(),
    {
        let line = chars_of(input);
        let toks = tokens_of(&line);
        let ghost t = tokens(input@);
        assert(views(toks@) == t);
        if toks.len() == 0 {
            return DebugCommand::Nothing;
        }
        assert(t[0] == toks@[0]@);
        let first = &toks[0];
        if is_word(first, "r") || is_word(first, "register") {
            DebugCommand::ShowRegisters
        } else if is_word(first, "p") || is_word(first, "program") {
            DebugCommand::ShowProgram
        } else if is_word(first, "h") || is_word(first, "?") || is_word(first, "help") {
            DebugCommand::Help
        } else if is_word(first, "b") || is_word(first, "break") {
            if toks.len() < 2 {
                return DebugCommand::ListBreakpoints;
            }
            assert(t[1] == toks@[1]@);
            match read_usize(&toks[1]) {
                Err(_) => DebugCommand::Invalid(string_of(&chars_of("error: Invalid argument provided."))),
                Ok(line_number) => {
                    let found = if line_number == 0 {
                        None
                    } else {
                        self.statement_at_span(Span(line_number - 1))
                    };
                    match found {
                        Some(pos) => DebugCommand::Instruction(VmInstruction::Break(pos)),
                        None => DebugCommand::Invalid(
                            out_of_bounds_text("error: Line number '", line_number, self.code_lines.len()),
                        ),
                    }
                },
            }
        } else if is_word(first, "set") {
            match parse_set_command(&toks) {
                None => DebugCommand::Invalid(string_of(&chars_of("error: Invalid arguments provided."))),
                Some((reg, value)) => {
                    if reg.0 < self.registers.len() {
                        DebugCommand::Instruction(VmInstruction::SetRegister(reg, value))
                    } else {
                        DebugCommand::Invalid(
                            out_of_bounds_text("error: Register '", reg.0, self.registers.len()),
                        )
                    }
                },
            }
        } else if is_word(first, "c") || is_word(first, "continue") {
            if toks.len() >= 2 && is_word(&toks[1], "time") {
                DebugCommand::Instruction(VmInstruction::Run(VmRunKind::WithTime))
            } else {
                DebugCommand::Instruction(VmInstruction::Run(VmRunKind::WithoutTime))
            }
        } else if is_word(first, "s") || is_word(first, "step") {
            DebugCommand::Instruction(VmInstruction::Step)
        } else if is_word(first, "q") || is_word(first, "quit") {
            DebugCommand::Instruction(VmInstruction::Stop)
        } else {
            DebugCommand::Invalid(unknown_command(first))
        }
    }

    /// Carries out `instr`. A run goes on until a breakpoint, `Stop` or the end of the
    /// program, for at most `u64::MAX` steps.
    pub fn apply(&mut self, instr: VmInstruction) -> (r: Flow)
        requires
            old(self).wf(),
            instr matches VmInstruction::SetRegister(reg, _) ==> reg.0 < old(self).registers.len(),
        ensures
            final(self).wf(),
            final(self).stmts == old(self).stmts,
            final(self).span == old(self).span,
            final(self).code_lines == old(self).code_lines,
            final(self).file_name == old(self).file_name,
            match instr {
                VmInstruction::Stop => r == Flow::Finished && final(self).pc == old(self).pc
                    && final(self).registers == old(self).registers
                    && final(self).breakpoints == old(self).breakpoints,
                VmInstruction::Step => {
                    let (st, pc, regs) = crate::vm::step_spec(
                        old(self).stmts@,
                        old(self).breakpoints@,
                        old(self).pc.0,
                        old(self).registers@,
                    );
                    &&& r == flow_after(st)
                    &&& final(self).pc.0 == pc
                    &&& final(self).registers@ == regs
                    &&& final(self).breakpoints == old(self).breakpoints
                },
                VmInstruction::Run(_) => {
                    let (st, pc, regs) = crate::vm::run_spec(
                        old(self).stmts@,
                        old(self).breakpoints@,
                        old(self).pc.0,
                        old(self).registers@,
                        u64::MAX as nat,
                    );
                    &&& r == flow_after(st)
                    &&& final(self).pc.0 == pc
                    &&& final(self).registers@ == regs
                    &&& final(self).breakpoints == old(self).breakpoints
                },
                VmInstruction::Break(idx) => {
                    &&& r == Flow::Prompt
                    &&& final(self).breakpoints@.to_set() == crate::vm::toggled(
                        old(self).breakpoints@.to_set(),
                        idx,
                    )
                    &&& final(self).pc == old(self).pc
                    &&& final(self).registers == old(self).registers
                },
                VmInstruction::SetRegister(reg, value) => {
                    &&& r == Flow::Prompt
                    &&& final(self).registers@ == old(self).registers@.update(reg.0 as int, value)
                    &&& final(self).pc == old(self).pc
                    &&& final(self).breakpoints == old(self).breakpoints
                },
            },
    {
        match instr {
            VmInstruction::Stop => Flow::Finished,
            VmInstruction::Step => flow_of(self.step()),
            VmInstruction::Run(_) => flow_of(self.run(u64::MAX)),
            VmInstruction::Break(idx) => {
                self.toggle_breakpoint(idx);
                Flow::Prompt
            },
            VmInstruction::SetRegister(reg, value) => {
                self.set_register(reg, value);
                Flow::Prompt
            },
        }
    }
}

/// What the session does once a step or a run has ended in `state`.
pub fn flow_of(state: VmState) -> (r: Flow)
    ensures
        r == flow_after(state),
{
    match state {
        VmState::Stop => Flow::Finished,
        VmState::OutOfBounds => Flow::OutOfBounds,
        _ => Flow::Prompt,
    }
}

/// Decodes a line typed at the program-loading prompt.
pub fn decode_load_command(input: &str) -> (r: LoadInstruction)
    ensures
        r@ == load_command(tokens(input@)),
{
    let line = chars_of(input);
    let toks = tokens_of(&line);
    let ghost t = tokens(input@);
    assert(views(toks@) == t);
    if toks.len() == 0 {
        return LoadInstruction::Nothing;
    }
    assert(t[0] == toks@[0]@);
    let first = &toks[0];
    if is_word(first, "l") || is_word(first, "load") {
        if toks.len() < 2 {
            LoadInstruction::Invalid(string_of(&chars_of("error: No file path provided to load from.")))
        } else {
            assert(t[1] == toks@[1]@);
            LoadInstruction::Load(string_of(&toks[1]))
        }
    } else if is_word(first, "h") || is_word(first, "help") {
        LoadInstruction::Help
    } else if is_word(first, "q") || is_word(first, "quit") {
        LoadInstruction::Quit
    } else {
        LoadInstruction::Invalid(unknown_command(first))
    }
}

} // verus!
