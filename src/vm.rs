use vstd::prelude::*;

use crate::parse::{
    assemble, classify, first_pass, is_statement, lemma_first_pass_facts, spans_of, target_within,
    Code, Fault, LineKind, Register, Span, Stmt, StmtIdx,
};
use crate::text::{lemma_lines_len, split_lines};

verus! {

/// What a step or a run ended in.
#[derive(Clone, Copy, Debug, PartialEq, Eq, Structural)]
pub enum VmState {
    Run,
    Break,
    Stop,
    OutOfBounds,
}

/// The machine: a program, its program counter, registers and breakpoints.
#[derive(Debug)]
pub struct Vm {
    pub stmts: Vec<Stmt>,
    pub span: Vec<Span>,
    pub code_lines: Vec<String>,
    pub pc: StmtIdx,
    pub registers: Vec<usize>,
    pub breakpoints: Vec<StmtIdx>,
    pub file_name: String,
}

/// The register a statement reads or writes, zero for those that touch none.
pub open spec fn register_of(s: Stmt) -> usize {
    match s {
        Stmt::Inc(r) => r.0,
        Stmt::Dec(r) => r.0,
        Stmt::IsZero(r, _) => r.0,
        _ => 0,
    }
}

/// The largest register named by `stmts`, zero for none.
pub open spec fn max_register_of(stmts: Seq<Stmt>) -> usize
    decreases stmts.len(),
{
    if stmts.len() == 0 {
        0
    } else {
        let m = max_register_of(stmts.drop_last());
        let r = register_of(stmts.last());
        if r > m {
            r
        } else {
            m
        }
    }
}

pub open spec fn wrapping_inc(x: usize) -> usize {
    if x == usize::MAX {
        0
    } else {
        (x + 1) as usize
    }
}

pub open spec fn wrapping_dec(x: usize) -> usize {
    if x == 0 {
        usize::MAX
    } else {
        (x - 1) as usize
    }
}

/// The program counter and registers after a statement other than `Stop` runs at `pc`.
pub open spec fn effect(s: Stmt, pc: usize, regs: Seq<usize>) -> (usize, Seq<usize>) {
    match s {
        Stmt::Inc(r) => ((pc + 1) as usize, regs.update(r.0 as int, wrapping_inc(regs[r.0 as int]))),
        Stmt::Dec(r) => ((pc + 1) as usize, regs.update(r.0 as int, wrapping_dec(regs[r.0 as int]))),
        Stmt::IsZero(r, t) => if regs[r.0 as int] == 0 {
            (t.0, regs)
        } else {
            ((pc + 1) as usize, regs)
        },
        Stmt::Jump(t) => (t.0, regs),
        Stmt::Stop => (pc, regs),
    }
}

/// One step: past the last statement the machine is out of bounds, at `Stop` it stops, and
/// otherwise the statement runs and the machine breaks if the new program counter is a
/// breakpoint.
pub open spec fn step_spec(
    stmts: Seq<Stmt>,
    bps: Seq<StmtIdx>,
    pc: usize,
    regs: Seq<usize>,
) -> (VmState, usize, Seq<usize>) {
    if pc >= stmts.len() {
        (VmState::OutOfBounds, pc, regs)
    } else if stmts[pc as int] is Stop {
        (VmState::Stop, pc, regs)
    } else {
        let (pc2, regs2) = effect(stmts[pc as int], pc, regs);
        if bps.contains(StmtIdx(pc2)) {
            (VmState::Break, pc2, regs2)
        } else {
            (VmState::Run, pc2, regs2)
        }
    }
}

/// Up to `fuel` steps, ending early at the first step that does not end in `Run`.
pub open spec fn run_spec(
    stmts: Seq<Stmt>,
    bps: Seq<StmtIdx>,
    pc: usize,
    regs: Seq<usize>,
    fuel: nat,
) -> (VmState, usize, Seq<usize>)
    decreases fuel,
{
    if fuel == 0 {
        (VmState::Run, pc, regs)
    } else {
        let (st, pc2, regs2) = step_spec(stmts, bps, pc, regs);
        if st == VmState::Run {
            run_spec(stmts, bps, pc2, regs2, (fuel - 1) as nat)
        } else {
            (st, pc2, regs2)
        }
    }
}

/// The first index whose span is at or after line index `s`.
pub open spec fn first_at_or_after(spans: Seq<Span>, s: usize) -> Option<usize>
    decreases spans.len(),
{
    if spans.len() == 0 {
        None
    } else {
        match first_at_or_after(spans.drop_last(), s) {
            Some(i) => Some(i),
            None => if spans.last().0 >= s {
                Some((spans.len() - 1) as usize)
            } else {
                None
            },
        }
    }
}

/// `first_at_or_after` finds the least index whose span is at or after `s`, and finds none
/// only where every span lies before `s`.
pub proof fn lemma_first_at_or_after(spans: Seq<Span>, s: usize)
    requires
        spans.len() <= usize::MAX,
    ensures
        first_at_or_after(spans, s) matches Some(i) ==> {
            &&& i < spans.len()
            &&& spans[i as int].0 >= s
            &&& forall|j: int| 0 <= j < i ==> (#[trigger] spans[j]).0 < s
        },
        first_at_or_after(spans, s) is None ==> forall|j: int|
            0 <= j < spans.len() ==> (#[trigger] spans[j]).0 < s,
    decreases spans.len(),
{
    if spans.len() > 0 {
        let p = spans.drop_last();
        lemma_first_at_or_after(p, s);
        match first_at_or_after(p, s) {
            Some(i) => {
                assert(spans[i as int] == p[i as int]);
                assert forall|j: int| 0 <= j < i implies (#[trigger] spans[j]).0 < s by {
                    assert(spans[j] == p[j]);
                }
            },
            None => {
                assert forall|j: int| 0 <= j < p.len() implies (#[trigger] spans[j]).0 < s by {
                    assert(spans[j] == p[j]);
                }
            },
        }
    }
}

/// The flipped membership of `i`.
pub open spec fn toggled(s: Set<StmtIdx>, i: StmtIdx) -> Set<StmtIdx> {
    if s.contains(i) {
        s.remove(i)
    } else {
        s.insert(i)
    }
}

pub fn max_register(stmts: &Vec<Stmt>) -> (r: usize)
    ensures
        r == max_register_of(stmts@),
        forall|i: int| 0 <= i < stmts.len() ==> register_of(#[trigger] stmts@[i]) <= r,
{
    let mut m: usize = 0;
    let mut i: usize = 0;
    while i < stmts.len()
        invariant
            i <= stmts.len(),
            m == max_register_of(stmts@.take(i as int)),
            forall|k: int| 0 <= k < i ==> register_of(#[trigger] stmts@[k]) <= m,
        decreases stmts.len() - i,
    {
        assert(stmts@.take(i + 1).drop_last() =~= stmts@.take(i as int));
        let r = match stmts[i] {
            Stmt::Inc(r) => r.0,
            Stmt::Dec(r) => r.0,
            Stmt::IsZero(r, _) => r.0,
            Stmt::Jump(_) => 0,
            Stmt::Stop => 0,
        };
        if r > m {
            m = r;
        }
        i += 1;
    }
    assert(stmts@.take(stmts.len() as int) =~= stmts@);
    m
}

impl Vm {
    /// Spans aligned with statements, strictly increasing and within the source, every branch
    /// target the index of a statement, the program counter no further than just past the
    /// last statement, every register named by a statement present, and breakpoints without
    /// repeats.
    pub open spec fn wf(&self) -> bool {
        &&& self.span.len() == self.stmts.len()
        &&& self.pc.0 <= self.stmts.len()
        &&& forall|i: int|
            0 <= i < self.stmts.len() ==> target_within(#[trigger] self.stmts@[i], self.stmts.len() as nat)
        &&& forall|i: int|
            0 <= i < self.stmts.len() ==> register_of(#[trigger] self.stmts@[i]) < self.registers.len()
        &&& forall|i: int, j: int|
            0 <= i < j < self.span.len() ==> (#[trigger] self.span@[i]).0 < (#[trigger] self.span@[j]).0
        &&& forall|i: int| 0 <= i < self.span.len() ==> (#[trigger] self.span@[i]).0 < self.code_lines.len()
        &&& self.breakpoints@.no_duplicates()
    }

    /// A machine at the first statement of `code`, with registers `0..=max_register` all zero
    /// and no breakpoints.
    pub fn new(code: Code) -> (r: Vm)
        requires
            code.wf(),
            max_register_of(code.stmts@) < usize::MAX,
        ensures
            r.wf(),
            r.stmts@ == code.stmts@,
            r.span@ == code.span@,
            r.code_lines@ == code.code_lines@,
            r.file_name == code.file_name,
            r.pc == StmtIdx(0),
            r.registers@ == Seq::new((max_register_of(code.stmts@) + 1) as nat, |i: int| 0usize),
            r.breakpoints@ == Seq::<StmtIdx>::empty(),
    {
        let max_register_index = max_register(&code.stmts);
        let mut registers: Vec<usize> = Vec::new();
        let mut i: usize = 0;
        while i <= max_register_index
            invariant
                i <= max_register_index + 1,
                max_register_index < usize::MAX,
                registers@ == Seq::new(i as nat, |k: int| 0usize),
            decreases max_register_index + 1 - i,
        {
            registers.push(0);
            i += 1;
            assert(registers@ =~= Seq::new(i as nat, |k: int| 0usize));
        }
        let r = Vm {
            stmts: code.stmts,
            span: code.span,
            code_lines: code.code_lines,
            file_name: code.file_name,
            pc: StmtIdx(0),
            registers,
            breakpoints: Vec::new(),
        };
        assert(r.breakpoints@ =~= Seq::<StmtIdx>::empty());
        r
    }

    pub fn is_breakpoint(&self, idx: StmtIdx) -> (r: bool)
        ensures
            r == self.breakpoints@.contains(idx),
    {
        let mut i: usize = 0;
        while i < self.breakpoints.len()
            invariant
                i <= self.breakpoints.len(),
                forall|k: int| 0 <= k < i ==> self.breakpoints@[k] != idx,
            decreases self.breakpoints.len() - i,
        {
            if self.breakpoints[i] == idx {
                return true;
            }
            i += 1;
        }
        false
    }

    /// Runs the statement at the program counter.
    pub fn step(&mut self) -> (r: VmState)
        requires
            old(self).wf(),
        ensures
            final(self).wf(),
            (r, final(self).pc.0, final(self).registers@) == step_spec(
                old(self).stmts@,
                old(self).breakpoints@,
                old(self).pc.0,
                old(self).registers@,
            ),
            final(self).stmts == old(self).stmts,
            final(self).span == old(self).span,
            final(self).code_lines == old(self).code_lines,
            final(self).breakpoints == old(self).breakpoints,
            final(self).file_name == old(self).file_name,
    {
        let pc = self.pc.0;
        if pc >= self.stmts.len() {
            return VmState::OutOfBounds;
        }
        let stmt = self.stmts[pc];
        assert(stmt == self.stmts@[pc as int]);
        match stmt {
            Stmt::Inc(r) => {
                let v = self.registers[r.0];
                let v = if v == usize::MAX {
                    0
                } else {
                    v + 1
                };
                self.registers.set(r.0, v);
                self.pc = StmtIdx(pc + 1);
            },
            Stmt::Dec(r) => {
                let v = self.registers[r.0];
                let v = if v == 0 {
                    usize::MAX
                } else {
                    v - 1
                };
                self.registers.set(r.0, v);
                self.pc = StmtIdx(pc + 1);
            },
            Stmt::IsZero(r, index) => {
                if self.registers[r.0] == 0 {
                    self.pc = index;
                } else {
                    self.pc = StmtIdx(pc + 1);
                }
            },
            Stmt::Jump(index) => {
                self.pc = index;
            },
            Stmt::Stop => {
                return VmState::Stop;
            },
        }
        if self.is_breakpoint(self.pc) {
            VmState::Break
        } else {
            VmState::Run
        }
    }

    /// Steps until a step ends in anything but `Run`, or `max_steps` steps have run.
    pub fn run(&mut self, max_steps: u64) -> (r: VmState)
        requires
            old(self).wf(),
        ensures
            final(self).wf(),
            (r, final(self).pc.0, final(self).registers@) == run_spec(
                old(self).stmts@,
                old(self).breakpoints@,
                old(self).pc.0,
                old(self).registers@,
                max_steps as nat,
            ),
            final(self).stmts == old(self).stmts,
            final(self).span == old(self).span,
            final(self).code_lines == old(self).code_lines,
            final(self).breakpoints == old(self).breakpoints,
            final(self).file_name == old(self).file_name,
    {
        let ghost goal = run_spec(
            self.stmts@,
            self.breakpoints@,
            self.pc.0,
            self.registers@,
            max_steps as nat,
        );
        let mut n: u64 = 0;
        while n < max_steps
            invariant
                self.wf(),
                n <= max_steps,
                goal == run_spec(
                    old(self).stmts@,
                    old(self).breakpoints@,
                    old(self).pc.0,
                    old(self).registers@,
                    max_steps as nat,
                ),
                goal == run_spec(
                    self.stmts@,
                    self.breakpoints@,
                    self.pc.0,
                    self.registers@,
                    (max_steps - n) as nat,
                ),
                self.stmts == old(self).stmts,
                self.span == old(self).span,
                self.code_lines == old(self).code_lines,
                self.breakpoints == old(self).breakpoints,
                self.file_name == old(self).file_name,
            decreases max_steps - n,
        {
            let ghost fuel = (max_steps - n) as nat;
            let ghost prev = (self.stmts@, self.breakpoints@, self.pc.0, self.registers@);
            let state = self.step();
            assert(run_spec(prev.0, prev.1, prev.2, prev.3, fuel) == (if state == VmState::Run {
                run_spec(prev.0, prev.1, self.pc.0, self.registers@, (fuel - 1) as nat)
            } else {
                (state, self.pc.0, self.registers@)
            }));
            n += 1;
            if state != VmState::Run {
                return state;
            }
        }
        VmState::Run
    }

    /// The first statement whose span is at or after `search_span`.
    pub fn statement_at_span(&self, search_span: Span) -> (r: Option<StmtIdx>)
        ensures
            r == (match first_at_or_after(self.span@, search_span.0) {
                Some(i) => Some(StmtIdx(i)),
                None => None::<StmtIdx>,
            }),
            r matches Some(i) ==> {
                &&& i.0 < self.span.len()
                &&& self.span@[i.0 as int].0 >= search_span.0
                &&& forall|j: int| 0 <= j < i.0 ==> (#[trigger] self.span@[j]).0 < search_span.0
            },
            r is None ==> forall|j: int|
                0 <= j < self.span.len() ==> (#[trigger] self.span@[j]).0 < search_span.0,
    {
        let mut i: usize = 0;
        while i < self.span.len()
            invariant
                i <= self.span.len(),
                forall|j: int| 0 <= j < i ==> (#[trigger] self.span@[j]).0 < search_span.0,
            decreases self.span.len() - i,
        {
            if self.span[i].0 >= search_span.0 {
                proof {
                    lemma_first_at_or_after(self.span@, search_span.0);
                    lemma_first_at_or_after(self.span@.take(i + 1), search_span.0);
                    lemma_first_at_or_after_prefix(self.span@, search_span.0, i + 1);
                }
                return Some(StmtIdx(i));
            }
            i += 1;
        }
        proof {
            lemma_first_at_or_after(self.span@, search_span.0);
        }
        None
    }

    /// The source lines to show around the statement at the program counter: from up to five
    /// lines before its own to up to five after, clipped to the source, with the index of its
    /// own line; `None` past the last statement.
    pub fn program_window(&self) -> (r: Option<(usize, usize, usize)>)
        requires
            self.wf(),
        ensures
            self.pc.0 >= self.span.len() ==> r is None,
            self.pc.0 < self.span.len() ==> ({
                let cur = self.span@[self.pc.0 as int].0;
                r == Some((
                    if cur >= 5 { (cur - 5) as usize } else { 0usize },
                    if self.code_lines.len() <= cur + 6 { self.code_lines.len() } else { (cur + 6) as usize },
                    cur,
                ))
            }),
    {
        if self.pc.0 >= self.span.len() {
            return None;
        }
        let cur = self.span[self.pc.0].0;
        let lower = if cur >= 5 {
            cur - 5
        } else {
            0
        };
        let higher = if self.code_lines.len() - cur <= 6 {
            self.code_lines.len()
        } else {
            cur + 6
        };
        Some((lower, higher, cur))
    }

    /// Where `idx` stands among the breakpoints.
    fn breakpoint_position(&self, idx: StmtIdx) -> (r: Option<usize>)
        ensures
            r matches Some(i) ==> i < self.breakpoints.len() && self.breakpoints@[i as int] == idx,
            r is None ==> !self.breakpoints@.contains(idx),
    {
        let mut i: usize = 0;
        while i < self.breakpoints.len()
            invariant
                i <= self.breakpoints.len(),
                forall|k: int| 0 <= k < i ==> self.breakpoints@[k] != idx,
            decreases self.breakpoints.len() - i,
        {
            if self.breakpoints[i] == idx {
                return Some(i);
            }
            i += 1;
        }
        None
    }

    /// Adds `idx` to the breakpoints, or removes it if it is there.
    pub fn toggle_breakpoint(&mut self, idx: StmtIdx)
        requires
            old(self).wf(),
        ensures
            final(self).wf(),
            final(self).breakpoints@.to_set() == toggled(old(self).breakpoints@.to_set(), idx),
            final(self).stmts == old(self).stmts,
            final(self).span == old(self).span,
            final(self).code_lines == old(self).code_lines,
            final(self).pc == old(self).pc,
            final(self).registers == old(self).registers,
            final(self).file_name == old(self).file_name,
    {
        let ghost before = self.breakpoints@;
        match self.breakpoint_position(idx) {
            None => {
                self.breakpoints.push(idx);
                proof {
                    assert(self.breakpoints@ =~= before.push(idx));
                    assert forall|x: StmtIdx| #[trigger] self.breakpoints@.contains(x) <==> (
                    before.contains(x) || x == idx) by {
                        if before.contains(x) {
                            let k = choose|k: int| 0 <= k < before.len() && before[k] == x;
                            assert(self.breakpoints@[k] == x);
                        }
                        if x == idx {
                            assert(self.breakpoints@[before.len() as int] == x);
                        }
                    }
                    assert(self.breakpoints@.to_set() =~= before.to_set().insert(idx));
                }
            },
            Some(pos) => {
                self.breakpoints.remove(pos);
                proof {
                    lemma_remove_unique(before, pos as int);
                }
            },
        }
    }

    /// Writes `value` into register `r`.
    pub fn set_register(&mut self, r: Register, value: usize)
        requires
            old(self).wf(),
            r.0 < old(self).registers.len(),
        ensures
            final(self).wf(),
            final(self).registers@ == old(self).registers@.update(r.0 as int, value),
            final(self).stmts == old(self).stmts,
            final(self).span == old(self).span,
            final(self).code_lines == old(self).code_lines,
            final(self).pc == old(self).pc,
            final(self).breakpoints == old(self).breakpoints,
            final(self).file_name == old(self).file_name,
    {
        self.registers.set(r.0, value);
    }
}

/// A find in a prefix is the find of the whole sequence.
proof fn lemma_first_at_or_after_prefix(spans: Seq<Span>, s: usize, k: int)
    requires
        0 <= k <= spans.len(),
        first_at_or_after(spans.take(k), s) is Some,
    ensures
        first_at_or_after(spans, s) == first_at_or_after(spans.take(k), s),
    decreases spans.len() - k,
{
    if k < spans.len() {
        assert(spans.take(k + 1).drop_last() =~= spans.take(k));
        lemma_first_at_or_after_prefix(spans, s, k + 1);
    } else {
        assert(spans.take(k) =~= spans);
    }
}

/// Removing the element at `i` from a sequence without repeats leaves none, and takes
/// exactly that element out of its set.
proof fn lemma_remove_unique(s: Seq<StmtIdx>, i: int)
    requires
        0 <= i < s.len(),
        s.no_duplicates(),
    ensures
        s.remove(i).no_duplicates(),
        s.remove(i).to_set() == s.to_set().remove(s[i]),
{
    let r = s.remove(i);
    assert forall|a: int, b: int| 0 <= a < b < r.len() implies r[a] != r[b] by {
        let a2 = if a < i { a } else { a + 1 };
        let b2 = if b < i { b } else { b + 1 };
        assert(r[a] == s[a2] && r[b] == s[b2]);
    }
    assert forall|x: StmtIdx| #[trigger] r.contains(x) <==> (s.contains(x) && x != s[i]) by {
        if s.contains(x) && x != s[i] {
            let k = choose|k: int| 0 <= k < s.len() && s[k] == x;
            if k < i {
                assert(r[k] == x);
            } else {
                assert(r[k - 1] == x);
            }
        }
        if r.contains(x) {
            let k = choose|k: int| 0 <= k < r.len() && r[k] == x;
            if k < i {
                assert(s[k] == x);
            } else {
                assert(s[k + 1] == x);
            }
        }
    }
    assert(r.to_set() =~= s.to_set().remove(s[i]));
}

/// Toggling the same breakpoint twice leaves the set of breakpoints as it was.
pub proof fn lemma_toggle_twice(s: Set<StmtIdx>, i: StmtIdx)
    ensures
        toggled(toggled(s, i), i) == s,
{
    if s.contains(i) {
        assert(s.remove(i).insert(i) =~= s);
    } else {
        assert(s.insert(i).remove(i) =~= s);
    }
}

/// A program that is a lone `Stop` stops at once, in a step and in a run of any length, with
/// the program counter and the registers untouched.
pub proof fn lemma_lone_stop(bps: Seq<StmtIdx>, regs: Seq<usize>, fuel: nat)
    requires
        fuel >= 1,
    ensures
        step_spec(seq![Stmt::Stop], bps, 0, regs) == (VmState::Stop, 0usize, regs),
        run_spec(seq![Stmt::Stop], bps, 0, regs, fuel) == (VmState::Stop, 0usize, regs),
{
}

/// Only increments and decrements: no statement that stops or branches.
pub open spec fn straight_line(stmts: Seq<Stmt>) -> bool {
    forall|i: int| 0 <= i < stmts.len() ==> (#[trigger] stmts[i] is Inc || stmts[i] is Dec)
}

/// Running the last statement of a program, if it neither stops nor branches, leaves the
/// program counter just past the end without going out of bounds; the next step goes out of
/// bounds, with nothing changed.
pub proof fn lemma_last_statement_then_out_of_bounds(
    stmts: Seq<Stmt>,
    bps: Seq<StmtIdx>,
    regs: Seq<usize>,
)
    requires
        stmts.len() >= 1,
        stmts.len() <= usize::MAX,
        stmts.last() is Inc || stmts.last() is Dec,
    ensures
        ({
            let (st, pc, regs2) = step_spec(stmts, bps, (stmts.len() - 1) as usize, regs);
            &&& st != VmState::OutOfBounds
            &&& pc == stmts.len()
            &&& step_spec(stmts, bps, pc, regs2) == (VmState::OutOfBounds, pc, regs2)
        }),
{
}

/// A program of increments and decrements alone, without breakpoints, is still running after
/// each of its statements has run once, and the step after the last one finds it out of
/// bounds just past its end, however many more steps a run allows.
pub proof fn lemma_straight_line_runs_off_end(
    stmts: Seq<Stmt>,
    pc: usize,
    regs: Seq<usize>,
    k: nat,
    extra: nat,
)
    requires
        straight_line(stmts),
        stmts.len() <= usize::MAX,
        pc + k <= stmts.len(),
    ensures
        run_spec(stmts, seq![], pc, regs, k).0 == VmState::Run,
        run_spec(stmts, seq![], pc, regs, k).1 == pc + k,
        pc + k == stmts.len() ==> run_spec(stmts, seq![], pc, regs, k + 1 + extra).0
            == VmState::OutOfBounds,
        pc + k == stmts.len() ==> run_spec(stmts, seq![], pc, regs, k + 1 + extra).1 == pc + k,
    decreases k,
{
    if k == 0 {
        if pc == stmts.len() {
            assert(step_spec(stmts, seq![], pc, regs).0 == VmState::OutOfBounds);
            assert(run_spec(stmts, seq![], pc, regs, 1 + extra) == step_spec(stmts, seq![], pc, regs));
        }
    } else {
        assert(stmts[pc as int] is Inc || stmts[pc as int] is Dec);
        let (st, pc2, regs2) = step_spec(stmts, seq![], pc, regs);
        assert(!seq![].contains(StmtIdx(pc2)));
        lemma_straight_line_runs_off_end(stmts, pc2, regs2, (k - 1) as nat, extra);
    }
}

/// In an assembled text, a breakpoint asked for on a line that yields no statement (blank,
/// comment or label) lands on the nearest statement after it, and no line in between yields
/// one; where no statement follows, none is found.
pub proof fn lemma_breakpoint_on_empty_line(text: Seq<char>, k: int)
    requires
        text.len() <= usize::MAX,
        assemble(text) is Ok,
        0 <= k < split_lines(text).len(),
        !is_statement(classify(split_lines(text)[k])->Ok_0),
    ensures
        ({
            let spans = assemble(text)->Ok_0.1;
            let lines = split_lines(text);
            match first_at_or_after(spans, k as usize) {
                Some(i) => {
                    &&& i < spans.len()
                    &&& spans[i as int].0 > k
                    &&& forall|m: int|
                        k <= m < spans[i as int].0 ==> !is_statement(#[trigger] classify(lines[m])->Ok_0)
                },
                None => forall|m: int|
                    k <= m < lines.len() ==> !is_statement(#[trigger] classify(lines[m])->Ok_0),
            }
        }),
{
    let lines = split_lines(text);
    lemma_lines_len(text);
    lemma_first_pass_facts(lines);
    let (irs, labels) = first_pass(lines)->Ok_0;
    let spans = assemble(text)->Ok_0.1;
    assert(spans == spans_of(irs));
    assert forall|j: int| 0 <= j < spans.len() implies #[trigger] spans[j] == irs[j].1 by {}
    lemma_first_at_or_after(spans, k as usize);
    match first_at_or_after(spans, k as usize) {
        Some(i) => {
            let si = spans[i as int].0;
            assert(classify(lines[si as int]) == Ok::<LineKind, Fault>(irs[i as int].0));
            assert(si != k);
            assert forall|m: int| k <= m < si implies !is_statement(#[trigger] classify(lines[m])->Ok_0) by {
                if is_statement(classify(lines[m])->Ok_0) {
                    let j = choose|j: int| 0 <= j < irs.len() && (#[trigger] irs[j]).1.0 == m;
                    assert(spans[j].0 == m);
                    if j < i {
                        assert(spans[j].0 < k);
                    } else if j > i {
                        assert(irs[i as int].1.0 < irs[j].1.0);
                    }
                }
            }
        },
        None => {
            assert forall|m: int| k <= m < lines.len() implies !is_statement(
                #[trigger] classify(lines[m])->Ok_0,
            ) by {
                if is_statement(classify(lines[m])->Ok_0) {
                    let j = choose|j: int| 0 <= j < irs.len() && (#[trigger] irs[j]).1.0 == m;
                    assert(spans[j].0 == m);
                }
            }
        },
    }
}

} // verus!
