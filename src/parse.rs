use vstd::prelude::*;

use crate::text::{
    chars_of, decimal, is_word, lemma_lines_len, same_chars, lines_of, parse_usize, push_decimal, push_str, read_usize, split_lines,
    string_of, tokens, tokens_of, views, IntErrorKind,
};

verus! {

/// A span referencing the line where a statement came from. Starts at 0
#[derive(Clone, Copy, Debug, PartialEq, Eq, Structural, PartialOrd, Ord, Hash)]
pub struct Span(pub usize);

impl Span {
    pub fn line_number(&self) -> (r: usize)
        requires
            self.0 < usize::MAX,
        ensures
            r == self.0 + 1,
    {
        self.0 + 1
    }
}

/// A line number, starts at 1
#[derive(Clone, Copy, Debug, PartialEq, Eq, Structural, PartialOrd, Ord, Hash)]
pub struct LineNumber(pub usize);

impl LineNumber {
    pub fn span(&self) -> (r: Span)
        requires
            self.0 >= 1,
        ensures
            r.0 == self.0 - 1,
    {
        Span(self.0 - 1)
    }
}

/// An index into the statements of a program
#[derive(Clone, Copy, Debug, PartialEq, Eq, Structural, PartialOrd, Ord, Hash)]
pub struct StmtIdx(pub usize);

/// A register index
#[derive(Clone, Copy, Debug, PartialEq, Eq, Structural, PartialOrd, Ord, Hash)]
pub struct Register(pub usize);

#[derive(Clone, Copy, Debug, PartialEq, Eq, Structural)]
pub enum Stmt {
    Inc(Register),
    Dec(Register),
    IsZero(Register, StmtIdx),
    Jump(StmtIdx),
    Stop,
}

/// An assembled program.
#[derive(Clone, Debug)]
pub struct Code {
    pub stmts: Vec<Stmt>,
    /// Has the same length as `stmts`, points to line numbers where the instructions come from
    pub span: Vec<Span>,
    pub code_lines: Vec<String>,
    pub file_name: String,
}

/// What one source line holds before branch targets are resolved.
pub enum LineKind {
    Inc(usize),
    Dec(usize),
    IsZeroLabel(usize, Seq<char>),
    IsZeroLine(usize, usize),
    JumpLabel(Seq<char>),
    JumpLine(usize),
    Label(Seq<char>),
    Stop,
    Blank,
}

enum IrStmt {
    Inc(Register),
    Dec(Register),
    IsZeroLabel(Register, Vec<char>),
    IsZeroLine(Register, LineNumber),
    JumpLabel(Vec<char>),
    JumpLine(LineNumber),
    Label(Vec<char>),
    Stop,
    Blank,
}

impl View for IrStmt {
    type V = LineKind;

    closed spec fn view(&self) -> LineKind {
        match self {
            IrStmt::Inc(r) => LineKind::Inc(r.0),
            IrStmt::Dec(r) => LineKind::Dec(r.0),
            IrStmt::IsZeroLabel(r, l) => LineKind::IsZeroLabel(r.0, l@),
            IrStmt::IsZeroLine(r, n) => LineKind::IsZeroLine(r.0, n.0),
            IrStmt::JumpLabel(l) => LineKind::JumpLabel(l@),
            IrStmt::JumpLine(n) => LineKind::JumpLine(n.0),
            IrStmt::Label(l) => LineKind::Label(l@),
            IrStmt::Stop => LineKind::Stop,
            IrStmt::Blank => LineKind::Blank,
        }
    }
}

/// Why a source text was rejected.
pub enum Fault {
    OutOfBoundsLineRef(usize),
    LabelNotFound(Seq<char>),
    LabelPastEnd(Seq<char>),
    ParseIntErr(IntErrorKind),
    NoRegister,
    NoLabelOrLine,
    IllegalStmt(Seq<char>),
}

/// The reason carried by a diagnostic.
#[derive(Debug)]
pub enum ParseErrInner {
    OutOfBoundsLineRef(LineNumber),
    LabelNotFound(String),
    LabelPastEnd(String),
    ParseIntErr(IntErrorKind),
    NoRegister,
    NoLabelOrLine,
    IllegalStmt(String),
}

impl View for ParseErrInner {
    type V = Fault;

    open spec fn view(&self) -> Fault {
        match self {
            ParseErrInner::OutOfBoundsLineRef(n) => Fault::OutOfBoundsLineRef(n.0),
            ParseErrInner::LabelNotFound(l) => Fault::LabelNotFound(l@),
            ParseErrInner::LabelPastEnd(l) => Fault::LabelPastEnd(l@),
            ParseErrInner::ParseIntErr(k) => Fault::ParseIntErr(*k),
            ParseErrInner::NoRegister => Fault::NoRegister,
            ParseErrInner::NoLabelOrLine => Fault::NoLabelOrLine,
            ParseErrInner::IllegalStmt(s) => Fault::IllegalStmt(s@),
        }
    }
}

/// A diagnostic: the line it is anchored to and its reason.
#[derive(Debug)]
pub struct ParseErr {
    pub span: Span,
    pub inner: ParseErrInner,
}

impl ParseErr {
    pub fn new(span: Span, inner: ParseErrInner) -> (r: Self)
        ensures
            r.span == span,
            r.inner == inner,
    {
        Self { span, inner }
    }
}

/// The operand at `j` read as a register.
pub open spec fn register_operand(t: Seq<Seq<char>>, j: int) -> Result<usize, Fault> {
    if t.len() <= j {
        Err(Fault::NoRegister)
    } else {
        match parse_usize(t[j]) {
            Ok(n) => Ok(n),
            Err(k) => Err(Fault::ParseIntErr(k)),
        }
    }
}

/// A branch operand: a line number when it reads as an integer, a label otherwise.
pub enum Target {
    Line(usize),
    Label(Seq<char>),
}

pub open spec fn target_operand(t: Seq<Seq<char>>, j: int) -> Result<Target, Fault> {
    if t.len() <= j {
        Err(Fault::NoLabelOrLine)
    } else {
        match parse_usize(t[j]) {
            Ok(n) => Ok(Target::Line(n)),
            Err(_) => Ok(Target::Label(t[j])),
        }
    }
}

/// What a source line holds, or why it is rejected.
pub open spec fn classify(l: Seq<char>) -> Result<LineKind, Fault> {
    let t = tokens(l);
    if t.len() == 0 {
        Ok(LineKind::Blank)
    } else if t[0] == "INC"@ {
        match register_operand(t, 1) {
            Ok(r) => Ok(LineKind::Inc(r)),
            Err(f) => Err(f),
        }
    } else if t[0] == "DEC"@ {
        match register_operand(t, 1) {
            Ok(r) => Ok(LineKind::Dec(r)),
            Err(f) => Err(f),
        }
    } else if t[0] == "IS_ZERO"@ {
        match register_operand(t, 1) {
            Err(f) => Err(f),
            Ok(r) => match target_operand(t, 2) {
                Err(f) => Err(f),
                Ok(Target::Line(n)) => Ok(LineKind::IsZeroLine(r, n)),
                Ok(Target::Label(name)) => Ok(LineKind::IsZeroLabel(r, name)),
            },
        }
    } else if t[0] == "JUMP"@ {
        match target_operand(t, 1) {
            Err(f) => Err(f),
            Ok(Target::Line(n)) => Ok(LineKind::JumpLine(n)),
            Ok(Target::Label(name)) => Ok(LineKind::JumpLabel(name)),
        }
    } else if t[0] == "STOP"@ {
        Ok(LineKind::Stop)
    } else if t[0][0] == '.' {
        Ok(LineKind::Label(t[0].drop_first()))
    } else if t[0][0] == '#' {
        Ok(LineKind::Blank)
    } else {
        Err(Fault::IllegalStmt(t[0]))
    }
}

fn next_register(toks: &Vec<Vec<char>>, j: usize, span: Span) -> (r: Result<Register, ParseErr>)
    ensures
        match register_operand(views(toks@), j as int) {
            Ok(n) => r == Ok::<Register, ParseErr>(Register(n)),
            Err(f) => r is Err && r->Err_0.span == span && r->Err_0.inner@ == f,
        },
{
    if j >= toks.len() {
        return Err(ParseErr::new(span, ParseErrInner::NoRegister));
    }
    assert(views(toks@)[j as int] == toks@[j as int]@);
    match read_usize(&toks[j]) {
        Ok(n) => Ok(Register(n)),
        Err(k) => Err(ParseErr::new(span, ParseErrInner::ParseIntErr(k))),
    }
}

fn next_target(toks: &Vec<Vec<char>>, j: usize, span: Span) -> (r: Result<
    Result<LineNumber, Vec<char>>,
    ParseErr,
>)
    ensures
        match target_operand(views(toks@), j as int) {
            Ok(Target::Line(n)) => r == Ok::<Result<LineNumber, Vec<char>>, ParseErr>(
                Ok(LineNumber(n)),
            ),
            Ok(Target::Label(name)) => r is Ok && r->Ok_0 is Err && r->Ok_0->Err_0@ == name,
            Err(f) => r is Err && r->Err_0.span == span && r->Err_0.inner@ == f,
        },
{
    if j >= toks.len() {
        return Err(ParseErr::new(span, ParseErrInner::NoLabelOrLine));
    }
    assert(views(toks@)[j as int] == toks@[j as int]@);
    match read_usize(&toks[j]) {
        Ok(n) => Ok(Ok(LineNumber(n))),
        Err(_) => Ok(Err(toks[j].clone())),
    }
}

fn parse_line(span: Span, line: &Vec<char>) -> (r: Result<IrStmt, ParseErr>)
    ensures
        match classify(line@) {
            Ok(k) => r is Ok && r->Ok_0@ == k,
            Err(f) => r is Err && r->Err_0.span == span && r->Err_0.inner@ == f,
        },
{
    let toks = tokens_of(line);
    let ghost t = tokens(line@);
    assert(views(toks@) == t);
    if toks.len() == 0 {
        return Ok(IrStmt::Blank);
    }
    assert(t[0] == toks@[0]@);
    let first = &toks[0];
    if is_word(first, "INC") {
        let register = next_register(&toks, 1, span)?;
        Ok(IrStmt::Inc(register))
    } else if is_word(first, "DEC") {
        let register = next_register(&toks, 1, span)?;
        Ok(IrStmt::Dec(register))
    } else if is_word(first, "IS_ZERO") {
        let register = next_register(&toks, 1, span)?;
        match next_target(&toks, 2, span)? {
            Ok(line_number) => Ok(IrStmt::IsZeroLine(register, line_number)),
            Err(label) => Ok(IrStmt::IsZeroLabel(register, label)),
        }
    } else if is_word(first, "JUMP") {
        match next_target(&toks, 1, span)? {
            Ok(line_number) => Ok(IrStmt::JumpLine(line_number)),
            Err(label) => Ok(IrStmt::JumpLabel(label)),
        }
    } else if is_word(first, "STOP") {
        Ok(IrStmt::Stop)
    } else if first[0] == '.' {
        let mut name: Vec<char> = Vec::new();
        let mut i: usize = 1;
        while i < first.len()
            invariant
                1 <= i <= first.len(),
                name@ == first@.subrange(1, i as int),
            decreases first.len() - i,
        {
            name.push(first[i]);
            i += 1;
        }
        assert(name@ =~= first@.drop_first());
        Ok(IrStmt::Label(name))
    } else if first[0] == '#' {
        Ok(IrStmt::Blank)
    } else {
        Err(ParseErr::new(span, ParseErrInner::IllegalStmt(string_of(first))))
    }
}

/// The statements of a text with the lines they come from, and its label table; or the first
/// line that is rejected. A label stands for the index of the next statement; where a name is
/// defined twice, the later definition holds.
pub open spec fn first_pass(lines: Seq<Seq<char>>) -> Result<
    (Seq<(LineKind, Span)>, Map<Seq<char>, usize>),
    (Span, Fault),
>
    decreases lines.len(),
{
    if lines.len() == 0 {
        Ok((seq![], map![]))
    } else {
        match first_pass(lines.drop_last()) {
            Err(e) => Err(e),
            Ok((irs, labels)) => {
                let span = Span((lines.len() - 1) as usize);
                match classify(lines.last()) {
                    Err(f) => Err((span, f)),
                    Ok(LineKind::Label(name)) => Ok((irs, labels.insert(name, irs.len() as usize))),
                    Ok(LineKind::Blank) => Ok((irs, labels)),
                    Ok(k) => Ok((irs.push((k, span)), labels)),
                }
            },
        }
    }
}

pub open spec fn spans_of(irs: Seq<(LineKind, Span)>) -> Seq<Span> {
    irs.map_values(|p: (LineKind, Span)| p.1)
}

/// The first index whose span has the 1-based line number `n`.
pub open spec fn find_line(spans: Seq<Span>, n: usize) -> Option<usize>
    decreases spans.len(),
{
    if spans.len() == 0 {
        None
    } else {
        match find_line(spans.drop_last(), n) {
            Some(i) => Some(i),
            None => if spans.last().0 + 1 == n {
                Some((spans.len() - 1) as usize)
            } else {
                None
            },
        }
    }
}

/// The statement that line `k`, found at `span`, becomes once its branch target is resolved:
/// a line number names the statement from that exact line, a label the index it was bound to,
/// which must be that of a statement: a label after the last statement names none.
pub open spec fn resolve(
    k: LineKind,
    span: Span,
    spans: Seq<Span>,
    labels: Map<Seq<char>, usize>,
) -> Result<Stmt, (Span, Fault)> {
    match k {
        LineKind::Inc(r) => Ok(Stmt::Inc(Register(r))),
        LineKind::Dec(r) => Ok(Stmt::Dec(Register(r))),
        LineKind::IsZeroLine(r, n) => match find_line(spans, n) {
            Some(i) => Ok(Stmt::IsZero(Register(r), StmtIdx(i))),
            None => Err((span, Fault::OutOfBoundsLineRef(n))),
        },
        LineKind::JumpLine(n) => match find_line(spans, n) {
            Some(i) => Ok(Stmt::Jump(StmtIdx(i))),
            None => Err((span, Fault::OutOfBoundsLineRef(n))),
        },
        LineKind::IsZeroLabel(r, l) => if !labels.contains_key(l) {
            Err((span, Fault::LabelNotFound(l)))
        } else if labels[l] >= spans.len() {
            Err((span, Fault::LabelPastEnd(l)))
        } else {
            Ok(Stmt::IsZero(Register(r), StmtIdx(labels[l])))
        },
        LineKind::JumpLabel(l) => if !labels.contains_key(l) {
            Err((span, Fault::LabelNotFound(l)))
        } else if labels[l] >= spans.len() {
            Err((span, Fault::LabelPastEnd(l)))
        } else {
            Ok(Stmt::Jump(StmtIdx(labels[l])))
        },
        _ => Ok(Stmt::Stop),
    }
}

/// The first `n` statements resolved, or the first that fails.
pub open spec fn resolve_all(
    irs: Seq<(LineKind, Span)>,
    labels: Map<Seq<char>, usize>,
    n: nat,
) -> Result<Seq<Stmt>, (Span, Fault)>
    decreases n,
{
    if n == 0 {
        Ok(seq![])
    } else {
        match resolve_all(irs, labels, (n - 1) as nat) {
            Err(e) => Err(e),
            Ok(done) => match resolve(irs[n - 1].0, irs[n - 1].1, spans_of(irs), labels) {
                Err(e) => Err(e),
                Ok(st) => Ok(done.push(st)),
            },
        }
    }
}

/// A source text assembled: its statements and the span of each, or the first diagnostic.
pub open spec fn assemble(text: Seq<char>) -> Result<(Seq<Stmt>, Seq<Span>), (Span, Fault)> {
    match first_pass(split_lines(text)) {
        Err(e) => Err(e),
        Ok((irs, labels)) => match resolve_all(irs, labels, irs.len()) {
            Err(e) => Err(e),
            Ok(stmts) => Ok((stmts, spans_of(irs))),
        },
    }
}

pub open spec fn int_error_text(k: IntErrorKind) -> Seq<char> {
    match k {
        IntErrorKind::Empty => "cannot parse integer from empty string"@,
        IntErrorKind::InvalidDigit => "invalid digit found in string"@,
        IntErrorKind::PosOverflow => "number too large to fit in target type"@,
    }
}

pub open spec fn fault_text(f: Fault) -> Seq<char> {
    match f {
        Fault::OutOfBoundsLineRef(n) => "Referencing line '"@ + decimal(n as nat)
            + "': out of bounds"@,
        Fault::LabelNotFound(l) => "Label '"@ + l + "' not found"@,
        Fault::LabelPastEnd(l) => "Label '"@ + l + "' is not followed by a statement"@,
        Fault::ParseIntErr(k) => int_error_text(k),
        Fault::NoRegister => "No register provided"@,
        Fault::NoLabelOrLine => "No label or line provided"@,
        Fault::IllegalStmt(s) => "Illegal statement: '"@ + s + "'"@,
    }
}

/// The text of a diagnostic, with the 1-based line number.
pub open spec fn diagnostic(span: Span, f: Fault) -> Seq<char> {
    "error on line '"@ + decimal((span.0 + 1) as nat) + "': "@ + fault_text(f) + "."@
}

impl ParseErr {
    /// The diagnostic as text.
    pub fn message(&self) -> (r: String)
        requires
            self.span.0 < usize::MAX,
        ensures
            r@ == diagnostic(self.span, self.inner@),
    {
        let mut out: Vec<char> = Vec::new();
        push_str(&mut out, "error on line '");
        push_decimal(&mut out, self.span.0 + 1);
        push_str(&mut out, "': ");
        let ghost head = out@;
        match &self.inner {
            ParseErrInner::OutOfBoundsLineRef(referenced) => {
                push_str(&mut out, "Referencing line '");
                push_decimal(&mut out, referenced.0);
                push_str(&mut out, "': out of bounds");
            },
            ParseErrInner::LabelNotFound(label) => {
                push_str(&mut out, "Label '");
                push_str(&mut out, label.as_str());
                push_str(&mut out, "' not found");
            },
            ParseErrInner::LabelPastEnd(label) => {
                push_str(&mut out, "Label '");
                push_str(&mut out, label.as_str());
                push_str(&mut out, "' is not followed by a statement");
            },
            ParseErrInner::ParseIntErr(k) => match k {
                IntErrorKind::Empty => push_str(&mut out, "cannot parse integer from empty string"),
                IntErrorKind::InvalidDigit => push_str(&mut out, "invalid digit found in string"),
                IntErrorKind::PosOverflow => push_str(
                    &mut out,
                    "number too large to fit in target type",
                ),
            },
            ParseErrInner::NoRegister => push_str(&mut out, "No register provided"),
            ParseErrInner::NoLabelOrLine => push_str(&mut out, "No label or line provided"),
            ParseErrInner::IllegalStmt(stmt) => {
                push_str(&mut out, "Illegal statement: '");
                push_str(&mut out, stmt.as_str());
                push_str(&mut out, "'");
            },
        }
        assert(out@ =~= head + fault_text(self.inner@));
        push_str(&mut out, ".");
        string_of(&out)
    }
}

/// Label definitions in the order they were met.
struct Labels {
    names: Vec<Vec<char>>,
    targets: Vec<usize>,
}

spec fn label_map(names: Seq<Vec<char>>, targets: Seq<usize>) -> Map<Seq<char>, usize>
    decreases names.len(),
{
    if names.len() == 0 || targets.len() == 0 {
        map![]
    } else {
        label_map(names.drop_last(), targets.drop_last()).insert(names.last()@, targets.last())
    }
}

impl View for Labels {
    type V = Map<Seq<char>, usize>;

    closed spec fn view(&self) -> Map<Seq<char>, usize> {
        label_map(self.names@, self.targets@)
    }
}

impl Labels {
    closed spec fn wf(&self) -> bool {
        self.names.len() == self.targets.len()
    }

    fn new() -> (r: Labels)
        ensures
            r.wf(),
            r@ == Map::<Seq<char>, usize>::empty(),
    {
        Labels { names: Vec::new(), targets: Vec::new() }
    }

    fn insert(&mut self, name: Vec<char>, target: usize)
        requires
            old(self).wf(),
        ensures
            final(self).wf(),
            final(self)@ == old(self)@.insert(name@, target),
    {
        self.names.push(name);
        self.targets.push(target);
        assert(self.names@.drop_last() =~= old(self).names@);
        assert(self.targets@.drop_last() =~= old(self).targets@);
    }

    fn get(&self, name: &Vec<char>) -> (r: Option<usize>)
        requires
            self.wf(),
        ensures
            r == (if self@.contains_key(name@) {
                Some(self@[name@])
            } else {
                None::<usize>
            }),
    {
        let mut i: usize = self.names.len();
        assert(self.names@.take(i as int) =~= self.names@);
        assert(self.targets@.take(i as int) =~= self.targets@);
        while i > 0
            invariant
                i <= self.names.len() == self.targets.len(),
                self@.contains_key(name@) == label_map(
                    self.names@.take(i as int),
                    self.targets@.take(i as int),
                ).contains_key(name@),
                self@.contains_key(name@) ==> self@[name@] == label_map(
                    self.names@.take(i as int),
                    self.targets@.take(i as int),
                )[name@],
            decreases i,
        {
            let ghost m = label_map(self.names@.take(i - 1), self.targets@.take(i - 1));
            assert(self.names@.take(i as int).drop_last() =~= self.names@.take(i - 1));
            assert(self.targets@.take(i as int).drop_last() =~= self.targets@.take(i - 1));
            assert(label_map(self.names@.take(i as int), self.targets@.take(i as int)) == m.insert(
                self.names@[i - 1]@,
                self.targets@[i - 1],
            ));
            if same_chars(&self.names[i - 1], name) {
                return Some(self.targets[i - 1]);
            }
            i -= 1;
        }
        assert(label_map(self.names@.take(0), self.targets@.take(0)) == Map::<
            Seq<char>,
            usize,
        >::empty());
        None
    }
}

fn resolve_line_number(spans: &Vec<Span>, number: LineNumber, span: Span) -> (r: Result<
    StmtIdx,
    ParseErr,
>)
    ensures
        match find_line(spans@, number.0) {
            Some(i) => r == Ok::<StmtIdx, ParseErr>(StmtIdx(i)),
            None => r is Err && r->Err_0.span == span && r->Err_0.inner@
                == Fault::OutOfBoundsLineRef(number.0),
        },
{
    let mut i: usize = 0;
    while i < spans.len()
        invariant
            i <= spans.len(),
            find_line(spans@.take(i as int), number.0) is None,
        decreases spans.len() - i,
    {
        assert(spans@.take(i + 1).drop_last() =~= spans@.take(i as int));
        if number.0 >= 1 && spans[i].0 == number.0 - 1 {
            proof {
                lemma_find_line_prefix(spans@, number.0, i + 1);
            }
            return Ok(StmtIdx(i));
        }
        i += 1;
    }
    assert(spans@.take(spans.len() as int) =~= spans@);
    Err(ParseErr::new(span, ParseErrInner::OutOfBoundsLineRef(number)))
}

/// A match found in a prefix is the match of the whole sequence.
proof fn lemma_find_line_prefix(spans: Seq<Span>, n: usize, k: int)
    requires
        0 <= k <= spans.len(),
        find_line(spans.take(k), n) is Some,
    ensures
        find_line(spans, n) == find_line(spans.take(k), n),
    decreases spans.len() - k,
{
    if k < spans.len() {
        assert(spans.take(k + 1).drop_last() =~= spans.take(k));
        lemma_find_line_prefix(spans, n, k + 1);
    } else {
        assert(spans.take(k) =~= spans);
    }
}

fn resolve_label(labels: &Labels, count: usize, span: Span, label: &Vec<char>) -> (r: Result<
    StmtIdx,
    ParseErr,
>)
    requires
        labels.wf(),
    ensures
        labels@.contains_key(label@) && labels@[label@] < count ==> r == Ok::<StmtIdx, ParseErr>(
            StmtIdx(labels@[label@]),
        ),
        labels@.contains_key(label@) && labels@[label@] >= count ==> r is Err && r->Err_0.span
            == span && r->Err_0.inner@ == Fault::LabelPastEnd(label@),
        !labels@.contains_key(label@) ==> r is Err && r->Err_0.span == span && r->Err_0.inner@
            == Fault::LabelNotFound(label@),
{
    match labels.get(label) {
        Some(line) => if line < count {
            Ok(StmtIdx(line))
        } else {
            Err(ParseErr::new(span, ParseErrInner::LabelPastEnd(string_of(label))))
        },
        None => Err(ParseErr::new(span, ParseErrInner::LabelNotFound(string_of(label)))),
    }
}

/// The character sequences held by a sequence of strings.
pub open spec fn string_views(v: Seq<String>) -> Seq<Seq<char>> {
    v.map_values(|x: String| x@)
}

/// A branch target of `s`, if any, is below `n`: the index of one of `n` statements.
pub open spec fn target_within(s: Stmt, n: nat) -> bool {
    match s {
        Stmt::IsZero(_, t) => t.0 < n,
        Stmt::Jump(t) => t.0 < n,
        _ => true,
    }
}

impl Code {
    /// Spans aligned with statements, strictly increasing and within the source; every branch
    /// target the index of a statement.
    pub open spec fn wf(&self) -> bool {
        &&& self.span.len() == self.stmts.len()
        &&& forall|i: int|
            0 <= i < self.stmts.len() ==> target_within(#[trigger] self.stmts@[i], self.stmts.len() as nat)
        &&& forall|i: int, j: int|
            0 <= i < j < self.span.len() ==> (#[trigger] self.span@[i]).0 < (#[trigger] self.span@[j]).0
        &&& forall|i: int| 0 <= i < self.span.len() ==> (#[trigger] self.span@[i]).0 < self.code_lines.len()
    }
}

spec fn ir_pairs(irs: Seq<IrStmt>, spans: Seq<Span>) -> Seq<(LineKind, Span)> {
    Seq::new(irs.len(), |k: int| (irs[k]@, spans[k]))
}

/// Assembles `text`: each line is classified, labels are bound to the index of the next
/// statement, and branch targets are then resolved to statement indices.
pub fn parse(text: &str, file_name: String) -> (r: Result<Code, String>)
    ensures
        match assemble(text@) {
            Ok((stmts, spans)) => {
                &&& r is Ok
                &&& r->Ok_0.stmts@ == stmts
                &&& r->Ok_0.span@ == spans
                &&& string_views(r->Ok_0.code_lines@) == split_lines(text@)
                &&& r->Ok_0.file_name == file_name
            },
            Err((span, f)) => r is Err && r->Err_0@ == diagnostic(span, f),
        },
        r is Ok ==> r->Ok_0.wf(),
{
    let chars = chars_of(text);
    let lines = lines_of(&chars);
    let ghost all = split_lines(text@);
    let mut labels = Labels::new();
    let mut ir_statements: Vec<IrStmt> = Vec::new();
    let mut ir_spans: Vec<Span> = Vec::new();
    let mut line_index: usize = 0;
    assert(all.take(0) =~= seq![]);
    assert(ir_pairs(ir_statements@, ir_spans@) =~= seq![]);
    while line_index < lines.len()
        invariant
            all == split_lines(text@),
            views(lines@) == all,
            line_index <= lines.len(),
            labels.wf(),
            ir_statements.len() == ir_spans.len(),
            first_pass(all.take(line_index as int)) == Ok::<
                (Seq<(LineKind, Span)>, Map<Seq<char>, usize>),
                (Span, Fault),
            >((ir_pairs(ir_statements@, ir_spans@), labels@)),
            forall|i: int| 0 <= i < ir_spans.len() ==> (#[trigger] ir_spans@[i]).0 < line_index,
            forall|i: int, j: int|
                0 <= i < j < ir_spans.len() ==> (#[trigger] ir_spans@[i]).0 < (#[trigger] ir_spans@[j]).0,
            forall|l: Seq<char>| #[trigger]
                labels@.contains_key(l) ==> labels@[l] <= ir_statements.len(),
        decreases lines.len() - line_index,
    {
        let span = Span(line_index);
        assert(all.take(line_index + 1).drop_last() =~= all.take(line_index as int));
        assert(all.take(line_index + 1).last() == lines@[line_index as int]@);
        let ghost before = ir_pairs(ir_statements@, ir_spans@);
        match parse_line(span, &lines[line_index]) {
            Ok(IrStmt::Label(name)) => {
                labels.insert(name, ir_statements.len());
            },
            Ok(IrStmt::Blank) => {},
            Ok(stmt) => {
                ir_statements.push(stmt);
                ir_spans.push(span);
                assert(ir_pairs(ir_statements@, ir_spans@) =~= before.push((stmt@, span)));
            },
            Err(err) => {
                proof {
                    lemma_first_pass_err(all, line_index + 1);
                }
                return Err(err.message());
            },
        }
        line_index += 1;
    }
    assert(all.take(lines.len() as int) =~= all);
    let ghost irs = ir_pairs(ir_statements@, ir_spans@);
    assert(spans_of(irs) =~= ir_spans@);
    let mut stmts: Vec<Stmt> = Vec::new();
    let mut k: usize = 0;
    while k < ir_statements.len()
        invariant
            all == split_lines(text@),
            labels.wf(),
            ir_statements.len() == ir_spans.len(),
            irs == ir_pairs(ir_statements@, ir_spans@),
            spans_of(irs) == ir_spans@,
            k <= ir_statements.len(),
            forall|i: int| 0 <= i < ir_spans.len() ==> (#[trigger] ir_spans@[i]).0 < lines.len(),
            forall|l: Seq<char>| #[trigger]
                labels@.contains_key(l) ==> labels@[l] <= ir_statements.len(),
            resolve_all(irs, labels@, k as nat) == Ok::<Seq<Stmt>, (Span, Fault)>(stmts@),
            stmts.len() == k,
            first_pass(all) == Ok::<
                (Seq<(LineKind, Span)>, Map<Seq<char>, usize>),
                (Span, Fault),
            >((irs, labels@)),
            forall|i: int|
                0 <= i < stmts.len() ==> target_within(#[trigger] stmts@[i], ir_statements.len() as nat),
        decreases ir_statements.len() - k,
    {
        let span = ir_spans[k];
        assert(irs[k as int] == (ir_statements@[k as int]@, span));
        let stmt = match &ir_statements[k] {
            IrStmt::Inc(r) => Stmt::Inc(*r),
            IrStmt::Dec(r) => Stmt::Dec(*r),
            IrStmt::IsZeroLine(r, line_number) => match resolve_line_number(
                &ir_spans,
                *line_number,
                span,
            ) {
                Ok(i) => Stmt::IsZero(*r, i),
                Err(err) => {
                    proof {
                        lemma_resolve_all_err(irs, labels@, (k + 1) as nat, irs.len());
                    }
                    return Err(err.message());
                },
            },
            IrStmt::JumpLine(line_number) => match resolve_line_number(
                &ir_spans,
                *line_number,
                span,
            ) {
                Ok(i) => Stmt::Jump(i),
                Err(err) => {
                    proof {
                        lemma_resolve_all_err(irs, labels@, (k + 1) as nat, irs.len());
                    }
                    return Err(err.message());
                },
            },
            IrStmt::IsZeroLabel(r, label) => match resolve_label(&labels, ir_statements.len(), span, label) {
                Ok(i) => Stmt::IsZero(*r, i),
                Err(err) => {
                    proof {
                        lemma_resolve_all_err(irs, labels@, (k + 1) as nat, irs.len());
                    }
                    return Err(err.message());
                },
            },
            IrStmt::JumpLabel(label) => match resolve_label(&labels, ir_statements.len(), span, label) {
                Ok(i) => Stmt::Jump(i),
                Err(err) => {
                    proof {
                        lemma_resolve_all_err(irs, labels@, (k + 1) as nat, irs.len());
                    }
                    return Err(err.message());
                },
            },
            _ => Stmt::Stop,
        };
        proof {
            lemma_find_line_bound(ir_spans@, stmt_line(irs[k as int].0));
        }
        stmts.push(stmt);
        k += 1;
    }
    let mut code_lines: Vec<String> = Vec::new();
    let mut i: usize = 0;
    while i < lines.len()
        invariant
            i <= lines.len(),
            views(lines@) == all,
            string_views(code_lines@) == all.take(i as int),
        decreases lines.len() - i,
    {
        let ghost before = code_lines@;
        code_lines.push(string_of(&lines[i]));
        assert(string_views(code_lines@) =~= string_views(before).push(lines@[i as int]@));
        assert(all.take(i + 1) =~= all.take(i as int).push(all[i as int]));
        i += 1;
    }
    assert(all.take(lines.len() as int) =~= all);
    Ok(Code { stmts, span: ir_spans, code_lines, file_name })
}

/// A rejected line ends the first pass: every longer prefix is rejected for it too.
proof fn lemma_first_pass_err(lines: Seq<Seq<char>>, k: int)
    requires
        0 <= k <= lines.len(),
        first_pass(lines.take(k)) is Err,
    ensures
        first_pass(lines) == first_pass(lines.take(k)),
    decreases lines.len() - k,
{
    if k < lines.len() {
        assert(lines.take(k + 1).drop_last() =~= lines.take(k));
        lemma_first_pass_err(lines, k + 1);
    } else {
        assert(lines.take(k) =~= lines);
    }
}

/// A statement that fails to resolve decides the outcome of every longer prefix.
proof fn lemma_resolve_all_err(
    irs: Seq<(LineKind, Span)>,
    labels: Map<Seq<char>, usize>,
    k: nat,
    n: nat,
)
    requires
        k <= n,
        resolve_all(irs, labels, k) is Err,
    ensures
        resolve_all(irs, labels, n) == resolve_all(irs, labels, k),
    decreases n - k,
{
    if k < n {
        lemma_resolve_all_err(irs, labels, k, (n - 1) as nat);
    }
}

/// The line number a line refers to, if it branches to one.
spec fn stmt_line(k: LineKind) -> usize {
    match k {
        LineKind::IsZeroLine(_, n) => n,
        LineKind::JumpLine(n) => n,
        _ => 0,
    }
}

proof fn lemma_find_line_bound(spans: Seq<Span>, n: usize)
    requires
        spans.len() <= usize::MAX,
    ensures
        find_line(spans, n) matches Some(i) ==> i < spans.len() && spans[i as int].0 + 1 == n,
    decreases spans.len(),
{
    if spans.len() > 0 {
        lemma_find_line_bound(spans.drop_last(), n);
        if let Some(i) = find_line(spans.drop_last(), n) {
            assert(spans.drop_last()[i as int] == spans[i as int]);
        }
    }
}

proof fn lemma_find_line_none(spans: Seq<Span>, n: usize)
    requires
        forall|j: int| 0 <= j < spans.len() ==> (#[trigger] spans[j]).0 + 1 != n,
    ensures
        find_line(spans, n) is None,
    decreases spans.len(),
{
    if spans.len() > 0 {
        let p = spans.drop_last();
        assert forall|j: int| 0 <= j < p.len() implies (#[trigger] p[j]).0 + 1 != n by {
            assert(p[j] == spans[j]);
        }
        lemma_find_line_none(p, n);
    }
}

/// Every statement of a well-formed program is found again by the 1-based number of the line
/// it came from: a branch to that line, from any line and under any label table, resolves to
/// the statement's own index.
pub proof fn lemma_line_round_trip(c: Code, i: int, from: Span, labels: Map<Seq<char>, usize>)
    requires
        c.wf(),
        0 <= i < c.stmts.len(),
    ensures
        find_line(c.span@, (c.span@[i].0 + 1) as usize) == Some(i as usize),
        resolve(LineKind::JumpLine((c.span@[i].0 + 1) as usize), from, c.span@, labels) == Ok::<
            Stmt,
            (Span, Fault),
        >(Stmt::Jump(StmtIdx(i as usize))),
        forall|r: usize|
            resolve(LineKind::IsZeroLine(r, (c.span@[i].0 + 1) as usize), from, c.span@, labels)
                == Ok::<Stmt, (Span, Fault)>(Stmt::IsZero(Register(r), StmtIdx(i as usize))),
{
    lemma_find_own_line(c.span@, i);
}

/// In strictly increasing spans, the line number of the span at `i` is found at `i`.
proof fn lemma_find_own_line(spans: Seq<Span>, i: int)
    requires
        0 <= i < spans.len(),
        spans[i].0 < usize::MAX,
        forall|a: int, b: int| 0 <= a < b < spans.len() ==> (#[trigger] spans[a]).0 < (#[trigger] spans[b]).0,
    ensures
        find_line(spans, (spans[i].0 + 1) as usize) == Some(i as usize),
{
    let n = (spans[i].0 + 1) as usize;
    let pre = spans.take(i + 1);
    assert(pre.drop_last() =~= spans.take(i));
    assert forall|j: int| 0 <= j < i implies (#[trigger] spans.take(i)[j]).0 + 1 != n by {
        assert(spans.take(i)[j] == spans[j]);
        assert(spans[j].0 < spans[i].0);
    }
    lemma_find_line_none(spans.take(i), n);
    assert(find_line(pre, n) == Some(i as usize));
    lemma_find_line_prefix(spans, n, i + 1);
}

/// Whether a line kind yields a statement.
pub open spec fn is_statement(k: LineKind) -> bool {
    !(k is Label || k is Blank)
}

/// What the first pass keeps of a text it accepts: every line is classified without fault;
/// each statement comes, in strictly increasing order, from a line that yields exactly it; and
/// every line that yields a statement has one.
pub proof fn lemma_first_pass_facts(lines: Seq<Seq<char>>)
    requires
        lines.len() <= usize::MAX,
    ensures
        first_pass(lines) matches Ok((irs, labels)) ==> {
            &&& irs.len() <= lines.len()
            &&& forall|m: int| 0 <= m < lines.len() ==> #[trigger] classify(lines[m]) is Ok
            &&& forall|j: int|
                0 <= j < irs.len() ==> {
                    &&& (#[trigger] irs[j]).1.0 < lines.len()
                    &&& classify(lines[irs[j].1.0 as int]) == Ok::<LineKind, Fault>(irs[j].0)
                    &&& is_statement(irs[j].0)
                }
            &&& forall|a: int, b: int|
                0 <= a < b < irs.len() ==> (#[trigger] irs[a]).1.0 < (#[trigger] irs[b]).1.0
            &&& forall|m: int|
                0 <= m < lines.len() && is_statement(#[trigger] classify(lines[m])->Ok_0) ==> exists|j: int|
                    0 <= j < irs.len() && (#[trigger] irs[j]).1.0 == m
        },
    decreases lines.len(),
{
    if lines.len() > 0 {
        let p = lines.drop_last();
        lemma_first_pass_facts(p);
        assert forall|m: int| 0 <= m < p.len() implies #[trigger] p[m] == lines[m] by {}
        if let Ok((irs0, labels0)) = first_pass(p) {
            let n = lines.len() - 1;
            if let Ok(k) = classify(lines.last()) {
                let irs = first_pass(lines)->Ok_0.0;
                assert forall|m: int| 0 <= m < lines.len() implies #[trigger] classify(lines[m]) is Ok by {
                    if m < n {
                        assert(p[m] == lines[m]);
                    }
                }
                if is_statement(k) {
                    assert(irs == irs0.push((k, Span(n as usize))));
                    assert forall|j: int| 0 <= j < irs.len() implies {
                        &&& (#[trigger] irs[j]).1.0 < lines.len()
                        &&& classify(lines[irs[j].1.0 as int]) == Ok::<LineKind, Fault>(irs[j].0)
                        &&& is_statement(irs[j].0)
                    } by {
                        if j < irs0.len() {
                            assert(irs[j] == irs0[j]);
                            assert(p[irs0[j].1.0 as int] == lines[irs0[j].1.0 as int]);
                        }
                    }
                    assert forall|a: int, b: int| 0 <= a < b < irs.len() implies (#[trigger] irs[a]).1.0
                        < (#[trigger] irs[b]).1.0 by {
                        assert(irs[a] == irs0[a]);
                        if b < irs0.len() {
                            assert(irs[b] == irs0[b]);
                        }
                    }
                    assert forall|m: int| 0 <= m < lines.len() && is_statement(
                        #[trigger] classify(lines[m])->Ok_0,
                    ) implies exists|j: int| 0 <= j < irs.len() && (#[trigger] irs[j]).1.0 == m by {
                        if m < n {
                            assert(p[m] == lines[m]);
                            let j = choose|j: int| 0 <= j < irs0.len() && (#[trigger] irs0[j]).1.0 == m;
                            assert(irs[j] == irs0[j]);
                        } else {
                            assert(irs[irs0.len() as int].1.0 == m);
                        }
                    }
                } else {
                    assert(irs == irs0);
                    assert forall|j: int| 0 <= j < irs.len() implies {
                        &&& (#[trigger] irs[j]).1.0 < lines.len()
                        &&& classify(lines[irs[j].1.0 as int]) == Ok::<LineKind, Fault>(irs[j].0)
                        &&& is_statement(irs[j].0)
                    } by {
                        assert(p[irs0[j].1.0 as int] == lines[irs0[j].1.0 as int]);
                    }
                    assert forall|m: int| 0 <= m < lines.len() && is_statement(
                        #[trigger] classify(lines[m])->Ok_0,
                    ) implies exists|j: int| 0 <= j < irs.len() && (#[trigger] irs[j]).1.0 == m by {
                        assert(m < n);
                        assert(p[m] == lines[m]);
                    }
                }
            }
        }
    }
}

/// An operand that reads as an integer is always a line number, never a label, whatever
/// labels the program defines: the line is classified as a branch to that line number, and
/// resolves the same under every label table.
pub proof fn lemma_numeric_operand_is_line(
    l: Seq<char>,
    from: Span,
    spans: Seq<Span>,
    labels: Map<Seq<char>, usize>,
    other: Map<Seq<char>, usize>,
)
    ensures
        ({
            let t = tokens(l);
            t.len() >= 2 && t[0] == "JUMP"@ && parse_usize(t[1]) is Ok ==> {
                &&& classify(l) == Ok::<LineKind, Fault>(LineKind::JumpLine(parse_usize(t[1])->Ok_0))
                &&& resolve(classify(l)->Ok_0, from, spans, labels) == resolve(
                    classify(l)->Ok_0,
                    from,
                    spans,
                    other,
                )
            }
        }),
        ({
            let t = tokens(l);
            t.len() >= 3 && t[0] == "IS_ZERO"@ && parse_usize(t[1]) is Ok && parse_usize(t[2]) is Ok
                ==> {
                &&& classify(l) == Ok::<LineKind, Fault>(
                    LineKind::IsZeroLine(parse_usize(t[1])->Ok_0, parse_usize(t[2])->Ok_0),
                )
                &&& resolve(classify(l)->Ok_0, from, spans, labels) == resolve(
                    classify(l)->Ok_0,
                    from,
                    spans,
                    other,
                )
            }
        }),
{
    reveal_strlit("INC");
    reveal_strlit("DEC");
    reveal_strlit("IS_ZERO");
    reveal_strlit("JUMP");
    assert("JUMP"@.len() == 4 && "INC"@.len() == 3 && "DEC"@.len() == 3);
    assert("IS_ZERO"@.len() == 7);
    assert("JUMP"@ != "IS_ZERO"@);
    assert("IS_ZERO"@ != "INC"@);
    assert("IS_ZERO"@ != "DEC"@);
}

/// Resolving the first `n` statements, when it succeeds, resolves each on its own.
proof fn lemma_resolve_all_facts(irs: Seq<(LineKind, Span)>, labels: Map<Seq<char>, usize>, n: nat)
    ensures
        resolve_all(irs, labels, n) matches Ok(st) ==> {
            &&& st.len() == n
            &&& forall|j: int|
                0 <= j < n ==> resolve((#[trigger] irs[j]).0, irs[j].1, spans_of(irs), labels)
                    == Ok::<Stmt, (Span, Fault)>(st[j])
        },
    decreases n,
{
    if n > 0 {
        lemma_resolve_all_facts(irs, labels, (n - 1) as nat);
    }
}

/// The statement at `j` of an assembled text is its line's kind, resolved, and the spans of
/// an assembled text strictly increase.
pub proof fn lemma_assembled_statement(text: Seq<char>, j: int)
    requires
        text.len() <= usize::MAX,
        assemble(text) is Ok,
        0 <= j < assemble(text)->Ok_0.0.len(),
    ensures
        ({
            let (stmts, spans) = assemble(text)->Ok_0;
            let lines = split_lines(text);
            let (irs, labels) = first_pass(lines)->Ok_0;
            &&& stmts.len() == spans.len()
            &&& spans == spans_of(irs)
            &&& spans[j].0 < lines.len()
            &&& spans.len() <= lines.len()
            &&& classify(lines[spans[j].0 as int]) == Ok::<LineKind, Fault>(irs[j].0)
            &&& resolve(irs[j].0, spans[j], spans, labels) == Ok::<Stmt, (Span, Fault)>(stmts[j])
            &&& forall|a: int, b: int|
                0 <= a < b < spans.len() ==> (#[trigger] spans[a]).0 < (#[trigger] spans[b]).0
        }),
{
    let lines = split_lines(text);
    lemma_lines_len(text);
    lemma_first_pass_facts(lines);
    let (irs, labels) = first_pass(lines)->Ok_0;
    lemma_resolve_all_facts(irs, labels, irs.len());
    let spans = spans_of(irs);
    assert(irs[j] == (irs[j].0, spans[j]));
    assert forall|a: int, b: int| 0 <= a < b < spans.len() implies (#[trigger] spans[a]).0
        < (#[trigger] spans[b]).0 by {
        assert(spans[a] == irs[a].1 && spans[b] == irs[b].1);
    }
}

/// In an assembled text, a branch on any line to the 1-based line number of a statement
/// resolves to that statement's index.
pub proof fn lemma_assembled_round_trip(text: Seq<char>, i: int, j: int)
    requires
        text.len() <= usize::MAX,
        assemble(text) is Ok,
        0 <= i < assemble(text)->Ok_0.0.len(),
        0 <= j < assemble(text)->Ok_0.0.len(),
    ensures
        ({
            let (stmts, spans) = assemble(text)->Ok_0;
            let n = (spans[i].0 + 1) as usize;
            let k = classify(split_lines(text)[spans[j].0 as int])->Ok_0;
            &&& k == LineKind::JumpLine(n) ==> stmts[j] == Stmt::Jump(StmtIdx(i as usize))
            &&& forall|r: usize|
                k == LineKind::IsZeroLine(r, n) ==> stmts[j] == Stmt::IsZero(
                    Register(r),
                    StmtIdx(i as usize),
                )
        }),
{
    lemma_assembled_statement(text, j);
    lemma_assembled_statement(text, i);
    let spans = assemble(text)->Ok_0.1;
    lemma_lines_len(text);
    lemma_find_own_line(spans, i);
}

/// In an assembled text, a branch whose operand reads as an integer `n` goes to the statement
/// on line `n`, never to a label of that name.
pub proof fn lemma_assembled_numeric_operand(text: Seq<char>, j: int)
    requires
        text.len() <= usize::MAX,
        assemble(text) is Ok,
        0 <= j < assemble(text)->Ok_0.0.len(),
    ensures
        ({
            let (stmts, spans) = assemble(text)->Ok_0;
            let t = tokens(split_lines(text)[spans[j].0 as int]);
            t.len() >= 2 && t[0] == "JUMP"@ && parse_usize(t[1]) is Ok ==> exists|i: int|
                0 <= i < stmts.len() && stmts[j] == Stmt::Jump(StmtIdx(i as usize)) && spans[i].0
                    + 1 == parse_usize(t[1])->Ok_0
        }),
        ({
            let (stmts, spans) = assemble(text)->Ok_0;
            let t = tokens(split_lines(text)[spans[j].0 as int]);
            t.len() >= 3 && t[0] == "IS_ZERO"@ && parse_usize(t[1]) is Ok && parse_usize(t[2]) is Ok
                ==> exists|i: int|
                0 <= i < stmts.len() && stmts[j] == Stmt::IsZero(
                    Register(parse_usize(t[1])->Ok_0),
                    StmtIdx(i as usize),
                ) && spans[i].0 + 1 == parse_usize(t[2])->Ok_0
        }),
{
    lemma_assembled_statement(text, j);
    let (stmts, spans) = assemble(text)->Ok_0;
    let l = split_lines(text)[spans[j].0 as int];
    let (irs, labels) = first_pass(split_lines(text))->Ok_0;
    lemma_numeric_operand_is_line(l, spans[j], spans, labels, labels);
    lemma_lines_len(text);
    lemma_find_line_bound(spans, stmt_line(irs[j].0));
    if let Some(i) = find_line(spans, stmt_line(irs[j].0)) {
        assert(spans[i as int].0 + 1 == stmt_line(irs[j].0));
    }
}

} // verus!
