use m8db::parse::{parse, LineNumber, ParseErr, ParseErrInner, Register, Span, Stmt, StmtIdx};
use m8db::text::{read_usize, IntErrorKind};

fn stmts_of(text: &str) -> Vec<Stmt> {
    parse(text, "prog".to_string()).unwrap().stmts
}

fn error_of(text: &str) -> String {
    match parse(text, "prog".to_string()) {
        Ok(_) => panic!("expected a diagnostic"),
        Err(e) => e,
    }
}

#[test]
fn span_and_line_number_convert() {
    assert_eq!(Span(0).line_number(), 1);
    assert_eq!(Span(41).line_number(), 42);
    assert_eq!(LineNumber(1).span(), Span(0));
    assert_eq!(LineNumber(7).span(), Span(6));
}

#[test]
fn scenario_program_assembles_to_four_statements() {
    let code = parse("INC 0\nIS_ZERO 0 4\nDEC 0\nSTOP\n", "demo".to_string()).unwrap();
    assert_eq!(
        code.stmts,
        vec![
            Stmt::Inc(Register(0)),
            Stmt::IsZero(Register(0), StmtIdx(3)),
            Stmt::Dec(Register(0)),
            Stmt::Stop,
        ]
    );
    assert_eq!(code.span, vec![Span(0), Span(1), Span(2), Span(3)]);
    assert_eq!(code.code_lines, vec!["INC 0", "IS_ZERO 0 4", "DEC 0", "STOP"]);
    assert_eq!(code.file_name, "demo");
}

#[test]
fn jump_to_blank_line_is_out_of_bounds() {
    assert_eq!(
        error_of("JUMP 2\n\nSTOP\n"),
        "error on line '1': Referencing line '2': out of bounds."
    );
}

#[test]
fn jump_to_each_statement_line_round_trips() {
    let text = "# counter\nINC 1\n\n.loop\nDEC 1\nIS_ZERO 1 9\nJUMP 5\n# end\nSTOP\n";
    let code = parse(text, "p".to_string()).unwrap();
    assert_eq!(code.span, vec![Span(1), Span(4), Span(5), Span(6), Span(8)]);
    for (i, span) in code.span.iter().enumerate() {
        let probe = format!("{}JUMP {}\n", text, span.line_number());
        let stmts = stmts_of(&probe);
        assert_eq!(stmts[stmts.len() - 1], Stmt::Jump(StmtIdx(i)));
    }
}

#[test]
fn numeric_operand_is_a_line_not_a_label() {
    // the label `1` stands for index 1, line 1 holds the statement at index 0
    let text = "INC 0\n.1\nINC 0\nJUMP 1\n";
    assert_eq!(stmts_of(text)[2], Stmt::Jump(StmtIdx(0)));
    // line 1 holds only a label, so the reference fails although a label `1` exists
    assert_eq!(
        error_of(".1\nINC 0\nINC 0\nJUMP 1\n"),
        "error on line '4': Referencing line '1': out of bounds."
    );
}

#[test]
fn labels_resolve_forward_and_backward() {
    let text = "JUMP end\n.top\nINC 0\nIS_ZERO 0 top\n.end\nSTOP\n";
    assert_eq!(
        stmts_of(text),
        vec![
            Stmt::Jump(StmtIdx(3)),
            Stmt::Inc(Register(0)),
            Stmt::IsZero(Register(0), StmtIdx(1)),
            Stmt::Stop,
        ]
    );
}

#[test]
fn later_label_definition_wins() {
    let text = ".a\nINC 0\n.a\nINC 1\nJUMP a\n";
    assert_eq!(stmts_of(text)[2], Stmt::Jump(StmtIdx(1)));
}

#[test]
fn label_after_last_statement_is_rejected() {
    assert_eq!(
        error_of("JUMP done\nINC 0\n.done\n"),
        "error on line '1': Label 'done' is not followed by a statement."
    );
    assert_eq!(
        error_of("JUMP a\n.a"),
        "error on line '1': Label 'a' is not followed by a statement."
    );
    assert_eq!(
        error_of("INC 0\nIS_ZERO 0 end\n# tail\n.end\n\n"),
        "error on line '2': Label 'end' is not followed by a statement."
    );
}

#[test]
fn label_before_last_statement_resolves() {
    assert_eq!(
        stmts_of("JUMP done\nINC 0\n.done\nSTOP\n")[0],
        Stmt::Jump(StmtIdx(2))
    );
}

#[test]
fn comments_blank_lines_and_extra_tokens_are_ignored() {
    let text = "  # header\n\n\tINC   3   trailing words\n#INC 4\nSTOP now\n";
    assert_eq!(stmts_of(text), vec![Stmt::Inc(Register(3)), Stmt::Stop]);
}

#[test]
fn crlf_lines_and_unicode_white_space() {
    let code = parse("INC\u{3000}2\r\nSTOP\r\n", "p".to_string()).unwrap();
    assert_eq!(code.stmts, vec![Stmt::Inc(Register(2)), Stmt::Stop]);
    assert_eq!(code.code_lines, vec!["INC\u{3000}2", "STOP"]);
}

#[test]
fn empty_text_assembles_to_empty_program() {
    let code = parse("", "p".to_string()).unwrap();
    assert!(code.stmts.is_empty());
    assert!(code.code_lines.is_empty());
}

#[test]
fn illegal_statement_is_reported() {
    assert_eq!(
        error_of("INC 0\nADD 1 2\n"),
        "error on line '2': Illegal statement: 'ADD'."
    );
}

#[test]
fn missing_register_is_reported() {
    assert_eq!(error_of("DEC\n"), "error on line '1': No register provided.");
}

#[test]
fn missing_target_is_reported() {
    assert_eq!(
        error_of("STOP\nIS_ZERO 0\n"),
        "error on line '2': No label or line provided."
    );
    assert_eq!(error_of("JUMP\n"), "error on line '1': No label or line provided.");
}

#[test]
fn bad_register_number_is_reported() {
    assert_eq!(
        error_of("INC x\n"),
        "error on line '1': invalid digit found in string."
    );
    assert_eq!(
        error_of("\n\nINC 99999999999999999999999\n"),
        "error on line '3': number too large to fit in target type."
    );
}

#[test]
fn unknown_label_is_reported() {
    assert_eq!(
        error_of("STOP\nJUMP nowhere\n"),
        "error on line '2': Label 'nowhere' not found."
    );
}

#[test]
fn line_zero_and_past_end_are_out_of_bounds() {
    assert_eq!(
        error_of("JUMP 0\n"),
        "error on line '1': Referencing line '0': out of bounds."
    );
    assert_eq!(
        error_of("STOP\nIS_ZERO 0 12\n"),
        "error on line '2': Referencing line '12': out of bounds."
    );
}

#[test]
fn reference_to_label_line_is_out_of_bounds() {
    assert_eq!(
        error_of(".here\nJUMP 1\n"),
        "error on line '2': Referencing line '1': out of bounds."
    );
}

#[test]
fn first_error_in_text_order_wins() {
    assert_eq!(
        error_of("JUMP missing\nBOGUS\n"),
        "error on line '2': Illegal statement: 'BOGUS'."
    );
}

#[test]
fn diagnostic_message_of_each_reason() {
    let e = ParseErr::new(Span(4), ParseErrInner::OutOfBoundsLineRef(LineNumber(12)));
    assert_eq!(e.message(), "error on line '5': Referencing line '12': out of bounds.");
    let e = ParseErr::new(Span(0), ParseErrInner::ParseIntErr(IntErrorKind::Empty));
    assert_eq!(e.message(), "error on line '1': cannot parse integer from empty string.");
    let e = ParseErr::new(Span(9), ParseErrInner::NoRegister);
    assert_eq!(e.message(), "error on line '10': No register provided.");
}

#[test]
fn reading_integers() {
    let chars = |s: &str| s.chars().collect::<Vec<char>>();
    assert_eq!(read_usize(&chars("0")), Ok(0));
    assert_eq!(read_usize(&chars("+17")), Ok(17));
    assert_eq!(read_usize(&chars("")), Err(IntErrorKind::Empty));
    assert_eq!(read_usize(&chars("+")), Err(IntErrorKind::InvalidDigit));
    assert_eq!(read_usize(&chars("-1")), Err(IntErrorKind::InvalidDigit));
    assert_eq!(read_usize(&chars("12a")), Err(IntErrorKind::InvalidDigit));
    assert_eq!(
        read_usize(&chars("18446744073709551615")),
        Ok(usize::MAX)
    );
    assert_eq!(
        read_usize(&chars("18446744073709551616")),
        Err(IntErrorKind::PosOverflow)
    );
    assert_eq!(
        read_usize(&chars("99999999999999999999x")),
        Err(IntErrorKind::PosOverflow)
    );
}
