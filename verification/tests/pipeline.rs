use zipette::environment::Environment;
use zipette::interpreter::{run_source, ExecuteError, OutputLine};
use zipette::lexer::{Lexer, LexerError, Token};
use zipette::ops::{NumOp, NumReply};
use zipette::parser::{Colored, ParseError, Parser, Statement};

/// The intended meaning of the numeric domain: IEEE 64-bit
/// floating-point numbers, carried as bit patterns.
fn f64_ops(q: NumOp) -> NumReply {
    match q {
        NumOp::Parse(s) => match s.parse::<f64>() {
            Ok(x) => NumReply::Bits(x.to_bits()),
            Err(_) => NumReply::NoParse,
        },
        NumOp::Add(a, b) => NumReply::Bits((f64::from_bits(a) + f64::from_bits(b)).to_bits()),
        NumOp::Sub(a, b) => NumReply::Bits((f64::from_bits(a) - f64::from_bits(b)).to_bits()),
        NumOp::Mul(a, b) => NumReply::Bits((f64::from_bits(a) * f64::from_bits(b)).to_bits()),
        NumOp::Div(a, b) => NumReply::Bits((f64::from_bits(a) / f64::from_bits(b)).to_bits()),
        NumOp::Pow(a, b) => NumReply::Bits(f64::from_bits(a).powf(f64::from_bits(b)).to_bits()),
        NumOp::Trunc(a) => NumReply::Int(f64::from_bits(a).trunc() as u64),
        NumOp::ShiftAmount(a) => NumReply::Int(f64::from_bits(a) as u32 as u64),
        NumOp::FromInt(n) => NumReply::Bits((n as f64).to_bits()),
        NumOp::Format(a) => NumReply::Text(format!("{}", f64::from_bits(a))),
    }
}

fn scan(src: &str) -> Vec<Token> {
    let mut lexer = Lexer::new(src);
    lexer.scan_all(&f64_ops)
}

/// Parse a one-statement program holding a bare expression and evaluate
/// that expression in an empty environment.
fn eval_expr_str(src: &str) -> f64 {
    let mut parser = Parser::new(scan(src));
    let program = parser.parse().expect("program should parse");
    assert_eq!(program.len(), 1);
    match program.into_iter().next().unwrap() {
        Statement::Expression(e) => {
            let env = Environment::new();
            f64::from_bits(e.evaluate(&env, &f64_ops).expect("expression should evaluate"))
        }
        _ => panic!("expected a bare expression statement"),
    }
}

fn run(src: &str) -> Result<(Vec<OutputLine>, Result<(), ExecuteError>), ParseError> {
    run_source(src, &f64_ops)
}

#[test]
fn scan_integer_literal() {
    assert_eq!(scan("42"), vec![Token::Number(42.0f64.to_bits())]);
}

#[test]
fn scan_decimal_literal() {
    assert_eq!(scan("3.25"), vec![Token::Number(3.25f64.to_bits())]);
    assert_eq!(scan("0.5"), vec![Token::Number("0.5".parse::<f64>().unwrap().to_bits())]);
}

#[test]
fn scan_comma_literal_is_normalized() {
    assert_eq!(scan("12,5"), vec![Token::Number(12.5f64.to_bits())]);
}

#[test]
fn scan_negative_literal_folds_sign() {
    assert_eq!(scan("-5"), vec![Token::Number((-5.0f64).to_bits())]);
    assert_eq!(
        scan("- 5"),
        vec![Token::Minus, Token::Number(5.0f64.to_bits())]
    );
}

#[test]
fn scan_operators_and_punctuation() {
    assert_eq!(
        scan("+ - * ** ^ / ( ) ;"),
        vec![
            Token::Plus,
            Token::Minus,
            Token::Product,
            Token::Exponent,
            Token::Exponent,
            Token::Division,
            Token::OpenParen,
            Token::CloseParen,
            Token::EndOfStatement,
        ]
    );
}

#[test]
fn scan_shift_operators() {
    assert_eq!(scan("<< >>"), vec![Token::BytesLeft, Token::BytesRight]);
    assert_eq!(scan("<"), vec![Token::Useless('<')]);
    assert_eq!(scan(">"), vec![Token::Useless('>')]);
}

#[test]
fn scan_identifier_and_unrecognized() {
    assert_eq!(
        scan("abc #"),
        vec![Token::Identifier("abc".to_string()), Token::Useless('#')]
    );
}

#[test]
fn next_token_steps_and_ends() {
    let mut lexer = Lexer::new(" 7 ;");
    assert_eq!(lexer.next_token(&f64_ops), Some(Token::Number(7.0f64.to_bits())));
    assert_eq!(lexer.next_token(&f64_ops), Some(Token::EndOfStatement));
    assert_eq!(lexer.next_token(&f64_ops), None);
}

#[test]
fn precedence_product_binds_tighter() {
    assert_eq!(eval_expr_str("2 + 3 * 4;"), 14.0);
    assert_eq!(eval_expr_str("2 * 3 + 4;"), 10.0);
    assert_eq!(eval_expr_str("(2 + 3) * 2 ^ 2;"), 20.0);
}

#[test]
fn exponent_is_right_associative() {
    assert_eq!(eval_expr_str("2 ^ 3 ^ 2;"), 512.0);
    assert_eq!(eval_expr_str("2 ** 3 ** 2;"), 512.0);
}

#[test]
fn subtraction_is_left_associative() {
    assert_eq!(eval_expr_str("10 - 3 - 2;"), 5.0);
    assert_eq!(eval_expr_str("20 / 2 / 5;"), 2.0);
}

#[test]
fn division_by_zero_follows_float_semantics() {
    assert!(eval_expr_str("1 / 0;").is_infinite());
    assert!(eval_expr_str("0 / 0;").is_nan());
}

#[test]
fn shift_left_and_right() {
    assert_eq!(eval_expr_str("3 << 2;"), 12.0);
    assert_eq!(eval_expr_str("16 >> 2;"), 4.0);
}

#[test]
fn shift_amount_above_63_saturates_to_zero() {
    assert_eq!(eval_expr_str("1 << 64;"), 0.0);
    assert_eq!(eval_expr_str("1 << 100;"), 0.0);
    assert_eq!(eval_expr_str("7 >> 64;"), 0.0);
    assert_eq!(eval_expr_str("1 << 1000000;"), 0.0);
}

#[test]
fn assignment_reference_round_trip() {
    let (output, result) = run("vicer x 5; vicer y 10; zipette x + y;").unwrap();
    assert!(result.is_ok());
    assert_eq!(output, vec![OutputLine::Plain("15".to_string())]);
}

#[test]
fn assignment_overwrites() {
    let (output, result) = run("vicer x 1; vicer x 2; zipette x;").unwrap();
    assert!(result.is_ok());
    assert_eq!(output, vec![OutputLine::Plain("2".to_string())]);
}

#[test]
fn undefined_variable_fails_naming_it() {
    let (output, result) = run("zipette x;").unwrap();
    assert_eq!(output, Vec::<OutputLine>::new());
    assert_eq!(result, Err(ExecuteError("x".to_string())));
}

#[test]
fn failure_keeps_earlier_output() {
    let (output, result) = run("zipette 1; zipette q; zipette 2;").unwrap();
    assert_eq!(output, vec![OutputLine::Plain("1".to_string())]);
    assert_eq!(result, Err(ExecuteError("q".to_string())));
}

#[test]
fn missing_terminator_is_a_parse_error() {
    assert_eq!(run("zipette 5"), Err(ParseError::UnexpectedEndOfStatement));
}

#[test]
fn empty_program_is_valid() {
    let (output, result) = run("").unwrap();
    assert_eq!(output, Vec::<OutputLine>::new());
    assert!(result.is_ok());
}

#[test]
fn colored_print_carries_color() {
    let (output, result) = run("lsd red 3;").unwrap();
    assert!(result.is_ok());
    assert_eq!(output, vec![OutputLine::Colored(Colored::Red, "3".to_string())]);
}

#[test]
fn multicolor_names() {
    let (output, _) = run("lsd multi 2 + 2;").unwrap();
    assert_eq!(
        output,
        vec![OutputLine::Colored(Colored::MultiColor, "4".to_string())]
    );
    let (output, _) = run("lsd multicolor 1;").unwrap();
    assert_eq!(
        output,
        vec![OutputLine::Colored(Colored::MultiColor, "1".to_string())]
    );
}

#[test]
fn unrecognized_color_is_a_parse_error() {
    assert_eq!(
        run("lsd mauve 1;"),
        Err(ParseError::UnrecognisedColor("mauve".to_string()))
    );
}

#[test]
fn missing_assignment_target_is_a_parse_error() {
    assert_eq!(run("vicer 5;"), Err(ParseError::UnexpectedVariableName));
}

#[test]
fn unknown_leading_identifier_is_a_parse_error() {
    assert_eq!(
        run("foo 5;"),
        Err(ParseError::UnexpectedIdentifier("foo".to_string()))
    );
}

#[test]
fn missing_close_paren_is_a_recoverable_parse_error() {
    assert_eq!(run("zipette (1 + 2;"), Err(ParseError::ExpectedCloseParen));
}

#[test]
fn unexpected_primary_token_is_a_recoverable_parse_error() {
    assert_eq!(
        run("zipette + ;"),
        Err(ParseError::ExpectedNumber(Some(Token::Plus)))
    );
    assert_eq!(run("zipette ;"), Err(ParseError::ExpectedNumber(Some(Token::EndOfStatement))));
}

#[test]
fn rerunning_is_identical() {
    let src = "vicer a 2; zipette a ^ 10; lsd blue a; 1 + 1;";
    let first = run(src);
    let second = run(src);
    assert_eq!(first, second);
    let (output, result) = first.unwrap();
    assert!(result.is_ok());
    assert_eq!(
        output,
        vec![
            OutputLine::Plain("1024".to_string()),
            OutputLine::Colored(Colored::Blue, "2".to_string()),
        ]
    );
}

#[test]
fn environment_get_and_set() {
    let mut env = Environment::new();
    assert_eq!(env.get(&"x".to_string()), None);
    env.set("x".to_string(), 5.0f64.to_bits());
    env.set("y".to_string(), 6.0f64.to_bits());
    assert_eq!(env.get(&"x".to_string()), Some(5.0f64.to_bits()));
    env.set("x".to_string(), 7.0f64.to_bits());
    assert_eq!(env.get(&"x".to_string()), Some(7.0f64.to_bits()));
    assert_eq!(env.get(&"y".to_string()), Some(6.0f64.to_bits()));
}

#[test]
fn parse_expression_builds_the_tree() {
    let mut parser = Parser::new(scan("1 + 2 * 3"));
    let e = parser.parse_expression().unwrap();
    let env = Environment::new();
    assert_eq!(f64::from_bits(e.evaluate(&env, &f64_ops).unwrap()), 7.0);
}

#[test]
fn negative_literal_in_expression() {
    assert_eq!(eval_expr_str("-5 + 3;"), -2.0);
    assert_eq!(eval_expr_str("2 - -3;"), 5.0);
}

#[test]
fn fractional_arithmetic_prints_exactly() {
    let (output, result) = run("zipette 0.1 + 0.2;").unwrap();
    assert!(result.is_ok());
    let expected = format!("{}", 0.1f64 + 0.2f64);
    assert_eq!(output, vec![OutputLine::Plain(expected)]);
}

#[test]
fn bad_token_is_rejected_by_the_parser() {
    let mut parser = Parser::new(vec![
        Token::Bad(LexerError("9Q".to_string())),
        Token::EndOfStatement,
    ]);
    assert_eq!(
        parser.parse(),
        Err(ParseError::ExpectedNumber(Some(Token::Bad(LexerError(
            "9Q".to_string()
        )))))
    );
}

#[test]
fn expression_cut_off_at_end_of_input() {
    assert_eq!(run("zipette ("), Err(ParseError::ExpectedNumber(None)));
}

#[test]
fn unicode_whitespace_is_skipped() {
    let (output, result) = run("zipette\u{A0}\u{2003}1;").unwrap();
    assert!(result.is_ok());
    assert_eq!(output, vec![OutputLine::Plain("1".to_string())]);
}

#[test]
fn nested_parentheses() {
    assert_eq!(eval_expr_str("((2));"), 2.0);
    assert_eq!(eval_expr_str("(1 + (2 * (3 + 4)));"), 15.0);
}

#[test]
fn bare_variable_at_statement_start_is_rejected() {
    assert_eq!(
        run("vicer x 5; x;"),
        Err(ParseError::UnexpectedIdentifier("x".to_string()))
    );
}

#[test]
fn stray_character_after_expression_breaks_termination() {
    assert_eq!(run("zipette 1 @;"), Err(ParseError::UnexpectedEndOfStatement));
}

#[test]
fn expression_statement_runs_for_effect_only() {
    let (output, result) = run("1 + 2; zipette 9;").unwrap();
    assert!(result.is_ok());
    assert_eq!(output, vec![OutputLine::Plain("9".to_string())]);
}

#[test]
fn every_named_color_is_recognized() {
    let cases = vec![
        ("red", Colored::Red),
        ("blue", Colored::Blue),
        ("green", Colored::Green),
        ("yellow", Colored::Yellow),
        ("purple", Colored::Purple),
        ("cyan", Colored::Cyan),
        ("orange", Colored::Orange),
        ("white", Colored::White),
        ("brown", Colored::Brown),
        ("pink", Colored::Pink),
        ("multicolor", Colored::MultiColor),
        ("multi", Colored::MultiColor),
    ];
    for (name, color) in cases {
        let src = format!("lsd {} 7;", name);
        let (output, result) = run(&src).unwrap();
        assert!(result.is_ok());
        assert_eq!(output, vec![OutputLine::Colored(color, "7".to_string())]);
    }
}
