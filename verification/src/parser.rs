use vstd::prelude::*;

use crate::lexer::{Token, TokenModel, token_models};

verus! {

/// The binary operators of the expression grammar.
#[derive(Debug, Clone, Copy, PartialEq, Eq, Structural)]
pub enum BinaryExpressionType {
    Sum,
    Product,
    Division,
    Minus,
    Exponent,
    BytesLeft,
    BytesRight,
}

/// An expression tree: a numeric literal (as the bit pattern of its
/// value), a variable reference, or a binary operation on two owned
/// subtrees.
#[derive(Debug, PartialEq)]
pub enum Expression {
    Number(u64),
    Identifier(String),
    Binary { op: BinaryExpressionType, left: Box<Expression>, right: Box<Expression> },
}

/// The mathematical shape of an expression tree.
pub ghost enum ExpressionModel {
    Number(u64),
    Identifier(Seq<char>),
    Binary { op: BinaryExpressionType, left: Box<ExpressionModel>, right: Box<ExpressionModel> },
}

/// The model of an expression tree.
pub open spec fn expr_model(e: Expression) -> ExpressionModel
    decreases e,
{
    match e {
        Expression::Number(b) => ExpressionModel::Number(b),
        Expression::Identifier(s) => ExpressionModel::Identifier(s@),
        Expression::Binary { op, left, right } => ExpressionModel::Binary {
            op,
            left: Box::new(expr_model(*left)),
            right: Box::new(expr_model(*right)),
        },
    }
}

impl View for Expression {
    type V = ExpressionModel;

    open spec fn view(&self) -> ExpressionModel {
        expr_model(*self)
    }
}

/// The colors a `PrintColored` statement can name, and the multicolor
/// mode that colors every character independently.
#[derive(Debug, Clone, Copy, PartialEq, Eq, Structural)]
pub enum Colored {
    Red,
    Blue,
    Green,
    Yellow,
    Purple,
    Cyan,
    Orange,
    White,
    Brown,
    Pink,
    MultiColor,
}

/// One top-level instruction: a bare expression, a print, a colored
/// print, or an assignment.
#[derive(Debug, PartialEq)]
pub enum Statement {
    Expression(Expression),
    Print(Expression),
    PrintColored(Colored, Expression),
    Assignment(String, Expression),
}

/// The mathematical shape of a statement.
pub ghost enum StatementModel {
    Expression(ExpressionModel),
    Print(ExpressionModel),
    PrintColored(Colored, ExpressionModel),
    Assignment(Seq<char>, ExpressionModel),
}

impl View for Statement {
    type V = StatementModel;

    open spec fn view(&self) -> StatementModel {
        match self {
            Statement::Expression(e) => StatementModel::Expression(e@),
            Statement::Print(e) => StatementModel::Print(e@),
            Statement::PrintColored(c, e) => StatementModel::PrintColored(*c, e@),
            Statement::Assignment(n, e) => StatementModel::Assignment(n@, e@),
        }
    }
}

/// The statement models of a program.
pub open spec fn statement_models(ss: Seq<Statement>) -> Seq<StatementModel> {
    ss.map_values(|s: Statement| s@)
}

/// A parse failure.  Every failure is recoverable: the parser reports it
/// as a result and never aborts the process.
#[derive(Debug, PartialEq)]
pub enum ParseError {
    /// A colored-print statement named a color outside the recognized set.
    UnrecognisedColor(String),
    /// A statement is not followed by its mandatory `;` terminator, or a
    /// colored-print statement breaks off before its color name.
    UnexpectedEndOfStatement,
    /// An assignment keyword is not followed by a variable name.
    UnexpectedVariableName,
    /// A statement starts with an identifier that is no keyword.
    UnexpectedIdentifier(String),
    /// A parenthesized expression is not closed by `)`.
    ExpectedCloseParen,
    /// An expression needs a primary value here, but another token (or
    /// the end of the input) was found; the offending token is carried.
    ExpectedNumber(Option<Token>),
}

/// The mathematical shape of a parse failure.
pub ghost enum ParseErrorModel {
    UnrecognisedColor(Seq<char>),
    UnexpectedEndOfStatement,
    UnexpectedVariableName,
    UnexpectedIdentifier(Seq<char>),
    ExpectedCloseParen,
    ExpectedNumber(Option<TokenModel>),
}

impl View for ParseError {
    type V = ParseErrorModel;

    open spec fn view(&self) -> ParseErrorModel {
        match self {
            ParseError::UnrecognisedColor(s) => ParseErrorModel::UnrecognisedColor(s@),
            ParseError::UnexpectedEndOfStatement => ParseErrorModel::UnexpectedEndOfStatement,
            ParseError::UnexpectedVariableName => ParseErrorModel::UnexpectedVariableName,
            ParseError::UnexpectedIdentifier(s) => ParseErrorModel::UnexpectedIdentifier(s@),
            ParseError::ExpectedCloseParen => ParseErrorModel::ExpectedCloseParen,
            ParseError::ExpectedNumber(t) => ParseErrorModel::ExpectedNumber(
                match t {
                    Some(tok) => Some(tok@),
                    None => None,
                },
            ),
        }
    }
}

/// The keyword that begins a print statement.
pub open spec fn kw_print() -> Seq<char> {
    "zipette"@
}

/// The keyword that begins a colored-print statement.
pub open spec fn kw_print_colored() -> Seq<char> {
    "lsd"@
}

/// The keyword that begins an assignment statement.
pub open spec fn kw_assign() -> Seq<char> {
    "vicer"@
}

/// The color that a name denotes, if it is in the recognized set.
pub open spec fn color_of(name: Seq<char>) -> Option<Colored> {
    if name == "red"@ {
        Some(Colored::Red)
    } else if name == "blue"@ {
        Some(Colored::Blue)
    } else if name == "green"@ {
        Some(Colored::Green)
    } else if name == "yellow"@ {
        Some(Colored::Yellow)
    } else if name == "purple"@ {
        Some(Colored::Purple)
    } else if name == "cyan"@ {
        Some(Colored::Cyan)
    } else if name == "orange"@ {
        Some(Colored::Orange)
    } else if name == "white"@ {
        Some(Colored::White)
    } else if name == "brown"@ {
        Some(Colored::Brown)
    } else if name == "pink"@ {
        Some(Colored::Pink)
    } else if name == "multicolor"@ || name == "multi"@ {
        Some(Colored::MultiColor)
    } else {
        None
    }
}

/// The primary level of the grammar: a number, a variable reference, or
/// a parenthesized expression.
pub open spec fn spec_literal(ts: Seq<TokenModel>, i: int) -> Result<
    (ExpressionModel, int),
    ParseErrorModel,
>
    decreases ts.len() - i, 0int,
{
    if i < 0 || i >= ts.len() {
        Err(ParseErrorModel::ExpectedNumber(None))
    } else {
        match ts[i] {
            TokenModel::Number(b) => Ok((ExpressionModel::Number(b), i + 1)),
            TokenModel::Identifier(id) => Ok((ExpressionModel::Identifier(id), i + 1)),
            TokenModel::OpenParen => match spec_term(ts, i + 1) {
                Ok((e, j)) => if j < ts.len() && ts[j] is CloseParen {
                    Ok((e, j + 1))
                } else {
                    Err(ParseErrorModel::ExpectedCloseParen)
                },
                Err(e) => Err(e),
            },
            t => Err(ParseErrorModel::ExpectedNumber(Some(t))),
        }
    }
}

/// The exponent level: a primary, optionally raised to a whole exponent
/// expression, so `^` associates to the right.
pub open spec fn spec_exponent(ts: Seq<TokenModel>, i: int) -> Result<
    (ExpressionModel, int),
    ParseErrorModel,
>
    decreases ts.len() - i, 1int,
{
    match spec_literal(ts, i) {
        Err(e) => Err(e),
        Ok((e, j)) => if j < ts.len() && ts[j] is Exponent && j >= i {
            match spec_exponent(ts, j + 1) {
                Err(e2) => Err(e2),
                Ok((r, k)) => Ok(
                    (
                        ExpressionModel::Binary {
                            op: BinaryExpressionType::Exponent,
                            left: Box::new(e),
                            right: Box::new(r),
                        },
                        k,
                    ),
                ),
            }
        } else {
            Ok((e, j))
        },
    }
}

/// The tail of a factor chain: `acc` extended by every further
/// `* / << >>` step, left-associatively.
pub open spec fn spec_factor_tail(ts: Seq<TokenModel>, acc: ExpressionModel, j: int) -> Result<
    (ExpressionModel, int),
    ParseErrorModel,
>
    decreases ts.len() - j, 3int,
{
    if j < ts.len() && (ts[j] is Product || ts[j] is Division || ts[j] is BytesLeft
        || ts[j] is BytesRight) {
        let op = if ts[j] is Product {
            BinaryExpressionType::Product
        } else if ts[j] is Division {
            BinaryExpressionType::Division
        } else if ts[j] is BytesLeft {
            BinaryExpressionType::BytesLeft
        } else {
            BinaryExpressionType::BytesRight
        };
        match spec_exponent(ts, j + 1) {
            Err(e) => Err(e),
            Ok((e2, k)) => {
                let acc2 = ExpressionModel::Binary {
                    op,
                    left: Box::new(acc),
                    right: Box::new(e2),
                };
                if j < k <= ts.len() {
                    spec_factor_tail(ts, acc2, k)
                } else {
                    Ok((acc2, k))
                }
            },
        }
    } else {
        Ok((acc, j))
    }
}

/// The factor level: exponent expressions joined left-associatively by
/// `*`, `/`, `<<` and `>>`, all of one precedence.
pub open spec fn spec_factor(ts: Seq<TokenModel>, i: int) -> Result<
    (ExpressionModel, int),
    ParseErrorModel,
>
    decreases ts.len() - i, 2int,
{
    match spec_exponent(ts, i) {
        Err(e) => Err(e),
        Ok((e, j)) => if i < j <= ts.len() {
            spec_factor_tail(ts, e, j)
        } else {
            Ok((e, j))
        },
    }
}

/// The tail of a term chain: `acc` extended by every further `+ -` step,
/// left-associatively.
pub open spec fn spec_term_tail(ts: Seq<TokenModel>, acc: ExpressionModel, j: int) -> Result<
    (ExpressionModel, int),
    ParseErrorModel,
>
    decreases ts.len() - j, 5int,
{
    if j < ts.len() && (ts[j] is Plus || ts[j] is Minus) {
        let op = if ts[j] is Plus {
            BinaryExpressionType::Sum
        } else {
            BinaryExpressionType::Minus
        };
        match spec_factor(ts, j + 1) {
            Err(e) => Err(e),
            Ok((e2, k)) => {
                let acc2 = ExpressionModel::Binary {
                    op,
                    left: Box::new(acc),
                    right: Box::new(e2),
                };
                if j < k <= ts.len() {
                    spec_term_tail(ts, acc2, k)
                } else {
                    Ok((acc2, k))
                }
            },
        }
    } else {
        Ok((acc, j))
    }
}

/// The term level, the whole expression grammar: factors joined
/// left-associatively by `+` and `-`.
pub open spec fn spec_term(ts: Seq<TokenModel>, i: int) -> Result<
    (ExpressionModel, int),
    ParseErrorModel,
>
    decreases ts.len() - i, 4int,
{
    match spec_factor(ts, i) {
        Err(e) => Err(e),
        Ok((e, j)) => if i < j <= ts.len() {
            spec_term_tail(ts, e, j)
        } else {
            Ok((e, j))
        },
    }
}

/// One statement, starting at `i`: a keyword statement or a bare
/// expression.  The terminator that must follow is handled by
/// `spec_program`.
pub open spec fn spec_statement(ts: Seq<TokenModel>, i: int) -> Result<
    (StatementModel, int),
    ParseErrorModel,
>
    decreases ts.len() - i, 6int,
{
    if i < 0 || i >= ts.len() {
        Err(ParseErrorModel::ExpectedNumber(None))
    } else {
        match ts[i] {
            TokenModel::Identifier(name) => {
                if name == kw_print() {
                    match spec_term(ts, i + 1) {
                        Ok((e, j)) => Ok((StatementModel::Print(e), j)),
                        Err(e) => Err(e),
                    }
                } else if name == kw_print_colored() {
                    if i + 1 < ts.len() {
                        match ts[i + 1] {
                            TokenModel::Identifier(cname) => match color_of(cname) {
                                Some(col) => match spec_term(ts, i + 2) {
                                    Ok((e, j)) => Ok((StatementModel::PrintColored(col, e), j)),
                                    Err(e) => Err(e),
                                },
                                None => Err(ParseErrorModel::UnrecognisedColor(cname)),
                            },
                            _ => Err(ParseErrorModel::UnexpectedEndOfStatement),
                        }
                    } else {
                        Err(ParseErrorModel::UnexpectedEndOfStatement)
                    }
                } else if name == kw_assign() {
                    if i + 1 < ts.len() {
                        match ts[i + 1] {
                            TokenModel::Identifier(vname) => match spec_term(ts, i + 2) {
                                Ok((e, j)) => Ok((StatementModel::Assignment(vname, e), j)),
                                Err(e) => Err(e),
                            },
                            _ => Err(ParseErrorModel::UnexpectedVariableName),
                        }
                    } else {
                        Err(ParseErrorModel::UnexpectedVariableName)
                    }
                } else {
                    Err(ParseErrorModel::UnexpectedIdentifier(name))
                }
            },
            _ => match spec_term(ts, i) {
                Ok((e, j)) => Ok((StatementModel::Expression(e), j)),
                Err(e) => Err(e),
            },
        }
    }
}

/// The whole program from `i` on: statements, each followed by the
/// mandatory `;` terminator, until the tokens are exhausted.
pub open spec fn spec_program(ts: Seq<TokenModel>, i: int) -> Result<
    Seq<StatementModel>,
    ParseErrorModel,
>
    decreases ts.len() - i, 7int,
{
    if i >= ts.len() {
        Ok(Seq::empty())
    } else {
        match spec_statement(ts, i) {
            Err(e) => Err(e),
            Ok((st, j)) => if j < ts.len() && ts[j] is EndOfStatement {
                if j + 1 > i {
                    match spec_program(ts, j + 1) {
                        Ok(rest) => Ok(seq![st] + rest),
                        Err(e) => Err(e),
                    }
                } else {
                    Err(ParseErrorModel::UnexpectedEndOfStatement)
                }
            } else {
                Err(ParseErrorModel::UnexpectedEndOfStatement)
            },
        }
    }
}

/// A successful primary consumes at least one token and stays in bounds.
proof fn lemma_literal_progress(ts: Seq<TokenModel>, i: int)
    ensures
        spec_literal(ts, i) matches Ok((e, j)) ==> i + 1 <= j <= ts.len(),
    decreases ts.len() - i, 0int,
{
    if 0 <= i < ts.len() {
        if ts[i] is OpenParen {
            lemma_term_progress(ts, i + 1);
        }
    }
}

/// A successful exponent expression consumes at least one token.
proof fn lemma_exponent_progress(ts: Seq<TokenModel>, i: int)
    ensures
        spec_exponent(ts, i) matches Ok((e, j)) ==> i + 1 <= j <= ts.len(),
    decreases ts.len() - i, 1int,
{
    lemma_literal_progress(ts, i);
    match spec_literal(ts, i) {
        Ok((e, j)) => {
            if j < ts.len() && ts[j] is Exponent && j >= i {
                lemma_exponent_progress(ts, j + 1);
            }
        },
        Err(_) => {},
    }
}

/// A factor tail never moves backwards and stays in bounds.
proof fn lemma_factor_tail_progress(ts: Seq<TokenModel>, acc: ExpressionModel, j: int)
    requires
        j <= ts.len(),
    ensures
        spec_factor_tail(ts, acc, j) matches Ok((e, k)) ==> j <= k <= ts.len(),
    decreases ts.len() - j, 3int,
{
    if j < ts.len() && (ts[j] is Product || ts[j] is Division || ts[j] is BytesLeft
        || ts[j] is BytesRight) {
        lemma_exponent_progress(ts, j + 1);
        let op = if ts[j] is Product {
            BinaryExpressionType::Product
        } else if ts[j] is Division {
            BinaryExpressionType::Division
        } else if ts[j] is BytesLeft {
            BinaryExpressionType::BytesLeft
        } else {
            BinaryExpressionType::BytesRight
        };
        match spec_exponent(ts, j + 1) {
            Ok((e2, k)) => {
                let acc2 = ExpressionModel::Binary { op, left: Box::new(acc), right: Box::new(e2) };
                if k > j {
                    lemma_factor_tail_progress(ts, acc2, k);
                }
            },
            Err(_) => {},
        }
    }
}

/// A successful factor consumes at least one token.
proof fn lemma_factor_progress(ts: Seq<TokenModel>, i: int)
    ensures
        spec_factor(ts, i) matches Ok((e, j)) ==> i + 1 <= j <= ts.len(),
    decreases ts.len() - i, 2int,
{
    lemma_exponent_progress(ts, i);
    match spec_exponent(ts, i) {
        Ok((e, j)) => {
            if j > i {
                lemma_factor_tail_progress(ts, e, j);
            }
        },
        Err(_) => {},
    }
}

/// A term tail never moves backwards and stays in bounds.
proof fn lemma_term_tail_progress(ts: Seq<TokenModel>, acc: ExpressionModel, j: int)
    requires
        j <= ts.len(),
    ensures
        spec_term_tail(ts, acc, j) matches Ok((e, k)) ==> j <= k <= ts.len(),
    decreases ts.len() - j, 5int,
{
    if j < ts.len() && (ts[j] is Plus || ts[j] is Minus) {
        lemma_factor_progress(ts, j + 1);
        let op = if ts[j] is Plus {
            BinaryExpressionType::Sum
        } else {
            BinaryExpressionType::Minus
        };
        match spec_factor(ts, j + 1) {
            Ok((e2, k)) => {
                let acc2 = ExpressionModel::Binary { op, left: Box::new(acc), right: Box::new(e2) };
                if k > j {
                    lemma_term_tail_progress(ts, acc2, k);
                }
            },
            Err(_) => {},
        }
    }
}

/// A successful expression consumes at least one token.
proof fn lemma_term_progress(ts: Seq<TokenModel>, i: int)
    ensures
        spec_term(ts, i) matches Ok((e, j)) ==> i + 1 <= j <= ts.len(),
    decreases ts.len() - i, 4int,
{
    lemma_factor_progress(ts, i);
    match spec_factor(ts, i) {
        Ok((e, j)) => {
            if j > i {
                lemma_term_tail_progress(ts, e, j);
            }
        },
        Err(_) => {},
    }
}

/// A successful statement consumes at least one token.
proof fn lemma_statement_progress(ts: Seq<TokenModel>, i: int)
    ensures
        spec_statement(ts, i) matches Ok((st, j)) ==> i + 1 <= j <= ts.len(),
{
    if 0 <= i < ts.len() {
        lemma_term_progress(ts, i);
        lemma_term_progress(ts, i + 1);
        lemma_term_progress(ts, i + 2);
    }
}

/// A copy of a token with the same model.
fn clone_token(t: &Token) -> (r: Token)
    ensures
        r@ == t@,
{
    match t {
        Token::Number(b) => Token::Number(*b),
        Token::EndOfStatement => Token::EndOfStatement,
        Token::Identifier(s) => Token::Identifier(s.clone()),
        Token::Minus => Token::Minus,
        Token::Plus => Token::Plus,
        Token::Product => Token::Product,
        Token::Division => Token::Division,
        Token::Exponent => Token::Exponent,
        Token::OpenParen => Token::OpenParen,
        Token::CloseParen => Token::CloseParen,
        Token::Useless(c) => Token::Useless(*c),
        Token::Bad(e) => Token::Bad(crate::lexer::LexerError(e.0.clone())),
        Token::BytesLeft => Token::BytesLeft,
        Token::BytesRight => Token::BytesRight,
    }
}

/// Whether the string equals the given literal text.
fn string_is(s: &String, lit: &str) -> (r: bool)
    ensures
        r == (s@ == lit@),
{
    let o: String = lit.to_owned();
    s.eq(&o)
}

/// The recursive-descent parser: it walks the scanned token list once,
/// front to back, with the token under `pos` as its one token of
/// lookahead.
pub struct Parser {
    tokens: Vec<Token>,
    pos: usize,
}

impl Parser {
    /// The models of the tokens being parsed.
    pub closed spec fn toks(&self) -> Seq<TokenModel> {
        token_models(self.tokens@)
    }

    /// The position of the current token.
    pub closed spec fn pos(&self) -> int {
        self.pos as int
    }

    /// The position never leaves the token list.
    pub closed spec fn wf(&self) -> bool {
        self.pos <= self.tokens@.len()
    }

    pub fn new(tokens: Vec<Token>) -> (r: Parser)
        ensures
            r.wf(),
            r.toks() == token_models(tokens@),
            r.pos() == 0,
    {
        proof {
            assert(token_models(tokens@).len() == tokens@.len());
        }
        Parser { tokens, pos: 0 }
    }

    /// Discard the current token and move to the next one.
    fn consume(&mut self)
        requires
            old(self).wf(),
            old(self).pos() < old(self).toks().len(),
        ensures
            final(self).wf(),
            final(self).toks() == old(self).toks(),
            final(self).pos() == old(self).pos() + 1,
    {
        proof {
            assert(self.toks().len() == self.tokens@.len());
        }
        let n = self.tokens.len();
        if self.pos < n {
            self.pos = self.pos + 1;
        }
    }

    /// The primary level: a number, a variable reference, or a
    /// parenthesized expression.
    fn parse_literal(&mut self) -> (r: Result<Expression, ParseError>)
        requires
            old(self).wf(),
        ensures
            final(self).wf(),
            final(self).toks() == old(self).toks(),
            match spec_literal(old(self).toks(), old(self).pos()) {
                Ok((em, j)) => r matches Ok(e) && e@ == em && final(self).pos() == j,
                Err(em) => r matches Err(pe) && pe@ == em,
            },
        decreases self.toks().len() - self.pos(), 0int,
    {
        let ghost ts = self.toks();
        let ghost i = self.pos();
        proof {
            assert(ts.len() == self.tokens@.len());
        }
        if self.pos >= self.tokens.len() {
            return Err(ParseError::ExpectedNumber(None));
        }
        proof {
            assert(ts[i] == self.tokens@[i]@);
        }
        match &self.tokens[self.pos] {
            Token::Number(b) => {
                let v = *b;
                self.consume();
                Ok(Expression::Number(v))
            },
            Token::Identifier(id) => {
                let name = id.clone();
                self.consume();
                Ok(Expression::Identifier(name))
            },
            Token::OpenParen => {
                self.consume();
                let e = match self.term_expression() {
                    Ok(e) => e,
                    Err(p) => {
                        return Err(p);
                    },
                };
                proof {
                    lemma_term_progress(ts, i + 1);
                    assert(self.toks().len() == self.tokens@.len());
                }
                if self.pos < self.tokens.len() {
                    proof {
                        assert(ts[self.pos()] == self.tokens@[self.pos()]@);
                    }
                    match &self.tokens[self.pos] {
                        Token::CloseParen => {
                            self.consume();
                            Ok(e)
                        },
                        _ => Err(ParseError::ExpectedCloseParen),
                    }
                } else {
                    Err(ParseError::ExpectedCloseParen)
                }
            },
            t => Err(ParseError::ExpectedNumber(Some(clone_token(t)))),
        }
    }

    /// The exponent level: right-associative `^` (or `**`).
    fn exponent_expression(&mut self) -> (r: Result<Expression, ParseError>)
        requires
            old(self).wf(),
        ensures
            final(self).wf(),
            final(self).toks() == old(self).toks(),
            match spec_exponent(old(self).toks(), old(self).pos()) {
                Ok((em, j)) => r matches Ok(e) && e@ == em && final(self).pos() == j,
                Err(em) => r matches Err(pe) && pe@ == em,
            },
        decreases self.toks().len() - self.pos(), 1int,
    {
        let ghost ts = self.toks();
        let ghost i = self.pos();
        let left = match self.parse_literal() {
            Ok(e) => e,
            Err(p) => {
                return Err(p);
            },
        };
        proof {
            lemma_literal_progress(ts, i);
            assert(ts.len() == self.tokens@.len());
        }
        let again = if self.pos < self.tokens.len() {
            proof {
                assert(ts[self.pos()] == self.tokens@[self.pos()]@);
            }
            match &self.tokens[self.pos] {
                Token::Exponent => true,
                _ => false,
            }
        } else {
            false
        };
        if again {
            self.consume();
            let right = match self.exponent_expression() {
                Ok(e) => e,
                Err(p) => {
                    return Err(p);
                },
            };
            Ok(
                Expression::Binary {
                    op: BinaryExpressionType::Exponent,
                    left: Box::new(left),
                    right: Box::new(right),
                },
            )
        } else {
            Ok(left)
        }
    }

    /// The factor level: left-associative `*`, `/`, `<<`, `>>`.
    fn factor_expression(&mut self) -> (r: Result<Expression, ParseError>)
        requires
            old(self).wf(),
        ensures
            final(self).wf(),
            final(self).toks() == old(self).toks(),
            match spec_factor(old(self).toks(), old(self).pos()) {
                Ok((em, j)) => r matches Ok(e) && e@ == em && final(self).pos() == j,
                Err(em) => r matches Err(pe) && pe@ == em,
            },
        decreases self.toks().len() - self.pos(), 2int,
    {
        let ghost ts = self.toks();
        let ghost i = self.pos();
        let mut left = match self.exponent_expression() {
            Ok(e) => e,
            Err(p) => {
                return Err(p);
            },
        };
        proof {
            lemma_exponent_progress(ts, i);
            assert(ts.len() == self.tokens@.len());
        }
        loop
            invariant
                self.wf(),
                ts == old(self).toks(),
                i == old(self).pos(),
                self.toks() == ts,
                ts.len() == self.tokens@.len(),
                i < self.pos() <= ts.len(),
                spec_factor(ts, i) == spec_factor_tail(ts, left@, self.pos()),
            decreases self.toks().len() - self.pos(),
        {
            let ghost j = self.pos();
            if self.pos >= self.tokens.len() {
                return Ok(left);
            }
            proof {
                assert(ts[j] == self.tokens@[j]@);
            }
            let op = match &self.tokens[self.pos] {
                Token::Product => BinaryExpressionType::Product,
                Token::Division => BinaryExpressionType::Division,
                Token::BytesLeft => BinaryExpressionType::BytesLeft,
                Token::BytesRight => BinaryExpressionType::BytesRight,
                _ => {
                    return Ok(left);
                },
            };
            self.consume();
            let right = match self.exponent_expression() {
                Ok(e) => e,
                Err(p) => {
                    return Err(p);
                },
            };
            proof {
                lemma_exponent_progress(ts, j + 1);
            }
            left = Expression::Binary { op, left: Box::new(left), right: Box::new(right) };
        }
    }

    /// The term level, the whole expression grammar: left-associative
    /// `+` and `-` over factors.
    fn term_expression(&mut self) -> (r: Result<Expression, ParseError>)
        requires
            old(self).wf(),
        ensures
            final(self).wf(),
            final(self).toks() == old(self).toks(),
            match spec_term(old(self).toks(), old(self).pos()) {
                Ok((em, j)) => r matches Ok(e) && e@ == em && final(self).pos() == j,
                Err(em) => r matches Err(pe) && pe@ == em,
            },
        decreases self.toks().len() - self.pos(), 4int,
    {
        let ghost ts = self.toks();
        let ghost i = self.pos();
        let mut left = match self.factor_expression() {
            Ok(e) => e,
            Err(p) => {
                return Err(p);
            },
        };
        proof {
            lemma_factor_progress(ts, i);
            assert(ts.len() == self.tokens@.len());
        }
        loop
            invariant
                self.wf(),
                ts == old(self).toks(),
                i == old(self).pos(),
                self.toks() == ts,
                ts.len() == self.tokens@.len(),
                i < self.pos() <= ts.len(),
                spec_term(ts, i) == spec_term_tail(ts, left@, self.pos()),
            decreases self.toks().len() - self.pos(),
        {
            let ghost j = self.pos();
            if self.pos >= self.tokens.len() {
                return Ok(left);
            }
            proof {
                assert(ts[j] == self.tokens@[j]@);
            }
            let op = match &self.tokens[self.pos] {
                Token::Plus => BinaryExpressionType::Sum,
                Token::Minus => BinaryExpressionType::Minus,
                _ => {
                    return Ok(left);
                },
            };
            self.consume();
            let right = match self.factor_expression() {
                Ok(e) => e,
                Err(p) => {
                    return Err(p);
                },
            };
            proof {
                lemma_factor_progress(ts, j + 1);
            }
            left = Expression::Binary { op, left: Box::new(left), right: Box::new(right) };
        }
    }

    /// Parse one whole expression starting at the current token.
    pub fn parse_expression(&mut self) -> (r: Result<Expression, ParseError>)
        requires
            old(self).wf(),
        ensures
            final(self).wf(),
            final(self).toks() == old(self).toks(),
            match spec_term(old(self).toks(), old(self).pos()) {
                Ok((em, j)) => r matches Ok(e) && e@ == em && final(self).pos() == j,
                Err(em) => r matches Err(pe) && pe@ == em,
            },
    {
        self.term_expression()
    }

    /// One statement starting at the current token: a keyword statement
    /// or a bare expression.
    fn statement(&mut self) -> (r: Result<Statement, ParseError>)
        requires
            old(self).wf(),
            old(self).pos() < old(self).toks().len(),
        ensures
            final(self).wf(),
            final(self).toks() == old(self).toks(),
            match spec_statement(old(self).toks(), old(self).pos()) {
                Ok((sm, j)) => r matches Ok(st) && st@ == sm && final(self).pos() == j,
                Err(em) => r matches Err(pe) && pe@ == em,
            },
    {
        let ghost ts = self.toks();
        let ghost i = self.pos();
        proof {
            assert(ts.len() == self.tokens@.len());
            assert(ts[i] == self.tokens@[i]@);
        }
        let is_ident = match &self.tokens[self.pos] {
            Token::Identifier(_) => true,
            _ => false,
        };
        if !is_ident {
            let e = match self.term_expression() {
                Ok(e) => e,
                Err(p) => {
                    return Err(p);
                },
            };
            return Ok(Statement::Expression(e));
        }
        let name = match &self.tokens[self.pos] {
            Token::Identifier(id) => id.clone(),
            _ => {
                return Err(ParseError::UnexpectedEndOfStatement);
            },
        };
        if string_is(&name, "zipette") {
            self.consume();
            let e = match self.term_expression() {
                Ok(e) => e,
                Err(p) => {
                    return Err(p);
                },
            };
            Ok(Statement::Print(e))
        } else if string_is(&name, "lsd") {
            if self.pos >= self.tokens.len() - 1 {
                return Err(ParseError::UnexpectedEndOfStatement);
            }
            proof {
                assert(ts[i + 1] == self.tokens@[i + 1]@);
            }
            let cname = match &self.tokens[self.pos + 1] {
                Token::Identifier(id) => id.clone(),
                _ => {
                    return Err(ParseError::UnexpectedEndOfStatement);
                },
            };
            let col = if string_is(&cname, "red") {
                Colored::Red
            } else if string_is(&cname, "blue") {
                Colored::Blue
            } else if string_is(&cname, "green") {
                Colored::Green
            } else if string_is(&cname, "yellow") {
                Colored::Yellow
            } else if string_is(&cname, "purple") {
                Colored::Purple
            } else if string_is(&cname, "cyan") {
                Colored::Cyan
            } else if string_is(&cname, "orange") {
                Colored::Orange
            } else if string_is(&cname, "white") {
                Colored::White
            } else if string_is(&cname, "brown") {
                Colored::Brown
            } else if string_is(&cname, "pink") {
                Colored::Pink
            } else if string_is(&cname, "multicolor") || string_is(&cname, "multi") {
                Colored::MultiColor
            } else {
                return Err(ParseError::UnrecognisedColor(cname));
            };
            self.consume();
            self.consume();
            let e = match self.term_expression() {
                Ok(e) => e,
                Err(p) => {
                    return Err(p);
                },
            };
            Ok(Statement::PrintColored(col, e))
        } else if string_is(&name, "vicer") {
            if self.pos >= self.tokens.len() - 1 {
                return Err(ParseError::UnexpectedVariableName);
            }
            proof {
                assert(ts[i + 1] == self.tokens@[i + 1]@);
            }
            let vname = match &self.tokens[self.pos + 1] {
                Token::Identifier(id) => id.clone(),
                _ => {
                    return Err(ParseError::UnexpectedVariableName);
                },
            };
            self.consume();
            self.consume();
            let e = match self.term_expression() {
                Ok(e) => e,
                Err(p) => {
                    return Err(p);
                },
            };
            Ok(Statement::Assignment(vname, e))
        } else {
            Err(ParseError::UnexpectedIdentifier(name))
        }
    }

    /// Parse the whole token list into a program: a statement list, each
    /// statement followed by its mandatory `;`.  An empty token list is
    /// the empty program.  Every failure is reported as a result.
    pub fn parse(&mut self) -> (r: Result<Vec<Statement>, ParseError>)
        requires
            old(self).wf(),
        ensures
            final(self).wf(),
            final(self).toks() == old(self).toks(),
            match spec_program(old(self).toks(), old(self).pos()) {
                Ok(sms) => r matches Ok(ss) && statement_models(ss@) == sms,
                Err(em) => r matches Err(pe) && pe@ == em,
            },
    {
        let ghost ts = self.toks();
        let ghost i0 = self.pos();
        let mut statements: Vec<Statement> = Vec::new();
        proof {
            assert(ts.len() == self.tokens@.len());
        }
        loop
            invariant
                self.wf(),
                ts == old(self).toks(),
                i0 == old(self).pos(),
                self.toks() == ts,
                ts.len() == self.tokens@.len(),
                i0 <= self.pos() <= ts.len(),
                match spec_program(ts, self.pos()) {
                    Ok(rest) => spec_program(ts, i0) == Ok::<_, ParseErrorModel>(
                        statement_models(statements@) + rest,
                    ),
                    Err(em) => spec_program(ts, i0) == Err::<Seq<StatementModel>, _>(em),
                },
            decreases self.toks().len() - self.pos(),
        {
            let ghost p = self.pos();
            if self.pos >= self.tokens.len() {
                proof {
                    assert(statement_models(statements@) + Seq::<StatementModel>::empty()
                        =~= statement_models(statements@));
                }
                return Ok(statements);
            }
            let st = match self.statement() {
                Ok(st) => st,
                Err(p) => {
                    return Err(p);
                },
            };
            proof {
                lemma_statement_progress(ts, p);
            }
            let terminated = if self.pos < self.tokens.len() {
                proof {
                    assert(ts[self.pos()] == self.tokens@[self.pos()]@);
                }
                match &self.tokens[self.pos] {
                    Token::EndOfStatement => true,
                    _ => false,
                }
            } else {
                false
            };
            if !terminated {
                return Err(ParseError::UnexpectedEndOfStatement);
            }
            self.consume();
            let ghost prev = statements@;
            let ghost stm = st@;
            statements.push(st);
            proof {
                assert(statement_models(statements@) =~= statement_models(prev) + seq![stm]);
                match spec_program(ts, self.pos()) {
                    Ok(rest) => {
                        assert(spec_program(ts, p) == Ok::<_, ParseErrorModel>(
                            seq![stm] + rest,
                        ));
                        assert(statement_models(prev) + (seq![stm] + rest) =~= statement_models(
                            statements@,
                        ) + rest);
                    },
                    Err(em) => {},
                }
            }
        }
    }
}

} // verus!
