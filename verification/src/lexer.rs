use vstd::prelude::*;

use crate::ops::{NumOp, NumReply, NumSem, ops_callable, ops_consistent, reply_matches};

verus! {

/// A scan error: the accumulated literal text could not be parsed as a
/// number.  The field holds the offending text.  The accumulation rule
/// only ever builds parseable texts, so this is a defensive marker; the
/// parser rejects any stream that contains one.
#[derive(Debug, PartialEq)]
pub struct LexerError(pub String);

/// The smallest lexical unit: a number, an operator, a punctuation mark,
/// an identifier, or an error marker.  Numbers are carried as the bit
/// pattern of the 64-bit floating-point value that the caller's `Parse`
/// operation produced for the literal's text.
#[derive(Debug, PartialEq)]
pub enum Token {
    Number(u64),
    EndOfStatement,
    Identifier(String),
    Minus,
    Plus,
    Product,
    Division,
    Exponent,
    OpenParen,
    CloseParen,
    Useless(char),
    Bad(LexerError),
    BytesLeft,
    BytesRight,
}

/// The mathematical shape of a token: as `Token`, with every text as a
/// sequence of characters.
pub ghost enum TokenModel {
    Number(u64),
    EndOfStatement,
    Identifier(Seq<char>),
    Minus,
    Plus,
    Product,
    Division,
    Exponent,
    OpenParen,
    CloseParen,
    Useless(char),
    Bad(Seq<char>),
    BytesLeft,
    BytesRight,
}

impl View for Token {
    type V = TokenModel;

    open spec fn view(&self) -> TokenModel {
        match self {
            Token::Number(b) => TokenModel::Number(*b),
            Token::EndOfStatement => TokenModel::EndOfStatement,
            Token::Identifier(s) => TokenModel::Identifier(s@),
            Token::Minus => TokenModel::Minus,
            Token::Plus => TokenModel::Plus,
            Token::Product => TokenModel::Product,
            Token::Division => TokenModel::Division,
            Token::Exponent => TokenModel::Exponent,
            Token::OpenParen => TokenModel::OpenParen,
            Token::CloseParen => TokenModel::CloseParen,
            Token::Useless(c) => TokenModel::Useless(*c),
            Token::Bad(e) => TokenModel::Bad(e.0@),
            Token::BytesLeft => TokenModel::BytesLeft,
            Token::BytesRight => TokenModel::BytesRight,
        }
    }
}

/// The token models of a token list.
pub open spec fn token_models(ts: Seq<Token>) -> Seq<TokenModel> {
    ts.map_values(|t: Token| t@)
}

/// A source position that a richer diagnostic layer could attach to each
/// token.
#[derive(Debug)]
pub struct Location {
    line: usize,
    start_column: usize,
    end_column: usize,
}

/// A token together with its source position.
#[derive(Debug)]
pub struct LocalizedToken {
    pub token: Token,
    pub loc: Location,
}

/// The Unicode white-space characters, the set that the scanner skips
/// between tokens.
pub open spec fn is_space_char(c: char) -> bool {
    ||| c == ' '
    ||| c == '\t'
    ||| c == '\n'
    ||| c == '\u{0B}'
    ||| c == '\u{0C}'
    ||| c == '\r'
    ||| c == '\u{85}'
    ||| c == '\u{A0}'
    ||| c == '\u{1680}'
    ||| ('\u{2000}' as u32) <= (c as u32) && (c as u32) <= ('\u{200A}' as u32)
    ||| c == '\u{2028}'
    ||| c == '\u{2029}'
    ||| c == '\u{202F}'
    ||| c == '\u{205F}'
    ||| c == '\u{3000}'
}

/// An ASCII decimal digit.
pub open spec fn is_digit_char(c: char) -> bool {
    ('0' as u32) <= (c as u32) && (c as u32) <= ('9' as u32)
}

/// An ASCII letter.
pub open spec fn is_alpha_char(c: char) -> bool {
    ||| ('a' as u32) <= (c as u32) && (c as u32) <= ('z' as u32)
    ||| ('A' as u32) <= (c as u32) && (c as u32) <= ('Z' as u32)
}

fn is_space(c: char) -> (r: bool)
    ensures
        r == is_space_char(c),
{
    c == ' ' || c == '\t' || c == '\n' || c == '\u{0B}' || c == '\u{0C}' || c == '\r'
        || c == '\u{85}' || c == '\u{A0}' || c == '\u{1680}'
        || (('\u{2000}' as u32) <= (c as u32) && (c as u32) <= ('\u{200A}' as u32))
        || c == '\u{2028}' || c == '\u{2029}' || c == '\u{202F}' || c == '\u{205F}'
        || c == '\u{3000}'
}

fn is_digit(c: char) -> (r: bool)
    ensures
        r == is_digit_char(c),
{
    ('0' as u32) <= (c as u32) && (c as u32) <= ('9' as u32)
}

fn is_alpha(c: char) -> (r: bool)
    ensures
        r == is_alpha_char(c),
{
    (('a' as u32) <= (c as u32) && (c as u32) <= ('z' as u32)) || (('A' as u32) <= (c as u32)
        && (c as u32) <= ('Z' as u32))
}

/// The first position at or after `i` whose character fails `pred`, or
/// the end of the text.
pub open spec fn run_end(s: Seq<char>, i: int, pred: spec_fn(char) -> bool) -> int
    decreases s.len() - i,
{
    if i < 0 || i >= s.len() {
        i
    } else if pred(s[i]) {
        run_end(s, i + 1, pred)
    } else {
        i
    }
}

proof fn lemma_run_end(s: Seq<char>, i: int, pred: spec_fn(char) -> bool)
    requires
        0 <= i <= s.len(),
    ensures
        i <= run_end(s, i, pred) <= s.len(),
        forall|k: int| i <= k < run_end(s, i, pred) ==> pred(s[k]),
        run_end(s, i, pred) < s.len() ==> !pred(s[run_end(s, i, pred)]),
    decreases s.len() - i,
{
    if i < s.len() && pred(s[i]) {
        lemma_run_end(s, i + 1, pred);
    }
}

/// Where the digits of a number end.
pub open spec fn digits_end(s: Seq<char>, i: int) -> int {
    run_end(s, i, |c: char| is_digit_char(c))
}

/// Where a numeric literal that starts at `i` ends: its digits, and, if a
/// decimal mark follows them, the mark and the digits after it.
pub open spec fn number_end(s: Seq<char>, i: int) -> int {
    let d1 = digits_end(s, i);
    if d1 < s.len() && (s[d1] == '.' || s[d1] == ',') {
        digits_end(s, d1 + 1)
    } else {
        d1
    }
}

/// The text that the scanner accumulates for a numeric literal starting
/// at `i`: a minus sign when the literal was negated, the integer digits,
/// and, if a decimal mark follows, a `'.'` and the fraction digits (a
/// `','` mark is normalized to `'.'`).
pub open spec fn number_text(s: Seq<char>, i: int, neg: bool) -> Seq<char> {
    let sign: Seq<char> = if neg {
        seq!['-']
    } else {
        Seq::empty()
    };
    let d1 = digits_end(s, i);
    if d1 < s.len() && (s[d1] == '.' || s[d1] == ',') {
        sign + s.subrange(i, d1) + seq!['.'] + s.subrange(d1 + 1, digits_end(s, d1 + 1))
    } else {
        sign + s.subrange(i, d1)
    }
}

/// The token for a numeric literal: the number that `parse` gives for the
/// accumulated text, or the defensive error marker if it gives none.
pub open spec fn number_token(
    parse: spec_fn(Seq<char>) -> Option<u64>,
    s: Seq<char>,
    i: int,
    neg: bool,
) -> TokenModel {
    match parse(number_text(s, i, neg)) {
        Some(b) => TokenModel::Number(b),
        None => TokenModel::Bad(number_text(s, i, neg)),
    }
}

/// Where the token that starts at the non-space position `i` ends.
pub open spec fn token_end_at(s: Seq<char>, i: int) -> int {
    let c = s[i];
    if c == '-' {
        if i + 1 < s.len() && is_digit_char(s[i + 1]) {
            number_end(s, i + 1)
        } else {
            i + 1
        }
    } else if c == '*' {
        if i + 1 < s.len() && s[i + 1] == '*' {
            i + 2
        } else {
            i + 1
        }
    } else if c == '<' {
        if i + 1 < s.len() && s[i + 1] == '<' {
            i + 2
        } else {
            i + 1
        }
    } else if c == '>' {
        if i + 1 < s.len() && s[i + 1] == '>' {
            i + 2
        } else {
            i + 1
        }
    } else if is_digit_char(c) {
        number_end(s, i)
    } else if is_alpha_char(c) {
        run_end(s, i, |ch: char| is_alpha_char(ch))
    } else {
        i + 1
    }
}

/// The token that starts at the non-space position `i`.
pub open spec fn token_at(
    parse: spec_fn(Seq<char>) -> Option<u64>,
    s: Seq<char>,
    i: int,
) -> TokenModel {
    let c = s[i];
    if c == '-' {
        if i + 1 < s.len() && is_digit_char(s[i + 1]) {
            number_token(parse, s, i + 1, true)
        } else {
            TokenModel::Minus
        }
    } else if c == '+' {
        TokenModel::Plus
    } else if c == '*' {
        if i + 1 < s.len() && s[i + 1] == '*' {
            TokenModel::Exponent
        } else {
            TokenModel::Product
        }
    } else if c == '^' {
        TokenModel::Exponent
    } else if c == '(' {
        TokenModel::OpenParen
    } else if c == ')' {
        TokenModel::CloseParen
    } else if c == ';' {
        TokenModel::EndOfStatement
    } else if c == '/' {
        TokenModel::Division
    } else if c == '<' {
        if i + 1 < s.len() && s[i + 1] == '<' {
            TokenModel::BytesLeft
        } else {
            TokenModel::Useless('<')
        }
    } else if c == '>' {
        if i + 1 < s.len() && s[i + 1] == '>' {
            TokenModel::BytesRight
        } else {
            TokenModel::Useless('>')
        }
    } else if is_digit_char(c) {
        number_token(parse, s, i, false)
    } else if is_alpha_char(c) {
        TokenModel::Identifier(s.subrange(i, run_end(s, i, |ch: char| is_alpha_char(ch))))
    } else {
        TokenModel::Useless(c)
    }
}

/// The cursor position after one `next_token` call that starts at `i`:
/// past the skipped white space and past the token, if one starts there.
pub open spec fn next_cursor(s: Seq<char>, i: int) -> int {
    let w = run_end(s, i, |c: char| is_space_char(c));
    if w >= s.len() {
        w
    } else {
        token_end_at(s, w)
    }
}

/// The token that one `next_token` call starting at `i` yields, if the
/// white-space skip does not reach the end of the text.
pub open spec fn next_token_model(
    parse: spec_fn(Seq<char>) -> Option<u64>,
    s: Seq<char>,
    i: int,
) -> Option<TokenModel> {
    let w = run_end(s, i, |c: char| is_space_char(c));
    if w >= s.len() {
        None
    } else {
        Some(token_at(parse, s, w))
    }
}

proof fn lemma_next_cursor(s: Seq<char>, i: int)
    requires
        0 <= i <= s.len(),
    ensures
        i <= next_cursor(s, i) <= s.len(),
        next_cursor(s, i) == i ==> run_end(s, i, |c: char| is_space_char(c)) >= s.len(),
{
    let sp = |c: char| is_space_char(c);
    lemma_run_end(s, i, sp);
    let w = run_end(s, i, sp);
    if w < s.len() {
        let c = s[w];
        let al = |ch: char| is_alpha_char(ch);
        lemma_run_end(s, w, al);
        if c == '-' && w + 1 < s.len() && is_digit_char(s[w + 1]) {
            lemma_number_end(s, w + 1);
        } else if is_digit_char(c) {
            lemma_number_end(s, w);
        } else if is_alpha_char(c) {
            assert(al(s[w]));
            assert(run_end(s, w, al) > w) by {
                if run_end(s, w, al) == w {
                    assert(!al(s[run_end(s, w, al)]));
                }
            }
        }
    }
}

proof fn lemma_number_end(s: Seq<char>, i: int)
    requires
        0 <= i <= s.len(),
    ensures
        i <= number_end(s, i) <= s.len(),
        i < s.len() && is_digit_char(s[i]) ==> i < number_end(s, i),
{
    let dg = |c: char| is_digit_char(c);
    lemma_run_end(s, i, dg);
    let d1 = run_end(s, i, dg);
    if d1 < s.len() && (s[d1] == '.' || s[d1] == ',') {
        lemma_run_end(s, d1 + 1, dg);
    }
    if i < s.len() && is_digit_char(s[i]) {
        assert(d1 > i) by {
            if d1 == i {
                assert(!dg(s[d1]));
            }
        }
    }
}

/// The whole token sequence of the text from position `i` on.
pub open spec fn spec_scan(
    parse: spec_fn(Seq<char>) -> Option<u64>,
    s: Seq<char>,
    i: int,
) -> Seq<TokenModel>
    decreases s.len() - i,
{
    match next_token_model(parse, s, i) {
        None => Seq::empty(),
        Some(tm) => {
            let j = next_cursor(s, i);
            if i < j <= s.len() {
                seq![tm] + spec_scan(parse, s, j)
            } else {
                Seq::empty()
            }
        },
    }
}

/// The scanner: a cursor that advances over the source text, yielding one
/// classified token per `next_token` call.
pub struct Lexer<'a> {
    input: &'a str,
    cursor: usize,
}

impl<'a> Lexer<'a> {
    /// The source text being scanned.
    pub closed spec fn src(&self) -> Seq<char> {
        self.input@
    }

    /// The cursor, as a character position in the source text.
    pub closed spec fn pos(&self) -> int {
        self.cursor as int
    }

    /// The cursor never leaves the text.
    pub closed spec fn wf(&self) -> bool {
        self.cursor <= self.input@.len()
    }

    pub fn new(input: &'a str) -> (r: Lexer<'a>)
        ensures
            r.wf(),
            r.src() == input@,
            r.pos() == 0,
    {
        Lexer { input, cursor: 0 }
    }

    /// The character under the cursor, without advancing.
    fn peek_char(&self) -> (r: Option<char>)
        requires
            self.wf(),
        ensures
            r == if self.pos() < self.src().len() {
                Some(self.src()[self.pos()])
            } else {
                None::<char>
            },
    {
        if self.cursor < self.input.unicode_len() {
            Some(self.input.get_char(self.cursor))
        } else {
            None
        }
    }

    /// Advance past the character under the cursor and yield it.
    fn consume(&mut self) -> (r: Option<char>)
        requires
            old(self).wf(),
        ensures
            final(self).wf(),
            final(self).src() == old(self).src(),
            r == if old(self).pos() < old(self).src().len() {
                Some(old(self).src()[old(self).pos()])
            } else {
                None::<char>
            },
            final(self).pos() == if old(self).pos() < old(self).src().len() {
                old(self).pos() + 1
            } else {
                old(self).pos()
            },
    {
        if self.cursor < self.input.unicode_len() {
            let c = self.input.get_char(self.cursor);
            self.cursor = self.cursor + 1;
            Some(c)
        } else {
            None
        }
    }

    /// Move the cursor past every white-space character under it.
    fn skip_whitespace(&mut self)
        requires
            old(self).wf(),
        ensures
            final(self).wf(),
            final(self).src() == old(self).src(),
            final(self).pos() == run_end(
                old(self).src(),
                old(self).pos(),
                |c: char| is_space_char(c),
            ),
    {
        loop
            invariant
                self.wf(),
                self.src() == old(self).src(),
                run_end(self.src(), self.pos(), |c: char| is_space_char(c)) == run_end(
                    old(self).src(),
                    old(self).pos(),
                    |c: char| is_space_char(c),
                ),
            decreases self.src().len() - self.pos(),
        {
            let c = match self.peek_char() {
                Some(c) => c,
                None => {
                    return ;
                },
            };
            if !is_space(c) {
                return ;
            }
            self.consume();
        }
    }

    /// Append to `text` every consecutive digit under the cursor, moving
    /// the cursor past them.
    fn consume_digits(&mut self, text: &mut Vec<char>)
        requires
            old(self).wf(),
        ensures
            final(self).wf(),
            final(self).src() == old(self).src(),
            final(self).pos() == digits_end(old(self).src(), old(self).pos()),
            final(text)@ == old(text)@ + old(self).src().subrange(old(self).pos(), final(self).pos()),
    {
        loop
            invariant
                self.wf(),
                self.src() == old(self).src(),
                old(self).pos() <= self.pos(),
                digits_end(self.src(), self.pos()) == digits_end(old(self).src(), old(self).pos()),
                text@ == old(text)@ + self.src().subrange(old(self).pos(), self.pos()),
            decreases self.src().len() - self.pos(),
        {
            let c = match self.peek_char() {
                Some(c) => c,
                None => {
                    proof {
                        assert(text@ =~= old(text)@ + self.src().subrange(
                            old(self).pos(),
                            self.pos(),
                        ));
                    }
                    return ;
                },
            };
            if !is_digit(c) {
                return ;
            }
            self.consume();
            text.push(c);
            proof {
                assert(text@ =~= old(text)@ + self.src().subrange(old(self).pos(), self.pos()));
            }
        }
    }

    /// Append to `text` every consecutive ASCII letter under the cursor,
    /// moving the cursor past them.
    fn consume_alpha(&mut self, text: &mut Vec<char>)
        requires
            old(self).wf(),
        ensures
            final(self).wf(),
            final(self).src() == old(self).src(),
            final(self).pos() == run_end(
                old(self).src(),
                old(self).pos(),
                |c: char| is_alpha_char(c),
            ),
            final(text)@ == old(text)@ + old(self).src().subrange(old(self).pos(), final(self).pos()),
    {
        loop
            invariant
                self.wf(),
                self.src() == old(self).src(),
                old(self).pos() <= self.pos(),
                run_end(self.src(), self.pos(), |c: char| is_alpha_char(c)) == run_end(
                    old(self).src(),
                    old(self).pos(),
                    |c: char| is_alpha_char(c),
                ),
                text@ == old(text)@ + self.src().subrange(old(self).pos(), self.pos()),
            decreases self.src().len() - self.pos(),
        {
            let c = match self.peek_char() {
                Some(c) => c,
                None => {
                    proof {
                        assert(text@ =~= old(text)@ + self.src().subrange(
                            old(self).pos(),
                            self.pos(),
                        ));
                    }
                    return ;
                },
            };
            if !is_alpha(c) {
                return ;
            }
            self.consume();
            text.push(c);
            proof {
                assert(text@ =~= old(text)@ + self.src().subrange(old(self).pos(), self.pos()));
            }
        }
    }
}

/// Relies on `String: FromIterator<char>`: collecting characters yields
/// the string of exactly those characters, in order.
#[verifier::external_body]
fn chars_to_string(v: &Vec<char>) -> (r: String)
    ensures
        r@ == v@,
{
    v.iter().collect()
}

impl<'a> Lexer<'a> {
    /// Scan one numeric literal whose first digit is under the cursor.
    /// `neg` says whether a folded leading minus sign precedes it.
    fn scan_number<F: Fn(NumOp) -> NumReply>(&mut self, ops: &F, neg: bool) -> (r: Token)
        requires
            old(self).wf(),
            ops_callable(*ops),
        ensures
            final(self).wf(),
            final(self).src() == old(self).src(),
            final(self).pos() == number_end(old(self).src(), old(self).pos()),
            forall|sem: NumSem| #[trigger]
                ops_consistent(*ops, sem) ==> r@ == number_token(
                    sem.parse,
                    old(self).src(),
                    old(self).pos(),
                    neg,
                ),
    {
        let ghost s = old(self).src();
        let ghost i = old(self).pos();
        let mut text: Vec<char> = Vec::new();
        if neg {
            text.push('-');
        }
        self.consume_digits(&mut text);
        let dot = match self.peek_char() {
            Some(c) => c == '.' || c == ',',
            None => false,
        };
        if dot {
            self.consume();
            text.push('.');
            self.consume_digits(&mut text);
        }
        proof {
            assert(text@ =~= number_text(s, i, neg));
        }
        let text_str = chars_to_string(&text);
        let parse_arg = text_str.clone();
        let reply = ops(NumOp::Parse(parse_arg));
        let r = match reply {
            NumReply::Bits(b) => Token::Number(b),
            _ => Token::Bad(LexerError(text_str)),
        };
        proof {
            assert forall|sem: NumSem| #[trigger] ops_consistent(*ops, sem) implies r@
                == number_token(sem.parse, s, i, neg) by {
                assert(reply_matches(sem, NumOp::Parse(text_str), reply));
            }
        }
        r
    }

    /// Scan one identifier whose first letter is under the cursor.
    fn scan_identifier(&mut self) -> (r: Token)
        requires
            old(self).wf(),
        ensures
            final(self).wf(),
            final(self).src() == old(self).src(),
            final(self).pos() == run_end(
                old(self).src(),
                old(self).pos(),
                |c: char| is_alpha_char(c),
            ),
            r@ == TokenModel::Identifier(
                old(self).src().subrange(old(self).pos(), final(self).pos()),
            ),
    {
        let mut text: Vec<char> = Vec::new();
        self.consume_alpha(&mut text);
        Token::Identifier(chars_to_string(&text))
    }

    /// Yield the next token, or nothing once the source is exhausted.
    /// White space before the token is skipped; the cursor never rewinds.
    pub fn next_token<F: Fn(NumOp) -> NumReply>(&mut self, ops: &F) -> (r: Option<Token>)
        requires
            old(self).wf(),
            ops_callable(*ops),
        ensures
            final(self).wf(),
            final(self).src() == old(self).src(),
            final(self).pos() == next_cursor(old(self).src(), old(self).pos()),
            r is None <==> run_end(old(self).src(), old(self).pos(), |c: char| is_space_char(c))
                >= old(self).src().len(),
            forall|sem: NumSem| #[trigger]
                ops_consistent(*ops, sem) ==> (match (
                    r,
                    next_token_model(sem.parse, old(self).src(), old(self).pos()),
                ) {
                    (Some(tok), Some(tm)) => tok@ == tm,
                    (None, None) => true,
                    _ => false,
                }),
    {
        let ghost s = old(self).src();
        let ghost i = old(self).pos();
        self.skip_whitespace();
        let c = match self.peek_char() {
            Some(c) => c,
            None => {
                return None;
            },
        };
        let tok: Token;
        if c == '-' {
            self.consume();
            let next_digit = match self.peek_char() {
                Some(n) => is_digit(n),
                None => false,
            };
            if next_digit {
                tok = self.scan_number(ops, true);
            } else {
                tok = Token::Minus;
            }
        } else if c == '+' {
            self.consume();
            tok = Token::Plus;
        } else if c == '*' {
            self.consume();
            let doubled = match self.peek_char() {
                Some(n) => n == '*',
                None => false,
            };
            if doubled {
                self.consume();
                tok = Token::Exponent;
            } else {
                tok = Token::Product;
            }
        } else if c == '^' {
            self.consume();
            tok = Token::Exponent;
        } else if c == '(' {
            self.consume();
            tok = Token::OpenParen;
        } else if c == ')' {
            self.consume();
            tok = Token::CloseParen;
        } else if c == ';' {
            self.consume();
            tok = Token::EndOfStatement;
        } else if c == '/' {
            self.consume();
            tok = Token::Division;
        } else if c == '<' {
            self.consume();
            let doubled = match self.peek_char() {
                Some(n) => n == '<',
                None => false,
            };
            if doubled {
                self.consume();
                tok = Token::BytesLeft;
            } else {
                tok = Token::Useless('<');
            }
        } else if c == '>' {
            self.consume();
            let doubled = match self.peek_char() {
                Some(n) => n == '>',
                None => false,
            };
            if doubled {
                self.consume();
                tok = Token::BytesRight;
            } else {
                tok = Token::Useless('>');
            }
        } else if is_digit(c) {
            tok = self.scan_number(ops, false);
        } else if is_alpha(c) {
            tok = self.scan_identifier();
        } else {
            self.consume();
            tok = Token::Useless(c);
        }
        proof {
            lemma_run_end(s, i, |ch: char| is_space_char(ch));
        }
        Some(tok)
    }

    /// Scan the whole remaining source, yielding its token sequence.
    pub fn scan_all<F: Fn(NumOp) -> NumReply>(&mut self, ops: &F) -> (r: Vec<Token>)
        requires
            old(self).wf(),
            ops_callable(*ops),
        ensures
            final(self).wf(),
            forall|sem: NumSem| #[trigger]
                ops_consistent(*ops, sem) ==> token_models(r@) == spec_scan(
                    sem.parse,
                    old(self).src(),
                    old(self).pos(),
                ),
    {
        let mut out: Vec<Token> = Vec::new();
        loop
            invariant
                self.wf(),
                self.src() == old(self).src(),
                old(self).pos() <= self.pos() <= self.src().len(),
                ops_callable(*ops),
                forall|sem: NumSem| #[trigger]
                    ops_consistent(*ops, sem) ==> spec_scan(sem.parse, self.src(), old(self).pos())
                        == token_models(out@) + spec_scan(sem.parse, self.src(), self.pos()),
            decreases self.src().len() - self.pos(),
        {
            let ghost p = self.pos();
            let t = match self.next_token(ops) {
                Some(t) => t,
                None => {
                    proof {
                        assert forall|sem: NumSem| #[trigger]
                            ops_consistent(*ops, sem) implies token_models(out@) == spec_scan(
                            sem.parse,
                            self.src(),
                            old(self).pos(),
                        ) by {
                            assert(spec_scan(sem.parse, self.src(), p) =~= Seq::<
                                TokenModel,
                            >::empty());
                            assert(token_models(out@) + spec_scan(sem.parse, self.src(), p)
                                =~= token_models(out@));
                        }
                    }
                    return out;
                },
            };
            proof {
                lemma_next_cursor(self.src(), p);
            }
            let ghost prev_out = out@;
            let ghost tm = t@;
            out.push(t);
            proof {
                assert forall|sem: NumSem| #[trigger] ops_consistent(*ops, sem) implies spec_scan(
                    sem.parse,
                    self.src(),
                    old(self).pos(),
                ) == token_models(out@) + spec_scan(sem.parse, self.src(), self.pos()) by {
                    assert(token_models(out@) =~= token_models(prev_out) + seq![tm]);
                    assert(spec_scan(sem.parse, self.src(), p) == seq![tm] + spec_scan(
                        sem.parse,
                        self.src(),
                        self.pos(),
                    ));
                    assert(token_models(prev_out) + (seq![tm] + spec_scan(
                        sem.parse,
                        self.src(),
                        self.pos(),
                    )) =~= token_models(out@) + spec_scan(sem.parse, self.src(), self.pos()));
                }
            }
        }
    }
}

/// All the characters of `s` are decimal digits.
pub open spec fn all_digits(s: Seq<char>) -> bool {
    forall|k: int| 0 <= k < s.len() ==> is_digit_char(s[k])
}

/// `s` splits at `d` into the shape of a plain numeric literal: one or
/// more digits, then either nothing or a decimal point and one or more
/// further digits.
pub open spec fn literal_split_at(s: Seq<char>, d: int) -> bool {
    &&& 1 <= d <= s.len()
    &&& all_digits(s.subrange(0, d))
    &&& (d == s.len() || (d + 2 <= s.len() && s[d] == '.' && all_digits(
        s.subrange(d + 1, s.len() as int),
    )))
}

/// `s` has the shape of a plain numeric literal.
pub open spec fn is_numeric_literal_text(s: Seq<char>) -> bool {
    exists|d: int| literal_split_at(s, d)
}

/// A run whose extent is known exactly: every character before `j`
/// satisfies `pred` and `j` is the end of the text or fails it.
proof fn lemma_run_end_exact(s: Seq<char>, i: int, j: int, pred: spec_fn(char) -> bool)
    requires
        0 <= i <= j <= s.len(),
        forall|k: int| i <= k < j ==> pred(s[k]),
        j == s.len() || !pred(s[j]),
    ensures
        run_end(s, i, pred) == j,
    decreases j - i,
{
    if i < j {
        lemma_run_end_exact(s, i + 1, j, pred);
    }
}

/// Scanning a text that is exactly one plain numeric literal yields
/// exactly one token, whose accumulated text is the whole input, under
/// every parse meaning.
pub proof fn lemma_scan_numeric_literal_text(
    parse: spec_fn(Seq<char>) -> Option<u64>,
    s: Seq<char>,
)
    requires
        is_numeric_literal_text(s),
    ensures
        number_text(s, 0, false) == s,
        spec_scan(parse, s, 0) == seq![number_token(parse, s, 0, false)],
{
    let d = choose|d: int| literal_split_at(s, d);
    let dg = |c: char| is_digit_char(c);
    let sp = |c: char| is_space_char(c);
    assert(s.subrange(0, d)[0] == s[0]);
    assert(is_digit_char(s[0]));
    assert(!is_space_char(s[0]));
    lemma_run_end_exact(s, 0, 0, sp);
    assert forall|k: int| 0 <= k < d implies dg(s[k]) by {
        assert(s.subrange(0, d)[k] == s[k]);
    }
    lemma_run_end_exact(s, 0, d, dg);
    if d == s.len() {
        assert(number_end(s, 0) == s.len());
        assert(number_text(s, 0, false) =~= s);
    } else {
        assert forall|k: int| d + 1 <= k < s.len() implies dg(s[k]) by {
            assert(s.subrange(d + 1, s.len() as int)[k - (d + 1)] == s[k]);
        }
        lemma_run_end_exact(s, d + 1, s.len() as int, dg);
        assert(number_end(s, 0) == s.len());
        assert(number_text(s, 0, false) =~= s);
    }
    assert(token_at(parse, s, 0) == number_token(parse, s, 0, false));
    assert(next_cursor(s, 0) == s.len());
    lemma_run_end_exact(s, s.len() as int, s.len() as int, sp);
    assert(spec_scan(parse, s, s.len() as int) =~= Seq::<TokenModel>::empty());
    assert(spec_scan(parse, s, 0) =~= seq![number_token(parse, s, 0, false)]);
}

/// Scanning a text that is exactly one plain numeric literal, under a
/// parse meaning that gives it the value `v`, yields exactly one token:
/// the number `v`.
pub proof fn lemma_scan_numeric_literal(
    parse: spec_fn(Seq<char>) -> Option<u64>,
    s: Seq<char>,
    v: u64,
)
    requires
        is_numeric_literal_text(s),
        parse(s) == Some(v),
    ensures
        spec_scan(parse, s, 0) == seq![TokenModel::Number(v)],
{
    lemma_scan_numeric_literal_text(parse, s);
}

} // verus!
