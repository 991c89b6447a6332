use vstd::prelude::*;

use crate::environment::Environment;
use crate::lexer::{Lexer, spec_scan};
use crate::ops::{NumOp, NumReply, NumSem, ops_callable, ops_consistent, reply_matches};
use crate::parser::{
    BinaryExpressionType, Colored, Expression, ExpressionModel, ParseError, ParseErrorModel,
    Parser, Statement, StatementModel, spec_program, statement_models,
};

verus! {

/// An execution failure: an expression referred to a variable that was
/// never assigned.  The field holds the variable's name.
#[derive(Debug, PartialEq)]
pub struct ExecuteError(pub String);

/// One line of program output: the text of a printed value, either plain
/// or to be rendered in a color.  The multicolor mode is rendered by the
/// caller, one independently chosen color per character.
#[derive(Debug, PartialEq)]
pub enum OutputLine {
    Plain(String),
    Colored(Colored, String),
}

/// The mathematical shape of an output line.
pub ghost enum OutputModel {
    Plain(Seq<char>),
    Colored(Colored, Seq<char>),
}

impl View for OutputLine {
    type V = OutputModel;

    open spec fn view(&self) -> OutputModel {
        match self {
            OutputLine::Plain(s) => OutputModel::Plain(s@),
            OutputLine::Colored(c, s) => OutputModel::Colored(*c, s@),
        }
    }
}

/// The output models of an output list.
pub open spec fn output_models(os: Seq<OutputLine>) -> Seq<OutputModel> {
    os.map_values(|o: OutputLine| o@)
}

/// A left shift of the truncated operand, saturating to zero when the
/// shift amount reaches 64: the shifted-out case never wraps around.
pub open spec fn sat_shl(a: u64, s: u64) -> u64 {
    if s >= 64 {
        0u64
    } else {
        a << s
    }
}

/// A right shift of the truncated operand, saturating to zero when the
/// shift amount reaches 64.
pub open spec fn sat_shr(a: u64, s: u64) -> u64 {
    if s >= 64 {
        0u64
    } else {
        a >> s
    }
}

/// The value of one binary operation under the meaning `sem`, on two
/// operands given by their bit patterns.  The shift operators truncate
/// both operands to integers, shift with saturation, and convert back.
pub open spec fn spec_apply(sem: NumSem, op: BinaryExpressionType, l: u64, r: u64) -> u64 {
    match op {
        BinaryExpressionType::Sum => (sem.add)(l, r),
        BinaryExpressionType::Minus => (sem.sub)(l, r),
        BinaryExpressionType::Product => (sem.mul)(l, r),
        BinaryExpressionType::Division => (sem.div)(l, r),
        BinaryExpressionType::Exponent => (sem.pow)(l, r),
        BinaryExpressionType::BytesLeft => (sem.from_int)(
            sat_shl((sem.trunc)(l), (sem.shift_amount)(r)),
        ),
        BinaryExpressionType::BytesRight => (sem.from_int)(
            sat_shr((sem.trunc)(l), (sem.shift_amount)(r)),
        ),
    }
}

/// The value of an expression under the meaning `sem`, in the given
/// environment: a literal is its value, a variable is its current
/// binding (an unbound name fails with that name), and a binary node
/// combines the values of its children, left before right.
pub open spec fn spec_eval(sem: NumSem, e: ExpressionModel, env: Map<Seq<char>, u64>) -> Result<
    u64,
    Seq<char>,
>
    decreases e,
{
    match e {
        ExpressionModel::Number(b) => Ok(b),
        ExpressionModel::Identifier(name) => if env.contains_key(name) {
            Ok(env[name])
        } else {
            Err(name)
        },
        ExpressionModel::Binary { op, left, right } => match spec_eval(sem, *left, env) {
            Err(n) => Err(n),
            Ok(l) => match spec_eval(sem, *right, env) {
                Err(n) => Err(n),
                Ok(r) => Ok(spec_apply(sem, op, l, r)),
            },
        },
    }
}

/// What one statement does under the meaning `sem`: the environment
/// after it, the output it appends, and the failure that aborts it, if
/// any.  A failing statement changes nothing and prints nothing.
pub open spec fn spec_exec_statement(
    sem: NumSem,
    st: StatementModel,
    env: Map<Seq<char>, u64>,
) -> (Map<Seq<char>, u64>, Seq<OutputModel>, Option<Seq<char>>) {
    match st {
        StatementModel::Expression(e) => match spec_eval(sem, e, env) {
            Ok(v) => (env, Seq::empty(), None),
            Err(n) => (env, Seq::empty(), Some(n)),
        },
        StatementModel::Print(e) => match spec_eval(sem, e, env) {
            Ok(v) => (env, seq![OutputModel::Plain((sem.format)(v))], None),
            Err(n) => (env, Seq::empty(), Some(n)),
        },
        StatementModel::PrintColored(c, e) => match spec_eval(sem, e, env) {
            Ok(v) => (env, seq![OutputModel::Colored(c, (sem.format)(v))], None),
            Err(n) => (env, Seq::empty(), Some(n)),
        },
        StatementModel::Assignment(name, e) => match spec_eval(sem, e, env) {
            Ok(v) => (env.insert(name, v), Seq::empty(), None),
            Err(n) => (env, Seq::empty(), Some(n)),
        },
    }
}

/// What a whole program does under the meaning `sem`, from the given
/// environment: statements run strictly in order; the first failure
/// aborts the rest, and the output already produced stays.
pub open spec fn spec_run(sem: NumSem, stmts: Seq<StatementModel>, env: Map<Seq<char>, u64>) -> (
    Seq<OutputModel>,
    Option<Seq<char>>,
)
    decreases stmts.len(),
{
    if stmts.len() == 0 {
        (Seq::empty(), None)
    } else {
        let (env2, out1, err) = spec_exec_statement(sem, stmts[0], env);
        match err {
            Some(n) => (out1, Some(n)),
            None => {
                let (rest_out, rest_err) = spec_run(sem, stmts.drop_first(), env2);
                (out1 + rest_out, rest_err)
            },
        }
    }
}

/// Ask the caller's operation closure for one binary operation's value.
fn apply_op<F: Fn(NumOp) -> NumReply>(op: BinaryExpressionType, l: u64, r: u64, ops: &F) -> (res:
    u64)
    requires
        ops_callable(*ops),
    ensures
        forall|sem: NumSem| #[trigger]
            ops_consistent(*ops, sem) ==> res == spec_apply(sem, op, l, r),
{
    match op {
        BinaryExpressionType::Sum => {
            let reply = ops(NumOp::Add(l, r));
            let res = match reply {
                NumReply::Bits(b) => b,
                _ => 0u64,
            };
            proof {
                assert forall|sem: NumSem| #[trigger] ops_consistent(*ops, sem) implies res
                    == spec_apply(sem, op, l, r) by {
                    assert(reply_matches(sem, NumOp::Add(l, r), reply));
                }
            }
            res
        },
        BinaryExpressionType::Minus => {
            let reply = ops(NumOp::Sub(l, r));
            let res = match reply {
                NumReply::Bits(b) => b,
                _ => 0u64,
            };
            proof {
                assert forall|sem: NumSem| #[trigger] ops_consistent(*ops, sem) implies res
                    == spec_apply(sem, op, l, r) by {
                    assert(reply_matches(sem, NumOp::Sub(l, r), reply));
                }
            }
            res
        },
        BinaryExpressionType::Product => {
            let reply = ops(NumOp::Mul(l, r));
            let res = match reply {
                NumReply::Bits(b) => b,
                _ => 0u64,
            };
            proof {
                assert forall|sem: NumSem| #[trigger] ops_consistent(*ops, sem) implies res
                    == spec_apply(sem, op, l, r) by {
                    assert(reply_matches(sem, NumOp::Mul(l, r), reply));
                }
            }
            res
        },
        BinaryExpressionType::Division => {
            let reply = ops(NumOp::Div(l, r));
            let res = match reply {
                NumReply::Bits(b) => b,
                _ => 0u64,
            };
            proof {
                assert forall|sem: NumSem| #[trigger] ops_consistent(*ops, sem) implies res
                    == spec_apply(sem, op, l, r) by {
                    assert(reply_matches(sem, NumOp::Div(l, r), reply));
                }
            }
            res
        },
        BinaryExpressionType::Exponent => {
            let reply = ops(NumOp::Pow(l, r));
            let res = match reply {
                NumReply::Bits(b) => b,
                _ => 0u64,
            };
            proof {
                assert forall|sem: NumSem| #[trigger] ops_consistent(*ops, sem) implies res
                    == spec_apply(sem, op, l, r) by {
                    assert(reply_matches(sem, NumOp::Pow(l, r), reply));
                }
            }
            res
        },
        BinaryExpressionType::BytesLeft => {
            let reply_a = ops(NumOp::Trunc(l));
            let a = match reply_a {
                NumReply::Int(v) => v,
                _ => 0u64,
            };
            let reply_s = ops(NumOp::ShiftAmount(r));
            let s = match reply_s {
                NumReply::Int(v) => v,
                _ => 0u64,
            };
            let sh: u64 = if s >= 64 {
                0u64
            } else {
                a << s
            };
            let reply_b = ops(NumOp::FromInt(sh));
            let res = match reply_b {
                NumReply::Bits(b) => b,
                _ => 0u64,
            };
            proof {
                assert forall|sem: NumSem| #[trigger] ops_consistent(*ops, sem) implies res
                    == spec_apply(sem, op, l, r) by {
                    assert(reply_matches(sem, NumOp::Trunc(l), reply_a));
                    assert(reply_matches(sem, NumOp::ShiftAmount(r), reply_s));
                    assert(reply_matches(sem, NumOp::FromInt(sh), reply_b));
                }
            }
            res
        },
        BinaryExpressionType::BytesRight => {
            let reply_a = ops(NumOp::Trunc(l));
            let a = match reply_a {
                NumReply::Int(v) => v,
                _ => 0u64,
            };
            let reply_s = ops(NumOp::ShiftAmount(r));
            let s = match reply_s {
                NumReply::Int(v) => v,
                _ => 0u64,
            };
            let sh: u64 = if s >= 64 {
                0u64
            } else {
                a >> s
            };
            let reply_b = ops(NumOp::FromInt(sh));
            let res = match reply_b {
                NumReply::Bits(b) => b,
                _ => 0u64,
            };
            proof {
                assert forall|sem: NumSem| #[trigger] ops_consistent(*ops, sem) implies res
                    == spec_apply(sem, op, l, r) by {
                    assert(reply_matches(sem, NumOp::Trunc(l), reply_a));
                    assert(reply_matches(sem, NumOp::ShiftAmount(r), reply_s));
                    assert(reply_matches(sem, NumOp::FromInt(sh), reply_b));
                }
            }
            res
        },
    }
}

impl Expression {
    /// The value of this expression in the given environment: a pure
    /// function of the environment and the caller's numeric operations.
    /// Referring to an unbound variable fails with that variable's name.
    pub fn evaluate<F: Fn(NumOp) -> NumReply>(&self, variables: &Environment, ops: &F) -> (r:
        Result<u64, ExecuteError>)
        requires
            ops_callable(*ops),
        ensures
            forall|sem: NumSem| #[trigger]
                ops_consistent(*ops, sem) ==> (match spec_eval(sem, self@, variables@) {
                    Ok(v) => r matches Ok(b) && b == v,
                    Err(name) => r matches Err(e) && e.0@ == name,
                }),
        decreases *self,
    {
        match self {
            Expression::Number(b) => Ok(*b),
            Expression::Identifier(id) => match variables.get(id) {
                Some(v) => Ok(v),
                None => Err(ExecuteError(id.clone())),
            },
            Expression::Binary { op, left, right } => {
                let l = match left.evaluate(variables, ops) {
                    Ok(v) => v,
                    Err(e) => {
                        return Err(e);
                    },
                };
                let r_val = match right.evaluate(variables, ops) {
                    Ok(v) => v,
                    Err(e) => {
                        return Err(e);
                    },
                };
                Ok(apply_op(*op, l, r_val, ops))
            },
        }
    }
}

impl Statement {
    /// Run this statement: evaluate its expression, then print, bind or
    /// discard as the statement form says.  The statement's output is
    /// appended to `output`; a failure changes nothing and prints
    /// nothing.
    pub fn execute<F: Fn(NumOp) -> NumReply>(
        self,
        variables: &mut Environment,
        output: &mut Vec<OutputLine>,
        ops: &F,
    ) -> (r: Result<(), ExecuteError>)
        requires
            ops_callable(*ops),
        ensures
            forall|sem: NumSem| #[trigger]
                ops_consistent(*ops, sem) ==> ({
                    let (env2, outs, err) = spec_exec_statement(sem, self@, old(variables)@);
                    &&& final(variables)@ == env2
                    &&& output_models(final(output)@) == output_models(old(output)@) + outs
                    &&& match err {
                        None => r is Ok,
                        Some(n) => r matches Err(e) && e.0@ == n,
                    }
                }),
    {
        let ghost out0 = output@;
        match self {
            Statement::Expression(expr) => {
                let res = match expr.evaluate(variables, ops) {
                    Ok(v) => Ok(()),
                    Err(e) => Err(e),
                };
                proof {
                    assert(output_models(output@) =~= output_models(out0) + Seq::<
                        OutputModel,
                    >::empty());
                }
                res
            },
            Statement::Print(expr) => match expr.evaluate(variables, ops) {
                Ok(v) => {
                    let reply = ops(NumOp::Format(v));
                    let text = match reply {
                        NumReply::Text(t) => t,
                        _ => String::new(),
                    };
                    let ghost tm = text@;
                    output.push(OutputLine::Plain(text));
                    proof {
                        assert(output_models(output@) =~= output_models(out0) + seq![
                            OutputModel::Plain(tm),
                        ]);
                        assert forall|sem: NumSem| #[trigger] ops_consistent(*ops, sem) implies ({
                            reply_matches(sem, NumOp::Format(v), reply)
                        }) by {}
                    }
                    Ok(())
                },
                Err(e) => {
                    proof {
                        assert(output_models(output@) =~= output_models(out0) + Seq::<
                            OutputModel,
                        >::empty());
                    }
                    Err(e)
                },
            },
            Statement::PrintColored(color, expr) => match expr.evaluate(variables, ops) {
                Ok(v) => {
                    let reply = ops(NumOp::Format(v));
                    let text = match reply {
                        NumReply::Text(t) => t,
                        _ => String::new(),
                    };
                    let ghost tm = text@;
                    output.push(OutputLine::Colored(color, text));
                    proof {
                        assert(output_models(output@) =~= output_models(out0) + seq![
                            OutputModel::Colored(color, tm),
                        ]);
                        assert forall|sem: NumSem| #[trigger] ops_consistent(*ops, sem) implies ({
                            reply_matches(sem, NumOp::Format(v), reply)
                        }) by {}
                    }
                    Ok(())
                },
                Err(e) => {
                    proof {
                        assert(output_models(output@) =~= output_models(out0) + Seq::<
                            OutputModel,
                        >::empty());
                    }
                    Err(e)
                },
            },
            Statement::Assignment(lhs, rhs) => match rhs.evaluate(variables, ops) {
                Ok(v) => {
                    variables.set(lhs, v);
                    proof {
                        assert(output_models(output@) =~= output_models(out0) + Seq::<
                            OutputModel,
                        >::empty());
                    }
                    Ok(())
                },
                Err(e) => {
                    proof {
                        assert(output_models(output@) =~= output_models(out0) + Seq::<
                            OutputModel,
                        >::empty());
                    }
                    Err(e)
                },
            },
        }
    }
}

/// The tree-walking evaluator: it owns a parsed program and the run's
/// variable environment, created empty, and runs the statements in
/// order.
pub struct Interpreter {
    program: Vec<Statement>,
    variables: Environment,
}

impl Interpreter {
    /// The models of the statements still to run.
    pub closed spec fn prog(&self) -> Seq<StatementModel> {
        statement_models(self.program@)
    }

    /// The abstract environment.
    pub closed spec fn env(&self) -> Map<Seq<char>, u64> {
        self.variables@
    }

    pub fn new(program: Vec<Statement>) -> (r: Interpreter)
        ensures
            r.prog() == statement_models(program@),
            r.env() == Map::<Seq<char>, u64>::empty(),
    {
        Interpreter { program, variables: Environment::new() }
    }

    /// Run the whole program from an empty environment: the statements
    /// in order, stopping at the first failure.  Yields the output the
    /// run produced, and the failure that stopped it, if one did.
    #[verifier::loop_isolation(false)]
    pub fn interpret<F: Fn(NumOp) -> NumReply>(self, ops: &F) -> (r: (
        Vec<OutputLine>,
        Result<(), ExecuteError>,
    ))
        requires
            ops_callable(*ops),
            self.env() == Map::<Seq<char>, u64>::empty(),
        ensures
            forall|sem: NumSem| #[trigger]
                ops_consistent(*ops, sem) ==> ({
                    let (outs, err) = spec_run(sem, self.prog(), Map::empty());
                    &&& output_models(r.0@) == outs
                    &&& match err {
                        None => r.1 is Ok,
                        Some(n) => r.1 matches Err(e) && e.0@ == n,
                    }
                }),
    {
        let ghost prog0 = self.prog();
        let mut me = self;
        let mut out: Vec<OutputLine> = Vec::new();
        loop
            invariant
                ops_callable(*ops),
                forall|sem: NumSem| #[trigger]
                    ops_consistent(*ops, sem) ==> ({
                        let (outs, err) = spec_run(sem, prog0, Map::empty());
                        let (rout, rerr) = spec_run(sem, me.prog(), me.env());
                        outs == output_models(out@) + rout && err == rerr
                    }),
            decreases me.prog().len(),
        {
            proof {
                assert(me.prog().len() == me.program@.len());
            }
            if me.program.len() == 0 {
                proof {
                    assert forall|sem: NumSem| #[trigger] ops_consistent(*ops, sem) implies ({
                        let (outs, err) = spec_run(sem, prog0, Map::empty());
                        outs == output_models(out@) && err is None
                    }) by {
                        let (rout, rerr) = spec_run(sem, me.prog(), me.env());
                        assert(output_models(out@) + rout =~= output_models(out@));
                    }
                }
                return (out, Ok(()));
            }
            let ghost rest_before = me.prog();
            let ghost env_before = me.env();
            let st = me.program.remove(0);
            let ghost stm = st@;
            proof {
                assert(statement_models(me.program@) =~= rest_before.drop_first());
                assert(rest_before[0] == stm);
            }
            let ghost out_before = out@;
            let step = st.execute(&mut me.variables, &mut out, ops);
            match step {
                Ok(u) => {
                    proof {
                        assert forall|sem: NumSem| #[trigger]
                            ops_consistent(*ops, sem) implies ({
                            let (outs, err) = spec_run(sem, prog0, Map::empty());
                            let (rout, rerr) = spec_run(sem, me.prog(), me.env());
                            outs == output_models(out@) + rout && err == rerr
                        }) by {
                            let (env2, outs1, err1) = spec_exec_statement(sem, stm, env_before);
                            let (rout, rerr) = spec_run(sem, me.prog(), me.env());
                            assert(spec_run(sem, rest_before, env_before) == (
                                outs1 + rout,
                                rerr,
                            ));
                            assert(output_models(out_before) + (outs1 + rout) =~= output_models(
                                out@,
                            ) + rout);
                        }
                    }
                },
                Err(e) => {
                    proof {
                        assert forall|sem: NumSem| #[trigger]
                            ops_consistent(*ops, sem) implies ({
                            let (outs, err) = spec_run(sem, prog0, Map::empty());
                            outs == output_models(out@) && (err matches Some(n) && e.0@ == n)
                        }) by {
                            let (env2, outs1, err1) = spec_exec_statement(
                                sem,
                                stm,
                                env_before,
                            );
                            assert(output_models(out@) =~= output_models(out@) + Seq::<
                                OutputModel,
                            >::empty());
                        }
                    }
                    return (out, Err(e));
                },
            }
        }
    }
}

/// What the whole three-stage pipeline does to a source text under the
/// meaning `sem`: scan it, parse the token sequence, and, if parsing
/// succeeds, run the program from an empty environment.
pub open spec fn spec_pipeline(sem: NumSem, s: Seq<char>) -> Result<
    (Seq<OutputModel>, Option<Seq<char>>),
    ParseErrorModel,
> {
    match spec_program(spec_scan(sem.parse, s, 0), 0) {
        Err(e) => Err(e),
        Ok(sms) => Ok(spec_run(sem, sms, Map::empty())),
    }
}

/// Scan, parse and run a whole source text.  A parse failure is
/// reported before anything runs; otherwise the run's output and its
/// outcome are yielded.
pub fn run_source<F: Fn(NumOp) -> NumReply>(source: &str, ops: &F) -> (r: Result<
    (Vec<OutputLine>, Result<(), ExecuteError>),
    ParseError,
>)
    requires
        ops_callable(*ops),
    ensures
        forall|sem: NumSem| #[trigger]
            ops_consistent(*ops, sem) ==> (match spec_pipeline(sem, source@) {
                Err(em) => r matches Err(pe) && pe@ == em,
                Ok((outs, err)) => r matches Ok(p) && output_models(p.0@) == outs && (match err {
                    None => p.1 is Ok,
                    Some(n) => p.1 matches Err(e) && e.0@ == n,
                }),
            }),
{
    let mut lexer = Lexer::new(source);
    let tokens = lexer.scan_all(ops);
    let mut parser = Parser::new(tokens);
    let program = match parser.parse() {
        Ok(p) => p,
        Err(e) => {
            return Err(e);
        },
    };
    let interp = Interpreter::new(program);
    Ok(interp.interpret(ops))
}

/// An out-of-range shift saturates: whenever the meaning's shift amount
/// for the right operand exceeds 63, either shift operator yields the
/// meaning's number for the integer zero, never a wrapped-around value.
pub proof fn lemma_shift_saturates(sem: NumSem, l: u64, r: u64)
    requires
        (sem.shift_amount)(r) > 63,
    ensures
        spec_apply(sem, BinaryExpressionType::BytesLeft, l, r) == (sem.from_int)(0u64),
        spec_apply(sem, BinaryExpressionType::BytesRight, l, r) == (sem.from_int)(0u64),
{
}

/// Re-running one source text against one meaning of the numeric domain
/// gives identical results both times: the pipeline is a function of the
/// text and the meaning alone, each run starting from a fresh empty
/// environment, with no hidden state carried between runs.
pub proof fn lemma_rerun_is_identical(
    sem: NumSem,
    s: Seq<char>,
    r1: Result<(Seq<OutputModel>, Option<Seq<char>>), ParseErrorModel>,
    r2: Result<(Seq<OutputModel>, Option<Seq<char>>), ParseErrorModel>,
)
    requires
        r1 == spec_pipeline(sem, s),
        r2 == spec_pipeline(sem, s),
    ensures
        r1 == r2,
{
}

} // verus!
