use vstd::prelude::*;

verus! {

/// A request for one primitive operation on the numeric domain.
///
/// Every value of the language is a 64-bit floating-point number; the
/// verified library never computes with such numbers directly and instead
/// carries each one as its bit pattern, a plain `u64`.  Whenever a stage
/// needs an actual numeric result (parsing a literal, arithmetic, the
/// textual form of a value) it asks the caller to perform that one
/// operation by handing it a `NumOp` and receiving a `NumReply`.
#[derive(Debug, PartialEq)]
pub enum NumOp {
    /// Parse a numeric literal's text; answered by `Bits` or `NoParse`.
    Parse(String),
    /// Add the two numbers given by their bit patterns; answered by `Bits`.
    Add(u64, u64),
    /// Subtract the second number from the first; answered by `Bits`.
    Sub(u64, u64),
    /// Multiply the two numbers; answered by `Bits`.
    Mul(u64, u64),
    /// Divide the first number by the second; answered by `Bits`.
    Div(u64, u64),
    /// Raise the first number to the power of the second; answered by `Bits`.
    Pow(u64, u64),
    /// Truncate the number toward zero and convert it to an unsigned
    /// 64-bit integer, saturating at the ends of the range; answered by `Int`.
    Trunc(u64),
    /// Convert the number to an unsigned 32-bit shift amount, saturating
    /// at the ends of the range; answered by `Int`.
    ShiftAmount(u64),
    /// Convert an unsigned 64-bit integer to the nearest number;
    /// answered by `Bits`.
    FromInt(u64),
    /// The decimal textual form of the number; answered by `Text`.
    Format(u64),
}

/// The answer to one `NumOp` request.
#[derive(Debug, PartialEq)]
pub enum NumReply {
    /// A numeric result, as the bit pattern of the number.
    Bits(u64),
    /// An integer result.
    Int(u64),
    /// A textual result.
    Text(String),
    /// The literal's text could not be parsed as a number.
    NoParse,
}

/// One possible meaning of the numeric domain: a mathematical function for
/// each primitive operation.  The library's contracts are stated relative
/// to such a meaning: whenever the operation closure that the caller
/// supplies agrees with `sem` (see `ops_consistent`), the library's results
/// are the ones that `sem` dictates.
pub ghost struct NumSem {
    pub parse: spec_fn(Seq<char>) -> Option<u64>,
    pub add: spec_fn(u64, u64) -> u64,
    pub sub: spec_fn(u64, u64) -> u64,
    pub mul: spec_fn(u64, u64) -> u64,
    pub div: spec_fn(u64, u64) -> u64,
    pub pow: spec_fn(u64, u64) -> u64,
    pub trunc: spec_fn(u64) -> u64,
    pub shift_amount: spec_fn(u64) -> u64,
    pub from_int: spec_fn(u64) -> u64,
    pub format: spec_fn(u64) -> Seq<char>,
}

/// Whether the reply `r` to the request `q` is the one that the meaning
/// `sem` dictates.
pub open spec fn reply_matches(sem: NumSem, q: NumOp, r: NumReply) -> bool {
    match q {
        NumOp::Parse(s) => match (sem.parse)(s@) {
            Some(b) => r == NumReply::Bits(b),
            None => r == NumReply::NoParse,
        },
        NumOp::Add(a, b) => r == NumReply::Bits((sem.add)(a, b)),
        NumOp::Sub(a, b) => r == NumReply::Bits((sem.sub)(a, b)),
        NumOp::Mul(a, b) => r == NumReply::Bits((sem.mul)(a, b)),
        NumOp::Div(a, b) => r == NumReply::Bits((sem.div)(a, b)),
        NumOp::Pow(a, b) => r == NumReply::Bits((sem.pow)(a, b)),
        NumOp::Trunc(a) => r == NumReply::Int((sem.trunc)(a)),
        NumOp::ShiftAmount(a) => r == NumReply::Int((sem.shift_amount)(a)),
        NumOp::FromInt(n) => r == NumReply::Bits((sem.from_int)(n)),
        NumOp::Format(a) => (r matches NumReply::Text(t) && t@ == (sem.format)(a)),
    }
}

/// The operation closure can be called on every request.
pub open spec fn ops_callable<F: Fn(NumOp) -> NumReply>(ops: F) -> bool {
    forall|q: NumOp| #[trigger] call_requires(ops, (q,))
}

/// Every reply the operation closure can give is the one that the meaning
/// `sem` dictates.
pub open spec fn ops_consistent<F: Fn(NumOp) -> NumReply>(ops: F, sem: NumSem) -> bool {
    forall|q: NumOp, r: NumReply| #[trigger] call_ensures(ops, (q,), r) ==> reply_matches(sem, q, r)
}

} // verus!
