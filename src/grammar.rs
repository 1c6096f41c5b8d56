//! The grammar as mathematics: each production is a spec function from a
//! text and a start position to either a result with the number of
//! characters it consumed, or the error that a parse reports there.
use vstd::prelude::*;
use crate::value::{NumModel, ValueModel};

verus! {

/// What went wrong.
#[derive(Debug, Clone, Copy, PartialEq, Eq, Structural)]
pub enum ErrorKind {
    /// A required literal, delimiter or separator was not found.
    StructuralMismatch,
    /// A number needed at least one digit and found none.
    MissingDigits,
    /// An opening `"` has no closing `"` before the end of the input.
    UnterminatedString,
    /// The digits of an integer do not fit in an `i64`.
    NumberOutOfRange,
    /// A complete value is followed by more than whitespace.
    TrailingInput,
    /// No alternative of a choice got past its start position.
    EmptyAlternatives,
}

/// A failure and the character position at which it was detected.
#[derive(Debug, Clone, Copy, PartialEq, Eq, Structural)]
pub struct ParseError {
    pub kind: ErrorKind,
    pub pos: usize,
}

pub open spec fn fail<T>(kind: ErrorKind, p: int) -> Result<T, ParseError> {
    Err(ParseError { kind, pos: p as usize })
}

/// Of two failures of alternatives, the one detected further on; the first on a tie.
pub open spec fn deeper(a: ParseError, b: ParseError) -> ParseError {
    if b.pos > a.pos {
        b
    } else {
        a
    }
}

/// The failure of a choice whose deepest alternative failure is `e`.
pub open spec fn choice_failure(e: ParseError, p: int) -> ParseError {
    if e.pos as int == p {
        ParseError { kind: ErrorKind::EmptyAlternatives, pos: p as usize }
    } else {
        e
    }
}

pub open spec fn is_ws(c: char) -> bool {
    c == ' ' || c == '\t' || c == '\n' || c == '\r'
}

pub open spec fn is_digit(c: char) -> bool {
    '0' <= c && c <= '9'
}

pub open spec fn digit_value(c: char) -> int {
    (c as int) - ('0' as int)
}

/// The decimal value of a run of digits.
pub open spec fn digits_value(d: Seq<char>) -> int
    decreases d.len(),
{
    if d.len() == 0 {
        0
    } else {
        digits_value(d.drop_last()) * 10 + digit_value(d.last())
    }
}

/// Length of the whitespace run at `p`.
pub open spec fn ws_len(s: Seq<char>, p: int) -> nat
    decreases s.len() - p,
{
    if 0 <= p < s.len() && is_ws(s[p]) {
        1 + ws_len(s, p + 1)
    } else {
        0
    }
}

/// Length of the digit run at `p`.
pub open spec fn digits_len(s: Seq<char>, p: int) -> nat
    decreases s.len() - p,
{
    if 0 <= p < s.len() && is_digit(s[p]) {
        1 + digits_len(s, p + 1)
    } else {
        0
    }
}

/// Number of characters from `p` up to the next `"` (or to the end).
pub open spec fn unquoted_len(s: Seq<char>, p: int) -> nat
    decreases s.len() - p,
{
    if 0 <= p < s.len() && s[p] != '"' {
        1 + unquoted_len(s, p + 1)
    } else {
        0
    }
}

pub open spec fn null_text() -> Seq<char> {
    seq!['n', 'u', 'l', 'l']
}

pub open spec fn true_text() -> Seq<char> {
    seq!['t', 'r', 'u', 'e']
}

pub open spec fn false_text() -> Seq<char> {
    seq!['f', 'a', 'l', 's', 'e']
}

pub open spec fn has_literal(s: Seq<char>, p: int, t: Seq<char>) -> bool {
    0 <= p && p + t.len() <= s.len() && s.subrange(p, p + t.len()) == t
}

/// `literal(t)`: consumes `t` exactly.
pub open spec fn literal_result(s: Seq<char>, p: int, t: Seq<char>) -> Result<nat, ParseError> {
    if has_literal(s, p, t) {
        Ok(t.len())
    } else {
        fail(ErrorKind::StructuralMismatch, p)
    }
}

/// `digit_run()`: the maximal run of digits, at least one.
pub open spec fn digit_run_result(s: Seq<char>, p: int) -> Result<nat, ParseError> {
    if digits_len(s, p) > 0 {
        Ok(digits_len(s, p))
    } else {
        fail(ErrorKind::MissingDigits, p)
    }
}

/// `quoted_span()`: the raw text between a `"` at `p` and the next `"`.
pub open spec fn quoted_result(s: Seq<char>, p: int) -> Result<(Seq<char>, nat), ParseError> {
    if 0 <= p < s.len() && s[p] == '"' {
        let n = unquoted_len(s, p + 1);
        if p + 1 + n < s.len() {
            Ok((s.subrange(p + 1, p + 1 + n), n + 2))
        } else {
            fail(ErrorKind::UnterminatedString, s.len() as int)
        }
    } else {
        fail(ErrorKind::StructuralMismatch, p)
    }
}

/// `sep_with_space(c)`: whitespace, the character `c`, whitespace.
pub open spec fn sep_result(s: Seq<char>, p: int, c: char) -> Result<nat, ParseError> {
    let q = p + ws_len(s, p);
    if 0 <= q < s.len() && s[q] == c {
        Ok(ws_len(s, p) + 1 + ws_len(s, q + 1))
    } else {
        fail(ErrorKind::StructuralMismatch, q)
    }
}

pub open spec fn bool_result(s: Seq<char>, p: int) -> Result<(bool, nat), ParseError> {
    match literal_result(s, p, true_text()) {
        Ok(n) => Ok((true, n)),
        Err(e1) => match literal_result(s, p, false_text()) {
            Ok(n) => Ok((false, n)),
            Err(e2) => Err(choice_failure(deeper(e1, e2), p)),
        },
    }
}

/// `["-"] digit+ ["." digit+]`: an integer when there is no fraction, else
/// the literal text of the number.
#[verifier::opaque]
pub open spec fn number_result(s: Seq<char>, p: int) -> Result<(NumModel, nat), ParseError> {
    let sign: nat = if 0 <= p < s.len() && s[p] == '-' {
        1
    } else {
        0
    };
    let a = p + sign;
    let n = digits_len(s, a);
    let b = a + n;
    if n == 0 {
        fail(ErrorKind::MissingDigits, a)
    } else if b < s.len() && s[b] == '.' {
        let m = digits_len(s, b + 1);
        if m == 0 {
            fail(ErrorKind::MissingDigits, b + 1)
        } else {
            Ok((NumModel::Float(s.subrange(p, b + 1 + m)), sign + n + 1 + m))
        }
    } else {
        let v = digits_value(s.subrange(a, b));
        if v > i64::MAX {
            fail(ErrorKind::NumberOutOfRange, a)
        } else {
            Ok((NumModel::Int(if sign == 1 { -v } else { v }), sign + n))
        }
    }
}

/// A measure that each step of the recursive productions lowers: positive
/// inside the text and at its end, zero past it.
pub open spec fn budget(s: Seq<char>, p: int) -> nat {
    if p <= s.len() {
        (s.len() + 1 - p) as nat
    } else {
        0
    }
}

/// The value production: the alternatives in their fixed order.
pub open spec fn value_result(s: Seq<char>, p: int) -> Result<(ValueModel, nat), ParseError>
    decreases budget(s, p), 3nat,
{
    match literal_result(s, p, null_text()) {
        Ok(n) => Ok((ValueModel::Null, n)),
        Err(e1) => match bool_result(s, p) {
            Ok((b, n)) => Ok((ValueModel::Bool(b), n)),
            Err(e2) => match number_result(s, p) {
                Ok((x, n)) => Ok((ValueModel::Number(x), n)),
                Err(e3) => match quoted_result(s, p) {
                    Ok((t, n)) => Ok((ValueModel::Str(t), n)),
                    Err(e4) => match array_result(s, p) {
                        Ok((items, n)) => Ok((ValueModel::Array(items), n)),
                        Err(e5) => match object_result(s, p) {
                            Ok((entries, n)) => Ok((ValueModel::Object(entries), n)),
                            Err(e6) => Err(
                                choice_failure(
                                    deeper(deeper(deeper(deeper(deeper(e1, e2), e3), e4), e5), e6),
                                    p,
                                ),
                            ),
                        },
                    },
                },
            },
        },
    }
}

/// Zero or more values separated by commas, starting at `q`.
pub open spec fn elements_result(s: Seq<char>, q: int) -> (Seq<ValueModel>, nat)
    decreases budget(s, q), 5nat,
{
    if q > s.len() {
        (seq![], 0)
    } else {
        match value_result(s, q) {
            Err(_) => (seq![], 0),
            Ok((v, n)) => {
                let rest = more_elements(s, q + n);
                (seq![v] + rest.0, n + rest.1)
            },
        }
    }
}

/// The `, value` repetitions that follow an element ending at `e`.
pub open spec fn more_elements(s: Seq<char>, e: int) -> (Seq<ValueModel>, nat)
    decreases budget(s, e), 4nat,
{
    if e > s.len() {
        (seq![], 0)
    } else {
        match sep_result(s, e, ',') {
            Err(_) => (seq![], 0),
            Ok(a) => match value_result(s, e + a) {
                Err(_) => (seq![], 0),
                Ok((v, n)) => {
                    let rest = more_elements(s, e + a + n);
                    (seq![v] + rest.0, a + n + rest.1)
                },
            },
        }
    }
}

pub open spec fn array_result(s: Seq<char>, p: int) -> Result<(Seq<ValueModel>, nat), ParseError>
    decreases budget(s, p), 2nat,
{
    if p > s.len() {
        fail(ErrorKind::StructuralMismatch, p)
    } else {
        match sep_result(s, p, '[') {
            Err(e) => Err(e),
            Ok(a) => {
                let items = elements_result(s, p + a);
                match sep_result(s, p + a + items.1, ']') {
                    Err(e) => Err(e),
                    Ok(c) => Ok((items.0, a + items.1 + c)),
                }
            },
        }
    }
}

/// `string ws ":" ws value`.
pub open spec fn pair_result(s: Seq<char>, q: int) -> Result<((Seq<char>, ValueModel), nat), ParseError>
    decreases budget(s, q), 1nat,
{
    if q > s.len() {
        fail(ErrorKind::StructuralMismatch, q)
    } else {
        match quoted_result(s, q) {
            Err(e) => Err(e),
            Ok((k, a)) => match sep_result(s, q + a, ':') {
                Err(e) => Err(e),
                Ok(b) => match value_result(s, q + a + b) {
                    Err(e) => Err(e),
                    Ok((v, c)) => Ok(((k, v), a + b + c)),
                },
            },
        }
    }
}

/// One or more pairs separated by commas, starting at `q`.
pub open spec fn members_result(s: Seq<char>, q: int) -> Result<(Seq<(Seq<char>, ValueModel)>, nat), ParseError>
    decreases budget(s, q), 5nat,
{
    if q > s.len() {
        fail(ErrorKind::StructuralMismatch, q)
    } else {
        match pair_result(s, q) {
            Err(e) => Err(e),
            Ok((kv, n)) => {
                let rest = more_members(s, q + n);
                Ok((seq![kv] + rest.0, n + rest.1))
            },
        }
    }
}

/// The `, pair` repetitions that follow a pair ending at `e`.
pub open spec fn more_members(s: Seq<char>, e: int) -> (Seq<(Seq<char>, ValueModel)>, nat)
    decreases budget(s, e), 4nat,
{
    if e > s.len() {
        (seq![], 0)
    } else {
        match sep_result(s, e, ',') {
            Err(_) => (seq![], 0),
            Ok(a) => match pair_result(s, e + a) {
                Err(_) => (seq![], 0),
                Ok((kv, n)) => {
                    let rest = more_members(s, e + a + n);
                    (seq![kv] + rest.0, a + n + rest.1)
                },
            },
        }
    }
}

/// The index of key `k` among `entries`, if it is there.
pub open spec fn key_index(entries: Seq<(Seq<char>, ValueModel)>, k: Seq<char>) -> int
    decreases entries.len(),
{
    if entries.len() == 0 {
        -1
    } else if entries.last().0 == k {
        entries.len() - 1
    } else {
        key_index(entries.drop_last(), k)
    }
}

/// Sets key `k` to `v`: in place where `k` is present, else appended.
pub open spec fn with_entry(
    entries: Seq<(Seq<char>, ValueModel)>,
    k: Seq<char>,
    v: ValueModel,
) -> Seq<(Seq<char>, ValueModel)> {
    let i = key_index(entries, k);
    if i >= 0 {
        entries.update(i, (k, v))
    } else {
        entries.push((k, v))
    }
}

/// The entries of an object whose pairs are written as `pairs`, in order.
pub open spec fn entries_of(pairs: Seq<(Seq<char>, ValueModel)>) -> Seq<(Seq<char>, ValueModel)>
    decreases pairs.len(),
{
    if pairs.len() == 0 {
        seq![]
    } else {
        with_entry(entries_of(pairs.drop_last()), pairs.last().0, pairs.last().1)
    }
}

pub open spec fn object_result(s: Seq<char>, p: int) -> Result<(Seq<(Seq<char>, ValueModel)>, nat), ParseError>
    decreases budget(s, p), 2nat,
{
    if p > s.len() {
        fail(ErrorKind::StructuralMismatch, p)
    } else {
        match sep_result(s, p, '{') {
            Err(e) => Err(e),
            Ok(a) => match members_result(s, p + a) {
                Err(e) => Err(e),
                Ok((pairs, b)) => match sep_result(s, p + a + b, '}') {
                    Err(e) => Err(e),
                    Ok(c) => Ok((entries_of(pairs), a + b + c)),
                },
            },
        }
    }
}

/// A whole document: one value, then only whitespace.
pub open spec fn document_result(s: Seq<char>) -> Result<ValueModel, ParseError> {
    match value_result(s, 0) {
        Err(e) => Err(e),
        Ok((v, n)) => {
            let t = n + ws_len(s, n as int);
            if t == s.len() {
                Ok(v)
            } else {
                fail(ErrorKind::TrailingInput, t as int)
            }
        },
    }
}

/// The digit run at `p` lies inside the text, holds only digits, and is
/// maximal.
pub proof fn lemma_digit_run_facts(s: Seq<char>, p: int)
    requires
        0 <= p,
    ensures
        p + digits_len(s, p) <= s.len() || digits_len(s, p) == 0,
        forall|j: int| p <= j < p + digits_len(s, p) ==> #[trigger] is_digit(s[j]),
        p + digits_len(s, p) < s.len() ==> !is_digit(s[p + digits_len(s, p)]),
    decreases s.len() - p,
{
    if 0 <= p < s.len() && is_digit(s[p]) {
        lemma_digit_run_facts(s, p + 1);
    }
}

} // verus!
