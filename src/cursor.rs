//! The cursor over the input and the primitive matchers. Every matcher either
//! advances the cursor past what it consumed and succeeds, or fails and leaves
//! the cursor where it was.
use vstd::prelude::*;
use vstd::string::{StrSliceExecFns, StringExecFns};
use crate::grammar::{
    digit_run_result, digits_len, is_digit, is_ws, literal_result, quoted_result, sep_result,
    unquoted_len, ws_len, ErrorKind, ParseError,
};

verus! {

/// A read position over an input text that never changes.
pub struct Cursor<'a> {
    text: &'a str,
    chars: Vec<char>,
    pos: usize,
}

/// The outcome of a matcher run from position `before`, stopped at `after`:
/// on success the model result with the number of characters consumed, on
/// failure the same error with the cursor unmoved.
pub open spec fn outcome<T>(
    expected: Result<(T, nat), ParseError>,
    got: Result<T, ParseError>,
    before: int,
    after: int,
) -> bool {
    match got {
        Ok(v) => before <= after && expected == Ok::<(T, nat), ParseError>((v, (after - before) as nat)),
        Err(e) => after == before && expected == Err::<(T, nat), ParseError>(e),
    }
}

/// `outcome` for a matcher that yields nothing but its length.
pub open spec fn step_outcome(
    expected: Result<nat, ParseError>,
    got: Result<(), ParseError>,
    before: int,
    after: int,
) -> bool {
    match got {
        Ok(_) => before <= after && expected == Ok::<nat, ParseError>((after - before) as nat),
        Err(e) => after == before && expected == Err::<nat, ParseError>(e),
    }
}

pub fn is_ws_char(c: char) -> (r: bool)
    ensures
        r == is_ws(c),
{
    c == ' ' || c == '\t' || c == '\n' || c == '\r'
}

pub fn is_digit_char(c: char) -> (r: bool)
    ensures
        r == is_digit(c),
{
    '0' <= c && c <= '9'
}

impl<'a> Cursor<'a> {
    /// The whole input.
    pub closed spec fn input(&self) -> Seq<char> {
        self.chars@
    }

    /// The number of characters consumed so far.
    pub closed spec fn pos(&self) -> int {
        self.pos as int
    }

    /// The characters are those of the text.
    pub closed spec fn consistent(&self) -> bool {
        self.chars@ == self.text@
    }

    pub open spec fn wf(&self) -> bool {
        &&& self.consistent()
        &&& self.pos() <= self.input().len()
    }

    /// A cursor at the start of `text`.
    pub fn new(text: &'a str) -> (c: Cursor<'a>)
        ensures
            c.wf(),
            c.input() == text@,
            c.pos() == 0,
    {
        broadcast use vstd::string::group_string_axioms;
        let mut chars: Vec<char> = Vec::new();
        for ch in it: text.chars()
            invariant
                chars@ == it.history(),
        {
            chars.push(ch);
        }
        assert(chars@ =~= text@);
        Cursor { text, chars, pos: 0 }
    }

    /// The next unconsumed character, if any.
    pub fn peek(&self) -> (r: Option<char>)
        requires
            self.wf(),
        ensures
            r == (if self.pos() < self.input().len() {
                Some(self.input()[self.pos()])
            } else {
                None::<char>
            }),
    {
        if self.pos < self.chars.len() {
            Some(self.chars[self.pos])
        } else {
            None
        }
    }

    /// Moves forward by `n` characters.
    pub fn advance(&mut self, n: usize)
        requires
            old(self).wf(),
            old(self).pos() + n <= old(self).input().len(),
        ensures
            final(self).wf(),
            final(self).input() == old(self).input(),
            final(self).pos() == old(self).pos() + n,
    {
        let len = self.chars.len();
        assert(self.pos + n <= len);
        self.pos = self.pos + n;
    }

    /// The current position, in characters.
    pub fn position(&self) -> (r: usize)
        ensures
            r as int == self.pos(),
    {
        self.pos
    }

    /// The length of the whole input, in characters.
    pub fn len(&self) -> (r: usize)
        requires
            self.wf(),
        ensures
            r as int == self.input().len(),
    {
        self.chars.len()
    }

    /// The number of characters not yet consumed.
    pub fn remaining(&self) -> (r: usize)
        requires
            self.wf(),
        ensures
            r as int == self.input().len() - self.pos(),
    {
        self.chars.len() - self.pos
    }

    /// The character at position `i` of the input.
    pub fn char_at(&self, i: usize) -> (r: char)
        requires
            self.wf(),
            i < self.input().len(),
        ensures
            r == self.input()[i as int],
    {
        self.chars[i]
    }

    /// Moves back to an earlier position, undoing a partial match.
    pub fn rewind(&mut self, to: usize)
        requires
            old(self).wf(),
            to <= old(self).pos(),
        ensures
            final(self).wf(),
            final(self).input() == old(self).input(),
            final(self).pos() == to,
    {
        self.pos = to;
    }

    /// A copy of the input between two positions.
    pub fn slice(&self, from: usize, to: usize) -> (r: String)
        requires
            self.wf(),
            from <= to <= self.input().len(),
        ensures
            r@ == self.input().subrange(from as int, to as int),
    {
        String::from_str(self.text.substring_char(from, to))
    }

    /// Consumes zero or more whitespace characters.
    pub fn skip_whitespace(&mut self)
        requires
            old(self).wf(),
        ensures
            final(self).wf(),
            final(self).input() == old(self).input(),
            final(self).pos() == old(self).pos() + ws_len(old(self).input(), old(self).pos()),
    {
        let ghost start = self.pos as int;
        while self.pos < self.chars.len() && is_ws_char(self.chars[self.pos])
            invariant
                self.wf(),
                self.chars@ == old(self).chars@,
                self.text == old(self).text,
                start <= self.pos,
                ws_len(self.chars@, start) == (self.pos - start) + ws_len(self.chars@, self.pos as int),
            decreases self.chars.len() - self.pos,
        {
            self.pos = self.pos + 1;
        }
    }

    /// `literal(t)`: consumes `t` exactly, or fails unmoved.
    pub fn literal(&mut self, t: &str) -> (r: Result<(), ParseError>)
        requires
            old(self).wf(),
        ensures
            final(self).wf(),
            final(self).input() == old(self).input(),
            step_outcome(literal_result(old(self).input(), old(self).pos(), t@), r, old(self).pos(), final(self).pos()),
    {
        let n = t.unicode_len();
        let err = ParseError { kind: ErrorKind::StructuralMismatch, pos: self.pos };
        if n > self.chars.len() - self.pos {
            return Err(err);
        }
        let mut i: usize = 0;
        while i < n
            invariant
                self.wf(),
                self.chars@ == old(self).chars@,
                self.text == old(self).text,
                self.pos == old(self).pos,
                err == (ParseError { kind: ErrorKind::StructuralMismatch, pos: self.pos }),
                n == t@.len(),
                self.pos + n <= self.chars.len(),
                i <= n,
                forall|j: int| 0 <= j < i ==> self.chars@[self.pos + j] == t@[j],
            decreases n - i,
        {
            if self.chars[self.pos + i] != t.get_char(i) {
                assert(self.chars@.subrange(self.pos as int, self.pos + n)[i as int] != t@[i as int]);
                return Err(err);
            }
            i = i + 1;
        }
        assert(self.chars@.subrange(self.pos as int, self.pos + n) =~= t@);
        self.pos = self.pos + n;
        Ok(())
    }

    /// `digit_run()`: consumes the maximal run of digits, at least one, and
    /// returns its length.
    pub fn digit_run(&mut self) -> (r: Result<usize, ParseError>)
        requires
            old(self).wf(),
        ensures
            final(self).wf(),
            final(self).input() == old(self).input(),
            match r {
                Ok(n) => n > 0 && n == digits_len(old(self).input(), old(self).pos())
                    && final(self).pos() == old(self).pos() + n,
                Err(e) => final(self).pos() == old(self).pos()
                    && digit_run_result(old(self).input(), old(self).pos()) == Err::<nat, ParseError>(e),
            },
    {
        let start = self.pos;
        while self.pos < self.chars.len() && is_digit_char(self.chars[self.pos])
            invariant
                self.wf(),
                self.chars@ == old(self).chars@,
                self.text == old(self).text,
                start <= self.pos,
                digits_len(self.chars@, start as int) == (self.pos - start) + digits_len(self.chars@, self.pos as int),
            decreases self.chars.len() - self.pos,
        {
            self.pos = self.pos + 1;
        }
        if self.pos == start {
            Err(ParseError { kind: ErrorKind::MissingDigits, pos: start })
        } else {
            Ok(self.pos - start)
        }
    }

    /// `quoted_span()`: consumes a `"`, the text up to the next `"`, and that
    /// `"`; returns the text between them.
    pub fn quoted_span(&mut self) -> (r: Result<String, ParseError>)
        requires
            old(self).wf(),
        ensures
            final(self).wf(),
            final(self).input() == old(self).input(),
            match r {
                Ok(t) => quoted_result(old(self).input(), old(self).pos())
                    == Ok::<(Seq<char>, nat), ParseError>((t@, (final(self).pos() - old(self).pos()) as nat))
                    && final(self).pos() > old(self).pos(),
                Err(e) => final(self).pos() == old(self).pos()
                    && quoted_result(old(self).input(), old(self).pos()) == Err::<(Seq<char>, nat), ParseError>(e),
            },
    {
        let start = self.pos;
        if !(start < self.chars.len() && self.chars[start] == '"') {
            return Err(ParseError { kind: ErrorKind::StructuralMismatch, pos: start });
        }
        let mut j: usize = start + 1;
        while j < self.chars.len() && self.chars[j] != '"'
            invariant
                self.wf(),
                self.pos == start,
                start < j <= self.chars.len(),
                unquoted_len(self.chars@, start + 1) == (j - (start + 1)) + unquoted_len(self.chars@, j as int),
            decreases self.chars.len() - j,
        {
            j = j + 1;
        }
        if j == self.chars.len() {
            return Err(ParseError { kind: ErrorKind::UnterminatedString, pos: j });
        }
        let t = self.slice(start + 1, j);
        self.pos = j + 1;
        Ok(t)
    }

    /// `sep_with_space(c)`: whitespace, the character `c`, whitespace.
    pub fn sep_with_space(&mut self, c: char) -> (r: Result<(), ParseError>)
        requires
            old(self).wf(),
        ensures
            final(self).wf(),
            final(self).input() == old(self).input(),
            step_outcome(sep_result(old(self).input(), old(self).pos(), c), r, old(self).pos(), final(self).pos()),
            r is Ok ==> final(self).pos() > old(self).pos(),
    {
        let start = self.pos;
        self.skip_whitespace();
        if self.pos < self.chars.len() && self.chars[self.pos] == c {
            self.pos = self.pos + 1;
            self.skip_whitespace();
            Ok(())
        } else {
            let e = ParseError { kind: ErrorKind::StructuralMismatch, pos: self.pos };
            self.pos = start;
            Err(e)
        }
    }
}

} // verus!
