//! A concrete input adapter over a sequence of characters, with
//! line/column rendering of positions.
use vstd::prelude::*;

verus! {

use crate::{Parse, ParseElem, ParseLiteral, ParseSlice, RuleResult};
use vstd::string::*;

/// Whether two string slices render the same character sequence.
pub fn str_eq(a: &str, b: &str) -> (r: bool)
    ensures
        r == (a@ == b@),
{
    let na = a.unicode_len();
    let nb = b.unicode_len();
    if na != nb {
        assert(a@ != b@);
        return false;
    }
    let mut i: usize = 0;
    while i < na
        invariant
            0 <= i <= na,
            na == a@.len(),
            na == b@.len(),
            forall|k: int| 0 <= k < i ==> a@[k] == b@[k],
        decreases na - i,
    {
        if a.get_char(i) != b.get_char(i) {
            assert(a@ != b@);
            return false;
        }
        i = i + 1;
    }
    proof {
        assert(a@ =~= b@);
    }
    true
}

/// A line/column rendering of an input position, both 1-based.
#[derive(Clone, Copy, PartialEq, Eq, Structural, Debug)]
pub struct LineCol {
    pub line: usize,
    pub column: usize,
}

/// The line/column of position `p` in `inp`: each newline character ends a
/// line.  Lines and columns saturate rather than overflow, and positions past
/// the end of the input render as its end.
pub open spec fn line_col_of(inp: Seq<char>, p: int) -> LineCol {
    if p > inp.len() {
        line_col_at(inp, inp.len() as int)
    } else {
        line_col_at(inp, p)
    }
}

/// The line/column of a position known to lie inside the input.
pub open spec fn line_col_at(inp: Seq<char>, p: int) -> LineCol
    decreases p,
{
    if p <= 0 {
        LineCol { line: 1, column: 1 }
    } else {
        let prev = line_col_at(inp, p - 1);
        if inp[p - 1] == '\n' {
            LineCol { line: sat_inc(prev.line), column: 1 }
        } else {
            LineCol { line: prev.line, column: sat_inc(prev.column) }
        }
    }
}

/// Increment, saturating at the largest `usize`.
pub open spec fn sat_inc(n: usize) -> usize {
    if n < usize::MAX {
        (n + 1) as usize
    } else {
        n
    }
}

/// An input adapter holding the input as one character per position.
pub struct CharsInput {
    chars: Vec<char>,
}

impl View for CharsInput {
    type V = Seq<char>;

    closed spec fn view(&self) -> Seq<char> {
        self.chars@
    }
}

impl CharsInput {
    /// Wrap a character vector as parser input.
    pub fn new(chars: Vec<char>) -> (r: Self)
        ensures
            r@ == chars@,
    {
        CharsInput { chars }
    }

    /// Read a string into parser input, one position per character.
    pub fn from_text(text: &str) -> (r: Self)
        ensures
            r@ == text@,
    {
        let n = text.unicode_len();
        let mut chars: Vec<char> = Vec::new();
        let mut i: usize = 0;
        while i < n
            invariant
                0 <= i <= n,
                n == text@.len(),
                chars@ == text@.take(i as int),
            decreases n - i,
        {
            chars.push(text.get_char(i));
            assert(chars@ =~= text@.take(i + 1));
            i = i + 1;
        }
        assert(chars@ =~= text@);
        CharsInput { chars }
    }

    /// The number of positions in the input.
    pub fn len(&self) -> (n: usize)
        ensures
            n == self@.len(),
    {
        self.chars.len()
    }

    /// The input always fits the machine's positions.
    pub proof fn len_bound(&self)
        ensures
            self@.len() <= usize::MAX,
    {
        vstd::std_specs::vec::axiom_spec_len(&self.chars);
    }

    /// The character at position `p`.
    pub fn char_at(&self, p: usize) -> (c: char)
        requires
            p < self@.len(),
        ensures
            c == self@[p as int],
    {
        self.chars[p]
    }
}

impl Parse for CharsInput {
    type PositionRepr = LineCol;

    open spec fn start_spec(&self) -> usize {
        0
    }

    open spec fn eof_spec(&self, p: usize) -> bool {
        p >= self@.len()
    }

    open spec fn repr_spec(&self, p: usize) -> LineCol {
        line_col_of(self@, p as int)
    }

    fn start(&self) -> usize {
        0
    }

    fn is_eof(&self, p: usize) -> bool {
        p >= self.chars.len()
    }

    fn position_repr(&self, p: usize) -> (r: LineCol) {
        let n = self.chars.len();
        let lim = if p < n {
            p
        } else {
            n
        };
        proof {
            if p > self@.len() {
                assert(line_col_of(self@, p as int) == line_col_of(self@, self@.len() as int));
            }
        }
        let mut line: usize = 1;
        let mut column: usize = 1;
        let mut i: usize = 0;
        while i < lim
            invariant
                0 <= i <= lim <= self@.len(),
                (LineCol { line, column }) == line_col_of(self@, i as int),
            decreases lim - i,
        {
            if self.chars[i] == '\n' {
                line = if line < usize::MAX {
                    line + 1
                } else {
                    line
                };
                column = 1;
            } else {
                column = if column < usize::MAX {
                    column + 1
                } else {
                    column
                };
            }
            i = i + 1;
        }
        LineCol { line, column }
    }
}

impl ParseElem for CharsInput {
    type Element = char;

    open spec fn elem_spec(&self, pos: usize) -> RuleResult<char> {
        if pos < self@.len() {
            RuleResult::Matched((pos + 1) as usize, self@[pos as int])
        } else {
            RuleResult::Failed
        }
    }

    fn parse_elem(&self, pos: usize) -> (r: RuleResult<char>) {
        if pos < self.chars.len() {
            RuleResult::Matched(pos + 1, self.chars[pos])
        } else {
            RuleResult::Failed
        }
    }
}

impl ParseLiteral for CharsInput {
    open spec fn literal_spec(&self, pos: usize, literal: &str) -> RuleResult<()> {
        if pos + literal@.len() <= self@.len() && self@.subrange(
            pos as int,
            pos + literal@.len(),
        ) == literal@ {
            RuleResult::Matched((pos + literal@.len()) as usize, ())
        } else {
            RuleResult::Failed
        }
    }

    fn parse_string_literal(&self, pos: usize, literal: &str) -> (r: RuleResult<()>) {
        let n = literal.unicode_len();
        let len = self.chars.len();
        if pos > len || n > len - pos {
            return RuleResult::Failed;
        }
        let mut i: usize = 0;
        while i < n
            invariant
                0 <= i <= n,
                n == literal@.len(),
                pos + n <= len,
                len == self@.len(),
                forall|k: int| 0 <= k < i ==> self@[pos + k] == literal@[k],
            decreases n - i,
        {
            if self.chars[pos + i] != literal.get_char(i) {
                assert(self@.subrange(pos as int, pos + literal@.len())[i as int] != literal@[
                    i as int]);
                return RuleResult::Failed;
            }
            i = i + 1;
        }
        proof {
            assert(self@.subrange(pos as int, pos + literal@.len()) =~= literal@);
        }
        RuleResult::Matched(pos + n, ())
    }
}

impl CharsInput {
    /// The characters between two positions, each clamped to the input's end.
    pub fn slice(&self, p1: usize, p2: usize) -> (r: Vec<char>)
        ensures
            clamp_to(p1, self@.len()) <= clamp_to(p2, self@.len()) ==> r@ == self@.subrange(
                clamp_to(p1, self@.len()),
                clamp_to(p2, self@.len()),
            ),
            clamp_to(p1, self@.len()) > clamp_to(p2, self@.len()) ==> r@ == Seq::<char>::empty(),
    {
        let len = self.chars.len();
        let a = if p1 < len {
            p1
        } else {
            len
        };
        let b = if p2 < len {
            p2
        } else {
            len
        };
        if a >= b {
            let r: Vec<char> = Vec::new();
            proof {
                if a <= b {
                    assert(r@ =~= self@.subrange(a as int, b as int));
                }
            }
            return r;
        }
        let mut r: Vec<char> = Vec::new();
        let mut i: usize = a;
        while i < b
            invariant
                a <= i <= b <= self@.len(),
                r@ == self@.subrange(a as int, i as int),
            decreases b - i,
        {
            r.push(self.chars[i]);
            assert(r@ =~= self@.subrange(a as int, i + 1));
            i = i + 1;
        }
        r
    }
}

/// `p`, held back to at most `n`.
pub open spec fn clamp_to(p: usize, n: nat) -> int {
    if p <= n {
        p as int
    } else {
        n as int
    }
}

impl ParseSlice for CharsInput {
    type Slice = Vec<char>;

    fn parse_slice(&self, p1: usize, p2: usize) -> (r: Vec<char>) {
        self.slice(p1, p2)
    }
}

} // verus!
