//! Runtime support for parsing-expression-grammar matchers.
//!
//! The crate provides the result algebra every matcher is written against
//! (`RuleResult`, `ParseResult`, `ParseResults`), the diagnostic error-state
//! engine threaded through a parse attempt (`error::ErrorState`), the input
//! adapter capabilities (`Parse`, `ParseElem`, `ParseLiteral`, `ParseSlice`),
//! a grammar model (`grammar`), and a matcher engine (`matcher`) that gives
//! the grammar constructs their backtracking semantics.
use vstd::prelude::*;

pub mod analysis;
pub mod error;
pub mod grammar;
pub mod input;
pub mod matcher;

verus! {

use crate::error::{ParseErr, ParseError, ExpectedSet};

/// The public API of a parser: the result of the parse, and the set of errors
/// that were recovered from.
#[derive(Clone, PartialEq, Eq, Debug)]
pub struct ParseResults<T, L> {
    /// The result of the parse.
    pub result: ParseResult<T, L>,
    /// The set of errors we recovered from during the parse.
    pub errors: Vec<ParseErr<L>>,
}

/// The public result of a parser.
/// A parse may succeed, fail, or raise a named error.
#[derive(Clone, PartialEq, Eq, Debug)]
pub enum ParseResult<T, L> {
    /// Success
    Matched(T),
    /// Failure
    Failed(ParseError<L>),
    /// Labelled error at location
    Error(ParseErr<L>),
}

/// The result type used internally in the parser.
///
/// You'll only need this if implementing the `Parse*` traits for a custom
/// input type.
#[derive(Clone, Copy, PartialEq, Eq, Debug)]
pub enum RuleResult<T> {
    /// Success, with final location
    Matched(usize, T),
    /// Failure (furthest failure location is not yet known)
    Failed,
    /// Labelled error at location
    Error(ParseErr<usize>),
}

impl<T, L> ParseResults<T, L> {
    /// Convert into a simple `Result`, ignoring any recovered errors.
    /// An unrecovered labelled error collapses into a failure whose expected
    /// set holds exactly that label.
    pub fn into_result(self) -> (r: Result<T, ParseError<L>>)
        ensures
            self.result matches ParseResult::Matched(v) ==> r == Ok::<T, ParseError<L>>(v),
            self.result matches ParseResult::Failed(e) ==> r == Err::<T, ParseError<L>>(e),
            self.result matches ParseResult::Error(e) ==> (r matches Err(pe)
                && pe.location == e.location
                && pe.expected@ == Set::<Seq<char>>::empty().insert(e.error@)
                && pe.expected.inv()),
    {
        match self.result {
            ParseResult::Matched(v) => Ok(v),
            ParseResult::Failed(e) => Err(e),
            ParseResult::Error(e) => Err(ParseError {
                location: e.location,
                expected: ExpectedSet::singleton(e.error),
            }),
        }
    }

    /// Return the contained match.  The caller must know the parse succeeded:
    /// this library's functions never panic, so failure is ruled out up front.
    pub fn unwrap(self) -> (r: T)
        requires
            self.result is Matched,
        ensures
            self.result matches ParseResult::Matched(v) ==> r == v,
    {
        match self.result {
            ParseResult::Matched(v) => v,
            _ => vstd::pervasive::unreached(),
        }
    }
}

/// A type that can be used as input to a parser.
pub trait Parse {
    type PositionRepr;

    /// What `start` returns.
    spec fn start_spec(&self) -> usize;

    /// What `is_eof` returns at a position.
    spec fn eof_spec(&self, p: usize) -> bool;

    /// What `position_repr` returns for a position.
    spec fn repr_spec(&self, p: usize) -> Self::PositionRepr;

    /// The position at which a parse of this input starts.
    fn start(&self) -> (p: usize)
        ensures
            p == self.start_spec(),
    ;

    /// Whether position `p` is at or past the end of the input.
    fn is_eof(&self, p: usize) -> (b: bool)
        ensures
            b == self.eof_spec(p),
    ;

    /// Human-readable rendering of position `p`.
    fn position_repr(&self, p: usize) -> (r: Self::PositionRepr)
        ensures
            r == self.repr_spec(p),
    ;
}

/// A parser input type supporting element-wise access.
pub trait ParseElem: Parse {
    /// Type of a single atomic element of the input, for example a character
    /// or token.
    type Element;

    /// What `parse_elem` returns at a position.
    spec fn elem_spec(&self, pos: usize) -> RuleResult<Self::Element>;

    /// Get the element at `pos`, or `Failed` if past end of input.
    fn parse_elem(&self, pos: usize) -> (r: RuleResult<Self::Element>)
        ensures
            r == self.elem_spec(pos),
    ;
}

/// A parser input type supporting literal-text matching.
pub trait ParseLiteral: Parse {
    /// What `parse_string_literal` returns at a position.
    spec fn literal_spec(&self, pos: usize, literal: &str) -> RuleResult<()>;

    /// Attempt to match the `literal` string at `pos`, returning whether it
    /// matched or failed.
    fn parse_string_literal(&self, pos: usize, literal: &str) -> (r: RuleResult<()>)
        ensures
            r == self.literal_spec(pos, literal),
    ;
}

/// A parser input type supporting slice extraction between two positions.
/// What the slice holds is each adapter's own affair; the concrete adapters
/// state it on their inherent methods.
pub trait ParseSlice: Parse {
    /// Type of a slice of the input.
    type Slice;

    /// Get a slice of input.
    fn parse_slice(&self, p1: usize, p2: usize) -> Self::Slice;
}

} // verus!
