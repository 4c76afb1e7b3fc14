//! Parse error reporting: the expected-token set, recovered-error records,
//! and the error-state engine threaded through every matcher invocation.
use vstd::prelude::*;

verus! {

use crate::{Parse, RuleResult, ParseResults, ParseResult};
use crate::input::str_eq;

/// A set of literals or names that failed to match.
///
/// Viewed as the set of label texts; duplicates collapse on insertion.
#[derive(PartialEq, Eq, Clone, Debug)]
pub struct ExpectedSet {
    expected: Vec<&'static str>,
}

impl View for ExpectedSet {
    type V = Set<Seq<char>>;

    closed spec fn view(&self) -> Set<Seq<char>> {
        Set::new(
            |t: Seq<char>|
                exists|i: int| 0 <= i < self.expected@.len() && self.expected@[i]@ == t,
        )
    }
}

impl ExpectedSet {
    /// No two stored labels render the same text, so each expected token is
    /// reported exactly once.
    pub closed spec fn inv(&self) -> bool {
        forall|i: int, j: int|
            0 <= i < j < self.expected@.len() ==> self.expected@[i]@ != self.expected@[j]@
    }

    /// The expected literals.  Every returned label is in the set, every
    /// member of the set is returned, and each one at most once.
    pub fn tokens(&self) -> (r: Vec<&'static str>)
        ensures
            forall|k: int| 0 <= k < r@.len() ==> self@.contains(#[trigger] r@[k]@),
            forall|t: Seq<char>| self@.contains(t) ==> exists|k: int| 0 <= k < r@.len() && r@[k]@ == t,
            self.inv() ==> forall|k: int, l: int| 0 <= k < l < r@.len() ==> r@[k]@ != r@[l]@,
    {
        let mut r: Vec<&'static str> = Vec::new();
        let mut i: usize = 0;
        while i < self.expected.len()
            invariant
                0 <= i <= self.expected@.len(),
                r@ == self.expected@.take(i as int),
            decreases self.expected@.len() - i,
        {
            r.push(self.expected[i]);
            assert(r@ =~= self.expected@.take(i + 1));
            i = i + 1;
        }
        assert(r@ =~= self.expected@);
        r
    }

    /// Construct a new singleton set.
    pub(crate) fn singleton(error: &'static str) -> (r: Self)
        ensures
            r@ == Set::<Seq<char>>::empty().insert(error@),
            r.inv(),
    {
        let mut expected: Vec<&'static str> = Vec::new();
        expected.push(error);
        let r = ExpectedSet { expected };
        proof {
            assert(r@ =~= Set::<Seq<char>>::empty().insert(error@)) by {
                assert(r.expected@[0]@ == error@);
            }
        }
        r
    }

    /// Insert a label; a label whose text is already present is dropped.
    pub(crate) fn insert(&mut self, s: &'static str)
        requires
            old(self).inv(),
        ensures
            final(self).inv(),
            final(self)@ == old(self)@.insert(s@),
    {
        let mut i: usize = 0;
        while i < self.expected.len()
            invariant
                0 <= i <= self.expected@.len(),
                forall|k: int| 0 <= k < i ==> self.expected@[k]@ != s@,
                self.inv(),
                self == old(self),
            decreases self.expected@.len() - i,
        {
            if str_eq(self.expected[i], s) {
                proof {
                    assert(self@ =~= old(self)@.insert(s@)) by {
                        assert(self.expected@[i as int]@ == s@);
                    }
                }
                return ;
            }
            i = i + 1;
        }
        self.expected.push(s);
        proof {
            assert(self@ =~= old(self)@.insert(s@)) by {
                assert(self.expected@[self.expected@.len() - 1]@ == s@);
                assert(forall|k: int| 0 <= k < self.expected@.len() - 1 ==>
                    self.expected@[k] == old(self).expected@[k]);
            }
        }
    }
}

/// A recovered or labelled parse error.
#[derive(PartialEq, Eq, PartialOrd, Ord, Clone, Copy, Hash, Debug)]
pub struct ParseErr<L> {
    /// The location at which the error occurred.
    pub location: L,
    /// The error reported.
    pub error: &'static str,
}

/// A parse failure.
#[derive(PartialEq, Eq, Clone, Debug)]
pub struct ParseError<L> {
    /// The furthest position the parser reached in the input.
    pub location: L,
    /// The set of literals that failed to match at that position.
    pub expected: ExpectedSet,
}

/// The mathematical content of an [`ErrorState`]: positions, flags, the
/// expected-label set and the recovered-error records.
pub struct StateModel {
    pub max_err_pos: usize,
    pub suppress_fail: usize,
    pub reparsing_on_failure: bool,
    pub expected: Set<Seq<char>>,
    pub errors: Seq<ParseErr<usize>>,
}

/// The error-state engine, one instance per parse attempt.
#[derive(Debug)]
pub struct ErrorState {
    /// Furthest failure we've hit so far.  Not relevant to errors.
    pub max_err_pos: usize,
    /// Are we inside a lookahead/quiet block?  If so, failure/error and
    /// recovery rules are disabled.  Non-zero means yes, to support nesting.
    pub suppress_fail: usize,
    /// Are we reparsing after a failure?  If so, compute and store the
    /// expected set of all alternative expectations when we are at offset
    /// `max_err_pos`.  Not required for errors.
    pub reparsing_on_failure: bool,
    /// The set of tokens we expected to find when we hit the failure.
    /// Updated when `reparsing_on_failure`.
    pub expected: ExpectedSet,
    /// The set of errors we have recovered from so far.
    pub errors: Vec<ParseErr<usize>>,
}

impl View for ErrorState {
    type V = StateModel;

    open spec fn view(&self) -> StateModel {
        StateModel {
            max_err_pos: self.max_err_pos,
            suppress_fail: self.suppress_fail,
            reparsing_on_failure: self.reparsing_on_failure,
            expected: self.expected@,
            errors: self.errors@,
        }
    }
}

/// What `mark_failure` does to the state: in a suppressed scope, nothing; when
/// reparsing, record the label if the failure sits exactly at the furthest
/// position; otherwise only push the furthest position forward.
pub open spec fn mark_failure_m(m: StateModel, pos: usize, expected: &'static str) -> StateModel {
    if m.suppress_fail != 0 {
        m
    } else if m.reparsing_on_failure {
        if pos == m.max_err_pos {
            StateModel { expected: m.expected.insert(expected@), ..m }
        } else {
            m
        }
    } else if pos > m.max_err_pos {
        StateModel { max_err_pos: pos, ..m }
    } else {
        m
    }
}

/// What `mark_error` does to the state: in a suppressed scope, nothing;
/// otherwise append the record to the recovered-error list.
pub open spec fn mark_error_m(m: StateModel, location: usize, error: &'static str) -> StateModel {
    if m.suppress_fail != 0 {
        m
    } else {
        StateModel { errors: m.errors.push(ParseErr { location, error }), ..m }
    }
}

/// The positions of a recovered-error list rendered through an input adapter.
pub open spec fn reprs_of<I: Parse + ?Sized>(
    errors: Seq<ParseErr<usize>>,
    input: &I,
) -> Seq<ParseErr<I::PositionRepr>> {
    errors.map_values(
        |e: ParseErr<usize>| (ParseErr { location: input.repr_spec(e.location), error: e.error }),
    )
}

impl ErrorState {
    /// A parse attempt starts with the furthest failure at the start position,
    /// no suppression, no expected labels and no recovered errors.
    pub fn new(initial_pos: usize) -> (r: Self)
        ensures
            r.max_err_pos == initial_pos,
            r.suppress_fail == 0,
            !r.reparsing_on_failure,
            r.expected@ == Set::<Seq<char>>::empty(),
            r.expected.inv(),
            r.errors@ == Seq::<ParseErr<usize>>::empty(),
    {
        let r = ErrorState {
            max_err_pos: initial_pos,
            suppress_fail: 0,
            reparsing_on_failure: false,
            expected: ExpectedSet { expected: Vec::new() },
            errors: Vec::new(),
        };
        proof {
            assert(r.expected@ =~= Set::<Seq<char>>::empty());
        }
        r
    }

    /// Set up for reparsing to record the details of the furthest failure.
    pub fn reparse_for_failure(&mut self)
        ensures
            final(self).suppress_fail == 0,
            final(self).reparsing_on_failure,
            final(self).max_err_pos == old(self).max_err_pos,
            final(self).expected == old(self).expected,
            final(self).errors == old(self).errors,
    {
        self.suppress_fail = 0;
        self.reparsing_on_failure = true;
    }

    fn mark_failure_slow_path(&mut self, pos: usize, expected: &'static str)
        requires
            old(self).expected.inv(),
            old(self).reparsing_on_failure,
            old(self).suppress_fail == 0,
        ensures
            final(self)@ == mark_failure_m(old(self)@, pos, expected),
            final(self).expected.inv(),
            final(self).max_err_pos == old(self).max_err_pos,
            final(self).suppress_fail == old(self).suppress_fail,
            final(self).reparsing_on_failure == old(self).reparsing_on_failure,
            final(self).errors == old(self).errors,
    {
        if pos == self.max_err_pos {
            self.expected.insert(expected);
        }
    }

    /// Flag a failure at `pos`, expecting `expected` there.  Always yields
    /// `Failed`; the bookkeeping depends on the pass and on suppression, as
    /// [`mark_failure_m`] states.
    pub fn mark_failure(&mut self, pos: usize, expected: &'static str) -> (r: RuleResult<()>)
        requires
            old(self).expected.inv(),
        ensures
            final(self)@ == mark_failure_m(old(self)@, pos, expected),
            final(self).expected.inv(),
            final(self).max_err_pos >= old(self).max_err_pos,
            final(self).suppress_fail == old(self).suppress_fail,
            final(self).reparsing_on_failure == old(self).reparsing_on_failure,
            final(self).errors == old(self).errors,
            r == RuleResult::<()>::Failed,
    {
        if self.suppress_fail == 0 {
            if self.reparsing_on_failure {
                self.mark_failure_slow_path(pos, expected);
            } else if pos > self.max_err_pos {
                self.max_err_pos = pos;
            }
        }
        RuleResult::Failed
    }

    /// Flag a recovered error at `location`, unless inside a suppressed scope.
    pub fn mark_error(&mut self, location: usize, error: &'static str)
        ensures
            final(self)@ == mark_error_m(old(self)@, location, error),
            final(self).expected == old(self).expected,
            final(self).max_err_pos == old(self).max_err_pos,
            final(self).suppress_fail == old(self).suppress_fail,
            final(self).reparsing_on_failure == old(self).reparsing_on_failure,
    {
        if self.suppress_fail == 0 {
            self.errors.push(ParseErr { location, error });
        }
    }

    /// Build a `Matched` parse result, carrying the recovered errors.
    pub fn into_matched<T, I: Parse + ?Sized>(self, v: T, input: &I) -> (r: ParseResults<
        T,
        I::PositionRepr,
    >)
        ensures
            r.result == ParseResult::<T, I::PositionRepr>::Matched(v),
            r.errors@ == reprs_of(self.errors@, input),
    {
        ParseResults {
            result: ParseResult::Matched(v),
            errors: errors_positioned_in(self.errors, input),
        }
    }

    /// Build a `Failed` parse result: the furthest failure position and the
    /// expected set, with the recovered errors alongside.
    pub fn into_failure<T, I: Parse + ?Sized>(self, input: &I) -> (r: ParseResults<
        T,
        I::PositionRepr,
    >)
        ensures
            r.result matches ParseResult::Failed(pe) && pe.location == input.repr_spec(
                self.max_err_pos,
            ) && pe.expected == self.expected,
            r.errors@ == reprs_of(self.errors@, input),
    {
        ParseResults {
            result: ParseResult::Failed(
                crate::error::ParseError {
                    expected: self.expected,
                    location: input.position_repr(self.max_err_pos),
                },
            ),
            errors: errors_positioned_in(self.errors, input),
        }
    }

    /// Build an `Error` parse result from an unrecovered labelled error.
    pub fn into_error<T, I: Parse + ?Sized>(self, error: ParseErr<usize>, input: &I) -> (r:
        ParseResults<T, I::PositionRepr>)
        ensures
            r.result matches ParseResult::Error(pe) && pe.location == input.repr_spec(
                error.location,
            ) && pe.error == error.error,
            r.errors@ == reprs_of(self.errors@, input),
    {
        ParseResults {
            result: ParseResult::Error(
                ParseErr { location: input.position_repr(error.location), error: error.error },
            ),
            errors: errors_positioned_in(self.errors, input),
        }
    }
}

/// Calculate locations of a set of parse errors.
fn errors_positioned_in<I: Parse + ?Sized>(errors: Vec<ParseErr<usize>>, input: &I) -> (r: Vec<
    ParseErr<I::PositionRepr>,
>)
    ensures
        r@ == reprs_of(errors@, input),
{
    let mut r: Vec<ParseErr<I::PositionRepr>> = Vec::new();
    let mut i: usize = 0;
    while i < errors.len()
        invariant
            0 <= i <= errors@.len(),
            r@ == reprs_of(errors@.take(i as int), input),
        decreases errors@.len() - i,
    {
        r.push(ParseErr { location: input.position_repr(errors[i].location), error: errors[i].error });
        assert(r@ =~= reprs_of(errors@.take(i + 1), input)) by {
            assert(errors@.take(i + 1).drop_last() =~= errors@.take(i as int));
        }
        i = i + 1;
    }
    assert(errors@.take(errors@.len() as int) =~= errors@);
    r
}

} // verus!
