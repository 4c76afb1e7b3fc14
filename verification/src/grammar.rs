//! The grammar model: rules, expressions, and structural validation.
use vstd::prelude::*;

verus! {

use crate::input::str_eq;

/// How a rule recurses into itself before consuming input.
#[derive(Clone, Copy, PartialEq, Eq, Structural, Debug)]
pub enum LeftRecursionClass {
    /// No leftmost path from the rule back to itself.
    NotRecursive,
    /// The rule's body refers to the rule itself in leftmost position.
    Direct,
    /// The rule sits in a leftmost-reference cycle through other rules.
    Indirect,
}

/// A parsing expression.  Sequences and choices are binary; longer ones nest
/// to the right.
pub enum Expr {
    /// Match the literal text.
    Literal(&'static str),
    /// Match one character inside (or, when negated, outside) the ranges.
    /// The label names the class in diagnostics.
    CharClass { ranges: Vec<(char, char)>, negated: bool, label: &'static str },
    /// Match any single element.
    AnyElement,
    /// Invoke another rule, by its index in the grammar.
    RuleRef(usize),
    /// Match the first part, then the second from where it ended.
    Sequence(Box<Expr>, Box<Expr>),
    /// Try the first alternative; on failure, the second from the same start.
    OrderedChoice(Box<Expr>, Box<Expr>),
    /// Match the inner expression at least `min` and, when bounded, at most
    /// `max` times.
    Repeat { inner: Box<Expr>, min: u64, max: Option<u64> },
    /// Match the inner expression, or succeed without consuming.
    Optional(Box<Expr>),
    /// Succeed exactly when the inner expression matches, never consuming.
    PositiveLookahead(Box<Expr>),
    /// Succeed exactly when the inner expression fails, never consuming.
    NegativeLookahead(Box<Expr>),
    /// Match the inner expression while keeping its failures out of
    /// diagnostics.
    Quiet(Box<Expr>),
    /// Match the inner expression; a code generator yields the matched slice.
    Capture(Box<Expr>),
    /// On the inner expression's failure, record the label as a recovered
    /// error and yield a labelled error instead of a silent failure.
    ErrorLabel(Box<Expr>, &'static str),
}

/// A named rule with its analyzer-computed annotations: the left-recursion
/// class, and whether the body can fail at all (a body that cannot lets a
/// code generator skip needless failure tracking).
pub struct Rule {
    pub name: &'static str,
    pub recursion: LeftRecursionClass,
    pub cannot_fail: bool,
    pub body: Expr,
}

/// An ordered, name-unique collection of rules with a designated entry point.
pub struct Grammar {
    pub rules: Vec<Rule>,
    pub start: usize,
}

/// Every rule reference in the expression names one of the grammar's `n`
/// rules.
pub open spec fn wf_expr(e: Expr, n: int) -> bool
    decreases e,
{
    match e {
        Expr::Literal(_) => true,
        Expr::CharClass { .. } => true,
        Expr::AnyElement => true,
        Expr::RuleRef(r) => r < n,
        Expr::Sequence(a, b) => wf_expr(*a, n) && wf_expr(*b, n),
        Expr::OrderedChoice(a, b) => wf_expr(*a, n) && wf_expr(*b, n),
        Expr::Repeat { inner, .. } => wf_expr(*inner, n),
        Expr::Optional(a) => wf_expr(*a, n),
        Expr::PositiveLookahead(a) => wf_expr(*a, n),
        Expr::NegativeLookahead(a) => wf_expr(*a, n),
        Expr::Quiet(a) => wf_expr(*a, n),
        Expr::Capture(a) => wf_expr(*a, n),
        Expr::ErrorLabel(a, _) => wf_expr(*a, n),
    }
}

/// The entry point exists and every rule reference is defined.
pub open spec fn wf_grammar(g: Grammar) -> bool {
    &&& g.start < g.rules.len()
    &&& forall|i: int|
        0 <= i < g.rules.len() ==> wf_expr(#[trigger] g.rules@[i].body, g.rules@.len() as int)
}

/// No two rules share a name.
pub open spec fn names_unique(g: Grammar) -> bool {
    forall|i: int, j: int|
        0 <= i < j < g.rules.len() ==> g.rules@[i].name@ != g.rules@[j].name@
}

/// A grammar-authoring error, fatal to generation.
#[derive(Clone, Copy, PartialEq, Eq, Structural, Debug)]
pub enum GrammarError {
    /// The rule at `rule` refers to a rule index the grammar does not define.
    UndefinedRule { rule: usize },
    /// Two rules render the same name.
    DuplicateName { first: usize, second: usize },
    /// The designated entry point is not a rule of the grammar.
    NoEntryPoint,
}

fn check_expr(e: &Expr, n: usize) -> (r: bool)
    ensures
        r == wf_expr(*e, n as int),
    decreases *e,
{
    match e {
        Expr::Literal(_) => true,
        Expr::CharClass { .. } => true,
        Expr::AnyElement => true,
        Expr::RuleRef(r) => *r < n,
        Expr::Sequence(a, b) => check_expr(a, n) && check_expr(b, n),
        Expr::OrderedChoice(a, b) => check_expr(a, n) && check_expr(b, n),
        Expr::Repeat { inner, .. } => check_expr(inner, n),
        Expr::Optional(a) => check_expr(a, n),
        Expr::PositiveLookahead(a) => check_expr(a, n),
        Expr::NegativeLookahead(a) => check_expr(a, n),
        Expr::Quiet(a) => check_expr(a, n),
        Expr::Capture(a) => check_expr(a, n),
        Expr::ErrorLabel(a, _) => check_expr(a, n),
    }
}

impl Grammar {
    /// Reject a structurally invalid grammar: an undefined rule reference, a
    /// duplicate rule name, or a missing entry point.  `Ok` exactly when the
    /// grammar is well-formed with unique names.
    pub fn validate(&self) -> (r: Result<(), GrammarError>)
        ensures
            r is Ok <==> (wf_grammar(*self) && names_unique(*self)),
            r matches Err(GrammarError::UndefinedRule { rule }) ==> rule < self.rules@.len()
                && !wf_expr(self.rules@[rule as int].body, self.rules@.len() as int),
            r matches Err(GrammarError::DuplicateName { first, second }) ==> first < second
                < self.rules@.len() && self.rules@[first as int].name@ == self.rules@[
                second as int].name@,
            r matches Err(GrammarError::NoEntryPoint) ==> self.start >= self.rules@.len(),
    {
        let n = self.rules.len();
        if self.start >= n {
            return Err(GrammarError::NoEntryPoint);
        }
        let mut i: usize = 0;
        while i < n
            invariant
                0 <= i <= n,
                n == self.rules@.len(),
                forall|k: int|
                    0 <= k < i ==> wf_expr(#[trigger] self.rules@[k].body, n as int),
            decreases n - i,
        {
            if !check_expr(&self.rules[i].body, n) {
                return Err(GrammarError::UndefinedRule { rule: i });
            }
            i = i + 1;
        }
        let mut a: usize = 0;
        while a < n
            invariant
                0 <= a <= n,
                n == self.rules@.len(),
                forall|k: int, l: int| 0 <= k < l < n && k < a ==> self.rules@[k].name@
                    != self.rules@[l].name@,
            decreases n - a,
        {
            let mut b: usize = a + 1;
            while b < n
                invariant
                    a < b <= n,
                    n == self.rules@.len(),
                    forall|l: int| a < l < b ==> self.rules@[a as int].name@ != self.rules@[
                        l].name@,
                decreases n - b,
            {
                if str_eq(self.rules[a].name, self.rules[b].name) {
                    return Err(GrammarError::DuplicateName { first: a, second: b });
                }
                b = b + 1;
            }
            a = a + 1;
        }
        Ok(())
    }
}

} // verus!
