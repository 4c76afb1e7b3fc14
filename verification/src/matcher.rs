//! The matcher engine: the backtracking semantics that every generated
//! matcher implements, written once against the runtime contract.
//!
//! The semantics is a function: [`eval`] maps a grammar, an expression, an
//! input and a start position to a result together with the ordered log of
//! diagnostic marks the attempt makes on the error state.  The executable
//! matchers return exactly `eval`'s result and apply exactly `eval`'s marks,
//! so every run over identical input yields an identical outcome.
use vstd::prelude::*;

verus! {

use crate::{RuleResult, ParseLiteral, ParseResults, ParseResult};
use crate::error::{ErrorState, StateModel, ParseErr, mark_failure_m, mark_error_m};
use crate::grammar::{Grammar, Expr, wf_expr, wf_grammar, LeftRecursionClass};
use crate::input::{CharsInput, LineCol, line_col_of};

/// The label reported when any single element was expected.
pub const ANY_EXPECTED: &'static str = "<element>";

/// The label reported when the end of input was expected.
pub const EOF_EXPECTED: &'static str = "<end of input>";

/// One diagnostic mark made on the error state: a silent failure, or a
/// recovered labelled error.
pub enum Mark {
    Fail(usize, &'static str),
    Recover(usize, &'static str),
}

/// What one attempt computes: its result, and the marks it makes, in order.
pub struct EvalOut {
    pub res: RuleResult<()>,
    pub log: Seq<Mark>,
}

/// A seed for the left-recursion fixpoint: recursive invocations of `rule` at
/// exactly `pos` answer with the previous iteration's end position instead of
/// recursing.
#[derive(Clone, Copy, PartialEq, Eq)]
pub struct Seed {
    pub rule: usize,
    pub pos: usize,
    pub end: Option<usize>,
}

/// The result a seed stands for: the previous best match, or failure.
pub open spec fn seed_result(s: Seed) -> RuleResult<()> {
    match s.end {
        Some(e) => RuleResult::Matched(e, ()),
        None => RuleResult::Failed,
    }
}

/// The best match a fixpoint iteration has found so far.
pub open spec fn cur_result(cur: Option<usize>) -> RuleResult<()> {
    match cur {
        Some(e) => RuleResult::Matched(e, ()),
        None => RuleResult::Failed,
    }
}

/// A result with no marks.
pub open spec fn silent(res: RuleResult<()>) -> EvalOut {
    EvalOut { res, log: Seq::empty() }
}

/// A single failure mark, unless the scope suppresses diagnostics.
pub open spec fn fail_mark(quiet: bool, pos: usize, label: &'static str) -> Seq<Mark> {
    if quiet {
        Seq::empty()
    } else {
        seq![Mark::Fail(pos, label)]
    }
}

/// Whether `c` falls in one of the ranges.
pub open spec fn class_contains(ranges: Seq<(char, char)>, c: char) -> bool {
    exists|i: int|
        0 <= i < ranges.len() && ranges[i].0 as u32 <= c as u32 && c as u32 <= ranges[i].1 as u32
}

/// A count incremented without wrapping.
pub open spec fn add1(c: u64) -> u64 {
    if c < u64::MAX {
        (c + 1) as u64
    } else {
        c
    }
}

/// A seed may only promise an end position inside the input and at or past
/// its own start.
pub open spec fn wf_seed(seed: Option<Seed>, inp: Seq<char>) -> bool {
    seed matches Some(s) ==> (s.end matches Some(e) ==> s.pos <= e <= inp.len())
}

/// The meaning of a parsing expression at `pos`: the result of the attempt
/// and the diagnostic marks it makes, in order.  `quiet` is true inside
/// lookahead and quiet scopes, whose marks are suppressed.  `fuel` bounds the
/// depth of the attempt; an exhausted budget reads as a silent failure, which
/// guards the engine against grammars whose recursion never consumes input.
pub open spec fn eval(
    g: Grammar,
    e: Expr,
    inp: Seq<char>,
    pos: usize,
    quiet: bool,
    seed: Option<Seed>,
    fuel: nat,
) -> EvalOut
    decreases fuel,
{
    if fuel == 0 {
        silent(RuleResult::Failed)
    } else {
        let f = (fuel - 1) as nat;
        match e {
            Expr::Literal(s) => if pos + s@.len() <= inp.len() && inp.subrange(
                pos as int,
                pos + s@.len(),
            ) == s@ {
                silent(RuleResult::Matched((pos + s@.len()) as usize, ()))
            } else {
                EvalOut { res: RuleResult::Failed, log: fail_mark(quiet, pos, s) }
            },
            Expr::CharClass { ranges, negated, label } => if pos < inp.len() && (class_contains(
                ranges@,
                inp[pos as int],
            ) != negated) {
                silent(RuleResult::Matched((pos + 1) as usize, ()))
            } else {
                EvalOut { res: RuleResult::Failed, log: fail_mark(quiet, pos, label) }
            },
            Expr::AnyElement => if pos < inp.len() {
                silent(RuleResult::Matched((pos + 1) as usize, ()))
            } else {
                EvalOut { res: RuleResult::Failed, log: fail_mark(quiet, pos, ANY_EXPECTED) }
            },
            Expr::RuleRef(r) => if seed matches Some(s) && s.rule == r && s.pos == pos {
                silent(seed_result(seed->Some_0))
            } else {
                eval_rule(g, r, inp, pos, quiet, seed, f)
            },
            Expr::Sequence(a, b) => {
                let oa = eval(g, *a, inp, pos, quiet, seed, f);
                match oa.res {
                    RuleResult::Matched(p1, _) => {
                        let ob = eval(g, *b, inp, p1, quiet, seed, f);
                        EvalOut { res: ob.res, log: oa.log + ob.log }
                    },
                    _ => oa,
                }
            },
            Expr::OrderedChoice(a, b) => {
                let oa = eval(g, *a, inp, pos, quiet, seed, f);
                match oa.res {
                    RuleResult::Failed => {
                        let ob = eval(g, *b, inp, pos, quiet, seed, f);
                        EvalOut { res: ob.res, log: oa.log + ob.log }
                    },
                    _ => oa,
                }
            },
            Expr::Repeat { inner, min, max } => eval_repeat(
                g,
                *inner,
                inp,
                pos,
                0,
                min,
                max,
                quiet,
                seed,
                f,
            ),
            Expr::Optional(a) => {
                let oa = eval(g, *a, inp, pos, quiet, seed, f);
                match oa.res {
                    RuleResult::Failed => EvalOut {
                        res: RuleResult::Matched(pos, ()),
                        log: oa.log,
                    },
                    _ => oa,
                }
            },
            Expr::PositiveLookahead(a) => {
                let oa = eval(g, *a, inp, pos, true, seed, f);
                match oa.res {
                    RuleResult::Matched(_, _) => EvalOut {
                        res: RuleResult::Matched(pos, ()),
                        log: oa.log,
                    },
                    RuleResult::Failed => EvalOut { res: RuleResult::Failed, log: oa.log },
                    RuleResult::Error(err) => EvalOut { res: RuleResult::Error(err), log: oa.log },
                }
            },
            Expr::NegativeLookahead(a) => {
                let oa = eval(g, *a, inp, pos, true, seed, f);
                match oa.res {
                    RuleResult::Matched(_, _) => EvalOut { res: RuleResult::Failed, log: oa.log },
                    RuleResult::Failed => EvalOut {
                        res: RuleResult::Matched(pos, ()),
                        log: oa.log,
                    },
                    RuleResult::Error(err) => EvalOut { res: RuleResult::Error(err), log: oa.log },
                }
            },
            Expr::Quiet(a) => eval(g, *a, inp, pos, true, seed, f),
            Expr::Capture(a) => eval(g, *a, inp, pos, quiet, seed, f),
            Expr::ErrorLabel(a, msg) => {
                let oa = eval(g, *a, inp, pos, quiet, seed, f);
                match oa.res {
                    RuleResult::Failed => if quiet {
                        EvalOut { res: RuleResult::Failed, log: oa.log }
                    } else {
                        EvalOut {
                            res: RuleResult::Error(ParseErr { location: pos, error: msg }),
                            log: oa.log.push(Mark::Recover(pos, msg)),
                        }
                    },
                    _ => oa,
                }
            },
        }
    }
}

/// The meaning of invoking a rule: a plain body evaluation for ordinary
/// rules, the seed-growing fixpoint for left-recursive ones.
pub open spec fn eval_rule(
    g: Grammar,
    r: usize,
    inp: Seq<char>,
    pos: usize,
    quiet: bool,
    seed: Option<Seed>,
    fuel: nat,
) -> EvalOut
    decreases fuel,
{
    if fuel == 0 || r >= g.rules.len() {
        silent(RuleResult::Failed)
    } else {
        let f = (fuel - 1) as nat;
        if g.rules@[r as int].recursion is NotRecursive {
            eval(g, g.rules@[r as int].body, inp, pos, quiet, seed, f)
        } else {
            eval_grow(g, r, inp, pos, quiet, None, f)
        }
    }
}

/// The seed-growing fixpoint: run the body with self-calls answered by the
/// best match so far, and iterate while the end position strictly advances.
pub open spec fn eval_grow(
    g: Grammar,
    r: usize,
    inp: Seq<char>,
    pos: usize,
    quiet: bool,
    cur: Option<usize>,
    fuel: nat,
) -> EvalOut
    decreases fuel,
{
    if fuel == 0 {
        silent(cur_result(cur))
    } else {
        let f = (fuel - 1) as nat;
        let out = eval(
            g,
            g.rules@[r as int].body,
            inp,
            pos,
            quiet,
            Some(Seed { rule: r, pos, end: cur }),
            f,
        );
        match out.res {
            RuleResult::Matched(np, _) => {
                let better = match cur {
                    Option::None => true,
                    Option::Some(e) => np > e,
                };
                if better {
                    let rec = eval_grow(g, r, inp, pos, quiet, Some(np), f);
                    EvalOut { res: rec.res, log: out.log + rec.log }
                } else {
                    EvalOut { res: cur_result(cur), log: out.log }
                }
            },
            RuleResult::Failed => EvalOut { res: cur_result(cur), log: out.log },
            RuleResult::Error(err) => EvalOut { res: RuleResult::Error(err), log: out.log },
        }
    }
}

/// The meaning of bounded repetition from `p` with `count` matches already
/// made: iterate while the inner expression matches and strictly advances;
/// an inner match that does not advance is kept for a single iteration.
pub open spec fn eval_repeat(
    g: Grammar,
    e: Expr,
    inp: Seq<char>,
    p: usize,
    count: u64,
    min: u64,
    max: Option<u64>,
    quiet: bool,
    seed: Option<Seed>,
    fuel: nat,
) -> EvalOut
    decreases fuel,
{
    if fuel == 0 {
        silent(RuleResult::Failed)
    } else if max matches Some(mx) && count >= mx {
        silent(RuleResult::Matched(p, ()))
    } else {
        let f = (fuel - 1) as nat;
        let out = eval(g, e, inp, p, quiet, seed, f);
        match out.res {
            RuleResult::Matched(np, _) => if np <= p {
                EvalOut {
                    res: if count as int + 1 >= min as int {
                        RuleResult::Matched(np, ())
                    } else {
                        RuleResult::Failed
                    },
                    log: out.log,
                }
            } else {
                let rec = eval_repeat(g, e, inp, np, add1(count), min, max, quiet, seed, f);
                EvalOut { res: rec.res, log: out.log + rec.log }
            },
            RuleResult::Failed => EvalOut {
                res: if count >= min {
                    RuleResult::Matched(p, ())
                } else {
                    RuleResult::Failed
                },
                log: out.log,
            },
            RuleResult::Error(err) => EvalOut { res: RuleResult::Error(err), log: out.log },
        }
    }
}

/// What one mark does to the error state.
pub open spec fn apply_mark(m: StateModel, k: Mark) -> StateModel {
    match k {
        Mark::Fail(pos, label) => mark_failure_m(m, pos, label),
        Mark::Recover(pos, label) => mark_error_m(m, pos, label),
    }
}

/// What a log of marks, applied in order, does to the error state.
pub open spec fn apply_marks(m: StateModel, log: Seq<Mark>) -> StateModel
    decreases log.len(),
{
    if log.len() == 0 {
        m
    } else {
        apply_marks(apply_mark(m, log[0]), log.drop_first())
    }
}

/// Applying a concatenation of logs applies the two logs in turn.
pub proof fn lemma_apply_marks_append(m: StateModel, l1: Seq<Mark>, l2: Seq<Mark>)
    ensures
        apply_marks(m, l1 + l2) == apply_marks(apply_marks(m, l1), l2),
    decreases l1.len(),
{
    if l1.len() == 0 {
        assert(l1 + l2 =~= l2);
    } else {
        assert((l1 + l2)[0] == l1[0]);
        assert((l1 + l2).drop_first() =~= l1.drop_first() + l2);
        lemma_apply_marks_append(apply_mark(m, l1[0]), l1.drop_first(), l2);
    }
}

/// Applying a single mark.
pub proof fn lemma_apply_marks_one(m: StateModel, k: Mark)
    ensures
        apply_marks(m, seq![k]) == apply_mark(m, k),
{
    assert(seq![k].drop_first() =~= Seq::<Mark>::empty());
    assert(seq![k][0] == k);
    assert(apply_marks(apply_mark(m, k), Seq::<Mark>::empty()) == apply_mark(m, k));
}

/// Marks touch only the diagnostic bookkeeping: the flags never change, the
/// furthest failure position never moves back, and while reparsing it does
/// not move at all.
pub proof fn lemma_apply_marks_frame(m: StateModel, log: Seq<Mark>)
    ensures
        apply_marks(m, log).suppress_fail == m.suppress_fail,
        apply_marks(m, log).reparsing_on_failure == m.reparsing_on_failure,
        apply_marks(m, log).max_err_pos >= m.max_err_pos,
        m.reparsing_on_failure ==> apply_marks(m, log).max_err_pos == m.max_err_pos,
        !m.reparsing_on_failure ==> apply_marks(m, log).expected == m.expected,
    decreases log.len(),
{
    if log.len() > 0 {
        lemma_apply_marks_frame(apply_mark(m, log[0]), log.drop_first());
    }
}

/// Inside a suppressed scope no mark is ever made: quiet and lookahead
/// scopes leave the error state untouched, whatever happens inside them.
pub proof fn lemma_eval_quiet_silent(
    g: Grammar,
    e: Expr,
    inp: Seq<char>,
    pos: usize,
    seed: Option<Seed>,
    fuel: nat,
)
    ensures
        eval(g, e, inp, pos, true, seed, fuel).log == Seq::<Mark>::empty(),
    decreases fuel,
{
    if fuel == 0 {
    } else {
        let f = (fuel - 1) as nat;
        let empty = Seq::<Mark>::empty();
        assert(empty + empty =~= empty);
        match e {
            Expr::Literal(_) => {},
            Expr::CharClass { .. } => {},
            Expr::AnyElement => {},
            Expr::RuleRef(r) => {
                if !(seed matches Some(s) && s.rule == r && s.pos == pos) {
                    lemma_eval_rule_quiet_silent(g, r, inp, pos, seed, f);
                }
            },
            Expr::Sequence(a, b) => {
                lemma_eval_quiet_silent(g, *a, inp, pos, seed, f);
                let oa = eval(g, *a, inp, pos, true, seed, f);
                if let RuleResult::Matched(p1, _) = oa.res {
                    lemma_eval_quiet_silent(g, *b, inp, p1, seed, f);
                }
            },
            Expr::OrderedChoice(a, b) => {
                lemma_eval_quiet_silent(g, *a, inp, pos, seed, f);
                let oa = eval(g, *a, inp, pos, true, seed, f);
                if oa.res is Failed {
                    lemma_eval_quiet_silent(g, *b, inp, pos, seed, f);
                }
            },
            Expr::Repeat { inner, min, max } => {
                lemma_eval_repeat_quiet_silent(g, *inner, inp, pos, 0, min, max, seed, f);
            },
            Expr::Optional(a) => {
                lemma_eval_quiet_silent(g, *a, inp, pos, seed, f);
            },
            Expr::PositiveLookahead(a) => {
                lemma_eval_quiet_silent(g, *a, inp, pos, seed, f);
            },
            Expr::NegativeLookahead(a) => {
                lemma_eval_quiet_silent(g, *a, inp, pos, seed, f);
            },
            Expr::Quiet(a) => {
                lemma_eval_quiet_silent(g, *a, inp, pos, seed, f);
            },
            Expr::Capture(a) => {
                lemma_eval_quiet_silent(g, *a, inp, pos, seed, f);
            },
            Expr::ErrorLabel(a, _) => {
                lemma_eval_quiet_silent(g, *a, inp, pos, seed, f);
            },
        }
    }
}

/// [`lemma_eval_quiet_silent`], for rule invocation.
pub proof fn lemma_eval_rule_quiet_silent(
    g: Grammar,
    r: usize,
    inp: Seq<char>,
    pos: usize,
    seed: Option<Seed>,
    fuel: nat,
)
    ensures
        eval_rule(g, r, inp, pos, true, seed, fuel).log == Seq::<Mark>::empty(),
    decreases fuel,
{
    if fuel == 0 || r >= g.rules.len() {
    } else {
        let f = (fuel - 1) as nat;
        if g.rules@[r as int].recursion is NotRecursive {
            lemma_eval_quiet_silent(g, g.rules@[r as int].body, inp, pos, seed, f);
        } else {
            lemma_eval_grow_quiet_silent(g, r, inp, pos, None, f);
        }
    }
}

/// [`lemma_eval_quiet_silent`], for the left-recursion fixpoint.
pub proof fn lemma_eval_grow_quiet_silent(
    g: Grammar,
    r: usize,
    inp: Seq<char>,
    pos: usize,
    cur: Option<usize>,
    fuel: nat,
)
    ensures
        eval_grow(g, r, inp, pos, true, cur, fuel).log == Seq::<Mark>::empty(),
    decreases fuel,
{
    if fuel == 0 {
    } else {
        let f = (fuel - 1) as nat;
        let empty = Seq::<Mark>::empty();
        assert(empty + empty =~= empty);
        let sd = Some(Seed { rule: r, pos, end: cur });
        lemma_eval_quiet_silent(g, g.rules@[r as int].body, inp, pos, sd, f);
        let out = eval(g, g.rules@[r as int].body, inp, pos, true, sd, f);
        if let RuleResult::Matched(np, _) = out.res {
            let better = match cur {
                Option::None => true,
                Option::Some(e) => np > e,
            };
            if better {
                lemma_eval_grow_quiet_silent(g, r, inp, pos, Some(np), f);
            }
        }
    }
}

/// Whether `c` falls in one of the ranges.
fn class_match(ranges: &Vec<(char, char)>, c: char) -> (r: bool)
    ensures
        r == class_contains(ranges@, c),
{
    let mut i: usize = 0;
    while i < ranges.len()
        invariant
            0 <= i <= ranges@.len(),
            forall|k: int|
                0 <= k < i ==> !((#[trigger] ranges@[k]).0 as u32 <= c as u32 && c as u32
                    <= ranges@[k].1 as u32),
        decreases ranges@.len() - i,
    {
        let (lo, hi) = ranges[i];
        if lo as u32 <= c as u32 && c as u32 <= hi as u32 {
            return true;
        }
        i = i + 1;
    }
    false
}

/// Run one parsing expression at `pos`.  Returns exactly [`eval`]'s result
/// and applies exactly its diagnostic marks to the error state.
pub fn match_expr(
    g: &Grammar,
    e: &Expr,
    input: &CharsInput,
    pos: usize,
    quiet: bool,
    seed: Option<Seed>,
    st: &mut ErrorState,
    fuel: u64,
) -> (r: RuleResult<()>)
    requires
        wf_grammar(*g),
        wf_expr(*e, g.rules@.len() as int),
        pos <= input@.len(),
        old(st).expected.inv(),
        wf_seed(seed, input@),
    ensures
        ({
            let out = eval(*g, *e, input@, pos, quiet, seed, fuel as nat);
            r == out.res && final(st)@ == apply_marks(old(st)@, out.log)
        }),
        final(st).expected.inv(),
        r matches RuleResult::Matched(np, _) ==> pos <= np <= input@.len(),
    decreases fuel,
{
    if fuel == 0 {
        return RuleResult::Failed;
    }
    let ghost m0 = st@;
    let ghost f = (fuel - 1) as nat;
    match e {
        Expr::Literal(s) => {
            proof {
                input.len_bound();
            }
            let lr = input.parse_string_literal(pos, s);
            match lr {
                RuleResult::Matched(_, _) => lr,
                _ => {
                    if quiet {
                        RuleResult::Failed
                    } else {
                        let r2 = st.mark_failure(pos, s);
                        proof {
                            lemma_apply_marks_one(m0, Mark::Fail(pos, *s));
                        }
                        r2
                    }
                },
            }
        },
        Expr::CharClass { ranges, negated, label } => {
            if pos < input.len() {
                let c = input.char_at(pos);
                if class_match(ranges, c) != *negated {
                    return RuleResult::Matched(pos + 1, ());
                }
            }
            if quiet {
                RuleResult::Failed
            } else {
                let r2 = st.mark_failure(pos, label);
                proof {
                    lemma_apply_marks_one(m0, Mark::Fail(pos, *label));
                }
                r2
            }
        },
        Expr::AnyElement => {
            if pos < input.len() {
                RuleResult::Matched(pos + 1, ())
            } else if quiet {
                RuleResult::Failed
            } else {
                let r2 = st.mark_failure(pos, ANY_EXPECTED);
                proof {
                    lemma_apply_marks_one(m0, Mark::Fail(pos, ANY_EXPECTED));
                }
                r2
            }
        },
        Expr::RuleRef(rr) => {
            if let Some(s) = seed {
                if s.rule == *rr && s.pos == pos {
                    return match s.end {
                        Some(e2) => RuleResult::Matched(e2, ()),
                        None => RuleResult::Failed,
                    };
                }
            }
            match_rule(g, input, *rr, pos, quiet, seed, st, fuel - 1)
        },
        Expr::Sequence(a, b) => {
            let ra = match_expr(g, a, input, pos, quiet, seed, st, fuel - 1);
            match ra {
                RuleResult::Matched(p1, _) => {
                    let rb = match_expr(g, b, input, p1, quiet, seed, st, fuel - 1);
                    proof {
                        let oa = eval(*g, **a, input@, pos, quiet, seed, f);
                        let ob = eval(*g, **b, input@, p1, quiet, seed, f);
                        lemma_apply_marks_append(m0, oa.log, ob.log);
                    }
                    rb
                },
                _ => ra,
            }
        },
        Expr::OrderedChoice(a, b) => {
            let ra = match_expr(g, a, input, pos, quiet, seed, st, fuel - 1);
            match ra {
                RuleResult::Failed => {
                    let rb = match_expr(g, b, input, pos, quiet, seed, st, fuel - 1);
                    proof {
                        let oa = eval(*g, **a, input@, pos, quiet, seed, f);
                        let ob = eval(*g, **b, input@, pos, quiet, seed, f);
                        lemma_apply_marks_append(m0, oa.log, ob.log);
                    }
                    rb
                },
                _ => ra,
            }
        },
        Expr::Repeat { inner, min, max } => match_repeat(
            g,
            inner,
            input,
            pos,
            0,
            *min,
            *max,
            quiet,
            seed,
            st,
            fuel - 1,
        ),
        Expr::Optional(a) => {
            let ra = match_expr(g, a, input, pos, quiet, seed, st, fuel - 1);
            match ra {
                RuleResult::Failed => RuleResult::Matched(pos, ()),
                _ => ra,
            }
        },
        Expr::PositiveLookahead(a) => {
            let ra = match_expr(g, a, input, pos, true, seed, st, fuel - 1);
            match ra {
                RuleResult::Matched(_, _) => RuleResult::Matched(pos, ()),
                RuleResult::Failed => RuleResult::Failed,
                RuleResult::Error(err) => RuleResult::Error(err),
            }
        },
        Expr::NegativeLookahead(a) => {
            let ra = match_expr(g, a, input, pos, true, seed, st, fuel - 1);
            match ra {
                RuleResult::Matched(_, _) => RuleResult::Failed,
                RuleResult::Failed => RuleResult::Matched(pos, ()),
                RuleResult::Error(err) => RuleResult::Error(err),
            }
        },
        Expr::Quiet(a) => match_expr(g, a, input, pos, true, seed, st, fuel - 1),
        Expr::Capture(a) => match_expr(g, a, input, pos, quiet, seed, st, fuel - 1),
        Expr::ErrorLabel(a, msg) => {
            let ra = match_expr(g, a, input, pos, quiet, seed, st, fuel - 1);
            match ra {
                RuleResult::Failed => {
                    if quiet {
                        RuleResult::Failed
                    } else {
                        let ghost m1 = st@;
                        st.mark_error(pos, msg);
                        proof {
                            let oa = eval(*g, **a, input@, pos, quiet, seed, f);
                            let k = Mark::Recover(pos, *msg);
                            assert(oa.log.push(k) =~= oa.log + seq![k]);
                            lemma_apply_marks_append(m0, oa.log, seq![k]);
                            lemma_apply_marks_one(m1, k);
                        }
                        RuleResult::Error(ParseErr { location: pos, error: msg })
                    }
                },
                _ => ra,
            }
        },
    }
}

/// Invoke a rule at `pos`: a plain body evaluation for ordinary rules, the
/// seed-growing fixpoint for left-recursive ones.
pub fn match_rule(
    g: &Grammar,
    input: &CharsInput,
    r: usize,
    pos: usize,
    quiet: bool,
    seed: Option<Seed>,
    st: &mut ErrorState,
    fuel: u64,
) -> (res: RuleResult<()>)
    requires
        wf_grammar(*g),
        r < g.rules@.len(),
        pos <= input@.len(),
        old(st).expected.inv(),
        wf_seed(seed, input@),
    ensures
        ({
            let out = eval_rule(*g, r, input@, pos, quiet, seed, fuel as nat);
            res == out.res && final(st)@ == apply_marks(old(st)@, out.log)
        }),
        final(st).expected.inv(),
        res matches RuleResult::Matched(np, _) ==> pos <= np <= input@.len(),
    decreases fuel,
{
    if fuel == 0 {
        return RuleResult::Failed;
    }
    proof {
        assert(wf_expr(g.rules@[r as int].body, g.rules@.len() as int));
    }
    let not_recursive = match g.rules[r].recursion {
        LeftRecursionClass::NotRecursive => true,
        _ => false,
    };
    if not_recursive {
        match_expr(g, &g.rules[r].body, input, pos, quiet, seed, st, fuel - 1)
    } else {
        match_grow(g, input, r, pos, quiet, None, st, fuel - 1)
    }
}

/// The seed-growing fixpoint for a left-recursive rule: run the body with
/// self-calls at `pos` answered by the best match so far, and iterate while
/// the end position strictly advances.  The iteration count is bounded by the
/// budget, and each round must consume further input.
pub fn match_grow(
    g: &Grammar,
    input: &CharsInput,
    r: usize,
    pos: usize,
    quiet: bool,
    cur: Option<usize>,
    st: &mut ErrorState,
    fuel: u64,
) -> (res: RuleResult<()>)
    requires
        wf_grammar(*g),
        r < g.rules@.len(),
        pos <= input@.len(),
        old(st).expected.inv(),
        cur matches Some(e) ==> pos <= e <= input@.len(),
    ensures
        ({
            let out = eval_grow(*g, r, input@, pos, quiet, cur, fuel as nat);
            res == out.res && final(st)@ == apply_marks(old(st)@, out.log)
        }),
        final(st).expected.inv(),
        res matches RuleResult::Matched(np, _) ==> pos <= np <= input@.len(),
    decreases fuel,
{
    if fuel == 0 {
        return match cur {
            Some(e) => RuleResult::Matched(e, ()),
            None => RuleResult::Failed,
        };
    }
    let ghost m0 = st@;
    let ghost f = (fuel - 1) as nat;
    proof {
        assert(wf_expr(g.rules@[r as int].body, g.rules@.len() as int));
    }
    let sd = Some(Seed { rule: r, pos, end: cur });
    let ra = match_expr(g, &g.rules[r].body, input, pos, quiet, sd, st, fuel - 1);
    match ra {
        RuleResult::Matched(np, _) => {
            let better = match cur {
                Some(e) => np > e,
                None => true,
            };
            if better {
                let res2 = match_grow(g, input, r, pos, quiet, Some(np), st, fuel - 1);
                proof {
                    let out1 = eval(*g, g.rules@[r as int].body, input@, pos, quiet, sd, f);
                    let out2 = eval_grow(*g, r, input@, pos, quiet, Some(np), f);
                    lemma_apply_marks_append(m0, out1.log, out2.log);
                }
                res2
            } else {
                match cur {
                    Some(e) => RuleResult::Matched(e, ()),
                    None => vstd::pervasive::unreached(),
                }
            }
        },
        RuleResult::Failed => match cur {
            Some(e) => RuleResult::Matched(e, ()),
            None => RuleResult::Failed,
        },
        RuleResult::Error(err) => RuleResult::Error(err),
    }
}

/// Bounded repetition from `p`, with `count` matches already made.
pub fn match_repeat(
    g: &Grammar,
    e: &Expr,
    input: &CharsInput,
    p: usize,
    count: u64,
    min: u64,
    max: Option<u64>,
    quiet: bool,
    seed: Option<Seed>,
    st: &mut ErrorState,
    fuel: u64,
) -> (res: RuleResult<()>)
    requires
        wf_grammar(*g),
        wf_expr(*e, g.rules@.len() as int),
        p <= input@.len(),
        old(st).expected.inv(),
        wf_seed(seed, input@),
        count as int + fuel as int <= u64::MAX as int,
    ensures
        ({
            let out = eval_repeat(*g, *e, input@, p, count, min, max, quiet, seed, fuel as nat);
            res == out.res && final(st)@ == apply_marks(old(st)@, out.log)
        }),
        final(st).expected.inv(),
        res matches RuleResult::Matched(np, _) ==> p <= np <= input@.len(),
    decreases fuel,
{
    if fuel == 0 {
        return RuleResult::Failed;
    }
    if let Some(mx) = max {
        if count >= mx {
            return RuleResult::Matched(p, ());
        }
    }
    let ghost m0 = st@;
    let ghost f = (fuel - 1) as nat;
    let ra = match_expr(g, e, input, p, quiet, seed, st, fuel - 1);
    match ra {
        RuleResult::Matched(np, _) => {
            if np <= p {
                if count + 1 >= min {
                    RuleResult::Matched(np, ())
                } else {
                    RuleResult::Failed
                }
            } else {
                let res2 = match_repeat(
                    g,
                    e,
                    input,
                    np,
                    count + 1,
                    min,
                    max,
                    quiet,
                    seed,
                    st,
                    fuel - 1,
                );
                proof {
                    let out1 = eval(*g, *e, input@, p, quiet, seed, f);
                    let out2 = eval_repeat(
                        *g,
                        *e,
                        input@,
                        np,
                        add1(count),
                        min,
                        max,
                        quiet,
                        seed,
                        f,
                    );
                    lemma_apply_marks_append(m0, out1.log, out2.log);
                }
                res2
            }
        },
        RuleResult::Failed => {
            if count >= min {
                RuleResult::Matched(p, ())
            } else {
                RuleResult::Failed
            }
        },
        RuleResult::Error(err) => RuleResult::Error(err),
    }
}

/// Determinism: a matcher's result is a function of the grammar, input,
/// position, scope and budget alone.  Two invocations of a rule with the same
/// arguments yield the same primary result, whatever error state each one
/// threads — the executable matchers return exactly [`eval_rule`]'s result.
pub proof fn lemma_match_deterministic(
    g: Grammar,
    r: usize,
    inp: Seq<char>,
    pos: usize,
    quiet: bool,
    seed: Option<Seed>,
    fuel: nat,
    r1: RuleResult<()>,
    r2: RuleResult<()>,
)
    requires
        r1 == eval_rule(g, r, inp, pos, quiet, seed, fuel).res,
        r2 == eval_rule(g, r, inp, pos, quiet, seed, fuel).res,
    ensures
        r1 == r2,
{
}

/// Choice priority: whenever the first alternative's own attempt does not
/// fail, the ordered choice adopts its result, independent of what the second
/// alternative would do.
pub proof fn lemma_choice_priority(
    g: Grammar,
    e: Expr,
    inp: Seq<char>,
    pos: usize,
    quiet: bool,
    seed: Option<Seed>,
    fuel: nat,
)
    requires
        e is OrderedChoice,
        fuel >= 1,
        !(eval(g, *e->OrderedChoice_0, inp, pos, quiet, seed, (fuel - 1) as nat).res is Failed),
    ensures
        eval(g, e, inp, pos, quiet, seed, fuel).res == eval(
            g,
            *e->OrderedChoice_0,
            inp,
            pos,
            quiet,
            seed,
            (fuel - 1) as nat,
        ).res,
{
}

/// Sequence position law: a successful sequence ends where its last element
/// ended, evaluated from where the first element ended.  (A failing element
/// yields a bare failure, so the surrounding attempt resumes at whatever
/// position it had saved: nothing of the partial progress survives.)
pub proof fn lemma_sequence_positions(
    g: Grammar,
    e: Expr,
    inp: Seq<char>,
    pos: usize,
    quiet: bool,
    seed: Option<Seed>,
    fuel: nat,
    np: usize,
)
    requires
        e is Sequence,
        eval(g, e, inp, pos, quiet, seed, fuel).res == RuleResult::Matched(np, ()),
    ensures
        exists|p1: usize|
            eval(g, *e->Sequence_0, inp, pos, quiet, seed, (fuel - 1) as nat).res
                == RuleResult::Matched(p1, ()) && eval(
                g,
                *e->Sequence_1,
                inp,
                p1,
                quiet,
                seed,
                (fuel - 1) as nat,
            ).res == RuleResult::Matched(np, ()),
{
    if fuel == 0 {
        assert(false);
    } else {
        let f = (fuel - 1) as nat;
        let a = *e->Sequence_0;
        let b = *e->Sequence_1;
        let oa = eval(g, a, inp, pos, quiet, seed, f);
        match oa.res {
            RuleResult::Matched(p1, u) => {
                assert(u == ());
                assert(eval(g, e, inp, pos, quiet, seed, fuel).res == eval(
                    g,
                    b,
                    inp,
                    p1,
                    quiet,
                    seed,
                    f,
                ).res);
                assert(eval(g, a, inp, pos, quiet, seed, f).res == RuleResult::Matched(p1, ())
                    && eval(g, b, inp, p1, quiet, seed, f).res == RuleResult::Matched(np, ()));
            },
            _ => {
                assert(false);
            },
        }
    }
}

/// Lookahead non-advancement: a lookahead that succeeds ends exactly where it
/// started, and a negative lookahead succeeds exactly when its inner
/// expression fails.
pub proof fn lemma_lookahead_no_advance(
    g: Grammar,
    e: Expr,
    inp: Seq<char>,
    pos: usize,
    quiet: bool,
    seed: Option<Seed>,
    fuel: nat,
)
    requires
        e is PositiveLookahead || e is NegativeLookahead,
    ensures
        eval(g, e, inp, pos, quiet, seed, fuel).res matches RuleResult::Matched(np, _) ==> np
            == pos,
        e is NegativeLookahead && fuel >= 1 ==> ((eval(g, e, inp, pos, quiet, seed, fuel).res
            is Matched) <==> (eval(
            g,
            *e->NegativeLookahead_0,
            inp,
            pos,
            true,
            seed,
            (fuel - 1) as nat,
        ).res is Failed)),
{
}

/// Quiet suppression: a quiet scope leaves the error state exactly as it
/// was — no failure inside it can reach the expected set of an enclosing
/// parse — though its result may still be a failure.
pub proof fn lemma_quiet_no_expected(
    g: Grammar,
    e: Expr,
    inp: Seq<char>,
    pos: usize,
    quiet: bool,
    seed: Option<Seed>,
    fuel: nat,
    m: StateModel,
)
    requires
        e is Quiet,
    ensures
        apply_marks(m, eval(g, e, inp, pos, quiet, seed, fuel).log) == m,
{
    if fuel >= 1 {
        lemma_eval_quiet_silent(g, *e->Quiet_0, inp, pos, seed, (fuel - 1) as nat);
    }
}

/// A match never moves the position backwards, nor past the end of the
/// input.
pub proof fn lemma_eval_in_bounds(
    g: Grammar,
    e: Expr,
    inp: Seq<char>,
    pos: usize,
    quiet: bool,
    seed: Option<Seed>,
    fuel: nat,
)
    requires
        pos <= inp.len() <= usize::MAX,
        wf_seed(seed, inp),
    ensures
        eval(g, e, inp, pos, quiet, seed, fuel).res matches RuleResult::Matched(np, _) ==> pos
            <= np <= inp.len(),
    decreases fuel,
{
    if fuel == 0 {
    } else {
        let f = (fuel - 1) as nat;
        match e {
            Expr::Literal(_) => {},
            Expr::CharClass { .. } => {},
            Expr::AnyElement => {},
            Expr::RuleRef(r) => {
                if !(seed matches Some(s) && s.rule == r && s.pos == pos) {
                    lemma_eval_rule_in_bounds(g, r, inp, pos, quiet, seed, f);
                }
            },
            Expr::Sequence(a, b) => {
                lemma_eval_in_bounds(g, *a, inp, pos, quiet, seed, f);
                let oa = eval(g, *a, inp, pos, quiet, seed, f);
                if let RuleResult::Matched(p1, _) = oa.res {
                    lemma_eval_in_bounds(g, *b, inp, p1, quiet, seed, f);
                }
            },
            Expr::OrderedChoice(a, b) => {
                lemma_eval_in_bounds(g, *a, inp, pos, quiet, seed, f);
                lemma_eval_in_bounds(g, *b, inp, pos, quiet, seed, f);
            },
            Expr::Repeat { inner, min, max } => {
                lemma_eval_repeat_in_bounds(g, *inner, inp, pos, 0, min, max, quiet, seed, f);
            },
            Expr::Optional(a) => {
                lemma_eval_in_bounds(g, *a, inp, pos, quiet, seed, f);
            },
            Expr::PositiveLookahead(_) => {},
            Expr::NegativeLookahead(_) => {},
            Expr::Quiet(a) => {
                lemma_eval_in_bounds(g, *a, inp, pos, true, seed, f);
            },
            Expr::Capture(a) => {
                lemma_eval_in_bounds(g, *a, inp, pos, quiet, seed, f);
            },
            Expr::ErrorLabel(a, _) => {
                lemma_eval_in_bounds(g, *a, inp, pos, quiet, seed, f);
            },
        }
    }
}

/// [`lemma_eval_in_bounds`], for rule invocation.
pub proof fn lemma_eval_rule_in_bounds(
    g: Grammar,
    r: usize,
    inp: Seq<char>,
    pos: usize,
    quiet: bool,
    seed: Option<Seed>,
    fuel: nat,
)
    requires
        pos <= inp.len() <= usize::MAX,
        wf_seed(seed, inp),
    ensures
        eval_rule(g, r, inp, pos, quiet, seed, fuel).res matches RuleResult::Matched(np, _) ==> pos
            <= np <= inp.len(),
    decreases fuel,
{
    if fuel == 0 || r >= g.rules.len() {
    } else {
        let f = (fuel - 1) as nat;
        if g.rules@[r as int].recursion is NotRecursive {
            lemma_eval_in_bounds(g, g.rules@[r as int].body, inp, pos, quiet, seed, f);
        } else {
            lemma_eval_grow_in_bounds(g, r, inp, pos, quiet, None, f);
        }
    }
}

/// [`lemma_eval_in_bounds`], for the left-recursion fixpoint.
pub proof fn lemma_eval_grow_in_bounds(
    g: Grammar,
    r: usize,
    inp: Seq<char>,
    pos: usize,
    quiet: bool,
    cur: Option<usize>,
    fuel: nat,
)
    requires
        pos <= inp.len() <= usize::MAX,
        cur matches Some(e) ==> pos <= e <= inp.len(),
    ensures
        eval_grow(g, r, inp, pos, quiet, cur, fuel).res matches RuleResult::Matched(np, _) ==> pos
            <= np <= inp.len(),
    decreases fuel,
{
    if fuel == 0 {
    } else {
        let f = (fuel - 1) as nat;
        let sd = Some(Seed { rule: r, pos, end: cur });
        lemma_eval_in_bounds(g, g.rules@[r as int].body, inp, pos, quiet, sd, f);
        let out = eval(g, g.rules@[r as int].body, inp, pos, quiet, sd, f);
        if let RuleResult::Matched(np, _) = out.res {
            let better = match cur {
                Option::None => true,
                Option::Some(e) => np > e,
            };
            if better {
                lemma_eval_grow_in_bounds(g, r, inp, pos, quiet, Some(np), f);
            }
        }
    }
}

/// [`lemma_eval_in_bounds`], for repetition.
pub proof fn lemma_eval_repeat_in_bounds(
    g: Grammar,
    e: Expr,
    inp: Seq<char>,
    p: usize,
    count: u64,
    min: u64,
    max: Option<u64>,
    quiet: bool,
    seed: Option<Seed>,
    fuel: nat,
)
    requires
        p <= inp.len() <= usize::MAX,
        wf_seed(seed, inp),
    ensures
        eval_repeat(g, e, inp, p, count, min, max, quiet, seed, fuel).res matches
            RuleResult::Matched(np, _) ==> p <= np <= inp.len(),
    decreases fuel,
{
    if fuel == 0 {
    } else if max matches Some(mx) && count >= mx {
    } else {
        let f = (fuel - 1) as nat;
        lemma_eval_in_bounds(g, e, inp, p, quiet, seed, f);
        let out = eval(g, e, inp, p, quiet, seed, f);
        if let RuleResult::Matched(np, _) = out.res {
            if np > p {
                lemma_eval_repeat_in_bounds(g, e, inp, np, add1(count), min, max, quiet, seed, f);
            }
        }
    }
}

/// The furthest failure position a log pushes a starting position to.
pub open spec fn furthest_fail(d: usize, log: Seq<Mark>) -> usize
    decreases log.len(),
{
    if log.len() == 0 {
        d
    } else {
        let d2 = match log[0] {
            Mark::Fail(p, _) => if p > d {
                p
            } else {
                d
            },
            Mark::Recover(_, _) => d,
        };
        furthest_fail(d2, log.drop_first())
    }
}

/// The labels of the failures a log records exactly at `p`.
pub open spec fn labels_at(p: usize, log: Seq<Mark>) -> Set<Seq<char>>
    decreases log.len(),
{
    if log.len() == 0 {
        Set::empty()
    } else {
        let rest = labels_at(p, log.drop_first());
        match log[0] {
            Mark::Fail(q, lab) => if q == p {
                rest.insert(lab@)
            } else {
                rest
            },
            Mark::Recover(_, _) => rest,
        }
    }
}

/// The furthest failure position never moves back.
proof fn lemma_furthest_fail_grows(d: usize, log: Seq<Mark>)
    ensures
        furthest_fail(d, log) >= d,
    decreases log.len(),
{
    if log.len() > 0 {
        let d2 = match log[0] {
            Mark::Fail(p, _) => if p > d {
                p
            } else {
                d
            },
            Mark::Recover(_, _) => d,
        };
        lemma_furthest_fail_grows(d2, log.drop_first());
    }
}

/// In the first pass, a log only pushes the furthest failure position
/// forward; the expected set stays untouched.
pub proof fn lemma_normal_pass(m: StateModel, log: Seq<Mark>)
    requires
        !m.reparsing_on_failure,
        m.suppress_fail == 0,
    ensures
        apply_marks(m, log).max_err_pos == furthest_fail(m.max_err_pos, log),
        apply_marks(m, log).expected == m.expected,
    decreases log.len(),
{
    if log.len() > 0 {
        lemma_normal_pass(apply_mark(m, log[0]), log.drop_first());
    }
}

/// In the diagnostic pass, a log adds to the expected set exactly the labels
/// of the failures that sit at the furthest failure position, which itself
/// stays put.
pub proof fn lemma_reparse_pass(m: StateModel, log: Seq<Mark>)
    requires
        m.reparsing_on_failure,
        m.suppress_fail == 0,
    ensures
        apply_marks(m, log).expected =~= m.expected.union(labels_at(m.max_err_pos, log)),
        apply_marks(m, log).max_err_pos == m.max_err_pos,
    decreases log.len(),
{
    if log.len() > 0 {
        let m2 = apply_mark(m, log[0]);
        lemma_reparse_pass(m2, log.drop_first());
        assert(m2.expected.union(labels_at(m.max_err_pos, log.drop_first())) =~= m.expected.union(
            labels_at(m.max_err_pos, log),
        ));
    }
}

/// One failure mark of a hypothetical single combined pass, which tracks the
/// furthest failure position and the labels seen exactly there together: a
/// farther failure starts the set afresh, one at the current furthest
/// position joins it, a nearer one is ignored.
pub open spec fn combined_mark(max_err_pos: usize, s: Set<Seq<char>>, k: Mark) -> (
    usize,
    Set<Seq<char>>,
) {
    match k {
        Mark::Fail(p, lab) => if p > max_err_pos {
            (p, Set::empty().insert(lab@))
        } else if p == max_err_pos {
            (max_err_pos, s.insert(lab@))
        } else {
            (max_err_pos, s)
        },
        Mark::Recover(_, _) => (max_err_pos, s),
    }
}

/// A whole log, applied as the hypothetical single combined pass.
pub open spec fn combined_pass(max_err_pos: usize, s: Set<Seq<char>>, log: Seq<Mark>) -> (
    usize,
    Set<Seq<char>>,
)
    decreases log.len(),
{
    if log.len() == 0 {
        (max_err_pos, s)
    } else {
        let st2 = combined_mark(max_err_pos, s, log[0]);
        combined_pass(st2.0, st2.1, log.drop_first())
    }
}

/// What the combined pass computes: the furthest failure position of the
/// log, and the labels recorded exactly there — plus the starting set, if
/// nothing got farther.
proof fn lemma_combined_pass(max_err_pos: usize, s: Set<Seq<char>>, log: Seq<Mark>)
    ensures
        combined_pass(max_err_pos, s, log).0 == furthest_fail(max_err_pos, log),
        combined_pass(max_err_pos, s, log).1 =~= (
        if furthest_fail(max_err_pos, log) == max_err_pos {
            s
        } else {
            Set::<Seq<char>>::empty()
        }).union(labels_at(furthest_fail(max_err_pos, log), log)),
    decreases log.len(),
{
    if log.len() > 0 {
        let st2 = combined_mark(max_err_pos, s, log[0]);
        lemma_combined_pass(st2.0, st2.1, log.drop_first());
        lemma_furthest_fail_grows(st2.0, log.drop_first());
    }
}

/// Reparse stability: the expected set that the diagnostic second pass
/// collects equals the one a hypothetical single combined pass would have
/// collected over the same attempt.  The two passes see the same log because
/// evaluation never reads the error state it marks.
pub proof fn lemma_reparse_stability(g: Grammar, inp: Seq<char>, fuel: nat)
    ensures
        ({
            let log = top_out(g, inp, fuel).log;
            let m1 = apply_marks(initial_model(), log);
            let m2 = apply_marks(reparse_model(m1.max_err_pos), log);
            m2.expected == combined_pass(0, Set::empty(), log).1
        }),
{
    let log = top_out(g, inp, fuel).log;
    let m1 = apply_marks(initial_model(), log);
    let m2 = apply_marks(reparse_model(m1.max_err_pos), log);
    lemma_normal_pass(initial_model(), log);
    lemma_reparse_pass(reparse_model(m1.max_err_pos), log);
    lemma_combined_pass(0, Set::empty(), log);
    assert(m2.expected =~= combined_pass(0, Set::empty(), log).1);
}

/// A whole top-level attempt: invoke the entry rule from the input's start;
/// a match that leaves input behind fails, expecting the end of input there.
pub open spec fn top_out(g: Grammar, inp: Seq<char>, fuel: nat) -> EvalOut {
    let out = eval_rule(g, g.start, inp, 0, false, None, fuel);
    match out.res {
        RuleResult::Matched(np, _) => if np < inp.len() {
            EvalOut { res: RuleResult::Failed, log: out.log.push(Mark::Fail(np, EOF_EXPECTED)) }
        } else {
            out
        },
        _ => out,
    }
}

/// The error state a parse attempt starts from.
pub open spec fn initial_model() -> StateModel {
    StateModel {
        max_err_pos: 0,
        suppress_fail: 0,
        reparsing_on_failure: false,
        expected: Set::empty(),
        errors: Seq::empty(),
    }
}

/// The error state the diagnostic second pass starts from: the furthest
/// failure position of the first pass, and nothing else.
pub open spec fn reparse_model(max_err_pos: usize) -> StateModel {
    StateModel {
        max_err_pos,
        suppress_fail: 0,
        reparsing_on_failure: true,
        expected: Set::empty(),
        errors: Seq::empty(),
    }
}

/// One top-level attempt against an error state.
fn run_top(g: &Grammar, input: &CharsInput, st: &mut ErrorState, fuel: u64) -> (res: RuleResult<
    (),
>)
    requires
        wf_grammar(*g),
        old(st).expected.inv(),
    ensures
        ({
            let out = top_out(*g, input@, fuel as nat);
            res == out.res && final(st)@ == apply_marks(old(st)@, out.log)
        }),
        final(st).expected.inv(),
{
    let r1 = match_rule(g, input, g.start, 0, false, None, st, fuel);
    match r1 {
        RuleResult::Matched(np, _) => {
            if np < input.len() {
                let ghost m1 = st@;
                let rf = st.mark_failure(np, EOF_EXPECTED);
                proof {
                    let out0 = eval_rule(*g, g.start, input@, 0, false, None, fuel as nat);
                    let k = Mark::Fail(np, EOF_EXPECTED);
                    assert(out0.log.push(k) =~= out0.log + seq![k]);
                    lemma_apply_marks_append(old(st)@, out0.log, seq![k]);
                    lemma_apply_marks_one(m1, k);
                }
                rf
            } else {
                r1
            }
        },
        _ => r1,
    }
}

impl Grammar {
    /// Parse the whole input with this grammar, from the entry rule.
    ///
    /// The attempt runs in up to two passes.  The first tracks only the
    /// furthest failure position; only if it fails is the input reparsed with
    /// the diagnostic pass switched on, which collects into the expected set
    /// the label of every alternative that failed exactly at that furthest
    /// position.  Recovered errors are taken from the first pass alone, in
    /// encounter order.  `fuel` bounds the depth of the attempt; an exhausted
    /// budget reads as a failure.
    pub fn parse(&self, input: &CharsInput, fuel: u64) -> (r: ParseResults<(), LineCol>)
        requires
            wf_grammar(*self),
        ensures
            ({
                let out = top_out(*self, input@, fuel as nat);
                let m1 = apply_marks(initial_model(), out.log);
                &&& r.errors@ == crate::error::reprs_of(m1.errors, input)
                &&& match out.res {
                    RuleResult::Matched(_, _) => r.result == ParseResult::<(), LineCol>::Matched(
                        (),
                    ),
                    RuleResult::Error(err) => r.result matches ParseResult::Error(pe)
                        && pe.location == line_col_of(input@, err.location as int) && pe.error
                        == err.error,
                    RuleResult::Failed => ({
                        let m2 = apply_marks(reparse_model(m1.max_err_pos), out.log);
                        r.result matches ParseResult::Failed(pe) && pe.location == line_col_of(
                            input@,
                            m1.max_err_pos as int,
                        ) && pe.expected@ == m2.expected && pe.expected.inv()
                    }),
                }
            }),
    {
        let mut st = ErrorState::new(0);
        proof {
            assert(st@ == initial_model());
        }
        let r1 = run_top(self, input, &mut st, fuel);
        match r1 {
            RuleResult::Matched(_, _) => st.into_matched((), input),
            RuleResult::Error(err) => st.into_error(err, input),
            RuleResult::Failed => {
                let mut st2 = ErrorState::new(0);
                st2.max_err_pos = st.max_err_pos;
                st2.reparse_for_failure();
                proof {
                    assert(st2@ == reparse_model(st.max_err_pos));
                }
                let r2 = run_top(self, input, &mut st2, fuel);
                match r2 {
                    RuleResult::Failed => {
                        proof {
                            lemma_apply_marks_frame(
                                reparse_model(st.max_err_pos),
                                top_out(*self, input@, fuel as nat).log,
                            );
                        }
                        st2.errors = st.errors;
                        st2.into_failure(input)
                    },
                    _ => vstd::pervasive::unreached(),
                }
            },
        }
    }
}

/// [`lemma_eval_quiet_silent`], for repetition.
pub proof fn lemma_eval_repeat_quiet_silent(
    g: Grammar,
    e: Expr,
    inp: Seq<char>,
    p: usize,
    count: u64,
    min: u64,
    max: Option<u64>,
    seed: Option<Seed>,
    fuel: nat,
)
    ensures
        eval_repeat(g, e, inp, p, count, min, max, true, seed, fuel).log == Seq::<Mark>::empty(),
    decreases fuel,
{
    if fuel == 0 {
    } else if max matches Some(mx) && count >= mx {
    } else {
        let f = (fuel - 1) as nat;
        let empty = Seq::<Mark>::empty();
        assert(empty + empty =~= empty);
        lemma_eval_quiet_silent(g, e, inp, p, seed, f);
        let out = eval(g, e, inp, p, true, seed, f);
        if let RuleResult::Matched(np, _) = out.res {
            if np > p {
                lemma_eval_repeat_quiet_silent(g, e, inp, np, add1(count), min, max, seed, f);
            }
        }
    }
}

} // verus!
