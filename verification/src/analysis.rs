//! The static analyzer: each rule's left-recursion class, computed over the
//! graph of leftmost rule references.
use vstd::prelude::*;

verus! {

use crate::RuleResult;
use crate::grammar::{Grammar, Rule, Expr, LeftRecursionClass, wf_expr, wf_grammar};
use crate::matcher::{eval, eval_repeat, wf_seed, add1, lemma_eval_in_bounds, Seed};
use vstd::string::*;

/// The rules an expression can invoke before consuming any input: the first
/// part of a sequence, either arm of a choice, and the inside of optional,
/// repeated, captured and error-labelled expressions — but never the inside
/// of a lookahead or quiet scope.
pub open spec fn leftmost_refs(e: Expr) -> Set<int>
    decreases e,
{
    match e {
        Expr::Literal(_) => Set::empty(),
        Expr::CharClass { .. } => Set::empty(),
        Expr::AnyElement => Set::empty(),
        Expr::RuleRef(r) => Set::empty().insert(r as int),
        Expr::Sequence(a, _) => leftmost_refs(*a),
        Expr::OrderedChoice(a, b) => leftmost_refs(*a).union(leftmost_refs(*b)),
        Expr::Repeat { inner, .. } => leftmost_refs(*inner),
        Expr::Optional(a) => leftmost_refs(*a),
        Expr::PositiveLookahead(_) => Set::empty(),
        Expr::NegativeLookahead(_) => Set::empty(),
        Expr::Quiet(_) => Set::empty(),
        Expr::Capture(a) => leftmost_refs(*a),
        Expr::ErrorLabel(a, _) => leftmost_refs(*a),
    }
}

/// Whether an attempt of the expression can never end in a silent failure,
/// judged from its shape alone (and granted an adequate step budget): an
/// empty literal and an optional always match; a sequence cannot fail when
/// neither part can; an ordered choice cannot fail when either alternative
/// cannot; a repetition that tolerates zero matches cannot; a labelled
/// failure is an error, not a failure.
pub open spec fn cannot_fail(e: Expr) -> bool
    decreases e,
{
    match e {
        Expr::Literal(s) => s@.len() == 0,
        Expr::CharClass { .. } => false,
        Expr::AnyElement => false,
        Expr::RuleRef(_) => false,
        Expr::Sequence(a, b) => cannot_fail(*a) && cannot_fail(*b),
        Expr::OrderedChoice(a, b) => cannot_fail(*a) || cannot_fail(*b),
        Expr::Repeat { min, .. } => min == 0,
        Expr::Optional(_) => true,
        Expr::PositiveLookahead(a) => cannot_fail(*a),
        Expr::NegativeLookahead(_) => false,
        Expr::Quiet(a) => cannot_fail(*a),
        Expr::Capture(a) => cannot_fail(*a),
        Expr::ErrorLabel(a, _) => cannot_fail(*a),
    }
}

/// Judge [`cannot_fail`] on an expression.
fn expr_cannot_fail(e: &Expr) -> (r: bool)
    ensures
        r == cannot_fail(*e),
    decreases *e,
{
    match e {
        Expr::Literal(s) => s.unicode_len() == 0,
        Expr::CharClass { .. } => false,
        Expr::AnyElement => false,
        Expr::RuleRef(_) => false,
        Expr::Sequence(a, b) => expr_cannot_fail(a) && expr_cannot_fail(b),
        Expr::OrderedChoice(a, b) => expr_cannot_fail(a) || expr_cannot_fail(b),
        Expr::Repeat { min, .. } => *min == 0,
        Expr::Optional(_) => true,
        Expr::PositiveLookahead(a) => expr_cannot_fail(a),
        Expr::NegativeLookahead(_) => false,
        Expr::Quiet(a) => expr_cannot_fail(a),
        Expr::Capture(a) => expr_cannot_fail(a),
        Expr::ErrorLabel(a, _) => expr_cannot_fail(a),
    }
}

/// A step budget adequate for a cannot-fail expression over `rem` remaining
/// input positions.
pub open spec fn fuel_for(e: Expr, rem: nat) -> nat
    decreases e,
{
    match e {
        Expr::Literal(_) => 1,
        Expr::CharClass { .. } => 1,
        Expr::AnyElement => 1,
        Expr::RuleRef(_) => 1,
        Expr::Sequence(a, b) => 1 + if fuel_for(*a, rem) > fuel_for(*b, rem) {
            fuel_for(*a, rem)
        } else {
            fuel_for(*b, rem)
        },
        Expr::OrderedChoice(a, b) => 1 + if cannot_fail(*a) {
            fuel_for(*a, rem)
        } else {
            fuel_for(*b, rem)
        },
        Expr::Repeat { .. } => rem + 3,
        Expr::Optional(_) => 1,
        Expr::PositiveLookahead(a) => 1 + fuel_for(*a, rem),
        Expr::NegativeLookahead(_) => 1,
        Expr::Quiet(a) => 1 + fuel_for(*a, rem),
        Expr::Capture(a) => 1 + fuel_for(*a, rem),
        Expr::ErrorLabel(a, _) => 1 + fuel_for(*a, rem),
    }
}

/// The budget is positive, and never shrinks when more input remains.
proof fn lemma_fuel_for_mono(e: Expr, r1: nat, r2: nat)
    requires
        r1 <= r2,
    ensures
        1 <= fuel_for(e, r1) <= fuel_for(e, r2),
    decreases e,
{
    match e {
        Expr::Sequence(a, b) => {
            lemma_fuel_for_mono(*a, r1, r2);
            lemma_fuel_for_mono(*b, r1, r2);
        },
        Expr::OrderedChoice(a, b) => {
            lemma_fuel_for_mono(*a, r1, r2);
            lemma_fuel_for_mono(*b, r1, r2);
        },
        Expr::PositiveLookahead(a) => lemma_fuel_for_mono(*a, r1, r2),
        Expr::Quiet(a) => lemma_fuel_for_mono(*a, r1, r2),
        Expr::Capture(a) => lemma_fuel_for_mono(*a, r1, r2),
        Expr::ErrorLabel(a, _) => lemma_fuel_for_mono(*a, r1, r2),
        _ => {},
    }
}

/// The flag is sound: an expression the analyzer judges cannot-fail never
/// ends in a silent failure.  Granted a budget adequate for it and for the
/// remaining input, its attempt matches or raises a labelled error.
pub proof fn lemma_cannot_fail_sound(
    g: Grammar,
    e: Expr,
    inp: Seq<char>,
    pos: usize,
    quiet: bool,
    seed: Option<Seed>,
    fuel: nat,
)
    requires
        cannot_fail(e),
        pos <= inp.len() <= usize::MAX,
        wf_seed(seed, inp),
        fuel >= fuel_for(e, (inp.len() - pos) as nat),
    ensures
        !(eval(g, e, inp, pos, quiet, seed, fuel).res is Failed),
    decreases fuel,
{
    let rem = (inp.len() - pos) as nat;
    lemma_fuel_for_mono(e, rem, rem);
    let f = (fuel - 1) as nat;
    match e {
        Expr::Literal(s) => {
            assert(inp.subrange(pos as int, pos + s@.len()) =~= s@);
        },
        Expr::Sequence(a, b) => {
            lemma_fuel_for_mono(*a, rem, rem);
            lemma_fuel_for_mono(*b, rem, rem);
            lemma_cannot_fail_sound(g, *a, inp, pos, quiet, seed, f);
            let oa = eval(g, *a, inp, pos, quiet, seed, f);
            if let RuleResult::Matched(p1, _) = oa.res {
                lemma_eval_in_bounds(g, *a, inp, pos, quiet, seed, f);
                lemma_fuel_for_mono(*b, (inp.len() - p1) as nat, rem);
                lemma_cannot_fail_sound(g, *b, inp, p1, quiet, seed, f);
            }
        },
        Expr::OrderedChoice(a, b) => {
            if cannot_fail(*a) {
                lemma_cannot_fail_sound(g, *a, inp, pos, quiet, seed, f);
            } else {
                let oa = eval(g, *a, inp, pos, quiet, seed, f);
                if oa.res is Failed {
                    lemma_cannot_fail_sound(g, *b, inp, pos, quiet, seed, f);
                }
            }
        },
        Expr::Repeat { inner, min, max } => {
            lemma_cannot_fail_repeat(g, *inner, inp, pos, 0, min, max, quiet, seed, f);
        },
        Expr::Optional(_) => {},
        Expr::PositiveLookahead(a) => {
            lemma_cannot_fail_sound(g, *a, inp, pos, true, seed, f);
        },
        Expr::Quiet(a) => {
            lemma_cannot_fail_sound(g, *a, inp, pos, true, seed, f);
        },
        Expr::Capture(a) => {
            lemma_cannot_fail_sound(g, *a, inp, pos, quiet, seed, f);
        },
        Expr::ErrorLabel(a, _) => {
            lemma_cannot_fail_sound(g, *a, inp, pos, quiet, seed, f);
        },
        _ => {},
    }
}

/// [`lemma_cannot_fail_sound`], for a repetition that tolerates zero
/// matches: it stops, successfully, as soon as its inner expression stops
/// advancing, and each round consumes input, so the remaining input plus a
/// step to enter and one to leave bound the budget it needs.
proof fn lemma_cannot_fail_repeat(
    g: Grammar,
    e: Expr,
    inp: Seq<char>,
    p: usize,
    count: u64,
    min: u64,
    max: Option<u64>,
    quiet: bool,
    seed: Option<Seed>,
    fuel: nat,
)
    requires
        min == 0,
        p <= inp.len() <= usize::MAX,
        wf_seed(seed, inp),
        fuel >= (inp.len() - p) + 2,
    ensures
        !(eval_repeat(g, e, inp, p, count, min, max, quiet, seed, fuel).res is Failed),
    decreases fuel,
{
    if max matches Some(mx) && count >= mx {
    } else {
        let f = (fuel - 1) as nat;
        let out = eval(g, e, inp, p, quiet, seed, f);
        if let RuleResult::Matched(np, _) = out.res {
            if np > p {
                lemma_eval_in_bounds(g, e, inp, p, quiet, seed, f);
                lemma_cannot_fail_repeat(g, e, inp, np, add1(count), min, max, quiet, seed, f);
            }
        }
    }
}

/// Rule `a`'s body refers to rule `b` in leftmost position.
pub open spec fn leftmost_edge(g: Grammar, a: int, b: int) -> bool {
    0 <= a < g.rules.len() && leftmost_refs(g.rules@[a].body).contains(b)
}

/// A chain of leftmost edges from `a` to `b`, of length at least one and at
/// most `k`.
pub open spec fn leftmost_reach(g: Grammar, a: int, b: int, k: nat) -> bool
    decreases k,
{
    if k == 0 {
        false
    } else {
        leftmost_edge(g, a, b) || exists|mid: int|
            leftmost_reach(g, a, mid, (k - 1) as nat) && leftmost_edge(g, mid, b)
    }
}

/// Left recursion: a leftmost chain from the rule back to itself.  A chain
/// longer than the number of rules revisits a rule, so chains up to that
/// length decide the matter.
pub open spec fn left_recursive(g: Grammar, r: int) -> bool {
    leftmost_reach(g, r, r, g.rules.len() as nat)
}

/// The class the analyzer owes each rule: a bare self-loop is direct left
/// recursion, any other leftmost cycle is indirect, the rest are plain.
pub open spec fn recursion_class_of(g: Grammar, r: int) -> LeftRecursionClass {
    if leftmost_edge(g, r, r) {
        LeftRecursionClass::Direct
    } else if left_recursive(g, r) {
        LeftRecursionClass::Indirect
    } else {
        LeftRecursionClass::NotRecursive
    }
}

/// A chain of length at most one is a single edge.
proof fn lemma_reach_one(g: Grammar, a: int, b: int)
    ensures
        leftmost_reach(g, a, b, 1) == leftmost_edge(g, a, b),
{
    if leftmost_reach(g, a, b, 1) && !leftmost_edge(g, a, b) {
        let m = choose|m: int| leftmost_reach(g, a, m, 0) && leftmost_edge(g, m, b);
        assert(leftmost_reach(g, a, m, 0));
        assert(false);
    }
    if leftmost_edge(g, a, b) {
        assert(leftmost_reach(g, a, b, 1));
    }
}

/// Mark, in `row`, every rule the expression refers to in leftmost position.
fn collect_leftmost(e: &Expr, row: Vec<bool>) -> (r: Vec<bool>)
    requires
        wf_expr(*e, row.len() as int),
    ensures
        r@.len() == row@.len(),
        forall|b: int|
            0 <= b < row@.len() ==> r@[b] == (row@[b] || leftmost_refs(*e).contains(b)),
    decreases *e,
{
    match e {
        Expr::Literal(_) => row,
        Expr::CharClass { .. } => row,
        Expr::AnyElement => row,
        Expr::RuleRef(rr) => {
            let mut r2 = row;
            r2[*rr] = true;
            proof {
                assert(leftmost_refs(*e) == Set::<int>::empty().insert(*rr as int));
            }
            r2
        },
        Expr::Sequence(a, _) => {
            let r2 = collect_leftmost(a, row);
            proof {
                assert(leftmost_refs(*e) == leftmost_refs(**a));
            }
            r2
        },
        Expr::OrderedChoice(a, b) => {
            let r1 = collect_leftmost(a, row);
            let r2 = collect_leftmost(b, r1);
            proof {
                assert(leftmost_refs(*e) == leftmost_refs(**a).union(leftmost_refs(**b)));
            }
            r2
        },
        Expr::Repeat { inner, .. } => {
            let r2 = collect_leftmost(inner, row);
            proof {
                assert(leftmost_refs(*e) == leftmost_refs(**inner));
            }
            r2
        },
        Expr::Optional(a) => {
            let r2 = collect_leftmost(a, row);
            proof {
                assert(leftmost_refs(*e) == leftmost_refs(**a));
            }
            r2
        },
        Expr::PositiveLookahead(_) => row,
        Expr::NegativeLookahead(_) => row,
        Expr::Quiet(_) => row,
        Expr::Capture(a) => {
            let r2 = collect_leftmost(a, row);
            proof {
                assert(leftmost_refs(*e) == leftmost_refs(**a));
            }
            r2
        },
        Expr::ErrorLabel(a, _) => {
            let r2 = collect_leftmost(a, row);
            proof {
                assert(leftmost_refs(*e) == leftmost_refs(**a));
            }
            r2
        },
    }
}

/// `rows` holds, for every pair, whether a leftmost chain of length at most
/// `k` connects it.
spec fn reach_matrix_ok(g: Grammar, rows: Seq<Vec<bool>>, k: nat) -> bool {
    &&& rows.len() == g.rules.len()
    &&& forall|a: int| 0 <= a < rows.len() ==> (#[trigger] rows[a])@.len() == g.rules.len()
    &&& forall|a: int, b: int|
        0 <= a < rows.len() && 0 <= b < rows.len() ==> (#[trigger] rows[a]@[b]) == leftmost_reach(
            g,
            a,
            b,
            k,
        )
}

impl Grammar {
    /// Annotate every rule with its left-recursion class, leaving names,
    /// bodies and the entry point as they were.
    pub fn analyze(self) -> (r: Grammar)
        requires
            wf_grammar(self),
        ensures
            r.rules@.len() == self.rules@.len(),
            r.start == self.start,
            forall|i: int|
                0 <= i < self.rules@.len() ==> (#[trigger] r.rules@[i]).name == self.rules@[i].name
                    && r.rules@[i].body == self.rules@[i].body && r.rules@[i].recursion
                    == recursion_class_of(self, i),
    {
        let n = self.rules.len();
        // The leftmost-edge rows: edges[a][b] says rule a refers to rule b
        // in leftmost position.
        let mut edges: Vec<Vec<bool>> = Vec::new();
        let mut i: usize = 0;
        while i < n
            invariant
                0 <= i <= n,
                n == self.rules@.len(),
                wf_grammar(self),
                edges@.len() == i,
                forall|a: int| 0 <= a < i ==> (#[trigger] edges@[a])@.len() == n,
                forall|a: int, b: int|
                    0 <= a < i && 0 <= b < n ==> (#[trigger] edges@[a]@[b]) == leftmost_edge(
                        self,
                        a,
                        b,
                    ),
            decreases n - i,
        {
            let mut row: Vec<bool> = Vec::new();
            let mut j: usize = 0;
            while j < n
                invariant
                    0 <= j <= n,
                    row@.len() == j,
                    forall|b: int| 0 <= b < j ==> !row@[b],
                decreases n - j,
            {
                row.push(false);
                j = j + 1;
            }
            proof {
                assert(wf_expr(self.rules@[i as int].body, n as int));
            }
            let row = collect_leftmost(&self.rules[i].body, row);
            edges.push(row);
            i = i + 1;
        }
        // Start from chains of length one, then lengthen them up to one step
        // per rule: reach[a][b] says a chain of length at most k connects a
        // to b.
        let mut reach: Vec<Vec<bool>> = Vec::new();
        let mut a: usize = 0;
        while a < n
            invariant
                0 <= a <= n,
                n == self.rules@.len(),
                edges@.len() == n,
                forall|x: int| 0 <= x < n ==> (#[trigger] edges@[x])@.len() == n,
                forall|x: int, b: int|
                    0 <= x < n && 0 <= b < n ==> (#[trigger] edges@[x]@[b]) == leftmost_edge(
                        self,
                        x,
                        b,
                    ),
                reach@.len() == a,
                forall|x: int| 0 <= x < a ==> (#[trigger] reach@[x])@.len() == n,
                forall|x: int, b: int|
                    0 <= x < a && 0 <= b < n ==> (#[trigger] reach@[x]@[b]) == leftmost_reach(
                        self,
                        x,
                        b,
                        1,
                    ),
            decreases n - a,
        {
            let mut row: Vec<bool> = Vec::new();
            let mut b: usize = 0;
            while b < n
                invariant
                    0 <= b <= n,
                    a < n,
                    n == self.rules@.len(),
                    edges@.len() == n,
                    forall|x: int| 0 <= x < n ==> (#[trigger] edges@[x])@.len() == n,
                    forall|x: int, y: int|
                        0 <= x < n && 0 <= y < n ==> (#[trigger] edges@[x]@[y]) == leftmost_edge(
                            self,
                            x,
                            y,
                        ),
                    row@.len() == b,
                    forall|y: int|
                        0 <= y < b ==> (#[trigger] row@[y]) == leftmost_reach(self, a as int, y, 1),
                decreases n - b,
            {
                proof {
                    lemma_reach_one(self, a as int, b as int);
                }
                row.push(edges[a][b]);
                b = b + 1;
            }
            reach.push(row);
            a = a + 1;
        }
        proof {
            assert(reach_matrix_ok(self, reach@, 1));
        }
        let mut k: usize = 1;
        while k < n
            invariant
                1 <= k <= n || (n == 0 && k == 1),
                n == self.rules@.len(),
                edges@.len() == n,
                forall|x: int| 0 <= x < n ==> (#[trigger] edges@[x])@.len() == n,
                forall|x: int, y: int|
                    0 <= x < n && 0 <= y < n ==> (#[trigger] edges@[x]@[y]) == leftmost_edge(
                        self,
                        x,
                        y,
                    ),
                reach_matrix_ok(self, reach@, k as nat),
            decreases n - k,
        {
            let mut next: Vec<Vec<bool>> = Vec::new();
            let mut x: usize = 0;
            while x < n
                invariant
                    0 <= x <= n,
                    1 <= k < n,
                    n == self.rules@.len(),
                    edges@.len() == n,
                    forall|p: int| 0 <= p < n ==> (#[trigger] edges@[p])@.len() == n,
                    forall|p: int, q: int|
                        0 <= p < n && 0 <= q < n ==> (#[trigger] edges@[p]@[q]) == leftmost_edge(
                            self,
                            p,
                            q,
                        ),
                    reach_matrix_ok(self, reach@, k as nat),
                    next@.len() == x,
                    forall|p: int| 0 <= p < x ==> (#[trigger] next@[p])@.len() == n,
                    forall|p: int, q: int|
                        0 <= p < x && 0 <= q < n ==> (#[trigger] next@[p]@[q]) == leftmost_reach(
                            self,
                            p,
                            q,
                            (k + 1) as nat,
                        ),
                decreases n - x,
            {
                let mut row: Vec<bool> = Vec::new();
                let mut y: usize = 0;
                while y < n
                    invariant
                        0 <= y <= n,
                        0 <= x < n,
                        1 <= k < n,
                        n == self.rules@.len(),
                        edges@.len() == n,
                        forall|p: int| 0 <= p < n ==> (#[trigger] edges@[p])@.len() == n,
                        forall|p: int, q: int|
                            0 <= p < n && 0 <= q < n ==> (#[trigger] edges@[p]@[q])
                                == leftmost_edge(self, p, q),
                        reach_matrix_ok(self, reach@, k as nat),
                        row@.len() == y,
                        forall|q: int|
                            0 <= q < y ==> (#[trigger] row@[q]) == leftmost_reach(
                                self,
                                x as int,
                                q,
                                (k + 1) as nat,
                            ),
                    decreases n - y,
                {
                    let mut found: bool = edges[x][y];
                    let mut mid: usize = 0;
                    while mid < n
                        invariant
                            0 <= mid <= n,
                            0 <= x < n,
                            0 <= y < n,
                            1 <= k < n,
                            n == self.rules@.len(),
                            edges@.len() == n,
                            forall|p: int| 0 <= p < n ==> (#[trigger] edges@[p])@.len() == n,
                            forall|p: int, q: int|
                                0 <= p < n && 0 <= q < n ==> (#[trigger] edges@[p]@[q])
                                    == leftmost_edge(self, p, q),
                            reach_matrix_ok(self, reach@, k as nat),
                            found == (leftmost_edge(self, x as int, y as int) || exists|m: int|
                                0 <= m < mid && leftmost_reach(self, x as int, m, k as nat)
                                    && leftmost_edge(self, m, y as int)),
                        decreases n - mid,
                    {
                        let hit = reach[x][mid] && edges[mid][y];
                        if hit {
                            found = true;
                        }
                        proof {
                            if hit {
                                assert(leftmost_reach(self, x as int, mid as int, k as nat)
                                    && leftmost_edge(self, mid as int, y as int));
                                assert(exists|m: int|
                                    0 <= m < mid + 1 && leftmost_reach(self, x as int, m, k as nat)
                                        && leftmost_edge(self, m, y as int));
                            }
                            if !found {
                                assert(forall|m: int|
                                    0 <= m < mid + 1 ==> !(leftmost_reach(self, x as int, m, k as nat)
                                        && leftmost_edge(self, m, y as int)));
                            }
                        }
                        mid = mid + 1;
                    }
                    proof {
                        if found {
                            assert(leftmost_reach(self, x as int, y as int, (k + 1) as nat));
                        } else {
                            if leftmost_reach(self, x as int, y as int, (k + 1) as nat) {
                                let m = choose|m: int|
                                    leftmost_reach(self, x as int, m, k as nat) && leftmost_edge(
                                        self,
                                        m,
                                        y as int,
                                    );
                                assert(0 <= m < n);
                                assert(false);
                            }
                        }
                    }
                    row.push(found);
                    y = y + 1;
                }
                next.push(row);
                x = x + 1;
            }
            reach = next;
            k = k + 1;
        }
        // Read each rule's class off the matrices and rebuild the rules.
        let ghost gself = self;
        let mut rules = self.rules;
        proof {
            assert(rules@ =~= gself.rules@.skip(0));
        }
        let mut out: Vec<Rule> = Vec::new();
        let mut idx: usize = 0;
        while idx < n
            invariant
                0 <= idx <= n,
                n == gself.rules@.len(),
                rules@ == gself.rules@.skip(idx as int),
                edges@.len() == n,
                forall|p: int| 0 <= p < n ==> (#[trigger] edges@[p])@.len() == n,
                forall|p: int, q: int|
                    0 <= p < n && 0 <= q < n ==> (#[trigger] edges@[p]@[q]) == leftmost_edge(
                        gself,
                        p,
                        q,
                    ),
                reach_matrix_ok(gself, reach@, n as nat) || n == 0,
                out@.len() == idx,
                forall|i2: int|
                    0 <= i2 < idx ==> (#[trigger] out@[i2]).name == gself.rules@[i2].name
                        && out@[i2].body == gself.rules@[i2].body && out@[i2].recursion
                        == recursion_class_of(gself, i2) && out@[i2].cannot_fail == cannot_fail(
                        gself.rules@[i2].body,
                    ),
            decreases n - idx,
        {
            let rule = rules.remove(0);
            proof {
                assert(rules@ =~= gself.rules@.skip(idx + 1));
                assert(rule == gself.rules@[idx as int]);
            }
            let cls = if edges[idx][idx] {
                LeftRecursionClass::Direct
            } else if reach[idx][idx] {
                LeftRecursionClass::Indirect
            } else {
                LeftRecursionClass::NotRecursive
            };
            let cf = expr_cannot_fail(&rule.body);
            out.push(Rule { name: rule.name, recursion: cls, cannot_fail: cf, body: rule.body });
            idx = idx + 1;
        }
        Grammar { rules: out, start: self.start }
    }
}

} // verus!
