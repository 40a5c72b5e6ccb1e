//! Detection of useless chains of predicates and repetitions (`!(!e)`,
//! `&(&e)`, `!(&e)`, `&(!e)`, `(e+)+` and `(e+)*`), kept with counters:
//! each rule's expression is followed through its chain of unary operators
//! and rule calls, and each time a counter shows a pattern a warning is
//! given on an expression of the pattern.
use vstd::prelude::*;

use crate::middle::analysis::ast::{
    children_below, AGrammar, Expression, Partial, Warning, WarningKind,
};

verus! {

/// The counters kept while following a chain. A pair holds a count and the
/// last expression counted.
pub struct Counters {
    pub not_not: nat,
    pub and_and: (nat, usize),
    pub not_and: nat,
    pub and_not: nat,
    pub oom_oom: (nat, usize),
    pub oom_zom: (nat, usize),
}

/// All counters at zero.
pub open spec fn cleared() -> Counters {
    Counters {
        not_not: 0,
        and_and: (0, 0),
        not_and: 0,
        and_not: 0,
        oom_oom: (0, 0),
        oom_zom: (0, 0),
    }
}

/// Every count is at most `b`.
pub open spec fn bounded(c: Counters, b: nat) -> bool {
    &&& c.not_not <= b
    &&& c.and_and.0 <= b
    &&& c.not_and <= b
    &&& c.and_not <= b
    &&& c.oom_oom.0 <= b
    &&& c.oom_zom.0 <= b
}

/// A warning of kind `kind` on the span of expression `i`.
pub open spec fn warn_at(g: AGrammar, kind: WarningKind, i: int) -> Warning {
    Warning { kind, span: Some(g.spans@[i]) }
}

/// `w` when `cond` holds, nothing otherwise.
pub open spec fn warn_if(cond: bool, w: Warning) -> Seq<Warning> {
    if cond {
        seq![w]
    } else {
        seq![]
    }
}

/// The warning owed when two or more `&` were counted.
pub open spec fn and_and_report(g: AGrammar, c: Counters) -> Seq<Warning> {
    warn_if(c.and_and.0 >= 2, warn_at(g, WarningKind::AndAnd, c.and_and.1 as int))
}

/// The warning owed when two or more `+` were counted.
pub open spec fn oom_oom_report(g: AGrammar, c: Counters) -> Seq<Warning> {
    warn_if(c.oom_oom.0 >= 2, warn_at(g, WarningKind::OneOrMoreOneOrMore, c.oom_oom.1 as int))
}

/// Meeting `e+` at `this`.
pub open spec fn on_one_or_more(g: AGrammar, c: Counters, this: usize) -> (Counters, Seq<Warning>) {
    (
        Counters {
            not_not: 0,
            and_and: (0, 0),
            not_and: 0,
            and_not: 0,
            oom_oom: (c.oom_oom.0 + 1, this),
            oom_zom: (0, 0),
        },
        oom_zom_report(g, c) + and_and_report(g, c),
    )
}

/// The warning owed when a `+` is met right under a counted `*`: it is
/// given on the last `*` counted.
pub open spec fn oom_zom_report(g: AGrammar, c: Counters) -> Seq<Warning> {
    warn_if(c.oom_zom.0 >= 1, warn_at(g, WarningKind::OneOrMoreZeroOrMore, c.oom_zom.1 as int))
}

/// Meeting `e*` at `this`.
pub open spec fn on_zero_or_more(g: AGrammar, c: Counters, this: usize) -> (Counters, Seq<Warning>) {
    (
        Counters { oom_zom: (c.oom_zom.0 + 1, this), ..cleared() },
        and_and_report(g, c) + oom_oom_report(g, c),
    )
}

/// Meeting `!e` at `this`.
pub open spec fn on_not(g: AGrammar, c: Counters, this: usize) -> (Counters, Seq<Warning>) {
    (
        Counters {
            not_not: c.not_not + 1,
            and_and: (0, 0),
            not_and: c.not_and + 1,
            and_not: 0,
            oom_oom: (0, 0),
            oom_zom: (0, 0),
        },
        warn_if(c.not_not + 1 >= 2, warn_at(g, WarningKind::NotNot, this as int))
            + warn_if(c.and_not + 1 >= 2, warn_at(g, WarningKind::AndNot, this as int))
            + and_and_report(g, c) + oom_oom_report(g, c),
    )
}

/// Meeting `&e` at `this`.
pub open spec fn on_and(g: AGrammar, c: Counters, this: usize) -> (Counters, Seq<Warning>) {
    (
        Counters {
            not_not: 0,
            and_and: (c.and_and.0 + 1, this),
            not_and: 0,
            and_not: c.and_not + 1,
            oom_oom: (0, 0),
            oom_zom: (0, 0),
        },
        warn_if(c.not_and + 1 >= 2, warn_at(g, WarningKind::NotAnd, this as int))
            + seq![warn_at(g, WarningKind::AndPredicateNote, this - 1)]
            + oom_oom_report(g, c),
    )
}

/// Meeting any other expression, which ends the chain.
pub open spec fn on_other(g: AGrammar, c: Counters) -> (Counters, Seq<Warning>) {
    (cleared(), and_and_report(g, c) + oom_oom_report(g, c))
}

/// Following the chain from `i` ends within `fuel` expressions, and every
/// `&` met on it has an expression before it.
pub open spec fn walk_ok(g: AGrammar, i: usize, fuel: nat) -> bool
    decreases fuel,
{
    if fuel == 0 {
        false
    } else {
        match g.exprs@[i as int] {
            Expression::NonTerminalSymbol(id) => walk_ok(g, g.rule_expr(id), (fuel - 1) as nat),
            Expression::ZeroOrMore(c) => walk_ok(g, c, (fuel - 1) as nat),
            Expression::OneOrMore(c) => walk_ok(g, c, (fuel - 1) as nat),
            Expression::NotPredicate(c) => walk_ok(g, c, (fuel - 1) as nat),
            Expression::AndPredicate(c) => i >= 1 && walk_ok(g, c, (fuel - 1) as nat),
            _ => true,
        }
    }
}

/// The counters and the warnings after following the chain from `i`,
/// starting with the counters `c`.
pub open spec fn run(g: AGrammar, c: Counters, i: usize, fuel: nat) -> (Counters, Seq<Warning>)
    decreases fuel,
{
    if fuel == 0 {
        (c, seq![])
    } else {
        let f = (fuel - 1) as nat;
        match g.exprs@[i as int] {
            Expression::NonTerminalSymbol(id) => run(g, c, g.rule_expr(id), f),
            Expression::ZeroOrMore(ch) => {
                let (c1, w1) = on_zero_or_more(g, c, i);
                let (c2, w2) = run(g, c1, ch, f);
                (c2, w1 + w2)
            },
            Expression::OneOrMore(ch) => {
                let (c1, w1) = on_one_or_more(g, c, i);
                let (c2, w2) = run(g, c1, ch, f);
                (c2, w1 + w2)
            },
            Expression::NotPredicate(ch) => {
                let (c1, w1) = on_not(g, c, i);
                let (c2, w2) = run(g, c1, ch, f);
                (c2, w1 + w2)
            },
            Expression::AndPredicate(ch) => {
                let (c1, w1) = on_and(g, c, i);
                let (c2, w2) = run(g, c1, ch, f);
                (c2, w1 + w2)
            },
            _ => on_other(g, c),
        }
    }
}

/// Whether following the chain from `i` ends within `fuel` expressions
/// without meeting an `&` at index 0.
fn chain_ok(g: &AGrammar, i: usize, fuel: usize) -> (b: bool)
    requires
        g.wf(),
        i < g.exprs@.len(),
    ensures
        b == walk_ok(*g, i, fuel as nat),
{
    let mut j = i;
    let mut f = fuel;
    loop
        invariant
            g.wf(),
            j < g.exprs@.len(),
            walk_ok(*g, j, f as nat) == walk_ok(*g, i, fuel as nat),
        decreases f,
    {
        if f == 0 {
            return false;
        }
        proof {
            assert(children_below(g.exprs@[j as int], g.exprs@.len()));
        }
        match g.expr_by_index(j) {
            Expression::NonTerminalSymbol(id) => {
                proof {
                    assert(g.has_rule(*id));
                }
                j = g.find_rule_by_ident(*id).expr_idx;
            },
            Expression::ZeroOrMore(c) => j = *c,
            Expression::OneOrMore(c) => j = *c,
            Expression::NotPredicate(c) => j = *c,
            Expression::AndPredicate(c) => {
                if j == 0 {
                    return false;
                }
                j = *c;
            },
            _ => return true,
        }
        f = f - 1;
    }
}

/// Whether `g` can be analysed: it is well formed, the chain of every rule
/// ends, and no `&` met on a chain is the first expression.
pub fn chains_ok(g: &AGrammar) -> (b: bool)
    ensures
        b == (g.wf() && rules_walk_ok(*g)),
{
    if !g.is_well_formed() {
        return false;
    }
    let n = g.exprs.len();
    let mut r: usize = 0;
    while r < g.rules.len()
        invariant
            g.wf(),
            n == g.exprs@.len(),
            0 <= r <= g.rules@.len(),
            forall|q: int| 0 <= q < r ==> walk_ok(*g, #[trigger] g.rules@[q].expr_idx, n as nat),
        decreases g.rules@.len() - r,
    {
        proof {
            assert(g.rules@[r as int].expr_idx < n);
        }
        if !chain_ok(g, g.rules[r].expr_idx, n) {
            return false;
        }
        r = r + 1;
    }
    true
}

/// Every rule's chain can be followed.
pub open spec fn rules_walk_ok(g: AGrammar) -> bool {
    forall|r: int|
        0 <= r < g.rules@.len() ==> walk_ok(g, #[trigger] g.rules@[r].expr_idx, g.exprs@.len())
}

/// The warnings about rule `r`, which is analysed from cleared counters.
pub open spec fn rule_report(g: AGrammar, r: int) -> Seq<Warning> {
    run(g, cleared(), g.rules@[r].expr_idx, g.exprs@.len()).1
}

/// The warnings about the first `n` rules, in the order of the rules.
pub open spec fn chaining_report(g: AGrammar, n: nat) -> Seq<Warning>
    decreases n,
{
    if n == 0 {
        seq![]
    } else {
        chaining_report(g, (n - 1) as nat) + rule_report(g, n - 1)
    }
}

/// Following a chain to its end leaves every counter at zero.
pub proof fn lemma_run_clears(g: AGrammar, c: Counters, i: usize, fuel: nat)
    requires
        walk_ok(g, i, fuel),
    ensures
        run(g, c, i, fuel).0 == cleared(),
    decreases fuel,
{
    let f = (fuel - 1) as nat;
    match g.exprs@[i as int] {
        Expression::NonTerminalSymbol(id) => lemma_run_clears(g, c, g.rule_expr(id), f),
        Expression::ZeroOrMore(ch) => lemma_run_clears(g, on_zero_or_more(g, c, i).0, ch, f),
        Expression::OneOrMore(ch) => lemma_run_clears(g, on_one_or_more(g, c, i).0, ch, f),
        Expression::NotPredicate(ch) => lemma_run_clears(g, on_not(g, c, i).0, ch, f),
        Expression::AndPredicate(ch) => lemma_run_clears(g, on_and(g, c, i).0, ch, f),
        _ => {},
    }
}

/// The analysis of a grammar, with the counters that it keeps while it
/// follows a chain and the warnings given so far.
pub struct UselessChaining<'a> {
    grammar: &'a AGrammar,
    not_not: usize,
    and_and: (usize, usize),
    not_and: usize,
    and_not: usize,
    oom_oom: (usize, usize),
    oom_zom: (usize, usize),
    warnings: Vec<Warning>,
}

impl<'a> UselessChaining<'a> {
    /// The counters held by the analysis.
    pub closed spec fn counters(&self) -> Counters {
        Counters {
            not_not: self.not_not as nat,
            and_and: (self.and_and.0 as nat, self.and_and.1),
            not_and: self.not_and as nat,
            and_not: self.and_not as nat,
            oom_oom: (self.oom_oom.0 as nat, self.oom_oom.1),
            oom_zom: (self.oom_zom.0 as nat, self.oom_zom.1),
        }
    }

    closed spec fn inv(&self) -> bool {
        &&& self.grammar.wf()
        &&& self.grammar.exprs@.len() <= usize::MAX
        &&& self.and_and.0 > 0 ==> self.and_and.1 < self.grammar.exprs@.len()
        &&& self.oom_oom.0 > 0 ==> self.oom_oom.1 < self.grammar.exprs@.len()
        &&& self.oom_zom.0 > 0 ==> self.oom_zom.1 < self.grammar.exprs@.len()
    }

    /// Runs the analysis on `grammar`. The pass gives back no grammar; what
    /// it finds are the warnings, rule after rule.
    pub fn analyse(grammar: AGrammar) -> (res: (Partial<AGrammar>, Vec<Warning>))
        requires
            grammar.wf(),
            rules_walk_ok(grammar),
        ensures
            res.0 is Nothing,
            res.1@ == chaining_report(grammar, grammar.rules@.len()),
    {
        let warnings = UselessChaining::check_chaining(&grammar);
        (Partial::Nothing, warnings)
    }

    fn check_chaining(grammar: &'a AGrammar) -> (w: Vec<Warning>)
        requires
            grammar.wf(),
            rules_walk_ok(*grammar),
        ensures
            w@ == chaining_report(*grammar, grammar.rules@.len()),
    {
        let mut analyser = UselessChaining {
            grammar: grammar,
            not_not: 0,
            and_and: (0, 0),
            not_and: 0,
            and_not: 0,
            oom_oom: (0, 0),
            oom_zom: (0, 0),
            warnings: Vec::new(),
        };
        let n = grammar.exprs.len();
        let mut k: usize = 0;
        while k < grammar.rules.len()
            invariant
                analyser.grammar == grammar,
                analyser.inv(),
                analyser.counters() == cleared(),
                analyser.warnings@ == chaining_report(*grammar, k as nat),
                k <= grammar.rules@.len(),
                n == grammar.exprs@.len(),
                grammar.wf(),
                rules_walk_ok(*grammar),
            decreases grammar.rules@.len() - k,
        {
            let root = grammar.rules[k].expr_idx;
            proof {
                assert(walk_ok(*grammar, grammar.rules@[k as int].expr_idx, n as nat));
            }
            analyser.visit_expr(root, Ghost(n as nat));
            proof {
                lemma_run_clears(*grammar, cleared(), root, n as nat);
            }
            k = k + 1;
        }
        analyser.warnings
    }

    fn clear_vars(&mut self)
        requires
            old(self).inv(),
        ensures
            final(self).grammar == old(self).grammar,
            final(self).inv(),
            final(self).counters() == on_other(*old(self).grammar, old(self).counters()).0,
            final(self).warnings@ == old(self).warnings@ + on_other(
                *old(self).grammar,
                old(self).counters(),
            ).1,
    {
        self.verify_and_and();
        self.verify_oom_oom();
        self.not_not = 0;
        self.and_and = (0, 0);
        self.not_and = 0;
        self.and_not = 0;
        self.oom_oom = (0, 0);
        self.oom_zom = (0, 0);
    }

    fn verify_and_and(&mut self)
        requires
            old(self).inv(),
        ensures
            final(self).grammar == old(self).grammar,
            final(self).inv(),
            final(self).counters() == old(self).counters(),
            final(self).warnings@ == old(self).warnings@ + and_and_report(
                *old(self).grammar,
                old(self).counters(),
            ),
    {
        let (cpt_and_and, span_and_and) = self.and_and;
        if cpt_and_and >= 2 {
            let span = self.grammar.spans[span_and_and];
            self.warnings.push(Warning { kind: WarningKind::AndAnd, span: Some(span) });
        }
    }

    fn verify_oom_oom(&mut self)
        requires
            old(self).inv(),
        ensures
            final(self).grammar == old(self).grammar,
            final(self).inv(),
            final(self).counters() == old(self).counters(),
            final(self).warnings@ == old(self).warnings@ + oom_oom_report(
                *old(self).grammar,
                old(self).counters(),
            ),
    {
        let (cpt_oom_oom, span_oom_oom) = self.oom_oom;
        if cpt_oom_oom >= 2 {
            let span = self.grammar.spans[span_oom_oom];
            self.warnings.push(
                Warning { kind: WarningKind::OneOrMoreOneOrMore, span: Some(span) },
            );
        }
    }

    /// The expression at `index` in the analysed grammar.
    fn expr_by_index(&self, index: usize) -> (e: &'a Expression)
        requires
            index < self.grammar.exprs@.len(),
        ensures
            *e == self.grammar.exprs@[index as int],
    {
        self.grammar.expr_by_index(index)
    }

    fn visit_expr(&mut self, this: usize, Ghost(fuel): Ghost<nat>)
        requires
            old(self).inv(),
            this < old(self).grammar.exprs@.len(),
            walk_ok(*old(self).grammar, this, fuel),
            fuel <= old(self).grammar.exprs@.len(),
            bounded(old(self).counters(), (old(self).grammar.exprs@.len() - fuel) as nat),
        ensures
            final(self).grammar == old(self).grammar,
            final(self).inv(),
            final(self).counters() == run(*old(self).grammar, old(self).counters(), this, fuel).0,
            final(self).warnings@ == old(self).warnings@ + run(
                *old(self).grammar,
                old(self).counters(),
                this,
                fuel,
            ).1,
        decreases fuel, 1nat,
    {
        match self.expr_by_index(this) {
            Expression::NonTerminalSymbol(rule) => {
                let rule = *rule;
                self.visit_non_terminal_symbol(this, rule, Ghost(fuel))
            },
            Expression::ZeroOrMore(child) => {
                let child = *child;
                self.visit_zero_or_more(this, child, Ghost(fuel))
            },
            Expression::OneOrMore(child) => {
                let child = *child;
                self.visit_one_or_more(this, child, Ghost(fuel))
            },
            Expression::NotPredicate(child) => {
                let child = *child;
                self.visit_not_predicate(this, child, Ghost(fuel))
            },
            Expression::AndPredicate(child) => {
                let child = *child;
                self.visit_and_predicate(this, child, Ghost(fuel))
            },
            _ => {
                proof {
                    assert(fuel > 0);
                }
                self.clear_vars()
            },
        }
    }

    fn visit_non_terminal_symbol(&mut self, this: usize, rule: u64, Ghost(fuel): Ghost<nat>)
        requires
            old(self).inv(),
            this < old(self).grammar.exprs@.len(),
            old(self).grammar.exprs@[this as int] == Expression::NonTerminalSymbol(rule),
            walk_ok(*old(self).grammar, this, fuel),
            fuel <= old(self).grammar.exprs@.len(),
            bounded(old(self).counters(), (old(self).grammar.exprs@.len() - fuel) as nat),
        ensures
            final(self).grammar == old(self).grammar,
            final(self).inv(),
            final(self).counters() == run(*old(self).grammar, old(self).counters(), this, fuel).0,
            final(self).warnings@ == old(self).warnings@ + run(
                *old(self).grammar,
                old(self).counters(),
                this,
                fuel,
            ).1,
        decreases fuel, 0nat,
    {
        proof {
            assert(self.grammar.has_rule(rule));
        }
        let target = self.grammar.find_rule_by_ident(rule).expr_idx;
        proof {
            assert(self.grammar.rules@[self.grammar.rule_index(rule)].expr_idx
                < self.grammar.exprs@.len());
        }
        self.visit_expr(target, Ghost((fuel - 1) as nat))
    }

    fn visit_one_or_more(&mut self, this: usize, child: usize, Ghost(fuel): Ghost<nat>)
        requires
            old(self).inv(),
            this < old(self).grammar.exprs@.len(),
            old(self).grammar.exprs@[this as int] == Expression::OneOrMore(child),
            walk_ok(*old(self).grammar, this, fuel),
            fuel <= old(self).grammar.exprs@.len(),
            bounded(old(self).counters(), (old(self).grammar.exprs@.len() - fuel) as nat),
        ensures
            final(self).grammar == old(self).grammar,
            final(self).inv(),
            final(self).counters() == run(*old(self).grammar, old(self).counters(), this, fuel).0,
            final(self).warnings@ == old(self).warnings@ + run(
                *old(self).grammar,
                old(self).counters(),
                this,
                fuel,
            ).1,
        decreases fuel, 0nat,
    {
        let ghost g = *self.grammar;
        let ghost c0 = self.counters();
        let ghost w0 = self.warnings@;
        proof {
            assert(children_below_holds(g, this as int));
            assert(fuel > 0);
        }
        let (cpt_oom_zom, span_oom_zom) = self.oom_zom;
        if cpt_oom_zom >= 1 {
            let span = self.grammar.spans[span_oom_zom];
            self.warnings.push(
                Warning { kind: WarningKind::OneOrMoreZeroOrMore, span: Some(span) },
            );
        }
        let (nb, _) = self.oom_oom;
        self.oom_oom = (nb + 1, this);
        self.oom_zom = (0, 0);
        self.not_not = 0;
        self.verify_and_and();
        self.and_and = (0, 0);
        self.not_and = 0;
        self.and_not = 0;
        assert(self.counters() == on_one_or_more(g, c0, this).0);
        assert(self.warnings@ == w0 + on_one_or_more(g, c0, this).1);
        self.visit_expr(child, Ghost((fuel - 1) as nat));
        assert(self.warnings@ == w0 + run(g, c0, this, fuel).1);
    }

    fn visit_zero_or_more(&mut self, this: usize, child: usize, Ghost(fuel): Ghost<nat>)
        requires
            old(self).inv(),
            this < old(self).grammar.exprs@.len(),
            old(self).grammar.exprs@[this as int] == Expression::ZeroOrMore(child),
            walk_ok(*old(self).grammar, this, fuel),
            fuel <= old(self).grammar.exprs@.len(),
            bounded(old(self).counters(), (old(self).grammar.exprs@.len() - fuel) as nat),
        ensures
            final(self).grammar == old(self).grammar,
            final(self).inv(),
            final(self).counters() == run(*old(self).grammar, old(self).counters(), this, fuel).0,
            final(self).warnings@ == old(self).warnings@ + run(
                *old(self).grammar,
                old(self).counters(),
                this,
                fuel,
            ).1,
        decreases fuel, 0nat,
    {
        let ghost g = *self.grammar;
        let ghost c0 = self.counters();
        let ghost w0 = self.warnings@;
        proof {
            assert(children_below_holds(g, this as int));
            assert(fuel > 0);
        }
        self.not_not = 0;
        self.verify_and_and();
        self.and_and = (0, 0);
        self.not_and = 0;
        self.and_not = 0;
        self.verify_oom_oom();
        self.oom_oom = (0, 0);
        let (nz, _) = self.oom_zom;
        self.oom_zom = (nz + 1, this);
        assert(self.counters() == on_zero_or_more(g, c0, this).0);
        assert(self.warnings@ == w0 + on_zero_or_more(g, c0, this).1);
        self.visit_expr(child, Ghost((fuel - 1) as nat));
        assert(self.warnings@ == w0 + run(g, c0, this, fuel).1);
    }

    fn visit_not_predicate(&mut self, this: usize, child: usize, Ghost(fuel): Ghost<nat>)
        requires
            old(self).inv(),
            this < old(self).grammar.exprs@.len(),
            old(self).grammar.exprs@[this as int] == Expression::NotPredicate(child),
            walk_ok(*old(self).grammar, this, fuel),
            fuel <= old(self).grammar.exprs@.len(),
            bounded(old(self).counters(), (old(self).grammar.exprs@.len() - fuel) as nat),
        ensures
            final(self).grammar == old(self).grammar,
            final(self).inv(),
            final(self).counters() == run(*old(self).grammar, old(self).counters(), this, fuel).0,
            final(self).warnings@ == old(self).warnings@ + run(
                *old(self).grammar,
                old(self).counters(),
                this,
                fuel,
            ).1,
        decreases fuel, 0nat,
    {
        let ghost g = *self.grammar;
        let ghost c0 = self.counters();
        let ghost w0 = self.warnings@;
        proof {
            assert(children_below_holds(g, this as int));
            assert(fuel > 0);
        }
        if self.not_not + 1 >= 2 {
            let span = self.grammar.spans[this];
            self.warnings.push(Warning { kind: WarningKind::NotNot, span: Some(span) });
        }
        if self.and_not + 1 >= 2 {
            let span = self.grammar.spans[this];
            self.warnings.push(Warning { kind: WarningKind::AndNot, span: Some(span) });
        }
        self.not_not = self.not_not + 1;
        self.not_and = self.not_and + 1;
        self.verify_and_and();
        self.and_and = (0, 0);
        self.and_not = 0;
        self.verify_oom_oom();
        self.oom_oom = (0, 0);
        self.oom_zom = (0, 0);
        assert(self.counters() == on_not(g, c0, this).0);
        assert(self.warnings@ == w0 + on_not(g, c0, this).1);
        self.visit_expr(child, Ghost((fuel - 1) as nat));
        assert(self.warnings@ == w0 + run(g, c0, this, fuel).1);
    }

    fn visit_and_predicate(&mut self, this: usize, child: usize, Ghost(fuel): Ghost<nat>)
        requires
            old(self).inv(),
            this < old(self).grammar.exprs@.len(),
            old(self).grammar.exprs@[this as int] == Expression::AndPredicate(child),
            walk_ok(*old(self).grammar, this, fuel),
            fuel <= old(self).grammar.exprs@.len(),
            bounded(old(self).counters(), (old(self).grammar.exprs@.len() - fuel) as nat),
        ensures
            final(self).grammar == old(self).grammar,
            final(self).inv(),
            final(self).counters() == run(*old(self).grammar, old(self).counters(), this, fuel).0,
            final(self).warnings@ == old(self).warnings@ + run(
                *old(self).grammar,
                old(self).counters(),
                this,
                fuel,
            ).1,
        decreases fuel, 0nat,
    {
        let ghost g = *self.grammar;
        let ghost c0 = self.counters();
        let ghost w0 = self.warnings@;
        proof {
            assert(children_below_holds(g, this as int));
            assert(fuel > 0);
        }
        if self.not_and + 1 >= 2 {
            let span = self.grammar.spans[this];
            self.warnings.push(Warning { kind: WarningKind::NotAnd, span: Some(span) });
        }
        let note = self.grammar.spans[this - 1];
        self.warnings.push(Warning { kind: WarningKind::AndPredicateNote, span: Some(note) });
        let (nb, _) = self.and_and;
        self.and_and = (nb + 1, this);
        self.and_not = self.and_not + 1;
        self.not_not = 0;
        self.not_and = 0;
        self.verify_oom_oom();
        self.oom_oom = (0, 0);
        self.oom_zom = (0, 0);
        assert(self.counters() == on_and(g, c0, this).0);
        assert(self.warnings@ == w0 + on_and(g, c0, this).1);
        self.visit_expr(child, Ghost((fuel - 1) as nat));
        assert(self.warnings@ == w0 + run(g, c0, this, fuel).1);
    }
}

/// The well-formedness of `g` bounds the sub-expressions of its
/// expression `i`.
pub open spec fn children_below_holds(g: AGrammar, i: int) -> bool {
    crate::middle::analysis::ast::children_below(g.exprs@[i], g.exprs@.len())
}

} // verus!
