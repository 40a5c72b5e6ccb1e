//! Detection of useless chains of predicates and repetitions (`!(!e)`,
//! `&(&e)`, `!(&e)`, `&(!e)`, `(e+)+` and `(e+)*`). Each rule's expression
//! is followed through its chain of unary operators and rule calls; the
//! operators met are remembered, and each warning covers the part of the
//! source between the operators that make the pattern.
use vstd::prelude::*;

use crate::middle::analysis::ast::{AGrammar, Expression, Partial, Span, Warning, WarningKind};
use crate::middle::analysis::chain::{chain_ends, walk_ends};

verus! {

/// The operators remembered while following a chain: the expressions of
/// the `!`, `*`, `!` and `&` met, and the expression and sub-expression of
/// the `+` and `&` met.
pub struct Trail {
    pub not_not: Seq<usize>,
    pub oom_zom: Seq<usize>,
    pub not_and: Seq<usize>,
    pub and_not: Seq<usize>,
    pub oom_oom: Seq<(usize, usize)>,
    pub and_and: Seq<(usize, usize)>,
}

/// Nothing remembered.
pub open spec fn empty_trail() -> Trail {
    Trail {
        not_not: seq![],
        oom_zom: seq![],
        not_and: seq![],
        and_not: seq![],
        oom_oom: seq![],
        and_and: seq![],
    }
}

/// Every index of `s` is below `n`.
pub open spec fn all_below(s: Seq<usize>, n: nat) -> bool {
    forall|k: int| 0 <= k < s.len() ==> #[trigger] s[k] < n
}

/// Both indices of every pair of `s` are below `n`.
pub open spec fn pairs_below(s: Seq<(usize, usize)>, n: nat) -> bool {
    forall|k: int| 0 <= k < s.len() ==> (#[trigger] s[k]).0 < n && s[k].1 < n
}

/// A warning of kind `kind` over the source between `a` and `b`.
pub open spec fn warn_between(kind: WarningKind, a: u32, b: u32) -> Warning {
    Warning { kind, span: Some(Span::between(a, b)) }
}

/// `w` when `cond` holds, nothing otherwise.
pub open spec fn warn_if(cond: bool, w: Warning) -> Seq<Warning> {
    if cond {
        seq![w]
    } else {
        seq![]
    }
}

/// Closing a run of `&`: two or more of them give a warning from the start
/// of the first to the start of the operand of the last. The run is
/// forgotten.
pub open spec fn verify_and_and(g: AGrammar, t: Trail) -> (Trail, Seq<Warning>) {
    let aa = t.and_and;
    (
        Trail { and_and: seq![], ..t },
        warn_if(
            aa.len() >= 2,
            warn_between(
                WarningKind::AndAnd,
                g.spans@[aa[0].0 as int].lo,
                g.spans@[aa.last().1 as int].lo,
            ),
        ),
    )
}

/// Closing a run of `+`: two or more of them give a warning from the end of
/// the first to the end of the operand of the last. The run is forgotten.
pub open spec fn verify_oom_oom(g: AGrammar, t: Trail) -> (Trail, Seq<Warning>) {
    let oo = t.oom_oom;
    (
        Trail { oom_oom: seq![], ..t },
        warn_if(
            oo.len() >= 2,
            warn_between(
                WarningKind::OneOrMoreOneOrMore,
                g.spans@[oo[0].0 as int].hi,
                g.spans@[oo.last().1 as int].hi,
            ),
        ),
    )
}

/// Meeting an expression that ends the chain.
pub open spec fn on_other(g: AGrammar, t: Trail) -> (Trail, Seq<Warning>) {
    let (t1, w1) = verify_and_and(g, t);
    let (t2, w2) = verify_oom_oom(g, t1);
    (Trail { not_not: seq![], not_and: seq![], and_not: seq![], oom_zom: seq![], ..t2 }, w1 + w2)
}

/// Meeting `child+` at `this`: after a `*`, the first `*` remembered gives a
/// warning from the end of `child` to its own end, and is forgotten.
pub open spec fn on_one_or_more(g: AGrammar, t: Trail, this: usize, child: usize) -> (
    Trail,
    Seq<Warning>,
) {
    let oz = t.oom_zom;
    let w0 = warn_if(
        oz.len() > 0,
        warn_between(
            WarningKind::OneOrMoreZeroOrMore,
            g.spans@[child as int].hi,
            g.spans@[oz[0] as int].hi,
        ),
    );
    let t0 = Trail {
        oom_zom: if oz.len() > 0 {
            oz.remove(0)
        } else {
            oz
        },
        oom_oom: t.oom_oom.push((this, child)),
        ..t
    };
    let (t1, w1) = verify_and_and(g, t0);
    (Trail { not_not: seq![], not_and: seq![], and_not: seq![], ..t1 }, w0 + w1)
}

/// Meeting `e*` at `this`.
pub open spec fn on_zero_or_more(g: AGrammar, t: Trail, this: usize) -> (Trail, Seq<Warning>) {
    let t0 = Trail { oom_zom: t.oom_zom.push(this), ..t };
    let (t1, w1) = verify_and_and(g, t0);
    let (t2, w2) = verify_oom_oom(g, t1);
    (Trail { not_not: seq![], not_and: seq![], and_not: seq![], ..t2 }, w1 + w2)
}

/// Meeting `!child` at `this`: after a `!` or an `&`, the first one
/// remembered gives a warning from its start to the start of `child`, and
/// is forgotten.
pub open spec fn on_not(g: AGrammar, t: Trail, this: usize, child: usize) -> (
    Trail,
    Seq<Warning>,
) {
    let nn = t.not_not;
    let an = t.and_not;
    let w_nn = warn_if(
        nn.len() > 0,
        warn_between(WarningKind::NotNot, g.spans@[nn[0] as int].lo, g.spans@[child as int].lo),
    );
    let w_an = warn_if(
        an.len() > 0,
        warn_between(WarningKind::AndNot, g.spans@[an[0] as int].lo, g.spans@[child as int].lo),
    );
    let nn1 = if nn.len() > 0 {
        nn.remove(0)
    } else {
        nn
    };
    let t0 = Trail { not_not: nn1.push(this), not_and: t.not_and.push(this), ..t };
    let (t1, w1) = verify_and_and(g, t0);
    let (t2, w2) = verify_oom_oom(g, t1);
    (Trail { and_not: seq![], oom_zom: seq![], ..t2 }, w_nn + w_an + w1 + w2)
}

/// Meeting `&child` at `this`: after a `!`, the first one remembered gives
/// a warning from its start to the start of `child`, and is forgotten.
pub open spec fn on_and(g: AGrammar, t: Trail, this: usize, child: usize) -> (
    Trail,
    Seq<Warning>,
) {
    let na = t.not_and;
    let w_na = warn_if(
        na.len() > 0,
        warn_between(WarningKind::NotAnd, g.spans@[na[0] as int].lo, g.spans@[child as int].lo),
    );
    let t0 = Trail {
        and_and: t.and_and.push((this, child)),
        and_not: t.and_not.push(this),
        ..t
    };
    let (t1, w1) = verify_oom_oom(g, t0);
    (Trail { not_not: seq![], not_and: seq![], oom_zom: seq![], ..t1 }, w_na + w1)
}

/// What is remembered and the warnings given after following the chain
/// from `i`, starting with `t` remembered.
pub open spec fn run(g: AGrammar, t: Trail, i: usize, fuel: nat) -> (Trail, Seq<Warning>)
    decreases fuel,
{
    if fuel == 0 {
        (t, seq![])
    } else {
        let f = (fuel - 1) as nat;
        match g.exprs@[i as int] {
            Expression::NonTerminalSymbol(id) => run(g, t, g.rule_expr(id), f),
            Expression::ZeroOrMore(ch) => {
                let (t1, w1) = on_zero_or_more(g, t, i);
                let (t2, w2) = run(g, t1, ch, f);
                (t2, w1 + w2)
            },
            Expression::OneOrMore(ch) => {
                let (t1, w1) = on_one_or_more(g, t, i, ch);
                let (t2, w2) = run(g, t1, ch, f);
                (t2, w1 + w2)
            },
            Expression::NotPredicate(ch) => {
                let (t1, w1) = on_not(g, t, i, ch);
                let (t2, w2) = run(g, t1, ch, f);
                (t2, w1 + w2)
            },
            Expression::AndPredicate(ch) => {
                let (t1, w1) = on_and(g, t, i, ch);
                let (t2, w2) = run(g, t1, ch, f);
                (t2, w1 + w2)
            },
            _ => on_other(g, t),
        }
    }
}

/// Whether `g` can be analysed: it is well formed and the chain of every
/// rule ends.
pub fn chains_end(g: &AGrammar) -> (b: bool)
    ensures
        b == (g.wf() && rules_walk_end(*g)),
{
    if !g.is_well_formed() {
        return false;
    }
    let n = g.exprs.len();
    let mut r: usize = 0;
    while r < g.rules.len()
        invariant
            g.wf(),
            n == g.exprs@.len(),
            0 <= r <= g.rules@.len(),
            forall|q: int| 0 <= q < r ==> walk_ends(*g, #[trigger] g.rules@[q].expr_idx, n as nat),
        decreases g.rules@.len() - r,
    {
        proof {
            assert(g.rules@[r as int].expr_idx < n);
        }
        if !chain_ends(g, g.rules[r].expr_idx, n) {
            return false;
        }
        r = r + 1;
    }
    true
}

/// Every rule's chain can be followed to its end.
pub open spec fn rules_walk_end(g: AGrammar) -> bool {
    forall|r: int|
        0 <= r < g.rules@.len() ==> walk_ends(g, #[trigger] g.rules@[r].expr_idx, g.exprs@.len())
}

/// The warnings about rule `r`, analysed with nothing remembered.
pub open spec fn rule_report(g: AGrammar, r: int) -> Seq<Warning> {
    run(g, empty_trail(), g.rules@[r].expr_idx, g.exprs@.len()).1
}

/// The warnings about the first `n` rules, in the order of the rules.
pub open spec fn chaining_report(g: AGrammar, n: nat) -> Seq<Warning>
    decreases n,
{
    if n == 0 {
        seq![]
    } else {
        chaining_report(g, (n - 1) as nat) + rule_report(g, n - 1)
    }
}

/// Following a chain to its end leaves nothing remembered.
pub proof fn lemma_run_forgets(g: AGrammar, t: Trail, i: usize, fuel: nat)
    requires
        walk_ends(g, i, fuel),
    ensures
        run(g, t, i, fuel).0 == empty_trail(),
    decreases fuel,
{
    let f = (fuel - 1) as nat;
    match g.exprs@[i as int] {
        Expression::NonTerminalSymbol(id) => lemma_run_forgets(g, t, g.rule_expr(id), f),
        Expression::ZeroOrMore(ch) => lemma_run_forgets(g, on_zero_or_more(g, t, i).0, ch, f),
        Expression::OneOrMore(ch) => lemma_run_forgets(g, on_one_or_more(g, t, i, ch).0, ch, f),
        Expression::NotPredicate(ch) => lemma_run_forgets(g, on_not(g, t, i, ch).0, ch, f),
        Expression::AndPredicate(ch) => lemma_run_forgets(g, on_and(g, t, i, ch).0, ch, f),
        _ => {
            assert(on_other(g, t).0 =~= empty_trail());
        },
    }
}

/// The analysis of a grammar, with the operators remembered while it
/// follows a chain and the warnings given so far.
pub struct UselessChaining<'a> {
    grammar: &'a AGrammar,
    not_not: Vec<usize>,
    oom_zom: Vec<usize>,
    not_and: Vec<usize>,
    and_not: Vec<usize>,
    oom_oom: Vec<(usize, usize)>,
    and_and: Vec<(usize, usize)>,
    warnings: Vec<Warning>,
}

impl<'a> UselessChaining<'a> {
    /// What the analysis remembers.
    pub closed spec fn trail(&self) -> Trail {
        Trail {
            not_not: self.not_not@,
            oom_zom: self.oom_zom@,
            not_and: self.not_and@,
            and_not: self.and_not@,
            oom_oom: self.oom_oom@,
            and_and: self.and_and@,
        }
    }

    closed spec fn inv(&self) -> bool {
        &&& self.grammar.wf()
        &&& all_below(self.not_not@, self.grammar.exprs@.len())
        &&& all_below(self.oom_zom@, self.grammar.exprs@.len())
        &&& all_below(self.not_and@, self.grammar.exprs@.len())
        &&& all_below(self.and_not@, self.grammar.exprs@.len())
        &&& pairs_below(self.oom_oom@, self.grammar.exprs@.len())
        &&& pairs_below(self.and_and@, self.grammar.exprs@.len())
    }

    /// Runs the analysis on `grammar`. The pass gives back no grammar; what
    /// it finds are the warnings, rule after rule.
    pub fn analyse(grammar: AGrammar) -> (res: (Partial<AGrammar>, Vec<Warning>))
        requires
            grammar.wf(),
            rules_walk_end(grammar),
        ensures
            res.0 is Nothing,
            res.1@ == chaining_report(grammar, grammar.rules@.len()),
    {
        let warnings = UselessChaining::check_chaining(&grammar);
        (Partial::Nothing, warnings)
    }

    fn check_chaining(grammar: &'a AGrammar) -> (w: Vec<Warning>)
        requires
            grammar.wf(),
            rules_walk_end(*grammar),
        ensures
            w@ == chaining_report(*grammar, grammar.rules@.len()),
    {
        let mut analyser = UselessChaining {
            grammar: grammar,
            not_not: Vec::new(),
            and_and: Vec::new(),
            not_and: Vec::new(),
            and_not: Vec::new(),
            oom_oom: Vec::new(),
            oom_zom: Vec::new(),
            warnings: Vec::new(),
        };
        let n = grammar.exprs.len();
        let mut k: usize = 0;
        assert(analyser.trail() =~= empty_trail());
        while k < grammar.rules.len()
            invariant
                analyser.grammar == grammar,
                analyser.inv(),
                analyser.trail() == empty_trail(),
                analyser.warnings@ == chaining_report(*grammar, k as nat),
                k <= grammar.rules@.len(),
                n == grammar.exprs@.len(),
                grammar.wf(),
                rules_walk_end(*grammar),
            decreases grammar.rules@.len() - k,
        {
            let root = grammar.rules[k].expr_idx;
            proof {
                assert(walk_ends(*grammar, grammar.rules@[k as int].expr_idx, n as nat));
            }
            analyser.visit_expr(root, Ghost(n as nat));
            proof {
                lemma_run_forgets(*grammar, empty_trail(), root, n as nat);
            }
            k = k + 1;
        }
        analyser.warnings
    }

    fn clear_vars(&mut self)
        requires
            old(self).inv(),
        ensures
            final(self).grammar == old(self).grammar,
            final(self).inv(),
            final(self).trail() == on_other(*old(self).grammar, old(self).trail()).0,
            final(self).warnings@ == old(self).warnings@ + on_other(
                *old(self).grammar,
                old(self).trail(),
            ).1,
    {
        self.verify_and_and();
        self.verify_oom_oom();
        self.not_not.clear();
        self.not_and.clear();
        self.and_not.clear();
        self.oom_zom.clear();
        assert(self.trail() =~= on_other(*old(self).grammar, old(self).trail()).0);
    }

    fn verify_and_and(&mut self)
        requires
            old(self).inv(),
        ensures
            final(self).grammar == old(self).grammar,
            final(self).inv(),
            final(self).trail() == verify_and_and(*old(self).grammar, old(self).trail()).0,
            final(self).warnings@ == old(self).warnings@ + verify_and_and(
                *old(self).grammar,
                old(self).trail(),
            ).1,
    {
        let ghost aa = self.and_and@;
        if self.and_and.len() >= 2 {
            let (first_and, _) = self.and_and.remove(0);
            let (_, last_and) = self.and_and.pop().expect("error");
            assert(aa.last() == aa.remove(0).last());
            let lo = self.grammar.spans[first_and].lo();
            let hi = self.grammar.spans[last_and].lo();
            self.warnings.push(
                Warning { kind: WarningKind::AndAnd, span: Some(Span::new(lo, hi)) },
            );
        }
        self.and_and.clear();
        assert(self.trail() =~= verify_and_and(*old(self).grammar, old(self).trail()).0);
    }

    fn verify_oom_oom(&mut self)
        requires
            old(self).inv(),
        ensures
            final(self).grammar == old(self).grammar,
            final(self).inv(),
            final(self).trail() == verify_oom_oom(*old(self).grammar, old(self).trail()).0,
            final(self).warnings@ == old(self).warnings@ + verify_oom_oom(
                *old(self).grammar,
                old(self).trail(),
            ).1,
    {
        let ghost oo = self.oom_oom@;
        if self.oom_oom.len() >= 2 {
            let (first_oom, _) = self.oom_oom.remove(0);
            let (_, last_oom) = self.oom_oom.pop().expect("error");
            assert(oo.last() == oo.remove(0).last());
            let lo = self.grammar.spans[first_oom].hi();
            let hi = self.grammar.spans[last_oom].hi();
            self.warnings.push(
                Warning { kind: WarningKind::OneOrMoreOneOrMore, span: Some(Span::new(lo, hi)) },
            );
        }
        self.oom_oom.clear();
        assert(self.trail() =~= verify_oom_oom(*old(self).grammar, old(self).trail()).0);
    }

    /// The expression at `index` in the analysed grammar.
    fn expr_by_index(&self, index: usize) -> (e: &'a Expression)
        requires
            index < self.grammar.exprs@.len(),
        ensures
            *e == self.grammar.exprs@[index as int],
    {
        self.grammar.expr_by_index(index)
    }

    fn visit_expr(&mut self, this: usize, Ghost(fuel): Ghost<nat>)
        requires
            old(self).inv(),
            this < old(self).grammar.exprs@.len(),
            walk_ends(*old(self).grammar, this, fuel),
        ensures
            final(self).grammar == old(self).grammar,
            final(self).inv(),
            final(self).trail() == run(*old(self).grammar, old(self).trail(), this, fuel).0,
            final(self).warnings@ == old(self).warnings@ + run(
                *old(self).grammar,
                old(self).trail(),
                this,
                fuel,
            ).1,
        decreases fuel, 1nat,
    {
        match self.expr_by_index(this) {
            Expression::NonTerminalSymbol(rule) => {
                let rule = *rule;
                self.visit_non_terminal_symbol(this, rule, Ghost(fuel))
            },
            Expression::ZeroOrMore(child) => {
                let child = *child;
                self.visit_zero_or_more(this, child, Ghost(fuel))
            },
            Expression::OneOrMore(child) => {
                let child = *child;
                self.visit_one_or_more(this, child, Ghost(fuel))
            },
            Expression::NotPredicate(child) => {
                let child = *child;
                self.visit_not_predicate(this, child, Ghost(fuel))
            },
            Expression::AndPredicate(child) => {
                let child = *child;
                self.visit_and_predicate(this, child, Ghost(fuel))
            },
            _ => {
                proof {
                    assert(fuel > 0);
                }
                self.clear_vars()
            },
        }
    }

    fn visit_non_terminal_symbol(&mut self, this: usize, rule: u64, Ghost(fuel): Ghost<nat>)
        requires
            old(self).inv(),
            this < old(self).grammar.exprs@.len(),
            old(self).grammar.exprs@[this as int] == Expression::NonTerminalSymbol(rule),
            walk_ends(*old(self).grammar, this, fuel),
        ensures
            final(self).grammar == old(self).grammar,
            final(self).inv(),
            final(self).trail() == run(*old(self).grammar, old(self).trail(), this, fuel).0,
            final(self).warnings@ == old(self).warnings@ + run(
                *old(self).grammar,
                old(self).trail(),
                this,
                fuel,
            ).1,
        decreases fuel, 0nat,
    {
        proof {
            assert(self.grammar.has_rule(rule));
        }
        let target = self.grammar.find_rule_by_ident(rule).expr_idx;
        proof {
            assert(self.grammar.rules@[self.grammar.rule_index(rule)].expr_idx
                < self.grammar.exprs@.len());
        }
        self.visit_expr(target, Ghost((fuel - 1) as nat))
    }

    fn visit_one_or_more(&mut self, this: usize, child: usize, Ghost(fuel): Ghost<nat>)
        requires
            old(self).inv(),
            this < old(self).grammar.exprs@.len(),
            old(self).grammar.exprs@[this as int] == Expression::OneOrMore(child),
            walk_ends(*old(self).grammar, this, fuel),
        ensures
            final(self).grammar == old(self).grammar,
            final(self).inv(),
            final(self).trail() == run(*old(self).grammar, old(self).trail(), this, fuel).0,
            final(self).warnings@ == old(self).warnings@ + run(
                *old(self).grammar,
                old(self).trail(),
                this,
                fuel,
            ).1,
        decreases fuel, 0nat,
    {
        let ghost g = *self.grammar;
        let ghost t0 = self.trail();
        let ghost w0 = self.warnings@;
        proof {
            assert(crate::middle::analysis::ast::children_below(
                g.exprs@[this as int],
                g.exprs@.len(),
            ));
        }
        if !self.oom_zom.is_empty() {
            let lo = self.grammar.spans[child].hi();
            assert(self.oom_zom@[0] < self.grammar.exprs@.len());
            let zom = self.oom_zom.remove(0);
            let hi = self.grammar.spans[zom].hi();
            self.warnings.push(
                Warning { kind: WarningKind::OneOrMoreZeroOrMore, span: Some(Span::new(lo, hi)) },
            );
        }
        self.oom_oom.push((this, child));
        self.verify_and_and();
        self.not_not.clear();
        self.not_and.clear();
        self.and_not.clear();
        assert(self.trail() =~= on_one_or_more(g, t0, this, child).0);
        assert(self.warnings@ =~= w0 + on_one_or_more(g, t0, this, child).1);
        self.visit_expr(child, Ghost((fuel - 1) as nat));
        assert(self.warnings@ =~= w0 + run(g, t0, this, fuel).1);
    }

    fn visit_zero_or_more(&mut self, this: usize, child: usize, Ghost(fuel): Ghost<nat>)
        requires
            old(self).inv(),
            this < old(self).grammar.exprs@.len(),
            old(self).grammar.exprs@[this as int] == Expression::ZeroOrMore(child),
            walk_ends(*old(self).grammar, this, fuel),
        ensures
            final(self).grammar == old(self).grammar,
            final(self).inv(),
            final(self).trail() == run(*old(self).grammar, old(self).trail(), this, fuel).0,
            final(self).warnings@ == old(self).warnings@ + run(
                *old(self).grammar,
                old(self).trail(),
                this,
                fuel,
            ).1,
        decreases fuel, 0nat,
    {
        let ghost g = *self.grammar;
        let ghost t0 = self.trail();
        let ghost w0 = self.warnings@;
        proof {
            assert(crate::middle::analysis::ast::children_below(
                g.exprs@[this as int],
                g.exprs@.len(),
            ));
        }
        self.oom_zom.push(this);
        self.verify_and_and();
        self.verify_oom_oom();
        self.not_not.clear();
        self.not_and.clear();
        self.and_not.clear();
        assert(self.trail() =~= on_zero_or_more(g, t0, this).0);
        assert(self.warnings@ =~= w0 + on_zero_or_more(g, t0, this).1);
        self.visit_expr(child, Ghost((fuel - 1) as nat));
        assert(self.warnings@ =~= w0 + run(g, t0, this, fuel).1);
    }

    fn visit_not_predicate(&mut self, this: usize, child: usize, Ghost(fuel): Ghost<nat>)
        requires
            old(self).inv(),
            this < old(self).grammar.exprs@.len(),
            old(self).grammar.exprs@[this as int] == Expression::NotPredicate(child),
            walk_ends(*old(self).grammar, this, fuel),
        ensures
            final(self).grammar == old(self).grammar,
            final(self).inv(),
            final(self).trail() == run(*old(self).grammar, old(self).trail(), this, fuel).0,
            final(self).warnings@ == old(self).warnings@ + run(
                *old(self).grammar,
                old(self).trail(),
                this,
                fuel,
            ).1,
        decreases fuel, 0nat,
    {
        let ghost g = *self.grammar;
        let ghost t0 = self.trail();
        let ghost w0 = self.warnings@;
        proof {
            assert(crate::middle::analysis::ast::children_below(
                g.exprs@[this as int],
                g.exprs@.len(),
            ));
        }
        if !self.not_not.is_empty() {
            assert(self.not_not@[0] < self.grammar.exprs@.len());
            let first = self.not_not.remove(0);
            let lo = self.grammar.spans[first].lo();
            let hi = self.grammar.spans[child].lo();
            self.warnings.push(
                Warning { kind: WarningKind::NotNot, span: Some(Span::new(lo, hi)) },
            );
        }
        if !self.and_not.is_empty() {
            assert(self.and_not@[0] < self.grammar.exprs@.len());
            let first = self.and_not.remove(0);
            let lo = self.grammar.spans[first].lo();
            let hi = self.grammar.spans[child].lo();
            self.warnings.push(
                Warning { kind: WarningKind::AndNot, span: Some(Span::new(lo, hi)) },
            );
        }
        self.not_not.push(this);
        self.not_and.push(this);
        self.verify_and_and();
        self.verify_oom_oom();
        self.and_not.clear();
        self.oom_zom.clear();
        assert(self.trail() =~= on_not(g, t0, this, child).0);
        assert(self.warnings@ =~= w0 + on_not(g, t0, this, child).1);
        self.visit_expr(child, Ghost((fuel - 1) as nat));
        assert(self.warnings@ =~= w0 + run(g, t0, this, fuel).1);
    }

    fn visit_and_predicate(&mut self, this: usize, child: usize, Ghost(fuel): Ghost<nat>)
        requires
            old(self).inv(),
            this < old(self).grammar.exprs@.len(),
            old(self).grammar.exprs@[this as int] == Expression::AndPredicate(child),
            walk_ends(*old(self).grammar, this, fuel),
        ensures
            final(self).grammar == old(self).grammar,
            final(self).inv(),
            final(self).trail() == run(*old(self).grammar, old(self).trail(), this, fuel).0,
            final(self).warnings@ == old(self).warnings@ + run(
                *old(self).grammar,
                old(self).trail(),
                this,
                fuel,
            ).1,
        decreases fuel, 0nat,
    {
        let ghost g = *self.grammar;
        let ghost t0 = self.trail();
        let ghost w0 = self.warnings@;
        proof {
            assert(crate::middle::analysis::ast::children_below(
                g.exprs@[this as int],
                g.exprs@.len(),
            ));
        }
        if !self.not_and.is_empty() {
            assert(self.not_and@[0] < self.grammar.exprs@.len());
            let first = self.not_and.remove(0);
            let lo = self.grammar.spans[first].lo();
            let hi = self.grammar.spans[child].lo();
            self.warnings.push(
                Warning { kind: WarningKind::NotAnd, span: Some(Span::new(lo, hi)) },
            );
        }
        self.and_and.push((this, child));
        self.and_not.push(this);
        self.verify_oom_oom();
        self.not_not.clear();
        self.not_and.clear();
        self.oom_zom.clear();
        assert(self.trail() =~= on_and(g, t0, this, child).0);
        assert(self.warnings@ =~= w0 + on_and(g, t0, this, child).1);
        self.visit_expr(child, Ghost((fuel - 1) as nat));
        assert(self.warnings@ =~= w0 + run(g, t0, this, fuel).1);
    }
}

} // verus!
