//! Chains of a grammar: from an expression, the analyses follow the operand
//! of `*`, `+`, `!` and `&`, and the definition of a called rule, until they
//! meet any other expression.
use vstd::prelude::*;

use crate::middle::analysis::ast::{
    children_below, lemma_first_rule_found, same_calls, AGrammar, Expression, Ident, Warning,
    WarningKind,
};

verus! {

/// The chain goes on after `e`.
pub open spec fn is_link(e: Expression) -> bool {
    ||| e is NonTerminalSymbol
    ||| e is ZeroOrMore
    ||| e is OneOrMore
    ||| e is NotPredicate
    ||| e is AndPredicate
}

/// The expression that follows `i` in a chain; an expression that ends the
/// chain is followed by itself.
pub open spec fn next_in_chain(g: AGrammar, i: usize) -> usize {
    match g.exprs@[i as int] {
        Expression::NonTerminalSymbol(id) => g.rule_expr(id),
        Expression::ZeroOrMore(c) => c,
        Expression::OneOrMore(c) => c,
        Expression::NotPredicate(c) => c,
        Expression::AndPredicate(c) => c,
        _ => i,
    }
}

/// The expression `k` steps down the chain from `i`.
pub open spec fn nth_in_chain(g: AGrammar, i: usize, k: nat) -> usize
    decreases k,
{
    if k == 0 {
        i
    } else {
        nth_in_chain(g, next_in_chain(g, i), (k - 1) as nat)
    }
}

/// The first `n` expressions of the chain from `i` all let it go on.
pub open spec fn links_before(g: AGrammar, i: usize, n: nat) -> bool {
    forall|s: nat| s < n ==> is_link(#[trigger] g.exprs@[nth_in_chain(g, i, s) as int])
}

/// The expressions of steps `1` to `m - 1` of the chain from `i` are all
/// rule calls.
pub open spec fn calls_after(g: AGrammar, i: usize, m: nat) -> bool {
    forall|s: nat|
        0 < s < m ==> (#[trigger] g.exprs@[nth_in_chain(g, i, s) as int]) is NonTerminalSymbol
}

/// The first `n` links of the chain from `i`, less the first one, are the
/// first `n - 1` links of the chain from the next expression.
pub proof fn lemma_links_shift(g: AGrammar, i: usize, n: nat)
    requires
        n > 0,
        links_before(g, i, n),
    ensures
        is_link(g.exprs@[i as int]),
        links_before(g, next_in_chain(g, i), (n - 1) as nat),
{
    assert(is_link(g.exprs@[nth_in_chain(g, i, 0) as int]));
    let j = next_in_chain(g, i);
    assert forall|s: nat| s < (n - 1) as nat implies is_link(
        #[trigger] g.exprs@[nth_in_chain(g, j, s) as int],
    ) by {
        assert(nth_in_chain(g, i, s + 1) == nth_in_chain(g, j, s));
        assert(is_link(g.exprs@[nth_in_chain(g, i, s + 1) as int]));
    }
}

/// A chain that starts with a link and goes on with `m - 1` rule calls has
/// links for its first `m` steps.
pub proof fn lemma_calls_are_links(g: AGrammar, i: usize, m: nat)
    requires
        is_link(g.exprs@[i as int]),
        calls_after(g, i, m),
    ensures
        links_before(g, i, m),
{
    assert forall|s: nat| s < m implies is_link(#[trigger] g.exprs@[nth_in_chain(g, i, s) as int]) by {
        if s > 0 {
            assert(g.exprs@[nth_in_chain(g, i, s) as int] is NonTerminalSymbol);
        }
    }
}

/// The number of expressions that satisfy `pred` among the first `fuel`
/// expressions of the chain from `i` (the expression that ends the chain
/// included).
pub open spec fn count_in_chain(
    g: AGrammar,
    i: usize,
    fuel: nat,
    pred: spec_fn(Expression) -> bool,
) -> nat
    decreases fuel,
{
    if fuel == 0 {
        0
    } else {
        (if pred(g.exprs@[i as int]) {
            1nat
        } else {
            0nat
        }) + if is_link(g.exprs@[i as int]) {
            count_in_chain(g, next_in_chain(g, i), (fuel - 1) as nat, pred)
        } else {
            0nat
        }
    }
}

/// `e` is a predicate or a repetition that a chain goes through.
pub open spec fn is_operator(e: Expression) -> bool {
    ||| e is ZeroOrMore
    ||| e is OneOrMore
    ||| e is NotPredicate
    ||| e is AndPredicate
}

/// Following the chain from `i` ends within `fuel` expressions.
pub open spec fn walk_ends(g: AGrammar, i: usize, fuel: nat) -> bool
    decreases fuel,
{
    if fuel == 0 {
        false
    } else {
        match g.exprs@[i as int] {
            Expression::NonTerminalSymbol(id) => walk_ends(g, g.rule_expr(id), (fuel - 1) as nat),
            Expression::ZeroOrMore(c) => walk_ends(g, c, (fuel - 1) as nat),
            Expression::OneOrMore(c) => walk_ends(g, c, (fuel - 1) as nat),
            Expression::NotPredicate(c) => walk_ends(g, c, (fuel - 1) as nat),
            Expression::AndPredicate(c) => walk_ends(g, c, (fuel - 1) as nat),
            _ => true,
        }
    }
}

/// Some warning of `s` satisfies `p`.
pub open spec fn has_such(s: Seq<Warning>, p: spec_fn(Warning) -> bool) -> bool {
    exists|j: int| 0 <= j < s.len() && p(#[trigger] s[j])
}

/// Being of kind `kind`.
pub open spec fn kind_is(kind: WarningKind) -> spec_fn(Warning) -> bool {
    |w: Warning| w.kind == kind
}

/// Being the warning `w0`.
pub open spec fn is_warning(w0: Warning) -> spec_fn(Warning) -> bool {
    |w: Warning| w == w0
}

/// A sequence that has a warning equal to `w0` contains it.
pub proof fn lemma_such_contains(s: Seq<Warning>, w0: Warning)
    requires
        has_such(s, is_warning(w0)),
    ensures
        s.contains(w0),
{
    let j = choose|j: int| 0 <= j < s.len() && is_warning(w0)(#[trigger] s[j]);
    assert(s[j] == w0);
}

/// Some warning of `s` is of kind `kind`.
pub open spec fn has_kind(s: Seq<Warning>, kind: WarningKind) -> bool {
    has_such(s, kind_is(kind))
}

/// A warning kept on either side of a concatenation is kept in it.
pub proof fn lemma_has_such_concat(a: Seq<Warning>, s: Seq<Warning>, p: spec_fn(Warning) -> bool)
    ensures
        has_such(a, p) ==> has_such(a + s, p),
        has_such(s, p) ==> has_such(a + s, p),
{
    if has_such(a, p) {
        let j = choose|j: int| 0 <= j < a.len() && p(#[trigger] a[j]);
        assert((a + s)[j] == a[j]);
    }
    if has_such(s, p) {
        let j = choose|j: int| 0 <= j < s.len() && p(#[trigger] s[j]);
        assert((a + s)[a.len() + j] == s[j]);
    }
}

/// A warning of kind `kind` kept on either side of a concatenation is kept
/// in it.
pub proof fn lemma_has_kind_concat(a: Seq<Warning>, s: Seq<Warning>, kind: WarningKind)
    ensures
        has_kind(a, kind) ==> has_kind(a + s, kind),
        has_kind(s, kind) ==> has_kind(a + s, kind),
{
    lemma_has_such_concat(a, s, kind_is(kind));
}

/// The first warning of `s` is of kind `kind`.
pub proof fn lemma_first_kind(s: Seq<Warning>, kind: WarningKind)
    requires
        s.len() > 0,
        s[0].kind == kind,
    ensures
        has_kind(s, kind),
{
    assert(kind_is(kind)(s[0]));
}

/// When the chain from `i` ends within `fuel` expressions, its first `n`
/// expressions let it go on only when fewer than `fuel` are followed, and
/// the rest of the chain ends within what is left.
pub proof fn lemma_walk_ends_after(g: AGrammar, i: usize, fuel: nat, n: nat)
    requires
        walk_ends(g, i, fuel),
        links_before(g, i, n),
    ensures
        n < fuel,
        walk_ends(g, nth_in_chain(g, i, n), (fuel - n) as nat),
    decreases n,
{
    if n > 0 {
        lemma_links_shift(g, i, n);
        lemma_walk_ends_after(g, next_in_chain(g, i), (fuel - 1) as nat, (n - 1) as nat);
    }
}

/// Whether following the chain from `i` ends within `fuel` expressions.
pub fn chain_ends(g: &AGrammar, i: usize, fuel: usize) -> (b: bool)
    requires
        g.wf(),
        i < g.exprs@.len(),
    ensures
        b == walk_ends(*g, i, fuel as nat),
{
    let mut j = i;
    let mut f = fuel;
    loop
        invariant
            g.wf(),
            j < g.exprs@.len(),
            walk_ends(*g, j, f as nat) == walk_ends(*g, i, fuel as nat),
        decreases f,
    {
        if f == 0 {
            return false;
        }
        proof {
            assert(children_below(g.exprs@[j as int], g.exprs@.len()));
        }
        match g.expr_by_index(j) {
            Expression::NonTerminalSymbol(id) => {
                proof {
                    assert(g.has_rule(*id));
                }
                j = g.find_rule_by_ident(*id).expr_idx;
            },
            Expression::ZeroOrMore(c) => j = *c,
            Expression::OneOrMore(c) => j = *c,
            Expression::NotPredicate(c) => j = *c,
            Expression::AndPredicate(c) => j = *c,
            _ => return true,
        }
        f = f - 1;
    }
}


/// A rule that exists is defined by an expression of the grammar.
pub proof fn lemma_rule_expr_below(g: AGrammar, id: Ident)
    requires
        g.wf(),
        g.has_rule(id),
    ensures
        0 <= g.rule_index(id) < g.rules@.len(),
        g.rule_expr(id) < g.exprs@.len(),
{
    lemma_first_rule_found(g.rules@, id, 0);
    assert(g.rules@[g.rule_index(id)].expr_idx < g.exprs@.len());
}

/// The next expression of a chain in a well-formed grammar is one of its
/// expressions.
pub proof fn lemma_next_below(g: AGrammar, i: usize)
    requires
        g.wf(),
        i < g.exprs@.len(),
    ensures
        next_in_chain(g, i) < g.exprs@.len(),
{
    assert(children_below(g.exprs@[i as int], g.exprs@.len()));
    if let Expression::NonTerminalSymbol(id) = g.exprs@[i as int] {
        lemma_rule_expr_below(g, id);
    }
}

/// Chains are followed alike in two grammars with the same calls.
pub proof fn lemma_walk_ends_same(g: AGrammar, h: AGrammar, i: usize, fuel: nat)
    requires
        g.wf(),
        same_calls(g, h),
        i < g.exprs@.len(),
    ensures
        walk_ends(h, i, fuel) == walk_ends(g, i, fuel),
    decreases fuel,
{
    if fuel > 0 {
        lemma_next_below(g, i);
        if let Expression::NonTerminalSymbol(id) = g.exprs@[i as int] {
            assert(g.has_rule(id));
        }
        if is_link(g.exprs@[i as int]) {
            lemma_walk_ends_same(g, h, next_in_chain(g, i), (fuel - 1) as nat);
        }
    }
}

/// The expression at step `s` of the chain from `i`.
pub open spec fn expr_at(g: AGrammar, i: usize, s: nat) -> Expression {
    g.exprs@[nth_in_chain(g, i, s) as int]
}

/// `e` is the operator of a run: `+` when `plus` holds, `&` otherwise.
pub open spec fn run_op(plus: bool, e: Expression) -> bool {
    if plus {
        e is OneOrMore
    } else {
        e is AndPredicate
    }
}

/// Steps `k` to `l` of the chain from `i` are a run of operators (`+` when
/// `plus` holds, `&` otherwise), with only rule calls among them, that
/// nothing before extends (no operator of the run reached through calls
/// only before step `k`) and that the expression at step `e`, after only
/// rule calls, ends (it is neither the operator nor a call).
pub open spec fn maximal_run(g: AGrammar, i: usize, plus: bool, k: nat, l: nat, e: nat) -> bool {
    &&& k < l < e
    &&& run_op(plus, expr_at(g, i, k))
    &&& run_op(plus, expr_at(g, i, l))
    &&& forall|s: nat|
        k < s < l ==> run_op(plus, #[trigger] expr_at(g, i, s)) || expr_at(g, i, s) is NonTerminalSymbol
    &&& forall|s: nat| l < s < e ==> (#[trigger] expr_at(g, i, s)) is NonTerminalSymbol
    &&& !run_op(plus, expr_at(g, i, e))
    &&& !(expr_at(g, i, e) is NonTerminalSymbol)
    &&& forall|j: nat|
        j < k && (forall|s: nat| j < s < k ==> (#[trigger] expr_at(g, i, s)) is NonTerminalSymbol)
            ==> !run_op(plus, #[trigger] expr_at(g, i, j))
}


/// The operators that a chain goes through on its way from one operator of
/// a pattern to the other: rule calls, with `!`, `&`, `+`, `*`, or `*` and
/// `+` according to the pattern.
pub enum Via {
    Calls,
    Nots,
    Ands,
    Pluses,
    Stars,
    StarsPluses,
}

/// `e` may stand between the two operators of a pattern that goes `via`.
pub open spec fn allowed(via: Via, e: Expression) -> bool {
    ||| e is NonTerminalSymbol
    ||| (via is Nots && e is NotPredicate)
    ||| (via is Ands && e is AndPredicate)
    ||| (via is Pluses && e is OneOrMore)
    ||| (via is Stars && e is ZeroOrMore)
    ||| (via is StarsPluses && (e is ZeroOrMore || e is OneOrMore))
}

/// From `x`, the chain reaches `y` in one step or more, and every
/// expression that it goes through on the way is allowed by `via`.
pub open spec fn leads_to(g: AGrammar, x: usize, y: usize, via: Via) -> bool {
    exists|m: nat|
        m >= 1 && #[trigger] nth_in_chain(g, x, m) == y && forall|s: nat|
            0 < s < m ==> allowed(via, #[trigger] expr_at(g, x, s))
}

/// `x` stands on the chain from `root`.
pub open spec fn on_chain(g: AGrammar, root: usize, x: usize) -> bool {
    exists|k: nat| #[trigger] nth_in_chain(g, root, k) == x
}

/// One step more down a chain is the next expression of the last one.
pub proof fn lemma_nth_next(g: AGrammar, x: usize, m: nat)
    ensures
        nth_in_chain(g, x, m + 1) == next_in_chain(g, nth_in_chain(g, x, m)),
    decreases m,
{
    if m > 0 {
        let j = next_in_chain(g, x);
        lemma_nth_next(g, j, (m - 1) as nat);
        assert((m - 1) as nat + 1 == m);
        assert(nth_in_chain(g, x, m + 1) == nth_in_chain(g, j, m));
        assert(nth_in_chain(g, x, m) == nth_in_chain(g, j, (m - 1) as nat));
    } else {
        assert(nth_in_chain(g, x, 1) == nth_in_chain(g, next_in_chain(g, x), 0));
    }
}

/// A chain that leads from `x` to `i`, through an `i` that is allowed,
/// leads to the expression after `i`.
pub proof fn lemma_leads_step(g: AGrammar, x: usize, i: usize, via: Via)
    requires
        leads_to(g, x, i, via),
        allowed(via, g.exprs@[i as int]),
    ensures
        leads_to(g, x, next_in_chain(g, i), via),
{
    let m = choose|m: nat|
        m >= 1 && #[trigger] nth_in_chain(g, x, m) == i && forall|s: nat|
            0 < s < m ==> allowed(via, #[trigger] expr_at(g, x, s));
    lemma_nth_next(g, x, m);
    assert forall|s: nat| 0 < s < m + 1 implies allowed(via, #[trigger] expr_at(g, x, s)) by {
        if s == m {
            assert(expr_at(g, x, s) == g.exprs@[i as int]);
        }
    }
    assert(nth_in_chain(g, x, m + 1) == next_in_chain(g, i));
}

/// Every expression leads to the next one.
pub proof fn lemma_leads_one(g: AGrammar, i: usize, via: Via)
    ensures
        leads_to(g, i, next_in_chain(g, i), via),
{
    assert(nth_in_chain(g, i, 1) == next_in_chain(g, i)) by {
        lemma_nth_next(g, i, 0);
    }
}

/// The expression after one on the chain is on the chain.
pub proof fn lemma_on_chain_next(g: AGrammar, root: usize, i: usize)
    requires
        on_chain(g, root, i),
    ensures
        on_chain(g, root, next_in_chain(g, i)),
{
    let k = choose|k: nat| #[trigger] nth_in_chain(g, root, k) == i;
    lemma_nth_next(g, root, k);
    assert(nth_in_chain(g, root, k + 1) == next_in_chain(g, i));
}

/// The first expression of a chain is on it.
pub proof fn lemma_on_chain_root(g: AGrammar, root: usize)
    ensures
        on_chain(g, root, root),
{
    assert(nth_in_chain(g, root, 0) == root);
}

/// A warning of a concatenation is a warning of one of its parts.
pub proof fn lemma_contains_concat(a: Seq<Warning>, b: Seq<Warning>, w: Warning)
    requires
        (a + b).contains(w),
    ensures
        a.contains(w) || b.contains(w),
{
    let j = choose|j: int| 0 <= j < (a + b).len() && (a + b)[j] == w;
    if j < a.len() {
        assert(a[j] == w);
    } else {
        assert(b[j - a.len()] == w);
    }
}

} // verus!
