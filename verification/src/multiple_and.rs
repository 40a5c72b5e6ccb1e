//! Detection of several `&` predicates in the expression list of a grammar.
//! The expressions are read in their order; the `&` predicates are counted,
//! and when an expression that is not an `&` follows two or more counted
//! ones, the grammar is flagged and the count starts again.
use vstd::prelude::*;

use crate::middle::analysis::ast::{AGrammar, Expression, Partial, Warning, WarningKind};

verus! {

/// The number of `&` predicates among the first `p` expressions of `s`.
pub open spec fn and_count(s: Seq<Expression>, p: int) -> nat
    decreases p,
{
    if p <= 0 {
        0
    } else {
        and_count(s, p - 1) + if s[p - 1] is AndPredicate {
            1nat
        } else {
            0nat
        }
    }
}

/// Some expression that is not an `&` comes after two or more `&`.
pub open spec fn has_multiple_and(s: Seq<Expression>) -> bool {
    exists|p: int| 0 <= p < s.len() && !(s[p] is AndPredicate) && #[trigger] and_count(s, p) >= 2
}

/// The warnings of the analysis on the expressions `s`.
pub open spec fn multiple_and_report(s: Seq<Expression>) -> Seq<Warning> {
    if has_multiple_and(s) {
        seq![Warning { kind: WarningKind::MultipleAnd, span: None }]
    } else {
        seq![]
    }
}

/// The analysis that looks for several `&` predicates in a grammar.
pub struct MultipleAnd<'a> {
    pub grammar: &'a AGrammar,
}

impl<'a> MultipleAnd<'a> {
    /// Runs the analysis on `grammar`. The pass gives back no grammar; it
    /// warns once when the grammar has several `&` predicates.
    pub fn analyse(grammar: AGrammar) -> (res: (Partial<AGrammar>, Vec<Warning>))
        ensures
            res.0 is Nothing,
            res.1@ == multiple_and_report(grammar.exprs@),
    {
        let mut warnings: Vec<Warning> = Vec::new();
        if MultipleAnd::detected_multiple_and(&grammar) {
            warnings.push(Warning { kind: WarningKind::MultipleAnd, span: None });
        }
        (Partial::Nothing, warnings)
    }

    /// Whether some expression that is not an `&` comes after two or more
    /// `&` of the grammar.
    pub fn detected_multiple_and(grammar: &AGrammar) -> (detected: bool)
        ensures
            detected == has_multiple_and(grammar.exprs@),
    {
        let ghost s = grammar.exprs@;
        let mut cpt: usize = 0;
        let mut detected = false;
        let mut i: usize = 0;
        while i < grammar.exprs.len()
            invariant
                s == grammar.exprs@,
                i <= s.len(),
                cpt <= i,
                !detected ==> cpt == and_count(s, i as int),
                detected <==> exists|p: int|
                    0 <= p < i && !(s[p] is AndPredicate) && #[trigger] and_count(s, p) >= 2,
            decreases s.len() - i,
        {
            match &grammar.exprs[i] {
                Expression::AndPredicate(_) => cpt = cpt + 1,
                _ => {
                    if cpt >= 2 {
                        detected = true;
                        cpt = 0;
                    }
                },
            }
            i = i + 1;
        }
        detected
    }
}


/// Two `&` at `p` and `q` before `n` make the count before `n` at least two.
proof fn lemma_two_ands_counted(s: Seq<Expression>, p: int, q: int, n: int)
    requires
        0 <= p < q < n <= s.len(),
        s[p] is AndPredicate,
        s[q] is AndPredicate,
    ensures
        and_count(s, n) >= 2,
    decreases n,
{
    if n > q + 1 {
        lemma_two_ands_counted(s, p, q, n - 1);
    } else {
        lemma_one_and_counted(s, p, q);
    }
}

/// An `&` at `p` before `n` makes the count before `n` at least one.
proof fn lemma_one_and_counted(s: Seq<Expression>, p: int, n: int)
    requires
        0 <= p < n <= s.len(),
        s[p] is AndPredicate,
    ensures
        and_count(s, n) >= 1,
    decreases n,
{
    if n > p + 1 {
        lemma_one_and_counted(s, p, n - 1);
    }
}

/// A count of at least `c` before `n` has its `c`-th `&` somewhere: a count
/// of two or more before `n` comes from two `&` before `n`.
proof fn lemma_counted_ands(s: Seq<Expression>, n: int)
    requires
        0 <= n <= s.len(),
    ensures
        and_count(s, n) >= 1 ==> exists|q: int| 0 <= q < n && #[trigger] s[q] is AndPredicate,
        and_count(s, n) >= 2 ==> exists|p: int, q: int|
            0 <= p < q < n && #[trigger] s[p] is AndPredicate && #[trigger] s[q] is AndPredicate,
    decreases n,
{
    if n > 0 {
        lemma_counted_ands(s, n - 1);
        if s[n - 1] is AndPredicate && and_count(s, n) >= 2 {
            let q = choose|q: int| 0 <= q < n - 1 && #[trigger] s[q] is AndPredicate;
            assert(s[q] is AndPredicate && s[n - 1] is AndPredicate);
        }
    }
}

/// The grammar is flagged exactly when two `&` predicates are followed, at
/// any distance, by an expression that is not an `&`: only `&` predicates
/// count, and fewer than two of them never flag the grammar.
pub proof fn law_multiple_and_pattern(s: Seq<Expression>)
    ensures
        has_multiple_and(s) <==> exists|p: int, q: int, r: int|
            0 <= p < q < r < s.len() && #[trigger] s[p] is AndPredicate && #[trigger] s[q] is AndPredicate
                && !(#[trigger] s[r] is AndPredicate),
{
    if has_multiple_and(s) {
        let r = choose|r: int| 0 <= r < s.len() && !(s[r] is AndPredicate) && #[trigger] and_count(s, r) >= 2;
        lemma_counted_ands(s, r);
        let (p, q) = choose|p: int, q: int|
            0 <= p < q < r && #[trigger] s[p] is AndPredicate && #[trigger] s[q] is AndPredicate;
        assert(s[p] is AndPredicate && s[q] is AndPredicate && !(s[r] is AndPredicate));
    }
    if exists|p: int, q: int, r: int|
        0 <= p < q < r < s.len() && #[trigger] s[p] is AndPredicate && #[trigger] s[q] is AndPredicate
            && !(#[trigger] s[r] is AndPredicate) {
        let (p, q, r) = choose|p: int, q: int, r: int|
            0 <= p < q < r < s.len() && #[trigger] s[p] is AndPredicate && #[trigger] s[q] is AndPredicate
                && !(#[trigger] s[r] is AndPredicate);
        lemma_two_ands_counted(s, p, q, r);
        assert(!(s[r] is AndPredicate) && and_count(s, r) >= 2);
    }
}

} // verus!
