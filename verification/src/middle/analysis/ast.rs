//! The analysed form of a grammar: an arena of parsing expressions addressed
//! by index, the rules that name some of them, and the source span of each
//! expression. Analyses report what they find as `Warning` values.
use vstd::prelude::*;

verus! {

/// The name of a rule, as an interned symbol.
pub type Ident = u64;

/// A region of the grammar's source text, given by its two byte positions.
#[derive(Clone, Copy, Debug, PartialEq, Eq, Structural)]
pub struct Span {
    pub lo: u32,
    pub hi: u32,
}

impl Span {
    /// The span between two positions, whichever comes first.
    pub open spec fn between(a: u32, b: u32) -> Span {
        if a <= b {
            Span { lo: a, hi: b }
        } else {
            Span { lo: b, hi: a }
        }
    }

    /// Builds the span between two positions; the two ends are put in
    /// order, so that `lo <= hi` always holds.
    pub fn new(a: u32, b: u32) -> (s: Span)
        ensures
            s == Span::between(a, b),
            s.lo <= s.hi,
    {
        if a <= b {
            Span { lo: a, hi: b }
        } else {
            Span { lo: b, hi: a }
        }
    }

    pub fn lo(&self) -> (r: u32)
        ensures
            r == self.lo,
    {
        self.lo
    }

    pub fn hi(&self) -> (r: u32)
        ensures
            r == self.hi,
    {
        self.hi
    }
}

/// A parsing expression. Sub-expressions are indices into the grammar's
/// expression arena.
#[derive(Debug)]
pub enum Expression {
    StrLiteral(String),
    AnySingleChar,
    /// Character intervals, both ends included.
    CharacterClass(Vec<(char, char)>),
    NonTerminalSymbol(Ident),
    Sequence(Vec<usize>),
    Choice(Vec<usize>),
    ZeroOrMore(usize),
    OneOrMore(usize),
    ZeroOrOne(usize),
    NotPredicate(usize),
    AndPredicate(usize),
    /// An expression and the name of the action applied to its value.
    SemanticAction(usize, String),
    /// An expression and the text of the type given to its value.
    TypeAscription(usize, String),
    SpannedExpr(usize),
}

/// A named rule of the grammar and the expression that defines it.
#[derive(Clone, Copy, Debug)]
pub struct Rule {
    pub name: Ident,
    pub expr_idx: usize,
}

/// A grammar ready for analysis: `exprs[i]` is an expression and `spans[i]`
/// where it stands in the source.
#[derive(Debug)]
pub struct AGrammar {
    pub rules: Vec<Rule>,
    pub exprs: Vec<Expression>,
    pub spans: Vec<Span>,
}

/// The outcome of a compilation pass: a value, a value that stands in for a
/// failed one, or nothing.
#[derive(Debug)]
pub enum Partial<T> {
    Value(T),
    Fake(T),
    Nothing,
}

/// What a warning reports.
#[derive(Clone, Copy, Debug, PartialEq, Eq, Structural)]
pub enum WarningKind {
    /// Several `&` predicates in the expression list of the grammar.
    MultipleAnd,
    /// `!(!e)`, which is `&e`.
    NotNot,
    /// `&(&e)`, which is `&e`.
    AndAnd,
    /// `!(&e)`, which is `!e`.
    NotAnd,
    /// `&(!e)`, which is `!e`.
    AndNot,
    /// `(e+)+`, which is `e+`.
    OneOrMoreOneOrMore,
    /// `(e+)*`, which is `e+`.
    OneOrMoreZeroOrMore,
    /// A note on an `&` predicate that was met.
    AndPredicateNote,
}

/// A warning of an analysis, with the part of the source that it is about
/// when there is one.
#[derive(Clone, Copy, Debug, PartialEq, Eq, Structural)]
pub struct Warning {
    pub kind: WarningKind,
    pub span: Option<Span>,
}

impl WarningKind {
    /// The text shown to the grammar's author.
    pub fn message(&self) -> (m: &'static str)
        ensures
            m@ == (match *self {
                WarningKind::MultipleAnd => "Multiple And"@,
                WarningKind::NotNot => "Detected useless chaining: !(!e) \nHelp: !(!e) -> &e"@,
                WarningKind::AndAnd => "Detected useless chaining: multiple & \n Help: &(&e) -> &e"@,
                WarningKind::NotAnd => "Detected useless chaining: !(&e) \n Help: !(&e) -> !e"@,
                WarningKind::AndNot => "Detected useless chaining: &(!e) \nHelp: &(!e) -> !e"@,
                WarningKind::OneOrMoreOneOrMore => "Detected useless chaining: multiple + \n Help: (e+)+ -> e+"@,
                WarningKind::OneOrMoreZeroOrMore => "Detected useless chaining: (e+)* \nHelp: (e+)* -> e+"@,
                WarningKind::AndPredicateNote => "this is an and"@,
            }),
    {
        match self {
            WarningKind::MultipleAnd => "Multiple And",
            WarningKind::NotNot => "Detected useless chaining: !(!e) \nHelp: !(!e) -> &e",
            WarningKind::AndAnd => "Detected useless chaining: multiple & \n Help: &(&e) -> &e",
            WarningKind::NotAnd => "Detected useless chaining: !(&e) \n Help: !(&e) -> !e",
            WarningKind::AndNot => "Detected useless chaining: &(!e) \nHelp: &(!e) -> !e",
            WarningKind::OneOrMoreOneOrMore => "Detected useless chaining: multiple + \n Help: (e+)+ -> e+",
            WarningKind::OneOrMoreZeroOrMore => "Detected useless chaining: (e+)* \nHelp: (e+)* -> e+",
            WarningKind::AndPredicateNote => "this is an and",
        }
    }
}

/// The sub-expressions of `e` are all below `n`.
pub open spec fn children_below(e: Expression, n: nat) -> bool {
    match e {
        Expression::Sequence(v) => forall|k: int| 0 <= k < v@.len() ==> v@[k] < n,
        Expression::Choice(v) => forall|k: int| 0 <= k < v@.len() ==> v@[k] < n,
        Expression::ZeroOrMore(c) => c < n,
        Expression::OneOrMore(c) => c < n,
        Expression::ZeroOrOne(c) => c < n,
        Expression::NotPredicate(c) => c < n,
        Expression::AndPredicate(c) => c < n,
        Expression::SemanticAction(c, _) => c < n,
        Expression::TypeAscription(c, _) => c < n,
        Expression::SpannedExpr(c) => c < n,
        _ => true,
    }
}

/// Whether the indices `v` are all below `n`.
fn indices_below(v: &Vec<usize>, n: usize) -> (b: bool)
    ensures
        b == (forall|j: int| 0 <= j < v@.len() ==> v@[j] < n),
{
    let mut k: usize = 0;
    while k < v.len()
        invariant
            0 <= k <= v@.len(),
            forall|j: int| 0 <= j < k ==> v@[j] < n,
        decreases v@.len() - k,
    {
        if v[k] >= n {
            assert(!(v@[k as int] < n));
            return false;
        }
        k = k + 1;
    }
    true
}

/// Whether the sub-expressions of `e` are all below `n`.
pub fn children_below_exec(e: &Expression, n: usize) -> (b: bool)
    ensures
        b == children_below(*e, n as nat),
{
    match e {
        Expression::Sequence(v) => indices_below(v, n),
        Expression::Choice(v) => indices_below(v, n),
        Expression::ZeroOrMore(c) => *c < n,
        Expression::OneOrMore(c) => *c < n,
        Expression::ZeroOrOne(c) => *c < n,
        Expression::NotPredicate(c) => *c < n,
        Expression::AndPredicate(c) => *c < n,
        Expression::SemanticAction(c, _) => *c < n,
        Expression::TypeAscription(c, _) => *c < n,
        Expression::SpannedExpr(c) => *c < n,
        _ => true,
    }
}

/// The index of the first rule at or after `k` named `id`, or `rules.len()`
/// when there is none.
pub open spec fn first_rule_from(rules: Seq<Rule>, id: Ident, k: int) -> int
    decreases rules.len() - k,
{
    if k >= rules.len() || k < 0 {
        rules.len() as int
    } else if rules[k].name == id {
        k
    } else {
        first_rule_from(rules, id, k + 1)
    }
}

impl AGrammar {
    /// A rule named `id` exists.
    pub open spec fn has_rule(self, id: Ident) -> bool {
        exists|r: int| 0 <= r < self.rules@.len() && self.rules@[r].name == id
    }

    /// The index of the first rule named `id`.
    pub open spec fn rule_index(self, id: Ident) -> int {
        first_rule_from(self.rules@, id, 0)
    }

    /// The expression that defines the first rule named `id`.
    pub open spec fn rule_expr(self, id: Ident) -> usize {
        self.rules@[self.rule_index(id)].expr_idx
    }

    /// Every index held in the grammar designates an expression, every
    /// expression has a span, and every rule called by name exists.
    pub open spec fn wf(self) -> bool {
        &&& self.spans@.len() == self.exprs@.len()
        &&& forall|i: int|
            0 <= i < self.exprs@.len() ==> children_below(
                #[trigger] self.exprs@[i],
                self.exprs@.len(),
            )
        &&& forall|r: int|
            0 <= r < self.rules@.len() ==> #[trigger] self.rules@[r].expr_idx < self.exprs@.len()
        &&& forall|i: int|
            0 <= i < self.exprs@.len() ==> (#[trigger] self.exprs@[i] matches Expression::NonTerminalSymbol(id) ==> self.has_rule(id))
    }

    /// The span of expression `i`.
    pub open spec fn span_of(self, i: int) -> Span {
        self.spans@[i]
    }

    /// Whether a rule named `id` exists.
    pub fn has_rule_named(&self, id: Ident) -> (b: bool)
        ensures
            b == self.has_rule(id),
    {
        let mut k: usize = 0;
        while k < self.rules.len()
            invariant
                0 <= k <= self.rules@.len(),
                forall|r: int| 0 <= r < k ==> self.rules@[r].name != id,
            decreases self.rules@.len() - k,
        {
            if self.rules[k].name == id {
                return true;
            }
            k = k + 1;
        }
        false
    }

    /// Whether the grammar is well formed (see `wf`): what an analysis
    /// asks of it before it starts.
    pub fn is_well_formed(&self) -> (b: bool)
        ensures
            b == self.wf(),
    {
        if self.spans.len() != self.exprs.len() {
            return false;
        }
        let n = self.exprs.len();
        let mut i: usize = 0;
        while i < n
            invariant
                n == self.exprs@.len(),
                0 <= i <= n,
                forall|j: int| 0 <= j < i ==> children_below(#[trigger] self.exprs@[j], n as nat),
                forall|j: int|
                    0 <= j < i ==> (#[trigger] self.exprs@[j] matches Expression::NonTerminalSymbol(
                        id,
                    ) ==> self.has_rule(id)),
            decreases n - i,
        {
            if !children_below_exec(&self.exprs[i], n) {
                return false;
            }
            if let Expression::NonTerminalSymbol(id) = &self.exprs[i] {
                if !self.has_rule_named(*id) {
                    return false;
                }
            }
            i = i + 1;
        }
        let mut r: usize = 0;
        while r < self.rules.len()
            invariant
                n == self.exprs@.len(),
                0 <= r <= self.rules@.len(),
                forall|q: int| 0 <= q < r ==> #[trigger] self.rules@[q].expr_idx < n,
            decreases self.rules@.len() - r,
        {
            if self.rules[r].expr_idx >= n {
                return false;
            }
            r = r + 1;
        }
        true
    }

    /// The expression stored at `index`.
    pub fn expr_by_index(&self, index: usize) -> (e: &Expression)
        requires
            index < self.exprs@.len(),
        ensures
            *e == self.exprs@[index as int],
    {
        &self.exprs[index]
    }

    /// The first rule named `id`.
    pub fn find_rule_by_ident(&self, id: Ident) -> (r: &Rule)
        requires
            self.has_rule(id),
        ensures
            *r == self.rules@[self.rule_index(id)],
            0 <= self.rule_index(id) < self.rules@.len(),
            r.name == id,
    {
        proof {
            lemma_first_rule_found(self.rules@, id, 0);
        }
        let mut k: usize = 0;
        while k < self.rules.len()
            invariant
                0 <= k <= self.rules@.len(),
                first_rule_from(self.rules@, id, k as int) == self.rule_index(id),
                self.has_rule(id),
                0 <= self.rule_index(id) < self.rules@.len(),
                k <= self.rule_index(id),
            decreases self.rules@.len() - k,
        {
            if self.rules[k].name == id {
                return &self.rules[k];
            }
            proof {
                lemma_first_rule_at_least(self.rules@, id, k + 1);
            }
            k = k + 1;
        }
        &self.rules[k]
    }
}

/// The search from `k` never answers an index below `k`.
pub proof fn lemma_first_rule_at_least(rules: Seq<Rule>, id: Ident, k: int)
    requires
        0 <= k,
    ensures
        k <= first_rule_from(rules, id, k) || first_rule_from(rules, id, k) == rules.len(),
    decreases rules.len() - k,
{
    if k < rules.len() && rules[k].name != id {
        lemma_first_rule_at_least(rules, id, k + 1);
    }
}

/// When a rule named `id` stands at or after `k`, the search from `k` finds
/// the first such rule, and it is named `id`.
pub proof fn lemma_first_rule_found(rules: Seq<Rule>, id: Ident, k: int)
    requires
        0 <= k,
        exists|r: int| k <= r < rules.len() && rules[r].name == id,
    ensures
        k <= first_rule_from(rules, id, k) < rules.len(),
        rules[first_rule_from(rules, id, k)].name == id,
    decreases rules.len() - k,
{
    if rules[k].name != id {
        let r = choose|r: int| k <= r < rules.len() && rules[r].name == id;
        assert(k + 1 <= r);
        lemma_first_rule_found(rules, id, k + 1);
    }
}


/// No two rules of `g` have the same name.
pub open spec fn names_distinct(g: AGrammar) -> bool {
    forall|r: int, q: int|
        0 <= r < g.rules@.len() && 0 <= q < g.rules@.len() && r != q ==> #[trigger] g.rules@[r].name
            != #[trigger] g.rules@[q].name
}

/// `h` holds the rules of `g` in another order, over the same expressions
/// and spans: rule `j` of `h` is rule `p[j]` of `g`, and each rule of `g`
/// is taken once.
pub open spec fn reordered(g: AGrammar, h: AGrammar, p: Seq<int>) -> bool {
    &&& h.exprs@ == g.exprs@
    &&& h.spans@ == g.spans@
    &&& p.len() == g.rules@.len()
    &&& h.rules@.len() == g.rules@.len()
    &&& forall|j: int|
        0 <= j < p.len() ==> 0 <= #[trigger] p[j] < g.rules@.len() && h.rules@[j] == g.rules@[p[j]]
    &&& forall|j: int, k: int| 0 <= j < p.len() && 0 <= k < p.len() && j != k ==> #[trigger] p[j] != #[trigger] p[k]
    &&& forall|r: int|
        #![trigger g.rules@[r]]
        0 <= r < g.rules@.len() ==> exists|j: int| 0 <= j < p.len() && #[trigger] p[j] == r
}

/// `h` has the expressions and spans of `g`, and every rule that `g` can
/// call is called in `h` with the same expression.
pub open spec fn same_calls(g: AGrammar, h: AGrammar) -> bool {
    &&& h.exprs@ == g.exprs@
    &&& h.spans@ == g.spans@
    &&& forall|id: Ident| #[trigger] g.has_rule(id) ==> h.has_rule(id) && h.rule_expr(id) == g.rule_expr(id)
}

/// With distinct names, the first rule named `id` is the one named `id`.
pub proof fn lemma_distinct_index(g: AGrammar, r: int)
    requires
        names_distinct(g),
        0 <= r < g.rules@.len(),
    ensures
        g.rule_index(g.rules@[r].name) == r,
{
    let id = g.rules@[r].name;
    lemma_first_rule_found(g.rules@, id, 0);
    let f = first_rule_from(g.rules@, id, 0);
    if f != r {
        assert(g.rules@[f].name != g.rules@[r].name);
    }
}

/// Putting the rules of a well-formed grammar with distinct names in
/// another order gives a well-formed grammar with distinct names, which
/// calls each rule with the same expression.
pub proof fn lemma_reordered(g: AGrammar, h: AGrammar, p: Seq<int>)
    requires
        g.wf(),
        names_distinct(g),
        reordered(g, h, p),
    ensures
        h.wf(),
        names_distinct(h),
        same_calls(g, h),
{
    assert forall|id: Ident| #[trigger] g.has_rule(id) implies h.has_rule(id) && h.rule_expr(id)
        == g.rule_expr(id) by {
        let r = choose|r: int| 0 <= r < g.rules@.len() && g.rules@[r].name == id;
        let j = choose|j: int| 0 <= j < p.len() && #[trigger] p[j] == r;
        assert(h.rules@[j] == g.rules@[p[j]]);
        assert(h.rules@[j].name == id);
        lemma_distinct_index(g, r);
        assert forall|a: int, b: int|
            0 <= a < h.rules@.len() && 0 <= b < h.rules@.len() && a != b implies #[trigger] h.rules@[a].name
            != #[trigger] h.rules@[b].name by {
            assert(h.rules@[a] == g.rules@[p[a]]);
            assert(h.rules@[b] == g.rules@[p[b]]);
        }
        lemma_distinct_index(h, j);
    }
    assert forall|a: int, b: int|
        0 <= a < h.rules@.len() && 0 <= b < h.rules@.len() && a != b implies #[trigger] h.rules@[a].name
        != #[trigger] h.rules@[b].name by {
        assert(h.rules@[a] == g.rules@[p[a]]);
        assert(h.rules@[b] == g.rules@[p[b]]);
    }
    assert forall|i: int|
        0 <= i < h.exprs@.len() implies (#[trigger] h.exprs@[i] matches Expression::NonTerminalSymbol(id) ==> h.has_rule(id)) by {
        assert(g.exprs@[i] == h.exprs@[i]);
        if let Expression::NonTerminalSymbol(id) = h.exprs@[i] {
            assert(g.has_rule(id));
        }
    }
    assert forall|j: int| 0 <= j < h.rules@.len() implies #[trigger] h.rules@[j].expr_idx < h.exprs@.len() by {
        assert(h.rules@[j] == g.rules@[p[j]]);
    }
    assert forall|i: int| 0 <= i < h.exprs@.len() implies children_below(#[trigger] h.exprs@[i], h.exprs@.len()) by {
        assert(g.exprs@[i] == h.exprs@[i]);
    }
}

} // verus!
