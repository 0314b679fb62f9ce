use vstd::prelude::*;

use crate::grammar::Precedence;

verus! {

/// A symbol of a production, by name.
pub enum Symbol {
    Rule(String),
    Token(String),
}

/// A production: its symbols, and the token named by `%prec`, if any.
pub struct Production {
    pub symbols: Vec<Symbol>,
    pub precedence: Option<String>,
}

/// A grammar as the text parser hands it over: rules by name (in declaration order), each
/// with the indices of its productions in `prods`; the declared tokens; the precedences of
/// tokens; the start rule; and the declared implicit tokens, if any.
pub struct GrammarAST {
    pub start: Option<String>,
    pub rules: Vec<(String, Vec<usize>)>,
    pub prods: Vec<Production>,
    pub tokens: Vec<String>,
    pub precs: Vec<(String, Precedence)>,
    pub implicit_tokens: Option<Vec<String>>,
}

/// Why a `GrammarAST` cannot be compiled.
#[derive(Clone, Copy, Debug, PartialEq, Eq, Structural)]
pub enum GrammarValidationError {
    /// No start rule is declared.
    NoStartRule,
    /// The start rule is not a rule of the grammar.
    InvalidStartRule,
    /// Two rules share a name.
    DuplicateRule,
    /// Two tokens share a name.
    DuplicateToken,
    /// A rule has no production.
    EmptyRule,
    /// A rule lists a production index that is out of range, or that another entry lists too.
    InvalidProductionIndex,
    /// A production belongs to no rule.
    UnownedProduction,
    /// A production refers to a rule that does not exist.
    UnknownRuleRef,
    /// A production, or the implicit tokens, refer to a token that does not exist.
    UnknownToken,
    /// `%prec` names a token without a precedence.
    NoPrecForToken,
}

/// The precedence of the first entry of `precs` named `n`.
pub open spec fn prec_in(precs: Seq<(String, Precedence)>, n: Seq<char>) -> Option<Precedence>
    decreases precs.len(),
{
    if precs.len() == 0 {
        None
    } else if precs[0].0@ == n {
        Some(precs[0].1)
    } else {
        prec_in(precs.subrange(1, precs.len() as int), n)
    }
}

impl GrammarAST {
    pub open spec fn rule_name(&self, j: int) -> Seq<char> {
        self.rules@[j].0@
    }

    pub open spec fn rule_prods(&self, j: int) -> Seq<usize> {
        self.rules@[j].1@
    }

    pub open spec fn prod_syms(&self, p: int) -> Seq<Symbol> {
        self.prods@[p].symbols@
    }

    pub open spec fn is_rule(&self, n: Seq<char>) -> bool {
        exists|j: int| 0 <= j < self.rules@.len() && #[trigger] self.rule_name(j) == n
    }

    pub open spec fn is_token(&self, n: Seq<char>) -> bool {
        exists|j: int| 0 <= j < self.tokens@.len() && #[trigger] self.tokens@[j]@ == n
    }

    /// The position of the rule named `n`.
    pub open spec fn rule_index(&self, n: Seq<char>) -> int {
        choose|j: int| 0 <= j < self.rules@.len() && #[trigger] self.rule_name(j) == n
    }

    /// The position of the token named `n`.
    pub open spec fn token_index(&self, n: Seq<char>) -> int {
        choose|j: int| 0 <= j < self.tokens@.len() && #[trigger] self.tokens@[j]@ == n
    }

    /// The precedence declared for token `n`.
    pub open spec fn prec_of(&self, n: Seq<char>) -> Option<Precedence> {
        prec_in(self.precs@, n)
    }

    /// A symbol that names an existing rule or token.
    pub open spec fn resolves(&self, s: Symbol) -> bool {
        match s {
            Symbol::Rule(n) => self.is_rule(n@),
            Symbol::Token(n) => self.is_token(n@),
        }
    }

    /// Rule `j` lists production `q`.
    pub open spec fn lists(&self, j: int, q: int) -> bool {
        exists|k: int| 0 <= k < self.rule_prods(j).len() && #[trigger] self.rule_prods(j)[k] == q
    }

    /// Some rule lists production `p`.
    pub open spec fn prod_owned(&self, p: int) -> bool {
        exists|j: int, k: int|
            0 <= j < self.rules@.len() && 0 <= k < self.rule_prods(j).len() && #[trigger] self.rule_prods(j)[k]
                == p
    }

    /// The grammar can be compiled.
    pub open spec fn valid(&self) -> bool {
        &&& self.start matches Some(s) && self.is_rule(s@)
        &&& forall|j1: int, j2: int|
            0 <= j1 < self.rules@.len() && 0 <= j2 < self.rules@.len() && j1 != j2 ==> #[trigger] self.rule_name(j1)
                != #[trigger] self.rule_name(j2)
        &&& forall|j1: int, j2: int|
            0 <= j1 < self.tokens@.len() && 0 <= j2 < self.tokens@.len() && j1 != j2 ==> (#[trigger] self.tokens@[j1])@
                != (#[trigger] self.tokens@[j2])@
        &&& forall|j: int| 0 <= j < self.rules@.len() ==> #[trigger] self.rule_prods(j).len() >= 1
        &&& forall|j: int, k: int|
            0 <= j < self.rules@.len() && 0 <= k < self.rule_prods(j).len() ==> #[trigger] self.rule_prods(j)[k]
                < self.prods@.len()
        &&& forall|j1: int, k1: int, j2: int, k2: int|
            0 <= j1 < self.rules@.len() && 0 <= k1 < self.rule_prods(j1).len() && 0 <= j2 < self.rules@.len()
                && 0 <= k2 < self.rule_prods(j2).len() && (j1 != j2 || k1 != k2) ==> #[trigger] self.rule_prods(j1)[k1]
                != #[trigger] self.rule_prods(j2)[k2]
        &&& forall|p: int| 0 <= p < self.prods@.len() ==> #[trigger] self.prod_owned(p)
        &&& forall|p: int, i: int|
            0 <= p < self.prods@.len() && 0 <= i < self.prod_syms(p).len() ==> self.resolves(
                #[trigger] self.prod_syms(p)[i],
            )
        &&& forall|p: int| 0 <= p < self.prods@.len() ==> #[trigger] self.prec_ok(p)
        &&& self.implicit_ok()
    }

    /// The `%prec` token of production `p`, if any, has a precedence.
    pub open spec fn prec_ok(&self, p: int) -> bool {
        match self.prods@[p].precedence {
            Some(n) => self.prec_of(n@) is Some,
            None => true,
        }
    }

    /// Every implicit token is a declared token.
    pub open spec fn implicit_ok(&self) -> bool {
        match self.implicit_tokens {
            Some(ts) => forall|i: int| 0 <= i < ts@.len() ==> self.is_token(#[trigger] ts@[i]@),
            None => true,
        }
    }

    /// Two rules share a name.
    pub open spec fn has_duplicate_rule(&self) -> bool {
        exists|j1: int, j2: int|
            0 <= j1 < self.rules@.len() && 0 <= j2 < self.rules@.len() && j1 != j2 && #[trigger] self.rule_name(j1)
                == #[trigger] self.rule_name(j2)
    }

    /// Two tokens share a name.
    pub open spec fn has_duplicate_token(&self) -> bool {
        exists|j1: int, j2: int|
            0 <= j1 < self.tokens@.len() && 0 <= j2 < self.tokens@.len() && j1 != j2 && (#[trigger] self.tokens@[j1])@
                == (#[trigger] self.tokens@[j2])@
    }

    /// Some rule lists no production.
    pub open spec fn has_empty_rule(&self) -> bool {
        exists|j: int| 0 <= j < self.rules@.len() && #[trigger] self.rule_prods(j).len() == 0
    }

    /// Some rule lists a production index out of range, or one that another entry lists too.
    pub open spec fn has_bad_prod_index(&self) -> bool {
        ||| exists|j: int, k: int|
            0 <= j < self.rules@.len() && 0 <= k < self.rule_prods(j).len() && #[trigger] self.rule_prods(j)[k]
                >= self.prods@.len()
        ||| exists|j1: int, k1: int, j2: int, k2: int|
            0 <= j1 < self.rules@.len() && 0 <= k1 < self.rule_prods(j1).len() && 0 <= j2 < self.rules@.len()
                && 0 <= k2 < self.rule_prods(j2).len() && (j1 != j2 || k1 != k2) && #[trigger] self.rule_prods(j1)[k1]
                == #[trigger] self.rule_prods(j2)[k2]
    }

    /// Some production belongs to no rule.
    pub open spec fn has_unowned_prod(&self) -> bool {
        exists|p: int| 0 <= p < self.prods@.len() && !#[trigger] self.prod_owned(p)
    }

    /// Symbol `i` of production `p` names a rule that does not exist.
    pub open spec fn unknown_rule_at(&self, p: int, i: int) -> bool {
        match self.prod_syms(p)[i] {
            Symbol::Rule(n) => !self.is_rule(n@),
            Symbol::Token(_) => false,
        }
    }

    /// Symbol `i` of production `p` names a token that does not exist.
    pub open spec fn unknown_token_at(&self, p: int, i: int) -> bool {
        match self.prod_syms(p)[i] {
            Symbol::Token(n) => !self.is_token(n@),
            Symbol::Rule(_) => false,
        }
    }

    /// Some production refers to a rule that does not exist.
    pub open spec fn has_unknown_rule_ref(&self) -> bool {
        exists|p: int, i: int|
            0 <= p < self.prods@.len() && 0 <= i < self.prod_syms(p).len() && #[trigger] self.unknown_rule_at(p, i)
    }

    /// Some production, or the implicit tokens, refer to a token that does not exist.
    pub open spec fn has_unknown_token(&self) -> bool {
        ||| exists|p: int, i: int|
            0 <= p < self.prods@.len() && 0 <= i < self.prod_syms(p).len() && #[trigger] self.unknown_token_at(p, i)
        ||| !self.implicit_ok()
    }

    /// Some production's `%prec` token has no precedence.
    pub open spec fn has_bad_prec(&self) -> bool {
        exists|p: int| 0 <= p < self.prods@.len() && !#[trigger] self.prec_ok(p)
    }

    /// The position of the rule named `n`, if there is one.
    pub fn find_rule(&self, n: &String) -> (r: Option<usize>)
        ensures
            match r {
                Some(j) => j < self.rules@.len() && self.rule_name(j as int) == n@,
                None => !self.is_rule(n@),
            },
    {
        let mut j: usize = 0;
        while j < self.rules.len()
            invariant
                0 <= j <= self.rules@.len(),
                forall|j2: int| 0 <= j2 < j ==> #[trigger] self.rule_name(j2) != n@,
            decreases self.rules@.len() - j,
        {
            if self.rules[j].0 == *n {
                return Some(j);
            }
            j += 1;
        }
        None
    }

    /// The position of the token named `n`, if there is one.
    pub fn find_token(&self, n: &String) -> (r: Option<usize>)
        ensures
            match r {
                Some(j) => j < self.tokens@.len() && self.tokens@[j as int]@ == n@,
                None => !self.is_token(n@),
            },
    {
        let mut j: usize = 0;
        while j < self.tokens.len()
            invariant
                0 <= j <= self.tokens@.len(),
                forall|j2: int| 0 <= j2 < j ==> (#[trigger] self.tokens@[j2])@ != n@,
            decreases self.tokens@.len() - j,
        {
            if self.tokens[j] == *n {
                return Some(j);
            }
            j += 1;
        }
        None
    }

    /// The precedence declared for token `n`.
    pub fn find_prec(&self, n: &String) -> (r: Option<Precedence>)
        ensures
            r == self.prec_of(n@),
    {
        let mut j: usize = 0;
        assert(self.precs@.subrange(0, self.precs@.len() as int) =~= self.precs@);
        while j < self.precs.len()
            invariant
                0 <= j <= self.precs@.len(),
                prec_in(self.precs@, n@) == prec_in(self.precs@.subrange(j as int, self.precs@.len() as int), n@),
            decreases self.precs@.len() - j,
        {
            let ghost rest = self.precs@.subrange(j as int, self.precs@.len() as int);
            assert(rest.subrange(1, rest.len() as int) =~= self.precs@.subrange(j + 1, self.precs@.len() as int));
            if self.precs[j].0 == *n {
                return Some(self.precs[j].1);
            }
            j += 1;
        }
        None
    }

    /// Check that the grammar can be compiled.
    pub fn complete_and_validate(&self) -> (r: Result<(), GrammarValidationError>)
        ensures
            r is Ok <==> self.valid(),
            r == Err::<(), GrammarValidationError>(GrammarValidationError::NoStartRule) ==> self.start is None,
            r == Err::<(), GrammarValidationError>(GrammarValidationError::InvalidStartRule) ==> (self.start matches Some(s) && !self.is_rule(s@)),
            r == Err::<(), GrammarValidationError>(GrammarValidationError::DuplicateRule) ==> self.has_duplicate_rule(),
            r == Err::<(), GrammarValidationError>(GrammarValidationError::DuplicateToken) ==> self.has_duplicate_token(),
            r == Err::<(), GrammarValidationError>(GrammarValidationError::EmptyRule) ==> self.has_empty_rule(),
            r == Err::<(), GrammarValidationError>(GrammarValidationError::InvalidProductionIndex) ==> self.has_bad_prod_index(),
            r == Err::<(), GrammarValidationError>(GrammarValidationError::UnownedProduction) ==> self.has_unowned_prod(),
            r == Err::<(), GrammarValidationError>(GrammarValidationError::UnknownRuleRef) ==> self.has_unknown_rule_ref(),
            r == Err::<(), GrammarValidationError>(GrammarValidationError::UnknownToken) ==> self.has_unknown_token(),
            r == Err::<(), GrammarValidationError>(GrammarValidationError::NoPrecForToken) ==> self.has_bad_prec(),
    {
        match &self.start {
            None => {
                return Err(GrammarValidationError::NoStartRule);
            },
            Some(s) => {
                if self.find_rule(s).is_none() {
                    return Err(GrammarValidationError::InvalidStartRule);
                }
            },
        }
        let nr = self.rules.len();
        let mut j1: usize = 0;
        while j1 < nr
            invariant
                nr == self.rules@.len(),
                0 <= j1 <= nr,
                forall|a: int, b: int| 0 <= a < j1 && 0 <= b < nr && a != b ==> #[trigger] self.rule_name(a) != #[trigger] self.rule_name(b),
            decreases nr - j1,
        {
            let mut j2: usize = 0;
            while j2 < nr
                invariant
                    nr == self.rules@.len(),
                    0 <= j1 < nr,
                    0 <= j2 <= nr,
                    forall|a: int, b: int| 0 <= a < j1 && 0 <= b < nr && a != b ==> #[trigger] self.rule_name(a) != #[trigger] self.rule_name(b),
                    forall|b: int| 0 <= b < j2 && b != j1 ==> self.rule_name(j1 as int) != #[trigger] self.rule_name(b),
                decreases nr - j2,
            {
                if j1 != j2 && self.rules[j1].0 == self.rules[j2].0 {
                    proof {
                        assert(self.rule_name(j1 as int) == self.rule_name(j2 as int));
                        assert(self.has_duplicate_rule());
                    }
                    return Err(GrammarValidationError::DuplicateRule);
                }
                j2 += 1;
            }
            j1 += 1;
        }
        let nt = self.tokens.len();
        let mut t1: usize = 0;
        while t1 < nt
            invariant
                nt == self.tokens@.len(),
                0 <= t1 <= nt,
                forall|a: int, b: int| 0 <= a < t1 && 0 <= b < nt && a != b ==> (#[trigger] self.tokens@[a])@ != (#[trigger] self.tokens@[b])@,
            decreases nt - t1,
        {
            let mut t2: usize = 0;
            while t2 < nt
                invariant
                    nt == self.tokens@.len(),
                    0 <= t1 < nt,
                    0 <= t2 <= nt,
                    forall|a: int, b: int| 0 <= a < t1 && 0 <= b < nt && a != b ==> (#[trigger] self.tokens@[a])@ != (#[trigger] self.tokens@[b])@,
                    forall|b: int| 0 <= b < t2 && b != t1 ==> self.tokens@[t1 as int]@ != (#[trigger] self.tokens@[b])@,
                decreases nt - t2,
            {
                if t1 != t2 && self.tokens[t1] == self.tokens[t2] {
                    proof {
                        assert(self.tokens@[t1 as int]@ == self.tokens@[t2 as int]@);
                        assert(self.has_duplicate_token());
                    }
                    return Err(GrammarValidationError::DuplicateToken);
                }
                t2 += 1;
            }
            t1 += 1;
        }
        let np = self.prods.len();
        let mut owned: Vec<bool> = Vec::new();
        let mut p: usize = 0;
        while p < np
            invariant
                np == self.prods@.len(),
                0 <= p <= np,
                owned@.len() == p,
                forall|q: int| 0 <= q < p ==> !#[trigger] owned@[q],
            decreases np - p,
        {
            owned.push(false);
            p += 1;
        }
        let mut j: usize = 0;
        while j < nr
            invariant
                nr == self.rules@.len(),
                np == self.prods@.len(),
                owned@.len() == np,
                0 <= j <= nr,
                forall|a: int| 0 <= a < j ==> #[trigger] self.rule_prods(a).len() >= 1,
                forall|a: int, k: int| 0 <= a < j && 0 <= k < self.rule_prods(a).len() ==> #[trigger] self.rule_prods(a)[k] < np,
                forall|a1: int, k1: int, a2: int, k2: int|
                    0 <= a1 < j && 0 <= k1 < self.rule_prods(a1).len() && 0 <= a2 < j
                        && 0 <= k2 < self.rule_prods(a2).len() && (a1 != a2 || k1 != k2) ==> #[trigger] self.rule_prods(a1)[k1]
                        != #[trigger] self.rule_prods(a2)[k2],
                forall|q: int| 0 <= q < np && #[trigger] owned@[q] ==> exists|a: int, k: int|
                    0 <= a < j && 0 <= k < self.rule_prods(a).len() && #[trigger] self.rule_prods(a)[k] == q,
                forall|a: int, k: int| 0 <= a < j && 0 <= k < self.rule_prods(a).len() ==> owned@[#[trigger] self.rule_prods(a)[k] as int],
            decreases nr - j,
        {
            let ps = &self.rules[j].1;
            if ps.len() == 0 {
                proof {
                    assert(self.rule_prods(j as int).len() == 0);
                    assert(self.has_empty_rule());
                }
                return Err(GrammarValidationError::EmptyRule);
            }
            let mut k: usize = 0;
            while k < ps.len()
                invariant
                    nr == self.rules@.len(),
                    np == self.prods@.len(),
                    owned@.len() == np,
                    0 <= j < nr,
                    ps@ == self.rule_prods(j as int),
                    0 <= k <= ps@.len(),
                    forall|a: int| 0 <= a < j ==> #[trigger] self.rule_prods(a).len() >= 1,
                    forall|a: int, k2: int| (0 <= a < j && 0 <= k2 < self.rule_prods(a).len()) || (a == j && 0 <= k2 < k) ==> #[trigger] self.rule_prods(a)[k2] < np,
                    forall|a1: int, k1: int, a2: int, k2: int|
                        ((0 <= a1 < j && 0 <= k1 < self.rule_prods(a1).len()) || (a1 == j && 0 <= k1 < k))
                            && ((0 <= a2 < j && 0 <= k2 < self.rule_prods(a2).len()) || (a2 == j && 0 <= k2 < k))
                            && (a1 != a2 || k1 != k2) ==> #[trigger] self.rule_prods(a1)[k1]
                            != #[trigger] self.rule_prods(a2)[k2],
                    forall|q: int| 0 <= q < np && #[trigger] owned@[q] ==> exists|a: int, k2: int|
                        ((0 <= a < j && 0 <= k2 < self.rule_prods(a).len()) || (a == j && 0 <= k2 < k)) && #[trigger] self.rule_prods(a)[k2] == q,
                    forall|a: int, k2: int| (0 <= a < j && 0 <= k2 < self.rule_prods(a).len()) || (a == j && 0 <= k2 < k) ==> owned@[#[trigger] self.rule_prods(a)[k2] as int],
                decreases ps@.len() - k,
            {
                let q = ps[k];
                if q >= np {
                    proof {
                        assert(self.rule_prods(j as int)[k as int] >= self.prods@.len());
                        assert(self.has_bad_prod_index());
                    }
                    return Err(GrammarValidationError::InvalidProductionIndex);
                }
                if owned[q] {
                    proof {
                        let (a, k2) = choose|a: int, k2: int|
                            ((0 <= a < j && 0 <= k2 < self.rule_prods(a).len()) || (a == j && 0 <= k2 < k)) && #[trigger] self.rule_prods(a)[k2] == q;
                        assert(self.rule_prods(j as int)[k as int] == self.rule_prods(a)[k2]);
                        assert(self.has_bad_prod_index());
                    }
                    return Err(GrammarValidationError::InvalidProductionIndex);
                }
                owned.set(q, true);
                proof {
                    assert(self.rule_prods(j as int)[k as int] == q);
                    assert forall|q2: int| 0 <= q2 < np && #[trigger] owned@[q2] implies exists|a: int, k2: int|
                        ((0 <= a < j && 0 <= k2 < self.rule_prods(a).len()) || (a == j && 0 <= k2 < k + 1)) && #[trigger] self.rule_prods(a)[k2] == q2 by {
                        if q2 == q {
                            assert(self.rule_prods(j as int)[k as int] == q2);
                        }
                    }
                }
                k += 1;
            }
            j += 1;
        }
        let mut q: usize = 0;
        while q < np
            invariant
                np == self.prods@.len(),
                owned@.len() == np,
                0 <= q <= np,
                forall|q2: int| 0 <= q2 < np && #[trigger] owned@[q2] ==> exists|a: int, k: int|
                    0 <= a < nr && 0 <= k < self.rule_prods(a).len() && #[trigger] self.rule_prods(a)[k] == q2,
                nr == self.rules@.len(),
                forall|q2: int| 0 <= q2 < q ==> #[trigger] self.prod_owned(q2),
                forall|a: int, k: int| 0 <= a < nr && 0 <= k < self.rule_prods(a).len() ==> owned@[#[trigger] self.rule_prods(a)[k] as int],
                forall|a: int, k: int| 0 <= a < nr && 0 <= k < self.rule_prods(a).len() ==> #[trigger] self.rule_prods(a)[k] < np,
            decreases np - q,
        {
            if !owned[q] {
                proof {
                    if self.prod_owned(q as int) {
                        let (a, k) = choose|a: int, k: int|
                            0 <= a < self.rules@.len() && 0 <= k < self.rule_prods(a).len() && #[trigger] self.rule_prods(a)[k] == q;
                        assert(owned@[self.rule_prods(a)[k] as int]);
                    }
                    assert(self.has_unowned_prod());
                }
                return Err(GrammarValidationError::UnownedProduction);
            }
            proof {
                assert(owned@[q as int]);
            }
            q += 1;
        }
        let mut p: usize = 0;
        while p < np
            invariant
                np == self.prods@.len(),
                0 <= p <= np,
                forall|p2: int, i: int| 0 <= p2 < p && 0 <= i < self.prod_syms(p2).len() ==> self.resolves(#[trigger] self.prod_syms(p2)[i]),
                forall|p2: int| 0 <= p2 < p ==> #[trigger] self.prec_ok(p2),
            decreases np - p,
        {
            let syms = &self.prods[p].symbols;
            let mut i: usize = 0;
            while i < syms.len()
                invariant
                    np == self.prods@.len(),
                    0 <= p < np,
                    syms@ == self.prod_syms(p as int),
                    0 <= i <= syms@.len(),
                    forall|p2: int, i2: int| (0 <= p2 < p && 0 <= i2 < self.prod_syms(p2).len()) || (p2 == p && 0 <= i2 < i) ==> self.resolves(#[trigger] self.prod_syms(p2)[i2]),
                    forall|p2: int| 0 <= p2 < p ==> #[trigger] self.prec_ok(p2),
                decreases syms@.len() - i,
            {
                match &syms[i] {
                    Symbol::Rule(n) => {
                        if self.find_rule(n).is_none() {
                            proof {
                                assert(!self.resolves(self.prod_syms(p as int)[i as int]));
                                assert(self.unknown_rule_at(p as int, i as int));
                                assert(self.has_unknown_rule_ref());
                            }
                            return Err(GrammarValidationError::UnknownRuleRef);
                        }
                    },
                    Symbol::Token(n) => {
                        if self.find_token(n).is_none() {
                            proof {
                                assert(!self.resolves(self.prod_syms(p as int)[i as int]));
                                assert(self.unknown_token_at(p as int, i as int));
                                assert(self.has_unknown_token());
                            }
                            return Err(GrammarValidationError::UnknownToken);
                        }
                    },
                }
                i += 1;
            }
            match &self.prods[p].precedence {
                Some(n) => {
                    if self.find_prec(n).is_none() {
                        proof {
                            assert(!self.prec_ok(p as int));
                            assert(self.has_bad_prec());
                        }
                        return Err(GrammarValidationError::NoPrecForToken);
                    }
                },
                None => {},
            }
            p += 1;
        }
        match &self.implicit_tokens {
            Some(ts) => {
                let mut i: usize = 0;
                while i < ts.len()
                    invariant
                        self.implicit_tokens == Some(*ts),
                        0 <= i <= ts@.len(),
                        forall|i2: int| 0 <= i2 < i ==> self.is_token(#[trigger] ts@[i2]@),
                    decreases ts@.len() - i,
                {
                    if self.find_token(&ts[i]).is_none() {
                        proof {
                            let v = self.implicit_tokens->0;
                            assert(v@[i as int]@ == ts@[i as int]@);
                            assert(!self.is_token(v@[i as int]@));
                            assert(!self.implicit_ok());
                        }
                        return Err(GrammarValidationError::UnknownToken);
                    }
                    i += 1;
                }
            },
            None => {},
        }
        Ok(())
    }

    /// The rule that lists each production.
    pub fn owners(&self) -> (r: Vec<usize>)
        requires
            self.valid(),
        ensures
            r@.len() == self.prods@.len(),
            forall|p: int| 0 <= p < self.prods@.len() ==> {
                &&& (#[trigger] r@[p]) < self.rules@.len()
                &&& exists|k: int| 0 <= k < self.rule_prods(r@[p] as int).len() && #[trigger] self.rule_prods(r@[p] as int)[k] == p
            },
    {
        let np = self.prods.len();
        let nr = self.rules.len();
        let mut owner: Vec<usize> = Vec::new();
        let mut p: usize = 0;
        while p < np
            invariant
                np == self.prods@.len(),
                0 <= p <= np,
                owner@.len() == p,
            decreases np - p,
        {
            owner.push(0);
            p += 1;
        }
        let mut j: usize = 0;
        while j < nr
            invariant
                self.valid(),
                nr == self.rules@.len(),
                np == self.prods@.len(),
                owner@.len() == np,
                0 <= j <= nr,
                forall|a: int, k: int| 0 <= a < j && 0 <= k < self.rule_prods(a).len() ==> owner@[#[trigger] self.rule_prods(a)[k] as int] == a,
            decreases nr - j,
        {
            let ps = &self.rules[j].1;
            let mut k: usize = 0;
            while k < ps.len()
                invariant
                    self.valid(),
                    nr == self.rules@.len(),
                    np == self.prods@.len(),
                    owner@.len() == np,
                    0 <= j < nr,
                    ps@ == self.rule_prods(j as int),
                    0 <= k <= ps@.len(),
                    forall|a: int, k2: int| (0 <= a < j && 0 <= k2 < self.rule_prods(a).len()) || (a == j && 0 <= k2 < k) ==> owner@[#[trigger] self.rule_prods(a)[k2] as int] == a,
                decreases ps@.len() - k,
            {
                proof {
                    assert(self.rule_prods(j as int)[k as int] < np);
                }
                owner.set(ps[k], j);
                proof {
                    assert forall|a: int, k2: int| (0 <= a < j && 0 <= k2 < self.rule_prods(a).len()) || (a == j && 0 <= k2 < k + 1) implies owner@[#[trigger] self.rule_prods(a)[k2] as int] == a by {
                        if a != j || k2 != k {
                            assert(self.rule_prods(a)[k2] != self.rule_prods(j as int)[k as int]);
                        }
                    }
                }
                k += 1;
            }
            j += 1;
        }
        proof {
            assert forall|p: int| 0 <= p < self.prods@.len() implies {
                &&& (#[trigger] owner@[p]) < self.rules@.len()
                &&& exists|k: int| 0 <= k < self.rule_prods(owner@[p] as int).len() && #[trigger] self.rule_prods(owner@[p] as int)[k] == p
            } by {
                assert(self.prod_owned(p));
                let (a, k) = choose|a: int, k: int|
                    0 <= a < self.rules@.len() && 0 <= k < self.rule_prods(a).len() && #[trigger] self.rule_prods(a)[k] == p;
                assert(owner@[self.rule_prods(a)[k] as int] == a);
            }
        }
        owner
    }
}

} // verus!
