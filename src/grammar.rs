use vstd::prelude::*;
use vstd::seq_lib::seq_to_set_is_finite;
use vstd::set_lib::{lemma_int_range, lemma_set_disjoint_lens, set_int_range};

use crate::firsts::{count_clear, lemma_count_clear};
use crate::idx::{PIdx, RIdx, SIdx, Symbol, TIdx};

verus! {

/// The associativity of a precedence level.
#[derive(Clone, Copy, Debug, PartialEq, Eq, Structural)]
pub enum AssocKind {
    Left,
    Right,
    Nonassoc,
}

/// A precedence: a level (higher binds tighter) and an associativity.
#[derive(Clone, Copy, Debug, PartialEq, Eq, Structural)]
pub struct Precedence {
    pub level: u64,
    pub kind: AssocKind,
}

/// A compiled grammar: every rule, token and production is addressed by a dense index.
///
/// The fields are public so that the table can be inspected directly; `wf` states the
/// invariant that `YaccGrammar::new` establishes and that every method relies on.
pub struct YaccGrammar {
    /// How many rules the grammar has.
    pub rules_len: RIdx,
    /// `RIdx` -> name.
    pub rule_names: Vec<String>,
    /// `TIdx` -> name; user tokens have one, the end-of-input token has none.
    pub token_names: Vec<Option<String>>,
    /// `TIdx` -> precedence.
    pub token_precs: Vec<Option<Precedence>>,
    /// How many tokens the grammar has, the end-of-input token included.
    pub tokens_len: TIdx,
    /// The end-of-input token; always the last token.
    pub eof_token_idx: TIdx,
    /// How many productions the grammar has.
    pub prods_len: PIdx,
    /// The sole production of the start rule.
    pub start_prod: PIdx,
    /// `PIdx` -> symbols.
    pub prods: Vec<Vec<Symbol>>,
    /// `RIdx` -> the productions of that rule.
    pub rules_prods: Vec<Vec<PIdx>>,
    /// `PIdx` -> the rule that owns it.
    pub prods_rules: Vec<RIdx>,
    /// `PIdx` -> precedence.
    pub prod_precs: Vec<Option<Precedence>>,
    /// The rule that matches implicit tokens, where the grammar declares any.
    pub implicit_rule: Option<RIdx>,
}

impl YaccGrammar {
    pub open spec fn num_rules(&self) -> int {
        self.rules_len.0 as int
    }

    pub open spec fn num_tokens(&self) -> int {
        self.tokens_len.0 as int
    }

    pub open spec fn num_prods(&self) -> int {
        self.prods_len.0 as int
    }

    /// The symbols of production `p`.
    pub open spec fn prod_of(&self, p: int) -> Seq<Symbol> {
        self.prods@[p]@
    }

    /// The productions of rule `r`.
    pub open spec fn prods_of(&self, r: int) -> Seq<PIdx> {
        self.rules_prods@[r]@
    }

    /// A symbol that refers to an existing rule, or to a token other than end-of-input.
    pub open spec fn symbol_ok(&self, s: Symbol) -> bool {
        match s {
            Symbol::Rule(r) => r.0 < self.rules_len.0,
            Symbol::Token(t) => t.0 < self.eof_token_idx.0,
        }
    }

    /// Does production `p` belong to rule `r`?
    pub open spec fn rule_has_prod(&self, r: int, p: int) -> bool {
        exists|k: int| 0 <= k < self.prods_of(r).len() && self.prods_of(r)[k].0 == p
    }

    /// Is token `t` named `n`?
    pub open spec fn token_named(&self, t: int, n: Seq<char>) -> bool {
        match self.token_names@[t] {
            Some(s) => s@ == n,
            None => false,
        }
    }

    /// The invariant of a compiled grammar.
    pub open spec fn wf(&self) -> bool {
        &&& self.rule_names@.len() == self.num_rules()
        &&& self.rules_prods@.len() == self.num_rules()
        &&& self.num_rules() >= 1
        &&& self.token_names@.len() == self.num_tokens()
        &&& self.token_precs@.len() == self.num_tokens()
        &&& self.num_tokens() >= 1
        &&& self.eof_token_idx.0 == self.num_tokens() - 1
        &&& self.token_names@[self.eof_token_idx.0 as int] is None
        &&& forall|t: int| 0 <= t < self.eof_token_idx.0 ==> (#[trigger] self.token_names@[t]) is Some
        &&& self.prods@.len() == self.num_prods()
        &&& self.prods_rules@.len() == self.num_prods()
        &&& self.prod_precs@.len() == self.num_prods()
        &&& forall|p: int|
            0 <= p < self.num_prods() ==> #[trigger] self.prod_of(p).len() < u32::MAX
        &&& forall|p: int, i: int|
            0 <= p < self.num_prods() && 0 <= i < self.prod_of(p).len() ==> self.symbol_ok(
                #[trigger] self.prod_of(p)[i],
            )
        &&& forall|r: int| 0 <= r < self.num_rules() ==> #[trigger] self.prods_of(r).len() >= 1
        &&& forall|r: int, k: int|
            0 <= r < self.num_rules() && 0 <= k < self.prods_of(r).len() ==> {
                &&& (#[trigger] self.prods_of(r)[k]).0 < self.num_prods()
                &&& self.prods_rules@[self.prods_of(r)[k].0 as int].0 == r
            }
        &&& forall|r: int, k1: int, k2: int|
            0 <= r < self.num_rules() && 0 <= k1 < self.prods_of(r).len() && 0 <= k2 < self.prods_of(r).len()
                && k1 != k2 ==> #[trigger] self.prods_of(r)[k1] != #[trigger] self.prods_of(r)[k2]
        &&& forall|p: int|
            0 <= p < self.num_prods() ==> {
                &&& (#[trigger] self.prods_rules@[p]).0 < self.num_rules()
                &&& self.rule_has_prod(self.prods_rules@[p].0 as int, p)
            }
        &&& self.start_prod.0 < self.num_prods()
        &&& self.prods_of(0) == seq![self.start_prod]
        &&& forall|i: int, j: int|
            0 <= i < self.num_rules() && 0 <= j < self.num_rules() && i != j
                ==> #[trigger] self.rule_names@[i]@ != #[trigger] self.rule_names@[j]@
        &&& forall|i: int, j: int|
            0 <= i < self.num_tokens() && 0 <= j < self.num_tokens() && i != j
                && (#[trigger] self.token_names@[i]) is Some && (#[trigger] self.token_names@[j]) is Some
                ==> self.token_names@[i]->0@ != self.token_names@[j]->0@
        &&& self.implicit_rule matches Some(i) ==> i.0 < self.rules_len.0
    }

    /// Return the index of the end-of-input token.
    pub fn eof_token_idx(&self) -> (r: TIdx)
        ensures
            r == self.eof_token_idx,
    {
        self.eof_token_idx
    }

    /// Return the productions of rule `ridx`.
    pub fn rule_to_prods(&self, ridx: RIdx) -> (r: &[PIdx])
        requires
            self.wf(),
            ridx.0 < self.rules_len.0,
        ensures
            r@ == self.prods_of(ridx.0 as int),
    {
        self.rules_prods[ridx.0 as usize].as_slice()
    }

    /// Return the name of rule `ridx`.
    pub fn rule_name(&self, ridx: RIdx) -> (r: &str)
        requires
            self.wf(),
            ridx.0 < self.rules_len.0,
        ensures
            r@ == self.rule_names@[ridx.0 as int]@,
    {
        self.rule_names[ridx.0 as usize].as_str()
    }

    /// Return the symbols of production `pidx`.
    pub fn prod(&self, pidx: PIdx) -> (r: &[Symbol])
        requires
            self.wf(),
            pidx.0 < self.prods_len.0,
        ensures
            r@ == self.prod_of(pidx.0 as int),
    {
        self.prods[pidx.0 as usize].as_slice()
    }

    /// How many symbols production `pidx` has.
    pub fn prod_len(&self, pidx: PIdx) -> (r: SIdx)
        requires
            self.wf(),
            pidx.0 < self.prods_len.0,
        ensures
            r.0 == self.prod_of(pidx.0 as int).len(),
    {
        SIdx(self.prods[pidx.0 as usize].len() as u32)
    }

    /// Return the rule that production `pidx` belongs to.
    pub fn prod_to_rule(&self, pidx: PIdx) -> (r: RIdx)
        requires
            self.wf(),
            pidx.0 < self.prods_len.0,
        ensures
            r == self.prods_rules@[pidx.0 as int],
            r.0 < self.rules_len.0,
    {
        self.prods_rules[pidx.0 as usize]
    }

    /// Return the precedence of production `pidx`, if it has one.
    pub fn prod_precedence(&self, pidx: PIdx) -> (r: Option<Precedence>)
        requires
            self.wf(),
            pidx.0 < self.prods_len.0,
        ensures
            r == self.prod_precs@[pidx.0 as int],
    {
        self.prod_precs[pidx.0 as usize]
    }

    /// Return the name of token `tidx`; the end-of-input token has none.
    pub fn token_name(&self, tidx: TIdx) -> (r: Option<&str>)
        requires
            self.wf(),
            tidx.0 < self.tokens_len.0,
        ensures
            match self.token_names@[tidx.0 as int] {
                Some(n) => r matches Some(s) && s@ == n@,
                None => r is None,
            },
    {
        match &self.token_names[tidx.0 as usize] {
            Some(n) => Some(n.as_str()),
            None => None,
        }
    }

    /// Return the precedence of token `tidx`, if it has one.
    pub fn token_precedence(&self, tidx: TIdx) -> (r: Option<Precedence>)
        requires
            self.wf(),
            tidx.0 < self.tokens_len.0,
        ensures
            r == self.token_precs@[tidx.0 as int],
    {
        self.token_precs[tidx.0 as usize]
    }

    /// Return the sole production of the start rule.
    pub fn start_prod(&self) -> (r: PIdx)
        ensures
            r == self.start_prod,
    {
        self.start_prod
    }

    /// Return the rule that matches implicit tokens, if there is one.
    pub fn implicit_rule(&self) -> (r: Option<RIdx>)
        ensures
            r == self.implicit_rule,
    {
        self.implicit_rule
    }

    /// How many productions the grammar has.
    pub fn prods_len(&self) -> (r: PIdx)
        ensures
            r == self.prods_len,
    {
        self.prods_len
    }

    /// How many rules the grammar has.
    pub fn rules_len(&self) -> (r: RIdx)
        ensures
            r == self.rules_len,
    {
        self.rules_len
    }

    /// How many tokens the grammar has, the end-of-input token included.
    pub fn tokens_len(&self) -> (r: TIdx)
        ensures
            r == self.tokens_len,
    {
        self.tokens_len
    }

    /// Return the start rule: the rule that owns the start production.
    pub fn start_rule_idx(&self) -> (r: RIdx)
        requires
            self.wf(),
        ensures
            r == self.prods_rules@[self.start_prod.0 as int],
            r.0 == 0,
    {
        proof {
            assert(self.prods_of(0)[0] == self.start_prod);
        }
        self.prods_rules[self.start_prod.0 as usize]
    }

    /// Return the index of the rule named `n`, if there is one.
    pub fn rule_idx(&self, n: &str) -> (r: Option<RIdx>)
        requires
            self.wf(),
        ensures
            match r {
                Some(i) => i.0 < self.rules_len.0 && self.rule_names@[i.0 as int]@ == n@,
                None => forall|j: int|
                    0 <= j < self.num_rules() ==> #[trigger] self.rule_names@[j]@ != n@,
            },
    {
        let key = n.to_owned();
        let mut i: usize = 0;
        while i < self.rule_names.len()
            invariant
                self.wf(),
                key@ == n@,
                0 <= i <= self.rule_names@.len(),
                forall|j: int| 0 <= j < i ==> #[trigger] self.rule_names@[j]@ != n@,
            decreases self.rule_names@.len() - i,
        {
            if self.rule_names[i] == key {
                return Some(RIdx(i as u32));
            }
            i += 1;
        }
        None
    }

    /// Return the index of the token named `n`, if there is one.
    pub fn token_idx(&self, n: &str) -> (r: Option<TIdx>)
        requires
            self.wf(),
        ensures
            match r {
                Some(i) => i.0 < self.tokens_len.0 && self.token_named(i.0 as int, n@),
                None => forall|j: int|
                    0 <= j < self.num_tokens() ==> !#[trigger] self.token_named(j, n@),
            },
    {
        let key = n.to_owned();
        let mut i: usize = 0;
        while i < self.token_names.len()
            invariant
                self.wf(),
                key@ == n@,
                0 <= i <= self.token_names@.len(),
                forall|j: int| 0 <= j < i ==> !#[trigger] self.token_named(j, n@),
            decreases self.token_names@.len() - i,
        {
            match &self.token_names[i] {
                Some(s) => {
                    if *s == key {
                        return Some(TIdx(i as u32));
                    }
                },
                None => {},
            }
            i += 1;
        }
        None
    }

    /// Return the name and index of every named token, in index order; the end-of-input
    /// token is left out.
    pub fn tokens_map(&self) -> (r: Vec<(String, TIdx)>)
        requires
            self.wf(),
        ensures
            forall|k: int|
                0 <= k < r@.len() ==> {
                    &&& (#[trigger] r@[k]).1.0 < self.tokens_len.0
                    &&& self.token_named(r@[k].1.0 as int, r@[k].0@)
                },
            forall|t: int|
                0 <= t < self.num_tokens() && (#[trigger] self.token_names@[t]) is Some ==> exists|
                    k: int,
                | 0 <= k < r@.len() && (#[trigger] r@[k]).1.0 == t,
            forall|k: int, l: int| 0 <= k < l < r@.len() ==> (#[trigger] r@[k]).1.0 < (#[trigger] r@[l]).1.0,
            r@.len() == self.num_tokens() - 1,
    {
        let mut m: Vec<(String, TIdx)> = Vec::new();
        let mut i: usize = 0;
        while i < self.token_names.len()
            invariant
                self.wf(),
                0 <= i <= self.token_names@.len(),
                forall|k: int|
                    0 <= k < m@.len() ==> {
                        &&& (#[trigger] m@[k]).1.0 < i
                        &&& self.token_named(m@[k].1.0 as int, m@[k].0@)
                    },
                forall|t: int|
                    0 <= t < i && (#[trigger] self.token_names@[t]) is Some ==> exists|k: int|
                        0 <= k < m@.len() && (#[trigger] m@[k]).1.0 == t,
                forall|k: int, l: int|
                    0 <= k < l < m@.len() ==> (#[trigger] m@[k]).1.0 < (#[trigger] m@[l]).1.0,
                m@.len() == if i <= self.eof_token_idx.0 { i as int } else { self.eof_token_idx.0 as int },
            decreases self.token_names@.len() - i,
        {
            let ghost m0 = m@;
            match &self.token_names[i] {
                Some(s) => {
                    m.push((s.clone(), TIdx(i as u32)));
                },
                None => {},
            }
            proof {
                assert forall|t: int|
                    0 <= t < i + 1 && (#[trigger] self.token_names@[t]) is Some implies exists|k: int|
                    0 <= k < m@.len() && (#[trigger] m@[k]).1.0 == t by {
                    if t < i {
                        let k = choose|k: int| 0 <= k < m0.len() && (#[trigger] m0[k]).1.0 == t;
                        assert(m@[k] == m0[k]);
                    } else {
                        assert(m@[m@.len() - 1].1.0 == t);
                    }
                }
            }
            i += 1;
        }
        m
    }

    /// Some production of rule `a` holds `Rule(b)`.
    pub open spec fn rule_edge(&self, a: int, b: int) -> bool {
        &&& 0 <= a < self.num_rules()
        &&& 0 <= b < self.num_rules()
        &&& exists|k: int, i: int|
            0 <= k < self.prods_of(a).len() && 0 <= i < self.prod_of(self.prods_of(a)[k].0 as int).len()
                && #[trigger] self.prod_of(self.prods_of(a)[k].0 as int)[i] == Symbol::Rule(RIdx(b as u32))
    }

    /// `s` is a walk of one step or more through the rule graph.
    pub open spec fn is_path(&self, s: Seq<int>) -> bool {
        &&& s.len() >= 2
        &&& forall|i: int| 0 <= i < s.len() - 1 ==> #[trigger] self.rule_edge(s[i], s[i + 1])
    }

    /// Some walk of one step or more leads from rule `from` to rule `to`.
    pub open spec fn reaches(&self, from: int, to: int) -> bool {
        exists|s: Seq<int>| #[trigger] self.is_path(s) && s[0] == from && s.last() == to
    }

    /// Is there a path from the `from` rule to the `to` rule? A rule that refers to itself,
    /// directly or through other rules, has a path to itself.
    pub fn has_path(&self, from: RIdx, to: RIdx) -> (r: bool)
        requires
            self.wf(),
            from.0 < self.rules_len.0,
            to.0 < self.rules_len.0,
        ensures
            r == self.reaches(from.0 as int, to.0 as int),
    {
        let n = self.rules_len.0 as usize;
        let mut seen: Vec<bool> = Vec::new();
        let mut todo: Vec<bool> = Vec::new();
        let mut i: usize = 0;
        while i < n
            invariant
                0 <= i <= n,
                seen@.len() == i,
                todo@.len() == i,
                forall|j: int| 0 <= j < i ==> !#[trigger] seen@[j] && todo@[j] == (j == from.0),
            decreases n - i,
        {
            seen.push(false);
            todo.push(i == from.0 as usize);
            proof {
                assert(!seen@[i as int] && todo@[i as int] == (i == from.0));
            }
            i += 1;
        }
        let ghost f = from.0 as int;
        let ghost t = to.0 as int;
        loop
            invariant
                self.wf(),
                n == self.num_rules(),
                f == from.0,
                t == to.0,
                0 <= f < n,
                0 <= t < n,
                seen@.len() == n,
                todo@.len() == n,
                seen@[f] || todo@[f],
                forall|r: int| 0 <= r < n && #[trigger] todo@[r] ==> !seen@[r],
                forall|r: int| 0 <= r < n && (#[trigger] seen@[r] || todo@[r]) ==> r == f || self.reaches(f, r),
                forall|r: int, q: int|
                    0 <= r < n && #[trigger] seen@[r] && #[trigger] self.rule_edge(r, q) ==> q != t && (seen@[q] || todo@[q]),
            decreases count_clear(seen@),
        {
            let ghost start = seen@;
            let mut empty = true;
            let mut ridx: usize = 0;
            while ridx < n
                invariant
                    self.wf(),
                    n == self.num_rules(),
                    f == from.0,
                    t == to.0,
                    0 <= f < n,
                    0 <= t < n,
                    0 <= ridx <= n,
                    seen@.len() == n,
                    todo@.len() == n,
                    start.len() == n,
                    seen@[f] || todo@[f],
                    forall|r: int| 0 <= r < n && #[trigger] todo@[r] ==> !seen@[r],
                    forall|r: int| 0 <= r < n && (#[trigger] seen@[r] || todo@[r]) ==> r == f || self.reaches(f, r),
                    forall|r: int, q: int|
                        0 <= r < n && #[trigger] seen@[r] && #[trigger] self.rule_edge(r, q) ==> q != t && (seen@[q] || todo@[q]),
                    forall|r: int| 0 <= r < n && #[trigger] start[r] ==> seen@[r],
                    empty ==> forall|r: int| 0 <= r < ridx ==> !#[trigger] todo@[r],
                    !empty ==> exists|r: int| 0 <= r < n && !start[r] && #[trigger] seen@[r],
                decreases n - ridx,
            {
                if todo[ridx] {
                    let ghost seen_b = seen@;
                    let ghost todo_b = todo@;
                    seen.set(ridx, true);
                    todo.set(ridx, false);
                    empty = false;
                    let ghost todo0 = todo@;
                    let found = self.visit(ridx, to, &seen, &mut todo);
                    if found {
                        proof {
                            self.lemma_extend(f, ridx as int, t);
                        }
                        return true;
                    }
                    proof {
                        assert(!start[ridx as int] && seen@[ridx as int]);
                        if f != ridx && todo_b[f] {
                            assert(todo0[f]);
                        }
                        assert forall|r: int, q: int|
                            0 <= r < n && #[trigger] seen@[r] && #[trigger] self.rule_edge(r, q) implies q != t && (seen@[q] || todo@[q]) by {
                            if r != ridx {
                                assert(seen_b[r]);
                                if todo_b[q] && q != ridx {
                                    assert(todo0[q]);
                                }
                            }
                        }
                        assert forall|r: int| 0 <= r < n && (#[trigger] seen@[r] || todo@[r]) implies r == f || self.reaches(f, r) by {
                            if todo@[r] && !todo0[r] {
                                self.lemma_extend(f, ridx as int, r);
                            }
                        }
                    }
                }
                ridx += 1;
            }
            if empty {
                proof {
                    self.lemma_no_path(f, t, seen@);
                }
                return false;
            }
            proof {
                let r = choose|r: int| 0 <= r < n && !start[r] && #[trigger] seen@[r];
                lemma_count_clear(start, seen@);
            }
        }
    }

    /// Queue every rule that a production of `ridx` refers to and that is not yet seen;
    /// returns whether one of them is `to`.
    fn visit(&self, ridx: usize, to: RIdx, seen: &Vec<bool>, todo: &mut Vec<bool>) -> (found: bool)
        requires
            self.wf(),
            ridx < self.num_rules(),
            to.0 < self.rules_len.0,
            seen@.len() == self.num_rules(),
            old(todo)@.len() == self.num_rules(),
        ensures
            final(todo)@.len() == self.num_rules(),
            found ==> self.rule_edge(ridx as int, to.0 as int),
            forall|q: int| 0 <= q < self.num_rules() && #[trigger] old(todo)@[q] ==> final(todo)@[q],
            forall|q: int|
                0 <= q < self.num_rules() && #[trigger] final(todo)@[q] && !old(todo)@[q] ==> self.rule_edge(ridx as int, q)
                    && !seen@[q],
            !found ==> forall|q: int|
                #[trigger] self.rule_edge(ridx as int, q) ==> q != to.0 && (seen@[q] || final(todo)@[q]),
    {
        let prods = self.rule_to_prods(RIdx(ridx as u32));
        let mut k: usize = 0;
        while k < prods.len()
            invariant
                self.wf(),
                ridx < self.num_rules(),
                to.0 < self.rules_len.0,
                seen@.len() == self.num_rules(),
                todo@.len() == self.num_rules(),
                prods@ == self.prods_of(ridx as int),
                0 <= k <= prods@.len(),
                forall|q: int| 0 <= q < self.num_rules() && #[trigger] old(todo)@[q] ==> todo@[q],
                forall|q: int|
                    0 <= q < self.num_rules() && #[trigger] todo@[q] && !old(todo)@[q] ==> self.rule_edge(ridx as int, q)
                        && !seen@[q],
                forall|k2: int, i: int|
                    0 <= k2 < k && 0 <= i < self.prod_of(prods@[k2].0 as int).len() ==> match #[trigger] self.prod_of(
                        prods@[k2].0 as int,
                    )[i] {
                        Symbol::Rule(p) => p != to && (seen@[p.0 as int] || todo@[p.0 as int]),
                        Symbol::Token(_) => true,
                    },
            decreases prods@.len() - k,
        {
            let prod = self.prod(prods[k]);
            let mut i: usize = 0;
            while i < prod.len()
                invariant
                    self.wf(),
                    ridx < self.num_rules(),
                    to.0 < self.rules_len.0,
                    seen@.len() == self.num_rules(),
                    todo@.len() == self.num_rules(),
                    prods@ == self.prods_of(ridx as int),
                    0 <= k < prods@.len(),
                    prod@ == self.prod_of(prods@[k as int].0 as int),
                    0 <= i <= prod@.len(),
                    forall|q: int| 0 <= q < self.num_rules() && #[trigger] old(todo)@[q] ==> todo@[q],
                    forall|q: int|
                        0 <= q < self.num_rules() && #[trigger] todo@[q] && !old(todo)@[q] ==> self.rule_edge(ridx as int, q)
                            && !seen@[q],
                    forall|k2: int, i2: int|
                        (0 <= k2 < k && 0 <= i2 < self.prod_of(prods@[k2].0 as int).len()) || (k2 == k && 0 <= i2 < i)
                            ==> match #[trigger] self.prod_of(prods@[k2].0 as int)[i2] {
                            Symbol::Rule(p) => p != to && (seen@[p.0 as int] || todo@[p.0 as int]),
                            Symbol::Token(_) => true,
                        },
                decreases prod@.len() - i,
            {
                proof {
                    assert(self.symbol_ok(self.prod_of(prods@[k as int].0 as int)[i as int]));
                }
                match prod[i] {
                    Symbol::Rule(p) => {
                        proof {
                            assert(self.rule_edge(ridx as int, p.0 as int));
                        }
                        if p == to {
                            return true;
                        }
                        if !seen[p.0 as usize] {
                            todo.set(p.0 as usize, true);
                        }
                    },
                    Symbol::Token(_) => {},
                }
                i += 1;
            }
            k += 1;
        }
        proof {
            assert forall|q: int| #[trigger] self.rule_edge(ridx as int, q) implies q != to.0 && (seen@[q] || todo@[q]) by {
                let (k2, i2) = choose|k2: int, i2: int|
                    0 <= k2 < self.prods_of(ridx as int).len() && 0 <= i2 < self.prod_of(self.prods_of(ridx as int)[k2].0 as int).len()
                        && #[trigger] self.prod_of(self.prods_of(ridx as int)[k2].0 as int)[i2] == Symbol::Rule(RIdx(q as u32));
                assert(prods@[k2] == self.prods_of(ridx as int)[k2]);
            }
        }
        false
    }

    /// A walk to `r` followed by an edge from `r` to `q` is a walk to `q`.
    pub proof fn lemma_extend(&self, f: int, r: int, q: int)
        requires
            r == f || self.reaches(f, r),
            self.rule_edge(r, q),
        ensures
            self.reaches(f, q),
    {
        if r == f {
            let s = seq![f, q];
            assert(self.rule_edge(s[0], s[1]));
            assert(self.is_path(s));
        } else {
            let s = choose|s: Seq<int>| #[trigger] self.is_path(s) && s[0] == f && s.last() == r;
            let s2 = s.push(q);
            assert forall|i: int| 0 <= i < s2.len() - 1 implies #[trigger] self.rule_edge(s2[i], s2[i + 1]) by {
                if i < s.len() - 1 {
                    assert(s2[i] == s[i] && s2[i + 1] == s[i + 1]);
                } else {
                    assert(s2[i] == r && s2[i + 1] == q);
                }
            }
            assert(self.is_path(s2));
        }
    }

    /// No walk leaves a set of rules that holds `f` and is closed under edges that never
    /// lead to `t`.
    proof fn lemma_no_path(&self, f: int, t: int, seen: Seq<bool>)
        requires
            seen.len() == self.num_rules(),
            0 <= f < self.num_rules(),
            seen[f],
            forall|r: int, q: int|
                0 <= r < self.num_rules() && #[trigger] seen[r] && #[trigger] self.rule_edge(r, q) ==> q != t && seen[q],
        ensures
            !self.reaches(f, t),
    {
        if self.reaches(f, t) {
            let s = choose|s: Seq<int>| #[trigger] self.is_path(s) && s[0] == f && s.last() == t;
            let i = s.len() - 2;
            self.lemma_walk_stays(f, t, seen, s, i);
            assert(self.rule_edge(s[i], s[i + 1]));
            assert(s[i + 1] == s.last());
        }
    }

    proof fn lemma_walk_stays(&self, f: int, t: int, seen: Seq<bool>, s: Seq<int>, i: int)
        requires
            seen.len() == self.num_rules(),
            0 <= f < self.num_rules(),
            seen[f],
            forall|r: int, q: int|
                0 <= r < self.num_rules() && #[trigger] seen[r] && #[trigger] self.rule_edge(r, q) ==> q != t && seen[q],
            self.is_path(s),
            s[0] == f,
            0 <= i <= s.len() - 2,
        ensures
            0 <= s[i] < self.num_rules(),
            seen[s[i]],
        decreases i,
    {
        if i > 0 {
            self.lemma_walk_stays(f, t, seen, s, i - 1);
            let j = i - 1;
            assert(self.rule_edge(s[j], s[j + 1]));
        }
    }
}


/// A production belongs to rule `r` exactly when `r`'s list of productions holds it.
pub proof fn lemma_prod_to_rule(grm: &YaccGrammar, p: int, r: int)
    requires
        grm.wf(),
        0 <= p < grm.num_prods(),
        0 <= r < grm.num_rules(),
    ensures
        (grm.prods_rules@[p].0 == r) <==> grm.rule_has_prod(r, p),
{
    if grm.rule_has_prod(r, p) {
        let k = choose|k: int| 0 <= k < grm.prods_of(r).len() && grm.prods_of(r)[k].0 == p;
        assert(grm.prods_rules@[grm.prods_of(r)[k].0 as int].0 == r);
    }
}


/// How many productions the first `n` rules list, together.
pub open spec fn listed_count(grm: &YaccGrammar, n: int) -> int
    decreases n,
{
    if n <= 0 {
        0
    } else {
        listed_count(grm, n - 1) + grm.prods_of(n - 1).len()
    }
}

/// The productions that belong to rules before `n`.
pub open spec fn owned_below(grm: &YaccGrammar, n: int) -> Set<int> {
    set_int_range(0, grm.num_prods()).filter(|p: int| grm.prods_rules@[p].0 < n)
}

proof fn lemma_owned_below(grm: &YaccGrammar, n: int)
    requires
        grm.wf(),
        0 <= n <= grm.num_rules(),
    ensures
        owned_below(grm, n).finite(),
        owned_below(grm, n).len() == listed_count(grm, n),
    decreases n,
{
    lemma_int_range(0, grm.num_prods());
    set_int_range(0, grm.num_prods()).lemma_len_filter(|p: int| grm.prods_rules@[p].0 < n);
    if n == 0 {
        assert(owned_below(grm, 0) =~= Set::<int>::empty());
    } else {
        lemma_owned_below(grm, n - 1);
        let ps = grm.prods_of(n - 1);
        let t = ps.map_values(|x: PIdx| x.0 as int);
        assert(t.no_duplicates()) by {
            assert forall|i: int, j: int| 0 <= i < t.len() && 0 <= j < t.len() && i != j implies t[i] != t[j] by {
                assert(ps[i] != ps[j]);
            }
        }
        t.unique_seq_to_set();
        seq_to_set_is_finite(t);
        assert(owned_below(grm, n) =~= owned_below(grm, n - 1) + t.to_set()) by {
            assert forall|p: int| owned_below(grm, n).contains(p) implies (owned_below(grm, n - 1) + t.to_set()).contains(p) by {
                if grm.prods_rules@[p].0 == n - 1 {
                    assert(grm.rule_has_prod(n - 1, p));
                    let k = choose|k: int| 0 <= k < ps.len() && ps[k].0 == p;
                    assert(t[k] == p);
                }
            }
            assert forall|p: int| (owned_below(grm, n - 1) + t.to_set()).contains(p) implies owned_below(grm, n).contains(p) by {
                if t.to_set().contains(p) {
                    let k = choose|k: int| 0 <= k < t.len() && t[k] == p;
                    assert(ps[k].0 < grm.num_prods());
                    assert(grm.prods_rules@[ps[k].0 as int].0 == n - 1);
                }
            }
        }
        assert(owned_below(grm, n - 1).disjoint(t.to_set())) by {
            assert forall|p: int| owned_below(grm, n - 1).contains(p) implies !t.to_set().contains(p) by {
                if t.to_set().contains(p) {
                    let k = choose|k: int| 0 <= k < t.len() && t[k] == p;
                    assert(grm.prods_rules@[ps[k].0 as int].0 == n - 1);
                }
            }
        }
        lemma_set_disjoint_lens(owned_below(grm, n - 1), t.to_set());
    }
}

/// The rules' lists of productions, together, hold every production once: their lengths
/// add up to the number of productions.
pub proof fn lemma_prods_partition(grm: &YaccGrammar)
    requires
        grm.wf(),
    ensures
        listed_count(grm, grm.num_rules()) == grm.num_prods(),
{
    lemma_owned_below(grm, grm.num_rules());
    lemma_int_range(0, grm.num_prods());
    assert(owned_below(grm, grm.num_rules()) =~= set_int_range(0, grm.num_prods()));
}

} // verus!
