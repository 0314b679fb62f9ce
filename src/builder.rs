use vstd::prelude::*;
use vstd::string::*;

use crate::ast::{self, GrammarAST, GrammarValidationError};
use crate::grammar::{Precedence, YaccGrammar};
use crate::idx::{PIdx, RIdx, Symbol, TIdx};

verus! {

/// The dialect of a Yacc grammar.
#[derive(Clone, Copy, Debug, PartialEq, Eq, Structural)]
pub enum YaccKind {
    /// Plain Yacc.
    Original,
    /// Yacc with `%implicit_tokens`: the declared implicit tokens may appear after any token.
    Eco,
}

/// Why a grammar could not be compiled.
#[derive(Clone, Copy, Debug, PartialEq, Eq, Structural)]
pub enum YaccGrammarError {
    /// The grammar is malformed.
    GrammarValidationError(GrammarValidationError),
    /// The grammar has too many rules, tokens or productions, or too long a production, for
    /// 32-bit indices.
    StorageOverflow,
}

/// `s` repeated `k` times.
pub open spec fn repeat(s: Seq<char>, k: nat) -> Seq<char>
    decreases k,
{
    if k == 0 {
        Seq::empty()
    } else {
        s + repeat(s, (k - 1) as nat)
    }
}

/// `n` is the shortest repetition of `seed` that names no rule of `a`.
pub open spec fn fresh_name(a: &GrammarAST, seed: Seq<char>, n: Seq<char>) -> bool {
    exists|k: nat|
        k >= 1 && n == #[trigger] repeat(seed, k) && !a.is_rule(n) && forall|j: nat|
            1 <= j < k ==> a.is_rule(#[trigger] repeat(seed, j))
}

proof fn lemma_repeat_push(s: Seq<char>, k: nat)
    ensures
        repeat(s, k) + s == repeat(s, k + 1),
    decreases k,
{
    if k > 0 {
        lemma_repeat_push(s, (k - 1) as nat);
        assert(repeat(s, k) + s =~= s + (repeat(s, (k - 1) as nat) + s));
    } else {
        assert(repeat(s, 0) + s =~= s + repeat(s, 0));
    }
}

/// Whether the implicit-token rewrite applies.
pub open spec fn uses_implicit(kind: YaccKind, a: &GrammarAST) -> bool {
    kind == YaccKind::Eco && a.implicit_tokens is Some
}

/// How many synthetic rules precede the user's rules.
pub open spec fn rule_offset(kind: YaccKind, a: &GrammarAST) -> int {
    if uses_implicit(kind, a) {
        3
    } else {
        1
    }
}

/// The implicit tokens that apply, in order.
pub open spec fn implicit_seq(kind: YaccKind, a: &GrammarAST) -> Seq<String> {
    if uses_implicit(kind, a) {
        a.implicit_tokens->0@
    } else {
        Seq::empty()
    }
}

/// The first `i` symbols of a production, lowered to indices: a rule becomes its index
/// (after the synthetic rules), a token its index, followed by the implicit rule where the
/// rewrite applies.
pub open spec fn lower(kind: YaccKind, a: &GrammarAST, syms: Seq<ast::Symbol>, i: int) -> Seq<Symbol>
    decreases i,
{
    if i <= 0 {
        Seq::empty()
    } else {
        lower(kind, a, syms, i - 1) + match syms[i - 1] {
            ast::Symbol::Rule(n) => seq![Symbol::Rule(RIdx((rule_offset(kind, a) + a.rule_index(n@)) as u32))],
            ast::Symbol::Token(n) => if uses_implicit(kind, a) {
                seq![Symbol::Token(TIdx(a.token_index(n@) as u32)), Symbol::Rule(RIdx(1))]
            } else {
                seq![Symbol::Token(TIdx(a.token_index(n@) as u32))]
            },
        }
    }
}

/// The length of `lower(kind, a, syms, i)`.
pub open spec fn lowered_len(kind: YaccKind, a: &GrammarAST, syms: Seq<ast::Symbol>, i: int) -> int
    decreases i,
{
    if i <= 0 {
        0
    } else {
        lowered_len(kind, a, syms, i - 1) + match syms[i - 1] {
            ast::Symbol::Rule(_) => 1int,
            ast::Symbol::Token(_) => if uses_implicit(kind, a) {
                2int
            } else {
                1int
            },
        }
    }
}

/// The precedence of the rightmost token among the first `i` symbols (stopping at that
/// token whether or not it has one).
pub open spec fn rightmost_prec(a: &GrammarAST, syms: Seq<ast::Symbol>, i: int) -> Option<Precedence>
    decreases i,
{
    if i <= 0 {
        None
    } else {
        match syms[i - 1] {
            ast::Symbol::Token(n) => a.prec_of(n@),
            ast::Symbol::Rule(_) => rightmost_prec(a, syms, i - 1),
        }
    }
}

/// The precedence of production `p`: that of its `%prec` token, else that of its rightmost
/// token.
pub open spec fn prod_prec(a: &GrammarAST, p: int) -> Option<Precedence> {
    match a.prods@[p].precedence {
        Some(n) => a.prec_of(n@),
        None => rightmost_prec(a, a.prod_syms(p), a.prod_syms(p).len() as int),
    }
}

/// Every count of the compiled grammar fits a 32-bit index.
pub open spec fn fits(kind: YaccKind, a: &GrammarAST) -> bool {
    &&& a.rules@.len() + rule_offset(kind, a) < u32::MAX
    &&& a.tokens@.len() + 1 < u32::MAX
    &&& a.prods@.len() + 1 + if uses_implicit(kind, a) {
        implicit_seq(kind, a).len() + 2
    } else {
        0
    } < u32::MAX
    &&& forall|p: int|
        0 <= p < a.prods@.len() ==> #[trigger] lowered_len(kind, a, a.prod_syms(p), a.prod_syms(p).len() as int)
            < u32::MAX - 1
}


/// How `YaccGrammar::new` lays out the compiled grammar `g` of `a`.
pub open spec fn built(kind: YaccKind, a: &GrammarAST, g: &YaccGrammar) -> bool {
    let off = rule_offset(kind, a);
    let nr = a.rules@.len() as int;
    let np = a.prods@.len() as int;
    let nt = a.tokens@.len() as int;
    let its = implicit_seq(kind, a);
    let start = off + a.rule_index(a.start->0@);
    &&& g.num_rules() == nr + off
    &&& g.rule_names@.len() == g.num_rules()
    &&& g.rules_prods@.len() == g.num_rules()
    &&& g.token_names@.len() == g.num_tokens()
    &&& g.token_precs@.len() == g.num_tokens()
    &&& g.prods@.len() == g.num_prods()
    &&& g.prods_rules@.len() == g.num_prods()
    &&& g.prod_precs@.len() == g.num_prods()
    &&& g.eof_token_idx.0 == nt
    &&& g.token_names@[nt] is None
    &&& fresh_name(a, "^"@, g.rule_names@[0]@)
    &&& forall|j: int| 0 <= j < nr ==> #[trigger] g.rule_names@[off + j]@ == a.rule_name(j)
    &&& g.num_tokens() == nt + 1
    &&& forall|i: int|
        0 <= i < nt ==> #[trigger] g.token_named(i, a.tokens@[i]@) && g.token_precs@[i] == a.prec_of(
            a.tokens@[i]@,
        )
    &&& g.token_precs@[nt] is None
    &&& forall|p: int|
        0 <= p < np ==> {
            &&& #[trigger] g.prod_of(p) == lower(kind, a, a.prod_syms(p), a.prod_syms(p).len() as int)
            &&& g.prod_precs@[p] == prod_prec(a, p)
            &&& off <= g.prods_rules@[p].0 < off + nr
            &&& a.lists(g.prods_rules@[p].0 - off, p)
        }
    &&& forall|j: int|
        0 <= j < nr ==> #[trigger] g.prods_of(off + j) == a.rule_prods(j).map_values(
            |q: usize| PIdx(q as u32),
        )
    &&& g.start_prod.0 == np
    &&& g.prods_of(0) == seq![PIdx(np as u32)]
    &&& g.prods_rules@[np].0 == 0
    &&& g.prod_precs@[np] is None
    &&& if uses_implicit(kind, a) {
        &&& g.prod_of(np) == seq![Symbol::Rule(RIdx(2))]
        &&& fresh_name(a, "~"@, g.rule_names@[1]@)
        &&& fresh_name(a, "^~"@, g.rule_names@[2]@)
        &&& g.implicit_rule == Some(RIdx(1))
        &&& g.num_prods() == np + its.len() + 3
        &&& g.prods_of(1) == Seq::new((its.len() + 1) as nat, |i: int| PIdx((np + 1 + i) as u32))
        &&& forall|i: int|
            0 <= i < its.len() ==> #[trigger] g.prod_of(np + 1 + i) == seq![
                Symbol::Token(TIdx(a.token_index(its[i]@) as u32)),
                Symbol::Rule(RIdx(1)),
            ]
        &&& g.prod_of(np + 1 + its.len()) == Seq::<Symbol>::empty()
        &&& g.prods_of(2) == seq![PIdx((np + its.len() + 2) as u32)]
        &&& g.prod_of(np + its.len() + 2) == seq![Symbol::Rule(RIdx(1)), Symbol::Rule(RIdx(start as u32))]
        &&& forall|p: int| np < p < g.num_prods() ==> #[trigger] g.prod_precs@[p] is None
        &&& forall|i: int| 0 <= i <= its.len() ==> #[trigger] g.prods_rules@[np + 1 + i].0 == 1
        &&& g.prods_rules@[np + its.len() + 2].0 == 2
    } else {
        &&& g.prod_of(np) == seq![Symbol::Rule(RIdx(start as u32))]
        &&& g.implicit_rule is None
        &&& g.num_prods() == np + 1
    }
}

/// The shortest repetition of `seed` that names no rule of `a`.
fn fresh(a: &GrammarAST, seed: &str) -> (r: String)
    requires
        seed@.len() >= 1,
    ensures
        fresh_name(a, seed@, r@),
{
    let mut maxl: usize = 0;
    let mut j: usize = 0;
    while j < a.rules.len()
        invariant
            0 <= j <= a.rules@.len(),
            forall|j2: int| 0 <= j2 < j ==> (#[trigger] a.rule_name(j2)).len() <= maxl,
        decreases a.rules@.len() - j,
    {
        let l = a.rules[j].0.as_str().unicode_len();
        if l > maxl {
            maxl = l;
        }
        j += 1;
    }
    let mut name = seed.to_owned();
    let ghost mut k: nat = 1;
    proof {
        assert(repeat(seed@, 0) =~= Seq::<char>::empty());
        assert(repeat(seed@, 1) =~= seed@);
    }
    loop
        invariant
            seed@.len() >= 1,
            k >= 1,
            name@ == repeat(seed@, k),
            forall|j2: int| 0 <= j2 < a.rules@.len() ==> (#[trigger] a.rule_name(j2)).len() <= maxl,
            forall|i: nat| 1 <= i < k ==> a.is_rule(#[trigger] repeat(seed@, i)),
        decreases if name@.len() <= maxl {
            maxl + 1 - name@.len()
        } else {
            0
        },
    {
        match a.find_rule(&name) {
            None => {
                return name;
            },
            Some(j) => {
                proof {
                    assert(a.rule_name(j as int).len() <= maxl);
                    assert(a.is_rule(repeat(seed@, k)));
                }
            },
        }
        proof {
            lemma_repeat_push(seed@, k);
        }
        name.append(seed);
        proof {
            k = k + 1;
        }
    }
}


/// Rules are found by name at their one position.
proof fn lemma_rule_index(a: &GrammarAST, j: int)
    requires
        a.valid(),
        0 <= j < a.rules@.len(),
    ensures
        a.rule_index(a.rule_name(j)) == j,
{
    let n = a.rule_name(j);
    assert(a.is_rule(n));
    let j2 = a.rule_index(n);
    assert(a.rule_name(j2) == n);
}

/// Tokens are found by name at their one position.
proof fn lemma_token_index(a: &GrammarAST, j: int)
    requires
        a.valid(),
        0 <= j < a.tokens@.len(),
    ensures
        a.token_index(a.tokens@[j]@) == j,
{
    let n = a.tokens@[j]@;
    assert(a.is_token(n));
    let j2 = a.token_index(n);
    assert(a.tokens@[j2]@ == n);
}

proof fn lemma_lowered_len_mono(kind: YaccKind, a: &GrammarAST, syms: Seq<ast::Symbol>, i: int, j: int)
    requires
        0 <= i <= j,
    ensures
        lowered_len(kind, a, syms, i) <= lowered_len(kind, a, syms, j),
    decreases j - i,
{
    if i < j {
        lemma_lowered_len_mono(kind, a, syms, i, j - 1);
    }
}

/// Production `p` of `a`, lowered to indices.
fn lower_prod(kind: YaccKind, a: &GrammarAST, p: usize) -> (r: Vec<Symbol>)
    requires
        a.valid(),
        fits(kind, a),
        p < a.prods@.len(),
    ensures
        r@ == lower(kind, a, a.prod_syms(p as int), a.prod_syms(p as int).len() as int),
{
    let imp = match kind {
        YaccKind::Original => false,
        YaccKind::Eco => a.implicit_tokens.is_some(),
    };
    let off: usize = if imp { 3 } else { 1 };
    let syms = &a.prods[p].symbols;
    let mut r: Vec<Symbol> = Vec::new();
    let mut i: usize = 0;
    proof {
        assert(lowered_len(kind, a, a.prod_syms(p as int), a.prod_syms(p as int).len() as int) < u32::MAX - 1);
    }
    while i < syms.len()
        invariant
            a.valid(),
            fits(kind, a),
            p < a.prods@.len(),
            imp == uses_implicit(kind, a),
            off == rule_offset(kind, a),
            syms@ == a.prod_syms(p as int),
            0 <= i <= syms@.len(),
            r@ == lower(kind, a, syms@, i as int),
            r@.len() == lowered_len(kind, a, syms@, i as int),
        decreases syms@.len() - i,
    {
        proof {
            assert(a.resolves(a.prod_syms(p as int)[i as int]));
        }
        match &syms[i] {
            ast::Symbol::Rule(n) => {
                match a.find_rule(n) {
                    Some(j) => {
                        proof {
                            lemma_rule_index(a, j as int);
                        }
                        r.push(Symbol::Rule(RIdx((off + j) as u32)));
                    },
                    None => {
                        proof {
                            assert(false);
                        }
                    },
                }
            },
            ast::Symbol::Token(n) => {
                match a.find_token(n) {
                    Some(t) => {
                        proof {
                            lemma_token_index(a, t as int);
                        }
                        r.push(Symbol::Token(TIdx(t as u32)));
                        if imp {
                            r.push(Symbol::Rule(RIdx(1)));
                        }
                    },
                    None => {
                        proof {
                            assert(false);
                        }
                    },
                }
            },
        }
        proof {
            assert(r@ =~= lower(kind, a, syms@, i + 1));
        }
        i += 1;
    }
    r
}

/// The precedence of production `p` of `a`.
fn compute_prec(a: &GrammarAST, p: usize) -> (r: Option<Precedence>)
    requires
        p < a.prods@.len(),
    ensures
        r == prod_prec(a, p as int),
{
    match &a.prods[p].precedence {
        Some(n) => a.find_prec(n),
        None => {
            let syms = &a.prods[p].symbols;
            let mut i: usize = syms.len();
            while i > 0
                invariant
                    syms@ == a.prod_syms(p as int),
                    a.prods@[p as int].precedence is None,
                    0 <= i <= syms@.len(),
                    prod_prec(a, p as int) == rightmost_prec(a, syms@, i as int),
                decreases i,
            {
                i -= 1;
                match &syms[i] {
                    ast::Symbol::Token(n) => {
                        return a.find_prec(n);
                    },
                    ast::Symbol::Rule(_) => {},
                }
            }
            None
        },
    }
}

/// The length of production `p` of `a` once lowered, where it stays under `u32::MAX - 1`.
fn lowered_fits(kind: YaccKind, a: &GrammarAST, p: usize) -> (r: bool)
    requires
        p < a.prods@.len(),
    ensures
        r == (lowered_len(kind, a, a.prod_syms(p as int), a.prod_syms(p as int).len() as int) < u32::MAX - 1),
{
    let imp = match kind {
        YaccKind::Original => false,
        YaccKind::Eco => a.implicit_tokens.is_some(),
    };
    let syms = &a.prods[p].symbols;
    let mut n: u64 = 0;
    let mut i: usize = 0;
    while i < syms.len()
        invariant
            syms@ == a.prod_syms(p as int),
            imp == uses_implicit(kind, a),
            0 <= i <= syms@.len(),
            n == lowered_len(kind, a, syms@, i as int),
            n < u32::MAX - 1,
        decreases syms@.len() - i,
    {
        match &syms[i] {
            ast::Symbol::Rule(_) => {
                n = n + 1;
            },
            ast::Symbol::Token(_) => {
                if imp {
                    n = n + 2;
                } else {
                    n = n + 1;
                }
            },
        }
        i += 1;
        if n >= (u32::MAX - 1) as u64 {
            proof {
                lemma_lowered_len_mono(kind, a, syms@, i as int, syms@.len() as int);
            }
            return false;
        }
    }
    true
}


/// Whether the implicit-token rewrite applies, computed.
fn implicit_applies(kind: YaccKind, a: &GrammarAST) -> (r: bool)
    ensures
        r == uses_implicit(kind, a),
{
    match kind {
        YaccKind::Original => false,
        YaccKind::Eco => a.implicit_tokens.is_some(),
    }
}

/// The names of the rules: the synthetic ones, then the user's.
fn build_rule_names(kind: YaccKind, a: &GrammarAST) -> (r: Vec<String>)
    ensures
        r@.len() == a.rules@.len() + rule_offset(kind, a),
        fresh_name(a, "^"@, r@[0]@),
        uses_implicit(kind, a) ==> fresh_name(a, "~"@, r@[1]@) && fresh_name(a, "^~"@, r@[2]@),
        forall|j: int| 0 <= j < a.rules@.len() ==> #[trigger] r@[rule_offset(kind, a) + j]@ == a.rule_name(j),
{
    proof {
        reveal_strlit("^");
        reveal_strlit("~");
        reveal_strlit("^~");
    }
    let imp = implicit_applies(kind, a);
    let off: usize = if imp { 3 } else { 1 };
    let mut rule_names: Vec<String> = Vec::new();
    rule_names.push(fresh(a, "^"));
    if imp {
        rule_names.push(fresh(a, "~"));
        rule_names.push(fresh(a, "^~"));
    }
    let nr = a.rules.len();
    let mut j: usize = 0;
    while j < nr
        invariant
            nr == a.rules@.len(),
            off == rule_offset(kind, a),
            0 <= j <= nr,
            rule_names@.len() == off + j,
            fresh_name(a, "^"@, rule_names@[0]@),
            off == 3 ==> fresh_name(a, "~"@, rule_names@[1]@) && fresh_name(a, "^~"@, rule_names@[2]@),
            forall|j2: int| 0 <= j2 < j ==> #[trigger] rule_names@[off + j2]@ == a.rule_name(j2),
        decreases nr - j,
    {
        rule_names.push(a.rules[j].0.clone());
        j += 1;
    }
    rule_names
}

/// The names and precedences of the tokens: the user's, then the unnamed end-of-input token.
fn build_tokens(a: &GrammarAST) -> (r: (Vec<Option<String>>, Vec<Option<Precedence>>))
    ensures
        r.0@.len() == a.tokens@.len() + 1,
        r.1@.len() == a.tokens@.len() + 1,
        forall|i: int| 0 <= i < a.tokens@.len() ==> (#[trigger] r.0@[i] == Some(a.tokens@[i])),
        forall|i: int| 0 <= i < a.tokens@.len() ==> #[trigger] r.1@[i] == a.prec_of(a.tokens@[i]@),
        r.0@[a.tokens@.len() as int] is None,
        r.1@[a.tokens@.len() as int] is None,
{
    let nt = a.tokens.len();
    let mut token_names: Vec<Option<String>> = Vec::new();
    let mut token_precs: Vec<Option<Precedence>> = Vec::new();
    let mut t: usize = 0;
    while t < nt
        invariant
            nt == a.tokens@.len(),
            0 <= t <= nt,
            token_names@.len() == t,
            token_precs@.len() == t,
            forall|i: int| 0 <= i < t ==> (#[trigger] token_names@[i] == Some(a.tokens@[i])),
            forall|i: int| 0 <= i < t ==> #[trigger] token_precs@[i] == a.prec_of(a.tokens@[i]@),
        decreases nt - t,
    {
        token_names.push(Some(a.tokens[t].clone()));
        token_precs.push(a.find_prec(&a.tokens[t]));
        t += 1;
    }
    token_names.push(None);
    token_precs.push(None);
    (token_names, token_precs)
}

/// The user's productions, lowered, with their precedences and rules.
fn build_user_prods(kind: YaccKind, a: &GrammarAST) -> (r: (Vec<Vec<Symbol>>, Vec<Option<Precedence>>, Vec<RIdx>))
    requires
        a.valid(),
        fits(kind, a),
    ensures
        r.0@.len() == a.prods@.len(),
        r.1@.len() == a.prods@.len(),
        r.2@.len() == a.prods@.len(),
        forall|q: int| 0 <= q < a.prods@.len() ==> (#[trigger] r.0@[q])@ == lower(kind, a, a.prod_syms(q), a.prod_syms(q).len() as int),
        forall|q: int| 0 <= q < a.prods@.len() ==> #[trigger] r.1@[q] == prod_prec(a, q),
        forall|q: int| 0 <= q < a.prods@.len() ==> rule_offset(kind, a) <= (#[trigger] r.2@[q]).0 < rule_offset(kind, a) + a.rules@.len(),
        forall|q: int| 0 <= q < a.prods@.len() ==> a.lists((#[trigger] r.2@[q]).0 - rule_offset(kind, a), q),
{
    let off: usize = if implicit_applies(kind, a) { 3 } else { 1 };
    let np = a.prods.len();
    let nr = a.rules.len();
    let owner = a.owners();
    let mut prods: Vec<Vec<Symbol>> = Vec::new();
    let mut prod_precs: Vec<Option<Precedence>> = Vec::new();
    let mut prods_rules: Vec<RIdx> = Vec::new();
    let mut p: usize = 0;
    while p < np
        invariant
            a.valid(),
            fits(kind, a),
            np == a.prods@.len(),
            nr == a.rules@.len(),
            off == rule_offset(kind, a),
            owner@.len() == np,
            forall|q: int| 0 <= q < np ==> {
                &&& (#[trigger] owner@[q]) < nr
                &&& exists|k: int| 0 <= k < a.rule_prods(owner@[q] as int).len() && #[trigger] a.rule_prods(owner@[q] as int)[k] == q
            },
            0 <= p <= np,
            prods@.len() == p,
            prod_precs@.len() == p,
            prods_rules@.len() == p,
            forall|q: int| 0 <= q < p ==> {
                &&& (#[trigger] prods@[q])@ == lower(kind, a, a.prod_syms(q), a.prod_syms(q).len() as int)
                &&& prod_precs@[q] == prod_prec(a, q)
                &&& prods_rules@[q].0 == off + owner@[q]
            },
        decreases np - p,
    {
        prods.push(lower_prod(kind, a, p));
        prod_precs.push(compute_prec(a, p));
        proof {
            assert(owner@[p as int] < nr);
        }
        prods_rules.push(RIdx((off + owner[p]) as u32));
        p += 1;
    }
    proof {
        assert forall|q: int| 0 <= q < a.prods@.len() implies {
            &&& (#[trigger] prods@[q])@ == lower(kind, a, a.prod_syms(q), a.prod_syms(q).len() as int)
            &&& prod_precs@[q] == prod_prec(a, q)
            &&& rule_offset(kind, a) <= prods_rules@[q].0 < rule_offset(kind, a) + a.rules@.len()
            &&& a.lists(prods_rules@[q].0 - rule_offset(kind, a), q)
        } by {
            let _ = prods@[q];
            assert(owner@[q] < nr);
            assert(prods_rules@[q].0 == off + owner@[q]);
            let k = choose|k: int| 0 <= k < a.rule_prods(owner@[q] as int).len() && #[trigger] a.rule_prods(owner@[q] as int)[k] == q;
            assert(prods_rules@[q].0 - rule_offset(kind, a) == owner@[q] as int);
            assert(a.rule_prods(prods_rules@[q].0 - rule_offset(kind, a))[k] == q);
        }
    }
    proof {
        assert forall|q: int| 0 <= q < a.prods@.len() implies #[trigger] prod_precs@[q] == prod_prec(a, q) by {
            let _ = prods@[q];
        }
        assert forall|q: int| 0 <= q < a.prods@.len() implies rule_offset(kind, a) <= (#[trigger] prods_rules@[q]).0 < rule_offset(kind, a) + a.rules@.len()
            && a.lists(prods_rules@[q].0 - rule_offset(kind, a), q) by {
            let _ = prods@[q];
        }
    }
    let r = (prods, prod_precs, prods_rules);
    r
}

/// The productions of each user rule, as indices.
fn build_user_rules_prods(a: &GrammarAST) -> (r: Vec<Vec<PIdx>>)
    requires
        a.valid(),
    ensures
        r@.len() == a.rules@.len(),
        forall|j: int| 0 <= j < a.rules@.len() ==> (#[trigger] r@[j])@ == a.rule_prods(j).map_values(|q: usize| PIdx(q as u32)),
{
    let nr = a.rules.len();
    let mut rules_prods: Vec<Vec<PIdx>> = Vec::new();
    let mut j: usize = 0;
    while j < nr
        invariant
            a.valid(),
            nr == a.rules@.len(),
            0 <= j <= nr,
            rules_prods@.len() == j,
            forall|j2: int| 0 <= j2 < j ==> (#[trigger] rules_prods@[j2])@ == a.rule_prods(j2).map_values(|q: usize| PIdx(q as u32)),
        decreases nr - j,
    {
        let ps = &a.rules[j].1;
        let mut v: Vec<PIdx> = Vec::new();
        let mut k: usize = 0;
        while k < ps.len()
            invariant
                0 <= j < nr,
                nr == a.rules@.len(),
                ps@ == a.rule_prods(j as int),
                0 <= k <= ps@.len(),
                v@ == ps@.subrange(0, k as int).map_values(|q: usize| PIdx(q as u32)),
            decreases ps@.len() - k,
        {
            v.push(PIdx(ps[k] as u32));
            proof {
                assert(ps@.subrange(0, k + 1) =~= ps@.subrange(0, k as int).push(ps@[k as int]));
                assert(v@ =~= ps@.subrange(0, k + 1).map_values(|q: usize| PIdx(q as u32)));
            }
            k += 1;
        }
        proof {
            assert(ps@.subrange(0, ps@.len() as int) =~= ps@);
        }
        rules_prods.push(v);
        j += 1;
    }
    rules_prods
}

/// The productions of the implicit rule: one per implicit token, numbered from `first`.
fn build_implicit_prods(kind: YaccKind, a: &GrammarAST, its: &Vec<String>) -> (r: Vec<Vec<Symbol>>)
    requires
        a.valid(),
        uses_implicit(kind, a),
        its@ == implicit_seq(kind, a),
        a.tokens@.len() + 1 < u32::MAX,
    ensures
        r@.len() == its@.len(),
        forall|k: int| 0 <= k < its@.len() ==> (#[trigger] r@[k])@ == seq![
            Symbol::Token(TIdx(a.token_index(its@[k]@) as u32)),
            Symbol::Rule(RIdx(1)),
        ],
{
    let mut r: Vec<Vec<Symbol>> = Vec::new();
    let mut i: usize = 0;
    while i < its.len()
        invariant
            a.valid(),
            uses_implicit(kind, a),
            its@ == implicit_seq(kind, a),
            a.tokens@.len() + 1 < u32::MAX,
            0 <= i <= its@.len(),
            r@.len() == i,
            forall|k: int| 0 <= k < i ==> (#[trigger] r@[k])@ == seq![
                Symbol::Token(TIdx(a.token_index(its@[k]@) as u32)),
                Symbol::Rule(RIdx(1)),
            ],
        decreases its@.len() - i,
    {
        proof {
            assert(a.implicit_ok());
            assert(a.is_token(its@[i as int]@));
        }
        let tk: usize = match a.find_token(&its[i]) {
            Some(tk) => tk,
            None => {
                proof {
                    assert(false);
                }
                0
            },
        };
        proof {
            lemma_token_index(a, tk as int);
        }
        r.push(vec![Symbol::Token(TIdx(tk as u32)), Symbol::Rule(RIdx(1))]);
        proof {
            assert(r@[i as int]@ =~= seq![
                Symbol::Token(TIdx(a.token_index(its@[i as int]@) as u32)),
                Symbol::Rule(RIdx(1)),
            ]);
        }
        i += 1;
    }
    r
}

proof fn lemma_repeat_head(s: Seq<char>, k: nat)
    requires
        k >= 1,
    ensures
        repeat(s, k).len() >= s.len(),
        forall|i: int| 0 <= i < s.len() ==> #[trigger] repeat(s, k)[i] == s[i],
        k >= 2 && s.len() >= 1 ==> repeat(s, k).len() > s.len() && repeat(s, k)[s.len() as int] == s[0],
    decreases k,
{
    if k >= 2 {
        lemma_repeat_head(s, (k - 1) as nat);
    }
}

/// The three synthetic names differ.
proof fn lemma_synthetic_names(a: &GrammarAST, n0: Seq<char>, n1: Seq<char>, n2: Seq<char>)
    requires
        fresh_name(a, "^"@, n0),
        fresh_name(a, "~"@, n1),
        fresh_name(a, "^~"@, n2),
    ensures
        n0 != n1,
        n0 != n2,
        n1 != n2,
{
    reveal_strlit("^");
    reveal_strlit("~");
    reveal_strlit("^~");
    let k0 = choose|k: nat| k >= 1 && n0 == #[trigger] repeat("^"@, k) && !a.is_rule(n0) && forall|j: nat| 1 <= j < k ==> a.is_rule(#[trigger] repeat("^"@, j));
    let k1 = choose|k: nat| k >= 1 && n1 == #[trigger] repeat("~"@, k) && !a.is_rule(n1) && forall|j: nat| 1 <= j < k ==> a.is_rule(#[trigger] repeat("~"@, j));
    let k2 = choose|k: nat| k >= 1 && n2 == #[trigger] repeat("^~"@, k) && !a.is_rule(n2) && forall|j: nat| 1 <= j < k ==> a.is_rule(#[trigger] repeat("^~"@, j));
    lemma_repeat_head("^"@, k0);
    lemma_repeat_head("~"@, k1);
    lemma_repeat_head("^~"@, k2);
    assert(n0[0] == '^');
    assert(n1[0] == '~');
    assert(n2[0] == '^');
    assert(n2[1] == '~');
    if k0 >= 2 {
        assert(n0[1] == '^');
    } else {
        assert(repeat("^"@, (k0 - 1) as nat) =~= Seq::<char>::empty());
        assert(n0.len() == 1);
    }
}

/// Every symbol of a lowered production refers to a rule or a token of the compiled grammar.
proof fn lemma_lower_ok(kind: YaccKind, a: &GrammarAST, p: int, i: int)
    requires
        a.valid(),
        fits(kind, a),
        0 <= p < a.prods@.len(),
        0 <= i <= a.prod_syms(p).len(),
    ensures
        lower(kind, a, a.prod_syms(p), i).len() == lowered_len(kind, a, a.prod_syms(p), i),
        forall|m: int| 0 <= m < lower(kind, a, a.prod_syms(p), i).len() ==> match #[trigger] lower(kind, a, a.prod_syms(p), i)[m] {
            Symbol::Rule(r) => r.0 < a.rules@.len() + rule_offset(kind, a),
            Symbol::Token(t) => t.0 < a.tokens@.len(),
        },
    decreases i,
{
    if i > 0 {
        lemma_lower_ok(kind, a, p, i - 1);
        let prev = lower(kind, a, a.prod_syms(p), i - 1);
        let cur = lower(kind, a, a.prod_syms(p), i);
        assert(a.resolves(a.prod_syms(p)[i - 1]));
        match a.prod_syms(p)[i - 1] {
            ast::Symbol::Rule(n) => {
                let j = a.rule_index(n@);
                assert(0 <= j < a.rules@.len());
            },
            ast::Symbol::Token(n) => {
                let t = a.token_index(n@);
                assert(0 <= t < a.tokens@.len());
            },
        }
        assert forall|m: int| 0 <= m < cur.len() implies match #[trigger] cur[m] {
            Symbol::Rule(r) => r.0 < a.rules@.len() + rule_offset(kind, a),
            Symbol::Token(t) => t.0 < a.tokens@.len(),
        } by {
            if m < prev.len() {
                assert(cur[m] == prev[m]);
            }
        }
    }
}

/// Rule `j` is the only rule that lists production `q`.
proof fn lemma_lists_unique(a: &GrammarAST, j1: int, j2: int, q: int)
    requires
        a.valid(),
        0 <= j1 < a.rules@.len(),
        0 <= j2 < a.rules@.len(),
        a.lists(j1, q),
        a.lists(j2, q),
    ensures
        j1 == j2,
{
    let k1 = choose|k: int| 0 <= k < a.rule_prods(j1).len() && #[trigger] a.rule_prods(j1)[k] == q;
    let k2 = choose|k: int| 0 <= k < a.rule_prods(j2).len() && #[trigger] a.rule_prods(j2)[k] == q;
    if j1 != j2 {
        assert(a.rule_prods(j1)[k1] != a.rule_prods(j2)[k2]);
    }
}

/// A grammar laid out as `built` says is well formed.
proof fn lemma_built_wf(kind: YaccKind, a: &GrammarAST, g: &YaccGrammar)
    requires
        a.valid(),
        fits(kind, a),
        built(kind, a, g),
    ensures
        g.wf(),
{
    let off = rule_offset(kind, a);
    let nr = a.rules@.len() as int;
    let np = a.prods@.len() as int;
    let nt = a.tokens@.len() as int;
    let its = implicit_seq(kind, a);
    let imp = uses_implicit(kind, a);
    let start = off + a.rule_index(a.start->0@);
    assert(a.is_rule(a.start->0@));
    assert(0 <= a.rule_index(a.start->0@) < nr);
    // Lengths of productions and their symbols.
    assert forall|p: int| 0 <= p < g.num_prods() implies #[trigger] g.prod_of(p).len() < u32::MAX && forall|i: int|
        0 <= i < g.prod_of(p).len() ==> g.symbol_ok(#[trigger] g.prod_of(p)[i]) by {
        if p < np {
            lemma_lower_ok(kind, a, p, a.prod_syms(p).len() as int);
            assert(g.prod_of(p) == lower(kind, a, a.prod_syms(p), a.prod_syms(p).len() as int));
        } else if p == np {
        } else if imp {
            if p < np + 1 + its.len() {
                let i = p - np - 1;
                assert(g.prod_of(np + 1 + i) == g.prod_of(p));
                assert(a.implicit_ok());
                assert(a.is_token(its[i]@));
                assert(0 <= a.token_index(its[i]@) < nt);
            }
        }
    }
    // The productions of each rule.
    assert forall|r: int| 0 <= r < g.num_rules() implies #[trigger] g.prods_of(r).len() >= 1 by {
        if r >= off {
            let j = r - off;
            assert(g.prods_of(off + j) == a.rule_prods(j).map_values(|q: usize| PIdx(q as u32)));
        } else if r == 1 {
        }
    }
    assert forall|r: int, k: int| 0 <= r < g.num_rules() && 0 <= k < g.prods_of(r).len() implies {
        &&& (#[trigger] g.prods_of(r)[k]).0 < g.num_prods()
        &&& g.prods_rules@[g.prods_of(r)[k].0 as int].0 == r
    } by {
        if r >= off {
            let j = r - off;
            assert(g.prods_of(off + j) == a.rule_prods(j).map_values(|q: usize| PIdx(q as u32)));
            let q = a.rule_prods(j)[k];
            assert(q < np);
            assert(g.prods_of(r)[k].0 == q);
            let _ = g.prod_of(q as int);
            let j2 = g.prods_rules@[q as int].0 - off;
            assert(a.lists(j, q as int));
            lemma_lists_unique(a, j, j2, q as int);
        } else if r == 1 {
            let _ = g.prods_rules@[np + 1 + k];
        }
    }
    assert forall|p: int| 0 <= p < g.num_prods() implies {
        &&& (#[trigger] g.prods_rules@[p]).0 < g.num_rules()
        &&& g.rule_has_prod(g.prods_rules@[p].0 as int, p)
    } by {
        if p < np {
            let _ = g.prod_of(p);
            let j = g.prods_rules@[p].0 - off;
            let k = choose|k: int| 0 <= k < a.rule_prods(j).len() && #[trigger] a.rule_prods(j)[k] == p;
            assert(g.prods_of(off + j) == a.rule_prods(j).map_values(|q: usize| PIdx(q as u32)));
            assert(g.prods_of(off + j)[k].0 == p);
        } else if p == np {
            assert(g.prods_of(0)[0].0 == p);
        } else if p < np + 1 + its.len() + 1 {
            let i = p - np - 1;
            assert(g.prods_rules@[np + 1 + i].0 == 1);
            assert(g.prods_of(1)[i].0 == p);
        } else {
            assert(g.prods_of(2)[0].0 == p);
        }
    }
    assert forall|r: int, k1: int, k2: int|
        0 <= r < g.num_rules() && 0 <= k1 < g.prods_of(r).len() && 0 <= k2 < g.prods_of(r).len()
            && k1 != k2 implies #[trigger] g.prods_of(r)[k1] != #[trigger] g.prods_of(r)[k2] by {
        if r >= off {
            let j = r - off;
            assert(g.prods_of(off + j) == a.rule_prods(j).map_values(|q: usize| PIdx(q as u32)));
            assert(a.rule_prods(j)[k1] != a.rule_prods(j)[k2]);
            assert(a.rule_prods(j)[k1] < np && a.rule_prods(j)[k2] < np);
        }
    }
    assert forall|t: int| 0 <= t < g.eof_token_idx.0 implies (#[trigger] g.token_names@[t]) is Some by {
        assert(g.token_named(t, a.tokens@[t]@));
    }
    // Names.
    assert forall|i: int, j: int|
        0 <= i < g.num_rules() && 0 <= j < g.num_rules() && i != j
            implies #[trigger] g.rule_names@[i]@ != #[trigger] g.rule_names@[j]@ by {
        if imp {
            lemma_synthetic_names(a, g.rule_names@[0]@, g.rule_names@[1]@, g.rule_names@[2]@);
        }
        if i >= off && j >= off {
            let _ = g.rule_names@[off + (i - off)];
            let _ = g.rule_names@[off + (j - off)];
        } else if i >= off {
            let _ = g.rule_names@[off + (i - off)];
            assert(a.rule_name(i - off) == g.rule_names@[i]@);
        } else if j >= off {
            let _ = g.rule_names@[off + (j - off)];
            assert(a.rule_name(j - off) == g.rule_names@[j]@);
        }
    }
    assert forall|i: int, j: int|
        0 <= i < g.num_tokens() && 0 <= j < g.num_tokens() && i != j
            && (#[trigger] g.token_names@[i]) is Some && (#[trigger] g.token_names@[j]) is Some
            implies g.token_names@[i]->0@ != g.token_names@[j]->0@ by {
        assert(g.token_named(i, a.tokens@[i]@));
        assert(g.token_named(j, a.tokens@[j]@));
    }
}

impl YaccGrammar {
    /// Compile the grammar `a` of dialect `yacc_kind`.
    ///
    /// Rule 0 is a fresh start rule (`^`, or `^^` and so on where that name is taken) whose
    /// one production refers to the user's start rule. Where the implicit-token rewrite
    /// applies, rules 1 and 2 are the implicit rule `~` (one production per implicit token,
    /// then an empty one) and `^~` (`~` followed by the user's start rule), the start
    /// production refers to `^~`, and every token of a user production is followed by `~`.
    /// User rules follow in declaration order; the user's productions keep their indices and
    /// the synthetic ones follow them.
    pub fn new(yacc_kind: YaccKind, a: &GrammarAST) -> (r: Result<YaccGrammar, YaccGrammarError>)
        ensures
            !a.valid() <==> r matches Err(YaccGrammarError::GrammarValidationError(_)),
            (a.valid() && !fits(yacc_kind, a)) <==> r == Err::<YaccGrammar, YaccGrammarError>(
                YaccGrammarError::StorageOverflow,
            ),
            r matches Ok(g) ==> g.wf() && built(yacc_kind, a, &g),
    {
        match a.complete_and_validate() {
            Err(e) => {
                return Err(YaccGrammarError::GrammarValidationError(e));
            },
            Ok(()) => {},
        }
        let imp = implicit_applies(yacc_kind, a);
        let off: usize = if imp { 3 } else { 1 };
        let nr = a.rules.len();
        let nt = a.tokens.len();
        let np = a.prods.len();
        let nits: usize = match &a.implicit_tokens {
            Some(ts) => if imp { ts.len() } else { 0 },
            None => 0,
        };
        let extra: usize = if imp { 3 } else { 1 };
        proof {
            assert(nits == implicit_seq(yacc_kind, a).len());
        }
        if nr >= u32::MAX as usize - off || nt >= u32::MAX as usize - 1 || np >= u32::MAX as usize - extra
            || nits >= u32::MAX as usize - extra - np {
            return Err(YaccGrammarError::StorageOverflow);
        }
        let mut p: usize = 0;
        while p < np
            invariant
                a.valid(),
                np == a.prods@.len(),
                nr == a.rules@.len(),
                nt == a.tokens@.len(),
                off == rule_offset(yacc_kind, a),
                imp == uses_implicit(yacc_kind, a),
                nits == implicit_seq(yacc_kind, a).len(),
                nr + off < u32::MAX,
                nt + 1 < u32::MAX,
                np + 1 + if imp { nits + 2 } else { 0 } < u32::MAX,
                0 <= p <= np,
                forall|q: int| 0 <= q < p ==> #[trigger] lowered_len(yacc_kind, a, a.prod_syms(q), a.prod_syms(q).len() as int) < u32::MAX - 1,
            decreases np - p,
        {
            if !lowered_fits(yacc_kind, a, p) {
                return Err(YaccGrammarError::StorageOverflow);
            }
            p += 1;
        }
        proof {
            assert(fits(yacc_kind, a));
        }
        let start_j: usize = match &a.start {
            Some(s) => match a.find_rule(s) {
                Some(j) => j,
                None => {
                    proof {
                        assert(false);
                    }
                    0
                },
            },
            None => {
                proof {
                    assert(false);
                }
                0
            },
        };
        proof {
            lemma_rule_index(a, start_j as int);
            assert(a.rule_name(start_j as int) == a.start->0@);
        }
        let start_r = RIdx((off + start_j) as u32);
        let rule_names = build_rule_names(yacc_kind, a);
        let (token_names, token_precs) = build_tokens(a);
        let (mut prods, mut prod_precs, mut prods_rules) = build_user_prods(yacc_kind, a);
        let mut user_rules_prods = build_user_rules_prods(a);
        let ghost prods0 = prods@;
        let ghost prod_precs0 = prod_precs@;
        let ghost prods_rules0 = prods_rules@;
        let mut rules_prods: Vec<Vec<PIdx>> = Vec::new();
        rules_prods.push(vec![PIdx(np as u32)]);
        let ghost mut ipg: Seq<Vec<Symbol>> = Seq::empty();
        if imp {
            prods.push(vec![Symbol::Rule(RIdx(2))]);
            prod_precs.push(None);
            prods_rules.push(RIdx(0));
            let its: &Vec<String> = match &a.implicit_tokens {
                Some(ts) => ts,
                None => {
                    proof {
                        assert(false);
                    }
                    return Err(YaccGrammarError::StorageOverflow);
                },
            };
            let mut iprods = build_implicit_prods(yacc_kind, a, its);
            let mut implicit_pidxs: Vec<PIdx> = Vec::new();
            let mut i: usize = 0;
            while i < nits
                invariant
                    nits == its@.len(),
                    np + nits + 3 < u32::MAX,
                    0 <= i <= nits,
                    implicit_pidxs@ == Seq::new(i as nat, |k: int| PIdx((np + 1 + k) as u32)),
                decreases nits - i,
            {
                implicit_pidxs.push(PIdx((np + 1 + i) as u32));
                proof {
                    assert(implicit_pidxs@ =~= Seq::new((i + 1) as nat, |k: int| PIdx((np + 1 + k) as u32)));
                }
                i += 1;
            }
            implicit_pidxs.push(PIdx((np + 1 + nits) as u32));
            iprods.push(Vec::new());
            iprods.push(vec![Symbol::Rule(RIdx(1)), Symbol::Rule(start_r)]);
            let ghost ip = iprods@;
            proof {
                ipg = ip;
                assert(ip[nits + 1]@ =~= seq![Symbol::Rule(RIdx(1)), Symbol::Rule(start_r)]);
                assert(ip[nits as int]@ =~= Seq::<Symbol>::empty());
            }
            let mut i: usize = 0;
            while i < iprods.len()
                invariant
                    ip.len() == nits + 2,
                    prods0.len() == np,
                    prod_precs0.len() == np,
                    prods_rules0.len() == np,
                    0 <= i <= nits + 2,
                    prods@.len() == np + 1 + i,
                    prod_precs@.len() == np + 1 + i,
                    prods_rules@.len() == np + 1 + i,
                    forall|q: int| 0 <= q < np ==> #[trigger] prods@[q] == prods0[q] && prod_precs@[q] == prod_precs0[q] && prods_rules@[q] == prods_rules0[q],
                    prods@[np as int]@ == seq![Symbol::Rule(RIdx(2))],
                    prod_precs@[np as int] is None,
                    prods_rules@[np as int].0 == 0,
                    forall|k: int| 0 <= k < i ==> (#[trigger] prods@[np + 1 + k]) == ip[k],
                    forall|k: int| 0 <= k < i ==> #[trigger] prod_precs@[np + 1 + k] is None,
                    forall|k: int| 0 <= k < i ==> (#[trigger] prods_rules@[np + 1 + k]).0 == if k < nits + 1 { 1int } else { 2int },
                    iprods@.len() == nits + 2,
                    forall|k: int| i <= k < nits + 2 ==> #[trigger] iprods@[k] == ip[k],
                decreases nits + 2 - i,
            {
                let ghost s0 = prods@;
                let ghost s1 = prod_precs@;
                let ghost s2 = prods_rules@;
                let mut x: Vec<Symbol> = Vec::new();
                std::mem::swap(&mut x, &mut iprods[i]);
                prods.push(x);
                prod_precs.push(None);
                if i < nits + 1 {
                    prods_rules.push(RIdx(1));
                } else {
                    prods_rules.push(RIdx(2));
                }
                proof {
                    assert forall|q: int| 0 <= q < np implies #[trigger] prods@[q] == prods0[q] && prod_precs@[q] == prod_precs0[q] && prods_rules@[q] == prods_rules0[q] by {
                        assert(prods@[q] == s0[q] && prod_precs@[q] == s1[q] && prods_rules@[q] == s2[q]);
                    }
                    assert forall|k: int| 0 <= k < i + 1 implies (#[trigger] prods@[np + 1 + k]) == ip[k] by {
                        if k < i {
                            assert(prods@[np + 1 + k] == s0[np + 1 + k]);
                        }
                    }
                    assert forall|k: int| 0 <= k < i + 1 implies #[trigger] prod_precs@[np + 1 + k] is None by {
                        if k < i {
                            assert(prod_precs@[np + 1 + k] == s1[np + 1 + k]);
                        }
                    }
                    assert forall|k: int| 0 <= k < i + 1 implies (#[trigger] prods_rules@[np + 1 + k]).0 == if k < nits + 1 { 1int } else { 2int } by {
                        if k < i {
                            assert(prods_rules@[np + 1 + k] == s2[np + 1 + k]);
                        }
                    }
                }
                i += 1;
            }
            rules_prods.push(implicit_pidxs);
            rules_prods.push(vec![PIdx((np + nits + 2) as u32)]);
            proof {
                assert(rules_prods@[1]@ =~= Seq::new((nits + 1) as nat, |i: int| PIdx((np + 1 + i) as u32)));
                assert(rules_prods@[2]@ =~= seq![PIdx((np + nits + 2) as u32)]);
                assert(ip[nits as int]@ =~= Seq::<Symbol>::empty());
            }
        } else {
            prods.push(vec![Symbol::Rule(start_r)]);
            prod_precs.push(None);
            prods_rules.push(RIdx(0));
        }
        let ghost rp0 = rules_prods@;
        let ghost urp = user_rules_prods@;
        rules_prods.append(&mut user_rules_prods);
        proof {
            assert(rules_prods@ == rp0 + urp);
            assert(rp0.len() == off);
            if !imp {
                assert forall|q: int| 0 <= q < np implies #[trigger] prods@[q] == prods0[q] && prod_precs@[q] == prod_precs0[q] && prods_rules@[q] == prods_rules0[q] by {}
                assert(prods@[np as int]@ =~= seq![Symbol::Rule(RIdx((off + a.rule_index(a.start->0@)) as u32))]);
            }
        }
        let g = YaccGrammar {
            rules_len: RIdx(rule_names.len() as u32),
            rule_names,
            tokens_len: TIdx(token_names.len() as u32),
            eof_token_idx: TIdx(nt as u32),
            token_names,
            token_precs,
            prods_len: PIdx(prods.len() as u32),
            start_prod: PIdx(np as u32),
            prods,
            rules_prods,
            prods_rules,
            prod_precs,
            implicit_rule: if imp { Some(RIdx(1)) } else { None },
        };
        proof {
            let its = implicit_seq(yacc_kind, a);
            assert(g.num_rules() == nr + off);
            assert forall|j: int| 0 <= j < a.rules@.len() implies #[trigger] g.prods_of(rule_offset(yacc_kind, a) + j) == a.rule_prods(j).map_values(|q: usize| PIdx(q as u32)) by {
                assert(g.rules_prods@[off + j] == urp[j]);
            }
            assert forall|i: int| 0 <= i < nt implies #[trigger] g.token_named(i, a.tokens@[i]@) && g.token_precs@[i] == a.prec_of(a.tokens@[i]@) by {
                assert(g.token_names@[i] == Some(a.tokens@[i]));
            }
            assert forall|p: int| 0 <= p < a.prods@.len() implies {
                &&& #[trigger] g.prod_of(p) == lower(yacc_kind, a, a.prod_syms(p), a.prod_syms(p).len() as int)
                &&& g.prod_precs@[p] == prod_prec(a, p)
                &&& rule_offset(yacc_kind, a) <= g.prods_rules@[p].0 < rule_offset(yacc_kind, a) + a.rules@.len()
                &&& a.lists(g.prods_rules@[p].0 - rule_offset(yacc_kind, a), p)
            } by {
                assert(g.prods@[p] == prods0[p]);
                assert(g.prod_precs@[p] == prod_precs0[p]);
                assert(g.prods_rules@[p] == prods_rules0[p]);
            }
            if imp {
                assert(g.rules_prods@[1] == rp0[1]);
                assert(g.rules_prods@[2] == rp0[2]);
                assert forall|i: int| 0 <= i < its.len() implies #[trigger] g.prod_of(np + 1 + i) == seq![
                    Symbol::Token(TIdx(a.token_index(its[i]@) as u32)),
                    Symbol::Rule(RIdx(1)),
                ] by {
                    assert(g.prods@[np + 1 + i] == ipg[i]);
                }
                let k1 = its.len() as int;
                assert(g.prods@[np + 1 + k1] == ipg[k1]);
                let k2 = its.len() as int + 1;
                assert(g.prods@[np + 1 + k2] == ipg[k2]);
                assert(ipg[its.len() as int + 1]@ =~= seq![Symbol::Rule(RIdx(1)), Symbol::Rule(RIdx((off + a.rule_index(a.start->0@)) as u32))]);
                assert forall|p: int| np < p < g.num_prods() implies #[trigger] g.prod_precs@[p] is None by {
                    let k = p - np - 1;
                    assert(g.prod_precs@[np + 1 + k] is None);
                }
                assert forall|i: int| 0 <= i <= its.len() implies #[trigger] g.prods_rules@[np + 1 + i].0 == 1 by {}
                assert(g.prods_rules@[np + 1 + (its.len() + 1)].0 == 2);
                assert(g.prod_of(np as int) == seq![Symbol::Rule(RIdx(2))]);
                assert(fresh_name(a, "~"@, g.rule_names@[1]@));
                assert(fresh_name(a, "^~"@, g.rule_names@[2]@));
                assert(g.implicit_rule == Some(RIdx(1)));
                assert(g.num_prods() == np + its.len() + 3);
                assert(g.prods_of(1) == Seq::new((its.len() + 1) as nat, |i: int| PIdx((np + 1 + i) as u32)));
                assert(g.prod_of(np + 1 + its.len()) == Seq::<Symbol>::empty());
                assert(g.prods_of(2) == seq![PIdx((np + its.len() + 2) as u32)]);
                assert(g.prod_of(np + its.len() + 2) == seq![Symbol::Rule(RIdx(1)), Symbol::Rule(RIdx((off + a.rule_index(a.start->0@)) as u32))]);
                assert(g.prods_rules@[np + its.len() + 2].0 == 2);
            } else {
                assert(g.prod_of(np as int) == seq![Symbol::Rule(RIdx((off + a.rule_index(a.start->0@)) as u32))]);
                assert(g.implicit_rule is None);
                assert(g.num_prods() == np + 1);
            }
            assert(g.rule_names@.len() == g.num_rules());
            assert(g.rules_prods@.len() == g.num_rules());
            assert(g.token_names@.len() == g.num_tokens());
            assert(g.token_precs@.len() == g.num_tokens());
            assert(g.prods@.len() == g.num_prods());
            assert(g.prods_rules@.len() == g.num_prods());
            assert(g.prod_precs@.len() == g.num_prods());
            assert(g.eof_token_idx.0 == nt);
            assert(g.token_names@[nt as int] is None);
            assert(fresh_name(a, "^"@, g.rule_names@[0]@));
            assert(forall|j: int| 0 <= j < a.rules@.len() ==> #[trigger] g.rule_names@[rule_offset(yacc_kind, a) + j]@ == a.rule_name(j));
            assert(g.num_tokens() == nt + 1);
            assert(g.token_precs@[nt as int] is None);
            assert(g.start_prod.0 == np);
            assert(g.rules_prods@[0] == rp0[0]);
            assert(g.prods_of(0) =~= seq![PIdx(np as u32)]);
            assert(g.prods_rules@[np as int].0 == 0);
            assert(g.prod_precs@[np as int] is None);
            assert(built(yacc_kind, a, &g));
            lemma_built_wf(yacc_kind, a, &g);
        }
        Ok(g)
    }
}


/// The start rule has a single production of one symbol: the user's start rule, or, where
/// the implicit-token rewrite applies, the intermediate start rule `^~`, whose single
/// production is the implicit rule followed by the user's start rule.
pub proof fn lemma_start_rule(kind: YaccKind, a: &GrammarAST, g: &YaccGrammar)
    requires
        a.valid(),
        built(kind, a, g),
    ensures
        g.prods_of(0).len() == 1,
        g.prods_of(0)[0] == g.start_prod,
        g.prod_of(g.start_prod.0 as int).len() == 1,
        !uses_implicit(kind, a) ==> g.prod_of(g.start_prod.0 as int)[0] == Symbol::Rule(
            RIdx((1 + a.rule_index(a.start->0@)) as u32),
        ) && g.rule_names@[1 + a.rule_index(a.start->0@)]@ == a.start->0@,
        uses_implicit(kind, a) ==> {
            &&& g.prod_of(g.start_prod.0 as int)[0] == Symbol::Rule(RIdx(2))
            &&& g.prods_of(2).len() == 1
            &&& g.prod_of(g.prods_of(2)[0].0 as int) == seq![
                Symbol::Rule(RIdx(1)),
                Symbol::Rule(RIdx((3 + a.rule_index(a.start->0@)) as u32)),
            ]
            &&& g.rule_names@[3 + a.rule_index(a.start->0@)]@ == a.start->0@
        },
{
    let j = a.rule_index(a.start->0@);
    assert(a.is_rule(a.start->0@));
    assert(0 <= j < a.rules@.len());
    let _ = g.rule_names@[rule_offset(kind, a) + j];
}

/// The lowered symbols after a token: with the rewrite, each token is followed by the
/// implicit rule.
proof fn lemma_lower_implicit(kind: YaccKind, a: &GrammarAST, syms: Seq<ast::Symbol>, i: int)
    requires
        uses_implicit(kind, a),
        0 <= i <= syms.len(),
    ensures
        forall|m: int| 0 <= m < lower(kind, a, syms, i).len() && (#[trigger] lower(kind, a, syms, i)[m]) is Token
            ==> m + 1 < lower(kind, a, syms, i).len() && lower(kind, a, syms, i)[m + 1] == Symbol::Rule(RIdx(1)),
    decreases i,
{
    if i > 0 {
        lemma_lower_implicit(kind, a, syms, i - 1);
        let prev = lower(kind, a, syms, i - 1);
        let cur = lower(kind, a, syms, i);
        assert forall|m: int| 0 <= m < cur.len() && (#[trigger] cur[m]) is Token implies m + 1 < cur.len() && cur[m + 1] == Symbol::Rule(RIdx(1)) by {
            if m < prev.len() {
                assert(cur[m] == prev[m]);
                assert(cur[m + 1] == prev[m + 1]);
            }
        }
    }
}

/// With the implicit-token rewrite, every token of a user production is immediately
/// followed by the implicit rule, and the implicit rule has one production per implicit
/// token (that token followed by the implicit rule) and then an empty one.
pub proof fn lemma_implicit_rewrite(kind: YaccKind, a: &GrammarAST, g: &YaccGrammar)
    requires
        a.valid(),
        built(kind, a, g),
        uses_implicit(kind, a),
    ensures
        g.implicit_rule == Some(RIdx(1)),
        forall|p: int, m: int|
            0 <= p < a.prods@.len() && 0 <= m < g.prod_of(p).len() && (#[trigger] g.prod_of(p)[m]) is Token
                ==> m + 1 < g.prod_of(p).len() && g.prod_of(p)[m + 1] == Symbol::Rule(RIdx(1)),
        g.prods_of(1).len() == implicit_seq(kind, a).len() + 1,
        forall|i: int|
            0 <= i < implicit_seq(kind, a).len() ==> #[trigger] g.prod_of(g.prods_of(1)[i].0 as int) == seq![
                Symbol::Token(TIdx(a.token_index(implicit_seq(kind, a)[i]@) as u32)),
                Symbol::Rule(RIdx(1)),
            ],
        g.prod_of(g.prods_of(1)[implicit_seq(kind, a).len() as int].0 as int).len() == 0,
{
    let np = a.prods@.len() as int;
    let its = implicit_seq(kind, a);
    assert forall|p: int, m: int|
        0 <= p < a.prods@.len() && 0 <= m < g.prod_of(p).len() && (#[trigger] g.prod_of(p)[m]) is Token
            implies m + 1 < g.prod_of(p).len() && g.prod_of(p)[m + 1] == Symbol::Rule(RIdx(1)) by {
        lemma_lower_implicit(kind, a, a.prod_syms(p), a.prod_syms(p).len() as int);
    }
    assert(np + its.len() + 3 <= u32::MAX) by {
        assert(g.num_prods() == np + its.len() + 3);
    }
    assert forall|i: int| 0 <= i < its.len() implies #[trigger] g.prod_of(g.prods_of(1)[i].0 as int) == seq![
        Symbol::Token(TIdx(a.token_index(its[i]@) as u32)),
        Symbol::Rule(RIdx(1)),
    ] by {
        assert(g.prods_of(1)[i].0 == np + 1 + i);
        let _ = g.prod_of(np + 1 + i);
    }
    assert(g.prods_of(1)[its.len() as int].0 == np + 1 + its.len());
}

} // verus!
