use vstd::prelude::*;
use vstd::set_lib::{lemma_int_range, lemma_len_subset, set_int_range};

use crate::firsts::{count_clear, lemma_count_clear};
use crate::grammar::YaccGrammar;
use crate::idx::{PIdx, RIdx, Symbol, TIdx};

verus! {

/// The cost of a symbol: a token's own cost, a rule's entry in `costs`.
pub open spec fn sym_cost(tc: Seq<u8>, costs: Seq<u16>, s: Symbol) -> int {
    match s {
        Symbol::Token(t) => tc[t.0 as int] as int,
        Symbol::Rule(r) => costs[r.0 as int] as int,
    }
}

/// The summed cost of the first `i` symbols of `prod`.
pub open spec fn prod_cost(tc: Seq<u8>, costs: Seq<u16>, prod: Seq<Symbol>, i: int) -> int
    decreases i,
{
    if i <= 0 {
        0
    } else {
        prod_cost(tc, costs, prod, i - 1) + sym_cost(tc, costs, prod[i - 1])
    }
}

/// The cost of the whole production `p` of `grm`.
pub open spec fn cost_of_prod(grm: &YaccGrammar, tc: Seq<u8>, costs: Seq<u16>, p: int) -> int {
    prod_cost(tc, costs, grm.prod_of(p), grm.prod_of(p).len() as int)
}

/// The cost of the `k`th production of rule `r`.
pub open spec fn cost_of(grm: &YaccGrammar, tc: Seq<u8>, costs: Seq<u16>, r: int, k: int) -> int {
    cost_of_prod(grm, tc, costs, grm.prods_of(r)[k].0 as int)
}

/// Every rule that `prod` refers to is marked in `done`.
pub open spec fn ready(done: Seq<bool>, prod: Seq<Symbol>) -> bool {
    forall|i: int|
        0 <= i < prod.len() ==> match #[trigger] prod[i] {
            Symbol::Rule(q) => done[q.0 as int],
            Symbol::Token(_) => true,
        }
}

/// `costs` gives each rule the least cost among its productions, and some production costs
/// exactly that.
pub open spec fn min_costs_ok(grm: &YaccGrammar, tc: Seq<u8>, costs: Seq<u16>) -> bool {
    &&& costs.len() == grm.num_rules()
    &&& forall|r: int, k: int|
        0 <= r < grm.num_rules() && 0 <= k < grm.prods_of(r).len() ==> costs[r] <= #[trigger] cost_of(
            grm,
            tc,
            costs,
            r,
            k,
        )
    &&& forall|r: int| 0 <= r < grm.num_rules() ==> #[trigger] achieved(grm, tc, costs, r)
}

/// Some production of `r` costs exactly `costs[r]`.
pub open spec fn achieved(grm: &YaccGrammar, tc: Seq<u8>, costs: Seq<u16>, r: int) -> bool {
    exists|k: int| 0 <= k < grm.prods_of(r).len() && #[trigger] cost_of(grm, tc, costs, r, k) == costs[r]
}

/// The rules marked in `done` are settled at `costs`: each is the cost of one of its
/// productions that refers only to settled rules, and no such production costs less.
pub open spec fn settled_ok(grm: &YaccGrammar, tc: Seq<u8>, done: Seq<bool>, costs: Seq<u16>) -> bool {
    &&& forall|r: int|
        0 <= r < grm.num_rules() && #[trigger] done[r] ==> exists|k: int|
            0 <= k < grm.prods_of(r).len() && ready(done, grm.prod_of(#[trigger] grm.prods_of(r)[k].0 as int))
                && cost_of(grm, tc, costs, r, k) == costs[r]
    &&& forall|r: int, k: int|
        0 <= r < grm.num_rules() && 0 <= k < grm.prods_of(r).len() && done[r] && ready(done, grm.prod_of(#[trigger] grm.prods_of(r)[k].0 as int))
            ==> cost_of(grm, tc, costs, r, k) >= costs[r]
}

/// Some rules are settled as `settled_ok` says, and no rule left out of `done` has a
/// production that refers to settled rules alone and whose cost fits in `u16`: the minimum
/// costs cannot be completed.
pub open spec fn stuck(grm: &YaccGrammar, tc: Seq<u8>, done: Seq<bool>, costs: Seq<u16>) -> bool {
    &&& done.len() == grm.num_rules()
    &&& costs.len() == grm.num_rules()
    &&& settled_ok(grm, tc, done, costs)
    &&& exists|r: int| 0 <= r < grm.num_rules() && !#[trigger] done[r]
    &&& forall|r: int, k: int|
        0 <= r < grm.num_rules() && 0 <= k < grm.prods_of(r).len() && !done[r] ==> !ready(
            done,
            grm.prod_of(#[trigger] grm.prods_of(r)[k].0 as int),
        ) || cost_of(grm, tc, costs, r, k) > u16::MAX
}

/// Costs are never negative, and a production costs at least as much as any rule in it.
proof fn lemma_prod_cost_parts(tc: Seq<u8>, costs: Seq<u16>, prod: Seq<Symbol>, i: int)
    requires
        0 <= i <= prod.len(),
    ensures
        prod_cost(tc, costs, prod, i) >= 0,
        forall|j: int| 0 <= j < i ==> prod_cost(tc, costs, prod, i) >= sym_cost(tc, costs, #[trigger] prod[j]),
    decreases i,
{
    if i > 0 {
        lemma_prod_cost_parts(tc, costs, prod, i - 1);
    }
}

/// A production's cost depends only on the costs of the rules it refers to.
proof fn lemma_prod_cost_frame(tc: Seq<u8>, c1: Seq<u16>, c2: Seq<u16>, prod: Seq<Symbol>, i: int)
    requires
        0 <= i <= prod.len(),
        forall|j: int| 0 <= j < i ==> match #[trigger] prod[j] {
            Symbol::Rule(q) => c1[q.0 as int] == c2[q.0 as int],
            Symbol::Token(_) => true,
        },
    ensures
        prod_cost(tc, c1, prod, i) == prod_cost(tc, c2, prod, i),
    decreases i,
{
    if i > 0 {
        lemma_prod_cost_frame(tc, c1, c2, prod, i - 1);
        let _ = prod[i - 1];
    }
}

/// The cost of production `p`, computed.
fn compute_prod_cost(grm: &YaccGrammar, tc: &Vec<u8>, costs: &Vec<u16>, p: PIdx) -> (r: u64)
    requires
        grm.wf(),
        p.0 < grm.prods_len.0,
        tc@.len() >= grm.eof_token_idx.0,
        costs@.len() == grm.num_rules(),
    ensures
        r == cost_of_prod(grm, tc@, costs@, p.0 as int),
{
    let prod = grm.prod(p);
    let mut c: u64 = 0;
    let mut i: usize = 0;
    while i < prod.len()
        invariant
            grm.wf(),
            p.0 < grm.prods_len.0,
            tc@.len() >= grm.eof_token_idx.0,
            costs@.len() == grm.num_rules(),
            prod@ == grm.prod_of(p.0 as int),
            prod@.len() < u32::MAX,
            0 <= i <= prod@.len(),
            c == prod_cost(tc@, costs@, prod@, i as int),
            c <= i * 65535,
        decreases prod@.len() - i,
    {
        proof {
            assert(grm.symbol_ok(grm.prod_of(p.0 as int)[i as int]));
        }
        match prod[i] {
            Symbol::Token(t) => {
                c = c + tc[t.0 as usize] as u64;
            },
            Symbol::Rule(q) => {
                c = c + costs[q.0 as usize] as u64;
            },
        }
        i += 1;
    }
    c
}

/// Whether every rule that production `p` refers to is marked in `done`.
fn prod_ready(grm: &YaccGrammar, done: &Vec<bool>, p: PIdx) -> (r: bool)
    requires
        grm.wf(),
        p.0 < grm.prods_len.0,
        done@.len() == grm.num_rules(),
    ensures
        r == ready(done@, grm.prod_of(p.0 as int)),
{
    let prod = grm.prod(p);
    let mut i: usize = 0;
    while i < prod.len()
        invariant
            grm.wf(),
            p.0 < grm.prods_len.0,
            done@.len() == grm.num_rules(),
            prod@ == grm.prod_of(p.0 as int),
            0 <= i <= prod@.len(),
            forall|j: int| 0 <= j < i ==> match #[trigger] prod@[j] {
                Symbol::Rule(q) => done@[q.0 as int],
                Symbol::Token(_) => true,
            },
        decreases prod@.len() - i,
    {
        proof {
            assert(grm.symbol_ok(grm.prod_of(p.0 as int)[i as int]));
        }
        match prod[i] {
            Symbol::Rule(q) => {
                if !done[q.0 as usize] {
                    return false;
                }
            },
            Symbol::Token(_) => {},
        }
        i += 1;
    }
    true
}


/// Setting one clear bit removes exactly one clear bit; a sequence has no more clear bits than
/// bits.
proof fn lemma_count_clear_set(s: Seq<bool>, i: int)
    requires
        0 <= i < s.len(),
        !s[i],
    ensures
        count_clear(s.update(i, true)) + 1 == count_clear(s),
        count_clear(s) <= s.len(),
    decreases s.len(),
{
    let t = s.update(i, true);
    if i < s.len() - 1 {
        assert(t.drop_last() =~= s.drop_last().update(i, true));
        lemma_count_clear_set(s.drop_last(), i);
        assert(t.last() == s.last());
    } else {
        assert(t.drop_last() =~= s.drop_last());
        lemma_count_clear_bound(s.drop_last());
    }
}

proof fn lemma_count_clear_bound(s: Seq<bool>)
    ensures
        count_clear(s) <= s.len(),
    decreases s.len(),
{
    if s.len() > 0 {
        lemma_count_clear_bound(s.drop_last());
    }
}

/// The minimum costs of a grammar's rules could not be computed: some rule has no sentence
/// whose cost fits in `u16`.
#[derive(Clone, Copy, Debug, PartialEq, Eq, Structural)]
pub struct CostOverflow {}

/// Minimum rule costs, with, for each rule, a cheapest production (`best`) and the order in
/// which the rules were settled (`rank`): every rule that a rule's cheapest production refers
/// to was settled before it.
pub struct MinCosts {
    pub costs: Vec<u16>,
    pub best: Vec<usize>,
    pub rank: Vec<usize>,
}

/// `m` holds minimum costs for `grm`, with cheapest productions that refer only to rules
/// settled earlier.
pub open spec fn min_witness_ok(grm: &YaccGrammar, tc: Seq<u8>, m: &MinCosts) -> bool {
    &&& min_costs_ok(grm, tc, m.costs@)
    &&& m.best@.len() == grm.num_rules()
    &&& m.rank@.len() == grm.num_rules()
    &&& forall|r: int|
        0 <= r < grm.num_rules() ==> {
            &&& (#[trigger] m.best@[r]) < grm.prods_of(r).len()
            &&& cost_of(grm, tc, m.costs@, r, m.best@[r] as int) == m.costs@[r]
            &&& forall|i: int|
                0 <= i < grm.prod_of(grm.prods_of(r)[m.best@[r] as int].0 as int).len() ==> match #[trigger] grm.prod_of(
                    grm.prods_of(r)[m.best@[r] as int].0 as int,
                )[i] {
                    Symbol::Rule(q) => m.rank@[q.0 as int] < m.rank@[r],
                    Symbol::Token(_) => true,
                }
        }
}

/// Compute the minimum cost of a sentence of each rule, settling rules cheapest first: at
/// each step the unsettled rule with the cheapest production that refers only to settled
/// rules is settled at that cost.
fn min_costs_settled(grm: &YaccGrammar, tc: &Vec<u8>) -> (r: Result<MinCosts, CostOverflow>)
    requires
        grm.wf(),
        tc@.len() >= grm.eof_token_idx.0,
    ensures
        match r {
            Ok(m) => min_witness_ok(grm, tc@, &m),
            Err(_) => exists|d: Seq<bool>, c: Seq<u16>| stuck(grm, tc@, d, c),
        },
{
    let n = grm.rules_len.0 as usize;
    let mut costs: Vec<u16> = Vec::new();
    let mut done: Vec<bool> = Vec::new();
    let mut best: Vec<usize> = Vec::new();
    let mut rank: Vec<usize> = Vec::new();
    let mut i: usize = 0;
    while i < n
        invariant
            0 <= i <= n,
            costs@.len() == i,
            done@.len() == i,
            best@.len() == i,
            rank@.len() == i,
            forall|j: int| 0 <= j < i ==> !#[trigger] done@[j],
        decreases n - i,
    {
        costs.push(0);
        done.push(false);
        best.push(0);
        rank.push(0);
        i += 1;
    }
    proof {
        lemma_count_clear_all(done@);
        assert forall|r: int, k: int|
            0 <= r < n && 0 <= k < grm.prods_of(r).len() && !done@[r] && ready(done@, grm.prod_of(#[trigger] grm.prods_of(r)[k].0 as int))
                implies cost_of(grm, tc@, costs@, r, k) >= 0 by {
            let p = grm.prods_of(r)[k].0 as int;
            lemma_prod_cost_parts(tc@, costs@, grm.prod_of(p), grm.prod_of(p).len() as int);
        }
    }
    let mut last: u16 = 0;
    let mut n_done: usize = 0;
    loop
        invariant
            grm.wf(),
            n == grm.num_rules(),
            tc@.len() >= grm.eof_token_idx.0,
            costs@.len() == n,
            done@.len() == n,
            best@.len() == n,
            rank@.len() == n,
            n_done + count_clear(done@) == n,
            forall|r: int| 0 <= r < n && #[trigger] done@[r] ==> costs@[r] <= last && rank@[r] < n_done,
            forall|r: int, k: int|
                0 <= r < n && 0 <= k < grm.prods_of(r).len() && !done@[r] && ready(done@, grm.prod_of(#[trigger] grm.prods_of(r)[k].0 as int))
                    ==> cost_of(grm, tc@, costs@, r, k) >= last,
            forall|r: int, k: int|
                0 <= r < n && 0 <= k < grm.prods_of(r).len() && done@[r] && ready(done@, grm.prod_of(#[trigger] grm.prods_of(r)[k].0 as int))
                    ==> cost_of(grm, tc@, costs@, r, k) >= costs@[r],
            forall|r: int|
                0 <= r < n && #[trigger] done@[r] ==> {
                    &&& best@[r] < grm.prods_of(r).len()
                    &&& ready(done@, grm.prod_of(grm.prods_of(r)[best@[r] as int].0 as int))
                    &&& cost_of(grm, tc@, costs@, r, best@[r] as int) == costs@[r]
                    &&& forall|i: int|
                        0 <= i < grm.prod_of(grm.prods_of(r)[best@[r] as int].0 as int).len() ==> match #[trigger] grm.prod_of(
                            grm.prods_of(r)[best@[r] as int].0 as int,
                        )[i] {
                            Symbol::Rule(q) => rank@[q.0 as int] < rank@[r],
                            Symbol::Token(_) => true,
                        }
                },
        decreases count_clear(done@),
    {
        // Find the cheapest production, among unsettled rules, that refers only to settled
        // rules.
        let mut found = false;
        let mut bu: usize = 0;
        let mut bk: usize = 0;
        let mut bc: u64 = 0;
        let mut r: usize = 0;
        while r < n
            invariant
                grm.wf(),
                n == grm.num_rules(),
                tc@.len() >= grm.eof_token_idx.0,
                costs@.len() == n,
                done@.len() == n,
                0 <= r <= n,
                found ==> {
                    &&& bu < n
                    &&& !done@[bu as int]
                    &&& bk < grm.prods_of(bu as int).len()
                    &&& ready(done@, grm.prod_of(grm.prods_of(bu as int)[bk as int].0 as int))
                    &&& cost_of(grm, tc@, costs@, bu as int, bk as int) == bc
                    &&& bc <= u16::MAX
                },
                forall|r2: int, k: int|
                    0 <= r2 < r && 0 <= k < grm.prods_of(r2).len() && !done@[r2] && ready(done@, grm.prod_of(#[trigger] grm.prods_of(r2)[k].0 as int))
                        ==> cost_of(grm, tc@, costs@, r2, k) > u16::MAX || (found && cost_of(grm, tc@, costs@, r2, k) >= bc),
            decreases n - r,
        {
            if !done[r] {
                let prods = grm.rule_to_prods(RIdx(r as u32));
                let mut k: usize = 0;
                while k < prods.len()
                    invariant
                        grm.wf(),
                        n == grm.num_rules(),
                        tc@.len() >= grm.eof_token_idx.0,
                        costs@.len() == n,
                        done@.len() == n,
                        0 <= r < n,
                        !done@[r as int],
                        prods@ == grm.prods_of(r as int),
                        0 <= k <= prods@.len(),
                        found ==> {
                            &&& bu < n
                            &&& !done@[bu as int]
                            &&& bk < grm.prods_of(bu as int).len()
                            &&& ready(done@, grm.prod_of(grm.prods_of(bu as int)[bk as int].0 as int))
                            &&& cost_of(grm, tc@, costs@, bu as int, bk as int) == bc
                            &&& bc <= u16::MAX
                        },
                        forall|r2: int, k2: int|
                            ((0 <= r2 < r && 0 <= k2 < grm.prods_of(r2).len()) || (r2 == r && 0 <= k2 < k)) && !done@[r2] && ready(done@, grm.prod_of(#[trigger] grm.prods_of(r2)[k2].0 as int))
                                ==> cost_of(grm, tc@, costs@, r2, k2) > u16::MAX || (found && cost_of(grm, tc@, costs@, r2, k2) >= bc),
                    decreases prods@.len() - k,
                {
                    proof {
                        assert(prods@[k as int].0 < grm.num_prods());
                    }
                    if prod_ready(grm, &done, prods[k]) {
                        let c = compute_prod_cost(grm, tc, &costs, prods[k]);
                        if c <= u16::MAX as u64 && (!found || c < bc) {
                            found = true;
                            bu = r;
                            bk = k;
                            bc = c;
                        }
                    }
                    k += 1;
                }
            }
            r += 1;
        }
        if !found {
            proof {
                assert forall|r2: int| 0 <= r2 < n && #[trigger] done@[r2] implies exists|k: int|
                    0 <= k < grm.prods_of(r2).len() && ready(done@, grm.prod_of(#[trigger] grm.prods_of(r2)[k].0 as int))
                        && cost_of(grm, tc@, costs@, r2, k) == costs@[r2] by {
                    let k = best@[r2] as int;
                    assert(ready(done@, grm.prod_of(grm.prods_of(r2)[k].0 as int)));
                }
            }
            let mut j: usize = 0;
            while j < n
                invariant
                    grm.wf(),
                    n == grm.num_rules(),
                    n == done@.len(),
                    costs@.len() == n,
                    tc@.len() >= grm.eof_token_idx.0,
                    !found,
                    0 <= j <= n,
                    forall|j2: int| 0 <= j2 < j ==> #[trigger] done@[j2],
                    forall|r2: int, k: int|
                        0 <= r2 < n && 0 <= k < grm.prods_of(r2).len() && !done@[r2] && ready(done@, grm.prod_of(#[trigger] grm.prods_of(r2)[k].0 as int))
                            ==> cost_of(grm, tc@, costs@, r2, k) > u16::MAX,
                    settled_ok(grm, tc@, done@, costs@),
                decreases n - j,
            {
                if !done[j] {
                    proof {
                        assert(stuck(grm, tc@, done@, costs@));
                    }
                    return Err(CostOverflow {});
                }
                j += 1;
            }
            proof {
                assert forall|r2: int| 0 <= r2 < n implies {
                    &&& (#[trigger] best@[r2]) < grm.prods_of(r2).len()
                    &&& cost_of(grm, tc@, costs@, r2, best@[r2] as int) == costs@[r2]
                    &&& forall|i: int|
                        0 <= i < grm.prod_of(grm.prods_of(r2)[best@[r2] as int].0 as int).len() ==> match #[trigger] grm.prod_of(
                            grm.prods_of(r2)[best@[r2] as int].0 as int,
                        )[i] {
                            Symbol::Rule(q) => rank@[q.0 as int] < rank@[r2],
                            Symbol::Token(_) => true,
                        }
                } by {
                    assert(done@[r2]);
                }
                assert forall|r2: int| 0 <= r2 < n implies #[trigger] achieved(grm, tc@, costs@, r2) by {
                    assert(done@[r2]);
                    assert(cost_of(grm, tc@, costs@, r2, best@[r2] as int) == costs@[r2]);
                }
                assert forall|r2: int, k: int| 0 <= r2 < n && 0 <= k < grm.prods_of(r2).len() implies costs@[r2] <= #[trigger] cost_of(grm, tc@, costs@, r2, k) by {
                    let p = grm.prods_of(r2)[k].0 as int;
                    assert forall|i: int| 0 <= i < grm.prod_of(p).len() implies match #[trigger] grm.prod_of(p)[i] {
                        Symbol::Rule(q) => done@[q.0 as int],
                        Symbol::Token(_) => true,
                    } by {
                        assert(grm.symbol_ok(grm.prod_of(p)[i]));
                    }
                    assert(done@[r2]);
                }
            }
            return Ok(MinCosts { costs, best, rank });
        }
        // Settle `bu` at cost `bc`.
        let ghost c0 = costs@;
        let ghost d0 = done@;
        let ghost r0 = rank@;
        let ghost b0 = best@;
        let ghost last0 = last;
        proof {
            assert(bc >= last);
            lemma_count_clear_set(done@, bu as int);
            let p = grm.prods_of(bu as int)[bk as int].0 as int;
            assert forall|i: int| 0 <= i < grm.prod_of(p).len() implies match #[trigger] grm.prod_of(p)[i] {
                Symbol::Rule(q) => q.0 != bu,
                Symbol::Token(_) => true,
            } by {}
            lemma_prod_cost_frame(tc@, c0, c0.update(bu as int, bc as u16), grm.prod_of(p), grm.prod_of(p).len() as int);
        }
        costs.set(bu, bc as u16);
        done.set(bu, true);
        best.set(bu, bk);
        rank.set(bu, n_done);
        last = bc as u16;
        n_done = n_done + 1;
        proof {
            // Productions that referred only to settled rules keep their costs.
            assert forall|r2: int, k: int|
                0 <= r2 < n && 0 <= k < grm.prods_of(r2).len() && ready(d0, grm.prod_of(#[trigger] grm.prods_of(r2)[k].0 as int))
                    implies cost_of(grm, tc@, costs@, r2, k) == cost_of(grm, tc@, c0, r2, k) by {
                let p = grm.prods_of(r2)[k].0 as int;
                assert forall|i: int| 0 <= i < grm.prod_of(p).len() implies match #[trigger] grm.prod_of(p)[i] {
                    Symbol::Rule(q) => c0[q.0 as int] == costs@[q.0 as int],
                    Symbol::Token(_) => true,
                } by {
                    match grm.prod_of(p)[i] {
                        Symbol::Rule(q) => {
                            assert(d0[q.0 as int]);
                        },
                        Symbol::Token(_) => {},
                    }
                }
                lemma_prod_cost_frame(tc@, c0, costs@, grm.prod_of(p), grm.prod_of(p).len() as int);
            }
            // A production that now refers only to settled rules, and did not before, refers
            // to `bu`, and so costs at least `bc`.
            assert forall|r2: int, k: int|
                0 <= r2 < n && 0 <= k < grm.prods_of(r2).len() && ready(done@, grm.prod_of(#[trigger] grm.prods_of(r2)[k].0 as int))
                    && !ready(d0, grm.prod_of(grm.prods_of(r2)[k].0 as int))
                    implies cost_of(grm, tc@, costs@, r2, k) >= bc by {
                let p = grm.prods_of(r2)[k].0 as int;
                let prod = grm.prod_of(p);
                let i = choose|i: int| 0 <= i < prod.len() && !match #[trigger] prod[i] {
                    Symbol::Rule(q) => d0[q.0 as int],
                    Symbol::Token(_) => true,
                };
                lemma_prod_cost_parts(tc@, costs@, prod, prod.len() as int);
                assert(sym_cost(tc@, costs@, prod[i]) <= cost_of(grm, tc@, costs@, r2, k));
                assert(grm.symbol_ok(prod[i]));
            }
            assert forall|r2: int, k: int|
                0 <= r2 < n && 0 <= k < grm.prods_of(r2).len() && !done@[r2] && ready(done@, grm.prod_of(#[trigger] grm.prods_of(r2)[k].0 as int))
                    implies cost_of(grm, tc@, costs@, r2, k) >= last by {
                if ready(d0, grm.prod_of(grm.prods_of(r2)[k].0 as int)) {
                    assert(cost_of(grm, tc@, c0, r2, k) > u16::MAX || cost_of(grm, tc@, c0, r2, k) >= bc);
                }
            }
            assert forall|r2: int, k: int|
                0 <= r2 < n && 0 <= k < grm.prods_of(r2).len() && done@[r2] && ready(done@, grm.prod_of(#[trigger] grm.prods_of(r2)[k].0 as int))
                    implies cost_of(grm, tc@, costs@, r2, k) >= costs@[r2] by {
                if r2 == bu {
                    if ready(d0, grm.prod_of(grm.prods_of(r2)[k].0 as int)) {
                        assert(cost_of(grm, tc@, c0, r2, k) > u16::MAX || cost_of(grm, tc@, c0, r2, k) >= bc);
                    }
                } else {
                    assert(d0[r2]);
                    assert(c0[r2] <= last0);
                    if ready(d0, grm.prod_of(grm.prods_of(r2)[k].0 as int)) {
                        assert(cost_of(grm, tc@, c0, r2, k) >= c0[r2]);
                    }
                }
            }
            assert forall|r2: int| 0 <= r2 < n && #[trigger] done@[r2] implies costs@[r2] <= last && rank@[r2] < n_done by {
                if r2 != bu {
                    assert(d0[r2]);
                }
            }
            assert forall|r2: int| 0 <= r2 < n && #[trigger] done@[r2] implies {
                &&& best@[r2] < grm.prods_of(r2).len()
                &&& ready(done@, grm.prod_of(grm.prods_of(r2)[best@[r2] as int].0 as int))
                &&& cost_of(grm, tc@, costs@, r2, best@[r2] as int) == costs@[r2]
                &&& forall|i: int|
                    0 <= i < grm.prod_of(grm.prods_of(r2)[best@[r2] as int].0 as int).len() ==> match #[trigger] grm.prod_of(
                        grm.prods_of(r2)[best@[r2] as int].0 as int,
                    )[i] {
                        Symbol::Rule(q) => rank@[q.0 as int] < rank@[r2],
                        Symbol::Token(_) => true,
                    }
            } by {
                let p = grm.prods_of(r2)[best@[r2] as int].0 as int;
                let prod = grm.prod_of(p);
                if r2 != bu {
                    assert(d0[r2]);
                    assert(ready(d0, prod));
                    assert forall|i: int| 0 <= i < prod.len() implies match #[trigger] prod[i] {
                        Symbol::Rule(q) => done@[q.0 as int],
                        Symbol::Token(_) => true,
                    } by {
                        assert(grm.symbol_ok(prod[i]));
                    }
                    assert forall|i: int| 0 <= i < prod.len() implies match #[trigger] prod[i] {
                        Symbol::Rule(q) => rank@[q.0 as int] < rank@[r2],
                        Symbol::Token(_) => true,
                    } by {
                        assert(grm.symbol_ok(prod[i]));
                        match prod[i] {
                            Symbol::Rule(q) => {
                                assert(d0[q.0 as int]);
                                assert(q.0 != bu);
                            },
                            Symbol::Token(_) => {},
                        }
                    }
                } else {
                    assert forall|i: int| 0 <= i < prod.len() implies match #[trigger] prod[i] {
                        Symbol::Rule(q) => done@[q.0 as int],
                        Symbol::Token(_) => true,
                    } by {
                        assert(grm.symbol_ok(prod[i]));
                    }
                    assert forall|i: int| 0 <= i < prod.len() implies match #[trigger] prod[i] {
                        Symbol::Rule(q) => rank@[q.0 as int] < rank@[r2],
                        Symbol::Token(_) => true,
                    } by {
                        assert(grm.symbol_ok(prod[i]));
                        match prod[i] {
                            Symbol::Rule(q) => {
                                assert(d0[q.0 as int]);
                            },
                            Symbol::Token(_) => {},
                        }
                    }
                }
            }
        }
    }
}

proof fn lemma_count_clear_all(s: Seq<bool>)
    requires
        forall|j: int| 0 <= j < s.len() ==> !#[trigger] s[j],
    ensures
        count_clear(s) == s.len(),
    decreases s.len(),
{
    if s.len() > 0 {
        assert forall|j: int| 0 <= j < s.drop_last().len() implies !#[trigger] s.drop_last()[j] by {
            assert(s.drop_last()[j] == s[j]);
        }
        lemma_count_clear_all(s.drop_last());
    }
}


/// Production `p` refers to a rule whose cost in `costs` is `u16::MAX` (unbounded).
pub open spec fn refers_unbounded(grm: &YaccGrammar, costs: Seq<u16>, p: int) -> bool {
    exists|i: int|
        0 <= i < grm.prod_of(p).len() && match #[trigger] grm.prod_of(p)[i] {
            Symbol::Rule(q) => costs[q.0 as int] == u16::MAX,
            Symbol::Token(_) => false,
        }
}

/// `costs` gives each rule the cost of its most expensive sentence, `u16::MAX` standing for
/// "unbounded": exactly the recursive rules, and the rules with a production that refers to
/// an unbounded rule, are unbounded; every other rule costs the most among its productions.
pub open spec fn max_costs_ok(grm: &YaccGrammar, tc: Seq<u8>, costs: Seq<u16>) -> bool {
    &&& costs.len() == grm.num_rules()
    &&& forall|r: int| 0 <= r < grm.num_rules() && grm.reaches(r, r) ==> #[trigger] costs[r] == u16::MAX
    &&& forall|r: int|
        0 <= r < grm.num_rules() && #[trigger] costs[r] == u16::MAX ==> grm.reaches(r, r) || exists|k: int|
            0 <= k < grm.prods_of(r).len() && refers_unbounded(grm, costs, #[trigger] grm.prods_of(r)[k].0 as int)
    &&& forall|r: int| 0 <= r < grm.num_rules() && #[trigger] costs[r] != u16::MAX ==> bounded_ok(grm, tc, costs, r)
}

/// Rule `r` refers to no unbounded rule, and costs the most among its productions.
pub open spec fn bounded_ok(grm: &YaccGrammar, tc: Seq<u8>, costs: Seq<u16>, r: int) -> bool {
    &&& forall|k: int| 0 <= k < grm.prods_of(r).len() ==> !refers_unbounded(grm, costs, #[trigger] grm.prods_of(r)[k].0 as int)
    &&& forall|k: int| 0 <= k < grm.prods_of(r).len() ==> #[trigger] cost_of(grm, tc, costs, r, k) <= costs[r]
    &&& exists|k: int| 0 <= k < grm.prods_of(r).len() && #[trigger] cost_of(grm, tc, costs, r, k) == costs[r]
}

/// Whether production `p` refers to a rule whose cost is `u16::MAX`.
fn prod_refers_unbounded(grm: &YaccGrammar, costs: &Vec<u16>, p: PIdx) -> (r: bool)
    requires
        grm.wf(),
        p.0 < grm.prods_len.0,
        costs@.len() == grm.num_rules(),
    ensures
        r == refers_unbounded(grm, costs@, p.0 as int),
{
    let prod = grm.prod(p);
    let mut i: usize = 0;
    while i < prod.len()
        invariant
            grm.wf(),
            p.0 < grm.prods_len.0,
            costs@.len() == grm.num_rules(),
            prod@ == grm.prod_of(p.0 as int),
            0 <= i <= prod@.len(),
            forall|j: int| 0 <= j < i ==> !match #[trigger] grm.prod_of(p.0 as int)[j] {
                Symbol::Rule(q) => costs@[q.0 as int] == u16::MAX,
                Symbol::Token(_) => false,
            },
        decreases prod@.len() - i,
    {
        proof {
            assert(grm.symbol_ok(grm.prod_of(p.0 as int)[i as int]));
        }
        match prod[i] {
            Symbol::Rule(q) => {
                if costs[q.0 as usize] == u16::MAX {
                    return true;
                }
            },
            Symbol::Token(_) => {},
        }
        i += 1;
    }
    false
}

/// No production of `r` refers to an unbounded rule, and some production refers to a rule not
/// yet settled.
pub open spec fn max_blocked(grm: &YaccGrammar, done: Seq<bool>, costs: Seq<u16>, r: int) -> bool {
    &&& forall|k: int| 0 <= k < grm.prods_of(r).len() ==> !refers_unbounded(grm, costs, #[trigger] grm.prods_of(r)[k].0 as int)
    &&& exists|k: int| 0 <= k < grm.prods_of(r).len() && !ready(done, grm.prod_of(#[trigger] grm.prods_of(r)[k].0 as int))
}

/// Every production of `r` refers only to settled rules and to no unbounded rule, and one of
/// them costs `u16::MAX` or more.
pub open spec fn overflows_at(grm: &YaccGrammar, tc: Seq<u8>, costs: Seq<u16>, done: Seq<bool>, r: int) -> bool {
    &&& forall|k: int| 0 <= k < grm.prods_of(r).len() ==> !refers_unbounded(grm, costs, #[trigger] grm.prods_of(r)[k].0 as int)
    &&& forall|k: int| 0 <= k < grm.prods_of(r).len() ==> ready(done, grm.prod_of(#[trigger] grm.prods_of(r)[k].0 as int))
    &&& exists|k: int| 0 <= k < grm.prods_of(r).len() && #[trigger] cost_of(grm, tc, costs, r, k) >= u16::MAX
}

/// Every table that meets `max_costs_ok` agrees with `costs` on the rules marked in `done`.
pub open spec fn forced(grm: &YaccGrammar, tc: Seq<u8>, done: Seq<bool>, costs: Seq<u16>) -> bool {
    forall|c: Seq<u16>| #[trigger] max_costs_ok(grm, tc, c) ==> forall|q: int|
        0 <= q < grm.num_rules() && done[q] ==> c[q] == costs[q]
}

/// Two tables that agree on the settled rules give a production that refers only to settled
/// rules the same cost, and the same references to unbounded rules.
proof fn lemma_agree_prod(grm: &YaccGrammar, tc: Seq<u8>, c: Seq<u16>, c0: Seq<u16>, d0: Seq<bool>, p: int)
    requires
        grm.wf(),
        0 <= p < grm.num_prods(),
        c.len() == grm.num_rules(),
        c0.len() == grm.num_rules(),
        d0.len() == grm.num_rules(),
        ready(d0, grm.prod_of(p)),
        forall|q: int| 0 <= q < grm.num_rules() && d0[q] ==> c[q] == c0[q],
    ensures
        cost_of_prod(grm, tc, c, p) == cost_of_prod(grm, tc, c0, p),
        refers_unbounded(grm, c, p) == refers_unbounded(grm, c0, p),
{
    assert forall|i: int| 0 <= i < grm.prod_of(p).len() implies match #[trigger] grm.prod_of(p)[i] {
        Symbol::Rule(q) => c[q.0 as int] == c0[q.0 as int],
        Symbol::Token(_) => true,
    } by {
        assert(grm.symbol_ok(grm.prod_of(p)[i]));
        match grm.prod_of(p)[i] {
            Symbol::Rule(q) => {
                assert(d0[q.0 as int]);
            },
            Symbol::Token(_) => {},
        }
    }
    lemma_prod_cost_frame(tc, c, c0, grm.prod_of(p), grm.prod_of(p).len() as int);
    if refers_unbounded(grm, c, p) {
        let i = choose|i: int| 0 <= i < grm.prod_of(p).len() && match #[trigger] grm.prod_of(p)[i] {
            Symbol::Rule(q) => c[q.0 as int] == u16::MAX,
            Symbol::Token(_) => false,
        };
        let _ = grm.prod_of(p)[i];
    }
    if refers_unbounded(grm, c0, p) {
        let i = choose|i: int| 0 <= i < grm.prod_of(p).len() && match #[trigger] grm.prod_of(p)[i] {
            Symbol::Rule(q) => c0[q.0 as int] == u16::MAX,
            Symbol::Token(_) => false,
        };
        let _ = grm.prod_of(p)[i];
    }
}

/// Settling one rule as `settle_max` says keeps every table that meets `max_costs_ok` in
/// agreement with the settled rules.
proof fn lemma_forced_step(grm: &YaccGrammar, tc: Seq<u8>, c0: Seq<u16>, d0: Seq<bool>, c1: Seq<u16>, d1: Seq<bool>, r: int)
    requires
        grm.wf(),
        c0.len() == grm.num_rules(),
        d0.len() == grm.num_rules(),
        0 <= r < grm.num_rules(),
        !d0[r],
        !grm.reaches(r, r),
        c1 == c0.update(r, c1[r]),
        d1 == d0.update(r, true),
        forall|q: int| 0 <= q < grm.num_rules() && !#[trigger] d0[q] ==> c0[q] == 0,
        c1[r] == u16::MAX ==> exists|k: int|
            0 <= k < grm.prods_of(r).len() && refers_unbounded(grm, c0, #[trigger] grm.prods_of(r)[k].0 as int),
        c1[r] != u16::MAX ==> settles_at(grm, tc, c0, d0, r, c1[r]),
        forced(grm, tc, d0, c0),
    ensures
        forced(grm, tc, d1, c1),
{
    assert forall|c: Seq<u16>| #[trigger] max_costs_ok(grm, tc, c) implies forall|q: int|
        0 <= q < grm.num_rules() && d1[q] ==> c[q] == c1[q] by {
        assert forall|q: int| 0 <= q < grm.num_rules() && d0[q] implies c[q] == c0[q] by {}
        if c1[r] == u16::MAX {
            let k = choose|k: int| 0 <= k < grm.prods_of(r).len() && refers_unbounded(grm, c0, #[trigger] grm.prods_of(r)[k].0 as int);
            let p = grm.prods_of(r)[k].0 as int;
            assert(p < grm.num_prods());
            let i = choose|i: int| 0 <= i < grm.prod_of(p).len() && match #[trigger] grm.prod_of(p)[i] {
                Symbol::Rule(x) => c0[x.0 as int] == u16::MAX,
                Symbol::Token(_) => false,
            };
            assert(grm.symbol_ok(grm.prod_of(p)[i]));
            if let Symbol::Rule(x) = grm.prod_of(p)[i] {
                assert(d0[x.0 as int]);
                assert(c[x.0 as int] == u16::MAX);
            }
            assert(refers_unbounded(grm, c, p));
            if c[r] != u16::MAX {
                assert(bounded_ok(grm, tc, c, r));
                assert(!refers_unbounded(grm, c, grm.prods_of(r)[k].0 as int));
            }
        } else {
            assert(settles_at(grm, tc, c0, d0, r, c1[r]));
            assert forall|k: int| 0 <= k < grm.prods_of(r).len() implies #[trigger] cost_of(grm, tc, c, r, k) == cost_of(grm, tc, c0, r, k)
                && refers_unbounded(grm, c, grm.prods_of(r)[k].0 as int) == refers_unbounded(grm, c0, grm.prods_of(r)[k].0 as int) by {
                let p = grm.prods_of(r)[k].0 as int;
                assert(p < grm.num_prods());
                assert(ready(d0, grm.prod_of(p)));
                lemma_agree_prod(grm, tc, c, c0, d0, p);
            }
            if c[r] == u16::MAX {
                if !grm.reaches(r, r) {
                    let k = choose|k: int| 0 <= k < grm.prods_of(r).len() && refers_unbounded(grm, c, #[trigger] grm.prods_of(r)[k].0 as int);
                    assert(refers_unbounded(grm, c0, grm.prods_of(r)[k].0 as int));
                }
            } else {
                assert(bounded_ok(grm, tc, c, r));
                let kc = choose|k: int| 0 <= k < grm.prods_of(r).len() && #[trigger] cost_of(grm, tc, c, r, k) == c[r];
                let kv = choose|k: int| 0 <= k < grm.prods_of(r).len() && #[trigger] cost_of(grm, tc, c0, r, k) == c1[r];
                assert(cost_of(grm, tc, c, r, kv) <= c[r]);
                assert(cost_of(grm, tc, c0, r, kc) <= c1[r]);
            }
        }
    }
}

/// Where a rule that is not recursive overflows as `overflows_at` says over a forced table, no
/// table meets `max_costs_ok`.
proof fn lemma_no_max_table(grm: &YaccGrammar, tc: Seq<u8>, costs: Seq<u16>, done: Seq<bool>, r: int)
    requires
        grm.wf(),
        costs.len() == grm.num_rules(),
        done.len() == grm.num_rules(),
        0 <= r < grm.num_rules(),
        !grm.reaches(r, r),
        overflows_at(grm, tc, costs, done, r),
        forced(grm, tc, done, costs),
    ensures
        !exists|c: Seq<u16>| #[trigger] max_costs_ok(grm, tc, c),
{
    if exists|c: Seq<u16>| #[trigger] max_costs_ok(grm, tc, c) {
        let c = choose|c: Seq<u16>| #[trigger] max_costs_ok(grm, tc, c);
        assert forall|q: int| 0 <= q < grm.num_rules() && done[q] implies c[q] == costs[q] by {}
        assert forall|k: int| 0 <= k < grm.prods_of(r).len() implies #[trigger] cost_of(grm, tc, c, r, k) == cost_of(grm, tc, costs, r, k)
            && refers_unbounded(grm, c, grm.prods_of(r)[k].0 as int) == refers_unbounded(grm, costs, grm.prods_of(r)[k].0 as int) by {
            let p = grm.prods_of(r)[k].0 as int;
            assert(p < grm.num_prods());
            assert(ready(done, grm.prod_of(p)));
            lemma_agree_prod(grm, tc, c, costs, done, p);
        }
        let kx = choose|k: int| 0 <= k < grm.prods_of(r).len() && #[trigger] cost_of(grm, tc, costs, r, k) >= u16::MAX;
        if c[r] == u16::MAX {
            let k = choose|k: int| 0 <= k < grm.prods_of(r).len() && refers_unbounded(grm, c, #[trigger] grm.prods_of(r)[k].0 as int);
            assert(refers_unbounded(grm, costs, grm.prods_of(r)[k].0 as int));
        } else {
            assert(bounded_ok(grm, tc, c, r));
            assert(cost_of(grm, tc, c, r, kx) <= c[r]);
        }
    }
}

/// Every production of `r` refers only to settled rules and to no unbounded rule, the most
/// expensive costs `c`.
pub open spec fn settles_at(grm: &YaccGrammar, tc: Seq<u8>, costs: Seq<u16>, done: Seq<bool>, r: int, c: u16) -> bool {
    &&& forall|k: int| 0 <= k < grm.prods_of(r).len() ==> !refers_unbounded(grm, costs, #[trigger] grm.prods_of(r)[k].0 as int)
    &&& forall|k: int| 0 <= k < grm.prods_of(r).len() ==> ready(done, grm.prod_of(#[trigger] grm.prods_of(r)[k].0 as int))
    &&& forall|k: int| 0 <= k < grm.prods_of(r).len() ==> #[trigger] cost_of(grm, tc, costs, r, k) <= c
    &&& exists|k: int| 0 <= k < grm.prods_of(r).len() && #[trigger] cost_of(grm, tc, costs, r, k) == c
}

/// What rule `r` can be settled at: `u16::MAX` where a production refers to an unbounded
/// rule; else, where every production refers only to settled rules, the cost of its most
/// expensive production; else nothing yet.
fn settle_max(grm: &YaccGrammar, tc: &Vec<u8>, costs: &Vec<u16>, done: &Vec<bool>, r: usize) -> (res: Result<Option<u16>, CostOverflow>)
    requires
        grm.wf(),
        r < grm.num_rules(),
        tc@.len() >= grm.eof_token_idx.0,
        costs@.len() == grm.num_rules(),
        done@.len() == grm.num_rules(),
    ensures
        res matches Ok(Some(c)) ==> (c == u16::MAX ==> exists|k: int|
            0 <= k < grm.prods_of(r as int).len() && refers_unbounded(grm, costs@, #[trigger] grm.prods_of(r as int)[k].0 as int)),
        res matches Ok(Some(c)) ==> (c != u16::MAX ==> settles_at(grm, tc@, costs@, done@, r as int, c)),
        res matches Ok(None) ==> max_blocked(grm, done@, costs@, r as int),
        res is Err ==> overflows_at(grm, tc@, costs@, done@, r as int),
{
    let prods = grm.rule_to_prods(RIdx(r as u32));
    let mut k: usize = 0;
    let mut all_ready = true;
    let mut hi: u64 = 0;
    let mut hk: usize = 0;
    while k < prods.len()
        invariant
            grm.wf(),
            r < grm.num_rules(),
            tc@.len() >= grm.eof_token_idx.0,
            costs@.len() == grm.num_rules(),
            done@.len() == grm.num_rules(),
            prods@ == grm.prods_of(r as int),
            prods@.len() >= 1,
            0 <= k <= prods@.len(),
            forall|k2: int| 0 <= k2 < k ==> !refers_unbounded(grm, costs@, #[trigger] prods@[k2].0 as int),
            all_ready == forall|k2: int| 0 <= k2 < k ==> ready(done@, grm.prod_of(#[trigger] prods@[k2].0 as int)),
            all_ready ==> forall|k2: int| 0 <= k2 < k ==> #[trigger] cost_of(grm, tc@, costs@, r as int, k2) <= hi,
            all_ready && k > 0 ==> hk < k && cost_of(grm, tc@, costs@, r as int, hk as int) == hi,
        decreases prods@.len() - k,
    {
        proof {
            assert(prods@[k as int].0 < grm.num_prods());
        }
        if prod_refers_unbounded(grm, costs, prods[k]) {
            return Ok(Some(u16::MAX));
        }
        if all_ready {
            if prod_ready(grm, done, prods[k]) {
                let c = compute_prod_cost(grm, tc, costs, prods[k]);
                if k == 0 || c > hi {
                    hi = c;
                    hk = k;
                }
            } else {
                all_ready = false;
            }
        }
        k += 1;
    }
    if !all_ready {
        return Ok(None);
    }
    if hi >= u16::MAX as u64 {
        proof {
            assert(cost_of(grm, tc@, costs@, r as int, hk as int) >= u16::MAX);
            assert forall|k2: int| 0 <= k2 < grm.prods_of(r as int).len() implies !refers_unbounded(grm, costs@, #[trigger] grm.prods_of(r as int)[k2].0 as int) by {
                let _ = prods@[k2];
            }
            assert forall|k2: int| 0 <= k2 < grm.prods_of(r as int).len() implies ready(done@, grm.prod_of(#[trigger] grm.prods_of(r as int)[k2].0 as int)) by {
                let _ = prods@[k2];
            }
        }
        return Err(CostOverflow {});
    }
    proof {
        assert(cost_of(grm, tc@, costs@, r as int, hk as int) == (hi as u16) as int);
        assert forall|k2: int| 0 <= k2 < grm.prods_of(r as int).len() implies !refers_unbounded(grm, costs@, #[trigger] grm.prods_of(r as int)[k2].0 as int) by {
            let _ = prods@[k2];
        }
        assert forall|k2: int| 0 <= k2 < grm.prods_of(r as int).len() implies ready(done@, grm.prod_of(#[trigger] grm.prods_of(r as int)[k2].0 as int)) by {
            let _ = prods@[k2];
        }
    }
    Ok(Some(hi as u16))
}

/// Settling one rule as `settle_max` says keeps the invariant of `rule_max_costs`.
proof fn lemma_max_step(grm: &YaccGrammar, tc: Seq<u8>, c0: Seq<u16>, d0: Seq<bool>, c1: Seq<u16>, d1: Seq<bool>, r: int)
    requires
        grm.wf(),
        tc.len() >= grm.eof_token_idx.0,
        c0.len() == grm.num_rules(),
        d0.len() == grm.num_rules(),
        0 <= r < grm.num_rules(),
        !d0[r],
        c0[r] == 0,
        c1 == c0.update(r, c1[r]),
        d1 == d0.update(r, true),
        c1[r] == u16::MAX ==> exists|k: int|
            0 <= k < grm.prods_of(r).len() && refers_unbounded(grm, c0, #[trigger] grm.prods_of(r)[k].0 as int),
        c1[r] != u16::MAX ==> settles_at(grm, tc, c0, d0, r, c1[r]),
        forall|r2: int| 0 <= r2 < grm.num_rules() && grm.reaches(r2, r2) ==> #[trigger] d0[r2] && c0[r2] == u16::MAX,
        forall|r2: int| 0 <= r2 < grm.num_rules() && !#[trigger] d0[r2] ==> c0[r2] == 0,
        forall|r2: int|
            0 <= r2 < grm.num_rules() && #[trigger] d0[r2] && c0[r2] == u16::MAX ==> grm.reaches(r2, r2) || exists|k: int|
                0 <= k < grm.prods_of(r2).len() && refers_unbounded(grm, c0, #[trigger] grm.prods_of(r2)[k].0 as int),
        forall|r2: int|
            0 <= r2 < grm.num_rules() && #[trigger] d0[r2] && c0[r2] != u16::MAX ==> bounded_ok(grm, tc, c0, r2)
                && forall|k: int| 0 <= k < grm.prods_of(r2).len() ==> ready(d0, grm.prod_of(#[trigger] grm.prods_of(r2)[k].0 as int)),
    ensures
        forall|r2: int| 0 <= r2 < grm.num_rules() && grm.reaches(r2, r2) ==> #[trigger] d1[r2] && c1[r2] == u16::MAX,
        forall|r2: int| 0 <= r2 < grm.num_rules() && !#[trigger] d1[r2] ==> c1[r2] == 0,
        forall|r2: int|
            0 <= r2 < grm.num_rules() && #[trigger] d1[r2] && c1[r2] == u16::MAX ==> grm.reaches(r2, r2) || exists|k: int|
                0 <= k < grm.prods_of(r2).len() && refers_unbounded(grm, c1, #[trigger] grm.prods_of(r2)[k].0 as int),
        forall|r2: int|
            0 <= r2 < grm.num_rules() && #[trigger] d1[r2] && c1[r2] != u16::MAX ==> bounded_ok(grm, tc, c1, r2)
                && forall|k: int| 0 <= k < grm.prods_of(r2).len() ==> ready(d1, grm.prod_of(#[trigger] grm.prods_of(r2)[k].0 as int)),
{
    // A reference to an unbounded rule stays one: only `r`, which was not unbounded, changed.
    assert forall|p: int| 0 <= p < grm.num_prods() && refers_unbounded(grm, c0, p) implies refers_unbounded(grm, c1, p) by {
        let i = choose|i: int| 0 <= i < grm.prod_of(p).len() && match #[trigger] grm.prod_of(p)[i] {
            Symbol::Rule(q) => c0[q.0 as int] == u16::MAX,
            Symbol::Token(_) => false,
        };
        assert(grm.symbol_ok(grm.prod_of(p)[i]));
    }
    // A production that refers only to settled rules other than `r` keeps its cost, and its
    // references keep theirs.
    assert forall|r2: int, k: int|
        0 <= r2 < grm.num_rules() && 0 <= k < grm.prods_of(r2).len() && ready(d0, grm.prod_of(#[trigger] grm.prods_of(r2)[k].0 as int))
            implies cost_of(grm, tc, c1, r2, k) == cost_of(grm, tc, c0, r2, k)
                && (refers_unbounded(grm, c1, grm.prods_of(r2)[k].0 as int) == refers_unbounded(grm, c0, grm.prods_of(r2)[k].0 as int)) by {
        let p = grm.prods_of(r2)[k].0 as int;
        assert(p < grm.num_prods());
        assert forall|i: int| 0 <= i < grm.prod_of(p).len() implies match #[trigger] grm.prod_of(p)[i] {
            Symbol::Rule(q) => c0[q.0 as int] == c1[q.0 as int],
            Symbol::Token(_) => true,
        } by {
            assert(grm.symbol_ok(grm.prod_of(p)[i]));
            match grm.prod_of(p)[i] {
                Symbol::Rule(q) => {
                    assert(d0[q.0 as int]);
                },
                Symbol::Token(_) => {},
            }
        }
        lemma_prod_cost_frame(tc, c0, c1, grm.prod_of(p), grm.prod_of(p).len() as int);
        if refers_unbounded(grm, c1, p) {
            let i = choose|i: int| 0 <= i < grm.prod_of(p).len() && match #[trigger] grm.prod_of(p)[i] {
                Symbol::Rule(q) => c1[q.0 as int] == u16::MAX,
                Symbol::Token(_) => false,
            };
            let _ = grm.prod_of(p)[i];
        }
    }
    assert forall|r2: int|
        0 <= r2 < grm.num_rules() && #[trigger] d1[r2] && c1[r2] != u16::MAX implies bounded_ok(grm, tc, c1, r2)
            && forall|k: int| 0 <= k < grm.prods_of(r2).len() ==> ready(d1, grm.prod_of(#[trigger] grm.prods_of(r2)[k].0 as int)) by {
        assert forall|k: int| 0 <= k < grm.prods_of(r2).len() implies ready(d1, grm.prod_of(#[trigger] grm.prods_of(r2)[k].0 as int)) by {
            let p = grm.prods_of(r2)[k].0 as int;
            if r2 == r {
                assert(settles_at(grm, tc, c0, d0, r, c1[r]));
            }
            assert(ready(d0, grm.prod_of(p)));
            assert forall|i: int| 0 <= i < grm.prod_of(p).len() implies match #[trigger] grm.prod_of(p)[i] {
                Symbol::Rule(q) => d1[q.0 as int],
                Symbol::Token(_) => true,
            } by {
                assert(grm.symbol_ok(grm.prod_of(p)[i]));
            }
        }
        if r2 == r {
            assert(settles_at(grm, tc, c0, d0, r, c1[r]));
            assert forall|k: int| 0 <= k < grm.prods_of(r2).len() implies #[trigger] cost_of(grm, tc, c1, r2, k) <= c1[r2] by {
                assert(cost_of(grm, tc, c0, r2, k) <= c1[r]);
            }
            let kw = choose|k: int| 0 <= k < grm.prods_of(r2).len() && #[trigger] cost_of(grm, tc, c0, r2, k) == c1[r];
            assert(cost_of(grm, tc, c1, r2, kw) == c1[r2]);
            assert forall|k: int| 0 <= k < grm.prods_of(r2).len() implies !refers_unbounded(grm, c1, #[trigger] grm.prods_of(r2)[k].0 as int) by {
                assert(!refers_unbounded(grm, c0, grm.prods_of(r2)[k].0 as int));
            }
        } else {
            assert(bounded_ok(grm, tc, c0, r2));
            assert forall|k: int| 0 <= k < grm.prods_of(r2).len() implies #[trigger] cost_of(grm, tc, c1, r2, k) <= c1[r2] by {
                assert(cost_of(grm, tc, c0, r2, k) <= c0[r2]);
            }
            let kw = choose|k: int| 0 <= k < grm.prods_of(r2).len() && #[trigger] cost_of(grm, tc, c0, r2, k) == c0[r2];
            assert(cost_of(grm, tc, c1, r2, kw) == c1[r2]);
            assert forall|k: int| 0 <= k < grm.prods_of(r2).len() implies !refers_unbounded(grm, c1, #[trigger] grm.prods_of(r2)[k].0 as int) by {
                assert(!refers_unbounded(grm, c0, grm.prods_of(r2)[k].0 as int));
            }
        }
    }
    assert forall|r2: int|
        0 <= r2 < grm.num_rules() && #[trigger] d1[r2] && c1[r2] == u16::MAX implies grm.reaches(r2, r2) || exists|k: int|
            0 <= k < grm.prods_of(r2).len() && refers_unbounded(grm, c1, #[trigger] grm.prods_of(r2)[k].0 as int) by {
        if !grm.reaches(r2, r2) {
            let k = choose|k: int| 0 <= k < grm.prods_of(r2).len() && refers_unbounded(grm, c0, #[trigger] grm.prods_of(r2)[k].0 as int);
            assert(grm.prods_of(r2)[k].0 < grm.num_prods());
            assert(refers_unbounded(grm, c1, grm.prods_of(r2)[k].0 as int));
        }
    }
}

/// Marking every unsettled rule unbounded, where each is blocked on another unsettled rule,
/// completes the invariant of `rule_max_costs`.
proof fn lemma_max_stuck(grm: &YaccGrammar, tc: Seq<u8>, c0: Seq<u16>, d0: Seq<bool>, c1: Seq<u16>)
    requires
        grm.wf(),
        tc.len() >= grm.eof_token_idx.0,
        c0.len() == grm.num_rules(),
        d0.len() == grm.num_rules(),
        c1.len() == grm.num_rules(),
        forall|r2: int| 0 <= r2 < grm.num_rules() ==> #[trigger] c1[r2] == if !d0[r2] { u16::MAX } else { c0[r2] },
        forall|r2: int| 0 <= r2 < grm.num_rules() && !d0[r2] ==> #[trigger] max_blocked(grm, d0, c0, r2),
        forall|r2: int| 0 <= r2 < grm.num_rules() && grm.reaches(r2, r2) ==> #[trigger] d0[r2] && c0[r2] == u16::MAX,
        forall|r2: int|
            0 <= r2 < grm.num_rules() && #[trigger] d0[r2] && c0[r2] == u16::MAX ==> grm.reaches(r2, r2) || exists|k: int|
                0 <= k < grm.prods_of(r2).len() && refers_unbounded(grm, c0, #[trigger] grm.prods_of(r2)[k].0 as int),
        forall|r2: int|
            0 <= r2 < grm.num_rules() && #[trigger] d0[r2] && c0[r2] != u16::MAX ==> bounded_ok(grm, tc, c0, r2)
                && forall|k: int| 0 <= k < grm.prods_of(r2).len() ==> ready(d0, grm.prod_of(#[trigger] grm.prods_of(r2)[k].0 as int)),
    ensures
        max_costs_ok(grm, tc, c1),
{
    assert forall|p: int| 0 <= p < grm.num_prods() && refers_unbounded(grm, c0, p) implies refers_unbounded(grm, c1, p) by {
        let i = choose|i: int| 0 <= i < grm.prod_of(p).len() && match #[trigger] grm.prod_of(p)[i] {
            Symbol::Rule(q) => c0[q.0 as int] == u16::MAX,
            Symbol::Token(_) => false,
        };
        assert(grm.symbol_ok(grm.prod_of(p)[i]));
    }
    assert forall|r: int| 0 <= r < grm.num_rules() && grm.reaches(r, r) implies #[trigger] c1[r] == u16::MAX by {
        assert(d0[r]);
    }
    assert forall|r: int|
        0 <= r < grm.num_rules() && #[trigger] c1[r] == u16::MAX implies grm.reaches(r, r) || exists|k: int|
            0 <= k < grm.prods_of(r).len() && refers_unbounded(grm, c1, #[trigger] grm.prods_of(r)[k].0 as int) by {
        if d0[r] {
            if !grm.reaches(r, r) {
                let k = choose|k: int| 0 <= k < grm.prods_of(r).len() && refers_unbounded(grm, c0, #[trigger] grm.prods_of(r)[k].0 as int);
                assert(grm.prods_of(r)[k].0 < grm.num_prods());
            }
        } else {
            assert(max_blocked(grm, d0, c0, r));
            let k = choose|k: int| 0 <= k < grm.prods_of(r).len() && !ready(d0, grm.prod_of(#[trigger] grm.prods_of(r)[k].0 as int));
            let p = grm.prods_of(r)[k].0 as int;
            assert(p < grm.num_prods());
            let i = choose|i: int| 0 <= i < grm.prod_of(p).len() && !match #[trigger] grm.prod_of(p)[i] {
                Symbol::Rule(q) => d0[q.0 as int],
                Symbol::Token(_) => true,
            };
            assert(grm.symbol_ok(grm.prod_of(p)[i]));
            assert(refers_unbounded(grm, c1, p));
        }
    }
    assert forall|r: int| 0 <= r < grm.num_rules() && #[trigger] c1[r] != u16::MAX implies bounded_ok(grm, tc, c1, r) by {
        assert(d0[r]);
        assert forall|k: int| 0 <= k < grm.prods_of(r).len() implies cost_of(grm, tc, c1, r, k) == cost_of(grm, tc, c0, r, k)
            && refers_unbounded(grm, c1, grm.prods_of(r)[k].0 as int) == refers_unbounded(grm, c0, grm.prods_of(r)[k].0 as int) by {
            let p = grm.prods_of(r)[k].0 as int;
            assert(p < grm.num_prods());
            assert(ready(d0, grm.prod_of(p)));
            assert forall|i: int| 0 <= i < grm.prod_of(p).len() implies match #[trigger] grm.prod_of(p)[i] {
                Symbol::Rule(q) => c0[q.0 as int] == c1[q.0 as int],
                Symbol::Token(_) => true,
            } by {
                assert(grm.symbol_ok(grm.prod_of(p)[i]));
                match grm.prod_of(p)[i] {
                    Symbol::Rule(q) => {
                        assert(d0[q.0 as int]);
                    },
                    Symbol::Token(_) => {},
                }
            }
            lemma_prod_cost_frame(tc, c0, c1, grm.prod_of(p), grm.prod_of(p).len() as int);
            if refers_unbounded(grm, c1, p) {
                let i = choose|i: int| 0 <= i < grm.prod_of(p).len() && match #[trigger] grm.prod_of(p)[i] {
                    Symbol::Rule(q) => c1[q.0 as int] == u16::MAX,
                    Symbol::Token(_) => false,
                };
                let _ = grm.prod_of(p)[i];
            }
        }
        assert(bounded_ok(grm, tc, c0, r));
        assert forall|k: int| 0 <= k < grm.prods_of(r).len() implies #[trigger] cost_of(grm, tc, c1, r, k) <= c1[r] by {
            assert(cost_of(grm, tc, c0, r, k) <= c0[r]);
        }
        let kw = choose|k: int| 0 <= k < grm.prods_of(r).len() && #[trigger] cost_of(grm, tc, c0, r, k) == c0[r];
        assert(cost_of(grm, tc, c1, r, kw) == c1[r]);
        assert forall|k: int| 0 <= k < grm.prods_of(r).len() implies !refers_unbounded(grm, c1, #[trigger] grm.prods_of(r)[k].0 as int) by {
            assert(!refers_unbounded(grm, c0, grm.prods_of(r)[k].0 as int));
        }
    }
}

/// Return the cost of the most expensive sentence of each rule, `u16::MAX` standing for
/// "unbounded" (a rule that is recursive, or that refers to an unbounded rule). Fails where a
/// bounded cost does not fit below `u16::MAX`.
pub fn rule_max_costs(grm: &YaccGrammar, token_costs: &Vec<u8>) -> (r: Result<Vec<u16>, CostOverflow>)
    requires
        grm.wf(),
        token_costs@.len() >= grm.eof_token_idx.0,
    ensures
        r matches Ok(costs) ==> max_costs_ok(grm, token_costs@, costs@),
        r is Err ==> !exists|c: Seq<u16>| #[trigger] max_costs_ok(grm, token_costs@, c),
{
    let n = grm.rules_len.0 as usize;
    let mut costs: Vec<u16> = Vec::new();
    let mut done: Vec<bool> = Vec::new();
    let mut i: usize = 0;
    while i < n
        invariant
            grm.wf(),
            n == grm.num_rules(),
            0 <= i <= n,
            costs@.len() == i,
            done@.len() == i,
            forall|j: int| 0 <= j < i ==> (#[trigger] done@[j] <==> grm.reaches(j, j)) && (done@[j] <==> costs@[j] == u16::MAX) && (!done@[j] ==> costs@[j] == 0),
        decreases n - i,
    {
        if grm.has_path(RIdx(i as u32), RIdx(i as u32)) {
            costs.push(u16::MAX);
            done.push(true);
        } else {
            costs.push(0);
            done.push(false);
        }
        i += 1;
    }
    proof {
        assert forall|r: int| 0 <= r < n && grm.reaches(r, r) implies #[trigger] done@[r] && costs@[r] == u16::MAX by {
            assert(done@[r] <==> grm.reaches(r, r));
            assert(done@[r] <==> costs@[r] == u16::MAX);
        }
        assert forall|r: int| 0 <= r < n && #[trigger] done@[r] && costs@[r] != u16::MAX implies bounded_ok(grm, token_costs@, costs@, r)
            && forall|k: int| 0 <= k < grm.prods_of(r).len() ==> ready(done@, grm.prod_of(#[trigger] grm.prods_of(r)[k].0 as int)) by {}
        assert forall|c: Seq<u16>| #[trigger] max_costs_ok(grm, token_costs@, c) implies forall|q: int|
            0 <= q < grm.num_rules() && done@[q] ==> c[q] == costs@[q] by {
            assert forall|q: int| 0 <= q < grm.num_rules() && done@[q] implies c[q] == costs@[q] by {
                assert(done@[q] <==> grm.reaches(q, q));
                assert(done@[q] <==> costs@[q] == u16::MAX);
            }
        }
    }
    loop
        invariant
            grm.wf(),
            n == grm.num_rules(),
            token_costs@.len() >= grm.eof_token_idx.0,
            costs@.len() == n,
            done@.len() == n,
            forced(grm, token_costs@, done@, costs@),
            forall|r: int| 0 <= r < n && grm.reaches(r, r) ==> #[trigger] done@[r] && costs@[r] == u16::MAX,
            forall|r: int| 0 <= r < n && !#[trigger] done@[r] ==> costs@[r] == 0,
            forall|r: int|
                0 <= r < n && #[trigger] done@[r] && costs@[r] == u16::MAX ==> grm.reaches(r, r) || exists|k: int|
                    0 <= k < grm.prods_of(r).len() && refers_unbounded(grm, costs@, #[trigger] grm.prods_of(r)[k].0 as int),
            forall|r: int|
                0 <= r < n && #[trigger] done@[r] && costs@[r] != u16::MAX ==> bounded_ok(grm, token_costs@, costs@, r)
                    && forall|k: int| 0 <= k < grm.prods_of(r).len() ==> ready(done@, grm.prod_of(#[trigger] grm.prods_of(r)[k].0 as int)),
        decreases count_clear(done@),
    {
        let ghost d_start = done@;
        let ghost c_start = costs@;
        let mut progress = false;
        let mut r: usize = 0;
        while r < n
            invariant
                grm.wf(),
                n == grm.num_rules(),
                token_costs@.len() >= grm.eof_token_idx.0,
                costs@.len() == n,
                done@.len() == n,
                d_start.len() == n,
                0 <= r <= n,
                forced(grm, token_costs@, done@, costs@),
                forall|r2: int| 0 <= r2 < n && #[trigger] d_start[r2] ==> done@[r2],
                progress ==> exists|r2: int| 0 <= r2 < n && !d_start[r2] && #[trigger] done@[r2],
                !progress ==> done@ == d_start && costs@ == c_start,
                !progress ==> forall|r2: int| 0 <= r2 < r && !d_start[r2] ==> #[trigger] max_blocked(grm, done@, costs@, r2),
                forall|r2: int| 0 <= r2 < n && grm.reaches(r2, r2) ==> #[trigger] done@[r2] && costs@[r2] == u16::MAX,
                forall|r2: int| 0 <= r2 < n && !#[trigger] done@[r2] ==> costs@[r2] == 0,
                forall|r2: int|
                    0 <= r2 < n && #[trigger] done@[r2] && costs@[r2] == u16::MAX ==> grm.reaches(r2, r2) || exists|k: int|
                        0 <= k < grm.prods_of(r2).len() && refers_unbounded(grm, costs@, #[trigger] grm.prods_of(r2)[k].0 as int),
                forall|r2: int|
                    0 <= r2 < n && #[trigger] done@[r2] && costs@[r2] != u16::MAX ==> bounded_ok(grm, token_costs@, costs@, r2)
                        && forall|k: int| 0 <= k < grm.prods_of(r2).len() ==> ready(done@, grm.prod_of(#[trigger] grm.prods_of(r2)[k].0 as int)),
            decreases n - r,
        {
            if !done[r] {
                let step = settle_max(grm, token_costs, &costs, &done, r);
                match step {
                    Err(e) => {
                        proof {
                            lemma_no_max_table(grm, token_costs@, costs@, done@, r as int);
                        }
                        return Err(e);
                    },
                    Ok(None) => {
                        proof {
                            assert(max_blocked(grm, done@, costs@, r as int));
                        }
                    },
                    Ok(Some(c)) => {
                        let ghost c0 = costs@;
                        let ghost dn0 = done@;
                        let ghost was = progress;
                        costs.set(r, c);
                        done.set(r, true);
                        progress = true;
                        proof {
                            assert(costs@ =~= c0.update(r as int, costs@[r as int]));
                            lemma_max_step(grm, token_costs@, c0, dn0, costs@, done@, r as int);
                            lemma_forced_step(grm, token_costs@, c0, dn0, costs@, done@, r as int);
                            assert(!d_start[r as int] && done@[r as int]);
                        }
                    },
                }
            }
            r += 1;
        }
        if !progress {
            // Every rule left refers to another rule left; mark them all unbounded.
            let ghost c0 = costs@;
            let ghost dn0 = done@;
            proof {
                assert(done@ == d_start && costs@ == c_start);
                assert(forall|r2: int| 0 <= r2 < n && !dn0[r2] ==> #[trigger] max_blocked(grm, dn0, c0, r2));
            }
            let mut j: usize = 0;
            while j < n
                invariant
                    grm.wf(),
                    n == grm.num_rules(),
                    costs@.len() == n,
                    done@.len() == n,
                    c0.len() == n,
                    dn0.len() == n,
                    done@ == dn0,
                    0 <= j <= n,
                    forall|r2: int| 0 <= r2 < n ==> #[trigger] costs@[r2] == if !dn0[r2] && r2 < j { u16::MAX } else { c0[r2] },
                decreases n - j,
            {
                if !done[j] {
                    costs.set(j, u16::MAX);
                }
                j += 1;
            }
            proof {
                lemma_max_stuck(grm, token_costs@, c0, dn0, costs@);
            }
            return Ok(costs);
        }
        proof {
            let w = choose|r2: int| 0 <= r2 < n && !d_start[r2] && #[trigger] done@[r2];
            lemma_count_clear(d_start, done@);
        }
    }
}


/// The summed cost of the tokens of a sentence.
pub open spec fn tokens_cost(tc: Seq<u8>, s: Seq<TIdx>) -> int
    decreases s.len(),
{
    if s.len() == 0 {
        0
    } else {
        tokens_cost(tc, s.drop_last()) + tc[s.last().0 as int] as int
    }
}

proof fn lemma_tokens_cost_concat(tc: Seq<u8>, a: Seq<TIdx>, b: Seq<TIdx>)
    ensures
        tokens_cost(tc, a + b) == tokens_cost(tc, a) + tokens_cost(tc, b),
    decreases b.len(),
{
    if b.len() == 0 {
        assert(a + b =~= a);
    } else {
        lemma_tokens_cost_concat(tc, a, b.drop_last());
        assert((a + b).drop_last() =~= a + b.drop_last());
        assert((a + b).last() == b.last());
    }
}

/// Every token of `s` is a token of a grammar with `nt` tokens.
pub open spec fn tokens_in(s: Seq<TIdx>, nt: int) -> bool {
    forall|i: int| 0 <= i < s.len() ==> (#[trigger] s[i]).0 < nt
}

/// `a` followed by `b`.
fn concat(a: &Vec<TIdx>, b: &Vec<TIdx>) -> (r: Vec<TIdx>)
    ensures
        r@ == a@ + b@,
{
    let mut r: Vec<TIdx> = Vec::new();
    let mut i: usize = 0;
    while i < a.len()
        invariant
            0 <= i <= a@.len(),
            r@ == a@.subrange(0, i as int),
        decreases a@.len() - i,
    {
        r.push(a[i]);
        proof {
            assert(a@.subrange(0, i + 1) =~= a@.subrange(0, i as int).push(a@[i as int]));
        }
        i += 1;
    }
    let mut j: usize = 0;
    while j < b.len()
        invariant
            0 <= j <= b@.len(),
            r@ == a@ + b@.subrange(0, j as int),
        decreases b@.len() - j,
    {
        r.push(b[j]);
        proof {
            assert(a@ + b@.subrange(0, j + 1) =~= (a@ + b@.subrange(0, j as int)).push(b@[j as int]));
        }
        j += 1;
    }
    proof {
        assert(a@.subrange(0, a@.len() as int) =~= a@);
        assert(b@.subrange(0, b@.len() as int) =~= b@);
    }
    r
}

/// Return the cost of a minimal sentence for each rule, where `token_costs` gives the cost of
/// each token. Fails where some rule has no sentence whose cost fits in `u16`.
pub fn rule_min_costs(grm: &YaccGrammar, token_costs: &Vec<u8>) -> (r: Result<Vec<u16>, CostOverflow>)
    requires
        grm.wf(),
        token_costs@.len() >= grm.eof_token_idx.0,
    ensures
        match r {
            Ok(costs) => min_costs_exact(grm, token_costs@, costs@),
            Err(_) => exists|d: Seq<bool>, c: Seq<u16>| stuck(grm, token_costs@, d, c),
        },
{
    match min_costs_settled(grm, token_costs) {
        Ok(m) => {
            proof {
                lemma_min_exact(grm, token_costs@, &m);
            }
            Ok(m.costs)
        },
        Err(e) => Err(e),
    }
}

/// The symbols `syms` derive the sentence `s`, with rules nested at most `depth` deep.
pub open spec fn derives_seq(grm: &YaccGrammar, syms: Seq<Symbol>, s: Seq<TIdx>, depth: nat) -> bool
    decreases depth, syms.len(),
{
    if syms.len() == 0 {
        s.len() == 0
    } else {
        exists|i: int|
            0 <= i <= s.len() && derives_seq(grm, syms.drop_last(), #[trigger] s.subrange(0, i), depth) && match syms.last() {
                Symbol::Token(t) => s.subrange(i, s.len() as int) == seq![t],
                Symbol::Rule(q) => depth > 0 && exists|k: int|
                    0 <= k < grm.prods_of(q.0 as int).len() && derives_seq(
                        grm,
                        grm.prod_of((#[trigger] grm.prods_of(q.0 as int)[k]).0 as int),
                        s.subrange(i, s.len() as int),
                        (depth - 1) as nat,
                    ),
            }
    }
}

/// Rule `r` derives the sentence `s`, with rules nested at most `depth` deep.
pub open spec fn derives(grm: &YaccGrammar, r: int, s: Seq<TIdx>, depth: nat) -> bool {
    exists|k: int|
        0 <= k < grm.prods_of(r).len() && derives_seq(grm, grm.prod_of((#[trigger] grm.prods_of(r)[k]).0 as int), s, depth)
}

/// Rule `r` derives the sentence `s`.
pub open spec fn derivable(grm: &YaccGrammar, r: int, s: Seq<TIdx>) -> bool {
    exists|d: nat| derives(grm, r, s, d)
}

/// The symbols `syms` derive the sentence `s`.
pub open spec fn seq_derivable(grm: &YaccGrammar, syms: Seq<Symbol>, s: Seq<TIdx>) -> bool {
    exists|d: nat| derives_seq(grm, syms, s, d)
}

/// A derivation of `s` from a prefix, and of `t` from one more symbol, give one of `s + t`.
proof fn lemma_derivable_push(grm: &YaccGrammar, syms: Seq<Symbol>, x: Symbol, s: Seq<TIdx>, t: Seq<TIdx>)
    requires
        seq_derivable(grm, syms, s),
        match x {
            Symbol::Token(tk) => t == seq![tk],
            Symbol::Rule(q) => derivable(grm, q.0 as int, t),
        },
    ensures
        seq_derivable(grm, syms.push(x), s + t),
{
    let da = choose|d: nat| derives_seq(grm, syms, s, d);
    match x {
        Symbol::Token(_) => {
            lemma_derives_seq_push(grm, syms, x, s, t, da);
        },
        Symbol::Rule(q) => {
            let dq = choose|d: nat| derives(grm, q.0 as int, t, d);
            let kq = choose|k: int|
                0 <= k < grm.prods_of(q.0 as int).len() && derives_seq(grm, grm.prod_of((#[trigger] grm.prods_of(q.0 as int)[k]).0 as int), t, dq);
            let big = da + dq + 1;
            lemma_derives_seq_deeper(grm, syms, s, da, big as nat);
            lemma_derives_seq_deeper(grm, grm.prod_of(grm.prods_of(q.0 as int)[kq].0 as int), t, dq, (big - 1) as nat);
            assert(derives(grm, q.0 as int, t, (big - 1) as nat));
            lemma_derives_seq_push(grm, syms, x, s, t, big as nat);
        },
    }
}

proof fn lemma_derives_seq_deeper(grm: &YaccGrammar, syms: Seq<Symbol>, s: Seq<TIdx>, d: nat, e: nat)
    requires
        d <= e,
        derives_seq(grm, syms, s, d),
    ensures
        derives_seq(grm, syms, s, e),
    decreases d, syms.len(),
{
    if syms.len() > 0 {
        let i = choose|i: int|
            0 <= i <= s.len() && derives_seq(grm, syms.drop_last(), #[trigger] s.subrange(0, i), d) && match syms.last() {
                Symbol::Token(t) => s.subrange(i, s.len() as int) == seq![t],
                Symbol::Rule(q) => d > 0 && derives(grm, q.0 as int, s.subrange(i, s.len() as int), (d - 1) as nat),
            };
        assert(d > 0 ==> e > 0);
        lemma_derives_seq_deeper(grm, syms.drop_last(), s.subrange(0, i), d, e);
        match syms.last() {
            Symbol::Token(_) => {},
            Symbol::Rule(q) => {
                let rest = s.subrange(i, s.len() as int);
                let k = choose|k: int|
                    0 <= k < grm.prods_of(q.0 as int).len() && derives_seq(grm, grm.prod_of((#[trigger] grm.prods_of(q.0 as int)[k]).0 as int), rest, (d - 1) as nat);
                lemma_derives_seq_deeper(grm, grm.prod_of(grm.prods_of(q.0 as int)[k].0 as int), rest, (d - 1) as nat, (e - 1) as nat);
                assert(derives(grm, q.0 as int, rest, (e - 1) as nat));
            },
        }
        assert(derives_seq(grm, syms.drop_last(), s.subrange(0, i), e));
    }
}

/// Appending to a derived prefix the sentence derived by one more symbol.
proof fn lemma_derives_seq_push(grm: &YaccGrammar, syms: Seq<Symbol>, x: Symbol, s: Seq<TIdx>, t: Seq<TIdx>, d: nat)
    requires
        derives_seq(grm, syms, s, d),
        match x {
            Symbol::Token(tk) => t == seq![tk],
            Symbol::Rule(q) => d > 0 && derives(grm, q.0 as int, t, (d - 1) as nat),
        },
    ensures
        derives_seq(grm, syms.push(x), s + t, d),
{
    let ss = syms.push(x);
    let st = s + t;
    assert(ss.drop_last() =~= syms);
    assert(st.subrange(0, s.len() as int) =~= s);
    assert(st.subrange(s.len() as int, st.len() as int) =~= t);
    assert(derives_seq(grm, ss.drop_last(), st.subrange(0, s.len() as int), d));
}

/// The cheapest production that `best` picks for rule `r`.
pub open spec fn best_prod(grm: &YaccGrammar, best: Seq<usize>, r: int) -> Seq<Symbol> {
    grm.prod_of(grm.prods_of(r)[best[r] as int].0 as int)
}

/// The sentence of the first `i` symbols of `prod`, each rule expanded through the
/// productions that `best` picks, nested at most `fuel` deep.
pub open spec fn expand_seq(grm: &YaccGrammar, best: Seq<usize>, prod: Seq<Symbol>, i: int, fuel: nat) -> Seq<TIdx>
    decreases fuel, i,
{
    if i <= 0 {
        Seq::empty()
    } else {
        expand_seq(grm, best, prod, i - 1, fuel) + match prod[i - 1] {
            Symbol::Token(t) => seq![t],
            Symbol::Rule(q) => if fuel == 0 {
                Seq::empty()
            } else {
                expand_seq(
                    grm,
                    best,
                    best_prod(grm, best, q.0 as int),
                    best_prod(grm, best, q.0 as int).len() as int,
                    (fuel - 1) as nat,
                )
            },
        }
    }
}

/// The minimal sentence of rule `r` that the kept table `m` determines: its cheapest
/// production, with each rule in it expanded the same way.
pub open spec fn best_sentence(grm: &YaccGrammar, m: &MinCosts, r: int) -> Seq<TIdx> {
    expand_seq(grm, m.best@, best_prod(grm, m.best@, r), best_prod(grm, m.best@, r).len() as int, m.rank@[r] as nat)
}

/// Expanding with more fuel than a rule's rank changes nothing.
proof fn lemma_expand_stable(grm: &YaccGrammar, tc: Seq<u8>, m: &MinCosts, r: int, i: int, f: nat)
    requires
        grm.wf(),
        min_witness_ok(grm, tc, m),
        0 <= r < grm.num_rules(),
        0 <= i <= best_prod(grm, m.best@, r).len(),
        f >= m.rank@[r],
    ensures
        expand_seq(grm, m.best@, best_prod(grm, m.best@, r), i, f) == expand_seq(
            grm,
            m.best@,
            best_prod(grm, m.best@, r),
            i,
            m.rank@[r] as nat,
        ),
    decreases m.rank@[r], i,
{
    let prod = best_prod(grm, m.best@, r);
    if i > 0 {
        lemma_expand_stable(grm, tc, m, r, i - 1, f);
        assert(m.best@[r] < grm.prods_of(r).len());
        let p = grm.prods_of(r)[m.best@[r] as int].0 as int;
        assert(p < grm.num_prods());
        assert(grm.symbol_ok(grm.prod_of(p)[i - 1]));
        if let Symbol::Rule(q) = prod[i - 1] {
            assert(m.rank@[q.0 as int] < m.rank@[r]);
            let lq = best_prod(grm, m.best@, q.0 as int).len() as int;
            assert(m.best@[q.0 as int] < grm.prods_of(q.0 as int).len());
            lemma_expand_stable(grm, tc, m, q.0 as int, lq, (f - 1) as nat);
            lemma_expand_stable(grm, tc, m, q.0 as int, lq, (m.rank@[r] - 1) as nat);
        }
    }
}

/// The sentence that the kept table determines is derivable and costs the rule's minimum.
proof fn lemma_best_prefix(grm: &YaccGrammar, tc: Seq<u8>, m: &MinCosts, r: int, i: int)
    requires
        grm.wf(),
        min_witness_ok(grm, tc, m),
        0 <= r < grm.num_rules(),
        0 <= i <= best_prod(grm, m.best@, r).len(),
    ensures
        ({
            let s = expand_seq(grm, m.best@, best_prod(grm, m.best@, r), i, m.rank@[r] as nat);
            &&& tokens_cost(tc, s) == prod_cost(tc, m.costs@, best_prod(grm, m.best@, r), i)
            &&& derives_seq(grm, best_prod(grm, m.best@, r).subrange(0, i), s, m.rank@[r] as nat)
        }),
    decreases m.rank@[r], i,
{
    let prod = best_prod(grm, m.best@, r);
    let d = m.rank@[r] as nat;
    if i == 0 {
        assert(prod.subrange(0, 0) =~= Seq::<Symbol>::empty());
    } else {
        lemma_best_prefix(grm, tc, m, r, i - 1);
        let s0 = expand_seq(grm, m.best@, prod, i - 1, d);
        assert(m.best@[r] < grm.prods_of(r).len());
        let p = grm.prods_of(r)[m.best@[r] as int].0 as int;
        assert(p < grm.num_prods());
        assert(grm.symbol_ok(grm.prod_of(p)[i - 1]));
        assert(prod.subrange(0, i - 1).push(prod[i - 1]) =~= prod.subrange(0, i));
        match prod[i - 1] {
            Symbol::Token(t) => {
                let ts = seq![t];
                assert(ts.len() == 1 && ts.last() == t);
                assert(ts.drop_last() =~= Seq::<TIdx>::empty());
                assert(tokens_cost(tc, ts.drop_last()) == 0);
                assert(tokens_cost(tc, ts) == tc[t.0 as int] as int);
                lemma_tokens_cost_concat(tc, s0, seq![t]);
                lemma_derives_seq_push(grm, prod.subrange(0, i - 1), prod[i - 1], s0, seq![t], d);
                assert(expand_seq(grm, m.best@, prod, i, d) == s0 + seq![t]);
            },
            Symbol::Rule(q) => {
                let qi = q.0 as int;
                assert(m.rank@[qi] < m.rank@[r]);
                assert(m.best@[qi] < grm.prods_of(qi).len());
                let lq = best_prod(grm, m.best@, qi).len() as int;
                lemma_best_prefix(grm, tc, m, qi, lq);
                lemma_expand_stable(grm, tc, m, qi, lq, (d - 1) as nat);
                let sq = best_sentence(grm, m, qi);
                assert(best_prod(grm, m.best@, qi).subrange(0, lq) =~= best_prod(grm, m.best@, qi));
                assert(cost_of(grm, tc, m.costs@, qi, m.best@[qi] as int) == m.costs@[qi]);
                lemma_tokens_cost_concat(tc, s0, sq);
                lemma_derives_seq_deeper(grm, best_prod(grm, m.best@, qi), sq, m.rank@[qi] as nat, (d - 1) as nat);
                let _ = grm.prods_of(qi)[m.best@[qi] as int];
                assert(derives(grm, qi, sq, (d - 1) as nat));
                lemma_derives_seq_push(grm, prod.subrange(0, i - 1), prod[i - 1], s0, sq, d);
                assert(expand_seq(grm, m.best@, prod, i, d) == s0 + sq);
                assert(tokens_cost(tc, sq) == m.costs@[qi]);
            },
        }
    }
}

/// The sentence that the kept table determines for `r` derives from `r` and costs
/// `m.costs[r]`.
proof fn lemma_best_sentence(grm: &YaccGrammar, tc: Seq<u8>, m: &MinCosts, r: int)
    requires
        grm.wf(),
        min_witness_ok(grm, tc, m),
        0 <= r < grm.num_rules(),
    ensures
        derivable(grm, r, best_sentence(grm, m, r)),
        tokens_cost(tc, best_sentence(grm, m, r)) == m.costs@[r],
{
    assert(m.best@[r] < grm.prods_of(r).len());
    let prod = best_prod(grm, m.best@, r);
    lemma_best_prefix(grm, tc, m, r, prod.len() as int);
    assert(prod.subrange(0, prod.len() as int) =~= prod);
    let _ = grm.prods_of(r)[m.best@[r] as int];
    assert(derives(grm, r, best_sentence(grm, m, r), m.rank@[r] as nat));
}

/// `costs` holds, for each rule, the least cost of a sentence it derives: some derived
/// sentence costs exactly that, and none costs less.
pub open spec fn min_costs_exact(grm: &YaccGrammar, tc: Seq<u8>, costs: Seq<u16>) -> bool {
    &&& min_costs_ok(grm, tc, costs)
    &&& forall|r: int| 0 <= r < grm.num_rules() ==> #[trigger] has_sentence_costing(grm, tc, r, costs[r] as int)
    &&& forall|r: int, s: Seq<TIdx>|
        0 <= r < grm.num_rules() && #[trigger] derivable(grm, r, s) ==> tokens_cost(tc, s) >= costs[r]
}

/// Rule `r` derives a sentence that costs `c`.
pub open spec fn has_sentence_costing(grm: &YaccGrammar, tc: Seq<u8>, r: int, c: int) -> bool {
    exists|s: Seq<TIdx>| #[trigger] derivable(grm, r, s) && tokens_cost(tc, s) == c
}

/// A table with cheapest productions settled in order holds the exact minimum costs.
proof fn lemma_min_exact(grm: &YaccGrammar, tc: Seq<u8>, m: &MinCosts)
    requires
        grm.wf(),
        min_witness_ok(grm, tc, m),
    ensures
        min_costs_exact(grm, tc, m.costs@),
{
    assert forall|r: int| 0 <= r < grm.num_rules() implies #[trigger] has_sentence_costing(grm, tc, r, m.costs@[r] as int) by {
        lemma_best_sentence(grm, tc, m, r);
        assert(derivable(grm, r, best_sentence(grm, m, r)));
    }
    assert forall|r: int, s: Seq<TIdx>| 0 <= r < grm.num_rules() && #[trigger] derivable(grm, r, s) implies tokens_cost(tc, s) >= m.costs@[r] by {
        let d = choose|d: nat| derives(grm, r, s, d);
        let k = choose|k: int| 0 <= k < grm.prods_of(r).len() && derives_seq(grm, grm.prod_of((#[trigger] grm.prods_of(r)[k]).0 as int), s, d);
        let p = grm.prods_of(r)[k].0 as int;
        assert(p < grm.num_prods());
        assert forall|j: int| 0 <= j < grm.prod_of(p).len() implies grm.symbol_ok(#[trigger] grm.prod_of(p)[j]) by {}
        lemma_derived_cost_ge(grm, tc, m.costs@, grm.prod_of(p), s, d);
        assert(m.costs@[r] <= cost_of(grm, tc, m.costs@, r, k));
    }
}

/// Under costs that meet the minimum equations, no sentence derived from `syms` costs less
/// than the symbols' summed cost.
proof fn lemma_derived_cost_ge(grm: &YaccGrammar, tc: Seq<u8>, costs: Seq<u16>, syms: Seq<Symbol>, s: Seq<TIdx>, d: nat)
    requires
        grm.wf(),
        min_costs_ok(grm, tc, costs),
        derives_seq(grm, syms, s, d),
        forall|i: int| 0 <= i < syms.len() ==> grm.symbol_ok(#[trigger] syms[i]),
    ensures
        tokens_cost(tc, s) >= prod_cost(tc, costs, syms, syms.len() as int),
    decreases d, syms.len(),
{
    if syms.len() > 0 {
        let i = choose|i: int|
            0 <= i <= s.len() && derives_seq(grm, syms.drop_last(), #[trigger] s.subrange(0, i), d) && match syms.last() {
                Symbol::Token(t) => s.subrange(i, s.len() as int) == seq![t],
                Symbol::Rule(q) => d > 0 && derives(grm, q.0 as int, s.subrange(i, s.len() as int), (d - 1) as nat),
            };
        let a = s.subrange(0, i);
        let b = s.subrange(i, s.len() as int);
        assert(s =~= a + b);
        lemma_tokens_cost_concat(tc, a, b);
        assert forall|j: int| 0 <= j < syms.drop_last().len() implies grm.symbol_ok(#[trigger] syms.drop_last()[j]) by {
            assert(syms.drop_last()[j] == syms[j]);
        }
        lemma_derived_cost_ge(grm, tc, costs, syms.drop_last(), a, d);
        lemma_prod_cost_prefix(tc, costs, syms.drop_last(), syms, syms.len() - 1);
        assert(grm.symbol_ok(syms[syms.len() - 1]));
        match syms.last() {
            Symbol::Token(t) => {
                assert(b.drop_last() =~= Seq::<TIdx>::empty());
            },
            Symbol::Rule(q) => {
                let qi = q.0 as int;
                let k = choose|k: int|
                    0 <= k < grm.prods_of(qi).len() && derives_seq(grm, grm.prod_of((#[trigger] grm.prods_of(qi)[k]).0 as int), b, (d - 1) as nat);
                let p = grm.prods_of(qi)[k].0 as int;
                assert(p < grm.num_prods());
                assert forall|j: int| 0 <= j < grm.prod_of(p).len() implies grm.symbol_ok(#[trigger] grm.prod_of(p)[j]) by {}
                lemma_derived_cost_ge(grm, tc, costs, grm.prod_of(p), b, (d - 1) as nat);
                assert(costs[qi] <= cost_of(grm, tc, costs, qi, k));
            },
        }
    }
}

/// A production's cost over a prefix depends only on that prefix.
proof fn lemma_prod_cost_prefix(tc: Seq<u8>, costs: Seq<u16>, a: Seq<Symbol>, b: Seq<Symbol>, i: int)
    requires
        0 <= i <= a.len(),
        i <= b.len(),
        forall|j: int| 0 <= j < i ==> a[j] == b[j],
    ensures
        prod_cost(tc, costs, a, i) == prod_cost(tc, costs, b, i),
    decreases i,
{
    if i > 0 {
        lemma_prod_cost_prefix(tc, costs, a, b, i - 1);
    }
}

/// A minimal sentence of rule `r`: its cheapest production, with each rule in it expanded
/// the same way.
fn sentence_of(grm: &YaccGrammar, tc: &Vec<u8>, m: &MinCosts, r: usize) -> (s: Vec<TIdx>)
    requires
        grm.wf(),
        tc@.len() >= grm.eof_token_idx.0,
        min_witness_ok(grm, tc@, m),
        r < grm.num_rules(),
    ensures
        tokens_cost(tc@, s@) == m.costs@[r as int],
        tokens_in(s@, grm.num_tokens()),
        derives(grm, r as int, s@, m.rank@[r as int] as nat),
        s@ == best_sentence(grm, m, r as int),
    decreases m.rank@[r as int],
{
    let prods = grm.rule_to_prods(RIdx(r as u32));
    let bk = m.best[r];
    proof {
        assert(m.best@[r as int] < grm.prods_of(r as int).len());
        assert(prods@[bk as int].0 < grm.num_prods());
    }
    let prod = grm.prod(prods[bk]);
    let ghost p = prods@[bk as int].0 as int;
    let mut s: Vec<TIdx> = Vec::new();
    let mut i: usize = 0;
    proof {
        assert(prod@.subrange(0, 0) =~= Seq::<Symbol>::empty());
    }
    while i < prod.len()
        invariant
            grm.wf(),
            tc@.len() >= grm.eof_token_idx.0,
            min_witness_ok(grm, tc@, m),
            r < grm.num_rules(),
            bk == m.best@[r as int],
            p == grm.prods_of(r as int)[bk as int].0,
            prod@ == grm.prod_of(p),
            0 <= i <= prod@.len(),
            tokens_cost(tc@, s@) == prod_cost(tc@, m.costs@, prod@, i as int),
            tokens_in(s@, grm.num_tokens()),
            derives_seq(grm, prod@.subrange(0, i as int), s@, m.rank@[r as int] as nat),
            prod@ == best_prod(grm, m.best@, r as int),
            s@ == expand_seq(grm, m.best@, prod@, i as int, m.rank@[r as int] as nat),
        decreases prod@.len() - i,
    {
        proof {
            assert(grm.symbol_ok(grm.prod_of(p)[i as int]));
            assert(prod@.subrange(0, i + 1) =~= prod@.subrange(0, i as int).push(prod@[i as int]));
        }
        let ghost s0 = s@;
        match prod[i] {
            Symbol::Token(t) => {
                s.push(t);
                proof {
                    assert(s@.drop_last() =~= s0);
                    assert(s@ =~= s0 + seq![t]);
                    lemma_derives_seq_push(grm, prod@.subrange(0, i as int), prod@[i as int], s0, seq![t], m.rank@[r as int] as nat);
                }
            },
            Symbol::Rule(q) => {
                proof {
                    assert(m.rank@[q.0 as int] < m.rank@[r as int]);
                }
                let sub = sentence_of(grm, tc, m, q.0 as usize);
                s = concat(&s, &sub);
                proof {
                    lemma_tokens_cost_concat(tc@, s0, sub@);
                    let dq = m.rank@[q.0 as int] as nat;
                    let dr = (m.rank@[r as int] - 1) as nat;
                    let k = choose|k: int|
                        0 <= k < grm.prods_of(q.0 as int).len() && derives_seq(grm, grm.prod_of((#[trigger] grm.prods_of(q.0 as int)[k]).0 as int), sub@, dq);
                    lemma_derives_seq_deeper(grm, grm.prod_of(grm.prods_of(q.0 as int)[k].0 as int), sub@, dq, dr);
                    assert(derives(grm, q.0 as int, sub@, dr));
                    lemma_derives_seq_push(grm, prod@.subrange(0, i as int), prod@[i as int], s0, sub@, m.rank@[r as int] as nat);
                    assert(m.best@[q.0 as int] < grm.prods_of(q.0 as int).len());
                    lemma_expand_stable(grm, tc@, m, q.0 as int, best_prod(grm, m.best@, q.0 as int).len() as int, dr);
                }
            },
        }
        i += 1;
    }
    proof {
        assert(cost_of(grm, tc@, m.costs@, r as int, bk as int) == m.costs@[r as int]);
        assert(prod@.subrange(0, prod@.len() as int) =~= prod@);
        assert(derives_seq(grm, grm.prod_of(grm.prods_of(r as int)[bk as int].0 as int), s@, m.rank@[r as int] as nat));
    }
    s
}

/// The symbols `syms` derive `s` without using, along any branch, a rule marked in `path` or
/// a rule twice; nested at most `depth` deep.
pub open spec fn derives_seq_avoid(grm: &YaccGrammar, syms: Seq<Symbol>, s: Seq<TIdx>, depth: nat, path: Seq<bool>) -> bool
    decreases depth, syms.len(),
{
    if syms.len() == 0 {
        s.len() == 0
    } else {
        exists|i: int|
            0 <= i <= s.len() && derives_seq_avoid(grm, syms.drop_last(), #[trigger] s.subrange(0, i), depth, path) && match syms.last() {
                Symbol::Token(t) => s.subrange(i, s.len() as int) == seq![t],
                Symbol::Rule(q) => depth > 0 && !path[q.0 as int] && exists|k: int|
                    0 <= k < grm.prods_of(q.0 as int).len() && derives_seq_avoid(
                        grm,
                        grm.prod_of((#[trigger] grm.prods_of(q.0 as int)[k]).0 as int),
                        s.subrange(i, s.len() as int),
                        (depth - 1) as nat,
                        path.update(q.0 as int, true),
                    ),
            }
    }
}

/// The symbols `syms` derive `s`, avoiding `path` as `derives_seq_avoid` says.
pub open spec fn seq_derivable_avoid(grm: &YaccGrammar, syms: Seq<Symbol>, s: Seq<TIdx>, path: Seq<bool>) -> bool {
    exists|d: nat| derives_seq_avoid(grm, syms, s, d, path)
}

/// The `k`th production of rule `r` derives `s`, avoiding `path`.
pub open spec fn derives_via_avoid(grm: &YaccGrammar, r: int, k: int, s: Seq<TIdx>, path: Seq<bool>) -> bool {
    exists|d: nat| derives_seq_avoid(grm, grm.prod_of(grm.prods_of(r)[k].0 as int), s, d, path)
}

/// Rule `r` derives `s` with no rule marked in `path`, and no rule twice, along any branch.
pub open spec fn derivable_avoid(grm: &YaccGrammar, r: int, s: Seq<TIdx>, path: Seq<bool>) -> bool {
    exists|k: int| 0 <= k < grm.prods_of(r).len() && #[trigger] derives_via_avoid(grm, r, k, s, path.update(r, true))
}

proof fn lemma_avoid_deeper(grm: &YaccGrammar, syms: Seq<Symbol>, s: Seq<TIdx>, d: nat, e: nat, path: Seq<bool>)
    requires
        d <= e,
        derives_seq_avoid(grm, syms, s, d, path),
    ensures
        derives_seq_avoid(grm, syms, s, e, path),
    decreases d, syms.len(),
{
    if syms.len() > 0 {
        let i = choose|i: int|
            0 <= i <= s.len() && derives_seq_avoid(grm, syms.drop_last(), #[trigger] s.subrange(0, i), d, path) && match syms.last() {
                Symbol::Token(t) => s.subrange(i, s.len() as int) == seq![t],
                Symbol::Rule(q) => d > 0 && !path[q.0 as int] && exists|k: int|
                    0 <= k < grm.prods_of(q.0 as int).len() && derives_seq_avoid(grm, grm.prod_of((#[trigger] grm.prods_of(q.0 as int)[k]).0 as int), s.subrange(i, s.len() as int), (d - 1) as nat, path.update(q.0 as int, true)),
            };
        assert(d > 0 ==> e > 0);
        lemma_avoid_deeper(grm, syms.drop_last(), s.subrange(0, i), d, e, path);
        match syms.last() {
            Symbol::Token(_) => {},
            Symbol::Rule(q) => {
                let rest = s.subrange(i, s.len() as int);
                let pq = path.update(q.0 as int, true);
                let k = choose|k: int|
                    0 <= k < grm.prods_of(q.0 as int).len() && derives_seq_avoid(grm, grm.prod_of((#[trigger] grm.prods_of(q.0 as int)[k]).0 as int), rest, (d - 1) as nat, pq);
                lemma_avoid_deeper(grm, grm.prod_of(grm.prods_of(q.0 as int)[k].0 as int), rest, (d - 1) as nat, (e - 1) as nat, pq);
            },
        }
        assert(derives_seq_avoid(grm, syms.drop_last(), s.subrange(0, i), e, path));
    }
}

/// A derivation that avoids a path is a derivation.
proof fn lemma_avoid_plain(grm: &YaccGrammar, syms: Seq<Symbol>, s: Seq<TIdx>, d: nat, path: Seq<bool>)
    requires
        derives_seq_avoid(grm, syms, s, d, path),
    ensures
        derives_seq(grm, syms, s, d),
    decreases d, syms.len(),
{
    if syms.len() > 0 {
        let i = choose|i: int|
            0 <= i <= s.len() && derives_seq_avoid(grm, syms.drop_last(), #[trigger] s.subrange(0, i), d, path) && match syms.last() {
                Symbol::Token(t) => s.subrange(i, s.len() as int) == seq![t],
                Symbol::Rule(q) => d > 0 && !path[q.0 as int] && exists|k: int|
                    0 <= k < grm.prods_of(q.0 as int).len() && derives_seq_avoid(grm, grm.prod_of((#[trigger] grm.prods_of(q.0 as int)[k]).0 as int), s.subrange(i, s.len() as int), (d - 1) as nat, path.update(q.0 as int, true)),
            };
        lemma_avoid_plain(grm, syms.drop_last(), s.subrange(0, i), d, path);
        match syms.last() {
            Symbol::Token(_) => {},
            Symbol::Rule(q) => {
                let rest = s.subrange(i, s.len() as int);
                let pq = path.update(q.0 as int, true);
                let k = choose|k: int|
                    0 <= k < grm.prods_of(q.0 as int).len() && derives_seq_avoid(grm, grm.prod_of((#[trigger] grm.prods_of(q.0 as int)[k]).0 as int), rest, (d - 1) as nat, pq);
                lemma_avoid_plain(grm, grm.prod_of(grm.prods_of(q.0 as int)[k].0 as int), rest, (d - 1) as nat, pq);
                assert(derives(grm, q.0 as int, rest, (d - 1) as nat));
            },
        }
        assert(derives_seq(grm, syms.drop_last(), s.subrange(0, i), d));
    }
}

/// Appending to an avoiding derivation of a prefix an avoiding derivation of one more symbol.
proof fn lemma_avoid_push(grm: &YaccGrammar, syms: Seq<Symbol>, x: Symbol, s: Seq<TIdx>, t: Seq<TIdx>, d: nat, path: Seq<bool>)
    requires
        derives_seq_avoid(grm, syms, s, d, path),
        match x {
            Symbol::Token(tk) => t == seq![tk],
            Symbol::Rule(q) => d > 0 && !path[q.0 as int] && exists|k: int|
                0 <= k < grm.prods_of(q.0 as int).len() && derives_seq_avoid(grm, grm.prod_of((#[trigger] grm.prods_of(q.0 as int)[k]).0 as int), t, (d - 1) as nat, path.update(q.0 as int, true)),
        },
    ensures
        derives_seq_avoid(grm, syms.push(x), s + t, d, path),
{
    let ss = syms.push(x);
    let st = s + t;
    assert(ss.drop_last() =~= syms);
    assert(st.subrange(0, s.len() as int) =~= s);
    assert(st.subrange(s.len() as int, st.len() as int) =~= t);
    assert(derives_seq_avoid(grm, ss.drop_last(), st.subrange(0, s.len() as int), d, path));
}

/// The existential form of `lemma_avoid_push`.
proof fn lemma_avoid_push_any(grm: &YaccGrammar, syms: Seq<Symbol>, x: Symbol, s: Seq<TIdx>, t: Seq<TIdx>, path: Seq<bool>)
    requires
        seq_derivable_avoid(grm, syms, s, path),
        match x {
            Symbol::Token(tk) => t == seq![tk],
            Symbol::Rule(q) => !path[q.0 as int] && derivable_avoid(grm, q.0 as int, t, path),
        },
    ensures
        seq_derivable_avoid(grm, syms.push(x), s + t, path),
{
    let da = choose|d: nat| derives_seq_avoid(grm, syms, s, d, path);
    match x {
        Symbol::Token(_) => {
            lemma_avoid_push(grm, syms, x, s, t, da, path);
        },
        Symbol::Rule(q) => {
            let qi = q.0 as int;
            let pq = path.update(qi, true);
            let k = choose|k: int| 0 <= k < grm.prods_of(qi).len() && #[trigger] derives_via_avoid(grm, qi, k, t, pq);
            let dq = choose|d: nat| derives_seq_avoid(grm, grm.prod_of(grm.prods_of(qi)[k].0 as int), t, d, pq);
            let big = da + dq + 1;
            lemma_avoid_deeper(grm, syms, s, da, big as nat, path);
            lemma_avoid_deeper(grm, grm.prod_of(grm.prods_of(qi)[k].0 as int), t, dq, (big - 1) as nat, pq);
            lemma_avoid_push(grm, syms, x, s, t, big as nat, path);
        },
    }
}

/// `lemma_split_min` for derivations that avoid a path.
proof fn lemma_split_min_avoid(grm: &YaccGrammar, tc: Seq<u8>, costs: Seq<u16>, prod: Seq<Symbol>, i: int, t: Seq<TIdx>, path: Seq<bool>) -> (j: int)
    requires
        grm.wf(),
        min_costs_ok(grm, tc, costs),
        0 <= i < prod.len(),
        forall|x: int| 0 <= x < prod.len() ==> grm.symbol_ok(#[trigger] prod[x]),
        seq_derivable_avoid(grm, prod.subrange(0, i + 1), t, path),
        tokens_cost(tc, t) == prod_cost(tc, costs, prod, i + 1),
    ensures
        0 <= j <= t.len(),
        seq_derivable_avoid(grm, prod.subrange(0, i), t.subrange(0, j), path),
        tokens_cost(tc, t.subrange(0, j)) == prod_cost(tc, costs, prod, i),
        match prod[i] {
            Symbol::Token(tk) => t.subrange(j, t.len() as int) == seq![tk],
            Symbol::Rule(q) => !path[q.0 as int] && derivable_avoid(grm, q.0 as int, t.subrange(j, t.len() as int), path)
                && tokens_cost(tc, t.subrange(j, t.len() as int)) == costs[q.0 as int],
        },
{
    let pre = prod.subrange(0, i + 1);
    let d = choose|d: nat| derives_seq_avoid(grm, pre, t, d, path);
    assert(pre.drop_last() =~= prod.subrange(0, i));
    assert(pre.last() == prod[i]);
    let j = choose|j: int|
        0 <= j <= t.len() && derives_seq_avoid(grm, pre.drop_last(), #[trigger] t.subrange(0, j), d, path) && match pre.last() {
            Symbol::Token(tk) => t.subrange(j, t.len() as int) == seq![tk],
            Symbol::Rule(q) => d > 0 && !path[q.0 as int] && exists|k: int|
                0 <= k < grm.prods_of(q.0 as int).len() && derives_seq_avoid(grm, grm.prod_of((#[trigger] grm.prods_of(q.0 as int)[k]).0 as int), t.subrange(j, t.len() as int), (d - 1) as nat, path.update(q.0 as int, true)),
        };
    let a = t.subrange(0, j);
    let b = t.subrange(j, t.len() as int);
    assert(t =~= a + b);
    lemma_tokens_cost_concat(tc, a, b);
    let pi = prod.subrange(0, i);
    assert forall|x: int| 0 <= x < pi.len() implies grm.symbol_ok(#[trigger] pi[x]) by {
        assert(pi[x] == prod[x]);
    }
    lemma_avoid_plain(grm, pi, a, d, path);
    lemma_derived_cost_ge(grm, tc, costs, pi, a, d);
    lemma_prod_cost_prefix(tc, costs, pi, prod, i);
    assert(grm.symbol_ok(prod[i]));
    match prod[i] {
        Symbol::Token(tk) => {
            let ts = seq![tk];
            assert(ts.drop_last() =~= Seq::<TIdx>::empty());
            assert(tokens_cost(tc, ts.drop_last()) == 0);
            assert(tokens_cost(tc, b) == tc[tk.0 as int] as int);
        },
        Symbol::Rule(q) => {
            let qi = q.0 as int;
            let pq = path.update(qi, true);
            let k = choose|k: int|
                0 <= k < grm.prods_of(qi).len() && derives_seq_avoid(grm, grm.prod_of((#[trigger] grm.prods_of(qi)[k]).0 as int), b, (d - 1) as nat, pq);
            let p = grm.prods_of(qi)[k].0 as int;
            assert(p < grm.num_prods());
            assert forall|x: int| 0 <= x < grm.prod_of(p).len() implies grm.symbol_ok(#[trigger] grm.prod_of(p)[x]) by {}
            lemma_avoid_plain(grm, grm.prod_of(p), b, (d - 1) as nat, pq);
            lemma_derived_cost_ge(grm, tc, costs, grm.prod_of(p), b, (d - 1) as nat);
            assert(costs[qi] <= cost_of(grm, tc, costs, qi, k));
            assert(derives_via_avoid(grm, qi, k, b, pq));
        },
    }
    assert(seq_derivable_avoid(grm, pi, a, path));
    j
}

/// Every token that can stand in a production costs more than nothing.
pub open spec fn positive_costs(grm: &YaccGrammar, tc: Seq<u8>) -> bool {
    forall|t: int| 0 <= t < grm.eof_token_idx.0 ==> #[trigger] tc[t] > 0
}

/// `u` occurs in `w` as a contiguous piece.
pub open spec fn within(u: Seq<TIdx>, w: Seq<TIdx>) -> bool {
    exists|i: int| 0 <= i && i + u.len() <= w.len() && #[trigger] w.subrange(i, i + u.len()) == u
}

/// The least nesting depth at which rule `r` derives `s`.
pub open spec fn min_depth(grm: &YaccGrammar, r: int, s: Seq<TIdx>) -> nat {
    choose|d: nat| derives(grm, r, s, d) && forall|e: nat| e < d ==> !#[trigger] derives(grm, r, s, e)
}

proof fn lemma_min_depth(grm: &YaccGrammar, r: int, s: Seq<TIdx>, d: nat)
    requires
        derives(grm, r, s, d),
    ensures
        derives(grm, r, s, min_depth(grm, r, s)),
        min_depth(grm, r, s) <= d,
    decreases d,
{
    if exists|e: nat| e < d && #[trigger] derives(grm, r, s, e) {
        let e = choose|e: nat| e < d && #[trigger] derives(grm, r, s, e);
        lemma_min_depth(grm, r, s, e);
    } else {
        assert(derives(grm, r, s, d) && forall|e: nat| e < d ==> !#[trigger] derives(grm, r, s, e));
        let m = min_depth(grm, r, s);
        if m > d {
            assert(!derives(grm, r, s, d));
        }
    }
}

proof fn lemma_tokens_cost_ge_len(grm: &YaccGrammar, tc: Seq<u8>, s: Seq<TIdx>)
    requires
        positive_costs(grm, tc),
        tokens_in(s, grm.eof_token_idx.0 as int),
    ensures
        tokens_cost(tc, s) >= s.len(),
    decreases s.len(),
{
    if s.len() > 0 {
        assert forall|i: int| 0 <= i < s.drop_last().len() implies (#[trigger] s.drop_last()[i]).0 < grm.eof_token_idx.0 by {
            assert(s.drop_last()[i] == s[i]);
        }
        lemma_tokens_cost_ge_len(grm, tc, s.drop_last());
        assert(s[s.len() - 1].0 < grm.eof_token_idx.0);
        assert(tc[s.last().0 as int] > 0);
    }
}

/// A piece of `w` that costs as much as `w` is all of it.
proof fn lemma_within_equal_cost(grm: &YaccGrammar, tc: Seq<u8>, u: Seq<TIdx>, w: Seq<TIdx>)
    requires
        positive_costs(grm, tc),
        tokens_in(w, grm.eof_token_idx.0 as int),
        within(u, w),
        tokens_cost(tc, u) == tokens_cost(tc, w),
    ensures
        u == w,
{
    let i = choose|i: int| 0 <= i && i + u.len() <= w.len() && #[trigger] w.subrange(i, i + u.len()) == u;
    let a = w.subrange(0, i);
    let c = w.subrange(i + u.len(), w.len() as int);
    assert(w =~= a + u + c);
    lemma_tokens_cost_concat(tc, a + u, c);
    lemma_tokens_cost_concat(tc, a, u);
    assert forall|x: int| 0 <= x < a.len() implies (#[trigger] a[x]).0 < grm.eof_token_idx.0 by {
        assert(a[x] == w[x]);
    }
    assert forall|x: int| 0 <= x < c.len() implies (#[trigger] c[x]).0 < grm.eof_token_idx.0 by {
        assert(c[x] == w[i + u.len() + x]);
    }
    lemma_tokens_cost_ge_len(grm, tc, a);
    lemma_tokens_cost_ge_len(grm, tc, c);
    assert(a.len() == 0 && c.len() == 0);
    assert(w =~= u);
}

proof fn lemma_within_trans(u: Seq<TIdx>, v: Seq<TIdx>, w: Seq<TIdx>)
    requires
        within(u, v),
        within(v, w),
    ensures
        within(u, w),
{
    let i = choose|i: int| 0 <= i && i + u.len() <= v.len() && #[trigger] v.subrange(i, i + u.len()) == u;
    let j = choose|j: int| 0 <= j && j + v.len() <= w.len() && #[trigger] w.subrange(j, j + v.len()) == v;
    assert(w.subrange(j + i, j + i + u.len()) =~= v.subrange(i, i + u.len()));
}

/// The tokens of a derived sentence are tokens that can stand in a production.
proof fn lemma_derived_tokens(grm: &YaccGrammar, syms: Seq<Symbol>, s: Seq<TIdx>, d: nat)
    requires
        grm.wf(),
        derives_seq(grm, syms, s, d),
        forall|i: int| 0 <= i < syms.len() ==> grm.symbol_ok(#[trigger] syms[i]),
    ensures
        tokens_in(s, grm.eof_token_idx.0 as int),
    decreases d, syms.len(),
{
    if syms.len() > 0 {
        let i = choose|i: int|
            0 <= i <= s.len() && derives_seq(grm, syms.drop_last(), #[trigger] s.subrange(0, i), d) && match syms.last() {
                Symbol::Token(t) => s.subrange(i, s.len() as int) == seq![t],
                Symbol::Rule(q) => d > 0 && derives(grm, q.0 as int, s.subrange(i, s.len() as int), (d - 1) as nat),
            };
        let a = s.subrange(0, i);
        let b = s.subrange(i, s.len() as int);
        assert forall|j: int| 0 <= j < syms.drop_last().len() implies grm.symbol_ok(#[trigger] syms.drop_last()[j]) by {
            assert(syms.drop_last()[j] == syms[j]);
        }
        lemma_derived_tokens(grm, syms.drop_last(), a, d);
        assert(grm.symbol_ok(syms[syms.len() - 1]));
        match syms.last() {
            Symbol::Token(t) => {
                assert(b.len() == 1 && b[0] == t);
                assert(syms.last() == syms[syms.len() - 1]);
            },
            Symbol::Rule(q) => {
                let qi = q.0 as int;
                let k = choose|k: int|
                    0 <= k < grm.prods_of(qi).len() && derives_seq(grm, grm.prod_of((#[trigger] grm.prods_of(qi)[k]).0 as int), b, (d - 1) as nat);
                let p = grm.prods_of(qi)[k].0 as int;
                assert(p < grm.num_prods());
                assert forall|x: int| 0 <= x < grm.prod_of(p).len() implies grm.symbol_ok(#[trigger] grm.prod_of(p)[x]) by {}
                lemma_derived_tokens(grm, grm.prod_of(p), b, (d - 1) as nat);
            },
        }
        assert forall|j: int| 0 <= j < s.len() implies (#[trigger] s[j]).0 < grm.eof_token_idx.0 by {
            if j < i {
                assert(s[j] == a[j]);
            } else {
                assert(s[j] == b[j - i]);
            }
        }
    }
}

proof fn lemma_derivable_tokens(grm: &YaccGrammar, r: int, s: Seq<TIdx>)
    requires
        grm.wf(),
        0 <= r < grm.num_rules(),
        derivable(grm, r, s),
    ensures
        tokens_in(s, grm.eof_token_idx.0 as int),
{
    let d = choose|d: nat| derives(grm, r, s, d);
    let k = choose|k: int| 0 <= k < grm.prods_of(r).len() && derives_seq(grm, grm.prod_of((#[trigger] grm.prods_of(r)[k]).0 as int), s, d);
    let p = grm.prods_of(r)[k].0 as int;
    assert(p < grm.num_prods());
    assert forall|x: int| 0 <= x < grm.prod_of(p).len() implies grm.symbol_ok(#[trigger] grm.prod_of(p)[x]) by {}
    lemma_derived_tokens(grm, grm.prod_of(p), s, d);
}

/// The rules marked in `path` are those above a minimal sentence `s` of `r` in a derivation:
/// each has a minimal sentence `anc[x]` that holds `s` and needs a deeper derivation.
pub open spec fn ancestors_ok(grm: &YaccGrammar, tc: Seq<u8>, costs: Seq<u16>, path: Seq<bool>, anc: Seq<Seq<TIdx>>, r: int, s: Seq<TIdx>) -> bool {
    forall|x: int|
        0 <= x < grm.num_rules() && #[trigger] path[x] ==> {
            &&& within(s, anc[x])
            &&& tokens_cost(tc, anc[x]) == costs[x]
            &&& derivable(grm, x, anc[x])
            &&& min_depth(grm, x, anc[x]) > min_depth(grm, r, s)
        }
}

/// With positive token costs, a minimal sentence of `r` has a derivation in which no rule
/// repeats along a branch, and none marked in `path` (the rules above it) appears.
#[verifier::rlimit(100)]
#[verifier::spinoff_prover]
proof fn lemma_avoid_exists(grm: &YaccGrammar, tc: Seq<u8>, costs: Seq<u16>, r: int, s: Seq<TIdx>, path: Seq<bool>, anc: Seq<Seq<TIdx>>)
    requires
        grm.wf(),
        positive_costs(grm, tc),
        min_costs_ok(grm, tc, costs),
        0 <= r < grm.num_rules(),
        derivable(grm, r, s),
        tokens_cost(tc, s) == costs[r],
        path.len() == grm.num_rules(),
        anc.len() == grm.num_rules(),
        !path[r],
        ancestors_ok(grm, tc, costs, path, anc, r, s),
    ensures
        derivable_avoid(grm, r, s, path),
    decreases min_depth(grm, r, s), 1nat, 0int,
{
    let d = choose|d: nat| derives(grm, r, s, d);
    lemma_min_depth(grm, r, s, d);
    let m = min_depth(grm, r, s);
    let k = choose|k: int| 0 <= k < grm.prods_of(r).len() && derives_seq(grm, grm.prod_of((#[trigger] grm.prods_of(r)[k]).0 as int), s, m);
    let p = grm.prods_of(r)[k].0 as int;
    assert(p < grm.num_prods());
    let prod = grm.prod_of(p);
    assert forall|x: int| 0 <= x < prod.len() implies grm.symbol_ok(#[trigger] prod[x]) by {}
    lemma_derived_cost_ge(grm, tc, costs, prod, s, m);
    assert(costs[r] <= cost_of(grm, tc, costs, r, k));
    assert(prod.subrange(0, prod.len() as int) =~= prod);
    assert(s.subrange(0, s.len() as int) =~= s);
    assert(s.subrange(0, 0 + s.len() as int) =~= s);
    assert(within(s, s));
    lemma_avoid_prefix(grm, tc, costs, r, s, path, anc, k, prod.len() as int, s);
    let dd = choose|dd: nat| derives_seq_avoid(grm, prod.subrange(0, prod.len() as int), s, dd, path.update(r, true));
    assert(derives_via_avoid(grm, r, k, s, path.update(r, true)));
}

#[verifier::rlimit(100)]
#[verifier::spinoff_prover]
proof fn lemma_avoid_prefix(
    grm: &YaccGrammar,
    tc: Seq<u8>,
    costs: Seq<u16>,
    r: int,
    s: Seq<TIdx>,
    path: Seq<bool>,
    anc: Seq<Seq<TIdx>>,
    k: int,
    i: int,
    t: Seq<TIdx>,
)
    requires
        grm.wf(),
        positive_costs(grm, tc),
        min_costs_ok(grm, tc, costs),
        0 <= r < grm.num_rules(),
        derivable(grm, r, s),
        derives(grm, r, s, min_depth(grm, r, s)),
        tokens_cost(tc, s) == costs[r],
        path.len() == grm.num_rules(),
        anc.len() == grm.num_rules(),
        !path[r],
        ancestors_ok(grm, tc, costs, path, anc, r, s),
        0 <= k < grm.prods_of(r).len(),
        0 <= i <= grm.prod_of(grm.prods_of(r)[k].0 as int).len(),
        derives_seq(grm, grm.prod_of(grm.prods_of(r)[k].0 as int).subrange(0, i), t, min_depth(grm, r, s)),
        tokens_cost(tc, t) == prod_cost(tc, costs, grm.prod_of(grm.prods_of(r)[k].0 as int), i),
        within(t, s),
    ensures
        seq_derivable_avoid(grm, grm.prod_of(grm.prods_of(r)[k].0 as int).subrange(0, i), t, path.update(r, true)),
    decreases min_depth(grm, r, s), 0nat, i,
{
    let m = min_depth(grm, r, s);
    let p = grm.prods_of(r)[k].0 as int;
    assert(p < grm.num_prods());
    let prod = grm.prod_of(p);
    let pr = path.update(r, true);
    let pre = prod.subrange(0, i);
    if i == 0 {
        assert(derives_seq_avoid(grm, pre, t, 0, pr));
    } else {
        assert(pre.drop_last() =~= prod.subrange(0, i - 1));
        assert(pre.last() == prod[i - 1]);
        let j = choose|j: int|
            0 <= j <= t.len() && derives_seq(grm, pre.drop_last(), #[trigger] t.subrange(0, j), m) && match pre.last() {
                Symbol::Token(tk) => t.subrange(j, t.len() as int) == seq![tk],
                Symbol::Rule(q) => m > 0 && derives(grm, q.0 as int, t.subrange(j, t.len() as int), (m - 1) as nat),
            };
        let a = t.subrange(0, j);
        let b = t.subrange(j, t.len() as int);
        assert(t =~= a + b);
        lemma_tokens_cost_concat(tc, a, b);
        let pi = prod.subrange(0, i - 1);
        assert forall|x: int| 0 <= x < pi.len() implies grm.symbol_ok(#[trigger] pi[x]) by {
            assert(pi[x] == prod[x]);
        }
        lemma_derived_cost_ge(grm, tc, costs, pi, a, m);
        lemma_prod_cost_prefix(tc, costs, pi, prod, i - 1);
        assert(grm.symbol_ok(prod[i - 1]));
        assert(within(a, t)) by {
            assert(t.subrange(0, a.len() as int) =~= a);
        }
        assert(within(b, t)) by {
            assert(t.subrange(j, j + b.len()) =~= b);
        }
        lemma_within_trans(a, t, s);
        lemma_within_trans(b, t, s);
        lemma_derivable_tokens(grm, r, s);
        match prod[i - 1] {
            Symbol::Token(tk) => {
                let ts = seq![tk];
                assert(ts.drop_last() =~= Seq::<TIdx>::empty());
                assert(tokens_cost(tc, ts.drop_last()) == 0);
                assert(tokens_cost(tc, b) == tc[tk.0 as int] as int);
                lemma_avoid_prefix(grm, tc, costs, r, s, path, anc, k, i - 1, a);
                lemma_avoid_push_any(grm, pi, prod[i - 1], a, b, pr);
            },
            Symbol::Rule(q) => {
                let qi = q.0 as int;
                let kq = choose|kk: int|
                    0 <= kk < grm.prods_of(qi).len() && derives_seq(grm, grm.prod_of((#[trigger] grm.prods_of(qi)[kk]).0 as int), b, (m - 1) as nat);
                let pq = grm.prods_of(qi)[kq].0 as int;
                assert(pq < grm.num_prods());
                assert forall|x: int| 0 <= x < grm.prod_of(pq).len() implies grm.symbol_ok(#[trigger] grm.prod_of(pq)[x]) by {}
                lemma_derived_cost_ge(grm, tc, costs, grm.prod_of(pq), b, (m - 1) as nat);
                assert(costs[qi] <= cost_of(grm, tc, costs, qi, kq));
                assert(tokens_cost(tc, b) == costs[qi]);
                assert(tokens_cost(tc, a) == prod_cost(tc, costs, pi, i - 1));
                lemma_avoid_prefix(grm, tc, costs, r, s, path, anc, k, i - 1, a);
                assert(derives(grm, qi, b, (m - 1) as nat));
                assert(derivable(grm, qi, b));
                lemma_min_depth(grm, qi, b, (m - 1) as nat);
                let mq = min_depth(grm, qi, b);
                if qi == r {
                    lemma_within_equal_cost(grm, tc, b, s);
                    assert(false);
                }
                if path[qi] {
                    let w = anc[qi];
                    lemma_within_trans(b, s, w);
                    lemma_derivable_tokens(grm, qi, w);
                    lemma_within_equal_cost(grm, tc, b, w);
                    assert(false);
                }
                let anc2 = anc.update(r, s);
                assert forall|x: int| 0 <= x < grm.num_rules() && #[trigger] pr[x] implies {
                    &&& within(b, anc2[x])
                    &&& tokens_cost(tc, anc2[x]) == costs[x]
                    &&& derivable(grm, x, anc2[x])
                    &&& min_depth(grm, x, anc2[x]) > mq
                } by {
                    if x != r {
                        assert(path[x]);
                        lemma_within_trans(b, s, anc[x]);
                    }
                }
                lemma_avoid_exists(grm, tc, costs, qi, b, pr, anc2);
                lemma_avoid_push_any(grm, pi, prod[i - 1], a, b, pr);
            },
        }
        assert(pi.push(prod[i - 1]) =~= pre);
    }
}

proof fn lemma_holds_push(v: Seq<Vec<TIdx>>, x: Vec<TIdx>, s: Seq<TIdx>)
    requires
        holds_sentence(v, s),
    ensures
        holds_sentence(v.push(x), s),
{
    let j = choose|j: int| 0 <= j < v.len() && (#[trigger] v[j])@ == s;
    assert(v.push(x)[j] == v[j]);
}

/// The sentences that the vectors in `v` hold.
pub open spec fn views(v: Seq<Vec<TIdx>>) -> Seq<Seq<TIdx>> {
    v.map_values(|x: Vec<TIdx>| x@)
}

/// Each of `a`, in order, followed by each of `o`, in order.
pub open spec fn cart(a: Seq<Seq<TIdx>>, o: Seq<Seq<TIdx>>) -> Seq<Seq<TIdx>>
    decreases a.len(),
{
    if a.len() == 0 {
        Seq::empty()
    } else {
        cart(a.drop_last(), o) + o.map_values(|x: Seq<TIdx>| a.last() + x)
    }
}

/// The minimal sentences of rule `r` as `min_sentences` lists them, with the rules marked in
/// `path` (those being expanded above) left out: for each cheapest production in order, one
/// sentence for each combination of the minimal sentences of its symbols; where that leaves
/// none, the sentence that the kept table determines.
pub open spec fn min_sentences_spec(grm: &YaccGrammar, tc: Seq<u8>, m: &MinCosts, r: int, path: Seq<bool>, fuel: nat) -> Seq<Seq<TIdx>>
    decreases fuel, 3int, 0int,
{
    let parts = prods_part(grm, tc, m, r, path.update(r, true), fuel, grm.prods_of(r).len() as int);
    if parts.len() == 0 {
        seq![best_sentence(grm, m, r)]
    } else {
        parts
    }
}

/// The sentences of the first `k` productions of `r` that are cheapest.
pub open spec fn prods_part(grm: &YaccGrammar, tc: Seq<u8>, m: &MinCosts, r: int, path: Seq<bool>, fuel: nat, k: int) -> Seq<Seq<TIdx>>
    decreases fuel, 2int, k,
{
    if k <= 0 {
        Seq::empty()
    } else {
        prods_part(grm, tc, m, r, path, fuel, k - 1) + if cost_of(grm, tc, m.costs@, r, k - 1) == m.costs@[r] {
            prefix_combos(
                grm,
                tc,
                m,
                grm.prod_of(grm.prods_of(r)[k - 1].0 as int),
                grm.prod_of(grm.prods_of(r)[k - 1].0 as int).len() as int,
                path,
                fuel,
            )
        } else {
            Seq::empty()
        }
    }
}

/// The combinations of the minimal sentences of the first `i` symbols of `prod`.
pub open spec fn prefix_combos(grm: &YaccGrammar, tc: Seq<u8>, m: &MinCosts, prod: Seq<Symbol>, i: int, path: Seq<bool>, fuel: nat) -> Seq<Seq<TIdx>>
    decreases fuel, 1int, i,
{
    if i <= 0 {
        seq![Seq::<TIdx>::empty()]
    } else {
        cart(prefix_combos(grm, tc, m, prod, i - 1, path, fuel), sym_options(grm, tc, m, prod[i - 1], path, fuel))
    }
}

/// The minimal sentences of one symbol: a token itself; a rule's own, unless it is marked in
/// `path`.
pub open spec fn sym_options(grm: &YaccGrammar, tc: Seq<u8>, m: &MinCosts, x: Symbol, path: Seq<bool>, fuel: nat) -> Seq<Seq<TIdx>>
    decreases fuel, 0int, 0int,
{
    match x {
        Symbol::Token(t) => seq![seq![t]],
        Symbol::Rule(q) => if fuel == 0 || path[q.0 as int] {
            Seq::empty()
        } else {
            min_sentences_spec(grm, tc, m, q.0 as int, path, (fuel - 1) as nat)
        },
    }
}

/// Some entry of `v` is the sentence `s`.
pub open spec fn holds_sentence(v: Seq<Vec<TIdx>>, s: Seq<TIdx>) -> bool {
    exists|j: int| 0 <= j < v.len() && (#[trigger] v[j])@ == s
}

/// Every rule marked in `path` was settled after rule `r`.
pub open spec fn path_above(path: Seq<bool>, rank: Seq<usize>, r: int) -> bool {
    forall|x: int| 0 <= x < path.len() && #[trigger] path[x] ==> rank[x] > rank[r]
}

/// Every minimal sentence of rule `r` whose derivation uses no rule marked in `on_path`
/// along any branch: the sentences of each cheapest production are the combinations, left to
/// right, of the sentences of its symbols.
fn sentences_of(grm: &YaccGrammar, tc: &Vec<u8>, m: &MinCosts, r: usize, on_path: &mut Vec<bool>) -> (res: Vec<Vec<TIdx>>)
    requires
        grm.wf(),
        tc@.len() >= grm.eof_token_idx.0,
        min_witness_ok(grm, tc@, m),
        r < grm.num_rules(),
        old(on_path)@.len() == grm.num_rules(),
        !old(on_path)@[r as int],
    ensures
        final(on_path)@ == old(on_path)@,
        res@.len() >= 1,
        forall|j: int| 0 <= j < res@.len() ==> tokens_cost(tc@, (#[trigger] res@[j])@) == m.costs@[r as int],
        forall|j: int| 0 <= j < res@.len() ==> derivable(grm, r as int, (#[trigger] res@[j])@),
        path_above(old(on_path)@, m.rank@, r as int) ==> holds_sentence(res@, best_sentence(grm, m, r as int)),
        forall|s: Seq<TIdx>|
            #[trigger] derivable_avoid(grm, r as int, s, old(on_path)@) && tokens_cost(tc@, s) == m.costs@[r as int] ==> holds_sentence(res@, s),
        views(res@) == min_sentences_spec(grm, tc@, m, r as int, old(on_path)@, count_clear(old(on_path)@)),
    decreases count_clear(old(on_path)@),
{
    let ghost path0 = on_path@;
    proof {
        lemma_count_clear_set(on_path@, r as int);
    }
    on_path.set(r, true);
    let mut out: Vec<Vec<TIdx>> = Vec::new();
    let prods = grm.rule_to_prods(RIdx(r as u32));
    let mut k: usize = 0;
    while k < prods.len()
        invariant
            grm.wf(),
            tc@.len() >= grm.eof_token_idx.0,
            min_witness_ok(grm, tc@, m),
            r < grm.num_rules(),
            on_path@ == path0.update(r as int, true),
            path0.len() == grm.num_rules(),
            count_clear(on_path@) < count_clear(path0),
            path0 == old(on_path)@,
            prods@ == grm.prods_of(r as int),
            0 <= k <= prods@.len(),
            forall|j: int| 0 <= j < out@.len() ==> tokens_cost(tc@, (#[trigger] out@[j])@) == m.costs@[r as int],
            forall|j: int| 0 <= j < out@.len() ==> derivable(grm, r as int, (#[trigger] out@[j])@),
            path_above(path0, m.rank@, r as int) && k > m.best@[r as int] ==> holds_sentence(out@, best_sentence(grm, m, r as int)),
            forall|k2: int, s: Seq<TIdx>|
                0 <= k2 < k && #[trigger] derives_via_avoid(grm, r as int, k2, s, path0.update(r as int, true)) && tokens_cost(tc@, s) == m.costs@[r as int] ==> holds_sentence(out@, s),
            views(out@) == prods_part(grm, tc@, m, r as int, path0.update(r as int, true), count_clear(path0), k as int),
            count_clear(path0.update(r as int, true)) + 1 == count_clear(path0),
        decreases prods@.len() - k,
    {
        proof {
            assert(prods@[k as int].0 < grm.num_prods());
        }
        let c = compute_prod_cost(grm, tc, &m.costs, prods[k]);
        let ghost want = path_above(path0, m.rank@, r as int) && k == m.best@[r as int];
        let ghost mut accf_k: Seq<Vec<TIdx>> = Seq::empty();
        let ghost out0 = out@;
        proof {
            if want {
                assert(cost_of(grm, tc@, m.costs@, r as int, k as int) == m.costs@[r as int]);
            }
        }
        if c == m.costs[r] as u64 {
            let prod = grm.prod(prods[k]);
            let ghost p = prods@[k as int].0 as int;
            let mut acc: Vec<Vec<TIdx>> = Vec::new();
            acc.push(Vec::new());
            proof {
                assert(tokens_cost(tc@, acc@[0]@) == 0);
                assert(prod@.subrange(0, 0) =~= Seq::<Symbol>::empty());
                assert(derives_seq(grm, prod@.subrange(0, 0), acc@[0]@, 0));
                assert(acc@[0]@ == expand_seq(grm, m.best@, prod@, 0, m.rank@[r as int] as nat));
                assert(views(acc@) =~= prefix_combos(grm, tc@, m, prod@, 0, path0.update(r as int, true), count_clear(path0)));
                assert forall|t: Seq<TIdx>| #[trigger] seq_derivable_avoid(grm, prod@.subrange(0, 0), t, path0.update(r as int, true)) && tokens_cost(tc@, t) == prod_cost(tc@, m.costs@, prod@, 0)
                    implies holds_sentence(acc@, t) by {
                    let d = choose|d: nat| derives_seq_avoid(grm, prod@.subrange(0, 0), t, d, path0.update(r as int, true));
                    assert(t =~= acc@[0]@);
                }
            }
            let mut i: usize = 0;
            while i < prod.len()
                invariant
                    grm.wf(),
                    tc@.len() >= grm.eof_token_idx.0,
                    min_witness_ok(grm, tc@, m),
                    r < grm.num_rules(),
                    on_path@ == path0.update(r as int, true),
                    path0.len() == grm.num_rules(),
                    count_clear(on_path@) < count_clear(path0),
                    path0 == old(on_path)@,
                    0 <= p < grm.num_prods(),
                    prod@ == grm.prod_of(p),
                    0 <= i <= prod@.len(),
                    forall|j: int| 0 <= j < acc@.len() ==> tokens_cost(tc@, (#[trigger] acc@[j])@) == prod_cost(tc@, m.costs@, prod@, i as int),
                    forall|j: int| 0 <= j < acc@.len() ==> seq_derivable(grm, prod@.subrange(0, i as int), (#[trigger] acc@[j])@),
                    want == (path_above(path0, m.rank@, r as int) && k == m.best@[r as int]),
                    0 <= k < prods@.len(),
                    prods@ == grm.prods_of(r as int),
                    p == prods@[k as int].0,
                    want ==> holds_sentence(acc@, expand_seq(grm, m.best@, prod@, i as int, m.rank@[r as int] as nat)),
                    views(acc@) == prefix_combos(grm, tc@, m, prod@, i as int, path0.update(r as int, true), count_clear(path0)),
                    count_clear(path0.update(r as int, true)) + 1 == count_clear(path0),
                    forall|t: Seq<TIdx>|
                        #[trigger] seq_derivable_avoid(grm, prod@.subrange(0, i as int), t, path0.update(r as int, true)) && tokens_cost(tc@, t) == prod_cost(tc@, m.costs@, prod@, i as int)
                            ==> holds_sentence(acc@, t),
                decreases prod@.len() - i,
            {
                proof {
                    assert(grm.symbol_ok(grm.prod_of(p)[i as int]));
                }
                let mut opts: Vec<Vec<TIdx>> = Vec::new();
                match prod[i] {
                    Symbol::Token(t) => {
                        let mut v: Vec<TIdx> = Vec::new();
                        v.push(t);
                        proof {
                            assert(v@.drop_last() =~= Seq::<TIdx>::empty());
                        }
                        opts.push(v);
                        proof {
                            assert(opts@[0]@ == v@);
                            assert(v@.last() == t);
                            assert(tokens_cost(tc@, v@.drop_last()) == 0);
                            assert(tokens_cost(tc@, v@) == tc@[t.0 as int]);
                        }
                    },
                    Symbol::Rule(q) => {
                        proof {
                            if want {
                                assert(prod@ == best_prod(grm, m.best@, r as int));
                                assert(m.rank@[q.0 as int] < m.rank@[r as int]);
                                assert(path_above(on_path@, m.rank@, q.0 as int));
                            }
                        }
                        if !on_path[q.0 as usize] {
                            opts = sentences_of(grm, tc, m, q.0 as usize, on_path);
                        }
                    },
                }
                proof {
                    match prod@[i as int] {
                        Symbol::Token(t) => {
                            assert(views(opts@) =~= seq![seq![t]]);
                        },
                        Symbol::Rule(q) => {
                            if on_path@[q.0 as int] {
                                assert(views(opts@) =~= Seq::<Seq<TIdx>>::empty());
                            }
                        },
                    }
                    assert(views(opts@) == sym_options(grm, tc@, m, prod@[i as int], path0.update(r as int, true), count_clear(path0)));
                }
                let ghost piece = expand_seq(grm, m.best@, prod@, i + 1, m.rank@[r as int] as nat).subrange(
                    expand_seq(grm, m.best@, prod@, i as int, m.rank@[r as int] as nat).len() as int,
                    expand_seq(grm, m.best@, prod@, i + 1, m.rank@[r as int] as nat).len() as int,
                );
                let ghost mut ja: int = 0;
                let ghost mut jo: int = 0;
                proof {
                    let pre = expand_seq(grm, m.best@, prod@, i as int, m.rank@[r as int] as nat);
                    let whole = expand_seq(grm, m.best@, prod@, i + 1, m.rank@[r as int] as nat);
                    if want {
                        assert(prod@ == best_prod(grm, m.best@, r as int));
                        ja = choose|j: int| 0 <= j < acc@.len() && (#[trigger] acc@[j])@ == pre;
                        match prod@[i as int] {
                            Symbol::Token(t) => {
                                assert(whole == pre + seq![t]);
                                assert(piece =~= seq![t]);
                                jo = 0;
                            },
                            Symbol::Rule(q) => {
                                let qi = q.0 as int;
                                assert(m.rank@[qi] < m.rank@[r as int]);
                                assert(m.best@[qi] < grm.prods_of(qi).len());
                                let lq = best_prod(grm, m.best@, qi).len() as int;
                                lemma_expand_stable(grm, tc@, m, qi, lq, (m.rank@[r as int] - 1) as nat);
                                assert(whole == pre + best_sentence(grm, m, qi));
                                assert(piece =~= best_sentence(grm, m, qi));
                                jo = choose|j: int| 0 <= j < opts@.len() && (#[trigger] opts@[j])@ == best_sentence(grm, m, qi);
                            },
                        }
                        assert(whole =~= acc@[ja]@ + opts@[jo]@);
                    }
                }
                let mut next: Vec<Vec<TIdx>> = Vec::new();
                let mut a: usize = 0;
                while a < acc.len()
                    invariant
                        tc@.len() >= grm.eof_token_idx.0,
                        0 <= a <= acc@.len(),
                        forall|j: int| 0 <= j < acc@.len() ==> tokens_cost(tc@, (#[trigger] acc@[j])@) == prod_cost(tc@, m.costs@, prod@, i as int),
                        forall|j: int| 0 <= j < opts@.len() ==> tokens_cost(tc@, (#[trigger] opts@[j])@) == sym_cost(tc@, m.costs@, prod@[i as int]),
                        forall|j: int| 0 <= j < next@.len() ==> tokens_cost(tc@, (#[trigger] next@[j])@) == prod_cost(tc@, m.costs@, prod@, i + 1),
                        0 <= i < prod@.len(),
                        forall|j: int| 0 <= j < acc@.len() ==> seq_derivable(grm, prod@.subrange(0, i as int), (#[trigger] acc@[j])@),
                        forall|j: int| 0 <= j < opts@.len() ==> match prod@[i as int] {
                            Symbol::Token(t) => (#[trigger] opts@[j])@ == seq![t],
                            Symbol::Rule(q) => derivable(grm, q.0 as int, (#[trigger] opts@[j])@),
                        },
                        forall|j: int| 0 <= j < next@.len() ==> seq_derivable(grm, prod@.subrange(0, i + 1), (#[trigger] next@[j])@),
                        want ==> 0 <= ja < acc@.len() && 0 <= jo < opts@.len(),
                        want && a > ja ==> holds_sentence(next@, acc@[ja]@ + opts@[jo]@),
                        forall|a2: int, o2: int| 0 <= a2 < a && 0 <= o2 < opts@.len() ==> holds_sentence(next@, (#[trigger] acc@[a2])@ + (#[trigger] opts@[o2])@),
                        views(next@) == cart(views(acc@).take(a as int), views(opts@)),
                    decreases acc@.len() - a,
                {
                    let mut o: usize = 0;
                    while o < opts.len()
                        invariant
                            tc@.len() >= grm.eof_token_idx.0,
                            0 <= a < acc@.len(),
                            0 <= o <= opts@.len(),
                            forall|j: int| 0 <= j < acc@.len() ==> tokens_cost(tc@, (#[trigger] acc@[j])@) == prod_cost(tc@, m.costs@, prod@, i as int),
                            forall|j: int| 0 <= j < opts@.len() ==> tokens_cost(tc@, (#[trigger] opts@[j])@) == sym_cost(tc@, m.costs@, prod@[i as int]),
                            forall|j: int| 0 <= j < next@.len() ==> tokens_cost(tc@, (#[trigger] next@[j])@) == prod_cost(tc@, m.costs@, prod@, i + 1),
                            0 <= i < prod@.len(),
                            forall|j: int| 0 <= j < acc@.len() ==> seq_derivable(grm, prod@.subrange(0, i as int), (#[trigger] acc@[j])@),
                            forall|j: int| 0 <= j < opts@.len() ==> match prod@[i as int] {
                                Symbol::Token(t) => (#[trigger] opts@[j])@ == seq![t],
                                Symbol::Rule(q) => derivable(grm, q.0 as int, (#[trigger] opts@[j])@),
                            },
                            forall|j: int| 0 <= j < next@.len() ==> seq_derivable(grm, prod@.subrange(0, i + 1), (#[trigger] next@[j])@),
                            want ==> 0 <= ja < acc@.len() && 0 <= jo < opts@.len(),
                            want && (a > ja || (a == ja && o > jo)) ==> holds_sentence(next@, acc@[ja]@ + opts@[jo]@),
                            forall|a2: int, o2: int| ((0 <= a2 < a && 0 <= o2 < opts@.len()) || (a2 == a && 0 <= o2 < o))
                                ==> holds_sentence(next@, (#[trigger] acc@[a2])@ + (#[trigger] opts@[o2])@),
                            views(next@) == cart(views(acc@).take(a as int), views(opts@)) + views(opts@).take(o as int).map_values(
                                |x: Seq<TIdx>| acc@[a as int]@ + x,
                            ),
                        decreases opts@.len() - o,
                    {
                        let x = concat(&acc[a], &opts[o]);
                        proof {
                            lemma_tokens_cost_concat(tc@, acc@[a as int]@, opts@[o as int]@);
                            let _ = opts@[o as int];
                            let _ = acc@[a as int];
                            lemma_derivable_push(grm, prod@.subrange(0, i as int), prod@[i as int], acc@[a as int]@, opts@[o as int]@);
                            assert(prod@.subrange(0, i as int).push(prod@[i as int]) =~= prod@.subrange(0, i + 1));
                        }
                        let ghost next0 = next@;
                        next.push(x);
                        proof {
                            if want && (a > ja || (a == ja && o > jo)) {
                                let j = choose|j: int| 0 <= j < next0.len() && (#[trigger] next0[j])@ == acc@[ja]@ + opts@[jo]@;
                                assert(next@[j] == next0[j]);
                            }
                            if want && a == ja && o == jo {
                                assert(next@[next0.len() as int]@ == acc@[ja]@ + opts@[jo]@);
                            }
                            assert forall|a2: int, o2: int| ((0 <= a2 < a && 0 <= o2 < opts@.len()) || (a2 == a && 0 <= o2 < o + 1))
                                implies holds_sentence(next@, (#[trigger] acc@[a2])@ + (#[trigger] opts@[o2])@) by {
                                if a2 == a && o2 == o {
                                    assert(next@[next0.len() as int]@ == acc@[a2]@ + opts@[o2]@);
                                } else {
                                    lemma_holds_push(next0, x, acc@[a2]@ + opts@[o2]@);
                                }
                            }
                        }
                        proof {
                            assert(views(next@) =~= views(next0).push(x@));
                            assert(views(opts@).take(o + 1).map_values(|y: Seq<TIdx>| acc@[a as int]@ + y)
                                =~= views(opts@).take(o as int).map_values(|y: Seq<TIdx>| acc@[a as int]@ + y).push(acc@[a as int]@ + opts@[o as int]@));
                        }
                        o += 1;
                    }
                    proof {
                        let av = views(acc@);
                        assert(av.take(a + 1).drop_last() =~= av.take(a as int));
                        assert(av.take(a + 1).last() == acc@[a as int]@);
                        assert(views(opts@).take(opts@.len() as int) =~= views(opts@));
                    }
                    a += 1;
                }
                proof {
                    if want {
                        assert(expand_seq(grm, m.best@, prod@, i + 1, m.rank@[r as int] as nat) == acc@[ja]@ + opts@[jo]@);
                    }
                    if true {
                        assert forall|t: Seq<TIdx>| #[trigger] seq_derivable_avoid(grm, prod@.subrange(0, i + 1), t, path0.update(r as int, true)) && tokens_cost(tc@, t) == prod_cost(tc@, m.costs@, prod@, i + 1)
                            implies holds_sentence(next@, t) by {
                            assert forall|x: int| 0 <= x < prod@.len() implies grm.symbol_ok(#[trigger] prod@[x]) by {
                                assert(grm.symbol_ok(grm.prod_of(p)[x]));
                            }
                            let j = lemma_split_min_avoid(grm, tc@, m.costs@, prod@, i as int, t, path0.update(r as int, true));
                            let t1 = t.subrange(0, j);
                            let t2 = t.subrange(j, t.len() as int);
                            assert(holds_sentence(acc@, t1));
                            let a2 = choose|a2: int| 0 <= a2 < acc@.len() && (#[trigger] acc@[a2])@ == t1;
                            assert(holds_sentence(opts@, t2)) by {
                                match prod@[i as int] {
                                    Symbol::Token(tk) => {
                                        assert(opts@[0]@ == t2);
                                    },
                                    Symbol::Rule(q) => {},
                                }
                            }
                            let o2 = choose|o2: int| 0 <= o2 < opts@.len() && (#[trigger] opts@[o2])@ == t2;
                            assert(holds_sentence(next@, acc@[a2]@ + opts@[o2]@));
                            assert(t =~= t1 + t2);
                        }
                    }
                }
                proof {
                    assert(views(acc@).take(acc@.len() as int) =~= views(acc@));
                    assert(views(next@) == prefix_combos(grm, tc@, m, prod@, i + 1, path0.update(r as int, true), count_clear(path0)));
                }
                acc = next;
                i += 1;
            }
            proof {
                assert(m.costs@.len() == grm.num_rules());
                assert forall|j: int| 0 <= j < acc@.len() implies tokens_cost(tc@, (#[trigger] acc@[j])@) == m.costs@[r as int] by {
                    assert(prod_cost(tc@, m.costs@, prod@, prod@.len() as int) == c);
                }
                assert(prod@.subrange(0, prod@.len() as int) =~= prod@);
                assert forall|j: int| 0 <= j < acc@.len() implies derivable(grm, r as int, (#[trigger] acc@[j])@) by {
                    let d = choose|d: nat| derives_seq(grm, prod@, acc@[j]@, d);
                    let _ = grm.prods_of(r as int)[k as int];
                    assert(derives(grm, r as int, acc@[j]@, d));
                }
            }
            let ghost mut jt: int = 0;
            proof {
                if want {
                    assert(prod@ == best_prod(grm, m.best@, r as int));
                    jt = choose|j: int| 0 <= j < acc@.len() && (#[trigger] acc@[j])@ == best_sentence(grm, m, r as int);
                }
            }
            let ghost accf = acc@;
            proof {
                accf_k = accf;
                if true {
                    assert(prod@.subrange(0, prod@.len() as int) =~= prod@);
                    assert(prod_cost(tc@, m.costs@, prod@, prod@.len() as int) == c);
                }
            }
            let mut a: usize = 0;
            while a < acc.len()
                invariant
                    0 <= a <= acc@.len(),
                    r < m.costs@.len(),
                    acc@.len() == accf.len(),
                    forall|j: int| a <= j < acc@.len() ==> #[trigger] acc@[j] == accf[j],
                    forall|j: int| 0 <= j < a ==> holds_sentence(out@, (#[trigger] accf[j])@),
                    views(out@) == views(out0) + views(accf).take(a as int),
                    forall|k2: int, s: Seq<TIdx>|
                0 <= k2 < k && #[trigger] derives_via_avoid(grm, r as int, k2, s, path0.update(r as int, true)) && tokens_cost(tc@, s) == m.costs@[r as int] ==> holds_sentence(out@, s),
                    want ==> 0 <= jt < acc@.len(),
                    want && jt >= a ==> acc@[jt]@ == best_sentence(grm, m, r as int),
                    want && jt < a ==> holds_sentence(out@, best_sentence(grm, m, r as int)),
                    path_above(path0, m.rank@, r as int) && k > m.best@[r as int] ==> holds_sentence(out@, best_sentence(grm, m, r as int)),
                    forall|j: int| a <= j < acc@.len() ==> tokens_cost(tc@, (#[trigger] acc@[j])@) == m.costs@[r as int],
                    forall|j: int| 0 <= j < out@.len() ==> tokens_cost(tc@, (#[trigger] out@[j])@) == m.costs@[r as int],
                    forall|j: int| a <= j < acc@.len() ==> derivable(grm, r as int, (#[trigger] acc@[j])@),
                    forall|j: int| 0 <= j < out@.len() ==> derivable(grm, r as int, (#[trigger] out@[j])@),
                decreases acc@.len() - a,
            {
                let ghost acc0 = acc@;
                let ghost outp = out@;
                let mut x: Vec<TIdx> = Vec::new();
                std::mem::swap(&mut x, &mut acc[a]);
                out.push(x);
                proof {
                    assert forall|j: int| a < j < acc@.len() implies acc@[j] == acc0[j] by {}
                    assert(x@ == accf[a as int]@);
                    assert(views(out@) =~= views(outp).push(x@));
                    assert(views(accf).take(a + 1) =~= views(accf).take(a as int).push(accf[a as int]@));
                    assert forall|j: int| 0 <= j < a + 1 implies holds_sentence(out@, (#[trigger] accf[j])@) by {
                        if j == a {
                            assert(out@[outp.len() as int]@ == accf[j]@);
                        } else {
                            lemma_holds_push(outp, x, accf[j]@);
                        }
                    }
                    if true {
                        assert forall|k2: int, s: Seq<TIdx>|
                            0 <= k2 < k && #[trigger] derives_via_avoid(grm, r as int, k2, s, path0.update(r as int, true)) && tokens_cost(tc@, s) == m.costs@[r as int] implies holds_sentence(out@, s) by {
                            lemma_holds_push(outp, x, s);
                        }
                    }
                    if holds_sentence(outp, best_sentence(grm, m, r as int)) {
                        let j = choose|j: int| 0 <= j < outp.len() && (#[trigger] outp[j])@ == best_sentence(grm, m, r as int);
                        assert(out@[j] == outp[j]);
                    }
                    if want && jt == a {
                        assert(out@[outp.len() as int]@ == best_sentence(grm, m, r as int));
                    }
                }
                a += 1;
            }
            proof {
                if true {
                    assert forall|t: Seq<TIdx>| #[trigger] seq_derivable_avoid(grm, prod@.subrange(0, prod@.len() as int), t, path0.update(r as int, true)) && tokens_cost(tc@, t) == prod_cost(tc@, m.costs@, prod@, prod@.len() as int)
                        implies holds_sentence(out@, t) by {
                        assert(holds_sentence(accf, t));
                        let j = choose|j: int| 0 <= j < accf.len() && (#[trigger] accf[j])@ == t;
                        assert(holds_sentence(out@, accf[j]@));
                    }
                    assert(prod@ == grm.prod_of(prods@[k as int].0 as int));
                }
            }
        }
        proof {
            if want {
                assert(holds_sentence(out@, best_sentence(grm, m, r as int)));
            }
            if c == m.costs@[r as int] {
                let p = prods@[k as int].0 as int;
                assert forall|s: Seq<TIdx>| #[trigger] derives_via_avoid(grm, r as int, k as int, s, path0.update(r as int, true)) && tokens_cost(tc@, s) == m.costs@[r as int]
                    implies holds_sentence(out@, s) by {
                    let d = choose|d: nat| derives_seq_avoid(grm, grm.prod_of(p), s, d, path0.update(r as int, true));
                    assert(grm.prod_of(p).subrange(0, grm.prod_of(p).len() as int) =~= grm.prod_of(p));
                    assert(seq_derivable_avoid(grm, grm.prod_of(p).subrange(0, grm.prod_of(p).len() as int), s, path0.update(r as int, true)));
                    assert(holds_sentence(accf_k, s));
                    let j = choose|j: int| 0 <= j < accf_k.len() && (#[trigger] accf_k[j])@ == s;
                    assert(holds_sentence(out@, accf_k[j]@));
                }
            }
            if c != m.costs@[r as int] {
                let p = prods@[k as int].0 as int;
                assert(p < grm.num_prods());
                assert forall|s: Seq<TIdx>| #[trigger] derives_via_avoid(grm, r as int, k as int, s, path0.update(r as int, true)) implies tokens_cost(tc@, s) != m.costs@[r as int] by {
                    let d = choose|d: nat| derives_seq_avoid(grm, grm.prod_of(p), s, d, path0.update(r as int, true));
                    lemma_avoid_plain(grm, grm.prod_of(p), s, d, path0.update(r as int, true));
                    assert forall|x: int| 0 <= x < grm.prod_of(p).len() implies grm.symbol_ok(#[trigger] grm.prod_of(p)[x]) by {}
                    lemma_derived_cost_ge(grm, tc@, m.costs@, grm.prod_of(p), s, d);
                    assert(m.costs@[r as int] <= cost_of(grm, tc@, m.costs@, r as int, k as int));
                }
            }
        }
        k += 1;
    }
    let ghost out_loop = out@;
    if out.len() == 0 {
        // Every cheapest production was cut off by a rule already being expanded; a rule's
        // settled cheapest production always yields a minimal sentence.
        let s = sentence_of(grm, tc, m, r);
        out.push(s);
    }
    proof {
        if path_above(path0, m.rank@, r as int) {
            assert(m.best@[r as int] < grm.prods_of(r as int).len());
        }
    }
    on_path.set(r, false);
    proof {
        assert(on_path@ =~= path0);
        if true {
            assert forall|s: Seq<TIdx>| #[trigger] derivable_avoid(grm, r as int, s, path0) && tokens_cost(tc@, s) == m.costs@[r as int] implies holds_sentence(out@, s) by {
                let k2 = choose|k2: int| 0 <= k2 < grm.prods_of(r as int).len() && #[trigger] derives_via_avoid(grm, r as int, k2, s, path0.update(r as int, true));
                assert(derives_via_avoid(grm, r as int, k2, s, path0.update(r as int, true)));
                assert(holds_sentence(out_loop, s));
                if out@.len() != out_loop.len() {
                    lemma_holds_push(out_loop, out@[out_loop.len() as int], s);
                    assert(out@ =~= out_loop.push(out@[out_loop.len() as int]));
                }
            }
        }
    }
    out
}

/// Generates minimal sentences of a grammar's rules, given a cost for each token. The minimum
/// and maximum costs of the rules are computed on first use and kept.
pub struct SentenceGenerator<'a> {
    pub grm: &'a YaccGrammar,
    pub token_costs: Vec<u8>,
    pub min_costs: Option<MinCosts>,
    pub max_costs: Option<Vec<u16>>,
}

impl<'a> SentenceGenerator<'a> {
    /// The generator's grammar and costs agree, and what it keeps is right for them.
    pub open spec fn inv(&self) -> bool {
        &&& self.grm.wf()
        &&& self.token_costs@.len() >= self.grm.eof_token_idx.0
        &&& self.min_costs matches Some(m) ==> min_witness_ok(self.grm, self.token_costs@, &m)
            && min_costs_exact(self.grm, self.token_costs@, m.costs@)
        &&& self.max_costs matches Some(v) ==> max_costs_ok(self.grm, self.token_costs@, v@)
    }

    /// A generator for `grm` with the cost of each token.
    pub fn new(grm: &'a YaccGrammar, token_costs: Vec<u8>) -> (r: SentenceGenerator<'a>)
        requires
            grm.wf(),
            token_costs@.len() >= grm.eof_token_idx.0,
        ensures
            r.inv(),
            r.grm == grm,
            r.token_costs@ == token_costs@,
            r.min_costs is None,
            r.max_costs is None,
    {
        SentenceGenerator { grm, token_costs, min_costs: None, max_costs: None }
    }

    fn ensure_min(&mut self) -> (r: Result<(), CostOverflow>)
        requires
            old(self).inv(),
        ensures
            final(self).inv(),
            final(self).grm == old(self).grm,
            final(self).token_costs == old(self).token_costs,
            final(self).max_costs == old(self).max_costs,
            old(self).min_costs is Some ==> final(self).min_costs == old(self).min_costs,
            r is Ok <==> final(self).min_costs is Some,
            r is Err ==> exists|d: Seq<bool>, c: Seq<u16>| stuck(final(self).grm, final(self).token_costs@, d, c),
    {
        if self.min_costs.is_none() {
            match min_costs_settled(self.grm, &self.token_costs) {
                Ok(m) => {
                    proof {
                        lemma_min_exact(self.grm, self.token_costs@, &m);
                    }
                    self.min_costs = Some(m);
                },
                Err(e) => {
                    return Err(e);
                },
            }
        }
        Ok(())
    }

    fn ensure_max(&mut self) -> (r: Result<(), CostOverflow>)
        requires
            old(self).inv(),
        ensures
            final(self).inv(),
            final(self).grm == old(self).grm,
            final(self).token_costs == old(self).token_costs,
            final(self).min_costs == old(self).min_costs,
            old(self).max_costs is Some ==> final(self).max_costs == old(self).max_costs,
            r is Ok <==> final(self).max_costs is Some,
            r is Err ==> !exists|c: Seq<u16>| #[trigger] max_costs_ok(final(self).grm, final(self).token_costs@, c),
    {
        if self.max_costs.is_none() {
            match rule_max_costs(self.grm, &self.token_costs) {
                Ok(v) => {
                    self.max_costs = Some(v);
                },
                Err(e) => {
                    return Err(e);
                },
            }
        }
        Ok(())
    }

    /// The cost of a minimal sentence of rule `ridx`.
    pub fn min_sentence_cost(&mut self, ridx: RIdx) -> (r: Result<u16, CostOverflow>)
        requires
            old(self).inv(),
            ridx.0 < old(self).grm.rules_len.0,
        ensures
            final(self).inv(),
            final(self).grm == old(self).grm,
            final(self).token_costs == old(self).token_costs,
            final(self).max_costs == old(self).max_costs,
            old(self).min_costs is Some ==> r is Ok && final(self).min_costs == old(self).min_costs,
            match r {
                Ok(c) => final(self).min_costs matches Some(m) && c == m.costs@[ridx.0 as int],
                Err(_) => exists|d: Seq<bool>, c: Seq<u16>| stuck(final(self).grm, final(self).token_costs@, d, c),
            },
    {
        match self.ensure_min() {
            Err(e) => Err(e),
            Ok(()) => match &self.min_costs {
                Some(m) => Ok(m.costs[ridx.0 as usize]),
                None => Err(CostOverflow {}),
            },
        }
    }

    /// The cost of a maximal sentence of rule `ridx`: `None` where its sentences are
    /// unbounded.
    pub fn max_sentence_cost(&mut self, ridx: RIdx) -> (r: Result<Option<u16>, CostOverflow>)
        requires
            old(self).inv(),
            ridx.0 < old(self).grm.rules_len.0,
        ensures
            final(self).inv(),
            final(self).grm == old(self).grm,
            final(self).token_costs == old(self).token_costs,
            final(self).min_costs == old(self).min_costs,
            old(self).max_costs is Some ==> r is Ok && final(self).max_costs == old(self).max_costs,
            r matches Ok(v) ==> final(self).max_costs matches Some(c) && (match v {
                None => c@[ridx.0 as int] == u16::MAX,
                Some(x) => x == c@[ridx.0 as int] && x != u16::MAX,
            }),
            r is Err ==> !exists|c: Seq<u16>| #[trigger] max_costs_ok(final(self).grm, final(self).token_costs@, c),
    {
        match self.ensure_max() {
            Err(e) => Err(e),
            Ok(()) => match &self.max_costs {
                Some(c) => {
                    let v = c[ridx.0 as usize];
                    if v == u16::MAX {
                        Ok(None)
                    } else {
                        Ok(Some(v))
                    }
                },
                None => Err(CostOverflow {}),
            },
        }
    }

    /// A minimal sentence of rule `ridx`: derived from the rule, costing its minimum, and fixed
    /// by the kept table (each rule expanded through its settled cheapest production).
    pub fn min_sentence(&mut self, ridx: RIdx) -> (r: Result<Vec<TIdx>, CostOverflow>)
        requires
            old(self).inv(),
            ridx.0 < old(self).grm.rules_len.0,
        ensures
            final(self).inv(),
            final(self).grm == old(self).grm,
            final(self).token_costs == old(self).token_costs,
            final(self).max_costs == old(self).max_costs,
            old(self).min_costs is Some ==> r is Ok && final(self).min_costs == old(self).min_costs,
            match r {
                Ok(s) => final(self).min_costs matches Some(m) && tokens_cost(final(self).token_costs@, s@) == m.costs@[ridx.0 as int]
                    && tokens_in(s@, final(self).grm.num_tokens()) && derivable(final(self).grm, ridx.0 as int, s@)
                    && s@ == best_sentence(final(self).grm, &m, ridx.0 as int),
                Err(_) => exists|d: Seq<bool>, c: Seq<u16>| stuck(final(self).grm, final(self).token_costs@, d, c),
            },
    {
        match self.ensure_min() {
            Err(e) => Err(e),
            Ok(()) => match &self.min_costs {
                Some(m) => Ok(sentence_of(self.grm, &self.token_costs, m, ridx.0 as usize)),
                None => Err(CostOverflow {}),
            },
        }
    }

    /// The minimal sentences of rule `ridx`: for each cheapest production in order, one
    /// sentence for each combination of the minimal sentences of its symbols, a rule already
    /// being expanded above contributing none (`min_sentences_spec`). Each is derived from the
    /// rule and costs its minimum; the sentence `min_sentence` returns is among them; and where
    /// every token costs more than nothing, every minimal sentence is among them.
    pub fn min_sentences(&mut self, ridx: RIdx) -> (r: Result<Vec<Vec<TIdx>>, CostOverflow>)
        requires
            old(self).inv(),
            ridx.0 < old(self).grm.rules_len.0,
        ensures
            final(self).inv(),
            final(self).grm == old(self).grm,
            final(self).token_costs == old(self).token_costs,
            final(self).max_costs == old(self).max_costs,
            old(self).min_costs is Some ==> r is Ok && final(self).min_costs == old(self).min_costs,
            match r {
                Ok(ss) => final(self).min_costs matches Some(m) && ss@.len() >= 1 && (forall|j: int|
                    0 <= j < ss@.len() ==> tokens_cost(final(self).token_costs@, (#[trigger] ss@[j])@) == m.costs@[ridx.0 as int]
                        && derivable(final(self).grm, ridx.0 as int, ss@[j]@)) && holds_sentence(ss@, best_sentence(final(self).grm, &m, ridx.0 as int))
                    && views(ss@) == min_sentences_spec(
                        final(self).grm,
                        final(self).token_costs@,
                        &m,
                        ridx.0 as int,
                        Seq::new(final(self).grm.num_rules() as nat, |_x: int| false),
                        final(self).grm.num_rules() as nat,
                    )
                    && (positive_costs(final(self).grm, final(self).token_costs@) ==> forall|s: Seq<TIdx>|
                        #[trigger] derivable(final(self).grm, ridx.0 as int, s) && tokens_cost(final(self).token_costs@, s) == m.costs@[ridx.0 as int]
                            ==> holds_sentence(ss@, s)),
                Err(_) => exists|d: Seq<bool>, c: Seq<u16>| stuck(final(self).grm, final(self).token_costs@, d, c),
            },
    {
        match self.ensure_min() {
            Err(e) => Err(e),
            Ok(()) => match &self.min_costs {
                Some(m) => {
                    let n = self.grm.rules_len.0 as usize;
                    let mut on_path: Vec<bool> = Vec::new();
                    let mut i: usize = 0;
                    while i < n
                        invariant
                            0 <= i <= n,
                            on_path@.len() == i,
                            forall|j: int| 0 <= j < i ==> !#[trigger] on_path@[j],
                        decreases n - i,
                    {
                        on_path.push(false);
                        i += 1;
                    }
                    let ghost path0 = on_path@;
                    proof {
                        assert(path0 =~= Seq::new(self.grm.num_rules() as nat, |_x: int| false));
                        lemma_count_clear_all(path0);
                    }
                    let res = sentences_of(self.grm, &self.token_costs, m, ridx.0 as usize, &mut on_path);
                    proof {
                        let grm = self.grm;
                        let tc = self.token_costs@;
                        let r = ridx.0 as int;
                        if positive_costs(grm, tc) {
                            let anc = Seq::new(grm.num_rules() as nat, |_x: int| Seq::<TIdx>::empty());
                            assert forall|s: Seq<TIdx>|
                                #[trigger] derivable(grm, r, s) && tokens_cost(tc, s) == m.costs@[r] implies holds_sentence(res@, s) by {
                                assert(!path0[r]);
                                lemma_avoid_exists(grm, tc, m.costs@, r, s, path0, anc);
                            }
                        }
                    }
                    Ok(res)
                },
                None => Err(CostOverflow {}),
            },
        }
    }
}


impl YaccGrammar {
    /// A `SentenceGenerator` for this grammar, where `token_cost` gives the cost of each token
    /// (meant to be greater than 0; the simplest is `|_| 1`).
    pub fn sentence_generator<F: Fn(TIdx) -> u8>(&self, token_cost: F) -> (r: SentenceGenerator)
        requires
            self.wf(),
            forall|t: TIdx| token_cost.requires((t,)),
        ensures
            r.inv(),
            r.grm == self,
            r.min_costs is None,
            r.max_costs is None,
            forall|i: int| 0 <= i < self.num_tokens() ==> token_cost.ensures((TIdx(i as u32),), #[trigger] r.token_costs@[i]),
    {
        let n = self.tokens_len.0 as usize;
        let mut costs: Vec<u8> = Vec::new();
        let mut i: usize = 0;
        while i < n
            invariant
                n == self.num_tokens(),
                0 <= i <= n,
                costs@.len() == i,
                forall|t: TIdx| token_cost.requires((t,)),
                forall|j: int| 0 <= j < i ==> token_cost.ensures((TIdx(j as u32),), #[trigger] costs@[j]),
            decreases n - i,
        {
            let c = token_cost(TIdx(i as u32));
            costs.push(c);
            i += 1;
        }
        SentenceGenerator::new(self, costs)
    }
}

/// A rule that is recursive, or from which a recursive rule can be reached, has no finite
/// maximum cost.
pub proof fn lemma_max_cost_unbounded(grm: &YaccGrammar, tc: Seq<u8>, costs: Seq<u16>, r: int, q: int)
    requires
        grm.wf(),
        max_costs_ok(grm, tc, costs),
        0 <= r < grm.num_rules(),
        0 <= q < grm.num_rules(),
        grm.reaches(q, q),
        r == q || grm.reaches(r, q),
    ensures
        costs[r] == u16::MAX,
{
    if r != q {
        let s = choose|s: Seq<int>| #[trigger] grm.is_path(s) && s[0] == r && s.last() == q;
        lemma_path_unbounded(grm, tc, costs, s, 0);
    }
}

/// A rule that an unbounded rule `x` refers to, and that is unbounded too.
pub open spec fn unbounded_next(grm: &YaccGrammar, costs: Seq<u16>, x: int) -> int {
    choose|q: int| grm.rule_edge(x, q) && costs[q] == u16::MAX
}

/// The walk from `r` through `n` steps of `unbounded_next`.
pub open spec fn unbounded_walk(grm: &YaccGrammar, costs: Seq<u16>, r: int, n: nat) -> Seq<int>
    decreases n,
{
    if n == 0 {
        seq![r]
    } else {
        unbounded_walk(grm, costs, r, (n - 1) as nat).push(
            unbounded_next(grm, costs, unbounded_walk(grm, costs, r, (n - 1) as nat).last()),
        )
    }
}

/// Where no rule reached from `r` is recursive, the walk from an unbounded `r` goes on
/// through unbounded rules reached from `r`.
proof fn lemma_unbounded_walk(grm: &YaccGrammar, tc: Seq<u8>, costs: Seq<u16>, r: int, n: nat)
    requires
        grm.wf(),
        max_costs_ok(grm, tc, costs),
        0 <= r < grm.num_rules(),
        costs[r] == u16::MAX,
        forall|q: int| 0 <= q < grm.num_rules() && (q == r || grm.reaches(r, q)) ==> !#[trigger] grm.reaches(q, q),
    ensures
        unbounded_walk(grm, costs, r, n).len() == n + 1,
        unbounded_walk(grm, costs, r, n)[0] == r,
        forall|i: int| 0 <= i <= n ==> {
            let x = #[trigger] unbounded_walk(grm, costs, r, n)[i];
            &&& 0 <= x < grm.num_rules()
            &&& costs[x] == u16::MAX
            &&& (x == r || grm.reaches(r, x))
        },
        forall|i: int| 0 <= i < n ==> grm.rule_edge(#[trigger] unbounded_walk(grm, costs, r, n)[i], unbounded_walk(grm, costs, r, n)[i + 1]),
    decreases n,
{
    if n > 0 {
        lemma_unbounded_walk(grm, tc, costs, r, (n - 1) as nat);
        let w = unbounded_walk(grm, costs, r, (n - 1) as nat);
        let x = w.last();
        assert(x == w[n - 1]);
        assert(0 <= x < grm.num_rules() && costs[x] == u16::MAX && (x == r || grm.reaches(r, x)));
        assert(!grm.reaches(x, x));
        let k = choose|k: int| 0 <= k < grm.prods_of(x).len() && refers_unbounded(grm, costs, #[trigger] grm.prods_of(x)[k].0 as int);
        let p = grm.prods_of(x)[k].0 as int;
        assert(p < grm.num_prods());
        let j = choose|j: int| 0 <= j < grm.prod_of(p).len() && match #[trigger] grm.prod_of(p)[j] {
            Symbol::Rule(q) => costs[q.0 as int] == u16::MAX,
            Symbol::Token(_) => false,
        };
        assert(grm.symbol_ok(grm.prod_of(p)[j]));
        if let Symbol::Rule(q) = grm.prod_of(p)[j] {
            assert(grm.prod_of(grm.prods_of(x)[k].0 as int)[j] == Symbol::Rule(RIdx((q.0 as int) as u32)));
            assert(grm.rule_edge(x, q.0 as int));
        }
        let y = unbounded_next(grm, costs, x);
        assert(grm.rule_edge(x, y) && costs[y] == u16::MAX);
        grm.lemma_extend(r, x, y);
        let w2 = unbounded_walk(grm, costs, r, n);
        assert forall|i: int| 0 <= i < n implies grm.rule_edge(#[trigger] w2[i], w2[i + 1]) by {
            if i < n - 1 {
                assert(w2[i] == w[i] && w2[i + 1] == w[i + 1]);
            } else {
                assert(w2[i] == x && w2[i + 1] == y);
            }
        }
        assert forall|i: int| 0 <= i <= n implies {
            let z = #[trigger] w2[i];
            &&& 0 <= z < grm.num_rules()
            &&& costs[z] == u16::MAX
            &&& (z == r || grm.reaches(r, z))
        } by {
            if i < n {
                assert(w2[i] == w[i]);
            }
        }
    }
}

/// Among more than `n` values below `n`, two are equal.
proof fn lemma_pigeonhole(s: Seq<int>, n: int) -> (ij: (int, int))
    requires
        0 <= n,
        s.len() > n,
        forall|i: int| 0 <= i < s.len() ==> 0 <= #[trigger] s[i] < n,
    ensures
        0 <= ij.0 < ij.1 < s.len(),
        s[ij.0] == s[ij.1],
{
    if s.no_duplicates() {
        s.unique_seq_to_set();
        lemma_int_range(0, n);
        assert(s.to_set().subset_of(set_int_range(0, n)));
        lemma_len_subset(s.to_set(), set_int_range(0, n));
        assert(false);
        (0, 1)
    } else {
        let (i, j) = choose|i: int, j: int| 0 <= i < s.len() && 0 <= j < s.len() && i != j && s[i] == s[j];
        if i < j {
            (i, j)
        } else {
            (j, i)
        }
    }
}

/// A rule has no finite maximum cost exactly when it is recursive or reaches a recursive
/// rule.
pub proof fn lemma_max_cost_unbounded_iff(grm: &YaccGrammar, tc: Seq<u8>, costs: Seq<u16>, r: int)
    requires
        grm.wf(),
        max_costs_ok(grm, tc, costs),
        0 <= r < grm.num_rules(),
    ensures
        costs[r] == u16::MAX <==> exists|q: int|
            0 <= q < grm.num_rules() && (q == r || grm.reaches(r, q)) && #[trigger] grm.reaches(q, q),
{
    if exists|q: int| 0 <= q < grm.num_rules() && (q == r || grm.reaches(r, q)) && #[trigger] grm.reaches(q, q) {
        let q = choose|q: int| 0 <= q < grm.num_rules() && (q == r || grm.reaches(r, q)) && #[trigger] grm.reaches(q, q);
        lemma_max_cost_unbounded(grm, tc, costs, r, q);
    } else if costs[r] == u16::MAX {
        let n = grm.num_rules();
        lemma_unbounded_walk(grm, tc, costs, r, n as nat);
        let w = unbounded_walk(grm, costs, r, n as nat);
        let (i, j) = lemma_pigeonhole(w, n);
        let s = w.subrange(i, j + 1);
        assert forall|x: int| 0 <= x < s.len() - 1 implies #[trigger] grm.rule_edge(s[x], s[x + 1]) by {
            assert(s[x] == w[i + x] && s[x + 1] == w[i + x + 1]);
        }
        assert(grm.is_path(s));
        assert(grm.reaches(w[i], w[i]));
        assert(w[i] == r || grm.reaches(r, w[i]));
    }
}

proof fn lemma_path_unbounded(grm: &YaccGrammar, tc: Seq<u8>, costs: Seq<u16>, s: Seq<int>, i: int)
    requires
        grm.wf(),
        max_costs_ok(grm, tc, costs),
        grm.is_path(s),
        0 <= i < s.len(),
        0 <= s.last() < grm.num_rules(),
        grm.reaches(s.last(), s.last()),
    ensures
        costs[s[i]] == u16::MAX,
    decreases s.len() - i,
{
    if i == s.len() - 1 {
    } else {
        lemma_path_unbounded(grm, tc, costs, s, i + 1);
        let a = s[i];
        let b = s[i + 1];
        assert(grm.rule_edge(a, b));
        if costs[a] != u16::MAX {
            assert(bounded_ok(grm, tc, costs, a));
            let (k, j) = choose|k: int, j: int|
                0 <= k < grm.prods_of(a).len() && 0 <= j < grm.prod_of(grm.prods_of(a)[k].0 as int).len()
                    && #[trigger] grm.prod_of(grm.prods_of(a)[k].0 as int)[j] == Symbol::Rule(RIdx(b as u32));
            let p = grm.prods_of(a)[k].0 as int;
            assert(match grm.prod_of(p)[j] {
                Symbol::Rule(x) => costs[x.0 as int] == u16::MAX,
                Symbol::Token(_) => false,
            });
            assert(refers_unbounded(grm, costs, p));
        }
    }
}

} // verus!
