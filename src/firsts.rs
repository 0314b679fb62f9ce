use vstd::prelude::*;
use bit_vec::BitVec;

use crate::bits::{bits_of, bv_from_elem, bv_get, bv_set};
use crate::grammar::YaccGrammar;
use crate::idx::{PIdx, RIdx, Symbol, TIdx};

verus! {

/// Bounds of the packed offset `r * w + t`.
pub proof fn lemma_offset(r: int, t: int, rn: int, w: int)
    requires
        0 <= r < rn,
        0 <= t < w,
    ensures
        0 <= r * w + t < rn * w,
        w <= rn * w,
{
    assert(w <= rn * w) by (nonlinear_arith)
        requires
            1 <= rn,
            0 <= w,
    ;
    assert(0 <= r * w) by (nonlinear_arith)
        requires
            0 <= r,
            0 <= w,
    ;
    assert(r * w + w <= rn * w) by (nonlinear_arith)
        requires
            r + 1 <= rn,
            0 <= w,
    ;
}

/// Distinct pairs have distinct packed offsets.
pub proof fn lemma_offset_inj(r1: int, t1: int, r2: int, t2: int, w: int)
    requires
        0 <= r1,
        0 <= r2,
        0 <= t1 < w,
        0 <= t2 < w,
        r1 * w + t1 == r2 * w + t2,
    ensures
        r1 == r2,
        t1 == t2,
{
    if r1 < r2 {
        assert(r1 * w + w <= r2 * w) by (nonlinear_arith)
            requires
                r1 + 1 <= r2,
                0 <= w,
        ;
    } else if r2 < r1 {
        assert(r2 * w + w <= r1 * w) by (nonlinear_arith)
            requires
                r2 + 1 <= r1,
                0 <= w,
        ;
    }
}

/// How many bits of `s` are clear.
pub open spec fn count_clear(s: Seq<bool>) -> nat
    decreases s.len(),
{
    if s.len() == 0 {
        0
    } else {
        count_clear(s.drop_last()) + if s.last() {
            0nat
        } else {
            1nat
        }
    }
}

/// Setting bits never adds clear bits; setting at least one clear bit removes one.
pub proof fn lemma_count_clear(a: Seq<bool>, b: Seq<bool>)
    requires
        a.len() == b.len(),
        forall|i: int| 0 <= i < a.len() && #[trigger] a[i] ==> b[i],
    ensures
        count_clear(b) <= count_clear(a),
        (exists|i: int| 0 <= i < a.len() && !a[i] && #[trigger] b[i]) ==> count_clear(b) < count_clear(
            a,
        ),
    decreases a.len(),
{
    if a.len() > 0 {
        lemma_count_clear(a.drop_last(), b.drop_last());
        if exists|i: int| 0 <= i < a.len() && !a[i] && #[trigger] b[i] {
            let i = choose|i: int| 0 <= i < a.len() && !a[i] && #[trigger] b[i];
            if i < a.len() - 1 {
                assert(!a.drop_last()[i] && b.drop_last()[i]);
            }
        }
    }
}

/// Every symbol of `prod` before position `i` is a rule whose FIRST set holds ε in `g`.
pub open spec fn nullable_prefix(
    grm: &YaccGrammar,
    g: spec_fn(int, int) -> bool,
    prod: Seq<Symbol>,
    i: int,
) -> bool {
    forall|j: int|
        0 <= j < i ==> match #[trigger] prod[j] {
            Symbol::Rule(q) => g(q.0 as int, grm.num_tokens()),
            Symbol::Token(_) => false,
        }
}

/// What FIRST(r) must hold on account of the symbol at position `i` of its production `prod`.
pub open spec fn symbol_step(
    grm: &YaccGrammar,
    g: spec_fn(int, int) -> bool,
    r: int,
    prod: Seq<Symbol>,
    i: int,
) -> bool {
    match prod[i] {
        Symbol::Token(t) => g(r, t.0 as int),
        Symbol::Rule(q) => forall|t: int|
            0 <= t < grm.num_tokens() && #[trigger] g(q.0 as int, t) ==> g(r, t),
    }
}

/// `g` (with `g(r, t)` for "token `t` is in FIRST(r)" and `g(r, tokens_len)` for ε) respects
/// production `prod` of rule `r`.
pub open spec fn prod_closed(
    grm: &YaccGrammar,
    g: spec_fn(int, int) -> bool,
    r: int,
    prod: Seq<Symbol>,
) -> bool {
    &&& nullable_prefix(grm, g, prod, prod.len() as int) ==> g(r, grm.num_tokens())
    &&& forall|i: int|
        0 <= i < prod.len() && #[trigger] nullable_prefix(grm, g, prod, i) ==> symbol_step(
            grm,
            g,
            r,
            prod,
            i,
        )
}

/// `g` respects every production of the grammar: it is closed under the FIRST rules.
pub open spec fn firsts_closed(grm: &YaccGrammar, g: spec_fn(int, int) -> bool) -> bool {
    forall|r: int, k: int|
        0 <= r < grm.num_rules() && 0 <= k < grm.prods_of(r).len() ==> prod_closed(
            grm,
            g,
            r,
            grm.prod_of(#[trigger] grm.prods_of(r)[k].0 as int),
        )
}

/// Every set closed under the FIRST rules holds bit `t` of rule `r`.
pub open spec fn justified(grm: &YaccGrammar, r: int, t: int) -> bool {
    forall|g: spec_fn(int, int) -> bool| #[trigger] firsts_closed(grm, g) ==> g(r, t)
}

/// Every bit set in `f` is held by every closed set.
pub open spec fn least(grm: &YaccGrammar, f: spec_fn(int, int) -> bool) -> bool {
    forall|r: int, t: int|
        0 <= r < grm.num_rules() && 0 <= t <= grm.num_tokens() && #[trigger] f(r, t) ==> justified(
            grm,
            r,
            t,
        )
}

/// The bits of a packed table with `w` bits per rule, read as a relation.
pub open spec fn table(bits: Seq<bool>, w: int) -> spec_fn(int, int) -> bool {
    |r: int, t: int| bits[r * w + t]
}

/// Bit `t` of rule `r` is justified by the symbol at position `i` of the `k`th production of
/// `r` (or, with `i` at the end of the production, by the whole production being nullable).
pub proof fn lemma_justified(
    grm: &YaccGrammar,
    f: spec_fn(int, int) -> bool,
    r: int,
    k: int,
    i: int,
    t: int,
)
    requires
        grm.wf(),
        0 <= r < grm.num_rules(),
        0 <= k < grm.prods_of(r).len(),
        least(grm, f),
        0 <= i <= grm.prod_of(grm.prods_of(r)[k].0 as int).len(),
        nullable_prefix(grm, f, grm.prod_of(grm.prods_of(r)[k].0 as int), i),
        i == grm.prod_of(grm.prods_of(r)[k].0 as int).len() ==> t == grm.num_tokens(),
        i < grm.prod_of(grm.prods_of(r)[k].0 as int).len() ==> match grm.prod_of(
            grm.prods_of(r)[k].0 as int,
        )[i] {
            Symbol::Token(tt) => t == tt.0,
            Symbol::Rule(q) => 0 <= t < grm.num_tokens() && f(q.0 as int, t),
        },
    ensures
        justified(grm, r, t),
{
    let p = grm.prods_of(r)[k].0 as int;
    let prod = grm.prod_of(p);
    assert forall|g: spec_fn(int, int) -> bool| #[trigger] firsts_closed(grm, g) implies g(r, t) by {
        assert forall|j: int| 0 <= j < i implies match #[trigger] prod[j] {
            Symbol::Rule(q) => g(q.0 as int, grm.num_tokens()),
            Symbol::Token(_) => false,
        } by {
            match prod[j] {
                Symbol::Rule(q) => {
                    assert(grm.symbol_ok(prod[j]));
                    assert(f(q.0 as int, grm.num_tokens()));
                    assert(justified(grm, q.0 as int, grm.num_tokens()));
                },
                Symbol::Token(_) => {},
            }
        }
        assert(nullable_prefix(grm, g, prod, i));
        assert(prod_closed(grm, g, r, prod));
        if i < prod.len() {
            assert(symbol_step(grm, g, r, prod, i));
            match prod[i] {
                Symbol::Token(tt) => {},
                Symbol::Rule(q) => {
                    assert(grm.symbol_ok(prod[i]));
                    assert(justified(grm, q.0 as int, t));
                },
            }
        }
    }
}

/// The FIRST sets of a grammar: for each rule, the tokens that can begin a sentence it
/// derives, and whether it derives the empty sentence (ε).
///
/// The bits are packed: rule `r` owns bits `r * (tokens_len + 1)` up to (not including)
/// `(r + 1) * (tokens_len + 1)`; the last of those is ε.
#[derive(Debug)]
pub struct Firsts {
    pub bf: BitVec,
    pub rules_len: usize,
    pub tokens_len: usize,
}

impl Firsts {
    /// The bits as a relation: `(r, t)` for token `t`, `(r, tokens_len)` for ε.
    pub open spec fn holds(&self) -> spec_fn(int, int) -> bool {
        table(bits_of(self.bf), self.tokens_len + 1)
    }

    /// The table has `tokens_len + 1` bits for each of `rules_len` rules.
    pub open spec fn shape_ok(&self) -> bool {
        &&& bits_of(self.bf).len() == self.rules_len * (self.tokens_len + 1)
        &&& self.rules_len * (self.tokens_len + 1) <= usize::MAX
    }

    /// The table has the shape that `grm` asks for.
    pub open spec fn wf(&self, grm: &YaccGrammar) -> bool {
        &&& self.shape_ok()
        &&& self.rules_len == grm.num_rules()
        &&& self.tokens_len == grm.num_tokens()
    }

    /// Compute the FIRST sets of `grm`: the least sets closed under the FIRST rules.
    pub fn new(grm: &YaccGrammar) -> (r: Firsts)
        requires
            grm.wf(),
            grm.num_rules() * (grm.num_tokens() + 1) <= usize::MAX,
        ensures
            r.wf(grm),
            firsts_closed(grm, r.holds()),
            forall|g: spec_fn(int, int) -> bool|
                #[trigger] firsts_closed(grm, g) ==> forall|q: int, t: int|
                    0 <= q < grm.num_rules() && 0 <= t <= grm.num_tokens() && #[trigger] r.holds()(q, t)
                        ==> g(q, t),
    {
        let tl = grm.tokens_len.0 as usize;
        let rl = grm.rules_len.0 as usize;
        proof {
            lemma_offset(0, 0, rl as int, tl + 1);
        }
        let mut firsts = Firsts { bf: bv_from_elem(rl * (tl + 1), false), rules_len: rl, tokens_len: tl };
        proof {
            assert forall|q: int, t: int|
                0 <= q < grm.num_rules() && 0 <= t <= grm.num_tokens() implies !#[trigger] firsts.holds()(
                    q,
                    t,
                ) by {
                lemma_offset(q, t, rl as int, tl + 1);
            }
        }
        loop
            invariant
                grm.wf(),
                tl == grm.num_tokens(),
                rl == grm.num_rules(),
                firsts.wf(grm),
                least(grm, firsts.holds()),
            decreases count_clear(bits_of(firsts.bf)),
        {
            let ghost start = bits_of(firsts.bf);
            let mut changed = false;
            let mut ri: usize = 0;
            while ri < rl
                invariant
                    grm.wf(),
                    tl == grm.num_tokens(),
                    rl == grm.num_rules(),
                    firsts.wf(grm),
                    least(grm, firsts.holds()),
                    0 <= ri <= rl,
                    forall|i: int| 0 <= i < start.len() && #[trigger] start[i] ==> bits_of(firsts.bf)[i],
                    bits_of(firsts.bf).len() == start.len(),
                    !changed ==> bits_of(firsts.bf) == start,
                    changed ==> exists|i: int|
                        0 <= i < start.len() && !start[i] && #[trigger] bits_of(firsts.bf)[i],
                    !changed ==> forall|r: int, k: int|
                        0 <= r < ri && 0 <= k < grm.prods_of(r).len() ==> prod_closed(
                            grm,
                            firsts.holds(),
                            r,
                            grm.prod_of(#[trigger] grm.prods_of(r)[k].0 as int),
                        ),
                decreases rl - ri,
            {
                let prods = grm.rule_to_prods(RIdx(ri as u32));
                let mut k: usize = 0;
                while k < prods.len()
                    invariant
                        grm.wf(),
                        tl == grm.num_tokens(),
                        rl == grm.num_rules(),
                        firsts.wf(grm),
                        least(grm, firsts.holds()),
                        0 <= ri < rl,
                        prods@ == grm.prods_of(ri as int),
                        0 <= k <= prods@.len(),
                        forall|i: int|
                            0 <= i < start.len() && #[trigger] start[i] ==> bits_of(firsts.bf)[i],
                        bits_of(firsts.bf).len() == start.len(),
                        !changed ==> bits_of(firsts.bf) == start,
                        changed ==> exists|i: int|
                            0 <= i < start.len() && !start[i] && #[trigger] bits_of(firsts.bf)[i],
                        !changed ==> forall|r: int, k2: int|
                            (0 <= r < ri && 0 <= k2 < grm.prods_of(r).len()) || (r == ri && 0 <= k2
                                < k) ==> prod_closed(
                                grm,
                                firsts.holds(),
                                r,
                                grm.prod_of(#[trigger] grm.prods_of(r)[k2].0 as int),
                            ),
                    decreases prods@.len() - k,
                {
                    let changed_here = firsts.scan_prod(grm, ri, prods, k);
                    if changed_here {
                        changed = true;
                    }
                    k += 1;
                }
                ri += 1;
            }
            if !changed {
                return firsts;
            }
            proof {
                lemma_count_clear(start, bits_of(firsts.bf));
            }
        }
    }

    /// Update FIRST(`ri`) from its `k`th production; returns whether a bit was set. Where
    /// nothing changes, the production is respected.
    fn scan_prod(&mut self, grm: &YaccGrammar, ri: usize, prods: &[PIdx], k: usize) -> (changed:
        bool)
        requires
            grm.wf(),
            old(self).wf(grm),
            least(grm, old(self).holds()),
            0 <= ri < grm.num_rules(),
            prods@ == grm.prods_of(ri as int),
            0 <= k < prods@.len(),
        ensures
            final(self).wf(grm),
            least(grm, final(self).holds()),
            forall|i: int|
                0 <= i < bits_of(old(self).bf).len() && #[trigger] bits_of(old(self).bf)[i]
                    ==> bits_of(final(self).bf)[i],
            !changed ==> bits_of(final(self).bf) == bits_of(old(self).bf),
            changed ==> exists|i: int|
                0 <= i < bits_of(old(self).bf).len() && !bits_of(old(self).bf)[i]
                    && #[trigger] bits_of(final(self).bf)[i],
            !changed ==> prod_closed(
                grm,
                final(self).holds(),
                ri as int,
                grm.prod_of(prods@[k as int].0 as int),
            ),
    {
        let ghost start = bits_of(self.bf);
        let tl = self.tokens_len;
        let prod = grm.prod(prods[k]);
        let ghost r = ri as int;
        assert(r == ri);
        let mut changed = false;
        if prod.len() == 0 {
            proof {
                lemma_justified(grm, self.holds(), r, k as int, 0, tl as int);
            }
            if !self.set(grm, ri, tl) {
                changed = true;
            }
            return changed;
        }
        let mut si: usize = 0;
        let mut stop = false;
        while si < prod.len() && !stop
            invariant
                grm.wf(),
                self.wf(grm),
                tl == grm.num_tokens(),
                least(grm, self.holds()),
                0 <= ri < grm.num_rules(),
                r == ri,
                prods@ == grm.prods_of(ri as int),
                0 <= k < prods@.len(),
                prod@ == grm.prod_of(prods@[k as int].0 as int),
                prod@.len() > 0,
                0 <= si <= prod@.len(),
                forall|i: int| 0 <= i < start.len() && #[trigger] start[i] ==> bits_of(self.bf)[i],
                bits_of(self.bf).len() == start.len(),
                !changed ==> bits_of(self.bf) == start,
                changed ==> exists|i: int|
                    0 <= i < start.len() && !start[i] && #[trigger] bits_of(self.bf)[i],
                !stop ==> nullable_prefix(grm, self.holds(), prod@, si as int),
                !changed && !stop ==> forall|j: int|
                    0 <= j < si ==> #[trigger] symbol_step(grm, self.holds(), r, prod@, j),
                !changed && !stop && si == prod@.len() ==> self.holds()(r, tl as int),
                !changed && stop ==> prod_closed(grm, self.holds(), r, prod@),
            decreases prod@.len() - si + if stop {
                0int
            } else {
                1int
            },
        {
            match prod[si] {
                Symbol::Token(t) => {
                    proof {
                        assert(grm.symbol_ok(prod@[si as int]));
                        lemma_justified(grm, self.holds(), r, k as int, si as int, t.0 as int);
                    }
                    if !self.set(grm, ri, t.0 as usize) {
                        changed = true;
                    }
                    stop = true;
                    proof {
                        if !changed {
                            self.lemma_stop_closed(grm, r, prod@, si as int);
                        }
                    }
                },
                Symbol::Rule(q) => {
                    proof {
                        assert(grm.symbol_ok(prod@[si as int]));
                    }
                    let qi = q.0 as usize;
                    let mut bit: usize = 0;
                    while bit < tl
                        invariant
                            grm.wf(),
                            self.wf(grm),
                            tl == grm.num_tokens(),
                            least(grm, self.holds()),
                            0 <= ri < grm.num_rules(),
                            r == ri,
                            0 <= qi < grm.num_rules(),
                            prods@ == grm.prods_of(ri as int),
                            0 <= k < prods@.len(),
                            prod@ == grm.prod_of(prods@[k as int].0 as int),
                            0 <= si < prod@.len(),
                            prod@[si as int] == Symbol::Rule(RIdx(qi as u32)),
                            0 <= bit <= tl,
                            !stop,
                            forall|i: int|
                                0 <= i < start.len() && #[trigger] start[i] ==> bits_of(self.bf)[i],
                            bits_of(self.bf).len() == start.len(),
                            !changed ==> bits_of(self.bf) == start,
                            changed ==> exists|i: int|
                                0 <= i < start.len() && !start[i] && #[trigger] bits_of(self.bf)[i],
                            nullable_prefix(grm, self.holds(), prod@, si as int),
                            !changed ==> forall|j: int|
                                0 <= j < si ==> #[trigger] symbol_step(
                                    grm,
                                    self.holds(),
                                    r,
                                    prod@,
                                    j,
                                ),
                            !changed ==> forall|t: int|
                                0 <= t < bit && #[trigger] self.holds()(qi as int, t) ==> self.holds()(r, t),
                        decreases tl - bit,
                    {
                        if self.is_set(RIdx(qi as u32), TIdx(bit as u32)) {
                            proof {
                                lemma_justified(grm, self.holds(), r, k as int, si as int, bit as int);
                            }
                            if !self.set(grm, ri, bit) {
                                changed = true;
                            }
                        }
                        bit += 1;
                    }
                    let q_eps = self.is_epsilon_set(RIdx(qi as u32));
                    if q_eps && si == prod.len() - 1 {
                        proof {
                            assert(nullable_prefix(grm, self.holds(), prod@, prod@.len() as int));
                            lemma_justified(
                                grm,
                                self.holds(),
                                r,
                                k as int,
                                prod@.len() as int,
                                tl as int,
                            );
                        }
                        if !self.set(grm, ri, tl) {
                            changed = true;
                        }
                    }
                    if !q_eps {
                        stop = true;
                        proof {
                            if !changed {
                                assert(symbol_step(grm, self.holds(), r, prod@, si as int));
                                self.lemma_stop_closed(grm, r, prod@, si as int);
                            }
                        }
                    } else {
                        proof {
                            if !changed {
                                assert(symbol_step(grm, self.holds(), r, prod@, si as int));
                            }
                            assert(nullable_prefix(grm, self.holds(), prod@, si + 1));
                        }
                        si += 1;
                    }
                },
            }
        }
        proof {
            if !changed && !stop {
                assert(prod_closed(grm, self.holds(), r, prod@));
            }
        }
        changed
    }

    /// A scan that stops at position `si`, at a symbol that cannot derive ε, with every
    /// symbol up to it respected, respects the production.
    proof fn lemma_stop_closed(&self, grm: &YaccGrammar, r: int, prod: Seq<Symbol>, si: int)
        requires
            0 <= si < prod.len(),
            forall|j: int| 0 <= j <= si ==> #[trigger] symbol_step(grm, self.holds(), r, prod, j),
            match prod[si] {
                Symbol::Token(_) => true,
                Symbol::Rule(q) => !self.holds()(q.0 as int, grm.num_tokens()),
            },
        ensures
            prod_closed(grm, self.holds(), r, prod),
    {
        assert(!nullable_prefix(grm, self.holds(), prod, prod.len() as int));
        assert forall|i: int|
            0 <= i < prod.len() && #[trigger] nullable_prefix(
                grm,
                self.holds(),
                prod,
                i,
            ) implies symbol_step(grm, self.holds(), r, prod, i) by {
            if i > si {
                assert(match prod[si] {
                    Symbol::Rule(q) => self.holds()(q.0 as int, grm.num_tokens()),
                    Symbol::Token(_) => false,
                });
            }
        }
    }

    /// Is token `tidx` in FIRST(`ridx`)?
    pub fn is_set(&self, ridx: RIdx, tidx: TIdx) -> (r: bool)
        requires
            self.shape_ok(),
            ridx.0 < self.rules_len,
            tidx.0 < self.tokens_len,
        ensures
            r == self.holds()(ridx.0 as int, tidx.0 as int),
    {
        proof {
            lemma_offset(ridx.0 as int, tidx.0 as int, self.rules_len as int, self.tokens_len + 1);
        }
        bv_get(&self.bf, ridx.0 as usize * (self.tokens_len + 1) + tidx.0 as usize)
    }

    /// Does `ridx` derive the empty sentence?
    pub fn is_epsilon_set(&self, ridx: RIdx) -> (r: bool)
        requires
            self.shape_ok(),
            ridx.0 < self.rules_len,
        ensures
            r == self.holds()(ridx.0 as int, self.tokens_len as int),
    {
        proof {
            lemma_offset(ridx.0 as int, self.tokens_len as int, self.rules_len as int, self.tokens_len + 1);
        }
        bv_get(&self.bf, ridx.0 as usize * (self.tokens_len + 1) + self.tokens_len)
    }

    /// Set bit `tidx` (ε where `tidx` is `tokens_len`) of rule `ridx`; returns whether it
    /// was set already.
    fn set(&mut self, grm: &YaccGrammar, ridx: usize, tidx: usize) -> (was: bool)
        requires
            grm.wf(),
            old(self).wf(grm),
            ridx < grm.num_rules(),
            tidx <= grm.num_tokens(),
            least(grm, old(self).holds()),
            justified(grm, ridx as int, tidx as int),
        ensures
            final(self).wf(grm),
            least(grm, final(self).holds()),
            was == old(self).holds()(ridx as int, tidx as int),
            final(self).holds()(ridx as int, tidx as int),
            bits_of(final(self).bf).len() == bits_of(old(self).bf).len(),
            was ==> bits_of(final(self).bf) == bits_of(old(self).bf),
            !was ==> {
                let off = ridx * (grm.num_tokens() + 1) + tidx;
                &&& 0 <= off < bits_of(old(self).bf).len()
                &&& !bits_of(old(self).bf)[off]
                &&& bits_of(final(self).bf)[off]
            },
            forall|i: int|
                0 <= i < bits_of(old(self).bf).len() && #[trigger] bits_of(old(self).bf)[i]
                    ==> bits_of(final(self).bf)[i],
            forall|q: int, t: int|
                0 <= q < grm.num_rules() && 0 <= t <= grm.num_tokens() && (q != ridx || t != tidx)
                    ==> #[trigger] final(self).holds()(q, t) == old(self).holds()(q, t),
    {
        proof {
            lemma_offset(ridx as int, tidx as int, grm.num_rules(), grm.num_tokens() + 1);
        }
        let w = self.tokens_len + 1;
        let off = ridx * w + tidx;
        let was = bv_get(&self.bf, off);
        if !was {
            bv_set(&mut self.bf, off, true);
        }
        proof {
            if was {
                assert(bits_of(self.bf) =~= bits_of(old(self).bf));
            }
            assert forall|q: int, t: int|
                0 <= q < grm.num_rules() && 0 <= t <= grm.num_tokens() && (q != ridx || t
                    != tidx) implies #[trigger] self.holds()(q, t) == old(self).holds()(q, t) by {
                lemma_offset(q, t, grm.num_rules(), w as int);
                if q * w + t == off {
                    lemma_offset_inj(q, t, ridx as int, tidx as int, w as int);
                }
            }
            assert forall|q: int, t: int|
                0 <= q < grm.num_rules() && 0 <= t <= grm.num_tokens() && #[trigger] self.holds()(
                    q,
                    t,
                ) implies justified(grm, q, t) by {
                if q != ridx || t != tidx {
                    assert(old(self).holds()(q, t));
                }
            }
        }
        was
    }
}


impl YaccGrammar {
    /// The FIRST sets of this grammar.
    pub fn yacc_firsts(&self) -> (r: Firsts)
        requires
            self.wf(),
            self.num_rules() * (self.num_tokens() + 1) <= usize::MAX,
        ensures
            r.wf(self),
            firsts_closed(self, r.holds()),
            forall|g: spec_fn(int, int) -> bool|
                #[trigger] firsts_closed(self, g) ==> forall|q: int, t: int|
                    0 <= q < self.num_rules() && 0 <= t <= self.num_tokens() && #[trigger] r.holds()(q, t)
                        ==> g(q, t),
    {
        Firsts::new(self)
    }

    /// The FIRST sets of this grammar (the same as `yacc_firsts`).
    pub fn firsts(&self) -> (r: Firsts)
        requires
            self.wf(),
            self.num_rules() * (self.num_tokens() + 1) <= usize::MAX,
        ensures
            r.wf(self),
            firsts_closed(self, r.holds()),
            forall|g: spec_fn(int, int) -> bool|
                #[trigger] firsts_closed(self, g) ==> forall|q: int, t: int|
                    0 <= q < self.num_rules() && 0 <= t <= self.num_tokens() && #[trigger] r.holds()(q, t)
                        ==> g(q, t),
    {
        Firsts::new(self)
    }
}

} // verus!
