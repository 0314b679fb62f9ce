use vstd::prelude::*;
use bit_vec::BitVec;

use crate::bits::{bits_of, bv_from_elem, bv_get, bv_len, bv_set};
use crate::firsts::{count_clear, lemma_count_clear, lemma_offset, lemma_offset_inj, Firsts};
use crate::grammar::YaccGrammar;
use crate::idx::{PIdx, RIdx, SIdx, Symbol, TIdx};

verus! {

/// Every production's items fit: `(len + 1) * tokens_len` lookahead bits are addressable.
pub open spec fn item_sizes_fit(grm: &YaccGrammar) -> bool {
    forall|p: int|
        0 <= p < grm.num_prods() ==> (#[trigger] grm.prod_of(p).len() + 1) * grm.num_tokens()
            <= usize::MAX
}

/// Some token of FIRST(`prod[k..]`) is `t`, reading FIRST and ε from `f`.
pub open spec fn first_of_rest(
    grm: &YaccGrammar,
    f: spec_fn(int, int) -> bool,
    prod: Seq<Symbol>,
    k: int,
    t: int,
) -> bool
    decreases prod.len() - k,
{
    if 0 <= k < prod.len() {
        match prod[k] {
            Symbol::Token(u) => u.0 == t,
            Symbol::Rule(m) => f(m.0 as int, t) || (f(m.0 as int, grm.num_tokens()) && first_of_rest(
                grm,
                f,
                prod,
                k + 1,
                t,
            )),
        }
    } else {
        false
    }
}

/// `prod[k..]` derives the empty sentence, reading ε from `f`.
pub open spec fn rest_nullable(grm: &YaccGrammar, f: spec_fn(int, int) -> bool, prod: Seq<Symbol>, k: int) -> bool
    decreases prod.len() - k,
{
    if 0 <= k < prod.len() {
        match prod[k] {
            Symbol::Token(_) => false,
            Symbol::Rule(m) => f(m.0 as int, grm.num_tokens()) && rest_nullable(grm, f, prod, k + 1),
        }
    } else {
        true
    }
}

/// Token `t` is a lookahead of the items that the item `[a, dot = d]` (with lookaheads `gl`)
/// brings in for the rule after its dot.
pub open spec fn lookahead(
    grm: &YaccGrammar,
    f: spec_fn(int, int) -> bool,
    gl: spec_fn(int, int, int) -> bool,
    a: int,
    d: int,
    t: int,
) -> bool {
    first_of_rest(grm, f, grm.prod_of(a), d + 1, t) || (rest_nullable(grm, f, grm.prod_of(a), d + 1)
        && gl(a, d, t))
}

/// The item `[a, dot = d]` is closed in the set `(ga, gl)`: where it is active and its dot
/// stands before a rule, every production of that rule is active at dot 0 with at least the
/// propagated lookaheads.
pub open spec fn item_closed(
    grm: &YaccGrammar,
    f: spec_fn(int, int) -> bool,
    ga: spec_fn(int, int) -> bool,
    gl: spec_fn(int, int, int) -> bool,
    a: int,
    d: int,
) -> bool {
    match grm.prod_of(a)[d] {
        Symbol::Rule(n) => ga(a, d) ==> forall|k: int|
            0 <= k < grm.prods_of(n.0 as int).len() ==> {
                &&& ga((#[trigger] grm.prods_of(n.0 as int)[k]).0 as int, 0)
                &&& forall|t: int|
                    0 <= t < grm.num_tokens() && #[trigger] lookahead(grm, f, gl, a, d, t) ==> gl(
                        grm.prods_of(n.0 as int)[k].0 as int,
                        0,
                        t,
                    )
            },
        Symbol::Token(_) => true,
    }
}

/// The set `(ga, gl)` is closed under LR(1) closure.
pub open spec fn set_closed(
    grm: &YaccGrammar,
    f: spec_fn(int, int) -> bool,
    ga: spec_fn(int, int) -> bool,
    gl: spec_fn(int, int, int) -> bool,
) -> bool {
    forall|a: int, d: int|
        0 <= a < grm.num_prods() && 0 <= d < grm.prod_of(a).len() ==> #[trigger] item_closed(
            grm,
            f,
            ga,
            gl,
            a,
            d,
        )
}

/// The set `(ga, gl)` holds every item and lookahead of `(sa, sl)`.
pub open spec fn set_contains(
    grm: &YaccGrammar,
    ga: spec_fn(int, int) -> bool,
    gl: spec_fn(int, int, int) -> bool,
    sa: spec_fn(int, int) -> bool,
    sl: spec_fn(int, int, int) -> bool,
) -> bool {
    &&& forall|a: int, d: int|
        0 <= a < grm.num_prods() && 0 <= d <= grm.prod_of(a).len() && #[trigger] sa(a, d) ==> ga(
            a,
            d,
        )
    &&& forall|a: int, d: int, t: int|
        0 <= a < grm.num_prods() && 0 <= d <= grm.prod_of(a).len() && 0 <= t < grm.num_tokens()
            && #[trigger] sl(a, d, t) ==> gl(a, d, t)
}

/// `(ga, gl)` holds the result of moving the dot over `sym` in every active item of `(sa, sl)`.
pub open spec fn set_advanced(
    grm: &YaccGrammar,
    sa: spec_fn(int, int) -> bool,
    sl: spec_fn(int, int, int) -> bool,
    sym: Symbol,
    ga: spec_fn(int, int) -> bool,
    gl: spec_fn(int, int, int) -> bool,
) -> bool {
    forall|a: int, d: int|
        0 <= a < grm.num_prods() && 0 <= d < grm.prod_of(a).len() && #[trigger] sa(a, d)
            && grm.prod_of(a)[d] == sym ==> {
            &&& ga(a, d + 1)
            &&& forall|t: int| 0 <= t < grm.num_tokens() && #[trigger] sl(a, d, t) ==> gl(a, d + 1, t)
        }
}

/// All items of a set, one per production: `active` has a bit per dot position, and `dots`
/// holds `tokens_len` lookahead bits per dot position, dot `d` owning bits
/// `d * tokens_len` up to (not including) `(d + 1) * tokens_len`.
#[derive(Debug)]
pub struct Item {
    pub active: BitVec,
    pub dots: BitVec,
}

/// A set of LR(1) items, with one `Item` for each production of the grammar, in
/// production order.
#[derive(Debug)]
pub struct Itemset {
    pub items: Vec<Item>,
}

/// The bits of all items that are clear.
pub open spec fn clear_in(items: Seq<Item>) -> nat
    decreases items.len(),
{
    if items.len() == 0 {
        0
    } else {
        clear_in(items.drop_last()) + count_clear(bits_of(items.last().active)) + count_clear(
            bits_of(items.last().dots),
        )
    }
}

/// `y` holds every bit of `x`.
pub open spec fn items_grow(x: Seq<Item>, y: Seq<Item>) -> bool {
    &&& x.len() == y.len()
    &&& forall|a: int|
        0 <= a < x.len() ==> {
            &&& bits_of((#[trigger] x[a]).active).len() == bits_of(y[a].active).len()
            &&& bits_of(x[a].dots).len() == bits_of(y[a].dots).len()
            &&& forall|i: int|
                0 <= i < bits_of(x[a].active).len() && #[trigger] bits_of(x[a].active)[i] ==> bits_of(
                    y[a].active,
                )[i]
            &&& forall|i: int|
                0 <= i < bits_of(x[a].dots).len() && #[trigger] bits_of(x[a].dots)[i] ==> bits_of(
                    y[a].dots,
                )[i]
        }
}

/// `y` holds bit `i` of item `a` (of `active`, or of `dots`) where `x` does not.
pub open spec fn flip_at(x: Seq<Item>, y: Seq<Item>, a: int, i: int) -> bool {
    0 <= a < x.len() && ((0 <= i < bits_of(x[a].active).len() && !bits_of(x[a].active)[i]
        && bits_of(y[a].active)[i]) || (0 <= i < bits_of(x[a].dots).len() && !bits_of(
        x[a].dots,
    )[i] && bits_of(y[a].dots)[i]))
}

/// `y` holds a bit that `x` does not.
pub open spec fn items_flipped(x: Seq<Item>, y: Seq<Item>) -> bool {
    exists|a: int, i: int| #[trigger] flip_at(x, y, a, i)
}

proof fn lemma_clear_in(x: Seq<Item>, y: Seq<Item>)
    requires
        items_grow(x, y),
    ensures
        clear_in(y) <= clear_in(x),
        items_flipped(x, y) ==> clear_in(y) < clear_in(x),
    decreases x.len(),
{
    if x.len() > 0 {
        let n = x.len() - 1;
        assert(items_grow(x.drop_last(), y.drop_last())) by {
            assert forall|a: int| 0 <= a < x.drop_last().len() implies #[trigger] x.drop_last()[a]
                == x[a] && y.drop_last()[a] == y[a] by {}
        }
        lemma_clear_in(x.drop_last(), y.drop_last());
        assert(x[n] == x.last());
        lemma_count_clear(bits_of(x[n].active), bits_of(y[n].active));
        lemma_count_clear(bits_of(x[n].dots), bits_of(y[n].dots));
        if items_flipped(x, y) {
            let (a, i) = choose|a: int, i: int| #[trigger] flip_at(x, y, a, i);
            if a < n {
                assert(x.drop_last()[a] == x[a] && y.drop_last()[a] == y[a]);
                assert(flip_at(x.drop_last(), y.drop_last(), a, i));
            } else if 0 <= i < bits_of(x[a].active).len() && !bits_of(x[a].active)[i] && bits_of(y[a].active)[i] {
                assert(!bits_of(x[n].active)[i] && bits_of(y[n].active)[i]);
            } else {
                assert(!bits_of(x[n].dots)[i] && bits_of(y[n].dots)[i]);
            }
        }
    }
}

impl Itemset {
    /// Is the item `[a, dot = d]` present?
    pub open spec fn acts(&self) -> spec_fn(int, int) -> bool {
        |a: int, d: int| bits_of(self.items@[a].active)[d]
    }

    /// Is token `t` a lookahead of the item `[a, dot = d]`?
    pub open spec fn las(&self, grm: &YaccGrammar) -> spec_fn(int, int, int) -> bool {
        |a: int, d: int, t: int| bits_of(self.items@[a].dots)[d * grm.num_tokens() + t]
    }

    /// The items have the shape that `grm` asks for.
    pub open spec fn wf(&self, grm: &YaccGrammar) -> bool {
        &&& self.items@.len() == grm.num_prods()
        &&& forall|a: int|
            0 <= a < grm.num_prods() ==> {
                &&& bits_of((#[trigger] self.items@[a]).active).len() == grm.prod_of(a).len() + 1
                &&& bits_of(self.items@[a].dots).len() == (grm.prod_of(a).len() + 1)
                    * grm.num_tokens()
                &&& (grm.prod_of(a).len() + 1) * grm.num_tokens() <= usize::MAX
            }
    }

    /// An empty item set for `grm`.
    pub fn new(grm: &YaccGrammar) -> (r: Itemset)
        requires
            grm.wf(),
            item_sizes_fit(grm),
        ensures
            r.wf(grm),
            forall|a: int, d: int|
                0 <= a < grm.num_prods() && 0 <= d <= grm.prod_of(a).len() ==> !#[trigger] r.acts()(
                    a,
                    d,
                ),
            forall|a: int, d: int, t: int|
                0 <= a < grm.num_prods() && 0 <= d <= grm.prod_of(a).len() && 0 <= t
                    < grm.num_tokens() ==> !#[trigger] r.las(grm)(a, d, t),
    {
        let tl = grm.tokens_len.0 as usize;
        let mut items: Vec<Item> = Vec::new();
        let mut p: usize = 0;
        while p < grm.prods.len()
            invariant
                grm.wf(),
                item_sizes_fit(grm),
                tl == grm.num_tokens(),
                0 <= p <= grm.num_prods(),
                items@.len() == p,
                forall|a: int|
                    0 <= a < p ==> {
                        &&& bits_of((#[trigger] items@[a]).active) == Seq::new(
                            (grm.prod_of(a).len() + 1) as nat,
                            |_i: int| false,
                        )
                        &&& bits_of(items@[a].dots) == Seq::new(
                            ((grm.prod_of(a).len() + 1) * grm.num_tokens()) as nat,
                            |_i: int| false,
                        )
                    },
            decreases grm.num_prods() - p,
        {
            proof {
                assert(grm.prod_of(p as int).len() < u32::MAX);
            }
            let num_syms = grm.prods[p].len() + 1;
            proof {
                assert((grm.prod_of(p as int).len() + 1) * grm.num_tokens() <= usize::MAX);
            }
            items.push(Item { active: bv_from_elem(num_syms, false), dots: bv_from_elem(num_syms * tl, false) });
            proof {
                assert(items@[p as int].active == items@.last().active);
            }
            p += 1;
        }
        let r = Itemset { items };
        proof {
            assert forall|a: int, d: int, t: int|
                0 <= a < grm.num_prods() && 0 <= d <= grm.prod_of(a).len() && 0 <= t
                    < grm.num_tokens() implies !#[trigger] r.las(grm)(a, d, t) by {
                lemma_offset(d, t, grm.prod_of(a).len() + 1 as int, grm.num_tokens());
                assert(d * grm.num_tokens() + t < (grm.prod_of(a).len() + 1) * grm.num_tokens());
            }
            assert forall|a: int| 0 <= a < grm.num_prods() implies {
                &&& bits_of((#[trigger] r.items@[a]).active).len() == grm.prod_of(a).len() + 1
                &&& bits_of(r.items@[a].dots).len() == (grm.prod_of(a).len() + 1)
                    * grm.num_tokens()
                &&& (grm.prod_of(a).len() + 1) * grm.num_tokens() <= usize::MAX
            } by {
                assert((grm.prod_of(a).len() + 1) * grm.num_tokens() == grm.num_tokens() * (grm.prod_of(a).len() + 1)) by (nonlinear_arith);
            }
        }
        r
    }

    /// Is the item `[a, dot = d]` present?
    fn is_active(&self, grm: &YaccGrammar, a: usize, d: usize) -> (r: bool)
        requires
            grm.wf(),
            self.wf(grm),
            a < grm.num_prods(),
            d <= grm.prod_of(a as int).len(),
        ensures
            r == self.acts()(a as int, d as int),
    {
        bv_get(&self.items[a].active, d)
    }

    /// Is token `t` a lookahead of the item `[a, dot = d]`?
    fn la_bit(&self, grm: &YaccGrammar, a: usize, d: usize, t: usize) -> (r: bool)
        requires
            grm.wf(),
            self.wf(grm),
            a < grm.num_prods(),
            d <= grm.prod_of(a as int).len(),
            t < grm.num_tokens(),
        ensures
            r == self.las(grm)(a as int, d as int, t as int),
    {
        proof {
            let _ = self.items@[a as int];
            assert((grm.prod_of(a as int).len() + 1) * grm.num_tokens() <= usize::MAX);
            lemma_offset(d as int, t as int, grm.prod_of(a as int).len() + 1 as int, grm.num_tokens());
        }
        bv_get(&self.items[a].dots, d * grm.tokens_len.0 as usize + t)
    }

    /// Add the item `[a, dot = d]`, which is absent.
    fn set_active(&mut self, grm: &YaccGrammar, a: usize, d: usize)
        requires
            grm.wf(),
            old(self).wf(grm),
            a < grm.num_prods(),
            d <= grm.prod_of(a as int).len(),
            !old(self).acts()(a as int, d as int),
        ensures
            final(self).wf(grm),
            items_grow(old(self).items@, final(self).items@),
            flip_at(old(self).items@, final(self).items@, a as int, d as int),
            forall|b: int| 0 <= b < grm.num_prods() && b != a ==> #[trigger] final(self).items@[b] == old(self).items@[b],
            forall|b: int, e: int|
                0 <= b < grm.num_prods() && 0 <= e <= grm.prod_of(b).len() ==> #[trigger] final(self).acts()(b, e) == (old(self).acts()(b, e) || (b == a && e == d)),
            forall|b: int, e: int, t: int|
                0 <= b < grm.num_prods() && 0 <= e <= grm.prod_of(b).len() && 0 <= t
                    < grm.num_tokens() ==> #[trigger] final(self).las(grm)(b, e, t) == old(self).las(grm)(b, e, t),
    {
        bv_set(&mut self.items[a].active, d, true);
        proof {
            assert forall|b: int| 0 <= b < grm.num_prods() && b != a implies #[trigger] self.items@[b]
                == old(self).items@[b] by {}
        }
    }

    /// Add lookahead `t` to the item `[a, dot = d]`, which lacks it.
    fn set_la(&mut self, grm: &YaccGrammar, a: usize, d: usize, t: usize)
        requires
            grm.wf(),
            old(self).wf(grm),
            a < grm.num_prods(),
            d <= grm.prod_of(a as int).len(),
            t < grm.num_tokens(),
            !old(self).las(grm)(a as int, d as int, t as int),
        ensures
            final(self).wf(grm),
            items_grow(old(self).items@, final(self).items@),
            flip_at(old(self).items@, final(self).items@, a as int, d * grm.num_tokens() + t),
            forall|b: int| 0 <= b < grm.num_prods() && b != a ==> #[trigger] final(self).items@[b] == old(self).items@[b],
            forall|b: int, e: int|
                0 <= b < grm.num_prods() && 0 <= e <= grm.prod_of(b).len() ==> #[trigger] final(self).acts()(b, e) == old(self).acts()(b, e),
            forall|b: int, e: int, u: int|
                0 <= b < grm.num_prods() && 0 <= e <= grm.prod_of(b).len() && 0 <= u
                    < grm.num_tokens() ==> #[trigger] final(self).las(grm)(b, e, u) == (old(self).las(grm)(b, e, u) || (b == a && e == d && u == t)),
    {
        let ghost len: int = grm.prod_of(a as int).len() as int + 1;
        let ghost tl = grm.num_tokens();
        proof {
            assert((grm.prod_of(a as int).len() + 1) * grm.num_tokens() <= usize::MAX);
            lemma_offset(d as int, t as int, len, tl);
        }
        let off = d * grm.tokens_len.0 as usize + t;
        bv_set(&mut self.items[a].dots, off, true);
        proof {
            assert forall|b: int| 0 <= b < grm.num_prods() && b != a implies #[trigger] self.items@[b]
                == old(self).items@[b] by {}
            assert forall|b: int, e: int, u: int|
                0 <= b < grm.num_prods() && 0 <= e <= grm.prod_of(b).len() && 0 <= u
                    < grm.num_tokens() implies #[trigger] self.las(grm)(b, e, u) == (old(self).las(grm)(b, e, u) || (b == a && e == d && u == t)) by {
                if b == a {
                    lemma_offset(e, u, len, tl);
                    if e * tl + u == off {
                        lemma_offset_inj(e, u, d as int, t as int, tl);
                    }
                }
            }
        }
    }

    /// Add the item `[prod, dot]` with the lookaheads set in `la` (whose length must be the
    /// number of tokens).
    pub fn add(&mut self, grm: &YaccGrammar, prod: PIdx, dot: SIdx, la: &BitVec) -> (r: Result<
        (),
        LookaheadShapeMismatch,
    >)
        requires
            grm.wf(),
            old(self).wf(grm),
            prod.0 < grm.prods_len.0,
            dot.0 <= grm.prod_of(prod.0 as int).len(),
        ensures
            final(self).wf(grm),
            bits_of(*la).len() != grm.num_tokens() ==> r == Err::<(), LookaheadShapeMismatch>(
                LookaheadShapeMismatch { expected: grm.tokens_len.0 as usize, found: bits_of(*la).len() as usize },
            ) && final(self).items@ == old(self).items@,
            bits_of(*la).len() == grm.num_tokens() ==> r is Ok,
            forall|b: int, e: int|
                0 <= b < grm.num_prods() && 0 <= e <= grm.prod_of(b).len() ==> #[trigger] final(self).acts()(b, e) == (old(self).acts()(b, e) || (r is Ok && b == prod.0 && e
                    == dot.0)),
            forall|b: int, e: int, u: int|
                0 <= b < grm.num_prods() && 0 <= e <= grm.prod_of(b).len() && 0 <= u
                    < grm.num_tokens() ==> #[trigger] final(self).las(grm)(b, e, u) == (old(self).las(grm)(b, e, u) || (r is Ok && b == prod.0 && e == dot.0 && bits_of(*la)[u])),
    {
        let tl = grm.tokens_len.0 as usize;
        let found = bv_len(la);
        if found != tl {
            return Err(LookaheadShapeMismatch { expected: tl, found });
        }
        let a = prod.0 as usize;
        let d = dot.0 as usize;
        if !self.is_active(grm, a, d) {
            self.set_active(grm, a, d);
        }
        let mut t: usize = 0;
        while t < tl
            invariant
                grm.wf(),
                self.wf(grm),
                tl == grm.num_tokens(),
                bits_of(*la).len() == tl,
                a == prod.0,
                d == dot.0,
                a < grm.num_prods(),
                d <= grm.prod_of(a as int).len(),
                0 <= t <= tl,
                forall|b: int, e: int|
                    0 <= b < grm.num_prods() && 0 <= e <= grm.prod_of(b).len() ==> #[trigger] self.acts()(
                        b,
                        e,
                    ) == (old(self).acts()(b, e) || (b == a && e == d)),
                forall|b: int, e: int, u: int|
                    0 <= b < grm.num_prods() && 0 <= e <= grm.prod_of(b).len() && 0 <= u
                        < grm.num_tokens() ==> #[trigger] self.las(grm)(b, e, u) == (old(self).las(grm)(b, e, u) || (b == a && e == d && u < t && bits_of(*la)[u])),
            decreases tl - t,
        {
            if bv_get(la, t) && !self.la_bit(grm, a, d, t) {
                self.set_la(grm, a, d, t);
            }
            t += 1;
        }
        Ok(())
    }

    /// The lookaheads that the item `[a, dot = d]` hands to the items of the rule after its
    /// dot: FIRST of what follows that rule, and the item's own lookaheads where all of it
    /// can derive ε.
    fn lookahead_for(&self, grm: &YaccGrammar, firsts: &Firsts, a: usize, d: usize) -> (r: BitVec)
        requires
            grm.wf(),
            self.wf(grm),
            firsts.wf(grm),
            a < grm.num_prods(),
            d < grm.prod_of(a as int).len(),
        ensures
            bits_of(r).len() == grm.num_tokens(),
            forall|t: int|
                0 <= t < grm.num_tokens() ==> #[trigger] bits_of(r)[t] == lookahead(
                    grm,
                    firsts.holds(),
                    self.las(grm),
                    a as int,
                    d as int,
                    t,
                ),
    {
        let ghost f = firsts.holds();
        let tl = grm.tokens_len.0 as usize;
        let prod = grm.prod(PIdx(a as u32));
        let mut new_la = bv_from_elem(tl, false);
        let mut k: usize = d + 1;
        let mut stop = false;
        while k < prod.len() && !stop
            invariant
                grm.wf(),
                firsts.wf(grm),
                f == firsts.holds(),
                tl == grm.num_tokens(),
                a < grm.num_prods(),
                prod@ == grm.prod_of(a as int),
                d + 1 <= k <= prod@.len(),
                bits_of(new_la).len() == tl,
                forall|t: int|
                    0 <= t < tl ==> first_of_rest(grm, f, prod@, d + 1, t) == (#[trigger] bits_of(
                        new_la,
                    )[t] || (!stop && first_of_rest(grm, f, prod@, k as int, t))),
                rest_nullable(grm, f, prod@, d + 1) == (!stop && rest_nullable(
                    grm,
                    f,
                    prod@,
                    k as int,
                )),
            decreases prod@.len() - k + if stop {
                0int
            } else {
                1int
            },
        {
            proof {
                assert(grm.symbol_ok(grm.prod_of(a as int)[k as int]));
            }
            match prod[k] {
                Symbol::Token(u) => {
                    let ghost before = bits_of(new_la);
                    bv_set(&mut new_la, u.0 as usize, true);
                    stop = true;
                    proof {
                        assert forall|t: int| 0 <= t < tl implies first_of_rest(grm, f, prod@, d + 1, t) == (#[trigger] bits_of(new_la)[t] || (!stop && first_of_rest(grm, f, prod@, k as int, t))) by {
                            assert(first_of_rest(grm, f, prod@, k as int, t) == (u.0 == t));
                            assert(before[t] == (first_of_rest(grm, f, prod@, d + 1, t) && !first_of_rest(grm, f, prod@, k as int, t)) || first_of_rest(grm, f, prod@, d + 1, t) == (before[t] || first_of_rest(grm, f, prod@, k as int, t)));
                        }
                    }
                },
                Symbol::Rule(m) => {
                    let ghost before = bits_of(new_la);
                    let mut l: usize = 0;
                    while l < tl
                        invariant
                            grm.wf(),
                            firsts.wf(grm),
                            f == firsts.holds(),
                            tl == grm.num_tokens(),
                            m.0 < grm.num_rules(),
                            0 <= l <= tl,
                            bits_of(new_la).len() == tl,
                            before.len() == tl,
                            forall|t: int|
                                0 <= t < tl ==> #[trigger] bits_of(new_la)[t] == (before[t] || (t
                                    < l && f(m.0 as int, t))),
                            !stop,
                            a < grm.num_prods(),
                            prod@ == grm.prod_of(a as int),
                            d + 1 <= k < prod@.len(),
                            prod@[k as int] == Symbol::Rule(m),
                            forall|t: int|
                                0 <= t < tl ==> #[trigger] first_of_rest(grm, f, prod@, d + 1, t) == (before[t] || first_of_rest(grm, f, prod@, k as int, t)),
                            rest_nullable(grm, f, prod@, d + 1) == rest_nullable(grm, f, prod@, k as int),
                        decreases tl - l,
                    {
                        if firsts.is_set(m, TIdx(l as u32)) {
                            bv_set(&mut new_la, l, true);
                        }
                        l += 1;
                    }
                    let ghost k0 = k as int;
                    let eps = firsts.is_epsilon_set(m);
                    proof {
                        assert(forall|t: int| 0 <= t < tl ==> #[trigger] first_of_rest(grm, f, prod@, k0, t) == (f(m.0 as int, t) || (eps && first_of_rest(grm, f, prod@, k0 + 1, t))));
                        assert(forall|t: int| 0 <= t < tl ==> #[trigger] first_of_rest(grm, f, prod@, d + 1, t) == (bits_of(new_la)[t] || (eps && first_of_rest(grm, f, prod@, k0 + 1, t))));
                        assert(rest_nullable(grm, f, prod@, k0) == (eps && rest_nullable(grm, f, prod@, k0 + 1)));
                    }
                    if !eps {
                        stop = true;
                    } else {
                        k += 1;
                    }
                },
            }
        }
        if !stop {
            let mut l: usize = 0;
            let ghost before = bits_of(new_la);
            while l < tl
                invariant
                    grm.wf(),
                    self.wf(grm),
                    tl == grm.num_tokens(),
                    a < grm.num_prods(),
                    d < grm.prod_of(a as int).len(),
                    0 <= l <= tl,
                    bits_of(new_la).len() == tl,
                    before.len() == tl,
                    forall|t: int|
                        0 <= t < tl ==> #[trigger] bits_of(new_la)[t] == (before[t] || (t < l
                            && self.las(grm)(a as int, d as int, t))),
                decreases tl - l,
            {
                if self.la_bit(grm, a, d, l) {
                    bv_set(&mut new_la, l, true);
                }
                l += 1;
            }
        }
        new_la
    }

    /// Close the item `[a, dot = d]`, whose dot stands before rule `n`: every production of
    /// `n` becomes active at dot 0 with the propagated lookaheads. Returns whether a bit was
    /// set; where none was, the item is closed.
    fn close_item(&mut self, grm: &YaccGrammar, firsts: &Firsts, a: usize, d: usize, n: RIdx) -> (changed: bool)
        requires
            grm.wf(),
            old(self).wf(grm),
            firsts.wf(grm),
            a < grm.num_prods(),
            d < grm.prod_of(a as int).len(),
            grm.prod_of(a as int)[d as int] == Symbol::Rule(n),
            old(self).acts()(a as int, d as int),
        ensures
            final(self).wf(grm),
            items_grow(old(self).items@, final(self).items@),
            changed ==> items_flipped(old(self).items@, final(self).items@),
            !changed ==> final(self).items@ == old(self).items@,
            !changed ==> item_closed(grm, firsts.holds(), final(self).acts(), final(self).las(grm), a as int, d as int),
            forall|ga: spec_fn(int, int) -> bool, gl: spec_fn(int, int, int) -> bool|
                #[trigger] set_closed(grm, firsts.holds(), ga, gl) && set_contains(grm, ga, gl, old(self).acts(), old(self).las(grm))
                    ==> set_contains(grm, ga, gl, final(self).acts(), final(self).las(grm)),
    {
        let ghost f = firsts.holds();
        let ghost oa = self.acts();
        let ghost ol = self.las(grm);
        let ghost start = self.items@;
        let tl = grm.tokens_len.0 as usize;
        let new_la = self.lookahead_for(grm, firsts, a, d);
        proof {
            assert(grm.symbol_ok(grm.prod_of(a as int)[d as int]));
        }
        let prods = grm.rule_to_prods(n);
        let mut changed = false;
        let mut k: usize = 0;
        while k < prods.len()
            invariant
                grm.wf(),
                self.wf(grm),
                firsts.wf(grm),
                f == firsts.holds(),
                tl == grm.num_tokens(),
                a < grm.num_prods(),
                d < grm.prod_of(a as int).len(),
                grm.prod_of(a as int)[d as int] == Symbol::Rule(n),
                n.0 < grm.num_rules(),
                prods@ == grm.prods_of(n.0 as int),
                oa(a as int, d as int),
                0 <= k <= prods@.len(),
                bits_of(new_la).len() == tl,
                forall|t: int| 0 <= t < tl ==> #[trigger] bits_of(new_la)[t] == lookahead(grm, f, ol, a as int, d as int, t),
                items_grow(start, self.items@),
                changed ==> items_flipped(start, self.items@),
                !changed ==> self.items@ == start,
                !changed ==> forall|j: int| 0 <= j < k ==> {
                    &&& self.acts()((#[trigger] prods@[j]).0 as int, 0)
                    &&& forall|t: int| 0 <= t < tl && bits_of(new_la)[t] ==> self.las(grm)(prods@[j].0 as int, 0, t)
                },
                forall|ga: spec_fn(int, int) -> bool, gl: spec_fn(int, int, int) -> bool|
                    #[trigger] set_closed(grm, f, ga, gl) && set_contains(grm, ga, gl, oa, ol)
                        ==> set_contains(grm, ga, gl, self.acts(), self.las(grm)),
            decreases prods@.len() - k,
        {
            let p = prods[k].0 as usize;
            proof {
                assert(prods@[k as int].0 < grm.num_prods());
            }
            if !self.is_active(grm, p, 0) {
                let ghost s1 = self.items@;
                let ghost ca = self.acts();
                let ghost cl = self.las(grm);
                self.set_active(grm, p, 0);
                proof {
                    assert forall|ga: spec_fn(int, int) -> bool, gl: spec_fn(int, int, int) -> bool|
                        #[trigger] set_closed(grm, f, ga, gl) && set_contains(grm, ga, gl, oa, ol)
                            implies set_contains(grm, ga, gl, self.acts(), self.las(grm)) by {
                        assert(set_contains(grm, ga, gl, ca, cl));
                        assert(item_closed(grm, f, ga, gl, a as int, d as int));
                        assert(ga(a as int, d as int));
                        assert(ga(prods@[k as int].0 as int, 0));
                    }
                    lemma_grow_trans(start, s1, self.items@);
                    if changed {
                        lemma_flip_trans(start, s1, self.items@);
                    } else {
                        assert(flip_at(start, self.items@, p as int, 0));
                    }
                }
                changed = true;
            }
            let mut l: usize = 0;
            while l < tl
                invariant
                    grm.wf(),
                    self.wf(grm),
                    firsts.wf(grm),
                    f == firsts.holds(),
                    tl == grm.num_tokens(),
                    a < grm.num_prods(),
                    d < grm.prod_of(a as int).len(),
                    grm.prod_of(a as int)[d as int] == Symbol::Rule(n),
                    n.0 < grm.num_rules(),
                    prods@ == grm.prods_of(n.0 as int),
                    0 <= k < prods@.len(),
                    p == prods@[k as int].0,
                    p < grm.num_prods(),
                    oa(a as int, d as int),
                    0 <= l <= tl,
                    bits_of(new_la).len() == tl,
                    forall|t: int| 0 <= t < tl ==> #[trigger] bits_of(new_la)[t] == lookahead(grm, f, ol, a as int, d as int, t),
                    items_grow(start, self.items@),
                    changed ==> items_flipped(start, self.items@),
                    !changed ==> self.items@ == start,
                    self.acts()(p as int, 0),
                    !changed ==> forall|j: int| 0 <= j < k ==> {
                        &&& self.acts()((#[trigger] prods@[j]).0 as int, 0)
                        &&& forall|t: int| 0 <= t < tl && bits_of(new_la)[t] ==> self.las(grm)(prods@[j].0 as int, 0, t)
                    },
                    !changed ==> forall|t: int| 0 <= t < l && #[trigger] bits_of(new_la)[t] ==> self.las(grm)(p as int, 0, t),
                    forall|ga: spec_fn(int, int) -> bool, gl: spec_fn(int, int, int) -> bool|
                        #[trigger] set_closed(grm, f, ga, gl) && set_contains(grm, ga, gl, oa, ol)
                            ==> set_contains(grm, ga, gl, self.acts(), self.las(grm)),
                decreases tl - l,
            {
                if bv_get(&new_la, l) && !self.la_bit(grm, p, 0, l) {
                    let ghost s1 = self.items@;
                    let ghost ca = self.acts();
                    let ghost cl = self.las(grm);
                    self.set_la(grm, p, 0, l);
                    proof {
                        assert forall|ga: spec_fn(int, int) -> bool, gl: spec_fn(int, int, int) -> bool|
                            #[trigger] set_closed(grm, f, ga, gl) && set_contains(grm, ga, gl, oa, ol)
                                implies set_contains(grm, ga, gl, self.acts(), self.las(grm)) by {
                            assert(set_contains(grm, ga, gl, ca, cl));
                            assert(item_closed(grm, f, ga, gl, a as int, d as int));
                            assert(ga(a as int, d as int));
                            let t = l as int;
                            if rest_nullable(grm, f, grm.prod_of(a as int), d + 1) && ol(a as int, d as int, t) {
                                assert(gl(a as int, d as int, t));
                            }
                            assert(lookahead(grm, f, gl, a as int, d as int, t));
                            assert(gl(prods@[k as int].0 as int, 0, t));
                        }
                        lemma_grow_trans(start, s1, self.items@);
                        if changed {
                            lemma_flip_trans(start, s1, self.items@);
                        } else {
                            assert(flip_at(start, self.items@, p as int, 0 * grm.num_tokens() + l));
                        }
                    }
                    changed = true;
                }
                l += 1;
            }
            k += 1;
        }
        proof {
            if !changed {
                let ga = self.acts();
                let gl = self.las(grm);
                assert(gl == ol);
                assert forall|j: int| 0 <= j < prods@.len() implies {
                    &&& ga((#[trigger] grm.prods_of(n.0 as int)[j]).0 as int, 0)
                    &&& forall|t: int|
                        0 <= t < grm.num_tokens() && #[trigger] lookahead(grm, f, gl, a as int, d as int, t) ==> gl(
                            grm.prods_of(n.0 as int)[j].0 as int,
                            0,
                            t,
                        )
                } by {
                    assert(prods@[j] == grm.prods_of(n.0 as int)[j]);
                    assert forall|t: int|
                        0 <= t < grm.num_tokens() && #[trigger] lookahead(grm, f, gl, a as int, d as int, t) implies gl(
                            grm.prods_of(n.0 as int)[j].0 as int,
                            0,
                            t,
                        ) by {
                        assert(bits_of(new_la)[t]);
                    }
                }
            }
        }
        changed
    }

    /// Close this set under LR(1) closure: the result holds this set, is closed, and is held
    /// by every closed set that holds this set.
    pub fn close(&mut self, grm: &YaccGrammar, firsts: &Firsts)
        requires
            grm.wf(),
            old(self).wf(grm),
            firsts.wf(grm),
        ensures
            final(self).wf(grm),
            set_contains(grm, final(self).acts(), final(self).las(grm), old(self).acts(), old(self).las(grm)),
            set_closed(grm, firsts.holds(), final(self).acts(), final(self).las(grm)),
            forall|ga: spec_fn(int, int) -> bool, gl: spec_fn(int, int, int) -> bool|
                #[trigger] set_closed(grm, firsts.holds(), ga, gl) && set_contains(grm, ga, gl, old(self).acts(), old(self).las(grm))
                    ==> set_contains(grm, ga, gl, final(self).acts(), final(self).las(grm)),
    {
        let ghost f = firsts.holds();
        let ghost oa = self.acts();
        let ghost ol = self.las(grm);
        let ghost orig = self.items@;
        proof {
            lemma_grow_refl(orig);
        }
        loop
            invariant
                grm.wf(),
                self.wf(grm),
                firsts.wf(grm),
                f == firsts.holds(),
                orig.len() == grm.num_prods(),
                oa == old(self).acts(),
                ol == old(self).las(grm),
                orig == old(self).items@,
                oa == (|a: int, d: int| bits_of(orig[a].active)[d]),
                ol == (|a: int, d: int, t: int| bits_of(orig[a].dots)[d * grm.num_tokens() + t]),
                items_grow(orig, self.items@),
                forall|ga: spec_fn(int, int) -> bool, gl: spec_fn(int, int, int) -> bool|
                    #[trigger] set_closed(grm, f, ga, gl) && set_contains(grm, ga, gl, oa, ol)
                        ==> set_contains(grm, ga, gl, self.acts(), self.las(grm)),
            decreases clear_in(self.items@),
        {
            let ghost start = self.items@;
            let mut changed = false;
            let mut a: usize = 0;
            while a < grm.prods.len()
                invariant
                    grm.wf(),
                    self.wf(grm),
                    firsts.wf(grm),
                    f == firsts.holds(),
                    orig.len() == grm.num_prods(),
                    0 <= a <= grm.num_prods(),
                    items_grow(orig, start),
                    items_grow(start, self.items@),
                    changed ==> items_flipped(start, self.items@),
                    !changed ==> self.items@ == start,
                    !changed ==> forall|b: int, e: int|
                        0 <= b < a && 0 <= e < grm.prod_of(b).len() ==> #[trigger] item_closed(grm, f, self.acts(), self.las(grm), b, e),
                    forall|ga: spec_fn(int, int) -> bool, gl: spec_fn(int, int, int) -> bool|
                        #[trigger] set_closed(grm, f, ga, gl) && set_contains(grm, ga, gl, oa, ol)
                            ==> set_contains(grm, ga, gl, self.acts(), self.las(grm)),
                decreases grm.num_prods() - a,
            {
                let prod = grm.prod(PIdx(a as u32));
                let mut d: usize = 0;
                while d < prod.len()
                    invariant
                        grm.wf(),
                        self.wf(grm),
                        firsts.wf(grm),
                        f == firsts.holds(),
                        orig.len() == grm.num_prods(),
                        0 <= a < grm.num_prods(),
                        prod@ == grm.prod_of(a as int),
                        0 <= d <= prod@.len(),
                        items_grow(orig, start),
                        items_grow(start, self.items@),
                        changed ==> items_flipped(start, self.items@),
                        !changed ==> self.items@ == start,
                        !changed ==> forall|b: int, e: int|
                            (0 <= b < a && 0 <= e < grm.prod_of(b).len()) || (b == a && 0 <= e < d) ==> #[trigger] item_closed(grm, f, self.acts(), self.las(grm), b, e),
                        forall|ga: spec_fn(int, int) -> bool, gl: spec_fn(int, int, int) -> bool|
                            #[trigger] set_closed(grm, f, ga, gl) && set_contains(grm, ga, gl, oa, ol)
                                ==> set_contains(grm, ga, gl, self.acts(), self.las(grm)),
                    decreases prod@.len() - d,
                {
                    if self.is_active(grm, a, d) {
                        match prod[d] {
                            Symbol::Rule(n) => {
                                let ghost s1 = self.items@;
                                let ghost ca = self.acts();
                                let ghost cl = self.las(grm);
                                let c = self.close_item(grm, firsts, a, d, n);
                                proof {
                                    lemma_grow_trans(start, s1, self.items@);
                                    if changed {
                                        lemma_flip_trans(start, s1, self.items@);
                                    }
                                    assert forall|ga: spec_fn(int, int) -> bool, gl: spec_fn(int, int, int) -> bool|
                                        #[trigger] set_closed(grm, f, ga, gl) && set_contains(grm, ga, gl, oa, ol)
                                            implies set_contains(grm, ga, gl, self.acts(), self.las(grm)) by {
                                        assert(set_contains(grm, ga, gl, ca, cl));
                                    }
                                }
                                if c {
                                    changed = true;
                                }
                            },
                            Symbol::Token(_) => {},
                        }
                    }
                    d += 1;
                }
                a += 1;
            }
            proof {
                lemma_grow_trans(orig, start, self.items@);
            }
            if !changed {
                proof {
                    lemma_grow_contains(grm, orig, self.items@);
                }
                return;
            }
            proof {
                lemma_clear_in(start, self.items@);
            }
        }
    }

    /// Move the dot over `sym` in every active item whose dot stands before `sym` (copying
    /// its lookaheads), keeping the items already present, then close the set.
    pub fn goto(&mut self, grm: &YaccGrammar, firsts: &Firsts, sym: Symbol)
        requires
            grm.wf(),
            old(self).wf(grm),
            firsts.wf(grm),
        ensures
            final(self).wf(grm),
            set_contains(grm, final(self).acts(), final(self).las(grm), old(self).acts(), old(self).las(grm)),
            set_advanced(grm, old(self).acts(), old(self).las(grm), sym, final(self).acts(), final(self).las(grm)),
            set_closed(grm, firsts.holds(), final(self).acts(), final(self).las(grm)),
            forall|ga: spec_fn(int, int) -> bool, gl: spec_fn(int, int, int) -> bool|
                #[trigger] set_closed(grm, firsts.holds(), ga, gl) && set_contains(grm, ga, gl, old(self).acts(), old(self).las(grm))
                    && set_advanced(grm, old(self).acts(), old(self).las(grm), sym, ga, gl)
                    ==> set_contains(grm, ga, gl, final(self).acts(), final(self).las(grm)),
    {
        let ghost oa = self.acts();
        let ghost ol = self.las(grm);
        let ghost orig = self.items@;
        let tl = grm.tokens_len.0 as usize;
        proof {
            lemma_grow_refl(orig);
        }
        let mut a: usize = 0;
        while a < grm.prods.len()
            invariant
                grm.wf(),
                self.wf(grm),
                tl == grm.num_tokens(),
                0 <= a <= grm.num_prods(),
                orig.len() == grm.num_prods(),
                oa == (|b: int, e: int| bits_of(orig[b].active)[e]),
                ol == (|b: int, e: int, t: int| bits_of(orig[b].dots)[e * grm.num_tokens() + t]),
                items_grow(orig, self.items@),
                forall|b: int| a <= b < grm.num_prods() ==> #[trigger] self.items@[b] == orig[b],
                forall|b: int, e: int|
                    0 <= b < a && 0 <= e < grm.prod_of(b).len() && #[trigger] oa(b, e) && grm.prod_of(b)[e] == sym ==> {
                        &&& self.acts()(b, e + 1)
                        &&& forall|t: int| 0 <= t < grm.num_tokens() && #[trigger] ol(b, e, t) ==> self.las(grm)(b, e + 1, t)
                    },
                forall|ga: spec_fn(int, int) -> bool, gl: spec_fn(int, int, int) -> bool|
                    set_contains(grm, ga, gl, oa, ol) && #[trigger] set_advanced(grm, oa, ol, sym, ga, gl)
                        ==> set_contains(grm, ga, gl, self.acts(), self.las(grm)),
            decreases grm.num_prods() - a,
        {
            let prod = grm.prod(PIdx(a as u32));
            let mut d: usize = prod.len();
            while d > 0
                invariant
                    grm.wf(),
                    self.wf(grm),
                    tl == grm.num_tokens(),
                    0 <= a < grm.num_prods(),
                    prod@ == grm.prod_of(a as int),
                    0 <= d <= prod@.len(),
                    orig.len() == grm.num_prods(),
                    oa == (|b: int, e: int| bits_of(orig[b].active)[e]),
                    ol == (|b: int, e: int, t: int| bits_of(orig[b].dots)[e * grm.num_tokens() + t]),
                    items_grow(orig, self.items@),
                    forall|b: int| a < b < grm.num_prods() ==> #[trigger] self.items@[b] == orig[b],
                    forall|e: int| 0 <= e <= d ==> #[trigger] self.acts()(a as int, e) == oa(a as int, e),
                    forall|e: int, t: int| 0 <= e <= d && 0 <= t < tl ==> #[trigger] self.las(grm)(a as int, e, t) == ol(a as int, e, t),
                    forall|b: int, e: int|
                        ((0 <= b < a && 0 <= e < grm.prod_of(b).len()) || (b == a && d <= e < grm.prod_of(b).len())) && #[trigger] oa(b, e) && grm.prod_of(b)[e] == sym ==> {
                            &&& self.acts()(b, e + 1)
                            &&& forall|t: int| 0 <= t < grm.num_tokens() && #[trigger] ol(b, e, t) ==> self.las(grm)(b, e + 1, t)
                        },
                    forall|ga: spec_fn(int, int) -> bool, gl: spec_fn(int, int, int) -> bool|
                        set_contains(grm, ga, gl, oa, ol) && #[trigger] set_advanced(grm, oa, ol, sym, ga, gl)
                            ==> set_contains(grm, ga, gl, self.acts(), self.las(grm)),
                decreases d,
            {
                d -= 1;
                if self.is_active(grm, a, d) && prod[d] == sym {
                    if !self.is_active(grm, a, d + 1) {
                        let ghost s1 = self.items@;
                        let ghost ca = self.acts();
                        let ghost cl = self.las(grm);
                        self.set_active(grm, a, d + 1);
                        proof {
                            lemma_grow_trans(orig, s1, self.items@);
                            assert forall|ga: spec_fn(int, int) -> bool, gl: spec_fn(int, int, int) -> bool|
                                set_contains(grm, ga, gl, oa, ol) && #[trigger] set_advanced(grm, oa, ol, sym, ga, gl)
                                    implies set_contains(grm, ga, gl, self.acts(), self.las(grm)) by {
                                assert(set_contains(grm, ga, gl, ca, cl));
                                assert(oa(a as int, d as int));
                                assert(ga(a as int, d + 1));
                            }
                        }
                    }
                    let mut t: usize = 0;
                    while t < tl
                        invariant
                            grm.wf(),
                            self.wf(grm),
                            tl == grm.num_tokens(),
                            0 <= a < grm.num_prods(),
                            prod@ == grm.prod_of(a as int),
                            0 <= d < prod@.len(),
                            prod@[d as int] == sym,
                            oa(a as int, d as int),
                            0 <= t <= tl,
                            orig.len() == grm.num_prods(),
                            oa == (|b: int, e: int| bits_of(orig[b].active)[e]),
                            ol == (|b: int, e: int, t: int| bits_of(orig[b].dots)[e * grm.num_tokens() + t]),
                            items_grow(orig, self.items@),
                            forall|b: int| a < b < grm.num_prods() ==> #[trigger] self.items@[b] == orig[b],
                            forall|e: int| 0 <= e <= d ==> #[trigger] self.acts()(a as int, e) == oa(a as int, e),
                            forall|e: int, u: int| 0 <= e <= d && 0 <= u < tl ==> #[trigger] self.las(grm)(a as int, e, u) == ol(a as int, e, u),
                            self.acts()(a as int, d + 1),
                            forall|u: int| 0 <= u < t && #[trigger] ol(a as int, d as int, u) ==> self.las(grm)(a as int, d + 1, u),
                            forall|b: int, e: int|
                                ((0 <= b < a && 0 <= e < grm.prod_of(b).len()) || (b == a && d < e < grm.prod_of(b).len())) && #[trigger] oa(b, e) && grm.prod_of(b)[e] == sym ==> {
                                    &&& self.acts()(b, e + 1)
                                    &&& forall|u: int| 0 <= u < grm.num_tokens() && #[trigger] ol(b, e, u) ==> self.las(grm)(b, e + 1, u)
                                },
                            forall|ga: spec_fn(int, int) -> bool, gl: spec_fn(int, int, int) -> bool|
                                set_contains(grm, ga, gl, oa, ol) && #[trigger] set_advanced(grm, oa, ol, sym, ga, gl)
                                    ==> set_contains(grm, ga, gl, self.acts(), self.las(grm)),
                        decreases tl - t,
                    {
                        if self.la_bit(grm, a, d, t) && !self.la_bit(grm, a, d + 1, t) {
                            let ghost s1 = self.items@;
                            let ghost ca = self.acts();
                            let ghost cl = self.las(grm);
                            self.set_la(grm, a, d + 1, t);
                            proof {
                                lemma_grow_trans(orig, s1, self.items@);
                                assert forall|ga: spec_fn(int, int) -> bool, gl: spec_fn(int, int, int) -> bool|
                                    set_contains(grm, ga, gl, oa, ol) && #[trigger] set_advanced(grm, oa, ol, sym, ga, gl)
                                        implies set_contains(grm, ga, gl, self.acts(), self.las(grm)) by {
                                    assert(set_contains(grm, ga, gl, ca, cl));
                                    assert(ol(a as int, d as int, t as int));
                                    assert(gl(a as int, d + 1, t as int));
                                }
                            }
                        }
                        t += 1;
                    }
                }
            }
            a += 1;
        }
        proof {
            lemma_grow_contains(grm, orig, self.items@);
        }
        let ghost s1a = self.acts();
        let ghost s1l = self.las(grm);
        self.close(grm, firsts);
        proof {
            assert forall|ga: spec_fn(int, int) -> bool, gl: spec_fn(int, int, int) -> bool|
                #[trigger] set_closed(grm, firsts.holds(), ga, gl) && set_contains(grm, ga, gl, oa, ol)
                    && set_advanced(grm, oa, ol, sym, ga, gl)
                    implies set_contains(grm, ga, gl, self.acts(), self.las(grm)) by {
                assert(set_contains(grm, ga, gl, s1a, s1l));
            }
        }
    }
}

/// Every sequence of items holds itself.
proof fn lemma_grow_refl(x: Seq<Item>)
    ensures
        items_grow(x, x),
{
}

/// Where the items of `y` hold every bit of those of `x`, the set `y` holds the set `x`.
proof fn lemma_grow_contains(grm: &YaccGrammar, x: Seq<Item>, y: Seq<Item>)
    requires
        grm.wf(),
        items_grow(x, y),
        x.len() == grm.num_prods(),
        forall|a: int|
            0 <= a < grm.num_prods() ==> {
                &&& bits_of((#[trigger] x[a]).active).len() == grm.prod_of(a).len() + 1
                &&& bits_of(x[a].dots).len() == (grm.prod_of(a).len() + 1) * grm.num_tokens()
            },
    ensures
        set_contains(
            grm,
            |a: int, d: int| bits_of(y[a].active)[d],
            |a: int, d: int, t: int| bits_of(y[a].dots)[d * grm.num_tokens() + t],
            |a: int, d: int| bits_of(x[a].active)[d],
            |a: int, d: int, t: int| bits_of(x[a].dots)[d * grm.num_tokens() + t],
        ),
{
    assert forall|a: int, d: int, t: int|
        0 <= a < grm.num_prods() && 0 <= d <= grm.prod_of(a).len() && 0 <= t < grm.num_tokens()
            && #[trigger] bits_of(x[a].dots)[d * grm.num_tokens() + t] implies bits_of(y[a].dots)[d * grm.num_tokens() + t] by {
        lemma_offset(d, t, grm.prod_of(a).len() + 1 as int, grm.num_tokens());
        let _ = x[a];
    }
    assert forall|a: int, d: int|
        0 <= a < grm.num_prods() && 0 <= d <= grm.prod_of(a).len()
            && #[trigger] bits_of(x[a].active)[d] implies bits_of(y[a].active)[d] by {
        let _ = x[a];
    }
}

proof fn lemma_grow_trans(x: Seq<Item>, y: Seq<Item>, z: Seq<Item>)
    requires
        items_grow(x, y),
        items_grow(y, z),
    ensures
        items_grow(x, z),
{
    assert forall|a: int| 0 <= a < x.len() implies {
        &&& bits_of((#[trigger] x[a]).active).len() == bits_of(z[a].active).len()
        &&& bits_of(x[a].dots).len() == bits_of(z[a].dots).len()
        &&& forall|i: int|
            0 <= i < bits_of(x[a].active).len() && #[trigger] bits_of(x[a].active)[i] ==> bits_of(
                z[a].active,
            )[i]
        &&& forall|i: int|
            0 <= i < bits_of(x[a].dots).len() && #[trigger] bits_of(x[a].dots)[i] ==> bits_of(
                z[a].dots,
            )[i]
    } by {
        let _ = y[a];
    }
}

proof fn lemma_flip_trans(x: Seq<Item>, y: Seq<Item>, z: Seq<Item>)
    requires
        items_grow(x, y),
        items_grow(y, z),
        items_flipped(x, y),
    ensures
        items_flipped(x, z),
{
    let (a, i) = choose|a: int, i: int| #[trigger] flip_at(x, y, a, i);
    let _ = y[a];
    assert(flip_at(x, z, a, i));
}

/// `Itemset::add` was handed a lookahead set whose length is not the number of tokens.
#[derive(Clone, Copy, Debug, PartialEq, Eq, Structural)]
pub struct LookaheadShapeMismatch {
    pub expected: usize,
    pub found: usize,
}

} // verus!
