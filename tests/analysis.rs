use bit_vec::BitVec;

use cfgrammar::ast::{self, GrammarAST, Production};
use cfgrammar::{
    rule_max_costs, rule_min_costs, CostOverflow, GrammarValidationError, Itemset, LookaheadShapeMismatch,
    PIdx, RIdx, SIdx, Symbol, TIdx, YaccGrammar, YaccGrammarError, YaccKind,
};

fn rule(n: &str) -> ast::Symbol {
    ast::Symbol::Rule(n.to_string())
}

fn tok(n: &str) -> ast::Symbol {
    ast::Symbol::Token(n.to_string())
}

fn prod(symbols: Vec<ast::Symbol>) -> Production {
    Production { symbols, precedence: None }
}

/// An AST whose rules are listed with their productions in order.
fn ast_of(start: &str, tokens: &[&str], rules: Vec<(&str, Vec<Vec<ast::Symbol>>)>) -> GrammarAST {
    let mut a = GrammarAST {
        start: Some(start.to_string()),
        rules: Vec::new(),
        prods: Vec::new(),
        tokens: tokens.iter().map(|t| t.to_string()).collect(),
        precs: Vec::new(),
        implicit_tokens: None,
    };
    for (name, alts) in rules {
        let mut ps = Vec::new();
        for syms in alts {
            a.prods.push(prod(syms));
            ps.push(a.prods.len() - 1);
        }
        a.rules.push((name.to_string(), ps));
    }
    a
}

/// S: A 'b'; A: 'a' | ;  with an unused token `c`, so that there are more tokens than rules.
fn small() -> YaccGrammar {
    let a = ast_of(
        "S",
        &["a", "b", "c"],
        vec![("S", vec![vec![rule("A"), tok("b")]]), ("A", vec![vec![tok("a")], vec![]])],
    );
    YaccGrammar::new(YaccKind::Original, &a).unwrap()
}

#[test]
fn firsts_of_small_grammar() {
    let grm = small();
    let f = grm.yacc_firsts();
    let s = grm.rule_idx("S").unwrap();
    let a = grm.rule_idx("A").unwrap();
    let ta = grm.token_idx("a").unwrap();
    let tb = grm.token_idx("b").unwrap();
    let tc = grm.token_idx("c").unwrap();
    assert!(f.is_set(s, ta));
    assert!(f.is_set(s, tb));
    assert!(!f.is_set(s, tc));
    assert!(!f.is_epsilon_set(s));
    assert!(f.is_set(a, ta));
    assert!(!f.is_set(a, tb));
    assert!(f.is_epsilon_set(a));
    let start = grm.start_rule_idx();
    assert!(f.is_set(start, ta) && f.is_set(start, tb) && !f.is_epsilon_set(start));
    assert!(!f.is_set(s, grm.eof_token_idx()));
}

#[test]
fn firsts_nullable_chain() {
    // S: A B; A: ; B: 'x' | ;  FIRST(S) = {x, ε}.
    let a = ast_of(
        "S",
        &["x"],
        vec![("S", vec![vec![rule("A"), rule("B")]]), ("A", vec![vec![]]), ("B", vec![vec![tok("x")], vec![]])],
    );
    let grm = YaccGrammar::new(YaccKind::Original, &a).unwrap();
    let f = grm.firsts();
    let s = grm.rule_idx("S").unwrap();
    assert!(f.is_set(s, grm.token_idx("x").unwrap()));
    assert!(f.is_epsilon_set(s));
}

fn la(grm: &YaccGrammar, toks: &[TIdx]) -> BitVec {
    let mut v = BitVec::from_elem(usize::from(grm.tokens_len()), false);
    for t in toks {
        v.set(usize::from(*t), true);
    }
    v
}

fn dot_la(set: &Itemset, grm: &YaccGrammar, p: PIdx, d: usize) -> Vec<bool> {
    let n = usize::from(grm.tokens_len());
    let dots = &set.items[usize::from(p)].dots;
    (0..n).map(|t| dots[d * n + t]).collect()
}

#[test]
fn itemset_close_propagates_lookaheads() {
    let grm = small();
    let firsts = grm.yacc_firsts();
    let mut set = Itemset::new(&grm);
    set.add(&grm, grm.start_prod(), SIdx(0), &la(&grm, &[grm.eof_token_idx()])).unwrap();
    set.close(&grm, &firsts);
    let s = grm.rule_idx("S").unwrap();
    let a = grm.rule_idx("A").unwrap();
    let n = usize::from(grm.tokens_len());
    let tb = usize::from(grm.token_idx("b").unwrap());
    let eof = usize::from(grm.eof_token_idx());
    let s_prod = grm.rule_to_prods(s)[0];
    assert!(set.items[usize::from(s_prod)].active[0]);
    let expect_eof: Vec<bool> = (0..n).map(|t| t == eof).collect();
    assert_eq!(dot_la(&set, &grm, s_prod, 0), expect_eof);
    let expect_b: Vec<bool> = (0..n).map(|t| t == tb).collect();
    for p in grm.rule_to_prods(a) {
        assert!(set.items[usize::from(*p)].active[0]);
        assert_eq!(dot_la(&set, &grm, *p, 0), expect_b);
    }
}

#[test]
fn itemset_add_uses_token_count_for_dot_slices() {
    // Three rules and four tokens: dot 1's lookaheads start at bit 4.
    let grm = small();
    assert_eq!(grm.rules_len(), RIdx(3));
    assert_eq!(grm.tokens_len(), TIdx(4));
    let mut set = Itemset::new(&grm);
    let s_prod = grm.rule_to_prods(grm.rule_idx("S").unwrap())[0];
    let tc = grm.token_idx("c").unwrap();
    set.add(&grm, s_prod, SIdx(1), &la(&grm, &[tc])).unwrap();
    let dots = &set.items[usize::from(s_prod)].dots;
    let n = usize::from(grm.tokens_len());
    assert!(dots[n + usize::from(tc)]);
    let set_bits: Vec<usize> = (0..dots.len()).filter(|i| dots[*i]).collect();
    assert_eq!(set_bits, vec![n + usize::from(tc)]);
    assert!(set.items[usize::from(s_prod)].active[1]);
    assert!(!set.items[usize::from(s_prod)].active[0]);
}

#[test]
fn itemset_add_rejects_wrong_width() {
    let grm = small();
    let mut set = Itemset::new(&grm);
    let r = set.add(&grm, grm.start_prod(), SIdx(0), &BitVec::from_elem(2, true));
    assert_eq!(r, Err(LookaheadShapeMismatch { expected: 4, found: 2 }));
    assert!(!set.items[usize::from(grm.start_prod())].active[0]);
}

#[test]
fn itemset_goto_moves_the_dot() {
    let grm = small();
    let firsts = grm.yacc_firsts();
    let mut set = Itemset::new(&grm);
    set.add(&grm, grm.start_prod(), SIdx(0), &la(&grm, &[grm.eof_token_idx()])).unwrap();
    set.close(&grm, &firsts);
    let ta = grm.token_idx("a").unwrap();
    set.goto(&grm, &firsts, Symbol::Token(ta));
    let a_prod = grm.rule_to_prods(grm.rule_idx("A").unwrap())[0];
    assert_eq!(*grm.prod(a_prod), [Symbol::Token(ta)]);
    assert!(set.items[usize::from(a_prod)].active[1]);
    let n = usize::from(grm.tokens_len());
    let tb = usize::from(grm.token_idx("b").unwrap());
    let expect_b: Vec<bool> = (0..n).map(|t| t == tb).collect();
    assert_eq!(dot_la(&set, &grm, a_prod, 1), expect_b);
    // Nothing advances over a symbol that no item has after its dot.
    let s_prod = grm.rule_to_prods(grm.rule_idx("S").unwrap())[0];
    assert!(!set.items[usize::from(s_prod)].active[1]);
}

#[test]
fn start_rule_name_is_fresh() {
    let a = ast_of("^", &["x"], vec![("^", vec![vec![tok("x")]])]);
    let grm = YaccGrammar::new(YaccKind::Original, &a).unwrap();
    assert_eq!(grm.rule_name(RIdx(0)), "^^");
    assert_eq!(grm.rule_idx("^"), Some(RIdx(1)));
    assert_eq!(*grm.prod(grm.start_prod()), [Symbol::Rule(RIdx(1))]);
    assert_eq!(grm.rule_to_prods(RIdx(0)).len(), 1);
}

#[test]
fn tokens_map_leaves_out_eof() {
    let grm = small();
    let m = grm.tokens_map();
    assert_eq!(m.len(), usize::from(grm.tokens_len()) - 1);
    assert!(m.iter().all(|(_, t)| *t != grm.eof_token_idx()));
    assert_eq!(m[1], ("b".to_string(), TIdx(1)));
    assert_eq!(grm.token_name(grm.eof_token_idx()), None);
    assert_eq!(grm.token_name(TIdx(2)), Some("c"));
}

#[test]
fn prod_to_rule_matches_rule_lists() {
    let grm = small();
    for r in 0..grm.rules_len().0 {
        for p in grm.rule_to_prods(RIdx(r)) {
            assert_eq!(grm.prod_to_rule(*p), RIdx(r));
        }
    }
    let total: usize = (0..grm.rules_len().0).map(|r| grm.rule_to_prods(RIdx(r)).len()).sum();
    assert_eq!(total, usize::from(grm.prods_len()));
    assert_eq!(grm.prod_len(grm.start_prod()), SIdx(1));
}

fn err_of(a: &GrammarAST) -> YaccGrammarError {
    match YaccGrammar::new(YaccKind::Original, a) {
        Ok(_) => panic!("grammar accepted"),
        Err(e) => e,
    }
}

#[test]
fn validation_errors() {
    let mut a = ast_of("S", &["x"], vec![("S", vec![vec![tok("x")]])]);
    a.start = None;
    assert_eq!(err_of(&a), YaccGrammarError::GrammarValidationError(GrammarValidationError::NoStartRule));
    let a = ast_of("T", &["x"], vec![("S", vec![vec![tok("x")]])]);
    assert_eq!(err_of(&a), YaccGrammarError::GrammarValidationError(GrammarValidationError::InvalidStartRule));
    let a = ast_of("S", &["x"], vec![("S", vec![vec![tok("x")]]), ("S", vec![vec![tok("x")]])]);
    assert_eq!(err_of(&a), YaccGrammarError::GrammarValidationError(GrammarValidationError::DuplicateRule));
    let a = ast_of("S", &["x", "x"], vec![("S", vec![vec![tok("x")]])]);
    assert_eq!(err_of(&a), YaccGrammarError::GrammarValidationError(GrammarValidationError::DuplicateToken));
    let a = ast_of("S", &["x"], vec![("S", vec![])]);
    assert_eq!(err_of(&a), YaccGrammarError::GrammarValidationError(GrammarValidationError::EmptyRule));
    let mut a = ast_of("S", &["x"], vec![("S", vec![vec![tok("x")]])]);
    a.rules[0].1.push(0);
    assert_eq!(err_of(&a), YaccGrammarError::GrammarValidationError(GrammarValidationError::InvalidProductionIndex));
    let mut a = ast_of("S", &["x"], vec![("S", vec![vec![tok("x")]])]);
    a.rules[0].1.push(7);
    assert_eq!(err_of(&a), YaccGrammarError::GrammarValidationError(GrammarValidationError::InvalidProductionIndex));
    let mut a = ast_of("S", &["x"], vec![("S", vec![vec![tok("x")]])]);
    a.prods.push(prod(vec![]));
    assert_eq!(err_of(&a), YaccGrammarError::GrammarValidationError(GrammarValidationError::UnownedProduction));
    let a = ast_of("S", &["x"], vec![("S", vec![vec![rule("T")]])]);
    assert_eq!(err_of(&a), YaccGrammarError::GrammarValidationError(GrammarValidationError::UnknownRuleRef));
    let a = ast_of("S", &["x"], vec![("S", vec![vec![tok("y")]])]);
    assert_eq!(err_of(&a), YaccGrammarError::GrammarValidationError(GrammarValidationError::UnknownToken));
    let mut a = ast_of("S", &["x"], vec![("S", vec![vec![tok("x")]])]);
    a.prods[0].precedence = Some("x".to_string());
    assert_eq!(err_of(&a), YaccGrammarError::GrammarValidationError(GrammarValidationError::NoPrecForToken));
    let mut a = ast_of("S", &["x"], vec![("S", vec![vec![tok("x")]])]);
    a.implicit_tokens = Some(vec!["ws".to_string()]);
    assert_eq!(err_of(&a), YaccGrammarError::GrammarValidationError(GrammarValidationError::UnknownToken));
}

#[test]
fn plain_dialect_ignores_implicit_tokens() {
    let mut a = ast_of("S", &["x", "ws"], vec![("S", vec![vec![tok("x")]])]);
    a.implicit_tokens = Some(vec!["ws".to_string()]);
    let grm = YaccGrammar::new(YaccKind::Original, &a).unwrap();
    assert_eq!(grm.implicit_rule(), None);
    assert_eq!(*grm.prod(PIdx(0)), [Symbol::Token(TIdx(0))]);
    let grm = YaccGrammar::new(YaccKind::Eco, &a).unwrap();
    assert_eq!(grm.implicit_rule(), Some(RIdx(1)));
    assert_eq!(*grm.prod(PIdx(0)), [Symbol::Token(TIdx(0)), Symbol::Rule(RIdx(1))]);
    assert_eq!(*grm.prod(grm.start_prod()), [Symbol::Rule(RIdx(2))]);
    assert_eq!(grm.rule_name(RIdx(1)), "~");
    assert_eq!(grm.rule_name(RIdx(2)), "^~");
}

#[test]
fn min_costs_of_unproductive_rule_fail() {
    // A: A 'x';  never ends in a sentence.
    let a = ast_of("A", &["x"], vec![("A", vec![vec![rule("A"), tok("x")]])]);
    let grm = YaccGrammar::new(YaccKind::Original, &a).unwrap();
    assert_eq!(rule_min_costs(&grm, &vec![1, 1]), Err(CostOverflow {}));
    let mut sg = grm.sentence_generator(|_| 1);
    assert_eq!(sg.min_sentence_cost(RIdx(1)), Err(CostOverflow {}));
}

#[test]
fn max_costs_overflow() {
    // A: 'x' repeated 300 times, each costing 255: 76500 does not fit below u16::MAX.
    let a = ast_of("A", &["x"], vec![("A", vec![(0..300).map(|_| tok("x")).collect()])]);
    let grm = YaccGrammar::new(YaccKind::Original, &a).unwrap();
    assert_eq!(rule_max_costs(&grm, &vec![255, 1]), Err(CostOverflow {}));
    assert_eq!(rule_max_costs(&grm, &vec![200, 1]).unwrap()[1], 60000);
    assert_eq!(rule_min_costs(&grm, &vec![200, 1]).unwrap()[1], 60000);
}

#[test]
fn max_cost_unbounded_through_reference() {
    // X: Y; Y: Y 'a' | 'b';  X is not recursive, but reaches the recursive Y.
    let a = ast_of(
        "X",
        &["a", "b"],
        vec![("X", vec![vec![rule("Y")]]), ("Y", vec![vec![rule("Y"), tok("a")], vec![tok("b")]])],
    );
    let grm = YaccGrammar::new(YaccKind::Original, &a).unwrap();
    let x = grm.rule_idx("X").unwrap();
    let y = grm.rule_idx("Y").unwrap();
    assert!(!grm.has_path(x, x));
    assert!(grm.has_path(y, y));
    let mut sg = grm.sentence_generator(|_| 1);
    assert_eq!(sg.max_sentence_cost(x), Ok(None));
    assert_eq!(sg.max_sentence_cost(y), Ok(None));
    assert_eq!(sg.min_sentence_cost(x), Ok(1));
    assert_eq!(sg.min_sentence(x), Ok(vec![grm.token_idx("b").unwrap()]));
}

#[test]
fn generator_costs_follow_token_costs() {
    // S: 'a' 'b' | 'c';  with costs a=1, b=1, c=5.
    let a = ast_of("S", &["a", "b", "c"], vec![("S", vec![vec![tok("a"), tok("b")], vec![tok("c")]])]);
    let grm = YaccGrammar::new(YaccKind::Original, &a).unwrap();
    let mut sg = grm.sentence_generator(|t| if t == TIdx(2) { 5 } else { 1 });
    let s = grm.rule_idx("S").unwrap();
    assert_eq!(sg.min_sentence_cost(s), Ok(2));
    assert_eq!(sg.max_sentence_cost(s), Ok(Some(5)));
    assert_eq!(sg.min_sentence(s), Ok(vec![TIdx(0), TIdx(1)]));
    assert_eq!(sg.min_sentences(s), Ok(vec![vec![TIdx(0), TIdx(1)]]));
}

#[test]
fn min_sentences_with_a_unit_cycle_end() {
    // A: B | 'x'; B: A | 'x';  every minimal sentence of A is "x".
    let a = ast_of(
        "A",
        &["x"],
        vec![("A", vec![vec![rule("B")], vec![tok("x")]]), ("B", vec![vec![rule("A")], vec![tok("x")]])],
    );
    let grm = YaccGrammar::new(YaccKind::Original, &a).unwrap();
    let mut sg = grm.sentence_generator(|_| 1);
    let ra = grm.rule_idx("A").unwrap();
    assert_eq!(sg.min_sentence_cost(ra), Ok(1));
    assert_eq!(sg.min_sentence(ra), Ok(vec![TIdx(0)]));
    let ss = sg.min_sentences(ra).unwrap();
    assert!(!ss.is_empty());
    assert!(ss.iter().all(|s| *s == vec![TIdx(0)]));
}

#[test]
fn scenario_min_and_max_costs() {
    // A: A B | ; B: C | D | E; C: 'x' B | 'x'; D: 'y' B | 'y' 'z'; E: 'x' A | 'x' 'y';
    let a = ast_of(
        "A",
        &["x", "y", "z"],
        vec![
            ("A", vec![vec![rule("A"), rule("B")], vec![]]),
            ("B", vec![vec![rule("C")], vec![rule("D")], vec![rule("E")]]),
            ("C", vec![vec![tok("x"), rule("B")], vec![tok("x")]]),
            ("D", vec![vec![tok("y"), rule("B")], vec![tok("y"), tok("z")]]),
            ("E", vec![vec![tok("x"), rule("A")], vec![tok("x"), tok("y")]]),
        ],
    );
    let grm = YaccGrammar::new(YaccKind::Original, &a).unwrap();
    let mut sg = grm.sentence_generator(|_| 1);
    let costs: Vec<u16> = ["A", "B", "C", "D", "E"]
        .iter()
        .map(|n| sg.min_sentence_cost(grm.rule_idx(n).unwrap()).unwrap())
        .collect();
    assert_eq!(costs, vec![0, 1, 1, 2, 1]);
    for n in ["A", "B", "C", "D", "E"] {
        assert_eq!(sg.max_sentence_cost(grm.rule_idx(n).unwrap()), Ok(None));
    }
    let d = grm.rule_idx("D").unwrap();
    for s in sg.min_sentences(d).unwrap() {
        assert_eq!(s.len(), 2);
    }
}

#[test]
fn precedence_of_rightmost_token_without_one() {
    // S: 'a' 'b'; where only 'a' has a precedence: the scan stops at 'b'.
    let mut a = ast_of("S", &["a", "b"], vec![("S", vec![vec![tok("a"), tok("b")], vec![tok("a"), rule("S")]])]);
    a.precs.push(("a".to_string(), cfgrammar::Precedence { level: 3, kind: cfgrammar::AssocKind::Right }));
    let grm = YaccGrammar::new(YaccKind::Original, &a).unwrap();
    assert_eq!(grm.prod_precedence(PIdx(0)), None);
    assert_eq!(
        grm.prod_precedence(PIdx(1)),
        Some(cfgrammar::Precedence { level: 3, kind: cfgrammar::AssocKind::Right })
    );
    assert_eq!(grm.token_precedence(TIdx(0)), Some(cfgrammar::Precedence { level: 3, kind: cfgrammar::AssocKind::Right }));
    assert_eq!(grm.token_precedence(TIdx(1)), None);
}

#[test]
fn min_sentence_is_among_min_sentences_and_stable() {
    // S: A | B; A: 'x'; B: 'x' 'y' | 'z';
    let a = ast_of(
        "S",
        &["x", "y", "z"],
        vec![
            ("S", vec![vec![rule("A")], vec![rule("B")]]),
            ("A", vec![vec![tok("x")]]),
            ("B", vec![vec![tok("x"), tok("y")], vec![tok("z")]]),
        ],
    );
    let grm = YaccGrammar::new(YaccKind::Original, &a).unwrap();
    let mut sg = grm.sentence_generator(|_| 1);
    let s = grm.rule_idx("S").unwrap();
    let first = sg.min_sentence(s).unwrap();
    assert_eq!(sg.min_sentence(s).unwrap(), first);
    let all = sg.min_sentences(s).unwrap();
    assert!(all.contains(&first));
    assert_eq!(all.len(), 2);
    assert!(all.contains(&vec![TIdx(0)]) && all.contains(&vec![TIdx(2)]));
    assert_eq!(grm.tokens_map().len(), 3);
}
