use std::collections::HashMap;

use cfgrammar::ast::{self, GrammarAST, Production};
use cfgrammar::{AssocKind, PIdx, Precedence, RIdx, Symbol, TIdx, YaccGrammar, YaccKind};

/// Reads the small Yacc subset used by these tests into an AST: `%start`, `%token`,
/// `%left`, `%right`, `%nonassoc`, `%implicit_tokens`, then rules after `%%`, where a quoted
/// name is a token and `%prec 'x'` names a production's precedence token.
fn parse(src: &str) -> GrammarAST {
    let mut words: Vec<String> = Vec::new();
    let mut cur = String::new();
    let mut in_quote = false;
    for c in src.chars() {
        if in_quote {
            cur.push(c);
            if c == '\'' {
                in_quote = false;
                words.push(std::mem::take(&mut cur));
            }
        } else if c == '\'' {
            if !cur.is_empty() {
                words.push(std::mem::take(&mut cur));
            }
            cur.push(c);
            in_quote = true;
        } else if c.is_whitespace() || c == ':' || c == '|' || c == ';' {
            if !cur.is_empty() {
                words.push(std::mem::take(&mut cur));
            }
            if !c.is_whitespace() {
                words.push(c.to_string());
            }
        } else {
            cur.push(c);
        }
    }
    if !cur.is_empty() {
        words.push(cur);
    }
    let unquote = |w: &str| w.trim_matches('\'').to_string();
    let mut a = GrammarAST {
        start: None,
        rules: Vec::new(),
        prods: Vec::new(),
        tokens: Vec::new(),
        precs: Vec::new(),
        implicit_tokens: None,
    };
    let add_token = |a: &mut GrammarAST, t: String| {
        if !a.tokens.contains(&t) {
            a.tokens.push(t);
        }
    };
    let mut i = 0;
    let mut level = 0u64;
    while i < words.len() && words[i] != "%%" {
        let d = words[i].clone();
        i += 1;
        let mut names = Vec::new();
        while i < words.len() && !words[i].starts_with('%') {
            names.push(unquote(&words[i]));
            i += 1;
        }
        match d.as_str() {
            "%start" => a.start = Some(names[0].clone()),
            "%token" => {
                for n in names {
                    add_token(&mut a, n);
                }
            }
            "%implicit_tokens" => {
                for n in names.iter() {
                    add_token(&mut a, n.clone());
                }
                a.implicit_tokens = Some(names);
            }
            "%left" | "%right" | "%nonassoc" => {
                let kind = match d.as_str() {
                    "%left" => AssocKind::Left,
                    "%right" => AssocKind::Right,
                    _ => AssocKind::Nonassoc,
                };
                for n in names {
                    a.precs.push((n.clone(), Precedence { level, kind }));
                    add_token(&mut a, n);
                }
                level += 1;
            }
            _ => panic!("unknown declaration {}", d),
        }
    }
    i += 1;
    while i < words.len() {
        let name = words[i].clone();
        assert_eq!(words[i + 1], ":");
        i += 2;
        let ridx = match a.rules.iter().position(|r| r.0 == name) {
            Some(j) => j,
            None => {
                a.rules.push((name, Vec::new()));
                a.rules.len() - 1
            }
        };
        loop {
            let mut symbols = Vec::new();
            let mut precedence = None;
            while words[i] != "|" && words[i] != ";" {
                let w = &words[i];
                if w == "%prec" {
                    precedence = Some(unquote(&words[i + 1]));
                    i += 2;
                    continue;
                }
                if w.starts_with('\'') {
                    let t = unquote(w);
                    add_token(&mut a, t.clone());
                    symbols.push(ast::Symbol::Token(t));
                } else {
                    symbols.push(ast::Symbol::Rule(w.clone()));
                }
                i += 1;
            }
            a.prods.push(Production { symbols, precedence });
            let p = a.prods.len() - 1;
            a.rules[ridx].1.push(p);
            let end = words[i] == ";";
            i += 1;
            if end {
                break;
            }
        }
    }
    a
}

fn grammar(kind: YaccKind, src: &str) -> YaccGrammar {
    YaccGrammar::new(kind, &parse(src)).unwrap()
}

#[test]
fn test_minimal() {
    let grm = grammar(YaccKind::Original, "%start R %token T %% R: 'T';");

    assert_eq!(grm.start_prod, PIdx(1));
    assert_eq!(grm.implicit_rule(), None);
    grm.rule_idx("^").unwrap();
    grm.rule_idx("R").unwrap();
    grm.token_idx("T").unwrap();

    assert_eq!(grm.rules_prods, vec![vec![PIdx(1)], vec![PIdx(0)]]);
    let start_prod = grm.prod(grm.rules_prods[usize::from(grm.rule_idx("^").unwrap())][0]);
    assert_eq!(*start_prod, [Symbol::Rule(grm.rule_idx("R").unwrap())]);
    let r_prod = grm.prod(grm.rules_prods[usize::from(grm.rule_idx("R").unwrap())][0]);
    assert_eq!(*r_prod, [Symbol::Token(grm.token_idx("T").unwrap())]);
    assert_eq!(grm.prods_rules, vec![RIdx(1), RIdx(0)]);

    assert_eq!(
        grm.tokens_map().into_iter().collect::<HashMap<String, TIdx>>(),
        [("T".to_string(), TIdx(0))].iter().cloned().collect::<HashMap<String, TIdx>>()
    );
    assert_eq!((0..grm.rules_len().0).map(RIdx).collect::<Vec<_>>(), vec![RIdx(0), RIdx(1)]);
}

#[test]
fn test_rule_ref() {
    let grm = grammar(YaccKind::Original, "%start R %token T %% R : S; S: 'T';");

    grm.rule_idx("^").unwrap();
    grm.rule_idx("R").unwrap();
    grm.rule_idx("S").unwrap();
    grm.token_idx("T").unwrap();
    assert!(grm.token_name(grm.eof_token_idx()).is_none());

    assert_eq!(grm.rules_prods, vec![vec![PIdx(2)], vec![PIdx(0)], vec![PIdx(1)]]);
    let start_prod = grm.prod(grm.rules_prods[usize::from(grm.rule_idx("^").unwrap())][0]);
    assert_eq!(*start_prod, [Symbol::Rule(grm.rule_idx("R").unwrap())]);
    let r_prod = grm.prod(grm.rules_prods[usize::from(grm.rule_idx("R").unwrap())][0]);
    assert_eq!(r_prod.len(), 1);
    assert_eq!(r_prod[0], Symbol::Rule(grm.rule_idx("S").unwrap()));
    let s_prod = grm.prod(grm.rules_prods[usize::from(grm.rule_idx("S").unwrap())][0]);
    assert_eq!(s_prod.len(), 1);
    assert_eq!(s_prod[0], Symbol::Token(grm.token_idx("T").unwrap()));
}

#[test]
fn test_long_prod() {
    let grm = grammar(YaccKind::Original, "%start R %token T1 T2 %% R : S 'T1' S; S: 'T2';");

    grm.rule_idx("^").unwrap();
    grm.rule_idx("R").unwrap();
    grm.rule_idx("S").unwrap();
    grm.token_idx("T1").unwrap();
    grm.token_idx("T2").unwrap();

    assert_eq!(grm.rules_prods, vec![vec![PIdx(2)], vec![PIdx(0)], vec![PIdx(1)]]);
    assert_eq!(grm.prods_rules, vec![RIdx(1), RIdx(2), RIdx(0)]);
    let start_prod = grm.prod(grm.rules_prods[usize::from(grm.rule_idx("^").unwrap())][0]);
    assert_eq!(*start_prod, [Symbol::Rule(grm.rule_idx("R").unwrap())]);
    let r_prod = grm.prod(grm.rules_prods[usize::from(grm.rule_idx("R").unwrap())][0]);
    assert_eq!(r_prod.len(), 3);
    assert_eq!(r_prod[0], Symbol::Rule(grm.rule_idx("S").unwrap()));
    assert_eq!(r_prod[1], Symbol::Token(grm.token_idx("T1").unwrap()));
    assert_eq!(r_prod[2], Symbol::Rule(grm.rule_idx("S").unwrap()));
    let s_prod = grm.prod(grm.rules_prods[usize::from(grm.rule_idx("S").unwrap())][0]);
    assert_eq!(s_prod.len(), 1);
    assert_eq!(s_prod[0], Symbol::Token(grm.token_idx("T2").unwrap()));
}

#[test]
fn test_prods_rules() {
    let grm = grammar(
        YaccKind::Original,
        "
            %start A
            %%
            A: B
             | C;
            B: 'x';
            C: 'y'
             | 'z';
          ",
    );

    assert_eq!(grm.prods_rules, vec![RIdx(1), RIdx(1), RIdx(2), RIdx(3), RIdx(3), RIdx(0)]);
}

#[test]
fn test_left_right_nonassoc_precs() {
    let grm = grammar(
        YaccKind::Original,
        "
            %start Expr
            %right '='
            %left '+' '-'
            %left '/'
            %left '*'
            %nonassoc '~'
            %%
            Expr : Expr '=' Expr
                 | Expr '+' Expr
                 | Expr '-' Expr
                 | Expr '/' Expr
                 | Expr '*' Expr
                 | Expr '~' Expr
                 | 'id' ;
          ",
    );

    assert_eq!(grm.prod_precs.len(), 8);
    assert_eq!(grm.prod_precs[0].unwrap(), Precedence { level: 0, kind: AssocKind::Right });
    assert_eq!(grm.prod_precs[1].unwrap(), Precedence { level: 1, kind: AssocKind::Left });
    assert_eq!(grm.prod_precs[2].unwrap(), Precedence { level: 1, kind: AssocKind::Left });
    assert_eq!(grm.prod_precs[3].unwrap(), Precedence { level: 2, kind: AssocKind::Left });
    assert_eq!(grm.prod_precs[4].unwrap(), Precedence { level: 3, kind: AssocKind::Left });
    assert_eq!(grm.prod_precs[5].unwrap(), Precedence { level: 4, kind: AssocKind::Nonassoc });
    assert!(grm.prod_precs[6].is_none());
    assert_eq!(grm.prod_precs[7], None);
}

#[test]
fn test_prec_override() {
    let grm = grammar(
        YaccKind::Original,
        "
            %start expr
            %left '+' '-'
            %left '*' '/'
            %%
            expr : expr '+' expr
                 | expr '-' expr
                 | expr '*' expr
                 | expr '/' expr
                 | '-'  expr %prec '*'
                 | 'id' ;
        ",
    );
    assert_eq!(grm.prod_precs.len(), 7);
    assert_eq!(grm.prod_precs[0].unwrap(), Precedence { level: 0, kind: AssocKind::Left });
    assert_eq!(grm.prod_precs[1].unwrap(), Precedence { level: 0, kind: AssocKind::Left });
    assert_eq!(grm.prod_precs[2].unwrap(), Precedence { level: 1, kind: AssocKind::Left });
    assert_eq!(grm.prod_precs[3].unwrap(), Precedence { level: 1, kind: AssocKind::Left });
    assert_eq!(grm.prod_precs[4].unwrap(), Precedence { level: 1, kind: AssocKind::Left });
    assert!(grm.prod_precs[5].is_none());
    assert_eq!(grm.prod_precs[6], None);
}

#[test]
fn test_implicit_tokens_rewrite() {
    let grm = grammar(
        YaccKind::Eco,
        "
          %implicit_tokens ws1 ws2
          %start S
          %%
          S: 'a' | T;
          T: 'c' |;
          ",
    );

    // The grammar is rewritten to:
    //   ^ : ^~;
    //   ^~: ~ S;
    //   ~ : ws1 | ws2 | ;
    //   S : 'a' ~ | T;
    //   T : 'c' ~ | ;

    assert_eq!(grm.prod_precs.len(), 9);

    let itfs_rule_idx = grm.rule_idx("^~").unwrap();
    assert_eq!(grm.rules_prods[usize::from(itfs_rule_idx)].len(), 1);

    let itfs_prod1 = &grm.prods[usize::from(grm.rules_prods[usize::from(itfs_rule_idx)][0])];
    assert_eq!(itfs_prod1.len(), 2);
    assert_eq!(itfs_prod1[0], Symbol::Rule(grm.rule_idx("~").unwrap()));
    assert_eq!(itfs_prod1[1], Symbol::Rule(grm.rule_idx("S").unwrap()));

    let s_rule_idx = grm.rule_idx("S").unwrap();
    assert_eq!(grm.rules_prods[usize::from(s_rule_idx)].len(), 2);

    let s_prod1 = &grm.prods[usize::from(grm.rules_prods[usize::from(s_rule_idx)][0])];
    assert_eq!(s_prod1.len(), 2);
    assert_eq!(s_prod1[0], Symbol::Token(grm.token_idx("a").unwrap()));
    assert_eq!(s_prod1[1], Symbol::Rule(grm.rule_idx("~").unwrap()));

    let s_prod2 = &grm.prods[usize::from(grm.rules_prods[usize::from(s_rule_idx)][1])];
    assert_eq!(s_prod2.len(), 1);
    assert_eq!(s_prod2[0], Symbol::Rule(grm.rule_idx("T").unwrap()));

    let t_rule_idx = grm.rule_idx("T").unwrap();
    assert_eq!(grm.rules_prods[usize::from(s_rule_idx)].len(), 2);

    let t_prod1 = &grm.prods[usize::from(grm.rules_prods[usize::from(t_rule_idx)][0])];
    assert_eq!(t_prod1.len(), 2);
    assert_eq!(t_prod1[0], Symbol::Token(grm.token_idx("c").unwrap()));
    assert_eq!(t_prod1[1], Symbol::Rule(grm.rule_idx("~").unwrap()));

    let t_prod2 = &grm.prods[usize::from(grm.rules_prods[usize::from(t_rule_idx)][1])];
    assert_eq!(t_prod2.len(), 0);

    assert_eq!(Some(grm.rule_idx("~").unwrap()), grm.implicit_rule());
    let i_rule_idx = grm.rule_idx("~").unwrap();
    assert_eq!(grm.rules_prods[usize::from(i_rule_idx)].len(), 3);
    let i_prod1 = &grm.prods[usize::from(grm.rules_prods[usize::from(i_rule_idx)][0])];
    let i_prod2 = &grm.prods[usize::from(grm.rules_prods[usize::from(i_rule_idx)][1])];
    assert_eq!(i_prod1.len(), 2);
    assert_eq!(i_prod2.len(), 2);
    // The order of the implicit tokens is not fixed.
    let cnd1 = vec![Symbol::Token(grm.token_idx("ws1").unwrap()), Symbol::Rule(grm.implicit_rule().unwrap())];
    let cnd2 = vec![Symbol::Token(grm.token_idx("ws2").unwrap()), Symbol::Rule(grm.implicit_rule().unwrap())];
    assert!((*i_prod1 == cnd1 && *i_prod2 == cnd2) || (*i_prod1 == cnd2 && *i_prod2 == cnd1));
    let i_prod3 = &grm.prods[usize::from(grm.rules_prods[usize::from(i_rule_idx)][2])];
    assert_eq!(i_prod3.len(), 0);
}

#[test]
fn test_has_path() {
    let grm = grammar(
        YaccKind::Original,
        "
            %start A
            %%
            A: B;
            B: B 'x' | C;
            C: C 'y' | ;
          ",
    );

    let a_ridx = grm.rule_idx("A").unwrap();
    let b_ridx = grm.rule_idx("B").unwrap();
    let c_ridx = grm.rule_idx("C").unwrap();
    assert!(grm.has_path(a_ridx, b_ridx));
    assert!(grm.has_path(a_ridx, c_ridx));
    assert!(grm.has_path(b_ridx, b_ridx));
    assert!(grm.has_path(b_ridx, c_ridx));
    assert!(grm.has_path(c_ridx, c_ridx));
    assert!(!grm.has_path(a_ridx, a_ridx));
    assert!(!grm.has_path(b_ridx, a_ridx));
    assert!(!grm.has_path(c_ridx, a_ridx));
}

#[test]
fn test_rule_min_costs() {
    let grm = grammar(
        YaccKind::Original,
        "
            %start A
            %%
            A: A B | ;
            B: C | D | E;
            C: 'x' B | 'x';
            D: 'y' B | 'y' 'z';
            E: 'x' A | 'x' 'y';
          ",
    );

    let scores = cfgrammar::rule_min_costs(&grm, &vec![1, 1, 1]).unwrap();
    assert_eq!(scores[usize::from(grm.rule_idx("A").unwrap())], 0);
    assert_eq!(scores[usize::from(grm.rule_idx("B").unwrap())], 1);
    assert_eq!(scores[usize::from(grm.rule_idx("C").unwrap())], 1);
    assert_eq!(scores[usize::from(grm.rule_idx("D").unwrap())], 2);
    assert_eq!(scores[usize::from(grm.rule_idx("E").unwrap())], 1);
}

#[test]
fn test_min_sentences() {
    let grm = grammar(
        YaccKind::Original,
        "
            %start A
            %%
            A: A B | ;
            B: C | D;
            C: 'x' B | 'x';
            D: 'y' B | 'y' 'z';
          ",
    );

    let mut sg = grm.sentence_generator(|_| 1);

    let mut find = |nt_name: &str, str_cnds: Vec<Vec<&str>>| {
        let cnds = str_cnds
            .iter()
            .map(|x| x.iter().map(|y| grm.token_idx(y).unwrap()).collect::<Vec<_>>())
            .collect::<Vec<_>>();

        let ms = sg.min_sentence(grm.rule_idx(nt_name).unwrap()).unwrap();
        if !cnds.iter().any(|x| x == &ms) {
            panic!("{:?} doesn't have any matches in {:?}", ms, str_cnds);
        }

        let min_sts = sg.min_sentences(grm.rule_idx(nt_name).unwrap()).unwrap();
        assert_eq!(cnds.len(), min_sts.len());
        for ms in min_sts {
            if !cnds.iter().any(|x| x == &ms) {
                panic!("{:?} doesn't have any matches in {:?}", ms, str_cnds);
            }
        }
    };

    find("A", vec![vec![]]);
    find("B", vec![vec!["x"]]);
    find("C", vec![vec!["x"]]);
    find("D", vec![vec!["y", "x"], vec!["y", "z"]]);
}

#[test]
fn test_rule_max_costs1() {
    let grm = grammar(
        YaccKind::Original,
        "
            %start A
            %%
            A: A B | ;
            B: C | D | E;
            C: 'x' B | 'x';
            D: 'y' B | 'y' 'z';
            E: 'x' A | 'x' 'y';
          ",
    );

    let scores = cfgrammar::rule_max_costs(&grm, &vec![1, 1, 1]).unwrap();
    assert_eq!(scores[usize::from(grm.rule_idx("A").unwrap())], u16::max_value());
    assert_eq!(scores[usize::from(grm.rule_idx("B").unwrap())], u16::max_value());
    assert_eq!(scores[usize::from(grm.rule_idx("C").unwrap())], u16::max_value());
    assert_eq!(scores[usize::from(grm.rule_idx("D").unwrap())], u16::max_value());
    assert_eq!(scores[usize::from(grm.rule_idx("E").unwrap())], u16::max_value());
}

#[test]
fn test_rule_max_costs2() {
    let grm = grammar(
        YaccKind::Original,
        "
            %start A
            %%
            A: A B | B;
            B: C | D;
            C: 'x' 'y' | 'x';
            D: 'y' 'x' | 'y' 'x' 'z';
          ",
    );

    let scores = cfgrammar::rule_max_costs(&grm, &vec![1, 1, 1]).unwrap();
    assert_eq!(scores[usize::from(grm.rule_idx("A").unwrap())], u16::max_value());
    assert_eq!(scores[usize::from(grm.rule_idx("B").unwrap())], 3);
    assert_eq!(scores[usize::from(grm.rule_idx("C").unwrap())], 2);
    assert_eq!(scores[usize::from(grm.rule_idx("D").unwrap())], 3);
}

#[test]
fn test_out_of_order_productions() {
    // Example taken from p54 of Locally least-cost error repair in LR parsers, Carl Cerecke
    let grm = grammar(
        YaccKind::Original,
        "
            %start S
            %%
            S: A 'c' 'd'
             | B 'c' 'e';
            A: 'a';
            B: 'a'
             | 'b';
            A: 'b';
            ",
    );

    assert_eq!(
        grm.prods_rules,
        vec![RIdx(1), RIdx(1), RIdx(2), RIdx(3), RIdx(3), RIdx(2), RIdx(0)]
    );
}
