use easypls::cnf::CNF;
use easypls::expr::{And, Expr, Not, Or};
use easypls::lexer::Lexer;
use easypls::vm::OpCode;

fn var(name: &str) -> Expr {
    Expr::Var(String::from(name))
}

/// Truth of the formula when each variable has the value that the
/// assignment gives the identifier of its name.
fn value(expr: &Expr, assignment: &[bool], symbol_table: &[String]) -> bool {
    match expr {
        Expr::And(and) => {
            value(&and.l, assignment, symbol_table) && value(&and.r, assignment, symbol_table)
        }
        Expr::Or(or) => {
            value(&or.l, assignment, symbol_table) || value(&or.r, assignment, symbol_table)
        }
        Expr::Not(not) => !value(&not.expr, assignment, symbol_table),
        Expr::Literal(b) => *b,
        Expr::Var(name) => {
            let slot = symbol_table.iter().position(|s| s == name).unwrap();
            assignment[slot]
        }
    }
}

fn names_of(expr: &Expr, into: &mut Vec<String>) {
    match expr {
        Expr::And(and) => {
            names_of(&and.l, into);
            names_of(&and.r, into);
        }
        Expr::Or(or) => {
            names_of(&or.l, into);
            names_of(&or.r, into);
        }
        Expr::Not(not) => names_of(&not.expr, into),
        Expr::Literal(_) => {}
        Expr::Var(name) => {
            if !into.contains(name) {
                into.push(name.clone());
            }
        }
    }
}

/// Whether some assignment of the formula's own variables makes it true,
/// by trying them all.
fn satisfiable_by_enumeration(expr: &Expr) -> bool {
    let mut names = Vec::new();
    names_of(expr, &mut names);
    let n = names.len();
    (0..(1usize << n)).any(|bits| {
        let assignment: Vec<bool> = (0..n).map(|i| bits & (1 << i) != 0).collect();
        value(expr, &assignment, &names)
    })
}

fn is_valid_sat_proof(expr: &Expr, proof: &[bool], symbol_table: &[String]) -> bool {
    proof.len() == symbol_table.len() && value(expr, proof, symbol_table)
}

#[test]
fn tseitin() {
    // Expr not (a and b) or c
    let a = var("a");
    let b = var("b");
    let c = var("c");
    let expr = Expr::or(Expr::not(Expr::and(a, b)), c);

    let mut cnf = expr.tseitin();
    assert!(cnf.find_evidence().is_some());

    // Expr not (a or b) and a
    let a = var("a");
    let b = var("b");
    let expr = Expr::and(Expr::not(Expr::or(a.clone(), b)), a);

    let mut cnf = expr.tseitin();
    assert!(!cnf.find_evidence().is_some())
}

#[test]
fn sat_evidence() {
    let prop = "(not a and b) or (c xor d) -> (e nand f)";
    assert_eq!(Lexer::new(prop.as_bytes()).lex_all().unwrap().len(), 18);
    let expr = Expr::eif(
        Expr::or(
            Expr::and(Expr::not(var("a")), var("b")),
            Expr::xor(var("c"), var("d")),
        ),
        Expr::nand(var("e"), var("f")),
    );
    let mut cnf = expr.tseitin();
    let symbol_table = cnf.get_symbol_table();
    let proof = cnf.find_evidence().unwrap();

    assert!(is_valid_sat_proof(&expr, &proof, &symbol_table));

    let prop = "not (((a or (b and c) <-> d) xor a or (b and c) <-> d) nand e) or not (not f)";
    assert_eq!(Lexer::new(prop.as_bytes()).lex_all().unwrap().len(), 34);
    let left = Expr::iff(Expr::or(var("a"), Expr::and(var("b"), var("c"))), var("d"));
    let inner = Expr::iff(
        Expr::or(Expr::xor(left, var("a")), Expr::and(var("b"), var("c"))),
        var("d"),
    );
    let expr = Expr::or(
        Expr::not(Expr::nand(inner, var("e"))),
        Expr::not(Expr::not(var("f"))),
    );
    let mut cnf = expr.tseitin();
    let symbol_table = cnf.get_symbol_table();
    let proof = cnf.find_evidence().unwrap();

    assert!(is_valid_sat_proof(&expr, &proof, &symbol_table));

    let prop = "(e nand f) and not g <-> (h or i) xor (not j nor k)";
    assert_eq!(Lexer::new(prop.as_bytes()).lex_all().unwrap().len(), 21);
    let expr = Expr::iff(
        Expr::and(Expr::nand(var("e"), var("f")), Expr::not(var("g"))),
        Expr::xor(
            Expr::or(var("h"), var("i")),
            Expr::nor(Expr::not(var("j")), var("k")),
        ),
    );
    let mut cnf = expr.tseitin();
    let symbol_table = cnf.get_symbol_table();
    let proof = cnf.find_evidence().unwrap();

    assert!(is_valid_sat_proof(&expr, &proof, &symbol_table));
}

#[test]
fn encoding_lists_node_clauses_before_those_of_children() {
    let expr = Expr::or(Expr::not(Expr::and(var("a"), var("b"))), var("c"));
    let cnf = expr.tseitin();
    assert_eq!(
        cnf.get_clauses_clone(),
        vec![
            vec![1],
            vec![-1, 2, 3],
            vec![1, -2],
            vec![1, -3],
            vec![-2, -4],
            vec![2, 4],
            vec![-4, 5],
            vec![-4, 6],
            vec![4, -5, -6],
        ]
    );
    assert_eq!(
        cnf.get_symbol_table(),
        vec!["$0", "$1", "c", "$2", "a", "b"]
    );
}

#[test]
fn repeated_name_shares_one_identifier() {
    let expr = Expr::and(var("a"), Expr::or(var("a"), var("a")));
    let cnf = expr.tseitin();
    assert_eq!(cnf.get_symbol_table(), vec!["$0", "a", "$1"]);
    assert_eq!(
        cnf.get_clauses_clone(),
        vec![
            vec![1],
            vec![-1, 2],
            vec![-1, 3],
            vec![1, -2, -3],
            vec![-3, 2, 2],
            vec![3, -2],
            vec![3, -2],
        ]
    );
}

#[test]
fn equal_subtrees_get_variables_of_their_own() {
    let part = Expr::not(var("a"));
    let expr = Expr::or(part.clone(), part);
    let cnf = expr.tseitin();
    assert_eq!(cnf.get_symbol_table(), vec!["$0", "$1", "$2", "a"]);
}

#[test]
fn bare_variable_is_its_own_root() {
    let expr = var("p");
    let mut cnf = expr.tseitin();
    assert_eq!(cnf.get_symbol_table(), vec!["p"]);
    assert_eq!(cnf.get_clauses_clone(), vec![vec![1]]);
    assert_eq!(cnf.find_evidence(), Some(vec![true]));
}

#[test]
fn literals_are_forced_to_their_polarity() {
    let mut cnf = Expr::Literal(true).tseitin();
    assert_eq!(cnf.get_clauses_clone(), vec![vec![1], vec![1]]);
    assert_eq!(cnf.find_evidence(), Some(vec![true]));

    let mut cnf = Expr::Literal(false).tseitin();
    assert_eq!(cnf.get_clauses_clone(), vec![vec![1], vec![-1]]);
    assert_eq!(cnf.find_evidence(), None);

    let mut cnf = Expr::or(Expr::Literal(false), var("x")).tseitin();
    let symbol_table = cnf.get_symbol_table();
    let proof = cnf.find_evidence().unwrap();
    assert!(proof[symbol_table.iter().position(|s| s == "x").unwrap()]);
}

#[test]
fn every_literal_lies_within_the_symbol_table() {
    let expr = Expr::iff(
        Expr::xor(var("a"), Expr::nand(var("b"), Expr::Literal(true))),
        Expr::nor(var("c"), Expr::eif(var("a"), var("d"))),
    );
    let cnf = expr.tseitin();
    let n = cnf.get_symbol_table().len();
    for clause in cnf.get_clauses_clone() {
        for lit in clause {
            assert!(lit != 0);
            assert!(lit.unsigned_abs() >= 1 && lit.unsigned_abs() <= n);
        }
    }
}

#[test]
fn search_on_encoding_agrees_with_direct_evaluation() {
    let a = var("a");
    let b = var("b");
    let c = var("c");
    let formulas = vec![
        Expr::or(Expr::not(Expr::and(a.clone(), b.clone())), c.clone()),
        Expr::and(Expr::not(Expr::or(a.clone(), b.clone())), a.clone()),
        Expr::and(a.clone(), Expr::not(a.clone())),
        Expr::xor(a.clone(), a.clone()),
        Expr::iff(a.clone(), Expr::not(a.clone())),
        Expr::iff(Expr::xor(a.clone(), b.clone()), Expr::iff(a.clone(), b.clone())),
        Expr::nor(Expr::eif(a.clone(), b.clone()), c.clone()),
        Expr::and(Expr::Literal(true), Expr::nand(a.clone(), Expr::Literal(false))),
        Expr::and(
            Expr::and(Expr::or(a.clone(), b.clone()), Expr::or(a.clone(), Expr::not(b.clone()))),
            Expr::and(
                Expr::or(Expr::not(a.clone()), c.clone()),
                Expr::or(Expr::not(a.clone()), Expr::not(c.clone())),
            ),
        ),
    ];
    for expr in formulas {
        let mut cnf = expr.tseitin();
        let symbol_table = cnf.get_symbol_table();
        let found = cnf.find_evidence();
        assert_eq!(found.is_some(), satisfiable_by_enumeration(&expr));
        assert_eq!(cnf.is_sat(), found.is_some());
        assert_eq!(expr.is_sat(), found.is_some());
        if let Some(proof) = found {
            assert!(is_valid_sat_proof(&expr, &proof, &symbol_table));
        }
    }
}

#[test]
fn derived_connectives_are_built_from_the_primitives() {
    let l = var("l");
    let r = var("r");
    assert_eq!(
        Expr::eif(l.clone(), r.clone()),
        Expr::or(Expr::not(l.clone()), r.clone())
    );
    assert_eq!(
        Expr::iff(l.clone(), r.clone()),
        Expr::and(
            Expr::eif(l.clone(), r.clone()),
            Expr::eif(r.clone(), l.clone())
        )
    );
    assert_eq!(
        Expr::xor(l.clone(), r.clone()),
        Expr::and(
            Expr::or(l.clone(), r.clone()),
            Expr::not(Expr::and(l.clone(), r.clone()))
        )
    );
    assert_eq!(
        Expr::nand(l.clone(), r.clone()),
        Expr::not(Expr::and(l.clone(), r.clone()))
    );
    assert_eq!(
        Expr::nor(l.clone(), r.clone()),
        Expr::not(Expr::or(l.clone(), r.clone()))
    );
    assert_eq!(
        Expr::and(l.clone(), r.clone()),
        Expr::And(And::new(Box::new(l.clone()), Box::new(r.clone())))
    );
    assert_eq!(
        Expr::or(l.clone(), r.clone()),
        Expr::Or(Or::new(Box::new(l.clone()), Box::new(r.clone())))
    );
    assert_eq!(Expr::not(l.clone()), Expr::Not(Not::new(Box::new(l))));
}

#[test]
fn derived_connectives_have_their_truth_tables() {
    let table = vec![String::from("l"), String::from("r")];
    for l in [false, true] {
        for r in [false, true] {
            let at = [l, r];
            assert_eq!(value(&Expr::eif(var("l"), var("r")), &at, &table), !l || r);
            assert_eq!(value(&Expr::iff(var("l"), var("r")), &at, &table), l == r);
            assert_eq!(value(&Expr::xor(var("l"), var("r")), &at, &table), l != r);
            assert_eq!(value(&Expr::nand(var("l"), var("r")), &at, &table), !(l && r));
            assert_eq!(value(&Expr::nor(var("l"), var("r")), &at, &table), !(l || r));
        }
    }
}

#[test]
fn node_encoders_emit_their_gates() {
    let names = vec![String::from("$0")];

    let mut cnf = CNF::new(names.clone(), vec![]);
    And::new(Box::new(var("a")), Box::new(var("b"))).tseitin(1, &mut cnf);
    assert_eq!(
        cnf.get_clauses_clone(),
        vec![vec![-1, 2], vec![-1, 3], vec![1, -2, -3]]
    );
    assert_eq!(cnf.get_symbol_table(), vec!["$0", "a", "b"]);

    let mut cnf = CNF::new(names.clone(), vec![]);
    Or::new(Box::new(var("a")), Box::new(var("b"))).tseitin(1, &mut cnf);
    assert_eq!(
        cnf.get_clauses_clone(),
        vec![vec![-1, 2, 3], vec![1, -2], vec![1, -3]]
    );

    let mut cnf = CNF::new(names.clone(), vec![]);
    Not::new(Box::new(var("a"))).tseitin(1, &mut cnf);
    assert_eq!(cnf.get_clauses_clone(), vec![vec![-1, -2], vec![1, 2]]);

    let mut cnf = CNF::new(names.clone(), vec![]);
    Expr::Literal(false).tseitin_aux(1, &mut cnf);
    assert_eq!(cnf.get_clauses_clone(), vec![vec![-1]]);

    let mut cnf = CNF::new(names, vec![]);
    var("q").sub_var_name(String::from("q"), 1, &mut cnf);
    assert_eq!(cnf.get_symbol_table(), vec!["q"]);
    assert_eq!(cnf.get_clauses_clone(), Vec::<Vec<isize>>::new());
}

#[test]
fn compile_gives_postfix_code() {
    let expr = Expr::and(
        Expr::or(var("a"), Expr::Literal(false)),
        Expr::not(Expr::Literal(true)),
    );
    assert_eq!(
        expr.compile(),
        vec![
            OpCode::Load(String::from("a")),
            OpCode::F,
            OpCode::Or,
            OpCode::T,
            OpCode::Not,
            OpCode::And,
        ]
    );
    assert_eq!(var("x").compile(), vec![OpCode::Load(String::from("x"))]);
}
