use lalr_gen::grammar::Grammar;
use lalr_gen::grammar::InvalidGrammarError;
use lalr_gen::grammar::PrecedenceGroup;
use lalr_gen::grammar::Production;
use lalr_gen::grammar::ProductionTail;
use lalr_gen::grammar::apply_precedence;
use lalr_gen::generate;
use lalr_gen::symbols::Associativity;
use lalr_gen::symbols::Location;
use lalr_gen::symbols::SymbolKind;
use lalr_gen::symbols::SymbolTable;
use lalr_gen::tables::Action;
use lalr_gen::tables::ConflictKind;
use lalr_gen::tables::ParserTables;

fn loc(line: usize) -> Location {
    Location { line, column: 0 }
}

fn term(st: &mut SymbolTable, name: &str, line: usize) -> usize {
    st.declare_definition(&name.to_string(), SymbolKind::Terminal, loc(line))
        .unwrap_or_else(|_| panic!("redefinition of terminal"))
}

fn nonterm(st: &mut SymbolTable, name: &str, line: usize) -> usize {
    st.declare_definition(&name.to_string(), SymbolKind::NonTerminal, loc(line))
        .unwrap_or_else(|_| panic!("redefinition of nonterminal"))
}

fn tail(rhs: Vec<usize>) -> ProductionTail {
    ProductionTail { rhs, prec_sym: None, action: String::new() }
}

fn must_generate(g: &Grammar, st: &SymbolTable) -> ParserTables {
    match generate(g, st) {
        Ok(t) => t,
        Err(_) => panic!("expected tables"),
    }
}

/// A table-driven recognizer: runs the ACTION/GOTO tables over a token
/// sequence and returns the sequence of reduced rule ordinals on accept.
fn recognize(t: &ParserTables, input: &[usize]) -> Option<Vec<usize>> {
    let end = t.end_marker;
    let mut stack: Vec<usize> = vec![0];
    let mut reduces: Vec<usize> = Vec::new();
    let mut pos = 0usize;
    let mut steps = 0usize;
    loop {
        steps += 1;
        if steps > 100000 {
            return None;
        }
        let s = *stack.last().unwrap();
        let tok = if pos < input.len() { input[pos] } else { end };
        match t.actions[s][tok] {
            Action::Shift(n) => {
                stack.push(n);
                pos += 1;
            }
            Action::Reduce(r) => {
                for _ in 0..t.rule_arity[r] {
                    stack.pop();
                }
                let top = *stack.last().unwrap();
                match t.gotos[top][t.rule_lhs[r]] {
                    Some(n) => stack.push(n),
                    None => return None,
                }
                reduces.push(r);
            }
            Action::Accept => {
                if pos == input.len() {
                    return Some(reduces);
                } else {
                    return None;
                }
            }
            Action::Error => return None,
        }
    }
}

/// `E -> E '+' E | E '*' E | id`, `*` higher precedence than `+`, both left.
fn expr_grammar() -> (Grammar, SymbolTable, usize, usize, usize) {
    let mut st = SymbolTable::new();
    let plus = term(&mut st, "+", 1);
    let times = term(&mut st, "*", 2);
    let id = term(&mut st, "id", 3);
    let e = nonterm(&mut st, "E", 4);
    apply_precedence(
        &mut st,
        &vec![
            PrecedenceGroup { assoc: Associativity::Left, symbols: vec![plus] },
            PrecedenceGroup { assoc: Associativity::Left, symbols: vec![times] },
        ],
    );
    let e1 = st.declare(&"E".to_string(), SymbolKind::NonTerminal, loc(5));
    let e2 = st.declare(&"E".to_string(), SymbolKind::NonTerminal, loc(5));
    assert_eq!(e1, e);
    assert_eq!(e2, e);
    st.declare(&"+".to_string(), SymbolKind::Terminal, loc(5));
    st.declare(&"E".to_string(), SymbolKind::NonTerminal, loc(6));
    st.declare(&"E".to_string(), SymbolKind::NonTerminal, loc(6));
    st.declare(&"*".to_string(), SymbolKind::Terminal, loc(6));
    st.declare(&"id".to_string(), SymbolKind::Terminal, loc(7));
    let g = Grammar {
        productions: vec![Production {
            lhs: e,
            tails: vec![
                tail(vec![e, plus, e]),
                tail(vec![e, times, e]),
                tail(vec![id]),
            ],
        }],
        start: e,
    };
    (g, st, plus, times, id)
}

#[test]
fn determinism_same_declaration_order_same_tables() {
    let (g1, st1, _, _, _) = expr_grammar();
    let (g2, st2, _, _, _) = expr_grammar();
    let t1 = must_generate(&g1, &st1);
    let t2 = must_generate(&g2, &st2);
    assert_eq!(t1.actions, t2.actions);
    assert_eq!(t1.gotos, t2.gotos);
    assert_eq!(t1.conflicts, t2.conflicts);
    assert_eq!(t1.rule_lhs, t2.rule_lhs);
    assert_eq!(t1.rule_arity, t2.rule_arity);
}

#[test]
fn action_table_is_total() {
    let (g, st, _, _, _) = expr_grammar();
    let t = must_generate(&g, &st);
    assert!(t.actions.len() >= 1);
    for row in &t.actions {
        assert_eq!(row.len(), t.n_syms);
    }
    for row in &t.gotos {
        assert_eq!(row.len(), t.n_syms);
    }
}

#[test]
fn precedence_shifts_times_reduces_plus() {
    let (g, st, plus, times, id) = expr_grammar();
    let t = must_generate(&g, &st);
    // id + id * id: the '*' must bind tighter, so E*E (rule 2) reduces
    // before E+E (rule 1); rules are 1-origin behind the synthetic start.
    let reduces = recognize(&t, &[id, plus, id, times, id]).expect("accepts id+id*id");
    assert_eq!(reduces, vec![3, 3, 3, 2, 1]);
    // id * id + id: the '*' part reduces first, then the addition.
    let reduces2 = recognize(&t, &[id, times, id, plus, id]).expect("accepts id*id+id");
    assert_eq!(reduces2, vec![3, 3, 2, 3, 1]);
    // left associativity: id + id + id reduces the left addition first.
    let reduces3 = recognize(&t, &[id, plus, id, plus, id]).expect("accepts id+id+id");
    assert_eq!(reduces3, vec![3, 3, 1, 3, 1]);
    assert!(recognize(&t, &[id, plus]).is_none());
    assert!(recognize(&t, &[plus, id]).is_none());
}

#[test]
fn epsilon_production_terminates_and_parses() {
    // S -> A 'b' | 'c' A ; A -> 'a' | (empty): A is used in two contexts.
    let mut st = SymbolTable::new();
    let a_t = term(&mut st, "a", 1);
    let b_t = term(&mut st, "b", 2);
    let c_t = term(&mut st, "c", 3);
    let s_nt = nonterm(&mut st, "S", 4);
    let a_nt = nonterm(&mut st, "A", 5);
    st.declare(&"A".to_string(), SymbolKind::NonTerminal, loc(6));
    st.declare(&"b".to_string(), SymbolKind::Terminal, loc(6));
    st.declare(&"c".to_string(), SymbolKind::Terminal, loc(7));
    st.declare(&"A".to_string(), SymbolKind::NonTerminal, loc(7));
    st.declare(&"a".to_string(), SymbolKind::Terminal, loc(8));
    let g = Grammar {
        productions: vec![
            Production {
                lhs: s_nt,
                tails: vec![tail(vec![a_nt, b_t]), tail(vec![c_t, a_nt])],
            },
            Production { lhs: a_nt, tails: vec![tail(vec![a_t]), tail(vec![])] },
        ],
        start: s_nt,
    };
    let t = must_generate(&g, &st);
    assert!(recognize(&t, &[b_t]).is_some());
    assert!(recognize(&t, &[a_t, b_t]).is_some());
    assert!(recognize(&t, &[c_t]).is_some());
    assert!(recognize(&t, &[c_t, a_t]).is_some());
    assert!(recognize(&t, &[a_t]).is_none());
    assert!(recognize(&t, &[b_t, b_t]).is_none());
}

#[test]
fn ambiguous_grammar_reports_one_reduce_reduce_conflict() {
    // S -> A | B ; A -> 'x' ; B -> 'x': reduce/reduce on the end marker.
    let mut st = SymbolTable::new();
    let x_t = term(&mut st, "x", 1);
    let s_nt = nonterm(&mut st, "S", 2);
    let a_nt = nonterm(&mut st, "A", 3);
    let b_nt = nonterm(&mut st, "B", 4);
    st.declare(&"A".to_string(), SymbolKind::NonTerminal, loc(5));
    st.declare(&"B".to_string(), SymbolKind::NonTerminal, loc(5));
    st.declare(&"x".to_string(), SymbolKind::Terminal, loc(6));
    st.declare(&"x".to_string(), SymbolKind::Terminal, loc(7));
    let g = Grammar {
        productions: vec![
            Production { lhs: s_nt, tails: vec![tail(vec![a_nt]), tail(vec![b_nt])] },
            Production { lhs: a_nt, tails: vec![tail(vec![x_t])] },
            Production { lhs: b_nt, tails: vec![tail(vec![x_t])] },
        ],
        start: s_nt,
    };
    let t = must_generate(&g, &st);
    let rr: Vec<_> = t
        .conflicts
        .iter()
        .filter(|c| matches!(c.kind, ConflictKind::ReduceReduce))
        .collect();
    assert_eq!(rr.len(), 1);
    // rules: 0 synthetic, 1 S->A, 2 S->B, 3 A->x, 4 B->x; the
    // earliest-declared production wins the tie.
    assert_eq!(rr[0].chosen, Action::Reduce(3));
    assert_eq!(rr[0].discarded, Action::Reduce(4));
    // the table is still usable
    let reduces = recognize(&t, &[x_t]).expect("accepts x");
    assert_eq!(reduces, vec![3, 1]);
}

#[test]
fn balanced_parentheses_round_trip() {
    // S -> '(' S ')' S | (empty)
    let mut st = SymbolTable::new();
    let lp = term(&mut st, "(", 1);
    let rp = term(&mut st, ")", 2);
    let s_nt = nonterm(&mut st, "S", 3);
    st.declare(&"(".to_string(), SymbolKind::Terminal, loc(4));
    st.declare(&"S".to_string(), SymbolKind::NonTerminal, loc(4));
    st.declare(&")".to_string(), SymbolKind::Terminal, loc(4));
    st.declare(&"S".to_string(), SymbolKind::NonTerminal, loc(4));
    let g = Grammar {
        productions: vec![Production {
            lhs: s_nt,
            tails: vec![tail(vec![lp, s_nt, rp, s_nt]), tail(vec![])],
        }],
        start: s_nt,
    };
    let t = must_generate(&g, &st);
    // every balanced string of length <= 6 accepted, nothing else
    let accepted = |w: &[usize]| recognize(&t, w).is_some();
    assert!(accepted(&[]));
    assert!(accepted(&[lp, rp]));
    assert!(accepted(&[lp, rp, lp, rp]));
    assert!(accepted(&[lp, lp, rp, rp]));
    assert!(accepted(&[lp, lp, rp, rp, lp, rp]));
    assert!(accepted(&[lp, lp, lp, rp, rp, rp]));
    assert!(!accepted(&[lp]));
    assert!(!accepted(&[rp]));
    assert!(!accepted(&[rp, lp]));
    assert!(!accepted(&[lp, lp, rp]));
    assert!(!accepted(&[lp, rp, rp]));
}

#[test]
fn four_function_arithmetic_round_trip() {
    let mut st = SymbolTable::new();
    let plus = term(&mut st, "+", 1);
    let minus = term(&mut st, "-", 1);
    let times = term(&mut st, "*", 2);
    let div = term(&mut st, "/", 2);
    let lp = term(&mut st, "(", 3);
    let rp = term(&mut st, ")", 3);
    let id = term(&mut st, "id", 4);
    let e = nonterm(&mut st, "E", 5);
    apply_precedence(
        &mut st,
        &vec![
            PrecedenceGroup { assoc: Associativity::Left, symbols: vec![plus, minus] },
            PrecedenceGroup { assoc: Associativity::Left, symbols: vec![times, div] },
        ],
    );
    for _ in 0..2 {
        st.declare(&"E".to_string(), SymbolKind::NonTerminal, loc(6));
    }
    st.declare(&"+".to_string(), SymbolKind::Terminal, loc(6));
    st.declare(&"-".to_string(), SymbolKind::Terminal, loc(6));
    st.declare(&"*".to_string(), SymbolKind::Terminal, loc(6));
    st.declare(&"/".to_string(), SymbolKind::Terminal, loc(6));
    st.declare(&"(".to_string(), SymbolKind::Terminal, loc(7));
    st.declare(&")".to_string(), SymbolKind::Terminal, loc(7));
    st.declare(&"id".to_string(), SymbolKind::Terminal, loc(7));
    for _ in 0..7 {
        st.declare(&"E".to_string(), SymbolKind::NonTerminal, loc(7));
    }
    let g = Grammar {
        productions: vec![Production {
            lhs: e,
            tails: vec![
                tail(vec![e, plus, e]),
                tail(vec![e, minus, e]),
                tail(vec![e, times, e]),
                tail(vec![e, div, e]),
                tail(vec![lp, e, rp]),
                tail(vec![id]),
            ],
        }],
        start: e,
    };
    let t = must_generate(&g, &st);
    let accepted = |w: &[usize]| recognize(&t, w).is_some();
    assert!(accepted(&[id]));
    assert!(accepted(&[id, plus, id, times, id]));
    assert!(accepted(&[lp, id, plus, id, rp, div, id]));
    assert!(accepted(&[id, minus, id, minus, id]));
    assert!(!accepted(&[id, plus]));
    assert!(!accepted(&[id, id]));
    assert!(!accepted(&[times, id]));
    assert!(!accepted(&[lp, id]));
    // '*' over '+': the multiplication (rule 3) reduces before the
    // addition (rule 1) in id + id * id.
    let reduces = recognize(&t, &[id, plus, id, times, id]).unwrap();
    let pos_mul = reduces.iter().position(|&r| r == 3).unwrap();
    let pos_add = reduces.iter().position(|&r| r == 1).unwrap();
    assert!(pos_mul < pos_add);
}

#[test]
fn invalid_grammars_are_refused() {
    let mut st = SymbolTable::new();
    let s_nt = nonterm(&mut st, "S", 1);
    let empty = Grammar { productions: vec![], start: s_nt };
    match generate(&empty, &st) {
        Err(lalr_gen::GenerateError::Invalid(InvalidGrammarError::NoProductions)) => {}
        _ => panic!("expected NoProductions"),
    }
    // start symbol never defined
    let mut st2 = SymbolTable::new();
    let u = st2.declare(&"U".to_string(), SymbolKind::NonTerminal, loc(1));
    let g2 = Grammar {
        productions: vec![Production { lhs: u, tails: vec![tail(vec![])] }],
        start: u,
    };
    match generate(&g2, &st2) {
        Err(lalr_gen::GenerateError::Invalid(InvalidGrammarError::UndefinedStart { symbol })) => {
            assert_eq!(symbol, u);
        }
        _ => panic!("expected UndefinedStart"),
    }
    // a tail mentions an undefined symbol
    let mut st3 = SymbolTable::new();
    let s3 = nonterm(&mut st3, "S", 1);
    let missing_sym = st3.declare(&"missing".to_string(), SymbolKind::Terminal, loc(2));
    let g3 = Grammar {
        productions: vec![Production { lhs: s3, tails: vec![tail(vec![missing_sym])] }],
        start: s3,
    };
    match generate(&g3, &st3) {
        Err(lalr_gen::GenerateError::Invalid(
            InvalidGrammarError::UndefinedSymbolInTail { symbol, .. },
        )) => {
            assert_eq!(symbol, missing_sym);
        }
        _ => panic!("expected UndefinedSymbolInTail"),
    }
}
