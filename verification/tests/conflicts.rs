use lalr_gen::grammar::Grammar;
use lalr_gen::grammar::InvalidGrammarError;
use lalr_gen::grammar::PrecedenceGroup;
use lalr_gen::grammar::Production;
use lalr_gen::grammar::ProductionTail;
use lalr_gen::grammar::apply_precedence;
use lalr_gen::generate;
use lalr_gen::symbols::Associativity;
use lalr_gen::symbols::Location;
use lalr_gen::symbols::SymbolKind;
use lalr_gen::symbols::SymbolTable;
use lalr_gen::tables::Action;
use lalr_gen::tables::ConflictKind;
use lalr_gen::tables::ParserTables;
use lalr_gen::tables::SrChoice;

fn here(line: usize) -> Location {
    Location { line, column: 0 }
}

fn define(st: &mut SymbolTable, name: &str, kind: SymbolKind, line: usize) -> usize {
    st.declare_definition(&name.to_string(), kind, here(line))
        .unwrap_or_else(|_| panic!("redefinition"))
}

fn plain_tail(rhs: Vec<usize>) -> ProductionTail {
    ProductionTail { rhs, prec_sym: None, action: String::new() }
}

fn run(t: &ParserTables, input: &[usize]) -> Option<Vec<usize>> {
    let mut stack: Vec<usize> = vec![0];
    let mut reduces: Vec<usize> = Vec::new();
    let mut pos = 0usize;
    for _ in 0..100000 {
        let s = *stack.last().unwrap();
        let tok = if pos < input.len() { input[pos] } else { t.end_marker };
        match t.actions[s][tok] {
            Action::Shift(n) => {
                stack.push(n);
                pos += 1;
            }
            Action::Reduce(r) => {
                for _ in 0..t.rule_arity[r] {
                    stack.pop();
                }
                let top = *stack.last().unwrap();
                match t.gotos[top][t.rule_lhs[r]] {
                    Some(n) => stack.push(n),
                    None => return None,
                }
                reduces.push(r);
            }
            Action::Accept => {
                return if pos == input.len() { Some(reduces) } else { None };
            }
            Action::Error => return None,
        }
    }
    None
}

#[test]
fn undeclared_precedence_defaults_to_shift_with_warning() {
    // E -> E '+' E | id with no precedence declared: the shift/reduce
    // conflict on '+' defaults to shift (right-leaning parse) and warns.
    let mut st = SymbolTable::new();
    let plus = define(&mut st, "+", SymbolKind::Terminal, 1);
    let id = define(&mut st, "id", SymbolKind::Terminal, 2);
    let e = define(&mut st, "E", SymbolKind::NonTerminal, 3);
    for _ in 0..2 {
        st.declare(&"E".to_string(), SymbolKind::NonTerminal, here(4));
    }
    st.declare(&"+".to_string(), SymbolKind::Terminal, here(4));
    st.declare(&"id".to_string(), SymbolKind::Terminal, here(5));
    let g = Grammar {
        productions: vec![Production {
            lhs: e,
            tails: vec![plain_tail(vec![e, plus, e]), plain_tail(vec![id])],
        }],
        start: e,
    };
    let t = generate(&g, &st).ok().expect("tables");
    assert!(t
        .conflicts
        .iter()
        .any(|c| matches!(c.kind, ConflictKind::ShiftReduce(SrChoice::ShiftByDefault))));
    // shift preferred: the rightmost addition reduces first
    let reduces = run(&t, &[id, plus, id, plus, id]).expect("accepts");
    assert_eq!(reduces, vec![2, 2, 2, 1, 1]);
}

#[test]
fn nonassoc_equal_precedence_installs_error_action() {
    // E -> E '<' E | id with '<' declared nonassociative: chaining is a
    // genuine error, a single comparison is fine.
    let mut st = SymbolTable::new();
    let lt = define(&mut st, "<", SymbolKind::Terminal, 1);
    let id = define(&mut st, "id", SymbolKind::Terminal, 2);
    let e = define(&mut st, "E", SymbolKind::NonTerminal, 3);
    apply_precedence(
        &mut st,
        &vec![PrecedenceGroup { assoc: Associativity::NonAssoc, symbols: vec![lt] }],
    );
    for _ in 0..2 {
        st.declare(&"E".to_string(), SymbolKind::NonTerminal, here(4));
    }
    st.declare(&"<".to_string(), SymbolKind::Terminal, here(4));
    st.declare(&"id".to_string(), SymbolKind::Terminal, here(5));
    let g = Grammar {
        productions: vec![Production {
            lhs: e,
            tails: vec![plain_tail(vec![e, lt, e]), plain_tail(vec![id])],
        }],
        start: e,
    };
    let t = generate(&g, &st).ok().expect("tables");
    assert!(t
        .conflicts
        .iter()
        .any(|c| matches!(c.kind, ConflictKind::ShiftReduce(SrChoice::ErrorNonAssoc))));
    assert!(run(&t, &[id, lt, id]).is_some());
    assert!(run(&t, &[id, lt, id, lt, id]).is_none());
}

#[test]
fn designated_precedence_symbol_governs_the_reduction() {
    // E -> E '-' E | '-' E | id, with the unary alternative tagged with a
    // pseudo-terminal of higher precedence, as an error-recovery-style
    // symbol that never appears on a right-hand side.
    let mut st = SymbolTable::new();
    let minus = define(&mut st, "-", SymbolKind::Terminal, 1);
    let id = define(&mut st, "id", SymbolKind::Terminal, 2);
    let uminus = define(&mut st, "UMINUS", SymbolKind::Terminal, 3);
    st.mark_used_intentionally(uminus);
    let e = define(&mut st, "E", SymbolKind::NonTerminal, 4);
    apply_precedence(
        &mut st,
        &vec![
            PrecedenceGroup { assoc: Associativity::Left, symbols: vec![minus] },
            PrecedenceGroup { assoc: Associativity::Left, symbols: vec![uminus] },
        ],
    );
    for _ in 0..2 {
        st.declare(&"E".to_string(), SymbolKind::NonTerminal, here(5));
    }
    st.declare(&"-".to_string(), SymbolKind::Terminal, here(5));
    st.declare(&"-".to_string(), SymbolKind::Terminal, here(6));
    st.declare(&"E".to_string(), SymbolKind::NonTerminal, here(6));
    st.declare(&"id".to_string(), SymbolKind::Terminal, here(7));
    let g = Grammar {
        productions: vec![Production {
            lhs: e,
            tails: vec![
                plain_tail(vec![e, minus, e]),
                ProductionTail {
                    rhs: vec![minus, e],
                    prec_sym: Some(uminus),
                    action: String::new(),
                },
                plain_tail(vec![id]),
            ],
        }],
        start: e,
    };
    // the pseudo-terminal is exempt from the unused report
    assert_eq!(st.unused_symbols(e), Vec::<usize>::new());
    let t = generate(&g, &st).ok().expect("tables");
    // - id - id parses as (- id) - id: the unary rule (2) reduces before
    // the binary rule (1)
    let reduces = run(&t, &[minus, id, minus, id]).expect("accepts");
    assert_eq!(reduces, vec![3, 2, 3, 1]);
}

#[test]
fn structural_error_variants_are_reported() {
    // a production list whose start symbol derives nothing
    let mut st = SymbolTable::new();
    let s_nt = define(&mut st, "S", SymbolKind::NonTerminal, 1);
    let a_nt = define(&mut st, "A", SymbolKind::NonTerminal, 2);
    let x_t = define(&mut st, "x", SymbolKind::Terminal, 3);
    st.declare(&"x".to_string(), SymbolKind::Terminal, here(4));
    let g = Grammar {
        productions: vec![Production { lhs: a_nt, tails: vec![plain_tail(vec![x_t])] }],
        start: s_nt,
    };
    match generate(&g, &st) {
        Err(lalr_gen::GenerateError::Invalid(
            InvalidGrammarError::StartWithoutProduction { symbol },
        )) => assert_eq!(symbol, s_nt),
        _ => panic!("expected StartWithoutProduction"),
    }
    // an alternative list left empty
    let g2 = Grammar {
        productions: vec![
            Production { lhs: s_nt, tails: vec![plain_tail(vec![a_nt])] },
            Production { lhs: a_nt, tails: vec![] },
        ],
        start: s_nt,
    };
    match generate(&g2, &st) {
        Err(lalr_gen::GenerateError::Invalid(
            InvalidGrammarError::ProductionWithoutTails { production },
        )) => assert_eq!(production, 1),
        _ => panic!("expected ProductionWithoutTails"),
    }
    // a terminal on a left-hand side
    let g3 = Grammar {
        productions: vec![Production { lhs: x_t, tails: vec![plain_tail(vec![x_t])] }],
        start: s_nt,
    };
    match generate(&g3, &st) {
        Err(lalr_gen::GenerateError::Invalid(
            InvalidGrammarError::LhsNotNonTerminal { symbol, .. },
        )) => assert_eq!(symbol, x_t),
        _ => panic!("expected LhsNotNonTerminal"),
    }
}

#[test]
fn mark_defined_sets_the_site_once() {
    let mut st = SymbolTable::new();
    let s = st.declare(&"late".to_string(), SymbolKind::Terminal, here(1));
    assert_eq!(st.undefined_symbols(), vec![s]);
    assert!(st.mark_defined(s, here(5)).is_ok());
    assert_eq!(st.undefined_symbols(), Vec::<usize>::new());
    assert_eq!(st.symbols[s].defined_at, Some(here(5)));
    match st.mark_defined(s, here(9)) {
        Err(e) => {
            assert_eq!(e.symbol, s);
            assert_eq!(e.first_defined_at, here(5));
            assert_eq!(e.duplicate_at, here(9));
        }
        Ok(()) => panic!("expected a redefinition error"),
    }
}
