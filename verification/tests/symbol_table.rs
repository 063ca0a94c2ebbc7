use lalr_gen::attributes::AttributeData;
use lalr_gen::attributes::LexicalError;
use lalr_gen::attributes::ParseError;
use lalr_gen::attributes::Token;
use lalr_gen::grammar::PrecedenceGroup;
use lalr_gen::grammar::apply_precedence;
use lalr_gen::symbols::Associativity;
use lalr_gen::symbols::Location;
use lalr_gen::symbols::SymbolKind;
use lalr_gen::symbols::SymbolTable;

fn at(line: usize, column: usize) -> Location {
    Location { line, column }
}

#[test]
fn declare_reuses_by_name_and_records_uses() {
    let mut st = SymbolTable::new();
    let a = st.declare(&"alpha".to_string(), SymbolKind::Terminal, at(1, 1));
    let b = st.declare(&"beta".to_string(), SymbolKind::Terminal, at(1, 5));
    let a2 = st.declare(&"alpha".to_string(), SymbolKind::Terminal, at(2, 1));
    assert_eq!(a, a2);
    assert_ne!(a, b);
    assert_eq!(st.len(), 2);
    assert_eq!(st.find(&"alpha".to_string()), Some(a));
    assert_eq!(st.find(&"gamma".to_string()), None);
}

#[test]
fn redefinition_is_an_error() {
    let mut st = SymbolTable::new();
    let first = st
        .declare_definition(&"tok".to_string(), SymbolKind::Terminal, at(1, 1))
        .unwrap_or_else(|_| panic!("fresh definition"));
    match st.declare_definition(&"tok".to_string(), SymbolKind::Terminal, at(3, 7)) {
        Err(e) => {
            assert_eq!(e.symbol, first);
            assert_eq!(e.first_defined_at, at(1, 1));
            assert_eq!(e.duplicate_at, at(3, 7));
        }
        Ok(_) => panic!("expected a redefinition error"),
    }
}

#[test]
fn undefined_symbols_reported_once_per_use_site() {
    let mut st = SymbolTable::new();
    st.declare_definition(&"S".to_string(), SymbolKind::NonTerminal, at(1, 1))
        .unwrap_or_else(|_| panic!("fresh"));
    let u = st.declare(&"mystery".to_string(), SymbolKind::Terminal, at(2, 3));
    st.declare(&"mystery".to_string(), SymbolKind::Terminal, at(4, 9));
    let undef = st.undefined_symbols();
    assert_eq!(undef, vec![u]);
    let uses = st.undefined_uses();
    assert_eq!(uses.len(), 2);
    assert_eq!(uses[0].symbol, u);
    assert_eq!(uses[0].location, at(2, 3));
    assert_eq!(uses[1].symbol, u);
    assert_eq!(uses[1].location, at(4, 9));
}

#[test]
fn unused_nonterminal_reported_once_despite_many_tails() {
    let mut st = SymbolTable::new();
    let start = st
        .declare_definition(&"S".to_string(), SymbolKind::NonTerminal, at(1, 1))
        .unwrap_or_else(|_| panic!("fresh"));
    // a nonterminal defined with several alternatives but never referenced
    let orphan = st
        .declare_definition(&"Orphan".to_string(), SymbolKind::NonTerminal, at(2, 1))
        .unwrap_or_else(|_| panic!("fresh"));
    // a terminal that is used
    let t = st.declare_definition(&"t".to_string(), SymbolKind::Terminal, at(3, 1))
        .unwrap_or_else(|_| panic!("fresh"));
    st.declare(&"t".to_string(), SymbolKind::Terminal, at(4, 1));
    let unused = st.unused_symbols(start);
    assert_eq!(unused, vec![orphan]);
    let _ = t;
}

#[test]
fn start_symbol_is_not_reported_unused() {
    let mut st = SymbolTable::new();
    let start = st
        .declare_definition(&"S".to_string(), SymbolKind::NonTerminal, at(1, 1))
        .unwrap_or_else(|_| panic!("fresh"));
    assert_eq!(st.unused_symbols(start), Vec::<usize>::new());
}

#[test]
fn precedence_groups_assign_levels_lowest_first_last_wins() {
    let mut st = SymbolTable::new();
    let plus = st
        .declare_definition(&"+".to_string(), SymbolKind::Terminal, at(1, 1))
        .unwrap_or_else(|_| panic!("fresh"));
    let times = st
        .declare_definition(&"*".to_string(), SymbolKind::Terminal, at(1, 3))
        .unwrap_or_else(|_| panic!("fresh"));
    apply_precedence(
        &mut st,
        &vec![
            PrecedenceGroup { assoc: Associativity::Left, symbols: vec![plus, times] },
            PrecedenceGroup { assoc: Associativity::Right, symbols: vec![times] },
        ],
    );
    let p_plus = st.symbols[plus].precedence.unwrap();
    let p_times = st.symbols[times].precedence.unwrap();
    assert_eq!(p_plus.level, 1);
    assert_eq!(p_plus.assoc, Associativity::Left);
    // mentioned in both groups: the later (higher) declaration wins
    assert_eq!(p_times.level, 2);
    assert_eq!(p_times.assoc, Associativity::Right);
}

#[test]
fn attribute_accessors_return_their_payloads() {
    let tok = Token { kind: 4, lexeme: "while".to_string(), location: at(7, 2) };
    let a = AttributeData::Token(tok);
    assert_eq!(a.matched_text(), "while");
    assert_eq!(a.location(), at(7, 2));
    let lex = AttributeData::LexicalError(LexicalError::UnexpectedText {
        text: "$$".to_string(),
        location: at(9, 1),
    });
    assert_eq!(lex.matched_text(), "$$");
    assert_eq!(lex.location(), at(9, 1));
    let empty = AttributeData::LexicalError(LexicalError::AdvancedWhenEmpty {
        location: at(10, 1),
    });
    assert_eq!(empty.matched_text(), "");
    assert_eq!(empty.location(), at(10, 1));
    let sym = AttributeData::Symbol(Some(3));
    assert_eq!(sym.symbol(), Some(3));
    let lhs = AttributeData::LeftHandSide(5);
    assert_eq!(lhs.left_hand_side(), 5);
    let list = AttributeData::SymbolList(vec![1, 2, 3]);
    assert_eq!(list.symbol_list(), &vec![1, 2, 3]);
}

#[test]
fn attribute_conversions_keep_the_payload() {
    let d: AttributeData = Default::default();
    assert!(matches!(d, AttributeData::Default));
    let tok = Token { kind: 1, lexeme: "x".to_string(), location: at(1, 1) };
    let a = AttributeData::from(tok);
    assert!(matches!(a, AttributeData::Token(_)));
    assert_eq!(a.matched_text(), "x");
    let e = ParseError::LexicalError(LexicalError::AmbiguousMatches {
        kinds: vec![1, 2],
        text: "<=".to_string(),
        location: at(3, 3),
    });
    let b = AttributeData::from(e);
    assert!(matches!(b, AttributeData::LexicalError(_)));
    assert_eq!(b.matched_text(), "<=");
    let se = ParseError::SyntaxError(
        Token { kind: 2, lexeme: "end".to_string(), location: at(5, 5) },
        vec![7, 8],
    );
    let c = AttributeData::from(se);
    assert_eq!(c.matched_text(), "end");
    assert_eq!(c.location(), at(5, 5));
}
