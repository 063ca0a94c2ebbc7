//! A grammar-specification compiler core: from a context-free grammar with
//! precedence declarations to a deterministic LALR(1) parsing automaton,
//! with ACTION/GOTO tables and conflict diagnostics.

pub mod attributes;
pub mod augment;
pub mod automaton;
pub mod fixpoint;
pub mod firsts;
pub mod grammar;
pub mod symbols;
pub mod tables;

use vstd::prelude::*;

verus! {

/// Why no tables came out: the grammar is structurally unusable, or the
/// automaton ran into a machine-size ceiling.
pub enum GenerateError {
    Invalid(grammar::InvalidGrammarError),
    Capacity(automaton::CapacityError),
}

/// `g` is the augmentation of `gram` over `table`: two synthetic symbol
/// ids appended, the synthetic start rule in front, and the user
/// alternatives following in declaration order.
pub open spec fn augments(
    g: augment::AugGrammar,
    gram: grammar::Grammar,
    table: symbols::SymbolTable,
) -> bool {
    &&& g.wf()
    &&& g.n_syms == table.symbols@.len() + 2
    &&& g.start == gram.start
    &&& g.rules@.len() == 1 + gram.tails_before(gram.productions@.len() as int)
    &&& forall|p: int, t: int|
        0 <= p < gram.productions@.len() && 0 <= t < gram.productions@[p].tails@.len()
            ==> grammar::rule_matches_tail(#[trigger] g.rules@[1 + gram.tails_before(p) + t],
            gram, p, t)
    &&& forall|i: int|
        0 <= i < table.symbols@.len() ==> (#[trigger] g.is_terminal@[i]) == (
        table.symbols@[i].kind == symbols::SymbolKind::Terminal)
}

/// The machine-size ceiling named by a capacity error really is exceeded:
/// the item universe overflows the address space, or more distinct kernels
/// exist than the state ceiling admits, or the lookahead table would
/// overflow.  For any ordinarily sized grammar none of these can hold, so a
/// capacity error cannot stand in for honest work.
pub open spec fn capacity_blocked(g: augment::AugGrammar, c: automaton::CapacityError) -> bool {
    match c {
        automaton::CapacityError::TooManyItems => automaton::items_before(g,
            g.rules@.len() as int) > usize::MAX,
        automaton::CapacityError::TooManyStates => {
            ||| exists|ks: Seq<Vec<bool>>|
                #[trigger] automaton::distinct_kernels(ks, automaton::items_before(g,
                    g.rules@.len() as int)) && ks.len() == automaton::MAX_STATES + 1
            ||| exists|sp: automaton::ItemSpace, a: automaton::Lr0|
                #[trigger] automaton::lr0_wf(g, sp, a) && sp.wf(g) && a.states@.len()
                    * sp.n_items > usize::MAX
        },
    }
}

/// The returned tables are the sound emission for `gram`: there are an
/// augmented grammar, an item numbering, a well-formed deduplicated LR(0)
/// collection and seeded lookahead sets for exactly this grammar, such that
/// every ACTION cell is pinned by `cell_sound` (shift along the recorded
/// transition, reduce by the earliest-declared candidate, precedences
/// deciding shift/reduce competition) and the per-rule metadata matches the
/// grammar's rules.
pub open spec fn tables_sound_for(
    gram: grammar::Grammar,
    table: symbols::SymbolTable,
    t: tables::ParserTables,
) -> bool {
    exists|
        g: augment::AugGrammar,
        sp: automaton::ItemSpace,
        a: automaton::Lr0,
        la: Seq<Vec<bool>>,
    |
        #![trigger automaton::la_wf(g, sp, a, la)]
        {
            &&& augments(g, gram, table)
            &&& sp.wf(g)
            &&& automaton::lr0_wf(g, sp, a)
            &&& automaton::la_wf(g, sp, a, la)
            &&& t.n_syms == g.n_syms
            &&& t.end_marker == g.end_marker
            &&& t.actions@.len() == a.states@.len()
            &&& (forall|s: int|
                0 <= s < t.actions@.len() ==> (#[trigger] t.actions@[s])@.len() == g.n_syms)
            &&& t.gotos@ == a.gotos@
            &&& t.rule_lhs@.len() == g.rules@.len()
            &&& t.rule_arity@.len() == g.rules@.len()
            &&& t.rule_action@.len() == g.rules@.len()
            &&& (forall|q: int|
                0 <= q < g.rules@.len() ==> (#[trigger] t.rule_lhs@[q]) == g.rules@[q].lhs)
            &&& (forall|q: int|
                0 <= q < g.rules@.len() ==> (#[trigger] t.rule_arity@[q])
                    == g.rules@[q].rhs@.len())
            &&& (forall|q: int|
                0 <= q < g.rules@.len() ==> (#[trigger] t.rule_action@[q])@
                    == g.rules@[q].action@)
            &&& (forall|s: int, t2: int|
                0 <= s < a.states@.len() && 0 <= t2 < g.n_syms ==> tables::cell_sound(g, sp,
                    table, a, la, #[trigger] t.actions@[s]@[t2], s, t2))
            &&& tables::conflict_report_sound(g, sp, table, a, la, t)
        }
}

/// The whole pipeline: validate the grammar, augment it, compute FIRST
/// sets, build the LR(0) collection, propagate LALR(1) lookaheads, and emit
/// the resolved ACTION/GOTO tables with the conflict report.  Conflicts
/// never abort construction; a structurally invalid grammar is refused,
/// exactly when `spec_valid` fails, and a capacity error can only report a
/// machine-size ceiling that the grammar genuinely exceeds.
pub fn generate(gram: &grammar::Grammar, table: &symbols::SymbolTable) -> (r: Result<
    tables::ParserTables,
    GenerateError,
>)
    requires
        gram.in_range(table.symbols@.len() as int),
        table.symbols@.len() + 2 < usize::MAX,
    ensures
        match r {
            Ok(t) => {
                &&& gram.spec_valid(*table)
                &&& t.actions@.len() >= 1
                &&& t.n_syms == table.symbols@.len() + 2
                &&& t.end_marker == table.symbols@.len() + 1
                &&& forall|s: int|
                    0 <= s < t.actions@.len() ==> (#[trigger] t.actions@[s])@.len()
                        == table.symbols@.len() + 2
                &&& tables_sound_for(*gram, *table, t)
            },
            Err(GenerateError::Invalid(e)) => {
                &&& !gram.spec_valid(*table)
                &&& grammar::error_condition(e, *gram, *table)
            },
            Err(GenerateError::Capacity(c)) => {
                &&& gram.spec_valid(*table)
                &&& exists|g: augment::AugGrammar|
                    #[trigger] augments(g, *gram, *table) && capacity_blocked(g, c)
            },
        },
{
    match gram.validate(table) {
        Err(e) => {
            return Err(GenerateError::Invalid(e));
        },
        Ok(()) => {},
    }
    let aug = augment::AugGrammar::augment(gram, table);
    proof {
        assert(augments(aug, *gram, *table));
    }
    let sp = match automaton::ItemSpace::build(&aug) {
        Ok(sp) => sp,
        Err(e) => {
            proof {
                assert(capacity_blocked(aug, e));
            }
            return Err(GenerateError::Capacity(e));
        },
    };
    let f = firsts::compute_first(&aug);
    let lr0 = match automaton::build_lr0(&aug, &sp) {
        Ok(a) => a,
        Err(e) => {
            proof {
                let ks = choose|ks: Seq<Vec<bool>>|
                    #[trigger] automaton::distinct_kernels(ks, sp.n_items as int) && ks.len()
                        == automaton::MAX_STATES + 1;
                assert(sp.n_items as int == automaton::items_before(aug,
                    aug.rules@.len() as int));
                assert(automaton::distinct_kernels(ks, automaton::items_before(aug,
                    aug.rules@.len() as int)));
                assert(capacity_blocked(aug, e));
            }
            return Err(GenerateError::Capacity(e));
        },
    };
    let la = match automaton::compute_lookaheads(&aug, &sp, &f, &lr0) {
        Ok(la) => la,
        Err(e) => {
            proof {
                assert(automaton::lr0_wf(aug, sp, lr0));
                assert(capacity_blocked(aug, e));
            }
            return Err(GenerateError::Capacity(e));
        },
    };
    let ghost lr0_snapshot = lr0;
    let t = tables::build_tables(&aug, &sp, table, lr0, &la);
    proof {
        assert(automaton::la_wf(aug, sp, lr0_snapshot, la@));
        assert(tables_sound_for(*gram, *table, t));
    }
    Ok(t)
}

} // verus!
