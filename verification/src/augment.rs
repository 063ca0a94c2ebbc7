//! The augmented grammar: the flattened rule list with a synthetic start
//! rule in front, two synthetic symbol ids (the augmented start symbol and
//! the end-of-input marker), and a terminal/nonterminal map.

use vstd::prelude::*;

use crate::grammar::Grammar;
use crate::grammar::Rule;
use crate::grammar::rule_matches_tail;
use crate::symbols::SymbolKind;
use crate::symbols::SymbolTable;

verus! {

/// The grammar as the automaton constructor consumes it.  Rule 0 is the
/// synthetic start rule `S' -> S`; user alternatives follow in declaration
/// order, so a rule's index is one more than its declaration ordinal.
pub struct AugGrammar {
    pub rules: Vec<Rule>,
    pub n_syms: usize,
    pub start: usize,
    pub aug_start: usize,
    pub end_marker: usize,
    pub is_terminal: Vec<bool>,
}

impl AugGrammar {
    /// Rule `r` mentions only known symbols and derives a nonterminal.
    pub open spec fn rule_ok(&self, r: int) -> bool {
        &&& self.rules@[r].lhs < self.n_syms
        &&& !self.is_terminal@[self.rules@[r].lhs as int]
        &&& forall|k: int|
            0 <= k < self.rules@[r].rhs@.len() ==> (#[trigger] self.rules@[r].rhs@[k])
                < self.n_syms
    }

    pub open spec fn wf(&self) -> bool {
        &&& self.n_syms >= 2
        &&& self.aug_start == self.n_syms - 2
        &&& self.end_marker == self.n_syms - 1
        &&& self.is_terminal@.len() == self.n_syms
        &&& !self.is_terminal@[self.aug_start as int]
        &&& self.is_terminal@[self.end_marker as int]
        &&& self.rules@.len() >= 1
        &&& (forall|r: int| 0 <= r < self.rules@.len() ==> self.rule_ok(r))
        &&& self.rules@[0].lhs == self.aug_start
        &&& self.rules@[0].rhs@.len() == 1
        &&& self.rules@[0].rhs@[0] == self.start
        &&& self.start < self.aug_start
    }

    /// Augment a validated grammar: append the two synthetic symbol ids to
    /// the symbol universe and put `S' -> S` in front of the flattened rules.
    pub fn augment(g: &Grammar, table: &SymbolTable) -> (r: AugGrammar)
        requires
            g.in_range(table.symbols@.len() as int),
            g.spec_valid(*table),
            table.symbols@.len() + 2 < usize::MAX,
        ensures
            r.wf(),
            r.n_syms == table.symbols@.len() + 2,
            r.start == g.start,
            r.rules@.len() == 1 + g.tails_before(g.productions@.len() as int),
            forall|p: int, t: int|
                0 <= p < g.productions@.len() && 0 <= t < g.productions@[p].tails@.len()
                    ==> rule_matches_tail(#[trigger] r.rules@[1 + g.tails_before(p) + t], *g, p, t),
            forall|i: int|
                0 <= i < table.symbols@.len()
                    ==> (#[trigger] r.is_terminal@[i]) == (table.symbols@[i].kind
                    == SymbolKind::Terminal),
    {
        let n = table.symbols.len();
        let mut rules = g.flatten();
        let ghost flat_view = rules@;
        let mut start_rhs: Vec<usize> = Vec::new();
        start_rhs.push(g.start);
        let synth = Rule {
            lhs: n,
            rhs: start_rhs,
            prec_sym: None,
            action: String::new(),
            prod: 0,
            alt: 0,
        };
        rules.insert(0, synth);
        let mut is_terminal: Vec<bool> = Vec::new();
        let mut i: usize = 0;
        while i < n
            invariant
                i <= n,
                n == table.symbols@.len(),
                is_terminal@.len() == i,
                forall|j: int|
                    0 <= j < i
                        ==> (#[trigger] is_terminal@[j]) == (table.symbols@[j].kind
                        == SymbolKind::Terminal),
            decreases n - i,
        {
            is_terminal.push(matches!(table.symbols[i].kind, SymbolKind::Terminal));
            i += 1;
        }
        is_terminal.push(false);
        is_terminal.push(true);
        let aug = AugGrammar {
            rules,
            n_syms: n + 2,
            start: g.start,
            aug_start: n,
            end_marker: n + 1,
            is_terminal,
        };
        proof {
            assert forall|p: int, t: int|
                0 <= p < g.productions@.len() && 0 <= t < g.productions@[p].tails@.len()
                    implies rule_matches_tail(#[trigger] aug.rules@[1 + g.tails_before(p) + t],
                *g, p, t) by {
                g.lemma_tails_before_mono(0, p);
                g.lemma_tails_before_mono(p + 1, g.productions@.len() as int);
                assert(g.tails_before(p + 1) == g.tails_before(p)
                    + g.productions@[p].tails@.len());
                assert(aug.rules@[1 + g.tails_before(p) + t] == flat_view[g.tails_before(p) + t]);
            }
            assert forall|r: int| 0 <= r < aug.rules@.len() implies aug.rule_ok(r) by {
                if r > 0 {
                    g.lemma_rule_index(r - 1, g.productions@.len() as int);
                    let (p, t) = choose|p: int, t: int|
                        0 <= p < g.productions@.len() && 0 <= t < g.productions@[p].tails@.len()
                            && r - 1 == #[trigger] g.rule_slot(p, t);
                    assert(rule_matches_tail(aug.rules@[r], *g, p, t));
                    assert(aug.rules@[r].lhs == g.productions@[p].lhs);
                    assert(table.symbols@[aug.rules@[r].lhs as int].kind
                        == SymbolKind::NonTerminal);
                }
            }
        }
        aug
    }
}

} // verus!
