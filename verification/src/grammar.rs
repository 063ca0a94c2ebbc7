//! The grammar model: productions with alternative tails, validation against
//! the symbol table, application of precedence declarations, and the
//! flattened rule list that drives automaton construction.

use vstd::prelude::*;

use crate::symbols::Associativity;
use crate::symbols::Precedence;
use crate::symbols::Symbol;
use crate::symbols::SymbolKind;
use crate::symbols::SymbolTable;

verus! {

/// One alternative right-hand side of a production: the symbol sequence
/// (empty for an epsilon alternative), an optional designated precedence
/// symbol, and the semantic-action payload carried through verbatim.
pub struct ProductionTail {
    pub rhs: Vec<usize>,
    pub prec_sym: Option<usize>,
    pub action: String,
}

/// A left-hand-side nonterminal with its alternatives in declaration order.
pub struct Production {
    pub lhs: usize,
    pub tails: Vec<ProductionTail>,
}

/// The whole grammar: productions in declaration order plus the start symbol.
pub struct Grammar {
    pub productions: Vec<Production>,
    pub start: usize,
}

/// One group of a precedence declaration: terminals sharing a level and an
/// associativity.  Groups are declared lowest to highest.
pub struct PrecedenceGroup {
    pub assoc: Associativity,
    pub symbols: Vec<usize>,
}

/// `s` occurs in `groups[g].symbols` for some `g` in `lo..hi`.
pub open spec fn mentioned_in(groups: Seq<PrecedenceGroup>, lo: int, hi: int, s: int) -> bool {
    exists|g: int, k: int|
        lo <= g < hi && 0 <= k < groups[g].symbols@.len() && (#[trigger] groups[g].symbols@[k])
            == s
}

/// The precedence the first `g` groups assign to `s`: the latest group
/// mentioning `s` wins, its level being its position from the bottom,
/// starting at one.
pub open spec fn prec_from_groups(groups: Seq<PrecedenceGroup>, s: int, g: int) -> Option<
    Precedence,
>
    decreases g,
{
    if g <= 0 {
        None
    } else if mentioned_in(groups, g - 1, g, s) {
        Some(Precedence { level: g as usize, assoc: groups[g - 1].assoc })
    } else {
        prec_from_groups(groups, s, g - 1)
    }
}

/// `b` is `a` with possibly different precedence and nothing else changed.
pub open spec fn same_but_precedence(a: Symbol, b: Symbol) -> bool {
    &&& b.name@ == a.name@
    &&& b.kind == a.kind
    &&& b.defined_at == a.defined_at
    &&& b.used_at@ == a.used_at@
    &&& b.used_intentionally == a.used_intentionally
}

/// Annotate the terminals named by an ordered precedence declaration
/// (lowest group first) with their level and associativity; a symbol in
/// several groups gets the last mention's level.
pub fn apply_precedence(table: &mut SymbolTable, groups: &Vec<PrecedenceGroup>)
    requires
        forall|g: int, k: int|
            0 <= g < groups@.len() && 0 <= k < groups@[g].symbols@.len()
                ==> (#[trigger] groups@[g].symbols@[k]) < old(table).symbols@.len(),
    ensures
        final(table).symbols@.len() == old(table).symbols@.len(),
        forall|s: int|
            0 <= s < old(table).symbols@.len()
                ==> same_but_precedence(old(table).symbols@[s],
                #[trigger] final(table).symbols@[s]),
        forall|s: int|
            0 <= s < old(table).symbols@.len()
                ==> (#[trigger] final(table).symbols@[s]).precedence == (match prec_from_groups(
                groups@, s, groups@.len() as int) {
                Some(p) => Some(p),
                None => old(table).symbols@[s].precedence,
            }),
        old(table).wf() ==> final(table).wf(),
{
    let n_groups = groups.len();
    let mut g: usize = 0;
    while g < n_groups
        invariant
            g <= n_groups,
            n_groups == groups@.len(),
            table.symbols@.len() == old(table).symbols@.len(),
            forall|gq: int, k: int|
                0 <= gq < groups@.len() && 0 <= k < groups@[gq].symbols@.len()
                    ==> (#[trigger] groups@[gq].symbols@[k]) < old(table).symbols@.len(),
            forall|s: int|
                0 <= s < old(table).symbols@.len()
                    ==> same_but_precedence(old(table).symbols@[s],
                    #[trigger] table.symbols@[s]),
            forall|s: int|
                0 <= s < old(table).symbols@.len()
                    ==> (#[trigger] table.symbols@[s]).precedence == (match prec_from_groups(
                    groups@, s, g as int) {
                    Some(p) => Some(p),
                    None => old(table).symbols@[s].precedence,
                }),
        decreases n_groups - g,
    {
        let n_syms = groups[g].symbols.len();
        let mut k: usize = 0;
        while k < n_syms
            invariant
                k <= n_syms,
                g < n_groups,
                n_groups == groups@.len(),
                n_syms == groups@[g as int].symbols@.len(),
                table.symbols@.len() == old(table).symbols@.len(),
                forall|gq: int, kq: int|
                    0 <= gq < groups@.len() && 0 <= kq < groups@[gq].symbols@.len()
                        ==> (#[trigger] groups@[gq].symbols@[kq]) < old(table).symbols@.len(),
                forall|s: int|
                    0 <= s < old(table).symbols@.len()
                        ==> same_but_precedence(old(table).symbols@[s],
                        #[trigger] table.symbols@[s]),
                forall|s: int|
                    0 <= s < old(table).symbols@.len() && (exists|j: int|
                        0 <= j < k && (#[trigger] groups@[g as int].symbols@[j]) == s)
                        ==> (#[trigger] table.symbols@[s]).precedence == Some(
                        (Precedence { level: (g + 1) as usize, assoc: groups@[g as int].assoc }),
                    ),
                forall|s: int|
                    0 <= s < old(table).symbols@.len() && !(exists|j: int|
                        0 <= j < k && (#[trigger] groups@[g as int].symbols@[j]) == s)
                        ==> (#[trigger] table.symbols@[s]).precedence == (match prec_from_groups(
                        groups@, s, g as int) {
                        Some(p) => Some(p),
                        None => old(table).symbols@[s].precedence,
                    }),
            decreases n_syms - k,
        {
            let sym = groups[g].symbols[k];
            let assoc = groups[g].assoc;
            table.set_precedence(sym, g + 1, assoc);
            k += 1;
        }
        proof {
            assert forall|s: int|
                0 <= s < old(table).symbols@.len() implies (#[trigger] table.symbols@[s]).precedence
                == (match prec_from_groups(groups@, s, g + 1) {
                Some(p) => Some(p),
                None => old(table).symbols@[s].precedence,
            }) by {
                if mentioned_in(groups@, g as int, g + 1, s) {
                    let (gq, j) = choose|gq: int, j: int|
                        g <= gq < g + 1 && 0 <= j < groups@[gq].symbols@.len() && (
                        #[trigger] groups@[gq].symbols@[j]) == s;
                    assert(0 <= j < n_syms && groups@[g as int].symbols@[j] == s);
                } else {
                    assert(forall|j: int|
                        0 <= j < n_syms ==> (#[trigger] groups@[g as int].symbols@[j]) != s);
                }
            }
        }
        g += 1;
    }
    proof {
        if old(table).wf() {
            assert forall|a: int, b: int|
                0 <= a < b < table.spec_len() implies table.name_of(a) != table.name_of(b) by {
                assert(same_but_precedence(old(table).symbols@[a], table.symbols@[a]));
                assert(same_but_precedence(old(table).symbols@[b], table.symbols@[b]));
                assert(old(table).name_of(a) != old(table).name_of(b));
            }
        }
    }
}

/// A structurally unusable grammar; automaton construction refuses to start.
#[derive(Debug)]
pub enum InvalidGrammarError {
    NoProductions,
    UndefinedStart { symbol: usize },
    StartWithoutProduction { symbol: usize },
    ProductionWithoutTails { production: usize },
    LhsNotNonTerminal { production: usize, symbol: usize },
    UndefinedSymbolInTail { production: usize, alt: usize, index: usize, symbol: usize },
}

/// A flattened alternative: `lhs -> rhs`, remembering which production and
/// which alternative it came from.  The index of a rule in the flattened list
/// is its declaration ordinal, the tie-breaker for reduce/reduce conflicts.
pub struct Rule {
    pub lhs: usize,
    pub rhs: Vec<usize>,
    pub prec_sym: Option<usize>,
    pub action: String,
    pub prod: usize,
    pub alt: usize,
}

impl Grammar {
    /// Every symbol index mentioned anywhere lies below `n`.
    pub open spec fn in_range(&self, n: int) -> bool {
        &&& self.start < n
        &&& forall|p: int|
            0 <= p < self.productions@.len() ==> (#[trigger] self.productions@[p]).lhs < n
        &&& forall|p: int, t: int|
            0 <= p < self.productions@.len() && 0 <= t < self.productions@[p].tails@.len()
                ==> tail_in_range(#[trigger] self.productions@[p].tails@[t], n)
    }

    /// The grammar is fit for automaton construction: it has productions, the
    /// start symbol is a defined nonterminal with a production of its own,
    /// every left-hand side is a nonterminal, every alternative list is
    /// non-empty, and every symbol of every tail is defined.
    pub open spec fn spec_valid(&self, table: SymbolTable) -> bool {
        &&& self.productions@.len() > 0
        &&& table.symbols@[self.start as int].defined_at is Some
        &&& table.symbols@[self.start as int].kind == SymbolKind::NonTerminal
        &&& (exists|p: int|
            0 <= p < self.productions@.len() && (#[trigger] self.productions@[p]).lhs
                == self.start)
        &&& forall|p: int|
            0 <= p < self.productions@.len()
                ==> table.symbols@[(#[trigger] self.productions@[p]).lhs as int].kind
                == SymbolKind::NonTerminal
        &&& forall|p: int|
            0 <= p < self.productions@.len()
                ==> (#[trigger] self.productions@[p]).tails@.len() > 0
        &&& forall|p: int, t: int, k: int|
            0 <= p < self.productions@.len() && 0 <= t < self.productions@[p].tails@.len() && 0 <= k
                < self.productions@[p].tails@[t].rhs@.len()
                ==> table.symbols@[(#[trigger] self.productions@[p].tails@[t].rhs@[k]) as int].defined_at is Some
    }

    /// How many alternatives the first `p` productions contribute to the
    /// flattened rule list.
    pub open spec fn tails_before(&self, p: int) -> int
        decreases p,
    {
        if p <= 0 {
            0
        } else {
            self.tails_before(p - 1) + self.productions@[p - 1].tails@.len()
        }
    }

    /// The flattened position of alternative `t` of production `p`.
    pub open spec fn rule_slot(&self, p: int, t: int) -> int {
        self.tails_before(p) + t
    }

    /// Every index below the total tail count decomposes as a production
    /// ordinal plus an alternative ordinal.
    pub proof fn lemma_rule_index(&self, r: int, np: int)
        requires
            0 <= np <= self.productions@.len(),
            0 <= r < self.tails_before(np),
        ensures
            exists|p: int, t: int|
                0 <= p < np && 0 <= t < self.productions@[p].tails@.len() && r
                    == #[trigger] self.rule_slot(p, t),
        decreases np,
    {
        if np > 0 {
            if r < self.tails_before(np - 1) {
                self.lemma_rule_index(r, np - 1);
                let (p, t) = choose|p: int, t: int|
                    0 <= p < np - 1 && 0 <= t < self.productions@[p].tails@.len() && r
                        == #[trigger] self.rule_slot(p, t);
                assert(0 <= p < np && 0 <= t < self.productions@[p].tails@.len() && r
                    == self.rule_slot(p, t));
            } else {
                let p = np - 1;
                let t = r - self.tails_before(p);
                assert(0 <= p < np && 0 <= t < self.productions@[p].tails@.len() && r
                    == self.rule_slot(p, t));
            }
        }
    }

    pub proof fn lemma_tails_before_mono(&self, a: int, b: int)
        requires
            0 <= a <= b,
        ensures
            self.tails_before(a) <= self.tails_before(b),
        decreases b - a,
    {
        if a < b {
            self.lemma_tails_before_mono(a, b - 1);
        }
    }
}

pub open spec fn tail_in_range(t: ProductionTail, n: int) -> bool {
    &&& forall|k: int| 0 <= k < t.rhs@.len() ==> (#[trigger] t.rhs@[k]) < n
    &&& match t.prec_sym {
        Some(s) => s < n,
        None => true,
    }
}

/// The error names the structural defect it reports.
pub open spec fn error_condition(e: InvalidGrammarError, g: Grammar, table: SymbolTable) -> bool {
    match e {
        InvalidGrammarError::NoProductions => g.productions@.len() == 0,
        InvalidGrammarError::UndefinedStart { symbol } => {
            &&& symbol == g.start
            &&& (table.symbols@[g.start as int].defined_at is None
                || table.symbols@[g.start as int].kind != SymbolKind::NonTerminal)
        },
        InvalidGrammarError::StartWithoutProduction { symbol } => {
            &&& symbol == g.start
            &&& forall|p: int|
                0 <= p < g.productions@.len() ==> (#[trigger] g.productions@[p]).lhs != g.start
        },
        InvalidGrammarError::ProductionWithoutTails { production } => {
            &&& production < g.productions@.len()
            &&& g.productions@[production as int].tails@.len() == 0
        },
        InvalidGrammarError::LhsNotNonTerminal { production, symbol } => {
            &&& production < g.productions@.len()
            &&& symbol == g.productions@[production as int].lhs
            &&& table.symbols@[symbol as int].kind != SymbolKind::NonTerminal
        },
        InvalidGrammarError::UndefinedSymbolInTail { production, alt, index, symbol } => {
            &&& production < g.productions@.len()
            &&& alt < g.productions@[production as int].tails@.len()
            &&& index < g.productions@[production as int].tails@[alt as int].rhs@.len()
            &&& symbol == g.productions@[production as int].tails@[alt as int].rhs@[index as int]
            &&& table.symbols@[symbol as int].defined_at is None
        },
    }
}

impl Grammar {
    /// Check the grammar against the symbol table; `Ok` exactly when
    /// `spec_valid` holds, and any error names a real defect.
    pub fn validate(&self, table: &SymbolTable) -> (r: Result<(), InvalidGrammarError>)
        requires
            self.in_range(table.symbols@.len() as int),
        ensures
            r is Ok <==> self.spec_valid(*table),
            match r {
                Ok(()) => true,
                Err(e) => error_condition(e, *self, *table),
            },
    {
        let n_prods = self.productions.len();
        if n_prods == 0 {
            return Err(InvalidGrammarError::NoProductions);
        }
        let start_defined = match table.symbols[self.start].defined_at {
            Some(_) => true,
            None => false,
        };
        if !start_defined || !matches!(table.symbols[self.start].kind, SymbolKind::NonTerminal) {
            return Err(InvalidGrammarError::UndefinedStart { symbol: self.start });
        }
        let mut start_has_production = false;
        let mut p: usize = 0;
        while p < n_prods
            invariant
                p <= n_prods,
                n_prods == self.productions@.len(),
                self.in_range(table.symbols@.len() as int),
                start_has_production <==> (exists|q: int|
                    0 <= q < p && (#[trigger] self.productions@[q]).lhs == self.start),
                forall|q: int|
                    0 <= q < p
                        ==> table.symbols@[(#[trigger] self.productions@[q]).lhs as int].kind
                        == SymbolKind::NonTerminal,
                forall|q: int| 0 <= q < p ==> (#[trigger] self.productions@[q]).tails@.len() > 0,
                forall|q: int, t: int, k: int|
                    0 <= q < p && 0 <= t < self.productions@[q].tails@.len() && 0 <= k
                        < self.productions@[q].tails@[t].rhs@.len()
                        ==> table.symbols@[(#[trigger] self.productions@[q].tails@[t].rhs@[k]) as int].defined_at is Some,
            decreases n_prods - p,
        {
            let prod = &self.productions[p];
            if prod.lhs == self.start {
                start_has_production = true;
            }
            if !matches!(table.symbols[prod.lhs].kind, SymbolKind::NonTerminal) {
                return Err(InvalidGrammarError::LhsNotNonTerminal { production: p, symbol: prod.lhs });
            }
            let n_tails = prod.tails.len();
            if n_tails == 0 {
                return Err(InvalidGrammarError::ProductionWithoutTails { production: p });
            }
            let mut t: usize = 0;
            while t < n_tails
                invariant
                    t <= n_tails,
                    p < n_prods,
                    n_prods == self.productions@.len(),
                    n_tails == self.productions@[p as int].tails@.len(),
                    self.in_range(table.symbols@.len() as int),
                    forall|tq: int, k: int|
                        0 <= tq < t && 0 <= k < self.productions@[p as int].tails@[tq].rhs@.len()
                            ==> table.symbols@[(#[trigger] self.productions@[p as int].tails@[tq].rhs@[k]) as int].defined_at is Some,
                decreases n_tails - t,
            {
                let tail = &self.productions[p].tails[t];
                let n_rhs = tail.rhs.len();
                let mut k: usize = 0;
                while k < n_rhs
                    invariant
                        k <= n_rhs,
                        p < n_prods,
                        t < n_tails,
                        n_prods == self.productions@.len(),
                        n_tails == self.productions@[p as int].tails@.len(),
                        n_rhs == self.productions@[p as int].tails@[t as int].rhs@.len(),
                        self.in_range(table.symbols@.len() as int),
                        forall|j: int|
                            0 <= j < k
                                ==> table.symbols@[(#[trigger] self.productions@[p as int].tails@[t as int].rhs@[j]) as int].defined_at is Some,
                    decreases n_rhs - k,
                {
                    let sym = self.productions[p].tails[t].rhs[k];
                    if table.symbols[sym].defined_at.is_none() {
                        return Err(
                            InvalidGrammarError::UndefinedSymbolInTail {
                                production: p,
                                alt: t,
                                index: k,
                                symbol: sym,
                            },
                        );
                    }
                    k += 1;
                }
                t += 1;
            }
            p += 1;
        }
        if !start_has_production {
            return Err(InvalidGrammarError::StartWithoutProduction { symbol: self.start });
        }
        Ok(())
    }
}

/// `r` is alternative `t` of production `p`, copied into flattened form.
pub open spec fn rule_matches_tail(r: Rule, g: Grammar, p: int, t: int) -> bool {
    &&& r.lhs == g.productions@[p].lhs
    &&& r.rhs@ == g.productions@[p].tails@[t].rhs@
    &&& r.prec_sym == g.productions@[p].tails@[t].prec_sym
    &&& r.action@ == g.productions@[p].tails@[t].action@
    &&& r.prod == p
    &&& r.alt == t
}

/// The flattened rule list is exactly the grammar's alternatives in
/// declaration order.
pub open spec fn rules_match_grammar(rules: Seq<Rule>, g: Grammar) -> bool {
    &&& rules.len() == g.tails_before(g.productions@.len() as int)
    &&& forall|p: int, t: int|
        0 <= p < g.productions@.len() && 0 <= t < g.productions@[p].tails@.len()
            ==> rule_matches_tail(#[trigger] rules[g.tails_before(p) + t], g, p, t)
}

pub fn copy_indices(v: &Vec<usize>) -> (r: Vec<usize>)
    ensures
        r@ == v@,
{
    let mut r: Vec<usize> = Vec::new();
    let n = v.len();
    let mut i: usize = 0;
    while i < n
        invariant
            i <= n,
            n == v@.len(),
            r@ == v@.subrange(0, i as int),
        decreases n - i,
    {
        r.push(v[i]);
        proof {
            assert(r@ =~= v@.subrange(0, i + 1));
        }
        i += 1;
    }
    proof {
        assert(r@ =~= v@);
    }
    r
}

impl Grammar {
    /// Flatten the productions into the declaration-ordered rule list whose
    /// indices are the rule ordinals used by items, tables and diagnostics.
    pub fn flatten(&self) -> (r: Vec<Rule>)
        ensures
            rules_match_grammar(r@, *self),
    {
        let n_prods = self.productions.len();
        let mut rules: Vec<Rule> = Vec::new();
        let mut p: usize = 0;
        while p < n_prods
            invariant
                p <= n_prods,
                n_prods == self.productions@.len(),
                rules@.len() == self.tails_before(p as int),
                forall|q: int, t: int|
                    0 <= q < p && 0 <= t < self.productions@[q].tails@.len()
                        ==> rule_matches_tail(#[trigger] rules@[self.tails_before(q) + t], *self,
                        q, t),
            decreases n_prods - p,
        {
            let n_tails = self.productions[p].tails.len();
            let mut t: usize = 0;
            while t < n_tails
                invariant
                    t <= n_tails,
                    p < n_prods,
                    n_prods == self.productions@.len(),
                    n_tails == self.productions@[p as int].tails@.len(),
                    rules@.len() == self.tails_before(p as int) + t,
                    forall|q: int, tq: int|
                        0 <= q < p && 0 <= tq < self.productions@[q].tails@.len()
                            ==> rule_matches_tail(#[trigger] rules@[self.tails_before(q) + tq],
                            *self, q, tq),
                    forall|tq: int|
                        0 <= tq < t
                            ==> rule_matches_tail(
                            #[trigger] rules@[self.tails_before(p as int) + tq], *self, p as int,
                            tq),
                decreases n_tails - t,
            {
                let tail = &self.productions[p].tails[t];
                let rule = Rule {
                    lhs: self.productions[p].lhs,
                    rhs: copy_indices(&tail.rhs),
                    prec_sym: tail.prec_sym,
                    action: tail.action.clone(),
                    prod: p,
                    alt: t,
                };
                let ghost prev = rules@;
                rules.push(rule);
                proof {
                    assert forall|q: int, tq: int|
                        0 <= q < p && 0 <= tq < self.productions@[q].tails@.len()
                            implies rule_matches_tail(#[trigger] rules@[self.tails_before(q) + tq],
                        *self, q, tq) by {
                        self.lemma_tails_before_mono(0, q);
                        self.lemma_tails_before_mono(q + 1, p as int);
                        assert(self.tails_before(q + 1) == self.tails_before(q)
                            + self.productions@[q].tails@.len());
                        let idx = self.tails_before(q) + tq;
                        assert(0 <= idx < prev.len());
                        assert(rules@[idx] == prev[idx]);
                        assert(rule_matches_tail(prev[idx], *self, q, tq));
                    }
                    assert forall|tq: int|
                        0 <= tq < t + 1 implies rule_matches_tail(
                        #[trigger] rules@[self.tails_before(p as int) + tq], *self, p as int,
                        tq) by {
                        self.lemma_tails_before_mono(0, p as int);
                        let idx = self.tails_before(p as int) + tq;
                        if tq < t {
                            assert(rules@[idx] == prev[idx]);
                            assert(rule_matches_tail(prev[idx], *self, p as int, tq));
                        } else {
                            assert(idx == prev.len());
                        }
                    }
                }
                t += 1;
            }
            assert(rules@.len() == self.tails_before(p + 1));
            p += 1;
        }
        rules
    }
}

} // verus!
