//! ACTION/GOTO table emission: collect the shift and reduce candidates of
//! every state and terminal, resolve conflicts by precedence, associativity
//! and declaration order, and record every resolved conflict.

use vstd::prelude::*;

use crate::augment::AugGrammar;
use crate::automaton::ItemSpace;
use crate::automaton::Lr0;
use crate::automaton::lr0_wf;
use crate::symbols::Associativity;
use crate::symbols::Precedence;
use crate::symbols::SymbolTable;

verus! {

/// One cell of the ACTION table.
#[derive(Clone, Copy, PartialEq, Eq, Structural, Debug)]
pub enum Action {
    Shift(usize),
    Reduce(usize),
    Accept,
    Error,
}

/// Which policy settled a shift/reduce conflict.
#[derive(Clone, Copy, PartialEq, Eq, Structural, Debug)]
pub enum SrChoice {
    ShiftByPrec,
    ReduceByPrec,
    ReduceByAssoc,
    ShiftByAssoc,
    ErrorNonAssoc,
    ShiftByDefault,
}

#[derive(Clone, Copy, PartialEq, Eq, Structural, Debug)]
pub enum ConflictKind {
    ShiftReduce(SrChoice),
    ReduceReduce,
}

/// A resolved conflict, reported as a warning with its full context.
#[derive(Clone, Copy, PartialEq, Eq, Structural, Debug)]
pub struct ConflictRecord {
    pub state: usize,
    pub terminal: usize,
    pub chosen: Action,
    pub discarded: Action,
    pub kind: ConflictKind,
}

/// The generated parser description: the ACTION and GOTO tables, the
/// conflict report, and the per-rule metadata (left-hand side, arity and
/// semantic-action payload) a table-driven parser needs at reduce time.
pub struct ParserTables {
    pub n_syms: usize,
    pub end_marker: usize,
    pub actions: Vec<Vec<Action>>,
    pub gotos: Vec<Vec<Option<usize>>>,
    pub conflicts: Vec<ConflictRecord>,
    pub rule_lhs: Vec<usize>,
    pub rule_arity: Vec<usize>,
    pub rule_action: Vec<String>,
}

/// The shift/reduce policy: a higher-level reduction wins, a lower one
/// loses, equal levels go by associativity, and without declared precedence
/// on both sides the shift wins by default (with a warning).
pub open spec fn spec_resolve_sr(tp: Option<Precedence>, rp: Option<Precedence>) -> SrChoice {
    match (rp, tp) {
        (Some(r), Some(t)) => {
            if r.level > t.level {
                SrChoice::ReduceByPrec
            } else if r.level < t.level {
                SrChoice::ShiftByPrec
            } else {
                match t.assoc {
                    Associativity::Left => SrChoice::ReduceByAssoc,
                    Associativity::Right => SrChoice::ShiftByAssoc,
                    Associativity::NonAssoc => SrChoice::ErrorNonAssoc,
                }
            }
        },
        _ => SrChoice::ShiftByDefault,
    }
}

pub fn resolve_sr(tp: Option<Precedence>, rp: Option<Precedence>) -> (r: SrChoice)
    ensures
        r == spec_resolve_sr(tp, rp),
{
    match (rp, tp) {
        (Some(rr), Some(tt)) => {
            if rr.level > tt.level {
                SrChoice::ReduceByPrec
            } else if rr.level < tt.level {
                SrChoice::ShiftByPrec
            } else {
                match tt.assoc {
                    Associativity::Left => SrChoice::ReduceByAssoc,
                    Associativity::Right => SrChoice::ShiftByAssoc,
                    Associativity::NonAssoc => SrChoice::ErrorNonAssoc,
                }
            }
        },
        _ => SrChoice::ShiftByDefault,
    }
}

/// The rightmost terminal of `rhs[0..j)`, if any.
pub open spec fn spec_rightmost_terminal(g: AugGrammar, rhs: Seq<usize>, j: int) -> Option<usize>
    decreases j,
{
    if j <= 0 {
        None
    } else if g.is_terminal@[rhs[j - 1] as int] {
        Some(rhs[j - 1])
    } else {
        spec_rightmost_terminal(g, rhs, j - 1)
    }
}

/// The symbol whose precedence governs a reduction by rule `r`: the
/// designated precedence symbol if one was written, else the rightmost
/// terminal of the right-hand side.
pub open spec fn spec_prec_symbol(g: AugGrammar, r: int) -> Option<usize> {
    match g.rules@[r].prec_sym {
        Some(ps) => Some(ps),
        None => spec_rightmost_terminal(g, g.rules@[r].rhs@, g.rules@[r].rhs@.len() as int),
    }
}

/// The precedence of symbol `s`, if it is a user symbol with one declared.
pub open spec fn spec_sym_prec(table: SymbolTable, s: int) -> Option<Precedence> {
    if 0 <= s < table.symbols@.len() {
        table.symbols@[s].precedence
    } else {
        None
    }
}

/// The precedence governing a reduction by rule `r`.
pub open spec fn spec_rule_prec(g: AugGrammar, table: SymbolTable, r: int) -> Option<Precedence> {
    match spec_prec_symbol(g, r) {
        Some(ps) => spec_sym_prec(table, ps as int),
        None => None,
    }
}

pub fn rule_precedence(g: &AugGrammar, table: &SymbolTable, r: usize) -> (p: Option<Precedence>)
    requires
        g.wf(),
        r < g.rules@.len(),
        g.n_syms == table.symbols@.len() + 2,
    ensures
        p == spec_rule_prec(*g, *table, r as int),
{
    let mut ps: Option<usize> = None;
    match g.rules[r].prec_sym {
        Some(d) => {
            ps = Some(d);
        },
        None => {
            assert(g.rule_ok(r as int));
            let rhs_len = g.rules[r].rhs.len();
            let mut j = rhs_len;
            let mut found: Option<usize> = None;
            while j > 0
                invariant
                    j <= rhs_len,
                    g.wf(),
                    r < g.rules@.len(),
                    rhs_len == g.rules@[r as int].rhs@.len(),
                    match found {
                        Some(fs) => spec_rightmost_terminal(*g, g.rules@[r as int].rhs@,
                            rhs_len as int) == Some(fs),
                        None => spec_rightmost_terminal(*g, g.rules@[r as int].rhs@,
                            rhs_len as int) == spec_rightmost_terminal(*g,
                            g.rules@[r as int].rhs@, j as int),
                    },
                    found is Some ==> j == 0,
                decreases j,
            {
                assert(g.rule_ok(r as int));
                let sym = g.rules[r].rhs[j - 1];
                if g.is_terminal[sym] {
                    found = Some(sym);
                    j = 0;
                } else {
                    j -= 1;
                }
            }
            ps = found;
            proof {
                if found is None {
                    assert(spec_rightmost_terminal(*g, g.rules@[r as int].rhs@, 0) is None);
                }
            }
        },
    }
    assert(ps == spec_prec_symbol(*g, r as int));
    match ps {
        Some(fs) => {
            if fs < table.len() {
                table.symbols[fs].precedence
            } else {
                None
            }
        },
        None => None,
    }
}

/// Rule `r` can be reduced in state `s` under lookahead `t`: the item with
/// the dot at the end of `r` is in the state and carries `t`.
pub open spec fn is_reduce_candidate(
    g: AugGrammar,
    sp: ItemSpace,
    a: Lr0,
    la: Seq<Vec<bool>>,
    s: int,
    t: int,
    r: int,
) -> bool {
    &&& 0 <= r < g.rules@.len()
    &&& a.states@[s].items@[sp.id_of(r, g.rules@[r].rhs@.len() as int)]
    &&& la[s * sp.n_items + sp.id_of(r, g.rules@[r].rhs@.len() as int)]@[t]
}

/// The rule a conflict record discards, where it discards a reduction.
pub open spec fn discarded_rule(c: ConflictRecord) -> int {
    match c.discarded {
        Action::Reduce(r2) => r2 as int,
        _ => -1,
    }
}

/// A sound reduce/reduce record at `(s, t)`: the earliest-declared
/// candidate kept, a later-declared competitor discarded, both named.
pub open spec fn rr_record_sound(
    g: AugGrammar,
    sp: ItemSpace,
    a: Lr0,
    la: Seq<Vec<bool>>,
    s: int,
    t: int,
    c: ConflictRecord,
) -> bool {
    &&& c.state == s
    &&& c.terminal == t
    &&& c.kind == ConflictKind::ReduceReduce
    &&& (c.chosen matches Action::Reduce(rr) && is_reduce_candidate(g, sp, a, la, s, t, rr as int)
        && (forall|r3: int|
        #[trigger] is_reduce_candidate(g, sp, a, la, s, t, r3) ==> rr <= r3))
    &&& (c.discarded matches Action::Reduce(r2) && is_reduce_candidate(g, sp, a, la, s, t,
        r2 as int) && (c.chosen matches Action::Reduce(rr) && rr < r2))
}

/// What a shift/reduce resolution keeps, per policy.
pub open spec fn sr_chosen(choice: SrChoice, n: usize, rr: int) -> Action {
    match choice {
        SrChoice::ReduceByPrec => reduce_action(rr),
        SrChoice::ReduceByAssoc => reduce_action(rr),
        SrChoice::ErrorNonAssoc => Action::Error,
        SrChoice::ShiftByPrec => Action::Shift(n),
        SrChoice::ShiftByAssoc => Action::Shift(n),
        SrChoice::ShiftByDefault => Action::Shift(n),
    }
}

/// What a shift/reduce resolution drops, per policy.
pub open spec fn sr_discarded(choice: SrChoice, n: usize, rr: int) -> Action {
    match choice {
        SrChoice::ReduceByPrec => Action::Shift(n),
        SrChoice::ReduceByAssoc => Action::Shift(n),
        SrChoice::ErrorNonAssoc => Action::Shift(n),
        SrChoice::ShiftByPrec => reduce_action(rr),
        SrChoice::ShiftByAssoc => reduce_action(rr),
        SrChoice::ShiftByDefault => reduce_action(rr),
    }
}

/// Every conflict record names a real competition at its state and
/// terminal, with the policy that fired and the competing actions.
pub open spec fn conflict_sound(
    g: AugGrammar,
    sp: ItemSpace,
    table: SymbolTable,
    a: Lr0,
    la: Seq<Vec<bool>>,
    c: ConflictRecord,
) -> bool {
    &&& c.state < a.states@.len()
    &&& c.terminal < g.n_syms
    &&& g.is_terminal@[c.terminal as int]
    &&& match c.kind {
        ConflictKind::ReduceReduce => rr_record_sound(g, sp, a, la, c.state as int,
            c.terminal as int, c),
        ConflictKind::ShiftReduce(choice) => (a.gotos@[c.state as int]@[c.terminal as int]
            matches Some(n) && (exists|rr: int|
            #[trigger] is_reduce_candidate(g, sp, a, la, c.state as int, c.terminal as int, rr)
                && (forall|r3: int|
                #[trigger] is_reduce_candidate(g, sp, a, la, c.state as int, c.terminal as int,
                    r3) ==> rr <= r3) && choice == spec_resolve_sr(spec_sym_prec(table,
                c.terminal as int), spec_rule_prec(g, table, rr)) && c.chosen == sr_chosen(
                choice, n, rr) && c.discarded == sr_discarded(choice, n, rr))),
    }
}

/// `c1` stands strictly before `c2` in the deterministic report order:
/// grouped by state, then terminal; within one cell the reduce/reduce
/// records come first, by discarded ordinal, then the shift/reduce record.
pub open spec fn conflict_order(c1: ConflictRecord, c2: ConflictRecord) -> bool {
    ||| c1.state < c2.state
    ||| (c1.state == c2.state && c1.terminal < c2.terminal)
    ||| (c1.state == c2.state && c1.terminal == c2.terminal && (match (c1.kind, c2.kind) {
        (ConflictKind::ReduceReduce, ConflictKind::ReduceReduce) => discarded_rule(c1)
            < discarded_rule(c2),
        (ConflictKind::ReduceReduce, ConflictKind::ShiftReduce(_)) => true,
        _ => false,
    }))
}

/// The reducible rule of lowest declaration ordinal in `(s, t)`, recording a
/// reduce/reduce conflict for every later-declared competitor.
fn best_reduce(
    g: &AugGrammar,
    sp: &ItemSpace,
    a: &Lr0,
    la: &Vec<Vec<bool>>,
    s: usize,
    t: usize,
    conflicts: &mut Vec<ConflictRecord>,
) -> (best: Option<usize>)
    requires
        g.wf(),
        sp.wf(*g),
        lr0_wf(*g, *sp, *a),
        s < a.states@.len(),
        t < g.n_syms,
        la@.len() == a.states@.len() * sp.n_items,
        forall|q: int| 0 <= q < la@.len() ==> (#[trigger] la@[q])@.len() == g.n_syms,
    ensures
        match best {
            Some(rr) => is_reduce_candidate(*g, *sp, *a, la@, s as int, t as int, rr as int) && (
            forall|r2: int|
                #[trigger] is_reduce_candidate(*g, *sp, *a, la@, s as int, t as int, r2) ==> rr
                    <= r2),
            None => forall|r2: int|
                !(#[trigger] is_reduce_candidate(*g, *sp, *a, la@, s as int, t as int, r2)),
        },
        final(conflicts)@.len() >= old(conflicts)@.len(),
        forall|k: int|
            0 <= k < old(conflicts)@.len() ==> #[trigger] final(conflicts)@[k] == old(
            conflicts)@[k],
        forall|k: int|
            old(conflicts)@.len() <= k < final(conflicts)@.len() ==> rr_record_sound(*g, *sp, *a,
                la@, s as int, t as int, #[trigger] final(conflicts)@[k]),
        forall|k1: int, k2: int|
            old(conflicts)@.len() <= k1 < k2 < final(conflicts)@.len() ==> discarded_rule(
                #[trigger] final(conflicts)@[k1]) < discarded_rule(
                #[trigger] final(conflicts)@[k2]),
        forall|r2: int|
            #[trigger] is_reduce_candidate(*g, *sp, *a, la@, s as int, t as int, r2) && (
            best matches Some(rr) && r2 != rr) ==> exists|k: int|
                old(conflicts)@.len() <= k < final(conflicts)@.len() && discarded_rule(
                    #[trigger] final(conflicts)@[k]) == r2,
        best is None ==> final(conflicts)@ == old(conflicts)@,
{
    let n_items = sp.n_items;
    let n_states = a.states.len();
    let n_slots = la.len();
    proof {
        crate::automaton::lemma_items_before_mono(*g, 0, g.rules@.len() as int);
    }
    let mut best: Option<usize> = None;
    let mut id: usize = 0;
    while id < n_items
        invariant
            id <= n_items,
            g.wf(),
            sp.wf(*g),
            lr0_wf(*g, *sp, *a),
            s < a.states@.len(),
            t < g.n_syms,
            n_items == sp.n_items,
            n_states == a.states@.len(),
            n_slots == la@.len(),
            la@.len() == a.states@.len() * sp.n_items,
            forall|q: int| 0 <= q < la@.len() ==> (#[trigger] la@[q])@.len() == g.n_syms,
            match best {
                Some(rr) => {
                    &&& is_reduce_candidate(*g, *sp, *a, la@, s as int, t as int, rr as int)
                    &&& sp.id_of(rr as int, g.rules@[rr as int].rhs@.len() as int) < id
                    &&& forall|r2: int|
                        #[trigger] is_reduce_candidate(*g, *sp, *a, la@, s as int, t as int, r2)
                            && sp.id_of(r2, g.rules@[r2].rhs@.len() as int) < id ==> rr <= r2
                },
                None => forall|r2: int|
                    #[trigger] is_reduce_candidate(*g, *sp, *a, la@, s as int, t as int, r2)
                        ==> sp.id_of(r2, g.rules@[r2].rhs@.len() as int) >= id,
            },
            conflicts@.len() >= old(conflicts)@.len(),
            forall|k: int|
                0 <= k < old(conflicts)@.len() ==> #[trigger] conflicts@[k] == old(
                conflicts)@[k],
            best is None ==> conflicts@ == old(conflicts)@,
            forall|k: int|
                old(conflicts)@.len() <= k < conflicts@.len() ==> {
                    let c = #[trigger] conflicts@[k];
                    &&& c.state == s
                    &&& c.terminal == t
                    &&& c.kind == ConflictKind::ReduceReduce
                    &&& (best matches Some(b) && c.chosen == Action::Reduce(b))
                    &&& (c.discarded matches Action::Reduce(r2) && is_reduce_candidate(*g, *sp,
                        *a, la@, s as int, t as int, r2 as int) && (best matches Some(b) && b
                        < r2) && sp.id_of(r2 as int, g.rules@[r2 as int].rhs@.len() as int)
                        < id)
                },
            forall|k1: int, k2: int|
                old(conflicts)@.len() <= k1 < k2 < conflicts@.len() ==> discarded_rule(
                    #[trigger] conflicts@[k1]) < discarded_rule(#[trigger] conflicts@[k2]),
            forall|r2: int|
                #[trigger] is_reduce_candidate(*g, *sp, *a, la@, s as int, t as int, r2)
                    && sp.id_of(r2, g.rules@[r2].rhs@.len() as int) < id && (
                best matches Some(b) && r2 != b) ==> exists|k: int|
                    old(conflicts)@.len() <= k < conflicts@.len() && discarded_rule(
                        #[trigger] conflicts@[k]) == r2,
        decreases n_items - id,
    {
        assert(0 <= sp.rule_of(id as int) < g.rules@.len());
        let rl = sp.item_rule[id];
        let d = sp.item_dot[id];
        assert(g.rule_ok(rl as int));
        let slot = crate::automaton::slot_of(s, id, n_states, n_items, n_slots);
        let ghost best_old = best;
        let is_cand = a.states[s].items[id] && d == g.rules[rl].rhs.len() && la[slot][t];
        if is_cand {
            proof {
                sp.lemma_id_of_inverse(*g, rl as int, d as int);
                assert(is_reduce_candidate(*g, *sp, *a, la@, s as int, t as int, rl as int));
            }
            match best {
                Some(b) => {
                    if rl != b {
                        let ghost prev_c = conflicts@;
                        conflicts.push(
                            ConflictRecord {
                                state: s,
                                terminal: t,
                                chosen: Action::Reduce(b),
                                discarded: Action::Reduce(rl),
                                kind: ConflictKind::ReduceReduce,
                            },
                        );
                        proof {
                            assert(b < rl) by {
                                if b as int > rl as int {
                                    crate::automaton::lemma_items_before_mono(*g, rl as int + 1,
                                        b as int);
                                    assert(sp.id_of(b as int,
                                        g.rules@[b as int].rhs@.len() as int) > id);
                                }
                            }
                            assert forall|k1: int, k2: int|
                                old(conflicts)@.len() <= k1 < k2 < conflicts@.len()
                                    implies discarded_rule(#[trigger] conflicts@[k1])
                                < discarded_rule(#[trigger] conflicts@[k2]) by {
                                if k2 < conflicts@.len() - 1 {
                                    assert(discarded_rule(prev_c[k1]) < discarded_rule(
                                        prev_c[k2]));
                                } else {
                                    assert(conflicts@[k1] == prev_c[k1]);
                                    let r2v = discarded_rule(prev_c[k1]);
                                    assert(sp.id_of(r2v, g.rules@[r2v].rhs@.len() as int) < id);
                                    if r2v > rl as int {
                                        crate::automaton::lemma_items_before_mono(*g,
                                            rl as int + 1, r2v);
                                        assert(sp.id_of(r2v, g.rules@[r2v].rhs@.len() as int)
                                            > id);
                                        assert(false);
                                    } else if r2v == rl as int {
                                        assert(false);
                                    }
                                }
                            }
                            assert forall|r2: int|
                                #[trigger] is_reduce_candidate(*g, *sp, *a, la@, s as int,
                                    t as int, r2) && sp.id_of(r2,
                                    g.rules@[r2].rhs@.len() as int) < id + 1 && r2 != b
                                    implies exists|k: int|
                                    old(conflicts)@.len() <= k < conflicts@.len()
                                        && discarded_rule(#[trigger] conflicts@[k]) == r2 by {
                                if sp.id_of(r2, g.rules@[r2].rhs@.len() as int) < id {
                                    let k = choose|k: int|
                                        old(conflicts)@.len() <= k < prev_c.len()
                                            && discarded_rule(#[trigger] prev_c[k]) == r2;
                                    assert(discarded_rule(conflicts@[k]) == r2);
                                } else {
                                    sp.lemma_id_of_inverse(*g, r2,
                                        g.rules@[r2].rhs@.len() as int);
                                    assert(r2 == rl as int);
                                    assert(discarded_rule(conflicts@[conflicts@.len() - 1])
                                        == r2);
                                }
                            }
                        }
                    } else {
                        proof {
                            assert forall|r2: int|
                                #[trigger] is_reduce_candidate(*g, *sp, *a, la@, s as int,
                                    t as int, r2) && sp.id_of(r2,
                                    g.rules@[r2].rhs@.len() as int) < id + 1 && r2 != b
                                    implies exists|k: int|
                                    old(conflicts)@.len() <= k < conflicts@.len()
                                        && discarded_rule(#[trigger] conflicts@[k]) == r2 by {
                                sp.lemma_id_of_inverse(*g, r2, g.rules@[r2].rhs@.len() as int);
                                assert(sp.id_of(r2, g.rules@[r2].rhs@.len() as int) < id);
                            }
                        }
                    }
                },
                None => {
                    best = Some(rl);
                    proof {
                        assert forall|r2: int|
                            #[trigger] is_reduce_candidate(*g, *sp, *a, la@, s as int, t as int,
                                r2) && sp.id_of(r2, g.rules@[r2].rhs@.len() as int) < id + 1
                                && r2 != rl implies exists|k: int|
                                old(conflicts)@.len() <= k < conflicts@.len()
                                    && discarded_rule(#[trigger] conflicts@[k]) == r2 by {
                            sp.lemma_id_of_inverse(*g, r2, g.rules@[r2].rhs@.len() as int);
                            assert(false);
                        }
                    }
                },
            }
        } else {
            proof {
                assert forall|r2: int|
                    #[trigger] is_reduce_candidate(*g, *sp, *a, la@, s as int, t as int, r2)
                        && sp.id_of(r2, g.rules@[r2].rhs@.len() as int) < id + 1 && (
                best matches Some(b2) && r2 != b2) implies exists|k: int|
                        old(conflicts)@.len() <= k < conflicts@.len() && discarded_rule(
                            #[trigger] conflicts@[k]) == r2 by {
                    sp.lemma_id_of_inverse(*g, r2, g.rules@[r2].rhs@.len() as int);
                    if sp.id_of(r2, g.rules@[r2].rhs@.len() as int) >= id {
                        assert(r2 == rl as int);
                        assert(a.states@[s as int].items@[id as int]);
                        assert(la@[s as int * sp.n_items + id as int]@[t as int]);
                        assert(is_cand);
                        assert(false);
                    }
                }
            }
        }
        proof {
            assert forall|r2: int|
                #[trigger] is_reduce_candidate(*g, *sp, *a, la@, s as int, t as int, r2)
                    && sp.id_of(r2, g.rules@[r2].rhs@.len() as int) < id + 1 implies (
            best matches Some(rr) && rr <= r2) by {
                sp.lemma_id_of_inverse(*g, r2, g.rules@[r2].rhs@.len() as int);
                if sp.id_of(r2, g.rules@[r2].rhs@.len() as int) < id {
                    assert(best_old matches Some(rr2) && rr2 <= r2);
                } else {
                    assert(sp.id_of(r2, g.rules@[r2].rhs@.len() as int) == id);
                    assert(sp.rule_of(id as int) == r2);
                    assert(rl as int == r2);
                    assert(d as int == g.rules@[r2].rhs@.len());
                    assert(is_cand);
                    match best_old {
                        Some(b) => {
                            assert(best == best_old);
                            if b as int > r2 {
                                crate::automaton::lemma_items_before_mono(*g, r2 + 1, b as int);
                                assert(sp.id_of(b as int, g.rules@[b as int].rhs@.len() as int)
                                    > id);
                                assert(false);
                            }
                        },
                        None => {
                            assert(best == Some(rl));
                        },
                    }
                }
            }
        }
        id += 1;
    }
    proof {
        if best is Some {
            let rr = best->0;
            assert forall|r2: int|
                #[trigger] is_reduce_candidate(*g, *sp, *a, la@, s as int, t as int, r2)
                    implies rr <= r2 by {
                sp.lemma_id_of_inverse(*g, r2, g.rules@[r2].rhs@.len() as int);
                if r2 < rr {
                    crate::automaton::lemma_items_before_mono(*g, r2 + 1, rr as int);
                    assert(sp.id_of(r2, g.rules@[r2].rhs@.len() as int) < sp.id_of(rr as int,
                        g.rules@[rr as int].rhs@.len() as int));
                }
            }
            assert forall|k: int|
                old(conflicts)@.len() <= k < conflicts@.len() implies rr_record_sound(*g, *sp,
                *a, la@, s as int, t as int, #[trigger] conflicts@[k]) by {}
            assert forall|r2: int|
                #[trigger] is_reduce_candidate(*g, *sp, *a, la@, s as int, t as int, r2) && r2
                    != rr implies exists|k: int|
                    old(conflicts)@.len() <= k < conflicts@.len() && discarded_rule(
                        #[trigger] conflicts@[k]) == r2 by {
                sp.lemma_id_of_inverse(*g, r2, g.rules@[r2].rhs@.len() as int);
            }
        } else {
            assert forall|r2: int|
                !(#[trigger] is_reduce_candidate(*g, *sp, *a, la@, s as int, t as int,
                r2)) by {
                if 0 <= r2 < g.rules@.len() {
                    sp.lemma_id_of_inverse(*g, r2, g.rules@[r2].rhs@.len() as int);
                }
            }
        }
    }
    best
}

/// What a reduction of `rr` installs: accept for the synthetic start rule,
/// an ordinary reduce otherwise.
pub open spec fn reduce_action(rr: int) -> Action {
    if rr == 0 {
        Action::Accept
    } else {
        Action::Reduce(rr as usize)
    }
}

/// The entry installed at `(s, t)` is exactly what the candidates and the
/// resolution policy dictate: a shift follows the automaton's transition; a
/// reduce names the earliest-declared reducible rule; accept stands for
/// reducing the synthetic start rule; nonterminal columns carry no action;
/// and where shift and reduce compete the declared precedences decide.
pub open spec fn cell_sound(
    g: AugGrammar,
    sp: ItemSpace,
    table: SymbolTable,
    a: Lr0,
    la: Seq<Vec<bool>>,
    act: Action,
    s: int,
    t: int,
) -> bool {
    &&& (act matches Action::Shift(n) ==> a.gotos@[s]@[t] == Some(n) && g.is_terminal@[t])
    &&& (act matches Action::Reduce(rr) ==> is_reduce_candidate(g, sp, a, la, s, t, rr as int)
        && rr != 0 && (forall|r2: int|
        #[trigger] is_reduce_candidate(g, sp, a, la, s, t, r2) ==> rr <= r2))
    &&& (act matches Action::Accept ==> is_reduce_candidate(g, sp, a, la, s, t, 0))
    &&& (!g.is_terminal@[t] ==> act == Action::Error)
    &&& (g.is_terminal@[t] && a.gotos@[s]@[t] is None && (forall|r2: int|
        !(#[trigger] is_reduce_candidate(g, sp, a, la, s, t, r2))) ==> act == Action::Error)
    &&& (g.is_terminal@[t] ==> (a.gotos@[s]@[t] matches Some(n) ==> ((forall|r2: int|
        !(#[trigger] is_reduce_candidate(g, sp, a, la, s, t, r2))) ==> act == Action::Shift(
    n))))
    &&& (forall|rr: int|
        g.is_terminal@[t] && a.gotos@[s]@[t] is None && #[trigger] is_reduce_candidate(g, sp, a,
            la, s, t, rr) && (forall|r2: int|
            #[trigger] is_reduce_candidate(g, sp, a, la, s, t, r2) ==> rr <= r2) ==> act
            == reduce_action(rr))
    &&& (forall|rr: int|
        g.is_terminal@[t] ==> (a.gotos@[s]@[t] matches Some(n) ==> (#[trigger] is_reduce_candidate(
            g, sp, a, la, s, t, rr) && (forall|r2: int|
            #[trigger] is_reduce_candidate(g, sp, a, la, s, t, r2) ==> rr <= r2) ==> act
            == (match spec_resolve_sr(spec_sym_prec(table, t), spec_rule_prec(g, table, rr)) {
            SrChoice::ReduceByPrec => reduce_action(rr),
            SrChoice::ReduceByAssoc => reduce_action(rr),
            SrChoice::ErrorNonAssoc => Action::Error,
            SrChoice::ShiftByPrec => Action::Shift(n),
            SrChoice::ShiftByAssoc => Action::Shift(n),
            SrChoice::ShiftByDefault => Action::Shift(n),
        }))))
}

/// The whole conflict report is sound, totally ordered, and complete:
/// every record names a real competition with the policy that fired; the
/// records stand in one deterministic order (which also means no
/// competition is reported twice); a record exists whenever shift and
/// reduce compete; and one reduce/reduce record names each later-declared
/// competitor of the kept rule.
pub open spec fn conflict_report_sound(
    g: AugGrammar,
    sp: ItemSpace,
    table: SymbolTable,
    a: Lr0,
    la: Seq<Vec<bool>>,
    t: ParserTables,
) -> bool {
    &&& (forall|k: int|
        0 <= k < t.conflicts@.len() ==> conflict_sound(g, sp, table, a, la,
            #[trigger] t.conflicts@[k]))
    &&& (forall|k1: int, k2: int|
        0 <= k1 < k2 < t.conflicts@.len() ==> conflict_order(#[trigger] t.conflicts@[k1],
            #[trigger] t.conflicts@[k2]))
    &&& (forall|s: int, t2: int|
        0 <= s < a.states@.len() && 0 <= t2 < g.n_syms && g.is_terminal@[t2] && (
        #[trigger] a.gotos@[s]@[t2]) is Some && (exists|r2: int|
            #[trigger] is_reduce_candidate(g, sp, a, la, s, t2, r2)) ==> exists|k: int|
            0 <= k < t.conflicts@.len() && (#[trigger] t.conflicts@[k]).state == s
                && t.conflicts@[k].terminal == t2 && (t.conflicts@[k].kind matches
            ConflictKind::ShiftReduce(_)))
    &&& (forall|s: int, t2: int, r2: int|
        0 <= s < a.states@.len() && 0 <= t2 < g.n_syms && g.is_terminal@[t2]
            && #[trigger] is_reduce_candidate(g, sp, a, la, s, t2, r2) && (exists|rr: int|
            #[trigger] is_reduce_candidate(g, sp, a, la, s, t2, rr) && rr < r2)
            ==> exists|k: int|
            0 <= k < t.conflicts@.len() && (#[trigger] t.conflicts@[k]).state == s
                && t.conflicts@[k].terminal == t2 && t.conflicts@[k].kind
                == ConflictKind::ReduceReduce && discarded_rule(t.conflicts@[k]) == r2)
}

/// Emit the ACTION and GOTO tables from the automaton and its lookaheads,
/// resolving every conflict and recording it.  The ACTION table is total:
/// one entry for every state and symbol.
pub fn build_tables(
    g: &AugGrammar,
    sp: &ItemSpace,
    table: &SymbolTable,
    a: Lr0,
    la: &Vec<Vec<bool>>,
) -> (r: ParserTables)
    requires
        g.wf(),
        sp.wf(*g),
        lr0_wf(*g, *sp, a),
        g.n_syms == table.symbols@.len() + 2,
        la@.len() == a.states@.len() * sp.n_items,
        forall|q: int| 0 <= q < la@.len() ==> (#[trigger] la@[q])@.len() == g.n_syms,
    ensures
        r.actions@.len() == a.states@.len(),
        forall|s: int|
            0 <= s < r.actions@.len() ==> (#[trigger] r.actions@[s])@.len() == g.n_syms,
        forall|s: int, t: int|
            0 <= s < a.states@.len() && 0 <= t < g.n_syms ==> cell_sound(*g, *sp, *table, a, la@,
                #[trigger] r.actions@[s]@[t], s, t),
        r.gotos@ == a.gotos@,
        r.n_syms == g.n_syms,
        r.end_marker == g.end_marker,
        r.rule_lhs@.len() == g.rules@.len(),
        r.rule_arity@.len() == g.rules@.len(),
        r.rule_action@.len() == g.rules@.len(),
        forall|q: int|
            0 <= q < g.rules@.len() ==> (#[trigger] r.rule_lhs@[q]) == g.rules@[q].lhs,
        forall|q: int|
            0 <= q < g.rules@.len() ==> (#[trigger] r.rule_arity@[q]) == g.rules@[q].rhs@.len(),
        forall|q: int|
            0 <= q < g.rules@.len() ==> (#[trigger] r.rule_action@[q])@ == g.rules@[q].action@,
        forall|k: int|
            0 <= k < r.conflicts@.len() ==> conflict_sound(*g, *sp, *table, a, la@,
                #[trigger] r.conflicts@[k]),
        forall|k1: int, k2: int|
            0 <= k1 < k2 < r.conflicts@.len() ==> conflict_order(#[trigger] r.conflicts@[k1],
                #[trigger] r.conflicts@[k2]),
        forall|s: int, t2: int|
            0 <= s < a.states@.len() && 0 <= t2 < g.n_syms && g.is_terminal@[t2] && (
            #[trigger] a.gotos@[s]@[t2]) is Some && (exists|r2: int|
                #[trigger] is_reduce_candidate(*g, *sp, a, la@, s, t2, r2)) ==> exists|k: int|
                0 <= k < r.conflicts@.len() && (#[trigger] r.conflicts@[k]).state == s
                    && r.conflicts@[k].terminal == t2 && (r.conflicts@[k].kind matches
                ConflictKind::ShiftReduce(_)),
        forall|s: int, t2: int, r2: int|
            0 <= s < a.states@.len() && 0 <= t2 < g.n_syms && g.is_terminal@[t2]
                && #[trigger] is_reduce_candidate(*g, *sp, a, la@, s, t2, r2) && (exists|rr: int|
                #[trigger] is_reduce_candidate(*g, *sp, a, la@, s, t2, rr) && rr < r2)
                ==> exists|k: int|
                0 <= k < r.conflicts@.len() && (#[trigger] r.conflicts@[k]).state == s
                    && r.conflicts@[k].terminal == t2 && r.conflicts@[k].kind
                    == ConflictKind::ReduceReduce && discarded_rule(r.conflicts@[k]) == r2,
{
    let ns = g.n_syms;
    let n_states = a.states.len();
    let n_rules = g.rules.len();
    let mut conflicts: Vec<ConflictRecord> = Vec::new();
    let mut actions: Vec<Vec<Action>> = Vec::new();
    let mut s: usize = 0;
    while s < n_states
        invariant
            s <= n_states,
            ns == g.n_syms,
            n_states == a.states@.len(),
            g.wf(),
            sp.wf(*g),
            lr0_wf(*g, *sp, a),
            g.n_syms == table.symbols@.len() + 2,
            la@.len() == a.states@.len() * sp.n_items,
            forall|q: int| 0 <= q < la@.len() ==> (#[trigger] la@[q])@.len() == g.n_syms,
            actions@.len() == s,
            forall|s2: int| 0 <= s2 < s ==> (#[trigger] actions@[s2])@.len() == ns,
            forall|s2: int, t2: int|
                0 <= s2 < s && 0 <= t2 < ns ==> cell_sound(*g, *sp, *table, a, la@,
                    #[trigger] actions@[s2]@[t2], s2, t2),
            forall|k: int|
                0 <= k < conflicts@.len() ==> conflict_sound(*g, *sp, *table, a, la@,
                    #[trigger] conflicts@[k]),
            forall|k1: int, k2: int|
                0 <= k1 < k2 < conflicts@.len() ==> conflict_order(#[trigger] conflicts@[k1],
                    #[trigger] conflicts@[k2]),
            forall|k: int| 0 <= k < conflicts@.len() ==> (#[trigger] conflicts@[k]).state < s,
            forall|s2: int, t2: int|
                0 <= s2 < s && 0 <= t2 < ns && g.is_terminal@[t2] && (
                #[trigger] a.gotos@[s2]@[t2]) is Some && (exists|r2: int|
                    #[trigger] is_reduce_candidate(*g, *sp, a, la@, s2, t2, r2)) ==> exists|
                    k: int,
                |
                    0 <= k < conflicts@.len() && (#[trigger] conflicts@[k]).state == s2
                        && conflicts@[k].terminal == t2 && (conflicts@[k].kind matches
                    ConflictKind::ShiftReduce(_)),
            forall|s2: int, t2: int, r2: int|
                0 <= s2 < s && 0 <= t2 < ns && g.is_terminal@[t2]
                    && #[trigger] is_reduce_candidate(*g, *sp, a, la@, s2, t2, r2) && (exists|
                    rr: int,
                |
                    #[trigger] is_reduce_candidate(*g, *sp, a, la@, s2, t2, rr) && rr < r2)
                    ==> exists|k: int|
                    0 <= k < conflicts@.len() && (#[trigger] conflicts@[k]).state == s2
                        && conflicts@[k].terminal == t2 && conflicts@[k].kind
                        == ConflictKind::ReduceReduce && discarded_rule(conflicts@[k]) == r2,
        decreases n_states - s,
    {
        let mut row: Vec<Action> = Vec::new();
        let mut t: usize = 0;
        while t < ns
            invariant
                t <= ns,
                s < n_states,
                ns == g.n_syms,
                n_states == a.states@.len(),
                g.wf(),
                sp.wf(*g),
                lr0_wf(*g, *sp, a),
                g.n_syms == table.symbols@.len() + 2,
                la@.len() == a.states@.len() * sp.n_items,
                forall|q: int| 0 <= q < la@.len() ==> (#[trigger] la@[q])@.len() == g.n_syms,
                row@.len() == t,
                forall|t2: int|
                    0 <= t2 < t ==> cell_sound(*g, *sp, *table, a, la@, #[trigger] row@[t2], s as int,
                    t2),
                forall|k: int|
                    0 <= k < conflicts@.len() ==> conflict_sound(*g, *sp, *table, a, la@,
                        #[trigger] conflicts@[k]),
                forall|k1: int, k2: int|
                    0 <= k1 < k2 < conflicts@.len() ==> conflict_order(
                        #[trigger] conflicts@[k1], #[trigger] conflicts@[k2]),
                forall|k: int|
                    0 <= k < conflicts@.len() ==> (#[trigger] conflicts@[k]).state < s || (
                    conflicts@[k].state == s && conflicts@[k].terminal < t),
                forall|s2: int, t2: int|
                    (0 <= s2 < s || (s2 == s && 0 <= t2 < t)) && 0 <= t2 < ns
                        && g.is_terminal@[t2] && (#[trigger] a.gotos@[s2]@[t2]) is Some && (
                    exists|r2: int|
                        #[trigger] is_reduce_candidate(*g, *sp, a, la@, s2, t2, r2)) ==> exists|
                        k: int,
                    |
                        0 <= k < conflicts@.len() && (#[trigger] conflicts@[k]).state == s2
                            && conflicts@[k].terminal == t2 && (conflicts@[k].kind matches
                        ConflictKind::ShiftReduce(_)),
                forall|s2: int, t2: int, r2: int|
                    (0 <= s2 < s || (s2 == s && 0 <= t2 < t)) && 0 <= t2 < ns
                        && g.is_terminal@[t2] && #[trigger] is_reduce_candidate(*g, *sp, a, la@,
                        s2, t2, r2) && (exists|rr: int|
                        #[trigger] is_reduce_candidate(*g, *sp, a, la@, s2, t2, rr) && rr < r2)
                        ==> exists|k: int|
                        0 <= k < conflicts@.len() && (#[trigger] conflicts@[k]).state == s2
                            && conflicts@[k].terminal == t2 && conflicts@[k].kind
                            == ConflictKind::ReduceReduce && discarded_rule(conflicts@[k])
                            == r2,
            decreases ns - t,
        {
            let ghost c_entry = conflicts@;
            let act: Action;
            if !g.is_terminal[t] {
                act = Action::Error;
            } else {
                let ghost c_pre = conflicts@;
                let best = best_reduce(g, sp, &a, la, s, t, &mut conflicts);
                let ghost c_mid = conflicts@;
                proof {
                    assert forall|k: int|
                        0 <= k < conflicts@.len() implies conflict_sound(*g, *sp, *table, a,
                        la@, #[trigger] conflicts@[k]) by {
                        if k < c_pre.len() {
                            assert(conflicts@[k] == c_pre[k]);
                        } else {
                            assert(rr_record_sound(*g, *sp, a, la@, s as int, t as int,
                                conflicts@[k]));
                        }
                    }
                    assert forall|k1: int, k2: int|
                        0 <= k1 < k2 < conflicts@.len() implies conflict_order(
                        #[trigger] conflicts@[k1], #[trigger] conflicts@[k2]) by {
                        if k2 < c_pre.len() {
                            assert(conflicts@[k1] == c_pre[k1]);
                            assert(conflicts@[k2] == c_pre[k2]);
                        } else if k1 < c_pre.len() {
                            assert(conflicts@[k1] == c_pre[k1]);
                            assert(conflicts@[k1].state < s || (conflicts@[k1].state == s
                                && conflicts@[k1].terminal < t));
                            assert(rr_record_sound(*g, *sp, a, la@, s as int, t as int,
                                conflicts@[k2]));
                        } else {
                            assert(rr_record_sound(*g, *sp, a, la@, s as int, t as int,
                                conflicts@[k1]));
                            assert(rr_record_sound(*g, *sp, a, la@, s as int, t as int,
                                conflicts@[k2]));
                            assert(discarded_rule(conflicts@[k1]) < discarded_rule(
                                conflicts@[k2]));
                        }
                    }
                    assert forall|r2: int|
                        #[trigger] is_reduce_candidate(*g, *sp, a, la@, s as int, t as int, r2)
                            && (exists|rr2: int|
                            #[trigger] is_reduce_candidate(*g, *sp, a, la@, s as int, t as int,
                                rr2) && rr2 < r2) implies exists|k: int|
                            0 <= k < conflicts@.len() && (#[trigger] conflicts@[k]).state == s
                                && conflicts@[k].terminal == t && conflicts@[k].kind
                                == ConflictKind::ReduceReduce && discarded_rule(conflicts@[k])
                                == r2 by {
                        match best {
                            Some(b) => {
                                let rr2 = choose|rr2: int|
                                    #[trigger] is_reduce_candidate(*g, *sp, a, la@, s as int,
                                        t as int, rr2) && rr2 < r2;
                                assert(b as int <= rr2);
                                assert(r2 != b as int);
                                let k = choose|k: int|
                                    c_pre.len() <= k < conflicts@.len() && discarded_rule(
                                        #[trigger] conflicts@[k]) == r2;
                                assert(rr_record_sound(*g, *sp, a, la@, s as int, t as int,
                                    conflicts@[k]));
                            },
                            None => {
                                assert(false);
                            },
                        }
                    }
                }
                let shift = a.gotos[s][t];
                match (shift, best) {
                    (None, None) => {
                        act = Action::Error;
                    },
                    (Some(n), None) => {
                        act = Action::Shift(n);
                    },
                    (None, Some(rr)) => {
                        if rr == 0 {
                            act = Action::Accept;
                        } else {
                            act = Action::Reduce(rr);
                        }
                    },
                    (Some(n), Some(rr)) => {
                        let tp = if t < table.len() {
                            table.symbols[t].precedence
                        } else {
                            None
                        };
                        let rp = rule_precedence(g, table, rr);
                        let choice = resolve_sr(tp, rp);
                        let reduce_act = if rr == 0 {
                            Action::Accept
                        } else {
                            Action::Reduce(rr)
                        };
                        let chosen: Action;
                        let discarded: Action;
                        match choice {
                            SrChoice::ReduceByPrec | SrChoice::ReduceByAssoc => {
                                chosen = reduce_act;
                                discarded = Action::Shift(n);
                            },
                            SrChoice::ErrorNonAssoc => {
                                chosen = Action::Error;
                                discarded = Action::Shift(n);
                            },
                            SrChoice::ShiftByPrec | SrChoice::ShiftByAssoc
                                | SrChoice::ShiftByDefault => {
                                chosen = Action::Shift(n);
                                discarded = reduce_act;
                            },
                        }
                        let ghost c_sr = conflicts@;
                        conflicts.push(
                            ConflictRecord {
                                state: s,
                                terminal: t,
                                chosen,
                                discarded,
                                kind: ConflictKind::ShiftReduce(choice),
                            },
                        );
                        proof {
                            let last = conflicts@.len() - 1;
                            assert(tp == spec_sym_prec(*table, t as int));
                            assert(chosen == sr_chosen(choice, n, rr as int));
                            assert(discarded == sr_discarded(choice, n, rr as int));
                            assert(is_reduce_candidate(*g, *sp, a, la@, s as int, t as int,
                                rr as int));
                            assert(conflict_sound(*g, *sp, *table, a, la@, conflicts@[last]));
                            assert forall|k: int|
                                0 <= k < last implies conflict_order(
                                #[trigger] conflicts@[k], conflicts@[last]) by {
                                assert(conflicts@[k] == c_sr[k]);
                                if k >= c_pre.len() {
                                    assert(rr_record_sound(*g, *sp, a, la@, s as int, t as int,
                                        conflicts@[k]));
                                } else {
                                    assert(conflicts@[k].state < s || (conflicts@[k].state == s
                                        && conflicts@[k].terminal < t));
                                }
                            }
                            assert(conflicts@[last].state == s && conflicts@[last].terminal
                                == t && (conflicts@[last].kind matches
                            ConflictKind::ShiftReduce(_)));
                        }
                        act = chosen;
                    },
                }
                proof {
                    assert forall|r2: int|
                        #[trigger] is_reduce_candidate(*g, *sp, a, la@, s as int, t as int, r2)
                            && (exists|rr2: int|
                            #[trigger] is_reduce_candidate(*g, *sp, a, la@, s as int, t as int,
                                rr2) && rr2 < r2) implies exists|k: int|
                            0 <= k < conflicts@.len() && (#[trigger] conflicts@[k]).state == s
                                && conflicts@[k].terminal == t && conflicts@[k].kind
                                == ConflictKind::ReduceReduce && discarded_rule(conflicts@[k])
                                == r2 by {
                        match best {
                            Some(b) => {
                                let rr2 = choose|rr2: int|
                                    #[trigger] is_reduce_candidate(*g, *sp, a, la@, s as int,
                                        t as int, rr2) && rr2 < r2;
                                assert(b as int <= rr2);
                                let k = choose|k: int|
                                    c_pre.len() <= k < c_mid.len() && discarded_rule(
                                        #[trigger] c_mid[k]) == r2;
                                assert(conflicts@[k] == c_mid[k]);
                                assert(rr_record_sound(*g, *sp, a, la@, s as int, t as int,
                                    c_mid[k]));
                            },
                            None => {
                                assert(false);
                            },
                        }
                    }
                    if shift is Some && best is Some {
                        let last = conflicts@.len() - 1;
                        assert(conflicts@[last].state == s && conflicts@[last].terminal == t
                            && (conflicts@[last].kind matches ConflictKind::ShiftReduce(_)));
                    }
                }
            }
            proof {
                assert forall|s2: int, t2: int|
                    (0 <= s2 < s || (s2 == s && 0 <= t2 < t)) && 0 <= t2 < ns
                        && g.is_terminal@[t2] && (#[trigger] a.gotos@[s2]@[t2]) is Some && (
                    exists|r2: int|
                        #[trigger] is_reduce_candidate(*g, *sp, a, la@, s2, t2, r2))
                        implies exists|k: int|
                        0 <= k < conflicts@.len() && (#[trigger] conflicts@[k]).state == s2
                            && conflicts@[k].terminal == t2 && (conflicts@[k].kind matches
                        ConflictKind::ShiftReduce(_)) by {
                    let k = choose|k: int|
                        0 <= k < c_entry.len() && (#[trigger] c_entry[k]).state == s2
                            && c_entry[k].terminal == t2 && (c_entry[k].kind matches
                        ConflictKind::ShiftReduce(_));
                    assert(conflicts@[k] == c_entry[k]);
                }
                assert forall|s2: int, t2: int, r2: int|
                    (0 <= s2 < s || (s2 == s && 0 <= t2 < t)) && 0 <= t2 < ns
                        && g.is_terminal@[t2] && #[trigger] is_reduce_candidate(*g, *sp, a,
                        la@, s2, t2, r2) && (exists|rr: int|
                        #[trigger] is_reduce_candidate(*g, *sp, a, la@, s2, t2, rr) && rr < r2)
                        implies exists|k: int|
                        0 <= k < conflicts@.len() && (#[trigger] conflicts@[k]).state == s2
                            && conflicts@[k].terminal == t2 && conflicts@[k].kind
                            == ConflictKind::ReduceReduce && discarded_rule(conflicts@[k])
                            == r2 by {
                    let k = choose|k: int|
                        0 <= k < c_entry.len() && (#[trigger] c_entry[k]).state == s2
                            && c_entry[k].terminal == t2 && c_entry[k].kind
                            == ConflictKind::ReduceReduce && discarded_rule(c_entry[k]) == r2;
                    assert(conflicts@[k] == c_entry[k]);
                }
            }
            row.push(act);
            t += 1;
        }
        actions.push(row);
        s += 1;
    }
    let mut rule_lhs: Vec<usize> = Vec::new();
    let mut rule_arity: Vec<usize> = Vec::new();
    let mut rule_action: Vec<String> = Vec::new();
    let mut q: usize = 0;
    while q < n_rules
        invariant
            q <= n_rules,
            n_rules == g.rules@.len(),
            rule_lhs@.len() == q,
            rule_arity@.len() == q,
            rule_action@.len() == q,
            forall|k: int| 0 <= k < q ==> (#[trigger] rule_lhs@[k]) == g.rules@[k].lhs,
            forall|k: int| 0 <= k < q ==> (#[trigger] rule_arity@[k]) == g.rules@[k].rhs@.len(),
            forall|k: int| 0 <= k < q ==> (#[trigger] rule_action@[k])@ == g.rules@[k].action@,
        decreases n_rules - q,
    {
        rule_lhs.push(g.rules[q].lhs);
        rule_arity.push(g.rules[q].rhs.len());
        rule_action.push(g.rules[q].action.clone());
        q += 1;
    }
    let ghost conflicts_view = conflicts@;
    let r = ParserTables {
        n_syms: ns,
        end_marker: g.end_marker,
        actions,
        gotos: a.gotos,
        conflicts,
        rule_lhs,
        rule_arity,
        rule_action,
    };
    proof {
        assert(r.conflicts@ == conflicts_view);
        assert forall|s2: int, t2: int|
            0 <= s2 < a.states@.len() && 0 <= t2 < g.n_syms && g.is_terminal@[t2] && (
            #[trigger] a.gotos@[s2]@[t2]) is Some && (exists|r2: int|
                #[trigger] is_reduce_candidate(*g, *sp, a, la@, s2, t2, r2))
                implies exists|k: int|
                0 <= k < r.conflicts@.len() && (#[trigger] r.conflicts@[k]).state == s2
                    && r.conflicts@[k].terminal == t2 && (r.conflicts@[k].kind matches
                ConflictKind::ShiftReduce(_)) by {
            let k = choose|k: int|
                0 <= k < conflicts_view.len() && (#[trigger] conflicts_view[k]).state == s2
                    && conflicts_view[k].terminal == t2 && (conflicts_view[k].kind matches
                ConflictKind::ShiftReduce(_));
            assert(r.conflicts@[k] == conflicts_view[k]);
        }
        assert forall|s2: int, t2: int, r2: int|
            0 <= s2 < a.states@.len() && 0 <= t2 < g.n_syms && g.is_terminal@[t2]
                && #[trigger] is_reduce_candidate(*g, *sp, a, la@, s2, t2, r2) && (exists|
                rr: int,
            |
                #[trigger] is_reduce_candidate(*g, *sp, a, la@, s2, t2, rr) && rr < r2)
                implies exists|k: int|
                0 <= k < r.conflicts@.len() && (#[trigger] r.conflicts@[k]).state == s2
                    && r.conflicts@[k].terminal == t2 && r.conflicts@[k].kind
                    == ConflictKind::ReduceReduce && discarded_rule(r.conflicts@[k]) == r2 by {
            let k = choose|k: int|
                0 <= k < conflicts_view.len() && (#[trigger] conflicts_view[k]).state == s2
                    && conflicts_view[k].terminal == t2 && conflicts_view[k].kind
                    == ConflictKind::ReduceReduce && discarded_rule(conflicts_view[k]) == r2;
            assert(r.conflicts@[k] == conflicts_view[k]);
        }
    }
    r
}

/// A nonempty candidate set has an earliest-declared member.
pub proof fn lemma_min_candidate(
    g: AugGrammar,
    sp: ItemSpace,
    a: Lr0,
    la: Seq<Vec<bool>>,
    s: int,
    t: int,
    r2: int,
)
    requires
        is_reduce_candidate(g, sp, a, la, s, t, r2),
    ensures
        exists|rr: int|
            #[trigger] is_reduce_candidate(g, sp, a, la, s, t, rr) && (forall|r3: int|
                #[trigger] is_reduce_candidate(g, sp, a, la, s, t, r3) ==> rr <= r3),
    decreases r2,
{
    if exists|r3: int| 0 <= r3 < r2 && #[trigger] is_reduce_candidate(g, sp, a, la, s, t, r3) {
        let r3 = choose|r3: int|
            0 <= r3 < r2 && #[trigger] is_reduce_candidate(g, sp, a, la, s, t, r3);
        lemma_min_candidate(g, sp, a, la, s, t, r3);
    } else {
        assert(is_reduce_candidate(g, sp, a, la, s, t, r2) && (forall|r3: int|
            #[trigger] is_reduce_candidate(g, sp, a, la, s, t, r3) ==> r2 <= r3));
    }
}

/// The resolved table is deterministic: the candidates and the declared
/// precedences determine each ACTION entry completely, so two tables built
/// from the same automaton, lookaheads and precedence declarations agree
/// cell for cell.
pub proof fn lemma_action_entry_unique(
    g: AugGrammar,
    sp: ItemSpace,
    table: SymbolTable,
    a: Lr0,
    la: Seq<Vec<bool>>,
    act1: Action,
    act2: Action,
    s: int,
    t: int,
)
    requires
        0 <= t < g.n_syms,
        cell_sound(g, sp, table, a, la, act1, s, t),
        cell_sound(g, sp, table, a, la, act2, s, t),
    ensures
        act1 == act2,
{
    if g.is_terminal@[t] {
        if exists|r2: int| #[trigger] is_reduce_candidate(g, sp, a, la, s, t, r2) {
            let r2 = choose|r2: int| #[trigger] is_reduce_candidate(g, sp, a, la, s, t, r2);
            lemma_min_candidate(g, sp, a, la, s, t, r2);
            let rr = choose|rr: int|
                #[trigger] is_reduce_candidate(g, sp, a, la, s, t, rr) && (forall|r3: int|
                    #[trigger] is_reduce_candidate(g, sp, a, la, s, t, r3) ==> rr <= r3);
            match a.gotos@[s]@[t] {
                Some(n) => {
                    assert(act1 == (match spec_resolve_sr(spec_sym_prec(table, t),
                        spec_rule_prec(g, table, rr)) {
                        SrChoice::ReduceByPrec => reduce_action(rr),
                        SrChoice::ReduceByAssoc => reduce_action(rr),
                        SrChoice::ErrorNonAssoc => Action::Error,
                        SrChoice::ShiftByPrec => Action::Shift(n),
                        SrChoice::ShiftByAssoc => Action::Shift(n),
                        SrChoice::ShiftByDefault => Action::Shift(n),
                    }));
                },
                None => {
                    assert(act1 == reduce_action(rr));
                    assert(act2 == reduce_action(rr));
                },
            }
        } else {
            match a.gotos@[s]@[t] {
                Some(n) => {
                    assert(act1 == Action::Shift(n));
                    assert(act2 == Action::Shift(n));
                },
                None => {
                    assert(act1 == Action::Error);
                    assert(act2 == Action::Error);
                },
            }
        }
    } else {
        assert(act1 == Action::Error);
        assert(act2 == Action::Error);
    }
}

} // verus!
