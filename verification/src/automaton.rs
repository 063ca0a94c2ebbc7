//! The LALR(1) automaton: the canonical LR(0) collection of item sets,
//! deduplicated by kernel, with lookahead sets computed afterwards by an
//! iterated fixed point over spontaneous generation and propagation edges.

use vstd::prelude::*;

use crate::augment::AugGrammar;
use crate::firsts::FirstSets;
use crate::fixpoint::count_row;
use crate::fixpoint::count_matrix;
use crate::fixpoint::lemma_count_matrix_le;
use crate::fixpoint::lemma_count_matrix_set;
use crate::fixpoint::lemma_count_row_bounds;
use crate::fixpoint::lemma_count_row_set;

verus! {

/// A hard ceiling on the number of automaton states, so that the worklist
/// over interned kernels is a bounded loop.
pub const MAX_STATES: usize = 1048576;

/// Items are numbered consecutively: rule 0's positions first, then rule
/// 1's, and so on; an item is a rule paired with a dot position, and the
/// positions of one rule are adjacent numbers.
pub struct ItemSpace {
    pub base: Vec<usize>,
    pub item_rule: Vec<usize>,
    pub item_dot: Vec<usize>,
    pub n_items: usize,
}

/// How many items the first `r` rules contribute.
pub open spec fn items_before(g: AugGrammar, r: int) -> int
    decreases r,
{
    if r <= 0 {
        0
    } else {
        items_before(g, r - 1) + g.rules@[r - 1].rhs@.len() + 1
    }
}

pub proof fn lemma_items_before_mono(g: AugGrammar, a: int, b: int)
    requires
        0 <= a <= b,
    ensures
        items_before(g, a) <= items_before(g, b),
    decreases b - a,
{
    if a < b {
        lemma_items_before_mono(g, a, b - 1);
    }
}

impl ItemSpace {
    /// The item id of rule `r` with the dot at `d`.
    pub open spec fn id_of(&self, r: int, d: int) -> int {
        self.base@[r] + d
    }

    pub open spec fn rule_of(&self, id: int) -> int {
        self.item_rule@[id] as int
    }

    pub open spec fn dot_of(&self, id: int) -> int {
        self.item_dot@[id] as int
    }

    pub open spec fn wf(&self, g: AugGrammar) -> bool {
        &&& self.base@.len() == g.rules@.len()
        &&& self.item_rule@.len() == self.n_items
        &&& self.item_dot@.len() == self.n_items
        &&& self.n_items == items_before(g, g.rules@.len() as int)
        &&& forall|r: int| 0 <= r < g.rules@.len() ==> (#[trigger] self.base@[r]) == items_before(g, r)
        &&& forall|id: int|
            0 <= id < self.n_items ==> 0 <= #[trigger] self.rule_of(id) < g.rules@.len()
        &&& forall|id: int|
            0 <= id < self.n_items ==> 0 <= #[trigger] self.dot_of(id)
                <= g.rules@[self.rule_of(id)].rhs@.len()
        &&& forall|id: int|
            0 <= id < self.n_items ==> self.id_of(#[trigger] self.rule_of(id), self.dot_of(id))
                == id
        &&& forall|r: int|
            0 <= r < g.rules@.len() ==> (#[trigger] self.base@[r]) + g.rules@[r].rhs@.len()
                < self.n_items
    }

    /// `id_of` and the rule/dot maps invert each other.
    pub proof fn lemma_id_of_inverse(&self, g: AugGrammar, r: int, d: int)
        requires
            self.wf(g),
            0 <= r < g.rules@.len(),
            0 <= d <= g.rules@[r].rhs@.len(),
        ensures
            0 <= self.id_of(r, d) < self.n_items,
            self.rule_of(self.id_of(r, d)) == r,
            self.dot_of(self.id_of(r, d)) == d,
    {
        let id = self.id_of(r, d);
        assert(0 <= id < self.n_items);
        let rr = self.rule_of(id);
        let dd = self.dot_of(id);
        assert(self.base@[rr] + dd == id);
        if rr < r {
            lemma_items_before_mono(g, rr + 1, r);
            assert(items_before(g, rr + 1) == items_before(g, rr) + g.rules@[rr].rhs@.len() + 1);
            assert(false);
        } else if rr > r {
            lemma_items_before_mono(g, r + 1, rr);
            assert(items_before(g, r + 1) == items_before(g, r) + g.rules@[r].rhs@.len() + 1);
            assert(false);
        }
    }

    /// Number the items of every rule; refused only when the item universe
    /// itself does not fit in the address space.
    pub fn build(g: &AugGrammar) -> (r: Result<ItemSpace, CapacityError>)
        requires
            g.wf(),
        ensures
            match r {
                Ok(sp) => sp.wf(*g),
                Err(e) => e == CapacityError::TooManyItems && items_before(*g,
                    g.rules@.len() as int) > usize::MAX,
            },
    {
        let n_rules = g.rules.len();
        let mut base: Vec<usize> = Vec::new();
        let mut item_rule: Vec<usize> = Vec::new();
        let mut item_dot: Vec<usize> = Vec::new();
        let mut next: usize = 0;
        let mut r: usize = 0;
        while r < n_rules
            invariant
                r <= n_rules,
                n_rules == g.rules@.len(),
                g.wf(),
                base@.len() == r,
                next == items_before(*g, r as int),
                item_rule@.len() == next,
                item_dot@.len() == next,
                forall|q: int| 0 <= q < r ==> (#[trigger] base@[q]) == items_before(*g, q),
                forall|id: int|
                    0 <= id < next ==> 0 <= (#[trigger] item_rule@[id]) < r,
                forall|id: int|
                    0 <= id < next ==> 0 <= (#[trigger] item_dot@[id])
                        <= g.rules@[item_rule@[id] as int].rhs@.len(),
                forall|id: int|
                    0 <= id < next ==> base@[(#[trigger] item_rule@[id]) as int]
                        + item_dot@[id] == id,
                forall|q: int|
                    0 <= q < r ==> (#[trigger] base@[q]) + g.rules@[q].rhs@.len() < next,
            decreases n_rules - r,
        {
            let rhs_len = g.rules[r].rhs.len();
            match rhs_len.checked_add(1) {
                Some(count) => {
                    match next.checked_add(count) {
                        Some(_) => {},
                        None => {
                            proof {
                                assert(items_before(*g, r + 1) == next + rhs_len + 1);
                                lemma_items_before_mono(*g, r + 1, n_rules as int);
                            }
                            return Err(CapacityError::TooManyItems);
                        },
                    }
                },
                None => {
                    proof {
                        assert(items_before(*g, r + 1) == next + rhs_len + 1);
                        lemma_items_before_mono(*g, r + 1, n_rules as int);
                    }
                    return Err(CapacityError::TooManyItems);
                },
            }
            base.push(next);
            let mut d: usize = 0;
            while d <= rhs_len
                invariant
                    d <= rhs_len + 1,
                    r < n_rules,
                    n_rules == g.rules@.len(),
                    g.wf(),
                    rhs_len == g.rules@[r as int].rhs@.len(),
                    base@.len() == r + 1,
                    base@[r as int] == next,
                    next == items_before(*g, r as int),
                    next + rhs_len + 1 <= usize::MAX,
                    item_rule@.len() == next + d,
                    item_dot@.len() == next + d,
                    forall|q: int| 0 <= q < r + 1 ==> (#[trigger] base@[q]) == items_before(*g, q),
                    forall|id: int|
                        0 <= id < next + d ==> 0 <= (#[trigger] item_rule@[id]) <= r,
                    forall|id: int|
                        0 <= id < next + d ==> 0 <= (#[trigger] item_dot@[id])
                            <= g.rules@[item_rule@[id] as int].rhs@.len(),
                    forall|id: int|
                        0 <= id < next + d ==> base@[(#[trigger] item_rule@[id]) as int]
                            + item_dot@[id] == id,
                    forall|id: int|
                        next <= id < next + d ==> (#[trigger] item_rule@[id]) == r,
                    forall|q: int|
                        0 <= q < r ==> (#[trigger] base@[q]) + g.rules@[q].rhs@.len() < next,
                decreases rhs_len + 1 - d,
            {
                item_rule.push(r);
                item_dot.push(d);
                d += 1;
            }
            next = next + rhs_len + 1;
            r += 1;
        }
        Ok(ItemSpace { base, item_rule, item_dot, n_items: next })
    }
}

/// Construction ran into a machine-size ceiling.
#[derive(Debug)]
pub enum CapacityError {
    TooManyItems,
    TooManyStates,
}

/// A vector of `n` cleared flags.
pub fn falses(n: usize) -> (r: Vec<bool>)
    ensures
        r@.len() == n,
        forall|i: int| 0 <= i < n ==> !(#[trigger] r@[i]),
{
    let mut r: Vec<bool> = Vec::new();
    let mut i: usize = 0;
    while i < n
        invariant
            i <= n,
            r@.len() == i,
            forall|j: int| 0 <= j < i ==> !(#[trigger] r@[j]),
        decreases n - i,
    {
        r.push(false);
        i += 1;
    }
    r
}

pub fn bools_equal(a: &Vec<bool>, b: &Vec<bool>) -> (r: bool)
    requires
        a@.len() == b@.len(),
    ensures
        r <==> a@ == b@,
{
    let n = a.len();
    let mut i: usize = 0;
    while i < n
        invariant
            i <= n,
            n == a@.len(),
            n == b@.len(),
            forall|j: int| 0 <= j < i ==> a@[j] == b@[j],
        decreases n - i,
    {
        if a[i] != b[i] {
            assert(a@[i as int] != b@[i as int]);
            return false;
        }
        i += 1;
    }
    proof {
        assert(a@ =~= b@);
    }
    true
}

pub fn any_bit(v: &Vec<bool>) -> (r: bool)
    ensures
        r <==> exists|i: int| 0 <= i < v@.len() && v@[i],
{
    let n = v.len();
    let mut i: usize = 0;
    while i < n
        invariant
            i <= n,
            n == v@.len(),
            forall|j: int| 0 <= j < i ==> !(#[trigger] v@[j]),
        decreases n - i,
    {
        if v[i] {
            return true;
        }
        i += 1;
    }
    false
}

/// The item set `items` contains every item its members demand: behind a dot
/// standing before a nonterminal, every alternative of that nonterminal is
/// present at dot zero.
pub open spec fn closure_closed(g: AugGrammar, sp: ItemSpace, items: Seq<bool>) -> bool {
    forall|id: int, r2: int|
        0 <= id < sp.n_items && 0 <= r2 < g.rules@.len() && (#[trigger] items[id]) && sp.dot_of(
            id) < g.rules@[sp.rule_of(id)].rhs@.len() && (#[trigger] g.rules@[r2]).lhs
            == g.rules@[sp.rule_of(id)].rhs@[sp.dot_of(id)] ==> items[sp.id_of(r2, 0)]
}

/// Every item of `xs` is an item of `ys`.
pub open spec fn subset_items(xs: Seq<bool>, ys: Seq<bool>, n: int) -> bool {
    forall|id: int| 0 <= id < n && (#[trigger] xs[id]) ==> ys[id]
}

/// `other` holds every alternative of nonterminal `b` at dot zero.
pub open spec fn spawns_all(g: AugGrammar, sp: ItemSpace, other: Seq<bool>, b: int) -> bool {
    forall|r2: int|
        0 <= r2 < g.rules@.len() && (#[trigger] g.rules@[r2]).lhs == b ==> other[sp.id_of(r2,
        0)]
}

/// Every pending nonterminal is forced: any closed superset of the kernel
/// holds all of its alternatives.
pub open spec fn pending_below(
    g: AugGrammar,
    sp: ItemSpace,
    kernel: Seq<bool>,
    pending: Seq<bool>,
) -> bool {
    forall|other: Seq<bool>, b: int|
        #![trigger closure_closed(g, sp, other), pending[b]]
        other.len() == sp.n_items && subset_items(kernel, other, sp.n_items as int)
            && closure_closed(g, sp, other) && 0 <= b < g.n_syms && pending[b] ==> spawns_all(g,
            sp, other, b)
}

/// Epsilon-close a kernel: every nonterminal visible behind a dot brings in
/// all of its alternatives at dot zero, transitively — and nothing more:
/// the result lies inside every closed superset of the kernel.
pub fn closure(g: &AugGrammar, sp: &ItemSpace, kernel: &Vec<bool>) -> (items: Vec<bool>)
    requires
        g.wf(),
        sp.wf(*g),
        kernel@.len() == sp.n_items,
    ensures
        items@.len() == sp.n_items,
        forall|id: int| 0 <= id < sp.n_items && kernel@[id] ==> #[trigger] items@[id],
        forall|id: int|
            0 <= id < sp.n_items && #[trigger] items@[id] ==> kernel@[id] || sp.dot_of(id) == 0,
        closure_closed(*g, *sp, items@),
        forall|other: Seq<bool>|
            other.len() == sp.n_items && subset_items(kernel@, other, sp.n_items as int)
                && #[trigger] closure_closed(*g, *sp, other) ==> subset_items(items@, other,
                sp.n_items as int),
{
    let ns = g.n_syms;
    let n_items = sp.n_items;
    let n_rules = g.rules.len();
    // the nonterminals whose alternatives belong to the closure
    let mut pending = falses(ns);
    let mut i: usize = 0;
    while i < n_items
        invariant
            i <= n_items,
            ns == g.n_syms,
            n_items == sp.n_items,
            g.wf(),
            sp.wf(*g),
            kernel@.len() == sp.n_items,
            pending@.len() == ns,
            forall|id: int|
                0 <= id < i && kernel@[id] && sp.dot_of(id)
                    < g.rules@[sp.rule_of(id)].rhs@.len()
                    ==> pending@[(#[trigger] g.rules@[sp.rule_of(id)].rhs@[sp.dot_of(
                id)]) as int],
            pending_below(*g, *sp, kernel@, pending@),
        decreases n_items - i,
    {
        if kernel[i] {
            assert(0 <= sp.rule_of(i as int) < g.rules@.len());
            let r = sp.item_rule[i];
            let d = sp.item_dot[i];
            assert(g.rule_ok(r as int));
            if d < g.rules[r].rhs.len() {
                let b = g.rules[r].rhs[d];
                let ghost prev = pending@;
                pending[b] = true;
                proof {
                    assert forall|id: int|
                        0 <= id < i + 1 && kernel@[id] && sp.dot_of(id)
                            < g.rules@[sp.rule_of(id)].rhs@.len()
                            implies pending@[(#[trigger] g.rules@[sp.rule_of(id)].rhs@[sp.dot_of(
                    id)]) as int] by {
                        assert(g.rule_ok(sp.rule_of(id)));
                        if id < i {
                            assert(prev[(g.rules@[sp.rule_of(id)].rhs@[sp.dot_of(id)]) as int]);
                        }
                    }
                    assert forall|other: Seq<bool>, b2: int|
                        #![trigger closure_closed(*g, *sp, other), pending@[b2]]
                        other.len() == sp.n_items && subset_items(kernel@, other,
                            sp.n_items as int) && closure_closed(*g, *sp, other) && 0 <= b2
                            < g.n_syms && pending@[b2] implies spawns_all(*g, *sp, other,
                        b2) by {
                        if prev[b2] {
                            assert(spawns_all(*g, *sp, other, b2));
                        } else {
                            assert(b2 == b as int);
                            assert(kernel@[i as int]);
                            assert(other[i as int]);
                            assert forall|r3: int|
                                0 <= r3 < g.rules@.len() && (#[trigger] g.rules@[r3]).lhs == b2
                                    implies other[sp.id_of(r3, 0)] by {
                                assert(g.rules@[sp.rule_of(i as int)].rhs@[sp.dot_of(i as int)]
                                    == b);
                            }
                        }
                    }
                }
            }
        }
        i += 1;
    }
    // transitively: an alternative of a pending nonterminal starts, at dot
    // zero, before its own first symbol
    let mut changed = true;
    while changed
        invariant
            ns == g.n_syms,
            n_rules == g.rules@.len(),
            g.wf(),
            sp.wf(*g),
            kernel@.len() == sp.n_items,
            pending@.len() == ns,
            forall|id: int|
                0 <= id < sp.n_items && kernel@[id] && sp.dot_of(id)
                    < g.rules@[sp.rule_of(id)].rhs@.len()
                    ==> pending@[(#[trigger] g.rules@[sp.rule_of(id)].rhs@[sp.dot_of(
                id)]) as int],
            pending_below(*g, *sp, kernel@, pending@),
            !changed ==> forall|r2: int|
                0 <= r2 < g.rules@.len() && pending@[(#[trigger] g.rules@[r2]).lhs as int]
                    && g.rules@[r2].rhs@.len() > 0 ==> pending@[g.rules@[r2].rhs@[0] as int],
        decreases (ns as int - count_row(pending@, ns as int)), (if changed {
            1int
        } else {
            0int
        }),
    {
        proof {
            lemma_count_row_bounds(pending@, ns as int);
        }
        let ghost before = pending@;
        changed = false;
        let mut r2: usize = 0;
        while r2 < n_rules
            invariant
                r2 <= n_rules,
                ns == g.n_syms,
                n_rules == g.rules@.len(),
                g.wf(),
                sp.wf(*g),
                kernel@.len() == sp.n_items,
                pending@.len() == ns,
                forall|id: int|
                    0 <= id < sp.n_items && kernel@[id] && sp.dot_of(id)
                        < g.rules@[sp.rule_of(id)].rhs@.len()
                        ==> pending@[(#[trigger] g.rules@[sp.rule_of(id)].rhs@[sp.dot_of(
                    id)]) as int],
                pending_below(*g, *sp, kernel@, pending@),
                changed ==> count_row(pending@, ns as int) > count_row(before, ns as int),
                !changed ==> pending@ == before && (forall|rq: int|
                    0 <= rq < r2 && pending@[(#[trigger] g.rules@[rq]).lhs as int]
                        && g.rules@[rq].rhs@.len() > 0 ==> pending@[g.rules@[rq].rhs@[0] as int]),
                count_row(pending@, ns as int) >= count_row(before, ns as int),
            decreases n_rules - r2,
        {
            assert(g.rule_ok(r2 as int));
            let lhs = g.rules[r2].lhs;
            if pending[lhs] && g.rules[r2].rhs.len() > 0 {
                let b = g.rules[r2].rhs[0];
                if !pending[b] {
                    let ghost prev = pending@;
                    pending[b] = true;
                    changed = true;
                    proof {
                        lemma_count_row_set(prev, pending@, ns as int, b as int);
                        assert forall|id: int|
                            0 <= id < sp.n_items && kernel@[id] && sp.dot_of(id)
                                < g.rules@[sp.rule_of(id)].rhs@.len()
                                implies pending@[(#[trigger] g.rules@[sp.rule_of(
                        id)].rhs@[sp.dot_of(id)]) as int] by {
                            assert(g.rule_ok(sp.rule_of(id)));
                            assert(prev[(g.rules@[sp.rule_of(id)].rhs@[sp.dot_of(
                            id)]) as int]);
                        }
                        assert forall|other: Seq<bool>, b2: int|
                            #![trigger closure_closed(*g, *sp, other), pending@[b2]]
                            other.len() == sp.n_items && subset_items(kernel@, other,
                                sp.n_items as int) && closure_closed(*g, *sp, other) && 0 <= b2
                                < g.n_syms && pending@[b2] implies spawns_all(*g, *sp, other,
                            b2) by {
                            if prev[b2] {
                                assert(spawns_all(*g, *sp, other, b2));
                            } else {
                                assert(b2 == b as int);
                                assert(prev[lhs as int]);
                                assert(spawns_all(*g, *sp, other, lhs as int));
                                sp.lemma_id_of_inverse(*g, r2 as int, 0);
                                assert(other[sp.id_of(r2 as int, 0)]);
                                assert forall|r3: int|
                                    0 <= r3 < g.rules@.len() && (#[trigger] g.rules@[r3]).lhs
                                        == b2 implies other[sp.id_of(r3, 0)] by {
                                    assert(g.rules@[sp.rule_of(sp.id_of(r2 as int,
                                        0))].rhs@[sp.dot_of(sp.id_of(r2 as int, 0))] == b);
                                }
                            }
                        }
                    }
                }
            }
            r2 += 1;
        }
        proof {
            lemma_count_row_bounds(pending@, ns as int);
        }
    }
    // assemble the closed item set pointwise
    let mut items: Vec<bool> = Vec::new();
    let mut id: usize = 0;
    while id < n_items
        invariant
            id <= n_items,
            ns == g.n_syms,
            n_items == sp.n_items,
            g.wf(),
            sp.wf(*g),
            kernel@.len() == sp.n_items,
            pending@.len() == ns,
            pending_below(*g, *sp, kernel@, pending@),
            items@.len() == id,
            forall|j: int|
                0 <= j < id
                    ==> (#[trigger] items@[j]) == (kernel@[j] || (sp.dot_of(j) == 0
                    && pending@[g.rules@[sp.rule_of(j)].lhs as int])),
        decreases n_items - id,
    {
        assert(0 <= sp.rule_of(id as int) < g.rules@.len());
        let r = sp.item_rule[id];
        let d = sp.item_dot[id];
        assert(g.rule_ok(r as int));
        let member = kernel[id] || (d == 0 && pending[g.rules[r].lhs]);
        items.push(member);
        id += 1;
    }
    proof {
        assert forall|id2: int, r2: int|
            0 <= id2 < sp.n_items && 0 <= r2 < g.rules@.len() && (#[trigger] items@[id2])
                && sp.dot_of(id2) < g.rules@[sp.rule_of(id2)].rhs@.len() && (
            #[trigger] g.rules@[r2]).lhs == g.rules@[sp.rule_of(id2)].rhs@[sp.dot_of(id2)]
                implies items@[sp.id_of(r2, 0)] by {
            let b = g.rules@[sp.rule_of(id2)].rhs@[sp.dot_of(id2)];
            if kernel@[id2] {
                assert(pending@[b as int]);
            } else {
                assert(sp.dot_of(id2) == 0);
                assert(pending@[g.rules@[sp.rule_of(id2)].lhs as int]);
                assert(pending@[b as int]);
            }
            sp.lemma_id_of_inverse(*g, r2, 0);
            assert(items@[sp.id_of(r2, 0)] == (kernel@[sp.id_of(r2, 0)] || (sp.dot_of(
                sp.id_of(r2, 0)) == 0 && pending@[g.rules@[sp.rule_of(
                sp.id_of(r2, 0))].lhs as int])));
        }
        assert forall|other: Seq<bool>|
            other.len() == sp.n_items && subset_items(kernel@, other, sp.n_items as int)
                && #[trigger] closure_closed(*g, *sp, other) implies subset_items(items@,
            other, sp.n_items as int) by {
            assert forall|id2: int|
                0 <= id2 < sp.n_items && (#[trigger] items@[id2]) implies other[id2] by {
                if !kernel@[id2] {
                    let rl = sp.rule_of(id2);
                    assert(g.rule_ok(rl));
                    assert(sp.dot_of(id2) == 0);
                    assert(pending@[g.rules@[rl].lhs as int]);
                    assert(spawns_all(*g, *sp, other, g.rules@[rl].lhs as int));
                    assert(other[sp.id_of(rl, 0)]);
                    assert(sp.id_of(rl, 0) == id2);
                }
            }
        }
    }
    items
}

/// Item `id` belongs to `goto(items, x)`: its dot has just moved past `x`,
/// and the item with the dot one step earlier is in `items`.
pub open spec fn goto_bit(g: AugGrammar, sp: ItemSpace, items: Seq<bool>, x: int, id: int) -> bool {
    &&& 0 < sp.dot_of(id)
    &&& g.rules@[sp.rule_of(id)].rhs@[sp.dot_of(id) - 1] == x
    &&& items[id - 1]
}

/// The kernel of the state reached from `items` on symbol `x`.
pub fn goto_kernel(g: &AugGrammar, sp: &ItemSpace, items: &Vec<bool>, x: usize) -> (r: Vec<bool>)
    requires
        g.wf(),
        sp.wf(*g),
        items@.len() == sp.n_items,
    ensures
        r@.len() == sp.n_items,
        forall|id: int|
            0 <= id < sp.n_items ==> (#[trigger] r@[id]) == goto_bit(*g, *sp, items@, x as int,
            id),
{
    let n_items = sp.n_items;
    let mut r: Vec<bool> = Vec::new();
    let mut id: usize = 0;
    while id < n_items
        invariant
            id <= n_items,
            n_items == sp.n_items,
            g.wf(),
            sp.wf(*g),
            items@.len() == sp.n_items,
            r@.len() == id,
            forall|j: int|
                0 <= j < id ==> (#[trigger] r@[j]) == goto_bit(*g, *sp, items@, x as int, j),
        decreases n_items - id,
    {
        assert(0 <= sp.rule_of(id as int) < g.rules@.len());
        let rl = sp.item_rule[id];
        let d = sp.item_dot[id];
        assert(g.rule_ok(rl as int));
        let member = if d > 0 {
            g.rules[rl].rhs[d - 1] == x && items[id - 1]
        } else {
            false
        };
        r.push(member);
        id += 1;
    }
    r
}

/// One automaton state: the kernel that identifies it and its closure.
pub struct State {
    pub kernel: Vec<bool>,
    pub items: Vec<bool>,
}

/// The canonical LR(0) collection with its transition function.
pub struct Lr0 {
    pub states: Vec<State>,
    pub gotos: Vec<Vec<Option<usize>>>,
}

/// `ks` holds pairwise-distinct item-set kernels over a universe of
/// `n_items` items.
pub open spec fn distinct_kernels(ks: Seq<Vec<bool>>, n_items: int) -> bool {
    &&& forall|i: int| 0 <= i < ks.len() ==> (#[trigger] ks[i])@.len() == n_items
    &&& forall|i: int, j: int| 0 <= i < j < ks.len() ==> ks[i]@ != ks[j]@
}

/// State `s` is the target of some recorded goto transition.
pub open spec fn reached_in(gotos: Seq<Vec<Option<usize>>>, ns: int, s: int) -> bool {
    exists|s2: int, x: int|
        0 <= s2 < gotos.len() && 0 <= x < ns && (#[trigger] gotos[s2]@[x]) == Some(s as usize)
}

/// State `s` is the target of some entry of the transition row being built.
pub open spec fn in_row(row: Seq<Option<usize>>, s: int) -> bool {
    exists|x2: int| 0 <= x2 < row.len() && (#[trigger] row[x2]) == Some(s as usize)
}

pub open spec fn lr0_wf(g: AugGrammar, sp: ItemSpace, a: Lr0) -> bool {
    &&& 1 <= a.states@.len() <= MAX_STATES
    &&& a.gotos@.len() == a.states@.len()
    &&& forall|s: int|
        0 <= s < a.states@.len() ==> (#[trigger] a.states@[s]).kernel@.len() == sp.n_items
            && a.states@[s].items@.len() == sp.n_items
    &&& forall|s: int, id: int|
        0 <= s < a.states@.len() && 0 <= id < sp.n_items && (#[trigger] a.states@[s].kernel@[id])
            ==> a.states@[s].items@[id]
    &&& forall|s: int, id: int|
        0 <= s < a.states@.len() && 0 <= id < sp.n_items && (#[trigger] a.states@[s].items@[id])
            ==> a.states@[s].kernel@[id] || sp.dot_of(id) == 0
    &&& forall|s: int|
        0 <= s < a.states@.len() ==> closure_closed(g, sp, (#[trigger] a.states@[s]).items@)
    &&& forall|id: int|
        0 <= id < sp.n_items ==> (#[trigger] a.states@[0].kernel@[id]) == (id == sp.id_of(0, 0))
    &&& forall|s: int| 0 <= s < a.gotos@.len() ==> (#[trigger] a.gotos@[s])@.len() == g.n_syms
    &&& forall|s: int, x: int|
        0 <= s < a.states@.len() && 0 <= x < g.n_syms ==> match (#[trigger] a.gotos@[s]@[x]) {
            Some(t) => t < a.states@.len() && (forall|id: int|
                0 <= id < sp.n_items ==> (#[trigger] a.states@[t as int].kernel@[id]) == goto_bit(
                    g, sp, a.states@[s].items@, x, id)),
            None => forall|id: int|
                0 <= id < sp.n_items ==> !(#[trigger] goto_bit(g, sp, a.states@[s].items@, x,
                id)),
        }
    &&& forall|s1: int, s2: int|
        0 <= s1 < s2 < a.states@.len() ==> (#[trigger] a.states@[s1]).kernel@ != (
        #[trigger] a.states@[s2]).kernel@
    &&& forall|s: int| 1 <= s < a.states@.len() ==> #[trigger] reached_in(a.gotos@, g.n_syms
        as int, s)
}

/// Build the canonical collection: start from the closure of the kernel
/// `{S' -> . S}` and intern the goto kernel for every state and symbol,
/// deduplicating states by kernel.
pub fn build_lr0(g: &AugGrammar, sp: &ItemSpace) -> (r: Result<Lr0, CapacityError>)
    requires
        g.wf(),
        sp.wf(*g),
    ensures
        match r {
            Ok(a) => lr0_wf(*g, *sp, a),
            Err(e) => e == CapacityError::TooManyStates && (exists|ks: Seq<Vec<bool>>|
                #[trigger] distinct_kernels(ks, sp.n_items as int) && ks.len() == MAX_STATES
                    + 1),
        },
{
    let n_items = sp.n_items;
    let n_syms = g.n_syms;
    let mut k0 = falses(n_items);
    proof {
        sp.lemma_id_of_inverse(*g, 0, 0);
    }
    let first_id = sp.base[0];
    k0[first_id] = true;
    let items0 = closure(g, sp, &k0);
    let state0 = State { kernel: k0, items: items0 };
    let mut states: Vec<State> = Vec::new();
    states.push(state0);
    let mut gotos: Vec<Vec<Option<usize>>> = Vec::new();
    let mut w: usize = 0;
    while w < states.len()
        invariant
            g.wf(),
            sp.wf(*g),
            n_items == sp.n_items,
            n_syms == g.n_syms,
            w <= states@.len(),
            1 <= states@.len() <= MAX_STATES,
            gotos@.len() == w,
            forall|s: int|
                0 <= s < states@.len() ==> (#[trigger] states@[s]).kernel@.len() == sp.n_items
                    && states@[s].items@.len() == sp.n_items,
            forall|s: int, id: int|
                0 <= s < states@.len() && 0 <= id < sp.n_items && (
                #[trigger] states@[s].kernel@[id]) ==> states@[s].items@[id],
            forall|s: int, id: int|
                0 <= s < states@.len() && 0 <= id < sp.n_items && (
                #[trigger] states@[s].items@[id]) ==> states@[s].kernel@[id] || sp.dot_of(id)
                    == 0,
            forall|s: int|
                0 <= s < states@.len() ==> closure_closed(*g, *sp, (
                #[trigger] states@[s]).items@),
            forall|id: int|
                0 <= id < sp.n_items ==> (#[trigger] states@[0].kernel@[id]) == (id == sp.id_of(
                0, 0)),
            forall|s: int| 0 <= s < gotos@.len() ==> (#[trigger] gotos@[s])@.len() == g.n_syms,
            forall|s: int, x: int|
                0 <= s < w && 0 <= x < g.n_syms ==> match (#[trigger] gotos@[s]@[x]) {
                    Some(t) => t < states@.len() && (forall|id: int|
                        0 <= id < sp.n_items ==> (#[trigger] states@[t as int].kernel@[id])
                            == goto_bit(*g, *sp, states@[s].items@, x, id)),
                    None => forall|id: int|
                        0 <= id < sp.n_items ==> !(#[trigger] goto_bit(*g, *sp,
                        states@[s].items@, x, id)),
                },
            forall|s1: int, s2: int|
                0 <= s1 < s2 < states@.len() ==> (#[trigger] states@[s1]).kernel@ != (
                #[trigger] states@[s2]).kernel@,
            forall|s2: int|
                1 <= s2 < states@.len() ==> #[trigger] reached_in(gotos@, n_syms as int, s2),
        decreases MAX_STATES - w,
    {
        let mut row: Vec<Option<usize>> = Vec::new();
        let mut x: usize = 0;
        while x < n_syms
            invariant
                g.wf(),
                sp.wf(*g),
                n_items == sp.n_items,
                n_syms == g.n_syms,
                w < states@.len(),
                x <= n_syms,
                1 <= states@.len() <= MAX_STATES,
                gotos@.len() == w,
                row@.len() == x,
                forall|s: int|
                    0 <= s < states@.len() ==> (#[trigger] states@[s]).kernel@.len()
                        == sp.n_items && states@[s].items@.len() == sp.n_items,
                forall|s: int, id: int|
                    0 <= s < states@.len() && 0 <= id < sp.n_items && (
                    #[trigger] states@[s].kernel@[id]) ==> states@[s].items@[id],
                forall|s: int, id: int|
                    0 <= s < states@.len() && 0 <= id < sp.n_items && (
                    #[trigger] states@[s].items@[id]) ==> states@[s].kernel@[id] || sp.dot_of(id)
                        == 0,
                forall|s: int|
                    0 <= s < states@.len() ==> closure_closed(*g, *sp, (
                    #[trigger] states@[s]).items@),
                forall|id: int|
                    0 <= id < sp.n_items ==> (#[trigger] states@[0].kernel@[id]) == (id
                        == sp.id_of(0, 0)),
                forall|s: int|
                    0 <= s < gotos@.len() ==> (#[trigger] gotos@[s])@.len() == g.n_syms,
                forall|s: int, x2: int|
                    0 <= s < w && 0 <= x2 < g.n_syms ==> match (#[trigger] gotos@[s]@[x2]) {
                        Some(t) => t < states@.len() && (forall|id: int|
                            0 <= id < sp.n_items ==> (#[trigger] states@[t as int].kernel@[id])
                                == goto_bit(*g, *sp, states@[s].items@, x2, id)),
                        None => forall|id: int|
                            0 <= id < sp.n_items ==> !(#[trigger] goto_bit(*g, *sp,
                            states@[s].items@, x2, id)),
                    },
                forall|x2: int|
                    0 <= x2 < x ==> match (#[trigger] row@[x2]) {
                        Some(t) => t < states@.len() && (forall|id: int|
                            0 <= id < sp.n_items ==> (#[trigger] states@[t as int].kernel@[id])
                                == goto_bit(*g, *sp, states@[w as int].items@, x2, id)),
                        None => forall|id: int|
                            0 <= id < sp.n_items ==> !(#[trigger] goto_bit(*g, *sp,
                            states@[w as int].items@, x2, id)),
                    },
                forall|s1: int, s2: int|
                    0 <= s1 < s2 < states@.len() ==> (#[trigger] states@[s1]).kernel@ != (
                    #[trigger] states@[s2]).kernel@,
                forall|s2: int|
                    1 <= s2 < states@.len() ==> #[trigger] reached_in(gotos@, n_syms as int, s2)
                        || in_row(row@, s2),
            decreases n_syms - x,
        {
            let ghost row_entry = row@;
            let ghost n_states_entry = states@.len();
            let k = goto_kernel(g, sp, &states[w].items, x);
            if !any_bit(&k) {
                row.push(None);
                proof {
                    assert forall|id: int|
                        0 <= id < sp.n_items implies !(#[trigger] goto_bit(*g, *sp,
                    states@[w as int].items@, x as int, id)) by {
                        assert(!k@[id]);
                    }
                }
            } else {
                let mut found: Option<usize> = None;
                let mut t: usize = 0;
                while t < states.len() && found.is_none()
                    invariant
                        t <= states@.len(),
                        k@.len() == sp.n_items,
                        forall|s: int|
                            0 <= s < states@.len() ==> (#[trigger] states@[s]).kernel@.len()
                                == sp.n_items,
                        match found {
                            Some(u) => u < states@.len() && states@[u as int].kernel@ == k@,
                            None => forall|s: int|
                                0 <= s < t ==> (#[trigger] states@[s]).kernel@ != k@,
                        },
                    decreases states@.len() - t, (if found is None {
                        1int
                    } else {
                        0int
                    }),
                {
                    if bools_equal(&states[t].kernel, &k) {
                        found = Some(t);
                    } else {
                        t += 1;
                    }
                }
                match found {
                    Some(u) => {
                        row.push(Some(u));
                        proof {
                            assert forall|id: int|
                                0 <= id < sp.n_items implies (
                            #[trigger] states@[u as int].kernel@[id]) == goto_bit(*g, *sp,
                            states@[w as int].items@, x as int, id) by {
                                assert(states@[u as int].kernel@[id] == k@[id]);
                            }
                        }
                    },
                    None => {
                        if states.len() >= MAX_STATES {
                            proof {
                                let ghost ks = states@.map_values(|st: State| st.kernel).push(
                                    k);
                                assert forall|i: int, j: int|
                                    0 <= i < j < ks.len() implies ks[i]@ != ks[j]@ by {
                                    if j < states@.len() {
                                        assert(ks[i] == states@[i].kernel);
                                        assert(ks[j] == states@[j].kernel);
                                    } else {
                                        assert(ks[i] == states@[i].kernel);
                                        assert(ks[j] == k);
                                        assert(states@[i].kernel@ != k@);
                                    }
                                }
                                assert(distinct_kernels(ks, sp.n_items as int));
                                assert(ks.len() == MAX_STATES + 1);
                            }
                            return Err(CapacityError::TooManyStates);
                        }
                        let items = closure(g, sp, &k);
                        let idx = states.len();
                        let ghost old_states = states@;
                        proof {
                            assert forall|s: int|
                                0 <= s < old_states.len() implies (
                            #[trigger] old_states[s]).kernel@ != k@ by {
                                assert(states@[s].kernel@ != k@);
                            }
                        }
                        states.push(State { kernel: k, items });
                        row.push(Some(idx));
                        proof {
                            assert(row@[row@.len() - 1] == Some(idx));
                            assert(states@.len() == idx + 1);
                            assert(states@[idx as int].kernel@ == k@);
                            assert forall|id: int|
                                0 <= id < sp.n_items implies (
                            #[trigger] states@[idx as int].kernel@[id]) == goto_bit(*g, *sp,
                            states@[w as int].items@, x as int, id) by {
                                assert(k@[id] == goto_bit(*g, *sp, old_states[w as int].items@,
                                    x as int, id));
                            }
                            assert forall|s1: int, s2: int|
                                0 <= s1 < s2 < states@.len() implies (
                            #[trigger] states@[s1]).kernel@ != (#[trigger] states@[s2]).kernel@ by {
                                if s2 == idx {
                                    assert(old_states[s1].kernel@ != k@);
                                } else {
                                    assert(old_states[s1].kernel@ != old_states[s2].kernel@);
                                }
                            }
                        }
                    },
                }
            }
            proof {
                assert forall|s2: int|
                    1 <= s2 < states@.len() implies reached_in(gotos@, n_syms as int, s2)
                    || in_row(row@, s2) by {
                    if s2 < n_states_entry {
                        if !reached_in(gotos@, n_syms as int, s2) {
                            let x2 = choose|x2: int|
                                0 <= x2 < row_entry.len() && (#[trigger] row_entry[x2])
                                    == Some(s2 as usize);
                            assert(row@[x2] == Some(s2 as usize));
                        }
                    } else {
                        assert(row@[row@.len() - 1] == Some(s2 as usize));
                    }
                }
            }
            x += 1;
        }
        let ghost gotos_before = gotos@;
        let ghost row_view = row@;
        gotos.push(row);
        proof {
            assert forall|s2: int|
                1 <= s2 < states@.len() implies reached_in(gotos@, n_syms as int, s2) by {
                if reached_in(gotos_before, n_syms as int, s2) {
                    let (s3, x3) = choose|s3: int, x3: int|
                        0 <= s3 < gotos_before.len() && 0 <= x3 < n_syms && (
                        #[trigger] gotos_before[s3]@[x3]) == Some(s2 as usize);
                    assert(gotos@[s3]@[x3] == Some(s2 as usize));
                } else {
                    let x2 = choose|x2: int|
                        0 <= x2 < row_view.len() && (#[trigger] row_view[x2]) == Some(
                        s2 as usize);
                    assert(gotos@[gotos@.len() - 1]@[x2] == Some(s2 as usize));
                }
            }
        }
        w += 1;
    }
    Ok(Lr0 { states, gotos })
}

/// Set entry `(i, j)` of a boolean matrix, tracking whether anything new
/// was set and how the total count moved.
fn set_bit(
    m: &mut Vec<Vec<bool>>,
    i: usize,
    j: usize,
    changed: &mut bool,
    Ghost(rows): Ghost<int>,
    Ghost(cols): Ghost<int>,
)
    requires
        old(m)@.len() == rows,
        forall|a: int| 0 <= a < rows ==> (#[trigger] old(m)@[a])@.len() == cols,
        i < rows,
        j < cols,
    ensures
        final(m)@.len() == rows,
        forall|a: int| 0 <= a < rows ==> (#[trigger] final(m)@[a])@.len() == cols,
        forall|a: int, b: int|
            0 <= a < rows && 0 <= b < cols ==> (#[trigger] final(m)@[a]@[b]) == (old(m)@[a]@[b]
                || (a == i && b == j)),
        *final(changed) == (*old(changed) || !old(m)@[i as int]@[j as int]),
        count_matrix(final(m)@, rows, cols) == count_matrix(old(m)@, rows, cols) + (
        if old(m)@[i as int]@[j as int] {
            0int
        } else {
            1int
        }),
{
    let already = m[i][j];
    if !already {
        let ghost prev = m@;
        m[i][j] = true;
        *changed = true;
        proof {
            lemma_count_matrix_set(prev, m@, rows, cols, i as int, j as int);
        }
    } else {
        proof {
            assert forall|a: int, b: int|
                0 <= a < rows && 0 <= b < cols implies (#[trigger] m@[a]@[b]) == (m@[a]@[b] || (a
                    == i && b == j)) by {}
        }
    }
}

/// The lookahead row index of item `id` in state `s`.
pub fn slot_of(s: usize, id: usize, n_states: usize, n_items: usize, n_slots: usize) -> (r: usize)
    requires
        s < n_states,
        id < n_items,
        n_slots as int == n_states as int * n_items as int,
    ensures
        r as int == s as int * n_items as int + id as int,
        r < n_slots,
{
    proof {
        assert((s as int) * (n_items as int) + (id as int) < (n_states as int) * (
        n_items as int)) by (nonlinear_arith)
            requires
                s < n_states,
                id < n_items;
        assert(0 <= s as int * n_items as int) by (nonlinear_arith)
            requires
                s < n_states,
                0 <= s;
    }
    s * n_items + id
}

/// The lookahead table has one row per (state, item) slot, one column per
/// symbol, and the end marker seeded on the start state's kernel item.
pub open spec fn la_wf(g: AugGrammar, sp: ItemSpace, a: Lr0, la: Seq<Vec<bool>>) -> bool {
    &&& la.len() == a.states@.len() * sp.n_items
    &&& forall|q: int| 0 <= q < la.len() ==> (#[trigger] la[q])@.len() == g.n_syms
    &&& la[sp.id_of(0, 0)]@[g.end_marker as int]
}

/// Compute the LALR(1) lookahead sets over the merged LR(0) states: the
/// kernel of the start state is seeded with the end marker; a closure step
/// `A -> a . B c` contributes FIRST of `c` to every alternative of `B`
/// (spontaneous generation), plus its own lookaheads when `c` is nullable;
/// and every goto transition propagates an item's lookaheads to the shifted
/// item.  Iterated to a fixed point, which exists because the sets only
/// grow inside a finite universe.
pub fn compute_lookaheads(
    g: &AugGrammar,
    sp: &ItemSpace,
    f: &FirstSets,
    a: &Lr0,
) -> (r: Result<Vec<Vec<bool>>, CapacityError>)
    requires
        g.wf(),
        sp.wf(*g),
        crate::firsts::shape(*f, g.n_syms as int),
        lr0_wf(*g, *sp, *a),
    ensures
        match r {
            Ok(la) => la_wf(*g, *sp, *a, la@),
            Err(e) => e == CapacityError::TooManyStates && a.states@.len() * sp.n_items
                > usize::MAX,
        },
{
    let ns = g.n_syms;
    let n_items = sp.n_items;
    let n_states = a.states.len();
    let n_rules = g.rules.len();
    let n_slots = match n_states.checked_mul(n_items) {
        Some(v) => v,
        None => {
            return Err(CapacityError::TooManyStates);
        },
    };
    let mut la: Vec<Vec<bool>> = Vec::new();
    let mut i: usize = 0;
    while i < n_slots
        invariant
            i <= n_slots,
            ns == g.n_syms,
            la@.len() == i,
            forall|q: int| 0 <= q < i ==> (#[trigger] la@[q])@.len() == ns,
        decreases n_slots - i,
    {
        la.push(falses(ns));
        i += 1;
    }
    proof {
        sp.lemma_id_of_inverse(*g, 0, 0);
    }
    let seed_id = sp.base[0];
    let seed_slot = slot_of(0, seed_id, n_states, n_items, n_slots);
    assert(seed_slot as int == sp.id_of(0, 0));
    let mut dummy = false;
    set_bit(&mut la, seed_slot, g.end_marker, &mut dummy, Ghost(n_slots as int),
        Ghost(ns as int));
    let mut changed = true;
    while changed
        invariant
            ns == g.n_syms,
            n_items == sp.n_items,
            n_states == a.states@.len(),
            n_rules == g.rules@.len(),
            n_slots as int == n_states as int * n_items as int,
            g.wf(),
            sp.wf(*g),
            crate::firsts::shape(*f, g.n_syms as int),
            lr0_wf(*g, *sp, *a),
            la@.len() == n_slots,
            forall|q: int| 0 <= q < n_slots ==> (#[trigger] la@[q])@.len() == ns,
            0 <= sp.id_of(0, 0) < n_slots,
            g.end_marker < ns,
            la@[sp.id_of(0, 0)]@[g.end_marker as int],
        decreases (n_slots as int * ns as int - count_matrix(la@, n_slots as int, ns as int)), (
        if changed {
            1int
        } else {
            0int
        }),
    {
        proof {
            lemma_count_matrix_le(la@, n_slots as int, ns as int);
        }
        let ghost count0 = count_matrix(la@, n_slots as int, ns as int);
        changed = false;
        let mut s: usize = 0;
        while s < n_states
            invariant
                s <= n_states,
                ns == g.n_syms,
                n_items == sp.n_items,
                n_states == a.states@.len(),
                n_rules == g.rules@.len(),
                n_slots as int == n_states as int * n_items as int,
                g.wf(),
                sp.wf(*g),
                crate::firsts::shape(*f, g.n_syms as int),
                lr0_wf(*g, *sp, *a),
                la@.len() == n_slots,
                forall|q: int| 0 <= q < n_slots ==> (#[trigger] la@[q])@.len() == ns,
                0 <= sp.id_of(0, 0) < n_slots,
                g.end_marker < ns,
                la@[sp.id_of(0, 0)]@[g.end_marker as int],
                count_matrix(la@, n_slots as int, ns as int) >= count0,
                changed ==> count_matrix(la@, n_slots as int, ns as int) > count0,
            decreases n_states - s,
        {
            let mut id: usize = 0;
            while id < n_items
                invariant
                    id <= n_items,
                    s < n_states,
                    ns == g.n_syms,
                    n_items == sp.n_items,
                    n_states == a.states@.len(),
                    n_rules == g.rules@.len(),
                    n_slots as int == n_states as int * n_items as int,
                    g.wf(),
                    sp.wf(*g),
                    crate::firsts::shape(*f, g.n_syms as int),
                    lr0_wf(*g, *sp, *a),
                    la@.len() == n_slots,
                    forall|q: int| 0 <= q < n_slots ==> (#[trigger] la@[q])@.len() == ns,
                    0 <= sp.id_of(0, 0) < n_slots,
                    g.end_marker < ns,
                    la@[sp.id_of(0, 0)]@[g.end_marker as int],
                    count_matrix(la@, n_slots as int, ns as int) >= count0,
                    changed ==> count_matrix(la@, n_slots as int, ns as int) > count0,
                decreases n_items - id,
            {
                if a.states[s].items[id] {
                    assert(0 <= sp.rule_of(id as int) < g.rules@.len());
                    let rl = sp.item_rule[id];
                    let d = sp.item_dot[id];
                    assert(g.rule_ok(rl as int));
                    let rhs_len = g.rules[rl].rhs.len();
                    let src = slot_of(s, id, n_states, n_items, n_slots);
                    if d < rhs_len {
                        let xsym = g.rules[rl].rhs[d];
                        // propagation along the goto transition
                        match a.gotos[s][xsym] {
                            Some(tt) => {
                                proof {
                                    sp.lemma_id_of_inverse(*g, rl as int, d + 1);
                                }
                                let dst = slot_of(tt, id + 1, n_states, n_items, n_slots);
                                let mut y: usize = 0;
                                while y < ns
                                    invariant
                                        y <= ns,
                                        src < n_slots,
                                        dst < n_slots,
                                        ns == g.n_syms,
                                        n_slots as int == n_states as int * n_items as int,
                                        la@.len() == n_slots,
                                        forall|q: int|
                                            0 <= q < n_slots ==> (#[trigger] la@[q])@.len() == ns,
                                        0 <= sp.id_of(0, 0) < n_slots,
                                        g.end_marker < ns,
                                        la@[sp.id_of(0, 0)]@[g.end_marker as int],
                                        count_matrix(la@, n_slots as int, ns as int) >= count0,
                                        changed ==> count_matrix(la@, n_slots as int, ns as int)
                                            > count0,
                                    decreases ns - y,
                                {
                                    if la[src][y] {
                                        set_bit(&mut la, dst, y, &mut changed,
                                            Ghost(n_slots as int), Ghost(ns as int));
                                    }
                                    y += 1;
                                }
                            },
                            None => {},
                        }
                        // spontaneous generation into the closure items
                        if !g.is_terminal[xsym] {
                            let mut r2: usize = 0;
                            while r2 < n_rules
                                invariant
                                    r2 <= n_rules,
                                    s < n_states,
                                    id < n_items,
                                    rl == sp.rule_of(id as int),
                                    d == sp.dot_of(id as int),
                                    d < rhs_len,
                                    rhs_len == g.rules@[rl as int].rhs@.len(),
                                    xsym == g.rules@[rl as int].rhs@[d as int],
                                    src < n_slots,
                                    ns == g.n_syms,
                                    n_items == sp.n_items,
                                    n_states == a.states@.len(),
                                    n_rules == g.rules@.len(),
                                    n_slots as int == n_states as int * n_items as int,
                                    g.wf(),
                                    sp.wf(*g),
                                    crate::firsts::shape(*f, g.n_syms as int),
                                    lr0_wf(*g, *sp, *a),
                                    la@.len() == n_slots,
                                    forall|q: int|
                                        0 <= q < n_slots ==> (#[trigger] la@[q])@.len() == ns,
                                    0 <= sp.id_of(0, 0) < n_slots,
                                    g.end_marker < ns,
                                    la@[sp.id_of(0, 0)]@[g.end_marker as int],
                                    count_matrix(la@, n_slots as int, ns as int) >= count0,
                                    changed ==> count_matrix(la@, n_slots as int, ns as int)
                                        > count0,
                                decreases n_rules - r2,
                            {
                                if g.rules[r2].lhs == xsym {
                                    proof {
                                        lemma_items_before_mono(*g, 0, r2 as int);
                                        sp.lemma_id_of_inverse(*g, r2 as int, 0);
                                    }
                                    let dst = slot_of(s, sp.base[r2], n_states, n_items,
                                        n_slots);
                                    let mut all_nullable = true;
                                    let mut j = d + 1;
                                    while j < rhs_len
                                        invariant
                                            d < j <= rhs_len,
                                            id < n_items,
                                            n_items == sp.n_items,
                                            n_rules == g.rules@.len(),
                                            rl < n_rules,
                                            rl == sp.rule_of(id as int),
                                            rhs_len == g.rules@[rl as int].rhs@.len(),
                                            src < n_slots,
                                            dst < n_slots,
                                            ns == g.n_syms,
                                            n_slots as int == n_states as int * n_items as int,
                                            g.wf(),
                                            sp.wf(*g),
                                            crate::firsts::shape(*f, g.n_syms as int),
                                            la@.len() == n_slots,
                                            forall|q: int|
                                                0 <= q < n_slots ==> (#[trigger] la@[q])@.len()
                                                    == ns,
                                            0 <= sp.id_of(0, 0) < n_slots,
                                            g.end_marker < ns,
                                            la@[sp.id_of(0, 0)]@[g.end_marker as int],
                                            count_matrix(la@, n_slots as int, ns as int)
                                                >= count0,
                                            changed ==> count_matrix(la@, n_slots as int,
                                                ns as int) > count0,
                                        decreases rhs_len - j,
                                    {
                                        if all_nullable {
                                            assert(g.rule_ok(rl as int));
                                            let sym2 = g.rules[rl].rhs[j];
                                            let mut y: usize = 0;
                                            while y < ns
                                                invariant
                                                    y <= ns,
                                                    sym2 < ns,
                                                    src < n_slots,
                                                    dst < n_slots,
                                                    ns == g.n_syms,
                                                    n_slots as int == n_states as int
                                                        * n_items as int,
                                                    crate::firsts::shape(*f, g.n_syms as int),
                                                    la@.len() == n_slots,
                                                    forall|q: int|
                                                        0 <= q < n_slots ==> (
                                                        #[trigger] la@[q])@.len() == ns,
                                                    0 <= sp.id_of(0, 0) < n_slots,
                                                    g.end_marker < ns,
                                                    la@[sp.id_of(0, 0)]@[g.end_marker as int],
                                                    count_matrix(la@, n_slots as int, ns as int)
                                                        >= count0,
                                                    changed ==> count_matrix(la@, n_slots as int,
                                                        ns as int) > count0,
                                                decreases ns - y,
                                            {
                                                if f.first[sym2][y] {
                                                    set_bit(&mut la, dst, y, &mut changed,
                                                        Ghost(n_slots as int), Ghost(ns as int));
                                                }
                                                y += 1;
                                            }
                                            if !f.nullable[sym2] {
                                                all_nullable = false;
                                            }
                                        }
                                        j += 1;
                                    }
                                    if all_nullable {
                                        let mut y: usize = 0;
                                        while y < ns
                                            invariant
                                                y <= ns,
                                                src < n_slots,
                                                dst < n_slots,
                                                ns == g.n_syms,
                                                n_slots as int == n_states as int
                                                    * n_items as int,
                                                la@.len() == n_slots,
                                                forall|q: int|
                                                    0 <= q < n_slots ==> (
                                                    #[trigger] la@[q])@.len() == ns,
                                                0 <= sp.id_of(0, 0) < n_slots,
                                                g.end_marker < ns,
                                                la@[sp.id_of(0, 0)]@[g.end_marker as int],
                                                count_matrix(la@, n_slots as int, ns as int)
                                                    >= count0,
                                                changed ==> count_matrix(la@, n_slots as int,
                                                    ns as int) > count0,
                                            decreases ns - y,
                                        {
                                            if la[src][y] {
                                                set_bit(&mut la, dst, y, &mut changed,
                                                    Ghost(n_slots as int), Ghost(ns as int));
                                            }
                                            y += 1;
                                        }
                                    }
                                }
                                r2 += 1;
                            }
                        }
                    }
                }
                id += 1;
            }
            s += 1;
        }
        proof {
            lemma_count_matrix_le(la@, n_slots as int, ns as int);
            assert(0 <= n_slots as int * ns as int) by (nonlinear_arith)
                requires
                    0 <= n_slots,
                    0 <= ns;
        }
    }
    Ok(la)
}

} // verus!
