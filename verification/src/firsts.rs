//! FIRST sets and nullability, computed by monotone fixed-point iteration.
//! The result is proved to be the least assignment closed under the defining
//! rules: it contains nothing spurious and misses nothing.

use vstd::prelude::*;

use crate::augment::AugGrammar;
use crate::fixpoint::count_matrix;
use crate::fixpoint::count_row;
use crate::fixpoint::lemma_count_matrix_le;
use crate::fixpoint::lemma_count_matrix_set;
use crate::fixpoint::lemma_count_row_bounds;
use crate::fixpoint::lemma_count_row_set;

verus! {

/// `nullable[x]` says whether symbol `x` derives the empty string;
/// `first[x][y]` says whether terminal `y` can begin a derivation of `x`.
pub struct FirstSets {
    pub nullable: Vec<bool>,
    pub first: Vec<Vec<bool>>,
}

pub open spec fn shape(f: FirstSets, ns: int) -> bool {
    &&& f.nullable@.len() == ns
    &&& f.first@.len() == ns
    &&& forall|x: int| 0 <= x < ns ==> (#[trigger] f.first@[x])@.len() == ns
}

/// Every symbol of `rhs[i..j)` is nullable under `f`.
pub open spec fn seq_nullable(f: FirstSets, rhs: Seq<usize>, i: int, j: int) -> bool {
    forall|k: int| i <= k < j ==> f.nullable@[(#[trigger] rhs[k]) as int]
}

/// Each terminal begins itself.
pub open spec fn seeds(g: AugGrammar, f: FirstSets) -> bool {
    forall|t: int| 0 <= t < g.n_syms && g.is_terminal@[t] ==> (#[trigger] f.first@[t])@[t]
}

/// Rule `r` forces nothing more into FIRST of its left-hand side: whenever a
/// right-hand-side symbol is reachable across a nullable prefix, its FIRST
/// entries are already present.
pub open spec fn rule_first_closed(g: AugGrammar, f: FirstSets, r: int) -> bool {
    forall|i: int, y: int|
        0 <= i < g.rules@[r].rhs@.len() && 0 <= y < g.n_syms && seq_nullable(f,
            g.rules@[r].rhs@, 0, i) && (#[trigger] f.first@[g.rules@[r].rhs@[i] as int]@[y])
            ==> f.first@[g.rules@[r].lhs as int]@[y]
}

/// Rule `r` forces no new nullability: a fully nullable right-hand side
/// already makes the left-hand side nullable.
pub open spec fn rule_nullable_closed(g: AugGrammar, f: FirstSets, r: int) -> bool {
    seq_nullable(f, g.rules@[r].rhs@, 0, g.rules@[r].rhs@.len() as int)
        ==> f.nullable@[g.rules@[r].lhs as int]
}

/// `f` is a fixed point of the FIRST/nullable equations.
pub open spec fn closed(g: AugGrammar, f: FirstSets) -> bool {
    &&& seeds(g, f)
    &&& forall|r: int| 0 <= r < g.rules@.len() ==> #[trigger] rule_first_closed(g, f, r)
    &&& forall|r: int| 0 <= r < g.rules@.len() ==> #[trigger] rule_nullable_closed(g, f, r)
}

/// Pointwise inclusion of assignments.
pub open spec fn leq(a: FirstSets, b: FirstSets, ns: int) -> bool {
    &&& forall|x: int| 0 <= x < ns && (#[trigger] a.nullable@[x]) ==> b.nullable@[x]
    &&& forall|x: int, y: int|
        0 <= x < ns && 0 <= y < ns && (#[trigger] a.first@[x]@[y]) ==> b.first@[x]@[y]
}

/// `f` lies below every closed assignment: nothing in it is spurious.
pub open spec fn below_every_closed(g: AugGrammar, f: FirstSets) -> bool {
    forall|f2: FirstSets|
        shape(f2, g.n_syms as int) && #[trigger] closed(g, f2) ==> leq(f, f2, g.n_syms as int)
}

pub open spec fn spec_total(f: FirstSets, ns: int) -> int {
    count_row(f.nullable@, ns) + count_matrix(f.first@, ns, ns)
}

/// The bottom assignment: no symbol nullable, each terminal beginning
/// exactly itself.
fn init_first(g: &AugGrammar) -> (f: FirstSets)
    requires
        g.wf(),
    ensures
        shape(f, g.n_syms as int),
        forall|x: int| 0 <= x < g.n_syms ==> !(#[trigger] f.nullable@[x]),
        forall|x: int, y: int|
            0 <= x < g.n_syms && 0 <= y < g.n_syms
                ==> (#[trigger] f.first@[x]@[y]) == (g.is_terminal@[x] && x == y),
{
    let ns = g.n_syms;
    let mut nullable: Vec<bool> = Vec::new();
    let mut first: Vec<Vec<bool>> = Vec::new();
    let mut x: usize = 0;
    while x < ns
        invariant
            x <= ns,
            ns == g.n_syms,
            g.wf(),
            nullable@.len() == x,
            first@.len() == x,
            forall|i: int| 0 <= i < x ==> !(#[trigger] nullable@[i]),
            forall|i: int| 0 <= i < x ==> (#[trigger] first@[i])@.len() == ns,
            forall|i: int, y: int|
                0 <= i < x && 0 <= y < ns
                    ==> (#[trigger] first@[i]@[y]) == (g.is_terminal@[i] && i == y),
        decreases ns - x,
    {
        nullable.push(false);
        let mut row: Vec<bool> = Vec::new();
        let mut y: usize = 0;
        while y < ns
            invariant
                y <= ns,
                x < ns,
                ns == g.n_syms,
                g.wf(),
                row@.len() == y,
                forall|j: int|
                    0 <= j < y
                        ==> (#[trigger] row@[j]) == (g.is_terminal@[x as int] && x == j),
            decreases ns - y,
        {
            row.push(g.is_terminal[x] && y == x);
            y += 1;
        }
        first.push(row);
        x += 1;
    }
    FirstSets { nullable, first }
}

/// One full sweep of the fixed-point iteration.  Monotone; reports whether
/// anything grew; a quiet sweep certifies closedness.
fn first_pass(g: &AugGrammar, f: &mut FirstSets) -> (changed: bool)
    requires
        g.wf(),
        shape(*old(f), g.n_syms as int),
        seeds(*g, *old(f)),
        below_every_closed(*g, *old(f)),
    ensures
        shape(*final(f), g.n_syms as int),
        seeds(*g, *final(f)),
        below_every_closed(*g, *final(f)),
        leq(*old(f), *final(f), g.n_syms as int),
        !changed ==> *final(f) == *old(f) && closed(*g, *final(f)),
        changed ==> spec_total(*final(f), g.n_syms as int) > spec_total(*old(f),
            g.n_syms as int),
{
    let ns = g.n_syms;
    let n_rules = g.rules.len();
    let ghost f0 = *f;
    let mut changed = false;
    let mut r: usize = 0;
    while r < n_rules
        invariant
            r <= n_rules,
            ns == g.n_syms,
            n_rules == g.rules@.len(),
            g.wf(),
            shape(*f, ns as int),
            seeds(*g, *f),
            below_every_closed(*g, *f),
            leq(f0, *f, ns as int),
            changed ==> spec_total(*f, ns as int) > spec_total(f0, ns as int),
            !changed ==> *f == f0 && (forall|rq: int|
                0 <= rq < r ==> #[trigger] rule_first_closed(*g, *f, rq)) && (forall|rq: int|
                0 <= rq < r ==> #[trigger] rule_nullable_closed(*g, *f, rq)),
        decreases n_rules - r,
    {
        let lhs = g.rules[r].lhs;
        let rhs_len = g.rules[r].rhs.len();
        assert(g.rule_ok(r as int));
        let mut prefix_nullable = true;
        let mut i: usize = 0;
        while i < rhs_len
            invariant
                i <= rhs_len,
                r < n_rules,
                ns == g.n_syms,
                n_rules == g.rules@.len(),
                g.wf(),
                lhs == g.rules@[r as int].lhs,
                lhs < ns,
                rhs_len == g.rules@[r as int].rhs@.len(),
                shape(*f, ns as int),
                seeds(*g, *f),
                below_every_closed(*g, *f),
                leq(f0, *f, ns as int),
                prefix_nullable == seq_nullable(*f, g.rules@[r as int].rhs@, 0, i as int),
                changed ==> spec_total(*f, ns as int) > spec_total(f0, ns as int),
                !changed ==> *f == f0 && (forall|rq: int|
                    0 <= rq < r ==> #[trigger] rule_first_closed(*g, *f, rq)) && (forall|rq: int|
                    0 <= rq < r ==> #[trigger] rule_nullable_closed(*g, *f, rq)) && (forall|
                    i2: int,
                    y2: int,
                |
                    0 <= i2 < i && 0 <= y2 < ns && seq_nullable(*f, g.rules@[r as int].rhs@, 0,
                        i2) && (#[trigger] f.first@[g.rules@[r as int].rhs@[i2] as int]@[y2])
                        ==> f.first@[lhs as int]@[y2]),
            decreases rhs_len - i,
        {
            if prefix_nullable {
                assert(g.rule_ok(r as int));
                let sym = g.rules[r].rhs[i];
                let mut y: usize = 0;
                while y < ns
                    invariant
                        y <= ns,
                        i < rhs_len,
                        r < n_rules,
                        ns == g.n_syms,
                        n_rules == g.rules@.len(),
                        g.wf(),
                        lhs == g.rules@[r as int].lhs,
                        lhs < ns,
                        sym == g.rules@[r as int].rhs@[i as int],
                        sym < ns,
                        rhs_len == g.rules@[r as int].rhs@.len(),
                        shape(*f, ns as int),
                        seeds(*g, *f),
                        below_every_closed(*g, *f),
                        leq(f0, *f, ns as int),
                        prefix_nullable,
                        seq_nullable(*f, g.rules@[r as int].rhs@, 0, i as int),
                        changed ==> spec_total(*f, ns as int) > spec_total(f0, ns as int),
                        !changed ==> *f == f0 && (forall|rq: int|
                            0 <= rq < r ==> #[trigger] rule_first_closed(*g, *f, rq)) && (forall|
                            rq: int,
                        |
                            0 <= rq < r ==> #[trigger] rule_nullable_closed(*g, *f, rq)) && (
                        forall|i2: int, y2: int|
                            0 <= i2 < i && 0 <= y2 < ns && seq_nullable(*f,
                                g.rules@[r as int].rhs@, 0, i2) && (
                            #[trigger] f.first@[g.rules@[r as int].rhs@[i2] as int]@[y2])
                                ==> f.first@[lhs as int]@[y2]) && (forall|y2: int|
                            0 <= y2 < y && (#[trigger] f.first@[sym as int]@[y2])
                                ==> f.first@[lhs as int]@[y2]),
                    decreases ns - y,
                {
                    let has = f.first[sym][y];
                    let got = f.first[lhs][y];
                    if has && !got {
                        let ghost prev = *f;
                        f.first[lhs][y] = true;
                        changed = true;
                        proof {
                            lemma_count_matrix_set(prev.first@, f.first@, ns as int, ns as int,
                                lhs as int, y as int);
                            assert forall|f2: FirstSets|
                                shape(f2, g.n_syms as int) && #[trigger] closed(*g, f2)
                                    implies leq(*f, f2, g.n_syms as int) by {
                                assert(leq(prev, f2, g.n_syms as int));
                                assert(g.rule_ok(r as int));
                                assert forall|k: int|
                                    0 <= k < i implies f2.nullable@[(g.rules@[
                                r as int].rhs@[k]) as int] by {
                                    assert(prev.nullable@[(g.rules@[r as int].rhs@[k]) as int]);
                                    assert((g.rules@[r as int].rhs@[k]) < ns);
                                }
                                assert(seq_nullable(f2, g.rules@[r as int].rhs@, 0, i as int));
                                assert(f2.first@[g.rules@[r as int].rhs@[i as int] as int]@[y as int]);
                                assert(rule_first_closed(*g, f2, r as int));
                                assert(f2.first@[g.rules@[r as int].lhs as int]@[y as int]);
                            }
                        }
                    }
                    y += 1;
                }
                if !f.nullable[sym] {
                    prefix_nullable = false;
                }
            }
            i += 1;
        }
        if prefix_nullable {
            let already = f.nullable[lhs];
            if !already {
                let ghost prev = *f;
                f.nullable[lhs] = true;
                changed = true;
                proof {
                    lemma_count_row_set(prev.nullable@, f.nullable@, ns as int, lhs as int);
                    assert forall|f2: FirstSets|
                        shape(f2, g.n_syms as int) && #[trigger] closed(*g, f2) implies leq(*f,
                        f2, g.n_syms as int) by {
                        assert(leq(prev, f2, g.n_syms as int));
                        assert(g.rule_ok(r as int));
                        assert forall|k: int|
                            0 <= k < rhs_len implies f2.nullable@[(g.rules@[
                        r as int].rhs@[k]) as int] by {
                            assert(prev.nullable@[(g.rules@[r as int].rhs@[k]) as int]);
                            assert((g.rules@[r as int].rhs@[k]) < ns);
                        }
                        assert(seq_nullable(f2, g.rules@[r as int].rhs@, 0, rhs_len as int));
                        assert(rule_nullable_closed(*g, f2, r as int));
                        assert(f2.nullable@[g.rules@[r as int].lhs as int]);
                    }
                    assert(seq_nullable(*f, g.rules@[r as int].rhs@, 0, rhs_len as int));
                }
            }
        }
        proof {
            if !changed {
                assert(rule_first_closed(*g, *f, r as int));
                assert(rule_nullable_closed(*g, *f, r as int));
            }
        }
        r += 1;
    }
    changed
}

/// FIRST sets and nullability of every symbol: the least fixed point of the
/// standard equations, reached because the sets grow monotonically inside a
/// finite universe.
pub fn compute_first(g: &AugGrammar) -> (f: FirstSets)
    requires
        g.wf(),
    ensures
        shape(f, g.n_syms as int),
        closed(*g, f),
        below_every_closed(*g, f),
{
    let ns = g.n_syms;
    let mut f = init_first(g);
    proof {
        assert forall|f2: FirstSets|
            shape(f2, g.n_syms as int) && #[trigger] closed(*g, f2) implies leq(f, f2,
            g.n_syms as int) by {
            assert forall|x: int, y: int|
                0 <= x < ns && 0 <= y < ns && (#[trigger] f.first@[x]@[y])
                    implies f2.first@[x]@[y] by {
                assert(g.is_terminal@[x] && x == y);
            }
        }
    }
    let mut changed = true;
    while changed
        invariant
            ns == g.n_syms,
            g.wf(),
            shape(f, ns as int),
            seeds(*g, f),
            below_every_closed(*g, f),
            !changed ==> closed(*g, f),
        decreases (ns + ns * ns - spec_total(f, ns as int)), (if changed {
            1int
        } else {
            0int
        }),
    {
        proof {
            lemma_count_row_bounds(f.nullable@, ns as int);
            lemma_count_matrix_le(f.first@, ns as int, ns as int);
        }
        let ghost before = spec_total(f, ns as int);
        changed = first_pass(g, &mut f);
        proof {
            lemma_count_row_bounds(f.nullable@, ns as int);
            lemma_count_matrix_le(f.first@, ns as int, ns as int);
            if ns > 0 {
                assert(ns * ns >= 0) by (nonlinear_arith)
                    requires ns > 0;
            }
        }
    }
    f
}

/// The least fixed point is unique: any two assignments that are closed and
/// lie below every closed assignment agree bit for bit.  With the
/// construction a pure function of the rule list, the FIRST stage therefore
/// gives the same sets on every run over the same declarations.
pub proof fn lemma_first_sets_unique(g: AugGrammar, f1: FirstSets, f2: FirstSets)
    requires
        shape(f1, g.n_syms as int),
        shape(f2, g.n_syms as int),
        closed(g, f1),
        closed(g, f2),
        below_every_closed(g, f1),
        below_every_closed(g, f2),
    ensures
        forall|x: int| 0 <= x < g.n_syms ==> f1.nullable@[x] == f2.nullable@[x],
        forall|x: int, y: int|
            0 <= x < g.n_syms && 0 <= y < g.n_syms ==> f1.first@[x]@[y] == f2.first@[x]@[y],
{
    assert(leq(f1, f2, g.n_syms as int));
    assert(leq(f2, f1, g.n_syms as int));
}

} // verus!
