use vstd::prelude::*;
use crate::graph::{Clause, DepKind, PackageGraph, slot_ok};
use crate::triple::Platform;

verus! {

/// How features of dependencies behind platform conditions are resolved.
#[derive(Clone, Copy, Debug, PartialEq, Eq, Structural)]
pub enum ResolverVersion {
    /// Conditions on dependency edges are ignored: every conditional edge counts.
    V1,
    /// Conditions on dependency edges are evaluated against each platform.
    V2,
}

/// One evaluation context: a platform (an index past the end of the platform list
/// means no platform filter), whether development edges count, and the resolver.
#[derive(Clone, Copy, Debug)]
pub struct Context {
    pub platform: usize,
    pub dev: bool,
    pub resolver: ResolverVersion,
}

/// Whether a rule takes part in a context.
pub open spec fn clause_live(g: PackageGraph, c: Clause, platforms: Seq<Platform>, ctx: Context) -> bool {
    &&& (c.kind != DepKind::Development || ctx.dev)
    &&& match c.cond {
        None => true,
        Some(k) => ctx.resolver == ResolverVersion::V1 || ctx.platform >= platforms.len()
            || g.conds()[k as int].holds(&platforms[ctx.platform as int]),
    }
}

pub open spec fn on(s: Seq<Vec<bool>>, slot: (usize, usize)) -> bool {
    s[slot.0 as int]@[slot.1 as int]
}

/// Whether a state has one row per package, and one entry per slot of it.
pub open spec fn shaped(g: PackageGraph, s: Seq<Vec<bool>>) -> bool {
    &&& s.len() == g.pkgs().len()
    &&& forall|p: int| 0 <= p < s.len() ==> (#[trigger] s[p])@.len() == g.pkgs()[p].features@.len() + 1
}

/// Whether a rule's premises hold in `s`.
pub open spec fn fires(g: PackageGraph, s: Seq<Vec<bool>>, c: Clause, platforms: Seq<Platform>, ctx: Context) -> bool {
    &&& clause_live(g, c, platforms, ctx)
    &&& on(s, c.from)
    &&& (c.gate matches Some(w) ==> on(s, w))
}

/// Whether every rule that fires in `s` has its conclusion on in `s`.
pub open spec fn closed(g: PackageGraph, s: Seq<Vec<bool>>, platforms: Seq<Platform>, ctx: Context) -> bool {
    forall|i: int| 0 <= i < g.rules().len() && fires(g, s, #[trigger] g.rules()[i], platforms, ctx) ==> on(s, g.rules()[i].to)
}

pub open spec fn seeded(s: Seq<Vec<bool>>, seeds: Seq<(usize, usize)>) -> bool {
    forall|k: int| 0 <= k < seeds.len() ==> on(s, #[trigger] seeds[k])
}

/// A slot is enabled in a context when every closed state holding the seeds has it on:
/// the least fixed point of the rules.
pub open spec fn enabled(g: PackageGraph, platforms: Seq<Platform>, ctx: Context, seeds: Seq<(usize, usize)>, p: int, i: int) -> bool {
    forall|t: Seq<Vec<bool>>| shaped(g, t) && closed(g, t, platforms, ctx) && seeded(t, seeds) ==> #[trigger] t[p]@[i]
}

/// Whether `s` is below every closed state that holds the seeds.
pub open spec fn below_models(g: PackageGraph, s: Seq<Vec<bool>>, platforms: Seq<Platform>, ctx: Context, seeds: Seq<(usize, usize)>) -> bool {
    forall|p: int, i: int| 0 <= p < s.len() && 0 <= i < s[p]@.len() && #[trigger] s[p]@[i] ==> enabled(g, platforms, ctx, seeds, p, i)
}

pub open spec fn row_false(r: Seq<bool>) -> nat
    decreases r.len(),
{
    if r.len() == 0 {
        0
    } else {
        row_false(r.drop_last()) + if r.last() { 0nat } else { 1nat }
    }
}

pub open spec fn all_false(s: Seq<Vec<bool>>) -> nat
    decreases s.len(),
{
    if s.len() == 0 {
        0
    } else {
        all_false(s.drop_last()) + row_false(s.last()@)
    }
}

pub proof fn lemma_row_set(r: Seq<bool>, i: int)
    requires
        0 <= i < r.len(),
        !r[i],
    ensures
        row_false(r.update(i, true)) + 1 == row_false(r),
    decreases r.len(),
{
    if i == r.len() - 1 {
        assert(r.update(i, true).drop_last() =~= r.drop_last());
    } else {
        assert(r.update(i, true).drop_last() =~= r.drop_last().update(i, true));
        lemma_row_set(r.drop_last(), i);
    }
}

proof fn lemma_all_set(s: Seq<Vec<bool>>, p: int, x: Vec<bool>)
    requires
        0 <= p < s.len(),
    ensures
        all_false(s.update(p, x)) + row_false(s[p]@) == all_false(s) + row_false(x@),
    decreases s.len(),
{
    if p == s.len() - 1 {
        assert(s.update(p, x).drop_last() =~= s.drop_last());
    } else {
        assert(s.update(p, x).drop_last() =~= s.drop_last().update(p, x));
        lemma_all_set(s.drop_last(), p, x);
    }
}

/// Whether a rule takes part in a context.
pub fn is_live(g: &PackageGraph, c: Clause, platforms: &Vec<Platform>, ctx: Context) -> (r: bool)
    requires
        g.wf(),
        c.cond matches Some(k) ==> k < g.conds().len(),
    ensures
        r == clause_live(*g, c, platforms@, ctx),
{
    if c.kind == DepKind::Development && !ctx.dev {
        return false;
    }
    match c.cond {
        None => true,
        Some(k) => {
            if ctx.resolver == ResolverVersion::V1 || ctx.platform >= platforms.len() {
                true
            } else {
                platforms[ctx.platform].eval_expr(g.condition(k))
            }
        },
    }
}

/// A state with every slot off.
pub(crate) fn empty_state(g: &PackageGraph) -> (r: Vec<Vec<bool>>)
    ensures
        shaped(*g, r@),
        forall|p: int, i: int| 0 <= p < r@.len() && 0 <= i < r@[p]@.len() ==> !#[trigger] r@[p]@[i],
{
    let mut s: Vec<Vec<bool>> = Vec::new();
    let mut p: usize = 0;
    while p < g.num_packages()
        invariant
            p <= g.pkgs().len(),
            s@.len() == p,
            forall|q: int| 0 <= q < p ==> (#[trigger] s@[q])@.len() == g.pkgs()[q].features@.len() + 1,
            forall|q: int, i: int| 0 <= q < s@.len() && 0 <= i < s@[q]@.len() ==> !#[trigger] s@[q]@[i],
        decreases g.pkgs().len() - p,
    {
        let n = g.package(p).features.len();
        let mut row: Vec<bool> = vec![false];
        let mut i: usize = 0;
        while i < n
            invariant
                i <= n,
                row@.len() == i + 1,
                forall|j: int| 0 <= j < row@.len() ==> !#[trigger] row@[j],
            decreases n - i,
        {
            row.push(false);
            i = i + 1;
        }
        s.push(row);
        p = p + 1;
    }
    s
}

/// The least state that holds the seeds and is closed under the rules live in `ctx`.
pub fn propagate(g: &PackageGraph, platforms: &Vec<Platform>, ctx: Context, seeds: &Vec<(usize, usize)>) -> (r: Vec<Vec<bool>>)
    requires
        g.wf(),
        forall|k: int| 0 <= k < seeds@.len() ==> slot_ok(g.pkgs(), #[trigger] seeds@[k]),
    ensures
        shaped(*g, r@),
        closed(*g, r@, platforms@, ctx),
        seeded(r@, seeds@),
        forall|p: int, i: int| 0 <= p < r@.len() && 0 <= i < r@[p]@.len() ==>
            (#[trigger] r@[p]@[i] <==> enabled(*g, platforms@, ctx, seeds@, p, i)),
{
    let mut s = empty_state(g);
    let mut k: usize = 0;
    while k < seeds.len()
        invariant
            g.wf(),
            forall|x: int| 0 <= x < seeds@.len() ==> slot_ok(g.pkgs(), #[trigger] seeds@[x]),
            k <= seeds@.len(),
            shaped(*g, s@),
            forall|x: int| 0 <= x < k ==> on(s@, #[trigger] seeds@[x]),
            below_models(*g, s@, platforms@, ctx, seeds@),
        decreases seeds@.len() - k,
    {
        let (p, i) = seeds[k];
        proof {
            assert(slot_ok(g.pkgs(), seeds@[k as int]));
        }
        s[p].set(i, true);
        proof {
            assert forall|pp: int, ii: int| 0 <= pp < s@.len() && 0 <= ii < s@[pp]@.len() && #[trigger] s@[pp]@[ii]
                implies enabled(*g, platforms@, ctx, seeds@, pp, ii) by {
                if pp == p && ii == i {
                    assert forall|t: Seq<Vec<bool>>| shaped(*g, t) && closed(*g, t, platforms@, ctx) && seeded(t, seeds@) implies #[trigger] t[pp]@[ii] by {
                        assert(on(t, seeds@[k as int]));
                    }
                }
            }
        }
        k = k + 1;
    }
    loop
        invariant
            g.wf(),
            shaped(*g, s@),
            seeded(s@, seeds@),
            below_models(*g, s@, platforms@, ctx, seeds@),
            forall|x: int| 0 <= x < seeds@.len() ==> slot_ok(g.pkgs(), #[trigger] seeds@[x]),
        ensures
            closed(*g, s@, platforms@, ctx),
        decreases all_false(s@),
    {
        let ghost start = s@;
        let mut changed = false;
        let mut j: usize = 0;
        while j < g.num_clauses()
            invariant
                g.wf(),
                j <= g.rules().len(),
                shaped(*g, s@),
                seeded(s@, seeds@),
                below_models(*g, s@, platforms@, ctx, seeds@),
                forall|x: int| 0 <= x < seeds@.len() ==> slot_ok(g.pkgs(), #[trigger] seeds@[x]),
                !changed ==> s@ == start,
                changed ==> all_false(s@) < all_false(start),
                all_false(s@) <= all_false(start),
                !changed ==> forall|x: int| 0 <= x < j && fires(*g, s@, #[trigger] g.rules()[x], platforms@, ctx) ==> on(s@, g.rules()[x].to),
            decreases g.rules().len() - j,
        {
            let c = g.clause(j);
            proof {
                assert(crate::graph::clause_ok(g.pkgs(), g.conds().len(), g.rules()[j as int]));
            }
            let premises = s[c.from.0][c.from.1] && match c.gate {
                Some(w) => s[w.0][w.1],
                None => true,
            };
            if premises && !s[c.to.0][c.to.1] && is_live(g, c, platforms, ctx) {
                let ghost before = s@;
                let (p, i) = c.to;
                s[p].set(i, true);
                proof {
                    lemma_row_set(before[p as int]@, i as int);
                    lemma_all_set(before, p as int, s@[p as int]);
                    assert(s@ =~= before.update(p as int, s@[p as int]));
                    assert(s@[p as int]@ == before[p as int]@.update(i as int, true));
                    assert forall|x: int| 0 <= x < seeds@.len() implies on(s@, #[trigger] seeds@[x]) by {
                        assert(on(before, seeds@[x]));
                        assert(slot_ok(g.pkgs(), seeds@[x]));
                    }
                    assert forall|pp: int, ii: int| 0 <= pp < s@.len() && 0 <= ii < s@[pp]@.len() && #[trigger] s@[pp]@[ii]
                        implies enabled(*g, platforms@, ctx, seeds@, pp, ii) by {
                        if pp == p && ii == i {
                            assert forall|t: Seq<Vec<bool>>| shaped(*g, t) && closed(*g, t, platforms@, ctx) && seeded(t, seeds@) implies #[trigger] t[pp]@[ii] by {
                                assert(enabled(*g, platforms@, ctx, seeds@, c.from.0 as int, c.from.1 as int));
                                assert(t[c.from.0 as int]@[c.from.1 as int]);
                                if let Some(w) = c.gate {
                                    assert(enabled(*g, platforms@, ctx, seeds@, w.0 as int, w.1 as int));
                                    assert(t[w.0 as int]@[w.1 as int]);
                                }
                                assert(fires(*g, t, g.rules()[j as int], platforms@, ctx));
                            }
                        } else {
                            assert(before[pp]@[ii]);
                        }
                    }
                }
                changed = true;
            }
            j = j + 1;
        }
        if !changed {
            break;
        }
    }
    proof {
        assert forall|p: int, i: int| 0 <= p < s@.len() && 0 <= i < s@[p]@.len() implies
            (#[trigger] s@[p]@[i] <==> enabled(*g, platforms@, ctx, seeds@, p, i)) by {
            if enabled(*g, platforms@, ctx, seeds@, p, i) {
                assert(shaped(*g, s@) && closed(*g, s@, platforms@, ctx) && seeded(s@, seeds@));
            }
        }
    }
    s
}

} // verus!
