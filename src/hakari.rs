use vstd::prelude::*;
use crate::graph::{PackageGraph, slot_ok};
use crate::triple::Platform;
use crate::unify::{Context, ResolverVersion, clause_live, closed, empty_state, enabled, propagate, shaped};

verus! {

/// Whether build-time and normal dependency requirements are merged per package.
/// Build and normal edges feed one set of slots per package, and the result is the
/// union over both tracks either way; the setting is kept in the configuration and
/// its summary.
#[derive(Clone, Copy, Debug, PartialEq, Eq, Structural)]
pub enum UnifyTargetHost {
    Independent,
    Unified,
}

/// Why a builder could not be configured.
#[derive(Clone, Debug, PartialEq, Eq)]
pub enum HakariError {
    /// The graph has no workspace member.
    EmptyWorkspace,
    /// The aggregation package id is not in the graph.
    UnknownAggregationTarget(String),
    /// The aggregation package is not a workspace member.
    NotWorkspaceMember(String),
    /// An id to omit is not in the graph, or not a workspace member.
    InvalidOmittedPackage(String),
    /// A queried id is not in the graph.
    UnknownPackage(String),
    /// A platform string in a summary does not parse as a triple.
    UnknownPlatform(String),
}

/// The configuration of one unification run over a graph. Packages are named by
/// their index in the graph.
#[derive(Debug)]
pub struct HakariBuilder {
    hakari: Option<usize>,
    platforms: Vec<Platform>,
    resolver: ResolverVersion,
    verify_mode: bool,
    omitted: Vec<usize>,
    unify_target_host: UnifyTargetHost,
    unify_all: bool,
    dev: bool,
}

/// Whether a sequence of indices is strictly increasing.
pub open spec fn increasing(s: Seq<usize>) -> bool {
    forall|a: int, b: int| 0 <= a < b < s.len() ==> s[a] < s[b]
}

/// Whether the package at `p` exists and is a workspace member.
pub open spec fn is_member(g: PackageGraph, p: int) -> bool {
    0 <= p < g.pkgs().len() && g.pkgs()[p].in_workspace
}

pub open spec fn has_member(g: PackageGraph) -> bool {
    exists|p: int| is_member(g, p)
}

impl HakariBuilder {
    pub closed spec fn hakari_spec(&self) -> Option<usize> {
        self.hakari
    }

    pub closed spec fn platforms_spec(&self) -> Seq<Platform> {
        self.platforms@
    }

    pub closed spec fn resolver_spec(&self) -> ResolverVersion {
        self.resolver
    }

    pub closed spec fn verify_spec(&self) -> bool {
        self.verify_mode
    }

    /// The packages omitted on request, in increasing index order.
    pub closed spec fn omitted_spec(&self) -> Seq<usize> {
        self.omitted@
    }

    pub closed spec fn unify_target_host_spec(&self) -> UnifyTargetHost {
        self.unify_target_host
    }

    pub closed spec fn unify_all_spec(&self) -> bool {
        self.unify_all
    }

    pub closed spec fn dev_spec(&self) -> bool {
        self.dev
    }

    pub open spec fn wf(&self, g: PackageGraph) -> bool {
        &&& has_member(g)
        &&& (self.hakari_spec() matches Some(h) ==> is_member(g, h as int))
        &&& increasing(self.omitted_spec())
        &&& forall|k: int| 0 <= k < self.omitted_spec().len() ==> is_member(g, #[trigger] self.omitted_spec()[k] as int)
        &&& forall|k: int| 0 <= k < self.platforms_spec().len() ==> (#[trigger] self.platforms_spec()[k]).triple.wf()
        &&& self.platforms_spec().len() <= usize::MAX
    }

    /// Whether the package at `p` is left out of the unified result: requested, or the
    /// aggregation package itself when verify mode is off.
    pub open spec fn omits(&self, p: int) -> bool {
        self.omitted_spec().contains(p as usize) || (!self.verify_spec() && self.hakari_spec() == Some(p as usize))
    }

    /// A builder with the default configuration: no platform filter list, resolver
    /// version 2, verify mode on, nothing omitted, independent target and host, per-member
    /// unification, development edges left out.
    pub fn new(g: &PackageGraph, hakari_id: Option<&String>) -> (r: Result<HakariBuilder, HakariError>)
        requires
            g.wf(),
        ensures
            (r == Err::<HakariBuilder, HakariError>(HakariError::EmptyWorkspace)) <==> !has_member(*g),
            (r matches Err(HakariError::UnknownAggregationTarget(id))) <==> (has_member(*g)
                && hakari_id is Some && g.index_of(hakari_id->Some_0@) is None),
            (r matches Err(HakariError::NotWorkspaceMember(id))) <==> (has_member(*g)
                && hakari_id is Some && g.index_of(hakari_id->Some_0@) is Some
                && !is_member(*g, g.index_of(hakari_id->Some_0@)->Some_0)),
            r is Ok <==> (has_member(*g) && (hakari_id is Some ==> (g.index_of(hakari_id->Some_0@) is Some
                && is_member(*g, g.index_of(hakari_id->Some_0@)->Some_0)))),
            r matches Ok(b) ==> {
                &&& b.wf(*g)
                &&& (b.hakari_spec() is Some <==> hakari_id is Some)
                &&& (b.hakari_spec() matches Some(h) ==> g.index_of(hakari_id->Some_0@) == Some(h as int))
                &&& b.platforms_spec().len() == 0
                &&& b.resolver_spec() == ResolverVersion::V2
                &&& b.verify_spec()
                &&& b.omitted_spec().len() == 0
                &&& b.unify_target_host_spec() == UnifyTargetHost::Independent
                &&& !b.unify_all_spec()
                &&& !b.dev_spec()
            },
    {
        let mut p: usize = 0;
        let mut found = false;
        while p < g.num_packages()
            invariant
                p <= g.pkgs().len(),
                !found ==> forall|q: int| 0 <= q < p ==> !is_member(*g, q),
                found ==> has_member(*g),
            decreases g.pkgs().len() - p,
        {
            if g.is_workspace_member(p) {
                found = true;
                assert(is_member(*g, p as int));
            }
            p = p + 1;
        }
        if !found {
            return Err(HakariError::EmptyWorkspace);
        }
        let hakari = match hakari_id {
            None => None,
            Some(id) => match g.find(id) {
                None => return Err(HakariError::UnknownAggregationTarget(id.clone())),
                Some(h) => {
                    if !g.is_workspace_member(h) {
                        return Err(HakariError::NotWorkspaceMember(id.clone()));
                    }
                    Some(h)
                },
            },
        };
        Ok(HakariBuilder {
            hakari,
            platforms: Vec::new(),
            resolver: ResolverVersion::V2,
            verify_mode: true,
            omitted: Vec::new(),
            unify_target_host: UnifyTargetHost::Independent,
            unify_all: false,
            dev: false,
        })
    }

    /// The aggregation package, if one was designated.
    pub fn hakari_package(&self) -> (r: Option<usize>)
        ensures
            r == self.hakari_spec(),
    {
        self.hakari
    }

    pub fn platforms(&self) -> (r: &Vec<Platform>)
        ensures
            r@ == self.platforms_spec(),
    {
        &self.platforms
    }

    pub fn resolver_version(&self) -> (r: ResolverVersion)
        ensures
            r == self.resolver_spec(),
    {
        self.resolver
    }

    pub fn verify_mode(&self) -> (r: bool)
        ensures
            r == self.verify_spec(),
    {
        self.verify_mode
    }

    pub fn unify_target_host(&self) -> (r: UnifyTargetHost)
        ensures
            r == self.unify_target_host_spec(),
    {
        self.unify_target_host
    }

    pub fn unify_all(&self) -> (r: bool)
        ensures
            r == self.unify_all_spec(),
    {
        self.unify_all
    }

    pub fn dev_inclusion(&self) -> (r: bool)
        ensures
            r == self.dev_spec(),
    {
        self.dev
    }
}

/// Inserts `x` into a strictly increasing vector, keeping it so.
fn insert_sorted(v: &mut Vec<usize>, x: usize)
    requires
        increasing(old(v)@),
    ensures
        increasing(final(v)@),
        forall|y: usize| final(v)@.contains(y) <==> (old(v)@.contains(y) || y == x),
{
    let mut i: usize = 0;
    while i < v.len() && v[i] < x
        invariant
            v@ == old(v)@,
            increasing(v@),
            i <= v@.len(),
            forall|k: int| 0 <= k < i ==> v@[k] < x,
        decreases v@.len() - i,
    {
        i = i + 1;
    }
    if i < v.len() && v[i] == x {
        assert(v@.contains(x) && v@[i as int] == x);
        return;
    }
    let ghost before = v@;
    v.insert(i, x);
    assert(before == old(v)@);
    assert(v@ == before.insert(i as int, x));
    proof {
        assert forall|a: int, b: int| 0 <= a < b < v@.len() implies v@[a] < v@[b] by {
            if b < i {
            } else if b == i {
            } else if a < i {
                assert(before[b - 1] >= x || b - 1 == i as int);
                if i < before.len() {
                    assert(before[i as int] > x);
                    assert(before[i as int] <= before[b - 1] || b - 1 == i as int);
                }
            } else if a == i {
                assert(before[i as int] > x);
                assert(before[i as int] <= before[b - 1] || b - 1 == i as int);
            } else {
            }
        }
        lemma_insert_contains(before, i as int, x);
    }
}

proof fn lemma_insert_contains(s: Seq<usize>, i: int, x: usize)
    requires
        0 <= i <= s.len(),
    ensures
        forall|y: usize| s.insert(i, x).contains(y) <==> (s.contains(y) || y == x),
{
    let v = s.insert(i, x);
    assert forall|y: usize| v.contains(y) <==> (s.contains(y) || y == x) by {
        if v.contains(y) {
            let k = choose|k: int| 0 <= k < v.len() && v[k] == y;
            if k < i {
                assert(s[k] == y);
            } else if k > i {
                assert(s[k - 1] == y);
            }
        }
        if s.contains(y) {
            let k = choose|k: int| 0 <= k < s.len() && s[k] == y;
            if k < i {
                assert(v[k] == y);
            } else {
                assert(v[k + 1] == y);
            }
        }
        if y == x {
            assert(v[i] == x);
        }
    }
}

impl HakariBuilder {
    pub fn set_platforms(&mut self, platforms: Vec<Platform>)
        requires
            forall|k: int| 0 <= k < platforms@.len() ==> (#[trigger] platforms@[k]).triple.wf(),
        ensures
            final(self).platforms_spec() == platforms@,
            final(self).hakari_spec() == old(self).hakari_spec(),
            final(self).resolver_spec() == old(self).resolver_spec(),
            final(self).verify_spec() == old(self).verify_spec(),
            final(self).omitted_spec() == old(self).omitted_spec(),
            final(self).unify_target_host_spec() == old(self).unify_target_host_spec(),
            final(self).unify_all_spec() == old(self).unify_all_spec(),
            final(self).dev_spec() == old(self).dev_spec(),
    {
        self.platforms = platforms;
    }

    pub fn set_resolver_version(&mut self, v: ResolverVersion)
        ensures
            final(self).resolver_spec() == v,
            final(self).platforms_spec() == old(self).platforms_spec(),
            final(self).hakari_spec() == old(self).hakari_spec(),
            final(self).verify_spec() == old(self).verify_spec(),
            final(self).omitted_spec() == old(self).omitted_spec(),
            final(self).unify_target_host_spec() == old(self).unify_target_host_spec(),
            final(self).unify_all_spec() == old(self).unify_all_spec(),
            final(self).dev_spec() == old(self).dev_spec(),
    {
        self.resolver = v;
    }

    pub fn set_verify_mode(&mut self, on: bool)
        ensures
            final(self).verify_spec() == on,
            final(self).platforms_spec() == old(self).platforms_spec(),
            final(self).hakari_spec() == old(self).hakari_spec(),
            final(self).resolver_spec() == old(self).resolver_spec(),
            final(self).omitted_spec() == old(self).omitted_spec(),
            final(self).unify_target_host_spec() == old(self).unify_target_host_spec(),
            final(self).unify_all_spec() == old(self).unify_all_spec(),
            final(self).dev_spec() == old(self).dev_spec(),
    {
        self.verify_mode = on;
    }

    pub fn set_unify_target_host(&mut self, u: UnifyTargetHost)
        ensures
            final(self).unify_target_host_spec() == u,
            final(self).platforms_spec() == old(self).platforms_spec(),
            final(self).hakari_spec() == old(self).hakari_spec(),
            final(self).resolver_spec() == old(self).resolver_spec(),
            final(self).verify_spec() == old(self).verify_spec(),
            final(self).omitted_spec() == old(self).omitted_spec(),
            final(self).unify_all_spec() == old(self).unify_all_spec(),
            final(self).dev_spec() == old(self).dev_spec(),
    {
        self.unify_target_host = u;
    }

    pub fn set_unify_all(&mut self, on: bool)
        ensures
            final(self).unify_all_spec() == on,
            final(self).platforms_spec() == old(self).platforms_spec(),
            final(self).hakari_spec() == old(self).hakari_spec(),
            final(self).resolver_spec() == old(self).resolver_spec(),
            final(self).verify_spec() == old(self).verify_spec(),
            final(self).omitted_spec() == old(self).omitted_spec(),
            final(self).unify_target_host_spec() == old(self).unify_target_host_spec(),
            final(self).dev_spec() == old(self).dev_spec(),
    {
        self.unify_all = on;
    }

    pub fn set_dev_inclusion(&mut self, on: bool)
        ensures
            final(self).dev_spec() == on,
            final(self).platforms_spec() == old(self).platforms_spec(),
            final(self).hakari_spec() == old(self).hakari_spec(),
            final(self).resolver_spec() == old(self).resolver_spec(),
            final(self).verify_spec() == old(self).verify_spec(),
            final(self).omitted_spec() == old(self).omitted_spec(),
            final(self).unify_target_host_spec() == old(self).unify_target_host_spec(),
            final(self).unify_all_spec() == old(self).unify_all_spec(),
    {
        self.dev = on;
    }

    /// Adds packages to the omitted set. Every id must name a workspace member of the
    /// graph; otherwise nothing is added and the first offending id is reported.
    pub fn add_omitted_packages(&mut self, g: &PackageGraph, ids: &Vec<String>) -> (r: Result<(), HakariError>)
        requires
            g.wf(),
            old(self).wf(*g),
        ensures
            final(self).wf(*g),
            r is Ok <==> forall|k: int| 0 <= k < ids@.len() ==> (g.index_of(#[trigger] ids@[k]@) is Some
                && is_member(*g, g.index_of(ids@[k]@)->Some_0)),
            r matches Err(e) ==> e is InvalidOmittedPackage && final(self).omitted_spec() == old(self).omitted_spec(),
            r matches Err(HakariError::InvalidOmittedPackage(id)) ==> exists|k: int| 0 <= k < ids@.len()
                && #[trigger] ids@[k]@ == id@ && !(g.index_of(id@) is Some && is_member(*g, g.index_of(id@)->Some_0)),
            r is Ok ==> forall|q: usize| final(self).omitted_spec().contains(q) <==> (old(self).omitted_spec().contains(q)
                || exists|k: int| 0 <= k < ids@.len() && g.index_of(#[trigger] ids@[k]@) == Some(q as int)),
            final(self).platforms_spec() == old(self).platforms_spec(),
            final(self).hakari_spec() == old(self).hakari_spec(),
            final(self).resolver_spec() == old(self).resolver_spec(),
            final(self).verify_spec() == old(self).verify_spec(),
            final(self).unify_target_host_spec() == old(self).unify_target_host_spec(),
            final(self).unify_all_spec() == old(self).unify_all_spec(),
            final(self).dev_spec() == old(self).dev_spec(),
    {
        let mut found: Vec<usize> = Vec::new();
        let mut k: usize = 0;
        while k < ids.len()
            invariant
                g.wf(),
                self.wf(*g),
                *self == *old(self),
                k <= ids@.len(),
                found@.len() == k,
                forall|x: int| 0 <= x < k ==> g.index_of(#[trigger] ids@[x]@) == Some(found@[x] as int)
                    && is_member(*g, found@[x] as int),
            decreases ids@.len() - k,
        {
            match g.find(&ids[k]) {
                Some(p) => {
                    if !g.is_workspace_member(p) {
                        return Err(HakariError::InvalidOmittedPackage(ids[k].clone()));
                    }
                    found.push(p);
                },
                None => return Err(HakariError::InvalidOmittedPackage(ids[k].clone())),
            }
            k = k + 1;
        }
        let mut k: usize = 0;
        while k < found.len()
            invariant
                self.wf(*g),
                k <= found@.len(),
                found@.len() == ids@.len(),
                forall|x: int| 0 <= x < found@.len() ==> g.index_of(#[trigger] ids@[x]@) == Some(found@[x] as int)
                    && is_member(*g, found@[x] as int),
                forall|q: usize| self.omitted_spec().contains(q) <==> (old(self).omitted_spec().contains(q)
                    || exists|x: int| 0 <= x < k && found@[x] == q),
                self.platforms_spec() == old(self).platforms_spec(),
                self.hakari_spec() == old(self).hakari_spec(),
                self.resolver_spec() == old(self).resolver_spec(),
                self.verify_spec() == old(self).verify_spec(),
                self.unify_target_host_spec() == old(self).unify_target_host_spec(),
                self.unify_all_spec() == old(self).unify_all_spec(),
                self.dev_spec() == old(self).dev_spec(),
            decreases found@.len() - k,
        {
            let ghost prev = self.omitted@;
            proof {
                assert forall|m: int| 0 <= m < prev.len() implies is_member(*g, prev[m] as int) by {
                    assert(self.omitted_spec()[m] == prev[m]);
                }
                assert(g.index_of(ids@[k as int]@) == Some(found@[k as int] as int));
            }
            insert_sorted(&mut self.omitted, found[k]);
            proof {
                assert forall|j: int| 0 <= j < self.omitted@.len() implies is_member(*g, #[trigger] self.omitted@[j] as int) by {
                    assert(self.omitted@.contains(self.omitted@[j]));
                    if self.omitted@[j] != found@[k as int] {
                        let m = choose|m: int| 0 <= m < prev.len() && prev[m] == self.omitted@[j];
                        assert(is_member(*g, prev[m] as int));
                    }
                }
                assert forall|q: usize| self.omitted_spec().contains(q) <==> (old(self).omitted_spec().contains(q)
                    || exists|x: int| 0 <= x < k + 1 && found@[x] == q) by {
                    if q == found@[k as int] {
                        assert(exists|x: int| 0 <= x < k + 1 && found@[x] == q);
                    }
                    if exists|x: int| 0 <= x < k + 1 && found@[x] == q {
                        let x = choose|x: int| 0 <= x < k + 1 && found@[x] == q;
                        if x < k {
                            assert(exists|x: int| 0 <= x < k && found@[x] == q);
                        }
                    }
                }
            }
            k = k + 1;
        }
        proof {
            assert forall|q: usize| self.omitted_spec().contains(q) <==> (old(self).omitted_spec().contains(q)
                || exists|x: int| 0 <= x < ids@.len() && g.index_of(#[trigger] ids@[x]@) == Some(q as int)) by {
                if exists|x: int| 0 <= x < ids@.len() && g.index_of(#[trigger] ids@[x]@) == Some(q as int) {
                    let x = choose|x: int| 0 <= x < ids@.len() && g.index_of(#[trigger] ids@[x]@) == Some(q as int);
                    assert(found@[x] == q);
                }
                if exists|x: int| 0 <= x < found@.len() && found@[x] == q {
                    let x = choose|x: int| 0 <= x < found@.len() && found@[x] == q;
                    assert(g.index_of(ids@[x]@) == Some(q as int));
                }
            }
        }
        Ok(())
    }

    /// Whether the package with id `id` is left out of the unified result.
    pub fn omits_package(&self, g: &PackageGraph, id: &String) -> (r: Result<bool, HakariError>)
        requires
            g.wf(),
            self.wf(*g),
        ensures
            r is Err <==> g.index_of(id@) is None,
            r matches Err(e) ==> e is UnknownPackage,
            r matches Ok(b) ==> b == self.omits(g.index_of(id@)->Some_0),
    {
        match g.find(id) {
            None => Err(HakariError::UnknownPackage(id.clone())),
            Some(p) => {
                let b = self.omits_index(p);
                Ok(b)
            },
        }
    }

    /// Whether the package at index `p` is left out of the unified result.
    pub fn omits_index(&self, p: usize) -> (r: bool)
        ensures
            r == self.omits(p as int),
    {
        if !self.verify_mode && self.hakari == Some(p) {
            return true;
        }
        let mut k: usize = 0;
        while k < self.omitted.len()
            invariant
                k <= self.omitted@.len(),
                forall|x: int| 0 <= x < k ==> self.omitted@[x] != p,
            decreases self.omitted@.len() - k,
        {
            if self.omitted[k] == p {
                assert(self.omitted@.contains(p));
                return true;
            }
            k = k + 1;
        }
        false
    }

    /// The omitted packages, in increasing index order.
    pub fn omitted_packages(&self, g: &PackageGraph) -> (r: Vec<usize>)
        requires
            g.wf(),
            self.wf(*g),
        ensures
            increasing(r@),
            forall|p: int| 0 <= p < g.pkgs().len() ==> (r@.contains(p as usize) <==> self.omits(p)),
            forall|k: int| 0 <= k < r@.len() ==> #[trigger] r@[k] < g.pkgs().len(),
    {
        let mut r: Vec<usize> = Vec::new();
        let mut p: usize = 0;
        while p < g.num_packages()
            invariant
                g.wf(),
                self.wf(*g),
                p <= g.pkgs().len(),
                increasing(r@),
                forall|k: int| 0 <= k < r@.len() ==> #[trigger] r@[k] < p,
                forall|q: int| 0 <= q < p ==> (r@.contains(q as usize) <==> self.omits(q)),
            decreases g.pkgs().len() - p,
        {
            if self.omits_index(p) {
                let ghost prev = r@;
                r.push(p);
                proof {
                    assert forall|q: int| 0 <= q < p + 1 implies (r@.contains(q as usize) <==> self.omits(q)) by {
                        if q < p {
                            if r@.contains(q as usize) {
                                let k = choose|k: int| 0 <= k < r@.len() && r@[k] == q as usize;
                                if k < prev.len() {
                                    assert(prev[k] == q as usize);
                                }
                            }
                            if prev.contains(q as usize) {
                                let k = choose|k: int| 0 <= k < prev.len() && prev[k] == q as usize;
                                assert(r@[k] == q as usize);
                            }
                        } else {
                            assert(r@[prev.len() as int] == p);
                        }
                    }
                }
            } else {
                proof {
                    assert(!r@.contains(p)) by {
                        if r@.contains(p) {
                            let k = choose|k: int| 0 <= k < r@.len() && r@[k] == p;
                            assert(r@[k] < p);
                        }
                    }
                }
            }
            p = p + 1;
        }
        r
    }
}

/// Whether a context is one that the builder evaluates: a configured platform (or the
/// unfiltered context when none is configured), development edges only when included,
/// and the configured resolver.
pub open spec fn ctx_ok(b: HakariBuilder, ctx: Context) -> bool {
    &&& (ctx.platform < b.platforms_spec().len() || (b.platforms_spec().len() == 0 && ctx.platform == 0))
    &&& (ctx.dev ==> b.dev_spec())
    &&& ctx.resolver == b.resolver_spec()
}

/// Whether package `p` is seeded for a group: group `-1` is all workspace members
/// together, group `m >= 0` the member at `m` alone.
pub open spec fn chosen(g: PackageGraph, group: int, p: int) -> bool {
    if group < 0 { g.pkgs()[p].in_workspace } else { p == group }
}

/// The seeds of package `p`: the package itself and its default features.
pub open spec fn package_seeds(g: PackageGraph, p: int) -> Seq<(usize, usize)> {
    seq![(p as usize, 0usize)] + g.pkgs()[p].defaults@.map_values(|d: usize| (p as usize, (d + 1) as usize))
}

/// The seeds of a group among the first `n` packages, in package order.
pub open spec fn group_seeds(g: PackageGraph, group: int, n: int) -> Seq<(usize, usize)>
    decreases n,
{
    if n <= 0 {
        Seq::empty()
    } else if chosen(g, group, n - 1) {
        group_seeds(g, group, n - 1) + package_seeds(g, n - 1)
    } else {
        group_seeds(g, group, n - 1)
    }
}

/// Whether slot `i` of package `p` is on in the least closed state of `ctx` that holds
/// the seeds of `group`.
pub open spec fn reached(g: PackageGraph, platforms: Seq<Platform>, ctx: Context, group: int, p: int, i: int) -> bool {
    enabled(g, platforms, ctx, group_seeds(g, group, g.pkgs().len() as int), p, i)
}

/// The seed groups of a builder: all members at once, or each member alone.
pub open spec fn group_ok(b: HakariBuilder, g: PackageGraph, group: int) -> bool {
    if b.unify_all_spec() { group == -1 } else { is_member(g, group) }
}

pub open spec fn reached_in(b: HakariBuilder, g: PackageGraph, ctx: Context, p: int, i: int) -> bool {
    exists|group: int| group_ok(b, g, group) && #[trigger] reached(g, b.platforms_spec(), ctx, group, p, i)
}

/// The unified result: slot `i` of package `p` is on when the package is not omitted
/// and some evaluated context and seed group reaches it.
pub open spec fn unified(b: HakariBuilder, g: PackageGraph, p: int, i: int) -> bool {
    !b.omits(p) && exists|ctx: Context| ctx_ok(b, ctx) && #[trigger] reached_in(b, g, ctx, p, i)
}

/// The seeds of a group, as a list.
fn seeds_for(g: &PackageGraph, group: Option<usize>) -> (r: Vec<(usize, usize)>)
    requires
        g.wf(),
    ensures
        r@ == group_seeds(*g, match group { Some(m) => m as int, None => -1 }, g.pkgs().len() as int),
        forall|k: int| 0 <= k < r@.len() ==> slot_ok(g.pkgs(), #[trigger] r@[k]),
{
    let ghost gi: int = match group { Some(m) => m as int, None => -1 };
    let mut r: Vec<(usize, usize)> = Vec::new();
    let mut p: usize = 0;
    while p < g.num_packages()
        invariant
            g.wf(),
            gi == match group { Some(m) => m as int, None => -1 },
            p <= g.pkgs().len(),
            r@ == group_seeds(*g, gi, p as int),
            forall|k: int| 0 <= k < r@.len() ==> slot_ok(g.pkgs(), #[trigger] r@[k]),
        decreases g.pkgs().len() - p,
    {
        let pick = match group {
            Some(m) => m == p,
            None => g.is_workspace_member(p),
        };
        if pick {
            let pkg = g.package(p);
            proof {
                assert(crate::graph::package_ok(g.pkgs()[p as int]));
            }
            let ghost before = r@;
            r.push((p, 0));
            let mut k: usize = 0;
            while k < pkg.defaults.len()
                invariant
                    g.wf(),
                    *pkg == g.pkgs()[p as int],
                    p < g.pkgs().len(),
                    crate::graph::package_ok(*pkg),
                    k <= pkg.defaults@.len(),
                    r@ == before + seq![(p, 0usize)] + pkg.defaults@.subrange(0, k as int).map_values(|d: usize| (p, (d + 1) as usize)),
                    forall|x: int| 0 <= x < r@.len() ==> slot_ok(g.pkgs(), #[trigger] r@[x]),
                decreases pkg.defaults@.len() - k,
            {
                let d = pkg.defaults[k];
                let n = pkg.features.len();
                assert(d < n);
                r.push((p, d + 1));
                assert(pkg.defaults@.subrange(0, k + 1) =~= pkg.defaults@.subrange(0, k as int).push(d));
                assert(r@ =~= before + seq![(p, 0usize)] + pkg.defaults@.subrange(0, k + 1).map_values(|d: usize| (p, (d + 1) as usize)));
                k = k + 1;
            }
            assert(pkg.defaults@.subrange(0, k as int) =~= pkg.defaults@);
            assert(r@ =~= group_seeds(*g, gi, p + 1));
        } else {
            assert(r@ =~= group_seeds(*g, gi, p + 1));
        }
        p = p + 1;
    }
    r
}

/// Turns on in `acc` every slot that is on in `s`.
fn or_into(g: &PackageGraph, acc: &mut Vec<Vec<bool>>, s: &Vec<Vec<bool>>)
    requires
        shaped(*g, old(acc)@),
        shaped(*g, s@),
    ensures
        shaped(*g, final(acc)@),
        forall|p: int, i: int| 0 <= p < final(acc)@.len() && 0 <= i < final(acc)@[p]@.len() ==>
            (#[trigger] final(acc)@[p]@[i] == (old(acc)@[p]@[i] || s@[p]@[i])),
{
    let mut p: usize = 0;
    while p < acc.len()
        invariant
            shaped(*g, acc@),
            shaped(*g, s@),
            acc@.len() == old(acc)@.len(),
            p <= acc@.len(),
            forall|q: int| p <= q < acc@.len() ==> #[trigger] acc@[q] == old(acc)@[q],
            forall|q: int, i: int| 0 <= q < p && 0 <= i < acc@[q]@.len() ==>
                (#[trigger] acc@[q]@[i] == (old(acc)@[q]@[i] || s@[q]@[i])),
        decreases acc@.len() - p,
    {
        let mut i: usize = 0;
        let n = acc[p].len();
        while i < n
            invariant
                shaped(*g, acc@),
                shaped(*g, s@),
                acc@.len() == old(acc)@.len(),
                p < acc@.len(),
                n == acc@[p as int]@.len(),
                i <= n,
                forall|q: int| p < q < acc@.len() ==> #[trigger] acc@[q] == old(acc)@[q],
                forall|q: int, j: int| 0 <= q < p && 0 <= j < acc@[q]@.len() ==>
                    (#[trigger] acc@[q]@[j] == (old(acc)@[q]@[j] || s@[q]@[j])),
                forall|j: int| 0 <= j < i ==> (#[trigger] acc@[p as int]@[j] == (old(acc)@[p as int]@[j] || s@[p as int]@[j])),
                forall|j: int| i <= j < n ==> #[trigger] acc@[p as int]@[j] == old(acc)@[p as int]@[j],
            decreases n - i,
        {
            if s[p][i] {
                acc[p].set(i, true);
            }
            i = i + 1;
        }
        p = p + 1;
    }
}

impl HakariBuilder {
    /// Folds the results of every seed group in one context into `acc`.
    fn run_context(&self, g: &PackageGraph, ctx: Context, acc: &mut Vec<Vec<bool>>)
        requires
            g.wf(),
            self.wf(*g),
            shaped(*g, old(acc)@),
        ensures
            shaped(*g, final(acc)@),
            forall|p: int, i: int| 0 <= p < final(acc)@.len() && 0 <= i < final(acc)@[p]@.len() ==>
                (#[trigger] final(acc)@[p]@[i] == (old(acc)@[p]@[i] || reached_in(*self, *g, ctx, p, i))),
    {
        if self.unify_all {
            let seeds = seeds_for(g, None);
            let s = propagate(g, &self.platforms, ctx, &seeds);
            or_into(g, acc, &s);
            proof {
                assert forall|p: int, i: int| 0 <= p < acc@.len() && 0 <= i < acc@[p]@.len() implies
                    (#[trigger] acc@[p]@[i] == (old(acc)@[p]@[i] || reached_in(*self, *g, ctx, p, i))) by {
                    if reached_in(*self, *g, ctx, p, i) {
                        let grp = choose|grp: int| group_ok(*self, *g, grp) && #[trigger] reached(*g, self.platforms_spec(), ctx, grp, p, i);
                        assert(grp == -1);
                    }
                    assert(group_ok(*self, *g, -1));
                    assert(reached(*g, self.platforms_spec(), ctx, -1, p, i) == s@[p]@[i]);
                }
            }
            return;
        }
        let ghost start = acc@;
        let mut m: usize = 0;
        while m < g.num_packages()
            invariant
                g.wf(),
                self.wf(*g),
                !self.unify_all_spec(),
                m <= g.pkgs().len(),
                shaped(*g, acc@),
                start == old(acc)@,
                forall|p: int, i: int| 0 <= p < acc@.len() && 0 <= i < acc@[p]@.len() ==>
                    (#[trigger] acc@[p]@[i] == (start[p]@[i] || exists|grp: int| 0 <= grp < m && group_ok(*self, *g, grp)
                        && #[trigger] reached(*g, self.platforms_spec(), ctx, grp, p, i))),
            decreases g.pkgs().len() - m,
        {
            let ghost before = acc@;
            if g.is_workspace_member(m) {
                let seeds = seeds_for(g, Some(m));
                let s = propagate(g, &self.platforms, ctx, &seeds);
                or_into(g, acc, &s);
                proof {
                    assert(group_ok(*self, *g, m as int));
                    assert forall|p: int, i: int| 0 <= p < acc@.len() && 0 <= i < acc@[p]@.len() implies
                        (#[trigger] acc@[p]@[i] == (start[p]@[i] || exists|grp: int| 0 <= grp < m + 1 && group_ok(*self, *g, grp)
                            && #[trigger] reached(*g, self.platforms_spec(), ctx, grp, p, i))) by {
                        assert(reached(*g, self.platforms_spec(), ctx, m as int, p, i) == s@[p]@[i]);
                        assert(before[p]@[i] == (start[p]@[i] || exists|grp: int| 0 <= grp < m && group_ok(*self, *g, grp)
                            && #[trigger] reached(*g, self.platforms_spec(), ctx, grp, p, i)));
                        if exists|grp: int| 0 <= grp < m + 1 && group_ok(*self, *g, grp) && #[trigger] reached(*g, self.platforms_spec(), ctx, grp, p, i) {
                            let grp = choose|grp: int| 0 <= grp < m + 1 && group_ok(*self, *g, grp) && #[trigger] reached(*g, self.platforms_spec(), ctx, grp, p, i);
                            if grp < m {
                                assert(exists|grp: int| 0 <= grp < m && group_ok(*self, *g, grp) && #[trigger] reached(*g, self.platforms_spec(), ctx, grp, p, i));
                            }
                        }
                    }
                }
            } else {
                proof {
                    assert forall|p: int, i: int| 0 <= p < acc@.len() && 0 <= i < acc@[p]@.len() implies
                        (#[trigger] acc@[p]@[i] == (start[p]@[i] || exists|grp: int| 0 <= grp < m + 1 && group_ok(*self, *g, grp)
                            && #[trigger] reached(*g, self.platforms_spec(), ctx, grp, p, i))) by {
                        if exists|grp: int| 0 <= grp < m + 1 && group_ok(*self, *g, grp) && #[trigger] reached(*g, self.platforms_spec(), ctx, grp, p, i) {
                            let grp = choose|grp: int| 0 <= grp < m + 1 && group_ok(*self, *g, grp) && #[trigger] reached(*g, self.platforms_spec(), ctx, grp, p, i);
                            assert(grp != m);
                            assert(exists|grp: int| 0 <= grp < m && group_ok(*self, *g, grp) && #[trigger] reached(*g, self.platforms_spec(), ctx, grp, p, i));
                        }
                    }
                }
            }
            m = m + 1;
        }
        proof {
            assert forall|p: int, i: int| 0 <= p < acc@.len() && 0 <= i < acc@[p]@.len() implies
                (#[trigger] acc@[p]@[i] == (old(acc)@[p]@[i] || reached_in(*self, *g, ctx, p, i))) by {
                if reached_in(*self, *g, ctx, p, i) {
                    let grp = choose|grp: int| group_ok(*self, *g, grp) && #[trigger] reached(*g, self.platforms_spec(), ctx, grp, p, i);
                    assert(0 <= grp < m);
                }
            }
        }
    }
}

impl HakariBuilder {
    /// Computes the unified result: for each package, which of its slots (slot 0 the
    /// package itself, slot `1 + f` its feature `f`) some evaluated context turns on.
    /// Omitted packages have every slot off.
    pub fn compute(&self, g: &PackageGraph) -> (r: Vec<Vec<bool>>)
        requires
            g.wf(),
            self.wf(*g),
        ensures
            shaped(*g, r@),
            forall|p: int, i: int| 0 <= p < r@.len() && 0 <= i < r@[p]@.len() ==>
                (#[trigger] r@[p]@[i] == unified(*self, *g, p, i)),
    {
        let mut acc = empty_state(g);
        let np: usize = if self.platforms.len() == 0 { 1 } else { self.platforms.len() };
        let mut pi: usize = 0;
        while pi < np
            invariant
                g.wf(),
                self.wf(*g),
                np == (if self.platforms_spec().len() == 0 { 1 } else { self.platforms_spec().len() }),
                pi <= np,
                shaped(*g, acc@),
                forall|p: int, i: int| 0 <= p < acc@.len() && 0 <= i < acc@[p]@.len() ==>
                    (#[trigger] acc@[p]@[i] == exists|ctx: Context| ctx.platform < pi && ctx_ok(*self, ctx)
                        && #[trigger] reached_in(*self, *g, ctx, p, i)),
            decreases np - pi,
        {
            let ghost before = acc@;
            let c0 = Context { platform: pi, dev: false, resolver: self.resolver };
            self.run_context(g, c0, &mut acc);
            let ghost mid = acc@;
            let c1 = Context { platform: pi, dev: true, resolver: self.resolver };
            if self.dev {
                self.run_context(g, c1, &mut acc);
            }
            proof {
                assert forall|p: int, i: int| 0 <= p < acc@.len() && 0 <= i < acc@[p]@.len() implies
                    (#[trigger] acc@[p]@[i] == exists|ctx: Context| ctx.platform < pi + 1 && ctx_ok(*self, ctx)
                        && #[trigger] reached_in(*self, *g, ctx, p, i)) by {
                    assert(ctx_ok(*self, c0));
                    if self.dev_spec() {
                        assert(ctx_ok(*self, c1));
                    }
                    if exists|ctx: Context| ctx.platform < pi + 1 && ctx_ok(*self, ctx) && #[trigger] reached_in(*self, *g, ctx, p, i) {
                        let ctx = choose|ctx: Context| ctx.platform < pi + 1 && ctx_ok(*self, ctx) && #[trigger] reached_in(*self, *g, ctx, p, i);
                        if ctx.platform < pi {
                            assert(before[p]@[i]);
                        } else if ctx.dev {
                            assert(ctx == c1);
                        } else {
                            assert(ctx == c0);
                        }
                    }
                    if acc@[p]@[i] {
                        if before[p]@[i] {
                        } else if mid[p]@[i] {
                            assert(reached_in(*self, *g, c0, p, i));
                        } else {
                            assert(reached_in(*self, *g, c1, p, i));
                        }
                    }
                }
            }
            pi = pi + 1;
        }
        let mut p: usize = 0;
        while p < acc.len()
            invariant
                g.wf(),
                self.wf(*g),
                np == (if self.platforms_spec().len() == 0 { 1 } else { self.platforms_spec().len() }),
                shaped(*g, acc@),
                p <= acc@.len(),
                forall|q: int, i: int| p <= q < acc@.len() && 0 <= i < acc@[q]@.len() ==>
                    (#[trigger] acc@[q]@[i] == exists|ctx: Context| ctx.platform < np && ctx_ok(*self, ctx)
                        && #[trigger] reached_in(*self, *g, ctx, q, i)),
                forall|q: int, i: int| 0 <= q < p && 0 <= i < acc@[q]@.len() ==>
                    (#[trigger] acc@[q]@[i] == unified(*self, *g, q, i)),
            decreases acc@.len() - p,
        {
            if self.omits_index(p) {
                let n = acc[p].len();
                let mut i: usize = 0;
                while i < n
                    invariant
                        shaped(*g, acc@),
                        p < acc@.len(),
                        n == acc@[p as int]@.len(),
                        i <= n,
                        self.omits(p as int),
                        forall|q: int, j: int| p < q < acc@.len() && 0 <= j < acc@[q]@.len() ==>
                            (#[trigger] acc@[q]@[j] == exists|ctx: Context| ctx.platform < np && ctx_ok(*self, ctx)
                                && #[trigger] reached_in(*self, *g, ctx, q, j)),
                        forall|q: int, j: int| 0 <= q < p && 0 <= j < acc@[q]@.len() ==>
                            (#[trigger] acc@[q]@[j] == unified(*self, *g, q, j)),
                        forall|j: int| 0 <= j < i ==> !#[trigger] acc@[p as int]@[j],
                    decreases n - i,
                {
                    acc[p].set(i, false);
                    i = i + 1;
                }
            } else {
                proof {
                    assert forall|i: int| 0 <= i < acc@[p as int]@.len() implies
                        (#[trigger] acc@[p as int]@[i] == unified(*self, *g, p as int, i)) by {
                        if unified(*self, *g, p as int, i) {
                            let ctx = choose|ctx: Context| ctx_ok(*self, ctx) && #[trigger] reached_in(*self, *g, ctx, p as int, i);
                            assert(ctx.platform < np);
                        }
                    }
                }
            }
            p = p + 1;
        }
        acc
    }
}

impl HakariBuilder {
    /// Replaces the omitted set by a list already in increasing index order.
    pub(crate) fn set_omitted_sorted(&mut self, g: &PackageGraph, v: Vec<usize>)
        requires
            old(self).wf(*g),
            increasing(v@),
            forall|k: int| 0 <= k < v@.len() ==> is_member(*g, #[trigger] v@[k] as int),
        ensures
            final(self).wf(*g),
            final(self).omitted_spec() == v@,
            final(self).platforms_spec() == old(self).platforms_spec(),
            final(self).hakari_spec() == old(self).hakari_spec(),
            final(self).resolver_spec() == old(self).resolver_spec(),
            final(self).verify_spec() == old(self).verify_spec(),
            final(self).unify_target_host_spec() == old(self).unify_target_host_spec(),
            final(self).unify_all_spec() == old(self).unify_all_spec(),
            final(self).dev_spec() == old(self).dev_spec(),
    {
        self.omitted = v;
        assert forall|k: int| 0 <= k < self.omitted_spec().len() implies is_member(*g, #[trigger] self.omitted_spec()[k] as int) by {
            assert(self.omitted_spec()[k] == v@[k]);
        }
        assert forall|k: int| 0 <= k < self.platforms_spec().len() implies (#[trigger] self.platforms_spec()[k]).triple.wf() by {
            assert(self.platforms_spec()[k] == old(self).platforms_spec()[k]);
        }
    }

    /// The packages omitted on request, in increasing index order.
    pub fn omitted_indices(&self) -> (r: &Vec<usize>)
        ensures
            r@ == self.omitted_spec(),
    {
        &self.omitted
    }
}

/// Determinism: two results that meet the contract of `compute` for one builder and
/// one graph hold the same slots.
pub proof fn lemma_compute_deterministic(b: HakariBuilder, g: PackageGraph, r1: Seq<Vec<bool>>, r2: Seq<Vec<bool>>)
    requires
        shaped(g, r1),
        shaped(g, r2),
        forall|p: int, i: int| 0 <= p < r1.len() && 0 <= i < r1[p]@.len() ==> (#[trigger] r1[p]@[i] == unified(b, g, p, i)),
        forall|p: int, i: int| 0 <= p < r2.len() && 0 <= i < r2[p]@.len() ==> (#[trigger] r2[p]@[i] == unified(b, g, p, i)),
    ensures
        r1.len() == r2.len(),
        forall|p: int| 0 <= p < r1.len() ==> (#[trigger] r1[p])@ == r2[p]@,
{
    assert forall|p: int| 0 <= p < r1.len() implies (#[trigger] r1[p])@ == r2[p]@ by {
        assert(r1[p]@ =~= r2[p]@) by {
            assert forall|i: int| 0 <= i < r1[p]@.len() implies r1[p]@[i] == r2[p]@[i] by {
                assert(r1[p]@[i] == unified(b, g, p, i));
                assert(r2[p]@[i] == unified(b, g, p, i));
            }
        }
    }
}

/// The rules live in a context are the same for two platform lists that agree on the
/// context's platform, when that platform is in both lists.
proof fn lemma_same_closed(g: PackageGraph, pl1: Seq<Platform>, pl2: Seq<Platform>, ctx: Context)
    requires
        ctx.platform < pl1.len(),
        ctx.platform < pl2.len(),
        pl1[ctx.platform as int] == pl2[ctx.platform as int],
    ensures
        forall|t: Seq<Vec<bool>>| closed(g, t, pl1, ctx) == closed(g, t, pl2, ctx),
{
    assert forall|k: int| 0 <= k < g.rules().len() implies
        clause_live(g, #[trigger] g.rules()[k], pl1, ctx) == clause_live(g, g.rules()[k], pl2, ctx) by {
    }
}

/// Monotonicity: adding a platform to a non-empty platform list keeps every slot of the
/// unified result on. (From an empty list it may not: the empty list evaluates without
/// a platform filter, where every conditional edge counts.)
pub proof fn lemma_more_platforms(b: HakariBuilder, b2: HakariBuilder, x: Platform, g: PackageGraph, p: int, i: int)
    requires
        b.platforms_spec().len() > 0,
        b2.platforms_spec() == b.platforms_spec().push(x),
        b2.hakari_spec() == b.hakari_spec(),
        b2.resolver_spec() == b.resolver_spec(),
        b2.verify_spec() == b.verify_spec(),
        b2.omitted_spec() == b.omitted_spec(),
        b2.unify_all_spec() == b.unify_all_spec(),
        b2.dev_spec() == b.dev_spec(),
        unified(b, g, p, i),
    ensures
        unified(b2, g, p, i),
{
    let ctx = choose|ctx: Context| ctx_ok(b, ctx) && #[trigger] reached_in(b, g, ctx, p, i);
    let grp = choose|grp: int| group_ok(b, g, grp) && #[trigger] reached(g, b.platforms_spec(), ctx, grp, p, i);
    let pl1 = b.platforms_spec();
    let pl2 = b2.platforms_spec();
    assert(pl2[ctx.platform as int] == pl1[ctx.platform as int]);
    lemma_same_closed(g, pl1, pl2, ctx);
    let seeds = group_seeds(g, grp, g.pkgs().len() as int);
    assert forall|t: Seq<Vec<bool>>| shaped(g, t) && closed(g, t, pl2, ctx) && crate::unify::seeded(t, seeds) implies #[trigger] t[p]@[i] by {
        assert(closed(g, t, pl1, ctx));
    }
    assert(reached(g, pl2, ctx, grp, p, i));
    assert(group_ok(b2, g, grp));
    assert(reached_in(b2, g, ctx, p, i));
    assert(ctx_ok(b2, ctx));
}

/// The rules live in two contexts agree when their platforms are the same entry of
/// their lists.
proof fn lemma_same_closed_at(g: PackageGraph, pl1: Seq<Platform>, c1: Context, pl2: Seq<Platform>, c2: Context)
    requires
        c1.platform < pl1.len(),
        c2.platform < pl2.len(),
        pl1[c1.platform as int] == pl2[c2.platform as int],
        c1.dev == c2.dev,
        c1.resolver == c2.resolver,
    ensures
        forall|t: Seq<Vec<bool>>| closed(g, t, pl1, c1) == closed(g, t, pl2, c2),
{
    assert forall|k: int| 0 <= k < g.rules().len() implies
        clause_live(g, #[trigger] g.rules()[k], pl1, c1) == clause_live(g, g.rules()[k], pl2, c2) by {
    }
}

/// One direction of `lemma_platform_set`.
proof fn lemma_platform_subset(b: HakariBuilder, b2: HakariBuilder, g: PackageGraph, p: int, i: int)
    requires
        b2.wf(g),
        b.platforms_spec().len() > 0,
        forall|x: int| 0 <= x < b.platforms_spec().len() ==> b2.platforms_spec().contains(#[trigger] b.platforms_spec()[x]),
        b2.hakari_spec() == b.hakari_spec(),
        b2.resolver_spec() == b.resolver_spec(),
        b2.verify_spec() == b.verify_spec(),
        b2.omitted_spec() == b.omitted_spec(),
        b2.unify_all_spec() == b.unify_all_spec(),
        b2.dev_spec() == b.dev_spec(),
        unified(b, g, p, i),
    ensures
        unified(b2, g, p, i),
{
    let ctx = choose|ctx: Context| ctx_ok(b, ctx) && #[trigger] reached_in(b, g, ctx, p, i);
    let grp = choose|grp: int| group_ok(b, g, grp) && #[trigger] reached(g, b.platforms_spec(), ctx, grp, p, i);
    let pl1 = b.platforms_spec();
    let pl2 = b2.platforms_spec();
    assert(pl2.contains(pl1[ctx.platform as int]));
    let y = choose|y: int| 0 <= y < pl2.len() && pl2[y] == pl1[ctx.platform as int];
    let ctx2 = Context { platform: y as usize, dev: ctx.dev, resolver: ctx.resolver };
    lemma_same_closed_at(g, pl1, ctx, pl2, ctx2);
    let seeds = group_seeds(g, grp, g.pkgs().len() as int);
    assert forall|t: Seq<Vec<bool>>| shaped(g, t) && closed(g, t, pl2, ctx2) && crate::unify::seeded(t, seeds) implies #[trigger] t[p]@[i] by {
        assert(closed(g, t, pl1, ctx));
    }
    assert(reached(g, pl2, ctx2, grp, p, i));
    assert(group_ok(b2, g, grp));
    assert(reached_in(b2, g, ctx2, p, i));
    assert(ctx_ok(b2, ctx2));
}

/// Determinism over platform lists: two builders that differ only in the order or the
/// repetition of their (non-empty) platform lists have the same unified result.
pub proof fn lemma_platform_set(b: HakariBuilder, b2: HakariBuilder, g: PackageGraph, p: int, i: int)
    requires
        b.wf(g),
        b2.wf(g),
        b.platforms_spec().len() > 0,
        b2.platforms_spec().len() > 0,
        forall|x: int| 0 <= x < b.platforms_spec().len() ==> b2.platforms_spec().contains(#[trigger] b.platforms_spec()[x]),
        forall|x: int| 0 <= x < b2.platforms_spec().len() ==> b.platforms_spec().contains(#[trigger] b2.platforms_spec()[x]),
        b2.hakari_spec() == b.hakari_spec(),
        b2.resolver_spec() == b.resolver_spec(),
        b2.verify_spec() == b.verify_spec(),
        b2.omitted_spec() == b.omitted_spec(),
        b2.unify_all_spec() == b.unify_all_spec(),
        b2.dev_spec() == b.dev_spec(),
    ensures
        unified(b, g, p, i) == unified(b2, g, p, i),
{
    if unified(b, g, p, i) {
        lemma_platform_subset(b, b2, g, p, i);
    }
    if unified(b2, g, p, i) {
        lemma_platform_subset(b2, b, g, p, i);
    }
}

/// Union across platforms: when a rule is live in the context of one configured
/// platform and its premises are reached there, its conclusion is in the unified result
/// (unless its package is omitted), whatever the other platforms make of it.
pub proof fn lemma_edge_reaches_union(b: HakariBuilder, g: PackageGraph, k: int, ctx: Context, grp: int)
    requires
        0 <= k < g.rules().len(),
        ctx_ok(b, ctx),
        group_ok(b, g, grp),
        clause_live(g, g.rules()[k], b.platforms_spec(), ctx),
        reached(g, b.platforms_spec(), ctx, grp, g.rules()[k].from.0 as int, g.rules()[k].from.1 as int),
        g.rules()[k].gate matches Some(w) ==> reached(g, b.platforms_spec(), ctx, grp, w.0 as int, w.1 as int),
        !b.omits(g.rules()[k].to.0 as int),
    ensures
        unified(b, g, g.rules()[k].to.0 as int, g.rules()[k].to.1 as int),
{
    let c = g.rules()[k];
    let pl = b.platforms_spec();
    let seeds = group_seeds(g, grp, g.pkgs().len() as int);
    assert forall|t: Seq<Vec<bool>>| shaped(g, t) && closed(g, t, pl, ctx) && crate::unify::seeded(t, seeds)
        implies #[trigger] t[c.to.0 as int]@[c.to.1 as int] by {
        assert(t[c.from.0 as int]@[c.from.1 as int]);
        if let Some(w) = c.gate {
            assert(t[w.0 as int]@[w.1 as int]);
        }
        assert(crate::unify::fires(g, t, g.rules()[k], pl, ctx));
    }
    assert(reached(g, pl, ctx, grp, c.to.0 as int, c.to.1 as int));
    assert(reached_in(b, g, ctx, c.to.0 as int, c.to.1 as int));
}

/// With verify mode off, the aggregation package is always omitted.
pub proof fn lemma_aggregation_omitted(b: HakariBuilder)
    requires
        !b.verify_spec(),
        b.hakari_spec() is Some,
    ensures
        b.omits(b.hakari_spec()->Some_0 as int),
{
}

} // verus!

