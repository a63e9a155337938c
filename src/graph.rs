use vstd::prelude::*;
use crate::triple::{CfgExpr, Platform};

verus! {

/// The kind of a dependency edge.
#[derive(Clone, Copy, Debug, PartialEq, Eq, Structural)]
pub enum DepKind {
    Normal,
    Build,
    Development,
}

/// A package of the graph. Its slots are numbered: slot 0 stands for the package
/// itself being built, slot `1 + f` for its feature `f`.
#[derive(Debug)]
pub struct PackageData {
    pub id: String,
    pub name: String,
    pub version: String,
    pub in_workspace: bool,
    pub features: Vec<String>,
    /// The features enabled when the package is built as a workspace member.
    pub defaults: Vec<usize>,
    /// The features that the build tool's own resolver chose for the package.
    pub resolved_features: Vec<String>,
}

/// One propagation rule: when slot `from` is on (and slot `gate`, if any), and the
/// condition at index `cond` (if any) holds, slot `to` is turned on.
#[derive(Clone, Copy, Debug)]
pub struct Clause {
    pub from: (usize, usize),
    pub gate: Option<(usize, usize)>,
    pub to: (usize, usize),
    pub kind: DepKind,
    pub cond: Option<usize>,
}

/// A package as the resolved metadata describes it. `implies` lists pairs of
/// feature indices `(a, b)`: feature `a` turns on feature `b`.
#[derive(Debug)]
pub struct PackageInput {
    pub id: String,
    pub name: String,
    pub version: String,
    pub features: Vec<String>,
    pub implies: Vec<(usize, usize)>,
    pub defaults: Vec<usize>,
}

/// One resolved dependency of a package. `activated_by` is the feature of the
/// depending package that enables the edge, `features` the target features it turns
/// on; `default_features` adds the target's default features.
#[derive(Debug)]
pub struct DepInput {
    pub target: String,
    pub kind: DepKind,
    pub condition: Option<CfgExpr>,
    pub activated_by: Option<usize>,
    pub features: Vec<usize>,
    pub default_features: bool,
}

/// The resolution entry of one package.
#[derive(Debug)]
pub struct ResolveNode {
    pub id: String,
    pub deps: Vec<DepInput>,
    /// The features that the build tool's own resolver chose for the package.
    pub features: Vec<String>,
}

/// Why a graph could not be built.
#[derive(Clone, Debug, PartialEq, Eq)]
pub enum GraphError {
    /// The metadata has no resolution section at all.
    NoResolveData,
    /// The package with this id has no resolution entry.
    MissingResolveData(String),
    /// Two packages share this id.
    DuplicatePackageId(String),
    /// A dependency of the named package refers to a package that is not in the graph.
    UnknownDependency(String),
    /// A feature index of the named package is out of range.
    InvalidFeatureIndex(String),
}

/// Whether a slot names a package of `pk` and one of its slots.
pub open spec fn slot_ok(pk: Seq<PackageData>, s: (usize, usize)) -> bool {
    s.0 < pk.len() && s.1 <= pk[s.0 as int].features@.len()
}

pub open spec fn clause_ok(pk: Seq<PackageData>, nconds: nat, c: Clause) -> bool {
    &&& slot_ok(pk, c.from)
    &&& slot_ok(pk, c.to)
    &&& (c.gate matches Some(w) ==> slot_ok(pk, w))
    &&& (c.cond matches Some(k) ==> k < nconds)
}

/// Whether `a` is a prefix of `b`.
pub open spec fn grows<T>(a: Seq<T>, b: Seq<T>) -> bool {
    a.len() <= b.len() && forall|k: int| 0 <= k < a.len() ==> b[k] == a[k]
}

pub proof fn lemma_grows_contains<T>(a: Seq<T>, b: Seq<T>, x: T)
    requires
        grows(a, b),
        a.contains(x),
    ensures
        b.contains(x),
{
    let k = choose|k: int| 0 <= k < a.len() && a[k] == x;
    assert(b[k] == x);
}

/// The rule by which feature `f` of package `p` builds the package.
pub open spec fn feature_rule(p: usize, f: usize) -> Clause {
    Clause { from: (p, (f + 1) as usize), gate: None, to: (p, 0usize), kind: DepKind::Normal, cond: None }
}

/// The rule by which feature `a` of package `p` turns on its feature `b`.
pub open spec fn implies_rule(p: usize, ab: (usize, usize)) -> Clause {
    Clause { from: (p, (ab.0 + 1) as usize), gate: None, to: (p, (ab.1 + 1) as usize), kind: DepKind::Normal, cond: None }
}

/// The slot that must be on for an edge from package `p` to fire, when feature `a` enables it.
pub open spec fn gate_of(p: usize, a: Option<usize>) -> Option<(usize, usize)> {
    match a {
        Some(a) => Some((p, (a + 1) as usize)),
        None => None,
    }
}

/// The rule by which an edge of `dep` out of package `p` turns on slot `slot` of
/// its target `t`, under condition index `cond`.
pub open spec fn edge_rule(p: usize, t: usize, slot: usize, dep: DepInput, cond: Option<usize>) -> Clause {
    Clause { from: (p, 0usize), gate: gate_of(p, dep.activated_by), to: (t, slot), kind: dep.kind, cond }
}

/// Whether condition index `cond` stands for the condition of `dep`.
pub open spec fn cond_for(conds: Seq<CfgExpr>, cond: Option<usize>, dep: DepInput) -> bool {
    &&& (cond is None <==> dep.condition is None)
    &&& (cond matches Some(x) ==> x < conds.len() && conds[x as int] == dep.condition->Some_0)
}

/// Whether the rules of an edge are present under condition index `cond`: the one that
/// builds the target, one for each target feature the edge turns on, and, when the edge
/// asks for them, one for each default feature `tdefaults` of the target.
pub open spec fn dep_rules_with(rules: Seq<Clause>, p: usize, t: usize, dep: DepInput, tdefaults: Seq<usize>, cond: Option<usize>) -> bool {
    &&& rules.contains(edge_rule(p, t, 0, dep, cond))
    &&& forall|k: int| 0 <= k < dep.features@.len() ==>
            rules.contains(edge_rule(p, t, (#[trigger] dep.features@[k] + 1) as usize, dep, cond))
    &&& (dep.default_features ==> forall|k: int| 0 <= k < tdefaults.len() ==>
            rules.contains(edge_rule(p, t, (#[trigger] tdefaults[k] + 1) as usize, dep, cond)))
}

/// Whether the graph holds the rules of edge `dep` out of package `p` into `t`.
pub open spec fn dep_rule_present(rules: Seq<Clause>, conds: Seq<CfgExpr>, p: usize, t: usize, dep: DepInput, tdefaults: Seq<usize>) -> bool {
    exists|cond: Option<usize>| cond_for(conds, cond, dep) && #[trigger] dep_rules_with(rules, p, t, dep, tdefaults, cond)
}

pub proof fn lemma_dep_rule_grows(r1: Seq<Clause>, c1: Seq<CfgExpr>, r2: Seq<Clause>, c2: Seq<CfgExpr>, p: usize, t: usize, dep: DepInput, tdefaults: Seq<usize>)
    requires
        grows(r1, r2),
        grows(c1, c2),
        dep_rule_present(r1, c1, p, t, dep, tdefaults),
    ensures
        dep_rule_present(r2, c2, p, t, dep, tdefaults),
{
    let cond = choose|cond: Option<usize>| cond_for(c1, cond, dep) && #[trigger] dep_rules_with(r1, p, t, dep, tdefaults, cond);
    lemma_grows_contains(r1, r2, edge_rule(p, t, 0, dep, cond));
    assert forall|k: int| 0 <= k < dep.features@.len() implies
        r2.contains(edge_rule(p, t, (#[trigger] dep.features@[k] + 1) as usize, dep, cond)) by {
        lemma_grows_contains(r1, r2, edge_rule(p, t, (dep.features@[k] + 1) as usize, dep, cond));
    }
    if dep.default_features {
        assert forall|k: int| 0 <= k < tdefaults.len() implies
            r2.contains(edge_rule(p, t, (#[trigger] tdefaults[k] + 1) as usize, dep, cond)) by {
            lemma_grows_contains(r1, r2, edge_rule(p, t, (tdefaults[k] + 1) as usize, dep, cond));
        }
    }
    if let Some(x) = cond {
        assert(c2[x as int] == c1[x as int]);
    }
    assert(cond_for(c2, cond, dep));
    assert(dep_rules_with(r2, p, t, dep, tdefaults, cond));
}

/// Whether rule `c` has the shape of a rule of dependency `dep` out of package `p`
/// under condition index `cond`: it builds the target, turns on a target feature the
/// edge names, or turns on a default feature of the target when the edge asks for them.
pub open spec fn dep_rule_shape(pk: Seq<PackageData>, p: usize, dep: DepInput, cond: Option<usize>, c: Clause) -> bool {
    &&& c.to.0 < pk.len()
    &&& pk[c.to.0 as int].id@ == dep.target@
    &&& (c == edge_rule(p, c.to.0, 0, dep, cond)
        || (exists|k: int| 0 <= k < dep.features@.len() && c == edge_rule(p, c.to.0, (#[trigger] dep.features@[k] + 1) as usize, dep, cond))
        || (dep.default_features && exists|k: int| 0 <= k < pk[c.to.0 as int].defaults@.len()
            && c == edge_rule(p, c.to.0, (#[trigger] pk[c.to.0 as int].defaults@[k] + 1) as usize, dep, cond)))
}

/// Whether rule `c` is one that dependency `dep` out of package `p` gives.
pub open spec fn is_dep_rule(pk: Seq<PackageData>, conds: Seq<CfgExpr>, p: usize, dep: DepInput, c: Clause) -> bool {
    exists|cond: Option<usize>| cond_for(conds, cond, dep) && #[trigger] dep_rule_shape(pk, p, dep, cond, c)
}

/// Whether rule `c` is one that package `p` gives: a feature building it, one of its
/// implications `imp`, or a rule of a dependency in the first resolution entry of its id.
pub open spec fn is_pkg_rule(pk: Seq<PackageData>, imp: Seq<(usize, usize)>, nodes: Seq<ResolveNode>, conds: Seq<CfgExpr>, p: usize, c: Clause) -> bool {
    ||| exists|f: usize| f < pk[p as int].features@.len() && c == #[trigger] feature_rule(p, f)
    ||| exists|k: int| 0 <= k < imp.len() && c == implies_rule(p, #[trigger] imp[k])
    ||| exists|j: int, d: int| #![trigger nodes[j].deps@[d]] first_node(nodes, pk[p as int].id@, j) && 0 <= d < nodes[j].deps@.len()
            && is_dep_rule(pk, conds, p, nodes[j].deps@[d], c)
}

/// Whether rule `c` is one that some input package gives.
pub open spec fn rule_from_input(pk: Seq<PackageData>, ps: Seq<PackageInput>, nodes: Seq<ResolveNode>, conds: Seq<CfgExpr>, c: Clause) -> bool {
    exists|p: usize| p < ps.len() && #[trigger] is_pkg_rule(pk, ps[p as int].implies@, nodes, conds, p, c)
}

pub proof fn lemma_dep_rule_conds(pk: Seq<PackageData>, c1: Seq<CfgExpr>, c2: Seq<CfgExpr>, p: usize, dep: DepInput, c: Clause)
    requires
        grows(c1, c2),
        is_dep_rule(pk, c1, p, dep, c),
    ensures
        is_dep_rule(pk, c2, p, dep, c),
{
    let cond = choose|cond: Option<usize>| cond_for(c1, cond, dep) && #[trigger] dep_rule_shape(pk, p, dep, cond, c);
    if let Some(x) = cond {
        assert(c2[x as int] == c1[x as int]);
    }
    assert(cond_for(c2, cond, dep));
}

pub proof fn lemma_pkg_rule_conds(pk: Seq<PackageData>, imp: Seq<(usize, usize)>, nodes: Seq<ResolveNode>, c1: Seq<CfgExpr>, c2: Seq<CfgExpr>, p: usize, c: Clause)
    requires
        grows(c1, c2),
        is_pkg_rule(pk, imp, nodes, c1, p, c),
    ensures
        is_pkg_rule(pk, imp, nodes, c2, p, c),
{
    if exists|j: int, d: int| #![trigger nodes[j].deps@[d]] first_node(nodes, pk[p as int].id@, j) && 0 <= d < nodes[j].deps@.len()
            && is_dep_rule(pk, c1, p, nodes[j].deps@[d], c) {
        let (j, d) = choose|j: int, d: int| #![trigger nodes[j].deps@[d]] first_node(nodes, pk[p as int].id@, j) && 0 <= d < nodes[j].deps@.len()
            && is_dep_rule(pk, c1, p, nodes[j].deps@[d], c);
        lemma_dep_rule_conds(pk, c1, c2, p, nodes[j].deps@[d], c);
    }
}

/// Whether a dependency of package `i` is consistent with the packages: its target is
/// one of them, and its feature indices are in range.
pub open spec fn dep_ok(g: PackageGraph, i: int, dep: DepInput) -> bool {
    &&& g.index_of(dep.target@) is Some
    &&& (dep.activated_by matches Some(a) ==> a < g.pkgs()[i].features@.len())
    &&& forall|k: int| 0 <= k < dep.features@.len() ==>
            #[trigger] dep.features@[k] < g.pkgs()[g.index_of(dep.target@)->Some_0].features@.len()
}

/// Whether the implications and the dependencies (from the first resolution entry of
/// its id) of package `i` are consistent with the packages.
pub open spec fn pkg_rules_ok(g: PackageGraph, i: int, implies: Seq<(usize, usize)>, nodes: Seq<ResolveNode>) -> bool {
    &&& forall|k: int| 0 <= k < implies.len() ==>
            (#[trigger] implies[k]).0 < g.pkgs()[i].features@.len() && implies[k].1 < g.pkgs()[i].features@.len()
    &&& forall|j: int, d: int| #![trigger nodes[j].deps@[d]] first_node(nodes, g.pkgs()[i].id@, j) && 0 <= d < nodes[j].deps@.len()
            ==> dep_ok(g, i, nodes[j].deps@[d])
}

/// The index of an input package with id `id`, if one has it.
pub open spec fn input_index(ps: Seq<PackageInput>, id: Seq<char>) -> int {
    choose|x: int| 0 <= x < ps.len() && ps[x].id@ == id
}

/// Whether a dependency of input package `i` names an input package and keeps its
/// feature indices in range.
pub open spec fn input_dep_ok(ps: Seq<PackageInput>, i: int, dep: DepInput) -> bool {
    &&& exists|x: int| 0 <= x < ps.len() && #[trigger] ps[x].id@ == dep.target@
    &&& (dep.activated_by matches Some(a) ==> a < ps[i].features@.len())
    &&& forall|k: int| 0 <= k < dep.features@.len() ==>
            #[trigger] dep.features@[k] < ps[input_index(ps, dep.target@)].features@.len()
}

/// Whether the implications and the dependencies (from the first resolution entry of
/// its id) of input package `i` are consistent with the input.
pub open spec fn input_rules_ok(ps: Seq<PackageInput>, nodes: Seq<ResolveNode>, i: int) -> bool {
    &&& forall|k: int| 0 <= k < ps[i].implies@.len() ==>
            (#[trigger] ps[i].implies@[k]).0 < ps[i].features@.len() && ps[i].implies@[k].1 < ps[i].features@.len()
    &&& forall|j: int, d: int| #![trigger nodes[j].deps@[d]] first_node(nodes, ps[i].id@, j) && 0 <= d < nodes[j].deps@.len()
            ==> input_dep_ok(ps, i, nodes[j].deps@[d])
}

pub open spec fn input_defaults_ok(p: PackageInput) -> bool {
    forall|k: int| 0 <= k < p.defaults@.len() ==> #[trigger] p.defaults@[k] < p.features@.len()
}

/// Whether every feature index of the input is in range and every dependency (of the
/// first resolution entry of each package) names a package.
pub open spec fn input_valid(ps: Seq<PackageInput>, nodes: Seq<ResolveNode>) -> bool {
    forall|i: int| 0 <= i < ps.len() ==> input_defaults_ok(#[trigger] ps[i]) && input_rules_ok(ps, nodes, i)
}

proof fn lemma_rules_ok_bridge(g: PackageGraph, ps: Seq<PackageInput>, members: Seq<String>, nodes: Seq<ResolveNode>, i: int)
    requires
        g.wf(),
        g.pkgs().len() == ps.len(),
        forall|a: int| 0 <= a < ps.len() ==> made_from(#[trigger] g.pkgs()[a], ps[a], members),
        0 <= i < ps.len(),
    ensures
        pkg_rules_ok(g, i, ps[i].implies@, nodes) <==> input_rules_ok(ps, nodes, i),
{
    assert(made_from(g.pkgs()[i], ps[i], members));
    assert forall|dep: DepInput| dep_ok(g, i, dep) <==> input_dep_ok(ps, i, dep) by {
        let id = dep.target@;
        if exists|x: int| 0 <= x < ps.len() && #[trigger] ps[x].id@ == id {
            let z = input_index(ps, id);
            assert(made_from(g.pkgs()[z], ps[z], members));
            assert(g.pkgs()[z].id@ == id);
            let y = g.index_of(id)->Some_0;
            assert(g.pkgs()[y].id@ == id);
            assert(y == z);
        }
        if g.index_of(id) is Some {
            let y = g.index_of(id)->Some_0;
            assert(made_from(g.pkgs()[y], ps[y], members));
            assert(ps[y].id@ == id);
        }
    }
}

/// Whether `j` is the first resolution entry with id `id`.
pub open spec fn first_node(nodes: Seq<ResolveNode>, id: Seq<char>, j: int) -> bool {
    &&& 0 <= j < nodes.len()
    &&& nodes[j].id@ == id
    &&& forall|x: int| 0 <= x < j ==> #[trigger] nodes[x].id@ != id
}

/// Whether each package id of `pk` occurs once.
pub open spec fn ids_unique(pk: Seq<PackageData>) -> bool {
    forall|i: int, j: int| 0 <= i < pk.len() && 0 <= j < pk.len() && i != j ==> pk[i].id@ != pk[j].id@
}

pub open spec fn package_ok(p: PackageData) -> bool {
    forall|k: int| 0 <= k < p.defaults@.len() ==> #[trigger] p.defaults@[k] < p.features@.len()
}

/// The graph: an arena of packages addressed by index, and the propagation rules
/// that its dependency edges and feature implications give.
#[derive(Debug)]
pub struct PackageGraph {
    packages: Vec<PackageData>,
    clauses: Vec<Clause>,
    conditions: Vec<CfgExpr>,
}

impl PackageGraph {
    pub closed spec fn pkgs(&self) -> Seq<PackageData> {
        self.packages@
    }

    pub closed spec fn rules(&self) -> Seq<Clause> {
        self.clauses@
    }

    pub closed spec fn conds(&self) -> Seq<CfgExpr> {
        self.conditions@
    }

    pub open spec fn wf(&self) -> bool {
        &&& ids_unique(self.pkgs())
        &&& forall|i: int| 0 <= i < self.pkgs().len() ==> package_ok(#[trigger] self.pkgs()[i])
        &&& forall|i: int| 0 <= i < self.rules().len() ==> clause_ok(self.pkgs(), self.conds().len(), #[trigger] self.rules()[i])
    }

    /// Index of the package with id `id`, if any.
    pub open spec fn index_of(&self, id: Seq<char>) -> Option<int> {
        if exists|i: int| 0 <= i < self.pkgs().len() && #[trigger] self.pkgs()[i].id@ == id {
            Some(choose|i: int| 0 <= i < self.pkgs().len() && #[trigger] self.pkgs()[i].id@ == id)
        } else {
            None
        }
    }

    pub fn num_packages(&self) -> (r: usize)
        ensures
            r == self.pkgs().len(),
    {
        self.packages.len()
    }

    pub fn package(&self, i: usize) -> (r: &PackageData)
        requires
            i < self.pkgs().len(),
        ensures
            *r == self.pkgs()[i as int],
    {
        &self.packages[i]
    }

    pub fn num_clauses(&self) -> (r: usize)
        ensures
            r == self.rules().len(),
    {
        self.clauses.len()
    }

    pub fn clause(&self, i: usize) -> (r: Clause)
        requires
            i < self.rules().len(),
        ensures
            r == self.rules()[i as int],
    {
        self.clauses[i]
    }

    pub fn condition(&self, k: usize) -> (r: &CfgExpr)
        requires
            k < self.conds().len(),
        ensures
            *r == self.conds()[k as int],
    {
        &self.conditions[k]
    }

    /// Whether the package at index `i` is a workspace member.
    pub fn is_workspace_member(&self, i: usize) -> (r: bool)
        requires
            i < self.pkgs().len(),
        ensures
            r == self.pkgs()[i as int].in_workspace,
    {
        self.packages[i].in_workspace
    }

    /// Looks up a package by id.
    pub fn find(&self, id: &String) -> (r: Option<usize>)
        requires
            self.wf(),
        ensures
            r matches Some(i) ==> self.index_of(id@) == Some(i as int),
            r is None ==> self.index_of(id@) is None,
    {
        let r = find_in(&self.packages, id);
        proof {
            if let Some(i) = r {
                let j = choose|j: int| 0 <= j < self.pkgs().len() && #[trigger] self.pkgs()[j].id@ == id@;
                assert(self.pkgs()[i as int].id@ == id@);
            }
        }
        r
    }
}


/// Whether some resolution entry has id `id`.
pub open spec fn has_node(nodes: Seq<ResolveNode>, id: Seq<char>) -> bool {
    exists|j: int| 0 <= j < nodes.len() && #[trigger] nodes[j].id@ == id
}

pub open spec fn strings(v: Seq<String>) -> Seq<Seq<char>> {
    v.map_values(|s: String| s@)
}

pub(crate) fn copy_strings(v: &Vec<String>) -> (r: Vec<String>)
    ensures
        strings(r@) == strings(v@),
{
    let mut r: Vec<String> = Vec::new();
    let mut k: usize = 0;
    while k < v.len()
        invariant
            k <= v@.len(),
            r@.len() == k,
            forall|j: int| 0 <= j < k ==> #[trigger] r@[j]@ == v@[j]@,
        decreases v@.len() - k,
    {
        r.push(v[k].clone());
        k = k + 1;
    }
    assert(strings(r@) =~= strings(v@));
    r
}

/// Whether package data holds the resolved features of the first resolution entry of its id.
pub open spec fn resolved_from(d: PackageData, nodes: Seq<ResolveNode>) -> bool {
    forall|j: int| first_node(nodes, d.id@, j) ==> strings(d.resolved_features@) == strings(#[trigger] nodes[j].features@)
}

/// Whether the input packages carry distinct ids.
pub open spec fn input_ids_unique(ps: Seq<PackageInput>) -> bool {
    forall|i: int, j: int| 0 <= i < ps.len() && 0 <= j < ps.len() && i != j ==> ps[i].id@ != ps[j].id@
}

/// Whether the graph's package `i` was made from input package `p`.
pub open spec fn made_from(d: PackageData, p: PackageInput, members: Seq<String>) -> bool {
    &&& d.id == p.id
    &&& d.name == p.name
    &&& d.version == p.version
    &&& d.features == p.features
    &&& d.defaults == p.defaults
    &&& d.in_workspace == (exists|m: int| 0 <= m < members.len() && #[trigger] members[m]@ == p.id@)
}

impl CfgExpr {
    /// A copy of this predicate.
    pub fn copy(&self) -> (r: CfgExpr)
        ensures
            r == *self,
        decreases self,
    {
        match self {
            CfgExpr::Const(b) => CfgExpr::Const(*b),
            CfgExpr::Key(k, v) => CfgExpr::Key(k.clone(), v.clone()),
            CfgExpr::TargetFeature(n) => CfgExpr::TargetFeature(n.clone()),
            CfgExpr::Triple(t) => CfgExpr::Triple(t.clone()),
            CfgExpr::Not(e) => CfgExpr::Not(Box::new(e.copy())),
            CfgExpr::Any(a, b) => CfgExpr::Any(Box::new(a.copy()), Box::new(b.copy())),
            CfgExpr::All(a, b) => CfgExpr::All(Box::new(a.copy()), Box::new(b.copy())),
        }
    }
}

fn contains_string(v: &Vec<String>, s: &String) -> (r: bool)
    ensures
        r == (exists|m: int| 0 <= m < v@.len() && #[trigger] v@[m]@ == s@),
{
    let mut i: usize = 0;
    while i < v.len()
        invariant
            i <= v@.len(),
            forall|j: int| 0 <= j < i ==> #[trigger] v@[j]@ != s@,
        decreases v@.len() - i,
    {
        if v[i] == *s {
            return true;
        }
        i = i + 1;
    }
    false
}

fn find_node(nodes: &Vec<ResolveNode>, id: &String) -> (r: Option<usize>)
    ensures
        r matches Some(j) ==> first_node(nodes@, id@, j as int),
        r is None <==> !has_node(nodes@, id@),
{
    let mut i: usize = 0;
    while i < nodes.len()
        invariant
            i <= nodes@.len(),
            forall|j: int| 0 <= j < i ==> #[trigger] nodes@[j].id@ != id@,
        decreases nodes@.len() - i,
    {
        if nodes[i].id == *id {
            return Some(i);
        }
        i = i + 1;
    }
    None
}

/// The first pair of input packages that share an id, if any.
fn find_duplicate(ps: &Vec<PackageInput>) -> (r: Option<usize>)
    ensures
        r is None <==> input_ids_unique(ps@),
        r matches Some(i) ==> i < ps@.len() && exists|j: int| 0 <= j < ps@.len() && j != i && ps@[j].id@ == ps@[i as int].id@,
{
    let mut i: usize = 0;
    while i < ps.len()
        invariant
            i <= ps@.len(),
            forall|a: int, b: int| 0 <= a < i && 0 <= b < i && a != b ==> ps@[a].id@ != ps@[b].id@,
        decreases ps@.len() - i,
    {
        let mut j: usize = 0;
        while j < i
            invariant
                i < ps@.len(),
                j <= i,
                forall|b: int| 0 <= b < j ==> ps@[b].id@ != ps@[i as int].id@,
            decreases i - j,
        {
            if ps[j].id == ps[i].id {
                return Some(i);
            }
            j = j + 1;
        }
        i = i + 1;
    }
    None
}

impl PackageGraph {
    /// Builds the graph from resolved metadata: the packages, the ids of the workspace
    /// members, and the resolution entries.
    pub fn new(
        packages: Vec<PackageInput>,
        workspace_members: Vec<String>,
        resolve: Option<Vec<ResolveNode>>,
    ) -> (r: Result<PackageGraph, GraphError>)
        ensures
            (r is Err && r->Err_0 is NoResolveData) <==> (resolve is None),
            (r matches Err(GraphError::DuplicatePackageId(_))) <==> (resolve is Some && !input_ids_unique(packages@)),
            (r matches Err(GraphError::MissingResolveData(_))) <==> (resolve matches Some(nodes)
                && input_ids_unique(packages@)
                && exists|i: int| 0 <= i < packages@.len() && !has_node(nodes@, #[trigger] packages@[i].id@)),
            r matches Err(GraphError::MissingResolveData(id)) ==> exists|i: int| 0 <= i < packages@.len()
                && #[trigger] packages@[i].id@ == id@ && !has_node(resolve->Some_0@, id@),
            r is Ok <==> (resolve is Some && input_ids_unique(packages@)
                && (forall|i: int| 0 <= i < packages@.len() ==> has_node(resolve->Some_0@, #[trigger] packages@[i].id@))
                && input_valid(packages@, resolve->Some_0@)),
            r matches Ok(g) ==> {
                &&& g.wf()
                &&& g.pkgs().len() == packages@.len()
                &&& forall|i: int| 0 <= i < packages@.len() ==> made_from(#[trigger] g.pkgs()[i], packages@[i], workspace_members@)
                &&& forall|i: int| 0 <= i < packages@.len() ==> resolved_from(#[trigger] g.pkgs()[i], resolve->Some_0@)
                &&& forall|x: int| 0 <= x < g.rules().len() ==>
                    rule_from_input(g.pkgs(), packages@, resolve->Some_0@, g.conds(), #[trigger] g.rules()[x])
                &&& resolve matches Some(nodes) && forall|i: int| 0 <= i < packages@.len() ==> has_node(nodes@, #[trigger] packages@[i].id@)
                &&& forall|p: usize, f: usize| p < packages@.len() && f < packages@[p as int].features@.len() ==>
                    g.rules().contains(#[trigger] feature_rule(p, f))
                &&& forall|p: usize, k: int| p < packages@.len() && 0 <= k < packages@[p as int].implies@.len() ==>
                    g.rules().contains(implies_rule(p, #[trigger] packages@[p as int].implies@[k]))
                &&& forall|p: usize, j: int, d: int| #![trigger packages@[p as int].id, resolve->Some_0@[j].deps@[d]]
                    p < packages@.len() && first_node(resolve->Some_0@, packages@[p as int].id@, j)
                    && 0 <= d < resolve->Some_0@[j].deps@.len() ==>
                    dep_rule_present(g.rules(), g.conds(), p, g.index_of(resolve->Some_0@[j].deps@[d].target@)->Some_0 as usize,
                        resolve->Some_0@[j].deps@[d], g.pkgs()[g.index_of(resolve->Some_0@[j].deps@[d].target@)->Some_0].defaults@)
            },
    {
        if resolve.is_none() {
            return Err(GraphError::NoResolveData);
        }
        let nodes = resolve.unwrap();
        if let Some(i) = find_duplicate(&packages) {
            return Err(GraphError::DuplicatePackageId(packages[i].id.clone()));
        }
        let mut k: usize = 0;
        while k < packages.len()
            invariant
                k <= packages@.len(),
                resolve == Some(nodes),
                input_ids_unique(packages@),
                forall|i: int| 0 <= i < k ==> has_node(nodes@, #[trigger] packages@[i].id@),
            decreases packages@.len() - k,
        {
            if find_node(&nodes, &packages[k].id).is_none() {
                return Err(GraphError::MissingResolveData(packages[k].id.clone()));
            }
            k = k + 1;
        }
        let ghost input = packages@;
        let mut rest = packages;
        let mut pk: Vec<PackageData> = Vec::new();
        let mut implies: Vec<Vec<(usize, usize)>> = Vec::new();
        while rest.len() > 0
            invariant
                pk@.len() + rest@.len() == input.len(),
                implies@.len() == pk@.len(),
                rest@ == input.subrange(pk@.len() as int, input.len() as int),
                input == packages@,
                resolve == Some(nodes),
                input_ids_unique(input),
                forall|a: int| 0 <= a < input.len() ==> has_node(nodes@, #[trigger] input[a].id@),
                forall|i: int| 0 <= i < pk@.len() ==> made_from(#[trigger] pk@[i], input[i], workspace_members@),
                forall|i: int| 0 <= i < pk@.len() ==> #[trigger] implies@[i] == input[i].implies,
                forall|i: int| 0 <= i < pk@.len() ==> resolved_from(#[trigger] pk@[i], nodes@),
            decreases rest@.len(),
        {
            let p = rest.remove(0);
            let member = contains_string(&workspace_members, &p.id);
            let resolved_features = match find_node(&nodes, &p.id) {
                Some(j) => {
                    proof {
                        assert forall|jj: int| first_node(nodes@, p.id@, jj) implies jj == j as int by {
                            if jj < j {
                                assert(nodes@[jj].id@ != p.id@);
                            } else if jj > j {
                                assert(nodes@[j as int].id@ != p.id@);
                            }
                        }
                    }
                    copy_strings(&nodes[j].features)
                },
                None => Vec::new(),
            };
            implies.push(p.implies);
            pk.push(PackageData {
                id: p.id,
                name: p.name,
                version: p.version,
                in_workspace: member,
                features: p.features,
                defaults: p.defaults,
                resolved_features,
            });
        }
        assert(ids_unique(pk@)) by {
            assert forall|i: int, j: int| 0 <= i < pk@.len() && 0 <= j < pk@.len() && i != j implies pk@[i].id@ != pk@[j].id@ by {
                assert(made_from(pk@[i], input[i], workspace_members@));
                assert(made_from(pk@[j], input[j], workspace_members@));
            }
        }
        let mut i: usize = 0;
        while i < pk.len()
            invariant
                i <= pk@.len(),
                input == packages@,
                resolve == Some(nodes),
                input_ids_unique(input),
                forall|a: int| 0 <= a < input.len() ==> has_node(nodes@, #[trigger] input[a].id@),
                forall|a: int| 0 <= a < i ==> package_ok(#[trigger] pk@[a]),
                pk@.len() == input.len(),
                forall|a: int| 0 <= a < pk@.len() ==> resolved_from(#[trigger] pk@[a], nodes@),
                forall|a: int| 0 <= a < pk@.len() ==> made_from(#[trigger] pk@[a], input[a], workspace_members@),
            decreases pk@.len() - i,
        {
            let mut d: usize = 0;
            while d < pk[i].defaults.len()
                invariant
                    i < pk@.len(),
                    input == packages@,
                    resolve == Some(nodes),
                    input_ids_unique(input),
                    forall|a: int| 0 <= a < input.len() ==> has_node(nodes@, #[trigger] input[a].id@),
                    pk@.len() == input.len(),
                    forall|a: int| 0 <= a < pk@.len() ==> made_from(#[trigger] pk@[a], input[a], workspace_members@),
                    d <= pk@[i as int].defaults@.len(),
                forall|a: int| 0 <= a < pk@.len() ==> resolved_from(#[trigger] pk@[a], nodes@),
                    forall|x: int| 0 <= x < d ==> #[trigger] pk@[i as int].defaults@[x] < pk@[i as int].features@.len(),
                decreases pk@[i as int].defaults@.len() - d,
            {
                if pk[i].defaults[d] >= pk[i].features.len() {
                    proof {
                        assert(made_from(pk@[i as int], input[i as int], workspace_members@));
                        assert(!input_defaults_ok(input[i as int]));
                    }
                    return Err(GraphError::InvalidFeatureIndex(pk[i].id.clone()));
                }
                d = d + 1;
            }
            i = i + 1;
        }
        let mut graph = PackageGraph { packages: pk, clauses: Vec::new(), conditions: Vec::new() };
        let mut i: usize = 0;
        while i < graph.packages.len()
            invariant
                graph.wf(),
                graph.packages@ == pk@,
                input == packages@,
                forall|a: int| 0 <= a < pk@.len() ==> resolved_from(#[trigger] pk@[a], nodes@),
                resolve == Some(nodes),
                input_ids_unique(input),
                implies@.len() == pk@.len(),
                forall|a: int| 0 <= a < input.len() ==> has_node(nodes@, #[trigger] input[a].id@),
                input.len() == pk@.len(),
                forall|a: int| 0 <= a < pk@.len() ==> made_from(#[trigger] pk@[a], input[a], workspace_members@),
                forall|a: int| 0 <= a < pk@.len() ==> #[trigger] implies@[a] == input[a].implies,
                i <= pk@.len(),
                forall|p: usize, f: usize| p < i && f < input[p as int].features@.len() ==>
                    graph.rules().contains(#[trigger] feature_rule(p, f)),
                forall|p: usize, k: int| p < i && 0 <= k < input[p as int].implies@.len() ==>
                    graph.rules().contains(implies_rule(p, #[trigger] input[p as int].implies@[k])),
                forall|p: usize, j: int, d: int| #![trigger input[p as int].id, nodes@[j].deps@[d]]
                    p < i && first_node(nodes@, input[p as int].id@, j) && 0 <= d < nodes@[j].deps@.len() ==>
                    dep_rule_present(graph.rules(), graph.conds(), p, graph.index_of(nodes@[j].deps@[d].target@)->Some_0 as usize,
                        nodes@[j].deps@[d], graph.pkgs()[graph.index_of(nodes@[j].deps@[d].target@)->Some_0].defaults@),
                forall|a: int| 0 <= a < pk@.len() ==> package_ok(#[trigger] pk@[a]),
                forall|a: int| 0 <= a < i ==> input_rules_ok(input, nodes@, a),
                forall|x: int| 0 <= x < graph.rules().len() ==>
                    rule_from_input(pk@, input, nodes@, graph.conds(), #[trigger] graph.rules()[x]),
            decreases pk@.len() - i,
        {
            let ghost rp = graph.rules();
            let ghost cp = graph.conds();
            let r = graph.add_rules_of(i, &implies[i], &nodes);
            proof {
                assert(implies@[i as int] == input[i as int].implies);
                lemma_rules_ok_bridge(graph, input, workspace_members@, nodes@, i as int);
            }
            if let Err(e) = r {
                return Err(e);
            }
            proof {
                assert forall|x: int| 0 <= x < graph.rules().len() implies
                    rule_from_input(pk@, input, nodes@, graph.conds(), #[trigger] graph.rules()[x]) by {
                    if x < rp.len() {
                        assert(graph.rules()[x] == rp[x]);
                        assert(rule_from_input(pk@, input, nodes@, cp, rp[x]));
                        let p = choose|p: usize| p < input.len() && #[trigger] is_pkg_rule(pk@, input[p as int].implies@, nodes@, cp, p, rp[x]);
                        lemma_pkg_rule_conds(pk@, input[p as int].implies@, nodes@, cp, graph.conds(), p, rp[x]);
                        assert(is_pkg_rule(pk@, input[p as int].implies@, nodes@, graph.conds(), p, graph.rules()[x]));
                    } else {
                        assert(is_pkg_rule(pk@, input[i as int].implies@, nodes@, graph.conds(), i, graph.rules()[x]));
                    }
                }
                assert(input_rules_ok(input, nodes@, i as int));
                assert(made_from(pk@[i as int], input[i as int], workspace_members@));
                assert(implies@[i as int] == input[i as int].implies);
                assert forall|p: usize, f: usize| p < i + 1 && f < input[p as int].features@.len() implies
                    graph.rules().contains(#[trigger] feature_rule(p, f)) by {
                    if p < i {
                        lemma_grows_contains(rp, graph.rules(), feature_rule(p, f));
                    } else {
                        assert(made_from(pk@[p as int], input[p as int], workspace_members@));
                    }
                }
                assert forall|p: usize, k: int| p < i + 1 && 0 <= k < input[p as int].implies@.len() implies
                    graph.rules().contains(implies_rule(p, #[trigger] input[p as int].implies@[k])) by {
                    if p < i {
                        lemma_grows_contains(rp, graph.rules(), implies_rule(p, input[p as int].implies@[k]));
                    }
                }
                assert forall|p: usize, j: int, d: int| #![trigger input[p as int].id, nodes@[j].deps@[d]]
                    p < i + 1 && first_node(nodes@, input[p as int].id@, j) && 0 <= d < nodes@[j].deps@.len() implies
                    dep_rule_present(graph.rules(), graph.conds(), p, graph.index_of(nodes@[j].deps@[d].target@)->Some_0 as usize,
                        nodes@[j].deps@[d], graph.pkgs()[graph.index_of(nodes@[j].deps@[d].target@)->Some_0].defaults@) by {
                    if p < i {
                        lemma_dep_rule_grows(rp, cp, graph.rules(), graph.conds(), p, graph.index_of(nodes@[j].deps@[d].target@)->Some_0 as usize,
                            nodes@[j].deps@[d], graph.pkgs()[graph.index_of(nodes@[j].deps@[d].target@)->Some_0].defaults@);
                    } else {
                        assert(made_from(pk@[p as int], input[p as int], workspace_members@));
                    }
                }
            }
            i = i + 1;
        }
        proof {
            assert forall|x: int| 0 <= x < graph.rules().len() implies
                rule_from_input(graph.pkgs(), packages@, nodes@, graph.conds(), #[trigger] graph.rules()[x]) by {
                assert(rule_from_input(pk@, input, nodes@, graph.conds(), graph.rules()[x]));
            }
            assert forall|a: int| 0 <= a < input.len() implies input_defaults_ok(#[trigger] input[a]) && input_rules_ok(input, nodes@, a) by {
                assert(made_from(pk@[a], input[a], workspace_members@));
                assert(package_ok(pk@[a]));
            }
        }
        Ok(graph)
    }

    fn push_clause(&mut self, c: Clause)
        requires
            old(self).wf(),
            clause_ok(old(self).pkgs(), old(self).conds().len(), c),
        ensures
            final(self).wf(),
            final(self).pkgs() == old(self).pkgs(),
            final(self).conds() == old(self).conds(),
            final(self).rules() == old(self).rules().push(c),
    {
        self.clauses.push(c);
        assert forall|x: int| 0 <= x < self.rules().len() implies clause_ok(self.pkgs(), self.conds().len(), #[trigger] self.rules()[x]) by {
            if x < old(self).rules().len() {
                assert(self.rules()[x] == old(self).rules()[x]);
            }
        }
    }

    fn push_condition(&mut self, e: CfgExpr) -> (r: usize)
        requires
            old(self).wf(),
        ensures
            final(self).wf(),
            final(self).pkgs() == old(self).pkgs(),
            final(self).rules() == old(self).rules(),
            final(self).conds() == old(self).conds().push(e),
            r == old(self).conds().len(),
    {
        self.conditions.push(e);
        assert forall|x: int| 0 <= x < self.rules().len() implies clause_ok(self.pkgs(), self.conds().len(), #[trigger] self.rules()[x]) by {
            assert(clause_ok(old(self).pkgs(), old(self).conds().len(), old(self).rules()[x]));
        }
        self.conditions.len() - 1
    }

    /// Adds the rules that package `i` gives: its features build it, its implications,
    /// and its resolved dependencies.
    fn add_rules_of(&mut self, i: usize, implies: &Vec<(usize, usize)>, nodes: &Vec<ResolveNode>) -> (r: Result<(), GraphError>)
        requires
            old(self).wf(),
            i < old(self).pkgs().len(),
        ensures
            final(self).wf(),
            final(self).pkgs() == old(self).pkgs(),
            grows(old(self).rules(), final(self).rules()),
            grows(old(self).conds(), final(self).conds()),
            r is Ok <==> pkg_rules_ok(*old(self), i as int, implies@, nodes@),
            r matches Err(e) ==> (e == GraphError::UnknownDependency(old(self).pkgs()[i as int].id)
                || e == GraphError::InvalidFeatureIndex(old(self).pkgs()[i as int].id)),
            forall|x: int| old(self).rules().len() <= x < final(self).rules().len() ==>
                is_pkg_rule(final(self).pkgs(), implies@, nodes@, final(self).conds(), i, #[trigger] final(self).rules()[x]),
            r is Ok ==> forall|f: usize| f < final(self).pkgs()[i as int].features@.len() ==>
                final(self).rules().contains(#[trigger] feature_rule(i, f)),
            r is Ok ==> forall|k: int| 0 <= k < implies@.len() ==>
                final(self).rules().contains(implies_rule(i, #[trigger] implies@[k])),
            r is Ok ==> forall|j: int, d: int| first_node(nodes@, final(self).pkgs()[i as int].id@, j) && 0 <= d < nodes@[j].deps@.len() ==>
                dep_rule_present(final(self).rules(), final(self).conds(), i, final(self).index_of(#[trigger] nodes@[j].deps@[d].target@)->Some_0 as usize,
                    nodes@[j].deps@[d], final(self).pkgs()[final(self).index_of(nodes@[j].deps@[d].target@)->Some_0].defaults@),
    {
        let nf = self.packages[i].features.len();
        let mut f: usize = 0;
        while f < nf
            invariant
                self.wf(),
                self.pkgs() == old(self).pkgs(),
                i < self.pkgs().len(),
                nf == self.pkgs()[i as int].features@.len(),
                f <= nf,
                grows(old(self).rules(), self.rules()),
                self.conds() == old(self).conds(),
                forall|x: usize| x < f ==> self.rules().contains(#[trigger] feature_rule(i, x)),
                forall|x: int| old(self).rules().len() <= x < self.rules().len() ==>
                    is_pkg_rule(self.pkgs(), implies@, nodes@, self.conds(), i, #[trigger] self.rules()[x]),
            decreases nf - f,
        {
            let ghost prev = self.rules();
            self.push_clause(Clause { from: (i, f + 1), gate: None, to: (i, 0), kind: DepKind::Normal, cond: None });
            proof {
                assert forall|x: usize| x < f + 1 implies self.rules().contains(#[trigger] feature_rule(i, x)) by {
                    if x < f {
                        lemma_grows_contains(prev, self.rules(), feature_rule(i, x));
                    } else {
                        assert(self.rules()[prev.len() as int] == feature_rule(i, x));
                    }
                }
                assert forall|x: int| old(self).rules().len() <= x < self.rules().len() implies
                    is_pkg_rule(self.pkgs(), implies@, nodes@, self.conds(), i, #[trigger] self.rules()[x]) by {
                    if x < prev.len() {
                        assert(self.rules()[x] == prev[x]);
                    } else {
                        assert(self.rules()[x] == feature_rule(i, f));
                    }
                }
            }
            f = f + 1;
        }
        let mut k: usize = 0;
        while k < implies.len()
            invariant
                self.wf(),
                self.pkgs() == old(self).pkgs(),
                i < self.pkgs().len(),
                nf == self.pkgs()[i as int].features@.len(),
                k <= implies@.len(),
                grows(old(self).rules(), self.rules()),
                self.conds() == old(self).conds(),
                forall|x: usize| x < nf ==> self.rules().contains(#[trigger] feature_rule(i, x)),
                forall|x: int| 0 <= x < k ==> self.rules().contains(implies_rule(i, #[trigger] implies@[x])),
                forall|x: int| 0 <= x < k ==> (#[trigger] implies@[x]).0 < nf && implies@[x].1 < nf,
                forall|x: int| old(self).rules().len() <= x < self.rules().len() ==>
                    is_pkg_rule(self.pkgs(), implies@, nodes@, self.conds(), i, #[trigger] self.rules()[x]),
            decreases implies@.len() - k,
        {
            let (a, b) = implies[k];
            if a >= nf || b >= nf {
                assert(i < self.pkgs().len());
                return Err(GraphError::InvalidFeatureIndex(self.packages[i].id.clone()));
            }
            let ghost prev = self.rules();
            self.push_clause(Clause { from: (i, a + 1), gate: None, to: (i, b + 1), kind: DepKind::Normal, cond: None });
            proof {
                assert forall|x: usize| x < nf implies self.rules().contains(#[trigger] feature_rule(i, x)) by {
                    lemma_grows_contains(prev, self.rules(), feature_rule(i, x));
                }
                assert forall|x: int| 0 <= x < k + 1 implies self.rules().contains(implies_rule(i, #[trigger] implies@[x])) by {
                    if x < k {
                        lemma_grows_contains(prev, self.rules(), implies_rule(i, implies@[x]));
                    } else {
                        assert(self.rules()[prev.len() as int] == implies_rule(i, implies@[x]));
                    }
                }
                assert forall|x: int| old(self).rules().len() <= x < self.rules().len() implies
                    is_pkg_rule(self.pkgs(), implies@, nodes@, self.conds(), i, #[trigger] self.rules()[x]) by {
                    if x < prev.len() {
                        assert(self.rules()[x] == prev[x]);
                    } else {
                        assert(self.rules()[x] == implies_rule(i, implies@[k as int]));
                    }
                }
            }
            k = k + 1;
        }
        let j = match find_node(nodes, &self.packages[i].id) {
            Some(j) => j,
            None => {
                proof {
                    assert forall|jj: int, d: int| #![trigger nodes@[jj].deps@[d]] first_node(nodes@, self.pkgs()[i as int].id@, jj)
                        && 0 <= d < nodes@[jj].deps@.len() implies dep_ok(*old(self), i as int, nodes@[jj].deps@[d]) by {
                        assert(has_node(nodes@, self.pkgs()[i as int].id@));
                    }
                }
                return Ok(());
            },
        };
        let deps = &nodes[j].deps;
        let ghost r_mid = self.rules();
        let mut k: usize = 0;
        while k < deps.len()
            invariant
                self.wf(),
                self.pkgs() == old(self).pkgs(),
                i < self.pkgs().len(),
                nf == self.pkgs()[i as int].features@.len(),
                k <= deps@.len(),
                *deps == nodes@[j as int].deps,
                first_node(nodes@, self.pkgs()[i as int].id@, j as int),
                grows(old(self).rules(), r_mid),
                grows(r_mid, self.rules()),
                grows(old(self).conds(), self.conds()),
                forall|x: usize| x < nf ==> r_mid.contains(#[trigger] feature_rule(i, x)),
                forall|x: int| 0 <= x < implies@.len() ==> r_mid.contains(implies_rule(i, #[trigger] implies@[x])),
                forall|x: int| 0 <= x < implies@.len() ==> (#[trigger] implies@[x]).0 < nf && implies@[x].1 < nf,
                forall|d: int| 0 <= d < k ==> dep_ok(*old(self), i as int, #[trigger] deps@[d]),
                forall|x: int| old(self).rules().len() <= x < self.rules().len() ==>
                    is_pkg_rule(self.pkgs(), implies@, nodes@, self.conds(), i, #[trigger] self.rules()[x]),
                forall|d: int| 0 <= d < k ==> dep_rule_present(self.rules(), self.conds(), i, self.index_of(#[trigger] deps@[d].target@)->Some_0 as usize,
                    deps@[d], self.pkgs()[self.index_of(deps@[d].target@)->Some_0].defaults@),
            decreases deps@.len() - k,
        {
            let ghost rp = self.rules();
            let ghost cp = self.conds();
            let r = self.add_dep(i, &deps[k]);
            if r.is_err() {
                proof {
                    assert(nodes@[j as int].deps@[k as int] == deps@[k as int]);
                }
                return r;
            }
            proof {
                assert forall|x: int| old(self).rules().len() <= x < self.rules().len() implies
                    is_pkg_rule(self.pkgs(), implies@, nodes@, self.conds(), i, #[trigger] self.rules()[x]) by {
                    if x < rp.len() {
                        assert(self.rules()[x] == rp[x]);
                        lemma_pkg_rule_conds(self.pkgs(), implies@, nodes@, cp, self.conds(), i, rp[x]);
                    } else {
                        assert(is_dep_rule(self.pkgs(), self.conds(), i, deps@[k as int], self.rules()[x]));
                        assert(deps@[k as int] == nodes@[j as int].deps@[k as int]);
                    }
                }
                assert forall|d: int| 0 <= d < k + 1 implies dep_rule_present(self.rules(), self.conds(), i, self.index_of(#[trigger] deps@[d].target@)->Some_0 as usize,
                    deps@[d], self.pkgs()[self.index_of(deps@[d].target@)->Some_0].defaults@) by {
                    if d < k {
                        lemma_dep_rule_grows(rp, cp, self.rules(), self.conds(), i, self.index_of(deps@[d].target@)->Some_0 as usize,
                            deps@[d], self.pkgs()[self.index_of(deps@[d].target@)->Some_0].defaults@);
                    }
                }
            }
            k = k + 1;
        }
        proof {
            assert forall|x: usize| x < nf implies self.rules().contains(#[trigger] feature_rule(i, x)) by {
                lemma_grows_contains(r_mid, self.rules(), feature_rule(i, x));
            }
            assert forall|x: int| 0 <= x < implies@.len() implies self.rules().contains(implies_rule(i, #[trigger] implies@[x])) by {
                lemma_grows_contains(r_mid, self.rules(), implies_rule(i, implies@[x]));
            }
            assert forall|jj: int, d: int| first_node(nodes@, self.pkgs()[i as int].id@, jj) && 0 <= d < nodes@[jj].deps@.len() implies
                dep_rule_present(self.rules(), self.conds(), i, self.index_of(#[trigger] nodes@[jj].deps@[d].target@)->Some_0 as usize,
                    nodes@[jj].deps@[d], self.pkgs()[self.index_of(nodes@[jj].deps@[d].target@)->Some_0].defaults@) by {
                assert(jj == j as int);
            }
            assert forall|jj: int, d: int| #![trigger nodes@[jj].deps@[d]] first_node(nodes@, self.pkgs()[i as int].id@, jj)
                && 0 <= d < nodes@[jj].deps@.len() implies dep_ok(*old(self), i as int, nodes@[jj].deps@[d]) by {
                assert(jj == j as int);
                assert(dep_ok(*old(self), i as int, deps@[d]));
            }
            assert(grows(old(self).rules(), self.rules()));
        }
        Ok(())
    }

    /// Adds the rules of one resolved dependency of package `i`.
    fn add_dep(&mut self, i: usize, dep: &DepInput) -> (r: Result<(), GraphError>)
        requires
            old(self).wf(),
            i < old(self).pkgs().len(),
        ensures
            final(self).wf(),
            final(self).pkgs() == old(self).pkgs(),
            grows(old(self).rules(), final(self).rules()),
            grows(old(self).conds(), final(self).conds()),
            r is Ok <==> dep_ok(*old(self), i as int, *dep),
            r matches Err(e) ==> (e == GraphError::UnknownDependency(old(self).pkgs()[i as int].id)
                || e == GraphError::InvalidFeatureIndex(old(self).pkgs()[i as int].id)),
            forall|x: int| old(self).rules().len() <= x < final(self).rules().len() ==>
                is_dep_rule(final(self).pkgs(), final(self).conds(), i, *dep, #[trigger] final(self).rules()[x]),
            r is Ok ==> dep_rule_present(final(self).rules(), final(self).conds(), i,
                final(self).index_of(dep.target@)->Some_0 as usize, *dep,
                final(self).pkgs()[final(self).index_of(dep.target@)->Some_0].defaults@),
    {
        let t = match self.find(&dep.target) {
            Some(t) => t,
            None => return Err(GraphError::UnknownDependency(self.packages[i].id.clone())),
        };
        let gate = match dep.activated_by {
            Some(a) => {
                if a >= self.packages[i].features.len() {
                    return Err(GraphError::InvalidFeatureIndex(self.packages[i].id.clone()));
                }
                Some((i, a + 1))
            },
            None => None,
        };
        let ntf = self.packages[t].features.len();
        let mut k: usize = 0;
        while k < dep.features.len()
            invariant
                self.wf(),
                self.pkgs() == old(self).pkgs(),
                self.rules() == old(self).rules(),
                self.conds() == old(self).conds(),
                i < self.pkgs().len(),
                k <= dep.features@.len(),
                t < self.pkgs().len(),
                self.index_of(dep.target@) == Some(t as int),
                ntf == self.pkgs()[t as int].features@.len(),
                forall|x: int| 0 <= x < k ==> #[trigger] dep.features@[x] < ntf,
            decreases dep.features@.len() - k,
        {
            if dep.features[k] >= ntf {
                return Err(GraphError::InvalidFeatureIndex(self.packages[i].id.clone()));
            }
            k = k + 1;
        }
        let ghost c0 = self.conds();
        let cond = match &dep.condition {
            Some(e) => {
                let c = self.push_condition(e.copy());
                Some(c)
            },
            None => None,
        };
        proof {
            assert(cond_for(self.conds(), cond, *dep));
        }
        let kind = dep.kind;
        let ghost rs = self.rules();
        self.push_clause(Clause { from: (i, 0), gate, to: (t, 0), kind, cond });
        proof {
            assert(self.rules()[rs.len() as int] == edge_rule(i, t, 0, *dep, cond));
            lemma_index_of(*self, dep.target@);
            assert(dep_rule_shape(self.pkgs(), i, *dep, cond, self.rules()[rs.len() as int]));
            assert(rs.len() == old(self).rules().len());
        }
        let ghost r1 = self.rules();
        let mut k: usize = 0;
        while k < dep.features.len()
            invariant
                self.wf(),
                self.pkgs() == old(self).pkgs(),
                i < self.pkgs().len(),
                t < self.pkgs().len(),
                self.index_of(dep.target@) == Some(t as int),
                k <= dep.features@.len(),
                ntf == self.pkgs()[t as int].features@.len(),
                forall|x: int| 0 <= x < dep.features@.len() ==> #[trigger] dep.features@[x] < ntf,
                gate == gate_of(i, dep.activated_by),
                kind == dep.kind,
                gate matches Some(w) ==> slot_ok(self.pkgs(), w),
                cond matches Some(c) ==> c < self.conds().len(),
                cond_for(self.conds(), cond, *dep),
                grows(old(self).rules(), self.rules()),
                grows(old(self).conds(), self.conds()),
                self.rules().contains(edge_rule(i, t, 0, *dep, cond)),
                forall|x: int| 0 <= x < k ==> self.rules().contains(edge_rule(i, t, (#[trigger] dep.features@[x] + 1) as usize, *dep, cond)),
                forall|x: int| old(self).rules().len() <= x < self.rules().len() ==>
                    is_dep_rule(self.pkgs(), self.conds(), i, *dep, #[trigger] self.rules()[x]),
                self.pkgs()[t as int].id@ == dep.target@,
                old(self).rules().len() <= r1.len(),
            decreases dep.features@.len() - k,
        {
            let ghost prev = self.rules();
            self.push_clause(Clause { from: (i, 0), gate, to: (t, dep.features[k] + 1), kind, cond });
            proof {
                lemma_grows_contains(prev, self.rules(), edge_rule(i, t, 0, *dep, cond));
                assert forall|x: int| 0 <= x < k + 1 implies self.rules().contains(edge_rule(i, t, (#[trigger] dep.features@[x] + 1) as usize, *dep, cond)) by {
                    if x < k {
                        lemma_grows_contains(prev, self.rules(), edge_rule(i, t, (dep.features@[x] + 1) as usize, *dep, cond));
                    } else {
                        assert(self.rules()[prev.len() as int] == edge_rule(i, t, (dep.features@[x] + 1) as usize, *dep, cond));
                    }
                }
                assert forall|x: int| old(self).rules().len() <= x < self.rules().len() implies
                    is_dep_rule(self.pkgs(), self.conds(), i, *dep, #[trigger] self.rules()[x]) by {
                    if x < prev.len() {
                        assert(self.rules()[x] == prev[x]);
                    } else {
                        assert(self.rules()[x] == edge_rule(i, t, (dep.features@[k as int] + 1) as usize, *dep, cond));
                        assert(dep_rule_shape(self.pkgs(), i, *dep, cond, self.rules()[x]));
                    }
                }
            }
            k = k + 1;
        }
        if dep.default_features {
            let mut k: usize = 0;
            while k < self.packages[t].defaults.len()
                invariant
                    dep.default_features,
                    self.wf(),
                    self.pkgs() == old(self).pkgs(),
                    i < self.pkgs().len(),
                    t < self.pkgs().len(),
                    self.index_of(dep.target@) == Some(t as int),
                    ntf == self.pkgs()[t as int].features@.len(),
                    gate == gate_of(i, dep.activated_by),
                    kind == dep.kind,
                    gate matches Some(w) ==> slot_ok(self.pkgs(), w),
                    cond matches Some(c) ==> c < self.conds().len(),
                    cond_for(self.conds(), cond, *dep),
                    grows(old(self).rules(), self.rules()),
                    grows(old(self).conds(), self.conds()),
                    self.rules().contains(edge_rule(i, t, 0, *dep, cond)),
                forall|x: int| old(self).rules().len() <= x < self.rules().len() ==>
                        is_dep_rule(self.pkgs(), self.conds(), i, *dep, #[trigger] self.rules()[x]),
                    self.pkgs()[t as int].id@ == dep.target@,
                    old(self).rules().len() <= r1.len(),
                    forall|x: int| 0 <= x < dep.features@.len() ==> self.rules().contains(edge_rule(i, t, (#[trigger] dep.features@[x] + 1) as usize, *dep, cond)),
                    forall|x: int| 0 <= x < k ==> self.rules().contains(edge_rule(i, t, (#[trigger] self.pkgs()[t as int].defaults@[x] + 1) as usize, *dep, cond)),
                decreases self.pkgs()[t as int].defaults@.len() - k,
            {
                assert(package_ok(self.pkgs()[t as int]));
                assert(self.pkgs()[t as int].defaults@[k as int] < self.pkgs()[t as int].features@.len());
                let d = self.packages[t].defaults[k];
                assert(d < ntf);
                let ghost prev = self.rules();
                self.push_clause(Clause { from: (i, 0), gate, to: (t, d + 1), kind, cond });
                proof {
                    let tdef = self.pkgs()[t as int].defaults@;
                    lemma_grows_contains(prev, self.rules(), edge_rule(i, t, 0, *dep, cond));
                    assert forall|x: int| 0 <= x < dep.features@.len() implies self.rules().contains(edge_rule(i, t, (#[trigger] dep.features@[x] + 1) as usize, *dep, cond)) by {
                        lemma_grows_contains(prev, self.rules(), edge_rule(i, t, (dep.features@[x] + 1) as usize, *dep, cond));
                    }
                    assert forall|x: int| 0 <= x < k + 1 implies self.rules().contains(edge_rule(i, t, (#[trigger] tdef[x] + 1) as usize, *dep, cond)) by {
                        if x < k {
                            lemma_grows_contains(prev, self.rules(), edge_rule(i, t, (tdef[x] + 1) as usize, *dep, cond));
                        } else {
                            assert(self.rules()[prev.len() as int] == edge_rule(i, t, (tdef[x] + 1) as usize, *dep, cond));
                        }
                    }
                    assert forall|x: int| old(self).rules().len() <= x < self.rules().len() implies
                        is_dep_rule(self.pkgs(), self.conds(), i, *dep, #[trigger] self.rules()[x]) by {
                        if x < prev.len() {
                            assert(self.rules()[x] == prev[x]);
                        } else {
                            assert(self.rules()[x] == edge_rule(i, t, (tdef[k as int] + 1) as usize, *dep, cond));
                            assert(dep_rule_shape(self.pkgs(), i, *dep, cond, self.rules()[x]));
                        }
                    }
                }
                k = k + 1;
            }
        }
        proof {
            assert(dep_rules_with(self.rules(), i, t, *dep, self.pkgs()[t as int].defaults@, cond));
        }
        Ok(())
    }
}

/// What `index_of` finds is a package with that id.
pub proof fn lemma_index_of(g: PackageGraph, id: Seq<char>)
    ensures
        g.index_of(id) matches Some(i) ==> 0 <= i < g.pkgs().len() && g.pkgs()[i].id@ == id,
{
}

/// The first index whose package has id `id`.
fn find_in(pk: &Vec<PackageData>, id: &String) -> (r: Option<usize>)
    ensures
        r matches Some(i) ==> i < pk@.len() && pk@[i as int].id@ == id@,
        r is None ==> forall|j: int| 0 <= j < pk@.len() ==> #[trigger] pk@[j].id@ != id@,
{
    let mut i: usize = 0;
    while i < pk.len()
        invariant
            i <= pk@.len(),
            forall|j: int| 0 <= j < i ==> #[trigger] pk@[j].id@ != id@,
        decreases pk@.len() - i,
    {
        if pk[i].id == *id {
            return Some(i);
        }
        i = i + 1;
    }
    None
}

/// Whether rule `c` is the package-level rule of a dependency edge of kind `kind`
/// out of package `p`.
pub open spec fn is_edge_of(c: Clause, p: usize, kind: DepKind) -> bool {
    c.from == (p, 0usize) && c.to.1 == 0 && c.kind == kind
}

impl PackageGraph {
    /// Whether rule `k` is active on a platform: it has no condition, or its condition
    /// holds there.
    pub fn is_edge_active(&self, k: usize, platform: &Platform) -> (r: bool)
        requires
            self.wf(),
            k < self.rules().len(),
        ensures
            r == (self.rules()[k as int].cond matches Some(c) ==> self.conds()[c as int].holds(platform)),
    {
        let c = self.clauses[k];
        match c.cond {
            None => true,
            Some(x) => platform.eval_expr(&self.conditions[x]),
        }
    }

    /// The dependency edges of kind `kind` out of package `p`, as rule indices in
    /// increasing order.
    pub fn direct_dependencies(&self, p: usize, kind: DepKind) -> (r: Vec<usize>)
        ensures
            forall|a: int, b: int| 0 <= a < b < r@.len() ==> r@[a] < r@[b],
            forall|k: int| 0 <= k < r@.len() ==> #[trigger] r@[k] < self.rules().len(),
            forall|k: usize| k < self.rules().len() ==> (r@.contains(k) <==> is_edge_of(#[trigger] self.rules()[k as int], p, kind)),
    {
        let mut r: Vec<usize> = Vec::new();
        let mut k: usize = 0;
        while k < self.clauses.len()
            invariant
                k <= self.rules().len(),
                forall|a: int, b: int| 0 <= a < b < r@.len() ==> r@[a] < r@[b],
                forall|x: int| 0 <= x < r@.len() ==> #[trigger] r@[x] < k,
                forall|x: usize| x < k ==> (r@.contains(x) <==> is_edge_of(#[trigger] self.rules()[x as int], p, kind)),
            decreases self.rules().len() - k,
        {
            let c = self.clauses[k];
            if c.from.0 == p && c.from.1 == 0 && c.to.1 == 0 && c.kind == kind {
                let ghost prev = r@;
                r.push(k);
                proof {
                    assert forall|x: usize| x < k + 1 implies (r@.contains(x) <==> is_edge_of(#[trigger] self.rules()[x as int], p, kind)) by {
                        if x < k {
                            if r@.contains(x) {
                                let j = choose|j: int| 0 <= j < r@.len() && r@[j] == x;
                                if j < prev.len() {
                                    assert(prev[j] == x);
                                }
                            }
                            if prev.contains(x) {
                                let j = choose|j: int| 0 <= j < prev.len() && prev[j] == x;
                                assert(r@[j] == x);
                            }
                        } else {
                            assert(r@[prev.len() as int] == x);
                        }
                    }
                }
            } else {
                proof {
                    assert(!r@.contains(k)) by {
                        if r@.contains(k) {
                            let j = choose|j: int| 0 <= j < r@.len() && r@[j] == k;
                            assert(r@[j] < k);
                        }
                    }
                }
            }
            k = k + 1;
        }
        r
    }
}

/// Whether a reachability walk follows rule `c`: a package-level dependency edge,
/// development edges only when included. Conditions and enabling features are ignored.
pub open spec fn followed(c: Clause, include_dev: bool) -> bool {
    c.from.1 == 0 && c.to.1 == 0 && (c.kind != DepKind::Development || include_dev)
}

/// Whether a set of packages is closed under the followed edges.
pub open spec fn closed_under_edges(g: PackageGraph, t: Seq<bool>, include_dev: bool) -> bool {
    forall|k: int| 0 <= k < g.rules().len() && followed(#[trigger] g.rules()[k], include_dev) && t[g.rules()[k].from.0 as int]
        ==> t[g.rules()[k].to.0 as int]
}

/// Whether package `p` is in every closed set of packages that holds the roots.
pub open spec fn reachable(g: PackageGraph, roots: Seq<usize>, include_dev: bool, p: int) -> bool {
    forall|t: Seq<bool>| t.len() == g.pkgs().len() && closed_under_edges(g, t, include_dev)
        && (forall|x: int| 0 <= x < roots.len() ==> t[#[trigger] roots[x] as int]) ==> #[trigger] t[p]
}

impl PackageGraph {
    /// The packages reachable from the roots along dependency edges, development edges
    /// only when included, without platform filtering.
    pub fn transitive_closure(&self, roots: &Vec<usize>, include_dev: bool) -> (r: Vec<bool>)
        requires
            self.wf(),
            forall|x: int| 0 <= x < roots@.len() ==> #[trigger] roots@[x] < self.pkgs().len(),
        ensures
            r@.len() == self.pkgs().len(),
            forall|p: int| 0 <= p < r@.len() ==> (#[trigger] r@[p] <==> reachable(*self, roots@, include_dev, p)),
    {
        let n = self.packages.len();
        let mut s: Vec<bool> = Vec::new();
        let mut i: usize = 0;
        while i < n
            invariant
                n == self.pkgs().len(),
                i <= n,
                s@.len() == i,
                forall|j: int| 0 <= j < i ==> !#[trigger] s@[j],
            decreases n - i,
        {
            s.push(false);
            i = i + 1;
        }
        let mut k: usize = 0;
        while k < roots.len()
            invariant
                self.wf(),
                n == self.pkgs().len(),
                s@.len() == n,
                k <= roots@.len(),
                forall|x: int| 0 <= x < roots@.len() ==> #[trigger] roots@[x] < self.pkgs().len(),
                forall|x: int| 0 <= x < k ==> s@[#[trigger] roots@[x] as int],
                forall|p: int| 0 <= p < n && #[trigger] s@[p] ==> reachable(*self, roots@, include_dev, p),
            decreases roots@.len() - k,
        {
            let q = roots[k];
            s.set(q, true);
            proof {
                assert forall|t: Seq<bool>| t.len() == self.pkgs().len() && closed_under_edges(*self, t, include_dev)
                    && (forall|x: int| 0 <= x < roots@.len() ==> t[#[trigger] roots@[x] as int]) implies #[trigger] t[q as int] by {
                    assert(t[roots@[k as int] as int]);
                }
            }
            k = k + 1;
        }
        loop
            invariant
                self.wf(),
                n == self.pkgs().len(),
                s@.len() == n,
                forall|x: int| 0 <= x < roots@.len() ==> #[trigger] roots@[x] < self.pkgs().len(),
                forall|x: int| 0 <= x < roots@.len() ==> s@[#[trigger] roots@[x] as int],
                forall|p: int| 0 <= p < n && #[trigger] s@[p] ==> reachable(*self, roots@, include_dev, p),
            ensures
                closed_under_edges(*self, s@, include_dev),
            decreases crate::unify::row_false(s@),
        {
            let ghost start = s@;
            let mut changed = false;
            let mut j: usize = 0;
            while j < self.clauses.len()
                invariant
                    self.wf(),
                    n == self.pkgs().len(),
                    s@.len() == n,
                    j <= self.rules().len(),
                    forall|x: int| 0 <= x < roots@.len() ==> #[trigger] roots@[x] < self.pkgs().len(),
                    forall|x: int| 0 <= x < roots@.len() ==> s@[#[trigger] roots@[x] as int],
                    forall|p: int| 0 <= p < n && #[trigger] s@[p] ==> reachable(*self, roots@, include_dev, p),
                    !changed ==> s@ == start,
                    changed ==> crate::unify::row_false(s@) < crate::unify::row_false(start),
                    crate::unify::row_false(s@) <= crate::unify::row_false(start),
                    !changed ==> forall|x: int| 0 <= x < j && followed(#[trigger] self.rules()[x], include_dev)
                        && s@[self.rules()[x].from.0 as int] ==> s@[self.rules()[x].to.0 as int],
                decreases self.rules().len() - j,
            {
                let c = self.clauses[j];
                assert(clause_ok(self.pkgs(), self.conds().len(), self.rules()[j as int]));
                let follow = c.from.1 == 0 && c.to.1 == 0 && (c.kind != DepKind::Development || include_dev);
                if follow && s[c.from.0] && !s[c.to.0] {
                    let ghost before = s@;
                    s.set(c.to.0, true);
                    proof {
                        crate::unify::lemma_row_set(before, c.to.0 as int);
                        assert forall|x: int| 0 <= x < roots@.len() implies s@[#[trigger] roots@[x] as int] by {
                            assert(before[roots@[x] as int]);
                        }
                        assert forall|p: int| 0 <= p < n && #[trigger] s@[p] implies reachable(*self, roots@, include_dev, p) by {
                            if p == c.to.0 as int {
                                assert forall|t: Seq<bool>| t.len() == self.pkgs().len() && closed_under_edges(*self, t, include_dev)
                                    && (forall|x: int| 0 <= x < roots@.len() ==> t[#[trigger] roots@[x] as int]) implies #[trigger] t[p] by {
                                    assert(reachable(*self, roots@, include_dev, c.from.0 as int));
                                    assert(t[c.from.0 as int]);
                                    assert(followed(self.rules()[j as int], include_dev));
                                }
                            } else {
                                assert(before[p]);
                            }
                        }
                    }
                    changed = true;
                }
                j = j + 1;
            }
            if !changed {
                break;
            }
        }
        proof {
            assert forall|p: int| 0 <= p < s@.len() implies (#[trigger] s@[p] <==> reachable(*self, roots@, include_dev, p)) by {
                if reachable(*self, roots@, include_dev, p) {
                    assert(s@.len() == self.pkgs().len() && closed_under_edges(*self, s@, include_dev)
                        && (forall|x: int| 0 <= x < roots@.len() ==> s@[#[trigger] roots@[x] as int]));
                }
            }
        }
        s
    }
}

} // verus!
