use vstd::prelude::*;
use crate::graph::{PackageGraph, copy_strings, strings};
use crate::hakari::{HakariBuilder, HakariError, UnifyTargetHost, has_member, increasing, is_member};
use crate::triple::{Platform, Triple, parsed_kind};
use crate::unify::ResolverVersion;

verus! {

/// A platform in summary form.
#[derive(Clone, Debug)]
pub struct PlatformSummary {
    pub triple: String,
    pub target_features: Vec<String>,
}

/// The persisted form of a builder: packages by id, platforms by string. Omitted
/// packages are listed in graph order, so equal configurations give equal summaries.
#[derive(Clone, Debug)]
pub struct HakariBuilderSummary {
    pub hakari_package: Option<String>,
    pub platforms: Vec<PlatformSummary>,
    pub resolver: ResolverVersion,
    pub verify_mode: bool,
    pub omitted_packages: Vec<String>,
    pub unify_target_host: UnifyTargetHost,
    pub unify_all: bool,
    pub dev: bool,
}

/// The mathematical content of a summary.
pub struct SummaryView {
    pub hakari_package: Option<Seq<char>>,
    pub platforms: Seq<(Seq<char>, Seq<Seq<char>>)>,
    pub resolver: ResolverVersion,
    pub verify_mode: bool,
    pub omitted_packages: Seq<Seq<char>>,
    pub unify_target_host: UnifyTargetHost,
    pub unify_all: bool,
    pub dev: bool,
}


pub open spec fn platform_view(p: Platform) -> (Seq<char>, Seq<Seq<char>>) {
    (p.triple@, strings(p.target_features@))
}

impl HakariBuilderSummary {
    pub open spec fn view(&self) -> SummaryView {
        SummaryView {
            hakari_package: match self.hakari_package { Some(h) => Some(h@), None => None },
            platforms: self.platforms@.map_values(|p: PlatformSummary| (p.triple@, strings(p.target_features@))),
            resolver: self.resolver,
            verify_mode: self.verify_mode,
            omitted_packages: strings(self.omitted_packages@),
            unify_target_host: self.unify_target_host,
            unify_all: self.unify_all,
            dev: self.dev,
        }
    }
}

/// The summary of a builder over a graph.
pub open spec fn summary_of(b: HakariBuilder, g: PackageGraph) -> SummaryView {
    SummaryView {
        hakari_package: match b.hakari_spec() { Some(h) => Some(g.pkgs()[h as int].id@), None => None },
        platforms: b.platforms_spec().map_values(|p: Platform| platform_view(p)),
        resolver: b.resolver_spec(),
        verify_mode: b.verify_spec(),
        omitted_packages: b.omitted_spec().map_values(|k: usize| g.pkgs()[k as int].id@),
        unify_target_host: b.unify_target_host_spec(),
        unify_all: b.unify_all_spec(),
        dev: b.dev_spec(),
    }
}

/// Whether an id names a workspace member of the graph.
pub open spec fn member_id(g: PackageGraph, id: Seq<char>) -> bool {
    g.index_of(id) is Some && is_member(g, g.index_of(id)->Some_0)
}

/// Whether a summary can be turned back into a builder over `g`: the graph has a
/// workspace member, the ids name workspace members, the omitted ones in graph order,
/// and every platform string parses.
pub open spec fn summary_valid(s: SummaryView, g: PackageGraph) -> bool {
    &&& has_member(g)
    &&& (s.hakari_package matches Some(h) ==> member_id(g, h))
    &&& forall|k: int| 0 <= k < s.platforms.len() ==> parsed_kind(#[trigger] s.platforms[k].0) is Some
    &&& forall|k: int| 0 <= k < s.omitted_packages.len() ==> member_id(g, #[trigger] s.omitted_packages[k])
    &&& forall|a: int, b: int| 0 <= a < b < s.omitted_packages.len() ==>
            g.index_of(s.omitted_packages[a])->Some_0 < g.index_of(s.omitted_packages[b])->Some_0
}


/// The index of the package with id `id`, as a lemma about `index_of`.
pub proof fn lemma_index_of_id(g: PackageGraph, p: int)
    requires
        g.wf(),
        0 <= p < g.pkgs().len(),
    ensures
        g.index_of(g.pkgs()[p].id@) == Some(p),
{
    let id = g.pkgs()[p].id@;
    assert(exists|i: int| 0 <= i < g.pkgs().len() && #[trigger] g.pkgs()[i].id@ == id);
}

impl HakariBuilder {
    /// The summary of this builder.
    pub fn to_summary(&self, g: &PackageGraph) -> (r: HakariBuilderSummary)
        requires
            g.wf(),
            self.wf(*g),
        ensures
            r@ == summary_of(*self, *g),
    {
        let hakari_package = match self.hakari_package() {
            Some(h) => Some(g.package(h).id.clone()),
            None => None,
        };
        let pl = self.platforms();
        let mut platforms: Vec<PlatformSummary> = Vec::new();
        let mut k: usize = 0;
        while k < pl.len()
            invariant
                k <= pl@.len(),
                platforms@.len() == k,
                forall|j: int| 0 <= j < k ==> (#[trigger] platforms@[j]).triple@ == pl@[j].triple@
                    && strings(platforms@[j].target_features@) == strings(pl@[j].target_features@),
            decreases pl@.len() - k,
        {
            let ps = PlatformSummary {
                triple: pl[k].triple.as_str().to_owned(),
                target_features: copy_strings(&pl[k].target_features),
            };
            platforms.push(ps);
            k = k + 1;
        }
        let om = self.omitted_indices();
        let mut omitted_packages: Vec<String> = Vec::new();
        let mut k: usize = 0;
        while k < om.len()
            invariant
                g.wf(),
                self.wf(*g),
                om@ == self.omitted_spec(),
                k <= om@.len(),
                omitted_packages@.len() == k,
                forall|j: int| 0 <= j < k ==> (#[trigger] omitted_packages@[j])@ == g.pkgs()[om@[j] as int].id@,
            decreases om@.len() - k,
        {
            assert(is_member(*g, om@[k as int] as int));
            omitted_packages.push(g.package(om[k]).id.clone());
            k = k + 1;
        }
        let r = HakariBuilderSummary {
            hakari_package,
            platforms,
            resolver: self.resolver_version(),
            verify_mode: self.verify_mode(),
            omitted_packages,
            unify_target_host: self.unify_target_host(),
            unify_all: self.unify_all(),
            dev: self.dev_inclusion(),
        };
        assert(r@.platforms =~= summary_of(*self, *g).platforms);
        assert(r@.omitted_packages =~= summary_of(*self, *g).omitted_packages);
        r
    }
}

impl HakariBuilderSummary {
    /// Rebuilds the builder that this summary describes over `g`.
    pub fn to_hakari_builder(&self, g: &PackageGraph) -> (r: Result<HakariBuilder, HakariError>)
        requires
            g.wf(),
        ensures
            r is Ok <==> summary_valid(self@, *g),
            r matches Ok(b) ==> b.wf(*g) && summary_of(b, *g) == self@,
    {
        let hid: Option<&String> = match &self.hakari_package {
            Some(h) => Some(h),
            None => None,
        };
        let mut b = match HakariBuilder::new(g, hid) {
            Ok(b) => b,
            Err(e) => return Err(e),
        };
        proof {
            if let Some(h) = b.hakari_spec() {
                let id = self.hakari_package->Some_0@;
                crate::graph::lemma_index_of(*g, id);
                assert(g.pkgs()[h as int].id@ == id);
            }
        }
        let mut platforms: Vec<Platform> = Vec::new();
        let mut k: usize = 0;
        while k < self.platforms.len()
            invariant
                k <= self.platforms@.len(),
                platforms@.len() == k,
                forall|j: int| 0 <= j < k ==> parsed_kind(#[trigger] self@.platforms[j].0) is Some,
                forall|j: int| 0 <= j < k ==> (#[trigger] platforms@[j]).triple.wf()
                    && platform_view(platforms@[j]) == self@.platforms[j],
            decreases self.platforms@.len() - k,
        {
            let ps = &self.platforms[k];
            assert(self@.platforms[k as int].0 == ps.triple@);
            assert(self@.platforms[k as int].1 == strings(ps.target_features@));
            let t = match Triple::from_str(ps.triple.as_str()) {
                Ok(t) => t,
                Err(_) => return Err(HakariError::UnknownPlatform(ps.triple.clone())),
            };
            platforms.push(Platform::new(t, copy_strings(&ps.target_features)));
            k = k + 1;
        }
        let mut om: Vec<usize> = Vec::new();
        let mut k: usize = 0;
        while k < self.omitted_packages.len()
            invariant
                g.wf(),
                k <= self.omitted_packages@.len(),
                om@.len() == k,
                increasing(om@),
                forall|j: int| 0 <= j < k ==> member_id(*g, #[trigger] self@.omitted_packages[j]),
                forall|j: int| 0 <= j < k ==> g.index_of(self@.omitted_packages[j]) == Some(#[trigger] om@[j] as int),
                forall|j: int| 0 <= j < k ==> is_member(*g, #[trigger] om@[j] as int),
            decreases self.omitted_packages@.len() - k,
        {
            let id = &self.omitted_packages[k];
            assert(id@ == self@.omitted_packages[k as int]);
            let p = match g.find(id) {
                Some(p) => p,
                None => return Err(HakariError::InvalidOmittedPackage(id.clone())),
            };
            if !g.is_workspace_member(p) {
                return Err(HakariError::InvalidOmittedPackage(id.clone()));
            }
            if k > 0 && om[k - 1] >= p {
                assert(g.index_of(self@.omitted_packages[k - 1]) == Some(om@[k - 1] as int));
                return Err(HakariError::InvalidOmittedPackage(id.clone()));
            }
            om.push(p);
            k = k + 1;
        }
        proof {
            assert forall|a: int, c: int| 0 <= a < c < self@.omitted_packages.len() implies
                g.index_of(self@.omitted_packages[a])->Some_0 < g.index_of(self@.omitted_packages[c])->Some_0 by {
                assert(g.index_of(self@.omitted_packages[a]) == Some(om@[a] as int));
                assert(g.index_of(self@.omitted_packages[c]) == Some(om@[c] as int));
            }
        }
        b.set_platforms(platforms);
        b.set_resolver_version(self.resolver);
        b.set_verify_mode(self.verify_mode);
        b.set_omitted_sorted(g, om);
        b.set_unify_target_host(self.unify_target_host);
        b.set_unify_all(self.unify_all);
        b.set_dev_inclusion(self.dev);
        proof {
            assert forall|j: int| 0 <= j < om@.len() implies #[trigger] g.pkgs()[om@[j] as int].id@ == self@.omitted_packages[j] by {
                assert(g.index_of(self@.omitted_packages[j]) == Some(om@[j] as int));
            }
            assert(summary_of(b, *g).platforms =~= self@.platforms);
            assert(summary_of(b, *g).omitted_packages =~= self@.omitted_packages);
        }
        Ok(b)
    }
}

/// Round trip: the summary of every well-formed builder is valid, so turning it back
/// into a builder succeeds and yields a builder with the same summary.
pub proof fn lemma_summary_round_trip(b: HakariBuilder, g: PackageGraph)
    requires
        g.wf(),
        b.wf(g),
    ensures
        summary_valid(summary_of(b, g), g),
{
    let s = summary_of(b, g);
    if let Some(h) = b.hakari_spec() {
        lemma_index_of_id(g, h as int);
    }
    assert forall|k: int| 0 <= k < s.platforms.len() implies parsed_kind(#[trigger] s.platforms[k].0) is Some by {
        assert(b.platforms_spec()[k].triple.wf());
    }
    assert forall|k: int| 0 <= k < s.omitted_packages.len() implies member_id(g, #[trigger] s.omitted_packages[k]) by {
        assert(is_member(g, b.omitted_spec()[k] as int));
        lemma_index_of_id(g, b.omitted_spec()[k] as int);
    }
    assert forall|a: int, c: int| 0 <= a < c < s.omitted_packages.len() implies
        g.index_of(s.omitted_packages[a])->Some_0 < g.index_of(s.omitted_packages[c])->Some_0 by {
        assert(is_member(g, b.omitted_spec()[a] as int));
        assert(is_member(g, b.omitted_spec()[c] as int));
        lemma_index_of_id(g, b.omitted_spec()[a] as int);
        lemma_index_of_id(g, b.omitted_spec()[c] as int);
    }
}

} // verus!
