//! The pure part of the fetch orchestration: expanding the static
//! configuration into the deterministic, ordered fetch plan, deriving the
//! follow-up fetches from a resolved manifest, and folding joined results
//! into the aggregate.  The transfers themselves run outside the library and
//! hand their bytes back.
use vstd::prelude::*;
use vstd::string::StrSliceExecFns;
use crate::aggregate::{AptEntryView, AptInfos, spec_add_source};
use crate::client::source_views;
use crate::config::{
    Arch, Codename, RepoKind, Suite, spec_all_repo_kinds, spec_allowed_archs, spec_arch_str,
    spec_suite_name, spec_suites,
};
use crate::error::Error;
use crate::records::{Release, Source, SourceView, str_eq};
use crate::stanza::views_of;

verus! {

/// The manifest location of a suite, relative to a repository base.
pub open spec fn spec_release_path(s: Suite) -> Seq<char> {
    "dists/"@ + spec_suite_name(s) + "/Release"@
}

/// The source listing location of a suite's component.
pub open spec fn spec_sources_path(s: Suite, comp: Seq<char>) -> Seq<char> {
    "dists/"@ + spec_suite_name(s) + "/"@ + comp + "/source/Sources.gz"@
}

/// The binary listing location of a suite's component and architecture.
pub open spec fn spec_packages_path(s: Suite, comp: Seq<char>, a: Arch) -> Seq<char> {
    "dists/"@ + spec_suite_name(s) + "/"@ + comp + "/binary-"@ + spec_arch_str(a)
        + "/Packages.gz"@
}

pub fn release_path(suite: &Suite) -> (r: String)
    ensures
        r@ == spec_release_path(*suite),
{
    let mut p = String::from_str("dists/");
    let name = suite.name();
    p.append(name.as_str());
    p.append("/Release");
    p
}

pub fn sources_path(suite: &Suite, component: &str) -> (r: String)
    ensures
        r@ == spec_sources_path(*suite, component@),
{
    let mut p = String::from_str("dists/");
    let name = suite.name();
    p.append(name.as_str());
    p.append("/");
    p.append(component);
    p.append("/source/Sources.gz");
    p
}

pub fn packages_path(suite: &Suite, component: &str, arch: Arch) -> (r: String)
    ensures
        r@ == spec_packages_path(*suite, component@, arch),
{
    let mut p = String::from_str("dists/");
    let name = suite.name();
    p.append(name.as_str());
    p.append("/");
    p.append(component);
    p.append("/binary-");
    p.append(arch.as_str());
    p.append("/Packages.gz");
    p
}

/// One manifest fetch of the plan's first phase.
pub struct ReleaseFetch {
    pub repo_kind: RepoKind,
    pub codename: Codename,
    pub suite: Suite,
    pub path: String,
}

pub ghost struct ReleaseFetchView {
    pub repo_kind: RepoKind,
    pub codename: Codename,
    pub suite: Suite,
    pub path: Seq<char>,
}

impl View for ReleaseFetch {
    type V = ReleaseFetchView;

    open spec fn view(&self) -> ReleaseFetchView {
        ReleaseFetchView {
            repo_kind: self.repo_kind,
            codename: self.codename,
            suite: self.suite,
            path: self.path@,
        }
    }
}

pub open spec fn rf_views(v: Seq<ReleaseFetch>) -> Seq<ReleaseFetchView> {
    v.map_values(|f: ReleaseFetch| f@)
}

pub open spec fn spec_plan_suites(k: RepoKind, c: Codename, ss: Seq<Suite>) -> Seq<
    ReleaseFetchView,
>
    decreases ss.len(),
{
    if ss.len() == 0 {
        Seq::empty()
    } else {
        seq![
            ReleaseFetchView {
                repo_kind: k,
                codename: c,
                suite: ss[0],
                path: spec_release_path(ss[0]),
            },
        ] + spec_plan_suites(k, c, ss.drop_first())
    }
}

pub open spec fn spec_plan_codenames(k: RepoKind, cs: Seq<Codename>) -> Seq<ReleaseFetchView>
    decreases cs.len(),
{
    if cs.len() == 0 {
        Seq::empty()
    } else {
        spec_plan_suites(k, cs[0], spec_suites(k, cs[0])) + spec_plan_codenames(
            k,
            cs.drop_first(),
        )
    }
}

pub open spec fn spec_plan_kinds(ks: Seq<RepoKind>) -> Seq<ReleaseFetchView>
    decreases ks.len(),
{
    if ks.len() == 0 {
        Seq::empty()
    } else {
        spec_plan_codenames(ks[0], seq![Codename::Jammy, Codename::Noble, Codename::Resolute])
            + spec_plan_kinds(ks.drop_first())
    }
}

/// The whole first phase, in kind, codename, suite order.
pub open spec fn spec_release_fetch_plan() -> Seq<ReleaseFetchView> {
    spec_plan_kinds(spec_all_repo_kinds())
}

/// Expand the static configuration into the ordered manifest fetch plan.
pub fn release_fetch_plan() -> (r: Vec<ReleaseFetch>)
    ensures
        rf_views(r@) == spec_release_fetch_plan(),
{
    let kinds = RepoKind::all();
    let mut out: Vec<ReleaseFetch> = Vec::new();
    let mut ki: usize = 0;
    proof {
        assert(kinds@.skip(0) =~= kinds@);
        assert(rf_views(out@) =~= Seq::<ReleaseFetchView>::empty());
        assert(Seq::<ReleaseFetchView>::empty() + spec_plan_kinds(kinds@) =~= spec_plan_kinds(
            kinds@,
        ));
    }
    while ki < 6
        invariant
            ki <= 6,
            kinds@ == spec_all_repo_kinds(),
            spec_release_fetch_plan() == rf_views(out@) + spec_plan_kinds(
                kinds@.skip(ki as int),
            ),
        decreases 6 - ki,
    {
        let k = kinds[ki];
        proof {
            assert(kinds@.skip(ki as int)[0] == k);
            assert(kinds@.skip(ki as int).drop_first() =~= kinds@.skip(ki as int + 1));
        }
        let codenames = k.codenames();
        let mut ci: usize = 0;
        let ghost cs = codenames@;
        proof {
            assert(cs.skip(0) =~= cs);
        }
        while ci < 3
            invariant
                ci <= 3,
                codenames@ == cs,
                cs == seq![Codename::Jammy, Codename::Noble, Codename::Resolute],
                k == spec_all_repo_kinds()[ki as int],
                ki < 6,
                kinds@ == spec_all_repo_kinds(),
                spec_release_fetch_plan() == rf_views(out@) + spec_plan_codenames(
                    k,
                    cs.skip(ci as int),
                ) + spec_plan_kinds(kinds@.skip(ki as int + 1)),
            decreases 3 - ci,
        {
            let c = codenames[ci];
            proof {
                assert(cs.skip(ci as int)[0] == c);
                assert(cs.skip(ci as int).drop_first() =~= cs.skip(ci as int + 1));
            }
            let suites = k.suites(c);
            let sn = suites.len();
            let mut si: usize = 0;
            let ghost ss = suites@;
            proof {
                assert(ss.skip(0) =~= ss);
            }
            while si < sn
                invariant
                    si <= sn,
                    sn == suites@.len(),
                    suites@ == ss,
                    ss == spec_suites(k, c),
                    k == spec_all_repo_kinds()[ki as int],
                    ki < 6,
                    kinds@ == spec_all_repo_kinds(),
                    cs == seq![Codename::Jammy, Codename::Noble, Codename::Resolute],
                    ci < 3,
                    c == cs[ci as int],
                    spec_release_fetch_plan() == rf_views(out@) + spec_plan_suites(
                        k,
                        c,
                        ss.skip(si as int),
                    ) + spec_plan_codenames(k, cs.skip(ci as int + 1)) + spec_plan_kinds(
                        kinds@.skip(ki as int + 1),
                    ),
                decreases sn - si,
            {
                let ghost out0 = rf_views(out@);
                let s = suites[si];
                proof {
                    assert(ss.skip(si as int)[0] == s);
                    assert(ss.skip(si as int).drop_first() =~= ss.skip(si as int + 1));
                }
                let path = release_path(&s);
                let f = ReleaseFetch { repo_kind: k, codename: c, suite: s, path };
                out.push(f);
                proof {
                    assert(rf_views(out@) =~= out0.push(
                        ReleaseFetchView {
                            repo_kind: k,
                            codename: c,
                            suite: s,
                            path: spec_release_path(s),
                        },
                    ));
                    assert(rf_views(out@) + spec_plan_suites(k, c, ss.skip(si as int + 1)) =~= (
                    out0 + spec_plan_suites(k, c, ss.skip(si as int))));
                }
                si = si + 1;
            }
            proof {
                assert(ss.skip(sn as int) =~= Seq::<Suite>::empty());
                assert(spec_plan_suites(k, c, ss.skip(sn as int)) =~= Seq::<
                    ReleaseFetchView,
                >::empty());
                assert(rf_views(out@) + spec_plan_codenames(k, cs.skip(ci as int + 1))
                    + spec_plan_kinds(kinds@.skip(ki as int + 1)) =~= rf_views(out@) + Seq::<
                    ReleaseFetchView,
                >::empty() + spec_plan_codenames(k, cs.skip(ci as int + 1)) + spec_plan_kinds(
                    kinds@.skip(ki as int + 1),
                ));
            }
            ci = ci + 1;
        }
        proof {
            assert(cs.skip(3) =~= Seq::<Codename>::empty());
            assert(spec_plan_codenames(k, cs.skip(3)) =~= Seq::<ReleaseFetchView>::empty());
            assert(rf_views(out@) + spec_plan_kinds(kinds@.skip(ki as int + 1)) =~= rf_views(
                out@,
            ) + Seq::<ReleaseFetchView>::empty() + spec_plan_kinds(kinds@.skip(ki as int + 1)));
        }
        ki = ki + 1;
    }
    proof {
        assert(kinds@.skip(6) =~= Seq::<RepoKind>::empty());
        assert(spec_plan_kinds(kinds@.skip(6)) =~= Seq::<ReleaseFetchView>::empty());
        assert(rf_views(out@) + Seq::<ReleaseFetchView>::empty() =~= rf_views(out@));
    }
    out
}

/// A fetch must yield exactly one release manifest; zero or several mean
/// the suite's metadata is malformed.
pub fn single_release(releases: Vec<Release>) -> (r: Result<Release, Error>)
    ensures
        r is Ok <==> releases@.len() == 1,
        r is Ok ==> r->Ok_0 == releases@[0],
        r is Err ==> r->Err_0 is Parse,
{
    let mut releases = releases;
    if releases.len() == 1 {
        match releases.pop() {
            Option::Some(rel) => Ok(rel),
            Option::None => {
                proof {
                    assert(false);
                }
                Err(Error::Parse(String::new()))
            },
        }
    } else {
        Err(Error::Parse(String::from_str("suite did not yield exactly one release manifest")))
    }
}

/// One source listing fetch of the plan's second phase.
pub struct SourceFetch {
    pub component: String,
    pub path: String,
}

pub open spec fn sf_views(v: Seq<SourceFetch>) -> Seq<(Seq<char>, Seq<char>)> {
    v.map_values(|f: SourceFetch| (f.component@, f.path@))
}

pub open spec fn spec_source_fetches(s: Suite, comps: Seq<Seq<char>>) -> Seq<
    (Seq<char>, Seq<char>),
>
    decreases comps.len(),
{
    if comps.len() == 0 {
        Seq::empty()
    } else {
        seq![(comps[0], spec_sources_path(s, comps[0]))] + spec_source_fetches(
            s,
            comps.drop_first(),
        )
    }
}

/// The source fetches a resolved manifest calls for: one per declared
/// component.  A manifest without a component list is malformed.
pub fn source_fetches(suite: &Suite, release: &Release) -> (r: Result<Vec<SourceFetch>, Error>)
    ensures
        r is Ok <==> release@.components is Some,
        r is Ok ==> sf_views(r->Ok_0@) == spec_source_fetches(
            *suite,
            release@.components.unwrap(),
        ),
        r is Err ==> r->Err_0 is Parse,
{
    let components = match &release.components {
        Option::Some(cs) => cs,
        Option::None => {
            return Err(Error::Parse(String::from_str("release missing components")));
        },
    };
    let ghost cv = views_of(components@);
    let n = components.len();
    let mut out: Vec<SourceFetch> = Vec::new();
    let mut i: usize = 0;
    proof {
        assert(cv.skip(0) =~= cv);
        assert(sf_views(out@) =~= Seq::<(Seq<char>, Seq<char>)>::empty());
        assert(Seq::<(Seq<char>, Seq<char>)>::empty() + spec_source_fetches(*suite, cv)
            =~= spec_source_fetches(*suite, cv));
    }
    while i < n
        invariant
            i <= n,
            n == components@.len(),
            cv == views_of(components@),
            spec_source_fetches(*suite, cv) == sf_views(out@) + spec_source_fetches(
                *suite,
                cv.skip(i as int),
            ),
        decreases n - i,
    {
        let ghost out0 = sf_views(out@);
        let comp = &components[i];
        proof {
            assert(cv.skip(i as int)[0] == cv[i as int]);
            assert(cv[i as int] == comp@);
            assert(cv.skip(i as int).drop_first() =~= cv.skip(i as int + 1));
        }
        let path = sources_path(suite, comp.as_str());
        out.push(SourceFetch { component: comp.clone(), path });
        proof {
            assert(sf_views(out@) =~= out0.push((comp@, spec_sources_path(*suite, comp@))));
            assert(sf_views(out@) + spec_source_fetches(*suite, cv.skip(i as int + 1)) =~= out0
                + spec_source_fetches(*suite, cv.skip(i as int)));
        }
        i = i + 1;
    }
    proof {
        assert(cv.skip(n as int) =~= Seq::<Seq<char>>::empty());
        assert(spec_source_fetches(*suite, cv.skip(n as int)) =~= Seq::<
            (Seq<char>, Seq<char>),
        >::empty());
        assert(sf_views(out@) + Seq::<(Seq<char>, Seq<char>)>::empty() =~= sf_views(out@));
    }
    Ok(out)
}

/// The first permitted architecture whose name matches, if any.
pub open spec fn spec_arch_match(s: Seq<char>, allowed: Seq<Arch>) -> Option<Arch>
    decreases allowed.len(),
{
    if allowed.len() == 0 {
        Option::None
    } else if spec_arch_str(allowed[0]) == s {
        Option::Some(allowed[0])
    } else {
        spec_arch_match(s, allowed.drop_first())
    }
}

/// The manifest's architectures that the kind permits, in manifest order.
pub open spec fn spec_permitted(archs: Seq<Seq<char>>, allowed: Seq<Arch>) -> Seq<Arch>
    decreases archs.len(),
{
    if archs.len() == 0 {
        Seq::empty()
    } else {
        match spec_arch_match(archs[0], allowed) {
            Option::Some(a) => seq![a] + spec_permitted(archs.drop_first(), allowed),
            Option::None => spec_permitted(archs.drop_first(), allowed),
        }
    }
}

proof fn lemma_arch_match_at(s: Seq<char>, allowed: Seq<Arch>, j: int)
    requires
        0 <= j <= allowed.len(),
        forall|t: int| 0 <= t < j ==> spec_arch_str(#[trigger] allowed[t]) != s,
        j == allowed.len() || spec_arch_str(allowed[j]) == s,
    ensures
        spec_arch_match(s, allowed) == (if j == allowed.len() {
            Option::<Arch>::None
        } else {
            Option::<Arch>::Some(allowed[j])
        }),
    decreases allowed.len(),
{
    if j > 0 {
        lemma_arch_match_at(s, allowed.drop_first(), j - 1);
    }
}

/// The architectures a fetched manifest permits for one kind: an
/// architecture counts only if the manifest declares it and the kind allows
/// it.  A manifest without an architecture list is malformed.
pub fn permitted_archs(repo_kind: RepoKind, release: &Release) -> (r: Result<Vec<Arch>, Error>)
    ensures
        r is Ok <==> release@.archs is Some,
        r is Ok ==> r->Ok_0@ == spec_permitted(
            release@.archs.unwrap(),
            spec_allowed_archs(repo_kind),
        ),
        r is Err ==> r->Err_0 is Parse,
{
    let archs = match &release.archs {
        Option::Some(a) => a,
        Option::None => {
            return Err(Error::Parse(String::from_str("release missing archs")));
        },
    };
    let allowed = repo_kind.allowed_archs();
    let ghost av = views_of(archs@);
    let ghost alv = allowed@;
    let n = archs.len();
    let m = allowed.len();
    let mut out: Vec<Arch> = Vec::new();
    let mut i: usize = 0;
    proof {
        assert(av.skip(0) =~= av);
        assert(out@ =~= Seq::<Arch>::empty());
        assert(Seq::<Arch>::empty() + spec_permitted(av, alv) =~= spec_permitted(av, alv));
    }
    while i < n
        invariant
            i <= n,
            n == archs@.len(),
            m == allowed@.len(),
            av == views_of(archs@),
            alv == allowed@,
            alv == spec_allowed_archs(repo_kind),
            spec_permitted(av, alv) == out@ + spec_permitted(av.skip(i as int), alv),
        decreases n - i,
    {
        let ghost out0 = out@;
        let a = &archs[i];
        proof {
            assert(av.skip(i as int)[0] == av[i as int]);
            assert(av[i as int] == a@);
            assert(av.skip(i as int).drop_first() =~= av.skip(i as int + 1));
        }
        let mut j: usize = 0;
        let mut hit = false;
        while !hit && j < m
            invariant
                j <= m,
                m == allowed@.len(),
                alv == allowed@,
                av[i as int] == a@,
                hit ==> j < m && spec_arch_str(alv[j as int]) == a@,
                forall|t: int| 0 <= t < j ==> spec_arch_str(#[trigger] alv[t]) != a@,
            decreases m - j + (if hit { 0int } else { 1int }),
        {
            let cand = allowed[j];
            proof {
                assert(cand == alv[j as int]);
            }
            if str_eq(a.as_str(), cand.as_str()) {
                hit = true;
            } else {
                j = j + 1;
            }
        }
        proof {
            lemma_arch_match_at(a@, alv, j as int);
        }
        if hit {
            out.push(allowed[j]);
            proof {
                assert(out@ =~= out0.push(alv[j as int]));
                assert(out@ + spec_permitted(av.skip(i as int + 1), alv) =~= out0
                    + spec_permitted(av.skip(i as int), alv));
            }
        } else {
            proof {
                assert(out@ + spec_permitted(av.skip(i as int + 1), alv) =~= out0
                    + spec_permitted(av.skip(i as int), alv));
            }
        }
        i = i + 1;
    }
    proof {
        assert(av.skip(n as int) =~= Seq::<Seq<char>>::empty());
        assert(spec_permitted(av.skip(n as int), alv) =~= Seq::<Arch>::empty());
        assert(out@ + Seq::<Arch>::empty() =~= out@);
    }
    Ok(out)
}

/// What folding a whole fetched source listing into the matrix yields.
pub open spec fn spec_aggregate(
    s: Seq<AptEntryView>,
    k: RepoKind,
    c: Codename,
    srcs: Seq<SourceView>,
) -> Option<Seq<AptEntryView>>
    decreases srcs.len(),
{
    if srcs.len() == 0 {
        Option::Some(s)
    } else {
        match spec_add_source(s, k, c, srcs[0]) {
            Option::Some(s2) => spec_aggregate(s2, k, c, srcs.drop_first()),
            Option::None => Option::None,
        }
    }
}

/// Fold one fetched source listing into the matrix, record by record in
/// listing order.
pub fn aggregate_sources(
    infos: &mut AptInfos,
    repo_kind: RepoKind,
    codename: Codename,
    sources: &Vec<Source>,
) -> (r: Result<(), Error>)
    requires
        old(infos).wf(),
    ensures
        final(infos).wf(),
        r is Ok <==> spec_aggregate(old(infos)@, repo_kind, codename, source_views(sources@))
            is Some,
        r is Ok ==> final(infos)@ == spec_aggregate(
            old(infos)@,
            repo_kind,
            codename,
            source_views(sources@),
        ).unwrap(),
        r is Err ==> r->Err_0 is Invariant,
{
    let ghost s0 = infos@;
    let ghost srcs = source_views(sources@);
    let n = sources.len();
    let mut i: usize = 0;
    proof {
        assert(srcs.skip(0) =~= srcs);
    }
    while i < n
        invariant
            i <= n,
            n == sources@.len(),
            srcs == source_views(sources@),
            s0 == old(infos)@,
            infos.wf(),
            spec_aggregate(s0, repo_kind, codename, srcs) == spec_aggregate(
                infos@,
                repo_kind,
                codename,
                srcs.skip(i as int),
            ),
        decreases n - i,
    {
        let src = &sources[i];
        proof {
            assert(srcs.skip(i as int)[0] == srcs[i as int]);
            assert(srcs[i as int] == src@);
            assert(srcs.skip(i as int).drop_first() =~= srcs.skip(i as int + 1));
        }
        if let Result::Err(e) = infos.add_source(repo_kind, codename, src) {
            return Err(e);
        }
        i = i + 1;
    }
    proof {
        assert(srcs.skip(n as int) =~= Seq::<SourceView>::empty());
    }
    Ok(())
}

} // verus!
