//! The per-(package, codename) version matrix: every fetched source record
//! is folded into one slot per repository kind, with the upstream
//! distribution's many suites merged down to their highest version.  The
//! matrix is kept sorted by package name and codename, so traversal is
//! deterministic whatever order the fetches completed in.
use vstd::prelude::*;
use vstd::std_specs::vec::vec_index_mut;
use vstd::string::StrSliceExecFns;
use core::cmp::Ordering;
use crate::config::{Codename, RepoKind, spec_codename_rank};
use crate::error::Error;
use crate::records::{Source, SourceView, opt_view};
use crate::stanza::views_of;
use crate::version::{
    spec_lex_cmp, spec_version_cmp, str_lex_cmp, compare_versions, lemma_lex_refl, lemma_lex_eq,
    lemma_lex_flip, lemma_lex_trans, lemma_version_cmp_reflexive, lemma_version_cmp_antisymmetric,
    lemma_version_cmp_transitive, lemma_version_cmp_equal_congruent,
};
use crate::stanza::split_char;
use crate::records::str_eq;

verus! {

/// The version of one package known in one repository kind, with the
/// diagnostics the consistency check attached to it.
#[derive(Clone, Debug, Eq, PartialEq)]
pub struct AptVersion {
    pub repo_kind: RepoKind,
    pub codename: Codename,
    pub version: String,
    pub directory: Option<String>,
    pub errors: Vec<String>,
}

pub ghost struct AptVersionView {
    pub repo_kind: RepoKind,
    pub codename: Codename,
    pub version: Seq<char>,
    pub directory: Option<Seq<char>>,
    pub errors: Seq<Seq<char>>,
}

impl View for AptVersion {
    type V = AptVersionView;

    open spec fn view(&self) -> AptVersionView {
        AptVersionView {
            repo_kind: self.repo_kind,
            codename: self.codename,
            version: self.version@,
            directory: opt_view(self.directory),
            errors: views_of(self.errors@),
        }
    }
}

pub open spec fn opt_av_view(o: Option<AptVersion>) -> Option<AptVersionView> {
    match o {
        Option::Some(v) => Option::Some(v@),
        Option::None => Option::None,
    }
}

/// The source commit reference recoverable from a directory that follows
/// the `pool/<codename>/<repo>/<commit>/...` convention; a directory in any
/// other shape yields nothing.
pub open spec fn spec_github_commit(directory: Option<Seq<char>>) -> Option<Seq<char>> {
    match directory {
        Option::None => Option::None,
        Option::Some(d) => {
            let parts = crate::stanza::spec_split_char(d, '/');
            if parts.len() >= 4 && parts[0] == "pool"@ {
                Option::Some(
                    "https://github.com/pop-os/"@ + parts[2] + "/commit/"@ + parts[3],
                )
            } else {
                Option::None
            }
        },
    }
}

impl AptVersion {
    /// The commit link this version's directory points at, if its directory
    /// follows the pool convention.
    pub fn github_commit(&self) -> (r: Option<String>)
        ensures
            opt_view(r) == spec_github_commit(opt_view(self.directory)),
    {
        let directory = match &self.directory {
            Option::Some(d) => d,
            Option::None => {
                return None;
            },
        };
        let parts = split_char(directory.as_str(), '/');
        if parts.len() < 4 {
            return None;
        }
        if !str_eq(parts[0].as_str(), "pool") {
            return None;
        }
        let mut url = String::from_str("https://github.com/pop-os/");
        url.append(parts[2].as_str());
        url.append("/commit/");
        url.append(parts[3].as_str());
        proof {
            let pv = views_of(parts@);
            assert(pv[0] == parts@[0]@ && pv[2] == parts@[2]@ && pv[3] == parts@[3]@);
        }
        Some(url)
    }
}

/// One row of the matrix: the slot for every repository kind.
#[derive(Clone, Debug, Eq, PartialEq)]
pub struct AptInfo {
    pub release: Option<AptVersion>,
    pub staging: Option<AptVersion>,
    pub staging_ubuntu: Option<AptVersion>,
    pub stable: Option<AptVersion>,
    pub pre_stable: Option<AptVersion>,
    pub ubuntu: Option<AptVersion>,
}

pub ghost struct AptInfoView {
    pub release: Option<AptVersionView>,
    pub staging: Option<AptVersionView>,
    pub staging_ubuntu: Option<AptVersionView>,
    pub stable: Option<AptVersionView>,
    pub pre_stable: Option<AptVersionView>,
    pub ubuntu: Option<AptVersionView>,
}

impl View for AptInfo {
    type V = AptInfoView;

    open spec fn view(&self) -> AptInfoView {
        AptInfoView {
            release: opt_av_view(self.release),
            staging: opt_av_view(self.staging),
            staging_ubuntu: opt_av_view(self.staging_ubuntu),
            stable: opt_av_view(self.stable),
            pre_stable: opt_av_view(self.pre_stable),
            ubuntu: opt_av_view(self.ubuntu),
        }
    }
}

/// The slot of one repository kind.
pub open spec fn spec_slot(info: AptInfoView, k: RepoKind) -> Option<AptVersionView> {
    match k {
        RepoKind::Release => info.release,
        RepoKind::Staging => info.staging,
        RepoKind::StagingUbuntu => info.staging_ubuntu,
        RepoKind::Stable => info.stable,
        RepoKind::PreStable => info.pre_stable,
        RepoKind::Ubuntu => info.ubuntu,
    }
}

/// The row with the slot of one repository kind replaced.
pub open spec fn spec_set_slot(info: AptInfoView, k: RepoKind, v: Option<AptVersionView>)
    -> AptInfoView {
    match k {
        RepoKind::Release => AptInfoView { release: v, ..info },
        RepoKind::Staging => AptInfoView { staging: v, ..info },
        RepoKind::StagingUbuntu => AptInfoView { staging_ubuntu: v, ..info },
        RepoKind::Stable => AptInfoView { stable: v, ..info },
        RepoKind::PreStable => AptInfoView { pre_stable: v, ..info },
        RepoKind::Ubuntu => AptInfoView { ubuntu: v, ..info },
    }
}

pub open spec fn spec_empty_info() -> AptInfoView {
    AptInfoView {
        release: Option::None,
        staging: Option::None,
        staging_ubuntu: Option::None,
        stable: Option::None,
        pre_stable: Option::None,
        ubuntu: Option::None,
    }
}

impl Default for AptInfo {
    fn default() -> (r: AptInfo)
        ensures
            r@ == spec_empty_info(),
    {
        AptInfo {
            release: None,
            staging: None,
            staging_ubuntu: None,
            stable: None,
            pre_stable: None,
            ubuntu: None,
        }
    }
}

impl AptInfo {
    /// The slot of one repository kind.
    pub fn version(&self, repo_kind: RepoKind) -> (r: &Option<AptVersion>)
        ensures
            opt_av_view(*r) == spec_slot(self@, repo_kind),
    {
        match repo_kind {
            RepoKind::Release => &self.release,
            RepoKind::Staging => &self.staging,
            RepoKind::StagingUbuntu => &self.staging_ubuntu,
            RepoKind::Stable => &self.stable,
            RepoKind::PreStable => &self.pre_stable,
            RepoKind::Ubuntu => &self.ubuntu,
        }
    }

    /// The slot of one repository kind, for writing.
    pub fn version_mut(&mut self, repo_kind: RepoKind) -> (r: &mut Option<AptVersion>)
        ensures
            opt_av_view(*r) == spec_slot(old(self)@, repo_kind),
            final(self)@ == spec_set_slot(old(self)@, repo_kind, opt_av_view(*final(r))),
    {
        match repo_kind {
            RepoKind::Release => &mut self.release,
            RepoKind::Staging => &mut self.staging,
            RepoKind::StagingUbuntu => &mut self.staging_ubuntu,
            RepoKind::Stable => &mut self.stable,
            RepoKind::PreStable => &mut self.pre_stable,
            RepoKind::Ubuntu => &mut self.ubuntu,
        }
    }
}

/// One aggregate row together with its key.
#[derive(Clone, Debug, Eq, PartialEq)]
pub struct AptEntry {
    pub package: String,
    pub codename: Codename,
    pub info: AptInfo,
}

pub ghost struct AptEntryView {
    pub package: Seq<char>,
    pub codename: Codename,
    pub info: AptInfoView,
}

impl View for AptEntry {
    type V = AptEntryView;

    open spec fn view(&self) -> AptEntryView {
        AptEntryView { package: self.package@, codename: self.codename, info: self.info@ }
    }
}

/// Strict order of aggregate keys: by package name, then by codename.
pub open spec fn spec_key_lt(p1: Seq<char>, c1: Codename, p2: Seq<char>, c2: Codename) -> bool {
    spec_lex_cmp(p1, p2) == Ordering::Less || (p1 == p2 && spec_codename_rank(c1)
        < spec_codename_rank(c2))
}

pub open spec fn spec_entries_sorted(s: Seq<AptEntryView>) -> bool {
    forall|i: int, j: int|
        0 <= i < j < s.len() ==> spec_key_lt(
            #[trigger] s[i].package,
            s[i].codename,
            #[trigger] s[j].package,
            s[j].codename,
        )
}

proof fn lemma_key_lt_trans(
    p1: Seq<char>,
    c1: Codename,
    p2: Seq<char>,
    c2: Codename,
    p3: Seq<char>,
    c3: Codename,
)
    requires
        spec_key_lt(p1, c1, p2, c2),
        spec_key_lt(p2, c2, p3, c3),
    ensures
        spec_key_lt(p1, c1, p3, c3),
{
    if spec_lex_cmp(p1, p2) == Ordering::Less {
        if spec_lex_cmp(p2, p3) == Ordering::Less {
            lemma_lex_trans(p1, p2, p3);
        }
    }
}

proof fn lemma_key_lt_connected(p1: Seq<char>, c1: Codename, p2: Seq<char>, c2: Codename)
    ensures
        spec_key_lt(p1, c1, p2, c2) || spec_key_lt(p2, c2, p1, c1) || (p1 == p2 && c1 == c2),
{
    lemma_lex_flip(p1, p2);
    if spec_lex_cmp(p1, p2) == Ordering::Equal {
        lemma_lex_eq(p1, p2);
    }
}

/// Index of the entry with the given key, or `-1` if there is none.
pub open spec fn spec_find(s: Seq<AptEntryView>, p: Seq<char>, c: Codename) -> int
    decreases s.len(),
{
    if s.len() == 0 {
        -1
    } else if s[0].package == p && s[0].codename == c {
        0
    } else {
        let r = spec_find(s.drop_first(), p, c);
        if r == -1 {
            -1
        } else {
            r + 1
        }
    }
}

proof fn lemma_find_at(s: Seq<AptEntryView>, p: Seq<char>, c: Codename, i: int)
    requires
        0 <= i < s.len(),
        s[i].package == p && s[i].codename == c,
        forall|t: int| 0 <= t < i ==> !(s[t].package == p && s[t].codename == c),
    ensures
        spec_find(s, p, c) == i,
    decreases s.len(),
{
    if i > 0 {
        lemma_find_at(s.drop_first(), p, c, i - 1);
    }
}

proof fn lemma_find_none(s: Seq<AptEntryView>, p: Seq<char>, c: Codename)
    requires
        forall|t: int| 0 <= t < s.len() ==> !(s[t].package == p && s[t].codename == c),
    ensures
        spec_find(s, p, c) == -1,
    decreases s.len(),
{
    if s.len() > 0 {
        lemma_find_none(s.drop_first(), p, c);
    }
}

/// First position whose key is not below the given key: where a new entry
/// keeps the matrix sorted.
pub open spec fn spec_insert_pos(s: Seq<AptEntryView>, p: Seq<char>, c: Codename) -> int
    decreases s.len(),
{
    if s.len() == 0 {
        0
    } else if spec_key_lt(s[0].package, s[0].codename, p, c) {
        1 + spec_insert_pos(s.drop_first(), p, c)
    } else {
        0
    }
}

proof fn lemma_insert_pos_at(s: Seq<AptEntryView>, p: Seq<char>, c: Codename, k: int)
    requires
        0 <= k <= s.len(),
        forall|t: int| 0 <= t < k ==> spec_key_lt(#[trigger] s[t].package, s[t].codename, p, c),
        k == s.len() || !spec_key_lt(s[k].package, s[k].codename, p, c),
    ensures
        spec_insert_pos(s, p, c) == k,
    decreases s.len(),
{
    if k > 0 {
        assert(spec_key_lt(s[0].package, s[0].codename, p, c));
        lemma_insert_pos_at(s.drop_first(), p, c, k - 1);
    }
}

/// The slot value a source record produces.
pub open spec fn spec_new_version(k: RepoKind, c: Codename, src: SourceView) -> AptVersionView {
    AptVersionView {
        repo_kind: k,
        codename: c,
        version: src.version.unwrap(),
        directory: src.directory,
        errors: Seq::empty(),
    }
}

/// The upstream-distribution merge: an empty slot takes the new version, a
/// filled one is replaced only by a strictly greater version.
pub open spec fn spec_merge_ubuntu(cur: Option<AptVersionView>, nv: AptVersionView) -> Option<
    AptVersionView,
> {
    match cur {
        Option::None => Option::Some(nv),
        Option::Some(old) => {
            if spec_version_cmp(nv.version, old.version) == Ordering::Greater {
                Option::Some(nv)
            } else {
                Option::Some(old)
            }
        },
    }
}

/// What folding one source record into the matrix yields: the unchanged
/// matrix when the record lacks a package or version, or when the upstream
/// kind finds no existing row; the row's slot set or merged otherwise; and
/// nothing — the invariant violation — when a non-upstream slot is already
/// filled.
pub open spec fn spec_add_source(
    s: Seq<AptEntryView>,
    k: RepoKind,
    c: Codename,
    src: SourceView,
) -> Option<Seq<AptEntryView>> {
    if src.package is None || src.version is None {
        Option::Some(s)
    } else {
        let p = src.package.unwrap();
        let nv = spec_new_version(k, c, src);
        let i = spec_find(s, p, c);
        if k == RepoKind::Ubuntu {
            if i == -1 {
                Option::Some(s)
            } else {
                let info = s[i].info;
                let merged = spec_merge_ubuntu(spec_slot(info, k), nv);
                Option::Some(
                    s.update(
                        i,
                        AptEntryView {
                            package: s[i].package,
                            codename: s[i].codename,
                            info: spec_set_slot(info, k, merged),
                        },
                    ),
                )
            }
        } else {
            if i == -1 {
                let ne = AptEntryView {
                    package: p,
                    codename: c,
                    info: spec_set_slot(spec_empty_info(), k, Option::Some(nv)),
                };
                Option::Some(s.insert(spec_insert_pos(s, p, c), ne))
            } else if spec_slot(s[i].info, k) is Some {
                Option::None
            } else {
                Option::Some(
                    s.update(
                        i,
                        AptEntryView {
                            package: s[i].package,
                            codename: s[i].codename,
                            info: spec_set_slot(s[i].info, k, Option::Some(nv)),
                        },
                    ),
                )
            }
        }
    }
}

/// The aggregate matrix, sorted by package name and codename.
#[derive(Clone, Debug, Eq, PartialEq)]
pub struct AptInfos {
    pub entries: Vec<AptEntry>,
}

impl View for AptInfos {
    type V = Seq<AptEntryView>;

    open spec fn view(&self) -> Seq<AptEntryView> {
        self.entries@.map_values(|e: AptEntry| e@)
    }
}

impl AptInfos {
    /// The matrix stays sorted with one row per key.
    pub open spec fn wf(&self) -> bool {
        spec_entries_sorted(self@)
    }

    pub fn new() -> (r: AptInfos)
        ensures
            r@ == Seq::<AptEntryView>::empty(),
            r.wf(),
    {
        let r = AptInfos { entries: Vec::new() };
        proof {
            assert(r@ =~= Seq::<AptEntryView>::empty());
        }
        r
    }

    pub fn len(&self) -> (n: usize)
        ensures
            n == self@.len(),
    {
        self.entries.len()
    }

    /// The row at one position of the sorted traversal.
    pub fn entry(&self, i: usize) -> (r: &AptEntry)
        requires
            i < self@.len(),
        ensures
            r@ == self@[i as int],
    {
        &self.entries[i]
    }

    /// Fold one fetched source record into the matrix.
    pub fn add_source(&mut self, repo_kind: RepoKind, codename: Codename, source: &Source)
        -> (r: Result<(), Error>)
        requires
            old(self).wf(),
        ensures
            final(self).wf(),
            r is Ok <==> spec_add_source(old(self)@, repo_kind, codename, source@) is Some,
            r is Ok ==> final(self)@ == spec_add_source(
                old(self)@,
                repo_kind,
                codename,
                source@,
            ).unwrap(),
            r is Err ==> final(self)@ == old(self)@ && r.unwrap_err() is Invariant,
    {
        let ghost s0 = self@;
        let package = match &source.package {
            Option::Some(p) => p,
            Option::None => {
                return Ok(());
            },
        };
        let version = match &source.version {
            Option::Some(v) => v,
            Option::None => {
                return Ok(());
            },
        };
        let ghost p = package@;
        let n = self.entries.len();
        let mut i: usize = 0;
        let mut found = false;
        while !found && i < n
            invariant
                i <= n,
                n == self@.len(),
                self@ == s0,
                n == self.entries@.len(),
                p == package@,
                found ==> i < n && s0[i as int].package == p && s0[i as int].codename
                    == codename,
                forall|t: int|
                    0 <= t < i ==> !(#[trigger] s0[t].package == p && s0[t].codename == codename),
            decreases n - i + (if found { 0int } else { 1int }),
        {
            proof {
                assert(s0[i as int] == self.entries@[i as int]@);
            }
            let ent = &self.entries[i];
            let same_package = str_eq(ent.package.as_str(), package.as_str());
            let same_codename = ent.codename == codename;
            proof {
                assert(same_package == (s0[i as int].package == p));
                assert(same_codename == (s0[i as int].codename == codename));
            }
            if same_package && same_codename {
                found = true;
            } else {
                i = i + 1;
            }
        }
        let directory = match &source.directory {
            Option::Some(d) => Some(d.clone()),
            Option::None => None,
        };
        let av = AptVersion {
            repo_kind,
            codename,
            version: version.clone(),
            directory,
            errors: Vec::new(),
        };
        proof {
            assert(views_of(av.errors@) =~= Seq::<Seq<char>>::empty());
            assert(av@ == spec_new_version(repo_kind, codename, source@));
        }
        if found {
            proof {
                assert(s0[i as int].package == p && s0[i as int].codename == codename);
                lemma_find_at(s0, p, codename, i as int);
            }
            if matches!(repo_kind, RepoKind::Ubuntu) {
                let replace = match self.entries[i].info.version(RepoKind::Ubuntu) {
                    Option::Some(last) => matches!(
                        compare_versions(version.as_str(), last.version.as_str()),
                        Ordering::Greater
                    ),
                    Option::None => true,
                };
                let ghost info0 = s0[i as int].info;
                if replace {
                    let e = vec_index_mut(&mut self.entries, i);
                    let slot = e.info.version_mut(RepoKind::Ubuntu);
                    *slot = Some(av);
                    proof {
                        assert(self@ =~= s0.update(
                            i as int,
                            AptEntryView {
                                package: s0[i as int].package,
                                codename: s0[i as int].codename,
                                info: spec_set_slot(
                                    info0,
                                    RepoKind::Ubuntu,
                                    spec_merge_ubuntu(
                                        spec_slot(info0, RepoKind::Ubuntu),
                                        spec_new_version(repo_kind, codename, source@),
                                    ),
                                ),
                            },
                        ));
                        assert(forall|x: int, y: int|
                            0 <= x < y < self@.len() ==> spec_key_lt(
                                #[trigger] self@[x].package,
                                self@[x].codename,
                                #[trigger] self@[y].package,
                                self@[y].codename,
                            ));
                    }
                } else {
                    proof {
                        let merged = spec_merge_ubuntu(
                            spec_slot(info0, RepoKind::Ubuntu),
                            spec_new_version(repo_kind, codename, source@),
                        );
                        assert(merged == spec_slot(info0, RepoKind::Ubuntu));
                        assert(spec_set_slot(info0, RepoKind::Ubuntu, merged) == info0);
                        assert(s0.update(
                            i as int,
                            AptEntryView {
                                package: s0[i as int].package,
                                codename: s0[i as int].codename,
                                info: info0,
                            },
                        ) =~= s0);
                    }
                }
                Ok(())
            } else {
                if self.entries[i].info.version(repo_kind).is_some() {
                    let mut m = String::from_str("package ");
                    m.append(package.as_str());
                    m.append(" already recorded for this repository and codename");
                    return Err(Error::Invariant(m));
                }
                let ghost info0 = s0[i as int].info;
                let e = vec_index_mut(&mut self.entries, i);
                let slot = e.info.version_mut(repo_kind);
                *slot = Some(av);
                proof {
                    assert(self@ =~= s0.update(
                        i as int,
                        AptEntryView {
                            package: s0[i as int].package,
                            codename: s0[i as int].codename,
                            info: spec_set_slot(
                                info0,
                                repo_kind,
                                Option::Some(spec_new_version(repo_kind, codename, source@)),
                            ),
                        },
                    ));
                    assert(forall|x: int, y: int|
                        0 <= x < y < self@.len() ==> spec_key_lt(
                            #[trigger] self@[x].package,
                            self@[x].codename,
                            #[trigger] self@[y].package,
                            self@[y].codename,
                        ));
                }
                Ok(())
            }
        } else {
            proof {
                lemma_find_none(s0, p, codename);
            }
            if matches!(repo_kind, RepoKind::Ubuntu) {
                return Ok(());
            }
            let mut info = AptInfo::default();
            let slot = info.version_mut(repo_kind);
            *slot = Some(av);
            let ne = AptEntry { package: package.clone(), codename, info };
            let mut pos: usize = 0;
            let mut placed = false;
            while !placed && pos < n
                invariant
                    pos <= n,
                    n == self@.len(),
                    self@ == s0,
                    n == self.entries@.len(),
                    p == package@,
                    ne@.package == p && ne@.codename == codename,
                    placed ==> pos < n && !spec_key_lt(
                        s0[pos as int].package,
                        s0[pos as int].codename,
                        p,
                        codename,
                    ),
                    forall|t: int|
                        0 <= t < pos ==> spec_key_lt(
                            #[trigger] s0[t].package,
                            s0[t].codename,
                            p,
                            codename,
                        ),
                decreases n - pos + (if placed { 0int } else { 1int }),
            {
                proof {
                    assert(s0[pos as int] == self.entries@[pos as int]@);
                }
                if key_lt(
                    &self.entries[pos].package,
                    self.entries[pos].codename,
                    &ne.package,
                    ne.codename,
                ) {
                    pos = pos + 1;
                } else {
                    placed = true;
                }
            }
            proof {
                lemma_insert_pos_at(s0, p, codename, pos as int);
                if pos < n {
                    lemma_key_lt_connected(s0[pos as int].package, s0[pos as int].codename, p,
                        codename);
                    assert(spec_key_lt(p, codename, s0[pos as int].package,
                        s0[pos as int].codename));
                }
            }
            self.entries.insert(pos, ne);
            proof {
                assert(self@ =~= s0.insert(pos as int, ne@));
                assert forall|x: int, y: int| 0 <= x < y < self@.len() implies spec_key_lt(
                    #[trigger] self@[x].package,
                    self@[x].codename,
                    #[trigger] self@[y].package,
                    self@[y].codename,
                ) by {
                    let pi = pos as int;
                    if x < pi && y == pi {
                    } else if x == pi && y > pi {
                        if y - 1 > pi {
                            lemma_key_lt_trans(
                                p,
                                codename,
                                s0[pi].package,
                                s0[pi].codename,
                                s0[y - 1].package,
                                s0[y - 1].codename,
                            );
                        }
                    } else {
                    }
                }
            }
            Ok(())
        }
    }
}

/// Whether the first key sorts strictly below the second.
fn key_lt(p1: &String, c1: Codename, p2: &String, c2: Codename) -> (r: bool)
    ensures
        r == spec_key_lt(p1@, c1, p2@, c2),
{
    match str_lex_cmp(p1.as_str(), p2.as_str()) {
        Ordering::Less => true,
        Ordering::Equal => {
            proof {
                lemma_lex_eq(p1@, p2@);
            }
            c1.rank() < c2.rank()
        },
        Ordering::Greater => {
            proof {
                if p1@ == p2@ {
                    lemma_lex_refl(p1@);
                }
            }
            false
        },
    }
}

/// Merging two upstream versions into one slot ends at the same (by
/// comparison) highest version in whichever order the two arrive.
pub proof fn lemma_merge_ubuntu_order_irrelevant(a: AptVersionView, b: AptVersionView)
    ensures
        ({
            let r1 = spec_merge_ubuntu(spec_merge_ubuntu(Option::None, a), b).unwrap();
            let r2 = spec_merge_ubuntu(spec_merge_ubuntu(Option::None, b), a).unwrap();
            &&& spec_version_cmp(r1.version, r2.version) == Ordering::Equal
            &&& spec_version_cmp(r1.version, a.version) != Ordering::Less
            &&& spec_version_cmp(r1.version, b.version) != Ordering::Less
        }),
{
    lemma_version_cmp_antisymmetric(a.version, b.version);
    lemma_version_cmp_reflexive(a.version);
    lemma_version_cmp_reflexive(b.version);
}

/// Merging a version that compares equal to the one held leaves the slot
/// unchanged: replacement needs a strictly greater version.
pub proof fn lemma_merge_ubuntu_equal_keeps(cur: AptVersionView, nv: AptVersionView)
    requires
        spec_version_cmp(nv.version, cur.version) == Ordering::Equal,
    ensures
        spec_merge_ubuntu(Option::Some(cur), nv) == Option::Some(cur),
{
}

/// "At least as new" is transitive.
proof fn lemma_version_geq_trans(a: Seq<char>, b: Seq<char>, c: Seq<char>)
    requires
        spec_version_cmp(a, b) != Ordering::Less,
        spec_version_cmp(b, c) != Ordering::Less,
    ensures
        spec_version_cmp(a, c) != Ordering::Less,
{
    lemma_version_cmp_antisymmetric(a, b);
    lemma_version_cmp_antisymmetric(b, c);
    lemma_version_cmp_antisymmetric(a, c);
    if spec_version_cmp(a, b) == Ordering::Equal {
        lemma_version_cmp_equal_congruent(a, b, c);
    } else if spec_version_cmp(b, c) == Ordering::Equal {
        lemma_version_cmp_equal_congruent(b, c, a);
    } else {
        lemma_version_cmp_transitive(c, b, a);
    }
}

/// A whole sequence of upstream versions merged into one slot, in order.
pub open spec fn spec_merge_fold(cur: Option<AptVersionView>, vs: Seq<AptVersionView>) -> Option<
    AptVersionView,
>
    decreases vs.len(),
{
    if vs.len() == 0 {
        cur
    } else {
        spec_merge_fold(spec_merge_ubuntu(cur, vs[0]), vs.drop_first())
    }
}

proof fn lemma_merge_fold_max_from(cur: AptVersionView, vs: Seq<AptVersionView>)
    ensures
        ({
            let r = spec_merge_fold(Option::Some(cur), vs);
            &&& r is Some
            &&& (r.unwrap() == cur || vs.contains(r.unwrap()))
            &&& spec_version_cmp(r.unwrap().version, cur.version) != Ordering::Less
            &&& forall|i: int|
                0 <= i < vs.len() ==> spec_version_cmp(
                    r.unwrap().version,
                    #[trigger] vs[i].version,
                ) != Ordering::Less
        }),
    decreases vs.len(),
{
    if vs.len() == 0 {
        lemma_version_cmp_reflexive(cur.version);
    } else {
        let v0 = vs[0];
        let tail = vs.drop_first();
        let next = spec_merge_ubuntu(Option::Some(cur), v0);
        let nextval = next.unwrap();
        lemma_merge_fold_max_from(nextval, tail);
        let r = spec_merge_fold(Option::Some(cur), vs).unwrap();
        lemma_version_cmp_antisymmetric(v0.version, cur.version);
        // How the fold's result relates to the head and the slot it started
        // from.
        if spec_version_cmp(v0.version, cur.version) == Ordering::Greater {
            assert(nextval == v0);
            lemma_version_geq_trans(r.version, v0.version, cur.version);
        } else {
            assert(nextval == cur);
            assert(spec_version_cmp(cur.version, v0.version) != Ordering::Less);
            lemma_version_geq_trans(r.version, cur.version, v0.version);
        }
        if r != nextval {
            assert(tail.contains(r));
            let t = choose|t: int| 0 <= t < tail.len() && tail[t] == r;
            assert(vs[t + 1] == r);
            assert(vs.contains(r));
        } else {
            if nextval != cur {
                assert(vs[0] == v0);
                assert(vs.contains(r));
            }
        }
        assert forall|i: int|
            1 <= i < vs.len() implies spec_version_cmp(
            r.version,
            #[trigger] vs[i].version,
        ) != Ordering::Less by {
            assert(vs[i] == tail[i - 1]);
        }
    }
}

/// Folding any non-empty collection of upstream versions into an empty slot
/// ends at one of them, at least as new (under distro ordering) as every one
/// of them.
pub proof fn lemma_merge_fold_max(vs: Seq<AptVersionView>)
    requires
        vs.len() > 0,
    ensures
        ({
            let r = spec_merge_fold(Option::None, vs);
            &&& r is Some
            &&& vs.contains(r.unwrap())
            &&& forall|i: int|
                0 <= i < vs.len() ==> spec_version_cmp(
                    r.unwrap().version,
                    #[trigger] vs[i].version,
                ) != Ordering::Less
        }),
{
    let v0 = vs[0];
    let tail = vs.drop_first();
    assert(spec_merge_ubuntu(Option::None, v0) == Option::Some(v0));
    lemma_merge_fold_max_from(v0, tail);
    let r = spec_merge_fold(Option::None, vs).unwrap();
    if r == v0 {
        assert(vs.contains(v0));
    } else {
        assert(tail.contains(r));
        let t = choose|t: int| 0 <= t < tail.len() && tail[t] == r;
        assert(vs[t + 1] == r);
        assert(vs.contains(r));
    }
    assert forall|i: int|
        1 <= i < vs.len() implies spec_version_cmp(
        r.version,
        #[trigger] vs[i].version,
    ) != Ordering::Less by {
        assert(vs[i] == tail[i - 1]);
    }
}

/// The upstream slot does not depend on the order the suites' records were
/// merged in: two processing orders of the same versions end at versions
/// that compare equal.
pub proof fn lemma_merge_fold_order_irrelevant(vs1: Seq<AptVersionView>, vs2: Seq<AptVersionView>)
    requires
        vs1.len() > 0,
        vs1.to_multiset() == vs2.to_multiset(),
    ensures
        ({
            let r1 = spec_merge_fold(Option::None, vs1);
            let r2 = spec_merge_fold(Option::None, vs2);
            &&& r1 is Some
            &&& r2 is Some
            &&& spec_version_cmp(r1.unwrap().version, r2.unwrap().version) == Ordering::Equal
        }),
{
    vs1.to_multiset_ensures();
    vs2.to_multiset_ensures();
    assert(vs2.len() > 0);
    lemma_merge_fold_max(vs1);
    lemma_merge_fold_max(vs2);
    let r1 = spec_merge_fold(Option::None, vs1).unwrap();
    let r2 = spec_merge_fold(Option::None, vs2).unwrap();
    assert(vs1.to_multiset().count(r2) > 0);
    assert(vs1.contains(r2));
    assert(vs2.to_multiset().count(r1) > 0);
    assert(vs2.contains(r1));
    let i1 = choose|i1: int| 0 <= i1 < vs1.len() && vs1[i1] == r2;
    let i2 = choose|i2: int| 0 <= i2 < vs2.len() && vs2[i2] == r1;
    assert(spec_version_cmp(r1.version, r2.version) != Ordering::Less);
    assert(spec_version_cmp(r2.version, r1.version) != Ordering::Less);
    lemma_version_cmp_antisymmetric(r1.version, r2.version);
}

} // verus!
