//! Static configuration of the reconciled repositories: which repository
//! kinds exist, which distribution codenames and suites each serves, which
//! architectures are permitted, and the declared "must be newer than" partial
//! order between kinds.
use vstd::prelude::*;

verus! {

/// A distribution release codename served by the repositories.
#[derive(Clone, Copy, Debug, Eq, Hash, Ord, PartialEq, PartialOrd, Structural)]
pub enum Codename {
    Jammy,
    Noble,
    Resolute,
}

/// The name a codename serializes to.
pub open spec fn spec_codename_str(c: Codename) -> Seq<char> {
    match c {
        Codename::Jammy => "jammy"@,
        Codename::Noble => "noble"@,
        Codename::Resolute => "resolute"@,
    }
}

/// Position of a codename in the declared enumeration, used to order
/// aggregate entries deterministically.
pub open spec fn spec_codename_rank(c: Codename) -> int {
    match c {
        Codename::Jammy => 0,
        Codename::Noble => 1,
        Codename::Resolute => 2,
    }
}

impl Codename {
    pub fn as_str(&self) -> (r: &'static str)
        ensures
            r@ == spec_codename_str(*self),
    {
        match self {
            Self::Jammy => "jammy",
            Self::Noble => "noble",
            Self::Resolute => "resolute",
        }
    }

    /// Position of this codename in the declared enumeration.
    pub fn rank(&self) -> (r: u8)
        ensures
            r as int == spec_codename_rank(*self),
    {
        match self {
            Self::Jammy => 0,
            Self::Noble => 1,
            Self::Resolute => 2,
        }
    }
}

/// The variant of a suite within one codename: the plain listing or one of
/// the security/updates/backports side feeds of the upstream distribution.
#[derive(Clone, Copy, Debug, Eq, Hash, Ord, PartialEq, PartialOrd, Structural)]
pub enum SuiteKind {
    Standard,
    Security,
    Updates,
    Backports,
}

/// The suffix a suite variant contributes to the suite name.
pub open spec fn spec_suite_kind_str(k: SuiteKind) -> Seq<char> {
    match k {
        SuiteKind::Standard => ""@,
        SuiteKind::Security => "-security"@,
        SuiteKind::Updates => "-updates"@,
        SuiteKind::Backports => "-backports"@,
    }
}

impl SuiteKind {
    pub fn as_str(&self) -> (r: &'static str)
        ensures
            r@ == spec_suite_kind_str(*self),
    {
        match self {
            Self::Standard => "",
            Self::Security => "-security",
            Self::Updates => "-updates",
            Self::Backports => "-backports",
        }
    }
}

/// One listing within a repository: a codename together with a variant.
#[derive(Clone, Copy, Debug, Eq, Hash, Ord, PartialEq, PartialOrd, Structural)]
pub struct Suite(pub Codename, pub SuiteKind);

/// The name a suite serializes to: the codename followed by the variant's
/// suffix.
pub open spec fn spec_suite_name(s: Suite) -> Seq<char> {
    spec_codename_str(s.0) + spec_suite_kind_str(s.1)
}

impl Suite {
    pub fn name(&self) -> (r: String)
        ensures
            r@ == spec_suite_name(*self),
    {
        let mut n = String::new();
        n.append(self.0.as_str());
        n.append(self.1.as_str());
        n
    }
}

/// A hardware architecture a repository may serve.
#[derive(Clone, Copy, Debug, Eq, Hash, Ord, PartialEq, PartialOrd, Structural)]
pub enum Arch {
    Amd64,
    Arm64,
    Armhf,
    I386,
}

/// The name an architecture serializes to.
pub open spec fn spec_arch_str(a: Arch) -> Seq<char> {
    match a {
        Arch::Amd64 => "amd64"@,
        Arch::Arm64 => "arm64"@,
        Arch::Armhf => "armhf"@,
        Arch::I386 => "i386"@,
    }
}

impl Arch {
    pub fn as_str(&self) -> (r: &'static str)
        ensures
            r@ == spec_arch_str(*self),
    {
        match self {
            Self::Amd64 => "amd64",
            Self::Arm64 => "arm64",
            Self::Armhf => "armhf",
            Self::I386 => "i386",
        }
    }
}

/// One of the fixed package-repository feeds being reconciled.
#[derive(Clone, Copy, Debug, Eq, Hash, Ord, PartialEq, PartialOrd, Structural)]
pub enum RepoKind {
    Release,
    Staging,
    StagingUbuntu,
    Stable,
    PreStable,
    Ubuntu,
}

/// The declared enumeration order of the repository kinds.
pub open spec fn spec_all_repo_kinds() -> Seq<RepoKind> {
    seq![
        RepoKind::Release,
        RepoKind::Staging,
        RepoKind::StagingUbuntu,
        RepoKind::Stable,
        RepoKind::PreStable,
        RepoKind::Ubuntu,
    ]
}

/// The kinds whose version this kind's version must be newer than or equal
/// to.  These edges form an acyclic partial order whose unique sink is the
/// upstream distribution kind.
pub open spec fn spec_must_be_newer_than(k: RepoKind) -> Seq<RepoKind> {
    match k {
        RepoKind::Release => seq![RepoKind::Ubuntu],
        RepoKind::Staging => seq![RepoKind::Release, RepoKind::Ubuntu],
        RepoKind::StagingUbuntu => seq![
            RepoKind::PreStable,
            RepoKind::Stable,
            RepoKind::Ubuntu,
        ],
        RepoKind::Stable => seq![RepoKind::Ubuntu],
        RepoKind::PreStable => seq![RepoKind::Stable, RepoKind::Ubuntu],
        RepoKind::Ubuntu => Seq::empty(),
    }
}

/// The human-readable name of a repository kind, used in diagnostics.
pub open spec fn spec_repo_kind_str(k: RepoKind) -> Seq<char> {
    match k {
        RepoKind::Release => "Release"@,
        RepoKind::Staging => "Staging"@,
        RepoKind::StagingUbuntu => "Staging (Ubuntu)"@,
        RepoKind::Stable => "Stable (PPA)"@,
        RepoKind::PreStable => "Pre Stable (PPA)"@,
        RepoKind::Ubuntu => "Ubuntu"@,
    }
}

/// The base location of a repository kind.
pub open spec fn spec_repo_kind_url(k: RepoKind) -> Seq<char> {
    match k {
        RepoKind::Release => "https://apt.pop-os.org/release/"@,
        RepoKind::Staging => "https://apt.pop-os.org/staging/master/"@,
        RepoKind::StagingUbuntu => "https://apt.pop-os.org/staging-ubuntu/master/"@,
        RepoKind::Stable => "https://ppa.launchpadcontent.net/system76-dev/stable/ubuntu/"@,
        RepoKind::PreStable => "https://ppa.launchpadcontent.net/system76-dev/pre-stable/ubuntu/"@,
        RepoKind::Ubuntu => "https://apt.pop-os.org/ubuntu/"@,
    }
}

/// The suites a kind exposes for one codename: the upstream distribution
/// merges four side feeds, every other kind has the plain suite alone.
pub open spec fn spec_suites(k: RepoKind, c: Codename) -> Seq<Suite> {
    match k {
        RepoKind::Ubuntu => seq![
            Suite(c, SuiteKind::Standard),
            Suite(c, SuiteKind::Security),
            Suite(c, SuiteKind::Updates),
            Suite(c, SuiteKind::Backports),
        ],
        _ => seq![Suite(c, SuiteKind::Standard)],
    }
}

/// The architectures a kind permits.
pub open spec fn spec_allowed_archs(k: RepoKind) -> Seq<Arch> {
    match k {
        RepoKind::Ubuntu => seq![Arch::Amd64, Arch::I386],
        _ => seq![Arch::Amd64, Arch::Arm64, Arch::Armhf, Arch::I386],
    }
}

impl RepoKind {
    /// Every repository kind, in the declared enumeration order.
    pub fn all() -> (r: Vec<Self>)
        ensures
            r@ == spec_all_repo_kinds(),
    {
        let r = vec![
            Self::Release,
            Self::Staging,
            Self::StagingUbuntu,
            Self::Stable,
            Self::PreStable,
            Self::Ubuntu,
        ];
        proof {
            assert(r@ =~= spec_all_repo_kinds());
        }
        r
    }

    /// The kinds this kind's version must be newer than or equal to.
    pub fn must_be_newer_than(&self) -> (r: Vec<Self>)
        ensures
            r@ == spec_must_be_newer_than(*self),
    {
        let r = match self {
            Self::Release => vec![Self::Ubuntu],
            Self::Staging => vec![Self::Release, Self::Ubuntu],
            Self::StagingUbuntu => vec![Self::PreStable, Self::Stable, Self::Ubuntu],
            Self::Stable => vec![Self::Ubuntu],
            Self::PreStable => vec![Self::Stable, Self::Ubuntu],
            Self::Ubuntu => Vec::new(),
        };
        proof {
            assert(r@ =~= spec_must_be_newer_than(*self));
        }
        r
    }

    pub fn as_str(&self) -> (r: &'static str)
        ensures
            r@ == spec_repo_kind_str(*self),
    {
        match self {
            Self::Release => "Release",
            Self::Staging => "Staging",
            Self::StagingUbuntu => "Staging (Ubuntu)",
            Self::Stable => "Stable (PPA)",
            Self::PreStable => "Pre Stable (PPA)",
            Self::Ubuntu => "Ubuntu",
        }
    }

    /// The base location of this kind, as text; fetch paths are joined onto
    /// it by the caller that performs the transfers.
    pub fn url(&self) -> (r: &'static str)
        ensures
            r@ == spec_repo_kind_url(*self),
    {
        match self {
            Self::Release => "https://apt.pop-os.org/release/",
            Self::Staging => "https://apt.pop-os.org/staging/master/",
            Self::StagingUbuntu => "https://apt.pop-os.org/staging-ubuntu/master/",
            Self::Stable => "https://ppa.launchpadcontent.net/system76-dev/stable/ubuntu/",
            Self::PreStable => "https://ppa.launchpadcontent.net/system76-dev/pre-stable/ubuntu/",
            Self::Ubuntu => "https://apt.pop-os.org/ubuntu/",
        }
    }

    /// The codenames this kind serves.
    pub fn codenames(&self) -> (r: Vec<Codename>)
        ensures
            r@ == seq![Codename::Jammy, Codename::Noble, Codename::Resolute],
    {
        let r = vec![Codename::Jammy, Codename::Noble, Codename::Resolute];
        proof {
            assert(r@ =~= seq![Codename::Jammy, Codename::Noble, Codename::Resolute]);
        }
        r
    }

    /// The suites this kind exposes for one codename.
    pub fn suites(&self, codename: Codename) -> (r: Vec<Suite>)
        ensures
            r@ == spec_suites(*self, codename),
    {
        let r = match self {
            Self::Ubuntu => {
                vec![
                    Suite(codename, SuiteKind::Standard),
                    Suite(codename, SuiteKind::Security),
                    Suite(codename, SuiteKind::Updates),
                    Suite(codename, SuiteKind::Backports),
                ]
            },
            _ => vec![Suite(codename, SuiteKind::Standard)],
        };
        proof {
            assert(r@ =~= spec_suites(*self, codename));
        }
        r
    }

    /// The architectures this kind permits.
    pub fn allowed_archs(&self) -> (r: Vec<Arch>)
        ensures
            r@ == spec_allowed_archs(*self),
    {
        let r = match self {
            Self::Ubuntu => vec![Arch::Amd64, Arch::I386],
            _ => vec![Arch::Amd64, Arch::Arm64, Arch::Armhf, Arch::I386],
        };
        proof {
            assert(r@ =~= spec_allowed_archs(*self));
        }
        r
    }
}

} // verus!
