use std::cmp::Ordering;
use std::io::Write;

use poparazzi::aggregate::{AptEntry, AptInfo, AptInfos, AptVersion};
use poparazzi::client::{
    packages_from_text, releases_from_bytes, sources_from_bytes, sources_from_gzip_bytes,
    sources_from_text,
};
use poparazzi::config::{Arch, Codename, RepoKind, Suite, SuiteKind};
use poparazzi::error::Error;
use poparazzi::plan::{
    aggregate_sources, packages_path, permitted_archs, release_fetch_plan, release_path,
    single_release, source_fetches, sources_path,
};
use poparazzi::records::{Release, Source};
use poparazzi::stanza::{decode_stanzas, parse_entries};
use poparazzi::version::compare_versions;

fn source(package: &str, version: &str, directory: Option<&str>) -> Source {
    Source {
        package: Some(package.to_string()),
        archs: None,
        version: Some(version.to_string()),
        directory: directory.map(|d| d.to_string()),
    }
}

#[test]
fn version_equal_to_itself() {
    for v in ["1.0", "1:2.3-4", "0", "1.0~rc1+dfsg-3ubuntu2"] {
        assert_eq!(compare_versions(v, v), Ordering::Equal);
    }
}

#[test]
fn version_tilde_sorts_before_release() {
    assert_eq!(compare_versions("1.0~rc1", "1.0"), Ordering::Less);
    assert_eq!(compare_versions("1.0", "1.0~rc1"), Ordering::Greater);
}

#[test]
fn version_epoch_dominates() {
    assert_eq!(compare_versions("1:0.9", "0.10"), Ordering::Greater);
    assert_eq!(compare_versions("0.10", "1:0.9"), Ordering::Less);
}

#[test]
fn version_digit_runs_compare_numerically() {
    assert_eq!(compare_versions("2.0", "10.0"), Ordering::Less);
    assert_eq!(compare_versions("1.09", "1.9"), Ordering::Equal);
    assert_eq!(compare_versions("1.0-1", "1.0-2"), Ordering::Less);
}

#[test]
fn version_agrees_with_reference_comparison() {
    let samples = [
        "1.0", "1.0~rc1", "1:0.9", "0.10", "2.0-1", "2.0-1ubuntu1", "2.0", "1.0.0",
        "0:1.0", "3.2~beta2-1", "3.2-1", "22.04.1", "1.0+git20240101-2",
    ];
    for a in samples {
        for b in samples {
            assert_eq!(
                compare_versions(a, b),
                deb_version::compare_versions(a, b),
                "disagreement on {a} vs {b}"
            );
        }
    }
}

#[test]
fn version_agrees_with_reference_comparison_on_generated_inputs() {
    // A deterministic pseudo-random corpus over the characters version
    // strings are built from, held against the reference comparison.
    let alphabet: Vec<char> = "abc+xyz.ABC-XYZ~012:789".chars().collect();
    let mut state: u64 = 0x2545F4914F6CDD1D;
    let mut next = move || {
        state ^= state << 13;
        state ^= state >> 7;
        state ^= state << 17;
        state
    };
    let mut samples = Vec::new();
    for _ in 0..60 {
        let len = 1 + (next() % 8) as usize;
        let mut v = String::new();
        for _ in 0..len {
            v.push(alphabet[(next() % alphabet.len() as u64) as usize]);
        }
        samples.push(v);
    }
    for a in &samples {
        for b in &samples {
            assert_eq!(
                compare_versions(a, b),
                deb_version::compare_versions(a, b),
                "disagreement on {a:?} vs {b:?}"
            );
        }
    }
}

#[test]
fn decoder_splits_stanzas_in_order() {
    let text = "A: 1\nB: 2\n\nC: 3\n";
    let stanzas = decode_stanzas(text);
    assert_eq!(stanzas, vec!["A: 1\nB: 2".to_string(), "C: 3".to_string()]);
}

#[test]
fn decoder_skips_extra_blank_lines() {
    let stanzas = decode_stanzas("\n\nA: 1\n\n\n\nB: 2\n\n");
    assert_eq!(stanzas, vec!["A: 1".to_string(), "B: 2".to_string()]);
}

#[test]
fn decoder_empty_input_yields_no_stanza() {
    assert!(decode_stanzas("").is_empty());
    assert!(decode_stanzas("\n\n").is_empty());
}

#[test]
fn entries_split_key_and_value() {
    let entries = parse_entries("Package: foo\nVersion:1.0\nOdd:  spaced").unwrap();
    assert_eq!(entries.len(), 3);
    assert_eq!(entries[0].key, "Package");
    assert_eq!(entries[0].value, "foo");
    assert_eq!(entries[1].key, "Version");
    assert_eq!(entries[1].value, "1.0");
    assert_eq!(entries[2].key, "Odd");
    assert_eq!(entries[2].value, " spaced");
}

#[test]
fn continuation_concatenates_onto_previous_value() {
    let entries = parse_entries("Key: ab\n cd").unwrap();
    assert_eq!(entries.len(), 1);
    assert_eq!(entries[0].value, "abcd");
}

#[test]
fn continuation_before_any_field_is_a_decode_error() {
    let err = parse_entries(" stray").unwrap_err();
    assert!(matches!(err, Error::Decode(_)));
}

#[test]
fn line_without_colon_is_a_decode_error() {
    let err = parse_entries("Package: foo\nnocolon").unwrap_err();
    assert!(matches!(err, Error::Decode(_)));
}

#[test]
fn duplicate_recognized_key_is_a_parse_error() {
    let err = sources_from_text("Package: a\nPackage: b\n").unwrap_err();
    assert!(matches!(err, Error::Parse(_)));
}

#[test]
fn unrecognized_keys_never_affect_the_record() {
    let plain = sources_from_text("Package: foo\nVersion: 1.0\n").unwrap();
    let noisy =
        sources_from_text("Extra: x\nPackage: foo\nMaintainer: y\nVersion: 1.0\nOther: z\n")
            .unwrap();
    assert_eq!(plain, noisy);
}

#[test]
fn duplicate_unrecognized_key_is_fine() {
    let recs = sources_from_text("Noise: 1\nNoise: 2\nPackage: foo\n").unwrap();
    assert_eq!(recs[0].package.as_deref(), Some("foo"));
}

#[test]
fn release_mapper_reads_token_lists() {
    let rels = releases_from_bytes(
        b"Architectures: amd64 arm64\nCodename: noble\nComponents: main universe\n".to_vec(),
    )
    .unwrap();
    let rel = single_release(rels).unwrap();
    assert_eq!(rel.archs, Some(vec!["amd64".to_string(), "arm64".to_string()]));
    assert_eq!(rel.codename.as_deref(), Some("noble"));
    assert_eq!(rel.components, Some(vec!["main".to_string(), "universe".to_string()]));
}

#[test]
fn packages_mapper_reads_binary_records() {
    let pkgs = packages_from_text("Package: foo\nVersion: 1.0\nSource: foo-src\n").unwrap();
    assert_eq!(pkgs.len(), 1);
    assert_eq!(pkgs[0].package.as_deref(), Some("foo"));
    assert_eq!(pkgs[0].source.as_deref(), Some("foo-src"));
}

#[test]
fn non_utf8_listing_is_a_decode_error() {
    let err = releases_from_bytes(vec![0xff, 0xfe, 0x00]).unwrap_err();
    assert!(matches!(err, Error::Decode(_)));
}

#[test]
fn zero_or_many_release_stanzas_are_a_parse_error() {
    assert!(matches!(single_release(vec![]), Err(Error::Parse(_))));
    let two = vec![Release::default(), Release::default()];
    assert!(matches!(single_release(two), Err(Error::Parse(_))));
}

#[test]
fn duplicate_source_record_is_an_invariant_violation() {
    let mut infos = AptInfos::new();
    infos
        .add_source(RepoKind::Release, Codename::Noble, &source("foo", "1.0", None))
        .unwrap();
    let err = infos
        .add_source(RepoKind::Release, Codename::Noble, &source("foo", "1.1", None))
        .unwrap_err();
    assert!(matches!(err, Error::Invariant(_)));
}

#[test]
fn source_without_package_or_version_is_skipped() {
    let mut infos = AptInfos::new();
    let mut s = source("foo", "1.0", None);
    s.package = None;
    infos.add_source(RepoKind::Release, Codename::Noble, &s).unwrap();
    let mut s = source("foo", "1.0", None);
    s.version = None;
    infos.add_source(RepoKind::Release, Codename::Noble, &s).unwrap();
    assert_eq!(infos.len(), 0);
}

#[test]
fn upstream_slot_keeps_the_highest_version() {
    for order in [["1.0", "1.2"], ["1.2", "1.0"]] {
        let mut infos = AptInfos::new();
        infos
            .add_source(RepoKind::Release, Codename::Noble, &source("foo", "0.9", None))
            .unwrap();
        for v in order {
            infos
                .add_source(RepoKind::Ubuntu, Codename::Noble, &source("foo", v, None))
                .unwrap();
        }
        let entry = infos.entry(0);
        let ubuntu = entry.info.version(RepoKind::Ubuntu).as_ref().unwrap();
        assert_eq!(ubuntu.version, "1.2");
    }
}

#[test]
fn upstream_version_without_existing_entry_is_ignored() {
    let mut infos = AptInfos::new();
    infos
        .add_source(RepoKind::Ubuntu, Codename::Noble, &source("foo", "1.0", None))
        .unwrap();
    assert_eq!(infos.len(), 0);
}

#[test]
fn aggregate_stays_sorted_by_package_then_codename() {
    let mut infos = AptInfos::new();
    infos
        .add_source(RepoKind::Release, Codename::Noble, &source("zeta", "1", None))
        .unwrap();
    infos
        .add_source(RepoKind::Release, Codename::Jammy, &source("alpha", "1", None))
        .unwrap();
    infos
        .add_source(RepoKind::Release, Codename::Noble, &source("alpha", "1", None))
        .unwrap();
    let keys: Vec<(String, Codename)> = (0..infos.len())
        .map(|i| {
            let e = infos.entry(i);
            (e.package.clone(), e.codename)
        })
        .collect();
    assert_eq!(
        keys,
        vec![
            ("alpha".to_string(), Codename::Jammy),
            ("alpha".to_string(), Codename::Noble),
            ("zeta".to_string(), Codename::Noble),
        ]
    );
}

fn pop_infos(release: Option<&str>, staging: Option<&str>, ubuntu: Option<&str>) -> AptInfos {
    let slot = |kind: RepoKind, v: &str| AptVersion {
        repo_kind: kind,
        codename: Codename::Noble,
        version: v.to_string(),
        directory: None,
        errors: Vec::new(),
    };
    let info = AptInfo {
        release: release.map(|v| slot(RepoKind::Release, v)),
        staging: staging.map(|v| slot(RepoKind::Staging, v)),
        staging_ubuntu: None,
        stable: None,
        pre_stable: None,
        ubuntu: ubuntu.map(|v| slot(RepoKind::Ubuntu, v)),
    };
    AptInfos {
        entries: vec![AptEntry { package: "foo".to_string(), codename: Codename::Noble, info }],
    }
}

#[test]
fn checker_flags_a_release_older_than_upstream() {
    let mut infos = pop_infos(Some("2.0"), Some("2.1"), Some("2.1"));
    infos.check_consistency();
    let entry = infos.entry(0);
    let release = entry.info.version(RepoKind::Release).as_ref().unwrap();
    assert_eq!(release.errors, vec!["Older than Ubuntu".to_string()]);
    assert_eq!(infos.total_errors(), 1);
}

#[test]
fn checker_accepts_a_release_newer_than_upstream() {
    let mut infos = pop_infos(Some("2.1"), Some("2.1"), Some("2.0"));
    infos.check_consistency();
    let entry = infos.entry(0);
    let release = entry.info.version(RepoKind::Release).as_ref().unwrap();
    assert!(release.errors.is_empty());
    let ubuntu = entry.info.version(RepoKind::Ubuntu).as_ref().unwrap();
    assert!(ubuntu.errors.is_empty());
    assert_eq!(infos.total_errors(), 0);
}

#[test]
fn checker_marks_the_older_slot_when_a_kind_is_missing() {
    // Only the stable channel carries the package.  The two kinds that must
    // be newer than it are absent, so the stable slot is marked once per
    // missing kind, in pass order.
    let slot = AptVersion {
        repo_kind: RepoKind::Stable,
        codename: Codename::Noble,
        version: "1.0".to_string(),
        directory: None,
        errors: Vec::new(),
    };
    let info = AptInfo {
        release: None,
        staging: None,
        staging_ubuntu: None,
        stable: Some(slot),
        pre_stable: None,
        ubuntu: None,
    };
    let mut infos = AptInfos {
        entries: vec![AptEntry { package: "foo".to_string(), codename: Codename::Noble, info }],
    };
    infos.check_consistency();
    let entry = infos.entry(0);
    let stable = entry.info.version(RepoKind::Stable).as_ref().unwrap();
    assert_eq!(
        stable.errors,
        vec!["Not in Staging (Ubuntu)".to_string(), "Not in Pre Stable (PPA)".to_string()]
    );
    assert_eq!(infos.total_errors(), 2);
}

#[test]
fn checker_treats_absence_relative_to_upstream_as_benign() {
    // The upstream distribution is present and the release feed is not:
    // absence relative to upstream is expected, so nothing is flagged.
    let mut infos = pop_infos(None, None, Some("1.0"));
    infos.check_consistency();
    let entry = infos.entry(0);
    assert!(entry.info.version(RepoKind::Release).is_none());
    let ubuntu = entry.info.version(RepoKind::Ubuntu).as_ref().unwrap();
    assert!(ubuntu.errors.is_empty());
    assert_eq!(infos.total_errors(), 0);
}

#[test]
fn checker_does_not_mark_absence_relative_to_upstream() {
    // A package present only in the release feed tracks no upstream: its
    // missing upstream slot is benign and nothing is flagged.
    let mut infos = pop_infos(Some("1.0"), Some("1.0"), None);
    infos.check_consistency();
    let entry = infos.entry(0);
    let release = entry.info.version(RepoKind::Release).as_ref().unwrap();
    assert!(release.errors.is_empty());
    assert_eq!(infos.total_errors(), 0);
}

fn gzip(data: &[u8]) -> Vec<u8> {
    let mut enc = flate2::write::GzEncoder::new(Vec::new(), flate2::Compression::default());
    enc.write_all(data).unwrap();
    enc.finish().unwrap()
}

#[test]
fn end_to_end_fixture_aggregates_and_links() {
    let release_bytes = b"Architectures: amd64\nCodename: noble\nComponents: main\n".to_vec();
    let manifest = single_release(releases_from_bytes(release_bytes).unwrap()).unwrap();
    assert_eq!(manifest.codename.as_deref(), Some("noble"));

    let suite = Suite(Codename::Noble, SuiteKind::Standard);
    let fetches = source_fetches(&suite, &manifest).unwrap();
    assert_eq!(fetches.len(), 1);
    assert_eq!(fetches[0].component, "main");
    assert_eq!(fetches[0].path, "dists/noble/main/source/Sources.gz");

    let listing =
        b"Package: foo\nVersion: 1.0-1\nDirectory: pool/noble/foo/abc123/foo_1.0.orig.tar.gz\n";
    let sources = sources_from_gzip_bytes(&gzip(listing)).unwrap();
    assert_eq!(sources.len(), 1);

    let mut infos = AptInfos::new();
    aggregate_sources(&mut infos, RepoKind::Release, Codename::Noble, &sources).unwrap();
    assert_eq!(infos.len(), 1);
    let entry = infos.entry(0);
    assert_eq!(entry.package, "foo");
    assert_eq!(entry.codename, Codename::Noble);
    let slot = entry.info.version(RepoKind::Release).as_ref().unwrap();
    assert_eq!(slot.version, "1.0-1");
    let link = slot.github_commit().unwrap();
    assert!(link.contains("abc123"));
    assert_eq!(link, "https://github.com/pop-os/foo/commit/abc123");
}

#[test]
fn gzip_path_agrees_with_plain_path() {
    let listing: &[u8] =
        b"Package: foo\nVersion: 1.0-1\n\nPackage: bar\nVersion: 2:0.3~rc1-2\n";
    let via_gzip = sources_from_gzip_bytes(&gzip(listing)).unwrap();
    let plain = sources_from_bytes(listing.to_vec()).unwrap();
    assert_eq!(via_gzip, plain);
    assert_eq!(via_gzip.len(), 2);
}

#[test]
fn duplicate_release_key_is_a_parse_error() {
    let err = releases_from_bytes(b"Codename: noble\nCodename: jammy\n".to_vec()).unwrap_err();
    assert!(matches!(err, Error::Parse(_)));
}

#[test]
fn corrupt_gzip_is_a_decode_error() {
    let err = sources_from_gzip_bytes(&b"Package: foo\n".to_vec()).unwrap_err();
    assert!(matches!(err, Error::Decode(_)));
}

#[test]
fn commit_link_needs_the_pool_convention() {
    let av = |d: Option<&str>| AptVersion {
        repo_kind: RepoKind::Release,
        codename: Codename::Noble,
        version: "1.0".to_string(),
        directory: d.map(|x| x.to_string()),
        errors: Vec::new(),
    };
    assert_eq!(av(None).github_commit(), None);
    assert_eq!(av(Some("not/pool/shaped")).github_commit(), None);
    assert_eq!(av(Some("pool/noble/foo")).github_commit(), None);
    assert_eq!(
        av(Some("pool/noble/foo/abc/rest")).github_commit(),
        Some("https://github.com/pop-os/foo/commit/abc".to_string())
    );
}

#[test]
fn configuration_matches_the_pipeline() {
    assert_eq!(
        RepoKind::all(),
        vec![
            RepoKind::Release,
            RepoKind::Staging,
            RepoKind::StagingUbuntu,
            RepoKind::Stable,
            RepoKind::PreStable,
            RepoKind::Ubuntu,
        ]
    );
    assert_eq!(RepoKind::Ubuntu.must_be_newer_than(), Vec::<RepoKind>::new());
    assert_eq!(
        RepoKind::Staging.must_be_newer_than(),
        vec![RepoKind::Release, RepoKind::Ubuntu]
    );
    assert_eq!(RepoKind::Ubuntu.suites(Codename::Jammy).len(), 4);
    assert_eq!(RepoKind::Release.suites(Codename::Jammy).len(), 1);
    assert_eq!(RepoKind::Release.url(), "https://apt.pop-os.org/release/");
    assert_eq!(RepoKind::Stable.as_str(), "Stable (PPA)");
    assert_eq!(Codename::Resolute.as_str(), "resolute");
    assert_eq!(Arch::Armhf.as_str(), "armhf");
    assert_eq!(Suite(Codename::Noble, SuiteKind::Security).name(), "noble-security");
    assert_eq!(Suite(Codename::Jammy, SuiteKind::Standard).name(), "jammy");
}

#[test]
fn fetch_plan_is_deterministic_and_ordered() {
    let plan = release_fetch_plan();
    // Five kinds with one suite per codename, the upstream kind with four.
    assert_eq!(plan.len(), 5 * 3 + 3 * 4);
    assert_eq!(plan[0].repo_kind, RepoKind::Release);
    assert_eq!(plan[0].codename, Codename::Jammy);
    assert_eq!(plan[0].path, "dists/jammy/Release");
    let last = &plan[plan.len() - 1];
    assert_eq!(last.repo_kind, RepoKind::Ubuntu);
    assert_eq!(last.path, "dists/resolute-backports/Release");
}

#[test]
fn fetch_paths_follow_the_layout() {
    let suite = Suite(Codename::Noble, SuiteKind::Updates);
    assert_eq!(release_path(&suite), "dists/noble-updates/Release");
    assert_eq!(sources_path(&suite, "main"), "dists/noble-updates/main/source/Sources.gz");
    assert_eq!(
        packages_path(&suite, "main", Arch::Amd64),
        "dists/noble-updates/main/binary-amd64/Packages.gz"
    );
}

#[test]
fn missing_manifest_fields_are_parse_errors() {
    let rel = Release { archs: None, codename: None, components: None };
    let suite = Suite(Codename::Noble, SuiteKind::Standard);
    assert!(matches!(source_fetches(&suite, &rel), Err(Error::Parse(_))));
    assert!(matches!(permitted_archs(RepoKind::Release, &rel), Err(Error::Parse(_))));
}

#[test]
fn permitted_archs_intersect_manifest_and_kind() {
    let rel = Release {
        archs: Some(vec!["amd64".to_string(), "arm64".to_string(), "i386".to_string()]),
        codename: None,
        components: None,
    };
    assert_eq!(
        permitted_archs(RepoKind::Ubuntu, &rel).unwrap(),
        vec![Arch::Amd64, Arch::I386]
    );
    assert_eq!(
        permitted_archs(RepoKind::Release, &rel).unwrap(),
        vec![Arch::Amd64, Arch::Arm64, Arch::I386]
    );
}

#[test]
fn version_mut_reaches_the_right_slot() {
    let mut info = AptInfo::default();
    assert!(info.version(RepoKind::Stable).is_none());
    *info.version_mut(RepoKind::Stable) = Some(AptVersion {
        repo_kind: RepoKind::Stable,
        codename: Codename::Jammy,
        version: "3.1".to_string(),
        directory: None,
        errors: Vec::new(),
    });
    assert_eq!(
        info.version(RepoKind::Stable).as_ref().map(|v| v.version.as_str()),
        Some("3.1")
    );
    assert!(info.version(RepoKind::Release).is_none());
    assert!(info.version(RepoKind::Ubuntu).is_none());
}

#[test]
fn error_messages_are_carried() {
    let err = Error::Transport("connection refused".to_string());
    assert_eq!(err.message(), "connection refused");
}

#[test]
fn sources_from_bytes_handles_empty_listings() {
    assert!(sources_from_bytes(Vec::new()).unwrap().is_empty());
}
