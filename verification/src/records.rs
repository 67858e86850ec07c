//! Mapping of decoded stanza fields into the three typed records: the
//! release manifest, the binary package record and the source package
//! record.  A recognized key appearing twice in one stanza is a parse error;
//! unrecognized keys are skipped.
use vstd::prelude::*;
use vstd::string::StrSliceExecFns;
use crate::error::Error;
use crate::stanza::{Entry, entry_views, views_of, spec_split_char, split_char};

verus! {

/// The view of one stanza field: key and value.
pub type EntryView = (Seq<char>, Seq<char>);

/// Token lists such as architectures and components are space-separated.
pub open spec fn spec_split_spaces(s: Seq<char>) -> Seq<Seq<char>> {
    spec_split_char(s, ' ')
}

pub open spec fn opt_view(o: Option<String>) -> Option<Seq<char>> {
    match o {
        Option::Some(s) => Option::Some(s@),
        Option::None => Option::None,
    }
}

pub open spec fn opt_views(o: Option<Vec<String>>) -> Option<Seq<Seq<char>>> {
    match o {
        Option::Some(v) => Option::Some(views_of(v@)),
        Option::None => Option::None,
    }
}

/// Whether two strings hold the same characters.
pub(crate) fn str_eq(a: &str, b: &str) -> (r: bool)
    ensures
        r == (a@ == b@),
{
    let na = a.unicode_len();
    let nb = b.unicode_len();
    if na != nb {
        proof {
            if a@ == b@ {
                assert(a@.len() == b@.len());
            }
        }
        return false;
    }
    let mut i: usize = 0;
    while i < na
        invariant
            i <= na,
            na == a@.len(),
            na == b@.len(),
            forall|t: int| 0 <= t < i ==> a@[t] == b@[t],
        decreases na - i,
    {
        if a.get_char(i) != b.get_char(i) {
            proof {
                if a@ == b@ {
                    assert(a@[i as int] == b@[i as int]);
                }
            }
            return false;
        }
        i = i + 1;
    }
    proof {
        assert(a@ =~= b@);
    }
    true
}

/// Record a space-separated token list field; a field may be set only once.
pub fn parse_array(entry: &Entry, value: &mut Option<Vec<String>>) -> (r: Result<(), Error>)
    ensures
        r is Ok <==> *old(value) is None,
        *old(value) is Some ==> *final(value) == *old(value) && r.unwrap_err() is Parse,
        *old(value) is None ==> opt_views(*final(value)) == Option::Some(
            spec_split_spaces(entry.value@),
        ),
{
    if value.is_some() {
        let mut m = String::from_str("entry ");
        m.append(entry.key.as_str());
        m.append(" already set");
        Err(Error::Parse(m))
    } else {
        *value = Some(split_char(entry.value.as_str(), ' '));
        Ok(())
    }
}

/// Record a plain string field; a field may be set only once.
pub fn parse_string(entry: &Entry, value: &mut Option<String>) -> (r: Result<(), Error>)
    ensures
        r is Ok <==> *old(value) is None,
        *old(value) is Some ==> *final(value) == *old(value) && r.unwrap_err() is Parse,
        *old(value) is None ==> opt_view(*final(value)) == Option::Some(entry.value@),
{
    if value.is_some() {
        let mut m = String::from_str("entry ");
        m.append(entry.key.as_str());
        m.append(" already set");
        Err(Error::Parse(m))
    } else {
        *value = Some(entry.value.clone());
        Ok(())
    }
}

/// A repository's release manifest.
#[derive(Clone, Debug, Default, Eq, PartialEq)]
pub struct Release {
    pub archs: Option<Vec<String>>,
    pub codename: Option<String>,
    pub components: Option<Vec<String>>,
}

pub ghost struct ReleaseView {
    pub archs: Option<Seq<Seq<char>>>,
    pub codename: Option<Seq<char>>,
    pub components: Option<Seq<Seq<char>>>,
}

impl View for Release {
    type V = ReleaseView;

    open spec fn view(&self) -> ReleaseView {
        ReleaseView {
            archs: opt_views(self.archs),
            codename: opt_view(self.codename),
            components: opt_views(self.components),
        }
    }
}

pub open spec fn spec_is_release_key(k: Seq<char>) -> bool {
    k == "Architectures"@ || k == "Codename"@ || k == "Components"@
}

/// One mapping step: a recognized key must find its field unset, an
/// unrecognized key leaves the record untouched.
pub open spec fn spec_release_step(acc: ReleaseView, e: EntryView) -> Option<ReleaseView> {
    if e.0 == "Architectures"@ {
        if acc.archs is Some {
            Option::None
        } else {
            Option::Some(
                ReleaseView {
                    archs: Option::Some(spec_split_spaces(e.1)),
                    codename: acc.codename,
                    components: acc.components,
                },
            )
        }
    } else if e.0 == "Codename"@ {
        if acc.codename is Some {
            Option::None
        } else {
            Option::Some(
                ReleaseView {
                    archs: acc.archs,
                    codename: Option::Some(e.1),
                    components: acc.components,
                },
            )
        }
    } else if e.0 == "Components"@ {
        if acc.components is Some {
            Option::None
        } else {
            Option::Some(
                ReleaseView {
                    archs: acc.archs,
                    codename: acc.codename,
                    components: Option::Some(spec_split_spaces(e.1)),
                },
            )
        }
    } else {
        Option::Some(acc)
    }
}

pub open spec fn spec_release_fold(entries: Seq<EntryView>, acc: ReleaseView) -> Option<
    ReleaseView,
>
    decreases entries.len(),
{
    if entries.len() == 0 {
        Option::Some(acc)
    } else {
        match spec_release_step(acc, entries[0]) {
            Option::Some(a) => spec_release_fold(entries.drop_first(), a),
            Option::None => Option::None,
        }
    }
}

pub open spec fn spec_empty_release() -> ReleaseView {
    ReleaseView { archs: Option::None, codename: Option::None, components: Option::None }
}

/// The release manifest mapped from one stanza's fields, or nothing if a
/// recognized key repeats.
pub open spec fn spec_release_of(entries: Seq<EntryView>) -> Option<ReleaseView> {
    spec_release_fold(entries, spec_empty_release())
}

impl Release {
    /// Map one stanza's fields into a release manifest.
    pub fn from_entries(entries: &Vec<Entry>) -> (r: Result<Release, Error>)
        ensures
            r is Ok <==> spec_release_of(entry_views(entries@)) is Some,
            r is Ok ==> r.unwrap()@ == spec_release_of(entry_views(entries@)).unwrap(),
            r is Err ==> r.unwrap_err() is Parse,
    {
        let ghost ev = entry_views(entries@);
        let mut this = Release { archs: None, codename: None, components: None };
        let n = entries.len();
        let mut i: usize = 0;
        proof {
            assert(ev.skip(0) =~= ev);
        }
        while i < n
            invariant
                i <= n,
                n == entries@.len(),
                ev == entry_views(entries@),
                spec_release_of(ev) == spec_release_fold(ev.skip(i as int), this@),
            decreases n - i,
        {
            let ghost before = this@;
            let ghost i0 = i as int;
            let e = &entries[i];
            proof {
                assert(ev.skip(i0)[0] == ev[i0]);
                assert(ev.skip(i0).drop_first() =~= ev.skip(i0 + 1));
            }
            if str_eq(e.key.as_str(), "Architectures") {
                if let Err(err) = parse_array(e, &mut this.archs) {
                    proof {
                        assert(spec_release_step(before, ev[i0]) is None);
                    }
                    return Err(err);
                }
            } else if str_eq(e.key.as_str(), "Codename") {
                if let Err(err) = parse_string(e, &mut this.codename) {
                    proof {
                        assert(spec_release_step(before, ev[i0]) is None);
                    }
                    return Err(err);
                }
            } else if str_eq(e.key.as_str(), "Components") {
                if let Err(err) = parse_array(e, &mut this.components) {
                    proof {
                        assert(spec_release_step(before, ev[i0]) is None);
                    }
                    return Err(err);
                }
            }
            proof {
                assert(spec_release_step(before, ev[i0]) == Option::Some(this@));
            }
            i = i + 1;
        }
        proof {
            assert(ev.skip(n as int) =~= Seq::<EntryView>::empty());
        }
        Ok(this)
    }
}

/// Whether the partial record already holds a value for a recognized key.
pub open spec fn spec_release_field_set(acc: ReleaseView, k: Seq<char>) -> bool {
    (k == "Architectures"@ && acc.archs is Some) || (k == "Codename"@ && acc.codename is Some)
        || (k == "Components"@ && acc.components is Some)
}

/// Some recognized key occurs twice among the entries.
pub open spec fn spec_dup_release_key(entries: Seq<EntryView>) -> bool {
    exists|i: int, j: int|
        0 <= i < j < entries.len() && spec_is_release_key(#[trigger] entries[i].0)
            && entries[i].0 == #[trigger] entries[j].0
}

proof fn lemma_release_keys_distinct()
    ensures
        "Architectures"@ != "Codename"@,
        "Architectures"@ != "Components"@,
        "Codename"@ != "Components"@,
{
    reveal_strlit("Architectures");
    reveal_strlit("Codename");
    reveal_strlit("Components");
    assert("Architectures"@.len() == 13);
    assert("Codename"@.len() == 8);
    assert("Components"@.len() == 10);
}

proof fn lemma_release_fold_none_iff(entries: Seq<EntryView>, acc: ReleaseView)
    ensures
        spec_release_fold(entries, acc) is None <==> exists|j: int|
            0 <= j < entries.len() && spec_is_release_key(#[trigger] entries[j].0) && (
            spec_release_field_set(acc, entries[j].0) || exists|i: int|
                0 <= i < j && entries[i].0 == entries[j].0),
    decreases entries.len(),
{
    lemma_release_keys_distinct();
    if entries.len() == 0 {
    } else {
        let e0 = entries[0].0;
        let tail = entries.drop_first();
        if spec_is_release_key(e0) && spec_release_field_set(acc, e0) {
            assert(spec_release_step(acc, entries[0]) is None);
            assert(spec_is_release_key(entries[0].0) && spec_release_field_set(
                acc,
                entries[0].0,
            ));
        } else {
            let stepped = spec_release_step(acc, entries[0]);
            assert(stepped is Some);
            let acc2 = stepped.unwrap();
            assert(forall|k: Seq<char>|
                spec_release_field_set(acc2, k) <==> spec_release_field_set(acc, k) || (
                spec_is_release_key(e0) && k == e0));
            lemma_release_fold_none_iff(tail, acc2);
            assert(spec_release_fold(entries, acc) is None <==> spec_release_fold(tail, acc2)
                is None);
            if spec_release_fold(tail, acc2) is None {
                let j2 = choose|j2: int|
                    0 <= j2 < tail.len() && spec_is_release_key(#[trigger] tail[j2].0) && (
                    spec_release_field_set(acc2, tail[j2].0) || exists|i2: int|
                        0 <= i2 < j2 && tail[i2].0 == tail[j2].0);
                let j = j2 + 1;
                assert(entries[j].0 == tail[j2].0);
                if spec_release_field_set(acc2, tail[j2].0) {
                    if spec_release_field_set(acc, tail[j2].0) {
                        assert(spec_is_release_key(entries[j].0) && spec_release_field_set(
                            acc,
                            entries[j].0,
                        ));
                    } else {
                        assert(tail[j2].0 == e0);
                        assert(entries[0].0 == entries[j].0);
                        assert(exists|i: int| 0 <= i < j && entries[i].0 == entries[j].0);
                    }
                } else {
                    let i2 = choose|i2: int| 0 <= i2 < j2 && tail[i2].0 == tail[j2].0;
                    assert(entries[i2 + 1].0 == tail[i2].0);
                    assert(exists|i: int| 0 <= i < j && entries[i].0 == entries[j].0);
                }
            }
            if exists|j: int|
                0 <= j < entries.len() && spec_is_release_key(#[trigger] entries[j].0) && (
                spec_release_field_set(acc, entries[j].0) || exists|i: int|
                    0 <= i < j && entries[i].0 == entries[j].0) {
                let j = choose|j: int|
                    0 <= j < entries.len() && spec_is_release_key(#[trigger] entries[j].0) && (
                    spec_release_field_set(acc, entries[j].0) || exists|i: int|
                        0 <= i < j && entries[i].0 == entries[j].0);
                assert(j >= 1);
                let j2 = j - 1;
                assert(tail[j2].0 == entries[j].0);
                if spec_release_field_set(acc, entries[j].0) {
                    assert(spec_release_field_set(acc2, tail[j2].0));
                } else {
                    let i = choose|i: int| 0 <= i < j && entries[i].0 == entries[j].0;
                    if i == 0 {
                        assert(tail[j2].0 == e0);
                        assert(spec_is_release_key(e0));
                        assert(spec_release_field_set(acc2, tail[j2].0));
                    } else {
                        assert(tail[i - 1].0 == entries[i].0);
                        assert(exists|i2: int| 0 <= i2 < j2 && tail[i2].0 == tail[j2].0);
                    }
                }
                assert(spec_release_fold(tail, acc2) is None);
            }
        }
    }
}

/// A stanza maps to a release manifest exactly when no recognized key
/// occurs twice: the fold fails precisely on a repeated recognized key.
pub proof fn lemma_release_of_none_iff_dup(entries: Seq<EntryView>)
    ensures
        spec_release_of(entries) is None <==> spec_dup_release_key(entries),
{
    lemma_release_fold_none_iff(entries, spec_empty_release());
    if spec_release_of(entries) is None {
        let j = choose|j: int|
            0 <= j < entries.len() && spec_is_release_key(#[trigger] entries[j].0) && (
            spec_release_field_set(spec_empty_release(), entries[j].0) || exists|i: int|
                0 <= i < j && entries[i].0 == entries[j].0);
        assert(!spec_release_field_set(spec_empty_release(), entries[j].0));
        let i = choose|i: int| 0 <= i < j && entries[i].0 == entries[j].0;
        assert(spec_is_release_key(entries[i].0));
        assert(spec_dup_release_key(entries));
    }
    if spec_dup_release_key(entries) {
        let (i, j) = choose|i: int, j: int|
            0 <= i < j < entries.len() && spec_is_release_key(#[trigger] entries[i].0)
                && entries[i].0 == #[trigger] entries[j].0;
        assert(spec_is_release_key(entries[j].0));
        assert(exists|i2: int| 0 <= i2 < j && entries[i2].0 == entries[j].0);
        assert(exists|j2: int|
            0 <= j2 < entries.len() && spec_is_release_key(#[trigger] entries[j2].0) && (
            spec_release_field_set(spec_empty_release(), entries[j2].0) || exists|i2: int|
                0 <= i2 < j2 && entries[i2].0 == entries[j2].0));
    }
}

/// The entries whose keys the release mapper recognizes, in order.
pub open spec fn spec_release_relevant(entries: Seq<EntryView>) -> Seq<EntryView>
    decreases entries.len(),
{
    if entries.len() == 0 {
        Seq::empty()
    } else if spec_is_release_key(entries[0].0) {
        seq![entries[0]] + spec_release_relevant(entries.drop_first())
    } else {
        spec_release_relevant(entries.drop_first())
    }
}

proof fn lemma_release_fold_ignores_unrecognized(
    e1: Seq<EntryView>,
    e2: Seq<EntryView>,
    acc: ReleaseView,
)
    requires
        spec_release_relevant(e1) == spec_release_relevant(e2),
    ensures
        spec_release_fold(e1, acc) == spec_release_fold(e2, acc),
    decreases e1.len() + e2.len(),
{
    if e1.len() > 0 && !spec_is_release_key(e1[0].0) {
        lemma_release_fold_ignores_unrecognized(e1.drop_first(), e2, acc);
    } else if e2.len() > 0 && !spec_is_release_key(e2[0].0) {
        lemma_release_fold_ignores_unrecognized(e1, e2.drop_first(), acc);
    } else if e1.len() == 0 && e2.len() == 0 {
    } else if e1.len() == 0 {
        assert(spec_release_relevant(e2).len() > 0);
    } else if e2.len() == 0 {
        assert(spec_release_relevant(e1).len() > 0);
    } else {
        assert(spec_release_relevant(e1)[0] == e1[0]);
        assert(spec_release_relevant(e2)[0] == e2[0]);
        assert(e1[0] == e2[0]);
        assert(spec_release_relevant(e1).drop_first() =~= spec_release_relevant(
            e1.drop_first(),
        ));
        assert(spec_release_relevant(e2).drop_first() =~= spec_release_relevant(
            e2.drop_first(),
        ));
        match spec_release_step(acc, e1[0]) {
            Option::Some(a) => {
                lemma_release_fold_ignores_unrecognized(e1.drop_first(), e2.drop_first(), a);
            },
            Option::None => {},
        }
    }
}

/// Entries that differ only in unrecognized keys map to the same release
/// manifest: unrecognized keys never affect the mapped record.
pub proof fn lemma_release_ignores_unrecognized(e1: Seq<EntryView>, e2: Seq<EntryView>)
    requires
        spec_release_relevant(e1) == spec_release_relevant(e2),
    ensures
        spec_release_of(e1) == spec_release_of(e2),
{
    lemma_release_fold_ignores_unrecognized(e1, e2, spec_empty_release());
}

/// A binary package record.  Decoded for completeness; the default
/// reconciliation reads source listings only.
#[derive(Clone, Debug, Default, Eq, PartialEq)]
pub struct Package {
    pub package: Option<String>,
    pub archs: Option<Vec<String>>,
    pub version: Option<String>,
    pub source: Option<String>,
}

pub ghost struct PackageView {
    pub package: Option<Seq<char>>,
    pub archs: Option<Seq<Seq<char>>>,
    pub version: Option<Seq<char>>,
    pub source: Option<Seq<char>>,
}

impl View for Package {
    type V = PackageView;

    open spec fn view(&self) -> PackageView {
        PackageView {
            package: opt_view(self.package),
            archs: opt_views(self.archs),
            version: opt_view(self.version),
            source: opt_view(self.source),
        }
    }
}

pub open spec fn spec_is_package_key(k: Seq<char>) -> bool {
    k == "Package"@ || k == "Architectures"@ || k == "Version"@ || k == "Source"@
}

pub open spec fn spec_package_step(acc: PackageView, e: EntryView) -> Option<PackageView> {
    if e.0 == "Package"@ {
        if acc.package is Some {
            Option::None
        } else {
            Option::Some(PackageView { package: Option::Some(e.1), ..acc })
        }
    } else if e.0 == "Architectures"@ {
        if acc.archs is Some {
            Option::None
        } else {
            Option::Some(PackageView { archs: Option::Some(spec_split_spaces(e.1)), ..acc })
        }
    } else if e.0 == "Version"@ {
        if acc.version is Some {
            Option::None
        } else {
            Option::Some(PackageView { version: Option::Some(e.1), ..acc })
        }
    } else if e.0 == "Source"@ {
        if acc.source is Some {
            Option::None
        } else {
            Option::Some(PackageView { source: Option::Some(e.1), ..acc })
        }
    } else {
        Option::Some(acc)
    }
}

pub open spec fn spec_package_fold(entries: Seq<EntryView>, acc: PackageView) -> Option<
    PackageView,
>
    decreases entries.len(),
{
    if entries.len() == 0 {
        Option::Some(acc)
    } else {
        match spec_package_step(acc, entries[0]) {
            Option::Some(a) => spec_package_fold(entries.drop_first(), a),
            Option::None => Option::None,
        }
    }
}

pub open spec fn spec_empty_package() -> PackageView {
    PackageView {
        package: Option::None,
        archs: Option::None,
        version: Option::None,
        source: Option::None,
    }
}

pub open spec fn spec_package_of(entries: Seq<EntryView>) -> Option<PackageView> {
    spec_package_fold(entries, spec_empty_package())
}

impl Package {
    /// Map one stanza's fields into a binary package record.
    pub fn from_entries(entries: &Vec<Entry>) -> (r: Result<Package, Error>)
        ensures
            r is Ok <==> spec_package_of(entry_views(entries@)) is Some,
            r is Ok ==> r.unwrap()@ == spec_package_of(entry_views(entries@)).unwrap(),
            r is Err ==> r.unwrap_err() is Parse,
    {
        let ghost ev = entry_views(entries@);
        let mut this = Package { package: None, archs: None, version: None, source: None };
        let n = entries.len();
        let mut i: usize = 0;
        proof {
            assert(ev.skip(0) =~= ev);
        }
        while i < n
            invariant
                i <= n,
                n == entries@.len(),
                ev == entry_views(entries@),
                spec_package_of(ev) == spec_package_fold(ev.skip(i as int), this@),
            decreases n - i,
        {
            let ghost before = this@;
            let ghost i0 = i as int;
            let e = &entries[i];
            proof {
                assert(ev.skip(i0)[0] == ev[i0]);
                assert(ev.skip(i0).drop_first() =~= ev.skip(i0 + 1));
            }
            if str_eq(e.key.as_str(), "Package") {
                if let Err(err) = parse_string(e, &mut this.package) {
                    proof {
                        assert(spec_package_step(before, ev[i0]) is None);
                    }
                    return Err(err);
                }
            } else if str_eq(e.key.as_str(), "Architectures") {
                if let Err(err) = parse_array(e, &mut this.archs) {
                    proof {
                        assert(spec_package_step(before, ev[i0]) is None);
                    }
                    return Err(err);
                }
            } else if str_eq(e.key.as_str(), "Version") {
                if let Err(err) = parse_string(e, &mut this.version) {
                    proof {
                        assert(spec_package_step(before, ev[i0]) is None);
                    }
                    return Err(err);
                }
            } else if str_eq(e.key.as_str(), "Source") {
                if let Err(err) = parse_string(e, &mut this.source) {
                    proof {
                        assert(spec_package_step(before, ev[i0]) is None);
                    }
                    return Err(err);
                }
            }
            proof {
                assert(spec_package_step(before, ev[i0]) == Option::Some(this@));
            }
            i = i + 1;
        }
        proof {
            assert(ev.skip(n as int) =~= Seq::<EntryView>::empty());
        }
        Ok(this)
    }
}

/// Whether the partial record already holds a value for a recognized key.
pub open spec fn spec_package_field_set(acc: PackageView, k: Seq<char>) -> bool {
    (k == "Package"@ && acc.package is Some) || (k == "Architectures"@ && acc.archs is Some)
        || (k == "Version"@ && acc.version is Some) || (k == "Source"@ && acc.source is Some)
}

/// Some recognized key occurs twice among the entries.
pub open spec fn spec_dup_package_key(entries: Seq<EntryView>) -> bool {
    exists|i: int, j: int|
        0 <= i < j < entries.len() && spec_is_package_key(#[trigger] entries[i].0)
            && entries[i].0 == #[trigger] entries[j].0
}

proof fn lemma_package_keys_distinct()
    ensures
        "Package"@ != "Architectures"@,
        "Package"@ != "Version"@,
        "Package"@ != "Source"@,
        "Architectures"@ != "Version"@,
        "Architectures"@ != "Source"@,
        "Version"@ != "Source"@,
{
    reveal_strlit("Package");
    reveal_strlit("Architectures");
    reveal_strlit("Version");
    reveal_strlit("Source");
    assert("Package"@[0] == 'P');
    assert("Version"@[0] == 'V');
    assert("Package"@.len() == 7);
    assert("Architectures"@.len() == 13);
    assert("Version"@.len() == 7);
    assert("Source"@.len() == 6);
}

proof fn lemma_package_fold_none_iff(entries: Seq<EntryView>, acc: PackageView)
    ensures
        spec_package_fold(entries, acc) is None <==> exists|j: int|
            0 <= j < entries.len() && spec_is_package_key(#[trigger] entries[j].0) && (
            spec_package_field_set(acc, entries[j].0) || exists|i: int|
                0 <= i < j && entries[i].0 == entries[j].0),
    decreases entries.len(),
{
    lemma_package_keys_distinct();
    if entries.len() == 0 {
    } else {
        let e0 = entries[0].0;
        let tail = entries.drop_first();
        if spec_is_package_key(e0) && spec_package_field_set(acc, e0) {
            assert(spec_package_step(acc, entries[0]) is None);
            assert(spec_is_package_key(entries[0].0) && spec_package_field_set(
                acc,
                entries[0].0,
            ));
        } else {
            let stepped = spec_package_step(acc, entries[0]);
            assert(stepped is Some);
            let acc2 = stepped.unwrap();
            assert(forall|k: Seq<char>|
                spec_package_field_set(acc2, k) <==> spec_package_field_set(acc, k) || (
                spec_is_package_key(e0) && k == e0));
            lemma_package_fold_none_iff(tail, acc2);
            assert(spec_package_fold(entries, acc) is None <==> spec_package_fold(tail, acc2)
                is None);
            if spec_package_fold(tail, acc2) is None {
                let j2 = choose|j2: int|
                    0 <= j2 < tail.len() && spec_is_package_key(#[trigger] tail[j2].0) && (
                    spec_package_field_set(acc2, tail[j2].0) || exists|i2: int|
                        0 <= i2 < j2 && tail[i2].0 == tail[j2].0);
                let j = j2 + 1;
                assert(entries[j].0 == tail[j2].0);
                if spec_package_field_set(acc2, tail[j2].0) {
                    if spec_package_field_set(acc, tail[j2].0) {
                        assert(spec_is_package_key(entries[j].0) && spec_package_field_set(
                            acc,
                            entries[j].0,
                        ));
                    } else {
                        assert(tail[j2].0 == e0);
                        assert(entries[0].0 == entries[j].0);
                        assert(exists|i: int| 0 <= i < j && entries[i].0 == entries[j].0);
                    }
                } else {
                    let i2 = choose|i2: int| 0 <= i2 < j2 && tail[i2].0 == tail[j2].0;
                    assert(entries[i2 + 1].0 == tail[i2].0);
                    assert(exists|i: int| 0 <= i < j && entries[i].0 == entries[j].0);
                }
            }
            if exists|j: int|
                0 <= j < entries.len() && spec_is_package_key(#[trigger] entries[j].0) && (
                spec_package_field_set(acc, entries[j].0) || exists|i: int|
                    0 <= i < j && entries[i].0 == entries[j].0) {
                let j = choose|j: int|
                    0 <= j < entries.len() && spec_is_package_key(#[trigger] entries[j].0) && (
                    spec_package_field_set(acc, entries[j].0) || exists|i: int|
                        0 <= i < j && entries[i].0 == entries[j].0);
                assert(j >= 1);
                let j2 = j - 1;
                assert(tail[j2].0 == entries[j].0);
                if spec_package_field_set(acc, entries[j].0) {
                    assert(spec_package_field_set(acc2, tail[j2].0));
                } else {
                    let i = choose|i: int| 0 <= i < j && entries[i].0 == entries[j].0;
                    if i == 0 {
                        assert(tail[j2].0 == e0);
                        assert(spec_is_package_key(e0));
                        assert(spec_package_field_set(acc2, tail[j2].0));
                    } else {
                        assert(tail[i - 1].0 == entries[i].0);
                        assert(exists|i2: int| 0 <= i2 < j2 && tail[i2].0 == tail[j2].0);
                    }
                }
                assert(spec_package_fold(tail, acc2) is None);
            }
        }
    }
}

/// A stanza maps to a binary package record exactly when no recognized key occurs
/// twice: the fold fails precisely on a repeated recognized key.
pub proof fn lemma_package_of_none_iff_dup(entries: Seq<EntryView>)
    ensures
        spec_package_of(entries) is None <==> spec_dup_package_key(entries),
{
    lemma_package_fold_none_iff(entries, spec_empty_package());
    if spec_package_of(entries) is None {
        let j = choose|j: int|
            0 <= j < entries.len() && spec_is_package_key(#[trigger] entries[j].0) && (
            spec_package_field_set(spec_empty_package(), entries[j].0) || exists|i: int|
                0 <= i < j && entries[i].0 == entries[j].0);
        assert(!spec_package_field_set(spec_empty_package(), entries[j].0));
        let i = choose|i: int| 0 <= i < j && entries[i].0 == entries[j].0;
        assert(spec_is_package_key(entries[i].0));
        assert(spec_dup_package_key(entries));
    }
    if spec_dup_package_key(entries) {
        let (i, j) = choose|i: int, j: int|
            0 <= i < j < entries.len() && spec_is_package_key(#[trigger] entries[i].0)
                && entries[i].0 == #[trigger] entries[j].0;
        assert(spec_is_package_key(entries[j].0));
        assert(exists|i2: int| 0 <= i2 < j && entries[i2].0 == entries[j].0);
        assert(exists|j2: int|
            0 <= j2 < entries.len() && spec_is_package_key(#[trigger] entries[j2].0) && (
            spec_package_field_set(spec_empty_package(), entries[j2].0) || exists|i2: int|
                0 <= i2 < j2 && entries[i2].0 == entries[j2].0));
    }
}

/// The entries whose keys the binary package mapper recognizes, in order.
pub open spec fn spec_package_relevant(entries: Seq<EntryView>) -> Seq<EntryView>
    decreases entries.len(),
{
    if entries.len() == 0 {
        Seq::empty()
    } else if spec_is_package_key(entries[0].0) {
        seq![entries[0]] + spec_package_relevant(entries.drop_first())
    } else {
        spec_package_relevant(entries.drop_first())
    }
}

proof fn lemma_package_fold_ignores_unrecognized(
    e1: Seq<EntryView>,
    e2: Seq<EntryView>,
    acc: PackageView,
)
    requires
        spec_package_relevant(e1) == spec_package_relevant(e2),
    ensures
        spec_package_fold(e1, acc) == spec_package_fold(e2, acc),
    decreases e1.len() + e2.len(),
{
    if e1.len() > 0 && !spec_is_package_key(e1[0].0) {
        lemma_package_fold_ignores_unrecognized(e1.drop_first(), e2, acc);
    } else if e2.len() > 0 && !spec_is_package_key(e2[0].0) {
        lemma_package_fold_ignores_unrecognized(e1, e2.drop_first(), acc);
    } else if e1.len() == 0 && e2.len() == 0 {
    } else if e1.len() == 0 {
        assert(spec_package_relevant(e2).len() > 0);
    } else if e2.len() == 0 {
        assert(spec_package_relevant(e1).len() > 0);
    } else {
        assert(spec_package_relevant(e1)[0] == e1[0]);
        assert(spec_package_relevant(e2)[0] == e2[0]);
        assert(e1[0] == e2[0]);
        assert(spec_package_relevant(e1).drop_first() =~= spec_package_relevant(
            e1.drop_first(),
        ));
        assert(spec_package_relevant(e2).drop_first() =~= spec_package_relevant(
            e2.drop_first(),
        ));
        match spec_package_step(acc, e1[0]) {
            Option::Some(a) => {
                lemma_package_fold_ignores_unrecognized(e1.drop_first(), e2.drop_first(), a);
            },
            Option::None => {},
        }
    }
}

/// Entries that differ only in unrecognized keys map to the same binary
/// package record: unrecognized keys never affect the mapped record.
pub proof fn lemma_package_ignores_unrecognized(e1: Seq<EntryView>, e2: Seq<EntryView>)
    requires
        spec_package_relevant(e1) == spec_package_relevant(e2),
    ensures
        spec_package_of(e1) == spec_package_of(e2),
{
    lemma_package_fold_ignores_unrecognized(e1, e2, spec_empty_package());
}

/// A source package record.
#[derive(Clone, Debug, Default, Eq, PartialEq)]
pub struct Source {
    pub package: Option<String>,
    pub archs: Option<Vec<String>>,
    pub version: Option<String>,
    pub directory: Option<String>,
}

pub ghost struct SourceView {
    pub package: Option<Seq<char>>,
    pub archs: Option<Seq<Seq<char>>>,
    pub version: Option<Seq<char>>,
    pub directory: Option<Seq<char>>,
}

impl View for Source {
    type V = SourceView;

    open spec fn view(&self) -> SourceView {
        SourceView {
            package: opt_view(self.package),
            archs: opt_views(self.archs),
            version: opt_view(self.version),
            directory: opt_view(self.directory),
        }
    }
}

pub open spec fn spec_is_source_key(k: Seq<char>) -> bool {
    k == "Package"@ || k == "Architectures"@ || k == "Version"@ || k == "Directory"@
}

pub open spec fn spec_source_step(acc: SourceView, e: EntryView) -> Option<SourceView> {
    if e.0 == "Package"@ {
        if acc.package is Some {
            Option::None
        } else {
            Option::Some(SourceView { package: Option::Some(e.1), ..acc })
        }
    } else if e.0 == "Architectures"@ {
        if acc.archs is Some {
            Option::None
        } else {
            Option::Some(SourceView { archs: Option::Some(spec_split_spaces(e.1)), ..acc })
        }
    } else if e.0 == "Version"@ {
        if acc.version is Some {
            Option::None
        } else {
            Option::Some(SourceView { version: Option::Some(e.1), ..acc })
        }
    } else if e.0 == "Directory"@ {
        if acc.directory is Some {
            Option::None
        } else {
            Option::Some(SourceView { directory: Option::Some(e.1), ..acc })
        }
    } else {
        Option::Some(acc)
    }
}

pub open spec fn spec_source_fold(entries: Seq<EntryView>, acc: SourceView) -> Option<SourceView>
    decreases entries.len(),
{
    if entries.len() == 0 {
        Option::Some(acc)
    } else {
        match spec_source_step(acc, entries[0]) {
            Option::Some(a) => spec_source_fold(entries.drop_first(), a),
            Option::None => Option::None,
        }
    }
}

pub open spec fn spec_empty_source() -> SourceView {
    SourceView {
        package: Option::None,
        archs: Option::None,
        version: Option::None,
        directory: Option::None,
    }
}

pub open spec fn spec_source_of(entries: Seq<EntryView>) -> Option<SourceView> {
    spec_source_fold(entries, spec_empty_source())
}

impl Source {
    /// Map one stanza's fields into a source package record.
    pub fn from_entries(entries: &Vec<Entry>) -> (r: Result<Source, Error>)
        ensures
            r is Ok <==> spec_source_of(entry_views(entries@)) is Some,
            r is Ok ==> r.unwrap()@ == spec_source_of(entry_views(entries@)).unwrap(),
            r is Err ==> r.unwrap_err() is Parse,
    {
        let ghost ev = entry_views(entries@);
        let mut this = Source { package: None, archs: None, version: None, directory: None };
        let n = entries.len();
        let mut i: usize = 0;
        proof {
            assert(ev.skip(0) =~= ev);
        }
        while i < n
            invariant
                i <= n,
                n == entries@.len(),
                ev == entry_views(entries@),
                spec_source_of(ev) == spec_source_fold(ev.skip(i as int), this@),
            decreases n - i,
        {
            let ghost before = this@;
            let ghost i0 = i as int;
            let e = &entries[i];
            proof {
                assert(ev.skip(i0)[0] == ev[i0]);
                assert(ev.skip(i0).drop_first() =~= ev.skip(i0 + 1));
            }
            if str_eq(e.key.as_str(), "Package") {
                if let Err(err) = parse_string(e, &mut this.package) {
                    proof {
                        assert(spec_source_step(before, ev[i0]) is None);
                    }
                    return Err(err);
                }
            } else if str_eq(e.key.as_str(), "Architectures") {
                if let Err(err) = parse_array(e, &mut this.archs) {
                    proof {
                        assert(spec_source_step(before, ev[i0]) is None);
                    }
                    return Err(err);
                }
            } else if str_eq(e.key.as_str(), "Version") {
                if let Err(err) = parse_string(e, &mut this.version) {
                    proof {
                        assert(spec_source_step(before, ev[i0]) is None);
                    }
                    return Err(err);
                }
            } else if str_eq(e.key.as_str(), "Directory") {
                if let Err(err) = parse_string(e, &mut this.directory) {
                    proof {
                        assert(spec_source_step(before, ev[i0]) is None);
                    }
                    return Err(err);
                }
            }
            proof {
                assert(spec_source_step(before, ev[i0]) == Option::Some(this@));
            }
            i = i + 1;
        }
        proof {
            assert(ev.skip(n as int) =~= Seq::<EntryView>::empty());
        }
        Ok(this)
    }
}

/// Whether the partial record already holds a value for a recognized key.
pub open spec fn spec_source_field_set(acc: SourceView, k: Seq<char>) -> bool {
    (k == "Package"@ && acc.package is Some) || (k == "Architectures"@ && acc.archs is Some)
        || (k == "Version"@ && acc.version is Some) || (k == "Directory"@ && acc.directory
        is Some)
}

/// Some recognized key occurs twice among the entries.
pub open spec fn spec_dup_source_key(entries: Seq<EntryView>) -> bool {
    exists|i: int, j: int|
        0 <= i < j < entries.len() && spec_is_source_key(#[trigger] entries[i].0)
            && entries[i].0 == #[trigger] entries[j].0
}

proof fn lemma_source_keys_distinct()
    ensures
        "Package"@ != "Architectures"@,
        "Package"@ != "Version"@,
        "Package"@ != "Directory"@,
        "Architectures"@ != "Version"@,
        "Architectures"@ != "Directory"@,
        "Version"@ != "Directory"@,
{
    reveal_strlit("Package");
    reveal_strlit("Architectures");
    reveal_strlit("Version");
    reveal_strlit("Directory");
    assert("Package"@[0] == 'P');
    assert("Version"@[0] == 'V');
    assert("Package"@.len() == 7);
    assert("Architectures"@.len() == 13);
    assert("Version"@.len() == 7);
    assert("Directory"@.len() == 9);
}

proof fn lemma_source_fold_none_iff(entries: Seq<EntryView>, acc: SourceView)
    ensures
        spec_source_fold(entries, acc) is None <==> exists|j: int|
            0 <= j < entries.len() && spec_is_source_key(#[trigger] entries[j].0) && (
            spec_source_field_set(acc, entries[j].0) || exists|i: int|
                0 <= i < j && entries[i].0 == entries[j].0),
    decreases entries.len(),
{
    lemma_source_keys_distinct();
    if entries.len() == 0 {
    } else {
        let e0 = entries[0].0;
        let tail = entries.drop_first();
        if spec_is_source_key(e0) && spec_source_field_set(acc, e0) {
            assert(spec_source_step(acc, entries[0]) is None);
            assert(spec_is_source_key(entries[0].0) && spec_source_field_set(
                acc,
                entries[0].0,
            ));
        } else {
            let stepped = spec_source_step(acc, entries[0]);
            assert(stepped is Some);
            let acc2 = stepped.unwrap();
            assert(forall|k: Seq<char>|
                spec_source_field_set(acc2, k) <==> spec_source_field_set(acc, k) || (
                spec_is_source_key(e0) && k == e0));
            lemma_source_fold_none_iff(tail, acc2);
            assert(spec_source_fold(entries, acc) is None <==> spec_source_fold(tail, acc2)
                is None);
            if spec_source_fold(tail, acc2) is None {
                let j2 = choose|j2: int|
                    0 <= j2 < tail.len() && spec_is_source_key(#[trigger] tail[j2].0) && (
                    spec_source_field_set(acc2, tail[j2].0) || exists|i2: int|
                        0 <= i2 < j2 && tail[i2].0 == tail[j2].0);
                let j = j2 + 1;
                assert(entries[j].0 == tail[j2].0);
                if spec_source_field_set(acc2, tail[j2].0) {
                    if spec_source_field_set(acc, tail[j2].0) {
                        assert(spec_is_source_key(entries[j].0) && spec_source_field_set(
                            acc,
                            entries[j].0,
                        ));
                    } else {
                        assert(tail[j2].0 == e0);
                        assert(entries[0].0 == entries[j].0);
                        assert(exists|i: int| 0 <= i < j && entries[i].0 == entries[j].0);
                    }
                } else {
                    let i2 = choose|i2: int| 0 <= i2 < j2 && tail[i2].0 == tail[j2].0;
                    assert(entries[i2 + 1].0 == tail[i2].0);
                    assert(exists|i: int| 0 <= i < j && entries[i].0 == entries[j].0);
                }
            }
            if exists|j: int|
                0 <= j < entries.len() && spec_is_source_key(#[trigger] entries[j].0) && (
                spec_source_field_set(acc, entries[j].0) || exists|i: int|
                    0 <= i < j && entries[i].0 == entries[j].0) {
                let j = choose|j: int|
                    0 <= j < entries.len() && spec_is_source_key(#[trigger] entries[j].0) && (
                    spec_source_field_set(acc, entries[j].0) || exists|i: int|
                        0 <= i < j && entries[i].0 == entries[j].0);
                assert(j >= 1);
                let j2 = j - 1;
                assert(tail[j2].0 == entries[j].0);
                if spec_source_field_set(acc, entries[j].0) {
                    assert(spec_source_field_set(acc2, tail[j2].0));
                } else {
                    let i = choose|i: int| 0 <= i < j && entries[i].0 == entries[j].0;
                    if i == 0 {
                        assert(tail[j2].0 == e0);
                        assert(spec_is_source_key(e0));
                        assert(spec_source_field_set(acc2, tail[j2].0));
                    } else {
                        assert(tail[i - 1].0 == entries[i].0);
                        assert(exists|i2: int| 0 <= i2 < j2 && tail[i2].0 == tail[j2].0);
                    }
                }
                assert(spec_source_fold(tail, acc2) is None);
            }
        }
    }
}

/// A stanza maps to a source package record exactly when no recognized key occurs
/// twice: the fold fails precisely on a repeated recognized key.
pub proof fn lemma_source_of_none_iff_dup(entries: Seq<EntryView>)
    ensures
        spec_source_of(entries) is None <==> spec_dup_source_key(entries),
{
    lemma_source_fold_none_iff(entries, spec_empty_source());
    if spec_source_of(entries) is None {
        let j = choose|j: int|
            0 <= j < entries.len() && spec_is_source_key(#[trigger] entries[j].0) && (
            spec_source_field_set(spec_empty_source(), entries[j].0) || exists|i: int|
                0 <= i < j && entries[i].0 == entries[j].0);
        assert(!spec_source_field_set(spec_empty_source(), entries[j].0));
        let i = choose|i: int| 0 <= i < j && entries[i].0 == entries[j].0;
        assert(spec_is_source_key(entries[i].0));
        assert(spec_dup_source_key(entries));
    }
    if spec_dup_source_key(entries) {
        let (i, j) = choose|i: int, j: int|
            0 <= i < j < entries.len() && spec_is_source_key(#[trigger] entries[i].0)
                && entries[i].0 == #[trigger] entries[j].0;
        assert(spec_is_source_key(entries[j].0));
        assert(exists|i2: int| 0 <= i2 < j && entries[i2].0 == entries[j].0);
        assert(exists|j2: int|
            0 <= j2 < entries.len() && spec_is_source_key(#[trigger] entries[j2].0) && (
            spec_source_field_set(spec_empty_source(), entries[j2].0) || exists|i2: int|
                0 <= i2 < j2 && entries[i2].0 == entries[j2].0));
    }
}

/// The entries whose keys the source mapper recognizes, in order.
pub open spec fn spec_source_relevant(entries: Seq<EntryView>) -> Seq<EntryView>
    decreases entries.len(),
{
    if entries.len() == 0 {
        Seq::empty()
    } else if spec_is_source_key(entries[0].0) {
        seq![entries[0]] + spec_source_relevant(entries.drop_first())
    } else {
        spec_source_relevant(entries.drop_first())
    }
}

proof fn lemma_source_fold_ignores_unrecognized(
    e1: Seq<EntryView>,
    e2: Seq<EntryView>,
    acc: SourceView,
)
    requires
        spec_source_relevant(e1) == spec_source_relevant(e2),
    ensures
        spec_source_fold(e1, acc) == spec_source_fold(e2, acc),
    decreases e1.len() + e2.len(),
{
    if e1.len() > 0 && !spec_is_source_key(e1[0].0) {
        lemma_source_fold_ignores_unrecognized(e1.drop_first(), e2, acc);
    } else if e2.len() > 0 && !spec_is_source_key(e2[0].0) {
        lemma_source_fold_ignores_unrecognized(e1, e2.drop_first(), acc);
    } else if e1.len() == 0 && e2.len() == 0 {
    } else if e1.len() == 0 {
        assert(spec_source_relevant(e2).len() > 0);
    } else if e2.len() == 0 {
        assert(spec_source_relevant(e1).len() > 0);
    } else {
        assert(spec_source_relevant(e1)[0] == e1[0]);
        assert(spec_source_relevant(e2)[0] == e2[0]);
        assert(e1[0] == e2[0]);
        assert(spec_source_relevant(e1).drop_first() =~= spec_source_relevant(e1.drop_first()));
        assert(spec_source_relevant(e2).drop_first() =~= spec_source_relevant(e2.drop_first()));
        match spec_source_step(acc, e1[0]) {
            Option::Some(a) => {
                lemma_source_fold_ignores_unrecognized(e1.drop_first(), e2.drop_first(), a);
            },
            Option::None => {},
        }
    }
}

/// Entries that differ only in unrecognized keys map to the same source
/// record: unrecognized keys never affect the mapped record.
pub proof fn lemma_source_ignores_unrecognized(e1: Seq<EntryView>, e2: Seq<EntryView>)
    requires
        spec_source_relevant(e1) == spec_source_relevant(e2),
    ensures
        spec_source_of(e1) == spec_source_of(e2),
{
    lemma_source_fold_ignores_unrecognized(e1, e2, spec_empty_source());
}

} // verus!
