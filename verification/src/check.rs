//! The consistency check: every aggregate row is held against the declared
//! partial order of repository kinds.  A populated slot that is older than a
//! kind it must be newer than gains an "Older than" diagnostic; a kind
//! missing where an older, non-upstream kind is present marks the older slot
//! with a "Not in" diagnostic.  Findings are data, never errors: the pass
//! always completes.
use vstd::prelude::*;
use vstd::std_specs::vec::vec_index_mut;
use core::cmp::Ordering;
use crate::aggregate::{
    AptInfo, AptInfoView, AptInfos, AptVersion, AptVersionView, AptEntryView, spec_slot,
};
use crate::config::{RepoKind, spec_all_repo_kinds, spec_must_be_newer_than, spec_repo_kind_str};
use crate::stanza::views_of;
use crate::version::{spec_version_cmp, compare_versions};

verus! {

/// The "Older than" diagnostics one slot gains from the older kinds it is
/// compared against, in their declared order.
pub open spec fn spec_older_msgs(info: AptInfoView, k: RepoKind, olds: Seq<RepoKind>) -> Seq<
    Seq<char>,
>
    decreases olds.len(),
{
    if olds.len() == 0 {
        Seq::empty()
    } else {
        let o = olds[0];
        let head: Seq<Seq<char>> = if spec_slot(info, k) is Some && spec_slot(info, o) is Some
            && spec_version_cmp(
            spec_slot(info, k).unwrap().version,
            spec_slot(info, o).unwrap().version,
        ) == Ordering::Less {
            seq!["Older than "@ + spec_repo_kind_str(o)]
        } else {
            Seq::empty()
        };
        head + spec_older_msgs(info, k, olds.drop_first())
    }
}

/// What the check's pass over one kind contributes to the diagnostics of one
/// slot: a kind contributes its own "Older than" findings to itself, and a
/// missing kind marks each populated, non-upstream slot it should have been
/// newer than with a "Not in" finding.
pub open spec fn spec_contrib(info: AptInfoView, k: RepoKind, s: RepoKind) -> Seq<Seq<char>> {
    if k == s {
        spec_older_msgs(info, s, spec_must_be_newer_than(s))
    } else if spec_must_be_newer_than(k).contains(s) && spec_slot(info, k) is None && spec_slot(
        info,
        s,
    ) is Some && s != RepoKind::Ubuntu {
        seq!["Not in "@ + spec_repo_kind_str(k)]
    } else {
        Seq::empty()
    }
}

pub open spec fn spec_slot_msgs_upto(info: AptInfoView, s: RepoKind, n: int) -> Seq<Seq<char>>
    decreases n,
{
    if n <= 0 {
        Seq::empty()
    } else {
        spec_slot_msgs_upto(info, s, n - 1) + spec_contrib(info, spec_all_repo_kinds()[n - 1], s)
    }
}

/// All diagnostics one slot gains in one check pass, in pass order.
pub open spec fn spec_slot_msgs(info: AptInfoView, s: RepoKind) -> Seq<Seq<char>> {
    spec_slot_msgs_upto(info, s, 6)
}

pub open spec fn spec_append_errors(v: AptVersionView, msgs: Seq<Seq<char>>) -> AptVersionView {
    AptVersionView { errors: v.errors + msgs, ..v }
}

pub open spec fn spec_checked_slot(info: AptInfoView, s: RepoKind) -> Option<AptVersionView> {
    match spec_slot(info, s) {
        Option::Some(v) => Option::Some(spec_append_errors(v, spec_slot_msgs(info, s))),
        Option::None => Option::None,
    }
}

/// One row after the check: every populated slot carries its diagnostics.
pub open spec fn spec_checked_info(info: AptInfoView) -> AptInfoView {
    AptInfoView {
        release: spec_checked_slot(info, RepoKind::Release),
        staging: spec_checked_slot(info, RepoKind::Staging),
        staging_ubuntu: spec_checked_slot(info, RepoKind::StagingUbuntu),
        stable: spec_checked_slot(info, RepoKind::Stable),
        pre_stable: spec_checked_slot(info, RepoKind::PreStable),
        ubuntu: spec_checked_slot(info, RepoKind::Ubuntu),
    }
}

fn older_msg(o: RepoKind) -> (m: String)
    ensures
        m@ == "Older than "@ + spec_repo_kind_str(o),
{
    let mut m = String::from_str("Older than ");
    m.append(o.as_str());
    m
}

fn not_in_msg(k: RepoKind) -> (m: String)
    ensures
        m@ == "Not in "@ + spec_repo_kind_str(k),
{
    let mut m = String::from_str("Not in ");
    m.append(k.as_str());
    m
}

fn kinds_contain(v: &Vec<RepoKind>, s: RepoKind) -> (r: bool)
    ensures
        r == v@.contains(s),
{
    let n = v.len();
    let mut i: usize = 0;
    while i < n
        invariant
            i <= n,
            n == v@.len(),
            forall|t: int| 0 <= t < i ==> v@[t] != s,
        decreases n - i,
    {
        if v[i] == s {
            proof {
                assert(v@[i as int] == s);
            }
            return true;
        }
        i = i + 1;
    }
    proof {
        if v@.contains(s) {
            let w = choose|w: int| 0 <= w < v@.len() && v@[w] == s;
            assert(v@[w] == s);
            assert(false);
        }
    }
    false
}

/// All diagnostics one slot gains from one row, computed without touching
/// the row.
fn slot_msgs(info: &AptInfo, s: RepoKind) -> (msgs: Vec<String>)
    ensures
        views_of(msgs@) == spec_slot_msgs(info@, s),
{
    let kinds = RepoKind::all();
    let mut msgs: Vec<String> = Vec::new();
    proof {
        assert(views_of(msgs@) =~= spec_slot_msgs_upto(info@, s, 0));
    }
    let mut ki: usize = 0;
    while ki < 6
        invariant
            ki <= 6,
            kinds@ == spec_all_repo_kinds(),
            views_of(msgs@) == spec_slot_msgs_upto(info@, s, ki as int),
        decreases 6 - ki,
    {
        let ghost msgs_before = views_of(msgs@);
        let k = kinds[ki];
        proof {
            assert(k == spec_all_repo_kinds()[ki as int]);
        }
        if k == s {
            let olds = s.must_be_newer_than();
            let on = olds.len();
            let mut oi: usize = 0;
            proof {
                assert(olds@.skip(0) =~= olds@);
            }
            while oi < on
                invariant
                    oi <= on,
                    on == olds@.len(),
                    olds@ == spec_must_be_newer_than(s),
                    views_of(msgs@) + spec_older_msgs(info@, s, olds@.skip(oi as int))
                        == msgs_before + spec_older_msgs(info@, s, olds@),
                decreases on - oi,
            {
                let ghost acc0 = views_of(msgs@);
                let o = olds[oi];
                proof {
                    assert(o == olds@[oi as int]);
                    assert(olds@.skip(oi as int)[0] == o);
                    assert(olds@.skip(oi as int).drop_first() =~= olds@.skip(oi as int + 1));
                }
                let push_msg = match (info.version(s), info.version(o)) {
                    (Option::Some(v), Option::Some(ov)) => matches!(
                        compare_versions(v.version.as_str(), ov.version.as_str()),
                        Ordering::Less
                    ),
                    _ => false,
                };
                if push_msg {
                    msgs.push(older_msg(o));
                    proof {
                        assert(views_of(msgs@) =~= acc0.push(
                            "Older than "@ + spec_repo_kind_str(o),
                        ));
                        assert(acc0.push("Older than "@ + spec_repo_kind_str(o))
                            =~= acc0 + seq!["Older than "@ + spec_repo_kind_str(o)]);
                    }
                }
                oi = oi + 1;
            }
            proof {
                assert(olds@.skip(on as int) =~= Seq::<RepoKind>::empty());
                assert(spec_older_msgs(info@, s, olds@.skip(on as int)) =~= Seq::<
                    Seq<char>,
                >::empty());
                assert(views_of(msgs@) =~= msgs_before + spec_contrib(info@, k, s));
            }
        } else {
            let olds_k = k.must_be_newer_than();
            let has_edge = kinds_contain(&olds_k, s);
            let push_msg = has_edge && info.version(k).is_none() && info.version(s).is_some()
                && !matches!(s, RepoKind::Ubuntu);
            if push_msg {
                let ghost acc0 = views_of(msgs@);
                msgs.push(not_in_msg(k));
                proof {
                    assert(views_of(msgs@) =~= acc0.push("Not in "@ + spec_repo_kind_str(k)));
                    assert(acc0.push("Not in "@ + spec_repo_kind_str(k)) =~= acc0 + seq![
                        "Not in "@ + spec_repo_kind_str(k),
                    ]);
                }
            } else {
                proof {
                    assert(spec_contrib(info@, k, s) =~= Seq::<Seq<char>>::empty());
                    assert(views_of(msgs@) =~= msgs_before + spec_contrib(info@, k, s));
                }
            }
        }
        ki = ki + 1;
    }
    msgs
}

/// Append freshly computed diagnostics to one slot's list.
fn append_msgs(errors: &mut Vec<String>, msgs: Vec<String>)
    ensures
        views_of(final(errors)@) == views_of(old(errors)@) + views_of(msgs@),
{
    let mut msgs = msgs;
    let ghost e0 = errors@;
    let ghost m0 = msgs@;
    errors.append(&mut msgs);
    proof {
        assert(views_of(errors@) =~= views_of(e0) + views_of(m0));
    }
}

/// Run the check over one row: every populated slot gains its diagnostics.
fn check_info(info: &mut AptInfo)
    ensures
        final(info)@ == spec_checked_info(old(info)@),
{
    let ghost info0 = info@;
    let m_release = slot_msgs(info, RepoKind::Release);
    let m_staging = slot_msgs(info, RepoKind::Staging);
    let m_staging_ubuntu = slot_msgs(info, RepoKind::StagingUbuntu);
    let m_stable = slot_msgs(info, RepoKind::Stable);
    let m_pre_stable = slot_msgs(info, RepoKind::PreStable);
    let m_ubuntu = slot_msgs(info, RepoKind::Ubuntu);
    if let Option::Some(v) = &mut info.release {
        append_msgs(&mut v.errors, m_release);
    }
    if let Option::Some(v) = &mut info.staging {
        append_msgs(&mut v.errors, m_staging);
    }
    if let Option::Some(v) = &mut info.staging_ubuntu {
        append_msgs(&mut v.errors, m_staging_ubuntu);
    }
    if let Option::Some(v) = &mut info.stable {
        append_msgs(&mut v.errors, m_stable);
    }
    if let Option::Some(v) = &mut info.pre_stable {
        append_msgs(&mut v.errors, m_pre_stable);
    }
    if let Option::Some(v) = &mut info.ubuntu {
        append_msgs(&mut v.errors, m_ubuntu);
    }
}

impl AptInfos {
    /// Run the consistency check over the whole matrix.  Only diagnostics
    /// change: every row keeps its key and its versions.
    pub fn check_consistency(&mut self)
        requires
            old(self).wf(),
        ensures
            final(self).wf(),
            final(self)@.len() == old(self)@.len(),
            forall|i: int|
                0 <= i < old(self)@.len() ==> #[trigger] final(self)@[i] == (AptEntryView {
                    package: old(self)@[i].package,
                    codename: old(self)@[i].codename,
                    info: spec_checked_info(old(self)@[i].info),
                }),
    {
        let ghost s0 = self@;
        let n = self.entries.len();
        let mut i: usize = 0;
        while i < n
            invariant
                i <= n,
                n == self@.len(),
                n == self.entries@.len(),
                self@.len() == s0.len(),
                forall|t: int|
                    i <= t < n ==> #[trigger] self@[t] == s0[t],
                forall|t: int|
                    0 <= t < i ==> #[trigger] self@[t] == (AptEntryView {
                        package: s0[t].package,
                        codename: s0[t].codename,
                        info: spec_checked_info(s0[t].info),
                    }),
            decreases n - i,
        {
            let ghost pre = self@;
            let e = vec_index_mut(&mut self.entries, i);
            check_info(&mut e.info);
            proof {
                assert(self@ =~= pre.update(
                    i as int,
                    AptEntryView {
                        package: pre[i as int].package,
                        codename: pre[i as int].codename,
                        info: spec_checked_info(pre[i as int].info),
                    },
                ));
            }
            i = i + 1;
        }
        proof {
            assert forall|x: int, y: int| 0 <= x < y < self@.len() implies
                crate::aggregate::spec_key_lt(
                #[trigger] self@[x].package,
                self@[x].codename,
                #[trigger] self@[y].package,
                self@[y].codename,
            ) by {
                assert(self@[x].package == s0[x].package && self@[x].codename == s0[x].codename);
                assert(self@[y].package == s0[y].package && self@[y].codename == s0[y].codename);
            }
        }
    }
}

/// Number of diagnostics on one row.
pub open spec fn spec_info_errors(info: AptInfoView) -> nat {
    spec_slot_errors(info.release) + spec_slot_errors(info.staging) + spec_slot_errors(
        info.staging_ubuntu,
    ) + spec_slot_errors(info.stable) + spec_slot_errors(info.pre_stable) + spec_slot_errors(
        info.ubuntu,
    )
}

pub open spec fn spec_slot_errors(slot: Option<AptVersionView>) -> nat {
    match slot {
        Option::Some(v) => v.errors.len(),
        Option::None => 0,
    }
}

pub open spec fn spec_total_upto(s: Seq<AptEntryView>, n: int) -> nat
    decreases n,
{
    if n <= 0 {
        0
    } else {
        spec_total_upto(s, n - 1) + spec_info_errors(s[n - 1].info)
    }
}

/// Number of diagnostics on the whole matrix.
pub open spec fn spec_total_errors(s: Seq<AptEntryView>) -> nat {
    spec_total_upto(s, s.len() as int)
}

fn sat_add(a: usize, b: usize) -> (r: usize)
    ensures
        a + b <= usize::MAX ==> r == a + b,
        a + b > usize::MAX ==> r == usize::MAX,
{
    if a <= usize::MAX - b {
        a + b
    } else {
        usize::MAX
    }
}

fn slot_errors(slot: &Option<AptVersion>) -> (r: usize)
    ensures
        r == spec_slot_errors(crate::aggregate::opt_av_view(*slot)),
{
    match slot {
        Option::Some(v) => v.errors.len(),
        Option::None => 0,
    }
}

impl AptInfos {
    /// Number of diagnostics on the whole matrix; the count saturates where
    /// it cannot be represented.
    pub fn total_errors(&self) -> (r: usize)
        ensures
            spec_total_errors(self@) <= usize::MAX ==> r == spec_total_errors(self@),
            spec_total_errors(self@) > usize::MAX ==> r == usize::MAX,
    {
        let n = self.entries.len();
        let mut total: usize = 0;
        let mut i: usize = 0;
        while i < n
            invariant
                i <= n,
                n == self@.len(),
                n == self.entries@.len(),
                spec_total_upto(self@, i as int) <= usize::MAX ==> total == spec_total_upto(
                    self@,
                    i as int,
                ),
                spec_total_upto(self@, i as int) > usize::MAX ==> total == usize::MAX,
                total <= spec_total_upto(self@, i as int),
            decreases n - i,
        {
            let e = &self.entries[i];
            proof {
                assert(e@ == self@[i as int]);
            }
            let mut row: usize = slot_errors(&e.info.release);
            row = sat_add(row, slot_errors(&e.info.staging));
            row = sat_add(row, slot_errors(&e.info.staging_ubuntu));
            row = sat_add(row, slot_errors(&e.info.stable));
            row = sat_add(row, slot_errors(&e.info.pre_stable));
            row = sat_add(row, slot_errors(&e.info.ubuntu));
            proof {
                assert(spec_info_errors(self@[i as int].info) <= usize::MAX ==> row
                    == spec_info_errors(self@[i as int].info));
                assert(row <= spec_info_errors(self@[i as int].info));
            }
            total = sat_add(total, row);
            i = i + 1;
        }
        total
    }
}

} // verus!
