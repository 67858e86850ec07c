//! Distro-semantics version comparison.
//!
//! A version string splits into an epoch (before the first `:`), an upstream
//! part and an optional revision (after the last `-`).  The epoch compares
//! numerically; the other two parts compare by alternating non-digit and
//! digit runs, where digit runs compare numerically and non-digit runs
//! compare character by character with `~` sorting before every other
//! character, including the absence of a character.
use vstd::prelude::*;
use vstd::string::StrSliceExecFns;
use core::cmp::Ordering;

verus! {

pub open spec fn spec_is_digit(c: char) -> bool {
    48 <= c as u32 && c as u32 <= 57
}

pub open spec fn spec_is_letter(c: char) -> bool {
    (97 <= c as u32 && c as u32 <= 122) || (65 <= c as u32 && c as u32 <= 90)
}

/// Rank of a character in the modified ordering of non-digit runs: `~` sorts
/// below everything, letters sort below all other characters, and characters
/// of one class sort by code point.
pub open spec fn spec_char_key(c: char) -> int {
    if c == '~' {
        -1
    } else if spec_is_letter(c) {
        c as u32 as int
    } else {
        c as u32 as int + 0x110000
    }
}

proof fn lemma_char_key_injective(a: char, b: char)
    requires
        spec_char_key(a) == spec_char_key(b),
    ensures
        a == b,
{
    assert(spec_is_letter(a) ==> spec_char_key(a) <= 122);
    assert(spec_is_letter(b) ==> spec_char_key(b) <= 122);
    assert(a as u32 == b as u32 ==> a == b);
}

pub open spec fn spec_ord_flip(o: Ordering) -> Ordering {
    match o {
        Ordering::Less => Ordering::Greater,
        Ordering::Equal => Ordering::Equal,
        Ordering::Greater => Ordering::Less,
    }
}

/// Comparison of two non-digit runs: character by character in the modified
/// ordering; a run that ends sorts below everything but `~`.
pub open spec fn spec_nondigits_cmp(l: Seq<char>, r: Seq<char>) -> Ordering
    decreases l.len(),
{
    if l.len() == 0 && r.len() == 0 {
        Ordering::Equal
    } else if l.len() == 0 {
        if r[0] == '~' {
            Ordering::Greater
        } else {
            Ordering::Less
        }
    } else if r.len() == 0 {
        if l[0] == '~' {
            Ordering::Less
        } else {
            Ordering::Greater
        }
    } else if l[0] == r[0] {
        spec_nondigits_cmp(l.drop_first(), r.drop_first())
    } else if spec_char_key(l[0]) < spec_char_key(r[0]) {
        Ordering::Less
    } else {
        Ordering::Greater
    }
}

/// Plain lexicographic comparison by code point, used on digit runs of equal
/// length once leading zeros are gone.
pub open spec fn spec_lex_cmp(l: Seq<char>, r: Seq<char>) -> Ordering
    decreases l.len(),
{
    if l.len() == 0 && r.len() == 0 {
        Ordering::Equal
    } else if l.len() == 0 {
        Ordering::Less
    } else if r.len() == 0 {
        Ordering::Greater
    } else if (l[0] as u32) < (r[0] as u32) {
        Ordering::Less
    } else if (l[0] as u32) > (r[0] as u32) {
        Ordering::Greater
    } else {
        spec_lex_cmp(l.drop_first(), r.drop_first())
    }
}

/// Length of the run of leading `0` characters.
pub open spec fn spec_zeros_run(s: Seq<char>) -> nat
    decreases s.len(),
{
    if s.len() == 0 {
        0
    } else if s[0] == '0' {
        1 + spec_zeros_run(s.drop_first())
    } else {
        0
    }
}

/// Numeric comparison of two digit runs: leading zeros are dropped, a longer
/// run is larger, and runs of equal length compare lexicographically.  An
/// empty run counts as zero.
pub open spec fn spec_digits_cmp(l: Seq<char>, r: Seq<char>) -> Ordering {
    let lt = l.skip(spec_zeros_run(l) as int);
    let rt = r.skip(spec_zeros_run(r) as int);
    if lt.len() < rt.len() {
        Ordering::Less
    } else if lt.len() > rt.len() {
        Ordering::Greater
    } else {
        spec_lex_cmp(lt, rt)
    }
}

/// Length of the maximal prefix of non-digit characters.
pub open spec fn spec_nondigit_run(s: Seq<char>) -> nat
    decreases s.len(),
{
    if s.len() == 0 {
        0
    } else if spec_is_digit(s[0]) {
        0
    } else {
        1 + spec_nondigit_run(s.drop_first())
    }
}

/// Length of the maximal prefix of digit characters.
pub open spec fn spec_digit_run(s: Seq<char>) -> nat
    decreases s.len(),
{
    if s.len() == 0 {
        0
    } else if spec_is_digit(s[0]) {
        1 + spec_digit_run(s.drop_first())
    } else {
        0
    }
}

proof fn lemma_nondigit_run_le(s: Seq<char>)
    ensures
        spec_nondigit_run(s) <= s.len(),
    decreases s.len(),
{
    if s.len() > 0 && !spec_is_digit(s[0]) {
        lemma_nondigit_run_le(s.drop_first());
    }
}

proof fn lemma_digit_run_le(s: Seq<char>)
    ensures
        spec_digit_run(s) <= s.len(),
    decreases s.len(),
{
    if s.len() > 0 && spec_is_digit(s[0]) {
        lemma_digit_run_le(s.drop_first());
    }
}

proof fn lemma_zeros_run_le(s: Seq<char>)
    ensures
        spec_zeros_run(s) <= s.len(),
    decreases s.len(),
{
    if s.len() > 0 && s[0] == '0' {
        lemma_zeros_run_le(s.drop_first());
    }
}

/// Comparison of one alternating part (an upstream part or a revision).
pub open spec fn spec_simple_cmp(l: Seq<char>, r: Seq<char>) -> Ordering
    decreases l.len() + r.len() via spec_simple_cmp_decreases
{
    let la = spec_nondigit_run(l) as int;
    let ra = spec_nondigit_run(r) as int;
    match spec_nondigits_cmp(l.take(la), r.take(ra)) {
        Ordering::Equal => {
            let ld = spec_digit_run(l.skip(la)) as int;
            let rd = spec_digit_run(r.skip(ra)) as int;
            match spec_digits_cmp(l.skip(la).take(ld), r.skip(ra).take(rd)) {
                Ordering::Equal => {
                    let l2 = l.skip(la).skip(ld);
                    let r2 = r.skip(ra).skip(rd);
                    if l2.len() == 0 && r2.len() == 0 {
                        Ordering::Equal
                    } else {
                        spec_simple_cmp(l2, r2)
                    }
                },
                o => o,
            }
        },
        o => o,
    }
}

#[via_fn]
proof fn spec_simple_cmp_decreases(l: Seq<char>, r: Seq<char>) {
    lemma_nondigit_run_le(l);
    lemma_nondigit_run_le(r);
    let la = spec_nondigit_run(l) as int;
    let ra = spec_nondigit_run(r) as int;
    lemma_digit_run_le(l.skip(la));
    lemma_digit_run_le(r.skip(ra));
    let ld = spec_digit_run(l.skip(la)) as int;
    let rd = spec_digit_run(r.skip(ra)) as int;
    if la + ld == 0 && ra + rd == 0 {
        assert(l.skip(0) =~= l);
        assert(r.skip(0) =~= r);
        assert(l.len() == 0);
        assert(r.len() == 0);
    }
}

/// Index of the first occurrence of a character, or the length if it does
/// not occur.
pub open spec fn spec_until_char(s: Seq<char>, c: char) -> nat
    decreases s.len(),
{
    if s.len() == 0 {
        0
    } else if s[0] == c {
        0
    } else {
        1 + spec_until_char(s.drop_first(), c)
    }
}

pub proof fn lemma_until_char_le(s: Seq<char>, c: char)
    ensures
        spec_until_char(s, c) <= s.len(),
    decreases s.len(),
{
    if s.len() > 0 && s[0] != c {
        lemma_until_char_le(s.drop_first(), c);
    }
}

/// Nothing before the first occurrence is an occurrence, and the first
/// occurrence, if any, is one.
pub proof fn lemma_until_char_props(s: Seq<char>, c: char)
    ensures
        forall|i: int| 0 <= i < spec_until_char(s, c) ==> s[i] != c,
        spec_until_char(s, c) < s.len() ==> s[spec_until_char(s, c) as int] == c,
    decreases s.len(),
{
    lemma_until_char_le(s, c);
    if s.len() > 0 && s[0] != c {
        lemma_until_char_props(s.drop_first(), c);
        assert(forall|i: int|
            1 <= i < spec_until_char(s, c) ==> s[i] == s.drop_first()[i - 1] && s[i] != c);
    }
}

/// A scan that saw no occurrence before `k`, and one at `k` unless the
/// string ends there, has found the first occurrence.
pub proof fn lemma_until_char_from(s: Seq<char>, c: char, k: nat)
    requires
        k <= s.len(),
        forall|i: int| 0 <= i < k ==> s[i] != c,
        k == s.len() || s[k as int] == c,
    ensures
        spec_until_char(s, c) == k,
    decreases s.len(),
{
    if k > 0 {
        assert(s[0] != c);
        lemma_until_char_from(s.drop_first(), c, (k - 1) as nat);
    }
}

/// Index of the last `-`, or `-1` if there is none.
pub open spec fn spec_last_hyphen(s: Seq<char>) -> int
    decreases s.len(),
{
    if s.len() == 0 {
        -1
    } else if s[s.len() - 1] == '-' {
        s.len() - 1
    } else {
        spec_last_hyphen(s.drop_last())
    }
}

proof fn lemma_last_hyphen_range(s: Seq<char>)
    ensures
        -1 <= spec_last_hyphen(s) < s.len(),
    decreases s.len(),
{
    if s.len() > 0 && s[s.len() - 1] != '-' {
        lemma_last_hyphen_range(s.drop_last());
    }
}

/// The epoch (before the first `:`, empty if there is none) and the rest.
pub open spec fn spec_epoch_split(s: Seq<char>) -> (Seq<char>, Seq<char>) {
    let k = spec_until_char(s, ':') as int;
    if k < s.len() {
        (s.take(k), s.skip(k + 1))
    } else {
        (Seq::empty(), s)
    }
}

/// The upstream part and the revision (after the last `-`, empty if there is
/// none).
pub open spec fn spec_revision_split(s: Seq<char>) -> (Seq<char>, Seq<char>) {
    let h = spec_last_hyphen(s);
    if h >= 0 {
        (s.take(h), s.skip(h + 1))
    } else {
        (s, Seq::empty())
    }
}

/// Distro-semantics comparison of two whole version strings.
pub open spec fn spec_version_cmp(l: Seq<char>, r: Seq<char>) -> Ordering {
    let le = spec_epoch_split(l);
    let re = spec_epoch_split(r);
    match spec_digits_cmp(le.0, re.0) {
        Ordering::Equal => {
            let lu = spec_revision_split(le.1);
            let ru = spec_revision_split(re.1);
            match spec_simple_cmp(lu.0, ru.0) {
                Ordering::Equal => spec_simple_cmp(lu.1, ru.1),
                o => o,
            }
        },
        o => o,
    }
}

proof fn lemma_char_u32_injective(x: char, y: char)
    requires
        x as u32 == y as u32,
    ensures
        x == y,
{
}

pub proof fn lemma_lex_refl(s: Seq<char>)
    ensures
        spec_lex_cmp(s, s) == Ordering::Equal,
    decreases s.len(),
{
    if s.len() > 0 {
        lemma_lex_refl(s.drop_first());
    }
}

pub proof fn lemma_lex_eq(l: Seq<char>, r: Seq<char>)
    requires
        spec_lex_cmp(l, r) == Ordering::Equal,
    ensures
        l == r,
    decreases l.len(),
{
    if l.len() > 0 && r.len() > 0 {
        lemma_lex_eq(l.drop_first(), r.drop_first());
        if l[0] as u32 == r[0] as u32 {
            lemma_char_u32_injective(l[0], r[0]);
        }
        assert(l =~= seq![l[0]] + l.drop_first());
        assert(r =~= seq![r[0]] + r.drop_first());
    } else {
        assert(l.len() == 0 && r.len() == 0);
        assert(l =~= r);
    }
}

pub proof fn lemma_lex_flip(l: Seq<char>, r: Seq<char>)
    ensures
        spec_lex_cmp(r, l) == spec_ord_flip(spec_lex_cmp(l, r)),
    decreases l.len(),
{
    if l.len() > 0 && r.len() > 0 {
        lemma_lex_flip(l.drop_first(), r.drop_first());
    }
}

pub proof fn lemma_lex_trans(a: Seq<char>, b: Seq<char>, c: Seq<char>)
    requires
        spec_lex_cmp(a, b) == Ordering::Less,
        spec_lex_cmp(b, c) == Ordering::Less,
    ensures
        spec_lex_cmp(a, c) == Ordering::Less,
    decreases a.len(),
{
    assert(b.len() > 0);
    assert(c.len() > 0);
    if a.len() > 0 {
        if a[0] as u32 == b[0] as u32 {
            lemma_char_u32_injective(a[0], b[0]);
        }
        if b[0] as u32 == c[0] as u32 {
            lemma_char_u32_injective(b[0], c[0]);
        }
        if a[0] == b[0] && b[0] == c[0] {
            lemma_lex_trans(a.drop_first(), b.drop_first(), c.drop_first());
        } else {
            assert((a[0] as u32) < (c[0] as u32));
        }
    }
}

proof fn lemma_digits_refl(s: Seq<char>)
    ensures
        spec_digits_cmp(s, s) == Ordering::Equal,
{
    lemma_lex_refl(s.skip(spec_zeros_run(s) as int));
}

proof fn lemma_digits_eq(l: Seq<char>, r: Seq<char>)
    requires
        spec_digits_cmp(l, r) == Ordering::Equal,
    ensures
        l.skip(spec_zeros_run(l) as int) == r.skip(spec_zeros_run(r) as int),
{
    lemma_lex_eq(l.skip(spec_zeros_run(l) as int), r.skip(spec_zeros_run(r) as int));
}

proof fn lemma_digits_flip(l: Seq<char>, r: Seq<char>)
    ensures
        spec_digits_cmp(r, l) == spec_ord_flip(spec_digits_cmp(l, r)),
{
    lemma_lex_flip(l.skip(spec_zeros_run(l) as int), r.skip(spec_zeros_run(r) as int));
}

proof fn lemma_digits_trans(a: Seq<char>, b: Seq<char>, c: Seq<char>)
    requires
        spec_digits_cmp(a, b) == Ordering::Less,
        spec_digits_cmp(b, c) == Ordering::Less,
    ensures
        spec_digits_cmp(a, c) == Ordering::Less,
{
    let at = a.skip(spec_zeros_run(a) as int);
    let bt = b.skip(spec_zeros_run(b) as int);
    let ct = c.skip(spec_zeros_run(c) as int);
    if at.len() == bt.len() && bt.len() == ct.len() {
        lemma_lex_trans(at, bt, ct);
    }
}

/// The numeric comparison looks only at the runs with leading zeros gone, so
/// a run may be replaced by one it compares equal to.
proof fn lemma_digits_congr_l(a: Seq<char>, b: Seq<char>, c: Seq<char>)
    requires
        spec_digits_cmp(a, b) == Ordering::Equal,
    ensures
        spec_digits_cmp(a, c) == spec_digits_cmp(b, c),
{
    lemma_digits_eq(a, b);
}

proof fn lemma_digits_congr_r(a: Seq<char>, b: Seq<char>, c: Seq<char>)
    requires
        spec_digits_cmp(b, c) == Ordering::Equal,
    ensures
        spec_digits_cmp(a, b) == spec_digits_cmp(a, c),
{
    lemma_digits_eq(b, c);
}

proof fn lemma_nd_refl(s: Seq<char>)
    ensures
        spec_nondigits_cmp(s, s) == Ordering::Equal,
    decreases s.len(),
{
    if s.len() > 0 {
        lemma_nd_refl(s.drop_first());
    }
}

proof fn lemma_nd_eq(l: Seq<char>, r: Seq<char>)
    requires
        spec_nondigits_cmp(l, r) == Ordering::Equal,
    ensures
        l == r,
    decreases l.len(),
{
    if l.len() > 0 && r.len() > 0 && l[0] == r[0] {
        lemma_nd_eq(l.drop_first(), r.drop_first());
        assert(l =~= seq![l[0]] + l.drop_first());
        assert(r =~= seq![r[0]] + r.drop_first());
    }
}

proof fn lemma_nd_flip(l: Seq<char>, r: Seq<char>)
    ensures
        spec_nondigits_cmp(r, l) == spec_ord_flip(spec_nondigits_cmp(l, r)),
    decreases l.len() + r.len(),
{
    if l.len() > 0 && r.len() > 0 {
        if l[0] == r[0] {
            lemma_nd_flip(l.drop_first(), r.drop_first());
        } else {
            if spec_char_key(l[0]) == spec_char_key(r[0]) {
                lemma_char_key_injective(l[0], r[0]);
            }
        }
    }
}

proof fn lemma_nd_trans(a: Seq<char>, b: Seq<char>, c: Seq<char>)
    requires
        spec_nondigits_cmp(a, b) == Ordering::Less,
        spec_nondigits_cmp(b, c) == Ordering::Less,
    ensures
        spec_nondigits_cmp(a, c) == Ordering::Less,
    decreases a.len() + b.len() + c.len(),
{
    if a.len() == 0 {
        // b starts with a character above the end marker, and so must c.
        assert(b.len() > 0 && b[0] != '~');
        if c.len() > 0 {
            if b[0] == c[0] {
            } else {
                assert(spec_char_key(b[0]) < spec_char_key(c[0]));
                assert(spec_char_key(b[0]) >= 0);
            }
        }
    } else if b.len() == 0 {
        assert(a[0] == '~');
        assert(c.len() > 0 && c[0] != '~');
        assert(spec_char_key(a[0]) == -1);
        assert(spec_char_key(c[0]) >= 0);
    } else if c.len() == 0 {
        assert(b[0] == '~');
        if a[0] == b[0] {
        } else {
            assert(spec_char_key(a[0]) < -1);
        }
    } else {
        if a[0] == b[0] && b[0] == c[0] {
            lemma_nd_trans(a.drop_first(), b.drop_first(), c.drop_first());
        } else if a[0] == b[0] {
            assert(spec_char_key(b[0]) < spec_char_key(c[0]));
            if a[0] == c[0] {
                assert(false);
            }
        } else if b[0] == c[0] {
            assert(spec_char_key(a[0]) < spec_char_key(b[0]));
            if a[0] == c[0] {
                assert(false);
            }
        } else {
            assert(spec_char_key(a[0]) < spec_char_key(c[0]));
            if a[0] == c[0] {
                assert(false);
            }
        }
    }
}

/// A string whose leading non-digit and digit runs are both empty is empty.
proof fn lemma_runs_cover(s: Seq<char>)
    requires
        spec_nondigit_run(s) == 0,
        spec_digit_run(s) == 0,
    ensures
        s.len() == 0,
{
}

proof fn lemma_simple_refl(s: Seq<char>)
    ensures
        spec_simple_cmp(s, s) == Ordering::Equal,
    decreases s.len(),
{
    lemma_nondigit_run_le(s);
    let la = spec_nondigit_run(s) as int;
    lemma_nd_refl(s.take(la));
    lemma_digit_run_le(s.skip(la));
    let ld = spec_digit_run(s.skip(la)) as int;
    lemma_digits_refl(s.skip(la).take(ld));
    let s2 = s.skip(la).skip(ld);
    if s2.len() != 0 {
        assert(s2 =~= s.skip(la + ld));
        if la + ld == 0 {
            assert(s.skip(0) =~= s);
            lemma_runs_cover(s);
        }
        lemma_simple_refl(s2);
    }
}

/// Equality at every stage of one alternating step.
proof fn lemma_simple_flip(l: Seq<char>, r: Seq<char>)
    ensures
        spec_simple_cmp(r, l) == spec_ord_flip(spec_simple_cmp(l, r)),
    decreases l.len() + r.len(),
{
    lemma_nondigit_run_le(l);
    lemma_nondigit_run_le(r);
    let la = spec_nondigit_run(l) as int;
    let ra = spec_nondigit_run(r) as int;
    lemma_nd_flip(l.take(la), r.take(ra));
    if spec_nondigits_cmp(l.take(la), r.take(ra)) == Ordering::Equal {
        lemma_digit_run_le(l.skip(la));
        lemma_digit_run_le(r.skip(ra));
        let ld = spec_digit_run(l.skip(la)) as int;
        let rd = spec_digit_run(r.skip(ra)) as int;
        lemma_digits_flip(l.skip(la).take(ld), r.skip(ra).take(rd));
        if spec_digits_cmp(l.skip(la).take(ld), r.skip(ra).take(rd)) == Ordering::Equal {
            let l2 = l.skip(la).skip(ld);
            let r2 = r.skip(ra).skip(rd);
            if !(l2.len() == 0 && r2.len() == 0) {
                if la + ld == 0 && ra + rd == 0 {
                    assert(l.skip(0) =~= l);
                    assert(r.skip(0) =~= r);
                    assert(l2 =~= l.skip(la).skip(ld));
                    lemma_runs_cover(l);
                    lemma_runs_cover(r);
                }
                lemma_simple_flip(l2, r2);
            }
        }
    }
}

proof fn lemma_simple_congr_l(a: Seq<char>, b: Seq<char>, c: Seq<char>)
    requires
        spec_simple_cmp(a, b) == Ordering::Equal,
    ensures
        spec_simple_cmp(a, c) == spec_simple_cmp(b, c),
    decreases a.len() + b.len() + c.len(),
{
    lemma_nondigit_run_le(a);
    lemma_nondigit_run_le(b);
    lemma_nondigit_run_le(c);
    let aa = spec_nondigit_run(a) as int;
    let ba = spec_nondigit_run(b) as int;
    let ca = spec_nondigit_run(c) as int;
    lemma_nd_eq(a.take(aa), b.take(ba));
    assert(a.take(aa) == b.take(ba));
    lemma_digit_run_le(a.skip(aa));
    lemma_digit_run_le(b.skip(ba));
    lemma_digit_run_le(c.skip(ca));
    let ad = spec_digit_run(a.skip(aa)) as int;
    let bd = spec_digit_run(b.skip(ba)) as int;
    let cd = spec_digit_run(c.skip(ca)) as int;
    lemma_digits_congr_l(a.skip(aa).take(ad), b.skip(ba).take(bd), c.skip(ca).take(cd));
    if spec_nondigits_cmp(a.take(aa), c.take(ca)) == Ordering::Equal
        && spec_digits_cmp(a.skip(aa).take(ad), c.skip(ca).take(cd)) == Ordering::Equal {
        let a2 = a.skip(aa).skip(ad);
        let b2 = b.skip(ba).skip(bd);
        let c2 = c.skip(ca).skip(cd);
        // The two runs of `a` and `b` compared equal, so the remainders
        // compare equal as well, and the claim reduces to the remainders.
        if a2.len() == 0 && b2.len() == 0 {
            if c2.len() == 0 {
            } else {
                assert(a2 =~= b2);
                assert(spec_simple_cmp(a2, c2) == spec_simple_cmp(b2, c2));
            }
        } else {
            assert(spec_simple_cmp(a2, b2) == Ordering::Equal);
            if aa + ad == 0 && ba + bd == 0 && ca + cd == 0 {
                assert(a.skip(0) =~= a);
                assert(b.skip(0) =~= b);
                assert(c.skip(0) =~= c);
                lemma_runs_cover(a);
                lemma_runs_cover(b);
                lemma_runs_cover(c);
                assert(a2 =~= a);
                assert(false);
            }
            lemma_simple_congr_l(a2, b2, c2);
            if a2.len() == 0 && c2.len() == 0 {
                lemma_simple_refl(a2);
                assert(spec_simple_cmp(b2, c2) == Ordering::Equal);
            }
            if b2.len() == 0 && c2.len() == 0 {
                lemma_simple_refl(b2);
                assert(spec_simple_cmp(a2, c2) == Ordering::Equal);
            }
        }
    }
}

proof fn lemma_simple_congr_r(a: Seq<char>, b: Seq<char>, c: Seq<char>)
    requires
        spec_simple_cmp(b, c) == Ordering::Equal,
    ensures
        spec_simple_cmp(a, b) == spec_simple_cmp(a, c),
{
    lemma_simple_flip(a, b);
    lemma_simple_flip(a, c);
    lemma_simple_congr_l(b, c, a);
}

proof fn lemma_simple_trans(a: Seq<char>, b: Seq<char>, c: Seq<char>)
    requires
        spec_simple_cmp(a, b) == Ordering::Less,
        spec_simple_cmp(b, c) == Ordering::Less,
    ensures
        spec_simple_cmp(a, c) == Ordering::Less,
    decreases a.len() + b.len() + c.len(),
{
    lemma_nondigit_run_le(a);
    lemma_nondigit_run_le(b);
    lemma_nondigit_run_le(c);
    let aa = spec_nondigit_run(a) as int;
    let ba = spec_nondigit_run(b) as int;
    let ca = spec_nondigit_run(c) as int;
    let alpha_ab = spec_nondigits_cmp(a.take(aa), b.take(ba));
    let alpha_bc = spec_nondigits_cmp(b.take(ba), c.take(ca));
    lemma_digit_run_le(a.skip(aa));
    lemma_digit_run_le(b.skip(ba));
    lemma_digit_run_le(c.skip(ca));
    let ad = spec_digit_run(a.skip(aa)) as int;
    let bd = spec_digit_run(b.skip(ba)) as int;
    let cd = spec_digit_run(c.skip(ca)) as int;
    if alpha_ab == Ordering::Less {
        if alpha_bc == Ordering::Less {
            lemma_nd_trans(a.take(aa), b.take(ba), c.take(ca));
        } else {
            assert(alpha_bc == Ordering::Equal);
            lemma_nd_eq(b.take(ba), c.take(ca));
        }
    } else {
        assert(alpha_ab == Ordering::Equal);
        lemma_nd_eq(a.take(aa), b.take(ba));
        let digits_ab = spec_digits_cmp(a.skip(aa).take(ad), b.skip(ba).take(bd));
        let digits_bc = spec_digits_cmp(b.skip(ba).take(bd), c.skip(ca).take(cd));
        if alpha_bc == Ordering::Less {
            assert(spec_nondigits_cmp(a.take(aa), c.take(ca)) == Ordering::Less);
        } else {
            assert(alpha_bc == Ordering::Equal);
            lemma_nd_eq(b.take(ba), c.take(ca));
            lemma_nd_refl(a.take(aa));
            assert(spec_nondigits_cmp(a.take(aa), c.take(ca)) == Ordering::Equal);
            if digits_ab == Ordering::Less {
                if digits_bc == Ordering::Less {
                    lemma_digits_trans(
                        a.skip(aa).take(ad),
                        b.skip(ba).take(bd),
                        c.skip(ca).take(cd),
                    );
                } else {
                    assert(digits_bc == Ordering::Equal);
                    lemma_digits_congr_r(
                        a.skip(aa).take(ad),
                        b.skip(ba).take(bd),
                        c.skip(ca).take(cd),
                    );
                }
            } else {
                assert(digits_ab == Ordering::Equal);
                if digits_bc == Ordering::Less {
                    lemma_digits_congr_l(
                        a.skip(aa).take(ad),
                        b.skip(ba).take(bd),
                        c.skip(ca).take(cd),
                    );
                } else {
                    assert(digits_bc == Ordering::Equal);
                    lemma_digits_congr_l(
                        a.skip(aa).take(ad),
                        b.skip(ba).take(bd),
                        c.skip(ca).take(cd),
                    );
                    let a2 = a.skip(aa).skip(ad);
                    let b2 = b.skip(ba).skip(bd);
                    let c2 = c.skip(ca).skip(cd);
                    assert(spec_simple_cmp(a2, b2) == Ordering::Less);
                    assert(spec_simple_cmp(b2, c2) == Ordering::Less);
                    if aa + ad == 0 && ba + bd == 0 && ca + cd == 0 {
                        assert(a.skip(0) =~= a);
                        assert(b.skip(0) =~= b);
                        assert(c.skip(0) =~= c);
                        lemma_runs_cover(a);
                        lemma_runs_cover(b);
                        lemma_runs_cover(c);
                        assert(a2 =~= a);
                        assert(b2 =~= b);
                        assert(false);
                    }
                    lemma_simple_trans(a2, b2, c2);
                    assert(!(a2.len() == 0 && c2.len() == 0));
                }
            }
        }
    }
}

/// Two equal version strings compare equal: the comparison is reflexive.
pub proof fn lemma_version_cmp_reflexive(v: Seq<char>)
    ensures
        spec_version_cmp(v, v) == Ordering::Equal,
{
    let e = spec_epoch_split(v);
    lemma_digits_refl(e.0);
    let u = spec_revision_split(e.1);
    lemma_simple_refl(u.0);
    lemma_simple_refl(u.1);
}

/// Swapping the operands reverses the outcome: the comparison is
/// antisymmetric and total.
pub proof fn lemma_version_cmp_antisymmetric(l: Seq<char>, r: Seq<char>)
    ensures
        spec_version_cmp(r, l) == spec_ord_flip(spec_version_cmp(l, r)),
{
    let le = spec_epoch_split(l);
    let re = spec_epoch_split(r);
    lemma_digits_flip(le.0, re.0);
    if spec_digits_cmp(le.0, re.0) == Ordering::Equal {
        let lu = spec_revision_split(le.1);
        let ru = spec_revision_split(re.1);
        lemma_simple_flip(lu.0, ru.0);
        if spec_simple_cmp(lu.0, ru.0) == Ordering::Equal {
            lemma_simple_flip(lu.1, ru.1);
        }
    }
}

/// The comparison is transitive, which together with reflexivity and
/// antisymmetry makes it a total order on versions up to comparison
/// equality.
pub proof fn lemma_version_cmp_transitive(a: Seq<char>, b: Seq<char>, c: Seq<char>)
    requires
        spec_version_cmp(a, b) == Ordering::Less,
        spec_version_cmp(b, c) == Ordering::Less,
    ensures
        spec_version_cmp(a, c) == Ordering::Less,
{
    let ae = spec_epoch_split(a);
    let be = spec_epoch_split(b);
    let ce = spec_epoch_split(c);
    let epoch_ab = spec_digits_cmp(ae.0, be.0);
    let epoch_bc = spec_digits_cmp(be.0, ce.0);
    if epoch_ab == Ordering::Less {
        if epoch_bc == Ordering::Less {
            lemma_digits_trans(ae.0, be.0, ce.0);
        } else {
            assert(epoch_bc == Ordering::Equal);
            lemma_digits_congr_r(ae.0, be.0, ce.0);
        }
    } else {
        assert(epoch_ab == Ordering::Equal);
        if epoch_bc == Ordering::Less {
            lemma_digits_congr_l(ae.0, be.0, ce.0);
        } else {
            assert(epoch_bc == Ordering::Equal);
            lemma_digits_congr_l(ae.0, be.0, ce.0);
            let au = spec_revision_split(ae.1);
            let bu = spec_revision_split(be.1);
            let cu = spec_revision_split(ce.1);
            let up_ab = spec_simple_cmp(au.0, bu.0);
            let up_bc = spec_simple_cmp(bu.0, cu.0);
            if up_ab == Ordering::Less {
                if up_bc == Ordering::Less {
                    lemma_simple_trans(au.0, bu.0, cu.0);
                } else {
                    assert(up_bc == Ordering::Equal);
                    lemma_simple_congr_r(au.0, bu.0, cu.0);
                }
            } else {
                assert(up_ab == Ordering::Equal);
                if up_bc == Ordering::Less {
                    lemma_simple_congr_l(au.0, bu.0, cu.0);
                } else {
                    assert(up_bc == Ordering::Equal);
                    lemma_simple_congr_l(au.0, bu.0, cu.0);
                    lemma_simple_trans(au.1, bu.1, cu.1);
                }
            }
        }
    }
}

/// A version may be replaced by one it compares equal to without changing
/// any comparison.
pub proof fn lemma_version_cmp_equal_congruent(a: Seq<char>, b: Seq<char>, c: Seq<char>)
    requires
        spec_version_cmp(a, b) == Ordering::Equal,
    ensures
        spec_version_cmp(a, c) == spec_version_cmp(b, c),
{
    let ae = spec_epoch_split(a);
    let be = spec_epoch_split(b);
    let ce = spec_epoch_split(c);
    assert(spec_digits_cmp(ae.0, be.0) == Ordering::Equal);
    lemma_digits_congr_l(ae.0, be.0, ce.0);
    if spec_digits_cmp(ae.0, ce.0) == Ordering::Equal {
        let au = spec_revision_split(ae.1);
        let bu = spec_revision_split(be.1);
        let cu = spec_revision_split(ce.1);
        assert(spec_simple_cmp(au.0, bu.0) == Ordering::Equal);
        lemma_simple_congr_l(au.0, bu.0, cu.0);
        if spec_simple_cmp(au.0, cu.0) == Ordering::Equal {
            assert(spec_simple_cmp(au.1, bu.1) == Ordering::Equal);
            lemma_simple_congr_l(au.1, bu.1, cu.1);
        }
    }
}

fn exec_is_digit(c: char) -> (b: bool)
    ensures
        b == spec_is_digit(c),
{
    let u = c as u32;
    48 <= u && u <= 57
}

fn exec_is_letter(c: char) -> (b: bool)
    ensures
        b == spec_is_letter(c),
{
    let u = c as u32;
    (97 <= u && u <= 122) || (65 <= u && u <= 90)
}

/// The characters of a string, in order.
fn chars_of(s: &str) -> (v: Vec<char>)
    ensures
        v@ == s@,
{
    let mut v: Vec<char> = Vec::new();
    let n = s.unicode_len();
    let mut i: usize = 0;
    while i < n
        invariant
            i <= n,
            n == s@.len(),
            v@ == s@.take(i as int),
        decreases n - i,
    {
        let c = s.get_char(i);
        v.push(c);
        i = i + 1;
        proof {
            assert(v@ =~= s@.take(i as int));
        }
    }
    proof {
        assert(s@.take(n as int) =~= s@);
    }
    v
}

fn nondigit_run_at(v: &Vec<char>, lo: usize, hi: usize) -> (n: usize)
    requires
        lo <= hi <= v@.len(),
    ensures
        n == spec_nondigit_run(v@.subrange(lo as int, hi as int)),
        n <= hi - lo,
    decreases hi - lo,
{
    proof {
        assert(v@.subrange(lo as int, hi as int).len() == hi - lo);
    }
    if lo == hi {
        0
    } else if exec_is_digit(v[lo]) {
        0
    } else {
        let n = nondigit_run_at(v, lo + 1, hi);
        proof {
            assert(v@.subrange(lo as int, hi as int).drop_first() =~= v@.subrange(
                lo as int + 1,
                hi as int,
            ));
        }
        n + 1
    }
}

fn digit_run_at(v: &Vec<char>, lo: usize, hi: usize) -> (n: usize)
    requires
        lo <= hi <= v@.len(),
    ensures
        n == spec_digit_run(v@.subrange(lo as int, hi as int)),
        n <= hi - lo,
    decreases hi - lo,
{
    if lo == hi {
        0
    } else if exec_is_digit(v[lo]) {
        let n = digit_run_at(v, lo + 1, hi);
        proof {
            assert(v@.subrange(lo as int, hi as int).drop_first() =~= v@.subrange(
                lo as int + 1,
                hi as int,
            ));
        }
        n + 1
    } else {
        0
    }
}

fn zeros_run_at(v: &Vec<char>, lo: usize, hi: usize) -> (n: usize)
    requires
        lo <= hi <= v@.len(),
    ensures
        n == spec_zeros_run(v@.subrange(lo as int, hi as int)),
        n <= hi - lo,
    decreases hi - lo,
{
    if lo == hi {
        0
    } else if v[lo] == '0' {
        let n = zeros_run_at(v, lo + 1, hi);
        proof {
            assert(v@.subrange(lo as int, hi as int).drop_first() =~= v@.subrange(
                lo as int + 1,
                hi as int,
            ));
        }
        n + 1
    } else {
        0
    }
}

fn until_char_at(v: &Vec<char>, lo: usize, hi: usize, c: char) -> (n: usize)
    requires
        lo <= hi <= v@.len(),
    ensures
        n == spec_until_char(v@.subrange(lo as int, hi as int), c),
        n <= hi - lo,
    decreases hi - lo,
{
    if lo == hi {
        0
    } else if v[lo] == c {
        0
    } else {
        let n = until_char_at(v, lo + 1, hi, c);
        proof {
            assert(v@.subrange(lo as int, hi as int).drop_first() =~= v@.subrange(
                lo as int + 1,
                hi as int,
            ));
        }
        n + 1
    }
}

fn last_hyphen_at(v: &Vec<char>, lo: usize, hi: usize) -> (o: Option<usize>)
    requires
        lo <= hi <= v@.len(),
    ensures
        match o {
            Some(k) => lo + k < hi && spec_last_hyphen(v@.subrange(lo as int, hi as int)) == k,
            None => spec_last_hyphen(v@.subrange(lo as int, hi as int)) == -1,
        },
    decreases hi - lo,
{
    if lo == hi {
        None
    } else if v[hi - 1] == '-' {
        Some(hi - 1 - lo)
    } else {
        let o = last_hyphen_at(v, lo, hi - 1);
        proof {
            assert(v@.subrange(lo as int, hi as int).drop_last() =~= v@.subrange(
                lo as int,
                hi as int - 1,
            ));
        }
        o
    }
}

fn char_cmp(l: char, r: char) -> (o: Ordering)
    ensures
        o == Ordering::Less <==> spec_char_key(l) < spec_char_key(r),
        o == Ordering::Greater <==> spec_char_key(l) > spec_char_key(r),
        o == Ordering::Equal <==> spec_char_key(l) == spec_char_key(r),
{
    if l == r {
        Ordering::Equal
    } else if l == '~' {
        Ordering::Less
    } else if r == '~' {
        Ordering::Greater
    } else {
        let ll = exec_is_letter(l);
        let rl = exec_is_letter(r);
        if ll == rl {
            if (l as u32) < (r as u32) {
                Ordering::Less
            } else {
                Ordering::Greater
            }
        } else if ll {
            Ordering::Less
        } else {
            Ordering::Greater
        }
    }
}

fn nondigits_cmp_at(
    l: &Vec<char>,
    llo: usize,
    lhi: usize,
    r: &Vec<char>,
    rlo: usize,
    rhi: usize,
) -> (o: Ordering)
    requires
        llo <= lhi <= l@.len(),
        rlo <= rhi <= r@.len(),
    ensures
        o == spec_nondigits_cmp(
            l@.subrange(llo as int, lhi as int),
            r@.subrange(rlo as int, rhi as int),
        ),
    decreases lhi - llo,
{
    if llo == lhi && rlo == rhi {
        Ordering::Equal
    } else if llo == lhi {
        if r[rlo] == '~' {
            Ordering::Greater
        } else {
            Ordering::Less
        }
    } else if rlo == rhi {
        if l[llo] == '~' {
            Ordering::Less
        } else {
            Ordering::Greater
        }
    } else if l[llo] == r[rlo] {
        let o = nondigits_cmp_at(l, llo + 1, lhi, r, rlo + 1, rhi);
        proof {
            assert(l@.subrange(llo as int, lhi as int).drop_first() =~= l@.subrange(
                llo as int + 1,
                lhi as int,
            ));
            assert(r@.subrange(rlo as int, rhi as int).drop_first() =~= r@.subrange(
                rlo as int + 1,
                rhi as int,
            ));
        }
        o
    } else {
        proof {
            if spec_char_key(l@[llo as int]) == spec_char_key(r@[rlo as int]) {
                lemma_char_key_injective(l@[llo as int], r@[rlo as int]);
            }
        }
        char_cmp(l[llo], r[rlo])
    }
}

fn lex_cmp_at(
    l: &Vec<char>,
    llo: usize,
    lhi: usize,
    r: &Vec<char>,
    rlo: usize,
    rhi: usize,
) -> (o: Ordering)
    requires
        llo <= lhi <= l@.len(),
        rlo <= rhi <= r@.len(),
    ensures
        o == spec_lex_cmp(
            l@.subrange(llo as int, lhi as int),
            r@.subrange(rlo as int, rhi as int),
        ),
    decreases lhi - llo,
{
    if llo == lhi && rlo == rhi {
        Ordering::Equal
    } else if llo == lhi {
        Ordering::Less
    } else if rlo == rhi {
        Ordering::Greater
    } else if (l[llo] as u32) < (r[rlo] as u32) {
        Ordering::Less
    } else if (l[llo] as u32) > (r[rlo] as u32) {
        Ordering::Greater
    } else {
        let o = lex_cmp_at(l, llo + 1, lhi, r, rlo + 1, rhi);
        proof {
            assert(l@.subrange(llo as int, lhi as int).drop_first() =~= l@.subrange(
                llo as int + 1,
                lhi as int,
            ));
            assert(r@.subrange(rlo as int, rhi as int).drop_first() =~= r@.subrange(
                rlo as int + 1,
                rhi as int,
            ));
        }
        o
    }
}

fn digits_cmp_at(
    l: &Vec<char>,
    llo: usize,
    lhi: usize,
    r: &Vec<char>,
    rlo: usize,
    rhi: usize,
) -> (o: Ordering)
    requires
        llo <= lhi <= l@.len(),
        rlo <= rhi <= r@.len(),
    ensures
        o == spec_digits_cmp(
            l@.subrange(llo as int, lhi as int),
            r@.subrange(rlo as int, rhi as int),
        ),
{
    let zl = zeros_run_at(l, llo, lhi);
    let zr = zeros_run_at(r, rlo, rhi);
    proof {
        assert(l@.subrange(llo as int, lhi as int).skip(zl as int) =~= l@.subrange(
            llo as int + zl,
            lhi as int,
        ));
        assert(r@.subrange(rlo as int, rhi as int).skip(zr as int) =~= r@.subrange(
            rlo as int + zr,
            rhi as int,
        ));
    }
    if lhi - llo - zl < rhi - rlo - zr {
        Ordering::Less
    } else if lhi - llo - zl > rhi - rlo - zr {
        Ordering::Greater
    } else {
        lex_cmp_at(l, llo + zl, lhi, r, rlo + zr, rhi)
    }
}

fn simple_cmp_at(
    l: &Vec<char>,
    llo: usize,
    lhi: usize,
    r: &Vec<char>,
    rlo: usize,
    rhi: usize,
) -> (o: Ordering)
    requires
        llo <= lhi <= l@.len(),
        rlo <= rhi <= r@.len(),
    ensures
        o == spec_simple_cmp(
            l@.subrange(llo as int, lhi as int),
            r@.subrange(rlo as int, rhi as int),
        ),
    decreases (lhi - llo) + (rhi - rlo),
{
    let ghost ls = l@.subrange(llo as int, lhi as int);
    let ghost rs = r@.subrange(rlo as int, rhi as int);
    let la = nondigit_run_at(l, llo, lhi);
    let ra = nondigit_run_at(r, rlo, rhi);
    proof {
        assert(ls.take(la as int) =~= l@.subrange(llo as int, llo as int + la));
        assert(rs.take(ra as int) =~= r@.subrange(rlo as int, rlo as int + ra));
        assert(ls.skip(la as int) =~= l@.subrange(llo as int + la, lhi as int));
        assert(rs.skip(ra as int) =~= r@.subrange(rlo as int + ra, rhi as int));
    }
    let alpha = nondigits_cmp_at(l, llo, llo + la, r, rlo, rlo + ra);
    match alpha {
        Ordering::Equal => {
            let ld = digit_run_at(l, llo + la, lhi);
            let rd = digit_run_at(r, rlo + ra, rhi);
            proof {
                assert(ls.skip(la as int).take(ld as int) =~= l@.subrange(
                    llo as int + la,
                    llo as int + la + ld,
                ));
                assert(rs.skip(ra as int).take(rd as int) =~= r@.subrange(
                    rlo as int + ra,
                    rlo as int + ra + rd,
                ));
                assert(ls.skip(la as int).skip(ld as int) =~= l@.subrange(
                    llo as int + la + ld,
                    lhi as int,
                ));
                assert(rs.skip(ra as int).skip(rd as int) =~= r@.subrange(
                    rlo as int + ra + rd,
                    rhi as int,
                ));
            }
            let digits = digits_cmp_at(l, llo + la, llo + la + ld, r, rlo + ra, rlo + ra + rd);
            match digits {
                Ordering::Equal => {
                    if llo + la + ld == lhi && rlo + ra + rd == rhi {
                        Ordering::Equal
                    } else {
                        simple_cmp_at(l, llo + la + ld, lhi, r, rlo + ra + rd, rhi)
                    }
                },
                o => o,
            }
        },
        o => o,
    }
}

/// Plain lexicographic comparison of two strings by code point, used to
/// order aggregate keys deterministically.
pub fn str_lex_cmp(a: &str, b: &str) -> (o: Ordering)
    ensures
        o == spec_lex_cmp(a@, b@),
{
    let va = chars_of(a);
    let vb = chars_of(b);
    let na = va.len();
    let nb = vb.len();
    proof {
        assert(va@.subrange(0, na as int) =~= a@);
        assert(vb@.subrange(0, nb as int) =~= b@);
    }
    lex_cmp_at(&va, 0, na, &vb, 0, nb)
}

/// Compare two version strings with distro semantics.
#[verifier::rlimit(60)]
pub fn compare_versions(left: &str, right: &str) -> (o: Ordering)
    ensures
        o == spec_version_cmp(left@, right@),
{
    let l = chars_of(left);
    let r = chars_of(right);
    let ln = l.len();
    let rn = r.len();
    proof {
        assert(l@.subrange(0, ln as int) =~= left@);
        assert(r@.subrange(0, rn as int) =~= right@);
    }
    let lc = until_char_at(&l, 0, ln, ':');
    let rc = until_char_at(&r, 0, rn, ':');
    // The epoch bounds and the remainder bounds within each character vector.
    let (lelo, lehi, lblo): (usize, usize, usize) = if lc < ln {
        (0, lc, lc + 1)
    } else {
        (0, 0, 0)
    };
    let (relo, rehi, rblo): (usize, usize, usize) = if rc < rn {
        (0, rc, rc + 1)
    } else {
        (0, 0, 0)
    };
    proof {
        lemma_until_char_le(left@, ':');
        lemma_until_char_le(right@, ':');
        if lc < ln {
            assert(spec_epoch_split(left@).0 =~= l@.subrange(lelo as int, lehi as int));
            assert(spec_epoch_split(left@).1 =~= l@.subrange(lblo as int, ln as int));
        } else {
            assert(spec_epoch_split(left@).0 =~= l@.subrange(0, 0));
            assert(spec_epoch_split(left@).1 =~= l@.subrange(0, ln as int));
        }
        if rc < rn {
            assert(spec_epoch_split(right@).0 =~= r@.subrange(relo as int, rehi as int));
            assert(spec_epoch_split(right@).1 =~= r@.subrange(rblo as int, rn as int));
        } else {
            assert(spec_epoch_split(right@).0 =~= r@.subrange(0, 0));
            assert(spec_epoch_split(right@).1 =~= r@.subrange(0, rn as int));
        }
    }
    let epochs = if lc < ln || rc < rn {
        digits_cmp_at(&l, lelo, lehi, &r, relo, rehi)
    } else {
        Ordering::Equal
    };
    proof {
        if !(lc < ln || rc < rn) {
            assert(spec_epoch_split(left@).0 =~= Seq::<char>::empty());
            assert(spec_epoch_split(right@).0 =~= Seq::<char>::empty());
            assert(spec_digits_cmp(spec_epoch_split(left@).0, spec_epoch_split(right@).0)
                == Ordering::Equal);
        }
    }
    match epochs {
        Ordering::Equal => {
            let ghost lrest = spec_epoch_split(left@).1;
            let ghost rrest = spec_epoch_split(right@).1;
            let lh = last_hyphen_at(&l, lblo, ln);
            let rh = last_hyphen_at(&r, rblo, rn);
            let (luhi, lrlo): (usize, usize) = match lh {
                Some(k) => (lblo + k, lblo + k + 1),
                None => (ln, ln),
            };
            let (ruhi, rrlo): (usize, usize) = match rh {
                Some(k) => (rblo + k, rblo + k + 1),
                None => (rn, rn),
            };
            proof {
                assert(lrest =~= l@.subrange(lblo as int, ln as int));
                assert(rrest =~= r@.subrange(rblo as int, rn as int));
                match lh {
                    Some(k) => {
                        assert(spec_revision_split(lrest).0 =~= l@.subrange(
                            lblo as int,
                            luhi as int,
                        ));
                        assert(spec_revision_split(lrest).1 =~= l@.subrange(
                            lrlo as int,
                            ln as int,
                        ));
                    },
                    None => {
                        assert(spec_revision_split(lrest).0 =~= l@.subrange(
                            lblo as int,
                            ln as int,
                        ));
                        assert(spec_revision_split(lrest).1 =~= l@.subrange(
                            ln as int,
                            ln as int,
                        ));
                    },
                }
                match rh {
                    Some(k) => {
                        assert(spec_revision_split(rrest).0 =~= r@.subrange(
                            rblo as int,
                            ruhi as int,
                        ));
                        assert(spec_revision_split(rrest).1 =~= r@.subrange(
                            rrlo as int,
                            rn as int,
                        ));
                    },
                    None => {
                        assert(spec_revision_split(rrest).0 =~= r@.subrange(
                            rblo as int,
                            rn as int,
                        ));
                        assert(spec_revision_split(rrest).1 =~= r@.subrange(
                            rn as int,
                            rn as int,
                        ));
                    },
                }
            }
            let upstream = simple_cmp_at(&l, lblo, luhi, &r, rblo, ruhi);
            match upstream {
                Ordering::Equal => simple_cmp_at(&l, lrlo, ln, &r, rrlo, rn),
                o => o,
            }
        },
        o => o,
    }
}

} // verus!
