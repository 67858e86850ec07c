//! Decoder for the stanza text format: a listing is a sequence of stanzas
//! separated by blank lines, and a stanza is a sequence of `Key: value`
//! lines where a line beginning with whitespace continues the previous
//! field's value.
use vstd::prelude::*;
use vstd::string::StrSliceExecFns;
use crate::error::Error;
use crate::version::{spec_until_char, lemma_until_char_le, lemma_until_char_from};

verus! {

/// The views of a sequence of owned strings.
pub open spec fn views_of(v: Seq<String>) -> Seq<Seq<char>> {
    v.map_values(|s: String| s@)
}

/// The input split at every occurrence of the separator; the separator is
/// not kept and a final piece is always present, so `n` separators give
/// `n + 1` pieces.
pub open spec fn spec_split_char(s: Seq<char>, c: char) -> Seq<Seq<char>>
    decreases s.len() via spec_split_char_decreases
{
    let k = spec_until_char(s, c) as int;
    if k == s.len() {
        seq![s]
    } else {
        seq![s.take(k)] + spec_split_char(s.skip(k + 1), c)
    }
}

#[via_fn]
proof fn spec_split_char_decreases(s: Seq<char>, c: char) {
    lemma_until_char_le(s, c);
}

/// The input split at every newline.
pub open spec fn spec_lines(s: Seq<char>) -> Seq<Seq<char>> {
    spec_split_char(s, '\n')
}

/// Number of leading non-blank lines: the extent of the first stanza.
pub open spec fn spec_line_group_len(lines: Seq<Seq<char>>) -> nat
    decreases lines.len(),
{
    if lines.len() == 0 {
        0
    } else if lines[0].len() == 0 {
        0
    } else {
        1 + spec_line_group_len(lines.drop_first())
    }
}

pub proof fn lemma_line_group_len_le(lines: Seq<Seq<char>>)
    ensures
        spec_line_group_len(lines) <= lines.len(),
    decreases lines.len(),
{
    if lines.len() > 0 && lines[0].len() > 0 {
        lemma_line_group_len_le(lines.drop_first());
    }
}

/// A scan that saw only non-blank lines before `k`, and a blank one at `k`
/// unless the listing ends there, has found the extent of the first stanza.
pub proof fn lemma_line_group_len_from(lines: Seq<Seq<char>>, k: nat)
    requires
        k <= lines.len(),
        forall|t: int| 0 <= t < k ==> lines[t].len() > 0,
        k == lines.len() || lines[k as int].len() == 0,
    ensures
        spec_line_group_len(lines) == k,
    decreases lines.len(),
{
    if k > 0 {
        assert(lines[0].len() > 0);
        lemma_line_group_len_from(lines.drop_first(), (k - 1) as nat);
    }
}

/// The lines of one stanza rejoined with single newlines.
pub open spec fn spec_join_lines(g: Seq<Seq<char>>) -> Seq<char>
    decreases g.len(),
{
    if g.len() == 0 {
        Seq::empty()
    } else if g.len() == 1 {
        g[0]
    } else {
        g[0] + seq!['\n'] + spec_join_lines(g.drop_first())
    }
}

proof fn lemma_join_lines_push(g: Seq<Seq<char>>, x: Seq<char>)
    requires
        g.len() > 0,
    ensures
        spec_join_lines(g.push(x)) == spec_join_lines(g) + seq!['\n'] + x,
    decreases g.len(),
{
    let h = g.push(x);
    assert(h[0] == g[0]);
    if g.len() == 1 {
        assert(h.drop_first() =~= seq![x]);
        assert(spec_join_lines(seq![x]) == x);
        assert(spec_join_lines(h) == h[0] + seq!['\n'] + spec_join_lines(h.drop_first()));
        assert(spec_join_lines(h) =~= g[0] + seq!['\n'] + x);
        assert(spec_join_lines(g) == g[0]);
    } else {
        lemma_join_lines_push(g.drop_first(), x);
        assert(h.drop_first() =~= g.drop_first().push(x));
        assert(spec_join_lines(h) == h[0] + seq!['\n'] + spec_join_lines(h.drop_first()));
        assert(spec_join_lines(g) == g[0] + seq!['\n'] + spec_join_lines(g.drop_first()));
        assert(spec_join_lines(h) =~= spec_join_lines(g) + seq!['\n'] + x);
    }
}

/// The stanza texts of a listing already split into lines: maximal groups of
/// non-blank lines, each rejoined with newlines.
pub open spec fn spec_stanzas_of_lines(lines: Seq<Seq<char>>) -> Seq<Seq<char>>
    decreases lines.len() via spec_stanzas_of_lines_decreases
{
    if lines.len() == 0 {
        Seq::empty()
    } else if lines[0].len() == 0 {
        spec_stanzas_of_lines(lines.drop_first())
    } else {
        let k = spec_line_group_len(lines) as int;
        if k == lines.len() {
            seq![spec_join_lines(lines)]
        } else {
            seq![spec_join_lines(lines.take(k))] + spec_stanzas_of_lines(lines.skip(k + 1))
        }
    }
}

#[via_fn]
proof fn spec_stanzas_of_lines_decreases(lines: Seq<Seq<char>>) {
    lemma_line_group_len_le(lines);
}

/// The stanza texts of a whole listing.
pub open spec fn spec_stanzas(s: Seq<char>) -> Seq<Seq<char>> {
    spec_stanzas_of_lines(spec_lines(s))
}

/// Index of the first occurrence of `c` at or after `from`, or the length if
/// there is none.
fn find_char(text: &str, from: usize, n: usize, c: char) -> (j: usize)
    requires
        from <= n,
        n == text@.len(),
    ensures
        from <= j <= n,
        spec_until_char(text@.skip(from as int), c) == j - from,
        j < n ==> text@[j as int] == c,
        forall|i: int| from <= i < j ==> text@[i] != c,
{
    let mut j = from;
    while j < n && text.get_char(j) != c
        invariant
            from <= j <= n,
            n == text@.len(),
            forall|i: int| from <= i < j ==> text@[i] != c,
        decreases n - j,
    {
        j = j + 1;
    }
    proof {
        let s = text@.skip(from as int);
        assert(forall|i: int| 0 <= i < j - from ==> s[i] == text@[from + i] && s[i] != c);
        lemma_until_char_from(s, c, (j - from) as nat);
    }
    j
}

/// The input split at every occurrence of the separator.
pub(crate) fn split_char(text: &str, c: char) -> (pieces: Vec<String>)
    ensures
        views_of(pieces@) == spec_split_char(text@, c),
{
    let n = text.unicode_len();
    let mut acc: Vec<String> = Vec::new();
    let mut pos: usize = 0;
    let mut fin = false;
    proof {
        assert(text@.skip(0) =~= text@);
        assert(views_of(acc@) =~= Seq::<Seq<char>>::empty());
        assert(Seq::<Seq<char>>::empty() + spec_split_char(text@, c) =~= spec_split_char(
            text@,
            c,
        ));
    }
    while !fin
        invariant
            pos <= n,
            n == text@.len(),
            !fin ==> spec_split_char(text@, c) == views_of(acc@) + spec_split_char(
                text@.skip(pos as int),
                c,
            ),
            fin ==> views_of(acc@) == spec_split_char(text@, c),
        decreases n - pos + (if fin { 0int } else { 1int }),
    {
        let ghost acc0 = acc@;
        let ghost pos0 = pos as int;
        let j = find_char(text, pos, n, c);
        let piece = text.substring_char(pos, j).to_owned();
        acc.push(piece);
        proof {
            assert(views_of(acc@) =~= views_of(acc0).push(text@.subrange(pos0, j as int)));
        }
        if j < n {
            pos = j + 1;
        } else {
            fin = true;
        }
        proof {
            let s = text@.skip(pos0);
            let k = spec_until_char(s, c) as int;
            assert(k == j - pos0);
            if j < n {
                assert(k < s.len());
                assert(s.take(k) =~= text@.subrange(pos0, j as int));
                assert(s.skip(k + 1) =~= text@.skip(j + 1));
                assert(spec_split_char(s, c) == seq![s.take(k)] + spec_split_char(
                    s.skip(k + 1),
                    c,
                ));
                assert(views_of(acc@) + spec_split_char(text@.skip(pos as int), c)
                    =~= views_of(acc0) + spec_split_char(s, c));
            } else {
                assert(k == s.len());
                assert(s =~= text@.subrange(pos0, j as int));
                assert(spec_split_char(s, c) == seq![s]);
                assert(views_of(acc@) =~= views_of(acc0) + spec_split_char(s, c));
            }
        }
    }
    acc
}

/// The lines of a listing, split at every newline.
fn lines_of(text: &str) -> (lines: Vec<String>)
    ensures
        views_of(lines@) == spec_lines(text@),
{
    split_char(text, '\n')
}

/// Decode a listing into its stanza texts: maximal runs of non-blank lines,
/// in order, each rejoined with newlines.
pub fn decode_stanzas(text: &str) -> (res: Vec<String>)
    ensures
        views_of(res@) == spec_stanzas(text@),
{
    let lines = lines_of(text);
    let m = lines.len();
    let ghost lv = views_of(lines@);
    let mut out: Vec<String> = Vec::new();
    let mut i: usize = 0;
    proof {
        assert(lv.skip(0) =~= lv);
        assert(views_of(out@) =~= Seq::<Seq<char>>::empty());
        assert(Seq::<Seq<char>>::empty() + spec_stanzas_of_lines(lv) =~= spec_stanzas_of_lines(
            lv,
        ));
    }
    while i < m
        invariant
            i <= m,
            m == lines@.len(),
            lv == views_of(lines@),
            spec_stanzas_of_lines(lv) == views_of(out@) + spec_stanzas_of_lines(
                lv.skip(i as int),
            ),
        decreases m - i,
    {
        let ghost out0 = out@;
        let ghost i0 = i as int;
        if lines[i].as_str().is_empty() {
            proof {
                assert(lv.skip(i0).drop_first() =~= lv.skip(i0 + 1));
            }
            i = i + 1;
        } else {
            let mut j = i + 1;
            while j < m && !lines[j].as_str().is_empty()
                invariant
                    i < j <= m,
                    m == lines@.len(),
                    lv == views_of(lines@),
                    forall|t: int| i <= t < j ==> lv[t].len() > 0,
                decreases m - j,
            {
                j = j + 1;
            }
            proof {
                let s = lv.skip(i0);
                assert(forall|t: int| 0 <= t < j - i0 ==> s[t] == lv[i0 + t] && s[t].len() > 0);
                if j < m {
                    assert(lv[j as int].len() == 0);
                }
                lemma_line_group_len_from(s, (j - i0) as nat);
            }
            let mut st: String = lines[i].clone();
            let mut t = i + 1;
            proof {
                assert(lv.subrange(i0, i0 + 1) =~= seq![lv[i0]]);
            }
            while t < j
                invariant
                    i < t <= j <= m,
                    m == lines@.len(),
                    lv == views_of(lines@),
                    st@ == spec_join_lines(lv.subrange(i as int, t as int)),
                decreases j - t,
            {
                st.append("\n");
                st.append(lines[t].as_str());
                proof {
                    reveal_strlit("\n");
                    assert("\n"@ =~= seq!['\n']);
                    lemma_join_lines_push(lv.subrange(i as int, t as int), lv[t as int]);
                    assert(lv.subrange(i as int, t as int + 1) =~= lv.subrange(
                        i as int,
                        t as int,
                    ).push(lv[t as int]));
                }
                t = t + 1;
            }
            out.push(st);
            if j < m {
                i = j + 1;
            } else {
                i = m;
            }
            proof {
                let s = lv.skip(i0);
                let k = spec_line_group_len(s) as int;
                assert(k == j - i0);
                if j < m {
                    assert(s.take(k) =~= lv.subrange(i0, j as int));
                    assert(s.skip(k + 1) =~= lv.skip(j + 1));
                    assert(spec_stanzas_of_lines(s) == seq![spec_join_lines(s.take(k))]
                        + spec_stanzas_of_lines(s.skip(k + 1)));
                } else {
                    assert(s =~= lv.subrange(i0, m as int));
                    assert(spec_stanzas_of_lines(s) == seq![spec_join_lines(s)]);
                    assert(lv.skip(m as int) =~= Seq::<Seq<char>>::empty());
                }
                assert(views_of(out@) =~= views_of(out0).push(st@));
            }
        }
    }
    proof {
        assert(lv.skip(m as int) =~= Seq::<Seq<char>>::empty());
    }
    out
}

/// A well-formed stanza text: at least one line, none of them blank.
pub open spec fn spec_stanza_text_wf(t: Seq<char>) -> bool {
    forall|j: int| 0 <= j < spec_lines(t).len() ==> #[trigger] spec_lines(t)[j].len() > 0
}

/// Stanza texts joined by blank lines into one listing.
pub open spec fn spec_join_stanzas(ts: Seq<Seq<char>>) -> Seq<char>
    decreases ts.len(),
{
    if ts.len() == 0 {
        Seq::empty()
    } else if ts.len() == 1 {
        ts[0]
    } else {
        ts[0] + seq!['\n', '\n'] + spec_join_stanzas(ts.drop_first())
    }
}

/// Splitting distributes over a separator: the lines of `a`, a newline, `b`
/// are the lines of `a` followed by the lines of `b`.
proof fn lemma_lines_concat(a: Seq<char>, b: Seq<char>)
    ensures
        spec_lines(a + seq!['\n'] + b) == spec_lines(a) + spec_lines(b),
    decreases a.len(),
{
    let s = a + seq!['\n'] + b;
    let ka = spec_until_char(a, '\n') as int;
    lemma_until_char_le(a, '\n');
    crate::version::lemma_until_char_props(a, '\n');
    assert(forall|i: int| 0 <= i < ka ==> s[i] == a[i] && s[i] != '\n');
    if ka == a.len() {
        assert(s[ka] == '\n');
        lemma_until_char_from(s, '\n', ka as nat);
        assert(s.take(ka) =~= a);
        assert(s.skip(ka + 1) =~= b);
        assert(spec_lines(s) == seq![a] + spec_lines(b));
        assert(spec_lines(a) == seq![a]);
        assert(seq![a] + spec_lines(b) =~= spec_lines(a) + spec_lines(b));
    } else {
        assert(a[ka] == '\n');
        assert(s[ka] == a[ka]);
        lemma_until_char_from(s, '\n', ka as nat);
        assert(s.take(ka) =~= a.take(ka));
        assert(s.skip(ka + 1) =~= a.skip(ka + 1) + seq!['\n'] + b);
        lemma_lines_concat(a.skip(ka + 1), b);
        assert(spec_lines(s) == seq![a.take(ka)] + (spec_lines(a.skip(ka + 1)) + spec_lines(
            b,
        )));
        assert(spec_lines(a) == seq![a.take(ka)] + spec_lines(a.skip(ka + 1)));
        assert(seq![a.take(ka)] + (spec_lines(a.skip(ka + 1)) + spec_lines(b)) =~= spec_lines(
            a,
        ) + spec_lines(b));
    }
}

proof fn lemma_lines_nonempty(t: Seq<char>)
    ensures
        spec_lines(t).len() >= 1,
{
    lemma_until_char_le(t, '\n');
}

/// Rejoining the lines of a text with newlines gives the text back.
proof fn lemma_join_lines_of_lines(t: Seq<char>)
    ensures
        spec_join_lines(spec_lines(t)) == t,
    decreases t.len(),
{
    let k = spec_until_char(t, '\n') as int;
    lemma_until_char_le(t, '\n');
    crate::version::lemma_until_char_props(t, '\n');
    if k == t.len() {
        assert(spec_lines(t) == seq![t]);
        assert(spec_join_lines(seq![t]) == t);
    } else {
        lemma_join_lines_of_lines(t.skip(k + 1));
        lemma_lines_nonempty(t.skip(k + 1));
        let rest = spec_lines(t.skip(k + 1));
        assert(spec_lines(t) == seq![t.take(k)] + rest);
        assert((seq![t.take(k)] + rest).len() >= 2);
        assert((seq![t.take(k)] + rest)[0] == t.take(k));
        assert((seq![t.take(k)] + rest).drop_first() =~= rest);
        assert(spec_join_lines(seq![t.take(k)] + rest) == t.take(k) + seq!['\n']
            + spec_join_lines(rest));
        assert(t.take(k) + seq!['\n'] + t.skip(k + 1) =~= t);
    }
}

/// Grouping after a blank line: a first group of non-blank lines, a blank
/// line, and a remainder decode independently.
proof fn lemma_stanzas_of_lines_split(l1: Seq<Seq<char>>, l2: Seq<Seq<char>>)
    requires
        l1.len() >= 1,
        forall|j: int| 0 <= j < l1.len() ==> #[trigger] l1[j].len() > 0,
    ensures
        spec_stanzas_of_lines(l1 + seq![Seq::<char>::empty()] + l2) == seq![
            spec_join_lines(l1),
        ] + spec_stanzas_of_lines(l2),
{
    let all = l1 + seq![Seq::<char>::empty()] + l2;
    assert(forall|t: int| 0 <= t < l1.len() ==> all[t] == l1[t] && #[trigger] all[t].len() > 0);
    assert(all[l1.len() as int].len() == 0);
    lemma_line_group_len_from(all, l1.len());
    let k = l1.len() as int;
    assert(all[0].len() > 0);
    assert(k < all.len());
    assert(all.take(k) =~= l1);
    assert(all.skip(k + 1) =~= l2);
    assert(spec_stanzas_of_lines(all) == seq![spec_join_lines(l1)] + spec_stanzas_of_lines(l2));
}

/// A single well-formed stanza text decodes to itself alone.
proof fn lemma_stanzas_single(t: Seq<char>)
    requires
        spec_stanza_text_wf(t),
    ensures
        spec_stanzas(t) == seq![t],
{
    lemma_lines_nonempty(t);
    let lines = spec_lines(t);
    lemma_line_group_len_from(lines, lines.len());
    lemma_join_lines_of_lines(t);
    assert(lines[0].len() > 0);
    assert(spec_stanzas_of_lines(lines) == seq![spec_join_lines(lines)]);
}

/// Decoding is the inverse of joining: a listing built from well-formed
/// stanza texts joined by blank lines decodes to exactly those texts, in
/// order.
pub proof fn lemma_decode_of_joined_stanzas(ts: Seq<Seq<char>>)
    requires
        forall|i: int| 0 <= i < ts.len() ==> spec_stanza_text_wf(#[trigger] ts[i]),
    ensures
        spec_stanzas(spec_join_stanzas(ts)) == ts,
    decreases ts.len(),
{
    if ts.len() == 0 {
        assert(spec_until_char(Seq::<char>::empty(), '\n') == 0);
        assert(spec_lines(Seq::<char>::empty()) == seq![Seq::<char>::empty()]);
        assert(seq![Seq::<char>::empty()].drop_first() =~= Seq::<Seq<char>>::empty());
        assert(spec_stanzas_of_lines(Seq::<Seq<char>>::empty()) == Seq::<Seq<char>>::empty());
        assert(spec_stanzas(spec_join_stanzas(ts)) =~= ts);
    } else if ts.len() == 1 {
        lemma_stanzas_single(ts[0]);
        assert(spec_stanzas(spec_join_stanzas(ts)) =~= ts);
    } else {
        let rest = ts.drop_first();
        let t0 = ts[0];
        let tail = spec_join_stanzas(rest);
        assert(spec_join_stanzas(ts) == t0 + seq!['\n', '\n'] + tail);
        assert(t0 + seq!['\n', '\n'] + tail =~= t0 + seq!['\n'] + (seq!['\n'] + tail));
        lemma_lines_concat(t0, seq!['\n'] + tail);
        assert(seq!['\n'] + tail =~= Seq::<char>::empty() + seq!['\n'] + tail);
        lemma_lines_concat(Seq::<char>::empty(), tail);
        assert(spec_until_char(Seq::<char>::empty(), '\n') == 0);
        assert(spec_lines(Seq::<char>::empty()) == seq![Seq::<char>::empty()]);
        assert(spec_lines(spec_join_stanzas(ts)) == spec_lines(t0) + (seq![
            Seq::<char>::empty(),
        ] + spec_lines(tail)));
        lemma_lines_nonempty(t0);
        assert(spec_lines(t0) + (seq![Seq::<char>::empty()] + spec_lines(tail)) =~= spec_lines(
            t0,
        ) + seq![Seq::<char>::empty()] + spec_lines(tail));
        lemma_stanzas_of_lines_split(spec_lines(t0), spec_lines(tail));
        lemma_join_lines_of_lines(t0);
        assert(forall|i: int| 0 <= i < rest.len() ==> spec_stanza_text_wf(#[trigger] rest[i]));
        lemma_decode_of_joined_stanzas(rest);
        assert(spec_stanzas(spec_join_stanzas(ts)) == seq![t0] + spec_stanzas(tail));
        assert(seq![t0] + rest =~= ts);
    }
}

/// One `Key: value` field of a stanza.
#[derive(Clone, Debug, Eq, PartialEq)]
pub struct Entry {
    pub key: String,
    pub value: String,
}

/// The views of a sequence of entries.
pub open spec fn entry_views(v: Seq<Entry>) -> Seq<(Seq<char>, Seq<char>)> {
    v.map_values(|e: Entry| (e.key@, e.value@))
}

/// A continuation line starts with a space or tab and continues the previous
/// field's value.
pub open spec fn spec_is_continuation(line: Seq<char>) -> bool {
    line.len() > 0 && (line[0] == ' ' || line[0] == '\t')
}

pub open spec fn spec_has_colon(line: Seq<char>) -> bool {
    spec_until_char(line, ':') < line.len()
}

/// The key and value of a `Key: value` line: the key is everything before
/// the first colon, the value everything after it, less one leading space.
pub open spec fn spec_entry_of_line(line: Seq<char>) -> (Seq<char>, Seq<char>) {
    let k = spec_until_char(line, ':') as int;
    let raw = line.skip(k + 1);
    (line.take(k), if raw.len() > 0 && raw[0] == ' ' {
        raw.drop_first()
    } else {
        raw
    })
}

/// The fields collected from the lines of one stanza, given the fields
/// already collected: a continuation line is concatenated onto the previous
/// field's value, any other line must be a `Key: value` line, and a
/// continuation before any field or a line without a colon is malformed.
pub open spec fn spec_collect_entries(
    lines: Seq<Seq<char>>,
    acc: Seq<(Seq<char>, Seq<char>)>,
) -> Option<Seq<(Seq<char>, Seq<char>)>>
    decreases lines.len(),
{
    if lines.len() == 0 {
        Some(acc)
    } else {
        let line = lines[0];
        if spec_is_continuation(line) {
            if acc.len() == 0 {
                None
            } else {
                let last = acc[acc.len() - 1];
                spec_collect_entries(
                    lines.drop_first(),
                    acc.update(acc.len() - 1, (last.0, last.1 + line.drop_first())),
                )
            }
        } else if spec_has_colon(line) {
            spec_collect_entries(lines.drop_first(), acc.push(spec_entry_of_line(line)))
        } else {
            None
        }
    }
}

/// A continuation line at the end of a stanza is concatenated onto the
/// previous field's value, and changes nothing else.
pub proof fn lemma_continuation_concat(
    lines: Seq<Seq<char>>,
    l: Seq<char>,
    acc: Seq<(Seq<char>, Seq<char>)>,
)
    requires
        spec_is_continuation(l),
        spec_collect_entries(lines, acc) is Some,
        spec_collect_entries(lines, acc).unwrap().len() > 0,
    ensures
        ({
            let es = spec_collect_entries(lines, acc).unwrap();
            let last = es[es.len() - 1];
            spec_collect_entries(lines.push(l), acc) == Option::Some(
                es.update(es.len() - 1, (last.0, last.1 + l.drop_first())),
            )
        }),
    decreases lines.len(),
{
    if lines.len() == 0 {
        assert(lines.push(l) =~= seq![l]);
        assert(seq![l].drop_first() =~= Seq::<Seq<char>>::empty());
        let es = acc;
        let last = es[es.len() - 1];
        assert(spec_collect_entries(seq![l], acc) == spec_collect_entries(
            seq![l].drop_first(),
            acc.update(acc.len() - 1, (last.0, last.1 + l.drop_first())),
        ));
    } else {
        assert(lines.push(l)[0] == lines[0]);
        assert(lines.push(l).drop_first() =~= lines.drop_first().push(l));
        let line = lines[0];
        if spec_is_continuation(line) {
            let last = acc[acc.len() - 1];
            lemma_continuation_concat(
                lines.drop_first(),
                l,
                acc.update(acc.len() - 1, (last.0, last.1 + line.drop_first())),
            );
        } else {
            lemma_continuation_concat(
                lines.drop_first(),
                l,
                acc.push(spec_entry_of_line(line)),
            );
        }
    }
}

/// The fields of one stanza text, or nothing if a line is malformed.
pub open spec fn spec_entries(s: Seq<char>) -> Option<Seq<(Seq<char>, Seq<char>)>> {
    spec_collect_entries(spec_lines(s), Seq::empty())
}

/// Parse one stanza text into its fields.
pub fn parse_entries(stanza: &str) -> (r: Result<Vec<Entry>, Error>)
    ensures
        r is Ok <==> spec_entries(stanza@) is Some,
        r is Ok ==> entry_views(r.unwrap()@) == spec_entries(stanza@).unwrap(),
        r is Err ==> r.unwrap_err() is Decode,
{
    let lines = lines_of(stanza);
    let m = lines.len();
    let ghost lv = views_of(lines@);
    let mut acc: Vec<Entry> = Vec::new();
    let mut i: usize = 0;
    proof {
        assert(lv.skip(0) =~= lv);
        assert(entry_views(acc@) =~= Seq::<(Seq<char>, Seq<char>)>::empty());
    }
    while i < m
        invariant
            i <= m,
            m == lines@.len(),
            lv == views_of(lines@),
            lv == spec_lines(stanza@),
            spec_collect_entries(lv, Seq::empty()) == spec_collect_entries(
                lv.skip(i as int),
                entry_views(acc@),
            ),
        decreases m - i,
    {
        let ghost acc0 = acc@;
        let ghost i0 = i as int;
        let line = &lines[i];
        let ln = line.as_str().unicode_len();
        proof {
            assert(lv.skip(i0).drop_first() =~= lv.skip(i0 + 1));
        }
        if ln > 0 && {
            let c0 = line.as_str().get_char(0);
            c0 == ' ' || c0 == '\t'
        } {
            if acc.len() == 0 {
                proof {
                    assert(lv.skip(i0)[0] == lv[i0]);
                    assert(spec_is_continuation(lv[i0]));
                    assert(entry_views(acc@).len() == 0);
                    assert(spec_collect_entries(lv.skip(i0), entry_views(acc@)) is None);
                }
                return Err(
                    Error::Decode(String::from_str("continuation line before any field")),
                );
            }
            let rest = line.as_str().substring_char(1, ln).to_owned();
            let mut last = acc.pop().unwrap();
            last.value.append(rest.as_str());
            acc.push(last);
            proof {
                let lview = lv[i0];
                let last0 = entry_views(acc0)[acc0.len() - 1];
                assert(lview.drop_first() =~= rest@);
                assert(entry_views(acc@) =~= entry_views(acc0).update(
                    acc0.len() - 1,
                    (last0.0, last0.1 + lview.drop_first()),
                ));
            }
        } else {
            let j = find_char(line.as_str(), 0, ln, ':');
            proof {
                assert(line@.skip(0) =~= line@);
            }
            if j == ln {
                proof {
                    assert(lv.skip(i0)[0] == lv[i0]);
                    assert(!spec_is_continuation(lv[i0]));
                    assert(!spec_has_colon(lv[i0]));
                    assert(spec_collect_entries(lv.skip(i0), entry_views(acc@)) is None);
                }
                return Err(Error::Decode(String::from_str("field line without a colon")));
            }
            let key = line.as_str().substring_char(0, j).to_owned();
            let vstart = if j + 1 < ln && line.as_str().get_char(j + 1) == ' ' {
                j + 2
            } else {
                j + 1
            };
            let value = line.as_str().substring_char(vstart, ln).to_owned();
            acc.push(Entry { key, value });
            proof {
                let lview = lv[i0];
                let e = spec_entry_of_line(lview);
                let raw = lview.skip(j + 1);
                assert(e.0 =~= key@);
                if j + 1 < ln && lview[j + 1] == ' ' {
                    assert(raw.drop_first() =~= lview.skip(j + 2));
                    assert(e.1 =~= value@);
                } else {
                    assert(e.1 =~= value@);
                }
                assert(entry_views(acc@) =~= entry_views(acc0).push(e));
            }
        }
        i = i + 1;
    }
    proof {
        assert(lv.skip(m as int) =~= Seq::<Seq<char>>::empty());
    }
    Ok(acc)
}

} // verus!
