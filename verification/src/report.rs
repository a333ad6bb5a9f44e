//! The reporter: drains the table, sorts the entries by byte-lexicographic
//! key order, and renders one `key: min/average/max` line per key.

use vstd::prelude::*;
use crate::codec::{encode_tenths, render_tenths, COLON, SLASH, SPACE, TERM};
use crate::record::{trunc_div, Record, Stats};
use crate::table::{lemma_sum_counts_remove, sum_counts, table_wf, Table};

verus! {

/// Strict byte-lexicographic order: a proper prefix comes first, otherwise
/// the first differing byte decides.
pub open spec fn lex_lt(a: Seq<u8>, b: Seq<u8>) -> bool
    decreases b.len(),
{
    if b.len() == 0 {
        false
    } else if a.len() == 0 {
        true
    } else if a[0] < b[0] {
        true
    } else if a[0] > b[0] {
        false
    } else {
        lex_lt(a.skip(1), b.skip(1))
    }
}

/// `lex_lt` is asymmetric, and unequal sequences are always ordered one way
/// or the other: keys being unique, any two entries are strictly comparable.
pub proof fn lemma_lex_total(a: Seq<u8>, b: Seq<u8>)
    ensures
        lex_lt(a, b) ==> !lex_lt(b, a) && a != b,
        a != b ==> lex_lt(a, b) || lex_lt(b, a),
    decreases a.len() + b.len(),
{
    if a.len() == 0 && b.len() == 0 {
        assert(a =~= b);
    } else if a.len() == 0 || b.len() == 0 {
    } else {
        lemma_lex_total(a.skip(1), b.skip(1));
        if a[0] == b[0] && a.skip(1) == b.skip(1) {
            assert forall|i: int| 0 <= i < a.len() implies a[i] == b[i] by {
                if i > 0 {
                    assert(a[i] == a.skip(1)[i - 1] && b[i] == b.skip(1)[i - 1]);
                }
            }
            assert(a =~= b);
        }
    }
}

/// `lex_lt` is transitive.
pub proof fn lemma_lex_trans(a: Seq<u8>, b: Seq<u8>, c: Seq<u8>)
    requires
        lex_lt(a, b),
        lex_lt(b, c),
    ensures
        lex_lt(a, c),
    decreases a.len() + b.len() + c.len(),
{
    if a.len() == 0 || b.len() == 0 || c.len() == 0 {
    } else if a[0] == b[0] && b[0] == c[0] {
        lemma_lex_trans(a.skip(1), b.skip(1), c.skip(1));
    }
}

/// Equal prefixes do not decide the order: it is settled past them.
proof fn lemma_lex_skip(a: Seq<u8>, b: Seq<u8>, i: int)
    requires
        0 <= i <= a.len(),
        i <= b.len(),
        forall|j: int| 0 <= j < i ==> a[j] == b[j],
    ensures
        lex_lt(a, b) == lex_lt(a.skip(i), b.skip(i)),
    decreases i,
{
    if i == 0 {
        assert(a.skip(0) =~= a);
        assert(b.skip(0) =~= b);
    } else {
        assert forall|j: int| 0 <= j < i - 1 implies a.skip(1)[j] == b.skip(1)[j] by {
            assert(a.skip(1)[j] == a[j + 1]);
        }
        lemma_lex_skip(a.skip(1), b.skip(1), i - 1);
        assert(a.skip(1).skip(i - 1) =~= a.skip(i));
        assert(b.skip(1).skip(i - 1) =~= b.skip(i));
        assert(a[0] == b[0]);
    }
}

/// Compares two byte strings in lexicographic order.
pub fn lex_lt_bytes(a: &[u8], b: &[u8]) -> (r: bool)
    ensures
        r == lex_lt(a@, b@),
{
    let alen = a.len();
    let blen = b.len();
    let mut i: usize = 0;
    while i < alen && i < blen
        invariant
            i <= alen,
            i <= blen,
            alen == a@.len(),
            blen == b@.len(),
            forall|j: int| 0 <= j < i ==> a@[j] == b@[j],
        decreases alen - i,
    {
        if a[i] < b[i] {
            proof {
                lemma_lex_skip(a@, b@, i as int);
            }
            return true;
        }
        if a[i] > b[i] {
            proof {
                lemma_lex_skip(a@, b@, i as int);
            }
            return false;
        }
        i = i + 1;
    }
    proof {
        lemma_lex_skip(a@, b@, i as int);
    }
    alen < blen
}

/// The spec-level image of a drained entry list: each key's bytes with the
/// image of its record.
pub open spec fn entry_views(es: Seq<(Vec<u8>, Record)>) -> Seq<(Seq<u8>, Stats)> {
    es.map_values(|p: (Vec<u8>, Record)| (p.0@, p.1.model()))
}

/// Keys strictly ascending in byte-lexicographic order.
pub open spec fn strictly_sorted(es: Seq<(Seq<u8>, Stats)>) -> bool {
    forall|i: int, j: int| 0 <= i < j < es.len() ==> lex_lt(es[i].0, es[j].0)
}

/// The entry list holds exactly the table's bindings: every entry is a
/// binding of `m`, and every key of `m` appears.
pub open spec fn entries_match(m: Map<Seq<u8>, Stats>, es: Seq<(Seq<u8>, Stats)>) -> bool {
    &&& forall|i: int|
        0 <= i < es.len() ==> m.dom().contains(#[trigger] es[i].0) && m[es[i].0] == es[i].1
    &&& forall|k: Seq<u8>|
        m.dom().contains(k) ==> exists|i: int| 0 <= i < es.len() && (#[trigger] es[i].0) == k
}

/// The report's entry order: the table's bindings, sorted by key.
pub open spec fn is_report_of(m: Map<Seq<u8>, Stats>, es: Seq<(Seq<u8>, Stats)>) -> bool {
    entries_match(m, es) && strictly_sorted(es)
}

/// Behind its head, a report entry list is the report of the table less the
/// head's key.
proof fn lemma_report_tail(m: Map<Seq<u8>, Stats>, es: Seq<(Seq<u8>, Stats)>)
    requires
        is_report_of(m, es),
        es.len() > 0,
    ensures
        is_report_of(m.remove(es[0].0), es.skip(1)),
{
    let k = es[0].0;
    let m1 = m.remove(k);
    let t = es.skip(1);
    assert forall|i: int| 0 <= i < t.len() implies m1.dom().contains(#[trigger] t[i].0)
        && m1[t[i].0] == t[i].1 by {
        assert(t[i] == es[i + 1]);
        assert(lex_lt(k, es[i + 1].0));
        lemma_lex_total(k, es[i + 1].0);
    }
    assert forall|kx: Seq<u8>| m1.dom().contains(kx) implies exists|i: int|
        0 <= i < t.len() && (#[trigger] t[i].0) == kx by {
        let i = choose|i: int| 0 <= i < es.len() && es[i].0 == kx;
        assert(i > 0);
        assert(t[i - 1].0 == kx);
    }
    assert forall|i: int, j: int| 0 <= i < j < t.len() implies lex_lt(t[i].0, t[j].0) by {
        assert(t[i] == es[i + 1] && t[j] == es[j + 1]);
    }
}

/// A table has exactly one sorted entry list: whatever order the hash table
/// hands its entries out in, the report that follows is fixed.
pub proof fn lemma_report_unique(
    m: Map<Seq<u8>, Stats>,
    es1: Seq<(Seq<u8>, Stats)>,
    es2: Seq<(Seq<u8>, Stats)>,
)
    requires
        is_report_of(m, es1),
        is_report_of(m, es2),
    ensures
        es1 == es2,
    decreases es1.len(),
{
    if es1.len() == 0 {
        if es2.len() > 0 {
            assert(m.dom().contains(es2[0].0));
        }
        assert(es1 =~= es2);
    } else if es2.len() == 0 {
        assert(m.dom().contains(es1[0].0));
    } else {
        let k1 = es1[0].0;
        let k2 = es2[0].0;
        assert(m.dom().contains(k1) && m.dom().contains(k2));
        if k1 != k2 {
            lemma_lex_total(k1, k2);
            // Whichever of the two heads is the later key must still appear
            // in the other list, behind its head, contradicting sortedness.
            let i1 = choose|i: int| 0 <= i < es1.len() && es1[i].0 == k2;
            let i2 = choose|i: int| 0 <= i < es2.len() && es2[i].0 == k1;
            assert(es1[i1].0 == k2 && es2[i2].0 == k1);
            if lex_lt(k1, k2) {
                assert(i2 > 0);
                assert(lex_lt(k2, es2[i2].0));
                lemma_lex_trans(k1, k2, k1);
                lemma_lex_total(k1, k1);
            } else {
                assert(i1 > 0);
                assert(lex_lt(k1, es1[i1].0));
                lemma_lex_trans(k2, k1, k2);
                lemma_lex_total(k2, k2);
            }
        }
        let k = k1;
        let m1 = m.remove(k);
        let t1 = es1.skip(1);
        let t2 = es2.skip(1);
        lemma_report_tail(m, es1);
        assert(es2[0].0 == k);
        lemma_report_tail(m, es2);
        lemma_report_unique(m1, t1, t2);
        assert(es2[0].1 == m[k]);
        assert forall|i: int| 0 <= i < es1.len() implies es1[i] == es2[i] by {
            if i > 0 {
                assert(es1[i] == t1[i - 1]);
                assert(es2[i] == t2[i - 1]);
            } else {
                assert(es1[0].0 == es2[0].0 && es1[0].1 == es2[0].1);
            }
        }
        assert(es1 =~= es2);
    }
}

/// The total update count over an entry list: the sum of its count column.
pub open spec fn sum_entry_counts(es: Seq<(Seq<u8>, Stats)>) -> int
    decreases es.len(),
{
    if es.len() == 0 {
        0
    } else {
        es[0].1.3 + sum_entry_counts(es.skip(1))
    }
}

/// The report drops nothing: the counts printed in any report entry list of
/// a table sum to the table's own total.
pub proof fn lemma_report_total_count(m: Map<Seq<u8>, Stats>, es: Seq<(Seq<u8>, Stats)>)
    requires
        m.dom().finite(),
        is_report_of(m, es),
    ensures
        sum_entry_counts(es) == sum_counts(m),
    decreases es.len(),
{
    if es.len() == 0 {
        assert forall|k: Seq<u8>| !m.dom().contains(k) by {
            if m.dom().contains(k) {
                let i = choose|i: int| 0 <= i < es.len() && es[i].0 == k;
            }
        }
        assert(m.dom() =~= Set::empty());
    } else {
        let k = es[0].0;
        lemma_report_tail(m, es);
        lemma_sum_counts_remove(m, k);
        lemma_report_total_count(m.remove(k), es.skip(1));
    }
}

/// Every entry of `xs` occurs somewhere in `ys`.
pub open spec fn entries_subset_of(xs: Seq<(Seq<u8>, Stats)>, ys: Seq<(Seq<u8>, Stats)>) -> bool {
    forall|i: int| 0 <= i < xs.len() ==> ys.contains(#[trigger] xs[i])
}

/// Every entry of `ys` occurs in `xs` or in `zs`.
pub open spec fn entries_covered_by(
    ys: Seq<(Seq<u8>, Stats)>,
    xs: Seq<(Seq<u8>, Stats)>,
    zs: Seq<(Seq<u8>, Stats)>,
) -> bool {
    forall|j: int|
        0 <= j < ys.len() ==> xs.contains(#[trigger] ys[j]) || zs.contains(ys[j])
}

proof fn lemma_entries_subset_refl(xs: Seq<(Seq<u8>, Stats)>)
    ensures
        entries_subset_of(xs, xs),
{
    assert forall|i: int| 0 <= i < xs.len() implies xs.contains(#[trigger] xs[i]) by {
        assert(0 <= i < xs.len() && xs[i] == xs[i]);
    }
}

/// Sorts the drained entries by key. Keys must be distinct; the result
/// holds exactly the same entries, in the one strictly ascending order.
pub fn sort_entries(rest: Vec<(Vec<u8>, Record)>) -> (out: Vec<(Vec<u8>, Record)>)
    requires
        forall|i: int, j: int| 0 <= i < j < rest@.len() ==> rest@[i].0@ != rest@[j].0@,
    ensures
        out@.len() == rest@.len(),
        strictly_sorted(entry_views(out@)),
        entries_subset_of(entry_views(out@), entry_views(rest@)),
        entries_subset_of(entry_views(rest@), entry_views(out@)),
{
    let ghost es0 = entry_views(rest@);
    let mut rest = rest;
    let mut out: Vec<(Vec<u8>, Record)> = Vec::new();
    proof {
        lemma_entries_subset_refl(es0);
        assert forall|j: int| 0 <= j < es0.len() implies entry_views(out@).contains(
            #[trigger] es0[j],
        ) || entry_views(rest@).contains(es0[j]) by {
            assert(0 <= j < entry_views(rest@).len() && entry_views(rest@)[j] == es0[j]);
            assert(entry_views(rest@).contains(es0[j]));
        }
    }
    while rest.len() > 0
        invariant
            forall|i: int, j: int| 0 <= i < j < rest@.len() ==> rest@[i].0@ != rest@[j].0@,
            forall|i: int, j: int|
                #![trigger out@[i], rest@[j]]
                0 <= i < out@.len() && 0 <= j < rest@.len() ==> lex_lt(out@[i].0@, rest@[j].0@),
            strictly_sorted(entry_views(out@)),
            out@.len() + rest@.len() == es0.len(),
            entries_subset_of(entry_views(out@), es0),
            entries_subset_of(entry_views(rest@), es0),
            entries_covered_by(es0, entry_views(out@), entry_views(rest@)),
        decreases rest@.len(),
    {
        let mut mi: usize = 0;
        let mut i: usize = 1;
        while i < rest.len()
            invariant
                mi < i <= rest@.len(),
                forall|i2: int, j2: int| 0 <= i2 < j2 < rest@.len() ==> rest@[i2].0@ != rest@[j2].0@,
                forall|j: int| 0 <= j < i && j != mi ==> lex_lt(rest@[mi as int].0@, rest@[j].0@),
            decreases rest@.len() - i,
        {
            if lex_lt_bytes(rest[i].0.as_slice(), rest[mi].0.as_slice()) {
                proof {
                    assert forall|j: int| 0 <= j < i + 1 && j != i implies lex_lt(
                        rest@[i as int].0@,
                        rest@[j].0@,
                    ) by {
                        if j != mi {
                            lemma_lex_trans(rest@[i as int].0@, rest@[mi as int].0@, rest@[j].0@);
                        }
                    }
                }
                mi = i;
            } else {
                proof {
                    lemma_lex_total(rest@[i as int].0@, rest@[mi as int].0@);
                }
            }
            i = i + 1;
        }
        let ghost old_out = out@;
        let ghost old_rest = rest@;
        let p = rest.remove(mi);
        out.push(p);
        proof {
            let mii = mi as int;
            let ov = entry_views(out@);
            let old_ov = entry_views(old_out);
            let rv = entry_views(rest@);
            let old_rv = entry_views(old_rest);
            old_rest.remove_ensures(mii);
            assert(ov =~= old_ov.push((p.0@, p.1.model())));
            assert(ov[ov.len() - 1] == old_rv[mii]);
            assert forall|j: int| 0 <= j < rv.len() implies rv[j] == old_rv[
                (if j < mii { j } else { j + 1 })
            ] by {
                assert(rest@[j] == old_rest[(if j < mii { j } else { j + 1 })]);
            }
            // The minimum taken out is strictly before everything left.
            assert forall|i2: int, j2: int|
                #![trigger out@[i2], rest@[j2]]
                0 <= i2 < out@.len() && 0 <= j2 < rest@.len() implies lex_lt(
                out@[i2].0@,
                rest@[j2].0@,
            ) by {
                assert(rest@[j2] == old_rest[(if j2 < mii { j2 } else { j2 + 1 })]);
                if i2 < out@.len() - 1 {
                    assert(lex_lt(out@[i2].0@, p.0@));
                    lemma_lex_trans(out@[i2].0@, p.0@, rest@[j2].0@);
                }
            }
            assert forall|i2: int, j2: int| 0 <= i2 < j2 < ov.len() implies lex_lt(
                ov[i2].0,
                ov[j2].0,
            ) by {
                if j2 < ov.len() - 1 {
                    assert(lex_lt(old_ov[i2].0, old_ov[j2].0));
                } else {
                    assert(lex_lt(old_out[i2].0@, old_rest[mii].0@));
                }
            }
            assert forall|i2: int, j2: int| 0 <= i2 < j2 < rest@.len() implies rest@[i2].0@
                != rest@[j2].0@ by {
                assert(rest@[i2] == old_rest[(if i2 < mii { i2 } else { i2 + 1 })]);
                assert(rest@[j2] == old_rest[(if j2 < mii { j2 } else { j2 + 1 })]);
            }
            assert forall|i2: int| 0 <= i2 < ov.len() implies es0.contains(
                #[trigger] ov[i2],
            ) by {
                if i2 < ov.len() - 1 {
                    assert(ov[i2] == old_ov[i2]);
                    assert(es0.contains(old_ov[i2]));
                } else {
                    assert(ov[i2] == old_rv[mii]);
                    assert(es0.contains(old_rv[mii]));
                }
            }
            assert forall|i2: int| 0 <= i2 < rv.len() implies es0.contains(
                #[trigger] rv[i2],
            ) by {
                assert(rv[i2] == old_rv[(if i2 < mii { i2 } else { i2 + 1 })]);
                assert(es0.contains(old_rv[(if i2 < mii { i2 } else { i2 + 1 })]));
            }
            assert forall|j: int| 0 <= j < es0.len() implies ov.contains(#[trigger] es0[j])
                || rv.contains(es0[j]) by {
                if old_ov.contains(es0[j]) {
                    let i2 = choose|i2: int| 0 <= i2 < old_ov.len() && old_ov[i2] == es0[j];
                    assert(ov[i2] == old_ov[i2]);
                    assert(ov.contains(es0[j]));
                } else {
                    let i2 = choose|i2: int| 0 <= i2 < old_rv.len() && old_rv[i2] == es0[j];
                    if i2 == mii {
                        assert(ov[ov.len() - 1] == old_rv[mii]);
                        assert(ov.contains(es0[j]));
                    } else if i2 < mii {
                        assert(rv[i2] == old_rv[i2]);
                        assert(rv.contains(es0[j]));
                    } else {
                        assert(rv[i2 - 1] == old_rv[i2]);
                        assert(rv.contains(es0[j]));
                    }
                }
            }
        }
    }
    proof {
        assert forall|i2: int| 0 <= i2 < es0.len() implies entry_views(out@).contains(
            #[trigger] es0[i2],
        ) by {
            assert(entry_views(rest@).len() == 0);
            assert(!entry_views(rest@).contains(es0[i2]));
        }
    }
    out
}

/// One rendered report line: the key, then minimum, truncated average and
/// maximum, each with one fractional digit.
pub open spec fn format_entry(k: Seq<u8>, d: Stats) -> Seq<u8> {
    k + seq![COLON, SPACE] + encode_tenths(d.0) + seq![SLASH] + encode_tenths(trunc_div(d.2, d.3))
        + seq![SLASH] + encode_tenths(d.1) + seq![TERM]
}

/// The rendered report: every entry's line, in entry order.
pub open spec fn format_entries(es: Seq<(Seq<u8>, Stats)>) -> Seq<u8>
    decreases es.len(),
{
    if es.len() == 0 {
        Seq::empty()
    } else {
        format_entries(es.drop_last()) + format_entry(es.last().0, es.last().1)
    }
}

/// Appends a byte string to the output buffer.
fn push_all(out: &mut Vec<u8>, s: &[u8])
    ensures
        final(out)@ == old(out)@ + s@,
{
    let n = s.len();
    let mut i: usize = 0;
    while i < n
        invariant
            i <= n,
            n == s@.len(),
            out@ == old(out)@ + s@.take(i as int),
        decreases n - i,
    {
        out.push(s[i]);
        proof {
            assert(old(out)@ + s@.take(i + 1) =~= (old(out)@ + s@.take(i as int)).push(
                s@[i as int],
            ));
        }
        i = i + 1;
    }
    proof {
        assert(s@.take(n as int) =~= s@);
    }
}

/// Drains the table and renders the report: one line per key, sorted
/// ascending by key bytes, values shown with exactly one fractional digit.
pub fn report(t: &Table) -> (out: Vec<u8>)
    requires
        table_wf(t@),
    ensures
        exists|es: Seq<(Seq<u8>, Stats)>| is_report_of(t@, es) && out@ == format_entries(es),
{
    let entries = t.entries();
    let sorted = sort_entries(entries);
    let ghost es = entry_views(sorted@);
    proof {
        assert forall|i: int| 0 <= i < es.len() implies t@.dom().contains(#[trigger] es[i].0)
            && t@[es[i].0] == es[i].1 by {
            let j = choose|j: int|
                0 <= j < entries@.len() && entry_views(sorted@)[i] == entry_views(entries@)[j];
            assert(entry_views(entries@)[j] == (entries@[j].0@, entries@[j].1.model()));
        }
        assert forall|k: Seq<u8>| t@.dom().contains(k) implies exists|i: int|
            0 <= i < es.len() && (#[trigger] es[i].0) == k by {
            let j = choose|j: int| 0 <= j < entries@.len() && entries@[j].0@ == k;
            assert(entry_views(entries@)[j].0 == k);
            let i = choose|i: int|
                0 <= i < sorted@.len() && entry_views(sorted@)[i] == entry_views(entries@)[j];
            assert(es[i].0 == k);
        }
        assert(is_report_of(t@, es));
    }
    let mut out: Vec<u8> = Vec::new();
    let n = sorted.len();
    let mut i: usize = 0;
    while i < n
        invariant
            i <= n,
            n == sorted@.len(),
            es == entry_views(sorted@),
            table_wf(t@),
            entries_match(t@, es),
            out@ == format_entries(es.take(i as int)),
        decreases n - i,
    {
        let ghost out0 = out@;
        let key = sorted[i].0.as_slice();
        let rec = sorted[i].1;
        proof {
            assert(es[i as int] == (sorted@[i as int].0@, sorted@[i as int].1.model()));
            assert(t@.dom().contains(es[i as int].0) && t@[es[i as int].0] == es[i as int].1);
        }
        push_all(&mut out, key);
        out.push(COLON);
        out.push(SPACE);
        let mn = render_tenths(rec.min);
        push_all(&mut out, mn.as_slice());
        out.push(SLASH);
        let av = rec.average();
        let avr = render_tenths(av);
        push_all(&mut out, avr.as_slice());
        out.push(SLASH);
        let mx = render_tenths(rec.max);
        push_all(&mut out, mx.as_slice());
        out.push(TERM);
        proof {
            let d = es[i as int].1;
            assert(out@ =~= out0 + format_entry(es[i as int].0, d));
            assert(es.take(i + 1).drop_last() =~= es.take(i as int));
            assert(out@ == format_entries(es.take(i + 1)));
        }
        i = i + 1;
    }
    proof {
        assert(es.take(n as int) =~= es);
    }
    out
}

} // verus!
