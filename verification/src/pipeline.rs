//! The pipeline from raw buffer to rendered report: terminator check, line
//! parsing, the aggregation pass, and the laws that hold of a full run.

use vstd::prelude::*;
use vstd::slice::slice_subrange;
use crate::codec::{decode_value, lemma_decode_range, valid_value, SEP, TERM};
use crate::error::Error;
use crate::record::{lemma_stats_add_wf, stats_add, stats_default, Record, Stats};
use crate::report::{format_entries, is_report_of, lemma_report_unique, report};
use crate::split::{first_occurrence, lines_of, split_once, split_records, views_of};
use crate::table::{
    empty_table, lemma_sum_counts_insert, spec_upsert, sum_counts, table_wf, Table,
};

verus! {

/// What one line parses to: the key bytes and the decoded value, or nothing
/// when the line has no separator or its value text is outside the grammar.
pub open spec fn parsed_line(l: Seq<u8>) -> Option<(Seq<u8>, int)> {
    match first_occurrence(l, SEP) {
        None => None,
        Some(i) => if valid_value(l.skip(i + 1)) {
            Some((l.take(i), decode_value(l.skip(i + 1))))
        } else {
            None
        },
    }
}

/// The error a bad line produces: the missing separator, or the offending
/// value text.
pub open spec fn matches_line_error(l: Seq<u8>, e: Error) -> bool {
    match first_occurrence(l, SEP) {
        None => e is MissingSeparator,
        Some(i) => e matches Error::InvalidValue(t) && t@ == l.skip(i + 1),
    }
}

/// Splits one line at its first separator and decodes the value text.
pub fn parse_line<'a>(line: &'a [u8]) -> (r: Result<(&'a [u8], i64), Error>)
    ensures
        parsed_line(line@) matches Some(kv) ==> (r matches Ok(p) && p.0@ == kv.0 && p.1 as int
            == kv.1 && -9999 <= p.1 <= 9999),
        parsed_line(line@) is None ==> (r matches Err(e) && matches_line_error(line@, e)),
{
    match split_once(line, SEP) {
        None => Err(Error::MissingSeparator),
        Some((key, value_text)) => match Record::manual_parse(value_text) {
            Ok(v) => Ok((key, v)),
            Err(e) => Err(e),
        },
    }
}

/// Every line parses.
pub open spec fn lines_ok(ls: Seq<Seq<u8>>) -> bool {
    forall|i: int| 0 <= i < ls.len() ==> (#[trigger] parsed_line(ls[i])) is Some
}

/// The table that one streaming pass over the lines builds, line by line.
pub open spec fn table_of(ls: Seq<Seq<u8>>) -> Map<Seq<u8>, Stats>
    decreases ls.len(),
{
    if ls.len() == 0 {
        empty_table()
    } else {
        let t = table_of(ls.drop_last());
        match parsed_line(ls.last()) {
            Some(kv) => spec_upsert(t, kv.0, kv.1),
            None => t,
        }
    }
}

/// The pass keeps the table well-formed, and no key counts more updates
/// than there are lines.
pub proof fn lemma_table_of_wf(ls: Seq<Seq<u8>>)
    requires
        ls.len() <= usize::MAX,
    ensures
        table_wf(table_of(ls)),
        forall|k: Seq<u8>|
            table_of(ls).dom().contains(k) ==> (#[trigger] table_of(ls)[k]).3 <= ls.len(),
    decreases ls.len(),
{
    if ls.len() == 0 {
        assert(table_of(ls).dom() =~= Set::empty());
    } else {
        lemma_table_of_wf(ls.drop_last());
        let t = table_of(ls.drop_last());
        match parsed_line(ls.last()) {
            Some(kv) => {
                match first_occurrence(ls.last(), SEP) {
                    Some(i) => {
                        lemma_decode_range(ls.last().skip(i + 1));
                    },
                    None => {},
                }
                let d = if t.dom().contains(kv.0) {
                    t[kv.0]
                } else {
                    stats_default()
                };
                lemma_stats_add_wf(d, kv.1);
            },
            None => {},
        }
    }
}

/// The sum of all per-key counts after a full pass equals the number of
/// input lines.
pub proof fn lemma_total_count(ls: Seq<Seq<u8>>)
    requires
        lines_ok(ls),
    ensures
        sum_counts(table_of(ls)) == ls.len(),
    decreases ls.len(),
{
    lemma_table_of_finite(ls);
    if ls.len() == 0 {
        assert(table_of(ls).dom() =~= Set::empty());
    } else {
        assert forall|i: int| 0 <= i < ls.drop_last().len() implies (#[trigger] parsed_line(
            ls.drop_last()[i],
        )) is Some by {
            assert(ls.drop_last()[i] == ls[i]);
        }
        lemma_total_count(ls.drop_last());
        lemma_table_of_finite(ls.drop_last());
        let t = table_of(ls.drop_last());
        match parsed_line(ls.last()) {
            Some(kv) => {
                if t.dom().contains(kv.0) {
                    lemma_sum_counts_insert(t, kv.0, stats_add(t[kv.0], kv.1));
                } else {
                    lemma_sum_counts_insert(
                        t,
                        kv.0,
                        crate::record::stats_add(stats_default(), kv.1),
                    );
                }
            },
            None => {
                assert(parsed_line(ls[ls.len() - 1]) is Some);
            },
        }
    }
}

/// The pass only ever inserts, so the key population stays finite.
pub proof fn lemma_table_of_finite(ls: Seq<Seq<u8>>)
    ensures
        table_of(ls).dom().finite(),
    decreases ls.len(),
{
    if ls.len() == 0 {
        assert(table_of(ls).dom() =~= Set::empty());
    } else {
        lemma_table_of_finite(ls.drop_last());
    }
}

/// The aggregation pass: parses every line and folds it into the table.
/// Succeeds exactly when every line parses; otherwise hands back the first
/// bad line's error, with nothing emitted.
pub fn aggregate(lines: &Vec<&[u8]>) -> (r: Result<Table, Error>)
    ensures
        lines_ok(views_of(lines@)) <==> r is Ok,
        r matches Ok(t) ==> t@ == table_of(views_of(lines@)) && table_wf(t@),
        r matches Err(e) ==> exists|i: int|
            0 <= i < lines@.len() && (#[trigger] parsed_line(views_of(lines@)[i])) is None && (
            forall|j: int| 0 <= j < i ==> parsed_line(views_of(lines@)[j]) is Some)
                && matches_line_error(views_of(lines@)[i], e),
{
    let ghost lv = views_of(lines@);
    let mut table = Table::new();
    let n = lines.len();
    let mut i: usize = 0;
    proof {
        assert(lv.take(0) =~= Seq::empty());
    }
    while i < n
        invariant
            i <= n,
            n == lines@.len(),
            lv == views_of(lines@),
            forall|j: int| 0 <= j < i ==> (#[trigger] parsed_line(lv[j])) is Some,
            table@ == table_of(lv.take(i as int)),
            table_wf(table@),
        decreases n - i,
    {
        let line = lines[i];
        match parse_line(line) {
            Ok((key, value)) => {
                proof {
                    assert(lv[i as int] == line@);
                    lemma_table_of_wf(lv.take(i as int));
                }
                table.upsert(key, value);
                proof {
                    assert(lv.take(i + 1).drop_last() =~= lv.take(i as int));
                    assert(lv.take(i + 1).last() == lv[i as int]);
                }
            },
            Err(e) => {
                proof {
                    assert(lv[i as int] == line@);
                    assert(parsed_line(lv[i as int]) is None);
                }
                return Err(e);
            },
        }
        i = i + 1;
    }
    proof {
        assert(lv.take(n as int) =~= lv);
    }
    Ok(table)
}

/// The buffer with its final terminator stripped.
pub open spec fn stripped_of(d: Seq<u8>) -> Seq<u8> {
    d.take(d.len() - 1)
}

/// A run succeeds exactly when the buffer ends with the terminator and
/// every line of the stripped buffer parses.
pub open spec fn run_ok(d: Seq<u8>) -> bool {
    d.len() >= 1 && d.last() == TERM && lines_ok(lines_of(stripped_of(d)))
}

/// The output of a successful run: the sorted report of the table that one
/// pass over the input's lines builds.
pub open spec fn is_run_output(d: Seq<u8>, o: Seq<u8>) -> bool {
    exists|es: Seq<(Seq<u8>, Stats)>|
        is_report_of(table_of(lines_of(stripped_of(d))), es) && o == format_entries(es)
}

/// The error of a failed run: a missing trailing terminator, else the first
/// bad line's own error.
pub open spec fn matches_run_error(d: Seq<u8>, e: Error) -> bool {
    if d.len() == 0 || d.last() != TERM {
        e is MissingTerminator
    } else {
        exists|i: int|
            0 <= i < lines_of(stripped_of(d)).len() && (#[trigger] parsed_line(
                lines_of(stripped_of(d))[i],
            )) is None && (forall|j: int|
                0 <= j < i ==> parsed_line(lines_of(stripped_of(d))[j]) is Some)
                && matches_line_error(lines_of(stripped_of(d))[i], e)
    }
}

/// One whole run: checks and strips the trailing terminator, splits the
/// buffer into lines, aggregates them, and renders the sorted report.
/// Any malformed input aborts the run with nothing emitted.
pub fn run(data: &[u8]) -> (r: Result<Vec<u8>, Error>)
    ensures
        run_ok(data@) <==> r is Ok,
        r matches Ok(out) ==> is_run_output(data@, out@),
        r matches Err(e) ==> matches_run_error(data@, e),
{
    let n = data.len();
    if n == 0 || data[n - 1] != TERM {
        return Err(Error::MissingTerminator);
    }
    let body = slice_subrange(data, 0, n - 1);
    proof {
        assert(body@ =~= stripped_of(data@));
    }
    let lines = split_records(body);
    match aggregate(&lines) {
        Err(e) => Err(e),
        Ok(table) => {
            let out = report(&table);
            Ok(out)
        },
    }
}

/// Byte-identical input gives byte-identical output: whatever order the
/// hash table iterates in, any two outputs a successful run admits for the
/// same input are equal.
pub proof fn lemma_run_deterministic(d: Seq<u8>, o1: Seq<u8>, o2: Seq<u8>)
    requires
        is_run_output(d, o1),
        is_run_output(d, o2),
    ensures
        o1 == o2,
{
    let m = table_of(lines_of(stripped_of(d)));
    let es1 = choose|es: Seq<(Seq<u8>, Stats)>| is_report_of(m, es) && o1 == format_entries(es);
    let es2 = choose|es: Seq<(Seq<u8>, Stats)>| is_report_of(m, es) && o2 == format_entries(es);
    lemma_report_unique(m, es1, es2);
}

} // verus!

