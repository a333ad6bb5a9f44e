//! The aggregation table: a mapping from key bytes to a running statistics
//! record, with amortized O(1) update-or-insert through content-based
//! hashing of the key bytes.
//!
//! The map itself is hashbrown's hash table. Verus does not look inside it:
//! the table is seen only through the `contents` name and the trusted
//! wrapper methods below, whose contracts state what hashbrown's source
//! shows of `new`, `get`, `insert` and `iter`.

use vstd::prelude::*;
use crate::record::{stats_add, stats_default, stats_wf, Record, Stats};

verus! {

/// The aggregation table. Keys are compared and hashed by byte content.
#[verifier::external_body]
pub struct Table {
    map: hashbrown::HashMap<Vec<u8>, Record>,
}

/// What the table holds: each present key's bytes mapped to the image of
/// its statistics record.
pub uninterp spec fn contents(t: Table) -> Map<Seq<u8>, Stats>;

impl View for Table {
    type V = Map<Seq<u8>, Stats>;

    open spec fn view(&self) -> Map<Seq<u8>, Stats> {
        contents(*self)
    }
}

/// The contents of a table holding nothing yet.
pub open spec fn empty_table() -> Map<Seq<u8>, Stats> {
    Map::empty()
}

/// Every record of a well-formed table is itself well-formed and counts at
/// least one update; the key population is finite.
pub open spec fn table_wf(m: Map<Seq<u8>, Stats>) -> bool {
    &&& m.dom().finite()
    &&& forall|k: Seq<u8>| m.dom().contains(k) ==> stats_wf(#[trigger] m[k]) && m[k].3 >= 1
}

/// Update-or-insert, as one step of the aggregation pass changes the table:
/// an absent key starts from the neutral record, a present key's record is
/// folded into.
pub open spec fn spec_upsert(m: Map<Seq<u8>, Stats>, k: Seq<u8>, v: int) -> Map<Seq<u8>, Stats> {
    if m.dom().contains(k) {
        m.insert(k, stats_add(m[k], v))
    } else {
        m.insert(k, stats_add(stats_default(), v))
    }
}

impl Table {
    /// Creates an empty table. Relies on hashbrown's `HashMap::new`, which
    /// makes a map holding nothing.
    #[verifier::external_body]
    pub fn new() -> (t: Table)
        ensures
            contents(t) == empty_table(),
    {
        Table { map: hashbrown::HashMap::new() }
    }

    /// Looks a key up by its bytes. Relies on hashbrown's `HashMap::get`,
    /// which returns `Some` exactly for a present key, with its value.
    #[verifier::external_body]
    fn get_record(&self, key: &[u8]) -> (r: Option<Record>)
        ensures
            match r {
                Some(rec) => contents(*self).dom().contains(key@) && contents(*self)[key@]
                    == rec.model(),
                None => !contents(*self).dom().contains(key@),
            },
    {
        self.map.get(key).copied()
    }

    /// Binds the key bytes to `rec`, replacing any earlier binding. Relies
    /// on hashbrown's `HashMap::insert`.
    #[verifier::external_body]
    fn set_record(&mut self, key: &[u8], rec: Record)
        ensures
            contents(*final(self)) == contents(*old(self)).insert(key@, rec.model()),
    {
        self.map.insert(key.to_vec(), rec);
    }

    /// Hands out all entries, each present key exactly once with its record,
    /// in whatever order the hash table's iteration visits them. Relies on
    /// hashbrown's `HashMap::iter` visiting every entry once.
    #[verifier::external_body]
    pub fn entries(&self) -> (r: Vec<(Vec<u8>, Record)>)
        ensures
            forall|i: int|
                0 <= i < r@.len() ==> contents(*self).dom().contains(#[trigger] r@[i].0@)
                    && contents(*self)[r@[i].0@] == r@[i].1.model(),
            forall|k: Seq<u8>|
                contents(*self).dom().contains(k) ==> exists|i: int|
                    0 <= i < r@.len() && (#[trigger] r@[i].0@) == k,
            forall|i: int, j: int| 0 <= i < j < r@.len() ==> r@[i].0@ != r@[j].0@,
    {
        let mut out = Vec::new();
        for (k, v) in self.map.iter() {
            out.push((k.clone(), *v));
        }
        out
    }

    /// The table's one mutating operation: folds `value` under `key`,
    /// starting a fresh record when the key is new.
    pub fn upsert(&mut self, key: &[u8], value: i64)
        requires
            table_wf(old(self)@),
            -9999 <= value <= 9999,
            old(self)@.dom().contains(key@) ==> old(self)@[key@].3 < usize::MAX,
        ensures
            final(self)@ == spec_upsert(old(self)@, key@, value as int),
            table_wf(final(self)@),
    {
        match self.get_record(key) {
            Some(rec) => {
                let mut rec = rec;
                rec.add(value);
                self.set_record(key, rec);
            },
            None => {
                let mut rec = Record::default();
                rec.add(value);
                self.set_record(key, rec);
            },
        }
    }
}

/// The total update count of the table: the sum of each key's count.
pub open spec fn sum_counts(m: Map<Seq<u8>, Stats>) -> int
    decreases m.dom().len() when m.dom().finite()
    via sum_counts_decreases
{
    if !m.dom().finite() || m.dom().len() == 0 {
        0
    } else {
        let k = m.dom().choose();
        m[k].3 + sum_counts(m.remove(k))
    }
}

#[via_fn]
proof fn sum_counts_decreases(m: Map<Seq<u8>, Stats>) {
    if m.dom().finite() && m.dom().len() != 0 {
        let k = m.dom().choose();
        vstd::set_lib::lemma_set_empty_equivalency_len(m.dom());
        assert(m.dom().contains(k));
        assert(m.remove(k).dom() =~= m.dom().remove(k));
    }
}

/// Removing one key takes exactly its count out of the total.
pub proof fn lemma_sum_counts_remove(m: Map<Seq<u8>, Stats>, k: Seq<u8>)
    requires
        m.dom().finite(),
        m.dom().contains(k),
    ensures
        sum_counts(m) == sum_counts(m.remove(k)) + m[k].3,
    decreases m.dom().len(),
{
    vstd::set_lib::lemma_set_empty_equivalency_len(m.dom());
    let k0 = m.dom().choose();
    assert(m.dom().contains(k0));
    if k0 == k {
        assert(sum_counts(m) == m[k].3 + sum_counts(m.remove(k)));
    } else {
        lemma_sum_counts_remove(m.remove(k0), k);
        lemma_sum_counts_remove(m.remove(k), k0);
        assert(m.remove(k0).remove(k) =~= m.remove(k).remove(k0));
        assert(m.remove(k0)[k] == m[k]);
        assert(m.remove(k)[k0] == m[k0]);
    }
}

/// Inserting a record moves the total by the new count less any count the
/// key carried before.
pub proof fn lemma_sum_counts_insert(m: Map<Seq<u8>, Stats>, k: Seq<u8>, d: Stats)
    requires
        m.dom().finite(),
    ensures
        sum_counts(m.insert(k, d)) == sum_counts(m) + d.3 - (if m.dom().contains(k) {
            m[k].3
        } else {
            0
        }),
{
    lemma_sum_counts_remove(m.insert(k, d), k);
    if m.dom().contains(k) {
        lemma_sum_counts_remove(m, k);
        assert(m.insert(k, d).remove(k) =~= m.remove(k));
    } else {
        assert(m.insert(k, d).remove(k) =~= m);
    }
}

} // verus!
