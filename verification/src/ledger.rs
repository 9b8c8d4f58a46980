//! The in-memory model of the migration ledger: one record per applied
//! migration, kept sorted by version ascending, versions unique. The
//! engine works against this model; the database rows that persist it are
//! read and written outside and handed in as plain values.
use vstd::prelude::*;

use crate::{MigrationError, MigrationRecord};
use crate::text::{lex_lt, lemma_lex_lt_irrefl, lemma_lex_lt_trans, lemma_lex_lt_trichotomy, str_eq, str_lt};

verus! {

/// The index of the first record with the given version, or a negative
/// number when none has it.
pub open spec fn idx_of(records: Seq<MigrationRecord>, v: Seq<char>) -> int
    decreases records.len(),
{
    if records.len() == 0 {
        -1
    } else if records[0].version@ == v {
        0
    } else {
        let r = idx_of(records.subrange(1, records.len() as int), v);
        if r < 0 {
            -1
        } else {
            r + 1
        }
    }
}

/// Whether some record has the given version.
pub open spec fn has_version(records: Seq<MigrationRecord>, v: Seq<char>) -> bool {
    idx_of(records, v) >= 0
}

pub proof fn lemma_idx_of(records: Seq<MigrationRecord>, v: Seq<char>)
    ensures
        -1 <= idx_of(records, v) < records.len(),
        idx_of(records, v) >= 0 ==> records[idx_of(records, v)].version@ == v,
        idx_of(records, v) < 0 ==> forall|i: int|
            0 <= i < records.len() ==> (#[trigger] records[i]).version@ != v,
        forall|i: int| 0 <= i < idx_of(records, v) ==> (#[trigger] records[i]).version@ != v,
    decreases records.len(),
{
    if records.len() > 0 && records[0].version@ != v {
        let rest = records.subrange(1, records.len() as int);
        lemma_idx_of(rest, v);
        let r = idx_of(rest, v);
        if r >= 0 {
            assert(records[r + 1] == rest[r]);
            assert forall|i: int| 0 <= i < idx_of(records, v) implies (#[trigger] records[i]).version@
                != v by {
                if i > 0 {
                    assert(records[i] == rest[i - 1]);
                }
            }
        } else {
            assert forall|i: int| 0 <= i < records.len() implies (#[trigger] records[i]).version@
                != v by {
                if i > 0 {
                    assert(records[i] == rest[i - 1]);
                }
            }
        }
    }
}

/// A version is present exactly when some record carries it.
pub proof fn lemma_has_version_exists(records: Seq<MigrationRecord>, v: Seq<char>)
    ensures
        has_version(records, v) <==> exists|i: int|
            0 <= i < records.len() && (#[trigger] records[i]).version@ == v,
{
    lemma_idx_of(records, v);
    if has_version(records, v) {
        assert(records[idx_of(records, v)].version@ == v);
    }
}

/// The persisted record store of applied migrations, modeled as a vector
/// sorted by version ascending with versions unique.
pub struct Ledger {
    records: Vec<MigrationRecord>,
}

impl View for Ledger {
    type V = Seq<MigrationRecord>;

    closed spec fn view(&self) -> Seq<MigrationRecord> {
        self.records@
    }
}

impl Ledger {
    /// Versions strictly ascending: the ledger order is the version
    /// order, and no version repeats.
    pub open spec fn wf(&self) -> bool {
        forall|i: int, j: int|
            0 <= i < j < self@.len() ==> #[trigger] lex_lt(
                self@[i].version@,
                self@[j].version@,
            )
    }

    /// An empty ledger.
    pub fn new() -> (r: Ledger)
        ensures
            r@ == Seq::<MigrationRecord>::empty(),
            r.wf(),
    {
        Ledger { records: Vec::new() }
    }

    /// All applied records, sorted by version ascending.
    pub fn list(&self) -> (r: &Vec<MigrationRecord>)
        ensures
            r@ == self@,
    {
        &self.records
    }

    pub fn len(&self) -> (r: usize)
        ensures
            r == self@.len(),
    {
        self.records.len()
    }

    /// Whether the given version has been applied.
    #[verifier::loop_isolation(false)]
    pub fn is_applied(&self, version: &str) -> (r: bool)
        ensures
            r == has_version(self@, version@),
    {
        let n = self.records.len();
        let mut i: usize = 0;
        while i < n
            invariant
                i <= n,
                forall|j: int| 0 <= j < i ==> (#[trigger] self@[j]).version@ != version@,
            decreases n - i,
        {
            if str_eq(self.records[i].version.as_str(), version) {
                proof {
                    lemma_has_version_exists(self@, version@);
                }
                return true;
            }
            i += 1;
        }
        proof {
            lemma_has_version_exists(self@, version@);
        }
        false
    }

    /// Appends a record for a newly applied migration: refused with
    /// `AlreadyApplied` when the version is present, inserted keeping the
    /// version order otherwise.
    #[verifier::loop_isolation(false)]
    pub fn append(&mut self, record: MigrationRecord) -> (r: Result<(), MigrationError>)
        requires
            old(self).wf(),
        ensures
            final(self).wf(),
            r is Ok <==> !has_version(old(self)@, record.version@),
            r matches Err(e) ==> {
                &&& final(self)@ == old(self)@
                &&& e matches MigrationError::AlreadyApplied { version } && version@
                    == record.version@
            },
            r is Ok ==> {
                &&& final(self)@.len() == old(self)@.len() + 1
                &&& exists|i: int|
                    0 <= i <= old(self)@.len() && final(self)@ == old(self)@.insert(i, record)
            },
            forall|v: Seq<char>|
                has_version(final(self)@, v) <==> has_version(old(self)@, v) || (r is Ok && v
                    == record.version@),
    {
        let n = self.records.len();
        let mut i: usize = 0;
        while i < n && str_lt(self.records[i].version.as_str(), record.version.as_str())
            invariant
                i <= n,
                forall|j: int|
                    0 <= j < i ==> lex_lt((#[trigger] self@[j]).version@, record.version@),
            decreases n - i,
        {
            i += 1;
        }
        if i < n && str_eq(self.records[i].version.as_str(), record.version.as_str()) {
            proof {
                lemma_has_version_exists(self@, record.version@);
            }
            return Err(MigrationError::AlreadyApplied { version: record.version.clone() });
        }
        let ghost s0 = self@;
        let ghost v = record.version@;
        proof {
            // below the insertion point every version precedes the new one
            assert(forall|j: int| 0 <= j < i ==> lex_lt((#[trigger] s0[j]).version@, v));
            // at and above it, the new one precedes every version
            if i < n {
                lemma_lex_lt_trichotomy(s0[i as int].version@, v);
                assert(lex_lt(v, s0[i as int].version@));
            }
            assert forall|j: int| 0 <= j < n implies (#[trigger] s0[j]).version@ != v by {
                if j < i {
                    if s0[j].version@ == v {
                        lemma_lex_lt_irrefl(v);
                    }
                } else if j == i {
                    if s0[j].version@ == v {
                        lemma_lex_lt_irrefl(v);
                    }
                } else {
                    assert(lex_lt(s0[i as int].version@, s0[j].version@));
                    lemma_lex_lt_trans(v, s0[i as int].version@, s0[j].version@);
                    if s0[j].version@ == v {
                        lemma_lex_lt_irrefl(v);
                    }
                }
            }
            lemma_has_version_exists(s0, v);
        }
        self.records.insert(i, record);
        proof {
            assert(self@ == s0.insert(i as int, record));
            s0.insert_ensures(i as int, record);
            assert(forall|k: int| 0 <= k < i ==> #[trigger] self@[k] == s0[k]);
            assert(self@[i as int] == record);
            assert(forall|k: int| i < k < self@.len() ==> #[trigger] self@[k] == s0[k - 1]);
            assert forall|p: int, q: int| 0 <= p < q < self@.len() implies #[trigger] lex_lt(
                self@[p].version@,
                self@[q].version@,
            ) by {
                if q < i {
                    assert(self@[p] == s0[p]);
                    assert(self@[q] == s0[q]);
                } else if p < i && q == i {
                    assert(self@[p] == s0[p]);
                    assert(self@[q] == record);
                } else if p < i && q > i {
                    assert(self@[p] == s0[p]);
                    assert(self@[q] == s0[q - 1]);
                    assert(p <= q - 1);
                    if p == q - 1 {
                        assert(false);
                    }
                } else if p == i {
                    assert(self@[p] == record);
                    assert(self@[q] == s0[q - 1]);
                    if q - 1 > i {
                        assert(lex_lt(s0[i as int].version@, s0[q - 1].version@));
                        lemma_lex_lt_trans(v, s0[i as int].version@, s0[q - 1].version@);
                    }
                } else {
                    assert(self@[p] == s0[p - 1]);
                    assert(self@[q] == s0[q - 1]);
                }
            }
            assert forall|w: Seq<char>|
                has_version(self@, w) <==> has_version(s0, w) || w == v by {
                lemma_has_version_exists(self@, w);
                lemma_has_version_exists(s0, w);
                if has_version(self@, w) {
                    let k = choose|k: int| 0 <= k < self@.len() && self@[k].version@ == w;
                    if k < i {
                        assert(s0[k].version@ == w);
                    } else if k > i {
                        assert(s0[k - 1].version@ == w);
                    }
                }
                if has_version(s0, w) {
                    let k = choose|k: int| 0 <= k < s0.len() && s0[k].version@ == w;
                    if k < i {
                        assert(self@[k].version@ == w);
                    } else {
                        assert(self@[k + 1].version@ == w);
                    }
                }
            }
        }
        Ok(())
    }

    /// Removes the record of the given version; without one, changes
    /// nothing.
    #[verifier::loop_isolation(false)]
    pub fn remove(&mut self, version: &str)
        requires
            old(self).wf(),
        ensures
            final(self).wf(),
            has_version(old(self)@, version@) ==> {
                &&& final(self)@.len() + 1 == old(self)@.len()
                &&& exists|i: int|
                    {
                        &&& 0 <= i < old(self)@.len()
                        &&& old(self)@[i].version@ == version@
                        &&& final(self)@ == old(self)@.remove(i)
                    }
            },
            !has_version(old(self)@, version@) ==> final(self)@ == old(self)@,
            forall|v: Seq<char>|
                has_version(final(self)@, v) <==> has_version(old(self)@, v) && v != version@,
    {
        let n = self.records.len();
        let mut i: usize = 0;
        while i < n
            invariant
                i <= n,
                self@ == old(self)@,
                n == self@.len(),
                forall|j: int| 0 <= j < i ==> (#[trigger] self@[j]).version@ != version@,
            decreases n - i,
        {
            if str_eq(self.records[i].version.as_str(), version) {
                let ghost s0 = self@;
                proof {
                    lemma_has_version_exists(s0, version@);
                }
                self.records.remove(i);
                proof {
                    assert(self@ == s0.remove(i as int));
                    s0.remove_ensures(i as int);
                    assert(forall|k: int| 0 <= k < i ==> #[trigger] self@[k] == s0[k]);
                    assert(forall|k: int| i <= k < self@.len() ==> #[trigger] self@[k] == s0[k + 1]);
                    assert forall|p: int, q: int| 0 <= p < q < self@.len() implies
                        #[trigger] lex_lt(self@[p].version@, self@[q].version@) by {
                        let p0: int = if p < i { p } else { p + 1 };
                        let q0: int = if q < i { q } else { q + 1 };
                        assert(self@[p] == s0[p0]);
                        assert(self@[q] == s0[q0]);
                        assert(lex_lt(s0[p0].version@, s0[q0].version@));
                    }
                    assert forall|v: Seq<char>|
                        has_version(self@, v) <==> has_version(s0, v) && v != version@ by {
                        lemma_has_version_exists(self@, v);
                        lemma_has_version_exists(s0, v);
                        if has_version(self@, v) {
                            let k = choose|k: int|
                                0 <= k < self@.len() && self@[k].version@ == v;
                            let k0: int = if k < i { k } else { k + 1 };
                            assert(s0[k0].version@ == v);
                            if v == version@ {
                                // two distinct records would share the version
                                lemma_lex_lt_irrefl(v);
                                if k0 < i {
                                    assert(lex_lt(s0[k0].version@, s0[i as int].version@));
                                } else {
                                    assert(lex_lt(s0[i as int].version@, s0[k0].version@));
                                }
                            }
                        }
                        if has_version(s0, v) && v != version@ {
                            let k = choose|k: int| 0 <= k < s0.len() && s0[k].version@ == v;
                            if k < i {
                                assert(self@[k].version@ == v);
                            } else {
                                assert(k > i);
                                assert(self@[k - 1].version@ == v);
                            }
                        }
                    }
                }
                return ;
            }
            i += 1;
        }
        proof {
            lemma_has_version_exists(self@, version@);
        }
    }

    /// Overwrites the checksum of the record with the given version;
    /// without one, changes nothing.
    #[verifier::loop_isolation(false)]
    pub fn update_checksum(&mut self, version: &str, new_checksum: &str)
        requires
            old(self).wf(),
        ensures
            final(self).wf(),
            final(self)@.len() == old(self)@.len(),
            has_version(old(self)@, version@) ==> exists|i: int|
                {
                    &&& 0 <= i < old(self)@.len()
                    &&& old(self)@[i].version@ == version@
                    &&& (#[trigger] final(self)@[i]).version == old(self)@[i].version
                    &&& final(self)@[i].applied_at == old(self)@[i].applied_at
                    &&& final(self)@[i].description == old(self)@[i].description
                    &&& final(self)@[i].checksum@ == new_checksum@
                    &&& forall|j: int|
                        0 <= j < old(self)@.len() && j != i ==> final(self)@[j] == old(
                            self,
                        )@[j]
                },
            !has_version(old(self)@, version@) ==> final(self)@ == old(self)@,
    {
        let n = self.records.len();
        let mut i: usize = 0;
        while i < n
            invariant
                i <= n,
                self@ == old(self)@,
                n == self@.len(),
                forall|j: int| 0 <= j < i ==> (#[trigger] self@[j]).version@ != version@,
            decreases n - i,
        {
            if str_eq(self.records[i].version.as_str(), version) {
                let ghost s0 = self@;
                proof {
                    lemma_has_version_exists(s0, version@);
                }
                let updated = MigrationRecord {
                    version: self.records[i].version.clone(),
                    applied_at: self.records[i].applied_at,
                    checksum: new_checksum.to_owned(),
                    description: self.records[i].description.clone(),
                };
                self.records.set(i, updated);
                proof {
                    assert(self@ == s0.update(i as int, updated));
                    assert(self@[i as int] == updated);
                    assert(forall|j: int|
                        0 <= j < s0.len() && j != i ==> #[trigger] self@[j] == s0[j]);
                    assert({
                        &&& 0 <= i < s0.len()
                        &&& s0[i as int].version@ == version@
                        &&& self@[i as int].version == s0[i as int].version
                        &&& self@[i as int].applied_at == s0[i as int].applied_at
                        &&& self@[i as int].description == s0[i as int].description
                        &&& self@[i as int].checksum@ == new_checksum@
                        &&& forall|j: int|
                            0 <= j < s0.len() && j != i ==> self@[j] == s0[j]
                    });
                    assert forall|p: int, q: int| 0 <= p < q < self@.len() implies
                        #[trigger] lex_lt(self@[p].version@, self@[q].version@) by {
                        assert(self@[p].version@ == s0[p].version@);
                        assert(self@[q].version@ == s0[q].version@);
                    }
                }
                return ;
            }
            i += 1;
        }
        proof {
            lemma_has_version_exists(self@, version@);
        }
    }

    /// Drops every record: the whole-ledger reset.
    pub fn reset(&mut self)
        ensures
            final(self)@ == Seq::<MigrationRecord>::empty(),
            final(self).wf(),
    {
        self.records = Vec::new();
    }
}

} // verus!
