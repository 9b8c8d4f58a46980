//! The reconciliation engine: computes the pending set, verifies ledger
//! checksums against file checksums, gates the destructive reset, and
//! drives fail-fast apply and rollback batches as state machines. The
//! database round trips happen outside: a caller asks the machine for the
//! next action, performs it, and reports the outcome back.
use vstd::prelude::*;

use crate::{IntegrityIssue, MigrationError, MigrationFile, MigrationRecord};
use crate::ledger::{Ledger, has_version, lemma_has_version_exists};
use crate::text::str_eq;

verus! {

/// The version views of a sequence of files.
pub open spec fn versions_of(files: Seq<MigrationFile>) -> Seq<Seq<char>> {
    files.map_values(|f: MigrationFile| f.version@)
}

/// The files whose versions the ledger does not hold, in file order.
pub open spec fn spec_pending(
    files: Seq<MigrationFile>,
    records: Seq<MigrationRecord>,
) -> Seq<MigrationFile>
    decreases files.len(),
{
    if files.len() == 0 {
        Seq::empty()
    } else {
        let rest = spec_pending(files.subrange(1, files.len() as int), records);
        if has_version(records, files[0].version@) {
            rest
        } else {
            seq![files[0]] + rest
        }
    }
}

pub proof fn lemma_spec_pending_concat(
    a: Seq<MigrationFile>,
    b: Seq<MigrationFile>,
    records: Seq<MigrationRecord>,
)
    ensures
        spec_pending(a + b, records) == spec_pending(a, records) + spec_pending(b, records),
    decreases a.len(),
{
    if a.len() == 0 {
        assert(a + b =~= b);
        assert(spec_pending(a, records) + spec_pending(b, records) =~= spec_pending(b, records));
    } else {
        let a1 = a.subrange(1, a.len() as int);
        lemma_spec_pending_concat(a1, b, records);
        assert((a + b).subrange(1, (a + b).len() as int) =~= a1 + b);
        assert((a + b)[0] == a[0]);
        assert(spec_pending(a + b, records) =~= spec_pending(a, records) + spec_pending(
            b,
            records,
        ));
    }
}

fn clone_file(f: &MigrationFile) -> (r: MigrationFile)
    ensures
        r == *f,
{
    MigrationFile {
        version: f.version.clone(),
        description: f.description.clone(),
        file_path: f.file_path.clone(),
        content: f.content.clone(),
        checksum: f.checksum.clone(),
    }
}

fn clone_record(rec: &MigrationRecord) -> (r: MigrationRecord)
    ensures
        r == *rec,
{
    MigrationRecord {
        version: rec.version.clone(),
        applied_at: rec.applied_at,
        checksum: rec.checksum.clone(),
        description: rec.description.clone(),
    }
}

/// The files not yet applied, preserving file order.
#[verifier::loop_isolation(false)]
pub fn pending_migrations(files: &Vec<MigrationFile>, ledger: &Ledger) -> (r: Vec<
    MigrationFile,
>)
    ensures
        r@ == spec_pending(files@, ledger@),
{
    let mut out: Vec<MigrationFile> = Vec::new();
    let n = files.len();
    let mut i: usize = 0;
    proof {
        assert(files@.subrange(0, 0) =~= Seq::<MigrationFile>::empty());
        assert(out@ =~= spec_pending(files@.subrange(0, 0), ledger@));
    }
    while i < n
        invariant
            i <= n,
            out@ == spec_pending(files@.subrange(0, i as int), ledger@),
        decreases n - i,
    {
        let ghost prefix = files@.subrange(0, i as int);
        let ghost f = files@[i as int];
        proof {
            assert(files@.subrange(0, i + 1) =~= prefix + seq![f]);
            lemma_spec_pending_concat(prefix, seq![f], ledger@);
            assert(seq![f].subrange(1, 1) =~= Seq::<MigrationFile>::empty());
            assert(spec_pending(Seq::<MigrationFile>::empty(), ledger@)
                == Seq::<MigrationFile>::empty());
            assert(spec_pending(seq![f].subrange(1, 1), ledger@)
                == Seq::<MigrationFile>::empty());
            assert(seq![f][0] == f);
        }
        if !ledger.is_applied(files[i].version.as_str()) {
            out.push(clone_file(&files[i]));
            proof {
                assert(spec_pending(seq![f], ledger@) == seq![f]
                    + Seq::<MigrationFile>::empty());
                assert(out@ =~= spec_pending(files@.subrange(0, i + 1), ledger@));
            }
        } else {
            proof {
                assert(spec_pending(seq![f], ledger@) == Seq::<MigrationFile>::empty());
                assert(out@ =~= spec_pending(files@.subrange(0, i + 1), ledger@));
            }
        }
        i += 1;
    }
    proof {
        assert(files@.subrange(0, n as int) =~= files@);
    }
    out
}

/// The index of the first file with the given version, or a negative
/// number when none has it.
pub open spec fn file_idx_of(files: Seq<MigrationFile>, v: Seq<char>) -> int
    decreases files.len(),
{
    if files.len() == 0 {
        -1
    } else if files[0].version@ == v {
        0
    } else {
        let r = file_idx_of(files.subrange(1, files.len() as int), v);
        if r < 0 {
            -1
        } else {
            r + 1
        }
    }
}

pub proof fn lemma_file_idx_of(files: Seq<MigrationFile>, v: Seq<char>)
    ensures
        -1 <= file_idx_of(files, v) < files.len(),
        file_idx_of(files, v) >= 0 ==> files[file_idx_of(files, v)].version@ == v,
        file_idx_of(files, v) < 0 ==> forall|i: int|
            0 <= i < files.len() ==> (#[trigger] files[i]).version@ != v,
    decreases files.len(),
{
    if files.len() > 0 && files[0].version@ != v {
        let rest = files.subrange(1, files.len() as int);
        lemma_file_idx_of(rest, v);
        let r = file_idx_of(rest, v);
        if r >= 0 {
            assert(files[r + 1] == rest[r]);
        } else {
            assert forall|i: int| 0 <= i < files.len() implies (#[trigger] files[i]).version@
                != v by {
                if i > 0 {
                    assert(files[i] == rest[i - 1]);
                }
            }
        }
    }
}

/// The first file with the given version, when there is one.
#[verifier::loop_isolation(false)]
pub fn find_file<'a>(files: &'a Vec<MigrationFile>, version: &str) -> (r: Option<
    &'a MigrationFile,
>)
    ensures
        file_idx_of(files@, version@) >= 0 ==> (r matches Some(f) && *f == files@[file_idx_of(
            files@,
            version@,
        )]),
        file_idx_of(files@, version@) < 0 ==> r is None,
{
    let n = files.len();
    let mut i: usize = 0;
    while i < n
        invariant
            i <= n,
            forall|j: int| 0 <= j < i ==> (#[trigger] files@[j]).version@ != version@,
        decreases n - i,
    {
        if str_eq(files[i].version.as_str(), version) {
            proof {
                lemma_file_idx_of(files@, version@);
                if file_idx_of(files@, version@) < 0 {
                    assert(files@[i as int].version@ != version@);
                }
                assert(forall|j: int|
                    0 <= j < file_idx_of(files@, version@) ==> (#[trigger] files@[j]).version@
                        != version@) by {
                    lemma_file_idx_of_first(files@, version@);
                }
                assert(file_idx_of(files@, version@) == i as int) by {
                    lemma_file_idx_of_first(files@, version@);
                }
            }
            return Some(&files[i]);
        }
        i += 1;
    }
    proof {
        lemma_file_idx_of(files@, version@);
        if file_idx_of(files@, version@) >= 0 {
            assert(files@[file_idx_of(files@, version@)].version@ == version@);
        }
    }
    None
}

proof fn lemma_file_idx_of_first(files: Seq<MigrationFile>, v: Seq<char>)
    ensures
        forall|i: int| 0 <= i < file_idx_of(files, v) ==> (#[trigger] files[i]).version@ != v,
    decreases files.len(),
{
    lemma_file_idx_of(files, v);
    if files.len() > 0 && files[0].version@ != v {
        let rest = files.subrange(1, files.len() as int);
        lemma_file_idx_of_first(rest, v);
        lemma_file_idx_of(rest, v);
        assert forall|i: int| 0 <= i < file_idx_of(files, v) implies (#[trigger] files[i]).version@
            != v by {
            if i > 0 {
                assert(rest[i - 1].version@ != v);
                assert(files[i] == rest[i - 1]);
            }
        }
    }
}

/// The integrity findings for the applied records, in ledger order: a
/// `ChecksumMismatch` where a matching file's digest differs, a
/// `MissingFile` where no file has the version, nothing otherwise.
pub open spec fn spec_issues(
    records: Seq<MigrationRecord>,
    files: Seq<MigrationFile>,
) -> Seq<IntegrityIssue>
    decreases records.len(),
{
    if records.len() == 0 {
        Seq::empty()
    } else {
        let rest = spec_issues(records.subrange(1, records.len() as int), files);
        let r0 = records[0];
        let fi = file_idx_of(files, r0.version@);
        if fi < 0 {
            seq![IntegrityIssue::MissingFile { version: r0.version }] + rest
        } else if files[fi].checksum@ != r0.checksum@ {
            seq![
                IntegrityIssue::ChecksumMismatch {
                    version: r0.version,
                    expected: r0.checksum,
                    actual: files[fi].checksum,
                },
            ] + rest
        } else {
            rest
        }
    }
}

pub proof fn lemma_spec_issues_concat(
    a: Seq<MigrationRecord>,
    b: Seq<MigrationRecord>,
    files: Seq<MigrationFile>,
)
    ensures
        spec_issues(a + b, files) == spec_issues(a, files) + spec_issues(b, files),
    decreases a.len(),
{
    if a.len() == 0 {
        assert(a + b =~= b);
        assert(spec_issues(a, files) + spec_issues(b, files) =~= spec_issues(b, files));
    } else {
        let a1 = a.subrange(1, a.len() as int);
        lemma_spec_issues_concat(a1, b, files);
        assert((a + b).subrange(1, (a + b).len() as int) =~= a1 + b);
        assert((a + b)[0] == a[0]);
        assert(spec_issues(a + b, files) =~= spec_issues(a, files) + spec_issues(b, files));
    }
}

/// Compares the ledger against the files on disk: one finding per applied
/// record whose file changed or vanished, in ledger order; files never
/// applied yield nothing.
#[verifier::loop_isolation(false)]
pub fn verify_migrations(ledger: &Ledger, files: &Vec<MigrationFile>) -> (r: Vec<
    IntegrityIssue,
>)
    ensures
        r@ == spec_issues(ledger@, files@),
{
    let records = ledger.list();
    let n = records.len();
    let mut out: Vec<IntegrityIssue> = Vec::new();
    let mut i: usize = 0;
    proof {
        assert(ledger@.subrange(0, 0) =~= Seq::<MigrationRecord>::empty());
        assert(out@ =~= spec_issues(ledger@.subrange(0, 0), files@));
    }
    while i < n
        invariant
            i <= n,
            out@ == spec_issues(ledger@.subrange(0, i as int), files@),
        decreases n - i,
    {
        let ghost prefix = ledger@.subrange(0, i as int);
        let ghost rec = ledger@[i as int];
        proof {
            assert(ledger@.subrange(0, i + 1) =~= prefix + seq![rec]);
            lemma_spec_issues_concat(prefix, seq![rec], files@);
            assert(seq![rec].subrange(1, 1) =~= Seq::<MigrationRecord>::empty());
            assert(spec_issues(seq![rec].subrange(1, 1), files@)
                == Seq::<IntegrityIssue>::empty());
            assert(seq![rec][0] == rec);
        }
        match find_file(files, records[i].version.as_str()) {
            Some(file) => {
                if !str_eq(file.checksum.as_str(), records[i].checksum.as_str()) {
                    out.push(IntegrityIssue::ChecksumMismatch {
                        version: records[i].version.clone(),
                        expected: records[i].checksum.clone(),
                        actual: file.checksum.clone(),
                    });
                    proof {
                        assert(spec_issues(seq![rec], files@) =~~= seq![
                            IntegrityIssue::ChecksumMismatch {
                                version: rec.version,
                                expected: rec.checksum,
                                actual: files@[file_idx_of(files@, rec.version@)].checksum,
                            },
                        ]);
                        assert(out@ =~= spec_issues(ledger@.subrange(0, i + 1), files@));
                    }
                } else {
                    proof {
                        assert(spec_issues(seq![rec], files@) =~~= Seq::<
                            IntegrityIssue,
                        >::empty());
                        assert(out@ =~= spec_issues(ledger@.subrange(0, i + 1), files@));
                    }
                }
            },
            None => {
                out.push(IntegrityIssue::MissingFile { version: records[i].version.clone() });
                proof {
                    assert(spec_issues(seq![rec], files@) =~~= seq![
                        IntegrityIssue::MissingFile { version: rec.version },
                    ]);
                    assert(out@ =~= spec_issues(ledger@.subrange(0, i + 1), files@));
                }
            },
        }
        i += 1;
    }
    proof {
        assert(ledger@.subrange(0, n as int) =~= ledger@);
    }
    out
}

/// The version a finding speaks of.
pub open spec fn issue_version(x: IntegrityIssue) -> Seq<char> {
    match x {
        IntegrityIssue::ChecksumMismatch { version, expected: _, actual: _ } => version@,
        IntegrityIssue::MissingFile { version } => version@,
    }
}

/// Verification reports only applied versions: files never applied yield
/// no finding.
pub proof fn lemma_issues_only_applied(records: Seq<MigrationRecord>, files: Seq<MigrationFile>)
    ensures
        forall|k: int|
            0 <= k < spec_issues(records, files).len() ==> has_version(
                records,
                issue_version(#[trigger] spec_issues(records, files)[k]),
            ),
    decreases records.len(),
{
    if records.len() > 0 {
        let rest = records.subrange(1, records.len() as int);
        lemma_issues_only_applied(rest, files);
        assert forall|k: int| 0 <= k < spec_issues(records, files).len() implies has_version(
            records,
            issue_version(#[trigger] spec_issues(records, files)[k]),
        ) by {
            let issues = spec_issues(records, files);
            let head_len: int = issues.len() - spec_issues(rest, files).len();
            if k < head_len {
                assert(issue_version(issues[k]) == records[0].version@);
                lemma_has_version_exists(records, records[0].version@);
            } else {
                assert(issues[k] == spec_issues(rest, files)[k - head_len]);
                let v = issue_version(spec_issues(rest, files)[k - head_len]);
                lemma_has_version_exists(rest, v);
                let j = choose|j: int| 0 <= j < rest.len() && rest[j].version@ == v;
                assert(records[j + 1] == rest[j]);
                lemma_has_version_exists(records, v);
            }
        }
    }
}

/// With ledger versions unique, no two findings share a version: at most
/// one finding per applied migration.
pub proof fn lemma_issues_distinct(records: Seq<MigrationRecord>, files: Seq<MigrationFile>)
    requires
        forall|i: int, j: int|
            0 <= i < j < records.len() ==> (#[trigger] records[i]).version@ != (
            #[trigger] records[j]).version@,
    ensures
        forall|k1: int, k2: int|
            0 <= k1 < k2 < spec_issues(records, files).len() ==> issue_version(
                #[trigger] spec_issues(records, files)[k1],
            ) != issue_version(#[trigger] spec_issues(records, files)[k2]),
    decreases records.len(),
{
    if records.len() > 0 {
        let rest = records.subrange(1, records.len() as int);
        assert forall|i: int, j: int| 0 <= i < j < rest.len() implies (
        #[trigger] rest[i]).version@ != (#[trigger] rest[j]).version@ by {
            assert(rest[i] == records[i + 1]);
            assert(rest[j] == records[j + 1]);
        }
        lemma_issues_distinct(rest, files);
        lemma_issues_only_applied(rest, files);
        assert forall|k1: int, k2: int|
            0 <= k1 < k2 < spec_issues(records, files).len() implies issue_version(
            #[trigger] spec_issues(records, files)[k1],
        ) != issue_version(#[trigger] spec_issues(records, files)[k2]) by {
            let issues = spec_issues(records, files);
            let rest_issues = spec_issues(rest, files);
            let head_len: int = issues.len() - rest_issues.len();
            if k1 < head_len {
                // k1 names the head record; k2 is a finding on the tail
                assert(issue_version(issues[k1]) == records[0].version@);
                assert(issues[k2] == rest_issues[k2 - head_len]);
                let v = issue_version(rest_issues[k2 - head_len]);
                assert(has_version(rest, v));
                lemma_has_version_exists(rest, v);
                let j = choose|j: int| 0 <= j < rest.len() && rest[j].version@ == v;
                assert(records[j + 1] == rest[j]);
                assert(records[0].version@ != records[j + 1].version@);
            } else {
                assert(issues[k1] == rest_issues[k1 - head_len]);
                assert(issues[k2] == rest_issues[k2 - head_len]);
            }
        }
    }
}

/// Every applied record whose file changed or vanished yields its
/// finding: nothing is passed over in silence.
pub proof fn lemma_issues_complete(records: Seq<MigrationRecord>, files: Seq<MigrationFile>)
    ensures
        forall|i: int|
            0 <= i < records.len() && file_idx_of(files, (#[trigger] records[i]).version@) < 0
                ==> spec_issues(records, files).contains(
                IntegrityIssue::MissingFile { version: records[i].version },
            ),
        forall|i: int|
            0 <= i < records.len() && file_idx_of(files, (#[trigger] records[i]).version@) >= 0
                && files[file_idx_of(files, records[i].version@)].checksum@ != records[i].checksum@
                ==> spec_issues(records, files).contains(
                IntegrityIssue::ChecksumMismatch {
                    version: records[i].version,
                    expected: records[i].checksum,
                    actual: files[file_idx_of(files, records[i].version@)].checksum,
                },
            ),
    decreases records.len(),
{
    if records.len() > 0 {
        let rest = records.subrange(1, records.len() as int);
        lemma_issues_complete(rest, files);
        let issues = spec_issues(records, files);
        let rest_issues = spec_issues(rest, files);
        let head_len: int = issues.len() - rest_issues.len();
        assert(0 <= head_len <= 1);
        assert(forall|k: int|
            0 <= k < rest_issues.len() ==> issues[head_len + k] == #[trigger] rest_issues[k]);
        assert forall|x: IntegrityIssue| rest_issues.contains(x) implies issues.contains(x) by {
            let k = choose|k: int| 0 <= k < rest_issues.len() && rest_issues[k] == x;
            assert(issues[head_len + k] == x);
        }
        assert forall|i: int|
            0 <= i < records.len() && file_idx_of(files, (#[trigger] records[i]).version@) < 0
                implies issues.contains(
            IntegrityIssue::MissingFile { version: records[i].version },
        ) by {
            if i == 0 {
                assert(issues[0] == IntegrityIssue::MissingFile { version: records[0].version });
            } else {
                assert(rest[i - 1] == records[i]);
                assert(rest_issues.contains(
                    IntegrityIssue::MissingFile { version: rest[i - 1].version },
                ));
            }
        }
        assert forall|i: int|
            0 <= i < records.len() && file_idx_of(files, (#[trigger] records[i]).version@) >= 0
                && files[file_idx_of(files, records[i].version@)].checksum@ != records[i].checksum@
                implies issues.contains(
            IntegrityIssue::ChecksumMismatch {
                version: records[i].version,
                expected: records[i].checksum,
                actual: files[file_idx_of(files, records[i].version@)].checksum,
            },
        ) by {
            if i == 0 {
                assert(issues[0] == IntegrityIssue::ChecksumMismatch {
                    version: records[0].version,
                    expected: records[0].checksum,
                    actual: files[file_idx_of(files, records[0].version@)].checksum,
                });
            } else {
                assert(rest[i - 1] == records[i]);
                assert(rest_issues.contains(
                    IntegrityIssue::ChecksumMismatch {
                        version: rest[i - 1].version,
                        expected: rest[i - 1].checksum,
                        actual: files[file_idx_of(files, rest[i - 1].version@)].checksum,
                    },
                ));
            }
        }
    }
}

/// Resets the whole ledger, gated by the destructive-operations flag:
/// with the flag off nothing changes and a configuration error comes
/// back.
pub fn reset_migrations(allow_destructive: bool, ledger: &mut Ledger) -> (r: Result<
    (),
    MigrationError,
>)
    ensures
        allow_destructive ==> r is Ok && final(ledger)@ == Seq::<MigrationRecord>::empty()
            && final(ledger).wf(),
        !allow_destructive ==> r is Err && final(ledger)@ == old(ledger)@ && (r matches Err(e)
            ==> e is ConfigError),
{
    if !allow_destructive {
        return Err(
            MigrationError::ConfigError(
                String::from_str("Destructive operations are disabled in configuration"),
            ),
        );
    }
    ledger.reset();
    Ok(())
}

/// The version views of a sequence of ledger records.
pub open spec fn record_versions(records: Seq<MigrationRecord>) -> Seq<Seq<char>> {
    records.map_values(|rec: MigrationRecord| rec.version@)
}

/// A batch stopped at this candidate for this reason; `during_force`
/// marks a failure of the forced record removal itself, reported apart
/// from statement failures.
#[derive(Debug)]
pub struct BatchFailure {
    pub version: String,
    pub error: MigrationError,
    pub during_force: bool,
}

/// What the apply loop is to do next.
#[derive(Debug)]
pub enum ApplyAction {
    Execute { version: String, statements: Vec<String> },
    Done,
}

/// The outcome of a batch: how many candidates went through, which, and
/// where the batch stopped, if it did.
#[derive(Debug)]
pub struct ApplyReport {
    pub applied_count: usize,
    pub applied_versions: Vec<String>,
    pub failure: Option<BatchFailure>,
}

/// The fail-fast apply batch: candidates in ascending version order, a
/// cursor, the versions applied so far, and the failure that stopped the
/// batch, if any. The caller asks for the next action, executes the
/// statements outside, and reports success or failure back; after a
/// failure no further candidate is attempted.
pub struct ApplyRun {
    candidates: Vec<MigrationFile>,
    next: usize,
    applied: Vec<String>,
    failure: Option<BatchFailure>,
}

impl ApplyRun {
    pub closed spec fn candidates_spec(&self) -> Seq<MigrationFile> {
        self.candidates@
    }

    pub closed spec fn next_spec(&self) -> int {
        self.next as int
    }

    pub closed spec fn applied_spec(&self) -> Seq<Seq<char>> {
        self.applied@.map_values(|s: String| s@)
    }

    pub closed spec fn failure_spec(&self) -> Option<BatchFailure> {
        self.failure
    }

    /// The cursor is in range, the applied versions are exactly the
    /// versions of the candidates before it, and a failure, if any,
    /// names the candidate at the cursor.
    pub open spec fn wf(&self) -> bool {
        &&& 0 <= self.next_spec() <= self.candidates_spec().len()
        &&& self.applied_spec() == versions_of(
            self.candidates_spec().take(self.next_spec()),
        )
        &&& (self.failure_spec() matches Some(bf) ==> {
            &&& self.next_spec() < self.candidates_spec().len()
            &&& bf.version@ == self.candidates_spec()[self.next_spec()].version@
        })
    }

    /// Still before the end and not stopped.
    pub open spec fn in_progress(&self) -> bool {
        self.failure_spec() is None && self.next_spec() < self.candidates_spec().len()
    }

    /// A batch over the given pending files, kept to the first `limit`
    /// candidates when a count is given.
    pub fn new(pending: Vec<MigrationFile>, limit: Option<usize>) -> (r: ApplyRun)
        ensures
            r.wf(),
            r.next_spec() == 0,
            r.applied_spec() == Seq::<Seq<char>>::empty(),
            r.failure_spec() is None,
            limit is None ==> r.candidates_spec() == pending@,
            limit matches Some(k) ==> r.candidates_spec() == pending@.subrange(
                0,
                if k < pending@.len() {
                    k as int
                } else {
                    pending@.len() as int
                },
            ),
    {
        let mut candidates = pending;
        match limit {
            Some(k) => {
                candidates.truncate(k);
            },
            None => {},
        }
        let r = ApplyRun { candidates, next: 0, applied: Vec::new(), failure: None };
        proof {
            assert(r.applied_spec() =~= versions_of(r.candidates_spec().take(0)));
        }
        r
    }

    /// Decides what to do for the candidate at the cursor: nothing when
    /// the batch is over; a pre-check failure when the version is
    /// already applied or the content fails to parse; otherwise the UP
    /// statements to execute.
    pub fn next_action(&mut self, ledger: &Ledger) -> (r: ApplyAction)
        requires
            old(self).wf(),
        ensures
            final(self).wf(),
            final(self).candidates_spec() == old(self).candidates_spec(),
            final(self).next_spec() == old(self).next_spec(),
            final(self).applied_spec() == old(self).applied_spec(),
            !old(self).in_progress() ==> r is Done && final(self).failure_spec() == old(self).failure_spec(),
            old(self).in_progress() ==> ({
                let c = old(self).candidates_spec()[old(self).next_spec()];
                &&& (has_version(ledger@, c.version@) ==> r is Done && (final(self).failure_spec() matches Some(bf) && bf.version@ == c.version@ && (bf.error
                    matches MigrationError::AlreadyApplied { version } && version@ == c.version@)
                    && !bf.during_force))
                &&& (!has_version(ledger@, c.version@) && crate::parser::up_text_of(
                    c.content@,
                ).len() == 0 ==> r is Done && (final(self).failure_spec() matches Some(bf)
                    && bf.version@ == c.version@ && (bf.error matches
                    MigrationError::InvalidFormat(detail) && detail@
                    == "Migration must contain at least UP section with CQL statements"@)
                    && !bf.during_force))
                &&& (!has_version(ledger@, c.version@) && crate::parser::up_text_of(
                    c.content@,
                ).len() > 0 ==> final(self).failure_spec() is None && (r matches
                    ApplyAction::Execute { version, statements } && version@ == c.version@
                    && statements@.map_values(|s: String| s@) == crate::parser::stmts_spec(
                    crate::parser::up_text_of(c.content@),
                )))
            }),
    {
        if self.failure.is_some() || self.next >= self.candidates.len() {
            return ApplyAction::Done;
        }
        let version = self.candidates[self.next].version.clone();
        if ledger.is_applied(version.as_str()) {
            self.failure = Some(
                BatchFailure {
                    version: version.clone(),
                    error: MigrationError::AlreadyApplied { version },
                    during_force: false,
                },
            );
            return ApplyAction::Done;
        }
        match crate::parser::parse_migration_content(self.candidates[self.next].content.as_str()) {
            Err(detail) => {
                self.failure = Some(
                    BatchFailure {
                        version,
                        error: MigrationError::InvalidFormat(detail),
                        during_force: false,
                    },
                );
                ApplyAction::Done
            },
            Ok((up, _down)) => {
                let statements = crate::parser::split_cql_statements(up.as_str());
                ApplyAction::Execute { version, statements }
            },
        }
    }

    /// Records that every statement of the candidate at the cursor went
    /// through: appends its ledger record with the given instant and
    /// moves on. A version raced into the ledger meanwhile is a failure
    /// that stops the batch.
    pub fn record_success(&mut self, ledger: &mut Ledger, applied_at: i64) -> (r: Result<
        (),
        MigrationError,
    >)
        requires
            old(self).wf(),
            old(self).in_progress(),
            old(ledger).wf(),
        ensures
            final(self).wf(),
            final(ledger).wf(),
            final(self).candidates_spec() == old(self).candidates_spec(),
            ({
                let c = old(self).candidates_spec()[old(self).next_spec()];
                &&& (!has_version(old(ledger)@, c.version@) ==> {
                    &&& r is Ok
                    &&& final(self).next_spec() == old(self).next_spec() + 1
                    &&& final(self).failure_spec() is None
                    &&& final(self).applied_spec() == old(self).applied_spec().push(c.version@)
                    &&& final(ledger)@.len() == old(ledger)@.len() + 1
                    &&& exists|i: int, rec: MigrationRecord|
                        {
                            &&& 0 <= i <= old(ledger)@.len()
                            &&& final(ledger)@ == old(ledger)@.insert(i, rec)
                            &&& rec.version@ == c.version@
                            &&& rec.checksum@ == c.checksum@
                            &&& rec.description@ == c.description@
                            &&& rec.applied_at == applied_at
                        }
                })
                &&& (forall|v: Seq<char>|
                    has_version(final(ledger)@, v) <==> has_version(old(ledger)@, v) || (!
                    has_version(old(ledger)@, c.version@) && v == c.version@))
                &&& (has_version(old(ledger)@, c.version@) ==> {
                    &&& r is Err
                    &&& final(ledger)@ == old(ledger)@
                    &&& final(self).next_spec() == old(self).next_spec()
                    &&& final(self).applied_spec() == old(self).applied_spec()
                    &&& (final(self).failure_spec() matches Some(bf) && bf.version@
                        == c.version@)
                })
            }),
    {
        let version = self.candidates[self.next].version.clone();
        let rec = MigrationRecord {
            version: self.candidates[self.next].version.clone(),
            applied_at,
            checksum: self.candidates[self.next].checksum.clone(),
            description: self.candidates[self.next].description.clone(),
        };
        match ledger.append(rec) {
            Ok(()) => {
                let ghost applied0 = self.applied@;
                self.applied.push(version);
                let cap = self.candidates.len();
                proof {
                    assert(self.next < cap);
                }
                self.next = self.next + 1;
                proof {
                    let c = self.candidates@[self.next - 1];
                    assert(self.candidates@.take(self.next as int) =~= self.candidates@.take(
                        self.next - 1,
                    ).push(c));
                    assert(self.applied@.map_values(|s: String| s@) =~= applied0.map_values(
                        |s: String| s@,
                    ).push(c.version@));
                    assert(versions_of(self.candidates@.take(self.next as int)) =~= versions_of(
                        self.candidates@.take(self.next - 1),
                    ).push(c.version@));
                }
                Ok(())
            },
            Err(e) => {
                self.failure = Some(
                    BatchFailure { version, error: e, during_force: false },
                );
                Err(
                    MigrationError::AlreadyApplied {
                        version: self.candidates[self.next].version.clone(),
                    },
                )
            },
        }
    }

    /// Records that a statement of the candidate at the cursor failed:
    /// the batch stops here, later candidates are not attempted.
    pub fn record_failure(&mut self, error: MigrationError)
        requires
            old(self).wf(),
            old(self).in_progress(),
        ensures
            final(self).wf(),
            final(self).candidates_spec() == old(self).candidates_spec(),
            final(self).next_spec() == old(self).next_spec(),
            final(self).applied_spec() == old(self).applied_spec(),
            final(self).failure_spec() matches Some(bf) && bf.version@ == old(self).candidates_spec()[old(self).next_spec()].version@ && bf.error == error
                && !bf.during_force,
    {
        let version = self.candidates[self.next].version.clone();
        self.failure = Some(BatchFailure { version, error, during_force: false });
    }

    /// The batch outcome: count and versions applied, and the failure
    /// that stopped the batch, if any.
    pub fn into_report(self) -> (r: ApplyReport)
        requires
            self.wf(),
        ensures
            r.applied_count == self.next_spec(),
            r.applied_versions@.map_values(|s: String| s@) == self.applied_spec(),
            r.failure == self.failure_spec(),
    {
        proof {
            assert(self.applied@.len() == self.applied_spec().len());
        }
        ApplyReport {
            applied_count: self.next,
            applied_versions: self.applied,
            failure: self.failure,
        }
    }
}

/// Fail-fast: a batch that stopped at a failing candidate has applied
/// exactly the candidates before it, in order, and touched none from the
/// failing one on.
pub proof fn lemma_apply_fail_fast(run: ApplyRun)
    requires
        run.wf(),
        run.failure_spec() is Some,
        forall|i: int, j: int|
            0 <= i < j < run.candidates_spec().len() ==> (#[trigger] run.candidates_spec()[i]).version@
                != (#[trigger] run.candidates_spec()[j]).version@,
    ensures
        run.applied_spec() == versions_of(run.candidates_spec().take(run.next_spec())),
        run.failure_spec() matches Some(bf) ==> bf.version@ == run.candidates_spec()[run.next_spec()].version@,
        forall|j: int|
            run.next_spec() <= j < run.candidates_spec().len() ==> !run.applied_spec().contains(
                (#[trigger] run.candidates_spec()[j]).version@,
            ),
{
    assert forall|j: int|
        run.next_spec() <= j < run.candidates_spec().len() implies !run.applied_spec().contains(
        (#[trigger] run.candidates_spec()[j]).version@,
    ) by {
        if run.applied_spec().contains(run.candidates_spec()[j].version@) {
            let k = choose|k: int|
                0 <= k < run.applied_spec().len() && run.applied_spec()[k]
                    == run.candidates_spec()[j].version@;
            assert(run.applied_spec()[k] == versions_of(
                run.candidates_spec().take(run.next_spec()),
            )[k]);
            assert(run.candidates_spec().take(run.next_spec())[k]
                == run.candidates_spec()[k]);
            assert(run.candidates_spec()[k].version@ == run.candidates_spec()[j].version@);
        }
    }
}

/// What the rollback loop is to do next: execute the DOWN statements,
/// or, under force, delete the ledger record without executing anything.
#[derive(Debug)]
pub enum RollbackAction {
    ExecuteDown { version: String, statements: Vec<String> },
    RemoveRecordOnly { version: String },
    Done,
}

/// The outcome of a rollback batch.
#[derive(Debug)]
pub struct RollbackReport {
    pub rolled_back_count: usize,
    pub rolled_back_versions: Vec<String>,
    pub failure: Option<BatchFailure>,
}

/// The fail-fast rollback batch: the most recently applied records
/// first, a cursor, the versions rolled back so far, the failure that
/// stopped the batch, and the force flag that lets a record be deleted
/// when its file or DOWN section is gone.
pub struct RollbackRun {
    candidates: Vec<MigrationRecord>,
    next: usize,
    rolled_back: Vec<String>,
    failure: Option<BatchFailure>,
    force: bool,
}

impl RollbackRun {
    pub closed spec fn candidates_spec(&self) -> Seq<MigrationRecord> {
        self.candidates@
    }

    pub closed spec fn next_spec(&self) -> int {
        self.next as int
    }

    pub closed spec fn rolled_back_spec(&self) -> Seq<Seq<char>> {
        self.rolled_back@.map_values(|s: String| s@)
    }

    pub closed spec fn failure_spec(&self) -> Option<BatchFailure> {
        self.failure
    }

    pub closed spec fn force_spec(&self) -> bool {
        self.force
    }

    /// The cursor is in range, the rolled back versions are exactly the
    /// versions of the candidates before it, and a failure, if any,
    /// names the candidate at the cursor.
    pub open spec fn wf(&self) -> bool {
        &&& 0 <= self.next_spec() <= self.candidates_spec().len()
        &&& self.rolled_back_spec() == record_versions(
            self.candidates_spec().take(self.next_spec()),
        )
        &&& (self.failure_spec() matches Some(bf) ==> {
            &&& self.next_spec() < self.candidates_spec().len()
            &&& bf.version@ == self.candidates_spec()[self.next_spec()].version@
        })
    }

    pub open spec fn in_progress(&self) -> bool {
        self.failure_spec() is None && self.next_spec() < self.candidates_spec().len()
    }

    /// A batch over the most recent `count` applied migrations, most
    /// recent first.
    #[verifier::loop_isolation(false)]
    pub fn new(ledger: &Ledger, count: usize, force: bool) -> (r: RollbackRun)
        requires
            ledger.wf(),
        ensures
            r.wf(),
            r.next_spec() == 0,
            r.rolled_back_spec() == Seq::<Seq<char>>::empty(),
            r.failure_spec() is None,
            r.force_spec() == force,
            r.candidates_spec().len() == if count < ledger@.len() {
                count as int
            } else {
                ledger@.len() as int
            },
            forall|k: int|
                0 <= k < r.candidates_spec().len() ==> #[trigger] r.candidates_spec()[k]
                    == ledger@[ledger@.len() - 1 - k],
    {
        let records = ledger.list();
        let n = records.len();
        let take_n = if count < n {
            count
        } else {
            n
        };
        let mut candidates: Vec<MigrationRecord> = Vec::new();
        let mut k: usize = 0;
        while k < take_n
            invariant
                k <= take_n <= n,
                n == ledger@.len(),
                candidates@.len() == k,
                forall|j: int|
                    0 <= j < k ==> #[trigger] candidates@[j] == ledger@[ledger@.len() - 1 - j],
            decreases take_n - k,
        {
            candidates.push(clone_record(&records[n - 1 - k]));
            k += 1;
        }
        let r = RollbackRun {
            candidates,
            next: 0,
            rolled_back: Vec::new(),
            failure: None,
            force,
        };
        proof {
            assert(r.rolled_back_spec() =~= record_versions(r.candidates_spec().take(0)));
        }
        r
    }

    /// Decides what to do for the candidate at the cursor: nothing when
    /// the batch is over; a failure when the record is gone from the
    /// ledger, its file is missing, its content fails to parse, or it
    /// has no DOWN section -- except that under force a missing file or
    /// missing DOWN section becomes a bare record removal; otherwise the
    /// DOWN statements to execute.
    pub fn next_action(&mut self, files: &Vec<MigrationFile>, ledger: &Ledger) -> (r:
        RollbackAction)
        requires
            old(self).wf(),
        ensures
            final(self).wf(),
            final(self).candidates_spec() == old(self).candidates_spec(),
            final(self).next_spec() == old(self).next_spec(),
            final(self).rolled_back_spec() == old(self).rolled_back_spec(),
            final(self).force_spec() == old(self).force_spec(),
            !old(self).in_progress() ==> r is Done && final(self).failure_spec() == old(self).failure_spec(),
            old(self).in_progress() ==> ({
                let c = old(self).candidates_spec()[old(self).next_spec()];
                let fi = file_idx_of(files@, c.version@);
                &&& (!has_version(ledger@, c.version@) ==> r is Done && (final(self).failure_spec() matches Some(bf) && bf.version@ == c.version@ && (bf.error
                    matches MigrationError::MigrationNotFound(missing) && missing@
                    == c.version@) && !bf.during_force))
                &&& (has_version(ledger@, c.version@) && fi < 0 && old(self).force_spec()
                    ==> final(self).failure_spec() is None && (r matches
                    RollbackAction::RemoveRecordOnly { version } && version@ == c.version@))
                &&& (has_version(ledger@, c.version@) && fi < 0 && !old(self).force_spec()
                    ==> r is Done && (final(self).failure_spec() matches Some(bf)
                    && bf.version@ == c.version@ && (bf.error matches
                    MigrationError::MigrationNotFound(missing) && missing@ == c.version@)
                    && !bf.during_force))
                &&& (has_version(ledger@, c.version@) && fi >= 0
                    && crate::parser::up_text_of(files@[fi].content@).len() == 0 ==> r is Done
                    && (final(self).failure_spec() matches Some(bf) && bf.version@
                    == c.version@ && (bf.error matches MigrationError::InvalidFormat(detail)
                    && detail@
                    == "Migration must contain at least UP section with CQL statements"@)
                    && !bf.during_force))
                &&& (has_version(ledger@, c.version@) && fi >= 0
                    && crate::parser::up_text_of(files@[fi].content@).len() > 0
                    && crate::parser::down_text_of(files@[fi].content@).len() == 0
                    && old(self).force_spec() ==> final(self).failure_spec() is None && (r
                    matches RollbackAction::RemoveRecordOnly { version } && version@
                    == c.version@))
                &&& (has_version(ledger@, c.version@) && fi >= 0
                    && crate::parser::up_text_of(files@[fi].content@).len() > 0
                    && crate::parser::down_text_of(files@[fi].content@).len() == 0
                    && !old(self).force_spec() ==> r is Done && (final(self).failure_spec()
                    matches Some(bf) && bf.version@ == c.version@ && (bf.error matches
                    MigrationError::RollbackError { version, reason } && version@
                    == c.version@ && reason@ == "No DOWN section found in migration"@)
                    && !bf.during_force))
                &&& (has_version(ledger@, c.version@) && fi >= 0
                    && crate::parser::up_text_of(files@[fi].content@).len() > 0
                    && crate::parser::down_text_of(files@[fi].content@).len() > 0 ==> final(self).failure_spec() is None && (r matches RollbackAction::ExecuteDown {
                    version,
                    statements,
                } && version@ == c.version@ && statements@.map_values(|s: String| s@)
                    == crate::parser::stmts_spec(crate::parser::down_text_of(
                    files@[fi].content@,
                ))))
            }),
    {
        if self.failure.is_some() || self.next >= self.candidates.len() {
            return RollbackAction::Done;
        }
        let version = self.candidates[self.next].version.clone();
        if !ledger.is_applied(version.as_str()) {
            self.failure = Some(
                BatchFailure {
                    version: version.clone(),
                    error: MigrationError::MigrationNotFound(version),
                    during_force: false,
                },
            );
            return RollbackAction::Done;
        }
        match find_file(files, version.as_str()) {
            None => {
                if self.force {
                    RollbackAction::RemoveRecordOnly { version }
                } else {
                    self.failure = Some(
                        BatchFailure {
                            version: version.clone(),
                            error: MigrationError::MigrationNotFound(version),
                            during_force: false,
                        },
                    );
                    RollbackAction::Done
                }
            },
            Some(file) => {
                match crate::parser::parse_migration_content(file.content.as_str()) {
                    Err(detail) => {
                        self.failure = Some(
                            BatchFailure {
                                version,
                                error: MigrationError::InvalidFormat(detail),
                                during_force: false,
                            },
                        );
                        RollbackAction::Done
                    },
                    Ok((_up, down)) => {
                        match down {
                            None => {
                                if self.force {
                                    RollbackAction::RemoveRecordOnly { version }
                                } else {
                                    self.failure = Some(
                                        BatchFailure {
                                            version: version.clone(),
                                            error: MigrationError::RollbackError {
                                                version,
                                                reason: String::from_str(
                                                    "No DOWN section found in migration",
                                                ),
                                            },
                                            during_force: false,
                                        },
                                    );
                                    RollbackAction::Done
                                }
                            },
                            Some(down_content) => {
                                let statements = crate::parser::split_cql_statements(
                                    down_content.as_str(),
                                );
                                RollbackAction::ExecuteDown { version, statements }
                            },
                        }
                    },
                }
            },
        }
    }

    /// Records that the candidate at the cursor was rolled back -- its
    /// DOWN statements all executed, or its record force-removed -- and
    /// deletes its ledger record.
    pub fn record_rolled_back(&mut self, ledger: &mut Ledger)
        requires
            old(self).wf(),
            old(self).in_progress(),
            old(ledger).wf(),
        ensures
            final(self).wf(),
            final(ledger).wf(),
            final(self).candidates_spec() == old(self).candidates_spec(),
            final(self).force_spec() == old(self).force_spec(),
            final(self).failure_spec() is None,
            final(self).next_spec() == old(self).next_spec() + 1,
            ({
                let c = old(self).candidates_spec()[old(self).next_spec()];
                &&& final(self).rolled_back_spec() == old(self).rolled_back_spec().push(
                    c.version@,
                )
                &&& (forall|v: Seq<char>|
                    has_version(final(ledger)@, v) <==> has_version(old(ledger)@, v) && v
                        != c.version@)
                &&& (has_version(old(ledger)@, c.version@) ==> {
                    &&& final(ledger)@.len() + 1 == old(ledger)@.len()
                    &&& exists|i: int|
                        {
                            &&& 0 <= i < old(ledger)@.len()
                            &&& old(ledger)@[i].version@ == c.version@
                            &&& final(ledger)@ == old(ledger)@.remove(i)
                        }
                })
                &&& (!has_version(old(ledger)@, c.version@) ==> final(ledger)@ == old(ledger)@)
            }),
    {
        let version = self.candidates[self.next].version.clone();
        ledger.remove(version.as_str());
        let ghost rolled0 = self.rolled_back@;
        self.rolled_back.push(version);
        let cap = self.candidates.len();
        proof {
            assert(self.next < cap);
        }
        self.next = self.next + 1;
        proof {
            let c = self.candidates@[self.next - 1];
            assert(self.candidates@.take(self.next as int) =~= self.candidates@.take(
                self.next - 1,
            ).push(c));
            assert(self.rolled_back@.map_values(|s: String| s@) =~= rolled0.map_values(
                |s: String| s@,
            ).push(c.version@));
            assert(record_versions(self.candidates@.take(self.next as int)) =~= record_versions(
                self.candidates@.take(self.next - 1),
            ).push(c.version@));
        }
    }

    /// Records that rolling back the candidate at the cursor failed:
    /// the batch stops here. `during_force` marks a failure of the
    /// forced record removal itself.
    pub fn record_failure(&mut self, error: MigrationError, during_force: bool)
        requires
            old(self).wf(),
            old(self).in_progress(),
        ensures
            final(self).wf(),
            final(self).candidates_spec() == old(self).candidates_spec(),
            final(self).next_spec() == old(self).next_spec(),
            final(self).rolled_back_spec() == old(self).rolled_back_spec(),
            final(self).force_spec() == old(self).force_spec(),
            final(self).failure_spec() matches Some(bf) && bf.version@ == old(self).candidates_spec()[old(self).next_spec()].version@ && bf.error == error
                && bf.during_force == during_force,
    {
        let version = self.candidates[self.next].version.clone();
        self.failure = Some(BatchFailure { version, error, during_force });
    }

    /// The batch outcome: count and versions rolled back, and the
    /// failure that stopped the batch, if any.
    pub fn into_report(self) -> (r: RollbackReport)
        requires
            self.wf(),
        ensures
            r.rolled_back_count == self.next_spec(),
            r.rolled_back_versions@.map_values(|s: String| s@) == self.rolled_back_spec(),
            r.failure == self.failure_spec(),
    {
        proof {
            assert(self.rolled_back@.len() == self.rolled_back_spec().len());
        }
        RollbackReport {
            rolled_back_count: self.next,
            rolled_back_versions: self.rolled_back,
            failure: self.failure,
        }
    }
}

/// Fail-fast for rollback: a batch that stopped at a failing candidate
/// has rolled back exactly the candidates before it, and touched none
/// from the failing one on.
pub proof fn lemma_rollback_fail_fast(run: RollbackRun)
    requires
        run.wf(),
        run.failure_spec() is Some,
        forall|i: int, j: int|
            0 <= i < j < run.candidates_spec().len() ==> (
            #[trigger] run.candidates_spec()[i]).version@ != (
            #[trigger] run.candidates_spec()[j]).version@,
    ensures
        run.rolled_back_spec() == record_versions(
            run.candidates_spec().take(run.next_spec()),
        ),
        run.failure_spec() matches Some(bf) ==> bf.version@ == run.candidates_spec()[run.next_spec()].version@,
        forall|j: int|
            run.next_spec() <= j < run.candidates_spec().len() ==> !run.rolled_back_spec().contains(
                (#[trigger] run.candidates_spec()[j]).version@,
            ),
{
    assert forall|j: int|
        run.next_spec() <= j < run.candidates_spec().len() implies !run.rolled_back_spec().contains(
        (#[trigger] run.candidates_spec()[j]).version@,
    ) by {
        if run.rolled_back_spec().contains(run.candidates_spec()[j].version@) {
            let k = choose|k: int|
                0 <= k < run.rolled_back_spec().len() && run.rolled_back_spec()[k]
                    == run.candidates_spec()[j].version@;
            assert(run.rolled_back_spec()[k] == record_versions(
                run.candidates_spec().take(run.next_spec()),
            )[k]);
            assert(run.candidates_spec().take(run.next_spec())[k]
                == run.candidates_spec()[k]);
            assert(run.candidates_spec()[k].version@ == run.candidates_spec()[j].version@);
        }
    }
}

/// Once the ledger holds every file's version, the pending set is empty.
pub proof fn lemma_pending_empty_when_covered(
    files: Seq<MigrationFile>,
    records: Seq<MigrationRecord>,
)
    requires
        forall|k: int|
            0 <= k < files.len() ==> has_version(records, (#[trigger] files[k]).version@),
    ensures
        spec_pending(files, records) == Seq::<MigrationFile>::empty(),
    decreases files.len(),
{
    if files.len() > 0 {
        let rest = files.subrange(1, files.len() as int);
        assert forall|k: int|
            0 <= k < rest.len() implies has_version(records, (#[trigger] rest[k]).version@) by {
            assert(rest[k] == files[k + 1]);
        }
        lemma_pending_empty_when_covered(rest, records);
    }
}

/// A file whose version the ledger lacks stands in the pending set.
pub proof fn lemma_pending_contains_unapplied(
    files: Seq<MigrationFile>,
    records: Seq<MigrationRecord>,
    k: int,
)
    requires
        0 <= k < files.len(),
        !has_version(records, files[k].version@),
    ensures
        versions_of(spec_pending(files, records)).contains(files[k].version@),
    decreases files.len(),
{
    let pend = spec_pending(files, records);
    let rest = files.subrange(1, files.len() as int);
    let rest_pend = spec_pending(rest, records);
    if k == 0 {
        assert(pend[0] == files[0]);
        assert(versions_of(pend)[0] == files[0].version@);
    } else {
        assert(rest[k - 1] == files[k]);
        lemma_pending_contains_unapplied(rest, records, k - 1);
        let m = choose|m: int|
            0 <= m < versions_of(rest_pend).len() && versions_of(rest_pend)[m] == files[k].version@;
        let head_len: int = pend.len() - rest_pend.len();
        assert(0 <= head_len <= 1);
        assert(forall|j: int| 0 <= j < rest_pend.len() ==> pend[head_len + j] == #[trigger] rest_pend[j]);
        assert(pend[head_len + m] == rest_pend[m]);
        assert(versions_of(pend)[head_len + m] == files[k].version@);
    }
}

/// Idempotence of apply: a run that added exactly the pending versions
/// to the ledger leaves nothing pending, so a second run finds an empty
/// pending set and performs no mutation.
pub proof fn lemma_apply_idempotent(
    files: Seq<MigrationFile>,
    before: Seq<MigrationRecord>,
    after: Seq<MigrationRecord>,
)
    requires
        forall|v: Seq<char>|
            has_version(after, v) <==> has_version(before, v) || versions_of(
                spec_pending(files, before),
            ).contains(v),
    ensures
        spec_pending(files, after) == Seq::<MigrationFile>::empty(),
{
    assert forall|k: int|
        0 <= k < files.len() implies has_version(after, (#[trigger] files[k]).version@) by {
        if !has_version(before, files[k].version@) {
            lemma_pending_contains_unapplied(files, before, k);
        }
    }
    lemma_pending_empty_when_covered(files, after);
}

} // verus!
