//! File discovery logic: filters directory entries to the migration
//! naming convention, derives version, description and checksum for each,
//! and orders the result by version ascending. Reading the directory and
//! the file texts happens outside; the entries come in as plain values.
use vstd::prelude::*;

use crate::MigrationFile;
use crate::codec::{
    calculate_checksum, cql_suffix, description_of, ends_with,
    extract_description_from_filename, extract_version_from_filename, has_cql_extension,
    sha256_hex_of, strip_cql, version_pattern,
};
use crate::text::{lex_lt, lemma_lex_lt_trichotomy, str_lt};

verus! {

/// A directory entry handed to discovery: the file name, the full path,
/// and the file's text.
pub struct ScannedFile {
    pub name: String,
    pub path: String,
    pub content: String,
}

/// The views of a migration file's fields: version, description, path,
/// content, checksum.
pub open spec fn file_key(f: MigrationFile) -> (Seq<char>, Seq<char>, Seq<char>, Seq<char>, Seq<char>) {
    (f.version@, f.description@, f.file_path@, f.content@, f.checksum@)
}

/// The views a valid entry must produce: the stem as version, the derived
/// description, the path, the content, and the content's digest.
pub open spec fn entry_key(e: ScannedFile) -> (Seq<char>, Seq<char>, Seq<char>, Seq<char>, Seq<char>) {
    (
        strip_cql(e.name@),
        description_of(strip_cql(e.name@)),
        e.path@,
        e.content@,
        sha256_hex_of(e.content@),
    )
}

/// Whether an entry's name carries the fixed extension and a stem that
/// matches the version pattern.
pub open spec fn entry_valid(e: ScannedFile) -> bool {
    ends_with(e.name@, cql_suffix()) && version_pattern(strip_cql(e.name@))
}

/// The keys of the entries whose names carry the extension and match the
/// version pattern, in order; other entries are skipped, never an error.
pub open spec fn valid_keys(entries: Seq<ScannedFile>) -> Seq<
    (Seq<char>, Seq<char>, Seq<char>, Seq<char>, Seq<char>),
>
    decreases entries.len(),
{
    if entries.len() == 0 {
        Seq::empty()
    } else {
        let rest = valid_keys(entries.subrange(1, entries.len() as int));
        if entry_valid(entries[0]) {
            seq![entry_key(entries[0])] + rest
        } else {
            rest
        }
    }
}

pub proof fn lemma_valid_keys_concat(a: Seq<ScannedFile>, b: Seq<ScannedFile>)
    ensures
        valid_keys(a + b) == valid_keys(a) + valid_keys(b),
    decreases a.len(),
{
    if a.len() == 0 {
        assert(a + b =~= b);
        assert(valid_keys(a) + valid_keys(b) =~= valid_keys(b));
    } else {
        let a1 = a.subrange(1, a.len() as int);
        lemma_valid_keys_concat(a1, b);
        assert((a + b).subrange(1, (a + b).len() as int) =~= a1 + b);
        assert((a + b)[0] == a[0]);
        assert(valid_keys(a + b) =~= valid_keys(a) + valid_keys(b));
    }
}

/// Versions never decrease along the sequence.
pub open spec fn sorted_by_version(files: Seq<MigrationFile>) -> bool {
    forall|i: int, j: int|
        0 <= i < j < files.len() ==> !lex_lt(files[j].version@, files[i].version@)
}

proof fn lemma_to_multiset_insert<A>(s: Seq<A>, i: int, x: A)
    requires
        0 <= i <= s.len(),
    ensures
        s.insert(i, x).to_multiset() == s.to_multiset().insert(x),
{
    broadcast use vstd::seq_lib::group_to_multiset_ensures;

    let front = s.subrange(0, i);
    let back = s.subrange(i, s.len() as int);
    vstd::seq_lib::lemma_multiset_commutative(front.push(x), back);
    vstd::seq_lib::lemma_multiset_commutative(front, back);
    assert(front + back =~= s);
    assert(front.push(x).to_multiset() == front.to_multiset().insert(x));
    assert(s.insert(i, x).to_multiset() =~= s.to_multiset().insert(x));
}

/// Each file of the result is internally consistent: its version is the
/// stem of a valid name, its checksum the digest of its content, its
/// description derived from its version.
pub open spec fn file_wf(f: MigrationFile) -> bool {
    &&& version_pattern(f.version@)
    &&& f.checksum@ == sha256_hex_of(f.content@)
    &&& f.description@ == description_of(f.version@)
}

/// Builds the known set of migration files from directory entries:
/// entries whose names fail the naming convention are skipped silently;
/// the rest carry their stem as version, the derived description, and the
/// content digest. The result is ordered by version ascending -- the
/// order in which a batch applies them. For names under the naming
/// convention this is the file-name order too, except when one stem is a
/// proper prefix of another whose next character orders below the dot of
/// the extension.
#[verifier::loop_isolation(false)]
pub fn collect_migration_files(entries: &Vec<ScannedFile>) -> (r: Vec<MigrationFile>)
    ensures
        sorted_by_version(r@),
        forall|k: int| 0 <= k < r@.len() ==> file_wf(#[trigger] r@[k]),
        r@.map_values(|f: MigrationFile| file_key(f)).to_multiset() == valid_keys(
            entries@,
        ).to_multiset(),
{
    broadcast use vstd::seq_lib::group_to_multiset_ensures;

    let mut out: Vec<MigrationFile> = Vec::new();
    let n = entries.len();
    let mut i: usize = 0;
    proof {
        assert(entries@.subrange(0, 0) =~= Seq::<ScannedFile>::empty());
        assert(out@.map_values(|f: MigrationFile| file_key(f))
            =~= Seq::<(Seq<char>, Seq<char>, Seq<char>, Seq<char>, Seq<char>)>::empty());
    }
    while i < n
        invariant
            i <= n,
            sorted_by_version(out@),
            forall|k: int| 0 <= k < out@.len() ==> file_wf(#[trigger] out@[k]),
            out@.map_values(|f: MigrationFile| file_key(f)).to_multiset() == valid_keys(
                entries@.subrange(0, i as int),
            ).to_multiset(),
        decreases n - i,
    {
        let ghost prefix = entries@.subrange(0, i as int);
        let ghost e = entries@[i as int];
        proof {
            assert(entries@.subrange(0, i + 1) =~= prefix + seq![e]);
            lemma_valid_keys_concat(prefix, seq![e]);
            assert(seq![e].subrange(1, 1) =~= Seq::<ScannedFile>::empty());
            assert(valid_keys(Seq::<ScannedFile>::empty())
                == Seq::<(Seq<char>, Seq<char>, Seq<char>, Seq<char>, Seq<char>)>::empty());
            assert(valid_keys(seq![e].subrange(1, 1))
                == Seq::<(Seq<char>, Seq<char>, Seq<char>, Seq<char>, Seq<char>)>::empty());
            assert(seq![e][0] == e);
            if entry_valid(e) {
                assert(valid_keys(seq![e]) == seq![entry_key(e)] + Seq::empty());
                assert(seq![entry_key(e)] + Seq::<(Seq<char>, Seq<char>, Seq<char>, Seq<char>, Seq<char>)>::empty()
                    =~= seq![entry_key(e)]);
            } else {
                assert(valid_keys(seq![e])
                    == Seq::<(Seq<char>, Seq<char>, Seq<char>, Seq<char>, Seq<char>)>::empty());
            }
        }
        let entry = &entries[i];
        let named_ok = has_cql_extension(entry.name.as_str());
        match if named_ok {
            extract_version_from_filename(entry.name.as_str())
        } else {
            None
        } {
            Some(version) => {
                let description = extract_description_from_filename(entry.name.as_str());
                let checksum = calculate_checksum(entry.content.as_str());
                let file = MigrationFile {
                    version,
                    description,
                    file_path: entry.path.clone(),
                    content: entry.content.clone(),
                    checksum,
                };
                proof {
                    assert(file_key(file) == entry_key(e));
                    assert(file_wf(file));
                }
                // find the insertion point keeping versions ascending
                let mut pos: usize = 0;
                let m = out.len();
                while pos < m && str_lt(out[pos].version.as_str(), file.version.as_str())
                    invariant
                        pos <= m,
                        m == out@.len(),
                        forall|j: int|
                            0 <= j < pos ==> lex_lt(
                                (#[trigger] out@[j]).version@,
                                file.version@,
                            ),
                    decreases m - pos,
                {
                    pos += 1;
                }
                let ghost out0 = out@;
                out.insert(pos, file);
                proof {
                    out0.insert_ensures(pos as int, file);
                    lemma_to_multiset_insert(out0, pos as int, file);
                    assert(out@.map_values(|f: MigrationFile| file_key(f)) =~= out0.map_values(
                        |f: MigrationFile| file_key(f),
                    ).insert(pos as int, file_key(file)));
                    lemma_to_multiset_insert(
                        out0.map_values(|f: MigrationFile| file_key(f)),
                        pos as int,
                        file_key(file),
                    );
                    let vk0 = valid_keys(prefix);
                    assert(valid_keys(entries@.subrange(0, i + 1)) == vk0 + seq![entry_key(e)]);
                    assert(vk0 + seq![entry_key(e)] =~= vk0.push(entry_key(e)));
                    assert(out@.map_values(|f: MigrationFile| file_key(f)).to_multiset()
                        == valid_keys(entries@.subrange(0, i + 1)).to_multiset());
                    assert forall|p: int, q: int| 0 <= p < q < out@.len() implies !lex_lt(
                        out@[q].version@,
                        out@[p].version@,
                    ) by {
                        if pos < m {
                            lemma_lex_lt_trichotomy(out0[pos as int].version@, file.version@);
                        }
                        if q < pos {
                            assert(out@[p] == out0[p]);
                            assert(out@[q] == out0[q]);
                        } else if p < pos && q == pos {
                            assert(out@[p] == out0[p]);
                            assert(out@[q] == file);
                            if lex_lt(file.version@, out0[p].version@) {
                                crate::text::lemma_lex_lt_trans(
                                    file.version@,
                                    out0[p].version@,
                                    file.version@,
                                );
                                crate::text::lemma_lex_lt_irrefl(file.version@);
                            }
                        } else if p < pos && q > pos {
                            assert(out@[p] == out0[p]);
                            assert(out@[q] == out0[q - 1]);
                        } else if p == pos {
                            assert(out@[p] == file);
                            assert(out@[q] == out0[q - 1]);
                            if lex_lt(out0[q - 1].version@, file.version@) {
                                // out0[pos] <= out0[q-1] < file contradicts the loop exit
                                assert(pos < m);
                                if pos < q - 1 {
                                    assert(!lex_lt(out0[q - 1].version@, out0[pos as int].version@));
                                }
                                if lex_lt(file.version@, out0[pos as int].version@) {
                                    crate::text::lemma_lex_lt_trans(
                                        out0[q - 1].version@,
                                        file.version@,
                                        out0[pos as int].version@,
                                    );
                                }
                                if file.version@ == out0[pos as int].version@ {
                                    crate::text::lemma_lex_lt_irrefl(file.version@);
                                }
                            }
                        } else {
                            assert(out@[p] == out0[p - 1]);
                            assert(out@[q] == out0[q - 1]);
                        }
                    }
                }
            },
            None => {
                proof {
                    assert(valid_keys(entries@.subrange(0, i + 1)) == valid_keys(prefix)
                        + Seq::empty());
                    assert(valid_keys(entries@.subrange(0, i + 1)) =~= valid_keys(prefix));
                }
            },
        }
        i += 1;
    }
    proof {
        assert(entries@.subrange(0, n as int) =~= entries@);
    }
    out
}

} // verus!
