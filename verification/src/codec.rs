//! Filename codec and content digest: derives the version identifier and
//! human description from a migration file name, builds new file names,
//! and computes the content integrity checksum.
use vstd::prelude::*;

use crate::text::{
    dec_padded, is_digit, is_digit_char, join_char, lemma_dec_padded_exact,
    lemma_split_append_sep, lemma_split_len, lemma_split_of_sep_free, pow10, push_decimal,
    split_char,
};
use chrono::Datelike;
use chrono::Timelike;
use sha2::Digest;

verus! {

/// The fixed extension of migration files, as a character sequence.
pub open spec fn cql_suffix() -> Seq<char> {
    seq!['.', 'c', 'q', 'l']
}

pub open spec fn ends_with(s: Seq<char>, suffix: Seq<char>) -> bool {
    suffix.len() <= s.len() && s.subrange(s.len() - suffix.len(), s.len() as int) == suffix
}

/// The stem of a file name: the name with one trailing `.cql` removed,
/// when it carries the extension; never more than one, so a stem may
/// itself end in `.cql` and the name remains recoverable from the stem.
pub open spec fn strip_cql(s: Seq<char>) -> Seq<char> {
    if ends_with(s, cql_suffix()) {
        s.subrange(0, s.len() - 4)
    } else {
        s
    }
}

/// Scanning from position `i`, the characters are digits until either the
/// end of the sequence or an underscore.
pub open spec fn digits_then_sep(s: Seq<char>, i: int) -> bool
    decreases s.len() - i,
{
    if i < 0 || i > s.len() {
        false
    } else if i == s.len() {
        true
    } else if s[i] == '_' {
        true
    } else if is_digit_char(s[i]) {
        digits_then_sep(s, i + 1)
    } else {
        false
    }
}

/// A stem names a migration when it begins with exactly eight digits, an
/// underscore, then one or more digits ended by an underscore or by the
/// end of the stem.
pub open spec fn version_pattern(s: Seq<char>) -> bool {
    &&& s.len() >= 10
    &&& forall|i: int| 0 <= i < 8 ==> is_digit_char(s[i])
    &&& s[8] == '_'
    &&& is_digit_char(s[9])
    &&& digits_then_sep(s, 10)
}

/// The index where the stem of the file name ends: the length of the
/// name with one trailing `.cql` removed.
fn stem_end(filename: &str) -> (r: usize)
    ensures
        r <= filename@.len(),
        filename@.subrange(0, r as int) == strip_cql(filename@),
{
    let n = filename.unicode_len();
    if has_cql_extension(filename) {
        n - 4
    } else {
        proof {
            assert(filename@.subrange(0, n as int) =~= filename@);
        }
        n
    }
}

/// Whether the file name ends with the fixed extension.
pub fn has_cql_extension(filename: &str) -> (r: bool)
    ensures
        r == ends_with(filename@, cql_suffix()),
{
    let n = filename.unicode_len();
    if n < 4 {
        return false;
    }
    let r = filename.get_char(n - 4) == '.' && filename.get_char(n - 3) == 'c'
        && filename.get_char(n - 2) == 'q' && filename.get_char(n - 1) == 'l';
    proof {
        let tail = filename@.subrange(n - 4, n as int);
        if r {
            assert(tail =~= cql_suffix());
        } else {
            if tail =~= cql_suffix() {
                assert(filename@[n - 4] == '.');
                assert(filename@[n - 3] == 'c');
                assert(filename@[n - 2] == 'q');
                assert(filename@[n - 1] == 'l');
                assert(false);
            }
        }
    }
    r
}

proof fn lemma_digits_then_sep_skip(s: Seq<char>, a: int, b: int)
    requires
        0 <= a <= b <= s.len(),
        forall|j: int| a <= j < b ==> is_digit_char(s[j]),
    ensures
        digits_then_sep(s, a) == digits_then_sep(s, b),
    decreases b - a,
{
    if a < b {
        if s[a] == '_' {
            assert(is_digit_char(s[a]));
            assert(false);
        }
        lemma_digits_then_sep_skip(s, a + 1, b);
    }
}

/// The version identifier derived from a migration file name: the whole
/// stem, returned exactly when the stem matches the version pattern.
pub fn extract_version_from_filename(filename: &str) -> (r: Option<String>)
    ensures
        r is Some <==> version_pattern(strip_cql(filename@)),
        r matches Some(v) ==> v@ == strip_cql(filename@),
{
    let n = stem_end(filename);
    let ghost stem = strip_cql(filename@);
    proof {
        assert(stem.len() == n);
        assert(forall|j: int| 0 <= j < n ==> stem[j] == filename@[j]);
    }
    if n < 10 {
        return None;
    }
    let mut i: usize = 0;
    while i < 8
        invariant
            i <= 8,
            stem == strip_cql(filename@),
            n == stem.len(),
            10 <= n <= filename@.len(),
            forall|j: int| 0 <= j < n ==> stem[j] == filename@[j],
            forall|j: int| 0 <= j < i ==> is_digit_char(stem[j]),
        decreases 8 - i,
    {
        if !is_digit(filename.get_char(i)) {
            proof {
                assert(!is_digit_char(stem[i as int]));
                assert(!version_pattern(stem));
            }
            return None;
        }
        i += 1;
    }
    if filename.get_char(8) != '_' {
        proof {
            assert(stem[8] != '_');
        }
        return None;
    }
    if !is_digit(filename.get_char(9)) {
        proof {
            assert(!is_digit_char(stem[9]));
        }
        return None;
    }
    let mut k: usize = 10;
    while k < n && is_digit(filename.get_char(k))
        invariant
            10 <= k <= n,
            n == stem.len(),
            n <= filename@.len(),
            forall|j: int| 0 <= j < n ==> stem[j] == filename@[j],
            forall|j: int| 10 <= j < k ==> is_digit_char(stem[j]),
        decreases n - k,
    {
        k += 1;
    }
    proof {
        lemma_digits_then_sep_skip(stem, 10, k as int);
    }
    if k < n && filename.get_char(k) != '_' {
        proof {
            assert(!digits_then_sep(stem, k as int));
        }
        return None;
    }
    let stem_str = filename.substring_char(0, n);
    proof {
        assert(stem_str@ =~= stem);
        assert(version_pattern(stem));
    }
    Some(stem_str.to_owned())
}

/// Whether a file name follows the migration naming convention.
pub fn is_valid_migration_filename(filename: &str) -> (r: bool)
    ensures
        r == version_pattern(strip_cql(filename@)),
{
    match extract_version_from_filename(filename) {
        Some(_) => true,
        None => false,
    }
}

/// The description derived from a stem: with three or more
/// underscore-separated segments, the segments after the second joined by
/// spaces; otherwise the stem itself.
pub open spec fn description_of(stem: Seq<char>) -> Seq<char> {
    let parts = split_char(stem, '_');
    if parts.len() >= 3 {
        join_char(parts.subrange(2, parts.len() as int), ' ')
    } else {
        stem
    }
}

proof fn lemma_join_head(c: char, r: Seq<Seq<char>>, rep: char)
    requires
        r.len() >= 1,
    ensures
        join_char(seq![seq![c] + r[0]] + r.subrange(1, r.len() as int), rep) == seq![c]
            + join_char(r, rep),
{
    let pieces = seq![seq![c] + r[0]] + r.subrange(1, r.len() as int);
    if r.len() == 1 {
        assert(join_char(pieces, rep) == pieces[0]);
        assert(join_char(r, rep) == r[0]);
        assert(pieces[0] =~= seq![c] + r[0]);
    } else {
        assert(pieces.len() >= 2);
        assert(pieces.subrange(1, pieces.len() as int) =~~= r.subrange(1, r.len() as int));
        assert(join_char(pieces, rep) == pieces[0] + seq![rep] + join_char(
            r.subrange(1, r.len() as int),
            rep,
        ));
        assert(join_char(r, rep) == r[0] + seq![rep] + join_char(
            r.subrange(1, r.len() as int),
            rep,
        ));
        assert(pieces[0] + seq![rep] + join_char(r.subrange(1, r.len() as int), rep) =~= seq![c]
            + join_char(r, rep));
    }
}

/// Joining the pieces of a split with a replacement character is the same
/// as replacing each separator by that character.
proof fn lemma_join_split_replace(t: Seq<char>, sep: char, rep: char)
    ensures
        join_char(split_char(t, sep), rep) == t.map_values(
            |c: char| if c == sep { rep } else { c },
        ),
    decreases t.len(),
{
    let f = |c: char| if c == sep { rep } else { c };
    if t.len() == 0 {
        assert(t.map_values(f) =~= Seq::<char>::empty());
    } else {
        let t1 = t.subrange(1, t.len() as int);
        lemma_join_split_replace(t1, sep, rep);
        lemma_split_len(t1, sep);
        if t[0] == sep {
            let pieces = seq![Seq::<char>::empty()] + split_char(t1, sep);
            assert(pieces.len() >= 2);
            assert(pieces.subrange(1, pieces.len() as int) =~~= split_char(t1, sep));
            assert(join_char(pieces, rep) == pieces[0] + seq![rep] + join_char(
                split_char(t1, sep),
                rep,
            ));
            assert(pieces[0] + seq![rep] + t1.map_values(f) =~= t.map_values(f));
        } else {
            lemma_join_head(t[0], split_char(t1, sep), rep);
            assert(seq![t[0]] + t1.map_values(f) =~= t.map_values(f));
        }
    }
}

/// The description read from a migration file name.
#[verifier::rlimit(50)]
#[verifier::spinoff_prover]
pub fn extract_description_from_filename(filename: &str) -> (r: String)
    ensures
        r@ == description_of(strip_cql(filename@)),
{
    let n = stem_end(filename);
    let ghost stem = strip_cql(filename@);
    proof {
        assert(stem.len() == n);
        assert(forall|j: int| 0 <= j < n ==> stem[j] == filename@[j]);
    }
    // find the first two underscores of the stem
    let mut p1: usize = 0;
    while p1 < n && filename.get_char(p1) != '_'
        invariant
            p1 <= n,
            n == stem.len(),
            n <= filename@.len(),
            forall|j: int| 0 <= j < n ==> stem[j] == filename@[j],
            forall|j: int| 0 <= j < p1 ==> stem[j] != '_',
        decreases n - p1,
    {
        p1 += 1;
    }
    if p1 == n {
        // no underscore: fewer than three segments
        proof {
            assert(!stem.contains('_'));
            lemma_split_of_sep_free(stem, '_');
        }
        return filename.substring_char(0, n).to_owned();
    }
    let mut p2: usize = p1 + 1;
    while p2 < n && filename.get_char(p2) != '_'
        invariant
            p1 < p2 <= n,
            n == stem.len(),
            n <= filename@.len(),
            forall|j: int| 0 <= j < n ==> stem[j] == filename@[j],
            forall|j: int| 0 <= j < p1 ==> stem[j] != '_',
            stem[p1 as int] == '_',
            forall|j: int| p1 < j < p2 ==> stem[j] != '_',
        decreases n - p2,
    {
        p2 += 1;
    }
    let ghost part0 = stem.subrange(0, p1 as int);
    proof {
        assert(!part0.contains('_'));
    }
    if p2 == n {
        // exactly one underscore: two segments
        proof {
            let rest = stem.subrange(p1 + 1, n as int);
            assert(!rest.contains('_'));
            lemma_split_of_sep_free(rest, '_');
            lemma_split_append_sep(part0, '_', rest);
            assert(part0 + seq!['_'] + rest =~= stem);
            assert(split_char(stem, '_') =~~= seq![part0, rest]);
        }
        return filename.substring_char(0, n).to_owned();
    }
    // at least two underscores: three or more segments
    let ghost part1 = stem.subrange(p1 + 1, p2 as int);
    let ghost tail = stem.subrange(p2 + 1, n as int);
    proof {
        assert(!part1.contains('_'));
        lemma_split_len(tail, '_');
        lemma_split_append_sep(part1, '_', tail);
        assert(part1 + seq!['_'] + tail =~= stem.subrange(p1 + 1, n as int));
        lemma_split_append_sep(part0, '_', stem.subrange(p1 + 1, n as int));
        assert(part0 + seq!['_'] + stem.subrange(p1 + 1, n as int) =~= stem);
        let parts = split_char(stem, '_');
        assert(parts =~~= seq![part0, part1] + split_char(tail, '_'));
        assert(parts.len() >= 3);
        assert(parts.subrange(2, parts.len() as int) =~~= split_char(tail, '_'));
        lemma_join_split_replace(tail, '_', ' ');
    }
    // replace each remaining underscore of the tail by a space
    let mut out = String::new();
    let mut i: usize = p2 + 1;
    while i < n
        invariant
            p2 + 1 <= i <= n,
            n == stem.len(),
            n <= filename@.len(),
            forall|j: int| 0 <= j < n ==> stem[j] == filename@[j],
            out@ == stem.subrange(p2 + 1, i as int).map_values(
                |c: char| if c == '_' { ' ' } else { c },
            ),
        decreases n - i,
    {
        let c = filename.get_char(i);
        if c == '_' {
            out.push(' ');
        } else {
            out.push(c);
        }
        proof {
            let f = |c: char| if c == '_' { ' ' } else { c };
            assert(stem.subrange(p2 + 1, i + 1).map_values(f) =~= stem.subrange(
                p2 + 1,
                i as int,
            ).map_values(f).push(f(stem[i as int])));
        }
        i += 1;
    }
    proof {
        assert(stem.subrange(p2 + 1, n as int) == tail);
    }
    out
}

/// The hex-encoded SHA-256 digest of a text, named as a function of the
/// characters alone; no contract of this crate states its value.
pub uninterp spec fn sha256_hex_of(s: Seq<char>) -> Seq<char>;

/// Relies on sha2's `Sha256`: the digest of the UTF-8 bytes of the text,
/// 32 bytes long, here hex encoded into 64 characters; it depends on the
/// content alone.
#[verifier::external_body]
pub fn calculate_checksum(content: &str) -> (r: String)
    ensures
        r@ == sha256_hex_of(content@),
        r@.len() == 64,
{
    let mut hasher = sha2::Sha256::new();
    hasher.update(content.as_bytes());
    format!("{:x}", hasher.finalize())
}

/// The checksum is deterministic: equal content gives an equal digest.
pub proof fn lemma_checksum_deterministic(a: Seq<char>, b: Seq<char>)
    requires
        a == b,
    ensures
        sha256_hex_of(a) == sha256_hex_of(b),
{
}

/// Relies on chrono's `Utc::now` with the `Datelike` and `Timelike`
/// getters: the month is 1 to 12, the day 1 to 31, the hour below 24, the
/// minute and second below 60; the year is an `i32`. The instant itself
/// depends on the clock, so nothing more is promised.
#[verifier::external_body]
pub fn utc_now_parts() -> (r: (i64, u64, u64, u64, u64, u64))
    ensures
        -0x8000_0000 <= r.0 <= 0x7fff_ffff,
        1 <= r.1 <= 12,
        1 <= r.2 <= 31,
        r.3 < 24,
        r.4 < 60,
        r.5 < 60,
{
    let now = chrono::Utc::now();
    (
        now.year() as i64,
        now.month() as u64,
        now.day() as u64,
        now.hour() as u64,
        now.minute() as u64,
        now.second() as u64,
    )
}

/// Relies on chrono's `Utc::now().timestamp_millis()`: the clock reading
/// in milliseconds since the epoch; it depends on the clock, so nothing is
/// promised of the value.
#[verifier::external_body]
pub fn now_timestamp_millis() -> (r: i64) {
    chrono::Utc::now().timestamp_millis()
}

/// A version identifier formed from a date and a time: the year padded to
/// four digits (with a leading sign when negative), month and day to two,
/// an underscore, then hour, minute and second each padded to two digits.
pub open spec fn spec_version_string(
    y: int,
    mo: nat,
    d: nat,
    h: nat,
    mi: nat,
    s: nat,
) -> Seq<char> {
    (if y < 0 {
        seq!['-'] + dec_padded((-y) as nat, 4)
    } else {
        dec_padded(y as nat, 4)
    }) + dec_padded(mo, 2) + dec_padded(d, 2) + seq!['_'] + dec_padded(h, 2) + dec_padded(mi, 2)
        + dec_padded(s, 2)
}

fn format_version(y: i64, mo: u64, d: u64, h: u64, mi: u64, s: u64) -> (r: String)
    requires
        -0x8000_0000 <= y <= 0x7fff_ffff,
    ensures
        r@ == spec_version_string(y as int, mo as nat, d as nat, h as nat, mi as nat, s as nat),
{
    let mut out = String::new();
    if y < 0 {
        out.push('-');
        push_decimal(&mut out, (-y) as u64, 4);
    } else {
        push_decimal(&mut out, y as u64, 4);
    }
    push_decimal(&mut out, mo, 2);
    push_decimal(&mut out, d, 2);
    out.push('_');
    push_decimal(&mut out, h, 2);
    push_decimal(&mut out, mi, 2);
    push_decimal(&mut out, s, 2);
    proof {
        assert(out@ =~= spec_version_string(
            y as int,
            mo as nat,
            d as nat,
            h as nat,
            mi as nat,
            s as nat,
        ));
    }
    out
}

/// A fresh version identifier from the current date and time, in the form
/// the version pattern expects for years up to four digits.
pub fn generate_migration_version() -> (r: String)
    ensures
        exists|y: int, mo: nat, d: nat, h: nat, mi: nat, s: nat|
            {
                &&& 1 <= mo <= 12
                &&& 1 <= d <= 31
                &&& h < 24
                &&& mi < 60
                &&& s < 60
                &&& r@ == spec_version_string(y, mo, d, h, mi, s)
            },
{
    let (y, mo, d, h, mi, s) = utc_now_parts();
    let r = format_version(y, mo, d, h, mi, s);
    proof {
        let yy = y as int;
        let mm = mo as nat;
        let dd = d as nat;
        let hh = h as nat;
        let mii = mi as nat;
        let ss = s as nat;
        assert({
            &&& 1 <= mm <= 12
            &&& 1 <= dd <= 31
            &&& hh < 24
            &&& mii < 60
            &&& ss < 60
            &&& r@ == spec_version_string(yy, mm, dd, hh, mii, ss)
        });
    }
    r
}

/// Whether a character is alphanumeric by Unicode, named after the std
/// function that decides it.
pub uninterp spec fn is_alnum_char(c: char) -> bool;

/// Relies on std's `char::is_alphanumeric`: whether the character is
/// alphanumeric by Unicode; it depends on the character alone.
pub assume_specification[ char::is_alphanumeric ](c: char) -> (r: bool)
    ensures
        r == is_alnum_char(c),
;

/// The lowercase form of a text, named after the std function that
/// computes it; it depends on the characters alone.
pub uninterp spec fn lower_of(s: Seq<char>) -> Seq<char>;

/// Relies on std's `str::to_lowercase`: the lowercase equivalent of the
/// text; the result depends on the characters alone, and an empty text
/// stays empty.
pub assume_specification[ str::to_lowercase ](s: &str) -> (r: String)
    ensures
        r@ == lower_of(s@),
        s@.len() == 0 ==> r@.len() == 0,
;

/// Each character kept when alphanumeric and replaced by an underscore
/// otherwise.
pub open spec fn normalize_chars(s: Seq<char>) -> Seq<char> {
    s.map_values(|c: char| if is_alnum_char(c) { c } else { '_' })
}

/// The file name built from a version and a description: the version, an
/// underscore, the description normalized to lowercase with every
/// non-alphanumeric character replaced by an underscore, and the fixed
/// extension.
pub open spec fn filename_spec(version: Seq<char>, description: Seq<char>) -> Seq<char> {
    version + seq!['_'] + lower_of(normalize_chars(description)) + cql_suffix()
}

pub fn build_migration_filename(version: &str, description: &str) -> (r: String)
    ensures
        r@ == filename_spec(version@, description@),
{
    let mut norm = String::new();
    let n = description.unicode_len();
    let mut i: usize = 0;
    while i < n
        invariant
            i <= n,
            n == description@.len(),
            norm@ == normalize_chars(description@.subrange(0, i as int)),
        decreases n - i,
    {
        let c = description.get_char(i);
        if c.is_alphanumeric() {
            norm.push(c);
        } else {
            norm.push('_');
        }
        proof {
            assert(normalize_chars(description@.subrange(0, i + 1)) =~= normalize_chars(
                description@.subrange(0, i as int),
            ).push(if is_alnum_char(description@[i as int]) {
                description@[i as int]
            } else {
                '_'
            }));
        }
        i += 1;
    }
    proof {
        assert(description@.subrange(0, n as int) =~= description@);
    }
    let lowered = norm.as_str().to_lowercase();
    let mut out = String::new();
    out.append(version);
    out.push('_');
    out.append(lowered.as_str());
    out.append(".cql");
    proof {
        reveal_strlit(".cql");
        assert(".cql"@ =~= cql_suffix());
        assert(out@ =~= filename_spec(version@, description@));
    }
    out
}

/// A fresh migration file name for the given description, from the
/// current date and time.
pub fn create_migration_filename(description: &str) -> (r: String)
    ensures
        exists|y: int, mo: nat, d: nat, h: nat, mi: nat, s: nat|
            {
                &&& 1 <= mo <= 12
                &&& 1 <= d <= 31
                &&& h < 24
                &&& mi < 60
                &&& s < 60
                &&& r@ == filename_spec(spec_version_string(y, mo, d, h, mi, s), description@)
            },
{
    let version = generate_migration_version();
    let ghost picked = choose|y: int, mo: nat, d: nat, h: nat, mi: nat, s: nat|
        {
            &&& 1 <= mo <= 12
            &&& 1 <= d <= 31
            &&& h < 24
            &&& mi < 60
            &&& s < 60
            &&& version@ == spec_version_string(y, mo, d, h, mi, s)
        };
    build_migration_filename(version.as_str(), description)
}

/// A version generated from a date with a year of up to four digits
/// matches the naming pattern, so a created file is later discovered.
pub proof fn lemma_version_string_pattern(y: int, mo: nat, d: nat, h: nat, mi: nat, s: nat)
    requires
        0 <= y < 10000,
        1 <= mo <= 12,
        1 <= d <= 31,
        h < 24,
        mi < 60,
        s < 60,
    ensures
        version_pattern(spec_version_string(y, mo, d, h, mi, s)),
{
    assert(pow10(0) == 1);
    assert(pow10(1) == 10);
    assert(pow10(2) == 100);
    assert(pow10(3) == 1000);
    assert(pow10(4) == 10000);
    lemma_dec_padded_exact(y as nat, 4);
    lemma_dec_padded_exact(mo, 2);
    lemma_dec_padded_exact(d, 2);
    lemma_dec_padded_exact(h, 2);
    lemma_dec_padded_exact(mi, 2);
    lemma_dec_padded_exact(s, 2);
    let v = spec_version_string(y, mo, d, h, mi, s);
    assert(v.len() == 15);
    assert forall|i: int| 0 <= i < 8 implies is_digit_char(v[i]) by {
        if i < 4 {
            assert(v[i] == dec_padded(y as nat, 4)[i]);
        } else if i < 6 {
            assert(v[i] == dec_padded(mo, 2)[i - 4]);
        } else {
            assert(v[i] == dec_padded(d, 2)[i - 6]);
        }
    }
    assert(v[8] == '_');
    assert(v[9] == dec_padded(h, 2)[0]);
    assert(is_digit_char(v[9]));
    assert(v[10] == dec_padded(h, 2)[1]);
    assert(v[11] == dec_padded(mi, 2)[0]);
    assert(v[12] == dec_padded(mi, 2)[1]);
    assert(v[13] == dec_padded(s, 2)[0]);
    assert(v[14] == dec_padded(s, 2)[1]);
    assert(forall|j: int| 10 <= j < 15 ==> is_digit_char(v[j]));
    assert(digits_then_sep(v, 15));
    lemma_digits_then_sep_skip(v, 10, 15);
}

/// A timestamp for display inside the template header: year padded to
/// four digits (with a leading sign when negative), then month, day,
/// hour, minute and second each padded to two, in the usual punctuation.
pub open spec fn spec_timestamp_display(
    y: int,
    mo: nat,
    d: nat,
    h: nat,
    mi: nat,
    s: nat,
) -> Seq<char> {
    (if y < 0 {
        seq!['-'] + dec_padded((-y) as nat, 4)
    } else {
        dec_padded(y as nat, 4)
    }) + seq!['-'] + dec_padded(mo, 2) + seq!['-'] + dec_padded(d, 2) + seq![' '] + dec_padded(
        h,
        2,
    ) + seq![':'] + dec_padded(mi, 2) + seq![':'] + dec_padded(s, 2) + " UTC"@
}

/// The fixed guidance below the template header: the UP marker with
/// commented examples, then the DOWN marker with commented examples.
pub open spec fn template_guidance() -> Seq<char> {
    "\n\n-- +migrate Up\n-- Add your UP migration statements here\n-- Example:\n-- CREATE TABLE IF NOT EXISTS example_table (\n--     id UUID PRIMARY KEY,\n--     name TEXT,\n--     created_at TIMESTAMP\n-- );\n\n-- +migrate Down\n-- Add your DOWN migration statements here (optional)\n-- Example:\n-- DROP TABLE IF EXISTS example_table;\n"@
}

/// A fresh migration file's text: a comment header naming the
/// description and the creation instant, then the fixed guidance.
pub open spec fn spec_template(
    description: Seq<char>,
    y: int,
    mo: nat,
    d: nat,
    h: nat,
    mi: nat,
    s: nat,
) -> Seq<char> {
    "-- Migration: "@ + description + seq!['\n'] + "-- Created at: "@ + spec_timestamp_display(
        y,
        mo,
        d,
        h,
        mi,
        s,
    ) + template_guidance()
}

/// Template content for a new migration file, stamped with the current
/// date and time.
#[verifier::rlimit(60)]
#[verifier::spinoff_prover]
pub fn generate_migration_template(description: &str) -> (r: String)
    ensures
        exists|y: int, mo: nat, d: nat, h: nat, mi: nat, s: nat|
            {
                &&& 1 <= mo <= 12
                &&& 1 <= d <= 31
                &&& h < 24
                &&& mi < 60
                &&& s < 60
                &&& r@ == spec_template(description@, y, mo, d, h, mi, s)
            },
{
    let (y, mo, d, h, mi, s) = utc_now_parts();
    let mut out = String::new();
    out.append("-- Migration: ");
    out.append(description);
    out.push('\n');
    out.append("-- Created at: ");
    if y < 0 {
        out.push('-');
        push_decimal(&mut out, (-y) as u64, 4);
    } else {
        push_decimal(&mut out, y as u64, 4);
    }
    out.push('-');
    push_decimal(&mut out, mo, 2);
    out.push('-');
    push_decimal(&mut out, d, 2);
    out.push(' ');
    push_decimal(&mut out, h, 2);
    out.push(':');
    push_decimal(&mut out, mi, 2);
    out.push(':');
    push_decimal(&mut out, s, 2);
    out.append(" UTC");
    out.append(
        "\n\n-- +migrate Up\n-- Add your UP migration statements here\n-- Example:\n-- CREATE TABLE IF NOT EXISTS example_table (\n--     id UUID PRIMARY KEY,\n--     name TEXT,\n--     created_at TIMESTAMP\n-- );\n\n-- +migrate Down\n-- Add your DOWN migration statements here (optional)\n-- Example:\n-- DROP TABLE IF EXISTS example_table;\n",
    );
    proof {
        let yy = y as int;
        let mm = mo as nat;
        let dd = d as nat;
        let hh = h as nat;
        let mii = mi as nat;
        let ss = s as nat;
        assert(out@ =~= spec_template(description@, yy, mm, dd, hh, mii, ss));
        assert({
            &&& 1 <= mm <= 12
            &&& 1 <= dd <= 31
            &&& hh < 24
            &&& mii < 60
            &&& ss < 60
            &&& out@ == spec_template(description@, yy, mm, dd, hh, mii, ss)
        });
    }
    out
}

/// Appending the extension to a stem gives a name whose stem it is:
/// only one extension is ever removed.
pub proof fn lemma_strip_cql_append(s: Seq<char>)
    ensures
        strip_cql(s + cql_suffix()) == s,
{
    let t = s + cql_suffix();
    assert(t.subrange(t.len() - 4, t.len() as int) =~= cql_suffix());
    assert(ends_with(t, cql_suffix()));
    assert(t.subrange(0, t.len() - 4) =~= s);
}

/// Version derivation is injective on valid file names: two names that
/// carry the extension and whose stems match the version pattern derive
/// the same version only when they are the same name.
pub proof fn lemma_derive_version_injective(f1: Seq<char>, f2: Seq<char>)
    requires
        ends_with(f1, cql_suffix()),
        ends_with(f2, cql_suffix()),
        version_pattern(strip_cql(f1)),
        version_pattern(strip_cql(f2)),
        strip_cql(f1) == strip_cql(f2),
    ensures
        f1 == f2,
{
    assert(f1 =~= strip_cql(f1) + cql_suffix());
    assert(f2 =~= strip_cql(f2) + cql_suffix());
}

/// A file name built from a version with a year of up to four digits is
/// discovered again: it carries the extension, its stem is exactly the
/// version, the underscore and the normalized description, and that stem
/// matches the naming pattern whatever the description holds.
pub proof fn lemma_created_filename_discoverable(
    y: int,
    mo: nat,
    d: nat,
    h: nat,
    mi: nat,
    s: nat,
    description: Seq<char>,
)
    requires
        0 <= y < 10000,
        1 <= mo <= 12,
        1 <= d <= 31,
        h < 24,
        mi < 60,
        s < 60,
    ensures
        ends_with(
            filename_spec(spec_version_string(y, mo, d, h, mi, s), description),
            cql_suffix(),
        ),
        strip_cql(filename_spec(spec_version_string(y, mo, d, h, mi, s), description))
            == spec_version_string(y, mo, d, h, mi, s) + seq!['_'] + lower_of(
            normalize_chars(description),
        ),
        version_pattern(
            strip_cql(filename_spec(spec_version_string(y, mo, d, h, mi, s), description)),
        ),
{
    let v = spec_version_string(y, mo, d, h, mi, s);
    let stem = v + seq!['_'] + lower_of(normalize_chars(description));
    let name = filename_spec(v, description);
    assert(name =~= stem + cql_suffix());
    lemma_strip_cql_append(stem);
    assert(pow10(0) == 1);
    assert(pow10(1) == 10);
    assert(pow10(2) == 100);
    assert(pow10(3) == 1000);
    assert(pow10(4) == 10000);
    lemma_dec_padded_exact(y as nat, 4);
    lemma_dec_padded_exact(mo, 2);
    lemma_dec_padded_exact(d, 2);
    lemma_dec_padded_exact(h, 2);
    lemma_dec_padded_exact(mi, 2);
    lemma_dec_padded_exact(s, 2);
    assert(v.len() == 15);
    assert forall|i: int| 0 <= i < 8 implies is_digit_char(stem[i]) by {
        assert(stem[i] == v[i]);
        if i < 4 {
            assert(v[i] == dec_padded(y as nat, 4)[i]);
        } else if i < 6 {
            assert(v[i] == dec_padded(mo, 2)[i - 4]);
        } else {
            assert(v[i] == dec_padded(d, 2)[i - 6]);
        }
    }
    assert(stem[8] == v[8]);
    assert(v[8] == '_');
    assert(stem[9] == v[9]);
    assert(v[9] == dec_padded(h, 2)[0]);
    assert(stem[10] == dec_padded(h, 2)[1]);
    assert(stem[11] == dec_padded(mi, 2)[0]);
    assert(stem[12] == dec_padded(mi, 2)[1]);
    assert(stem[13] == dec_padded(s, 2)[0]);
    assert(stem[14] == dec_padded(s, 2)[1]);
    assert(forall|j: int| 10 <= j < 15 ==> is_digit_char(stem[j]));
    assert(stem[15] == '_');
    assert(digits_then_sep(stem, 15));
    lemma_digits_then_sep_skip(stem, 10, 15);
    assert(version_pattern(stem));
}

} // verus!
