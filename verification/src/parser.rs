//! Migration content parser: splits a migration file's text into an UP
//! section and an optional DOWN section, and splits a section's text into
//! individual statements on the `;` terminator. Splitting on the bare
//! terminator is a deliberate simplification: a `;` inside a string
//! literal or a comment would split a statement.
use vstd::prelude::*;

use crate::text::{
    drop_empty, is_trimmed, join_char, lemma_drop_empty_concat, lemma_drop_empty_of_nonempty,
    lemma_drop_empty_props, lemma_drop_empty_single, lemma_join_push, lemma_split_join, lemma_split_len,
    lemma_split_pieces_sep_free, lemma_split_push, lemma_trim_all_concat,
    lemma_trim_all_of_trimmed, lemma_trim_contains, lemma_trim_shape, split_char, trim_all,
    trim_range, trim_spec, trim_str,
};

verus! {

/// The statements of a section's text: the pieces between `;`
/// terminators, trimmed, with empty pieces discarded.
pub open spec fn stmts_spec(s: Seq<char>) -> Seq<Seq<char>> {
    drop_empty(trim_all(split_char(s, ';')))
}

/// Splits a section's text into individual statements on the `;`
/// terminator, trimming each and discarding empty ones.
pub fn split_cql_statements(content: &str) -> (r: Vec<String>)
    ensures
        r@.map_values(|x: String| x@) == stmts_spec(content@),
{
    let n = content.unicode_len();
    let mut out: Vec<String> = Vec::new();
    let ghost closed: Seq<Seq<char>> = Seq::empty();
    let mut p: usize = 0;
    let mut i: usize = 0;
    proof {
        assert(content@.subrange(0, 0) =~= Seq::<char>::empty());
        assert(split_char(content@.subrange(0, 0), ';') =~~= Seq::<Seq<char>>::empty().push(
            content@.subrange(0, 0),
        ));
        assert(out@.map_values(|x: String| x@) =~~= drop_empty(trim_all(closed)));
    }
    let mut closed_g = Ghost(closed);
    while i < n
        invariant
            p <= i <= n,
            n == content@.len(),
            split_char(content@.subrange(0, i as int), ';') == closed_g@.push(
                content@.subrange(p as int, i as int),
            ),
            out@.map_values(|x: String| x@) == drop_empty(trim_all(closed_g@)),
        decreases n - i,
    {
        let c = content.get_char(i);
        proof {
            assert(content@.subrange(0, i + 1) =~= content@.subrange(0, i as int).push(
                content@[i as int],
            ));
            lemma_split_push(content@.subrange(0, i as int), ';', content@[i as int]);
            lemma_split_len(content@.subrange(0, i as int), ';');
        }
        if c == ';' {
            let (ts, te) = trim_range(content, p, i);
            let ghost cur = content@.subrange(p as int, i as int);
            proof {
                assert(split_char(content@.subrange(0, i + 1), ';') =~~= (closed_g@.push(
                    cur,
                )).push(content@.subrange(i + 1, i + 1)));
                lemma_trim_all_concat(closed_g@, seq![cur]);
                lemma_drop_empty_concat(trim_all(closed_g@), trim_all(seq![cur]));
                assert(closed_g@ + seq![cur] =~~= closed_g@.push(cur));
                assert(trim_all(seq![cur]) =~~= seq![trim_spec(cur)]);
                lemma_drop_empty_single(trim_spec(cur));
            }
            if ts < te {
                let piece = content.substring_char(ts, te);
                out.push(piece.to_owned());
                proof {
                    assert(out@.map_values(|x: String| x@) =~~= drop_empty(
                        trim_all(closed_g@.push(cur)),
                    ));
                }
            } else {
                proof {
                    assert(trim_spec(cur).len() == 0);
                    assert(drop_empty(trim_all(closed_g@.push(cur))) =~~= drop_empty(
                        trim_all(closed_g@),
                    ));
                }
            }
            proof {
                closed_g@ = closed_g@.push(cur);
            }
            p = i + 1;
        } else {
            proof {
                let old_split = closed_g@.push(content@.subrange(p as int, i as int));
                assert(old_split.len() >= 1);
                assert(split_char(content@.subrange(0, i + 1), ';') =~~= closed_g@.push(
                    content@.subrange(p as int, i + 1),
                )) by {
                    assert(old_split.last() == content@.subrange(p as int, i as int));
                    assert(content@.subrange(p as int, i as int).push(content@[i as int]) =~=
                        content@.subrange(p as int, i + 1));
                    assert(old_split.update(
                        old_split.len() - 1,
                        content@.subrange(p as int, i + 1),
                    ) =~~= closed_g@.push(content@.subrange(p as int, i + 1)));
                }
            }
        }
        i += 1;
    }
    let (ts, te) = trim_range(content, p, n);
    let ghost cur = content@.subrange(p as int, n as int);
    proof {
        assert(content@.subrange(0, n as int) =~= content@);
        lemma_trim_all_concat(closed_g@, seq![cur]);
        lemma_drop_empty_concat(trim_all(closed_g@), trim_all(seq![cur]));
        assert(closed_g@ + seq![cur] =~~= closed_g@.push(cur));
        assert(trim_all(seq![cur]) =~~= seq![trim_spec(cur)]);
        lemma_drop_empty_single(trim_spec(cur));
    }
    if ts < te {
        let piece = content.substring_char(ts, te);
        out.push(piece.to_owned());
        proof {
            assert(out@.map_values(|x: String| x@) =~~= stmts_spec(content@));
        }
    } else {
        proof {
            assert(trim_spec(cur).len() == 0);
            assert(out@.map_values(|x: String| x@) =~~= stmts_spec(content@));
        }
    }
    out
}

/// A line with one trailing carriage return removed.
pub open spec fn strip_cr(p: Seq<char>) -> Seq<char> {
    if p.len() > 0 && p[p.len() - 1] == '\r' {
        p.subrange(0, p.len() - 1)
    } else {
        p
    }
}

/// The scan that cuts a text into lines: lines end at each line feed
/// (with one carriage return before it removed), and a last line without
/// a trailing line feed is kept.
pub open spec fn lines_rec(
    s: Seq<char>,
    i: int,
    start: int,
    acc: Seq<Seq<char>>,
) -> Seq<Seq<char>>
    decreases s.len() - i,
    when 0 <= start <= i <= s.len()
{
    if i >= s.len() {
        if start < s.len() {
            acc.push(strip_cr(s.subrange(start, s.len() as int)))
        } else {
            acc
        }
    } else if s[i] == '\n' {
        lines_rec(s, i + 1, i + 1, acc.push(strip_cr(s.subrange(start, i))))
    } else {
        lines_rec(s, i + 1, start, acc)
    }
}

/// The lines of a text.
pub open spec fn lines_spec(s: Seq<char>) -> Seq<Seq<char>> {
    lines_rec(s, 0, 0, Seq::<Seq<char>>::empty())
}

/// The character subranges of `s` named by a sequence of index pairs.
pub open spec fn ranges_to_lines(s: Seq<char>, rs: Seq<(usize, usize)>) -> Seq<Seq<char>> {
    rs.map_values(|p: (usize, usize)| s.subrange(p.0 as int, p.1 as int))
}

/// The line boundaries of the text, as character index pairs.
#[verifier::loop_isolation(false)]
fn line_ranges(content: &str) -> (r: Vec<(usize, usize)>)
    ensures
        ranges_to_lines(content@, r@) == lines_spec(content@),
        forall|k: int| 0 <= k < r@.len() ==> ((#[trigger] r@[k]).0 <= r@[k].1 <= content@.len()),
{
    let n = content.unicode_len();
    let mut out: Vec<(usize, usize)> = Vec::new();
    let mut start: usize = 0;
    let mut i: usize = 0;
    proof {
        assert(ranges_to_lines(content@, out@) =~~= Seq::<Seq<char>>::empty());
    }
    while i < n
        invariant
            start <= i <= n,
            lines_spec(content@) == lines_rec(
                content@,
                i as int,
                start as int,
                ranges_to_lines(content@, out@),
            ),
            forall|k: int| 0 <= k < out@.len() ==> ((#[trigger] out@[k]).0 <= out@[k].1 <= content@.len()),
        decreases n - i,
    {
        let c = content.get_char(i);
        if c == '\n' {
            let end = if i > start && content.get_char(i - 1) == '\r' {
                i - 1
            } else {
                i
            };
            proof {
                assert(strip_cr(content@.subrange(start as int, i as int)) =~= content@.subrange(
                    start as int,
                    end as int,
                ));
                assert(ranges_to_lines(content@, out@.push((start, end))) =~~= ranges_to_lines(
                    content@,
                    out@,
                ).push(content@.subrange(start as int, end as int)));
            }
            out.push((start, end));
            start = i + 1;
        }
        i += 1;
    }
    if start < n {
        let end = if content.get_char(n - 1) == '\r' {
            n - 1
        } else {
            n
        };
        proof {
            assert(strip_cr(content@.subrange(start as int, n as int)) =~= content@.subrange(
                start as int,
                end as int,
            ));
            assert(ranges_to_lines(content@, out@.push((start, end))) =~~= ranges_to_lines(
                content@,
                out@,
            ).push(content@.subrange(start as int, end as int)));
        }
        out.push((start, end));
    }
    out
}

/// Whether `p` is a prefix of `s`.
pub open spec fn has_prefix_spec(s: Seq<char>, p: Seq<char>) -> bool {
    p.len() <= s.len() && s.subrange(0, p.len() as int) == p
}

/// Whether the pattern is a prefix of the character range `[a, b)` of `s`.
#[verifier::loop_isolation(false)]
fn range_has_prefix(s: &str, a: usize, b: usize, pat: &str) -> (r: bool)
    requires
        a <= b <= s@.len(),
    ensures
        r == has_prefix_spec(s@.subrange(a as int, b as int), pat@),
{
    let ghost piece = s@.subrange(a as int, b as int);
    let m = pat.unicode_len();
    if b - a < m {
        return false;
    }
    let mut k: usize = 0;
    while k < m
        invariant
            k <= m,
            forall|j: int| 0 <= j < k ==> piece[j] == pat@[j],
        decreases m - k,
    {
        if s.get_char(a + k) != pat.get_char(k) {
            proof {
                assert(piece[k as int] != pat@[k as int]);
                if has_prefix_spec(piece, pat@) {
                    assert(piece.subrange(0, m as int)[k as int] == pat@[k as int]);
                }
            }
            return false;
        }
        k += 1;
    }
    proof {
        assert(piece.subrange(0, m as int) =~= pat@);
    }
    true
}

/// A line that switches the scan to the UP section.
pub open spec fn is_up_marker(t: Seq<char>) -> bool {
    has_prefix_spec(t, "-- UP"@) || has_prefix_spec(t, "-- +migrate Up"@)
}

/// A line that switches the scan to the DOWN section.
pub open spec fn is_down_marker(t: Seq<char>) -> bool {
    has_prefix_spec(t, "-- DOWN"@) || has_prefix_spec(t, "-- +migrate Down"@)
}

/// The scan over the lines that gathers the UP and DOWN sections: marker
/// lines switch the active section and are consumed; blank lines and
/// comment lines before any section are discarded; content before any
/// marker opens the UP section; every other line is appended verbatim to
/// the active section. The section tag is 0 before any section, 1 in UP,
/// 2 in DOWN.
pub open spec fn parse_rec(
    lines: Seq<Seq<char>>,
    i: int,
    sec: int,
    up: Seq<Seq<char>>,
    down: Seq<Seq<char>>,
) -> (Seq<Seq<char>>, Seq<Seq<char>>)
    decreases lines.len() - i,
    when 0 <= i <= lines.len()
{
    if i >= lines.len() {
        (up, down)
    } else {
        let t = trim_spec(lines[i]);
        if is_up_marker(t) {
            parse_rec(lines, i + 1, 1, up, down)
        } else if is_down_marker(t) {
            parse_rec(lines, i + 1, 2, up, down)
        } else if sec == 0 && (t.len() == 0 || has_prefix_spec(t, "--"@)) {
            parse_rec(lines, i + 1, 0, up, down)
        } else if sec == 2 {
            parse_rec(lines, i + 1, 2, up, down.push(lines[i]))
        } else {
            parse_rec(lines, i + 1, 1, up.push(lines[i]), down)
        }
    }
}

/// The lines of the UP section of a migration text.
pub open spec fn up_lines_of(s: Seq<char>) -> Seq<Seq<char>> {
    parse_rec(lines_spec(s), 0, 0, Seq::empty(), Seq::empty()).0
}

/// The lines of the DOWN section of a migration text.
pub open spec fn down_lines_of(s: Seq<char>) -> Seq<Seq<char>> {
    parse_rec(lines_spec(s), 0, 0, Seq::empty(), Seq::empty()).1
}

/// The UP section's text: its lines joined back and trimmed.
pub open spec fn up_text_of(s: Seq<char>) -> Seq<char> {
    trim_spec(join_char(up_lines_of(s), '\n'))
}

/// The DOWN section's text: its lines joined back and trimmed.
pub open spec fn down_text_of(s: Seq<char>) -> Seq<char> {
    trim_spec(join_char(down_lines_of(s), '\n'))
}

/// The subranges named by the index pairs, joined with line feeds.
#[verifier::loop_isolation(false)]
fn join_ranges(s: &str, rs: &Vec<(usize, usize)>) -> (r: String)
    requires
        forall|k: int| 0 <= k < rs@.len() ==> ((#[trigger] rs@[k]).0 <= rs@[k].1 <= s@.len()),
    ensures
        r@ == join_char(ranges_to_lines(s@, rs@), '\n'),
{
    let mut out = String::new();
    let mut k: usize = 0;
    proof {
        assert(ranges_to_lines(s@, rs@.take(0)) =~~= Seq::<Seq<char>>::empty());
    }
    while k < rs.len()
        invariant
            k <= rs@.len(),
            out@ == join_char(ranges_to_lines(s@, rs@.take(k as int)), '\n'),
        decreases rs@.len() - k,
    {
        if k > 0 {
            out.push('\n');
        }
        let (a, b) = rs[k];
        let piece = s.substring_char(a, b);
        out.append(piece);
        proof {
            let done = ranges_to_lines(s@, rs@.take(k as int));
            lemma_join_push(done, s@.subrange(a as int, b as int), '\n');
            assert(ranges_to_lines(s@, rs@.take(k + 1)) =~~= done.push(
                s@.subrange(a as int, b as int),
            ));
        }
        k += 1;
    }
    proof {
        assert(rs@.take(rs@.len() as int) =~= rs@);
    }
    out
}

/// Splits a migration text into the UP section and the optional DOWN
/// section. An empty UP section is a format error; an empty DOWN section
/// yields no DOWN part.
#[verifier::loop_isolation(false)]
pub fn parse_migration_content(content: &str) -> (r: Result<(String, Option<String>), String>)
    ensures
        r is Ok <==> up_text_of(content@).len() > 0,
        r matches Ok(pair) ==> {
            &&& pair.0@ == up_text_of(content@)
            &&& (match pair.1 {
                Some(d) => down_text_of(content@).len() > 0 && d@ == down_text_of(content@),
                None => down_text_of(content@).len() == 0,
            })
        },
        r matches Err(e) ==> e@
            == "Migration must contain at least UP section with CQL statements"@,
{
    let ranges = line_ranges(content);
    let ghost lines = lines_spec(content@);
    let mut up_rs: Vec<(usize, usize)> = Vec::new();
    let mut down_rs: Vec<(usize, usize)> = Vec::new();
    let mut sec: u8 = 0;
    let mut i: usize = 0;
    proof {
        assert(ranges_to_lines(content@, up_rs@) =~~= Seq::<Seq<char>>::empty());
        assert(ranges_to_lines(content@, down_rs@) =~~= Seq::<Seq<char>>::empty());
    }
    while i < ranges.len()
        invariant
            i <= ranges@.len(),
            sec <= 2,
            forall|k: int| 0 <= k < up_rs@.len() ==> ((#[trigger] up_rs@[k]).0 <= up_rs@[k].1 <= content@.len()),
            forall|k: int|
                0 <= k < down_rs@.len() ==> ((#[trigger] down_rs@[k]).0 <= down_rs@[k].1
                    <= content@.len()),
            parse_rec(lines, 0, 0, Seq::empty(), Seq::empty()) == parse_rec(
                lines,
                i as int,
                sec as int,
                ranges_to_lines(content@, up_rs@),
                ranges_to_lines(content@, down_rs@),
            ),
        decreases ranges@.len() - i,
    {
        let (a, b) = ranges[i];
        let (ts, te) = trim_range(content, a, b);
        let ghost t = trim_spec(lines[i as int]);
        proof {
            assert(lines[i as int] == content@.subrange(a as int, b as int));
            assert(t == content@.subrange(ts as int, te as int));
        }
        let ghost up0 = ranges_to_lines(content@, up_rs@);
        let ghost down0 = ranges_to_lines(content@, down_rs@);
        if range_has_prefix(content, ts, te, "-- UP") || range_has_prefix(
            content,
            ts,
            te,
            "-- +migrate Up",
        ) {
            sec = 1;
            proof {
                assert(is_up_marker(t));
            }
        } else if range_has_prefix(content, ts, te, "-- DOWN") || range_has_prefix(
            content,
            ts,
            te,
            "-- +migrate Down",
        ) {
            sec = 2;
            proof {
                assert(!is_up_marker(t));
                assert(is_down_marker(t));
            }
        } else if sec == 0 && (ts == te || range_has_prefix(content, ts, te, "--")) {
            proof {
                assert(!is_up_marker(t));
                assert(!is_down_marker(t));
                assert(t.len() == 0 || has_prefix_spec(t, "--"@));
            }
        } else if sec == 2 {
            proof {
                assert(ranges_to_lines(content@, down_rs@.push((a, b))) =~~= down0.push(
                    lines[i as int],
                ));
            }
            down_rs.push((a, b));
        } else {
            proof {
                assert(ranges_to_lines(content@, up_rs@.push((a, b))) =~~= up0.push(
                    lines[i as int],
                ));
            }
            up_rs.push((a, b));
            sec = 1;
        }
        i += 1;
    }
    let ghost sections = parse_rec(lines, 0, 0, Seq::empty(), Seq::empty());
    proof {
        assert(sections.0 == ranges_to_lines(content@, up_rs@));
        assert(sections.1 == ranges_to_lines(content@, down_rs@));
    }
    let up_joined = join_ranges(content, &up_rs);
    let up_trimmed = trim_str(up_joined.as_str());
    if up_trimmed.as_str().unicode_len() == 0 {
        return Err(String::from_str(
            "Migration must contain at least UP section with CQL statements",
        ));
    }
    let down_joined = join_ranges(content, &down_rs);
    let down_trimmed = trim_str(down_joined.as_str());
    if down_trimmed.as_str().unicode_len() == 0 {
        Ok((up_trimmed, None))
    } else {
        Ok((up_trimmed, Some(down_trimmed)))
    }
}

/// Every statement produced by splitting is non-empty, trimmed, and free
/// of the `;` terminator.
pub proof fn lemma_stmts_wf(s: Seq<char>)
    ensures
        forall|k: int|
            0 <= k < stmts_spec(s).len() ==> {
                &&& (#[trigger] stmts_spec(s)[k]).len() > 0
                &&& is_trimmed(stmts_spec(s)[k])
                &&& !stmts_spec(s)[k].contains(';')
            },
{
    let pieces = split_char(s, ';');
    lemma_split_pieces_sep_free(s, ';');
    lemma_drop_empty_props(trim_all(pieces));
    assert forall|k: int| 0 <= k < stmts_spec(s).len() implies {
        &&& (#[trigger] stmts_spec(s)[k]).len() > 0
        &&& is_trimmed(stmts_spec(s)[k])
        &&& !stmts_spec(s)[k].contains(';')
    } by {
        let j = choose|j: int|
            0 <= j < trim_all(pieces).len() && #[trigger] trim_all(pieces)[j] == stmts_spec(
                s,
            )[k];
        assert(trim_all(pieces)[j] == trim_spec(pieces[j]));
        lemma_trim_shape(pieces[j]);
        if stmts_spec(s)[k].contains(';') {
            lemma_trim_contains(pieces[j], ';');
        }
    }
}

/// Round trip: splitting the statements out of a section, joining them
/// back with the `;` terminator, and splitting again reproduces the same
/// statements.
pub proof fn lemma_statements_round_trip(s: Seq<char>)
    ensures
        stmts_spec(join_char(stmts_spec(s), ';')) == stmts_spec(s),
{
    let stmts = stmts_spec(s);
    lemma_stmts_wf(s);
    if stmts.len() == 0 {
        let e = Seq::<char>::empty();
        assert(join_char(stmts, ';') == e);
        assert(split_char(e, ';') =~~= seq![e]);
        assert(trim_all(seq![e]) =~~= seq![trim_spec(e)]);
        assert(trim_spec(e).len() == 0);
        lemma_drop_empty_single(trim_spec(e));
        assert(stmts_spec(e) =~~= stmts);
    } else {
        lemma_split_join(stmts, ';');
        lemma_trim_all_of_trimmed(stmts);
        lemma_drop_empty_of_nonempty(stmts);
    }
}

} // verus!
