//! Character-level text helpers shared by the filename codec and the
//! migration content parser: whitespace trimming, splitting on a separator
//! character, joining, and decimal formatting, each with a specification
//! over sequences of characters.
use vstd::prelude::*;

verus! {

/// Relies on std's `String::push`: appends the given character to the end
/// of the string.
pub assume_specification[ String::push ](s: &mut String, c: char)
    ensures
        final(s)@ == old(s)@.push(c),
;

/// The whitespace characters recognized by trimming: the ASCII space,
/// tab, carriage return, line feed, vertical tab and form feed.
pub open spec fn is_space_char(c: char) -> bool {
    c == ' ' || c == '\t' || c == '\r' || c == '\n' || c == '\u{b}' || c == '\u{c}'
}

pub fn is_space(c: char) -> (r: bool)
    ensures
        r == is_space_char(c),
{
    c == ' ' || c == '\t' || c == '\r' || c == '\n' || c == '\u{b}' || c == '\u{c}'
}

pub open spec fn is_digit_char(c: char) -> bool {
    '0' <= c && c <= '9'
}

pub fn is_digit(c: char) -> (r: bool)
    ensures
        r == is_digit_char(c),
{
    '0' <= c && c <= '9' 
}

/// The given sequence with leading whitespace removed.
pub open spec fn trim_front(s: Seq<char>) -> Seq<char>
    decreases s.len(),
{
    if s.len() > 0 && is_space_char(s[0]) {
        trim_front(s.subrange(1, s.len() as int))
    } else {
        s
    }
}

/// The given sequence with trailing whitespace removed.
pub open spec fn trim_back(s: Seq<char>) -> Seq<char>
    decreases s.len(),
{
    if s.len() > 0 && is_space_char(s[s.len() - 1]) {
        trim_back(s.subrange(0, s.len() - 1))
    } else {
        s
    }
}

/// The given sequence with both leading and trailing whitespace removed.
pub open spec fn trim_spec(s: Seq<char>) -> Seq<char> {
    trim_back(trim_front(s))
}

/// A sequence is trimmed when it neither begins nor ends with whitespace.
pub open spec fn is_trimmed(s: Seq<char>) -> bool {
    s.len() == 0 || (!is_space_char(s[0]) && !is_space_char(s[s.len() - 1]))
}

proof fn lemma_trim_front_at(s: Seq<char>, i: int)
    requires
        0 <= i <= s.len(),
        forall|j: int| 0 <= j < i ==> is_space_char(s[j]),
        i == s.len() || !is_space_char(s[i]),
    ensures
        trim_front(s) == s.subrange(i, s.len() as int),
    decreases i,
{
    if i == 0 {
        assert(s.subrange(0, s.len() as int) =~= s);
    } else {
        let t = s.subrange(1, s.len() as int);
        lemma_trim_front_at(t, i - 1);
        assert(t.subrange(i - 1, t.len() as int) =~= s.subrange(i, s.len() as int));
    }
}

proof fn lemma_trim_back_at(s: Seq<char>, i: int)
    requires
        0 <= i <= s.len(),
        forall|j: int| i <= j < s.len() ==> is_space_char(s[j]),
        i == 0 || !is_space_char(s[i - 1]),
    ensures
        trim_back(s) == s.subrange(0, i),
    decreases s.len() - i,
{
    if i == s.len() {
        assert(s.subrange(0, s.len() as int) =~= s);
    } else {
        let t = s.subrange(0, s.len() - 1);
        lemma_trim_back_at(t, i);
        assert(t.subrange(0, i) =~= s.subrange(0, i));
    }
}

/// Trimming yields a contiguous subrange of the input whose first and last
/// characters, if any, are not whitespace.
pub proof fn lemma_trim_shape(s: Seq<char>)
    ensures
        exists|i: int, j: int|
            0 <= i <= j <= s.len() && trim_spec(s) == s.subrange(i, j),
        is_trimmed(trim_spec(s)),
    decreases s.len(),
{
    if s.len() > 0 && is_space_char(s[0]) {
        let t = s.subrange(1, s.len() as int);
        lemma_trim_shape(t);
        let (i, j) = choose|i: int, j: int|
            0 <= i <= j <= t.len() && trim_spec(t) == t.subrange(i, j);
        assert(t.subrange(i, j) =~= s.subrange(i + 1, j + 1));
        assert(trim_spec(s) == s.subrange(i + 1, j + 1));
    } else if s.len() > 0 && is_space_char(s[s.len() - 1]) {
        assert(trim_front(s) == s);
        let t = s.subrange(0, s.len() - 1);
        assert(trim_back(s) == trim_back(t));
        assert(trim_front(t) == t) by {
            if t.len() > 0 {
                assert(t[0] == s[0]);
            }
        }
        lemma_trim_shape(t);
        let (i, j) = choose|i: int, j: int|
            0 <= i <= j <= t.len() && trim_spec(t) == t.subrange(i, j);
        assert(t.subrange(i, j) =~= s.subrange(i, j));
        assert(trim_spec(s) == s.subrange(i, j));
    } else {
        assert(trim_front(s) == s);
        assert(trim_back(s) == s);
        assert(trim_spec(s) =~= s.subrange(0, s.len() as int));
        assert(trim_spec(s) == s.subrange(0, s.len() as int));
    }
}

/// Trimming an already trimmed sequence changes nothing.
pub proof fn lemma_trim_of_trimmed(s: Seq<char>)
    requires
        is_trimmed(s),
    ensures
        trim_spec(s) == s,
{
    assert(trim_front(s) == s);
    assert(trim_back(s) == s);
}

/// Every character of the trimmed sequence occurs in the input.
pub proof fn lemma_trim_contains(s: Seq<char>, c: char)
    requires
        trim_spec(s).contains(c),
    ensures
        s.contains(c),
{
    lemma_trim_shape(s);
    let (i, j) = choose|i: int, j: int|
        0 <= i <= j <= s.len() && trim_spec(s) == s.subrange(i, j);
    let k = choose|k: int| 0 <= k < trim_spec(s).len() && trim_spec(s)[k] == c;
    assert(s[i + k] == c);
}

/// The character range `[a, b)` of `s` trimmed of whitespace: the returned
/// pair bounds the subrange equal to `trim_spec` of the given range.
pub fn trim_range(s: &str, a: usize, b: usize) -> (r: (usize, usize))
    requires
        a <= b <= s@.len(),
    ensures
        a <= r.0 <= r.1 <= b,
        s@.subrange(r.0 as int, r.1 as int) == trim_spec(s@.subrange(a as int, b as int)),
{
    let ghost piece = s@.subrange(a as int, b as int);
    let mut i: usize = a;
    while i < b && is_space(s.get_char(i))
        invariant
            a <= i <= b <= s@.len(),
            forall|j: int| a <= j < i ==> is_space_char(s@[j]),
        decreases b - i,
    {
        i += 1;
    }
    if i == b {
        proof {
            assert(forall|j: int| 0 <= j < piece.len() ==> is_space_char(piece[j]));
            lemma_trim_front_at(piece, piece.len() as int);
            assert(trim_front(piece) =~= Seq::<char>::empty());
            assert(trim_spec(piece) =~= s@.subrange(b as int, b as int));
        }
        return (b, b);
    }
    let mut j: usize = b;
    while j > i && is_space(s.get_char(j - 1))
        invariant
            a <= i < b <= s@.len(),
            i <= j <= b,
            !is_space_char(s@[i as int]),
            forall|k: int| j <= k < b ==> is_space_char(s@[k]),
        decreases j,
    {
        j -= 1;
    }
    proof {
        lemma_trim_front_at(piece, i - a);
        let t = piece.subrange(i - a, piece.len() as int);
        assert(trim_front(piece) == t);
        lemma_trim_back_at(t, j - i);
        assert(trim_spec(piece) == t.subrange(0, j - i));
        assert(t.subrange(0, j - i) =~= s@.subrange(i as int, j as int));
    }
    (i, j)
}

/// The whole string trimmed of leading and trailing whitespace.
pub fn trim_str(s: &str) -> (r: String)
    ensures
        r@ == trim_spec(s@),
{
    let n = s.unicode_len();
    let (i, j) = trim_range(s, 0, n);
    proof {
        assert(s@.subrange(0, n as int) =~= s@);
    }
    let piece = s.substring_char(i, j);
    piece.to_owned()
}

/// The pieces of `s` between occurrences of the separator `sep`, in order.
/// An empty sequence has one empty piece, as `str::split` has.
pub open spec fn split_char(s: Seq<char>, sep: char) -> Seq<Seq<char>>
    decreases s.len(),
{
    if s.len() == 0 {
        seq![Seq::<char>::empty()]
    } else if s[0] == sep {
        seq![Seq::<char>::empty()] + split_char(s.subrange(1, s.len() as int), sep)
    } else {
        let r = split_char(s.subrange(1, s.len() as int), sep);
        seq![seq![s[0]] + r[0]] + r.subrange(1, r.len() as int)
    }
}

/// The pieces joined back with the separator between consecutive pieces.
pub open spec fn join_char(pieces: Seq<Seq<char>>, sep: char) -> Seq<char>
    decreases pieces.len(),
{
    if pieces.len() == 0 {
        Seq::<char>::empty()
    } else if pieces.len() == 1 {
        pieces[0]
    } else {
        pieces[0] + seq![sep] + join_char(pieces.subrange(1, pieces.len() as int), sep)
    }
}

pub proof fn lemma_split_len(s: Seq<char>, sep: char)
    ensures
        split_char(s, sep).len() >= 1,
    decreases s.len(),
{
    if s.len() > 0 {
        lemma_split_len(s.subrange(1, s.len() as int), sep);
    }
}

/// Appending one character to the split input extends the last piece, or
/// opens a new empty piece when the character is the separator.
pub proof fn lemma_split_push(s: Seq<char>, sep: char, c: char)
    ensures
        c == sep ==> split_char(s.push(c), sep) == split_char(s, sep).push(
            Seq::<char>::empty(),
        ),
        c != sep ==> split_char(s.push(c), sep) == split_char(s, sep).update(
            split_char(s, sep).len() - 1,
            split_char(s, sep).last().push(c),
        ),
    decreases s.len(),
{
    lemma_split_len(s, sep);
    if s.len() == 0 {
        let t = s.push(c);
        assert(t.subrange(1, t.len() as int) =~= Seq::<char>::empty());
        if c == sep {
            let e = Seq::<char>::empty();
            assert(s =~= e);
            assert(split_char(e, sep) == seq![e]);
            assert(split_char(t, sep) == seq![e] + split_char(e, sep));
            assert(split_char(t, sep) =~~= split_char(s, sep).push(Seq::<char>::empty()));
        } else {
            let e = Seq::<char>::empty();
            assert(s =~= e);
            assert(split_char(e, sep) == seq![e]);
            let r = split_char(e, sep);
            assert(split_char(t, sep) == seq![seq![t[0]] + r[0]] + r.subrange(1, 1));
            assert(seq![c] + e =~= e.push(c));
            assert(split_char(t, sep) =~~= split_char(s, sep).update(
                0,
                split_char(s, sep).last().push(c),
            ));
        }
    } else {
        let t = s.push(c);
        let s1 = s.subrange(1, s.len() as int);
        assert(t.subrange(1, t.len() as int) =~= s1.push(c));
        lemma_split_push(s1, sep, c);
        lemma_split_len(s1, sep);
        let r = split_char(s1, sep);
        if s[0] == sep {
            if c == sep {
                assert(split_char(t, sep) =~~= split_char(s, sep).push(Seq::<char>::empty()));
            } else {
                assert(split_char(t, sep) =~~= split_char(s, sep).update(
                    split_char(s, sep).len() - 1,
                    split_char(s, sep).last().push(c),
                ));
            }
        } else {
            if c == sep {
                assert(r.push(Seq::<char>::empty())[0] == r[0]);
                assert(split_char(t, sep) =~~= split_char(s, sep).push(Seq::<char>::empty()));
            } else {
                let r2 = r.update(r.len() - 1, r.last().push(c));
                assert(r2[0] == if r.len() == 1 { r[0].push(c) } else { r[0] });
                if r.len() == 1 {
                    assert(seq![s[0]] + r[0].push(c) =~= (seq![s[0]] + r[0]).push(c));
                }
                assert(split_char(t, sep) =~~= split_char(s, sep).update(
                    split_char(s, sep).len() - 1,
                    split_char(s, sep).last().push(c),
                ));
            }
        }
    }
}

/// No piece of the split contains the separator.
pub proof fn lemma_split_pieces_sep_free(s: Seq<char>, sep: char)
    ensures
        forall|k: int|
            0 <= k < split_char(s, sep).len() ==> !(#[trigger] split_char(s, sep)[k]).contains(
                sep,
            ),
    decreases s.len(),
{
    if s.len() > 0 {
        let s1 = s.subrange(1, s.len() as int);
        lemma_split_pieces_sep_free(s1, sep);
        lemma_split_len(s1, sep);
        let r = split_char(s1, sep);
        if s[0] != sep {
            assert forall|k: int| 0 <= k < split_char(s, sep).len() implies !(
            #[trigger] split_char(s, sep)[k]).contains(sep) by {
                if k == 0 {
                    let piece = seq![s[0]] + r[0];
                    assert(!r[0].contains(sep));
                    assert forall|m: int| 0 <= m < piece.len() implies piece[m] != sep by {
                        if m > 0 {
                            assert(r[0][m - 1] != sep);
                        }
                    }
                } else {
                    assert(split_char(s, sep)[k] == r[k]);
                }
            }
        }
    }
}

/// A separator-free sequence splits into itself alone.
pub proof fn lemma_split_of_sep_free(s: Seq<char>, sep: char)
    requires
        !s.contains(sep),
    ensures
        split_char(s, sep) == seq![s],
    decreases s.len(),
{
    if s.len() > 0 {
        assert(s[0] != sep);
        let s1 = s.subrange(1, s.len() as int);
        assert(!s1.contains(sep)) by {
            assert forall|m: int| 0 <= m < s1.len() implies s1[m] != sep by {
                assert(s[m + 1] != sep);
            }
        }
        lemma_split_of_sep_free(s1, sep);
        assert(seq![s[0]] + s1 =~= s);
        assert(split_char(s, sep) =~~= seq![s]);
    } else {
        assert(s =~= Seq::<char>::empty());
    }
}

pub proof fn lemma_split_append_sep(p: Seq<char>, sep: char, t: Seq<char>)
    requires
        !p.contains(sep),
    ensures
        split_char(p + seq![sep] + t, sep) == seq![p] + split_char(t, sep),
    decreases p.len(),
{
    lemma_split_len(t, sep);
    if p.len() == 0 {
        let s = p + seq![sep] + t;
        assert(p =~= Seq::<char>::empty());
        assert(s[0] == sep);
        assert(s.subrange(1, s.len() as int) =~= t);
        assert(split_char(s, sep) =~~= seq![p] + split_char(t, sep));
    } else {
        let s = p + seq![sep] + t;
        assert(s[0] == p[0]);
        assert(p.contains(p[0]));
        let p1 = p.subrange(1, p.len() as int);
        assert(!p1.contains(sep)) by {
            assert forall|m: int| 0 <= m < p1.len() implies p1[m] != sep by {
                assert(p[m + 1] != sep);
            }
        }
        lemma_split_append_sep(p1, sep, t);
        assert(s.subrange(1, s.len() as int) =~= p1 + seq![sep] + t);
        let r = split_char(p1 + seq![sep] + t, sep);
        assert(r == seq![p1] + split_char(t, sep));
        assert(seq![s[0]] + r[0] =~= p);
        assert(r.subrange(1, r.len() as int) =~= split_char(t, sep));
        assert(split_char(s, sep) =~~= seq![p] + split_char(t, sep));
    }
}

/// Splitting the join of separator-free pieces gives the pieces back.
pub proof fn lemma_split_join(pieces: Seq<Seq<char>>, sep: char)
    requires
        pieces.len() >= 1,
        forall|k: int| 0 <= k < pieces.len() ==> !(#[trigger] pieces[k]).contains(sep),
    ensures
        split_char(join_char(pieces, sep), sep) == pieces,
    decreases pieces.len(),
{
    if pieces.len() == 1 {
        lemma_split_of_sep_free(pieces[0], sep);
        assert(seq![pieces[0]] =~~= pieces);
    } else {
        let rest = pieces.subrange(1, pieces.len() as int);
        lemma_split_join(rest, sep);
        lemma_split_append_sep(pieces[0], sep, join_char(rest, sep));
        assert(seq![pieces[0]] + rest =~~= pieces);
    }
}

/// Each piece trimmed of whitespace.
pub open spec fn trim_all(pieces: Seq<Seq<char>>) -> Seq<Seq<char>> {
    pieces.map_values(|p: Seq<char>| trim_spec(p))
}

/// The pieces with the empty ones removed, in order.
pub open spec fn drop_empty(pieces: Seq<Seq<char>>) -> Seq<Seq<char>>
    decreases pieces.len(),
{
    if pieces.len() == 0 {
        Seq::<Seq<char>>::empty()
    } else {
        let rest = drop_empty(pieces.subrange(1, pieces.len() as int));
        if pieces[0].len() > 0 {
            seq![pieces[0]] + rest
        } else {
            rest
        }
    }
}

pub proof fn lemma_trim_all_concat(a: Seq<Seq<char>>, b: Seq<Seq<char>>)
    ensures
        trim_all(a + b) == trim_all(a) + trim_all(b),
{
    assert(trim_all(a + b) =~~= trim_all(a) + trim_all(b));
}

pub proof fn lemma_drop_empty_concat(a: Seq<Seq<char>>, b: Seq<Seq<char>>)
    ensures
        drop_empty(a + b) == drop_empty(a) + drop_empty(b),
    decreases a.len(),
{
    if a.len() == 0 {
        assert(a + b =~= b);
        assert(drop_empty(a) + drop_empty(b) =~~= drop_empty(b));
    } else {
        let a1 = a.subrange(1, a.len() as int);
        lemma_drop_empty_concat(a1, b);
        assert((a + b).subrange(1, (a + b).len() as int) =~= a1 + b);
        assert((a + b)[0] == a[0]);
        if a[0].len() > 0 {
            assert(drop_empty(a + b) =~~= drop_empty(a) + drop_empty(b));
        }
    }
}

/// Dropping empties from a sequence of non-empty pieces changes nothing.
pub proof fn lemma_drop_empty_of_nonempty(pieces: Seq<Seq<char>>)
    requires
        forall|k: int| 0 <= k < pieces.len() ==> (#[trigger] pieces[k]).len() > 0,
    ensures
        drop_empty(pieces) == pieces,
    decreases pieces.len(),
{
    if pieces.len() > 0 {
        let rest = pieces.subrange(1, pieces.len() as int);
        lemma_drop_empty_of_nonempty(rest);
        assert(seq![pieces[0]] + rest =~~= pieces);
    }
}

/// Dropping empties from a single piece keeps it exactly when it is
/// non-empty.
pub proof fn lemma_drop_empty_single(p: Seq<char>)
    ensures
        drop_empty(seq![p]) == if p.len() > 0 {
            seq![p]
        } else {
            Seq::<Seq<char>>::empty()
        },
{
    let ps = seq![p];
    assert(ps.subrange(1, 1) =~~= Seq::<Seq<char>>::empty());
    assert(drop_empty(Seq::<Seq<char>>::empty()) == Seq::<Seq<char>>::empty());
    if p.len() > 0 {
        assert(seq![ps[0]] + Seq::<Seq<char>>::empty() =~~= seq![p]);
    }
}

/// Every piece kept by `drop_empty` is non-empty and occurs in the input.
pub proof fn lemma_drop_empty_props(ps: Seq<Seq<char>>)
    ensures
        forall|k: int|
            0 <= k < drop_empty(ps).len() ==> (#[trigger] drop_empty(ps)[k]).len() > 0,
        forall|k: int|
            0 <= k < drop_empty(ps).len() ==> exists|j: int|
                0 <= j < ps.len() && #[trigger] drop_empty(ps)[k] == ps[j],
    decreases ps.len(),
{
    if ps.len() > 0 {
        let rest = ps.subrange(1, ps.len() as int);
        lemma_drop_empty_props(rest);
        assert forall|k: int| 0 <= k < drop_empty(ps).len() implies (#[trigger] drop_empty(
            ps,
        )[k]).len() > 0 && exists|j: int|
            0 <= j < ps.len() && drop_empty(ps)[k] == ps[j] by {
            if ps[0].len() > 0 {
                if k == 0 {
                    assert(drop_empty(ps)[0] == ps[0]);
                } else {
                    assert(drop_empty(ps)[k] == drop_empty(rest)[k - 1]);
                    let j = choose|j: int|
                        0 <= j < rest.len() && drop_empty(rest)[k - 1] == rest[j];
                    assert(drop_empty(ps)[k] == ps[j + 1]);
                }
            } else {
                assert(drop_empty(ps)[k] == drop_empty(rest)[k]);
                let j = choose|j: int| 0 <= j < rest.len() && drop_empty(rest)[k] == rest[j];
                assert(drop_empty(ps)[k] == ps[j + 1]);
            }
        }
    }
}

/// Appending one piece to a join adds a separator and the piece, once the
/// join is non-empty.
pub proof fn lemma_join_push(pieces: Seq<Seq<char>>, p: Seq<char>, sep: char)
    ensures
        pieces.len() == 0 ==> join_char(pieces.push(p), sep) == p,
        pieces.len() > 0 ==> join_char(pieces.push(p), sep) == join_char(pieces, sep)
            + seq![sep] + p,
    decreases pieces.len(),
{
    if pieces.len() == 0 {
        assert(pieces.push(p)[0] == p);
    } else if pieces.len() == 1 {
        let q = pieces.push(p);
        assert(q.subrange(1, 2) =~~= seq![p]);
        assert(join_char(q, sep) == q[0] + seq![sep] + join_char(seq![p], sep));
    } else {
        let q = pieces.push(p);
        let rest = pieces.subrange(1, pieces.len() as int);
        lemma_join_push(rest, p, sep);
        assert(q.subrange(1, q.len() as int) =~~= rest.push(p));
        assert(join_char(q, sep) == q[0] + seq![sep] + join_char(rest.push(p), sep));
        assert(q[0] + seq![sep] + (join_char(rest, sep) + seq![sep] + p) =~= (pieces[0]
            + seq![sep] + join_char(rest, sep)) + seq![sep] + p);
    }
}

/// Trimming already trimmed pieces changes nothing.
pub proof fn lemma_trim_all_of_trimmed(pieces: Seq<Seq<char>>)
    requires
        forall|k: int| 0 <= k < pieces.len() ==> is_trimmed(#[trigger] pieces[k]),
    ensures
        trim_all(pieces) == pieces,
{
    assert forall|k: int| 0 <= k < pieces.len() implies trim_all(pieces)[k] == pieces[k] by {
        lemma_trim_of_trimmed(pieces[k]);
    }
    assert(trim_all(pieces) =~~= pieces);
}

/// The character for a single decimal digit.
pub open spec fn digit_char_of(d: nat) -> char {
    if d == 0 {
        '0'
    } else if d == 1 {
        '1'
    } else if d == 2 {
        '2'
    } else if d == 3 {
        '3'
    } else if d == 4 {
        '4'
    } else if d == 5 {
        '5'
    } else if d == 6 {
        '6'
    } else if d == 7 {
        '7'
    } else if d == 8 {
        '8'
    } else {
        '9'
    }
}

/// The decimal digits of `n`, most significant first.
pub open spec fn dec_digits(n: nat) -> Seq<char>
    decreases n,
{
    if n < 10 {
        seq![digit_char_of(n)]
    } else {
        dec_digits(n / 10).push(digit_char_of(n % 10))
    }
}

/// A run of `k` zero characters.
pub open spec fn zero_chars(k: nat) -> Seq<char> {
    Seq::new(k, |i: int| '0')
}

/// The decimal digits of `n`, zero padded on the left to at least `w`
/// characters.
pub open spec fn dec_padded(n: nat, w: nat) -> Seq<char> {
    if dec_digits(n).len() >= w {
        dec_digits(n)
    } else {
        zero_chars((w - dec_digits(n).len()) as nat) + dec_digits(n)
    }
}

fn digit_char(d: u64) -> (r: char)
    requires
        d < 10,
    ensures
        r == digit_char_of(d as nat),
{
    match d {
        0 => '0',
        1 => '1',
        2 => '2',
        3 => '3',
        4 => '4',
        5 => '5',
        6 => '6',
        7 => '7',
        8 => '8',
        _ => '9',
    }
}

fn push_dec_digits(s: &mut String, n: u64)
    ensures
        final(s)@ == old(s)@ + dec_digits(n as nat),
    decreases n,
{
    if n >= 10 {
        push_dec_digits(s, n / 10);
    }
    s.push(digit_char(n % 10));
    proof {
        if n >= 10 {
            assert(final(s)@ =~= old(s)@ + dec_digits(n as nat));
        } else {
            assert(final(s)@ =~= old(s)@ + dec_digits(n as nat));
        }
    }
}

/// Appends the decimal form of `n`, zero padded on the left to at least
/// `width` characters.
pub fn push_decimal(s: &mut String, n: u64, width: usize)
    ensures
        final(s)@ == old(s)@ + dec_padded(n as nat, width as nat),
{
    let mut digits = String::new();
    push_dec_digits(&mut digits, n);
    proof {
        assert(digits@ =~= dec_digits(n as nat));
    }
    let w = digits.as_str().unicode_len();
    if w >= width {
        s.append(digits.as_str());
        return ;
    }
    let mut k: usize = 0;
    while k < width - w
        invariant
            s@ == old(s)@ + zero_chars(k as nat),
            w == dec_digits(n as nat).len(),
            w < width,
            k <= width - w,
        decreases width - w - k,
    {
        s.push('0');
        proof {
            assert(old(s)@ + zero_chars(k as nat) + seq!['0'] =~= old(s)@ + zero_chars(
                (k + 1) as nat,
            ));
        }
        k += 1;
    }
    s.append(digits.as_str());
    proof {
        assert(final(s)@ =~= old(s)@ + dec_padded(n as nat, width as nat));
    }
}

/// Strict lexicographic order on character sequences, by code point; the
/// order in which version identifiers are compared.
pub open spec fn lex_lt(a: Seq<char>, b: Seq<char>) -> bool
    decreases a.len(),
{
    if b.len() == 0 {
        false
    } else if a.len() == 0 {
        true
    } else if a[0] != b[0] {
        a[0] < b[0]
    } else {
        lex_lt(a.subrange(1, a.len() as int), b.subrange(1, b.len() as int))
    }
}

pub proof fn lemma_lex_lt_irrefl(a: Seq<char>)
    ensures
        !lex_lt(a, a),
    decreases a.len(),
{
    if a.len() > 0 {
        lemma_lex_lt_irrefl(a.subrange(1, a.len() as int));
    }
}

pub proof fn lemma_lex_lt_trichotomy(a: Seq<char>, b: Seq<char>)
    ensures
        lex_lt(a, b) || lex_lt(b, a) || a == b,
    decreases a.len(),
{
    if a.len() == 0 && b.len() == 0 {
        assert(a =~= b);
    } else if a.len() > 0 && b.len() > 0 && a[0] == b[0] {
        let a1 = a.subrange(1, a.len() as int);
        let b1 = b.subrange(1, b.len() as int);
        lemma_lex_lt_trichotomy(a1, b1);
        if !lex_lt(a, b) && !lex_lt(b, a) {
            assert(a1 == b1);
            assert(a.len() == b.len());
            assert forall|j: int| 0 <= j < a.len() implies a[j] == b[j] by {
                if j > 0 {
                    assert(a1[j - 1] == b1[j - 1]);
                }
            }
            assert(a =~= b);
        }
    }
}

pub proof fn lemma_lex_lt_trans(a: Seq<char>, b: Seq<char>, c: Seq<char>)
    requires
        lex_lt(a, b),
        lex_lt(b, c),
    ensures
        lex_lt(a, c),
    decreases a.len(),
{
    if a.len() > 0 && b.len() > 0 && c.len() > 0 {
        if a[0] == b[0] && b[0] == c[0] {
            lemma_lex_lt_trans(
                a.subrange(1, a.len() as int),
                b.subrange(1, b.len() as int),
                c.subrange(1, c.len() as int),
            );
        }
    }
}

proof fn lemma_lex_lt_skip(a: Seq<char>, b: Seq<char>, i: int)
    requires
        0 <= i <= a.len(),
        i <= b.len(),
        forall|j: int| 0 <= j < i ==> a[j] == b[j],
    ensures
        lex_lt(a, b) == lex_lt(a.subrange(i, a.len() as int), b.subrange(i, b.len() as int)),
    decreases i,
{
    if i == 0 {
        assert(a.subrange(0, a.len() as int) =~= a);
        assert(b.subrange(0, b.len() as int) =~= b);
    } else {
        let a1 = a.subrange(1, a.len() as int);
        let b1 = b.subrange(1, b.len() as int);
        lemma_lex_lt_skip(a1, b1, i - 1);
        assert(a1.subrange(i - 1, a1.len() as int) =~= a.subrange(i, a.len() as int));
        assert(b1.subrange(i - 1, b1.len() as int) =~= b.subrange(i, b.len() as int));
    }
}

/// Compares two strings in lexicographic order by code point.
pub fn str_lt(a: &str, b: &str) -> (r: bool)
    ensures
        r == lex_lt(a@, b@),
{
    let na = a.unicode_len();
    let nb = b.unicode_len();
    let mut i: usize = 0;
    loop
        invariant
            0 <= i <= na,
            i <= nb,
            na == a@.len(),
            nb == b@.len(),
            forall|j: int| 0 <= j < i ==> a@[j] == b@[j],
        decreases na - i,
    {
        proof {
            lemma_lex_lt_skip(a@, b@, i as int);
        }
        if i == na {
            proof {
                assert(a@.subrange(i as int, na as int) =~= Seq::<char>::empty());
            }
            return i < nb;
        }
        if i == nb {
            proof {
                assert(b@.subrange(i as int, nb as int) =~= Seq::<char>::empty());
            }
            return false;
        }
        let ca = a.get_char(i);
        let cb = b.get_char(i);
        if ca != cb {
            return ca < cb;
        }
        i += 1;
    }
}

/// Compares two strings for character equality.
pub fn str_eq(a: &str, b: &str) -> (r: bool)
    ensures
        r == (a@ == b@),
{
    let na = a.unicode_len();
    let nb = b.unicode_len();
    if na != nb {
        return false;
    }
    let mut i: usize = 0;
    while i < na
        invariant
            i <= na,
            na == a@.len(),
            na == b@.len(),
            forall|j: int| 0 <= j < i ==> a@[j] == b@[j],
        decreases na - i,
    {
        if a.get_char(i) != b.get_char(i) {
            return false;
        }
        i += 1;
    }
    proof {
        assert(a@ =~= b@);
    }
    true
}

/// Powers of ten, for bounding decimal digit counts.
pub open spec fn pow10(k: nat) -> nat
    decreases k,
{
    if k == 0 {
        1
    } else {
        10 * pow10((k - 1) as nat)
    }
}

/// Every character of a decimal rendering is a digit.
pub proof fn lemma_dec_digits_are_digits(n: nat)
    ensures
        forall|i: int| 0 <= i < dec_digits(n).len() ==> is_digit_char(#[trigger] dec_digits(n)[i]),
    decreases n,
{
    if n >= 10 {
        lemma_dec_digits_are_digits(n / 10);
        assert forall|i: int| 0 <= i < dec_digits(n).len() implies is_digit_char(
            #[trigger] dec_digits(n)[i],
        ) by {
            if i < dec_digits(n).len() - 1 {
                assert(dec_digits(n)[i] == dec_digits(n / 10)[i]);
            }
        }
    }
}

/// A number below the `k`-th power of ten has at most `k` digits.
pub proof fn lemma_dec_digits_len_le(n: nat, k: nat)
    requires
        k >= 1,
        n < pow10(k),
    ensures
        dec_digits(n).len() <= k,
    decreases k,
{
    if n >= 10 {
        if k == 1 {
            assert(pow10(0) == 1);
            assert(pow10(1) == 10);
            assert(false);
        }
        let p = pow10((k - 1) as nat);
        assert(pow10(k) == 10 * p);
        assert(10 * (n / 10) <= n);
        assert(n / 10 < p);
        lemma_dec_digits_len_le(n / 10, (k - 1) as nat);
    }
}

/// Padding a number below the `w`-th power of ten yields exactly `w`
/// digit characters.
pub proof fn lemma_dec_padded_exact(n: nat, w: nat)
    requires
        w >= 1,
        n < pow10(w),
    ensures
        dec_padded(n, w).len() == w,
        forall|i: int| 0 <= i < w ==> is_digit_char(#[trigger] dec_padded(n, w)[i]),
{
    lemma_dec_digits_len_le(n, w);
    lemma_dec_digits_are_digits(n);
    if dec_digits(n).len() < w {
        assert forall|i: int| 0 <= i < w implies is_digit_char(
            #[trigger] dec_padded(n, w)[i],
        ) by {
            let pad = (w - dec_digits(n).len()) as nat;
            if i < pad {
                assert(dec_padded(n, w)[i] == '0');
            } else {
                assert(dec_padded(n, w)[i] == dec_digits(n)[i - pad]);
            }
        }
    }
}

} // verus!
