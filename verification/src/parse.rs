//! Parsing of newline-delimited, comma-separated two-field records.
//!
//! A relation file is a sequence of lines; each line must hold exactly
//! two fields separated by one comma.  A line that does not is a
//! malformed record and fails the whole load.

use crate::error::Error;
use vstd::prelude::*;

verus! {

/// The index of the first occurrence of `b` in `s`, or `s.len()` if none.
pub open spec fn find_byte(s: Seq<u8>, b: u8) -> int
    decreases s.len(),
{
    if s.len() == 0 {
        0
    } else if s[0] == b {
        0
    } else {
        1 + find_byte(s.skip(1), b)
    }
}

pub proof fn lemma_find_byte(s: Seq<u8>, b: u8)
    ensures
        0 <= find_byte(s, b) <= s.len(),
        find_byte(s, b) < s.len() ==> s[find_byte(s, b)] == b,
        forall|j: int| 0 <= j < find_byte(s, b) ==> s[j] != b,
    decreases s.len(),
{
    if s.len() > 0 && s[0] != b {
        lemma_find_byte(s.skip(1), b);
        let t = s.skip(1);
        assert forall|j: int| 0 <= j < find_byte(s, b) implies s[j] != b by {
            if j > 0 {
                assert(t[j - 1] == s[j]);
            }
        }
    }
}

/// If everything before `k` differs from `b` and `s[k] == b`, the first
/// occurrence is exactly `k`.
pub proof fn lemma_find_byte_at(s: Seq<u8>, b: u8, k: int)
    requires
        0 <= k < s.len(),
        s[k] == b,
        forall|j: int| 0 <= j < k ==> s[j] != b,
    ensures
        find_byte(s, b) == k,
{
    lemma_find_byte(s, b);
    let f = find_byte(s, b);
    if f < k {
        assert(s[f] == b);
    }
    if f > k {
        assert(s[k] != b);
    }
}

/// If `b` does not occur in `s`, the first occurrence is `s.len()`.
pub proof fn lemma_find_byte_none(s: Seq<u8>, b: u8)
    requires
        forall|j: int| 0 <= j < s.len() ==> s[j] != b,
    ensures
        find_byte(s, b) == s.len(),
{
    lemma_find_byte(s, b);
    if find_byte(s, b) < s.len() {
        assert(s[find_byte(s, b)] == b);
    }
}

#[via_fn]
proof fn split_on_dec(s: Seq<u8>, b: u8) {
    lemma_find_byte(s, b);
}

/// `s` split at every occurrence of `b`; the separators are dropped.
/// Splitting the empty sequence yields one empty part.
pub open spec fn split_on(s: Seq<u8>, b: u8) -> Seq<Seq<u8>>
    decreases s.len(),
        via split_on_dec
{
    let i = find_byte(s, b);
    if i == s.len() {
        seq![s]
    } else {
        seq![s.take(i)] + split_on(s.skip(i + 1), b)
    }
}

/// The lines of a relation file: newline-separated parts, without a final
/// empty part when the file ends in a newline (or is empty).
pub open spec fn line_seqs(s: Seq<u8>) -> Seq<Seq<u8>> {
    let parts = split_on(s, 10);
    if parts.len() > 0 && parts.last().len() == 0 {
        parts.drop_last()
    } else {
        parts
    }
}

/// A line splits into exactly two comma-separated fields.
pub open spec fn well_formed_line(l: Seq<u8>) -> bool {
    let i = find_byte(l, 44);
    i < l.len() && find_byte(l.skip(i + 1), 44) == l.len() - i - 1
}

/// The record held by a well-formed line.
pub open spec fn line_rec(l: Seq<u8>) -> (Seq<u8>, Seq<u8>) {
    let i = find_byte(l, 44);
    (l.take(i), l.skip(i + 1))
}

/// Every line of the file is well formed.
pub open spec fn parse_ok(s: Seq<u8>) -> bool {
    forall|i: int| 0 <= i < line_seqs(s).len() ==> well_formed_line(#[trigger] line_seqs(s)[i])
}

/// The relation held by the file.
pub open spec fn parse_recs(s: Seq<u8>) -> Seq<(Seq<u8>, Seq<u8>)> {
    line_seqs(s).map_values(|l: Seq<u8>| line_rec(l))
}

/// Split the input into its lines.
fn split_lines(input: &[u8]) -> (r: Vec<Vec<u8>>)
    ensures
        crate::rel::names_view(r@) == line_seqs(input@),
{
    let s = input;
    let n = s.len();
    let mut lines: Vec<Vec<u8>> = Vec::new();
    let mut cur: Vec<u8> = Vec::new();
    let ghost mut start: int = 0;
    let mut p: usize = 0;
    proof {
        assert(s@.skip(0) =~= s@);
        assert(crate::rel::names_view(lines@) =~= Seq::<Seq<u8>>::empty());
        assert(Seq::<Seq<u8>>::empty() + split_on(s@, 10) =~= split_on(s@, 10));
    }
    while p < n
        invariant
            n == s@.len(),
            0 <= p <= n,
            0 <= start <= p,
            cur@ =~= s@.subrange(start, p as int),
            forall|j: int| start <= j < p ==> s@[j] != 10,
            split_on(s@, 10) =~= crate::rel::names_view(lines@) + split_on(
                s@.skip(start),
                10,
            ),
        decreases n - p,
    {
        let byte = s[p];
        if byte == 10 {
            proof {
                let t = s@.skip(start);
                assert forall|j: int| 0 <= j < p - start implies t[j] != 10 by {
                    assert(t[j] == s@[start + j]);
                }
                assert(t[p - start] == s@[p as int]);
                lemma_find_byte_at(t, 10, p - start);
                assert(t.take(p - start) =~= s@.subrange(start, p as int));
                assert(t.skip(p - start + 1) =~= s@.skip(p + 1));
                assert(split_on(t, 10) == seq![cur@] + split_on(s@.skip(p + 1), 10));
                assert(crate::rel::names_view(lines@.push(cur)) =~= crate::rel::names_view(
                    lines@,
                ).push(cur@));
            }
            lines.push(cur);
            cur = Vec::new();
            proof {
                start = p + 1;
                assert(split_on(s@, 10) =~= crate::rel::names_view(lines@) + split_on(
                    s@.skip(start),
                    10,
                ));
            }
        } else {
            cur.push(byte);
            proof {
                assert(cur@ =~= s@.subrange(start, p + 1));
            }
        }
        p = p + 1;
    }
    proof {
        let t = s@.skip(start);
        assert forall|j: int| 0 <= j < t.len() implies t[j] != 10 by {
            assert(t[j] == s@[start + j]);
        }
        lemma_find_byte_none(t, 10);
        assert(split_on(t, 10) == seq![t]);
        assert(t =~= cur@);
        assert(split_on(s@, 10) =~= crate::rel::names_view(lines@).push(cur@));
    }
    if cur.len() > 0 {
        proof {
            let parts = split_on(s@, 10);
            assert(parts.last() == cur@);
            assert(crate::rel::names_view(lines@.push(cur)) =~= crate::rel::names_view(
                lines@,
            ).push(cur@));
            assert(crate::rel::names_view(lines@.push(cur)) =~= line_seqs(s@));
        }
        lines.push(cur);
    } else {
        proof {
            let parts = split_on(s@, 10);
            assert(parts.last() == cur@);
            assert(parts.last().len() == 0);
            assert(parts.drop_last() =~= crate::rel::names_view(lines@));
        }
    }
    lines
}

/// The index of the first `b` in `v`, or `v.len()` if none.
fn find_byte_in(v: &Vec<u8>, b: u8) -> (r: usize)
    ensures
        r == find_byte(v@, b),
{
    let n = v.len();
    let mut i: usize = 0;
    while i < n
        invariant
            n == v@.len(),
            0 <= i <= n,
            forall|j: int| 0 <= j < i ==> v@[j] != b,
        decreases n - i,
    {
        if v[i] == b {
            proof {
                lemma_find_byte_at(v@, b, i as int);
            }
            return i;
        }
        i = i + 1;
    }
    proof {
        lemma_find_byte_none(v@, b);
    }
    n
}

/// A copy of `v[from..to]`.
fn sub_bytes(v: &Vec<u8>, from: usize, to: usize) -> (r: Vec<u8>)
    requires
        0 <= from <= to <= v@.len(),
    ensures
        r@ == v@.subrange(from as int, to as int),
{
    let mut r: Vec<u8> = Vec::new();
    let mut i: usize = from;
    while i < to
        invariant
            0 <= from <= i <= to <= v@.len(),
            r@ =~= v@.subrange(from as int, i as int),
        decreases to - i,
    {
        r.push(v[i]);
        proof {
            assert(r@ =~= v@.subrange(from as int, i + 1));
        }
        i = i + 1;
    }
    r
}

/// Parse one relation file into its record list.
///
/// Returns `MalformedRecord` exactly when some line does not split into
/// two comma-separated fields.
pub fn parse_relation(input: &[u8]) -> (r: Result<Vec<(Vec<u8>, Vec<u8>)>, Error>)
    ensures
        match r {
            Ok(rs) => parse_ok(input@) && crate::rel::recs_view(rs@) == parse_recs(input@),
            Err(e) => e == Error::MalformedRecord && !parse_ok(input@),
        },
{
    let lines = split_lines(input);
    let n = lines.len();
    let mut rs: Vec<(Vec<u8>, Vec<u8>)> = Vec::new();
    let mut i: usize = 0;
    while i < n
        invariant
            n == lines@.len(),
            crate::rel::names_view(lines@) == line_seqs(input@),
            0 <= i <= n,
            forall|j: int| 0 <= j < i ==> well_formed_line(#[trigger] line_seqs(input@)[j]),
            crate::rel::recs_view(rs@) =~= line_seqs(input@).take(i as int).map_values(
                |l: Seq<u8>| line_rec(l),
            ),
        decreases n - i,
    {
        let line = &lines[i];
        let c = find_byte_in(line, 44);
        proof {
            lemma_find_byte(line@, 44);
        }
        if c == line.len() {
            proof {
                lemma_find_byte(line@, 44);
                assert(!well_formed_line(line_seqs(input@)[i as int]));
            }
            return Err(Error::MalformedRecord);
        }
        let second = find_byte_in_from(line, 44, c + 1);
        if second != line.len() {
            proof {
                let t = line@.skip(c + 1);
                assert(t[second - c - 1] == line@[second as int]);
                lemma_find_byte(t, 44);
                if find_byte(t, 44) == t.len() {
                    assert(t[second - c - 1] != 44);
                }
                assert(!well_formed_line(line_seqs(input@)[i as int]));
            }
            return Err(Error::MalformedRecord);
        }
        proof {
            let t = line@.skip(c + 1);
            assert forall|j: int| 0 <= j < t.len() implies t[j] != 44 by {
                assert(t[j] == line@[c + 1 + j]);
            }
            lemma_find_byte_none(t, 44);
            assert(well_formed_line(line@));
        }
        let left = sub_bytes(line, 0, c);
        let right = sub_bytes(line, c + 1, line.len());
        proof {
            assert(left@ =~= line@.take(c as int));
            assert(right@ =~= line@.skip(c + 1));
            assert(crate::rel::recs_view(rs@.push((left, right))) =~= crate::rel::recs_view(
                rs@,
            ).push((left@, right@)));
            assert(line_seqs(input@).take(i + 1) =~= line_seqs(input@).take(i as int).push(
                line@,
            ));
        }
        rs.push((left, right));
        i = i + 1;
    }
    proof {
        assert(line_seqs(input@).take(n as int) =~= line_seqs(input@));
    }
    Ok(rs)
}

/// The index of the first `b` in `v` at or after `from`, or `v.len()` if none.
fn find_byte_in_from(v: &Vec<u8>, b: u8, from: usize) -> (r: usize)
    requires
        from <= v@.len(),
    ensures
        from <= r <= v@.len(),
        r < v@.len() ==> v@[r as int] == b,
        forall|j: int| from <= j < r ==> v@[j] != b,
{
    let n = v.len();
    let mut i: usize = from;
    while i < n
        invariant
            n == v@.len(),
            from <= i <= n,
            forall|j: int| from <= j < i ==> v@[j] != b,
        decreases n - i,
    {
        if v[i] == b {
            return i;
        }
        i = i + 1;
    }
    n
}

} // verus!
