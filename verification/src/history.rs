//! History loading: turn the text of a shell history file into an ordered
//! command list. Lines are split, timestamp prefixes are stripped, blank
//! lines are dropped, the order is reversed so that the most recent command
//! comes first, and repeated commands are deduplicated keeping the most
//! recent occurrence.

use vstd::prelude::*;
use crate::text::{all_whitespace, char_is_whitespace, chars_to_string, str_to_chars};

verus! {

/// Position of the first occurrence of `c` in `s` at or after `i`, or
/// `s.len()` when there is none.
pub open spec fn find_from(s: Seq<char>, c: char, i: int) -> int
    decreases s.len() - i,
{
    if i < 0 || i >= s.len() {
        s.len() as int
    } else if s[i] == c {
        i
    } else {
        find_from(s, c, i + 1)
    }
}

pub proof fn lemma_find_from(s: Seq<char>, c: char, i: int)
    requires
        0 <= i <= s.len(),
    ensures
        i <= find_from(s, c, i) <= s.len(),
        find_from(s, c, i) < s.len() ==> s[find_from(s, c, i)] == c,
        forall|k: int| i <= k < find_from(s, c, i) ==> s[k] != c,
    decreases s.len() - i,
{
    if i < s.len() && s[i] != c {
        lemma_find_from(s, c, i + 1);
    }
}

/// A carriage return left at the end of a line by a CRLF line ending is
/// dropped; anything else is kept as it is.
pub open spec fn strip_cr(l: Seq<char>) -> Seq<char> {
    if l.len() > 0 && l[l.len() - 1] == '\r' {
        l.drop_last()
    } else {
        l
    }
}

/// The lines of `s` from position `pos` on: segments separated by `'\n'`,
/// each with a trailing `'\r'` removed; a final segment without a newline is
/// kept verbatim, and a trailing newline does not open an extra empty line.
pub open spec fn split_from(s: Seq<char>, pos: int) -> Seq<Seq<char>>
    decreases s.len() - pos,
    via split_from_decreases
{
    if pos < 0 || pos >= s.len() {
        Seq::empty()
    } else {
        let p = find_from(s, '\n', pos);
        if p >= s.len() {
            seq![s.subrange(pos, s.len() as int)]
        } else {
            seq![strip_cr(s.subrange(pos, p))] + split_from(s, p + 1)
        }
    }
}

#[via_fn]
proof fn split_from_decreases(s: Seq<char>, pos: int) {
    if 0 <= pos < s.len() {
        lemma_find_from(s, '\n', pos);
    }
}

/// All lines of a history file's text.
pub open spec fn split_lines(s: Seq<char>) -> Seq<Seq<char>> {
    split_from(s, 0)
}

/// Per-line normalization: a line that starts with `':'` and holds a `';'`
/// is a timestamped history line; everything up to and including the first
/// `';'` is dropped. Any other line is kept verbatim.
pub open spec fn normalize_line(l: Seq<char>) -> Seq<char> {
    if l.len() > 0 && l[0] == ':' && find_from(l, ';', 0) < l.len() {
        l.subrange(find_from(l, ';', 0) + 1, l.len() as int)
    } else {
        l
    }
}

/// The first `n` lines, normalized, with blank results dropped.
pub open spec fn kept_upto(lines: Seq<Seq<char>>, n: int) -> Seq<Seq<char>>
    decreases n,
{
    if n <= 0 {
        Seq::empty()
    } else {
        let p = kept_upto(lines, n - 1);
        let nl = normalize_line(lines[n - 1]);
        if all_whitespace(nl) {
            p
        } else {
            p.push(nl)
        }
    }
}

/// All lines, normalized, with blank results dropped; chronological order.
pub open spec fn kept_lines(lines: Seq<Seq<char>>) -> Seq<Seq<char>> {
    kept_upto(lines, lines.len() as int)
}

/// Deduplication of the first `n` entries: an entry is kept when no earlier
/// entry has the same text.
pub open spec fn dedup_upto(s: Seq<Seq<char>>, n: int) -> Seq<Seq<char>>
    decreases n,
{
    if n <= 0 {
        Seq::empty()
    } else {
        let p = dedup_upto(s, n - 1);
        if p.contains(s[n - 1]) {
            p
        } else {
            p.push(s[n - 1])
        }
    }
}

/// Deduplication keeping, for every text, its first occurrence.
pub open spec fn dedup_texts(s: Seq<Seq<char>>) -> Seq<Seq<char>> {
    dedup_upto(s, s.len() as int)
}

/// Position of the first occurrence of `t` in `s` at or after `i`, or
/// `s.len()` when there is none.
pub open spec fn first_occ(s: Seq<Seq<char>>, t: Seq<char>, i: int) -> int
    decreases s.len() - i,
{
    if i < 0 || i >= s.len() {
        s.len() as int
    } else if s[i] == t {
        i
    } else {
        first_occ(s, t, i + 1)
    }
}

pub proof fn lemma_first_occ(s: Seq<Seq<char>>, t: Seq<char>, i: int)
    requires
        0 <= i <= s.len(),
    ensures
        i <= first_occ(s, t, i) <= s.len(),
        first_occ(s, t, i) < s.len() ==> s[first_occ(s, t, i)] == t,
        forall|k: int| i <= k < first_occ(s, t, i) ==> s[k] != t,
    decreases s.len() - i,
{
    if i < s.len() && s[i] != t {
        lemma_first_occ(s, t, i + 1);
    }
}

/// The full loading pipeline on a file's text: split into lines, normalize,
/// drop blanks, reverse to most-recent-first order, deduplicate.
pub open spec fn history_spec(content: Seq<char>) -> Seq<Seq<char>> {
    dedup_texts(kept_lines(split_lines(content)).reverse())
}

proof fn lemma_dedup_upto(s: Seq<Seq<char>>, n: int)
    requires
        0 <= n <= s.len(),
    ensures
        forall|i: int, j: int|
            0 <= i < j < dedup_upto(s, n).len() ==> dedup_upto(s, n)[i] != dedup_upto(s, n)[j],
        forall|t: Seq<char>|
            dedup_upto(s, n).contains(t) <==> exists|k: int| 0 <= k < n && s[k] == t,
        forall|i: int|
            0 <= i < dedup_upto(s, n).len() ==> 0 <= #[trigger] first_occ(
                s,
                dedup_upto(s, n)[i],
                0,
            ) < n,
        forall|i: int, j: int|
            0 <= i < j < dedup_upto(s, n).len() ==> #[trigger] first_occ(s, dedup_upto(s, n)[i], 0)
                < #[trigger] first_occ(s, dedup_upto(s, n)[j], 0),
        forall|i: int|
            0 <= i < dedup_upto(s, n).len() ==> s[#[trigger] first_occ(s, dedup_upto(s, n)[i], 0)]
                == dedup_upto(s, n)[i],
    decreases n,
{
    if n > 0 {
        lemma_dedup_upto(s, n - 1);
        let p = dedup_upto(s, n - 1);
        let d = dedup_upto(s, n);
        let e = s[n - 1];
        if p.contains(e) {
            assert(d == p);
            assert forall|t: Seq<char>|
                d.contains(t) <==> exists|k: int| 0 <= k < n && s[k] == t by {
                if exists|k: int| 0 <= k < n && s[k] == t {
                    let k = choose|k: int| 0 <= k < n && s[k] == t;
                    if k == n - 1 {
                        assert(p.contains(e));
                    }
                }
            }
        } else {
            assert(d == p.push(e));
            assert(d[n as int - n] == d[0]);
            assert forall|t: Seq<char>| d.contains(t) implies (exists|k: int|
                0 <= k < n && s[k] == t) by {
                let idx = choose|idx: int| 0 <= idx < d.len() && d[idx] == t;
                if idx < p.len() {
                    assert(p[idx] == t);
                    assert(p.contains(t));
                } else {
                    assert(t == e);
                    assert(s[n - 1] == t);
                }
            }
            assert forall|t: Seq<char>| (exists|k: int| 0 <= k < n && s[k] == t) implies d.contains(
                t,
            ) by {
                let k = choose|k: int| 0 <= k < n && s[k] == t;
                if k < n - 1 {
                    assert(exists|k2: int| 0 <= k2 < n - 1 && s[k2] == t);
                    assert(p.contains(t));
                    let idx = choose|idx: int| 0 <= idx < p.len() && p[idx] == t;
                    assert(d[idx] == t);
                } else {
                    assert(d[p.len() as int] == e);
                }
            }
            lemma_first_occ(s, e, 0);
            assert(!(exists|k: int| 0 <= k < n - 1 && s[k] == e));
            assert(first_occ(s, e, 0) == n - 1) by {
                if first_occ(s, e, 0) < n - 1 {
                    assert(s[first_occ(s, e, 0)] == e);
                }
            }
            assert forall|i: int| 0 <= i < d.len() implies 0 <= #[trigger] first_occ(s, d[i], 0)
                < n by {
                if i < p.len() {
                    assert(d[i] == p[i]);
                } else {
                    assert(d[i] == e);
                }
            }
            assert forall|i: int, j: int| 0 <= i < j < d.len() implies first_occ(s, d[i], 0)
                < first_occ(s, d[j], 0) by {
                if j < p.len() {
                    assert(d[i] == p[i] && d[j] == p[j]);
                } else {
                    assert(d[j] == e);
                    assert(d[i] == p[i]);
                    assert(0 <= first_occ(s, p[i], 0) < n - 1);
                }
            }
            assert forall|i: int, j: int| 0 <= i < j < d.len() implies d[i] != d[j] by {
                if j < p.len() {
                    assert(d[i] == p[i] && d[j] == p[j]);
                } else {
                    assert(d[j] == e && d[i] == p[i]);
                    assert(p.contains(p[i]));
                }
            }
        }
    }
}

/// Deduplication law: in `dedup_texts(s)` every entry is unique; a text
/// survives exactly when it occurs in `s`; surviving entries appear in the
/// order of their first occurrences in `s`, and each equals the entry at its
/// first occurrence. With `s` in most-recent-first order this keeps, for
/// every repeated text, its most recent occurrence.
pub proof fn lemma_dedup_texts(s: Seq<Seq<char>>)
    ensures
        forall|i: int, j: int|
            0 <= i < j < dedup_texts(s).len() ==> dedup_texts(s)[i] != dedup_texts(s)[j],
        forall|t: Seq<char>| dedup_texts(s).contains(t) <==> s.contains(t),
        forall|i: int, j: int|
            0 <= i < j < dedup_texts(s).len() ==> #[trigger] first_occ(s, dedup_texts(s)[i], 0)
                < #[trigger] first_occ(s, dedup_texts(s)[j], 0),
        forall|i: int|
            0 <= i < dedup_texts(s).len() ==> 0 <= #[trigger] first_occ(s, dedup_texts(s)[i], 0)
                < s.len() && s[first_occ(s, dedup_texts(s)[i], 0)] == dedup_texts(s)[i],
{
    lemma_dedup_upto(s, s.len() as int);
}

proof fn lemma_dedup_upto_distinct(s: Seq<Seq<char>>, n: int)
    requires
        0 <= n <= s.len(),
        forall|i: int, j: int| 0 <= i < j < s.len() ==> s[i] != s[j],
    ensures
        dedup_upto(s, n) == s.subrange(0, n),
    decreases n,
{
    if n <= 0 {
        assert(dedup_upto(s, n) =~= s.subrange(0, n));
    } else {
        lemma_dedup_upto_distinct(s, n - 1);
        let p = dedup_upto(s, n - 1);
        assert(!p.contains(s[n - 1])) by {
            if p.contains(s[n - 1]) {
                let idx = choose|idx: int| 0 <= idx < p.len() && p[idx] == s[n - 1];
                assert(s.subrange(0, n - 1)[idx] == s[idx]);
            }
        }
        assert(dedup_upto(s, n) =~= s.subrange(0, n));
    }
}

/// Deduplication law at the pipeline level: a loaded history has pairwise
/// distinct entries, and holds a text exactly when some kept line of the
/// file has it.
pub proof fn lemma_history_unique(content: Seq<char>)
    ensures
        forall|i: int, j: int|
            0 <= i < j < history_spec(content).len() ==> history_spec(content)[i] != history_spec(
                content,
            )[j],
        forall|t: Seq<char>|
            history_spec(content).contains(t) <==> kept_lines(split_lines(content)).contains(t),
{
    let k = kept_lines(split_lines(content));
    let r = k.reverse();
    lemma_dedup_texts(r);
    assert forall|t: Seq<char>| r.contains(t) implies k.contains(t) by {
        let idx = choose|idx: int| 0 <= idx < r.len() && r[idx] == t;
        assert(k[k.len() - 1 - idx] == t);
    }
    assert forall|t: Seq<char>| k.contains(t) implies r.contains(t) by {
        let idx = choose|idx: int| 0 <= idx < k.len() && k[idx] == t;
        assert(r[k.len() - 1 - idx] == t);
    }
}

/// Reversal law: when the kept lines of a raw history are pairwise distinct,
/// loading returns exactly the kept lines in reverse chronological order.
pub proof fn lemma_reversal(lines: Seq<Seq<char>>)
    requires
        forall|i: int, j: int|
            0 <= i < j < kept_lines(lines).len() ==> kept_lines(lines)[i] != kept_lines(lines)[j],
    ensures
        dedup_texts(kept_lines(lines).reverse()) == kept_lines(lines).reverse(),
{
    let k = kept_lines(lines);
    let r = k.reverse();
    assert forall|i: int, j: int| 0 <= i < j < r.len() implies r[i] != r[j] by {
        assert(r[i] == k[k.len() - 1 - i]);
        assert(r[j] == k[k.len() - 1 - j]);
    }
    lemma_dedup_upto_distinct(r, r.len() as int);
    assert(r.subrange(0, r.len() as int) =~= r);
}

/// Finds the first occurrence of `c` in `v` at or after `from`, returning
/// `v.len()` when there is none.
fn find_char(v: &Vec<char>, c: char, from: usize) -> (r: usize)
    requires
        from <= v@.len(),
    ensures
        r == find_from(v@, c, from as int),
        from <= r <= v@.len(),
        r < v@.len() ==> v@[r as int] == c,
{
    let n = v.len();
    let mut i = from;
    while i < n
        invariant
            from <= i <= n,
            n == v@.len(),
            find_from(v@, c, from as int) == find_from(v@, c, i as int),
        decreases n - i,
    {
        if v[i] == c {
            return i;
        }
        i = i + 1;
        proof {
            assert(find_from(v@, c, i - 1) == find_from(v@, c, i as int));
        }
    }
    i
}

/// Copies the characters of `v` between positions `a` and `b` into a new
/// vector.
fn copy_range(v: &Vec<char>, a: usize, b: usize) -> (r: Vec<char>)
    requires
        a <= b,
        b <= v@.len(),
    ensures
        r@ == v@.subrange(a as int, b as int),
{
    let mut r: Vec<char> = Vec::new();
    let mut i = a;
    while i < b
        invariant
            a <= i <= b,
            b <= v@.len(),
            r@ == v@.subrange(a as int, i as int),
        decreases b - i,
    {
        r.push(v[i]);
        proof {
            assert(v@.subrange(a as int, i as int).push(v@[i as int]) =~= v@.subrange(
                a as int,
                i + 1,
            ));
        }
        i = i + 1;
    }
    r
}

/// Splits the characters of a file into its lines.
fn split_into_lines(cs: &Vec<char>) -> (lines: Vec<Vec<char>>)
    ensures
        lines.deep_view() == split_lines(cs@),
{
    let mut lines: Vec<Vec<char>> = Vec::new();
    let n = cs.len();
    if n == 0 {
        proof {
            assert(lines.deep_view() =~~= split_lines(cs@));
        }
        return lines;
    }
    let mut pos: usize = 0;
    loop
        invariant
            n == cs@.len(),
            0 <= pos < n,
            split_lines(cs@) == lines.deep_view() + split_from(cs@, pos as int),
        decreases n - pos,
    {
        let ghost pre = lines.deep_view();
        let p = find_char(cs, '\n', pos);
        if p == n {
            let line = copy_range(cs, pos, n);
            lines.push(line);
            proof {
                assert(lines.deep_view() =~~= pre.push(cs@.subrange(pos as int, n as int)));
                assert(split_from(cs@, pos as int) =~~= seq![cs@.subrange(pos as int, n as int)]);
                assert(lines.deep_view() =~~= split_lines(cs@));
            }
            return lines;
        } else {
            let mut line = copy_range(cs, pos, p);
            if line.len() > 0 && line[line.len() - 1] == '\r' {
                line.pop();
                proof {
                    assert(line@ =~= strip_cr(cs@.subrange(pos as int, p as int)));
                }
            }
            proof {
                assert(line@ == strip_cr(cs@.subrange(pos as int, p as int)));
            }
            lines.push(line);
            proof {
                assert(lines.deep_view() =~~= pre.push(
                    strip_cr(cs@.subrange(pos as int, p as int)),
                ));
                assert(split_from(cs@, pos as int) == seq![
                    strip_cr(cs@.subrange(pos as int, p as int)),
                ] + split_from(cs@, p + 1));
                assert(split_lines(cs@) =~~= lines.deep_view() + split_from(cs@, p + 1));
            }
            if p + 1 == n {
                proof {
                    assert(split_from(cs@, n as int) =~~= Seq::<Seq<char>>::empty());
                    assert(split_lines(cs@) =~~= lines.deep_view());
                }
                return lines;
            }
            pos = p + 1;
        }
    }
}

/// Normalizes one raw line: strips the metadata prefix of a timestamped
/// history line, and keeps any other line verbatim.
fn normalize_line_exec(l: &Vec<char>) -> (r: Vec<char>)
    ensures
        r@ == normalize_line(l@),
{
    if l.len() > 0 && l[0] == ':' {
        let p = find_char(l, ';', 0);
        if p < l.len() {
            return copy_range(l, p + 1, l.len());
        }
    }
    let r = copy_range(l, 0, l.len());
    proof {
        assert(l@.subrange(0, l@.len() as int) =~= l@);
    }
    r
}

/// Whether every character of `v` is white space.
fn is_blank(v: &Vec<char>) -> (r: bool)
    ensures
        r == all_whitespace(v@),
{
    let mut i: usize = 0;
    while i < v.len()
        invariant
            i <= v@.len(),
            forall|k: int| 0 <= k < i ==> crate::text::is_wspace(v@[k]),
        decreases v@.len() - i,
    {
        if !char_is_whitespace(v[i]) {
            return false;
        }
        i = i + 1;
    }
    true
}

/// Whether some entry of `v` has exactly the text `s`.
fn contains_text(v: &Vec<String>, s: &String) -> (r: bool)
    ensures
        r == v.deep_view().contains(s@),
{
    let mut j: usize = 0;
    while j < v.len()
        invariant
            j <= v@.len(),
            forall|k: int| 0 <= k < j ==> v.deep_view()[k] != s@,
        decreases v@.len() - j,
    {
        let entry = &v[j];
        if entry.eq(s) {
            proof {
                assert(v.deep_view()[j as int] == s@);
            }
            return true;
        }
        j = j + 1;
    }
    false
}

/// Loads a command history from the text of a history file: one command per
/// line, timestamp prefixes stripped, blank lines dropped, most recent
/// command first, duplicates dropped keeping the most recent occurrence.
pub fn load_history(content: &str) -> (h: Vec<String>)
    ensures
        h.deep_view() == history_spec(content@),
{
    let cs = str_to_chars(content);
    let lines = split_into_lines(&cs);

    let mut kept: Vec<String> = Vec::new();
    let mut i: usize = 0;
    while i < lines.len()
        invariant
            i <= lines@.len(),
            lines.deep_view() == split_lines(content@),
            kept.deep_view() == kept_upto(lines.deep_view(), i as int),
        decreases lines@.len() - i,
    {
        let ghost pre = kept.deep_view();
        let nl = normalize_line_exec(&lines[i]);
        proof {
            assert(lines.deep_view()[i as int] =~~= lines@[i as int]@);
        }
        if !is_blank(&nl) {
            let s = chars_to_string(&nl);
            kept.push(s);
            proof {
                assert(kept.deep_view() =~= pre.push(nl@));
            }
        }
        i = i + 1;
    }
    proof {
        assert(kept.deep_view() == kept_lines(split_lines(content@)));
    }

    let n = kept.len();
    let mut rev: Vec<String> = Vec::new();
    let mut i: usize = 0;
    while i < n
        invariant
            i <= n,
            n == kept@.len(),
            rev.deep_view() == kept.deep_view().reverse().subrange(0, i as int),
        decreases n - i,
    {
        let ghost pre = rev.deep_view();
        let entry = kept[n - 1 - i].clone();
        rev.push(entry);
        proof {
            assert(kept.deep_view().reverse()[i as int] == kept.deep_view()[n - 1 - i]);
            assert(rev.deep_view() =~= pre.push(kept.deep_view()[n - 1 - i]));
            assert(kept.deep_view().reverse().subrange(0, i as int).push(
                kept.deep_view().reverse()[i as int],
            ) =~= kept.deep_view().reverse().subrange(0, i + 1));
        }
        i = i + 1;
    }
    proof {
        assert(kept.deep_view().reverse().subrange(0, n as int) =~= kept.deep_view().reverse());
    }

    let mut out: Vec<String> = Vec::new();
    let mut i: usize = 0;
    while i < rev.len()
        invariant
            i <= rev@.len(),
            rev.deep_view() == kept_lines(split_lines(content@)).reverse(),
            out.deep_view() == dedup_upto(rev.deep_view(), i as int),
        decreases rev@.len() - i,
    {
        let ghost pre = out.deep_view();
        let entry = &rev[i];
        proof {
            assert(rev.deep_view()[i as int] == rev@[i as int]@);
        }
        if !contains_text(&out, entry) {
            let fresh = entry.clone();
            out.push(fresh);
            proof {
                assert(out.deep_view() =~= pre.push(rev.deep_view()[i as int]));
            }
        }
        i = i + 1;
    }
    proof {
        assert(out.deep_view() == history_spec(content@));
    }
    out
}

} // verus!
