//! What holds of reading and normalising feature lists, whatever the input.

use crate::semantic_lifting::{close_tag, folded_nonempty, line_record, normal_features, normalized_map, open_tag, parsed_lines, place, sorted_set, strip_think, with_text};
use crate::strmap::{as_map, lemma_put, put};
use crate::text::{first_from, first_occurrence, folded, lemma_first_occurrence, lemma_lex_total, lemma_lex_transitive, lex_lt, occurs_at, starts_with, trimmed};
use vstd::prelude::*;

verus! {

// ---------------------------------------------------------------------------
// Normalisation
// ---------------------------------------------------------------------------

/// Every text comes strictly before the ones after it.
pub open spec fn increasing(s: Seq<Seq<char>>) -> bool {
    forall|i: int, j: int| 0 <= i < j < s.len() ==> lex_lt(s[i], s[j])
}

proof fn lemma_place(s: Seq<Seq<char>>, x: Seq<char>, hi: int)
    requires
        0 <= hi <= s.len(),
    ensures
        0 <= place(s, x, hi) <= hi,
        forall|k: int| place(s, x, hi) <= k < hi ==> lex_lt(x, s[k]),
        place(s, x, hi) > 0 ==> !lex_lt(x, s[place(s, x, hi) - 1]),
    decreases hi,
{
    if 0 < hi && lex_lt(x, s[hi - 1]) {
        lemma_place(s, x, hi - 1);
    }
}

/// Putting a text into an increasing list keeps the list increasing and adds
/// exactly that text.
pub proof fn lemma_with_text(s: Seq<Seq<char>>, x: Seq<char>)
    requires
        increasing(s),
    ensures
        increasing(with_text(s, x)),
        forall|y: Seq<char>| with_text(s, x).contains(y) <==> (s.contains(y) || y == x),
{
    let p = place(s, x, s.len() as int);
    lemma_place(s, x, s.len() as int);
    let r = with_text(s, x);
    if p > 0 && s[p - 1] == x {
        assert(s.contains(x));
    } else {
        assert(r == s.insert(p, x));
        assert forall|i: int, j: int| 0 <= i < j < r.len() implies lex_lt(r[i], r[j]) by {
            if j < p {
                assert(r[i] == s[i] && r[j] == s[j]);
            } else if j == p {
                assert(r[i] == s[i]);
                lemma_lex_total(s[p - 1], x);
                if i < p - 1 {
                    lemma_lex_transitive(s[i], s[p - 1], x);
                }
            } else if i == p {
                assert(r[j] == s[j - 1]);
            } else if i > p {
                assert(r[i] == s[i - 1] && r[j] == s[j - 1]);
            } else {
                assert(r[i] == s[i] && r[j] == s[j - 1]);
            }
        }
        assert forall|y: Seq<char>| r.contains(y) <==> (s.contains(y) || y == x) by {
            if r.contains(y) {
                let i = choose|i: int| 0 <= i < r.len() && r[i] == y;
                if i < p {
                    assert(s[i] == y);
                } else if i > p {
                    assert(s[i - 1] == y);
                }
            }
            if s.contains(y) {
                let i = choose|i: int| 0 <= i < s.len() && s[i] == y;
                if i < p {
                    assert(r[i] == y);
                } else {
                    assert(r[i + 1] == y);
                }
            }
            if y == x {
                assert(r[p] == y);
            }
        }
    }
}

/// `sorted_set` gives the increasing list of the texts of `raw`: it is
/// increasing, and it holds a text exactly when `raw` does.
pub proof fn lemma_sorted_set(raw: Seq<Seq<char>>)
    ensures
        increasing(sorted_set(raw)),
        forall|y: Seq<char>| sorted_set(raw).contains(y) <==> raw.contains(y),
    decreases raw.len(),
{
    if raw.len() > 0 {
        let rest = raw.drop_last();
        lemma_sorted_set(rest);
        lemma_with_text(sorted_set(rest), raw.last());
        assert forall|y: Seq<char>| sorted_set(raw).contains(y) <==> raw.contains(y) by {
            if raw.contains(y) {
                let i = choose|i: int| 0 <= i < raw.len() && raw[i] == y;
                if i < raw.len() - 1 {
                    assert(rest[i] == y);
                }
            }
            if rest.contains(y) {
                let i = choose|i: int| 0 <= i < rest.len() && rest[i] == y;
                assert(raw[i] == y);
            }
            if y == raw.last() {
                assert(raw[raw.len() - 1] == y);
            }
        }
    } else {
        assert(sorted_set(raw) =~= Seq::<Seq<char>>::empty());
    }
}

/// An increasing list is its own sorted set.
pub proof fn lemma_sorted_set_fixed(s: Seq<Seq<char>>)
    requires
        increasing(s),
    ensures
        sorted_set(s) == s,
    decreases s.len(),
{
    if s.len() > 0 {
        let s0 = s.drop_last();
        assert(increasing(s0)) by {
            assert forall|i: int, j: int| 0 <= i < j < s0.len() implies lex_lt(s0[i], s0[j]) by {
                assert(s0[i] == s[i] && s0[j] == s[j]);
            }
        }
        lemma_sorted_set_fixed(s0);
        let x = s.last();
        if s0.len() > 0 {
            assert(s0[s0.len() - 1] == s[s.len() - 2]);
            assert(lex_lt(s[s.len() - 2], s[s.len() - 1]));
            lemma_lex_total(s[s.len() - 2], x);
        }
        assert(place(s0, x, s0.len() as int) == s0.len());
        assert(s0.insert(s0.len() as int, x) =~= s);
    } else {
        assert(sorted_set(s) =~= s);
    }
}

/// Two increasing lists that hold the same texts are the same list.
pub proof fn lemma_increasing_unique(a: Seq<Seq<char>>, b: Seq<Seq<char>>)
    requires
        increasing(a),
        increasing(b),
        forall|y: Seq<char>| a.contains(y) <==> b.contains(y),
    ensures
        a == b,
    decreases a.len(),
{
    if a.len() == 0 {
        if b.len() > 0 {
            assert(b.contains(b[0]));
        }
        assert(a =~= b);
    } else {
        let x = a.last();
        assert(a.contains(x)) by {
            assert(a[a.len() - 1] == x);
        }
        let k = choose|k: int| 0 <= k < b.len() && b[k] == x;
        // x is the greatest text of b as well
        if k < b.len() - 1 {
            let y = b[b.len() - 1];
            assert(b.contains(y));
            let i = choose|i: int| 0 <= i < a.len() && a[i] == y;
            assert(lex_lt(b[k], b[b.len() - 1]));
            lemma_lex_total(x, y);
            if i < a.len() - 1 {
                assert(lex_lt(a[i], a[a.len() - 1]));
            }
        }
        let a0 = a.drop_last();
        let b0 = b.drop_last();
        assert(increasing(a0)) by {
            assert forall|i: int, j: int| 0 <= i < j < a0.len() implies lex_lt(a0[i], a0[j]) by {
                assert(a0[i] == a[i] && a0[j] == a[j]);
            }
        }
        assert(increasing(b0)) by {
            assert forall|i: int, j: int| 0 <= i < j < b0.len() implies lex_lt(b0[i], b0[j]) by {
                assert(b0[i] == b[i] && b0[j] == b[j]);
            }
        }
        assert forall|y: Seq<char>| a0.contains(y) <==> b0.contains(y) by {
            if a0.contains(y) {
                let i = choose|i: int| 0 <= i < a0.len() && a0[i] == y;
                assert(a[i] == y);
                assert(a.contains(y));
                assert(lex_lt(a[i], a[a.len() - 1]));
                lemma_lex_total(y, x);
                let j = choose|j: int| 0 <= j < b.len() && b[j] == y;
                assert(j != b.len() - 1);
                assert(b0[j] == y);
            }
            if b0.contains(y) {
                let j = choose|j: int| 0 <= j < b0.len() && b0[j] == y;
                assert(b[j] == y);
                assert(b.contains(y));
                assert(lex_lt(b[j], b[b.len() - 1]));
                lemma_lex_total(y, x);
                let i = choose|i: int| 0 <= i < a.len() && a[i] == y;
                assert(i != a.len() - 1);
                assert(a0[i] == y);
            }
        }
        lemma_increasing_unique(a0, b0);
        assert(a =~= a0.push(x));
        assert(b =~= b0.push(x));
    }
}

/// What `folded_nonempty` holds: the non-empty trimmed, lowercased forms of
/// the pieces.
pub proof fn lemma_folded_nonempty(raw: Seq<Seq<char>>)
    ensures
        forall|y: Seq<char>|
            folded_nonempty(raw).contains(y) <==> (y.len() > 0 && exists|j: int|
                0 <= j < raw.len() && folded(#[trigger] raw[j]) == y),
    decreases raw.len(),
{
    if raw.len() > 0 {
        let rest = raw.drop_last();
        lemma_folded_nonempty(rest);
        let f = folded(raw.last());
        let r = folded_nonempty(raw);
        let r0 = folded_nonempty(rest);
        assert forall|y: Seq<char>|
            r.contains(y) <==> (y.len() > 0 && exists|j: int|
                0 <= j < raw.len() && folded(#[trigger] raw[j]) == y) by {
            if r.contains(y) {
                let i = choose|i: int| 0 <= i < r.len() && r[i] == y;
                if i < r0.len() {
                    assert(r0[i] == y);
                    assert(r0.contains(y));
                    let j = choose|j: int| 0 <= j < rest.len() && folded(#[trigger] rest[j]) == y;
                    assert(raw[j] == rest[j]);
                } else {
                    assert(y == f);
                    assert(folded(raw[raw.len() - 1]) == y);
                }
            }
            if y.len() > 0 && exists|j: int| 0 <= j < raw.len() && folded(#[trigger] raw[j]) == y {
                let j = choose|j: int| 0 <= j < raw.len() && folded(#[trigger] raw[j]) == y;
                if j < raw.len() - 1 {
                    assert(rest[j] == raw[j]);
                    assert(r0.contains(y));
                    let i = choose|i: int| 0 <= i < r0.len() && r0[i] == y;
                    assert(r[i] == y);
                } else {
                    assert(r[r.len() - 1] == y);
                }
            }
        }
    } else {
        assert(folded_nonempty(raw) =~= Seq::<Seq<char>>::empty());
    }
}

/// A list of non-empty texts that trimming and lowercasing leave alone is
/// left as it is.
pub proof fn lemma_folded_nonempty_fixed(s: Seq<Seq<char>>)
    requires
        forall|i: int| 0 <= i < s.len() ==> (#[trigger] s[i]).len() > 0 && folded(s[i]) == s[i],
    ensures
        folded_nonempty(s) == s,
    decreases s.len(),
{
    if s.len() > 0 {
        let s0 = s.drop_last();
        assert forall|i: int| 0 <= i < s0.len() implies (#[trigger] s0[i]).len() > 0 && folded(
            s0[i],
        ) == s0[i] by {
            assert(s0[i] == s[i]);
        }
        lemma_folded_nonempty_fixed(s0);
        assert(s.last() == s[s.len() - 1]);
        assert(s0.push(s.last()) =~= s);
    } else {
        assert(folded_nonempty(s) =~= s);
    }
}

/// What a normal form is: the increasing list of the non-empty trimmed,
/// lowercased forms of the features.
pub proof fn lemma_normal_features(raw: Seq<Seq<char>>)
    ensures
        increasing(normal_features(raw)),
        forall|y: Seq<char>|
            normal_features(raw).contains(y) <==> (y.len() > 0 && exists|j: int|
                0 <= j < raw.len() && folded(#[trigger] raw[j]) == y),
{
    lemma_sorted_set(folded_nonempty(raw));
    lemma_folded_nonempty(raw);
    assert forall|y: Seq<char>|
        normal_features(raw).contains(y) <==> (y.len() > 0 && exists|j: int|
            0 <= j < raw.len() && folded(#[trigger] raw[j]) == y) by {
        assert(sorted_set(folded_nonempty(raw)).contains(y) <==> folded_nonempty(raw).contains(y));
    }
}

/// Trimming and lowercasing a second time changes none of the features.
pub open spec fn fold_stable(raw: Seq<Seq<char>>) -> bool {
    forall|i: int| 0 <= i < raw.len() ==> folded(folded(#[trigger] raw[i])) == folded(raw[i])
}

/// Normalising a feature list twice gives what normalising it once gives,
/// for every list on whose features trimming and lowercasing are stable.
pub proof fn lemma_normalize_idempotent(raw: Seq<Seq<char>>)
    requires
        fold_stable(raw),
    ensures
        normal_features(normal_features(raw)) == normal_features(raw),
{
    let r = normal_features(raw);
    lemma_normal_features(raw);
    assert forall|i: int| 0 <= i < r.len() implies (#[trigger] r[i]).len() > 0 && folded(r[i])
        == r[i] by {
        assert(r.contains(r[i]));
        let j = choose|j: int| 0 <= j < raw.len() && folded(#[trigger] raw[j]) == r[i];
        assert(folded(folded(raw[j])) == folded(raw[j]));
    }
    lemma_folded_nonempty_fixed(r);
    lemma_sorted_set_fixed(r);
}

/// Normalising a feature map twice gives what normalising it once gives,
/// for every map on whose features trimming and lowercasing are stable.
pub proof fn lemma_normalize_map_idempotent(m: Seq<(Seq<char>, Seq<Seq<char>>)>)
    requires
        forall|i: int| 0 <= i < m.len() ==> fold_stable((#[trigger] m[i]).1),
    ensures
        normalized_map(normalized_map(m)) == normalized_map(m),
{
    let n = normalized_map(m);
    assert forall|i: int| 0 <= i < n.len() implies normalized_map(n)[i] == n[i] by {
        assert(fold_stable(m[i].1));
        lemma_normalize_idempotent(m[i].1);
    }
    assert(normalized_map(n) =~= n);
}

// ---------------------------------------------------------------------------
// Reading records
// ---------------------------------------------------------------------------

/// The lines that hold no record: blank lines, comments, code fences, lines
/// without a `|`, and lines with nothing before the `|`.
pub proof fn lemma_skipped_kinds(line: Seq<char>)
    ensures
        trimmed(line).len() == 0 ==> line_record(line) is None,
        trimmed(line).len() > 0 && trimmed(line)[0] == '#' ==> line_record(line) is None,
        starts_with(trimmed(line), crate::semantic_lifting::fence()) ==> line_record(line) is None,
        first_from(trimmed(line), '|', 0) >= trimmed(line).len() ==> line_record(line) is None,
{
}

/// A line that holds no record can be put in anywhere without changing what
/// is read.
pub proof fn lemma_skipped_line(lines: Seq<Seq<char>>, at: int, extra: Seq<char>)
    requires
        0 <= at <= lines.len(),
        line_record(extra) is None,
    ensures
        parsed_lines(lines.insert(at, extra)) == parsed_lines(lines),
    decreases lines.len(),
{
    let with = lines.insert(at, extra);
    if at == lines.len() {
        assert(with.drop_last() =~= lines);
        assert(with.last() == extra);
    } else {
        assert(with.drop_last() =~= lines.drop_last().insert(at, extra));
        assert(with.last() == lines.last());
        lemma_skipped_line(lines.drop_last(), at, extra);
    }
}

/// The finite map that a sequence of lines reads as.
pub open spec fn parsed_map(lines: Seq<Seq<char>>) -> Map<Seq<char>, Seq<Seq<char>>> {
    as_map(parsed_lines(lines))
}

/// Binding a key in the list binds it in the map.
pub proof fn lemma_put_map<V>(m: Seq<(Seq<char>, V)>, k: Seq<char>, v: V)
    ensures
        as_map(put(m, k, v)) == as_map(m).insert(k, v),
{
    assert forall|other: Seq<char>|
        as_map(put(m, k, v)).dom().contains(other) <==> as_map(m).insert(k, v).dom().contains(
            other,
        ) by {
        lemma_put(m, k, v, other);
    }
    assert forall|other: Seq<char>| as_map(put(m, k, v)).dom().contains(other) implies as_map(
        put(m, k, v),
    )[other] == as_map(m).insert(k, v)[other] by {
        lemma_put(m, k, v, other);
    }
    assert(as_map(put(m, k, v)) =~= as_map(m).insert(k, v));
}

/// What one more line adds to the map.
pub open spec fn map_with_line(
    m: Map<Seq<char>, Seq<Seq<char>>>,
    line: Seq<char>,
) -> Map<Seq<char>, Seq<Seq<char>>> {
    match line_record(line) {
        Some((name, feats)) => m.insert(name, feats),
        None => m,
    }
}

proof fn lemma_parsed_map_push(lines: Seq<Seq<char>>, line: Seq<char>)
    ensures
        parsed_map(lines.push(line)) == map_with_line(parsed_map(lines), line),
{
    assert(lines.push(line).drop_last() =~= lines);
    assert(lines.push(line).last() == line);
    match line_record(line) {
        Some((name, feats)) => {
            lemma_put_map(parsed_lines(lines), name, feats);
        },
        None => {},
    }
}

proof fn lemma_same_map_after(a: Seq<Seq<char>>, b: Seq<Seq<char>>, tail: Seq<Seq<char>>)
    requires
        parsed_map(a) == parsed_map(b),
    ensures
        parsed_map(a + tail) == parsed_map(b + tail),
    decreases tail.len(),
{
    if tail.len() == 0 {
        assert(a + tail =~= a);
        assert(b + tail =~= b);
    } else {
        let t0 = tail.drop_last();
        lemma_same_map_after(a, b, t0);
        assert(a + tail =~= (a + t0).push(tail.last()));
        assert(b + tail =~= (b + t0).push(tail.last()));
        lemma_parsed_map_push(a + t0, tail.last());
        lemma_parsed_map_push(b + t0, tail.last());
    }
}

/// Whether two lines carry records for different names, or one of them
/// carries none.
pub open spec fn independent(x: Seq<char>, y: Seq<char>) -> bool {
    match (line_record(x), line_record(y)) {
        (Some((n1, _)), Some((n2, _))) => n1 != n2,
        _ => true,
    }
}

/// Swapping two neighbouring lines that carry records for different names
/// changes nothing in the map that is read; only the order of insertion
/// differs.
pub proof fn lemma_swap_lines(
    head: Seq<Seq<char>>,
    x: Seq<char>,
    y: Seq<char>,
    tail: Seq<Seq<char>>,
)
    requires
        independent(x, y),
    ensures
        parsed_map(head.push(x).push(y) + tail) == parsed_map(head.push(y).push(x) + tail),
{
    lemma_parsed_map_push(head, x);
    lemma_parsed_map_push(head.push(x), y);
    lemma_parsed_map_push(head, y);
    lemma_parsed_map_push(head.push(y), x);
    assert(parsed_map(head.push(x).push(y)) =~= parsed_map(head.push(y).push(x)));
    lemma_same_map_after(head.push(x).push(y), head.push(y).push(x), tail);
}

// ---------------------------------------------------------------------------
// Think blocks
// ---------------------------------------------------------------------------

/// Whether `needle` occurs nowhere in `hay`.
pub open spec fn free_of(hay: Seq<char>, needle: Seq<char>) -> bool {
    forall|j: int| !occurs_at(hay, needle, j)
}

proof fn lemma_first_occurrence_is(hay: Seq<char>, needle: Seq<char>, p: int)
    requires
        occurs_at(hay, needle, p),
        forall|j: int| 0 <= j < p ==> !occurs_at(hay, needle, j),
    ensures
        first_occurrence(hay, needle, 0) == p,
{
    lemma_first_occurrence(hay, needle, 0);
}

/// Whether every think block that opens in `a` also closes in `a`, so that
/// what follows `a` stands outside any block.
pub open spec fn blocks_closed(a: Seq<char>) -> bool
    decreases a.len(),
{
    let start = first_occurrence(a, open_tag(), 0);
    if start < 0 || start > a.len() {
        true
    } else {
        let off = first_occurrence(a.subrange(start, a.len() as int), close_tag(), 0);
        if off < 0 || start + off + 8 > a.len() {
            false
        } else {
            blocks_closed(a.subrange(0, start) + a.subrange(start + off + 8, a.len() as int))
        }
    }
}

proof fn lemma_occurrence_extends(a: Seq<char>, rest: Seq<char>, needle: Seq<char>)
    requires
        first_occurrence(a, needle, 0) >= 0,
    ensures
        first_occurrence(a + rest, needle, 0) == first_occurrence(a, needle, 0),
{
    lemma_first_occurrence(a, needle, 0);
    let p = first_occurrence(a, needle, 0);
    let s = a + rest;
    assert(s.subrange(p, p + needle.len()) =~= a.subrange(p, p + needle.len()));
    assert forall|j: int| 0 <= j < p implies !occurs_at(s, needle, j) by {
        if occurs_at(s, needle, j) {
            assert(s.subrange(j, j + needle.len()) =~= a.subrange(j, j + needle.len()));
            assert(occurs_at(a, needle, j));
        }
    }
    lemma_first_occurrence_is(s, needle, p);
}

proof fn lemma_open_at_boundary(a: Seq<char>, rest: Seq<char>)
    requires
        first_occurrence(a, open_tag(), 0) < 0,
        starts_with(rest, open_tag()),
    ensures
        first_occurrence(a + rest, open_tag(), 0) == a.len(),
{
    lemma_first_occurrence(a, open_tag(), 0);
    let s = a + rest;
    let o = open_tag();
    assert(rest.subrange(0, 7) == o);
    assert(s.subrange(a.len() as int, (a.len() + 7) as int) =~= rest.subrange(0, 7));
    assert forall|j: int| 0 <= j < a.len() implies !occurs_at(s, o, j) by {
        if occurs_at(s, o, j) {
            if j + 7 <= a.len() {
                assert(s.subrange(j, j + 7) =~= a.subrange(j, j + 7));
                assert(occurs_at(a, o, j));
            } else {
                let k = a.len() - j;
                assert(s.subrange(j, j + 7)[k] == o[k]);
                assert(s[a.len() as int] == rest[0]);
                assert(rest.subrange(0, 7)[0] == o[0]);
            }
        }
    }
    lemma_first_occurrence_is(s, o, a.len() as int);
}

proof fn lemma_tag_shapes()
    ensures
        open_tag().len() == 7,
        close_tag().len() == 8,
        open_tag()[0] == '<',
        open_tag()[1] == 't',
        close_tag()[0] == '<',
        close_tag()[1] == '/',
        forall|k: int| 1 <= k < 7 ==> open_tag()[k] != '<',
        forall|k: int| 1 <= k < 8 ==> close_tag()[k] != '<',
{
}

proof fn lemma_block_index(o: Seq<char>, inner: Seq<char>, c: Seq<char>, b: Seq<char>, i: int)
    requires
        0 <= i < o.len() + inner.len() + c.len(),
    ensures
        (o + inner + c + b)[i] == (if i < o.len() {
            o[i]
        } else if i < o.len() + inner.len() {
            inner[i - o.len()]
        } else {
            c[i - o.len() - inner.len()]
        }),
{
}

proof fn lemma_occurrence_chars(hay: Seq<char>, needle: Seq<char>, at: int, k: int)
    requires
        occurs_at(hay, needle, at),
        0 <= k < needle.len(),
    ensures
        hay[at + k] == needle[k],
{
    assert(hay.subrange(at, at + needle.len())[k] == hay[at + k]);
}

proof fn lemma_close_after_inner(inner: Seq<char>, b: Seq<char>)
    requires
        free_of(inner, close_tag()),
    ensures
        first_occurrence(open_tag() + inner + close_tag() + b, close_tag(), 0) == 7 + inner.len(),
{
    let o = open_tag();
    let c = close_tag();
    let t = o + inner + c + b;
    let p: int = (7 + inner.len()) as int;
    lemma_tag_shapes();
    assert(t.subrange(p, p + 8) =~= c) by {
        assert forall|k: int| 0 <= k < 8 implies t.subrange(p, p + 8)[k] == c[k] by {
            lemma_block_index(o, inner, c, b, p + k);
        }
    }
    assert forall|j: int| 0 <= j < p implies !occurs_at(t, c, j) by {
        if occurs_at(t, c, j) {
            if j < 7 {
                lemma_occurrence_chars(t, c, j, 0);
                lemma_block_index(o, inner, c, b, j);
                assert(j == 0);
                lemma_occurrence_chars(t, c, j, 1);
                lemma_block_index(o, inner, c, b, 1);
            } else {
                let q = j - 7;
                if q + 8 <= inner.len() {
                    assert forall|k: int| 0 <= k < 8 implies inner.subrange(q, q + 8)[k]
                        == c[k] by {
                        lemma_occurrence_chars(t, c, j, k);
                        lemma_block_index(o, inner, c, b, j + k);
                    }
                    assert(inner.subrange(q, q + 8) =~= c);
                    assert(occurs_at(inner, c, q));
                } else {
                    let k = inner.len() - q;
                    lemma_occurrence_chars(t, c, j, k);
                    lemma_block_index(o, inner, c, b, p);
                }
            }
        }
    }
    lemma_first_occurrence_is(t, c, p);
}

/// A think block put in where no block is open changes nothing: the text
/// without its think blocks is the same with the block and without it.
pub proof fn lemma_think_block_ignored(a: Seq<char>, inner: Seq<char>, b: Seq<char>)
    requires
        blocks_closed(a),
        free_of(inner, close_tag()),
    ensures
        strip_think(a + open_tag() + inner + close_tag() + b) == strip_think(a + b),
    decreases a.len(),
{
    let o = open_tag();
    let c = close_tag();
    let block = o + inner + c;
    let with = a + o + inner + c + b;
    let rest = o + inner + c + b;
    assert(with =~= a + rest);
    let start = first_occurrence(a, o, 0);
    lemma_first_occurrence(a, o, 0);
    if start < 0 {
        assert(rest.subrange(0, 7) =~= o);
        lemma_open_at_boundary(a, rest);
        assert(with.subrange(a.len() as int, with.len() as int) =~= rest);
        lemma_close_after_inner(inner, b);
        let p: int = (7 + inner.len()) as int;
        assert(with.subrange(0, a.len() as int) + with.subrange(
            a.len() + p + 8,
            with.len() as int,
        ) =~= a + b);
    } else {
        let suffix = a.subrange(start, a.len() as int);
        let off = first_occurrence(suffix, c, 0);
        lemma_first_occurrence(suffix, c, 0);
        let next = a.subrange(0, start) + a.subrange(start + off + 8, a.len() as int);
        // with the block
        lemma_occurrence_extends(a, rest, o);
        assert(with.subrange(start, with.len() as int) =~= suffix + rest);
        lemma_occurrence_extends(suffix, rest, c);
        assert(with.subrange(0, start) + with.subrange(start + off + 8, with.len() as int)
            =~= next + o + inner + c + b);
        // without the block
        let plain = a + b;
        lemma_occurrence_extends(a, b, o);
        assert(plain.subrange(start, plain.len() as int) =~= suffix + b);
        lemma_occurrence_extends(suffix, b, c);
        assert(plain.subrange(0, start) + plain.subrange(start + off + 8, plain.len() as int)
            =~= next + b);
        lemma_think_block_ignored(next, inner, b);
    }
}

} // verus!
