//! Character-level text utilities shared by the rest of the crate.
//!
//! Strings are modelled as sequences of characters (`Seq<char>`). The executable
//! functions work on `Vec<char>` buffers; `chars_of` and `string_from_chars`
//! convert at the boundary.

use vstd::prelude::*;

verus! {

// ---------------------------------------------------------------------------
// Conversions
// ---------------------------------------------------------------------------

/// The character sequences held by a list of buffers.
pub open spec fn rows(v: Seq<Vec<char>>) -> Seq<Seq<char>> {
    Seq::new(v.len(), |i: int| v[i]@)
}

/// The character sequences held by a list of strings.
pub open spec fn texts(v: Seq<String>) -> Seq<Seq<char>> {
    Seq::new(v.len(), |i: int| v[i]@)
}

/// Appends one character to a string.
///
/// Trusted: `String::push` appends the given `char` to the end of the string
/// and changes nothing else.
#[verifier::external_body]
fn push_char(s: &mut String, c: char)
    ensures
        final(s)@ == old(s)@.push(c),
{
    s.push(c);
}

/// The characters of `s`, in order.
pub fn chars_of(s: &str) -> (v: Vec<char>)
    ensures
        v@ == s@,
{
    let mut v: Vec<char> = Vec::new();
    for c in it: s.chars()
        invariant
            v@ == it.seq().take(it.index() as int),
            it.seq() == s@,
    {
        v.push(c);
    }
    v
}

/// Builds a string holding exactly the characters of `v`, in order.
pub fn string_from_chars(v: &Vec<char>) -> (s: String)
    ensures
        s@ == v@,
{
    let mut s = String::new();
    let mut i: usize = 0;
    while i < v.len()
        invariant
            i <= v.len(),
            s@ == v@.subrange(0, i as int),
        decreases v.len() - i,
    {
        push_char(&mut s, v[i]);
        assert(v@.subrange(0, i as int).push(v@[i as int]) =~= v@.subrange(0, i + 1));
        i += 1;
    }
    assert(v@.subrange(0, v.len() as int) =~= v@);
    s
}

/// The characters `v[from..to]` as a new buffer.
pub fn slice_chars(v: &Vec<char>, from: usize, to: usize) -> (r: Vec<char>)
    requires
        from <= to <= v.len(),
    ensures
        r@ == v@.subrange(from as int, to as int),
{
    let mut r: Vec<char> = Vec::new();
    let mut i: usize = from;
    while i < to
        invariant
            from <= i <= to <= v.len(),
            r@ == v@.subrange(from as int, i as int),
        decreases to - i,
    {
        r.push(v[i]);
        assert(v@.subrange(from as int, i as int).push(v@[i as int]) =~= v@.subrange(
            from as int,
            i + 1,
        ));
        i += 1;
    }
    r
}

/// Whether two strings hold the same characters.
pub fn str_eq(a: &str, b: &str) -> (r: bool)
    ensures
        r == (a@ == b@),
{
    let x = chars_of(a);
    let y = chars_of(b);
    chars_eq(&x, &y)
}

/// Whether two buffers hold the same characters.
pub fn chars_eq(a: &Vec<char>, b: &Vec<char>) -> (r: bool)
    ensures
        r == (a@ == b@),
{
    if a.len() != b.len() {
        return false;
    }
    let mut i: usize = 0;
    while i < a.len()
        invariant
            i <= a.len(),
            a.len() == b.len(),
            forall|j: int| 0 <= j < i ==> a@[j] == b@[j],
        decreases a.len() - i,
    {
        if a[i] != b[i] {
            assert(a@[i as int] != b@[i as int]);
            return false;
        }
        i += 1;
    }
    assert(a@ =~= b@);
    true
}

/// The characters of an optional string.
pub open spec fn opt_text(o: Option<String>) -> Option<Seq<char>> {
    match o {
        Some(s) => Some(s@),
        None => None,
    }
}

/// A copy of a list of strings.
pub fn clone_strings(v: &Vec<String>) -> (r: Vec<String>)
    ensures
        texts(r@) == texts(v@),
{
    let mut r: Vec<String> = Vec::new();
    let mut i: usize = 0;
    while i < v.len()
        invariant
            i <= v.len(),
            r@.len() == i,
            forall|j: int| 0 <= j < i ==> r@[j]@ == v@[j]@,
        decreases v.len() - i,
    {
        r.push(v[i].clone());
        i += 1;
    }
    assert(texts(r@) =~= texts(v@));
    r
}

/// Appends copies of the strings of `more` to `out`.
pub fn append_strings(out: &mut Vec<String>, more: &Vec<String>)
    ensures
        texts(final(out)@) == texts(old(out)@) + texts(more@),
{
    let mut i: usize = 0;
    assert(texts(out@) =~= texts(old(out)@) + texts(more@).take(0));
    while i < more.len()
        invariant
            i <= more.len(),
            texts(out@) == texts(old(out)@) + texts(more@).take(i as int),
        decreases more.len() - i,
    {
        let ghost before = texts(out@);
        out.push(more[i].clone());
        assert(texts(out@) =~= before.push(more@[i as int]@));
        assert(texts(more@).take(i + 1) =~= texts(more@).take(i as int).push(more@[i as int]@));
        assert(texts(out@) =~= texts(old(out)@) + texts(more@).take(i + 1));
        i += 1;
    }
    assert(texts(more@).take(i as int) =~= texts(more@));
}

/// A copy of an optional string.
pub fn clone_opt(o: &Option<String>) -> (r: Option<String>)
    ensures
        opt_text(r) == opt_text(*o),
{
    match o {
        Some(s) => Some(s.clone()),
        None => None,
    }
}

/// Whether `needle` is one of the strings in `v`.
pub fn contains_text(v: &Vec<String>, needle: &str) -> (b: bool)
    ensures
        b == texts(v@).contains(needle@),
{
    let mut i: usize = 0;
    while i < v.len()
        invariant
            i <= v.len(),
            forall|j: int| 0 <= j < i ==> v@[j]@ != needle@,
        decreases v.len() - i,
    {
        if str_eq(v[i].as_str(), needle) {
            assert(texts(v@)[i as int] == needle@);
            return true;
        }
        i += 1;
    }
    assert forall|j: int| 0 <= j < texts(v@).len() implies texts(v@)[j] != needle@ by {}
    false
}

/// The concatenation of two buffers.
pub fn concat_chars(a: &Vec<char>, b: &Vec<char>) -> (r: Vec<char>)
    ensures
        r@ == a@ + b@,
{
    let mut r: Vec<char> = Vec::new();
    let mut i: usize = 0;
    while i < a.len()
        invariant
            i <= a.len(),
            r@ == a@.subrange(0, i as int),
        decreases a.len() - i,
    {
        r.push(a[i]);
        assert(a@.subrange(0, i as int).push(a@[i as int]) =~= a@.subrange(0, i + 1));
        i += 1;
    }
    assert(a@.subrange(0, a.len() as int) =~= a@);
    let mut j: usize = 0;
    while j < b.len()
        invariant
            j <= b.len(),
            r@ == a@ + b@.subrange(0, j as int),
        decreases b.len() - j,
    {
        r.push(b[j]);
        assert((a@ + b@.subrange(0, j as int)).push(b@[j as int]) =~= a@ + b@.subrange(0, j + 1));
        j += 1;
    }
    assert(b@.subrange(0, b.len() as int) =~= b@);
    r
}

// ---------------------------------------------------------------------------
// Searching
// ---------------------------------------------------------------------------

/// The first index at or after `from` at which `c` stands in `s`; `s.len()` if
/// there is none.
pub open spec fn first_from(s: Seq<char>, c: char, from: int) -> int
    decreases s.len() - from,
{
    if from < 0 || from >= s.len() {
        s.len() as int
    } else if s[from] == c {
        from
    } else {
        first_from(s, c, from + 1)
    }
}

/// `first_from` finds the least matching index.
pub proof fn lemma_first_from(s: Seq<char>, c: char, from: int)
    requires
        0 <= from <= s.len(),
    ensures
        from <= first_from(s, c, from) <= s.len(),
        first_from(s, c, from) < s.len() ==> s[first_from(s, c, from)] == c,
        forall|j: int| from <= j < first_from(s, c, from) ==> s[j] != c,
    decreases s.len() - from,
{
    if from < s.len() && s[from] != c {
        lemma_first_from(s, c, from + 1);
    }
}

/// The first index at or after `from` at which `c` stands; `v.len()` if none.
pub fn find_char(v: &Vec<char>, c: char, from: usize) -> (r: usize)
    requires
        from <= v.len(),
    ensures
        r == first_from(v@, c, from as int),
{
    let mut i: usize = from;
    while i < v.len()
        invariant
            from <= i <= v.len(),
            first_from(v@, c, from as int) == first_from(v@, c, i as int),
        decreases v.len() - i,
    {
        if v[i] == c {
            return i;
        }
        i += 1;
    }
    i
}

/// Whether `needle` stands in `hay` at index `at`.
pub open spec fn occurs_at(hay: Seq<char>, needle: Seq<char>, at: int) -> bool {
    &&& 0 <= at
    &&& at + needle.len() <= hay.len()
    &&& hay.subrange(at, at + needle.len()) == needle
}

/// The first index at or after `from` at which `needle` stands in `hay`; `-1`
/// if there is none.
pub open spec fn first_occurrence(hay: Seq<char>, needle: Seq<char>, from: int) -> int
    decreases hay.len() + 1 - from,
{
    if from < 0 || from + needle.len() > hay.len() {
        -1
    } else if occurs_at(hay, needle, from) {
        from
    } else {
        first_occurrence(hay, needle, from + 1)
    }
}

/// `first_occurrence` finds the least index of an occurrence.
pub proof fn lemma_first_occurrence(hay: Seq<char>, needle: Seq<char>, from: int)
    requires
        0 <= from,
    ensures
        first_occurrence(hay, needle, from) == -1 || (from <= first_occurrence(hay, needle, from)
            && occurs_at(hay, needle, first_occurrence(hay, needle, from))),
        forall|j: int|
            from <= j && (j < first_occurrence(hay, needle, from) || first_occurrence(
                hay,
                needle,
                from,
            ) == -1) ==> !occurs_at(hay, needle, j),
    decreases hay.len() + 1 - from,
{
    if from + needle.len() <= hay.len() {
        if !occurs_at(hay, needle, from) {
            lemma_first_occurrence(hay, needle, from + 1);
        }
    }
}

/// Whether `needle` stands in `hay` at index `at`.
pub fn matches_at(hay: &Vec<char>, needle: &Vec<char>, at: usize) -> (r: bool)
    ensures
        r == occurs_at(hay@, needle@, at as int),
{
    if needle.len() > hay.len() || at > hay.len() - needle.len() {
        return false;
    }
    let mut k: usize = 0;
    while k < needle.len()
        invariant
            k <= needle.len(),
            at + needle.len() <= hay.len(),
            forall|j: int| 0 <= j < k ==> hay@[at + j] == needle@[j],
        decreases needle.len() - k,
    {
        if hay[at + k] != needle[k] {
            assert(hay@.subrange(at as int, at + needle.len())[k as int] != needle@[k as int]);
            return false;
        }
        k += 1;
    }
    assert(hay@.subrange(at as int, at + needle.len()) =~= needle@);
    true
}

/// The first index at or after `from` at which `needle` stands in `hay`.
pub fn find_sub(hay: &Vec<char>, needle: &Vec<char>, from: usize) -> (r: Option<usize>)
    ensures
        match r {
            Some(i) => i == first_occurrence(hay@, needle@, from as int),
            None => first_occurrence(hay@, needle@, from as int) == -1,
        },
{
    if needle.len() > hay.len() || from > hay.len() - needle.len() {
        return None;
    }
    let last: usize = hay.len() - needle.len();
    let mut i: usize = from;
    loop
        invariant
            from <= i <= last,
            last == hay.len() - needle.len(),
            first_occurrence(hay@, needle@, from as int) == first_occurrence(
                hay@,
                needle@,
                i as int,
            ),
        decreases last - i,
    {
        if matches_at(hay, needle, i) {
            return Some(i);
        }
        if i == last {
            assert(first_occurrence(hay@, needle@, i + 1) == -1);
            return None;
        }
        i += 1;
    }
}

/// Whether `s` begins with `prefix`.
pub open spec fn starts_with(s: Seq<char>, prefix: Seq<char>) -> bool {
    occurs_at(s, prefix, 0)
}

// ---------------------------------------------------------------------------
// Character replacement
// ---------------------------------------------------------------------------

/// `s` with every `from` replaced by `to`.
pub open spec fn replaced(s: Seq<char>, from: char, to: char) -> Seq<char> {
    Seq::new(
        s.len(),
        |i: int|
            if s[i] == from {
                to
            } else {
                s[i]
            },
    )
}

/// A copy of `s` with every `from` replaced by `to`.
pub fn replace_char(s: &str, from: char, to: char) -> (r: String)
    ensures
        r@ == replaced(s@, from, to),
{
    let v = chars_of(s);
    let mut out: Vec<char> = Vec::new();
    let mut i: usize = 0;
    while i < v.len()
        invariant
            i <= v.len(),
            v@ == s@,
            out@.len() == i,
            forall|j: int| 0 <= j < i ==> out@[j] == replaced(s@, from, to)[j],
        decreases v.len() - i,
    {
        let c = v[i];
        if c == from {
            out.push(to);
        } else {
            out.push(c);
        }
        i += 1;
    }
    assert(out@ =~= replaced(s@, from, to));
    string_from_chars(&out)
}

// ---------------------------------------------------------------------------
// Whitespace and case
// ---------------------------------------------------------------------------

/// Whether `c` has the Unicode `White_Space` property, as `char::is_whitespace`
/// reports it.
pub uninterp spec fn white_space(c: char) -> bool;

/// Trusted: `char::is_whitespace` is a function of the character alone; its
/// result is what `white_space` names.
#[verifier::external_body]
fn is_space(c: char) -> (b: bool)
    ensures
        b == white_space(c),
{
    c.is_whitespace()
}

/// The lowercase form of a string, as `str::to_lowercase` computes it.
pub uninterp spec fn lowercase_of(s: Seq<char>) -> Seq<char>;

/// Trusted: `str::to_lowercase` is a function of the characters alone; its
/// result is what `lowercase_of` names.
#[verifier::external_body]
fn to_lower(s: &str) -> (r: String)
    ensures
        r@ == lowercase_of(s@),
{
    s.to_lowercase()
}

/// The first index at or after `from` that holds no whitespace; `s.len()` if
/// there is none.
pub open spec fn skip_space(s: Seq<char>, from: int) -> int
    decreases s.len() - from,
{
    if 0 <= from < s.len() && white_space(s[from]) {
        skip_space(s, from + 1)
    } else {
        from
    }
}

/// The least end `e >= lo` such that `s[e..to]` is all whitespace.
pub open spec fn back_space(s: Seq<char>, lo: int, to: int) -> int
    decreases to - lo,
{
    if 0 <= lo < to <= s.len() && white_space(s[to - 1]) {
        back_space(s, lo, to - 1)
    } else {
        to
    }
}

/// `s` without its leading and trailing whitespace.
pub open spec fn trimmed(s: Seq<char>) -> Seq<char> {
    let a = skip_space(s, 0);
    let b = back_space(s, a, s.len() as int);
    s.subrange(a, b)
}

/// The bounds of `v` without its leading and trailing whitespace.
pub fn trim_bounds(v: &Vec<char>) -> (r: (usize, usize))
    ensures
        r.0 == skip_space(v@, 0),
        r.1 == back_space(v@, r.0 as int, v@.len() as int),
        r.0 <= r.1 <= v.len(),
{
    let mut a: usize = 0;
    while a < v.len() && is_space(v[a])
        invariant
            a <= v.len(),
            skip_space(v@, 0) == skip_space(v@, a as int),
        decreases v.len() - a,
    {
        a += 1;
    }
    let mut b: usize = v.len();
    while b > a && is_space(v[b - 1])
        invariant
            a <= b <= v.len(),
            back_space(v@, a as int, v@.len() as int) == back_space(v@, a as int, b as int),
        decreases b,
    {
        b -= 1;
    }
    (a, b)
}

/// A copy of `v` without its leading and trailing whitespace.
pub fn trim_chars(v: &Vec<char>) -> (r: Vec<char>)
    ensures
        r@ == trimmed(v@),
{
    let (a, b) = trim_bounds(v);
    slice_chars(v, a, b)
}

/// The trimmed, lowercased form of a piece of text.
pub open spec fn folded(s: Seq<char>) -> Seq<char> {
    lowercase_of(trimmed(s))
}

/// Trims `v`, then lowercases what is left.
pub fn fold_chars(v: &Vec<char>) -> (r: String)
    ensures
        r@ == folded(v@),
{
    let t = trim_chars(v);
    let s = string_from_chars(&t);
    to_lower(s.as_str())
}

// ---------------------------------------------------------------------------
// Splitting
// ---------------------------------------------------------------------------

/// The pieces of `s` between occurrences of `sep`. There is always at least
/// one piece; a separator at either end gives an empty piece there.
pub open spec fn split_on(s: Seq<char>, sep: char) -> Seq<Seq<char>>
    decreases s.len(),
{
    let i = first_from(s, sep, 0);
    if 0 <= i < s.len() {
        seq![s.subrange(0, i)] + split_on(s.subrange(i + 1, s.len() as int), sep)
    } else {
        seq![s]
    }
}

/// `first_from` on a suffix is `first_from` on the whole, shifted.
pub proof fn lemma_first_from_suffix(s: Seq<char>, c: char, start: int, from: int)
    requires
        0 <= start <= s.len(),
        0 <= from <= s.len() - start,
    ensures
        first_from(s.subrange(start, s.len() as int), c, from) + start == first_from(
            s,
            c,
            start + from,
        ),
    decreases s.len() - start - from,
{
    let t = s.subrange(start, s.len() as int);
    if from < t.len() {
        assert(t[from] == s[start + from]);
        if t[from] != c {
            lemma_first_from_suffix(s, c, start, from + 1);
        }
    }
}

/// Splits `v` at every `sep`.
pub fn split_chars(v: &Vec<char>, sep: char) -> (r: Vec<Vec<char>>)
    ensures
        rows(r@) == split_on(v@, sep),
{
    let mut out: Vec<Vec<char>> = Vec::new();
    let mut start: usize = 0;
    assert(v@.subrange(0, v@.len() as int) =~= v@);
    assert(rows(out@) + split_on(v@, sep) =~= split_on(v@, sep));
    loop
        invariant
            start <= v.len(),
            rows(out@) + split_on(v@.subrange(start as int, v@.len() as int), sep)
                == split_on(v@, sep),
        decreases v.len() - start,
    {
        let i = find_char(v, sep, start);
        let ghost rest = v@.subrange(start as int, v@.len() as int);
        proof {
            lemma_first_from_suffix(v@, sep, start as int, 0);
            lemma_first_from(v@, sep, start as int);
        }
        let piece = slice_chars(v, start, i);
        let ghost before = rows(out@);
        out.push(piece);
        assert(rows(out@) =~= before + seq![piece@]);
        assert(piece@ =~= rest.subrange(0, i - start));
        if i < v.len() {
            assert(rest.subrange(i - start + 1, rest.len() as int) =~= v@.subrange(
                i + 1,
                v@.len() as int,
            ));
            assert(rows(out@) + split_on(v@.subrange(i + 1, v@.len() as int), sep) =~= before
                + split_on(rest, sep));
            start = i + 1;
        } else {
            assert(piece@ =~= rest);
            assert(rows(out@) =~= before + split_on(rest, sep));
            return out;
        }
    }
}

/// `s` without one trailing carriage return, if it has one.
pub open spec fn strip_cr(s: Seq<char>) -> Seq<char> {
    if s.len() > 0 && s.last() == '\r' {
        s.drop_last()
    } else {
        s
    }
}

/// The lines of a text. Lines end at `\n` or `\r\n`; the line ending is not
/// part of the line. A final line ending is optional, so a text that ends in
/// one has no empty line after it, and the empty text has no lines.
pub open spec fn lines_of(s: Seq<char>) -> Seq<Seq<char>>
    decreases s.len(),
{
    if s.len() == 0 {
        Seq::empty()
    } else {
        let i = first_from(s, '\n', 0);
        if 0 <= i < s.len() {
            seq![strip_cr(s.subrange(0, i))] + lines_of(s.subrange(i + 1, s.len() as int))
        } else {
            seq![s]
        }
    }
}

/// Splits `v` into its lines.
pub fn split_lines(v: &Vec<char>) -> (r: Vec<Vec<char>>)
    ensures
        rows(r@) == lines_of(v@),
{
    let mut out: Vec<Vec<char>> = Vec::new();
    let mut start: usize = 0;
    assert(v@.subrange(0, v@.len() as int) =~= v@);
    assert(rows(out@) + lines_of(v@) =~= lines_of(v@));
    while start < v.len()
        invariant
            start <= v.len(),
            rows(out@) + lines_of(v@.subrange(start as int, v@.len() as int)) == lines_of(
                v@,
            ),
        decreases v.len() - start,
    {
        let i = find_char(v, '\n', start);
        let ghost rest = v@.subrange(start as int, v@.len() as int);
        proof {
            lemma_first_from_suffix(v@, '\n', start as int, 0);
            lemma_first_from(v@, '\n', start as int);
        }
        let ghost before = rows(out@);
        if i < v.len() {
            let end: usize = if i > start && v[i - 1] == '\r' {
                i - 1
            } else {
                i
            };
            let piece = slice_chars(v, start, end);
            assert(piece@ =~= strip_cr(rest.subrange(0, i - start)));
            out.push(piece);
            assert(rows(out@) =~= before + seq![piece@]);
            assert(rest.subrange(i - start + 1, rest.len() as int) =~= v@.subrange(
                i + 1,
                v@.len() as int,
            ));
            assert(rows(out@) + lines_of(v@.subrange(i + 1, v@.len() as int)) =~= before
                + lines_of(rest));
            start = i + 1;
        } else {
            let piece = slice_chars(v, start, i);
            assert(piece@ =~= rest);
            out.push(piece);
            assert(rows(out@) =~= before + seq![piece@]);
            assert(v@.subrange(i as int, v@.len() as int) =~= Seq::<char>::empty());
            assert(rows(out@) + lines_of(v@.subrange(i as int, v@.len() as int)) =~= before
                + lines_of(rest));
            start = i;
        }
    }
    assert(v@.subrange(start as int, v@.len() as int).len() == 0);
    assert(rows(out@) + Seq::<Seq<char>>::empty() =~= rows(out@));
    out
}

// ---------------------------------------------------------------------------
// Lexicographic order
// ---------------------------------------------------------------------------

/// The length of the longest common prefix of `a` and `b`, counted from `i`.
pub open spec fn common_prefix(a: Seq<char>, b: Seq<char>, i: int) -> int
    decreases a.len() - i,
{
    if 0 <= i < a.len() && i < b.len() && a[i] == b[i] {
        common_prefix(a, b, i + 1)
    } else {
        i
    }
}

/// Whether `a` comes strictly before `b` in the lexicographic order of their
/// code points. This is the order of `str` and `String`.
pub open spec fn lex_lt(a: Seq<char>, b: Seq<char>) -> bool {
    let k = common_prefix(a, b, 0);
    k < b.len() && (k == a.len() || (a[k] as int) < (b[k] as int))
}

/// Whether `k` is where `a` and `b` first differ (or where the shorter ends).
pub open spec fn is_split_point(a: Seq<char>, b: Seq<char>, k: int) -> bool {
    &&& 0 <= k <= a.len()
    &&& k <= b.len()
    &&& forall|j: int| 0 <= j < k ==> a[j] == b[j]
    &&& (k == a.len() || k == b.len() || a[k] != b[k])
}

pub proof fn lemma_common_prefix(a: Seq<char>, b: Seq<char>, i: int)
    requires
        0 <= i <= a.len(),
        i <= b.len(),
        forall|j: int| 0 <= j < i ==> a[j] == b[j],
    ensures
        is_split_point(a, b, common_prefix(a, b, i)),
        i <= common_prefix(a, b, i),
    decreases a.len() - i,
{
    if i < a.len() && i < b.len() && a[i] == b[i] {
        lemma_common_prefix(a, b, i + 1);
    }
}

/// There is only one split point.
pub proof fn lemma_split_point_unique(a: Seq<char>, b: Seq<char>, k: int)
    requires
        is_split_point(a, b, k),
    ensures
        common_prefix(a, b, 0) == k,
{
    lemma_common_prefix(a, b, 0);
    let c = common_prefix(a, b, 0);
    if c < k {
        assert(a[c] == b[c]);
    } else if k < c {
        assert(a[k] == b[k]);
    }
}

/// No sequence comes before itself.
pub proof fn lemma_lex_irreflexive(a: Seq<char>)
    ensures
        !lex_lt(a, a),
{
    lemma_split_point_unique(a, a, a.len() as int);
}

/// Of two different sequences exactly one comes first.
pub proof fn lemma_lex_total(a: Seq<char>, b: Seq<char>)
    ensures
        a == b || lex_lt(a, b) || lex_lt(b, a),
        !(lex_lt(a, b) && lex_lt(b, a)),
        a == b ==> !lex_lt(a, b),
{
    lemma_common_prefix(a, b, 0);
    let k = common_prefix(a, b, 0);
    assert(is_split_point(b, a, k));
    lemma_split_point_unique(b, a, k);
    if !lex_lt(a, b) && !lex_lt(b, a) {
        assert(a =~= b);
    }
    if a == b {
        lemma_lex_irreflexive(a);
    }
}

/// The order is transitive.
pub proof fn lemma_lex_transitive(a: Seq<char>, b: Seq<char>, c: Seq<char>)
    requires
        lex_lt(a, b),
        lex_lt(b, c),
    ensures
        lex_lt(a, c),
{
    lemma_common_prefix(a, b, 0);
    lemma_common_prefix(b, c, 0);
    let k1 = common_prefix(a, b, 0);
    let k2 = common_prefix(b, c, 0);
    let k = if k1 <= k2 {
        k1
    } else {
        k2
    };
    assert(is_split_point(a, c, k)) by {
        assert forall|j: int| 0 <= j < k implies a[j] == c[j] by {
            assert(a[j] == b[j]);
            assert(b[j] == c[j]);
        }
        if k < a.len() && k < c.len() {
            if k1 < k2 {
                assert(b[k] == c[k]);
            } else if k2 < k1 {
                assert(a[k] == b[k]);
            }
        }
    }
    lemma_split_point_unique(a, c, k);
}

/// Whether `a` comes strictly before `b`.
pub fn chars_lt(a: &Vec<char>, b: &Vec<char>) -> (r: bool)
    ensures
        r == lex_lt(a@, b@),
{
    let mut i: usize = 0;
    while i < a.len() && i < b.len() && a[i] == b[i]
        invariant
            i <= a.len(),
            i <= b.len(),
            common_prefix(a@, b@, 0) == common_prefix(a@, b@, i as int),
        decreases a.len() - i,
    {
        i += 1;
    }
    if i >= b.len() {
        false
    } else if i >= a.len() {
        true
    } else {
        a[i] < b[i]
    }
}

/// Whether `a` comes strictly before `b`.
pub fn str_lt(a: &str, b: &str) -> (r: bool)
    ensures
        r == lex_lt(a@, b@),
{
    let x = chars_of(a);
    let y = chars_of(b);
    chars_lt(&x, &y)
}

} // verus!
