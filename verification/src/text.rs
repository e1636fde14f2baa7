//! Text as sequences of characters: conversions between `str` and `Vec<char>`,
//! the lexicographic order, and substring search.

use std::sync::Arc;
use vstd::prelude::*;

verus! {

/// `String::push` appends exactly the given character to the end of the string.
pub assume_specification[ String::push ](s: &mut String, c: char)
    ensures
        final(s)@ == old(s)@.push(c),
;

/// `Arc::clone` hands out another handle to the same string; the text behind
/// it is the text behind the original.
#[verifier::external_body]
pub(crate) fn share(a: &Arc<String>) -> (r: Arc<String>)
    ensures
        r == *a,
{
    Arc::clone(a)
}

/// The characters of `s`, in order.
pub fn chars_of(s: &str) -> (v: Vec<char>)
    ensures
        v@ == s@,
{
    let mut v: Vec<char> = Vec::new();
    for c in it: s.chars()
        invariant
            v@ == it.seq().take(it.index() as int),
            it.seq() == s@,
    {
        v.push(c);
    }
    v
}

/// The text made of `v[from..to]`.
pub fn text_of(v: &Vec<char>, from: usize, to: usize) -> (s: String)
    requires
        from <= to <= v.len(),
    ensures
        s@ == v@.subrange(from as int, to as int),
{
    let mut s = String::new();
    let mut i: usize = from;
    while i < to
        invariant
            from <= i <= to <= v.len(),
            s@ == v@.subrange(from as int, i as int),
        decreases to - i,
    {
        s.push(v[i]);
        i += 1;
        assert(v@.subrange(from as int, i as int) == v@.subrange(from as int, i - 1).push(
            v@[i - 1],
        ));
    }
    s
}

/// The first index in `[from, to)` at which `s` holds `c`, or `to` when none does.
pub open spec fn find_char(s: Seq<char>, from: int, to: int, c: char) -> int
    decreases to - from,
{
    if from >= to {
        to
    } else if s[from] == c {
        from
    } else {
        find_char(s, from + 1, to, c)
    }
}

/// `find_char` stays inside its range, points at `c` when it stops early, and
/// skips no occurrence of `c`.
pub proof fn lemma_find_char(s: Seq<char>, from: int, to: int, c: char)
    requires
        0 <= from <= to <= s.len(),
    ensures
        from <= find_char(s, from, to, c) <= to,
        find_char(s, from, to, c) < to ==> s[find_char(s, from, to, c)] == c,
        forall|j: int| from <= j < find_char(s, from, to, c) ==> s[j] != c,
    decreases to - from,
{
    if from < to && s[from] != c {
        lemma_find_char(s, from + 1, to, c);
    }
}

/// Any position that holds `c` with no `c` before it in the range is the one
/// `find_char` returns.
pub proof fn lemma_find_char_is(s: Seq<char>, from: int, to: int, c: char, p: int)
    requires
        0 <= from <= p <= to <= s.len(),
        forall|j: int| from <= j < p ==> s[j] != c,
        p < to ==> s[p] == c,
    ensures
        find_char(s, from, to, c) == p,
    decreases to - from,
{
    if from < p {
        lemma_find_char_is(s, from + 1, to, c, p);
    }
}

/// Scans `v[from..to]` for `c`.
pub fn scan_for(v: &Vec<char>, from: usize, to: usize, c: char) -> (p: usize)
    requires
        from <= to <= v.len(),
    ensures
        p == find_char(v@, from as int, to as int, c),
        from <= p <= to,
{
    let mut i: usize = from;
    while i < to && v[i] != c
        invariant
            from <= i <= to <= v.len(),
            forall|j: int| from <= j < i ==> v@[j] != c,
        decreases to - i,
    {
        i += 1;
    }
    proof {
        lemma_find_char_is(v@, from as int, to as int, c, i as int);
    }
    i
}

/// The lexicographic order on texts, character by character by code point:
/// a proper prefix comes first.
pub open spec fn text_lt(a: Seq<char>, b: Seq<char>) -> bool
    decreases a.len(),
{
    if b.len() == 0 {
        false
    } else if a.len() == 0 {
        true
    } else if a[0] != b[0] {
        (a[0] as u32) < (b[0] as u32)
    } else {
        text_lt(a.drop_first(), b.drop_first())
    }
}

/// No text comes before itself.
pub proof fn lemma_text_lt_irreflexive(a: Seq<char>)
    ensures
        !text_lt(a, a),
    decreases a.len(),
{
    if a.len() > 0 {
        lemma_text_lt_irreflexive(a.drop_first());
    }
}

/// Of two different texts one comes before the other.
pub proof fn lemma_text_lt_total(a: Seq<char>, b: Seq<char>)
    ensures
        text_lt(a, b) || text_lt(b, a) || a == b,
        !(text_lt(a, b) && text_lt(b, a)),
    decreases a.len(),
{
    if a.len() > 0 && b.len() > 0 {
        if a[0] == b[0] {
            lemma_text_lt_total(a.drop_first(), b.drop_first());
            if a.drop_first() == b.drop_first() {
                assert(a =~= seq![a[0]] + a.drop_first());
                assert(b =~= seq![b[0]] + b.drop_first());
            }
        } else {
            vstd::utf8::char_u32_cast(a[0], a[0] as u32);
            vstd::utf8::char_u32_cast(b[0], b[0] as u32);
        }
    } else if a.len() == 0 && b.len() == 0 {
        assert(a =~= b);
    }
}

/// The order is transitive.
pub proof fn lemma_text_lt_transitive(a: Seq<char>, b: Seq<char>, c: Seq<char>)
    requires
        text_lt(a, b),
        text_lt(b, c),
    ensures
        text_lt(a, c),
    decreases a.len(),
{
    if a.len() > 0 && b.len() > 0 && c.len() > 0 {
        if a[0] == b[0] && b[0] == c[0] {
            lemma_text_lt_transitive(a.drop_first(), b.drop_first(), c.drop_first());
        }
    }
}

/// Whether the code point of `a` is below that of `b`.
fn char_before(a: char, b: char) -> (r: bool)
    ensures
        r == ((a as u32) < (b as u32)),
{
    a < b
}

/// Whether `a` comes before `b` in the lexicographic order.
pub fn text_before(a: &str, b: &str) -> (r: bool)
    ensures
        r == text_lt(a@, b@),
{
    let x = chars_of(a);
    let y = chars_of(b);
    let mut i: usize = 0;
    proof {
        assert(x@.skip(0) =~= x@);
        assert(y@.skip(0) =~= y@);
    }
    while i < x.len() && i < y.len() && x[i] == y[i]
        invariant
            x@ == a@,
            y@ == b@,
            i <= x.len(),
            i <= y.len(),
            text_lt(x@, y@) == text_lt(x@.skip(i as int), y@.skip(i as int)),
        decreases x.len() - i,
    {
        proof {
            assert(x@.skip(i as int).drop_first() =~= x@.skip(i + 1));
            assert(y@.skip(i as int).drop_first() =~= y@.skip(i + 1));
        }
        i += 1;
    }
    proof {
        let xs = x@.skip(i as int);
        let ys = y@.skip(i as int);
        if i < x.len() {
            assert(xs[0] == x@[i as int]);
        }
        if i < y.len() {
            assert(ys[0] == y@[i as int]);
        }
    }
    if i == y.len() {
        false
    } else if i == x.len() {
        true
    } else {
        char_before(x[i], y[i])
    }
}

/// Whether `needle` stands in `hay` at position `at`.
pub open spec fn occurs_at(needle: Seq<char>, hay: Seq<char>, at: int) -> bool {
    0 <= at && at + needle.len() <= hay.len() && hay.subrange(at, at + needle.len()) == needle
}

/// Whether `needle` occurs in `hay` as a run of adjacent characters.
pub open spec fn occurs_in(needle: Seq<char>, hay: Seq<char>) -> bool {
    exists|at: int| occurs_at(needle, hay, at)
}

/// Whether `hay[at..]` starts with `needle`.
fn starts_at(hay: &Vec<char>, at: usize, needle: &Vec<char>) -> (r: bool)
    requires
        at + needle.len() <= hay.len(),
    ensures
        r == occurs_at(needle@, hay@, at as int),
{
    let mut j: usize = 0;
    while j < needle.len() && hay[at + j] == needle[j]
        invariant
            j <= needle.len(),
            at + needle.len() <= hay.len(),
            forall|k: int| 0 <= k < j ==> hay@[at + k] == needle@[k],
        decreases needle.len() - j,
    {
        j += 1;
    }
    proof {
        let window = hay@.subrange(at as int, at + needle.len());
        if j == needle.len() {
            assert(window =~= needle@);
        } else {
            assert(window[j as int] != needle@[j as int]);
        }
    }
    j == needle.len()
}

/// Whether `needle` occurs in `hay`.
pub fn contains_text(hay: &str, needle: &str) -> (r: bool)
    ensures
        r == occurs_in(needle@, hay@),
{
    let h = chars_of(hay);
    let n = chars_of(needle);
    if n.len() > h.len() {
        return false;
    }
    let last: usize = h.len() - n.len();
    let mut i: usize = 0;
    loop
        invariant
            h@ == hay@,
            n@ == needle@,
            last == h.len() - n.len(),
            i <= last,
            forall|k: int| 0 <= k < i ==> !occurs_at(n@, h@, k),
        decreases last - i,
    {
        if starts_at(&h, i, &n) {
            return true;
        }
        if i == last {
            return false;
        }
        i += 1;
    }
}

} // verus!
