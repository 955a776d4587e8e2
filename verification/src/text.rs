//! Character-level text primitives.
//!
//! A string is seen as its sequence of Unicode scalar values. Searching and
//! trimming are stated over `Seq<char>` and carried out on a `Vec<char>` with
//! index ranges, so that one conversion serves every scan of a document.

use vstd::prelude::*;
use vstd::string::*;

verus! {

/// The scalar values that Unicode gives the `White_Space` property.
pub open spec fn white_space(c: char) -> bool {
    let n = c as u32;
    ||| 0x09 <= n <= 0x0D
    ||| n == 0x20
    ||| n == 0x85
    ||| n == 0xA0
    ||| n == 0x1680
    ||| 0x2000 <= n <= 0x200A
    ||| n == 0x2028
    ||| n == 0x2029
    ||| n == 0x202F
    ||| n == 0x205F
    ||| n == 0x3000
}

/// Whether `c` is Unicode white space.
#[verifier::when_used_as_spec(white_space)]
pub fn is_whitespace(c: char) -> (b: bool)
    ensures
        b == white_space(c),
{
    let n: u32 = c as u32;
    (0x09 <= n && n <= 0x0D) || n == 0x20 || n == 0x85 || n == 0xA0 || n == 0x1680 || (0x2000 <= n
        && n <= 0x200A) || n == 0x2028 || n == 0x2029 || n == 0x202F || n == 0x205F || n == 0x3000
}

/// `s` without its leading white space.
pub open spec fn trim_start(s: Seq<char>) -> Seq<char>
    decreases s.len(),
{
    if s.len() > 0 && white_space(s[0]) {
        trim_start(s.drop_first())
    } else {
        s
    }
}

/// `s` without its trailing white space.
pub open spec fn trim_end(s: Seq<char>) -> Seq<char>
    decreases s.len(),
{
    if s.len() > 0 && white_space(s.last()) {
        trim_end(s.drop_last())
    } else {
        s
    }
}

/// `s` without leading and trailing white space.
pub open spec fn trim(s: Seq<char>) -> Seq<char> {
    trim_end(trim_start(s))
}

/// The least index `i >= from` with `s[i] == c`, or `s.len()` when `c` does not
/// occur at or after `from`.
pub open spec fn index_from(s: Seq<char>, c: char, from: int) -> int
    decreases s.len() - from,
{
    if from < 0 || from >= s.len() {
        s.len() as int
    } else if s[from] == c {
        from
    } else {
        index_from(s, c, from + 1)
    }
}

/// How often `c` occurs in `s`.
pub open spec fn count_char(s: Seq<char>, c: char) -> nat
    decreases s.len(),
{
    if s.len() == 0 {
        0
    } else {
        count_char(s.drop_last(), c) + if s.last() == c {
            1nat
        } else {
            0nat
        }
    }
}

/// `index_from` is the first occurrence: nothing before it matches, and it
/// matches unless it is the length.
pub proof fn lemma_index_from(s: Seq<char>, c: char, from: int)
    requires
        0 <= from <= s.len(),
    ensures
        from <= index_from(s, c, from) <= s.len(),
        index_from(s, c, from) < s.len() ==> s[index_from(s, c, from)] == c,
        forall|j: int| from <= j < index_from(s, c, from) ==> s[j] != c,
    decreases s.len() - from,
{
    if from < s.len() && s[from] != c {
        lemma_index_from(s, c, from + 1);
    }
}

/// A trimmed sequence is a contiguous part of the sequence that neither
/// starts nor ends with white space.
pub proof fn lemma_trim(s: Seq<char>)
    ensures
        trim(s).len() <= s.len(),
        trim(s).len() > 0 ==> !white_space(trim(s)[0]) && !white_space(trim(s).last()),
        exists|a: int| 0 <= a && a + trim(s).len() <= s.len() && #[trigger] s.subrange(a, a + trim(s).len()) == trim(s),
{
    let a = lemma_trim_start(s, 0, s.len() as int);
    let b = lemma_trim_end(s, a, s.len() as int);
    assert(s.subrange(a, s.len() as int) == trim_start(s)) by {
        assert(s.subrange(0, s.len() as int) =~= s);
    }
    let t = trim(s);
    assert(t == s.subrange(a, b));
    assert(s.subrange(a, a + t.len()) == t);
    if t.len() > 0 {
        assert(t[0] == s[a]);
        assert(t.last() == s[b - 1]);
    }
}

/// Where trimming the front of `s[lo..hi]` stops.
pub proof fn lemma_trim_start(s: Seq<char>, lo: int, hi: int) -> (a: int)
    requires
        0 <= lo <= hi <= s.len(),
    ensures
        lo <= a <= hi,
        trim_start(s.subrange(lo, hi)) == s.subrange(a, hi),
        a < hi ==> !white_space(s[a]),
        forall|j: int| lo <= j < a ==> white_space(s[j]),
    decreases hi - lo,
{
    let t = s.subrange(lo, hi);
    if lo < hi && white_space(s[lo]) {
        assert(t.drop_first() =~= s.subrange(lo + 1, hi));
        lemma_trim_start(s, lo + 1, hi)
    } else {
        lo
    }
}

/// Where trimming the back of `s[lo..hi]` stops.
pub proof fn lemma_trim_end(s: Seq<char>, lo: int, hi: int) -> (b: int)
    requires
        0 <= lo <= hi <= s.len(),
    ensures
        lo <= b <= hi,
        trim_end(s.subrange(lo, hi)) == s.subrange(lo, b),
        lo < b ==> !white_space(s[b - 1]),
        forall|j: int| b <= j < hi ==> white_space(s[j]),
    decreases hi - lo,
{
    let t = s.subrange(lo, hi);
    if lo < hi && white_space(s[hi - 1]) {
        assert(t.drop_last() =~= s.subrange(lo, hi - 1));
        lemma_trim_end(s, lo, hi - 1)
    } else {
        hi
    }
}

/// A search that starts before the first occurrence finds it from any index
/// up to it.
pub proof fn lemma_index_from_later(s: Seq<char>, c: char, from: int, later: int)
    requires
        0 <= from <= later <= index_from(s, c, from),
    ensures
        index_from(s, c, later) == index_from(s, c, from),
    decreases later - from,
{
    lemma_index_from(s, c, from);
    if from < later {
        lemma_index_from_later(s, c, from + 1, later);
    }
}

/// Searching `s[lo..hi]` is searching `s` and stopping at `hi`.
pub proof fn lemma_index_from_subrange(s: Seq<char>, c: char, lo: int, hi: int, from: int)
    requires
        0 <= lo <= from <= hi <= s.len(),
    ensures
        index_from(s.subrange(lo, hi), c, from - lo) == if index_from(s, c, from) < hi {
            index_from(s, c, from) - lo
        } else {
            hi - lo
        },
    decreases hi - from,
{
    lemma_index_from(s, c, from);
    if from < hi && s[from] != c {
        lemma_index_from_subrange(s, c, lo, hi, from + 1);
    }
}

/// Where trimming `s[lo..hi]` starts and stops: before and after it there is
/// only white space, and what is left, if anything, starts and ends with
/// something else.
pub proof fn lemma_trim_range(s: Seq<char>, lo: int, hi: int) -> (at: (int, int))
    requires
        0 <= lo <= hi <= s.len(),
    ensures
        lo <= at.0 <= at.1 <= hi,
        trim(s.subrange(lo, hi)) == s.subrange(at.0, at.1),
        forall|j: int| lo <= j < at.0 ==> white_space(s[j]),
        forall|j: int| at.1 <= j < hi ==> white_space(s[j]),
        (at.0 == hi && at.1 == hi) || (at.0 < at.1 && !white_space(s[at.0]) && !white_space(
            s[at.1 - 1],
        )),
{
    let a = lemma_trim_start(s, lo, hi);
    let b = lemma_trim_end(s, a, hi);
    (a, b)
}

/// White space at the end does not change what trimming leaves.
pub proof fn lemma_trim_ignores_trailing(s: Seq<char>, lo: int, mid: int, hi: int)
    requires
        0 <= lo <= mid <= hi <= s.len(),
        forall|j: int| mid <= j < hi ==> white_space(s[j]),
    ensures
        trim(s.subrange(lo, hi)) == trim(s.subrange(lo, mid)),
{
    let whole = lemma_trim_range(s, lo, hi);
    let part = lemma_trim_range(s, lo, mid);
    if part.0 < part.1 {
        assert(whole.0 == part.0);
        assert(whole.1 == part.1);
    } else {
        assert(whole.0 == hi);
        assert(s.subrange(hi, hi) =~= s.subrange(mid, mid));
    }
}


/// The scalar values of `s`, in order.
pub fn chars_of(s: &str) -> (v: Vec<char>)
    ensures
        v@ == s@,
{
    broadcast use group_string_axioms;

    let mut v: Vec<char> = Vec::new();
    for c in it: s.chars()
        invariant
            it.seq() == s@,
            v@ == it.seq().take(it.index() as int),
    {
        v.push(c);
    }
    v
}

/// The first index at or after `from` that holds `c`, or the length.
pub(crate) fn find_char(v: &Vec<char>, c: char, from: usize) -> (i: usize)
    requires
        from <= v.len(),
    ensures
        i == index_from(v@, c, from as int),
        from <= i <= v.len(),
{
    let mut i: usize = from;
    while i < v.len() && v[i] != c
        invariant
            from <= i <= v.len(),
            index_from(v@, c, from as int) == index_from(v@, c, i as int),
        decreases v.len() - i,
    {
        i += 1;
    }
    i
}

/// The bounds of `v[lo..hi]` once trimmed.
pub(crate) fn trim_bounds(v: &Vec<char>, lo: usize, hi: usize) -> (r: (usize, usize))
    requires
        lo <= hi <= v.len(),
    ensures
        lo <= r.0 <= r.1 <= hi,
        v@.subrange(r.0 as int, r.1 as int) == trim(v@.subrange(lo as int, hi as int)),
{
    let mut a: usize = lo;
    while a < hi && is_whitespace(v[a])
        invariant
            lo <= a <= hi <= v.len(),
            trim_start(v@.subrange(lo as int, hi as int)) == trim_start(
                v@.subrange(a as int, hi as int),
            ),
        decreases hi - a,
    {
        assert(v@.subrange(a as int, hi as int).drop_first() =~= v@.subrange(a + 1, hi as int));
        a += 1;
    }
    let mut b: usize = hi;
    while a < b && is_whitespace(v[b - 1])
        invariant
            a <= b <= hi <= v.len(),
            trim_end(v@.subrange(a as int, hi as int)) == trim_end(v@.subrange(a as int, b as int)),
        decreases b - a,
    {
        assert(v@.subrange(a as int, b as int).drop_last() =~= v@.subrange(a as int, b - 1));
        b -= 1;
    }
    (a, b)
}

/// How often `c` occurs in `v` at or after `from`.
pub(crate) fn count_from(v: &Vec<char>, c: char, from: usize) -> (n: usize)
    requires
        from <= v.len(),
    ensures
        n == count_char(v@.skip(from as int), c),
{
    let mut n: usize = 0;
    let mut i: usize = from;
    while i < v.len()
        invariant
            from <= i <= v.len(),
            n <= i - from,
            n == count_char(v@.subrange(from as int, i as int), c),
        decreases v.len() - i,
    {
        assert(v@.subrange(from as int, i + 1).drop_last() =~= v@.subrange(from as int, i as int));
        if v[i] == c {
            n += 1;
        }
        i += 1;
    }
    assert(v@.subrange(from as int, v.len() as int) =~= v@.skip(from as int));
    n
}

/// Searching a suffix is searching the whole from the suffix's start.
pub proof fn lemma_index_from_skip(s: Seq<char>, c: char, lo: int, from: int)
    requires
        0 <= lo <= from <= s.len(),
    ensures
        index_from(s.skip(lo), c, from - lo) == index_from(s, c, from) - lo,
    decreases s.len() - from,
{
    if from < s.len() && s[from] != c {
        lemma_index_from_skip(s, c, lo, from + 1);
    }
}

} // verus!
