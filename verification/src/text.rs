//! Character-level helpers shared by the style codec, the numeric codec and
//! the matchers: whitespace trimming, first-occurrence search and string
//! equality, each with a spec-level definition and a verified executable form.

use vstd::prelude::*;

verus! {

/// The whitespace characters this crate trims: ASCII space, tab, newline and
/// carriage return.
pub open spec fn is_space(c: char) -> bool {
    c == ' ' || c == '\t' || c == '\n' || c == '\r'
}

/// Index of the first occurrence of `c` in `s`, or `s.len()` when absent.
pub open spec fn find_char(s: Seq<char>, c: char) -> int
    decreases s.len(),
{
    if s.len() == 0 {
        0
    } else if s[0] == c {
        0
    } else {
        1 + find_char(s.drop_first(), c)
    }
}

pub proof fn lemma_find_char_in_range(s: Seq<char>, c: char)
    ensures
        0 <= find_char(s, c) <= s.len(),
        find_char(s, c) < s.len() ==> s[find_char(s, c)] == c,
        forall|j: int| 0 <= j < find_char(s, c) ==> s[j] != c,
    decreases s.len(),
{
    if s.len() > 0 && s[0] != c {
        lemma_find_char_in_range(s.drop_first(), c);
        assert forall|j: int| 0 <= j < find_char(s, c) implies s[j] != c by {
            if j > 0 {
                assert(s.drop_first()[j - 1] == s[j]);
            }
        }
    }
}

/// `find_char` is pinned by its witness: a prefix free of `c` followed by `c`
/// itself (or by the end of the sequence).
pub proof fn lemma_find_char_at(s: Seq<char>, c: char, i: int)
    requires
        0 <= i <= s.len(),
        forall|j: int| 0 <= j < i ==> s[j] != c,
        i == s.len() || s[i] == c,
    ensures
        find_char(s, c) == i,
    decreases i,
{
    if i == 0 {
        if s.len() > 0 && s[0] != c {
            assert(i < s.len());
        }
    } else {
        assert(s[0] != c);
        let t = s.drop_first();
        assert forall|j: int| 0 <= j < i - 1 implies t[j] != c by {
            assert(t[j] == s[j + 1]);
        }
        assert(i - 1 == t.len() || t[i - 1] == c);
        lemma_find_char_at(t, c, i - 1);
    }
}

/// First index at or after which `c` occurs in `s`, or the character length of
/// `s` when `c` does not occur.
pub fn find_char_str(s: &str, c: char) -> (r: usize)
    ensures
        r as int == find_char(s@, c),
{
    let n = s.unicode_len();
    let mut i: usize = 0;
    while i < n
        invariant
            0 <= i <= n,
            n == s@.len(),
            forall|j: int| 0 <= j < i ==> s@[j] != c,
        decreases n - i,
    {
        if s.get_char(i) == c {
            proof {
                lemma_find_char_at(s@, c, i as int);
            }
            return i;
        }
        i += 1;
    }
    proof {
        lemma_find_char_at(s@, c, n as int);
    }
    n
}

/// `s` without its leading whitespace.
pub open spec fn trim_start_spec(s: Seq<char>) -> Seq<char>
    decreases s.len(),
{
    if s.len() > 0 && is_space(s[0]) {
        trim_start_spec(s.drop_first())
    } else {
        s
    }
}

/// `s` without its trailing whitespace.
pub open spec fn trim_end_spec(s: Seq<char>) -> Seq<char>
    decreases s.len(),
{
    if s.len() > 0 && is_space(s.last()) {
        trim_end_spec(s.drop_last())
    } else {
        s
    }
}

/// `s` without leading and trailing whitespace.
pub open spec fn trim_spec(s: Seq<char>) -> Seq<char> {
    trim_end_spec(trim_start_spec(s))
}

pub proof fn lemma_trim_start_prefix(s: Seq<char>, i: int)
    requires
        0 <= i <= s.len(),
        forall|j: int| 0 <= j < i ==> is_space(s[j]),
        i == s.len() || !is_space(s[i]),
    ensures
        trim_start_spec(s) == s.subrange(i, s.len() as int),
    decreases i,
{
    if i == 0 {
        assert(s.subrange(0, s.len() as int) =~= s);
    } else {
        assert(is_space(s[0]));
        let t = s.drop_first();
        assert forall|j: int| 0 <= j < i - 1 implies is_space(t[j]) by {
            assert(t[j] == s[j + 1]);
        }
        lemma_trim_start_prefix(t, i - 1);
        assert(t.subrange(i - 1, t.len() as int) =~= s.subrange(i, s.len() as int));
    }
}

pub proof fn lemma_trim_end_suffix(s: Seq<char>, j: int)
    requires
        0 <= j <= s.len(),
        forall|k: int| j <= k < s.len() ==> is_space(s[k]),
        j == 0 || !is_space(s[j - 1]),
    ensures
        trim_end_spec(s) == s.subrange(0, j),
    decreases s.len(),
{
    if j == s.len() {
        if s.len() > 0 {
            assert(!is_space(s.last()));
        }
        assert(s.subrange(0, j) =~= s);
    } else {
        assert(is_space(s.last()));
        let t = s.drop_last();
        lemma_trim_end_suffix(t, j);
        assert(t.subrange(0, j) =~= s.subrange(0, j));
    }
}

/// A sequence with no whitespace at either edge is its own trim.
pub proof fn lemma_trim_noop(s: Seq<char>)
    requires
        s.len() > 0 ==> !is_space(s[0]),
        s.len() > 0 ==> !is_space(s.last()),
    ensures
        trim_spec(s) == s,
{
    lemma_trim_start_prefix(s, 0);
    assert(s.subrange(0, s.len() as int) =~= s);
    lemma_trim_end_suffix(s, s.len() as int);
}

/// `s` with surrounding whitespace removed.
pub fn trim_str(s: &str) -> (r: &str)
    ensures
        r@ == trim_spec(s@),
{
    let n = s.unicode_len();
    let mut i: usize = 0;
    while i < n && is_space_char(s.get_char(i))
        invariant
            0 <= i <= n,
            n == s@.len(),
            forall|j: int| 0 <= j < i ==> is_space(s@[j]),
        decreases n - i,
    {
        i += 1;
    }
    proof {
        lemma_trim_start_prefix(s@, i as int);
    }
    let mut j: usize = n;
    while j > i && is_space_char(s.get_char(j - 1))
        invariant
            i <= j <= n,
            n == s@.len(),
            forall|k: int| j <= k < n ==> is_space(s@[k]),
        decreases j,
    {
        j -= 1;
    }
    let r = s.substring_char(i, j);
    proof {
        let t = trim_start_spec(s@);
        if j == i {
            lemma_trim_end_suffix(t, 0);
        } else {
            assert(t[j - i - 1] == s@[j - 1]);
            assert forall|k: int| j - i <= k < t.len() implies is_space(t[k]) by {
                assert(t[k] == s@[k + i]);
            }
            lemma_trim_end_suffix(t, j - i);
        }
        assert(t.subrange(0, j - i) =~= s@.subrange(i as int, j as int));
    }
    r
}

/// Whether `c` is a character this crate treats as whitespace.
pub fn is_space_char(c: char) -> (r: bool)
    ensures
        r == is_space(c),
{
    c == ' ' || c == '\t' || c == '\n' || c == '\r'
}

/// `c` does not occur in `xs`.
pub open spec fn has_no(xs: Seq<char>, c: char) -> bool {
    forall|j: int| 0 <= j < xs.len() ==> xs[j] != c
}

/// The segments of `s` between occurrences of `c`: splitting the empty
/// sequence gives one empty segment, as `str::split` does.
pub open spec fn split_on(s: Seq<char>, c: char) -> Seq<Seq<char>>
    decreases s.len(),
{
    let i = find_char(s, c);
    if 0 <= i < s.len() {
        seq![s.subrange(0, i)] + split_on(s.subrange(i + 1, s.len() as int), c)
    } else {
        seq![s]
    }
}

/// No segment of a split contains the separator.
pub proof fn lemma_split_on_segments(s: Seq<char>, c: char)
    ensures
        split_on(s, c).len() >= 1,
        forall|k: int| 0 <= k < split_on(s, c).len() ==> has_no(#[trigger] split_on(s, c)[k], c),
    decreases s.len(),
{
    lemma_find_char_in_range(s, c);
    let i = find_char(s, c);
    if 0 <= i < s.len() {
        let head = s.subrange(0, i);
        let tail = s.subrange(i + 1, s.len() as int);
        lemma_split_on_segments(tail, c);
        assert(has_no(head, c));
        assert forall|k: int| 0 <= k < split_on(s, c).len() implies has_no(
            #[trigger] split_on(s, c)[k],
            c,
        ) by {
            if k > 0 {
                assert(split_on(s, c)[k] == split_on(tail, c)[k - 1]);
            }
        }
    } else {
        assert(has_no(s, c));
    }
}

/// A separator-free sequence splits into itself alone.
pub proof fn lemma_split_on_whole(s: Seq<char>, c: char)
    requires
        has_no(s, c),
    ensures
        split_on(s, c) == seq![s],
{
    lemma_find_char_at(s, c, s.len() as int);
}

/// Splitting peels one separator-free head segment at a time.
pub proof fn lemma_split_on_cons(a: Seq<char>, c: char, b: Seq<char>)
    requires
        has_no(a, c),
    ensures
        split_on(a + seq![c] + b, c) == seq![a] + split_on(b, c),
{
    let s = a + seq![c] + b;
    assert forall|j: int| 0 <= j < a.len() implies s[j] != c by {
        assert(s[j] == a[j]);
    }
    assert(s[a.len() as int] == c);
    lemma_find_char_at(s, c, a.len() as int);
    assert(s.subrange(0, a.len() as int) =~= a);
    assert(s.subrange(a.len() as int + 1, s.len() as int) =~= b);
}

/// A nonempty trimmed sequence starts with a non-space character.
pub proof fn lemma_trim_start_head(s: Seq<char>)
    ensures
        trim_start_spec(s).len() > 0 ==> !is_space(trim_start_spec(s)[0]),
        trim_start_spec(s).len() <= s.len(),
    decreases s.len(),
{
    if s.len() > 0 && is_space(s[0]) {
        lemma_trim_start_head(s.drop_first());
    }
}

pub proof fn lemma_trim_start_has_no(s: Seq<char>, c: char)
    requires
        has_no(s, c),
    ensures
        has_no(trim_start_spec(s), c),
    decreases s.len(),
{
    if s.len() > 0 && is_space(s[0]) {
        let t = s.drop_first();
        assert forall|j: int| 0 <= j < t.len() implies t[j] != c by {
            assert(t[j] == s[j + 1]);
        }
        lemma_trim_start_has_no(t, c);
    }
}

/// A nonempty trimmed sequence ends with a non-space character, and trimming
/// the end only shortens: the result is a prefix.
pub proof fn lemma_trim_end_props(s: Seq<char>)
    ensures
        trim_end_spec(s).len() > 0 ==> !is_space(trim_end_spec(s).last()),
        trim_end_spec(s).len() <= s.len(),
        trim_end_spec(s) == s.subrange(0, trim_end_spec(s).len() as int),
    decreases s.len(),
{
    if s.len() > 0 && is_space(s.last()) {
        let d = s.drop_last();
        lemma_trim_end_props(d);
        assert(d.subrange(0, trim_end_spec(d).len() as int) =~= s.subrange(
            0,
            trim_end_spec(d).len() as int,
        ));
    } else {
        assert(s.subrange(0, s.len() as int) =~= s);
    }
}

pub proof fn lemma_trim_end_has_no(s: Seq<char>, c: char)
    requires
        has_no(s, c),
    ensures
        has_no(trim_end_spec(s), c),
{
    lemma_trim_end_props(s);
    let t = trim_end_spec(s);
    assert forall|j: int| 0 <= j < t.len() implies t[j] != c by {
        assert(t[j] == s.subrange(0, t.len() as int)[j]);
    }
}

/// What trimming guarantees of its result: no whitespace at either edge, and
/// no new characters.
pub proof fn lemma_trim_props(s: Seq<char>, c: char)
    requires
        has_no(s, c),
    ensures
        has_no(trim_spec(s), c),
        trim_spec(s).len() > 0 ==> !is_space(trim_spec(s)[0]),
        trim_spec(s).len() > 0 ==> !is_space(trim_spec(s).last()),
{
    let t1 = trim_start_spec(s);
    lemma_trim_start_head(s);
    lemma_trim_start_has_no(s, c);
    lemma_trim_end_props(t1);
    lemma_trim_end_has_no(t1, c);
    let t = trim_end_spec(t1);
    if t.len() > 0 {
        assert(t[0] == t1.subrange(0, t.len() as int)[0]);
        assert(t[0] == t1[0]);
    }
}

/// Character-wise string equality, stated over the views.
pub fn str_eq(a: &str, b: &str) -> (r: bool)
    ensures
        r == (a@ == b@),
{
    let na = a.unicode_len();
    let nb = b.unicode_len();
    if na != nb {
        return false;
    }
    let mut i: usize = 0;
    while i < na
        invariant
            0 <= i <= na,
            na == a@.len(),
            na == b@.len(),
            forall|j: int| 0 <= j < i ==> a@[j] == b@[j],
        decreases na - i,
    {
        if a.get_char(i) != b.get_char(i) {
            return false;
        }
        i += 1;
    }
    proof {
        assert(a@ =~= b@);
    }
    true
}

} // verus!
