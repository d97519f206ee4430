//! Character-level string utilities used across the crate.

use vstd::prelude::*;

verus! {

/// The characters of `s` as a vector, for index-based algorithms.
pub fn chars_of(s: &str) -> (r: Vec<char>)
    ensures
        r@ == s@,
{
    let n = s.unicode_len();
    let mut r: Vec<char> = Vec::new();
    let mut i: usize = 0;
    while i < n
        invariant
            n == s@.len(),
            i <= n,
            r@ == s@.subrange(0, i as int),
        decreases n - i,
    {
        r.push(s.get_char(i));
        i += 1;
    }
    assert(r@ =~= s@);
    r
}

/// Whether the strings hold the same characters.
pub fn str_eq(a: &str, b: &str) -> (r: bool)
    ensures
        r == (a@ == b@),
{
    let na = a.unicode_len();
    let nb = b.unicode_len();
    if na != nb {
        return false;
    }
    let mut i: usize = 0;
    while i < na
        invariant
            na == a@.len(),
            na == b@.len(),
            i <= na,
            forall|j: int| 0 <= j < i ==> a@[j] == b@[j],
        decreases na - i,
    {
        if a.get_char(i) != b.get_char(i) {
            return false;
        }
        i += 1;
    }
    assert(a@ =~= b@);
    true
}

/// The whitespace characters recognised by `char::is_whitespace`.
pub open spec fn is_space(c: char) -> bool {
    ||| c == ' '
    ||| c == '\t'
    ||| c == '\n'
    ||| c == '\u{000B}'
    ||| c == '\u{000C}'
    ||| c == '\r'
    ||| c == '\u{0085}'
    ||| c == '\u{00A0}'
    ||| c == '\u{1680}'
    ||| ('\u{2000}' <= c && c <= '\u{200A}')
    ||| c == '\u{2028}'
    ||| c == '\u{2029}'
    ||| c == '\u{202F}'
    ||| c == '\u{205F}'
    ||| c == '\u{3000}'
}

/// Whether `c` is a whitespace character.
pub fn is_space_exec(c: char) -> (r: bool)
    ensures
        r == is_space(c),
{
    c == ' ' || c == '\t' || c == '\n' || c == '\u{000B}' || c == '\u{000C}' || c == '\r'
        || c == '\u{0085}' || c == '\u{00A0}' || c == '\u{1680}'
        || ('\u{2000}' <= c && c <= '\u{200A}') || c == '\u{2028}' || c == '\u{2029}'
        || c == '\u{202F}' || c == '\u{205F}' || c == '\u{3000}'
}

/// The index of the first occurrence of `c` in `s`, or `s.len()` if absent.
pub open spec fn find_char(s: Seq<char>, c: char) -> int
    decreases s.len(),
{
    if s.len() == 0 {
        0
    } else if s[0] == c {
        0
    } else {
        1 + find_char(s.drop_first(), c)
    }
}

pub proof fn lemma_find_char(s: Seq<char>, c: char)
    ensures
        0 <= find_char(s, c) <= s.len(),
        forall|j: int| 0 <= j < find_char(s, c) ==> s[j] != c,
        find_char(s, c) < s.len() ==> s[find_char(s, c)] == c,
    decreases s.len(),
{
    if s.len() > 0 && s[0] != c {
        lemma_find_char(s.drop_first(), c);
        assert forall|j: int| 0 <= j < find_char(s, c) implies s[j] != c by {
            if j > 0 {
                assert(s.drop_first()[j - 1] != c);
            }
        }
    }
}

/// Any index with the properties of `find_char` is `find_char`.
pub proof fn lemma_find_char_unique(s: Seq<char>, c: char, i: int)
    requires
        0 <= i <= s.len(),
        forall|j: int| 0 <= j < i ==> s[j] != c,
        i < s.len() ==> s[i] == c,
    ensures
        i == find_char(s, c),
{
    lemma_find_char(s, c);
    let f = find_char(s, c);
    if i < f {
        assert(s[i] != c);
    } else if f < i {
        assert(s[f] != c);
    }
}

/// Whether `needle` occurs in `hay` starting at index `i`.
pub open spec fn matches_at(hay: Seq<char>, needle: Seq<char>, i: int) -> bool {
    0 <= i && i + needle.len() <= hay.len() && hay.subrange(i, i + needle.len()) == needle
}

/// Whether `needle` occurs anywhere in `hay` (case-sensitive substring match).
pub open spec fn contains_sub(hay: Seq<char>, needle: Seq<char>) -> bool {
    exists|i: int| matches_at(hay, needle, i)
}

fn matches_at_exec(hay: &Vec<char>, needle: &Vec<char>, i: usize) -> (r: bool)
    requires
        i + needle@.len() <= hay@.len(),
    ensures
        r == matches_at(hay@, needle@, i as int),
{
    let n = needle.len();
    let hlen = hay.len();
    let mut j: usize = 0;
    while j < n
        invariant
            n == needle@.len(),
            hlen == hay@.len(),
            i + n <= hlen,
            j <= n,
            forall|k: int| 0 <= k < j ==> hay@[i + k] == needle@[k],
        decreases n - j,
    {
        if hay[i + j] != needle[j] {
            assert(hay@.subrange(i as int, i + n) != needle@) by {
                assert(hay@.subrange(i as int, i + n)[j as int] != needle@[j as int]);
            }
            return false;
        }
        j += 1;
    }
    assert(hay@.subrange(i as int, i + n) =~= needle@);
    true
}

/// Whether the string `needle` occurs in `hay`.
pub fn str_contains(hay: &str, needle: &str) -> (r: bool)
    ensures
        r == contains_sub(hay@, needle@),
{
    let h = chars_of(hay);
    let n = chars_of(needle);
    vec_contains_chars(&h, &n)
}

/// Substring search over character vectors.
pub fn vec_contains_chars(h: &Vec<char>, n: &Vec<char>) -> (r: bool)
    ensures
        r == contains_sub(h@, n@),
{
    if n.len() > h.len() {
        assert(!contains_sub(h@, n@));
        return false;
    }
    if n.len() == 0 {
        assert(matches_at(h@, n@, 0)) by {
            assert(h@.subrange(0, 0) =~= n@);
        }
        return true;
    }
    let hlen = h.len();
    let last = hlen - n.len();
    let mut i: usize = 0;
    while i <= last
        invariant
            1 <= n@.len() <= h@.len(),
            hlen == h@.len(),
            last == h@.len() - n@.len(),
            i <= last + 1,
            forall|k: int| 0 <= k < i ==> !matches_at(h@, n@, k),
        decreases last - i + 1,
    {
        if matches_at_exec(h, n, i) {
            return true;
        }
        i += 1;
    }
    assert(!contains_sub(h@, n@)) by {
        assert forall|k: int| !matches_at(h@, n@, k) by {
            if 0 <= k && k + n@.len() <= h@.len() {
                assert(k < i);
            }
        }
    }
    false
}

/// Whether `s` starts with `prefix`.
pub open spec fn starts_with(s: Seq<char>, prefix: Seq<char>) -> bool {
    matches_at(s, prefix, 0)
}

pub fn vec_starts_with(s: &Vec<char>, prefix: &Vec<char>) -> (r: bool)
    ensures
        r == starts_with(s@, prefix@),
{
    if prefix.len() > s.len() {
        return false;
    }
    matches_at_exec(s, prefix, 0)
}

/// The number of whitespace characters at the front of `s`.
pub open spec fn leading_spaces(s: Seq<char>) -> int
    decreases s.len(),
{
    if s.len() == 0 {
        0
    } else if !is_space(s[0]) {
        0
    } else {
        1 + leading_spaces(s.drop_first())
    }
}

/// The number of whitespace characters at the back of `s`.
pub open spec fn trailing_spaces(s: Seq<char>) -> int
    decreases s.len(),
{
    if s.len() == 0 {
        0
    } else if !is_space(s.last()) {
        0
    } else {
        1 + trailing_spaces(s.drop_last())
    }
}

/// `s` with leading and trailing whitespace removed.
pub open spec fn trim_spec(s: Seq<char>) -> Seq<char> {
    if leading_spaces(s) == s.len() {
        Seq::empty()
    } else {
        s.subrange(leading_spaces(s), s.len() - trailing_spaces(s))
    }
}

pub proof fn lemma_leading_spaces(s: Seq<char>)
    ensures
        0 <= leading_spaces(s) <= s.len(),
        forall|j: int| 0 <= j < leading_spaces(s) ==> is_space(#[trigger] s[j]),
        leading_spaces(s) < s.len() ==> !is_space(s[leading_spaces(s)]),
    decreases s.len(),
{
    if s.len() > 0 && is_space(s[0]) {
        lemma_leading_spaces(s.drop_first());
        assert forall|j: int| 0 <= j < leading_spaces(s) implies is_space(#[trigger] s[j]) by {
            if j > 0 {
                assert(is_space(s.drop_first()[j - 1]));
            }
        }
    }
}

pub proof fn lemma_leading_spaces_unique(s: Seq<char>, i: int)
    requires
        0 <= i <= s.len(),
        forall|j: int| 0 <= j < i ==> is_space(#[trigger] s[j]),
        i < s.len() ==> !is_space(s[i]),
    ensures
        i == leading_spaces(s),
{
    lemma_leading_spaces(s);
    let f = leading_spaces(s);
    if i < f {
        assert(is_space(s[i]));
    } else if f < i {
        assert(is_space(s[f]));
    }
}

pub proof fn lemma_trailing_spaces(s: Seq<char>)
    ensures
        0 <= trailing_spaces(s) <= s.len(),
        forall|j: int| s.len() - trailing_spaces(s) <= j < s.len() ==> is_space(#[trigger] s[j]),
        trailing_spaces(s) < s.len() ==> !is_space(s[s.len() - 1 - trailing_spaces(s)]),
    decreases s.len(),
{
    if s.len() > 0 && is_space(s.last()) {
        lemma_trailing_spaces(s.drop_last());
        assert forall|j: int| s.len() - trailing_spaces(s) <= j < s.len() implies is_space(
            #[trigger] s[j],
        ) by {
            if j < s.len() - 1 {
                assert(is_space(s.drop_last()[j]));
            }
        }
    }
}

pub proof fn lemma_trailing_spaces_unique(s: Seq<char>, t: int)
    requires
        0 <= t <= s.len(),
        forall|j: int| s.len() - t <= j < s.len() ==> is_space(#[trigger] s[j]),
        t < s.len() ==> !is_space(s[s.len() - 1 - t]),
    ensures
        t == trailing_spaces(s),
{
    lemma_trailing_spaces(s);
    let f = trailing_spaces(s);
    if t < f {
        assert(is_space(s[s.len() - 1 - t]));
    } else if f < t {
        assert(is_space(s[s.len() - 1 - f]));
    }
}

/// The characters of `v` between `from` and `to`.
pub fn copy_range(v: &Vec<char>, from: usize, to: usize) -> (r: Vec<char>)
    requires
        from <= to <= v@.len(),
    ensures
        r@ == v@.subrange(from as int, to as int),
{
    let mut r: Vec<char> = Vec::new();
    let mut i: usize = from;
    proof {
        assert(r@ =~= v@.subrange(from as int, from as int));
    }
    while i < to
        invariant
            from <= i <= to <= v@.len(),
            r@ == v@.subrange(from as int, i as int),
        decreases to - i,
    {
        r.push(v[i]);
        proof {
            assert(r@ =~= v@.subrange(from as int, i + 1));
        }
        i += 1;
    }
    r
}

/// The first occurrence of `c` in `v` at or after `from`, as an offset from
/// `from` into the suffix, or the suffix length if absent.
pub fn find_char_from(v: &Vec<char>, from: usize, c: char) -> (r: usize)
    requires
        from <= v@.len(),
    ensures
        r as int == find_char(v@.skip(from as int), c),
{
    let n = v.len();
    let mut i: usize = from;
    while i < n
        invariant
            from <= i <= n,
            n == v@.len(),
            forall|j: int| from <= j < i ==> v@[j] != c,
        decreases n - i,
    {
        if v[i] == c {
            proof {
                assert forall|j: int| 0 <= j < i - from implies v@.skip(from as int)[j] != c by {
                    assert(v@[from + j] != c);
                }
                lemma_find_char_unique(v@.skip(from as int), c, i - from);
            }
            return i - from;
        }
        i += 1;
    }
    proof {
        assert forall|j: int| 0 <= j < n - from implies v@.skip(from as int)[j] != c by {
            assert(v@[from + j] != c);
        }
        lemma_find_char_unique(v@.skip(from as int), c, n - from);
    }
    n - from
}

/// The bounds of `trim_spec` within the range `[from, to)` of `v`.
pub fn trim_range(v: &Vec<char>, from: usize, to: usize) -> (r: (usize, usize))
    requires
        from <= to <= v@.len(),
    ensures
        from <= r.0 <= r.1 <= to,
        v@.subrange(r.0 as int, r.1 as int) == trim_spec(v@.subrange(from as int, to as int)),
{
    let ghost l = v@.subrange(from as int, to as int);
    let mut a: usize = from;
    while a < to && is_space_exec(v[a])
        invariant
            from <= a <= to <= v@.len(),
            forall|j: int| from <= j < a ==> is_space(#[trigger] v@[j]),
        decreases to - a,
    {
        a += 1;
    }
    proof {
        assert forall|j: int| 0 <= j < a - from implies is_space(#[trigger] l[j]) by {
            assert(l[j] == v@[from + j]);
        }
        if a < to {
            assert(l[a - from] == v@[a as int]);
        }
        lemma_leading_spaces_unique(l, a - from);
    }
    if a == to {
        proof {
            assert(v@.subrange(to as int, to as int) =~= trim_spec(l));
        }
        return (to, to);
    }
    let mut b: usize = to;
    while is_space_exec(v[b - 1])
        invariant
            from <= a < b <= to <= v@.len(),
            !is_space(v@[a as int]),
            forall|j: int| b <= j < to ==> is_space(#[trigger] v@[j]),
        decreases b,
    {
        b -= 1;
        proof {
            // The scan cannot pass the non-space character at `a`.
            if b <= a {
                assert(is_space(v@[a as int]));
            }
        }
    }
    proof {
        assert forall|j: int| l.len() - (to - b) <= j < l.len() implies is_space(#[trigger] l[j]) by {
            assert(l[j] == v@[from + j]);
        }
        assert(l[b - 1 - from] == v@[b - 1]);
        lemma_trailing_spaces_unique(l, to - b);
        assert(v@.subrange(a as int, b as int) =~= trim_spec(l));
    }
    (a, b)
}

/// `s` cut to at most `max_len` characters: a longer string keeps its first
/// `max_len - 3` characters and gains a trailing ellipsis.
pub fn truncate(s: &str, max_len: usize) -> (r: String)
    requires
        max_len >= 3,
    ensures
        s@.len() <= max_len ==> r@ == s@,
        s@.len() > max_len ==> r@ == s@.subrange(0, max_len - 3) + "..."@,
{
    let n = s.unicode_len();
    if n <= max_len {
        s.to_owned()
    } else {
        let head = s.substring_char(0, max_len - 3);
        let r = head.to_owned().concat("...");
        r
    }
}

} // verus!
