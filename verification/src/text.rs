//! Character-level text helpers on which the parsers are built: whitespace
//! classes, trimming, searching and splitting, all stated over `Seq<char>`.

use vstd::prelude::*;

verus! {

/// `char::is_whitespace`: the Unicode `White_Space` characters.
pub open spec fn is_ws(c: char) -> bool {
    let u: u32 = c as u32;
    (0x9 <= u <= 0xd) || u == 0x20 || u == 0x85 || u == 0xa0 || u == 0x1680 || (0x2000 <= u
        <= 0x200a) || u == 0x2028 || u == 0x2029 || u == 0x202f || u == 0x205f || u == 0x3000
}

/// `u8::is_ascii_whitespace` read on a character: space, tab, line feed,
/// form feed and carriage return.
pub open spec fn is_ascii_ws(c: char) -> bool {
    c == ' ' || c == '\t' || c == '\n' || c == '\x0C' || c == '\r'
}

pub fn is_whitespace(c: char) -> (r: bool)
    ensures
        r == is_ws(c),
{
    let u: u32 = c as u32;
    (0x9 <= u && u <= 0xd) || u == 0x20 || u == 0x85 || u == 0xa0 || u == 0x1680 || (0x2000 <= u
        && u <= 0x200a) || u == 0x2028 || u == 0x2029 || u == 0x202f || u == 0x205f || u == 0x3000
}

pub fn is_ascii_whitespace(c: char) -> (r: bool)
    ensures
        r == is_ascii_ws(c),
{
    c == ' ' || c == '\t' || c == '\n' || c == '\x0C' || c == '\r'
}

/// ASCII lower-casing of one character.
pub open spec fn ascii_lower(c: char) -> char {
    if 'A' <= c <= 'Z' {
        ((c as u32) + 32) as char
    } else {
        c
    }
}

/// Every character is ASCII.
pub open spec fn all_ascii(s: Seq<char>) -> bool {
    forall|i: int| 0 <= i < s.len() ==> (s[i] as u32) < 128
}

/// `str::eq_ignore_ascii_case`.
pub open spec fn eq_ignore_ascii_case(a: Seq<char>, b: Seq<char>) -> bool {
    a.len() == b.len() && forall|i: int| 0 <= i < a.len() ==> ascii_lower(#[trigger] a[i]) == ascii_lower(b[i])
}

/// What `str::to_lowercase` returns for a string (Unicode lower-casing,
/// which may change the number of characters).
pub uninterp spec fn unicode_lowercase(s: Seq<char>) -> Seq<char>;

/// Calls `str::to_lowercase`; the contract claims that the result is the
/// same function of the argument's characters every time (its value is
/// named, not described in general), and that on ASCII text it is plain
/// ASCII lower-casing, character by character (the Unicode lowercase
/// mapping of an ASCII character is its ASCII lowercase).
#[verifier::external_body]
pub(crate) fn to_lowercase(s: &str) -> (r: String)
    ensures
        r@ == unicode_lowercase(s@),
        all_ascii(s@) ==> r@ == s@.map_values(|c: char| ascii_lower(c)),
{
    s.to_lowercase()
}

/// What `char::is_alphanumeric` returns for a character (alphabetic or
/// numeric in the Unicode tables of the standard library).
pub uninterp spec fn unicode_alphanumeric(c: char) -> bool;

/// Calls `char::is_alphanumeric`; the contract claims that the result is
/// the same function of the character every time (its value is named, not
/// described in general), and that among ASCII characters exactly the
/// digits and the letters are alphanumeric.
#[verifier::external_body]
pub(crate) fn is_alphanumeric(c: char) -> (r: bool)
    ensures
        r == unicode_alphanumeric(c),
        (c as u32) < 128 ==> r == (('0' <= c <= '9') || ('A' <= c <= 'Z') || ('a' <= c <= 'z')),
{
    c.is_alphanumeric()
}

/// `char::len_utf8`: how many bytes the UTF-8 encoding of `c` takes.
pub open spec fn utf8_width(c: char) -> int {
    let u: u32 = c as u32;
    if u < 0x80 {
        1
    } else if u < 0x800 {
        2
    } else if u < 0x10000 {
        3
    } else {
        4
    }
}

/// How many bytes the UTF-8 encoding of `s` takes (`str::len` of a string
/// holding `s`).
pub open spec fn utf8_len(s: Seq<char>) -> int
    decreases s.len(),
{
    if s.len() == 0 {
        0
    } else {
        utf8_len(s.drop_last()) + utf8_width(s.last())
    }
}

pub proof fn lemma_utf8_len_bounds(s: Seq<char>)
    ensures
        s.len() <= utf8_len(s) <= 4 * s.len(),
    decreases s.len(),
{
    if s.len() > 0 {
        lemma_utf8_len_bounds(s.drop_last());
    }
}

pub proof fn lemma_utf8_len_concat(a: Seq<char>, b: Seq<char>)
    ensures
        utf8_len(a + b) == utf8_len(a) + utf8_len(b),
    decreases b.len(),
{
    if b.len() == 0 {
        assert(a + b =~= a);
    } else {
        lemma_utf8_len_concat(a, b.drop_last());
        assert((a + b).drop_last() =~= a + b.drop_last());
        assert((a + b).last() == b.last());
    }
}

/// The encoding of `s[k..]` is that of `s[k]` followed by that of `s[k+1..]`.
pub proof fn lemma_utf8_len_front(s: Seq<char>, k: int)
    requires
        0 <= k < s.len(),
    ensures
        utf8_len(s.subrange(k, s.len() as int)) == utf8_width(s[k]) + utf8_len(s.subrange(k + 1, s.len() as int)),
{
    let one = seq![s[k]];
    assert(s.subrange(k, s.len() as int) =~= one + s.subrange(k + 1, s.len() as int));
    lemma_utf8_len_concat(one, s.subrange(k + 1, s.len() as int));
    assert(one.drop_last() =~= Seq::<char>::empty());
    assert(utf8_len(Seq::<char>::empty()) == 0);
    assert(utf8_len(one) == utf8_len(one.drop_last()) + utf8_width(one.last()));
}

pub fn utf8_width_of(c: char) -> (r: u128)
    ensures
        r == utf8_width(c),
{
    let u: u32 = c as u32;
    if u < 0x80 {
        1
    } else if u < 0x800 {
        2
    } else if u < 0x10000 {
        3
    } else {
        4
    }
}

/// How many bytes the UTF-8 encoding of `s[lo..hi]` takes.
pub fn utf8_len_of(s: &Vec<char>, lo: usize, hi: usize) -> (r: u128)
    requires
        lo <= hi <= s.len(),
    ensures
        r == utf8_len(s@.subrange(lo as int, hi as int)),
        r <= 4 * (hi - lo),
{
    let mut sum: u128 = 0;
    let mut i: usize = lo;
    while i < hi
        invariant
            lo <= i <= hi <= s.len(),
            sum == utf8_len(s@.subrange(lo as int, i as int)),
            sum <= 4 * (i - lo),
        decreases hi - i,
    {
        proof {
            assert(s@.subrange(lo as int, i + 1).drop_last() =~= s@.subrange(lo as int, i as int));
        }
        sum = sum + utf8_width_of(s[i]);
        i += 1;
    }
    sum
}

/// An optional string as optional characters.
pub open spec fn opt_chars(o: Option<String>) -> Option<Seq<char>> {
    match o {
        Some(s) => Some(s@),
        None => None,
    }
}

/// Calls `String::push`; the contract claims that the string's characters
/// afterwards are the ones before followed by `c`.
#[verifier::external_body]
pub(crate) fn push_char(s: &mut String, c: char)
    ensures
        final(s)@ == old(s)@.push(c),
{
    s.push(c);
}

/// The characters of a string slice, in order.
pub fn chars_of(s: &str) -> (v: Vec<char>)
    ensures
        v@ == s@,
{
    let mut v: Vec<char> = Vec::new();
    for c in it: s.chars()
        invariant
            v@ == it.seq().take(it.index() as int),
    {
        v.push(c);
    }
    v
}

/// A `String` holding the characters `s[lo..hi]`.
pub fn string_of(s: &Vec<char>, lo: usize, hi: usize) -> (r: String)
    requires
        lo <= hi <= s.len(),
    ensures
        r@ == s@.subrange(lo as int, hi as int),
{
    let mut r = String::new();
    let mut i: usize = lo;
    while i < hi
        invariant
            lo <= i <= hi <= s.len(),
            r@ == s@.subrange(lo as int, i as int),
        decreases hi - i,
    {
        push_char(&mut r, s[i]);
        i += 1;
        assert(r@ =~= s@.subrange(lo as int, i as int));
    }
    r
}

/// The characters `s[lo..hi]` as a new vector.
pub fn sub_chars(s: &Vec<char>, lo: usize, hi: usize) -> (r: Vec<char>)
    requires
        lo <= hi <= s.len(),
    ensures
        r@ == s@.subrange(lo as int, hi as int),
{
    let mut r: Vec<char> = Vec::new();
    let mut i: usize = lo;
    while i < hi
        invariant
            lo <= i <= hi <= s.len(),
            r@ == s@.subrange(lo as int, i as int),
        decreases hi - i,
    {
        r.push(s[i]);
        i += 1;
        assert(r@ =~= s@.subrange(lo as int, i as int));
    }
    r
}

/// Number of leading whitespace characters.
pub open spec fn leading_ws(s: Seq<char>) -> nat
    decreases s.len(),
{
    if s.len() > 0 && is_ws(s[0]) {
        1 + leading_ws(s.drop_first())
    } else {
        0
    }
}

/// Number of trailing whitespace characters.
pub open spec fn trailing_ws(s: Seq<char>) -> nat
    decreases s.len(),
{
    if s.len() > 0 && is_ws(s.last()) {
        1 + trailing_ws(s.drop_last())
    } else {
        0
    }
}

/// `str::trim_start`.
pub open spec fn trim_start(s: Seq<char>) -> Seq<char> {
    s.subrange(leading_ws(s) as int, s.len() as int)
}

/// `str::trim_end`.
pub open spec fn trim_end(s: Seq<char>) -> Seq<char> {
    s.subrange(0, s.len() - trailing_ws(s))
}

/// `str::trim`.
pub open spec fn trim(s: Seq<char>) -> Seq<char> {
    trim_end(trim_start(s))
}

pub proof fn lemma_leading_ws(s: Seq<char>, i: int)
    requires
        0 <= i <= s.len(),
        forall|k: int| 0 <= k < i ==> is_ws(#[trigger] s[k]),
        i == s.len() || !is_ws(s[i]),
    ensures
        leading_ws(s) == i,
    decreases i,
{
    if i > 0 {
        lemma_leading_ws(s.drop_first(), i - 1);
    }
}

pub proof fn lemma_trailing_ws(s: Seq<char>, j: int)
    requires
        0 <= j <= s.len(),
        forall|k: int| j <= k < s.len() ==> is_ws(#[trigger] s[k]),
        j == 0 || !is_ws(s[j - 1]),
    ensures
        trailing_ws(s) == s.len() - j,
    decreases s.len() - j,
{
    if j < s.len() {
        lemma_trailing_ws(s.drop_last(), j);
    }
}

pub proof fn lemma_leading_ws_bound(s: Seq<char>)
    ensures
        leading_ws(s) <= s.len(),
        forall|k: int| 0 <= k < leading_ws(s) ==> is_ws(#[trigger] s[k]),
        leading_ws(s) < s.len() ==> !is_ws(s[leading_ws(s) as int]),
    decreases s.len(),
{
    if s.len() > 0 && is_ws(s[0]) {
        lemma_leading_ws_bound(s.drop_first());
        assert forall|k: int| 0 <= k < leading_ws(s) implies is_ws(#[trigger] s[k]) by {
            if k > 0 {
                assert(s[k] == s.drop_first()[k - 1]);
            }
        }
    }
}

pub proof fn lemma_trailing_ws_bound(s: Seq<char>)
    ensures
        trailing_ws(s) <= s.len(),
        trailing_ws(s) < s.len() ==> !is_ws(s[s.len() - 1 - trailing_ws(s)]),
    decreases s.len(),
{
    if s.len() > 0 && is_ws(s.last()) {
        lemma_trailing_ws_bound(s.drop_last());
    }
}

/// A trimmed text that is not empty neither starts nor ends with
/// whitespace.
pub proof fn lemma_trim_edges(s: Seq<char>)
    ensures
        trim(s).len() > 0 ==> !is_ws(trim(s)[0]) && !is_ws(trim(s).last()),
{
    lemma_leading_ws_bound(s);
    lemma_trailing_ws_bound(trim_start(s));
}

/// Trimming never lengthens.
pub proof fn lemma_trim_len(s: Seq<char>)
    ensures
        trim(s).len() <= s.len(),
{
    lemma_leading_ws_bound(s);
    lemma_trailing_ws_bound(trim_start(s));
}

/// Bounds `(a, b)` such that `s[a..b]` is `trim(s[lo..hi])`.
pub fn trim_bounds(s: &Vec<char>, lo: usize, hi: usize) -> (r: (usize, usize))
    requires
        lo <= hi <= s.len(),
    ensures
        lo <= r.0 <= r.1 <= hi,
        s@.subrange(r.0 as int, r.1 as int) == trim(s@.subrange(lo as int, hi as int)),
        s@.subrange(r.0 as int, hi as int) == trim_start(s@.subrange(lo as int, hi as int)),
{
    let ghost t = s@.subrange(lo as int, hi as int);
    let mut a: usize = lo;
    while a < hi && is_whitespace(s[a])
        invariant
            lo <= a <= hi <= s.len(),
            t == s@.subrange(lo as int, hi as int),
            forall|k: int| lo <= k < a ==> is_ws(#[trigger] s@[k]),
        decreases hi - a,
    {
        a += 1;
    }
    proof {
        assert forall|k: int| 0 <= k < a - lo implies is_ws(#[trigger] t[k]) by {
            assert(t[k] == s@[lo + k]);
        }
        lemma_leading_ws(t, a - lo);
        assert(trim_start(t) =~= s@.subrange(a as int, hi as int));
    }
    let mut b: usize = hi;
    while b > a && is_whitespace(s[b - 1])
        invariant
            lo <= a <= b <= hi <= s.len(),
            forall|k: int| b <= k < hi ==> is_ws(#[trigger] s@[k]),
        decreases b - a,
    {
        b -= 1;
    }
    proof {
        let u = s@.subrange(a as int, hi as int);
        assert forall|k: int| b - a <= k < u.len() implies is_ws(#[trigger] u[k]) by {
            assert(u[k] == s@[a + k]);
        }
        lemma_trailing_ws(u, b - a);
        assert(trim_end(u) =~= s@.subrange(a as int, b as int));
    }
    (a, b)
}

/// Whether `p` occurs in `s` at index `i`.
pub open spec fn occurs_at(s: Seq<char>, p: Seq<char>, i: int) -> bool {
    0 <= i && i + p.len() <= s.len() && s.subrange(i, i + p.len()) == p
}

/// `str::find` on `s[i..]`, as an index into `s`: the first occurrence of
/// `p` at or after `i`.
pub open spec fn find_from(s: Seq<char>, p: Seq<char>, i: int) -> Option<int>
    decreases s.len() + 1 - i,
{
    if i < 0 || i + p.len() > s.len() {
        None
    } else if s.subrange(i, i + p.len()) == p {
        Some(i)
    } else {
        find_from(s, p, i + 1)
    }
}

pub proof fn lemma_find_from(s: Seq<char>, p: Seq<char>, i: int)
    requires
        0 <= i,
    ensures
        find_from(s, p, i) matches Some(k) ==> i <= k && occurs_at(s, p, k) && forall|j: int|
            i <= j < k ==> !occurs_at(s, p, j),
        find_from(s, p, i) is None ==> forall|j: int| i <= j ==> !occurs_at(s, p, j),
    decreases s.len() + 1 - i,
{
    if i + p.len() > s.len() {
    } else if s.subrange(i, i + p.len()) == p {
    } else {
        lemma_find_from(s, p, i + 1);
    }
}

/// Whether `p` occurs in `s` (`str::contains`).
pub open spec fn contains(s: Seq<char>, p: Seq<char>) -> bool {
    find_from(s, p, 0) is Some
}

/// Whether `s` has `p` at index `i` (executable).
pub fn matches_at(s: &Vec<char>, p: &Vec<char>, i: usize) -> (r: bool)
    ensures
        r == occurs_at(s@, p@, i as int),
{
    if i > s.len() || p.len() > s.len() - i {
        return false;
    }
    let mut k: usize = 0;
    while k < p.len()
        invariant
            i + p.len() <= s.len(),
            k <= p.len(),
            forall|j: int| 0 <= j < k ==> s@[i + j] == p@[j],
        decreases p.len() - k,
    {
        if s[i + k] != p[k] {
            assert(s@.subrange(i as int, i + p.len())[k as int] != p@[k as int]);
            return false;
        }
        k += 1;
    }
    assert(s@.subrange(i as int, i + p.len()) =~= p@);
    true
}

/// The first occurrence of `p` in `s` at or after `from`.
pub fn find(s: &Vec<char>, p: &Vec<char>, from: usize) -> (r: Option<usize>)
    ensures
        r matches Some(k) ==> find_from(s@, p@, from as int) == Some(k as int),
        r is None ==> find_from(s@, p@, from as int) is None,
        r matches Some(k) ==> from <= k && k + p.len() <= s.len(),
{
    if from > s.len() {
        return None;
    }
    let mut i: usize = from;
    while i <= s.len()
        invariant
            from <= i <= s.len() + 1,
            i <= s.len() ==> find_from(s@, p@, from as int) == find_from(s@, p@, i as int),
            i > s.len() ==> find_from(s@, p@, from as int) is None,
        decreases s.len() + 1 - i,
    {
        if p.len() > s.len() - i {
            return None;
        }
        if matches_at(s, p, i) {
            return Some(i);
        }
        if i == s.len() {
            assert(s@.subrange(i as int, i as int) =~= Seq::<char>::empty());
            assert(p@.len() > 0) by {
                if p@.len() == 0 {
                    assert(s@.subrange(i as int, i as int) =~= p@);
                }
            }
            assert(find_from(s@, p@, i as int) is None);
            return None;
        }
        i += 1;
    }
    None
}

/// Whether two character vectors are equal.
pub fn chars_eq(a: &Vec<char>, b: &Vec<char>) -> (r: bool)
    ensures
        r == (a@ == b@),
{
    if a.len() != b.len() {
        return false;
    }
    let mut i: usize = 0;
    while i < a.len()
        invariant
            a.len() == b.len(),
            i <= a.len(),
            forall|j: int| 0 <= j < i ==> a@[j] == b@[j],
        decreases a.len() - i,
    {
        if a[i] != b[i] {
            return false;
        }
        i += 1;
    }
    assert(a@ =~= b@);
    true
}

/// Whether two string slices are equal.
pub fn str_eq(a: &str, b: &str) -> (r: bool)
    ensures
        r == (a@ == b@),
{
    let va = chars_of(a);
    let vb = chars_of(b);
    chars_eq(&va, &vb)
}

/// `str::eq_ignore_ascii_case`.
pub fn str_eq_ignore_ascii_case(a: &str, b: &str) -> (r: bool)
    ensures
        r == eq_ignore_ascii_case(a@, b@),
{
    let va = chars_of(a);
    let vb = chars_of(b);
    chars_eq_ignore_ascii_case(&va, &vb)
}

/// ASCII lower-casing of one character.
pub fn to_ascii_lower(c: char) -> (r: char)
    ensures
        r == ascii_lower(c),
{
    if 'A' <= c && c <= 'Z' {
        let b: u8 = (c as u8) + 32;
        b as char
    } else {
        c
    }
}

/// `eq_ignore_ascii_case` on character vectors.
pub fn chars_eq_ignore_ascii_case(a: &Vec<char>, b: &Vec<char>) -> (r: bool)
    ensures
        r == eq_ignore_ascii_case(a@, b@),
{
    if a.len() != b.len() {
        return false;
    }
    let mut i: usize = 0;
    while i < a.len()
        invariant
            a.len() == b.len(),
            i <= a.len(),
            forall|j: int| 0 <= j < i ==> ascii_lower(#[trigger] a@[j]) == ascii_lower(b@[j]),
        decreases a.len() - i,
    {
        if to_ascii_lower(a[i]) != to_ascii_lower(b[i]) {
            return false;
        }
        i += 1;
    }
    true
}

/// A string literal's characters.
pub fn lit(s: &str) -> (v: Vec<char>)
    ensures
        v@ == s@,
{
    chars_of(s)
}


/// The pieces of `s[i..]` between occurrences of `d` (`str::split` on a
/// character): `n` separators give `n + 1` pieces, empty ones included.
pub open spec fn split_from(s: Seq<char>, d: char, i: int) -> Seq<Seq<char>>
    decreases s.len() + 1 - i,
{
    if i < 0 || i > s.len() {
        Seq::empty()
    } else {
        match find_from(s, seq![d], i) {
            Some(k) => if i <= k < s.len() {
                seq![s.subrange(i, k)] + split_from(s, d, k + 1)
            } else {
                Seq::empty()
            },
            None => seq![s.subrange(i, s.len() as int)],
        }
    }
}

/// `str::split` on a character.
pub open spec fn split(s: Seq<char>, d: char) -> Seq<Seq<char>> {
    split_from(s, d, 0)
}

/// The bounds of the pieces of `s[i..]` between occurrences of `d`.
pub fn split_bounds(s: &Vec<char>, d: char, i: usize) -> (r: Vec<(usize, usize)>)
    requires
        i <= s.len(),
    ensures
        r@.len() == split_from(s@, d, i as int).len(),
        forall|j: int|
            0 <= j < r@.len() ==> (#[trigger] r@[j]).0 <= r@[j].1 <= s.len() && s@.subrange(
                r@[j].0 as int,
                r@[j].1 as int,
            ) == split_from(s@, d, i as int)[j],
{
    let dv = vec![d];
    assert(dv@ =~= seq![d]);
    let mut r: Vec<(usize, usize)> = Vec::new();
    let mut pos: usize = i;
    let ghost total = split_from(s@, d, i as int);
    loop
        invariant
            i <= pos <= s.len(),
            dv@ == seq![d],
            total == split_from(s@, d, i as int),
            forall|j: int|
                0 <= j < r@.len() ==> (#[trigger] r@[j]).0 <= r@[j].1 <= s.len() && s@.subrange(
                    r@[j].0 as int,
                    r@[j].1 as int,
                ) == total[j],
            total == r@.map_values(|b: (usize, usize)| s@.subrange(b.0 as int, b.1 as int)) + split_from(s@, d, pos as int),
        decreases s.len() - pos,
    {
        let ghost before = r@;
        match find(s, &dv, pos) {
            Some(k) => {
                proof {
                    lemma_find_from(s@, seq![d], pos as int);
                }
                r.push((pos, k));
                proof {
                    assert(split_from(s@, d, pos as int) == seq![s@.subrange(pos as int, k as int)] + split_from(s@, d, k + 1));
                    assert(r@.map_values(|b: (usize, usize)| s@.subrange(b.0 as int, b.1 as int)) =~= before.map_values(|b: (usize, usize)| s@.subrange(b.0 as int, b.1 as int)).push(s@.subrange(pos as int, k as int)));
                    assert(total =~= r@.map_values(|b: (usize, usize)| s@.subrange(b.0 as int, b.1 as int)) + split_from(s@, d, k + 1));
                    assert forall|j: int| 0 <= j < r@.len() implies (#[trigger] r@[j]).0 <= r@[j].1 <= s.len() && s@.subrange(
                        r@[j].0 as int,
                        r@[j].1 as int,
                    ) == total[j] by {
                        if j < before.len() {
                            assert(r@[j] == before[j]);
                        } else {
                            assert(total[j] == r@.map_values(|b: (usize, usize)| s@.subrange(b.0 as int, b.1 as int))[j]);
                        }
                    }
                }
                pos = k + 1;
            },
            None => {
                r.push((pos, s.len()));
                proof {
                    assert(split_from(s@, d, pos as int) == seq![s@.subrange(pos as int, s.len() as int)]);
                    assert(r@.map_values(|b: (usize, usize)| s@.subrange(b.0 as int, b.1 as int)) =~= before.map_values(|b: (usize, usize)| s@.subrange(b.0 as int, b.1 as int)).push(s@.subrange(pos as int, s.len() as int)));
                    assert(total =~= r@.map_values(|b: (usize, usize)| s@.subrange(b.0 as int, b.1 as int)));
                    assert forall|j: int| 0 <= j < r@.len() implies (#[trigger] r@[j]).0 <= r@[j].1 <= s.len() && s@.subrange(
                        r@[j].0 as int,
                        r@[j].1 as int,
                    ) == total[j] by {
                        if j < before.len() {
                            assert(r@[j] == before[j]);
                        } else {
                            assert(total[j] == r@.map_values(|b: (usize, usize)| s@.subrange(b.0 as int, b.1 as int))[j]);
                        }
                    }
                }
                return r;
            },
        }
    }
}

/// The text after the first `pat` of `tag` up to the next `quote`.
pub open spec fn quoted_after(tag: Seq<char>, pat: Seq<char>, quote: char) -> Option<Seq<char>> {
    match find_from(tag, pat, 0) {
        Some(p) => match find_from(tag, seq![quote], p + pat.len()) {
            Some(e) => Some(tag.subrange(p + pat.len(), e)),
            None => None,
        },
        None => None,
    }
}

/// `quoted_after` on characters.
pub fn quoted_after_chars(tag: &Vec<char>, pat: &str, quote: char) -> (r: Option<String>)
    ensures
        opt_chars(r) == quoted_after(tag@, pat@, quote),
{
    let p = lit(pat);
    let q = vec![quote];
    assert(q@ =~= seq![quote]);
    match find(tag, &p, 0) {
        Some(pos) => {
            let start = pos + p.len();
            match find(tag, &q, start) {
                Some(end) => Some(string_of(tag, start, end)),
                None => None,
            }
        },
        None => None,
    }
}

/// A piece without its final carriage return, if it has one.
pub open spec fn strip_cr(p: Seq<char>) -> Seq<char> {
    if p.len() > 0 && p.last() == '\r' {
        p.drop_last()
    } else {
        p
    }
}

/// `str::lines`: the pieces between `\n`s, each without the `\r` of a
/// `\r\n` ending; a final empty piece (after a last `\n`, or of an empty
/// text) is no line.
pub open spec fn lines(s: Seq<char>) -> Seq<Seq<char>> {
    let ps = split(s, '\n');
    if ps.len() == 0 {
        Seq::empty()
    } else {
        let init = ps.drop_last().map_values(|p: Seq<char>| strip_cr(p));
        if ps.last().len() == 0 {
            init
        } else {
            init.push(ps.last())
        }
    }
}

/// The bounds of the lines of `s`.
pub fn line_bounds(s: &Vec<char>) -> (r: Vec<(usize, usize)>)
    ensures
        r@.len() == lines(s@).len(),
        forall|j: int|
            0 <= j < r@.len() ==> (#[trigger] r@[j]).0 <= r@[j].1 <= s.len() && s@.subrange(
                r@[j].0 as int,
                r@[j].1 as int,
            ) == lines(s@)[j],
{
    let pieces = split_bounds(s, '\n', 0);
    let ghost ps = split(s@, '\n');
    let n = pieces.len();
    let mut r: Vec<(usize, usize)> = Vec::new();
    if n == 0 {
        return r;
    }
    let ghost init = ps.drop_last().map_values(|p: Seq<char>| strip_cr(p));
    let mut j: usize = 0;
    while j + 1 < n
        invariant
            n == pieces@.len(),
            n == ps.len(),
            n > 0,
            ps == split(s@, '\n'),
            init == ps.drop_last().map_values(|p: Seq<char>| strip_cr(p)),
            forall|t: int|
                0 <= t < pieces@.len() ==> (#[trigger] pieces@[t]).0 <= pieces@[t].1 <= s.len()
                    && s@.subrange(pieces@[t].0 as int, pieces@[t].1 as int) == ps[t],
            j + 1 <= n,
            r@.len() == j,
            forall|t: int|
                0 <= t < j ==> (#[trigger] r@[t]).0 <= r@[t].1 <= s.len() && s@.subrange(
                    r@[t].0 as int,
                    r@[t].1 as int,
                ) == init[t],
        decreases n - j,
    {
        let (lo, hi) = pieces[j];
        let ghost piece = ps[j as int];
        assert(init[j as int] == strip_cr(piece));
        if hi > lo && s[hi - 1] == '\r' {
            proof {
                assert(piece.last() == s@[hi - 1]);
                assert(piece.drop_last() =~= s@.subrange(lo as int, hi - 1));
            }
            r.push((lo, hi - 1));
        } else {
            r.push((lo, hi));
        }
        j += 1;
    }
    let (lo, hi) = pieces[n - 1];
    if hi > lo {
        r.push((lo, hi));
        proof {
            assert(ps.last() == ps[n - 1]);
        }
    }
    proof {
        assert(ps.last() == ps[n - 1]);
        assert(init.len() == n - 1);
    }
    r
}

/// `s[i..]` with every occurrence of the non-empty `pat` removed, left to
/// right (`str::replace(pat, "")`).
pub open spec fn remove_all_from(s: Seq<char>, pat: Seq<char>, i: int) -> Seq<char>
    decreases s.len() + 1 - i,
{
    if i < 0 || i > s.len() || pat.len() == 0 {
        Seq::empty()
    } else {
        match find_from(s, pat, i) {
            Some(k) => if i <= k && k + pat.len() <= s.len() {
                s.subrange(i, k) + remove_all_from(s, pat, k + pat.len())
            } else {
                Seq::empty()
            },
            None => s.subrange(i, s.len() as int),
        }
    }
}

/// `s[lo..hi]` with every occurrence of the non-empty `pat` removed.
pub fn remove_all(s: &Vec<char>, pat: &Vec<char>) -> (r: Vec<char>)
    requires
        pat.len() > 0,
    ensures
        r@ == remove_all_from(s@, pat@, 0),
{
    let mut r: Vec<char> = Vec::new();
    let mut pos: usize = 0;
    let ghost total = remove_all_from(s@, pat@, 0);
    loop
        invariant
            pos <= s.len(),
            pat.len() > 0,
            total == remove_all_from(s@, pat@, 0),
            total == r@ + remove_all_from(s@, pat@, pos as int),
        decreases s.len() - pos,
    {
        match find(s, pat, pos) {
            Some(k) => {
                let piece = sub_chars(s, pos, k);
                let ghost before = r@;
                let mut j: usize = 0;
                while j < piece.len()
                    invariant
                        j <= piece.len(),
                        r@ == before + piece@.subrange(0, j as int),
                    decreases piece.len() - j,
                {
                    r.push(piece[j]);
                    j += 1;
                    assert(r@ =~= before + piece@.subrange(0, j as int));
                }
                proof {
                    assert(piece@.subrange(0, piece@.len() as int) =~= piece@);
                    assert(remove_all_from(s@, pat@, pos as int) == s@.subrange(pos as int, k as int) + remove_all_from(s@, pat@, k + pat.len()));
                    assert(total =~= r@ + remove_all_from(s@, pat@, k + pat.len()));
                }
                pos = k + pat.len();
            },
            None => {
                let piece = sub_chars(s, pos, s.len());
                let ghost before = r@;
                let mut j: usize = 0;
                while j < piece.len()
                    invariant
                        j <= piece.len(),
                        r@ == before + piece@.subrange(0, j as int),
                    decreases piece.len() - j,
                {
                    r.push(piece[j]);
                    j += 1;
                    assert(r@ =~= before + piece@.subrange(0, j as int));
                }
                proof {
                    assert(piece@.subrange(0, piece@.len() as int) =~= piece@);
                    assert(total =~= r@);
                }
                return r;
            },
        }
    }
}

/// `str::contains` on character vectors.
pub fn contains_chars(s: &Vec<char>, p: &Vec<char>) -> (r: bool)
    ensures
        r == contains(s@, p@),
{
    find(s, p, 0).is_some()
}

/// The first index at or after `i` whose character satisfies `stop` (or
/// the end of `h`).
pub open spec fn scan_until(h: Seq<char>, i: int, stop: spec_fn(char) -> bool) -> int
    decreases h.len() - i,
{
    if 0 <= i < h.len() && !stop(h[i]) {
        scan_until(h, i + 1, stop)
    } else {
        i
    }
}

/// Membership in a set of stop characters.
pub open spec fn in_set(stops: Seq<char>) -> spec_fn(char) -> bool {
    |c: char| stops.contains(c)
}

/// Every character but a space stops a scan.
pub open spec fn not_space() -> spec_fn(char) -> bool {
    |c: char| c != ' '
}

pub proof fn lemma_scan_until(h: Seq<char>, i: int, stop: spec_fn(char) -> bool)
    requires
        0 <= i,
    ensures
        i <= scan_until(h, i, stop),
        i <= h.len() ==> scan_until(h, i, stop) <= h.len(),
        i >= h.len() ==> scan_until(h, i, stop) == i,
        forall|k: int| i <= k < scan_until(h, i, stop) ==> !stop(#[trigger] h[k]),
        scan_until(h, i, stop) < h.len() ==> stop(h[scan_until(h, i, stop)]),
    decreases h.len() - i,
{
    if 0 <= i < h.len() && !stop(h[i]) {
        lemma_scan_until(h, i + 1, stop);
    }
}


/// Whitespace or a CSS combinator (`>`, `+`, `~`).
pub open spec fn is_combinator_sep(c: char) -> bool {
    is_ws(c) || c == '>' || c == '+' || c == '~'
}

/// The separators a split can use: Unicode whitespace (mode 0), or
/// whitespace and CSS combinators (mode 1).
pub open spec fn sep_of(mode: u8) -> spec_fn(char) -> bool {
    if mode == 0 {
        |c: char| is_ws(c)
    } else {
        |c: char| is_combinator_sep(c)
    }
}

fn is_sep(mode: u8, c: char) -> (r: bool)
    ensures
        r == sep_of(mode)(c),
{
    if mode == 0 {
        is_whitespace(c)
    } else {
        is_whitespace(c) || c == '>' || c == '+' || c == '~'
    }
}

/// The pieces of `s[i..]` between separator characters (`str::split` with
/// a predicate).
pub open spec fn split_by_from(s: Seq<char>, stop: spec_fn(char) -> bool, i: int) -> Seq<Seq<char>>
    decreases s.len() + 1 - i,
{
    if i < 0 || i > s.len() {
        Seq::empty()
    } else {
        let k = scan_until(s, i, stop);
        if i <= k < s.len() {
            seq![s.subrange(i, k)] + split_by_from(s, stop, k + 1)
        } else {
            seq![s.subrange(i, s.len() as int)]
        }
    }
}

/// The non-empty pieces of a split.
pub open spec fn non_empty(pieces: Seq<Seq<char>>) -> Seq<Seq<char>> {
    pieces.filter(|p: Seq<char>| p.len() > 0)
}

/// `str::split_whitespace`: the non-empty pieces between Unicode
/// whitespace.
pub open spec fn words(s: Seq<char>) -> Seq<Seq<char>> {
    non_empty(split_by_from(s, sep_of(0), 0))
}

/// The bounds of the pieces of `s` between separators of the given mode,
/// empty pieces included.
pub fn split_sep_bounds(s: &Vec<char>, mode: u8) -> (r: Vec<(usize, usize)>)
    ensures
        r@.len() == split_by_from(s@, sep_of(mode), 0).len(),
        forall|j: int|
            0 <= j < r@.len() ==> (#[trigger] r@[j]).0 <= r@[j].1 <= s.len() && s@.subrange(
                r@[j].0 as int,
                r@[j].1 as int,
            ) == split_by_from(s@, sep_of(mode), 0)[j],
{
    let ghost stop = sep_of(mode);
    let ghost total = split_by_from(s@, stop, 0);
    let mut r: Vec<(usize, usize)> = Vec::new();
    let mut pos: usize = 0;
    loop
        invariant
            pos <= s.len(),
            stop == sep_of(mode),
            total == split_by_from(s@, stop, 0),
            forall|j: int|
                0 <= j < r@.len() ==> (#[trigger] r@[j]).0 <= r@[j].1 <= s.len() && s@.subrange(
                    r@[j].0 as int,
                    r@[j].1 as int,
                ) == total[j],
            total == r@.map_values(|b: (usize, usize)| s@.subrange(b.0 as int, b.1 as int)) + split_by_from(s@, stop, pos as int),
        decreases s.len() - pos,
    {
        let ghost before = r@;
        let mut k: usize = pos;
        while k < s.len() && !is_sep(mode, s[k])
            invariant
                pos <= k <= s.len(),
                stop == sep_of(mode),
                scan_until(s@, pos as int, stop) == scan_until(s@, k as int, stop),
            decreases s.len() - k,
        {
            k += 1;
        }
        proof {
            lemma_scan_until(s@, pos as int, stop);
        }
        if k < s.len() {
            r.push((pos, k));
            proof {
                assert(split_by_from(s@, stop, pos as int) == seq![s@.subrange(pos as int, k as int)] + split_by_from(s@, stop, k + 1));
                assert(r@.map_values(|b: (usize, usize)| s@.subrange(b.0 as int, b.1 as int)) =~= before.map_values(|b: (usize, usize)| s@.subrange(b.0 as int, b.1 as int)).push(s@.subrange(pos as int, k as int)));
                assert(total =~= r@.map_values(|b: (usize, usize)| s@.subrange(b.0 as int, b.1 as int)) + split_by_from(s@, stop, k + 1));
                assert forall|j: int| 0 <= j < r@.len() implies (#[trigger] r@[j]).0 <= r@[j].1 <= s.len() && s@.subrange(
                    r@[j].0 as int,
                    r@[j].1 as int,
                ) == total[j] by {
                    if j < before.len() {
                        assert(r@[j] == before[j]);
                    } else {
                        assert(total[j] == r@.map_values(|b: (usize, usize)| s@.subrange(b.0 as int, b.1 as int))[j]);
                    }
                }
            }
            pos = k + 1;
        } else {
            r.push((pos, s.len()));
            proof {
                assert(split_by_from(s@, stop, pos as int) == seq![s@.subrange(pos as int, s.len() as int)]);
                assert(r@.map_values(|b: (usize, usize)| s@.subrange(b.0 as int, b.1 as int)) =~= before.map_values(|b: (usize, usize)| s@.subrange(b.0 as int, b.1 as int)).push(s@.subrange(pos as int, s.len() as int)));
                assert(total =~= r@.map_values(|b: (usize, usize)| s@.subrange(b.0 as int, b.1 as int)));
                assert forall|j: int| 0 <= j < r@.len() implies (#[trigger] r@[j]).0 <= r@[j].1 <= s.len() && s@.subrange(
                    r@[j].0 as int,
                    r@[j].1 as int,
                ) == total[j] by {
                    if j < before.len() {
                        assert(r@[j] == before[j]);
                    } else {
                        assert(total[j] == r@.map_values(|b: (usize, usize)| s@.subrange(b.0 as int, b.1 as int))[j]);
                    }
                }
            }
            return r;
        }
    }
}

/// The words of `s` (`str::split_whitespace`), as character vectors.
pub fn split_whitespace_chars(s: &Vec<char>) -> (r: Vec<Vec<char>>)
    ensures
        r@.map_values(|w: Vec<char>| w@) == words(s@),
{
    let bounds = split_sep_bounds(s, 0);
    let ghost pieces = split_by_from(s@, sep_of(0), 0);
    let mut r: Vec<Vec<char>> = Vec::new();
    let mut j: usize = 0;
    while j < bounds.len()
        invariant
            j <= bounds.len(),
            pieces == split_by_from(s@, sep_of(0), 0),
            bounds@.len() == pieces.len(),
            forall|t: int|
                0 <= t < bounds@.len() ==> (#[trigger] bounds@[t]).0 <= bounds@[t].1 <= s.len()
                    && s@.subrange(bounds@[t].0 as int, bounds@[t].1 as int) == pieces[t],
            r@.map_values(|w: Vec<char>| w@) == non_empty(pieces.take(j as int)),
        decreases bounds.len() - j,
    {
        let (lo, hi) = bounds[j];
        let ghost before = r@;
        proof {
            assert(pieces.take(j + 1).drop_last() =~= pieces.take(j as int));
            assert(pieces.take(j + 1).last() == pieces[j as int]);
            reveal(Seq::filter);
        }
        if hi > lo {
            let w = sub_chars(s, lo, hi);
            r.push(w);
            assert(r@.map_values(|w: Vec<char>| w@) =~= before.map_values(|w: Vec<char>| w@).push(pieces[j as int]));
        } else {
            assert(r@.map_values(|w: Vec<char>| w@) =~= before.map_values(|w: Vec<char>| w@));
        }
        j += 1;
    }
    assert(pieces.take(bounds.len() as int) =~= pieces);
    r
}


/// How many times `c` repeats at the start of `s`.
pub open spec fn lead_count(s: Seq<char>, c: char) -> nat
    decreases s.len(),
{
    if s.len() > 0 && s[0] == c {
        1 + lead_count(s.drop_first(), c)
    } else {
        0
    }
}

/// How many times `c` repeats at the end of `s`.
pub open spec fn trail_count(s: Seq<char>, c: char) -> nat
    decreases s.len(),
{
    if s.len() > 0 && s.last() == c {
        1 + trail_count(s.drop_last(), c)
    } else {
        0
    }
}

/// `str::trim_start_matches` with a character.
pub open spec fn trim_start_char(s: Seq<char>, c: char) -> Seq<char> {
    s.subrange(lead_count(s, c) as int, s.len() as int)
}

/// `str::trim_end_matches` with a character.
pub open spec fn trim_end_char(s: Seq<char>, c: char) -> Seq<char> {
    s.subrange(0, s.len() - trail_count(s, c))
}

/// `str::trim_matches` with a character.
pub open spec fn trim_char(s: Seq<char>, c: char) -> Seq<char> {
    trim_end_char(trim_start_char(s, c), c)
}

pub proof fn lemma_lead_count(s: Seq<char>, c: char, i: int)
    requires
        0 <= i <= s.len(),
        forall|k: int| 0 <= k < i ==> #[trigger] s[k] == c,
        i == s.len() || s[i] != c,
    ensures
        lead_count(s, c) == i,
    decreases i,
{
    if i > 0 {
        lemma_lead_count(s.drop_first(), c, i - 1);
    }
}

pub proof fn lemma_trail_count(s: Seq<char>, c: char, j: int)
    requires
        0 <= j <= s.len(),
        forall|k: int| j <= k < s.len() ==> #[trigger] s[k] == c,
        j == 0 || s[j - 1] != c,
    ensures
        trail_count(s, c) == s.len() - j,
    decreases s.len() - j,
{
    if j < s.len() {
        lemma_trail_count(s.drop_last(), c, j);
    }
}

/// Bounds of `trim_start_char(s[lo..hi], c)`.
pub fn trim_start_char_bounds(s: &Vec<char>, lo: usize, hi: usize, c: char) -> (r: usize)
    requires
        lo <= hi <= s.len(),
    ensures
        lo <= r <= hi,
        s@.subrange(r as int, hi as int) == trim_start_char(s@.subrange(lo as int, hi as int), c),
{
    let ghost t = s@.subrange(lo as int, hi as int);
    let mut a: usize = lo;
    while a < hi && s[a] == c
        invariant
            lo <= a <= hi <= s.len(),
            forall|k: int| lo <= k < a ==> #[trigger] s@[k] == c,
        decreases hi - a,
    {
        a += 1;
    }
    proof {
        assert forall|k: int| 0 <= k < a - lo implies #[trigger] t[k] == c by {
            assert(t[k] == s@[lo + k]);
        }
        lemma_lead_count(t, c, a - lo);
        assert(trim_start_char(t, c) =~= s@.subrange(a as int, hi as int));
    }
    a
}

/// Bounds of `trim_end_char(s[lo..hi], c)`.
pub fn trim_end_char_bounds(s: &Vec<char>, lo: usize, hi: usize, c: char) -> (r: usize)
    requires
        lo <= hi <= s.len(),
    ensures
        lo <= r <= hi,
        s@.subrange(lo as int, r as int) == trim_end_char(s@.subrange(lo as int, hi as int), c),
{
    let ghost t = s@.subrange(lo as int, hi as int);
    let mut b: usize = hi;
    while b > lo && s[b - 1] == c
        invariant
            lo <= b <= hi <= s.len(),
            forall|k: int| b <= k < hi ==> #[trigger] s@[k] == c,
        decreases b - lo,
    {
        b -= 1;
    }
    proof {
        assert forall|k: int| b - lo <= k < t.len() implies #[trigger] t[k] == c by {
            assert(t[k] == s@[lo + k]);
        }
        lemma_trail_count(t, c, b - lo);
        assert(trim_end_char(t, c) =~= s@.subrange(lo as int, b as int));
    }
    b
}

/// Bounds of `trim_char(s[lo..hi], c)`.
pub fn trim_char_bounds(s: &Vec<char>, lo: usize, hi: usize, c: char) -> (r: (usize, usize))
    requires
        lo <= hi <= s.len(),
    ensures
        lo <= r.0 <= r.1 <= hi,
        s@.subrange(r.0 as int, r.1 as int) == trim_char(s@.subrange(lo as int, hi as int), c),
{
    let a = trim_start_char_bounds(s, lo, hi, c);
    let b = trim_end_char_bounds(s, a, hi, c);
    (a, b)
}

/// An ASCII decimal digit.
pub open spec fn is_digit(c: char) -> bool {
    '0' <= c <= '9'
}

/// Every character is an ASCII digit.
pub open spec fn all_digits(s: Seq<char>) -> bool {
    forall|i: int| 0 <= i < s.len() ==> is_digit(#[trigger] s[i])
}

/// The number that a string of decimal digits writes.
pub open spec fn digits_value(s: Seq<char>) -> int
    decreases s.len(),
{
    if s.len() == 0 {
        0
    } else {
        digits_value(s.drop_last()) * 10 + (s.last() as int - '0' as int)
    }
}

/// At least one digit and nothing else, writing at most `max`.
pub open spec fn digits_within(s: Seq<char>, max: int) -> bool {
    s.len() > 0 && all_digits(s) && digits_value(s) <= max
}

/// `u32::from_str`: an optional `+`, then at least one ASCII digit, writing
/// a number that fits.
pub open spec fn u32_of(s: Seq<char>) -> Option<u32> {
    let body = if s.len() > 0 && s[0] == '+' {
        s.drop_first()
    } else {
        s
    };
    if digits_within(body, u32::MAX as int) {
        Some(digits_value(body) as u32)
    } else {
        None
    }
}

/// `i32::from_str`: an optional sign, then at least one ASCII digit,
/// writing a number that fits.
pub open spec fn i32_of(s: Seq<char>) -> Option<i32> {
    if s.len() > 0 && s[0] == '-' {
        if digits_within(s.drop_first(), 0x8000_0000) {
            Some((-digits_value(s.drop_first())) as i32)
        } else {
            None
        }
    } else {
        let body = if s.len() > 0 && s[0] == '+' {
            s.drop_first()
        } else {
            s
        };
        if digits_within(body, i32::MAX as int) {
            Some(digits_value(body) as i32)
        } else {
            None
        }
    }
}

proof fn lemma_digits_value_grows(s: Seq<char>, i: int)
    requires
        0 <= i <= s.len(),
        all_digits(s),
    ensures
        0 <= digits_value(s.subrange(0, i)) <= digits_value(s),
    decreases s.len() - i,
{
    if i < s.len() {
        lemma_digits_value_grows(s, i + 1);
        let t = s.subrange(0, i + 1);
        assert(t.drop_last() =~= s.subrange(0, i));
        assert(is_digit(s[i]));
    } else {
        assert(s.subrange(0, i) =~= s);
        lemma_digits_value_nonneg(s);
    }
}

proof fn lemma_digits_value_nonneg(s: Seq<char>)
    requires
        all_digits(s),
    ensures
        0 <= digits_value(s),
    decreases s.len(),
{
    if s.len() > 0 {
        assert(all_digits(s.drop_last())) by {
            assert forall|i: int| 0 <= i < s.drop_last().len() implies is_digit(#[trigger] s.drop_last()[i]) by {
                assert(s.drop_last()[i] == s[i]);
            }
        }
        lemma_digits_value_nonneg(s.drop_last());
        assert(is_digit(s[s.len() - 1]));
    }
}

/// The value of `s[lo..hi]` when it is at least one digit and nothing
/// else, writing at most `max`.
pub fn digits_in(s: &Vec<char>, lo: usize, hi: usize, max: u64) -> (r: Option<u64>)
    requires
        lo <= hi <= s.len(),
        max <= u32::MAX,
    ensures
        r matches Some(v) ==> digits_within(s@.subrange(lo as int, hi as int), max as int) && v == digits_value(
            s@.subrange(lo as int, hi as int),
        ),
        r is None ==> !digits_within(s@.subrange(lo as int, hi as int), max as int),
{
    let ghost t = s@.subrange(lo as int, hi as int);
    if lo == hi {
        return None;
    }
    let mut v: u64 = 0;
    let mut i: usize = lo;
    while i < hi
        invariant
            lo <= i <= hi <= s.len(),
            t == s@.subrange(lo as int, hi as int),
            max <= u32::MAX,
            v <= max,
            all_digits(t.subrange(0, i - lo)),
            v == digits_value(t.subrange(0, i - lo)),
        decreases hi - i,
    {
        let c = s[i];
        assert(t[i - lo] == c);
        if !('0' <= c && c <= '9') {
            proof {
                assert(!is_digit(t[i - lo]));
            }
            return None;
        }
        let d = (c as u64) - ('0' as u64);
        proof {
            let u = t.subrange(0, i + 1 - lo);
            assert(u.drop_last() =~= t.subrange(0, i - lo));
            assert(u.last() == c);
            assert(all_digits(u)) by {
                assert forall|k: int| 0 <= k < u.len() implies is_digit(#[trigger] u[k]) by {
                    if k < u.len() - 1 {
                        assert(u[k] == t.subrange(0, i - lo)[k]);
                    }
                }
            }
        }
        v = v * 10 + d;
        i += 1;
        if v > max {
            proof {
                if all_digits(t) {
                    lemma_digits_value_grows(t, i - lo);
                }
            }
            return None;
        }
    }
    proof {
        assert(t.subrange(0, hi - lo) =~= t);
    }
    Some(v)
}

/// `u32::from_str` on characters.
pub fn parse_u32(s: &Vec<char>) -> (r: Option<u32>)
    ensures
        r == u32_of(s@),
{
    let lo: usize = if s.len() > 0 && s[0] == '+' {
        1
    } else {
        0
    };
    proof {
        if lo == 1 {
            assert(s@.subrange(1, s@.len() as int) =~= s@.drop_first());
        } else {
            assert(s@.subrange(0, s@.len() as int) =~= s@);
        }
    }
    match digits_in(s, lo, s.len(), 4294967295) {
        Some(v) => Some(v as u32),
        None => None,
    }
}

/// `i32::from_str` on characters.
pub fn parse_i32(s: &Vec<char>) -> (r: Option<i32>)
    ensures
        r == i32_of(s@),
{
    if s.len() > 0 && s[0] == '-' {
        assert(s@.subrange(1, s@.len() as int) =~= s@.drop_first());
        match digits_in(s, 1, s.len(), 2147483648) {
            Some(v) => {
                let neg: i64 = 0i64 - (v as i64);
                Some(neg as i32)
            },
            None => None,
        }
    } else {
        let lo: usize = if s.len() > 0 && s[0] == '+' {
            1
        } else {
            0
        };
        proof {
            if lo == 1 {
                assert(s@.subrange(1, s@.len() as int) =~= s@.drop_first());
            } else {
                assert(s@.subrange(0, s@.len() as int) =~= s@);
            }
        }
        match digits_in(s, lo, s.len(), 2147483647) {
            Some(v) => Some(v as i32),
            None => None,
        }
    }
}

/// How many times `c` occurs in `s[lo..hi]`.
pub open spec fn count_in(s: Seq<char>, c: char, lo: int, hi: int) -> int
    decreases hi - lo,
{
    if hi <= lo {
        0
    } else {
        count_in(s, c, lo, hi - 1) + if s[hi - 1] == c {
            1int
        } else {
            0int
        }
    }
}

/// `s[lo..hi]` opens as many parentheses as it closes.
pub open spec fn balanced(s: Seq<char>, lo: int, hi: int) -> bool {
    count_in(s, '(', lo, hi) == count_in(s, ')', lo, hi)
}

pub proof fn lemma_count_step(s: Seq<char>, c: char, lo: int, hi: int)
    requires
        lo <= hi < s.len(),
    ensures
        count_in(s, c, lo, hi + 1) == count_in(s, c, lo, hi) + if s[hi] == c {
            1int
        } else {
            0int
        },
{
}

pub proof fn lemma_count_bound(s: Seq<char>, c: char, lo: int, hi: int)
    requires
        lo <= hi,
    ensures
        0 <= count_in(s, c, lo, hi) <= hi - lo,
    decreases hi - lo,
{
    if hi > lo {
        lemma_count_bound(s, c, lo, hi - 1);
    }
}

} // verus!
