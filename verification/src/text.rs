//! Character-level helpers over the `Seq<char>` view of strings: whitespace,
//! substring search and the std text operations the benchmark relies on.
use vstd::prelude::*;
use vstd::utf8::is_ascii_chars;

verus! {

/// Unicode `White_Space`, the property that `char::is_whitespace` tests.
pub open spec fn is_ws(c: char) -> bool {
    ||| c == ' '
    ||| ('\u{9}' <= c && c <= '\u{d}')
    ||| c == '\u{85}'
    ||| c == '\u{a0}'
    ||| c == '\u{1680}'
    ||| ('\u{2000}' <= c && c <= '\u{200a}')
    ||| c == '\u{2028}'
    ||| c == '\u{2029}'
    ||| c == '\u{202f}'
    ||| c == '\u{205f}'
    ||| c == '\u{3000}'
}

/// Number of whitespace characters at the start of `s`.
pub open spec fn leading_ws(s: Seq<char>) -> nat
    decreases s.len(),
{
    if s.len() > 0 && is_ws(s[0]) {
        1 + leading_ws(s.drop_first())
    } else {
        0
    }
}

/// `s` without its leading whitespace (what `str::trim_start` returns).
pub open spec fn trim_start_ws(s: Seq<char>) -> Seq<char> {
    s.skip(leading_ws(s) as int)
}

/// `p` occurs in `h` starting at position `i`.
pub open spec fn matches_at(h: Seq<char>, p: Seq<char>, i: int) -> bool {
    &&& 0 <= i
    &&& i + p.len() <= h.len()
    &&& h.subrange(i, i + p.len()) == p
}

/// The first position at or after `i` where `p` occurs in `h`.
pub open spec fn find_from(h: Seq<char>, p: Seq<char>, i: int) -> Option<int>
    decreases h.len() + 1 - i,
{
    if i < 0 || i > h.len() {
        None
    } else if matches_at(h, p, i) {
        Some(i)
    } else {
        find_from(h, p, i + 1)
    }
}

/// The first position where `p` occurs in `h` (what `str::find` locates).
pub open spec fn find_first(h: Seq<char>, p: Seq<char>) -> Option<int> {
    find_from(h, p, 0)
}

/// `p` occurs somewhere in `h` (what `str::contains` tests).
pub open spec fn contains_seq(h: Seq<char>, p: Seq<char>) -> bool {
    exists|i: int| matches_at(h, p, i)
}

/// `h` begins with `p` (what `str::starts_with` tests).
pub open spec fn starts_with_seq(h: Seq<char>, p: Seq<char>) -> bool {
    matches_at(h, p, 0)
}

/// The first `n` characters of `s`, or all of them if it is shorter.
pub open spec fn take_chars(s: Seq<char>, n: nat) -> Seq<char> {
    if s.len() <= n {
        s
    } else {
        s.take(n as int)
    }
}

pub proof fn lemma_leading_ws_bound(s: Seq<char>)
    ensures
        leading_ws(s) <= s.len(),
        leading_ws(s) < s.len() ==> !is_ws(s[leading_ws(s) as int]),
        forall|k: int| 0 <= k < leading_ws(s) ==> is_ws(#[trigger] s[k]),
    decreases s.len(),
{
    if s.len() > 0 && is_ws(s[0]) {
        lemma_leading_ws_bound(s.drop_first());
        assert forall|k: int| 0 <= k < leading_ws(s) implies is_ws(#[trigger] s[k]) by {
            if k > 0 {
                assert(s[k] == s.drop_first()[k - 1]);
            }
        }
    }
}

/// `leading_ws` is the length of the longest all-whitespace prefix.
pub proof fn lemma_leading_ws_exact(s: Seq<char>, k: int)
    requires
        0 <= k <= s.len(),
        forall|m: int| 0 <= m < k ==> is_ws(#[trigger] s[m]),
        k == s.len() || !is_ws(s[k]),
    ensures
        leading_ws(s) == k,
    decreases k,
{
    if k > 0 {
        let t = s.drop_first();
        assert forall|m: int| 0 <= m < k - 1 implies is_ws(#[trigger] t[m]) by {
            assert(t[m] == s[m + 1]);
        }
        if k - 1 < t.len() {
            assert(t[k - 1] == s[k]);
        }
        lemma_leading_ws_exact(t, k - 1);
    }
}

pub proof fn lemma_trim_start_idempotent(s: Seq<char>)
    ensures
        leading_ws(trim_start_ws(s)) == 0,
        trim_start_ws(trim_start_ws(s)) == trim_start_ws(s),
        trim_start_ws(s).len() > 0 ==> !is_ws(trim_start_ws(s)[0]),
{
    lemma_leading_ws_bound(s);
    let t = trim_start_ws(s);
    if t.len() > 0 {
        assert(t[0] == s[leading_ws(s) as int]);
    }
    assert(t.skip(0) =~= t);
}

pub proof fn lemma_find_from_sound(h: Seq<char>, p: Seq<char>, i: int)
    requires
        0 <= i,
    ensures
        find_from(h, p, i) matches Some(k) ==> {
            &&& i <= k
            &&& matches_at(h, p, k)
            &&& forall|j: int| i <= j < k ==> !matches_at(h, p, j)
        },
        find_from(h, p, i) is None ==> forall|j: int| i <= j ==> !matches_at(h, p, j),
    decreases h.len() + 1 - i,
{
    if i > h.len() {
    } else if matches_at(h, p, i) {
    } else {
        lemma_find_from_sound(h, p, i + 1);
        assert forall|j: int| i <= j && !(i + 1 <= j) implies !matches_at(h, p, j) by {}
    }
}

proof fn lemma_find_from_past_end(h: Seq<char>, p: Seq<char>, i: int)
    requires
        0 <= i,
        i + p.len() > h.len(),
    ensures
        find_from(h, p, i) is None,
    decreases h.len() + 1 - i,
{
    if i <= h.len() {
        lemma_find_from_past_end(h, p, i + 1);
    }
}

/// A string contains a pattern exactly when the search for it succeeds.
pub proof fn lemma_contains_iff_found(h: Seq<char>, p: Seq<char>)
    ensures
        contains_seq(h, p) <==> find_first(h, p) is Some,
{
    lemma_find_from_sound(h, p, 0);
}

/// The characters of `s`, in order.
pub fn chars_of(s: &str) -> (v: Vec<char>)
    ensures
        v@ == s@,
{
    let mut v: Vec<char> = Vec::new();
    for c in it: s.chars()
        invariant
            v@ == it.seq().take(it.index() as int),
    {
        v.push(c);
    }
    v
}

/// `char::is_whitespace`: membership in Unicode `White_Space`.
pub fn is_whitespace(c: char) -> (b: bool)
    ensures
        b == is_ws(c),
{
    c == ' ' || ('\u{9}' <= c && c <= '\u{d}') || c == '\u{85}' || c == '\u{a0}' || c
        == '\u{1680}' || ('\u{2000}' <= c && c <= '\u{200a}') || c == '\u{2028}' || c
        == '\u{2029}' || c == '\u{202f}' || c == '\u{205f}' || c == '\u{3000}'
}

/// Number of whitespace characters in `v` starting at `from`.
pub fn count_leading_ws(v: &Vec<char>, from: usize) -> (n: usize)
    requires
        from <= v.len(),
    ensures
        n == leading_ws(v@.skip(from as int)),
        from + n <= v.len(),
{
    let mut j = from;
    while j < v.len() && is_whitespace(v[j])
        invariant
            from <= j <= v.len(),
            forall|m: int| from <= m < j ==> is_ws(#[trigger] v@[m]),
        decreases v.len() - j,
    {
        j = j + 1;
    }
    proof {
        let t = v@.skip(from as int);
        assert forall|m: int| 0 <= m < j - from implies is_ws(#[trigger] t[m]) by {
            assert(t[m] == v@[from + m]);
        }
        if j < v.len() {
            assert(t[j - from] == v@[j as int]);
        }
        lemma_leading_ws_exact(t, j - from);
    }
    j - from
}

/// Whether `p` occurs in `h` at position `i`.
pub fn occurs_at(h: &Vec<char>, p: &Vec<char>, i: usize) -> (b: bool)
    ensures
        b == matches_at(h@, p@, i as int),
{
    if i > h.len() || p.len() > h.len() - i {
        return false;
    }
    let mut k: usize = 0;
    while k < p.len() && h[i + k] == p[k]
        invariant
            i + p.len() <= h.len(),
            k <= p.len(),
            forall|m: int| 0 <= m < k ==> h@[i + m] == p@[m],
        decreases p.len() - k,
    {
        k = k + 1;
    }
    if k == p.len() {
        assert(h@.subrange(i as int, i + p.len()) =~= p@);
        true
    } else {
        assert(h@.subrange(i as int, i + p.len())[k as int] != p@[k as int]);
        false
    }
}

/// The first character position where `p` occurs in `h` (`str::find`
/// reports the same match as a byte offset).
pub fn find_seq(h: &Vec<char>, p: &Vec<char>) -> (r: Option<usize>)
    ensures
        match r {
            Some(i) => find_first(h@, p@) == Some(i as int),
            None => find_first(h@, p@) is None,
        },
{
    if p.len() > h.len() {
        proof {
            lemma_find_from_past_end(h@, p@, 0);
        }
        return None;
    }
    let last = h.len() - p.len();
    let mut i: usize = 0;
    loop
        invariant
            last == h.len() - p.len(),
            p.len() <= h.len(),
            i <= last,
            find_first(h@, p@) == find_from(h@, p@, i as int),
        decreases last - i,
    {
        if occurs_at(h, p, i) {
            return Some(i);
        }
        if i == last {
            proof {
                lemma_find_from_past_end(h@, p@, i + 1);
            }
            return None;
        }
        i = i + 1;
    }
}

/// Whether `p` occurs anywhere in `h`, as `str::contains` reports it.
pub fn contains(h: &Vec<char>, p: &Vec<char>) -> (b: bool)
    ensures
        b == contains_seq(h@, p@),
{
    proof {
        lemma_contains_iff_found(h@, p@);
    }
    find_seq(h, p).is_some()
}

/// Whether two character vectors are equal.
pub fn same_chars(a: &Vec<char>, b: &Vec<char>) -> (r: bool)
    ensures
        r == (a@ == b@),
{
    if a.len() != b.len() {
        return false;
    }
    let r = occurs_at(a, b, 0);
    assert(a@.subrange(0, b@.len() as int) =~= a@);
    r
}

/// The first `n` characters of `s` (what `s.chars().take(n)` collects).
pub fn prefix_chars(s: &str, n: usize) -> (r: &str)
    ensures
        r@ == take_chars(s@, n as nat),
{
    let len = s.unicode_len();
    if len <= n {
        let r = s.substring_char(0, len);
        assert(s@.subrange(0, len as int) =~= s@);
        r
    } else {
        s.substring_char(0, n)
    }
}

/// `c` with an ASCII capital letter made small.
pub open spec fn ascii_lower_char(c: char) -> char {
    if 'A' <= c && c <= 'Z' {
        ((c as u32) + 32) as char
    } else {
        c
    }
}

/// `c` with an ASCII small letter made capital.
pub open spec fn ascii_upper_char(c: char) -> char {
    if 'a' <= c && c <= 'z' {
        ((c as u32) - 32) as char
    } else {
        c
    }
}

/// `s` with its ASCII capital letters made small (what
/// `str::to_ascii_lowercase` returns).
pub open spec fn ascii_lowercase(s: Seq<char>) -> Seq<char> {
    s.map_values(|c: char| ascii_lower_char(c))
}

/// `s` with its ASCII small letters made capital (what
/// `str::to_ascii_uppercase` returns).
pub open spec fn ascii_uppercase(s: Seq<char>) -> Seq<char> {
    s.map_values(|c: char| ascii_upper_char(c))
}

/// Making letters capital and then small gives the same as making them small.
pub proof fn lemma_ascii_case_round_trip(s: Seq<char>)
    ensures
        ascii_lowercase(ascii_uppercase(s)) == ascii_lowercase(s),
        is_ascii_chars(s) ==> is_ascii_chars(ascii_uppercase(s)),
{
    assert(ascii_lowercase(ascii_uppercase(s)) =~= ascii_lowercase(s));
}

/// Lowercasing text piecewise: ASCII lowercasing distributes over
/// concatenation.
pub proof fn lemma_ascii_lowercase_concat(a: Seq<char>, b: Seq<char>)
    ensures
        ascii_lowercase(a + b) == ascii_lowercase(a) + ascii_lowercase(b),
        is_ascii_chars(a) && is_ascii_chars(b) ==> is_ascii_chars(a + b),
{
    assert(ascii_lowercase(a + b) =~= ascii_lowercase(a) + ascii_lowercase(b));
    if is_ascii_chars(a) && is_ascii_chars(b) {
        assert forall|i: int| 0 <= i < (a + b).len() implies '\0' <= #[trigger] (a + b)[i] <= '\u{7f}' by {
            if i >= a.len() {
                assert((a + b)[i] == b[i - a.len()]);
            }
        }
    }
}

/// A pattern found in a text is still found after more text is added on
/// either side.
pub proof fn lemma_contains_extended(h: Seq<char>, e: Seq<char>, p: Seq<char>)
    requires
        contains_seq(h, p),
    ensures
        contains_seq(h + e, p),
        contains_seq(e + h, p),
{
    let i = choose|i: int| matches_at(h, p, i);
    assert((h + e).subrange(i, i + p.len()) =~= h.subrange(i, i + p.len()));
    assert(matches_at(h + e, p, i));
    assert((e + h).subrange(i + e.len(), i + e.len() + p.len()) =~= h.subrange(i, i + p.len()));
    assert(matches_at(e + h, p, i + e.len()));
}

/// What `str::to_lowercase` returns for a string: its Unicode lowercase
/// form, where a character's mapping may depend on its neighbours (as for a
/// final sigma).
pub uninterp spec fn lowercase(s: Seq<char>) -> Seq<char>;

/// Calls `str::to_lowercase`. Its result is a function of the input's
/// characters alone (no locale is consulted), so it is named by `lowercase`.
/// Of the Unicode mapping only its ASCII part is stated: on ASCII text it
/// makes `A`–`Z` small and leaves every other character as it is.
#[verifier::external_body]
pub fn to_lowercase(s: &str) -> (r: String)
    ensures
        r@ == lowercase(s@),
        is_ascii_chars(s@) ==> r@ == ascii_lowercase(s@),
{
    s.to_lowercase()
}

/// Calls `String::push`: appends one character.
#[verifier::external_body]
pub fn push_char(s: &mut String, c: char)
    ensures
        final(s)@ == old(s)@.push(c),
{
    s.push(c)
}

} // verus!
