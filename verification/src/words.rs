//! Whitespace-separated words and unsigned decimal numbers, as
//! `str::split_whitespace` and `u64::from_str` read them.
use vstd::prelude::*;
use crate::text::{
    count_leading_ws, is_whitespace, is_ws, lemma_leading_ws_bound, lemma_trim_start_idempotent,
    trim_start_ws,
};

verus! {

/// Number of non-whitespace characters at the start of `s`.
pub open spec fn word_len(s: Seq<char>) -> nat
    decreases s.len(),
{
    if s.len() > 0 && !is_ws(s[0]) {
        1 + word_len(s.drop_first())
    } else {
        0
    }
}

pub proof fn lemma_word_len_bound(s: Seq<char>)
    ensures
        word_len(s) <= s.len(),
        s.len() > 0 && !is_ws(s[0]) ==> word_len(s) >= 1,
    decreases s.len(),
{
    if s.len() > 0 && !is_ws(s[0]) {
        lemma_word_len_bound(s.drop_first());
    }
}

/// `word_len` is the length of the longest prefix free of whitespace.
pub proof fn lemma_word_len_exact(s: Seq<char>, k: int)
    requires
        0 <= k <= s.len(),
        forall|m: int| 0 <= m < k ==> !is_ws(#[trigger] s[m]),
        k == s.len() || is_ws(s[k]),
    ensures
        word_len(s) == k,
    decreases k,
{
    if k > 0 {
        let t = s.drop_first();
        assert forall|m: int| 0 <= m < k - 1 implies !is_ws(#[trigger] t[m]) by {
            assert(t[m] == s[m + 1]);
        }
        if k - 1 < t.len() {
            assert(t[k - 1] == s[k]);
        }
        lemma_word_len_exact(t, k - 1);
    }
}

/// The maximal runs of non-whitespace characters of `s`, in order (what
/// `str::split_whitespace` yields).
pub open spec fn words(s: Seq<char>) -> Seq<Seq<char>>
    decreases s.len(),
{
    let t = trim_start_ws(s);
    if t.len() == 0 {
        seq![]
    } else {
        let n = word_len(t);
        proof {
            lemma_leading_ws_bound(s);
            lemma_trim_start_idempotent(s);
            lemma_word_len_bound(t);
        }
        seq![t.take(n as int)] + words(t.skip(n as int))
    }
}

/// The view of a list of character vectors.
pub open spec fn char_vec_views(v: Seq<Vec<char>>) -> Seq<Seq<char>> {
    v.map_values(|w: Vec<char>| w@)
}

/// The whitespace-separated words of `s`.
pub fn split_words(s: &Vec<char>) -> (r: Vec<Vec<char>>)
    ensures
        char_vec_views(r@) == words(s@),
{
    let n = s.len();
    let mut out: Vec<Vec<char>> = Vec::new();
    let mut i: usize = 0;
    assert(s@.skip(0) =~= s@);
    while i < n
        invariant
            n == s.len(),
            i <= n,
            words(s@) =~= char_vec_views(out@) + words(s@.skip(i as int)),
        decreases n - i,
    {
        let skip = count_leading_ws(s, i);
        let j = i + skip;
        let ghost rest = s@.skip(i as int);
        let ghost t = trim_start_ws(rest);
        proof {
            lemma_leading_ws_bound(rest);
            assert(t =~= s@.skip(j as int));
        }
        if j == n {
            proof {
                assert(words(rest) =~= Seq::<Seq<char>>::empty());
                assert(char_vec_views(out@) + Seq::<Seq<char>>::empty() =~= char_vec_views(out@));
            }
            i = j;
            assert(s@.skip(i as int) =~= Seq::<char>::empty());
            assert(words(s@.skip(i as int)) =~= Seq::<Seq<char>>::empty());
        } else {
            let mut k = j;
            let mut word: Vec<char> = Vec::new();
            while k < n && !is_whitespace(s[k])
                invariant
                    n == s.len(),
                    j <= k <= n,
                    word@ =~= s@.subrange(j as int, k as int),
                    forall|m: int| j <= m < k ==> !is_ws(#[trigger] s@[m]),
                decreases n - k,
            {
                word.push(s[k]);
                k = k + 1;
            }
            proof {
                assert forall|m: int| 0 <= m < k - j implies !is_ws(#[trigger] t[m]) by {
                    assert(t[m] == s@[j + m]);
                }
                if k < n {
                    assert(t[k - j] == s@[k as int]);
                }
                lemma_word_len_exact(t, k - j);
                lemma_trim_start_idempotent(rest);
                assert(t.take((k - j) as int) =~= word@);
                assert(t.skip((k - j) as int) =~= s@.skip(k as int));
                assert(words(rest) =~= seq![word@] + words(s@.skip(k as int)));
            }
            let ghost before = out@;
            out.push(word);
            proof {
                assert(char_vec_views(out@) =~= char_vec_views(before) + seq![word@]);
            }
            i = k;
        }
    }
    assert(s@.skip(n as int) =~= Seq::<char>::empty());
    assert(words(Seq::<char>::empty()) =~= Seq::<Seq<char>>::empty());
    out
}

/// An ASCII decimal digit.
pub open spec fn is_digit(c: char) -> bool {
    '0' <= c && c <= '9'
}

/// The number that a string of decimal digits denotes.
pub open spec fn digits_value(s: Seq<char>) -> nat
    decreases s.len(),
{
    if s.len() == 0 {
        0
    } else {
        digits_value(s.drop_last()) * 10 + ((s.last() as nat) - ('0' as nat)) as nat
    }
}

/// `s` without one leading `+`, if it has one.
pub open spec fn unsigned_digits(s: Seq<char>) -> Seq<char> {
    if s.len() > 0 && s[0] == '+' {
        s.drop_first()
    } else {
        s
    }
}

/// What `u64::from_str` accepts: an optional `+`, then one or more decimal
/// digits whose value fits in a `u64`.
pub open spec fn parse_u64_spec(s: Seq<char>) -> Option<u64> {
    let d = unsigned_digits(s);
    if d.len() > 0 && (forall|i: int| 0 <= i < d.len() ==> is_digit(#[trigger] d[i]))
        && digits_value(d) <= u64::MAX {
        Some(digits_value(d) as u64)
    } else {
        None
    }
}

proof fn lemma_digits_value_prefix(s: Seq<char>, k: int)
    requires
        0 <= k <= s.len(),
        forall|i: int| 0 <= i < s.len() ==> is_digit(#[trigger] s[i]),
    ensures
        digits_value(s.take(k)) <= digits_value(s),
    decreases s.len(),
{
    if k < s.len() {
        let t = s.drop_last();
        assert forall|i: int| 0 <= i < t.len() implies is_digit(#[trigger] t[i]) by {
            assert(t[i] == s[i]);
        }
        lemma_digits_value_prefix(t, k);
        assert(t.take(k) =~= s.take(k));
    } else {
        assert(s.take(k) =~= s);
    }
}

/// Reads an unsigned decimal number as `u64::from_str` does.
pub fn parse_u64(s: &Vec<char>) -> (r: Option<u64>)
    ensures
        r == parse_u64_spec(s@),
{
    let start: usize = if s.len() > 0 && s[0] == '+' {
        1
    } else {
        0
    };
    let ghost d = unsigned_digits(s@);
    assert(d =~= s@.skip(start as int));
    if start == s.len() {
        return None;
    }
    let mut value: u64 = 0;
    let mut i = start;
    while i < s.len()
        invariant
            start <= i <= s.len(),
            d =~= s@.skip(start as int),
            d == unsigned_digits(s@),
            forall|m: int| 0 <= m < i - start ==> is_digit(#[trigger] d[m]),
            value == digits_value(d.take(i - start)),
        decreases s.len() - i,
    {
        let c = s[i];
        if !('0' <= c && c <= '9') {
            assert(d[i - start] == c);
            assert(!is_digit(d[i - start]));
            return None;
        }
        let digit = (c as u32 - '0' as u32) as u64;
        proof {
            assert(d.take(i - start + 1).drop_last() =~= d.take(i - start));
            assert(d.take(i - start + 1).last() == c);
            assert(digits_value(d.take(i - start + 1)) == value * 10 + digit);
        }
        let ghost k = i - start;
        match value.checked_mul(10) {
            Some(m) => match m.checked_add(digit) {
                Some(v) => {
                    value = v;
                },
                None => {
                    proof {
                        if forall|m: int| 0 <= m < d.len() ==> is_digit(#[trigger] d[m]) {
                            lemma_digits_value_prefix(d, k + 1);
                        }
                    }
                    return None;
                },
            },
            None => {
                proof {
                    if forall|m: int| 0 <= m < d.len() ==> is_digit(#[trigger] d[m]) {
                        lemma_digits_value_prefix(d, k + 1);
                    }
                }
                return None;
            },
        }
        i = i + 1;
    }
    assert(d.take(i - start) =~= d);
    Some(value)
}

/// Every word is non-empty and holds no whitespace; a non-empty text
/// without whitespace is a single word.
pub proof fn lemma_words_shape(s: Seq<char>)
    ensures
        forall|i: int|
            0 <= i < words(s).len() ==> #[trigger] words(s)[i].len() > 0 && forall|j: int|
                0 <= j < words(s)[i].len() ==> !is_ws(#[trigger] words(s)[i][j]),
        s.len() > 0 && (forall|j: int| 0 <= j < s.len() ==> !is_ws(#[trigger] s[j])) ==> words(s)
            == seq![s],
    decreases s.len(),
{
    let t = trim_start_ws(s);
    lemma_leading_ws_bound(s);
    lemma_trim_start_idempotent(s);
    if t.len() > 0 {
        let n = word_len(t);
        lemma_word_len_bound(t);
        lemma_word_prefix_no_ws(t);
        let rest = t.skip(n as int);
        lemma_words_shape(rest);
        assert forall|i: int| 0 <= i < words(s).len() implies #[trigger] words(s)[i].len() > 0 && forall|j: int|
            0 <= j < words(s)[i].len() ==> !is_ws(#[trigger] words(s)[i][j]) by {
            if i > 0 {
                assert(words(s)[i] == words(rest)[i - 1]);
            } else {
                assert(words(s)[0] == t.take(n as int));
            }
        }
        if s.len() > 0 && (forall|j: int| 0 <= j < s.len() ==> !is_ws(#[trigger] s[j])) {
            crate::text::lemma_leading_ws_exact(s, 0);
            assert(t =~= s);
            lemma_word_len_exact(s, s.len() as int);
            assert(rest =~= Seq::<char>::empty());
            assert(trim_start_ws(rest) =~= Seq::<char>::empty());
            assert(s.take(s.len() as int) =~= s);
            assert(words(s) =~= seq![s]);
        }
    }
}

proof fn lemma_word_prefix_no_ws(t: Seq<char>)
    ensures
        forall|j: int| 0 <= j < word_len(t) ==> !is_ws(#[trigger] t[j]),
    decreases t.len(),
{
    lemma_word_len_bound(t);
    if t.len() > 0 && !is_ws(t[0]) {
        lemma_word_prefix_no_ws(t.drop_first());
        assert forall|j: int| 0 <= j < word_len(t) implies !is_ws(#[trigger] t[j]) by {
            if j > 0 {
                assert(t[j] == t.drop_first()[j - 1]);
            }
        }
    }
}

/// Numbers read as `u64::from_str` reads them: a string of digits is its
/// value when that fits, with or without one leading `+`; a leading `-`, an
/// empty string or a lone `+` is refused.
pub proof fn lemma_parse_u64_shape(d: Seq<char>)
    ensures
        parse_u64_spec(Seq::<char>::empty()) is None,
        parse_u64_spec(seq!['+']) is None,
        parse_u64_spec(seq!['-'] + d) is None,
        d.len() > 0 && (forall|i: int| 0 <= i < d.len() ==> is_digit(#[trigger] d[i]))
            && digits_value(d) <= u64::MAX ==> {
            &&& parse_u64_spec(d) == Some(digits_value(d) as u64)
            &&& parse_u64_spec(seq!['+'] + d) == Some(digits_value(d) as u64)
        },
{
    assert(unsigned_digits(seq!['-'] + d)[0] == '-');
    assert(!is_digit('-'));
    assert(seq!['+'].drop_first() =~= Seq::<char>::empty());
    if d.len() > 0 {
        assert((seq!['+'] + d).drop_first() =~= d);
        assert(d[0] != '+' || !is_digit(d[0]));
    }
}

/// A decimal number's value: one digit is its own value, and each digit
/// added at the end multiplies by ten and adds.
pub proof fn lemma_digits_value_shape(d: Seq<char>, c: char)
    requires
        is_digit(c),
    ensures
        digits_value(seq![c]) == c as int - '0' as int,
        digits_value(d.push(c)) == 10 * digits_value(d) + (c as int - '0' as int),
{
    assert(seq![c].drop_last() =~= Seq::<char>::empty());
    assert(seq![c].last() == c);
    assert(digits_value(Seq::<char>::empty()) == 0);
    assert(d.push(c).drop_last() =~= d);
    assert(d.push(c).last() == c);
}
} // verus!
