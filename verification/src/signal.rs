//! Whether a compressed answer still carries the prompt's signal keywords.
use vstd::prelude::*;
use crate::text::{
    ascii_lowercase, ascii_uppercase, chars_of, contains, contains_seq, lemma_ascii_case_round_trip,
    lemma_ascii_lowercase_concat, lemma_contains_extended, lowercase, to_lowercase,
};
use vstd::utf8::is_ascii_chars;

verus! {

/// How many of `keys` occur in `text`.
pub open spec fn hits(text: Seq<char>, keys: Seq<Seq<char>>) -> nat
    decreases keys.len(),
{
    if keys.len() == 0 {
        0
    } else {
        hits(text, keys.drop_last()) + (if contains_seq(text, keys.last()) {
            1nat
        } else {
            0nat
        })
    }
}

/// The views of a list of strings.
pub open spec fn string_views(keys: Seq<String>) -> Seq<Seq<char>> {
    keys.map_values(|k: String| k@)
}

/// The lowercase forms of a list of keywords.
pub open spec fn lowered_keys(keys: Seq<&str>) -> Seq<Seq<char>> {
    keys.map_values(|k: &str| lowercase(k@))
}

/// The ASCII lowercase forms of a list of keywords.
pub open spec fn ascii_lowered_keys(keys: Seq<&str>) -> Seq<Seq<char>> {
    keys.map_values(|k: &str| ascii_lowercase(k@))
}

/// The answer and every keyword are ASCII text.
pub open spec fn ascii_inputs(text: Seq<char>, keys: Seq<&str>) -> bool {
    &&& is_ascii_chars(text)
    &&& forall|i: int| 0 <= i < keys.len() ==> is_ascii_chars(#[trigger] keys[i]@)
}

/// The signal is preserved when at least half of the keywords (half rounded
/// down) occur in the text.
pub open spec fn enough_hits(text: Seq<char>, keys: Seq<Seq<char>>) -> bool {
    hits(text, keys) >= keys.len() / 2
}

/// Given an already lowercased answer and lowercased keywords: whether at
/// least half of the keywords (rounded down) occur in the answer.
pub fn enough_keys_present(lower_text: &str, lower_keys: &Vec<String>) -> (r: bool)
    ensures
        r == enough_hits(lower_text@, string_views(lower_keys@)),
{
    let text = chars_of(lower_text);
    let ghost keys = string_views(lower_keys@);
    let mut count: usize = 0;
    let mut i: usize = 0;
    while i < lower_keys.len()
        invariant
            i <= lower_keys.len(),
            keys == string_views(lower_keys@),
            text@ == lower_text@,
            count == hits(text@, keys.take(i as int)),
            count <= i,
        decreases lower_keys.len() - i,
    {
        let key = chars_of(lower_keys[i].as_str());
        let found = contains(&text, &key);
        proof {
            assert(keys.take(i + 1).drop_last() =~= keys.take(i as int));
            assert(keys.take(i + 1).last() == key@);
        }
        if found {
            count = count + 1;
        }
        i = i + 1;
    }
    assert(keys.take(i as int) =~= keys);
    count >= lower_keys.len() / 2
}

/// Whether the answer keeps the prompt's signal: compared case-insensitively
/// (both sides through `str::to_lowercase`), at least half of the keywords,
/// rounded down, occur in it.
pub fn check_signal(text: &str, keys: &[&str]) -> (r: bool)
    ensures
        r == enough_hits(lowercase(text@), lowered_keys(keys@)),
        ascii_inputs(text@, keys@) ==> r == enough_hits(
            ascii_lowercase(text@),
            ascii_lowered_keys(keys@),
        ),
{
    let lower = to_lowercase(text);
    let mut lower_keys: Vec<String> = Vec::new();
    let mut i: usize = 0;
    while i < keys.len()
        invariant
            i <= keys.len(),
            string_views(lower_keys@) =~= lowered_keys(keys@).take(i as int),
            forall|j: int|
                0 <= j < i && is_ascii_chars(keys@[j]@) ==> #[trigger] lowercase(keys@[j]@)
                    == ascii_lowercase(keys@[j]@),
        decreases keys.len() - i,
    {
        let k = to_lowercase(keys[i]);
        let ghost before = lower_keys@;
        lower_keys.push(k);
        proof {
            assert(lower_keys@ == before.push(k));
            assert(string_views(before).len() == i);
            assert(before.len() == i);
            assert(lower_keys@.len() == i + 1);
            assert(string_views(lower_keys@)[i as int] == k@);
            assert(k@ == lowercase(keys@[i as int]@));
            assert forall|j: int| 0 <= j < i + 1 implies #[trigger] string_views(lower_keys@)[j]
                == lowered_keys(keys@)[j] by {
                if j < i {
                    assert(string_views(before)[j] == lowered_keys(keys@).take(i as int)[j]);
                }
            }
        }
        i = i + 1;
    }
    assert(lowered_keys(keys@).take(i as int) =~= lowered_keys(keys@));
    proof {
        if ascii_inputs(text@, keys@) {
            assert(lowered_keys(keys@) =~= ascii_lowered_keys(keys@));
        }
    }
    enough_keys_present(lower.as_str(), &lower_keys)
}

proof fn lemma_hits_bound(text: Seq<char>, keys: Seq<Seq<char>>)
    ensures
        hits(text, keys) <= keys.len(),
        (forall|i: int| 0 <= i < keys.len() ==> contains_seq(text, #[trigger] keys[i]))
            ==> hits(text, keys) == keys.len(),
    decreases keys.len(),
{
    if keys.len() > 0 {
        lemma_hits_bound(text, keys.drop_last());
        if forall|i: int| 0 <= i < keys.len() ==> contains_seq(text, #[trigger] keys[i]) {
            assert forall|i: int| 0 <= i < keys.drop_last().len() implies contains_seq(
                text,
                #[trigger] keys.drop_last()[i],
            ) by {
                assert(keys.drop_last()[i] == keys[i]);
            }
            assert(contains_seq(text, keys[keys.len() - 1]));
        }
    }
}

/// An answer that contains every keyword keeps its signal; so does any
/// answer when the prompt has no keywords.
pub proof fn lemma_all_keys_keep_signal(text: Seq<char>, keys: Seq<Seq<char>>)
    requires
        forall|i: int| 0 <= i < keys.len() ==> contains_seq(text, #[trigger] keys[i]),
    ensures
        enough_hits(text, keys),
{
    lemma_hits_bound(text, keys);
}

/// Finding more keywords never loses the signal: the verdict depends only
/// on how many keywords occur, and more is better.
pub proof fn lemma_signal_monotone(text: Seq<char>, other: Seq<char>, keys: Seq<Seq<char>>)
    requires
        forall|i: int| 0 <= i < keys.len() && contains_seq(text, #[trigger] keys[i]) ==> contains_seq(other, keys[i]),
        enough_hits(text, keys),
    ensures
        enough_hits(other, keys),
{
    lemma_hits_monotone(text, other, keys);
}

proof fn lemma_hits_monotone(text: Seq<char>, other: Seq<char>, keys: Seq<Seq<char>>)
    requires
        forall|i: int| 0 <= i < keys.len() && contains_seq(text, #[trigger] keys[i]) ==> contains_seq(other, keys[i]),
    ensures
        hits(text, keys) <= hits(other, keys),
    decreases keys.len(),
{
    if keys.len() > 0 {
        let d = keys.drop_last();
        assert forall|i: int| 0 <= i < d.len() && contains_seq(text, #[trigger] d[i]) implies contains_seq(other, d[i]) by {
            assert(d[i] == keys[i]);
        }
        lemma_hits_monotone(text, other, d);
        if contains_seq(text, keys.last()) {
            assert(contains_seq(text, keys[keys.len() - 1]));
        }
    }
}
proof fn lemma_hits_remove(text: Seq<char>, keys: Seq<Seq<char>>, i: int)
    requires
        0 <= i < keys.len(),
    ensures
        hits(text, keys) == hits(text, keys.remove(i)) + (if contains_seq(text, keys[i]) {
            1nat
        } else {
            0nat
        }),
    decreases keys.len(),
{
    if i == keys.len() - 1 {
        assert(keys.remove(i) =~= keys.drop_last());
    } else {
        lemma_hits_remove(text, keys.drop_last(), i);
        assert(keys.remove(i).drop_last() =~= keys.drop_last().remove(i));
        assert(keys.remove(i).last() == keys.last());
    }
}

proof fn lemma_hits_permutation(text: Seq<char>, a: Seq<&str>, b: Seq<&str>)
    requires
        a.to_multiset() == b.to_multiset(),
    ensures
        a.len() == b.len(),
        hits(text, lowered_keys(a)) == hits(text, lowered_keys(b)),
    decreases a.len(),
{
    vstd::seq_lib::to_multiset_len(a);
    vstd::seq_lib::to_multiset_len(b);
    if a.len() > 0 {
        let n = a.len() - 1;
        let x = a[n];
        assert(a.contains(x));
        vstd::seq_lib::to_multiset_contains(a, x);
        vstd::seq_lib::to_multiset_contains(b, x);
        let i = choose|i: int| 0 <= i < b.len() && b[i] == x;
        vstd::seq_lib::to_multiset_remove(a, n);
        vstd::seq_lib::to_multiset_remove(b, i);
        lemma_hits_permutation(text, a.remove(n), b.remove(i));
        assert(lowered_keys(a.remove(n)) =~= lowered_keys(a).remove(n));
        assert(lowered_keys(b.remove(i)) =~= lowered_keys(b).remove(i));
        lemma_hits_remove(text, lowered_keys(a), n);
        lemma_hits_remove(text, lowered_keys(b), i);
    }
}

/// The order of the keywords does not matter: the same keywords in any
/// order give the same verdict.
pub proof fn lemma_signal_ignores_key_order(text: Seq<char>, keys1: Seq<&str>, keys2: Seq<&str>)
    requires
        keys1.to_multiset() == keys2.to_multiset(),
    ensures
        enough_hits(lowercase(text), lowered_keys(keys1)) == enough_hits(
            lowercase(text),
            lowered_keys(keys2),
        ),
{
    lemma_hits_permutation(lowercase(text), keys1, keys2);
}

/// On ASCII text the verdict ignores letter case: capitalising the answer,
/// or any of the keywords, gives the same verdict.
pub proof fn lemma_signal_ignores_ascii_case(text: Seq<char>, keys: Seq<&str>, upper_keys: Seq<&str>)
    requires
        upper_keys.len() == keys.len(),
        forall|i: int| 0 <= i < keys.len() ==> #[trigger] upper_keys[i]@ == ascii_uppercase(keys[i]@),
    ensures
        enough_hits(ascii_lowercase(ascii_uppercase(text)), ascii_lowered_keys(keys)) == enough_hits(
            ascii_lowercase(text),
            ascii_lowered_keys(keys),
        ),
        enough_hits(ascii_lowercase(text), ascii_lowered_keys(upper_keys)) == enough_hits(
            ascii_lowercase(text),
            ascii_lowered_keys(keys),
        ),
        ascii_inputs(text, keys) ==> ascii_inputs(ascii_uppercase(text), keys) && ascii_inputs(
            text,
            upper_keys,
        ),
{
    lemma_ascii_case_round_trip(text);
    assert forall|i: int| 0 <= i < keys.len() implies #[trigger] ascii_lowered_keys(upper_keys)[i]
        == ascii_lowered_keys(keys)[i] by {
        lemma_ascii_case_round_trip(keys[i]@);
    }
    assert(ascii_lowered_keys(upper_keys) =~= ascii_lowered_keys(keys));
    if ascii_inputs(text, keys) {
        assert forall|i: int| 0 <= i < upper_keys.len() implies is_ascii_chars(
            #[trigger] upper_keys[i]@,
        ) by {
            lemma_ascii_case_round_trip(keys[i]@);
        }
    }
}

/// Adding text before or after an answer never loses its signal.
pub proof fn lemma_signal_survives_added_text(text: Seq<char>, extra: Seq<char>, keys: Seq<&str>)
    requires
        enough_hits(ascii_lowercase(text), ascii_lowered_keys(keys)),
    ensures
        enough_hits(ascii_lowercase(text + extra), ascii_lowered_keys(keys)),
        enough_hits(ascii_lowercase(extra + text), ascii_lowered_keys(keys)),
        ascii_inputs(text, keys) && is_ascii_chars(extra) ==> ascii_inputs(text + extra, keys)
            && ascii_inputs(extra + text, keys),
{
    let k = ascii_lowered_keys(keys);
    let t = ascii_lowercase(text);
    let e = ascii_lowercase(extra);
    lemma_ascii_lowercase_concat(text, extra);
    lemma_ascii_lowercase_concat(extra, text);
    assert forall|i: int| 0 <= i < k.len() && contains_seq(t, #[trigger] k[i]) implies contains_seq(
        t + e,
        k[i],
    ) && contains_seq(e + t, k[i]) by {
        lemma_contains_extended(t, e, k[i]);
    }
    lemma_signal_monotone(t, t + e, k);
    lemma_signal_monotone(t, e + t, k);
}

/// `hits` counts the keywords that occur in the text: it is the length of
/// the list of those keywords.
pub proof fn lemma_hits_counts_found_keys(text: Seq<char>, keys: Seq<Seq<char>>)
    ensures
        hits(text, keys) == keys.filter(|k: Seq<char>| contains_seq(text, k)).len(),
    decreases keys.len(),
{
    reveal(Seq::filter);
    if keys.len() > 0 {
        lemma_hits_counts_found_keys(text, keys.drop_last());
    }
}

/// The verdict is a threshold on the number of keywords found: the signal
/// is kept exactly when twice the keywords found, plus one for an odd
/// number of keywords, reaches the number of keywords (at least half of
/// them, rounded down). So with four keywords one found is not enough, and
/// with two keywords none found is not enough.
pub proof fn lemma_signal_threshold(text: Seq<char>, keys: Seq<Seq<char>>)
    ensures
        enough_hits(text, keys) <==> 2 * hits(text, keys) + keys.len() % 2 >= keys.len(),
        2 * hits(text, keys) + 1 < keys.len() ==> !enough_hits(text, keys),
        hits(text, keys) == keys.len() ==> enough_hits(text, keys),
        keys.filter(|k: Seq<char>| contains_seq(text, k)).len() == hits(text, keys),
{
    lemma_hits_counts_found_keys(text, keys);
    lemma_hits_bound(text, keys);
}
} // verus!
