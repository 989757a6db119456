//! The per-category layout of a comparison between two runs: which
//! categories both runs cover, in ascending order, and how many prompts the
//! first run has in each.
use vstd::prelude::*;
use crate::text::{chars_of, same_chars};

verus! {

/// `a` comes before `b` in character order (for UTF-8 strings this is also
/// the byte order that `String`'s `Ord` uses).
pub open spec fn chars_lt(a: Seq<char>, b: Seq<char>) -> bool
    decreases a.len(),
{
    if a.len() == 0 {
        b.len() > 0
    } else if b.len() == 0 {
        false
    } else if a[0] != b[0] {
        a[0] < b[0]
    } else {
        chars_lt(a.drop_first(), b.drop_first())
    }
}

/// How many times `c` occurs in `s`.
pub open spec fn occurrences(s: Seq<Seq<char>>, c: Seq<char>) -> nat
    decreases s.len(),
{
    if s.len() == 0 {
        0
    } else {
        occurrences(s.drop_last(), c) + (if s.last() == c {
            1nat
        } else {
            0nat
        })
    }
}

/// The views of a list of strings.
pub open spec fn category_views(s: Seq<String>) -> Seq<Seq<char>> {
    s.map_values(|c: String| c@)
}

/// The names of a list of (category, count) entries.
pub open spec fn entry_names(s: Seq<(String, usize)>) -> Seq<Seq<char>> {
    s.map_values(|e: (String, usize)| e.0@)
}

/// Each name comes strictly before the next.
pub open spec fn strictly_sorted(names: Seq<Seq<char>>) -> bool {
    forall|i: int, j: int| 0 <= i < j < names.len() ==> chars_lt(names[i], names[j])
}

pub proof fn lemma_chars_lt_irreflexive(a: Seq<char>)
    ensures
        !chars_lt(a, a),
    decreases a.len(),
{
    if a.len() > 0 {
        lemma_chars_lt_irreflexive(a.drop_first());
    }
}

pub proof fn lemma_chars_lt_transitive(a: Seq<char>, b: Seq<char>, c: Seq<char>)
    requires
        chars_lt(a, b),
        chars_lt(b, c),
    ensures
        chars_lt(a, c),
    decreases a.len(),
{
    if a.len() > 0 && b.len() > 0 && c.len() > 0 && a[0] == b[0] && b[0] == c[0] {
        lemma_chars_lt_transitive(a.drop_first(), b.drop_first(), c.drop_first());
    }
}

pub proof fn lemma_chars_lt_total(a: Seq<char>, b: Seq<char>)
    ensures
        a == b || chars_lt(a, b) || chars_lt(b, a),
    decreases a.len(),
{
    if a.len() > 0 && b.len() > 0 && a[0] == b[0] {
        lemma_chars_lt_total(a.drop_first(), b.drop_first());
        if a.drop_first() == b.drop_first() {
            assert(a =~= seq![a[0]] + a.drop_first());
            assert(b =~= seq![b[0]] + b.drop_first());
        }
    } else if a.len() == 0 && b.len() == 0 {
        assert(a =~= b);
    }
}

/// Whether `a` comes before `b` in character order.
pub fn less_chars(a: &Vec<char>, b: &Vec<char>) -> (r: bool)
    ensures
        r == chars_lt(a@, b@),
{
    let mut i: usize = 0;
    assert(a@.skip(0) =~= a@);
    assert(b@.skip(0) =~= b@);
    while i < a.len() && i < b.len() && a[i] == b[i]
        invariant
            i <= a.len(),
            i <= b.len(),
            chars_lt(a@, b@) == chars_lt(a@.skip(i as int), b@.skip(i as int)),
        decreases a.len() - i,
    {
        assert(a@.skip(i as int).drop_first() =~= a@.skip(i + 1));
        assert(b@.skip(i as int).drop_first() =~= b@.skip(i + 1));
        i = i + 1;
    }
    if i == a.len() {
        b.len() > i
    } else if i == b.len() {
        false
    } else {
        a[i] < b[i]
    }
}

proof fn lemma_occurrences_step(s: Seq<Seq<char>>, k: int, c: Seq<char>)
    requires
        0 <= k < s.len(),
    ensures
        occurrences(s.take(k + 1), c) == occurrences(s.take(k), c) + (if s[k] == c {
            1nat
        } else {
            0nat
        }),
        occurrences(s.take(k), c) <= k,
    decreases k,
{
    assert(s.take(k + 1).drop_last() =~= s.take(k));
    if k > 0 {
        lemma_occurrences_step(s, k - 1, c);
    }
}

/// How many times `c` occurs among `cats`.
pub fn count_category(cats: &Vec<String>, c: &Vec<char>) -> (n: usize)
    ensures
        n == occurrences(category_views(cats@), c@),
{
    let ghost v = category_views(cats@);
    let mut n: usize = 0;
    let mut k: usize = 0;
    while k < cats.len()
        invariant
            k <= cats.len(),
            v == category_views(cats@),
            n == occurrences(v.take(k as int), c@),
        decreases cats.len() - k,
    {
        let name = chars_of(cats[k].as_str());
        proof {
            lemma_occurrences_step(v, k as int, c@);
        }
        if same_chars(&name, c) {
            n = n + 1;
        }
        k = k + 1;
    }
    assert(v.take(k as int) =~= v);
    n
}

/// Every category of `cats` once, in ascending order, with the number of
/// times it occurs.
pub fn category_counts(cats: &Vec<String>) -> (r: Vec<(String, usize)>)
    ensures
        strictly_sorted(entry_names(r@)),
        forall|i: int|
            0 <= i < r@.len() ==> #[trigger] r@[i].1 == occurrences(category_views(cats@), r@[i].0@)
                && r@[i].1 > 0,
        forall|c: Seq<char>|
            occurrences(category_views(cats@), c) > 0 ==> #[trigger] entry_names(r@).contains(c),
{
    let ghost v = category_views(cats@);
    let mut out: Vec<(String, usize)> = Vec::new();
    let mut k: usize = 0;
    while k < cats.len()
        invariant
            k <= cats.len(),
            v == category_views(cats@),
            strictly_sorted(entry_names(out@)),
            forall|i: int|
                0 <= i < out@.len() ==> #[trigger] out@[i].1 == occurrences(v.take(k as int), out@[i].0@)
                    && out@[i].1 > 0,
            forall|c: Seq<char>|
                occurrences(v.take(k as int), c) > 0 ==> #[trigger] entry_names(out@).contains(c),
        decreases cats.len() - k,
    {
        let x = chars_of(cats[k].as_str());
        let ghost names = entry_names(out@);
        let ghost old_out = out@;
        proof {
            assert(v[k as int] == x@);
            assert forall|c: Seq<char>| true implies occurrences(v.take(k + 1), c) == occurrences(
                v.take(k as int),
                c,
            ) + (if x@ == c {
                1nat
            } else {
                0nat
            }) && occurrences(v.take(k as int), c) <= k by {
                lemma_occurrences_step(v, k as int, c);
            }
        }
        let mut j: usize = 0;
        while j < out.len() && less_chars(&chars_of(out[j].0.as_str()), &x)
            invariant
                j <= out.len(),
                out@ == old_out,
                names == entry_names(out@),
                forall|m: int| 0 <= m < j ==> chars_lt(#[trigger] names[m], x@),
            decreases out.len() - j,
        {
            j = j + 1;
        }
        let found = j < out.len() && same_chars(&chars_of(out[j].0.as_str()), &x);
        if found {
            let (name, count) = out.remove(j);
            proof {
                assert(names[j as int] == x@);
                assert(count == occurrences(v.take(k as int), x@));
                assert(count <= k);
            }
            out.insert(j, (name, count + 1));
            proof {
                assert(entry_names(out@) =~= names);
                assert forall|i: int| 0 <= i < out@.len() implies #[trigger] out@[i].1
                    == occurrences(v.take(k + 1), out@[i].0@) && out@[i].1 > 0 by {
                    if i != j {
                        assert(out@[i] == old_out[i]);
                        if out@[i].0@ == x@ {
                            assert(names[i] == names[j as int]);
                            if i < j {
                                assert(chars_lt(names[i], names[j as int]));
                            } else {
                                assert(chars_lt(names[j as int], names[i]));
                            }
                            lemma_chars_lt_irreflexive(x@);
                        }
                    }
                }
                assert forall|c: Seq<char>| occurrences(v.take(k + 1), c) > 0 implies #[trigger] entry_names(
                    out@,
                ).contains(c) by {
                    if c == x@ {
                        assert(entry_names(out@)[j as int] == c);
                    } else {
                        assert(names.contains(c));
                    }
                }
            }
        } else {
            let ghost xv = x@;
            proof {
                if j < out.len() {
                    lemma_chars_lt_total(names[j as int], xv);
                    assert(chars_lt(xv, names[j as int]));
                }
                assert(!names.contains(xv)) by {
                    if names.contains(xv) {
                        let m = choose|m: int| 0 <= m < names.len() && names[m] == xv;
                        lemma_chars_lt_irreflexive(xv);
                        if m > j {
                            assert(chars_lt(names[j as int], names[m]));
                            lemma_chars_lt_transitive(xv, names[j as int], names[m]);
                        }
                    }
                }
                assert(occurrences(v.take(k as int), xv) == 0);
            }
            out.insert(j, (cats[k].clone(), 1));
            proof {
                assert(entry_names(out@) =~= names.insert(j as int, xv));
                assert forall|a: int, b: int| 0 <= a < b < out@.len() implies chars_lt(
                    entry_names(out@)[a],
                    entry_names(out@)[b],
                ) by {
                    let en = entry_names(out@);
                    if b < j {
                        assert(en[a] == names[a] && en[b] == names[b]);
                    } else if b == j {
                        assert(en[a] == names[a]);
                    } else if a < j {
                        assert(en[a] == names[a] && en[b] == names[b - 1]);
                        lemma_chars_lt_transitive(names[a], xv, names[j as int]);
                        if b - 1 > j {
                            lemma_chars_lt_transitive(names[a], names[j as int], names[b - 1]);
                        }
                    } else if a == j {
                        assert(en[b] == names[b - 1]);
                        if b - 1 > j {
                            lemma_chars_lt_transitive(xv, names[j as int], names[b - 1]);
                        }
                    } else {
                        assert(en[a] == names[a - 1] && en[b] == names[b - 1]);
                    }
                }
                assert forall|i: int| 0 <= i < out@.len() implies #[trigger] out@[i].1
                    == occurrences(v.take(k + 1), out@[i].0@) && out@[i].1 > 0 by {
                    if i < j {
                        assert(out@[i] == old_out[i]);
                        assert(names[i] != xv);
                    } else if i > j {
                        assert(out@[i] == old_out[i - 1]);
                        assert(names[i - 1] != xv);
                    }
                }
                assert forall|c: Seq<char>| occurrences(v.take(k + 1), c) > 0 implies #[trigger] entry_names(
                    out@,
                ).contains(c) by {
                    let en = entry_names(out@);
                    if c == xv {
                        assert(en[j as int] == c);
                    } else {
                        assert(occurrences(v.take(k as int), c) > 0);
                        assert(entry_names(old_out).contains(c));
                        assert(names.contains(c));
                        let m = choose|m: int| 0 <= m < names.len() && names[m] == c;
                        if m < j {
                            assert(en[m] == c);
                        } else {
                            assert(en[m + 1] == c);
                        }
                    }
                }
            }
        }
        k = k + 1;
    }
    assert(v.take(k as int) =~= v);
    out
}

/// The categories that both runs cover, in ascending order, each with the
/// number of prompts the first run has in it.
pub fn shared_categories(a: &Vec<String>, b: &Vec<String>) -> (r: Vec<(String, usize)>)
    ensures
        strictly_sorted(entry_names(r@)),
        forall|i: int|
            0 <= i < r@.len() ==> {
                &&& #[trigger] r@[i].1 == occurrences(category_views(a@), r@[i].0@)
                &&& r@[i].1 > 0
                &&& occurrences(category_views(b@), r@[i].0@) > 0
            },
        forall|c: Seq<char>|
            occurrences(category_views(a@), c) > 0 && occurrences(category_views(b@), c) > 0
                ==> #[trigger] entry_names(r@).contains(c),
{
    let counts = category_counts(a);
    let ghost cn = entry_names(counts@);
    let mut counts = counts;
    let ghost all = counts@;
    let n = counts.len();
    let mut out: Vec<(String, usize)> = Vec::new();
    let mut i: usize = 0;
    while counts.len() > 0
        invariant
            counts@ == all.skip(i as int),
            i <= all.len(),
            all.len() == n,
            cn == entry_names(all),
            strictly_sorted(cn),
            forall|p: int|
                0 <= p < all.len() ==> #[trigger] all[p].1 == occurrences(category_views(a@), all[p].0@)
                    && all[p].1 > 0,
            strictly_sorted(entry_names(out@)),
            forall|m: int, p: int|
                0 <= m < out@.len() && i <= p < all.len() ==> chars_lt(
                    #[trigger] entry_names(out@)[m],
                    #[trigger] cn[p],
                ),
            forall|m: int|
                0 <= m < out@.len() ==> {
                    &&& #[trigger] out@[m].1 == occurrences(category_views(a@), out@[m].0@)
                    &&& out@[m].1 > 0
                    &&& occurrences(category_views(b@), out@[m].0@) > 0
                },
            forall|p: int|
                0 <= p < i && occurrences(category_views(b@), #[trigger] cn[p]) > 0
                    ==> entry_names(out@).contains(cn[p]),
        decreases counts.len(),
    {
        let entry = counts.remove(0);
        proof {
            assert(entry == all[i as int]);
            assert(counts@ =~= all.skip(i + 1));
            assert(cn[i as int] == entry.0@);
        }
        let name = chars_of(entry.0.as_str());
        let in_b = count_category(b, &name);
        let ghost before = out@;
        if in_b > 0 {
            out.push(entry);
            proof {
                let en = entry_names(out@);
                assert(en =~= entry_names(before).push(cn[i as int]));
                assert forall|x: int, y: int| 0 <= x < y < en.len() implies chars_lt(en[x], en[y]) by {
                    if y == en.len() - 1 {
                        assert(en[x] == entry_names(before)[x]);
                    } else {
                        assert(en[x] == entry_names(before)[x] && en[y] == entry_names(before)[y]);
                    }
                }
                assert forall|m: int, p: int|
                    0 <= m < en.len() && i + 1 <= p < all.len() implies chars_lt(
                    #[trigger] en[m],
                    #[trigger] cn[p],
                ) by {
                    if m == en.len() - 1 {
                        assert(chars_lt(cn[i as int], cn[p]));
                    } else {
                        assert(en[m] == entry_names(before)[m]);
                    }
                }
                assert forall|m: int| 0 <= m < out@.len() implies {
                    &&& #[trigger] out@[m].1 == occurrences(category_views(a@), out@[m].0@)
                    &&& out@[m].1 > 0
                    &&& occurrences(category_views(b@), out@[m].0@) > 0
                } by {
                    if m < before.len() {
                        assert(out@[m] == before[m]);
                    }
                }
                assert forall|p: int|
                    0 <= p < i + 1 && occurrences(category_views(b@), #[trigger] cn[p]) > 0 implies en.contains(
                    cn[p],
                ) by {
                    if p == i {
                        assert(en[en.len() - 1] == cn[p]);
                    } else {
                        let m = choose|m: int| 0 <= m < entry_names(before).len() && entry_names(before)[m] == cn[p];
                        assert(en[m] == cn[p]);
                    }
                }
            }
        }
        i = i + 1;
    }
    proof {
        assert forall|c: Seq<char>|
            occurrences(category_views(a@), c) > 0 && occurrences(category_views(b@), c) > 0
                implies #[trigger] entry_names(out@).contains(c) by {
            assert(cn.contains(c));
            let p = choose|p: int| 0 <= p < cn.len() && cn[p] == c;
        }
    }
    out
}

/// Character order compares at the first difference, and a proper prefix
/// comes first.
pub proof fn lemma_chars_order(a: Seq<char>, b: Seq<char>, i: int)
    requires
        0 <= i < a.len(),
        i < b.len(),
        a.take(i) == b.take(i),
        a[i] < b[i],
    ensures
        chars_lt(a, b),
        !chars_lt(b, a),
    decreases i,
{
    if i > 0 {
        assert(a[0] == a.take(i)[0] && b[0] == b.take(i)[0]);
        assert(a.drop_first().take(i - 1) =~= a.take(i).drop_first());
        assert(b.drop_first().take(i - 1) =~= b.take(i).drop_first());
        lemma_chars_order(a.drop_first(), b.drop_first(), i - 1);
    }
}

/// A proper prefix comes first.
pub proof fn lemma_prefix_first(a: Seq<char>, b: Seq<char>)
    requires
        b.len() > 0,
    ensures
        chars_lt(a, a + b),
        !chars_lt(a + b, a),
    decreases a.len(),
{
    if a.len() > 0 {
        assert((a + b).drop_first() =~= a.drop_first() + b);
        assert((a + b)[0] == a[0]);
        lemma_prefix_first(a.drop_first(), b);
    }
}

/// `occurrences` counts the equal entries.
pub proof fn lemma_occurrences_counts(s: Seq<Seq<char>>, c: Seq<char>)
    ensures
        occurrences(s, c) == s.filter(|x: Seq<char>| x == c).len(),
        occurrences(s.push(c), c) == occurrences(s, c) + 1,
        forall|d: Seq<char>| d != c ==> #[trigger] occurrences(s.push(d), c) == occurrences(s, c),
    decreases s.len(),
{
    reveal(Seq::filter);
    if s.len() > 0 {
        lemma_occurrences_counts(s.drop_last(), c);
    }
    assert(s.push(c).drop_last() =~= s);
    assert forall|d: Seq<char>| d != c implies #[trigger] occurrences(s.push(d), c) == occurrences(s, c) by {
        assert(s.push(d).drop_last() =~= s);
    }
}
} // verus!
