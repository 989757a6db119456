//! Separating a thinking model's `<think>` block from its answer, and the
//! characters-to-tokens estimate used for think blocks.
use vstd::prelude::*;
use vstd::utf8::encode_utf8;
use vstd::arithmetic::power2::{lemma2_to64, lemma_pow2_pos, lemma_pow2_unfold, pow2};
use vstd::arithmetic::div_mod::lemma_div_denominator;
use crate::text::{
    chars_of, count_leading_ws, find_first, find_seq, leading_ws, trim_start_ws,
    lemma_leading_ws_bound, lemma_find_from_sound, matches_at,
};

verus! {

/// The tag that opens a think block.
pub open spec fn open_tag() -> Seq<char> {
    "<think>"@
}

/// The tag that closes a think block.
pub open spec fn close_tag() -> Seq<char> {
    "</think>"@
}

/// Length in UTF-8 bytes of `s`, as `str::len` reports it.
pub open spec fn byte_len(s: Seq<char>) -> usize {
    encode_utf8(s).len() as usize
}

/// Bytes between the end of the first `<think>` and the start of the first
/// `</think>` (zero when that span is empty or reversed, or a tag is missing).
pub open spec fn think_bytes(raw: Seq<char>) -> usize {
    match (find_first(raw, open_tag()), find_first(raw, close_tag())) {
        (Some(s), Some(e)) => {
            let start = byte_len(raw.take(s + open_tag().len()));
            let end = byte_len(raw.take(e));
            if end >= start {
                (end - start) as usize
            } else {
                0
            }
        },
        _ => 0,
    }
}

/// The answer that follows the think block: what comes after the first
/// `</think>`, without leading whitespace; the whole text when either tag
/// is missing.
pub open spec fn think_response(raw: Seq<char>) -> Seq<char> {
    match (find_first(raw, open_tag()), find_first(raw, close_tag())) {
        (Some(s), Some(e)) => trim_start_ws(raw.skip(e + close_tag().len())),
        _ => raw,
    }
}

/// Largest integer below which every integer is exactly an `f64`.
pub open spec fn f64_exact_limit() -> nat {
    0x20_0000_0000_0000
}

/// How many times `c` must be halved before it is below `2^53`: the number
/// of low bits that do not fit in an `f64` significand.
pub open spec fn dropped_bits(c: nat) -> nat
    decreases c,
{
    if c < f64_exact_limit() {
        0
    } else {
        1 + dropped_bits(c / 2)
    }
}

/// The value of `c as f64`: `c` rounded to 53 significant bits, to nearest,
/// ties to even.
pub open spec fn as_f64_value(c: nat) -> nat {
    let s = dropped_bits(c);
    if s == 0 {
        c
    } else {
        let p = pow2(s);
        let q = c / p;
        let r = c % p;
        let up = r > p / 2 || (r == p / 2 && q % 2 == 1);
        ((q + if up {
            1nat
        } else {
            0nat
        }) * p) as nat
    }
}

/// Token estimate for `c` characters: `c / 4` rounded to the nearest
/// integer, halves rounded up.
pub open spec fn tokens_for(c: int) -> int {
    (c + 2) / 4
}

/// The token estimate for `c` characters: the `f64` value of `c` divided by
/// four and rounded to nearest, halves away from zero (the quarter is exact
/// and a multiple of one quarter, so this is `tokens_for` of that value).
pub open spec fn estimated_tokens(c: nat) -> int {
    tokens_for(as_f64_value(c) as int)
}

/// Splits a model reply into (bytes inside the think block, byte length of
/// the answer, the answer).
pub fn split_think(raw: &str) -> (r: (usize, usize, &str))
    ensures
        r.0 == think_bytes(raw@),
        r.2@ == think_response(raw@),
        r.1 == byte_len(r.2@),
{
    let cs = chars_of(raw);
    let open = chars_of("<think>");
    let close = chars_of("</think>");
    let n = cs.len();
    let found_open = find_seq(&cs, &open);
    let found_close = find_seq(&cs, &close);
    match (found_open, found_close) {
        (Some(s), Some(e)) => {
            proof {
                lemma_find_from_sound(cs@, open@, 0);
                lemma_find_from_sound(cs@, close@, 0);
                assert(matches_at(cs@, open@, s as int));
                assert(matches_at(cs@, close@, e as int));
            }
            let start = raw.substring_char(0, s + open.len()).len();
            let end = raw.substring_char(0, e).len();
            let think = end.saturating_sub(start);
            let from = e + close.len();
            let skip = count_leading_ws(&cs, from);
            let after = raw.substring_char(from + skip, n);
            proof {
                let t = raw@.skip(from as int);
                assert(cs@.skip(from as int) == t);
                lemma_leading_ws_bound(t);
                assert(after@ =~= t.skip(leading_ws(t) as int));
            }
            (think, after.len(), after)
        },
        _ => (0, raw.len(), raw),
    }
}

/// Estimated tokens for a count of characters: a quarter of it, rounded
/// half up, computed on the count's `f64` value.
pub fn chars_to_tokens(c: usize) -> (t: u64)
    ensures
        t == estimated_tokens(c as nat),
{
    let n = c as u64;
    if n < 0x20_0000_0000_0000 {
        let q = n / 4;
        return if n % 4 >= 2 {
            q + 1
        } else {
            q
        };
    }
    let mut q: u64 = n;
    let mut p: u64 = 1;
    let ghost mut k: nat = 0;
    proof {
        lemma_pow2_pos(0);
        assert(pow2(0) == 1) by {
            lemma2_to64();
        }
    }
    while q >= 0x20_0000_0000_0000
        invariant
            n == c,
            p == pow2(k),
            p >= 1,
            k <= 11,
            q == n as nat / p as nat,
            q * p <= n,
            dropped_bits(n as nat) == k + dropped_bits(q as nat),
        decreases q,
    {
        proof {
            assert(p < 0x800) by (nonlinear_arith)
                requires
                    q >= 0x20_0000_0000_0000,
                    q * p <= n,
                    n <= 0xffff_ffff_ffff_ffff,
                    p >= 1,
            ;
            assert(k < 11) by {
                lemma2_to64();
                if k >= 11 {
                    if k > 11 {
                        vstd::arithmetic::power2::lemma_pow2_strictly_increases(11, k);
                    }
                }
            }
            lemma_pow2_unfold(k + 1);
            lemma_div_denominator(n as int, p as int, 2);
            assert(q as nat / 2 * (p * 2) <= n) by (nonlinear_arith)
                requires
                    q * p <= n,
                    p >= 1,
            ;
        }
        q = q / 2;
        p = p * 2;
        proof {
            k = k + 1;
        }
    }
    let r = n % p;
    let half = p / 2;
    let up = r > half || (r == half && q % 2 == 1);
    let qr: u64 = if up {
        q + 1
    } else {
        q
    };
    proof {
        assert(k > 0) by {
            if k == 0 {
                assert(p == 1) by {
                    lemma2_to64();
                }
            }
        }
        assert(p <= 0x800) by {
            lemma2_to64();
            if k < 11 {
                vstd::arithmetic::power2::lemma_pow2_strictly_increases(k, 11);
            }
        }
        assert(qr * p <= 0x1_0000_0000_0000_0000) by (nonlinear_arith)
            requires
                qr <= 0x20_0000_0000_0000,
                p <= 0x800,
        ;
    }
    let value: u128 = (qr as u128) * (p as u128);
    let t = (value + 2) / 4;
    t as u64
}

/// The think tokens recorded for a reply.
pub open spec fn think_estimate(thinking_model: bool, reported: Option<u64>, reply: Seq<char>) -> Option<u64> {
    if !thinking_model {
        None
    } else {
        match reported {
            Some(n) => Some(n),
            None => Some(estimated_tokens(think_bytes(reply) as nat) as u64),
        }
    }
}

/// Think-block tokens for one reply: none unless the model is a thinking
/// model; the count the API reported when there is one; otherwise the
/// estimate from the reply's think block.
pub fn estimate_think(thinking_model: bool, reported: Option<u64>, reply: &str) -> (r: Option<u64>)
    ensures
        r == think_estimate(thinking_model, reported, reply@),
{
    if !thinking_model {
        return None;
    }
    match reported {
        Some(n) => Some(n),
        None => {
            let (c, _, _) = split_think(reply);
            Some(chars_to_tokens(c))
        },
    }
}

/// The rounding of `c / 4` grows with `c`, and four characters make one
/// token.
pub proof fn lemma_tokens_for_monotone(a: int, b: int, k: int)
    requires
        0 <= a <= b,
        0 <= k,
    ensures
        tokens_for(a) <= tokens_for(b),
        tokens_for(4 * k) == k,
{
}

proof fn lemma_dropped_bits_bounds(c: nat)
    ensures
        c < f64_exact_limit() * pow2(dropped_bits(c)),
        dropped_bits(c) > 0 ==> c >= (f64_exact_limit() / 2) * pow2(dropped_bits(c)),
    decreases c,
{
    lemma_pow2_pos(dropped_bits(c));
    if c < f64_exact_limit() {
        lemma2_to64();
    } else {
        let h = c / 2;
        let s1 = dropped_bits(h);
        lemma_dropped_bits_bounds(h);
        lemma_pow2_unfold(s1 + 1);
        lemma_pow2_pos(s1);
        let p1 = pow2(s1);
        assert(dropped_bits(c) == s1 + 1);
        assert(pow2(s1 + 1) == 2 * p1);
        assert(c < f64_exact_limit() * (2 * p1)) by (nonlinear_arith)
            requires
                h == c / 2,
                h < 0x20_0000_0000_0000 * p1,
                f64_exact_limit() == 0x20_0000_0000_0000,
        ;
        if s1 > 0 {
            assert(c >= 0x10_0000_0000_0000 * (2 * p1)) by (nonlinear_arith)
                requires
                    h == c / 2,
                    h >= 0x10_0000_0000_0000 * p1,
            ;
        } else {
            lemma2_to64();
            assert(p1 == 1);
        }
    }
}

proof fn lemma_dropped_bits_monotone(a: nat, b: nat)
    requires
        a <= b,
    ensures
        dropped_bits(a) <= dropped_bits(b),
    decreases b,
{
    if a >= f64_exact_limit() {
        lemma_dropped_bits_monotone(a / 2, b / 2);
    }
}

/// Facts about the `f64` value of a count: it lies within one grid step of
/// the count, on a grid of `pow2(dropped_bits(c))`.
proof fn lemma_f64_value_bounds(c: nat)
    ensures
        dropped_bits(c) > 0 ==> {
            let p = pow2(dropped_bits(c));
            &&& (c / p) * p <= as_f64_value(c) <= (c / p + 1) * p
            &&& (f64_exact_limit() / 2) * p <= as_f64_value(c)
            &&& as_f64_value(c) <= f64_exact_limit() * p
        },
        dropped_bits(c) == 0 ==> as_f64_value(c) == c && c < f64_exact_limit(),
{
    lemma_dropped_bits_bounds(c);
    let s = dropped_bits(c);
    lemma_pow2_pos(s);
    if s > 0 {
        let p = pow2(s);
        let q = c / p;
        vstd::arithmetic::div_mod::lemma_fundamental_div_mod(c as int, p as int);
        assert(q < 0x20_0000_0000_0000) by (nonlinear_arith)
            requires
                c == p * q + c % p,
                c % p >= 0,
                p > 0,
                c < 0x20_0000_0000_0000 * p,
        ;
        assert(q >= 0x10_0000_0000_0000) by (nonlinear_arith)
            requires
                c == p * q + c % p,
                c % p < p,
                p > 0,
                c >= 0x10_0000_0000_0000 * p,
        ;
        assert((q + 1) * p <= 0x20_0000_0000_0000 * p) by (nonlinear_arith)
            requires
                q + 1 <= 0x20_0000_0000_0000,
                p > 0,
        ;
        assert(q * p <= (q + 1) * p) by (nonlinear_arith)
            requires
                p > 0,
        ;
        assert(0x10_0000_0000_0000 * p <= q * p) by (nonlinear_arith)
            requires
                q >= 0x10_0000_0000_0000,
                p > 0,
        ;
    } else {
        lemma2_to64();
    }
}

/// The token estimate never decreases as the character count grows, and
/// four characters (below `2^53`) make one token.
pub proof fn lemma_tokens_monotone(a: nat, b: nat, k: nat)
    requires
        a <= b,
        4 * k < f64_exact_limit(),
    ensures
        estimated_tokens(a) <= estimated_tokens(b),
        estimated_tokens(4 * k) == k,
{
    lemma_f64_value_bounds(4 * k);
    lemma_dropped_bits_monotone(a, b);
    lemma_f64_value_bounds(a);
    lemma_f64_value_bounds(b);
    let sa = dropped_bits(a);
    let sb = dropped_bits(b);
    lemma_pow2_pos(sa);
    lemma_pow2_pos(sb);
    let pa = pow2(sa);
    let pb = pow2(sb);
    if sa == sb {
        if sa > 0 {
            let q_a = a / pa;
            let q_b = b / pa;
            vstd::arithmetic::div_mod::lemma_div_is_ordered(a as int, b as int, pa as int);
            if q_a < q_b {
                assert((q_a + 1) * pa <= q_b * pa) by (nonlinear_arith)
                    requires
                        q_a + 1 <= q_b,
                        pa > 0,
                ;
            } else {
                vstd::arithmetic::div_mod::lemma_fundamental_div_mod(a as int, pa as int);
                vstd::arithmetic::div_mod::lemma_fundamental_div_mod(b as int, pa as int);
                assert(a % pa <= b % pa);
            }
        }
    } else {
        assert(sa < sb);
        vstd::arithmetic::power2::lemma_pow2_adds(sa, (sb - sa - 1) as nat);
        lemma_pow2_unfold(sb);
        lemma_pow2_pos((sb - sa - 1) as nat);
        assert(pb >= 2 * pa) by (nonlinear_arith)
            requires
                pb == 2 * pow2((sb - 1) as nat),
                pow2((sb - 1) as nat) == pa * pow2((sb - sa - 1) as nat),
                pow2((sb - sa - 1) as nat) >= 1,
                pa > 0,
        ;
        assert(as_f64_value(a) <= as_f64_value(b)) by (nonlinear_arith)
            requires
                as_f64_value(a) <= 0x20_0000_0000_0000 * pa,
                0x10_0000_0000_0000 * pb <= as_f64_value(b),
                pb >= 2 * pa,
        ;
    }
}

/// A reply without a closing `</think>` has no think block: nothing is
/// counted as thinking and the whole reply is the answer.
pub proof fn lemma_no_close_tag(raw: Seq<char>)
    requires
        !crate::text::contains_seq(raw, close_tag()),
    ensures
        think_bytes(raw) == 0,
        think_response(raw) == raw,
{
    crate::text::lemma_contains_iff_found(raw, close_tag());
}
/// Below `2^53` every count is exact in an `f64`, so the estimate is the
/// count's quarter rounded half up.
pub proof fn lemma_small_counts_exact(c: nat)
    requires
        c < f64_exact_limit(),
    ensures
        estimated_tokens(c) == tokens_for(c as int),
{
}

/// The UTF-8 bytes of two texts side by side are the bytes of each.
pub proof fn lemma_encode_utf8_concat(a: Seq<char>, b: Seq<char>)
    ensures
        encode_utf8(a + b) == encode_utf8(a) + encode_utf8(b),
        a.len() <= encode_utf8(a).len(),
    decreases a.len(),
{
    if a.len() == 0 {
        assert(a + b =~= b);
        assert(encode_utf8(a) + encode_utf8(b) =~= encode_utf8(b));
    } else {
        lemma_encode_utf8_concat(a.drop_first(), b);
        assert((a + b).drop_first() =~= a.drop_first() + b);
        assert((a + b)[0] == a[0]);
        assert(encode_utf8(a + b) =~= encode_utf8(a) + encode_utf8(b));
    }
}

/// The think count is the number of UTF-8 bytes of the text between the end
/// of the first `<think>` and the start of the first `</think>`; it is zero
/// when the closing tag starts before the opening tag ends, or a tag is
/// missing.
pub proof fn lemma_think_bytes_between_tags(raw: Seq<char>)
    requires
        encode_utf8(raw).len() <= usize::MAX,
    ensures
        match (find_first(raw, open_tag()), find_first(raw, close_tag())) {
            (Some(s), Some(e)) => {
                &&& s + open_tag().len() <= e ==> think_bytes(raw) == encode_utf8(
                    raw.subrange(s + open_tag().len(), e),
                ).len()
                &&& e < s + open_tag().len() ==> think_bytes(raw) == 0
            },
            _ => think_bytes(raw) == 0,
        },
{
    lemma_find_from_sound(raw, open_tag(), 0);
    lemma_find_from_sound(raw, close_tag(), 0);
    match (find_first(raw, open_tag()), find_first(raw, close_tag())) {
        (Some(s), Some(e)) => {
            let a = s + open_tag().len();
            assert(a <= raw.len());
            assert(e <= raw.len());
            let lo = if a <= e { a } else { e };
            let hi = if a <= e { e } else { a };
            assert(raw.take(hi) =~= raw.take(lo) + raw.subrange(lo, hi));
            assert(raw =~= raw.take(hi) + raw.skip(hi));
            lemma_encode_utf8_concat(raw.take(lo), raw.subrange(lo, hi));
            lemma_encode_utf8_concat(raw.take(hi), raw.skip(hi));
            lemma_encode_utf8_concat(raw.subrange(lo, hi), Seq::<char>::empty());
        },
        _ => {},
    }
}

/// The answer is what follows the first `</think>`: that text is some
/// whitespace and then the answer, which does not start with whitespace.
pub proof fn lemma_answer_follows_close_tag(raw: Seq<char>)
    ensures
        match (find_first(raw, open_tag()), find_first(raw, close_tag())) {
            (Some(s), Some(e)) => {
                let rest = raw.skip(e + close_tag().len());
                let ans = think_response(raw);
                let gap = rest.len() - ans.len();
                &&& 0 <= gap
                &&& rest == rest.take(gap) + ans
                &&& forall|i: int| 0 <= i < gap ==> crate::text::is_ws(#[trigger] rest[i])
                &&& ans.len() > 0 ==> !crate::text::is_ws(ans[0])
            },
            _ => think_response(raw) == raw,
        },
{
    match (find_first(raw, open_tag()), find_first(raw, close_tag())) {
        (Some(s), Some(e)) => {
            let rest = raw.skip(e + close_tag().len());
            lemma_leading_ws_bound(rest);
            crate::text::lemma_trim_start_idempotent(rest);
            let gap = leading_ws(rest) as int;
            assert(rest =~= rest.take(gap) + rest.skip(gap));
        },
        _ => {},
    }
}

/// Halves round up: `4k + 1` characters make `k` tokens and `4k + 2` make
/// `k + 1` (below `2^53`).
pub proof fn lemma_tokens_round_half_up(k: nat)
    requires
        4 * k + 3 < f64_exact_limit(),
    ensures
        estimated_tokens(4 * k + 1) == k,
        estimated_tokens(4 * k + 2) == k + 1,
        estimated_tokens(4 * k + 3) == k + 1,
{
}

/// Think tokens are recorded only for thinking models; a count the API
/// reports is used as it is; otherwise the estimate from the reply's think
/// block is used, which is zero for a reply without `</think>`.
pub proof fn lemma_think_estimate_sources(reported: Option<u64>, reply: Seq<char>, n: u64)
    ensures
        think_estimate(false, reported, reply) is None,
        think_estimate(true, Some(n), reply) == Some(n),
        think_estimate(true, None, reply) == Some(estimated_tokens(think_bytes(reply) as nat) as u64),
        !crate::text::contains_seq(reply, close_tag()) ==> think_estimate(true, None, reply) == Some(0u64),
{
    if !crate::text::contains_seq(reply, close_tag()) {
        lemma_no_close_tag(reply);
        assert(as_f64_value(0) == 0);
    }
}
} // verus!
