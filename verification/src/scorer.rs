//! Scoring helpers: size formatting and the value ranges that scores are
//! normalised against.

use vstd::prelude::*;
use crate::text::{decimal, digit_char, push_decimal, push_char};

verus! {

pub open spec fn two_pow(k: nat) -> nat
    decreases k,
{
    if k == 0 { 1 } else { 2 * two_pow((k - 1) as nat) }
}

} // verus!

verus! {

/// `num / den` rounded to the nearest integer, ties to the even neighbour.
pub open spec fn round_half_even(num: nat, den: nat) -> nat
    recommends
        den > 0,
{
    let q = num / den;
    let r = num % den;
    if 2 * r > den {
        q + 1
    } else if 2 * r < den {
        q
    } else if q % 2 == 0 {
        q
    } else {
        q + 1
    }
}

/// The spacing of the `f64` values around `n`, searched from `2^k` upwards: the
/// least power of two `p` (at most `2^11`) such that `n / p` fits in 53 bits.
pub open spec fn f64_spacing_from(n: nat, k: nat) -> nat
    decreases 11 - k,
{
    if k >= 11 || n / two_pow(k) < two_pow(53) {
        two_pow(k)
    } else {
        f64_spacing_from(n, k + 1)
    }
}

/// The value of the `f64` nearest to the integer `n < 2^64` (ties to even),
/// as produced by an `as f64` conversion.
pub open spec fn f64_nearest(n: nat) -> nat {
    let p = f64_spacing_from(n, 0);
    round_half_even(n, p) * p
}

/// A count of tenths written with one decimal place, as in `"12.3"`.
pub open spec fn tenths_text(t: nat) -> Seq<char> {
    decimal(t / 10) + seq!['.', digit_char(t % 10)]
}

/// Human-readable size: whole bytes below 1 KiB, otherwise KiB or MiB with one
/// decimal place, rounded half to even from the exact binary value.
pub open spec fn size_text(bytes: nat) -> Seq<char> {
    if bytes < 1024 {
        decimal(bytes) + seq!['B']
    } else if bytes < 1048576 {
        tenths_text(round_half_even(bytes * 10, 1024)) + seq!['K', 'B']
    } else {
        tenths_text(round_half_even(f64_nearest(bytes) * 10, 1048576)) + seq!['M', 'B']
    }
}

proof fn lemma_two_pow_mono(k: nat, j: nat)
    requires
        k <= j,
    ensures
        1 <= two_pow(k) <= two_pow(j),
    decreases j,
{
    if j > k {
        lemma_two_pow_mono(k, (j - 1) as nat);
    } else if k > 0 {
        lemma_two_pow_mono((k - 1) as nat, (k - 1) as nat);
    }
}

proof fn lemma_two_pow_facts(k: nat)
    ensures
        two_pow(k) >= 1,
        k <= 11 ==> two_pow(k) <= 2048,
{
    reveal_with_fuel(two_pow, 12);
    if k <= 11 {
        lemma_two_pow_mono(k, 11);
    } else {
        lemma_two_pow_mono(k, k);
    }
}

proof fn lemma_two_pow_53()
    ensures
        two_pow(53) == 9007199254740992,
{
    reveal_with_fuel(two_pow, 54);
}

fn round_half_even_u128(num: u128, den: u128) -> (q: u128)
    requires
        den > 0,
        num / den < u128::MAX,
    ensures
        q == round_half_even(num as nat, den as nat),
        q <= num / den + 1,
{
    let q = num / den;
    let r = num % den;
    assert(r < den);
    if r > den - r {
        assert(2 * r > den);
        q + 1
    } else if r < den - r {
        q
    } else if q % 2 == 0 {
        q
    } else {
        q + 1
    }
}

fn push_tenths(s: &mut String, t: u64)
    ensures
        final(s)@ == old(s)@ + tenths_text(t as nat),
{
    push_decimal(s, t / 10);
    push_char(s, '.');
    push_char(s, crate::text::digit(t % 10));
    assert(final(s)@ =~= old(s)@ + tenths_text(t as nat));
}

/// Formats a byte count for display, e.g. `500B`, `1.0KB`, `1.5MB`.
pub fn format_size(bytes: u64) -> (s: String)
    ensures
        s@ == size_text(bytes as nat),
{
    let mut s = String::new();
    if bytes < 1024 {
        push_decimal(&mut s, bytes);
        push_char(&mut s, 'B');
    } else if bytes < 1048576 {
        let t = round_half_even_u128(bytes as u128 * 10, 1024);
        assert(t <= 10240);
        push_tenths(&mut s, t as u64);
        push_char(&mut s, 'K');
        push_char(&mut s, 'B');
    } else {
        let mut k: u64 = 0;
        let mut p: u64 = 1;
        proof { lemma_two_pow_53(); }
        while k < 11 && bytes / p >= 9007199254740992
            invariant
                two_pow(53) == 9007199254740992,
                k <= 11,
                p == two_pow(k as nat),
                1 <= p <= 2048,
                f64_spacing_from(bytes as nat, 0) == f64_spacing_from(bytes as nat, k as nat),
            decreases 11 - k,
        {
            p = p * 2;
            k = k + 1;
            proof { lemma_two_pow_facts(k as nat); }
        }
        proof { lemma_two_pow_53(); }
        assert(f64_spacing_from(bytes as nat, 0) == p);
        proof { lemma_two_pow_facts(k as nat); }
        let m = round_half_even_u128(bytes as u128, p as u128);
        assert(m <= bytes as u128 / p as u128 + 1);
        assert(bytes as u128 / p as u128 <= bytes as u128) by (nonlinear_arith)
            requires p >= 1;
        assert(m * (p as u128) <= 18446744073709551616u128 * 2048) by (nonlinear_arith)
            requires m <= 18446744073709551616u128, p <= 2048;
        let f: u128 = m * (p as u128);
        let t = round_half_even_u128(f * 10, 1048576);
        assert(t <= (f * 10) / 1048576 + 1);
        assert(t < 18446744073709551615u128);
        push_tenths(&mut s, t as u64);
        push_char(&mut s, 'M');
        push_char(&mut s, 'B');
    }
    assert(s@ =~= size_text(bytes as nat));
    s
}

} // verus!

verus! {

/// The measurements of one file that its score is computed from.
#[derive(Clone, Copy, Debug)]
pub struct ScorerInput {
    pub git_commits: u32,
    pub file_size: u64,
    pub ref_count: u32,
}

/// The least and the greatest value of one measurement.
#[derive(Clone, Copy, Debug)]
pub struct ValueRange {
    pub min: u64,
    pub max: u64,
}

/// The ranges that each measurement is normalised against.
#[derive(Clone, Copy, Debug)]
pub struct ScoreRanges {
    pub git_commits: ValueRange,
    pub file_size: ValueRange,
    pub ref_count: ValueRange,
}

/// `r` is the range of the values `f(inputs[i])`: a lower and an upper bound
/// that are both attained.
pub open spec fn is_range_of(inputs: Seq<ScorerInput>, f: spec_fn(ScorerInput) -> u64, r: ValueRange) -> bool {
    &&& forall|i: int| 0 <= i < inputs.len() ==> r.min <= #[trigger] f(inputs[i]) <= r.max
    &&& exists|i: int| 0 <= i < inputs.len() && #[trigger] f(inputs[i]) == r.min
    &&& exists|i: int| 0 <= i < inputs.len() && #[trigger] f(inputs[i]) == r.max
}

pub open spec fn commits_of(x: ScorerInput) -> u64 {
    x.git_commits as u64
}

pub open spec fn size_of(x: ScorerInput) -> u64 {
    x.file_size
}

pub open spec fn refs_of(x: ScorerInput) -> u64 {
    x.ref_count as u64
}

/// The value ranges of the three measurements over all inputs; `None` when
/// there are no inputs.
pub fn score_ranges(inputs: &[ScorerInput]) -> (r: Option<ScoreRanges>)
    ensures
        r is None <==> inputs@.len() == 0,
        r matches Some(rs) ==> {
            &&& is_range_of(inputs@, |x: ScorerInput| commits_of(x), rs.git_commits)
            &&& is_range_of(inputs@, |x: ScorerInput| size_of(x), rs.file_size)
            &&& is_range_of(inputs@, |x: ScorerInput| refs_of(x), rs.ref_count)
        },
{
    if inputs.len() == 0 {
        return None;
    }
    let first = inputs[0];
    let mut g = ValueRange { min: first.git_commits as u64, max: first.git_commits as u64 };
    let mut s = ValueRange { min: first.file_size, max: first.file_size };
    let mut c = ValueRange { min: first.ref_count as u64, max: first.ref_count as u64 };
    let ghost fg = |x: ScorerInput| commits_of(x);
    let ghost fs = |x: ScorerInput| size_of(x);
    let ghost fc = |x: ScorerInput| refs_of(x);
    proof {
        let t = inputs@.take(1);
        assert(t[0] == first);
        assert(fg(t[0]) == g.min && fg(t[0]) == g.max);
        assert(fs(t[0]) == s.min && fs(t[0]) == s.max);
        assert(fc(t[0]) == c.min && fc(t[0]) == c.max);
    }
    let mut i: usize = 1;
    while i < inputs.len()
        invariant
            1 <= i <= inputs@.len(),
            fg == (|x: ScorerInput| commits_of(x)),
            fs == (|x: ScorerInput| size_of(x)),
            fc == (|x: ScorerInput| refs_of(x)),
            is_range_of(inputs@.take(i as int), fg, g),
            is_range_of(inputs@.take(i as int), fs, s),
            is_range_of(inputs@.take(i as int), fc, c),
        decreases inputs@.len() - i,
    {
        let x = inputs[i];
        let ghost pre = inputs@.take(i as int);
        let ghost post = inputs@.take(i + 1);
        assert forall|k: int| 0 <= k < i implies post[k] == pre[k] by {}
        assert(post[i as int] == x);
        if (x.git_commits as u64) < g.min {
            g.min = x.git_commits as u64;
        }
        if (x.git_commits as u64) > g.max {
            g.max = x.git_commits as u64;
        }
        if x.file_size < s.min {
            s.min = x.file_size;
        }
        if x.file_size > s.max {
            s.max = x.file_size;
        }
        if (x.ref_count as u64) < c.min {
            c.min = x.ref_count as u64;
        }
        if (x.ref_count as u64) > c.max {
            c.max = x.ref_count as u64;
        }
        proof {
            lemma_range_step(pre, post, fg, g);
            lemma_range_step(pre, post, fs, s);
            lemma_range_step(pre, post, fc, c);
        }
        i = i + 1;
    }
    assert(inputs@.take(inputs@.len() as int) =~= inputs@);
    Some(ScoreRanges { git_commits: g, file_size: s, ref_count: c })
}

proof fn lemma_range_step(
    pre: Seq<ScorerInput>,
    post: Seq<ScorerInput>,
    f: spec_fn(ScorerInput) -> u64,
    r: ValueRange,
)
    requires
        post.len() == pre.len() + 1,
        pre.len() >= 1,
        forall|k: int| 0 <= k < pre.len() ==> post[k] == pre[k],
        r.min <= f(post[pre.len() as int]) <= r.max,
        (exists|k: int| 0 <= k < pre.len() && #[trigger] f(pre[k]) == r.min) || f(post[pre.len() as int]) == r.min,
        (exists|k: int| 0 <= k < pre.len() && #[trigger] f(pre[k]) == r.max) || f(post[pre.len() as int]) == r.max,
        forall|k: int| 0 <= k < pre.len() ==> r.min <= #[trigger] f(pre[k]) <= r.max,
    ensures
        is_range_of(post, f, r),
{
    assert forall|k: int| 0 <= k < post.len() implies r.min <= #[trigger] f(post[k]) <= r.max by {
        if k < pre.len() {
            assert(f(post[k]) == f(pre[k]));
        }
    }
    if exists|k: int| 0 <= k < pre.len() && #[trigger] f(pre[k]) == r.min {
        let k = choose|k: int| 0 <= k < pre.len() && #[trigger] f(pre[k]) == r.min;
        assert(f(post[k]) == r.min);
    } else {
        assert(f(post[pre.len() as int]) == r.min);
    }
    if exists|k: int| 0 <= k < pre.len() && #[trigger] f(pre[k]) == r.max {
        let k = choose|k: int| 0 <= k < pre.len() && #[trigger] f(pre[k]) == r.max;
        assert(f(post[k]) == r.max);
    } else {
        assert(f(post[pre.len() as int]) == r.max);
    }
}

} // verus!
