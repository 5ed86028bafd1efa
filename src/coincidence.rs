//! Period estimation by the index of coincidence, in fixed point: an index
//! is held in millionths, rounded down.
use vstd::prelude::*;
use crate::text::{chars_of, is_letter};
use crate::keyspace::{class_counts, class_histogram, class_letter_count};

verus! {

/// Fixed-point scale: an index of coincidence of 1 is held as this.
pub const IC_SCALE: u64 = 1000000;

/// The index of coincidence of English text (0.066), in millionths.
pub const ENGLISH_IC: u64 = 66000;

/// The sum of the first `m` entries of a histogram.
pub open spec fn hist_sum(h: Seq<usize>, m: int) -> int
    decreases m,
{
    if m <= 0 {
        0
    } else {
        hist_sum(h, m - 1) + h[m - 1]
    }
}

/// `sum over l < m of h[l] * (h[l] - 1)`: the ordered pairs of equal letters.
pub open spec fn coincidences(h: Seq<usize>, m: int) -> int
    decreases m,
{
    if m <= 0 {
        0
    } else {
        coincidences(h, m - 1) + h[m - 1] * (h[m - 1] - 1)
    }
}

/// How many letters the text has at positions `i ≡ g (mod period)`.
pub open spec fn class_size(t: Seq<char>, period: int, g: int) -> int
    decreases t.len(),
{
    if t.len() == 0 {
        0
    } else {
        let i = t.len() - 1;
        class_size(t.drop_last(), period, g) + if i % period == g && is_letter(t[i]) {
            1int
        } else {
            0int
        }
    }
}

/// The index of coincidence of residue class `g` modulo `period`, in
/// millionths rounded down; a class with fewer than two letters counts 0.
pub open spec fn class_ic(t: Seq<char>, period: int, g: int) -> int {
    let h = class_counts(t, period, g);
    let n = hist_sum(h, 26);
    if n < 2 {
        0
    } else {
        coincidences(h, 26) * IC_SCALE / (n * (n - 1))
    }
}

/// The sum of the class indices for classes `g < m`.
pub open spec fn ic_sum(t: Seq<char>, period: int, m: int) -> int
    decreases m,
{
    if m <= 0 {
        0
    } else {
        ic_sum(t, period, m - 1) + class_ic(t, period, m - 1)
    }
}

/// The mean class index for `period`, in millionths rounded down.
pub open spec fn period_average(t: Seq<char>, period: int) -> int {
    ic_sum(t, period, period) / period
}

/// How far the mean index for `period` lies from English's; lower is better.
pub open spec fn period_distance(t: Seq<char>, period: int) -> int {
    let a = period_average(t, period);
    if a >= ENGLISH_IC { a - ENGLISH_IC } else { ENGLISH_IC - a }
}

proof fn lemma_hist_bump(h: Seq<usize>, h2: Seq<usize>, x: int, m: int)
    requires
        h.len() == 26,
        h2.len() == 26,
        0 <= x < 26,
        0 <= m <= 26,
        h2[x] == h[x] + 1,
        forall|l: int| 0 <= l < 26 && l != x ==> h2[l] == h[l],
    ensures
        hist_sum(h2, m) == hist_sum(h, m) + if x < m { 1int } else { 0int },
    decreases m,
{
    if m > 0 {
        lemma_hist_bump(h, h2, x, m - 1);
    }
}

proof fn lemma_hist_same(h: Seq<usize>, h2: Seq<usize>, m: int)
    requires
        0 <= m <= h.len(),
        h.len() == h2.len(),
        forall|l: int| 0 <= l < h.len() ==> h2[l] == h[l],
    ensures
        hist_sum(h2, m) == hist_sum(h, m),
    decreases m,
{
    if m > 0 {
        lemma_hist_same(h, h2, m - 1);
    }
}

/// The class histogram adds up to the class's letter count, which is at
/// most the text's length.
proof fn lemma_class_total(t: Seq<char>, period: int, g: int)
    requires
        period > 0,
        t.len() <= usize::MAX,
    ensures
        hist_sum(class_counts(t, period, g), 26) == class_size(t, period, g),
        0 <= class_size(t, period, g) <= t.len(),
    decreases t.len(),
{
    if t.len() == 0 {
        lemma_hist_same(class_counts(t, period, g), Seq::new(26, |l: int| 0usize), 26);
        lemma_hist_zero(26);
    } else {
        let s = t.drop_last();
        let i = t.len() - 1;
        lemma_class_total(s, period, g);
        let h = class_counts(s, period, g);
        let h2 = class_counts(t, period, g);
        if i % period == g && is_letter(t[i]) {
            let x = crate::text::letter_index(t[i]);
            assert(0 <= x < 26);
            lemma_count_bound(s, period, g, x);
            assert forall|l: int| 0 <= l < 26 && l != x implies h2[l] == h[l] by {
                lemma_count_bound(s, period, g, l);
            }
            lemma_hist_bump(h, h2, x, 26);
        } else {
            assert forall|l: int| 0 <= l < 26 implies h2[l] == h[l] by {
                lemma_count_bound(s, period, g, l);
            }
            lemma_hist_same(h, h2, 26);
        }
    }
}

proof fn lemma_count_bound(t: Seq<char>, period: int, g: int, l: int)
    ensures
        class_letter_count(t, period, g, l) <= t.len(),
    decreases t.len(),
{
    if t.len() > 0 {
        lemma_count_bound(t.drop_last(), period, g, l);
    }
}

proof fn lemma_hist_zero(m: int)
    requires
        0 <= m <= 26,
    ensures
        hist_sum(Seq::new(26, |l: int| 0usize), m) == 0,
    decreases m,
{
    if m > 0 {
        lemma_hist_zero(m - 1);
    }
}

proof fn lemma_hist_mono(h: Seq<usize>, k: int, m: int)
    requires
        0 <= k <= m <= h.len(),
    ensures
        hist_sum(h, k) <= hist_sum(h, m),
        k < m ==> h[k] <= hist_sum(h, m) - hist_sum(h, k),
    decreases m - k,
{
    if k < m {
        lemma_hist_mono(h, k + 1, m);
    }
}

/// `10 * rem` divided by `d`: the quotient digit and the remainder, found by
/// ten modular additions so that nothing overflows.
fn times_ten_mod(rem: u128, d: u128) -> (r: (u64, u128))
    requires
        rem < d,
    ensures
        r.0 as int * d as int + r.1 as int == 10 * rem as int,
        r.1 < d,
        r.0 < 10,
{
    let mut q: u64 = 0;
    let mut acc: u128 = 0;
    for k in 0..10u64
        invariant
            rem < d,
            q as int * d as int + acc as int == k as int * rem as int,
            acc < d,
            q <= k,
    {
        proof {
            assert((k as int + 1) * rem as int == k as int * rem as int + rem as int) by (nonlinear_arith);
            assert((q as int + 1) * d as int == q as int * d as int + d as int) by (nonlinear_arith);
        }
        if acc >= d - rem {
            acc = acc - (d - rem);
            q = q + 1;
        } else {
            acc = acc + rem;
        }
    }
    (q, acc)
}

/// `10^k`
pub open spec fn pow10(k: nat) -> int
    decreases k,
{
    if k == 0 {
        1
    } else {
        10 * pow10((k - 1) as nat)
    }
}

/// `s * IC_SCALE / d`, rounded down, by long division.
fn scaled_ratio(s: u128, d: u128) -> (r: u64)
    requires
        0 < d,
        s <= d,
    ensures
        r == (s as int * IC_SCALE as int) / (d as int),
{
    proof {
        reveal_with_fuel(pow10, 7);
        assert(pow10(6) == IC_SCALE);
    }
    if s == d {
        assert((s as int * IC_SCALE as int) / (d as int) == IC_SCALE) by {
            vstd::arithmetic::div_mod::lemma_div_multiples_vanish(IC_SCALE as int, d as int);
            assert(s * IC_SCALE == d * IC_SCALE) by (nonlinear_arith)
                requires s == d;
        }
        return IC_SCALE;
    }
    let mut q: u64 = 0;
    let mut rem: u128 = s;
    assert(pow10(0) == 1);
    assert(0 * d as int + s as int == s as int * pow10(0)) by (nonlinear_arith)
        requires pow10(0) == 1;
    for k in 0..6u64
        invariant
            0 < d,
            rem < d,
            q as int * d as int + rem as int == s as int * pow10(k as nat),
            q < pow10(k as nat),
            pow10(6) == IC_SCALE,
    {
        let (digit, next) = times_ten_mod(rem, d);
        proof {
            let p = pow10(k as nat);
            assert(pow10((k + 1) as nat) == p * 10);
            assert((q * 10 + digit) * d as int + next as int == s as int * (p * 10)) by (nonlinear_arith)
                requires q as int * d as int + rem as int == s as int * p, digit as int * d as int + next as int == 10 * rem as int;
            assert(q * 10 + digit < p * 10) by (nonlinear_arith)
                requires q < p, digit < 10;
            lemma_pow10_mono(k as nat + 1, 6);
        }
        q = q * 10 + digit;
        rem = next;
    }
    proof {
        vstd::arithmetic::div_mod::lemma_fundamental_div_mod_converse(
            s as int * IC_SCALE as int,
            d as int,
            q as int,
            rem as int,
        );
    }
    q
}

proof fn lemma_pow10_mono(a: nat, b: nat)
    requires
        a <= b,
    ensures
        1 <= pow10(a) <= pow10(b),
    decreases b,
{
    if b > 0 {
        if a < b {
            lemma_pow10_mono(a, (b - 1) as nat);
        } else {
            lemma_pow10_mono((a - 1) as nat, (b - 1) as nat);
        }
    }
}

/// The index of coincidence of residue class `g`; see `class_ic`.
fn class_index(t: &Vec<char>, period: usize, g: usize) -> (r: u64)
    requires
        period > 0,
    ensures
        r == class_ic(t@, period as int, g as int),
        r <= IC_SCALE,
{
    let h = class_histogram(t, period, g);
    let ghost hs = class_counts(t@, period as int, g as int);
    let tl = t.len();
    proof {
        lemma_class_total(t@, period as int, g as int);
    }
    let ghost total = hist_sum(hs, 26);
    let mut n: u128 = 0;
    for l in 0..26usize
        invariant
            h@ == hs,
            hs.len() == 26,
            total == hist_sum(hs, 26),
            total <= t.len(),
            n == hist_sum(hs, l as int),
    {
        proof {
            lemma_hist_mono(hs, l as int, 26);
            lemma_hist_mono(hs, l as int + 1, 26);
        }
        n = n + h[l] as u128;
    }
    if n < 2 {
        return 0;
    }
    let mut c: u128 = 0;
    for l in 0..26usize
        invariant
            h@ == hs,
            hs.len() == 26,
            n == hist_sum(hs, 26),
            n >= 2,
            n <= usize::MAX,
            c == coincidences(hs, l as int),
            c <= (n - 1) * hist_sum(hs, l as int),
    {
        let x = h[l] as u128;
        proof {
            lemma_hist_mono(hs, l as int, 26);
            lemma_hist_mono(hs, l as int + 1, 26);
            lemma_hist_mono(hs, 0, l as int);
            assert(hist_sum(hs, 0) == 0);
            assert(x <= n);
            assert(x * (x - 1) <= (n - 1) * x) by (nonlinear_arith)
                requires x <= n, x >= 0;
            assert((n - 1) * hist_sum(hs, l as int) + (n - 1) * x == (n - 1) * hist_sum(hs, l as int + 1))
                by (nonlinear_arith)
                requires hist_sum(hs, l as int + 1) == hist_sum(hs, l as int) + x;
            assert((n - 1) * hist_sum(hs, l as int + 1) <= (n - 1) * n) by (nonlinear_arith)
                requires hist_sum(hs, l as int + 1) <= n, n >= 1;
            assert((n - 1) * n <= 0xffff_ffff_ffff_ffff * 0xffff_ffff_ffff_ffffu128) by (nonlinear_arith)
                requires n <= 0xffff_ffff_ffff_ffff;
        }
        proof {
            assert(coincidences(hs, l as int + 1) == coincidences(hs, l as int) + hs[l as int] * (hs[l as int]
                - 1));
            assert(hs[l as int] == x);
        }
        if x > 0 {
            c = c + x * (x - 1);
        } else {
            assert(x as int * (x as int - 1) == 0) by (nonlinear_arith)
                requires x == 0;
        }
    }
    proof {
        assert(n * (n - 1) <= 0xffff_ffff_ffff_ffff * 0xffff_ffff_ffff_ffffu128) by (nonlinear_arith)
            requires n <= 0xffff_ffff_ffff_ffff;
        assert(c <= n * (n - 1)) by (nonlinear_arith)
            requires c <= (n - 1) * n;
        assert(n * (n - 1) > 0) by (nonlinear_arith)
            requires n >= 2;
    }
    let r = scaled_ratio(c, n * (n - 1));
    proof {
        vstd::arithmetic::div_mod::lemma_div_is_ordered(
            c as int * IC_SCALE as int,
            (n * (n - 1)) as int * IC_SCALE as int,
            (n * (n - 1)) as int,
        );
        assert(c as int * IC_SCALE as int <= (n * (n - 1)) as int * IC_SCALE as int) by (nonlinear_arith)
            requires c <= n * (n - 1);
        vstd::arithmetic::div_mod::lemma_div_multiples_vanish(IC_SCALE as int, (n * (n - 1)) as int);
    }
    r
}

/// The index of coincidence of each residue class of `text` modulo
/// `period`, in millionths. Letters are case folded; other characters keep
/// their positions but are not counted.
pub fn index_of_coincidence(text: &str, period: usize) -> (r: Vec<u64>)
    requires
        period > 0,
    ensures
        r.len() == period,
        forall|g: int| 0 <= g < period ==> #[trigger] r[g] == class_ic(text@, period as int, g),
{
    let t = chars_of(text);
    class_indices(&t, period)
}

fn class_indices(t: &Vec<char>, period: usize) -> (r: Vec<u64>)
    requires
        period > 0,
    ensures
        r.len() == period,
        forall|g: int| 0 <= g < period ==> #[trigger] r[g] == class_ic(t@, period as int, g),
        forall|g: int| 0 <= g < period ==> #[trigger] r[g] <= IC_SCALE,
{
    let mut r: Vec<u64> = Vec::new();
    for g in 0..period
        invariant
            period > 0,
            r.len() == g,
            forall|h: int| 0 <= h < g ==> #[trigger] r[h] == class_ic(t@, period as int, h),
            forall|h: int| 0 <= h < g ==> #[trigger] r[h] <= IC_SCALE,
    {
        let x = class_index(t, period, g);
        r.push(x);
    }
    r
}

/// The index-of-coincidence summary of one period.
pub struct PeriodScore {
    pub period: usize,
    /// The index of each residue class, in millionths.
    pub columns: Vec<u64>,
    /// Their mean, in millionths rounded down.
    pub average: u64,
    /// How far the mean lies from English's; lower is better.
    pub distance: u64,
}

/// `e` holds the true figures for its period.
pub open spec fn is_period_score(t: Seq<char>, e: PeriodScore) -> bool {
    &&& e.period >= 1
    &&& e.columns.len() == e.period
    &&& forall|g: int| 0 <= g < e.period ==> #[trigger] e.columns[g] == class_ic(t, e.period as int, g)
    &&& e.average == period_average(t, e.period as int)
    &&& e.distance == period_distance(t, e.period as int)
}

/// `a` ranks before `b`: closer to English, or as close with a smaller period.
pub open spec fn ranks_closer(a: PeriodScore, b: PeriodScore) -> bool {
    a.distance < b.distance || (a.distance == b.distance && a.period < b.period)
}

/// `r` ranks every period from 1 to `max_period` once, closest to English first.
pub open spec fn is_period_report(t: Seq<char>, max_period: nat, r: Seq<PeriodScore>) -> bool {
    &&& r.len() == max_period
    &&& forall|i: int| 0 <= i < r.len() ==> #[trigger] is_period_score(t, r[i]) && r[i].period <= max_period
    &&& forall|i: int, j: int| 0 <= i < j < r.len() ==> ranks_closer(#[trigger] r[i], #[trigger] r[j])
    &&& forall|p: int| 1 <= p <= max_period ==> #[trigger] has_period(r, p)
}

/// Some entry of `r` is for period `p`.
pub open spec fn has_period(r: Seq<PeriodScore>, p: int) -> bool {
    exists|i: int| 0 <= i < r.len() && r[i].period == p
}

proof fn lemma_ic_sum_bound(t: Seq<char>, period: int, m: int)
    requires
        0 <= m,
        period > 0,
        t.len() <= usize::MAX,
    ensures
        0 <= ic_sum(t, period, m) <= m * IC_SCALE,
    decreases m,
{
    if m > 0 {
        lemma_ic_sum_bound(t, period, m - 1);
        let h = class_counts(t, period, m - 1);
        let n = hist_sum(h, 26);
        if n >= 2 {
            lemma_coincidence_bound(h, 26);
            lemma_hist_nonneg(h, 26);
            assert(n * (n - 1) > 0) by (nonlinear_arith)
                requires n >= 2;
            assert(coincidences(h, 26) <= (n - 1) * n);
            assert(coincidences(h, 26) * IC_SCALE <= n * (n - 1) * IC_SCALE) by (nonlinear_arith)
                requires coincidences(h, 26) <= (n - 1) * n;
            vstd::arithmetic::div_mod::lemma_div_is_ordered(
                coincidences(h, 26) * IC_SCALE,
                n * (n - 1) * IC_SCALE,
                n * (n - 1),
            );
            assert(n * (n - 1) * IC_SCALE == IC_SCALE * (n * (n - 1))) by (nonlinear_arith);
            vstd::arithmetic::div_mod::lemma_div_multiples_vanish(IC_SCALE as int, n * (n - 1));
            assert(coincidences(h, 26) >= 0);
            vstd::arithmetic::div_mod::lemma_div_pos_is_pos(coincidences(h, 26) * IC_SCALE, n * (n - 1));
        }
    }
}

proof fn lemma_hist_nonneg(h: Seq<usize>, m: int)
    requires
        0 <= m <= h.len(),
    ensures
        hist_sum(h, m) >= 0,
    decreases m,
{
    if m > 0 {
        lemma_hist_nonneg(h, m - 1);
    }
}

proof fn lemma_coincidence_bound(h: Seq<usize>, m: int)
    requires
        0 <= m <= h.len(),
        h.len() == 26,
        m <= 26,
        hist_sum(h, 26) >= 1,
    ensures
        0 <= coincidences(h, m) <= (hist_sum(h, 26) - 1) * hist_sum(h, m),
    decreases m,
{
    if m > 0 {
        lemma_coincidence_bound(h, m - 1);
        lemma_hist_mono(h, m - 1, 26);
        lemma_hist_nonneg(h, m - 1);
        let n = hist_sum(h, 26);
        let x = h[m - 1] as int;
        assert(x * (x - 1) <= (n - 1) * x) by (nonlinear_arith)
            requires x <= n, x >= 0;
        assert(x * (x - 1) >= 0) by (nonlinear_arith)
            requires x >= 0;
        assert((n - 1) * hist_sum(h, m - 1) + (n - 1) * x == (n - 1) * hist_sum(h, m)) by (nonlinear_arith)
            requires hist_sum(h, m) == hist_sum(h, m - 1) + x;
    }
}

/// The summary of one period.
fn score_period(t: &Vec<char>, period: usize) -> (e: PeriodScore)
    requires
        period > 0,
    ensures
        is_period_score(t@, e),
        e.period == period,
{
    let columns = class_indices(t, period);
    let mut sum: u128 = 0;
    let tl = t.len();
    for g in 0..period
        invariant
            period > 0,
            tl == t@.len(),
            columns.len() == period,
            forall|h: int| 0 <= h < period ==> #[trigger] columns[h] == class_ic(t@, period as int, h),
            forall|h: int| 0 <= h < period ==> #[trigger] columns[h] <= IC_SCALE,
            sum == ic_sum(t@, period as int, g as int),
            sum <= g * IC_SCALE,
    {
        sum = sum + columns[g] as u128;
    }
    proof {
        lemma_ic_sum_bound(t@, period as int, period as int);
        vstd::arithmetic::div_mod::lemma_div_is_ordered(sum as int, period * IC_SCALE, period as int);
        vstd::arithmetic::div_mod::lemma_div_multiples_vanish(IC_SCALE as int, period as int);
        assert(period * IC_SCALE == IC_SCALE * period) by (nonlinear_arith);
    }
    let average = (sum / period as u128) as u64;
    let distance = if average >= ENGLISH_IC { average - ENGLISH_IC } else { ENGLISH_IC - average };
    PeriodScore { period, columns, average, distance }
}

/// The first index of `r` whose distance exceeds `d`, given that `r` is
/// ranked; `r.len()` if there is none.
fn rank_position(r: &Vec<PeriodScore>, d: u64) -> (pos: usize)
    requires
        forall|i: int, j: int| 0 <= i < j < r.len() ==> ranks_closer(#[trigger] r@[i], #[trigger] r@[j]),
    ensures
        pos <= r.len(),
        forall|i: int| 0 <= i < pos ==> #[trigger] r@[i].distance <= d,
        forall|i: int| pos <= i < r.len() ==> #[trigger] r@[i].distance > d,
{
    let mut pos: usize = 0;
    while pos < r.len() && r[pos].distance <= d
        invariant
            pos <= r.len(),
            forall|i: int| 0 <= i < pos ==> #[trigger] r@[i].distance <= d,
        decreases r.len() - pos,
    {
        pos += 1;
    }
    assert forall|i: int| pos <= i < r.len() implies #[trigger] r@[i].distance > d by {
        if i > pos {
            assert(ranks_closer(r@[pos as int], r@[i]));
        }
    }
    pos
}

/// Estimates the period: scores every period from 1 to `max_period` by how
/// far its mean index of coincidence lies from English's, closest first.
pub fn estimate_period(text: &str, max_period: usize) -> (r: Vec<PeriodScore>)
    ensures
        is_period_report(text@, max_period as nat, r@),
{
    let t = chars_of(text);
    let mut r: Vec<PeriodScore> = Vec::new();
    let mut k: usize = 0;
    while k < max_period
        invariant
            k <= max_period,
            r.len() == k,
            forall|i: int| 0 <= i < r.len() ==> #[trigger] is_period_score(t@, r@[i]) && r@[i].period <= k,
            forall|i: int, j: int| 0 <= i < j < r.len() ==> ranks_closer(#[trigger] r@[i], #[trigger] r@[j]),
            forall|q: int| 1 <= q <= k ==> #[trigger] has_period(r@, q),
        decreases max_period - k,
    {
        let p = k + 1;
        let e = score_period(&t, p);
        let pos = rank_position(&r, e.distance);
        let ghost old_r = r@;
        let ghost ev = e;
        r.insert(pos, e);
        proof {
            assert(r@ == old_r.insert(pos as int, ev));
            assert forall|i: int| 0 <= i < r.len() implies #[trigger] is_period_score(t@, r@[i]) && r@[i].period
                <= p by {
                if i < pos {
                    assert(r@[i] == old_r[i]);
                    assert(is_period_score(t@, old_r[i]));
                } else if i > pos {
                    assert(r@[i] == old_r[i - 1]);
                    assert(is_period_score(t@, old_r[i - 1]));
                }
            }
            assert forall|i: int, j: int| 0 <= i < j < r.len() implies ranks_closer(
                #[trigger] r@[i],
                #[trigger] r@[j],
            ) by {
                if j < pos {
                    assert(ranks_closer(old_r[i], old_r[j]));
                } else if i > pos {
                    assert(ranks_closer(old_r[i - 1], old_r[j - 1]));
                } else if i < pos && j > pos {
                    assert(ranks_closer(old_r[i], old_r[j - 1]));
                } else if i == pos {
                    assert(old_r[j - 1].distance > ev.distance);
                } else {
                    assert(old_r[i].distance <= ev.distance);
                    assert(is_period_score(t@, old_r[i]));
                    assert(old_r[i].period <= k);
                }
            }
            assert forall|q: int| 1 <= q <= p implies #[trigger] has_period(r@, q) by {
                if q == p {
                    assert(r@[pos as int].period == p);
                } else {
                    assert(has_period(old_r, q));
                    let i = choose|i: int| 0 <= i < old_r.len() && old_r[i].period == q;
                    if i < pos {
                        assert(r@[i] == old_r[i]);
                    } else {
                        assert(r@[i + 1] == old_r[i]);
                    }
                }
            }
        }
        k = p;
    }
    assert forall|i: int| 0 <= i < r.len() implies #[trigger] is_period_score(text@, r@[i]) && r@[i].period
        <= max_period by {
        assert(is_period_score(t@, r@[i]));
    }
    r
}

} // verus!
