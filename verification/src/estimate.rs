//! How big an export will be, found by producing a sample of its tiles.
//!
//! **Spread deliberately, and the same way every time.** Sampling the first `n` tiles of a level
//! would measure one corner of the map; sampling at random would give the same export a different
//! estimate on every open, which reads as a broken number rather than an honest one.

use vstd::prelude::*;

verus! {

/// What an export will cost.
#[derive(Debug, Clone, Copy, PartialEq, Eq, Structural)]
pub struct Estimate {
    /// Tiles the export will write - a count, not an estimate.
    pub tiles: u64,
    /// Bytes those tiles are expected to come to.
    pub bytes: u64,
    /// How many tiles were actually produced to arrive at the byte figure above.
    pub sampled: u32,
}

/// `2` to the power `e`.
pub open spec fn p2(e: nat) -> nat
    decreases e,
{
    if e == 0 {
        1
    } else {
        2 * p2((e - 1) as nat)
    }
}

/// How many binary digits `x` has.
pub open spec fn bitlen(x: nat) -> nat
    decreases x,
{
    if x == 0 {
        0
    } else {
        1 + bitlen(x / 2)
    }
}

/// `x` rounded to the 53 significant bits of a double, ties to even: what storing it in an `f64`
/// makes of it.
pub open spec fn round53(x: nat) -> nat {
    if bitlen(x) <= 53 {
        x
    } else {
        let s = (bitlen(x) - 53) as nat;
        let p = p2(s);
        let q = x / p;
        let r = x % p;
        let up = r > p / 2 || (r == p / 2 && q % 2 == 1);
        (if up { q + 1 } else { q }) * p
    }
}

/// The fractional part of the golden ratio as the double `0.6180339887498949` holds it: this
/// numerator over `2^53`.
pub open spec fn golden_numerator() -> nat {
    5566755282872656
}

/// `count × 0.618…` as a double computes it and a cast to an integer truncates it: the count is
/// rounded to a double, the product is rounded again, and the fraction is dropped.
pub open spec fn golden_part(count: nat) -> nat {
    round53(round53(count) * golden_numerator()) / p2(53)
}

/// Euclid's greatest common divisor.
pub open spec fn gcd(a: nat, b: nat) -> nat
    decreases b,
{
    if b == 0 {
        a
    } else {
        gcd(b, a % b)
    }
}

/// The largest stride at most `from`, and at least one, that is coprime with `count`.
pub open spec fn coprime_below(from: nat, count: nat) -> nat
    decreases from,
{
    if from <= 1 || gcd(from, count) == 1 {
        if from == 0 { 1 } else { from }
    } else {
        coprime_below((from - 1) as nat, count)
    }
}

/// The stride a level of `count` tiles is walked with: roughly the golden ratio of its width, and
/// coprime with it.
pub open spec fn stride_for(count: nat) -> nat {
    coprime_below(if golden_part(count) >= 1 { golden_part(count) } else { 1 }, count)
}

/// Which tile [`spread`] takes on round `round`.
pub open spec fn spread_spec(round: nat, count: nat) -> nat {
    (round * stride_for(count)) % count
}

proof fn lemma_bitlen_halves(x: nat)
    ensures
        x > 0 ==> bitlen(x) == 1 + bitlen(x / 2),
{
}

proof fn lemma_p2_bitlen(x: nat)
    ensures
        x < p2(bitlen(x)),
        x > 0 ==> p2((bitlen(x) - 1) as nat) <= x,
    decreases x,
{
    if x > 0 {
        lemma_p2_bitlen(x / 2);
    }
}

proof fn lemma_p2_mono(a: nat, b: nat)
    requires
        a <= b,
    ensures
        p2(a) <= p2(b),
    decreases b,
{
    if a < b {
        lemma_p2_mono(a, (b - 1) as nat);
    }
}

/// A value below `2^k` has at most `k` binary digits.
proof fn lemma_bitlen_le(x: nat, k: nat)
    requires
        x < p2(k),
    ensures
        bitlen(x) <= k,
    decreases k,
{
    if x > 0 {
        if k == 0 {
            assert(false);
        } else {
            lemma_bitlen_le(x / 2, (k - 1) as nat);
        }
    }
}

proof fn lemma_p2_add(a: nat, b: nat)
    ensures
        p2(a + b) == p2(a) * p2(b),
    decreases b,
{
    if b > 0 {
        let b1 = (b - 1) as nat;
        lemma_p2_add(a, b1);
        assert(a + b1 == (a + b - 1) as nat);
        assert(p2(a + b) == 2 * p2(a + b1));
        assert(p2(b) == 2 * p2(b1));
        assert(p2(a + b) == p2(a) * p2(b)) by (nonlinear_arith)
            requires
                p2(a + b) == 2 * p2(a + b1),
                p2(a + b1) == p2(a) * p2(b1),
                p2(b) == 2 * p2(b1),
        ;
    } else {
        assert(p2(b) == 1);
        assert(a + b == a);
        assert(p2(a) * 1 == p2(a));
    }
}

/// The powers of two the arithmetic below leans on.
proof fn lemma_p2_values()
    ensures
        p2(16) == 0x1_0000nat,
        p2(32) == 0x1_0000_0000nat,
        p2(52) == 0x10_0000_0000_0000nat,
        p2(53) == 0x20_0000_0000_0000nat,
        p2(64) == 0x1_0000_0000_0000_0000nat,
        p2(127) == 0x8000_0000_0000_0000_0000_0000_0000_0000nat,
        p2(128) == 0x1_0000_0000_0000_0000_0000_0000_0000_0000nat,
{
    assert(p2(16) == 0x1_0000nat) by {
        reveal_with_fuel(p2, 17);
    }
    lemma_p2_add(16, 16);
    lemma_p2_add(32, 20);
    assert(p2(20) == 0x10_0000nat) by {
        reveal_with_fuel(p2, 21);
    }
    assert(p2(53) == 2 * p2(52));
    lemma_p2_add(32, 32);
    assert(p2(31) == 0x8000_0000nat) by {
        lemma_p2_add(16, 15);
        assert(p2(15) == 0x8000nat) by {
            reveal_with_fuel(p2, 16);
        }
    }
    lemma_p2_add(32, 31);
    assert(p2(63) == 0x8000_0000_0000_0000nat);
    lemma_p2_add(64, 63);
    assert(p2(127) == 0x8000_0000_0000_0000_0000_0000_0000_0000nat);
    assert(p2(128) == 2 * p2(127));
}

/// How many binary digits `x` has, counted by halving.
fn bit_length(x: u128) -> (n: u32)
    ensures
        n == bitlen(x as nat),
        n <= 128,
{
    proof {
        lemma_p2_values();
        lemma_bitlen_le(x as nat, 128);
    }
    let mut y = x;
    let mut n: u32 = 0;
    while y > 0
        invariant
            bitlen(x as nat) == n + bitlen(y as nat),
            bitlen(x as nat) <= 128,
        decreases y,
    {
        proof {
            lemma_bitlen_halves(y as nat);
        }
        y = y / 2;
        n = n + 1;
    }
    n
}

/// `2` to the power `e`.
fn power_of_two(e: u32) -> (p: u128)
    requires
        e < 128,
    ensures
        p == p2(e as nat),
{
    proof {
        lemma_p2_values();
    }
    let mut p: u128 = 1;
    let mut k: u32 = 0;
    while k < e
        invariant
            k <= e < 128,
            p == p2(k as nat),
            p2(127) == 0x8000_0000_0000_0000_0000_0000_0000_0000nat,
        decreases e - k,
    {
        proof {
            lemma_p2_mono(k as nat + 1, 127);
        }
        p = p * 2;
        k = k + 1;
    }
    p
}

/// What storing `x` in a double makes of it.
fn round_to_double(x: u128) -> (r: u128)
    requires
        x < 0x8000_0000_0000_0000_0000_0000_0000_0000u128,
    ensures
        r == round53(x as nat),
{
    let len = bit_length(x);
    if len <= 53 {
        return x;
    }
    proof {
        lemma_p2_values();
        lemma_bitlen_le(x as nat, 127);
    }
    let s = len - 53;
    let p = power_of_two(s);
    proof {
        lemma_p2_bitlen(x as nat);
        lemma_p2_mono(s as nat, (len - 1) as nat);
        lemma_p2_mono(0, s as nat);
    }
    let q = x / p;
    let r = x % p;
    let up = r > p / 2 || (r == p / 2 && q % 2 == 1);
    proof {
        lemma_quotient_bound(x as nat, p as nat);
    }
    if up {
        (q + 1) * p
    } else {
        q * p
    }
}

proof fn lemma_quotient_bound(x: nat, p: nat)
    requires
        0 < p <= x,
    ensures
        (x / p) * p <= x,
        (x / p + 1) * p <= x + p,
{
    let q = x / p;
    assert(q * p <= x) by (nonlinear_arith)
        requires
            q == x / p,
            p > 0,
    ;
    assert((q + 1) * p == q * p + p) by (nonlinear_arith);
}

/// Euclid's, for the coprimality [`spread`] rests on.
pub fn gcd_of(a: u64, b: u64) -> (g: u64)
    ensures
        g == gcd(a as nat, b as nat),
    decreases b,
{
    if b == 0 {
        a
    } else {
        gcd_of(b, a % b)
    }
}

/// Which tile to take from a level of `count` tiles, on round `round`.
///
/// This walks the level in strides of roughly the golden ratio of its width. Choosing a stride
/// **coprime with the count** is what makes it a permutation: every tile is visited exactly once
/// before any is visited twice, and a level small enough to sample completely *is* sampled
/// completely.
pub fn spread(round: u32, count: u64) -> (index: u64)
    requires
        count > 0,
    ensures
        index == spread_spec(round as nat, count as nat),
        index < count,
{
    let c = round_to_double(count as u128);
    proof {
        lemma_round53_close(count as nat);
        assert(c <= 2 * (count as nat)) by (nonlinear_arith)
            requires
                c * 0x10_0000_0000_0000nat <= (count as nat) * 0x10_0000_0000_0001nat,
        ;
    }
    let product = round_to_double(c * 5566755282872656u128);
    let whole = product / 0x20_0000_0000_0000u128;
    proof {
        lemma_p2_values();
        lemma_golden_part_below(count as nat);
    }
    let mut stride: u64 = if whole >= 1 {
        whole as u64
    } else {
        1
    };
    // Terminates at 1 in the worst case, which is coprime with everything.
    while gcd_of(stride, count) != 1
        invariant
            1 <= stride <= count,
            coprime_below(stride as nat, count as nat) == stride_for(count as nat),
        decreases stride,
    {
        proof {
            if stride == 1 {
                lemma_gcd_one(count as nat);
            }
        }
        stride = stride - 1;
    }
    // Widened because `round × stride` outgrows a `u64` long before the count does.
    proof {
        assert((round as u128) * (stride as u128) < 0x1_0000_0000_0000_0000_0000_0000_0000_0000nat) by (nonlinear_arith)
            requires
                round < 0x1_0000_0000nat,
                stride < 0x1_0000_0000_0000_0000nat,
        ;
    }
    let wide = (round as u128 * stride as u128) % count as u128;
    wide as u64
}

proof fn lemma_gcd_one(n: nat)
    ensures
        gcd(1, n) == 1,
{
    reveal_with_fuel(gcd, 3);
    if n == 1 {
        assert(1nat % 1nat == 0);
    } else if n > 1 {
        assert(1nat % n == 1) by (nonlinear_arith)
            requires
                n > 1,
        ;
        assert(n % 1nat == 0);
    }
}

/// Rounding to a double moves a value by at most a 2^52-th of it.
proof fn lemma_round53_close(x: nat)
    ensures
        round53(x) * 0x10_0000_0000_0000nat <= x * 0x10_0000_0000_0001nat,
{
    if bitlen(x) > 53 {
        let s = (bitlen(x) - 53) as nat;
        let p = p2(s);
        lemma_p2_bitlen(x);
        lemma_p2_values();
        lemma_p2_add(s, 52);
        assert(s + 52 == (bitlen(x) - 1) as nat);
        assert(p * 0x10_0000_0000_0000nat <= x);
        lemma_p2_mono(0, s);
        lemma_quotient_bound(x, p);
        assert(round53(x) <= x + p);
        assert(round53(x) * 0x10_0000_0000_0000nat <= x * 0x10_0000_0000_0001nat) by (nonlinear_arith)
            requires
                round53(x) <= x + p,
                p * 0x10_0000_0000_0000nat <= x,
        ;
    }
}


/// The golden part of a count is at most the count, so a stride never exceeds its level.
proof fn lemma_golden_part_below(count: nat)
    ensures
        golden_part(count) <= count,
{
    let c = round53(count);
    let b = round53(c * golden_numerator());
    lemma_round53_close(count);
    lemma_round53_close(c * golden_numerator());
    lemma_p2_values();
    assert(b <= count * 0x20_0000_0000_0000nat) by (nonlinear_arith)
        requires
            c * 0x10_0000_0000_0000nat <= count * 0x10_0000_0000_0001nat,
            b * 0x10_0000_0000_0000nat <= (c * 5566755282872656nat) * 0x10_0000_0000_0001nat,
    ;
    assert(b / 0x20_0000_0000_0000nat <= count) by (nonlinear_arith)
        requires
            b <= count * 0x20_0000_0000_0000nat,
    ;
}


// ---------------------------------------------------------------------------------------------
// Every tile once before any twice
// ---------------------------------------------------------------------------------------------

/// Bézout's identity: the greatest common divisor is a combination of the two numbers.
proof fn lemma_bezout(a: nat, b: nat) -> (xy: (int, int))
    ensures
        xy.0 * a + xy.1 * b == gcd(a, b),
    decreases b,
{
    if b == 0 {
        (1, 0)
    } else {
        let (x1, y1) = lemma_bezout(b, a % b);
        let q = (a / b) as int;
        let r = (a % b) as int;
        assert(a == b * q + r) by {
            vstd::arithmetic::div_mod::lemma_fundamental_div_mod(a as int, b as int);
        }
        assert(y1 * a + (x1 - y1 * q) * b == x1 * b + y1 * r) by (nonlinear_arith)
            requires
                a == b * q + r,
        ;
        (y1, x1 - y1 * q)
    }
}

proof fn lemma_coprime_below(from: nat, count: nat)
    ensures
        coprime_below(from, count) >= 1,
        coprime_below(from, count) <= if from == 0 { 1 } else { from },
        gcd(coprime_below(from, count), count) == 1,
    decreases from,
{
    if from <= 1 || gcd(from, count) == 1 {
        if from <= 1 {
            lemma_gcd_one(count);
        }
    } else {
        lemma_coprime_below((from - 1) as nat, count);
    }
}

/// Multiplying by a number coprime with `c` keeps distinct residues distinct.
proof fn lemma_coprime_cancels(a: nat, b: nat, s: nat, c: nat)
    requires
        c > 0,
        a < c,
        b < c,
        a != b,
        gcd(s, c) == 1,
    ensures
        (a * s) % c != (b * s) % c,
{
    if (a * s) % c == (b * s) % c {
        let (x, y) = lemma_bezout(s, c);
        let q1 = ((a * s) / c) as int;
        let q2 = ((b * s) / c) as int;
        let r = ((a * s) % c) as int;
        assert(a * s == c * q1 + r) by {
            vstd::arithmetic::div_mod::lemma_fundamental_div_mod((a * s) as int, c as int);
        }
        assert(b * s == c * q2 + r) by {
            vstd::arithmetic::div_mod::lemma_fundamental_div_mod((b * s) as int, c as int);
        }
        let d = a as int - b as int;
        let k = q1 - q2;
        assert(d * s == k * c) by (nonlinear_arith)
            requires
                a * s == c * q1 + r,
                b * s == c * q2 + r,
                d == a as int - b as int,
                k == q1 - q2,
        ;
        let m = x * k + y * d;
        assert(d == c * m) by (nonlinear_arith)
            requires
                x * s + y * c == 1,
                d * s == k * c,
                m == x * k + y * d,
        ;
        assert(false) by (nonlinear_arith)
            requires
                d == c * m,
                d != 0,
                -(c as int) < d < c,
                c > 0,
        ;
    }
}

/// **The property the whole sampling scheme rests on**: within one level, no tile is measured twice
/// while another has not been measured at all - the first `count` rounds visit `count` different
/// tiles, each of them one of the level's.
pub proof fn lemma_spread_visits_each_once(count: nat, a: nat, b: nat)
    requires
        count > 0,
        a < count,
        b < count,
        a != b,
    ensures
        spread_spec(a, count) < count,
        spread_spec(a, count) != spread_spec(b, count),
{
    let g = if golden_part(count) >= 1 { golden_part(count) } else { 1 };
    lemma_coprime_below(g, count);
    lemma_coprime_cancels(a, b, stride_for(count), count);
}


// ---------------------------------------------------------------------------------------------
// The sampling walk
// ---------------------------------------------------------------------------------------------

/// What the sampling walk does next.
#[derive(Debug, Clone, Copy, PartialEq, Eq, Structural)]
pub enum SampleStep {
    /// Produce tile `index` of level `level`, in round `round`; the walk then goes on from `level`.
    Take { round: u32, level: usize, index: u64 },
    /// Stop sampling and multiply up what was measured.
    Stop,
}

/// Whether sampling has done enough: the cap is reached, or every level has been measured, the
/// floor is reached and the time budget is spent.
pub open spec fn enough(taken_per_level: Seq<u64>, taken: u32, min_samples: u32, max_samples: u32, budget_spent: bool) -> bool {
    ||| taken >= max_samples
    ||| (forall|i: int| 0 <= i < taken_per_level.len() ==> #[trigger] taken_per_level[i] > 0) && taken >= min_samples
        && budget_spent
}

/// The deepest level below `cursor` that still has a tile for round `round` - that is, holds more
/// than `round` tiles.
pub open spec fn level_below(counts: Seq<u64>, round: nat, cursor: int) -> Option<int>
    decreases cursor,
{
    if cursor <= 0 {
        None
    } else if round < counts[cursor - 1] {
        Some(cursor - 1)
    } else {
        level_below(counts, round, cursor - 1)
    }
}

/// Where the walk goes from `cursor` in `round`: the next level down in this round with a tile
/// left, else the deepest level with one in the next round, else nowhere. Levels run deepest
/// first, one tile per level per round; a round that finds nothing ends the walk.
pub open spec fn next_tile(counts: Seq<u64>, round: nat, cursor: int) -> Option<(nat, int)> {
    match level_below(counts, round, cursor) {
        Some(l) => Some((round, l)),
        None => match level_below(counts, round + 1, counts.len() as int) {
            Some(l) => Some((round + 1, l)),
            None => None,
        },
    }
}

/// The step [`next_sample`] takes.
pub open spec fn sample_step(
    counts: Seq<u64>,
    taken_per_level: Seq<u64>,
    round: nat,
    cursor: int,
    taken: u32,
    min_samples: u32,
    max_samples: u32,
    budget_spent: bool,
) -> Option<(nat, int)> {
    if taken > 0 && enough(taken_per_level, taken, min_samples, max_samples, budget_spent) {
        None
    } else {
        next_tile(counts, round, cursor)
    }
}

fn level_below_of(counts: &Vec<u64>, round: u32, cursor: usize) -> (r: Option<usize>)
    requires
        cursor <= counts@.len(),
    ensures
        match level_below(counts@, round as nat, cursor as int) {
            None => r is None,
            Some(l) => r matches Some(x) && x == l,
        },
        r matches Some(x) ==> x < counts@.len() && (round as u64) < counts@[x as int],
{
    let mut c = cursor;
    while c > 0
        invariant
            c <= cursor <= counts@.len(),
            level_below(counts@, round as nat, cursor as int) == level_below(counts@, round as nat, c as int),
        decreases c,
    {
        if (round as u64) < counts[c - 1] {
            return Some(c - 1);
        }
        c = c - 1;
    }
    None
}

/// The sampling walk's next step, from the walk's state: the tiles per level, what has been
/// measured of each, the round and the level it stands at (the levels from `cursor` down are still
/// to visit this round), and how many tiles were taken in all.
///
/// Once something has been taken, the walk stops when [`enough`] says so; otherwise it takes the
/// next tile [`next_tile`] names, the one [`spread`] picks on that level for that round, and stops
/// when there is none.
pub fn next_sample(
    counts: &Vec<u64>,
    taken_per_level: &Vec<u64>,
    round: u32,
    cursor: usize,
    taken: u32,
    min_samples: u32,
    max_samples: u32,
    budget_spent: bool,
) -> (r: SampleStep)
    requires
        cursor <= counts@.len(),
        round < u32::MAX,
    ensures
        match sample_step(counts@, taken_per_level@, round as nat, cursor as int, taken, min_samples, max_samples, budget_spent) {
            None => r == SampleStep::Stop,
            Some((rd, l)) => r matches SampleStep::Take { round: x, level: y, index: z } && x == rd && y == l
                && z == spread_spec(rd, counts@[l] as nat) && z < counts@[l],
        },
{
    if taken > 0 {
        let mut covered = true;
        let mut i: usize = 0;
        while i < taken_per_level.len()
            invariant
                i <= taken_per_level@.len(),
                covered == forall|j: int| 0 <= j < i ==> #[trigger] taken_per_level@[j] > 0,
            decreases taken_per_level@.len() - i,
        {
            if taken_per_level[i] == 0 {
                covered = false;
            }
            i = i + 1;
        }
        if taken >= max_samples || (covered && taken >= min_samples && budget_spent) {
            return SampleStep::Stop;
        }
    }
    let (rd, level) = match level_below_of(counts, round, cursor) {
        Some(l) => (round, l),
        None => match level_below_of(counts, round + 1, counts.len()) {
            Some(l) => (round + 1, l),
            None => return SampleStep::Stop,
        },
    };
    proof {
        assert(rd < counts@[level as int]);
    }
    let index = spread(rd, counts[level]);
    SampleStep::Take { round: rd, level, index }
}

} // verus!
