//! Fixed-point Shannon-entropy arithmetic.
//!
//! Entropy is measured in units of `1/1024` bit: a value of `1024` is one
//! bit.  The base-2 logarithm of a ratio `n/c` is computed exactly as an
//! integer part plus ten binary fraction bits obtained by repeated squaring
//! of the mantissa; `2^(f/1024)` is computed from a table of the ten
//! constants `2^(2^b/1024)` scaled by `2^16`.  Both algorithms are defined
//! by spec functions that the executable code implements exactly.

use vstd::prelude::*;
use vstd::arithmetic::power2::pow2;

verus! {

/// The number of entropy units per bit.
pub const ENTROPY_SCALE: u64 = 1024;

/// The largest dictionary size the fixed-point arithmetic supports.
pub const MAX_WORDS: usize = 1048576;

/// The integer part of the base-2 logarithm of `n / c`: the number of
/// doublings of `c` that stay at or below `n`.
pub open spec fn int_log2(n: int, c: int) -> int
    decreases n - c,
    when 1 <= c <= n
{
    if 2 * c <= n {
        1 + int_log2(n, 2 * c)
    } else {
        0
    }
}

/// The first `steps` binary fraction bits of the base-2 logarithm of a
/// mantissa `x` in `[2^32, 2^33)` scaled by `2^32`, read as an integer:
/// repeatedly square the mantissa and emit a 1 exactly when the square
/// reaches 2.
pub open spec fn frac_bits(x: int, steps: nat) -> int
    decreases steps,
{
    if steps == 0 {
        0
    } else {
        let y = (x * x) / 0x100000000;
        if y >= 0x200000000 {
            pow2((steps - 1) as nat) + frac_bits(y / 2, (steps - 1) as nat)
        } else {
            frac_bits(y, (steps - 1) as nat)
        }
    }
}

/// The mantissa of `n / c`: the ratio scaled by `2^32` after the integer
/// part of the logarithm is divided out, a value in `[2^32, 2^33)`.
pub open spec fn mantissa_spec(n: int, c: int) -> int {
    (n * 0x100000000) / (c * pow2(int_log2(n, c) as nat) as int)
}

/// The base-2 logarithm of `n / c` in units of `1/1024` bit: the integer
/// part, followed by ten exact binary fraction bits of the mantissa.
pub open spec fn log2_scaled_spec(n: int, c: int) -> int {
    1024 * int_log2(n, c) + frac_bits(mantissa_spec(n, c), 10)
}

/// Fraction bits are nonnegative and below their positional range.
proof fn lemma_frac_bits_bounds(x: int, steps: nat)
    ensures
        0 <= frac_bits(x, steps) < pow2(steps),
    decreases steps,
{
    vstd::arithmetic::power2::lemma_pow2_pos(steps);
    if steps > 0 {
        let y = (x * x) / 0x100000000;
        lemma_frac_bits_bounds(y / 2, (steps - 1) as nat);
        lemma_frac_bits_bounds(y, (steps - 1) as nat);
        assert(pow2(steps) == 2 * pow2((steps - 1) as nat)) by {
            vstd::arithmetic::power2::lemma_pow2_unfold(steps);
        }
    }
}

/// Doubling `c` strips one from the integer part of the logarithm.
proof fn lemma_int_log2_unfold(n: int, c: int)
    requires
        1 <= c,
        2 * c <= n,
    ensures
        int_log2(n, c) == 1 + int_log2(n, 2 * c),
{
}

/// Compute the base-2 logarithm of `n / c` in units of `1/1024` bit.
pub fn log2_scaled(n: u64, c: u64) -> (r: u64)
    requires
        1 <= c <= n,
        n <= MAX_WORDS,
    ensures
        r == log2_scaled_spec(n as int, c as int),
        r <= 21503,
{
    let ghost ni = n as int;
    let ghost ci = c as int;
    let mut k: u64 = 0;
    let mut m: u64 = c;
    proof {
        vstd::arithmetic::power2::lemma2_to64();
    }
    while m * 2 <= n
        invariant
            1 <= c <= n <= MAX_WORDS,
            c <= m <= n,
            k <= 20,
            m == c * pow2(k as nat),
            pow2(k as nat) <= m,
            int_log2(n as int, c as int) == k + int_log2(n as int, m as int),
        decreases n - m,
    {
        proof {
            lemma_int_log2_unfold(n as int, m as int);
            assert(pow2((k + 1) as nat) == 2 * pow2(k as nat)) by {
                vstd::arithmetic::power2::lemma_pow2_unfold((k + 1) as nat);
            }
            assert(2 * (c * pow2(k as nat)) == c * (2 * pow2(k as nat)))
                by (nonlinear_arith);
            assert(c * pow2(k as nat) >= pow2(k as nat)) by (nonlinear_arith)
                requires
                    c >= 1,
                    pow2(k as nat) >= 1,
            ;
            assert(k + 1 <= 20) by {
                if k + 1 >= 21 {
                    vstd::arithmetic::power2::lemma_pow2_strictly_increases(
                        20,
                        (k + 1) as nat,
                    );
                    vstd::arithmetic::power2::lemma2_to64();
                }
            }
        }
        m = m * 2;
        k = k + 1;
    }
    proof {
        assert(int_log2(n as int, m as int) == 0);
    }
    // The mantissa n / m in [1, 2), scaled by 2^32.
    let mut x: u64 = (n * 0x100000000) / m;
    proof {
        let b: int = 0x100000000;
        assert(x >= 0x100000000) by {
            vstd::arithmetic::div_mod::lemma_div_multiples_vanish(b, m as int);
            assert(m as int * b <= ni * b) by (nonlinear_arith)
                requires
                    m as int <= ni,
                    b > 0,
            ;
            vstd::arithmetic::div_mod::lemma_div_is_ordered(m as int * b, ni * b, m as int);
        }
        assert(x < 0x200000000) by {
            assert(ni * b < m as int * (2 * b)) by (nonlinear_arith)
                requires
                    ni < 2 * m as int,
                    b > 0,
            ;
            vstd::arithmetic::div_mod::lemma_multiply_divide_lt(ni * b, m as int, 2 * b);
        }
        assert(x == mantissa_spec(ni, ci));
    }
    let ghost x0 = x as int;
    let mut frac: u64 = 0;
    let mut step: usize = 0;
    while step < 10
        invariant
            1 <= c <= n <= MAX_WORDS,
            0 <= step <= 10,
            0x100000000 <= x < 0x200000000,
            frac < pow2(step as nat),
            k <= 20,
            k == int_log2(n as int, c as int),
            x0 == mantissa_spec(n as int, c as int),
            frac_bits(x0, 10) == frac * pow2((10 - step) as nat) + frac_bits(
                x as int,
                (10 - step) as nat,
            ),
        decreases 10 - step,
    {
        let ghost s = (10 - step) as nat;
        let ghost xi = x as int;
        proof {
            assert(xi * xi < 0x40000000000000000) by (nonlinear_arith)
                requires
                    0 <= xi < 0x200000000,
            ;
        }
        let sq: u128 = (x as u128) * (x as u128);
        proof {
            assert(sq as int / 0x100000000 < 0x400000000) by {
                vstd::arithmetic::div_mod::lemma_multiply_divide_lt(
                    sq as int,
                    0x100000000,
                    0x400000000,
                );
            }
            vstd::arithmetic::div_mod::lemma_div_pos_is_pos(sq as int, 0x100000000);
        }
        let y: u64 = (sq / 0x100000000) as u64;
        proof {
            assert(y as int == (xi * xi) / 0x100000000);
            assert(frac < 1024) by {
                if step <= 9 {
                    vstd::arithmetic::power2::lemma_pow2_strictly_increases(step as nat, 10);
                }
                vstd::arithmetic::power2::lemma2_to64();
            }
            assert(y >= 0x100000000) by {
                assert(xi * xi >= 0x100000000 * 0x100000000) by (nonlinear_arith)
                    requires
                        xi >= 0x100000000,
                ;
                vstd::arithmetic::div_mod::lemma_div_multiples_vanish(
                    0x100000000int,
                    0x100000000int,
                );
                vstd::arithmetic::div_mod::lemma_div_is_ordered(
                    0x100000000int * 0x100000000int,
                    xi * xi,
                    0x100000000int,
                );
            }
            assert(pow2(s) == 2 * pow2((s - 1) as nat)) by {
                vstd::arithmetic::power2::lemma_pow2_unfold(s);
            }
            vstd::arithmetic::power2::lemma_pow2_pos((s - 1) as nat);
        }
        if y >= 0x200000000 {
            proof {
                assert(frac_bits(x as int, s) == pow2((s - 1) as nat) + frac_bits(
                    y as int / 2,
                    (s - 1) as nat,
                ));
                assert((2 * frac + 1) * pow2((s - 1) as nat) == frac * pow2(s) + pow2(
                    (s - 1) as nat,
                )) by (nonlinear_arith)
                    requires
                        pow2(s) == 2 * pow2((s - 1) as nat),
                ;
                assert(pow2((step + 1) as nat) == 2 * pow2(step as nat)) by {
                    vstd::arithmetic::power2::lemma_pow2_unfold((step + 1) as nat);
                }
            }
            frac = frac * 2 + 1;
            x = y / 2;
        } else {
            proof {
                assert(frac_bits(x as int, s) == frac_bits(y as int, (s - 1) as nat));
                assert((2 * frac) * pow2((s - 1) as nat) == frac * pow2(s))
                    by (nonlinear_arith)
                    requires
                        pow2(s) == 2 * pow2((s - 1) as nat),
                ;
                assert(pow2((step + 1) as nat) == 2 * pow2(step as nat)) by {
                    vstd::arithmetic::power2::lemma_pow2_unfold((step + 1) as nat);
                }
            }
            frac = frac * 2;
            x = y;
        }
        step += 1;
    }
    proof {
        assert(frac_bits(x as int, 0) == 0);
        assert(pow2(0) == 1) by {
            vstd::arithmetic::power2::lemma2_to64();
        }
        assert(pow2(10) == 1024) by {
            vstd::arithmetic::power2::lemma2_to64();
        }
        assert(step == 10);
        assert(frac_bits(x0, 10) == frac * pow2((10 - step) as nat) + frac_bits(
            x as int,
            (10 - step) as nat,
        ));
        assert((10 - step) as nat == 0);
        assert(frac_bits(x0, 10) == frac * pow2(0) + frac_bits(x as int, 0));
        assert(frac_bits(x0, 10) == frac);
        assert(x0 == mantissa_spec(n as int, c as int));
        assert(k == int_log2(n as int, c as int));
        assert(k * 1024 + frac == log2_scaled_spec(n as int, c as int));
    }
    k * 1024 + frac
}

/// The constant `2^(2^b / 1024)` scaled by `2^16`, rounded to the nearest
/// integer, for each of the ten fraction bits.
pub open spec fn exp2_step(b: nat) -> int {
    if b == 0 {
        65580
    } else if b == 1 {
        65625
    } else if b == 2 {
        65714
    } else if b == 3 {
        65892
    } else if b == 4 {
        66250
    } else if b == 5 {
        66971
    } else if b == 6 {
        68438
    } else if b == 7 {
        71468
    } else if b == 8 {
        77936
    } else {
        92682
    }
}

/// The largest value `exp2_frac_partial` can reach after `b` steps: the
/// chain obtained with every fraction bit set.
pub open spec fn exp2_bound(b: nat) -> int {
    if b == 0 {
        65536
    } else if b == 1 {
        65580
    } else if b == 2 {
        65669
    } else if b == 3 {
        65847
    } else if b == 4 {
        66204
    } else if b == 5 {
        66925
    } else if b == 6 {
        68390
    } else if b == 7 {
        71418
    } else if b == 8 {
        77882
    } else if b == 9 {
        92617
    } else {
        130980
    }
}

/// `2^(f/1024)` scaled by `2^16`, after applying the constants for the low
/// `b` bits of `f`.
pub open spec fn exp2_frac_partial(f: int, b: nat) -> int
    decreases b,
{
    if b == 0 {
        65536
    } else {
        let prev = exp2_frac_partial(f, (b - 1) as nat);
        if (f / pow2((b - 1) as nat) as int) % 2 == 1 {
            (prev * exp2_step((b - 1) as nat)) / 65536
        } else {
            prev
        }
    }
}

/// `2^(f/1024)` scaled by `2^16`, for a fraction `f` in `[0, 1024)`.
pub open spec fn exp2_frac(f: int) -> int {
    exp2_frac_partial(f, 10)
}

/// The partial products stay between `2^16` and the all-bits-set chain.
proof fn lemma_exp2_frac_bounds(f: int, b: nat)
    requires
        b <= 10,
    ensures
        65536 <= exp2_frac_partial(f, b) <= exp2_bound(b),
    decreases b,
{
    if b > 0 {
        lemma_exp2_frac_bounds(f, (b - 1) as nat);
        let prev = exp2_frac_partial(f, (b - 1) as nat);
        let c = exp2_step((b - 1) as nat);
        if (f / pow2((b - 1) as nat) as int) % 2 == 1 {
            assert(prev * 65536 <= prev * c <= exp2_bound((b - 1) as nat) * c)
                by (nonlinear_arith)
                requires
                    65536 <= prev <= exp2_bound((b - 1) as nat),
                    65536 <= c,
            ;
            vstd::arithmetic::div_mod::lemma_div_is_ordered(
                prev * 65536,
                prev * c,
                65536,
            );
            vstd::arithmetic::div_mod::lemma_div_is_ordered(
                prev * c,
                exp2_bound((b - 1) as nat) * c,
                65536,
            );
            vstd::arithmetic::div_mod::lemma_div_multiples_vanish(prev, 65536);
            assert(prev * 65536 == 65536 * prev) by (nonlinear_arith);
        }
    }
}

/// The constant for one fraction bit.
fn exp2_step_exec(b: usize) -> (r: u64)
    requires
        b < 10,
    ensures
        r == exp2_step(b as nat),
{
    if b == 0 {
        65580
    } else if b == 1 {
        65625
    } else if b == 2 {
        65714
    } else if b == 3 {
        65892
    } else if b == 4 {
        66250
    } else if b == 5 {
        66971
    } else if b == 6 {
        68438
    } else if b == 7 {
        71468
    } else if b == 8 {
        77936
    } else {
        92682
    }
}

/// Compute `2^(f/1024)` scaled by `2^16` for a fraction `f` in `[0, 1024)`.
fn exp2_frac_exec(f: u64) -> (r: u64)
    requires
        f < 1024,
    ensures
        r == exp2_frac(f as int),
        65536 <= r <= 130980,
{
    let mut acc: u64 = 65536;
    let mut mask: u64 = 1;
    let mut b: usize = 0;
    proof {
        vstd::arithmetic::power2::lemma2_to64();
    }
    while b < 10
        invariant
            f < 1024,
            0 <= b <= 10,
            1 <= mask <= 1024,
            mask == pow2(b as nat),
            acc == exp2_frac_partial(f as int, b as nat),
            65536 <= acc <= exp2_bound(b as nat),
        decreases 10 - b,
    {
        proof {
            lemma_exp2_frac_bounds(f as int, (b + 1) as nat);
            assert(pow2((b + 1) as nat) == 2 * pow2(b as nat)) by {
                vstd::arithmetic::power2::lemma_pow2_unfold((b + 1) as nat);
            }
            assert(pow2((b + 1) as nat) <= 1024) by {
                if b + 1 < 10 {
                    vstd::arithmetic::power2::lemma_pow2_strictly_increases((b + 1) as nat, 10);
                }
                vstd::arithmetic::power2::lemma2_to64();
            }
        }
        if (f / mask) % 2 == 1 {
            let c = exp2_step_exec(b);
            acc = (acc * c) / 65536;
        }
        mask = mask * 2;
        b += 1;
    }
    acc
}

/// The expected remaining candidate count after a guess of entropy `h`
/// (in units of `1/1024` bit) over `n` candidates: `n / 2^(h/1024)`,
/// scaled by `1024`.
pub open spec fn expected_spec(n: int, h: int) -> int {
    (n * 0x4000000) / (pow2((h / 1024) as nat) as int * exp2_frac(h % 1024))
}

/// Compute the expected remaining candidate count, scaled by `1024`, of a
/// guess with entropy `h` over `n` candidates.
pub fn expected_remaining_scaled(n: u64, h: u64) -> (r: u64)
    requires
        n <= MAX_WORDS,
    ensures
        r == expected_spec(n as int, h as int),
{
    let k: u64 = h / 1024;
    let f: u64 = h % 1024;
    proof {
        vstd::arithmetic::power2::lemma2_to64();
        vstd::arithmetic::power2::lemma2_to64_rest();
        lemma_exp2_frac_bounds(f as int, 10);
    }
    if k >= 46 {
        proof {
            let dd = pow2(k as nat) as int * exp2_frac(f as int);
            assert(pow2(46) <= pow2(k as nat)) by {
                if k > 46 {
                    vstd::arithmetic::power2::lemma_pow2_strictly_increases(46, k as nat);
                }
            }
            assert(pow2(k as nat) >= 0x400000000000);
            assert(dd >= 0x400000000000 * 65536) by (nonlinear_arith)
                requires
                    dd == pow2(k as nat) as int * exp2_frac(f as int),
                    pow2(k as nat) as int >= 0x400000000000,
                    exp2_frac(f as int) >= 65536,
            ;
            assert(n as int * 0x4000000 < dd);
            vstd::arithmetic::div_mod::lemma_basic_div(n as int * 0x4000000, dd);
            assert(expected_spec(n as int, h as int) == 0);
        }
        return 0;
    }
    let mut d: u64 = 1;
    let mut j: u64 = 0;
    while j < k
        invariant
            j <= k < 46,
            d == pow2(j as nat),
            d <= 0x200000000000,
        decreases k - j,
    {
        proof {
            assert(pow2((j + 1) as nat) == 2 * pow2(j as nat)) by {
                vstd::arithmetic::power2::lemma_pow2_unfold((j + 1) as nat);
            }
            assert(pow2((j + 1) as nat) <= pow2(45)) by {
                if j + 1 < 45 {
                    vstd::arithmetic::power2::lemma_pow2_strictly_increases(
                        (j + 1) as nat,
                        45,
                    );
                }
            }
            vstd::arithmetic::power2::lemma2_to64();
            vstd::arithmetic::power2::lemma2_to64_rest();
        }
        d = d * 2;
        j += 1;
    }
    let e = exp2_frac_exec(f);
    proof {
        assert(d as int * e as int <= 0x200000000000 * 131072) by (nonlinear_arith)
            requires
                0 < d as int <= 0x200000000000,
                0 < e as int <= 130980,
        ;
        assert(d as int * e as int > 0) by (nonlinear_arith)
            requires
                d as int > 0,
                e as int > 0,
        ;
    }
    (n * 0x4000000) / (d * e)
}

/// The scaled logarithm of a ratio of at least one is never negative.
pub proof fn lemma_log2_scaled_nonneg(n: int, c: int)
    requires
        1 <= c <= n,
    ensures
        log2_scaled_spec(n, c) >= 0,
{
    lemma_int_log2_nonneg(n, c);
    lemma_frac_bits_bounds(mantissa_spec(n, c), 10);
}

/// The integer part of the logarithm of a ratio of at least one is never
/// negative.
proof fn lemma_int_log2_nonneg(n: int, c: int)
    requires
        1 <= c <= n,
    ensures
        int_log2(n, c) >= 0,
    decreases n - c,
{
    if 2 * c <= n {
        lemma_int_log2_nonneg(n, 2 * c);
    }
}

/// The entropy numerator of a histogram of bounded buckets is never
/// negative.
proof fn lemma_weighted_log_sum_nonneg(counts: Seq<u32>, n: int, upto: int)
    requires
        1 <= n,
        forall|i: int| 0 <= i < counts.len() ==> #[trigger] counts[i] <= n,
        upto <= counts.len(),
    ensures
        weighted_log_sum(counts, n, upto) >= 0,
    decreases upto,
{
    if upto > 0 {
        lemma_weighted_log_sum_nonneg(counts, n, upto - 1);
        let c = counts[upto - 1] as int;
        if c > 0 {
            lemma_log2_scaled_nonneg(n, c);
            assert(c * log2_scaled_spec(n, c) >= 0) by (nonlinear_arith)
                requires
                    c > 0,
                    log2_scaled_spec(n, c) >= 0,
            ;
        }
    }
}

/// The entropy of a histogram over at least one candidate is never
/// negative.
pub proof fn lemma_entropy_of_counts_nonneg(counts: Seq<u32>, n: int)
    requires
        1 <= n,
        forall|i: int| 0 <= i < counts.len() ==> #[trigger] counts[i] <= n,
    ensures
        entropy_of_counts(counts, n) >= 0,
{
    lemma_weighted_log_sum_nonneg(counts, n, counts.len() as int);
    vstd::arithmetic::div_mod::lemma_div_pos_is_pos(
        weighted_log_sum(counts, n, counts.len() as int),
        n,
    );
}

/// One summand of the entropy numerator: a pattern bucket of `count`
/// candidates contributes `count` times the scaled log of `n / count`.
pub open spec fn entropy_term(n: int, count: int) -> int {
    if count > 0 {
        count * log2_scaled_spec(n, count)
    } else {
        0
    }
}

/// The entropy numerator over the first `upto` buckets of a histogram.
pub open spec fn weighted_log_sum(counts: Seq<u32>, n: int, upto: int) -> int
    decreases upto,
{
    if upto <= 0 {
        0
    } else {
        weighted_log_sum(counts, n, upto - 1) + entropy_term(n, counts[upto - 1] as int)
    }
}

/// The Shannon entropy, in units of `1/1024` bit, of the distribution
/// given by a histogram of pattern buckets over `n` candidates:
/// `sum(count/n * log2(n/count))` over the non-empty buckets.
pub open spec fn entropy_of_counts(counts: Seq<u32>, n: int) -> int {
    weighted_log_sum(counts, n, counts.len() as int) / n
}

/// Compute the scaled Shannon entropy of a pattern histogram over `n`
/// candidates.
pub fn entropy_from_counts(counts: &Vec<u32>, n: u64) -> (r: u64)
    requires
        1 <= n <= MAX_WORDS,
        counts@.len() <= 256,
        forall|i: int| 0 <= i < counts@.len() ==> #[trigger] counts@[i] <= n,
    ensures
        r == entropy_of_counts(counts@, n as int),
{
    let mut acc: u64 = 0;
    let mut i: usize = 0;
    let len = counts.len();
    while i < len
        invariant
            1 <= n <= MAX_WORDS,
            len == counts@.len() <= 256,
            0 <= i <= len,
            forall|j: int| 0 <= j < counts@.len() ==> #[trigger] counts@[j] <= n,
            acc == weighted_log_sum(counts@, n as int, i as int),
            acc <= i * 0x800000000,
        decreases len - i,
    {
        let c = counts[i];
        if c > 0 {
            let lg = log2_scaled(n, c as u64);
            proof {
                assert(c as int * lg as int <= 0x100000 * 21503) by (nonlinear_arith)
                    requires
                        0 <= c as int <= 0x100000,
                        0 <= lg as int <= 21503,
                ;
            }
            acc = acc + (c as u64) * lg;
        }
        i += 1;
    }
    acc / n
}

} // verus!
