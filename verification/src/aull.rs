//! 64-bit unsigned division and remainder built from 64-by-32-bit divisions,
//! each done bit by bit with shifts, comparisons and subtractions, so that no
//! 64-bit division is compiled: on 32-bit x86 that would call these very
//! routines.
use vstd::prelude::*;
use vstd::arithmetic::div_mod::*;
use vstd::arithmetic::power2::*;
use vstd::bits::*;

verus! {

/// Two to the 32nd, the weight of a high word.
pub open spec fn word() -> int {
    0x1_0000_0000
}

/// Two to the 64th, one past the largest `u64`.
pub open spec fn dword() -> int {
    0x1_0000_0000_0000_0000
}

/// The value of the 64-bit number whose high word is `hi` and low word is `lo`.
pub open spec fn join_words(hi: u32, lo: u32) -> int {
    hi as int * word() + lo as int
}

/// Bringing down the next bit of the dividend: the top `j + 1` bits of
/// `hi:lo` are the top `j` bits doubled plus bit `31 - j` of `lo`.
proof fn lemma_next_dividend_bit(n: u64, hi: u32, lo: u32, j: u32)
    by (bit_vector)
    requires
        j < 32,
        n == ((hi as u64) << 32) | (lo as u64),
    ensures
        n >> (31 - j) as u64 == (n >> (32 - j) as u64) * 2 + (((lo >> ((31 - j) as u32)) & 1) as u64),
        n >> (32 - j) as u64 <= n,
        n >> (31 - j) as u64 <= n,
        ((lo >> ((31 - j) as u32)) & 1) <= 1,
{
}

/// Shifting left by one doubles, and setting the low bit of an even number
/// adds one, for values that leave room at the top.
proof fn lemma_shift_in_bit(x: u64, bit: u64)
    by (bit_vector)
    requires
        x < 0x1_0000_0000,
        bit <= 1,
    ensures
        (x << 1) | bit == x * 2 + bit,
        x << 1 == x * 2,
        (x << 1) | 1 == x * 2 + 1,
{
}

/// Divides `hi:lo` by `d`, returning `(quotient, remainder)`.
///
/// The quotient fits in 32 bits, which is what `hi < d` guarantees. The
/// division runs bit by bit, bringing down one bit of `lo` at a time and
/// subtracting `d` where it fits, so it needs only shifts, comparisons and
/// subtractions: no 64-bit division, which on 32-bit x86 would call back into
/// this runtime's own division helpers.
pub fn divmod_64_32(hi: u32, lo: u32, d: u32) -> (r: (u32, u32))
    requires
        d != 0,
        hi < d,
    ensures
        r.0 as int == join_words(hi, lo) / d as int,
        r.1 as int == join_words(hi, lo) % d as int,
{
    let ghost n: u64 = ((hi as u64) << 32) | (lo as u64);
    proof {
        assert(n == hi as int * 0x1_0000_0000 + lo as int && n >> 32u64 == hi as u64)
            by (bit_vector)
            requires
                n == ((hi as u64) << 32) | (lo as u64),
        ;
        assert(n < d as int * word()) by (nonlinear_arith)
            requires
                n == hi as int * word() + lo as int,
                lo < word(),
                hi < d,
        ;
    }
    let dd: u64 = d as u64;
    let mut quot: u64 = 0;
    let mut rem: u64 = hi as u64;
    let mut j: u32 = 0;
    while j < 32
        invariant
            j <= 32,
            dd == d as u64,
            dd > 0,
            n == ((hi as u64) << 32) | (lo as u64),
            n < d as int * word(),
            rem < dd,
            quot < word(),
            quot * dd + rem == (n >> (32 - j) as u64) as int,
        decreases 32 - j,
    {
        let bit: u64 = ((lo >> (31 - j)) & 1) as u64;
        proof {
            lemma_next_dividend_bit(n, hi, lo, j);
            lemma_shift_in_bit(rem, bit);
            lemma_shift_in_bit(quot, 0);
        }
        let ghost prev = (n >> (32 - j) as u64) as int;
        let ghost next = (n >> (31 - j) as u64) as int;
        let ghost q0 = quot as int;
        let ghost r0 = rem as int;
        rem = (rem << 1) | bit;
        quot = quot << 1;
        let ghost subtracted: int = 0;
        if rem >= dd {
            rem = rem - dd;
            quot = quot | 1;
            proof {
                subtracted = 1;
            }
        }
        proof {
            assert(quot * dd + rem == next) by (nonlinear_arith)
                requires
                    quot == 2 * q0 + subtracted,
                    rem == 2 * r0 + bit - subtracted * dd,
                    q0 * dd + r0 == prev,
                    next == prev * 2 + bit,
            ;
            assert(quot < word()) by (nonlinear_arith)
                requires
                    quot * dd + rem == next,
                    rem >= 0,
                    next <= n,
                    n < dd * word(),
                    dd > 0,
            ;
        }
        j = j + 1;
    }
    proof {
        assert(n >> 0u64 == n) by (bit_vector);
        lemma_fundamental_div_mod_converse(n as int, d as int, quot as int, rem as int);
    }
    (quot as u32, rem as u32)
}

/// Dividing both operands by `p` (a power of two that leaves the divisor with
/// exactly 32 significant bits) gives a quotient that is never too small and
/// at most one too large, and whose product with the divisor's high word
/// still fits in 32 bits.
pub proof fn lemma_normalized_quotient(a: int, b: int, p: int, k: int)
    requires
        0 <= a < dword(),
        word() <= b < dword(),
        p == 2 || p >= 4,
        k >= 1,
        p * k == word(),
        0x8000_0000 <= b / p < word(),
    ensures
        a / b <= (a / p) / (b / p) <= a / b + 1,
        ((a / p) / (b / p)) * (b / word()) < word(),
{
    let ap = a / p;
    let bp = b / p;
    let q = ap / bp;
    let r = b % p;
    lemma_fundamental_div_mod(b, p);
    lemma_fundamental_div_mod(a, p);
    lemma_fundamental_div_mod(ap, bp);
    lemma_mod_pos_bound(b, p);
    lemma_mod_pos_bound(a, p);
    lemma_mod_pos_bound(ap, bp);
    lemma_div_pos_is_pos(a, p);
    lemma_div_pos_is_pos(ap, bp);
    assert(bp * p <= b) by (nonlinear_arith)
        requires b == p * bp + r, 0 <= r;
    assert(1 <= bp * p) by (nonlinear_arith)
        requires bp >= 1, p >= 2;
    // lower bound: a / b <= a / (bp * p) == (a / p) / bp
    lemma_div_is_ordered_by_denominator(a, bp * p, b);
    lemma_div_denominator(a, p, bp);
    assert(p * bp == bp * p) by (nonlinear_arith);
    // q * bp * p <= a
    assert(q * bp <= ap) by (nonlinear_arith)
        requires ap == bp * q + ap % bp, 0 <= ap % bp;
    assert(ap * p <= a) by (nonlinear_arith)
        requires a == p * ap + a % p, 0 <= a % p;
    assert(q * bp * p <= a) by (nonlinear_arith)
        requires q * bp <= ap, ap * p <= a, p >= 2;
    assert(q * b == q * bp * p + q * r) by (nonlinear_arith)
        requires b == p * bp + r;
    // q * r <= b
    if p == 2 {
        assert(ap < 0x8000_0000_0000_0000) by (nonlinear_arith)
            requires a == 2 * ap + a % 2, 0 <= a % 2, a < dword();
        assert(q < word()) by (nonlinear_arith)
            requires q * bp <= ap, ap < 0x8000_0000_0000_0000, bp >= 0x8000_0000, q >= 0;
        assert(q * r <= q) by (nonlinear_arith)
            requires 0 <= r < 2, q >= 0;
    } else {
        assert(q * p < 0x2_0000_0000) by (nonlinear_arith)
            requires q * bp * p <= a, a < dword(), bp >= 0x8000_0000, q >= 0, p >= 4;
        assert(q * r <= q * p) by (nonlinear_arith)
            requires 0 <= r < p, q >= 0;
        assert(0x2_0000_0000 <= bp * p) by (nonlinear_arith)
            requires bp >= 0x8000_0000, p >= 4;
    }
    assert(q * r <= b);
    // upper bound: q >= a / b + 2 would make q * b exceed a + b
    let qq = a / b;
    lemma_fundamental_div_mod(a, b);
    lemma_mod_pos_bound(a, b);
    if q >= qq + 2 {
        assert(q * b >= (qq + 2) * b) by (nonlinear_arith)
            requires q >= qq + 2, b >= 0;
        assert((qq + 2) * b == b * qq + 2 * b) by (nonlinear_arith);
        assert(false);
    }
    // q * (b / word) < word
    let bh = b / word();
    lemma_div_denominator(b, p, k);
    lemma_fundamental_div_mod(bp, k);
    lemma_mod_pos_bound(bp, k);
    assert(bh * k <= bp) by (nonlinear_arith)
        requires bp == k * bh + bp % k, 0 <= bp % k;
    lemma_div_pos_is_pos(b, word());
    assert(q * bh < word()) by (nonlinear_arith)
        requires
            bh * k <= bp,
            q * bp * p <= a,
            a < dword(),
            p * k == word(),
            q >= 0,
            bh >= 0,
            p >= 2,
            k >= 1,
    {
        assert(q * bh * k * p <= q * bp * p);
        assert(dword() == word() * k * p);
    }
}

/// The sum of two words wrapped to 32 bits, and whether it wrapped: what
/// `u32::overflowing_add` returns.
fn overflowing_add_u32(x: u32, y: u32) -> (r: (u32, bool))
    ensures
        r.0 as int == (x as int + y as int) % word(),
        r.1 == (x as int + y as int >= word()),
{
    let sum: u64 = x as u64 + y as u64;
    let wrapped: u32 = #[verifier::truncate] (sum as u32);
    assert(wrapped == sum % 0x1_0000_0000) by (bit_vector)
        requires
            wrapped == sum as u32,
    ;
    (wrapped, sum >= 0x1_0000_0000)
}

/// 64-by-64-bit unsigned division for a divisor that needs both words,
/// returning the quotient (which always fits in 32 bits here) and the exact
/// product `quotient * divisor`.
pub fn divmod_wide(a: u64, b: u64) -> (r: (u32, u64))
    requires
        b >= word(),
    ensures
        r.0 as int == a as int / b as int,
        r.1 as int == r.0 as int * b as int,
{
    let (a_lo, a_hi) = (a as u32, (a >> 32) as u32);
    let (b_lo, b_hi) = (b as u32, (b >> 32) as u32);
    proof {
        assert(a == a_hi as int * 0x1_0000_0000 + a_lo as int) by (bit_vector)
            requires
                a_lo == a as u32,
                a_hi == (a >> 32) as u32,
        ;
        assert(b == b_hi as int * 0x1_0000_0000 + b_lo as int) by (bit_vector)
            requires
                b_lo == b as u32,
                b_hi == (b >> 32) as u32,
        ;
        vstd::std_specs::bits::axiom_u32_leading_zeros(b_hi);
    }
    let lz: u32 = b_hi.leading_zeros();
    // Normalize by shifting both operands right until the divisor is a single word, then
    // divide; that yields the quotient, possibly one too large because of the bits that were
    // shifted out.
    let shift: u32 = 32 - lz;
    let a_norm: u64 = a >> shift;
    let b_wide: u64 = b >> shift;
    proof {
        assert(b_wide >= 0x8000_0000 && b_wide < 0x1_0000_0000 && (a_norm >> 32u64)
            < 0x8000_0000) by (bit_vector)
            requires
                lz < 32,
                b_hi == (b >> 32) as u32,
                (b_hi >> (31 - lz) as u32) & 1u32 != 0u32,
                b_hi >> (32 - lz) as u32 == 0,
                shift == 32 - lz,
                b_wide == b >> shift,
                a_norm == a >> shift,
        ;
    }
    let b_norm: u32 = b_wide as u32;
    let (mut q, _) = divmod_64_32((a_norm >> 32) as u32, a_norm as u32, b_norm);
    proof {
        let hi = (a_norm >> 32) as u32;
        let lo = a_norm as u32;
        assert(join_words(hi, lo) == a_norm) by (bit_vector)
            requires
                hi == (a_norm >> 32) as u32,
                lo == a_norm as u32,
        ;
        assert(a >> shift == a >> (shift as u64) && b >> shift == b >> (shift as u64))
            by (bit_vector);
        let p = pow2(shift as nat) as int;
        let k = pow2((32 - shift) as nat) as int;
        lemma_u64_shr_is_div(a, shift as u64);
        lemma_u64_shr_is_div(b, shift as u64);
        lemma_pow2_adds(shift as nat, (32 - shift) as nat);
        lemma_pow2_pos((32 - shift) as nat);
        lemma2_to64();
        if shift > 2 {
            lemma_pow2_strictly_increases(2, shift as nat);
        }
        lemma_fundamental_div_mod_converse(b as int, word(), b_hi as int, b_lo as int);
        lemma_normalized_quotient(a as int, b as int, p, k);
        assert((q as int) * (b_lo as int) < dword()) by (nonlinear_arith)
            requires
                q < word(),
                b_lo < word(),
        ;
    }
    // Correct the estimate: if `q * b` (truncated to 64 bits, with the carry out of the high
    // word tracked separately) exceeds the dividend, `q` was one too large.
    let carry_in = (q as u64 * b_hi as u64) as u32;
    let prod = q as u64 * b_lo as u64;
    let (prod_hi, overflow) = overflowing_add_u32((prod >> 32) as u32, carry_in);
    let ghost p0 = prod;
    let mut prod = ((prod_hi as u64) << 32) | prod as u32 as u64;
    let ghost ph = p0 as int / word();
    let ghost pl = p0 as int % word();
    let ghost big_h = ph + carry_in;
    let ghost ai = a as int;
    let ghost bi = b as int;
    let ghost qi = q as int;
    let ghost qq = ai / bi;
    proof {
        assert((p0 >> 32) as u32 == p0 / 0x1_0000_0000 && p0 as u32 == p0 % 0x1_0000_0000)
            by (bit_vector);
        assert(prod == prod_hi as int * 0x1_0000_0000 + (p0 as u32) as int) by (bit_vector)
            requires
                prod == ((prod_hi as u64) << 32) | (p0 as u32) as u64,
        ;
        assert(prod as u32 == p0 as u32) by (bit_vector)
            requires
                prod == ((prod_hi as u64) << 32) | (p0 as u32) as u64,
        ;
        lemma_fundamental_div_mod(ai, bi);
        lemma_mod_pos_bound(ai, bi);
        assert(qi * bi == big_h * word() + pl) by (nonlinear_arith)
            requires
                bi == b_hi * word() + b_lo,
                carry_in == qi * b_hi,
                p0 == qi * b_lo,
                p0 == ph * word() + pl,
                big_h == ph + carry_in,
        ;
        assert(qq * bi <= ai && ai < qq * bi + bi) by (nonlinear_arith)
            requires
                ai == bi * qq + ai % bi,
                0 <= ai % bi < bi,
        ;
        if overflow {
            lemma_fundamental_div_mod_converse(big_h, word(), 1, big_h - word());
        } else {
            lemma_small_mod(big_h as nat, word() as nat);
        }
    }
    if overflow || prod_hi > a_hi || (prod_hi == a_hi && prod as u32 > a_lo) {
        proof {
            assert(qi * bi > ai);
            assert(qi == qq + 1);
            assert(qi * bi == qq * bi + bi) by (nonlinear_arith)
                requires
                    qi == qq + 1,
            ;
        }
        q -= 1;
        prod = prod.wrapping_sub(b);
    } else {
        proof {
            assert(qi * bi <= ai);
            if qi == qq + 1 {
                assert(qi * bi == qq * bi + bi) by (nonlinear_arith)
                    requires
                        qi == qq + 1,
                ;
            }
            assert(qi == qq);
        }
    }
    (q, prod)
}

/// Long division of `hi:lo` by a single word `d`, one word at a time: the
/// high word's quotient and remainder, then the quotient and remainder of the
/// remainder joined with the low word, give the full quotient and remainder.
proof fn lemma_two_step_division(
    hi: int,
    lo: int,
    d: int,
    q_hi: int,
    rem: int,
    q_lo: int,
    rem2: int,
)
    requires
        0 <= lo < word(),
        d > 0,
        q_hi == hi / d,
        rem == hi % d,
        q_lo == (rem * word() + lo) / d,
        rem2 == (rem * word() + lo) % d,
    ensures
        (hi * word() + lo) / d == q_hi * word() + q_lo,
        (hi * word() + lo) % d == rem2,
{
    lemma_fundamental_div_mod(hi, d);
    lemma_fundamental_div_mod(rem * word() + lo, d);
    lemma_mod_pos_bound(rem * word() + lo, d);
    assert(hi * word() + lo == (q_hi * word() + q_lo) * d + rem2) by (nonlinear_arith)
        requires
            hi == d * q_hi + rem,
            rem * word() + lo == d * q_lo + rem2,
    ;
    lemma_fundamental_div_mod_converse(hi * word() + lo, d, q_hi * word() + q_lo, rem2);
}

/// The two words of `a`, high then low.
proof fn lemma_split_words(a: u64)
    ensures
        a == ((a >> 32) as u32) as int * word() + (a as u32) as int,
{
    assert(a == ((a >> 32) as u32) as int * 0x1_0000_0000 + (a as u32) as int) by (bit_vector);
}

/// `_aulldiv`: 64-by-64-bit unsigned division, built from 64-by-32-bit
/// divisions (`divmod_64_32`) and no 64-bit one.
pub fn aulldiv(a: u64, b: u64) -> (r: u64)
    requires
        b != 0,
    ensures
        r == a / b,
{
    let (a_hi, b_lo, b_hi) = ((a >> 32) as u32, b as u32, (b >> 32) as u32);
    proof {
        lemma_split_words(a);
        lemma_split_words(b);
    }
    if b_hi == 0 {
        // Single-word divisor: two chained 64-by-32-bit divisions. `a_hi < b_lo` holds for the
        // second one because the first one reduced it to a remainder.
        let (q_hi, rem) = divmod_64_32(0, a_hi, b_lo);
        let (q_lo, _) = divmod_64_32(rem, a as u32, b_lo);
        proof {
            let rem2 = join_words(rem, a as u32) % b_lo as int;
            lemma_two_step_division(
                a_hi as int,
                (a as u32) as int,
                b_lo as int,
                q_hi as int,
                rem as int,
                q_lo as int,
                rem2,
            );
            assert(((q_hi as u64) << 32) | q_lo as u64 == q_hi as int * 0x1_0000_0000
                + q_lo as int) by (bit_vector);
        }
        return ((q_hi as u64) << 32) | q_lo as u64;
    }
    divmod_wide(a, b).0 as u64
}

/// `_aullrem`: 64-by-64-bit unsigned remainder, built from 64-by-32-bit
/// divisions (`divmod_64_32`) and no 64-bit one.
pub fn aullrem(a: u64, b: u64) -> (r: u64)
    requires
        b != 0,
    ensures
        r == a % b,
{
    let (a_hi, b_lo, b_hi) = ((a >> 32) as u32, b as u32, (b >> 32) as u32);
    proof {
        lemma_split_words(a);
        lemma_split_words(b);
    }
    if b_hi == 0 {
        // Only the remainder of the second division matters; the first one exists to feed it
        // the high word's remainder.
        let (q_hi, rem) = divmod_64_32(0, a_hi, b_lo);
        let (q_lo, rem) = divmod_64_32(rem, a as u32, b_lo);
        proof {
            let rem1 = a_hi as int % b_lo as int;
            lemma_two_step_division(
                a_hi as int,
                (a as u32) as int,
                b_lo as int,
                q_hi as int,
                rem1,
                q_lo as int,
                rem as int,
            );
        }
        return rem as u64;
    }
    // `a - q * b`, where the product is exact once the estimate has been corrected.
    let (q, prod) = divmod_wide(a, b);
    proof {
        lemma_fundamental_div_mod(a as int, b as int);
        lemma_mod_pos_bound(a as int, b as int);
        assert(prod as int == b as int * (a as int / b as int)) by (nonlinear_arith)
            requires
                prod as int == q as int * b as int,
                q as int == a as int / b as int,
        ;
    }
    a - prod
}

/// Division and remainder together give the dividend back: for a nonzero
/// divisor, `aulldiv(a, b) * b + aullrem(a, b) == a`, and the remainder is
/// smaller than the divisor.
pub proof fn lemma_aulldiv_aullrem(a: u64, b: u64)
    requires
        b != 0,
    ensures
        (a / b) as int * b as int + (a % b) as int == a as int,
        a % b < b,
{
    lemma_fundamental_div_mod(a as int, b as int);
    lemma_mod_pos_bound(a as int, b as int);
    assert((a / b) as int * b as int == b as int * (a as int / b as int)) by (nonlinear_arith);
}

} // verus!
