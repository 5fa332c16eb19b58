//! What the checksums of a PNG file are.
//!
//! A CRC-32 is the remainder of a polynomial division over the field of two
//! elements, and an Adler-32 is a pair of running sums. Both see every byte:
//! no single byte of a message can change without its checksum changing.

use vstd::prelude::*;

use crate::png;

verus! {

/// Bit `k` of a word, counted from the low end.
pub open spec fn bit(w: u32, k: int) -> bool {
    0 <= k < 32 && (w >> (k as u32)) & 1 == 1
}

/// The bits of a message in the order a CRC reads them: the bytes in order,
/// and the low bit of each first.
pub open spec fn message_bits(s: Seq<u8>) -> Seq<bool> {
    Seq::new(8 * s.len(), |i: int| bit(s[i / 8] as u32, i % 8))
}

/// The exponents of the CRC-32 generator polynomial.
pub open spec fn generator(k: int) -> bool {
    k == 32 || k == 26 || k == 23 || k == 22 || k == 16 || k == 12 || k == 11 || k == 10 || k == 8
        || k == 7 || k == 5 || k == 4 || k == 2 || k == 1 || k == 0
}

/// The coefficient of `x^k` in the product of a polynomial with the
/// generator. The polynomial is given by its coefficients, the highest
/// first.
pub open spec fn times_generator(q: Seq<bool>, k: int) -> bool
    decreases q.len(),
{
    if q.len() == 0 {
        false
    } else {
        times_generator(q.drop_last(), k - 1) != (q.last() && generator(k))
    }
}

/// The coefficient of `x^k` in what a CRC divides: the message bits, the
/// first as the highest coefficient, times `x^32`, with the 32 highest
/// coefficients inverted.
pub open spec fn dividend(m: Seq<bool>, k: int) -> bool {
    let i = m.len() + 31 - k;
    (0 <= i < m.len() && m[i]) != (0 <= i < 32)
}

/// A word is the remainder of the division, inverted, with the highest
/// coefficient as its low bit.
pub open spec fn is_remainder(m: Seq<bool>, q: Seq<bool>, w: u32) -> bool {
    &&& q.len() == m.len()
    &&& forall|k: int|
        0 <= k < m.len() + 32 ==> #[trigger] dividend(m, k) == (times_generator(q, k) != (k < 32
            && !bit(w, 31 - k)))
}

/// A word is the inverted remainder of a byte string's bits.
pub open spec fn has_remainder(s: Seq<u8>, w: u32) -> bool {
    let m = message_bits(s);
    exists|q: Seq<bool>| is_remainder(m, q, w)
}

/// The shift register, read one bit at a time.
spec fn bit_register(m: Seq<bool>) -> u32
    decreases m.len(),
{
    if m.len() == 0 {
        0xFFFF_FFFF
    } else {
        png::crc_step(
            bit_register(m.drop_last()) ^ if m.last() {
                1u32
            } else {
                0u32
            },
        )
    }
}

/// A step of the register, bit by bit: every bit moves one down, and the bit
/// that falls out decides whether the generator is taken off.
proof fn lemma_step_bits(c: u32, b: u32, k: u32)
    requires
        b <= 1,
        k < 32,
    ensures
        ({
            let t = bit(c, 0) != (b == 1);
            bit(png::crc_step(c ^ b), k as int) == (bit(c, k + 1) != (t && generator(31 - k)))
        }),
{
    let d = c ^ b;
    let t = bit(c, 0) != (b == 1);
    let shifted = d >> 1u32;
    let j = (k + 1) as u32;
    assert(d % 2 == 1 <==> ((c >> 0u32) & 1 == 1) != (b == 1)) by (bit_vector)
        requires
            b <= 1,
            d == c ^ b,
    ;
    assert({
        &&& ((shifted ^ 0xEDB8_8320u32) >> k) & 1 == 1 <==> (((shifted >> k) & 1 == 1) != (k == 5
            || k == 8 || k == 9 || k == 15 || k == 19 || k == 20 || k == 21 || k == 23 || k == 24
            || k == 26 || k == 27 || k == 29 || k == 30 || k == 31))
        &&& (shifted >> k) & 1 == 1 <==> (k < 31 && (c >> j) & 1 == 1)
    }) by (bit_vector)
        requires
            b <= 1,
            k < 32,
            j == k + 1,
            d == c ^ b,
            shifted == d >> 1u32,
    ;
}

/// Nothing lies below the constant coefficient of a product.
proof fn lemma_times_generator_below(q: Seq<bool>, k: int)
    requires
        k < 0,
    ensures
        !times_generator(q, k),
    decreases q.len(),
{
    if q.len() > 0 {
        lemma_times_generator_below(q.drop_last(), k - 1);
    }
}

/// The register holds the remainder of what it has read.
spec fn holds_remainder(m: Seq<bool>, q: Seq<bool>, r: u32) -> bool {
    &&& q.len() == m.len()
    &&& forall|k: int|
        0 <= k < m.len() + 32 ==> #[trigger] dividend(m, k) == (times_generator(q, k) != (k < 32
            && bit(r, 31 - k)))
}

/// The long division that the register performs.
proof fn lemma_register_divides(m: Seq<bool>) -> (q: Seq<bool>)
    ensures
        holds_remainder(m, q, bit_register(m)),
    decreases m.len(),
{
    if m.len() == 0 {
        let q = Seq::<bool>::empty();
        assert forall|k: int| 0 <= k < m.len() + 32 implies #[trigger] dividend(m, k) == (
        times_generator(q, k) != (k < 32 && bit(bit_register(m), 31 - k))) by {
            let j = (31 - k) as u32;
            assert((0xFFFF_FFFFu32 >> j) & 1 == 1) by (bit_vector)
                requires
                    j < 32,
            ;
        }
        q
    } else {
        let (before, b) = (m.drop_last(), m.last());
        let q0 = lemma_register_divides(before);
        let r0 = bit_register(before);
        let t = bit(r0, 0) != b;
        let q = q0.push(t);
        let r = bit_register(m);
        assert(q.drop_last() =~= q0);
        let word = if b {
            1u32
        } else {
            0u32
        };
        assert forall|k: int| 0 <= k < m.len() + 32 implies #[trigger] dividend(m, k) == (
        times_generator(q, k) != (k < 32 && bit(r, 31 - k))) by {
            if k < 32 {
                lemma_step_bits(r0, word, (31 - k) as u32);
            }
            if k == 0 {
                lemma_times_generator_below(q0, -1);
            } else {
                assert(dividend(before, k - 1) == (times_generator(q0, k - 1) != (k - 1 < 32
                    && bit(r0, 32 - k))));
            }
        }
        q
    }
}

/// A byte that is fed to the register at once is fed to it bit by bit.
proof fn lemma_byte_by_bits(s: Seq<u8>, j: nat)
    requires
        s.len() > 0,
        j <= 8,
        bit_register(message_bits(s.drop_last())) == png::crc_register(s.drop_last()),
    ensures
        png::crc_steps(png::crc_register(s.drop_last()) ^ (s.last() as u32), j) == bit_register(
            message_bits(s).take(8 * (s.len() - 1) + j),
        ) ^ (s.last() as u32 >> (j as u32)),
    decreases j,
{
    let n = 8 * (s.len() - 1);
    let y = s.last() as u32;
    let all = message_bits(s);
    if j == 0 {
        assert(all.take(n) =~= message_bits(s.drop_last()));
        assert(y >> 0u32 == y) by (bit_vector);
    } else {
        let i = (j - 1) as nat;
        lemma_byte_by_bits(s, i);
        let (c, h) = (bit_register(all.take(n + i)), i as u32);
        assert(all.take(n + j).drop_last() =~= all.take(n + i));
        assert(all.take(n + j).last() == bit(y, i as int));
        let g = j as u32;
        let low = (y >> h) & 1;
        let (d, e) = (c ^ (y >> h), c ^ low);
        assert((low == 0 || low == 1) && d % 2 == e % 2 && d >> 1u32 == (e >> 1u32) ^ (y >> g) && (
        (e >> 1u32) ^ (y >> g)) ^ 0xEDB8_8320u32 == ((e >> 1u32) ^ 0xEDB8_8320u32) ^ (y >> g))
            by (bit_vector)
            requires
                h < 8,
                g == h + 1,
                low == (y >> h) & 1,
                d == c ^ (y >> h),
                e == c ^ low,
        ;
    }
}

/// The register after a byte string is the register after its bits.
proof fn lemma_register_reads_bits(s: Seq<u8>)
    ensures
        bit_register(message_bits(s)) == png::crc_register(s),
    decreases s.len(),
{
    if s.len() == 0 {
        assert(message_bits(s) =~= Seq::empty());
    } else {
        lemma_register_reads_bits(s.drop_last());
        lemma_byte_by_bits(s, 8);
        assert(message_bits(s).take(8 * (s.len() - 1) + 8) =~= message_bits(s));
        let (c, y) = (bit_register(message_bits(s)), s.last() as u32);
        assert(c ^ (y >> 8u32) == c) by (bit_vector)
            requires
                y < 256,
        ;
    }
}

/// The CRC-32 of a byte string of any length is the remainder of its bits,
/// divided as a polynomial by the generator, inverted.
pub proof fn lemma_crc_is_remainder(s: Seq<u8>)
    ensures
        has_remainder(s, png::crc(s)),
{
    let m = message_bits(s);
    let q = lemma_register_divides(m);
    lemma_register_reads_bits(s);
    let r = png::crc_register(s);
    let w = png::crc(s);
    assert forall|k: int| 0 <= k < m.len() + 32 implies #[trigger] dividend(m, k) == (
    times_generator(q, k) != (k < 32 && !bit(w, 31 - k))) by {
        if k < 32 {
            let j = (31 - k) as u32;
            assert((r >> j) & 1 == 1 <==> !((w >> j) & 1 == 1)) by (bit_vector)
                requires
                    w == !r,
                    j < 32,
            ;
        }
    }
    assert(is_remainder(m, q, w));
}

/// A step of the register can be undone.
proof fn lemma_step_injective(c: u32, d: u32)
    requires
        png::crc_step(c) == png::crc_step(d),
    ensures
        c == d,
{
    assert(c == d) by (bit_vector)
        requires
            (if c % 2 == 1 { (c >> 1u32) ^ 0xEDB8_8320u32 } else { c >> 1u32 }) == (if d % 2 == 1 {
                (d >> 1u32) ^ 0xEDB8_8320u32
            } else {
                d >> 1u32
            }),
    ;
}

proof fn lemma_steps_injective(c: u32, d: u32, n: nat)
    requires
        png::crc_steps(c, n) == png::crc_steps(d, n),
    ensures
        c == d,
    decreases n,
{
    if n > 0 {
        let m = (n - 1) as nat;
        lemma_step_injective(png::crc_steps(c, m), png::crc_steps(d, m));
        lemma_steps_injective(c, d, m);
    }
}

/// Strings of one length that differ in one byte leave different registers.
proof fn lemma_register_sees(s: Seq<u8>, i: int, b: u8)
    requires
        0 <= i < s.len(),
        s[i] != b,
    ensures
        png::crc_register(s.update(i, b)) != png::crc_register(s),
    decreases s.len(),
{
    let t = s.update(i, b);
    let (u, v) = (png::crc_register(s.drop_last()), png::crc_register(t.drop_last()));
    let (x, y) = (s.last() as u32, t.last() as u32);
    if png::crc_register(t) == png::crc_register(s) {
        lemma_steps_injective(u ^ x, v ^ y, 8);
        if i == s.len() - 1 {
            assert(s.drop_last() =~= t.drop_last());
        } else {
            lemma_register_sees(s.drop_last(), i, b);
            assert(t.drop_last() =~= s.drop_last().update(i, b));
        }
        assert((u == v) == (x == y)) by (bit_vector)
            requires
                u ^ x == v ^ y,
        ;
    }
}

/// No single byte of a string, wherever it stands, can change without the
/// CRC-32 changing.
pub proof fn lemma_crc_sees_every_byte(s: Seq<u8>, i: int, b: u8)
    requires
        0 <= i < s.len(),
        s[i] != b,
    ensures
        png::crc(s.update(i, b)) != png::crc(s),
{
    lemma_register_sees(s, i, b);
    let (u, v) = (png::crc_register(s), png::crc_register(s.update(i, b)));
    assert(!u == !v ==> u == v) by (bit_vector);
}

/// The running sum of an Adler-32.
pub open spec fn low_sum(n: int) -> int {
    n % 0x1_0000
}

/// The sum of the running sums of an Adler-32.
pub open spec fn high_sum(n: int) -> int {
    n / 0x1_0000
}

/// An Adler-32 holds two sums modulo the prime 65521. Each byte is added to
/// the first, which starts at one, and the first is then added to the
/// second, which starts at zero.
pub proof fn lemma_adler_runs(s: Seq<u8>, b: u8)
    ensures
        png::adler(Seq::empty()) == 1,
        low_sum(png::adler(s.push(b))) == (low_sum(png::adler(s)) + b) % 65521,
        high_sum(png::adler(s.push(b))) == (high_sum(png::adler(s)) + low_sum(
            png::adler(s.push(b)),
        )) % 65521,
        0 <= low_sum(png::adler(s)) < 65521,
        0 <= high_sum(png::adler(s)) < 65521,
{
    let t = s.push(b);
    assert(t.drop_last() =~= s);
    lemma_sums_apart(png::prefix_sum(s) as int, png::byte_sum(s) as int);
    lemma_sums_apart(png::prefix_sum(t) as int, png::byte_sum(t) as int);
    lemma_sums_apart(0, 0);
    lemma_sums_step(png::prefix_sum(s) as int, png::byte_sum(s) as int, b as int);
}

/// The two sums can be told apart.
proof fn lemma_sums_apart(prefixes: int, bytes: int)
    ensures
        ({
            let n = (prefixes % 65521) * 0x1_0000 + (1 + bytes) % 65521;
            low_sum(n) == (1 + bytes) % 65521 && high_sum(n) == prefixes % 65521
        }),
{
}

/// What one byte adds to the sums.
proof fn lemma_sums_step(prefixes: int, bytes: int, b: int)
    ensures
        (1 + bytes + b) % 65521 == ((1 + bytes) % 65521 + b) % 65521,
        (prefixes + 1 + bytes + b) % 65521 == (prefixes % 65521 + (1 + bytes + b) % 65521) % 65521,
{
}

/// No single byte of a string can change without the Adler-32 changing.
#[verifier::rlimit(40)]
pub proof fn lemma_adler_sees_every_byte(s: Seq<u8>, i: int, b: u8)
    requires
        0 <= i < s.len(),
        s[i] != b,
    ensures
        png::adler(s.update(i, b)) != png::adler(s),
{
    lemma_byte_sum_update(s, i, b);
    let (m, n) = (png::byte_sum(s) as int, png::byte_sum(s.update(i, b)) as int);
    if png::adler(s.update(i, b)) == png::adler(s) {
        lemma_adler_runs(s, 0);
        lemma_adler_runs(s.update(i, b), 0);
        assert((1 + m) % 65521 == (1 + n) % 65521);
    }
}

proof fn lemma_byte_sum_update(s: Seq<u8>, i: int, b: u8)
    requires
        0 <= i < s.len(),
    ensures
        png::byte_sum(s.update(i, b)) == png::byte_sum(s) - s[i] + b,
    decreases s.len(),
{
    let t = s.update(i, b);
    if i == s.len() - 1 {
        assert(t.drop_last() =~= s.drop_last());
    } else {
        lemma_byte_sum_update(s.drop_last(), i, b);
        assert(t.drop_last() =~= s.drop_last().update(i, b));
    }
}

} // verus!
