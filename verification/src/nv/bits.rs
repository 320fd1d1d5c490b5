//! Little-endian words and bit fields inside byte buffers.
use vstd::arithmetic::power2::{lemma_pow2_adds, lemma_pow2_pos, lemma2_to64, pow2};
use vstd::bits::{lemma_u64_pow2_no_overflow, lemma_u64_shl_is_mul};
use vstd::prelude::*;

verus! {

/// All-ones mask of the low `bit_size` bits (every bit when `bit_size >= 64`).
pub open spec fn spec_bit_mask(bit_size: u32) -> u64 {
    if bit_size >= 64 {
        u64::MAX
    } else {
        ((1u64 << bit_size) - 1) as u64
    }
}

/// Number of bytes that hold `bits` bits.
pub open spec fn bytes_for_bits(bits: int) -> int {
    (bits + 7) / 8
}

/// Value of a byte sequence read as a little-endian number.
pub open spec fn le_value(s: Seq<u8>) -> nat
    decreases s.len(),
{
    if s.len() == 0 {
        0
    } else {
        le_value(s.drop_last()) + (s.last() as nat) * pow2((8 * (s.len() - 1)) as nat)
    }
}

/// Byte `i` (counting from the least significant) of `word`.
pub open spec fn word_byte(word: u64, i: int) -> u8 {
    ((word >> ((8 * i) as u64)) & 0xff) as u8
}

/// The `n` least significant bytes of `word`, least significant first.
pub open spec fn le_bytes(word: u64, n: int) -> Seq<u8> {
    Seq::new(n as nat, |i: int| word_byte(word, i))
}

/// The `n` least significant bytes of `word`, as a number.
pub open spec fn low_bytes(word: u64, n: int) -> u64 {
    if n >= 8 {
        word
    } else {
        word & (((1u64 << ((8 * n) as u64)) - 1) as u64)
    }
}

/// `word` with its bit field of `bit_size` bits at `bit_offset` replaced by the low bits of `value`;
/// every other bit of `word` is kept.
pub open spec fn with_field(word: u64, bit_offset: u32, bit_size: u32, value: u64) -> u64 {
    let m = spec_bit_mask(bit_size) << bit_offset;
    (word & !m) | ((value << bit_offset) & m)
}

/// `s` with `bytes` written over it from position `start` on.
pub open spec fn splice(s: Seq<u8>, start: int, bytes: Seq<u8>) -> Seq<u8> {
    s.take(start) + bytes + s.skip(start + bytes.len())
}

pub fn bit_mask(bit_size: u32) -> (r: u64)
    ensures
        r == spec_bit_mask(bit_size),
{
    if bit_size >= 64 {
        u64::MAX
    } else {
        assert(1u64 << bit_size >= 1) by (bit_vector)
            requires
                bit_size < 64,
        ;
        (1u64 << bit_size) - 1
    }
}

proof fn lemma_shl_one_is_pow2(s: u64)
    requires
        s < 64,
    ensures
        (1u64 << s) == pow2(s as nat),
{
    lemma_u64_pow2_no_overflow(s as nat);
    lemma_u64_shl_is_mul(1u64, s);
}

proof fn lemma_or_byte_is_add(raw: u64, b: u64, s: u64)
    requires
        s <= 56,
        b < 256,
        raw < (1u64 << s),
    ensures
        raw | (b << s) == raw + (b << s),
        raw | (b << s) < (if s == 56 { u64::MAX as int + 1 } else { (1u64 << ((s + 8) as u64)) as int }),
{
    assert(raw | (b << s) == raw + (b << s)) by (bit_vector)
        requires
            s <= 56,
            b < 256,
            raw < (1u64 << s),
    ;
    if s < 56 {
        assert(raw | (b << s) < (1u64 << ((s + 8) as u64))) by (bit_vector)
            requires
                s < 56,
                b < 256,
                raw < (1u64 << s),
        ;
    }
}

/// Reading one more byte extends the little-endian value by that byte's weight.
proof fn lemma_le_value_push(s: Seq<u8>, k: int)
    requires
        0 <= k < s.len(),
    ensures
        le_value(s.take(k + 1)) == le_value(s.take(k)) + (s[k] as nat) * pow2((8 * k) as nat),
{
    assert(s.take(k + 1).drop_last() =~= s.take(k));
}

/// Reads `n <= 8` bytes from `buf` at `start` as a little-endian word.
pub fn read_le_word(buf: &[u8], start: usize, n: usize) -> (r: u64)
    requires
        n <= 8,
        start + n <= buf@.len(),
    ensures
        r as nat == le_value(buf@.subrange(start as int, start + n)),
{
    let _len = buf.len();
    let ghost s = buf@.subrange(start as int, start + n);
    let mut raw: u64 = 0;
    let mut i: usize = 0;
    proof {
        assert(s.take(0) =~= Seq::<u8>::empty());
        assert(0u64 < (1u64 << 0u64)) by (bit_vector);
    }
    while i < n
        invariant
            n <= 8,
            start + n <= buf@.len(),
            buf@.len() <= usize::MAX,
            s == buf@.subrange(start as int, start + n),
            i <= n,
            raw as nat == le_value(s.take(i as int)),
            i < 8 ==> raw < (1u64 << ((8 * i) as u64)),
        decreases n - i,
    {
        let b = buf[start + i] as u64;
        let sh: u64 = (8 * i) as u64;
        proof {
            lemma_or_byte_is_add(raw, b, sh);
            lemma_u64_pow2_no_overflow(sh as nat);
            assert(b * pow2(sh as nat) <= 255 * pow2(sh as nat)) by (nonlinear_arith)
                requires
                    b < 256,
            ;
            assert(pow2(sh as nat) <= pow2(56)) by {
                if sh < 56 {
                    vstd::arithmetic::power2::lemma_pow2_strictly_increases(sh as nat, 56);
                }
            }
            lemma2_to64();
            vstd::arithmetic::power2::lemma2_to64_rest();
            assert(255 * pow2(56) <= u64::MAX);
            lemma_u64_shl_is_mul(b, sh);
            lemma_le_value_push(s, i as int);
            if i + 1 < 8 {
                lemma_shl_one_is_pow2(sh);
                lemma_shl_one_is_pow2((sh + 8) as u64);
                lemma_pow2_adds(sh as nat, 8);
            }
            assert(s[i as int] == buf@[start + i]);
        }
        raw = raw | (b << sh);
        i += 1;
    }
    proof {
        assert(s.take(n as int) =~= s);
    }
    raw
}

/// The little-endian value of the low bytes of a word is those low bytes.
pub proof fn lemma_le_value_of_le_bytes(word: u64, n: int)
    requires
        0 <= n <= 8,
    ensures
        le_value(le_bytes(word, n)) == low_bytes(word, n) as nat,
    decreases n,
{
    if n == 0 {
        assert(le_bytes(word, 0) =~= Seq::<u8>::empty());
        assert(low_bytes(word, 0) == 0) by (bit_vector);
    } else {
        lemma_le_value_of_le_bytes(word, n - 1);
        assert(le_bytes(word, n).drop_last() =~= le_bytes(word, n - 1));
        let s: u64 = (8 * (n - 1)) as u64;
        let byte = word_byte(word, n - 1);
        assert(byte == ((word >> s) & 0xff) as u8);
        let b64: u64 = (word >> s) & 0xff;
        assert(b64 < 256) by (bit_vector)
            requires
                b64 == (word >> s) & 0xff,
        ;
        assert(byte as u64 == b64) by (bit_vector)
            requires
                b64 == (word >> s) & 0xff,
                byte == ((word >> s) & 0xff) as u8,
        ;
        let lo: u64 = low_bytes(word, n - 1);
        assert(lo == word & (((1u64 << s) - 1) as u64));
        assert(lo < (1u64 << s)) by (bit_vector)
            requires
                lo == word & (((1u64 << s) - 1) as u64),
                s <= 56,
        ;
        lemma_or_byte_is_add(lo, b64, s);
        if n == 8 {
            assert(s == 56);
            assert(word == lo | (b64 << s)) by (bit_vector)
                requires
                    s == 56,
                    lo == word & (((1u64 << s) - 1) as u64),
                    b64 == (word >> s) & 0xff,
            ;
        } else {
            assert(low_bytes(word, n) == word & (((1u64 << ((s + 8) as u64)) - 1) as u64));
            assert(word & (((1u64 << ((s + 8) as u64)) - 1) as u64) == lo | (b64 << s)) by (bit_vector)
                requires
                    s < 56,
                    lo == word & (((1u64 << s) - 1) as u64),
                    b64 == (word >> s) & 0xff,
            ;
        }
        lemma_u64_pow2_no_overflow(s as nat);
        assert(b64 * pow2(s as nat) <= 255 * pow2(s as nat)) by (nonlinear_arith)
            requires
                b64 < 256,
        ;
        assert(pow2(s as nat) <= pow2(56)) by {
            if s < 56 {
                vstd::arithmetic::power2::lemma_pow2_strictly_increases(s as nat, 56);
            }
        }
        vstd::arithmetic::power2::lemma2_to64_rest();
        lemma2_to64();
        lemma_u64_shl_is_mul(b64, s);
    }
}

/// Writes the `n <= 8` low bytes of `word` into `buf` at `start`, least significant first.
pub fn write_le_word(buf: &mut [u8], start: usize, n: usize, word: u64)
    requires
        n <= 8,
        start + n <= old(buf)@.len(),
    ensures
        final(buf)@ == splice(old(buf)@, start as int, le_bytes(word, n as int)),
        final(buf)@.len() == old(buf)@.len(),
{
    let _len = buf.len();
    let mut i: usize = 0;
    while i < n
        invariant
            n <= 8,
            start + n <= buf@.len(),
            buf@.len() <= usize::MAX,
            buf@.len() == old(buf)@.len(),
            i <= n,
            forall|j: int| 0 <= j < i ==> #[trigger] buf@[start + j] == word_byte(word, j),
            forall|j: int|
                0 <= j < buf@.len() && !(start <= j < start + i) ==> #[trigger] buf@[j] == old(buf)@[j],
        decreases n - i,
    {
        let sh: u64 = (8 * i) as u64;
        buf[start + i] = ((word >> sh) & 0xff) as u8;
        i += 1;
    }
    let ghost sp = splice(old(buf)@, start as int, le_bytes(word, n as int));
    assert(sp.len() == buf@.len());
    assert forall|j: int| 0 <= j < buf@.len() implies #[trigger] buf@[j] == sp[j] by {
        if start <= j < start + n {
            assert(buf@[start + (j - start)] == word_byte(word, j - start));
        }
    }
    assert(buf@ =~= sp);
}

} // verus!
