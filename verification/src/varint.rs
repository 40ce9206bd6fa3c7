//! Unsigned little-endian base-128 varint codec for lengths and counts.
//!
//! Seven data bits per byte, least-significant group first, high bit set on
//! every byte but the last. Only the canonical (shortest) encoding of a value
//! is accepted on decode, so a `u32` varint is between one and five bytes.

use vstd::prelude::*;
use bytes::Bytes;
use crate::bytesio::bytes_at;
use crate::bytesio::bytes_len;
use crate::bytesio::bytes_seq;
use crate::error::ImprintError;

verus! {

/// The canonical varint encoding of `n`.
pub open spec fn varint_enc(n: nat) -> Seq<u8>
    decreases n,
{
    if n < 0x80 {
        seq![n as u8]
    } else {
        seq![(n % 0x80 + 0x80) as u8] + varint_enc(n / 0x80)
    }
}

/// The value and byte count a canonical `u32` varint read takes from the
/// front of `s`, or `None` where none starts there.
pub open spec fn varint_dec(s: Seq<u8>) -> Option<(u32, int)>
    decreases s.len(),
{
    if s.len() == 0 {
        None
    } else if s[0] < 0x80 {
        Some((s[0] as u32, 1))
    } else {
        match varint_dec(s.subrange(1, s.len() as int)) {
            Some(hi_n) => {
                let hi = hi_n.0;
                let n = hi_n.1;
                if hi == 0 {
                    // a canonical encoding never continues into zero
                    None
                } else if hi > (0xffff_ffffu32 - (s[0] - 0x80)) / 0x80 {
                    // the value would not fit in u32
                    None
                } else {
                    Some((((s[0] - 0x80) + 0x80 * hi) as u32, n + 1))
                }
            },
            None => None,
        }
    }
}

/// The encoding is never empty; it is one byte exactly for small values, and
/// at most five bytes for any `u32`.
pub proof fn lemma_varint_enc_len(n: nat)
    ensures
        1 <= varint_enc(n).len(),
        n < 0x80 ==> varint_enc(n).len() == 1,
        n <= 0xffff_ffff ==> varint_enc(n).len() <= 5,
    decreases n,
{
    if n >= 0x80 {
        lemma_varint_enc_len(n / 0x80);
        if n <= 0xffff_ffff {
            assert(varint_enc(n / 0x80).len() <= 4) by {
                lemma_varint_enc_small_len(n / 0x80);
            }
        }
    }
}

/// Encodings of values under `2^28` take at most four bytes.
proof fn lemma_varint_enc_small_len(n: nat)
    ensures
        n < 0x80 ==> varint_enc(n).len() == 1,
        n < 0x4000 ==> varint_enc(n).len() <= 2,
        n < 0x20_0000 ==> varint_enc(n).len() <= 3,
        n < 0x1000_0000 ==> varint_enc(n).len() <= 4,
        n <= 0x1_ffff_ffff ==> varint_enc(n).len() <= 5,
    decreases n,
{
    if n >= 0x80 {
        lemma_varint_enc_small_len(n / 0x80);
    }
}

/// Decoding inverts encoding: a buffer that starts with the canonical
/// encoding of `n` decodes to exactly `n`, consuming exactly the encoding.
pub proof fn lemma_varint_round(n: nat, rest: Seq<u8>)
    requires
        n <= 0xffff_ffff,
    ensures
        varint_dec(varint_enc(n) + rest) == Some((n as u32, varint_enc(n).len() as int)),
    decreases n,
{
    let s = varint_enc(n) + rest;
    if n < 0x80 {
        assert(s[0] == n as u8);
    } else {
        let hi = n / 0x80;
        let lo = n % 0x80;
        assert(s[0] == (lo + 0x80) as u8);
        assert(s.subrange(1, s.len() as int) =~= varint_enc(hi) + rest);
        lemma_varint_round(hi, rest);
        assert(varint_dec(s.subrange(1, s.len() as int)) == Some(
            (hi as u32, varint_enc(hi).len() as int),
        ));
        assert(n == 0x80 * hi + lo) by (nonlinear_arith)
            requires
                hi == n / 0x80 && lo == n % 0x80,
        ;
        assert(hi >= 1);
        assert(hi <= (0xffff_ffff - lo) / 0x80) by (nonlinear_arith)
            requires
                0x80 * hi + lo <= 0xffff_ffff && 0 <= lo < 0x80 && 0 <= hi,
        ;
        assert((s[0] - 0x80) + 0x80 * (hi as u32) == n);
    }
}

/// Decoding is sound: whatever it accepts is the canonical encoding of the
/// value it returns, sitting at the front of the buffer.
pub proof fn lemma_varint_dec_sound(s: Seq<u8>)
    ensures
        match varint_dec(s) {
            Some(vn) => {
                &&& 1 <= vn.1 <= s.len()
                &&& varint_enc(vn.0 as nat) =~= s.subrange(0, vn.1)
            },
            None => true,
        },
    decreases s.len(),
{
    if s.len() > 0 && s[0] >= 0x80 {
        let tail = s.subrange(1, s.len() as int);
        lemma_varint_dec_sound(tail);
        match varint_dec(tail) {
            Some(hi_n) => {
                let hi = hi_n.0;
                let n = hi_n.1;
                if hi > 0 && hi <= (0xffff_ffffu32 - (s[0] - 0x80)) / 0x80 {
                    let v: nat = ((s[0] - 0x80) + 0x80 * hi) as nat;
                    assert(v >= 0x80);
                    assert(v % 0x80 == (s[0] - 0x80) as nat && v / 0x80 == hi as nat)
                        by (nonlinear_arith)
                        requires
                            v == (s[0] - 0x80) + 0x80 * hi && 0 <= s[0] - 0x80 < 0x80 && hi > 0,
                    ;
                    assert(varint_enc(v) =~= seq![s[0]] + varint_enc(hi as nat));
                    assert(tail.subrange(0, n) =~= s.subrange(1, n + 1));
                    assert(varint_enc(v) =~= s.subrange(0, n + 1));
                }
            },
            None => {},
        }
    }
}

/// Append the canonical encoding of `n` to `out`.
pub fn varint_write(out: &mut Vec<u8>, n: u32)
    ensures
        final(out)@ == old(out)@ + varint_enc(n as nat),
    decreases n,
{
    if n < 0x80 {
        out.push(n as u8);
        assert(final(out)@ =~= old(out)@ + varint_enc(n as nat));
    } else {
        let b: u8 = (n % 0x80 + 0x80) as u8;
        out.push(b);
        varint_write(out, n / 0x80);
        assert(final(out)@ =~= old(out)@ + varint_enc(n as nat));
    }
}

/// Read a canonical `u32` varint starting at `pos`. Exhausting the buffer
/// mid-varint is a `BufferUnderflow`; a non-canonical continuation or a
/// value over `u32::MAX` is a `VarintError`.
pub fn varint_read(bytes: &Bytes, pos: usize) -> (r: Result<(u32, usize), ImprintError>)
    requires
        pos <= bytes_seq(*bytes).len(),
    ensures
        match r {
            Ok(vn) => {
                &&& varint_dec(bytes_seq(*bytes).skip(pos as int)) == Some(
                    (vn.0, vn.1 as int),
                )
                &&& 1 <= vn.1
                &&& pos + vn.1 <= bytes_seq(*bytes).len()
            },
            Err(e) => {
                &&& varint_dec(bytes_seq(*bytes).skip(pos as int)) is None
                &&& (e matches ImprintError::VarintError || e matches ImprintError::BufferUnderflow {
                    ..
                })
            },
        },
    decreases bytes_seq(*bytes).len() - pos,
{
    let ghost s = bytes_seq(*bytes).skip(pos as int);
    let len = bytes_len(bytes);
    if pos == len {
        return Err(ImprintError::BufferUnderflow { needed: 1, available: 0 });
    }
    let b = bytes_at(bytes, pos);
    assert(b == s[0]);
    if b < 0x80 {
        Ok((b as u32, 1))
    } else {
        let ghost tail = bytes_seq(*bytes).skip(pos as int + 1);
        assert(tail =~= s.subrange(1, s.len() as int));
        match varint_read(bytes, pos + 1) {
            Err(e) => Err(e),
            Ok((hi, k)) => {
                if hi == 0 {
                    Err(ImprintError::VarintError)
                } else {
                    let lo: u32 = (b - 0x80) as u32;
                    if hi > (0xffff_ffffu32 - lo) / 0x80 {
                        Err(ImprintError::VarintError)
                    } else {
                        assert(0x80 * hi + lo <= 0xffff_ffff) by (nonlinear_arith)
                            requires
                                0 < hi <= (0xffff_ffff - lo) / 0x80 && 0 <= lo < 0x80,
                        ;
                        Ok((lo + 0x80 * hi, k + 1))
                    }
                }
            },
        }
    }
}

} // verus!
