//! Compressible integer storage: a byte-oriented variable-length code.
//!
//! A value is cut into 7-bit groups, least-significant group first; each
//! group is emitted as one byte whose top bit says whether another group
//! follows.

use vstd::prelude::*;

use crate::bits::BitBuf;
use crate::bits::bits_val;
use crate::bits::exp2;
use crate::bits::lemma_bits_val_concat;
use crate::bits::lemma_exp2_adds;
use crate::bits::lemma_exp2_mono;
use crate::bits::lemma_sym_roundtrip;
use crate::bits::push_sym;
use crate::bits::sym_bits;
use crate::errors::CodecError;

verus! {

/// The encoding of `n`: 7-bit groups, least-significant first, each
/// behind a continuation bit.
pub open spec fn leb_bits(n: nat) -> Seq<bool>
    decreases n,
{
    if n > 127 {
        seq![true] + sym_bits(7, n % 128) + leb_bits(n / 128)
    } else {
        seq![false] + sym_bits(7, n)
    }
}

/// One decoding step: reads the group at the front of `s`, `depth`
/// groups in from where decoding began.
///
/// The result value is the exact mathematical value of the remaining
/// groups; a sequence that ends inside a byte is a `Truncated` error,
/// and a fifth continuation byte a `Cast` error, as its group can no
/// longer fit a 32-bit result.
pub open spec fn leb_decode(s: Seq<bool>, depth: nat) -> Result<(nat, nat), CodecError>
    decreases s.len(),
{
    if s.len() < 8 {
        Err(CodecError::Truncated)
    } else if 7 * depth >= 32 {
        Err(CodecError::Cast)
    } else {
        let byte = bits_val(s.subrange(0, 8));
        let chunk = byte % 128;
        if byte >= 128 {
            match leb_decode(s.skip(8), depth + 1) {
                Ok((v, c)) => Ok((chunk + 128 * v, c + 8)),
                Err(e) => Err(e),
            }
        } else {
            Ok((chunk, 8))
        }
    }
}

/// Variable-length integer coder; one shared instance is enough, the
/// code has no parameters.
pub struct LEB128;

impl LEB128 {
    /// Emits the code of `n`: always succeeds for a 32-bit symbol.
    pub fn encode_u32(&self, n: u32) -> (r: Result<BitBuf, CodecError>)
        ensures
            match r {
                Ok(b) => b@ == leb_bits(n as nat),
                Err(_) => false,
            },
    {
        let mut bits = BitBuf::new();
        let mut v: u32 = n;
        proof {
            assert(bits@ + leb_bits(v as nat) =~= leb_bits(n as nat));
        }
        loop
            invariant_except_break
                leb_bits(n as nat) == bits@ + leb_bits(v as nat),
            ensures
                bits@ == leb_bits(n as nat),
            decreases v,
        {
            proof {
                crate::bits::lemma_sym_bits_len(7, (v % 128) as nat);
            }
            if v > 0x7f {
                let ghost pre = bits@;
                bits.push(true);
                push_sym(&mut bits, 7, v % 128);
                proof {
                    assert(bits@ =~= pre + (seq![true] + sym_bits(7, (v % 128) as nat)));
                    assert(pre + (seq![true] + sym_bits(7, (v % 128) as nat)) + leb_bits(
                        (v / 128) as nat,
                    ) =~= pre + leb_bits(v as nat));
                }
                v = v / 128;
            } else {
                let ghost pre = bits@;
                bits.push(false);
                push_sym(&mut bits, 7, v);
                proof {
                    assert(bits@ =~= pre + (seq![false] + sym_bits(7, v as nat)));
                    assert(pre + (seq![false] + sym_bits(7, v as nat)) =~= pre + leb_bits(
                        v as nat,
                    ));
                }
                break ;
            }
        }
        Ok(bits)
    }

    /// Emits the code of an 8-bit symbol.
    pub fn encode_u8(&self, n: u8) -> (r: Result<BitBuf, CodecError>)
        ensures
            match r {
                Ok(b) => b@ == leb_bits(n as nat),
                Err(_) => false,
            },
    {
        self.encode_u32(n as u32)
    }

    /// Emits the code of a 16-bit symbol.
    pub fn encode_u16(&self, n: u16) -> (r: Result<BitBuf, CodecError>)
        ensures
            match r {
                Ok(b) => b@ == leb_bits(n as nat),
                Err(_) => false,
            },
    {
        self.encode_u32(n as u32)
    }

    /// Reads one coded value from the front of `bits`.
    ///
    /// On success the value is the coded groups reduced to 32 bits, and
    /// the consumed length is a whole number of bytes.
    pub fn decode_u32(&self, bits: &BitBuf) -> (r: Result<(u32, usize), CodecError>)
        ensures
            match r {
                Ok((n, c)) => leb_decode(bits@, 0) matches Ok((v, c2)) && c == c2 && n as nat == v
                    % exp2(32),
                Err(e) => leb_decode(bits@, 0) matches Err(e2) && e == e2,
            },
    {
        let n = bits.len();
        let mut res: u64 = 0;
        let mut count: usize = 0;
        proof {
            assert(bits@.skip(0) =~= bits@);
        }
        loop
            invariant
                count <= 5,
                n == bits@.len(),
                8 * count <= n,
                res < exp2((7 * count) as nat),
                leb_decode(bits@, 0) == (match leb_decode(bits@.skip(8 * count as int),
                    count as nat,
                ) {
                    Ok((v, c)) => Ok::<(nat, nat), CodecError>(
                        ((res + exp2((7 * count) as nat) * v) as nat, (8 * count + c) as nat),
                    ),
                    Err(e) => Err::<(nat, nat), CodecError>(e),
                }),
            decreases 5 - count,
        {
            let ghost tail = bits@.skip(8 * count as int);
            match crate::bits::decode_u32(8, bits, 8 * count) {
                Err(_) => {
                    proof {
                        assert(tail.len() < 8);
                    }
                    return Err(CodecError::Truncated);
                },
                Ok((byte, _)) => {
                    if count >= 5 {
                        // a fifth continuation byte was seen: its group
                        // cannot fit a 32-bit result
                        proof {
                            assert(tail.len() >= 8);
                        }
                        return Err(CodecError::Cast);
                    }
                    proof {
                        assert(tail.len() >= 8);
                        assert(tail.subrange(0, 8) =~= bits@.subrange(
                            8 * count as int,
                            8 * count + 8,
                        ));
                        assert(exp2(8) == 256) by {
                            reveal_with_fuel(exp2, 9);
                        }
                        lemma_exp2_adds((7 * count) as nat, 7);
                        assert(exp2(7) == 128) by {
                            reveal_with_fuel(exp2, 8);
                        }
                        lemma_exp2_mono((7 * (count + 1)) as nat, 35);
                        assert(exp2(35) == 0x8_0000_0000) by {
                            reveal_with_fuel(exp2, 36);
                        }
                    }
                    let chunk: u64 = (byte % 128) as u64;
                    let p: u64 = crate::bits::exp2_u64(7 * count) as u64;
                    proof {
                        let e7c = exp2((7 * count) as nat);
                        assert(res + e7c * chunk < e7c * 128) by (nonlinear_arith)
                            requires
                                res < e7c,
                                chunk < 128,
                                e7c >= 1,
                        ;
                    }
                    res = res + p * chunk;
                    if byte >= 128 {
                        count = count + 1;
                        proof {
                            assert(bits@.skip(8 * count as int) =~= tail.skip(8));
                            let e7c = exp2((7 * (count - 1)) as nat);
                            if let Ok((v, c)) = leb_decode(bits@.skip(8 * count as int),
                                count as nat) {
                                assert(e7c * (chunk + 128 * v) == e7c * chunk + (e7c * 128)
                                    * v) by (nonlinear_arith);
                            }
                        }
                    } else {
                        proof {
                            assert(leb_decode(tail, count as nat) == Ok::<
                                (nat, nat),
                                CodecError,
                            >(((byte % 128) as nat, 8nat)));
                        }
                        let trunc: u64 = res % 0x1_0000_0000;
                        proof {
                            crate::bits::lemma_exp2_32();
                        }
                        return Ok((trunc as u32, 8 * count + 8));
                    }
                },
            }
        }
    }

    /// Reads one coded value that must fit an 8-bit symbol; a larger
    /// value is a `Cast` error.
    pub fn decode_u8(&self, bits: &BitBuf) -> (r: Result<(u8, usize), CodecError>)
        ensures
            match r {
                Ok((n, c)) => leb_decode(bits@, 0) matches Ok((v, c2)) && c == c2 && n as nat == v
                    % exp2(32) && v % exp2(32) < 256,
                Err(e) => {
                    ||| (leb_decode(bits@, 0) matches Err(e2) && e == e2)
                    ||| (e == CodecError::Cast && (leb_decode(bits@, 0) matches Ok((v, _)) && v
                        % exp2(32) >= 256))
                },
            },
    {
        match self.decode_u32(bits) {
            Ok((n, c)) => {
                if n > 0xff {
                    Err(CodecError::Cast)
                } else {
                    Ok((n as u8, c))
                }
            },
            Err(e) => Err(e),
        }
    }

    /// Reads one coded value that must fit a 16-bit symbol; a larger
    /// value is a `Cast` error.
    pub fn decode_u16(&self, bits: &BitBuf) -> (r: Result<(u16, usize), CodecError>)
        ensures
            match r {
                Ok((n, c)) => leb_decode(bits@, 0) matches Ok((v, c2)) && c == c2 && n as nat == v
                    % exp2(32) && v % exp2(32) < 65536,
                Err(e) => {
                    ||| (leb_decode(bits@, 0) matches Err(e2) && e == e2)
                    ||| (e == CodecError::Cast && (leb_decode(bits@, 0) matches Ok((v, _)) && v
                        % exp2(32) >= 65536))
                },
            },
    {
        match self.decode_u32(bits) {
            Ok((n, c)) => {
                if n > 0xffff {
                    Err(CodecError::Cast)
                } else {
                    Ok((n as u16, c))
                }
            },
            Err(e) => Err(e),
        }
    }
}


/// Round trip: a sequence that starts with the code of `n` reads back
/// as `n`, consuming exactly the code; `depth` groups were already
/// read, so `n` must fit the bits that remain of the 32-bit result.
pub proof fn lemma_leb_roundtrip(n: nat, rest: Seq<bool>, depth: nat)
    requires
        7 * depth < 32,
        n < exp2((32 - 7 * depth) as nat),
    ensures
        leb_decode(leb_bits(n) + rest, depth) == Ok::<(nat, nat), CodecError>(
            (n, leb_bits(n).len()),
        ),
    decreases n,
{
    let s = leb_bits(n) + rest;
    crate::bits::lemma_sym_bits_len(7, n % 128);
    crate::bits::lemma_sym_bits_len(7, n);
    crate::bits::lemma_exp2_pos((32 - 7 * depth) as nat);
    assert(exp2(7) == 128) by {
        reveal_with_fuel(exp2, 8);
    }
    if n <= 127 {
        assert(leb_bits(n) == seq![false] + sym_bits(7, n));
        assert(s.subrange(0, 8) =~= seq![false] + sym_bits(7, n));
        lemma_bits_val_concat(seq![false], sym_bits(7, n));
        lemma_sym_roundtrip(7, n);
        assert(bits_val(seq![false]) == 0) by {
            assert(seq![false].drop_last() =~= Seq::<bool>::empty());
            assert(bits_val(Seq::<bool>::empty()) == 0);
            assert(seq![false].len() == 1);
            assert(seq![false].last() == false);
        }
        assert(bits_val(s.subrange(0, 8)) == n);
    } else {
        let chunk = n % 128;
        let hi = n / 128;
        assert(leb_bits(n) == seq![true] + sym_bits(7, chunk) + leb_bits(hi));
        assert(s.subrange(0, 8) =~= seq![true] + sym_bits(7, chunk));
        lemma_bits_val_concat(seq![true], sym_bits(7, chunk));
        lemma_sym_roundtrip(7, chunk);
        assert(bits_val(seq![true]) == 1) by {
            assert(seq![true].drop_last() =~= Seq::<bool>::empty());
            assert(bits_val(Seq::<bool>::empty()) == 0);
            assert(seq![true].len() == 1);
            assert(seq![true].last() == true);
        }
        assert(bits_val(s.subrange(0, 8)) == 128 + chunk);
        assert(7 * (depth + 1) < 32) by {
            if (32 - 7 * depth) as nat <= 7 {
                lemma_exp2_mono((32 - 7 * depth) as nat, 7);
            }
        }
        assert(hi < exp2((32 - 7 * (depth + 1)) as nat)) by {
            lemma_exp2_adds((32 - 7 * (depth + 1)) as nat, 7);
            vstd::arithmetic::div_mod::lemma_multiply_divide_lt(
                n as int,
                128,
                exp2((32 - 7 * (depth + 1)) as nat) as int,
            );
            assert(128 * exp2((32 - 7 * (depth + 1)) as nat) == exp2(
                (32 - 7 * (depth + 1)) as nat,
            ) * exp2(7)) by (nonlinear_arith)
                requires
                    exp2(7) == 128,
            ;
        }
        assert(s.skip(8) =~= leb_bits(hi) + rest);
        lemma_leb_roundtrip(hi, rest, depth + 1);
        vstd::arithmetic::div_mod::lemma_fundamental_div_mod(n as int, 128);
        assert(chunk + 128 * hi == n);
    }
}

} // verus!
