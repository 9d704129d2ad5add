//! Bit sequences and the fixed-width symbol codec.
//!
//! A [`BitBuf`] is an ordered sequence of bits: append-only while
//! encoding, randomly addressable by absolute bit offset while decoding.
//! On top of it, the fixed-width codec packs the low `width` bits of an
//! unsigned symbol most-significant-bit first, and unpacks them again.

use vstd::prelude::*;

use crate::errors::CodecError;

verus! {

/// 2 to the power `e`, as a mathematical natural.
pub open spec fn exp2(e: nat) -> nat
    decreases e,
{
    if e == 0 {
        1
    } else {
        2 * exp2((e - 1) as nat)
    }
}

/// The low `width` bits of `n`, most-significant bit first.
pub open spec fn sym_bits(width: nat, n: nat) -> Seq<bool>
    decreases width,
{
    if width == 0 {
        Seq::empty()
    } else {
        sym_bits((width - 1) as nat, n / 2).push(n % 2 == 1)
    }
}

/// The value of a most-significant-bit-first bit pattern.
pub open spec fn bits_val(s: Seq<bool>) -> nat
    decreases s.len(),
{
    if s.len() == 0 {
        0
    } else {
        2 * bits_val(s.drop_last()) + (if s.last() {
            1nat
        } else {
            0nat
        })
    }
}

pub proof fn lemma_exp2_pos(e: nat)
    ensures
        exp2(e) >= 1,
    decreases e,
{
    if e > 0 {
        lemma_exp2_pos((e - 1) as nat);
    }
}

pub proof fn lemma_exp2_mono(e1: nat, e2: nat)
    requires
        e1 <= e2,
    ensures
        exp2(e1) <= exp2(e2),
    decreases e2,
{
    if e1 < e2 {
        lemma_exp2_mono(e1, (e2 - 1) as nat);
        lemma_exp2_pos(e1);
    }
}

pub proof fn lemma_sym_bits_len(width: nat, n: nat)
    ensures
        sym_bits(width, n).len() == width,
    decreases width,
{
    if width > 0 {
        lemma_sym_bits_len((width - 1) as nat, n / 2);
    }
}

/// Reading back the bits of a symbol yields the symbol, reduced to the
/// field width: `bits_val(sym_bits(width, n)) == n % exp2(width)`.
pub proof fn lemma_sym_bits_val(width: nat, n: nat)
    ensures
        bits_val(sym_bits(width, n)) == n % exp2(width),
    decreases width,
{
    if width == 0 {
        assert(n % 1 == 0);
    } else {
        let w1 = (width - 1) as nat;
        lemma_sym_bits_val(w1, n / 2);
        let s = sym_bits(width, n);
        lemma_sym_bits_len(w1, n / 2);
        assert(s.drop_last() =~= sym_bits(w1, n / 2));
        assert(bits_val(s) == 2 * ((n / 2) % exp2(w1)) + n % 2);
        lemma_exp2_pos(w1);
        let m = exp2(w1);
        vstd::arithmetic::div_mod::lemma_mod_breakdown(n as int, 2, m as int);
    }
}

pub proof fn lemma_exp2_adds(e1: nat, e2: nat)
    ensures
        exp2(e1 + e2) == exp2(e1) * exp2(e2),
    decreases e2,
{
    if e2 == 0 {
        assert(exp2(0) == 1);
        assert(e1 + e2 == e1);
        assert(exp2(e1) * 1 == exp2(e1)) by (nonlinear_arith);
    } else {
        let f = (e2 - 1) as nat;
        lemma_exp2_adds(e1, f);
        assert(e1 + e2 != 0 && ((e1 + e2 - 1) as nat) == e1 + f);
        assert(exp2(e1 + e2) == 2 * exp2(e1 + f));
        assert(exp2(e2) == 2 * exp2(f));
        assert(exp2(e1) * (2 * exp2(f)) == 2 * (exp2(e1) * exp2(f))) by (nonlinear_arith);
    }
}

/// A concatenation reads as the left part shifted past the right part.
pub proof fn lemma_bits_val_concat(s1: Seq<bool>, s2: Seq<bool>)
    ensures
        bits_val(s1 + s2) == bits_val(s1) * exp2(s2.len()) + bits_val(s2),
    decreases s2.len(),
{
    if s2.len() == 0 {
        assert(s1 + s2 =~= s1);
        assert(exp2(0) == 1);
        assert(bits_val(s1) * 1 == bits_val(s1)) by (nonlinear_arith);
    } else {
        lemma_bits_val_concat(s1, s2.drop_last());
        assert((s1 + s2).drop_last() =~= s1 + s2.drop_last());
        assert((s1 + s2).last() == s2.last());
        let e1 = exp2((s2.len() - 1) as nat);
        let b1 = bits_val(s1);
        let bd = bits_val(s2.drop_last());
        let lastn: nat = if s2.last() {
            1
        } else {
            0
        };
        assert(bits_val(s1 + s2) == 2 * (b1 * e1 + bd) + lastn);
        assert(2 * (b1 * e1 + bd) + lastn == b1 * (2 * e1) + (2 * bd + lastn)) by (nonlinear_arith);
        assert(exp2(s2.len()) == 2 * e1);
        assert(b1 * (2 * e1) == b1 * exp2(s2.len()));
        assert(bits_val(s2) == 2 * bd + lastn);
        assert(bits_val(s1 + s2) == b1 * exp2(s2.len()) + bits_val(s2));
    }
}

/// Round trip at the symbol level: a value below `exp2(width)` survives
/// the encode-decode cycle unchanged.
pub proof fn lemma_sym_roundtrip(width: nat, n: nat)
    requires
        n < exp2(width),
    ensures
        bits_val(sym_bits(width, n)) == n,
{
    lemma_sym_bits_val(width, n);
    lemma_exp2_pos(width);
    vstd::arithmetic::div_mod::lemma_small_mod(n, exp2(width));
}

/// An append-only sequence of bits, addressable by absolute offset.
pub struct BitBuf {
    bits: Vec<bool>,
}

impl View for BitBuf {
    type V = Seq<bool>;

    closed spec fn view(&self) -> Seq<bool> {
        self.bits@
    }
}

impl BitBuf {
    pub fn new() -> (r: BitBuf)
        ensures
            r@ == Seq::<bool>::empty(),
    {
        BitBuf { bits: Vec::new() }
    }

    pub fn len(&self) -> (n: usize)
        ensures
            n == self@.len(),
    {
        self.bits.len()
    }

    pub fn push(&mut self, b: bool)
        ensures
            final(self)@ == old(self)@.push(b),
    {
        self.bits.push(b);
    }

    pub fn get(&self, i: usize) -> (b: bool)
        requires
            i < self@.len(),
        ensures
            b == self@[i as int],
    {
        self.bits[i]
    }

    pub fn append(&mut self, other: &BitBuf)
        ensures
            final(self)@ == old(self)@ + other@,
    {
        let n = other.bits.len();
        let mut i: usize = 0;
        while i < n
            invariant
                n == other@.len(),
                i <= n,
                self@ == old(self)@ + other@.subrange(0, i as int),
            decreases n - i,
        {
            self.bits.push(other.bits[i]);
            i = i + 1;
            assert(old(self)@ + other@.subrange(0, i - 1)
                + seq![other@[i - 1]] =~= old(self)@ + other@.subrange(0, i as int));
        }
        assert(old(self)@ + other@.subrange(0, n as int) =~= old(self)@ + other@);
    }

    /// The bits as a plain vector, for callers outside the codec.
    pub fn to_bools(&self) -> (r: Vec<bool>)
        ensures
            r@ == self@,
    {
        let mut r: Vec<bool> = Vec::new();
        let n = self.bits.len();
        let mut i: usize = 0;
        while i < n
            invariant
                n == self@.len(),
                i <= n,
                r@ == self@.subrange(0, i as int),
            decreases n - i,
        {
            r.push(self.bits[i]);
            i = i + 1;
            assert(r@ =~= self@.subrange(0, i as int));
        }
        assert(self@.subrange(0, n as int) =~= self@);
        r
    }

    /// A bit sequence holding exactly the given bits.
    pub fn from_bools(v: Vec<bool>) -> (r: BitBuf)
        ensures
            r@ == v@,
    {
        BitBuf { bits: v }
    }
}

/// 2 to the power `e`, as a machine integer.
pub fn exp2_u64(e: usize) -> (r: u64)
    requires
        e <= 32,
    ensures
        r == exp2(e as nat),
{
    let mut r: u64 = 1;
    let mut i: usize = 0;
    while i < e
        invariant
            i <= e <= 32,
            r == exp2(i as nat),
        decreases e - i,
    {
        proof {
            lemma_exp2_mono((i + 1) as nat, 32);
            lemma_exp2_32();
        }
        r = r * 2;
        i = i + 1;
    }
    r
}

pub proof fn lemma_exp2_32()
    ensures
        exp2(32) == 0x1_0000_0000,
{
    assert(exp2(32) == 0x1_0000_0000) by {
        reveal_with_fuel(exp2, 33);
    }
}

/// Appends the low `width` bits of `n`, most-significant bit first.
pub(crate) fn push_sym(out: &mut BitBuf, width: usize, n: u32)
    requires
        width <= 32,
    ensures
        final(out)@ == old(out)@ + sym_bits(width as nat, n as nat),
    decreases width,
{
    if width == 0 {
        assert(old(out)@ + sym_bits(0, n as nat) =~= old(out)@);
    } else {
        push_sym(out, width - 1, n / 2);
        out.push(n % 2 == 1);
    }
}

/// Emits the low `width` bits of `n`, most-significant bit first, as
/// exactly `width` bits.
///
/// Succeeds exactly when the width fits a 32-bit symbol and `n` fits in
/// `width` bits; a too-large width is a `WidthExceeded` error and a
/// too-large value an `Overflow` error, as the field would silently
/// drop bits otherwise.
pub fn encode_u32(width: usize, n: u32) -> (r: Result<BitBuf, CodecError>)
    ensures
        match r {
            Ok(b) => {
                &&& width <= 32
                &&& (n as nat) < exp2(width as nat)
                &&& b@ == sym_bits(width as nat, n as nat)
            },
            Err(e) => {
                ||| (e == CodecError::WidthExceeded && width > 32)
                ||| (e == CodecError::Overflow && width <= 32 && (n as nat) >= exp2(
                    width as nat,
                ))
            },
        },
{
    if width > 32 {
        return Err(CodecError::WidthExceeded);
    }
    if width < 32 {
        let bound = exp2_u64(width);
        if n as u64 >= bound {
            return Err(CodecError::Overflow);
        }
    } else {
        proof {
            lemma_exp2_32();
        }
    }
    let mut out = BitBuf::new();
    push_sym(&mut out, width, n);
    assert(Seq::<bool>::empty() + sym_bits(width as nat, n as nat) =~= sym_bits(
        width as nat,
        n as nat,
    ));
    Ok(out)
}

/// [`encode_u32`] restricted to 8-bit symbols: widths above 8 are a
/// `WidthExceeded` error.
pub fn encode_u8(width: usize, n: u8) -> (r: Result<BitBuf, CodecError>)
    ensures
        match r {
            Ok(b) => {
                &&& width <= 8
                &&& (n as nat) < exp2(width as nat)
                &&& b@ == sym_bits(width as nat, n as nat)
            },
            Err(e) => {
                ||| (e == CodecError::WidthExceeded && width > 8)
                ||| (e == CodecError::Overflow && width <= 8 && (n as nat) >= exp2(width as nat))
            },
        },
{
    if width > 8 {
        return Err(CodecError::WidthExceeded);
    }
    encode_u32(width, n as u32)
}

/// [`encode_u32`] restricted to 16-bit symbols: widths above 16 are a
/// `WidthExceeded` error.
pub fn encode_u16(width: usize, n: u16) -> (r: Result<BitBuf, CodecError>)
    ensures
        match r {
            Ok(b) => {
                &&& width <= 16
                &&& (n as nat) < exp2(width as nat)
                &&& b@ == sym_bits(width as nat, n as nat)
            },
            Err(e) => {
                ||| (e == CodecError::WidthExceeded && width > 16)
                ||| (e == CodecError::Overflow && width <= 16 && (n as nat) >= exp2(width as nat))
            },
        },
{
    if width > 16 {
        return Err(CodecError::WidthExceeded);
    }
    encode_u32(width, n as u32)
}

/// Reconstructs an integer from `width` bits starting at `off`,
/// most-significant bit first.
///
/// Succeeds exactly when the width fits a 32-bit symbol and at least
/// `width` bits remain; a short sequence is a `Truncated` error.
pub fn decode_u32(width: usize, bits: &BitBuf, off: usize) -> (r: Result<(u32, usize), CodecError>)
    ensures
        match r {
            Ok((n, diff)) => {
                &&& width <= 32
                &&& off + width <= bits@.len()
                &&& diff == width
                &&& n as nat == bits_val(bits@.subrange(off as int, off + width))
                &&& (n as nat) < exp2(width as nat)
            },
            Err(e) => {
                ||| (e == CodecError::WidthExceeded && width > 32)
                ||| (e == CodecError::Truncated && width <= 32 && off + width > bits@.len())
            },
        },
{
    if width > 32 {
        return Err(CodecError::WidthExceeded);
    }
    let n = bits.len();
    if off > n || width > n - off {
        return Err(CodecError::Truncated);
    }
    let mut res: u32 = 0;
    let mut i: usize = 0;
    while i < width
        invariant
            width <= 32,
            off + width <= bits@.len(),
            off + width <= usize::MAX,
            i <= width,
            res as nat == bits_val(bits@.subrange(off as int, off + i)),
            (res as nat) < exp2(i as nat),
        decreases width - i,
    {
        let b = bits.get(off + i);
        proof {
            let s1 = bits@.subrange(off as int, off + i + 1);
            assert(s1.drop_last() =~= bits@.subrange(off as int, off + i));
            assert(s1.last() == bits@[off + i]);
            lemma_exp2_mono((i + 1) as nat, 32);
            lemma_exp2_32();
        }
        res = res * 2 + (if b {
            1
        } else {
            0
        });
        i = i + 1;
    }
    Ok((res, width))
}

/// [`decode_u32`] restricted to 8-bit symbols: widths above 8 are a
/// `WidthExceeded` error.
pub fn decode_u8(width: usize, bits: &BitBuf, off: usize) -> (r: Result<(u8, usize), CodecError>)
    ensures
        match r {
            Ok((n, diff)) => {
                &&& width <= 8
                &&& off + width <= bits@.len()
                &&& diff == width
                &&& n as nat == bits_val(bits@.subrange(off as int, off + width))
            },
            Err(e) => {
                ||| (e == CodecError::WidthExceeded && width > 8)
                ||| (e == CodecError::Truncated && width <= 8 && off + width > bits@.len())
            },
        },
{
    if width > 8 {
        return Err(CodecError::WidthExceeded);
    }
    match decode_u32(width, bits, off) {
        Ok((n, diff)) => {
            proof {
                lemma_exp2_mono(width as nat, 8);
                assert(exp2(8) == 256) by {
                    reveal_with_fuel(exp2, 9);
                }
            }
            Ok((n as u8, diff))
        },
        Err(e) => Err(e),
    }
}

/// [`decode_u32`] restricted to 16-bit symbols: widths above 16 are a
/// `WidthExceeded` error.
pub fn decode_u16(width: usize, bits: &BitBuf, off: usize) -> (r: Result<
    (u16, usize),
    CodecError,
>)
    ensures
        match r {
            Ok((n, diff)) => {
                &&& width <= 16
                &&& off + width <= bits@.len()
                &&& diff == width
                &&& n as nat == bits_val(bits@.subrange(off as int, off + width))
            },
            Err(e) => {
                ||| (e == CodecError::WidthExceeded && width > 16)
                ||| (e == CodecError::Truncated && width <= 16 && off + width > bits@.len())
            },
        },
{
    if width > 16 {
        return Err(CodecError::WidthExceeded);
    }
    match decode_u32(width, bits, off) {
        Ok((n, diff)) => {
            proof {
                lemma_exp2_mono(width as nat, 16);
                assert(exp2(16) == 65536) by {
                    reveal_with_fuel(exp2, 17);
                }
            }
            Ok((n as u16, diff))
        },
        Err(e) => Err(e),
    }
}


/// The stream form of encoding: per-symbol codes, one after the other;
/// the first unrepresentable symbol decides the error.
pub open spec fn sym_stream(width: nat, bytes: Seq<u8>) -> Result<Seq<bool>, CodecError>
    decreases bytes.len(),
{
    if bytes.len() == 0 {
        Ok(Seq::empty())
    } else if width > 8 {
        Err(CodecError::WidthExceeded)
    } else if bytes.first() as nat >= exp2(width) {
        Err(CodecError::Overflow)
    } else {
        match sym_stream(width, bytes.drop_first()) {
            Ok(rest) => Ok(sym_bits(width, bytes.first() as nat) + rest),
            Err(e) => Err(e),
        }
    }
}

/// The stream form of decoding: fixed-width fields until the sequence
/// is exhausted; a trailing partial field is a `Truncated` error.
pub open spec fn sym_stream_decode(width: nat, s: Seq<bool>, off: nat) -> Result<
    Seq<u8>,
    CodecError,
>
    decreases s.len() - off when width >= 1
{
    if off >= s.len() {
        Ok(Seq::empty())
    } else if width > 8 {
        Err(CodecError::WidthExceeded)
    } else if off + width > s.len() {
        Err(CodecError::Truncated)
    } else {
        let v = bits_val(s.subrange(off as int, (off + width) as int));
        match sym_stream_decode(width, s, off + width) {
            Ok(rest) => Ok(seq![v as u8] + rest),
            Err(e) => Err(e),
        }
    }
}

/// Codes every byte of `bytes` at the given width, in order.
pub fn encode_stream(width: usize, bytes: &Vec<u8>) -> (r: Result<BitBuf, CodecError>)
    ensures
        match r {
            Ok(b) => sym_stream(width as nat, bytes@) == Ok::<Seq<bool>, CodecError>(b@),
            Err(e) => sym_stream(width as nat, bytes@) == Err::<Seq<bool>, CodecError>(e),
        },
{
    let mut out = BitBuf::new();
    let n = bytes.len();
    let mut i: usize = 0;
    proof {
        assert(bytes@.skip(0) =~= bytes@);
    }
    while i < n
        invariant
            n == bytes@.len(),
            i <= n,
            sym_stream(width as nat, bytes@) == (match sym_stream(
                width as nat,
                bytes@.skip(i as int),
            ) {
                Ok(rest) => Ok::<Seq<bool>, CodecError>(out@ + rest),
                Err(e) => Err::<Seq<bool>, CodecError>(e),
            }),
        decreases n - i,
    {
        let ghost tail = bytes@.skip(i as int);
        proof {
            assert(tail.first() == bytes@[i as int]);
            assert(tail.drop_first() =~= bytes@.skip(i + 1));
        }
        match encode_u8(width, bytes[i]) {
            Err(e) => {
                return Err(e);
            },
            Ok(code) => {
                let ghost out_pre = out@;
                out.append(&code);
                proof {
                    match sym_stream(width as nat, bytes@.skip(i + 1)) {
                        Ok(rest) => {
                            assert(out@ + rest =~= out_pre + (sym_bits(
                                width as nat,
                                tail.first() as nat,
                            ) + rest));
                        },
                        Err(_) => {},
                    }
                }
            },
        }
        i = i + 1;
    }
    proof {
        assert(sym_stream(width as nat, bytes@.skip(n as int)) == Ok::<Seq<bool>, CodecError>(
            Seq::empty(),
        ));
        assert(out@ + Seq::<bool>::empty() =~= out@);
    }
    Ok(out)
}

/// Reads fixed-width fields until the sequence is exhausted.  A zero
/// width cannot advance, so at least one bit per field is required.
pub fn decode_stream(width: usize, bits: &BitBuf) -> (r: Result<Vec<u8>, CodecError>)
    requires
        width >= 1,
    ensures
        match r {
            Ok(v) => sym_stream_decode(width as nat, bits@, 0) == Ok::<Seq<u8>, CodecError>(v@),
            Err(e) => sym_stream_decode(width as nat, bits@, 0) == Err::<Seq<u8>, CodecError>(e),
        },
{
    let len = bits.len();
    let mut out: Vec<u8> = Vec::new();
    let mut off: usize = 0;
    while off < len
        invariant
            width >= 1,
            len == bits@.len(),
            off <= len,
            sym_stream_decode(width as nat, bits@, 0) == (match sym_stream_decode(
                width as nat,
                bits@,
                off as nat,
            ) {
                Ok(rest) => Ok::<Seq<u8>, CodecError>(out@ + rest),
                Err(e) => Err::<Seq<u8>, CodecError>(e),
            }),
        decreases len - off,
    {
        match decode_u8(width, bits, off) {
            Err(e) => {
                return Err(e);
            },
            Ok((v, diff)) => {
                let ghost out_pre = out@;
                out.push(v);
                off = off + diff;
                proof {
                    match sym_stream_decode(width as nat, bits@, off as nat) {
                        Ok(rest) => {
                            assert(out@ + rest =~= out_pre + (seq![v] + rest));
                        },
                        Err(_) => {},
                    }
                }
            },
        }
    }
    proof {
        assert(sym_stream_decode(width as nat, bits@, off as nat) == Ok::<Seq<u8>, CodecError>(
            Seq::empty(),
        ));
        assert(out@ + Seq::<u8>::empty() =~= out@);
    }
    Ok(out)
}

/// Round trip for the stream form: a sequence holding exactly the
/// fixed-width codes of `bytes` reads back as `bytes`.
pub proof fn lemma_sym_stream_roundtrip(width: nat, bytes: Seq<u8>, s: Seq<bool>, off: nat)
    requires
        1 <= width <= 8,
        sym_stream(width, bytes) matches Ok(code) && s.len() == off + code.len()
            && s.subrange(off as int, s.len() as int) == code,
    ensures
        sym_stream_decode(width, s, off) == Ok::<Seq<u8>, CodecError>(bytes),
    decreases bytes.len(),
{
    let code = (match sym_stream(width, bytes) {
        Ok(cd) => cd,
        Err(_) => Seq::empty(),
    });
    if bytes.len() == 0 {
        assert(off >= s.len());
        assert(bytes =~= Seq::<u8>::empty());
    } else {
        let b0 = bytes.first();
        let field = sym_bits(width, b0 as nat);
        lemma_sym_bits_len(width, b0 as nat);
        let rest = (match sym_stream(width, bytes.drop_first()) {
            Ok(cd) => cd,
            Err(_) => Seq::empty(),
        });
        assert(code == field + rest);
        assert forall|i: int| 0 <= i < code.len() implies s[off + i] == code[i] by {
            assert(s.subrange(off as int, s.len() as int)[i] == s[off + i]);
        }
        assert(s.subrange(off as int, (off + width) as int) =~= field) by {
            assert(forall|i: int| 0 <= i < width ==> s[off + i] == code[i] && code[i] == field[i]);
        }
        lemma_sym_roundtrip(width, b0 as nat);
        assert(bits_val(s.subrange(off as int, (off + width) as int)) == b0 as nat);
        assert(s.subrange((off + width) as int, s.len() as int) =~= rest) by {
            assert(forall|i: int|
                0 <= i < rest.len() ==> s[off + width + i] == code[width + i] && code[width + i]
                    == rest[i]);
        }
        lemma_sym_stream_roundtrip(width, bytes.drop_first(), s, off + width);
        assert(seq![b0] + bytes.drop_first() =~= bytes);
    }
}

} // verus!
