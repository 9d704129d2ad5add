//! The Golomb-Rice entropy coder.
//!
//! A value is coded as its quotient by `2^k` in unary (that many ones
//! and a terminating zero) followed by its remainder as a fixed `k`-bit
//! field.  The single parameter `k` is found by exhaustive search
//! against a histogram: the search space is tiny, so the code is
//! optimal for the empirical distribution without assuming it is
//! geometric.

use vstd::prelude::*;

use crate::bits::BitBuf;
use crate::bits::bits_val;
use crate::bits::exp2;
use crate::bits::exp2_u64;
use crate::bits::lemma_exp2_pos;
use crate::bits::lemma_sym_bits_len;
use crate::bits::lemma_sym_roundtrip;
use crate::bits::push_sym;
use crate::bits::sym_bits;
use crate::errors::CodecError;
use crate::hist::Hist;
use crate::hist::map_through;
use crate::hist::occurrences;

verus! {

/// `q` ones.
pub open spec fn ones(q: nat) -> Seq<bool>
    decreases q,
{
    if q == 0 {
        Seq::empty()
    } else {
        ones((q - 1) as nat).push(true)
    }
}

pub proof fn lemma_ones(q: nat)
    ensures
        ones(q).len() == q,
        forall|i: int| 0 <= i < q ==> ones(q)[i],
    decreases q,
{
    if q > 0 {
        lemma_ones((q - 1) as nat);
    }
}

/// The Rice code of `n` under parameter `k`: unary quotient, zero
/// terminator, `k`-bit remainder.
pub open spec fn rice_bits(k: nat, n: nat) -> Seq<bool> {
    ones(n / exp2(k)) + seq![false] + sym_bits(k, n % exp2(k))
}

pub proof fn lemma_rice_len(k: nat, n: nat)
    ensures
        rice_bits(k, n).len() == n / exp2(k) + 1 + k,
{
    let q = n / exp2(k);
    let r = n % exp2(k);
    lemma_ones(q);
    lemma_sym_bits_len(k, r);
}

/// The position of the first zero bit at or after `off`.
pub open spec fn first_zero(s: Seq<bool>, off: nat) -> Option<nat>
    decreases s.len() - off,
{
    if off >= s.len() {
        None
    } else if !s[off as int] {
        Some(off)
    } else {
        first_zero(s, off + 1)
    }
}

/// Reading one Rice code at `off`: `Unterminated` when no zero ends the
/// unary run, `Truncated` when the remainder field is cut short, `Cast`
/// when the value exceeds a 32-bit symbol.
pub open spec fn rice_decode(k: nat, s: Seq<bool>, off: nat) -> Result<(nat, nat), CodecError> {
    match first_zero(s, off) {
        None => Err(CodecError::Unterminated),
        Some(z) => {
            if z + 1 + k > s.len() {
                Err(CodecError::Truncated)
            } else {
                let q = (z - off) as nat;
                let r = bits_val(s.subrange(z as int + 1, z as int + 1 + k as int));
                let v = q * exp2(k) + r;
                if v > u32::MAX {
                    Err(CodecError::Cast)
                } else {
                    Ok((v, q + 1 + k))
                }
            }
        },
    }
}

/// What a successful or failed scan for a zero bit implies.
pub proof fn lemma_first_zero_props(s: Seq<bool>, off: nat)
    ensures
        match first_zero(s, off) {
            Some(z) => off <= z < s.len() && !s[z as int] && forall|j: int| off <= j < z ==> s[j],
            None => forall|j: int| off <= j < s.len() ==> s[j],
        },
    decreases s.len() - off,
{
    if off < s.len() && s[off as int] {
        lemma_first_zero_props(s, off + 1);
    }
}

/// A scan that starts inside the unary run of ones ends at its zero.
proof fn lemma_first_zero_run(s: Seq<bool>, off: nat, z: nat)
    requires
        off <= z < s.len(),
        forall|j: int| off <= j < z ==> s[j],
        !s[z as int],
    ensures
        first_zero(s, off) == Some(z),
    decreases z - off,
{
    if off < z {
        lemma_first_zero_run(s, off + 1, z);
    }
}

/// Round trip at the code level: decoding a stream that carries the
/// Rice code of `n` at `off` yields `n` back and consumes exactly the
/// code.
pub proof fn lemma_rice_roundtrip(k: nat, n: nat, s: Seq<bool>, off: nat)
    requires
        n <= u32::MAX,
        off + rice_bits(k, n).len() <= s.len(),
        s.subrange(off as int, off + rice_bits(k, n).len() as int) == rice_bits(k, n),
    ensures
        rice_decode(k, s, off) == Ok::<(nat, nat), CodecError>((n, rice_bits(k, n).len())),
{
    let q = n / exp2(k);
    let r = n % exp2(k);
    lemma_exp2_pos(k);
    lemma_ones(q);
    lemma_sym_bits_len(k, r);
    lemma_rice_len(k, n);
    let code = rice_bits(k, n);
    let l = code.len();
    assert(forall|i: int| 0 <= i < l ==> s[off + i] == code[i]);
    assert(forall|i: int| 0 <= i < q ==> code[i]);
    assert(code[q as int] == false);
    assert forall|j: int| off <= j < off + q implies s[j] by {
        assert(s[off + (j - off)] == code[j - off]);
    }
    assert(s[off as int + q as int] == code[q as int]);
    lemma_first_zero_run(s, off, off + q);
    assert(first_zero(s, off) == Some((off + q) as nat));
    let z = off + q;
    assert(z + 1 + k <= s.len());
    assert(s.subrange(z as int + 1, z as int + 1 + k as int) =~= sym_bits(k, r)) by {
        assert(forall|i: int| 0 <= i < k ==> code[q + 1 + i] == sym_bits(k, r)[i]);
    }
    lemma_sym_roundtrip(k, r);
    vstd::arithmetic::div_mod::lemma_fundamental_div_mod(n as int, exp2(k) as int);
    assert(q * exp2(k) + r == n) by {
        assert(n == exp2(k) * q + r);
        assert(exp2(k) * q == q * exp2(k)) by (nonlinear_arith);
    }
}

/// The length of a Rice code under parameter `k`.
pub open spec fn rice_len(k: nat, v: nat) -> nat {
    v / exp2(k) + 1 + k
}

/// The count at index `i`, weighted by the length of the Rice code of
/// the remapped symbol; zero-count symbols cost nothing.
pub open spec fn rice_cost_term(
    counts: Seq<usize>,
    enc: Seq<u32>,
    has: bool,
    k: nat,
    i: nat,
) -> nat {
    if i < counts.len() && counts[i as int] > 0 {
        (counts[i as int] as nat) * rice_len(
            k,
            if has {
                map_through(enc, i)
            } else {
                i
            },
        )
    } else {
        0
    }
}

/// Total coded size of a histogram under parameter `k`, summed over the
/// first `i` storage slots.
pub open spec fn rice_cost_upto(
    counts: Seq<usize>,
    enc: Seq<u32>,
    has: bool,
    k: nat,
    i: nat,
) -> nat
    decreases i,
{
    if i == 0 {
        0
    } else {
        rice_cost_upto(counts, enc, has, k, (i - 1) as nat) + rice_cost_term(
            counts,
            enc,
            has,
            k,
            (i - 1) as nat,
        )
    }
}

/// Total coded size of a histogram under parameter `k`.
pub open spec fn rice_cost(counts: Seq<usize>, enc: Seq<u32>, has: bool, k: nat) -> nat {
    rice_cost_upto(counts, enc, has, k, counts.len())
}

/// Partial cost sums never exceed the total.
pub proof fn lemma_rice_cost_mono(counts: Seq<usize>, enc: Seq<u32>, has: bool, k: nat, i: nat)
    requires
        i <= counts.len(),
    ensures
        rice_cost_upto(counts, enc, has, k, i) <= rice_cost(counts, enc, has, k),
    decreases counts.len() - i,
{
    if i < counts.len() {
        lemma_rice_cost_mono(counts, enc, has, k, i + 1);
    }
}

/// The number of bits needed to write `n`: zero for zero.
pub open spec fn bit_len(n: nat) -> nat
    decreases n,
{
    if n == 0 {
        0
    } else {
        1 + bit_len(n / 2)
    }
}

/// The bit length of `n`, as a machine integer.
pub fn bit_len_exec(n: usize) -> (r: usize)
    ensures
        r == bit_len(n as nat),
        r <= 64,
{
    let mut v: usize = n;
    let mut r: usize = 0;
    proof {
        assert(exp2(64) == 0x1_0000_0000_0000_0000) by {
            reveal_with_fuel(exp2, 65);
        }
        lemma_bit_len_le(n as nat, 64);
    }
    while v > 0
        invariant
            r + bit_len(v as nat) == bit_len(n as nat),
            bit_len(n as nat) <= 64,
        decreases v,
    {
        v = v / 2;
        r = r + 1;
    }
    r
}

/// A smaller value needs no more bits.
pub proof fn lemma_bit_len_mono(x: nat, y: nat)
    requires
        x <= y,
    ensures
        bit_len(x) <= bit_len(y),
    decreases y,
{
    if x > 0 {
        vstd::arithmetic::div_mod::lemma_div_is_ordered(x as int, y as int, 2);
        lemma_bit_len_mono(x / 2, y / 2);
    }
}

/// `bit_len(n) <= b` whenever `n < exp2(b)`.
pub proof fn lemma_bit_len_le(n: nat, b: nat)
    ensures
        n < exp2(b) ==> bit_len(n) <= b,
    decreases b,
{
    if n == 0 {
    } else if b > 0 {
        lemma_bit_len_le(n / 2, (b - 1) as nat);
    }
}

/// Golomb-Rice coder over a single parameter `k`.
#[derive(Clone)]
pub struct GolombRice_ {
    k: usize,
}

impl GolombRice_ {
    /// The Rice parameter.
    pub closed spec fn k_spec(&self) -> nat {
        self.k as nat
    }

    pub fn new(k: usize) -> (r: GolombRice_)
        ensures
            r.k_spec() == k,
    {
        GolombRice_ { k }
    }

    pub fn k(&self) -> (r: usize)
        ensures
            r == self.k_spec(),
    {
        self.k
    }

    /// Emits the Rice code of `n`.
    pub fn encode_sym(&self, n: u32) -> (r: BitBuf)
        requires
            self.k_spec() <= 31,
        ensures
            r@ == rice_bits(self.k_spec(), n as nat),
    {
        let k = self.k;
        proof {
            lemma_exp2_pos(k as nat);
            crate::bits::lemma_exp2_mono(k as nat, 31);
            assert(exp2(31) == 0x8000_0000) by {
                reveal_with_fuel(exp2, 32);
            }
        }
        let m = exp2_u64(k) as u32;
        let q = n / m;
        let r = n % m;
        let mut out = BitBuf::new();
        let mut i: u32 = 0;
        while i < q
            invariant
                i <= q,
                out@ == ones(i as nat),
            decreases q - i,
        {
            out.push(true);
            i = i + 1;
            assert(out@ =~= ones(i as nat));
        }
        out.push(false);
        push_sym(&mut out, k, r);
        proof {
            lemma_sym_bits_len(k as nat, r as nat);
            assert(out@ =~= rice_bits(self.k_spec(), n as nat));
        }
        out
    }

    /// Reads one Rice code at `off`, returning the value and the number
    /// of bits consumed.
    pub fn decode_sym(&self, bits: &BitBuf, off: usize) -> (r: Result<(u32, usize), CodecError>)
        requires
            self.k_spec() <= 31,
        ensures
            match r {
                Ok((n, c)) => rice_decode(self.k_spec(), bits@, off as nat) == Ok::<
                    (nat, nat),
                    CodecError,
                >((n as nat, c as nat)),
                Err(e) => rice_decode(self.k_spec(), bits@, off as nat) == Err::<
                    (nat, nat),
                    CodecError,
                >(e),
            },
    {
        let k = self.k;
        let len = bits.len();
        if off >= len {
            return Err(CodecError::Unterminated);
        }
        let mut z: usize = off;
        while z < len
            invariant
                off <= z <= len,
                len == bits@.len(),
                forall|j: int| off <= j < z ==> bits@[j],
                first_zero(bits@, off as nat) == first_zero(bits@, z as nat),
            ensures
                off <= z <= len,
                len == bits@.len(),
                first_zero(bits@, off as nat) == first_zero(bits@, z as nat),
                z < len ==> !bits@[z as int],
            decreases len - z,
        {
            if !bits.get(z) {
                break ;
            }
            z = z + 1;
        }
        if z == len {
            return Err(CodecError::Unterminated);
        }
        assert(first_zero(bits@, off as nat) == Some(z as nat));
        if k > len - (z + 1) {
            return Err(CodecError::Truncated);
        }
        let q = z - off;
        let (r, _) = match crate::bits::decode_u32(k, bits, z + 1) {
            Ok(p) => p,
            Err(_) => {
                proof {
                    assert(false);
                }
                vstd::pervasive::unreached()
            },
        };
        let m = exp2_u64(k);
        proof {
            crate::bits::lemma_exp2_mono(k as nat, 31);
            assert(exp2(31) == 0x8000_0000) by {
                reveal_with_fuel(exp2, 32);
            }
        }
        proof {
            assert((q as int) * (m as int) < 0x1_0000_0000_0000_0000 * 0x1_0000_0000)
                by (nonlinear_arith)
                requires
                    0 <= q < 0x1_0000_0000_0000_0000,
                    0 <= m < 0x1_0000_0000,
            ;
        }
        let v: u128 = (q as u128) * (m as u128) + (r as u128);
        proof {
            assert((q as nat) * exp2(k as nat) + (r as nat) == v as nat) by (nonlinear_arith)
                requires
                    v == (q as u128) * (m as u128) + (r as u128),
                    m == exp2(k as nat),
                    q <= usize::MAX,
                    m <= u32::MAX as u64 + 1,
                    r <= u32::MAX,
            ;
        }
        if v > u32::MAX as u128 {
            return Err(CodecError::Cast);
        }
        Ok((v as u32, q + 1 + k))
    }
}


/// The Rice codes of a byte sequence, one after the other.
pub open spec fn rice_stream(k: nat, bytes: Seq<u8>) -> Seq<bool>
    decreases bytes.len(),
{
    if bytes.len() == 0 {
        Seq::empty()
    } else {
        rice_bits(k, bytes.first() as nat) + rice_stream(k, bytes.drop_first())
    }
}

/// Reading Rice codes until the sequence is exhausted; each value must
/// fit a byte.
pub open spec fn rice_stream_decode(k: nat, s: Seq<bool>, off: nat) -> Result<Seq<u8>, CodecError>
    decreases s.len() - off,
{
    if off >= s.len() {
        Ok(Seq::empty())
    } else {
        match rice_decode(k, s, off) {
            Err(e) => Err(e),
            Ok((v, c)) => {
                if v > 255 {
                    Err(CodecError::Cast)
                } else if c < 1 || off + c > s.len() {
                    Err(CodecError::Truncated)
                } else {
                    match rice_stream_decode(k, s, off + c) {
                        Ok(rest) => Ok(seq![v as u8] + rest),
                        Err(e) => Err(e),
                    }
                }
            },
        }
    }
}

impl GolombRice_ {
    /// Emits the Rice code of an 8-bit symbol.
    pub fn encode_u8(&self, n: u8) -> (r: Result<BitBuf, CodecError>)
        requires
            self.k_spec() <= 31,
        ensures
            r matches Ok(b) && b@ == rice_bits(self.k_spec(), n as nat),
    {
        Ok(self.encode_sym(n as u32))
    }

    /// Emits the Rice code of a 32-bit symbol.
    pub fn encode_u32(&self, n: u32) -> (r: Result<BitBuf, CodecError>)
        requires
            self.k_spec() <= 31,
        ensures
            r matches Ok(b) && b@ == rice_bits(self.k_spec(), n as nat),
    {
        Ok(self.encode_sym(n))
    }

    /// Reads one Rice code from the front; the value must fit a byte,
    /// else `Cast`.
    pub fn decode_u8(&self, bits: &BitBuf) -> (r: Result<(u8, usize), CodecError>)
        requires
            self.k_spec() <= 31,
        ensures
            match r {
                Ok((n, c)) => rice_decode(self.k_spec(), bits@, 0) == Ok::<
                    (nat, nat),
                    CodecError,
                >((n as nat, c as nat)),
                Err(e) => {
                    ||| rice_decode(self.k_spec(), bits@, 0) == Err::<(nat, nat), CodecError>(e)
                    ||| (e == CodecError::Cast && (rice_decode(self.k_spec(), bits@, 0)
                        matches Ok((v, _)) && v > 255))
                },
            },
    {
        match self.decode_sym(bits, 0) {
            Ok((v, c)) => {
                if v > 0xff {
                    Err(CodecError::Cast)
                } else {
                    Ok((v as u8, c))
                }
            },
            Err(e) => Err(e),
        }
    }

    /// Reads one Rice code at `off` as a 32-bit symbol.
    pub fn decode_u32_at(&self, bits: &BitBuf, off: usize) -> (r: Result<
        (u32, usize),
        CodecError,
    >)
        requires
            self.k_spec() <= 31,
        ensures
            match r {
                Ok((n, c)) => rice_decode(self.k_spec(), bits@, off as nat) == Ok::<
                    (nat, nat),
                    CodecError,
                >((n as nat, c as nat)),
                Err(e) => rice_decode(self.k_spec(), bits@, off as nat) == Err::<
                    (nat, nat),
                    CodecError,
                >(e),
            },
    {
        self.decode_sym(bits, off)
    }

    /// Codes every byte of `bytes` in order.
    pub fn encode(&self, bytes: &Vec<u8>) -> (r: Result<BitBuf, CodecError>)
        requires
            self.k_spec() <= 31,
        ensures
            r matches Ok(b) && b@ == rice_stream(self.k_spec(), bytes@),
    {
        let mut out = BitBuf::new();
        let n = bytes.len();
        let mut i: usize = 0;
        proof {
            assert(out@ + rice_stream(self.k_spec(), bytes@.skip(0)) =~= rice_stream(
                self.k_spec(),
                bytes@,
            )) by {
                assert(bytes@.skip(0) =~= bytes@);
            }
        }
        while i < n
            invariant
                self.k_spec() <= 31,
                n == bytes@.len(),
                i <= n,
                rice_stream(self.k_spec(), bytes@) == out@ + rice_stream(
                    self.k_spec(),
                    bytes@.skip(i as int),
                ),
            decreases n - i,
        {
            let code = self.encode_sym(bytes[i] as u32);
            out.append(&code);
            proof {
                let tail = bytes@.skip(i as int);
                assert(tail.first() == bytes@[i as int]);
                assert(tail.drop_first() =~= bytes@.skip(i + 1));
                assert(rice_stream(self.k_spec(), tail) == rice_bits(
                    self.k_spec(),
                    bytes@[i as int] as nat,
                ) + rice_stream(self.k_spec(), bytes@.skip(i + 1)));
                assert(out@ + rice_stream(self.k_spec(), bytes@.skip(i + 1)) =~= rice_stream(
                    self.k_spec(),
                    bytes@,
                ));
            }
            i = i + 1;
        }
        proof {
            assert(rice_stream(self.k_spec(), bytes@.skip(n as int)) =~= Seq::<bool>::empty());
            assert(out@ =~= rice_stream(self.k_spec(), bytes@));
        }
        Ok(out)
    }

    /// Reads Rice codes until the sequence is exhausted.
    pub fn decode(&self, bits: &BitBuf) -> (r: Result<Vec<u8>, CodecError>)
        requires
            self.k_spec() <= 31,
        ensures
            match r {
                Ok(v) => rice_stream_decode(self.k_spec(), bits@, 0) == Ok::<
                    Seq<u8>,
                    CodecError,
                >(v@),
                Err(e) => rice_stream_decode(self.k_spec(), bits@, 0) == Err::<
                    Seq<u8>,
                    CodecError,
                >(e),
            },
    {
        let len = bits.len();
        let mut out: Vec<u8> = Vec::new();
        let mut off: usize = 0;
        while off < len
            invariant
                self.k_spec() <= 31,
                len == bits@.len(),
                off <= len,
                rice_stream_decode(self.k_spec(), bits@, 0) == (match rice_stream_decode(
                    self.k_spec(),
                    bits@,
                    off as nat,
                ) {
                    Ok(rest) => Ok::<Seq<u8>, CodecError>(out@ + rest),
                    Err(e) => Err::<Seq<u8>, CodecError>(e),
                }),
            decreases len - off,
        {
            match self.decode_sym(bits, off) {
                Err(e) => {
                    return Err(e);
                },
                Ok((v, c)) => {
                    if v > 0xff {
                        return Err(CodecError::Cast);
                    }
                    let ghost kk = self.k_spec();
                    let ghost out_pre = out@;
                    let ghost off_old = off as nat;
                    proof {
                        lemma_first_zero_props(bits@, off as nat);
                        match first_zero(bits@, off as nat) {
                            Some(z) => {
                                assert(c == (z - off) + 1 + kk);
                                assert(z + 1 + kk <= bits@.len());
                            },
                            None => {
                                assert(false);
                            },
                        }
                        assert(c >= 1 && off + c <= len);
                    }
                    out.push(v as u8);
                    off = off + c;
                    proof {
                        match rice_stream_decode(kk, bits@, off as nat) {
                            Ok(rest) => {
                                assert(rice_stream_decode(kk, bits@, off_old) == Ok::<
                                    Seq<u8>,
                                    CodecError,
                                >(seq![v as u8] + rest));
                                assert(out@ + rest =~= out_pre + (seq![v as u8] + rest));
                            },
                            Err(e) => {
                                assert(rice_stream_decode(kk, bits@, off_old) == Err::<
                                    Seq<u8>,
                                    CodecError,
                                >(e));
                            },
                        }
                    }
                },
            }
        }
        proof {
            assert(rice_stream_decode(self.k_spec(), bits@, off as nat) == Ok::<
                Seq<u8>,
                CodecError,
            >(Seq::empty()));
            assert(out@ + Seq::<u8>::empty() =~= out@);
        }
        Ok(out)
    }
}


/// The preconditions under which a histogram can drive the parameter
/// search: remapped symbols fit 32 bits and every candidate cost sum
/// fits the machine word.
pub open spec fn hist_searchable(h: Hist) -> bool {
    &&& h.tables_usable()
    &&& h.bound_spec() <= u32::MAX
    &&& h.counts().len() <= u32::MAX
    &&& forall|i: nat| i < h.counts().len() ==> #[trigger] h.map_enc_spec(i) <= u32::MAX
    &&& forall|k2: nat|
        k2 <= 32 ==> #[trigger] rice_cost(h.counts(), h.enc_table(), h.has_table(), k2)
            <= usize::MAX
}

/// The total coded size of `hist` under parameter `k`.
pub fn rice_cost_exec(hist: &Hist, k: usize) -> (r: usize)
    requires
        hist_searchable(*hist),
        k <= 32,
    ensures
        r == rice_cost(hist.counts(), hist.enc_table(), hist.has_table(), k as nat),
{
    let ghost cts = hist.counts();
    let ghost enc = hist.enc_table();
    let ghost has = hist.has_table();
    let m = exp2_u64(k);
    proof {
        lemma_exp2_pos(k as nat);
    }
    let n = hist.counts_len();
    let mut cost: usize = 0;
    let mut i: usize = 0;
    while i < n
        invariant
            hist_searchable(*hist),
            cts == hist.counts(),
            enc == hist.enc_table(),
            has == hist.has_table(),
            k <= 32,
            m == exp2(k as nat),
            m >= 1,
            n == cts.len(),
            i <= n,
            cost == rice_cost_upto(cts, enc, has, k as nat, i as nat),
        decreases n - i,
    {
        let c = hist.count_index(i);
        proof {
            lemma_rice_cost_mono(cts, enc, has, k as nat, (i + 1) as nat);
            assert(rice_cost_upto(cts, enc, has, k as nat, (i + 1) as nat) == cost
                + rice_cost_term(cts, enc, has, k as nat, i as nat));
        }
        if c > 0 {
            let v = match hist.map_encode(i as u32) {
                Ok(v) => v,
                Err(_) => {
                    proof {
                        assert(hist.map_enc_spec(i as nat) <= u32::MAX);
                    }
                    vstd::pervasive::unreached()
                },
            };
            let rlen_u64: u64 = v as u64 / m + 1 + k as u64;
            let ghost rl = rice_len(k as nat, hist.map_enc_spec(i as nat));
            proof {
                assert(rlen_u64 == rl);
                assert(rice_cost_term(cts, enc, has, k as nat, i as nat) == (c as nat) * rl);
                assert(rl <= (c as nat) * rl) by (nonlinear_arith)
                    requires
                        c >= 1,
                        rl >= 0,
                ;
                assert((c as nat) * rl <= usize::MAX);
            }
            let rlen: usize = rlen_u64 as usize;
            cost = cost + c * rlen;
        }
        i = i + 1;
    }
    cost
}

impl GolombRice_ {
    /// Finds the `k` in `0 ..= bit_len(bound - 1)` whose total coded
    /// size against the histogram is smallest, taking the smallest such
    /// `k` on ties; an empty histogram yields `k == 0`.
    pub fn from_hist(hist: &Hist) -> (r: GolombRice_)
        requires
            hist_searchable(*hist),
        ensures
            hist.bound_spec() == 0 ==> r.k_spec() == 0,
            hist.bound_spec() > 0 ==> {
                let km = bit_len((hist.bound_spec() - 1) as nat);
                &&& r.k_spec() <= km
                &&& forall|k2: nat|
                    k2 <= km ==> rice_cost(
                        hist.counts(),
                        hist.enc_table(),
                        hist.has_table(),
                        r.k_spec(),
                    ) <= #[trigger] rice_cost(
                        hist.counts(),
                        hist.enc_table(),
                        hist.has_table(),
                        k2,
                    )
                &&& forall|k2: nat|
                    k2 <= km && #[trigger] rice_cost(
                        hist.counts(),
                        hist.enc_table(),
                        hist.has_table(),
                        k2,
                    ) == rice_cost(
                        hist.counts(),
                        hist.enc_table(),
                        hist.has_table(),
                        r.k_spec(),
                    ) ==> r.k_spec() <= k2
            },
    {
        let ghost cts = hist.counts();
        let ghost enc = hist.enc_table();
        let ghost has = hist.has_table();
        let bound = hist.bound();
        if bound == 0 {
            return GolombRice_::new(0);
        }
        let kmax = bit_len_exec(bound - 1);
        proof {
            assert(exp2(32) == 0x1_0000_0000) by {
                reveal_with_fuel(exp2, 33);
            }
            lemma_bit_len_le((bound - 1) as nat, 32);
        }
        let mut best_k: usize = 0;
        let mut best_cost: usize = rice_cost_exec(hist, 0);
        let mut k: usize = 1;
        while k <= kmax
            invariant
                hist_searchable(*hist),
                cts == hist.counts(),
                enc == hist.enc_table(),
                has == hist.has_table(),
                kmax <= 32,
                1 <= k <= kmax + 1,
                best_k < k,
                best_cost == rice_cost(cts, enc, has, best_k as nat),
                forall|k2: nat|
                    k2 < k ==> best_cost <= #[trigger] rice_cost(cts, enc, has, k2),
                forall|k2: nat|
                    k2 < k && #[trigger] rice_cost(cts, enc, has, k2) == best_cost ==> best_k
                        <= k2,
            decreases kmax + 1 - k,
        {
            let c = rice_cost_exec(hist, k);
            if c < best_cost {
                best_cost = c;
                best_k = k;
            }
            k = k + 1;
        }
        GolombRice_::new(best_k)
    }
}


/// `counts` is the histogram of `seed`: one slot per value up to the
/// largest seen, holding its number of occurrences.
pub open spec fn counts_match(seed: Seq<u32>, counts: Seq<usize>) -> bool {
    &&& counts.len() == crate::hist::seed_bound(seed)
    &&& forall|v: nat|
        v < counts.len() ==> #[trigger] counts[v as int] == occurrences(seed, v)
}

/// Every value of `seed` lies below its bound.
pub proof fn lemma_seed_bound(seed: Seq<u32>, m: nat)
    requires
        forall|i: int| 0 <= i < seed.len() ==> seed[i] < m,
    ensures
        crate::hist::seed_bound(seed) <= m,
    decreases seed.len(),
{
    if seed.len() > 0 {
        lemma_seed_bound(seed.drop_last(), m);
    }
}

impl GolombRice_ {
    /// Builds a histogram of `seed` and searches the best `k` for it.
    pub fn from_seed(seed: &Vec<u32>) -> (r: GolombRice_)
        requires
            seed@.len() < usize::MAX,
            forall|i: int| 0 <= i < seed@.len() ==> seed@[i] < u32::MAX && seed@[i] < usize::MAX,
            forall|counts: Seq<usize>, k2: nat|
                counts_match(seed@, counts) && k2 <= 32 ==> #[trigger] rice_cost(
                    counts,
                    Seq::empty(),
                    false,
                    k2,
                ) <= usize::MAX,
        ensures
            forall|counts: Seq<usize>|
                #[trigger] counts_match(seed@, counts) ==> {
                    let bound = crate::hist::nonzero_upper(counts);
                    &&& (bound == 0 ==> r.k_spec() == 0)
                    &&& (bound > 0 ==> {
                        let km = bit_len((bound - 1) as nat);
                        &&& r.k_spec() <= km
                        &&& forall|k2: nat|
                            k2 <= km ==> rice_cost(counts, Seq::empty(), false, r.k_spec())
                                <= #[trigger] rice_cost(counts, Seq::empty(), false, k2)
                        &&& forall|k2: nat|
                            k2 <= km && #[trigger] rice_cost(counts, Seq::empty(), false, k2)
                                == rice_cost(counts, Seq::empty(), false, r.k_spec())
                                ==> r.k_spec() <= k2
                    })
                },
    {
        let hist = Hist::from_seed(seed);
        proof {
            lemma_seed_bound(seed@, u32::MAX as nat);
            assert forall|v: nat| v < hist.counts().len() implies #[trigger] hist.counts()[v as int]
                == occurrences(seed@, v) by {
                assert(hist.count_at(v) == occurrences(seed@, v));
            }
            assert(counts_match(seed@, hist.counts()));
            crate::hist::lemma_no_table(hist);
            assert(hist.enc_table() == Seq::<u32>::empty());
            assert forall|i: nat| i < hist.counts().len() implies #[trigger] hist.map_enc_spec(i)
                <= u32::MAX by {
                assert(hist.map_enc_spec(i) == i);
            }
            assert forall|k2: nat| k2 <= 32 implies #[trigger] rice_cost(
                hist.counts(),
                hist.enc_table(),
                hist.has_table(),
                k2,
            ) <= usize::MAX by {
                assert(rice_cost(hist.counts(), Seq::empty(), false, k2) <= usize::MAX);
            }
            assert(hist.bound_spec() == crate::hist::nonzero_upper(hist.counts()));
            crate::hist::lemma_nonzero_upper_le(hist.counts());
            assert(hist.bound_spec() <= hist.counts().len());
        }
        let r = GolombRice_::from_hist(&hist);
        proof {
            assert forall|counts: Seq<usize>| #[trigger] counts_match(seed@, counts) implies counts
                == hist.counts() by {
                assert(counts =~= hist.counts());
            }
        }
        r
    }
}


/// One coded symbol read back through the remap: a Rice code whose
/// value is permuted through the decode table; `Cast` when the restored
/// value does not fit 32 bits.
pub open spec fn bij_decode(k: nat, dec: Seq<u32>, has: bool, s: Seq<bool>, off: nat) -> Result<
    (nat, nat),
    CodecError,
> {
    match rice_decode(k, s, off) {
        Err(e) => Err(e),
        Ok((v, c)) => {
            let w = if has {
                map_through(dec, v)
            } else {
                v
            };
            if w > u32::MAX {
                Err(CodecError::Cast)
            } else {
                Ok((w, c))
            }
        },
    }
}

/// A Rice coder composed with a bijective remap: symbols are permuted
/// to their frequency rank before coding and back after decoding.
pub struct BijectEncoder {
    encoder: GolombRice_,
    bijecter: Hist,
}

impl BijectEncoder {
    /// The underlying Rice coder.
    pub closed spec fn coder(&self) -> GolombRice_ {
        self.encoder
    }

    /// The histogram whose tables drive the remap.
    pub closed spec fn remap(&self) -> Hist {
        self.bijecter
    }

    /// The arithmetic both halves rely on.
    pub open spec fn usable(&self) -> bool {
        self.coder().k_spec() <= 31 && self.remap().tables_usable()
    }

    pub fn new(encoder: GolombRice_, bijecter: Hist) -> (r: BijectEncoder)
        ensures
            r.coder() == encoder,
            r.remap() == bijecter,
    {
        BijectEncoder { encoder, bijecter }
    }

    pub fn encoder(&self) -> (r: &GolombRice_)
        ensures
            *r == self.coder(),
    {
        &self.encoder
    }

    pub fn bijecter(&self) -> (r: &Hist)
        ensures
            *r == self.remap(),
    {
        &self.bijecter
    }

    /// Remaps `n` and emits its Rice code; `Cast` when the remapped
    /// symbol does not fit 32 bits.
    pub fn encode_u32(&self, n: u32) -> (r: Result<BitBuf, CodecError>)
        requires
            self.usable(),
        ensures
            match r {
                Ok(b) => self.remap().map_enc_spec(n as nat) <= u32::MAX && b@ == rice_bits(
                    self.coder().k_spec(),
                    self.remap().map_enc_spec(n as nat),
                ),
                Err(e) => e == CodecError::Cast && self.remap().map_enc_spec(n as nat)
                    > u32::MAX,
            },
    {
        match self.bijecter.map_encode(n) {
            Err(e) => Err(e),
            Ok(v) => Ok(self.encoder.encode_sym(v)),
        }
    }

    /// Remaps an 8-bit symbol and emits its Rice code.
    pub fn encode_u8(&self, n: u8) -> (r: Result<BitBuf, CodecError>)
        requires
            self.usable(),
        ensures
            match r {
                Ok(b) => self.remap().map_enc_spec(n as nat) <= u32::MAX && b@ == rice_bits(
                    self.coder().k_spec(),
                    self.remap().map_enc_spec(n as nat),
                ),
                Err(e) => e == CodecError::Cast && self.remap().map_enc_spec(n as nat)
                    > u32::MAX,
            },
    {
        self.encode_u32(n as u32)
    }

    /// Reads one code at `off` and permutes the value back.
    pub fn decode_u32_at(&self, bits: &BitBuf, off: usize) -> (r: Result<
        (u32, usize),
        CodecError,
    >)
        requires
            self.usable(),
        ensures
            match r {
                Ok((n, c)) => bij_decode(
                    self.coder().k_spec(),
                    self.remap().dec_table(),
                    self.remap().has_table(),
                    bits@,
                    off as nat,
                ) == Ok::<(nat, nat), CodecError>((n as nat, c as nat)),
                Err(e) => bij_decode(
                    self.coder().k_spec(),
                    self.remap().dec_table(),
                    self.remap().has_table(),
                    bits@,
                    off as nat,
                ) == Err::<(nat, nat), CodecError>(e),
            },
    {
        match self.encoder.decode_sym(bits, off) {
            Err(e) => Err(e),
            Ok((v, c)) => match self.bijecter.map_decode(v) {
                Err(e) => Err(e),
                Ok(w) => Ok((w, c)),
            },
        }
    }

    /// Reads one code from the front; the restored value must fit a
    /// byte, else `Cast`.
    pub fn decode_u8(&self, bits: &BitBuf) -> (r: Result<(u8, usize), CodecError>)
        requires
            self.usable(),
        ensures
            match r {
                Ok((n, c)) => bij_decode(
                    self.coder().k_spec(),
                    self.remap().dec_table(),
                    self.remap().has_table(),
                    bits@,
                    0,
                ) == Ok::<(nat, nat), CodecError>((n as nat, c as nat)),
                Err(e) => {
                    ||| bij_decode(
                        self.coder().k_spec(),
                        self.remap().dec_table(),
                        self.remap().has_table(),
                        bits@,
                        0,
                    ) == Err::<(nat, nat), CodecError>(e)
                    ||| (e == CodecError::Cast && (bij_decode(
                        self.coder().k_spec(),
                        self.remap().dec_table(),
                        self.remap().has_table(),
                        bits@,
                        0,
                    ) matches Ok((v, _)) && v > 255))
                },
            },
    {
        match self.decode_u32_at(bits, 0) {
            Err(e) => Err(e),
            Ok((v, c)) => {
                if v > 0xff {
                    Err(CodecError::Cast)
                } else {
                    Ok((v as u8, c))
                }
            },
        }
    }
}


/// The remapped Rice codes of a byte sequence, one after the other;
/// `Cast` when some remapped symbol does not fit 32 bits.
pub open spec fn bij_stream(k: nat, e: Seq<u32>, has: bool, bytes: Seq<u8>) -> Result<
    Seq<bool>,
    CodecError,
>
    decreases bytes.len(),
{
    if bytes.len() == 0 {
        Ok(Seq::empty())
    } else {
        let m = if has {
            map_through(e, bytes.first() as nat)
        } else {
            bytes.first() as nat
        };
        if m > u32::MAX {
            Err(CodecError::Cast)
        } else {
            match bij_stream(k, e, has, bytes.drop_first()) {
                Ok(rest) => Ok(rice_bits(k, m) + rest),
                Err(err) => Err(err),
            }
        }
    }
}

/// Reading remapped Rice codes until the sequence is exhausted; each
/// restored value must fit a byte.
pub open spec fn bij_stream_decode(
    k: nat,
    d: Seq<u32>,
    has: bool,
    s: Seq<bool>,
    off: nat,
) -> Result<Seq<u8>, CodecError>
    decreases s.len() - off,
{
    if off >= s.len() {
        Ok(Seq::empty())
    } else {
        match bij_decode(k, d, has, s, off) {
            Err(e) => Err(e),
            Ok((w, c)) => {
                if w > 255 {
                    Err(CodecError::Cast)
                } else if c < 1 || off + c > s.len() {
                    Err(CodecError::Truncated)
                } else {
                    match bij_stream_decode(k, d, has, s, off + c) {
                        Ok(rest) => Ok(seq![w as u8] + rest),
                        Err(e) => Err(e),
                    }
                }
            },
        }
    }
}

impl BijectEncoder {
    /// Codes every byte of `bytes` in order, through the remap.
    pub fn encode(&self, bytes: &Vec<u8>) -> (r: Result<BitBuf, CodecError>)
        requires
            self.usable(),
        ensures
            match r {
                Ok(b) => bij_stream(
                    self.coder().k_spec(),
                    self.remap().enc_table(),
                    self.remap().has_table(),
                    bytes@,
                ) == Ok::<Seq<bool>, CodecError>(b@),
                Err(e) => bij_stream(
                    self.coder().k_spec(),
                    self.remap().enc_table(),
                    self.remap().has_table(),
                    bytes@,
                ) == Err::<Seq<bool>, CodecError>(e),
            },
    {
        let ghost kk = self.coder().k_spec();
        let ghost e = self.remap().enc_table();
        let ghost has = self.remap().has_table();
        let mut out = BitBuf::new();
        let n = bytes.len();
        let mut i: usize = 0;
        proof {
            assert(bytes@.skip(0) =~= bytes@);
        }
        while i < n
            invariant
                self.usable(),
                kk == self.coder().k_spec(),
                e == self.remap().enc_table(),
                has == self.remap().has_table(),
                n == bytes@.len(),
                i <= n,
                bij_stream(kk, e, has, bytes@) == (match bij_stream(
                    kk,
                    e,
                    has,
                    bytes@.skip(i as int),
                ) {
                    Ok(rest) => Ok::<Seq<bool>, CodecError>(out@ + rest),
                    Err(err) => Err::<Seq<bool>, CodecError>(err),
                }),
            decreases n - i,
        {
            let ghost tail = bytes@.skip(i as int);
            proof {
                assert(tail.first() == bytes@[i as int]);
                assert(tail.drop_first() =~= bytes@.skip(i + 1));
            }
            match self.encode_u8(bytes[i]) {
                Err(err) => {
                    return Err(err);
                },
                Ok(code) => {
                    let ghost out_pre = out@;
                    out.append(&code);
                    proof {
                        let m = self.remap().map_enc_spec(bytes@[i as int] as nat);
                        match bij_stream(kk, e, has, bytes@.skip(i + 1)) {
                            Ok(rest) => {
                                assert(out@ + rest =~= out_pre + (rice_bits(kk, m) + rest));
                            },
                            Err(_) => {},
                        }
                    }
                },
            }
            i = i + 1;
        }
        proof {
            assert(bytes@.skip(n as int) =~= Seq::<u8>::empty());
            assert(out@ + Seq::<bool>::empty() =~= out@);
        }
        Ok(out)
    }

    /// Reads codes through the remap until the sequence is exhausted.
    pub fn decode(&self, bits: &BitBuf) -> (r: Result<Vec<u8>, CodecError>)
        requires
            self.usable(),
        ensures
            match r {
                Ok(v) => bij_stream_decode(
                    self.coder().k_spec(),
                    self.remap().dec_table(),
                    self.remap().has_table(),
                    bits@,
                    0,
                ) == Ok::<Seq<u8>, CodecError>(v@),
                Err(e) => bij_stream_decode(
                    self.coder().k_spec(),
                    self.remap().dec_table(),
                    self.remap().has_table(),
                    bits@,
                    0,
                ) == Err::<Seq<u8>, CodecError>(e),
            },
    {
        let ghost kk = self.coder().k_spec();
        let ghost d = self.remap().dec_table();
        let ghost has = self.remap().has_table();
        let len = bits.len();
        let mut out: Vec<u8> = Vec::new();
        let mut off: usize = 0;
        while off < len
            invariant
                self.usable(),
                kk == self.coder().k_spec(),
                d == self.remap().dec_table(),
                has == self.remap().has_table(),
                len == bits@.len(),
                off <= len,
                bij_stream_decode(kk, d, has, bits@, 0) == (match bij_stream_decode(
                    kk,
                    d,
                    has,
                    bits@,
                    off as nat,
                ) {
                    Ok(rest) => Ok::<Seq<u8>, CodecError>(out@ + rest),
                    Err(e) => Err::<Seq<u8>, CodecError>(e),
                }),
            decreases len - off,
        {
            match self.decode_u32_at(bits, off) {
                Err(e) => {
                    return Err(e);
                },
                Ok((w, c)) => {
                    if w > 0xff {
                        return Err(CodecError::Cast);
                    }
                    let ghost out_pre = out@;
                    let ghost off_old = off as nat;
                    proof {
                        lemma_first_zero_props(bits@, off as nat);
                        match first_zero(bits@, off as nat) {
                            Some(z) => {
                                assert(c == (z - off) + 1 + kk);
                                assert(z + 1 + kk <= bits@.len());
                            },
                            None => {
                                assert(false);
                            },
                        }
                        assert(c >= 1 && off + c <= len);
                    }
                    out.push(w as u8);
                    off = off + c;
                    proof {
                        match bij_stream_decode(kk, d, has, bits@, off as nat) {
                            Ok(rest) => {
                                assert(out@ + rest =~= out_pre + (seq![w as u8] + rest));
                            },
                            Err(_) => {},
                        }
                    }
                },
            }
        }
        proof {
            assert(out@ + Seq::<u8>::empty() =~= out@);
        }
        Ok(out)
    }
}


/// Every occupied slot of the histogram remaps into a 32-bit symbol:
/// the condition under which the parameter search cannot stumble on a
/// relabeling it cannot represent.
pub open spec fn hist_occupied_fits(h: Hist) -> bool {
    forall|i: nat|
        i < h.counts().len() && h.counts()[i as int] > 0 ==> #[trigger] h.map_enc_spec(i)
            <= u32::MAX
}

/// The histogram can drive the checked parameter search to completion:
/// every occupied slot remaps within 32 bits and every candidate cost
/// fits the machine word.
#[verifier::opaque]
pub open spec fn search_fits(h: Hist) -> bool {
    &&& hist_occupied_fits(h)
    &&& forall|k2: nat|
        k2 <= 32 ==> #[trigger] rice_cost(h.counts(), h.enc_table(), h.has_table(), k2)
            <= usize::MAX
}

/// `rice_cost_exec` with the machine limits checked at run time: the
/// remap of an occupied slot not fitting 32 bits is a `Cast` error, a
/// cost sum not fitting the machine word an `Overflow` error.
pub fn rice_cost_checked(hist: &Hist, k: usize) -> (r: Result<usize, CodecError>)
    requires
        hist.tables_usable(),
        k <= 32,
        hist.counts().len() <= u32::MAX,
    ensures
        match r {
            Ok(cst) => cst == rice_cost(
                hist.counts(),
                hist.enc_table(),
                hist.has_table(),
                k as nat,
            ),
            Err(e) => e == CodecError::Cast || e == CodecError::Overflow,
        },
        (hist_occupied_fits(*hist) && rice_cost(
            hist.counts(),
            hist.enc_table(),
            hist.has_table(),
            k as nat,
        ) <= usize::MAX) ==> r is Ok,
{
    let ghost cts = hist.counts();
    let ghost enc = hist.enc_table();
    let ghost has = hist.has_table();
    let m = exp2_u64(k);
    proof {
        lemma_exp2_pos(k as nat);
    }
    let n = hist.counts_len();
    let mut cost: usize = 0;
    let mut i: usize = 0;
    while i < n
        invariant
            hist.tables_usable(),
            cts == hist.counts(),
            enc == hist.enc_table(),
            has == hist.has_table(),
            k <= 32,
            m == exp2(k as nat),
            m >= 1,
            n == cts.len() <= u32::MAX,
            i <= n,
            cost == rice_cost_upto(cts, enc, has, k as nat, i as nat),
        decreases n - i,
    {
        let c = hist.count_index(i);
        proof {
            assert(rice_cost_upto(cts, enc, has, k as nat, (i + 1) as nat) == cost
                + rice_cost_term(cts, enc, has, k as nat, i as nat));
        }
        if c > 0 {
            let v = match hist.map_encode(i as u32) {
                Ok(v) => v,
                Err(_) => {
                    proof {
                        if hist_occupied_fits(*hist) {
                            assert(hist.map_enc_spec(i as nat) <= u32::MAX);
                            assert(false);
                        }
                    }
                    return Err(CodecError::Cast);
                },
            };
            let rlen_u64: u64 = v as u64 / m + 1 + k as u64;
            let ghost rl = rice_len(k as nat, hist.map_enc_spec(i as nat));
            proof {
                assert(rlen_u64 == rl);
                assert((c as int) * (rlen_u64 as int) < 0x1_0000_0000_0000_0000
                    * 0x2_0000_0000int) by (nonlinear_arith)
                    requires
                        c < 0x1_0000_0000_0000_0000,
                        rlen_u64 < 0x2_0000_0000,
                ;
                assert(rice_cost_term(cts, enc, has, k as nat, i as nat) == (c as nat) * rl);
            }
            let term: u128 = (c as u128) * (rlen_u64 as u128);
            if term > (usize::MAX - cost) as u128 {
                proof {
                    if rice_cost(cts, enc, has, k as nat) <= usize::MAX {
                        lemma_rice_cost_mono(cts, enc, has, k as nat, (i + 1) as nat);
                        assert(false);
                    }
                }
                return Err(CodecError::Overflow);
            }
            cost = cost + (term as usize);
        }
        i = i + 1;
    }
    Ok(cost)
}

/// Finds the `k` in `0 ..= bit_len(bound - 1)` whose total coded size
/// is smallest, smallest `k` on ties, checking the machine limits at
/// run time; an empty histogram yields `k == 0`.
#[verifier::rlimit(40)]
pub fn best_k_checked(hist: &Hist) -> (r: Result<usize, CodecError>)
    requires
        hist.tables_usable(),
        hist.bound_spec() <= u32::MAX,
        hist.counts().len() <= u32::MAX,
    ensures
        match r {
            Ok(bk) => {
                &&& (hist.bound_spec() == 0 ==> bk == 0)
                &&& (hist.bound_spec() > 0 ==> {
                    let km = bit_len((hist.bound_spec() - 1) as nat);
                    &&& bk <= km
                    &&& forall|k2: nat|
                        k2 <= km ==> rice_cost(
                            hist.counts(),
                            hist.enc_table(),
                            hist.has_table(),
                            bk as nat,
                        ) <= #[trigger] rice_cost(
                            hist.counts(),
                            hist.enc_table(),
                            hist.has_table(),
                            k2,
                        )
                    &&& forall|k2: nat|
                        k2 <= km && #[trigger] rice_cost(
                            hist.counts(),
                            hist.enc_table(),
                            hist.has_table(),
                            k2,
                        ) == rice_cost(
                            hist.counts(),
                            hist.enc_table(),
                            hist.has_table(),
                            bk as nat,
                        ) ==> bk <= k2
                })
            },
            Err(e) => e == CodecError::Cast || e == CodecError::Overflow,
        },
        search_fits(*hist) ==> r is Ok,
{
    let ghost cts = hist.counts();
    let ghost enc = hist.enc_table();
    let ghost has = hist.has_table();
    let bound = hist.bound();
    if bound == 0 {
        return Ok(0);
    }
    let kmax = bit_len_exec(bound - 1);
    proof {
        assert(exp2(32) == 0x1_0000_0000) by {
            reveal_with_fuel(exp2, 33);
        }
        lemma_bit_len_le((bound - 1) as nat, 32);
    }
    let mut best_k: usize = 0;
    let mut best_cost: usize = match rice_cost_checked(hist, 0) {
        Ok(cst) => cst,
        Err(e) => {
            proof {
                if search_fits(*hist) {
                    reveal(search_fits);
                    assert(false);
                }
            }
            return Err(e);
        },
    };
    let mut k: usize = 1;
    while k <= kmax
        invariant
            hist.tables_usable(),
            cts == hist.counts(),
            enc == hist.enc_table(),
            has == hist.has_table(),
            cts.len() <= u32::MAX,
            kmax <= 32,
            1 <= k <= kmax + 1,
            best_k < k,
            best_cost == rice_cost(cts, enc, has, best_k as nat),
            forall|k2: nat| k2 < k ==> best_cost <= #[trigger] rice_cost(cts, enc, has, k2),
            forall|k2: nat|
                k2 < k && #[trigger] rice_cost(cts, enc, has, k2) == best_cost ==> best_k
                    <= k2,
        decreases kmax + 1 - k,
    {
        let cst = match rice_cost_checked(hist, k) {
            Ok(cst) => cst,
            Err(e) => {
                proof {
                    if search_fits(*hist) {
                        reveal(search_fits);
                        assert(false);
                    }
                }
                return Err(e);
            },
        };
        if cst < best_cost {
            best_cost = cst;
            best_k = k;
        }
        k = k + 1;
    }
    Ok(best_k)
}


/// The coded length of `v` under a width-capped Rice coder: parameter
/// `k` at or past the symbol width falls back to a fixed field.
pub open spec fn capped_len(k: nat, width: nat, v: nat) -> nat {
    if k < width {
        rice_len(k, v)
    } else {
        width
    }
}

/// Width-capped total coded size, over the first `i` slots.
pub open spec fn capped_cost_upto(
    counts: Seq<usize>,
    enc: Seq<u32>,
    has: bool,
    k: nat,
    width: nat,
    i: nat,
) -> nat
    decreases i,
{
    if i == 0 {
        0
    } else {
        capped_cost_upto(counts, enc, has, k, width, (i - 1) as nat) + (
        if ((i - 1) as nat) < counts.len() && counts[i - 1] > 0 {
            (counts[i - 1] as nat) * capped_len(
                k,
                width,
                if has {
                    map_through(enc, (i - 1) as nat)
                } else {
                    (i - 1) as nat
                },
            )
        } else {
            0
        })
    }
}

/// Width-capped total coded size of a histogram.
pub open spec fn capped_cost(
    counts: Seq<usize>,
    enc: Seq<u32>,
    has: bool,
    k: nat,
    width: nat,
) -> nat {
    capped_cost_upto(counts, enc, has, k, width, counts.len())
}

/// Partial capped-cost sums never exceed the total.
proof fn lemma_capped_cost_mono(
    counts: Seq<usize>,
    enc: Seq<u32>,
    has: bool,
    k: nat,
    width: nat,
    i: nat,
)
    requires
        i <= counts.len(),
    ensures
        capped_cost_upto(counts, enc, has, k, width, i) <= capped_cost(counts, enc, has, k, width),
    decreases counts.len() - i,
{
    if i < counts.len() {
        lemma_capped_cost_mono(counts, enc, has, k, width, i + 1);
    }
}

/// The histogram can drive the width-capped search to completion.
#[verifier::opaque]
pub open spec fn capped_search_fits(h: Hist, width: nat) -> bool {
    &&& hist_occupied_fits(h)
    &&& forall|k2: nat|
        k2 <= 32 ==> #[trigger] capped_cost(h.counts(), h.enc_table(), h.has_table(), k2, width)
            <= usize::MAX
}

/// The width-capped total is bounded like the plain one: every
/// occupied remapped symbol below `bnd` costs at most `bnd + 33 +
/// width` bits under any `k` up to 32.
pub proof fn lemma_capped_cost_le(
    counts: Seq<usize>,
    enc: Seq<u32>,
    has: bool,
    k: nat,
    width: nat,
    bnd: nat,
    i: nat,
)
    requires
        k <= 32,
        forall|t: nat|
            t < counts.len() && counts[t as int] > 0 ==> (if has {
                map_through(enc, t)
            } else {
                t
            }) < bnd,
        i <= counts.len(),
    ensures
        capped_cost_upto(counts, enc, has, k, width, i) <= crate::hist::sum_counts(
            counts.subrange(0, i as int),
        ) * (bnd + 33 + width),
    decreases i,
{
    lemma_exp2_pos(k);
    if i == 0 {
        assert(counts.subrange(0, 0) =~= Seq::<usize>::empty());
    } else {
        lemma_capped_cost_le(counts, enc, has, k, width, bnd, (i - 1) as nat);
        let sub = counts.subrange(0, i as int);
        assert(sub.drop_last() =~= counts.subrange(0, i as int - 1));
        assert(sub.last() == counts[i as int - 1]);
        let c = counts[i as int - 1] as nat;
        let ssub = crate::hist::sum_counts(counts.subrange(0, i as int - 1));
        let per = (bnd + 33 + width) as nat;
        if ((i - 1) as nat) < counts.len() && counts[i as int - 1] > 0 {
            let v = if has {
                map_through(enc, (i - 1) as nat)
            } else {
                (i - 1) as nat
            };
            assert(v < bnd);
            assert(capped_len(k, width, v) <= per) by {
                if k < width {
                    vstd::arithmetic::div_mod::lemma_div_is_ordered_by_denominator(
                        v as int,
                        1,
                        exp2(k) as int,
                    );
                }
            }
            assert(c * capped_len(k, width, v) <= c * per) by {
                vstd::arithmetic::mul::lemma_mul_inequality(
                    capped_len(k, width, v) as int,
                    per as int,
                    c as int,
                );
                assert(capped_len(k, width, v) * c == c * capped_len(k, width, v))
                    by (nonlinear_arith);
                assert(per * c == c * per) by (nonlinear_arith);
            }
        }
        assert(ssub * per + c * per == (ssub + c) * per) by (nonlinear_arith);
    }
}

/// `capped_cost_checked` mirrors `rice_cost_checked` for the
/// width-capped coder.
fn capped_cost_checked(hist: &Hist, k: usize, width: usize) -> (r: Result<usize, CodecError>)
    requires
        hist.tables_usable(),
        k <= 32,
        width <= 32,
        hist.counts().len() <= u32::MAX,
    ensures
        match r {
            Ok(cst) => cst == capped_cost(
                hist.counts(),
                hist.enc_table(),
                hist.has_table(),
                k as nat,
                width as nat,
            ),
            Err(e) => e == CodecError::Cast || e == CodecError::Overflow,
        },
        (hist_occupied_fits(*hist) && capped_cost(
            hist.counts(),
            hist.enc_table(),
            hist.has_table(),
            k as nat,
            width as nat,
        ) <= usize::MAX) ==> r is Ok,
{
    let ghost cts = hist.counts();
    let ghost enc = hist.enc_table();
    let ghost has = hist.has_table();
    let m = exp2_u64(k);
    proof {
        lemma_exp2_pos(k as nat);
    }
    let n = hist.counts_len();
    let mut cost: usize = 0;
    let mut i: usize = 0;
    while i < n
        invariant
            hist.tables_usable(),
            cts == hist.counts(),
            enc == hist.enc_table(),
            has == hist.has_table(),
            k <= 32,
            width <= 32,
            m == exp2(k as nat),
            m >= 1,
            n == cts.len() <= u32::MAX,
            i <= n,
            cost == capped_cost_upto(cts, enc, has, k as nat, width as nat, i as nat),
        decreases n - i,
    {
        let c = hist.count_index(i);
        proof {
            assert(capped_cost_upto(cts, enc, has, k as nat, width as nat, (i + 1) as nat)
                == cost + (if ((i as nat) < cts.len() && cts[i as int] > 0) {
                (cts[i as int] as nat) * capped_len(
                    k as nat,
                    width as nat,
                    if has {
                        map_through(enc, i as nat)
                    } else {
                        i as nat
                    },
                )
            } else {
                0
            }));
        }
        if c > 0 {
            let v = match hist.map_encode(i as u32) {
                Ok(v) => v,
                Err(_) => {
                    proof {
                        if hist_occupied_fits(*hist) {
                            assert(hist.map_enc_spec(i as nat) <= u32::MAX);
                            assert(false);
                        }
                    }
                    return Err(CodecError::Cast);
                },
            };
            let clen_u64: u64 = if k < width {
                v as u64 / m + 1 + k as u64
            } else {
                width as u64
            };
            proof {
                assert(clen_u64 == capped_len(
                    k as nat,
                    width as nat,
                    hist.map_enc_spec(i as nat),
                ));
                assert((c as int) * (clen_u64 as int) < 0x1_0000_0000_0000_0000
                    * 0x2_0000_0000int) by (nonlinear_arith)
                    requires
                        c < 0x1_0000_0000_0000_0000,
                        clen_u64 < 0x2_0000_0000,
                ;
            }
            let term: u128 = (c as u128) * (clen_u64 as u128);
            if term > (usize::MAX - cost) as u128 {
                proof {
                    if capped_cost(cts, enc, has, k as nat, width as nat) <= usize::MAX {
                        lemma_capped_cost_mono(cts, enc, has, k as nat, width as nat, (i + 1) as nat);
                        assert(false);
                    }
                }
                return Err(CodecError::Overflow);
            }
            cost = cost + (term as usize);
        }
        i = i + 1;
    }
    Ok(cost)
}

/// A histogram freshly sorted into mutually inverse tables can always
/// drive the width-capped search, as long as its storage is small and
/// the count total leaves headroom for the largest code.
proof fn lemma_sorted_capped_fits(h: Hist, counts: Seq<usize>, width: nat)
    requires
        h.counts() == counts,
        h.has_table(),
        crate::hist::inverse_tables(h.enc_table(), h.dec_table()),
        h.enc_table().len() == crate::hist::nonzero_upper(counts),
        h.dec_table().len() == crate::hist::nonzero_upper(counts),
        counts.len() <= 0x4000_0000,
        width <= 32,
        crate::hist::sum_counts(counts) * (counts.len() + crate::hist::nonzero_upper(counts)
            + 33 + width) <= usize::MAX,
    ensures
        capped_search_fits(h, width),
{
    reveal(capped_search_fits);
    let bound = crate::hist::nonzero_upper(counts);
    let lim = counts.len() + bound;
    crate::hist::lemma_nonzero_upper_le(counts);
    assert forall|i: nat|
        i < counts.len() && counts[i as int] > 0 implies #[trigger] h.map_enc_spec(i)
        <= u32::MAX by {
        crate::hist::lemma_nonzero_upper_occupied(counts, i);
        crate::hist::lemma_map_through_below(h.enc_table(), i, bound);
    }
    assert forall|k2: nat| k2 <= 32 implies #[trigger] capped_cost(
        h.counts(),
        h.enc_table(),
        h.has_table(),
        k2,
        width,
    ) <= usize::MAX by {
        assert forall|t: nat|
            t < counts.len() && counts[t as int] > 0 implies (if h.has_table() {
            map_through(h.enc_table(), t)
        } else {
            t
        }) < lim by {
            crate::hist::lemma_nonzero_upper_occupied(counts, t);
            crate::hist::lemma_map_through_below(h.enc_table(), t, bound);
        }
        lemma_capped_cost_le(
            h.counts(),
            h.enc_table(),
            h.has_table(),
            k2,
            width,
            lim,
            counts.len(),
        );
        assert(counts.subrange(0, counts.len() as int) =~= counts);
    }
}

/// Golomb-Rice coder bounded by a symbol width, with optional remap
/// tables of its own: the parameter holder whose search space is
/// `0 ..= width`.
pub struct GolombRice {
    k: usize,
    width: usize,
    table: Option<(Vec<u32>, Vec<u32>)>,
}

impl GolombRice {
    pub closed spec fn k_spec(&self) -> nat {
        self.k as nat
    }

    pub closed spec fn width_spec(&self) -> nat {
        self.width as nat
    }

    pub closed spec fn has_table(&self) -> bool {
        self.table is Some
    }

    pub closed spec fn enc_table(&self) -> Seq<u32> {
        match self.table {
            Some((ref e, _)) => e@,
            None => Seq::empty(),
        }
    }

    pub closed spec fn dec_table(&self) -> Seq<u32> {
        match self.table {
            Some((_, ref d)) => d@,
            None => Seq::empty(),
        }
    }

    /// An eight-bit-symbol coder without a remap.
    pub fn new(k: usize) -> (r: GolombRice)
        ensures
            r.k_spec() == k,
            r.width_spec() == 8,
            !r.has_table(),
    {
        GolombRice { k, width: 8, table: None }
    }

    pub fn with_width(k: usize, width: usize) -> (r: GolombRice)
        ensures
            r.k_spec() == k,
            r.width_spec() == width,
            !r.has_table(),
    {
        GolombRice { k, width, table: None }
    }

    /// A coder over an explicit decode table; the encode table is its
    /// inverse.  The table must fit the symbol width.
    pub fn with_table(k: usize, width: usize, decode_table: &Vec<u32>) -> (r: GolombRice)
        requires
            width <= 32,
            decode_table@.len() <= exp2(width as nat),
            decode_table@.len() <= u32::MAX,
            forall|i: int|
                0 <= i < decode_table@.len() ==> decode_table@[i] < decode_table@.len(),
        ensures
            r.k_spec() == k,
            r.width_spec() == width,
            r.has_table(),
            r.dec_table() == decode_table@,
            r.enc_table().len() == decode_table@.len(),
            crate::hist::perm_table(decode_table@.len() as nat, decode_table@)
                ==> crate::hist::inverse_tables(r.enc_table(), r.dec_table()),
    {
        let h = Hist::with_table(decode_table);
        let enc = h.encode_table();
        let dec = h.decode_table();
        GolombRice { k, width, table: Some((enc, dec)) }
    }

    pub fn k(&self) -> (r: usize)
        ensures
            r == self.k_spec(),
    {
        self.k
    }

    pub fn width(&self) -> (r: usize)
        ensures
            r == self.width_spec(),
    {
        self.width
    }

    /// The encode table, if a remap is fixed.
    pub fn encode_table(&self) -> (r: Option<Vec<u32>>)
        ensures
            match r {
                Some(t) => self.has_table() && t@ == self.enc_table(),
                None => !self.has_table(),
            },
    {
        match &self.table {
            Some((e, _)) => Some(crate::hist::clone_u32_vec(e)),
            None => None,
        }
    }

    /// The decode table, if a remap is fixed.
    pub fn decode_table(&self) -> (r: Option<Vec<u32>>)
        ensures
            match r {
                Some(t) => self.has_table() && t@ == self.dec_table(),
                None => !self.has_table(),
            },
    {
        match &self.table {
            Some((_, d)) => Some(crate::hist::clone_u32_vec(d)),
            None => None,
        }
    }

    /// Sorts the histogram into a remap pair and takes the given `k`,
    /// or searches `0 ..= width` for the `k` of least width-capped
    /// cost, smallest on ties.
    pub fn from_hist(k: Option<usize>, width: usize, hist: &Hist) -> (r: Result<
        GolombRice,
        CodecError,
    >)
        requires
            width <= 32,
            crate::hist::nonzero_upper(hist.counts()) <= u32::MAX,
            hist.counts().len() <= u32::MAX,
            forall|v: nat|
                v < crate::hist::nonzero_upper(hist.counts()) ==> crate::hist::strided_sum(
                    hist.counts(),
                    v,
                    crate::hist::nonzero_upper(hist.counts()),
                ) <= usize::MAX,
        ensures
            r matches Ok(g) ==> {
                let bound = crate::hist::nonzero_upper(hist.counts());
                &&& g.width_spec() == width
                &&& g.has_table()
                &&& g.dec_table().len() == bound
                &&& g.enc_table().len() == bound
                &&& crate::hist::inverse_tables(g.enc_table(), g.dec_table())
                &&& crate::hist::sorted_rank_table(hist.counts(), bound, g.dec_table())
                &&& (k matches Some(kk) ==> g.k_spec() == kk)
                &&& (k is None && bound >= 1 ==> g.k_spec() <= width && (forall|k2: nat|
                    k2 <= width ==> capped_cost(
                        hist.counts(),
                        g.enc_table(),
                        true,
                        g.k_spec(),
                        width as nat,
                    ) <= #[trigger] capped_cost(
                        hist.counts(),
                        g.enc_table(),
                        true,
                        k2,
                        width as nat,
                    )))
            },
            k is Some ==> r is Ok,
            (k is None && hist.counts().len() <= 0x4000_0000 && crate::hist::sum_counts(
                hist.counts(),
            ) * (hist.counts().len() + crate::hist::nonzero_upper(hist.counts()) + 33 + width)
                <= usize::MAX) ==> r is Ok,
            r matches Err(e) ==> e == CodecError::Cast || e == CodecError::Overflow,
    {
        let ghost searchable = k is None && hist.counts().len() <= 0x4000_0000
            && crate::hist::sum_counts(hist.counts()) * (hist.counts().len()
            + crate::hist::nonzero_upper(hist.counts()) + 33 + width) <= usize::MAX;
        let ghost cts0 = hist.counts();
        let mut h = hist.duplicate();
        h.sort();
        let ghost enc = h.enc_table();
        let kk: usize = match k {
            Some(kk) => kk,
            None => {
                let bound = h.bound();
                if bound == 0 {
                    let enc_t0 = h.encode_table();
                    let dec_t0 = h.decode_table();
                    return Ok(GolombRice { k: 0, width, table: Some((enc_t0, dec_t0)) });
                }
                proof {
                    if searchable {
                        lemma_sorted_capped_fits(h, hist.counts(), width as nat);
                    }
                }
                let mut best_k: usize = 0;
                let mut best_cost: usize = match capped_cost_checked(&h, 0, width) {
                    Ok(cst) => cst,
                    Err(e) => {
                        proof {
                            if searchable {
                                reveal(capped_search_fits);
                                assert(false);
                            }
                        }
                        return Err(e);
                    },
                };
                let mut kc: usize = 1;
                while kc <= width
                    invariant
                        k is None,
                        searchable == (k is None && hist.counts().len() <= 0x4000_0000
                            && crate::hist::sum_counts(hist.counts()) * (hist.counts().len()
                            + crate::hist::nonzero_upper(hist.counts()) + 33 + width)
                            <= usize::MAX),
                        searchable ==> capped_search_fits(h, width as nat),
                        h.tables_usable(),
                        cts0 == h.counts(),
                        enc == h.enc_table(),
                        h.has_table(),
                        h.counts().len() <= u32::MAX,
                        width <= 32,
                        1 <= kc <= width + 1,
                        best_k < kc,
                        best_cost == capped_cost(cts0, enc, true, best_k as nat, width as nat),
                        forall|k2: nat|
                            k2 < kc ==> best_cost <= #[trigger] capped_cost(
                                cts0,
                                enc,
                                true,
                                k2,
                                width as nat,
                            ),
                    decreases width + 1 - kc,
                {
                    let cst = match capped_cost_checked(&h, kc, width) {
                        Ok(cst) => cst,
                        Err(e) => {
                            proof {
                                if searchable {
                                    reveal(capped_search_fits);
                                    assert(false);
                                }
                            }
                            return Err(e);
                        },
                    };
                    if cst < best_cost {
                        best_cost = cst;
                        best_k = kc;
                    }
                    kc = kc + 1;
                }
                best_k
            },
        };
        let enc_t = h.encode_table();
        let dec_t = h.decode_table();
        Ok(GolombRice { k: kk, width, table: Some((enc_t, dec_t)) })
    }

    /// `from_hist` against the histogram of a sample.
    pub fn from_seed(k: Option<usize>, width: usize, seed: &Vec<u32>) -> (r: Result<
        GolombRice,
        CodecError,
    >)
        requires
            width <= 32,
            seed@.len() < usize::MAX,
            forall|i: int| 0 <= i < seed@.len() ==> seed@[i] < u32::MAX && seed@[i] < usize::MAX,
        ensures
            r matches Ok(g) ==> g.width_spec() == width && g.has_table() && (k matches Some(kk)
                ==> g.k_spec() == kk),
            k is Some ==> r is Ok,
            (k is None && crate::hist::seed_bound(seed@) <= 0x4000_0000 && seed@.len() * (2
                * crate::hist::seed_bound(seed@) + 65) <= usize::MAX) ==> r is Ok,
            r matches Err(e) ==> e == CodecError::Cast || e == CodecError::Overflow,
            forall|counts: Seq<usize>|
                #[trigger] counts_match(seed@, counts) ==> (r matches Ok(g) ==> {
                    let bound = crate::hist::nonzero_upper(counts);
                    &&& g.dec_table().len() == bound
                    &&& g.enc_table().len() == bound
                    &&& crate::hist::inverse_tables(g.enc_table(), g.dec_table())
                    &&& crate::hist::sorted_rank_table(counts, bound, g.dec_table())
                    &&& (k is None && bound >= 1 ==> g.k_spec() <= width && (forall|k2: nat|
                        k2 <= width ==> capped_cost(
                            counts,
                            g.enc_table(),
                            true,
                            g.k_spec(),
                            width as nat,
                        ) <= #[trigger] capped_cost(
                            counts,
                            g.enc_table(),
                            true,
                            k2,
                            width as nat,
                        )))
                }),
    {
        let hist = Hist::from_seed(seed);
        proof {
            crate::hist::lemma_nonzero_upper_le(hist.counts());
            lemma_seed_bound(seed@, u32::MAX as nat);
            assert forall|v: nat|
                v <= u32::MAX implies (if v < hist.counts().len() {
                hist.counts()[v as int] as nat
            } else {
                0nat
            }) == occurrences(seed@, v) by {
                assert(hist.count_at(v) == occurrences(seed@, v));
            }
            lemma_seed_sum(seed@, hist.counts());
            assert forall|v: nat|
                v < crate::hist::nonzero_upper(hist.counts()) implies crate::hist::strided_sum(
                hist.counts(),
                v,
                crate::hist::nonzero_upper(hist.counts()),
            ) <= usize::MAX by {
                crate::hist::lemma_strided_le_sum(
                    hist.counts(),
                    v,
                    crate::hist::nonzero_upper(hist.counts()),
                );
            }
        }
        proof {
            if k is None && crate::hist::seed_bound(seed@) <= 0x4000_0000 && seed@.len() * (2
                * crate::hist::seed_bound(seed@) + 65) <= usize::MAX {
                let sm = crate::hist::sum_counts(hist.counts());
                let ln = hist.counts().len();
                let nu = crate::hist::nonzero_upper(hist.counts());
                let w1 = ln + nu + 33 + width;
                let w2 = 2 * crate::hist::seed_bound(seed@) + 65;
                assert(w1 <= w2);
                assert(sm * w1 <= sm * w2) by {
                    vstd::arithmetic::mul::lemma_mul_inequality(
                        w1 as int,
                        w2 as int,
                        sm as int,
                    );
                    assert(w1 * sm == sm * w1) by (nonlinear_arith);
                    assert(w2 * sm == sm * w2) by (nonlinear_arith);
                }
                assert(sm * w2 <= seed@.len() * w2) by {
                    vstd::arithmetic::mul::lemma_mul_inequality(
                        sm as int,
                        seed@.len() as int,
                        w2 as int,
                    );
                }
            }
        }
        let r = GolombRice::from_hist(k, width, &hist);
        proof {
            assert forall|v: nat| v < hist.counts().len() implies #[trigger] hist.counts()[v as int]
                == occurrences(seed@, v) by {
                assert(hist.count_at(v) == occurrences(seed@, v));
            }
            assert(counts_match(seed@, hist.counts()));
            assert forall|counts: Seq<usize>| #[trigger] counts_match(seed@, counts) implies counts
                == hist.counts() by {
                assert(counts =~= hist.counts());
            }
        }
        r
    }
}

/// The counts of a seeded histogram sum to at most the seed length.
proof fn lemma_seed_sum(seed: Seq<u32>, counts: Seq<usize>)
    requires
        counts.len() <= u32::MAX + 1,
        forall|v: nat| v <= u32::MAX ==> (if v < counts.len() {
            counts[v as int] as nat
        } else {
            0nat
        }) == occurrences(seed, v),
        seed.len() < usize::MAX,
    ensures
        crate::hist::sum_counts(counts) <= seed.len(),
{
    lemma_occ_sum(seed, counts, counts.len() as int);
    assert(counts.subrange(0, counts.len() as int) =~= counts);
}

proof fn lemma_occ_sum(seed: Seq<u32>, counts: Seq<usize>, n: int)
    requires
        0 <= n <= counts.len(),
        counts.len() <= u32::MAX + 1,
        forall|v: nat| v <= u32::MAX ==> (if v < counts.len() {
            counts[v as int] as nat
        } else {
            0nat
        }) == occurrences(seed, v),
    ensures
        crate::hist::sum_counts(counts.subrange(0, n)) <= seed.len(),
    decreases n,
{
    if n == 0 {
        assert(counts.subrange(0, 0) =~= Seq::<usize>::empty());
    } else {
        lemma_occ_prefix_sum(seed, counts, n);
    }
}

/// Summing occurrence counts of distinct values never exceeds the
/// sequence length.
proof fn lemma_occ_prefix_sum(seed: Seq<u32>, counts: Seq<usize>, n: int)
    requires
        0 < n <= counts.len(),
        counts.len() <= u32::MAX + 1,
        forall|v: nat| v <= u32::MAX ==> (if v < counts.len() {
            counts[v as int] as nat
        } else {
            0nat
        }) == occurrences(seed, v),
    ensures
        crate::hist::sum_counts(counts.subrange(0, n)) <= occ_below(seed, n as nat),
        occ_below(seed, n as nat) <= seed.len(),
    decreases n,
{
    lemma_occ_below_le(seed, n as nat);
    let sub = counts.subrange(0, n);
    assert(sub.last() == counts[n - 1]);
    assert(sub.drop_last() =~= counts.subrange(0, n - 1));
    if n == 1 {
        assert(crate::hist::sum_counts(counts.subrange(0, 0)) == 0) by {
            assert(counts.subrange(0, 0) =~= Seq::<usize>::empty());
        }
    } else {
        lemma_occ_prefix_sum(seed, counts, n - 1);
    }
}

/// Occurrences of every value below `n`, summed.
spec fn occ_below(seed: Seq<u32>, n: nat) -> nat
    decreases n,
{
    if n == 0 {
        0
    } else {
        occ_below(seed, (n - 1) as nat) + occurrences(seed, (n - 1) as nat)
    }
}

proof fn lemma_occ_below_le(seed: Seq<u32>, n: nat)
    ensures
        occ_below(seed, n) <= seed.len(),
    decreases seed.len(),
{
    if seed.len() == 0 {
        lemma_occ_below_zero(seed, n);
    } else {
        lemma_occ_below_le(seed.drop_last(), n);
        lemma_occ_below_step(seed, n);
    }
}

proof fn lemma_occ_below_zero(seed: Seq<u32>, n: nat)
    requires
        seed.len() == 0,
    ensures
        occ_below(seed, n) == 0,
    decreases n,
{
    if n > 0 {
        lemma_occ_below_zero(seed, (n - 1) as nat);
    }
}

/// Dropping the last element lowers the summed occurrences by at most
/// one.
proof fn lemma_occ_below_step(seed: Seq<u32>, n: nat)
    requires
        seed.len() >= 1,
    ensures
        occ_below(seed, n) <= occ_below(seed.drop_last(), n) + 1,
    decreases n,
{
    if n > 0 {
        lemma_occ_below_step(seed, (n - 1) as nat);
        if (seed.last() as nat) == (n - 1) as nat {
            lemma_occ_below_exact(seed, (n - 1) as nat);
        }
    }
}

/// Values other than the dropped one keep their counts.
proof fn lemma_occ_below_exact(seed: Seq<u32>, v: nat)
    requires
        seed.len() >= 1,
        seed.last() as nat == v,
    ensures
        occ_below(seed, v) == occ_below(seed.drop_last(), v),
{
    lemma_occ_below_exact_aux(seed, v, v);
}

proof fn lemma_occ_below_exact_aux(seed: Seq<u32>, n: nat, skipv: nat)
    requires
        seed.len() >= 1,
        seed.last() as nat == skipv,
        n <= skipv,
    ensures
        occ_below(seed, n) == occ_below(seed.drop_last(), n),
    decreases n,
{
    if n > 0 {
        lemma_occ_below_exact_aux(seed, (n - 1) as nat, skipv);
        assert(occurrences(seed, (n - 1) as nat) == occurrences(seed.drop_last(), (n - 1) as nat));
    }
}


/// Round trip for the stream form: a sequence that holds exactly the
/// Rice codes of `bytes` from `off` to its end reads back as `bytes`.
pub proof fn lemma_rice_stream_roundtrip(k: nat, bytes: Seq<u8>, s: Seq<bool>, off: nat)
    requires
        s.len() == off + rice_stream(k, bytes).len(),
        s.subrange(off as int, s.len() as int) == rice_stream(k, bytes),
    ensures
        rice_stream_decode(k, s, off) == Ok::<Seq<u8>, CodecError>(bytes),
    decreases bytes.len(),
{
    let stream = rice_stream(k, bytes);
    if bytes.len() == 0 {
        assert(off >= s.len());
        assert(bytes =~= Seq::<u8>::empty());
    } else {
        let b0 = bytes.first();
        let code = rice_bits(k, b0 as nat);
        let rl = code.len();
        lemma_rice_len(k, b0 as nat);
        let rest = rice_stream(k, bytes.drop_first());
        assert(stream == code + rest);
        assert forall|i: int| 0 <= i < stream.len() implies s[off + i] == stream[i] by {
            assert(s.subrange(off as int, s.len() as int)[i] == s[off + i]);
        }
        assert(s.subrange(off as int, (off + rl) as int) =~= code) by {
            assert(forall|i: int| 0 <= i < rl ==> s[off + i] == stream[i] && stream[i] == code[i]);
        }
        lemma_rice_roundtrip(k, b0 as nat, s, off);
        assert(rice_decode(k, s, off) == Ok::<(nat, nat), CodecError>((b0 as nat, rl)));
        assert(rl >= 1);
        assert(s.subrange((off + rl) as int, s.len() as int) =~= rest) by {
            assert(forall|i: int|
                0 <= i < rest.len() ==> s[off + rl + i] == stream[rl + i] && stream[rl + i]
                    == rest[i]);
        }
        lemma_rice_stream_roundtrip(k, bytes.drop_first(), s, off + rl);
        assert(seq![b0] + bytes.drop_first() =~= bytes);
    }
}

/// Round trip for the remapped stream form: under mutually inverse
/// tables, whatever `encode` produces, `decode` restores.
pub proof fn lemma_bij_stream_roundtrip(
    k: nat,
    e: Seq<u32>,
    d: Seq<u32>,
    has: bool,
    bytes: Seq<u8>,
    sbits: Seq<bool>,
    s: Seq<bool>,
    off: nat,
)
    requires
        has ==> crate::hist::inverse_tables(e, d),
        bij_stream(k, e, has, bytes) == Ok::<Seq<bool>, CodecError>(sbits),
        s.len() == off + sbits.len(),
        s.subrange(off as int, s.len() as int) == sbits,
    ensures
        bij_stream_decode(k, d, has, s, off) == Ok::<Seq<u8>, CodecError>(bytes),
    decreases bytes.len(),
{
    if bytes.len() == 0 {
        assert(off >= s.len());
        assert(bytes =~= Seq::<u8>::empty());
    } else {
        let b0 = bytes.first();
        let m = if has {
            map_through(e, b0 as nat)
        } else {
            b0 as nat
        };
        assert(m <= u32::MAX);
        let code = rice_bits(k, m);
        let rl = code.len();
        lemma_rice_len(k, m);
        let rest = (match bij_stream(k, e, has, bytes.drop_first()) {
            Ok(r) => r,
            Err(_) => Seq::empty(),
        });
        assert(bij_stream(k, e, has, bytes.drop_first()) == Ok::<Seq<bool>, CodecError>(rest));
        assert(sbits == code + rest);
        assert forall|i: int| 0 <= i < sbits.len() implies s[off + i] == sbits[i] by {
            assert(s.subrange(off as int, s.len() as int)[i] == s[off + i]);
        }
        assert(s.subrange(off as int, (off + rl) as int) =~= code) by {
            assert(forall|i: int| 0 <= i < rl ==> s[off + i] == sbits[i] && sbits[i] == code[i]);
        }
        lemma_rice_roundtrip(k, m, s, off);
        assert(rice_decode(k, s, off) == Ok::<(nat, nat), CodecError>((m, rl)));
        let w = if has {
            map_through(d, m)
        } else {
            m
        };
        assert(w == b0 as nat) by {
            if has {
                crate::hist::lemma_map_roundtrip(e, d, b0 as nat);
            }
        }
        assert(bij_decode(k, d, has, s, off) == Ok::<(nat, nat), CodecError>((b0 as nat, rl)));
        assert(rl >= 1);
        assert(s.subrange((off + rl) as int, s.len() as int) =~= rest) by {
            assert(forall|i: int|
                0 <= i < rest.len() ==> s[off + rl + i] == sbits[rl + i] && sbits[rl + i]
                    == rest[i]);
        }
        lemma_bij_stream_roundtrip(k, e, d, has, bytes.drop_first(), rest, s, off + rl);
        assert(seq![b0] + bytes.drop_first() =~= bytes);
    }
}


/// The total coded size is bounded by the count total times the
/// largest code: every remapped occupied symbol below `bnd` costs at
/// most `bnd + 33` bits under any `k` up to 32.
pub proof fn lemma_rice_cost_le(
    counts: Seq<usize>,
    enc: Seq<u32>,
    has: bool,
    k: nat,
    bnd: nat,
    i: nat,
)
    requires
        k <= 32,
        forall|t: nat|
            t < counts.len() && counts[t as int] > 0 ==> (if has {
                map_through(enc, t)
            } else {
                t
            }) < bnd,
        i <= counts.len(),
    ensures
        rice_cost_upto(counts, enc, has, k, i) <= crate::hist::sum_counts(
            counts.subrange(0, i as int),
        ) * (bnd + 33),
    decreases i,
{
    lemma_exp2_pos(k);
    if i == 0 {
        assert(counts.subrange(0, 0) =~= Seq::<usize>::empty());
    } else {
        lemma_rice_cost_le(counts, enc, has, k, bnd, (i - 1) as nat);
        let sub = counts.subrange(0, i as int);
        assert(sub.drop_last() =~= counts.subrange(0, i as int - 1));
        assert(sub.last() == counts[i as int - 1]);
        let term = rice_cost_term(counts, enc, has, k, (i - 1) as nat);
        let c = counts[i as int - 1] as nat;
        let ssub = crate::hist::sum_counts(counts.subrange(0, i as int - 1));
        assert(term <= c * (bnd + 33)) by {
            if ((i - 1) as nat) < counts.len() && counts[i as int - 1] > 0 {
                let v = if has {
                    map_through(enc, (i - 1) as nat)
                } else {
                    (i - 1) as nat
                };
                assert(v < bnd);
                assert(rice_len(k, v) <= v + 33) by {
                    vstd::arithmetic::div_mod::lemma_div_is_ordered_by_denominator(
                        v as int,
                        1,
                        exp2(k) as int,
                    );
                }
                vstd::arithmetic::mul::lemma_mul_inequality(
                    rice_len(k, v) as int,
                    (bnd + 33) as int,
                    c as int,
                );
                assert(rice_len(k, v) * c == c * rice_len(k, v)) by (nonlinear_arith);
                assert((bnd + 33) * c == c * (bnd + 33)) by (nonlinear_arith);
            }
        }
        assert(ssub * (bnd + 33) + c * (bnd + 33) == (ssub + c) * (bnd + 33))
            by (nonlinear_arith);
    }
}

} // verus!
