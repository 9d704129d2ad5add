//! The GLZ pattern-matching encoder and granular decoder.
//!
//! GLZ scans a slice backward and covers it with two kinds of
//! operation: an immediate run `{count, byte}` of one repeated byte,
//! and a back-reference `{offset, size}` into already-produced output.
//! Operations become small symbols — a byte, a biased reference size,
//! or an argument nibble — which a remapped Golomb-Rice coder turns
//! into bits.  Decoding reads operations at any bit offset, so any
//! sub-range of the original content can be recovered independently;
//! an explicit recursion-depth cap and a cycle cap bound the work on
//! malformed input.
//!
//! The parameters: `l` is the reference-length exponent (references
//! cover `2 ..= exp2(l) + 1` bytes), `m` the width of one argument
//! nibble, and `k` the Rice parameter of the entropy coder.

use vstd::prelude::*;

use crate::bits::BitBuf;
use crate::bits::exp2;
use crate::bits::exp2_u64;
use crate::bits::lemma_exp2_mono;
use crate::bits::lemma_exp2_pos;
use crate::errors::CodecError;
use crate::hist::Hist;
use crate::hist::map_through;
use crate::rice::BijectEncoder;
use crate::rice::GolombRice_;
use crate::rice::bij_decode;
use crate::rice::rice_bits;

verus! {

/// One GLZ operation: a literal run or a back-reference.
#[derive(Clone, Copy, Debug, PartialEq, Eq, Structural)]
pub enum GLZSym {
    /// `count` copies of `imm`.
    Imm { count: usize, imm: u8 },
    /// Copy `size` bytes starting `off` bits past the end of this
    /// operation's code.
    Ref { off: usize, size: usize },
}

/// The coding configuration of a GLZ instance, for specifications.
pub struct GlzCfg {
    pub k: nat,
    pub enc: Seq<u32>,
    pub dec: Seq<u32>,
    pub has: bool,
    pub l: nat,
    pub m: nat,
}

/// The first symbol value that names a reference size.
pub open spec fn ref_base() -> nat {
    256
}

/// The first symbol value that names an argument nibble.
pub open spec fn arg_base(c: GlzCfg) -> nat {
    256 + exp2(c.l)
}

/// One past the largest symbol value the configuration uses.
pub open spec fn sym_bound(c: GlzCfg) -> nat {
    256 + exp2(c.l) + exp2(c.m)
}

/// The remapped form of a symbol.
pub open spec fn remap_enc(c: GlzCfg, v: nat) -> nat {
    if c.has {
        map_through(c.enc, v)
    } else {
        v
    }
}

/// The machine limits and table shape every coding path relies on.
pub open spec fn cfg_wf(c: GlzCfg) -> bool {
    &&& c.k <= 31
    &&& c.l <= 20
    &&& c.m <= 20
    &&& (c.has ==> {
        &&& 1 <= c.enc.len() <= u32::MAX
        &&& 1 <= c.dec.len() <= u32::MAX
    })
}

/// The tables, if any, invert each other and keep every used symbol
/// representable: what a round trip additionally needs.
pub open spec fn cfg_bijective(c: GlzCfg) -> bool {
    &&& cfg_wf(c)
    &&& (c.has ==> crate::hist::inverse_tables(c.enc, c.dec))
    &&& forall|v: nat| v < sym_bound(c) ==> #[trigger] remap_enc(c, v) <= u32::MAX
}

/// The argument-nibble symbols that carry `a`: most-significant chunk
/// first, each chunk biased down by one so that zero needs no nibbles,
/// and offset into the nibble symbol range.
pub open spec fn arg_syms(c: GlzCfg, a: nat) -> Seq<nat>
    decreases a,
    via arg_syms_decreases
{
    if a == 0 {
        Seq::empty()
    } else {
        arg_syms(c, ((a - 1) as nat) / exp2(c.m)) + seq![
            ((a - 1) as nat) % exp2(c.m) + arg_base(c),
        ]
    }
}

#[via_fn]
proof fn arg_syms_decreases(c: GlzCfg, a: nat) {
    lemma_exp2_pos(c.m);
}

/// The nibble values of `v`, read back to front, offset by `base`.
spec fn rev_syms(v: Seq<u32>, base: nat) -> Seq<nat>
    decreases v.len(),
{
    if v.len() == 0 {
        Seq::empty()
    } else {
        seq![v.last() as nat + base] + rev_syms(v.drop_last(), base)
    }
}

proof fn lemma_rev_syms(v: Seq<u32>, base: nat)
    ensures
        rev_syms(v, base).len() == v.len(),
        forall|i: int|
            0 <= i < v.len() ==> rev_syms(v, base)[i] == v[v.len() - 1 - i] as nat + base,
    decreases v.len(),
{
    if v.len() > 0 {
        lemma_rev_syms(v.drop_last(), base);
    }
}

/// The symbol sequence of one operation, or the error its arguments
/// force: a zero count is `BadCount`, a size outside the configured
/// range `BadSize`, and an argument beyond 32 bits `Overflow`.
pub open spec fn op_syms(c: GlzCfg, op: GLZSym) -> Result<Seq<nat>, CodecError> {
    match op {
        GLZSym::Imm { count, imm } => {
            if count < 1 {
                Err(CodecError::BadCount)
            } else if count - 1 > u32::MAX {
                Err(CodecError::Overflow)
            } else {
                Ok(arg_syms(c, (count - 1) as nat) + seq![imm as nat])
            }
        },
        GLZSym::Ref { off, size } => {
            if size < 2 || size > exp2(c.l) + 1 {
                Err(CodecError::BadSize)
            } else if off > u32::MAX {
                Err(CodecError::Overflow)
            } else {
                Ok(arg_syms(c, off as nat) + seq![(size - 2) as nat + ref_base()])
            }
        },
    }
}

/// The bits of a symbol sequence: each symbol remapped and Rice-coded;
/// `Cast` when a remapped symbol does not fit 32 bits.
pub open spec fn syms_bits(c: GlzCfg, syms: Seq<nat>) -> Result<Seq<bool>, CodecError>
    decreases syms.len(),
{
    if syms.len() == 0 {
        Ok(Seq::empty())
    } else if remap_enc(c, syms.first()) > u32::MAX {
        Err(CodecError::Cast)
    } else {
        match syms_bits(c, syms.drop_first()) {
            Ok(rest) => Ok(rice_bits(c.k, remap_enc(c, syms.first())) + rest),
            Err(e) => Err(e),
        }
    }
}

/// The wire form of one operation.
pub open spec fn op_bits(c: GlzCfg, op: GLZSym) -> Result<Seq<bool>, CodecError> {
    match op_syms(c, op) {
        Ok(syms) => syms_bits(c, syms),
        Err(e) => Err(e),
    }
}

/// Reading one operation at `off` with `arg` nibbles already folded in.
///
/// Mirrors the decoder exactly: nibble symbols accumulate into the
/// argument; a reference-size symbol closes a reference, a byte symbol
/// an immediate.  An argument growing past 32 bits, or a count past the
/// machine word, is a `Cast` error.
pub open spec fn decode_op_arg(c: GlzCfg, s: Seq<bool>, off: nat, arg: nat) -> Result<
    (GLZSym, nat),
    CodecError,
>
    decreases s.len() - off,
{
    match bij_decode(c.k, c.dec, c.has, s, off) {
        Err(e) => Err(e),
        Ok((sym, diff)) => {
            if diff < 1 || off + diff > s.len() {
                Err(CodecError::Truncated)
            } else if sym >= arg_base(c) {
                let arg2 = arg * exp2(c.m) + (sym - arg_base(c)) + 1;
                if arg2 > u32::MAX {
                    Err(CodecError::Cast)
                } else {
                    decode_op_arg(c, s, off + diff, arg2 as nat)
                }
            } else if sym >= ref_base() {
                Ok((GLZSym::Ref { off: arg as usize, size: ((sym - 256) + 2) as usize }, off + diff))
            } else {
                if arg + 1 > usize::MAX {
                    Err(CodecError::Cast)
                } else {
                    Ok((GLZSym::Imm { count: (arg + 1) as usize, imm: sym as u8 }, off + diff))
                }
            }
        },
    }
}

/// Reading one operation at `off`.
pub open spec fn decode_op(c: GlzCfg, s: Seq<bool>, off: nat) -> Result<(GLZSym, nat), CodecError> {
    decode_op_arg(c, s, off, 0)
}


/// The GLZ engine: an immutable configuration of `l`, `m` and an
/// entropy coder, shared read-only by any number of decodes.
pub struct GLZ {
    l: usize,
    m: usize,
    rice: BijectEncoder,
}

impl GLZ {
    /// The coding configuration.
    pub closed spec fn cfg(&self) -> GlzCfg {
        GlzCfg {
            k: self.rice.coder().k_spec(),
            enc: self.rice.remap().enc_table(),
            dec: self.rice.remap().dec_table(),
            has: self.rice.remap().has_table(),
            l: self.l as nat,
            m: self.m as nat,
        }
    }

    /// The machine limits every coding path relies on.
    pub open spec fn wf(&self) -> bool {
        cfg_wf(self.cfg())
    }

    pub fn with_config(k: usize, l: usize, m: usize) -> (r: GLZ)
        ensures
            r.cfg().k == k,
            r.cfg().l == l,
            r.cfg().m == m,
            !r.cfg().has,
            r.cfg().enc == Seq::<u32>::empty(),
            r.cfg().dec == Seq::<u32>::empty(),
    {
        let h = Hist::new();
        proof {
            crate::hist::lemma_no_table(h);
        }
        let rice = BijectEncoder::new(GolombRice_::new(k), h);
        GLZ { l, m, rice }
    }

    /// Builds an engine whose coder remaps through an explicit decode
    /// table, as read back from a container.
    pub fn with_table(k: usize, l: usize, m: usize, decode_table: &Vec<u32>) -> (r: GLZ)
        requires
            decode_table@.len() <= u32::MAX,
            forall|i: int|
                0 <= i < decode_table@.len() ==> decode_table@[i] < decode_table@.len(),
        ensures
            r.cfg().k == k,
            r.cfg().l == l,
            r.cfg().m == m,
            r.cfg().has,
            r.cfg().dec == decode_table@,
            r.cfg().enc.len() == decode_table@.len(),
            crate::hist::perm_table(decode_table@.len() as nat, decode_table@)
                ==> crate::hist::inverse_tables(r.cfg().enc, r.cfg().dec),
    {
        let rice = BijectEncoder::new(GolombRice_::new(k), Hist::with_table(decode_table));
        GLZ { l, m, rice }
    }

    pub fn k(&self) -> (r: usize)
        ensures
            r == self.cfg().k,
    {
        self.rice.encoder().k()
    }

    pub fn l(&self) -> (r: usize)
        ensures
            r == self.cfg().l,
    {
        self.l
    }

    pub fn m(&self) -> (r: usize)
        ensures
            r == self.cfg().m,
    {
        self.m
    }

    /// The encode table of the remap, empty when none is fixed.
    pub fn encode_table(&self) -> (r: Vec<u32>)
        ensures
            r@ == self.cfg().enc,
    {
        self.rice.bijecter().encode_table()
    }

    /// The decode table of the remap, empty when none is fixed.
    pub fn decode_table(&self) -> (r: Vec<u32>)
        ensures
            r@ == self.cfg().dec,
    {
        self.rice.bijecter().decode_table()
    }

    /// Emits the wire form of one operation.
    #[verifier::rlimit(30)]
    pub fn encode_sym(&self, sym: GLZSym) -> (r: Result<BitBuf, CodecError>)
        requires
            self.wf(),
        ensures
            match r {
                Ok(b) => op_bits(self.cfg(), sym) == Ok::<Seq<bool>, CodecError>(b@),
                Err(e) => op_bits(self.cfg(), sym) == Err::<Seq<bool>, CodecError>(e),
            },
    {
        let ghost c = self.cfg();
        proof {
            assert(self.rice.usable());
            lemma_exp2_pos(c.l);
            lemma_exp2_pos(c.m);
            lemma_exp2_mono(c.l, 20);
            lemma_exp2_mono(c.m, 20);
            assert(exp2(20) == 0x10_0000) by {
                reveal_with_fuel(exp2, 21);
            }
        }
        let lbase = exp2_u64(self.l);
        let mbase = exp2_u64(self.m);
        let arg0: u64;
        let last_sym: u32;
        match sym {
            GLZSym::Imm { count, imm } => {
                if count < 1 {
                    return Err(CodecError::BadCount);
                }
                if count - 1 > u32::MAX as usize {
                    return Err(CodecError::Overflow);
                }
                arg0 = (count - 1) as u64;
                last_sym = imm as u32;
            },
            GLZSym::Ref { off, size } => {
                let top = exp2_u64(self.l) as usize;
                if size < 2 || size - 2 > top - 1 {
                    return Err(CodecError::BadSize);
                }
                if off > u32::MAX as usize {
                    return Err(CodecError::Overflow);
                }
                arg0 = off as u64;
                last_sym = (size - 2) as u32 + 256;
            },
        }
        let ghost syms = (match op_syms(c, sym) {
            Ok(sy) => sy,
            Err(_) => Seq::empty(),
        });
        // chunks come out least-significant first; the wire order is the
        // reverse
        let mut rev_chunks: Vec<u32> = Vec::new();
        let mut a: u64 = arg0;
        proof {
            assert(arg_syms(c, arg0 as nat) + rev_syms(rev_chunks@, arg_base(c)) =~= arg_syms(
                c,
                arg0 as nat,
            ));
        }
        while a != 0
            invariant
                mbase == exp2(c.m),
                mbase >= 1,
                mbase <= 0x10_0000,
                a <= arg0 <= u32::MAX,
                arg_syms(c, arg0 as nat) == arg_syms(c, a as nat) + rev_syms(
                    rev_chunks@,
                    arg_base(c),
                ),
                forall|i: int| 0 <= i < rev_chunks@.len() ==> rev_chunks@[i] < mbase,
            decreases a,
        {
            let ghost pre = rev_chunks@;
            let ghost a_pre = a as nat;
            a = a - 1;
            rev_chunks.push((a % mbase) as u32);
            a = a / mbase;
            proof {
                assert(rev_chunks@.drop_last() =~= pre);
                assert(rev_chunks@.last() as nat == ((a_pre - 1) as nat) % exp2(c.m));
                assert(rev_syms(rev_chunks@, arg_base(c)) == seq![
                    ((a_pre - 1) as nat) % exp2(c.m) + arg_base(c),
                ] + rev_syms(pre, arg_base(c)));
                assert(arg_syms(c, a_pre) == arg_syms(c, a as nat) + seq![
                    ((a_pre - 1) as nat) % exp2(c.m) + arg_base(c),
                ]);
                assert(arg_syms(c, a as nat) + rev_syms(rev_chunks@, arg_base(c)) =~= (arg_syms(
                    c,
                    a as nat,
                ) + seq![((a_pre - 1) as nat) % exp2(c.m) + arg_base(c)]) + rev_syms(
                    pre,
                    arg_base(c),
                ));
            }
        }
        // emit the nibbles most-significant first, then the closing
        // symbol
        let nch = rev_chunks.len();
        let mut out = BitBuf::new();
        let mut i: usize = 0;
        let ghost chunks = arg_syms(c, arg0 as nat);
        proof {
            assert(arg_syms(c, 0nat) + rev_syms(rev_chunks@, arg_base(c)) =~= rev_syms(
                rev_chunks@,
                arg_base(c),
            ));
            lemma_rev_syms(rev_chunks@, arg_base(c));
            assert(syms.drop_last() =~= chunks);
            assert(syms.len() == chunks.len() + 1);
            assert(syms.last() == last_sym as nat);
            assert(syms.skip(0) =~= syms);
        }
        while i < nch
            invariant
                self.wf(),
                c == self.cfg(),
                self.rice.usable(),
                lbase == exp2(c.l),
                lbase <= 0x10_0000,
                exp2(c.m) <= 0x10_0000,
                nch == rev_chunks@.len() == chunks.len(),
                chunks == rev_syms(rev_chunks@, arg_base(c)),
                forall|j: int| 0 <= j < rev_chunks@.len() ==> rev_chunks@[j] < exp2(c.m),
                i <= nch,
                syms.len() == chunks.len() + 1,
                forall|j: int| 0 <= j < chunks.len() ==> syms[j] == #[trigger] chunks[j],
                syms.last() == last_sym as nat,
                syms_bits(c, syms) == (match syms_bits(c, syms.skip(i as int)) {
                    Ok(rest) => Ok::<Seq<bool>, CodecError>(out@ + rest),
                    Err(e) => Err::<Seq<bool>, CodecError>(e),
                }),
                op_syms(c, sym) == Ok::<Seq<nat>, CodecError>(syms),
            decreases nch - i,
        {
            let d = rev_chunks[nch - 1 - i];
            let ghost tail = syms.skip(i as int);
            proof {
                lemma_rev_syms(rev_chunks@, arg_base(c));
                assert(chunks[i as int] == rev_chunks@[nch - 1 - i] as nat + arg_base(c));
                assert(tail.first() == syms[i as int]);
                assert(tail.drop_first() =~= syms.skip(i + 1));
            }
            let nib: u32 = d + 256 + (lbase as u32);
            match self.rice.encode_u32(nib) {
                Err(e) => {
                    proof {
                        assert(remap_enc(c, tail.first()) > u32::MAX);
                    }
                    return Err(e);
                },
                Ok(code) => {
                    let ghost out_pre = out@;
                    out.append(&code);
                    proof {
                        match syms_bits(c, syms.skip(i + 1)) {
                            Ok(rest) => {
                                assert(out@ + rest =~= out_pre + (rice_bits(
                                    c.k,
                                    remap_enc(c, tail.first()),
                                ) + rest));
                            },
                            Err(_) => {},
                        }
                    }
                },
            }
            i = i + 1;
        }
        let ghost tail = syms.skip(nch as int);
        proof {
            assert(tail.len() == 1);
            assert(tail.first() == syms.last());
            assert(tail.drop_first() =~= Seq::<nat>::empty());
            assert(syms.skip(nch + 1) =~= Seq::<nat>::empty());
        }
        match self.rice.encode_u32(last_sym) {
            Err(e) => {
                proof {
                    assert(remap_enc(c, tail.first()) > u32::MAX);
                }
                Err(e)
            },
            Ok(code) => {
                let ghost out_pre = out@;
                out.append(&code);
                proof {
                    assert(syms_bits(c, Seq::<nat>::empty()) == Ok::<Seq<bool>, CodecError>(
                        Seq::empty(),
                    ));
                    assert(out@ =~= out_pre + (rice_bits(c.k, remap_enc(c, tail.first()))
                        + Seq::<bool>::empty()));
                }
                Ok(out)
            },
        }
    }

    /// Reads one operation at bit offset `off`.
    pub fn decode_sym_at(&self, bits: &BitBuf, off: usize) -> (r: Result<
        (GLZSym, usize),
        CodecError,
    >)
        requires
            self.wf(),
        ensures
            match r {
                Ok((op, pos)) => decode_op(self.cfg(), bits@, off as nat) == Ok::<
                    (GLZSym, nat),
                    CodecError,
                >((op, pos as nat)),
                Err(e) => decode_op(self.cfg(), bits@, off as nat) == Err::<
                    (GLZSym, nat),
                    CodecError,
                >(e),
            },
    {
        let ghost c = self.cfg();
        proof {
            assert(self.rice.usable());
            lemma_exp2_pos(c.l);
            lemma_exp2_pos(c.m);
            lemma_exp2_mono(c.l, 20);
            lemma_exp2_mono(c.m, 20);
            assert(exp2(20) == 0x10_0000) by {
                reveal_with_fuel(exp2, 21);
            }
        }
        let lbase: u32 = exp2_u64(self.l) as u32;
        let mbase: u64 = exp2_u64(self.m);
        let len = bits.len();
        let mut pos: usize = off;
        let mut arg: u32 = 0;
        loop
            invariant
                self.wf(),
                c == self.cfg(),
                self.rice.usable(),
                lbase == exp2(c.l),
                lbase <= 0x10_0000,
                mbase == exp2(c.m),
                mbase <= 0x10_0000,
                len == bits@.len(),
                decode_op(c, bits@, off as nat) == decode_op_arg(c, bits@, pos as nat, arg as nat),
            decreases len + 1 - pos,
        {
            let ghost pos0 = pos as nat;
            let ghost arg0 = arg as nat;
            match self.rice.decode_u32_at(bits, pos) {
                Err(e) => {
                    return Err(e);
                },
                Ok((sym, diff)) => {
                    proof {
                        crate::rice::lemma_first_zero_props(bits@, pos as nat);
                        match crate::rice::first_zero(bits@, pos as nat) {
                            Some(z) => {
                                assert(diff == (z - pos) + 1 + c.k);
                                assert(z + 1 + c.k <= bits@.len());
                            },
                            None => {
                                assert(false);
                            },
                        }
                        assert(diff >= 1 && pos + diff <= len);
                    }
                    if sym >= 256 + lbase {
                        proof {
                            assert((arg as u64) * mbase <= (u32::MAX as u64) * 0x10_0000)
                                by (nonlinear_arith)
                                requires
                                    arg <= u32::MAX,
                                    mbase <= 0x10_0000,
                            ;
                        }
                        let arg2: u64 = (arg as u64) * mbase + ((sym - 256 - lbase) as u64) + 1;
                        proof {
                            assert(arg2 == arg0 * exp2(c.m) + (sym - arg_base(c)) + 1);
                        }
                        if arg2 > u32::MAX as u64 {
                            return Err(CodecError::Cast);
                        }
                        arg = arg2 as u32;
                        pos = pos + diff;
                    } else if sym >= 256 {
                        return Ok(
                            (GLZSym::Ref { off: arg as usize, size: (sym - 256 + 2) as usize }, pos
                                + diff),
                        );
                    } else {
                        if arg as u64 + 1 > usize::MAX as u64 {
                            return Err(CodecError::Cast);
                        }
                        return Ok(
                            (GLZSym::Imm { count: arg as usize + 1, imm: sym as u8 }, pos + diff),
                        );
                    }
                },
            }
        }
    }

    /// Reads one operation at the front of `bits`.
    pub fn decode_sym(&self, bits: &BitBuf) -> (r: Result<(GLZSym, usize), CodecError>)
        requires
            self.wf(),
        ensures
            match r {
                Ok((op, pos)) => decode_op(self.cfg(), bits@, 0) == Ok::<
                    (GLZSym, nat),
                    CodecError,
                >((op, pos as nat)),
                Err(e) => decode_op(self.cfg(), bits@, 0) == Err::<(GLZSym, nat), CodecError>(e),
            },
    {
        self.decode_sym_at(bits, 0)
    }
}


/// `n` copies of `b`.
pub open spec fn repeat_byte(b: u8, n: nat) -> Seq<u8>
    decreases n,
{
    if n == 0 {
        Seq::empty()
    } else {
        repeat_byte(b, (n - 1) as nat).push(b)
    }
}

pub proof fn lemma_repeat_byte(b: u8, n: nat)
    ensures
        repeat_byte(b, n).len() == n,
        forall|i: int| 0 <= i < n ==> repeat_byte(b, n)[i] == b,
    decreases n,
{
    if n > 0 {
        lemma_repeat_byte(b, (n - 1) as nat);
    }
}

/// A successfully read operation sits strictly inside the sequence.
pub proof fn lemma_decode_op_bounds(c: GlzCfg, s: Seq<bool>, off: nat, arg: nat)
    ensures
        decode_op_arg(c, s, off, arg) matches Ok((op, p)) ==> off < p <= s.len(),
    decreases s.len() - off,
{
    if let Ok((sym, diff)) = bij_decode(c.k, c.dec, c.has, s, off) {
        if 1 <= diff && off + diff <= s.len() {
            if sym >= arg_base(c) {
                let arg2 = arg * exp2(c.m) + (sym - arg_base(c)) + 1;
                if arg2 <= u32::MAX {
                    lemma_decode_op_bounds(c, s, off + diff, arg2 as nat);
                }
            }
        }
    }
}

/// Decoding exactly `need` bytes at `pos`, `cyc` of the `cap` allowed
/// decode cycles already spent, at recursion depth `depth`.
///
/// Mirrors the decoder: an immediate run is clipped to the bytes still
/// needed; a reference whose size covers the rest only moves the read
/// position; any other reference is decoded recursively with a fresh
/// cycle budget of twice its size.  Exceeding the caps is a
/// `RuntimeExceeded` or `DepthExceeded` error: the decoder's only
/// defense against adversarial input.
pub open spec fn decode_need(
    c: GlzCfg,
    s: Seq<bool>,
    pos: nat,
    need: nat,
    cyc: nat,
    cap: nat,
    depth: nat,
) -> Result<Seq<u8>, CodecError>
    decreases
            (if depth < 2 {
                (2 - depth) as nat
            } else {
                0
            }),
            (if cyc <= cap {
                (cap - cyc + 1) as nat
            } else {
                0
            }),
{
    if need == 0 {
        Ok(Seq::empty())
    } else {
        match decode_op(c, s, pos) {
            Err(e) => Err(e),
            Ok((op, pos2)) => match op {
                GLZSym::Imm { count, imm } => {
                    let take = if count as nat > need {
                        need
                    } else {
                        count as nat
                    };
                    if cyc + 1 > cap {
                        Err(CodecError::RuntimeExceeded)
                    } else {
                        match decode_need(c, s, pos2, (need - take) as nat, cyc + 1, cap, depth) {
                            Ok(rest) => Ok(repeat_byte(imm, take) + rest),
                            Err(e) => Err(e),
                        }
                    }
                },
                GLZSym::Ref { off: roff, size: rsize } => {
                    if rsize as nat >= need {
                        if cyc + 1 > cap {
                            Err(CodecError::RuntimeExceeded)
                        } else {
                            decode_need(c, s, (pos2 + roff) as nat, need, cyc + 1, cap, depth)
                        }
                    } else {
                        if depth + 1 >= 2 {
                            Err(CodecError::DepthExceeded)
                        } else {
                            match decode_need(
                                c,
                                s,
                                (pos2 + roff) as nat,
                                rsize as nat,
                                0,
                                2 * rsize as nat,
                                depth + 1,
                            ) {
                                Err(e) => Err(e),
                                Ok(bytes) => {
                                    if cyc + 1 > cap {
                                        Err(CodecError::RuntimeExceeded)
                                    } else {
                                        match decode_need(
                                            c,
                                            s,
                                            pos2,
                                            (need - rsize) as nat,
                                            cyc + 1,
                                            cap,
                                            depth,
                                        ) {
                                            Ok(rest) => Ok(bytes + rest),
                                            Err(e) => Err(e),
                                        }
                                    }
                                },
                            }
                        }
                    }
                },
            },
        }
    }
}

/// Decoding operations until the bit sequence is exhausted: the
/// whole-stream form, with no byte bound and no cycle cap.  References
/// still recurse through the sized form with its own caps.
pub open spec fn decode_whole(c: GlzCfg, s: Seq<bool>, pos: nat, depth: nat) -> Result<
    Seq<u8>,
    CodecError,
>
    decreases s.len() - pos,
{
    if pos >= s.len() {
        Ok(Seq::empty())
    } else {
        match decode_op(c, s, pos) {
            Err(e) => Err(e),
            Ok((op, pos2)) => {
                if pos2 <= pos || pos2 > s.len() {
                    Err(CodecError::Truncated)
                } else {
                    match op {
                        GLZSym::Imm { count, imm } => {
                            match decode_whole(c, s, pos2, depth) {
                                Ok(rest) => Ok(repeat_byte(imm, count as nat) + rest),
                                Err(e) => Err(e),
                            }
                        },
                        GLZSym::Ref { off: roff, size: rsize } => {
                            if depth + 1 >= 2 {
                                Err(CodecError::DepthExceeded)
                            } else {
                                match decode_need(
                                    c,
                                    s,
                                    (pos2 + roff) as nat,
                                    rsize as nat,
                                    0,
                                    2 * rsize as nat,
                                    depth + 1,
                                ) {
                                    Err(e) => Err(e),
                                    Ok(bytes) => {
                                        match decode_whole(c, s, pos2, depth) {
                                            Ok(rest) => Ok(bytes + rest),
                                            Err(e) => Err(e),
                                        }
                                    },
                                }
                            }
                        },
                    }
                }
            },
        }
    }
}

/// Appends `n` copies of `b`.
fn push_repeat(v: &mut Vec<u8>, b: u8, n: usize)
    ensures
        final(v)@ == old(v)@ + repeat_byte(b, n as nat),
{
    let mut i: usize = 0;
    proof {
        assert(old(v)@ + repeat_byte(b, 0) =~= old(v)@);
    }
    while i < n
        invariant
            i <= n,
            v@ == old(v)@ + repeat_byte(b, i as nat),
        decreases n - i,
    {
        v.push(b);
        i = i + 1;
    }
}

/// Appends a copy of `src`.
fn extend_bytes(v: &mut Vec<u8>, src: &Vec<u8>)
    ensures
        final(v)@ == old(v)@ + src@,
{
    let n = src.len();
    let mut i: usize = 0;
    while i < n
        invariant
            n == src@.len(),
            i <= n,
            v@ == old(v)@ + src@.subrange(0, i as int),
        decreases n - i,
    {
        v.push(src[i]);
        i = i + 1;
        assert(v@ =~= old(v)@ + src@.subrange(0, i as int));
    }
    assert(old(v)@ + src@.subrange(0, n as int) =~= old(v)@ + src@);
}

/// Reading any operation at or past the end of the sequence fails with
/// an unterminated unary run.
proof fn lemma_decode_op_past_end(c: GlzCfg, s: Seq<bool>, pos: nat)
    requires
        pos >= s.len(),
    ensures
        decode_op(c, s, pos) == Err::<(GLZSym, nat), CodecError>(CodecError::Unterminated),
{
    assert(crate::rice::first_zero(s, pos) is None);
}

impl GLZ {
    /// Decodes exactly `size` bytes starting at bit offset `off`, at
    /// recursion depth `depth`.
    fn decode_sized(&self, bits: &BitBuf, off: usize, size: usize, depth: u32) -> (r: Result<
        Vec<u8>,
        CodecError,
    >)
        requires
            self.wf(),
            depth <= 1,
            size <= usize::MAX / 2,
        ensures
            match r {
                Ok(v) => decode_need(
                    self.cfg(),
                    bits@,
                    off as nat,
                    size as nat,
                    0,
                    2 * size as nat,
                    depth as nat,
                ) == Ok::<Seq<u8>, CodecError>(v@),
                Err(e) => decode_need(
                    self.cfg(),
                    bits@,
                    off as nat,
                    size as nat,
                    0,
                    2 * size as nat,
                    depth as nat,
                ) == Err::<Seq<u8>, CodecError>(e),
            },
        decreases 1 - depth,
    {
        let ghost c = self.cfg();
        let blen = bits.len();
        let cap: usize = 2 * size;
        let mut bytes: Vec<u8> = Vec::new();
        let mut pos: usize = off;
        let mut cyc: usize = 0;
        while bytes.len() < size
            invariant
                self.wf(),
                c == self.cfg(),
                blen == bits@.len(),
                depth <= 1,
                size <= usize::MAX / 2,
                cap == 2 * size,
                bytes@.len() <= size,
                cyc <= cap,
                decode_need(c, bits@, off as nat, size as nat, 0, cap as nat, depth as nat) == (
                match decode_need(
                    c,
                    bits@,
                    pos as nat,
                    (size - bytes@.len()) as nat,
                    cyc as nat,
                    cap as nat,
                    depth as nat,
                ) {
                    Ok(rest) => Ok::<Seq<u8>, CodecError>(bytes@ + rest),
                    Err(e) => Err::<Seq<u8>, CodecError>(e),
                }),
            decreases cap - cyc,
        {
            let ghost need0 = (size - bytes@.len()) as nat;
            let ghost pos0 = pos as nat;
            let ghost cyc0 = cyc as nat;
            match self.decode_sym_at(bits, pos) {
                Err(e) => {
                    return Err(e);
                },
                Ok((op, pos2)) => {
                    proof {
                        lemma_decode_op_bounds(c, bits@, pos as nat, 0);
                    }
                    match op {
                        GLZSym::Imm { count, imm } => {
                            let remaining = size - bytes.len();
                            let take = if count > remaining {
                                remaining
                            } else {
                                count
                            };
                            let ghost bytes_pre = bytes@;
                            proof {
                                lemma_repeat_byte(imm, take as nat);
                            }
                            push_repeat(&mut bytes, imm, take);
                            cyc = cyc + 1;
                            if cyc > cap {
                                return Err(CodecError::RuntimeExceeded);
                            }
                            pos = pos2;
                            proof {
                                match decode_need(
                                    c,
                                    bits@,
                                    pos as nat,
                                    (size - bytes@.len()) as nat,
                                    cyc as nat,
                                    cap as nat,
                                    depth as nat,
                                ) {
                                    Ok(rest) => {
                                        assert(bytes@ + rest =~= bytes_pre + (repeat_byte(
                                            imm,
                                            take as nat,
                                        ) + rest));
                                    },
                                    Err(_) => {},
                                }
                            }
                        },
                        GLZSym::Ref { off: roff, size: rsize } => {
                            proof {
                                lemma_decode_op_ref_size(c, bits@, pos as nat, 0);
                            }
                            let remaining = size - bytes.len();
                            if rsize >= remaining {
                                cyc = cyc + 1;
                                if cyc > cap {
                                    return Err(CodecError::RuntimeExceeded);
                                }
                                if roff > usize::MAX - pos2 {
                                    proof {
                                        lemma_decode_op_past_end(
                                            c,
                                            bits@,
                                            (pos2 + roff) as nat,
                                        );
                                        assert(decode_need(
                                            c,
                                            bits@,
                                            (pos2 + roff) as nat,
                                            need0,
                                            cyc0 + 1,
                                            cap as nat,
                                            depth as nat,
                                        ) == Err::<Seq<u8>, CodecError>(CodecError::Unterminated));
                                    }
                                    return Err(CodecError::Unterminated);
                                }
                                pos = pos2 + roff;
                                proof {
                                    if pos as nat >= bits@.len() {
                                        lemma_decode_op_past_end(c, bits@, pos as nat);
                                    }
                                }
                            } else {
                                if depth >= 1 {
                                    return Err(CodecError::DepthExceeded);
                                }
                                if roff > usize::MAX - pos2 {
                                    proof {
                                        lemma_decode_op_past_end(
                                            c,
                                            bits@,
                                            (pos2 + roff) as nat,
                                        );
                                        assert(decode_need(
                                            c,
                                            bits@,
                                            (pos2 + roff) as nat,
                                            rsize as nat,
                                            0,
                                            2 * rsize as nat,
                                            depth as nat + 1,
                                        ) == Err::<Seq<u8>, CodecError>(CodecError::Unterminated));
                                    }
                                    return Err(CodecError::Unterminated);
                                }
                                match self.decode_sized(bits, pos2 + roff, rsize, depth + 1) {
                                    Err(e) => {
                                        return Err(e);
                                    },
                                    Ok(sub) => {
                                        proof {
                                            lemma_decode_need_len(
                                                c,
                                                bits@,
                                                (pos2 + roff) as nat,
                                                rsize as nat,
                                                0,
                                                2 * rsize as nat,
                                                depth as nat + 1,
                                            );
                                        }
                                        let ghost bytes_pre = bytes@;
                                        extend_bytes(&mut bytes, &sub);
                                        cyc = cyc + 1;
                                        if cyc > cap {
                                            return Err(CodecError::RuntimeExceeded);
                                        }
                                        pos = pos2;
                                        proof {
                                            match decode_need(
                                                c,
                                                bits@,
                                                pos as nat,
                                                (size - bytes@.len()) as nat,
                                                cyc as nat,
                                                cap as nat,
                                                depth as nat,
                                            ) {
                                                Ok(rest) => {
                                                    assert(bytes@ + rest =~= bytes_pre + (sub@
                                                        + rest));
                                                },
                                                Err(_) => {},
                                            }
                                        }
                                    },
                                }
                            }
                        },
                    }
                },
            }
        }
        proof {
            assert(decode_need(
                c,
                bits@,
                pos as nat,
                (size - bytes@.len()) as nat,
                cyc as nat,
                cap as nat,
                depth as nat,
            ) == Ok::<Seq<u8>, CodecError>(Seq::empty()));
            assert(bytes@ + Seq::<u8>::empty() =~= bytes@);
        }
        Ok(bytes)
    }

    /// Decodes exactly `len` bytes starting at bit offset `off`: the
    /// granular decode, structurally identical to decoding a whole
    /// stream, entered at a caller-chosen offset.
    pub fn decode_at(&self, bits: &BitBuf, off: usize, len: usize) -> (r: Result<
        Vec<u8>,
        CodecError,
    >)
        requires
            self.wf(),
            len <= usize::MAX / 2,
        ensures
            match r {
                Ok(v) => decode_need(self.cfg(), bits@, off as nat, len as nat, 0, 2 * len as nat, 0)
                    == Ok::<Seq<u8>, CodecError>(v@) && v@.len() == len,
                Err(e) => decode_need(
                    self.cfg(),
                    bits@,
                    off as nat,
                    len as nat,
                    0,
                    2 * len as nat,
                    0,
                ) == Err::<Seq<u8>, CodecError>(e),
            },
    {
        let r = self.decode_sized(bits, off, len, 0);
        proof {
            if r is Ok {
                lemma_decode_need_len(
                    self.cfg(),
                    bits@,
                    off as nat,
                    len as nat,
                    0,
                    2 * len as nat,
                    0,
                );
            }
        }
        r
    }

    /// Decodes operations from bit offset 0 until the sequence is
    /// exhausted.
    pub fn decode(&self, bits: &BitBuf) -> (r: Result<Vec<u8>, CodecError>)
        requires
            self.wf(),
        ensures
            match r {
                Ok(v) => decode_whole(self.cfg(), bits@, 0, 0) == Ok::<Seq<u8>, CodecError>(v@),
                Err(e) => decode_whole(self.cfg(), bits@, 0, 0) == Err::<Seq<u8>, CodecError>(e),
            },
    {
        let ghost c = self.cfg();
        let len = bits.len();
        let mut bytes: Vec<u8> = Vec::new();
        let mut pos: usize = 0;
        while pos < len
            invariant
                self.wf(),
                c == self.cfg(),
                len == bits@.len(),
                decode_whole(c, bits@, 0, 0) == (match decode_whole(c, bits@, pos as nat, 0) {
                    Ok(rest) => Ok::<Seq<u8>, CodecError>(bytes@ + rest),
                    Err(e) => Err::<Seq<u8>, CodecError>(e),
                }),
            decreases len - pos,
        {
            match self.decode_sym_at(bits, pos) {
                Err(e) => {
                    return Err(e);
                },
                Ok((op, pos2)) => {
                    proof {
                        lemma_decode_op_bounds(c, bits@, pos as nat, 0);
                    }
                    match op {
                        GLZSym::Imm { count, imm } => {
                            let ghost bytes_pre = bytes@;
                            push_repeat(&mut bytes, imm, count);
                            pos = pos2;
                            proof {
                                match decode_whole(c, bits@, pos as nat, 0) {
                                    Ok(rest) => {
                                        assert(bytes@ + rest =~= bytes_pre + (repeat_byte(
                                            imm,
                                            count as nat,
                                        ) + rest));
                                    },
                                    Err(_) => {},
                                }
                            }
                        },
                        GLZSym::Ref { off: roff, size: rsize } => {
                            proof {
                                lemma_exp2_mono(c.l, 20);
                                assert(exp2(20) == 0x10_0000) by {
                                    reveal_with_fuel(exp2, 21);
                                }
                                lemma_decode_op_ref_size(c, bits@, pos as nat, 0);
                            }
                            if roff > usize::MAX - pos2 {
                                proof {
                                    lemma_decode_op_past_end(c, bits@, (pos2 + roff) as nat);
                                }
                                return Err(CodecError::Unterminated);
                            }
                            match self.decode_sized(bits, pos2 + roff, rsize, 1) {
                                Err(e) => {
                                    return Err(e);
                                },
                                Ok(sub) => {
                                    let ghost bytes_pre = bytes@;
                                    extend_bytes(&mut bytes, &sub);
                                    pos = pos2;
                                    proof {
                                        match decode_whole(c, bits@, pos as nat, 0) {
                                            Ok(rest) => {
                                                assert(bytes@ + rest =~= bytes_pre + (sub@
                                                    + rest));
                                            },
                                            Err(_) => {},
                                        }
                                    }
                                },
                            }
                        },
                    }
                },
            }
        }
        proof {
            assert(decode_whole(c, bits@, pos as nat, 0) == Ok::<Seq<u8>, CodecError>(
                Seq::empty(),
            ));
            assert(bytes@ + Seq::<u8>::empty() =~= bytes@);
        }
        Ok(bytes)
    }
}

/// A successful sized decode returns exactly the requested length.
pub proof fn lemma_decode_need_len(
    c: GlzCfg,
    s: Seq<bool>,
    pos: nat,
    need: nat,
    cyc: nat,
    cap: nat,
    depth: nat,
)
    ensures
        decode_need(c, s, pos, need, cyc, cap, depth) matches Ok(v) ==> v.len() == need,
    decreases
            (if depth < 2 {
                (2 - depth) as nat
            } else {
                0
            }),
            (if cyc <= cap {
                (cap - cyc + 1) as nat
            } else {
                0
            }),
{
    if need == 0 {
    } else {
        match decode_op(c, s, pos) {
            Err(_) => {},
            Ok((op, pos2)) => match op {
                GLZSym::Imm { count, imm } => {
                    let take = if count as nat > need {
                        need
                    } else {
                        count as nat
                    };
                    if cyc + 1 <= cap {
                        lemma_decode_need_len(c, s, pos2, (need - take) as nat, cyc + 1, cap, depth);
                        lemma_repeat_byte(imm, take);
                    }
                },
                GLZSym::Ref { off: roff, size: rsize } => {
                    if rsize as nat >= need {
                        if cyc + 1 <= cap {
                            lemma_decode_need_len(c, s, (pos2 + roff) as nat, need, cyc + 1, cap, depth);
                        }
                    } else {
                        if depth + 1 < 2 {
                            lemma_decode_need_len(
                                c,
                                s,
                                (pos2 + roff) as nat,
                                rsize as nat,
                                0,
                                2 * rsize as nat,
                                depth + 1,
                            );
                            if cyc + 1 <= cap {
                                lemma_decode_need_len(
                                    c,
                                    s,
                                    pos2,
                                    (need - rsize) as nat,
                                    cyc + 1,
                                    cap,
                                    depth,
                                );
                            }
                        }
                    }
                },
            },
        }
    }
}

/// A reference read back from the wire has a size the configuration can
/// name, and in particular one a sized sub-decode may be asked for.
proof fn lemma_decode_op_ref_size(c: GlzCfg, s: Seq<bool>, off: nat, arg: nat)
    ensures
        decode_op_arg(c, s, off, arg) matches Ok((GLZSym::Ref { off: roff, size: rsize }, _))
            ==> 2 <= rsize <= exp2(c.l) + 1,
    decreases s.len() - off,
{
    if let Ok((sym, diff)) = bij_decode(c.k, c.dec, c.has, s, off) {
        if 1 <= diff && off + diff <= s.len() {
            if sym >= arg_base(c) {
                let arg2 = arg * exp2(c.m) + (sym - arg_base(c)) + 1;
                if arg2 <= u32::MAX {
                    lemma_decode_op_ref_size(c, s, off + diff, arg2 as nat);
                }
            }
        }
    }
}


/// The association built by inserting the first `n` key/value pairs in
/// order: later inserts overwrite earlier ones.
pub open spec fn dict_map_of(keys: Seq<Vec<u8>>, vals: Seq<usize>, n: int) -> Map<Seq<u8>, usize>
    decreases n,
{
    if n <= 0 {
        Map::empty()
    } else {
        dict_map_of(keys, vals, n - 1).insert(keys[n - 1]@, vals[n - 1])
    }
}

/// The per-encode dictionary: byte strings already covered by emitted
/// operations, each mapped to the bit offset, counted from the end of
/// the stream built so far, where its encoding begins.
pub struct Dict {
    keys: Vec<Vec<u8>>,
    vals: Vec<usize>,
}

impl View for Dict {
    type V = Map<Seq<u8>, usize>;

    closed spec fn view(&self) -> Map<Seq<u8>, usize> {
        dict_map_of(self.keys@, self.vals@, self.keys@.len() as int)
    }
}

impl Dict {
    pub closed spec fn inv(&self) -> bool {
        self.keys@.len() == self.vals@.len()
    }

    pub fn new() -> (r: Dict)
        ensures
            r.inv(),
            r@ == Map::<Seq<u8>, usize>::empty(),
    {
        Dict { keys: Vec::new(), vals: Vec::new() }
    }

    /// Records that `data[lo..hi]` is encoded at offset `val`.
    pub fn insert_range(&mut self, data: &Vec<u8>, lo: usize, hi: usize, val: usize)
        requires
            old(self).inv(),
            lo <= hi <= data@.len(),
        ensures
            final(self).inv(),
            final(self)@ == old(self)@.insert(data@.subrange(lo as int, hi as int), val),
    {
        let mut key: Vec<u8> = Vec::new();
        let mut t: usize = lo;
        while t < hi
            invariant
                lo <= t <= hi <= data@.len(),
                key@ == data@.subrange(lo as int, t as int),
            decreases hi - t,
        {
            key.push(data[t]);
            t = t + 1;
            assert(key@ =~= data@.subrange(lo as int, t as int));
        }
        self.keys.push(key);
        self.vals.push(val);
        proof {
            assert(self.keys@.drop_last() =~= old(self).keys@);
            assert(self.vals@.drop_last() =~= old(self).vals@);
            assert(dict_map_of(self.keys@, self.vals@, self.keys@.len() as int - 1)
                =~= dict_map_of(old(self).keys@, old(self).vals@, old(self).keys@.len() as int))
                by {
                lemma_dict_map_prefix(
                    self.keys@,
                    self.vals@,
                    old(self).keys@,
                    old(self).vals@,
                    old(self).keys@.len() as int,
                );
            }
        }
    }

    /// Looks `data[lo..hi]` up by content; the most recent insert wins.
    pub fn get_range(&self, data: &Vec<u8>, lo: usize, hi: usize) -> (r: Option<usize>)
        requires
            self.inv(),
            lo <= hi <= data@.len(),
        ensures
            match r {
                Some(v) => self@.contains_key(data@.subrange(lo as int, hi as int)) && self@[
                    data@.subrange(lo as int, hi as int)
                ] == v,
                None => !self@.contains_key(data@.subrange(lo as int, hi as int)),
            },
    {
        let ghost key = data@.subrange(lo as int, hi as int);
        let n = self.keys.len();
        let mut i: usize = n;
        while i > 0
            invariant
                self.inv(),
                n == self.keys@.len(),
                i <= n,
                lo <= hi <= data@.len(),
                key == data@.subrange(lo as int, hi as int),
                self@.contains_key(key) == dict_map_of(self.keys@, self.vals@, i as int)
                    .contains_key(key),
                self@.contains_key(key) ==> self@[key] == dict_map_of(
                    self.keys@,
                    self.vals@,
                    i as int,
                )[key],
            decreases i,
        {
            i = i - 1;
            if range_matches(&self.keys[i], data, lo, hi) {
                return Some(self.vals[i]);
            }
        }
        proof {
            assert(!dict_map_of(self.keys@, self.vals@, 0).contains_key(key));
        }
        None
    }
}

/// The pairs already inserted keep their association when more follow.
proof fn lemma_dict_map_prefix(
    keys: Seq<Vec<u8>>,
    vals: Seq<usize>,
    keys0: Seq<Vec<u8>>,
    vals0: Seq<usize>,
    n: int,
)
    requires
        0 <= n <= keys0.len(),
        n <= vals0.len(),
        keys0.len() <= keys.len(),
        vals0.len() <= vals.len(),
        forall|j: int| 0 <= j < keys0.len() ==> keys[j] == keys0[j],
        forall|j: int| 0 <= j < vals0.len() ==> vals[j] == vals0[j],
    ensures
        dict_map_of(keys, vals, n) == dict_map_of(keys0, vals0, n),
    decreases n,
{
    if n <= 0 {
        assert(dict_map_of(keys, vals, n) =~= dict_map_of(keys0, vals0, n));
    } else {
        lemma_dict_map_prefix(keys, vals, keys0, vals0, n - 1);
        assert(keys[n - 1] == keys0[n - 1]);
        assert(vals[n - 1] == vals0[n - 1]);
        assert(dict_map_of(keys, vals, n) == dict_map_of(keys, vals, n - 1).insert(
            keys[n - 1]@,
            vals[n - 1],
        ));
        assert(dict_map_of(keys0, vals0, n) == dict_map_of(keys0, vals0, n - 1).insert(
            keys0[n - 1]@,
            vals0[n - 1],
        ));
    }
}

/// Whether the stored key equals `data[lo..hi]`.
fn range_matches(stored: &Vec<u8>, data: &Vec<u8>, lo: usize, hi: usize) -> (r: bool)
    requires
        lo <= hi <= data@.len(),
    ensures
        r == (stored@ == data@.subrange(lo as int, hi as int)),
{
    if stored.len() != hi - lo {
        proof {
            assert(stored@.len() != data@.subrange(lo as int, hi as int).len());
        }
        return false;
    }
    let n = hi - lo;
    let mut t: usize = 0;
    while t < n
        invariant
            lo <= hi <= data@.len(),
            n == hi - lo,
            stored@.len() == n,
            t <= n,
            forall|j: int| 0 <= j < t ==> stored@[j] == data@[lo + j],
        decreases n - t,
    {
        if stored[t] != data[lo + t] {
            proof {
                assert(data@.subrange(lo as int, hi as int)[t as int] == data@[lo + t]);
            }
            return false;
        }
        t = t + 1;
    }
    proof {
        assert(stored@ =~= data@.subrange(lo as int, hi as int));
    }
    true
}


/// Every recorded offset lies within the bits emitted so far.
pub open spec fn dict_vals_bounded(d: Map<Seq<u8>, usize>, off: nat) -> bool {
    forall|kk: Seq<u8>| d.dom().contains(kk) ==> #[trigger] d[kk] <= off
}

/// Total bit length of a pattern list.
pub open spec fn bufs_len(ps: Seq<BitBuf>) -> nat
    decreases ps.len(),
{
    if ps.len() == 0 {
        0
    } else {
        bufs_len(ps.drop_last()) + ps.last()@.len()
    }
}

impl GLZ {
    /// Encodes one slice against the shared dictionary, returning its
    /// bit pattern; `off`, the running bit total of everything emitted,
    /// grows by exactly the pattern length.  `tail` is the stream built
    /// so far, which the pattern will be prepended to: on success the
    /// whole slice reads back from the front of the combined stream,
    /// and every dictionary entry stays readable.
    ///
    /// The slice is scanned from its last byte back to its first.  At
    /// each position the maximal run of equal bytes competes with the
    /// longest dictionary match in the lookback window; the operation
    /// with the better bits-per-byte ratio is emitted, and after every
    /// reference an immediate is forced.
    #[verifier::rlimit(80)]
    fn encode1(
        &self,
        history: &mut Dict,
        off: &mut usize,
        slice: &Vec<u8>,
        Ghost(tail): Ghost<Seq<bool>>,
    ) -> (r: Result<BitBuf, CodecError>)
        requires
            self.wf(),
            cfg_bijective(self.cfg()),
            old(history).inv(),
            tail.len() == *old(off),
            dict_ok(self.cfg(), old(history)@, tail),
            slice@.len() + 0x40_0000 <= usize::MAX,
        ensures
            final(history).inv(),
            *final(off) >= *old(off),
            dict_vals_bounded(final(history)@, *final(off) as nat),
            r matches Ok(bits) ==> {
                &&& *final(off) == *old(off) + bits@.len()
                &&& dict_ok(self.cfg(), final(history)@, bits@ + tail)
                &&& decodable(self.cfg(), bits@ + tail, (bits@ + tail).len(), slice@, 0, 0)
                &&& (tail.len() == 0 ==> decode_whole(self.cfg(), bits@, 0, 0) == Ok::<
                    Seq<u8>,
                    CodecError,
                >(slice@))
                &&& (tail.len() == 0 ==> walk_ok_bounded(self.cfg(), bits@))
            },
            r matches Err(e) ==> (e == CodecError::Overflow || e == CodecError::Cast || e
                == CodecError::BadCount || e == CodecError::BadSize),
            self.cfg().m >= 1 ==> (r matches Ok(bits) ==> bits@.len() <= slice@.len()
                * op_bound(self.cfg())),
            (self.cfg().m >= 1 && slice@.len() <= u32::MAX && slice@.len() * op_bound(self.cfg())
                + tail.len() <= usize::MAX) ==> r is Ok,
    {
        let ghost c = self.cfg();
        let ghost good = c.m >= 1;
        let ghost fits = c.m >= 1 && slice@.len() <= u32::MAX && slice@.len() * op_bound(c)
            + tail.len() <= usize::MAX;
        proof {
            lemma_exp2_pos(c.l);
            lemma_exp2_mono(c.l, 20);
            assert(exp2(20) == 0x10_0000) by {
                reveal_with_fuel(exp2, 21);
            }
        }
        let lwin = exp2_u64(self.l) as usize;
        let n = slice.len();
        let mut patterns: Vec<BitBuf> = Vec::new();
        let mut j: usize = n;
        let mut lastmatch: usize = n;
        let mut forceimm: bool = false;
        let ghost mut es: nat = 0;
        proof {
            assert(bufs_cat(patterns@) =~= Seq::<bool>::empty());
            assert(bufs_cat(patterns@) + tail =~= tail);
            assert(slice@.subrange(n as int, n as int) =~= Seq::<u8>::empty());
            lemma_decodable_empty(c, tail, tail.len(), 0, 0);
            lemma_decodable_empty(c, tail, tail.len(), 1, es);
            assert(decode_whole(c, bufs_cat(patterns@), 0, 0) == Ok::<Seq<u8>, CodecError>(
                Seq::<u8>::empty(),
            ));
            assert(walk_ok_bounded(c, bufs_cat(patterns@))) by {
                reveal(walk_ok_bounded);
                assert(syms_walk(c.k, c.dec, c.has, bufs_cat(patterns@), 0) == Ok::<
                    Seq<u32>,
                    CodecError,
                >(Seq::empty()));
            }
        }
        while j > 0
            invariant
                self.wf(),
                c == self.cfg(),
                cfg_bijective(c),
                history.inv(),
                n == slice@.len(),
                n + 0x40_0000 <= usize::MAX,
                j <= lastmatch <= n,
                1 <= lwin <= 0x10_0000,
                lwin == exp2(c.l),
                es <= 1,
                tail.len() == *old(off),
                good == (c.m >= 1),
                fits == (c.m >= 1 && slice@.len() <= u32::MAX && slice@.len() * op_bound(c)
                    + tail.len() <= usize::MAX),
                good ==> bufs_len(patterns@) <= ((n - j) as nat) * op_bound(c),
                *off == tail.len() + bufs_len(patterns@),
                *off == (bufs_cat(patterns@) + tail).len(),
                dict_vals_bounded(history@, *off as nat),
                dict_ok(c, history@, bufs_cat(patterns@) + tail),
                decodable(
                    c,
                    bufs_cat(patterns@) + tail,
                    (bufs_cat(patterns@) + tail).len(),
                    slice@.subrange(j as int, n as int),
                    0,
                    0,
                ),
                decodable(
                    c,
                    bufs_cat(patterns@) + tail,
                    (bufs_cat(patterns@) + tail).len(),
                    slice@.subrange(j as int, lastmatch as int),
                    1,
                    es,
                ),
                tail.len() == 0 ==> decode_whole(c, bufs_cat(patterns@), 0, 0) == Ok::<
                    Seq<u8>,
                    CodecError,
                >(slice@.subrange(j as int, n as int)),
                tail.len() == 0 ==> walk_ok_bounded(c, bufs_cat(patterns@)),
            decreases j,
        {
            let ghost cur = bufs_cat(patterns@) + tail;
            // the longest dictionary match of a suffix ending at j,
            // within the lookback window
            let lookahead = if j > lwin {
                j - lwin
            } else {
                0
            };
            let mut refconsume: usize = 0;
            let mut ref_code: Option<BitBuf> = None;
            let ghost mut gpoff: nat = 0;
            let mut i2: usize = j;
            while i2 > lookahead
                invariant
                    self.wf(),
                    c == self.cfg(),
                    history.inv(),
                    n == slice@.len(),
                    lookahead <= i2 <= j <= n,
                    cur == bufs_cat(patterns@) + tail,
                    *off == cur.len(),
                    dict_vals_bounded(history@, *off as nat),
                    dict_ok(c, history@, cur),
                    ref_code matches Some(rc) ==> {
                        &&& 1 <= refconsume <= j
                        &&& gpoff <= cur.len()
                        &&& history@.contains_key(
                            slice@.subrange(j - refconsume, j as int),
                        )
                        &&& history@[slice@.subrange(j - refconsume, j as int)] == gpoff
                        &&& op_bits(
                            c,
                            GLZSym::Ref { off: (*off - gpoff) as usize, size: refconsume },
                        ) == Ok::<Seq<bool>, CodecError>(rc@)
                    },
                decreases i2,
            {
                i2 = i2 - 1;
                match history.get_range(slice, i2, j) {
                    None => {},
                    Some(poff) => {
                        proof {
                            assert(history@[slice@.subrange(i2 as int, j as int)] <= cur.len());
                        }
                        match self.encode_sym(
                            GLZSym::Ref { off: *off - poff, size: j - i2 },
                        ) {
                            Ok(code) => {
                                refconsume = j - i2;
                                ref_code = Some(code);
                                proof {
                                    gpoff = poff as nat;
                                }
                            },
                            Err(_) => {},
                        }
                    },
                }
            }
            // the maximal run of equal bytes ending at j
            let b = slice[j - 1];
            let mut immconsume: usize = 1;
            while immconsume < j
                invariant
                    n == slice@.len(),
                    1 <= immconsume <= j <= n,
                    b == slice@[j - 1],
                    forall|t: int| j - immconsume <= t < j ==> slice@[t] == b,
                ensures
                    1 <= immconsume <= j,
                    forall|t: int| j - immconsume <= t < j ==> slice@[t] == b,
                decreases j - immconsume,
            {
                if slice[j - 1 - immconsume] != b {
                    break ;
                }
                immconsume = immconsume + 1;
            }
            let imm_code = match self.encode_sym(GLZSym::Imm { count: immconsume, imm: b }) {
                Ok(cd) => cd,
                Err(e) => {
                    proof {
                        lemma_op_bits_err(c, GLZSym::Imm { count: immconsume, imm: b });
                        if fits {
                            lemma_op_bits_ok_len(c, GLZSym::Imm { count: immconsume, imm: b });
                            assert(false);
                        }
                    }
                    return Err(e);
                },
            };
            // take the operation with the better bytes-per-bit ratio; a
            // missing reference candidate has ratio zero
            let use_imm: bool = match &ref_code {
                None => true,
                Some(rc) => {
                    if forceimm {
                        true
                    } else {
                        let rl: usize = rc.len();
                        let il: usize = imm_code.len();
                        proof {
                            assert((immconsume as int) * (rl as int) < 0x1_0000_0000_0000_0000
                                * 0x1_0000_0000_0000_0000int) by (nonlinear_arith)
                                requires
                                    immconsume < 0x1_0000_0000_0000_0000,
                                    rl < 0x1_0000_0000_0000_0000,
                            ;
                            assert((refconsume as int) * (il as int) < 0x1_0000_0000_0000_0000
                                * 0x1_0000_0000_0000_0000int) by (nonlinear_arith)
                                requires
                                    refconsume < 0x1_0000_0000_0000_0000,
                                    il < 0x1_0000_0000_0000_0000,
                            ;
                        }
                        let lhs: u128 = (immconsume as u128) * (rl as u128);
                        let rhs: u128 = (refconsume as u128) * (il as u128);
                        lhs >= rhs
                    }
                },
            };
            if use_imm {
                let emit = imm_code.len();
                let newoff = match off.checked_add(emit) {
                    Some(v) => v,
                    None => {
                        proof {
                            if fits {
                                lemma_emit_fits(
                                    c,
                                    GLZSym::Imm { count: immconsume, imm: b },
                                    imm_code@,
                                    n as nat,
                                    j as nat,
                                    bufs_len(patterns@),
                                    tail.len(),
                                );
                                assert(false);
                            }
                        }
                        return Err(CodecError::Overflow);
                    },
                };
                *off = newoff;
                let i0 = j - immconsume;
                let ghost cur2 = imm_code@ + cur;
                let ghost region2 = slice@.subrange(i0 as int, lastmatch as int);
                proof {
                    // the new stream: this immediate's code, then all
                    // before it
                    lemma_decodable_imm(
                        c,
                        imm_code@,
                        cur,
                        immconsume,
                        b,
                        slice@.subrange(j as int, n as int),
                        0,
                        0,
                    );
                    assert(repeat_byte(b, immconsume as nat) + slice@.subrange(
                        j as int,
                        n as int,
                    ) =~= slice@.subrange(i0 as int, n as int)) by {
                        lemma_repeat_byte(b, immconsume as nat);
                    }
                    lemma_decodable_weaken(
                        c,
                        cur2,
                        cur2.len(),
                        slice@.subrange(i0 as int, n as int),
                        0,
                        1,
                        0,
                        0,
                    );
                    lemma_decodable_imm(
                        c,
                        imm_code@,
                        cur,
                        immconsume,
                        b,
                        slice@.subrange(j as int, lastmatch as int),
                        1,
                        es,
                    );
                    assert(repeat_byte(b, immconsume as nat) + slice@.subrange(
                        j as int,
                        lastmatch as int,
                    ) =~= region2) by {
                        lemma_repeat_byte(b, immconsume as nat);
                    }
                    assert(decodable(c, cur2, cur2.len(), region2, 1, 1));
                    assert forall|kk: Seq<u8>| history@.dom().contains(kk) implies (
                    #[trigger] history@[kk]) <= cur2.len() && decodable(
                        c,
                        cur2,
                        history@[kk] as nat,
                        kk,
                        1,
                        1,
                    ) by {
                        lemma_decodable_prepend(c, imm_code@, cur, history@[kk] as nat, kk, 1, 1);
                    }
                    if tail.len() == 0 {
                        assert(cur =~= bufs_cat(patterns@));
                        lemma_whole_imm(
                            c,
                            imm_code@,
                            cur,
                            immconsume,
                            b,
                            slice@.subrange(j as int, n as int),
                        );
                        lemma_op_syms_range(c, GLZSym::Imm { count: immconsume, imm: b });
                        match op_syms(c, GLZSym::Imm { count: immconsume, imm: b }) {
                            Ok(opsyms) => {
                                lemma_walk_compose(c, opsyms, imm_code@, cur);
                            },
                            Err(_) => {
                                assert(false);
                            },
                        }
                    }
                    es = 1;
                }
                // record every new suffix that ends before the last
                // match, capped at the window size
                let hi_end = if lastmatch + 1 < i0 + 2 + lwin {
                    lastmatch + 1
                } else {
                    i0 + 2 + lwin
                };
                let mut rr: usize = i0 + 2;
                while rr < hi_end
                    invariant
                        history.inv(),
                        n == slice@.len(),
                        i0 + 2 <= rr,
                        i0 <= n,
                        hi_end <= lastmatch + 1,
                        lastmatch <= n,
                        cur2 == imm_code@ + cur,
                        region2 == slice@.subrange(i0 as int, lastmatch as int),
                        decodable(c, cur2, cur2.len(), region2, 1, 1),
                        dict_vals_bounded(history@, newoff as nat),
                        dict_ok(c, history@, cur2),
                        *off == newoff,
                        newoff == cur2.len(),
                    decreases hi_end - rr,
                {
                    proof {
                        lemma_decodable_take(
                            c,
                            cur2,
                            cur2.len(),
                            region2,
                            1,
                            1,
                            (rr - i0) as nat,
                        );
                        assert(region2.take(rr - i0) =~= slice@.subrange(i0 as int, rr as int));
                    }
                    history.insert_range(slice, i0, rr, newoff);
                    rr = rr + 1;
                }
                let ghost ppre = patterns@;
                patterns.push(imm_code);
                proof {
                    assert(patterns@.drop_last() =~= ppre);
                    assert(patterns@.last() == imm_code);
                    assert(bufs_cat(patterns@) + tail =~= cur2);
                    if tail.len() == 0 {
                        assert(bufs_cat(patterns@) =~= imm_code@ + cur);
                    }
                    if good {
                        lemma_op_code_len(c, GLZSym::Imm { count: immconsume, imm: b }, imm_code@);
                        lemma_step_bound(
                            c,
                            n as nat,
                            j as nat,
                            i0 as nat,
                            bufs_len(ppre),
                            imm_code@.len(),
                        );
                    }
                }
                forceimm = false;
                j = i0;
            } else {
                let rc = match ref_code {
                    Some(rc) => rc,
                    None => vstd::pervasive::unreached(),
                };
                let emit = rc.len();
                let newoff = match off.checked_add(emit) {
                    Some(v) => v,
                    None => {
                        proof {
                            if fits {
                                lemma_emit_fits(
                                    c,
                                    GLZSym::Ref {
                                        off: (*off - gpoff) as usize,
                                        size: refconsume,
                                    },
                                    rc@,
                                    n as nat,
                                    j as nat,
                                    bufs_len(patterns@),
                                    tail.len(),
                                );
                                assert(false);
                            }
                        }
                        return Err(CodecError::Overflow);
                    },
                };
                let ghost cur2 = rc@ + cur;
                let ghost key = slice@.subrange(j - refconsume, j as int);
                let ghost refop = GLZSym::Ref { off: (*off - gpoff) as usize, size: refconsume };
                proof {
                    assert(decodable(c, cur, gpoff, key, 1, 1));
                    assert(refconsume >= 2 && (*off - gpoff) <= u32::MAX) by {
                        assert(op_bits(
                            c,
                            GLZSym::Ref { off: (*off - gpoff) as usize, size: refconsume },
                        ) is Ok);
                    }
                    lemma_decodable_ref(
                        c,
                        rc@,
                        cur,
                        (*off - gpoff) as usize,
                        refconsume,
                        key,
                        gpoff,
                        slice@.subrange(j as int, n as int),
                    );
                    assert(key + slice@.subrange(j as int, n as int) =~= slice@.subrange(
                        j - refconsume,
                        n as int,
                    ));
                    lemma_decodable_refregion(
                        c,
                        rc@,
                        cur,
                        (*off - gpoff) as usize,
                        refconsume,
                        key,
                        gpoff,
                    );
                    assert forall|kk: Seq<u8>| history@.dom().contains(kk) implies (
                    #[trigger] history@[kk]) <= cur2.len() && decodable(
                        c,
                        cur2,
                        history@[kk] as nat,
                        kk,
                        1,
                        1,
                    ) by {
                        lemma_decodable_prepend(c, rc@, cur, history@[kk] as nat, kk, 1, 1);
                    }
                    if tail.len() == 0 {
                        assert(cur =~= bufs_cat(patterns@));
                        lemma_whole_ref(
                            c,
                            rc@,
                            cur,
                            (*off - gpoff) as usize,
                            refconsume,
                            key,
                            gpoff,
                            slice@.subrange(j as int, n as int),
                        );
                        lemma_op_syms_range(c, refop);
                        match op_syms(c, refop) {
                            Ok(opsyms) => {
                                lemma_walk_compose(c, opsyms, rc@, cur);
                            },
                            Err(_) => {
                                assert(false);
                            },
                        }
                    }
                    es = 0;
                }
                *off = newoff;
                let ghost ppre = patterns@;
                patterns.push(rc);
                proof {
                    assert(patterns@.drop_last() =~= ppre);
                    assert(bufs_cat(patterns@) + tail =~= cur2);
                    if tail.len() == 0 {
                        assert(bufs_cat(patterns@) =~= cur2.subrange(0, cur2.len() as int));
                        assert(bufs_cat(patterns@) =~= cur2);
                    }
                    if good {
                        lemma_op_code_len(c, refop, rc@);
                        lemma_step_bound(
                            c,
                            n as nat,
                            j as nat,
                            (j - refconsume) as nat,
                            bufs_len(ppre),
                            rc@.len(),
                        );
                    }
                }
                lastmatch = j;
                forceimm = true;
                j = j - refconsume;
            }
        }
        // the scan ran backward: the stream is the patterns reversed
        let mut out = BitBuf::new();
        let mut t: usize = patterns.len();
        proof {
            assert(patterns@.subrange(0, patterns@.len() as int) =~= patterns@);
            assert(out@ + bufs_cat(patterns@.subrange(0, t as int)) =~= bufs_cat(patterns@));
        }
        while t > 0
            invariant
                t <= patterns@.len(),
                out@.len() + bufs_len(patterns@.subrange(0, t as int)) == bufs_len(patterns@),
                out@ + bufs_cat(patterns@.subrange(0, t as int)) == bufs_cat(patterns@),
            decreases t,
        {
            t = t - 1;
            out.append(&patterns[t]);
            proof {
                let sub1 = patterns@.subrange(0, t + 1);
                assert(sub1.drop_last() =~= patterns@.subrange(0, t as int));
                assert(sub1.last() == patterns@[t as int]);
                assert(out@ + bufs_cat(patterns@.subrange(0, t as int)) =~= bufs_cat(
                    patterns@,
                ));
            }
        }
        proof {
            assert(patterns@.subrange(0, 0) =~= Seq::<BitBuf>::empty());
            assert(out@ + Seq::<bool>::empty() =~= out@);
            assert(out@ == bufs_cat(patterns@));
            assert(out@ + tail =~= bufs_cat(patterns@) + tail);
            assert(slice@.subrange(0, n as int) =~= slice@);
        }
        Ok(out)
    }
}


impl GLZ {
    /// Encodes one byte slice from scratch: a fresh dictionary and a
    /// zero offset.  Whatever comes out decodes back to the input, both
    /// by the whole-stream decode and by the sized decode at offset
    /// zero.  An error can only be an encode-side condition: the
    /// decoder's failure modes cannot arise while emitting.
    pub fn encode(&self, bytes: &Vec<u8>) -> (r: Result<BitBuf, CodecError>)
        requires
            self.wf(),
            cfg_bijective(self.cfg()),
            bytes@.len() + 0x40_0000 <= usize::MAX,
        ensures
            r matches Ok(bits) ==> decode_need(
                self.cfg(),
                bits@,
                0,
                bytes@.len(),
                0,
                2 * bytes@.len(),
                0,
            ) == Ok::<Seq<u8>, CodecError>(bytes@) && decode_whole(self.cfg(), bits@, 0, 0)
                == Ok::<Seq<u8>, CodecError>(bytes@),
            r matches Err(e) ==> (e == CodecError::Overflow || e == CodecError::Cast || e
                == CodecError::BadCount || e == CodecError::BadSize),
            (self.cfg().m >= 1 && bytes@.len() <= u32::MAX && bytes@.len() * op_bound(self.cfg())
                <= usize::MAX) ==> r is Ok,
            self.cfg().m >= 1 ==> (r matches Ok(bits) ==> bits@.len() <= bytes@.len()
                * op_bound(self.cfg())),
            r matches Ok(bits) ==> walk_ok_bounded(self.cfg(), bits@),
    {
        let mut history = Dict::new();
        let mut off: usize = 0;
        proof {
            assert(dict_ok(self.cfg(), Map::<Seq<u8>, usize>::empty(), Seq::<bool>::empty()));
        }
        let r = self.encode1(&mut history, &mut off, bytes, Ghost(Seq::empty()));
        proof {
            match r {
                Ok(ref bits) => {
                    let s = bits@ + Seq::<bool>::empty();
                    assert(s =~= bits@);
                    lemma_slice_ok_from_decodable(self.cfg(), s, s.len(), bytes@, 0, 0);
                },
                Err(_) => {},
            }
        }
        r
    }

    /// Compresses every slice into one shared stream and returns, in
    /// the callers' order, one (bit offset, byte length) pair per
    /// slice, such that decoding at any pair recovers exactly its
    /// slice.  Slices are encoded longest first, and a slice whose
    /// bytes were already encoded reuses the earlier offset, so equal
    /// slices always share one offset.
    pub fn encode_all(&self, slices: &Vec<Vec<u8>>) -> (r: Result<
        (BitBuf, Vec<(usize, usize)>),
        CodecError,
    >)
        requires
            self.wf(),
            cfg_bijective(self.cfg()),
            slices@.len() <= u32::MAX,
            forall|i: int|
                0 <= i < slices@.len() ==> #[trigger] slices@[i]@.len() + 0x40_0000
                    <= usize::MAX,
        ensures
            r matches Ok((bits, pairs)) ==> {
                &&& pairs@.len() == slices@.len()
                &&& forall|i: int|
                    0 <= i < slices@.len() ==> (#[trigger] pairs@[i]).1 == slices@[i]@.len()
                        && pairs@[i].0 <= bits@.len()
                &&& forall|i: int, j: int|
                    0 <= i < slices@.len() && 0 <= j < slices@.len() && slices@[i]@
                        == slices@[j]@ ==> (#[trigger] pairs@[i]).0 == (#[trigger] pairs@[j]).0
                &&& forall|i: int|
                    0 <= i < slices@.len() ==> decode_need(
                        self.cfg(),
                        bits@,
                        (#[trigger] pairs@[i]).0 as nat,
                        slices@[i]@.len(),
                        0,
                        2 * slices@[i]@.len(),
                        0,
                    ) == Ok::<Seq<u8>, CodecError>(slices@[i]@)
            },
            (self.cfg().m >= 1 && max_slice_len(slices@) <= u32::MAX && slices@.len() * (
            max_slice_len(slices@) * op_bound(self.cfg())) <= usize::MAX) ==> r is Ok,
            r matches Err(e) ==> (e == CodecError::Overflow || e == CodecError::Cast || e
                == CodecError::BadCount || e == CodecError::BadSize),
    {
        let ghost c = self.cfg();
        let ghost mp = max_slice_len(slices@) * op_bound(c);
        let ghost allfits = c.m >= 1 && max_slice_len(slices@) <= u32::MAX && slices@.len() * mp
            <= usize::MAX;
        let nsl = slices.len();
        // longest first: shorter slices then sit nearer the logical
        // stream start, keeping their offsets small
        let mut lens: Vec<usize> = Vec::new();
        let mut v: usize = 0;
        while v < nsl
            invariant
                nsl == slices@.len(),
                v <= nsl,
                lens@.len() == v,
                forall|i: int| 0 <= i < v ==> lens@[i] == slices@[i]@.len(),
            decreases nsl - v,
        {
            lens.push(slices[v].len());
            v = v + 1;
        }
        let order = crate::hist::sort_by_keys(&lens);
        let mut history = Dict::new();
        let mut offs = Dict::new();
        let mut off: usize = 0;
        let mut blobs: Vec<BitBuf> = Vec::new();
        let mut p: usize = 0;
        proof {
            assert(bufs_cat(blobs@) =~= Seq::<bool>::empty());
        }
        while p < nsl
            invariant
                self.wf(),
                c == self.cfg(),
                cfg_bijective(c),
                nsl == slices@.len() <= u32::MAX,
                forall|i: int|
                    0 <= i < slices@.len() ==> #[trigger] slices@[i]@.len() + 0x40_0000
                        <= usize::MAX,
                order@.len() == nsl,
                forall|i: int| 0 <= i < nsl ==> order@[i] < nsl,
                p <= nsl,
                history.inv(),
                offs.inv(),
                off as nat == bufs_cat(blobs@).len(),
                off as nat == bufs_len(blobs@),
                mp == max_slice_len(slices@) * op_bound(c),
                allfits == (c.m >= 1 && max_slice_len(slices@) <= u32::MAX && slices@.len() * mp
                    <= usize::MAX),
                allfits ==> off as nat <= (p as nat) * mp,
                dict_ok(c, history@, bufs_cat(blobs@)),
                dict_vals_bounded(history@, off as nat),
                forall|kk: Seq<u8>|
                    offs@.dom().contains(kk) ==> (#[trigger] offs@[kk]) <= off && slice_ok(
                        c,
                        bufs_cat(blobs@),
                        offs@[kk] as nat,
                        kk,
                    ),
                forall|q: int|
                    0 <= q < p ==> #[trigger] offs@.contains_key(
                        slices@[order@[q] as int]@,
                    ),
            decreases nsl - p,
        {
            let ghost cur = bufs_cat(blobs@);
            let idx = order[p] as usize;
            let slice = &slices[idx];
            proof {
                assert(slice@ == slices@[idx as int]@);
            }
            let whole_len = slice.len();
            proof {
                assert(slice@.subrange(0, whole_len as int) =~= slice@);
            }
            match offs.get_range(slice, 0, whole_len) {
                Some(_) => {},
                None => {
                    match history.get_range(slice, 0, whole_len) {
                        Some(h) => {
                            proof {
                                assert(decodable(c, cur, history@[slice@] as nat, slice@, 1, 1));
                                lemma_slice_ok_from_decodable(
                                    c,
                                    cur,
                                    history@[slice@] as nat,
                                    slice@,
                                    1,
                                    1,
                                );
                            }
                            offs.insert_range(slice, 0, whole_len, h);
                        },
                        None => {
                            let ghost off_pre = off as nat;
                            proof {
                                if allfits {
                                    lemma_call_fits(
                                        slices@,
                                        idx as int,
                                        c,
                                        p as nat,
                                        off as nat,
                                    );
                                }
                            }
                            let blob = match self.encode1(
                                &mut history,
                                &mut off,
                                slice,
                                Ghost(cur),
                            ) {
                                Ok(bl) => bl,
                                Err(e) => {
                                    proof {
                                        if allfits {
                                            assert(false);
                                        }
                                    }
                                    return Err(e);
                                },
                            };
                            let ghost bpre = blobs@;
                            blobs.push(blob);
                            proof {
                                assert(blobs@.drop_last() =~= bpre);
                                assert(bufs_cat(blobs@) =~= blob@ + cur);
                                if allfits {
                                    lemma_sum_step(
                                        slices@,
                                        idx as int,
                                        c,
                                        p as nat,
                                        off_pre,
                                        blob@.len(),
                                    );
                                }
                                lemma_slice_ok_from_decodable(
                                    c,
                                    blob@ + cur,
                                    (blob@ + cur).len(),
                                    slice@,
                                    0,
                                    0,
                                );
                                assert forall|kk: Seq<u8>| offs@.dom().contains(kk) implies (
                                #[trigger] offs@[kk]) <= off && slice_ok(
                                    c,
                                    bufs_cat(blobs@),
                                    offs@[kk] as nat,
                                    kk,
                                ) by {
                                    lemma_slice_ok_prepend(c, blob@, cur, offs@[kk] as nat, kk);
                                }
                            }
                            offs.insert_range(slice, 0, whole_len, off);
                        },
                    }
                },
            }
            p = p + 1;
            proof {
                assert forall|q: int| 0 <= q < p implies #[trigger] offs@.contains_key(
                    slices@[order@[q] as int]@,
                ) by {
                    if q == p - 1 {
                        assert(offs@.contains_key(slice@));
                    }
                }
                if allfits {
                    assert(((p - 1) as nat) * mp <= (p as nat) * mp) by {
                        vstd::arithmetic::mul::lemma_mul_inequality(
                            p - 1,
                            p as int,
                            mp as int,
                        );
                    }
                }
            }
        }
        let total = off;
        // the blobs were collected in encode order; the stream is their
        // reverse concatenation
        let mut bits = BitBuf::new();
        let mut t: usize = blobs.len();
        proof {
            assert(blobs@.subrange(0, blobs@.len() as int) =~= blobs@);
            assert(bits@ + bufs_cat(blobs@.subrange(0, t as int)) =~= bufs_cat(blobs@));
        }
        while t > 0
            invariant
                t <= blobs@.len(),
                bits@.len() + bufs_len(blobs@.subrange(0, t as int)) == bufs_len(blobs@),
                bits@ + bufs_cat(blobs@.subrange(0, t as int)) == bufs_cat(blobs@),
            decreases t,
        {
            t = t - 1;
            bits.append(&blobs[t]);
            proof {
                let sub1 = blobs@.subrange(0, t + 1);
                assert(sub1.drop_last() =~= blobs@.subrange(0, t as int));
                assert(sub1.last() == blobs@[t as int]);
                assert(bits@ + bufs_cat(blobs@.subrange(0, t as int)) =~= bufs_cat(blobs@));
            }
        }
        proof {
            assert(blobs@.subrange(0, 0) =~= Seq::<BitBuf>::empty());
            assert(bits@ + Seq::<bool>::empty() =~= bits@);
            assert(bits@ == bufs_cat(blobs@));
            assert(bits@.len() == total);
            assert forall|i: int| 0 <= i < nsl implies offs@.contains_key(slices@[i]@) by {
                let q = choose|q: int| 0 <= q < order@.len() && order@[q] == i as u32;
                assert(order@.contains(i as u32));
                assert(offs@.contains_key(slices@[order@[q] as int]@));
            }
        }
        let mut pairs: Vec<(usize, usize)> = Vec::new();
        let mut i: usize = 0;
        while i < nsl
            invariant
                self.wf(),
                c == self.cfg(),
                nsl == slices@.len(),
                offs.inv(),
                i <= nsl,
                total == bits@.len(),
                forall|kk: Seq<u8>|
                    offs@.dom().contains(kk) ==> (#[trigger] offs@[kk]) <= total && slice_ok(
                        c,
                        bits@,
                        offs@[kk] as nat,
                        kk,
                    ),
                forall|q: int| 0 <= q < nsl ==> #[trigger] offs@.contains_key(slices@[q]@),
                pairs@.len() == i,
                forall|q: int|
                    0 <= q < i ==> (#[trigger] pairs@[q]).0 == total - offs@[slices@[q]@]
                        && pairs@[q].1 == slices@[q]@.len() && pairs@[q].0 <= total,
                forall|q: int|
                    0 <= q < i ==> decode_need(
                        c,
                        bits@,
                        (#[trigger] pairs@[q]).0 as nat,
                        slices@[q]@.len(),
                        0,
                        2 * slices@[q]@.len(),
                        0,
                    ) == Ok::<Seq<u8>, CodecError>(slices@[q]@),
            decreases nsl - i,
        {
            let slice = &slices[i];
            let whole_len = slice.len();
            proof {
                assert(slice@.subrange(0, whole_len as int) =~= slice@);
                assert(offs@.contains_key(slice@));
                assert(offs@[slice@] <= total as nat);
            }
            let o = match offs.get_range(slice, 0, whole_len) {
                Some(o) => o,
                None => vstd::pervasive::unreached(),
            };
            pairs.push((total - o, whole_len));
            i = i + 1;
        }
        Ok((bits, pairs))
    }

    /// Decodes every (offset, length) pair against the shared stream,
    /// stopping at the first failure.
    pub fn decode_all(&self, bits: &BitBuf, offs: &Vec<(usize, usize)>) -> (r: Result<
        Vec<Vec<u8>>,
        CodecError,
    >)
        requires
            self.wf(),
            forall|i: int| 0 <= i < offs@.len() ==> (#[trigger] offs@[i]).1 <= usize::MAX / 2,
        ensures
            r matches Ok(v) ==> v@.len() == offs@.len() && forall|i: int|
                0 <= i < offs@.len() ==> decode_need(
                    self.cfg(),
                    bits@,
                    (#[trigger] offs@[i]).0 as nat,
                    offs@[i].1 as nat,
                    0,
                    2 * offs@[i].1 as nat,
                    0,
                ) == Ok::<Seq<u8>, CodecError>(v@[i]@),
            r matches Err(e) ==> exists|i: int|
                0 <= i < offs@.len() && #[trigger] decode_need(
                    self.cfg(),
                    bits@,
                    offs@[i].0 as nat,
                    offs@[i].1 as nat,
                    0,
                    2 * offs@[i].1 as nat,
                    0,
                ) == Err::<Seq<u8>, CodecError>(e),
    {
        let n = offs.len();
        let mut out: Vec<Vec<u8>> = Vec::new();
        let mut i: usize = 0;
        while i < n
            invariant
                self.wf(),
                n == offs@.len(),
                forall|q: int| 0 <= q < offs@.len() ==> (#[trigger] offs@[q]).1 <= usize::MAX / 2,
                i <= n,
                out@.len() == i,
                forall|q: int|
                    0 <= q < i ==> decode_need(
                        self.cfg(),
                        bits@,
                        (#[trigger] offs@[q]).0 as nat,
                        offs@[q].1 as nat,
                        0,
                        2 * offs@[q].1 as nat,
                        0,
                    ) == Ok::<Seq<u8>, CodecError>(out@[q]@),
            decreases n - i,
        {
            let (o, ln) = offs[i];
            match self.decode_at(bits, o, ln) {
                Ok(v) => {
                    out.push(v);
                },
                Err(e) => {
                    proof {
                        assert(decode_need(
                            self.cfg(),
                            bits@,
                            offs@[i as int].0 as nat,
                            offs@[i as int].1 as nat,
                            0,
                            2 * offs@[i as int].1 as nat,
                            0,
                        ) == Err::<Seq<u8>, CodecError>(e));
                    }
                    return Err(e);
                },
            }
            i = i + 1;
        }
        Ok(out)
    }
}

/// A failed symbol serialisation can only be one of the encode-side
/// conditions.
proof fn lemma_syms_bits_err(c: GlzCfg, syms: Seq<nat>)
    ensures
        syms_bits(c, syms) matches Err(e) ==> e == CodecError::Cast,
    decreases syms.len(),
{
    if syms.len() > 0 && remap_enc(c, syms.first()) <= u32::MAX {
        lemma_syms_bits_err(c, syms.drop_first());
    }
}

/// A failed operation serialisation can only be one of the encode-side
/// conditions.
proof fn lemma_op_bits_err(c: GlzCfg, op: GLZSym)
    ensures
        op_bits(c, op) matches Err(e) ==> (e == CodecError::Overflow || e == CodecError::Cast
            || e == CodecError::BadCount || e == CodecError::BadSize),
{
    match op_syms(c, op) {
        Ok(syms) => {
            lemma_syms_bits_err(c, syms);
        },
        Err(_) => {},
    }
}


/// The table-less configuration the seeding pass probes with: the
/// given `k`, or the neutral default of one past the symbol width.
pub open spec fn seed_cfg(k: Option<usize>, l: nat, m: nat) -> GlzCfg {
    GlzCfg {
        k: (match k {
            Some(kk) => kk as nat,
            None => 9,
        }),
        enc: Seq::empty(),
        dec: Seq::empty(),
        has: false,
        l: l,
        m: m,
    }
}

/// What refitting from a histogram guarantees about the engine built:
/// the sorted remap pair, the bound, and the optimality of a searched
/// `k` against the sorted counts.
pub open spec fn from_hist_post(
    g: GlzCfg,
    k: Option<usize>,
    l: nat,
    m: nat,
    counts: Seq<usize>,
) -> bool {
    let bound = crate::hist::nonzero_upper(counts);
    &&& g.l == l
    &&& g.m == m
    &&& g.has
    &&& g.k <= 31
    &&& g.dec.len() == bound
    &&& g.enc.len() == bound
    &&& crate::hist::inverse_tables(g.enc, g.dec)
    &&& crate::hist::sorted_rank_table(counts, bound, g.dec)
    &&& (k matches Some(kk) ==> g.k == kk)
    &&& (bound >= 1 ==> cfg_wf(g))
    &&& (bound >= 1 ==> cfg_bijective(g))
    &&& (k is None && bound >= 1 ==> g.k <= crate::rice::bit_len((bound - 1) as nat) && (
    forall|k2: nat|
        k2 <= crate::rice::bit_len((bound - 1) as nat) ==> crate::rice::rice_cost(
            counts,
            g.enc,
            true,
            g.k,
        ) <= #[trigger] crate::rice::rice_cost(counts, g.enc, true, k2)) && (forall|k2: nat|
        k2 <= crate::rice::bit_len((bound - 1) as nat) && #[trigger] crate::rice::rice_cost(
            counts,
            g.enc,
            true,
            k2,
        ) == crate::rice::rice_cost(counts, g.enc, true, g.k) ==> g.k <= k2))
}

/// The remapped Rice symbols of a stream, read one after the other
/// until it is exhausted; a symbol at the machine word's edge is a
/// `Cast` error, as it could not be counted.
pub open spec fn syms_walk(k: nat, dec: Seq<u32>, has: bool, s: Seq<bool>, off: nat) -> Result<
    Seq<u32>,
    CodecError,
>
    decreases s.len() - off,
{
    if off >= s.len() {
        Ok(Seq::empty())
    } else {
        match bij_decode(k, dec, has, s, off) {
            Err(e) => Err(e),
            Ok((v, c)) => {
                if c < 1 || off + c > s.len() {
                    Err(CodecError::Truncated)
                } else if v >= usize::MAX {
                    Err(CodecError::Cast)
                } else {
                    match syms_walk(k, dec, has, s, off + c) {
                        Ok(rest) => Ok(seq![v as u32] + rest),
                        Err(e) => Err(e),
                    }
                }
            },
        }
    }
}

impl GLZ {
    /// Walks the Rice symbols of a coded stream, counting each into a
    /// fresh histogram: the harvesting step of seeding.
    pub fn traverse_syms(&self, bits: &BitBuf) -> (r: Result<Hist, CodecError>)
        requires
            self.wf(),
        ensures
            match r {
                Ok(h) => (match syms_walk(
                    self.cfg().k,
                    self.cfg().dec,
                    self.cfg().has,
                    bits@,
                    0,
                ) {
                    Ok(ws) => {
                        &&& !h.has_table()
                        &&& h.counts().len() == crate::hist::seed_bound(ws)
                        &&& h.counts().len() <= u32::MAX + 1
                        &&& crate::hist::sum_counts(h.counts()) == ws.len()
                        &&& crate::hist::sum_counts(h.counts()) <= bits@.len()
                        &&& forall|v: nat|
                            v <= u32::MAX ==> #[trigger] h.count_at(v)
                                == crate::hist::occurrences(ws, v)
                    },
                    Err(_) => false,
                }),
                Err(e) => syms_walk(self.cfg().k, self.cfg().dec, self.cfg().has, bits@, 0)
                    == Err::<Seq<u32>, CodecError>(e),
            },
    {
        let ghost c = self.cfg();
        let len = bits.len();
        let mut hist = Hist::new();
        let mut off: usize = 0;
        let ghost mut walked: Seq<u32> = Seq::empty();
        proof {
            assert(self.rice.usable());
        }
        while off < len
            invariant
                self.wf(),
                c == self.cfg(),
                self.rice.usable(),
                len == bits@.len(),
                off <= len,
                !hist.has_table(),
                hist.counts().len() == crate::hist::seed_bound(walked),
                hist.counts().len() <= u32::MAX + 1,
                walked.len() <= off,
                crate::hist::sum_counts(hist.counts()) == walked.len(),
                forall|v: nat|
                    v <= u32::MAX ==> #[trigger] hist.count_at(v) == crate::hist::occurrences(
                        walked,
                        v,
                    ),
                syms_walk(c.k, c.dec, c.has, bits@, 0) == (match syms_walk(
                    c.k,
                    c.dec,
                    c.has,
                    bits@,
                    off as nat,
                ) {
                    Ok(rest) => Ok::<Seq<u32>, CodecError>(walked + rest),
                    Err(e) => Err::<Seq<u32>, CodecError>(e),
                }),
            decreases len - off,
        {
            match self.rice.decode_u32_at(bits, off) {
                Err(e) => {
                    return Err(e);
                },
                Ok((sym, diff)) => {
                    proof {
                        crate::rice::lemma_first_zero_props(bits@, off as nat);
                        match crate::rice::first_zero(bits@, off as nat) {
                            Some(z) => {
                                assert(diff == (z - off) + 1 + c.k);
                                assert(z + 1 + c.k <= bits@.len());
                            },
                            None => {
                                assert(false);
                            },
                        }
                        assert(diff >= 1 && off + diff <= len);
                    }
                    if sym as u64 >= usize::MAX as u64 {
                        // the count slot must stay addressable
                        return Err(CodecError::Cast);
                    }
                    let ghost pre = hist.counts();
                    let ghost walked_pre = walked;
                    proof {
                        crate::hist::lemma_occurrences_le(walked, sym as nat);
                    }
                    hist.increment(sym);
                    proof {
                        walked = walked.push(sym);
                        assert(walked.drop_last() =~= walked_pre);
                        assert forall|v: nat| v <= u32::MAX implies #[trigger] hist.count_at(v)
                            == crate::hist::occurrences(walked, v) by {
                            assert(crate::hist::occurrences(walked, v)
                                == crate::hist::occurrences(walked_pre, v) + (if sym as nat
                                == v {
                                1nat
                            } else {
                                0nat
                            }));
                        }
                        assert forall|j: nat| j < hist.counts().len() implies #[trigger] hist
                            .counts()[j as int] == (if j < pre.len() {
                            pre[j as int] as nat
                        } else {
                            0nat
                        }) + (if j == sym as nat {
                            1nat
                        } else {
                            0nat
                        }) by {
                            assert(hist.count_at(j) == hist.counts()[j as int]);
                        }
                        crate::hist::lemma_sum_counts_update(
                            pre,
                            hist.counts(),
                            sym as nat,
                            1,
                        );
                        match syms_walk(c.k, c.dec, c.has, bits@, (off + diff) as nat) {
                            Ok(rest) => {
                                assert(walked + rest =~= walked_pre + (seq![sym] + rest));
                            },
                            Err(_) => {},
                        }
                    }
                    off = off + diff;
                },
            }
        }
        proof {
            assert(syms_walk(c.k, c.dec, c.has, bits@, off as nat) == Ok::<
                Seq<u32>,
                CodecError,
            >(Seq::empty()));
            assert(walked + Seq::<u32>::empty() =~= walked);
        }
        Ok(hist)
    }

    /// Builds an engine from a histogram of operation symbols: the
    /// histogram is sorted into a remap table pair, and `k` is taken as
    /// given or found by exhaustive search against the sorted counts.
    pub fn from_hist(k: Option<usize>, l: usize, m: usize, hist: &Hist) -> (r: Result<
        GLZ,
        CodecError,
    >)
        requires
            l <= 20,
            m <= 20,
            k matches Some(kk) ==> kk <= 31,
            crate::hist::nonzero_upper(hist.counts()) <= 0x4000_0000,
            hist.counts().len() <= u32::MAX,
            forall|v: nat|
                v < crate::hist::nonzero_upper(hist.counts()) ==> crate::hist::strided_sum(
                    hist.counts(),
                    v,
                    crate::hist::nonzero_upper(hist.counts()),
                ) <= usize::MAX,
        ensures
            r matches Ok(g) ==> from_hist_post(g.cfg(), k, l as nat, m as nat, hist.counts()),
            k is Some ==> r is Ok,
            (k is None && hist.counts().len() <= 0x4000_0000 && crate::hist::sum_counts(
                hist.counts(),
            ) * (hist.counts().len() + crate::hist::nonzero_upper(hist.counts()) + 33)
                <= usize::MAX) ==> r is Ok,
            r matches Err(e) ==> e == CodecError::Cast || e == CodecError::Overflow,
    {
        let ghost searchable = k is None && hist.counts().len() <= 0x4000_0000
            && crate::hist::sum_counts(hist.counts()) * (hist.counts().len()
            + crate::hist::nonzero_upper(hist.counts()) + 33) <= usize::MAX;
        let mut h = hist.duplicate();
        h.sort();
        let bound = h.bound();
        let kk: usize = match k {
            Some(kk) => kk,
            None => {
                if bound == 0 {
                    0
                } else {
                    proof {
                        crate::bits::lemma_exp2_mono(30, 32);
                        assert(exp2(30) == 0x4000_0000) by {
                            reveal_with_fuel(exp2, 31);
                        }
                        crate::rice::lemma_bit_len_le((bound - 1) as nat, 30);
                    }
                    proof {
                        if searchable {
                            lemma_sorted_search_fits(h, hist.counts());
                        }
                    }
                    match crate::rice::best_k_checked(&h) {
                        Ok(bk) => bk,
                        Err(e) => {
                            proof {
                                if searchable {
                                    assert(false);
                                }
                            }
                            return Err(e);
                        },
                    }
                }
            },
        };
        let rice = BijectEncoder::new(GolombRice_::new(kk), h);
        let g = GLZ { l, m, rice };
        proof {
            if crate::hist::nonzero_upper(hist.counts()) >= 1 {
                lemma_cfg_bijective_table(g.cfg());
            }
        }
        Ok(g)
    }

    /// Seeds an engine from sample data: the sample is encoded once
    /// with a neutral coder, the resulting operation stream is
    /// harvested into a histogram, and the engine is refit from it.
    pub fn from_seed(k: Option<usize>, l: usize, m: usize, seed: &Vec<u8>) -> (r: Result<
        GLZ,
        CodecError,
    >)
        requires
            l <= 20,
            m <= 20,
            k matches Some(kk) ==> kk <= 31,
            seed@.len() + 0x40_0000 <= usize::MAX,
        ensures
            r matches Ok(g) ==> {
                &&& g.cfg().l == l
                &&& g.cfg().m == m
                &&& g.cfg().has
                &&& g.cfg().k <= 31
                &&& g.cfg().enc.len() == g.cfg().dec.len()
                &&& crate::hist::inverse_tables(g.cfg().enc, g.cfg().dec)
                &&& (k matches Some(kk) ==> g.cfg().k == kk)
                &&& (g.cfg().dec.len() >= 1 ==> cfg_bijective(g.cfg()))
            },
            (k is Some && m >= 1 && seed@.len() <= u32::MAX && seed@.len() * op_bound(
                seed_cfg(k, l as nat, m as nat),
            ) <= usize::MAX) ==> r is Ok,
            (m >= 1 && seed@.len() <= u32::MAX && (seed@.len() * op_bound(
                seed_cfg(k, l as nat, m as nat),
            )) * 0x80_0000 <= usize::MAX) ==> r is Ok,
    {
        let ghost okchain = m >= 1 && seed@.len() <= u32::MAX && seed@.len() * op_bound(
            seed_cfg(k, l as nat, m as nat),
        ) <= usize::MAX;
        let ghost fits2 = m >= 1 && seed@.len() <= u32::MAX && (seed@.len() * op_bound(
            seed_cfg(k, l as nat, m as nat),
        )) * 0x80_0000 <= usize::MAX;
        proof {
            if fits2 {
                let x = seed@.len() * op_bound(seed_cfg(k, l as nat, m as nat));
                assert(x <= x * 0x80_0000) by (nonlinear_arith)
                    requires
                        x >= 0,
                ;
            }
        }
        let k0: usize = match k {
            Some(kk) => kk,
            None => 9,
        };
        let probe = GLZ::with_config(k0, l, m);
        proof {
            lemma_cfg_bijective_no_table(probe.cfg());
            assert(probe.cfg() == seed_cfg(k, l as nat, m as nat));
        }
        let bits = match probe.encode(seed) {
            Ok(b) => b,
            Err(e) => {
                proof {
                    if okchain {
                        assert(false);
                    }
                }
                return Err(e);
            },
        };
        let hist = match probe.traverse_syms(&bits) {
            Ok(h) => h,
            Err(e) => {
                proof {
                    if okchain {
                        assert(walk_ok_bounded(probe.cfg(), bits@));
                        reveal(walk_ok_bounded);
                        assert(false);
                    }
                }
                return Err(e);
            },
        };
        let total_bits = bits.len();
        proof {
            assert(crate::hist::sum_counts(hist.counts()) <= total_bits);
            if okchain {
                assert(walk_ok_bounded(probe.cfg(), bits@));
                reveal(walk_ok_bounded);
                match syms_walk(probe.cfg().k, probe.cfg().dec, probe.cfg().has, bits@, 0) {
                    Ok(ws) => {
                        crate::rice::lemma_seed_bound(ws, sym_bound(probe.cfg()));
                        assert(hist.counts().len() <= sym_bound(probe.cfg()));
                        lemma_exp2_mono(probe.cfg().l, 20);
                        lemma_exp2_mono(probe.cfg().m, 20);
                        assert(exp2(20) == 0x10_0000) by {
                            reveal_with_fuel(exp2, 21);
                        }
                        assert(hist.counts().len() < 0x40_0000);
                        crate::hist::lemma_nonzero_upper_le(hist.counts());
                        assert(crate::hist::nonzero_upper(hist.counts()) < 0x40_0000);
                    },
                    Err(_) => {
                        assert(false);
                    },
                }
            }
        }
        let bound = hist.bound();
        if bound > 0x4000_0000 {
            proof {
                if okchain {
                    assert(false);
                }
            }
            return Err(CodecError::Cast);
        }
        if hist.counts_len() > u32::MAX as usize {
            proof {
                if okchain {
                    assert(false);
                }
            }
            return Err(CodecError::Cast);
        }
        proof {
            crate::hist::lemma_nonzero_upper_le(hist.counts());
            assert forall|v: nat|
                v < crate::hist::nonzero_upper(hist.counts()) implies crate::hist::strided_sum(
                hist.counts(),
                v,
                crate::hist::nonzero_upper(hist.counts()),
            ) <= usize::MAX by {
                crate::hist::lemma_strided_le_sum(
                    hist.counts(),
                    v,
                    crate::hist::nonzero_upper(hist.counts()),
                );
            }
        }
        proof {
            if fits2 {
                let b = bits@.len();
                let x = seed@.len() * op_bound(seed_cfg(k, l as nat, m as nat));
                let width = hist.counts().len() + crate::hist::nonzero_upper(hist.counts())
                    + 33;
                assert(crate::hist::sum_counts(hist.counts()) <= b);
                assert(hist.counts().len() < 0x40_0000);
                crate::hist::lemma_nonzero_upper_le(hist.counts());
                assert(width <= 0x80_0000);
                assert(crate::hist::sum_counts(hist.counts()) * width <= b * width) by {
                    vstd::arithmetic::mul::lemma_mul_inequality(
                        crate::hist::sum_counts(hist.counts()) as int,
                        b as int,
                        width as int,
                    );
                }
                assert(b * width <= b * 0x80_0000) by (nonlinear_arith)
                    requires
                        width <= 0x80_0000,
                        b >= 0,
                ;
                assert(b <= x);
                assert(b * 0x80_0000 <= x * 0x80_0000) by {
                    vstd::arithmetic::mul::lemma_mul_inequality(
                        b as int,
                        x as int,
                        0x80_0000,
                    );
                }
            }
        }
        GLZ::from_hist(k, l, m, &hist)
    }
}


/// The argument accumulated by folding `chunks` onto `acc`, nibble by
/// nibble, as the decoder does.
spec fn fold_arg(c: GlzCfg, acc: nat, chunks: Seq<nat>) -> nat
    decreases chunks.len(),
{
    if chunks.len() == 0 {
        acc
    } else {
        fold_arg(
            c,
            acc * exp2(c.m) + ((chunks.first() - arg_base(c)) as nat) + 1,
            chunks.drop_first(),
        )
    }
}

/// Every nibble symbol of an argument lies in the nibble range.
proof fn lemma_arg_syms_range(c: GlzCfg, a: nat)
    ensures
        forall|i: int|
            0 <= i < arg_syms(c, a).len() ==> arg_base(c) <= #[trigger] arg_syms(c, a)[i]
                < arg_base(c) + exp2(c.m),
    decreases a,
{
    if a > 0 {
        lemma_exp2_pos(c.m);
        let a2 = ((a - 1) as nat) / exp2(c.m);
        let cv = ((a - 1) as nat) % exp2(c.m) + arg_base(c);
        lemma_arg_syms_range(c, a2);
        vstd::arithmetic::div_mod::lemma_mod_division_less_than_divisor(
            (a - 1) as int,
            exp2(c.m) as int,
        );
        assert forall|i: int| 0 <= i < arg_syms(c, a).len() implies arg_base(c)
            <= #[trigger] arg_syms(c, a)[i] < arg_base(c) + exp2(c.m) by {
            if i < arg_syms(c, a2).len() {
                assert(arg_syms(c, a)[i] == arg_syms(c, a2)[i]);
            } else {
                assert(arg_syms(c, a)[i] == cv);
            }
        }
    }
}

/// Folding never shrinks the accumulator.
proof fn lemma_fold_ge(c: GlzCfg, acc: nat, chunks: Seq<nat>)
    ensures
        fold_arg(c, acc, chunks) >= acc,
    decreases chunks.len(),
{
    if chunks.len() > 0 {
        lemma_exp2_pos(c.m);
        let acc2 = acc * exp2(c.m) + ((chunks.first() - arg_base(c)) as nat) + 1;
        assert(acc * exp2(c.m) >= acc * 1) by (nonlinear_arith)
            requires
                exp2(c.m) >= 1,
                acc >= 0,
        ;
        lemma_fold_ge(c, acc2, chunks.drop_first());
    }
}

/// Folding past one more trailing nibble.
proof fn lemma_fold_snoc(c: GlzCfg, acc: nat, chunks: Seq<nat>, x: nat)
    ensures
        fold_arg(c, acc, chunks.push(x)) == fold_arg(c, acc, chunks) * exp2(c.m) + ((x
            - arg_base(c)) as nat) + 1,
    decreases chunks.len(),
{
    if chunks.len() == 0 {
        assert(chunks.push(x).first() == x);
        assert(chunks.push(x).drop_first() =~= Seq::<nat>::empty());
        let accx = acc * exp2(c.m) + ((x - arg_base(c)) as nat) + 1;
        assert(fold_arg(c, acc, chunks.push(x)) == fold_arg(c, accx, Seq::<nat>::empty()));
    } else {
        assert(chunks.push(x).first() == chunks.first());
        assert(chunks.push(x).drop_first() =~= chunks.drop_first().push(x));
        let acc2 = acc * exp2(c.m) + ((chunks.first() - arg_base(c)) as nat) + 1;
        assert(fold_arg(c, acc, chunks.push(x)) == fold_arg(
            c,
            acc2,
            chunks.drop_first().push(x),
        ));
        assert(fold_arg(c, acc, chunks) == fold_arg(c, acc2, chunks.drop_first()));
        lemma_fold_snoc(c, acc2, chunks.drop_first(), x);
    }
}

/// Folding the nibbles of `a` onto a zero accumulator restores `a`:
/// the biased base is a bijective numeration.
proof fn lemma_fold_arg_value(c: GlzCfg, a: nat)
    ensures
        fold_arg(c, 0, arg_syms(c, a)) == a,
    decreases a,
{
    if a > 0 {
        lemma_exp2_pos(c.m);
        let b = exp2(c.m);
        let a2 = ((a - 1) as nat) / b;
        let cv = ((a - 1) as nat) % b + arg_base(c);
        lemma_fold_arg_value(c, a2);
        assert(arg_syms(c, a) =~= arg_syms(c, a2).push(cv));
        lemma_fold_snoc(c, 0, arg_syms(c, a2), cv);
        vstd::arithmetic::div_mod::lemma_fundamental_div_mod((a - 1) as int, b as int);
        assert(a2 * b == b * a2) by (nonlinear_arith);
    }
}

/// Reading the coded symbols of one operation back: the nibble chunks
/// fold onto the accumulator and the closing symbol decides the
/// operation.
proof fn lemma_decode_syms(
    c: GlzCfg,
    s: Seq<bool>,
    off: nat,
    acc: nat,
    chunks: Seq<nat>,
    last_sym: nat,
    code: Seq<bool>,
)
    requires
        cfg_bijective(c),
        forall|i: int|
            0 <= i < chunks.len() ==> arg_base(c) <= #[trigger] chunks[i] < arg_base(c)
                + exp2(c.m),
        last_sym < arg_base(c),
        acc <= u32::MAX,
        fold_arg(c, acc, chunks) <= u32::MAX,
        syms_bits(c, chunks + seq![last_sym]) == Ok::<Seq<bool>, CodecError>(code),
        off + code.len() <= s.len(),
        s.subrange(off as int, (off + code.len()) as int) == code,
    ensures
        decode_op_arg(c, s, off, acc) == (if last_sym >= ref_base() {
            Ok::<(GLZSym, nat), CodecError>(
                (
                    GLZSym::Ref {
                        off: fold_arg(c, acc, chunks) as usize,
                        size: ((last_sym - 256) + 2) as usize,
                    },
                    off + code.len(),
                ),
            )
        } else if fold_arg(c, acc, chunks) + 1 <= usize::MAX {
            Ok::<(GLZSym, nat), CodecError>(
                (
                    GLZSym::Imm {
                        count: (fold_arg(c, acc, chunks) + 1) as usize,
                        imm: last_sym as u8,
                    },
                    off + code.len(),
                ),
            )
        } else {
            Err::<(GLZSym, nat), CodecError>(CodecError::Cast)
        }),
    decreases chunks.len(),
{
    let syms = chunks + seq![last_sym];
    let first = syms.first();
    assert(syms.len() >= 1);
    assert(first < sym_bound(c)) by {
        lemma_exp2_pos(c.l);
        lemma_exp2_pos(c.m);
        if chunks.len() > 0 {
            assert(first == chunks[0]);
        }
    }
    let rm = remap_enc(c, first);
    assert(rm <= u32::MAX);
    let ricecode = rice_bits(c.k, rm);
    let rl = ricecode.len();
    crate::rice::lemma_rice_len(c.k, rm);
    let rest = syms.drop_first();
    let coderest = (match syms_bits(c, rest) {
        Ok(cr) => cr,
        Err(_) => Seq::empty(),
    });
    assert(syms_bits(c, rest) == Ok::<Seq<bool>, CodecError>(coderest));
    assert(code == ricecode + coderest);
    assert(code.len() == rl + coderest.len());
    assert forall|i: int| 0 <= i < code.len() implies s[off + i] == code[i] by {
        assert(s.subrange(off as int, (off + code.len()) as int)[i] == s[off + i]);
    }
    assert(s.subrange(off as int, (off + rl) as int) =~= ricecode) by {
        assert(forall|i: int| 0 <= i < rl ==> s[off + i] == code[i] && code[i] == ricecode[i]);
    }
    crate::rice::lemma_rice_roundtrip(c.k, rm, s, off);
    assert(crate::rice::rice_decode(c.k, s, off) == Ok::<(nat, nat), CodecError>((rm, rl)));
    let w = if c.has {
        map_through(c.dec, rm)
    } else {
        rm
    };
    assert(w == first) by {
        if c.has {
            crate::hist::lemma_map_roundtrip(c.enc, c.dec, first);
        }
    }
    assert(first <= u32::MAX) by {
        lemma_exp2_mono(c.l, 20);
        lemma_exp2_mono(c.m, 20);
        assert(exp2(20) == 0x10_0000) by {
            reveal_with_fuel(exp2, 21);
        }
    }
    assert(bij_decode(c.k, c.dec, c.has, s, off) == Ok::<(nat, nat), CodecError>((first, rl)));
    assert(rl >= 1);
    assert(off + rl <= s.len());
    if chunks.len() == 0 {
        assert(first == last_sym);
        assert(rest =~= Seq::<nat>::empty());
        assert(coderest =~= Seq::<bool>::empty());
        assert(code.len() == rl);
        assert(fold_arg(c, acc, chunks) == acc);
        if last_sym >= ref_base() {
            assert(decode_op_arg(c, s, off, acc) == Ok::<(GLZSym, nat), CodecError>(
                (
                    GLZSym::Ref { off: acc as usize, size: ((last_sym - 256) + 2) as usize },
                    off + rl,
                ),
            ));
        }
    } else {
        assert(first == chunks[0]);
        assert(first >= arg_base(c));
        let b = exp2(c.m);
        let acc2 = acc * b + ((first - arg_base(c)) as nat) + 1;
        assert(fold_arg(c, acc, chunks) == fold_arg(c, acc2, chunks.drop_first()));
        lemma_fold_ge(c, acc2, chunks.drop_first());
        assert(acc2 <= u32::MAX);
        assert(rest =~= chunks.drop_first() + seq![last_sym]);
        assert(s.subrange((off + rl) as int, (off + rl + coderest.len()) as int) =~= coderest)
            by {
            assert(forall|i: int|
                0 <= i < coderest.len() ==> s[off + rl + i] == code[rl + i] && code[rl + i]
                    == coderest[i]);
        }
        lemma_decode_syms(c, s, off + rl, acc2, chunks.drop_first(), last_sym, coderest);
        assert(arg_base(c) <= first);
        assert(decode_op_arg(c, s, off, acc) == decode_op_arg(c, s, off + rl, acc2));
    }
}

/// Round trip at the operation level: reading back the wire form of a
/// well-formed operation, under a bijective configuration, yields the
/// operation and consumes exactly its code.
pub proof fn lemma_op_roundtrip(c: GlzCfg, op: GLZSym, code: Seq<bool>, s: Seq<bool>, off: nat)
    requires
        cfg_bijective(c),
        op_bits(c, op) == Ok::<Seq<bool>, CodecError>(code),
        off + code.len() <= s.len(),
        s.subrange(off as int, (off + code.len()) as int) == code,
    ensures
        decode_op(c, s, off) == Ok::<(GLZSym, nat), CodecError>((op, off + code.len())),
{
    lemma_exp2_pos(c.l);
    lemma_exp2_pos(c.m);
    match op {
        GLZSym::Imm { count, imm } => {
            let a0 = (count - 1) as nat;
            let syms = arg_syms(c, a0) + seq![imm as nat];
            assert(op_syms(c, op) == Ok::<Seq<nat>, CodecError>(syms));
            lemma_arg_syms_range(c, a0);
            lemma_fold_arg_value(c, a0);
            lemma_decode_syms(c, s, off, 0, arg_syms(c, a0), imm as nat, code);
            assert(fold_arg(c, 0, arg_syms(c, a0)) == a0);
            assert((imm as nat) < ref_base());
            assert(a0 + 1 <= usize::MAX);
            assert(decode_op(c, s, off) == Ok::<(GLZSym, nat), CodecError>(
                (GLZSym::Imm { count: (a0 + 1) as usize, imm: imm }, off + code.len()),
            ));
        },
        GLZSym::Ref { off: roff, size } => {
            let a0 = roff as nat;
            let last = (size - 2) as nat + ref_base();
            let syms = arg_syms(c, a0) + seq![last];
            assert(op_syms(c, op) == Ok::<Seq<nat>, CodecError>(syms));
            lemma_arg_syms_range(c, a0);
            lemma_fold_arg_value(c, a0);
            assert(last < arg_base(c)) by {
                assert(size <= exp2(c.l) + 1);
            }
            lemma_decode_syms(c, s, off, 0, arg_syms(c, a0), last, code);
            assert(fold_arg(c, 0, arg_syms(c, a0)) == a0);
            assert(last >= ref_base());
            assert(decode_op(c, s, off) == Ok::<(GLZSym, nat), CodecError>(
                (GLZSym::Ref { off: a0 as usize, size: ((last - 256) + 2) as usize }, off
                    + code.len()),
            ));
            assert(((last - 256) + 2) as usize == size);
        },
    }
}


/// Scanning for a zero is unmoved by bits before the start position.
proof fn lemma_first_zero_prepend(pre: Seq<bool>, s: Seq<bool>, p: nat)
    ensures
        crate::rice::first_zero(pre + s, pre.len() + p) == (match crate::rice::first_zero(s, p) {
            Some(z) => Some((pre.len() + z) as nat),
            None => None::<nat>,
        }),
    decreases s.len() - p,
{
    let t = pre + s;
    if p >= s.len() {
        assert(pre.len() + p >= t.len());
    } else {
        assert(t[pre.len() as int + p as int] == s[p as int]);
        if s[p as int] {
            lemma_first_zero_prepend(pre, s, p + 1);
        }
    }
}

/// Reading one Rice code is unmoved by bits before the start position.
proof fn lemma_rice_decode_prepend(k: nat, pre: Seq<bool>, s: Seq<bool>, p: nat)
    ensures
        crate::rice::rice_decode(k, pre + s, pre.len() + p) == crate::rice::rice_decode(k, s, p),
    decreases s.len() - p,
{
    lemma_first_zero_prepend(pre, s, p);
    let t = pre + s;
    match crate::rice::first_zero(s, p) {
        None => {},
        Some(z) => {
            crate::rice::lemma_first_zero_props(s, p);
            if z + 1 + k <= s.len() {
                assert(t.subrange(
                    (pre.len() + z + 1) as int,
                    (pre.len() + z + 1 + k) as int,
                ) =~= s.subrange(z as int + 1, z as int + 1 + k as int));
            }
        },
    }
}

/// Reading one operation is unmoved by bits before the start position.
proof fn lemma_decode_op_prepend(c: GlzCfg, pre: Seq<bool>, s: Seq<bool>, p: nat, arg: nat)
    ensures
        decode_op_arg(c, pre + s, pre.len() + p, arg) == (match decode_op_arg(c, s, p, arg) {
            Ok((op, q)) => Ok::<(GLZSym, nat), CodecError>((op, pre.len() + q)),
            Err(e) => Err::<(GLZSym, nat), CodecError>(e),
        }),
    decreases s.len() - p,
{
    lemma_rice_decode_prepend(c.k, pre, s, p);
    match bij_decode(c.k, c.dec, c.has, s, p) {
        Err(_) => {},
        Ok((sym, diff)) => {
            if 1 <= diff && p + diff <= s.len() {
                if sym >= arg_base(c) {
                    let arg2 = arg * exp2(c.m) + (sym - arg_base(c)) + 1;
                    if arg2 <= u32::MAX {
                        lemma_decode_op_prepend(c, pre, s, p + diff, arg2 as nat);
                    }
                }
            }
        },
    }
}

/// Sized decoding is unmoved by bits before the start position: every
/// read lies at or past it.
proof fn lemma_decode_need_prepend(
    c: GlzCfg,
    pre: Seq<bool>,
    s: Seq<bool>,
    p: nat,
    need: nat,
    cyc: nat,
    cap: nat,
    depth: nat,
)
    ensures
        decode_need(c, pre + s, pre.len() + p, need, cyc, cap, depth) == decode_need(
            c,
            s,
            p,
            need,
            cyc,
            cap,
            depth,
        ),
    decreases
            (if depth < 2 {
                (2 - depth) as nat
            } else {
                0
            }),
            (if cyc <= cap {
                (cap - cyc + 1) as nat
            } else {
                0
            }),
{
    if need == 0 {
    } else {
        lemma_decode_op_prepend(c, pre, s, p, 0);
        match decode_op(c, s, p) {
            Err(_) => {},
            Ok((op, pos2)) => {
                match op {
                    GLZSym::Imm { count, imm } => {
                        let take = if count as nat > need {
                            need
                        } else {
                            count as nat
                        };
                        if cyc + 1 <= cap {
                            lemma_decode_need_prepend(
                                c,
                                pre,
                                s,
                                pos2,
                                (need - take) as nat,
                                cyc + 1,
                                cap,
                                depth,
                            );
                        }
                    },
                    GLZSym::Ref { off: roff, size: rsize } => {
                        if rsize as nat >= need {
                            if cyc + 1 <= cap {
                                lemma_decode_need_prepend(
                                    c,
                                    pre,
                                    s,
                                    (pos2 + roff) as nat,
                                    need,
                                    cyc + 1,
                                    cap,
                                    depth,
                                );
                            }
                        } else {
                            if depth + 1 < 2 {
                                lemma_decode_need_prepend(
                                    c,
                                    pre,
                                    s,
                                    (pos2 + roff) as nat,
                                    rsize as nat,
                                    0,
                                    2 * rsize as nat,
                                    depth + 1,
                                );
                                if cyc + 1 <= cap {
                                    lemma_decode_need_prepend(
                                        c,
                                        pre,
                                        s,
                                        pos2,
                                        (need - rsize) as nat,
                                        cyc + 1,
                                        cap,
                                        depth,
                                    );
                                }
                            }
                        }
                    },
                }
            },
        }
    }
}


/// Any prefix of `bytes` can be decoded at the position `endoff` bits
/// from the end of `s`, at any recursion depth up to `dmax`, whenever
/// the cycle budget leaves room for two cycles per byte less `slack`.
///
/// Positions are counted from the end because the encoder builds its
/// stream by prepending: a statement in these coordinates survives
/// every later emission.
pub open spec fn decodable(
    c: GlzCfg,
    s: Seq<bool>,
    endoff: nat,
    bytes: Seq<u8>,
    dmax: nat,
    slack: nat,
) -> bool {
    &&& endoff <= s.len()
    &&& forall|q: nat, cyc: nat, cap: nat, d: nat|
        q <= bytes.len() && d <= dmax && cyc + 2 * q <= cap + slack ==> #[trigger] decode_need(
            c,
            s,
            (s.len() - endoff) as nat,
            q,
            cyc,
            cap,
            d,
        ) == Ok::<Seq<u8>, CodecError>(bytes.take(q as int))
}

/// Nothing at all is decodable anywhere.
proof fn lemma_decodable_empty(c: GlzCfg, s: Seq<bool>, endoff: nat, dmax: nat, slack: nat)
    requires
        endoff <= s.len(),
    ensures
        decodable(c, s, endoff, Seq::<u8>::empty(), dmax, slack),
{
    assert forall|q: nat, cyc: nat, cap: nat, d: nat|
        q <= 0 && d <= dmax && cyc + 2 * q <= cap + slack implies #[trigger] decode_need(
        c,
        s,
        (s.len() - endoff) as nat,
        q,
        cyc,
        cap,
        d,
    ) == Ok::<Seq<u8>, CodecError>(Seq::<u8>::empty().take(q as int)) by {
        assert(Seq::<u8>::empty().take(0) =~= Seq::<u8>::empty());
    }
}

/// A decodability statement keeps holding with a smaller depth
/// allowance or a smaller budget slack.
proof fn lemma_decodable_weaken(
    c: GlzCfg,
    s: Seq<bool>,
    endoff: nat,
    bytes: Seq<u8>,
    dmax: nat,
    slack: nat,
    dmax2: nat,
    slack2: nat,
)
    requires
        decodable(c, s, endoff, bytes, dmax, slack),
        dmax2 <= dmax,
        slack2 <= slack,
    ensures
        decodable(c, s, endoff, bytes, dmax2, slack2),
{
}

/// A decodability statement survives bits prepended to the stream.
proof fn lemma_decodable_prepend(
    c: GlzCfg,
    pre: Seq<bool>,
    s: Seq<bool>,
    endoff: nat,
    bytes: Seq<u8>,
    dmax: nat,
    slack: nat,
)
    requires
        decodable(c, s, endoff, bytes, dmax, slack),
    ensures
        decodable(c, pre + s, endoff, bytes, dmax, slack),
{
    let t = pre + s;
    assert forall|q: nat, cyc: nat, cap: nat, d: nat|
        q <= bytes.len() && d <= dmax && cyc + 2 * q <= cap + slack implies #[trigger] decode_need(
        c,
        t,
        (t.len() - endoff) as nat,
        q,
        cyc,
        cap,
        d,
    ) == Ok::<Seq<u8>, CodecError>(bytes.take(q as int)) by {
        let p = (s.len() - endoff) as nat;
        lemma_decode_need_prepend(c, pre, s, p, q, cyc, cap, d);
        assert((t.len() - endoff) as nat == pre.len() + p);
    }
}

/// A decodable byte string has decodable prefixes, at the same spot.
proof fn lemma_decodable_take(
    c: GlzCfg,
    s: Seq<bool>,
    endoff: nat,
    bytes: Seq<u8>,
    dmax: nat,
    slack: nat,
    q0: nat,
)
    requires
        decodable(c, s, endoff, bytes, dmax, slack),
        q0 <= bytes.len(),
    ensures
        decodable(c, s, endoff, bytes.take(q0 as int), dmax, slack),
{
    let pre = bytes.take(q0 as int);
    assert forall|q: nat, cyc: nat, cap: nat, d: nat|
        q <= pre.len() && d <= dmax && cyc + 2 * q <= cap + slack implies #[trigger] decode_need(
        c,
        s,
        (s.len() - endoff) as nat,
        q,
        cyc,
        cap,
        d,
    ) == Ok::<Seq<u8>, CodecError>(pre.take(q as int)) by {
        assert(decode_need(c, s, (s.len() - endoff) as nat, q, cyc, cap, d) == Ok::<
            Seq<u8>,
            CodecError,
        >(bytes.take(q as int)));
        assert(pre.take(q as int) =~= bytes.take(q as int));
    }
}


/// Prepending an immediate run: if everything after decodes, the run
/// plus everything after decodes, with a full slack of one.
proof fn lemma_decodable_imm(
    c: GlzCfg,
    code: Seq<bool>,
    s: Seq<bool>,
    count: usize,
    b: u8,
    rest: Seq<u8>,
    dmax: nat,
    slack: nat,
)
    requires
        cfg_bijective(c),
        op_bits(c, GLZSym::Imm { count, imm: b }) == Ok::<Seq<bool>, CodecError>(code),
        decodable(c, s, s.len(), rest, dmax, slack),
        count >= 1,
        slack <= 1,
    ensures
        decodable(c, code + s, (code + s).len(), repeat_byte(b, count as nat) + rest, dmax, 1),
{
    let t = code + s;
    let bytes = repeat_byte(b, count as nat) + rest;
    lemma_repeat_byte(b, count as nat);
    assert(t.subrange(0, code.len() as int) =~= code);
    lemma_op_roundtrip(c, GLZSym::Imm { count, imm: b }, code, t, 0);
    assert forall|q: nat, cyc: nat, cap: nat, d: nat|
        q <= bytes.len() && d <= dmax && cyc + 2 * q <= cap + 1 implies #[trigger] decode_need(
        c,
        t,
        (t.len() - t.len()) as nat,
        q,
        cyc,
        cap,
        d,
    ) == Ok::<Seq<u8>, CodecError>(bytes.take(q as int)) by {
        if q == 0 {
            assert(bytes.take(0) =~= Seq::<u8>::empty());
        } else {
            assert(decode_op(c, t, 0) == Ok::<(GLZSym, nat), CodecError>(
                (GLZSym::Imm { count, imm: b }, code.len()),
            ));
            let take = if count as nat > q {
                q
            } else {
                count as nat
            };
            assert(cyc + 1 <= cap);
            if q <= count as nat {
                assert(decode_need(c, t, code.len(), 0, cyc + 1, cap, d) == Ok::<
                    Seq<u8>,
                    CodecError,
                >(Seq::<u8>::empty()));
                lemma_repeat_byte(b, take);
                assert(repeat_byte(b, take) + Seq::<u8>::empty() =~= bytes.take(q as int));
            } else {
                lemma_decode_need_prepend(c, code, s, 0, (q - count) as nat, cyc + 1, cap, d);
                assert((cyc + 1) + 2 * ((q - count) as nat) <= cap + slack);
                assert(decode_need(c, s, 0, (q - count) as nat, cyc + 1, cap, d) == Ok::<
                    Seq<u8>,
                    CodecError,
                >(rest.take(q - count)));
                assert(repeat_byte(b, count as nat) + rest.take(q - count) =~= bytes.take(
                    q as int,
                ));
            }
        }
    }
}

/// Prepending a back-reference: the matched bytes come out of the
/// recorded target, and everything after follows.
proof fn lemma_decodable_ref(
    c: GlzCfg,
    code: Seq<bool>,
    s: Seq<bool>,
    roff: usize,
    rsize: usize,
    target: Seq<u8>,
    target_endoff: nat,
    rest: Seq<u8>,
)
    requires
        cfg_bijective(c),
        op_bits(c, GLZSym::Ref { off: roff, size: rsize }) == Ok::<Seq<bool>, CodecError>(code),
        target.len() == rsize,
        rsize >= 2,
        target_endoff <= s.len(),
        roff == s.len() - target_endoff,
        decodable(c, s, target_endoff, target, 1, 1),
        decodable(c, s, s.len(), rest, 0, 0),
    ensures
        decodable(c, code + s, (code + s).len(), target + rest, 0, 0),
{
    let t = code + s;
    let bytes = target + rest;
    assert(t.subrange(0, code.len() as int) =~= code);
    lemma_op_roundtrip(c, GLZSym::Ref { off: roff, size: rsize }, code, t, 0);
    assert forall|q: nat, cyc: nat, cap: nat, d: nat|
        q <= bytes.len() && d <= 0 && cyc + 2 * q <= cap + 0 implies #[trigger] decode_need(
        c,
        t,
        (t.len() - t.len()) as nat,
        q,
        cyc,
        cap,
        d,
    ) == Ok::<Seq<u8>, CodecError>(bytes.take(q as int)) by {
        if q == 0 {
            assert(bytes.take(0) =~= Seq::<u8>::empty());
        } else {
            assert(decode_op(c, t, 0) == Ok::<(GLZSym, nat), CodecError>(
                (GLZSym::Ref { off: roff, size: rsize }, code.len()),
            ));
            assert(cyc + 1 <= cap);
            if rsize as nat >= q {
                lemma_decode_need_prepend(c, code, s, roff as nat, q, cyc + 1, cap, d);
                assert((cyc + 1) + 2 * q <= cap + 1);
                assert((s.len() - target_endoff) as nat == roff);
                assert(decode_need(c, s, roff as nat, q, cyc + 1, cap, d) == Ok::<
                    Seq<u8>,
                    CodecError,
                >(target.take(q as int)));
                assert(target.take(q as int) =~= bytes.take(q as int));
            } else {
                lemma_decode_need_prepend(
                    c,
                    code,
                    s,
                    roff as nat,
                    rsize as nat,
                    0,
                    2 * rsize as nat,
                    d + 1,
                );
                assert(0 + 2 * (rsize as nat) <= 2 * (rsize as nat) + 1);
                assert(decode_need(c, s, roff as nat, rsize as nat, 0, 2 * rsize as nat, d + 1)
                    == Ok::<Seq<u8>, CodecError>(target.take(rsize as int)));
                assert(target.take(rsize as int) =~= target);
                lemma_decode_need_prepend(c, code, s, 0, (q - rsize) as nat, cyc + 1, cap, d);
                assert((cyc + 1) + 2 * ((q - rsize) as nat) <= cap);
                assert(decode_need(c, s, 0, (q - rsize) as nat, cyc + 1, cap, d) == Ok::<
                    Seq<u8>,
                    CodecError,
                >(rest.take(q - rsize)));
                assert(target + rest.take(q - rsize) =~= bytes.take(q as int));
            }
        }
    }
}

/// The region a back-reference covers is itself decodable at either
/// depth: a prefix request never recurses, it skips to the target.
proof fn lemma_decodable_refregion(
    c: GlzCfg,
    code: Seq<bool>,
    s: Seq<bool>,
    roff: usize,
    rsize: usize,
    target: Seq<u8>,
    target_endoff: nat,
)
    requires
        cfg_bijective(c),
        op_bits(c, GLZSym::Ref { off: roff, size: rsize }) == Ok::<Seq<bool>, CodecError>(code),
        target.len() == rsize,
        rsize >= 2,
        target_endoff <= s.len(),
        roff == s.len() - target_endoff,
        decodable(c, s, target_endoff, target, 1, 1),
    ensures
        decodable(c, code + s, (code + s).len(), target, 1, 0),
{
    let t = code + s;
    assert(t.subrange(0, code.len() as int) =~= code);
    lemma_op_roundtrip(c, GLZSym::Ref { off: roff, size: rsize }, code, t, 0);
    assert forall|q: nat, cyc: nat, cap: nat, d: nat|
        q <= target.len() && d <= 1 && cyc + 2 * q <= cap + 0 implies #[trigger] decode_need(
        c,
        t,
        (t.len() - t.len()) as nat,
        q,
        cyc,
        cap,
        d,
    ) == Ok::<Seq<u8>, CodecError>(target.take(q as int)) by {
        if q == 0 {
            assert(target.take(0) =~= Seq::<u8>::empty());
        } else {
            assert(decode_op(c, t, 0) == Ok::<(GLZSym, nat), CodecError>(
                (GLZSym::Ref { off: roff, size: rsize }, code.len()),
            ));
            assert(cyc + 1 <= cap);
            lemma_decode_need_prepend(c, code, s, roff as nat, q, cyc + 1, cap, d);
            assert((cyc + 1) + 2 * q <= cap + 1);
            assert(decode_need(c, s, roff as nat, q, cyc + 1, cap, d) == Ok::<
                Seq<u8>,
                CodecError,
            >(target.take(q as int)));
        }
    }
}


/// The patterns laid out as the stream will hold them: latest first.
pub open spec fn bufs_cat(ps: Seq<BitBuf>) -> Seq<bool>
    decreases ps.len(),
{
    if ps.len() == 0 {
        Seq::empty()
    } else {
        ps.last()@ + bufs_cat(ps.drop_last())
    }
}

/// Every dictionary entry names a position, counted from the stream's
/// end, where its bytes can be decoded back, at either recursion depth
/// and with a cycle to spare.
pub open spec fn dict_ok(c: GlzCfg, d: Map<Seq<u8>, usize>, s: Seq<bool>) -> bool {
    forall|kk: Seq<u8>|
        d.dom().contains(kk) ==> (#[trigger] d[kk]) <= s.len() && decodable(
            c,
            s,
            d[kk] as nat,
            kk,
            1,
            1,
        )
}

/// One whole slice reads back from `endoff` bits before the stream's
/// end, under the decoder's own entry budget.
pub open spec fn slice_ok(c: GlzCfg, s: Seq<bool>, endoff: nat, bytes: Seq<u8>) -> bool {
    &&& endoff <= s.len()
    &&& decode_need(c, s, (s.len() - endoff) as nat, bytes.len(), 0, 2 * bytes.len(), 0) == Ok::<
        Seq<u8>,
        CodecError,
    >(bytes)
}

proof fn lemma_slice_ok_prepend(c: GlzCfg, pre: Seq<bool>, s: Seq<bool>, endoff: nat, bytes: Seq<u8>)
    requires
        slice_ok(c, s, endoff, bytes),
    ensures
        slice_ok(c, pre + s, endoff, bytes),
{
    let p = (s.len() - endoff) as nat;
    lemma_decode_need_prepend(c, pre, s, p, bytes.len(), 0, 2 * bytes.len(), 0);
}

proof fn lemma_slice_ok_from_decodable(
    c: GlzCfg,
    s: Seq<bool>,
    endoff: nat,
    bytes: Seq<u8>,
    dmax: nat,
    slack: nat,
)
    requires
        decodable(c, s, endoff, bytes, dmax, slack),
    ensures
        slice_ok(c, s, endoff, bytes),
{
    assert(decode_need(c, s, (s.len() - endoff) as nat, bytes.len(), 0, 2 * bytes.len(), 0)
        == Ok::<Seq<u8>, CodecError>(bytes.take(bytes.len() as int)));
    assert(bytes.take(bytes.len() as int) =~= bytes);
}

/// A configuration whose tables invert each other and stay small is
/// bijective: every used symbol remaps within 32 bits.
pub proof fn lemma_cfg_bijective_table(c: GlzCfg)
    requires
        cfg_wf(c),
        c.has,
        crate::hist::inverse_tables(c.enc, c.dec),
        c.dec.len() <= 0x4000_0000,
    ensures
        cfg_bijective(c),
{
    lemma_exp2_mono(c.l, 20);
    lemma_exp2_mono(c.m, 20);
    assert(exp2(20) == 0x10_0000) by {
        reveal_with_fuel(exp2, 21);
    }
    assert forall|v: nat| v < sym_bound(c) implies #[trigger] remap_enc(c, v) <= u32::MAX by {
        let e = c.enc;
        let le = e.len() as nat;
        assert(v % le < le) by {
            vstd::arithmetic::div_mod::lemma_mod_division_less_than_divisor(v as int, le as int);
        }
        assert(e[(v % le) as int] < c.dec.len());
        vstd::arithmetic::div_mod::lemma_mod_decreases(v, le);
    }
}

/// A configuration without a remap is bijective outright.
pub proof fn lemma_cfg_bijective_no_table(c: GlzCfg)
    requires
        cfg_wf(c),
        !c.has,
    ensures
        cfg_bijective(c),
{
    lemma_exp2_mono(c.l, 20);
    lemma_exp2_mono(c.m, 20);
    assert(exp2(20) == 0x10_0000) by {
        reveal_with_fuel(exp2, 21);
    }
    assert forall|v: nat| v < sym_bound(c) implies #[trigger] remap_enc(c, v) <= u32::MAX by {
        assert(remap_enc(c, v) == v);
    }
}


/// Whole-stream decoding is unmoved by bits before the start position.
proof fn lemma_decode_whole_prepend(c: GlzCfg, pre: Seq<bool>, s: Seq<bool>, p: nat, depth: nat)
    ensures
        decode_whole(c, pre + s, pre.len() + p, depth) == decode_whole(c, s, p, depth),
    decreases s.len() - p,
{
    let t = pre + s;
    if p >= s.len() {
    } else {
        lemma_decode_op_prepend(c, pre, s, p, 0);
        match decode_op(c, s, p) {
            Err(_) => {},
            Ok((op, pos2)) => {
                if p < pos2 <= s.len() {
                    match op {
                        GLZSym::Imm { count, imm } => {
                            lemma_decode_whole_prepend(c, pre, s, pos2, depth);
                        },
                        GLZSym::Ref { off: roff, size: rsize } => {
                            if depth + 1 < 2 {
                                lemma_decode_need_prepend(
                                    c,
                                    pre,
                                    s,
                                    (pos2 + roff) as nat,
                                    rsize as nat,
                                    0,
                                    2 * rsize as nat,
                                    depth + 1,
                                );
                                lemma_decode_whole_prepend(c, pre, s, pos2, depth);
                            }
                        },
                    }
                }
            },
        }
    }
}

/// Prepending an immediate run, for the whole-stream decode.
proof fn lemma_whole_imm(
    c: GlzCfg,
    code: Seq<bool>,
    s: Seq<bool>,
    count: usize,
    b: u8,
    rest: Seq<u8>,
)
    requires
        cfg_bijective(c),
        op_bits(c, GLZSym::Imm { count, imm: b }) == Ok::<Seq<bool>, CodecError>(code),
        decode_whole(c, s, 0, 0) == Ok::<Seq<u8>, CodecError>(rest),
        count >= 1,
    ensures
        decode_whole(c, code + s, 0, 0) == Ok::<Seq<u8>, CodecError>(
            repeat_byte(b, count as nat) + rest,
        ),
{
    let t = code + s;
    assert(t.subrange(0, code.len() as int) =~= code);
    lemma_op_roundtrip(c, GLZSym::Imm { count, imm: b }, code, t, 0);
    lemma_decode_op_bounds(c, t, 0, 0);
    lemma_decode_whole_prepend(c, code, s, 0, 0);
}

/// Prepending a back-reference, for the whole-stream decode: the
/// reference always resolves through one recursive sized decode.
proof fn lemma_whole_ref(
    c: GlzCfg,
    code: Seq<bool>,
    s: Seq<bool>,
    roff: usize,
    rsize: usize,
    target: Seq<u8>,
    target_endoff: nat,
    rest: Seq<u8>,
)
    requires
        cfg_bijective(c),
        op_bits(c, GLZSym::Ref { off: roff, size: rsize }) == Ok::<Seq<bool>, CodecError>(code),
        target.len() == rsize,
        rsize >= 2,
        target_endoff <= s.len(),
        roff == s.len() - target_endoff,
        decodable(c, s, target_endoff, target, 1, 1),
        decode_whole(c, s, 0, 0) == Ok::<Seq<u8>, CodecError>(rest),
    ensures
        decode_whole(c, code + s, 0, 0) == Ok::<Seq<u8>, CodecError>(target + rest),
{
    let t = code + s;
    assert(t.subrange(0, code.len() as int) =~= code);
    lemma_op_roundtrip(c, GLZSym::Ref { off: roff, size: rsize }, code, t, 0);
    lemma_decode_op_bounds(c, t, 0, 0);
    lemma_decode_need_prepend(c, code, s, roff as nat, rsize as nat, 0, 2 * rsize as nat, 1);
    assert(0 + 2 * (rsize as nat) <= 2 * (rsize as nat) + 1);
    assert(decode_need(c, s, roff as nat, rsize as nat, 0, 2 * rsize as nat, 1) == Ok::<
        Seq<u8>,
        CodecError,
    >(target.take(rsize as int)));
    assert(target.take(rsize as int) =~= target);
    lemma_decode_whole_prepend(c, code, s, 0, 0);
}


/// An upper bound on any remapped symbol the coder meets: the symbol
/// range plus, with a table, the table length.
#[verifier::opaque]
pub open spec fn remap_bound(c: GlzCfg) -> nat {
    sym_bound(c) + (if c.has {
        c.dec.len()
    } else {
        0
    })
}

/// An upper bound on the wire length of any one operation: at most 34
/// symbols (32 argument nibbles, with one spare, and the closing
/// symbol), each Rice code at most `remap_bound / 2^k + 1 + k` bits.
#[verifier::opaque]
pub open spec fn op_bound(c: GlzCfg) -> nat {
    34 * (remap_bound(c) / exp2(c.k) + 1 + c.k)
}

/// Under a bijective configuration every used symbol remaps below
/// `remap_bound`.
proof fn lemma_remap_lt(c: GlzCfg, v: nat)
    requires
        cfg_bijective(c),
        v < sym_bound(c),
    ensures
        remap_enc(c, v) < remap_bound(c),
{
    reveal(remap_bound);
    if c.has {
        let e = c.enc;
        let le = e.len() as nat;
        assert(v % le < le) by {
            vstd::arithmetic::div_mod::lemma_mod_division_less_than_divisor(v as int, le as int);
        }
        assert(e[(v % le) as int] < c.dec.len());
        vstd::arithmetic::div_mod::lemma_mod_decreases(v, le);
    }
}

/// With at least one bit per nibble, an argument below `exp2(b)` needs
/// at most `b` nibble symbols.
proof fn lemma_arg_syms_count(c: GlzCfg, a: nat, b: nat)
    requires
        c.m >= 1,
        a < exp2(b),
    ensures
        arg_syms(c, a).len() <= b,
    decreases a,
{
    if a > 0 {
        lemma_exp2_pos(c.m);
        let a2 = ((a - 1) as nat) / exp2(c.m);
        assert(a2 <= ((a - 1) as nat) / 2) by {
            lemma_exp2_mono(1, c.m);
            vstd::arithmetic::div_mod::lemma_div_is_ordered_by_denominator(
                (a - 1) as int,
                2,
                exp2(c.m) as int,
            );
        }
        assert(b >= 1) by {
            if b == 0 {
                assert(exp2(0) == 1);
            }
        }
        assert(a2 < exp2((b - 1) as nat)) by {
            assert(a <= exp2(b) - 1);
            assert(exp2(b) == 2 * exp2((b - 1) as nat));
            vstd::arithmetic::div_mod::lemma_div_is_ordered(a as int - 1, a as int, 2);
            vstd::arithmetic::div_mod::lemma_multiply_divide_lt(
                a as int,
                2,
                exp2((b - 1) as nat) as int,
            );
        }
        lemma_arg_syms_count(c, a2, (b - 1) as nat);
    }
}

/// Symbols below the configured range always serialize, in at most
/// `remap_bound / 2^k + 1 + k` bits each.
proof fn lemma_syms_bits_ok_len(c: GlzCfg, syms: Seq<nat>)
    requires
        cfg_bijective(c),
        forall|i: int| 0 <= i < syms.len() ==> #[trigger] syms[i] < sym_bound(c),
    ensures
        syms_bits(c, syms) matches Ok(code) && code.len() <= syms.len() * (remap_bound(c) / exp2(
            c.k,
        ) + 1 + c.k),
    decreases syms.len(),
{
    let percode = remap_bound(c) / exp2(c.k) + 1 + c.k;
    if syms.len() == 0 {
    } else {
        assert(syms[0] < sym_bound(c));
        let rm = remap_enc(c, syms.first());
        assert(rm <= u32::MAX);
        lemma_remap_lt(c, syms.first());
        assert(forall|i: int|
            0 <= i < syms.drop_first().len() ==> #[trigger] syms.drop_first()[i] < sym_bound(
                c,
            ));
        lemma_syms_bits_ok_len(c, syms.drop_first());
        let coderest = (match syms_bits(c, syms.drop_first()) {
            Ok(cr) => cr,
            Err(_) => Seq::empty(),
        });
        crate::rice::lemma_rice_len(c.k, rm);
        assert(rm < remap_bound(c));
        assert(rice_bits(c.k, rm).len() == rm / exp2(c.k) + 1 + c.k);
        assert(rm / exp2(c.k) <= remap_bound(c) / exp2(c.k)) by {
            lemma_exp2_pos(c.k);
            vstd::arithmetic::div_mod::lemma_div_is_ordered(
                rm as int,
                remap_bound(c) as int,
                exp2(c.k) as int,
            );
        }
        assert(syms_bits(c, syms) == Ok::<Seq<bool>, CodecError>(
            rice_bits(c.k, rm) + coderest,
        ));
        assert(syms.drop_first().len() == syms.len() - 1);
        assert(coderest.len() <= (syms.len() - 1) * percode);
        let rl = rice_bits(c.k, rm).len();
        let qa = rm / exp2(c.k);
        let qb = remap_bound(c) / exp2(c.k);
        assert(rl == qa + 1 + c.k);
        assert(qa <= qb);
        assert(percode == qb + 1 + c.k);
        assert(rl <= percode) by (nonlinear_arith)
            requires
                rl == qa + 1 + c.k,
                qa <= qb,
                percode == qb + 1 + c.k,
        ;
        assert((syms.len() - 1) * percode + percode == syms.len() * percode) by (nonlinear_arith);
        assert((rice_bits(c.k, rm) + coderest).len() <= syms.len() * percode);
    }
}

/// Whatever operation did serialize stays within `op_bound`.
proof fn lemma_op_code_len(c: GlzCfg, op: GLZSym, code: Seq<bool>)
    requires
        cfg_bijective(c),
        c.m >= 1,
        op_bits(c, op) == Ok::<Seq<bool>, CodecError>(code),
    ensures
        code.len() <= op_bound(c),
{
    match op {
        GLZSym::Imm { count, imm } => {
            assert(1 <= count && count - 1 <= u32::MAX);
        },
        GLZSym::Ref { off, size } => {
            assert(2 <= size <= exp2(c.l) + 1 && off <= u32::MAX);
        },
    }
    lemma_op_bits_ok_len(c, op);
}

/// A well-formed operation always serializes under a bijective
/// configuration with nibbles of at least one bit, within `op_bound`.
proof fn lemma_op_bits_ok_len(c: GlzCfg, op: GLZSym)
    requires
        cfg_bijective(c),
        c.m >= 1,
        op matches GLZSym::Imm { count, imm } ==> 1 <= count && count - 1 <= u32::MAX,
        op matches GLZSym::Ref { off, size } ==> 2 <= size <= exp2(c.l) + 1 && off <= u32::MAX,
    ensures
        op_bits(c, op) matches Ok(code) && code.len() <= op_bound(c),
{
    reveal(op_bound);
    lemma_exp2_pos(c.l);
    lemma_exp2_pos(c.m);
    crate::bits::lemma_exp2_32();
    let percode = remap_bound(c) / exp2(c.k) + 1 + c.k;
    let arg: nat = (match op {
        GLZSym::Imm { count, imm } => (count - 1) as nat,
        GLZSym::Ref { off, size } => off as nat,
    });
    let last: nat = (match op {
        GLZSym::Imm { count, imm } => imm as nat,
        GLZSym::Ref { off, size } => (size - 2) as nat + ref_base(),
    });
    let syms = arg_syms(c, arg) + seq![last];
    assert(op_syms(c, op) == Ok::<Seq<nat>, CodecError>(syms));
    assert(arg < exp2(32)) by {
        crate::bits::lemma_exp2_32();
    }
    lemma_arg_syms_count(c, arg, 32);
    lemma_arg_syms_range(c, arg);
    assert(last < sym_bound(c));
    assert forall|i: int| 0 <= i < syms.len() implies #[trigger] syms[i] < sym_bound(c) by {
        if i < arg_syms(c, arg).len() {
            assert(syms[i] == arg_syms(c, arg)[i]);
        } else {
            assert(syms[i] == last);
        }
    }
    lemma_syms_bits_ok_len(c, syms);
    assert(syms.len() <= 34);
    assert(syms.len() * percode <= 34 * percode) by {
        vstd::arithmetic::mul::lemma_mul_inequality(syms.len() as int, 34, percode as int);
    }
}


/// One more operation keeps the emitted total within its per-byte
/// budget: the operation consumed at least one byte.
proof fn lemma_step_bound(c: GlzCfg, n: nat, j: nat, j2: nat, sofar: nat, emit: nat)
    requires
        j2 < j <= n,
        sofar <= ((n - j) as nat) * op_bound(c),
        emit <= op_bound(c),
    ensures
        sofar + emit <= ((n - j2) as nat) * op_bound(c),
{
    let p = op_bound(c);
    assert(((n - j) as nat) * p + p == ((n - j + 1) as nat) * p) by (nonlinear_arith)
        requires
            j <= n,
    ;
    assert(((n - j + 1) as nat) * p <= ((n - j2) as nat) * p) by {
        vstd::arithmetic::mul::lemma_mul_inequality(n - j + 1, n - j2, p as int);
    }
}

/// Under the size headroom, the running total plus one more operation
/// still fits the machine word.
proof fn lemma_emit_fits(
    c: GlzCfg,
    op: GLZSym,
    code: Seq<bool>,
    n: nat,
    j: nat,
    sofar: nat,
    taillen: nat,
)
    requires
        cfg_bijective(c),
        c.m >= 1,
        op_bits(c, op) == Ok::<Seq<bool>, CodecError>(code),
        1 <= j <= n,
        sofar <= ((n - j) as nat) * op_bound(c),
        n * op_bound(c) + taillen <= usize::MAX,
    ensures
        taillen + sofar + code.len() <= usize::MAX,
{
    lemma_op_code_len(c, op, code);
    let p = op_bound(c);
    assert(((n - j) as nat) * p + p == ((n - j + 1) as nat) * p) by (nonlinear_arith)
        requires
            j <= n,
    ;
    assert(((n - j + 1) as nat) * p <= n * p) by {
        vstd::arithmetic::mul::lemma_mul_inequality(n - j + 1, n as int, p as int);
    }
}


/// The longest slice in a batch, or zero when the batch is empty.
pub open spec fn max_slice_len(ss: Seq<Vec<u8>>) -> nat
    decreases ss.len(),
{
    if ss.len() == 0 {
        0
    } else {
        vstd::math::max(max_slice_len(ss.drop_last()) as int, ss.last()@.len() as int) as nat
    }
}

proof fn lemma_max_slice_ge(ss: Seq<Vec<u8>>, i: int)
    requires
        0 <= i < ss.len(),
    ensures
        ss[i]@.len() <= max_slice_len(ss),
    decreases ss.len(),
{
    if i < ss.len() - 1 {
        lemma_max_slice_ge(ss.drop_last(), i);
        assert(ss.drop_last()[i] == ss[i]);
    }
}


/// Under the batch headroom, one more slice's encoding fits both the
/// per-call precondition and the running total.
proof fn lemma_call_fits(ss: Seq<Vec<u8>>, idx: int, c: GlzCfg, p: nat, off: nat)
    requires
        0 <= idx < ss.len(),
        c.m >= 1,
        max_slice_len(ss) <= u32::MAX,
        ss.len() * (max_slice_len(ss) * op_bound(c)) <= usize::MAX,
        p < ss.len(),
        off <= p * (max_slice_len(ss) * op_bound(c)),
    ensures
        ss[idx]@.len() <= u32::MAX,
        ss[idx]@.len() * op_bound(c) + off <= usize::MAX,
{
    let m = max_slice_len(ss);
    let pb = op_bound(c);
    let mp = m * pb;
    lemma_max_slice_ge(ss, idx);
    assert(ss[idx]@.len() * pb <= m * pb) by {
        vstd::arithmetic::mul::lemma_mul_inequality(ss[idx]@.len() as int, m as int, pb as int);
    }
    assert(p * mp + mp == (p + 1) * mp) by (nonlinear_arith);
    assert((p + 1) * mp <= ss.len() * mp) by {
        vstd::arithmetic::mul::lemma_mul_inequality(p as int + 1, ss.len() as int, mp as int);
    }
}

/// The running total stays within its budget after one more blob.
proof fn lemma_sum_step(ss: Seq<Vec<u8>>, idx: int, c: GlzCfg, p: nat, off_pre: nat, emitted: nat)
    requires
        0 <= idx < ss.len(),
        p < ss.len(),
        off_pre <= p * (max_slice_len(ss) * op_bound(c)),
        emitted <= ss[idx]@.len() * op_bound(c),
    ensures
        off_pre + emitted <= (p + 1) * (max_slice_len(ss) * op_bound(c)),
{
    let m = max_slice_len(ss);
    let pb = op_bound(c);
    let mp = m * pb;
    lemma_max_slice_ge(ss, idx);
    assert(ss[idx]@.len() * pb <= m * pb) by {
        vstd::arithmetic::mul::lemma_mul_inequality(ss[idx]@.len() as int, m as int, pb as int);
    }
    assert(p * mp + mp == (p + 1) * mp) by (nonlinear_arith);
}


/// Walking symbols is unmoved by bits before the start position.
proof fn lemma_syms_walk_prepend(
    k: nat,
    dec: Seq<u32>,
    has: bool,
    pre: Seq<bool>,
    s: Seq<bool>,
    p: nat,
)
    ensures
        syms_walk(k, dec, has, pre + s, pre.len() + p) == syms_walk(k, dec, has, s, p),
    decreases s.len() - p,
{
    if p >= s.len() {
    } else {
        lemma_rice_decode_prepend(k, pre, s, p);
        match bij_decode(k, dec, has, s, p) {
            Err(_) => {},
            Ok((v, c)) => {
                if 1 <= c && p + c <= s.len() && v < usize::MAX {
                    lemma_syms_walk_prepend(k, dec, has, pre, s, p + c);
                }
            },
        }
    }
}

/// The symbols of a serialized operation all lie below the configured
/// range.
proof fn lemma_op_syms_range(c: GlzCfg, op: GLZSym)
    requires
        cfg_wf(c),
        op_bits(c, op) is Ok,
    ensures
        op_syms(c, op) matches Ok(syms) && forall|i: int|
            0 <= i < syms.len() ==> #[trigger] syms[i] < sym_bound(c),
{
    lemma_exp2_pos(c.l);
    lemma_exp2_pos(c.m);
    let arg: nat = (match op {
        GLZSym::Imm { count, imm } => (count - 1) as nat,
        GLZSym::Ref { off, size } => off as nat,
    });
    let last: nat = (match op {
        GLZSym::Imm { count, imm } => imm as nat,
        GLZSym::Ref { off, size } => (size - 2) as nat + ref_base(),
    });
    let syms = arg_syms(c, arg) + seq![last];
    assert(op_syms(c, op) == Ok::<Seq<nat>, CodecError>(syms));
    lemma_arg_syms_range(c, arg);
    assert(last < sym_bound(c));
    assert forall|i: int| 0 <= i < syms.len() implies #[trigger] syms[i] < sym_bound(c) by {
        if i < arg_syms(c, arg).len() {
            assert(syms[i] == arg_syms(c, arg)[i]);
        } else {
            assert(syms[i] == last);
        }
    }
}

/// The whole stream reads back as symbols below the configured range.
#[verifier::opaque]
pub open spec fn walk_ok_bounded(c: GlzCfg, s: Seq<bool>) -> bool {
    match syms_walk(c.k, c.dec, c.has, s, 0) {
        Ok(ws) => forall|i: int| 0 <= i < ws.len() ==> (#[trigger] ws[i]) < sym_bound(c),
        Err(_) => false,
    }
}

/// Prepending the codes of in-range symbols keeps the stream walkable.
#[verifier::rlimit(30)]
proof fn lemma_walk_compose(c: GlzCfg, syms: Seq<nat>, code: Seq<bool>, s: Seq<bool>)
    requires
        cfg_bijective(c),
        forall|i: int| 0 <= i < syms.len() ==> #[trigger] syms[i] < sym_bound(c),
        syms_bits(c, syms) == Ok::<Seq<bool>, CodecError>(code),
        walk_ok_bounded(c, s),
    ensures
        walk_ok_bounded(c, code + s),
    decreases syms.len(),
{
    reveal(walk_ok_bounded);
    lemma_exp2_mono(c.l, 20);
    lemma_exp2_mono(c.m, 20);
    assert(exp2(20) == 0x10_0000) by {
        reveal_with_fuel(exp2, 21);
    }
    if syms.len() == 0 {
        assert(code + s =~= s);
    } else {
        let t = code + s;
        assert(syms[0] < sym_bound(c));
        let rm = remap_enc(c, syms.first());
        assert(rm <= u32::MAX);
        let ricecode = rice_bits(c.k, rm);
        let rl = ricecode.len();
        crate::rice::lemma_rice_len(c.k, rm);
        let rest = syms.drop_first();
        let coderest = (match syms_bits(c, rest) {
            Ok(cr) => cr,
            Err(_) => Seq::empty(),
        });
        assert(syms_bits(c, rest) == Ok::<Seq<bool>, CodecError>(coderest));
        assert(code == ricecode + coderest);
        assert(t.subrange(0, rl as int) =~= ricecode) by {
            assert(forall|i: int| 0 <= i < rl ==> t[i] == code[i] && code[i] == ricecode[i]);
        }
        crate::rice::lemma_rice_roundtrip(c.k, rm, t, 0);
        let w = if c.has {
            map_through(c.dec, rm)
        } else {
            rm
        };
        assert(w == syms.first()) by {
            if c.has {
                crate::hist::lemma_map_roundtrip(c.enc, c.dec, syms.first());
            }
        }
        assert(bij_decode(c.k, c.dec, c.has, t, 0) == Ok::<(nat, nat), CodecError>(
            (syms.first(), rl),
        ));
        assert(syms.first() < usize::MAX);
        assert(rl >= 1 && rl <= t.len());
        lemma_walk_compose(c, rest, coderest, s);
        assert(ricecode + (coderest + s) =~= t);
        lemma_syms_walk_prepend(c.k, c.dec, c.has, ricecode, coderest + s, 0);
        assert(syms_walk(c.k, c.dec, c.has, t, rl) == syms_walk(
            c.k,
            c.dec,
            c.has,
            coderest + s,
            0,
        ));
        match syms_walk(c.k, c.dec, c.has, coderest + s, 0) {
            Ok(ws2) => {
                assert(syms_walk(c.k, c.dec, c.has, t, 0) == Ok::<Seq<u32>, CodecError>(
                    seq![syms.first() as u32] + ws2,
                ));
                assert forall|i: int|
                    0 <= i < (seq![syms.first() as u32] + ws2).len() implies ((
                #[trigger] (seq![syms.first() as u32] + ws2)[i]) as nat) < sym_bound(c) by {
                    if i == 0 {
                        assert((seq![syms.first() as u32] + ws2)[0] == syms.first() as u32);
                    } else {
                        assert((seq![syms.first() as u32] + ws2)[i] == ws2[i - 1]);
                    }
                }
            },
            Err(_) => {
                assert(false);
            },
        }
    }
}


/// A histogram freshly sorted into mutually inverse tables can always
/// drive the parameter search, as long as its storage is small and the
/// count total leaves headroom for the largest code.
proof fn lemma_sorted_search_fits(h: Hist, counts: Seq<usize>)
    requires
        h.counts() == counts,
        h.has_table(),
        crate::hist::inverse_tables(h.enc_table(), h.dec_table()),
        h.enc_table().len() == crate::hist::nonzero_upper(counts),
        h.dec_table().len() == crate::hist::nonzero_upper(counts),
        counts.len() <= 0x4000_0000,
        crate::hist::sum_counts(counts) * (counts.len() + crate::hist::nonzero_upper(counts)
            + 33) <= usize::MAX,
    ensures
        crate::rice::search_fits(h),
{
    reveal(crate::rice::search_fits);
    let bound = crate::hist::nonzero_upper(counts);
    let lim = counts.len() + bound;
    crate::hist::lemma_nonzero_upper_le(counts);
    assert forall|i: nat| i < counts.len() && counts[i as int] > 0 implies #[trigger] h
        .map_enc_spec(i) < lim by {
        crate::hist::lemma_nonzero_upper_occupied(counts, i);
        crate::hist::lemma_map_through_below(h.enc_table(), i, bound);
    }
    assert forall|i: nat|
        i < counts.len() && counts[i as int] > 0 implies #[trigger] h.map_enc_spec(i)
        <= u32::MAX by {
        assert(h.map_enc_spec(i) < lim);
    }
    assert forall|k2: nat| k2 <= 32 implies #[trigger] crate::rice::rice_cost(
        h.counts(),
        h.enc_table(),
        h.has_table(),
        k2,
    ) <= usize::MAX by {
        assert forall|t: nat|
            t < counts.len() && counts[t as int] > 0 implies (if h.has_table() {
            map_through(h.enc_table(), t)
        } else {
            t
        }) < lim by {
            crate::hist::lemma_nonzero_upper_occupied(counts, t);
            crate::hist::lemma_map_through_below(h.enc_table(), t, bound);
        }
        crate::rice::lemma_rice_cost_le(
            h.counts(),
            h.enc_table(),
            h.has_table(),
            k2,
            lim,
            counts.len(),
        );
        assert(counts.subrange(0, counts.len() as int) =~= counts);
    }
}


} // verus!
