//! Frequency histogram and the bijective symbol remap derived from it.
//!
//! A [`Hist`] counts symbol occurrences over a bounded domain.  An
//! explicit sort step fixes a pair of tables: the decode table ranks
//! symbols by descending count (ties broken by symbol value), and the
//! encode table is its exact inverse.  Mapping a symbol through the
//! encode table relabels frequent symbols to small ranks, which a
//! Golomb-Rice code then represents compactly; the decode table undoes
//! the relabeling.  Only the low part of a symbol, its remainder modulo
//! the table length, is permuted: high bits pass through untouched.

use vstd::prelude::*;

use crate::errors::CodecError;

verus! {

/// Permutes `n` through `table`: the remainder of `n` modulo the table
/// length is replaced by its table entry, the rest of `n` passes
/// through.  An empty table is the identity.
pub open spec fn map_through(table: Seq<u32>, n: nat) -> nat {
    if table.len() == 0 {
        n
    } else {
        let b = n % table.len();
        (n - b + table[b as int]) as nat
    }
}

/// `e` and `d` are mutually inverse permutations of `0..len`.
pub open spec fn inverse_tables(e: Seq<u32>, d: Seq<u32>) -> bool {
    &&& e.len() == d.len()
    &&& forall|i: int| 0 <= i < d.len() ==> d[i] < e.len() && e[d[i] as int] == i
    &&& forall|v: int| 0 <= v < e.len() ==> e[v] < d.len() && d[e[v] as int] == v
}

/// Remapping a symbol and mapping it back returns the symbol: the law
/// behind the bijective remap, for any pair of mutually inverse tables.
pub proof fn lemma_map_roundtrip(e: Seq<u32>, d: Seq<u32>, n: nat)
    requires
        inverse_tables(e, d),
    ensures
        map_through(d, map_through(e, n)) == n,
{
    if e.len() == 0 {
    } else {
        let len = e.len() as nat;
        let b = n % len;
        vstd::arithmetic::div_mod::lemma_mod_division_less_than_divisor(n as int, len as int);
        vstd::arithmetic::div_mod::lemma_mod_decreases(n, len);
        let m = (n - b) as nat;
        let v = (m + e[b as int]) as nat;
        assert(map_through(e, n) == v);
        vstd::arithmetic::div_mod::lemma_fundamental_div_mod(n as int, len as int);
        assert(m == len * (n / len));
        assert(v % len == (e[b as int] as nat) % len) by {
            vstd::arithmetic::div_mod::lemma_mod_multiples_vanish(
                (n / len) as int,
                e[b as int] as int,
                len as int,
            );
        }
        assert(e[b as int] < len);
        vstd::arithmetic::div_mod::lemma_small_mod(e[b as int] as nat, len);
        assert(v % len == e[b as int]);
        assert(map_through(d, v) == (v - v % len + d[e[b as int] as int]) as nat);
        assert(d[e[b as int] as int] == b);
        assert(v - v % len == m);
    }
}

/// How often value `v` occurs in `s`.
pub open spec fn occurrences(s: Seq<u32>, v: nat) -> nat
    decreases s.len(),
{
    if s.len() == 0 {
        0
    } else {
        occurrences(s.drop_last(), v) + (if s.last() == v {
            1nat
        } else {
            0nat
        })
    }
}

/// No value occurs more often than the sequence is long.
pub proof fn lemma_occurrences_le(s: Seq<u32>, v: nat)
    ensures
        occurrences(s, v) <= s.len(),
    decreases s.len(),
{
    if s.len() > 0 {
        lemma_occurrences_le(s.drop_last(), v);
    }
}

/// One past the largest value in `s`: the storage its histogram needs.
pub open spec fn seed_bound(s: Seq<u32>) -> nat
    decreases s.len(),
{
    if s.len() == 0 {
        0
    } else {
        vstd::math::max(seed_bound(s.drop_last()) as int, s.last() + 1 as int) as nat
    }
}

/// The largest value in `s`, or zero when empty.
pub open spec fn max_val(s: Seq<u32>) -> nat
    decreases s.len(),
{
    if s.len() == 0 {
        0
    } else {
        vstd::math::max(max_val(s.drop_last()) as int, s.last() as int) as nat
    }
}

/// Sum of all counts in `s`.
pub open spec fn sum_counts(s: Seq<usize>) -> nat
    decreases s.len(),
{
    if s.len() == 0 {
        0
    } else {
        sum_counts(s.drop_last()) + s.last() as nat
    }
}

/// Sum of the counts at `i`, `i + stride`, `i + 2 * stride`, ...
pub open spec fn strided_sum(s: Seq<usize>, i: nat, stride: nat) -> nat
    decreases s.len() + stride - i when stride >= 1
{
    if i >= s.len() {
        0
    } else {
        s[i as int] as nat + strided_sum(s, i + stride, stride)
    }
}

/// One index left of the highest non-zero count, or zero if all counts
/// are zero: the observed bound of the symbol domain.
pub open spec fn nonzero_upper(s: Seq<usize>) -> nat
    decreases s.len(),
{
    if s.len() == 0 {
        0
    } else if s.last() > 0 {
        s.len()
    } else {
        nonzero_upper(s.drop_last())
    }
}

/// `a` ranks strictly before `b` under counts `s` folded at `bound`:
/// larger count first, ties broken by smaller symbol value.
pub open spec fn rank_before(s: Seq<usize>, bound: nat, a: nat, b: nat) -> bool {
    let ca = strided_sum(s, a, bound);
    let cb = strided_sum(s, b, bound);
    ca > cb || (ca == cb && a < b)
}

/// `d` is a permutation of `0..bound` ranked by descending folded
/// count, ties broken by symbol value: the decode table a sort builds.
pub open spec fn sorted_rank_table(s: Seq<usize>, bound: nat, d: Seq<u32>) -> bool {
    &&& d.len() == bound
    &&& forall|i: int| 0 <= i < d.len() ==> d[i] < bound
    &&& forall|i: int, j: int|
        0 <= i < j < d.len() ==> rank_before(s, bound, d[i] as nat, d[j] as nat)
    &&& forall|v: u32| v < bound ==> #[trigger] d.contains(v)
}

/// What compacting at `bound` leaves behind: the decode table cut at
/// its first entry whose raw folded count is zero — the scan runs with
/// the table taken out, so entries index the counts directly — the kept
/// prefix unchanged, and the encode table rebuilt over it, each kept
/// symbol's last slot recorded.
pub open spec fn compacted_post(pre: Hist, post: Hist, bound: nat) -> bool {
    exists|size: int|
        {
            &&& 0 <= size <= pre.dec_table().len()
            &&& post.dec_table() == pre.dec_table().subrange(0, size)
            &&& forall|t: int|
                0 <= t < size ==> strided_sum(
                    pre.counts(),
                    (#[trigger] pre.dec_table()[t]) as nat,
                    bound,
                ) > 0
            &&& (size < pre.dec_table().len() ==> strided_sum(
                pre.counts(),
                pre.dec_table()[size] as nat,
                bound,
            ) == 0)
            &&& post.enc_table().len() == max_val(pre.dec_table().subrange(0, size)) + 1
            &&& forall|i: int|
                0 <= i < size && (forall|j: int|
                    i < j < size ==> pre.dec_table()[j] != pre.dec_table()[i])
                    ==> post.enc_table()[pre.dec_table()[i] as int] == i
        }
}

/// Frequency table over a bounded symbol domain, with an optional
/// (encode, decode) remap table pair fixed by a sort step.
pub struct Hist {
    hist: Vec<usize>,
    table: Option<(Vec<u32>, Vec<u32>)>,
}

impl Hist {
    /// The occurrence counts, indexed by remapped symbol value.
    pub closed spec fn counts(&self) -> Seq<usize> {
        self.hist@
    }

    /// The count at index `i`; zero outside the backing storage.
    pub open spec fn count_at(&self, i: nat) -> nat {
        if i < self.counts().len() {
            self.counts()[i as int] as nat
        } else {
            0
        }
    }

    pub closed spec fn has_table(&self) -> bool {
        self.table is Some
    }

    /// The encode table: symbol value to frequency rank.
    pub closed spec fn enc_table(&self) -> Seq<u32> {
        match self.table {
            Some((ref e, _)) => e@,
            None => Seq::empty(),
        }
    }

    /// The decode table: frequency rank to symbol value.
    pub closed spec fn dec_table(&self) -> Seq<u32> {
        match self.table {
            Some((_, ref d)) => d@,
            None => Seq::empty(),
        }
    }

    /// What `map_encode` computes: the symbol permuted through the
    /// encode table, or left alone when no table is fixed.
    pub open spec fn map_enc_spec(&self, n: nat) -> nat {
        if self.has_table() {
            map_through(self.enc_table(), n)
        } else {
            n
        }
    }

    /// What `map_decode` computes: the inverse permutation.
    pub open spec fn map_dec_spec(&self, n: nat) -> nat {
        if self.has_table() {
            map_through(self.dec_table(), n)
        } else {
            n
        }
    }

    /// The tables, if fixed, admit the arithmetic the remap performs.
    pub open spec fn tables_usable(&self) -> bool {
        self.has_table() ==> {
            &&& self.enc_table().len() >= 1
            &&& self.dec_table().len() >= 1
            &&& self.enc_table().len() <= u32::MAX
            &&& self.dec_table().len() <= u32::MAX
        }
    }

    /// The fixed bound of the modeled domain: the decode table length if
    /// a table is set, else one past the highest observed symbol.
    pub open spec fn bound_spec(&self) -> nat {
        if self.has_table() {
            self.dec_table().len()
        } else {
            nonzero_upper(self.counts())
        }
    }

    pub fn new() -> (r: Hist)
        ensures
            r.counts() == Seq::<usize>::empty(),
            !r.has_table(),
    {
        Hist::with_capacity(0)
    }

    pub fn with_capacity(capacity: usize) -> (r: Hist)
        ensures
            r.counts() == Seq::<usize>::empty(),
            !r.has_table(),
    {
        Hist { hist: Vec::with_capacity(capacity), table: None }
    }

    /// Fixes the remap tables from an explicit decode table, inverting
    /// it for the encode side.  Entries must lie below the table length,
    /// as each needs a slot in the inverse.
    pub fn with_table(decode_table: &Vec<u32>) -> (r: Hist)
        requires
            decode_table@.len() <= u32::MAX,
            forall|i: int|
                0 <= i < decode_table@.len() ==> decode_table@[i] < decode_table@.len(),
        ensures
            r.counts() == Seq::<usize>::empty(),
            r.has_table(),
            r.dec_table() == decode_table@,
            r.enc_table().len() == decode_table@.len(),
            forall|i: int|
                0 <= i < decode_table@.len() && (forall|j: int|
                    i < j < decode_table@.len() ==> decode_table@[j] != decode_table@[i])
                    ==> r.enc_table()[decode_table@[i] as int] == i,
            perm_table(decode_table@.len() as nat, decode_table@) ==> inverse_tables(
                r.enc_table(),
                decode_table@,
            ),
    {
        let n = decode_table.len();
        let dec = clone_u32_vec(decode_table);
        let enc = invert_table(&dec);
        proof {
            if perm_table(dec@.len() as nat, dec@) {
                lemma_inverse_from_perm(enc@, dec@);
            }
        }
        Hist { hist: Vec::with_capacity(n), table: Some((enc, dec)) }
    }

    /// Seeds a histogram by counting every symbol of `seed` once.
    pub fn from_seed(seed: &Vec<u32>) -> (r: Hist)
        requires
            seed@.len() < usize::MAX,
            forall|i: int| 0 <= i < seed@.len() ==> seed@[i] < usize::MAX,
        ensures
            !r.has_table(),
            r.counts().len() == seed_bound(seed@),
            forall|v: nat| v <= u32::MAX ==> r.count_at(v) == occurrences(seed@, v),
    {
        let mut hist = Hist::new();
        let n = seed.len();
        let mut i: usize = 0;
        proof {
            assert(seed@.subrange(0, 0) =~= Seq::<u32>::empty());
        }
        while i < n
            invariant
                n == seed@.len() < usize::MAX,
                forall|k: int| 0 <= k < seed@.len() ==> seed@[k] < usize::MAX,
                i <= n,
                !hist.has_table(),
                hist.counts().len() == seed_bound(seed@.subrange(0, i as int)),
                forall|v: nat|
                    v <= u32::MAX ==> #[trigger] hist.count_at(v) == occurrences(
                        seed@.subrange(0, i as int),
                        v,
                    ),
            decreases n - i,
        {
            let x = seed[i];
            proof {
                let pre = seed@.subrange(0, i as int);
                let post = seed@.subrange(0, i + 1);
                assert(post.drop_last() =~= pre);
                assert(post.last() == seed@[i as int]);
                lemma_occurrences_le(pre, x as nat);
                assert(hist.count_at(x as nat) <= pre.len() < usize::MAX);
            }
            hist.increment(x);
            i = i + 1;
        }
        assert(seed@.subrange(0, n as int) =~= seed@);
        hist
    }

    /// One past the highest symbol with a non-zero count, or the fixed
    /// table length if a table is set.
    pub fn bound(&self) -> (r: usize)
        ensures
            r == self.bound_spec(),
    {
        match &self.table {
            Some((_, d)) => d.len(),
            None => {
                proof {
                    assert(!self.has_table());
                    assert(self.bound_spec() == nonzero_upper(self.counts()));
                }
                let mut i: usize = self.hist.len();
                proof {
                    assert(self.counts().subrange(0, i as int) =~= self.counts());
                }
                while i > 0
                    invariant
                        !self.has_table(),
                        i <= self.counts().len(),
                        nonzero_upper(self.counts()) == nonzero_upper(
                            self.counts().subrange(0, i as int),
                        ),
                    decreases i,
                {
                    if self.hist[i - 1] > 0 {
                        proof {
                            let sub = self.counts().subrange(0, i as int);
                            assert(sub.last() == self.counts()[i - 1]);
                            assert(sub.last() > 0);
                            assert(nonzero_upper(sub) == sub.len());
                        }
                        return i;
                    }
                    proof {
                        let s = self.counts().subrange(0, i as int);
                        assert(s.last() == self.counts()[i - 1]);
                        assert(s.drop_last() =~= self.counts().subrange(0, i - 1));
                    }
                    i = i - 1;
                }
                assert(self.counts().subrange(0, 0) =~= Seq::<usize>::empty());
                0
            },
        }
    }

    /// The count recorded for symbol `n`, after remapping `n` through
    /// the decode table.
    pub fn get(&self, n: u32) -> (r: usize)
        requires
            self.tables_usable(),
            self.map_dec_spec(n as nat) <= u32::MAX,
        ensures
            r == self.count_at(self.map_dec_spec(n as nat)),
    {
        let idx = self.map_decode_checked(n);
        if (idx as usize) < self.hist.len() {
            self.hist[idx as usize]
        } else {
            0
        }
    }

    /// The counts for symbol `n` folded at `bound`: every index
    /// congruent to `n`'s remap below the storage length contributes.
    pub fn get_bounded(&self, n: u32, bound: usize) -> (r: usize)
        requires
            self.tables_usable(),
            self.map_dec_spec(n as nat) <= u32::MAX,
            bound >= 1,
            strided_sum(self.counts(), self.map_dec_spec(n as nat), bound as nat)
                <= usize::MAX,
        ensures
            r == strided_sum(self.counts(), self.map_dec_spec(n as nat), bound as nat),
    {
        let idx = self.map_decode_checked(n);
        let mut count: usize = 0;
        let mut i: usize = idx as usize;
        let n_len = self.hist.len();
        while i < n_len
            invariant
                n_len == self.counts().len(),
                bound >= 1,
                count + strided_sum(self.counts(), i as nat, bound as nat) == strided_sum(
                    self.counts(),
                    self.map_dec_spec(n as nat),
                    bound as nat,
                ),
                strided_sum(self.counts(), self.map_dec_spec(n as nat), bound as nat)
                    <= usize::MAX,
            decreases n_len - i,
        {
            proof {
                assert(strided_sum(self.counts(), i as nat, bound as nat) == self.counts()[i as int]
                    + strided_sum(self.counts(), (i + bound) as nat, bound as nat));
            }
            count = count + self.hist[i];
            if bound > n_len - i {
                assert(i + bound >= self.counts().len());
                return count;
            }
            i = i + bound;
        }
        count
    }

    /// Adds one to the count at `n`.
    pub fn increment(&mut self, n: u32)
        requires
            old(self).tables_usable(),
            old(self).map_dec_spec(n as nat) <= u32::MAX,
            old(self).map_dec_spec(n as nat) < usize::MAX,
            old(self).count_at(old(self).map_dec_spec(n as nat)) < usize::MAX,
        ensures
            final(self).has_table() == old(self).has_table(),
            final(self).enc_table() == old(self).enc_table(),
            final(self).dec_table() == old(self).dec_table(),
            final(self).counts().len() == vstd::math::max(
                old(self).counts().len() as int,
                old(self).map_dec_spec(n as nat) + 1 as int,
            ),
            forall|j: nat|
                j <= u32::MAX ==> #[trigger] final(self).count_at(j) == old(self).count_at(j) + (
                if j == old(self).map_dec_spec(n as nat) {
                    1int
                } else {
                    0int
                }),
    {
        self.increment_by(n, 1);
    }

    /// Adds `diff` to the count at `n`, growing storage as needed.
    pub fn increment_by(&mut self, n: u32, diff: usize)
        requires
            old(self).tables_usable(),
            old(self).map_dec_spec(n as nat) <= u32::MAX,
            old(self).map_dec_spec(n as nat) < usize::MAX,
            old(self).count_at(old(self).map_dec_spec(n as nat)) + diff <= usize::MAX,
        ensures
            final(self).has_table() == old(self).has_table(),
            final(self).enc_table() == old(self).enc_table(),
            final(self).dec_table() == old(self).dec_table(),
            final(self).counts().len() == vstd::math::max(
                old(self).counts().len() as int,
                old(self).map_dec_spec(n as nat) + 1 as int,
            ),
            forall|j: nat|
                j <= u32::MAX ==> #[trigger] final(self).count_at(j) == old(self).count_at(j) + (
                if j == old(self).map_dec_spec(n as nat) {
                    diff as int
                } else {
                    0int
                }),
    {
        let idx = self.map_decode_checked(n) as usize;
        while self.hist.len() < idx + 1
            invariant
                idx < usize::MAX,
                self.table == old(self).table,
                old(self).counts().len() <= self.counts().len() <= vstd::math::max(
                    old(self).counts().len() as int,
                    idx + 1,
                ),
                forall|j: int|
                    0 <= j < self.counts().len() ==> self.counts()[j] == (if j < old(
                        self,
                    ).counts().len() {
                        old(self).counts()[j]
                    } else {
                        0usize
                    }),
            decreases idx + 1 - self.hist.len(),
        {
            self.hist.push(0);
        }
        let cur = self.hist[idx];
        self.hist.set(idx, cur + diff);
    }

    /// Takes one from the count at `n`.
    pub fn decrement(&mut self, n: u32)
        requires
            old(self).tables_usable(),
            old(self).map_dec_spec(n as nat) <= u32::MAX,
            old(self).count_at(old(self).map_dec_spec(n as nat)) >= 1,
            old(self).map_dec_spec(n as nat) < old(self).counts().len(),
        ensures
            final(self).has_table() == old(self).has_table(),
            final(self).enc_table() == old(self).enc_table(),
            final(self).dec_table() == old(self).dec_table(),
            final(self).counts().len() == old(self).counts().len(),
            forall|j: nat|
                j <= u32::MAX ==> #[trigger] final(self).count_at(j) == old(self).count_at(j) - (
                if j == old(self).map_dec_spec(n as nat) {
                    1int
                } else {
                    0int
                }),
    {
        self.decrement_by(n, 1);
    }

    /// Takes `diff` from the count at `n`; the count must cover it, and
    /// a symbol outside the storage only admits a zero `diff`.
    pub fn decrement_by(&mut self, n: u32, diff: usize)
        requires
            old(self).tables_usable(),
            old(self).map_dec_spec(n as nat) <= u32::MAX,
            old(self).count_at(old(self).map_dec_spec(n as nat)) >= diff,
            old(self).map_dec_spec(n as nat) < old(self).counts().len() || diff == 0,
        ensures
            final(self).has_table() == old(self).has_table(),
            final(self).enc_table() == old(self).enc_table(),
            final(self).dec_table() == old(self).dec_table(),
            final(self).counts().len() == old(self).counts().len(),
            forall|j: nat|
                j <= u32::MAX ==> #[trigger] final(self).count_at(j) == old(self).count_at(j) - (
                if j == old(self).map_dec_spec(n as nat) {
                    diff as int
                } else {
                    0int
                }),
    {
        let idx = self.map_decode_checked(n) as usize;
        if idx < self.hist.len() {
            let cur = self.hist[idx];
            self.hist.set(idx, cur - diff);
        }
    }

    /// Sum of every recorded count.
    pub fn sum(&self) -> (r: usize)
        requires
            sum_counts(self.counts()) <= usize::MAX,
        ensures
            r == sum_counts(self.counts()),
    {
        let mut total: usize = 0;
        let n = self.hist.len();
        let mut i: usize = 0;
        proof {
            assert(self.counts().subrange(0, 0) =~= Seq::<usize>::empty());
            lemma_sum_prefix(self.counts(), 0);
        }
        while i < n
            invariant
                n == self.counts().len(),
                i <= n,
                total == sum_counts(self.counts().subrange(0, i as int)),
                sum_counts(self.counts()) <= usize::MAX,
            decreases n - i,
        {
            proof {
                let s1 = self.counts().subrange(0, i + 1);
                assert(s1.drop_last() =~= self.counts().subrange(0, i as int));
                assert(s1.last() == self.counts()[i as int]);
                lemma_sum_prefix(self.counts(), i + 1);
            }
            total = total + self.hist[i];
            i = i + 1;
        }
        assert(self.counts().subrange(0, n as int) =~= self.counts());
        total
    }

    /// The encode table, or empty when none is fixed.
    pub fn encode_table(&self) -> (r: Vec<u32>)
        ensures
            r@ == self.enc_table(),
    {
        match &self.table {
            Some((e, _)) => clone_u32_vec(e),
            None => Vec::new(),
        }
    }

    /// The decode table, or empty when none is fixed.
    pub fn decode_table(&self) -> (r: Vec<u32>)
        ensures
            r@ == self.dec_table(),
    {
        match &self.table {
            Some((_, d)) => clone_u32_vec(d),
            None => Vec::new(),
        }
    }

    /// Permutes a symbol forward through the encode table; `Cast` when
    /// the relabeled value does not fit a 32-bit symbol.
    pub fn map_encode(&self, n: u32) -> (r: Result<u32, CodecError>)
        requires
            self.tables_usable(),
        ensures
            match r {
                Ok(v) => v == self.map_enc_spec(n as nat) && self.map_enc_spec(n as nat)
                    <= u32::MAX,
                Err(e) => e == CodecError::Cast && self.map_enc_spec(n as nat) > u32::MAX,
            },
    {
        match &self.table {
            None => Ok(n),
            Some((e, _)) => map_exec(e, n),
        }
    }

    /// Permutes a symbol back through the decode table; `Cast` when the
    /// restored value does not fit a 32-bit symbol.
    pub fn map_decode(&self, n: u32) -> (r: Result<u32, CodecError>)
        requires
            self.tables_usable(),
        ensures
            match r {
                Ok(v) => v == self.map_dec_spec(n as nat) && self.map_dec_spec(n as nat)
                    <= u32::MAX,
                Err(e) => e == CodecError::Cast && self.map_dec_spec(n as nat) > u32::MAX,
            },
    {
        match &self.table {
            None => Ok(n),
            Some((_, d)) => map_exec(d, n),
        }
    }

    /// `map_decode` where the caller knows the result fits.
    fn map_decode_checked(&self, n: u32) -> (r: u32)
        requires
            self.tables_usable(),
            self.map_dec_spec(n as nat) <= u32::MAX,
        ensures
            r == self.map_dec_spec(n as nat),
    {
        match self.map_decode(n) {
            Ok(v) => v,
            Err(_) => vstd::pervasive::unreached(),
        }
    }

    /// Ranks the symbols `0..bound` by descending count (stable on
    /// ties, by symbol value) as the decode table, and fixes the encode
    /// table as its exact inverse.
    pub fn sort_bounded(&mut self, bound: usize)
        requires
            bound <= u32::MAX,
            forall|v: nat|
                v < bound ==> strided_sum(old(self).counts(), v, bound as nat) <= usize::MAX,
        ensures
            final(self).counts() == old(self).counts(),
            final(self).has_table(),
            final(self).dec_table().len() == bound,
            final(self).enc_table().len() == bound,
            sorted_rank_table(old(self).counts(), bound as nat, final(self).dec_table()),
            inverse_tables(final(self).enc_table(), final(self).dec_table()),
    {
        self.table = None;
        proof {
            assert(self.counts() == old(self).counts());
        }
        let mut keys: Vec<usize> = Vec::with_capacity(bound);
        let mut v: usize = 0;
        while v < bound
            invariant
                !self.has_table(),
                self.counts() == old(self).counts(),
                v <= bound <= u32::MAX,
                keys@.len() == v,
                forall|w: int|
                    0 <= w < v ==> keys@[w] == strided_sum(
                        self.counts(),
                        w as nat,
                        bound as nat,
                    ),
                forall|w: nat|
                    w < bound ==> strided_sum(self.counts(), w, bound as nat) <= usize::MAX,
            decreases bound - v,
        {
            let c = self.get_bounded(v as u32, bound);
            keys.push(c);
            v = v + 1;
        }
        let d = sort_by_keys(&keys);
        let e = invert_table(&d);
        proof {
            let cts = self.counts();
            let bn = bound as nat;
            assert(sorted_rank_table(cts, bn, d@)) by {
                assert forall|i: int, j: int| 0 <= i < j < d@.len() implies rank_before(
                    cts,
                    bn,
                    d@[i] as nat,
                    d@[j] as nat,
                ) by {
                    assert(key_before(keys@, d@[i] as nat, d@[j] as nat));
                    assert(keys@[d@[i] as int] == strided_sum(cts, d@[i] as nat, bn));
                    assert(keys@[d@[j] as int] == strided_sum(cts, d@[j] as nat, bn));
                }
            }
            assert(inverse_tables(e@, d@)) by {
                assert forall|i: int| 0 <= i < d@.len() implies d@[i] < e@.len() && e@[d@[i]
                    as int] == i by {
                    assert(forall|j: int| i < j < d@.len() ==> d@[j] != d@[i]);
                }
                assert forall|w: int| 0 <= w < e@.len() implies e@[w] < d@.len() && d@[e@[w]
                    as int] == w by {
                    assert(d@.contains(w as u32));
                    let i = choose|i: int| 0 <= i < d@.len() && d@[i] == w as u32;
                    assert(forall|j: int| i < j < d@.len() ==> d@[j] != d@[i]);
                    assert(e@[w] == i);
                }
            }
        }
        self.table = Some((e, d));
    }

    /// `sort_bounded` at the observed bound of the histogram.
    pub fn sort(&mut self)
        requires
            nonzero_upper(old(self).counts()) <= u32::MAX,
            forall|v: nat|
                v < nonzero_upper(old(self).counts()) ==> strided_sum(
                    old(self).counts(),
                    v,
                    nonzero_upper(old(self).counts()),
                ) <= usize::MAX,
        ensures
            final(self).counts() == old(self).counts(),
            final(self).has_table(),
            final(self).dec_table().len() == nonzero_upper(old(self).counts()),
            final(self).enc_table().len() == nonzero_upper(old(self).counts()),
            sorted_rank_table(
                old(self).counts(),
                nonzero_upper(old(self).counts()),
                final(self).dec_table(),
            ),
            inverse_tables(final(self).enc_table(), final(self).dec_table()),
    {
        self.table = None;
        let b = self.bound();
        self.sort_bounded(b);
    }

    /// The number of storage slots the counts occupy.
    pub fn counts_len(&self) -> (n: usize)
        ensures
            n == self.counts().len(),
    {
        self.hist.len()
    }

    /// The raw count at storage slot `i` of the remapped domain.
    pub fn count_index(&self, i: usize) -> (c: usize)
        requires
            i < self.counts().len(),
        ensures
            c == self.counts()[i as int],
    {
        self.hist[i]
    }


    /// Whether storage slot `i` holds a positive count.
    pub open spec fn occupied(&self, i: nat) -> bool {
        i < self.counts().len() && self.counts()[i as int] > 0
    }

    /// The preconditions of walking the histogram's entries: every
    /// storage slot must remap into a 32-bit symbol.
    pub open spec fn iterable(&self) -> bool {
        &&& self.tables_usable()
        &&& self.counts().len() <= u32::MAX + 1
        &&& forall|i: nat| i < self.counts().len() ==> #[trigger] self.map_enc_spec(i) <= u32::MAX
    }

    /// The entry with the smallest count; the first such in storage
    /// order.  `None` when every count is zero.
    pub fn min(&self) -> (r: Option<(u32, usize)>)
        requires
            self.iterable(),
        ensures
            match r {
                Some((sym, cnt)) => exists|i: nat|
                    {
                        &&& #[trigger] self.occupied(i)
                        &&& sym == self.map_enc_spec(i)
                        &&& cnt == self.counts()[i as int]
                        &&& forall|j: nat| #[trigger] self.occupied(j) ==> cnt <= self.counts()[j as int]
                        &&& forall|j: nat|
                            j < i && #[trigger] self.occupied(j) ==> cnt < self.counts()[j as int]
                    },
                None => forall|j: nat| !#[trigger] self.occupied(j),
            },
    {
        let n = self.counts_len();
        let mut best: Option<(u32, usize)> = None;
        let ghost mut bi: nat = 0;
        let mut i: usize = 0;
        while i < n
            invariant
                self.iterable(),
                n == self.counts().len(),
                i <= n,
                match best {
                    Some((sym, cnt)) => {
                        &&& bi < i
                        &&& self.occupied(bi)
                        &&& sym == self.map_enc_spec(bi)
                        &&& cnt == self.counts()[bi as int]
                        &&& forall|j: nat|
                            j < i && #[trigger] self.occupied(j) ==> cnt <= self.counts()[j as int]
                        &&& forall|j: nat|
                            j < bi && #[trigger] self.occupied(j) ==> cnt < self.counts()[j as int]
                    },
                    None => forall|j: nat| j < i ==> !#[trigger] self.occupied(j),
                },
            decreases n - i,
        {
            let cnt = self.count_index(i);
            if cnt > 0 {
                let take = match best {
                    None => true,
                    Some((_, bc)) => cnt < bc,
                };
                if take {
                    let sym = self.map_encode_checked(i as u32);
                    best = Some((sym, cnt));
                    proof {
                        bi = i as nat;
                    }
                }
            }
            i = i + 1;
        }
        best
    }

    /// The entry with the largest count; the last such in storage
    /// order.  `None` when every count is zero.
    pub fn max(&self) -> (r: Option<(u32, usize)>)
        requires
            self.iterable(),
        ensures
            match r {
                Some((sym, cnt)) => exists|i: nat|
                    {
                        &&& #[trigger] self.occupied(i)
                        &&& sym == self.map_enc_spec(i)
                        &&& cnt == self.counts()[i as int]
                        &&& forall|j: nat| #[trigger] self.occupied(j) ==> self.counts()[j as int] <= cnt
                        &&& forall|j: nat|
                            j > i && #[trigger] self.occupied(j) ==> self.counts()[j as int] < cnt
                    },
                None => forall|j: nat| !#[trigger] self.occupied(j),
            },
    {
        let n = self.counts_len();
        let mut best: Option<(u32, usize)> = None;
        let ghost mut bi: nat = 0;
        let mut i: usize = 0;
        while i < n
            invariant
                self.iterable(),
                n == self.counts().len(),
                i <= n,
                match best {
                    Some((sym, cnt)) => {
                        &&& bi < i
                        &&& self.occupied(bi)
                        &&& sym == self.map_enc_spec(bi)
                        &&& cnt == self.counts()[bi as int]
                        &&& forall|j: nat|
                            j < i && #[trigger] self.occupied(j) ==> self.counts()[j as int] <= cnt
                        &&& forall|j: nat|
                            bi < j < i && #[trigger] self.occupied(j) ==> self.counts()[j as int]
                                < cnt
                    },
                    None => forall|j: nat| j < i ==> !#[trigger] self.occupied(j),
                },
            decreases n - i,
        {
            let cnt = self.count_index(i);
            if cnt > 0 {
                let take = match best {
                    None => true,
                    Some((_, bc)) => cnt >= bc,
                };
                if take {
                    let sym = self.map_encode_checked(i as u32);
                    best = Some((sym, cnt));
                    proof {
                        bi = i as nat;
                    }
                }
            }
            i = i + 1;
        }
        best
    }

    /// The entry with the smallest remapped symbol; first on ties.
    /// `None` when every count is zero.
    pub fn lower(&self) -> (r: Option<(u32, usize)>)
        requires
            self.iterable(),
        ensures
            match r {
                Some((sym, cnt)) => exists|i: nat|
                    {
                        &&& #[trigger] self.occupied(i)
                        &&& sym == self.map_enc_spec(i)
                        &&& cnt == self.counts()[i as int]
                        &&& forall|j: nat| #[trigger] self.occupied(j) ==> sym <= self.map_enc_spec(j)
                        &&& forall|j: nat|
                            j < i && #[trigger] self.occupied(j) ==> sym < self.map_enc_spec(j)
                    },
                None => forall|j: nat| !#[trigger] self.occupied(j),
            },
    {
        let n = self.counts_len();
        let mut best: Option<(u32, usize)> = None;
        let ghost mut bi: nat = 0;
        let mut i: usize = 0;
        while i < n
            invariant
                self.iterable(),
                n == self.counts().len(),
                i <= n,
                match best {
                    Some((sym, cnt)) => {
                        &&& bi < i
                        &&& self.occupied(bi)
                        &&& sym == self.map_enc_spec(bi)
                        &&& cnt == self.counts()[bi as int]
                        &&& forall|j: nat|
                            j < i && #[trigger] self.occupied(j) ==> sym <= self.map_enc_spec(j)
                        &&& forall|j: nat|
                            j < bi && #[trigger] self.occupied(j) ==> sym < self.map_enc_spec(j)
                    },
                    None => forall|j: nat| j < i ==> !#[trigger] self.occupied(j),
                },
            decreases n - i,
        {
            let cnt = self.count_index(i);
            if cnt > 0 {
                let sym = self.map_encode_checked(i as u32);
                let take = match best {
                    None => true,
                    Some((bs, _)) => sym < bs,
                };
                if take {
                    best = Some((sym, cnt));
                    proof {
                        bi = i as nat;
                    }
                }
            }
            i = i + 1;
        }
        best
    }

    /// The entry with the largest remapped symbol; last on ties.
    /// `None` when every count is zero.
    pub fn upper(&self) -> (r: Option<(u32, usize)>)
        requires
            self.iterable(),
        ensures
            match r {
                Some((sym, cnt)) => exists|i: nat|
                    {
                        &&& #[trigger] self.occupied(i)
                        &&& sym == self.map_enc_spec(i)
                        &&& cnt == self.counts()[i as int]
                        &&& forall|j: nat| #[trigger] self.occupied(j) ==> self.map_enc_spec(j) <= sym
                        &&& forall|j: nat|
                            j > i && #[trigger] self.occupied(j) ==> self.map_enc_spec(j) < sym
                    },
                None => forall|j: nat| !#[trigger] self.occupied(j),
            },
    {
        let n = self.counts_len();
        let mut best: Option<(u32, usize)> = None;
        let ghost mut bi: nat = 0;
        let mut i: usize = 0;
        while i < n
            invariant
                self.iterable(),
                n == self.counts().len(),
                i <= n,
                match best {
                    Some((sym, cnt)) => {
                        &&& bi < i
                        &&& self.occupied(bi)
                        &&& sym == self.map_enc_spec(bi)
                        &&& cnt == self.counts()[bi as int]
                        &&& forall|j: nat|
                            j < i && #[trigger] self.occupied(j) ==> self.map_enc_spec(j) <= sym
                        &&& forall|j: nat|
                            bi < j < i && #[trigger] self.occupied(j) ==> self.map_enc_spec(j)
                                < sym
                    },
                    None => forall|j: nat| j < i ==> !#[trigger] self.occupied(j),
                },
            decreases n - i,
        {
            let cnt = self.count_index(i);
            if cnt > 0 {
                let sym = self.map_encode_checked(i as u32);
                let take = match best {
                    None => true,
                    Some((bs, _)) => sym >= bs,
                };
                if take {
                    best = Some((sym, cnt));
                    proof {
                        bi = i as nat;
                    }
                }
            }
            i = i + 1;
        }
        best
    }

    /// `map_encode` where the caller knows the result fits.
    fn map_encode_checked(&self, n: u32) -> (r: u32)
        requires
            self.tables_usable(),
            self.map_enc_spec(n as nat) <= u32::MAX,
        ensures
            r == self.map_enc_spec(n as nat),
    {
        match self.map_encode(n) {
            Ok(v) => v,
            Err(_) => vstd::pervasive::unreached(),
        }
    }


    /// The folded count that the bounded walks see at symbol `i`.
    pub open spec fn bounded_count(&self, i: nat, bound: nat) -> nat {
        strided_sum(self.counts(), self.map_dec_spec(i), bound)
    }

    /// The preconditions of walking the histogram folded at `bound`.
    pub open spec fn iterable_bounded(&self, bound: nat) -> bool {
        &&& self.tables_usable()
        &&& 1 <= bound <= u32::MAX
        &&& forall|i: nat| i < bound ==> #[trigger] self.map_dec_spec(i) <= u32::MAX
        &&& forall|i: nat| i < bound ==> #[trigger] self.bounded_count(i, bound) <= usize::MAX
    }

    /// The symbol below `bound` with the smallest folded count; first
    /// on ties.  `None` when every folded count is zero.
    pub fn min_bounded(&self, bound: usize) -> (r: Option<(u32, usize)>)
        requires
            self.iterable_bounded(bound as nat),
        ensures
            match r {
                Some((sym, cnt)) => exists|i: nat|
                    {
                        &&& i < bound
                        &&& sym == i
                        &&& cnt == #[trigger] self.bounded_count(i, bound as nat) > 0
                        &&& forall|j: nat|
                            j < bound && #[trigger] self.bounded_count(j, bound as nat) > 0
                                ==> cnt <= self.bounded_count(j, bound as nat)
                        &&& forall|j: nat|
                            j < i && #[trigger] self.bounded_count(j, bound as nat) > 0 ==> cnt
                                < self.bounded_count(j, bound as nat)
                    },
                None => forall|j: nat|
                    j < bound ==> #[trigger] self.bounded_count(j, bound as nat) == 0,
            },
    {
        let mut best: Option<(u32, usize)> = None;
        let ghost mut bi: nat = 0;
        let mut i: usize = 0;
        while i < bound
            invariant
                self.iterable_bounded(bound as nat),
                i <= bound,
                match best {
                    Some((sym, cnt)) => {
                        &&& bi < i
                        &&& sym == bi
                        &&& cnt == self.bounded_count(bi, bound as nat) > 0
                        &&& forall|j: nat|
                            j < i && #[trigger] self.bounded_count(j, bound as nat) > 0
                                ==> cnt <= self.bounded_count(j, bound as nat)
                        &&& forall|j: nat|
                            j < bi && #[trigger] self.bounded_count(j, bound as nat) > 0
                                ==> cnt < self.bounded_count(j, bound as nat)
                    },
                    None => forall|j: nat|
                        j < i ==> #[trigger] self.bounded_count(j, bound as nat) == 0,
                },
            decreases bound - i,
        {
            proof {
                assert(self.bounded_count(i as nat, bound as nat) <= usize::MAX);
                assert(self.map_dec_spec(i as nat) <= u32::MAX);
            }
            let cnt = self.get_bounded(i as u32, bound);
            if cnt > 0 {
                let take = match best {
                    None => true,
                    Some((_, bc)) => cnt < bc,
                };
                if take {
                    best = Some((i as u32, cnt));
                    proof {
                        bi = i as nat;
                    }
                }
            }
            i = i + 1;
        }
        best
    }

    /// The symbol below `bound` with the largest folded count; last on
    /// ties.  `None` when every folded count is zero.
    pub fn max_bounded(&self, bound: usize) -> (r: Option<(u32, usize)>)
        requires
            self.iterable_bounded(bound as nat),
        ensures
            match r {
                Some((sym, cnt)) => exists|i: nat|
                    {
                        &&& i < bound
                        &&& sym == i
                        &&& cnt == #[trigger] self.bounded_count(i, bound as nat) > 0
                        &&& forall|j: nat|
                            j < bound && #[trigger] self.bounded_count(j, bound as nat) > 0
                                ==> self.bounded_count(j, bound as nat) <= cnt
                        &&& forall|j: nat|
                            i < j < bound && #[trigger] self.bounded_count(j, bound as nat) > 0
                                ==> self.bounded_count(j, bound as nat) < cnt
                    },
                None => forall|j: nat|
                    j < bound ==> #[trigger] self.bounded_count(j, bound as nat) == 0,
            },
    {
        let mut best: Option<(u32, usize)> = None;
        let ghost mut bi: nat = 0;
        let mut i: usize = 0;
        while i < bound
            invariant
                self.iterable_bounded(bound as nat),
                i <= bound,
                match best {
                    Some((sym, cnt)) => {
                        &&& bi < i
                        &&& sym == bi
                        &&& cnt == self.bounded_count(bi, bound as nat) > 0
                        &&& forall|j: nat|
                            j < i && #[trigger] self.bounded_count(j, bound as nat) > 0
                                ==> self.bounded_count(j, bound as nat) <= cnt
                        &&& forall|j: nat|
                            bi < j < i && #[trigger] self.bounded_count(j, bound as nat) > 0
                                ==> self.bounded_count(j, bound as nat) < cnt
                    },
                    None => forall|j: nat|
                        j < i ==> #[trigger] self.bounded_count(j, bound as nat) == 0,
                },
            decreases bound - i,
        {
            proof {
                assert(self.bounded_count(i as nat, bound as nat) <= usize::MAX);
                assert(self.map_dec_spec(i as nat) <= u32::MAX);
            }
            let cnt = self.get_bounded(i as u32, bound);
            if cnt > 0 {
                let take = match best {
                    None => true,
                    Some((_, bc)) => cnt >= bc,
                };
                if take {
                    best = Some((i as u32, cnt));
                    proof {
                        bi = i as nat;
                    }
                }
            }
            i = i + 1;
        }
        best
    }

    /// The smallest symbol below `bound` with a positive folded count.
    pub fn lower_bounded(&self, bound: usize) -> (r: Option<(u32, usize)>)
        requires
            self.iterable_bounded(bound as nat),
        ensures
            match r {
                Some((sym, cnt)) => {
                    &&& (sym as nat) < bound
                    &&& cnt == self.bounded_count(sym as nat, bound as nat) > 0
                    &&& forall|j: nat|
                        j < sym as nat ==> #[trigger] self.bounded_count(j, bound as nat) == 0
                },
                None => forall|j: nat|
                    j < bound ==> #[trigger] self.bounded_count(j, bound as nat) == 0,
            },
    {
        let mut i: usize = 0;
        while i < bound
            invariant
                self.iterable_bounded(bound as nat),
                i <= bound,
                forall|j: nat| j < i ==> #[trigger] self.bounded_count(j, bound as nat) == 0,
            decreases bound - i,
        {
            proof {
                assert(self.bounded_count(i as nat, bound as nat) <= usize::MAX);
                assert(self.map_dec_spec(i as nat) <= u32::MAX);
            }
            let cnt = self.get_bounded(i as u32, bound);
            if cnt > 0 {
                return Some((i as u32, cnt));
            }
            i = i + 1;
        }
        None
    }

    /// The largest symbol below `bound` with a positive folded count.
    pub fn upper_bounded(&self, bound: usize) -> (r: Option<(u32, usize)>)
        requires
            self.iterable_bounded(bound as nat),
        ensures
            match r {
                Some((sym, cnt)) => {
                    &&& (sym as nat) < bound
                    &&& cnt == self.bounded_count(sym as nat, bound as nat) > 0
                    &&& forall|j: nat|
                        (sym as nat) < j < bound ==> #[trigger] self.bounded_count(
                            j,
                            bound as nat,
                        ) == 0
                },
                None => forall|j: nat|
                    j < bound ==> #[trigger] self.bounded_count(j, bound as nat) == 0,
            },
    {
        let mut i: usize = bound;
        while i > 0
            invariant
                self.iterable_bounded(bound as nat),
                i <= bound,
                forall|j: nat| i <= j < bound ==> #[trigger] self.bounded_count(j, bound as nat)
                    == 0,
            decreases i,
        {
            i = i - 1;
            proof {
                assert(self.bounded_count(i as nat, bound as nat) <= usize::MAX);
                assert(self.map_dec_spec(i as nat) <= u32::MAX);
            }
            let cnt = self.get_bounded(i as u32, bound);
            if cnt > 0 {
                return Some((i as u32, cnt));
            }
        }
        None
    }


    /// Fixes the remap tables from an explicit decode table: the encode
    /// table is sized to hold every listed symbol and inverts the last
    /// occurrence of each.
    pub fn set_table(&mut self, decode_table: &Vec<u32>)
        requires
            decode_table@.len() <= u32::MAX,
            forall|i: int| 0 <= i < decode_table@.len() ==> decode_table@[i] < u32::MAX,
        ensures
            final(self).counts() == old(self).counts(),
            final(self).has_table(),
            final(self).dec_table() == decode_table@,
            final(self).enc_table().len() == max_val(decode_table@) + 1,
            forall|i: int|
                0 <= i < decode_table@.len() && (forall|j: int|
                    i < j < decode_table@.len() ==> decode_table@[j] != decode_table@[i])
                    ==> final(self).enc_table()[decode_table@[i] as int] == i,
    {
        let n = decode_table.len();
        let mut mx: u32 = 0;
        let mut i: usize = 0;
        while i < n
            invariant
                n == decode_table@.len(),
                forall|t: int| 0 <= t < n ==> decode_table@[t] < u32::MAX,
                i <= n,
                mx < u32::MAX,
                mx as nat == max_val(decode_table@.subrange(0, i as int)),
            decreases n - i,
        {
            proof {
                let sub1 = decode_table@.subrange(0, i + 1);
                assert(sub1.drop_last() =~= decode_table@.subrange(0, i as int));
                assert(sub1.last() == decode_table@[i as int]);
            }
            if decode_table[i] > mx {
                mx = decode_table[i];
            }
            i = i + 1;
        }
        proof {
            assert(decode_table@.subrange(0, n as int) =~= decode_table@);
        }
        let size = mx as usize + 1;
        let mut enc: Vec<u32> = Vec::new();
        let mut v: usize = 0;
        while v < size
            invariant
                v <= size,
                enc@.len() == v,
            decreases size - v,
        {
            enc.push(0);
            v = v + 1;
        }
        proof {
            lemma_max_val_ge(decode_table@);
        }
        let mut k: usize = 0;
        while k < n
            invariant
                n == decode_table@.len() <= u32::MAX,
                forall|t: int| 0 <= t < n ==> decode_table@[t] < enc@.len(),
                k <= n,
                enc@.len() == size,
                forall|i2: int|
                    0 <= i2 < k && (forall|j: int| i2 < j < k ==> decode_table@[j]
                        != decode_table@[i2]) ==> enc@[decode_table@[i2] as int] == i2,
            decreases n - k,
        {
            enc.set(decode_table[k] as usize, k as u32);
            k = k + 1;
        }
        let dec = clone_u32_vec(decode_table);
        self.table = Some((enc, dec));
    }

    /// Cuts the decode table at the first symbol whose folded count is
    /// zero, and rebuilds the encode table for the kept prefix: never-
    /// seen symbols stop spending code space.
    #[verifier::rlimit(30)]
    pub fn compact_bounded(&mut self, bound: usize)
        requires
            old(self).tables_usable(),
            bound >= 1,
            bound <= u32::MAX,
            forall|i: int|
                0 <= i < old(self).dec_table().len() ==> (#[trigger] old(self).dec_table()[i])
                    < u32::MAX && strided_sum(
                    old(self).counts(),
                    old(self).dec_table()[i] as nat,
                    bound as nat,
                ) <= usize::MAX,
        ensures
            final(self).counts() == old(self).counts(),
            final(self).has_table() == old(self).has_table(),
            old(self).has_table() ==> compacted_post(*old(self), *final(self), bound as nat),
            !old(self).has_table() ==> final(self).enc_table() == old(self).enc_table()
                && final(self).dec_table() == old(self).dec_table(),
    {
        let dec_old = match &self.table {
            None => {
                return ;
            },
            Some((_, d)) => clone_u32_vec(d),
        };
        // the scan runs with the table taken out, as the entries are
        // raw storage indices, not remapped symbols
        self.table = None;
        let n = dec_old.len();
        let mut t: usize = 0;
        while t < n
            invariant
                !self.has_table(),
                self.counts() == old(self).counts(),
                dec_old@ == old(self).dec_table(),
                n == dec_old@.len(),
                t <= n,
                forall|t2: int|
                    0 <= t2 < t ==> strided_sum(
                        old(self).counts(),
                        (#[trigger] dec_old@[t2]) as nat,
                        bound as nat,
                    ) > 0,
                bound >= 1,
                forall|i: int|
                    0 <= i < dec_old@.len() ==> (#[trigger] dec_old@[i]) < u32::MAX
                        && strided_sum(
                        old(self).counts(),
                        dec_old@[i] as nat,
                        bound as nat,
                    ) <= usize::MAX,
            ensures
                t <= n,
                !self.has_table(),
                self.counts() == old(self).counts(),
                dec_old@ == old(self).dec_table(),
                n == dec_old@.len(),
                forall|t2: int|
                    0 <= t2 < t ==> strided_sum(
                        old(self).counts(),
                        (#[trigger] dec_old@[t2]) as nat,
                        bound as nat,
                    ) > 0,
                t < n ==> strided_sum(
                    old(self).counts(),
                    dec_old@[t as int] as nat,
                    bound as nat,
                ) == 0,
            decreases n - t,
        {
            if self.get_bounded(dec_old[t], bound) == 0 {
                break ;
            }
            t = t + 1;
        }
        let kept = t;
        let mut prefix: Vec<u32> = Vec::new();
        let mut p: usize = 0;
        while p < kept
            invariant
                kept <= dec_old@.len(),
                p <= kept,
                prefix@ == dec_old@.subrange(0, p as int),
            decreases kept - p,
        {
            prefix.push(dec_old[p]);
            p = p + 1;
            assert(prefix@ =~= dec_old@.subrange(0, p as int));
        }
        self.set_table(&prefix);
        proof {
            lemma_compacted_witness(
                *old(self),
                *final(self),
                bound as nat,
                kept as int,
                prefix@,
            );
        }
    }

    /// `compact_bounded` at the fixed table length.
    pub fn compact(&mut self)
        requires
            old(self).tables_usable(),
            old(self).has_table() ==> forall|i: int|
                0 <= i < old(self).dec_table().len() ==> (#[trigger] old(self).dec_table()[i])
                    < u32::MAX && strided_sum(
                    old(self).counts(),
                    old(self).dec_table()[i] as nat,
                    old(self).dec_table().len(),
                ) <= usize::MAX,
        ensures
            final(self).counts() == old(self).counts(),
            final(self).has_table() == old(self).has_table(),
            old(self).has_table() ==> compacted_post(
                *old(self),
                *final(self),
                old(self).dec_table().len(),
            ),
            !old(self).has_table() ==> final(self).enc_table() == old(self).enc_table()
                && final(self).dec_table() == old(self).dec_table(),
    {
        if !self.has_some_table() {
            return ;
        }
        let bound = self.bound();
        self.compact_bounded(bound);
    }

    /// Whether a remap table pair is fixed.
    pub fn has_some_table(&self) -> (r: bool)
        ensures
            r == self.has_table(),
    {
        match &self.table {
            Some(_) => true,
            None => false,
        }
    }

    /// An independent copy.
    pub fn duplicate(&self) -> (r: Hist)
        ensures
            r.counts() == self.counts(),
            r.has_table() == self.has_table(),
            r.enc_table() == self.enc_table(),
            r.dec_table() == self.dec_table(),
    {
        let mut hist: Vec<usize> = Vec::with_capacity(self.hist.len());
        let n = self.hist.len();
        let mut i: usize = 0;
        while i < n
            invariant
                n == self.counts().len(),
                i <= n,
                hist@ == self.counts().subrange(0, i as int),
            decreases n - i,
        {
            hist.push(self.hist[i]);
            i = i + 1;
            assert(hist@ =~= self.counts().subrange(0, i as int));
        }
        assert(self.counts().subrange(0, n as int) =~= self.counts());
        let table = match &self.table {
            None => None,
            Some((e, d)) => Some((clone_u32_vec(e), clone_u32_vec(d))),
        };
        Hist { hist, table }
    }
}

/// Remapping through a table whose entries lie below `bound` moves a
/// symbol up by less than `bound`.
pub proof fn lemma_map_through_below(e: Seq<u32>, i: nat, bound: nat)
    requires
        e.len() >= 1,
        forall|t: int| 0 <= t < e.len() ==> e[t] < bound,
        bound >= 1,
    ensures
        map_through(e, i) < i + bound,
{
    let le = e.len() as nat;
    vstd::arithmetic::div_mod::lemma_mod_division_less_than_divisor(i as int, le as int);
    vstd::arithmetic::div_mod::lemma_mod_decreases(i, le);
}

/// An occupied slot lies below the observed bound.
pub proof fn lemma_nonzero_upper_occupied(s: Seq<usize>, i: nat)
    requires
        i < s.len(),
        s[i as int] > 0,
    ensures
        nonzero_upper(s) > i,
    decreases s.len(),
{
    if !(s.last() > 0) {
        lemma_nonzero_upper_occupied(s.drop_last(), i);
    }
}

/// The observed bound never exceeds the storage length.
pub proof fn lemma_nonzero_upper_le(s: Seq<usize>)
    ensures
        nonzero_upper(s) <= s.len(),
    decreases s.len(),
{
    if s.len() > 0 && !(s.last() > 0) {
        lemma_nonzero_upper_le(s.drop_last());
    }
}

/// An inversion that records each value's last slot inverts a
/// permutation exactly, in both directions.
pub proof fn lemma_inverse_from_perm(e: Seq<u32>, d: Seq<u32>)
    requires
        perm_table(d.len() as nat, d),
        d.len() <= u32::MAX,
        e.len() == d.len(),
        forall|i: int|
            0 <= i < d.len() && (forall|j: int| i < j < d.len() ==> d[j] != d[i]) ==> e[d[i]
                as int] == i,
    ensures
        inverse_tables(e, d),
{
    assert forall|i: int| 0 <= i < d.len() implies d[i] < e.len() && e[d[i] as int] == i by {
        assert(forall|j: int| i < j < d.len() ==> d[j] != d[i]);
    }
    assert forall|v: int| 0 <= v < e.len() implies e[v] < d.len() && d[e[v] as int] == v by {
        assert(d.contains(v as u32));
        let i = choose|i: int| 0 <= i < d.len() && d[i] == v as u32;
        assert(e[d[i] as int] == i);
    }
}

/// Ties the state `set_table` builds over a kept prefix to the
/// compacting postcondition.
proof fn lemma_compacted_witness(pre: Hist, post: Hist, bound: nat, size: int, prefix: Seq<u32>)
    requires
        0 <= size <= pre.dec_table().len(),
        prefix == pre.dec_table().subrange(0, size),
        post.counts() == pre.counts(),
        post.dec_table() == prefix,
        forall|t: int|
            0 <= t < size ==> strided_sum(
                pre.counts(),
                (#[trigger] pre.dec_table()[t]) as nat,
                bound,
            ) > 0,
        size < pre.dec_table().len() ==> strided_sum(
            pre.counts(),
            pre.dec_table()[size] as nat,
            bound,
        ) == 0,
        post.enc_table().len() == max_val(prefix) + 1,
        forall|i: int|
            0 <= i < prefix.len() && (forall|j: int|
                i < j < prefix.len() ==> prefix[j] != prefix[i]) ==> post.enc_table()[prefix[i]
                as int] == i,
    ensures
        compacted_post(pre, post, bound),
{
    assert forall|i: int|
        0 <= i < size && (forall|j: int|
            i < j < size ==> pre.dec_table()[j] != pre.dec_table()[i]) implies post.enc_table()[
        pre.dec_table()[i] as int] == i by {
        assert(forall|j: int| i < j < prefix.len() ==> prefix[j] != prefix[i]);
        assert(post.enc_table()[prefix[i] as int] == i);
    }
}

/// A histogram without a fixed table has empty table views.
pub proof fn lemma_no_table(h: Hist)
    requires
        !h.has_table(),
    ensures
        h.enc_table() == Seq::<u32>::empty(),
        h.dec_table() == Seq::<u32>::empty(),
{
}

/// Every entry lies at or below the maximum.
proof fn lemma_max_val_ge(s: Seq<u32>)
    ensures
        forall|i: int| 0 <= i < s.len() ==> #[trigger] s[i] <= max_val(s),
    decreases s.len(),
{
    if s.len() > 0 {
        lemma_max_val_ge(s.drop_last());
        assert forall|i: int| 0 <= i < s.len() implies #[trigger] s[i] <= max_val(s) by {
            if i < s.len() - 1 {
                assert(s.drop_last()[i] == s[i]);
            }
        }
    }
}

/// Sum over a prefix never exceeds the sum over the whole.
pub proof fn lemma_sum_prefix(s: Seq<usize>, j: int)
    requires
        0 <= j <= s.len(),
    ensures
        sum_counts(s.subrange(0, j)) <= sum_counts(s),
    decreases s.len() - j,
{
    if j == s.len() {
        assert(s.subrange(0, j) =~= s);
    } else {
        lemma_sum_prefix(s, j + 1);
        let s1 = s.subrange(0, j + 1);
        assert(s1.drop_last() =~= s.subrange(0, j));
    }
}

/// The shared core of `map_encode` and `map_decode`.
fn map_exec(table: &Vec<u32>, n: u32) -> (r: Result<u32, CodecError>)
    requires
        1 <= table@.len() <= u32::MAX,
    ensures
        match r {
            Ok(v) => v == map_through(table@, n as nat) && map_through(table@, n as nat)
                <= u32::MAX,
            Err(e) => e == CodecError::Cast && map_through(table@, n as nat) > u32::MAX,
        },
{
    let len = table.len() as u32;
    let b = n % len;
    proof {
        vstd::arithmetic::div_mod::lemma_mod_decreases(n as nat, len as nat);
    }
    let t = table[b as usize];
    let v: u64 = (n - b) as u64 + t as u64;
    if v > u32::MAX as u64 {
        Err(CodecError::Cast)
    } else {
        Ok(v as u32)
    }
}

/// Copies a table.
pub(crate) fn clone_u32_vec(v: &Vec<u32>) -> (r: Vec<u32>)
    ensures
        r@ == v@,
{
    let mut r: Vec<u32> = Vec::with_capacity(v.len());
    let n = v.len();
    let mut i: usize = 0;
    while i < n
        invariant
            n == v@.len(),
            i <= n,
            r@ == v@.subrange(0, i as int),
        decreases n - i,
    {
        r.push(v[i]);
        i = i + 1;
        assert(r@ =~= v@.subrange(0, i as int));
    }
    assert(v@.subrange(0, n as int) =~= v@);
    r
}

/// Builds the inverse of a table whose entries lie below its length:
/// slot `v` holds the last index at which `v` appears.
fn invert_table(d: &Vec<u32>) -> (r: Vec<u32>)
    requires
        d@.len() <= u32::MAX,
        forall|i: int| 0 <= i < d@.len() ==> d@[i] < d@.len(),
    ensures
        r@.len() == d@.len(),
        forall|i: int|
            0 <= i < d@.len() && (forall|j: int| i < j < d@.len() ==> d@[j] != d@[i])
                ==> r@[d@[i] as int] == i,
{
    let n = d.len();
    let mut e: Vec<u32> = Vec::with_capacity(n);
    let mut i: usize = 0;
    while i < n
        invariant
            n == d@.len(),
            i <= n,
            e@.len() == i,
            forall|j: int| 0 <= j < i ==> e@[j] == 0,
        decreases n - i,
    {
        e.push(0);
        i = i + 1;
    }
    let mut k: usize = 0;
    while k < n
        invariant
            n == d@.len() <= u32::MAX,
            forall|i2: int| 0 <= i2 < d@.len() ==> d@[i2] < d@.len(),
            k <= n,
            e@.len() == n,
            forall|i2: int|
                0 <= i2 < k && (forall|j: int| i2 < j < k ==> d@[j] != d@[i2]) ==> e@[d@[i2]
                    as int] == i2,
        decreases n - k,
    {
        e.set(d[k] as usize, k as u32);
        k = k + 1;
    }
    e
}


/// `a` sorts strictly before `b` under `keys`: larger key first, ties
/// broken by smaller value.
pub open spec fn key_before(keys: Seq<usize>, a: nat, b: nat) -> bool {
    keys[a as int] > keys[b as int] || (keys[a as int] == keys[b as int] && a < b)
}

/// `d` is a permutation of `0..keys.len()` sorted by `key_before`.
pub open spec fn sorted_key_table(keys: Seq<usize>, d: Seq<u32>) -> bool {
    &&& d.len() == keys.len()
    &&& forall|i: int| 0 <= i < d.len() ==> d[i] < d.len()
    &&& forall|i: int, j: int|
        0 <= i < j < d.len() ==> key_before(keys, d[i] as nat, d[j] as nat)
    &&& forall|v: u32| v < d.len() ==> #[trigger] d.contains(v)
}

/// A table of in-range values that hits every value exactly once: a
/// permutation of `0..bound`.
pub open spec fn perm_table(bound: nat, d: Seq<u32>) -> bool {
    &&& d.len() == bound
    &&& forall|i: int| 0 <= i < d.len() ==> d[i] < bound
    &&& forall|i: int, j: int| 0 <= i < j < d.len() ==> d[i] != d[j]
    &&& forall|v: u32| v < bound ==> #[trigger] d.contains(v)
}

/// Builds the permutation of `0..keys.len()` sorted by descending key,
/// ties broken by smaller value, by insertion.
pub(crate) fn sort_by_keys(keys: &Vec<usize>) -> (d: Vec<u32>)
    requires
        keys@.len() <= u32::MAX,
    ensures
        sorted_key_table(keys@, d@),
        perm_table(keys@.len() as nat, d@),
{
    let bound = keys.len();
    let mut d: Vec<u32> = Vec::with_capacity(bound);
    let mut v: usize = 0;
    while v < bound
        invariant
            bound == keys@.len() <= u32::MAX,
            v <= bound,
            d@.len() == v,
            forall|i: int| 0 <= i < v ==> d@[i] == i,
        decreases bound - v,
    {
        d.push(v as u32);
        v = v + 1;
    }
    proof {
        assert(perm_table(bound as nat, d@)) by {
            assert forall|w: u32| w < bound implies #[trigger] d@.contains(w) by {
                assert(d@[w as int] == w);
            }
        }
    }
    let mut i: usize = 1;
    while i < bound
        invariant
            bound == keys@.len() <= u32::MAX,
            1 <= i <= bound || bound <= 1,
            perm_table(bound as nat, d@),
            forall|a: int, b: int|
                0 <= a < b < i ==> key_before(keys@, d@[a] as nat, d@[b] as nat),
        decreases bound - i,
    {
        let mut j: usize = i;
        while j > 0
            invariant
                bound == keys@.len() <= u32::MAX,
                0 <= j <= i < bound,
                perm_table(bound as nat, d@),
                forall|a: int, b: int|
                    0 <= a < b <= i && b != j ==> key_before(keys@, d@[a] as nat, d@[b] as nat),
                forall|a: int|
                    j < a <= i ==> key_before(keys@, d@[j as int] as nat, d@[a] as nat),
            ensures
                perm_table(bound as nat, d@),
                forall|a: int, b: int|
                    0 <= a < b <= i ==> key_before(keys@, d@[a] as nat, d@[b] as nat),
            decreases j,
        {
            let x = d[j];
            let y = d[j - 1];
            let before = keys[x as usize] > keys[y as usize] || (keys[x as usize]
                == keys[y as usize] && x < y);
            if !before {
                proof {
                    assert(x != y);
                    assert(key_before(keys@, y as nat, x as nat));
                    assert forall|a: int, b: int| 0 <= a < b <= i implies key_before(
                        keys@,
                        d@[a] as nat,
                        d@[b] as nat,
                    ) by {
                        if b == j {
                            if a < j - 1 {
                                assert(key_before(keys@, d@[a] as nat, d@[j - 1] as nat));
                                assert(key_before(keys@, d@[j - 1] as nat, d@[j as int] as nat));
                            }
                        }
                    }
                }
                break ;
            }
            let ghost dpre = d@;
            d.set(j, y);
            d.set(j - 1, x);
            proof {
                assert(d@ =~= dpre.update(j as int, y).update(j - 1, x));
                assert(perm_table(bound as nat, d@)) by {
                    assert forall|w: u32| w < bound implies #[trigger] d@.contains(w) by {
                        assert(dpre.contains(w));
                        let k0 = choose|k0: int| 0 <= k0 < dpre.len() && dpre[k0] == w;
                        if k0 == j {
                            assert(d@[j - 1] == w);
                        } else if k0 == j - 1 {
                            assert(d@[j as int] == w);
                        } else {
                            assert(d@[k0] == w);
                        }
                    }
                }
            }
            j = j - 1;
        }
        i = i + 1;
    }
    proof {
        if bound >= 1 {
            assert(sorted_key_table(keys@, d@));
        } else {
            assert(d@.len() == 0);
        }
    }
    d
}


/// Sum of the counts at index `i` and beyond.
pub open spec fn sum_suffix(s: Seq<usize>, i: nat) -> nat
    decreases s.len() - i,
{
    if i >= s.len() {
        0
    } else {
        s[i as int] as nat + sum_suffix(s, i + 1)
    }
}

pub proof fn lemma_sum_suffix_mono(s: Seq<usize>, i: nat, j: nat)
    requires
        i <= j,
    ensures
        sum_suffix(s, j) <= sum_suffix(s, i),
    decreases j - i,
{
    if i < j {
        lemma_sum_suffix_mono(s, i + 1, j);
    }
}

pub proof fn lemma_sum_suffix_drop_last(s: Seq<usize>, i: nat)
    requires
        s.len() >= 1,
        i <= s.len(),
    ensures
        sum_suffix(s, i) == sum_suffix(s.drop_last(), i) + (if i < s.len() {
            s.last() as nat
        } else {
            0nat
        }),
    decreases s.len() - i,
{
    if i < s.len() {
        lemma_sum_suffix_drop_last(s, i + 1);
    }
}

/// Summing front to back and back to front agree.
pub proof fn lemma_sum_suffix_eq(s: Seq<usize>)
    ensures
        sum_suffix(s, 0) == sum_counts(s),
    decreases s.len(),
{
    if s.len() > 0 {
        lemma_sum_suffix_eq(s.drop_last());
        lemma_sum_suffix_drop_last(s, 0);
    }
}

/// A strided sum picks a subset of the counts, so it never exceeds the
/// total.
pub proof fn lemma_strided_le_sum(s: Seq<usize>, i: nat, stride: nat)
    requires
        stride >= 1,
    ensures
        strided_sum(s, i, stride) <= sum_counts(s),
    decreases s.len() - i,
{
    lemma_sum_suffix_eq(s);
    lemma_strided_le_suffix(s, i, stride);
    lemma_sum_suffix_mono(s, 0, i);
}

proof fn lemma_strided_le_suffix(s: Seq<usize>, i: nat, stride: nat)
    requires
        stride >= 1,
    ensures
        strided_sum(s, i, stride) <= sum_suffix(s, i),
    decreases s.len() + stride - i,
{
    if i < s.len() {
        lemma_strided_le_suffix(s, i + stride, stride);
        lemma_sum_suffix_mono(s, i + 1, i + stride);
    }
}

/// How the total moves when one slot is raised by `d`, as `increment`
/// describes it.
pub proof fn lemma_sum_counts_update(s1: Seq<usize>, s2: Seq<usize>, idx: nat, d: nat)
    requires
        s1.len() <= s2.len(),
        s2.len() <= u32::MAX + 1,
        idx < s2.len(),
        forall|j: nat|
            j < s2.len() ==> #[trigger] s2[j as int] == (if j < s1.len() {
                s1[j as int] as nat
            } else {
                0nat
            }) + (if j == idx {
                d
            } else {
                0nat
            }),
    ensures
        sum_counts(s2) == sum_counts(s1) + d,
    decreases s2.len(),
{
    if s2.len() == s1.len() {
        if s2.len() > 0 {
            let t1 = s1.drop_last();
            let t2 = s2.drop_last();
            if idx == s2.len() - 1 {
                assert(forall|j: nat|
                    j < t2.len() ==> #[trigger] t2[j as int] == (if j < t1.len() {
                        t1[j as int] as nat
                    } else {
                        0nat
                    }) + (if j == idx {
                        d
                    } else {
                        0nat
                    }));
                assert(t1 =~= t2);
                lemma_sum_equal(t1, t2);
                assert(s2.last() == s1.last() + d);
            } else {
                lemma_sum_counts_update(t1, t2, idx, d);
                assert(s2.last() == s1.last());
            }
        }
    } else {
        let t2 = s2.drop_last();
        if idx == s2.len() - 1 {
            assert(forall|j: nat|
                j < t2.len() ==> #[trigger] t2[j as int] == (if j < s1.len() {
                    s1[j as int] as nat
                } else {
                    0nat
                }));
            lemma_sum_counts_pad(s1, t2);
            assert(s2.last() == d);
        } else {
            lemma_sum_counts_update(s1, t2, idx, d);
            assert(s2.last() == 0);
        }
    }
}

proof fn lemma_sum_equal(s1: Seq<usize>, s2: Seq<usize>)
    requires
        s1 == s2,
    ensures
        sum_counts(s1) == sum_counts(s2),
{
}

/// Padding with zero slots keeps the total.
proof fn lemma_sum_counts_pad(s1: Seq<usize>, s2: Seq<usize>)
    requires
        s1.len() <= s2.len(),
        forall|j: nat|
            j < s2.len() ==> #[trigger] s2[j as int] == (if j < s1.len() {
                s1[j as int] as nat
            } else {
                0nat
            }),
    ensures
        sum_counts(s2) == sum_counts(s1),
    decreases s2.len(),
{
    if s1.len() == s2.len() {
        assert(s1 =~= s2);
    } else {
        let t2 = s2.drop_last();
        assert(forall|j: nat|
            j < t2.len() ==> #[trigger] t2[j as int] == (if j < s1.len() {
                s1[j as int] as nat
            } else {
                0nat
            }));
        lemma_sum_counts_pad(s1, t2);
        assert(s2.last() == 0);
    }
}

} // verus!
