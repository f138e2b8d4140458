//! Double-probe Bloom filter: two bit probes per 64-bit word access, probe
//! words confined to one power-of-two-aligned block, derived from a single
//! 32-bit hash by a golden-ratio remix and 12-bit rotations.

use vstd::prelude::*;
use vstd::arithmetic::div_mod::lemma_multiply_divide_lt;
use vstd::arithmetic::div_mod::lemma_fundamental_div_mod;
use vstd::arithmetic::div_mod::lemma_div_is_ordered_by_denominator;
use vstd::arithmetic::div_mod::lemma_div_is_ordered;
use vstd::arithmetic::div_mod::lemma_div_by_self;
use vstd::arithmetic::div_mod::lemma_div_multiples_vanish;
use vstd::arithmetic::div_mod::lemma_mod_multiples_basic;
use vstd::arithmetic::mul::lemma_mul_strict_inequality;
use vstd::arithmetic::mul::lemma_mul_inequality;
use vstd::arithmetic::mul::lemma_mul_is_commutative;
use vstd::arithmetic::mul::lemma_mul_is_associative;

verus! {

/// Remix multiplier: the 64-bit golden-ratio constant.
pub const GOLDEN_RATIO_64: u64 = 0x9e3779b97f4a7c13;

/// Fixed-point mapping of a 32-bit hash onto `[0, n)`: take the high 32 bits
/// of the full 64-bit product `hash * n`.
pub open spec fn spec_fast_range32(hash: u32, n: u32) -> u32 {
    (((hash as int) * (n as int)) / 0x1_0000_0000) as u32
}

/// The saturating step of `round_up_pow2`: spread the highest set bit of `v`
/// into every lower position.
pub open spec fn spec_spread_bits(v: u32) -> u32 {
    let v1 = v | (v >> 1u32);
    let v2 = v1 | (v1 >> 2u32);
    let v3 = v2 | (v2 >> 4u32);
    let v4 = v3 | (v3 >> 8u32);
    v4 | (v4 >> 16u32)
}

/// Smallest power of two that is at least `x` (and at least 1).
pub open spec fn spec_round_up_pow2(x: u32) -> u32 {
    if x == 0 {
        1u32
    } else {
        (spec_spread_bits((x - 1) as u32) + 1) as u32
    }
}

/// The hash-to-index mapping never reaches `n`: the full product `hash * n`
/// is below `2^32 * n`, so its high 32 bits are below `n`.
pub proof fn lemma_fast_range32_bound(hash: u32, n: u32)
    requires
        1 <= n,
    ensures
        spec_fast_range32(hash, n) < n,
{
    let h = hash as int;
    let ni = n as int;
    assert(h * ni < 0x1_0000_0000 * ni) by {
        lemma_mul_strict_inequality(h, 0x1_0000_0000, ni);
    }
    assert(h * ni / 0x1_0000_0000 < ni) by {
        lemma_multiply_divide_lt(h * ni, 0x1_0000_0000, ni);
    }
    assert(h * ni >= 0) by {
        vstd::arithmetic::mul::lemma_mul_nonnegative(h, ni);
    }
}

/// Map a 32-bit hash to a word index in `[0, n)` without division: multiply
/// into 64 bits and keep the high half.
#[inline]
pub fn fast_range32(hash: u32, n: u32) -> (r: u32)
    requires
        1 <= n,
    ensures
        r == spec_fast_range32(hash, n),
        r < n,
{
    proof {
        assert((hash as int) * (n as int) < 0x1_0000_0000_0000_0000) by {
            lemma_mul_strict_inequality(hash as int, 0x1_0000_0000, n as int);
            lemma_mul_strict_inequality(n as int, 0x1_0000_0000, 0x1_0000_0000);
            vstd::arithmetic::mul::lemma_mul_is_commutative(0x1_0000_0000, n as int);
        }
        assert((hash as int) * (n as int) >= 0) by {
            vstd::arithmetic::mul::lemma_mul_nonnegative(hash as int, n as int);
        }
    }
    let p: u64 = (hash as u64).wrapping_mul(n as u64);
    assert(p == (hash as int) * (n as int));
    assert(p >> 32u64 == p / 0x1_0000_0000) by (bit_vector);
    proof {
        lemma_fast_range32_bound(hash, n);
    }
    (p >> 32) as u32
}

/// Round `x` up to the next power of two (1 for inputs 0 and 1), by spreading
/// the top bit of `x - 1` downward and adding one.
pub fn round_up_pow2(x: u32) -> (r: u32)
    requires
        x <= 0x8000_0000u32,
    ensures
        r == spec_round_up_pow2(x),
        1 <= r,
        (r & (r - 1) as u32) == 0,
        x <= r,
        2 <= x ==> r < 2 * x,
{
    if x == 0 {
        proof {
            assert((1u32 & 0u32) == 0) by (bit_vector);
        }
        return 1;
    }
    let mut v = x - 1;
    v |= v >> 1;
    v |= v >> 2;
    v |= v >> 4;
    v |= v >> 8;
    v |= v >> 16;
    proof {
        assert(v == spec_spread_bits((x - 1) as u32));
        assert({
            let w = spec_spread_bits((x - 1) as u32);
            &&& w <= 0x7fff_ffffu32
            &&& ((w + 1) as u32 & w) == 0
            &&& x <= w + 1
            &&& 2 <= x ==> w + 1 < 2 * x
        }) by (bit_vector)
            requires
                1 <= x && x <= 0x8000_0000u32,
        ;
        assert(((v + 1) as u32 - 1) as u32 == v);
    }
    v + 1
}

/// Remix of a 32-bit hash into 64 bits of probe material: a wrapping multiply
/// by the golden-ratio constant.
pub open spec fn spec_remix(h32: u32) -> u64 {
    ((GOLDEN_RATIO_64 as nat * h32 as nat) % 0x1_0000_0000_0000_0000nat) as u64
}

/// Rotate the probe seed right by 12 bits, exposing fresh mask bits for the
/// next probe round.
pub open spec fn spec_rotate12(h: u64) -> u64 {
    (h >> 12u64) | (h << 52u64)
}

/// The probe seed in force during round `i`: the remixed hash, rotated once
/// per completed round.
pub open spec fn spec_probe_seed(h32: u32, i: nat) -> u64
    decreases i,
{
    if i == 0 {
        spec_remix(h32)
    } else {
        spec_rotate12(spec_probe_seed(h32, (i - 1) as nat))
    }
}

/// The two-bit word mask taken from the low 12 bits of a probe seed.
pub open spec fn spec_mask_of(h: u64) -> u64 {
    (1u64 << (h & 63)) | (1u64 << ((h >> 6u64) & 63))
}

/// The word mask used by round `i` of hash `h32`.
pub open spec fn spec_probe_mask(h32: u32, i: u32) -> u64 {
    spec_mask_of(spec_probe_seed(h32, i as nat))
}

/// Round `i` of a probe sequence that starts at word `offset` has both of its
/// mask bits set in `data`.
pub open spec fn spec_round_set(data: Seq<u64>, offset: u32, h32: u32, i: u32) -> bool {
    data[(offset ^ i) as int] & spec_probe_mask(h32, i) == spec_probe_mask(h32, i)
}

/// Every round of the probe sequence starting at `offset` finds its bits set:
/// a query from that offset answers positively.
pub open spec fn spec_contains_at(data: Seq<u64>, ndp: u32, offset: u32, h32: u32) -> bool {
    forall|i: u32| i < ndp ==> #[trigger] spec_round_set(data, offset, h32, i)
}

/// A filter of `len` words with `ndp` double-probe rounds reports `h32` as
/// possibly present.
pub open spec fn spec_contains(data: Seq<u64>, len: u32, ndp: u32, h32: u32) -> bool {
    spec_contains_at(data, ndp, spec_fast_range32(h32, len), h32)
}

/// The mask that an insertion starting at `offset` ORs into word `j`: the
/// round mask when `j` is one of the probe words, zero otherwise. Word `j`
/// is probed by round `offset ^ j` exactly when that round exists.
pub open spec fn spec_or_mask(h32: u32, ndp: u32, offset: u32, j: int) -> u64 {
    if 0 <= j <= u32::MAX && (offset ^ (j as u32)) < ndp {
        spec_probe_mask(h32, offset ^ (j as u32))
    } else {
        0u64
    }
}

/// The word array after inserting `h32` with probe sequence starting at
/// `offset`: each word ORed with its (possibly zero) probe mask.
pub open spec fn spec_insert_at(data: Seq<u64>, ndp: u32, offset: u32, h32: u32) -> Seq<u64> {
    Seq::new(data.len(), |j: int| data[j] | spec_or_mask(h32, ndp, offset, j))
}

/// The word array of a `len`-word filter after inserting `h32`.
pub open spec fn spec_insert(data: Seq<u64>, len: u32, ndp: u32, h32: u32) -> Seq<u64> {
    spec_insert_at(data, ndp, spec_fast_range32(h32, len), h32)
}

/// Number of double-probe rounds derived from a requested probe count: half
/// of it rounded to a whole number of pairs, and at least one round.
pub open spec fn spec_num_rounds(num_probes: u32) -> u32 {
    let d = (num_probes as int + if num_probes == 1 { 1int } else { 0int }) / 2;
    if d == 0 {
        1u32
    } else {
        d as u32
    }
}

/// Number of backing words chosen for a bit budget: whole blocks of
/// `round_up_pow2(rounds)` words, enough to cover `total_bits`.
pub open spec fn spec_word_len(total_bits: u32, num_probes: u32) -> u32 {
    let bs = spec_round_up_pow2(spec_num_rounds(num_probes)) as int;
    let blocks = (total_bits + 64 * bs - 1) / (64 * bs);
    (blocks * bs) as u32
}

/// Structural well-formedness of a filter's parameters: the word count is
/// positive and a whole number of power-of-two blocks, and the round count is
/// in the supported range.
pub open spec fn spec_params_wf(data: Seq<u64>, len: u32, ndp: u32) -> bool {
    &&& data.len() == len
    &&& 1 <= len
    &&& 8 * (len as int) <= u32::MAX
    &&& 1 <= ndp <= 5
    &&& len % spec_round_up_pow2(ndp) == 0
}

/// Block size facts for a supported round count: the block is a power of two
/// of at most 8 words, large enough to hold every round.
proof fn lemma_block_size_facts(ndp: u32)
    by (bit_vector)
    requires
        1 <= ndp <= 5,
    ensures
        ({
            let bs = spec_round_up_pow2(ndp);
            &&& 1 <= bs
            &&& bs <= 8
            &&& ndp <= bs
            &&& (bs & (bs - 1) as u32) == 0
        }),
{
}

/// XOR-ing a round index below the power-of-two block size into an offset
/// stays inside the offset's aligned block, hence inside the array when the
/// array is a whole number of blocks.
#[verifier::rlimit(100)]
proof fn lemma_xor_in_block(base: u32, i: u32, bs: u32, len: u32)
    by (bit_vector)
    requires
        i < bs,
        1 <= bs,
        (bs & (bs - 1) as u32) == 0,
        base < len,
        len % bs == 0,
    ensures
        (base ^ i) < len,
        (base ^ i) / bs == base / bs,
        (base / bs) * bs <= (base ^ i),
        (base ^ i) < (base / bs) * bs + bs,
{
}

/// XOR cancellation: the round that probes word `a ^ b` is recovered by
/// XOR-ing the base offset back in.
proof fn lemma_xor_cancel(a: u32, b: u32)
    by (bit_vector)
    ensures
        a ^ (a ^ b) == b,
        (a ^ b) ^ b == a,
        a ^ 0 == a,
{
}

/// Facts about OR-ing a mask into a word: the mask's bits end up set, bits
/// already set stay set, and re-OR-ing is idempotent.
proof fn lemma_or_mask_facts(a: u64, m: u64, x: u64)
    by (bit_vector)
    ensures
        (a | m) & m == m,
        a & m == m ==> (a | x) & m == m,
        a & m == m ==> (a | m) == a,
        (a | m) | m == a | m,
        a | 0 == a,
{
}

/// A probe mask always has at least one bit set.
proof fn lemma_mask_nonzero(h: u64)
    by (bit_vector)
    ensures
        spec_mask_of(h) != 0,
        0u64 & spec_mask_of(h) == 0,
{
}

/// The double-probe Bloom filter: a fixed array of 64-bit words, a number of
/// double-probe rounds, and probe sequences confined to one aligned block.
pub struct SpeedDbDynamicBloom {
    len: u32,
    num_double_probes: u32,
    data: Vec<u64>,
}

impl SpeedDbDynamicBloom {
    /// The backing words.
    pub closed spec fn spec_words(&self) -> Seq<u64> {
        self.data@
    }

    /// Length of the backing array in 64-bit words.
    pub closed spec fn spec_len(&self) -> u32 {
        self.len
    }

    /// Number of double-probe rounds per operation.
    pub closed spec fn spec_rounds(&self) -> u32 {
        self.num_double_probes
    }

    /// Well-formedness: established by `new`, preserved by every operation.
    pub open spec fn wf(&self) -> bool {
        spec_params_wf(self.spec_words(), self.spec_len(), self.spec_rounds())
    }

    /// The filter reports `h32` as possibly present.
    pub open spec fn contains_hash(&self, h32: u32) -> bool {
        spec_contains(self.spec_words(), self.spec_len(), self.spec_rounds(), h32)
    }

    /// Build a filter covering at least `total_bits` bits of probe space with
    /// `num_probes` bit probes per key (at most 10), rounded up to a whole
    /// number of power-of-two blocks of 64-bit words. The new filter is all
    /// zeros and reports no hash as present.
    pub fn new(total_bits: u32, num_probes: u32) -> (r: Self)
        requires
            num_probes <= 10,
            1 <= total_bits,
            total_bits <= 0xffff_fdffu32,
        ensures
            r.wf(),
            r.spec_rounds() == spec_num_rounds(num_probes),
            r.spec_len() == spec_word_len(total_bits, num_probes),
            64 * (r.spec_len() as int) >= total_bits,
            r.spec_words() == Seq::new(r.spec_len() as nat, |j: int| 0u64),
            forall|h: u32| !r.contains_hash(h),
    {
        let raw = (num_probes + if num_probes == 1 { 1 } else { 0 }) / 2;
        let num_double_probes: u32 = if raw == 0 { 1 } else { raw };
        assert(num_double_probes == spec_num_rounds(num_probes));
        let bs = round_up_pow2(num_double_probes);
        proof {
            lemma_block_size_facts(num_double_probes);
        }
        let block_bytes: u32 = 8 * bs;
        let block_bits: u32 = block_bytes * 8;
        let blocks: u32 = (total_bits + block_bits - 1) / block_bits;
        proof {
            lemma_sizing(total_bits as int, bs as int, blocks as int);
        }
        let sz: u32 = blocks * block_bytes;
        let len: u32 = sz / 8;
        proof {
            lemma_div_multiples_vanish(blocks as int * bs as int, 8);
            lemma_mul_is_associative(8, blocks as int, bs as int);
            lemma_mul_is_commutative(8, blocks as int);
            assert(sz as int == (blocks as int * bs as int) * 8);
            assert(len as int == blocks as int * bs as int);
            lemma_mod_multiples_basic(blocks as int, bs as int);
        }
        let mut data: Vec<u64> = Vec::new();
        let mut k: u32 = 0;
        while k < len
            invariant
                k <= len,
                data@.len() == k as nat,
                forall|j: int| 0 <= j < k ==> data@[j] == 0u64,
            decreases len - k,
        {
            data.push(0u64);
            k = k + 1;
        }
        let r = SpeedDbDynamicBloom { len, num_double_probes, data };
        proof {
            assert(r.spec_words() =~= Seq::new(r.spec_len() as nat, |j: int| 0u64));
            assert forall|h: u32| !r.contains_hash(h) by {
                lemma_fast_range32_bound(h, len);
                lemma_xor_cancel(spec_fast_range32(h, len), 0u32);
                lemma_mask_nonzero(spec_probe_seed(h, 0));
                assert(!spec_round_set(r.spec_words(), spec_fast_range32(h, len), h, 0u32));
            }
        }
        r
    }

    /// Map a hash to its base probe word.
    #[inline]
    pub fn prepare_hash(&self, h32: u32) -> (r: u32)
        requires
            self.wf(),
        ensures
            r == spec_fast_range32(h32, self.spec_len()),
            r < self.spec_len(),
    {
        fast_range32(h32, self.len)
    }

    /// Run the probe rounds from `byte_offset`, short-circuiting on the first
    /// round whose two mask bits are not both set.
    #[inline]
    fn double_probe(&self, h32: u32, byte_offset: usize) -> (r: bool)
        requires
            self.wf(),
            byte_offset < self.spec_len(),
        ensures
            r == spec_contains_at(
                self.spec_words(),
                self.spec_rounds(),
                byte_offset as u32,
                h32,
            ),
    {
        let off: u32 = byte_offset as u32;
        let mut h: u64 = GOLDEN_RATIO_64.wrapping_mul(h32 as u64);
        let mut i: u32 = 0;
        while i < self.num_double_probes
            invariant
                self.wf(),
                off < self.spec_len(),
                off == byte_offset as u32,
                i <= self.spec_rounds(),
                h == spec_probe_seed(h32, i as nat),
                forall|k: u32| k < i ==> #[trigger] spec_round_set(
                    self.spec_words(),
                    off,
                    h32,
                    k,
                ),
            decreases self.spec_rounds() - i,
        {
            proof {
                assert(h & 63 < 64 && (h >> 6u64) & 63 < 64) by (bit_vector);
                lemma_block_size_facts(self.spec_rounds());
                lemma_xor_in_block(
                    off,
                    i,
                    spec_round_up_pow2(self.spec_rounds()),
                    self.spec_len(),
                );
            }
            let mask = (1u64 << (h & 63)) | (1u64 << ((h >> 6) & 63));
            let val = self.data[(off ^ i) as usize];
            if val & mask != mask {
                assert(!spec_round_set(self.spec_words(), off, h32, i));
                return false;
            }
            h = (h >> 12) | (h << 52);
            i = i + 1;
        }
        true
    }

    /// OR the probe masks of `h32` into their target words, starting at
    /// `byte_offset`.
    #[inline]
    fn add_hash_inner(&mut self, h32: u32, byte_offset: usize)
        requires
            old(self).wf(),
            byte_offset < old(self).spec_len(),
        ensures
            final(self).wf(),
            final(self).spec_len() == old(self).spec_len(),
            final(self).spec_rounds() == old(self).spec_rounds(),
            final(self).spec_words() == spec_insert_at(
                old(self).spec_words(),
                old(self).spec_rounds(),
                byte_offset as u32,
                h32,
            ),
    {
        let off: u32 = byte_offset as u32;
        let ghost orig = self.spec_words();
        let mut h: u64 = GOLDEN_RATIO_64.wrapping_mul(h32 as u64);
        let mut i: u32 = 0;
        proof {
            lemma_insert_at_zero(orig, off, h32);
        }
        while i < self.num_double_probes
            invariant
                self.wf(),
                self.spec_len() == old(self).spec_len(),
                self.spec_rounds() == old(self).spec_rounds(),
                off < self.spec_len(),
                off == byte_offset as u32,
                orig == old(self).spec_words(),
                i <= self.spec_rounds(),
                h == spec_probe_seed(h32, i as nat),
                self.spec_words() == spec_insert_at(orig, i, off, h32),
            decreases self.spec_rounds() - i,
        {
            proof {
                assert(h & 63 < 64 && (h >> 6u64) & 63 < 64) by (bit_vector);
                lemma_block_size_facts(self.spec_rounds());
                lemma_xor_in_block(
                    off,
                    i,
                    spec_round_up_pow2(self.spec_rounds()),
                    self.spec_len(),
                );
            }
            let mask = (1u64 << (h & 63)) | (1u64 << ((h >> 6) & 63));
            let idx = (off ^ i) as usize;
            let ghost before = self.spec_words();
            let val = self.data[idx];
            self.data[idx] = val | mask;
            proof {
                lemma_insert_at_step(orig, before, self.spec_words(), off, h32, i, idx as int);
            }
            h = (h >> 12) | (h << 52);
            i = i + 1;
        }
    }

    /// Insert `h32`: unconditionally OR each round's two mask bits into its
    /// probe word. Afterwards the filter reports `h32` as present, and every
    /// hash it reported before is still reported.
    #[inline]
    pub fn add_hash(&mut self, h32: u32)
        requires
            old(self).wf(),
        ensures
            final(self).wf(),
            final(self).spec_len() == old(self).spec_len(),
            final(self).spec_rounds() == old(self).spec_rounds(),
            final(self).spec_words() == spec_insert(
                old(self).spec_words(),
                old(self).spec_len(),
                old(self).spec_rounds(),
                h32,
            ),
            final(self).contains_hash(h32),
            forall|h2: u32|
                old(self).contains_hash(h2) ==> final(self).contains_hash(h2),
    {
        let a = self.prepare_hash(h32);
        self.add_hash_inner(h32, a as usize);
        proof {
            lemma_no_false_negative(
                old(self).spec_words(),
                old(self).spec_len(),
                old(self).spec_rounds(),
                h32,
            );
            assert forall|h2: u32|
                old(self).contains_hash(h2) implies final(self).contains_hash(h2) by {
                lemma_insert_preserves_contains(
                    old(self).spec_words(),
                    old(self).spec_len(),
                    old(self).spec_rounds(),
                    h32,
                    h2,
                );
            }
        }
    }

    /// Insert `h32`, but skip the write for a round whose bits are already
    /// set. The resulting words are exactly those of `add_hash`.
    #[inline]
    pub fn add_hash_concurrently(&mut self, h32: u32)
        requires
            old(self).wf(),
        ensures
            final(self).wf(),
            final(self).spec_len() == old(self).spec_len(),
            final(self).spec_rounds() == old(self).spec_rounds(),
            final(self).spec_words() == spec_insert(
                old(self).spec_words(),
                old(self).spec_len(),
                old(self).spec_rounds(),
                h32,
            ),
            final(self).contains_hash(h32),
            forall|h2: u32|
                old(self).contains_hash(h2) ==> final(self).contains_hash(h2),
    {
        let a = self.prepare_hash(h32);
        let off: u32 = a;
        let ghost orig = self.spec_words();
        let mut h: u64 = GOLDEN_RATIO_64.wrapping_mul(h32 as u64);
        let mut i: u32 = 0;
        proof {
            lemma_insert_at_zero(orig, off, h32);
        }
        while i < self.num_double_probes
            invariant
                self.wf(),
                self.spec_len() == old(self).spec_len(),
                self.spec_rounds() == old(self).spec_rounds(),
                off < self.spec_len(),
                off == spec_fast_range32(h32, old(self).spec_len()),
                orig == old(self).spec_words(),
                i <= self.spec_rounds(),
                h == spec_probe_seed(h32, i as nat),
                self.spec_words() == spec_insert_at(orig, i, off, h32),
            decreases self.spec_rounds() - i,
        {
            proof {
                assert(h & 63 < 64 && (h >> 6u64) & 63 < 64) by (bit_vector);
                lemma_block_size_facts(self.spec_rounds());
                lemma_xor_in_block(
                    off,
                    i,
                    spec_round_up_pow2(self.spec_rounds()),
                    self.spec_len(),
                );
            }
            let mask = (1u64 << (h & 63)) | (1u64 << ((h >> 6) & 63));
            let idx = (off ^ i) as usize;
            let ghost before = self.spec_words();
            let val = self.data[idx];
            if val & mask != mask {
                self.data[idx] = val | mask;
            }
            proof {
                lemma_or_mask_facts(val, mask, 0);
                if val & mask == mask {
                    assert(self.spec_words() =~= before.update(idx as int, val | mask));
                }
                lemma_insert_at_step(orig, before, self.spec_words(), off, h32, i, idx as int);
            }
            h = (h >> 12) | (h << 52);
            i = i + 1;
        }
        proof {
            lemma_no_false_negative(orig, old(self).spec_len(), old(self).spec_rounds(), h32);
            assert forall|h2: u32|
                old(self).contains_hash(h2) implies final(self).contains_hash(h2) by {
                lemma_insert_preserves_contains(
                    orig,
                    old(self).spec_len(),
                    old(self).spec_rounds(),
                    h32,
                    h2,
                );
            }
        }
    }

    /// Query `h32`: true exactly when every probe round finds both of its
    /// bits set. A hash inserted earlier is always reported present; an
    /// absent hash may be a false positive.
    #[inline]
    pub fn may_contain(&self, h32: u32) -> (r: bool)
        requires
            self.wf(),
        ensures
            r == self.contains_hash(h32),
    {
        let a = self.prepare_hash(h32);
        self.double_probe(h32, a as usize)
    }

    /// Cache-prefetch hint for the base probe word. A pure performance hint
    /// with no observable effect; a no-op on platforms without a prefetch
    /// instruction.
    pub fn prefetch(&self, _h32: u32) {
    }

    /// Size of the backing array in bytes: 8 bytes per 64-bit word.
    pub fn memory_usage(&self) -> (r: usize)
        requires
            self.wf(),
        ensures
            r == 8 * (self.spec_len() as int),
    {
        self.data.len() * 8
    }
}

/// Sizing arithmetic for `new`: with `blocks == ceil(total_bits / (64 *
/// bs))`, the chosen array covers the bit budget and all intermediate
/// products stay within `u32`.
proof fn lemma_sizing(tb: int, bs: int, blocks: int)
    requires
        1 <= tb <= 0xffff_fdff,
        1 <= bs <= 8,
        blocks == (tb + 64 * bs - 1) / (64 * bs),
    ensures
        1 <= blocks,
        blocks * (8 * bs) <= 0xffff_ffff,
        blocks * (8 * bs) == (blocks * bs) * 8,
        64 * (blocks * bs) >= tb,
{
    let d = 64 * bs;
    let x = tb + d - 1;
    lemma_fundamental_div_mod(x, d);
    lemma_div_by_self(d);
    lemma_div_is_ordered(d, x, d);
    assert(1 <= blocks);
    lemma_div_is_ordered_by_denominator(x, 64, d);
    lemma_fundamental_div_mod(x, 64);
    assert(64 * (x / 64) <= x);
    assert(blocks <= x / 64);
    lemma_mul_inequality(blocks, x / 64, 64);
    assert(blocks * 64 <= (x / 64) * 64);
    lemma_mul_is_commutative(x / 64, 64);
    assert(blocks * 64 <= x);
    lemma_mul_inequality(8 * bs, 64, blocks);
    lemma_mul_is_commutative(8 * bs, blocks);
    lemma_mul_is_commutative(64, blocks);
    assert(blocks * (8 * bs) <= blocks * 64);
    assert(blocks * (8 * bs) <= 0xffff_ffff);
    lemma_mul_is_associative(blocks, bs, 8);
    lemma_mul_is_associative(blocks, 8, bs);
    lemma_mul_is_commutative(bs, 8);
    assert(blocks * (8 * bs) == (blocks * bs) * 8);
    assert(d * blocks > x - d) by {
        lemma_fundamental_div_mod(x, d);
    }
    assert(d * blocks >= tb);
    lemma_mul_is_associative(64, blocks, bs);
    lemma_mul_is_commutative(64, bs);
    lemma_mul_is_associative(blocks, 64, bs);
    lemma_mul_is_commutative(blocks, 64);
    assert(64 * (blocks * bs) == d * blocks);
}

/// Before any round has run, the partial insertion is the original array.
proof fn lemma_insert_at_zero(orig: Seq<u64>, off: u32, h32: u32)
    ensures
        spec_insert_at(orig, 0u32, off, h32) == orig,
{
    assert forall|j: int| 0 <= j < orig.len() implies spec_insert_at(orig, 0u32, off, h32)[j]
        == orig[j] by {
        lemma_or_mask_facts(orig[j], 0u64, 0u64);
    }
    assert(spec_insert_at(orig, 0u32, off, h32) =~= orig);
}

/// One round of an insertion extends the partial insertion by exactly one
/// word: the array after OR-ing round `i`'s mask into word `off ^ i` is the
/// partial insertion with bound `i + 1`.
proof fn lemma_insert_at_step(
    orig: Seq<u64>,
    before: Seq<u64>,
    after: Seq<u64>,
    off: u32,
    h32: u32,
    i: u32,
    idx: int,
)
    requires
        i < u32::MAX,
        idx == (off ^ i) as int,
        0 <= idx < orig.len(),
        orig.len() <= u32::MAX,
        before == spec_insert_at(orig, i, off, h32),
        after == before.update(idx, before[idx] | spec_probe_mask(h32, i)),
    ensures
        after == spec_insert_at(orig, (i + 1) as u32, off, h32),
{
    let next = spec_insert_at(orig, (i + 1) as u32, off, h32);
    assert forall|j: int| 0 <= j < orig.len() implies after[j] == next[j] by {
        lemma_xor_cancel(off, i);
        assert(off ^ (idx as u32) == i);
        if j == idx {
            assert(spec_or_mask(h32, i, off, j) == 0);
            lemma_or_mask_facts(orig[j], spec_probe_mask(h32, i), 0);
            assert(before[j] == orig[j]);
        } else {
            assert(off ^ (j as u32) != i) by {
                if off ^ (j as u32) == i {
                    lemma_xor_cancel(off, j as u32);
                    assert((off ^ (off ^ (j as u32))) == j as u32);
                    assert(idx == j);
                }
            }
            assert(spec_or_mask(h32, (i + 1) as u32, off, j) == spec_or_mask(h32, i, off, j));
        }
    }
    assert(after =~= next);
}

/// No false negatives: immediately after inserting `h32`, every probe round
/// of `h32` finds its bits set, so a query for `h32` answers positively.
pub proof fn lemma_no_false_negative(data: Seq<u64>, len: u32, ndp: u32, h32: u32)
    requires
        spec_params_wf(data, len, ndp),
    ensures
        spec_contains(spec_insert(data, len, ndp, h32), len, ndp, h32),
{
    let off = spec_fast_range32(h32, len);
    let inserted = spec_insert(data, len, ndp, h32);
    lemma_fast_range32_bound(h32, len);
    lemma_block_size_facts(ndp);
    assert forall|i: u32| i < ndp implies #[trigger] spec_round_set(inserted, off, h32, i) by {
        lemma_xor_in_block(off, i, spec_round_up_pow2(ndp), len);
        lemma_xor_cancel(off, i);
        let j = (off ^ i) as int;
        assert(spec_or_mask(h32, ndp, off, j) == spec_probe_mask(h32, i));
        lemma_or_mask_facts(data[j], spec_probe_mask(h32, i), 0);
    }
}

/// Monotonicity of insertion: bits are only ever set, so any hash the filter
/// reported present is still reported present after inserting another hash.
pub proof fn lemma_insert_preserves_contains(
    data: Seq<u64>,
    len: u32,
    ndp: u32,
    h32: u32,
    h2: u32,
)
    requires
        spec_params_wf(data, len, ndp),
        spec_contains(data, len, ndp, h2),
    ensures
        spec_contains(spec_insert(data, len, ndp, h32), len, ndp, h2),
{
    let off2 = spec_fast_range32(h2, len);
    let inserted = spec_insert(data, len, ndp, h32);
    lemma_fast_range32_bound(h2, len);
    lemma_block_size_facts(ndp);
    assert forall|i: u32| i < ndp implies #[trigger] spec_round_set(inserted, off2, h2, i) by {
        lemma_xor_in_block(off2, i, spec_round_up_pow2(ndp), len);
        let j = (off2 ^ i) as int;
        assert(spec_round_set(data, off2, h2, i));
        lemma_or_mask_facts(
            data[j],
            spec_probe_mask(h2, i),
            spec_or_mask(h32, ndp, spec_fast_range32(h32, len), j),
        );
    }
}

/// Idempotence of insertion: inserting a hash twice yields exactly the words
/// of inserting it once, so every later query result is unchanged.
pub proof fn lemma_insert_idempotent(data: Seq<u64>, len: u32, ndp: u32, h32: u32)
    requires
        spec_params_wf(data, len, ndp),
    ensures
        spec_insert(spec_insert(data, len, ndp, h32), len, ndp, h32)
            == spec_insert(data, len, ndp, h32),
        forall|h2: u32|
            spec_contains(
                spec_insert(spec_insert(data, len, ndp, h32), len, ndp, h32),
                len,
                ndp,
                h2,
            ) == spec_contains(spec_insert(data, len, ndp, h32), len, ndp, h2),
{
    let once = spec_insert(data, len, ndp, h32);
    let twice = spec_insert(once, len, ndp, h32);
    let off = spec_fast_range32(h32, len);
    assert forall|j: int| 0 <= j < data.len() implies twice[j] == once[j] by {
        lemma_or_mask_facts(data[j], spec_or_mask(h32, ndp, off, j), 0);
    }
    assert(twice =~= once);
}

/// The words after inserting every hash of `hs`, in order.
pub open spec fn spec_insert_all(data: Seq<u64>, len: u32, ndp: u32, hs: Seq<u32>) -> Seq<u64>
    decreases hs.len(),
{
    if hs.len() == 0 {
        data
    } else {
        spec_insert_all(spec_insert(data, len, ndp, hs[0]), len, ndp, hs.drop_first())
    }
}

/// Inserting any further hashes never clears a hash that was already
/// reported present.
pub proof fn lemma_insert_all_preserves_contains(
    data: Seq<u64>,
    len: u32,
    ndp: u32,
    hs: Seq<u32>,
    h2: u32,
)
    requires
        spec_params_wf(data, len, ndp),
        spec_contains(data, len, ndp, h2),
    ensures
        spec_contains(spec_insert_all(data, len, ndp, hs), len, ndp, h2),
    decreases hs.len(),
{
    if hs.len() > 0 {
        let next = spec_insert(data, len, ndp, hs[0]);
        lemma_insert_preserves_contains(data, len, ndp, hs[0], h2);
        lemma_insert_all_preserves_contains(next, len, ndp, hs.drop_first(), h2);
    }
}

/// No false negatives over a whole key set: after inserting every hash of
/// `hs` (in any state the filter was in before), each member of `hs` is
/// reported present.
pub proof fn lemma_insert_all_no_false_negative(
    data: Seq<u64>,
    len: u32,
    ndp: u32,
    hs: Seq<u32>,
    k: int,
)
    requires
        spec_params_wf(data, len, ndp),
        0 <= k < hs.len(),
    ensures
        spec_contains(spec_insert_all(data, len, ndp, hs), len, ndp, hs[k]),
    decreases hs.len(),
{
    let next = spec_insert(data, len, ndp, hs[0]);
    if k == 0 {
        lemma_no_false_negative(data, len, ndp, hs[0]);
        lemma_insert_all_preserves_contains(next, len, ndp, hs.drop_first(), hs[0]);
    } else {
        lemma_insert_all_no_false_negative(next, len, ndp, hs.drop_first(), k - 1);
        assert(hs.drop_first()[k - 1] == hs[k]);
    }
}

/// Locality of the probe sequence: every probe word of one key lies in the
/// single block of `round_up_pow2(rounds)` words that contains the key's
/// base offset, and within the array.
pub proof fn lemma_probe_locality(len: u32, ndp: u32, h32: u32, i: u32)
    requires
        1 <= len,
        1 <= ndp <= 5,
        len % spec_round_up_pow2(ndp) == 0,
        i < ndp,
    ensures
        ({
            let base = spec_fast_range32(h32, len);
            let bs = spec_round_up_pow2(ndp);
            let block_base = (base / bs) * bs;
            &&& (base ^ i) < len
            &&& block_base <= (base ^ i)
            &&& (base ^ i) < block_base + bs
        }),
{
    lemma_fast_range32_bound(h32, len);
    lemma_block_size_facts(ndp);
    lemma_xor_in_block(spec_fast_range32(h32, len), i, spec_round_up_pow2(ndp), len);
}

} // verus!
