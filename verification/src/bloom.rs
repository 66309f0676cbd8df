//! Beacon mark sets: a fixed-size Bloom filter of `BLOOM_FILTER_SIZE` u64
//! words.  The per-(context, source) bit pattern is derived from two hash
//! mixes: a hash of the context name, then, for each counter value, a hash of
//! the counter, the context hash and the source name.  The mix is an FNV-1a
//! fold over bytes, so the pattern is a pure function of the two names.

use vstd::prelude::*;
use vstd::string::StringSliceAdditionalSpecFns;

verus! {

pub const BLOOM_FILTER_SIZE: usize = 16;

pub const BLOOM_FILTER_NUM_BITS: usize = 8;

pub const FNV_OFFSET: u64 = 0xcbf29ce484222325;

pub const FNV_PRIME: u64 = 0x100000001b3;

/// One FNV-1a step: xor the byte in, multiply by the FNV prime (wrapping).
pub open spec fn fnv_step(h: u64, b: u8) -> u64 {
    vstd::wrapping::u64_specs::wrapping_mul(h ^ (b as u64), FNV_PRIME)
}

/// FNV-1a fold of a byte sequence onto the state `h`.
pub open spec fn fnv_fold(h: u64, bytes: Seq<u8>) -> u64
    decreases bytes.len(),
{
    if bytes.len() == 0 {
        h
    } else {
        fnv_step(fnv_fold(h, bytes.drop_last()), bytes.last())
    }
}

/// The little-endian bytes of a u64.
pub open spec fn u64_le_bytes(x: u64) -> Seq<u8> {
    Seq::new(8, |i: int| ((x >> ((8 * i) as u64)) & 0xff) as u8)
}

/// The counter prefix: a 16-bit little-endian value (the counter is at most
/// `BLOOM_FILTER_NUM_BITS`, so the high byte is zero).
pub open spec fn counter_bytes(n: u8) -> Seq<u8> {
    seq![n, 0u8]
}

/// The second hash mix: counter, then the context hash, then the name.
pub open spec fn spec_bloom_hash(context: Seq<u8>, name: Seq<u8>, n: u8) -> u64 {
    fnv_fold(
        FNV_OFFSET,
        counter_bytes(n) + u64_le_bytes(fnv_fold(FNV_OFFSET, context)) + name,
    )
}

/// Which filter word a hash selects.
pub open spec fn slot_of(hash: u64) -> int {
    ((hash / 64) % (BLOOM_FILTER_SIZE as u64)) as int
}

/// Which bit of that word a hash selects.
pub open spec fn bit_of(hash: u64) -> u64 {
    1u64 << (hash % 64)
}

/// Mark words after the counters `1..=upto` have been mixed in.
pub open spec fn spec_bloom_marks(context: Seq<u8>, name: Seq<u8>, upto: int) -> Seq<u64>
    decreases upto,
{
    if upto <= 0 {
        Seq::new(BLOOM_FILTER_SIZE as nat, |i: int| 0u64)
    } else {
        let prev = spec_bloom_marks(context, name, upto - 1);
        let h = spec_bloom_hash(context, name, upto as u8);
        prev.update(slot_of(h), prev[slot_of(h)] | bit_of(h))
    }
}

/// The full bit pattern for a (context, name) pair.
pub open spec fn spec_bloom_bits(context: Seq<u8>, name: Seq<u8>) -> Seq<u64> {
    spec_bloom_marks(context, name, BLOOM_FILTER_NUM_BITS as int)
}

/// A mark set contains a pattern when every bit of the pattern is set.
pub open spec fn spec_bloom_contains(mask: Seq<u64>, bits: Seq<u64>) -> bool {
    forall|i: int| 0 <= i < BLOOM_FILTER_SIZE ==> #[trigger] (mask[i] & bits[i]) == bits[i]
}

/// The mark set after a pattern is added: the word-wise or.
pub open spec fn spec_bloom_or(mask: Seq<u64>, bits: Seq<u64>) -> Seq<u64> {
    Seq::new(BLOOM_FILTER_SIZE as nat, |i: int| mask[i] | bits[i])
}

fn fnv_step_exec(h: u64, b: u8) -> (r: u64)
    ensures
        r == fnv_step(h, b),
{
    (h ^ (b as u64)).wrapping_mul(FNV_PRIME)
}

proof fn lemma_fnv_fold_snoc(h: u64, s: Seq<u8>, i: int)
    requires
        0 <= i < s.len(),
    ensures
        fnv_fold(h, s.subrange(0, i + 1)) == fnv_step(fnv_fold(h, s.subrange(0, i)), s[i]),
{
    assert(s.subrange(0, i + 1).drop_last() =~= s.subrange(0, i));
    assert(s.subrange(0, i + 1).last() == s[i]);
}

fn fnv_fold_exec(h0: u64, bytes: &[u8]) -> (h: u64)
    ensures
        h == fnv_fold(h0, bytes@),
{
    let mut h = h0;
    let n = bytes.len();
    assert(bytes@.subrange(0, 0) =~= Seq::<u8>::empty());
    for i in 0..n
        invariant
            n == bytes@.len(),
            h == fnv_fold(h0, bytes@.subrange(0, i as int)),
    {
        proof {
            lemma_fnv_fold_snoc(h0, bytes@, i as int);
        }
        h = fnv_step_exec(h, bytes[i]);
    }
    assert(bytes@.subrange(0, n as int) =~= bytes@);
    h
}

proof fn lemma_fnv_fold_concat(h0: u64, a: Seq<u8>, b: Seq<u8>)
    ensures
        fnv_fold(h0, a + b) == fnv_fold(fnv_fold(h0, a), b),
    decreases b.len(),
{
    if b.len() == 0 {
        assert(a + b =~= a);
    } else {
        lemma_fnv_fold_concat(h0, a, b.drop_last());
        assert((a + b).drop_last() =~= a + b.drop_last());
        assert((a + b).last() == b.last());
    }
}

/// The second hash mix over the counter, the context hash and the name.
fn bloom_hash_exec(context_hash: u64, name: &str, n: u8) -> (h: u64)
    ensures
        h == fnv_fold(FNV_OFFSET, counter_bytes(n) + u64_le_bytes(context_hash) + name.spec_bytes()),
{
    let mut h: u64 = fnv_step_exec(FNV_OFFSET, n);
    h = fnv_step_exec(h, 0);
    proof {
        reveal_with_fuel(fnv_fold, 3);
        let cb = counter_bytes(n);
        assert(cb.last() == 0u8);
        assert(cb.drop_last() =~= seq![n]);
        assert(seq![n].last() == n);
        assert(seq![n].drop_last() =~= Seq::<u8>::empty());
        assert(fnv_fold(FNV_OFFSET, seq![n]) == fnv_step(FNV_OFFSET, n));
        assert(h == fnv_fold(FNV_OFFSET, cb));
    }
    let ghost hb = u64_le_bytes(context_hash);
    for k in 0..8usize
        invariant
            h == fnv_fold(FNV_OFFSET, counter_bytes(n) + hb.subrange(0, k as int)),
            hb == u64_le_bytes(context_hash),
    {
        let shifted: u64 = context_hash >> ((8 * k) as u64);
        assert(shifted & 0xff < 256) by (bit_vector);
        let b: u8 = (shifted & 0xff) as u8;
        proof {
            assert(b == hb[k as int]);
            lemma_fnv_fold_snoc(FNV_OFFSET, counter_bytes(n) + hb, k as int + 2);
            assert((counter_bytes(n) + hb).subrange(0, k as int + 2) =~= counter_bytes(n)
                + hb.subrange(0, k as int));
            assert((counter_bytes(n) + hb).subrange(0, k as int + 3) =~= counter_bytes(n)
                + hb.subrange(0, k as int + 1));
            assert((counter_bytes(n) + hb)[k as int + 2] == hb[k as int]);
        }
        h = fnv_step_exec(h, b);
    }
    proof {
        assert(hb.subrange(0, 8) =~= hb);
        lemma_fnv_fold_concat(FNV_OFFSET, counter_bytes(n) + hb, name.spec_bytes());
        assert(counter_bytes(n) + hb + name.spec_bytes() =~= (counter_bytes(n) + hb)
            + name.spec_bytes());
    }
    let h2 = fnv_fold_exec(h, name.as_bytes());
    h2
}

/// An empty mark set.
pub fn bloom_filter_empty() -> (r: [u64; BLOOM_FILTER_SIZE])
    ensures
        r@ == Seq::<u64>::new(BLOOM_FILTER_SIZE as nat, |i: int| 0u64),
{
    let r = [0u64; BLOOM_FILTER_SIZE];
    proof {
        assert(r@ =~= Seq::<u64>::new(BLOOM_FILTER_SIZE as nat, |i: int| 0u64));
    }
    r
}

/// The per-(context, name) bit pattern: one bit for each counter value.
pub fn bloom_filter_bits(context: &str, name: &str) -> (r: [u64; BLOOM_FILTER_SIZE])
    ensures
        r@ == spec_bloom_bits(context.spec_bytes(), name.spec_bytes()),
{
    let mut v = [0u64; BLOOM_FILTER_SIZE];
    proof {
        assert(v@ =~= spec_bloom_marks(context.spec_bytes(), name.spec_bytes(), 0));
    }
    let context_hash = fnv_fold_exec(FNV_OFFSET, context.as_bytes());
    for n in 1..(BLOOM_FILTER_NUM_BITS + 1)
        invariant
            v@ == spec_bloom_marks(context.spec_bytes(), name.spec_bytes(), n - 1),
            context_hash == fnv_fold(FNV_OFFSET, context.spec_bytes()),
    {
        let h = bloom_hash_exec(context_hash, name, n as u8);
        assert(h == spec_bloom_hash(context.spec_bytes(), name.spec_bytes(), n as u8));
        let slot = ((h / 64) % (BLOOM_FILTER_SIZE as u64)) as usize;
        let bit: u64 = 1u64 << (h % 64);
        assert(slot as int == slot_of(h));
        assert(bit == bit_of(h));
        v[slot] = v[slot] | bit;
        assert(v@ =~= spec_bloom_marks(context.spec_bytes(), name.spec_bytes(), n as int));
    }
    v
}

/// Add a pattern to a mark set: word-wise or.
pub fn bloom_filter_add(mask: &mut [u64; BLOOM_FILTER_SIZE], bits: &[u64; BLOOM_FILTER_SIZE])
    ensures
        final(mask)@ == spec_bloom_or(old(mask)@, bits@),
{
    for i in 0..BLOOM_FILTER_SIZE
        invariant
            mask@.len() == BLOOM_FILTER_SIZE,
            forall|j: int| 0 <= j < i ==> mask@[j] == (old(mask)@[j] | bits@[j]),
            forall|j: int| i <= j < BLOOM_FILTER_SIZE ==> mask@[j] == old(mask)@[j],
    {
        mask[i] = mask[i] | bits[i];
    }
    assert(mask@ =~= spec_bloom_or(old(mask)@, bits@));
}

/// Test whether a mark set contains a pattern.
pub fn bloom_filter_contains(
    mask: &mut [u64; BLOOM_FILTER_SIZE],
    bits: &[u64; BLOOM_FILTER_SIZE],
) -> (r: bool)
    ensures
        final(mask)@ == old(mask)@,
        r == spec_bloom_contains(old(mask)@, bits@),
{
    for i in 0..BLOOM_FILTER_SIZE
        invariant
            mask == old(mask),
            forall|j: int| 0 <= j < i ==> #[trigger] (mask@[j] & bits@[j]) == bits@[j],
    {
        if (mask[i] & bits[i]) != bits[i] {
            return false;
        }
    }
    true
}

/// A mark set always contains a pattern that was just added to it:
/// `(m | b) & b == b` for every word.
pub proof fn lemma_bloom_add_contains(mask: Seq<u64>, bits: Seq<u64>)
    ensures
        spec_bloom_contains(spec_bloom_or(mask, bits), bits),
{
    assert forall|i: int| 0 <= i < BLOOM_FILTER_SIZE implies #[trigger] (spec_bloom_or(mask, bits)[i]
        & bits[i]) == bits[i] by {
        let m = mask[i];
        let b = bits[i];
        assert(((m | b) & b) == b) by (bit_vector);
    }
}

/// Adding a pattern never clears a bit: a mark set that contains some pattern
/// still contains it after any further add.
pub proof fn lemma_bloom_add_monotone(mask: Seq<u64>, added: Seq<u64>, bits: Seq<u64>)
    requires
        spec_bloom_contains(mask, bits),
    ensures
        spec_bloom_contains(spec_bloom_or(mask, added), bits),
{
    assert forall|i: int| 0 <= i < BLOOM_FILTER_SIZE implies #[trigger] (spec_bloom_or(mask, added)[i]
        & bits[i]) == bits[i] by {
        let m = mask[i];
        let a = added[i];
        let b = bits[i];
        assert((m & b) == b ==> (((m | a) & b) == b)) by (bit_vector);
    }
}


/// Test whether a mark set contains a pattern, by shared reference.
pub fn bloom_filter_contains_ref(
    mask: &[u64; BLOOM_FILTER_SIZE],
    bits: &[u64; BLOOM_FILTER_SIZE],
) -> (r: bool)
    ensures
        r == spec_bloom_contains(mask@, bits@),
{
    for i in 0..BLOOM_FILTER_SIZE
        invariant
            forall|j: int| 0 <= j < i ==> #[trigger] (mask@[j] & bits@[j]) == bits@[j],
    {
        if (mask[i] & bits[i]) != bits[i] {
            return false;
        }
    }
    true
}

} // verus!
