//! A blocked Bloom filter over the user keys that a memtable holds.
use crate::hash;
use vstd::prelude::*;

verus! {

/// A memtable's key filter, in 64-byte blocks: 1 MiB, about eight bits a key for a 64 MiB
/// memtable of small rows.
pub const FILTER_BLOCKS: usize = 16 * 1_024;

/// One cache line, as [`u64`]s.
pub const BLOCK_WORDS: usize = 8;

/// How many bits a key has in its block.
pub const FILTER_PROBES: u64 = 4;

/// Bit `b` of a word, counted from the low end.
pub open spec fn has_bit(word: u64, b: int) -> bool {
    (word >> (b as u64)) & 1 == 1
}

/// The bits that are set in a sequence of words, those of word `i` being numbered from `64 * i`.
pub open spec fn bits_of(words: Seq<u64>) -> Set<int> {
    Set::new(|p: int| 0 <= p < 64 * words.len() && has_bit(words[p / 64], p % 64))
}

/// The block that a hash chooses, by its high half.
pub open spec fn block_of(hash: u64) -> int {
    (hash as int / 0x1_0000_0000) % (FILTER_BLOCKS as int)
}

/// Where the walk of a hash's probes starts: its low half.
pub open spec fn start_of(hash: u64) -> int {
    hash as int % 0x1_0000_0000
}

/// The stride of that walk: the 32 bits of the hash from bit 16 on, made odd.
pub open spec fn stride_of(hash: u64) -> int {
    let middle = (hash as int / 0x1_0000) % 0x1_0000_0000;
    if middle % 2 == 0 {
        middle + 1
    } else {
        middle
    }
}

/// The bit, of the 512 in a block, that probe `i` of a hash lands on.
pub open spec fn probe(hash: u64, i: int) -> int {
    (start_of(hash) + i * stride_of(hash)) % 512
}

/// The bits within its block that belong to a hash.
pub open spec fn block_bits(hash: u64) -> Set<int> {
    Set::new(|p: int| exists|i: int| 0 <= i < FILTER_PROBES && p == #[trigger] probe(hash, i))
}

/// The bits of `bits`, each moved up by `by`.
pub open spec fn shifted(bits: Set<int>, by: int) -> Set<int> {
    Set::new(|p: int| bits.contains(p - by))
}

/// The bits of the whole filter that belong to a hash.
pub open spec fn bits_for(hash: u64) -> Set<int> {
    shifted(block_bits(hash), 512 * block_of(hash))
}

proof fn lemma_set_one_bit(word: u64, b: u64, c: u64)
    requires
        b < 64,
        c < 64,
    ensures
        has_bit(word | (1u64 << b), c as int) <==> has_bit(word, c as int) || b == c,
{
    assert(((word | (1u64 << b)) >> c) & 1 == 1 <==> ((word >> c) & 1 == 1 || b == c)) by (bit_vector)
        requires
            b < 64,
            c < 64,
    ;
}

proof fn lemma_zero_has_no_bit(b: u64)
    requires
        b < 64,
    ensures
        !has_bit(0, b as int),
{
    assert((0u64 >> b) & 1 == 0) by (bit_vector);
}

proof fn lemma_or_bits(word: u64, mask: u64, b: u64)
    requires
        b < 64,
    ensures
        has_bit(word | mask, b as int) <==> has_bit(word, b as int) || has_bit(mask, b as int),
{
    assert(((word | mask) >> b) & 1 == 1 <==> ((word >> b) & 1 == 1 || (mask >> b) & 1 == 1))
        by (bit_vector);
}

proof fn lemma_covered_bits(word: u64, mask: u64, b: u64)
    requires
        b < 64,
        word & mask == mask,
        has_bit(mask, b as int),
    ensures
        has_bit(word, b as int),
{
    assert((mask >> b) & 1 == 1 && word & mask == mask ==> (word >> b) & 1 == 1) by (bit_vector);
}

/// A word that is not zero has a bit.
proof fn lemma_nonzero_has_bit(word: u64) -> (b: u64)
    requires
        word != 0,
    ensures
        b < 64,
        has_bit(word, b as int),
    decreases word,
{
    if (word >> 0u64) & 1 == 1 {
        0
    } else {
        assert((word >> 0u64) & 1 != 1 && word != 0 ==> (word >> 1u64) != 0 && (word >> 1u64) < word)
            by (bit_vector);
        let rest = word >> 1u64;
        let b = lemma_nonzero_has_bit(rest);
        assert(((word >> 1u64) >> 63u64) & 1 == 0) by (bit_vector);
        let c = (b + 1) as u64;
        assert(((word >> 1u64) >> b) & 1 == (word >> c) & 1) by (bit_vector)
            requires
                b < 63,
                c == b + 1,
        ;
        c
    }
}

/// A mask that a word does not cover has a bit that the word lacks.
proof fn lemma_uncovered_bit(word: u64, mask: u64) -> (b: u64)
    requires
        word & mask != mask,
    ensures
        b < 64,
        has_bit(mask, b as int),
        !has_bit(word, b as int),
{
    assert(word & mask != mask ==> mask & !word != 0) by (bit_vector);
    let b = lemma_nonzero_has_bit(mask & !word);
    assert(((mask & !word) >> b) & 1 == 1 && b < 64 ==> (mask >> b) & 1 == 1 && (word >> b) & 1 != 1)
        by (bit_vector);
    b
}

/// A blocked Bloom filter over the user keys a memtable holds.
///
/// A read that misses would otherwise pay a full skiplist descent, comparing a key at each level,
/// before it can conclude that the key is not there.
///
/// Confining the bits of a key to one 64-byte block costs a little accuracy and touches one cache
/// line.
pub struct KeyFilter {
    /// `FILTER_BLOCKS` blocks of `BLOCK_WORDS` words, laid out flat.
    bits: Vec<u64>,
}

impl View for KeyFilter {
    type V = Set<int>;

    /// The bits that are set.
    closed spec fn view(&self) -> Set<int> {
        bits_of(self.bits@)
    }
}

impl KeyFilter {
    /// The filter has all its blocks.
    pub closed spec fn wf(&self) -> bool {
        self.bits@.len() == FILTER_BLOCKS * BLOCK_WORDS
    }

    /// A filter that holds no key.
    pub fn new() -> (filter: KeyFilter)
        ensures
            filter.wf(),
            filter@ == Set::<int>::empty(),
    {
        let filter = KeyFilter { bits: vec![0u64; FILTER_BLOCKS * BLOCK_WORDS] };
        proof {
            assert forall|p: int| !filter@.contains(p) by {
                if 0 <= p < 64 * filter.bits@.len() {
                    lemma_zero_has_no_bit((p % 64) as u64);
                }
            }
            assert(filter@ =~= Set::<int>::empty());
        }
        filter
    }

    /// The block of words a hash lives in, and the masks its probes set there.
    ///
    /// One hash for everything: the high bits choose the block, the low bits walk the probes
    /// within it.
    pub fn probes_of(hash: u64) -> (result: (usize, [u64; BLOCK_WORDS]))
        ensures
            result.0 == BLOCK_WORDS * block_of(hash),
            bits_of(result.1@) == block_bits(hash),
    {
        let high: u64 = hash >> 32;
        let block: usize = (high % (FILTER_BLOCKS as u64)) as usize;
        let h1: u64 = hash & 0xffff_ffff;
        let h2: u64 = ((hash >> 16) & 0xffff_ffff) | 1;
        proof {
            lemma_hash_parts(hash);
        }

        let mut masks: [u64; BLOCK_WORDS] = [0u64; BLOCK_WORDS];
        proof {
            assert forall|p: int| !bits_of(masks@).contains(p) by {
                if 0 <= p < 64 * masks@.len() {
                    lemma_zero_has_no_bit((p % 64) as u64);
                }
            }
        }
        let mut i: u64 = 0;
        while i < FILTER_PROBES
            invariant
                i <= FILTER_PROBES,
                h1 == start_of(hash),
                h2 == stride_of(hash),
                h1 <= 0xffff_ffff,
                h2 <= 0xffff_ffff,
                bits_of(masks@) == Set::new(
                    |p: int| exists|k: int| 0 <= k < i && p == #[trigger] probe(hash, k),
                ),
            decreases FILTER_PROBES - i,
        {
            assert(0 <= i * h2 <= 3 * 0xffff_ffff) by (nonlinear_arith)
                requires
                    0 <= i <= 3,
                    0 <= h2 <= 0xffff_ffff,
            ;
            // 512 bits to a block.
            let bit: usize = ((h1 + i * h2) % 512) as usize;
            let ghost before = masks@;
            let word: usize = bit / 64;
            let at: u64 = (bit % 64) as u64;
            masks[word] = masks[word] | (1u64 << at);
            proof {
                assert(bit == probe(hash, i as int));
                assert forall|p: int| #[trigger]
                    bits_of(masks@).contains(p) <==> (exists|k: int|
                        0 <= k < i + 1 && p == #[trigger] probe(hash, k)) by {
                    assert(bits_of(before).contains(p) <==> (exists|k: int|
                        0 <= k < i && p == #[trigger] probe(hash, k)));
                    if 0 <= p < 512 && p / 64 == word {
                        lemma_set_one_bit(before[word as int], at, (p % 64) as u64);
                    }
                }
            }
            i = i + 1;
        }
        (block * BLOCK_WORDS, masks)
    }

    /// The block of words a key lives in, and the masks its probes set there.
    pub fn probes(key: &[u8]) -> (result: (usize, [u64; BLOCK_WORDS]))
        ensures
            result.0 == BLOCK_WORDS * block_of(hash::xxh3_64_of(key@)),
            bits_of(result.1@) == block_bits(hash::xxh3_64_of(key@)),
    {
        Self::probes_of(hash::hash64(key))
    }

    /// Sets the bits of `masks` in the words from `at` on.
    pub fn set_masks(&mut self, at: usize, masks: &[u64; BLOCK_WORDS])
        requires
            old(self).wf(),
            at + BLOCK_WORDS <= FILTER_BLOCKS * BLOCK_WORDS,
        ensures
            final(self).wf(),
            final(self)@ == old(self)@.union(shifted(bits_of(masks@), 64 * at)),
    {
        let ghost before = self.bits@;
        let mut word: usize = 0;
        while word < BLOCK_WORDS
            invariant
                word <= BLOCK_WORDS,
                self.bits@.len() == FILTER_BLOCKS * BLOCK_WORDS,
                before.len() == self.bits@.len(),
                at + BLOCK_WORDS <= before.len(),
                forall|j: int|
                    0 <= j < before.len() ==> #[trigger] self.bits@[j] == if at <= j < at + word {
                        before[j] | masks@[j - at]
                    } else {
                        before[j]
                    },
            decreases BLOCK_WORDS - word,
        {
            let mask: u64 = masks[word];
            if mask != 0 {
                self.bits[at + word] = self.bits[at + word] | mask;
            } else {
                proof {
                    let unchanged = before[at + word];
                    assert(unchanged | 0u64 == unchanged) by (bit_vector);
                }
            }
            word = word + 1;
        }
        proof {
            let added = shifted(bits_of(masks@), 64 * at);
            assert forall|p: int|
                bits_of(self.bits@).contains(p) <==> bits_of(before).contains(p) || added.contains(
                    p,
                ) by {
                let j = p / 64;
                let q = p - 64 * at;
                if at <= j < at + BLOCK_WORDS {
                    assert(q / 64 == j - at && q % 64 == p % 64);
                    lemma_or_bits(before[j], masks@[j - at], (p % 64) as u64);
                }
            }
            assert(self@ =~= old(self)@.union(added));
        }
    }

    /// Whether all the bits of `masks` are set in the words from `at` on.
    pub fn holds_masks(&self, at: usize, masks: &[u64; BLOCK_WORDS]) -> (held: bool)
        requires
            self.wf(),
            at + BLOCK_WORDS <= FILTER_BLOCKS * BLOCK_WORDS,
        ensures
            held <==> shifted(bits_of(masks@), 64 * at).subset_of(self@),
    {
        let ghost wanted = shifted(bits_of(masks@), 64 * at);
        let mut word: usize = 0;
        while word < BLOCK_WORDS
            invariant
                word <= BLOCK_WORDS,
                self.wf(),
                at + BLOCK_WORDS <= FILTER_BLOCKS * BLOCK_WORDS,
                wanted == shifted(bits_of(masks@), 64 * at),
                forall|j: int|
                    0 <= j < word ==> self.bits@[at + j] & #[trigger] masks@[j] == masks@[j],
            decreases BLOCK_WORDS - word,
        {
            let mask: u64 = masks[word];
            let held: u64 = self.bits[at + word];
            if mask == 0 {
                assert(held & 0u64 == 0u64) by (bit_vector);
            } else if held & mask != mask {
                proof {
                    let b = lemma_uncovered_bit(held, mask);
                    let p = 64 * (at + word) + b;
                    assert(p / 64 == at + word && p % 64 == b);
                    assert((p - 64 * at) / 64 == word && (p - 64 * at) % 64 == b);
                    assert(wanted.contains(p));
                    assert(!self@.contains(p));
                }
                return false;
            }
            word = word + 1;
        }
        proof {
            assert forall|p: int| wanted.contains(p) implies self@.contains(p) by {
                let q = p - 64 * at;
                let j = q / 64;
                assert(p / 64 == at + j && p % 64 == q % 64);
                assert(self.bits@[at + j] & masks@[j] == masks@[j]);
                lemma_covered_bits(self.bits@[at + j], masks@[j], (q % 64) as u64);
            }
        }
        true
    }

    /// Records that `key` was inserted.
    pub fn set(&mut self, key: &[u8])
        requires
            old(self).wf(),
        ensures
            final(self).wf(),
            final(self)@ == old(self)@.union(bits_for(hash::xxh3_64_of(key@))),
    {
        let (at, masks) = Self::probes(key);
        self.set_masks(at, &masks);
    }

    /// Whether `key` may have been inserted: `false` is authoritative, the key never was.
    pub fn might_hold(&self, key: &[u8]) -> (held: bool)
        requires
            self.wf(),
        ensures
            held <==> bits_for(hash::xxh3_64_of(key@)).subset_of(self@),
    {
        let (at, masks) = Self::probes(key);
        self.holds_masks(at, &masks)
    }
}

/// The bits of a filter that held `bits` once all of `keys` are set in it, one after the other.
pub open spec fn bits_after(bits: Set<int>, keys: Seq<Seq<u8>>) -> Set<int>
    decreases keys.len(),
{
    if keys.len() == 0 {
        bits
    } else {
        bits_after(bits, keys.drop_last()).union(bits_for(hash::xxh3_64_of(keys.last())))
    }
}

/// The filter never forgets a key: whatever it held before, and whatever was set before or after
/// it, a key that was set is held. So a key that is not held was never set.
pub proof fn no_false_negative(bits: Set<int>, keys: Seq<Seq<u8>>, key: Seq<u8>)
    requires
        keys.contains(key),
    ensures
        bits_for(hash::xxh3_64_of(key)).subset_of(bits_after(bits, keys)),
    decreases keys.len(),
{
    if key != keys.last() {
        let i = choose|i: int| 0 <= i < keys.len() && keys[i] == key;
        assert(keys.drop_last()[i] == key);
        no_false_negative(bits, keys.drop_last(), key);
    }
}

/// The parts of a hash that choose its block and its probes.
proof fn lemma_hash_parts(hash: u64)
    ensures
        (hash >> 32) == hash as int / 0x1_0000_0000,
        (hash & 0xffff_ffff) == start_of(hash),
        (((hash >> 16) & 0xffff_ffff) | 1) == stride_of(hash),
        start_of(hash) <= 0xffff_ffff,
        stride_of(hash) <= 0xffff_ffff,
{
    assert((hash >> 32) == hash / 0x1_0000_0000) by (bit_vector);
    assert((hash & 0xffff_ffff) == hash % 0x1_0000_0000) by (bit_vector);
    let middle = (hash / 0x1_0000) % 0x1_0000_0000;
    assert((((hash >> 16) & 0xffff_ffff) | 1) == if middle % 2 == 0 {
        middle + 1
    } else {
        middle as int
    }) by (bit_vector)
        requires
            middle == (hash / 0x1_0000) % 0x1_0000_0000,
    ;
}

/// A bit of a word is a digit of its binary expansion.
pub proof fn bits_are_binary_digits(word: u64, b: u64)
    requires
        b < 64,
    ensures
        has_bit(word, b as int) <==> (word as int / vstd::arithmetic::power2::pow2(b as nat) as int)
            % 2 == 1,
{
    vstd::bits::lemma_u64_shr_is_div(word, b);
    let shifted_down = word >> b;
    assert(shifted_down & 1 == shifted_down % 2) by (bit_vector);
}

/// Words with the same bits are the same word.
pub proof fn a_word_is_its_bits(a: u64, b: u64)
    requires
        forall|i: int| 0 <= i < 64 ==> (#[trigger] has_bit(a, i) <==> has_bit(b, i)),
    ensures
        a == b,
{
    if a & b != b {
        let i = lemma_uncovered_bit(a, b);
        assert(has_bit(a, i as int) <==> has_bit(b, i as int));
    } else if b & a != a {
        let i = lemma_uncovered_bit(b, a);
        assert(has_bit(a, i as int) <==> has_bit(b, i as int));
    } else {
        assert(a & b == b & a) by (bit_vector);
    }
}

/// The bits of words are those of each word, in order, 64 to a word.
pub proof fn bits_of_words_are_theirs(words: Seq<u64>, at: int, b: int)
    requires
        0 <= at < words.len(),
        0 <= b < 64,
    ensures
        bits_of(words).contains(64 * at + b) <==> has_bit(words[at], b),
{
    assert((64 * at + b) / 64 == at && (64 * at + b) % 64 == b);
}

/// Words have no bits beyond their own.
pub proof fn bits_of_words_are_bounded(words: Seq<u64>, p: int)
    requires
        bits_of(words).contains(p),
    ensures
        0 <= p < 64 * words.len(),
{
}

/// Shifting bits moves each of them, and makes or loses none.
pub proof fn shifting_moves_each_bit(bits: Set<int>, by: int, p: int)
    ensures
        shifted(bits, by).contains(p + by) <==> bits.contains(p),
{
}

/// The high half of a hash chooses the block, and the low half has no say in it.
pub proof fn high_half_chooses_the_block(hash: u64, high: int, low: int)
    requires
        hash == high * 0x1_0000_0000 + low,
        0 <= low < 0x1_0000_0000,
    ensures
        block_of(hash) == high % 16_384,
{
    assert(hash as int / 0x1_0000_0000 == high);
}

/// Where the probes of a hash land: the first on the hash itself, modulo the 512 bits of a block,
/// and each further one a fixed odd stride on, which is the hash without its low 16 bits, made odd.
pub proof fn probes_walk_by_an_odd_stride(hash: u64, i: int)
    ensures
        probe(hash, i) == (hash + i * (hash as int / 0x1_0000 + (1 - (hash as int / 0x1_0000) % 2)))
            % 512,
        0 <= probe(hash, i) < 512,
{
    let above = hash as int / 0x1_0000;
    let wide = above + (1 - above % 2);
    let stride = stride_of(hash);
    let start = start_of(hash);
    let high = hash as int / 0x1_0000_0000;
    let q = above / 0x1_0000_0000;
    assert(hash as int == 0x1_0000_0000 * high + start);
    assert(wide == 0x1_0000_0000 * q + stride) by {
        let middle = above % 0x1_0000_0000;
        assert(above == 0x1_0000_0000 * q + middle);
        assert(above % 2 == middle % 2);
    }
    let k = 0x80_0000 * high + i * (0x80_0000 * q);
    assert(hash + i * wide == start + i * stride + 512 * k) by (nonlinear_arith)
        requires
            hash as int == 0x1_0000_0000 * high + start,
            wide == 0x1_0000_0000 * q + stride,
            k == 0x80_0000 * high + i * (0x80_0000 * q),
    ;
    lemma_whole_blocks_vanish(start + i * stride, k);
}

/// Whole blocks do not move a place within a block.
proof fn lemma_whole_blocks_vanish(p: int, blocks: int)
    ensures
        (p + 512 * blocks) % 512 == p % 512,
{
}

/// A hash has the bits that its four probes land on, and no others: in the block, and in the filter
/// moved to where its block stands.
pub proof fn bits_are_where_the_probes_land(hash: u64, p: int)
    ensures
        block_bits(hash).contains(p) <==> p == probe(hash, 0) || p == probe(hash, 1) || p == probe(
            hash,
            2,
        ) || p == probe(hash, 3),
        bits_for(hash).contains(p) <==> block_bits(hash).contains(p - 512 * block_of(hash)),
{
    if block_bits(hash).contains(p) {
        let i = choose|i: int| 0 <= i < FILTER_PROBES && p == #[trigger] probe(hash, i);
        assert(i == 0 || i == 1 || i == 2 || i == 3);
    }
    assert(0 < FILTER_PROBES);
    assert(forall|i: int| 0 <= i < 4 ==> block_bits(hash).contains(#[trigger] probe(hash, i)));
}

/// Up to three steps of an odd stride do not lead back to the same place in a block.
proof fn lemma_odd_steps_differ(start: int, stride: int)
    requires
        stride % 2 == 1,
    ensures
        start % 512 != (start + stride) % 512,
        start % 512 != (start + 2 * stride) % 512,
        start % 512 != (start + 3 * stride) % 512,
        (start + stride) % 512 != (start + 2 * stride) % 512,
        (start + stride) % 512 != (start + 3 * stride) % 512,
        (start + 2 * stride) % 512 != (start + 3 * stride) % 512,
{
}

/// The four probes of a hash land on four different bits, all in one block.
pub proof fn a_key_has_four_bits_in_one_block(hash: u64)
    ensures
        bits_for(hash).finite(),
        bits_for(hash).len() == 4,
        forall|p: int| #[trigger]
            bits_for(hash).contains(p) ==> 512 * block_of(hash) <= p < 512 * block_of(hash) + 512,
        0 <= block_of(hash) < 16_384,
{
    let base = 512 * block_of(hash);
    let a = base + probe(hash, 0);
    let b = base + probe(hash, 1);
    let c = base + probe(hash, 2);
    let d = base + probe(hash, 3);
    assert(stride_of(hash) % 2 == 1);
    assert(0 * stride_of(hash) == 0) by (nonlinear_arith);
    lemma_odd_steps_differ(start_of(hash), stride_of(hash));
    assert forall|p: int| #[trigger] bits_for(hash).contains(p) <==> set![a, b, c, d].contains(p) by {
        bits_are_where_the_probes_land(hash, p);
        bits_are_where_the_probes_land(hash, p - base);
    }
    assert(bits_for(hash) =~= set![a, b, c, d]);
}

/// A filter has the bits it started with and those of the keys that were set in it, and no others.
pub proof fn filter_bits_are_those_of_its_keys(bits: Set<int>, keys: Seq<Seq<u8>>, p: int)
    ensures
        bits_after(bits, keys).contains(p) <==> bits.contains(p) || exists|i: int|
            0 <= i < keys.len() && bits_for(hash::xxh3_64_of(#[trigger] keys[i])).contains(p),
    decreases keys.len(),
{
    if keys.len() > 0 {
        let shorter = keys.drop_last();
        filter_bits_are_those_of_its_keys(bits, shorter, p);
        if exists|i: int|
            0 <= i < shorter.len() && bits_for(hash::xxh3_64_of(#[trigger] shorter[i])).contains(p) {
            let i = choose|i: int|
                0 <= i < shorter.len() && bits_for(
                    hash::xxh3_64_of(#[trigger] shorter[i]),
                ).contains(p);
            assert(keys[i] == shorter[i]);
        }
        if exists|i: int|
            0 <= i < keys.len() && bits_for(hash::xxh3_64_of(#[trigger] keys[i])).contains(p) {
            let i = choose|i: int|
                0 <= i < keys.len() && bits_for(hash::xxh3_64_of(#[trigger] keys[i])).contains(p);
            if i < shorter.len() {
                assert(shorter[i] == keys[i]);
            }
        }
        assert(keys[keys.len() - 1] == keys.last());
    }
}

/// A filter in which nothing was set holds no key.
pub proof fn fresh_filter_holds_no_key(key: Seq<u8>)
    ensures
        !bits_for(hash::xxh3_64_of(key)).subset_of(Set::<int>::empty()),
{
    let hash = hash::xxh3_64_of(key);
    let p = 512 * block_of(hash) + probe(hash, 0);
    bits_are_where_the_probes_land(hash, p);
    bits_are_where_the_probes_land(hash, probe(hash, 0));
}

} // verus!
