//! OndrisHash: a memory-hard, GPU-friendly proof of work. A large read-only
//! dataset is regenerated per epoch; each hash attempt touches it at a few dozen
//! pseudo-random places and mixes what it reads with FNV. BLAKE3 derives the
//! seeds and seals the result.

use crate::bytes::{
    be_less, be_value, le32, le_bytes, le_value, lemma_le_value_injective, lemma_u64_le_round_trip, push_u32_le,
    push_u64_le, read_u32_le, words_are_read_back, words_bytes,
};
use crate::crypto::{blake3_digest, blake3_hash, blake3_output, xof_fill};
use crate::ondris_hash_ref::reference_digest;
use crate::primitives::Hash256;
use vstd::arithmetic::div_mod::{
    lemma_fundamental_div_mod, lemma_fundamental_div_mod_converse, lemma_mod_multiples_basic, lemma_mul_mod_noop_left,
    lemma_mul_mod_noop_right, lemma_small_mod,
};
use vstd::prelude::*;

verus! {

/// How many blocks share one dataset.
pub const EPOCH_LENGTH: u64 = 2048;

/// Size of the cache that the dataset is derived from.
pub const CACHE_SIZE: usize = 16 * 1024 * 1024;

/// Size of the dataset (a testnet value).
pub const DATASET_SIZE: usize = 64 * 1024 * 1024;

/// Size of one dataset item, and of the mix, in bytes.
pub const ITEM_SIZE: usize = 128;

/// How many items one hash attempt touches.
pub const ACCESSES: usize = 64;

pub const FNV_PRIME: u32 = 0x0100_0193;

// ---- epochs ----

pub open spec fn epoch_number(height: u64) -> u64 {
    height / EPOCH_LENGTH
}

/// The seed of the epoch whose boundary block has the given hash; `None` for
/// the first epoch, which has no boundary block.
pub open spec fn seed_of_epoch(boundary: Option<Hash256>) -> Seq<u8> {
    match boundary {
        None => blake3_digest(GENESIS_EPOCH@),
        Some(h) => blake3_digest(h@),
    }
}

/// `ONDRIS_GENESIS_EPOCH` in ASCII.
pub const GENESIS_EPOCH: [u8; 20] = [
    0x4f, 0x4e, 0x44, 0x52, 0x49, 0x53, 0x5f, 0x47, 0x45, 0x4e, 0x45, 0x53, 0x49, 0x53, 0x5f, 0x45, 0x50, 0x4f, 0x43,
    0x48,
];

pub fn epoch_of(height: u64) -> (r: u64)
    ensures
        r == epoch_number(height),
{
    height / EPOCH_LENGTH
}

/// Derives an epoch's seed from the hash of its boundary block, or from a fixed
/// text for the first epoch.
pub fn epoch_seed(boundary_block_hash: Option<Hash256>) -> (r: Hash256)
    ensures
        r@ == seed_of_epoch(boundary_block_hash),
{
    match boundary_block_hash {
        None => {
            let text: [u8; 20] = GENESIS_EPOCH;
            Hash256::hash(&text)
        },
        Some(h) => Hash256::hash(h.as_bytes()),
    }
}

// ---- the dataset ----

/// Where in the cache item `i` takes its first bytes from.
pub open spec fn cache_offset(i: nat, cache_size: nat) -> int {
    (i * 128) as int % (cache_size - 127)
}

/// Every item takes its first bytes from within the cache.
pub proof fn items_start_within_the_cache(i: nat, cache_size: nat)
    requires
        cache_size >= 128,
    ensures
        0 <= cache_offset(i, cache_size),
        cache_offset(i, cache_size) + 128 <= cache_size,
{
}

/// The items take their stretches of the cache in turn. Item `i` begins where `128 * i`
/// falls once the last place at which a stretch fits is followed by the first again: the
/// first item at the front, and each next one right behind the stretch of the one before,
/// as long as one fits there.
pub proof fn items_take_their_stretches_in_turn(i: nat, cache_size: nat)
    requires
        cache_size >= 128,
    ensures
        ({
            let (at, next) = (cache_offset(i, cache_size), cache_offset(i + 1, cache_size));
            let places = cache_size - 127;
            &&& cache_offset(0, cache_size) == 0
            &&& 0 <= at < places
            &&& (128 * i - at) % places == 0
            &&& at + 128 < places ==> next == at + 128
            &&& (next - at - 128) % places == 0
            &&& 128 * i < places ==> at == 128 * i
        }),
{
    let places = cache_size - 127;
    let x = (128 * i) as int;
    lemma_small_mod(0, places as nat);
    lemma_fundamental_div_mod(x, places);
    lemma_fundamental_div_mod(x + 128, places);
    let (at, next) = (x % places, (x + 128) % places);
    let (q, p) = (x / places, (x + 128) / places);
    assert(x - at == places * q) by (nonlinear_arith)
        requires
            x == places * q + at,
    ;
    lemma_mod_multiples_basic(q, places);
    assert(places * q == q * places) by (nonlinear_arith);
    assert(next - at - 128 == (q - p) * places) by (nonlinear_arith)
        requires
            x == places * q + at,
            x + 128 == places * p + next,
    ;
    lemma_mod_multiples_basic(q - p, places);
    if at + 128 < places {
        lemma_fundamental_div_mod_converse(x + 128, places, q, at + 128);
    }
    if x < places {
        lemma_small_mod(x as nat, places as nat);
    }
}

/// A dataset with one item more begins with the shorter one. The item that follows,
/// number `n`, is the stretch of the cache that begins at `128 * n` counted round the
/// places where one fits, hashed twice with the item's number behind it.
pub proof fn a_longer_dataset_has_one_more_item(seed: Seq<u8>, cache_size: nat, n: nat)
    requires
        cache_size >= 128,
    ensures
        ({
            let cache = blake3_output(seed, cache_size);
            let at = (128 * n) as int % (cache_size - 127);
            let number = le_bytes(n, 8);
            let once = blake3_output(cache.subrange(at, at + 128) + number, 128);
            dataset_bytes(seed, cache_size, 128 * (n + 1)) == dataset_bytes(seed, cache_size, 128 * n) + blake3_output(
                once + number,
                128,
            )
        }),
        dataset_bytes(seed, cache_size, 0) == Seq::<u8>::empty(),
{
    assert((128 * (n + 1)) / 128 == n + 1 && (128 * n) / 128 == n);
}

/// Bytes that do not make up a whole item are left out.
pub proof fn a_dataset_holds_whole_items(seed: Seq<u8>, cache_size: nat, n: nat, rest: nat)
    requires
        rest < 128,
    ensures
        dataset_bytes(seed, cache_size, 128 * n + rest) == dataset_bytes(seed, cache_size, 128 * n),
{
    assert((128 * n + rest) / 128 == n && (128 * n) / 128 == n);
}

/// The bytes of item `i`.
pub open spec fn nth_item(bytes: Seq<u8>, i: int) -> Seq<u8> {
    bytes.subrange(128 * i, 128 * i + 128)
}

/// A stretch of the cache, hashed twice with a number behind it.
pub open spec fn grown_item(cache: Seq<u8>, at: int, number: nat) -> Seq<u8> {
    let once = blake3_output(cache.subrange(at, at + 128) + le_bytes(number, 8), 128);
    blake3_output(once + le_bytes(number, 8), 128)
}

/// One hashing of an item with its own number.
pub open spec fn rehashed(item: Seq<u8>, i: nat) -> Seq<u8> {
    blake3_output(item + le_bytes(i, 8), 128)
}

/// Item `i`: a stretch of the cache, hashed twice.
pub open spec fn dataset_item(cache: Seq<u8>, cache_size: nat, i: nat) -> Seq<u8> {
    let at = cache_offset(i, cache_size);
    rehashed(rehashed(cache.subrange(at, at + 128), i), i)
}

/// The first `n` items in a row.
pub open spec fn dataset_items(cache: Seq<u8>, cache_size: nat, n: nat) -> Seq<u8>
    decreases n,
{
    if n == 0 {
        Seq::empty()
    } else {
        dataset_items(cache, cache_size, (n - 1) as nat) + dataset_item(cache, cache_size, (n - 1) as nat)
    }
}

/// The bytes of the dataset grown from `seed`.
pub open spec fn dataset_bytes(seed: Seq<u8>, cache_size: nat, dataset_size: nat) -> Seq<u8> {
    dataset_items(blake3_output(seed, cache_size), cache_size, dataset_size / 128)
}

/// The dataset of one epoch, kept in memory by miners and nodes.
pub struct Dataset {
    pub epoch: u64,
    bytes: Vec<u8>,
}

impl View for Dataset {
    type V = Seq<u8>;

    closed spec fn view(&self) -> Seq<u8> {
        self.bytes@
    }
}

impl Dataset {
    /// The epoch that the dataset belongs to.
    pub closed spec fn epoch_index(&self) -> u64 {
        self.epoch
    }

    /// A dataset holds at least one item.
    pub open spec fn wf(&self) -> bool {
        self@.len() >= 128
    }

    pub fn generate(epoch: u64, seed: Hash256) -> (r: Dataset)
        ensures
            r.wf(),
            r.epoch_index() == epoch,
            r@ == dataset_bytes(seed@, CACHE_SIZE as nat, DATASET_SIZE as nat),
            r@.len() == DATASET_SIZE,
            r@.len() == 64 * 1024 * 1024,
            blake3_output(seed@, CACHE_SIZE as nat).len() == CACHE_SIZE,
            forall|i: int|
                0 <= i < 512 * 1024 ==> #[trigger] nth_item(r@, i) == grown_item(
                    blake3_output(seed@, 16 * 1024 * 1024),
                    (128 * i) % (16 * 1024 * 1024 - 127),
                    i as nat,
                ),
    {
        Self::generate_with_sizes(epoch, seed, CACHE_SIZE, DATASET_SIZE)
    }

    /// The same with other sizes. The item size is always `ITEM_SIZE`; only how
    /// many items there are varies.
    pub fn generate_with_sizes(epoch: u64, seed: Hash256, cache_size: usize, dataset_size: usize) -> (r: Dataset)
        requires
            cache_size >= ITEM_SIZE,
            dataset_size >= ITEM_SIZE,
        ensures
            r.wf(),
            r.epoch_index() == epoch,
            r@ == dataset_bytes(seed@, cache_size as nat, dataset_size as nat),
            r@.len() == dataset_size / ITEM_SIZE * ITEM_SIZE,
            blake3_output(seed@, cache_size as nat).len() == cache_size,
            forall|i: int|
                0 <= i < dataset_size / ITEM_SIZE ==> #[trigger] nth_item(r@, i) == grown_item(
                    blake3_output(seed@, cache_size as nat),
                    (128 * i) % (cache_size - 127),
                    i as nat,
                ),
    {
        let mut cache: Vec<u8> = vec![0u8; cache_size];
        xof_fill(&seed.0, &mut cache);
        let n_items: usize = dataset_size / ITEM_SIZE;
        let mut bytes: Vec<u8> = Vec::with_capacity(n_items * ITEM_SIZE);
        let mut i: usize = 0;
        while i < n_items
            invariant
                i <= n_items,
                n_items * 128 <= usize::MAX,
                cache@.len() == cache_size >= 128,
                bytes@.len() == i * 128,
                bytes@ == dataset_items(cache@, cache_size as nat, i as nat),
                forall|j: int|
                    0 <= j < i ==> #[trigger] nth_item(bytes@, j) == grown_item(
                        cache@,
                        (128 * j) % (cache_size - 127),
                        j as nat,
                    ),
            decreases n_items - i,
        {
            let ghost before = bytes@;
            let offset: usize = (i * ITEM_SIZE) % (cache_size - ITEM_SIZE + 1);
            let item = make_item(&cache, offset, i as u64);
            bytes.extend_from_slice(&item);
            assert(bytes@ =~= dataset_items(cache@, cache_size as nat, (i + 1) as nat));
            assert forall|j: int| 0 <= j < i + 1 implies #[trigger] nth_item(bytes@, j) == grown_item(
                cache@,
                (128 * j) % (cache_size - 127),
                j as nat,
            ) by {
                if j < i {
                    assert(nth_item(bytes@, j) =~= nth_item(before, j));
                } else {
                    assert(nth_item(bytes@, j) =~= item@);
                }
            }
            i += 1;
        }
        Dataset { epoch, bytes }
    }

    pub fn len_bytes(&self) -> (r: usize)
        ensures
            r == self@.len(),
    {
        self.bytes.len()
    }

    /// The raw bytes, for example to upload them to a GPU.
    pub fn bytes(&self) -> (r: &[u8])
        ensures
            r@ == self@,
    {
        self.bytes.as_slice()
    }
}

/// One dataset item: the cache bytes at `offset`, hashed twice with the item's
/// number.
fn make_item(cache: &Vec<u8>, offset: usize, number: u64) -> (r: Vec<u8>)
    requires
        offset + 128 <= cache@.len(),
    ensures
        r@.len() == 128,
        r@ == rehashed(rehashed(cache@.subrange(offset as int, offset + 128), number as nat), number as nat),
{
    assert(cache.len() <= usize::MAX);
    let mut item: Vec<u8> = Vec::with_capacity(ITEM_SIZE);
    item.extend_from_slice(&cache[offset..offset + ITEM_SIZE]);
    let ghost first = cache@.subrange(offset as int, offset + 128);
    assert(item@ =~= first);
    rehash(&mut item, number);
    rehash(&mut item, number);
    item
}

fn rehash(item: &mut Vec<u8>, number: u64)
    requires
        old(item)@.len() == 128,
    ensures
        final(item)@.len() == 128,
        final(item)@ == rehashed(old(item)@, number as nat),
{
    let mut input: Vec<u8> = Vec::with_capacity(ITEM_SIZE + 8);
    input.extend_from_slice(item);
    assert(input@ =~= item@);
    push_u64_le(&mut input, number);
    xof_fill(&input, item);
}

// ---- one hash attempt ----

pub open spec fn fnv_mix(a: u32, b: u32) -> u32 {
    a.wrapping_mul(FNV_PRIME) ^ b
}

/// `bytes` as little-endian words.
pub open spec fn words_of(bytes: Seq<u8>) -> Seq<u32> {
    Seq::new(bytes.len() / 4, |w: int| le32(bytes, 4 * w))
}

/// Which item access number `i` reads.
pub open spec fn item_index(mix: Seq<u32>, seed_word: u32, i: nat, dataset: Seq<u8>) -> int {
    fnv_mix(seed_word ^ (i as u32), mix[(i % 32) as int]) as int % (dataset.len() / 128) as int
}

/// The mix after access number `i`: every word combined with the item's.
pub open spec fn touched(mix: Seq<u32>, seed_word: u32, i: nat, dataset: Seq<u8>) -> Seq<u32> {
    let p = item_index(mix, seed_word, i, dataset);
    Seq::new(32, |w: int| fnv_mix(mix[w], le32(dataset, 128 * p + 4 * w)))
}

/// The mix after the first `n` accesses.
pub open spec fn mixed(mix: Seq<u32>, seed_word: u32, n: nat, dataset: Seq<u8>) -> Seq<u32>
    decreases n,
{
    if n == 0 {
        mix
    } else {
        touched(mixed(mix, seed_word, (n - 1) as nat, dataset), seed_word, (n - 1) as nat, dataset)
    }
}

/// Each four words of the mix folded into one.
pub open spec fn folded(mix: Seq<u32>) -> Seq<u32> {
    Seq::new(8, |i: int| fnv_mix(fnv_mix(fnv_mix(mix[4 * i], mix[4 * i + 1]), mix[4 * i + 2]), mix[4 * i + 3]))
}

/// What the final hash of an attempt is taken over: the seed, and the folded mix
/// that began as `start`.
pub open spec fn sealed(seed: Seq<u8>, start: Seq<u8>, dataset: Seq<u8>, accesses: nat) -> Seq<u8> {
    seed + words_bytes(folded(mixed(words_of(start), le32(seed, 0), accesses, dataset)))
}

/// OndrisHash of a header and a nonce over `dataset`.
pub open spec fn ondris_digest(header: Seq<u8>, nonce: u64, dataset: Seq<u8>, accesses: nat) -> Seq<u8> {
    let seed = blake3_digest(header + le_bytes(nonce as nat, 8));
    blake3_digest(sealed(seed, blake3_output(seed, 128), dataset, accesses))
}

// ---- what an attempt reads and returns ----

/// Access number `i` reads the item whose number is FNV of the seed word XOR `i` and of
/// word `i` modulo 32 of the mix, modulo how many items there are; and it combines every
/// word of the mix with the word of that item in the same place by FNV.
pub proof fn each_access_mixes_in_the_item_it_picks(start: Seq<u32>, seed_word: u32, i: nat, dataset: Seq<u8>)
    requires
        start.len() == 32,
        dataset.len() >= 128,
        i <= u32::MAX,
    ensures
        ({
            let (mix, after) = (mixed(start, seed_word, i, dataset), mixed(start, seed_word, i + 1, dataset));
            let items = dataset.len() as int / 128;
            let picked = (seed_word ^ (i as u32)).wrapping_mul(16777619) ^ mix[i as int % 32];
            let item = picked as int % items;
            &&& mixed(start, seed_word, 0, dataset) == start
            &&& mix.len() == 32
            &&& after.len() == 32
            &&& 0 <= item < items
            &&& forall|w: int|
                0 <= w < 32 ==> #[trigger] after[w] == mix[w].wrapping_mul(16777619) ^ le32(
                    dataset,
                    128 * item + 4 * w,
                )
        }),
    decreases i,
{
    if i > 0 {
        each_access_mixes_in_the_item_it_picks(start, seed_word, (i - 1) as nat, dataset);
    }
}

/// Multiplying by the FNV prime loses nothing.
proof fn lemma_fnv_prime_is_odd(x: u32, y: u32)
    requires
        x.wrapping_mul(FNV_PRIME) == y.wrapping_mul(FNV_PRIME),
    ensures
        x == y,
{
    let (m, p, q) = (0x1_0000_0000int, 16777619int, 0x359c_449bint);
    assert((p * q) % m == 1) by (nonlinear_arith)
        requires
            p == 16777619,
            q == 0x359c_449b,
            m == 0x1_0000_0000,
    ;
    lemma_mul_mod_noop_left(x * p, q, m);
    lemma_mul_mod_noop_left(y * p, q, m);
    lemma_mul_mod_noop_right(x as int, p * q, m);
    lemma_mul_mod_noop_right(y as int, p * q, m);
    assert(x * p * q == x * (p * q) && y * p * q == y * (p * q)) by (nonlinear_arith);
    lemma_small_mod(x as nat, m as nat);
    lemma_small_mod(y as nat, m as nat);
}

/// Which item an access reads depends on its number: over a dataset of as many items as a
/// word has values, two accesses that go by the same word of the mix, in the same place
/// and with the same seed word, never read the same item.
pub proof fn accesses_are_told_apart(mix: Seq<u32>, seed_word: u32, i: nat, j: nat, dataset: Seq<u8>)
    requires
        dataset.len() >= 0x80_0000_0000,
        i <= u32::MAX,
        j <= u32::MAX,
        i % 32 == j % 32,
        item_index(mix, seed_word, i, dataset) == item_index(mix, seed_word, j, dataset),
    ensures
        i == j,
{
    let word = mix[(i % 32) as int];
    let (a, b) = (seed_word ^ (i as u32), seed_word ^ (j as u32));
    let items = (dataset.len() / 128) as int;
    assert(items >= 0x1_0000_0000);
    lemma_small_mod(fnv_mix(a, word) as nat, items as nat);
    lemma_small_mod(fnv_mix(b, word) as nat, items as nat);
    let (x, y) = (a.wrapping_mul(FNV_PRIME), b.wrapping_mul(FNV_PRIME));
    assert(x ^ word == y ^ word ==> x == y) by (bit_vector);
    lemma_fnv_prime_is_odd(a, b);
    let (m, n) = (i as u32, j as u32);
    assert(seed_word ^ m == seed_word ^ n ==> m == n) by (bit_vector);
}

/// What the last hash is taken over: the seed, and behind it eight words, each FNV of four
/// words of the mix in turn.
pub proof fn the_mix_is_folded_by_fours(seed: Seq<u8>, start: Seq<u8>, dataset: Seq<u8>, accesses: nat, i: int)
    requires
        start.len() == 128,
        0 <= i < 8,
    ensures
        ({
            let input = sealed(seed, start, dataset, accesses);
            let words = Seq::new(32, |w: int| le32(start, 4 * w));
            let mix = mixed(words, le32(seed, 0), accesses, dataset);
            let one = mix[4 * i].wrapping_mul(16777619) ^ mix[4 * i + 1];
            let two = one.wrapping_mul(16777619) ^ mix[4 * i + 2];
            let three = two.wrapping_mul(16777619) ^ mix[4 * i + 3];
            &&& input.len() == seed.len() + 32
            &&& input.take(seed.len() as int) == seed
            &&& le32(input.skip(seed.len() as int), 4 * i) == three
        }),
{
    let words = Seq::new(32, |w: int| le32(start, 4 * w));
    assert(words_of(start) =~= words);
    let mix = mixed(words, le32(seed, 0), accesses, dataset);
    words_are_read_back(folded(mix), i);
    let input = sealed(seed, start, dataset, accesses);
    assert(input.take(seed.len() as int) =~= seed);
    assert(input.skip(seed.len() as int) =~= words_bytes(folded(mix)));
}

/// An attempt starts from the BLAKE3 hash of the header and the eight bytes of the nonce,
/// least significant first; that hash expanded to one item is the mix to begin with; and
/// what comes out is the BLAKE3 hash of the sealed mix.
pub proof fn an_attempt_is_hashed_before_and_after(header: Seq<u8>, nonce: u64, dataset: Seq<u8>, accesses: nat, bytes: Seq<u8>)
    requires
        bytes.len() == 8,
        le_value(bytes) == nonce,
    ensures
        ({
            let seed = blake3_digest(header + bytes);
            ondris_digest(header, nonce, dataset, accesses) == blake3_digest(
                sealed(seed, blake3_output(seed, 128), dataset, accesses),
            )
        }),
{
    lemma_u64_le_round_trip(nonce);
    lemma_le_value_injective(bytes, le_bytes(nonce as nat, 8));
}

/// The first epoch's seed is the hash of a fixed text, any other's is the hash of its
/// boundary block's hash; an epoch is as long as any other.
pub proof fn epochs_are_equally_long(height: u64, boundary: Hash256)
    ensures
        2048 * epoch_number(height) <= height < 2048 * (epoch_number(height) + 1),
        seed_of_epoch(Some(boundary)) == blake3_digest(boundary@),
        seed_of_epoch(None) == blake3_digest(GENESIS_EPOCH@),
{
}

pub fn fnv(a: u32, b: u32) -> (r: u32)
    ensures
        r == fnv_mix(a, b),
{
    a.wrapping_mul(FNV_PRIME) ^ b
}

/// Runs the dataset accesses for one seed and returns the bytes that the final
/// hash is taken over. `start` is the seed expanded to one item.
pub fn mix_and_fold(seed: &[u8; 32], start: &[u8], dataset: &[u8], accesses: usize) -> (r: Vec<u8>)
    requires
        start@.len() == ITEM_SIZE,
        dataset@.len() >= ITEM_SIZE || accesses == 0,
    ensures
        r@ == sealed(seed@, start@, dataset@, accesses as nat),
{
    let mut mix: Vec<u32> = Vec::with_capacity(32);
    let mut w: usize = 0;
    while w < 32
        invariant
            w <= 32,
            start@.len() == 128,
            mix@.len() == w,
            forall|j: int| 0 <= j < w ==> mix@[j] == le32(start@, 4 * j),
        decreases 32 - w,
    {
        mix.push(read_u32_le(start, 4 * w));
        w += 1;
    }
    assert(mix@ =~= words_of(start@));
    let seed_word = read_u32_le(seed, 0);
    let n_items: usize = dataset.len() / ITEM_SIZE;
    let mut i: usize = 0;
    while i < accesses
        invariant
            i <= accesses,
            accesses > 0 ==> n_items > 0,
            n_items == dataset@.len() / 128,
            mix@.len() == 32,
            seed_word == le32(seed@, 0),
            mix@ == mixed(words_of(start@), seed_word, i as nat, dataset@),
        decreases accesses - i,
    {
        let p = fnv(seed_word ^ (i as u32), mix[i % 32]) as usize % n_items;
        touch(&mut mix, dataset, p);
        assert(mix@ =~= mixed(words_of(start@), seed_word, (i + 1) as nat, dataset@));
        i += 1;
    }
    fold(seed, &mix)
}

/// Combines every word of the mix with that of item `p`.
fn touch(mix: &mut Vec<u32>, dataset: &[u8], p: usize)
    requires
        old(mix)@.len() == 32,
        p < dataset@.len() / 128,
    ensures
        final(mix)@ == Seq::new(32, |w: int| fnv_mix(old(mix)@[w], le32(dataset@, 128 * p + 4 * w))),
{
    assert(128 * p + 128 <= dataset.len());
    let mut w: usize = 0;
    while w < 32
        invariant
            w <= 32,
            128 * p + 128 <= dataset@.len() <= usize::MAX,
            mix@.len() == 32,
            forall|j: int| 0 <= j < w ==> mix@[j] == fnv_mix(old(mix)@[j], le32(dataset@, 128 * p + 4 * j)),
            forall|j: int| w <= j < 32 ==> mix@[j] == old(mix)@[j],
        decreases 32 - w,
    {
        let word = fnv(mix[w], read_u32_le(dataset, ITEM_SIZE * p + 4 * w));
        mix.set(w, word);
        w += 1;
    }
    assert(mix@ =~= Seq::new(32, |w: int| fnv_mix(old(mix)@[w], le32(dataset@, 128 * p + 4 * w))));
}

fn fold(seed: &[u8; 32], mix: &Vec<u32>) -> (r: Vec<u8>)
    requires
        mix@.len() == 32,
    ensures
        r@ == seed@ + words_bytes(folded(mix@)),
{
    let mut out: Vec<u8> = Vec::with_capacity(64);
    out.extend_from_slice(seed);
    let mut i: usize = 0;
    assert(folded(mix@).take(0) =~= Seq::empty());
    assert(out@ =~= seed@ + words_bytes(folded(mix@).take(0)));
    while i < 8
        invariant
            i <= 8,
            mix@.len() == 32,
            out@ == seed@ + words_bytes(folded(mix@).take(i as int)),
        decreases 8 - i,
    {
        let word = fnv(fnv(fnv(mix[4 * i], mix[4 * i + 1]), mix[4 * i + 2]), mix[4 * i + 3]);
        push_u32_le(&mut out, word);
        proof {
            let f = folded(mix@);
            assert(f.take(i + 1).drop_last() =~= f.take(i as int));
            assert(out@ =~= seed@ + words_bytes(f.take(i + 1)));
        }
        i += 1;
    }
    assert(folded(mix@).take(8) =~= folded(mix@));
    out
}

/// OndrisHash of a header and a nonce over the epoch's dataset. `header_bytes`
/// is the header without the nonce, which is appended here. The result is the one that
/// `ondris_hash_ref` computes without the `blake3` crate.
pub fn ondris_hash(header_bytes: &[u8], nonce: u64, dataset: &Dataset) -> (r: Hash256)
    requires
        dataset.wf(),
    ensures
        r@ == ondris_digest(header_bytes@, nonce, dataset@, ACCESSES as nat),
        r@ == reference_digest(header_bytes@, nonce, dataset@, ACCESSES as nat),
{
    ondris_hash_with_accesses(header_bytes, nonce, dataset, ACCESSES)
}

/// The same with another number of accesses.
pub fn ondris_hash_with_accesses(header_bytes: &[u8], nonce: u64, dataset: &Dataset, accesses: usize) -> (r: Hash256)
    requires
        dataset.wf(),
    ensures
        r@ == ondris_digest(header_bytes@, nonce, dataset@, accesses as nat),
        r@ == reference_digest(header_bytes@, nonce, dataset@, accesses as nat),
{
    let mut input: Vec<u8> = Vec::with_capacity(header_bytes.len());
    input.extend_from_slice(header_bytes);
    assert(input@ =~= header_bytes@);
    push_u64_le(&mut input, nonce);
    let seed = blake3_hash(&input);
    let mut start: Vec<u8> = vec![0u8; ITEM_SIZE];
    xof_fill(&seed, &mut start);
    let last = mix_and_fold(&seed, &start, dataset.bytes(), accesses);
    Hash256::hash(&last)
}

/// Whether a hash meets a target: as 256-bit integers, it is at most the target.
pub fn meets_target(hash: &Hash256, target_be: &[u8; 32]) -> (r: bool)
    ensures
        r == (be_value(hash@) <= be_value(target_be@)),
{
    !be_less(target_be, &hash.0)
}

} // verus!
