//! The search for a nonce, on the CPU and with a GPU's help.

use crate::bytes::{
    be_value, le32, le_bytes, le_value, lemma_le_bytes_len, lemma_u64_le_round_trip, read_u32_le, read_u64_le,
};
use crate::header::{pow_bytes, BlockHeader};
use crate::pow::{
    dataset_bytes, epoch_seed, meets_target, ondris_digest, ondris_hash, seed_of_epoch, Dataset, ACCESSES, CACHE_SIZE,
    DATASET_SIZE,
};
use crate::primitives::Hash256;
use std::sync::Arc;
use vstd::prelude::*;

verus! {

/// The length of the input buffer in the GPU kernel, which takes a header and its
/// nonce.
pub const KERNEL_INPUT_LEN: usize = 144;

/// Whether a nonce solves a header for a target.
pub open spec fn solves(header: Seq<u8>, nonce: u64, dataset: Seq<u8>, target: Seq<u8>) -> bool {
    be_value(ondris_digest(header, nonce, dataset, ACCESSES as nat)) <= be_value(target)
}

/// The nonce after `n` steps of `stride` from `start`, counted round at the end.
pub open spec fn nonce_after(start: u64, stride: u64, n: nat) -> u64
    decreases n,
{
    if n == 0 {
        start
    } else {
        nonce_after(start, stride, (n - 1) as nat).wrapping_add(stride)
    }
}

/// What came of a search.
#[derive(Clone, Copy, Debug, PartialEq, Eq, Structural)]
pub enum Search {
    Found(u64),
    /// Nothing yet; the search goes on at this nonce.
    GoOn(u64),
}

/// Whether `r` is what a search of `attempts` nonces gives, with `solves` for what counts
/// as found.
pub open spec fn searched(
    header: Seq<u8>,
    start: u64,
    stride: u64,
    attempts: u64,
    target: Seq<u8>,
    dataset: Seq<u8>,
    r: Search,
) -> bool {
    match r {
        Search::Found(nonce) => exists|n: nat|
            {
                &&& n < attempts
                &&& nonce == #[trigger] nonce_after(start, stride, n)
                &&& solves(header, nonce, dataset, target)
                &&& forall|m: nat| m < n ==> !solves(header, #[trigger] nonce_after(start, stride, m), dataset, target)
            },
        Search::GoOn(nonce) => {
            &&& nonce == nonce_after(start, stride, attempts as nat)
            &&& forall|m: nat|
                m < attempts ==> !solves(header, #[trigger] nonce_after(start, stride, m), dataset, target)
        },
    }
}

/// A search finds something exactly where one of the nonces that it goes through solves the
/// header: `start` and those whole strides on from it, `attempts` of them. What it finds is
/// one of these, and where it finds nothing it goes on at the one after.
pub proof fn what_a_search_finds(
    header: Seq<u8>,
    start: u64,
    stride: u64,
    attempts: u64,
    target: Seq<u8>,
    dataset: Seq<u8>,
    r: Search,
    k: nat,
)
    requires
        searched(header, start, stride, attempts, target, dataset, r),
        k < attempts,
    ensures
        r matches Search::Found(nonce) ==> {
            &&& be_value(ondris_digest(header, nonce, dataset, 64)) <= be_value(target)
            &&& exists|n: nat| #![trigger nonce_after(start, stride, n)]
                n < attempts && nonce == (start + n * stride) % 0x1_0000_0000_0000_0000
        },
        r matches Search::GoOn(nonce) ==> {
            &&& nonce == (start + attempts * stride) % 0x1_0000_0000_0000_0000
            &&& be_value(
                ondris_digest(header, ((start + k * stride) % 0x1_0000_0000_0000_0000) as u64, dataset, 64),
            ) > be_value(target)
        },
{
    nonces_are_a_stride_apart(start, stride, attempts as nat);
    nonces_are_a_stride_apart(start, stride, k);
    match r {
        Search::Found(nonce) => {
            let n = choose|n: nat|
                {
                    &&& n < attempts
                    &&& nonce == #[trigger] nonce_after(start, stride, n)
                    &&& solves(header, nonce, dataset, target)
                    &&& forall|m: nat|
                        m < n ==> !solves(header, #[trigger] nonce_after(start, stride, m), dataset, target)
                };
            nonces_are_a_stride_apart(start, stride, n);
        },
        Search::GoOn(_) => {
            assert(!solves(header, nonce_after(start, stride, k), dataset, target));
        },
    }
}

/// Tries `attempts` nonces: `start`, and on in steps of `stride`. The first that
/// meets the target is found. Several searchers share the nonces by starting one
/// apart from each other with their number as the stride.
pub fn search_nonces(
    header_bytes: &[u8],
    start: u64,
    stride: u64,
    attempts: u64,
    target: &[u8; 32],
    dataset: &Dataset,
) -> (r: Search)
    requires
        dataset.wf(),
    ensures
        searched(header_bytes@, start, stride, attempts, target@, dataset@, r),
        match r {
            Search::Found(nonce) => exists|n: nat|
                {
                    &&& n < attempts
                    &&& nonce == #[trigger] nonce_after(start, stride, n)
                    &&& solves(header_bytes@, nonce, dataset@, target@)
                    &&& forall|m: nat|
                        m < n ==> !solves(header_bytes@, #[trigger] nonce_after(start, stride, m), dataset@, target@)
                },
            Search::GoOn(nonce) => {
                &&& nonce == nonce_after(start, stride, attempts as nat)
                &&& forall|m: nat|
                    m < attempts ==> !solves(header_bytes@, #[trigger] nonce_after(start, stride, m), dataset@, target@)
            },
        },
{
    let mut nonce: u64 = start;
    let mut n: u64 = 0;
    while n < attempts
        invariant
            n <= attempts,
            dataset.wf(),
            nonce == nonce_after(start, stride, n as nat),
            forall|m: nat|
                m < n ==> !solves(header_bytes@, #[trigger] nonce_after(start, stride, m), dataset@, target@),
        decreases attempts - n,
    {
        let hash = ondris_hash(header_bytes, nonce, dataset);
        if meets_target(&hash, target) {
            return Search::Found(nonce);
        }
        nonce = nonce.wrapping_add(stride);
        n += 1;
    }
    Search::GoOn(nonce)
}

/// What came of a batch of nonces on a GPU.
#[derive(Clone, Copy, Debug, PartialEq, Eq, Structural)]
pub enum Batch {
    Found(u64),
    /// Nothing yet; the next batch begins at this nonce.
    GoOn(u64),
    /// Nothing, and no nonce is left.
    Exhausted,
}

/// What comes of a batch of nonces from `nonce_base`, given what a GPU reported for it.
pub open spec fn batch_outcome(
    header: Seq<u8>,
    nonce_base: u64,
    batch_size: u64,
    reported: Option<u64>,
    target: Seq<u8>,
    dataset: Seq<u8>,
) -> Batch {
    match reported {
        Some(nonce) if solves(header, nonce, dataset, target) => Batch::Found(nonce),
        _ => if nonce_base + batch_size <= u64::MAX {
            Batch::GoOn((nonce_base + batch_size) as u64)
        } else {
            Batch::Exhausted
        },
    }
}

/// A GPU is never trusted: what is found was reported and solves the header, a report that
/// solves it is always taken up, and one that does not counts as none. Nonces are gone
/// through batch by batch until there are no more.
pub proof fn a_gpu_is_never_trusted(
    header: Seq<u8>,
    nonce_base: u64,
    batch_size: u64,
    reported: Option<u64>,
    target: Seq<u8>,
    dataset: Seq<u8>,
    nonce: u64,
)
    ensures
        ({
            let outcome = batch_outcome(header, nonce_base, batch_size, reported, target, dataset);
            let unreported = batch_outcome(header, nonce_base, batch_size, None, target, dataset);
            let solution = be_value(ondris_digest(header, nonce, dataset, 64)) <= be_value(target);
            &&& outcome == Batch::Found(nonce) <==> reported == Some(nonce) && solution
            &&& reported == Some(nonce) && !solution ==> outcome == unreported
            &&& unreported == Batch::GoOn(nonce) <==> nonce == nonce_base + batch_size
            &&& unreported == Batch::Exhausted <==> nonce_base + batch_size > u64::MAX
        }),
{
}

/// Takes up what a GPU reported for the batch of nonces from `nonce_base`. A
/// reported nonce is hashed again here and only then believed; a false report is
/// passed over like none.
pub fn confirm_batch(
    header_bytes: &[u8],
    nonce_base: u64,
    batch_size: u64,
    reported: Option<u64>,
    target: &[u8; 32],
    dataset: &Dataset,
) -> (r: Batch)
    requires
        dataset.wf(),
    ensures
        r == batch_outcome(header_bytes@, nonce_base, batch_size, reported, target@, dataset@),
        r == (match reported {
            Some(nonce) if solves(header_bytes@, nonce, dataset@, target@) => Batch::Found(nonce),
            _ => if nonce_base + batch_size <= u64::MAX {
                Batch::GoOn((nonce_base + batch_size) as u64)
            } else {
                Batch::Exhausted
            },
        }),
{
    match reported {
        Some(nonce) => {
            let hash = ondris_hash(header_bytes, nonce, dataset);
            if meets_target(&hash, target) {
                return Batch::Found(nonce);
            }
        },
        None => {},
    }
    match nonce_base.checked_add(batch_size) {
        Some(next) => Batch::GoOn(next),
        None => Batch::Exhausted,
    }
}

/// What two result buffers of a kernel say.
pub open spec fn nonce_in(found: Seq<u8>, nonce: Seq<u8>) -> Option<u64> {
    if le32(found, 0) != 0 {
        Some(le_value(nonce) as u64)
    } else {
        None
    }
}

/// A kernel reports a nonce where a byte of its flag is set, and then the one whose bytes
/// it wrote, least significant first.
pub proof fn what_a_kernel_reports(found: Seq<u8>, nonce: u64)
    requires
        found.len() == 4,
    ensures
        nonce_in(found, le_bytes(nonce as nat, 8)) == if found[0] == 0 && found[1] == 0 && found[2] == 0 && found[3] == 0 {
            None::<u64>
        } else {
            Some(nonce)
        },
{
    lemma_u64_le_round_trip(nonce);
}

/// What the kernel's two result buffers say: the nonce, where the flag is set.
pub fn reported_nonce(found: &[u8; 4], nonce: &[u8; 8]) -> (r: Option<u64>)
    ensures
        r == nonce_in(found@, nonce@),
        r == (if le32(found@, 0) != 0 { Some(le_value(nonce@) as u64) } else { None }),
{
    if read_u32_le(found, 0) == 0 {
        return None;
    }
    assert(nonce@.subrange(0, 8) =~= nonce@);
    Some(read_u64_le(nonce, 0))
}

/// The dataset for a piece of work: the one at hand where it is of the same epoch,
/// else one grown from the epoch's boundary hash, which is then at hand. Says whether
/// it is new.
pub fn dataset_for_work(
    at_hand: &mut Option<(u64, Arc<Dataset>)>,
    epoch: u64,
    boundary_hash: Option<Hash256>,
) -> (r: (Arc<Dataset>, bool))
    requires
        *old(at_hand) matches Some((old_epoch, dataset)) ==> (*dataset).wf() && (*dataset).epoch_index() == old_epoch,
    ensures
        (*r.0).wf(),
        (*r.0).epoch_index() == epoch,
        *final(at_hand) == Some((epoch, r.0)),
        match *old(at_hand) {
            Some((old_epoch, dataset)) if old_epoch == epoch => r == (dataset, false),
            _ => r.1 && (*r.0)@ == dataset_bytes(
                seed_of_epoch(boundary_hash),
                CACHE_SIZE as nat,
                DATASET_SIZE as nat,
            ),
        },
{
    match at_hand {
        Some((old_epoch, dataset)) => {
            if *old_epoch == epoch {
                return (dataset.clone(), false);
            }
        },
        None => {},
    }
    let dataset = Arc::new(Dataset::generate(epoch, epoch_seed(boundary_hash)));
    *at_hand = Some((epoch, dataset.clone()));
    (dataset, true)
}

/// Whether a header of this length and its nonce fit the kernel's input buffer.
pub fn fits_kernel(header_len: usize) -> (r: bool)
    ensures
        r == (header_len + 8 <= KERNEL_INPUT_LEN),
        r == (header_len + 8 <= 144),
{
    header_len <= KERNEL_INPUT_LEN - 8
}

/// Every block header fits the kernel's input buffer.
pub proof fn headers_fit_the_kernel(header: BlockHeader)
    ensures
        pow_bytes(header).len() + 8 <= KERNEL_INPUT_LEN,
{
    lemma_le_bytes_len(header.height as nat, 8);
    lemma_le_bytes_len(header.timestamp as nat, 8);
    lemma_le_bytes_len(header.difficulty as nat, 8);
}

/// The nonce after `n` steps lies `n` strides on from the first, counted round at the end
/// of 64 bits.
pub proof fn nonces_are_a_stride_apart(start: u64, stride: u64, n: nat)
    ensures
        nonce_after(start, stride, n) == (start + n * stride) % 0x1_0000_0000_0000_0000,
    decreases n,
{
    let m = 0x1_0000_0000_0000_0000int;
    if n == 0 {
        assert(n * stride == 0) by (nonlinear_arith)
            requires
                n == 0,
        ;
    } else {
        let before = (n - 1) as nat;
        nonces_are_a_stride_apart(start, stride, before);
        assert(n * stride == before * stride + stride) by (nonlinear_arith)
            requires
                n == before + 1,
        ;
        vstd::arithmetic::div_mod::lemma_add_mod_noop_right(stride as int, start + before * stride, m);
    }
}

/// A nonce solves a header where OndrisHash with 64 accesses, read as an integer, is at
/// most the target.
pub proof fn what_a_solution_is(header: Seq<u8>, nonce: u64, dataset: Seq<u8>, target: Seq<u8>)
    ensures
        solves(header, nonce, dataset, target) <==> be_value(ondris_digest(header, nonce, dataset, 64)) <= be_value(
            target,
        ),
{
}

} // verus!
