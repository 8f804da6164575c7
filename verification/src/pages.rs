//! Page management.
//!
//! Pages are logical data units represented on disk somewhat non-obviously:
//! a cluster holds as many pages as fit once their concatenation is
//! compressed, and a new cluster is fetched from the freelist only when a
//! page no longer fits.  The freelist itself is an unrolled list of
//! metaclusters, whose head doubles as an allocatable cluster when it
//! empties.  The manager queues all its writes on the device pipeline, so a
//! whole batch of operations commits or reverts atomically.

use crate::checksum::{checksum_of, low15, spec_low15, ChecksumAlgorithm};
use crate::cluster::{opt_wf, ptr_word, Pointer};
use crate::codec::{clone_bytes, push_bytes, push_u16_le, push_u64_le, push_zeros, read_u16_at, read_u64_at, spec_u16_at, spec_u64_at, zeros};
use crate::disk::{queued_view, Disk, SECTOR};
use crate::state_block::{spec_encode, CompressionAlgorithm, StateBlock};
use vstd::bytes::{spec_u16_from_le_bytes, spec_u16_to_le_bytes, spec_u64_to_le_bytes};
use vstd::prelude::*;

verus! {

/// The size in bytes of the metacluster header (its checksum).
pub const METACLUSTER_HEADER: usize = 8;

/// The number of pointer slots in a metacluster, the chain-link slot
/// included.
pub const METACLUSTER_CAPACITY: usize = 63;

/// The number of free-pointer slots in a metacluster: every slot but the
/// chain-link slot.
pub const FREELIST_CAPACITY: usize = 62;

/// The size in bytes of the data cluster header.
pub const DATA_CLUSTER_HEADER: usize = 2;

/// The size in bytes of the data cluster's non-header section.
pub const DATA_CLUSTER_SIZE: usize = 510;

/// The size in bytes of a page: a sector less the overhead a higher layer
/// reserves within a page-bearing cluster.
pub const PAGE_SIZE: usize = 504;

/// The sector holding the state block.  Sector zero can never be a cluster,
/// since zero is the null pointer.
pub const STATE_BLOCK_ADDRESS: u64 = 0;

/// A page management error.
#[derive(Clone, Copy, PartialEq, Eq, Structural, Debug)]
pub enum Error {
    /// No clusters left in the freelist.
    OutOfClusters,
    /// The stored and the computed checksum of a cluster disagree.
    ChecksumMismatch {
        /// The cluster whose checksum failed.
        cluster: Pointer,
        /// The checksum stored in the cluster.
        expected: u64,
        /// The checksum computed over the cluster's payload.
        found: u64,
    },
    /// The cluster's payload cannot be decompressed, or does not cover the
    /// requested page.
    InvalidCompression {
        /// The cluster whose payload failed.
        cluster: Pointer,
    },
    /// A device error.
    Disk {
        /// The error the device reported.
        err: crate::disk::Error,
    },
    /// The state block could not be decoded.
    StateBlock {
        /// The error the state-block codec reported.
        cause: crate::state_block::Error,
    },
}

/// A pointer to a page: the owning cluster together with the page's byte
/// range within the cluster's uncompressed contents.
#[derive(Clone, Copy, PartialEq, Eq, Structural, Hash, Debug)]
pub struct PagePointer {
    /// The cluster holding the page.
    pub cluster: Pointer,
    /// The page's byte offset within the cluster's uncompressed contents.
    pub offset: usize,
    /// The page's length in bytes.
    pub len: usize,
}

/// Whether two pages share bytes on disk: same cluster, intersecting
/// ranges.
pub open spec fn pages_overlap(a: PagePointer, b: PagePointer) -> bool {
    a.cluster == b.cluster && a.offset < b.offset + b.len && b.offset < a.offset + a.len
}

/// The bytes that `lz4_compress::compress` produces for an input.
pub uninterp spec fn lz4_of(data: Seq<u8>) -> Seq<u8>;

/// What `lz4_compress::decompress` yields for an input: the decompressed
/// bytes, or nothing when the input is not a well-formed LZ4 stream.
pub uninterp spec fn unlz4_of(data: Seq<u8>) -> Option<Seq<u8>>;

/// Relies on `lz4_compress::compress`: deterministic LZ4 block compression
/// of the input bytes alone, whose output `lz4_compress::decompress`
/// inverts.
#[verifier::external_body]
fn lz4_compress_bytes(data: &[u8]) -> (r: Vec<u8>)
    ensures
        r@ == lz4_of(data@),
        unlz4_of(r@) == Some(data@),
{
    lz4_compress::compress(data)
}

/// Relies on `lz4_compress::decompress`: a deterministic function of the
/// input bytes alone, failing exactly on malformed LZ4 streams.
#[verifier::external_body]
fn lz4_decompress_bytes(data: &[u8]) -> (r: Option<Vec<u8>>)
    ensures
        match r {
            Some(d) => unlz4_of(data@) == Some(d@),
            None => unlz4_of(data@) is None,
        },
{
    match lz4_compress::decompress(data) {
        Ok(d) => Some(d),
        Err(_) => None,
    }
}

/// The bytes the configured algorithm compresses `data` to.
pub open spec fn compress_of(algorithm: CompressionAlgorithm, data: Seq<u8>) -> Seq<u8> {
    match algorithm {
        CompressionAlgorithm::Identity => data,
        CompressionAlgorithm::Lz4 => lz4_of(data),
    }
}

/// What decompressing `data` under the configured algorithm yields.
pub open spec fn decompress_of(algorithm: CompressionAlgorithm, data: Seq<u8>) -> Option<Seq<u8>> {
    match algorithm {
        CompressionAlgorithm::Identity => Some(data),
        CompressionAlgorithm::Lz4 => unlz4_of(data),
    }
}

/// The payload a compressed cluster stores.  An identity "stream" is the
/// bytes themselves; an LZ4 block carries no length of its own, so the
/// stream is prefixed with its two-byte little-endian length, which lets a
/// reader separate it from the sector's zero padding.
pub open spec fn framed_payload(compression: CompressionAlgorithm, comp: Seq<u8>) -> Seq<u8> {
    match compression {
        CompressionAlgorithm::Identity => comp,
        CompressionAlgorithm::Lz4 => spec_u16_to_le_bytes(comp.len() as u16) + comp,
    }
}

/// What decoding a compressed cluster's payload yields: the payload itself
/// under identity, and under LZ4 the decompression of the framed stream —
/// or nothing when the frame or the stream is malformed.
pub open spec fn unframed_decompress(
    compression: CompressionAlgorithm,
    body: Seq<u8>,
) -> Option<Seq<u8>> {
    match compression {
        CompressionAlgorithm::Identity => Some(body),
        CompressionAlgorithm::Lz4 => {
            if body.len() < 2 {
                None
            } else {
                let n = spec_u16_from_le_bytes(body.subrange(0, 2)) as int;
                if 2 + n <= body.len() {
                    unlz4_of(body.subrange(2, 2 + n))
                } else {
                    None
                }
            }
        },
    }
}

/// Build the stored payload from a compressed stream.
fn frame_payload(compression: CompressionAlgorithm, comp: Vec<u8>) -> (r: Vec<u8>)
    requires
        comp@.len() <= 0xFFFF,
    ensures
        r@ == framed_payload(compression, comp@),
{
    match compression {
        CompressionAlgorithm::Identity => comp,
        CompressionAlgorithm::Lz4 => {
            let ghost c = comp@;
            let mut v: Vec<u8> = Vec::new();
            push_u16_le(&mut v, comp.len() as u16);
            let mut tail = comp;
            v.append(&mut tail);
            proof {
                assert(v@ =~= spec_u16_to_le_bytes(c.len() as u16) + c);
            }
            v
        },
    }
}

/// A data cluster's sector: a two-byte header whose low bit is the
/// compression flag and whose remaining fifteen bits are the truncated
/// checksum of the zero-padded payload, followed by that payload.
pub open spec fn packed_sector(
    algorithm: ChecksumAlgorithm,
    compressed: bool,
    payload: Seq<u8>,
) -> Seq<u8> {
    let body = payload + zeros((DATA_CLUSTER_SIZE - payload.len()) as nat);
    let word = (spec_low15(checksum_of(algorithm, body)) << 1) | (if compressed {
        1u16
    } else {
        0u16
    });
    spec_u16_to_le_bytes(word) + body
}

/// Build a data cluster's sector from a payload.
fn pack_sector(algorithm: ChecksumAlgorithm, compressed: bool, payload: &[u8]) -> (r: Vec<u8>)
    requires
        payload@.len() <= DATA_CLUSTER_SIZE,
    ensures
        r@ == packed_sector(algorithm, compressed, payload@),
        r@.len() == SECTOR,
{
    let mut body = clone_bytes(payload);
    push_zeros(&mut body, DATA_CLUSTER_SIZE - payload.len());
    let ghost body_spec = payload@ + zeros((DATA_CLUSTER_SIZE - payload@.len()) as nat);
    proof {
        assert(body@ =~= body_spec);
    }
    let checksum = low15(algorithm.hash(body.as_slice()));
    let flag: u16 = if compressed {
        1
    } else {
        0
    };
    let word: u16 = (checksum << 1) | flag;
    let mut sector: Vec<u8> = Vec::new();
    push_u16_le(&mut sector, word);
    let mut tail = body;
    sector.append(&mut tail);
    proof {
        assert(sector@ =~= packed_sector(algorithm, compressed, payload@));
    }
    sector
}

/// The byte encoding of a sequence of freelist entries, one little-endian
/// pointer each.
pub open spec fn entries_bytes(entries: Seq<Pointer>) -> Seq<u8>
    decreases entries.len(),
{
    if entries.len() == 0 {
        Seq::empty()
    } else {
        entries_bytes(entries.drop_last()) + spec_u64_to_le_bytes(entries.last().spec_val())
    }
}

/// The encoding of `n` entries takes `8 n` bytes.
pub proof fn lemma_entries_bytes_len(entries: Seq<Pointer>)
    ensures
        entries_bytes(entries).len() == 8 * entries.len(),
    decreases entries.len(),
{
    vstd::bytes::lemma_auto_spec_u64_to_from_le_bytes();
    if entries.len() > 0 {
        lemma_entries_bytes_len(entries.drop_last());
    }
}

/// `k` unused pointer slots: the null pointer, `k` times over.
pub open spec fn empty_slots(k: nat) -> Seq<u8>
    decreases k,
{
    if k == 0 {
        Seq::empty()
    } else {
        empty_slots((k - 1) as nat) + spec_u64_to_le_bytes(0)
    }
}

/// `k` unused slots take `8 k` bytes.
pub proof fn lemma_empty_slots_len(k: nat)
    ensures
        empty_slots(k).len() == 8 * k,
    decreases k,
{
    vstd::bytes::lemma_auto_spec_u64_to_from_le_bytes();
    if k > 0 {
        lemma_empty_slots_len((k - 1) as nat);
    }
}

/// The body of a metacluster sector, bytes `8..SECTOR`: the chain-link slot
/// (zero when no chain exists), the free-pointer entries packed
/// consecutively, and zero in the unused slots.
pub open spec fn metacluster_body(chain: Option<Pointer>, entries: Seq<Pointer>) -> Seq<u8> {
    spec_u64_to_le_bytes(ptr_word(chain)) + entries_bytes(entries) + empty_slots(
        (FREELIST_CAPACITY - entries.len()) as nat,
    )
}

/// A full metacluster sector: the checksum of the body, then the body.
pub open spec fn metacluster_sector(
    algorithm: ChecksumAlgorithm,
    chain: Option<Pointer>,
    entries: Seq<Pointer>,
) -> Seq<u8> {
    spec_u64_to_le_bytes(checksum_of(algorithm, metacluster_body(chain, entries)))
        + metacluster_body(chain, entries)
}

/// Encode the head of the freelist into a metacluster sector.
pub fn encode_metacluster(
    algorithm: ChecksumAlgorithm,
    chain: Option<Pointer>,
    entries: &Vec<Pointer>,
) -> (r: Vec<u8>)
    requires
        entries@.len() <= FREELIST_CAPACITY,
    ensures
        r@ == metacluster_sector(algorithm, chain, entries@),
        r@.len() == SECTOR,
{
    let mut body: Vec<u8> = Vec::new();
    push_u64_le(
        &mut body,
        match chain {
            Some(p) => p.get(),
            None => 0,
        },
    );
    let mut i: usize = 0;
    while i < entries.len()
        invariant
            i <= entries@.len(),
            entries@.len() <= FREELIST_CAPACITY,
            body@ == spec_u64_to_le_bytes(ptr_word(chain)) + entries_bytes(
                entries@.subrange(0, i as int),
            ),
            body@.len() == 8 + 8 * i,
        decreases entries@.len() - i,
    {
        proof {
            lemma_entries_bytes_len(entries@.subrange(0, i as int));
        }
        push_u64_le(&mut body, entries[i].get());
        i = i + 1;
        proof {
            let pre = entries@.subrange(0, i - 1);
            let cur = entries@.subrange(0, i as int);
            assert(cur.drop_last() =~= pre);
            assert(cur.last() == entries@[i - 1]);
            assert(body@ =~= spec_u64_to_le_bytes(ptr_word(chain)) + entries_bytes(cur));
        }
    }
    proof {
        assert(entries@.subrange(0, entries@.len() as int) =~= entries@);
        assert(body@ =~= spec_u64_to_le_bytes(ptr_word(chain)) + entries_bytes(entries@)
            + empty_slots(0));
    }
    let pad = FREELIST_CAPACITY - entries.len();
    let mut k: usize = 0;
    while k < pad
        invariant
            k <= pad,
            body@ == spec_u64_to_le_bytes(ptr_word(chain)) + entries_bytes(entries@) + empty_slots(
                k as nat,
            ),
        decreases pad - k,
    {
        push_u64_le(&mut body, 0);
        k = k + 1;
        proof {
            assert(body@ =~= spec_u64_to_le_bytes(ptr_word(chain)) + entries_bytes(entries@)
                + empty_slots(k as nat));
        }
    }
    proof {
        lemma_entries_bytes_len(entries@);
        lemma_empty_slots_len((FREELIST_CAPACITY - entries@.len()) as nat);
        assert(body@ =~= metacluster_body(chain, entries@));
    }
    let checksum = algorithm.hash(body.as_slice());
    let mut sector: Vec<u8> = Vec::new();
    push_u64_le(&mut sector, checksum);
    let mut tail = body;
    sector.append(&mut tail);
    proof {
        assert(sector@ =~= metacluster_sector(algorithm, chain, entries@));
    }
    sector
}

/// The free-pointer entries stored in a metacluster sector from slot `i`
/// on: the pointers of the non-null slots up to the first null slot.
pub open spec fn parse_entries(buf: Seq<u8>, i: nat) -> Seq<Pointer>
    decreases FREELIST_CAPACITY - i,
{
    if i >= FREELIST_CAPACITY {
        Seq::empty()
    } else {
        let word = spec_u64_at(buf, 16 + 8 * i as int);
        if word == 0 {
            Seq::empty()
        } else {
            seq![Pointer::spec_new(word)->Some_0] + parse_entries(buf, i + 1)
        }
    }
}

/// What decoding a metacluster sector yields: the stored and computed
/// checksum on disagreement, and otherwise the chain link and the entries.
pub open spec fn spec_decode_metacluster(buf: Seq<u8>, algorithm: ChecksumAlgorithm) -> Result<
    (Option<Pointer>, Seq<Pointer>),
    (u64, u64),
> {
    let expected = spec_u64_at(buf, 0);
    let found = checksum_of(algorithm, buf.subrange(8, SECTOR as int));
    if expected != found {
        Err((expected, found))
    } else {
        Ok((Pointer::spec_new(spec_u64_at(buf, 8)), parse_entries(buf, 0)))
    }
}

/// Decode a metacluster sector: verify the checksum, read the chain link,
/// and collect the entries up to the first null slot.
pub fn decode_metacluster(buf: &[u8], algorithm: ChecksumAlgorithm) -> (r: Result<
    (Option<Pointer>, Vec<Pointer>),
    (u64, u64),
>)
    requires
        buf@.len() == SECTOR,
    ensures
        ({
            let s = spec_decode_metacluster(buf@, algorithm);
            match r {
                Ok((chain, entries)) => (s matches Ok(sp) && chain == sp.0 && entries@ == sp.1
                    && entries@.len() <= FREELIST_CAPACITY && (forall|j: int|
                    0 <= j < entries@.len() ==> (#[trigger] entries@[j]).wf()) && opt_wf(chain)),
                Err(e) => s == Err::<(Option<Pointer>, Seq<Pointer>), (u64, u64)>(e),
            }
        }),
{
    let expected = read_u64_at(buf, 0);
    let body = vstd::slice::slice_subrange(buf, 8, SECTOR);
    let found = algorithm.hash(body);
    if expected != found {
        return Err((expected, found));
    }
    let chain = Pointer::new(read_u64_at(buf, 8));
    let mut entries: Vec<Pointer> = Vec::new();
    let mut i: usize = 0;
    let mut done = false;
    while i < FREELIST_CAPACITY && !done
        invariant
            i <= FREELIST_CAPACITY,
            entries@.len() <= i,
            forall|j: int| 0 <= j < entries@.len() ==> (#[trigger] entries@[j]).wf(),
            buf@.len() == SECTOR,
            if done {
                parse_entries(buf@, 0) == entries@
            } else {
                parse_entries(buf@, 0) == entries@ + parse_entries(buf@, i as nat)
            },
        decreases FREELIST_CAPACITY - i,
    {
        let word = read_u64_at(buf, 16 + 8 * i);
        match Pointer::new(word) {
            Some(p) => {
                proof {
                    assert(parse_entries(buf@, i as nat) == seq![
                        Pointer::spec_new(word)->Some_0,
                    ] + parse_entries(buf@, (i + 1) as nat));
                    assert((entries@ + parse_entries(buf@, i as nat)) =~= (entries@.push(p)
                        + parse_entries(buf@, (i + 1) as nat)));
                }
                entries.push(p);
            },
            None => {
                proof {
                    assert(parse_entries(buf@, i as nat) =~= Seq::<Pointer>::empty());
                    assert(entries@ + parse_entries(buf@, i as nat) =~= entries@);
                }
                done = true;
            },
        }
        i = i + 1;
    }
    proof {
        if !done {
            assert(parse_entries(buf@, i as nat) =~= Seq::<Pointer>::empty());
            assert(entries@ + parse_entries(buf@, i as nat) =~= entries@);
        }
    }
    Ok((chain, entries))
}

/// The bytes of entry `i` within the packed entries.
proof fn lemma_entries_bytes_at(entries: Seq<Pointer>, i: int)
    requires
        0 <= i < entries.len(),
    ensures
        entries_bytes(entries).subrange(8 * i, 8 * i + 8) == spec_u64_to_le_bytes(
            entries[i].spec_val(),
        ),
    decreases entries.len(),
{
    vstd::bytes::lemma_auto_spec_u64_to_from_le_bytes();
    lemma_entries_bytes_len(entries);
    lemma_entries_bytes_len(entries.drop_last());
    if i == entries.len() - 1 {
        assert(entries_bytes(entries).subrange(8 * i, 8 * i + 8) =~= spec_u64_to_le_bytes(
            entries.last().spec_val(),
        ));
    } else {
        lemma_entries_bytes_at(entries.drop_last(), i);
        assert(entries_bytes(entries).subrange(8 * i, 8 * i + 8) =~= entries_bytes(
            entries.drop_last(),
        ).subrange(8 * i, 8 * i + 8));
        assert(entries.drop_last()[i] == entries[i]);
    }
}

/// Each unused slot holds the null pointer.
proof fn lemma_empty_slots_at(k: nat, j: int)
    requires
        0 <= j < k,
    ensures
        empty_slots(k).subrange(8 * j, 8 * j + 8) == spec_u64_to_le_bytes(0),
    decreases k,
{
    vstd::bytes::lemma_auto_spec_u64_to_from_le_bytes();
    lemma_empty_slots_len(k);
    lemma_empty_slots_len((k - 1) as nat);
    if j == k - 1 {
        assert(empty_slots(k).subrange(8 * j, 8 * j + 8) =~= spec_u64_to_le_bytes(0));
    } else {
        lemma_empty_slots_at((k - 1) as nat, j);
        assert(empty_slots(k).subrange(8 * j, 8 * j + 8) =~= empty_slots((k - 1) as nat).subrange(
            8 * j,
            8 * j + 8,
        ));
    }
}

/// The word stored in pointer slot `i` of an encoded metacluster sector:
/// the `i`-th entry, or zero past the entries.
proof fn lemma_metacluster_slot(
    algorithm: ChecksumAlgorithm,
    chain: Option<Pointer>,
    entries: Seq<Pointer>,
    i: int,
)
    requires
        entries.len() <= FREELIST_CAPACITY,
        0 <= i < FREELIST_CAPACITY,
    ensures
        spec_u64_at(metacluster_sector(algorithm, chain, entries), 16 + 8 * i) == if i
            < entries.len() {
            entries[i].spec_val()
        } else {
            0
        },
{
    vstd::bytes::lemma_auto_spec_u64_to_from_le_bytes();
    lemma_entries_bytes_len(entries);
    lemma_empty_slots_len((FREELIST_CAPACITY - entries.len()) as nat);
    let s = metacluster_sector(algorithm, chain, entries);
    if i < entries.len() {
        lemma_entries_bytes_at(entries, i);
        assert(s.subrange(16 + 8 * i, 16 + 8 * i + 8) =~= entries_bytes(entries).subrange(
            8 * i,
            8 * i + 8,
        ));
    } else {
        lemma_empty_slots_at((FREELIST_CAPACITY - entries.len()) as nat, i - entries.len());
        assert(s.subrange(16 + 8 * i, 16 + 8 * i + 8) =~= empty_slots(
            (FREELIST_CAPACITY - entries.len()) as nat,
        ).subrange(8 * (i - entries.len()), 8 * (i - entries.len()) + 8));
    }
}

/// Parsing the pointer slots of an encoded metacluster from slot `i` on
/// yields the entries from `i` on.
proof fn lemma_parse_encoded(
    algorithm: ChecksumAlgorithm,
    chain: Option<Pointer>,
    entries: Seq<Pointer>,
    i: nat,
)
    requires
        entries.len() <= FREELIST_CAPACITY,
        i <= entries.len(),
        forall|j: int| 0 <= j < entries.len() ==> (#[trigger] entries[j]).wf(),
    ensures
        parse_entries(metacluster_sector(algorithm, chain, entries), i) == entries.skip(i as int),
    decreases FREELIST_CAPACITY - i,
{
    let s = metacluster_sector(algorithm, chain, entries);
    if i >= FREELIST_CAPACITY {
        assert(entries.skip(i as int) =~= Seq::<Pointer>::empty());
    } else {
        lemma_metacluster_slot(algorithm, chain, entries, i as int);
        let word = spec_u64_at(s, 16 + 8 * i as int);
        if i < entries.len() {
            crate::cluster::lemma_wf_nonzero(entries[i as int]);
            crate::cluster::lemma_ptr_word_new(Some(entries[i as int]));
            lemma_parse_encoded(algorithm, chain, entries, i + 1);
            assert(parse_entries(s, i) == seq![entries[i as int]] + entries.skip(i as int + 1));
            assert(seq![entries[i as int]] + entries.skip(i as int + 1) =~= entries.skip(i as int));
        } else {
            assert(word == 0);
            assert(entries.skip(i as int) =~= Seq::<Pointer>::empty());
        }
    }
}

/// Round trip: decoding an encoded metacluster yields the chain link and
/// the entries themselves, whatever checksum algorithm is configured.
pub proof fn lemma_metacluster_round_trip(
    algorithm: ChecksumAlgorithm,
    chain: Option<Pointer>,
    entries: Seq<Pointer>,
)
    requires
        entries.len() <= FREELIST_CAPACITY,
        opt_wf(chain),
        forall|j: int| 0 <= j < entries.len() ==> (#[trigger] entries[j]).wf(),
    ensures
        spec_decode_metacluster(metacluster_sector(algorithm, chain, entries), algorithm) == Ok::<
            (Option<Pointer>, Seq<Pointer>),
            (u64, u64),
        >((chain, entries)),
{
    vstd::bytes::lemma_auto_spec_u64_to_from_le_bytes();
    lemma_entries_bytes_len(entries);
    lemma_empty_slots_len((FREELIST_CAPACITY - entries.len()) as nat);
    let body = metacluster_body(chain, entries);
    let s = metacluster_sector(algorithm, chain, entries);
    assert(s.subrange(0, 8) =~= spec_u64_to_le_bytes(checksum_of(algorithm, body)));
    assert(s.subrange(8, SECTOR as int) =~= body);
    assert(spec_u64_at(s, 0) == checksum_of(algorithm, body));
    assert(s.subrange(8, 16) =~= spec_u64_to_le_bytes(ptr_word(chain)));
    assert(spec_u64_at(s, 8) == ptr_word(chain));
    crate::cluster::lemma_ptr_word_new(chain);
    lemma_parse_encoded(algorithm, chain, entries, 0);
    assert(entries.skip(0) =~= entries);
}

/// The in-memory state of the page manager, at the mathematical level.
pub struct StateModel {
    /// The state block.
    pub state_block: StateBlock,
    /// The free-pointer entries mirroring the head metacluster, top at the
    /// end.
    pub freelist: Seq<Pointer>,
    /// The chain link of the head metacluster: the next metacluster, if one
    /// exists.
    pub chain: Option<Pointer>,
    /// The cluster currently receiving packed pages, if one is open.
    pub last_cluster: Option<Pointer>,
    /// The uncompressed bytes that produced the current contents of the
    /// pack cluster.
    pub last_cluster_data: Seq<u8>,
    /// The pages issued and not yet freed.
    pub live: Seq<PagePointer>,
}

/// The in-memory state of the page manager.
pub struct State {
    /// The state block.
    pub state_block: StateBlock,
    /// The free-pointer entries mirroring the head metacluster, top at the
    /// end.
    pub freelist: Vec<Pointer>,
    /// The chain link of the head metacluster, if a chain exists.
    pub chain: Option<Pointer>,
    /// The cluster currently receiving packed pages, if one is open.
    pub last_cluster: Option<Pointer>,
    /// The uncompressed bytes that produced the current contents of the
    /// pack cluster.
    pub last_cluster_data: Vec<u8>,
    /// The pages issued and not yet freed.
    pub live: Vec<PagePointer>,
}

impl View for State {
    type V = StateModel;

    open spec fn view(&self) -> StateModel {
        StateModel {
            state_block: self.state_block,
            freelist: self.freelist@,
            chain: self.chain,
            last_cluster: self.last_cluster,
            last_cluster_data: self.last_cluster_data@,
            live: self.live@,
        }
    }
}

impl State {
    /// A value copy of the state, for snapshotting at commits and restoring
    /// at reverts.
    pub fn snapshot(&self) -> (r: State)
        ensures
            r@ == self@,
    {
        State {
            state_block: self.state_block,
            freelist: crate::codec::copy_vec(&self.freelist),
            chain: self.chain,
            last_cluster: self.last_cluster,
            last_cluster_data: clone_bytes(self.last_cluster_data.as_slice()),
            live: crate::codec::copy_vec(&self.live),
        }
    }
}

/// Whether some live page resides in cluster `c`.
pub open spec fn live_cluster(live: Seq<PagePointer>, c: Pointer) -> bool {
    exists|i: int| 0 <= i < live.len() && live[i].cluster == c
}

/// Well-formedness of one live page: its cluster is a real cluster of the
/// device, and a page in the open pack cluster lies within the packed
/// bytes.
pub open spec fn live_wf(s: StateModel, size: nat, p: PagePointer) -> bool {
    &&& p.cluster.wf()
    &&& p.cluster.spec_val() < size
    &&& (match s.last_cluster {
        Some(l) => p.cluster == l ==> p.offset + p.len <= s.last_cluster_data.len(),
        None => true,
    })
}

/// A pointer that may enter the freelist: a real cluster that is neither
/// the head metacluster, the chain, the open pack cluster, a live page's
/// cluster, nor already free.
pub open spec fn cluster_free_for_push(s: StateModel, size: nat, c: Pointer) -> bool {
    &&& c.wf()
    &&& c.spec_val() < size
    &&& s.state_block.freelist_head != Some(c)
    &&& s.chain != Some(c)
    &&& s.last_cluster != Some(c)
    &&& !live_cluster(s.live, c)
    &&& !s.freelist.contains(c)
}

/// Well-formedness of the in-memory state against a device of `size`
/// sectors: every pointer names a real cluster, and no cluster plays two
/// roles at once — the invariant that keeps every allocation unique.
pub open spec fn state_wf(s: StateModel, size: nat) -> bool {
    &&& s.state_block.wf()
    &&& opt_wf(s.chain)
    &&& opt_wf(s.last_cluster)
    &&& (s.state_block.freelist_head matches Some(h) ==> h.spec_val() < size && !live_cluster(
        s.live,
        h,
    ) && s.last_cluster != Some(h))
    &&& (s.state_block.freelist_head is None ==> s.freelist.len() == 0 && s.chain is None)
    &&& (s.chain matches Some(c) ==> c.spec_val() < size && !live_cluster(s.live, c)
        && s.state_block.freelist_head != Some(c) && s.last_cluster != Some(c))
    &&& (s.last_cluster matches Some(l) ==> l.spec_val() < size)
    &&& (s.last_cluster is None ==> s.last_cluster_data.len() == 0)
    &&& s.freelist.len() <= FREELIST_CAPACITY
    &&& (forall|i: int|
        0 <= i < s.freelist.len() ==> cluster_free_for_entry(s, size, #[trigger] s.freelist[i]))
    &&& (forall|i: int, j: int|
        0 <= i < j < s.freelist.len() ==> s.freelist[i] != s.freelist[j])
    &&& (forall|i: int| 0 <= i < s.live.len() ==> live_wf(s, size, #[trigger] s.live[i]))
    &&& (forall|i: int, j: int|
        0 <= i < j < s.live.len() ==> !pages_overlap(s.live[i], s.live[j]))
}

/// What holds of each freelist entry: a real cluster playing no other
/// role.
pub open spec fn cluster_free_for_entry(s: StateModel, size: nat, c: Pointer) -> bool {
    &&& c.wf()
    &&& c.spec_val() < size
    &&& s.state_block.freelist_head != Some(c)
    &&& s.chain != Some(c)
    &&& s.last_cluster != Some(c)
    &&& !live_cluster(s.live, c)
}

/// The state and queue after a freelist push: append to the head mirror
/// and flush it, or — when the head is full or absent — start a fresh head
/// metacluster at the pushed cluster, link it to the old head, and flush
/// the new head strictly before the state block.  With the security option
/// a zeroing write for the cluster goes first.
pub open spec fn spec_push(
    s: StateModel,
    c: Pointer,
    algorithm: ChecksumAlgorithm,
    security: bool,
    q: Seq<(u64, Seq<u8>)>,
) -> (StateModel, Seq<(u64, Seq<u8>)>) {
    let q0 = if security {
        q.push((c.spec_val(), zeros(SECTOR as nat)))
    } else {
        q
    };
    if s.freelist.len() < FREELIST_CAPACITY && s.state_block.freelist_head is Some {
        let head = s.state_block.freelist_head->Some_0;
        let s2 = StateModel { freelist: s.freelist.push(c), ..s };
        (s2, q0.push((head.spec_val(), metacluster_sector(algorithm, s.chain, s2.freelist))))
    } else {
        let sb2 = StateBlock { freelist_head: Some(c), ..s.state_block };
        let s2 = StateModel {
            state_block: sb2,
            freelist: Seq::empty(),
            chain: s.state_block.freelist_head,
            ..s
        };
        (
            s2,
            q0.push(
                (
                    c.spec_val(),
                    metacluster_sector(algorithm, s.state_block.freelist_head, Seq::empty()),
                ),
            ).push((STATE_BLOCK_ADDRESS, spec_encode(sb2, algorithm))),
        )
    }
}

/// What holds of each pointer loaded from a chained metacluster before the
/// manager accepts it: a real cluster playing no current role.
pub open spec fn loaded_ptr_ok(
    live: Seq<PagePointer>,
    last_cluster: Option<Pointer>,
    head: Option<Pointer>,
    next: Pointer,
    size: nat,
    p: Pointer,
) -> bool {
    &&& p.wf()
    &&& p.spec_val() < size
    &&& !live_cluster(live, p)
    &&& last_cluster != Some(p)
    &&& head != Some(p)
    &&& p != next
}

/// Whether a loaded metacluster may be installed as the new freelist head:
/// every pointer in it is acceptable and no pointer appears twice.
pub open spec fn loaded_ok(
    live: Seq<PagePointer>,
    last_cluster: Option<Pointer>,
    head: Option<Pointer>,
    next: Pointer,
    size: nat,
    chain2: Option<Pointer>,
    entries2: Seq<Pointer>,
) -> bool {
    &&& entries2.len() <= FREELIST_CAPACITY
    &&& (forall|i: int|
        0 <= i < entries2.len() ==> loaded_ptr_ok(
            live,
            last_cluster,
            head,
            next,
            size,
            #[trigger] entries2[i],
        ))
    &&& (forall|i: int, j: int| 0 <= i < j < entries2.len() ==> entries2[i] != entries2[j])
    &&& (chain2 matches Some(x) ==> loaded_ptr_ok(live, last_cluster, head, next, size, x)
        && !entries2.contains(x))
}

/// The state, popped pointer and queue after a freelist pop.  A pop takes
/// the top entry and flushes the head; when only the chain link remains,
/// the head cluster itself is handed out, the chained metacluster becomes
/// the new head, and a state-block flush is queued; an empty, unchained
/// freelist is out of clusters.
pub open spec fn spec_pop(
    s: StateModel,
    algorithm: ChecksumAlgorithm,
    vis: Seq<Seq<u8>>,
    size: nat,
    q: Seq<(u64, Seq<u8>)>,
) -> Result<(StateModel, Pointer, Seq<(u64, Seq<u8>)>), Error> {
    if s.freelist.len() > 0 {
        let c = s.freelist.last();
        let head = s.state_block.freelist_head->Some_0;
        let s2 = StateModel { freelist: s.freelist.drop_last(), ..s };
        Ok((s2, c, q.push((head.spec_val(), metacluster_sector(algorithm, s.chain, s2.freelist)))))
    } else if s.chain is Some {
        let next = s.chain->Some_0;
        match spec_decode_metacluster(vis[next.spec_val() as int], algorithm) {
            Err((expected, found)) => Err(Error::ChecksumMismatch { cluster: next, expected, found }),
            Ok((chain2, entries2)) => {
                if loaded_ok(
                    s.live,
                    s.last_cluster,
                    s.state_block.freelist_head,
                    next,
                    size,
                    chain2,
                    entries2,
                ) {
                    let freed = s.state_block.freelist_head->Some_0;
                    let sb2 = StateBlock { freelist_head: Some(next), ..s.state_block };
                    let s2 = StateModel {
                        state_block: sb2,
                        freelist: entries2,
                        chain: chain2,
                        ..s
                    };
                    Ok((s2, freed, q.push((STATE_BLOCK_ADDRESS, spec_encode(sb2, algorithm)))))
                } else {
                    Err(Error::Disk { err: crate::disk::Error { sector: next.spec_val() } })
                }
            },
        }
    } else {
        Err(Error::OutOfClusters)
    }
}

/// Whether an option holds exactly the pointer `c`.
fn opt_is_ptr(o: Option<Pointer>, c: Pointer) -> (b: bool)
    ensures
        b == (o == Some(c)),
{
    match o {
        Some(x) => x == c,
        None => false,
    }
}

/// Whether some live page resides in cluster `c`.
fn live_has_cluster(live: &Vec<PagePointer>, c: Pointer) -> (b: bool)
    ensures
        b == live_cluster(live@, c),
{
    let mut i: usize = 0;
    while i < live.len()
        invariant
            i <= live@.len(),
            forall|j: int| 0 <= j < i ==> (#[trigger] live@[j]).cluster != c,
        decreases live@.len() - i,
    {
        if live[i].cluster == c {
            proof {
                assert(live@[i as int].cluster == c);
            }
            return true;
        }
        i = i + 1;
    }
    proof {
        assert(!live_cluster(live@, c));
    }
    false
}

/// Whether the vector holds the pointer `c`.
fn vec_contains_ptr(v: &Vec<Pointer>, c: Pointer) -> (b: bool)
    ensures
        b == v@.contains(c),
{
    let mut i: usize = 0;
    while i < v.len()
        invariant
            i <= v@.len(),
            forall|j: int| 0 <= j < i ==> v@[j] != c,
        decreases v@.len() - i,
    {
        if v[i] == c {
            proof {
                assert(v@[i as int] == c);
            }
            return true;
        }
        i = i + 1;
    }
    false
}

/// Whether no pointer appears twice in the vector.
fn ptrs_distinct(v: &Vec<Pointer>) -> (b: bool)
    ensures
        b == (forall|i: int, j: int| 0 <= i < j < v@.len() ==> v@[i] != v@[j]),
{
    let mut j: usize = 0;
    while j < v.len()
        invariant
            j <= v@.len(),
            forall|x: int, y: int| 0 <= x < y < j ==> v@[x] != v@[y],
        decreases v@.len() - j,
    {
        let mut i: usize = 0;
        while i < j
            invariant
                i <= j,
                j < v@.len(),
                forall|x: int| 0 <= x < i ==> v@[x] != v@[j as int],
            decreases j - i,
        {
            if v[i] == v[j] {
                proof {
                    assert(v@[i as int] == v@[j as int]);
                }
                return false;
            }
            i = i + 1;
        }
        j = j + 1;
    }
    true
}

/// One exec check of `loaded_ptr_ok`.
fn check_loaded_ptr(
    live: &Vec<PagePointer>,
    last_cluster: Option<Pointer>,
    head: Option<Pointer>,
    next: Pointer,
    size: u64,
    p: Pointer,
) -> (b: bool)
    ensures
        b == loaded_ptr_ok(live@, last_cluster, head, next, size as nat, p),
{
    p.get() < size && !live_has_cluster(live, p) && !opt_is_ptr(last_cluster, p) && !opt_is_ptr(
        head,
        p,
    ) && p != next
}

/// One exec check of `loaded_ok`: whether a loaded metacluster may be
/// installed as the new freelist head.
fn check_loaded(
    live: &Vec<PagePointer>,
    last_cluster: Option<Pointer>,
    head: Option<Pointer>,
    next: Pointer,
    size: u64,
    chain2: Option<Pointer>,
    entries2: &Vec<Pointer>,
) -> (b: bool)
    ensures
        b == loaded_ok(live@, last_cluster, head, next, size as nat, chain2, entries2@),
{
    if entries2.len() > FREELIST_CAPACITY {
        return false;
    }
    let mut i: usize = 0;
    while i < entries2.len()
        invariant
            i <= entries2@.len(),
            forall|j: int|
                0 <= j < i ==> loaded_ptr_ok(
                    live@,
                    last_cluster,
                    head,
                    next,
                    size as nat,
                    #[trigger] entries2@[j],
                ),
        decreases entries2@.len() - i,
    {
        if !check_loaded_ptr(live, last_cluster, head, next, size, entries2[i]) {
            proof {
                assert(!loaded_ptr_ok(
                    live@,
                    last_cluster,
                    head,
                    next,
                    size as nat,
                    entries2@[i as int],
                ));
            }
            return false;
        }
        i = i + 1;
    }
    if !ptrs_distinct(entries2) {
        return false;
    }
    match chain2 {
        Some(x) => check_loaded_ptr(live, last_cluster, head, next, size, x) && !vec_contains_ptr(
            entries2,
            x,
        ),
        None => true,
    }
}

/// The page manager: the device, the current state, and the snapshot taken
/// at the last commit.
pub struct Manager {
    disk: Disk,
    state: State,
    committed_state: State,
    checksum_algorithm: ChecksumAlgorithm,
    security: bool,
}

impl Manager {
    /// The current in-memory state.
    pub closed spec fn model(self) -> StateModel {
        self.state@
    }

    /// The state snapshotted at the last commit.
    pub closed spec fn committed_model(self) -> StateModel {
        self.committed_state@
    }

    /// The configured checksum algorithm.
    pub closed spec fn algo(self) -> ChecksumAlgorithm {
        self.checksum_algorithm
    }

    /// Whether freed clusters are zeroed before entering the freelist.
    pub closed spec fn security_opt(self) -> bool {
        self.security
    }

    /// The underlying device.
    pub closed spec fn spec_disk(self) -> Disk {
        self.disk
    }

    /// The queued writes of the device pipeline.
    pub open spec fn queued(self) -> Seq<(u64, Seq<u8>)> {
        self.spec_disk().queued()
    }

    /// The number of sectors of the device.
    pub open spec fn size(self) -> nat {
        self.spec_disk().spec_size()
    }

    /// Well-formedness: the device is well formed and holds the state
    /// block, and both the current and the committed state are well formed
    /// against it.
    pub open spec fn wf(self) -> bool {
        &&& self.spec_disk().wf()
        &&& self.size() >= 1
        &&& state_wf(self.model(), self.size())
        &&& state_wf(self.committed_model(), self.size())
    }

    /// Queue a write that well-formedness shows to be in range.
    fn queue_write(&mut self, c: u64, data: Vec<u8>)
        requires
            old(self).wf(),
            c < old(self).size(),
            data@.len() == SECTOR,
        ensures
            final(self).wf(),
            final(self).model() == old(self).model(),
            final(self).committed_model() == old(self).committed_model(),
            final(self).algo() == old(self).algo(),
            final(self).security_opt() == old(self).security_opt(),
            final(self).size() == old(self).size(),
            final(self).spec_disk().committed() == old(self).spec_disk().committed(),
            final(self).queued() == old(self).queued().push((c, data@)),
    {
        match self.disk.queue(c, data) {
            Ok(_) => (),
            Err(_) => {
                proof {
                    assert(false);
                }
                unreached()
            },
        }
    }

    /// Queue a state block flush.
    fn queue_state_block_flush(&mut self)
        requires
            old(self).wf(),
        ensures
            final(self).wf(),
            final(self).model() == old(self).model(),
            final(self).committed_model() == old(self).committed_model(),
            final(self).algo() == old(self).algo(),
            final(self).security_opt() == old(self).security_opt(),
            final(self).size() == old(self).size(),
            final(self).spec_disk().committed() == old(self).spec_disk().committed(),
            final(self).queued() == old(self).queued().push(
                (
                    STATE_BLOCK_ADDRESS,
                    spec_encode(old(self).model().state_block, old(self).algo()),
                ),
            ),
    {
        let sector = self.state.state_block.encode(self.checksum_algorithm);
        self.queue_write(STATE_BLOCK_ADDRESS, sector);
    }

    /// Queue a freelist head flush: write the head metacluster's sector —
    /// chain link, entries, checksum — to the head cluster.
    fn queue_freelist_head_flush(&mut self)
        requires
            old(self).wf(),
            old(self).model().state_block.freelist_head is Some,
        ensures
            final(self).wf(),
            final(self).model() == old(self).model(),
            final(self).committed_model() == old(self).committed_model(),
            final(self).algo() == old(self).algo(),
            final(self).security_opt() == old(self).security_opt(),
            final(self).size() == old(self).size(),
            final(self).spec_disk().committed() == old(self).spec_disk().committed(),
            final(self).queued() == old(self).queued().push(
                (
                    old(self).model().state_block.freelist_head->Some_0.spec_val(),
                    metacluster_sector(
                        old(self).algo(),
                        old(self).model().chain,
                        old(self).model().freelist,
                    ),
                ),
            ),
    {
        let sector = encode_metacluster(self.checksum_algorithm, self.state.chain, &self.state.freelist);
        let head = match self.state.state_block.freelist_head {
            Some(h) => h,
            None => {
                proof {
                    assert(false);
                }
                unreached()
            },
        };
        self.queue_write(head.get(), sector);
    }

    /// Queue a push of a free cluster onto the freelist.
    ///
    /// When the head mirror has room the cluster is appended and the head
    /// flushed; otherwise the cluster becomes a fresh head metacluster
    /// linked to the old head, and the head flush is queued strictly before
    /// the state-block flush, so that an interruption between the two
    /// leaves only an unreachable cluster, never a dangling pointer.  With
    /// the security option the cluster is zeroed first.
    pub fn queue_freelist_push(&mut self, cluster: Pointer)
        requires
            old(self).wf(),
            cluster_free_for_push(old(self).model(), old(self).size(), cluster),
        ensures
            final(self).wf(),
            final(self).committed_model() == old(self).committed_model(),
            final(self).algo() == old(self).algo(),
            final(self).security_opt() == old(self).security_opt(),
            final(self).size() == old(self).size(),
            final(self).spec_disk().committed() == old(self).spec_disk().committed(),
            ({
                let (s2, q2) = spec_push(
                    old(self).model(),
                    cluster,
                    old(self).algo(),
                    old(self).security_opt(),
                    old(self).queued(),
                );
                final(self).model() == s2 && final(self).queued() == q2
            }),
    {
        if self.security {
            let mut z: Vec<u8> = Vec::new();
            push_zeros(&mut z, SECTOR);
            proof {
                assert(z@ =~= zeros(SECTOR as nat));
            }
            self.queue_write(cluster.get(), z);
        }
        let full = self.state.freelist.len() >= FREELIST_CAPACITY;
        let headless = match self.state.state_block.freelist_head {
            Some(_) => false,
            None => true,
        };
        if !full && !headless {
            self.state.freelist.push(cluster);
            proof {
                let s0 = old(self).model();
                let s2 = self.state@;
                assert forall|i: int| 0 <= i < s2.freelist.len() implies cluster_free_for_entry(
                    s2,
                    self.size(),
                    #[trigger] s2.freelist[i],
                ) by {
                    if i < s0.freelist.len() {
                        assert(cluster_free_for_entry(s0, self.size(), s0.freelist[i]));
                    }
                }
                assert(state_wf(self.state@, self.size()));
            }
            self.queue_freelist_head_flush();
        } else {
            let old_head = self.state.state_block.freelist_head;
            // The new head metacluster starts empty, linked to the old
            // head; its sector is written before the state block points at
            // it.
            let empty_entries: Vec<Pointer> = Vec::new();
            let sector = encode_metacluster(self.checksum_algorithm, old_head, &empty_entries);
            self.queue_write(cluster.get(), sector);
            self.state.freelist.clear();
            self.state.chain = old_head;
            self.state.state_block.freelist_head = Some(cluster);
            proof {
                assert(state_wf(self.state@, self.size()));
            }
            self.queue_state_block_flush();
        }
    }

    /// Queue a pop from the freelist, handing out a free cluster.
    ///
    /// The top entry of the head mirror is returned and the head flushed.
    /// When the mirror is empty and a chain exists, the head cluster itself
    /// is the popped cluster: the chained metacluster is read, verified and
    /// installed as the new head, and a state-block flush is queued.  When
    /// no chain exists the freelist is exhausted.
    pub fn queue_freelist_pop(&mut self) -> (r: Result<Pointer, Error>)
        requires
            old(self).wf(),
        ensures
            final(self).wf(),
            final(self).committed_model() == old(self).committed_model(),
            final(self).algo() == old(self).algo(),
            final(self).security_opt() == old(self).security_opt(),
            final(self).size() == old(self).size(),
            final(self).spec_disk().committed() == old(self).spec_disk().committed(),
            ({
                let pop = spec_pop(
                    old(self).model(),
                    old(self).algo(),
                    old(self).spec_disk().visible(),
                    old(self).size(),
                    old(self).queued(),
                );
                match r {
                    Ok(c) => pop matches Ok(p) && c == p.1
                        && final(self).model() == p.0
                        && final(self).queued() == p.2
                        && c.wf() && c.spec_val() < old(self).size()
                        && !live_cluster(old(self).model().live, c)
                        && old(self).model().last_cluster != Some(c),
                    Err(e) => pop == Err::<(StateModel, Pointer, Seq<(u64, Seq<u8>)>), Error>(e)
                        && final(self).model() == old(self).model()
                        && final(self).queued() == old(self).queued(),
                }
            }),
    {
        if self.state.freelist.len() > 0 {
            let c = match self.state.freelist.pop() {
                Some(c) => c,
                None => {
                    proof {
                        assert(false);
                    }
                    unreached()
                },
            };
            proof {
                let s0 = old(self).model();
                assert(cluster_free_for_entry(s0, self.size(), s0.freelist.last()));
                assert(self.state@.freelist =~= s0.freelist.drop_last());
                let s2 = self.state@;
                assert forall|i: int| 0 <= i < s2.freelist.len() implies cluster_free_for_entry(
                    s2,
                    self.size(),
                    #[trigger] s2.freelist[i],
                ) by {
                    assert(cluster_free_for_entry(s0, self.size(), s0.freelist[i]));
                }
                assert(state_wf(self.state@, self.size()));
            }
            self.queue_freelist_head_flush();
            Ok(c)
        } else {
            let next = match self.state.chain {
                Some(next) => next,
                None => {
                    return Err(Error::OutOfClusters);
                },
            };
            let sector = match self.disk.read(next.get()) {
                Ok(sector) => sector,
                Err(_) => {
                    proof {
                        assert(false);
                    }
                    unreached()
                },
            };
            proof {
                assert(sector@ == old(self).spec_disk().visible()[next.spec_val() as int]);
            }
            let (chain2, entries2) = match decode_metacluster(
                sector.as_slice(),
                self.checksum_algorithm,
            ) {
                Ok(r) => r,
                Err((expected, found)) => {
                    return Err(Error::ChecksumMismatch { cluster: next, expected, found });
                },
            };
            let size = self.disk.size() as u64;
            let head = self.state.state_block.freelist_head;
            if !check_loaded(
                &self.state.live,
                self.state.last_cluster,
                head,
                next,
                size,
                chain2,
                &entries2,
            ) {
                return Err(Error::Disk { err: crate::disk::Error { sector: next.get() } });
            }
            let freed = match self.state.state_block.freelist_head {
                Some(h) => h,
                None => {
                    proof {
                        assert(false);
                    }
                    unreached()
                },
            };
            self.state.state_block.freelist_head = Some(next);
            self.state.chain = chain2;
            self.state.freelist = entries2;
            proof {
                assert(state_wf(self.state@, self.size()));
            }
            self.queue_state_block_flush();
            Ok(freed)
        }
    }
}

/// What reading a page yields: the device error for a pointer beyond the
/// device; the checksum failure when the stored truncated checksum and the
/// recomputed one disagree; the decompression failure when the payload
/// cannot be decompressed or does not cover the page; and otherwise the
/// page's slice of the cluster's decoded contents.
pub open spec fn spec_read(
    algorithm: ChecksumAlgorithm,
    compression: CompressionAlgorithm,
    vis: Seq<Seq<u8>>,
    size: nat,
    page: PagePointer,
) -> Result<Seq<u8>, Error> {
    if page.cluster.spec_val() >= size {
        Err(Error::Disk { err: crate::disk::Error { sector: page.cluster.spec_val() } })
    } else {
        let s = vis[page.cluster.spec_val() as int];
        let word = spec_u16_at(s, 0);
        let body = s.subrange(DATA_CLUSTER_HEADER as int, SECTOR as int);
        let stored = (word >> 1) as u64;
        let computed = spec_low15(checksum_of(algorithm, body)) as u64;
        if stored != computed {
            Err(Error::ChecksumMismatch { cluster: page.cluster, expected: stored, found: computed })
        } else {
            let decoded = if word & 1 == 1 {
                unframed_decompress(compression, body)
            } else {
                Some(body)
            };
            match decoded {
                None => Err(Error::InvalidCompression { cluster: page.cluster }),
                Some(d) => if page.offset + page.len <= d.len() {
                    Ok(d.subrange(page.offset as int, page.offset + page.len))
                } else {
                    Err(Error::InvalidCompression { cluster: page.cluster })
                },
            }
        }
    }
}

/// The state a manager opens with: the state block decoded from its fixed
/// sector, the freelist mirror loaded from the head metacluster, no open
/// pack cluster and no issued pages.
pub open spec fn spec_open(vis: Seq<Seq<u8>>, size: nat, algorithm: ChecksumAlgorithm) -> Result<
    StateModel,
    Error,
> {
    if size == 0 {
        Err(Error::Disk { err: crate::disk::Error { sector: STATE_BLOCK_ADDRESS } })
    } else {
        match crate::state_block::spec_decode(vis[STATE_BLOCK_ADDRESS as int], algorithm) {
            Err(e) => Err(Error::StateBlock { cause: e }),
            Ok(sb) => match sb.freelist_head {
                None => Ok(
                    StateModel {
                        state_block: sb,
                        freelist: Seq::empty(),
                        chain: None,
                        last_cluster: None,
                        last_cluster_data: Seq::empty(),
                        live: Seq::empty(),
                    },
                ),
                Some(h) => if h.spec_val() >= size {
                    Err(Error::Disk { err: crate::disk::Error { sector: h.spec_val() } })
                } else {
                    match spec_decode_metacluster(vis[h.spec_val() as int], algorithm) {
                        Err((expected, found)) => Err(
                            Error::ChecksumMismatch { cluster: h, expected, found },
                        ),
                        Ok((chain2, entries2)) => if loaded_ok(
                            Seq::empty(),
                            None,
                            Some(h),
                            h,
                            size,
                            chain2,
                            entries2,
                        ) {
                            Ok(
                                StateModel {
                                    state_block: sb,
                                    freelist: entries2,
                                    chain: chain2,
                                    last_cluster: None,
                                    last_cluster_data: Seq::empty(),
                                    live: Seq::empty(),
                                },
                            )
                        } else {
                            Err(Error::Disk { err: crate::disk::Error { sector: h.spec_val() } })
                        },
                    }
                },
            },
        }
    }
}

/// The index of the first live entry equal to `page`, from position `i`
/// on; the length when none is.
pub open spec fn first_page_index(live: Seq<PagePointer>, page: PagePointer, i: nat) -> nat
    decreases live.len() - i,
{
    if i >= live.len() {
        live.len()
    } else if live[i as int] == page {
        i
    } else {
        first_page_index(live, page, i + 1)
    }
}

/// The state and queue after freeing a page: the page leaves the live set,
/// and when its cluster holds no further live page the cluster is pushed
/// onto the freelist, the open pack cluster being closed first if it is the
/// one freed.
pub open spec fn spec_free(
    s: StateModel,
    page: PagePointer,
    algorithm: ChecksumAlgorithm,
    security: bool,
    q: Seq<(u64, Seq<u8>)>,
) -> (StateModel, Seq<(u64, Seq<u8>)>) {
    let i = first_page_index(s.live, page, 0);
    let live2 = s.live.remove(i as int);
    let s2 = StateModel { live: live2, ..s };
    if live_cluster(live2, page.cluster) {
        (s2, q)
    } else {
        let s3 = if s.last_cluster == Some(page.cluster) {
            StateModel { last_cluster: None, last_cluster_data: Seq::empty(), ..s2 }
        } else {
            s2
        };
        spec_push(s3, page.cluster, algorithm, security, q)
    }
}

/// Pushing one more page onto the live set keeps a cluster unoccupied as
/// long as the new page lies elsewhere.
proof fn lemma_live_push(live: Seq<PagePointer>, pp: PagePointer, c: Pointer)
    requires
        !live_cluster(live, c),
        pp.cluster != c,
    ensures
        !live_cluster(live.push(pp), c),
{
    let live2 = live.push(pp);
    assert forall|i: int| 0 <= i < live2.len() implies (#[trigger] live2[i]).cluster != c by {
        if i < live.len() {
            assert(live2[i] == live[i]);
            assert(!(exists|j: int| 0 <= j < live.len() && live[j].cluster == c));
        } else {
            assert(live2[i] == pp);
        }
    }
}

/// Removing a page from the live set keeps every unoccupied cluster
/// unoccupied.
proof fn lemma_live_remove(live: Seq<PagePointer>, i: int, c: Pointer)
    requires
        0 <= i < live.len(),
        !live_cluster(live, c),
    ensures
        !live_cluster(live.remove(i), c),
{
    let live2 = live.remove(i);
    assert forall|k: int| 0 <= k < live2.len() implies (#[trigger] live2[k]).cluster != c by {
        if k < i {
            assert(live2[k] == live[k]);
        } else {
            assert(live2[k] == live[k + 1]);
        }
        assert(!(exists|j: int| 0 <= j < live.len() && live[j].cluster == c));
    }
}

impl Manager {
    /// Calculate the checksum of a buffer under the configured algorithm.
    pub fn checksum(&self, buf: &[u8]) -> (r: u64)
        ensures
            r == checksum_of(self.algo(), buf@),
    {
        self.checksum_algorithm.hash(buf)
    }

    /// Compress a buffer under the configured compression algorithm.
    pub fn compress(&self, source: &[u8]) -> (r: Vec<u8>)
        ensures
            r@ == compress_of(self.model().state_block.compression_algorithm, source@),
            decompress_of(self.model().state_block.compression_algorithm, r@) == Some(source@),
    {
        match self.state.state_block.compression_algorithm {
            CompressionAlgorithm::Identity => clone_bytes(source),
            CompressionAlgorithm::Lz4 => lz4_compress_bytes(source),
        }
    }

    /// Decompress a buffer under the configured compression algorithm;
    /// `None` when the buffer is not a well-formed compressed stream.
    pub fn decompress(&self, source: &[u8]) -> (r: Option<Vec<u8>>)
        ensures
            match r {
                Some(d) => decompress_of(self.model().state_block.compression_algorithm, source@)
                    == Some(d@),
                None => decompress_of(
                    self.model().state_block.compression_algorithm,
                    source@,
                ) is None,
            },
    {
        match self.state.state_block.compression_algorithm {
            CompressionAlgorithm::Identity => Some(clone_bytes(source)),
            CompressionAlgorithm::Lz4 => lz4_decompress_bytes(source),
        }
    }

    /// Commit the queued writes durably and snapshot the state, so that
    /// `revert` can come back to this point.
    pub fn commit(&mut self)
        requires
            old(self).wf(),
        ensures
            final(self).wf(),
            final(self).model() == old(self).model(),
            final(self).committed_model() == old(self).model(),
            final(self).algo() == old(self).algo(),
            final(self).security_opt() == old(self).security_opt(),
            final(self).size() == old(self).size(),
            final(self).queued() == Seq::<(u64, Seq<u8>)>::empty(),
            forall|x: u64|
                x < old(self).size() ==> #[trigger] final(self).spec_disk().committed()[x as int]
                    == old(self).spec_disk().visible_at(x),
            forall|x: u64|
                x < old(self).size() ==> #[trigger] final(self).spec_disk().visible_at(x)
                    == old(self).spec_disk().visible_at(x),
    {
        self.committed_state = self.state.snapshot();
        self.disk.commit();
    }

    /// Revert to the last commit: restore the snapshotted state and discard
    /// every queued write.
    pub fn revert(&mut self)
        requires
            old(self).wf(),
        ensures
            final(self).wf(),
            final(self).model() == old(self).committed_model(),
            final(self).committed_model() == old(self).committed_model(),
            final(self).algo() == old(self).algo(),
            final(self).security_opt() == old(self).security_opt(),
            final(self).size() == old(self).size(),
            final(self).queued() == Seq::<(u64, Seq<u8>)>::empty(),
            final(self).spec_disk().committed() == old(self).spec_disk().committed(),
            forall|x: u64|
                x < old(self).size() ==> #[trigger] final(self).spec_disk().visible_at(x) == old(
                    self,
                ).spec_disk().committed()[x as int],
    {
        self.state = self.committed_state.snapshot();
        self.disk.revert();
    }

    /// Queue a page allocation.
    ///
    /// The page is appended to the open pack cluster's bytes, and the whole
    /// is compressed.  If it fits in a sector the recompressed cluster is
    /// rewritten in place and the page shares it; otherwise a fresh cluster
    /// is popped from the freelist, the page is stored there uncompressed,
    /// and that cluster becomes the open pack cluster.
    pub fn queue_alloc(&mut self, buf: &[u8]) -> (r: Result<PagePointer, Error>)
        requires
            old(self).wf(),
            buf@.len() <= DATA_CLUSTER_SIZE,
        ensures
            final(self).wf(),
            final(self).committed_model() == old(self).committed_model(),
            final(self).algo() == old(self).algo(),
            final(self).security_opt() == old(self).security_opt(),
            final(self).size() == old(self).size(),
            final(self).spec_disk().committed() == old(self).spec_disk().committed(),
            ({
                let s0 = old(self).model();
                let algorithm = old(self).algo();
                let joined = s0.last_cluster_data + buf@;
                let comp = compress_of(s0.state_block.compression_algorithm, joined);
                let payload = framed_payload(s0.state_block.compression_algorithm, comp);
                if s0.last_cluster is Some && payload.len() + DATA_CLUSTER_HEADER <= SECTOR {
                    let lc = s0.last_cluster->Some_0;
                    r matches Ok(pp) && pp.cluster == lc && pp.offset == s0.last_cluster_data.len()
                        && pp.len == buf@.len()
                        && final(self).model() == (StateModel {
                        last_cluster_data: joined,
                        live: s0.live.push(pp),
                        ..s0
                    })
                        && final(self).queued() == old(self).queued().push(
                        (lc.spec_val(), packed_sector(algorithm, true, payload)),
                    )
                } else {
                    match spec_pop(
                        s0,
                        algorithm,
                        old(self).spec_disk().visible(),
                        old(self).size(),
                        old(self).queued(),
                    ) {
                        Err(e) => r == Err::<PagePointer, Error>(e)
                            && final(self).model() == s0
                            && final(self).queued() == old(self).queued(),
                        Ok(p) => r matches Ok(pp) && pp.cluster == p.1 && pp.offset == 0
                            && pp.len == buf@.len()
                            && final(self).model() == (StateModel {
                            last_cluster: Some(p.1),
                            last_cluster_data: buf@,
                            live: p.0.live.push(pp),
                            ..p.0
                        })
                            && final(self).queued() == p.2.push(
                            (p.1.spec_val(), packed_sector(algorithm, false, buf@)),
                        ),
                    }
                }
            }),
    {
        let mut joined = clone_bytes(self.state.last_cluster_data.as_slice());
        push_bytes(&mut joined, buf);
        let compression = self.state.state_block.compression_algorithm;
        let comp = self.compress(joined.as_slice());
        let fits = match compression {
            CompressionAlgorithm::Identity => comp.len() <= DATA_CLUSTER_SIZE,
            CompressionAlgorithm::Lz4 => comp.len() <= DATA_CLUSTER_SIZE - 2,
        };
        proof {
            vstd::bytes::lemma_auto_spec_u16_to_from_le_bytes();
        }
        let open_cluster = self.state.last_cluster;
        match open_cluster {
            Some(lc) if fits => {
                let payload = frame_payload(compression, comp);
                let sector = pack_sector(self.checksum_algorithm, true, payload.as_slice());
                self.queue_write(lc.get(), sector);
                let pp = PagePointer {
                    cluster: lc,
                    offset: self.state.last_cluster_data.len(),
                    len: buf.len(),
                };
                self.state.last_cluster_data = joined;
                self.state.live.push(pp);
                proof {
                    let s0 = old(self).model();
                    let s2 = self.state@;
                    assert forall|i: int| 0 <= i < s2.freelist.len() implies cluster_free_for_entry(
                        s2,
                        self.size(),
                        #[trigger] s2.freelist[i],
                    ) by {
                        assert(cluster_free_for_entry(s0, self.size(), s0.freelist[i]));
                        lemma_live_push(s0.live, pp, s0.freelist[i]);
                    }
                    if s0.state_block.freelist_head is Some {
                        lemma_live_push(s0.live, pp, s0.state_block.freelist_head->Some_0);
                    }
                    if s0.chain is Some {
                        lemma_live_push(s0.live, pp, s0.chain->Some_0);
                    }
                    assert forall|i: int| 0 <= i < s2.live.len() implies live_wf(
                        s2,
                        self.size(),
                        #[trigger] s2.live[i],
                    ) by {
                        if i < s0.live.len() {
                            assert(s2.live[i] == s0.live[i]);
                            assert(live_wf(s0, self.size(), s0.live[i]));
                        } else {
                            assert(s2.live[i] == pp);
                        }
                    }
                    assert forall|i: int, j: int| 0 <= i < j < s2.live.len() implies !pages_overlap(
                        s2.live[i],
                        s2.live[j],
                    ) by {
                        if j < s0.live.len() {
                            assert(!pages_overlap(s0.live[i], s0.live[j]));
                        } else {
                            assert(s2.live[j] == pp);
                            assert(s2.live[i] == s0.live[i]);
                            assert(live_wf(s0, self.size(), s0.live[i]));
                        }
                    }
                    assert(state_wf(self.state@, self.size()));
                }
                Ok(pp)
            },
            _ => {
                let p = match self.queue_freelist_pop() {
                    Ok(p) => p,
                    Err(e) => {
                        return Err(e);
                    },
                };
                let sector = pack_sector(self.checksum_algorithm, false, buf);
                self.queue_write(p.get(), sector);
                let pp = PagePointer { cluster: p, offset: 0, len: buf.len() };
                self.state.last_cluster = Some(p);
                self.state.last_cluster_data = clone_bytes(buf);
                self.state.live.push(pp);
                proof {
                    let s0 = old(self).model();
                    let s1 = spec_pop(
                        s0,
                        old(self).algo(),
                        old(self).spec_disk().visible(),
                        old(self).size(),
                        old(self).queued(),
                    )->Ok_0.0;
                    let s2 = self.state@;
                    assert forall|i: int| 0 <= i < s2.freelist.len() implies cluster_free_for_entry(
                        s2,
                        self.size(),
                        #[trigger] s2.freelist[i],
                    ) by {
                        assert(cluster_free_for_entry(s1, self.size(), s1.freelist[i]));
                        lemma_live_push(s1.live, pp, s1.freelist[i]);
                    }
                    if s1.state_block.freelist_head is Some {
                        lemma_live_push(s1.live, pp, s1.state_block.freelist_head->Some_0);
                    }
                    if s1.chain is Some {
                        lemma_live_push(s1.live, pp, s1.chain->Some_0);
                    }
                    assert forall|i: int| 0 <= i < s2.live.len() implies live_wf(
                        s2,
                        self.size(),
                        #[trigger] s2.live[i],
                    ) by {
                        if i < s1.live.len() {
                            assert(s2.live[i] == s1.live[i]);
                            assert(live_wf(s1, self.size(), s1.live[i]));
                            assert(s1.live[i].cluster != p);
                        } else {
                            assert(s2.live[i] == pp);
                        }
                    }
                    assert forall|i: int, j: int| 0 <= i < j < s2.live.len() implies !pages_overlap(
                        s2.live[i],
                        s2.live[j],
                    ) by {
                        if j < s1.live.len() {
                            assert(!pages_overlap(s1.live[i], s1.live[j]));
                        } else {
                            assert(s2.live[j] == pp);
                            assert(s2.live[i] == s1.live[i]);
                            assert(s1.live[i].cluster != p);
                        }
                    }
                    assert(state_wf(self.state@, self.size()));
                }
                Ok(pp)
            },
        }
    }

    /// Read a page: fetch its cluster through the cache, verify the
    /// truncated checksum, decompress if the compression flag is set, and
    /// extract the page's slice.
    pub fn read(&self, page: PagePointer) -> (r: Result<Vec<u8>, Error>)
        requires
            self.wf(),
        ensures
            ({
                let sr = spec_read(
                    self.algo(),
                    self.model().state_block.compression_algorithm,
                    self.spec_disk().visible(),
                    self.size(),
                    page,
                );
                match r {
                    Ok(d) => sr matches Ok(sd) && d@ == sd,
                    Err(e) => sr == Err::<Seq<u8>, Error>(e),
                }
            }),
    {
        let sector = match self.disk.read(page.cluster.get()) {
            Ok(s) => s,
            Err(e) => {
                return Err(Error::Disk { err: e });
            },
        };
        proof {
            assert(sector@ == self.spec_disk().visible()[page.cluster.spec_val() as int]);
        }
        let word = read_u16_at(sector.as_slice(), 0);
        let body = vstd::slice::slice_subrange(sector.as_slice(), DATA_CLUSTER_HEADER, SECTOR);
        let stored = (word >> 1) as u64;
        let computed = low15(self.checksum_algorithm.hash(body)) as u64;
        if stored != computed {
            return Err(
                Error::ChecksumMismatch { cluster: page.cluster, expected: stored, found: computed },
            );
        }
        let decoded: Vec<u8> = if word & 1 == 1 {
            match self.state.state_block.compression_algorithm {
                CompressionAlgorithm::Identity => clone_bytes(body),
                CompressionAlgorithm::Lz4 => {
                    if body.len() < 2 {
                        return Err(Error::InvalidCompression { cluster: page.cluster });
                    }
                    let n = read_u16_at(body, 0) as usize;
                    if n > body.len() - 2 {
                        return Err(Error::InvalidCompression { cluster: page.cluster });
                    }
                    let stream = vstd::slice::slice_subrange(body, 2, 2 + n);
                    match lz4_decompress_bytes(stream) {
                        Some(d) => d,
                        None => {
                            return Err(Error::InvalidCompression { cluster: page.cluster });
                        },
                    }
                },
            }
        } else {
            clone_bytes(body)
        };
        let n = decoded.len();
        if page.offset > n || page.len > n - page.offset {
            return Err(Error::InvalidCompression { cluster: page.cluster });
        }
        let part = vstd::slice::slice_subrange(
            decoded.as_slice(),
            page.offset,
            page.offset + page.len,
        );
        Ok(clone_bytes(part))
    }

    /// Queue a free of a page.
    ///
    /// The page leaves the live set; when its cluster holds no further live
    /// page, the cluster goes back onto the freelist.  If the freed cluster
    /// is the open pack cluster, packing starts afresh.
    pub fn queue_free(&mut self, page: PagePointer)
        requires
            old(self).wf(),
            old(self).model().live.contains(page),
        ensures
            final(self).wf(),
            final(self).committed_model() == old(self).committed_model(),
            final(self).algo() == old(self).algo(),
            final(self).security_opt() == old(self).security_opt(),
            final(self).size() == old(self).size(),
            final(self).spec_disk().committed() == old(self).spec_disk().committed(),
            ({
                let (s2, q2) = spec_free(
                    old(self).model(),
                    page,
                    old(self).algo(),
                    old(self).security_opt(),
                    old(self).queued(),
                );
                final(self).model() == s2 && final(self).queued() == q2
            }),
    {
        let ghost s0 = self.state@;
        let mut i: usize = 0;
        while i < self.state.live.len() && self.state.live[i] != page
            invariant
                self.state@ == s0,
                i <= s0.live.len(),
                first_page_index(s0.live, page, 0) == first_page_index(s0.live, page, i as nat),
            decreases s0.live.len() - i,
        {
            i = i + 1;
        }
        let found = i;
        if found >= self.state.live.len() {
            proof {
                assert(first_page_index(s0.live, page, found as nat) == s0.live.len());
                let w = choose|w: int| 0 <= w < s0.live.len() && s0.live[w] == page;
                lemma_first_page_index_finds(s0.live, page, 0);
                assert(false);
            }
            unreached()
        }
        let _ = self.state.live.remove(found);
        proof {
            assert(first_page_index(s0.live, page, found as nat) == found);
            assert(self.state@.live == s0.live.remove(found as int));
        }
        let still = live_has_cluster(&self.state.live, page.cluster);
        if still {
            proof {
                let s2 = self.state@;
                assert forall|k: int| 0 <= k < s2.freelist.len() implies cluster_free_for_entry(
                    s2,
                    self.size(),
                    #[trigger] s2.freelist[k],
                ) by {
                    assert(cluster_free_for_entry(s0, self.size(), s0.freelist[k]));
                    lemma_live_remove(s0.live, found as int, s0.freelist[k]);
                }
                if s0.state_block.freelist_head is Some {
                    lemma_live_remove(s0.live, found as int, s0.state_block.freelist_head->Some_0);
                }
                if s0.chain is Some {
                    lemma_live_remove(s0.live, found as int, s0.chain->Some_0);
                }
                assert forall|k: int| 0 <= k < s2.live.len() implies live_wf(
                    s2,
                    self.size(),
                    #[trigger] s2.live[k],
                ) by {
                    if k < found {
                        assert(s2.live[k] == s0.live[k]);
                        assert(live_wf(s0, self.size(), s0.live[k]));
                    } else {
                        assert(s2.live[k] == s0.live[k + 1]);
                        assert(live_wf(s0, self.size(), s0.live[k + 1]));
                    }
                }
                assert forall|x: int, y: int| 0 <= x < y < s2.live.len() implies !pages_overlap(
                    s2.live[x],
                    s2.live[y],
                ) by {
                    let x0: int = if x < found {
                        x
                    } else {
                        x + 1
                    };
                    let y0: int = if y < found {
                        y
                    } else {
                        y + 1
                    };
                    assert(s2.live[x] == s0.live[x0]);
                    assert(s2.live[y] == s0.live[y0]);
                    assert(!pages_overlap(s0.live[x0], s0.live[y0]));
                }
                assert(state_wf(self.state@, self.size()));
            }
        } else {
            if opt_is_ptr(self.state.last_cluster, page.cluster) {
                self.state.last_cluster = None;
                self.state.last_cluster_data = Vec::new();
            }
            proof {
                let s0l = s0;
                let s3 = self.state@;
                assert forall|k: int| 0 <= k < s3.freelist.len() implies cluster_free_for_entry(
                    s3,
                    self.size(),
                    #[trigger] s3.freelist[k],
                ) by {
                    assert(cluster_free_for_entry(s0l, self.size(), s0l.freelist[k]));
                    lemma_live_remove(s0l.live, found as int, s0l.freelist[k]);
                }
                if s0l.state_block.freelist_head is Some {
                    lemma_live_remove(s0l.live, found as int, s0l.state_block.freelist_head->Some_0);
                }
                if s0l.chain is Some {
                    lemma_live_remove(s0l.live, found as int, s0l.chain->Some_0);
                }
                assert forall|k: int| 0 <= k < s3.live.len() implies live_wf(
                    s3,
                    self.size(),
                    #[trigger] s3.live[k],
                ) by {
                    let k0: int = if k < found {
                        k
                    } else {
                        k + 1
                    };
                    assert(s3.live[k] == s0l.live[k0]);
                    assert(live_wf(s0l, self.size(), s0l.live[k0]));
                }
                assert forall|x: int, y: int| 0 <= x < y < s3.live.len() implies !pages_overlap(
                    s3.live[x],
                    s3.live[y],
                ) by {
                    let x0: int = if x < found {
                        x
                    } else {
                        x + 1
                    };
                    let y0: int = if y < found {
                        y
                    } else {
                        y + 1
                    };
                    assert(s3.live[x] == s0l.live[x0]);
                    assert(s3.live[y] == s0l.live[y0]);
                    assert(!pages_overlap(s0l.live[x0], s0l.live[y0]));
                }
                assert(state_wf(self.state@, self.size()));
                assert(s0.live[found as int] == page);
                assert(live_wf(s0, self.size(), page));
                assert forall|k: int|
                    0 <= k < s0.freelist.len() implies #[trigger] s0.freelist[k] != page.cluster by {
                    assert(cluster_free_for_entry(s0, self.size(), s0.freelist[k]));
                    assert(live_cluster(s0.live, page.cluster));
                }
                if s3.freelist.contains(page.cluster) {
                    let w = choose|w: int|
                        0 <= w < s3.freelist.len() && s3.freelist[w] == page.cluster;
                    assert(s0.freelist[w] != page.cluster);
                }
                assert(cluster_free_for_push(self.state@, self.size(), page.cluster));
            }
            self.queue_freelist_push(page.cluster);
        }
    }
}

impl Manager {
    /// Open a manager on a device: decode the state block from its fixed
    /// sector, load the freelist mirror from the head metacluster, and
    /// start with no open pack cluster and no issued pages.
    pub fn open(disk: Disk, checksum_algorithm: ChecksumAlgorithm, security: bool) -> (r: Result<
        Manager,
        Error,
    >)
        requires
            disk.wf(),
        ensures
            ({
                let so = spec_open(disk.visible(), disk.spec_size(), checksum_algorithm);
                match r {
                    Ok(m) => so matches Ok(s) && m.wf() && m.model() == s
                        && m.committed_model() == s && m.algo() == checksum_algorithm
                        && m.security_opt() == security && m.spec_disk() == disk,
                    Err(e) => so == Err::<StateModel, Error>(e),
                }
            }),
    {
        if disk.size() == 0 {
            return Err(Error::Disk { err: crate::disk::Error { sector: STATE_BLOCK_ADDRESS } });
        }
        let sector0 = match disk.read(STATE_BLOCK_ADDRESS) {
            Ok(s) => s,
            Err(_) => {
                proof {
                    assert(false);
                }
                unreached()
            },
        };
        let sb = match StateBlock::decode(sector0.as_slice(), checksum_algorithm) {
            Ok(sb) => sb,
            Err(e) => {
                return Err(Error::StateBlock { cause: e });
            },
        };
        let mut freelist: Vec<Pointer> = Vec::new();
        let mut chain: Option<Pointer> = None;
        match sb.freelist_head {
            None => {},
            Some(h) => {
                if h.get() >= disk.size() as u64 {
                    return Err(Error::Disk { err: crate::disk::Error { sector: h.get() } });
                }
                let sector = match disk.read(h.get()) {
                    Ok(s) => s,
                    Err(_) => {
                        proof {
                            assert(false);
                        }
                        unreached()
                    },
                };
                match decode_metacluster(sector.as_slice(), checksum_algorithm) {
                    Err((expected, found)) => {
                        return Err(Error::ChecksumMismatch { cluster: h, expected, found });
                    },
                    Ok((chain2, entries2)) => {
                        let live_empty: Vec<PagePointer> = Vec::new();
                        if !check_loaded(
                            &live_empty,
                            None,
                            Some(h),
                            h,
                            disk.size() as u64,
                            chain2,
                            &entries2,
                        ) {
                            return Err(Error::Disk { err: crate::disk::Error { sector: h.get() } });
                        }
                        freelist = entries2;
                        chain = chain2;
                    },
                }
            },
        }
        let state = State {
            state_block: sb,
            freelist,
            chain,
            last_cluster: None,
            last_cluster_data: Vec::new(),
            live: Vec::new(),
        };
        let committed_state = state.snapshot();
        let m = Manager { disk, state, committed_state, checksum_algorithm, security };
        proof {
            let s = m.model();
            if s.chain is Some {
                let x = s.chain->Some_0;
                if s.freelist.contains(x) {
                    let w = choose|w: int| 0 <= w < s.freelist.len() && s.freelist[w] == x;
                    assert(false);
                }
            }
            assert(state_wf(s, m.size()));
        }
        Ok(m)
    }

    /// The number of entries in the in-memory freelist mirror.
    pub fn freelist_len(&self) -> (r: usize)
        ensures
            r == self.model().freelist.len(),
    {
        self.state.freelist.len()
    }

    /// The pointer to the head metacluster, or null.
    pub fn freelist_head(&self) -> (r: Option<Pointer>)
        ensures
            r == self.model().state_block.freelist_head,
    {
        self.state.state_block.freelist_head
    }

    /// The chain link of the head metacluster, if a chain exists.
    pub fn chain_link(&self) -> (r: Option<Pointer>)
        ensures
            r == self.model().chain,
    {
        self.state.chain
    }

    /// The cluster currently receiving packed pages, if one is open.
    pub fn last_cluster(&self) -> (r: Option<Pointer>)
        ensures
            r == self.model().last_cluster,
    {
        self.state.last_cluster
    }

    /// The current state block.
    pub fn state_block(&self) -> (r: StateBlock)
        ensures
            r == self.model().state_block,
    {
        self.state.state_block
    }

    /// The number of writes queued and not yet committed.
    pub fn pending_writes(&self) -> (r: usize)
        ensures
            r == self.queued().len(),
    {
        self.disk.pending()
    }

    /// The number of live pages.
    pub fn live_count(&self) -> (r: usize)
        ensures
            r == self.model().live.len(),
    {
        self.state.live.len()
    }

    /// Read a sector of the device through the cache, as an outside
    /// observer of the image would.
    pub fn read_sector(&self, sector: u64) -> (r: Result<Vec<u8>, crate::disk::Error>)
        requires
            self.wf(),
        ensures
            sector < self.size() ==> (r matches Ok(d) && d@ == self.spec_disk().visible_at(sector)),
            sector >= self.size() ==> r is Err,
    {
        self.disk.read(sector)
    }
}

/// The freelist mirror left standing after `n` pops from its top.
pub open spec fn after_pops(s: Seq<Pointer>, n: nat) -> Seq<Pointer>
    decreases n,
{
    if n == 0 {
        s
    } else {
        after_pops(s, (n - 1) as nat).drop_last()
    }
}

/// Pops take prefixes: `n` pops leave the first `len - n` entries.
proof fn lemma_after_pops_take(s: Seq<Pointer>, n: nat)
    requires
        n <= s.len(),
    ensures
        after_pops(s, n) == s.take((s.len() - n) as int),
    decreases n,
{
    if n == 0 {
        assert(s.take(s.len() as int) =~= s);
    } else {
        lemma_after_pops_take(s, (n - 1) as nat);
        assert(s.take((s.len() - n + 1) as int).drop_last() =~= s.take((s.len() - n) as int));
    }
}

/// Freelist balance: after pushing the pointers of `ps` onto a mirror
/// holding `e`, a run of `ps.len()` pops returns the pushed pointers in
/// LIFO order — the `j`-th pop returns `ps[ps.len() - 1 - j]` — and leaves
/// the mirror exactly as it was.  Each exec push appends one pointer and
/// each exec pop removes and returns the last, as their contracts state,
/// so this pins the balance of any push/pop sequence that stays within one
/// metacluster.
pub proof fn lemma_freelist_balance(e: Seq<Pointer>, ps: Seq<Pointer>)
    ensures
        forall|j: int|
            0 <= j < ps.len() ==> (#[trigger] after_pops(e + ps, j as nat)).last() == ps[ps.len()
                - 1 - j],
        after_pops(e + ps, ps.len()) == e,
{
    let s = e + ps;
    assert forall|j: int|
        0 <= j < ps.len() implies (#[trigger] after_pops(s, j as nat)).last() == ps[ps.len() - 1
        - j] by {
        lemma_after_pops_take(s, j as nat);
        assert(s.take((s.len() - j) as int).last() == s[s.len() - j - 1]);
    }
    lemma_after_pops_take(s, ps.len());
    assert(s.take(e.len() as int) =~= e);
}

/// Allocation uniqueness: in a well-formed manager no two live pages
/// resolve to overlapping byte ranges on disk.
pub proof fn lemma_live_pages_disjoint(m: Manager, i: int, j: int)
    requires
        m.wf(),
        0 <= i < m.model().live.len(),
        0 <= j < m.model().live.len(),
        i != j,
    ensures
        !pages_overlap(m.model().live[i], m.model().live[j]),
{
    if i < j {
        assert(!pages_overlap(m.model().live[i], m.model().live[j]));
    } else {
        assert(!pages_overlap(m.model().live[j], m.model().live[i]));
    }
}

/// Reading back a packed cluster: when a cluster's visible sector is one
/// the packer built — as `queue_alloc`'s contract states of every sector
/// it queues — a read of any page lying within the cluster's decoded
/// contents returns exactly that page's bytes.  Together with the
/// compressor's round-trip contract this closes the loop from an
/// allocation to a read of the same page.
pub proof fn lemma_read_packed(
    algorithm: ChecksumAlgorithm,
    compression: CompressionAlgorithm,
    vis: Seq<Seq<u8>>,
    size: nat,
    page: PagePointer,
    compressed: bool,
    payload: Seq<u8>,
    contents: Seq<u8>,
)
    requires
        page.cluster.spec_val() < size,
        vis[page.cluster.spec_val() as int] == packed_sector(algorithm, compressed, payload),
        payload.len() <= DATA_CLUSTER_SIZE,
        ({
            let body = payload + zeros((DATA_CLUSTER_SIZE - payload.len()) as nat);
            if compressed {
                unframed_decompress(compression, body) == Some(contents)
            } else {
                contents == body
            }
        }),
        page.offset + page.len <= contents.len(),
    ensures
        spec_read(algorithm, compression, vis, size, page) == Ok::<Seq<u8>, Error>(
            contents.subrange(page.offset as int, page.offset + page.len),
        ),
{
    vstd::bytes::lemma_auto_spec_u16_to_from_le_bytes();
    let s = vis[page.cluster.spec_val() as int];
    let body = payload + zeros((DATA_CLUSTER_SIZE - payload.len()) as nat);
    let checksum = spec_low15(checksum_of(algorithm, body));
    let flag: u16 = if compressed {
        1
    } else {
        0
    };
    let word = (checksum << 1) | flag;
    assert(s.subrange(0, 2) =~= spec_u16_to_le_bytes(word));
    assert(spec_u16_at(s, 0) == word);
    assert(s.subrange(DATA_CLUSTER_HEADER as int, SECTOR as int) =~= body);
    assert(checksum < 0x8000) by {
        let full = checksum_of(algorithm, body);
        assert((full & 0x7fff) < 0x8000) by (bit_vector);
    }
    assert(checksum < 0x8000 ==> ((checksum << 1) | 1) >> 1 == checksum && ((checksum << 1) | 0u16)
        >> 1 == checksum && (((checksum << 1) | 1) & 1) == 1 && (((checksum << 1) | 0u16) & 1)
        == 0) by (bit_vector);
}

/// Revert soundness: after a revert, the observable state — the in-memory
/// state and the sectors reads see — is exactly the one at the last
/// commit, whatever operations ran in between.  Every queue operation's
/// contract shows that it leaves the committed state and the durable
/// sectors unchanged; this lemma closes the loop from those preserved
/// facts and revert's own contract to observational equality.
pub proof fn lemma_revert_soundness(
    at_commit: Manager,
    before_revert: Manager,
    after_revert: Manager,
)
    requires
        at_commit.queued().len() == 0,
        at_commit.model() == at_commit.committed_model(),
        before_revert.committed_model() == at_commit.committed_model(),
        before_revert.spec_disk().committed() == at_commit.spec_disk().committed(),
        after_revert.model() == before_revert.committed_model(),
        after_revert.queued().len() == 0,
        after_revert.spec_disk().committed() == before_revert.spec_disk().committed(),
    ensures
        after_revert.model() == at_commit.model(),
        forall|x: u64|
            x < at_commit.size() ==> #[trigger] after_revert.spec_disk().visible_at(x)
                == at_commit.spec_disk().visible_at(x),
{
    assert forall|x: u64|
        x < at_commit.size() implies #[trigger] after_revert.spec_disk().visible_at(x)
        == at_commit.spec_disk().visible_at(x) by {
        assert(queued_view(at_commit.queued(), x) is None);
        assert(queued_view(after_revert.queued(), x) is None);
    }
}

/// Commit durability: once the pipeline is empty — as it is right after a
/// commit — every read observes the durable contents, so replaying the
/// device yields identical results for every page.
pub proof fn lemma_commit_durability(m: Manager)
    requires
        m.queued().len() == 0,
    ensures
        forall|x: u64|
            x < m.size() ==> #[trigger] m.spec_disk().visible_at(x) == m.spec_disk().committed()[x as int],
{
    assert forall|x: u64|
        x < m.size() implies #[trigger] m.spec_disk().visible_at(x)
        == m.spec_disk().committed()[x as int] by {
        assert(queued_view(m.queued(), x) is None);
    }
}

/// Corruption detection for metaclusters: a sector whose stored checksum
/// is unchanged but whose body hashes differently from a decodable sector
/// is rejected with a checksum mismatch.  Detection is conditional on the
/// checksums of the two bodies differing, as any fixed-width checksum
/// admits collisions.
pub proof fn lemma_metacluster_corruption(good: Seq<u8>, bad: Seq<u8>, algorithm: ChecksumAlgorithm)
    requires
        good.len() == SECTOR,
        bad.len() == SECTOR,
        spec_decode_metacluster(good, algorithm) is Ok,
        bad.subrange(0, 8) == good.subrange(0, 8),
        checksum_of(algorithm, bad.subrange(8, SECTOR as int)) != checksum_of(
            algorithm,
            good.subrange(8, SECTOR as int),
        ),
    ensures
        spec_decode_metacluster(bad, algorithm) matches Err(e) && e.0 == spec_u64_at(bad, 0)
            && e.1 == checksum_of(algorithm, bad.subrange(8, SECTOR as int)),
{
    assert(spec_u64_at(bad, 0) == spec_u64_at(good, 0));
}

/// `first_page_index` finds an index holding the page whenever the page is
/// present.
proof fn lemma_first_page_index_finds(live: Seq<PagePointer>, page: PagePointer, i: nat)
    requires
        exists|w: int| i <= w < live.len() && live[w] == page,
    ensures
        first_page_index(live, page, i) < live.len(),
        live[first_page_index(live, page, i) as int] == page,
    decreases live.len() - i,
{
    let w = choose|w: int| i <= w < live.len() && live[w] == page;
    if live[i as int] == page {
    } else {
        assert(i < w);
        lemma_first_page_index_finds(live, page, i + 1);
    }
}

} // verus!



