//! Block-level delta transfer.
//!
//! The destination file is scanned block by block and each block's SHA-256
//! digest, offset and length are recorded. The source is then read block by
//! block: a source block whose digest and length match a recorded destination
//! block is copied from the destination file itself, any other block is sent.

use crate::digest::{sha256_chunk, sha256_of};
use std::collections::HashMap;
use vstd::prelude::*;

verus! {

broadcast use vstd::std_specs::hash::group_hash_axioms;

/// The size of the blocks in which files are read for a delta transfer.
pub const DELTA_CHUNK_SIZE: usize = 64 * 1024;

/// A block of the destination file: its digest, where it starts, how long it is.
#[derive(Clone, Copy, Debug)]
pub struct BlockSignature {
    pub hash: [u8; 32],
    pub offset: u64,
    pub length: usize,
}

/// What to write for one block of the source.
#[derive(Clone, Copy, Debug)]
pub enum BlockAction {
    /// Copy `length` bytes of the destination file, starting at `offset`.
    Reuse { offset: u64, length: usize },
    /// Send the source block itself.
    Send,
}

/// The bucket in which a digest is filed: its first four bytes, big-endian.
pub open spec fn bucket_of(hash: Seq<u8>) -> u64 {
    (hash[0] as int * 16777216 + hash[1] as int * 65536 + hash[2] as int * 256
        + hash[3] as int) as u64
}

/// `b` records a block of `content`: the bytes it names are there and have its digest.
pub open spec fn describes_block(content: Seq<u8>, b: BlockSignature) -> bool {
    &&& b.length > 0
    &&& b.offset + b.length <= content.len()
    &&& b.hash@ == sha256_of(content.subrange(b.offset as int, b.offset + b.length))
}

/// `b` has the given digest and length.
pub open spec fn block_fits(b: BlockSignature, hash: Seq<u8>, length: int) -> bool {
    b.hash@ == hash && b.length == length
}

/// `blocks[i]` is the first block with the given digest and length.
pub open spec fn first_fit(blocks: Seq<BlockSignature>, i: int, hash: Seq<u8>, length: int) -> bool {
    &&& 0 <= i < blocks.len()
    &&& block_fits(blocks[i], hash, length)
    &&& forall|j: int| 0 <= j < i ==> !block_fits(#[trigger] blocks[j], hash, length)
}

spec fn bucket_ok(bucket: Seq<usize>, blocks: Seq<BlockSignature>, k: u64) -> bool {
    &&& forall|j: int|
        0 <= j < bucket.len() ==> (#[trigger] bucket[j]) < blocks.len() && bucket_of(
            blocks[bucket[j] as int].hash@,
        ) == k
    &&& forall|j1: int, j2: int|
        0 <= j1 < j2 < bucket.len() ==> (#[trigger] bucket[j1]) < (#[trigger] bucket[j2])
}

spec fn indexed(buckets: Map<u64, Vec<usize>>, i: int, k: u64) -> bool {
    buckets.contains_key(k) && exists|jj: int|
        0 <= jj < buckets[k]@.len() && #[trigger] buckets[k]@[jj] as int == i
}

fn bucket_key(hash: &[u8; 32]) -> (key: u64)
    ensures
        key == bucket_of(hash@),
{
    hash[0] as u64 * 16777216 + hash[1] as u64 * 65536 + hash[2] as u64 * 256 + hash[3] as u64
}

fn digests_equal(a: &[u8; 32], b: &[u8; 32]) -> (equal: bool)
    ensures
        equal == (a@ == b@),
{
    for i in 0..32usize
        invariant
            forall|j: int| 0 <= j < i ==> a@[j] == b@[j],
    {
        if a[i] != b[i] {
            return false;
        }
    }
    assert(a@ =~= b@);
    true
}

/// The recorded blocks of a destination file, filed by digest.
pub struct DestinationSignatures {
    blocks: Vec<BlockSignature>,
    buckets: HashMap<u64, Vec<usize>>,
    scanned: u64,
    content: Ghost<Seq<u8>>,
}

impl DestinationSignatures {
    /// The recorded blocks, in the order in which they were read.
    pub closed spec fn blocks(&self) -> Seq<BlockSignature> {
        self.blocks@
    }

    /// The destination bytes read so far.
    pub closed spec fn content(&self) -> Seq<u8> {
        self.content@
    }

    /// Every recorded block describes the bytes read, and each is filed under its bucket.
    pub closed spec fn wf(&self) -> bool {
        &&& self.scanned == self.content@.len()
        &&& forall|i: int|
            0 <= i < self.blocks@.len() ==> describes_block(self.content@, #[trigger] self.blocks@[i])
        &&& forall|k: u64|
            #[trigger] self.buckets@.contains_key(k) ==> bucket_ok(self.buckets@[k]@, self.blocks@, k)
        &&& forall|i: int|
            0 <= i < self.blocks@.len() ==> indexed(
                self.buckets@,
                i,
                bucket_of((#[trigger] self.blocks@[i]).hash@),
            )
    }

    /// No block recorded yet.
    pub fn new() -> (sigs: Self)
        ensures
            sigs.wf(),
            sigs.blocks() == Seq::<BlockSignature>::empty(),
            sigs.content() == Seq::<u8>::empty(),
    {
        DestinationSignatures {
            blocks: Vec::new(),
            buckets: HashMap::new(),
            scanned: 0,
            content: Ghost(Seq::empty()),
        }
    }

    /// How many bytes of the destination have been read.
    pub fn scanned(&self) -> (n: u64)
        requires
            self.wf(),
        ensures
            n == self.content().len(),
    {
        self.scanned
    }

    /// Records the next block read from the destination file.
    pub fn record_block(&mut self, chunk: &[u8])
        requires
            old(self).wf(),
            chunk@.len() > 0,
            old(self).content().len() + chunk@.len() <= u64::MAX,
        ensures
            final(self).wf(),
            final(self).content() == old(self).content() + chunk@,
            final(self).blocks().len() == old(self).blocks().len() + 1,
            final(self).blocks().drop_last() == old(self).blocks(),
            final(self).blocks().last().hash@ == sha256_of(chunk@),
            final(self).blocks().last().offset == old(self).content().len(),
            final(self).blocks().last().length == chunk@.len(),
    {
        let hash = sha256_chunk(chunk);
        let key = bucket_key(&hash);
        let n = self.blocks.len();
        let sig = BlockSignature { hash, offset: self.scanned, length: chunk.len() };
        let ghost old_buckets = self.buckets@;
        let ghost old_blocks = self.blocks@;
        let ghost old_content = self.content@;
        let mut bucket = match self.buckets.remove(&key) {
            Some(b) => b,
            None => Vec::new(),
        };
        let ghost old_bucket = bucket@;
        assert(old_buckets.contains_key(key) ==> old_bucket == old_buckets[key]@);
        bucket.push(n);
        self.buckets.insert(key, bucket);
        self.blocks.push(sig);
        self.scanned = self.scanned + chunk.len() as u64;
        self.content = Ghost(self.content@ + chunk@);
        proof {
            let c = self.content@;
            assert forall|i: int| 0 <= i < self.blocks@.len() implies describes_block(
                c,
                #[trigger] self.blocks@[i],
            ) by {
                if i < n {
                    let b = old_blocks[i];
                    assert(describes_block(old_content, b));
                    assert(c.subrange(b.offset as int, b.offset + b.length) =~= old_content.subrange(
                        b.offset as int,
                        b.offset + b.length,
                    ));
                } else {
                    assert(c.subrange(old_content.len() as int, c.len() as int) =~= chunk@);
                }
            }
            assert forall|k: u64| #[trigger] self.buckets@.contains_key(k) implies bucket_ok(
                self.buckets@[k]@,
                self.blocks@,
                k,
            ) by {
                if k == key {
                    let bk = self.buckets@[k]@;
                    assert(bk == old_bucket.push(n));
                    if old_buckets.contains_key(key) {
                        assert(bucket_ok(old_bucket, old_blocks, key));
                    }
                    assert forall|j: int| 0 <= j < bk.len() implies (#[trigger] bk[j])
                        < self.blocks@.len() && bucket_of(self.blocks@[bk[j] as int].hash@) == k by {
                        if j < old_bucket.len() {
                            assert(bk[j] == old_bucket[j]);
                        }
                    }
                    assert forall|j1: int, j2: int| 0 <= j1 < j2 < bk.len() implies (#[trigger] bk[j1])
                        < (#[trigger] bk[j2]) by {
                        if j2 < old_bucket.len() {
                            assert(bk[j1] == old_bucket[j1]);
                            assert(bk[j2] == old_bucket[j2]);
                        } else {
                            assert(bk[j1] == old_bucket[j1]);
                        }
                    }
                } else {
                    assert(old_buckets.contains_key(k));
                    assert(bucket_ok(old_buckets[k]@, old_blocks, k));
                    let bk = self.buckets@[k]@;
                    assert forall|j: int| 0 <= j < bk.len() implies (#[trigger] bk[j])
                        < self.blocks@.len() && bucket_of(self.blocks@[bk[j] as int].hash@) == k by {
                        assert(self.blocks@[bk[j] as int] == old_blocks[bk[j] as int]);
                    }
                }
            }
            assert forall|i: int| 0 <= i < self.blocks@.len() implies indexed(
                self.buckets@,
                i,
                bucket_of((#[trigger] self.blocks@[i]).hash@),
            ) by {
                if i < n {
                    let ki = bucket_of(old_blocks[i].hash@);
                    assert(indexed(old_buckets, i, ki));
                    if ki == key {
                        let jj = choose|jj: int| 0 <= jj < old_bucket.len() && old_bucket[jj] as int == i;
                        assert(self.buckets@[key]@[jj] as int == i);
                    } else {
                        let jj = choose|jj: int| 0 <= jj < old_buckets[ki]@.len() && old_buckets[ki]@[jj] as int == i;
                        assert(self.buckets@[ki] == old_buckets[ki]);
                        assert(self.buckets@[ki]@[jj] as int == i);
                    }
                } else {
                    assert(self.buckets@[key]@[old_bucket.len() as int] as int == i);
                }
            }
            assert(self.blocks@.drop_last() =~= old_blocks);
        }
    }

    /// The first recorded block with the given digest and length, if there is one.
    pub fn find_block(&self, hash: &[u8; 32], length: usize) -> (found: Option<BlockSignature>)
        requires
            self.wf(),
        ensures
            found is None ==> forall|i: int|
                0 <= i < self.blocks().len() ==> !block_fits(
                    #[trigger] self.blocks()[i],
                    hash@,
                    length as int,
                ),
            found matches Some(b) ==> exists|i: int|
                first_fit(self.blocks(), i, hash@, length as int) && self.blocks()[i] == b,
    {
        let key = bucket_key(hash);
        match self.buckets.get(&key) {
            None => {
                proof {
                    assert forall|i: int| 0 <= i < self.blocks@.len() implies !block_fits(
                        #[trigger] self.blocks@[i],
                        hash@,
                        length as int,
                    ) by {
                        assert(indexed(self.buckets@, i, bucket_of(self.blocks@[i].hash@)));
                    }
                }
                None
            },
            Some(bucket) => {
                assert(bucket_ok(bucket@, self.blocks@, key));
                let mut j: usize = 0;
                while j < bucket.len()
                    invariant
                        self.wf(),
                        bucket@ == self.buckets@[key]@,
                        bucket_ok(bucket@, self.blocks@, key),
                        key == bucket_of(hash@),
                        j <= bucket@.len(),
                        forall|jj: int|
                            0 <= jj < j ==> !block_fits(
                                self.blocks@[#[trigger] bucket@[jj] as int],
                                hash@,
                                length as int,
                            ),
                    decreases bucket@.len() - j,
                {
                    let i = bucket[j];
                    let b = self.blocks[i];
                    if b.length == length && digests_equal(&b.hash, hash) {
                        proof {
                            assert forall|i2: int| 0 <= i2 < i implies !block_fits(
                                #[trigger] self.blocks@[i2],
                                hash@,
                                length as int,
                            ) by {
                                if block_fits(self.blocks@[i2], hash@, length as int) {
                                    assert(indexed(self.buckets@, i2, key));
                                    let jj = choose|jj: int|
                                        0 <= jj < bucket@.len() && bucket@[jj] as int == i2;
                                    if jj >= j {
                                        if jj > j {
                                            assert(bucket@[j as int] < bucket@[jj]);
                                        }
                                    }
                                }
                            }
                            assert(first_fit(self.blocks@, i as int, hash@, length as int));
                            assert(self.blocks@[i as int] == b);
                            assert(first_fit(self.blocks(), i as int, hash@, length as int) && self.blocks()[i as int] == b);
                        }
                        return Some(b);
                    }
                    j = j + 1;
                }
                proof {
                    assert forall|i: int| 0 <= i < self.blocks@.len() implies !block_fits(
                        #[trigger] self.blocks@[i],
                        hash@,
                        length as int,
                    ) by {
                        if block_fits(self.blocks@[i], hash@, length as int) {
                            assert(indexed(self.buckets@, i, key));
                            let jj = choose|jj: int| 0 <= jj < bucket@.len() && bucket@[jj] as int == i;
                            assert(self.blocks@[bucket@[jj] as int] == self.blocks@[i]);
                            assert(!block_fits(self.blocks@[bucket@[jj] as int], hash@, length as int));
                        }
                    }
                }
                None
            },
        }
    }
}


/// The source blocks of the pairs, concatenated.
pub open spec fn source_of(pieces: Seq<(Seq<u8>, Seq<u8>)>) -> Seq<u8>
    decreases pieces.len(),
{
    if pieces.len() == 0 {
        Seq::empty()
    } else {
        source_of(pieces.drop_last()) + pieces.last().0
    }
}

/// The written pieces of the pairs, concatenated.
pub open spec fn written_of(pieces: Seq<(Seq<u8>, Seq<u8>)>) -> Seq<u8>
    decreases pieces.len(),
{
    if pieces.len() == 0 {
        Seq::empty()
    } else {
        written_of(pieces.drop_last()) + pieces.last().1
    }
}

/// SHA-256 maps distinct byte sequences to distinct digests.
pub open spec fn sha256_collision_free() -> bool {
    forall|a: Seq<u8>, b: Seq<u8>| #[trigger] sha256_of(a) == #[trigger] sha256_of(b) ==> a == b
}

/// The plan of a delta transfer of a source file onto a destination file.
pub struct DeltaTransfer {
    signatures: DestinationSignatures,
    bytes_on_wire: u64,
    pieces: Ghost<Seq<(Seq<u8>, Seq<u8>)>>,
}

impl DeltaTransfer {
    /// The recorded blocks of the destination.
    pub closed spec fn signatures(&self) -> DestinationSignatures {
        self.signatures
    }

    /// Each source block planned so far, with the bytes the plan writes for it.
    pub closed spec fn pieces(&self) -> Seq<(Seq<u8>, Seq<u8>)> {
        self.pieces@
    }

    /// The source bytes planned so far.
    pub open spec fn source(&self) -> Seq<u8> {
        source_of(self.pieces())
    }

    /// The bytes the plan writes to the new destination file.
    pub open spec fn rebuilt(&self) -> Seq<u8> {
        written_of(self.pieces())
    }

    /// How many bytes the plan sends rather than copies from the destination.
    pub closed spec fn sent(&self) -> nat {
        self.bytes_on_wire as nat
    }

    /// The signatures are well formed, each written piece has the length and the
    /// digest of its source block, and no more bytes were sent than read.
    pub closed spec fn wf(&self) -> bool {
        &&& self.signatures.wf()
        &&& forall|i: int|
            0 <= i < self.pieces@.len() ==> (#[trigger] self.pieces@[i]).0.len()
                == self.pieces@[i].1.len() && sha256_of(self.pieces@[i].0) == sha256_of(
                self.pieces@[i].1,
            )
        &&& self.bytes_on_wire <= source_of(self.pieces@).len()
    }

    /// A plan that has not read any source block yet.
    pub fn new(signatures: DestinationSignatures) -> (t: Self)
        requires
            signatures.wf(),
        ensures
            t.wf(),
            t.signatures() == signatures,
            t.pieces() == Seq::<(Seq<u8>, Seq<u8>)>::empty(),
            t.sent() == 0,
    {
        DeltaTransfer { signatures, bytes_on_wire: 0, pieces: Ghost(Seq::empty()) }
    }

    /// How many bytes of the source have been sent so far.
    pub fn bytes_on_wire(&self) -> (n: u64)
        ensures
            n == self.sent(),
    {
        self.bytes_on_wire
    }

    /// Decides what to write for the next block read from the source.
    pub fn plan_block(&mut self, chunk: &[u8]) -> (action: BlockAction)
        requires
            old(self).wf(),
            chunk@.len() > 0,
            old(self).sent() + chunk@.len() <= u64::MAX,
        ensures
            final(self).wf(),
            final(self).signatures() == old(self).signatures(),
            final(self).pieces().drop_last() == old(self).pieces(),
            final(self).pieces().len() == old(self).pieces().len() + 1,
            final(self).pieces().last().0 == chunk@,
            final(self).source() == old(self).source() + chunk@,
            match action {
                BlockAction::Reuse { offset, length } => {
                    let blocks = old(self).signatures().blocks();
                    let content = old(self).signatures().content();
                    &&& length == chunk@.len()
                    &&& exists|i: int|
                        first_fit(blocks, i, sha256_of(chunk@), chunk@.len() as int)
                            && #[trigger] blocks[i].offset == offset
                    &&& offset + length <= content.len()
                    &&& final(self).pieces().last().1 == content.subrange(
                        offset as int,
                        offset + length,
                    )
                    &&& final(self).rebuilt() == old(self).rebuilt() + content.subrange(
                        offset as int,
                        offset + length,
                    )
                    &&& final(self).sent() == old(self).sent()
                },
                BlockAction::Send => {
                    &&& forall|i: int|
                        0 <= i < old(self).signatures().blocks().len() ==> !block_fits(
                            #[trigger] old(self).signatures().blocks()[i],
                            sha256_of(chunk@),
                            chunk@.len() as int,
                        )
                    &&& final(self).pieces().last().1 == chunk@
                    &&& final(self).rebuilt() == old(self).rebuilt() + chunk@
                    &&& final(self).sent() == old(self).sent() + chunk@.len()
                },
            },
    {
        let hash = sha256_chunk(chunk);
        let found = self.signatures.find_block(&hash, chunk.len());
        let ghost old_pieces = self.pieces@;
        let ghost content = self.signatures.content();
        match found {
            Some(b) => {
                let ghost piece = content.subrange(b.offset as int, b.offset + b.length);
                proof {
                    let i = choose|i: int|
                        first_fit(self.signatures.blocks(), i, hash@, chunk@.len() as int)
                            && self.signatures.blocks()[i] == b;
                    assert(describes_block(content, self.signatures.blocks()[i]));
                }
                self.pieces = Ghost(self.pieces@.push((chunk@, piece)));
                proof {
                    assert(self.pieces@.drop_last() =~= old_pieces);
                    assert(source_of(old_pieces) + chunk@ == source_of(self.pieces@));
                }
                BlockAction::Reuse { offset: b.offset, length: b.length }
            },
            None => {
                self.bytes_on_wire = self.bytes_on_wire + chunk.len() as u64;
                self.pieces = Ghost(self.pieces@.push((chunk@, chunk@)));
                proof {
                    assert(self.pieces@.drop_last() =~= old_pieces);
                }
                BlockAction::Send
            },
        }
    }
}

/// Where block `i` starts when a file is read in blocks of
/// `DELTA_CHUNK_SIZE` (64 KiB) bytes.
pub open spec fn block_start(i: int) -> int {
    i * 65536
}

/// Block `i` of `data` when it is read in blocks of `DELTA_CHUNK_SIZE` bytes.
pub open spec fn chunk_of(data: Seq<u8>, i: int) -> Seq<u8> {
    let start = block_start(i);
    let end = if block_start(i + 1) <= data.len() {
        block_start(i + 1)
    } else {
        data.len() as int
    };
    data.subrange(start, end)
}

/// `n` blocks of `DELTA_CHUNK_SIZE` bytes cover `len` bytes, and no fewer do.
pub open spec fn chunk_count_is(n: int, len: int) -> bool {
    &&& block_start(n) >= len
    &&& n == 0 || block_start(n - 1) < len
}

/// Block `j` of `destination` has the digest and the length of `chunk`.
pub open spec fn chunk_fits(destination: Seq<u8>, j: int, chunk: Seq<u8>) -> bool {
    &&& sha256_of(chunk_of(destination, j)) == sha256_of(chunk)
    &&& chunk_of(destination, j).len() == chunk.len()
}

/// Block `j` is the first block of `destination` that fits `chunk`.
pub open spec fn first_chunk_fit(destination: Seq<u8>, j: int, chunk: Seq<u8>) -> bool {
    &&& 0 <= j
    &&& block_start(j) < destination.len()
    &&& chunk_fits(destination, j, chunk)
    &&& forall|k: int| 0 <= k < j ==> !#[trigger] chunk_fits(destination, k, chunk)
}

/// `a` is what a delta transfer does with block `i` of `source`: reuse the
/// first destination block that fits it, or send it when none does.
pub open spec fn planned_action(a: BlockAction, source: Seq<u8>, destination: Seq<u8>, i: int) -> bool {
    let chunk = chunk_of(source, i);
    match a {
        BlockAction::Reuse { offset, length } => {
            &&& length == chunk.len()
            &&& exists|j: int|
                #[trigger] first_chunk_fit(destination, j, chunk) && offset == block_start(j)
        },
        BlockAction::Send => forall|j: int|
            0 <= j && block_start(j) < destination.len() ==> !#[trigger] chunk_fits(
                destination,
                j,
                chunk,
            ),
    }
}

/// The bytes written for one source block.
pub open spec fn action_bytes(a: BlockAction, chunk: Seq<u8>, destination: Seq<u8>) -> Seq<u8> {
    match a {
        BlockAction::Reuse { offset, length } => destination.subrange(
            offset as int,
            offset + length,
        ),
        BlockAction::Send => chunk,
    }
}

/// The file that the actions write, block after block.
pub open spec fn rebuilt_from(actions: Seq<BlockAction>, source: Seq<u8>, destination: Seq<u8>) -> Seq<u8>
    decreases actions.len(),
{
    if actions.len() == 0 {
        Seq::empty()
    } else {
        rebuilt_from(actions.drop_last(), source, destination) + action_bytes(
            actions.last(),
            chunk_of(source, actions.len() - 1),
            destination,
        )
    }
}

/// How many source bytes the actions send.
pub open spec fn sent_bytes(actions: Seq<BlockAction>, source: Seq<u8>) -> nat
    decreases actions.len(),
{
    if actions.len() == 0 {
        0
    } else {
        sent_bytes(actions.drop_last(), source) + match actions.last() {
            BlockAction::Send => chunk_of(source, actions.len() - 1).len(),
            BlockAction::Reuse { .. } => 0nat,
        }
    }
}

/// The recorded blocks are the blocks of `destination`, in order.
pub open spec fn blocks_of(blocks: Seq<BlockSignature>, destination: Seq<u8>) -> bool {
    &&& chunk_count_is(blocks.len() as int, destination.len() as int)
    &&& forall|j: int|
        0 <= j < blocks.len() ==> {
            let b = #[trigger] blocks[j];
            &&& b.offset == block_start(j)
            &&& b.length == chunk_of(destination, j).len()
            &&& b.hash@ == sha256_of(chunk_of(destination, j))
        }
}

/// Reads the destination file's contents in blocks of `DELTA_CHUNK_SIZE`
/// bytes and records each block.
pub fn build_destination_signatures(destination: &[u8]) -> (sigs: DestinationSignatures)
    ensures
        sigs.wf(),
        sigs.content() == destination@,
        blocks_of(sigs.blocks(), destination@),
{
    let mut sigs = DestinationSignatures::new();
    let mut offset: usize = 0;
    while offset < destination.len()
        invariant
            sigs.wf(),
            offset <= destination.len(),
            sigs.content() == destination@.take(offset as int),
            offset < destination.len() ==> offset == block_start(sigs.blocks().len() as int),
            blocks_of(sigs.blocks(), destination@.take(offset as int)),
            forall|j: int|
                0 <= j < sigs.blocks().len() ==> chunk_of(destination@.take(offset as int), j)
                    == #[trigger] chunk_of(destination@, j),
        decreases destination.len() - offset,
    {
        let end: usize = if destination.len() - offset > DELTA_CHUNK_SIZE {
            offset + DELTA_CHUNK_SIZE
        } else {
            destination.len()
        };
        let chunk = &destination[offset..end];
        let ghost n = sigs.blocks().len() as int;
        let ghost old_blocks = sigs.blocks();
        assert(chunk@ == chunk_of(destination@, n));
        sigs.record_block(chunk);
        offset = end;
        proof {
            let taken = destination@.take(offset as int);
            assert(sigs.content() =~= taken);
            assert forall|j: int| 0 <= j < sigs.blocks().len() implies chunk_of(taken, j)
                == #[trigger] chunk_of(destination@, j) by {
                assert(chunk_of(taken, j) =~= chunk_of(destination@, j));
            }
            assert forall|j: int| 0 <= j < sigs.blocks().len() implies {
                let b = #[trigger] sigs.blocks()[j];
                &&& b.offset == block_start(j)
                &&& b.length == chunk_of(taken, j).len()
                &&& b.hash@ == sha256_of(chunk_of(taken, j))
            } by {
                if j < n {
                    assert(sigs.blocks()[j] == old_blocks[j]);
                    assert(chunk_of(destination@.take(offset as int), j) == chunk_of(destination@, j));
                }
            }
        }
    }
    assert(destination@.take(offset as int) =~= destination@);
    sigs
}

/// The plan of a delta transfer: what to write for each block of the source,
/// and how many source bytes are sent.
#[derive(Debug)]
pub struct DeltaPlan {
    pub actions: Vec<BlockAction>,
    pub bytes_on_wire: u64,
}

/// Plans the transfer of `source` onto a destination file that holds
/// `destination`: each block of the source that has the digest and the length
/// of a destination block is copied from the destination, any other is sent.
pub fn transfer_with_delta(source: &[u8], destination: &[u8]) -> (plan: DeltaPlan)
    ensures
        chunk_count_is(plan.actions@.len() as int, source@.len() as int),
        forall|i: int|
            0 <= i < plan.actions@.len() ==> planned_action(
                #[trigger] plan.actions@[i],
                source@,
                destination@,
                i,
            ),
        plan.bytes_on_wire == sent_bytes(plan.actions@, source@),
        plan.bytes_on_wire <= source@.len(),
        sha256_collision_free() ==> rebuilt_from(plan.actions@, source@, destination@) == source@,
        forall|i: int, j: int|
            0 <= i < plan.actions@.len() && 0 <= j && block_start(j) < destination@.len()
                && #[trigger] chunk_fits(destination@, j, chunk_of(source@, i)) ==> plan.actions@[i] is Reuse,
        forall|m: int|
            0 <= m && #[trigger] block_start(m) == destination@.len() && destination@.is_prefix_of(
                source@,
            ) ==> plan.bytes_on_wire <= source@.len() - destination@.len() && (source@.len()
                - destination@.len() < 65536 ==> plan.bytes_on_wire == source@.len()
                - destination@.len()),
{
    let signatures = build_destination_signatures(destination);
    let ghost blocks = signatures.blocks();
    let mut transfer = DeltaTransfer::new(signatures);
    let mut actions: Vec<BlockAction> = Vec::new();
    let mut offset: usize = 0;
    while offset < source.len()
        invariant
            transfer.wf(),
            transfer.signatures().blocks() == blocks,
            transfer.signatures().content() == destination@,
            blocks_of(blocks, destination@),
            offset <= source.len(),
            offset < source.len() ==> offset == block_start(actions@.len() as int),
            chunk_count_is(actions@.len() as int, offset as int),
            transfer.source() == source@.take(offset as int),
            transfer.rebuilt() == rebuilt_from(actions@, source@, destination@),
            transfer.sent() == sent_bytes(actions@, source@),
            forall|i: int|
                0 <= i < actions@.len() ==> planned_action(
                    #[trigger] actions@[i],
                    source@,
                    destination@,
                    i,
                ),
        decreases source.len() - offset,
    {
        let end: usize = if source.len() - offset > DELTA_CHUNK_SIZE {
            offset + DELTA_CHUNK_SIZE
        } else {
            source.len()
        };
        let chunk = &source[offset..end];
        let ghost n = actions@.len() as int;
        let ghost old_actions = actions@;
        let ghost old_rebuilt = transfer.rebuilt();
        assert(chunk@ == chunk_of(source@, n));
        proof {
            lemma_delta_sends_at_most_source(&transfer);
        }
        let action = transfer.plan_block(chunk);
        proof {
            lemma_planned(blocks, destination@, chunk@, action);
        }
        actions.push(action);
        offset = end;
        proof {
            assert(transfer.source() =~= source@.take(offset as int));
            assert(actions@.drop_last() =~= old_actions);
            assert(actions@.last() == action);
            assert forall|i: int| 0 <= i < actions@.len() implies planned_action(
                #[trigger] actions@[i],
                source@,
                destination@,
                i,
            ) by {
                if i < n {
                    assert(actions@[i] == old_actions[i]);
                }
            }
        }
    }
    let bytes_on_wire = transfer.bytes_on_wire();
    proof {
        lemma_delta_sends_at_most_source(&transfer);
        assert(source@.take(offset as int) =~= source@);
        if sha256_collision_free() {
            lemma_delta_rebuilds_source(&transfer);
        }
        assert forall|i: int, j: int|
            0 <= i < actions@.len() && 0 <= j && block_start(j) < destination@.len()
                && #[trigger] chunk_fits(destination@, j, chunk_of(source@, i)) implies actions@[i] is Reuse by {
            lemma_matching_block_never_sent(actions@[i], source@, destination@, i, j);
        }
        assert forall|m: int|
            0 <= m && #[trigger] block_start(m) == destination@.len() && destination@.is_prefix_of(
                source@,
            ) implies bytes_on_wire <= source@.len() - destination@.len() && (source@.len()
                - destination@.len() < 65536 ==> bytes_on_wire == source@.len()
                - destination@.len()) by {
            lemma_appended_bytes_sent(actions@, source@, destination@, m);
        }
    }
    DeltaPlan { actions, bytes_on_wire }
}

proof fn lemma_planned(
    blocks: Seq<BlockSignature>,
    destination: Seq<u8>,
    chunk: Seq<u8>,
    action: BlockAction,
)
    requires
        blocks_of(blocks, destination),
        match action {
            BlockAction::Reuse { offset, length } => {
                &&& length == chunk.len()
                &&& exists|i: int|
                    first_fit(blocks, i, sha256_of(chunk), chunk.len() as int)
                        && #[trigger] blocks[i].offset == offset
            },
            BlockAction::Send => forall|i: int|
                0 <= i < blocks.len() ==> !block_fits(
                    #[trigger] blocks[i],
                    sha256_of(chunk),
                    chunk.len() as int,
                ),
        },
    ensures
        match action {
            BlockAction::Reuse { offset, length } => {
                &&& length == chunk.len()
                &&& exists|j: int|
                    #[trigger] first_chunk_fit(destination, j, chunk) && offset == block_start(j)
            },
            BlockAction::Send => forall|j: int|
                0 <= j && block_start(j) < destination.len() ==> !#[trigger] chunk_fits(
                    destination,
                    j,
                    chunk,
                ),
        },
{
    let n = blocks.len() as int;
    match action {
        BlockAction::Reuse { offset, length } => {
            let i = choose|i: int|
                first_fit(blocks, i, sha256_of(chunk), chunk.len() as int) && #[trigger] blocks[i].offset
                    == offset;
            assert(blocks[i].offset == block_start(i));
            assert(block_start(i) <= block_start(n - 1));
            assert forall|k: int| 0 <= k < i implies !#[trigger] chunk_fits(destination, k, chunk) by {
                assert(!block_fits(blocks[k], sha256_of(chunk), chunk.len() as int));
            }
            assert(first_chunk_fit(destination, i, chunk));
        },
        BlockAction::Send => {
            assert forall|j: int|
                0 <= j && block_start(j) < destination.len() implies !#[trigger] chunk_fits(
                destination,
                j,
                chunk,
            ) by {
                assert(j < n);
                assert(!block_fits(blocks[j], sha256_of(chunk), chunk.len() as int));
            }
        },
    }
}

proof fn lemma_written_equals_source(pieces: Seq<(Seq<u8>, Seq<u8>)>)
    requires
        forall|i: int| 0 <= i < pieces.len() ==> (#[trigger] pieces[i]).0 == pieces[i].1,
    ensures
        written_of(pieces) == source_of(pieces),
    decreases pieces.len(),
{
    if pieces.len() > 0 {
        let rest = pieces.drop_last();
        assert forall|i: int| 0 <= i < rest.len() implies (#[trigger] rest[i]).0 == rest[i].1 by {
            assert(rest[i] == pieces[i]);
        }
        lemma_written_equals_source(rest);
        assert(pieces.last() == pieces[pieces.len() - 1]);
    }
}

/// Delta reconstruction: when SHA-256 has no collisions, the file the plan
/// writes is byte for byte the source read so far.
pub proof fn lemma_delta_rebuilds_source(t: &DeltaTransfer)
    requires
        t.wf(),
        sha256_collision_free(),
    ensures
        t.rebuilt() == t.source(),
{
    let pieces = t.pieces();
    assert forall|i: int| 0 <= i < pieces.len() implies (#[trigger] pieces[i]).0 == pieces[i].1 by {
        assert(sha256_of(pieces[i].0) == sha256_of(pieces[i].1));
    }
    lemma_written_equals_source(pieces);
}

/// Whatever blocks are reused, the plan never sends more than the source holds.
pub proof fn lemma_delta_sends_at_most_source(t: &DeltaTransfer)
    requires
        t.wf(),
    ensures
        t.sent() <= t.source().len(),
{
}

/// Unchanged data is reused: a source block holding exactly the bytes of a
/// recorded destination block fits a recorded block, so `plan_block`, which
/// sends a block only when none fits, copies it from the destination.
pub proof fn lemma_recorded_block_is_reused(sigs: &DestinationSignatures, i: int)
    requires
        sigs.wf(),
        0 <= i < sigs.blocks().len(),
    ensures
        ({
            let b = sigs.blocks()[i];
            let chunk = sigs.content().subrange(b.offset as int, b.offset + b.length);
            exists|j: int|
                0 <= j < sigs.blocks().len() && block_fits(
                    #[trigger] sigs.blocks()[j],
                    sha256_of(chunk),
                    chunk.len() as int,
                )
        }),
{
    let b = sigs.blocks()[i];
    assert(describes_block(sigs.content(), b));
}

proof fn lemma_reuse_only_sends_nothing(actions: Seq<BlockAction>, source: Seq<u8>)
    requires
        forall|i: int| 0 <= i < actions.len() ==> (#[trigger] actions[i]) is Reuse,
    ensures
        sent_bytes(actions, source) == 0,
    decreases actions.len(),
{
    if actions.len() > 0 {
        let rest = actions.drop_last();
        assert forall|i: int| 0 <= i < rest.len() implies (#[trigger] rest[i]) is Reuse by {
            assert(rest[i] == actions[i]);
        }
        lemma_reuse_only_sends_nothing(rest, source);
        assert(actions.last() == actions[actions.len() - 1]);
    }
}

/// Re-syncing an unchanged file sends nothing: when the destination already
/// holds the source's bytes, every block of the plan reuses a destination
/// block and no byte goes on the wire.
pub proof fn lemma_unchanged_file_sends_nothing(actions: Seq<BlockAction>, data: Seq<u8>)
    requires
        chunk_count_is(actions.len() as int, data.len() as int),
        forall|i: int|
            0 <= i < actions.len() ==> planned_action(#[trigger] actions[i], data, data, i),
    ensures
        sent_bytes(actions, data) == 0,
{
    let n = actions.len() as int;
    assert forall|i: int| 0 <= i < actions.len() implies (#[trigger] actions[i]) is Reuse by {
        assert(planned_action(actions[i], data, data, i));
        assert(block_start(i) <= block_start(n - 1));
        assert(chunk_fits(data, i, chunk_of(data, i)));
    }
    lemma_reuse_only_sends_nothing(actions, data);
}

/// A source block that has the digest and the length of some destination
/// block is never sent, whatever the lengths of the two files.
pub proof fn lemma_matching_block_never_sent(
    action: BlockAction,
    source: Seq<u8>,
    destination: Seq<u8>,
    i: int,
    j: int,
)
    requires
        planned_action(action, source, destination, i),
        0 <= j,
        block_start(j) < destination.len(),
        sha256_of(chunk_of(destination, j)) == sha256_of(chunk_of(source, i)),
        chunk_of(destination, j).len() == chunk_of(source, i).len(),
    ensures
        action is Reuse,
{
    assert(chunk_fits(destination, j, chunk_of(source, i)));
}

proof fn lemma_sent_prefix_bound(actions: Seq<BlockAction>, source: Seq<u8>, m: int, t: int)
    requires
        0 <= m,
        block_start(m) <= source.len(),
        0 <= t <= actions.len(),
        forall|i: int| 0 <= i < actions.len() && i < m ==> (#[trigger] actions[i]) is Reuse,
        forall|i: int| 0 <= i < actions.len() ==> #[trigger] block_start(i) < source.len(),
    ensures
        t <= m ==> sent_bytes(actions.take(t), source) == 0,
        t > m ==> sent_bytes(actions.take(t), source) + block_start(m) <= (if block_start(t)
            <= source.len() {
            block_start(t)
        } else {
            source.len() as int
        }),
    decreases t,
{
    if t > 0 {
        lemma_sent_prefix_bound(actions, source, m, t - 1);
        let s = actions.take(t);
        assert(s.drop_last() =~= actions.take(t - 1));
        assert(s.last() == actions[t - 1]);
        assert(block_start(t - 1) < source.len());
        if t - 1 < m {
            assert(actions[t - 1] is Reuse);
        }
    }
}

/// Growth by appending: when the destination is `m` whole blocks and the
/// source is the destination followed by `k` more bytes, the plan sends at
/// most those `k` bytes, and exactly `k` when they are less than a block.
pub proof fn lemma_appended_bytes_sent(
    actions: Seq<BlockAction>,
    source: Seq<u8>,
    destination: Seq<u8>,
    m: int,
)
    requires
        chunk_count_is(actions.len() as int, source.len() as int),
        forall|i: int|
            0 <= i < actions.len() ==> planned_action(#[trigger] actions[i], source, destination, i),
        0 <= m,
        destination.len() == block_start(m),
        destination.is_prefix_of(source),
    ensures
        sent_bytes(actions, source) <= source.len() - destination.len(),
        source.len() - destination.len() < 65536 ==> sent_bytes(actions, source) == source.len()
            - destination.len(),
{
    let n = actions.len() as int;
    assert forall|i: int| 0 <= i < actions.len() implies #[trigger] block_start(i) < source.len() by {
        assert(block_start(i) <= block_start(n - 1));
    }
    assert forall|i: int| 0 <= i < actions.len() && i < m implies (#[trigger] actions[i]) is Reuse by {
        assert(block_start(i + 1) <= block_start(m));
        assert(chunk_of(source, i) =~= chunk_of(destination, i));
        lemma_matching_block_never_sent(actions[i], source, destination, i, i);
    }
    lemma_sent_prefix_bound(actions, source, m, n);
    assert(actions.take(n) =~= actions);
    let k = source.len() - destination.len();
    if 0 < k < 65536 {
        assert(n == m + 1);
        let a = actions[m];
        assert(planned_action(a, source, destination, m));
        let chunk = chunk_of(source, m);
        assert(chunk.len() == k);
        if a is Reuse {
            let j = choose|j: int| #[trigger] first_chunk_fit(destination, j, chunk) && a->offset == block_start(j);
            assert(first_chunk_fit(destination, j, chunk));
            assert(j < m);
            assert(block_start(j + 1) <= block_start(m));
            assert(chunk_of(destination, j).len() == 65536);
        }
        lemma_sent_prefix_bound(actions, source, m, m);
        assert(actions.drop_last() =~= actions.take(m));
    }
}

} // verus!
