//! The block storage manager: it partitions a file into blocks of
//! [`BLOCK_SIZE`] bytes, claims contiguous runs of blocks, and addresses reads
//! and writes inside a claimed run.
//!
//! The manager holds the metadata and makes every decision; it does not touch
//! the file. Each operation returns the request that its caller carries out on
//! the file: a [`FileWrite`], a [`FileRead`] or a [`Claim`].

use crate::encoding::{consumed, decoding, encoding, Decoder, Encoder};
use crate::file_image::{read_back, resized, written, zeros};
use std::collections::VecDeque;
use vstd::prelude::*;

verus! {

/// The size of a block in bytes.
pub const BLOCK_SIZE: u64 = 4096;

/// Why the manager refused an operation.
#[derive(Debug, Clone, Copy, PartialEq, Eq)]
pub enum StorageError {
    /// A write would end past the end of its run.
    ExceedsCapacity,
}

/// A seek to `position`, a write of all of `data` there, and a flush.
#[derive(Debug)]
pub struct FileWrite {
    pub position: u64,
    pub data: Vec<u8>,
}

impl FileWrite {
    /// The file after this write.
    pub open spec fn applied(&self, file: Seq<u8>) -> Seq<u8> {
        written(file, self.position as nat, self.data@)
    }
}

/// A seek to `position` and a read of up to `max_length` bytes there, repeated
/// until the bytes are there or the file ends.
#[derive(Debug, Clone, Copy, PartialEq, Eq)]
pub struct FileRead {
    pub position: u64,
    pub max_length: u64,
}

impl FileRead {
    /// What this read yields on `file`.
    pub open spec fn outcome(&self, file: Seq<u8>) -> Seq<u8> {
        read_back(file, self.position as nat, self.max_length as nat)
    }
}

/// A contiguous run of blocks claimed from the file.
#[derive(Debug)]
pub struct DataBlock {
    offset: u64,
    size: u64,
}

impl DataBlock {
    /// The index of the first block of the run.
    pub closed spec fn start_block_index(&self) -> nat {
        self.offset as nat
    }

    /// The capacity of the run in bytes.
    pub closed spec fn byte_size(&self) -> nat {
        self.size as nat
    }

    /// The number of blocks in the run.
    pub open spec fn block_count(&self) -> nat {
        self.byte_size() / (BLOCK_SIZE as nat)
    }

    /// The position in the file of the byte at `offset` in the run.
    pub open spec fn position_of(&self, offset: nat) -> nat {
        self.start_block_index() * BLOCK_SIZE as nat + offset
    }

    /// Whether `length` bytes at `offset` lie inside the run.
    pub open spec fn admits(&self, offset: nat, length: nat) -> bool {
        offset + length <= self.byte_size()
    }

    /// A run is made of whole blocks, and the position behind its last byte
    /// fits in 64 bits.
    pub open spec fn wf(&self) -> bool {
        &&& self.byte_size() % (BLOCK_SIZE as nat) == 0
        &&& self.position_of(self.byte_size()) <= u64::MAX
    }

    /// Every run that exists is well formed.
    #[verifier::type_invariant]
    spec fn whole_blocks(self) -> bool {
        self.wf()
    }

    /// The capacity of the run in bytes.
    pub fn size(&self) -> (size: u64)
        ensures
            size == self.byte_size(),
            self.wf(),
    {
        proof {
            use_type_invariant(self);
        }
        return self.size;
    }

    /// The index of the first block of the run.
    pub fn offset(&self) -> (offset: u64)
        ensures
            offset == self.start_block_index(),
    {
        self.offset
    }
}

/// The persisted metadata: the index of the first block not yet claimed.
#[derive(Debug)]
pub struct BlockStorageMeta {
    offset: u64,
}

impl BlockStorageMeta {
    /// The index of the first block not yet claimed.
    pub closed spec fn next_free_block_index(&self) -> nat {
        self.offset as nat
    }

    /// Metadata with `offset` as the first block not yet claimed.
    pub fn new(offset: u64) -> (meta: BlockStorageMeta)
        ensures
            meta.next_free_block_index() == offset,
    {
        BlockStorageMeta { offset }
    }

    /// The index of the first block not yet claimed.
    pub fn offset(&self) -> (offset: u64)
        ensures
            offset == self.next_free_block_index(),
    {
        self.offset
    }

    /// The bytes that persist this metadata.
    pub fn serialize(&self) -> (bytes: VecDeque<u8>)
        ensures
            bytes@ == encoding(self.next_free_block_index() as u64),
    {
        Encoder::encode_u64(self.offset)
    }

    /// Takes the metadata from the front of `data`, and removes from `data`
    /// the bytes that held it.
    pub fn deserialize(&mut self, data: &mut VecDeque<u8>)
        ensures
            final(self).next_free_block_index() == decoding(old(data)@),
            consumed(old(data)@) <= old(data)@.len(),
            final(data)@ == old(data)@.skip(consumed(old(data)@) as int),
    {
        self.offset = Decoder::decode_u64(data);
    }
}

/// What claiming a run asks of the file: set its length to `file_length`, then
/// carry out `meta`, which persists the advanced metadata. `block` is the run.
#[derive(Debug)]
pub struct Claim {
    pub block: DataBlock,
    pub file_length: u64,
    pub meta: FileWrite,
}

impl Claim {
    /// Whether this is the claim of `count` blocks made when `next_free` was
    /// the first block not yet claimed.
    pub open spec fn claims(&self, next_free: nat, count: nat) -> bool {
        &&& self.block.start_block_index() == next_free
        &&& self.block.byte_size() == count * BLOCK_SIZE as nat
        &&& self.file_length == (next_free + count) * BLOCK_SIZE as nat
        &&& self.meta.position == 0
        &&& self.meta.data@ == encoding((next_free + count) as u64)
    }

    /// The file after this claim.
    pub open spec fn applied(&self, file: Seq<u8>) -> Seq<u8> {
        self.meta.applied(resized(file, self.file_length as nat))
    }
}

/// The bytes of `data`, in order.
fn to_vec(data: &VecDeque<u8>) -> (bytes: Vec<u8>)
    ensures
        bytes@ == data@,
{
    let mut bytes: Vec<u8> = Vec::with_capacity(data.len());
    let mut i: usize = 0;
    while i < data.len()
        invariant
            i <= data@.len(),
            bytes@ == data@.subrange(0, i as int),
        decreases data@.len() - i,
    {
        bytes.push(data[i]);
        i += 1;
        assert(bytes@ =~= data@.subrange(0, i as int));
    }
    assert(bytes@ =~= data@);
    bytes
}

/// The bytes of `data`, in order.
fn to_deque(data: &Vec<u8>) -> (bytes: VecDeque<u8>)
    ensures
        bytes@ == data@,
{
    let mut bytes: VecDeque<u8> = VecDeque::with_capacity(data.len());
    let mut i: usize = 0;
    while i < data.len()
        invariant
            i <= data@.len(),
            bytes@ == data@.subrange(0, i as int),
        decreases data@.len() - i,
    {
        bytes.push_back(data[i]);
        i += 1;
        assert(bytes@ =~= data@.subrange(0, i as int));
    }
    assert(bytes@ =~= data@);
    bytes
}

/// The manager of one file: it owns the metadata, claims runs and addresses
/// reads and writes inside them.
#[derive(Debug)]
pub struct BlockStorage {
    meta: BlockStorageMeta,
}

impl BlockStorage {
    /// The index of the first block not yet claimed.
    pub closed spec fn next_free_block_index(&self) -> nat {
        self.meta.next_free_block_index()
    }

    /// Block 0 holds the metadata and is never claimed.
    pub open spec fn wf(&self) -> bool {
        self.next_free_block_index() >= 1
    }

    /// Whether `count` more blocks can be claimed with every position in the
    /// file still fitting in 64 bits.
    pub open spec fn has_room(&self, count: u64) -> bool {
        (self.next_free_block_index() + count) * BLOCK_SIZE as nat <= u64::MAX
    }

    /// The metadata as it stands.
    pub fn meta(&self) -> (meta: &BlockStorageMeta)
        ensures
            meta.next_free_block_index() == self.next_free_block_index(),
    {
        &self.meta
    }

    /// A manager for a fresh file, and the write that persists its metadata.
    /// Block 0 is reserved, so block 1 is the first to be claimed.
    pub fn create() -> (made: (BlockStorage, FileWrite))
        ensures
            made.0.next_free_block_index() == 1,
            made.0.wf(),
            made.1.position == 0,
            made.1.data@ == encoding(1),
    {
        let storage = BlockStorage { meta: BlockStorageMeta { offset: 1 } };
        let flush = storage.flushMeta();
        (storage, flush)
    }

    /// The read that fetches the metadata block of an existing file.
    pub fn readMeta() -> (read: FileRead)
        ensures
            read.position == 0,
            read.max_length == BLOCK_SIZE,
    {
        FileRead { position: 0, max_length: BLOCK_SIZE }
    }

    /// A manager for an existing file, from what [`BlockStorage::readMeta`]
    /// yielded on it.
    pub fn open(header: VecDeque<u8>) -> (storage: BlockStorage)
        ensures
            storage.next_free_block_index() == decoding(header@),
    {
        let mut header = header;
        let mut storage = BlockStorage { meta: BlockStorageMeta { offset: 0 } };
        storage.meta.deserialize(&mut header);
        storage
    }

    /// The write that persists the metadata at the start of block 0.
    fn flushMeta(&self) -> (flush: FileWrite)
        ensures
            flush.position == 0,
            flush.data@ == encoding(self.next_free_block_index() as u64),
    {
        let bytes = self.meta.serialize();
        FileWrite { position: 0, data: to_vec(&bytes) }
    }

    /// Whether `count` more blocks can be claimed.
    pub fn hasRoom(&self, count: u64) -> (room: bool)
        ensures
            room == self.has_room(count),
    {
        let limit: u64 = u64::MAX / BLOCK_SIZE;
        self.meta.offset <= limit && count <= limit - self.meta.offset
    }

    /// Claims the next `count` blocks: the run starts at the first block not
    /// yet claimed, the metadata advances past it, and the file is to be
    /// resized to end with the run before the metadata is persisted. A claim
    /// of no blocks yields an empty run and leaves the metadata where it was.
    pub fn claimBlock(&mut self, count: u64) -> (claim: Claim)
        requires
            old(self).has_room(count),
        ensures
            final(self).next_free_block_index() == old(self).next_free_block_index() + count,
            claim.claims(old(self).next_free_block_index(), count as nat),
            claim.block.wf(),
            old(self).wf() ==> final(self).wf(),
    {
        self.meta.offset += count;
        let file_length = self.meta.offset * BLOCK_SIZE;
        let meta = self.flushMeta();
        Claim {
            block: DataBlock { offset: self.meta.offset - count, size: count * BLOCK_SIZE },
            file_length,
            meta,
        }
    }

    /// The write of `data` at `offset` in the run `block`, or a refusal where
    /// the data would end past the end of the run.
    pub fn writeBlockOffset(&self, block: &DataBlock, offset: u64, data: VecDeque<u8>) -> (result:
        Result<FileWrite, StorageError>)
        ensures
            result is Ok <==> block.admits(offset as nat, data@.len()),
            result matches Ok(write) ==> write.position == block.position_of(offset as nat)
                && write.data@ == data@,
            result matches Err(error) ==> error == StorageError::ExceedsCapacity,
    {
        proof {
            use_type_invariant(block);
        }
        let length = data.len() as u64;
        if length > block.size || offset > block.size - length {
            Err(StorageError::ExceedsCapacity)
        } else {
            Ok(FileWrite { position: block.offset * BLOCK_SIZE + offset, data: to_vec(&data) })
        }
    }

    /// The write of `data` at the start of the run `block`.
    pub fn writeBlock(&self, block: &DataBlock, data: VecDeque<u8>) -> (result: Result<
        FileWrite,
        StorageError,
    >)
        ensures
            result is Ok <==> block.admits(0, data@.len()),
            result matches Ok(write) ==> write.position == block.position_of(0) && write.data@
                == data@,
            result matches Err(error) ==> error == StorageError::ExceedsCapacity,
    {
        self.writeBlockOffset(block, 0, data)
    }

    /// The read of up to `max_length` bytes at `offset` in the run `block`.
    /// It is not held to the end of the run.
    pub fn readBlockOffset(&self, block: &DataBlock, offset: u64, max_length: u64) -> (read:
        FileRead)
        requires
            block.position_of(offset as nat) <= u64::MAX,
        ensures
            read.position == block.position_of(offset as nat),
            read.max_length == max_length,
    {
        FileRead { position: block.offset * BLOCK_SIZE + offset, max_length }
    }

    /// The read of the whole run `block`.
    pub fn readBlock(&self, block: &DataBlock) -> (read: FileRead)
        ensures
            read.position == block.position_of(0),
            read.max_length == block.byte_size(),
    {
        proof {
            use_type_invariant(block);
        }
        self.readBlockOffset(block, 0, block.size)
    }
}

/// The staging buffer of one read. It starts as `max_length` zero bytes; each
/// chunk that the file delivers is laid behind the chunks before it, and what
/// no chunk reached stays zero.
#[derive(Debug)]
pub struct ReadBuffer {
    buf: Vec<u8>,
    total_read: usize,
}

impl ReadBuffer {
    /// The bytes of the buffer, delivered or not.
    pub closed spec fn content(&self) -> Seq<u8> {
        self.buf@
    }

    /// How many bytes were delivered so far.
    pub closed spec fn filled(&self) -> nat {
        self.total_read as nat
    }

    /// Delivered bytes never exceed the buffer, and every byte behind them is
    /// zero.
    pub open spec fn wf(&self) -> bool {
        &&& self.filled() <= self.content().len()
        &&& forall|i: int| self.filled() <= i < self.content().len() ==> self.content()[i] == 0
    }

    /// Whether the delivered bytes are the bytes of `file` from `position` on.
    pub open spec fn tracks(&self, file: Seq<u8>, position: nat) -> bool {
        &&& self.wf()
        &&& forall|i: int|
            0 <= i < self.filled() ==> position + i < file.len() && self.content()[i]
                == file[position + i]
    }

    /// A buffer for a read of up to `max_length` bytes.
    pub fn new(max_length: u64) -> (buffer: ReadBuffer)
        requires
            max_length <= usize::MAX,
        ensures
            buffer.wf(),
            buffer.filled() == 0,
            buffer.content() == zeros(max_length as nat),
    {
        let length = max_length as usize;
        let mut buf: Vec<u8> = Vec::with_capacity(length);
        let mut i: usize = 0;
        while i < length
            invariant
                i <= length,
                buf@ == zeros(i as nat),
            decreases length - i,
        {
            buf.push(0);
            i += 1;
            assert(buf@ =~= zeros(i as nat));
        }
        ReadBuffer { buf, total_read: 0 }
    }

    /// How many more bytes the buffer takes.
    pub fn remaining(&self) -> (space: usize)
        requires
            self.wf(),
        ensures
            space == self.content().len() - self.filled(),
    {
        self.buf.len() - self.total_read
    }

    /// Takes the chunk that one read of the file delivered. The read is over
    /// when the chunk is empty, which is how a file signals its end, or when
    /// the buffer is full.
    pub fn accept(&mut self, chunk: &[u8]) -> (done: bool)
        requires
            old(self).wf(),
            chunk@.len() <= old(self).content().len() - old(self).filled(),
        ensures
            final(self).wf(),
            final(self).filled() == old(self).filled() + chunk@.len(),
            final(self).content() == old(self).content().subrange(0, old(self).filled() as int)
                + chunk@ + zeros((old(self).content().len() - final(self).filled()) as nat),
            done <==> chunk@.len() == 0 || final(self).filled() == final(self).content().len(),
    {
        let ghost before = self.buf@;
        let start = self.total_read;
        let read = chunk.len();
        let total = self.buf.len();
        let mut i: usize = 0;
        assert forall|j: int| start <= j < before.len() implies before[j] == 0 by {
            assert(old(self).content()[j] == 0);
        }
        while i < read
            invariant
                i <= read,
                total == before.len(),
                read == chunk@.len(),
                start + read <= before.len(),
                self.total_read == start,
                self.buf@.len() == before.len(),
                forall|j: int| 0 <= j < start ==> self.buf@[j] == before[j],
                forall|j: int| start <= j < start + i ==> self.buf@[j] == chunk@[j - start],
                forall|j: int| start + i <= j < before.len() ==> self.buf@[j] == before[j],
            decreases read - i,
        {
            self.buf.set(start + i, chunk[i]);
            i += 1;
        }
        self.total_read = start + read;
        proof {
            let head = before.subrange(0, start as int);
            let tail = zeros((before.len() - start - read) as nat);
            let laid = head + chunk@ + tail;
            assert(laid.len() == before.len());
            assert forall|j: int| 0 <= j < before.len() implies self.buf@[j] == laid[j] by {
                if j < start {
                    assert(laid[j] == head[j]);
                } else if j < start + read {
                    assert(laid[j] == chunk@[j - start]);
                } else {
                    assert(laid[j] == tail[j - start - read]);
                    assert(before[j] == 0);
                }
            }
            assert(self.buf@ =~= laid);
        }
        read == 0 || self.total_read == self.buf.len()
    }

    /// The bytes that the read yields.
    pub fn finish(self) -> (bytes: VecDeque<u8>)
        ensures
            bytes@ == self.content(),
    {
        to_deque(&self.buf)
    }
}

/// A buffer that holds the bytes of a file from `position` on still does so
/// after it took the chunk that stands next in the file.
pub proof fn lemma_accept_tracks(
    before: ReadBuffer,
    after: ReadBuffer,
    chunk: Seq<u8>,
    file: Seq<u8>,
    position: nat,
)
    requires
        before.tracks(file, position),
        position + before.filled() + chunk.len() <= file.len(),
        chunk == file.subrange(
            (position + before.filled()) as int,
            (position + before.filled() + chunk.len()) as int,
        ),
        after.wf(),
        after.filled() == before.filled() + chunk.len(),
        after.filled() <= before.content().len(),
        after.content() == before.content().subrange(0, before.filled() as int) + chunk + zeros(
            (before.content().len() - after.filled()) as nat,
        ),
    ensures
        after.tracks(file, position),
{
}

/// A read that ran until its buffer was full or the file had ended yields the
/// bytes of the file at its position, and zero for every byte past the end of
/// the file.
pub proof fn lemma_read_yields_outcome(buffer: ReadBuffer, file: Seq<u8>, read: FileRead)
    requires
        buffer.tracks(file, read.position as nat),
        buffer.content().len() == read.max_length,
        buffer.filled() == read.max_length || read.position + buffer.filled() >= file.len(),
    ensures
        buffer.content() == read.outcome(file),
{
    assert(buffer.content() =~= read.outcome(file));
}

/// Metadata that was persisted is what opening the file recovers, whatever
/// else the file held: the header read after the metadata write decodes to the
/// index that was written.
pub proof fn lemma_persisted_meta_recovered(file: Seq<u8>, next_free: u64, flush: FileWrite)
    requires
        flush.position == 0,
        flush.data@ == encoding(next_free),
    ensures
        decoding(read_back(flush.applied(file), 0, BLOCK_SIZE as nat)) == next_free,
{
    let bytes = encoding(next_free);
    let header = read_back(flush.applied(file), 0, BLOCK_SIZE as nat);
    crate::encoding::lemma_encoding_length_bounds(next_free);
    let padding = header.subrange(bytes.len() as int, header.len() as int);
    assert(header =~= bytes + padding);
    crate::encoding::lemma_decode_encode_padded(next_free, padding);
}

/// A file that was created and is then opened has block 1 as its first free
/// block.
pub proof fn lemma_create_then_open(file: Seq<u8>, flush: FileWrite)
    requires
        flush.position == 0,
        flush.data@ == encoding(1),
    ensures
        decoding(read_back(flush.applied(file), 0, BLOCK_SIZE as nat)) == 1,
{
    lemma_persisted_meta_recovered(file, 1, flush);
}

/// Two claims in a row yield adjacent runs that share no block: the second
/// starts at the block after the last block of the first.
pub proof fn lemma_claims_adjacent(
    first: Claim,
    second: Claim,
    next_free: nat,
    n: nat,
    m: nat,
)
    requires
        first.claims(next_free, n),
        second.claims(next_free + n, m),
    ensures
        second.block.start_block_index() == first.block.start_block_index() + n,
        first.block.block_count() == n,
        second.block.block_count() == m,
        first.block.position_of(first.block.byte_size()) == second.block.position_of(0),
{
    assert(n * 4096 / 4096 == n);
    assert(m * 4096 / 4096 == m);
}

/// What was written inside a run is what a read at the same place gives back.
pub proof fn lemma_write_then_read(
    file: Seq<u8>,
    block: DataBlock,
    offset: u64,
    write: FileWrite,
    read: FileRead,
)
    requires
        block.admits(offset as nat, write.data@.len()),
        write.position == block.position_of(offset as nat),
        read.position == block.position_of(offset as nat),
        read.max_length == write.data@.len(),
    ensures
        read.outcome(write.applied(file)) == write.data@,
{
    crate::file_image::lemma_read_written(file, write.position as nat, write.data@);
}

/// After a claim the file ends with the claimed run, and opening it recovers
/// the advanced metadata.
pub proof fn lemma_file_after_claim(file: Seq<u8>, claim: Claim, next_free: nat, count: nat)
    requires
        next_free >= 1,
        (next_free + count) * BLOCK_SIZE as nat <= u64::MAX,
        claim.claims(next_free, count),
    ensures
        claim.applied(file).len() == (next_free + count) * BLOCK_SIZE as nat,
        claim.applied(file).len() == claim.block.position_of(claim.block.byte_size()),
        decoding(read_back(claim.applied(file), 0, BLOCK_SIZE as nat)) == next_free + count,
{
    crate::encoding::lemma_encoding_length_bounds((next_free + count) as u64);
    lemma_persisted_meta_recovered(
        resized(file, claim.file_length as nat),
        (next_free + count) as u64,
        claim.meta,
    );
}

/// A run claimed behind the end of the file reads as zero bytes until it is
/// written to.
pub proof fn lemma_claimed_run_is_zero(file: Seq<u8>, claim: Claim, next_free: nat, count: nat)
    requires
        next_free >= 1,
        (next_free + count) * BLOCK_SIZE as nat <= u64::MAX,
        claim.claims(next_free, count),
        file.len() <= next_free * BLOCK_SIZE as nat,
    ensures
        read_back(claim.applied(file), claim.block.position_of(0), claim.block.byte_size())
            == zeros(claim.block.byte_size()),
{
    crate::encoding::lemma_encoding_length_bounds((next_free + count) as u64);
    assert(read_back(claim.applied(file), claim.block.position_of(0), claim.block.byte_size())
        =~= zeros(claim.block.byte_size()));
}

/// A write inside one run leaves every run that shares no block with it as it
/// was.
pub proof fn lemma_write_stays_in_run(
    file: Seq<u8>,
    block: DataBlock,
    offset: u64,
    write: FileWrite,
    other: DataBlock,
)
    requires
        block.admits(offset as nat, write.data@.len()),
        write.position == block.position_of(offset as nat),
        other.position_of(other.byte_size()) <= block.position_of(0) || block.position_of(
            block.byte_size(),
        ) <= other.position_of(0),
    ensures
        read_back(write.applied(file), other.position_of(0), other.byte_size()) == read_back(
            file,
            other.position_of(0),
            other.byte_size(),
        ),
{
    crate::file_image::lemma_written_elsewhere(
        file,
        write.position as nat,
        write.data@,
        other.position_of(0),
        other.byte_size(),
    );
}

} // verus!
