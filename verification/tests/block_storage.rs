use leafless::block_storage::{
  BlockStorage, BlockStorageMeta, Claim, DataBlock, FileRead, FileWrite, ReadBuffer, StorageError,
  BLOCK_SIZE,
};
use std::collections::VecDeque;

/// A file held in memory. A read delivers at most `chunk` bytes at a time.
struct MemoryFile {
  bytes: Vec<u8>,
  chunk: usize,
}

impl MemoryFile {
  fn new() -> MemoryFile {
    MemoryFile { bytes: Vec::new(), chunk: 1000 }
  }

  fn write(&mut self, request: &FileWrite) {
    if request.data.is_empty() {
      return;
    }
    let start = request.position as usize;
    let end = start + request.data.len();
    if self.bytes.len() < end {
      self.bytes.resize(end, 0);
    }
    self.bytes[start..end].copy_from_slice(&request.data);
  }

  fn claim(&mut self, claim: &Claim) {
    self.bytes.resize(claim.file_length as usize, 0);
    self.write(&claim.meta);
  }

  fn read(&self, request: &FileRead) -> VecDeque<u8> {
    let mut buffer = ReadBuffer::new(request.max_length);
    let mut position = request.position as usize;
    loop {
      let available = self.bytes.len().saturating_sub(position);
      let take = available.min(buffer.remaining()).min(self.chunk);
      let chunk: &[u8] = if take == 0 { &[] } else { &self.bytes[position..position + take] };
      position += take;
      if buffer.accept(chunk) {
        break;
      }
    }
    buffer.finish()
  }
}

fn create_temp_storage() -> (BlockStorage, MemoryFile) {
  let mut file = MemoryFile::new();
  let (storage, flush) = BlockStorage::create();
  file.write(&flush);
  (storage, file)
}

fn claim(storage: &mut BlockStorage, file: &mut MemoryFile, count: u64) -> DataBlock {
  assert!(storage.hasRoom(count));
  let claim = storage.claimBlock(count);
  file.claim(&claim);
  claim.block
}

fn text(text: &str) -> VecDeque<u8> {
  text.chars().map(|c| c as u8).collect::<VecDeque<_>>()
}

#[test]
fn test_create_block_storage() {
  let mut file = MemoryFile::new();
  let (_, flush) = BlockStorage::create();
  file.write(&flush);
  let storage = BlockStorage::open(file.read(&BlockStorage::readMeta()));
  assert_eq!(storage.meta().offset(), 1);
}

#[test]
fn test_claim_storage() {
  let (mut storage, mut file) = create_temp_storage();
  let block = claim(&mut storage, &mut file, 1);
  let data = text("data");
  file.write(&storage.writeBlock(&block, data.clone()).unwrap());
  let mut read = file.read(&storage.readBlock(&block));
  read.resize(4, 0);
  assert_eq!(read, data);
  read.resize(BLOCK_SIZE as usize + 1, 0);
  assert!(storage.writeBlock(&block, read).is_err());
}

#[test]
fn create_persists_block_one_at_the_start() {
  let (storage, flush) = BlockStorage::create();
  assert_eq!(storage.meta().offset(), 1);
  assert_eq!(flush.position, 0);
  assert_eq!(flush.data, vec![0x01]);
}

#[test]
fn header_read_covers_block_zero() {
  assert_eq!(BlockStorage::readMeta(), FileRead { position: 0, max_length: 4096 });
}

#[test]
fn open_recovers_metadata_after_claims() {
  let (mut storage, mut file) = create_temp_storage();
  claim(&mut storage, &mut file, 299);
  let reopened = BlockStorage::open(file.read(&BlockStorage::readMeta()));
  assert_eq!(reopened.meta().offset(), 300);
  assert_eq!(&file.bytes[..3], &[0xAC, 0x02, 0x00]);
}

#[test]
fn open_of_an_empty_file_yields_zero() {
  let file = MemoryFile::new();
  let storage = BlockStorage::open(file.read(&BlockStorage::readMeta()));
  assert_eq!(storage.meta().offset(), 0);
}

#[test]
fn meta_serializes_with_the_codec() {
  let meta = BlockStorageMeta::new(300);
  assert_eq!(meta.serialize(), VecDeque::from(vec![0xAC, 0x02]));
  let mut other = BlockStorageMeta::new(0);
  let mut data = VecDeque::from(vec![0xAC, 0x02, 0x07]);
  other.deserialize(&mut data);
  assert_eq!(other.offset(), 300);
  assert_eq!(data, VecDeque::from(vec![0x07]));
}

#[test]
fn claim_asks_for_resize_and_metadata() {
  let (mut storage, _) = create_temp_storage();
  let claim = storage.claimBlock(3);
  assert_eq!(claim.block.offset(), 1);
  assert_eq!(claim.block.size(), 3 * 4096);
  assert_eq!(claim.file_length, 4 * 4096);
  assert_eq!(claim.meta.position, 0);
  assert_eq!(claim.meta.data, vec![0x04]);
  assert_eq!(storage.meta().offset(), 4);
}

#[test]
fn consecutive_claims_are_adjacent() {
  let (mut storage, mut file) = create_temp_storage();
  let first = claim(&mut storage, &mut file, 5);
  let second = claim(&mut storage, &mut file, 2);
  assert_eq!(first.offset(), 1);
  assert_eq!(second.offset(), first.offset() + 5);
  assert_eq!(first.size(), 5 * BLOCK_SIZE);
  assert_eq!(second.size(), 2 * BLOCK_SIZE);
  assert_eq!(storage.meta().offset(), 8);
  assert_eq!(file.bytes.len() as u64, 8 * BLOCK_SIZE);
}

#[test]
fn room_ends_where_positions_leave_64_bits() {
  let (storage, _) = create_temp_storage();
  let limit = u64::MAX / BLOCK_SIZE;
  assert!(storage.hasRoom(0));
  assert!(storage.hasRoom(limit - 1));
  assert!(!storage.hasRoom(limit));
  assert!(!storage.hasRoom(u64::MAX));
}

#[test]
fn write_then_read_returns_the_data() {
  let (mut storage, mut file) = create_temp_storage();
  let block = claim(&mut storage, &mut file, 2);
  let data: VecDeque<u8> = (0..5000u32).map(|i| (i % 251) as u8).collect();
  let write = storage.writeBlock(&block, data.clone()).unwrap();
  assert_eq!(write.position, 4096);
  file.write(&write);
  let read = file.read(&storage.readBlockOffset(&block, 0, 5000));
  assert_eq!(read, data);
}

#[test]
fn write_at_offset_lands_inside_the_run() {
  let (mut storage, mut file) = create_temp_storage();
  let _ = claim(&mut storage, &mut file, 1);
  let block = claim(&mut storage, &mut file, 1);
  let write = storage.writeBlockOffset(&block, 10, text("abc")).unwrap();
  assert_eq!(write.position, 2 * 4096 + 10);
  assert_eq!(write.data, vec![b'a', b'b', b'c']);
  file.write(&write);
  assert_eq!(file.read(&storage.readBlockOffset(&block, 9, 5)), VecDeque::from(vec![0, b'a', b'b', b'c', 0]));
  let whole = storage.writeBlockOffset(&block, 4093, text("xyz"));
  assert!(whole.is_ok());
}

#[test]
fn write_past_the_run_is_refused() {
  let (mut storage, mut file) = create_temp_storage();
  let block = claim(&mut storage, &mut file, 1);
  file.write(&storage.writeBlock(&block, text("kept")).unwrap());
  let before = file.bytes.clone();
  let refused = storage.writeBlockOffset(&block, 4094, text("xyz"));
  assert_eq!(refused.unwrap_err(), StorageError::ExceedsCapacity);
  let refused = storage.writeBlockOffset(&block, u64::MAX, text("x"));
  assert_eq!(refused.unwrap_err(), StorageError::ExceedsCapacity);
  let refused = storage.writeBlockOffset(&block, 4097, VecDeque::new());
  assert_eq!(refused.unwrap_err(), StorageError::ExceedsCapacity);
  assert!(storage.writeBlockOffset(&block, 4096, VecDeque::new()).is_ok());
  assert_eq!(file.bytes, before);
}

#[test]
fn unwritten_run_reads_as_zero() {
  let (mut storage, mut file) = create_temp_storage();
  let block = claim(&mut storage, &mut file, 2);
  let read = file.read(&storage.readBlock(&block));
  assert_eq!(read.len(), 8192);
  assert!(read.iter().all(|byte| *byte == 0));
}

#[test]
fn read_past_the_end_of_the_file_is_zero_filled() {
  let (mut storage, mut file) = create_temp_storage();
  let block = claim(&mut storage, &mut file, 1);
  file.write(&storage.writeBlockOffset(&block, 4092, text("tail")).unwrap());
  let read = file.read(&storage.readBlockOffset(&block, 4092, 8));
  assert_eq!(read, VecDeque::from(vec![b't', b'a', b'i', b'l', 0, 0, 0, 0]));
}

#[test]
fn read_buffer_lays_chunks_in_order() {
  let mut buffer = ReadBuffer::new(6);
  assert_eq!(buffer.remaining(), 6);
  assert!(!buffer.accept(&[1, 2]));
  assert_eq!(buffer.remaining(), 4);
  assert!(!buffer.accept(&[3]));
  assert!(buffer.accept(&[]));
  assert_eq!(buffer.finish(), VecDeque::from(vec![1, 2, 3, 0, 0, 0]));
  let mut full = ReadBuffer::new(2);
  assert!(full.accept(&[7, 8]));
  assert_eq!(full.finish(), VecDeque::from(vec![7, 8]));
  let mut empty = ReadBuffer::new(0);
  assert!(empty.accept(&[]));
  assert!(empty.finish().is_empty());
}

#[test]
fn short_reads_are_joined() {
  let (mut storage, mut file) = create_temp_storage();
  file.chunk = 3;
  let block = claim(&mut storage, &mut file, 1);
  file.write(&storage.writeBlock(&block, text("short reads")).unwrap());
  let read = file.read(&storage.readBlockOffset(&block, 0, 11));
  assert_eq!(read, text("short reads"));
}

#[test]
fn one_block_scenario() {
  let (mut storage, mut file) = create_temp_storage();
  let block = claim(&mut storage, &mut file, 1);
  assert_eq!(block.size(), 4096);
  file.write(&storage.writeBlockOffset(&block, 0, text("data")).unwrap());
  assert_eq!(file.read(&storage.readBlockOffset(&block, 0, 4)), text("data"));
  let mut expected = text("data");
  expected.resize(4096, 0);
  assert_eq!(file.read(&storage.readBlock(&block)), expected);
  let too_long: VecDeque<u8> = vec![1u8; 4097].into();
  assert_eq!(storage.writeBlockOffset(&block, 0, too_long).unwrap_err(), StorageError::ExceedsCapacity);
}
