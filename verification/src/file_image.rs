//! A model of the file that the storage manager governs: its contents as a
//! sequence of bytes, and what seek-and-write, set-length and seek-and-read do
//! to that sequence.

use vstd::prelude::*;

verus! {

/// `length` zero bytes.
pub open spec fn zeros(length: nat) -> Seq<u8> {
    Seq::new(length, |i: int| 0u8)
}

/// The file after `data` was written at `position`. A write that ends past the
/// end of the file extends it; a gap between the old end and `position` reads
/// as zero. Writing nothing changes nothing.
pub open spec fn written(file: Seq<u8>, position: nat, data: Seq<u8>) -> Seq<u8> {
    if data.len() == 0 {
        file
    } else {
        Seq::new(
            if position + data.len() > file.len() {
                position + data.len()
            } else {
                file.len()
            },
            |i: int|
                if position <= i < position + data.len() {
                    data[i - position]
                } else if i < file.len() {
                    file[i]
                } else {
                    0u8
                },
        )
    }
}

/// The file after its length was set to `length`: cut off, or extended with
/// zero bytes.
pub open spec fn resized(file: Seq<u8>, length: nat) -> Seq<u8> {
    Seq::new(
        length,
        |i: int|
            if i < file.len() {
                file[i]
            } else {
                0u8
            },
    )
}

/// What a read of up to `max_length` bytes at `position` yields once it has run
/// to the end of the file: the bytes that the file holds there, and zero for
/// every byte past its end.
pub open spec fn read_back(file: Seq<u8>, position: nat, max_length: nat) -> Seq<u8> {
    Seq::new(
        max_length,
        |i: int|
            if position + i < file.len() {
                file[position + i]
            } else {
                0u8
            },
    )
}

/// Reading where something was just written gives it back.
pub proof fn lemma_read_written(file: Seq<u8>, position: nat, data: Seq<u8>)
    ensures
        read_back(written(file, position, data), position, data.len()) == data,
{
    assert(read_back(written(file, position, data), position, data.len()) =~= data);
}

/// A write leaves what lies wholly before or wholly behind it as it was.
pub proof fn lemma_written_elsewhere(
    file: Seq<u8>,
    position: nat,
    data: Seq<u8>,
    at: nat,
    length: nat,
)
    requires
        at + length <= position || at >= position + data.len(),
    ensures
        read_back(written(file, position, data), at, length) == read_back(file, at, length),
{
    assert(read_back(written(file, position, data), at, length) =~= read_back(file, at, length));
}

} // verus!
