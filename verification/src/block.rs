//! Stored objects: raw bytes named by their content identifier.

use vstd::prelude::*;
use crate::encoding::{cid_v1_string, raw_block_cid, sha2_256, RAW_CODEC, SHA2_256_CODE};
use crate::message::ContentId;

verus! {

/// A stored object: its content identifier (text form) and its bytes.
#[derive(Debug, Clone, PartialEq, Eq)]
pub struct Block {
    pub cid: ContentId,
    pub data: Vec<u8>,
}

impl Block {
    /// A block holding `data` under the identifier `cid`.
    pub fn new(data: Vec<u8>, cid: ContentId) -> (b: Block)
        ensures
            b.cid@ == cid@,
            b.data@ == data@,
    {
        Block { cid, data }
    }

    /// The content identifier of the block.
    pub fn cid(&self) -> (r: &ContentId)
        ensures
            r@ == self.cid@,
    {
        &self.cid
    }

    /// The bytes of the block.
    pub fn data(&self) -> (r: &[u8])
        ensures
            r@ == self.data@,
    {
        self.data.as_slice()
    }
}

/// The raw block holding `bytes`: its identifier is the version 1 content
/// identifier with the raw codec and the SHA2-256 multihash of the bytes.
pub fn create_block(bytes: Vec<u8>) -> (b: Block)
    ensures
        b.cid@ == raw_block_cid(bytes@),
        b.data@ == bytes@,
{
    let digest = sha2_256(bytes.as_slice());
    let cid = cid_v1_string(RAW_CODEC, SHA2_256_CODE, digest.as_slice());
    Block::new(bytes, cid)
}

} // verus!
