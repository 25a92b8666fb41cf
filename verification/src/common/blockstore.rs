//! Block stores: where bytes are kept under their content address.

use vstd::prelude::*;
use crate::common::cid::{cid_for, cid_taken, cid_text, Cid, IpldCodec};
use crate::error::FsError;

verus! {

/// What a block store does: it keeps blocks of bytes and hands each back
/// under its content address.
pub trait BlockStore {
    /// The block kept under `cid`.
    fn get_block(&self, cid: &Cid) -> Result<Vec<u8>, FsError>;

    /// Keeps `bytes` and gives the address under which they are kept.
    fn put_block(&mut self, bytes: Vec<u8>, codec: IpldCodec) -> Result<Cid, FsError>;
}

/// A block store in memory: a hash map of the `hashbrown` crate from the
/// text form of an address to the block.
#[verifier::external_body]
pub struct MemoryBlockStore(hashbrown::HashMap<String, Vec<u8>>);

/// The blocks that a store in memory holds, each under the text form of its
/// address.
pub uninterp spec fn memory_blocks(store: MemoryBlockStore) -> Map<Seq<char>, Seq<u8>>;

/// Makes the map with `HashMap::new`: it holds nothing.
#[verifier::external_body]
fn empty_store() -> (made: MemoryBlockStore)
    ensures
        memory_blocks(made).dom() == Set::<Seq<char>>::empty(),
{
    MemoryBlockStore(hashbrown::HashMap::new())
}

/// Puts `bytes` under `key` with `HashMap::insert`: the map then holds
/// `bytes` under `key`, in place of what it held there, and everything else
/// as before.
#[verifier::external_body]
fn keep(store: &mut MemoryBlockStore, key: String, bytes: Vec<u8>)
    ensures
        memory_blocks(*final(store)) == memory_blocks(*old(store)).insert(key@, bytes@),
{
    store.0.insert(key, bytes);
}

/// Looks `key` up with `HashMap::get` and copies what is found.
#[verifier::external_body]
fn kept(store: &MemoryBlockStore, key: &String) -> (bytes: Option<Vec<u8>>)
    ensures
        match bytes {
            Some(b) => memory_blocks(*store).contains_key(key@) && b@ == memory_blocks(*store)[key@],
            None => !memory_blocks(*store).contains_key(key@),
        },
{
    store.0.get(key).cloned()
}

impl MemoryBlockStore {
    /// A store that holds nothing.
    pub fn new() -> (store: MemoryBlockStore)
        ensures
            memory_blocks(store) == Map::<Seq<char>, Seq<u8>>::empty(),
    {
        let store = empty_store();
        store
    }
}

impl Default for MemoryBlockStore {
    fn default() -> (store: MemoryBlockStore)
        ensures
            memory_blocks(store) == Map::<Seq<char>, Seq<u8>>::empty(),
    {
        MemoryBlockStore::new()
    }
}

impl BlockStore for MemoryBlockStore {
    /// The block kept under `cid`; fails with `CIDNotFoundInBlockstore` where
    /// none is.
    fn get_block(&self, cid: &Cid) -> (block: Result<Vec<u8>, FsError>)
        ensures
            match block {
                Ok(bytes) => {
                    &&& cid_text(cid@) matches Some(key)
                    &&& memory_blocks(*self).contains_key(key)
                    &&& bytes@ == memory_blocks(*self)[key]
                },
                Err(e) => {
                    &&& e == FsError::CIDNotFoundInBlockstore
                    &&& cid_text(cid@) matches Some(key)
                    &&& !memory_blocks(*self).contains_key(key)
                },
            },
    {
        match kept(self, &cid.to_string()) {
            Some(bytes) => Ok(bytes),
            None => Err(FsError::CIDNotFoundInBlockstore),
        }
    }

    /// Keeps `bytes` under the address that the bytes and the codec give, and
    /// hands back that address. It never fails, and what the store held under
    /// other addresses it holds as before.
    fn put_block(&mut self, bytes: Vec<u8>, codec: IpldCodec) -> (cid: Result<Cid, FsError>)
        ensures
            cid matches Ok(c) && {
                &&& c@ == cid_for(codec.spec_code(), bytes@)
                &&& cid_text(c@) matches Some(key)
                &&& memory_blocks(*final(self)) == memory_blocks(*old(self)).insert(key, bytes@)
            },
    {
        let cid = Cid::of(codec, bytes.as_slice());
        keep(self, cid.to_string(), bytes);
        Ok(cid)
    }
}

/// What was put is fetched: once a block is kept under an address, the store
/// holds it there, and holds under every other address what it held before.
pub proof fn lemma_put_then_get(
    before: MemoryBlockStore,
    after: MemoryBlockStore,
    cid: Seq<u8>,
    bytes: Seq<u8>,
    other: Seq<char>,
)
    requires
        cid_text(cid) matches Some(key) && memory_blocks(after) == memory_blocks(before).insert(
            key,
            bytes,
        ),
    ensures
        memory_blocks(after).contains_key(cid_text(cid).unwrap()),
        memory_blocks(after)[cid_text(cid).unwrap()] == bytes,
        other != cid_text(cid).unwrap() ==> memory_blocks(after).contains_key(other)
            == memory_blocks(before).contains_key(other),
        other != cid_text(cid).unwrap() && memory_blocks(before).contains_key(other)
            ==> memory_blocks(after)[other] == memory_blocks(before)[other],
{
}

/// A store on the far side of a foreign function interface, which knows
/// addresses and blocks as bytes only.
pub trait FFIStore<'a> {
    /// The block kept under the address with binary form `cid`.
    fn get_block<'b>(&'b self, cid: Vec<u8>) -> Result<Vec<u8>, FsError>;

    /// Keeps `bytes`, written in the codec that `codec` stands for, and
    /// gives the binary form of the address under which they are kept.
    fn put_block<'b>(&'b self, bytes: Vec<u8>, codec: i64) -> Result<Vec<u8>, FsError>;
}

/// A block store that keeps its blocks in a store on the far side of a
/// foreign function interface.
pub struct FFIFriendlyBlockStore<'a> {
    pub ffi_store: Box<dyn FFIStore<'a> + 'a>,
}

/// Whether `answer` is what `store` may answer where it is asked for the
/// block under the address with binary form `cid`.
pub open spec fn may_answer_get<'a, S: FFIStore<'a> + ?Sized>(
    store: &S,
    cid: Vec<u8>,
    answer: Result<Vec<u8>, FsError>,
) -> bool {
    call_ensures(S::get_block, (store, cid), answer)
}

/// Whether `answer` is what `store` may answer where it is handed `bytes`
/// and the number `codec` to keep.
pub open spec fn may_answer_put<'a, S: FFIStore<'a> + ?Sized>(
    store: &S,
    bytes: Vec<u8>,
    codec: i64,
    answer: Result<Vec<u8>, FsError>,
) -> bool {
    call_ensures(S::put_block, (store, bytes, codec), answer)
}

/// What a block store makes of the answer of the far side to a request for
/// a block: the block, or that no block is kept under the address, whatever
/// the far side gave as its reason.
pub open spec fn spec_block_from_ffi(answer: Result<Vec<u8>, FsError>) -> Result<
    Vec<u8>,
    FsError,
> {
    match answer {
        Ok(bytes) => Ok(bytes),
        Err(_) => Err(FsError::CIDNotFoundInBlockstore),
    }
}

/// Whether `cid` is what a block store makes of the answer of the far side
/// to a block handed to it: the address that the bytes it gave are taken
/// for, `InvalidCid` where they are taken for none, and the far side's own
/// error where it gave one.
pub open spec fn read_as_cid(answer: Result<Vec<u8>, FsError>, cid: Result<Cid, FsError>) -> bool {
    match answer {
        Ok(bytes) => match cid {
            Ok(c) => cid_taken(bytes@) == Some(c@) && cid_text(c@) is Some,
            Err(e) => e == FsError::InvalidCid && cid_taken(bytes@) is None,
        },
        Err(e) => cid matches Err(same) && same == e,
    }
}

/// What a block store answers where the store on the far side answered
/// `answer` to a request for a block: the block, or that no block is kept
/// under the address, whatever the far side gave as its reason.
pub fn block_from_ffi(answer: Result<Vec<u8>, FsError>) -> (block: Result<Vec<u8>, FsError>)
    ensures
        block == spec_block_from_ffi(answer),
{
    match answer {
        Ok(bytes) => Ok(bytes),
        Err(_) => Err(FsError::CIDNotFoundInBlockstore),
    }
}

/// What a block store answers where the store on the far side answered
/// `answer` to a block handed to it: the address that the bytes it gave are
/// taken for, `InvalidCid` where they are taken for none, and the far side's
/// own error where it gave one.
pub fn cid_from_ffi(answer: Result<Vec<u8>, FsError>) -> (cid: Result<Cid, FsError>)
    ensures
        read_as_cid(answer, cid),
{
    match answer {
        Ok(bytes) => Cid::try_from_bytes(bytes),
        Err(e) => Err(e),
    }
}

/// The number by which a codec goes across the interface.
pub fn codec_for_ffi(codec: IpldCodec) -> (code: i64)
    ensures
        code == codec.spec_code(),
{
    match codec {
        IpldCodec::Raw => 0x55,
        IpldCodec::DagCbor => 0x71,
        IpldCodec::DagJson => 0x0129,
        IpldCodec::DagPb => 0x70,
    }
}

impl<'a> FFIFriendlyBlockStore<'a> {
    /// A block store in front of `ffi_store`.
    pub fn new(ffi_store: Box<dyn FFIStore<'a> + 'a>) -> (store: Self)
        ensures
            store == (FFIFriendlyBlockStore { ffi_store }),
    {
        Self { ffi_store }
    }
}

impl<'b> BlockStore for FFIFriendlyBlockStore<'b> {
    /// Asks the store on the far side for the block under the binary form of
    /// `cid`, and answers with the block that it gives. Whatever it gives as
    /// the reason of a failure, the failure is that no block is kept under
    /// the address.
    fn get_block(&self, cid: &Cid) -> (block: Result<Vec<u8>, FsError>)
        ensures
            exists|asked: Vec<u8>, answer: Result<Vec<u8>, FsError>|
                #![all_triggers]
                {
                    &&& asked@ == cid@
                    &&& may_answer_get(&*self.ffi_store, asked, answer)
                    &&& block == spec_block_from_ffi(answer)
                },
            block matches Err(e) ==> e == FsError::CIDNotFoundInBlockstore,
    {
        let asked = cid.to_bytes();
        let answer = self.ffi_store.get_block(asked);
        proof {
            assert(may_answer_get(&*self.ffi_store, asked, answer));
        }
        block_from_ffi(answer)
    }

    /// Hands the bytes and the number of the codec to the store on the far
    /// side, and reads the bytes that come back as the address. The block
    /// store itself stays as it is.
    fn put_block(&mut self, bytes: Vec<u8>, codec: IpldCodec) -> (cid: Result<Cid, FsError>)
        ensures
            *final(self) == *old(self),
            exists|answer: Result<Vec<u8>, FsError>|
                #![all_triggers]
                {
                    &&& may_answer_put(
                        &*old(self).ffi_store,
                        bytes,
                        codec.spec_code() as i64,
                        answer,
                    )
                    &&& read_as_cid(answer, cid)
                },
            cid matches Ok(c) ==> cid_text(c@) is Some,
    {
        let code = codec_for_ffi(codec);
        let answer = self.ffi_store.put_block(bytes, code);
        proof {
            assert(may_answer_put(&*self.ffi_store, bytes, code, answer));
        }
        cid_from_ffi(answer)
    }
}

} // verus!
