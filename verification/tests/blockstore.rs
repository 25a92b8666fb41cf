use std::cell::RefCell;
use std::collections::HashMap;
use std::io::Cursor;

use libipld::cbor::DagCborCodec;
use libipld::codec::{Decode, Encode};
use libipld::multihash::MultihashDigest;
use wnfslib::common::blockstore::{
    block_from_ffi, cid_from_ffi, codec_for_ffi, BlockStore, FFIFriendlyBlockStore, FFIStore,
    MemoryBlockStore,
};
use wnfslib::common::cid::{Cid, IpldCodec};
use wnfslib::error::FsError;

fn encoded(bytes: Vec<u8>) -> Vec<u8> {
    let mut tmp = vec![];
    bytes.encode(DagCborCodec, &mut tmp).unwrap();
    tmp
}

fn decoded(bytes: Vec<u8>) -> Vec<u8> {
    Decode::decode(DagCborCodec, &mut Cursor::new(bytes)).unwrap()
}

#[test]
fn inserted_items_can_be_fetched() {
    let store = &mut MemoryBlockStore::new();

    let first_bytes = encoded(vec![1, 2, 3, 4, 5]);
    let second_bytes = encoded(b"hello world".to_vec());

    let first_cid = &store.put_block(first_bytes, IpldCodec::DagCbor).unwrap();
    let second_cid = &store.put_block(second_bytes, IpldCodec::DagCbor).unwrap();

    let first_loaded: Vec<u8> = decoded(store.get_block(first_cid).unwrap());
    let second_loaded: Vec<u8> = decoded(store.get_block(second_cid).unwrap());

    assert_eq!(first_loaded, vec![1, 2, 3, 4, 5]);
    assert_eq!(second_loaded, b"hello world".to_vec());
}

struct MapStore {
    blocks: RefCell<HashMap<Vec<u8>, Vec<u8>>>,
}

impl<'a> FFIStore<'a> for MapStore {
    fn get_block<'b>(&'b self, cid: Vec<u8>) -> Result<Vec<u8>, FsError> {
        self.blocks.borrow().get(&cid).cloned().ok_or(FsError::NotFound)
    }

    fn put_block<'b>(&'b self, bytes: Vec<u8>, codec: i64) -> Result<Vec<u8>, FsError> {
        let hash = libipld::multihash::Code::Sha2_256.digest(&bytes);
        let cid = libipld::Cid::new_v1(codec as u64, hash).to_bytes();
        self.blocks.borrow_mut().insert(cid.clone(), bytes);
        Ok(cid)
    }
}

struct BrokenStore;

impl<'a> FFIStore<'a> for BrokenStore {
    fn get_block<'b>(&'b self, _cid: Vec<u8>) -> Result<Vec<u8>, FsError> {
        Err(FsError::InvalidPath)
    }

    fn put_block<'b>(&'b self, _bytes: Vec<u8>, _codec: i64) -> Result<Vec<u8>, FsError> {
        Ok(vec![9, 9, 9])
    }
}

#[test]
fn blockstore_inserted_items_can_be_fetched() {
    let store = MapStore { blocks: RefCell::new(HashMap::new()) };
    let blockstore = &mut FFIFriendlyBlockStore::new(Box::new(store));

    let first_bytes = encoded(vec![1, 2, 3, 4, 5]);
    let second_bytes = encoded(b"hello world".to_vec());

    let first_cid = &blockstore.put_block(first_bytes, IpldCodec::DagCbor).unwrap();
    let second_cid = &blockstore.put_block(second_bytes, IpldCodec::DagCbor).unwrap();

    let first_loaded: Vec<u8> = decoded(blockstore.get_block(first_cid).unwrap());
    let second_loaded: Vec<u8> = decoded(blockstore.get_block(second_cid).unwrap());

    assert_eq!(first_loaded, vec![1, 2, 3, 4, 5]);
    assert_eq!(second_loaded, b"hello world".to_vec());
}

#[test]
fn a_block_that_was_not_put_is_not_found() {
    let mut store = MemoryBlockStore::default();
    let elsewhere = Cid::of(IpldCodec::Raw, b"not here");
    assert_eq!(store.get_block(&elsewhere).err(), Some(FsError::CIDNotFoundInBlockstore));
    let cid = store.put_block(b"here".to_vec(), IpldCodec::Raw).unwrap();
    assert_eq!(store.get_block(&cid).unwrap(), b"here".to_vec());
    assert_eq!(store.get_block(&elsewhere).err(), Some(FsError::CIDNotFoundInBlockstore));

    let far = MapStore { blocks: RefCell::new(HashMap::new()) };
    let front = FFIFriendlyBlockStore::new(Box::new(far));
    assert_eq!(front.get_block(&elsewhere).err(), Some(FsError::CIDNotFoundInBlockstore));
}

#[test]
fn what_the_far_side_answers_is_read_with_care() {
    let mut front = FFIFriendlyBlockStore::new(Box::new(BrokenStore));
    assert_eq!(
        front.get_block(&Cid::default()).err(),
        Some(FsError::CIDNotFoundInBlockstore)
    );
    assert_eq!(
        front.put_block(b"bytes".to_vec(), IpldCodec::Raw).err(),
        Some(FsError::InvalidCid)
    );

    assert_eq!(block_from_ffi(Ok(vec![1, 2])), Ok(vec![1, 2]));
    assert_eq!(
        block_from_ffi(Err(FsError::NotAFile)),
        Err(FsError::CIDNotFoundInBlockstore)
    );
    assert_eq!(cid_from_ffi(Err(FsError::NotAFile)).err(), Some(FsError::NotAFile));
    assert_eq!(cid_from_ffi(Ok(vec![])).err(), Some(FsError::InvalidCid));
    assert_eq!(cid_from_ffi(Ok(vec![1, 0, 0, 0])).unwrap(), Cid::default());
}

#[test]
fn an_address_is_the_one_that_the_crate_gives() {
    let data = b"hello world";
    for (ours, theirs) in [
        (IpldCodec::Raw, libipld::IpldCodec::Raw),
        (IpldCodec::DagCbor, libipld::IpldCodec::DagCbor),
        (IpldCodec::DagJson, libipld::IpldCodec::DagJson),
        (IpldCodec::DagPb, libipld::IpldCodec::DagPb),
    ] {
        let code: u64 = theirs.into();
        assert_eq!(ours.code(), code);
        assert_eq!(codec_for_ffi(ours), code as i64);
        assert_eq!(IpldCodec::from_code(code), Some(ours));

        let expected = libipld::Cid::new_v1(code, libipld::multihash::Code::Sha2_256.digest(data));
        let cid = Cid::of(ours, data);
        assert_eq!(cid.to_bytes(), expected.to_bytes());
        assert_eq!(cid.to_string(), expected.to_string());
        assert!(cid.same(&Cid::try_from_bytes(expected.to_bytes()).unwrap()));
        assert!(!cid.same(&Cid::of(ours, b"other")));
    }
    assert_eq!(IpldCodec::from_code(0), None);
}

#[test]
fn the_default_address_is_that_of_the_crate() {
    let cid = Cid::default();
    assert_eq!(cid.to_bytes(), vec![1, 0, 0, 0]);
    assert_eq!(cid.to_bytes(), libipld::Cid::default().to_bytes());
    assert_eq!(cid.to_string(), libipld::Cid::default().to_string());
    assert_eq!(cid.clone(), cid);
    assert!(cid.duplicate().same(&cid));
}

#[test]
fn bytes_that_are_no_address_are_refused() {
    assert_eq!(Cid::try_from_bytes(vec![]).err(), Some(FsError::InvalidCid));
    assert_eq!(Cid::try_from_bytes(vec![7]).err(), Some(FsError::InvalidCid));
    assert_eq!(Cid::try_from_bytes(vec![1, 0x55, 0x12, 0x20, 1, 2]).err(), Some(FsError::InvalidCid));
}

#[test]
fn equal_blocks_have_one_address_and_earlier_blocks_stay() {
    let mut store = MemoryBlockStore::new();
    let first = store.put_block(b"one".to_vec(), IpldCodec::Raw).unwrap();
    let second = store.put_block(b"two".to_vec(), IpldCodec::Raw).unwrap();
    let again = store.put_block(b"one".to_vec(), IpldCodec::Raw).unwrap();
    let other_codec = store.put_block(b"one".to_vec(), IpldCodec::DagCbor).unwrap();
    assert_eq!(first, again);
    assert_ne!(first, second);
    assert_ne!(first, other_codec);
    assert_eq!(first, Cid::of(IpldCodec::Raw, b"one"));
    assert_eq!(store.get_block(&first).unwrap(), b"one".to_vec());
    assert_eq!(store.get_block(&second).unwrap(), b"two".to_vec());
    assert_eq!(store.get_block(&other_codec).unwrap(), b"one".to_vec());
    assert!(store.put_block(Vec::new(), IpldCodec::DagPb).is_ok());
}

#[test]
fn what_follows_an_address_is_left_behind() {
    let long = Cid::try_from_bytes(vec![1, 0, 0, 0, 9, 9]).unwrap();
    assert_eq!(long, Cid::default());
    assert_eq!(long.to_bytes(), vec![1, 0, 0, 0]);
    let mut bytes = Cid::of(IpldCodec::Raw, b"x").to_bytes();
    let exact = bytes.clone();
    bytes.push(7);
    assert_eq!(Cid::try_from_bytes(bytes).unwrap().to_bytes(), exact);
    assert_eq!(cid_from_ffi(Ok(vec![1, 0, 0, 0, 5])).unwrap(), Cid::default());
}

#[test]
fn an_address_of_version_0_is_taken_only_with_a_digest_of_32_bytes() {
    // Version 0, the codec of version 0, and a digest of no bytes: it is read,
    // but what is written out of it is read as no address.
    match Cid::try_from_bytes(vec![0x00, 0x70, 0x12, 0x00]) {
        Ok(cid) => {
            let _ = cid.to_string();
            panic!("{:?}", cid);
        }
        Err(e) => assert_eq!(e, FsError::InvalidCid),
    }
    assert_eq!(
        cid_from_ffi(Ok(vec![0x00, 0x70, 0x12, 0x00])).err(),
        Some(FsError::InvalidCid)
    );
    assert_eq!(
        Cid::try_from_bytes(vec![0x00, 0x70, 0x12, 0x02, 1, 2]).err(),
        Some(FsError::InvalidCid)
    );

    // With a digest of 32 bytes it is an address, in either way of writing it.
    let digest = libipld::multihash::Code::Sha2_256.digest(b"x").to_bytes();
    assert_eq!(digest.len(), 34);
    let mut long = vec![0x00, 0x70];
    long.extend_from_slice(&digest);
    let bare = Cid::try_from_bytes(digest.clone()).unwrap();
    let spelled = Cid::try_from_bytes(long).unwrap();
    assert_eq!(bare.to_bytes(), digest);
    assert_eq!(spelled, bare);
    assert_eq!(
        bare.to_string(),
        libipld::Cid::try_from(digest.as_slice()).unwrap().to_string()
    );
    assert!(bare.to_string().starts_with("Qm"));

    // A store in memory takes it as it takes any address.
    let store = MemoryBlockStore::new();
    assert_eq!(store.get_block(&bare).err(), Some(FsError::CIDNotFoundInBlockstore));
}
