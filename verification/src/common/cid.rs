//! Content addresses.
//!
//! A content address is held in its binary form. What makes bytes a content
//! address, what the address of given data is and how an address reads as
//! text is the `libipld` crate's to say.

use vstd::prelude::*;
use libipld::multihash::MultihashDigest;
use crate::error::FsError;

verus! {

/// The binary form of the version 1 content address, with codec `codec`, of
/// the SHA2-256 digest of `data`.
pub uninterp spec fn cid_for(codec: u64, data: Seq<u8>) -> Seq<u8>;

/// The text form of the content address whose binary form is `cid`, or `None`
/// where `cid` is the binary form of none.
pub uninterp spec fn cid_text(cid: Seq<u8>) -> Option<Seq<char>>;

/// The binary form of the address that `bytes` are read as, or `None` where
/// they are read as none. Bytes that follow an address are not read.
pub uninterp spec fn cid_parsed(bytes: Seq<u8>) -> Option<Seq<u8>>;

/// Hashes `data` with `Code::Sha2_256.digest`, makes the version 1 address
/// with `Cid::new_v1`, which cannot fail, and gives its bytes with
/// `Cid::to_bytes`. What comes out is the binary form of an address.
#[verifier::external_body]
fn address_of(codec: u64, data: &[u8]) -> (cid: Vec<u8>)
    ensures
        cid@ == cid_for(codec, data@),
        cid_text(cid@) is Some,
{
    let hash = libipld::multihash::Code::Sha2_256.digest(data);
    libipld::Cid::new_v1(codec, hash).to_bytes()
}

/// Reads `cid` as an address with `Cid::try_from` and gives its text form
/// with `to_string`; nothing where the bytes are no address.
#[verifier::external_body]
fn text_of(cid: &[u8]) -> (text: Option<String>)
    ensures
        text matches Some(t) ==> cid_text(cid@) == Some(t@),
        text is None ==> cid_text(cid@) is None,
{
    Some(libipld::Cid::try_from(cid).ok()?.to_string())
}

/// Reads `bytes` as an address with `Cid::try_from` and writes the address
/// out again with `Cid::to_bytes`; nothing where the bytes are no address.
/// Bytes are read as an address exactly when they have a text form as one.
/// Nothing is claimed of what is written out: an address of version 0 is
/// read whatever the length of its digest, and is written out as the bare
/// digest, which is read as an address again only where it is 32 bytes long.
#[verifier::external_body]
fn parsed_of(bytes: &[u8]) -> (cid: Option<Vec<u8>>)
    ensures
        cid matches Some(c) ==> cid_parsed(bytes@) == Some(c@),
        cid is None ==> cid_parsed(bytes@) is None,
        cid is Some <==> cid_text(bytes@) is Some,
{
    Some(libipld::Cid::try_from(bytes).ok()?.to_bytes())
}

/// The bytes of `Cid::default()`: version 1, codec 0, and an empty digest of
/// hash function 0. They are the binary form of an address.
#[verifier::external_body]
fn default_address() -> (cid: Vec<u8>)
    ensures
        cid@ == seq![1u8, 0u8, 0u8, 0u8],
        cid_text(cid@) is Some,
{
    libipld::Cid::default().to_bytes()
}

/// The address that `bytes` are taken for: what they are read as, where
/// that is itself the binary form of an address.
pub open spec fn cid_taken(bytes: Seq<u8>) -> Option<Seq<u8>> {
    match cid_parsed(bytes) {
        Some(parsed) => if cid_text(parsed) is Some {
            Some(parsed)
        } else {
            None
        },
        None => None,
    }
}

/// The codecs in which a block may be written.
#[derive(Clone, Copy, Debug, PartialEq, Eq, Structural)]
pub enum IpldCodec {
    Raw,
    DagCbor,
    DagJson,
    DagPb,
}

impl IpldCodec {
    /// The number that stands for the codec in a content address.
    pub open spec fn spec_code(self) -> u64 {
        match self {
            IpldCodec::Raw => 0x55,
            IpldCodec::DagCbor => 0x71,
            IpldCodec::DagJson => 0x0129,
            IpldCodec::DagPb => 0x70,
        }
    }

    /// The number that stands for the codec in a content address.
    pub fn code(self) -> (code: u64)
        ensures
            code == self.spec_code(),
    {
        match self {
            IpldCodec::Raw => 0x55,
            IpldCodec::DagCbor => 0x71,
            IpldCodec::DagJson => 0x0129,
            IpldCodec::DagPb => 0x70,
        }
    }

    /// The codec that `code` stands for, if it stands for one.
    pub fn from_code(code: u64) -> (codec: Option<IpldCodec>)
        ensures
            match codec {
                Some(c) => c.spec_code() == code,
                None => forall|c: IpldCodec| c.spec_code() != code,
            },
    {
        if code == 0x55 {
            Some(IpldCodec::Raw)
        } else if code == 0x71 {
            Some(IpldCodec::DagCbor)
        } else if code == 0x0129 {
            Some(IpldCodec::DagJson)
        } else if code == 0x70 {
            Some(IpldCodec::DagPb)
        } else {
            None
        }
    }
}

/// A content address.
#[derive(Debug, PartialEq, Eq)]
pub struct Cid {
    bytes: Vec<u8>,
}

impl Cid {
    /// The bytes are the binary form of a content address.
    #[verifier::type_invariant]
    pub closed spec fn wf(&self) -> bool {
        cid_text(self.bytes@) is Some
    }

    /// The address as a plain value: its binary form.
    pub closed spec fn view(&self) -> Seq<u8> {
        self.bytes@
    }

    /// The address of `data` written in `codec`: the same for the same
    /// bytes and codec, whenever and wherever it is made.
    pub fn of(codec: IpldCodec, data: &[u8]) -> (cid: Cid)
        ensures
            cid@ == cid_for(codec.spec_code(), data@),
            cid_text(cid@) is Some,
    {
        Cid { bytes: address_of(codec.code(), data) }
    }

    /// The address that `bytes` are read as; what follows the address in
    /// `bytes` is left behind. Fails with `InvalidCid` where the bytes are
    /// read as no address, and where what they are read as is not itself
    /// the binary form of an address.
    pub fn try_from_bytes(bytes: Vec<u8>) -> (cid: Result<Cid, FsError>)
        ensures
            match cid {
                Ok(c) => cid_taken(bytes@) == Some(c@) && cid_text(c@) is Some,
                Err(e) => e == FsError::InvalidCid && cid_taken(bytes@) is None,
            },
    {
        let parsed = match parsed_of(bytes.as_slice()) {
            Some(parsed) => parsed,
            None => {
                return Err(FsError::InvalidCid);
            },
        };
        match text_of(parsed.as_slice()) {
            Some(_) => Ok(Cid { bytes: parsed }),
            None => Err(FsError::InvalidCid),
        }
    }

    /// The binary form of the address.
    pub fn to_bytes(&self) -> (bytes: Vec<u8>)
        ensures
            bytes@ == self@,
    {
        self.bytes.clone()
    }

    /// The text form of the address.
    pub fn to_string(&self) -> (text: String)
        ensures
            cid_text(self@) == Some(text@),
    {
        proof {
            use_type_invariant(self);
        }
        match text_of(self.bytes.as_slice()) {
            Some(text) => text,
            None => vstd::pervasive::unreached(),
        }
    }

    /// Whether two addresses are the same.
    pub fn same(&self, other: &Cid) -> (same: bool)
        ensures
            same == (self@ == other@),
    {
        if self.bytes.len() != other.bytes.len() {
            return false;
        }
        let mut i: usize = 0;
        while i < self.bytes.len()
            invariant
                i <= self.bytes@.len(),
                self.bytes@.len() == other.bytes@.len(),
                forall|j: int| 0 <= j < i ==> self.bytes@[j] == other.bytes@[j],
            decreases self.bytes@.len() - i,
        {
            if self.bytes[i] != other.bytes[i] {
                return false;
            }
            i = i + 1;
        }
        proof {
            assert(self.bytes@ =~= other.bytes@);
        }
        true
    }

    /// An address of its own with the same bytes.
    pub fn duplicate(&self) -> (copy: Cid)
        ensures
            copy@ == self@,
    {
        proof {
            use_type_invariant(self);
        }
        Cid { bytes: self.bytes.clone() }
    }
}

impl Clone for Cid {
    fn clone(&self) -> (copy: Cid)
        ensures
            copy@ == self@,
    {
        self.duplicate()
    }
}

impl Default for Cid {
    /// The address that stands for no content: version 1, codec 0, and an
    /// empty digest.
    fn default() -> (cid: Cid)
        ensures
            cid@ == seq![1u8, 0u8, 0u8, 0u8],
    {
        Cid { bytes: default_address() }
    }
}

} // verus!
