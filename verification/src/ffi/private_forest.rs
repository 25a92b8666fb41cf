//! The private file system as the far side of the interface uses it: one
//! root directory in one forest, every operation answered with the forest
//! and the reference of the root that it leaves, and every failure with its
//! words.

use vstd::prelude::*;
use vstd::string::*;
use std::rc::Rc;
use crate::common::digest::{sha3_256, sha3_256_digest};
use crate::common::metadata::Metadata;
use crate::common::pathnodes::names_of;
use crate::common::random::random_bytes;
use crate::common::share::share_rc;
use crate::error::FsError;
use crate::ffi::path::{parse_path, spec_parse_path};
use crate::common::pathnodes::PathNodes;
use crate::private::directory::{fixed_up, points_at, PrivateOpResult};
use crate::private::forest::PrivateForest;
use crate::private::header::{revision_hash, PrivateNodeHeader, PrivateRef};
use crate::private::node::{PrivateDirectory, PrivateNode};
use crate::private::ratchet::ratchet_origin;

verus! {

/// The bare name of the place above every root.
pub open spec fn spec_root_parent() -> Seq<u8> {
    Seq::new(32, |i: int| 0u8)
}

/// The bare name of the place above every root.
pub fn root_parent() -> (name: [u8; 32])
    ensures
        name@ == spec_root_parent(),
{
    let name = [0u8; 32];
    name
}

/// How many bytes of a file make one block of a stream.
pub const BLOCK_SIZE: usize = 262_144;

/// Where in a file of `len` bytes the block with number `index` begins: at
/// the end of the file for a block that the file does not have.
pub open spec fn block_start(len: int, index: int) -> int {
    if index * BLOCK_SIZE >= len {
        len
    } else {
        index * BLOCK_SIZE
    }
}

/// The bytes of a file from its block with number `index` on.
pub fn content_from_block(content: &Vec<u8>, index: usize) -> (rest: Vec<u8>)
    ensures
        rest@ == content@.skip(block_start(content@.len() as int, index as int)),
{
    let len = content.len();
    let start = match index.checked_mul(BLOCK_SIZE) {
        Some(start) => if start < len {
            start
        } else {
            len
        },
        None => len,
    };
    let mut rest: Vec<u8> = Vec::new();
    let mut i: usize = start;
    while i < len
        invariant
            start <= i <= len,
            len == content@.len(),
            rest@ == content@.subrange(start as int, i as int),
        decreases len - i,
    {
        rest.push(content[i]);
        proof {
            assert(rest@ =~= content@.subrange(start as int, i + 1));
        }
        i = i + 1;
    }
    proof {
        assert(content@.subrange(start as int, len as int) =~= content@.skip(start as int));
    }
    rest
}

/// What an operation leaves: the forest, and the reference of the root.
pub type Config = (Rc<PrivateForest>, PrivateRef);

/// The operations of the private file system for the far side of the
/// interface.
pub struct PrivateDirectoryHelper {}

impl PrivateDirectoryHelper {
    /// The answer to an operation: the forest and the reference of the root
    /// that it left, or the words of its failure.
    pub fn answer<T>(outcome: Result<PrivateOpResult<T>, FsError>) -> (config: Result<Config, String>)
        ensures
            match outcome {
                Ok(r) => config matches Ok(c) && c.0 == r.forest && points_at(
                    c.1,
                    r.root_dir.header,
                ),
                Err(e) => config matches Err(words) && words@ == e.spec_message(),
            },
    {
        match outcome {
            Ok(r) => {
                let private_ref = r.root_dir.header.get_private_ref();
                Ok((r.forest, private_ref))
            },
            Err(e) => Err(e.message()),
        }
    }

    /// The names of a path given as one text.
    pub fn parse_path(path: String) -> (names: Vec<String>)
        ensures
            names_of(names@) == spec_parse_path(path@),
    {
        let names = parse_path(path);
        names
    }

    /// The seed of the ratchet and the identifier of the root that belong to
    /// a key: the digest of the key, and the digest of that digest.
    pub fn seeds_of_key(wnfs_key: &Vec<u8>) -> (seeds: ([u8; 32], [u8; 32]))
        ensures
            seeds.0@ == sha3_256(wnfs_key@),
            seeds.1@ == sha3_256(sha3_256(wnfs_key@)),
    {
        let ratchet_seed = sha3_256_digest(wnfs_key.as_slice());
        let inumber = sha3_256_digest(ratchet_seed.as_slice());
        (ratchet_seed, inumber)
    }

    /// Makes an empty root directory with the given seed and identifier,
    /// made at `time`, and files it in `forest`.
    pub fn init_with(
        forest: Rc<PrivateForest>,
        ratchet_seed: &[u8; 32],
        inumber: [u8; 32],
        time: i64,
    ) -> (config: Config)
        ensures
            config.0.entries().len() == forest.entries().len() + 1,
            config.0.entries().take(forest.entries().len() as int) == forest.entries(),
            config.0.entries().last().0 == config.1.saturated_name_hash@,
            config.0.entries().last().1 matches PrivateNode::Dir(root) && root.is_fresh(
                spec_root_parent(),
                time,
            ) && root.header.inumber == inumber && root.header.ratchet@ == ratchet_origin(
                ratchet_seed@,
            ) && points_at(config.1, root.header),
    {
        let root_dir = Rc::new(
            PrivateDirectory::with_seed(&root_parent(), time, ratchet_seed, inumber),
        );
        let private_ref = root_dir.header.get_private_ref();
        let after = forest.put(&private_ref, &PrivateNode::Dir(share_rc(&root_dir)));
        (after, private_ref)
    }

    /// Makes an empty root directory, made at `time`, and files it in
    /// `forest`. Its seed and identifier come from `wnfs_key`, and are drawn
    /// at random where the key is empty.
    pub fn init(forest: Rc<PrivateForest>, wnfs_key: Vec<u8>, time: i64) -> (config: Config)
        ensures
            config.0.entries().len() == forest.entries().len() + 1,
            config.0.entries().take(forest.entries().len() as int) == forest.entries(),
            config.0.entries().last().0 == config.1.saturated_name_hash@,
            config.0.entries().last().1 matches PrivateNode::Dir(root) && root.is_fresh(
                spec_root_parent(),
                time,
            ) && points_at(config.1, root.header) && (wnfs_key@.len() > 0 ==> root.header.inumber@
                == sha3_256(sha3_256(wnfs_key@)) && root.header.ratchet@ == ratchet_origin(
                sha3_256(wnfs_key@),
            )),
    {
        if wnfs_key.len() == 0 {
            let random_key = random_bytes();
            let ratchet_seed = sha3_256_digest(random_key.as_slice());
            let inumber = random_bytes();
            Self::init_with(forest, &ratchet_seed, inumber, time)
        } else {
            let (ratchet_seed, inumber) = Self::seeds_of_key(&wnfs_key);
            Self::init_with(forest, &ratchet_seed, inumber, time)
        }
    }

    /// The digest under which the first revision of the root that belongs to
    /// `wnfs_key` is filed.
    pub open spec fn first_root_hash(wnfs_key: Seq<u8>) -> Seq<u8> {
        revision_hash(
            sha3_256(spec_root_parent() + sha3_256(sha3_256(wnfs_key))),
            ratchet_origin(sha3_256(wnfs_key)),
        )
    }

    /// The reference of the newest revision of the root that belongs to
    /// `wnfs_key`. Fails where the forest does not hold the first revision of
    /// that root, and where what it holds there is a file.
    pub fn get_private_ref(wnfs_key: Vec<u8>, forest: &PrivateForest) -> (private_ref: Result<
        PrivateRef,
        String,
    >)
        ensures
            match forest.lookup(Self::first_root_hash(wnfs_key@)) {
                Some(node) => match node.spec_search_latest(*forest) {
                    PrivateNode::Dir(latest) => private_ref matches Ok(r) && points_at(
                        r,
                        latest.header,
                    ),
                    PrivateNode::File(_) => private_ref matches Err(words) && words@
                        == FsError::NotADirectory.spec_message(),
                },
                None => private_ref matches Err(words) && words@
                    == FsError::NotFound.spec_message(),
            },
    {
        let (ratchet_seed, inumber) = Self::seeds_of_key(&wnfs_key);
        let first = PrivateNodeHeader::with_seed(&root_parent(), &ratchet_seed, inumber);
        let node = match forest.get(&first.get_private_ref()) {
            Some(node) => node,
            None => {
                return Err(FsError::NotFound.message());
            },
        };
        match node.search_latest(forest) {
            PrivateNode::Dir(latest) => Ok(latest.header.get_private_ref()),
            PrivateNode::File(_) => Err(FsError::NotADirectory.message()),
        }
    }

    /// The root directory that `private_ref` names. Fails where the forest
    /// holds nothing under it, and where what it holds is a file.
    pub fn get_root_dir(forest: &PrivateForest, private_ref: &PrivateRef) -> (root: Result<
        Rc<PrivateDirectory>,
        String,
    >)
        ensures
            match forest.lookup(private_ref.saturated_name_hash@) {
                Some(PrivateNode::Dir(dir)) => root == Ok::<Rc<PrivateDirectory>, String>(dir),
                Some(PrivateNode::File(_)) => root matches Err(words) && words@
                    == FsError::NotADirectory.spec_message(),
                None => root matches Err(words) && words@ == FsError::NotFound.spec_message(),
            },
    {
        match forest.get(private_ref) {
            Some(PrivateNode::Dir(dir)) => Ok(dir),
            Some(PrivateNode::File(_)) => Err(FsError::NotADirectory.message()),
            None => Err(FsError::NotFound.message()),
        }
    }

    /// The time that a write stamps: the time of change that came with the
    /// content where it is a time after the epoch, and else the time of the
    /// write.
    pub fn write_time(modification_time_seconds: i64, now: i64) -> (time: i64)
        ensures
            time == (if modification_time_seconds > 0 {
                modification_time_seconds
            } else {
                now
            }),
    {
        if modification_time_seconds > 0 {
            modification_time_seconds
        } else {
            now
        }
    }

    /// Writes a file, as `PrivateDirectory::write` does with the newest
    /// revisions, stamped as `write_time` says.
    pub fn write_file(
        forest: Rc<PrivateForest>,
        root_dir: Rc<PrivateDirectory>,
        path_segments: &[String],
        content: Vec<u8>,
        modification_time_seconds: i64,
        now: i64,
    ) -> (config: Result<Config, String>)
        ensures
            match root_dir.write_refusal(names_of(path_segments@), true, *forest) {
                Some(e) => config matches Err(words) && words@ == e.spec_message(),
                None => {
                    &&& config matches Ok(c)
                    &&& c.0.entries().take(forest.entries().len() as int) == forest.entries()
                    &&& c.0.entries().last().1 matches PrivateNode::File(file)
                    &&& file.content@ == content@
                    &&& file.metadata.modified == Some(
                        if modification_time_seconds > 0 {
                            modification_time_seconds
                        } else {
                            now
                        },
                    )
                    &&& exists|root: Rc<PrivateDirectory>|
                        #![all_triggers]
                        root.follows_on(*root_dir) && points_at(c.1, root.header)
                },
            },
    {
        let time = Self::write_time(modification_time_seconds, now);
        Self::answer(root_dir.write(path_segments, true, time, content, forest))
    }

    /// Reads a file, as `PrivateDirectory::read` does with the newest
    /// revisions.
    pub fn read_file(
        forest: Rc<PrivateForest>,
        root_dir: Rc<PrivateDirectory>,
        path_segments: &[String],
    ) -> (content: Result<Vec<u8>, String>)
        ensures
            match root_dir.spec_read(names_of(path_segments@), true, *forest) {
                Ok(bytes) => content matches Ok(c) && c@ == bytes,
                Err(e) => content matches Err(words) && words@ == e.spec_message(),
            },
    {
        match root_dir.read(path_segments, true, forest) {
            Ok(r) => Ok(r.result),
            Err(e) => Err(e.message()),
        }
    }

    /// Makes a directory, as `PrivateDirectory::mkdir` does with the newest
    /// revisions.
    pub fn mkdir(
        forest: Rc<PrivateForest>,
        root_dir: Rc<PrivateDirectory>,
        path_segments: &[String],
        now: i64,
    ) -> (config: Result<Config, String>)
        ensures
            root_dir.blocked_by_file(names_of(path_segments@), true, *forest) ==> (
            config matches Err(words) && words@ == FsError::NotADirectory.spec_message()),
            !root_dir.blocked_by_file(names_of(path_segments@), true, *forest) ==> (
            config matches Ok(c) && exists|
                root: Rc<PrivateDirectory>,
                nodes: PathNodes<PrivateDirectory>,
            |
                #![all_triggers]
                {
                    &&& root_dir.reaches_or_creates(
                        names_of(path_segments@),
                        true,
                        now,
                        *forest,
                        nodes,
                    )
                    &&& fixed_up(nodes, *forest, root, *c.0)
                    &&& points_at(c.1, root.header)
                }),
    {
        Self::answer(root_dir.mkdir(path_segments, true, now, forest))
    }

    /// Removes a node, as `PrivateDirectory::rm` does with the newest
    /// revisions.
    pub fn rm(forest: Rc<PrivateForest>, root_dir: Rc<PrivateDirectory>, path_segments: &[String]) -> (config:
        Result<Config, String>)
        ensures
            match root_dir.rm_refusal(names_of(path_segments@), true, *forest) {
                Some(e) => config matches Err(words) && words@ == e.spec_message(),
                None => config matches Ok(c) && c.0.entries().take(
                    forest.entries().len() as int,
                ) == forest.entries() && exists|root: Rc<PrivateDirectory>, node: PrivateNode|
                    #![all_triggers]
                    {
                        &&& root_dir.removed_at(
                            names_of(path_segments@),
                            true,
                            *forest,
                            root,
                            *c.0,
                            node,
                        )
                        &&& points_at(c.1, root.header)
                    },
            },
    {
        Self::answer(root_dir.rm(path_segments, true, forest))
    }

    /// Moves a node, as `PrivateDirectory::basic_mv` does with the newest
    /// revisions.
    pub fn mv(
        forest: Rc<PrivateForest>,
        root_dir: Rc<PrivateDirectory>,
        source_path_segments: &[String],
        target_path_segments: &[String],
        now: i64,
    ) -> (config: Result<Config, String>)
        ensures
            target_path_segments@.len() == 0 ==> (config matches Err(words) && words@
                == FsError::InvalidPath.spec_message()),
            target_path_segments@.len() > 0 ==> match root_dir.rm_refusal(
                names_of(source_path_segments@),
                true,
                *forest,
            ) {
                Some(e) => config matches Err(words) && words@ == e.spec_message(),
                None => exists|
                    without: Rc<PrivateDirectory>,
                    without_forest: PrivateForest,
                    node: PrivateNode,
                |
                    #![all_triggers]
                    {
                        &&& root_dir.removed_at(
                            names_of(source_path_segments@),
                            true,
                            *forest,
                            without,
                            without_forest,
                            node,
                        )
                        &&& match without.placing_refusal(
                            names_of(target_path_segments@),
                            true,
                            without_forest,
                        ) {
                            Some(e) => config matches Err(words) && words@ == e.spec_message(),
                            None => config matches Ok(c) && exists|root: Rc<PrivateDirectory>|
                                #![all_triggers]
                                {
                                    &&& without.placed_at(
                                        names_of(target_path_segments@),
                                        true,
                                        now,
                                        node,
                                        without_forest,
                                        root,
                                        *c.0,
                                    )
                                    &&& points_at(c.1, root.header)
                                },
                        }
                    },
            },
            config matches Ok(c) ==> c.0.entries().take(forest.entries().len() as int)
                == forest.entries(),
    {
        Self::answer(
            root_dir.basic_mv(source_path_segments, target_path_segments, true, now, forest),
        )
    }

    /// Copies a node, as `PrivateDirectory::cp` does with the newest
    /// revisions.
    pub fn cp(
        forest: Rc<PrivateForest>,
        root_dir: Rc<PrivateDirectory>,
        source_path_segments: &[String],
        target_path_segments: &[String],
        now: i64,
    ) -> (config: Result<Config, String>)
        ensures
            config matches Ok(c) ==> c.0.entries().take(forest.entries().len() as int)
                == forest.entries(),
            match root_dir.spec_get_node(names_of(source_path_segments@), true, *forest) {
                Ok(Some(node)) => match root_dir.placing_refusal(
                    names_of(target_path_segments@),
                    true,
                    *forest,
                ) {
                    Some(e) => config matches Err(words) && words@ == e.spec_message(),
                    None => config matches Ok(c) && exists|root: Rc<PrivateDirectory>|
                        #![all_triggers]
                        {
                            &&& root_dir.placed_at(
                                names_of(target_path_segments@),
                                true,
                                now,
                                node,
                                *forest,
                                root,
                                *c.0,
                            )
                            &&& points_at(c.1, root.header)
                        },
                },
                Ok(None) => config matches Err(words) && words@
                    == FsError::NotFound.spec_message(),
                Err(refused) => config matches Err(words) && words@ == refused.spec_message(),
            },
    {
        Self::answer(root_dir.cp(source_path_segments, target_path_segments, true, now, forest))
    }

    /// The bytes of the file at a path from its block with number `index` on,
    /// as they go into a stream. Fails with the words of
    /// `PrivateDirectory::get_node` where the path leads nowhere, and with
    /// words of its own where nothing stands at the path or a directory
    /// does.
    pub fn read_filestream(
        forest: Rc<PrivateForest>,
        root_dir: Rc<PrivateDirectory>,
        path_segments: &[String],
        index: usize,
    ) -> (stream: Result<Vec<u8>, String>)
        ensures
            match root_dir.spec_get_node(names_of(path_segments@), true, *forest) {
                Ok(Some(PrivateNode::File(file))) => stream matches Ok(bytes) && bytes@
                    == file.content@.skip(block_start(file.content@.len() as int, index as int)),
                Ok(Some(PrivateNode::Dir(_))) => stream matches Err(words) && words@
                    == "wnfsError occured in read_filestream_to_path on is_file"@,
                Ok(None) => stream matches Err(words) && words@
                    == "wnfsError occured in read_filestream_to_path on result"@,
                Err(e) => stream matches Err(words) && words@ == e.spec_message(),
            },
    {
        match root_dir.get_node(path_segments, true, forest) {
            Ok(found) => match found.result {
                Some(PrivateNode::File(file)) => Ok(content_from_block(&file.content, index)),
                Some(PrivateNode::Dir(_)) => Err(
                    String::from_str("wnfsError occured in read_filestream_to_path on is_file"),
                ),
                None => Err(
                    String::from_str("wnfsError occured in read_filestream_to_path on result"),
                ),
            },
            Err(e) => Err(e.message()),
        }
    }

    /// Lists a directory, as `PrivateDirectory::ls` does with the newest
    /// revisions.
    pub fn ls_files(
        forest: Rc<PrivateForest>,
        root_dir: Rc<PrivateDirectory>,
        path_segments: &[String],
    ) -> (listing: Result<Vec<(String, Metadata)>, String>)
        ensures
            match root_dir.spec_reach(names_of(path_segments@), true, *forest) {
                Some(dir) => if PrivateDirectory::all_found(dir, true, *forest) {
                    listing matches Ok(rows) && PrivateDirectory::lists(dir, true, *forest, rows@)
                } else {
                    listing matches Err(words) && words@ == FsError::NotFound.spec_message()
                },
                None => listing matches Err(words) && words@ == root_dir.reach_failure(
                    names_of(path_segments@),
                    true,
                    *forest,
                ).spec_message(),
            },
    {
        match root_dir.ls(path_segments, true, forest) {
            Ok(r) => Ok(r.result),
            Err(e) => Err(e.message()),
        }
    }
}

} // verus!
