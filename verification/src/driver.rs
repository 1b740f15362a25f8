//! The per-file sync driver: the decision table that picks transfer or
//! skip, the whole-file and delta transfer pipelines on in-memory contents,
//! backup naming, and session statistics.  Everything here is pure
//! computation; reading and writing real files is the caller's concern.

use vstd::prelude::*;
use vstd::string::{StrSliceExecFns, StringExecFns};
use crate::delta::{hash_collision_free, lemma_delta_round_trip};
use crate::error::RsyncError;
use crate::file_info::FileInfo;
use crate::generator::{num_blocks, spec_block_size_for, Generator};
use crate::options::{chosen_checksum, Options};
use crate::receiver::Receiver;
use crate::sender::Sender;
use crate::text::copy_bytes;

verus! {

/// Counters for one sync session.
#[derive(Debug, Clone)]
pub struct SyncStats {
    /// Entries seen in the source tree.
    pub scanned_files: usize,
    /// Files written at the destination.
    pub transferred_files: usize,
    /// Destination entries removed.
    pub deleted_files: usize,
    /// Bytes of transferred files.
    pub transferred_bytes: u64,
    /// Bytes of deleted entries.
    pub deleted_bytes: u64,
    /// Files left untouched.
    pub unchanged_files: usize,
    /// Wall time of the session, in milliseconds.
    pub execution_time_ms: u64,
}

impl Default for SyncStats {
    fn default() -> (r: Self)
        ensures
            r.scanned_files == 0 && r.transferred_files == 0 && r.deleted_files == 0,
            r.transferred_bytes == 0 && r.deleted_bytes == 0 && r.unchanged_files == 0,
            r.execution_time_ms == 0,
    {
        SyncStats {
            scanned_files: 0,
            transferred_files: 0,
            deleted_files: 0,
            transferred_bytes: 0,
            deleted_bytes: 0,
            unchanged_files: 0,
            execution_time_ms: 0,
        }
    }
}

/// The per-file decision table: given the source entry, the
/// destination entry when one exists, and (in checksum mode) whether the
/// digests differ, `true` means transfer.
pub open spec fn spec_should_sync(
    o: Options,
    source_info: FileInfo,
    dest_info: Option<FileInfo>,
    checksums_differ: Option<bool>,
) -> bool {
    match dest_info {
        None => true,
        Some(d) => if o.update && d.mtime > source_info.mtime {
            false
        } else if o.size_only {
            source_info.size != d.size
        } else if o.checksum {
            checksums_differ == Some(true)
        } else {
            source_info.size != d.size || source_info.mtime != d.mtime
        },
    }
}

/// Drives a local-to-local session.  It owns the options; the surrounding
/// program feeds it file contents and metadata and performs the filesystem
/// effects it decides on.
pub struct LocalTransport {
    pub options: Options,
}

impl LocalTransport {
    pub fn new(options: Options) -> (r: Self)
        ensures
            r.options == options,
    {
        Self { options }
    }

    /// Whether a source file must be transferred over the destination
    /// state.  In checksum mode the caller supplies the digest comparison.
    pub fn should_sync(
        &self,
        source_info: &FileInfo,
        dest_info: Option<&FileInfo>,
        checksums_differ: Option<bool>,
    ) -> (r: Result<bool, RsyncError>)
        requires
            self.options.checksum ==> checksums_differ is Some,
        ensures
            r matches Ok(b) && b == spec_should_sync(
                self.options,
                *source_info,
                match dest_info {
                    Some(d) => Some(*d),
                    None => None,
                },
                checksums_differ,
            ),
    {
        match dest_info {
            None => Ok(true),
            Some(d) => {
                if self.options.update && d.mtime > source_info.mtime {
                    return Ok(false);
                }
                if self.options.size_only {
                    return Ok(source_info.size != d.size);
                }
                if self.options.checksum {
                    return Ok(match checksums_differ {
                        Some(b) => b,
                        None => false,
                    });
                }
                Ok(source_info.size != d.size || source_info.mtime != d.mtime)
            }
        }
    }

    /// The transfer routine on in-memory contents: a byte-for-byte copy for
    /// whole-file mode or a missing destination (round-tripped through the
    /// compressor when compression is on, for rate accounting parity), and
    /// the signature/delta/reconstruct pipeline otherwise.  Whenever the
    /// strong digest is collision-free over the two files, a successful
    /// result is exactly the source; without compression the delta path
    /// cannot fail.
    pub fn sync_file_contents(
        &self,
        source: &Vec<u8>,
        dest: Option<&Vec<u8>>,
    ) -> (r: Result<Vec<u8>, RsyncError>)
        requires
            match dest {
                Some(d) => num_blocks(
                    d@.len() as int, spec_block_size_for(source@.len() as nat)) <= u32::MAX,
                None => true,
            },
        ensures
            r is Ok,
            self.options.whole_file || dest is None
                ==> (r matches Ok(v) ==> v@ == source@),
            (match dest {
                Some(d) => hash_collision_free(
                    d@, source@, spec_block_size_for(source@.len() as nat),
                    chosen_checksum(self.options)),
                None => true,
            }) ==> (r matches Ok(v) ==> v@ == source@),
    {
        let base = match dest {
            Some(d) => {
                if self.options.whole_file {
                    None
                } else {
                    Some(d)
                }
            }
            None => None,
        };
        match base {
            None => {
                if self.options.compress {
                    let compressor = crate::compress::Compressor::new(
                        match self.options.compress_choice {
                            Some(c) => c,
                            None => crate::options::CompressionAlgorithm::Zlib,
                        });
                    let packed = compressor.compress(source.as_slice())?;
                    let unpacked = compressor.decompress(packed.as_slice())?;
                    Ok(unpacked)
                } else {
                    Ok(copy_bytes(source.as_slice()))
                }
            }
            Some(base_data) => {
                let block_size = Generator::calculate_block_size(source.len() as u64);
                let alg = match self.options.checksum_choice {
                    Some(a) => a,
                    None => crate::options::ChecksumAlgorithm::Md5,
                };
                let generator = Generator::new(block_size, alg);
                let checksums = generator.generate_checksums(base_data.as_slice());
                let sender = Sender::new(block_size, &self.options);
                let delta = sender.compute_delta(
                    source.as_slice(), checksums.as_slice(), &self.options)?;
                let receiver = Receiver::new(block_size, &self.options);
                let ghost bs = block_size as int;
                let ghost calg = chosen_checksum(self.options);
                proof {
                    crate::delta::lemma_covered_expansion_defined(base_data@, source@,
                        checksums@, bs, calg, sender.copt(), delta@, 0, source@.len() as int);
                    if hash_collision_free(base_data@, source@, bs, calg) {
                        lemma_delta_round_trip(base_data@, source@, checksums@, bs, calg,
                            sender.copt(), delta@, 0);
                        assert(source@.subrange(0, source@.len() as int) =~= source@);
                    }
                }
                let out = receiver.reconstruct(Some(base_data), delta.as_slice())?;
                Ok(out)
            }
        }
    }

    /// The backup location for a destination file: either a sibling carrying
    /// the configured suffix, or the same file name under the backup
    /// directory.
    pub fn backup_path(&self, file_name: &str) -> (r: String)
        ensures
            match self.options.backup_dir {
                Some(d) => r@ == d@ + "/"@ + file_name@,
                None => r@ == file_name@ + self.options.suffix@,
            },
    {
        match &self.options.backup_dir {
            Some(dir) => {
                let mut s = dir.clone();
                s.append("/");
                s.append(file_name);
                s
            }
            None => {
                let mut s = String::from_str(file_name);
                s.append(self.options.suffix.as_str());
                s
            }
        }
    }
}

} // verus!

verus! {

/// One planned filesystem effect.
#[derive(Debug, Clone)]
pub enum SyncAction {
    /// Create this directory at the destination if it is missing.
    CreateDir { path: String },
    /// Write this source file over the destination.
    Transfer { path: String, size: u64, is_new: bool },
    /// Remove this destination entry.
    Delete { path: String, size: u64, is_dir: bool },
}

/// A planned effect at the specification level.
#[verifier::ext_equal]
pub enum ActionModel {
    CreateDir { path: Seq<char> },
    Transfer { path: Seq<char>, size: int, is_new: bool },
    Delete { path: Seq<char>, size: int, is_dir: bool },
}

/// One emitted action realises one planned effect.
pub open spec fn action_realises(a: SyncAction, m: ActionModel) -> bool {
    match (a, m) {
        (SyncAction::CreateDir { path }, ActionModel::CreateDir { path: p }) => path@ == p,
        (SyncAction::Transfer { path, size, is_new }, ActionModel::Transfer {
            path: p, size: sz, is_new: nw }) => path@ == p && size == sz && is_new == nw,
        (SyncAction::Delete { path, size, is_dir }, ActionModel::Delete {
            path: p, size: sz, is_dir: dir }) => path@ == p && size == sz && is_dir == dir,
        _ => false,
    }
}

/// The emitted action list realises the plan step for step.
pub open spec fn actions_realise(a: Seq<SyncAction>, ms: Seq<ActionModel>) -> bool {
    a.len() == ms.len() && forall|k: int|
        0 <= k < a.len() ==> action_realises(#[trigger] a[k], ms[k])
}

/// The digest-comparison flag recorded for a path, if any.
pub open spec fn lookup_flag(oracle: Seq<(String, bool)>, p: Seq<char>) -> Option<bool>
    decreases oracle.len(),
{
    if oracle.len() == 0 {
        None
    } else if oracle[0].0@ == p {
        Some(oracle[0].1)
    } else {
        lookup_flag(oracle.drop_first(), p)
    }
}

/// The actions one source entry contributes: a directory missing at the
/// destination is created, a file the decision table sends is transferred,
/// anything else contributes nothing.
pub open spec fn entry_actions(
    o: Options,
    e: (String, FileInfo),
    dest: Seq<(String, FileInfo)>,
    differs: Seq<(String, bool)>,
) -> Seq<ActionModel> {
    if e.1.file_type is Directory {
        if contains_path(dest, e.0@) {
            Seq::empty()
        } else {
            seq![ActionModel::CreateDir { path: e.0@ }]
        }
    } else if spec_should_sync(o, e.1, lookup(dest, e.0@), lookup_flag(differs, e.0@)) {
        seq![ActionModel::Transfer {
            path: e.0@,
            size: e.1.size as int,
            is_new: lookup(dest, e.0@) is None,
        }]
    } else {
        Seq::empty()
    }
}

/// The per-entry actions of a whole source walk, in source order.
pub open spec fn plan_entries_model(
    o: Options,
    source: Seq<(String, FileInfo)>,
    dest: Seq<(String, FileInfo)>,
    differs: Seq<(String, bool)>,
) -> Seq<ActionModel>
    decreases source.len(),
{
    if source.len() == 0 {
        Seq::empty()
    } else {
        entry_actions(o, source[0], dest, differs)
            + plan_entries_model(o, source.drop_first(), dest, differs)
    }
}

/// One delete action per destination entry with no source counterpart, in
/// destination order.
pub open spec fn plan_deletions_model(
    source: Seq<(String, FileInfo)>,
    dest: Seq<(String, FileInfo)>,
) -> Seq<ActionModel>
    decreases dest.len(),
{
    if dest.len() == 0 {
        Seq::empty()
    } else {
        (if contains_path(source, dest[0].0@) {
            Seq::empty()
        } else {
            seq![ActionModel::Delete {
                path: dest[0].0@,
                size: dest[0].1.size as int,
                is_dir: dest[0].1.file_type is Directory,
            }]
        }) + plan_deletions_model(source, dest.drop_first())
    }
}

/// The whole session plan: deletions first for the before and during
/// phases, after the transfers otherwise.
pub open spec fn plan_model(
    o: Options,
    source: Seq<(String, FileInfo)>,
    dest: Seq<(String, FileInfo)>,
    differs: Seq<(String, bool)>,
) -> Seq<ActionModel> {
    if o.delete && (o.delete_before || o.delete_during) {
        plan_deletions_model(source, dest) + plan_entries_model(o, source, dest, differs)
    } else if o.delete {
        plan_entries_model(o, source, dest, differs) + plan_deletions_model(source, dest)
    } else {
        plan_entries_model(o, source, dest, differs)
    }
}

/// The first entry under a path, searching in order.
pub open spec fn lookup(entries: Seq<(String, FileInfo)>, p: Seq<char>) -> Option<FileInfo>
    decreases entries.len(),
{
    if entries.len() == 0 {
        None
    } else if entries[0].0@ == p {
        Some(entries[0].1)
    } else {
        lookup(entries.drop_first(), p)
    }
}

/// Whether any entry carries the path.
pub open spec fn contains_path(entries: Seq<(String, FileInfo)>, p: Seq<char>) -> bool {
    lookup(entries, p) is Some
}

/// How many source files the decision table sends; in checksum mode the
/// digest comparison comes from the oracle.
pub open spec fn count_transfers(
    o: Options,
    source: Seq<(String, FileInfo)>,
    dest: Seq<(String, FileInfo)>,
    differs: Seq<(String, bool)>,
) -> int
    decreases source.len(),
{
    if source.len() == 0 {
        0
    } else {
        let head = if source[0].1.file_type is Directory {
            0int
        } else if spec_should_sync(o, source[0].1, lookup(dest, source[0].0@),
            lookup_flag(differs, source[0].0@)) {
            1int
        } else {
            0int
        };
        head + count_transfers(o, source.drop_first(), dest, differs)
    }
}

/// The bytes those transfers move.
pub open spec fn count_transfer_bytes(
    o: Options,
    source: Seq<(String, FileInfo)>,
    dest: Seq<(String, FileInfo)>,
    differs: Seq<(String, bool)>,
) -> int
    decreases source.len(),
{
    if source.len() == 0 {
        0
    } else {
        let head = if source[0].1.file_type is Directory {
            0int
        } else if spec_should_sync(o, source[0].1, lookup(dest, source[0].0@),
            lookup_flag(differs, source[0].0@)) {
            source[0].1.size as int
        } else {
            0int
        };
        head + count_transfer_bytes(o, source.drop_first(), dest, differs)
    }
}

/// How many source files the decision table skips.
pub open spec fn count_unchanged(
    o: Options,
    source: Seq<(String, FileInfo)>,
    dest: Seq<(String, FileInfo)>,
    differs: Seq<(String, bool)>,
) -> int
    decreases source.len(),
{
    if source.len() == 0 {
        0
    } else {
        let head = if source[0].1.file_type is Directory {
            0int
        } else if spec_should_sync(o, source[0].1, lookup(dest, source[0].0@),
            lookup_flag(differs, source[0].0@)) {
            0int
        } else {
            1int
        };
        head + count_unchanged(o, source.drop_first(), dest, differs)
    }
}

/// How many destination entries have no source counterpart.
pub open spec fn count_deletions(
    source: Seq<(String, FileInfo)>,
    dest: Seq<(String, FileInfo)>,
) -> int
    decreases dest.len(),
{
    if dest.len() == 0 {
        0
    } else {
        (if contains_path(source, dest[0].0@) {
            0int
        } else {
            1int
        }) + count_deletions(source, dest.drop_first())
    }
}

/// The bytes those deletions free.
pub open spec fn count_deletion_bytes(
    source: Seq<(String, FileInfo)>,
    dest: Seq<(String, FileInfo)>,
) -> int
    decreases dest.len(),
{
    if dest.len() == 0 {
        0
    } else {
        (if contains_path(source, dest[0].0@) {
            0int
        } else {
            dest[0].1.size as int
        }) + count_deletion_bytes(source, dest.drop_first())
    }
}

proof fn lemma_counts_nonneg(
    o: Options,
    source: Seq<(String, FileInfo)>,
    dest: Seq<(String, FileInfo)>,
    differs: Seq<(String, bool)>,
)
    ensures
        count_transfers(o, source, dest, differs) >= 0,
        count_transfer_bytes(o, source, dest, differs) >= 0,
        count_unchanged(o, source, dest, differs) >= 0,
        count_deletions(source, dest) >= 0,
        count_deletion_bytes(source, dest) >= 0,
    decreases source.len() + dest.len(),
{
    if source.len() > 0 {
        lemma_counts_nonneg(o, source.drop_first(), dest, differs);
    }
    if dest.len() > 0 {
        lemma_counts_nonneg(o, source, dest.drop_first(), differs);
    }
}

/// Looks up a path in an entry list, returning the position of its first
/// occurrence.
pub fn find_entry(entries: &Vec<(String, FileInfo)>, p: &str) -> (r: Option<usize>)
    ensures
        match r {
            Some(i) => i < entries@.len() && entries@[i as int].0@ == p@
                && lookup(entries@, p@) == Some(entries@[i as int].1),
            None => lookup(entries@, p@) is None,
        },
{
    let n = entries.len();
    let mut i: usize = 0;
    proof {
        assert(entries@.skip(0) =~= entries@);
    }
    while i < n
        invariant
            n == entries@.len(),
            0 <= i <= n,
            lookup(entries@, p@) == lookup(entries@.skip(i as int), p@),
        decreases n - i,
    {
        proof {
            assert(entries@.skip(i as int)[0] == entries@[i as int]);
            assert(entries@.skip(i as int).drop_first() =~= entries@.skip(i + 1));
        }
        if crate::text::str_eq(entries[i].0.as_str(), p) {
            return Some(i);
        }
        i = i + 1;
    }
    proof {
        assert(entries@.skip(n as int) =~= Seq::<(String, FileInfo)>::empty());
    }
    None
}

impl LocalTransport {
    /// Plans a whole session: exactly the actions of `plan_model` — one
    /// create, transfer or delete per decision of the per-file table, with
    /// deletions placed before the transfers in the before and during
    /// phases and after them otherwise — and statistics that count exactly
    /// what the decision table counts.  In checksum mode the per-file
    /// digest comparisons come from `checksum_differs`.  A dry run plans
    /// and counts the same and merely leaves execution to the caller.
    pub fn plan_sync(
        &self,
        source: &Vec<(String, FileInfo)>,
        dest: &Vec<(String, FileInfo)>,
        checksum_differs: &Vec<(String, bool)>,
    ) -> (r: (Vec<SyncAction>, SyncStats))
        requires
            self.options.checksum ==> forall|i: int|
                0 <= i < source@.len() && !((#[trigger] source@[i]).1.file_type is Directory)
                    ==> lookup_flag(checksum_differs@, source@[i].0@) is Some,
            count_transfer_bytes(self.options, source@, dest@, checksum_differs@)
                <= u64::MAX,
            count_deletion_bytes(source@, dest@) <= u64::MAX,
        ensures
            actions_realise(r.0@, plan_model(
                self.options, source@, dest@, checksum_differs@)),
            r.1.scanned_files == source@.len(),
            r.1.transferred_files == count_transfers(
                self.options, source@, dest@, checksum_differs@),
            r.1.transferred_bytes == count_transfer_bytes(
                self.options, source@, dest@, checksum_differs@),
            r.1.unchanged_files == count_unchanged(
                self.options, source@, dest@, checksum_differs@),
            r.1.deleted_files == if self.options.delete {
                count_deletions(source@, dest@)
            } else {
                0int
            },
            r.1.deleted_bytes == if self.options.delete {
                count_deletion_bytes(source@, dest@)
            } else {
                0int
            },
    {
        let ghost o = self.options;
        let ghost differs = checksum_differs@;
        let mut actions: Vec<SyncAction> = Vec::new();
        let mut stats = SyncStats::default();
        stats.scanned_files = source.len();
        let delete_early = self.options.delete && (self.options.delete_before
            || self.options.delete_during);
        if delete_early {
            self.plan_deletions(source, dest, &mut actions, &mut stats);
        }
        let ghost deletions_done: Seq<ActionModel> = if delete_early {
            plan_deletions_model(source@, dest@)
        } else {
            Seq::empty()
        };
        proof {
            if !delete_early {
                assert(actions_realise(actions@, deletions_done));
            }
        }

        let n = source.len();
        let mut i: usize = 0;
        let ghost mut entries_done: Seq<ActionModel> = Seq::empty();
        proof {
            assert(source@.skip(0) =~= source@);
            assert(entries_done + plan_entries_model(o, source@.skip(0), dest@, differs)
                =~= plan_entries_model(o, source@, dest@, differs));
            assert(actions@.take(actions@.len() as int) =~= actions@);
            lemma_counts_nonneg(self.options, source@, dest@, differs);
        }
        while i < n
            invariant
                n == source@.len(),
                0 <= i <= n,
                o == self.options,
                differs == checksum_differs@,
                self.options.checksum ==> forall|k: int|
                    0 <= k < source@.len()
                        && !((#[trigger] source@[k]).1.file_type is Directory)
                        ==> lookup_flag(differs, source@[k].0@) is Some,
                stats.scanned_files == source@.len(),
                count_transfer_bytes(o, source@, dest@, differs) <= u64::MAX,
                stats.transferred_files + count_transfers(
                    o, source@.skip(i as int), dest@, differs)
                    == count_transfers(o, source@, dest@, differs),
                stats.transferred_bytes + count_transfer_bytes(
                    o, source@.skip(i as int), dest@, differs)
                    == count_transfer_bytes(o, source@, dest@, differs),
                stats.unchanged_files + count_unchanged(
                    o, source@.skip(i as int), dest@, differs)
                    == count_unchanged(o, source@, dest@, differs),
                stats.transferred_files <= i,
                stats.unchanged_files <= i,
                stats.deleted_files == if delete_early {
                    count_deletions(source@, dest@)
                } else {
                    0int
                },
                stats.deleted_bytes == if delete_early {
                    count_deletion_bytes(source@, dest@)
                } else {
                    0int
                },
                deletions_done == if delete_early {
                    plan_deletions_model(source@, dest@)
                } else {
                    Seq::<ActionModel>::empty()
                },
                actions_realise(actions@, deletions_done + entries_done),
                entries_done + plan_entries_model(o, source@.skip(i as int), dest@, differs)
                    == plan_entries_model(o, source@, dest@, differs),
            decreases n - i,
        {
            proof {
                assert(source@.skip(i as int)[0] == source@[i as int]);
                assert(source@.skip(i as int).drop_first() =~= source@.skip(i + 1));
                lemma_counts_nonneg(o, source@.skip(i + 1), dest@, differs);
            }
            let ghost head = source@[i as int];
            let entry = &source[i];
            if entry.1.is_directory() {
                match find_entry(dest, entry.0.as_str()) {
                    Some(_) => {
                        proof {
                            assert(entry_actions(o, head, dest@, differs)
                                =~= Seq::<ActionModel>::empty());
                            entries_done = entries_done
                                + entry_actions(o, head, dest@, differs);
                        }
                    }
                    None => {
                        let ghost pre = actions@;
                        actions.push(SyncAction::CreateDir { path: entry.0.clone() });
                        proof {
                            assert(entry_actions(o, head, dest@, differs)
                                =~= seq![ActionModel::CreateDir { path: head.0@ }]);
                            lemma_actions_realise_snoc(pre,
                                deletions_done + entries_done, actions@.last(),
                                ActionModel::CreateDir { path: head.0@ });
                            assert(pre.push(actions@.last()) =~= actions@);
                            entries_done = entries_done
                                + entry_actions(o, head, dest@, differs);
                            assert(deletions_done + entries_done
                                =~= (deletions_done + entries_done.drop_last()).push(
                                    ActionModel::CreateDir { path: head.0@ }));
                        }
                    }
                }
            } else {
                let dest_at = find_entry(dest, entry.0.as_str());
                let (dest_info, is_new): (Option<&FileInfo>, bool) = match dest_at {
                    Some(j) => (Some(&dest[j].1), false),
                    None => (None, true),
                };
                let flag: Option<bool> = if self.options.checksum {
                    find_flag(checksum_differs, entry.0.as_str())
                } else {
                    None
                };
                proof {
                    if !o.checksum {
                        assert(spec_should_sync(o, head.1, lookup(dest@, head.0@), None)
                            == spec_should_sync(o, head.1, lookup(dest@, head.0@),
                                lookup_flag(differs, head.0@)));
                    }
                }
                let wanted = match self.should_sync(&entry.1, dest_info, flag) {
                    Ok(b) => b,
                    Err(_) => true,
                };
                if wanted {
                    let ghost pre = actions@;
                    actions.push(SyncAction::Transfer {
                        path: entry.0.clone(),
                        size: entry.1.size,
                        is_new,
                    });
                    proof {
                        let m = ActionModel::Transfer {
                            path: head.0@,
                            size: head.1.size as int,
                            is_new: lookup(dest@, head.0@) is None,
                        };
                        assert(entry_actions(o, head, dest@, differs) =~= seq![m]);
                        lemma_actions_realise_snoc(pre, deletions_done + entries_done,
                            actions@.last(), m);
                        assert(pre.push(actions@.last()) =~= actions@);
                        entries_done = entries_done + entry_actions(o, head, dest@, differs);
                        assert(deletions_done + entries_done
                            =~= (deletions_done + entries_done.drop_last()).push(m));
                    }
                    stats.transferred_files = stats.transferred_files + 1;
                    stats.transferred_bytes = stats.transferred_bytes + entry.1.size;
                } else {
                    proof {
                        assert(entry_actions(o, head, dest@, differs)
                            =~= Seq::<ActionModel>::empty());
                        entries_done = entries_done + entry_actions(o, head, dest@, differs);
                    }
                    stats.unchanged_files = stats.unchanged_files + 1;
                }
            }
            proof {
                assert(deletions_done + entries_done
                    + plan_entries_model(o, source@.skip(i + 1), dest@, differs)
                    =~= deletions_done + (entries_done + plan_entries_model(
                        o, source@.skip(i + 1), dest@, differs)));
                assert(entries_done + plan_entries_model(o, source@.skip(i + 1), dest@,
                    differs)
                    =~= entries_done.skip(0) + plan_entries_model(o, source@.skip(i + 1),
                        dest@, differs));
            }
            i = i + 1;
        }
        proof {
            assert(source@.skip(n as int) =~= Seq::<(String, FileInfo)>::empty());
            assert(entries_done =~= plan_entries_model(o, source@, dest@, differs));
        }

        if self.options.delete && !delete_early {
            let ghost pre = actions@;
            self.plan_deletions(source, dest, &mut actions, &mut stats);
            proof {
                assert(actions@.take(pre.len() as int) == pre);
                lemma_actions_realise_append(pre, deletions_done + entries_done,
                    actions@.skip(pre.len() as int), plan_deletions_model(source@, dest@));
                assert(pre + actions@.skip(pre.len() as int) =~= actions@);
                assert((deletions_done + entries_done) + plan_deletions_model(
                    source@, dest@)
                    =~= plan_model(o, source@, dest@, differs));
            }
        } else {
            proof {
                assert(deletions_done + entries_done
                    =~= plan_model(o, source@, dest@, differs));
            }
        }
        (actions, stats)
    }

    /// Adds one delete action per destination entry that no source entry
    /// shadows, in destination order.
    fn plan_deletions(
        &self,
        source: &Vec<(String, FileInfo)>,
        dest: &Vec<(String, FileInfo)>,
        actions: &mut Vec<SyncAction>,
        stats: &mut SyncStats,
    )
        requires
            old(stats).deleted_files == 0,
            old(stats).deleted_bytes == 0,
            count_deletion_bytes(source@, dest@) <= u64::MAX,
        ensures
            final(stats).deleted_files == count_deletions(source@, dest@),
            final(stats).deleted_bytes == count_deletion_bytes(source@, dest@),
            final(stats).scanned_files == old(stats).scanned_files,
            final(stats).transferred_files == old(stats).transferred_files,
            final(stats).transferred_bytes == old(stats).transferred_bytes,
            final(stats).unchanged_files == old(stats).unchanged_files,
            final(stats).execution_time_ms == old(stats).execution_time_ms,
            final(actions)@.take(old(actions)@.len() as int) == old(actions)@,
            final(actions)@.len() == old(actions)@.len()
                + plan_deletions_model(source@, dest@).len(),
            actions_realise(final(actions)@.skip(old(actions)@.len() as int),
                plan_deletions_model(source@, dest@)),
    {
        let ghost base = actions@;
        let n = dest.len();
        let mut i: usize = 0;
        let ghost mut done: Seq<ActionModel> = Seq::empty();
        proof {
            assert(dest@.skip(0) =~= dest@);
            assert(done + plan_deletions_model(source@, dest@.skip(0))
                =~= plan_deletions_model(source@, dest@));
            assert(actions@.take(base.len() as int) =~= base);
            assert(actions@.skip(base.len() as int) =~= Seq::<SyncAction>::empty());
            lemma_counts_nonneg(self.options, source@, dest@, Seq::empty());
        }
        while i < n
            invariant
                n == dest@.len(),
                0 <= i <= n,
                base == old(actions)@,
                count_deletion_bytes(source@, dest@) <= u64::MAX,
                stats.deleted_files + count_deletions(source@, dest@.skip(i as int))
                    == count_deletions(source@, dest@),
                stats.deleted_bytes + count_deletion_bytes(source@, dest@.skip(i as int))
                    == count_deletion_bytes(source@, dest@),
                stats.deleted_files <= i,
                stats.scanned_files == old(stats).scanned_files,
                stats.transferred_files == old(stats).transferred_files,
                stats.transferred_bytes == old(stats).transferred_bytes,
                stats.unchanged_files == old(stats).unchanged_files,
                stats.execution_time_ms == old(stats).execution_time_ms,
                actions@.take(base.len() as int) == base,
                actions@.len() == base.len() + done.len(),
                actions_realise(actions@.skip(base.len() as int), done),
                done + plan_deletions_model(source@, dest@.skip(i as int))
                    == plan_deletions_model(source@, dest@),
            decreases n - i,
        {
            proof {
                assert(dest@.skip(i as int)[0] == dest@[i as int]);
                assert(dest@.skip(i as int).drop_first() =~= dest@.skip(i + 1));
                lemma_counts_nonneg(self.options, source@, dest@.skip(i + 1), Seq::empty());
            }
            let ghost head = dest@[i as int];
            let entry = &dest[i];
            match find_entry(source, entry.0.as_str()) {
                Some(_) => {
                    proof {
                        assert(done + plan_deletions_model(source@, dest@.skip(i + 1))
                            =~= done + plan_deletions_model(source@, dest@.skip(i as int)));
                    }
                }
                None => {
                    let ghost pre = actions@;
                    actions.push(SyncAction::Delete {
                        path: entry.0.clone(),
                        size: entry.1.size,
                        is_dir: entry.1.is_directory(),
                    });
                    proof {
                        let m = ActionModel::Delete {
                            path: head.0@,
                            size: head.1.size as int,
                            is_dir: head.1.file_type is Directory,
                        };
                        assert(pre.push(actions@.last()) =~= actions@);
                        assert(actions@.take(base.len() as int)
                            =~= pre.take(base.len() as int));
                        assert(actions@.skip(base.len() as int)
                            =~= pre.skip(base.len() as int).push(actions@.last()));
                        lemma_actions_realise_snoc(pre.skip(base.len() as int), done,
                            actions@.last(), m);
                        done = done.push(m);
                        assert(done + plan_deletions_model(source@, dest@.skip(i + 1))
                            =~= done.drop_last() + plan_deletions_model(
                                source@, dest@.skip(i as int)));
                    }
                    stats.deleted_files = stats.deleted_files + 1;
                    stats.deleted_bytes = stats.deleted_bytes + entry.1.size;
                }
            }
            i = i + 1;
        }
        proof {
            assert(dest@.skip(n as int) =~= Seq::<(String, FileInfo)>::empty());
            assert(done =~= plan_deletions_model(source@, dest@));
        }
    }

}

/// Realisation of actions extends one at a time.
proof fn lemma_actions_realise_snoc(
    a: Seq<SyncAction>,
    ms: Seq<ActionModel>,
    x: SyncAction,
    m: ActionModel,
)
    requires
        actions_realise(a, ms),
        action_realises(x, m),
    ensures
        actions_realise(a.push(x), ms.push(m)),
{
    assert forall|k: int| 0 <= k < a.push(x).len() implies action_realises(
        #[trigger] a.push(x)[k], ms.push(m)[k]) by {
        if k < a.len() {
            assert(a.push(x)[k] == a[k]);
            assert(ms.push(m)[k] == ms[k]);
            assert(action_realises(a[k], ms[k]));
        } else {
            assert(a.push(x)[k] == x);
            assert(ms.push(m)[k] == m);
        }
    }
}

/// Realisation of actions concatenates.
proof fn lemma_actions_realise_append(
    a1: Seq<SyncAction>,
    m1: Seq<ActionModel>,
    a2: Seq<SyncAction>,
    m2: Seq<ActionModel>,
)
    requires
        actions_realise(a1, m1),
        actions_realise(a2, m2),
    ensures
        actions_realise(a1 + a2, m1 + m2),
{
    assert forall|k: int| 0 <= k < (a1 + a2).len() implies action_realises(
        #[trigger] (a1 + a2)[k], (m1 + m2)[k]) by {
        if k < a1.len() {
            assert((a1 + a2)[k] == a1[k]);
            assert((m1 + m2)[k] == m1[k]);
            assert(action_realises(a1[k], m1[k]));
        } else {
            assert((a1 + a2)[k] == a2[k - a1.len()]);
            assert((m1 + m2)[k] == m2[k - a1.len()]);
            assert(action_realises(a2[k - a1.len()], m2[k - a1.len()]));
        }
    }
}

/// Looks up the digest-comparison flag recorded for a path.
pub fn find_flag(oracle: &Vec<(String, bool)>, p: &str) -> (r: Option<bool>)
    ensures
        r == lookup_flag(oracle@, p@),
{
    let n = oracle.len();
    let mut i: usize = 0;
    proof {
        assert(oracle@.skip(0) =~= oracle@);
    }
    while i < n
        invariant
            n == oracle@.len(),
            0 <= i <= n,
            lookup_flag(oracle@, p@) == lookup_flag(oracle@.skip(i as int), p@),
        decreases n - i,
    {
        proof {
            assert(oracle@.skip(i as int)[0] == oracle@[i as int]);
            assert(oracle@.skip(i as int).drop_first() =~= oracle@.skip(i + 1));
        }
        if crate::text::str_eq(oracle[i].0.as_str(), p) {
            return Some(oracle[i].1);
        }
        i = i + 1;
    }
    proof {
        assert(oracle@.skip(n as int) =~= Seq::<(String, bool)>::empty());
    }
    None
}

/// Idempotent sync: a second run over a destination that already reflects
/// the source transfers nothing and deletes nothing.  Stated for size-only
/// comparison, where "reflects" means every source path is present with the
/// source's byte length and, when deletion is on, no other path remains.
/// The default time-and-size comparison does not enjoy this law, because a
/// plain copy gives the destination a fresh modification time.
pub proof fn lemma_sync_idempotent(
    o: Options,
    source: Seq<(String, FileInfo)>,
    dest: Seq<(String, FileInfo)>,
    differs: Seq<(String, bool)>,
)
    requires
        o.size_only,
        forall|i: int| 0 <= i < source.len()
            ==> ((#[trigger] lookup(dest, source[i].0@)) matches Some(d)
                && d.size == source[i].1.size),
        forall|j: int| 0 <= j < dest.len()
            ==> #[trigger] contains_path(source, dest[j].0@),
    ensures
        count_transfers(o, source, dest, differs) == 0,
        count_unchanged(o, source, dest, differs) == source.len()
            - count_directories(source),
        count_deletions(source, dest) == 0,
{
    lemma_no_transfers(o, source, dest, differs);
    lemma_no_deletions(source, dest);
}

proof fn lemma_no_transfers(
    o: Options,
    source: Seq<(String, FileInfo)>,
    dest: Seq<(String, FileInfo)>,
    differs: Seq<(String, bool)>,
)
    requires
        o.size_only,
        forall|i: int| 0 <= i < source.len()
            ==> ((#[trigger] lookup(dest, source[i].0@)) matches Some(d)
                && d.size == source[i].1.size),
    ensures
        count_transfers(o, source, dest, differs) == 0,
        count_unchanged(o, source, dest, differs) == source.len()
            - count_directories(source),
    decreases source.len(),
{
    if source.len() > 0 {
        assert((lookup(dest, source[0].0@) matches Some(d) && d.size == source[0].1.size));
        assert(!spec_should_sync(o, source[0].1, lookup(dest, source[0].0@),
            lookup_flag(differs, source[0].0@)));
        let tail = source.drop_first();
        assert forall|i: int| 0 <= i < tail.len() implies ((#[trigger] lookup(
            dest, tail[i].0@)) matches Some(d) && d.size == tail[i].1.size) by {
            assert(tail[i] == source[i + 1]);
            assert((lookup(dest, source[i + 1].0@) matches Some(d)
                && d.size == source[i + 1].1.size));
        }
        lemma_no_transfers(o, tail, dest, differs);
    }
}

proof fn lemma_no_deletions(source: Seq<(String, FileInfo)>, dest: Seq<(String, FileInfo)>)
    requires
        forall|j: int| 0 <= j < dest.len()
            ==> #[trigger] contains_path(source, dest[j].0@),
    ensures
        count_deletions(source, dest) == 0,
    decreases dest.len(),
{
    if dest.len() > 0 {
        assert(contains_path(source, dest[0].0@));
        let tail = dest.drop_first();
        assert forall|j: int| 0 <= j < tail.len() implies #[trigger] contains_path(
            source, tail[j].0@) by {
            assert(tail[j] == dest[j + 1]);
            assert(contains_path(source, dest[j + 1].0@));
        }
        lemma_no_deletions(source, tail);
    }
}

/// How many source entries are directories.
pub open spec fn count_directories(source: Seq<(String, FileInfo)>) -> int
    decreases source.len(),
{
    if source.len() == 0 {
        0
    } else {
        (if source[0].1.file_type is Directory {
            1int
        } else {
            0int
        }) + count_directories(source.drop_first())
    }
}

} // verus!
