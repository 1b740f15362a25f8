//! The wire file-list codec: each entry travels as a flag word naming which
//! fields repeat the previous entry, a name compressed against the previous
//! name by shared-prefix length, and the remaining fields in the tri-mode
//! and varint codecs.  Sender and receiver keep identical running state.

use vstd::prelude::*;
use vstd::utf8::{decode_utf8, encode_utf8, valid_utf8};
use crate::error::RsyncError;
use crate::file_info::FileInfo;
use crate::file_list::as_i64;
use crate::rsync_protocol::{
    rvarint_decode, rvarint_encode, varint30_decode, varint30_encode, varlong30_decode,
    varlong30_encode, XMIT_EXTENDED_FLAGS, XMIT_LONG_NAME, XMIT_SAME_GID, XMIT_SAME_MODE,
    XMIT_SAME_NAME, XMIT_SAME_TIME, XMIT_SAME_UID, XMIT_TOP_DIR,
};
use crate::stream::{le_bytes_n, le_val, remaining, sign_extend, written, ByteBuffer};
use crate::text::{copy_bytes, string_from_bytes_lossy};

verus! {

/// One file-list entry as it travels on the wire.
#[derive(Debug, Clone)]
pub struct FileEntry {
    pub path: String,
    pub mode: u32,
    pub len: u64,
    pub modtime: i64,
    pub uid: u32,
    pub gid: u32,
    pub is_dir: bool,
    pub is_symlink: bool,
    pub symlink_target: Option<String>,
}

/// The running compression state both sides keep: the previous entry's name
/// bytes and repeated fields.
#[derive(Debug, Clone)]
pub struct FileListState {
    pub last_name: Vec<u8>,
    pub last_mode: u32,
    pub last_modtime: i64,
    pub last_uid: u32,
    pub last_gid: u32,
}

impl FileListState {
    pub fn new() -> (r: Self)
        ensures
            state_model(r) == (StateModel {
                last_name: Seq::<u8>::empty(),
                last_mode: 0,
                last_modtime: 0,
                last_uid: 0,
                last_gid: 0,
            }),
    {
        let r = Self {
            last_name: Vec::new(),
            last_mode: 0,
            last_modtime: 0,
            last_uid: 0,
            last_gid: 0,
        };
        proof {
            assert(state_model(r) =~= (StateModel {
                last_name: Seq::<u8>::empty(),
                last_mode: 0,
                last_modtime: 0,
                last_uid: 0,
                last_gid: 0,
            }));
        }
        r
    }
}

/// The entry's fields at the specification level, names as byte strings.
#[verifier::ext_equal]
pub struct EntryModel {
    pub path: Seq<u8>,
    pub mode: int,
    pub len: int,
    pub modtime: int,
    pub uid: int,
    pub gid: int,
    pub is_dir: bool,
    pub is_symlink: bool,
    pub target: Seq<u8>,
}

/// The codec state at the specification level.
#[verifier::ext_equal]
pub struct StateModel {
    pub last_name: Seq<u8>,
    pub last_mode: int,
    pub last_modtime: int,
    pub last_uid: int,
    pub last_gid: int,
}

/// The model of an in-memory entry.
pub open spec fn entry_model(e: FileEntry) -> EntryModel {
    EntryModel {
        path: encode_utf8(e.path@),
        mode: e.mode as int,
        len: e.len as int,
        modtime: e.modtime as int,
        uid: e.uid as int,
        gid: e.gid as int,
        is_dir: e.is_dir,
        is_symlink: e.is_symlink,
        target: match e.symlink_target {
            Some(t) => encode_utf8(t@),
            None => Seq::empty(),
        },
    }
}

/// The model of the running state.
pub open spec fn state_model(st: FileListState) -> StateModel {
    StateModel {
        last_name: st.last_name@,
        last_mode: st.last_mode as int,
        last_modtime: st.last_modtime as int,
        last_uid: st.last_uid as int,
        last_gid: st.last_gid as int,
    }
}

/// The length of the longest shared prefix of two byte strings.
pub open spec fn common_prefix_spec(a: Seq<u8>, b: Seq<u8>) -> int
    decreases a.len(),
{
    if a.len() > 0 && b.len() > 0 && a[0] == b[0] {
        1 + common_prefix_spec(a.drop_first(), b.drop_first())
    } else {
        0
    }
}

/// The shared-prefix length one entry reuses: the common prefix with the
/// previous name, capped at the one byte that carries it.
pub open spec fn xmit_prefix(m: EntryModel, st: StateModel) -> int {
    let c = common_prefix_spec(st.last_name, m.path);
    if c > 255 {
        255
    } else {
        c
    }
}

/// The flag word of one entry: one bit per field that repeats the previous
/// entry, the long-name marker, and the directory bit; a word that would be
/// zero carries the extended bit instead, so that it never collides with
/// the end-of-list marker.
pub open spec fn entry_flags(m: EntryModel, st: StateModel) -> int {
    let prefix = xmit_prefix(m, st);
    let suffix_len = m.path.len() - prefix;
    let f = (if prefix > 0 {
        XMIT_SAME_NAME as int
    } else {
        0
    }) + (if suffix_len > 255 {
        XMIT_LONG_NAME as int
    } else {
        0
    }) + (if m.modtime == st.last_modtime {
        XMIT_SAME_TIME as int
    } else {
        0
    }) + (if m.mode == st.last_mode && st.last_mode != 0 {
        XMIT_SAME_MODE as int
    } else {
        0
    }) + (if m.uid == st.last_uid && st.last_uid != 0 {
        XMIT_SAME_UID as int
    } else {
        0
    }) + (if m.gid == st.last_gid && st.last_gid != 0 {
        XMIT_SAME_GID as int
    } else {
        0
    }) + (if m.is_dir {
        XMIT_TOP_DIR as int
    } else {
        0
    });
    if f == 0 {
        XMIT_EXTENDED_FLAGS as int
    } else {
        f
    }
}

/// The wire bytes of the flag word: a varint (with a zero varint of
/// extended flags after it when the extended bit is set), or one byte — two
/// with the extended bit — in the byte form.
pub open spec fn flags_encode(flags: int, use_varint_flags: bool) -> Seq<u8> {
    if use_varint_flags {
        rvarint_encode(flags) + if flags == XMIT_EXTENDED_FLAGS as int {
            rvarint_encode(0)
        } else {
            Seq::empty()
        }
    } else {
        if flags == XMIT_EXTENDED_FLAGS as int {
            le_bytes_n(flags, 2)
        } else {
            seq![flags as u8]
        }
    }
}

/// The name part of one entry's wire form: the flag word, the shared
/// prefix length, the suffix length, and the suffix bytes.
pub open spec fn entry_encode_head(m: EntryModel, st: StateModel, use_varint_flags: bool)
    -> Seq<u8> {
    let prefix = xmit_prefix(m, st);
    let suffix = m.path.skip(prefix);
    let flags = entry_flags(m, st);
    flags_encode(flags, use_varint_flags) + (if prefix > 0 {
        seq![prefix as u8]
    } else {
        Seq::empty()
    }) + (if suffix.len() > 255 {
        varint30_encode(suffix.len() as int)
    } else {
        seq![suffix.len() as u8]
    }) + suffix
}

/// The length, time and mode fields of one entry's wire form.
pub open spec fn entry_encode_len_time_mode(m: EntryModel, st: StateModel) -> Seq<u8> {
    varlong30_encode(as_i64(m.len)) + (if m.modtime == st.last_modtime {
        Seq::empty()
    } else {
        varlong30_encode(m.modtime)
    }) + (if m.mode == st.last_mode && st.last_mode != 0 {
        Seq::empty()
    } else {
        le_bytes_n(m.mode, 4)
    })
}

/// The owner, group and symlink fields of one entry's wire form.
pub open spec fn entry_encode_owner_link(m: EntryModel, st: StateModel) -> Seq<u8> {
    (if m.uid == st.last_uid && st.last_uid != 0 {
        Seq::empty()
    } else {
        rvarint_encode(m.uid)
    }) + (if m.gid == st.last_gid && st.last_gid != 0 {
        Seq::empty()
    } else {
        rvarint_encode(m.gid)
    }) + (if m.is_symlink {
        varint30_encode(m.target.len() as int) + m.target
    } else {
        Seq::empty()
    })
}

/// The field part of one entry's wire form: length, and the times, mode,
/// owner, group and symlink target that do not repeat the previous entry.
pub open spec fn entry_encode_tail(m: EntryModel, st: StateModel) -> Seq<u8> {
    entry_encode_len_time_mode(m, st) + entry_encode_owner_link(m, st)
}

/// The full wire form of one entry against the current state.
pub open spec fn entry_encode(m: EntryModel, st: StateModel, use_varint_flags: bool) -> Seq<
    u8> {
    entry_encode_head(m, st, use_varint_flags) + entry_encode_tail(m, st)
}

/// The state after an entry: its name and fields become the new reference.
pub open spec fn state_step(m: EntryModel) -> StateModel {
    StateModel {
        last_name: m.path,
        last_mode: m.mode,
        last_modtime: m.modtime,
        last_uid: m.uid,
        last_gid: m.gid,
    }
}

/// The end-of-list marker: a zero flag word.
pub open spec fn end_marker_encode(use_varint_flags: bool) -> Seq<u8> {
    if use_varint_flags {
        rvarint_encode(0)
    } else {
        seq![0u8]
    }
}

/// The shared prefix is no longer than either string.
pub proof fn lemma_common_prefix_bounds(a: Seq<u8>, b: Seq<u8>)
    ensures
        0 <= common_prefix_spec(a, b),
        common_prefix_spec(a, b) <= a.len(),
        common_prefix_spec(a, b) <= b.len(),
    decreases a.len(),
{
    if a.len() > 0 && b.len() > 0 && a[0] == b[0] {
        lemma_common_prefix_bounds(a.drop_first(), b.drop_first());
    }
}

/// The length of the longest shared prefix, by scan.
pub fn find_common_prefix(a: &[u8], b: &[u8]) -> (r: usize)
    ensures
        r == common_prefix_spec(a@, b@),
{
    let n = if a.len() < b.len() {
        a.len()
    } else {
        b.len()
    };
    let mut i: usize = 0;
    proof {
        assert(a@.skip(0) =~= a@);
        assert(b@.skip(0) =~= b@);
    }
    while i < n && a[i] == b[i]
        invariant
            n == if a@.len() < b@.len() {
                a@.len() as int
            } else {
                b@.len() as int
            },
            0 <= i <= n,
            common_prefix_spec(a@, b@) == i + common_prefix_spec(
                a@.skip(i as int), b@.skip(i as int)),
        decreases n - i,
    {
        proof {
            assert(a@.skip(i as int)[0] == a@[i as int]);
            assert(b@.skip(i as int)[0] == b@[i as int]);
            assert(a@.skip(i as int).drop_first() =~= a@.skip(i + 1));
            assert(b@.skip(i as int).drop_first() =~= b@.skip(i + 1));
        }
        i = i + 1;
    }
    proof {
        if i < n {
            assert(a@.skip(i as int)[0] != b@.skip(i as int)[0]);
            assert(common_prefix_spec(a@.skip(i as int), b@.skip(i as int)) == 0);
        } else {
            assert(a@.skip(i as int).len() == 0 || b@.skip(i as int).len() == 0);
            assert(common_prefix_spec(a@.skip(i as int), b@.skip(i as int)) == 0);
        }
    }
    i
}

} // verus!

verus! {

impl FileEntry {
    /// An entry for a scanned file, with its path relative to the tree
    /// root.
    pub fn from_file_info(info: &FileInfo, base: &str) -> (r: FileEntry)
        ensures
            r.mode == 0o644u32,
            r.len == info.size,
            r.modtime == info.mtime,
            r.uid == 0u32 && r.gid == 0u32,
            r.is_dir == (info.file_type is Directory),
            r.is_symlink == info.is_symlink,
            match crate::file_info::strip_prefix_spec(info.path@, base@) {
                Some(rel) => r.path@ == rel,
                None => r.path@ == info.path@,
            },
            match (info.symlink_target, r.symlink_target) {
                (Some(t), Some(rt)) => rt@ == t@,
                (None, None) => true,
                _ => false,
            },
    {
        let path = match info.relative_path(base) {
            Some(rel) => rel,
            None => info.path.clone(),
        };
        let symlink_target = match &info.symlink_target {
            Some(t) => Some(t.clone()),
            None => None,
        };
        FileEntry {
            path,
            mode: 0o644,
            len: info.size,
            modtime: info.mtime,
            uid: 0,
            gid: 0,
            is_dir: info.is_directory(),
            is_symlink: info.is_symlink,
            symlink_target,
        }
    }
}

/// Appends a varint to an end-positioned buffer.
fn append_varint(b: &mut ByteBuffer, v: i64) -> (r: Result<(), RsyncError>)
    requires
        old(b).pos == old(b).data@.len(),
        old(b).pos + 9 <= usize::MAX,
        -0x8000_0000 <= v <= 0x7FFF_FFFF,
    ensures
        r is Ok,
        final(b).data@ == old(b).data@ + rvarint_encode(v as int),
        final(b).pos == final(b).data@.len(),
{
    proof {
        crate::stream::lemma_written_at_end(b.data@, rvarint_encode(v as int));
    }
    crate::rsync_protocol::write_varint(b, v)
}

/// Appends a tri-mode length to an end-positioned buffer.
fn append_varint30(b: &mut ByteBuffer, v: i64) -> (r: Result<(), RsyncError>)
    requires
        old(b).pos == old(b).data@.len(),
        old(b).pos + 9 <= usize::MAX,
    ensures
        r is Ok,
        final(b).data@ == old(b).data@ + varint30_encode(v as int),
        final(b).pos == final(b).data@.len(),
{
    proof {
        crate::stream::lemma_written_at_end(b.data@, varint30_encode(v as int));
        crate::rsync_protocol::lemma_varint30_encode_bound(v as int);
    }
    crate::rsync_protocol::write_varint30(b, v)
}

/// Appends a tri-mode offset to an end-positioned buffer.
fn append_varlong30(b: &mut ByteBuffer, v: i64) -> (r: Result<(), RsyncError>)
    requires
        old(b).pos == old(b).data@.len(),
        old(b).pos + 9 <= usize::MAX,
    ensures
        r is Ok,
        final(b).data@ == old(b).data@ + varlong30_encode(v as int),
        final(b).pos == final(b).data@.len(),
{
    proof {
        crate::stream::lemma_written_at_end(b.data@, varlong30_encode(v as int));
        crate::rsync_protocol::lemma_varlong30_encode_bound(v as int);
    }
    crate::rsync_protocol::write_varlong30(b, v)
}

/// Appends raw bytes to an end-positioned buffer.
fn append_raw(b: &mut ByteBuffer, bytes: &[u8])
    requires
        old(b).pos == old(b).data@.len(),
        old(b).pos + bytes@.len() <= usize::MAX,
    ensures
        final(b).data@ == old(b).data@ + bytes@,
        final(b).pos == final(b).data@.len(),
{
    proof {
        crate::stream::lemma_written_at_end(b.data@, bytes@);
    }
    b.write_bytes(bytes);
}

/// Appends the name part of one entry to the scratch buffer.
#[verifier::rlimit(100)]
#[verifier::spinoff_prover]
fn push_entry_head(
    scratch: &mut ByteBuffer,
    entry: &FileEntry,
    state: &FileListState,
    use_varint_flags: bool,
) -> (r: Result<(), RsyncError>)
    requires
        old(scratch).pos == old(scratch).data@.len(),
        old(scratch).pos + encode_utf8(entry.path@).len() + 32 <= usize::MAX,
        encode_utf8(entry.path@).len() < 0x8000_0000,
    ensures
        r is Ok,
        final(scratch).data@ == old(scratch).data@ + entry_encode_head(
            entry_model(*entry), state_model(*state), use_varint_flags),
        final(scratch).pos == final(scratch).data@.len(),
{
    let ghost m = entry_model(*entry);
    let ghost st0 = state_model(*state);
    let ghost base = scratch.data@;
    let path_bytes = entry.path.as_str().as_bytes();

    proof {
        lemma_common_prefix_bounds(st0.last_name, m.path);
    }
    let raw_prefix = find_common_prefix(state.last_name.as_slice(), path_bytes);
    let prefix = if raw_prefix > 255 {
        255
    } else {
        raw_prefix
    };
    let suffix_len = path_bytes.len() - prefix;
    proof {
        assert(prefix as int == xmit_prefix(m, st0));
        assert(suffix_len as int == m.path.skip(prefix as int).len());
    }

    let flags = entry_flags_exec(entry, state, prefix, suffix_len);
    proof {
        assert(flags as int == entry_flags(m, st0));
        crate::rsync_protocol::lemma_rvarint_encode_bound(entry_flags(m, st0));
        crate::rsync_protocol::lemma_rvarint_encode_bound(0);
        crate::stream::lemma_le_bytes_len(entry_flags(m, st0), 2);
    }

    // the flag word
    if use_varint_flags {
        append_varint(scratch, flags as i64)?;
        if flags == XMIT_EXTENDED_FLAGS {
            append_varint(scratch, 0)?;
        }
    } else {
        if flags == XMIT_EXTENDED_FLAGS {
            proof {
                crate::stream::lemma_written_at_end(scratch.data@,
                    le_bytes_n(flags as int, 2));
            }
            crate::rsync_protocol::write_shortint(scratch, flags)?;
        } else {
            let mut one: Vec<u8> = Vec::new();
            one.push(flags as u8);
            proof {
                assert(one@ =~= seq![entry_flags(m, st0) as u8]);
            }
            append_raw(scratch, one.as_slice());
        }
    }
    let ghost acc1 = base + flags_encode(entry_flags(m, st0), use_varint_flags);
    proof {
        if use_varint_flags && entry_flags(m, st0) != XMIT_EXTENDED_FLAGS as int {
            assert(acc1 =~= base + rvarint_encode(entry_flags(m, st0)));
        }
        if use_varint_flags && entry_flags(m, st0) == XMIT_EXTENDED_FLAGS as int {
            assert(acc1 =~= (base + rvarint_encode(entry_flags(m, st0)))
                + rvarint_encode(0));
        }
        assert(scratch.data@ == acc1 && scratch.pos == acc1.len());
    }

    // shared-prefix length
    if prefix > 0 {
        let mut one: Vec<u8> = Vec::new();
        one.push(prefix as u8);
        proof {
            assert(one@ =~= seq![xmit_prefix(m, st0) as u8]);
        }
        append_raw(scratch, one.as_slice());
    }
    let ghost acc2 = acc1 + (if xmit_prefix(m, st0) > 0 {
        seq![xmit_prefix(m, st0) as u8]
    } else {
        Seq::<u8>::empty()
    });
    proof {
        if prefix == 0 {
            assert(acc2 =~= acc1);
        }
        assert(scratch.data@ == acc2 && scratch.pos == acc2.len());
    }

    // suffix length
    proof {
        crate::rsync_protocol::lemma_varint30_encode_bound(suffix_len as int);
        assert(acc2.len() <= base.len() + 11);
    }
    if suffix_len > 255 {
        proof {
            assert(suffix_len as int == m.path.skip(xmit_prefix(m, st0)).len() as int);
            assert(varint30_encode(suffix_len as int)
                == varint30_encode(m.path.skip(xmit_prefix(m, st0)).len() as int));
        }
        append_varint30(scratch, suffix_len as i64)?;
    } else {
        let mut one: Vec<u8> = Vec::new();
        one.push(suffix_len as u8);
        proof {
            assert(one@ =~= seq![m.path.skip(xmit_prefix(m, st0)).len() as u8]);
        }
        append_raw(scratch, one.as_slice());
    }
    let ghost acc3 = acc2 + (if m.path.skip(xmit_prefix(m, st0)).len() > 255 {
        varint30_encode(m.path.skip(xmit_prefix(m, st0)).len() as int)
    } else {
        seq![m.path.skip(xmit_prefix(m, st0)).len() as u8]
    });
    proof {
        assert(scratch.data@ == acc3);
        assert(acc3.len() <= base.len() + 20);
    }

    // the suffix itself
    let suffix = &path_bytes[prefix..path_bytes.len()];
    proof {
        assert(suffix@ =~= m.path.skip(xmit_prefix(m, st0)));
    }
    append_raw(scratch, suffix);
    proof {
        assert(scratch.data@ =~= base + entry_encode_head(m, st0, use_varint_flags));
    }
    Ok(())
}

/// The flag word of one entry, from the already-computed name facts.
fn entry_flags_exec(
    entry: &FileEntry,
    state: &FileListState,
    prefix: usize,
    suffix_len: usize,
) -> (r: u16)
    requires
        prefix as int == xmit_prefix(entry_model(*entry), state_model(*state)),
        suffix_len as int == entry_model(*entry).path.len() - prefix,
    ensures
        r as int == entry_flags(entry_model(*entry), state_model(*state)),
{
    let mut flags: u16 = 0;
    if prefix > 0 {
        flags = flags + XMIT_SAME_NAME;
    }
    if suffix_len > 255 {
        flags = flags + XMIT_LONG_NAME;
    }
    if entry.modtime == state.last_modtime {
        flags = flags + XMIT_SAME_TIME;
    }
    if entry.mode == state.last_mode && state.last_mode != 0 {
        flags = flags + XMIT_SAME_MODE;
    }
    if entry.uid == state.last_uid && state.last_uid != 0 {
        flags = flags + XMIT_SAME_UID;
    }
    if entry.gid == state.last_gid && state.last_gid != 0 {
        flags = flags + XMIT_SAME_GID;
    }
    if entry.is_dir {
        flags = flags + XMIT_TOP_DIR;
    }
    if flags == 0 {
        flags = XMIT_EXTENDED_FLAGS;
    }
    flags
}

/// Appends the length, time and mode fields to the scratch buffer.
#[verifier::rlimit(100)]
#[verifier::spinoff_prover]
fn push_entry_len_time_mode(
    scratch: &mut ByteBuffer,
    entry: &FileEntry,
    state: &FileListState,
) -> (r: Result<(), RsyncError>)
    requires
        old(scratch).pos == old(scratch).data@.len(),
        old(scratch).pos + 24 <= usize::MAX,
    ensures
        r is Ok,
        final(scratch).data@ == old(scratch).data@ + entry_encode_len_time_mode(
            entry_model(*entry), state_model(*state)),
        final(scratch).pos == final(scratch).data@.len(),
{
    let ghost m = entry_model(*entry);
    let ghost st0 = state_model(*state);
    let ghost base = scratch.data@;

    // byte length
    let len_signed: i64 = if entry.len >= 0x8000_0000_0000_0000 {
        let mid = entry.len - 0x8000_0000_0000_0000;
        (mid as i64) + (-0x7FFF_FFFF_FFFF_FFFF - 1)
    } else {
        entry.len as i64
    };
    proof {
        vstd::arithmetic::div_mod::lemma_small_mod(entry.len as nat,
            0x1_0000_0000_0000_0000);
        assert(len_signed as int == as_i64(m.len));
        crate::rsync_protocol::lemma_varlong30_encode_bound(as_i64(m.len));
        crate::rsync_protocol::lemma_varlong30_encode_bound(m.modtime);
    }
    append_varlong30(scratch, len_signed)?;
    let ghost acc5 = base + varlong30_encode(as_i64(m.len));

    // modification time, unless repeated
    if !(entry.modtime == state.last_modtime) {
        append_varlong30(scratch, entry.modtime)?;
    }
    let ghost acc6 = acc5 + (if m.modtime == st0.last_modtime {
        Seq::<u8>::empty()
    } else {
        varlong30_encode(m.modtime)
    });
    proof {
        if entry.modtime == state.last_modtime {
            assert(acc6 =~= acc5);
        }
        assert(scratch.data@ == acc6);
    }

    // mode, unless repeated
    if !(entry.mode == state.last_mode && state.last_mode != 0) {
        proof {
            crate::stream::lemma_le_bytes_len(m.mode, 4);
            vstd::arithmetic::div_mod::lemma_small_mod(entry.mode as nat, 0x1_0000_0000);
        }
        let mode_bytes = crate::stream::to_le_bytes(entry.mode as u64, 4);
        append_raw(scratch, mode_bytes.as_slice());
    }
    proof {
        let acc7 = acc6 + (if m.mode == st0.last_mode && st0.last_mode != 0 {
            Seq::<u8>::empty()
        } else {
            le_bytes_n(m.mode, 4)
        });
        if entry.mode == state.last_mode && state.last_mode != 0 {
            assert(acc7 =~= acc6);
        }
        assert(scratch.data@ == acc7);
        assert(acc7 =~= base + entry_encode_len_time_mode(m, st0));
    }
    Ok(())
}

/// Appends the owner and group fields to the scratch buffer.
#[verifier::rlimit(100)]
#[verifier::spinoff_prover]
fn push_entry_owner(
    scratch: &mut ByteBuffer,
    entry: &FileEntry,
    state: &FileListState,
) -> (r: Result<(), RsyncError>)
    requires
        old(scratch).pos == old(scratch).data@.len(),
        old(scratch).pos + 20 <= usize::MAX,
    ensures
        r is Ok,
        final(scratch).data@ == old(scratch).data@ + (if entry_model(*entry).uid
            == state_model(*state).last_uid && state_model(*state).last_uid != 0 {
            Seq::<u8>::empty()
        } else {
            rvarint_encode(entry_model(*entry).uid)
        }) + (if entry_model(*entry).gid == state_model(*state).last_gid
            && state_model(*state).last_gid != 0 {
            Seq::<u8>::empty()
        } else {
            rvarint_encode(entry_model(*entry).gid)
        }),
        final(scratch).pos == final(scratch).data@.len(),
{
    let ghost m = entry_model(*entry);
    let ghost st0 = state_model(*state);
    let ghost base = scratch.data@;

    if !(entry.uid == state.last_uid && state.last_uid != 0) {
        let uid_signed: i64 = if entry.uid >= 0x8000_0000 {
            (entry.uid as i64) - 0x1_0000_0000
        } else {
            entry.uid as i64
        };
        proof {
            assert(rvarint_encode(uid_signed as int) == rvarint_encode(m.uid));
            crate::rsync_protocol::lemma_rvarint_encode_bound(m.uid);
        }
        append_varint(scratch, uid_signed)?;
    }
    let ghost acc8 = base + (if m.uid == st0.last_uid && st0.last_uid != 0 {
        Seq::<u8>::empty()
    } else {
        rvarint_encode(m.uid)
    });
    proof {
        if entry.uid == state.last_uid && state.last_uid != 0 {
            assert(acc8 =~= base);
        }
        crate::rsync_protocol::lemma_rvarint_encode_bound(m.uid);
        crate::rsync_protocol::lemma_rvarint_encode_bound(m.gid);
        assert(scratch.data@ == acc8);
        assert(acc8.len() <= base.len() + 5);
    }
    if !(entry.gid == state.last_gid && state.last_gid != 0) {
        let gid_signed: i64 = if entry.gid >= 0x8000_0000 {
            (entry.gid as i64) - 0x1_0000_0000
        } else {
            entry.gid as i64
        };
        proof {
            assert(rvarint_encode(gid_signed as int) == rvarint_encode(m.gid));
        }
        append_varint(scratch, gid_signed)?;
    }
    proof {
        let acc9 = acc8 + (if m.gid == st0.last_gid && st0.last_gid != 0 {
            Seq::<u8>::empty()
        } else {
            rvarint_encode(m.gid)
        });
        if entry.gid == state.last_gid && state.last_gid != 0 {
            assert(acc9 =~= acc8);
        }
        assert(scratch.data@ == acc9);
    }
    Ok(())
}

/// Appends the owner, group and symlink fields to the scratch buffer.
#[verifier::rlimit(100)]
#[verifier::spinoff_prover]
fn push_entry_owner_link(
    scratch: &mut ByteBuffer,
    entry: &FileEntry,
    state: &FileListState,
) -> (r: Result<(), RsyncError>)
    requires
        old(scratch).pos == old(scratch).data@.len(),
        old(scratch).pos + entry_model(*entry).target.len() + 24 <= usize::MAX,
        entry_model(*entry).target.len() < 0x8000_0000,
    ensures
        r is Ok,
        final(scratch).data@ == old(scratch).data@ + entry_encode_owner_link(
            entry_model(*entry), state_model(*state)),
        final(scratch).pos == final(scratch).data@.len(),
{
    let ghost m = entry_model(*entry);
    let ghost st0 = state_model(*state);
    let ghost base = scratch.data@;

    push_entry_owner(scratch, entry, state)?;
    let ghost acc9 = base + (if m.uid == st0.last_uid && st0.last_uid != 0 {
        Seq::<u8>::empty()
    } else {
        rvarint_encode(m.uid)
    }) + (if m.gid == st0.last_gid && st0.last_gid != 0 {
        Seq::<u8>::empty()
    } else {
        rvarint_encode(m.gid)
    });
    proof {
        crate::rsync_protocol::lemma_rvarint_encode_bound(m.uid);
        crate::rsync_protocol::lemma_rvarint_encode_bound(m.gid);
        assert(scratch.data@ == acc9);
        assert(acc9.len() <= base.len() + 10);
    }

    // symlink target, length-prefixed
    if entry.is_symlink {
        let target_bytes: Vec<u8> = match &entry.symlink_target {
            Some(t) => copy_bytes(t.as_str().as_bytes()),
            None => Vec::new(),
        };
        proof {
            assert(target_bytes@ =~= m.target);
            crate::rsync_protocol::lemma_varint30_encode_bound(m.target.len() as int);
        }
        append_varint30(scratch, target_bytes.len() as i64)?;
        append_raw(scratch, target_bytes.as_slice());
    }
    proof {
        let acc10 = acc9 + (if m.is_symlink {
            varint30_encode(m.target.len() as int) + m.target
        } else {
            Seq::<u8>::empty()
        });
        if !entry.is_symlink {
            assert(acc10 =~= acc9);
        } else {
            assert(acc10 =~= (acc9 + varint30_encode(m.target.len() as int)) + m.target);
        }
        assert(scratch.data@ == acc10);
        assert(acc10 =~= base + entry_encode_owner_link(m, st0));
    }
    Ok(())
}

/// Writes one entry against the running state, which steps to the entry's
/// fields.  The entry is assembled in a scratch buffer and leaves as one
/// write.
pub fn send_file_entry(
    writer: &mut ByteBuffer,
    entry: &FileEntry,
    state: &mut FileListState,
    use_varint_flags: bool,
) -> (r: Result<(), RsyncError>)
    requires
        old(writer).pos + encode_utf8(entry.path@).len()
            + entry_model(*entry).target.len() + 80 <= usize::MAX,
        encode_utf8(entry.path@).len() < 0x8000_0000,
        entry_model(*entry).target.len() < 0x8000_0000,
    ensures
        r is Ok,
        final(writer).data@ == written(old(writer).data@, old(writer).pos as int,
            entry_encode(entry_model(*entry), state_model(*old(state)), use_varint_flags)),
        final(writer).pos == old(writer).pos + entry_encode(
            entry_model(*entry), state_model(*old(state)), use_varint_flags).len(),
        state_model(*final(state)) == state_step(entry_model(*entry)),
{
    let ghost m = entry_model(*entry);
    let ghost st0 = state_model(*old(state));
    let mut scratch = ByteBuffer::new();
    proof {
        lemma_entry_head_bound(m, st0, use_varint_flags);
        lemma_entry_tail_bound(m, st0);
    }
    push_entry_head(&mut scratch, entry, state, use_varint_flags)?;
    push_entry_len_time_mode(&mut scratch, entry, state)?;
    push_entry_owner_link(&mut scratch, entry, state)?;
    proof {
        assert(scratch.data@ =~= entry_encode(m, st0, use_varint_flags));
    }
    writer.write_bytes(scratch.data.as_slice());

    let path_bytes = entry.path.as_str().as_bytes();
    state.last_name = copy_bytes(path_bytes);
    state.last_mode = entry.mode;
    state.last_modtime = entry.modtime;
    state.last_uid = entry.uid;
    state.last_gid = entry.gid;
    proof {
        assert(state_model(*state) =~= state_step(m));
    }
    Ok(())
}

/// The name part is at most the path plus a fixed overhead.
proof fn lemma_entry_head_bound(m: EntryModel, st: StateModel, use_varint_flags: bool)
    ensures
        entry_encode_head(m, st, use_varint_flags).len() <= 20 + m.path.len(),
{
    crate::rsync_protocol::lemma_rvarint_encode_bound(entry_flags(m, st));
    crate::rsync_protocol::lemma_rvarint_encode_bound(0);
    crate::stream::lemma_le_bytes_len(entry_flags(m, st), 2);
    crate::rsync_protocol::lemma_varint30_encode_bound(
        m.path.skip(xmit_prefix(m, st)).len() as int);
    lemma_common_prefix_bounds(st.last_name, m.path);
}

/// The field part is at most the target plus a fixed overhead.
proof fn lemma_entry_tail_bound(m: EntryModel, st: StateModel)
    ensures
        entry_encode_tail(m, st).len() <= 46 + m.target.len(),
        entry_encode_len_time_mode(m, st).len() <= 22,
        entry_encode_owner_link(m, st).len() <= 24 + m.target.len(),
{
    crate::rsync_protocol::lemma_varlong30_encode_bound(as_i64(m.len));
    crate::rsync_protocol::lemma_varlong30_encode_bound(m.modtime);
    crate::stream::lemma_le_bytes_len(m.mode, 4);
    crate::rsync_protocol::lemma_rvarint_encode_bound(m.uid);
    crate::rsync_protocol::lemma_rvarint_encode_bound(m.gid);
    crate::rsync_protocol::lemma_varint30_encode_bound(m.target.len() as int);
}

/// Writes the end-of-list marker.
pub fn write_end_of_flist(writer: &mut ByteBuffer, use_varint_flags: bool) -> (r: Result<
    (), RsyncError>)
    requires
        old(writer).pos + 9 <= usize::MAX,
    ensures
        r is Ok,
        final(writer).data@ == written(old(writer).data@, old(writer).pos as int,
            end_marker_encode(use_varint_flags)),
        final(writer).pos == old(writer).pos + end_marker_encode(use_varint_flags).len(),
{
    if use_varint_flags {
        crate::rsync_protocol::write_varint(writer, 0)?;
    } else {
        let mut one: Vec<u8> = Vec::new();
        one.push(0);
        proof {
            assert(one@ =~= seq![0u8]);
        }
        writer.write_bytes(one.as_slice());
    }
    Ok(())
}


/// True when the flag word carries the given power-of-two bit.
pub open spec fn has_bit(f: int, b: int) -> bool {
    (f / b) % 2 == 1
}

/// The receiver's 16-bit truncation of a decoded varint.
pub open spec fn trunc16(v: int) -> int {
    (v % 0x1_0000_0000_0000_0000) % 0x10000
}

/// The receiver's 32-bit truncation of a decoded varint.
pub open spec fn trunc32(v: int) -> int {
    (v % 0x1_0000_0000_0000_0000) % 0x1_0000_0000
}

/// The receiver's 64-bit reading of a decoded length.
pub open spec fn trunc64(v: int) -> int {
    v % 0x1_0000_0000_0000_0000
}

/// Decodes the flag word: the flags and the bytes consumed.  A zero word is
/// the end-of-list marker; in the varint form a set extended bit is
/// followed by a second varint, which is read and discarded.
pub open spec fn flags_decode(s: Seq<u8>, use_varint_flags: bool) -> Option<(int, int)> {
    if use_varint_flags {
        match rvarint_decode(s) {
            None => None,
            Some(p) => {
                let f = trunc16(p.0);
                if f == 0 {
                    Some((0, p.1))
                } else if has_bit(f, XMIT_EXTENDED_FLAGS as int) {
                    match rvarint_decode(s.skip(p.1)) {
                        None => None,
                        Some(q) => Some((f, p.1 + q.1)),
                    }
                } else {
                    Some((f, p.1))
                }
            },
        }
    } else {
        if s.len() == 0 {
            None
        } else if s[0] == 0 {
            Some((0, 1))
        } else if has_bit(s[0] as int, XMIT_EXTENDED_FLAGS as int) {
            if s.len() < 2 {
                None
            } else {
                Some((s[0] + s[1] * 0x100, 2))
            }
        } else {
            Some((s[0] as int, 1))
        }
    }
}

/// Decodes the name: the shared-prefix byte when flagged, the suffix
/// length, and the suffix bytes, resolved against the previous name.  A
/// prefix longer than the previous name, or a suffix length outside the
/// positive 31-bit range, is refused.
pub open spec fn name_decode(s: Seq<u8>, flags: int, last_name: Seq<u8>) -> Option<(Seq<
    u8>, int)> {
    if has_bit(flags, XMIT_SAME_NAME as int) && s.len() == 0 {
        None
    } else {
        let prefix: int = if has_bit(flags, XMIT_SAME_NAME as int) {
            s[0] as int
        } else {
            0
        };
        let k: int = if has_bit(flags, XMIT_SAME_NAME as int) {
            1
        } else {
            0
        };
        let t = s.skip(k);
        match (if has_bit(flags, XMIT_LONG_NAME as int) {
            varint30_decode(t)
        } else if t.len() == 0 {
            None
        } else {
            Some((t[0] as int, 1int))
        }) {
            None => None,
            Some(p) => {
                let u = t.skip(p.1);
                if p.0 < 0 || p.0 >= 0x8000_0000 || u.len() < p.0 || prefix
                    > last_name.len() {
                    None
                } else {
                    Some((last_name.take(prefix) + u.take(p.0), k + p.1 + p.0))
                }
            },
        }
    }
}

/// Decodes the length, time, mode, owner and group fields after the name:
/// the values and the bytes consumed.
pub open spec fn fields_decode(s: Seq<u8>, flags: int, st: StateModel) -> Option<((int,
    int, int, int, int), int)> {
    match varlong30_decode(s) {
        None => None,
        Some(pl) => {
            let s1 = s.skip(pl.1);
            match (if has_bit(flags, XMIT_SAME_TIME as int) {
                Some((st.last_modtime, 0int))
            } else {
                varlong30_decode(s1)
            }) {
                None => None,
                Some(pt) => {
                    let s2 = s1.skip(pt.1);
                    match (if has_bit(flags, XMIT_SAME_MODE as int) {
                        Some((st.last_mode, 0int))
                    } else if s2.len() < 4 {
                        None
                    } else {
                        Some((le_val(s2.take(4)), 4int))
                    }) {
                        None => None,
                        Some(pm) => {
                            let s3 = s2.skip(pm.1);
                            match (if has_bit(flags, XMIT_SAME_UID as int) {
                                Some((st.last_uid, 0int))
                            } else {
                                match rvarint_decode(s3) {
                                    None => None,
                                    Some(q) => Some((trunc32(q.0), q.1)),
                                }
                            }) {
                                None => None,
                                Some(pu) => {
                                    let s4 = s3.skip(pu.1);
                                    match (if has_bit(flags, XMIT_SAME_GID as int) {
                                        Some((st.last_gid, 0int))
                                    } else {
                                        match rvarint_decode(s4) {
                                            None => None,
                                            Some(q) => Some((trunc32(q.0), q.1)),
                                        }
                                    }) {
                                        None => None,
                                        Some(pg) => Some(((pl.0, pt.0, pm.0, pu.0, pg.0),
                                            pl.1 + pt.1 + pm.1 + pu.1 + pg.1)),
                                    }
                                },
                            }
                        },
                    }
                },
            }
        },
    }
}

/// Decodes the field part after the name: length, then each field that the
/// flag word does not mark as repeating the previous entry, and the symlink
/// target when the decoded mode names a symlink.  The name field of the
/// result is left empty for the caller to fill.
pub open spec fn tail_decode(s: Seq<u8>, flags: int, st: StateModel) -> Option<(EntryModel,
    int)> {
    match fields_decode(s, flags, st) {
        None => None,
        Some(pf) => tail_decode_link(s.skip(pf.1), flags, st, pf.0.0, pf.0.1, pf.0.2,
            pf.0.3, pf.0.4, pf.1),
    }
}

/// Whether a mode word names a symlink.
pub open spec fn mode_is_symlink(mode: int) -> bool {
    (mode / 0x1000) % 0x10 == 0xA
}

/// The symlink-target step of [`tail_decode`], and the assembled entry.
pub open spec fn tail_decode_link(s: Seq<u8>, flags: int, st: StateModel, len: int,
    modtime: int, mode: int, uid: int, gid: int, used: int) -> Option<(EntryModel, int)> {
    match (if !mode_is_symlink(mode) {
        Some((Seq::<u8>::empty(), 0int))
    } else {
        match varint30_decode(s) {
            None => None,
            Some(q) => if q.0 < 0 || q.0 >= 0x8000_0000 || s.skip(q.1).len() < q.0 {
                None
            } else {
                Some((s.skip(q.1).take(q.0), q.1 + q.0))
            },
        }
    }) {
        None => None,
        Some(pt) => Some((EntryModel {
            path: Seq::empty(),
            mode: mode,
            len: trunc64(len),
            modtime: modtime,
            uid: uid,
            gid: gid,
            is_dir: has_bit(flags, XMIT_TOP_DIR as int),
            is_symlink: mode_is_symlink(mode),
            target: pt.0,
        }, used + pt.1)),
    }
}

/// Decodes one entry against the current state: the flag word, the name,
/// then the fields.  `Some((None, n))` is the end-of-list marker.
pub open spec fn entry_decode(s: Seq<u8>, st: StateModel, use_varint_flags: bool)
    -> Option<(Option<EntryModel>, int)> {
    match flags_decode(s, use_varint_flags) {
        None => None,
        Some(pf) => if pf.0 == 0 {
            Some((None, pf.1))
        } else {
            match name_decode(s.skip(pf.1), pf.0, st.last_name) {
                None => None,
                Some(pn) => match tail_decode(s.skip(pf.1 + pn.1), pf.0, st) {
                    None => None,
                    Some(pt) => Some((Some(EntryModel { path: pn.0, ..pt.0 }), pf.1 + pn.1
                        + pt.1)),
                },
            }
        },
    }
}


/// Reads the flag word; zero is the end-of-list marker.
fn recv_flags(reader: &mut ByteBuffer, use_varint_flags: bool) -> (r: Result<u16,
    RsyncError>)
    ensures
        final(reader).data == old(reader).data,
        match flags_decode(remaining(*old(reader)), use_varint_flags) {
            None => r is Err,
            Some(p) => r matches Ok(f) && f as int == p.0
                && final(reader).pos == old(reader).pos + p.1,
        },
{
    let ghost rem = remaining(*old(reader));
    if use_varint_flags {
        let v = crate::rsync_protocol::read_varint(reader)?;
        let fword = crate::stream::to_u64_twos(v) % 0x10000;
        let f = fword as u16;
        proof {
            assert(f as int == trunc16(v as int));
        }
        if f == 0 {
            return Ok(0);
        }
        if (f / 4) % 2 == 1 {
            proof {
                assert(remaining(*reader) =~= rem.skip(
                    rvarint_decode(rem).unwrap().1));
            }
            let _ = crate::rsync_protocol::read_varint(reader)?;
        }
        Ok(f)
    } else {
        let b1 = reader.read_byte()?;
        if b1 == 0 {
            return Ok(0);
        }
        if (b1 / 4) % 2 == 1 {
            proof {
                if rem.len() >= 2 {
                    assert(rem.drop_first()[0] == rem[1]);
                }
            }
            let b2 = reader.read_byte()?;
            Ok(b1 as u16 + (b2 as u16) * 0x100)
        } else {
            Ok(b1 as u16)
        }
    }
}

/// Reads the name: the shared-prefix byte when flagged, the suffix length,
/// the suffix bytes, joined to the kept previous name.
fn recv_name(reader: &mut ByteBuffer, flags: u16, state: &FileListState) -> (r: Result<
    Vec<u8>, RsyncError>)
    ensures
        final(reader).data == old(reader).data,
        match name_decode(remaining(*old(reader)), flags as int, state.last_name@) {
            None => r is Err,
            Some(p) => r matches Ok(v) && v@ == p.0
                && final(reader).pos == old(reader).pos + p.1,
        },
{
    let ghost rem = remaining(*old(reader));
    let ghost k: int = if has_bit(flags as int, XMIT_SAME_NAME as int) { 1int } else { 0int };
    let prefix: usize = if (flags / 32) % 2 == 1 {
        reader.read_byte()? as usize
    } else {
        0
    };
    proof {
        assert(remaining(*reader) =~= rem.skip(k));
    }
    let ghost t = rem.skip(k);
    let suffix_len: usize = if (flags / 64) % 2 == 1 {
        let v = crate::rsync_protocol::read_varint30(reader)?;
        if v < 0 || v > 0x7FFF_FFFF {
            return Err(RsyncError::Other("file name too long".to_owned()));
        }
        v as usize
    } else {
        reader.read_byte()? as usize
    };
    let ghost p1: int = if has_bit(flags as int, XMIT_LONG_NAME as int) {
        varint30_decode(t).unwrap().1
    } else {
        1int
    };
    proof {
        assert(remaining(*reader) =~= t.skip(p1));
    }
    if prefix > state.last_name.len() {
        return Err(RsyncError::Other("bad name prefix".to_owned()));
    }
    let mut suffix = reader.read_exact_bytes(suffix_len)?;
    let head = &state.last_name.as_slice()[0..prefix];
    let mut name = copy_bytes(head);
    name.append(&mut suffix);
    proof {
        assert(name@ =~= state.last_name@.take(prefix as int)
            + t.skip(p1).take(suffix_len as int));
    }
    Ok(name)
}

/// Reads the length, time, mode, owner and group fields.
#[verifier::rlimit(100)]
#[verifier::spinoff_prover]
fn recv_fields(reader: &mut ByteBuffer, flags: u16, state: &FileListState) -> (r: Result<
    (u64, i64, u32, u32, u32), RsyncError>)
    ensures
        final(reader).data == old(reader).data,
        match fields_decode(remaining(*old(reader)), flags as int, state_model(*state)) {
            None => r is Err,
            Some(p) => {
                &&& r matches Ok(f)
                &&& final(reader).pos == old(reader).pos + p.1
                &&& f.0 as int == trunc64(p.0.0)
                &&& f.1 as int == p.0.1
                &&& f.2 as int == p.0.2
                &&& f.3 as int == p.0.3
                &&& f.4 as int == p.0.4
            },
        },
{
    let ghost st0 = state_model(*state);
    let ghost s0 = remaining(*old(reader));
    let lv = crate::rsync_protocol::read_varlong30(reader)?;
    let len: u64 = crate::stream::to_u64_twos(lv);
    let ghost pl = varlong30_decode(s0).unwrap();
    proof {
        assert(remaining(*reader) =~= s0.skip(pl.1));
    }
    let ghost s1 = s0.skip(pl.1);

    let modtime: i64 = if (flags / 128) % 2 == 1 {
        state.last_modtime
    } else {
        crate::rsync_protocol::read_varlong30(reader)?
    };
    let ghost pt: (int, int) = if has_bit(flags as int, XMIT_SAME_TIME as int) {
        (st0.last_modtime, 0int)
    } else {
        varlong30_decode(s1).unwrap()
    };
    proof {
        assert(modtime as int == pt.0);
        assert(remaining(*reader) =~= s1.skip(pt.1));
    }
    let ghost s2 = s1.skip(pt.1);

    let mode: u32 = if (flags / 2) % 2 == 1 {
        state.last_mode
    } else {
        let bytes = reader.read_exact_bytes(4)?;
        proof {
            crate::stream::lemma_le_val_bound(bytes@);
            crate::stream::lemma_pow256_values();
        }
        let u = crate::stream::le_value(bytes.as_slice());
        u as u32
    };
    let ghost pm: (int, int) = if has_bit(flags as int, XMIT_SAME_MODE as int) {
        (st0.last_mode, 0int)
    } else {
        (le_val(s2.take(4)), 4int)
    };
    proof {
        assert(mode as int == pm.0);
        assert(remaining(*reader) =~= s2.skip(pm.1));
    }
    let ghost s3 = s2.skip(pm.1);

    let uid: u32 = if (flags / 8) % 2 == 1 {
        state.last_uid
    } else {
        let v = crate::rsync_protocol::read_varint(reader)?;
        (crate::stream::to_u64_twos(v) % 0x1_0000_0000) as u32
    };
    let ghost pu: (int, int) = if has_bit(flags as int, XMIT_SAME_UID as int) {
        (st0.last_uid, 0int)
    } else {
        let q = rvarint_decode(s3).unwrap();
        (trunc32(q.0), q.1)
    };
    proof {
        assert(uid as int == pu.0);
        assert(remaining(*reader) =~= s3.skip(pu.1));
    }
    let ghost s4 = s3.skip(pu.1);

    let gid: u32 = if (flags / 16) % 2 == 1 {
        state.last_gid
    } else {
        let v = crate::rsync_protocol::read_varint(reader)?;
        (crate::stream::to_u64_twos(v) % 0x1_0000_0000) as u32
    };
    let ghost pg: (int, int) = if has_bit(flags as int, XMIT_SAME_GID as int) {
        (st0.last_gid, 0int)
    } else {
        let q = rvarint_decode(s4).unwrap();
        (trunc32(q.0), q.1)
    };
    proof {
        assert(gid as int == pg.0);
        assert(remaining(*reader) =~= s4.skip(pg.1));
    }
    Ok((len, modtime, mode, uid, gid))
}

/// Reads the field part after the name; the returned entry's path is empty
/// for the caller to fill.
#[verifier::rlimit(100)]
#[verifier::spinoff_prover]
fn recv_tail(reader: &mut ByteBuffer, flags: u16, state: &FileListState) -> (r: Result<
    FileEntry, RsyncError>)
    ensures
        final(reader).data == old(reader).data,
        match tail_decode(remaining(*old(reader)), flags as int, state_model(*state)) {
            None => r is Err,
            Some(p) => {
                &&& r matches Ok(e)
                &&& final(reader).pos == old(reader).pos + p.1
                &&& e.path@ == Seq::<char>::empty()
                &&& e.mode as int == p.0.mode
                &&& e.len as int == p.0.len
                &&& e.modtime as int == p.0.modtime
                &&& e.uid as int == p.0.uid
                &&& e.gid as int == p.0.gid
                &&& e.is_dir == p.0.is_dir
                &&& e.is_symlink == p.0.is_symlink
                &&& (valid_utf8(p.0.target) ==> entry_model(e).target == p.0.target)
            },
        },
{
    let ghost st0 = state_model(*state);
    let ghost s0 = remaining(*old(reader));
    let fields = recv_fields(reader, flags, state)?;
    let (len, modtime, mode, uid, gid) = fields;
    let ghost pf = fields_decode(s0, flags as int, st0).unwrap();
    proof {
        assert(remaining(*reader) =~= s0.skip(pf.1));
    }
    let ghost s5 = s0.skip(pf.1);

    let is_symlink = (mode / 0x1000) % 0x10 == 0xA;
    proof {
        assert(is_symlink == mode_is_symlink(mode as int));
    }
    let symlink_target: Option<String> = if is_symlink {
        let v = crate::rsync_protocol::read_varint30(reader)?;
        if v < 0 || v > 0x7FFF_FFFF {
            return Err(RsyncError::Other("symlink target too long".to_owned()));
        }
        let ghost q = varint30_decode(s5).unwrap();
        proof {
            assert(remaining(*reader) =~= s5.skip(q.1));
        }
        let target_bytes = reader.read_exact_bytes(v as usize)?;
        Some(string_from_bytes_lossy(&target_bytes))
    } else {
        None
    };

    let entry = FileEntry {
        path: String::new(),
        mode,
        len,
        modtime,
        uid,
        gid,
        is_dir: (flags / 1) % 2 == 1,
        is_symlink,
        symlink_target,
    };
    proof {
        let p = tail_decode(s0, flags as int, st0).unwrap();
        assert(entry.path@ =~= Seq::<char>::empty());
        if valid_utf8(p.0.target) {
            assert(entry_model(entry).target =~= p.0.target);
        }
    }
    Ok(entry)
}

/// Reads one entry against the running state, which steps to the decoded
/// fields; `Ok(None)` is the end of the list.  The name and any symlink
/// target come back as the characters their bytes spell when those bytes
/// are well-formed text.
#[verifier::rlimit(100)]
#[verifier::spinoff_prover]
pub fn recv_file_entry(reader: &mut ByteBuffer, state: &mut FileListState,
    use_varint_flags: bool) -> (r: Result<Option<FileEntry>, RsyncError>)
    ensures
        final(reader).data == old(reader).data,
        match entry_decode(remaining(*old(reader)), state_model(*old(state)),
            use_varint_flags) {
            None => r is Err,
            Some(p) => match p.0 {
                None => r matches Ok(oe) && oe is None
                    && final(reader).pos == old(reader).pos + p.1
                    && *final(state) == *old(state),
                Some(dm) => {
                    &&& r matches Ok(oe)
                    &&& oe matches Some(e)
                    &&& final(reader).pos == old(reader).pos + p.1
                    &&& state_model(*final(state)) == state_step(dm)
                    &&& e.mode as int == dm.mode
                    &&& e.len as int == dm.len
                    &&& e.modtime as int == dm.modtime
                    &&& e.uid as int == dm.uid
                    &&& e.gid as int == dm.gid
                    &&& e.is_dir == dm.is_dir
                    &&& e.is_symlink == dm.is_symlink
                    &&& (valid_utf8(dm.path) ==> entry_model(e).path == dm.path)
                    &&& (valid_utf8(dm.target) ==> entry_model(e).target == dm.target)
                },
            },
        },
{
    let ghost s0 = remaining(*old(reader));
    let ghost st0 = state_model(*old(state));
    let flags = recv_flags(reader, use_varint_flags)?;
    if flags == 0 {
        return Ok(None);
    }
    let ghost pf = flags_decode(s0, use_varint_flags).unwrap();
    proof {
        assert(remaining(*reader) =~= s0.skip(pf.1));
    }
    let name = recv_name(reader, flags, state)?;
    let ghost pn = name_decode(s0.skip(pf.1), pf.0, st0.last_name).unwrap();
    proof {
        assert(remaining(*reader) =~= s0.skip(pf.1).skip(pn.1));
        assert(s0.skip(pf.1).skip(pn.1) =~= s0.skip(pf.1 + pn.1));
    }
    let mut entry = recv_tail(reader, flags, state)?;
    let ghost pt = tail_decode(s0.skip(pf.1 + pn.1), pf.0, st0).unwrap();
    entry.path = string_from_bytes_lossy(&name);

    state.last_name = name;
    state.last_mode = entry.mode;
    state.last_modtime = entry.modtime;
    state.last_uid = entry.uid;
    state.last_gid = entry.gid;
    proof {
        let dm = entry_decode(s0, st0, use_varint_flags).unwrap().0.unwrap();
        assert(dm =~= (EntryModel { path: pn.0, ..pt.0 }));
        assert(state_model(*state) =~= state_step(dm));
        if valid_utf8(dm.path) {
            assert(entry_model(entry).path =~= dm.path);
        }
    }
    Ok(Some(entry))
}


/// The starting codec state: empty name, zero fields.
pub open spec fn initial_state() -> StateModel {
    StateModel {
        last_name: Seq::empty(),
        last_mode: 0,
        last_modtime: 0,
        last_uid: 0,
        last_gid: 0,
    }
}

/// The wire form of a run of entries, each against the state its
/// predecessors left.
pub open spec fn flist_entries_encode(ms: Seq<EntryModel>, st: StateModel,
    use_varint_flags: bool) -> Seq<u8>
    decreases ms.len(),
{
    if ms.len() == 0 {
        Seq::empty()
    } else {
        entry_encode(ms[0], st, use_varint_flags) + flist_entries_encode(ms.drop_first(),
            state_step(ms[0]), use_varint_flags)
    }
}

/// The wire form of a whole list: the entries, then the end marker.
pub open spec fn flist_encode(ms: Seq<EntryModel>, st: StateModel, use_varint_flags: bool)
    -> Seq<u8> {
    flist_entries_encode(ms, st, use_varint_flags) + end_marker_encode(use_varint_flags)
}

/// The state a run of entries leaves behind.
pub open spec fn state_after(ms: Seq<EntryModel>, st: StateModel) -> StateModel
    decreases ms.len(),
{
    if ms.len() == 0 {
        st
    } else {
        state_after(ms.drop_first(), state_step(ms[0]))
    }
}

/// A per-entry bound on the wire size, summed over a run.
pub open spec fn flist_budget(ms: Seq<EntryModel>) -> int
    decreases ms.len(),
{
    if ms.len() == 0 {
        0
    } else {
        ms[0].path.len() + ms[0].target.len() + 80 + flist_budget(ms.drop_first())
    }
}

/// Appending one entry extends the run's wire form by that entry's form
/// against the state the run left, and steps the left state.
pub proof fn lemma_flist_snoc(ms: Seq<EntryModel>, m: EntryModel, st: StateModel,
    use_varint_flags: bool)
    ensures
        flist_entries_encode(ms.push(m), st, use_varint_flags) == flist_entries_encode(
            ms, st, use_varint_flags) + entry_encode(m, state_after(ms, st),
            use_varint_flags),
        state_after(ms.push(m), st) == state_step(m),
        flist_budget(ms.push(m)) == flist_budget(ms) + m.path.len() + m.target.len() + 80,
    decreases ms.len(),
{
    if ms.len() == 0 {
        assert(ms.push(m)[0] == m);
        assert(ms.push(m).drop_first() =~= Seq::<EntryModel>::empty());
        assert(flist_entries_encode(Seq::<EntryModel>::empty(), state_step(m),
            use_varint_flags) == Seq::<u8>::empty());
        assert(flist_entries_encode(ms, st, use_varint_flags) == Seq::<u8>::empty());
        assert(flist_entries_encode(ms.push(m), st, use_varint_flags) =~=
            flist_entries_encode(ms, st, use_varint_flags) + entry_encode(m,
            state_after(ms, st), use_varint_flags));
        assert(state_after(Seq::<EntryModel>::empty(), state_step(m)) == state_step(m));
        assert(state_after(ms.push(m), st) == state_step(m));
        assert(flist_budget(Seq::<EntryModel>::empty()) == 0);
        assert(flist_budget(ms.push(m)) == flist_budget(ms) + m.path.len()
            + m.target.len() + 80);
    } else {
        assert(ms.push(m)[0] == ms[0]);
        assert(ms.push(m).drop_first() =~= ms.drop_first().push(m));
        lemma_flist_snoc(ms.drop_first(), m, state_step(ms[0]), use_varint_flags);
        assert(flist_entries_encode(ms.push(m), st, use_varint_flags) =~=
            flist_entries_encode(ms, st, use_varint_flags) + entry_encode(m,
            state_after(ms, st), use_varint_flags));
        assert(state_after(ms.push(m), st) == state_after(ms.drop_first().push(m),
            state_step(ms[0])));
        assert(flist_budget(ms.push(m)) == ms[0].path.len() + ms[0].target.len() + 80
            + flist_budget(ms.drop_first().push(m)));
        assert(flist_budget(ms.push(m)) == flist_budget(ms) + m.path.len()
            + m.target.len() + 80);
    }
}

/// A run's wire form stays within its budget.
pub proof fn lemma_flist_budget(ms: Seq<EntryModel>, st: StateModel,
    use_varint_flags: bool)
    ensures
        0 <= flist_entries_encode(ms, st, use_varint_flags).len(),
        flist_entries_encode(ms, st, use_varint_flags).len() <= flist_budget(ms),
        0 <= flist_budget(ms),
    decreases ms.len(),
{
    if ms.len() > 0 {
        lemma_entry_head_bound(ms[0], st, use_varint_flags);
        lemma_entry_tail_bound(ms[0], st);
        lemma_common_prefix_bounds(st.last_name, ms[0].path);
        lemma_flist_budget(ms.drop_first(), state_step(ms[0]), use_varint_flags);
    }
}

/// The entry a scanned file becomes: its path relative to the base when
/// the base prefixes it, a plain-file mode, and no owner.
pub open spec fn info_model(info: crate::file_info::FileInfo, base: Seq<char>)
    -> EntryModel {
    EntryModel {
        path: encode_utf8(match crate::file_info::strip_prefix_spec(info.path@, base) {
            Some(rel) => rel,
            None => info.path@,
        }),
        mode: 0o644,
        len: info.size as int,
        modtime: info.mtime as int,
        uid: 0,
        gid: 0,
        is_dir: info.file_type is Directory,
        is_symlink: info.is_symlink,
        target: match info.symlink_target {
            Some(t) => encode_utf8(t@),
            None => Seq::empty(),
        },
    }
}

/// The models of a run of scanned files.
pub open spec fn info_models(files: Seq<crate::file_info::FileInfo>, base: Seq<char>)
    -> Seq<EntryModel> {
    files.map(|i: int, f: crate::file_info::FileInfo| info_model(f, base))
}

/// Writes a whole file list from a fresh state: each scanned file as one
/// entry, then the end marker.
#[verifier::rlimit(100)]
#[verifier::spinoff_prover]
pub fn send_file_list(writer: &mut ByteBuffer, files: &Vec<crate::file_info::FileInfo>,
    base: &str, use_varint_flags: bool) -> (r: Result<(), RsyncError>)
    requires
        old(writer).pos <= old(writer).data@.len(),
        old(writer).pos + flist_budget(info_models(files@, base@)) + 9 <= usize::MAX,
        forall|i: int| 0 <= i < files@.len()
            ==> (#[trigger] info_models(files@, base@)[i]).path.len() < 0x8000_0000
                && info_models(files@, base@)[i].target.len() < 0x8000_0000,
    ensures
        r is Ok,
        final(writer).data@ == written(old(writer).data@, old(writer).pos as int,
            flist_encode(info_models(files@, base@), initial_state(), use_varint_flags)),
        final(writer).pos == old(writer).pos + flist_encode(info_models(files@, base@),
            initial_state(), use_varint_flags).len(),
{
    let ghost ms = info_models(files@, base@);
    let ghost data0 = old(writer).data@;
    let ghost pos0 = old(writer).pos as int;
    let mut state = FileListState::new();
    proof {
        assert(state_model(state) =~= initial_state());
        assert(ms.take(0) =~= Seq::<EntryModel>::empty());
        assert(flist_entries_encode(ms.take(0), initial_state(), use_varint_flags)
            == Seq::<u8>::empty());
        assert(written(data0, pos0, Seq::<u8>::empty()) =~= data0);
        lemma_flist_budget(ms, initial_state(), use_varint_flags);
    }
    let mut i: usize = 0;
    while i < files.len()
        invariant
            0 <= i <= files@.len(),
            0 <= pos0,
            ms == info_models(files@, base@),
            ms.len() == files@.len(),
            forall|k: int| 0 <= k < files@.len() ==> (#[trigger] ms[k]).path.len()
                < 0x8000_0000 && ms[k].target.len() < 0x8000_0000,
            pos0 + flist_budget(ms) + 9 <= usize::MAX,
            writer.data@ == written(data0, pos0, flist_entries_encode(ms.take(i as int),
                initial_state(), use_varint_flags)),
            writer.pos == pos0 + flist_entries_encode(ms.take(i as int), initial_state(),
                use_varint_flags).len(),
            state_model(state) == state_after(ms.take(i as int), initial_state()),
            flist_budget(ms.take(i as int)) <= flist_budget(ms),
            flist_entries_encode(ms.take(i as int), initial_state(),
                use_varint_flags).len() <= flist_budget(ms.take(i as int)),
        decreases files@.len() - i,
    {
        let entry = FileEntry::from_file_info(&files[i], base);
        let ghost m = ms[i as int];
        let ghost done = ms.take(i as int);
        let ghost st_here = state_after(done, initial_state());
        proof {
            assert(entry_model(entry) =~= m);
            lemma_flist_snoc(done, m, initial_state(), use_varint_flags);
            lemma_flist_budget(done.push(m), initial_state(), use_varint_flags);
            assert(done.push(m) =~= ms.take(i + 1));
            lemma_take_budget(ms, i + 1);
            lemma_entry_head_bound(m, st_here, use_varint_flags);
            lemma_entry_tail_bound(m, st_here);
            assert(encode_utf8(entry.path@) == m.path);
            assert(ms[i as int].path.len() < 0x8000_0000);
            assert(flist_budget(done) + m.path.len() + m.target.len() + 80
                == flist_budget(ms.take(i + 1)));
            assert(writer.pos + m.path.len() + m.target.len() + 80 <= usize::MAX);
        }
        send_file_entry(writer, &entry, &mut state, use_varint_flags)?;
        proof {
            crate::stream::lemma_written_append(data0, pos0, flist_entries_encode(done,
                initial_state(), use_varint_flags), entry_encode(m, st_here,
                use_varint_flags));
        }
        i = i + 1;
    }
    proof {
        assert(ms.take(files@.len() as int) =~= ms);
    }
    write_end_of_flist(writer, use_varint_flags)?;
    proof {
        crate::stream::lemma_written_append(data0, pos0, flist_entries_encode(ms,
            initial_state(), use_varint_flags), end_marker_encode(use_varint_flags));
    }
    Ok(())
}

/// A prefix of a run asks for no more budget than the whole run.
pub proof fn lemma_take_budget(ms: Seq<EntryModel>, k: int)
    requires
        0 <= k <= ms.len(),
    ensures
        flist_budget(ms.take(k)) <= flist_budget(ms),
    decreases ms.len(),
{
    if k > 0 && ms.len() > 0 {
        assert(ms.take(k).drop_first() =~= ms.drop_first().take(k - 1));
        lemma_take_budget(ms.drop_first(), k - 1);
    } else if ms.len() > 0 {
        assert(ms.take(0) =~= Seq::<EntryModel>::empty());
        lemma_flist_budget_nonneg(ms);
    }
}

/// Budgets are never negative.
pub proof fn lemma_flist_budget_nonneg(ms: Seq<EntryModel>)
    ensures
        0 <= flist_budget(ms),
    decreases ms.len(),
{
    if ms.len() > 0 {
        lemma_flist_budget_nonneg(ms.drop_first());
    }
}


/// A decoded entry consumes at least the flag byte and never more than the
/// input.
pub proof fn lemma_entry_decode_consumes(s: Seq<u8>, st: StateModel,
    use_varint_flags: bool)
    ensures
        entry_decode(s, st, use_varint_flags) matches Some(p) ==> 1 <= p.1 <= s.len(),
{
    if entry_decode(s, st, use_varint_flags) is Some {
        let pf = flags_decode(s, use_varint_flags).unwrap();
        lemma_flags_decode_consumes(s, use_varint_flags);
        if pf.0 != 0 {
            let pn = name_decode(s.skip(pf.1), pf.0, st.last_name).unwrap();
            lemma_name_decode_consumes(s.skip(pf.1), pf.0, st.last_name);
            let pt = tail_decode(s.skip(pf.1 + pn.1), pf.0, st).unwrap();
            lemma_tail_decode_consumes(s.skip(pf.1 + pn.1), pf.0, st);
        }
    }
}

/// The flag word consumes at least one byte and never more than the input.
proof fn lemma_flags_decode_consumes(s: Seq<u8>, use_varint_flags: bool)
    ensures
        flags_decode(s, use_varint_flags) matches Some(p) ==> 1 <= p.1 <= s.len(),
{
    if flags_decode(s, use_varint_flags) is Some && use_varint_flags {
        let p = rvarint_decode(s).unwrap();
        assert(1 <= p.1 <= s.len());
        let f = trunc16(p.0);
        if f != 0 && has_bit(f, XMIT_EXTENDED_FLAGS as int) {
            let q = rvarint_decode(s.skip(p.1)).unwrap();
            assert(1 <= q.1 <= s.skip(p.1).len());
        }
    }
}

/// The name part never consumes more than the input.
proof fn lemma_name_decode_consumes(s: Seq<u8>, flags: int, last_name: Seq<u8>)
    ensures
        name_decode(s, flags, last_name) matches Some(p) ==> 0 <= p.1 <= s.len(),
{
}

/// The field part never consumes more than the input.
proof fn lemma_tail_decode_consumes(s: Seq<u8>, flags: int, st: StateModel)
    ensures
        tail_decode(s, flags, st) matches Some(p) ==> 0 <= p.1 <= s.len(),
{
    if tail_decode(s, flags, st) is Some {
        let pf = fields_decode(s, flags, st).unwrap();
        lemma_fields_decode_consumes(s, flags, st);
    }
}

/// The fixed fields never consume more than the input.
proof fn lemma_fields_decode_consumes(s: Seq<u8>, flags: int, st: StateModel)
    ensures
        fields_decode(s, flags, st) matches Some(p) ==> 0 <= p.1 <= s.len(),
{
}

/// A whole decoded list: the entries before the end marker, and the bytes
/// consumed through it.
#[verifier::opaque]
pub open spec fn flist_decode(s: Seq<u8>, st: StateModel, use_varint_flags: bool)
    -> Option<(Seq<EntryModel>, int)>
    decreases s.len(),
{
    match entry_decode(s, st, use_varint_flags) {
        None => None,
        Some(p) => match p.0 {
            None => Some((Seq::empty(), p.1)),
            Some(m) => if 1 <= p.1 <= s.len() {
                match flist_decode(s.skip(p.1), state_step(m), use_varint_flags) {
                    None => None,
                    Some(q) => Some((seq![m] + q.0, p.1 + q.1)),
                }
            } else {
                None
            },
        },
    }
}

/// One decoded entry unfolds the list decode by one step.
proof fn lemma_flist_step(cur: Seq<u8>, cur_st: StateModel, use_varint_flags: bool,
    dm: EntryModel, p1: int)
    requires
        entry_decode(cur, cur_st, use_varint_flags) == Some((Some(dm), p1)),
        1 <= p1 <= cur.len(),
    ensures
        flist_decode(cur, cur_st, use_varint_flags) == (match flist_decode(cur.skip(p1),
            state_step(dm), use_varint_flags) {
            None => None::<(Seq<EntryModel>, int)>,
            Some(q) => Some((seq![dm] + q.0, p1 + q.1)),
        }),
{
    reveal(flist_decode);
}

/// The end marker closes the list decode with no entries.
proof fn lemma_flist_end(cur: Seq<u8>, cur_st: StateModel, use_varint_flags: bool,
    p1: int)
    requires
        entry_decode(cur, cur_st, use_varint_flags) == Some((None::<EntryModel>, p1)),
    ensures
        flist_decode(cur, cur_st, use_varint_flags) == Some((Seq::<EntryModel>::empty(),
            p1)),
{
    reveal(flist_decode);
}

/// A failed entry decode fails the list decode.
proof fn lemma_flist_err(cur: Seq<u8>, cur_st: StateModel, use_varint_flags: bool)
    requires
        entry_decode(cur, cur_st, use_varint_flags) is None,
    ensures
        flist_decode(cur, cur_st, use_varint_flags) is None,
{
    reveal(flist_decode);
}

/// The decoded fields an in-memory entry carries faithfully: every plain
/// field exactly, and the name and target characters whenever their bytes
/// are well-formed text.
pub open spec fn entry_matches(e: FileEntry, dm: EntryModel) -> bool {
    &&& e.mode as int == dm.mode
    &&& e.len as int == dm.len
    &&& e.modtime as int == dm.modtime
    &&& e.uid as int == dm.uid
    &&& e.gid as int == dm.gid
    &&& e.is_dir == dm.is_dir
    &&& e.is_symlink == dm.is_symlink
    &&& (valid_utf8(dm.path) ==> entry_model(e).path == dm.path)
    &&& (valid_utf8(dm.target) ==> entry_model(e).target == dm.target)
}

/// Reads a whole file list from a fresh state: entries until the end
/// marker, each carried faithfully in the sense of [`entry_matches`].
#[verifier::rlimit(100)]
#[verifier::spinoff_prover]
pub fn recv_file_list(reader: &mut ByteBuffer, use_varint_flags: bool) -> (r: Result<Vec<
    FileEntry>, RsyncError>)
    ensures
        final(reader).data == old(reader).data,
        match flist_decode(remaining(*old(reader)), initial_state(), use_varint_flags) {
            None => r is Err,
            Some(p) => r matches Ok(v) && final(reader).pos == old(reader).pos + p.1
                && v@.len() == p.0.len()
                && forall|i: int| 0 <= i < p.0.len()
                    ==> entry_matches(v@[i], #[trigger] p.0[i]),
        },
{
    let ghost rem0 = remaining(*old(reader));
    let ghost pos0 = old(reader).pos as int;
    let mut files: Vec<FileEntry> = Vec::new();
    let mut state = FileListState::new();
    let ghost mut dms: Seq<EntryModel> = Seq::empty();
    proof {
        assert(state_model(state) =~= initial_state());
        match flist_decode(rem0, initial_state(), use_varint_flags) {
            None => {},
            Some(q) => {
                assert(Seq::<EntryModel>::empty() + q.0 =~= q.0);
            },
        }
    }
    loop
        invariant
            reader.data == old(reader).data,
            pos0 == old(reader).pos as int,
            pos0 <= reader.pos,
            rem0 == remaining(*old(reader)),
            files@.len() == dms.len(),
            forall|i: int| 0 <= i < dms.len() ==> entry_matches(files@[i],
                #[trigger] dms[i]),
            match flist_decode(remaining(*reader), state_model(state),
                use_varint_flags) {
                None => flist_decode(rem0, initial_state(), use_varint_flags) is None,
                Some(q) => flist_decode(rem0, initial_state(), use_varint_flags)
                    == Some((dms + q.0, (reader.pos - pos0) + q.1)),
            },
        decreases remaining(*reader).len(),
    {
        let ghost cur = remaining(*reader);
        let ghost cur_st = state_model(state);
        let step = recv_file_entry(reader, &mut state, use_varint_flags);
        proof {
            lemma_entry_decode_consumes(cur, cur_st, use_varint_flags);
        }
        match step {
            Err(e) => {
                proof {
                    assert(entry_decode(cur, cur_st, use_varint_flags) is None);
                    lemma_flist_err(cur, cur_st, use_varint_flags);
                }
                return Err(e);
            },
            Ok(None) => {
                let ghost p = entry_decode(cur, cur_st, use_varint_flags).unwrap();
                proof {
                    lemma_flist_end(cur, cur_st, use_varint_flags, p.1);
                    assert(dms + Seq::<EntryModel>::empty() =~= dms);
                }
                return Ok(files);
            },
            Ok(Some(entry)) => {
                let ghost p = entry_decode(cur, cur_st, use_varint_flags).unwrap();
                let ghost dm = p.0.unwrap();
                let ghost dms_before = dms;
                files.push(entry);
                proof {
                    dms = dms_before.push(dm);
                    assert(entry_decode(cur, cur_st, use_varint_flags)
                        == Some((Some(dm), p.1)));
                    lemma_flist_step(cur, cur_st, use_varint_flags, dm, p.1);
                    assert(remaining(*reader) =~= cur.skip(p.1));
                    assert(state_model(state) == state_step(dm));
                    assert(entry_matches(files@[files@.len() - 1], dm));
                    match flist_decode(remaining(*reader), state_model(state),
                        use_varint_flags) {
                        None => {},
                        Some(q) => {
                            assert(flist_decode(cur, cur_st, use_varint_flags)
                                == Some((seq![dm] + q.0, p.1 + q.1)));
                            assert(dms_before + (seq![dm] + q.0) =~= dms + q.0);
                        },
                    }
                }
            },
        }
    }
}


} // verus!
