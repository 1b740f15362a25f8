//! The session file-list codec: entry count, then per entry the path, size,
//! modification time, kind, and symlink target where applicable.

use vstd::prelude::*;
use vstd::utf8::{valid_utf8, decode_utf8, encode_utf8};
use crate::error::RsyncError;
use crate::file_info::{FileInfo, FileType};
use crate::stream::{
    first_zero, remaining, sign_extend, varint_decode, varint_encode, written, ProtocolStream,
};

verus! {

/// The ghost shape of one encoded entry.
#[verifier::ext_equal]
pub struct FileEntryModel {
    pub path: Seq<char>,
    pub size: int,
    pub mtime: int,
    pub file_type: FileType,
    pub is_symlink: bool,
    pub symlink_target: Option<Seq<char>>,
}

/// The model of an in-memory entry.
pub open spec fn info_model(f: FileInfo) -> FileEntryModel {
    FileEntryModel {
        path: f.path@,
        size: f.size as int,
        mtime: f.mtime as int,
        file_type: f.file_type,
        is_symlink: f.is_symlink,
        symlink_target: match f.symlink_target {
            Some(t) => Some(t@),
            None => None,
        },
    }
}

/// The models of a list of entries.
pub open spec fn info_models(files: Seq<FileInfo>) -> Seq<FileEntryModel> {
    files.map_values(|f: FileInfo| info_model(f))
}

/// A signed 64-bit reading of an unsigned size, as the codec transmits it.
pub open spec fn as_i64(u: int) -> int {
    sign_extend(u % 0x1_0000_0000_0000_0000, 0x1_0000_0000_0000_0000)
}

/// The wire code of an entry kind.
pub open spec fn kind_code(t: FileType) -> u8 {
    match t {
        FileType::File => 0u8,
        FileType::Directory => 1u8,
        FileType::Symlink => 2u8,
    }
}

/// The bytes of one encoded entry.
pub open spec fn encode_entry(m: FileEntryModel) -> Seq<u8> {
    encode_utf8(m.path) + seq![0u8] + varint_encode(as_i64(m.size))
        + varint_encode(m.mtime) + seq![kind_code(m.file_type)] + if m.is_symlink {
        (match m.symlink_target {
            Some(t) => encode_utf8(t),
            None => Seq::empty(),
        }) + seq![0u8]
    } else {
        Seq::empty()
    }
}

/// The bytes of a list of encoded entries.
pub open spec fn encode_entries(ms: Seq<FileEntryModel>) -> Seq<u8>
    decreases ms.len(),
{
    if ms.len() == 0 {
        Seq::empty()
    } else {
        encode_entry(ms[0]) + encode_entries(ms.drop_first())
    }
}

/// The full encoded file list: the count, then each entry.
pub open spec fn encode_flist(ms: Seq<FileEntryModel>) -> Seq<u8> {
    varint_encode(ms.len() as int) + encode_entries(ms)
}

/// Parses one NUL-terminated string of at most 4096 bytes.
pub open spec fn parse_string(s: Seq<u8>) -> Option<(Seq<char>, int)> {
    match first_zero(s) {
        None => None,
        Some(k) => if k > 4096 {
            None
        } else if valid_utf8(s.take(k)) {
            Some((decode_utf8(s.take(k)), k + 1))
        } else {
            None
        },
    }
}

/// Parses one entry.
pub open spec fn parse_entry(s: Seq<u8>) -> Option<(FileEntryModel, int)> {
    match parse_string(s) {
        None => None,
        Some((path, c1)) => match varint_decode(s.skip(c1)) {
            None => None,
            Some((size_signed, c2)) => match varint_decode(s.skip(c1 + c2)) {
                None => None,
                Some((mtime, c3)) => if s.len() < c1 + c2 + c3 + 1 {
                    None
                } else {
                    let code = s[c1 + c2 + c3];
                    let ftype = if code == 1 {
                        FileType::Directory
                    } else if code == 2 {
                        FileType::Symlink
                    } else {
                        FileType::File
                    };
                    let c4 = c1 + c2 + c3 + 1;
                    let size = size_signed % 0x1_0000_0000_0000_0000;
                    if ftype is Symlink {
                        match parse_string(s.skip(c4)) {
                            None => None,
                            Some((target, c5)) => Some((FileEntryModel {
                                path,
                                size,
                                mtime,
                                file_type: ftype,
                                is_symlink: true,
                                symlink_target: if target.len() == 0 {
                                    None
                                } else {
                                    Some(target)
                                },
                            }, c4 + c5)),
                        }
                    } else {
                        Some((FileEntryModel {
                            path,
                            size,
                            mtime,
                            file_type: ftype,
                            is_symlink: false,
                            symlink_target: None,
                        }, c4))
                    }
                },
            },
        },
    }
}

/// Parses `n` entries in sequence.
pub open spec fn parse_entries(s: Seq<u8>, n: int) -> Option<(Seq<FileEntryModel>, int)>
    decreases n,
{
    if n <= 0 {
        Some((Seq::empty(), 0))
    } else {
        match parse_entry(s) {
            None => None,
            Some((m, c)) => match parse_entries(s.skip(c), n - 1) {
                None => None,
                Some((ms, c2)) => Some((seq![m] + ms, c + c2)),
            },
        }
    }
}

/// Parses a whole file list: the count, then that many entries.
pub open spec fn parse_flist(s: Seq<u8>) -> Option<(Seq<FileEntryModel>, int)> {
    match varint_decode(s) {
        None => None,
        Some((n, c)) => if n < 0 {
            None
        } else {
            match parse_entries(s.skip(c), n) {
                None => None,
                Some((ms, c2)) => Some((ms, c + c2)),
            }
        },
    }
}

/// A parsed string consumes at least its terminator and stays inside the
/// input.
proof fn lemma_parse_string_bounds(s: Seq<u8>)
    ensures
        parse_string(s) matches Some(p) ==> 1 <= p.1 <= s.len(),
{
    match first_zero(s) {
        Some(k) => {
            lemma_first_zero_bound(s);
        }
        None => {}
    }
}

/// The first zero lies inside the string.
proof fn lemma_first_zero_bound(s: Seq<u8>)
    ensures
        first_zero(s) matches Some(k) ==> 0 <= k < s.len(),
    decreases s.len(),
{
    if s.len() > 0 && s[0] != 0 {
        lemma_first_zero_bound(s.drop_first());
    }
}

/// A parsed entry consumes at least one byte and stays inside the input.
proof fn lemma_parse_entry_bounds(s: Seq<u8>)
    ensures
        parse_entry(s) matches Some(p) ==> 1 <= p.1 <= s.len(),
{
    lemma_parse_string_bounds(s);
    match parse_string(s) {
        None => {}
        Some((path, c1)) => {
            match varint_decode(s.skip(c1)) {
                None => {}
                Some((sv, c2)) => {
                    assert(1 <= c2 <= s.skip(c1).len());
                    match varint_decode(s.skip(c1 + c2)) {
                        None => {}
                        Some((mt, c3)) => {
                            assert(1 <= c3 <= s.skip(c1 + c2).len());
                            if s.len() >= c1 + c2 + c3 + 1 {
                                lemma_parse_string_bounds(s.skip(c1 + c2 + c3 + 1));
                            }
                        }
                    }
                }
            }
        }
    }
}

/// Parsing `n` entries consumes at least `n` bytes and stays inside the
/// input.
proof fn lemma_parse_entries_bounds(s: Seq<u8>, n: int)
    ensures
        parse_entries(s, n) matches Some(p) ==> (if n >= 0 {
            n
        } else {
            0
        }) <= p.1 <= s.len(),
    decreases n,
{
    if n > 0 {
        lemma_parse_entry_bounds(s);
        match parse_entry(s) {
            None => {}
            Some((m, c)) => {
                lemma_parse_entries_bounds(s.skip(c), n - 1);
            }
        }
    }
}

/// Encodes and decodes session file lists.
pub struct FileList;

impl FileList {
    /// Writes the list: a varint count, then each entry.
    #[verifier::rlimit(100)]
    pub fn encode(stream: &mut ProtocolStream, files: &[FileInfo]) -> (r: Result<
        (), RsyncError>)
        requires
            old(stream).stream.pos + encode_flist(info_models(files@)).len() + 16 <= usize::MAX,
            files@.len() <= 0x7FFF_FFFF_FFFF_FFFF,
        ensures
            r is Ok,
            final(stream).protocol_version == old(stream).protocol_version,
            final(stream).stream.data@ == written(
                old(stream).stream.data@, old(stream).stream.pos as int,
                encode_flist(info_models(files@))),
            final(stream).stream.pos == old(stream).stream.pos
                + encode_flist(info_models(files@)).len(),
    {
        let ghost d0 = stream.stream.data@;
        let ghost p0 = stream.stream.pos as int;
        let ghost all = info_models(files@);
        let n = files.len();
        proof {
            crate::stream::lemma_varint_encode_len(n as int);
            lemma_encode_entries_prefix(all, 0);
        }
        stream.write_varint(n as i64)?;
        let mut i: usize = 0;
        while i < n
            invariant
                n == files@.len(),
                0 <= i <= n,
                all == info_models(files@),
                p0 == old(stream).stream.pos as int,
                d0 == old(stream).stream.data@,
                p0 + encode_flist(all).len() + 16 <= usize::MAX,
                stream.protocol_version == old(stream).protocol_version,
                stream.stream.data@ == written(d0, p0, varint_encode(n as int)
                    + encode_entries(all.take(i as int))),
                stream.stream.pos == p0 + varint_encode(n as int).len()
                    + encode_entries(all.take(i as int)).len(),
            decreases n - i,
        {
            let ghost before = varint_encode(n as int) + encode_entries(all.take(i as int));
            let file = &files[i];
            proof {
                lemma_encode_entries_snoc(all, i as int);
                lemma_encode_entries_prefix(all, i + 1);
                lemma_encode_entries_prefix(all, i as int);
                assert(all[i as int] == info_model(files@[i as int]));
            }
            write_entry(stream, file, Ghost(d0), Ghost(p0), Ghost(before));
            i = i + 1;
        }
        proof {
            assert(all.take(n as int) =~= all);
        }
        stream.flush()?;
        Ok(())
    }

    /// Reads a list back: succeeds exactly when the bytes ahead parse as a
    /// file list, and then returns entries with those models.
    #[verifier::rlimit(100)]
    pub fn decode(stream: &mut ProtocolStream) -> (r: Result<Vec<FileInfo>, RsyncError>)
        ensures
            final(stream).stream.data == old(stream).stream.data,
            final(stream).protocol_version == old(stream).protocol_version,
            match parse_flist(remaining(old(stream).stream)) {
                None => r is Err,
                Some(pair) => r matches Ok(v) && info_models(v@) == pair.0
                    && final(stream).stream.pos == old(stream).stream.pos + pair.1,
            },
    {
        let ghost rem = remaining(old(stream).stream);
        let count64 = stream.read_varint()?;
        if count64 < 0 {
            return Err(RsyncError::Other("negative file count".to_owned()));
        }
        let ghost c0 = varint_decode(rem).unwrap().1;
        let available = if stream.stream.position() <= stream.stream.get_ref().len() {
            stream.stream.get_ref().len() - stream.stream.position()
        } else {
            0
        };
        if (count64 as u64) > (available as u64) {
            // each entry takes at least one byte, so this cannot parse
            proof {
                lemma_parse_entries_bounds(rem.skip(c0), count64 as int);
                assert(remaining(stream.stream) =~= rem.skip(c0));
            }
            return Err(RsyncError::Other("file list too large".to_owned()));
        }
        let count = count64 as usize;
        let mut files: Vec<FileInfo> = Vec::new();
        let mut i: usize = 0;
        proof {
            assert(remaining(stream.stream) =~= rem.skip(c0));
            assert(info_models(files@) =~= Seq::<FileEntryModel>::empty());
        }
        while i < count
            invariant
                0 <= i <= count,
                stream.stream.data == old(stream).stream.data,
                stream.protocol_version == old(stream).protocol_version,
                rem == remaining(old(stream).stream),
                c0 == varint_decode(rem).unwrap().1,
                varint_decode(rem) matches Some(p) && p.0 == count && 0 <= p.1,
                old(stream).stream.pos + c0 <= stream.stream.pos,
                remaining(stream.stream) =~= rem.skip(
                    stream.stream.pos - old(stream).stream.pos),
                match parse_entries(remaining(stream.stream), count - i) {
                    None => parse_entries(rem.skip(c0), count as int) is None,
                    Some(tail_pair) => {
                        match parse_entries(rem.skip(c0), count as int) {
                            None => false,
                            Some(all_pair) => all_pair.0 == info_models(files@) + tail_pair.0
                                && c0 + all_pair.1 == (stream.stream.pos
                                    - old(stream).stream.pos) + tail_pair.1,
                        }
                    },
                },
            decreases count - i,
        {
            let ghost rem_i = remaining(stream.stream);
            let ghost files_before = files@;
            let ghost pos_before = stream.stream.pos as int;
            let entry = match read_entry(stream) {
                Ok(e) => e,
                Err(e) => {
                    proof {
                        lemma_parse_entries_step(rem_i, (count - i) as int);
                    }
                    return Err(e);
                }
            };
            proof {
                let pair = parse_entry(rem_i).unwrap();
                lemma_parse_entry_bounds(rem_i);
                assert(info_model(entry) == pair.0);
                lemma_parse_entries_step(rem_i, (count - i) as int);
                assert(remaining(stream.stream) =~= rem.skip(
                    stream.stream.pos - old(stream).stream.pos));
                assert(remaining(stream.stream) =~= rem_i.skip(pair.1));
                assert(info_models(files_before.push(entry))
                    =~= info_models(files_before).push(info_model(entry)));
                if parse_entries(rem_i.skip(pair.1), count - i - 1) is Some {
                    assert(info_models(files_before) + (seq![pair.0] + parse_entries(
                        rem_i.skip(pair.1), count - i - 1).unwrap().0)
                        =~= info_models(files_before).push(pair.0) + parse_entries(
                            rem_i.skip(pair.1), count - i - 1).unwrap().0);
                }
            }
            files.push(entry);
            i = i + 1;
        }
        proof {
            assert(parse_entries(remaining(stream.stream), 0)
                == Some((Seq::<FileEntryModel>::empty(), 0int)));
            let tail_pair = (Seq::<FileEntryModel>::empty(), 0int);
            assert(info_models(files@) + tail_pair.0 =~= info_models(files@));
        }
        Ok(files)
    }
}

/// Unfolds one step of `parse_entries`.
proof fn lemma_parse_entries_step(s: Seq<u8>, n: int)
    requires
        n >= 1,
    ensures
        parse_entries(s, n) == (match parse_entry(s) {
            None => None::<(Seq<FileEntryModel>, int)>,
            Some(p) => match parse_entries(s.skip(p.1), n - 1) {
                None => None,
                Some(q) => Some((seq![p.0] + q.0, p.1 + q.1)),
            },
        }),
{
}

/// Entry bytes of a prefix stay within the whole list's bytes.
proof fn lemma_encode_entries_prefix(ms: Seq<FileEntryModel>, i: int)
    requires
        0 <= i <= ms.len(),
    ensures
        encode_entries(ms.take(i)).len() <= encode_entries(ms).len(),
        encode_entries(ms).len() >= 0,
    decreases ms.len() - i,
{
    if i == ms.len() {
        assert(ms.take(i) =~= ms);
        lemma_encode_entries_nonneg(ms);
    } else {
        lemma_encode_entries_prefix(ms, i + 1);
        lemma_encode_entries_snoc(ms, i);
        lemma_encode_entries_nonneg(ms.take(i));
    }
}

proof fn lemma_encode_entries_nonneg(ms: Seq<FileEntryModel>)
    ensures
        encode_entries(ms).len() >= 0,
{
}

/// Encoding one more entry appends its bytes.
proof fn lemma_encode_entries_snoc(ms: Seq<FileEntryModel>, i: int)
    requires
        0 <= i < ms.len(),
    ensures
        encode_entries(ms.take(i + 1)) == encode_entries(ms.take(i)) + encode_entry(ms[i]),
    decreases i,
{
    if i == 0 {
        assert(ms.take(1)[0] == ms[0]);
        assert(ms.take(1).drop_first() =~= Seq::<FileEntryModel>::empty());
        assert(ms.take(0) =~= Seq::<FileEntryModel>::empty());
        assert(encode_entries(Seq::<FileEntryModel>::empty()) =~= Seq::<u8>::empty());
        assert(encode_entries(ms.take(1)) =~= encode_entry(ms[0]));
        assert(encode_entries(ms.take(0)) + encode_entry(ms[0]) =~= encode_entry(ms[0]));
    } else {
        lemma_encode_entries_snoc(ms.drop_first(), i - 1);
        assert(ms.take(i + 1)[0] == ms[0]);
        assert(ms.take(i + 1).drop_first() =~= ms.drop_first().take(i));
        assert(ms.take(i)[0] == ms[0]);
        assert(ms.take(i).drop_first() =~= ms.drop_first().take(i - 1));
        assert(ms.drop_first()[i - 1] == ms[i]);
        assert(encode_entry(ms[0]) + (encode_entries(ms.drop_first().take(i - 1))
            + encode_entry(ms[i]))
            =~= (encode_entry(ms[0]) + encode_entries(ms.drop_first().take(i - 1)))
                + encode_entry(ms[i]));
    }
}

/// Writes one entry; the stream grows by exactly the entry's encoding.
#[verifier::rlimit(100)]
#[verifier::spinoff_prover]
fn write_entry(
    stream: &mut ProtocolStream,
    file: &FileInfo,
    Ghost(d0): Ghost<Seq<u8>>,
    Ghost(p0): Ghost<int>,
    Ghost(before): Ghost<Seq<u8>>,
) -> (r: Result<(), RsyncError>)
    requires
        old(stream).stream.data@ == written(d0, p0, before),
        old(stream).stream.pos == p0 + before.len(),
        0 <= p0,
        p0 + before.len() + encode_entry(info_model(*file)).len() + 16 <= usize::MAX,
    ensures
        r is Ok,
        final(stream).protocol_version == old(stream).protocol_version,
        final(stream).stream.data@ == written(d0, p0, before + encode_entry(info_model(*file))),
        final(stream).stream.pos == p0 + before.len() + encode_entry(info_model(*file)).len(),
{
    let ghost m = info_model(*file);
    let ghost e = encode_entry(m);
    let ghost base_pos = p0 + before.len();
    stream.write_string(file.path.as_str())?;
    proof {
        crate::stream::lemma_written_append(d0, p0, before, encode_utf8(m.path) + seq![0u8]);
    }
    let size_i64 = u64_as_i64(file.size);
    stream.write_varint(size_i64)?;
    proof {
        crate::stream::lemma_written_append(d0, p0,
            before + (encode_utf8(m.path) + seq![0u8]), varint_encode(as_i64(m.size)));
    }
    stream.write_varint(file.mtime)?;
    proof {
        crate::stream::lemma_written_append(d0, p0,
            before + (encode_utf8(m.path) + seq![0u8]) + varint_encode(as_i64(m.size)),
            varint_encode(m.mtime));
    }
    let code: i8 = match file.file_type {
        FileType::File => 0,
        FileType::Directory => 1,
        FileType::Symlink => 2,
    };
    stream.write_i8(code)?;
    proof {
        assert(seq![(((code as int) % 0x100)) as u8] =~= seq![kind_code(m.file_type)]);
        crate::stream::lemma_written_append(d0, p0,
            before + (encode_utf8(m.path) + seq![0u8]) + varint_encode(as_i64(m.size))
                + varint_encode(m.mtime),
            seq![kind_code(m.file_type)]);
    }
    if file.is_symlink {
        proof {
            let target_bytes = match m.symlink_target {
                Some(t) => encode_utf8(t),
                None => Seq::<u8>::empty(),
            };
            assert(e.len() == encode_utf8(m.path).len() + 1 + varint_encode(
                as_i64(m.size)).len() + varint_encode(m.mtime).len() + 1
                + target_bytes.len() + 1);
            assert(stream.stream.pos + target_bytes.len() + 1 <= usize::MAX);
            reveal_strlit("");
            assert(encode_utf8(""@) =~= Seq::<u8>::empty());
        }
        match &file.symlink_target {
            Some(target) => {
                stream.write_string(target.as_str())?;
            }
            None => {
                stream.write_string("")?;
            }
        }
        proof {
            let target_bytes = match m.symlink_target {
                Some(t) => encode_utf8(t),
                None => Seq::<u8>::empty(),
            };
            crate::stream::lemma_written_append(d0, p0,
                before + (encode_utf8(m.path) + seq![0u8]) + varint_encode(as_i64(m.size))
                    + varint_encode(m.mtime) + seq![kind_code(m.file_type)],
                target_bytes + seq![0u8]);
            assert(before + e =~= before + (encode_utf8(m.path) + seq![0u8])
                + varint_encode(as_i64(m.size)) + varint_encode(m.mtime)
                + seq![kind_code(m.file_type)] + (target_bytes + seq![0u8]));
        }
    } else {
        proof {
            assert(before + e =~= before + (encode_utf8(m.path) + seq![0u8])
                + varint_encode(as_i64(m.size)) + varint_encode(m.mtime)
                + seq![kind_code(m.file_type)]);
        }
    }
    Ok(())
}

/// The bit-for-bit signed reading of an unsigned 64-bit value.
fn u64_as_i64(u: u64) -> (r: i64)
    ensures
        r as int == as_i64(u as int),
{
    if u >= 0x8000_0000_0000_0000 {
        let m = u - 0x8000_0000_0000_0000;
        proof {
            vstd::arithmetic::div_mod::lemma_small_mod(u as nat, 0x1_0000_0000_0000_0000);
        }
        (m as i64) + (-0x7FFF_FFFF_FFFF_FFFF - 1)
    } else {
        proof {
            vstd::arithmetic::div_mod::lemma_small_mod(u as nat, 0x1_0000_0000_0000_0000);
        }
        u as i64
    }
}

/// The unsigned reading back of a signed 64-bit value.
fn i64_as_u64(v: i64) -> (r: u64)
    ensures
        r as int == (v as int) % 0x1_0000_0000_0000_0000,
{
    crate::stream::to_u64_twos(v)
}

/// Reads one entry; consumes exactly what `parse_entry` says.
#[verifier::rlimit(100)]
#[verifier::spinoff_prover]
fn read_entry(stream: &mut ProtocolStream) -> (r: Result<FileInfo, RsyncError>)
    ensures
        final(stream).stream.data == old(stream).stream.data,
        final(stream).protocol_version == old(stream).protocol_version,
        match parse_entry(remaining(old(stream).stream)) {
            None => r is Err,
            Some(pair) => r matches Ok(f) && info_model(f) == pair.0
                && final(stream).stream.pos == old(stream).stream.pos + pair.1,
        },
{
    let ghost rem = remaining(old(stream).stream);
    proof {
        broadcast use vstd::utf8::encode_utf8_decode_utf8;
    }
    let path = stream.read_string(4096)?;
    proof {
        lemma_first_zero_bound(rem);
        assert(remaining(stream.stream) =~= rem.skip(
            stream.stream.pos - old(stream).stream.pos));
    }
    let ghost rem1 = remaining(stream.stream);
    let size_i64 = stream.read_varint()?;
    proof {
        let pr = varint_decode(rem1).unwrap();
        assert(pr.1 <= rem1.len());
        assert(remaining(stream.stream) =~= rem.skip(
            stream.stream.pos - old(stream).stream.pos));
    }
    let size = i64_as_u64(size_i64);
    proof {
        let su = (size_i64 as int) % 0x1_0000_0000_0000_0000;
        assert(as_i64(size as int) == size_i64 as int) by {
            vstd::arithmetic::div_mod::lemma_small_mod(su as nat, 0x1_0000_0000_0000_0000);
        }
    }
    let ghost rem2 = remaining(stream.stream);
    let mtime = stream.read_varint()?;
    proof {
        let pr = varint_decode(rem2).unwrap();
        assert(pr.1 <= rem2.len());
        assert(remaining(stream.stream) =~= rem.skip(
            stream.stream.pos - old(stream).stream.pos));
    }
    let ghost rem3 = remaining(stream.stream);
    let code = stream.stream.read_byte()?;
    proof {
        assert(remaining(stream.stream) =~= rem.skip(
            stream.stream.pos - old(stream).stream.pos));
    }
    let file_type = if code == 1 {
        FileType::Directory
    } else if code == 2 {
        FileType::Symlink
    } else {
        FileType::File
    };
    let is_symlink = file_type == FileType::Symlink;
    let symlink_target: Option<String> = if is_symlink {
        let ghost rem4 = remaining(stream.stream);
        let target = stream.read_string(4096)?;
        proof {
            lemma_first_zero_bound(rem4);
            assert(remaining(stream.stream) =~= rem.skip(
                stream.stream.pos - old(stream).stream.pos));
        }
        if target.as_str().unicode_len() == 0 {
            proof {
                assert(encode_utf8(target@) =~= Seq::<u8>::empty());
            }
            None
        } else {
            Some(target)
        }
    } else {
        None
    };
    let result = FileInfo { path, size, mtime, file_type, is_symlink, symlink_target };
    proof {
        let pair = parse_entry(rem).unwrap();
        assert(info_model(result) =~= pair.0);
    }
    Ok(result)
}

} // verus!
