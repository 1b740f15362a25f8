//! Session configuration: every option the driver recognises, plus the
//! compression and strong-digest algorithm choices.

use vstd::prelude::*;
use vstd::string::{StrSliceExecFns, StringExecFns};
use crate::error::RsyncError;
use crate::text::str_eq;
use crate::verbose::VerboseOutput;

verus! {

/// Payload compression codec used for literal data.
#[derive(Debug, Clone, Copy, PartialEq, Eq, Structural)]
pub enum CompressionAlgorithm {
    Zstd,
    Lz4,
    Zlib,
}

impl Default for CompressionAlgorithm {
    fn default() -> (r: Self)
        ensures
            r == CompressionAlgorithm::Zlib,
    {
        CompressionAlgorithm::Zlib
    }
}

/// Strong digest used to confirm a rolling-checksum candidate match.
///
/// `Xxh128` is accepted by the option parser but is served by the MD5
/// implementation.
#[derive(Debug, Clone, Copy, PartialEq, Eq, Structural)]
pub enum ChecksumAlgorithm {
    Md4,
    Md5,
    Blake2,
    Xxh128,
}

impl Default for ChecksumAlgorithm {
    fn default() -> (r: Self)
        ensures
            r == ChecksumAlgorithm::Md5,
    {
        ChecksumAlgorithm::Md5
    }
}

/// Parses a `--checksum-choice` value.
pub fn parse_checksum_algorithm(name: &str) -> (r: Result<ChecksumAlgorithm, RsyncError>)
    ensures
        name@ == "md4"@ ==> (r matches Ok(a) && a == ChecksumAlgorithm::Md4),
        name@ == "md5"@ ==> (r matches Ok(a) && a == ChecksumAlgorithm::Md5),
        name@ == "blake2"@ ==> (r matches Ok(a) && a == ChecksumAlgorithm::Blake2),
        name@ == "xxh128"@ ==> (r matches Ok(a) && a == ChecksumAlgorithm::Xxh128),
        name@ != "md4"@ && name@ != "md5"@ && name@ != "blake2"@ && name@ != "xxh128"@
            ==> r is Err,
{
    proof {
        reveal_strlit("md4");
        reveal_strlit("md5");
        reveal_strlit("blake2");
        reveal_strlit("xxh128");
        assert("md4"@ != "md5"@) by {
            assert("md4"@[2] != "md5"@[2]);
        }
        assert("md4"@ != "blake2"@) by {
            assert("md4"@.len() != "blake2"@.len());
        }
        assert("md4"@ != "xxh128"@) by {
            assert("md4"@.len() != "xxh128"@.len());
        }
        assert("md5"@ != "blake2"@) by {
            assert("md5"@.len() != "blake2"@.len());
        }
        assert("md5"@ != "xxh128"@) by {
            assert("md5"@.len() != "xxh128"@.len());
        }
        assert("blake2"@ != "xxh128"@) by {
            assert("blake2"@[0] != "xxh128"@[0]);
        }
    }
    if str_eq(name, "md4") {
        Ok(ChecksumAlgorithm::Md4)
    } else if str_eq(name, "md5") {
        Ok(ChecksumAlgorithm::Md5)
    } else if str_eq(name, "blake2") {
        Ok(ChecksumAlgorithm::Blake2)
    } else if str_eq(name, "xxh128") {
        Ok(ChecksumAlgorithm::Xxh128)
    } else {
        Err(RsyncError::InvalidOption(name.to_owned()))
    }
}

/// Parses a `--compress-choice` value.
pub fn parse_compression_algorithm(name: &str) -> (r: Result<CompressionAlgorithm, RsyncError>)
    ensures
        name@ == "zstd"@ ==> (r matches Ok(a) && a == CompressionAlgorithm::Zstd),
        name@ == "lz4"@ ==> (r matches Ok(a) && a == CompressionAlgorithm::Lz4),
        name@ == "zlib"@ ==> (r matches Ok(a) && a == CompressionAlgorithm::Zlib),
        name@ != "zstd"@ && name@ != "lz4"@ && name@ != "zlib"@ ==> r is Err,
{
    proof {
        reveal_strlit("zstd");
        reveal_strlit("lz4");
        reveal_strlit("zlib");
        assert("zstd"@ != "lz4"@) by {
            assert("zstd"@.len() != "lz4"@.len());
        }
        assert("zstd"@ != "zlib"@) by {
            assert("zstd"@[1] != "zlib"@[1]);
        }
        assert("lz4"@ != "zlib"@) by {
            assert("lz4"@.len() != "zlib"@.len());
        }
    }
    if str_eq(name, "zstd") {
        Ok(CompressionAlgorithm::Zstd)
    } else if str_eq(name, "lz4") {
        Ok(CompressionAlgorithm::Lz4)
    } else if str_eq(name, "zlib") {
        Ok(CompressionAlgorithm::Zlib)
    } else {
        Err(RsyncError::InvalidOption(name.to_owned()))
    }
}

/// The strong-digest algorithm a configuration selects (MD5 unless chosen).
pub open spec fn chosen_checksum(o: Options) -> ChecksumAlgorithm {
    match o.checksum_choice {
        Some(a) => a,
        None => ChecksumAlgorithm::Md5,
    }
}

/// The compression algorithm a configuration selects (zlib unless chosen).
pub open spec fn chosen_compression(o: Options) -> CompressionAlgorithm {
    match o.compress_choice {
        Some(a) => a,
        None => CompressionAlgorithm::Zlib,
    }
}

/// The compressor configuration: an algorithm when compression is on.
pub open spec fn compression_of(o: Options) -> Option<CompressionAlgorithm> {
    if o.compress {
        Some(chosen_compression(o))
    } else {
        None
    }
}

/// Everything the driver can be told to do.  Paths are kept as
/// separator-normalised strings.
#[derive(Debug, Clone)]
pub struct Options {
    pub verbose: u8,
    pub quiet: bool,
    pub checksum: bool,
    pub archive: bool,
    pub recursive: bool,
    pub relative: bool,
    pub update: bool,
    pub links: bool,
    pub copy_links: bool,
    pub hard_links: bool,

    pub compress: bool,
    pub compress_choice: Option<CompressionAlgorithm>,
    pub whole_file: bool,
    pub inplace: bool,
    pub partial: bool,
    pub partial_dir: Option<String>,
    pub bwlimit: Option<u64>,

    pub backup: bool,
    pub backup_dir: Option<String>,
    pub suffix: String,

    pub delete: bool,
    pub delete_before: bool,
    pub delete_during: bool,
    pub delete_after: bool,
    pub delete_excluded: bool,
    pub remove_source_files: bool,

    pub exclude: Vec<String>,
    pub includes: Vec<String>,
    pub exclude_from: Vec<String>,
    pub include_from: Vec<String>,
    pub files_from: Option<String>,

    pub progress: bool,
    pub itemize_changes: bool,
    pub stats: bool,
    pub human_readable: bool,
    pub log_file: Option<String>,

    pub rsh: Option<String>,
    pub rsync_path: Option<String>,

    pub daemon: bool,
    pub address: Option<String>,
    pub port: Option<u16>,
    pub config: Option<String>,
    pub password_file: Option<String>,

    pub dry_run: bool,
    pub list_only: bool,
    pub size_only: bool,
    pub timeout: Option<u64>,

    pub checksum_choice: Option<ChecksumAlgorithm>,
}

impl Default for Options {
    fn default() -> (r: Self)
        ensures
            r.verbose == 0 && !r.quiet && !r.checksum && !r.archive && !r.recursive,
            !r.relative && !r.update && !r.links && !r.copy_links && !r.hard_links,
            !r.compress && r.compress_choice is None && !r.whole_file && !r.inplace,
            !r.partial && r.partial_dir is None && r.bwlimit is None,
            !r.backup && r.backup_dir is None && r.suffix@ == "~"@,
            !r.delete && !r.delete_before && !r.delete_during && !r.delete_after,
            !r.delete_excluded && !r.remove_source_files,
            r.exclude@ == Seq::<String>::empty() && r.includes@ == Seq::<String>::empty(),
            r.exclude_from@ == Seq::<String>::empty() && r.include_from@ == Seq::<String>::empty(),
            r.files_from is None,
            !r.progress && !r.itemize_changes && !r.stats && !r.human_readable,
            r.log_file is None && r.rsh is None && r.rsync_path is None,
            !r.daemon && r.address is None && r.port == Some(873u16),
            r.config is None && r.password_file is None,
            !r.dry_run && !r.list_only && !r.size_only && r.timeout is None,
            r.checksum_choice is None,
    {
        Options {
            verbose: 0,
            quiet: false,
            checksum: false,
            archive: false,
            recursive: false,
            relative: false,
            update: false,
            links: false,
            copy_links: false,
            hard_links: false,

            compress: false,
            compress_choice: None,
            whole_file: false,
            inplace: false,
            partial: false,
            partial_dir: None,
            bwlimit: None,

            backup: false,
            backup_dir: None,
            suffix: "~".to_owned(),

            delete: false,
            delete_before: false,
            delete_during: false,
            delete_after: false,
            delete_excluded: false,
            remove_source_files: false,

            exclude: Vec::new(),
            includes: Vec::new(),
            exclude_from: Vec::new(),
            include_from: Vec::new(),
            files_from: None,

            progress: false,
            itemize_changes: false,
            stats: false,
            human_readable: false,
            log_file: None,

            rsh: None,
            rsync_path: None,

            daemon: false,
            address: None,
            port: Some(873),
            config: None,
            password_file: None,

            dry_run: false,
            list_only: false,
            size_only: false,
            timeout: None,

            checksum_choice: None,
        }
    }
}

impl Options {
    /// The verbosity sink implied by `verbose` and `quiet`.
    pub fn verbose_output(&self) -> (r: VerboseOutput)
        ensures
            r.level == self.verbose,
            r.quiet == self.quiet,
    {
        VerboseOutput::new(self.verbose, self.quiet)
    }

    /// Archive mode implies recursion and symlink copying; nothing else
    /// moves.
    pub fn apply_archive_mode(&mut self)
        ensures
            *final(self) == (Options {
                recursive: old(self).archive || old(self).recursive,
                links: old(self).archive || old(self).links,
                ..*old(self)
            }),
    {
        if self.archive {
            self.recursive = true;
            self.links = true;
        }
    }

    /// The warning line printed for an option that has no effect on Windows.
    pub fn warn_unsupported_on_windows(&self, opt: &str) -> (r: String)
        requires
            opt@.len() >= 1,
        ensures
            r@ == "Warning: Option --"@ + opt@ + " (-"@ + opt@.subrange(0, 1)
                + ") is not supported on Windows and will be ignored."@,
    {
        let mut s = String::from_str("Warning: Option --");
        s.append(opt);
        s.append(" (-");
        s.append(opt.substring_char(0, 1));
        s.append(") is not supported on Windows and will be ignored.");
        s
    }
}

} // verus!
