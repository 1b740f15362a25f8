//! Metadata of one tree entry: a separator-normalised relative path, byte
//! length, modification time in seconds since the Unix epoch, and the entry
//! kind.

use vstd::prelude::*;
use vstd::string::{StrSliceExecFns, StringExecFns};
use crate::text::{dec_digit, dec_str, push_u64_dec, str_eq, u64_to_dec};

verus! {

/// The kind of a tree entry.
#[derive(Debug, Clone, Copy, PartialEq, Eq, Structural)]
pub enum FileType {
    File,
    Directory,
    Symlink,
}

/// Metadata of one entry.
#[derive(Debug, Clone)]
pub struct FileInfo {
    /// The path, with `/` separators.
    pub path: String,
    /// Byte length of the contents.
    pub size: u64,
    /// Modification time, in seconds since the Unix epoch.
    pub mtime: i64,
    /// The entry kind.
    pub file_type: FileType,
    /// Whether the entry itself is a symbolic link.
    pub is_symlink: bool,
    /// Where the link points, for symbolic links.
    pub symlink_target: Option<String>,
}

/// What remains of `path` after stripping the leading component(s) `base`:
/// the whole path for an empty base, the empty suffix when they are equal,
/// and otherwise the part after the base and its separator.
pub open spec fn strip_prefix_spec(path: Seq<char>, base: Seq<char>) -> Option<Seq<char>> {
    if base.len() == 0 {
        Some(path)
    } else if path == base {
        Some(Seq::empty())
    } else if path.len() > base.len() && path.subrange(0, base.len() as int) == base
        && path[base.len() as int] == '/' {
        Some(path.subrange(base.len() as int + 1, path.len() as int))
    } else if base.last() == '/' && path.len() >= base.len()
        && path.subrange(0, base.len() as int) == base {
        Some(path.subrange(base.len() as int, path.len() as int))
    } else {
        None
    }
}

impl FileInfo {
    /// Whether the entry is a directory.
    pub fn is_directory(&self) -> (r: bool)
        ensures
            r == (self.file_type is Directory),
    {
        self.file_type == FileType::Directory
    }

    /// Whether the entry is a regular file.
    pub fn is_file(&self) -> (r: bool)
        ensures
            r == (self.file_type is File),
    {
        self.file_type == FileType::File
    }

    /// The path relative to `base`, when the path lies under it.
    pub fn relative_path(&self, base: &str) -> (r: Option<String>)
        ensures
            match r {
                Some(s) => strip_prefix_spec(self.path@, base@) == Some(s@),
                None => strip_prefix_spec(self.path@, base@) is None,
            },
    {
        let bl = base.unicode_len();
        let pl = self.path.as_str().unicode_len();
        if bl == 0 {
            return Some(self.path.clone());
        }
        if str_eq(self.path.as_str(), base) {
            proof {
                reveal_strlit("");
            }
            return Some(String::from_str(""));
        }
        if pl > bl {
            let head = self.path.as_str().substring_char(0, bl);
            if str_eq(head, base) && self.path.as_str().get_char(bl) == '/' {
                return Some(String::from_str(self.path.as_str().substring_char(bl + 1, pl)));
            }
        }
        if base.get_char(bl - 1) == '/' && pl >= bl {
            let head = self.path.as_str().substring_char(0, bl);
            if str_eq(head, base) {
                return Some(String::from_str(self.path.as_str().substring_char(bl, pl)));
            }
        }
        None
    }

    /// The entry size in human-readable form.
    pub fn human_readable_size(&self) -> (r: String)
        ensures
            r@ == human_readable_spec(self.size as nat),
    {
        human_readable_size(self.size)
    }
}

/// The unit suffix for each binary magnitude.
pub open spec fn hr_unit(k: int) -> Seq<char> {
    if k == 0 {
        seq![' ', 'B']
    } else if k == 1 {
        seq![' ', 'K', 'B']
    } else if k == 2 {
        seq![' ', 'M', 'B']
    } else if k == 3 {
        seq![' ', 'G', 'B']
    } else {
        seq![' ', 'T', 'B']
    }
}

/// The binary magnitude of a byte count, capped at terabytes.
pub open spec fn hr_magnitude(bytes: nat) -> int {
    if bytes >= 0x10000000000 {
        4
    } else if bytes >= 0x40000000 {
        3
    } else if bytes >= 0x100000 {
        2
    } else if bytes >= 1024 {
        1
    } else {
        0
    }
}

/// `1024^k` for the magnitudes in use.
pub open spec fn hr_divisor(k: int) -> int {
    if k <= 1 {
        1024
    } else if k == 2 {
        0x100000
    } else if k == 3 {
        0x40000000
    } else {
        0x10000000000
    }
}

/// A byte count rendered as in `1.50 KB`: two rounded centesimal digits and
/// a unit, or the raw count for fewer than 1024 bytes.
pub open spec fn human_readable_spec(bytes: nat) -> Seq<char> {
    if bytes == 0 {
        seq!['0', ' ', 'B']
    } else if hr_magnitude(bytes) == 0 {
        dec_str(bytes) + hr_unit(0)
    } else {
        let k = hr_magnitude(bytes);
        let d = hr_divisor(k);
        let whole = bytes as int / d;
        let centi = ((bytes as int % d) * 100 + d / 2) / d;
        let w2 = if centi == 100 {
            whole + 1
        } else {
            whole
        };
        let c2 = if centi == 100 {
            0int
        } else {
            centi
        };
        dec_str(w2 as nat) + seq!['.'] + seq![
            dec_digit((c2 / 10) as nat), dec_digit((c2 % 10) as nat)] + hr_unit(k)
    }
}

/// Renders a byte count as in `1.50 KB`.
pub fn human_readable_size(bytes: u64) -> (r: String)
    ensures
        r@ == human_readable_spec(bytes as nat),
{
    proof {
        reveal_strlit("0 B");
        reveal_strlit(" B");
        reveal_strlit(" KB");
        reveal_strlit(" MB");
        reveal_strlit(" GB");
        reveal_strlit(" TB");
        reveal_strlit(".");
        assert("0 B"@ =~= seq!['0', ' ', 'B']);
        assert(" B"@ =~= hr_unit(0));
        assert(" KB"@ =~= hr_unit(1));
        assert(" MB"@ =~= hr_unit(2));
        assert(" GB"@ =~= hr_unit(3));
        assert(" TB"@ =~= hr_unit(4));
        assert("."@ =~= seq!['.']);
    }
    if bytes == 0 {
        return String::from_str("0 B");
    }
    let k: u32 = if bytes >= 0x10000000000 {
        4
    } else if bytes >= 0x40000000 {
        3
    } else if bytes >= 0x100000 {
        2
    } else if bytes >= 1024 {
        1
    } else {
        0
    };
    if k == 0 {
        let mut s = u64_to_dec(bytes);
        s.append(" B");
        return s;
    }
    let d: u64 = if k == 1 {
        1024
    } else if k == 2 {
        0x100000
    } else if k == 3 {
        0x40000000
    } else {
        0x10000000000
    };
    let whole = bytes / d;
    let centi = ((bytes % d) * 100 + d / 2) / d;
    let (w2, c2): (u64, u64) = if centi == 100 {
        (whole + 1, 0)
    } else {
        (whole, centi)
    };
    let mut s = u64_to_dec(w2);
    s.append(".");
    let mut frac = String::new();
    push_u64_dec(&mut frac, c2 / 10);
    push_u64_dec(&mut frac, c2 % 10);
    proof {
        assert(c2 / 10 < 10 && c2 % 10 < 10);
        assert(dec_str((c2 / 10) as nat) =~= seq![dec_digit((c2 / 10) as nat)]);
        assert(dec_str((c2 % 10) as nat) =~= seq![dec_digit((c2 % 10) as nat)]);
    }
    s.append(frac.as_str());
    let unit = if k == 1 {
        " KB"
    } else if k == 2 {
        " MB"
    } else if k == 3 {
        " GB"
    } else {
        " TB"
    };
    s.append(unit);
    s
}

} // verus!
