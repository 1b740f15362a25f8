//! Itemized change reporting: one compact line per changed entry, in the
//! classic `>f.st...` shape.

use vstd::prelude::*;
use vstd::string::StringExecFns;
use crate::text::string_push_char;

verus! {

/// What happened to the entry.
#[derive(Debug, Clone, Copy, PartialEq, Eq, Structural)]
pub enum ChangeType {
    Receive,
    Send,
    LocalChange,
    NoUpdate,
    Message,
}

/// The kind of entry being reported.
#[derive(Debug, Clone, Copy, PartialEq, Eq, Structural)]
pub enum FileType {
    File,
    Directory,
    Symlink,
    Device,
    Special,
}

/// One itemized change line.
#[derive(Debug, Clone)]
pub struct ItemizeChange {
    pub update_type: ChangeType,
    pub file_type: FileType,
    pub checksum_diff: bool,
    pub size_diff: bool,
    pub time_diff: bool,
    pub path: String,
}

/// The leading character for each change type.
pub open spec fn change_char(c: ChangeType) -> char {
    match c {
        ChangeType::Receive => '>',
        ChangeType::Send => '<',
        ChangeType::LocalChange => 'c',
        ChangeType::NoUpdate => '.',
        ChangeType::Message => '*',
    }
}

/// The character for each entry kind.
pub open spec fn kind_char(f: FileType) -> char {
    match f {
        FileType::File => 'f',
        FileType::Directory => 'd',
        FileType::Symlink => 'L',
        FileType::Device => 'D',
        FileType::Special => 'S',
    }
}

/// A difference flag: its letter when set, a dot otherwise.
pub open spec fn flag_char(set: bool, letter: char) -> char {
    if set {
        letter
    } else {
        '.'
    }
}

/// The full itemized line for a change.
pub open spec fn itemize_spec(c: ItemizeChange) -> Seq<char> {
    seq![
        change_char(c.update_type),
        kind_char(c.file_type),
        flag_char(c.checksum_diff, 'c'),
        flag_char(c.size_diff, 's'),
        flag_char(c.time_diff, 't'),
        '.', '.', '.', ' ',
    ] + c.path@
}

impl ItemizeChange {
    /// A file that is new at the destination.
    pub fn new_file(path: &str) -> (r: Self)
        ensures
            r.update_type == ChangeType::Receive,
            r.file_type == FileType::File,
            !r.checksum_diff && r.size_diff && r.time_diff,
            r.path@ == path@,
    {
        Self {
            update_type: ChangeType::Receive,
            file_type: FileType::File,
            checksum_diff: false,
            size_diff: true,
            time_diff: true,
            path: path.to_owned(),
        }
    }

    /// A file updated in place at the destination.
    pub fn update_file(path: &str, size_diff: bool, time_diff: bool) -> (r: Self)
        ensures
            r.update_type == ChangeType::Receive,
            r.file_type == FileType::File,
            r.checksum_diff == (size_diff || time_diff),
            r.size_diff == size_diff,
            r.time_diff == time_diff,
            r.path@ == path@,
    {
        Self {
            update_type: ChangeType::Receive,
            file_type: FileType::File,
            checksum_diff: size_diff || time_diff,
            size_diff,
            time_diff,
            path: path.to_owned(),
        }
    }

    /// A directory created at the destination.
    pub fn new_directory(path: &str) -> (r: Self)
        ensures
            r.update_type == ChangeType::LocalChange,
            r.file_type == FileType::Directory,
            !r.checksum_diff && !r.size_diff && !r.time_diff,
            r.path@ == path@,
    {
        Self {
            update_type: ChangeType::LocalChange,
            file_type: FileType::Directory,
            checksum_diff: false,
            size_diff: false,
            time_diff: false,
            path: path.to_owned(),
        }
    }

    /// A destination entry that is being deleted.
    pub fn delete_file(path: &str) -> (r: Self)
        ensures
            r.update_type == ChangeType::Message,
            r.file_type == FileType::File,
            !r.checksum_diff && !r.size_diff && !r.time_diff,
            r.path@ == path@,
    {
        Self {
            update_type: ChangeType::Message,
            file_type: FileType::File,
            checksum_diff: false,
            size_diff: false,
            time_diff: false,
            path: path.to_owned(),
        }
    }

    /// Renders the change as its itemized line.
    pub fn format(&self) -> (r: String)
        ensures
            r@ == itemize_spec(*self),
    {
        let mut s = String::new();
        let update_char = match self.update_type {
            ChangeType::Receive => '>',
            ChangeType::Send => '<',
            ChangeType::LocalChange => 'c',
            ChangeType::NoUpdate => '.',
            ChangeType::Message => '*',
        };
        let file_type_char = match self.file_type {
            FileType::File => 'f',
            FileType::Directory => 'd',
            FileType::Symlink => 'L',
            FileType::Device => 'D',
            FileType::Special => 'S',
        };
        string_push_char(&mut s, update_char);
        string_push_char(&mut s, file_type_char);
        string_push_char(&mut s, if self.checksum_diff { 'c' } else { '.' });
        string_push_char(&mut s, if self.size_diff { 's' } else { '.' });
        string_push_char(&mut s, if self.time_diff { 't' } else { '.' });
        string_push_char(&mut s, '.');
        string_push_char(&mut s, '.');
        string_push_char(&mut s, '.');
        string_push_char(&mut s, ' ');
        s.append(self.path.as_str());
        proof {
            assert(s@ =~= itemize_spec(*self));
        }
        s
    }
}

} // verus!
