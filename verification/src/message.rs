//! Out-of-band message kinds carried beside file data.

use vstd::prelude::*;
use crate::file_info::FileInfo;

verus! {

/// The tag of a protocol message.
#[derive(Debug, Clone, Copy, PartialEq, Eq, Structural)]
pub enum MessageTag {
    Data,
    Error,
    Info,
    Warning,
    FileListStart,
    FileListEnd,
    ProtocolVersion,
    FileIndex,
    FileChecksum,
    FileBlock,
    FileUpdated,
    IoTimeout,
    IoError,
    Other,
}

/// A protocol message.
#[derive(Debug, Clone)]
pub enum Message {
    Data(Vec<u8>),
    Error(String),
    Info(String),
    Warning(String),
    FileList(Vec<FileInfo>),
    Done,
}

impl Message {
    /// The tag a message travels under.
    pub fn tag(&self) -> (r: MessageTag)
        ensures
            r == (match self {
                Message::Data(_) => MessageTag::Data,
                Message::Error(_) => MessageTag::Error,
                Message::Info(_) => MessageTag::Info,
                Message::Warning(_) => MessageTag::Warning,
                Message::FileList(_) => MessageTag::FileListStart,
                Message::Done => MessageTag::FileListEnd,
            }),
    {
        match self {
            Message::Data(_) => MessageTag::Data,
            Message::Error(_) => MessageTag::Error,
            Message::Info(_) => MessageTag::Info,
            Message::Warning(_) => MessageTag::Warning,
            Message::FileList(_) => MessageTag::FileListStart,
            Message::Done => MessageTag::FileListEnd,
        }
    }
}

} // verus!
