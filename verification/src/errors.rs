use vstd::prelude::*;

verus! {

/// The closed error taxonomy: one kind per distinguishable failure. `Unknown`
/// is reserved for codes outside the enumerated set and is never a stand-in
/// for `NotFound`.
#[derive(Clone, Copy, Debug, PartialEq, Eq, Structural)]
pub enum ErrorKind {
    NotFound,
    AccessDenied,
    InvalidHandle,
    OutOfMemory,
    NotSupported,
    InvalidParameter,
    NegativeSeek,
    DiskFull,
    AlreadyExists,
    InsufficientBuffer,
    BadFormat,
    NoMoreFiles,
    EndOfFile,
    CanNotComplete,
    FileCorrupt,
    CodecFailure,
    Unknown,
}

impl ErrorKind {
    /// The human-readable message of this kind.
    pub open spec fn describe_spec(self) -> Seq<char> {
        match self {
            ErrorKind::NotFound => "File not found"@,
            ErrorKind::AccessDenied => "Access denied"@,
            ErrorKind::InvalidHandle => "Invalid handle"@,
            ErrorKind::OutOfMemory => "Not enough memory"@,
            ErrorKind::NotSupported => "Not supported"@,
            ErrorKind::InvalidParameter => "Invalid parameter"@,
            ErrorKind::NegativeSeek => "Negative seek"@,
            ErrorKind::DiskFull => "Disk full"@,
            ErrorKind::AlreadyExists => "Already exists"@,
            ErrorKind::InsufficientBuffer => "Insufficient buffer"@,
            ErrorKind::BadFormat => "Bad format"@,
            ErrorKind::NoMoreFiles => "No more files"@,
            ErrorKind::EndOfFile => "Handle EOF"@,
            ErrorKind::CanNotComplete => "Can not complete"@,
            ErrorKind::FileCorrupt => "File corrupt"@,
            ErrorKind::CodecFailure => "Codec failure"@,
            ErrorKind::Unknown => "Unknown error"@,
        }
    }

    /// Render the error kind as its message string.
    pub fn describe(&self) -> (r: String)
        ensures
            r@ == self.describe_spec(),
    {
        match self {
            ErrorKind::NotFound => "File not found".to_owned(),
            ErrorKind::AccessDenied => "Access denied".to_owned(),
            ErrorKind::InvalidHandle => "Invalid handle".to_owned(),
            ErrorKind::OutOfMemory => "Not enough memory".to_owned(),
            ErrorKind::NotSupported => "Not supported".to_owned(),
            ErrorKind::InvalidParameter => "Invalid parameter".to_owned(),
            ErrorKind::NegativeSeek => "Negative seek".to_owned(),
            ErrorKind::DiskFull => "Disk full".to_owned(),
            ErrorKind::AlreadyExists => "Already exists".to_owned(),
            ErrorKind::InsufficientBuffer => "Insufficient buffer".to_owned(),
            ErrorKind::BadFormat => "Bad format".to_owned(),
            ErrorKind::NoMoreFiles => "No more files".to_owned(),
            ErrorKind::EndOfFile => "Handle EOF".to_owned(),
            ErrorKind::CanNotComplete => "Can not complete".to_owned(),
            ErrorKind::FileCorrupt => "File corrupt".to_owned(),
            ErrorKind::CodecFailure => "Codec failure".to_owned(),
            ErrorKind::Unknown => "Unknown error".to_owned(),
        }
    }
}

} // verus!
