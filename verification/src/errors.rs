use vstd::prelude::*;

verus! {

/// The failures a ledger operation can report. Every operation surfaces one
/// of these to the caller, which turns it into a message on its error stream.
#[derive(Debug)]
pub enum LedgerError {
    /// The bucket name holds a character outside letters, digits, `_` and `-`.
    InvalidName,
    /// A bucket-scoped operation named a bucket whose file does not exist.
    BucketNotFound { bucket: String },
    /// `init` named a bucket whose file already exists.
    BucketAlreadyExists { bucket: String },
    /// A fail-fast scan met a line that is no well-formed record, or a
    /// timestamp that maps to no calendar moment.
    MalformedRecord,
    /// An underlying filesystem error, carried verbatim.
    IoFailure { message: String },
}

impl LedgerError {
    /// The human-readable message for this error, as the dispatcher prints it.
    pub open spec fn message_seq(&self) -> Seq<char> {
        match self {
            LedgerError::InvalidName => "Bucket name must only contain digits, letters, - or _"@,
            LedgerError::BucketNotFound { bucket } => "Bucket '"@ + bucket@ + "' does not exist"@,
            LedgerError::BucketAlreadyExists { bucket } => "Bucket '"@ + bucket@
                + "' already exists"@,
            LedgerError::MalformedRecord => "Malformed record"@,
            LedgerError::IoFailure { message } => message@,
        }
    }

    pub fn message(&self) -> (r: String)
        ensures
            r@ == self.message_seq(),
    {
        match self {
            LedgerError::InvalidName => String::from_str(
                "Bucket name must only contain digits, letters, - or _",
            ),
            LedgerError::BucketNotFound { bucket } => {
                let mut s = String::from_str("Bucket '");
                s.append(bucket.as_str());
                s.append("' does not exist");
                s
            },
            LedgerError::BucketAlreadyExists { bucket } => {
                let mut s = String::from_str("Bucket '");
                s.append(bucket.as_str());
                s.append("' already exists");
                s
            },
            LedgerError::MalformedRecord => String::from_str("Malformed record"),
            LedgerError::IoFailure { message } => message.clone(),
        }
    }
}

} // verus!
