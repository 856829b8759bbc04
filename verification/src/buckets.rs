use vstd::prelude::*;
use crate::errors::LedgerError;

verus! {

/// A character a bucket name may hold: an ASCII letter, a digit, `_` or `-`.
pub open spec fn is_name_char(c: char) -> bool {
    ('a' as u32 <= c as u32 && c as u32 <= 'z' as u32) || ('A' as u32 <= c as u32 && c as u32
        <= 'Z' as u32) || ('0' as u32 <= c as u32 && c as u32 <= '9' as u32) || c == '_' || c == '-'
}

/// A valid bucket name is non-empty and made of name characters only.
pub open spec fn valid_name(s: Seq<char>) -> bool {
    s.len() > 0 && forall|i: int| 0 <= i < s.len() ==> is_name_char(#[trigger] s[i])
}

/// Decides whether `name` may serve as a bucket name.
pub fn is_valid_bucket_name(name: &str) -> (r: bool)
    ensures
        r == valid_name(name@),
{
    let n = name.unicode_len();
    if n == 0 {
        return false;
    }
    let mut i: usize = 0;
    while i < n
        invariant
            n == name@.len(),
            0 <= i <= n,
            forall|j: int| 0 <= j < i ==> is_name_char(#[trigger] name@[j]),
        decreases n - i,
    {
        let c = name.get_char(i);
        let u = c as u32;
        let ok = ('a' as u32 <= u && u <= 'z' as u32) || ('A' as u32 <= u && u <= 'Z' as u32) || (
        '0' as u32 <= u && u <= '9' as u32) || c == '_' || c == '-';
        if !ok {
            return false;
        }
        i = i + 1;
    }
    true
}

/// The file a bucket is stored in: `<data_dir>/<bucket>.jsonl`.
pub open spec fn bucket_path_seq(data_dir: Seq<char>, bucket: Seq<char>) -> Seq<char> {
    data_dir + "/"@ + bucket + ".jsonl"@
}

/// Computes the path of a bucket's file under the data directory.
pub fn get_bucket_path(data_dir: &str, bucket: &str) -> (r: String)
    ensures
        r@ == bucket_path_seq(data_dir@, bucket@),
{
    let mut s = String::from_str(data_dir);
    s.append("/");
    s.append(bucket);
    s.append(".jsonl");
    s
}

/// Decides whether a bucket-scoped operation may go ahead, given whether the
/// bucket's file exists: a missing bucket is `BucketNotFound`.
pub fn ensure_bucket_exists(bucket: &str, file_exists: bool) -> (r: Result<(), LedgerError>)
    ensures
        file_exists ==> r is Ok,
        !file_exists ==> (r matches Err(e) && e matches LedgerError::BucketNotFound {
            bucket: b,
        } && b@ == bucket@),
{
    if file_exists {
        Ok(())
    } else {
        Err(LedgerError::BucketNotFound { bucket: String::from_str(bucket) })
    }
}

/// Decides whether `init` may create the bucket, given whether its file
/// already exists: an invalid name is `InvalidName`, an existing file is
/// `BucketAlreadyExists`; otherwise the caller may create the empty file.
pub fn init_check(bucket: &str, file_exists: bool) -> (r: Result<(), LedgerError>)
    ensures
        !valid_name(bucket@) ==> (r matches Err(e) && e is InvalidName),
        valid_name(bucket@) && file_exists ==> (r matches Err(e)
            && e matches LedgerError::BucketAlreadyExists { bucket: b } && b@ == bucket@),
        valid_name(bucket@) && !file_exists ==> r is Ok,
{
    if !is_valid_bucket_name(bucket) {
        return Err(LedgerError::InvalidName);
    }
    if file_exists {
        return Err(LedgerError::BucketAlreadyExists { bucket: String::from_str(bucket) });
    }
    Ok(())
}

} // verus!
