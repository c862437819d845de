//! Host-owned checkpoint record for one terminal execution. The blob is
//! opaque VT codec output; the kernel does not parse cells.

use vstd::prelude::*;
use crate::kernel::error::Error;

verus! {

/// The only checkpoint format this kernel accepts; any other is refused.
pub const CHECKPOINT_FORMAT_VERSION: u16 = 1;

#[derive(Clone, Debug, PartialEq, Eq)]
pub struct StoredCheckpoint {
    pub format_version: u16,
    pub ending_offset: u64,
    pub hash: u64,
    pub blob: Vec<u8>,
}

/// A checkpoint as a value.
pub struct CheckpointView {
    pub format_version: u16,
    pub ending_offset: u64,
    pub hash: u64,
    pub blob: Seq<u8>,
}

impl View for StoredCheckpoint {
    type V = CheckpointView;

    open spec fn view(&self) -> CheckpointView {
        CheckpointView {
            format_version: self.format_version,
            ending_offset: self.ending_offset,
            hash: self.hash,
            blob: self.blob@,
        }
    }
}

impl StoredCheckpoint {
    /// A checkpoint in the current format.
    pub fn new(ending_offset: u64, hash: u64, blob: Vec<u8>) -> (c: StoredCheckpoint)
        ensures
            c@ == (CheckpointView {
                format_version: CHECKPOINT_FORMAT_VERSION,
                ending_offset,
                hash,
                blob: blob@,
            }),
    {
        StoredCheckpoint { format_version: CHECKPOINT_FORMAT_VERSION, ending_offset, hash, blob }
    }

    /// Refuses any format but `CHECKPOINT_FORMAT_VERSION`.
    pub fn check_compatible(&self) -> (r: Result<(), Error>)
        ensures
            r is Ok <==> self.format_version == CHECKPOINT_FORMAT_VERSION,
            r is Err ==> r == Err::<(), Error>(Error::IncompatibleCheckpoint),
    {
        if self.format_version != CHECKPOINT_FORMAT_VERSION {
            return Err(Error::IncompatibleCheckpoint);
        }
        Ok(())
    }

    /// An independent copy with the same fields.
    pub fn copy(&self) -> (c: StoredCheckpoint)
        ensures
            c@ == self@,
    {
        let mut blob: Vec<u8> = Vec::new();
        blob.extend_from_slice(self.blob.as_slice());
        assert(blob@ =~= self.blob@);
        StoredCheckpoint {
            format_version: self.format_version,
            ending_offset: self.ending_offset,
            hash: self.hash,
            blob,
        }
    }
}

} // verus!
