//! The header that opens a persisted database.

use crate::config::DistanceMetric;
use crate::error::{decimal, decimal_text, KhadyotaError};
use vstd::prelude::*;
use vstd::string::*;

verus! {

/// The four bytes that open a file: the letters K, H, D, Y.
pub const MAGIC: [u8; 4] = [0x4b, 0x48, 0x44, 0x59];

/// The one version of the format.
pub const VERSION: u32 = 1;

/// The fixed part of a persisted database.
#[derive(Debug)]
pub struct FileHeader {
    pub magic: [u8; 4],
    pub version: u32,
    pub dimensions: u32,
    pub vector_count: u64,
    pub metric: DistanceMetric,
}

impl FileHeader {
    /// Whether the header opens with the magic bytes.
    pub open spec fn has_magic(&self) -> bool {
        &&& self.magic[0] == 0x4b
        &&& self.magic[1] == 0x48
        &&& self.magic[2] == 0x44
        &&& self.magic[3] == 0x59
    }

    /// What the rejection of this header says.
    pub open spec fn rejection_text(&self) -> Seq<char> {
        if !self.has_magic() {
            "Invalid magic bytes"@
        } else {
            "Unsupported version: "@ + decimal_text(self.version as nat)
        }
    }

    /// A header of the current version for a database of this shape. The
    /// dimension is kept in 32 bits and the count in 64.
    pub fn new(dimensions: usize, vector_count: usize, metric: DistanceMetric) -> (header:
        FileHeader)
        ensures
            header.has_magic(),
            header.version == VERSION,
            header.dimensions == dimensions as u32,
            dimensions <= u32::MAX ==> header.dimensions == dimensions,
            header.vector_count == vector_count,
            header.metric == metric,
    {
        FileHeader {
            magic: MAGIC,
            version: VERSION,
            dimensions: dimensions as u32,
            vector_count: vector_count as u64,
            metric,
        }
    }

    /// Accepts a header with the magic bytes and the current version; any
    /// other is rejected as `SerializationError`, wrong magic bytes before a
    /// wrong version.
    pub fn validate(&self) -> (r: Result<(), KhadyotaError>)
        ensures
            r is Ok <==> self.has_magic() && self.version == VERSION,
            r matches Err(e) ==> e matches KhadyotaError::SerializationError(m) && m@
                == self.rejection_text(),
    {
        if self.magic[0] != 0x4b || self.magic[1] != 0x48 || self.magic[2] != 0x44 || self.magic[3]
            != 0x59 {
            return Err(
                KhadyotaError::SerializationError(String::from_str("Invalid magic bytes")),
            );
        }
        if self.version != VERSION {
            let mut m = String::from_str("Unsupported version: ");
            let v = decimal(self.version as u64);
            m.append(v.as_str());
            return Err(KhadyotaError::SerializationError(m));
        }
        Ok(())
    }
}

} // verus!
