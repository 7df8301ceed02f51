//! A raw vector file read in place, vector by vector.

use crate::error::KhadyotaError;
use crate::storage::serialization::{
    file_count, file_dimension, file_vector, is_complete, read_header, read_vector, Serializer,
};
use vstd::prelude::*;
use vstd::string::*;

verus! {

/// A view of the bytes of a raw vector file, such as a memory map gives.
pub struct MmapVectors<'a> {
    data: &'a [u8],
    dimensions: usize,
    count: usize,
}

impl<'a> MmapVectors<'a> {
    /// The bytes that are viewed.
    pub closed spec fn bytes(&self) -> Seq<u8> {
        self.data@
    }

    /// The bytes are a complete file, and the count and the dimension are
    /// those of its header.
    pub closed spec fn well_formed(&self) -> bool {
        &&& is_complete(self.data@)
        &&& self.count == file_count(self.data@)
        &&& self.dimensions == file_dimension(self.data@)
    }

    /// Views the bytes of a file. Bytes that are no complete file are
    /// rejected as `SerializationError`.
    pub fn open(data: &'a [u8]) -> (r: Result<MmapVectors<'a>, KhadyotaError>)
        ensures
            r is Ok <==> is_complete(data@),
            r matches Ok(view) ==> view.well_formed() && view.bytes() == data@,
            r matches Err(e) ==> e matches KhadyotaError::SerializationError(m) && m@
                == Serializer::rejection_text(),
    {
        match read_header(data) {
            None => Err(
                KhadyotaError::SerializationError(
                    String::from_str("Unexpected end of vector data"),
                ),
            ),
            Some((count, dimensions)) => Ok(MmapVectors { data, dimensions, count }),
        }
    }

    /// Vector `index` of the file, or nothing where the file holds fewer.
    pub fn get(&self, index: usize) -> (vector: Option<Vec<u32>>)
        requires
            self.well_formed(),
        ensures
            vector is Some <==> index < file_count(self.bytes()),
            vector matches Some(v) ==> v@ == file_vector(self.bytes(), index as int),
    {
        if index >= self.count {
            return None;
        }
        assert((index + 1) * self.dimensions * 4 <= self.count * self.dimensions * 4)
            by (nonlinear_arith)
            requires
                index < self.count,
        ;
        Some(read_vector(self.data, self.dimensions, index))
    }

    /// How many vectors the file holds.
    pub fn len(&self) -> (n: usize)
        requires
            self.well_formed(),
        ensures
            n == file_count(self.bytes()),
    {
        self.count
    }

    /// Whether the file holds no vector.
    pub fn is_empty(&self) -> (b: bool)
        requires
            self.well_formed(),
        ensures
            b <==> file_count(self.bytes()) == 0,
    {
        self.count == 0
    }

    /// The length of every vector of the file.
    pub fn dimensions(&self) -> (n: usize)
        requires
            self.well_formed(),
        ensures
            n == file_dimension(self.bytes()),
    {
        self.dimensions
    }
}

} // verus!
