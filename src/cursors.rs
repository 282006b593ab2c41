//! Write cursors of the buckets during induction, one per byte value: a
//! fixed table of 256 for the byte-specialised builders, an ordered map for
//! the general ones.
use std::collections::BTreeMap;
use vstd::prelude::*;

verus! {

/// A cursor per bucket, keyed by the bucket's byte.
pub trait BucketCursors {
    /// The cursor of the bucket of byte `v`, if there is such a bucket.
    fn cursor(&self, v: u8) -> Option<usize>;

    /// Moves the cursor of the bucket of byte `v` to `h`.
    fn set_cursor(&mut self, v: u8, h: usize);
}

/// A table indexed by byte value.
impl BucketCursors for Vec<usize> {
    fn cursor(&self, v: u8) -> Option<usize> {
        if (v as usize) < self.len() {
            Some(self[v as usize])
        } else {
            None
        }
    }

    fn set_cursor(&mut self, v: u8, h: usize) {
        if (v as usize) < self.len() {
            self.set(v as usize, h);
        }
    }
}

/// An ordered map from byte value.
impl BucketCursors for BTreeMap<u8, usize> {
    fn cursor(&self, v: u8) -> Option<usize> {
        match self.get(&v) {
            Some(h) => Some(*h),
            None => None,
        }
    }

    fn set_cursor(&mut self, v: u8, h: usize) {
        self.insert(v, h);
    }
}

} // verus!
