//! Views into a mapped segment, checked against its bounds when they are made.

use vstd::prelude::*;
use vstd::slice::{slice_subrange, slice_to_vec};
use crate::bytes::{read_le_at, words_of};
use crate::error::{Corruption, Result, StoreError};

verus! {

/// Whether `len` bytes from `offset` on lie within `size`.
pub open spec fn in_bounds(offset: nat, len: nat, size: nat) -> bool {
    offset + len <= size
}

/// Some bytes of a segment, as they stand there.
pub struct ZeroCopyBuffer<'a> {
    bytes: &'a [u8],
}

impl<'a> View for ZeroCopyBuffer<'a> {
    type V = Seq<u8>;

    closed spec fn view(&self) -> Seq<u8> {
        self.bytes@
    }
}

impl<'a> ZeroCopyBuffer<'a> {
    /// The `len` bytes of `region` from `offset` on.
    pub fn new(region: &'a [u8], offset: usize, len: usize) -> (r: Result<ZeroCopyBuffer<'a>>)
        ensures
            in_bounds(offset as nat, len as nat, region@.len()) ==> r is Ok && r->Ok_0@
                == region@.subrange(offset as int, offset + len),
            !in_bounds(offset as nat, len as nat, region@.len()) ==> r is Err && r->Err_0
                == StoreError::Corrupt(
                Corruption::OutsideSegment { offset, len, size: region@.len() as usize },
            ),
    {
        if offset > region.len() || len > region.len() - offset {
            return Err(
                StoreError::Corrupt(
                    Corruption::OutsideSegment { offset, len, size: region.len() },
                ),
            );
        }
        Ok(ZeroCopyBuffer { bytes: slice_subrange(region, offset, offset + len) })
    }

    pub fn as_bytes(&self) -> (r: &'a [u8])
        ensures
            r@ == self@,
    {
        self.bytes
    }

    pub fn len(&self) -> (r: usize)
        ensures
            r == self@.len(),
    {
        self.bytes.len()
    }

    pub fn is_empty(&self) -> (r: bool)
        ensures
            r == (self@.len() == 0),
    {
        self.bytes.len() == 0
    }

    /// A copy of the bytes.
    pub fn to_owned_slice(&self) -> (r: Vec<u8>)
        ensures
            r@ == self@,
    {
        slice_to_vec(self.bytes)
    }
}

/// A vector of a segment: the bits of its components.
pub struct ZeroCopyVec<'a> {
    bytes: &'a [u8],
    count: usize,
}

impl<'a> View for ZeroCopyVec<'a> {
    type V = Seq<u32>;

    closed spec fn view(&self) -> Seq<u32> {
        words_of(self.bytes@)
    }
}

impl<'a> ZeroCopyVec<'a> {
    /// The bytes hold as many words as counted.
    pub closed spec fn wf(&self) -> bool {
        self.bytes@.len() == 4 * self.count
    }

    /// The `count` components of `region` from `offset` on.
    pub fn new(region: &'a [u8], offset: usize, count: usize) -> (r: Result<ZeroCopyVec<'a>>)
        ensures
            in_bounds(offset as nat, 4 * count as nat, region@.len()) ==> r is Ok
                && r->Ok_0.wf() && r->Ok_0@ == words_of(
                region@.subrange(offset as int, offset + 4 * count),
            ),
            !in_bounds(offset as nat, 4 * count as nat, region@.len()) ==> r is Err && r->Err_0
                == StoreError::Corrupt(
                Corruption::OutsideSegment { offset, len: count, size: region@.len() as usize },
            ),
    {
        if offset > region.len() || count > (region.len() - offset) / 4 {
            return Err(
                StoreError::Corrupt(
                    Corruption::OutsideSegment { offset, len: count, size: region.len() },
                ),
            );
        }
        Ok(
            ZeroCopyVec {
                bytes: slice_subrange(region, offset, offset + 4 * count),
                count,
            },
        )
    }

    /// How many components there are.
    pub fn len(&self) -> (r: usize)
        requires
            self.wf(),
        ensures
            r == self@.len(),
    {
        self.count
    }

    pub fn is_empty(&self) -> (r: bool)
        requires
            self.wf(),
        ensures
            r == (self@.len() == 0),
    {
        self.count == 0
    }

    /// The bits of the components.
    pub fn to_bits(&self) -> (r: Vec<u32>)
        requires
            self.wf(),
        ensures
            r@ == self@,
    {
        let mut out: Vec<u32> = Vec::new();
        let total: usize = self.bytes.len();
        let mut i: usize = 0;
        while i < self.count
            invariant
                self.wf(),
                i <= self.count,
                out@.len() == i,
                self.bytes@.len() == total,
                forall|j: int| 0 <= j < i ==> out@[j] == words_of(self.bytes@)[j],
            decreases self.count - i,
        {
            proof {
                crate::bytes::lemma_le_limits();
            }
            out.push(read_le_at(self.bytes, 4 * i, 4) as u32);
            i = i + 1;
        }
        proof {
            assert(out@ =~= words_of(self.bytes@));
        }
        out
    }
}

/// A range lies within a region exactly where each of its parts does; the whole region does, and
/// no longer one from the same place on.
pub proof fn ranges_lie_within_by_parts(offset: nat, a: nat, b: nat, size: nat)
    ensures
        in_bounds(offset, a + b, size) <==> in_bounds(offset, a, size) && in_bounds(
            offset + a,
            b,
            size,
        ),
        in_bounds(0, size, size),
        !in_bounds(0, size + 1, size),
        offset <= size ==> in_bounds(offset, (size - offset) as nat, size) && !in_bounds(
            offset,
            (size - offset + 1) as nat,
            size,
        ),
{
}

} // verus!
