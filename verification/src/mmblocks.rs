//! `MMBlocks`: an append-friendly byte container made of owned segments.
//!
//! Writes append whole segments; compaction copies everything into a single
//! segment on demand. The cached total size always equals the sum of the
//! segment lengths.

use vstd::prelude::*;

use crate::lines::{join_bytes, views_of};
use crate::mmfile::MMFile;

verus! {

/// A byte file stored as an ordered sequence of owned segments, with a
/// cached total size. Compactness (at most one segment) is not an invariant;
/// see [`MMFile`] for the always-compact form.
#[derive(Debug)]
pub struct MMBlocks {
    segs: Vec<Vec<u8>>,
    total: usize,
}

impl View for MMBlocks {
    type V = Seq<u8>;

    /// The content is the concatenation of the segments.
    closed spec fn view(&self) -> Seq<u8> {
        views_of(self.segs@).flatten()
    }
}

impl MMBlocks {
    /// The cached total equals the content length.
    pub closed spec fn wf(&self) -> bool {
        self.total == self@.len()
    }

    /// At most one segment backs the content.
    pub closed spec fn spec_is_compact(&self) -> bool {
        self.segs@.len() <= 1
    }

    /// Initialize an empty MMBlocks.
    pub fn new() -> (r: Self)
        ensures
            r@ == Seq::<u8>::empty(),
            r.wf(),
            r.spec_is_compact(),
    {
        let r = MMBlocks { segs: Vec::new(), total: 0 };
        proof {
            assert(views_of(r.segs@).flatten() =~= Seq::<u8>::empty());
        }
        r
    }

    /// Create a new MMBlocks holding `bytes` as one segment.
    pub fn from_bytes(bytes: &[u8]) -> (r: Self)
        ensures
            r@ == bytes@,
            r.wf(),
            r.spec_is_compact(),
    {
        Self::from_vec(vstd::slice::slice_to_vec(bytes))
    }

    /// Create a new MMBlocks taking ownership of `bytes` as one segment.
    pub fn from_vec(bytes: Vec<u8>) -> (r: Self)
        ensures
            r@ == bytes@,
            r.wf(),
            r.spec_is_compact(),
    {
        let total = bytes.len();
        let mut segs: Vec<Vec<u8>> = Vec::new();
        segs.push(bytes);
        let r = MMBlocks { segs, total };
        proof {
            let vs = views_of(r.segs@);
            assert(vs.drop_first() =~= Seq::<Seq<u8>>::empty());
            assert(Seq::<Seq<u8>>::empty().flatten() =~= Seq::<u8>::empty());
            assert(vs.flatten() == vs.first() + vs.drop_first().flatten());
            assert(vs.flatten() =~= vs.first());
        }
        r
    }

    /// Checks if the entire content is backed by a single segment.
    pub fn is_compact(&self) -> (r: bool)
        ensures
            r == self.spec_is_compact(),
    {
        self.segs.len() <= 1
    }

    /// Get the size of the stored content in bytes.
    pub fn size(&self) -> (r: usize)
        requires
            self.wf(),
        ensures
            r == self@.len(),
    {
        self.total
    }

    /// The content as one freshly allocated byte vector, read across
    /// segment boundaries.
    pub fn compact_bytes(&self) -> (r: Vec<u8>)
        ensures
            r@ == self@,
    {
        join_bytes(&self.segs)
    }

    /// Ensure this file is compact; copies all segments into one if it is not.
    /// The byte content is unchanged either way.
    pub fn to_compact(&mut self)
        requires
            old(self).wf(),
        ensures
            final(self)@ == old(self)@,
            final(self).wf(),
            final(self).spec_is_compact(),
    {
        if self.segs.len() <= 1 {
            return;
        }
        let combined = join_bytes(&self.segs);
        *self = Self::from_vec(combined);
    }

    /// Write a buffer of content to the end of this file, as a new segment.
    /// Returns 0 on success, -1 when the grown size cannot be addressed.
    pub fn write_buf(&mut self, buf: &[u8]) -> (r: i32)
        requires
            old(self).wf(),
        ensures
            final(self).wf(),
            r == 0 || r == -1,
            (r == 0) <==> old(self)@.len() + buf@.len() <= usize::MAX,
            r == 0 ==> final(self)@ == old(self)@ + buf@,
            r == -1 ==> final(self)@ == old(self)@,
    {
        match self.total.checked_add(buf.len()) {
            Some(t) => {
                let ghost pre = views_of(self.segs@);
                let seg = vstd::slice::slice_to_vec(buf);
                let mut segs: Vec<Vec<u8>> = Vec::new();
                core::mem::swap(&mut segs, &mut self.segs);
                segs.push(seg);
                proof {
                    assert(views_of(segs@) =~= pre.push(buf@));
                    pre.lemma_flatten_push(buf@);
                }
                *self = MMBlocks { segs, total: t };
                0
            },
            None => -1,
        }
    }

    /// Create a deep, compact copy; the original is unchanged.
    pub fn clone(&self) -> (r: Self)
        ensures
            r@ == self@,
            r.wf(),
            r.spec_is_compact(),
    {
        Self::from_vec(self.compact_bytes())
    }

    /// Convert this possibly-non-compact file into an always-compact MMFile.
    pub fn to_mmfile(self) -> (r: MMFile)
        ensures
            r@ == self@,
    {
        MMFile::from_vec(join_bytes(&self.segs))
    }

    /// Compare the contents of two files for byte-for-byte equality,
    /// regardless of either operand's segment layout.
    pub fn eq(&self, other: &Self) -> (r: bool)
        ensures
            r == (self@ == other@),
    {
        let a = self.compact_bytes();
        let b = other.compact_bytes();
        let r = a == b;
        proof {
            if r {
                assert(a@ =~= b@);
            }
        }
        r
    }
}

} // verus!
