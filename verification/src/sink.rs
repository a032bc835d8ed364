//! Consumers of streamed engine output.
//!
//! The diff, merge and patch engines deliver their output synchronously,
//! chunk by chunk, to a [`Sink`] supplied by the caller. A sink signals
//! cancellation by returning a negative status; the engine then stops at
//! once and surfaces [`crate::XdiffError::CallbackAborted`], leaving the
//! chunks already delivered in place.

use vstd::prelude::*;

use crate::lines::views_of;

verus! {

/// A consumer of streamed output chunks.
pub trait Sink {
    /// The chunks accepted so far, oldest first.
    spec fn chunks(&self) -> Seq<Seq<u8>>;

    /// Accept one chunk. A result of 0 accepts the chunk; any other result
    /// declines it and asks the producer to stop.
    fn emit(&mut self, chunk: &[u8]) -> (r: i32)
        ensures
            r == 0 ==> final(self).chunks() == old(self).chunks().push(chunk@),
            r != 0 ==> final(self).chunks() == old(self).chunks(),
    ;
}

/// A sink that accepts every chunk into a vector.
pub struct VecSink {
    /// The collected chunks, oldest first.
    pub chunks: Vec<Vec<u8>>,
}

impl VecSink {
    /// An empty collector.
    pub fn new() -> (r: VecSink)
        ensures
            r.chunks() == Seq::<Seq<u8>>::empty(),
    {
        let r = VecSink { chunks: Vec::new() };
        proof {
            assert(views_of(r.chunks@) =~= Seq::<Seq<u8>>::empty());
        }
        r
    }
}

impl Sink for VecSink {
    open spec fn chunks(&self) -> Seq<Seq<u8>> {
        views_of(self.chunks@)
    }

    fn emit(&mut self, chunk: &[u8]) -> (r: i32)
        ensures
            r == 0,
    {
        let ghost pre = views_of(self.chunks@);
        self.chunks.push(vstd::slice::slice_to_vec(chunk));
        proof {
            assert(views_of(self.chunks@) =~= pre.push(chunk@));
        }
        0
    }
}

/// A sink that accepts at most a fixed number of chunks, then cancels.
pub struct BoundedSink {
    /// The collected chunks, oldest first.
    pub chunks: Vec<Vec<u8>>,
    /// How many chunks are accepted before the sink declines.
    pub limit: usize,
}

impl BoundedSink {
    /// An empty collector that cancels after accepting `limit` chunks.
    pub fn new(limit: usize) -> (r: BoundedSink)
        ensures
            r.chunks() == Seq::<Seq<u8>>::empty(),
            r.limit == limit,
    {
        let r = BoundedSink { chunks: Vec::new(), limit };
        proof {
            assert(views_of(r.chunks@) =~= Seq::<Seq<u8>>::empty());
        }
        r
    }
}

impl Sink for BoundedSink {
    open spec fn chunks(&self) -> Seq<Seq<u8>> {
        views_of(self.chunks@)
    }

    fn emit(&mut self, chunk: &[u8]) -> (r: i32)
        ensures
            (r == 0) <==> old(self).chunks().len() < old(self).limit,
            final(self).limit == old(self).limit,
    {
        if self.chunks.len() < self.limit {
            let ghost pre = views_of(self.chunks@);
            self.chunks.push(vstd::slice::slice_to_vec(chunk));
            proof {
                assert(views_of(self.chunks@) =~= pre.push(chunk@));
            }
            0
        } else {
            -1
        }
    }
}

} // verus!
