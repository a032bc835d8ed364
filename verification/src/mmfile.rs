//! `MMFile`: a byte file that is always compact (one contiguous buffer),
//! exposing slice views of its content.
//!
//! Reading operations — size, equality, diff, merge, patch computation —
//! borrow their operands immutably; only true content mutation takes
//! exclusive access.

use vstd::prelude::*;

use crate::hunk::{hunk_views, spec_diff_hunks, HunkV};
use crate::lines::{lines_of, split_lines, views_of};
use crate::render::{diff_chunks, patch_bytes, render_diff_chunks, emit_all, lemma_wf_starts_fit, lemma_diff_chunks_flatten};
use crate::sink::Sink;
use crate::mmblocks::MMBlocks;
use crate::XdiffError;

verus! {

/// The context width of the diffs this library emits.
pub const DIFF_CONTEXT: usize = 3;

/// The hunks of the diff that turns `a` into `b`.
pub open spec fn spec_file_hunks(a: Seq<u8>, b: Seq<u8>) -> Seq<HunkV> {
    spec_diff_hunks(lines_of(a), lines_of(b), DIFF_CONTEXT as int)
}

/// The chunk stream `diff_raw` delivers for the diff that turns `a` into `b`.
pub open spec fn spec_file_diff_chunks(a: Seq<u8>, b: Seq<u8>) -> Seq<Seq<u8>> {
    diff_chunks(spec_file_hunks(a, b))
}

/// The patch text for the diff that turns `a` into `b`.
pub open spec fn spec_file_patch(a: Seq<u8>, b: Seq<u8>) -> Seq<u8> {
    patch_bytes(spec_file_hunks(a, b))
}

/// The diff working table for line counts `n` and `m` is addressable.
pub open spec fn diff_fits(a: Seq<u8>, b: Seq<u8>) -> bool {
    (lines_of(a).len() + 1) * (lines_of(b).len() + 1) <= usize::MAX
}

/// An owned, always-compact byte file. This is the form the diff, merge and
/// patch engines operate on.
#[derive(Debug)]
pub struct MMFile {
    data: Vec<u8>,
}

impl View for MMFile {
    type V = Seq<u8>;

    closed spec fn view(&self) -> Seq<u8> {
        self.data@
    }
}

impl PartialEq for MMFile {
    /// Byte-for-byte content equality.
    fn eq(&self, other: &MMFile) -> (r: bool) {
        let r = self.data == other.data;
        proof {
            if r {
                assert(self.data@ =~= other.data@);
            }
        }
        r
    }
}

impl Eq for MMFile {

}

impl vstd::std_specs::cmp::PartialEqSpecImpl for MMFile {
    open spec fn obeys_eq_spec() -> bool {
        true
    }

    open spec fn eq_spec(&self, other: &MMFile) -> bool {
        self@ == other@
    }
}

impl MMFile {
    /// Create a new empty MMFile.
    pub fn new() -> (r: MMFile)
        ensures
            r@ == Seq::<u8>::empty(),
    {
        MMFile { data: Vec::new() }
    }

    /// Create a new MMFile initialized with `bytes`.
    pub fn from_bytes(bytes: &[u8]) -> (r: MMFile)
        ensures
            r@ == bytes@,
    {
        MMFile { data: vstd::slice::slice_to_vec(bytes) }
    }

    /// Create a new MMFile taking ownership of `bytes`.
    pub fn from_vec(bytes: Vec<u8>) -> (r: MMFile)
        ensures
            r@ == bytes@,
    {
        MMFile { data: bytes }
    }

    /// Get the size of the stored content in bytes.
    pub fn size(&self) -> (r: usize)
        ensures
            r == self@.len(),
    {
        self.data.len()
    }

    /// An MMFile occupies a single buffer by construction, so this is
    /// always true.
    pub fn is_compact(&self) -> (r: bool)
        ensures
            r == true,
    {
        true
    }

    /// Compare the contents of two files for byte-for-byte equality.
    pub fn eq(&self, other: &Self) -> (r: bool)
        ensures
            r == (self@ == other@),
    {
        let r = self.data == other.data;
        proof {
            if r {
                assert(self.data@ =~= other.data@);
            }
        }
        r
    }

    /// Create a deep copy with the same content.
    pub fn clone(&self) -> (r: Self)
        ensures
            r@ == self@,
    {
        MMFile { data: vstd::slice::slice_to_vec(self.data.as_slice()) }
    }

    /// Get a view of the file's content as a slice.
    pub fn as_slice(&self) -> (r: &[u8])
        ensures
            r@ == self@,
    {
        self.data.as_slice()
    }

    /// Get a mutable view of the file's content as a slice.
    pub fn as_slice_mut(&mut self) -> (r: &mut [u8])
        ensures
            r@ == old(self)@,
            final(self)@ == final(r)@,
    {
        self.data.as_mut_slice()
    }

    /// Compute the diff that turns `self` into `other` and stream it to the
    /// sink: per hunk a header chunk, then a tag chunk and a content chunk
    /// for each hunk line. Diffing a file against an equal file delivers
    /// nothing. Stops at once when the sink cancels, with the chunks already
    /// delivered standing; fails with `AllocationFailure` exactly when the
    /// two line counts are so large that the working table cannot be
    /// addressed.
    pub fn diff_raw<S: Sink>(&self, other: &Self, sink: &mut S) -> (r: Result<(), XdiffError>)
        ensures
            r matches Ok(_) ==> final(sink).chunks() == old(sink).chunks() + spec_file_diff_chunks(
                self@,
                other@,
            ),
            (r matches Err(e) && e == XdiffError::AllocationFailure) <==> (self@ != other@
                && !diff_fits(self@, other@)),
            r matches Err(e) ==> e == XdiffError::AllocationFailure || e
                == XdiffError::CallbackAborted,
            r matches Err(e) && e == XdiffError::CallbackAborted ==> exists|k: int|
                0 <= k <= spec_file_diff_chunks(self@, other@).len() && final(sink).chunks() == old(
                    sink,
                ).chunks() + spec_file_diff_chunks(self@, other@).take(k),
            r matches Err(e) && e == XdiffError::AllocationFailure ==> final(sink).chunks() == old(
                sink,
            ).chunks(),
            self@ == other@ ==> r is Ok && final(sink).chunks() == old(sink).chunks(),
    {
        let ghost av = lines_of(self@);
        let ghost bv = lines_of(other@);
        if self.eq(other) {
            proof {
                crate::hunk::lemma_diff_hunks_empty_iff(av, bv, DIFF_CONTEXT as int);
                assert(spec_file_hunks(self@, other@) =~= Seq::<HunkV>::empty());
                assert(spec_file_diff_chunks(self@, other@) =~= Seq::<Seq<u8>>::empty());
                assert(old(sink).chunks() + Seq::<Seq<u8>>::empty() =~= old(sink).chunks());
            }
            return Ok(());
        }
        let la = split_lines(self.as_slice());
        let lb = split_lines(other.as_slice());
        let la_n = la.len();
        let lb_n = lb.len();
        proof {
            assert(views_of(la@) == av);
            assert(views_of(lb@) == bv);
            assert(av.len() == la@.len() == la_n as int);
            assert(bv.len() == lb@.len() == lb_n as int);
        }
        match crate::hunk::diff_hunks(&la, &lb, DIFF_CONTEXT) {
            Err(e) => Err(e),
            Ok(hs) => {
                proof {
                    crate::hunk::lemma_diff_hunks_wf(av, bv, DIFF_CONTEXT as int);
                    lemma_wf_starts_fit(hunk_views(hs@), av, bv, 0, 0);
                    assert forall|i: int|
                        0 <= i < hs@.len() implies crate::render::hunk_starts_fit(
                        #[trigger] hs@[i]@,
                    ) by {
                        assert(hunk_views(hs@)[i] == hs@[i]@);
                    }
                }
                let chunks = render_diff_chunks(&hs);
                let res = emit_all(&chunks, sink);
                proof {
                    assert(views_of(chunks@) == spec_file_diff_chunks(self@, other@));
                }
                res
            },
        }
    }

    /// The same diff stream as [`MMFile::diff_raw`], under the name the
    /// variant for non-panicking consumers carries; every sink here reports
    /// cancellation by its status alone.
    pub fn diff_raw_nopanic<S: Sink>(&self, other: &Self, sink: &mut S) -> (r: Result<
        (),
        XdiffError,
    >)
        ensures
            r matches Ok(_) ==> final(sink).chunks() == old(sink).chunks() + spec_file_diff_chunks(
                self@,
                other@,
            ),
            (r matches Err(e) && e == XdiffError::AllocationFailure) <==> (self@ != other@
                && !diff_fits(self@, other@)),
            r matches Err(e) ==> e == XdiffError::AllocationFailure || e
                == XdiffError::CallbackAborted,
            r matches Err(e) && e == XdiffError::CallbackAborted ==> exists|k: int|
                0 <= k <= spec_file_diff_chunks(self@, other@).len() && final(sink).chunks() == old(
                    sink,
                ).chunks() + spec_file_diff_chunks(self@, other@).take(k),
            self@ == other@ ==> r is Ok && final(sink).chunks() == old(sink).chunks(),
    {
        self.diff_raw(other, sink)
    }

    /// Compute the patch that turns `self` into `other`: the diff stream of
    /// [`MMFile::diff_raw`] written out as one patch text. The patch for a
    /// file and an equal file is empty. Fails with `AllocationFailure`
    /// exactly when the diff working table cannot be addressed.
    pub fn compute_patch(&self, other: &Self) -> (r: Result<MMBlocks, XdiffError>)
        ensures
            r matches Ok(p) ==> p@ == spec_file_patch(self@, other@) && p.wf(),
            r is Ok <==> (self@ == other@ || diff_fits(self@, other@)),
            r matches Err(e) ==> e == XdiffError::AllocationFailure,
    {
        let ghost av = lines_of(self@);
        let ghost bv = lines_of(other@);
        if self.eq(other) {
            proof {
                crate::hunk::lemma_diff_hunks_empty_iff(av, bv, DIFF_CONTEXT as int);
                assert(spec_file_hunks(self@, other@) =~= Seq::<HunkV>::empty());
                assert(spec_file_patch(self@, other@) =~= Seq::<u8>::empty());
            }
            return Ok(MMBlocks::new());
        }
        let la = split_lines(self.as_slice());
        let lb = split_lines(other.as_slice());
        let la_n = la.len();
        let lb_n = lb.len();
        proof {
            assert(views_of(la@) == av);
            assert(views_of(lb@) == bv);
            assert(av.len() == la@.len() == la_n as int);
            assert(bv.len() == lb@.len() == lb_n as int);
        }
        match crate::hunk::diff_hunks(&la, &lb, DIFF_CONTEXT) {
            Err(e) => Err(e),
            Ok(hs) => {
                proof {
                    crate::hunk::lemma_diff_hunks_wf(av, bv, DIFF_CONTEXT as int);
                    lemma_wf_starts_fit(hunk_views(hs@), av, bv, 0, 0);
                    assert forall|i: int|
                        0 <= i < hs@.len() implies crate::render::hunk_starts_fit(
                        #[trigger] hs@[i]@,
                    ) by {
                        assert(hunk_views(hs@)[i] == hs@[i]@);
                    }
                }
                let chunks = render_diff_chunks(&hs);
                let bytes = crate::lines::join_bytes(&chunks);
                proof {
                    lemma_diff_chunks_flatten(hunk_views(hs@));
                }
                Ok(MMBlocks::from_vec(bytes))
            },
        }
    }

    /// Apply a patch to this file. Hunks are applied in order where their
    /// context and deletion lines match the file's content; the patched file
    /// carries the successful hunks' results together with everything the
    /// patch left untouched. If every hunk matched the result is `Ok`;
    /// otherwise `Err` carries the patched file alongside a file holding the
    /// rejected hunks as patch text. A patch that does not follow the
    /// grammar is rejected whole, before any hunk is attempted: the patched
    /// side is empty and the rejected side is the entire patch.
    pub fn apply_patch(&self, patch: &MMBlocks) -> (r: Result<MMFile, (MMFile, MMFile)>)
        ensures
            crate::patch::parse_patch(patch@) is None ==> (r matches Err(t) && t.0@ == Seq::<
                u8,
            >::empty() && t.1@ == patch@),
            crate::patch::parse_patch(patch@) matches Some(hs) ==> {
                let applied = crate::patch::spec_apply(hs, lines_of(self@));
                &&& (applied.1.len() == 0 ==> (r matches Ok(f) && f@ == applied.0.flatten()))
                &&& (applied.1.len() > 0 ==> (r matches Err(t) && t.0@ == applied.0.flatten()
                    && t.1@ == patch_bytes(applied.1)))
            },
    {
        let pbytes = patch.compact_bytes();
        let pls = split_lines(pbytes.as_slice());
        proof {
            assert(views_of(pls@) == lines_of(patch@));
        }
        match crate::patch::parse_patch_exec(&pls) {
            None => Err((MMFile::new(), MMFile::from_vec(pbytes))),
            Some(hs) => {
                let la = split_lines(self.as_slice());
                let applied = crate::patch::apply_exec(&hs, &la);
                let (outl, rej) = applied;
                let patched = MMFile::from_vec(crate::lines::join_bytes(&outl));
                if rej.len() == 0 {
                    proof {
                        assert(hunk_views(rej@) =~= Seq::<HunkV>::empty());
                    }
                    Ok(patched)
                } else {
                    let rchunks = render_diff_chunks(&rej);
                    let rbytes = crate::lines::join_bytes(&rchunks);
                    proof {
                        lemma_diff_chunks_flatten(hunk_views(rej@));
                        assert(hunk_views(rej@).len() == rej@.len());
                    }
                    Err((patched, MMFile::from_vec(rbytes)))
                }
            },
        }
    }

    /// Compute the file that results from merging two sets of changes to the
    /// base file. The merged content is streamed line by line to
    /// `accept`; conflicting regions keep `f1`'s content there, while `f2`'s
    /// divergence is streamed to `reject` as patch-grammar hunks (header,
    /// then one chunk per tagged line). Stops at once when a sink cancels;
    /// fails with `AllocationFailure` exactly when either underlying diff
    /// cannot address its working table.
    pub fn merge3_raw<SA: Sink, SR: Sink>(
        base: &Self,
        f1: &Self,
        f2: &Self,
        accept: &mut SA,
        reject: &mut SR,
    ) -> (r: Result<(), XdiffError>)
        ensures
            r matches Ok(_) ==> final(accept).chunks() == old(accept).chunks()
                + crate::merge::spec_merge(
                lines_of(base@),
                lines_of(f1@),
                lines_of(f2@),
                DIFF_CONTEXT as int,
            ).0 && final(reject).chunks() == old(reject).chunks() + crate::merge::reject_chunks(
                crate::merge::spec_merge(
                    lines_of(base@),
                    lines_of(f1@),
                    lines_of(f2@),
                    DIFF_CONTEXT as int,
                ).1,
            ),
            (r matches Err(e) && e == XdiffError::AllocationFailure) <==> !(diff_fits(base@, f1@)
                && diff_fits(base@, f2@)),
            r matches Err(e) && e == XdiffError::AllocationFailure ==> final(accept).chunks()
                == old(accept).chunks() && final(reject).chunks() == old(reject).chunks(),
            r matches Err(e) ==> e == XdiffError::AllocationFailure || e
                == XdiffError::CallbackAborted,
            r matches Err(e) && e == XdiffError::CallbackAborted ==> (exists|k: int|
                0 <= k <= crate::merge::spec_merge(
                    lines_of(base@),
                    lines_of(f1@),
                    lines_of(f2@),
                    DIFF_CONTEXT as int,
                ).0.len() && final(accept).chunks() == old(accept).chunks()
                    + crate::merge::spec_merge(
                    lines_of(base@),
                    lines_of(f1@),
                    lines_of(f2@),
                    DIFF_CONTEXT as int,
                ).0.take(k)) && (exists|k: int|
                0 <= k <= crate::merge::reject_chunks(
                    crate::merge::spec_merge(
                        lines_of(base@),
                        lines_of(f1@),
                        lines_of(f2@),
                        DIFF_CONTEXT as int,
                    ).1,
                ).len() && final(reject).chunks() == old(reject).chunks()
                    + crate::merge::reject_chunks(
                    crate::merge::spec_merge(
                        lines_of(base@),
                        lines_of(f1@),
                        lines_of(f2@),
                        DIFF_CONTEXT as int,
                    ).1,
                ).take(k)),
            (diff_fits(base@, f1@) && diff_fits(base@, f2@) && crate::merge::spec_merge(
                lines_of(base@),
                lines_of(f1@),
                lines_of(f2@),
                DIFF_CONTEXT as int,
            ).0.len() == 0 && crate::merge::spec_merge(
                lines_of(base@),
                lines_of(f1@),
                lines_of(f2@),
                DIFF_CONTEXT as int,
            ).1.len() == 0) ==> (r is Ok && final(accept).chunks() == old(accept).chunks()
                && final(reject).chunks() == old(reject).chunks()),
    {
        let lb = split_lines(base.as_slice());
        let l1 = split_lines(f1.as_slice());
        let l2 = split_lines(f2.as_slice());
        let ghost bv = lines_of(base@);
        let ghost d1v = lines_of(f1@);
        let ghost d2v = lines_of(f2@);
        proof {
            assert(views_of(lb@) == bv);
            assert(views_of(l1@) == d1v);
            assert(views_of(l2@) == d2v);
            assert(bv.len() == lb@.len());
            assert(d1v.len() == l1@.len());
            assert(d2v.len() == l2@.len());
        }
        let merged = match crate::merge::merge_groups(&lb, &l1, &l2, DIFF_CONTEXT) {
            Ok(p) => p,
            Err(e) => {
                return Err(e);
            },
        };
        let (accl, rejh) = merged;
        let ghost mspec = crate::merge::spec_merge(bv, d1v, d2v, DIFF_CONTEXT as int);
        match emit_all(&accl, accept) {
            Ok(_) => {},
            Err(e) => {
                proof {
                    assert(crate::merge::reject_chunks(mspec.1).take(0) =~= Seq::<
                        Seq<u8>,
                    >::empty());
                    assert(old(reject).chunks() + crate::merge::reject_chunks(mspec.1).take(0)
                        =~= old(reject).chunks());
                    // a consumer is never consulted when there is nothing to deliver
                    assert(views_of(accl@).len() == accl@.len());
                    assert(mspec.0.len() == 0 ==> accl@.len() == 0);
                }
                return Err(e);
            },
        }
        let rchunks = crate::merge::render_reject_chunks(&rejh);
        match emit_all(&rchunks, reject) {
            Ok(_) => Ok(()),
            Err(e) => {
                proof {
                    assert(mspec.0.take(mspec.0.len() as int) =~= mspec.0);
                }
                Err(e)
            },
        }
    }
}

} // verus!
