//! Rendering hunks into the textual patch grammar.
//!
//! Header: `@@ -<old_start>,<old_len> +<new_start>,<new_len> @@\n` with
//! 1-based starts (a start stays 0-based when its length is zero). Each hunk
//! line follows as its tag byte (space, `-` or `+`) and its content. The raw
//! diff stream hands tag and content to the consumer as separate chunks; a
//! patch file is the same chunks concatenated.

use vstd::prelude::*;

use crate::hunk::{hunk_views, line_views, Hunk, HunkLine, HunkV, LineV};
use crate::lines::views_of;
use crate::sink::Sink;
use crate::XdiffError;

verus! {

/// Decimal digits of `n`, most significant first.
pub open spec fn dec_rep(n: int) -> Seq<u8>
    decreases n,
    when n >= 0
{
    if n < 10 {
        seq![(48 + n) as u8]
    } else {
        dec_rep(n / 10).push((48 + n % 10) as u8)
    }
}

pub proof fn lemma_dec_rep_digits(n: int)
    requires
        n >= 0,
    ensures
        dec_rep(n).len() >= 1,
        forall|i: int| 0 <= i < dec_rep(n).len() ==> 48 <= #[trigger] dec_rep(n)[i] <= 57,
    decreases n,
{
    if n >= 10 {
        lemma_dec_rep_digits(n / 10);
    }
}

/// Appends the decimal digits of `n`.
pub fn push_dec(out: &mut Vec<u8>, n: usize)
    ensures
        final(out)@ == old(out)@ + dec_rep(n as int),
    decreases n,
{
    if n < 10 {
        out.push((48 + n as u8));
        proof {
            assert(out@ =~= old(out)@ + dec_rep(n as int));
        }
    } else {
        push_dec(out, n / 10);
        out.push(48 + (n % 10) as u8);
        proof {
            assert(out@ =~= old(out)@ + dec_rep(n as int));
        }
    }
}

/// The 1-based display start of the old range (0 when the range is empty).
pub open spec fn old_disp(h: HunkV) -> int {
    if h.old_len > 0 {
        h.old_start + 1
    } else {
        h.old_start
    }
}

/// The 1-based display start of the new range (0 when the range is empty).
pub open spec fn new_disp(h: HunkV) -> int {
    if h.new_len > 0 {
        h.new_start + 1
    } else {
        h.new_start
    }
}

/// The header line of a hunk.
pub open spec fn header_of(h: HunkV) -> Seq<u8> {
    seq![64u8, 64u8, 32u8, 45u8] + dec_rep(old_disp(h)) + seq![44u8] + dec_rep(h.old_len) + seq![
        32u8,
        43u8,
    ] + dec_rep(new_disp(h)) + seq![44u8] + dec_rep(h.new_len) + seq![32u8, 64u8, 64u8, 10u8]
}

/// The tag byte of a hunk line: space, `-` or `+`.
pub open spec fn line_tag(l: LineV) -> u8 {
    match l {
        LineV::Context(_) => 32,
        LineV::Deleted(_) => 45,
        LineV::Added(_) => 43,
    }
}

/// The content of a hunk line.
pub open spec fn line_content(l: LineV) -> Seq<u8> {
    match l {
        LineV::Context(c) => c,
        LineV::Deleted(c) => c,
        LineV::Added(c) => c,
    }
}

/// A hunk line as patch text: its tag byte, then its content.
pub open spec fn line_bytes(l: LineV) -> Seq<u8> {
    seq![line_tag(l)] + line_content(l)
}

/// The raw diff stream of a line list: tag and content as separate chunks.
pub open spec fn lines_chunks(ls: Seq<LineV>) -> Seq<Seq<u8>>
    decreases ls.len(),
{
    if ls.len() == 0 {
        Seq::empty()
    } else {
        seq![seq![line_tag(ls.first())], line_content(ls.first())] + lines_chunks(ls.drop_first())
    }
}

/// The raw diff stream of one hunk: its header, then its lines.
pub open spec fn hunk_chunks(h: HunkV) -> Seq<Seq<u8>> {
    seq![header_of(h)] + lines_chunks(h.lines)
}

/// The raw diff stream of a hunk list.
pub open spec fn diff_chunks(hs: Seq<HunkV>) -> Seq<Seq<u8>>
    decreases hs.len(),
{
    if hs.len() == 0 {
        Seq::empty()
    } else {
        hunk_chunks(hs.first()) + diff_chunks(hs.drop_first())
    }
}

/// A line list as patch text.
pub open spec fn lines_bytes(ls: Seq<LineV>) -> Seq<u8>
    decreases ls.len(),
{
    if ls.len() == 0 {
        Seq::empty()
    } else {
        line_bytes(ls.first()) + lines_bytes(ls.drop_first())
    }
}

/// One hunk as patch text.
pub open spec fn hunk_bytes(h: HunkV) -> Seq<u8> {
    header_of(h) + lines_bytes(h.lines)
}

/// A hunk list as patch text.
pub open spec fn patch_bytes(hs: Seq<HunkV>) -> Seq<u8>
    decreases hs.len(),
{
    if hs.len() == 0 {
        Seq::empty()
    } else {
        hunk_bytes(hs.first()) + patch_bytes(hs.drop_first())
    }
}

pub proof fn lemma_lines_chunks_snoc(ls: Seq<LineV>, l: LineV)
    ensures
        lines_chunks(ls.push(l)) == lines_chunks(ls) + seq![seq![line_tag(l)], line_content(l)],
    decreases ls.len(),
{
    if ls.len() == 0 {
        assert(ls.push(l).first() == l);
        assert(ls.push(l).drop_first() =~= Seq::<LineV>::empty());
        assert(lines_chunks(Seq::<LineV>::empty()) == Seq::<Seq<u8>>::empty());
        assert(lines_chunks(ls.push(l)) =~= lines_chunks(ls) + seq![
            seq![line_tag(l)],
            line_content(l),
        ]);
    } else {
        assert(ls.push(l).first() == ls.first());
        assert(ls.push(l).drop_first() =~= ls.drop_first().push(l));
        lemma_lines_chunks_snoc(ls.drop_first(), l);
        assert(lines_chunks(ls.push(l)) =~= lines_chunks(ls) + seq![
            seq![line_tag(l)],
            line_content(l),
        ]);
    }
}

pub proof fn lemma_diff_chunks_snoc(hs: Seq<HunkV>, h: HunkV)
    ensures
        diff_chunks(hs.push(h)) == diff_chunks(hs) + hunk_chunks(h),
    decreases hs.len(),
{
    if hs.len() == 0 {
        assert(hs.push(h).first() == h);
        assert(hs.push(h).drop_first() =~= Seq::<HunkV>::empty());
        assert(diff_chunks(Seq::<HunkV>::empty()) == Seq::<Seq<u8>>::empty());
        assert(diff_chunks(hs.push(h)) =~= diff_chunks(hs) + hunk_chunks(h));
    } else {
        assert(hs.push(h).first() == hs.first());
        assert(hs.push(h).drop_first() =~= hs.drop_first().push(h));
        lemma_diff_chunks_snoc(hs.drop_first(), h);
        assert(diff_chunks(hs.push(h)) =~= diff_chunks(hs) + hunk_chunks(h));
    }
}

/// Concatenating the raw diff chunks of a line list gives its patch text.
pub proof fn lemma_lines_chunks_flatten(ls: Seq<LineV>)
    ensures
        lines_chunks(ls).flatten() == lines_bytes(ls),
    decreases ls.len(),
{
    if ls.len() == 0 {
        assert(lines_chunks(ls).flatten() =~= lines_bytes(ls));
    } else {
        let rest = lines_chunks(ls.drop_first());
        let two = seq![seq![line_tag(ls.first())], line_content(ls.first())];
        assert(lines_chunks(Seq::<LineV>::empty()) == Seq::<Seq<u8>>::empty());
        vstd::seq_lib::lemma_flatten_concat(two, rest);
        assert(two + rest =~= lines_chunks(ls));
        lemma_lines_chunks_flatten(ls.drop_first());
        assert(two.drop_first() =~= seq![line_content(ls.first())]);
        assert(seq![line_content(ls.first())].drop_first() =~= Seq::<Seq<u8>>::empty());
        assert(Seq::<Seq<u8>>::empty().flatten() =~= Seq::<u8>::empty());
        assert(seq![line_content(ls.first())].flatten() =~= line_content(ls.first()));
        assert(two.first() == seq![line_tag(ls.first())]);
        assert(two.flatten() =~= line_bytes(ls.first()));
        assert(lines_chunks(ls).flatten() =~= lines_bytes(ls));
    }
}

/// Concatenating the raw diff chunks of a hunk list gives its patch text.
pub proof fn lemma_diff_chunks_flatten(hs: Seq<HunkV>)
    ensures
        diff_chunks(hs).flatten() == patch_bytes(hs),
    decreases hs.len(),
{
    if hs.len() == 0 {
        assert(diff_chunks(hs).flatten() =~= patch_bytes(hs));
    } else {
        let h = hs.first();
        let hc = hunk_chunks(h);
        let rest = diff_chunks(hs.drop_first());
        vstd::seq_lib::lemma_flatten_concat(hc, rest);
        assert(hc + rest =~= diff_chunks(hs));
        lemma_diff_chunks_flatten(hs.drop_first());
        vstd::seq_lib::lemma_flatten_concat(seq![header_of(h)], lines_chunks(h.lines));
        assert(seq![header_of(h)] + lines_chunks(h.lines) =~= hc);
        assert(seq![header_of(h)].drop_first() =~= Seq::<Seq<u8>>::empty());
        assert(Seq::<Seq<u8>>::empty().flatten() =~= Seq::<u8>::empty());
        assert(seq![header_of(h)].flatten() =~= header_of(h));
        lemma_lines_chunks_flatten(h.lines);
        assert(hc.flatten() =~= hunk_bytes(h));
        assert(diff_chunks(hs).flatten() =~= patch_bytes(hs));
    }
}

/// Renders one hunk header.
pub fn header_bytes(h: &Hunk) -> (r: Vec<u8>)
    requires
        h@.old_len > 0 ==> h@.old_start < usize::MAX,
        h@.new_len > 0 ==> h@.new_start < usize::MAX,
    ensures
        r@ == header_of(h@),
{
    let mut out: Vec<u8> = Vec::new();
    out.push(64);
    out.push(64);
    out.push(32);
    out.push(45);
    let od = if h.old_len > 0 {
        h.old_start + 1
    } else {
        h.old_start
    };
    push_dec(&mut out, od);
    out.push(44);
    push_dec(&mut out, h.old_len);
    out.push(32);
    out.push(43);
    let nd = if h.new_len > 0 {
        h.new_start + 1
    } else {
        h.new_start
    };
    push_dec(&mut out, nd);
    out.push(44);
    push_dec(&mut out, h.new_len);
    out.push(32);
    out.push(64);
    out.push(64);
    out.push(10);
    proof {
        assert(out@ =~= header_of(h@));
    }
    out
}

/// Renders the raw diff chunk stream of a hunk list: per hunk its header,
/// then tag and content chunks for each line.
/// The display starts of a hunk can be rendered 1-based without overflow.
pub open spec fn hunk_starts_fit(h: HunkV) -> bool {
    &&& (h.old_len > 0 ==> h.old_start < usize::MAX)
    &&& (h.new_len > 0 ==> h.new_start < usize::MAX)
}

pub fn render_diff_chunks(hunks: &Vec<Hunk>) -> (r: Vec<Vec<u8>>)
    requires
        forall|i: int| 0 <= i < hunks@.len() ==> hunk_starts_fit(#[trigger] hunks@[i]@),
    ensures
        views_of(r@) == diff_chunks(hunk_views(hunks@)),
{
    let ghost hv = hunk_views(hunks@);
    let mut out: Vec<Vec<u8>> = Vec::new();
    let mut i: usize = 0;
    proof {
        assert(hv.take(0) =~= Seq::<HunkV>::empty());
        assert(views_of(out@) =~= diff_chunks(hv.take(0)));
    }
    while i < hunks.len()
        invariant
            0 <= i <= hunks@.len(),
            hv == hunk_views(hunks@),
            forall|x: int| 0 <= x < hunks@.len() ==> hunk_starts_fit(#[trigger] hunks@[x]@),
            views_of(out@) == diff_chunks(hv.take(i as int)),
        decreases hunks@.len() - i,
    {
        let h = &hunks[i];
        proof {
            assert(hunk_starts_fit(hunks@[i as int]@));
        }
        let ghost pre = views_of(out@);
        let hdr = header_bytes(h);
        out.push(hdr);
        proof {
            assert(views_of(out@) =~= pre.push(header_of(h@)));
        }
        let mut j: usize = 0;
        proof {
            assert(h@.lines.take(0) =~= Seq::<LineV>::empty());
            assert(lines_chunks(h@.lines.take(0)) =~= Seq::<Seq<u8>>::empty());
            assert(views_of(out@) =~= pre + seq![header_of(h@)] + lines_chunks(
                h@.lines.take(0),
            ));
        }
        while j < h.lines.len()
            invariant
                0 <= j <= h.lines@.len(),
                h@.lines.len() == h.lines@.len(),
                views_of(out@) == pre + seq![header_of(h@)] + lines_chunks(h@.lines.take(j as int)),
            decreases h.lines@.len() - j,
        {
            let ghost mid = views_of(out@);
            let ghost lv = h@.lines[j as int];
            let mut tag: Vec<u8> = Vec::new();
            let content: Vec<u8>;
            match &h.lines[j] {
                HunkLine::Context(c) => {
                    tag.push(32);
                    content = vstd::slice::slice_to_vec(c.as_slice());
                },
                HunkLine::Deleted(c) => {
                    tag.push(45);
                    content = vstd::slice::slice_to_vec(c.as_slice());
                },
                HunkLine::Added(c) => {
                    tag.push(43);
                    content = vstd::slice::slice_to_vec(c.as_slice());
                },
            }
            proof {
                assert(h.lines@[j as int]@ == lv);
                assert(tag@ =~= seq![line_tag(lv)]);
                assert(content@ == line_content(lv));
            }
            out.push(tag);
            out.push(content);
            j = j + 1;
            proof {
                assert(h@.lines.take(j as int) =~= h@.lines.take(j as int - 1).push(lv));
                lemma_lines_chunks_snoc(h@.lines.take(j as int - 1), lv);
                assert(views_of(out@) =~= mid.push(seq![line_tag(lv)]).push(line_content(lv)));
                assert(views_of(out@) =~= pre + seq![header_of(h@)] + lines_chunks(
                    h@.lines.take(j as int),
                ));
            }
        }
        i = i + 1;
        proof {
            assert(h@.lines.take(h.lines@.len() as int) =~= h@.lines);
            assert(seq![header_of(h@)] + lines_chunks(h@.lines) =~= hunk_chunks(h@));
            assert(views_of(out@) =~= pre + hunk_chunks(h@));
            assert(hv.take(i as int) =~= hv.take(i as int - 1).push(h@));
            lemma_diff_chunks_snoc(hv.take(i as int - 1), h@);
            assert(views_of(out@) =~= diff_chunks(hv.take(i as int)));
        }
    }
    proof {
        assert(hv.take(i as int) =~= hv);
    }
    out
}

/// Hands every chunk to the sink in order; stops at the first refusal and
/// reports the abort, leaving the chunks already delivered in place.
pub fn emit_all<S: Sink>(chunks: &Vec<Vec<u8>>, sink: &mut S) -> (r: Result<(), XdiffError>)
    ensures
        r matches Ok(_) ==> final(sink).chunks() == old(sink).chunks() + views_of(chunks@),
        r matches Err(e) ==> e == XdiffError::CallbackAborted && exists|k: int|
            0 <= k <= chunks@.len() && final(sink).chunks() == old(sink).chunks() + views_of(
                chunks@,
            ).take(k),
        chunks@.len() == 0 ==> r is Ok && final(sink).chunks() == old(sink).chunks(),
{
    let mut i: usize = 0;
    proof {
        assert(sink.chunks() + views_of(chunks@).take(0) =~= sink.chunks());
    }
    while i < chunks.len()
        invariant
            0 <= i <= chunks@.len(),
            sink.chunks() == old(sink).chunks() + views_of(chunks@).take(i as int),
        decreases chunks@.len() - i,
    {
        let ret = sink.emit(chunks[i].as_slice());
        if ret != 0 {
            proof {
                assert(sink.chunks() == old(sink).chunks() + views_of(chunks@).take(i as int));
            }
            return Err(XdiffError::CallbackAborted);
        }
        i = i + 1;
        proof {
            assert(views_of(chunks@).take(i as int) =~= views_of(chunks@).take(i as int - 1).push(
                chunks@[i as int - 1]@,
            ));
            assert(sink.chunks() =~= old(sink).chunks() + views_of(chunks@).take(i as int));
        }
    }
    proof {
        assert(views_of(chunks@).take(i as int) =~= views_of(chunks@));
    }
    Ok(())
}

/// Hunks that tile two line lists have renderable (non-overflowing) starts.
pub proof fn lemma_wf_starts_fit(
    hs: Seq<HunkV>,
    a: Seq<Seq<u8>>,
    b: Seq<Seq<u8>>,
    ao: int,
    no: int,
)
    requires
        crate::hunk::hunks_seq_wf(hs, a, b, ao, no),
        a.len() <= usize::MAX,
        b.len() <= usize::MAX,
    ensures
        forall|i: int| 0 <= i < hs.len() ==> hunk_starts_fit(#[trigger] hs[i]),
    decreases hs.len(),
{
    if hs.len() > 0 {
        let h = hs[0];
        lemma_wf_starts_fit(
            hs.drop_first(),
            a,
            b,
            h.old_start + h.old_len,
            h.new_start + h.new_len,
        );
        assert forall|i: int| 0 <= i < hs.len() implies hunk_starts_fit(#[trigger] hs[i]) by {
            if i > 0 {
                assert(hs[i] == hs.drop_first()[i - 1]);
            }
        }
    }
}

} // verus!
