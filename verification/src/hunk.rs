//! Hunks: contiguous regions of change with surrounding context lines.
//!
//! A hunk covers an old-side range and a new-side range and lists the
//! interleaved context, deletion and addition lines of that region. Hunks
//! are carved out of an edit script: maximal runs of changes are merged when
//! fewer than twice the context width of matching lines separate them, then
//! each group is expanded by up to `context` matching lines on each side.

use vstd::prelude::*;

use crate::lines::views_of;
use crate::script::{
    lemma_fits_at, lemma_fits_totals, lemma_keep_run, lemma_pos_step, new_pos, old_pos,
    script_fits, Edit,
};
use crate::XdiffError;

verus! {

/// One line of a hunk, tagged by its role.
#[derive(Debug)]
pub enum HunkLine {
    /// An unchanged line, present on both sides, anchoring position.
    Context(Vec<u8>),
    /// A line only the old side has.
    Deleted(Vec<u8>),
    /// A line only the new side has.
    Added(Vec<u8>),
}

/// Specification-level hunk line.
pub ghost enum LineV {
    Context(Seq<u8>),
    Deleted(Seq<u8>),
    Added(Seq<u8>),
}

impl View for HunkLine {
    type V = LineV;

    open spec fn view(&self) -> LineV {
        match self {
            HunkLine::Context(c) => LineV::Context(c@),
            HunkLine::Deleted(c) => LineV::Deleted(c@),
            HunkLine::Added(c) => LineV::Added(c@),
        }
    }
}

/// A hunk: an old range, a new range (both 0-based start plus length) and
/// the lines covering them.
#[derive(Debug)]
pub struct Hunk {
    pub old_start: usize,
    pub old_len: usize,
    pub new_start: usize,
    pub new_len: usize,
    pub lines: Vec<HunkLine>,
}

/// Specification-level hunk.
#[verifier::ext_equal]
pub ghost struct HunkV {
    pub old_start: int,
    pub old_len: int,
    pub new_start: int,
    pub new_len: int,
    pub lines: Seq<LineV>,
}

impl View for Hunk {
    type V = HunkV;

    open spec fn view(&self) -> HunkV {
        HunkV {
            old_start: self.old_start as int,
            old_len: self.old_len as int,
            new_start: self.new_start as int,
            new_len: self.new_len as int,
            lines: Seq::new(self.lines@.len(), |i: int| self.lines@[i]@),
        }
    }
}

/// Views of a list of hunks.
pub open spec fn hunk_views(hs: Seq<Hunk>) -> Seq<HunkV> {
    Seq::new(hs.len(), |i: int| hs[i]@)
}

/// The old-side lines a hunk covers: its context and deletion contents.
pub open spec fn old_side(ls: Seq<LineV>) -> Seq<Seq<u8>>
    decreases ls.len(),
{
    if ls.len() == 0 {
        Seq::empty()
    } else {
        (match ls.first() {
            LineV::Context(c) => seq![c],
            LineV::Deleted(c) => seq![c],
            LineV::Added(_) => Seq::empty(),
        }) + old_side(ls.drop_first())
    }
}

/// The new-side lines a hunk covers: its context and addition contents.
pub open spec fn new_side(ls: Seq<LineV>) -> Seq<Seq<u8>>
    decreases ls.len(),
{
    if ls.len() == 0 {
        Seq::empty()
    } else {
        (match ls.first() {
            LineV::Context(c) => seq![c],
            LineV::Added(c) => seq![c],
            LineV::Deleted(_) => Seq::empty(),
        }) + new_side(ls.drop_first())
    }
}

pub proof fn lemma_sides_snoc(ls: Seq<LineV>, x: LineV)
    ensures
        old_side(ls.push(x)) == old_side(ls) + (match x {
            LineV::Context(c) => seq![c],
            LineV::Deleted(c) => seq![c],
            LineV::Added(_) => Seq::empty(),
        }),
        new_side(ls.push(x)) == new_side(ls) + (match x {
            LineV::Context(c) => seq![c],
            LineV::Added(c) => seq![c],
            LineV::Deleted(_) => Seq::empty(),
        }),
    decreases ls.len(),
{
    let oadd = match x {
        LineV::Context(c) => seq![c],
        LineV::Deleted(c) => seq![c],
        LineV::Added(_) => Seq::<Seq<u8>>::empty(),
    };
    let nadd = match x {
        LineV::Context(c) => seq![c],
        LineV::Added(c) => seq![c],
        LineV::Deleted(_) => Seq::<Seq<u8>>::empty(),
    };
    assert(old_side(Seq::<LineV>::empty()) == Seq::<Seq<u8>>::empty());
    assert(new_side(Seq::<LineV>::empty()) == Seq::<Seq<u8>>::empty());
    if ls.len() == 0 {
        assert(ls.push(x).first() == x);
        assert(ls.push(x).drop_first() =~= Seq::<LineV>::empty());
        assert(old_side(ls.push(x)) =~= old_side(ls) + oadd);
        assert(new_side(ls.push(x)) =~= new_side(ls) + nadd);
    } else {
        assert(ls.push(x).first() == ls.first());
        assert(ls.push(x).drop_first() =~= ls.drop_first().push(x));
        lemma_sides_snoc(ls.drop_first(), x);
        assert(old_side(ls.push(x)) =~= old_side(ls) + oadd);
        assert(new_side(ls.push(x)) =~= new_side(ls) + nadd);
    }
}

/// The hunk line that one script step describes.
pub open spec fn line_at(s: Seq<Edit>, a: Seq<Seq<u8>>, b: Seq<Seq<u8>>, k: int) -> LineV {
    match s[k] {
        Edit::Keep => LineV::Context(a[old_pos(s, k)]),
        Edit::Remove => LineV::Deleted(a[old_pos(s, k)]),
        Edit::Insert => LineV::Added(b[new_pos(s, k)]),
    }
}

/// The hunk described by the script steps in `[lo, hi)`.
pub open spec fn hunk_at(s: Seq<Edit>, a: Seq<Seq<u8>>, b: Seq<Seq<u8>>, lo: int, hi: int) -> HunkV {
    HunkV {
        old_start: old_pos(s, lo),
        old_len: old_pos(s, hi) - old_pos(s, lo),
        new_start: new_pos(s, lo),
        new_len: new_pos(s, hi) - new_pos(s, lo),
        lines: Seq::new((hi - lo) as nat, |t: int| line_at(s, a, b, lo + t)),
    }
}

/// The hunks described by a list of script ranges.
pub open spec fn hunks_at(
    s: Seq<Edit>,
    a: Seq<Seq<u8>>,
    b: Seq<Seq<u8>>,
    bs: Seq<(int, int)>,
) -> Seq<HunkV> {
    Seq::new(bs.len(), |i: int| hunk_at(s, a, b, bs[i].0, bs[i].1))
}

/// The sides of a script-range hunk are exactly the side subranges it names.
pub proof fn lemma_hunk_at_sides(
    s: Seq<Edit>,
    a: Seq<Seq<u8>>,
    b: Seq<Seq<u8>>,
    lo: int,
    hi: int,
)
    requires
        script_fits(s, a, b),
        0 <= lo <= hi <= s.len(),
    ensures
        old_side(hunk_at(s, a, b, lo, hi).lines) == a.subrange(old_pos(s, lo), old_pos(s, hi)),
        new_side(hunk_at(s, a, b, lo, hi).lines) == b.subrange(new_pos(s, lo), new_pos(s, hi)),
        old_pos(s, lo) <= old_pos(s, hi) <= a.len(),
        new_pos(s, lo) <= new_pos(s, hi) <= b.len(),
    decreases hi - lo,
{
    crate::script::lemma_fits_skip(s, a, b, hi);
    crate::script::lemma_fits_skip(s, a, b, lo);
    crate::script::lemma_pos_bounds(s, lo, hi);
    if lo == hi {
        assert(hunk_at(s, a, b, lo, hi).lines =~= Seq::<LineV>::empty());
        assert(old_side(hunk_at(s, a, b, lo, hi).lines) =~= a.subrange(
            old_pos(s, lo),
            old_pos(s, hi),
        ));
        assert(new_side(hunk_at(s, a, b, lo, hi).lines) =~= b.subrange(
            new_pos(s, lo),
            new_pos(s, hi),
        ));
    } else {
        lemma_hunk_at_sides(s, a, b, lo, hi - 1);
        lemma_pos_step(s, hi - 1);
        lemma_fits_at(s, a, b, hi - 1);
        let prev = hunk_at(s, a, b, lo, hi - 1).lines;
        let cur = hunk_at(s, a, b, lo, hi).lines;
        let x = line_at(s, a, b, hi - 1);
        assert(cur =~= prev.push(x));
        lemma_sides_snoc(prev, x);
        match s[hi - 1] {
            Edit::Keep => {
                assert(a.subrange(old_pos(s, lo), old_pos(s, hi)) =~= a.subrange(
                    old_pos(s, lo),
                    old_pos(s, hi - 1),
                ).push(a[old_pos(s, hi - 1)]));
                assert(b.subrange(new_pos(s, lo), new_pos(s, hi)) =~= b.subrange(
                    new_pos(s, lo),
                    new_pos(s, hi - 1),
                ).push(b[new_pos(s, hi - 1)]));
                assert(old_side(cur) =~= a.subrange(old_pos(s, lo), old_pos(s, hi)));
                assert(new_side(cur) =~= b.subrange(new_pos(s, lo), new_pos(s, hi)));
            },
            Edit::Remove => {
                assert(a.subrange(old_pos(s, lo), old_pos(s, hi)) =~= a.subrange(
                    old_pos(s, lo),
                    old_pos(s, hi - 1),
                ).push(a[old_pos(s, hi - 1)]));
                assert(b.subrange(new_pos(s, lo), new_pos(s, hi)) =~= b.subrange(
                    new_pos(s, lo),
                    new_pos(s, hi - 1),
                ));
                assert(old_side(cur) =~= a.subrange(old_pos(s, lo), old_pos(s, hi)));
                assert(new_side(cur) =~= b.subrange(new_pos(s, lo), new_pos(s, hi)));
            },
            Edit::Insert => {
                assert(a.subrange(old_pos(s, lo), old_pos(s, hi)) =~= a.subrange(
                    old_pos(s, lo),
                    old_pos(s, hi - 1),
                ));
                assert(b.subrange(new_pos(s, lo), new_pos(s, hi)) =~= b.subrange(
                    new_pos(s, lo),
                    new_pos(s, hi - 1),
                ).push(b[new_pos(s, hi - 1)]));
                assert(old_side(cur) =~= a.subrange(old_pos(s, lo), old_pos(s, hi)));
                assert(new_side(cur) =~= b.subrange(new_pos(s, lo), new_pos(s, hi)));
            },
        }
    }
}

/// Smallest script index at or after `k` whose step is a change.
pub open spec fn next_change(s: Seq<Edit>, k: int) -> int
    decreases s.len() - k,
    when 0 <= k <= s.len()
{
    if k >= s.len() {
        s.len() as int
    } else if s[k] != Edit::Keep {
        k
    } else {
        next_change(s, k + 1)
    }
}

/// Smallest script index at or after `k` whose step is a `Keep`.
pub open spec fn next_keep(s: Seq<Edit>, k: int) -> int
    decreases s.len() - k,
    when 0 <= k <= s.len()
{
    if k >= s.len() {
        s.len() as int
    } else if s[k] == Edit::Keep {
        k
    } else {
        next_keep(s, k + 1)
    }
}

pub proof fn lemma_next_change_bounds(s: Seq<Edit>, k: int)
    requires
        0 <= k <= s.len(),
    ensures
        k <= next_change(s, k) <= s.len(),
        forall|t: int| k <= t < next_change(s, k) ==> s[t] == Edit::Keep,
        next_change(s, k) < s.len() ==> s[next_change(s, k)] != Edit::Keep,
    decreases s.len() - k,
{
    if k < s.len() && s[k] == Edit::Keep {
        lemma_next_change_bounds(s, k + 1);
    }
}

pub proof fn lemma_next_keep_bounds(s: Seq<Edit>, k: int)
    requires
        0 <= k <= s.len(),
    ensures
        k <= next_keep(s, k) <= s.len(),
        forall|t: int| k <= t < next_keep(s, k) ==> s[t] != Edit::Keep,
        next_keep(s, k) < s.len() ==> s[next_keep(s, k)] == Edit::Keep,
    decreases s.len() - k,
{
    if k < s.len() && s[k] != Edit::Keep {
        lemma_next_keep_bounds(s, k + 1);
    }
}

/// The maximal runs of change steps of `s`, from position `k` on, as
/// half-open script ranges.
pub open spec fn runs_from(s: Seq<Edit>, k: int) -> Seq<(int, int)>
    decreases s.len() - k,
    when 0 <= k <= s.len()
    via runs_from_decreases
{
    let c = next_change(s, k);
    if c >= s.len() {
        Seq::empty()
    } else {
        let e = next_keep(s, c);
        seq![(c, e)] + runs_from(s, e)
    }
}

#[via_fn]
proof fn runs_from_decreases(s: Seq<Edit>, k: int) {
    lemma_next_change_bounds(s, k);
    if next_change(s, k) < s.len() {
        lemma_next_keep_bounds(s, next_change(s, k));
    }
}

/// Merges adjacent ranges separated by fewer than `gap` steps.
pub open spec fn merge_runs(rs: Seq<(int, int)>, gap: int) -> Seq<(int, int)>
    decreases rs.len(),
{
    if rs.len() <= 1 {
        rs
    } else if rs[1].0 - rs[0].1 < gap {
        merge_runs(seq![(rs[0].0, rs[1].1)] + rs.skip(2), gap)
    } else {
        seq![rs[0]] + merge_runs(rs.skip(1), gap)
    }
}

/// Expands each range by up to `ctx` steps on each side, clipped so ranges
/// stay disjoint, ordered and within the script.
pub open spec fn expand_bounds(s_len: int, bs: Seq<(int, int)>, ctx: int, from: int) -> Seq<
    (int, int),
>
    decreases bs.len(),
{
    if bs.len() == 0 {
        Seq::empty()
    } else {
        let lo = bs[0].0;
        let hi = bs[0].1;
        let lo2 = if lo - ctx > from {
            lo - ctx
        } else {
            from
        };
        let cap = if bs.len() > 1 {
            bs[1].0
        } else {
            s_len
        };
        let hi2 = if hi + ctx < cap {
            hi + ctx
        } else {
            cap
        };
        seq![(lo2, hi2)] + expand_bounds(s_len, bs.drop_first(), ctx, hi2)
    }
}

/// Ranges are ordered, lie in `[from, |s|)`, and every step outside them is
/// a `Keep`.
pub open spec fn bounds_wf(s: Seq<Edit>, bs: Seq<(int, int)>, from: int) -> bool
    decreases bs.len(),
{
    if bs.len() == 0 {
        (forall|t: int| from <= t < s.len() ==> s[t] == Edit::Keep) && from <= s.len()
    } else {
        let lo = bs[0].0;
        let hi = bs[0].1;
        &&& from <= lo < hi <= s.len()
        &&& (forall|t: int| from <= t < lo ==> s[t] == Edit::Keep)
        &&& bounds_wf(s, bs.drop_first(), hi)
    }
}

pub proof fn lemma_runs_from_wf(s: Seq<Edit>, k: int)
    requires
        0 <= k <= s.len(),
    ensures
        bounds_wf(s, runs_from(s, k), k),
    decreases s.len() - k,
{
    lemma_next_change_bounds(s, k);
    let c = next_change(s, k);
    if c >= s.len() {
    } else {
        lemma_next_keep_bounds(s, c);
        let e = next_keep(s, c);
        lemma_runs_from_wf(s, e);
        assert((seq![(c, e)] + runs_from(s, e)).drop_first() =~= runs_from(s, e));
    }
}

pub proof fn lemma_merge_runs_wf(s: Seq<Edit>, rs: Seq<(int, int)>, gap: int, from: int)
    requires
        bounds_wf(s, rs, from),
    ensures
        bounds_wf(s, merge_runs(rs, gap), from),
    decreases rs.len(),
{
    if rs.len() <= 1 {
    } else {
        let tail = rs.drop_first();
        assert(bounds_wf(s, tail, rs[0].1));
        let tail2 = tail.drop_first();
        assert(bounds_wf(s, tail2, rs[1].1));
        if rs[1].0 - rs[0].1 < gap {
            let merged = seq![(rs[0].0, rs[1].1)] + rs.skip(2);
            assert(merged.drop_first() =~= rs.skip(2));
            assert(rs.skip(2) =~= tail2);
            assert(forall|t: int| rs[0].1 <= t < rs[1].0 ==> s[t] == Edit::Keep);
            assert(bounds_wf(s, merged, from));
            lemma_merge_runs_wf(s, merged, gap, from);
        } else {
            lemma_merge_runs_wf(s, tail, gap, rs[0].1);
            let out = seq![rs[0]] + merge_runs(tail, gap);
            assert(out.drop_first() =~= merge_runs(tail, gap));
            assert(bounds_wf(s, out, from));
        }
    }
}

pub proof fn lemma_expand_bounds_wf(s: Seq<Edit>, bs: Seq<(int, int)>, ctx: int, from: int)
    requires
        bounds_wf(s, bs, from),
        ctx >= 0,
        from >= 0,
    ensures
        bounds_wf(s, expand_bounds(s.len() as int, bs, ctx, from), from),
    decreases bs.len(),
{
    if bs.len() == 0 {
    } else {
        let lo = bs[0].0;
        let hi = bs[0].1;
        let lo2 = if lo - ctx > from {
            lo - ctx
        } else {
            from
        };
        let cap = if bs.len() > 1 {
            bs[1].0
        } else {
            s.len() as int
        };
        let hi2 = if hi + ctx < cap {
            hi + ctx
        } else {
            cap
        };
        assert(bounds_wf(s, bs.drop_first(), hi));
        if bs.len() > 1 {
            assert(bs.drop_first()[0] == bs[1]);
            assert(hi <= bs[1].0);
            assert(forall|t: int| hi <= t < bs[1].0 ==> s[t] == Edit::Keep);
        }
        assert(from <= lo2 < hi2 <= s.len());
        // steps between the new end and the rest stay Keep
        assert(bounds_wf(s, bs.drop_first(), hi2)) by {
            lemma_bounds_wf_weaken(s, bs.drop_first(), hi, hi2);
        }
        lemma_expand_bounds_wf(s, bs.drop_first(), ctx, hi2);
        let out = expand_bounds(s.len() as int, bs, ctx, from);
        assert(out.drop_first() =~= expand_bounds(s.len() as int, bs.drop_first(), ctx, hi2));
        assert(bounds_wf(s, out, from));
    }
}

/// A well-formed bound list stays well-formed from a later start, as long
/// as the skipped steps are all `Keep`.
proof fn lemma_bounds_wf_weaken(s: Seq<Edit>, bs: Seq<(int, int)>, from: int, from2: int)
    requires
        bounds_wf(s, bs, from),
        from <= from2,
        from2 <= s.len(),
        bs.len() > 0 ==> from2 <= bs[0].0,
    ensures
        bounds_wf(s, bs, from2),
{
    if bs.len() == 0 {
    } else {
        assert(forall|t: int| from2 <= t < bs[0].0 ==> s[t] == Edit::Keep);
    }
}

/// The hunks of `hs`, taken in order starting from side positions
/// `(ao, no)`, tile `a` and `b`: the region before each hunk is unchanged
/// (equal on both sides), each hunk's sides are exactly the subranges its
/// header names, and after the last hunk the two sides agree to the end.
pub open spec fn hunks_seq_wf(
    hs: Seq<HunkV>,
    a: Seq<Seq<u8>>,
    b: Seq<Seq<u8>>,
    ao: int,
    no: int,
) -> bool
    decreases hs.len(),
{
    if hs.len() == 0 {
        &&& 0 <= ao <= a.len()
        &&& 0 <= no <= b.len()
        &&& a.len() - ao == b.len() - no
        &&& a.subrange(ao, a.len() as int) == b.subrange(no, b.len() as int)
    } else {
        let h = hs[0];
        &&& 0 <= ao <= h.old_start
        &&& 0 <= no <= h.new_start
        &&& h.old_start - ao == h.new_start - no
        &&& h.old_len >= 0
        &&& h.new_len >= 0
        &&& h.old_start + h.old_len <= a.len()
        &&& h.new_start + h.new_len <= b.len()
        &&& a.subrange(ao, h.old_start) == b.subrange(no, h.new_start)
        &&& old_side(h.lines) == a.subrange(h.old_start, h.old_start + h.old_len)
        &&& new_side(h.lines) == b.subrange(h.new_start, h.new_start + h.new_len)
        &&& hunks_seq_wf(hs.drop_first(), a, b, h.old_start + h.old_len, h.new_start + h.new_len)
    }
}

/// Hunks that tile the two sides from the start.
pub open spec fn hunks_wf(hs: Seq<HunkV>, a: Seq<Seq<u8>>, b: Seq<Seq<u8>>) -> bool {
    hunks_seq_wf(hs, a, b, 0, 0)
}

/// Hunks carved from well-formed script ranges tile the two sides.
pub proof fn lemma_hunks_at_wf(
    s: Seq<Edit>,
    a: Seq<Seq<u8>>,
    b: Seq<Seq<u8>>,
    bs: Seq<(int, int)>,
    from: int,
)
    requires
        script_fits(s, a, b),
        bounds_wf(s, bs, from),
        0 <= from <= s.len(),
    ensures
        hunks_seq_wf(hunks_at(s, a, b, bs), a, b, old_pos(s, from), new_pos(s, from)),
    decreases bs.len(),
{
    crate::script::lemma_fits_skip(s, a, b, from);
    if bs.len() == 0 {
        lemma_keep_run(s, a, b, from, s.len() as int);
        lemma_fits_totals(s, a, b);
        assert(hunks_at(s, a, b, bs).len() == 0);
        assert(a.subrange(old_pos(s, from), a.len() as int) == b.subrange(
            new_pos(s, from),
            b.len() as int,
        ));
    } else {
        let lo = bs[0].0;
        let hi = bs[0].1;
        lemma_keep_run(s, a, b, from, lo);
        lemma_hunk_at_sides(s, a, b, lo, hi);
        lemma_hunks_at_wf(s, a, b, bs.drop_first(), hi);
        let hsv = hunks_at(s, a, b, bs);
        assert(hsv[0] == hunk_at(s, a, b, lo, hi));
        assert(hsv.drop_first() =~= hunks_at(s, a, b, bs.drop_first()));
        let h = hsv[0];
        assert(h.old_start + h.old_len == old_pos(s, hi));
        assert(h.new_start + h.new_len == new_pos(s, hi));
        assert(hunks_seq_wf(hsv, a, b, old_pos(s, from), new_pos(s, from)));
    }
}

/// The script ranges that become hunks: maximal change runs, merged across
/// gaps of at most `2·ctx` matching lines, expanded by `ctx` on each side.
pub open spec fn spec_hunk_bounds(s: Seq<Edit>, ctx: int) -> Seq<(int, int)> {
    expand_bounds(s.len() as int, merge_runs(runs_from(s, 0), 2 * ctx), ctx, 0)
}

/// The hunks of the canonical diff of `a` and `b` with context width `ctx`.
pub open spec fn spec_diff_hunks(a: Seq<Seq<u8>>, b: Seq<Seq<u8>>, ctx: int) -> Seq<HunkV> {
    let s = crate::script::spec_script(a, b);
    hunks_at(s, a, b, spec_hunk_bounds(s, ctx))
}

/// The canonical diff hunks tile the two line lists.
pub proof fn lemma_diff_hunks_wf(a: Seq<Seq<u8>>, b: Seq<Seq<u8>>, ctx: int)
    requires
        ctx >= 0,
    ensures
        hunks_wf(spec_diff_hunks(a, b, ctx), a, b),
{
    let s = crate::script::spec_script(a, b);
    crate::script::lemma_spec_script_fits(a, b);
    lemma_runs_from_wf(s, 0);
    lemma_merge_runs_wf(s, runs_from(s, 0), 2 * ctx, 0);
    lemma_expand_bounds_wf(s, merge_runs(runs_from(s, 0), 2 * ctx), ctx, 0);
    lemma_hunks_at_wf(s, a, b, spec_hunk_bounds(s, ctx), 0);
    assert(s.take(0) =~= Seq::<Edit>::empty());
    assert(old_pos(s, 0) == 0);
    assert(new_pos(s, 0) == 0);
}

/// Equal inputs diff to no hunks, and no hunks means equal inputs.
pub proof fn lemma_diff_hunks_empty_iff(a: Seq<Seq<u8>>, b: Seq<Seq<u8>>, ctx: int)
    requires
        ctx >= 0,
    ensures
        spec_diff_hunks(a, b, ctx).len() == 0 <==> a == b,
{
    let s = crate::script::spec_script(a, b);
    if a == b {
        crate::script::lemma_spec_script_self(a);
        lemma_next_change_bounds(s, 0);
        assert(next_change(s, 0) == s.len());
        assert(runs_from(s, 0) =~= Seq::<(int, int)>::empty());
        assert(merge_runs(runs_from(s, 0), 2 * ctx) =~= Seq::<(int, int)>::empty());
        assert(spec_hunk_bounds(s, ctx) =~= Seq::<(int, int)>::empty());
        assert(spec_diff_hunks(a, b, ctx).len() == 0);
    }
    if spec_diff_hunks(a, b, ctx).len() == 0 {
        lemma_diff_hunks_wf(a, b, ctx);
        assert(a.subrange(0, a.len() as int) == b.subrange(0, b.len() as int));
        assert(a.subrange(0, a.len() as int) =~= a);
        assert(b.subrange(0, b.len() as int) =~= b);
    }
}

/// Bound lists as mathematical pairs.
pub open spec fn bounds_view(v: Seq<(usize, usize)>) -> Seq<(int, int)> {
    Seq::new(v.len(), |i: int| (v[i].0 as int, v[i].1 as int))
}

/// Finds the maximal change runs of `script`.
pub(crate) fn find_runs(script: &Vec<Edit>) -> (runs: Vec<(usize, usize)>)
    ensures
        bounds_view(runs@) == runs_from(script@, 0),
{
    let ghost s = script@;
    let mut runs: Vec<(usize, usize)> = Vec::new();
    let mut k: usize = 0;
    proof {
        assert(bounds_view(runs@) + runs_from(s, 0) =~= runs_from(s, 0));
    }
    while k < script.len()
        invariant
            0 <= k <= s.len(),
            s == script@,
            runs_from(s, 0) == bounds_view(runs@) + runs_from(s, k as int),
        decreases s.len() - k,
    {
        let ghost k0 = k as int;
        while k < script.len() && script[k] == Edit::Keep
            invariant
                k0 <= k <= s.len(),
                s == script@,
                next_change(s, k0) == next_change(s, k as int),
            decreases s.len() - k,
        {
            k = k + 1;
        }
        proof {
            assert(next_change(s, k0) == k as int);
        }
        if k == script.len() {
            proof {
                assert(runs_from(s, k0) =~= Seq::<(int, int)>::empty());
                assert(bounds_view(runs@) + Seq::<(int, int)>::empty() =~= bounds_view(runs@));
                assert(runs_from(s, k as int) =~= Seq::<(int, int)>::empty());
                assert(bounds_view(runs@) + runs_from(s, k as int) =~= runs_from(s, 0));
            }
        } else {
            let start = k;
            let ghost c = k as int;
            while k < script.len() && !(script[k] == Edit::Keep)
                invariant
                    c <= k <= s.len(),
                    s == script@,
                    next_keep(s, c) == next_keep(s, k as int),
                decreases s.len() - k,
            {
                k = k + 1;
            }
            proof {
                assert(next_keep(s, c) == k as int);
            }
            let ghost pre = bounds_view(runs@);
            runs.push((start, k));
            proof {
                let e = k as int;
                assert(runs_from(s, k0) =~= seq![(c, e)] + runs_from(s, e));
                assert(bounds_view(runs@) =~= pre.push((c, e)));
                assert(bounds_view(runs@) + runs_from(s, e) =~= pre + (seq![(c, e)] + runs_from(
                    s,
                    e,
                )));
            }
        }
    }
    proof {
        assert(runs_from(s, k as int) =~= Seq::<(int, int)>::empty());
        assert(bounds_view(runs@) + Seq::<(int, int)>::empty() =~= bounds_view(runs@));
    }
    runs
}

/// Merges runs separated by at most `gap` steps, preserving order.
fn merge_bounds(runs: &Vec<(usize, usize)>, gap: usize, Ghost(s): Ghost<Seq<Edit>>) -> (r: Vec<
    (usize, usize),
>)
    requires
        bounds_wf(s, bounds_view(runs@), 0),
    ensures
        bounds_view(r@) == merge_runs(bounds_view(runs@), gap as int),
{
    let ghost full = bounds_view(runs@);
    let mut r: Vec<(usize, usize)> = Vec::new();
    if runs.len() == 0 {
        proof {
            assert(bounds_view(r@) =~= merge_runs(full, gap as int));
        }
        return r;
    }
    let mut cur: (usize, usize) = runs[0];
    let mut k: usize = 1;
    proof {
        assert(seq![(cur.0 as int, cur.1 as int)] + full.skip(1) =~= full);
        assert(bounds_view(r@) =~= Seq::<(int, int)>::empty());
        assert(bounds_view(r@) + merge_runs(full, gap as int) =~= merge_runs(full, gap as int));
        assert(full[0] == (cur.0 as int, cur.1 as int));
        assert(full.skip(1) =~= full.drop_first());
        assert(bounds_wf(s, full.drop_first(), full[0].1));
    }
    while k < runs.len()
        invariant
            1 <= k <= full.len(),
            full == bounds_view(runs@),
            bounds_wf(s, full, 0),
            merge_runs(full, gap as int) == bounds_view(r@) + merge_runs(
                seq![(cur.0 as int, cur.1 as int)] + full.skip(k as int),
                gap as int,
            ),
            cur.0 < cur.1 <= s.len(),
            bounds_wf_at(s, full, k as int, cur.1 as int),
        decreases full.len() - k,
    {
        let ghost rem = seq![(cur.0 as int, cur.1 as int)] + full.skip(k as int);
        proof {
            lemma_bounds_wf_at_head(s, full, k as int, cur.1 as int);
            assert(rem[1] == full[k as int]);
            assert(rem.len() > 1);
        }
        let nxt = runs[k];
        proof {
            assert(cur.1 <= nxt.0);
        }
        if nxt.0 - cur.1 < gap {
            proof {
                assert(seq![(cur.0 as int, nxt.1 as int)] + full.skip(k as int + 1) =~= seq![
                    (rem[0].0, rem[1].1),
                ] + rem.skip(2));
            }
            cur = (cur.0, nxt.1);
            k = k + 1;
        } else {
            let ghost pre = bounds_view(r@);
            r.push(cur);
            proof {
                assert(bounds_view(r@) =~= pre.push((cur.0 as int, cur.1 as int)));
                assert(seq![(nxt.0 as int, nxt.1 as int)] + full.skip(k as int + 1) =~= rem.skip(
                    1,
                ));
                assert(merge_runs(rem, gap as int) == seq![rem[0]] + merge_runs(
                    rem.skip(1),
                    gap as int,
                ));
                assert(pre.push((cur.0 as int, cur.1 as int)) + merge_runs(rem.skip(1), gap as int)
                    =~= pre + (seq![rem[0]] + merge_runs(rem.skip(1), gap as int)));
            }
            cur = nxt;
            k = k + 1;
        }
    }
    let ghost pre = bounds_view(r@);
    r.push(cur);
    proof {
        let rem = seq![(cur.0 as int, cur.1 as int)] + full.skip(k as int);
        assert(full.skip(k as int) =~= Seq::<(int, int)>::empty());
        assert(rem.len() == 1);
        assert(merge_runs(rem, gap as int) == rem);
        assert(bounds_view(r@) =~= pre.push((cur.0 as int, cur.1 as int)));
        assert(pre + rem =~= bounds_view(r@));
    }
    r
}

/// The tail of a bound list starting at entry `k` is well formed from
/// position `from`.
pub open spec fn bounds_wf_at(s: Seq<Edit>, bs: Seq<(int, int)>, k: int, from: int) -> bool {
    0 <= k <= bs.len() && bounds_wf(s, bs.skip(k), from)
}

proof fn lemma_bounds_wf_at_head(s: Seq<Edit>, bs: Seq<(int, int)>, k: int, from: int)
    requires
        bounds_wf_at(s, bs, k, from),
        k < bs.len(),
    ensures
        from <= bs[k].0 < bs[k].1 <= s.len(),
        forall|t: int| from <= t < bs[k].0 ==> s[t] == Edit::Keep,
        bounds_wf_at(s, bs, k + 1, bs[k].1),
{
    assert(bs.skip(k)[0] == bs[k]);
    assert(bs.skip(k).drop_first() =~= bs.skip(k + 1));
}

/// Expands merged runs by up to `ctx` steps of context on each side.
fn expand_exec(slen: usize, bs: &Vec<(usize, usize)>, ctx: usize, Ghost(s): Ghost<Seq<Edit>>) -> (r:
    Vec<(usize, usize)>)
    requires
        bounds_wf(s, bounds_view(bs@), 0),
        slen == s.len(),
    ensures
        bounds_view(r@) == expand_bounds(s.len() as int, bounds_view(bs@), ctx as int, 0),
{
    let ghost full = bounds_view(bs@);
    let mut r: Vec<(usize, usize)> = Vec::new();
    let mut from: usize = 0;
    let mut k: usize = 0;
    proof {
        assert(full.skip(0) =~= full);
        assert(bounds_view(r@) =~= Seq::<(int, int)>::empty());
        assert(bounds_view(r@) + expand_bounds(s.len() as int, full, ctx as int, 0)
            =~= expand_bounds(s.len() as int, full, ctx as int, 0));
    }
    while k < bs.len()
        invariant
            0 <= k <= full.len(),
            full == bounds_view(bs@),
            slen == s.len(),
            from <= s.len(),
            bounds_wf_at(s, full, k as int, from as int),
            expand_bounds(s.len() as int, full, ctx as int, 0) == bounds_view(r@)
                + expand_bounds(s.len() as int, full.skip(k as int), ctx as int, from as int),
        decreases full.len() - k,
    {
        let ghost rem = full.skip(k as int);
        proof {
            lemma_bounds_wf_at_head(s, full, k as int, from as int);
            assert(rem[0] == full[k as int]);
            if k as int + 1 < full.len() {
                assert(rem[1] == full[k as int + 1]);
                assert(bounds_wf(s, full.skip(k as int + 1), full[k as int].1));
                assert(full.skip(k as int + 1)[0] == full[k as int + 1]);
            }
        }
        let lohi = bs[k];
        let lo = lohi.0;
        let hi = lohi.1;
        let lo2 = if lo >= ctx && lo - ctx > from {
            lo - ctx
        } else {
            from
        };
        let cap = if k + 1 < bs.len() {
            bs[k + 1].0
        } else {
            slen
        };
        let hi2 = match hi.checked_add(ctx) {
            Some(x) => {
                if x < cap {
                    x
                } else {
                    cap
                }
            },
            None => cap,
        };
        let ghost pre = bounds_view(r@);
        r.push((lo2, hi2));
        proof {
            let lo2s = if rem[0].0 - ctx > from as int {
                rem[0].0 - ctx
            } else {
                from as int
            };
            let caps = if rem.len() > 1 {
                rem[1].0
            } else {
                s.len() as int
            };
            let hi2s = if rem[0].1 + ctx < caps {
                rem[0].1 + ctx
            } else {
                caps
            };
            assert(lo2 as int == lo2s);
            assert(cap as int == caps);
            assert(hi2 as int == hi2s);
            assert(expand_bounds(s.len() as int, rem, ctx as int, from as int) == seq![
                (lo2s, hi2s),
            ] + expand_bounds(s.len() as int, rem.drop_first(), ctx as int, hi2s));
            assert(rem.drop_first() =~= full.skip(k as int + 1));
            assert(bounds_view(r@) =~= pre.push((lo2s, hi2s)));
            assert(pre.push((lo2s, hi2s)) + expand_bounds(
                s.len() as int,
                full.skip(k as int + 1),
                ctx as int,
                hi2s,
            ) =~= pre + (seq![(lo2s, hi2s)] + expand_bounds(
                s.len() as int,
                full.skip(k as int + 1),
                ctx as int,
                hi2s,
            )));
            if k as int + 1 < full.len() {
                lemma_bounds_wf_weaken(s, full.skip(k as int + 1), full[k as int].1, hi2s);
            } else {
                assert(full.skip(k as int + 1) =~= Seq::<(int, int)>::empty());
                lemma_bounds_wf_weaken(s, full.skip(k as int + 1), full[k as int].1, hi2s);
            }
        }
        from = hi2;
        k = k + 1;
    }
    proof {
        assert(full.skip(k as int) =~= Seq::<(int, int)>::empty());
        assert(expand_bounds(s.len() as int, full.skip(k as int), ctx as int, from as int)
            =~= Seq::<(int, int)>::empty());
        assert(bounds_view(r@) + Seq::<(int, int)>::empty() =~= bounds_view(r@));
    }
    r
}

/// Views of a list of hunk lines.
pub open spec fn line_views(v: Seq<HunkLine>) -> Seq<LineV> {
    Seq::new(v.len(), |i: int| v[i]@)
}

/// Builds the hunks named by well-formed script ranges, copying line
/// content out of the two files.
pub(crate) fn hunks_from_bounds(
    script: &Vec<Edit>,
    la: &Vec<Vec<u8>>,
    lb: &Vec<Vec<u8>>,
    bounds: &Vec<(usize, usize)>,
) -> (hs: Vec<Hunk>)
    requires
        script_fits(script@, views_of(la@), views_of(lb@)),
        bounds_wf(script@, bounds_view(bounds@), 0),
    ensures
        hunk_views(hs@) == hunks_at(script@, views_of(la@), views_of(lb@), bounds_view(bounds@)),
{
    let ghost s = script@;
    let ghost av = views_of(la@);
    let ghost bv = views_of(lb@);
    let ghost full = bounds_view(bounds@);
    let la_len = la.len();
    let lb_len = lb.len();
    let mut hs: Vec<Hunk> = Vec::new();
    let mut x: usize = 0;
    let mut k: usize = 0;
    let mut op: usize = 0;
    let mut np: usize = 0;
    proof {
        assert(full.skip(0) =~= full);
        assert(s.take(0) =~= Seq::<Edit>::empty());
        assert(hunk_views(hs@) =~= hunks_at(s, av, bv, full.take(0)));
    }
    while x < bounds.len()
        invariant
            0 <= x <= full.len(),
            k <= s.len(),
            s == script@,
            av == views_of(la@),
            bv == views_of(lb@),
            la_len == la@.len(),
            lb_len == lb@.len(),
            full == bounds_view(bounds@),
            script_fits(s, av, bv),
            op == old_pos(s, k as int),
            np == new_pos(s, k as int),
            bounds_wf_at(s, full, x as int, k as int),
            hunk_views(hs@) == hunks_at(s, av, bv, full.take(x as int)),
        decreases full.len() - x,
    {
        proof {
            lemma_bounds_wf_at_head(s, full, x as int, k as int);
        }
        let lohi = bounds[x];
        let lo = lohi.0;
        let hi = lohi.1;
        let ghost k_entry = k as int;
        while k < lo
            invariant
                k_entry <= k <= lo,
                lo <= s.len(),
                s == script@,
                av == views_of(la@),
                bv == views_of(lb@),
                la_len == la@.len(),
                lb_len == lb@.len(),
                script_fits(s, av, bv),
                op == old_pos(s, k as int),
                np == new_pos(s, k as int),
                forall|t: int| k_entry <= t < lo ==> s[t] == Edit::Keep,
            decreases lo - k,
        {
            proof {
                assert(s[k as int] == Edit::Keep);
                lemma_fits_at(s, av, bv, k as int);
                lemma_pos_step(s, k as int);
                assert(av.len() == la@.len());
                assert(bv.len() == lb@.len());
            }
            op = op + 1;
            np = np + 1;
            k = k + 1;
        }
        let os = op;
        let ns = np;
        let mut lines: Vec<HunkLine> = Vec::new();
        proof {
            assert(line_views(lines@) =~= Seq::new((k - lo) as nat, |t: int| line_at(
                s,
                av,
                bv,
                lo + t,
            )));
        }
        while k < hi
            invariant
                lo <= k <= hi,
                hi <= s.len(),
                s == script@,
                av == views_of(la@),
                bv == views_of(lb@),
                la_len == la@.len(),
                lb_len == lb@.len(),
                script_fits(s, av, bv),
                op == old_pos(s, k as int),
                np == new_pos(s, k as int),
                os == old_pos(s, lo as int),
                ns == new_pos(s, lo as int),
                line_views(lines@) == Seq::new((k - lo) as nat, |t: int| line_at(
                    s,
                    av,
                    bv,
                    lo as int + t,
                )),
            decreases hi - k,
        {
            let ghost kk = k as int;
            let ghost pre = line_views(lines@);
            proof {
                lemma_fits_at(s, av, bv, kk);
                lemma_pos_step(s, kk);
                assert(av.len() == la@.len());
                assert(bv.len() == lb@.len());
            }
            match script[k] {
                Edit::Keep => {
                    lines.push(HunkLine::Context(vstd::slice::slice_to_vec(la[op].as_slice())));
                    op = op + 1;
                    np = np + 1;
                },
                Edit::Remove => {
                    lines.push(HunkLine::Deleted(vstd::slice::slice_to_vec(la[op].as_slice())));
                    op = op + 1;
                },
                Edit::Insert => {
                    lines.push(HunkLine::Added(vstd::slice::slice_to_vec(lb[np].as_slice())));
                    np = np + 1;
                },
            }
            k = k + 1;
            proof {
                assert(line_views(lines@) =~= pre.push(line_at(s, av, bv, kk)));
                assert(line_views(lines@) =~= Seq::new((k - lo) as nat, |t: int| line_at(
                    s,
                    av,
                    bv,
                    lo as int + t,
                )));
            }
        }
        proof {
            crate::script::lemma_pos_bounds(s, lo as int, hi as int);
        }
        let h = Hunk { old_start: os, old_len: op - os, new_start: ns, new_len: np - ns, lines };
        let ghost hv = h@;
        let ghost pre_hunks = hunk_views(hs@);
        let ghost pre_seq = hs@;
        let ghost xo = x as int;
        proof {
            assert(hv.lines =~= hunk_at(s, av, bv, lo as int, hi as int).lines);
            assert(hv =~= hunk_at(s, av, bv, lo as int, hi as int));
            assert(pre_hunks.len() == xo);
            assert(pre_seq.len() == xo);
        }
        hs.push(h);
        proof {
            assert(hs@ == pre_seq.push(h));
            assert(hunk_views(hs@)[xo] == hv);
            assert(forall|i: int|
                0 <= i < xo ==> #[trigger] hunk_views(hs@)[i] == pre_hunks[i]);
            assert(full[xo] == (lo as int, hi as int));
            assert(full.take(xo + 1) =~= full.take(xo).push(full[xo]));
            assert(hunk_views(hs@) =~= hunks_at(s, av, bv, full.take(xo + 1)));
        }
        x = x + 1;
    }
    proof {
        assert(full.take(x as int) =~= full);
    }
    hs
}

/// Computes the hunks of the canonical diff between two line lists, with
/// `ctx` lines of context. Fails with `AllocationFailure` exactly when the
/// working table cannot be addressed.
pub fn diff_hunks(la: &Vec<Vec<u8>>, lb: &Vec<Vec<u8>>, ctx: usize) -> (r: Result<
    Vec<Hunk>,
    XdiffError,
>)
    requires
        ctx <= usize::MAX / 2,
    ensures
        r is Ok <==> (la@.len() + 1) * (lb@.len() + 1) <= usize::MAX,
        r matches Ok(hs) ==> hunk_views(hs@) == spec_diff_hunks(
            views_of(la@),
            views_of(lb@),
            ctx as int,
        ),
        r matches Err(e) ==> e == XdiffError::AllocationFailure,
{
    let ghost av = views_of(la@);
    let ghost bv = views_of(lb@);
    match crate::script::compute_script(la, lb) {
        Err(e) => {
            proof {
                assert(av.len() == la@.len());
                assert(bv.len() == lb@.len());
            }
            Err(e)
        },
        Ok(script) => {
            proof {
                assert(av.len() == la@.len());
                assert(bv.len() == lb@.len());
                crate::script::lemma_spec_script_fits(av, bv);
            }
            let runs = find_runs(&script);
            proof {
                lemma_runs_from_wf(script@, 0);
            }
            let merged = merge_bounds(&runs, ctx * 2, Ghost(script@));
            proof {
                lemma_merge_runs_wf(script@, bounds_view(runs@), 2 * ctx as int, 0);
            }
            let bounds = expand_exec(script.len(), &merged, ctx, Ghost(script@));
            proof {
                lemma_expand_bounds_wf(script@, bounds_view(merged@), ctx as int, 0);
            }
            let hs = hunks_from_bounds(&script, la, lb, &bounds);
            proof {
                assert(hunk_views(hs@) == spec_diff_hunks(av, bv, ctx as int));
            }
            Ok(hs)
        },
    }
}

} // verus!
