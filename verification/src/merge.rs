//! Three-way merge: reconciling two edit scripts against a common base.
//!
//! The base is diffed against each side; the two lists of change groups
//! (maximal change runs, in base coordinates) are then walked in lockstep
//! over base positions. A region untouched by either side flows through; a
//! region changed by one side takes that side's content; a region changed
//! identically by both is taken once. Where the two sides disagree, the
//! accepted output keeps the first side's content, and the second side's
//! divergence is emitted as a rejected hunk in patch grammar, wrapped in up
//! to [`crate::mmfile::DIFF_CONTEXT`] lines of context.

use vstd::prelude::*;

use crate::hunk::{hunk_views, hunks_at, hunks_seq_wf, new_side, Hunk, HunkV, LineV};
use crate::render::{header_of, line_bytes};

verus! {

/// Unchanged base lines in `[lo, hi)` as context lines.
pub open spec fn ctx_lines(base: Seq<Seq<u8>>, lo: int, hi: int) -> Seq<LineV> {
    Seq::new(if hi >= lo {
        (hi - lo) as nat
    } else {
        0
    }, |t: int| LineV::Context(base[lo + t]))
}

/// The rejected hunk for a conflicting side-two group: the group's own
/// deletion and addition lines, wrapped in up to `ctx` unchanged base lines
/// on each side, clipped to `[prev2, next2)`.
pub open spec fn conflict_hunk(
    base: Seq<Seq<u8>>,
    h2: HunkV,
    prev2: int,
    next2: int,
    ctx: int,
) -> HunkV {
    let s2 = h2.old_start;
    let e2 = h2.old_start + h2.old_len;
    let clo = if s2 - ctx > prev2 {
        s2 - ctx
    } else {
        prev2
    };
    let chi = if e2 + ctx < next2 {
        e2 + ctx
    } else {
        next2
    };
    HunkV {
        old_start: clo,
        old_len: chi - clo,
        new_start: h2.new_start - (s2 - clo),
        new_len: (s2 - clo) + h2.new_len + (chi - e2),
        lines: ctx_lines(base, clo, s2) + h2.lines + ctx_lines(base, e2, chi),
    }
}

/// The start of the next side-two group, used to clip conflict context.
pub open spec fn next2_of(g2: Seq<HunkV>, base_len: int) -> int {
    if g2.len() > 0 {
        g2[0].old_start
    } else {
        base_len
    }
}

/// The merge walk over base positions. `bo` is the base cursor, `prev2` the
/// end of the last consumed side-two group. Returns the accepted lines from
/// `bo` on and the rejected (conflict) hunks.
pub open spec fn merge_walk(
    base: Seq<Seq<u8>>,
    g1: Seq<HunkV>,
    g2: Seq<HunkV>,
    bo: int,
    prev2: int,
    ctx: int,
) -> (Seq<Seq<u8>>, Seq<HunkV>)
    decreases g1.len() + g2.len(),
{
    if g1.len() == 0 && g2.len() == 0 {
        (base.skip(bo), Seq::empty())
    } else if g2.len() > 0 && g2[0].old_start < bo {
        // a side-two group inside a region the accepted output already
        // carries in side one's version: a conflict
        let h2 = g2[0];
        let rest = merge_walk(base, g1, g2.drop_first(), bo, h2.old_start + h2.old_len, ctx);
        (
            rest.0,
            seq![conflict_hunk(base, h2, prev2, next2_of(g2.drop_first(), base.len() as int), ctx)]
                + rest.1,
        )
    } else if g2.len() == 0 {
        let h1 = g1[0];
        let rest = merge_walk(base, g1.drop_first(), g2, h1.old_start + h1.old_len, prev2, ctx);
        (base.subrange(bo, h1.old_start) + new_side(h1.lines) + rest.0, rest.1)
    } else if g1.len() == 0 {
        let h2 = g2[0];
        let rest = merge_walk(base, g1, g2.drop_first(), h2.old_start + h2.old_len, h2.old_start
            + h2.old_len, ctx);
        (base.subrange(bo, h2.old_start) + new_side(h2.lines) + rest.0, rest.1)
    } else {
        let h1 = g1[0];
        let h2 = g2[0];
        let e1 = h1.old_start + h1.old_len;
        let e2 = h2.old_start + h2.old_len;
        if h1.old_start == h2.old_start && h1.old_len == h2.old_len {
            if new_side(h1.lines) == new_side(h2.lines) {
                // both sides changed this region identically: take it once
                let rest = merge_walk(base, g1.drop_first(), g2.drop_first(), e1, e2, ctx);
                (base.subrange(bo, h1.old_start) + new_side(h1.lines) + rest.0, rest.1)
            } else {
                // same region, different results: keep side one, reject side two
                let rest = merge_walk(base, g1.drop_first(), g2.drop_first(), e1, e2, ctx);
                (
                    base.subrange(bo, h1.old_start) + new_side(h1.lines) + rest.0,
                    seq![
                        conflict_hunk(
                            base,
                            h2,
                            prev2,
                            next2_of(g2.drop_first(), base.len() as int),
                            ctx,
                        ),
                    ] + rest.1,
                )
            }
        } else if e1 <= h2.old_start {
            // side one's change comes first, untouched by side two
            let rest = merge_walk(base, g1.drop_first(), g2, e1, prev2, ctx);
            (base.subrange(bo, h1.old_start) + new_side(h1.lines) + rest.0, rest.1)
        } else if e2 <= h1.old_start {
            // side two's change comes first, untouched by side one
            let rest = merge_walk(base, g1, g2.drop_first(), e2, e2, ctx);
            (base.subrange(bo, h2.old_start) + new_side(h2.lines) + rest.0, rest.1)
        } else {
            // overlapping changes: keep side one's, reject side two's
            let rest = merge_walk(base, g1.drop_first(), g2.drop_first(), e1, e2, ctx);
            (
                base.subrange(bo, h1.old_start) + new_side(h1.lines) + rest.0,
                seq![
                    conflict_hunk(base, h2, prev2, next2_of(g2.drop_first(), base.len() as int), ctx),
                ] + rest.1,
            )
        }
    }
}

/// The change groups of the canonical script from `a` to `b`: its maximal
/// change runs as context-free hunks over base coordinates.
pub open spec fn spec_groups(a: Seq<Seq<u8>>, b: Seq<Seq<u8>>) -> Seq<HunkV> {
    let s = crate::script::spec_script(a, b);
    hunks_at(s, a, b, crate::hunk::runs_from(s, 0))
}

/// The accepted lines and rejected hunks of the three-way merge of `d1` and
/// `d2` against `base`.
pub open spec fn spec_merge(base: Seq<Seq<u8>>, d1: Seq<Seq<u8>>, d2: Seq<Seq<u8>>, ctx: int) -> (
    Seq<Seq<u8>>,
    Seq<HunkV>,
) {
    merge_walk(base, spec_groups(base, d1), spec_groups(base, d2), 0, 0, ctx)
}

/// The chunk stream of rejected hunks: per hunk its header, then one chunk
/// per line carrying tag and content together.
pub open spec fn reject_line_chunks(ls: Seq<LineV>) -> Seq<Seq<u8>> {
    Seq::new(ls.len(), |i: int| line_bytes(ls[i]))
}

pub open spec fn reject_hunk_chunks(h: HunkV) -> Seq<Seq<u8>> {
    seq![header_of(h)] + reject_line_chunks(h.lines)
}

pub open spec fn reject_chunks(hs: Seq<HunkV>) -> Seq<Seq<u8>>
    decreases hs.len(),
{
    if hs.len() == 0 {
        Seq::empty()
    } else {
        reject_hunk_chunks(hs.first()) + reject_chunks(hs.drop_first())
    }
}

pub proof fn lemma_reject_chunks_snoc(hs: Seq<HunkV>, h: HunkV)
    ensures
        reject_chunks(hs.push(h)) == reject_chunks(hs) + reject_hunk_chunks(h),
    decreases hs.len(),
{
    if hs.len() == 0 {
        assert(hs.push(h).first() == h);
        assert(hs.push(h).drop_first() =~= Seq::<HunkV>::empty());
        assert(reject_chunks(Seq::<HunkV>::empty()) == Seq::<Seq<u8>>::empty());
        assert(reject_chunks(hs.push(h)) =~= reject_chunks(hs) + reject_hunk_chunks(h));
    } else {
        assert(hs.push(h).first() == hs.first());
        assert(hs.push(h).drop_first() =~= hs.drop_first().push(h));
        lemma_reject_chunks_snoc(hs.drop_first(), h);
        assert(reject_chunks(hs.push(h)) =~= reject_chunks(hs) + reject_hunk_chunks(h));
    }
}

/// A merge of a side against itself: with both group lists equal and tiling
/// the side, every region resolves identically and the merge is that side.
pub proof fn lemma_merge_walk_same(
    base: Seq<Seq<u8>>,
    g: Seq<HunkV>,
    d: Seq<Seq<u8>>,
    bo: int,
    no: int,
    prev2: int,
    ctx: int,
)
    requires
        hunks_seq_wf(g, base, d, bo, no),
    ensures
        merge_walk(base, g, g, bo, prev2, ctx) == (d.skip(no), Seq::<HunkV>::empty()),
    decreases g.len(),
{
    if g.len() == 0 {
        assert(base.skip(bo) =~= base.subrange(bo, base.len() as int));
        assert(d.skip(no) =~= d.subrange(no, d.len() as int));
    } else {
        let h = g[0];
        let e1 = h.old_start + h.old_len;
        lemma_merge_walk_same(base, g.drop_first(), d, e1, h.new_start + h.new_len, e1, ctx);
        let out = base.subrange(bo, h.old_start) + new_side(h.lines) + d.skip(
            h.new_start + h.new_len,
        );
        assert(out =~= d.skip(no)) by {
            assert(base.subrange(bo, h.old_start) == d.subrange(no, h.new_start));
            assert(new_side(h.lines) == d.subrange(h.new_start, h.new_start + h.new_len));
            assert(d.subrange(no, h.new_start) + d.subrange(h.new_start, h.new_start + h.new_len)
                + d.skip(h.new_start + h.new_len) =~= d.skip(no));
        }
    }
}

/// Builds the rejected hunk for one conflicting side-two group.
fn conflict_hunk_exec(
    la: &Vec<Vec<u8>>,
    h2: &Hunk,
    prev2: usize,
    next2: usize,
    ctx: usize,
) -> (r: Hunk)
    requires
        prev2 <= h2@.old_start,
        h2@.old_start + h2@.old_len <= next2,
        next2 <= la@.len(),
        h2@.new_start >= h2@.old_start - prev2,
        h2@.new_start + h2@.new_len + (next2 - (h2@.old_start + h2@.old_len)) <= usize::MAX,
    ensures
        r@ == conflict_hunk(
            crate::lines::views_of(la@),
            h2@,
            prev2 as int,
            next2 as int,
            ctx as int,
        ),
        crate::render::hunk_starts_fit(r@),
{
    let ghost av = crate::lines::views_of(la@);
    let la_len = la.len();
    let s2 = h2.old_start;
    let e2 = h2.old_start + h2.old_len;
    let clo = if s2 >= ctx && s2 - ctx > prev2 {
        s2 - ctx
    } else {
        prev2
    };
    let chi = match e2.checked_add(ctx) {
        Some(x) => {
            if x < next2 {
                x
            } else {
                next2
            }
        },
        None => next2,
    };
    let mut lines: Vec<crate::hunk::HunkLine> = Vec::new();
    let mut t: usize = clo;
    proof {
        assert(crate::hunk::line_views(lines@) =~= ctx_lines(av, clo as int, clo as int));
    }
    while t < s2
        invariant
            clo <= t <= s2,
            s2 <= next2 <= la@.len(),
            av == crate::lines::views_of(la@),
            crate::hunk::line_views(lines@) == ctx_lines(av, clo as int, t as int),
        decreases s2 - t,
    {
        let ghost pre = crate::hunk::line_views(lines@);
        lines.push(crate::hunk::HunkLine::Context(vstd::slice::slice_to_vec(la[t].as_slice())));
        t = t + 1;
        proof {
            assert(la@[t as int - 1]@ == av[t as int - 1]);
            assert(crate::hunk::line_views(lines@) =~= pre.push(
                LineV::Context(av[t as int - 1]),
            ));
            assert(crate::hunk::line_views(lines@) =~= ctx_lines(av, clo as int, t as int));
        }
    }
    let mut j: usize = 0;
    let ghost front = ctx_lines(av, clo as int, s2 as int);
    while j < h2.lines.len()
        invariant
            0 <= j <= h2.lines@.len(),
            crate::hunk::line_views(lines@) == front + crate::hunk::line_views(h2.lines@).take(
                j as int,
            ),
        decreases h2.lines@.len() - j,
    {
        let ghost pre = crate::hunk::line_views(lines@);
        match &h2.lines[j] {
            crate::hunk::HunkLine::Context(c) => {
                lines.push(crate::hunk::HunkLine::Context(vstd::slice::slice_to_vec(c.as_slice())));
            },
            crate::hunk::HunkLine::Deleted(c) => {
                lines.push(crate::hunk::HunkLine::Deleted(vstd::slice::slice_to_vec(c.as_slice())));
            },
            crate::hunk::HunkLine::Added(c) => {
                lines.push(crate::hunk::HunkLine::Added(vstd::slice::slice_to_vec(c.as_slice())));
            },
        }
        j = j + 1;
        proof {
            let hv = crate::hunk::line_views(h2.lines@);
            assert(hv[j as int - 1] == h2.lines@[j as int - 1]@);
            assert(hv.take(j as int) =~= hv.take(j as int - 1).push(hv[j as int - 1]));
            assert(crate::hunk::line_views(lines@) =~= pre.push(hv[j as int - 1]));
            assert(crate::hunk::line_views(lines@) =~= front + hv.take(j as int));
        }
    }
    proof {
        let hv = crate::hunk::line_views(h2.lines@);
        assert(hv.take(h2.lines@.len() as int) =~= hv);
        assert(hv =~= h2@.lines);
    }
    let ghost mid = front + h2@.lines;
    let mut t2: usize = e2;
    proof {
        assert(ctx_lines(av, e2 as int, e2 as int) =~= Seq::<LineV>::empty());
        assert(crate::hunk::line_views(lines@) =~= mid + ctx_lines(av, e2 as int, e2 as int));
    }
    while t2 < chi
        invariant
            e2 <= t2 <= chi,
            chi <= next2 <= la@.len(),
            av == crate::lines::views_of(la@),
            crate::hunk::line_views(lines@) == mid + ctx_lines(av, e2 as int, t2 as int),
        decreases chi - t2,
    {
        let ghost pre = crate::hunk::line_views(lines@);
        lines.push(crate::hunk::HunkLine::Context(vstd::slice::slice_to_vec(la[t2].as_slice())));
        t2 = t2 + 1;
        proof {
            assert(la@[t2 as int - 1]@ == av[t2 as int - 1]);
            assert(crate::hunk::line_views(lines@) =~= pre.push(
                LineV::Context(av[t2 as int - 1]),
            ));
            assert(crate::hunk::line_views(lines@) =~= mid + ctx_lines(av, e2 as int, t2 as int));
        }
    }
    let r = Hunk {
        old_start: clo,
        old_len: chi - clo,
        new_start: h2.new_start - (s2 - clo),
        new_len: (s2 - clo) + h2.new_len + (chi - e2),
        lines,
    };
    proof {
        let cspec = conflict_hunk(av, h2@, prev2 as int, next2 as int, ctx as int);
        assert(r@.lines =~= cspec.lines);
        assert(r@ =~= cspec);
    }
    r
}

/// Walks two group lists over the base, building the accepted lines and the
/// rejected hunks exactly as [`merge_walk`] describes.
#[verifier::rlimit(60)]
fn merge_walk_exec(
    la: &Vec<Vec<u8>>,
    g1: &Vec<Hunk>,
    g2: &Vec<Hunk>,
    ctx: usize,
    Ghost(d1v): Ghost<Seq<Seq<u8>>>,
    Ghost(d2v): Ghost<Seq<Seq<u8>>>,
) -> (r: (Vec<Vec<u8>>, Vec<Hunk>))
    requires
        hunks_seq_wf(hunk_views(g1@), crate::lines::views_of(la@), d1v, 0, 0),
        hunks_seq_wf(hunk_views(g2@), crate::lines::views_of(la@), d2v, 0, 0),
        d1v.len() <= usize::MAX,
        d2v.len() <= usize::MAX,
    ensures
        crate::lines::views_of(r.0@) == merge_walk(
            crate::lines::views_of(la@),
            hunk_views(g1@),
            hunk_views(g2@),
            0,
            0,
            ctx as int,
        ).0,
        hunk_views(r.1@) == merge_walk(
            crate::lines::views_of(la@),
            hunk_views(g1@),
            hunk_views(g2@),
            0,
            0,
            ctx as int,
        ).1,
        forall|x: int| 0 <= x < r.1@.len() ==> crate::render::hunk_starts_fit(#[trigger] r.1@[x]@),
{
    let ghost av = crate::lines::views_of(la@);
    let ghost g1v = hunk_views(g1@);
    let ghost g2v = hunk_views(g2@);
    let la_len = la.len();
    let mut acc: Vec<Vec<u8>> = Vec::new();
    let mut rej: Vec<Hunk> = Vec::new();
    let mut i1: usize = 0;
    let mut i2: usize = 0;
    let mut bo: usize = 0;
    let mut prev2: usize = 0;
    let ghost walk0 = merge_walk(av, g1v, g2v, 0, 0, ctx as int);
    let mut b1o: Ghost<int> = Ghost(0int);
    let mut n1o: Ghost<int> = Ghost(0int);
    let mut n2o: Ghost<int> = Ghost(0int);
    proof {
        assert(g1v.skip(0) =~= g1v);
        assert(g2v.skip(0) =~= g2v);
        assert(crate::lines::views_of(acc@) =~= Seq::<Seq<u8>>::empty());
        assert(hunk_views(rej@) =~= Seq::<HunkV>::empty());
        assert(Seq::<Seq<u8>>::empty() + walk0.0 =~= walk0.0);
        assert(Seq::<HunkV>::empty() + walk0.1 =~= walk0.1);
    }
    while i1 < g1.len() || i2 < g2.len()
        invariant
            0 <= i1 <= g1@.len(),
            0 <= i2 <= g2@.len(),
            la_len == la@.len(),
            av == crate::lines::views_of(la@),
            g1v == hunk_views(g1@),
            g2v == hunk_views(g2@),
            walk0 == merge_walk(av, g1v, g2v, 0, 0, ctx as int),
            bo <= la@.len(),
            d1v.len() <= usize::MAX,
            d2v.len() <= usize::MAX,
            hunks_seq_wf(g1v.skip(i1 as int), av, d1v, b1o@, n1o@),
            hunks_seq_wf(g2v.skip(i2 as int), av, d2v, prev2 as int, n2o@),
            g1v.skip(i1 as int).len() > 0 ==> bo as int <= g1v.skip(i1 as int)[0].old_start,
            prev2 <= la@.len(),
            walk0.0 == crate::lines::views_of(acc@) + merge_walk(
                av,
                g1v.skip(i1 as int),
                g2v.skip(i2 as int),
                bo as int,
                prev2 as int,
                ctx as int,
            ).0,
            walk0.1 == hunk_views(rej@) + merge_walk(
                av,
                g1v.skip(i1 as int),
                g2v.skip(i2 as int),
                bo as int,
                prev2 as int,
                ctx as int,
            ).1,
            forall|x: int|
                0 <= x < rej@.len() ==> crate::render::hunk_starts_fit(#[trigger] rej@[x]@),
        decreases g1@.len() - i1 + g2@.len() - i2,
    {
        let ghost rem1 = g1v.skip(i1 as int);
        let ghost rem2 = g2v.skip(i2 as int);
        let ghost walk = merge_walk(av, rem1, rem2, bo as int, prev2 as int, ctx as int);
        proof {
            if i1 < g1@.len() {
                assert(rem1[0] == g1v[i1 as int]);
                assert(g1v[i1 as int] == g1@[i1 as int]@);
                assert(rem1.drop_first() =~= g1v.skip(i1 as int + 1));
            }
            if i2 < g2@.len() {
                assert(rem2[0] == g2v[i2 as int]);
                assert(g2v[i2 as int] == g2@[i2 as int]@);
                assert(rem2.drop_first() =~= g2v.skip(i2 as int + 1));
            }
        }
        if i2 < g2.len() && g2[i2].old_start < bo {
            // stale side-two group: its base region was already resolved to
            // side one's content
            let h2 = &g2[i2];
            let e2 = h2.old_start + h2.old_len;
            let next2 = if i2 + 1 < g2.len() {
                g2[i2 + 1].old_start
            } else {
                la_len
            };
            proof {
                assert(hunks_seq_wf(g2v.skip(i2 as int + 1), av, d2v, h2@.old_start + h2@.old_len,
                    h2@.new_start + h2@.new_len));
                if i2 as int + 1 < g2v.len() {
                    assert(g2v.skip(i2 as int + 1)[0] == g2v[i2 as int + 1]);
                }
                assert(next2 as int == next2_of(rem2.drop_first(), av.len() as int));
                assert(h2@.new_start + h2@.new_len + (next2 - (h2@.old_start + h2@.old_len))
                    <= d2v.len());
            }
            let ch = conflict_hunk_exec(la, h2, prev2, next2, ctx);
            let ghost prerej = hunk_views(rej@);
            rej.push(ch);
            prev2 = e2;
            proof {
                n2o@ = h2@.new_start + h2@.new_len;
            }
            i2 = i2 + 1;
            proof {
                assert(hunk_views(rej@) =~= prerej.push(ch@));
                assert(walk.0 == merge_walk(
                    av,
                    g1v.skip(i1 as int),
                    g2v.skip(i2 as int),
                    bo as int,
                    prev2 as int,
                    ctx as int,
                ).0);
                assert(walk.1 =~= seq![ch@] + merge_walk(
                    av,
                    g1v.skip(i1 as int),
                    g2v.skip(i2 as int),
                    bo as int,
                    prev2 as int,
                    ctx as int,
                ).1);
                assert(prerej + (seq![ch@] + merge_walk(
                    av,
                    g1v.skip(i1 as int),
                    g2v.skip(i2 as int),
                    bo as int,
                    prev2 as int,
                    ctx as int,
                ).1) =~= hunk_views(rej@) + merge_walk(
                    av,
                    g1v.skip(i1 as int),
                    g2v.skip(i2 as int),
                    bo as int,
                    prev2 as int,
                    ctx as int,
                ).1);
            }
        } else {
            // decide which side's head region comes next
            let take1: bool;
            let identical: bool;
            let conflict: bool;
            if i2 >= g2.len() {
                take1 = true;
                identical = false;
                conflict = false;
            } else if i1 >= g1.len() {
                take1 = false;
                identical = false;
                conflict = false;
            } else {
                let h1 = &g1[i1];
                let h2 = &g2[i2];
                let e1 = h1.old_start + h1.old_len;
                let e2 = h2.old_start + h2.old_len;
                if h1.old_start == h2.old_start && h1.old_len == h2.old_len {
                    let ns1 = crate::patch::new_side_exec(&h1.lines);
                    let ns2 = crate::patch::new_side_exec(&h2.lines);
                    let mut same: bool = ns1.len() == ns2.len();
                    let mut y: usize = 0;
                    if same {
                        while y < ns1.len()
                            invariant
                                0 <= y <= ns1@.len(),
                                ns1@.len() == ns2@.len(),
                                same <==> (forall|z: int|
                                    0 <= z < y ==> crate::lines::views_of(ns1@)[z]
                                        == crate::lines::views_of(ns2@)[z]),
                            decreases ns1@.len() - y,
                        {
                            let eqz = ns1[y] == ns2[y];
                            proof {
                                if eqz {
                                    assert(crate::lines::views_of(ns1@)[y as int]
                                        =~= crate::lines::views_of(ns2@)[y as int]);
                                } else {
                                    assert(crate::lines::views_of(ns1@)[y as int]
                                        != crate::lines::views_of(ns2@)[y as int]);
                                }
                            }
                            if !eqz {
                                same = false;
                            }
                            y = y + 1;
                        }
                    }
                    proof {
                        if same && ns1@.len() == ns2@.len() {
                            assert(crate::lines::views_of(ns1@) =~= crate::lines::views_of(ns2@));
                        } else if !same && ns1@.len() == ns2@.len() {
                            let z0 = choose|z: int|
                                0 <= z < ns1@.len() && crate::lines::views_of(ns1@)[z]
                                    != crate::lines::views_of(ns2@)[z];
                            assert(crate::lines::views_of(ns1@)[z0] != crate::lines::views_of(
                                ns2@,
                            )[z0]);
                        }
                        assert(same <==> new_side(h1@.lines) == new_side(h2@.lines));
                    }
                    take1 = true;
                    identical = same;
                    conflict = !same;
                } else if e1 <= h2.old_start {
                    take1 = true;
                    identical = false;
                    conflict = false;
                } else if e2 <= h1.old_start {
                    take1 = false;
                    identical = false;
                    conflict = false;
                } else {
                    take1 = true;
                    identical = false;
                    conflict = true;
                }
            }
            // emit the chosen side's gap and replacement lines
            let h: &Hunk = if take1 {
                &g1[i1]
            } else {
                &g2[i2]
            };
            proof {
                if take1 {
                    assert(h@ == rem1[0]);
                } else {
                    assert(h@ == rem2[0]);
                }
                assert(bo <= h@.old_start);
                assert(h@.old_start + h@.old_len <= av.len());
            }
            let ghost preacc = crate::lines::views_of(acc@);
            let ghost bo0 = bo as int;
            while bo < h.old_start
                invariant
                    0 <= bo0 <= bo <= h@.old_start,
                    h@.old_start + h@.old_len <= av.len(),
                    la_len == la@.len(),
                    av == crate::lines::views_of(la@),
                    crate::lines::views_of(acc@) == preacc + av.subrange(bo0, bo as int),
                decreases h@.old_start - bo,
            {
                let ghost preout = crate::lines::views_of(acc@);
                acc.push(vstd::slice::slice_to_vec(la[bo].as_slice()));
                bo = bo + 1;
                proof {
                    assert(la@[bo as int - 1]@ == av[bo as int - 1]);
                    assert(crate::lines::views_of(acc@) =~= preout.push(av[bo as int - 1]));
                    assert(av.subrange(bo0, bo as int) =~= av.subrange(bo0, bo as int - 1).push(
                        av[bo as int - 1],
                    ));
                    assert(crate::lines::views_of(acc@) =~= preacc + av.subrange(bo0, bo as int));
                }
            }
            let nsl = crate::patch::new_side_exec(&h.lines);
            let ghost midacc = crate::lines::views_of(acc@);
            let mut t: usize = 0;
            while t < nsl.len()
                invariant
                    0 <= t <= nsl@.len(),
                    crate::lines::views_of(nsl@) == new_side(h@.lines),
                    crate::lines::views_of(acc@) == midacc + new_side(h@.lines).take(t as int),
                decreases nsl@.len() - t,
            {
                let ghost preout = crate::lines::views_of(acc@);
                acc.push(vstd::slice::slice_to_vec(nsl[t].as_slice()));
                t = t + 1;
                proof {
                    let nsv = new_side(h@.lines);
                    assert(nsl@[t as int - 1]@ == crate::lines::views_of(nsl@)[t as int - 1]);
                    assert(crate::lines::views_of(acc@) =~= preout.push(nsv[t as int - 1]));
                    assert(nsv.take(t as int) =~= nsv.take(t as int - 1).push(nsv[t as int - 1]));
                    assert(crate::lines::views_of(acc@) =~= midacc + nsv.take(t as int));
                }
            }
            proof {
                let nsv = new_side(h@.lines);
                assert(nsv.take(nsl@.len() as int) =~= nsv);
                assert(crate::lines::views_of(acc@) =~= preacc + av.subrange(bo0, h@.old_start)
                    + nsv);
            }
            // consume the involved groups and, on a conflict, reject side two's
            if take1 {
                let e1 = h.old_start + h.old_len;
                if identical || conflict {
                    let h2 = &g2[i2];
                    let e2 = h2.old_start + h2.old_len;
                    if conflict {
                        let next2 = if i2 + 1 < g2.len() {
                            g2[i2 + 1].old_start
                        } else {
                            la_len
                        };
                        proof {
                            assert(hunks_seq_wf(g2v.skip(i2 as int + 1), av, d2v, h2@.old_start
                                + h2@.old_len, h2@.new_start + h2@.new_len));
                            if i2 as int + 1 < g2v.len() {
                                assert(g2v.skip(i2 as int + 1)[0] == g2v[i2 as int + 1]);
                            }
                            assert(next2 as int == next2_of(rem2.drop_first(), av.len() as int));
                            assert(h2@.new_start + h2@.new_len + (next2 - (h2@.old_start
                                + h2@.old_len)) <= d2v.len());
                        }
                        let ch = conflict_hunk_exec(la, h2, prev2, next2, ctx);
                        let ghost prerej = hunk_views(rej@);
                        rej.push(ch);
                        proof {
                            assert(hunk_views(rej@) =~= prerej.push(ch@));
                            assert(walk.1 =~= seq![ch@] + merge_walk(
                                av,
                                g1v.skip(i1 as int + 1),
                                g2v.skip(i2 as int + 1),
                                e1 as int,
                                e2 as int,
                                ctx as int,
                            ).1);
                            assert(prerej + walk.1 =~= hunk_views(rej@) + merge_walk(
                                av,
                                g1v.skip(i1 as int + 1),
                                g2v.skip(i2 as int + 1),
                                e1 as int,
                                e2 as int,
                                ctx as int,
                            ).1);
                        }
                    }
                    prev2 = e2;
                    proof {
                        n2o@ = h2@.new_start + h2@.new_len;
                    }
                    i2 = i2 + 1;
                }
                proof {
                    b1o@ = h@.old_start + h@.old_len;
                    n1o@ = h@.new_start + h@.new_len;
                }
                bo = e1;
                i1 = i1 + 1;
                proof {
                    assert(hunks_seq_wf(g1v.skip(i1 as int), av, d1v, b1o@, n1o@));
                    if g1v.skip(i1 as int).len() > 0 {
                        assert(g1v.skip(i1 as int)[0] == g1v[i1 as int]);
                        assert(bo as int <= g1v.skip(i1 as int)[0].old_start);
                    }
                }
            } else {
                let e2 = h.old_start + h.old_len;
                prev2 = e2;
                proof {
                    n2o@ = h@.new_start + h@.new_len;
                }
                bo = e2;
                i2 = i2 + 1;
            }
            proof {
                let walknew = merge_walk(
                    av,
                    g1v.skip(i1 as int),
                    g2v.skip(i2 as int),
                    bo as int,
                    prev2 as int,
                    ctx as int,
                );
                assert(walk.0 =~= av.subrange(bo0, h@.old_start) + new_side(h@.lines)
                    + walknew.0);
                assert(preacc + walk.0 =~= crate::lines::views_of(acc@) + walknew.0);
                if !conflict {
                    assert(walk.1 == walknew.1);
                }
            }
        }
    }
    proof {
        assert(g1v.skip(i1 as int) =~= Seq::<HunkV>::empty());
        assert(g2v.skip(i2 as int) =~= Seq::<HunkV>::empty());
        assert(merge_walk(av, g1v.skip(i1 as int), g2v.skip(i2 as int), bo as int, prev2 as int,
            ctx as int).0 == av.skip(bo as int));
        assert(merge_walk(av, g1v.skip(i1 as int), g2v.skip(i2 as int), bo as int, prev2 as int,
            ctx as int).1 == Seq::<HunkV>::empty());
    }
    let ghost preacc = crate::lines::views_of(acc@);
    let ghost cmid = bo as int;
    while bo < la.len()
        invariant
            0 <= cmid <= bo <= la@.len(),
            la_len == la@.len(),
            av == crate::lines::views_of(la@),
            crate::lines::views_of(acc@) == preacc + av.subrange(cmid, bo as int),
        decreases la@.len() - bo,
    {
        let ghost preout = crate::lines::views_of(acc@);
        acc.push(vstd::slice::slice_to_vec(la[bo].as_slice()));
        bo = bo + 1;
        proof {
            assert(la@[bo as int - 1]@ == av[bo as int - 1]);
            assert(crate::lines::views_of(acc@) =~= preout.push(av[bo as int - 1]));
            assert(av.subrange(cmid, bo as int) =~= av.subrange(cmid, bo as int - 1).push(
                av[bo as int - 1],
            ));
            assert(crate::lines::views_of(acc@) =~= preacc + av.subrange(cmid, bo as int));
        }
    }
    proof {
        assert(av.subrange(cmid, la@.len() as int) =~= av.skip(cmid));
        assert(crate::lines::views_of(acc@) =~= walk0.0);
        assert(hunk_views(rej@) + Seq::<HunkV>::empty() =~= hunk_views(rej@));
    }
    (acc, rej)
}

/// Renders rejected hunks as chunks: per hunk its header, then one chunk
/// per line carrying tag and content together.
pub fn render_reject_chunks(hunks: &Vec<Hunk>) -> (r: Vec<Vec<u8>>)
    requires
        forall|i: int|
            0 <= i < hunks@.len() ==> crate::render::hunk_starts_fit(#[trigger] hunks@[i]@),
    ensures
        crate::lines::views_of(r@) == reject_chunks(hunk_views(hunks@)),
{
    let ghost hv = hunk_views(hunks@);
    let mut out: Vec<Vec<u8>> = Vec::new();
    let mut i: usize = 0;
    proof {
        assert(hv.take(0) =~= Seq::<HunkV>::empty());
        assert(crate::lines::views_of(out@) =~= reject_chunks(hv.take(0)));
    }
    while i < hunks.len()
        invariant
            0 <= i <= hunks@.len(),
            hv == hunk_views(hunks@),
            forall|x: int|
                0 <= x < hunks@.len() ==> crate::render::hunk_starts_fit(#[trigger] hunks@[x]@),
            crate::lines::views_of(out@) == reject_chunks(hv.take(i as int)),
        decreases hunks@.len() - i,
    {
        let h = &hunks[i];
        proof {
            assert(crate::render::hunk_starts_fit(hunks@[i as int]@));
        }
        let ghost pre = crate::lines::views_of(out@);
        let hdr = crate::render::header_bytes(h);
        out.push(hdr);
        proof {
            assert(crate::lines::views_of(out@) =~= pre.push(header_of(h@)));
            assert(h@.lines.take(0) =~= Seq::<LineV>::empty());
            assert(reject_line_chunks(h@.lines.take(0)) =~= Seq::<Seq<u8>>::empty());
            assert(crate::lines::views_of(out@) =~= pre + seq![header_of(h@)]
                + reject_line_chunks(h@.lines.take(0)));
        }
        let mut j: usize = 0;
        while j < h.lines.len()
            invariant
                0 <= j <= h.lines@.len(),
                h@.lines.len() == h.lines@.len(),
                crate::lines::views_of(out@) == pre + seq![header_of(h@)] + reject_line_chunks(
                    h@.lines.take(j as int),
                ),
            decreases h.lines@.len() - j,
        {
            let ghost mid = crate::lines::views_of(out@);
            let ghost lv = h@.lines[j as int];
            let mut chunk: Vec<u8> = Vec::new();
            match &h.lines[j] {
                crate::hunk::HunkLine::Context(c) => {
                    chunk.push(32);
                    chunk.extend_from_slice(c.as_slice());
                },
                crate::hunk::HunkLine::Deleted(c) => {
                    chunk.push(45);
                    chunk.extend_from_slice(c.as_slice());
                },
                crate::hunk::HunkLine::Added(c) => {
                    chunk.push(43);
                    chunk.extend_from_slice(c.as_slice());
                },
            }
            proof {
                assert(h.lines@[j as int]@ == lv);
                assert(chunk@ =~= line_bytes(lv));
            }
            out.push(chunk);
            j = j + 1;
            proof {
                assert(crate::lines::views_of(out@) =~= mid.push(line_bytes(lv)));
                assert(reject_line_chunks(h@.lines.take(j as int)) =~= reject_line_chunks(
                    h@.lines.take(j as int - 1),
                ).push(line_bytes(lv)));
                assert(crate::lines::views_of(out@) =~= pre + seq![header_of(h@)]
                    + reject_line_chunks(h@.lines.take(j as int)));
            }
        }
        i = i + 1;
        proof {
            assert(h@.lines.take(h.lines@.len() as int) =~= h@.lines);
            assert(crate::lines::views_of(out@) =~= pre + reject_hunk_chunks(h@));
            assert(hv.take(i as int) =~= hv.take(i as int - 1).push(h@));
            lemma_reject_chunks_snoc(hv.take(i as int - 1), h@);
            assert(crate::lines::views_of(out@) =~= reject_chunks(hv.take(i as int)));
        }
    }
    proof {
        assert(hv.take(i as int) =~= hv);
    }
    out
}

/// Computes the three-way merge, producing the accepted lines and the
/// rejected hunks of [`spec_merge`].
pub fn merge_groups(
    base: &Vec<Vec<u8>>,
    l1: &Vec<Vec<u8>>,
    l2: &Vec<Vec<u8>>,
    ctx: usize,
) -> (r: Result<(Vec<Vec<u8>>, Vec<Hunk>), crate::XdiffError>)
    ensures
        r is Ok <==> ((base@.len() + 1) * (l1@.len() + 1) <= usize::MAX && (base@.len() + 1) * (
        l2@.len() + 1) <= usize::MAX),
        r matches Err(e) ==> e == crate::XdiffError::AllocationFailure,
        r matches Ok(p) ==> crate::lines::views_of(p.0@) == spec_merge(
            crate::lines::views_of(base@),
            crate::lines::views_of(l1@),
            crate::lines::views_of(l2@),
            ctx as int,
        ).0 && hunk_views(p.1@) == spec_merge(
            crate::lines::views_of(base@),
            crate::lines::views_of(l1@),
            crate::lines::views_of(l2@),
            ctx as int,
        ).1 && (forall|x: int|
            0 <= x < p.1@.len() ==> crate::render::hunk_starts_fit(#[trigger] p.1@[x]@)),
{
    let ghost bv = crate::lines::views_of(base@);
    let ghost d1v = crate::lines::views_of(l1@);
    let ghost d2v = crate::lines::views_of(l2@);
    let base_n = base.len();
    let l1_n = l1.len();
    let l2_n = l2.len();
    proof {
        assert(bv.len() == base@.len() == base_n as int);
        assert(d1v.len() == l1@.len() == l1_n as int);
        assert(d2v.len() == l2@.len() == l2_n as int);
    }
    let s1 = match crate::script::compute_script(base, l1) {
        Ok(s) => s,
        Err(e) => {
            return Err(e);
        },
    };
    let s2 = match crate::script::compute_script(base, l2) {
        Ok(s) => s,
        Err(e) => {
            return Err(e);
        },
    };
    proof {
        crate::script::lemma_spec_script_fits(bv, d1v);
        crate::script::lemma_spec_script_fits(bv, d2v);
        crate::hunk::lemma_runs_from_wf(s1@, 0);
        crate::hunk::lemma_runs_from_wf(s2@, 0);
    }
    let runs1 = crate::hunk::find_runs(&s1);
    let runs2 = crate::hunk::find_runs(&s2);
    let g1 = crate::hunk::hunks_from_bounds(&s1, base, l1, &runs1);
    let g2 = crate::hunk::hunks_from_bounds(&s2, base, l2, &runs2);
    proof {
        crate::hunk::lemma_hunks_at_wf(s1@, bv, d1v, crate::hunk::bounds_view(runs1@), 0);
        crate::hunk::lemma_hunks_at_wf(s2@, bv, d2v, crate::hunk::bounds_view(runs2@), 0);
        assert(s1@.take(0) =~= Seq::<crate::script::Edit>::empty());
        assert(s2@.take(0) =~= Seq::<crate::script::Edit>::empty());
        assert(crate::script::old_pos(s1@, 0) == 0 && crate::script::new_pos(s1@, 0) == 0);
        assert(crate::script::old_pos(s2@, 0) == 0 && crate::script::new_pos(s2@, 0) == 0);
        assert(hunk_views(g1@) == spec_groups(bv, d1v));
        assert(hunk_views(g2@) == spec_groups(bv, d2v));
    }
    let acc_rej = merge_walk_exec(base, &g1, &g2, ctx, Ghost(d1v), Ghost(d2v));
    Ok(acc_rej)
}

/// The two group lists edit disjoint base regions: no two groups overlap
/// and no two cover the same (possibly empty) region.
pub open spec fn groups_disjoint(g1: Seq<HunkV>, g2: Seq<HunkV>) -> bool {
    forall|i: int, j: int|
        0 <= i < g1.len() && 0 <= j < g2.len() ==> ((#[trigger] g1[i]).old_start + g1[i].old_len
            <= (#[trigger] g2[j]).old_start || g2[j].old_start + g2[j].old_len <= g1[i].old_start)
            && !(g1[i].old_start == g2[j].old_start && g1[i].old_len == g2[j].old_len)
}

/// The two group lists interleaved in base order, earlier regions first.
pub open spec fn merge_sorted(g1: Seq<HunkV>, g2: Seq<HunkV>) -> Seq<HunkV>
    decreases g1.len() + g2.len(),
{
    if g1.len() == 0 {
        g2
    } else if g2.len() == 0 {
        g1
    } else if g1[0].old_start + g1[0].old_len <= g2[0].old_start {
        seq![g1[0]] + merge_sorted(g1.drop_first(), g2)
    } else {
        seq![g2[0]] + merge_sorted(g1, g2.drop_first())
    }
}

/// Merging edits to disjoint base regions accepts both sides' changes —
/// the result of applying the interleaved groups — and rejects nothing.
pub proof fn lemma_merge_walk_disjoint(
    base: Seq<Seq<u8>>,
    g1: Seq<HunkV>,
    d1: Seq<Seq<u8>>,
    g2: Seq<HunkV>,
    d2: Seq<Seq<u8>>,
    a1: int,
    n1: int,
    a2: int,
    n2: int,
    bo: int,
    prev2: int,
    ctx: int,
)
    requires
        hunks_seq_wf(g1, base, d1, a1, n1),
        hunks_seq_wf(g2, base, d2, a2, n2),
        groups_disjoint(g1, g2),
        0 <= bo,
        g1.len() > 0 ==> bo <= g1[0].old_start,
        g2.len() > 0 ==> bo <= g2[0].old_start,
    ensures
        merge_walk(base, g1, g2, bo, prev2, ctx) == (
            crate::patch::apply_from(merge_sorted(g1, g2), base, bo).0,
            Seq::<HunkV>::empty(),
        ),
        crate::patch::apply_from(merge_sorted(g1, g2), base, bo).1 == Seq::<HunkV>::empty(),
    decreases g1.len() + g2.len(),
{
    if g1.len() == 0 && g2.len() == 0 {
    } else if g2.len() == 0 {
        let h = g1[0];
        let e = h.old_start + h.old_len;
        assert(hunks_seq_wf(g1.drop_first(), base, d1, e, h.new_start + h.new_len));
        if g1.drop_first().len() > 0 {
            assert(e <= g1.drop_first()[0].old_start);
        }
        lemma_merge_walk_disjoint(
            base,
            g1.drop_first(),
            d1,
            g2,
            d2,
            e,
            h.new_start + h.new_len,
            a2,
            n2,
            e,
            prev2,
            ctx,
        );
        assert(merge_sorted(g1, g2) == g1);
        assert(merge_sorted(g1, g2)[0] == h);
        assert(merge_sorted(g1, g2).drop_first() =~= merge_sorted(g1.drop_first(), g2));
    } else if g1.len() == 0 {
        let h = g2[0];
        let e = h.old_start + h.old_len;
        assert forall|i: int, j: int|
            0 <= i < g1.len() && 0 <= j < g2.drop_first().len() implies ((
        #[trigger] g1[i]).old_start + g1[i].old_len <= (#[trigger] g2.drop_first()[j]).old_start
            || g2.drop_first()[j].old_start + g2.drop_first()[j].old_len <= g1[i].old_start) && !(
        g1[i].old_start == g2.drop_first()[j].old_start && g1[i].old_len
            == g2.drop_first()[j].old_len) by {
            assert(g2.drop_first()[j] == g2[j + 1]);
        }
        assert(hunks_seq_wf(g2.drop_first(), base, d2, e, h.new_start + h.new_len));
        if g2.drop_first().len() > 0 {
            assert(e <= g2.drop_first()[0].old_start);
        }
        lemma_merge_walk_disjoint(
            base,
            g1,
            d1,
            g2.drop_first(),
            d2,
            a1,
            n1,
            e,
            h.new_start + h.new_len,
            e,
            e,
            ctx,
        );
        assert(merge_sorted(g1, g2) == g2);
        assert(merge_sorted(g1, g2)[0] == h);
        assert(merge_sorted(g1, g2).drop_first() =~= merge_sorted(g1, g2.drop_first()));
    } else {
        let h1 = g1[0];
        let h2 = g2[0];
        let e1 = h1.old_start + h1.old_len;
        let e2 = h2.old_start + h2.old_len;
        assert(!(h1.old_start == h2.old_start && h1.old_len == h2.old_len));
        assert(e1 <= h2.old_start || e2 <= h1.old_start);
        if e1 <= h2.old_start {
            assert forall|i: int, j: int|
                0 <= i < g1.drop_first().len() && 0 <= j < g2.len() implies ((
            #[trigger] g1.drop_first()[i]).old_start + g1.drop_first()[i].old_len
                <= (#[trigger] g2[j]).old_start || g2[j].old_start + g2[j].old_len
                <= g1.drop_first()[i].old_start) && !(g1.drop_first()[i].old_start
                == g2[j].old_start && g1.drop_first()[i].old_len == g2[j].old_len) by {
                assert(g1.drop_first()[i] == g1[i + 1]);
            }
            assert(hunks_seq_wf(g1.drop_first(), base, d1, e1, h1.new_start + h1.new_len));
            if g1.drop_first().len() > 0 {
                assert(e1 <= g1.drop_first()[0].old_start);
            }
            lemma_merge_walk_disjoint(
                base,
                g1.drop_first(),
                d1,
                g2,
                d2,
                e1,
                h1.new_start + h1.new_len,
                a2,
                n2,
                e1,
                prev2,
                ctx,
            );
            assert(merge_sorted(g1, g2) == seq![h1] + merge_sorted(g1.drop_first(), g2));
            assert(merge_sorted(g1, g2)[0] == h1);
            assert(merge_sorted(g1, g2).drop_first() =~= merge_sorted(g1.drop_first(), g2));
        } else {
            assert(e2 <= h1.old_start);
            assert(!(e1 <= h2.old_start) ==> h2.old_start < e1);
            assert forall|i: int, j: int|
                0 <= i < g1.len() && 0 <= j < g2.drop_first().len() implies ((
            #[trigger] g1[i]).old_start + g1[i].old_len
                <= (#[trigger] g2.drop_first()[j]).old_start || g2.drop_first()[j].old_start
                + g2.drop_first()[j].old_len <= g1[i].old_start) && !(g1[i].old_start
                == g2.drop_first()[j].old_start && g1[i].old_len == g2.drop_first()[j].old_len) by {
                assert(g2.drop_first()[j] == g2[j + 1]);
            }
            assert(hunks_seq_wf(g2.drop_first(), base, d2, e2, h2.new_start + h2.new_len));
            if g2.drop_first().len() > 0 {
                assert(e2 <= g2.drop_first()[0].old_start);
            }
            lemma_merge_walk_disjoint(
                base,
                g1,
                d1,
                g2.drop_first(),
                d2,
                a1,
                n1,
                e2,
                h2.new_start + h2.new_len,
                e2,
                e2,
                ctx,
            );
            assert(merge_sorted(g1, g2) == seq![h2] + merge_sorted(g1, g2.drop_first()));
            assert(merge_sorted(g1, g2)[0] == h2);
            assert(merge_sorted(g1, g2).drop_first() =~= merge_sorted(g1, g2.drop_first()));
        }
    }
}

} // verus!
