//! The library's general guarantees, stated and proved over the
//! specification model that the engines' contracts are written against.

use vstd::prelude::*;

use crate::hunk::{hunks_wf, spec_diff_hunks, HunkV};
use crate::lines::lines_of;
use crate::mmfile::{spec_file_diff_chunks, spec_file_hunks, spec_file_patch, DIFF_CONTEXT};

verus! {

/// Diffing any content against itself yields zero hunks: the diff stream
/// and the patch text are both empty.
pub proof fn law_diff_self_empty(a: Seq<u8>)
    ensures
        spec_file_hunks(a, a) == Seq::<HunkV>::empty(),
        spec_file_diff_chunks(a, a) == Seq::<Seq<u8>>::empty(),
        spec_file_patch(a, a) == Seq::<u8>::empty(),
{
    crate::hunk::lemma_diff_hunks_empty_iff(lines_of(a), lines_of(a), DIFF_CONTEXT as int);
    assert(spec_file_hunks(a, a) =~= Seq::<HunkV>::empty());
    assert(spec_file_diff_chunks(a, a) =~= Seq::<Seq<u8>>::empty());
    assert(spec_file_patch(a, a) =~= Seq::<u8>::empty());
}

/// A diff has zero hunks exactly when the two contents are equal.
pub proof fn law_diff_empty_iff_equal(a: Seq<u8>, b: Seq<u8>)
    ensures
        spec_file_hunks(a, b).len() == 0 <==> a == b,
{
    crate::hunk::lemma_diff_hunks_empty_iff(lines_of(a), lines_of(b), DIFF_CONTEXT as int);
    if lines_of(a) == lines_of(b) {
        crate::lines::lemma_lines_of_injective(a, b);
    }
}

/// The diff's hunks tile the two files: the region before each hunk and
/// after the last one is unchanged, and each hunk's sides are exactly the
/// line ranges its header names.
pub proof fn law_diff_hunks_tile(a: Seq<u8>, b: Seq<u8>)
    ensures
        hunks_wf(spec_file_hunks(a, b), lines_of(a), lines_of(b)),
{
    crate::hunk::lemma_diff_hunks_wf(lines_of(a), lines_of(b), DIFF_CONTEXT as int);
}

/// An identical change on both sides auto-resolves: merging `b` and `b`
/// against any base `a` accepts exactly `b` and rejects nothing.
pub proof fn law_merge_identical(a: Seq<u8>, b: Seq<u8>)
    ensures
        crate::merge::spec_merge(lines_of(a), lines_of(b), lines_of(b), DIFF_CONTEXT as int)
            == (lines_of(b), Seq::<HunkV>::empty()),
{
    let av = lines_of(a);
    let bv = lines_of(b);
    let s = crate::script::spec_script(av, bv);
    crate::script::lemma_spec_script_fits(av, bv);
    crate::hunk::lemma_runs_from_wf(s, 0);
    crate::hunk::lemma_hunks_at_wf(s, av, bv, crate::hunk::runs_from(s, 0), 0);
    assert(s.take(0) =~= Seq::<crate::script::Edit>::empty());
    assert(crate::script::old_pos(s, 0) == 0 && crate::script::new_pos(s, 0) == 0);
    crate::merge::lemma_merge_walk_same(
        av,
        crate::merge::spec_groups(av, bv),
        bv,
        0,
        0,
        0,
        DIFF_CONTEXT as int,
    );
    assert(bv.skip(0) =~= bv);
}

/// Merging a file with itself against itself accepts the file unchanged and
/// rejects nothing.
pub proof fn law_merge_self(a: Seq<u8>)
    ensures
        crate::merge::spec_merge(lines_of(a), lines_of(a), lines_of(a), DIFF_CONTEXT as int)
            == (lines_of(a), Seq::<HunkV>::empty()),
{
    law_merge_identical(a, a);
}

/// The patch text for any two newline-ended contents re-parses into exactly
/// the hunks that produced it.
pub proof fn law_patch_reparses(a: Seq<u8>, b: Seq<u8>)
    requires
        crate::lines::nl_ended(a),
        crate::lines::nl_ended(b),
        lines_of(a).len() < usize::MAX,
        lines_of(b).len() < usize::MAX,
    ensures
        crate::patch::parse_patch(spec_file_patch(a, b)) == Some(spec_file_hunks(a, b)),
{
    let av = lines_of(a);
    let bv = lines_of(b);
    let s = crate::script::spec_script(av, bv);
    let bs = crate::hunk::spec_hunk_bounds(s, DIFF_CONTEXT as int);
    crate::script::lemma_spec_script_fits(av, bv);
    crate::hunk::lemma_runs_from_wf(s, 0);
    crate::hunk::lemma_merge_runs_wf(s, crate::hunk::runs_from(s, 0), 2 * DIFF_CONTEXT as int, 0);
    crate::hunk::lemma_expand_bounds_wf(
        s,
        crate::hunk::merge_runs(crate::hunk::runs_from(s, 0), 2 * DIFF_CONTEXT as int),
        DIFF_CONTEXT as int,
        0,
    );
    crate::lines::lemma_lines_shape(a);
    crate::lines::lemma_lines_shape(b);
    crate::patch::lemma_hunks_at_clean(s, av, bv, bs, 0);
    let hs = spec_file_hunks(a, b);
    assert(forall|i: int| 0 <= i < hs.len() ==> crate::patch::hunk_clean(#[trigger] hs[i]));
    crate::patch::lemma_patch_text(hs);
    let pls = lines_of(spec_file_patch(a, b));
    assert(pls.skip(0) =~= crate::patch::patch_text_lines(hs));
    crate::patch::lemma_parse_hunks_round(pls, 0, hs);
}

/// Applying the patch from `a` to `b` onto `a` matches every hunk, rejects
/// nothing, and rebuilds `b` exactly.
pub proof fn law_patch_round_trip(a: Seq<u8>, b: Seq<u8>)
    requires
        crate::lines::nl_ended(a),
        crate::lines::nl_ended(b),
        lines_of(a).len() < usize::MAX,
        lines_of(b).len() < usize::MAX,
    ensures
        crate::patch::parse_patch(spec_file_patch(a, b)) == Some(spec_file_hunks(a, b)),
        crate::patch::spec_apply(spec_file_hunks(a, b), lines_of(a)) == (
            lines_of(b),
            Seq::<HunkV>::empty(),
        ),
        crate::patch::spec_apply(spec_file_hunks(a, b), lines_of(a)).0.flatten() == b,
{
    law_patch_reparses(a, b);
    law_diff_hunks_tile(a, b);
    crate::patch::lemma_apply_wf(spec_file_hunks(a, b), lines_of(a), lines_of(b), 0, 0);
    assert(lines_of(b).skip(0) =~= lines_of(b));
    crate::lines::lemma_lines_of_flatten(b);
}

/// When the two sides edit disjoint regions of the base, the merge accepts
/// the result of applying both sides' change groups, interleaved in base
/// order, and rejects nothing.
pub proof fn law_merge_disjoint(a: Seq<u8>, b1: Seq<u8>, b2: Seq<u8>)
    requires
        crate::merge::groups_disjoint(
            crate::merge::spec_groups(lines_of(a), lines_of(b1)),
            crate::merge::spec_groups(lines_of(a), lines_of(b2)),
        ),
    ensures
        crate::merge::spec_merge(lines_of(a), lines_of(b1), lines_of(b2), DIFF_CONTEXT as int).1
            == Seq::<HunkV>::empty(),
        crate::merge::spec_merge(lines_of(a), lines_of(b1), lines_of(b2), DIFF_CONTEXT as int).0
            == crate::patch::apply_from(
            crate::merge::merge_sorted(
                crate::merge::spec_groups(lines_of(a), lines_of(b1)),
                crate::merge::spec_groups(lines_of(a), lines_of(b2)),
            ),
            lines_of(a),
            0,
        ).0,
        crate::patch::apply_from(
            crate::merge::merge_sorted(
                crate::merge::spec_groups(lines_of(a), lines_of(b1)),
                crate::merge::spec_groups(lines_of(a), lines_of(b2)),
            ),
            lines_of(a),
            0,
        ).1 == Seq::<HunkV>::empty(),
{
    let av = lines_of(a);
    let d1 = lines_of(b1);
    let d2 = lines_of(b2);
    let s1 = crate::script::spec_script(av, d1);
    let s2 = crate::script::spec_script(av, d2);
    crate::script::lemma_spec_script_fits(av, d1);
    crate::script::lemma_spec_script_fits(av, d2);
    crate::hunk::lemma_runs_from_wf(s1, 0);
    crate::hunk::lemma_runs_from_wf(s2, 0);
    crate::hunk::lemma_hunks_at_wf(s1, av, d1, crate::hunk::runs_from(s1, 0), 0);
    crate::hunk::lemma_hunks_at_wf(s2, av, d2, crate::hunk::runs_from(s2, 0), 0);
    assert(s1.take(0) =~= Seq::<crate::script::Edit>::empty());
    assert(s2.take(0) =~= Seq::<crate::script::Edit>::empty());
    assert(crate::script::old_pos(s1, 0) == 0 && crate::script::new_pos(s1, 0) == 0);
    assert(crate::script::old_pos(s2, 0) == 0 && crate::script::new_pos(s2, 0) == 0);
    let g1 = crate::merge::spec_groups(av, d1);
    let g2 = crate::merge::spec_groups(av, d2);
    if g1.len() > 0 {
        assert(0 <= g1[0].old_start);
    }
    if g2.len() > 0 {
        assert(0 <= g2[0].old_start);
    }
    crate::merge::lemma_merge_walk_disjoint(
        av,
        g1,
        d1,
        g2,
        d2,
        0,
        0,
        0,
        0,
        0,
        0,
        DIFF_CONTEXT as int,
    );
}

/// The diff's edit script is minimal: it changes exactly
/// `|a| + |b| - 2·lcs(a, b)` lines, and no valid edit script between the
/// two files changes fewer.
pub proof fn law_diff_minimal(a: Seq<u8>, b: Seq<u8>)
    ensures
        crate::script::edit_count(crate::script::spec_script(lines_of(a), lines_of(b)))
            == lines_of(a).len() + lines_of(b).len() - 2 * crate::script::lcs_len(
            lines_of(a),
            lines_of(b),
        ),
        forall|s: Seq<crate::script::Edit>|
            #[trigger] crate::script::script_fits(s, lines_of(a), lines_of(b))
                ==> crate::script::edit_count(s) >= lines_of(a).len() + lines_of(b).len() - 2
                * crate::script::lcs_len(lines_of(a), lines_of(b)),
{
    crate::script::lemma_spec_script_minimal(lines_of(a), lines_of(b));
    assert forall|s: Seq<crate::script::Edit>|
        #[trigger] crate::script::script_fits(s, lines_of(a), lines_of(b))
            implies crate::script::edit_count(s) >= lines_of(a).len() + lines_of(b).len() - 2
            * crate::script::lcs_len(lines_of(a), lines_of(b)) by {
        crate::script::lemma_script_edit_lower_bound(s, lines_of(a), lines_of(b));
    }
}

} // verus!
