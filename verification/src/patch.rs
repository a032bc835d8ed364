//! Parsing and applying textual patches.
//!
//! A patch is parsed line by line: a header `@@ -a,b +c,d @@`, then exactly
//! enough tagged lines (space, `-`, `+`) to account for `b` old-side and `d`
//! new-side lines, then the next header or the end. A malformed patch is
//! rejected whole, before any hunk is attempted. Hunks are then applied in
//! order: a hunk applies only where its context and deletion lines match the
//! file at its old range; a hunk that does not match is routed, as patch
//! text, to the rejected output, and its region of the file flows through
//! unchanged.

use vstd::prelude::*;

use crate::hunk::{hunks_seq_wf, new_side, old_side, HunkV, LineV};

verus! {

pub open spec fn is_digit(c: u8) -> bool {
    48 <= c <= 57
}

/// End of the digit run starting at `i`.
pub open spec fn digit_run_end(l: Seq<u8>, i: int) -> int
    decreases l.len() - i,
    when 0 <= i <= l.len()
{
    if i < l.len() && is_digit(l[i]) {
        digit_run_end(l, i + 1)
    } else {
        i
    }
}

pub proof fn lemma_digit_run_end(l: Seq<u8>, i: int)
    requires
        0 <= i <= l.len(),
    ensures
        i <= digit_run_end(l, i) <= l.len(),
        forall|t: int| i <= t < digit_run_end(l, i) ==> is_digit(l[t]),
        digit_run_end(l, i) < l.len() ==> !is_digit(l[digit_run_end(l, i)]),
    decreases l.len() - i,
{
    if i < l.len() && is_digit(l[i]) {
        lemma_digit_run_end(l, i + 1);
    }
}

/// The value of the digits in `[i, j)`.
pub open spec fn dec_value(l: Seq<u8>, i: int, j: int) -> int
    decreases j - i,
    when i <= j
{
    if i >= j {
        0
    } else {
        dec_value(l, i, j - 1) * 10 + (l[j - 1] - 48)
    }
}

/// Parses the decimal number starting at `i`: its value and the index after
/// its digits, or nothing if no digit stands at `i`.
pub open spec fn parse_num(l: Seq<u8>, i: int) -> Option<(int, int)> {
    if 0 <= i <= l.len() {
        let j = digit_run_end(l, i);
        if j > i {
            Some((dec_value(l, i, j), j))
        } else {
            None
        }
    } else {
        None
    }
}

/// Parses a hunk header line `@@ -a,b +c,d @@` (with terminator), yielding
/// the four numbers.
pub open spec fn parse_header(l: Seq<u8>) -> Option<(int, int, int, int)> {
    if l.len() < 4 || l[0] != 64 || l[1] != 64 || l[2] != 32 || l[3] != 45 {
        None
    } else {
        match parse_num(l, 4) {
            None => None,
            Some((od, i1)) => if i1 >= l.len() || l[i1] != 44 {
                None
            } else {
                match parse_num(l, i1 + 1) {
                    None => None,
                    Some((ol, i2)) => if i2 + 1 >= l.len() || l[i2] != 32 || l[i2 + 1] != 43 {
                        None
                    } else {
                        match parse_num(l, i2 + 2) {
                            None => None,
                            Some((nd, i3)) => if i3 >= l.len() || l[i3] != 44 {
                                None
                            } else {
                                match parse_num(l, i3 + 1) {
                                    None => None,
                                    Some((nl, i4)) => if i4 + 4 == l.len() && l[i4] == 32 && l[i4
                                        + 1] == 64 && l[i4 + 2] == 64 && l[i4 + 3] == 10 {
                                        Some((od, ol, nd, nl))
                                    } else {
                                        None
                                    },
                                }
                            },
                        }
                    },
                }
            },
        }
    }
}

/// Parses tagged hunk lines from patch line `i` until `od` old-side and
/// `nd` new-side lines are accounted for.
pub open spec fn parse_body(pls: Seq<Seq<u8>>, i: int, od: int, nd: int) -> Option<
    (Seq<LineV>, int),
>
    decreases od + nd,
    when od >= 0 && nd >= 0
{
    if od == 0 && nd == 0 {
        Some((Seq::empty(), i))
    } else if i < 0 || i >= pls.len() || pls[i].len() == 0 {
        None
    } else {
        let tag = pls[i][0];
        let content = pls[i].drop_first();
        if tag == 32 && od > 0 && nd > 0 {
            match parse_body(pls, i + 1, od - 1, nd - 1) {
                None => None,
                Some((ls, j)) => Some((seq![LineV::Context(content)] + ls, j)),
            }
        } else if tag == 45 && od > 0 {
            match parse_body(pls, i + 1, od - 1, nd) {
                None => None,
                Some((ls, j)) => Some((seq![LineV::Deleted(content)] + ls, j)),
            }
        } else if tag == 43 && nd > 0 {
            match parse_body(pls, i + 1, od, nd - 1) {
                None => None,
                Some((ls, j)) => Some((seq![LineV::Added(content)] + ls, j)),
            }
        } else {
            None
        }
    }
}

pub proof fn lemma_parse_body_bounds(pls: Seq<Seq<u8>>, i: int, od: int, nd: int)
    requires
        od >= 0,
        nd >= 0,
        0 <= i <= pls.len(),
    ensures
        parse_body(pls, i, od, nd) matches Some(r) ==> i <= r.1 <= pls.len() && (od + nd > 0
            ==> r.1 > i),
    decreases od + nd,
{
    if od == 0 && nd == 0 {
    } else if i < 0 || i >= pls.len() || pls[i].len() == 0 {
    } else {
        if od > 0 && nd > 0 {
            lemma_parse_body_bounds(pls, i + 1, od - 1, nd - 1);
        }
        if od > 0 {
            lemma_parse_body_bounds(pls, i + 1, od - 1, nd);
        }
        if nd > 0 {
            lemma_parse_body_bounds(pls, i + 1, od, nd - 1);
        }
    }
}

/// Parses the hunks of a patch from line `i` on. A header whose ranges
/// cannot be placed (a 1-based start of 0 with a nonzero length) is
/// malformed.
pub open spec fn parse_hunks(pls: Seq<Seq<u8>>, i: int) -> Option<Seq<HunkV>>
    decreases pls.len() - i,
    when 0 <= i
    via parse_hunks_decreases
{
    if i >= pls.len() {
        Some(Seq::empty())
    } else {
        match parse_header(pls[i]) {
            None => None,
            Some((od, ol, nd, nl)) => {
                let os = if ol > 0 {
                    od - 1
                } else {
                    od
                };
                let ns = if nl > 0 {
                    nd - 1
                } else {
                    nd
                };
                if os < 0 || ns < 0 || ol < 0 || nl < 0 || od > usize::MAX || ol > usize::MAX
                    || nd > usize::MAX || nl > usize::MAX {
                    None
                } else {
                    match parse_body(pls, i + 1, ol, nl) {
                        None => None,
                        Some((ls, j)) => match parse_hunks(pls, j) {
                            None => None,
                            Some(rest) => Some(
                                seq![
                                    HunkV {
                                        old_start: os,
                                        old_len: ol,
                                        new_start: ns,
                                        new_len: nl,
                                        lines: ls,
                                    },
                                ] + rest,
                            ),
                        },
                    }
                }
            },
        }
    }
}

#[via_fn]
proof fn parse_hunks_decreases(pls: Seq<Seq<u8>>, i: int) {
    if i < pls.len() {
        match parse_header(pls[i]) {
            None => {},
            Some((od, ol, nd, nl)) => {
                if ol >= 0 && nl >= 0 {
                    lemma_parse_body_bounds(pls, i + 1, ol, nl);
                }
            },
        }
    }
}

/// Parses a whole patch into its hunks.
pub open spec fn parse_patch(p: Seq<u8>) -> Option<Seq<HunkV>> {
    parse_hunks(crate::lines::lines_of(p), 0)
}

/// Applies hunks to the lines `a` from cursor `c` on: a hunk whose old
/// range lies at or after the cursor and whose old-side lines equal the
/// file's lines there is applied (the gap flows through, its new side is
/// emitted, the cursor jumps its old range); any other hunk is rejected and
/// its region left to flow through. Returns the patched lines from `c` on
/// and the rejected hunks.
pub open spec fn apply_from(hs: Seq<HunkV>, a: Seq<Seq<u8>>, c: int) -> (Seq<Seq<u8>>, Seq<HunkV>)
    decreases hs.len(),
{
    if hs.len() == 0 {
        (a.skip(c), Seq::empty())
    } else {
        let h = hs[0];
        if c <= h.old_start && h.old_start + h.old_len <= a.len() && h.old_len >= 0 && old_side(
            h.lines,
        ) == a.subrange(h.old_start, h.old_start + h.old_len) {
            let rest = apply_from(hs.drop_first(), a, h.old_start + h.old_len);
            (a.subrange(c, h.old_start) + new_side(h.lines) + rest.0, rest.1)
        } else {
            let rest = apply_from(hs.drop_first(), a, c);
            (rest.0, seq![h] + rest.1)
        }
    }
}

/// Applies hunks to a whole file's lines.
pub open spec fn spec_apply(hs: Seq<HunkV>, a: Seq<Seq<u8>>) -> (Seq<Seq<u8>>, Seq<HunkV>) {
    apply_from(hs, a, 0)
}

/// Hunks that tile `a` against `b` all match, and applying them rebuilds
/// `b` with nothing rejected.
pub proof fn lemma_apply_wf(hs: Seq<HunkV>, a: Seq<Seq<u8>>, b: Seq<Seq<u8>>, ao: int, no: int)
    requires
        hunks_seq_wf(hs, a, b, ao, no),
    ensures
        apply_from(hs, a, ao) == (b.skip(no), Seq::<HunkV>::empty()),
    decreases hs.len(),
{
    if hs.len() == 0 {
        assert(a.skip(ao) =~= a.subrange(ao, a.len() as int));
        assert(b.skip(no) =~= b.subrange(no, b.len() as int));
    } else {
        let h = hs[0];
        lemma_apply_wf(hs.drop_first(), a, b, h.old_start + h.old_len, h.new_start + h.new_len);
        let out = a.subrange(ao, h.old_start) + new_side(h.lines) + b.skip(
            h.new_start + h.new_len,
        );
        assert(out =~= b.skip(no)) by {
            assert(a.subrange(ao, h.old_start) == b.subrange(no, h.new_start));
            assert(new_side(h.lines) == b.subrange(h.new_start, h.new_start + h.new_len));
            assert(b.subrange(no, h.new_start) + b.subrange(h.new_start, h.new_start + h.new_len)
                + b.skip(h.new_start + h.new_len) =~= b.skip(no));
        }
        assert(apply_from(hs, a, ao) == (out, Seq::<HunkV>::empty()));
    }
}

pub proof fn lemma_dec_value_nonneg(l: Seq<u8>, i: int, j: int)
    requires
        0 <= i <= j,
        j <= digit_run_end(l, i),
        i <= l.len(),
    ensures
        dec_value(l, i, j) >= 0,
    decreases j - i,
{
    lemma_digit_run_end(l, i);
    if i < j {
        lemma_dec_value_nonneg(l, i, j - 1);
        assert(is_digit(l[j - 1]));
    }
}

pub proof fn lemma_dec_value_mono(l: Seq<u8>, i: int, j: int, j2: int)
    requires
        0 <= i <= j <= j2,
        j2 <= digit_run_end(l, i),
        i <= l.len(),
    ensures
        dec_value(l, i, j2) >= dec_value(l, i, j),
    decreases j2 - j,
{
    lemma_digit_run_end(l, i);
    if j < j2 {
        lemma_dec_value_mono(l, i, j, j2 - 1);
        lemma_dec_value_nonneg(l, i, j2 - 1);
        assert(is_digit(l[j2 - 1]));
        assert(dec_value(l, i, j2) == dec_value(l, i, j2 - 1) * 10 + (l[j2 - 1] - 48));
        assert(dec_value(l, i, j2 - 1) * 10 >= dec_value(l, i, j2 - 1)) by (nonlinear_arith)
            requires
                dec_value(l, i, j2 - 1) >= 0,
        ;
    }
}

/// Parses the decimal number starting at byte `i`, if one stands there and
/// its value is addressable.
fn parse_num_exec(l: &Vec<u8>, i: usize) -> (r: Option<(usize, usize)>)
    requires
        i <= l@.len(),
    ensures
        r matches Some(v) ==> parse_num(l@, i as int) == Some((v.0 as int, v.1 as int)),
        r is None ==> (parse_num(l@, i as int) is None || (parse_num(l@, i as int) matches Some(v)
            && v.0 > usize::MAX)),
{
    proof {
        lemma_digit_run_end(l@, i as int);
    }
    if i >= l.len() || l[i] < 48 || l[i] > 57 {
        return None;
    }
    let mut j: usize = i;
    let mut acc: usize = 0;
    while j < l.len() && 48 <= l[j] && l[j] <= 57
        invariant
            i <= j <= l@.len(),
            forall|t: int| i <= t < j ==> is_digit(l@[t]),
            digit_run_end(l@, i as int) == digit_run_end(l@, j as int),
            acc == dec_value(l@, i as int, j as int),
        decreases l@.len() - j,
    {
        let d = l[j] - 48;
        let ghost jj = j as int;
        proof {
            lemma_digit_run_end(l@, i as int);
        }
        let acc10 = match acc.checked_mul(10) {
            Some(x) => x,
            None => {
                proof {
                    lemma_digit_run_end(l@, jj);
                    assert(digit_run_end(l@, i as int) >= jj + 1);
                    assert(dec_value(l@, i as int, jj + 1) == acc * 10 + (l@[jj] - 48));
                    lemma_dec_value_mono(l@, i as int, jj + 1, digit_run_end(l@, i as int));
                }
                return None;
            },
        };
        let newacc = match acc10.checked_add(d as usize) {
            Some(x) => x,
            None => {
                proof {
                    lemma_digit_run_end(l@, jj);
                    assert(digit_run_end(l@, i as int) >= jj + 1);
                    assert(dec_value(l@, i as int, jj + 1) == acc * 10 + (l@[jj] - 48));
                    lemma_dec_value_mono(l@, i as int, jj + 1, digit_run_end(l@, i as int));
                }
                return None;
            },
        };
        acc = newacc;
        j = j + 1;
        proof {
            assert(dec_value(l@, i as int, j as int) == dec_value(l@, i as int, j as int - 1) * 10
                + (l@[j as int - 1] - 48));
        }
    }
    proof {
        assert(digit_run_end(l@, j as int) == j as int);
        assert(digit_run_end(l@, i as int) == j as int);
    }
    Some((acc, j))
}

/// Parses one hunk header line, if it follows the grammar and its numbers
/// are addressable.
fn parse_header_exec(l: &Vec<u8>) -> (r: Option<(usize, usize, usize, usize)>)
    ensures
        r matches Some(v) ==> parse_header(l@) == Some(
            (v.0 as int, v.1 as int, v.2 as int, v.3 as int),
        ),
        r is None ==> (parse_header(l@) is None || (parse_header(l@) matches Some(v) && (v.0
            > usize::MAX || v.1 > usize::MAX || v.2 > usize::MAX || v.3 > usize::MAX))),
{
    if l.len() < 4 || l[0] != 64 || l[1] != 64 || l[2] != 32 || l[3] != 45 {
        return None;
    }
    let (od, i1) = match parse_num_exec(l, 4) {
        Some(v) => v,
        None => {
            return None;
        },
    };
    if i1 >= l.len() || l[i1] != 44 {
        return None;
    }
    let (ol, i2) = match parse_num_exec(l, i1 + 1) {
        Some(v) => v,
        None => {
            return None;
        },
    };
    if i2 >= l.len() || l[i2] != 32 {
        return None;
    }
    if i2 + 1 >= l.len() || l[i2 + 1] != 43 {
        return None;
    }
    let (nd, i3) = match parse_num_exec(l, i2 + 2) {
        Some(v) => v,
        None => {
            return None;
        },
    };
    if i3 >= l.len() || l[i3] != 44 {
        return None;
    }
    let (nl, i4) = match parse_num_exec(l, i3 + 1) {
        Some(v) => v,
        None => {
            return None;
        },
    };
    if i4 == l.len() - 4 && l[i4] == 32 && l[i4 + 1] == 64 && l[i4 + 2] == 64 && l[i4 + 3] == 10 {
        Some((od, ol, nd, nl))
    } else {
        None
    }
}

/// Parses the body lines of one hunk, starting at patch line `i`.
fn parse_body_exec(pls: &Vec<Vec<u8>>, i: usize, od: usize, nd: usize) -> (r: Option<
    (Vec<crate::hunk::HunkLine>, usize),
>)
    requires
        i <= pls@.len(),
    ensures
        r matches Some(v) ==> parse_body(crate::lines::views_of(pls@), i as int, od as int,
            nd as int) == Some((crate::hunk::line_views(v.0@), v.1 as int)),
        r is None ==> parse_body(crate::lines::views_of(pls@), i as int, od as int, nd as int)
            is None,
{
    let ghost plsv = crate::lines::views_of(pls@);
    let mut lines: Vec<crate::hunk::HunkLine> = Vec::new();
    let mut j: usize = i;
    let mut odr: usize = od;
    let mut ndr: usize = nd;
    proof {
        assert(crate::hunk::line_views(lines@) =~= Seq::<LineV>::empty());
    }
    while odr > 0 || ndr > 0
        invariant
            i <= j <= pls@.len(),
            plsv == crate::lines::views_of(pls@),
            forall|ls: Seq<LineV>, e: int|
                (#[trigger] parse_body(plsv, j as int, odr as int, ndr as int) == Some(
                    (ls, e),
                )) ==> parse_body(plsv, i as int, od as int, nd as int) == Some(
                    (crate::hunk::line_views(lines@) + ls, e),
                ),
            parse_body(plsv, j as int, odr as int, ndr as int) is None ==> parse_body(
                plsv,
                i as int,
                od as int,
                nd as int,
            ) is None,
        decreases odr + ndr,
    {
        if j >= pls.len() || pls[j].len() == 0 {
            return None;
        }
        let tag = pls[j][0];
        let content: Vec<u8> = vstd::slice::slice_to_vec(
            vstd::slice::slice_subrange(pls[j].as_slice(), 1, pls[j].len()),
        );
        proof {
            assert(plsv[j as int] == pls@[j as int]@);
            assert(content@ =~= plsv[j as int].drop_first());
        }
        let ghost pre = crate::hunk::line_views(lines@);
        let ghost oo = odr as int;
        let ghost nn = ndr as int;
        if tag == 32 && odr > 0 && ndr > 0 {
            lines.push(crate::hunk::HunkLine::Context(content));
            odr = odr - 1;
            ndr = ndr - 1;
        } else if tag == 45 && odr > 0 {
            lines.push(crate::hunk::HunkLine::Deleted(content));
            odr = odr - 1;
        } else if tag == 43 && ndr > 0 {
            lines.push(crate::hunk::HunkLine::Added(content));
            ndr = ndr - 1;
        } else {
            return None;
        }
        let ghost lv = lines@[lines@.len() - 1]@;
        j = j + 1;
        proof {
            assert(crate::hunk::line_views(lines@) =~= pre.push(lv));
            assert forall|ls: Seq<LineV>, e: int|
                (#[trigger] parse_body(plsv, j as int, odr as int, ndr as int) == Some(
                    (ls, e),
                )) implies parse_body(plsv, i as int, od as int, nd as int) == Some(
                (crate::hunk::line_views(lines@) + ls, e),
            ) by {
                assert(parse_body(plsv, j as int - 1, oo, nn) == Some((seq![lv] + ls, e)));
                assert(pre + (seq![lv] + ls) =~= crate::hunk::line_views(lines@) + ls);
            }
            if parse_body(plsv, j as int, odr as int, ndr as int) is None {
                assert(parse_body(plsv, j as int - 1, oo, nn) is None);
            }
        }
    }
    proof {
        assert(parse_body(plsv, j as int, 0, 0) == Some((Seq::<LineV>::empty(), j as int)));
        assert(crate::hunk::line_views(lines@) + Seq::<LineV>::empty() =~= crate::hunk::line_views(
            lines@,
        ));
    }
    Some((lines, j))
}

/// Parses a whole patch, already split into lines, into its hunks.
pub fn parse_patch_exec(pls: &Vec<Vec<u8>>) -> (r: Option<Vec<crate::hunk::Hunk>>)
    ensures
        r matches Some(hs) ==> parse_hunks(crate::lines::views_of(pls@), 0) == Some(
            crate::hunk::hunk_views(hs@),
        ) && (forall|x: int|
            0 <= x < hs@.len() ==> crate::render::hunk_starts_fit(#[trigger] hs@[x]@)),
        r is None ==> parse_hunks(crate::lines::views_of(pls@), 0) is None,
{
    let ghost plsv = crate::lines::views_of(pls@);
    let mut hs: Vec<crate::hunk::Hunk> = Vec::new();
    let mut i: usize = 0;
    proof {
        assert(crate::hunk::hunk_views(hs@) =~= Seq::<HunkV>::empty());
    }
    while i < pls.len()
        invariant
            0 <= i <= pls@.len(),
            plsv == crate::lines::views_of(pls@),
            forall|rest: Seq<HunkV>|
                (#[trigger] parse_hunks(plsv, i as int) == Some(rest)) ==> parse_hunks(plsv, 0)
                    == Some(crate::hunk::hunk_views(hs@) + rest),
            parse_hunks(plsv, i as int) is None ==> parse_hunks(plsv, 0) is None,
            forall|x: int|
                0 <= x < hs@.len() ==> crate::render::hunk_starts_fit(#[trigger] hs@[x]@),
        decreases pls@.len() - i,
    {
        proof {
            assert(plsv[i as int] == pls@[i as int]@);
        }
        let hd = match parse_header_exec(&pls[i]) {
            Some(v) => v,
            None => {
                proof {
                    assert(parse_hunks(plsv, i as int) is None);
                }
                return None;
            },
        };
        let (od, ol, nd, nl) = hd;
        let os: usize;
        let ns: usize;
        if ol > 0 && od == 0 {
            proof {
                assert(parse_hunks(plsv, i as int) is None);
            }
            return None;
        } else {
            os = if ol > 0 {
                od - 1
            } else {
                od
            };
        }
        if nl > 0 && nd == 0 {
            proof {
                assert(parse_hunks(plsv, i as int) is None);
            }
            return None;
        } else {
            ns = if nl > 0 {
                nd - 1
            } else {
                nd
            };
        }
        let body = match parse_body_exec(pls, i + 1, ol, nl) {
            Some(v) => v,
            None => {
                proof {
                    assert(parse_hunks(plsv, i as int) is None);
                }
                return None;
            },
        };
        let (lines, j) = body;
        let h = crate::hunk::Hunk {
            old_start: os,
            old_len: ol,
            new_start: ns,
            new_len: nl,
            lines,
        };
        let ghost hv = h@;
        let ghost pre = crate::hunk::hunk_views(hs@);
        let ghost io = i as int;
        proof {
            lemma_parse_body_bounds(plsv, io + 1, ol as int, nl as int);
            assert(parse_body(plsv, io + 1, ol as int, nl as int) == Some(
                (hv.lines, j as int),
            ));
        }
        hs.push(h);
        i = j;
        proof {
            assert(crate::hunk::hunk_views(hs@) =~= pre.push(hv));
            assert forall|rest: Seq<HunkV>|
                (#[trigger] parse_hunks(plsv, i as int) == Some(rest)) implies parse_hunks(
                plsv,
                0,
            ) == Some(crate::hunk::hunk_views(hs@) + rest) by {
                assert(parse_hunks(plsv, io) == Some(seq![hv] + rest));
                assert(pre + (seq![hv] + rest) =~= crate::hunk::hunk_views(hs@) + rest);
            }
            if parse_hunks(plsv, i as int) is None {
                assert(parse_hunks(plsv, io) is None);
            }
        }
    }
    proof {
        assert(parse_hunks(plsv, i as int) == Some(Seq::<HunkV>::empty()));
        assert(crate::hunk::hunk_views(hs@) + Seq::<HunkV>::empty() =~= crate::hunk::hunk_views(
            hs@,
        ));
    }
    Some(hs)
}

/// The context and deletion contents of a hunk's lines.
fn old_side_exec(lines: &Vec<crate::hunk::HunkLine>) -> (r: Vec<Vec<u8>>)
    ensures
        crate::lines::views_of(r@) == old_side(crate::hunk::line_views(lines@)),
{
    let ghost lv = crate::hunk::line_views(lines@);
    let mut r: Vec<Vec<u8>> = Vec::new();
    let mut j: usize = 0;
    proof {
        assert(lv.take(0) =~= Seq::<LineV>::empty());
        assert(crate::lines::views_of(r@) =~= old_side(lv.take(0)));
    }
    while j < lines.len()
        invariant
            0 <= j <= lines@.len(),
            lv == crate::hunk::line_views(lines@),
            crate::lines::views_of(r@) == old_side(lv.take(j as int)),
        decreases lines@.len() - j,
    {
        let ghost pre = crate::lines::views_of(r@);
        match &lines[j] {
            crate::hunk::HunkLine::Context(c) => {
                r.push(vstd::slice::slice_to_vec(c.as_slice()));
            },
            crate::hunk::HunkLine::Deleted(c) => {
                r.push(vstd::slice::slice_to_vec(c.as_slice()));
            },
            crate::hunk::HunkLine::Added(_) => {},
        }
        j = j + 1;
        proof {
            assert(lv.take(j as int) =~= lv.take(j as int - 1).push(lv[j as int - 1]));
            crate::hunk::lemma_sides_snoc(lv.take(j as int - 1), lv[j as int - 1]);
            assert(lv[j as int - 1] == lines@[j as int - 1]@);
            assert(crate::lines::views_of(r@) =~= old_side(lv.take(j as int)));
        }
    }
    proof {
        assert(lv.take(j as int) =~= lv);
    }
    r
}

/// The context and addition contents of a hunk's lines.
pub(crate) fn new_side_exec(lines: &Vec<crate::hunk::HunkLine>) -> (r: Vec<Vec<u8>>)
    ensures
        crate::lines::views_of(r@) == new_side(crate::hunk::line_views(lines@)),
{
    let ghost lv = crate::hunk::line_views(lines@);
    let mut r: Vec<Vec<u8>> = Vec::new();
    let mut j: usize = 0;
    proof {
        assert(lv.take(0) =~= Seq::<LineV>::empty());
        assert(crate::lines::views_of(r@) =~= new_side(lv.take(0)));
    }
    while j < lines.len()
        invariant
            0 <= j <= lines@.len(),
            lv == crate::hunk::line_views(lines@),
            crate::lines::views_of(r@) == new_side(lv.take(j as int)),
        decreases lines@.len() - j,
    {
        let ghost pre = crate::lines::views_of(r@);
        match &lines[j] {
            crate::hunk::HunkLine::Context(c) => {
                r.push(vstd::slice::slice_to_vec(c.as_slice()));
            },
            crate::hunk::HunkLine::Added(c) => {
                r.push(vstd::slice::slice_to_vec(c.as_slice()));
            },
            crate::hunk::HunkLine::Deleted(_) => {},
        }
        j = j + 1;
        proof {
            assert(lv.take(j as int) =~= lv.take(j as int - 1).push(lv[j as int - 1]));
            crate::hunk::lemma_sides_snoc(lv.take(j as int - 1), lv[j as int - 1]);
            assert(lv[j as int - 1] == lines@[j as int - 1]@);
            assert(crate::lines::views_of(r@) =~= new_side(lv.take(j as int)));
        }
    }
    proof {
        assert(lv.take(j as int) =~= lv);
    }
    r
}

/// A deep copy of a hunk.
pub(crate) fn clone_hunk(h: &crate::hunk::Hunk) -> (r: crate::hunk::Hunk)
    ensures
        r@ == h@,
{
    let mut lines: Vec<crate::hunk::HunkLine> = Vec::new();
    let mut j: usize = 0;
    while j < h.lines.len()
        invariant
            0 <= j <= h.lines@.len(),
            crate::hunk::line_views(lines@) == crate::hunk::line_views(h.lines@).take(j as int),
        decreases h.lines@.len() - j,
    {
        let ghost pre = crate::hunk::line_views(lines@);
        match &h.lines[j] {
            crate::hunk::HunkLine::Context(c) => {
                lines.push(crate::hunk::HunkLine::Context(vstd::slice::slice_to_vec(c.as_slice())));
            },
            crate::hunk::HunkLine::Deleted(c) => {
                lines.push(crate::hunk::HunkLine::Deleted(vstd::slice::slice_to_vec(c.as_slice())));
            },
            crate::hunk::HunkLine::Added(c) => {
                lines.push(crate::hunk::HunkLine::Added(vstd::slice::slice_to_vec(c.as_slice())));
            },
        }
        j = j + 1;
        proof {
            let lv = crate::hunk::line_views(h.lines@);
            assert(lv.take(j as int) =~= lv.take(j as int - 1).push(lv[j as int - 1]));
            assert(lv[j as int - 1] == h.lines@[j as int - 1]@);
            assert(crate::hunk::line_views(lines@) =~= pre.push(lv[j as int - 1]));
        }
    }
    let r = crate::hunk::Hunk {
        old_start: h.old_start,
        old_len: h.old_len,
        new_start: h.new_start,
        new_len: h.new_len,
        lines,
    };
    proof {
        let lv = crate::hunk::line_views(h.lines@);
        assert(lv.take(j as int) =~= lv);
        assert(r@.lines =~= h@.lines);
        assert(r@ =~= h@);
    }
    r
}

/// Applies hunks to a file's lines in order, separating the patched lines
/// from the rejected hunks, exactly as [`spec_apply`] describes.
pub fn apply_exec(hs: &Vec<crate::hunk::Hunk>, la: &Vec<Vec<u8>>) -> (r: (
    Vec<Vec<u8>>,
    Vec<crate::hunk::Hunk>,
))
    requires
        forall|x: int| 0 <= x < hs@.len() ==> crate::render::hunk_starts_fit(#[trigger] hs@[x]@),
    ensures
        crate::lines::views_of(r.0@) == spec_apply(
            crate::hunk::hunk_views(hs@),
            crate::lines::views_of(la@),
        ).0,
        crate::hunk::hunk_views(r.1@) == spec_apply(
            crate::hunk::hunk_views(hs@),
            crate::lines::views_of(la@),
        ).1,
        forall|x: int| 0 <= x < r.1@.len() ==> crate::render::hunk_starts_fit(#[trigger] r.1@[x]@),
{
    let ghost hsv = crate::hunk::hunk_views(hs@);
    let ghost av = crate::lines::views_of(la@);
    let la_len = la.len();
    let mut out: Vec<Vec<u8>> = Vec::new();
    let mut rej: Vec<crate::hunk::Hunk> = Vec::new();
    let mut c: usize = 0;
    let mut i: usize = 0;
    proof {
        assert(hsv.skip(0) =~= hsv);
        assert(crate::lines::views_of(out@) =~= Seq::<Seq<u8>>::empty());
        assert(crate::hunk::hunk_views(rej@) =~= Seq::<HunkV>::empty());
        assert(Seq::<Seq<u8>>::empty() + apply_from(hsv, av, 0).0 =~= apply_from(hsv, av, 0).0);
        assert(Seq::<HunkV>::empty() + apply_from(hsv, av, 0).1 =~= apply_from(hsv, av, 0).1);
    }
    while i < hs.len()
        invariant
            0 <= i <= hs@.len(),
            c <= la@.len(),
            la_len == la@.len(),
            hsv == crate::hunk::hunk_views(hs@),
            av == crate::lines::views_of(la@),
            forall|x: int|
                0 <= x < hs@.len() ==> crate::render::hunk_starts_fit(#[trigger] hs@[x]@),
            apply_from(hsv, av, 0).0 == crate::lines::views_of(out@) + apply_from(
                hsv.skip(i as int),
                av,
                c as int,
            ).0,
            apply_from(hsv, av, 0).1 == crate::hunk::hunk_views(rej@) + apply_from(
                hsv.skip(i as int),
                av,
                c as int,
            ).1,
            forall|x: int|
                0 <= x < rej@.len() ==> crate::render::hunk_starts_fit(#[trigger] rej@[x]@),
        decreases hs@.len() - i,
    {
        let ghost rem = hsv.skip(i as int);
        let ghost c0 = c as int;
        proof {
            assert(rem[0] == hsv[i as int]);
            assert(hsv[i as int] == hs@[i as int]@);
            assert(rem.drop_first() =~= hsv.skip(i as int + 1));
        }
        let h = &hs[i];
        let osl = old_side_exec(&h.lines);
        let mut matches: bool;
        let ghost cond = (c as int <= h@.old_start && h@.old_start + h@.old_len <= av.len()
            && h@.old_len >= 0 && old_side(h@.lines) == av.subrange(
            h@.old_start,
            h@.old_start + h@.old_len,
        ));
        if h.old_start < c {
            matches = false;
            proof {
                assert(!cond);
            }
        } else {
            match h.old_start.checked_add(h.old_len) {
                None => {
                    matches = false;
                    proof {
                        assert(h@.old_start + h@.old_len > usize::MAX);
                        assert(!cond);
                    }
                },
                Some(e) => {
                    if e > la.len() {
                        matches = false;
                        proof {
                            assert(!cond);
                        }
                    } else if osl.len() != h.old_len {
                        matches = false;
                        proof {
                            assert(old_side(h@.lines).len() != h@.old_len);
                            assert(av.subrange(h@.old_start, h@.old_start + h@.old_len).len()
                                == h@.old_len);
                            assert(!cond);
                        }
                    } else {
                        let mut all_eq: bool = true;
                        let mut t: usize = 0;
                        while t < osl.len()
                            invariant
                                0 <= t <= osl@.len(),
                                osl@.len() == h@.old_len,
                                h@.old_start + h@.old_len <= av.len(),
                                la_len == la@.len(),
                                av == crate::lines::views_of(la@),
                                crate::lines::views_of(osl@) == old_side(h@.lines),
                                all_eq <==> (forall|y: int|
                                    0 <= y < t ==> old_side(h@.lines)[y] == av[h@.old_start + y]),
                            decreases osl@.len() - t,
                        {
                            let same = osl[t] == la[h.old_start + t];
                            proof {
                                if same {
                                    assert(crate::lines::views_of(osl@)[t as int] =~= av[
                                        h@.old_start + t
                                    ]);
                                    assert(old_side(h@.lines)[t as int] == av[h@.old_start + t]);
                                } else {
                                    assert(crate::lines::views_of(osl@)[t as int] != av[
                                        h@.old_start + t
                                    ]);
                                    assert(old_side(h@.lines)[t as int] != av[h@.old_start + t]);
                                }
                            }
                            if !same {
                                all_eq = false;
                            }
                            t = t + 1;
                        }
                        matches = all_eq;
                        proof {
                            let sub = av.subrange(h@.old_start, h@.old_start + h@.old_len);
                            if all_eq {
                                assert(old_side(h@.lines) =~= sub);
                                assert(cond);
                            } else {
                                let y0 = choose|y: int|
                                    0 <= y < osl@.len() && old_side(h@.lines)[y] != av[h@.old_start
                                        + y];
                                assert(old_side(h@.lines)[y0] != sub[y0]);
                                assert(old_side(h@.lines) != sub);
                                assert(!cond);
                            }
                        }
                    }
                },
            }
        }
        if matches {
            proof {
                assert(cond);
            }
            let ghost pre = crate::lines::views_of(out@);
            while c < h.old_start
                invariant
                    0 <= c0 <= c <= h@.old_start,
                    h@.old_start + h@.old_len <= av.len(),
                    la_len == la@.len(),
                    av == crate::lines::views_of(la@),
                    crate::lines::views_of(out@) == pre + av.subrange(c0, c as int),
                decreases h@.old_start - c,
            {
                let ghost preout = crate::lines::views_of(out@);
                out.push(vstd::slice::slice_to_vec(la[c].as_slice()));
                c = c + 1;
                proof {
                    assert(la@[c as int - 1]@ == av[c as int - 1]);
                    assert(crate::lines::views_of(out@) =~= preout.push(av[c as int - 1]));
                    assert(av.subrange(c0, c as int) =~= av.subrange(c0, c as int - 1).push(
                        av[c as int - 1],
                    ));
                    assert(crate::lines::views_of(out@) =~= pre + av.subrange(c0, c as int));
                }
            }
            let nsl = new_side_exec(&h.lines);
            let ghost mid = crate::lines::views_of(out@);
            let mut t: usize = 0;
            while t < nsl.len()
                invariant
                    0 <= t <= nsl@.len(),
                    crate::lines::views_of(nsl@) == new_side(h@.lines),
                    crate::lines::views_of(out@) == mid + new_side(h@.lines).take(t as int),
                decreases nsl@.len() - t,
            {
                let ghost preout = crate::lines::views_of(out@);
                out.push(vstd::slice::slice_to_vec(nsl[t].as_slice()));
                t = t + 1;
                proof {
                    let nsv = new_side(h@.lines);
                    assert(nsl@[t as int - 1]@ == crate::lines::views_of(nsl@)[t as int - 1]);
                    assert(crate::lines::views_of(out@) =~= preout.push(nsv[t as int - 1]));
                    assert(nsv.take(t as int) =~= nsv.take(t as int - 1).push(nsv[t as int - 1]));
                    assert(crate::lines::views_of(out@) =~= mid + nsv.take(t as int));
                }
            }
            c = h.old_start + h.old_len;
            i = i + 1;
            proof {
                let nsv = new_side(h@.lines);
                assert(nsv.take(nsl@.len() as int) =~= nsv);
                assert(crate::lines::views_of(out@) =~= pre + av.subrange(c0, h@.old_start) + nsv);
                assert(apply_from(rem, av, c0).0 =~= av.subrange(c0, h@.old_start) + nsv
                    + apply_from(rem.drop_first(), av, c as int).0);
                assert(apply_from(rem, av, c0).1 == apply_from(rem.drop_first(), av, c as int).1);
                assert(pre + (av.subrange(c0, h@.old_start) + nsv + apply_from(
                    rem.drop_first(),
                    av,
                    c as int,
                ).0) =~= crate::lines::views_of(out@) + apply_from(
                    hsv.skip(i as int),
                    av,
                    c as int,
                ).0);
            }
        } else {
            proof {
                assert(!cond);
            }
            let ghost prerej = crate::hunk::hunk_views(rej@);
            let hc = clone_hunk(h);
            rej.push(hc);
            i = i + 1;
            proof {
                assert(crate::hunk::hunk_views(rej@) =~= prerej.push(h@));
                assert(apply_from(rem, av, c0).0 == apply_from(rem.drop_first(), av, c0).0);
                assert(apply_from(rem, av, c0).1 =~= seq![h@] + apply_from(
                    rem.drop_first(),
                    av,
                    c0,
                ).1);
                assert(prerej + (seq![h@] + apply_from(rem.drop_first(), av, c0).1)
                    =~= crate::hunk::hunk_views(rej@) + apply_from(
                    hsv.skip(i as int),
                    av,
                    c0,
                ).1);
            }
        }
    }
    let ghost pre = crate::lines::views_of(out@);
    let ghost cmid = c as int;
    while c < la.len()
        invariant
            0 <= cmid <= c <= la@.len(),
            la_len == la@.len(),
            av == crate::lines::views_of(la@),
            crate::lines::views_of(out@) == pre + av.subrange(cmid, c as int),
        decreases la@.len() - c,
    {
        let ghost preout = crate::lines::views_of(out@);
        out.push(vstd::slice::slice_to_vec(la[c].as_slice()));
        c = c + 1;
        proof {
            assert(la@[c as int - 1]@ == av[c as int - 1]);
            assert(crate::lines::views_of(out@) =~= preout.push(av[c as int - 1]));
            assert(av.subrange(cmid, c as int) =~= av.subrange(cmid, c as int - 1).push(
                av[c as int - 1],
            ));
            assert(crate::lines::views_of(out@) =~= pre + av.subrange(cmid, c as int));
        }
    }
    proof {
        assert(hsv.skip(i as int) =~= Seq::<HunkV>::empty());
        assert(apply_from(hsv.skip(i as int), av, cmid).0 == av.skip(cmid));
        assert(apply_from(hsv.skip(i as int), av, cmid).1 == Seq::<HunkV>::empty());
        assert(av.subrange(cmid, c as int) =~= av.skip(cmid));
        assert(crate::lines::views_of(out@) =~= apply_from(hsv, av, 0).0);
        assert(crate::hunk::hunk_views(rej@) + Seq::<HunkV>::empty() =~= crate::hunk::hunk_views(
            rej@,
        ));
    }
    (out, rej)
}

pub proof fn lemma_dre_exact(l: Seq<u8>, i: int, j: int)
    requires
        0 <= i <= j <= l.len(),
        forall|t: int| i <= t < j ==> is_digit(#[trigger] l[t]),
        j == l.len() || !is_digit(l[j]),
    ensures
        digit_run_end(l, i) == j,
    decreases j - i,
{
    if i < j {
        assert(is_digit(l[i]));
        lemma_dre_exact(l, i + 1, j);
    }
}

pub proof fn lemma_dec_value_of_rep(l: Seq<u8>, i: int, j: int, n: int)
    requires
        n >= 0,
        0 <= i <= j <= l.len(),
        l.subrange(i, j) == crate::render::dec_rep(n),
    ensures
        dec_value(l, i, j) == n,
        j - i == crate::render::dec_rep(n).len(),
    decreases n,
{
    crate::render::lemma_dec_rep_digits(n);
    let d = crate::render::dec_rep(n);
    assert(j - i == d.len());
    if n < 10 {
        assert(l[j - 1] == d[0]);
        assert(dec_value(l, i, j) == dec_value(l, i, j - 1) * 10 + (l[j - 1] - 48));
        assert(dec_value(l, i, j - 1) == 0);
    } else {
        let d10 = crate::render::dec_rep(n / 10);
        assert(d == d10.push((48 + n % 10) as u8));
        assert(l.subrange(i, j - 1) =~= d10);
        assert(l[j - 1] == d[d.len() - 1]);
        lemma_dec_value_of_rep(l, i, j - 1, n / 10);
        assert(n == 10 * (n / 10) + n % 10) by (nonlinear_arith);
        assert(dec_value(l, i, j) == dec_value(l, i, j - 1) * 10 + (l[j - 1] - 48));
    }
}

/// The decimal rendering of `n`, embedded in `l` and followed by a
/// non-digit, parses back to `n`.
pub proof fn lemma_parse_num_at(l: Seq<u8>, i: int, n: int)
    requires
        n >= 0,
        0 <= i,
        i + crate::render::dec_rep(n).len() <= l.len(),
        l.subrange(i, i + crate::render::dec_rep(n).len()) == crate::render::dec_rep(n),
        i + crate::render::dec_rep(n).len() == l.len() || !is_digit(
            l[i + crate::render::dec_rep(n).len()],
        ),
    ensures
        parse_num(l, i) == Some((n, i + crate::render::dec_rep(n).len())),
{
    crate::render::lemma_dec_rep_digits(n);
    let j = i + crate::render::dec_rep(n).len();
    assert forall|t: int| i <= t < j implies is_digit(#[trigger] l[t]) by {
        assert(l[t] == l.subrange(i, j)[t - i]);
        assert(48 <= crate::render::dec_rep(n)[t - i] <= 57);
    }
    lemma_dre_exact(l, i, j);
    lemma_dec_value_of_rep(l, i, j, n);
}

/// A rendered hunk header parses back to the four numbers it displays.
#[verifier::rlimit(60)]
pub proof fn lemma_parse_header_of(h: HunkV)
    requires
        h.old_start >= 0,
        h.old_len >= 0,
        h.new_start >= 0,
        h.new_len >= 0,
    ensures
        parse_header(crate::render::header_of(h)) == Some(
            (crate::render::old_disp(h), h.old_len, crate::render::new_disp(h), h.new_len),
        ),
{
    let l = crate::render::header_of(h);
    let d1 = crate::render::dec_rep(crate::render::old_disp(h));
    let d2 = crate::render::dec_rep(h.old_len);
    let d3 = crate::render::dec_rep(crate::render::new_disp(h));
    let d4 = crate::render::dec_rep(h.new_len);
    crate::render::lemma_dec_rep_digits(crate::render::old_disp(h));
    crate::render::lemma_dec_rep_digits(h.old_len);
    crate::render::lemma_dec_rep_digits(crate::render::new_disp(h));
    crate::render::lemma_dec_rep_digits(h.new_len);
    let q1 = 4 + d1.len() as int;
    let q2 = q1 + 1 + d2.len() as int;
    let q3 = q2 + 2 + d3.len() as int;
    let q4 = q3 + 1 + d4.len() as int;
    assert(l.len() == q4 + 4);
    assert(l[0] == 64 && l[1] == 64 && l[2] == 32 && l[3] == 45);
    assert(l.subrange(4, q1) =~= d1);
    assert(l[q1] == 44);
    lemma_parse_num_at(l, 4, crate::render::old_disp(h));
    assert(l.subrange(q1 + 1, q1 + 1 + d2.len() as int) =~= d2);
    assert(l[q2] == 32);
    lemma_parse_num_at(l, q1 + 1, h.old_len);
    assert(l[q2 + 1] == 43);
    assert(l.subrange(q2 + 2, q2 + 2 + d3.len() as int) =~= d3);
    assert(l[q3] == 44);
    lemma_parse_num_at(l, q2 + 2, crate::render::new_disp(h));
    assert(l.subrange(q3 + 1, q3 + 1 + d4.len() as int) =~= d4);
    assert(l[q4] == 32);
    lemma_parse_num_at(l, q3 + 1, h.new_len);
    assert(l[q4 + 1] == 64 && l[q4 + 2] == 64 && l[q4 + 3] == 10);
}

/// A rendered header is one whole, terminated line.
pub proof fn lemma_header_line(h: HunkV)
    requires
        h.old_start >= 0,
        h.old_len >= 0,
        h.new_start >= 0,
        h.new_len >= 0,
    ensures
        crate::lines::is_line(crate::render::header_of(h)),
        crate::lines::terminated(crate::render::header_of(h)),
{
    let l = crate::render::header_of(h);
    let d1 = crate::render::dec_rep(crate::render::old_disp(h));
    let d2 = crate::render::dec_rep(h.old_len);
    let d3 = crate::render::dec_rep(crate::render::new_disp(h));
    let d4 = crate::render::dec_rep(h.new_len);
    crate::render::lemma_dec_rep_digits(crate::render::old_disp(h));
    crate::render::lemma_dec_rep_digits(h.old_len);
    crate::render::lemma_dec_rep_digits(crate::render::new_disp(h));
    crate::render::lemma_dec_rep_digits(h.new_len);
    let q1 = 4 + d1.len() as int;
    let q2 = q1 + 1 + d2.len() as int;
    let q3 = q2 + 2 + d3.len() as int;
    let q4 = q3 + 1 + d4.len() as int;
    assert(l.len() == q4 + 4);
    assert(l.last() == 10);
    assert forall|i: int| 0 <= i < l.len() - 1 implies l[i] != crate::lines::NEWLINE by {
        if 4 <= i < q1 {
            assert(l[i] == d1[i - 4]);
        } else if q1 + 1 <= i < q1 + 1 + d2.len() {
            assert(l[i] == d2[i - (q1 + 1)]);
        } else if q2 + 2 <= i < q2 + 2 + d3.len() {
            assert(l[i] == d3[i - (q2 + 2)]);
        } else if q3 + 1 <= i < q3 + 1 + d4.len() {
            assert(l[i] == d4[i - (q3 + 1)]);
        }
    }
}

/// Every hunk line of `h` is a whole terminated line.
pub open spec fn hunk_lines_whole(h: HunkV) -> bool {
    forall|i: int|
        0 <= i < h.lines.len() ==> crate::lines::is_line(
            crate::render::line_content(#[trigger] h.lines[i]),
        ) && crate::lines::terminated(crate::render::line_content(h.lines[i]))
}

/// A hunk that parses back from its own rendering: nonnegative ranges whose
/// lengths equal its side line counts, and whole terminated lines.
pub open spec fn hunk_clean(h: HunkV) -> bool {
    &&& h.old_start >= 0
    &&& h.new_start >= 0
    &&& old_side(h.lines).len() == h.old_len
    &&& new_side(h.lines).len() == h.new_len
    &&& h.old_start + 1 <= usize::MAX
    &&& h.old_len <= usize::MAX
    &&& h.new_start + 1 <= usize::MAX
    &&& h.new_len <= usize::MAX
    &&& hunk_lines_whole(h)
}

/// The patch lines of one hunk: its header, then its tagged lines.
pub open spec fn hunk_text_lines(h: HunkV) -> Seq<Seq<u8>> {
    seq![crate::render::header_of(h)] + Seq::new(
        h.lines.len(),
        |i: int| crate::render::line_bytes(h.lines[i]),
    )
}

/// The patch lines of a hunk list.
pub open spec fn patch_text_lines(hs: Seq<HunkV>) -> Seq<Seq<u8>>
    decreases hs.len(),
{
    if hs.len() == 0 {
        Seq::empty()
    } else {
        hunk_text_lines(hs.first()) + patch_text_lines(hs.drop_first())
    }
}

/// Side counts of a line list decompose over its first line.
pub proof fn lemma_sides_len(ls: Seq<LineV>)
    requires
        ls.len() > 0,
    ensures
        old_side(ls).len() == old_side(ls.drop_first()).len() + (match ls.first() {
            LineV::Added(_) => 0int,
            _ => 1int,
        }),
        new_side(ls).len() == new_side(ls.drop_first()).len() + (match ls.first() {
            LineV::Deleted(_) => 0int,
            _ => 1int,
        }),
{
}

/// Splitting the rendered lines of a line list gives one line per tagged
/// line, and the whole text is newline-ended.
pub proof fn lemma_lines_bytes_lines(ls: Seq<LineV>)
    requires
        forall|i: int|
            0 <= i < ls.len() ==> crate::lines::is_line(
                crate::render::line_content(#[trigger] ls[i]),
            ) && crate::lines::terminated(crate::render::line_content(ls[i])),
    ensures
        crate::lines::lines_of(crate::render::lines_bytes(ls)) == Seq::new(
            ls.len(),
            |i: int| crate::render::line_bytes(ls[i]),
        ),
        crate::lines::nl_ended(crate::render::lines_bytes(ls)),
    decreases ls.len(),
{
    if ls.len() == 0 {
        assert(crate::lines::lines_of(crate::render::lines_bytes(ls)) =~= Seq::new(
            ls.len(),
            |i: int| crate::render::line_bytes(ls[i]),
        ));
    } else {
        let l0 = ls.first();
        let piece = crate::render::line_bytes(l0);
        let c = crate::render::line_content(l0);
        assert(piece.len() == 1 + c.len());
        assert(crate::render::line_tag(l0) != crate::lines::NEWLINE);
        assert forall|i: int| 0 <= i < piece.len() - 1 implies piece[i] != crate::lines::NEWLINE by {
            if i >= 1 {
                assert(piece[i] == c[i - 1]);
            }
        }
        assert(crate::lines::is_line(piece));
        assert(piece.last() == c.last());
        assert(crate::lines::terminated(piece));
        assert(forall|i: int|
            0 <= i < ls.drop_first().len() ==> crate::lines::is_line(
                crate::render::line_content(#[trigger] ls.drop_first()[i]),
            ) && crate::lines::terminated(crate::render::line_content(ls.drop_first()[i])));
        lemma_lines_bytes_lines(ls.drop_first());
        crate::lines::lemma_lines_of_append(piece, crate::render::lines_bytes(ls.drop_first()));
        crate::lines::lemma_lines_of_line(piece);
        assert(crate::lines::lines_of(crate::render::lines_bytes(ls)) =~= Seq::new(
            ls.len(),
            |i: int| crate::render::line_bytes(ls[i]),
        ));
        let whole = crate::render::lines_bytes(ls);
        if ls.drop_first().len() == 0 {
            assert(crate::render::lines_bytes(ls.drop_first()) =~= Seq::<u8>::empty());
            assert(whole =~= piece);
        } else {
            let rest = crate::render::lines_bytes(ls.drop_first());
            assert(rest.len() > 0) by {
                assert(crate::lines::lines_of(rest).len() == ls.drop_first().len());
                crate::lines::lemma_lines_shape(rest);
            }
            assert(whole.last() == rest.last());
        }
    }
}

/// Splitting one rendered hunk gives its header line and tagged lines.
pub proof fn lemma_hunk_text(h: HunkV)
    requires
        hunk_clean(h),
    ensures
        crate::lines::lines_of(crate::render::hunk_bytes(h)) == hunk_text_lines(h),
        crate::lines::nl_ended(crate::render::hunk_bytes(h)),
{
    lemma_header_line(h);
    assert(forall|i: int|
        0 <= i < h.lines.len() ==> crate::lines::is_line(
            crate::render::line_content(#[trigger] h.lines[i]),
        ) && crate::lines::terminated(crate::render::line_content(h.lines[i])));
    lemma_lines_bytes_lines(h.lines);
    crate::lines::lemma_lines_of_append(
        crate::render::header_of(h),
        crate::render::lines_bytes(h.lines),
    );
    crate::lines::lemma_lines_of_line(crate::render::header_of(h));
    assert(crate::lines::lines_of(crate::render::hunk_bytes(h)) =~= hunk_text_lines(h));
    let whole = crate::render::hunk_bytes(h);
    if h.lines.len() == 0 {
        assert(crate::render::lines_bytes(h.lines) =~= Seq::<u8>::empty());
        assert(whole =~= crate::render::header_of(h));
    } else {
        let rest = crate::render::lines_bytes(h.lines);
        assert(rest.len() > 0) by {
            assert(crate::lines::lines_of(rest).len() == h.lines.len());
            crate::lines::lemma_lines_shape(rest);
        }
        assert(whole.last() == rest.last());
    }
}

/// Splitting a rendered patch gives the patch lines of its hunks.
pub proof fn lemma_patch_text(hs: Seq<HunkV>)
    requires
        forall|i: int| 0 <= i < hs.len() ==> hunk_clean(#[trigger] hs[i]),
    ensures
        crate::lines::lines_of(crate::render::patch_bytes(hs)) == patch_text_lines(hs),
    decreases hs.len(),
{
    if hs.len() == 0 {
        assert(crate::lines::lines_of(crate::render::patch_bytes(hs)) =~= patch_text_lines(hs));
    } else {
        assert(hunk_clean(hs[0]));
        lemma_hunk_text(hs.first());
        assert(forall|i: int|
            0 <= i < hs.drop_first().len() ==> hunk_clean(#[trigger] hs.drop_first()[i]));
        lemma_patch_text(hs.drop_first());
        crate::lines::lemma_lines_of_append(
            crate::render::hunk_bytes(hs.first()),
            crate::render::patch_bytes(hs.drop_first()),
        );
        assert(crate::lines::lines_of(crate::render::patch_bytes(hs)) =~= patch_text_lines(hs));
    }
}

/// Rendered tagged lines parse back to the hunk lines that produced them.
pub proof fn lemma_parse_body_round(pls: Seq<Seq<u8>>, i: int, ls: Seq<LineV>)
    requires
        0 <= i,
        i + ls.len() <= pls.len(),
        forall|t: int| 0 <= t < ls.len() ==> pls[i + t] == crate::render::line_bytes(#[trigger] ls[t]),
        forall|t: int|
            0 <= t < ls.len() ==> crate::lines::is_line(
                crate::render::line_content(#[trigger] ls[t]),
            ),
    ensures
        parse_body(pls, i, old_side(ls).len() as int, new_side(ls).len() as int) == Some(
            (ls, i + ls.len()),
        ),
    decreases ls.len(),
{
    crate::hunk::lemma_sides_snoc(ls, ls.first());
    if ls.len() == 0 {
        assert(old_side(ls).len() == 0 && new_side(ls).len() == 0);
        assert(parse_body(pls, i, 0, 0) == Some((Seq::<LineV>::empty(), i)));
        assert(ls =~= Seq::<LineV>::empty());
    } else {
        let l0 = ls.first();
        let piece = crate::render::line_bytes(l0);
        assert(pls[i] == piece);
        assert(piece.len() > 0);
        assert(piece[0] == crate::render::line_tag(l0));
        assert(piece.drop_first() =~= crate::render::line_content(l0));
        lemma_sides_len(ls);
        assert(forall|t: int|
            0 <= t < ls.drop_first().len() ==> pls[i + 1 + t] == crate::render::line_bytes(
                #[trigger] ls.drop_first()[t],
            ));
        assert(forall|t: int|
            0 <= t < ls.drop_first().len() ==> crate::lines::is_line(
                crate::render::line_content(#[trigger] ls.drop_first()[t]),
            ));
        lemma_parse_body_round(pls, i + 1, ls.drop_first());
        let od = old_side(ls).len() as int;
        let nd = new_side(ls).len() as int;
        match l0 {
            LineV::Context(c) => {
                assert(od > 0 && nd > 0);
                assert(parse_body(pls, i, od, nd) == Some(
                    (seq![LineV::Context(crate::render::line_content(l0))] + ls.drop_first(), i
                        + ls.len()),
                ));
                assert(seq![LineV::Context(crate::render::line_content(l0))] + ls.drop_first()
                    =~= ls);
            },
            LineV::Deleted(c) => {
                assert(od > 0);
                assert(crate::render::line_tag(l0) == 45 && 45 != 32);
                assert(parse_body(pls, i, od, nd) == Some(
                    (seq![LineV::Deleted(crate::render::line_content(l0))] + ls.drop_first(), i
                        + ls.len()),
                ));
                assert(seq![LineV::Deleted(crate::render::line_content(l0))] + ls.drop_first()
                    =~= ls);
            },
            LineV::Added(c) => {
                assert(nd > 0);
                assert(parse_body(pls, i, od, nd) == Some(
                    (seq![LineV::Added(crate::render::line_content(l0))] + ls.drop_first(), i
                        + ls.len()),
                ));
                assert(seq![LineV::Added(crate::render::line_content(l0))] + ls.drop_first()
                    =~= ls);
            },
        }
    }
}

/// The patch lines of clean hunks parse back to exactly those hunks.
pub proof fn lemma_parse_hunks_round(pls: Seq<Seq<u8>>, i: int, hs: Seq<HunkV>)
    requires
        0 <= i <= pls.len(),
        pls.skip(i) == patch_text_lines(hs),
        forall|x: int| 0 <= x < hs.len() ==> hunk_clean(#[trigger] hs[x]),
    ensures
        parse_hunks(pls, i) == Some(hs),
    decreases hs.len(),
{
    if hs.len() == 0 {
        assert(pls.skip(i).len() == 0);
        assert(i == pls.len());
        assert(parse_hunks(pls, i) == Some(Seq::<HunkV>::empty()));
        assert(Seq::<HunkV>::empty() =~= hs);
    } else {
        let h = hs[0];
        assert(hunk_clean(h));
        let htl = hunk_text_lines(h);
        assert(pls.skip(i).len() == patch_text_lines(hs).len());
        assert(i < pls.len());
        assert(pls[i] == pls.skip(i)[0]);
        assert(pls.skip(i)[0] == htl[0]);
        assert(pls[i] == crate::render::header_of(h));
        lemma_parse_header_of(h);
        let od = crate::render::old_disp(h);
        let nd = crate::render::new_disp(h);
        let os = if h.old_len > 0 {
            od - 1
        } else {
            od
        };
        let ns = if h.new_len > 0 {
            nd - 1
        } else {
            nd
        };
        assert(os == h.old_start && ns == h.new_start);
        assert(i + 1 + h.lines.len() <= pls.len());
        assert forall|t: int| 0 <= t < h.lines.len() implies pls[i + 1 + t]
            == crate::render::line_bytes(#[trigger] h.lines[t]) by {
            assert(pls[i + 1 + t] == pls.skip(i)[1 + t]);
            assert(pls.skip(i)[1 + t] == htl[1 + t]);
        }
        assert(forall|t: int|
            0 <= t < h.lines.len() ==> crate::lines::is_line(
                crate::render::line_content(#[trigger] h.lines[t]),
            ));
        lemma_parse_body_round(pls, i + 1, h.lines);
        assert(parse_body(pls, i + 1, h.old_len, h.new_len) == Some(
            (h.lines, i + 1 + h.lines.len()),
        ));
        let j = i + 1 + h.lines.len() as int;
        assert(pls.skip(j) =~= patch_text_lines(hs.drop_first())) by {
            assert(pls.skip(i) =~= htl + patch_text_lines(hs.drop_first()));
            assert(forall|t: int|
                0 <= t < pls.skip(j).len() ==> pls.skip(j)[t] == pls.skip(i)[t + 1
                    + h.lines.len()]);
        }
        assert(forall|x: int|
            0 <= x < hs.drop_first().len() ==> hunk_clean(#[trigger] hs.drop_first()[x]));
        lemma_parse_hunks_round(pls, j, hs.drop_first());
        assert(parse_hunks(pls, i) == Some(
            seq![
                HunkV {
                    old_start: os,
                    old_len: h.old_len,
                    new_start: ns,
                    new_len: h.new_len,
                    lines: h.lines,
                },
            ] + hs.drop_first(),
        ));
        assert(HunkV {
            old_start: os,
            old_len: h.old_len,
            new_start: ns,
            new_len: h.new_len,
            lines: h.lines,
        } =~= h);
        assert(seq![h] + hs.drop_first() =~= hs);
    }
}

pub proof fn lemma_bounds_wf_elems(s: Seq<crate::script::Edit>, bs: Seq<(int, int)>, from: int)
    requires
        crate::hunk::bounds_wf(s, bs, from),
    ensures
        forall|i: int| 0 <= i < bs.len() ==> from <= #[trigger] bs[i].0 < bs[i].1 <= s.len(),
    decreases bs.len(),
{
    if bs.len() > 0 {
        lemma_bounds_wf_elems(s, bs.drop_first(), bs[0].1);
        assert forall|i: int| 0 <= i < bs.len() implies from <= #[trigger] bs[i].0 < bs[i].1
            <= s.len() by {
            if i > 0 {
                assert(bs[i] == bs.drop_first()[i - 1]);
            }
        }
    }
}

/// Hunks carved from a script between files made of whole terminated lines
/// are clean: they parse back from their own rendering.
pub proof fn lemma_hunks_at_clean(
    s: Seq<crate::script::Edit>,
    a: Seq<Seq<u8>>,
    b: Seq<Seq<u8>>,
    bs: Seq<(int, int)>,
    from: int,
)
    requires
        crate::script::script_fits(s, a, b),
        crate::hunk::bounds_wf(s, bs, from),
        0 <= from,
        a.len() < usize::MAX,
        b.len() < usize::MAX,
        forall|i: int|
            0 <= i < a.len() ==> crate::lines::is_line(#[trigger] a[i]) && crate::lines::terminated(
                a[i],
            ),
        forall|i: int|
            0 <= i < b.len() ==> crate::lines::is_line(#[trigger] b[i]) && crate::lines::terminated(
                b[i],
            ),
    ensures
        forall|i: int|
            0 <= i < bs.len() ==> hunk_clean(#[trigger] crate::hunk::hunks_at(s, a, b, bs)[i]),
{
    lemma_bounds_wf_elems(s, bs, from);
    let hv = crate::hunk::hunks_at(s, a, b, bs);
    assert forall|i: int| 0 <= i < bs.len() implies hunk_clean(#[trigger] hv[i]) by {
        let lo = bs[i].0;
        let hi = bs[i].1;
        let h = crate::hunk::hunk_at(s, a, b, lo, hi);
        assert(hv[i] == h);
        crate::hunk::lemma_hunk_at_sides(s, a, b, lo, hi);
        crate::script::lemma_fits_skip(s, a, b, lo);
        assert(old_side(h.lines).len() == h.old_len);
        assert(new_side(h.lines).len() == h.new_len);
        assert forall|t: int|
            0 <= t < h.lines.len() implies crate::lines::is_line(
            crate::render::line_content(#[trigger] h.lines[t]),
        ) && crate::lines::terminated(crate::render::line_content(h.lines[t])) by {
            assert(h.lines[t] == crate::hunk::line_at(s, a, b, lo + t));
            crate::script::lemma_fits_at(s, a, b, lo + t);
            match s[lo + t] {
                crate::script::Edit::Keep => {
                    assert(crate::render::line_content(h.lines[t]) == a[crate::script::old_pos(
                        s,
                        lo + t,
                    )]);
                },
                crate::script::Edit::Remove => {
                    assert(crate::render::line_content(h.lines[t]) == a[crate::script::old_pos(
                        s,
                        lo + t,
                    )]);
                },
                crate::script::Edit::Insert => {
                    assert(crate::render::line_content(h.lines[t]) == b[crate::script::new_pos(
                        s,
                        lo + t,
                    )]);
                },
            }
        }
    }
}

} // verus!
