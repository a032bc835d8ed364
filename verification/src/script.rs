//! Minimal line-level edit scripts.
//!
//! A script is a sequence of [`Edit`] steps read left to right: `Keep`
//! consumes one equal line from each side, `Remove` consumes one line of the
//! old side, `Insert` one line of the new side. The canonical script
//! [`spec_script`] keeps equal heads and otherwise prefers the
//! earliest-position alignment among the shortest scripts; its edit count is
//! exactly `|a| + |b| - 2·lcs(a, b)`.

use vstd::prelude::*;

use crate::lines::views_of;
use crate::XdiffError;

verus! {

/// One step of an edit script.
#[derive(Clone, Copy, Debug, PartialEq, Eq, Structural)]
pub enum Edit {
    /// The old and new side carry the same line here.
    Keep,
    /// A line of the old side that the new side does not have.
    Remove,
    /// A line of the new side that the old side does not have.
    Insert,
}

/// Length of a longest common subsequence of `a` and `b`.
pub open spec fn lcs_len<T>(a: Seq<T>, b: Seq<T>) -> int
    decreases a.len() + b.len(),
{
    if a.len() == 0 || b.len() == 0 {
        0
    } else if a.first() == b.first() {
        1 + lcs_len(a.drop_first(), b.drop_first())
    } else {
        let da = lcs_len(a.drop_first(), b);
        let db = lcs_len(a, b.drop_first());
        if da >= db {
            da
        } else {
            db
        }
    }
}

pub proof fn lemma_lcs_bounds<T>(a: Seq<T>, b: Seq<T>)
    ensures
        0 <= lcs_len(a, b),
        lcs_len(a, b) <= a.len(),
        lcs_len(a, b) <= b.len(),
    decreases a.len() + b.len(),
{
    if a.len() != 0 && b.len() != 0 {
        if a.first() == b.first() {
            lemma_lcs_bounds(a.drop_first(), b.drop_first());
        } else {
            lemma_lcs_bounds(a.drop_first(), b);
            lemma_lcs_bounds(a, b.drop_first());
        }
    }
}

/// The canonical shortest edit script from `a` to `b`: keep equal heads,
/// otherwise remove from `a` first whenever that still admits a longest
/// common subsequence (earliest-position alignment).
pub open spec fn spec_script<T>(a: Seq<T>, b: Seq<T>) -> Seq<Edit>
    decreases a.len() + b.len(),
{
    if a.len() == 0 && b.len() == 0 {
        Seq::empty()
    } else if b.len() == 0 {
        seq![Edit::Remove] + spec_script(a.drop_first(), b)
    } else if a.len() == 0 {
        seq![Edit::Insert] + spec_script(a, b.drop_first())
    } else if a.first() == b.first() {
        seq![Edit::Keep] + spec_script(a.drop_first(), b.drop_first())
    } else if lcs_len(a.drop_first(), b) >= lcs_len(a, b.drop_first()) {
        seq![Edit::Remove] + spec_script(a.drop_first(), b)
    } else {
        seq![Edit::Insert] + spec_script(a, b.drop_first())
    }
}

/// How many lines of the old side a script consumes.
pub open spec fn count_old(s: Seq<Edit>) -> int
    decreases s.len(),
{
    if s.len() == 0 {
        0
    } else {
        (if s.first() == Edit::Insert {
            0int
        } else {
            1int
        }) + count_old(s.drop_first())
    }
}

/// How many lines of the new side a script produces.
pub open spec fn count_new(s: Seq<Edit>) -> int
    decreases s.len(),
{
    if s.len() == 0 {
        0
    } else {
        (if s.first() == Edit::Remove {
            0int
        } else {
            1int
        }) + count_new(s.drop_first())
    }
}

/// Old-side position reached after the first `k` steps of `s`.
pub open spec fn old_pos(s: Seq<Edit>, k: int) -> int {
    count_old(s.take(k))
}

/// New-side position reached after the first `k` steps of `s`.
pub open spec fn new_pos(s: Seq<Edit>, k: int) -> int {
    count_new(s.take(k))
}

/// How many steps of a script change something (are not `Keep`).
pub open spec fn edit_count(s: Seq<Edit>) -> int
    decreases s.len(),
{
    if s.len() == 0 {
        0
    } else {
        (if s.first() == Edit::Keep {
            0int
        } else {
            1int
        }) + edit_count(s.drop_first())
    }
}

/// How many steps of a script keep a line (are `Keep`).
pub open spec fn keep_count(s: Seq<Edit>) -> int
    decreases s.len(),
{
    if s.len() == 0 {
        0
    } else {
        (if s.first() == Edit::Keep {
            1int
        } else {
            0int
        }) + keep_count(s.drop_first())
    }
}

/// Dropping the first element of either side changes the longest common
/// subsequence length by at most one, and never increases it.
pub proof fn lemma_lcs_drop<T>(a: Seq<T>, b: Seq<T>)
    ensures
        a.len() > 0 ==> lcs_len(a.drop_first(), b) <= lcs_len(a, b) <= 1 + lcs_len(
            a.drop_first(),
            b,
        ),
        b.len() > 0 ==> lcs_len(a, b.drop_first()) <= lcs_len(a, b) <= 1 + lcs_len(
            a,
            b.drop_first(),
        ),
    decreases a.len() + b.len(),
{
    lemma_lcs_bounds(a, b);
    if a.len() > 0 && b.len() == 0 {
        lemma_lcs_bounds(a.drop_first(), b);
    }
    if b.len() > 0 && a.len() == 0 {
        lemma_lcs_bounds(a, b.drop_first());
    }
    if a.len() > 0 && b.len() > 0 {
        let at = a.drop_first();
        let bt = b.drop_first();
        lemma_lcs_drop(at, b);
        lemma_lcs_drop(a, bt);
        lemma_lcs_drop(at, bt);
        lemma_lcs_bounds(at, b);
        lemma_lcs_bounds(a, bt);
        lemma_lcs_bounds(at, bt);
        if a.first() == b.first() {
            assert(lcs_len(a, b) == 1 + lcs_len(at, bt));
        } else {
            assert(lcs_len(a, b) == if lcs_len(at, b) >= lcs_len(a, bt) {
                lcs_len(at, b)
            } else {
                lcs_len(a, bt)
            });
        }
    }
}

/// A valid script changes exactly `|a| + |b| - 2·keeps` lines.
pub proof fn lemma_fits_edit_count<T>(s: Seq<Edit>, a: Seq<T>, b: Seq<T>)
    requires
        script_fits(s, a, b),
    ensures
        edit_count(s) + 2 * keep_count(s) == a.len() + b.len(),
    decreases s.len(),
{
    if s.len() > 0 {
        match s.first() {
            Edit::Keep => {
                lemma_fits_edit_count(s.drop_first(), a.drop_first(), b.drop_first());
            },
            Edit::Remove => {
                lemma_fits_edit_count(s.drop_first(), a.drop_first(), b);
            },
            Edit::Insert => {
                lemma_fits_edit_count(s.drop_first(), a, b.drop_first());
            },
        }
    }
}

/// A valid script keeps at most `lcs(a, b)` lines.
pub proof fn lemma_fits_keep_count<T>(s: Seq<Edit>, a: Seq<T>, b: Seq<T>)
    requires
        script_fits(s, a, b),
    ensures
        keep_count(s) <= lcs_len(a, b),
    decreases s.len(),
{
    lemma_lcs_bounds(a, b);
    if s.len() > 0 {
        match s.first() {
            Edit::Keep => {
                lemma_fits_keep_count(s.drop_first(), a.drop_first(), b.drop_first());
                assert(lcs_len(a, b) == 1 + lcs_len(a.drop_first(), b.drop_first()));
            },
            Edit::Remove => {
                lemma_fits_keep_count(s.drop_first(), a.drop_first(), b);
                lemma_lcs_drop(a, b);
            },
            Edit::Insert => {
                lemma_fits_keep_count(s.drop_first(), a, b.drop_first());
                lemma_lcs_drop(a, b);
            },
        }
    }
}

/// No valid edit script from `a` to `b` changes fewer than
/// `|a| + |b| - 2·lcs(a, b)` lines.
pub proof fn lemma_script_edit_lower_bound<T>(s: Seq<Edit>, a: Seq<T>, b: Seq<T>)
    requires
        script_fits(s, a, b),
    ensures
        edit_count(s) >= a.len() + b.len() - 2 * lcs_len(a, b),
{
    lemma_fits_edit_count(s, a, b);
    lemma_fits_keep_count(s, a, b);
}

/// `s` is a valid edit script from `a` to `b`: walked left to right it
/// consumes exactly `a` and produces exactly `b`, pairing equal lines at
/// every `Keep`.
pub open spec fn script_fits<T>(s: Seq<Edit>, a: Seq<T>, b: Seq<T>) -> bool
    decreases s.len(),
{
    if s.len() == 0 {
        a.len() == 0 && b.len() == 0
    } else {
        match s.first() {
            Edit::Keep => a.len() > 0 && b.len() > 0 && a.first() == b.first() && script_fits(
                s.drop_first(),
                a.drop_first(),
                b.drop_first(),
            ),
            Edit::Remove => a.len() > 0 && script_fits(s.drop_first(), a.drop_first(), b),
            Edit::Insert => b.len() > 0 && script_fits(s.drop_first(), a, b.drop_first()),
        }
    }
}

/// The canonical script is a valid script.
pub proof fn lemma_spec_script_fits<T>(a: Seq<T>, b: Seq<T>)
    ensures
        script_fits(spec_script(a, b), a, b),
    decreases a.len() + b.len(),
{
    if a.len() == 0 && b.len() == 0 {
    } else if b.len() == 0 {
        lemma_spec_script_fits(a.drop_first(), b);
        assert((seq![Edit::Remove] + spec_script(a.drop_first(), b)).drop_first()
            =~= spec_script(a.drop_first(), b));
    } else if a.len() == 0 {
        lemma_spec_script_fits(a, b.drop_first());
        assert((seq![Edit::Insert] + spec_script(a, b.drop_first())).drop_first()
            =~= spec_script(a, b.drop_first()));
    } else if a.first() == b.first() {
        lemma_spec_script_fits(a.drop_first(), b.drop_first());
        assert((seq![Edit::Keep] + spec_script(a.drop_first(), b.drop_first())).drop_first()
            =~= spec_script(a.drop_first(), b.drop_first()));
    } else if lcs_len(a.drop_first(), b) >= lcs_len(a, b.drop_first()) {
        lemma_spec_script_fits(a.drop_first(), b);
        assert((seq![Edit::Remove] + spec_script(a.drop_first(), b)).drop_first()
            =~= spec_script(a.drop_first(), b));
    } else {
        lemma_spec_script_fits(a, b.drop_first());
        assert((seq![Edit::Insert] + spec_script(a, b.drop_first())).drop_first()
            =~= spec_script(a, b.drop_first()));
    }
}

/// Diffing equal inputs keeps every line: the script is all `Keep`.
pub proof fn lemma_spec_script_self<T>(t: Seq<T>)
    ensures
        spec_script(t, t).len() == t.len(),
        forall|k: int| 0 <= k < t.len() ==> spec_script(t, t)[k] == Edit::Keep,
    decreases t.len(),
{
    if t.len() > 0 {
        lemma_spec_script_self(t.drop_first());
        assert(spec_script(t, t) =~= seq![Edit::Keep] + spec_script(
            t.drop_first(),
            t.drop_first(),
        ));
    }
}

/// The canonical script is minimal: it changes exactly
/// `|a| + |b| - 2·lcs(a, b)` lines.
pub proof fn lemma_spec_script_minimal<T>(a: Seq<T>, b: Seq<T>)
    ensures
        edit_count(spec_script(a, b)) == a.len() + b.len() - 2 * lcs_len(a, b),
    decreases a.len() + b.len(),
{
    lemma_lcs_bounds(a, b);
    if a.len() == 0 && b.len() == 0 {
    } else if b.len() == 0 {
        lemma_spec_script_minimal(a.drop_first(), b);
        assert((seq![Edit::Remove] + spec_script(a.drop_first(), b)).drop_first()
            =~= spec_script(a.drop_first(), b));
    } else if a.len() == 0 {
        lemma_spec_script_minimal(a, b.drop_first());
        assert((seq![Edit::Insert] + spec_script(a, b.drop_first())).drop_first()
            =~= spec_script(a, b.drop_first()));
    } else if a.first() == b.first() {
        lemma_spec_script_minimal(a.drop_first(), b.drop_first());
        assert((seq![Edit::Keep] + spec_script(a.drop_first(), b.drop_first())).drop_first()
            =~= spec_script(a.drop_first(), b.drop_first()));
    } else if lcs_len(a.drop_first(), b) >= lcs_len(a, b.drop_first()) {
        lemma_spec_script_minimal(a.drop_first(), b);
        assert((seq![Edit::Remove] + spec_script(a.drop_first(), b)).drop_first()
            =~= spec_script(a.drop_first(), b));
    } else {
        lemma_spec_script_minimal(a, b.drop_first());
        assert((seq![Edit::Insert] + spec_script(a, b.drop_first())).drop_first()
            =~= spec_script(a, b.drop_first()));
    }
}

pub proof fn lemma_count_old_snoc(s: Seq<Edit>, op: Edit)
    ensures
        count_old(s.push(op)) == count_old(s) + (if op == Edit::Insert {
            0int
        } else {
            1int
        }),
        count_new(s.push(op)) == count_new(s) + (if op == Edit::Remove {
            0int
        } else {
            1int
        }),
    decreases s.len(),
{
    if s.len() == 0 {
        assert(s.push(op).first() == op);
        assert(s.push(op).drop_first() =~= Seq::<Edit>::empty());
        assert(count_old(Seq::<Edit>::empty()) == 0);
        assert(count_new(Seq::<Edit>::empty()) == 0);
    } else {
        assert(s.push(op).first() == s.first());
        assert(s.push(op).drop_first() =~= s.drop_first().push(op));
        lemma_count_old_snoc(s.drop_first(), op);
    }
}

/// One script step advances the side positions by what it consumes.
pub proof fn lemma_pos_step(s: Seq<Edit>, k: int)
    requires
        0 <= k < s.len(),
    ensures
        old_pos(s, k + 1) == old_pos(s, k) + (if s[k] == Edit::Insert {
            0int
        } else {
            1int
        }),
        new_pos(s, k + 1) == new_pos(s, k) + (if s[k] == Edit::Remove {
            0int
        } else {
            1int
        }),
{
    assert(s.take(k + 1) =~= s.take(k).push(s[k]));
    lemma_count_old_snoc(s.take(k), s[k]);
}

/// Side positions start at zero and never decrease.
pub proof fn lemma_pos_bounds(s: Seq<Edit>, k1: int, k2: int)
    requires
        0 <= k1 <= k2 <= s.len(),
    ensures
        old_pos(s, k1) <= old_pos(s, k2),
        new_pos(s, k1) <= new_pos(s, k2),
        old_pos(s, k2) - old_pos(s, k1) <= k2 - k1,
        new_pos(s, k2) - new_pos(s, k1) <= k2 - k1,
        old_pos(s, k2) - old_pos(s, k1) + (new_pos(s, k2) - new_pos(s, k1)) >= k2 - k1,
    decreases k2 - k1,
{
    if k1 < k2 {
        lemma_pos_bounds(s, k1, k2 - 1);
        lemma_pos_step(s, k2 - 1);
    }
}

/// A valid script restarted after `k` steps is a valid script for what is
/// left of both sides.
pub proof fn lemma_fits_skip<T>(s: Seq<Edit>, a: Seq<T>, b: Seq<T>, k: int)
    requires
        script_fits(s, a, b),
        0 <= k <= s.len(),
    ensures
        0 <= old_pos(s, k) <= a.len(),
        0 <= new_pos(s, k) <= b.len(),
        script_fits(s.skip(k), a.skip(old_pos(s, k)), b.skip(new_pos(s, k))),
    decreases k,
{
    if k == 0 {
        assert(s.take(0) =~= Seq::<Edit>::empty());
        assert(old_pos(s, 0) == 0);
        assert(new_pos(s, 0) == 0);
        assert(s.skip(0) =~= s);
        assert(a.skip(0) =~= a);
        assert(b.skip(0) =~= b);
    } else {
        lemma_fits_skip(s, a, b, k - 1);
        let p = old_pos(s, k - 1);
        let q = new_pos(s, k - 1);
        let rest = s.skip(k - 1);
        let ra = a.skip(p);
        let rb = b.skip(q);
        assert(rest.len() > 0);
        assert(rest.first() == s[k - 1]);
        lemma_pos_step(s, k - 1);
        assert(rest.drop_first() =~= s.skip(k));
        match s[k - 1] {
            Edit::Keep => {
                assert(ra.drop_first() =~= a.skip(p + 1));
                assert(rb.drop_first() =~= b.skip(q + 1));
            },
            Edit::Remove => {
                assert(ra.drop_first() =~= a.skip(p + 1));
            },
            Edit::Insert => {
                assert(rb.drop_first() =~= b.skip(q + 1));
            },
        }
    }
}

/// What each single step of a valid script says of the lines at its
/// position: `Keep` pairs equal lines, `Remove` points into the old side,
/// `Insert` into the new side.
pub proof fn lemma_fits_at<T>(s: Seq<Edit>, a: Seq<T>, b: Seq<T>, k: int)
    requires
        script_fits(s, a, b),
        0 <= k < s.len(),
    ensures
        s[k] != Edit::Insert ==> 0 <= old_pos(s, k) < a.len(),
        s[k] != Edit::Remove ==> 0 <= new_pos(s, k) < b.len(),
        s[k] == Edit::Keep ==> a[old_pos(s, k)] == b[new_pos(s, k)],
{
    lemma_fits_skip(s, a, b, k);
    let rest = s.skip(k);
    let ra = a.skip(old_pos(s, k));
    let rb = b.skip(new_pos(s, k));
    assert(rest.len() > 0);
    assert(rest.first() == s[k]);
    match s[k] {
        Edit::Keep => {
            assert(ra.first() == a[old_pos(s, k)]);
            assert(rb.first() == b[new_pos(s, k)]);
        },
        Edit::Remove => {
            assert(ra.first() == a[old_pos(s, k)]);
        },
        Edit::Insert => {
            assert(rb.first() == b[new_pos(s, k)]);
        },
    }
}

/// A valid script consumes all of `a` and produces all of `b`.
pub proof fn lemma_fits_totals<T>(s: Seq<Edit>, a: Seq<T>, b: Seq<T>)
    requires
        script_fits(s, a, b),
    ensures
        old_pos(s, s.len() as int) == a.len(),
        new_pos(s, s.len() as int) == b.len(),
{
    lemma_fits_skip(s, a, b, s.len() as int);
    assert(s.skip(s.len() as int).len() == 0);
}

/// Over a run of `Keep` steps the two sides advance in lockstep and carry
/// equal lines.
pub proof fn lemma_keep_run<T>(s: Seq<Edit>, a: Seq<T>, b: Seq<T>, k1: int, k2: int)
    requires
        script_fits(s, a, b),
        0 <= k1 <= k2 <= s.len(),
        forall|k: int| k1 <= k < k2 ==> s[k] == Edit::Keep,
    ensures
        old_pos(s, k2) - old_pos(s, k1) == k2 - k1,
        new_pos(s, k2) - new_pos(s, k1) == k2 - k1,
        old_pos(s, k2) <= a.len(),
        new_pos(s, k2) <= b.len(),
        a.subrange(old_pos(s, k1), old_pos(s, k2)) == b.subrange(new_pos(s, k1), new_pos(s, k2)),
    decreases k2 - k1,
{
    lemma_fits_skip(s, a, b, k2);
    if k1 == k2 {
        assert(a.subrange(old_pos(s, k1), old_pos(s, k2)) =~= b.subrange(
            new_pos(s, k1),
            new_pos(s, k2),
        ));
    } else {
        lemma_keep_run(s, a, b, k1, k2 - 1);
        lemma_pos_step(s, k2 - 1);
        assert(s[k2 - 1] == Edit::Keep);
        lemma_fits_at(s, a, b, k2 - 1);
        lemma_fits_skip(s, a, b, k1);
        assert(0 <= old_pos(s, k1) <= old_pos(s, k2 - 1));
        assert(0 <= new_pos(s, k1) <= new_pos(s, k2 - 1));
        assert(old_pos(s, k2) == old_pos(s, k2 - 1) + 1);
        assert(new_pos(s, k2) == new_pos(s, k2 - 1) + 1);
        assert(old_pos(s, k2) <= a.len());
        assert(new_pos(s, k2) <= b.len());
        assert(a.subrange(old_pos(s, k1), old_pos(s, k2)) =~= a.subrange(
            old_pos(s, k1),
            old_pos(s, k2 - 1),
        ).push(a[old_pos(s, k2 - 1)]));
        assert(b.subrange(new_pos(s, k1), new_pos(s, k2)) =~= b.subrange(
            new_pos(s, k1),
            new_pos(s, k2 - 1),
        ).push(b[new_pos(s, k2 - 1)]));
    }
}

/// Scripts and LCS lengths depend only on the pattern of equalities between
/// the two sides, not on the elements themselves.
pub proof fn lemma_script_transport<T, U>(a: Seq<T>, b: Seq<T>, x: Seq<U>, y: Seq<U>)
    requires
        a.len() == x.len(),
        b.len() == y.len(),
        forall|i: int, j: int|
            0 <= i < a.len() && 0 <= j < b.len() ==> ((a[i] == b[j]) <==> (x[i] == y[j])),
    ensures
        lcs_len(a, b) == lcs_len(x, y),
        spec_script(a, b) == spec_script(x, y),
    decreases a.len() + b.len(),
{
    if a.len() == 0 && b.len() == 0 {
    } else if b.len() == 0 {
        assert(forall|i: int, j: int|
            0 <= i < a.drop_first().len() && 0 <= j < b.len() ==> ((a.drop_first()[i] == b[j])
                <==> (x.drop_first()[i] == y[j])));
        lemma_script_transport(a.drop_first(), b, x.drop_first(), y);
    } else if a.len() == 0 {
        assert(forall|i: int, j: int|
            0 <= i < a.len() && 0 <= j < b.drop_first().len() ==> ((a[i] == b.drop_first()[j])
                <==> (x[i] == y.drop_first()[j])));
        lemma_script_transport(a, b.drop_first(), x, y.drop_first());
    } else {
        assert((a.first() == b.first()) <==> (x.first() == y.first()));
        assert(forall|i: int, j: int|
            0 <= i < a.drop_first().len() && 0 <= j < b.len() ==> ((a.drop_first()[i] == b[j])
                <==> (x.drop_first()[i] == y[j])));
        assert(forall|i: int, j: int|
            0 <= i < a.len() && 0 <= j < b.drop_first().len() ==> ((a[i] == b.drop_first()[j])
                <==> (x[i] == y.drop_first()[j])));
        assert(forall|i: int, j: int|
            0 <= i < a.drop_first().len() && 0 <= j < b.drop_first().len() ==> ((a.drop_first()[i]
                == b.drop_first()[j]) <==> (x.drop_first()[i] == y.drop_first()[j])));
        lemma_script_transport(a.drop_first(), b, x.drop_first(), y);
        lemma_script_transport(a, b.drop_first(), x, y.drop_first());
        lemma_script_transport(a.drop_first(), b.drop_first(), x.drop_first(), y.drop_first());
    }
}

/// Entries of `table` are pairwise distinct byte strings.
pub open spec fn distinct_views(t: Seq<Vec<u8>>) -> bool {
    forall|i: int, j: int| 0 <= i < j < t.len() ==> t[i]@ != t[j]@
}

/// Finds `line` in the token table, appending it if absent; returns its
/// token. Existing entries and their tokens are unchanged.
fn intern(table: &mut Vec<Vec<u8>>, line: &Vec<u8>) -> (t: usize)
    requires
        distinct_views(old(table)@),
    ensures
        distinct_views(final(table)@),
        old(table)@.len() <= final(table)@.len(),
        forall|i: int| 0 <= i < old(table)@.len() ==> final(table)@[i]@ == old(table)@[i]@,
        t < final(table)@.len(),
        final(table)@[t as int]@ == line@,
{
    let mut i: usize = 0;
    while i < table.len()
        invariant
            i <= table@.len(),
            table@ == old(table)@,
            distinct_views(table@),
            forall|j: int| 0 <= j < i ==> table@[j]@ != line@,
        decreases table@.len() - i,
    {
        if table[i] == *line {
            proof {
                assert(table@[i as int]@ =~= line@);
            }
            return i;
        }
        proof {
            if table@[i as int]@ == line@ {
                assert(false);
            }
        }
        i = i + 1;
    }
    table.push(vstd::slice::slice_to_vec(line.as_slice()));
    table.len() - 1
}

/// Maps the lines of both files to tokens from one shared table, so that a
/// token on one side equals a token on the other side exactly when the line
/// contents are equal.
pub fn tokenize_pair(la: &Vec<Vec<u8>>, lb: &Vec<Vec<u8>>) -> (r: (Vec<usize>, Vec<usize>))
    ensures
        r.0@.len() == la@.len(),
        r.1@.len() == lb@.len(),
        forall|i: int, j: int|
            0 <= i < la@.len() && 0 <= j < lb@.len() ==> ((views_of(la@)[i] == views_of(lb@)[j])
                <==> (r.0@[i] == r.1@[j])),
{
    let mut table: Vec<Vec<u8>> = Vec::new();
    let mut ta: Vec<usize> = Vec::new();
    let mut i: usize = 0;
    while i < la.len()
        invariant
            i <= la@.len(),
            ta@.len() == i,
            distinct_views(table@),
            forall|k: int|
                0 <= k < i ==> #[trigger] ta@[k] < table@.len() && table@[ta@[k] as int]@
                    == la@[k]@,
        decreases la@.len() - i,
    {
        let t = intern(&mut table, &la[i]);
        ta.push(t);
        i = i + 1;
    }
    let mut tb: Vec<usize> = Vec::new();
    let mut j: usize = 0;
    while j < lb.len()
        invariant
            j <= lb@.len(),
            ta@.len() == la@.len(),
            tb@.len() == j,
            distinct_views(table@),
            forall|k: int|
                0 <= k < la@.len() ==> #[trigger] ta@[k] < table@.len() && table@[ta@[k] as int]@
                    == la@[k]@,
            forall|k: int|
                0 <= k < j ==> #[trigger] tb@[k] < table@.len() && table@[tb@[k] as int]@
                    == lb@[k]@,
        decreases lb@.len() - j,
    {
        let t = intern(&mut table, &lb[j]);
        tb.push(t);
        j = j + 1;
    }
    proof {
        assert forall|i: int, j: int|
            0 <= i < la@.len() && 0 <= j < lb@.len() implies ((views_of(la@)[i] == views_of(
            lb@,
        )[j]) <==> (ta@[i] == tb@[j])) by {
            assert(views_of(la@)[i] == la@[i]@);
            assert(views_of(lb@)[j] == lb@[j]@);
            if ta@[i] == tb@[j] {
                assert(la@[i]@ == table@[ta@[i] as int]@);
            }
            if la@[i]@ == lb@[j]@ && ta@[i] != tb@[j] {
                assert(table@[ta@[i] as int]@ == table@[tb@[j] as int]@);
                assert(false);
            }
        }
    }
    (ta, tb)
}

/// Row-major grid indexing: a cell index is in range and two distinct cells
/// have distinct indices.
proof fn lemma_grid(w: int, n: int, i: int, j: int)
    requires
        w > 0,
        0 <= i <= n,
        0 <= j < w,
    ensures
        0 <= i * w + j < (n + 1) * w,
        i * w + j < i * w + w,
        i * w + w == (i + 1) * w,
        forall|i2: int, j2: int|
            0 <= j2 < w && i2 > i ==> #[trigger] (i2 * w + j2) > i * w + j,
{
    assert(0 <= i * w + j < (n + 1) * w && i * w + w == (i + 1) * w) by (nonlinear_arith)
        requires
            w > 0 && 0 <= i <= n && 0 <= j < w,
    ;
    assert forall|i2: int, j2: int| 0 <= j2 < w && i2 > i implies #[trigger] (i2 * w + j2) > i * w
        + j by {
        assert(i2 * w >= (i + 1) * w) by (nonlinear_arith)
            requires
                i2 >= i + 1 && w > 0,
        ;
    }
}

/// Fills the table of longest-common-subsequence lengths for every pair of
/// suffixes of `ta` and `tb`, in row-major order with row stride
/// `tb.len() + 1`.
fn lcs_table(ta: &Vec<usize>, tb: &Vec<usize>) -> (dp: Vec<usize>)
    requires
        (ta@.len() + 1) * (tb@.len() + 1) <= usize::MAX,
    ensures
        dp@.len() == (ta@.len() + 1) * (tb@.len() + 1),
        forall|i: int, j: int|
            0 <= i <= ta@.len() && 0 <= j <= tb@.len() ==> #[trigger] dp@[i * (tb@.len() + 1) + j]
                == lcs_len(ta@.skip(i), tb@.skip(j)),
{
    let n = ta.len();
    let m = tb.len();
    let ghost w = m as int + 1;
    proof {
        assert((n as int + 1) <= (n as int + 1) * (m as int + 1) && (m as int + 1) <= (n as int
            + 1) * (m as int + 1)) by (nonlinear_arith)
            requires
                n >= 0 && m >= 0,
        ;
    }
    let size = (n + 1) * (m + 1);
    let mut dp: Vec<usize> = Vec::new();
    let mut z: usize = 0;
    while z < size
        invariant
            dp@.len() == z <= size,
        decreases size - z,
    {
        dp.push(0);
        z = z + 1;
    }
    let mut i: usize = n + 1;
    while i > 0
        invariant
            0 <= i <= n + 1,
            n == ta@.len(),
            m == tb@.len(),
            w == m as int + 1,
            (n + 1) * (m + 1) <= usize::MAX,
            m as int + 1 <= usize::MAX,
            dp@.len() == (n + 1) * (m + 1),
            forall|i2: int, j2: int|
                i <= i2 <= n && 0 <= j2 <= m ==> #[trigger] dp@[i2 * w + j2] == lcs_len(
                    ta@.skip(i2),
                    tb@.skip(j2),
                ),
        decreases i,
    {
        i = i - 1;
        let mut j: usize = m + 1;
        while j > 0
            invariant
                0 <= i <= n,
                0 <= j <= m + 1,
                n == ta@.len(),
                m == tb@.len(),
                w == m as int + 1,
                (n + 1) * (m + 1) <= usize::MAX,
                dp@.len() == (n + 1) * (m + 1),
                forall|i2: int, j2: int|
                    i < i2 <= n && 0 <= j2 <= m ==> #[trigger] dp@[i2 * w + j2] == lcs_len(
                        ta@.skip(i2),
                        tb@.skip(j2),
                    ),
                forall|j2: int|
                    j <= j2 <= m ==> #[trigger] dp@[i * w + j2] == lcs_len(
                        ta@.skip(i as int),
                        tb@.skip(j2),
                    ),
            decreases j,
        {
            j = j - 1;
            proof {
                lemma_grid(w, n as int, i as int, j as int);
                assert((n as int + 1) * w == (n as int + 1) * (m as int + 1));
            }
            let ghost sa = ta@.skip(i as int);
            let ghost sb = tb@.skip(j as int);
            let v: usize;
            if i == n || j == m {
                proof {
                    assert(sa.len() == 0 || sb.len() == 0);
                }
                v = 0;
            } else {
                proof {
                    lemma_grid(w, n as int, i as int + 1, j as int);
                    lemma_grid(w, n as int, i as int + 1, j as int + 1);
                    lemma_grid(w, n as int, i as int, j as int + 1);
                    assert(sa.first() == ta@[i as int]);
                    assert(sb.first() == tb@[j as int]);
                    assert(sa.drop_first() =~= ta@.skip(i as int + 1));
                    assert(sb.drop_first() =~= tb@.skip(j as int + 1));
                    lemma_lcs_bounds(sa.drop_first(), sb.drop_first());
                }
                if ta[i] == tb[j] {
                    let below = dp[(i + 1) * (m + 1) + (j + 1)];
                    proof {
                        assert(below == lcs_len(ta@.skip(i as int + 1), tb@.skip(j as int + 1)));
                        assert(below < usize::MAX);
                    }
                    v = below + 1;
                } else {
                    let da = dp[(i + 1) * (m + 1) + j];
                    let db = dp[i * (m + 1) + (j + 1)];
                    proof {
                        assert(da == lcs_len(ta@.skip(i as int + 1), tb@.skip(j as int)));
                        assert(db == lcs_len(ta@.skip(i as int), tb@.skip(j as int + 1)));
                    }
                    v = if da >= db {
                        da
                    } else {
                        db
                    };
                }
            }
            proof {
                assert(v == lcs_len(sa, sb));
            }
            let ghost pre = dp@;
            vstd::pervasive::VecAdditionalExecFns::set(&mut dp, i * (m + 1) + j, v);
            proof {
                let c = i as int * w + j as int;
                assert(dp@ == pre.update(c, v));
                assert forall|i2: int, j2: int| i < i2 <= n && 0 <= j2 <= m implies #[trigger] dp@[
                    i2 * w + j2
                ] == lcs_len(ta@.skip(i2), tb@.skip(j2)) by {
                    lemma_grid(w, n as int, i2, j2);
                    assert(i2 * w + j2 > c);
                    assert(dp@[i2 * w + j2] == pre[i2 * w + j2]);
                }
                assert forall|j2: int| j <= j2 <= m implies #[trigger] dp@[i as int * w + j2]
                    == lcs_len(ta@.skip(i as int), tb@.skip(j2)) by {
                    if j2 > j {
                        assert(dp@[i as int * w + j2] == pre[i as int * w + j2]);
                    }
                }
            }
        }
    }
    proof {
        assert(i == 0);
    }
    dp
}

/// Builds the canonical edit script between the two token sequences by
/// walking the LCS table forward, preferring `Keep`, then `Remove`.
fn build_script(ta: &Vec<usize>, tb: &Vec<usize>, dp: &Vec<usize>) -> (s: Vec<Edit>)
    requires
        (ta@.len() + 1) * (tb@.len() + 1) <= usize::MAX,
        dp@.len() == (ta@.len() + 1) * (tb@.len() + 1),
        forall|i: int, j: int|
            0 <= i <= ta@.len() && 0 <= j <= tb@.len() ==> #[trigger] dp@[i * (tb@.len() + 1) + j]
                == lcs_len(ta@.skip(i), tb@.skip(j)),
    ensures
        s@ == spec_script(ta@, tb@),
{
    let n = ta.len();
    let m = tb.len();
    let ghost w = m as int + 1;
    let mut s: Vec<Edit> = Vec::new();
    let mut i: usize = 0;
    let mut j: usize = 0;
    proof {
        assert(ta@.skip(0) =~= ta@);
        assert(tb@.skip(0) =~= tb@);
        assert(s@ + spec_script(ta@.skip(0), tb@.skip(0)) =~= spec_script(ta@, tb@));
    }
    while i < n || j < m
        invariant
            0 <= i <= n,
            0 <= j <= m,
            n == ta@.len(),
            m == tb@.len(),
            w == m as int + 1,
            (n + 1) * (m + 1) <= usize::MAX,
            dp@.len() == (n + 1) * (m + 1),
            forall|i2: int, j2: int|
                0 <= i2 <= n && 0 <= j2 <= m ==> #[trigger] dp@[i2 * w + j2] == lcs_len(
                    ta@.skip(i2),
                    tb@.skip(j2),
                ),
            spec_script(ta@, tb@) == s@ + spec_script(ta@.skip(i as int), tb@.skip(j as int)),
        decreases n - i + m - j,
    {
        let ghost sa = ta@.skip(i as int);
        let ghost sb = tb@.skip(j as int);
        let ghost rest = spec_script(sa, sb);
        proof {
            lemma_grid(w, n as int, i as int, j as int);
            assert((n as int + 1) * w == (n as int + 1) * (m as int + 1));
            if i < n {
                lemma_grid(w, n as int, i as int + 1, j as int);
                assert(sa.first() == ta@[i as int]);
                assert(sa.drop_first() =~= ta@.skip(i as int + 1));
            }
            if j < m {
                lemma_grid(w, n as int, i as int, j as int + 1);
                assert(sb.first() == tb@[j as int]);
                assert(sb.drop_first() =~= tb@.skip(j as int + 1));
            }
            if i < n && j < m {
                lemma_grid(w, n as int, i as int + 1, j as int + 1);
            }
        }
        let op: Edit;
        if j == m {
            op = Edit::Remove;
            proof {
                assert(rest =~= seq![Edit::Remove] + spec_script(sa.drop_first(), sb));
            }
            i = i + 1;
        } else if i == n {
            op = Edit::Insert;
            proof {
                assert(rest =~= seq![Edit::Insert] + spec_script(sa, sb.drop_first()));
            }
            j = j + 1;
        } else if ta[i] == tb[j] {
            op = Edit::Keep;
            proof {
                assert(rest =~= seq![Edit::Keep] + spec_script(sa.drop_first(), sb.drop_first()));
            }
            i = i + 1;
            j = j + 1;
        } else if dp[(i + 1) * (m + 1) + j] >= dp[i * (m + 1) + (j + 1)] {
            op = Edit::Remove;
            proof {
                assert(dp@[(i as int + 1) * w + j as int] == lcs_len(sa.drop_first(), sb));
                assert(dp@[i as int * w + (j as int + 1)] == lcs_len(sa, sb.drop_first()));
                assert(lcs_len(sa.drop_first(), sb) >= lcs_len(sa, sb.drop_first()));
                assert(rest =~= seq![Edit::Remove] + spec_script(sa.drop_first(), sb));
            }
            i = i + 1;
        } else {
            op = Edit::Insert;
            proof {
                assert(dp@[(i as int + 1) * w + j as int] == lcs_len(sa.drop_first(), sb));
                assert(dp@[i as int * w + (j as int + 1)] == lcs_len(sa, sb.drop_first()));
                assert(lcs_len(sa.drop_first(), sb) < lcs_len(sa, sb.drop_first()));
                assert(rest =~= seq![Edit::Insert] + spec_script(sa, sb.drop_first()));
            }
            j = j + 1;
        }
        let ghost spre = s@;
        s.push(op);
        proof {
            assert(spre.push(op) + rest.drop_first() =~= spre + rest);
            assert(s@ + spec_script(ta@.skip(i as int), tb@.skip(j as int)) =~= spre + rest);
        }
    }
    proof {
        assert(spec_script(ta@.skip(i as int), tb@.skip(j as int)) =~= Seq::<Edit>::empty());
        assert(s@ + Seq::<Edit>::empty() =~= s@);
    }
    s
}


/// Computes the canonical minimal edit script between two line lists.
///
/// Fails with `AllocationFailure` exactly when the LCS working table cannot
/// be addressed.
pub fn compute_script(la: &Vec<Vec<u8>>, lb: &Vec<Vec<u8>>) -> (r: Result<Vec<Edit>, XdiffError>)
    ensures
        r is Ok <==> (la@.len() + 1) * (lb@.len() + 1) <= usize::MAX,
        r matches Ok(s) ==> s@ == spec_script(views_of(la@), views_of(lb@)),
        r matches Err(e) ==> e == XdiffError::AllocationFailure,
{
    let n = la.len();
    let m = lb.len();
    let size = match n.checked_add(1) {
        Some(n1) => match m.checked_add(1) {
            Some(m1) => n1.checked_mul(m1),
            None => None,
        },
        None => None,
    };
    proof {
        if n as int == usize::MAX || m as int == usize::MAX {
            assert((n + 1) * (m + 1) > usize::MAX) by (nonlinear_arith)
                requires
                    n as int == usize::MAX && m >= 0 || m as int == usize::MAX && n >= 0;
        }
    }
    match size {
        None => Err(XdiffError::AllocationFailure),
        Some(_) => {
            let (ta, tb) = tokenize_pair(la, lb);
            let dp = lcs_table(&ta, &tb);
            let s = build_script(&ta, &tb, &dp);
            proof {
                lemma_script_transport(views_of(la@), views_of(lb@), ta@, tb@);
            }
            Ok(s)
        },
    }
}

} // verus!
