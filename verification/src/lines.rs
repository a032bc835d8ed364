//! The line model: a file's bytes split into newline-terminated lines.
//!
//! A line is a maximal run of bytes ending with a newline, or the trailing
//! run without one. Lines are the atomic unit that diff, merge and patch
//! compare.

use vstd::prelude::*;

verus! {

/// Byte value of the line terminator.
pub const NEWLINE: u8 = 10;

/// Length of the first line of `s`, terminator included; 0 for an empty `s`.
pub open spec fn first_line_len(s: Seq<u8>) -> int
    decreases s.len(),
{
    if s.len() == 0 {
        0
    } else if s[0] == NEWLINE {
        1
    } else {
        1 + first_line_len(s.drop_first())
    }
}

pub proof fn lemma_first_line_len_bounds(s: Seq<u8>)
    ensures
        s.len() > 0 ==> 1 <= first_line_len(s) <= s.len(),
    decreases s.len(),
{
    if s.len() > 0 && s[0] != NEWLINE {
        let t = s.drop_first();
        lemma_first_line_len_bounds(t);
        assert(first_line_len(s) == 1 + first_line_len(t));
        if t.len() == 0 {
            assert(first_line_len(t) == 0);
        }
    }
}

/// Views of a list of byte vectors, as a sequence of byte sequences.
pub open spec fn views_of(v: Seq<Vec<u8>>) -> Seq<Seq<u8>> {
    Seq::new(v.len(), |i: int| v[i]@)
}

/// The bytes of `s` split into lines, terminators kept.
pub open spec fn lines_of(s: Seq<u8>) -> Seq<Seq<u8>>
    decreases s.len(),
    via lines_of_decreases
{
    if s.len() == 0 {
        Seq::empty()
    } else {
        seq![s.take(first_line_len(s))] + lines_of(s.skip(first_line_len(s)))
    }
}

#[via_fn]
proof fn lines_of_decreases(s: Seq<u8>) {
    lemma_first_line_len_bounds(s);
}

/// A single line: nonempty, with no newline before its last byte.
pub open spec fn is_line(l: Seq<u8>) -> bool {
    l.len() > 0 && forall|i: int| 0 <= i < l.len() - 1 ==> l[i] != NEWLINE
}

/// A line that carries its terminator.
pub open spec fn terminated(l: Seq<u8>) -> bool {
    l.len() > 0 && l.last() == NEWLINE
}

/// Content that can be extended by whole lines: empty or newline-ended.
pub open spec fn nl_ended(s: Seq<u8>) -> bool {
    s.len() == 0 || s.last() == NEWLINE
}

/// The first line is a line; it is unterminated only if it is the whole of `s`.
pub proof fn lemma_first_line_shape(s: Seq<u8>)
    requires
        s.len() > 0,
    ensures
        1 <= first_line_len(s) <= s.len(),
        forall|i: int| 0 <= i < first_line_len(s) - 1 ==> s[i] != NEWLINE,
        s[first_line_len(s) - 1] == NEWLINE || first_line_len(s) == s.len(),
    decreases s.len(),
{
    lemma_first_line_len_bounds(s);
    if s[0] != NEWLINE {
        let t = s.drop_first();
        if t.len() > 0 {
            lemma_first_line_shape(t);
            assert(forall|i: int| 1 <= i < first_line_len(s) - 1 ==> s[i] == t[i - 1]);
        }
    }
}

/// A line, taken alone, splits into exactly itself.
pub proof fn lemma_fll_of_line(l: Seq<u8>)
    requires
        is_line(l),
    ensures
        first_line_len(l) == l.len(),
    decreases l.len(),
{
    if l[0] != NEWLINE {
        let t = l.drop_first();
        if t.len() > 0 {
            assert(forall|i: int| 0 <= i < t.len() - 1 ==> t[i] == l[i + 1]);
            assert(is_line(t));
            lemma_fll_of_line(t);
        } else {
            assert(first_line_len(t) == 0);
        }
    }
}

pub proof fn lemma_lines_of_line(l: Seq<u8>)
    requires
        is_line(l),
    ensures
        lines_of(l) == seq![l],
{
    lemma_fll_of_line(l);
    assert(l.take(l.len() as int) =~= l);
    assert(l.skip(l.len() as int) =~= Seq::<u8>::empty());
    assert(lines_of(Seq::<u8>::empty()) == Seq::<Seq<u8>>::empty());
    assert(lines_of(l) =~= seq![l]);
}

/// Concatenating the lines of `s` gives back `s`.
pub proof fn lemma_lines_of_flatten(s: Seq<u8>)
    ensures
        lines_of(s).flatten() == s,
    decreases s.len(),
{
    if s.len() == 0 {
        assert(lines_of(s).flatten() =~= s);
    } else {
        lemma_first_line_len_bounds(s);
        let k = first_line_len(s);
        let rest = lines_of(s.skip(k));
        assert((seq![s.take(k)] + rest).drop_first() =~= rest);
        lemma_lines_of_flatten(s.skip(k));
        assert(lines_of(s).flatten() =~= s.take(k) + s.skip(k));
        assert(s.take(k) + s.skip(k) =~= s);
    }
}

/// Splitting into lines is injective.
pub proof fn lemma_lines_of_injective(a: Seq<u8>, b: Seq<u8>)
    requires
        lines_of(a) == lines_of(b),
    ensures
        a == b,
{
    lemma_lines_of_flatten(a);
    lemma_lines_of_flatten(b);
}

/// A newline inside `s` pins the first line of any extension of `s`.
proof fn lemma_fll_append(s: Seq<u8>, t: Seq<u8>)
    requires
        s.len() > 0,
        s.last() == NEWLINE,
    ensures
        first_line_len(s + t) == first_line_len(s),
    decreases s.len(),
{
    if s[0] != NEWLINE {
        assert((s + t).drop_first() =~= s.drop_first() + t);
        lemma_fll_append(s.drop_first(), t);
    } else {
        assert((s + t)[0] == NEWLINE);
    }
}

/// Lines distribute over concatenation at a line boundary.
pub proof fn lemma_lines_of_append(s: Seq<u8>, t: Seq<u8>)
    requires
        nl_ended(s),
    ensures
        lines_of(s + t) == lines_of(s) + lines_of(t),
    decreases s.len(),
{
    if s.len() == 0 {
        assert(s + t =~= t);
        assert(lines_of(s) + lines_of(t) =~= lines_of(t));
    } else {
        lemma_first_line_len_bounds(s);
        lemma_fll_append(s, t);
        let k = first_line_len(s);
        assert((s + t).take(k) =~= s.take(k));
        assert((s + t).skip(k) =~= s.skip(k) + t);
        assert(nl_ended(s.skip(k)));
        lemma_lines_of_append(s.skip(k), t);
        assert(lines_of(s + t) =~= lines_of(s) + lines_of(t));
    }
}

/// Appending one whole line appends one element to the line list.
pub proof fn lemma_lines_of_snoc_line(s: Seq<u8>, l: Seq<u8>)
    requires
        nl_ended(s),
        is_line(l),
    ensures
        lines_of(s + l) == lines_of(s).push(l),
{
    lemma_lines_of_append(s, l);
    lemma_lines_of_line(l);
    assert(lines_of(s) + seq![l] =~= lines_of(s).push(l));
}

/// Every element of `lines_of` is a line; all but the last are terminated,
/// and the last is terminated exactly when the content ends with a newline.
pub proof fn lemma_lines_shape(s: Seq<u8>)
    ensures
        forall|i: int| 0 <= i < lines_of(s).len() ==> is_line(#[trigger] lines_of(s)[i]),
        forall|i: int| 0 <= i < lines_of(s).len() - 1 ==> terminated(#[trigger] lines_of(s)[i]),
        lines_of(s).len() == 0 <==> s.len() == 0,
        s.len() > 0 ==> (terminated(lines_of(s).last()) <==> s.last() == NEWLINE),
    decreases s.len(),
{
    if s.len() > 0 {
        lemma_first_line_shape(s);
        let k = first_line_len(s);
        let first = s.take(k);
        let rest = s.skip(k);
        assert(is_line(first));
        lemma_lines_shape(rest);
        assert(forall|i: int|
            1 <= i < lines_of(s).len() ==> lines_of(s)[i] == lines_of(rest)[i - 1]);
        if k < s.len() {
            assert(terminated(first));
            assert(rest.len() > 0);
            assert(rest.last() == s.last());
            assert(lines_of(s).last() == lines_of(rest).last());
        } else {
            assert(rest.len() == 0);
            assert(lines_of(s) =~= seq![first]);
            assert(lines_of(s).last() == first);
            assert(first.last() == s.last());
        }
    }
}

/// Splits `data` into its lines.
pub fn split_lines(data: &[u8]) -> (r: Vec<Vec<u8>>)
    ensures
        views_of(r@) == lines_of(data@),
{
    let mut r: Vec<Vec<u8>> = Vec::new();
    let mut i: usize = 0;
    while i < data.len()
        invariant
            i <= data@.len(),
            i < data@.len() ==> nl_ended(data@.take(i as int)),
            views_of(r@) == lines_of(data@.take(i as int)),
        decreases data@.len() - i,
    {
        let start = i;
        while i < data.len() && data[i] != NEWLINE
            invariant
                start <= i <= data@.len(),
                forall|j: int| start <= j < i ==> data@[j] != NEWLINE,
            decreases data@.len() - i,
        {
            i = i + 1;
        }
        if i < data.len() {
            i = i + 1;
        }
        let line: Vec<u8> = vstd::slice::slice_to_vec(vstd::slice::slice_subrange(
            data,
            start,
            i,
        ));
        proof {
            assert(is_line(line@));
            assert(data@.take(i as int) =~= data@.take(start as int) + line@);
            lemma_lines_of_snoc_line(data@.take(start as int), line@);
            if i < data@.len() {
                assert(data@.take(i as int).last() == NEWLINE);
            }
        }
        let ghost old_vs = views_of(r@);
        r.push(line);
        proof {
            assert(views_of(r@) =~= old_vs.push(line@));
        }
    }
    proof {
        assert(data@.take(i as int) =~= data@);
    }
    r
}

/// Concatenates a list of lines (or any chunks) back into one byte vector.
pub fn join_bytes(chunks: &Vec<Vec<u8>>) -> (r: Vec<u8>)
    ensures
        r@ == views_of(chunks@).flatten(),
{
    let mut r: Vec<u8> = Vec::new();
    let mut i: usize = 0;
    while i < chunks.len()
        invariant
            i <= chunks.len(),
            r@ == views_of(chunks@).take(i as int).flatten(),
        decreases chunks.len() - i,
    {
        let ghost pre = views_of(chunks@).take(i as int);
        r.extend_from_slice(chunks[i].as_slice());
        i = i + 1;
        proof {
            assert(views_of(chunks@).take(i as int) =~= pre.push(views_of(chunks@)[i - 1]));
            pre.lemma_flatten_push(views_of(chunks@)[i - 1]);
        }
    }
    proof {
        assert(views_of(chunks@).take(i as int) =~= views_of(chunks@));
    }
    r
}

} // verus!
