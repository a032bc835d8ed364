use xdiff::{MMBlocks, MMFile, VecSink, XdiffError};

fn chunk_strings(chunks: &Vec<Vec<u8>>) -> Vec<String> {
    chunks
        .iter()
        .map(|l| String::from_utf8_lossy(l).into_owned())
        .collect()
}

// Diffing any content against itself yields zero hunks.
#[test]
fn diff_self_is_empty() {
    let mut f = MMFile::from_bytes(b"alpha\nbeta\ngamma");
    let mut f2 = MMFile::from_bytes(b"alpha\nbeta\ngamma");
    let mut lines = VecSink::new();
    f.diff_raw(&mut f2, &mut lines).unwrap();
    assert_eq!(lines.chunks, Vec::<Vec<u8>>::new());

    let patch = f.compute_patch(&mut f2).unwrap();
    assert_eq!(patch.clone().to_mmfile().as_slice(), b"");
}

// Applying the patch from A to B onto A rebuilds B exactly, rejecting nothing.
#[test]
fn patch_round_trip() {
    let a = b"one\ntwo\nthree\nfour\nfive\nsix\nseven\n";
    let b = b"one\n2\nthree\nfour\n5a\n5b\nsix\n";
    let mut fa = MMFile::from_bytes(a);
    let mut fb = MMFile::from_bytes(b);
    let mut patch = fa.compute_patch(&mut fb).unwrap();
    let mut patched = fa.apply_patch(&mut patch).unwrap();
    assert!(patched.eq(&mut fb));
}

// The round trip also holds for a patch that creates content from nothing
// and one that deletes everything.
#[test]
fn patch_round_trip_empty_sides() {
    let mut empty = MMFile::new();
    let mut full = MMFile::from_bytes(b"a\nb\nc\n");

    let mut grow = empty.compute_patch(&mut full).unwrap();
    let mut grown = empty.apply_patch(&mut grow).unwrap();
    assert!(grown.eq(&mut full));

    let mut shrink = full.compute_patch(&mut empty).unwrap();
    let mut shrunk = full.apply_patch(&mut shrink).unwrap();
    assert!(shrunk.eq(&mut empty));
}

// A difference confined to trailing-newline presence produces exactly one
// hunk covering the affected line.
#[test]
fn diff_trailing_newline_only() {
    let mut f = MMFile::from_bytes(b"same\nlast");
    let mut f2 = MMFile::from_bytes(b"same\nlast\n");
    let mut lines = VecSink::new();
    f.diff_raw(&mut f2, &mut lines).unwrap();
    let str_lines = chunk_strings(&lines.chunks);
    assert_eq!(
        str_lines,
        vec!["@@ -1,2 +1,2 @@\n", " ", "same\n", "-", "last", "+", "last\n"],
    );
}

// A patch that does not follow the grammar is rejected whole: nothing is
// applied and the rejected side carries the entire patch.
#[test]
fn apply_malformed_patch() {
    let f = MMFile::from_bytes(b"a\nb\n");
    let garbage = MMBlocks::from_bytes(b"this is not a patch\n");
    let r = f.apply_patch(&garbage);
    match r {
        Err((patched, rejected)) => {
            assert_eq!(patched.as_slice(), b"");
            assert_eq!(rejected.as_slice(), b"this is not a patch\n");
        },
        Ok(_) => panic!("a malformed patch must not apply"),
    }
}

// Diff output, reassembled per the patch grammar, re-parses into hunks with
// identical boundaries to those that produced it.
#[test]
fn patch_reparses_to_same_boundaries() {
    let a = b"k1\nk2\nx\nk3\nk4\nk5\nk6\nk7\nk8\nk9\ny\nk10\n";
    let b = b"k1\nk2\nX\nk3\nk4\nk5\nk6\nk7\nk8\nk9\nY!\nyy\nk10\n";
    let fa = MMFile::from_bytes(a);
    let fb = MMFile::from_bytes(b);
    let patch = fa.compute_patch(&fb).unwrap();
    let pls = xdiff::lines::split_lines(patch.compact_bytes().as_slice());
    let hunks = xdiff::patch::parse_patch_exec(&pls).expect("the emitted patch re-parses");
    assert_eq!(hunks.len(), 2);
    assert_eq!(
        (hunks[0].old_start, hunks[0].old_len, hunks[0].new_start, hunks[0].new_len),
        (0, 6, 0, 6),
    );
    assert_eq!(
        (hunks[1].old_start, hunks[1].old_len, hunks[1].new_start, hunks[1].new_len),
        (7, 5, 7, 6),
    );
    // and the reassembled hunks render back to the identical patch text
    let mut sink = VecSink::new();
    fa.diff_raw(&fb, &mut sink).unwrap();
    let joined: Vec<u8> = sink.chunks.concat();
    assert_eq!(joined, patch.compact_bytes());
}

// Merge of identical changes on both sides auto-resolves with nothing
// rejected, whatever the base.
#[test]
fn merge3_identical_sides() {
    let base = MMFile::from_bytes(b"p\nq\nr\n");
    let side = MMFile::from_bytes(b"p\nQQ\nr\nss\n");
    let side_again = MMFile::from_bytes(b"p\nQQ\nr\nss\n");
    let mut acc = VecSink::new();
    let mut rej = VecSink::new();
    MMFile::merge3_raw(&base, &side, &side_again, &mut acc, &mut rej).unwrap();
    assert_eq!(acc.chunks.concat(), b"p\nQQ\nr\nss\n".to_vec());
    assert_eq!(rej.chunks, Vec::<Vec<u8>>::new());
}

// Merge of edits to disjoint regions of the base applies both, rejecting
// nothing.
#[test]
fn merge3_disjoint_regions() {
    let base = MMFile::from_bytes(b"a\nb\nc\nd\ne\nf\ng\nh\n");
    let one = MMFile::from_bytes(b"a\nB1\nB2\nc\nd\ne\nf\ng\nh\n");
    let two = MMFile::from_bytes(b"a\nb\nc\nd\ne\nf\nG!\nh\n");
    let mut acc = VecSink::new();
    let mut rej = VecSink::new();
    MMFile::merge3_raw(&base, &one, &two, &mut acc, &mut rej).unwrap();
    assert_eq!(acc.chunks.concat(), b"a\nB1\nB2\nc\nd\ne\nf\nG!\nh\n".to_vec());
    assert_eq!(rej.chunks, Vec::<Vec<u8>>::new());
}

// Compaction is idempotent: compacting an already-compact file changes
// neither its byte content nor its equality to itself.
#[test]
fn compaction_idempotent() {
    let mut blocks = MMBlocks::new();
    assert_eq!(blocks.write_buf(b"first "), 0);
    assert_eq!(blocks.write_buf(b"second"), 0);
    assert!(!blocks.is_compact());

    blocks.to_compact();
    assert!(blocks.is_compact());
    let once = blocks.compact_bytes();

    blocks.to_compact();
    assert!(blocks.is_compact());
    let twice = blocks.compact_bytes();

    assert_eq!(once, b"first second".to_vec());
    assert_eq!(once, twice);
    let same = MMBlocks::from_bytes(twice.as_slice());
    assert!(blocks.eq(&same));
}

// Blocks equality compares bytes across segment boundaries, not layout.
#[test]
fn blocks_eq_across_layouts() {
    let mut split3 = MMBlocks::new();
    assert_eq!(split3.write_buf(b"ab"), 0);
    assert_eq!(split3.write_buf(b"cd"), 0);
    assert_eq!(split3.write_buf(b"e"), 0);
    let whole = MMBlocks::from_bytes(b"abcde");
    assert!(split3.eq(&whole));
    assert_eq!(split3.size(), 5);

    let other = MMBlocks::from_bytes(b"abcdX");
    assert!(!split3.eq(&other));
}

// The empty-vs-empty diff produces zero hunks, and an empty patch applies
// cleanly to anything.
#[test]
fn diff_empty_vs_empty() {
    let mut e1 = MMFile::new();
    let mut e2 = MMFile::new();
    let mut sink = VecSink::new();
    e1.diff_raw(&mut e2, &mut sink).unwrap();
    assert_eq!(sink.chunks.len(), 0);

    let empty_patch = MMBlocks::new();
    let mut target = MMFile::from_bytes(b"keep\nme\n");
    let mut out = target.apply_patch(&empty_patch).unwrap();
    assert!(out.eq(&mut target));
}

// A hunk whose context does not match is routed to the rejected output
// while the matching hunks still apply.
#[test]
fn apply_partial_reject() {
    let a = b"h1\nk1\nk2\nk3\nk4\nk5\nk6\nk7\nmid\nk8\nk9\nk10\nk11\nk12\nk13\nk14\ntail\n";
    let b = b"H1\nk1\nk2\nk3\nk4\nk5\nk6\nk7\nMID\nk8\nk9\nk10\nk11\nk12\nk13\nk14\ntail\n";
    let fa = MMFile::from_bytes(a);
    let fb = MMFile::from_bytes(b);
    let patch = fa.compute_patch(&fb).unwrap();

    // damage the second changed region of the file before applying
    let mut damaged = fa.clone();
    let pos = a.iter().position(|&c| c == b'm').unwrap();
    damaged.as_slice_mut()[pos] = b'X';

    let r = damaged.apply_patch(&patch);
    match r {
        Err((patched, rejected)) => {
            // the first hunk applied, the second was rejected
            let text = String::from_utf8_lossy(patched.as_slice()).into_owned();
            assert!(text.starts_with("H1\n"));
            assert!(text.contains("Xid\n"));
            let rej_text = String::from_utf8_lossy(rejected.as_slice()).into_owned();
            assert!(rej_text.starts_with("@@ "));
            assert!(rej_text.contains("-mid\n"));
            assert!(rej_text.contains("+MID\n"));
        },
        Ok(_) => panic!("the damaged region must be rejected"),
    }
}

// The diff abort status surfaces without touching already-delivered chunks.
#[test]
fn abort_keeps_delivered_output() {
    let mut f = MMFile::from_bytes(b"a\nb\nc\n");
    let mut f2 = MMFile::from_bytes(b"a\nB\nc\n");
    let mut sink = xdiff::BoundedSink::new(1);
    let r = f.diff_raw(&mut f2, &mut sink);
    assert_eq!(r, Err(XdiffError::CallbackAborted));
    assert_eq!(chunk_strings(&sink.chunks), vec!["@@ -1,3 +1,3 @@\n"]);
}

// write_buf reports every byte written and grows the content in order.
#[test]
fn write_buf_appends() {
    let mut blocks = MMBlocks::new();
    assert_eq!(blocks.size(), 0);
    assert_eq!(blocks.write_buf(b"hello "), 0);
    assert_eq!(blocks.write_buf(b"world"), 0);
    assert_eq!(blocks.size(), 11);
    assert_eq!(blocks.compact_bytes(), b"hello world".to_vec());
    let f = blocks.to_mmfile();
    assert_eq!(f.as_slice(), b"hello world");
}

// A cancellation from the reject consumer also aborts the merge; the
// accepted output already delivered stands.
#[test]
fn merge3_reject_abort() {
    let base = MMFile::from_bytes(b"header\nline2\nline3\nline4\nhello world\n");
    let one = MMFile::from_bytes(b"header\nline2\nline3\nline4\nhello world changed\n");
    let two = MMFile::from_bytes(b"header\nline2\nline3\nline4\nhello world also changed\n");
    let mut acc = VecSink::new();
    // the reject consumer declines any chunk beyond the first two
    let mut rej = xdiff::BoundedSink::new(2);
    let r = MMFile::merge3_raw(&base, &one, &two, &mut acc, &mut rej);
    assert_eq!(r, Err(XdiffError::CallbackAborted));
    assert_eq!(acc.chunks.len(), 5);
    assert_eq!(rej.chunks.len(), 2);
}
