//! Line segmentation and chunk partitioning.
//!
//! A scan iterates the lines of a memory-mapped buffer by repeated
//! first-newline searches.  For parallel execution the buffer is first
//! partitioned into contiguous chunks aligned to newline boundaries, so
//! that no line spans two chunks; the lines seen across all chunks, in
//! order, are exactly the lines of the whole buffer.

use vstd::prelude::*;

use crate::bytes::{find_byte, lemma_seq_find, lemma_seq_find_first, lemma_seq_find_none, seq_find};

verus! {

/// The newline byte.
pub const LINE_FEED: u8 = 10;

/// The lines of a buffer: maximal newline-free runs, splitting at every
/// newline byte.  A trailing newline does not open an extra empty line.
pub open spec fn lines_of(data: Seq<u8>) -> Seq<Seq<u8>>
    decreases data.len(),
    via lines_of_decreases
{
    if data.len() == 0 {
        Seq::empty()
    } else {
        match seq_find(data, LINE_FEED) {
            None => seq![data],
            Some(i) => seq![data.subrange(0, i)] + lines_of(
                data.subrange(i + 1, data.len() as int),
            ),
        }
    }
}

#[via_fn]
proof fn lines_of_decreases(data: Seq<u8>) {
    lemma_seq_find(data, LINE_FEED);
}

/// The views of a sequence of borrowed line slices.
pub open spec fn views_of(s: Seq<&[u8]>) -> Seq<Seq<u8>> {
    Seq::new(s.len(), |i: int| s[i]@)
}

/// Splitting a buffer directly after a newline splits its line sequence.
pub proof fn lemma_lines_of_split(data: Seq<u8>, b: int)
    requires
        0 < b <= data.len(),
        data[b - 1] == LINE_FEED,
    ensures
        lines_of(data) == lines_of(data.subrange(0, b)) + lines_of(
            data.subrange(b, data.len() as int),
        ),
    decreases b,
{
    let len = data.len() as int;
    let prefix = data.subrange(0, b);
    lemma_seq_find(data, LINE_FEED);
    lemma_seq_find(prefix, LINE_FEED);
    let found = seq_find(data, LINE_FEED);
    match found {
        None => {
            assert(data[b - 1] == LINE_FEED);
            assert(false);
        },
        Some(i) => {
            assert(i <= b - 1);
            assert(forall|j: int| 0 <= j < b ==> prefix[j] == data[j]);
            lemma_seq_find_first(prefix, LINE_FEED, i);
            let tail = data.subrange(i + 1, len);
            if i + 1 == b {
                assert(prefix.subrange(0, i) =~= data.subrange(0, i));
                assert(prefix.subrange(i + 1, b) =~= Seq::<u8>::empty());
                assert(lines_of(Seq::<u8>::empty()) =~= Seq::<Seq<u8>>::empty());
                assert(lines_of(prefix) == seq![prefix.subrange(0, i)] + lines_of(
                    prefix.subrange(i + 1, b),
                ));
                assert(lines_of(prefix) =~= seq![data.subrange(0, i)]);
                assert(tail =~= data.subrange(b, len));
            } else {
                assert(tail[b - (i + 1) - 1] == data[b - 1]);
                lemma_lines_of_split(tail, b - (i + 1));
                assert(tail.subrange(0, b - (i + 1)) =~= prefix.subrange(i + 1, b));
                assert(tail.subrange(b - (i + 1), tail.len() as int) =~= data.subrange(b, len));
                assert(prefix.subrange(0, i) =~= data.subrange(0, i));
                assert(lines_of(data) == seq![data.subrange(0, i)] + (lines_of(
                    prefix.subrange(i + 1, b),
                ) + lines_of(data.subrange(b, len))));
                assert(seq![data.subrange(0, i)] + (lines_of(prefix.subrange(i + 1, b)) + lines_of(
                    data.subrange(b, len),
                )) =~= (seq![data.subrange(0, i)] + lines_of(prefix.subrange(i + 1, b))) + lines_of(
                    data.subrange(b, len),
                ));
            }
        },
    }
}

proof fn lemma_views_push(s: Seq<&[u8]>, x: &[u8])
    ensures
        views_of(s.push(x)) =~= views_of(s) + seq![x@],
{
}

/// Split a buffer into its lines, as borrowed zero-copy slices.
pub fn split_lines<'a>(data: &'a [u8]) -> (r: Vec<&'a [u8]>)
    ensures
        views_of(r@) == lines_of(data@),
{
    let len = data.len();
    let mut out: Vec<&[u8]> = Vec::new();
    let mut pos: usize = 0;
    proof {
        assert(views_of(out@) =~= Seq::<Seq<u8>>::empty());
        assert(data@.subrange(0, len as int) =~= data@);
        assert(Seq::<Seq<u8>>::empty() + lines_of(data@) =~= lines_of(data@));
    }
    while pos < len
        invariant
            len == data@.len(),
            pos <= len,
            lines_of(data@) == views_of(out@) + lines_of(data@.subrange(pos as int, len as int)),
        decreases len - pos,
    {
        let ghost rest_view = data@.subrange(pos as int, len as int);
        let rest = vstd::slice::slice_subrange(data, pos, len);
        match find_byte(LINE_FEED, rest) {
            Some(i) => {
                let line = vstd::slice::slice_subrange(rest, 0, i);
                proof {
                    lemma_seq_find_first(rest_view, LINE_FEED, i as int);
                    assert(lines_of(rest_view) == seq![rest_view.subrange(0, i as int)] + lines_of(
                        rest_view.subrange(i + 1, rest_view.len() as int),
                    ));
                    assert(data@.subrange(pos + i + 1, len as int) =~= rest_view.subrange(
                        i + 1,
                        rest_view.len() as int,
                    ));
                    lemma_views_push(out@, line);
                    assert((views_of(out@) + seq![line@]) + lines_of(
                        data@.subrange(pos + i + 1, len as int),
                    ) =~= views_of(out@) + (seq![line@] + lines_of(
                        data@.subrange(pos + i + 1, len as int),
                    )));
                }
                out.push(line);
                pos = pos + i + 1;
            },
            None => {
                proof {
                    lemma_seq_find_none(rest_view, LINE_FEED);
                    assert(lines_of(rest_view) == seq![rest_view]);
                    assert(data@.subrange(len as int, len as int) =~= Seq::<u8>::empty());
                    lemma_views_push(out@, rest);
                    assert((views_of(out@) + seq![rest_view]) + lines_of(
                        data@.subrange(len as int, len as int),
                    ) =~= views_of(out@) + seq![rest_view]);
                }
                out.push(rest);
                pos = len;
            },
        }
    }
    proof {
        assert(data@.subrange(len as int, len as int) =~= Seq::<u8>::empty());
        assert(views_of(out@) + Seq::<Seq<u8>>::empty() =~= views_of(out@));
    }
    out
}

/// Well-formed chunk boundaries: they start at zero, end at the buffer
/// length, never decrease, and every interior boundary sits directly after
/// a newline, so no line spans two chunks.
pub open spec fn chunks_wf(data: Seq<u8>, b: Seq<usize>) -> bool {
    &&& b.len() >= 2
    &&& b[0] == 0
    &&& b[b.len() - 1] == data.len()
    &&& forall|k: int| 0 <= k < b.len() - 1 ==> #[trigger] b[k] <= b[k + 1]
    &&& forall|k: int|
        1 <= k < b.len() - 1 ==> 0 < #[trigger] b[k] <= data.len() && data[b[k] - 1] == LINE_FEED
}

/// Partition a buffer into chunks of roughly `chunk_size` bytes, each
/// boundary advanced to the next newline so chunks hold whole lines.
pub fn find_chunk_boundaries(data: &[u8], chunk_size: usize) -> (r: Vec<usize>)
    requires
        chunk_size >= 1,
    ensures
        chunks_wf(data@, r@),
{
    let len = data.len();
    let mut boundaries: Vec<usize> = Vec::new();
    boundaries.push(0);
    let mut pos: usize = 0;
    while pos < len && len - pos > chunk_size
        invariant
            len == data@.len(),
            pos <= len,
            boundaries@.len() >= 1,
            boundaries@[0] == 0,
            boundaries@[boundaries@.len() - 1] == pos,
            forall|k: int|
                0 <= k < boundaries@.len() - 1 ==> #[trigger] boundaries@[k] <= boundaries@[k + 1],
            forall|k: int|
                1 <= k < boundaries@.len() ==> 0 < #[trigger] boundaries@[k] <= len && data@[
                    boundaries@[k] - 1] == LINE_FEED,
        decreases len - pos,
    {
        let probe = pos + chunk_size;
        let rest = vstd::slice::slice_subrange(data, probe, len);
        match find_byte(LINE_FEED, rest) {
            Some(nl) => {
                let b = probe + nl + 1;
                boundaries.push(b);
                pos = b;
            },
            None => {
                break;
            },
        }
    }
    boundaries.push(len);
    boundaries
}

/// The lines of all chunks from boundary `k` onward, concatenated in order.
pub open spec fn chunk_lines_from(data: Seq<u8>, b: Seq<usize>, k: int) -> Seq<Seq<u8>>
    decreases b.len() - k,
{
    if k < 0 || k >= b.len() - 1 {
        Seq::empty()
    } else {
        lines_of(data.subrange(b[k] as int, b[k + 1] as int)) + chunk_lines_from(data, b, k + 1)
    }
}

#[verifier::rlimit(90)]
#[verifier::spinoff_prover]
proof fn lemma_partition_from(data: Seq<u8>, b: Seq<usize>, k: int)
    requires
        chunks_wf(data, b),
        0 <= k <= b.len() - 1,
    ensures
        chunk_lines_from(data, b, k) == lines_of(data.subrange(b[k] as int, data.len() as int)),
    decreases b.len() - k,
{
    let len = data.len() as int;
    if k == b.len() - 1 {
        assert(data.subrange(len, len) =~= Seq::<u8>::empty());
    } else {
        lemma_partition_from(data, b, k + 1);
        let lo = b[k] as int;
        let mid = b[k + 1] as int;
        assert(lo <= mid) by {
            assert(b[k] <= b[k + 1]);
        }
        assert(mid <= len) by {
            if k + 1 < b.len() - 1 {
                assert(b[k + 1] <= data.len());
            }
        }
        let suffix = data.subrange(lo, len);
        if mid == lo {
            assert(data.subrange(lo, mid) =~= Seq::<u8>::empty());
            assert(lines_of(Seq::<u8>::empty()) =~= Seq::<Seq<u8>>::empty());
            assert(Seq::<Seq<u8>>::empty() + chunk_lines_from(data, b, k + 1) =~= chunk_lines_from(
                data,
                b,
                k + 1,
            ));
        } else if mid == len {
            assert(data.subrange(lo, mid) =~= suffix);
            assert(data.subrange(mid, len) =~= Seq::<u8>::empty());
            assert(lines_of(data.subrange(mid, len)) =~= Seq::<Seq<u8>>::empty());
            assert(lines_of(data.subrange(lo, mid)) + Seq::<Seq<u8>>::empty() =~= lines_of(
                data.subrange(lo, mid),
            ));
        } else {
            assert(k + 1 < b.len() - 1);
            assert(data[mid - 1] == LINE_FEED);
            assert(suffix[mid - lo - 1] == LINE_FEED);
            lemma_lines_of_split(suffix, mid - lo);
            assert(suffix.subrange(0, mid - lo) =~= data.subrange(lo, mid));
            assert(suffix.subrange(mid - lo, suffix.len() as int) =~= data.subrange(mid, len));
        }
    }
}

/// The lines iterated across all chunks of a well-formed partition are the
/// lines of the whole buffer, in order, with no duplication or omission.
pub proof fn lemma_partition_sound(data: Seq<u8>, b: Seq<usize>)
    requires
        chunks_wf(data, b),
    ensures
        chunk_lines_from(data, b, 0) == lines_of(data),
{
    lemma_partition_from(data, b, 0);
    assert(data.subrange(0, data.len() as int) =~= data);
}

} // verus!
