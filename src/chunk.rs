use vstd::prelude::*;
use vstd::slice::{slice_subrange, slice_to_vec};

use crate::error::Result;

verus! {

/// Largest payload of one post on the remote host, in bytes.
pub const TWEET_MAX_SIZE: usize = 280;

/// The segments of `c` with at most `max` bytes each: `c` itself when it
/// fits, otherwise a full first segment followed by the segments of the rest.
pub open spec fn segments_of(c: Seq<u8>, max: nat) -> Seq<Seq<u8>>
    decreases c.len(),
{
    if c.len() <= max || max == 0 {
        seq![c]
    } else {
        seq![c.take(max as int)] + segments_of(c.skip(max as int), max)
    }
}

/// The bytes of each segment.
pub open spec fn segments_view(v: Seq<Vec<u8>>) -> Seq<Seq<u8>> {
    v.map_values(|s: Vec<u8>| s@)
}

proof fn lemma_segments_flatten(c: Seq<u8>, max: nat)
    requires
        max > 0,
    ensures
        segments_of(c, max).flatten() == c,
        forall|j: int| 0 <= j < segments_of(c, max).len() ==> (#[trigger] segments_of(c, max)[j]).len() <= max,
    decreases c.len(),
{
    broadcast use Seq::lemma_flatten_singleton;
    if c.len() > max {
        let head = seq![c.take(max as int)];
        let rest = segments_of(c.skip(max as int), max);
        lemma_segments_flatten(c.skip(max as int), max);
        vstd::seq_lib::lemma_flatten_concat(head, rest);
        assert(c.take(max as int) + c.skip(max as int) =~= c);
        assert forall|j: int| 0 <= j < segments_of(c, max).len() implies (#[trigger] segments_of(c, max)[j]).len() <= max by {
            if j > 0 {
                assert(segments_of(c, max)[j] == rest[j - 1]);
            }
        }
    }
}

/// Splitting a payload into segments and joining them gives the payload back,
/// every segment fits in `max` bytes, and there is a single segment exactly
/// when the payload fits in one.
pub proof fn lemma_chunk_round_trip(c: Seq<u8>, max: nat)
    requires
        max > 0,
    ensures
        segments_of(c, max).flatten() == c,
        forall|j: int| 0 <= j < segments_of(c, max).len() ==> (#[trigger] segments_of(c, max)[j]).len() <= max,
        segments_of(c, max).len() == 1 <==> c.len() <= max,
{
    lemma_segments_flatten(c, max);
    if c.len() > max {
        let rest = segments_of(c.skip(max as int), max);
        assert(rest.len() >= 1);
    }
}

/// Splits `content` into segments of at most `max_segment` bytes, in order.
pub fn chunk_content_with(content: &[u8], max_segment: usize) -> (r: Result<Vec<Vec<u8>>>)
    requires
        max_segment > 0,
    ensures
        r matches Ok(v) && segments_view(v@) == segments_of(content@, max_segment as nat),
{
    let len = content.len();
    let ghost max = max_segment as nat;
    let mut chunks: Vec<Vec<u8>> = Vec::new();
    if len <= max_segment {
        chunks.push(slice_to_vec(content));
        assert(segments_view(chunks@) =~= segments_of(content@, max));
        return Ok(chunks);
    }
    let mut offset: usize = 0;
    assert(content@.skip(0) =~= content@);
    assert(segments_view(chunks@) + segments_of(content@, max) =~= segments_of(content@, max));
    while offset < len
        invariant
            len == content@.len(),
            max == max_segment as nat,
            max_segment > 0,
            offset <= len,
            offset < len ==> segments_view(chunks@) + segments_of(content@.skip(offset as int), max)
                == segments_of(content@, max),
            offset == len ==> segments_view(chunks@) == segments_of(content@, max),
        decreases len - offset,
    {
        let ghost rest = content@.skip(offset as int);
        let ghost before = segments_view(chunks@);
        let end = if len - offset <= max_segment {
            len
        } else {
            offset + max_segment
        };
        let seg = slice_to_vec(slice_subrange(content, offset, end));
        chunks.push(seg);
        proof {
            assert(segments_view(chunks@) =~= before.push(seg@));
            if rest.len() <= max {
                assert(seg@ =~= rest);
                assert(segments_of(rest, max) == seq![rest]);
                assert(before + seq![rest] =~= before.push(seg@));
            } else {
                assert(seg@ =~= rest.take(max as int));
                assert(content@.skip(end as int) =~= rest.skip(max as int));
                assert(segments_of(rest, max) == seq![rest.take(max as int)] + segments_of(rest.skip(max as int), max));
                assert(before + segments_of(rest, max) =~= before.push(seg@) + segments_of(rest.skip(max as int), max));
            }
        }
        offset = end;
    }
    Ok(chunks)
}

/// Splits `content` into segments that fit in one post, in order.
pub fn chunk_content(content: &[u8]) -> (r: Result<Vec<Vec<u8>>>)
    ensures
        r matches Ok(v) && segments_view(v@) == segments_of(content@, TWEET_MAX_SIZE as nat),
{
    chunk_content_with(content, TWEET_MAX_SIZE)
}

/// Concatenates segments in order.
pub fn recombine_chunks(chunks: &[Vec<u8>]) -> (r: Result<Vec<u8>>)
    ensures
        r matches Ok(v) && v@ == segments_view(chunks@).flatten(),
{
    let mut out: Vec<u8> = Vec::new();
    let mut i: usize = 0;
    while i < chunks.len()
        invariant
            i <= chunks@.len(),
            out@ == segments_view(chunks@.subrange(0, i as int)).flatten(),
        decreases chunks@.len() - i,
    {
        let seg = &chunks[i];
        let ghost before = out@;
        let mut j: usize = 0;
        while j < seg.len()
            invariant
                j <= seg@.len(),
                out@ == before + seg@.subrange(0, j as int),
            decreases seg@.len() - j,
        {
            out.push(seg[j]);
            j = j + 1;
            assert(out@ =~= before + seg@.subrange(0, j as int));
        }
        proof {
            let s = segments_view(chunks@.subrange(0, i as int));
            assert(segments_view(chunks@.subrange(0, i + 1)) =~= s.push(seg@));
            s.lemma_flatten_push(seg@);
            assert(seg@.subrange(0, j as int) =~= seg@);
        }
        i = i + 1;
    }
    assert(chunks@.subrange(0, i as int) =~= chunks@);
    Ok(out)
}

} // verus!
