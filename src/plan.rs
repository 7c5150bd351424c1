//! Chunk planning: cutting a byte source into line-aligned ranges.
use vstd::prelude::*;
use crate::record::NEWLINE;

verus! {

/// A half-open range `start..end` of the source.
#[derive(PartialEq, Eq, Structural, Clone, Copy, Debug)]
pub struct ByteRange {
    pub start: usize,
    pub end: usize,
}

/// A cut at `end` falls right after a line terminator, or at the end of the source.
pub open spec fn cut_ok(data: Seq<u8>, end: int) -> bool {
    end == data.len() || (0 < end <= data.len() && data[end - 1] == NEWLINE)
}

/// The ranges are non-empty, ordered, contiguous, cover `0..pos`, and each ends at a line
/// end or at the end of the source.
pub open spec fn covers_up_to(data: Seq<u8>, ranges: Seq<ByteRange>, pos: int) -> bool {
    &&& ranges.len() == 0 <==> pos == 0
    &&& ranges.len() > 0 ==> ranges[0].start == 0 && ranges.last().end == pos
    &&& forall|i: int| 0 <= i < ranges.len() ==> (#[trigger] ranges[i]).start < ranges[i].end
    &&& forall|i: int| 0 <= i < ranges.len() ==> cut_ok(data, (#[trigger] ranges[i]).end as int)
    &&& forall|i: int|
        0 <= i < ranges.len() - 1 ==> (#[trigger] ranges[i]).end == ranges[i + 1].start
}

/// A plan of the whole source.
pub open spec fn plan_valid(data: Seq<u8>, ranges: Seq<ByteRange>) -> bool {
    covers_up_to(data, ranges, data.len() as int)
}

/// The bytes of the ranges, one after another.
pub open spec fn joined(data: Seq<u8>, ranges: Seq<ByteRange>) -> Seq<u8>
    decreases ranges.len(),
{
    if ranges.len() == 0 {
        Seq::empty()
    } else {
        joined(data, ranges.drop_last()) + data.subrange(
            ranges.last().start as int,
            ranges.last().end as int,
        )
    }
}

proof fn lemma_joined_prefix(data: Seq<u8>, ranges: Seq<ByteRange>, pos: int)
    requires
        covers_up_to(data, ranges, pos),
        pos <= data.len(),
    ensures
        joined(data, ranges) == data.subrange(0, pos),
    decreases ranges.len(),
{
    if ranges.len() == 0 {
        assert(data.subrange(0, 0) =~= Seq::<u8>::empty());
    } else {
        let init = ranges.drop_last();
        let mid = ranges.last().start as int;
        if init.len() > 0 {
            assert(init.last() == ranges[ranges.len() - 2]);
            assert(init.last().end == mid);
        }
        assert(covers_up_to(data, init, mid)) by {
            assert forall|i: int| 0 <= i < init.len() implies cut_ok(data, (#[trigger] init[i]).end as int) by {
                assert(init[i] == ranges[i]);
            }
            assert forall|i: int| 0 <= i < init.len() implies (#[trigger] init[i]).start < init[i].end by {
                assert(init[i] == ranges[i]);
            }
            assert forall|i: int| 0 <= i < init.len() - 1 implies (#[trigger] init[i]).end == init[i + 1].start by {
                assert(init[i] == ranges[i]);
                assert(init[i + 1] == ranges[i + 1]);
            }
        }
        assert(0 <= mid) by {
            if init.len() > 0 {
                assert(init[0] == ranges[0]);
            }
        }
        lemma_joined_prefix(data, init, mid);
        assert(data.subrange(0, mid) + data.subrange(mid, pos) =~= data.subrange(0, pos));
    }
}

/// Chunk boundaries never split a line: re-joining the ranges of a plan gives back the
/// source exactly, and every range but the last ends with a terminator.
pub proof fn lemma_plan_rejoins(data: Seq<u8>, ranges: Seq<ByteRange>)
    requires
        plan_valid(data, ranges),
    ensures
        joined(data, ranges) == data,
        forall|i: int|
            0 <= i < ranges.len() - 1 ==> data[(#[trigger] ranges[i]).end - 1] == NEWLINE,
{
    lemma_joined_prefix(data, ranges, data.len() as int);
    assert(data.subrange(0, data.len() as int) =~= data);
    assert forall|i: int| 0 <= i < ranges.len() - 1 implies data[(#[trigger] ranges[i]).end - 1]
        == NEWLINE by {
        assert(cut_ok(data, ranges[i].end as int));
        if ranges[i].end == data.len() {
            lemma_ends_increase(data, ranges, data.len() as int, i, ranges.len() - 1);
        }
    }
}

proof fn lemma_ends_increase(data: Seq<u8>, ranges: Seq<ByteRange>, pos: int, i: int, j: int)
    requires
        covers_up_to(data, ranges, pos),
        0 <= i < j < ranges.len(),
    ensures
        ranges[i].end < ranges[j].end,
    decreases j - i,
{
    assert(ranges[j - 1].end == ranges[j].start);
    assert(ranges[j].start < ranges[j].end);
    if i < j - 1 {
        lemma_ends_increase(data, ranges, pos, i, j - 1);
    }
}

/// The naive chunk length: the source length over the chunk count, rounded up.
pub open spec fn chunk_size(len: int, count: int) -> int {
    if len % count == 0 { len / count } else { len / count + 1 }
}

/// The first place at or after `b` (with `b >= 1`) where a cut is allowed.
pub open spec fn first_cut_from(data: Seq<u8>, b: int) -> int
    decreases data.len() - b,
{
    if b >= data.len() || b < 1 {
        data.len() as int
    } else if data[b - 1] == NEWLINE {
        b
    } else {
        first_cut_from(data, b + 1)
    }
}

/// Where the range starting at `start` ends: at the first cut at or after the naive end.
pub open spec fn planned_end(data: Seq<u8>, start: int, size: int) -> int {
    first_cut_from(data, if start + size >= data.len() { data.len() as int } else { start + size })
}

/// Plans at most `chunk_count` roughly equal ranges, each boundary moved forward to just
/// after the next line terminator. An empty source gets no range.
pub fn plan_ranges(data: &[u8], chunk_count: usize) -> (r: Vec<ByteRange>)
    requires
        chunk_count > 0,
    ensures
        plan_valid(data@, r@),
        forall|i: int|
            0 <= i < r@.len() ==> (#[trigger] r@[i]).end == planned_end(
                data@,
                r@[i].start as int,
                chunk_size(data@.len() as int, chunk_count as int),
            ),
{
    let len = data.len();
    let q = len / chunk_count;
    assert(q <= len && (len % chunk_count != 0 ==> q < len) && (len > 0 && q == 0 ==> len
        % chunk_count != 0)) by (nonlinear_arith)
        requires
            chunk_count > 0,
            q == len / chunk_count,
    {
        if len % chunk_count != 0 {
            assert(chunk_count != 1);
        }
    }
    let size: usize = if len % chunk_count == 0 { q } else { q + 1 };
    let mut ranges: Vec<ByteRange> = Vec::new();
    let mut offset: usize = 0;
    while offset < len
        invariant
            offset <= len == data@.len(),
            len > 0 ==> size >= 1,
            size == chunk_size(len as int, chunk_count as int),
            covers_up_to(data@, ranges@, offset as int),
            forall|i: int|
                0 <= i < ranges@.len() ==> (#[trigger] ranges@[i]).end == planned_end(
                    data@,
                    ranges@[i].start as int,
                    size as int,
                ),
        decreases len - offset,
    {
        let naive: usize = if size >= len - offset { len } else { offset + size };
        let mut c: usize = naive - 1;
        while c < len && data[c] != NEWLINE
            invariant
                offset <= c <= len == data@.len(),
                1 <= naive <= len,
                first_cut_from(data@, naive as int) == first_cut_from(data@, c + 1),
            decreases len - c,
        {
            c = c + 1;
        }
        let end: usize = if c < len { c + 1 } else { len };
        assert(end == first_cut_from(data@, naive as int));
        let ghost before = ranges@;
        ranges.push(ByteRange { start: offset, end });
        assert forall|i: int| 0 <= i < ranges@.len() - 1 implies (#[trigger] ranges@[i]).end
            == ranges@[i + 1].start by {
            if i < ranges@.len() - 2 {
                assert(ranges@[i] == before[i] && ranges@[i + 1] == before[i + 1]);
            }
        }
        assert forall|i: int| 0 <= i < ranges@.len() implies cut_ok(data@, (#[trigger] ranges@[i]).end as int) by {
            if i < ranges@.len() - 1 {
                assert(ranges@[i] == before[i]);
            }
        }
        assert forall|i: int| 0 <= i < ranges@.len() implies (#[trigger] ranges@[i]).end == planned_end(
            data@,
            ranges@[i].start as int,
            size as int,
        ) by {
            if i < ranges@.len() - 1 {
                assert(ranges@[i] == before[i]);
            }
        }
        assert forall|i: int| 0 <= i < ranges@.len() implies (#[trigger] ranges@[i]).start < ranges@[i].end by {
            if i < ranges@.len() - 1 {
                assert(ranges@[i] == before[i]);
            }
        }
        offset = end;
    }
    ranges
}

} // verus!
