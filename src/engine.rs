//! The whole run: plan the source, aggregate each range apart, merge the local mappings in
//! order.
use vstd::prelude::*;
use crate::chunk::{
    aggregate_range, first_fault, summarize, lemma_summarize_split, lemma_first_fault_split,
    lemma_summarize_facts, line_aligned, FailurePolicy, RunError,
};
use crate::mapping::{Mapping, merge_maps, mergeable};
use crate::plan::{plan_ranges, plan_valid, covers_up_to, cut_ok, ByteRange};
use crate::stats::Summary;

verus! {

/// What a run over `data` yields under `policy`: the summary of every record, or, in strict
/// mode, the first line that is not a record.
pub open spec fn run_result_ok(data: Seq<u8>, policy: FailurePolicy, r: Result<Mapping, RunError>) -> bool {
    match r {
        Ok(m) => m.wf() && m@ == summarize(data) && (policy == FailurePolicy::Strict ==> first_fault(
            data,
        ) is None),
        Err(e) => policy == FailurePolicy::Strict && first_fault(data) == Some((e.fault, e.line@)),
    }
}

/// The summaries of the ranges, merged one after another.
pub open spec fn merged_summaries(data: Seq<u8>, ranges: Seq<ByteRange>) -> Map<Seq<u8>, Summary>
    decreases ranges.len(),
{
    if ranges.len() == 0 {
        Map::empty()
    } else {
        merge_maps(
            merged_summaries(data, ranges.drop_last()),
            summarize(data.subrange(ranges.last().start as int, ranges.last().end as int)),
        )
    }
}

proof fn lemma_merged_prefix(data: Seq<u8>, ranges: Seq<ByteRange>, pos: int)
    requires
        covers_up_to(data, ranges, pos),
        pos <= data.len(),
        line_aligned(data.subrange(0, pos)) || pos == data.len(),
    ensures
        merged_summaries(data, ranges) == summarize(data.subrange(0, pos)),
    decreases ranges.len(),
{
    if ranges.len() > 0 {
        let init = ranges.drop_last();
        let mid = ranges.last().start as int;
        assert(ranges[ranges.len() - 1] == ranges.last());
        if init.len() > 0 {
            assert(init.last() == ranges[ranges.len() - 2]);
            assert(init.last().end == mid);
            assert(cut_ok(data, ranges[ranges.len() - 2].end as int));
        } else {
            assert(ranges[0] == ranges.last());
        }
        assert(covers_up_to(data, init, mid)) by {
            assert forall|i: int| 0 <= i < init.len() implies cut_ok(data, (#[trigger] init[i]).end as int) by {
                assert(init[i] == ranges[i]);
            }
            assert forall|i: int| 0 <= i < init.len() implies (#[trigger] init[i]).start < init[i].end by {
                assert(init[i] == ranges[i]);
            }
            assert forall|i: int| 0 <= i < init.len() - 1 implies (#[trigger] init[i]).end == init[i + 1].start by {
                assert(init[i] == ranges[i]);
                assert(init[i + 1] == ranges[i + 1]);
            }
        }
        if mid > 0 {
            assert(data.subrange(0, mid).last() == data[mid - 1]);
        }
        lemma_merged_prefix(data, init, mid);
        let before = data.subrange(0, mid);
        let part = data.subrange(mid, pos);
        assert(before + part =~= data.subrange(0, pos));
        lemma_summarize_split(before, part);
    } else {
        assert(data.subrange(0, 0) =~= Seq::<u8>::empty());
    }
}

/// Chunk-count invariance: for any line-aligned plan of the source, merging the summaries of
/// its ranges in order gives the summary of the whole source.
pub proof fn lemma_plan_merge_is_whole(data: Seq<u8>, ranges: Seq<ByteRange>)
    requires
        plan_valid(data, ranges),
    ensures
        merged_summaries(data, ranges) == summarize(data),
{
    lemma_merged_prefix(data, ranges, data.len() as int);
    assert(data.subrange(0, data.len() as int) =~= data);
}

/// Aggregates the range `pos..end` and merges it into `total`, the mapping of `0..pos`.
fn absorb_range(
    total: &mut Mapping,
    data: &[u8],
    pos: usize,
    end: usize,
    policy: FailurePolicy,
) -> (r: Option<RunError>)
    requires
        pos < end <= data@.len(),
        cut_ok(data@, end as int),
        old(total).wf(),
        old(total)@ == summarize(data@.subrange(0, pos as int)),
        line_aligned(data@.subrange(0, pos as int)),
        policy == FailurePolicy::Strict ==> first_fault(data@.subrange(0, pos as int)) is None,
    ensures
        match r {
            None => final(total).wf() && final(total)@ == summarize(data@.subrange(0, end as int))
                && (policy == FailurePolicy::Strict ==> first_fault(data@.subrange(0, end as int))
                is None),
            Some(e) => run_result_ok(data@, policy, Err(e)),
        },
        policy == FailurePolicy::Lenient ==> r is None,
{
    let ghost before = data@.subrange(0, pos as int);
    let ghost part = data@.subrange(pos as int, end as int);
    let ghost upto = data@.subrange(0, end as int);
    assert(before + part =~= upto);
    match aggregate_range(data, pos, end, policy) {
        Err(e) => {
            proof {
                lemma_first_fault_split(before, part);
                if end < data@.len() {
                    assert(upto.last() == data@[end - 1]);
                    lemma_first_fault_split(upto, data@.subrange(end as int, data@.len() as int));
                    assert(upto + data@.subrange(end as int, data@.len() as int) =~= data@);
                } else {
                    assert(upto =~= data@);
                }
            }
            Some(e)
        },
        Ok(local) => {
            proof {
                lemma_summarize_split(before, part);
                lemma_first_fault_split(before, part);
                lemma_summarize_facts(upto);
                assert(mergeable(total@, local@)) by {
                    assert forall|k: Seq<u8>| #[trigger]
                        total@.contains_key(k) && local@.contains_key(k) implies total@[k].count
                            + local@[k].count <= u64::MAX by {
                        assert(merge_maps(total@, local@).contains_key(k));
                        assert(usize::MAX as int <= u64::MAX as int);
                    }
                }
            }
            total.merge_from(&local);
            None
        },
    }
}

/// Aggregates `data` cut into at most `chunk_count` line-aligned chunks. The result does
/// not depend on `chunk_count`.
pub fn aggregate(data: &[u8], chunk_count: usize, policy: FailurePolicy) -> (r: Result<
    Mapping,
    RunError,
>)
    requires
        chunk_count > 0,
    ensures
        run_result_ok(data@, policy, r),
        policy == FailurePolicy::Lenient ==> r is Ok,
{
    let ranges = plan_ranges(data, chunk_count);
    let mut total = Mapping::new();
    let mut pos: usize = 0;
    let mut i: usize = 0;
    assert(data@.subrange(0, 0) =~= Seq::<u8>::empty());
    while i < ranges.len()
        invariant
            plan_valid(data@, ranges@),
            i <= ranges@.len(),
            pos == if i == 0 { 0 } else { ranges@[i - 1].end as int },
            i < ranges@.len() ==> ranges@[i as int].start == pos,
            i == ranges@.len() ==> pos == data@.len(),
            pos <= data@.len(),
            total.wf(),
            total@ == summarize(data@.subrange(0, pos as int)),
            line_aligned(data@.subrange(0, pos as int)) || pos == data@.len(),
            policy == FailurePolicy::Strict ==> first_fault(data@.subrange(0, pos as int)) is None,
        decreases ranges@.len() - i,
    {
        let range = ranges[i];
        assert(range == ranges@[i as int]);
        assert(cut_ok(data@, range.end as int));
        if let Some(e) = absorb_range(&mut total, data, range.start, range.end, policy) {
            return Err(e);
        }
        pos = range.end;
        i = i + 1;
        proof {
            if i < ranges@.len() {
                assert(ranges@[i - 1].end == ranges@[i as int].start);
            }
            if pos < data@.len() {
                assert(data@.subrange(0, pos as int).last() == data@[pos - 1]);
            }
        }
    }
    assert(data@.subrange(0, pos as int) =~= data@);
    Ok(total)
}

} // verus!
