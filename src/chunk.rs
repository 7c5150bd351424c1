//! Chunk aggregation: the model of a byte stream as lines, and the laws that let a stream be
//! cut at line ends and its parts summarised apart.
use vstd::prelude::*;
use crate::stats::{Summary, single, lemma_combine_valid};
use crate::record::{
    line_outcome, last_index_of, parse_record, copy_range, lemma_outcome_in_range, ParseError,
    NEWLINE,
};
use crate::mapping::{
    add_value, merge_maps, mapping_valid, counts_at_most, lemma_add_after_merge,
    lemma_add_valid, lemma_merge_empty_identity, Mapping,
};

verus! {

/// Empty, or ending with a line terminator: a place where a stream may be cut.
pub open spec fn line_aligned(s: Seq<u8>) -> bool {
    s.len() == 0 || s.last() == NEWLINE
}

pub open spec fn has_no_newline(s: Seq<u8>) -> bool {
    forall|i: int| 0 <= i < s.len() ==> #[trigger] s[i] != NEWLINE
}

/// The stream without its final terminator, if it has one.
pub open spec fn without_terminator(s: Seq<u8>) -> Seq<u8> {
    if s.len() > 0 && s.last() == NEWLINE {
        s.drop_last()
    } else {
        s
    }
}

/// Length of everything before the last line of a non-empty stream.
pub open spec fn last_line_start(s: Seq<u8>) -> int {
    last_index_of(without_terminator(s), NEWLINE) + 1
}

/// The last line of a non-empty stream, terminator excluded.
pub open spec fn last_line(s: Seq<u8>) -> Seq<u8> {
    let t = without_terminator(s);
    t.subrange(last_line_start(s), t.len() as int)
}

/// Folds one line into a mapping; a line that is not a record adds nothing.
pub open spec fn apply_line(m: Map<Seq<u8>, Summary>, line: Seq<u8>) -> Map<Seq<u8>, Summary> {
    match line_outcome(line) {
        Ok((k, v)) => add_value(m, k, v),
        Err(_) => m,
    }
}

/// The mapping of all records in a stream, line by line; lines that are not records are
/// left out.
pub open spec fn summarize(s: Seq<u8>) -> Map<Seq<u8>, Summary>
    decreases s.len(),
{
    if s.len() == 0 {
        Map::empty()
    } else if 0 <= last_line_start(s) < s.len() {
        apply_line(summarize(s.subrange(0, last_line_start(s))), last_line(s))
    } else {
        Map::empty()
    }
}

/// The first line of a stream that is not a record, with its fault.
pub open spec fn first_fault(s: Seq<u8>) -> Option<(ParseError, Seq<u8>)>
    decreases s.len(),
{
    if s.len() == 0 {
        None
    } else if 0 <= last_line_start(s) < s.len() {
        match first_fault(s.subrange(0, last_line_start(s))) {
            Some(f) => Some(f),
            None => match line_outcome(last_line(s)) {
                Err(e) => Some((e, last_line(s))),
                Ok(_) => None,
            },
        }
    } else {
        None
    }
}

/// Number of lines of a stream that are records of key `k`.
pub open spec fn key_count(s: Seq<u8>, k: Seq<u8>) -> int
    decreases s.len(),
{
    if s.len() == 0 {
        0
    } else if 0 <= last_line_start(s) < s.len() {
        key_count(s.subrange(0, last_line_start(s)), k) + match line_outcome(last_line(s)) {
            Ok((k2, _)) => if k2 == k { 1int } else { 0int },
            Err(_) => 0int,
        }
    } else {
        0
    }
}

proof fn lemma_last_index_bounds(s: Seq<u8>, c: u8)
    ensures
        -1 <= last_index_of(s, c) < s.len(),
        last_index_of(s, c) >= 0 ==> s[last_index_of(s, c)] == c,
        last_index_of(s, c) == -1 <==> forall|i: int| 0 <= i < s.len() ==> s[i] != c,
    decreases s.len(),
{
    if s.len() > 0 {
        lemma_last_index_bounds(s.drop_last(), c);
        if s.last() != c {
            assert forall|i: int| 0 <= i < s.len() - 1 implies s.drop_last()[i] == s[i] by {}
        }
    }
}

/// `last_index_of` on a concatenation.
proof fn lemma_last_index_concat(a: Seq<u8>, b: Seq<u8>, c: u8)
    ensures
        last_index_of(a + b, c) == if last_index_of(b, c) >= 0 {
            a.len() + last_index_of(b, c)
        } else {
            last_index_of(a, c)
        },
    decreases b.len(),
{
    if b.len() == 0 {
        assert(a + b =~= a);
    } else {
        assert((a + b).drop_last() =~= a + b.drop_last());
        lemma_last_index_concat(a, b.drop_last(), c);
    }
}

/// The last line starts right after the stream's last interior terminator.
proof fn lemma_last_line_start_bounds(s: Seq<u8>)
    requires
        s.len() > 0,
    ensures
        0 <= last_line_start(s) < s.len(),
        line_aligned(s.subrange(0, last_line_start(s))),
        has_no_newline(last_line(s)),
        last_line_start(s) + last_line(s).len() + 1 >= s.len(),
        s =~= s.subrange(0, last_line_start(s)) + last_line(s) + s.subrange(
            last_line_start(s) + last_line(s).len(),
            s.len() as int,
        ),
{
    let t = without_terminator(s);
    lemma_last_index_bounds(t, NEWLINE);
    let j = last_index_of(t, NEWLINE);
    if s.last() != NEWLINE && j == t.len() - 1 {
        assert(t[j] == NEWLINE);
    }
    let line = last_line(s);
    assert forall|i: int| 0 <= i < line.len() implies #[trigger] line[i] != NEWLINE by {
        lemma_last_index_concat(t.subrange(0, j + 1), line, NEWLINE);
        assert(t.subrange(0, j + 1) + line =~= t);
        lemma_last_index_bounds(line, NEWLINE);
    }
}

/// Appending one line (and its terminator, unless it is the unterminated last line) to an
/// aligned prefix: that line becomes the last line.
pub proof fn lemma_split_append(p: Seq<u8>, line: Seq<u8>, term: Seq<u8>)
    requires
        line_aligned(p),
        has_no_newline(line),
        term == seq![NEWLINE] || (term.len() == 0 && line.len() > 0),
    ensures
        last_line_start(p + line + term) == p.len(),
        last_line(p + line + term) == line,
        (p + line + term).subrange(0, p.len() as int) == p,
{
    let s = p + line + term;
    assert(without_terminator(s) =~= p + line);
    lemma_last_index_bounds(line, NEWLINE);
    lemma_last_index_concat(p, line, NEWLINE);
    if p.len() > 0 {
        assert(last_index_of(p, NEWLINE) == p.len() - 1);
    }
    assert((p + line).subrange(p.len() as int, (p + line).len() as int) =~= line);
    assert(s.subrange(0, p.len() as int) =~= p);
}

/// Cutting at a line end: the stream's last line and the part before it, after a prefix.
proof fn lemma_split_after_prefix(p: Seq<u8>, q: Seq<u8>)
    requires
        line_aligned(p),
        q.len() > 0,
    ensures
        last_line_start(p + q) == p.len() + last_line_start(q),
        last_line(p + q) == last_line(q),
        (p + q).subrange(0, last_line_start(p + q)) == p + q.subrange(0, last_line_start(q)),
{
    let s = p + q;
    assert(without_terminator(s) =~= p + without_terminator(q));
    let tq = without_terminator(q);
    lemma_last_index_concat(p, tq, NEWLINE);
    lemma_last_index_bounds(tq, NEWLINE);
    if p.len() > 0 {
        assert(last_index_of(p, NEWLINE) == p.len() - 1);
    }
    lemma_last_line_start_bounds(q);
    let j = last_line_start(q);
    assert((p + tq).subrange(p.len() + j, (p + tq).len() as int) =~= tq.subrange(j, tq.len() as int));
    assert(s.subrange(0, p.len() + j) =~= p + q.subrange(0, j));
}

/// Chunk-count invariance: summarising a stream cut at a line end is merging the summaries
/// of its two parts.
pub proof fn lemma_summarize_split(p: Seq<u8>, q: Seq<u8>)
    requires
        line_aligned(p),
    ensures
        summarize(p + q) == merge_maps(summarize(p), summarize(q)),
    decreases q.len(),
{
    if q.len() == 0 {
        assert(p + q =~= p);
        lemma_merge_empty_identity(summarize(p));
    } else {
        lemma_split_after_prefix(p, q);
        lemma_last_line_start_bounds(q);
        lemma_last_line_start_bounds(p + q);
        let qp = q.subrange(0, last_line_start(q));
        lemma_summarize_split(p, qp);
        match line_outcome(last_line(q)) {
            Ok((k, v)) => {
                lemma_add_after_merge(summarize(p), summarize(qp), k, v);
            },
            Err(_) => {},
        }
    }
}

/// Strict mode across a cut: the first fault of the whole is the first fault of the first
/// part, else that of the second.
pub proof fn lemma_first_fault_split(p: Seq<u8>, q: Seq<u8>)
    requires
        line_aligned(p),
    ensures
        first_fault(p + q) == match first_fault(p) {
            Some(f) => Some(f),
            None => first_fault(q),
        },
    decreases q.len(),
{
    if q.len() == 0 {
        assert(p + q =~= p);
    } else {
        lemma_split_after_prefix(p, q);
        lemma_last_line_start_bounds(q);
        lemma_last_line_start_bounds(p + q);
        lemma_first_fault_split(p, q.subrange(0, last_line_start(q)));
    }
}

/// Every summary of a stream is valid and counts at most as many measurements as the
/// stream has bytes.
pub proof fn lemma_summarize_facts(s: Seq<u8>)
    ensures
        mapping_valid(summarize(s)),
        counts_at_most(summarize(s), s.len() as int),
    decreases s.len(),
{
    if s.len() > 0 {
        lemma_last_line_start_bounds(s);
        let p = s.subrange(0, last_line_start(s));
        lemma_summarize_facts(p);
        let line = last_line(s);
        lemma_outcome_in_range(line);
        match line_outcome(line) {
            Ok((k, v)) => {
                lemma_add_valid(summarize(p), k, v);
                assert forall|k2: Seq<u8>| #[trigger] summarize(s).contains_key(k2) implies summarize(s)[k2].count <= s.len() by {
                    if k2 != k {
                        assert(summarize(p).contains_key(k2));
                    }
                }
            },
            Err(_) => {},
        }
    }
}

/// A key's count in the summary of a stream is exactly the number of its records there;
/// a key with no record is absent.
pub proof fn lemma_count_is_record_count(s: Seq<u8>, k: Seq<u8>)
    ensures
        summarize(s).contains_key(k) ==> summarize(s)[k].count == key_count(s, k),
        !summarize(s).contains_key(k) ==> key_count(s, k) == 0,
    decreases s.len(),
{
    if s.len() > 0 {
        lemma_last_line_start_bounds(s);
        lemma_count_is_record_count(s.subrange(0, last_line_start(s)), k);
    }
}

/// In the summary of any stream, every key's smallest value is at most its mean and its
/// mean at most its largest value (`count * min <= sum <= count * max`, with `count >= 1`).
pub proof fn lemma_mean_between_bounds(s: Seq<u8>, k: Seq<u8>)
    requires
        summarize(s).contains_key(k),
    ensures
        summarize(s)[k].count >= 1,
        summarize(s)[k].min <= summarize(s)[k].max,
        summarize(s)[k].count * summarize(s)[k].min <= summarize(s)[k].sum,
        summarize(s)[k].sum <= summarize(s)[k].count * summarize(s)[k].max,
{
    lemma_summarize_facts(s);
}

/// A stream with no bytes has an empty summary and no fault.
pub proof fn lemma_empty_stream(s: Seq<u8>)
    requires
        s.len() == 0,
    ensures
        summarize(s) == Map::<Seq<u8>, Summary>::empty(),
        first_fault(s) is None,
{
}

/// How a line that is not a record is treated.
#[derive(PartialEq, Eq, Structural, Clone, Copy, Debug)]
pub enum FailurePolicy {
    /// The first bad line fails the run.
    Strict,
    /// Bad lines are skipped.
    Lenient,
}

/// A failed run: the fault, the offset of the chunk where it was found, and the raw line.
#[derive(Debug)]
pub struct RunError {
    pub fault: ParseError,
    pub chunk_start: usize,
    pub line: Vec<u8>,
}

/// Folds the line `ls..le` of `data` into `m`, or reports it under the strict policy.
fn fold_line(
    m: &mut Mapping,
    data: &[u8],
    start: usize,
    ls: usize,
    le: usize,
    policy: FailurePolicy,
) -> (r: Option<RunError>)
    requires
        start <= ls <= le <= data@.len(),
        ls < data@.len(),
        old(m).wf(),
        mapping_valid(old(m)@),
        counts_at_most(old(m)@, ls - start),
    ensures
        match r {
            None => final(m).wf() && final(m)@ == apply_line(
                old(m)@,
                data@.subrange(ls as int, le as int),
            ) && (policy == FailurePolicy::Strict ==> line_outcome(
                data@.subrange(ls as int, le as int),
            ) is Ok),
            Some(e) => policy == FailurePolicy::Strict && line_outcome(
                data@.subrange(ls as int, le as int),
            ) == Err::<(Seq<u8>, int), ParseError>(e.fault) && e.line@ == data@.subrange(
                ls as int,
                le as int,
            ) && e.chunk_start == start,
        },
{
    match parse_record(data, ls, le) {
        Ok((k, v)) => {
            assert(usize::MAX as int <= u64::MAX as int);
            m.add(k, v);
            None
        },
        Err(e) => {
            if policy == FailurePolicy::Strict {
                Some(RunError { fault: e, chunk_start: start, line: copy_range(data, ls, le) })
            } else {
                None
            }
        },
    }
}

/// What aggregating the chunk `start..end` of `data` yields under `policy`.
pub open spec fn chunk_result_ok(
    data: Seq<u8>,
    start: int,
    end: int,
    policy: FailurePolicy,
    r: Result<Mapping, RunError>,
) -> bool {
    let s = data.subrange(start, end);
    match r {
        Ok(m) => m.wf() && m@ == summarize(s) && (policy == FailurePolicy::Strict ==> first_fault(
            s,
        ) is None),
        Err(e) => policy == FailurePolicy::Strict && first_fault(s) == Some((e.fault, e.line@))
            && e.chunk_start == start,
    }
}

/// Closes the line `ls..le` of the chunk `start..end`: the line ends at a terminator at `le`,
/// or at `end` when it is the unterminated last line.
fn close_line(
    m: &mut Mapping,
    data: &[u8],
    start: usize,
    ls: usize,
    le: usize,
    end: usize,
    policy: FailurePolicy,
) -> (r: Option<RunError>)
    requires
        start <= ls <= le <= end <= data@.len(),
        (le < end && data@[le as int] == NEWLINE) || (le == end && ls < end),
        old(m).wf(),
        old(m)@ == summarize(data@.subrange(start as int, ls as int)),
        line_aligned(data@.subrange(start as int, ls as int)),
        has_no_newline(data@.subrange(ls as int, le as int)),
        policy == FailurePolicy::Strict ==> first_fault(data@.subrange(start as int, ls as int))
            is None,
    ensures
        match r {
            None => {
                let done = if le < end { le + 1 } else { le as int };
                &&& final(m).wf()
                &&& final(m)@ == summarize(data@.subrange(start as int, done))
                &&& line_aligned(data@.subrange(start as int, done)) || done == end
                &&& policy == FailurePolicy::Strict ==> first_fault(
                    data@.subrange(start as int, done),
                ) is None
            },
            Some(e) => chunk_result_ok(data@, start as int, end as int, policy, Err(e)),
        },
{
    let ghost p = data@.subrange(start as int, ls as int);
    let ghost line = data@.subrange(ls as int, le as int);
    let ghost term = if le < end { seq![NEWLINE] } else { Seq::<u8>::empty() };
    let ghost done_at: int = if le < end { le + 1 } else { le as int };
    let ghost done = data@.subrange(start as int, done_at);
    proof {
        lemma_summarize_facts(p);
        lemma_split_append(p, line, term);
        assert(p + line + term =~= done);
        lemma_last_line_start_bounds(done);
        assert(done.subrange(0, last_line_start(done)) == p);
    }
    let r = fold_line(m, data, start, ls, le, policy);
    match &r {
        Some(e) => {
            proof {
                assert(first_fault(done) == Some((e.fault, e.line@)));
                if le < end {
                    assert(done.last() == NEWLINE);
                    lemma_first_fault_split(done, data@.subrange(done_at, end as int));
                    assert(done + data@.subrange(done_at, end as int) =~= data@.subrange(
                        start as int,
                        end as int,
                    ));
                }
            }
        },
        None => {
            if le < end {
                assert(done.last() == NEWLINE);
            }
        },
    }
    r
}

/// Aggregates the chunk `start..end` of `data`: one pass, line by line, each record folded
/// into a local mapping. An unterminated last line counts as a line.
pub fn aggregate_range(data: &[u8], start: usize, end: usize, policy: FailurePolicy) -> (r:
    Result<Mapping, RunError>)
    requires
        start <= end <= data@.len(),
    ensures
        chunk_result_ok(data@, start as int, end as int, policy, r),
        policy == FailurePolicy::Lenient ==> r is Ok,
{
    let mut m = Mapping::new();
    let mut ls: usize = start;
    let mut i: usize = start;
    assert(data@.subrange(start as int, start as int) =~= Seq::<u8>::empty());
    while i < end
        invariant
            start <= ls <= i <= end <= data@.len(),
            m.wf(),
            m@ == summarize(data@.subrange(start as int, ls as int)),
            line_aligned(data@.subrange(start as int, ls as int)),
            has_no_newline(data@.subrange(ls as int, i as int)),
            policy == FailurePolicy::Strict ==> first_fault(data@.subrange(start as int, ls as int))
                is None,
        decreases end - i,
    {
        if data[i] == NEWLINE {
            match close_line(&mut m, data, start, ls, i, end, policy) {
                Some(e) => {
                    return Err(e);
                },
                None => {},
            }
            ls = i + 1;
            assert(data@.subrange(ls as int, ls as int) =~= Seq::<u8>::empty());
        } else {
            assert(data@.subrange(ls as int, i + 1) =~= data@.subrange(ls as int, i as int).push(
                data@[i as int],
            ));
        }
        i = i + 1;
    }
    if ls < end {
        match close_line(&mut m, data, start, ls, end, end, policy) {
            Some(e) => {
                return Err(e);
            },
            None => {},
        }
        ls = end;
    }
    Ok(m)
}

/// Aggregates one whole chunk.
pub fn process_chunk(chunk: &[u8], policy: FailurePolicy) -> (r: Result<Mapping, RunError>)
    ensures
        chunk_result_ok(chunk@, 0, chunk@.len() as int, policy, r),
        policy == FailurePolicy::Lenient ==> r is Ok,
{
    aggregate_range(chunk, 0, chunk.len(), policy)
}

} // verus!
