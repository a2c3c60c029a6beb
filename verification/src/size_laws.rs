//! What holds of every split by size.

use vstd::prelude::*;

use crate::chunks::{consecutive, indices, span, ChunkView};
use crate::extract::extraction;
use crate::page_tree::{page_list, SplitError};
use crate::pdf::{pages, DocumentValue};
use crate::size_split::{
    chunk_at, chunk_of, chunks_from, cumulative_sizes, estimated_end, fitting_end, lemma_chunk_at,
    lemma_cumulative_len, lemma_estimated_end, lemma_fitting_end, measurement, size_chunks,
    SizeSplitView, SplitStepView,
};

verus! {

/// The chunks of the pages from `start` on: they follow one another, hold what
/// their pages make, fit unless they are single pages, and reach the last page
/// unless there was a failure.
pub(crate) proof fn lemma_chunks_from(
    source: DocumentValue,
    cumulative: Seq<u64>,
    max_size: u64,
    start: int,
)
    requires
        0 <= start < cumulative.len(),
    ensures
        consecutive(chunks_from(source, cumulative, max_size, start).0, start),
        forall|i: int|
            #![trigger chunks_from(source, cumulative, max_size, start).0[i]]
            0 <= i < chunks_from(source, cumulative, max_size, start).0.len() ==> {
                let chunk = chunks_from(source, cumulative, max_size, start).0[i];
                &&& chunk.end < cumulative.len()
                &&& chunk.end > chunk.start + 1 ==> chunk.bytes.len() <= max_size
                &&& chunk_of(source, chunk.start, chunk.end) == Ok::<_, SplitError>(chunk)
                &&& start <= chunk.start
                &&& chunk_at(source, cumulative, max_size, chunk.start) == Ok::<_, SplitError>(chunk)
            },
        chunks_from(source, cumulative, max_size, start).1 is None ==> if start
            < cumulative.len() - 1 {
            &&& chunks_from(source, cumulative, max_size, start).0.len() > 0
            &&& chunks_from(source, cumulative, max_size, start).0.last().end == cumulative.len()
                - 1
        } else {
            chunks_from(source, cumulative, max_size, start).0.len() == 0
        },
    decreases cumulative.len() - start,
{
    if start < cumulative.len() - 1 {
        lemma_chunk_at(source, cumulative, max_size, start);
        match chunk_at(source, cumulative, max_size, start) {
            Ok(chunk) => {
                lemma_chunks_from(source, cumulative, max_size, chunk.end);
                let rest = chunks_from(source, cumulative, max_size, chunk.end).0;
                let all = chunks_from(source, cumulative, max_size, start).0;
                assert(all =~= seq![chunk] + rest);
                assert forall|i: int| 0 <= i < all.len() - 1 implies all[i + 1].start
                    == #[trigger] all[i].end by {
                    if i > 0 {
                        assert(all[i] == rest[i - 1]);
                        assert(all[i + 1] == rest[i]);
                    }
                }
                assert forall|i: int| 0 <= i < all.len() implies #[trigger] all[i].start
                    < all[i].end by {
                    if i > 0 {
                        assert(all[i] == rest[i - 1]);
                    }
                }
                assert forall|i: int| #![trigger all[i]] 0 <= i < all.len() implies {
                    &&& all[i].end < cumulative.len()
                    &&& all[i].end > all[i].start + 1 ==> all[i].bytes.len() <= max_size
                    &&& chunk_of(source, all[i].start, all[i].end) == Ok::<_, SplitError>(all[i])
                    &&& start <= all[i].start
                    &&& chunk_at(source, cumulative, max_size, all[i].start) == Ok::<
                        _,
                        SplitError,
                    >(all[i])
                } by {
                    if i > 0 {
                        assert(all[i] == rest[i - 1]);
                    }
                }
                if rest.len() > 0 {
                    assert(all.last() == rest.last());
                }
            },
            Err(_) => {},
        }
    }
}

/// The chunks of a split by size follow one another without a gap from the first
/// page on, and none is empty; where nothing fails they reach the last page. So
/// every page is in exactly one chunk, and the pages keep their order.
pub proof fn law_chunks_partition_the_pages(source: DocumentValue, max_size: u64)
    ensures
        consecutive(size_chunks(source, max_size).0, 0),
        size_chunks(source, max_size).1 is None ==> {
            &&& size_chunks(source, max_size).0.len() > 0
            &&& size_chunks(source, max_size).0.last().end == pages(source).len()
        },
{
    match page_list(source) {
        Ok(list) => if list.len() > 0 {
            match cumulative_sizes(source, seq![], list.len()) {
                Ok(cumulative) => {
                    lemma_cumulative_len(source, seq![], list.len());
                    lemma_chunks_from(source, cumulative, max_size, 0);
                },
                Err(_) => {},
            }
        },
        Err(_) => {},
    }
}

/// A chunk of a split by size exceeds the limit only where it is a single page,
/// and its bytes are those of the document cut down to its pages.
pub proof fn law_chunks_do_not_exceed_the_limit(source: DocumentValue, max_size: u64, i: int)
    requires
        0 <= i < size_chunks(source, max_size).0.len(),
    ensures
        ({
            let chunk = size_chunks(source, max_size).0[i];
            &&& chunk.end - chunk.start > 1 ==> chunk.bytes.len() <= max_size
            &&& extraction(source, indices(chunk.start, chunk.end)) == Ok::<_, SplitError>(
                chunk.bytes,
            )
            &&& chunk.end <= pages(source).len()
        }),
{
    match page_list(source) {
        Ok(list) => if list.len() > 0 {
            match cumulative_sizes(source, seq![], list.len()) {
                Ok(cumulative) => {
                    lemma_cumulative_len(source, seq![], list.len());
                    lemma_chunks_from(source, cumulative, max_size, 0);
                    assert(chunks_from(source, cumulative, max_size, 0).0[i] == size_chunks(
                        source,
                        max_size,
                    ).0[i]);
                },
                Err(_) => {},
            }
        },
        Err(_) => {},
    }
}

/// Whether the pages from `start` up to but without `end` fit into `max_size`.
pub open spec fn fits(source: DocumentValue, max_size: u64, start: int, end: int) -> bool {
    extraction(source, indices(start, end)) matches Ok(bytes) && bytes.len() <= max_size
}

/// Where every chunk can be extracted and a chunk fits whenever a longer one from
/// the same page on does, the search ends at the longest that fits, or at a
/// single page where none does.
pub proof fn law_search_finds_the_longest(
    source: DocumentValue,
    max_size: u64,
    start: int,
    lo: int,
    hi: int,
)
    requires
        start < lo <= hi,
        forall|end: int|
            lo < end <= hi ==> #[trigger] extraction(source, indices(start, end)) is Ok,
        forall|a: int, b: int|
            lo < a <= b <= hi && #[trigger] fits(source, max_size, start, b) ==> #[trigger] fits(
                source,
                max_size,
                start,
                a,
            ),
    ensures
        fitting_end(source, max_size, start, lo, hi) matches Ok(end) && {
            &&& lo <= end <= hi
            &&& end > lo ==> fits(source, max_size, start, end)
            &&& forall|longer: int|
                end < longer <= hi ==> !#[trigger] fits(source, max_size, start, longer)
        },
    decreases hi - lo,
{
    if lo < hi {
        let mid = (lo + hi + 1) / 2;
        assert(extraction(source, indices(start, mid)) is Ok);
        if fits(source, max_size, start, mid) {
            law_search_finds_the_longest(source, max_size, start, mid, hi);
        } else {
            law_search_finds_the_longest(source, max_size, start, lo, mid - 1);
            let end = fitting_end(source, max_size, start, lo, hi)->Ok_0;
            assert forall|longer: int| end < longer <= hi implies !#[trigger] fits(
                source,
                max_size,
                start,
                longer,
            ) by {
                if longer >= mid && fits(source, max_size, start, longer) {
                    assert(fits(source, max_size, start, mid));
                }
            }
        }
    }
}

/// Whether the sizes of chunks grow with their pages: every chunk can be extracted,
/// takes no less than the cumulative sizes say of its pages, and no less than a shorter
/// one from the same page on.
pub open spec fn sizes_grow(source: DocumentValue, cumulative: Seq<u64>) -> bool {
    &&& forall|start: int, end: int|
        0 <= start < end < cumulative.len() ==> (#[trigger] chunk_of(source, start, end) matches Ok(
            chunk,
        ) && span(cumulative, start, end - 1) <= chunk.bytes.len())
    &&& forall|start: int, a: int, b: int|
        0 <= start < a <= b < cumulative.len() ==> (#[trigger] chunk_of(
            source,
            start,
            a,
        ))->Ok_0.bytes.len() <= (#[trigger] chunk_of(source, start, b))->Ok_0.bytes.len()
}

/// An estimate ends at the last page, or before a page with which the chunk would
/// exceed the limit by the cumulative sizes.
proof fn lemma_estimate_is_tight(cumulative: Seq<u64>, max_size: u64, start: int, end: int)
    requires
        end < cumulative.len(),
    ensures
        ({
            let stop = estimated_end(cumulative, max_size, start, end);
            stop == cumulative.len() - 1 || span(cumulative, start, stop) > max_size
        }),
    decreases cumulative.len() - end,
{
    if end < cumulative.len() - 1 && span(cumulative, start, end) <= max_size {
        lemma_estimate_is_tight(cumulative, max_size, start, end + 1);
    }
}

/// Where sizes grow, a chunk that does not reach the last page could not take the next
/// one.
proof fn lemma_chunk_is_longest(
    source: DocumentValue,
    cumulative: Seq<u64>,
    max_size: u64,
    start: int,
)
    requires
        0 <= start < cumulative.len() - 1,
        sizes_grow(source, cumulative),
    ensures
        chunk_at(source, cumulative, max_size, start) matches Ok(chunk) && (chunk.end
            < cumulative.len() - 1 ==> !fits(source, max_size, start, chunk.end + 1)),
{
    let stop = estimated_end(cumulative, max_size, start, start + 1);
    lemma_estimated_end(cumulative, max_size, start, start + 1);
    lemma_estimate_is_tight(cumulative, max_size, start, start + 1);
    assert(chunk_of(source, start, stop) is Ok);
    if stop < cumulative.len() - 1 {
        assert(chunk_of(source, start, stop + 1) is Ok);
    }
    assert forall|end: int| start + 1 < end <= stop implies #[trigger] extraction(
        source,
        indices(start, end),
    ) is Ok by {
        assert(chunk_of(source, start, end) is Ok);
    }
    assert forall|a: int, b: int|
        start + 1 < a <= b <= stop && #[trigger] fits(source, max_size, start, b) implies
        #[trigger] fits(source, max_size, start, a) by {
        assert(chunk_of(source, start, a)->Ok_0.bytes.len() <= chunk_of(
            source,
            start,
            b,
        )->Ok_0.bytes.len());
        assert(chunk_of(source, start, a) is Ok);
    }
    law_search_finds_the_longest(source, max_size, start, start + 1, stop);
    let found = fitting_end(source, max_size, start, start + 1, stop)->Ok_0;
    assert(chunk_of(source, start, found) is Ok);
    if found < stop {
        assert(!fits(source, max_size, start, found + 1));
    }
}

/// Where sizes grow, no chunk but the last could take the page that comes after it
/// without exceeding the limit.
pub proof fn law_chunks_are_the_longest(
    source: DocumentValue,
    cumulative: Seq<u64>,
    max_size: u64,
    i: int,
)
    requires
        page_list(source) is Ok,
        cumulative_sizes(source, seq![], pages(source).len()) == Ok::<_, SplitError>(cumulative),
        sizes_grow(source, cumulative),
        0 <= i < size_chunks(source, max_size).0.len() - 1,
    ensures
        ({
            let chunk = size_chunks(source, max_size).0[i];
            !fits(source, max_size, chunk.start, chunk.end + 1)
        }),
{
    let chunks = size_chunks(source, max_size).0;
    lemma_cumulative_len(source, seq![], pages(source).len());
    lemma_chunks_from(source, cumulative, max_size, 0);
    assert(chunks == chunks_from(source, cumulative, max_size, 0).0);
    assert(chunks[i + 1].start == chunks[i].end);
    assert(chunks[i + 1].start < chunks[i + 1].end);
    assert(chunks_from(source, cumulative, max_size, 0).0[i + 1].end < cumulative.len());
    lemma_chunk_is_longest(source, cumulative, max_size, chunks[i].start);
    assert(chunks_from(source, cumulative, max_size, 0).0[i] == chunks[i]);
}

/// What is still to come of a split that is never stopped: the chunks up to a
/// failure, and that failure.
pub open spec fn to_come(split: SizeSplitView) -> (Seq<ChunkView>, Option<SplitError>) {
    if split.halted {
        (seq![], None)
    } else if split.sizes.len() < split.total {
        match cumulative_sizes(split.working, split.sizes, split.total) {
            Ok(cumulative) => chunks_from(split.source, cumulative, split.max_size, 0),
            Err(e) => (seq![], Some(e)),
        }
    } else {
        match split.search {
            Some((lo, hi)) => match fitting_end(
                split.source,
                split.max_size,
                split.start,
                lo,
                hi,
            ) {
                Ok(end) => match chunk_of(split.source, split.start, end) {
                    Ok(chunk) => {
                        let (rest, failure) = chunks_from(
                            split.source,
                            split.sizes,
                            split.max_size,
                            end,
                        );
                        (seq![chunk] + rest, failure)
                    },
                    Err(e) => (seq![], Some(e)),
                },
                Err(e) => (seq![], Some(e)),
            },
            None => chunks_from(split.source, split.sizes, split.max_size, split.start),
        }
    }
}

/// Each step of a split that is not stopped hands over the first of what is to come,
/// leaves what is to come as it was, or fails or finishes where that is what is to come.
pub proof fn law_steps_give_the_chunks(split: SizeSplitView)
    requires
        split.wf(),
    ensures
        split.step(false).0.wf(),
        match split.step(false).1 {
            SplitStepView::Cut(chunk) => to_come(split) == (
                seq![chunk] + to_come(split.step(false).0).0,
                to_come(split.step(false).0).1,
            ),
            SplitStepView::Failed(e) => to_come(split) == (Seq::<ChunkView>::empty(), Some(e)),
            SplitStepView::Finished => to_come(split) == (
                Seq::<ChunkView>::empty(),
                None::<SplitError>,
            ),
            SplitStepView::Measured(_) => to_come(split) == to_come(split.step(false).0),
            SplitStepView::Narrowed => to_come(split) == to_come(split.step(false).0),
            SplitStepView::Stopped => false,
        },
{
    let (next, step) = split.step(false);
    if split.halted || split.sizes.len() > split.total && split.start >= split.total {
    } else if split.sizes.len() < split.total {
        match measurement(split.working, split.sizes.len() > 0) {
            Ok((working, size)) => {
                if split.sizes.len() + 1 == split.total {
                    assert(cumulative_sizes(working, split.sizes.push(size), split.total) == Ok::<
                        _,
                        SplitError,
                    >(split.sizes.push(size).push(0)));
                }
            },
            Err(_) => {},
        }
    } else {
        match split.search {
            Some((lo, hi)) => {
                reveal_with_fuel(fitting_end, 2);
                lemma_fitting_end(split.source, split.max_size, split.start, lo, hi);
            },
            None => {
                lemma_chunk_at(split.source, split.sizes, split.max_size, split.start);
                lemma_estimated_end(
                    split.sizes,
                    split.max_size,
                    split.start,
                    split.start + 1,
                );
            },
        }
    }
}

/// What a new split has to come is what `size_chunks` gives.
pub proof fn law_new_split_has_all_to_come(source: DocumentValue, max_size: u64)
    requires
        page_list(source) is Ok,
        pages(source).len() > 0,
    ensures
        to_come(
            SizeSplitView {
                source,
                working: source,
                max_size,
                total: pages(source).len(),
                sizes: seq![],
                start: 0,
                search: None,
                halted: false,
            },
        ) == size_chunks(source, max_size),
{
}

/// The chunks that a split cuts off when it is taken step by step, stopped or not
/// as `stops` says at each of them.
pub open spec fn run(split: SizeSplitView, stops: Seq<bool>) -> Seq<ChunkView>
    decreases stops.len(),
{
    if stops.len() == 0 {
        seq![]
    } else {
        let (next, step) = split.step(stops[0]);
        match step {
            SplitStepView::Cut(chunk) => seq![chunk] + run(next, stops.drop_first()),
            _ => run(next, stops.drop_first()),
        }
    }
}

/// Where a split stands once it has been taken step by step, stopped or not as `stops`
/// says at each of them.
pub open spec fn after_run(split: SizeSplitView, stops: Seq<bool>) -> SizeSplitView
    decreases stops.len(),
{
    if stops.len() == 0 {
        split
    } else {
        after_run(split.step(stops[0]).0, stops.drop_first())
    }
}

/// So many steps at which nothing is stopped.
pub open spec fn never_stopped(steps: nat) -> Seq<bool> {
    Seq::new(steps, |i: int| false)
}

/// How many steps a split takes that is never stopped.
proof fn lemma_run_ends(split: SizeSplitView) -> (steps: nat)
    requires
        split.wf(),
    ensures
        run(split, never_stopped(steps)) == to_come(split).0,
        after_run(split, never_stopped(steps)).step(false).1 is Finished,
    decreases
            if split.sizes.len() < split.total {
                split.total - split.sizes.len()
            } else {
                0
            },
            split.total - split.start,
            match split.search {
                Some((lo, hi)) => hi - lo,
                None => split.total as int + 1,
            },
{
    law_steps_give_the_chunks(split);
    let (next, step) = split.step(false);
    if step is Finished {
        assert(run(split, never_stopped(0)) =~= to_come(split).0);
        0
    } else {
        if split.sizes.len() >= split.total && split.search is None {
            lemma_estimated_end(split.sizes, split.max_size, split.start, split.start + 1);
        }
        let rest = if step is Failed {
            assert(run(next, never_stopped(0)) =~= to_come(next).0);
            assert(after_run(next, never_stopped(0)) == next);
            0
        } else {
            lemma_run_ends(next)
        };
        let stops = never_stopped(rest + 1);
        assert(stops[0] == false);
        assert(stops.drop_first() =~= never_stopped(rest));
        assert(after_run(split, stops) == after_run(next, never_stopped(rest)));
        assert(run(split, stops) =~= to_come(split).0);
        rest + 1
    }
}

/// A split that is never stopped comes to an end, and has then handed over all that was
/// to come: every chunk where nothing fails, and else those before the failure.
pub proof fn law_unstopped_split_hands_over_all(split: SizeSplitView)
    requires
        split.wf(),
    ensures
        exists|steps: nat|
            run(split, #[trigger] never_stopped(steps)) == to_come(split).0 && after_run(
                split,
                never_stopped(steps),
            ).step(false).1 is Finished,
{
    let steps = lemma_run_ends(split);
    assert(run(split, never_stopped(steps)) == to_come(split).0);
}

/// Stopping a split keeps what it has cut off, and changes none of it: the chunks
/// of any run are the first ones of those of a run that is never stopped.
pub proof fn law_stopping_keeps_the_chunks_so_far(split: SizeSplitView, stops: Seq<bool>)
    requires
        split.wf(),
    ensures
        run(split, stops).is_prefix_of(to_come(split).0),
    decreases stops.len(),
{
    if stops.len() > 0 {
        let (next, step) = split.step(stops[0]);
        law_steps_give_the_chunks(split);
        if split.halted || split.sizes.len() > split.total && split.start >= split.total {
            law_stopping_keeps_the_chunks_so_far(next, stops.drop_first());
        } else if stops[0] {
            lemma_halted_cuts_nothing(next, stops.drop_first());
        } else {
            law_stopping_keeps_the_chunks_so_far(next, stops.drop_first());
            match step {
                SplitStepView::Cut(chunk) => {
                    let rest = to_come(next).0;
                    let cut = run(next, stops.drop_first());
                    assert((seq![chunk] + rest).subrange(0, cut.len() as int + 1) =~= seq![chunk]
                        + rest.subrange(0, cut.len() as int));
                },
                SplitStepView::Failed(_) => {
                    lemma_halted_cuts_nothing(next, stops.drop_first());
                },
                _ => {},
            }
        }
    }
}

/// A split that has been halted cuts off nothing.
proof fn lemma_halted_cuts_nothing(split: SizeSplitView, stops: Seq<bool>)
    requires
        split.halted,
    ensures
        run(split, stops) == Seq::<ChunkView>::empty(),
    decreases stops.len(),
{
    if stops.len() > 0 {
        lemma_halted_cuts_nothing(split, stops.drop_first());
    }
}

/// A split that is told to stop does so at the next step, unless there is nothing left to do
/// anyway, and cuts off nothing more.
pub proof fn law_splits_stop_at_the_next_step(split: SizeSplitView, later: Seq<bool>)
    ensures
        split.step(false).1 is Finished <==> split.step(true).1 is Finished,
        split.step(true).1 is Stopped || split.step(true).1 is Finished,
        split.step(true).1 is Stopped ==> run(split.step(true).0, later) == Seq::<
            ChunkView,
        >::empty(),
        split.step(true).0.start == split.start,
        split.step(true).0.sizes == split.sizes,
{
    if split.step(true).1 is Stopped {
        lemma_halted_cuts_nothing(split.step(true).0, later);
    }
}

/// Pages are measured one by one before the first chunk is cut off: each such step counts one
/// more, and the last one counts all of them.
pub proof fn law_pages_are_measured_one_by_one(split: SizeSplitView)
    requires
        split.wf(),
    ensures
        split.step(false).1 matches SplitStepView::Measured(n) ==> {
            &&& n == split.sizes.len() + 1
            &&& 1 <= n <= pages(split.source).len()
            &&& n < pages(split.source).len() ==> split.step(false).0.sizes.len() == n
            &&& split.step(false).0.sizes.take(n - 1) == split.sizes
            &&& split.step(false).0.start == 0
        },
        split.sizes.len() < pages(split.source).len() && !split.halted ==> split.step(
            false,
        ).1 is Measured || split.step(false).1 is Failed,
        split.step(false).1 matches SplitStepView::Cut(chunk) ==> chunk.start == split.start
            && chunk.end == split.step(false).0.start,
{
    if let SplitStepView::Measured(n) = split.step(false).1 {
        assert(split.step(false).0.sizes.take(n - 1) =~= split.sizes);
    }
}

/// The first chunk begins at the first page, each ends after it begins, the next one begins where
/// it ends, and the last one ends at the last page where nothing fails.
pub proof fn law_chunks_follow_one_another(source: DocumentValue, max_size: u64, i: int)
    requires
        0 <= i < size_chunks(source, max_size).0.len(),
    ensures
        ({
            let (chunks, failure) = size_chunks(source, max_size);
            &&& chunks[0].start == 0
            &&& chunks[i].start < chunks[i].end <= pages(source).len()
            &&& i + 1 < chunks.len() ==> chunks[i + 1].start == chunks[i].end
            &&& failure is None && i == chunks.len() - 1 ==> chunks[i].end == pages(source).len()
        }),
{
    law_chunks_partition_the_pages(source, max_size);
    law_chunks_do_not_exceed_the_limit(source, max_size, i);
}

} // verus!
