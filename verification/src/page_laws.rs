//! What holds of every split by page count.

use vstd::prelude::*;

use crate::chunks::{consecutive, ChunkView};
use crate::page_split::{
    first_pages, law_page_steps_give_the_chunks, page_chunk_end, page_chunks, page_chunks_from,
    pages_to_come, without_first, PageSplitView,
};
use crate::page_tree::page_list;
use crate::pdf::{pages, DocumentValue};
use crate::size_laws::never_stopped;
use crate::size_split::SplitStepView;

verus! {

/// The chunks of the pages from `start` on: the one at `i` begins `i` times the
/// page count further on and has that many pages, or those that are left.
proof fn lemma_page_chunks_from(
    working: DocumentValue,
    total: int,
    pages_per_chunk: int,
    start: int,
)
    requires
        0 <= start <= total,
        pages_per_chunk > 0,
    ensures
        ({
            let (chunks, failure) = page_chunks_from(working, total, pages_per_chunk, start);
            &&& forall|i: int|
                0 <= i < chunks.len() ==> {
                    &&& (#[trigger] chunks[i]).start == start + i * pages_per_chunk
                    &&& chunks[i].start < total
                    &&& chunks[i].end == page_chunk_end(total, pages_per_chunk, chunks[i].start)
                }
            &&& failure is None ==> if start < total {
                chunks.len() > 0 && chunks.last().end == total
            } else {
                chunks.len() == 0
            }
        }),
    decreases total - start,
{
    if start < total {
        let end = page_chunk_end(total, pages_per_chunk, start);
        let (chunks, failure) = page_chunks_from(working, total, pages_per_chunk, start);
        assert(0 * pages_per_chunk == 0);
        match first_pages(working, end - start) {
            Ok(bytes) => if end < total {
                match without_first(working, pages_per_chunk) {
                    Ok(rest) => {
                        lemma_page_chunks_from(rest, total, pages_per_chunk, end);
                        let later = page_chunks_from(rest, total, pages_per_chunk, end).0;
                        assert forall|i: int| 0 <= i < chunks.len() implies {
                            &&& (#[trigger] chunks[i]).start == start + i * pages_per_chunk
                            &&& chunks[i].start < total
                            &&& chunks[i].end == page_chunk_end(
                                total,
                                pages_per_chunk,
                                chunks[i].start,
                            )
                        } by {
                            if i > 0 {
                                assert(chunks[i] == later[i - 1]);
                                assert((i - 1) * pages_per_chunk + pages_per_chunk == i
                                    * pages_per_chunk) by (nonlinear_arith);
                            }
                        }
                        if later.len() > 0 {
                            assert(chunks.last() == later.last());
                        }
                    },
                    Err(_) => {},
                }
            },
            Err(_) => {},
        }
    }
}

/// The chunks of a split by page count follow one another without a gap from the
/// first page on; where nothing fails they reach the last page. Each has
/// `pages_per_chunk` pages, but for the last one, which has those that are left.
pub proof fn law_page_chunks_partition_the_pages(source: DocumentValue, pages_per_chunk: int)
    requires
        pages_per_chunk >= 0,
    ensures
        consecutive(page_chunks(source, pages_per_chunk).0, 0),
        page_chunks(source, pages_per_chunk).1 is None ==> {
            &&& page_chunks(source, pages_per_chunk).0.len() > 0
            &&& page_chunks(source, pages_per_chunk).0.last().end == pages(source).len()
        },
        forall|i: int|
            #![trigger page_chunks(source, pages_per_chunk).0[i]]
            0 <= i < page_chunks(source, pages_per_chunk).0.len() ==> {
                let chunk = page_chunks(source, pages_per_chunk).0[i];
                &&& chunk.start == i * pages_per_chunk
                &&& chunk.end - chunk.start == if pages(source).len() - chunk.start
                    < pages_per_chunk {
                    pages(source).len() - chunk.start
                } else {
                    pages_per_chunk
                }
            },
{
    let (chunks, failure) = page_chunks(source, pages_per_chunk);
    match page_list(source) {
        Ok(list) => if list.len() > 0 && pages_per_chunk > 0 {
            let total = list.len() as int;
            lemma_page_chunks_from(source, total, pages_per_chunk, 0);
            assert(chunks == page_chunks_from(source, total, pages_per_chunk, 0).0);
            assert(0 * pages_per_chunk == 0);
            assert forall|i: int| 0 <= i < chunks.len() - 1 implies chunks[i + 1].start
                == #[trigger] chunks[i].end by {
                assert(chunks[i + 1].start == (i + 1) * pages_per_chunk);
                assert((i + 1) * pages_per_chunk == i * pages_per_chunk + pages_per_chunk)
                    by (nonlinear_arith);
            }
        },
        Err(_) => {},
    }
}

/// What a new split has to come is what `page_chunks` gives.
pub proof fn law_new_page_split_has_all_to_come(source: DocumentValue, pages_per_chunk: int)
    requires
        page_list(source) is Ok,
        pages(source).len() > 0,
        pages_per_chunk > 0,
    ensures
        pages_to_come(
            PageSplitView {
                working: source,
                total: pages(source).len() as int,
                pages_per_chunk,
                start: 0,
                halted: false,
            },
        ) == page_chunks(source, pages_per_chunk),
{
}

/// The chunks that a split cuts off when it is taken step by step, stopped or not
/// as `stops` says at each of them.
pub open spec fn page_run(split: PageSplitView, stops: Seq<bool>) -> Seq<ChunkView>
    decreases stops.len(),
{
    if stops.len() == 0 {
        seq![]
    } else {
        let (next, step) = split.step(stops[0]);
        match step {
            SplitStepView::Cut(chunk) => seq![chunk] + page_run(next, stops.drop_first()),
            _ => page_run(next, stops.drop_first()),
        }
    }
}

/// Where a split stands once it has been taken step by step, stopped or not as `stops`
/// says at each of them.
pub open spec fn after_page_run(split: PageSplitView, stops: Seq<bool>) -> PageSplitView
    decreases stops.len(),
{
    if stops.len() == 0 {
        split
    } else {
        after_page_run(split.step(stops[0]).0, stops.drop_first())
    }
}

/// How many steps a split takes that is never stopped.
proof fn lemma_page_run_ends(split: PageSplitView) -> (steps: nat)
    requires
        split.wf(),
    ensures
        page_run(split, never_stopped(steps)) == pages_to_come(split).0,
        after_page_run(split, never_stopped(steps)).step(false).1 is Finished,
    decreases split.total - split.start,
{
    law_page_steps_give_the_chunks(split);
    let (next, step) = split.step(false);
    if step is Finished {
        assert(page_run(split, never_stopped(0)) =~= pages_to_come(split).0);
        0
    } else {
        let rest = if step is Failed {
            assert(page_run(next, never_stopped(0)) =~= pages_to_come(next).0);
            assert(after_page_run(next, never_stopped(0)) == next);
            0
        } else {
            lemma_page_run_ends(next)
        };
        let stops = never_stopped(rest + 1);
        assert(stops[0] == false);
        assert(stops.drop_first() =~= never_stopped(rest));
        assert(after_page_run(split, stops) == after_page_run(next, never_stopped(rest)));
        assert(page_run(split, stops) =~= pages_to_come(split).0);
        rest + 1
    }
}

/// A split that is never stopped comes to an end, and has then handed over all that was
/// to come: every chunk where nothing fails, and else those before the failure.
pub proof fn law_unstopped_page_split_hands_over_all(split: PageSplitView)
    requires
        split.wf(),
    ensures
        exists|steps: nat|
            page_run(split, #[trigger] never_stopped(steps)) == pages_to_come(split).0
                && after_page_run(split, never_stopped(steps)).step(false).1 is Finished,
{
    let steps = lemma_page_run_ends(split);
    assert(page_run(split, never_stopped(steps)) == pages_to_come(split).0);
}

/// Stopping a split keeps what it has cut off, and changes none of it: the chunks
/// of any run are the first ones of those of a run that is never stopped.
pub proof fn law_stopping_keeps_the_page_chunks_so_far(split: PageSplitView, stops: Seq<bool>)
    requires
        split.wf(),
    ensures
        page_run(split, stops).is_prefix_of(pages_to_come(split).0),
    decreases stops.len(),
{
    if stops.len() > 0 {
        let (next, step) = split.step(stops[0]);
        law_page_steps_give_the_chunks(split);
        if split.halted || split.start >= split.total {
            law_stopping_keeps_the_page_chunks_so_far(next, stops.drop_first());
        } else if stops[0] {
            lemma_halted_cuts_nothing(next, stops.drop_first());
        } else {
            match step {
                SplitStepView::Cut(chunk) => {
                    law_stopping_keeps_the_page_chunks_so_far(next, stops.drop_first());
                    let rest = pages_to_come(next).0;
                    let cut = page_run(next, stops.drop_first());
                    assert((seq![chunk] + rest).subrange(0, cut.len() as int + 1) =~= seq![chunk]
                        + rest.subrange(0, cut.len() as int));
                },
                _ => {
                    lemma_halted_cuts_nothing(next, stops.drop_first());
                },
            }
        }
    }
}

/// A split that has been halted cuts off nothing.
proof fn lemma_halted_cuts_nothing(split: PageSplitView, stops: Seq<bool>)
    requires
        split.halted,
    ensures
        page_run(split, stops) == Seq::<ChunkView>::empty(),
    decreases stops.len(),
{
    if stops.len() > 0 {
        lemma_halted_cuts_nothing(split, stops.drop_first());
    }
}

/// A split that is told to stop does so at the next step, unless there is nothing left to do
/// anyway, and cuts off nothing more.
pub proof fn law_page_splits_stop_at_the_next_step(split: PageSplitView, later: Seq<bool>)
    ensures
        split.step(false).1 is Finished <==> split.step(true).1 is Finished,
        split.step(true).1 is Stopped || split.step(true).1 is Finished,
        split.step(true).1 is Stopped ==> page_run(split.step(true).0, later) == Seq::<
            ChunkView,
        >::empty(),
        split.step(true).0.start == split.start,
        split.step(false).1 matches SplitStepView::Cut(chunk) ==> chunk.start == split.start
            && chunk.end == split.step(false).0.start,
{
    if split.step(true).1 is Stopped {
        lemma_halted_cuts_nothing(split.step(true).0, later);
    }
}

} // verus!
