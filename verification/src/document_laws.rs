//! What the chunks of a document are made of, by the documents that deleting pages, pruning
//! and writing give.

use vstd::prelude::*;

use crate::chunks::{indices, span, ChunkView};
use crate::extract::{cut_down, dropped_numbers, extraction, holds_pages, kept_numbers};
use crate::page_split::{
    chunk_holds_pages, first_document, left_after, numbers, page_chunks, page_chunks_from,
    without_first,
};
use crate::page_tree::{page_list, without_pages, written, SplitError};
use crate::pdf::{
    claims_in_range, deletable, has_numbers_left, page_ids, pages, pages_deleted, pruned, saving,
    valid_mark, DocumentValue, ObjectId,
};
use crate::size_laws::lemma_chunks_from;
use crate::size_split::{
    chunk_at, chunks_from, cumulative_sizes, estimated_end, fitting_end, lemma_chunk_at,
    lemma_cumulative_len, lemma_estimated_end, lemma_fitting_end, measurement, size_chunks,
};

verus! {

/// A document can be written exactly if no byte of its binary mark is below 128 and there is an
/// object number left, or two where the cross-reference is an object of its own. What is written
/// is the whole document.
pub proof fn law_documents_that_can_be_written(value: DocumentValue)
    ensures
        ({
            let marked = forall|i: int|
                0 <= i < value.binary_mark.len() ==> #[trigger] value.binary_mark[i] >= 128;
            let one_left = value.max_id < 0xffff_ffff;
            let two_left = value.max_id < 0xffff_fffe;
            &&& marked && (two_left || one_left && !value.stream_cross_reference) ==> written(value)
                == Ok::<_, SplitError>(saving(value).0)
            &&& !marked && one_left ==> written(value) == Err::<Seq<u8>, _>(
                SplitError::InvalidBinaryMark,
            )
            &&& !one_left || marked && !two_left && value.stream_cross_reference ==> written(value)
                == Err::<Seq<u8>, _>(SplitError::TooManyObjects)
        }),
{
}

/// The chunk documents from some page on, where pruning finds nothing to take out of what it
/// left before.
proof fn lemma_page_chunks_are_pruned(
    working: DocumentValue,
    total: int,
    pages_per_chunk: int,
    start: int,
    i: int,
)
    requires
        forall|v: DocumentValue| pruned(#[trigger] pruned(v)) == pruned(v),
        0 <= start,
        start > 0 ==> pruned(working) == working,
        start == 0 ==> total == pages(working).len(),
        0 <= i < page_chunks_from(working, total, pages_per_chunk, start).0.len(),
    ensures
        ({
            let chunk = page_chunks_from(working, total, pages_per_chunk, start).0[i];
            chunk.start > 0 || chunk.end < total ==> exists|rest: DocumentValue|
                (#[trigger] saving(rest)).0 == chunk.bytes && pruned(rest) == rest
        }),
    decreases total - start,
{
    let (chunks, failure) = page_chunks_from(working, total, pages_per_chunk, start);
    let end = chunks[0].end;
    let rest = first_document(working, end - start)->Ok_0;
    assert(chunks[0].start == start);
    assert(saving(rest).0 == chunks[0].bytes);
    if i > 0 {
        let next = without_first(working, pages_per_chunk)->Ok_0;
        let later = page_chunks_from(next, total, pages_per_chunk, end).0;
        assert(chunks == seq![chunks[0]] + later);
        assert(chunks[i] == later[i - 1]);
        lemma_page_chunks_are_pruned(next, total, pages_per_chunk, end, i - 1);
    }
}

/// A chunk by page count that does not take all pages of the document is written from a document
/// that is closed under pruning: nothing is left in it that only the pages of other chunks lead
/// to. This holds where pruning leaves what it left before as it is.
pub proof fn law_page_chunks_are_pruned(source: DocumentValue, pages_per_chunk: int, i: int)
    requires
        forall|v: DocumentValue| pruned(#[trigger] pruned(v)) == pruned(v),
        pages_per_chunk >= 0,
        0 <= i < page_chunks(source, pages_per_chunk).0.len(),
    ensures
        ({
            let chunk = page_chunks(source, pages_per_chunk).0[i];
            chunk.start > 0 || chunk.end < pages(source).len() ==> exists|rest: DocumentValue|
                (#[trigger] saving(rest)).0 == chunk.bytes && pruned(rest) == rest
        }),
{
    lemma_page_chunks_are_pruned(source, pages(source).len() as int, pages_per_chunk, 0, i);
}

/// The documents that pages are left in or taken out of while a document is split are closed
/// under pruning, where pruning leaves what it left before as it is.
pub proof fn law_cut_documents_are_pruned(
    value: DocumentValue,
    count: int,
    page_indices: Seq<usize>,
)
    requires
        forall|v: DocumentValue| pruned(#[trigger] pruned(v)) == pruned(v),
    ensures
        cut_down(value, page_indices) matches Ok(rest) ==> pruned(rest) == rest,
        without_first(value, count) matches Ok(rest) ==> pruned(rest) == rest,
        first_document(value, count) matches Ok(rest) ==> count < pages(value).len() ==> pruned(
            rest,
        ) == rest,
{
}

/// The numbers of `count` pages of a document from the one at index `from` on.
pub open spec fn page_numbers(value: DocumentValue, from: int, count: int) -> Seq<u32> {
    Seq::new(count as nat, |k: int| pages(value)[from + k].0)
}

/// Whether a document of `total` pages can be split step by step: `docs` are the documents
/// without the pages of the chunks before each, and `cut` those cut down to the pages of each.
pub open spec fn splits_by_count(
    total: int,
    pages_per_chunk: int,
    docs: Seq<DocumentValue>,
    cut: Seq<DocumentValue>,
) -> bool {
    let n = docs.len() as int;
    &&& cut.len() == n
    &&& forall|i: int|
        0 <= i < n ==> {
            let listed = pages(#[trigger] docs[i]).len() as int;
            let count = if i == n - 1 {
                total - i * pages_per_chunk
            } else {
                pages_per_chunk
            };
            let later = page_numbers(docs[i], count, listed - count);
            &&& claims_in_range(docs[i])
            &&& has_numbers_left(cut[i]) && valid_mark(cut[i])
            &&& count >= listed ==> cut[i] == docs[i]
            &&& count < listed ==> deletable(docs[i], later) && cut[i] == pruned(
                pages_deleted(docs[i], later),
            )
        }
    &&& forall|i: int, j: int|
        0 <= i < n - 1 && j == i + 1 ==> {
            let first = page_numbers(#[trigger] docs[i], 0, pages_per_chunk);
            &&& pages_per_chunk <= pages(docs[i]).len()
            &&& deletable(docs[i], first)
            &&& #[trigger] docs[j] == pruned(pages_deleted(docs[i], first))
        }
}

/// The chunks from the one at `i` on.
proof fn lemma_page_chunks_are_written_from(
    total: int,
    pages_per_chunk: int,
    docs: Seq<DocumentValue>,
    cut: Seq<DocumentValue>,
    i: int,
)
    requires
        pages_per_chunk > 0,
        0 <= i < docs.len(),
        (docs.len() - 1) * pages_per_chunk < total <= docs.len() * pages_per_chunk,
        splits_by_count(total, pages_per_chunk, docs, cut),
    ensures
        page_chunks_from(docs[i], total, pages_per_chunk, i * pages_per_chunk) == (
            Seq::new(
                (docs.len() - i) as nat,
                |k: int|
                    ChunkView {
                        start: (i + k) * pages_per_chunk,
                        end: if i + k == docs.len() - 1 {
                            total
                        } else {
                            (i + k + 1) * pages_per_chunk
                        },
                        bytes: saving(cut[i + k]).0,
                    },
            ),
            None::<SplitError>,
        ),
    decreases docs.len() - i,
{
    let n = docs.len() as int;
    let start = i * pages_per_chunk;
    let chunks = Seq::new(
        (n - i) as nat,
        |k: int|
            ChunkView {
                start: (i + k) * pages_per_chunk,
                end: if i + k == n - 1 {
                    total
                } else {
                    (i + k + 1) * pages_per_chunk
                },
                bytes: saving(cut[i + k]).0,
            },
    );
    let list = pages(docs[i]);
    assert((i + 1) * pages_per_chunk == start + pages_per_chunk) by (nonlinear_arith)
        requires
            start == i * pages_per_chunk,
    ;
    assert(n * pages_per_chunk == (n - 1) * pages_per_chunk + pages_per_chunk) by (nonlinear_arith);
    assert(i < n - 1 ==> (i + 1) * pages_per_chunk <= (n - 1) * pages_per_chunk)
        by (nonlinear_arith)
        requires
            pages_per_chunk > 0,
    ;
    let end = if i == n - 1 {
        total
    } else {
        start + pages_per_chunk
    };
    let count = end - start;
    assert(cut[i] == cut[i]);
    assert(claims_in_range(docs[i]));
    if count < list.len() {
        assert(numbers(list).subrange(count, list.len() as int) =~= page_numbers(
            docs[i],
            count,
            list.len() - count,
        ));
    }
    assert(first_document(docs[i], count) == Ok::<_, SplitError>(cut[i]));
    assert(chunks[0] == ChunkView { start, end, bytes: saving(cut[i]).0 });
    if i < n - 1 {
        let next = docs[i + 1];
        assert(numbers(list).subrange(0, pages_per_chunk) =~= page_numbers(
            docs[i],
            0,
            pages_per_chunk,
        ));
        assert(without_first(docs[i], pages_per_chunk) == Ok::<_, SplitError>(next));
        lemma_page_chunks_are_written_from(total, pages_per_chunk, docs, cut, i + 1);
        let later = page_chunks_from(next, total, pages_per_chunk, end).0;
        assert(chunks =~= seq![chunks[0]] + later) by {
            assert forall|k: int| 0 < k < chunks.len() implies chunks[k] == #[trigger] later[k
                - 1] by {
                assert(i + 1 + (k - 1) == i + k);
            }
        }
    } else {
        assert(chunks =~= seq![chunks[0]]);
    }
}

/// A document that can be split step by step is split into as many chunks of `pages_per_chunk`
/// pages as are full, and one more with what is left. Each is written from the document without
/// the pages of the chunks before it, pruned after each of them, out of which the pages after the
/// chunk have been taken and what only they lead to.
pub proof fn law_page_chunks_are_written_from(
    source: DocumentValue,
    pages_per_chunk: int,
    docs: Seq<DocumentValue>,
    cut: Seq<DocumentValue>,
)
    requires
        pages_per_chunk > 0,
        docs.len() > 0,
        docs[0] == source,
        (docs.len() - 1) * pages_per_chunk < pages(source).len() <= docs.len() * pages_per_chunk,
        splits_by_count(pages(source).len() as int, pages_per_chunk, docs, cut),
    ensures
        ({
            let (chunks, failure) = page_chunks(source, pages_per_chunk);
            &&& failure is None
            &&& chunks.len() == docs.len()
            &&& forall|i: int|
                0 <= i < chunks.len() ==> {
                    &&& (#[trigger] chunks[i]).start == i * pages_per_chunk
                    &&& chunks[i].end == if i == chunks.len() - 1 {
                        pages(source).len() as int
                    } else {
                        (i + 1) * pages_per_chunk
                    }
                    &&& chunks[i].bytes == saving(cut[i]).0
                }
        }),
{
    let total = pages(source).len() as int;
    assert(0 * pages_per_chunk == 0);
    assert((docs.len() - 1) * pages_per_chunk >= 0) by (nonlinear_arith)
        requires
            docs.len() > 0,
            pages_per_chunk > 0,
    ;
    assert(claims_in_range(docs[0]));
    lemma_page_chunks_are_written_from(total, pages_per_chunk, docs, cut, 0);
}

/// A split by page count fails for want of pages exactly if the document has none, and for want
/// of pages in a chunk exactly if chunks of none were asked for of a document that has some.
pub proof fn law_page_splits_need_pages(source: DocumentValue, pages_per_chunk: int)
    requires
        pages_per_chunk >= 0,
        claims_in_range(source),
    ensures
        page_chunks(source, pages_per_chunk).1 == Some(SplitError::NoPages) <==> pages(source).len()
            == 0,
        page_chunks(source, pages_per_chunk).1 == Some(SplitError::ZeroPagesPerChunk) <==> pages(
            source,
        ).len() > 0 && pages_per_chunk == 0,
{
    lemma_other_failures(source, pages(source).len() as int, pages_per_chunk, 0);
}

/// Cutting chunks off fails neither for want of pages nor for want of pages in a chunk.
proof fn lemma_other_failures(working: DocumentValue, total: int, pages_per_chunk: int, start: int)
    ensures
        page_chunks_from(working, total, pages_per_chunk, start).1 != Some(SplitError::NoPages),
        page_chunks_from(working, total, pages_per_chunk, start).1 != Some(
            SplitError::ZeroPagesPerChunk,
        ),
    decreases total - start,
{
    if start < total && pages_per_chunk > 0 {
        let end = if total - start < pages_per_chunk {
            total
        } else {
            start + pages_per_chunk
        };
        if end < total {
            match without_first(working, pages_per_chunk) {
                Ok(rest) => lemma_other_failures(rest, total, pages_per_chunk, end),
                Err(_) => {},
            }
        }
    }
}

/// Whether `docs` are the documents that are measured for a split of `source`: the document
/// itself, and after each what is left of it, once it has been written, without its first page
/// and without what only that page leads to.
pub open spec fn is_measured(source: DocumentValue, docs: Seq<DocumentValue>) -> bool {
    &&& docs.len() > 0
    &&& docs[0] == source
    &&& forall|i: int|
        0 <= i < docs.len() ==> has_numbers_left(#[trigger] docs[i]) && valid_mark(docs[i])
            && saving(docs[i]).0.len() <= 0xffff_ffff_ffff_ffff
    &&& forall|i: int, j: int|
        0 <= i < docs.len() - 1 && j == i + 1 ==> deletable(
            saving(#[trigger] docs[i]).1,
            seq![1u32],
        ) && #[trigger] docs[j] == pruned(pages_deleted(saving(docs[i]).1, seq![1u32]))
}

/// The length of the written form of the document without its first `i` pages; 0 where that are
/// all of them.
pub open spec fn size_from(docs: Seq<DocumentValue>, i: int) -> int {
    if i < docs.len() {
        saving(docs[i]).0.len() as int
    } else {
        0
    }
}

/// The sizes from a page on, where those before it have been measured.
proof fn lemma_sizes(
    source: DocumentValue,
    docs: Seq<DocumentValue>,
    working: DocumentValue,
    sizes: Seq<u64>,
)
    requires
        is_measured(source, docs),
        sizes.len() <= docs.len(),
        forall|i: int| 0 <= i < sizes.len() ==> #[trigger] sizes[i] == size_from(docs, i),
        working == if sizes.len() == 0 {
            source
        } else {
            saving(docs[sizes.len() - 1]).1
        },
    ensures
        cumulative_sizes(working, sizes, docs.len()) matches Ok(all) && all.len() == docs.len() + 1
            && forall|i: int| 0 <= i <= docs.len() ==> #[trigger] all[i] == size_from(docs, i),
    decreases docs.len() - sizes.len(),
{
    let n = sizes.len() as int;
    if n < docs.len() {
        let rest = docs[n];
        assert(has_numbers_left(rest) && valid_mark(rest));
        if n > 0 {
            assert(docs[n - 1] == docs[n - 1]);
            assert(rest == pruned(pages_deleted(working, seq![1u32])));
        }
        lemma_sizes(
            source,
            docs,
            saving(rest).1,
            sizes.push(saving(rest).0.len() as u64),
        );
    }
}

/// The size that is measured for each page is the length of the written form of the document
/// without the pages before it, whatever that length is, and that after the last page is 0.
pub proof fn law_sizes_are_those_of_the_documents(source: DocumentValue, docs: Seq<DocumentValue>)
    requires
        is_measured(source, docs),
    ensures
        cumulative_sizes(source, seq![], docs.len()) matches Ok(sizes) && {
            &&& sizes.len() == docs.len() + 1
            &&& forall|i: int|
                0 <= i < docs.len() ==> #[trigger] sizes[i] as int == saving(docs[i]).0.len() as int
            &&& sizes[docs.len() as int] == 0
        },
{
    lemma_sizes(source, docs, source, seq![]);
}

/// All pages are kept where all indices are given.
proof fn lemma_none_dropped(list: Seq<(u32, ObjectId)>)
    requires
        list.len() <= usize::MAX,
    ensures
        dropped_numbers(list, indices(0, list.len() as int)).len() == 0,
{
    let all = indices(0, list.len() as int);
    let unwanted = |number: u32| !kept_numbers(list, all).contains(number);
    let listed = list.map_values(|page: (u32, ObjectId)| page.0);
    assert forall|i: int| 0 <= i < listed.len() implies !unwanted(#[trigger] listed[i]) by {
        assert(list[all[i] as int].0 == listed[i]);
    }
    lemma_nothing_kept(listed, unwanted);
}

/// A filter that takes nothing of a sequence leaves nothing of it.
proof fn lemma_nothing_kept(s: Seq<u32>, keep: spec_fn(u32) -> bool)
    requires
        forall|i: int| 0 <= i < s.len() ==> !keep(#[trigger] s[i]),
    ensures
        s.filter(keep).len() == 0,
    decreases s.len(),
{
    reveal(Seq::filter);
    if s.len() > 0 {
        assert forall|i: int| 0 <= i < s.drop_last().len() implies !keep(
            #[trigger] s.drop_last()[i],
        ) by {
            assert(s.drop_last()[i] == s[i]);
        }
        lemma_nothing_kept(s.drop_last(), keep);
        assert(!keep(s[s.len() - 1]));
    }
}

/// A document whose written form fits into the limit, with what is left without its first pages
/// taking no more than all of it, and which fits after pruning too, becomes a single chunk.
pub proof fn law_documents_that_fit_stay_whole(
    source: DocumentValue,
    docs: Seq<DocumentValue>,
    max_size: u64,
)
    requires
        is_measured(source, docs),
        claims_in_range(source),
        pages(source).len() == docs.len() <= usize::MAX,
        saving(source).0.len() <= max_size,
        forall|i: int|
            0 <= i < docs.len() ==> saving(#[trigger] docs[i]).0.len() <= saving(source).0.len(),
        has_numbers_left(pruned(source)) && valid_mark(pruned(source)),
        saving(pruned(source)).0.len() <= max_size,
    ensures
        ({
            let (chunks, failure) = size_chunks(source, max_size);
            &&& failure is None
            &&& chunks.len() == 1
            &&& chunks[0].start == 0
            &&& chunks[0].end == pages(source).len()
            &&& chunks[0].bytes == saving(pruned(source)).0
        }),
{
    let total = docs.len() as int;
    lemma_sizes(source, docs, source, seq![]);
    let sizes = cumulative_sizes(source, seq![], docs.len())->Ok_0;
    assert(sizes[0] == size_from(docs, 0));
    assert forall|j: int| 0 <= j < total implies span(sizes, 0, j) <= max_size by {
        assert(sizes[j + 1] == size_from(docs, j + 1));
        if j + 1 < total {
            assert(saving(docs[j + 1]).0.len() <= saving(source).0.len());
        }
    }
    lemma_estimate_reaches(sizes, max_size, 0, 1);
    lemma_none_dropped(pages(source));
    assert(cut_down(source, indices(0, total)) == Ok::<_, SplitError>(pruned(source)));
    let chunk = ChunkView { start: 0, end: total, bytes: saving(pruned(source)).0 };
    assert(chunk_at(source, sizes, max_size, 0) == Ok::<_, SplitError>(chunk));
    assert(chunks_from(source, sizes, max_size, total).0 =~= seq![]);
    assert(chunks_from(source, sizes, max_size, 0).0 =~= seq![chunk]);
}

/// An estimate reaches the last page where it exceeds the limit with none.
proof fn lemma_estimate_reaches(sizes: Seq<u64>, max_size: u64, start: int, end: int)
    requires
        0 <= start < end < sizes.len(),
        forall|j: int|
            end <= j < sizes.len() - 1 ==> #[trigger] span(sizes, start, j) <= max_size,
    ensures
        estimated_end(sizes, max_size, start, end) == sizes.len() - 1,
    decreases sizes.len() - end,
{
    if end < sizes.len() - 1 {
        assert(span(sizes, start, end) <= max_size);
        lemma_estimate_reaches(sizes, max_size, start, end + 1);
    }
}

/// Whatever the sizes of chunks are, the search ends at the highest end, or right before an end
/// with which the pages do not fit.
pub proof fn law_search_ends_before_what_does_not_fit(
    source: DocumentValue,
    max_size: u64,
    start: int,
    lo: int,
    hi: int,
)
    requires
        lo <= hi,
    ensures
        fitting_end(source, max_size, start, lo, hi) matches Ok(end) ==> {
            &&& lo <= end <= hi
            &&& end > lo ==> (extraction(source, indices(start, end)) matches Ok(bytes)
                && bytes.len() <= max_size)
            &&& end < hi ==> (extraction(source, indices(start, end + 1)) matches Ok(bytes)
                && bytes.len() > max_size)
        },
    decreases hi - lo,
{
    lemma_fitting_end(source, max_size, start, lo, hi);
    if lo < hi {
        let mid = (lo + hi + 1) / 2;
        match extraction(source, indices(start, mid)) {
            Ok(bytes) => if bytes.len() <= max_size {
                law_search_ends_before_what_does_not_fit(source, max_size, start, mid, hi);
            } else {
                law_search_ends_before_what_does_not_fit(source, max_size, start, lo, mid - 1);
            },
            Err(_) => {},
        }
    }
}

/// An estimate ends at the last page, or before a page with which it exceeds the limit.
proof fn lemma_estimate_stops(sizes: Seq<u64>, max_size: u64, start: int, end: int)
    requires
        end < sizes.len(),
    ensures
        ({
            let stop = estimated_end(sizes, max_size, start, end);
            stop == sizes.len() - 1 || span(sizes, start, stop) > max_size
        }),
    decreases sizes.len() - end,
{
    if end < sizes.len() - 1 && span(sizes, start, end) <= max_size {
        lemma_estimate_stops(sizes, max_size, start, end + 1);
    }
}

/// A chunk that does not reach the last page could not take the next one: with it the chunk
/// exceeds the limit, where it takes at least as much as the document loses with these pages.
pub proof fn law_chunks_take_what_fits(
    source: DocumentValue,
    docs: Seq<DocumentValue>,
    max_size: u64,
    i: int,
)
    requires
        is_measured(source, docs),
        claims_in_range(source),
        pages(source).len() == docs.len(),
        0 <= i < size_chunks(source, max_size).0.len(),
        ({
            let chunk = size_chunks(source, max_size).0[i];
            let lost = size_from(docs, chunk.start) - size_from(docs, chunk.end + 1);
            &&& chunk.end < docs.len()
            &&& lost >= 0
            &&& extraction(source, indices(chunk.start, chunk.end + 1)) matches Ok(bytes) ==> lost
                <= bytes.len()
        }),
    ensures
        ({
            let chunk = size_chunks(source, max_size).0[i];
            extraction(source, indices(chunk.start, chunk.end + 1)) matches Ok(bytes)
                ==> bytes.len() > max_size
        }),
{
    lemma_sizes(source, docs, source, seq![]);
    let sizes = cumulative_sizes(source, seq![], docs.len())->Ok_0;
    lemma_chunks_from(source, sizes, max_size, 0);
    let chunks = size_chunks(source, max_size).0;
    assert(chunks == chunks_from(source, sizes, max_size, 0).0);
    let chunk = chunks_from(source, sizes, max_size, 0).0[i];
    let start = chunk.start;
    let stop = estimated_end(sizes, max_size, start, start + 1);
    lemma_estimated_end(sizes, max_size, start, start + 1);
    lemma_estimate_stops(sizes, max_size, start, start + 1);
    law_search_ends_before_what_does_not_fit(source, max_size, start, start + 1, stop);
    assert(chunk_at(source, sizes, max_size, start) == Ok::<_, SplitError>(chunk));
    assert(sizes[start] == size_from(docs, start));
    assert(sizes[chunk.end + 1] == size_from(docs, chunk.end + 1));
}

/// A split by size fails for want of pages exactly if the document has none, and never for want
/// of pages in a chunk.
pub proof fn law_size_splits_need_pages(source: DocumentValue, max_size: u64)
    requires
        claims_in_range(source),
    ensures
        size_chunks(source, max_size).1 == Some(SplitError::NoPages) <==> pages(source).len() == 0,
        size_chunks(source, max_size).1 != Some(SplitError::ZeroPagesPerChunk),
{
    if pages(source).len() > 0 {
        lemma_other_measuring_failures(source, seq![], pages(source).len());
        match cumulative_sizes(source, seq![], pages(source).len()) {
            Ok(sizes) => {
                lemma_cumulative_len(source, seq![], pages(source).len());
                lemma_other_cutting_failures(source, sizes, max_size, 0);
            },
            Err(_) => {},
        }
    }
}

/// Measuring fails neither for want of pages nor for want of pages in a chunk.
proof fn lemma_other_measuring_failures(working: DocumentValue, sizes: Seq<u64>, total: nat)
    ensures
        cumulative_sizes(working, sizes, total) matches Err(e) ==> e != SplitError::NoPages && e
            != SplitError::ZeroPagesPerChunk,
    decreases total - sizes.len(),
{
    if sizes.len() < total {
        match measurement(working, sizes.len() > 0) {
            Ok((rest, size)) => lemma_other_measuring_failures(rest, sizes.push(size), total),
            Err(_) => {},
        }
    }
}

/// The search fails neither for want of pages nor for want of pages in a chunk.
proof fn lemma_other_search_failures(
    source: DocumentValue,
    max_size: u64,
    start: int,
    lo: int,
    hi: int,
)
    ensures
        fitting_end(source, max_size, start, lo, hi) matches Err(e) ==> e != SplitError::NoPages
            && e != SplitError::ZeroPagesPerChunk,
    decreases hi - lo,
{
    if lo < hi {
        let mid = (lo + hi + 1) / 2;
        lemma_other_search_failures(source, max_size, start, mid, hi);
        lemma_other_search_failures(source, max_size, start, lo, mid - 1);
    }
}

/// Cutting chunks off fails neither for want of pages nor for want of pages in a chunk.
proof fn lemma_other_cutting_failures(
    source: DocumentValue,
    sizes: Seq<u64>,
    max_size: u64,
    start: int,
)
    ensures
        chunks_from(source, sizes, max_size, start).1 != Some(SplitError::NoPages),
        chunks_from(source, sizes, max_size, start).1 != Some(SplitError::ZeroPagesPerChunk),
    decreases sizes.len() - start,
{
    if start < sizes.len() - 1 {
        let end = estimated_end(sizes, max_size, start, start + 1);
        lemma_other_search_failures(source, max_size, start, start + 1, end);
        match chunk_at(source, sizes, max_size, start) {
            Ok(chunk) => if start < chunk.end < sizes.len() {
                lemma_other_cutting_failures(source, sizes, max_size, chunk.end);
            },
            Err(_) => {},
        }
    }
}

/// The pages outside of a range, up to some page.
proof fn lemma_outside(list: Seq<(u32, ObjectId)>, start: int, end: int, upto: int)
    requires
        forall|i: int| 0 <= i < list.len() ==> (#[trigger] list[i]).0 == i + 1,
        0 <= start <= end <= list.len() <= usize::MAX,
        0 <= upto <= list.len(),
    ensures
        numbers(list).take(upto).filter(
            |number: u32| !kept_numbers(list, indices(start, end)).contains(number),
        ) == numbers(list).subrange(
            0,
            if upto < start {
                upto
            } else {
                start
            },
        ) + numbers(list).subrange(
            end,
            if upto < end {
                end
            } else {
                upto
            },
        ),
    decreases upto,
{
    reveal(Seq::filter);
    let range = indices(start, end);
    let unwanted = |number: u32| !kept_numbers(list, range).contains(number);
    let all = numbers(list);
    if upto > 0 {
        let at = upto - 1;
        lemma_outside(list, start, end, at);
        assert(all.take(upto).drop_last() =~= all.take(at));
        assert(all.take(upto).last() == at + 1);
        if start <= at < end {
            assert(list[range[at - start] as int].0 == at + 1);
            assert(kept_numbers(list, range).contains((at + 1) as u32));
        } else if kept_numbers(list, range).contains((at + 1) as u32) {
            let k = choose|k: int|
                0 <= k < range.len() && list[#[trigger] range[k] as int].0 == (at + 1) as u32;
            assert(list[range[k] as int].0 == range[k] + 1);
        }
        assert(unwanted(all.take(upto).last()) <==> !(start <= at < end));
        assert(all.take(upto).filter(unwanted) =~= all.subrange(
            0,
            if upto < start {
                upto
            } else {
                start
            },
        ) + all.subrange(
            end,
            if upto < end {
                end
            } else {
                upto
            },
        ));
    } else {
        assert(all.take(0) =~= seq![]);
        assert(all.take(upto).filter(unwanted) =~= seq![]);
    }
}

/// The pages of a range are extracted by taking out the pages before it and those after it, and
/// what only they lead to; where there are none, only what nothing leads to is taken out.
pub proof fn law_ranges_are_extracted_whole(value: DocumentValue, start: int, end: int)
    requires
        claims_in_range(value),
        forall|i: int| 0 <= i < pages(value).len() ==> (#[trigger] pages(value)[i]).0 == i + 1,
        0 <= start <= end <= pages(value).len() <= usize::MAX,
    ensures
        ({
            let total = pages(value).len() as int;
            let others = Seq::new(
                (start + total - end) as nat,
                |k: int|
                    if k < start {
                        (k + 1) as u32
                    } else {
                        (end + k - start + 1) as u32
                    },
            );
            let cut = cut_down(value, indices(start, end));
            &&& start == 0 && end == total ==> cut == Ok::<_, SplitError>(pruned(value))
            &&& (start > 0 || end < total) && deletable(value, others) ==> cut == Ok::<
                _,
                SplitError,
            >(pruned(pages_deleted(value, others)))
            &&& (start > 0 || end < total) && !deletable(value, others) ==> cut == Err::<
                DocumentValue,
                _,
            >(SplitError::BrokenPageTree)
            &&& cut matches Ok(rest) ==> extraction(value, indices(start, end)) == written(rest)
        }),
{
    let list = pages(value);
    let total = list.len() as int;
    let others = Seq::new(
        (start + total - end) as nat,
        |k: int|
            if k < start {
                (k + 1) as u32
            } else {
                (end + k - start + 1) as u32
            },
    );
    lemma_outside(list, start, end, total);
    assert(numbers(list).take(total) =~= numbers(list));
    let dropped = dropped_numbers(list, indices(start, end));
    assert(dropped == numbers(list).subrange(0, start) + numbers(list).subrange(end, total));
    assert forall|k: int| 0 <= k < others.len() implies dropped[k] == #[trigger] others[k] by {
        if k < start {
            assert(dropped[k] == list[k].0);
        } else {
            assert(dropped[k] == list[end + k - start].0);
        }
    }
    assert(dropped =~= others);
    assert(page_list(value) == Ok::<_, SplitError>(list));
}

/// The search goes on from the middle of its range where the pages up to there fit, and right
/// below it where they do not.
pub proof fn law_search_halves_the_range(
    source: DocumentValue,
    max_size: u64,
    start: int,
    lo: int,
    hi: int,
)
    ensures
        ({
            let found = fitting_end(source, max_size, start, lo, hi);
            let mid = (lo + hi + 1) / 2;
            &&& lo >= hi ==> found == Ok::<int, SplitError>(lo)
            &&& lo < hi ==> match extraction(source, indices(start, mid)) {
                Ok(bytes) => found == if bytes.len() <= max_size {
                    fitting_end(source, max_size, start, mid, hi)
                } else {
                    fitting_end(source, max_size, start, lo, mid - 1)
                },
                Err(e) => found == Err::<int, _>(e),
            }
        }),
{
}

/// An estimate that exceeds the limit with no page before `stop`, and with that one does.
proof fn lemma_estimate_is(sizes: Seq<u64>, max_size: u64, start: int, end: int, stop: int)
    requires
        0 <= start < end <= stop < sizes.len(),
        forall|j: int| end <= j < stop ==> #[trigger] span(sizes, start, j) <= max_size,
        stop == sizes.len() - 1 || span(sizes, start, stop) > max_size,
    ensures
        estimated_end(sizes, max_size, start, end) == stop,
    decreases stop - end,
{
    if end < stop {
        assert(span(sizes, start, end) <= max_size);
        lemma_estimate_is(sizes, max_size, start, end + 1, stop);
    }
}

/// A chunk reaches at most as far as what the document loses with its pages does not exceed the
/// limit. It reaches as far where it then fits or is a single page, and else it ends where the
/// search does.
pub proof fn law_chunks_go_by_what_is_lost(
    source: DocumentValue,
    docs: Seq<DocumentValue>,
    max_size: u64,
    i: int,
    stop: int,
)
    requires
        is_measured(source, docs),
        claims_in_range(source),
        pages(source).len() == docs.len(),
        0 <= i < size_chunks(source, max_size).0.len(),
        ({
            let start = size_chunks(source, max_size).0[i].start;
            &&& start < stop <= docs.len()
            &&& forall|j: int|
                start + 1 < j <= stop ==> 0 <= size_from(docs, start) - #[trigger] size_from(
                    docs,
                    j,
                ) <= max_size
            &&& stop < docs.len() ==> size_from(docs, start) - size_from(docs, stop + 1) > max_size
        }),
    ensures
        ({
            let chunk = size_chunks(source, max_size).0[i];
            let whole = extraction(source, indices(chunk.start, stop));
            &&& chunk.end <= stop
            &&& whole matches Ok(bytes) && if bytes.len() <= max_size || stop == chunk.start + 1 {
                chunk.end == stop && chunk.bytes == bytes
            } else {
                fitting_end(source, max_size, chunk.start, chunk.start + 1, stop) == Ok::<
                    int,
                    SplitError,
                >(chunk.end)
            }
        }),
{
    lemma_sizes(source, docs, source, seq![]);
    let sizes = cumulative_sizes(source, seq![], docs.len())->Ok_0;
    lemma_chunks_from(source, sizes, max_size, 0);
    assert(size_chunks(source, max_size).0 == chunks_from(source, sizes, max_size, 0).0);
    let chunk = chunks_from(source, sizes, max_size, 0).0[i];
    let start = chunk.start;
    assert(chunk_at(source, sizes, max_size, start) == Ok::<_, SplitError>(chunk));
    assert(sizes[start] == size_from(docs, start));
    assert forall|j: int| start + 1 <= j < stop implies #[trigger] span(sizes, start, j)
        <= max_size by {
        assert(sizes[j + 1] == size_from(docs, j + 1));
    }
    if stop < docs.len() {
        assert(sizes[stop + 1] == size_from(docs, stop + 1));
    }
    lemma_estimate_is(sizes, max_size, start, start + 1, stop);
    lemma_fitting_end(source, max_size, start, start + 1, stop);
}

/// A page tree that claims too much cannot be listed, and one that leads round or cannot be
/// counted down cannot be taken apart; nor can more pages be taken out than there are.
pub proof fn law_broken_page_trees_are_told(value: DocumentValue, numbers: Seq<u32>, count: int)
    ensures
        !claims_in_range(value) ==> page_list(value) == Err::<Seq<(u32, ObjectId)>, _>(
            SplitError::BrokenPageTree,
        ),
        claims_in_range(value) ==> page_list(value) == Ok::<_, SplitError>(pages(value)),
        deletable(value, numbers) ==> without_pages(value, numbers) == Ok::<_, SplitError>(
            pruned(pages_deleted(value, numbers)),
        ),
        !deletable(value, numbers) ==> without_pages(value, numbers) == Err::<DocumentValue, _>(
            SplitError::BrokenPageTree,
        ),
        claims_in_range(value) && pages(value).len() < count ==> without_first(value, count)
            == Err::<DocumentValue, _>(SplitError::BrokenPageTree),
{
}

/// The document without the pages of some chunks more.
proof fn lemma_left_after(
    source: DocumentValue,
    working: DocumentValue,
    pages_per_chunk: int,
    cut: int,
    more: int,
)
    requires
        cut >= 0,
        more >= 0,
        left_after(source, pages_per_chunk, cut) == Ok::<_, SplitError>(working),
    ensures
        left_after(source, pages_per_chunk, cut + more) == left_after(
            working,
            pages_per_chunk,
            more,
        ),
    decreases more,
{
    if more > 0 {
        lemma_left_after(source, working, pages_per_chunk, cut, more - 1);
    }
}

/// Why cutting chunks off fails.
proof fn lemma_page_failure(
    working: DocumentValue,
    total: int,
    pages_per_chunk: int,
    start: int,
    e: SplitError,
)
    requires
        pages_per_chunk > 0,
        start < total,
        page_chunks_from(working, total, pages_per_chunk, start).1 == Some(e),
    ensures
        ({
            let n = page_chunks_from(working, total, pages_per_chunk, start).0.len() as int;
            let at = start + n * pages_per_chunk;
            let count = if total - at < pages_per_chunk {
                total - at
            } else {
                pages_per_chunk
            };
            match left_after(working, pages_per_chunk, n) {
                Ok(left) => match first_document(left, count) {
                    Ok(rest) => written(rest) == Err::<Seq<u8>, _>(e),
                    Err(why) => why == e,
                },
                Err(why) => why == e,
            }
        }),
    decreases total - start,
{
    let (chunks, failure) = page_chunks_from(working, total, pages_per_chunk, start);
    let n = chunks.len() as int;
    assert(0 * pages_per_chunk == 0);
    assert(1 * pages_per_chunk == pages_per_chunk);
    if n > 0 {
        let end = chunks[0].end;
        assert(end == start + pages_per_chunk && end < total);
        match without_first(working, pages_per_chunk) {
            Ok(next) => {
                let later = page_chunks_from(next, total, pages_per_chunk, end).0;
                assert(chunks == seq![chunks[0]] + later);
                lemma_page_failure(next, total, pages_per_chunk, end, e);
                assert(left_after(working, pages_per_chunk, 0) == Ok::<_, SplitError>(working));
                assert(left_after(working, pages_per_chunk, 1) == Ok::<_, SplitError>(next));
                lemma_left_after(working, next, pages_per_chunk, 1, n - 1);
                assert((n - 1) * pages_per_chunk + pages_per_chunk == n * pages_per_chunk)
                    by (nonlinear_arith);
            },
            Err(_) => {
                assert(chunks =~= seq![chunks[0]]);
                assert(left_after(working, pages_per_chunk, 0) == Ok::<_, SplitError>(working));
            },
        }
    }
}

/// A split by page count that fails tells what is wrong with the document of the chunk that it
/// fails at, and the chunks that it has are those before it.
pub proof fn law_page_splits_tell_the_first_failure(
    source: DocumentValue,
    pages_per_chunk: int,
    e: SplitError,
)
    requires
        claims_in_range(source),
        pages(source).len() > 0,
        pages_per_chunk > 0,
        page_chunks(source, pages_per_chunk).1 == Some(e),
    ensures
        ({
            let n = page_chunks(source, pages_per_chunk).0.len() as int;
            let at = n * pages_per_chunk;
            let count = if pages(source).len() - at < pages_per_chunk {
                pages(source).len() - at
            } else {
                pages_per_chunk
            };
            match left_after(source, pages_per_chunk, n) {
                Ok(left) => match first_document(left, count) {
                    Ok(rest) => written(rest) == Err::<Seq<u8>, _>(e),
                    Err(why) => why == e,
                },
                Err(why) => why == e,
            }
        }),
{
    lemma_page_failure(source, pages(source).len() as int, pages_per_chunk, 0, e);
}

/// Measuring from a page on, where the documents before the one that fails have been measured.
proof fn lemma_measuring_failure(
    source: DocumentValue,
    docs: Seq<DocumentValue>,
    working: DocumentValue,
    sizes: Seq<u64>,
    total: nat,
)
    requires
        is_measured(source, docs),
        docs.len() < total,
        sizes.len() <= docs.len(),
        working == if sizes.len() == 0 {
            source
        } else {
            saving(docs[sizes.len() - 1]).1
        },
    ensures
        ({
            let left = saving(docs.last()).1;
            let rest = pruned(pages_deleted(left, seq![1u32]));
            let all = cumulative_sizes(working, sizes, total);
            &&& !deletable(left, seq![1u32]) ==> all == Err::<Seq<u64>, _>(
                SplitError::BrokenPageTree,
            )
            &&& deletable(left, seq![1u32]) ==> (written(rest) matches Err(e) ==> all == Err::<
                Seq<u64>,
                _,
            >(e))
        }),
    decreases docs.len() - sizes.len(),
{
    let n = sizes.len() as int;
    if n < docs.len() {
        let rest = docs[n];
        assert(has_numbers_left(rest) && valid_mark(rest));
        if n > 0 {
            assert(docs[n - 1] == docs[n - 1]);
            assert(rest == pruned(pages_deleted(working, seq![1u32])));
        }
        lemma_measuring_failure(
            source,
            docs,
            saving(rest).1,
            sizes.push(saving(rest).0.len() as u64),
            total,
        );
    }
}

/// Measuring fails at the first document that cannot be measured: where its first page cannot be
/// taken out of what is left of the one before it, or where it cannot be written.
pub proof fn law_measuring_tells_the_first_failure(
    source: DocumentValue,
    docs: Seq<DocumentValue>,
    total: nat,
)
    requires
        is_measured(source, docs),
        docs.len() < total,
    ensures
        ({
            let left = saving(docs.last()).1;
            let rest = pruned(pages_deleted(left, seq![1u32]));
            let all = cumulative_sizes(source, seq![], total);
            &&& !deletable(left, seq![1u32]) ==> all == Err::<Seq<u64>, _>(
                SplitError::BrokenPageTree,
            )
            &&& deletable(left, seq![1u32]) ==> (written(rest) matches Err(e) ==> all == Err::<
                Seq<u64>,
                _,
            >(e))
        }),
{
    lemma_measuring_failure(source, docs, source, seq![], total);
}

/// The search fails where the pages up to an end that it comes to cannot be extracted.
proof fn lemma_search_failure(
    source: DocumentValue,
    max_size: u64,
    start: int,
    lo: int,
    hi: int,
    e: SplitError,
)
    requires
        fitting_end(source, max_size, start, lo, hi) == Err::<int, _>(e),
    ensures
        exists|end: int|
            lo < end <= hi && #[trigger] extraction(source, indices(start, end)) == Err::<
                Seq<u8>,
                _,
            >(e),
    decreases hi - lo,
{
    if lo < hi {
        let mid = (lo + hi + 1) / 2;
        match extraction(source, indices(start, mid)) {
            Ok(bytes) => if bytes.len() <= max_size {
                lemma_search_failure(source, max_size, start, mid, hi, e);
            } else {
                lemma_search_failure(source, max_size, start, lo, mid - 1, e);
            },
            Err(_) => {},
        }
    }
}

/// The first page that is in none of the chunks from `start` on.
pub open spec fn reached(chunks: Seq<ChunkView>, start: int) -> int {
    if chunks.len() == 0 {
        start
    } else {
        chunks.last().end
    }
}

/// Cutting chunks off fails where pages from the next one on cannot be extracted.
proof fn lemma_cutting_failure(
    source: DocumentValue,
    sizes: Seq<u64>,
    max_size: u64,
    start: int,
    e: SplitError,
)
    requires
        0 <= start < sizes.len(),
        chunks_from(source, sizes, max_size, start).1 == Some(e),
    ensures
        ({
            let next = reached(chunks_from(source, sizes, max_size, start).0, start);
            exists|end: int|
                next < end < sizes.len() && #[trigger] extraction(source, indices(next, end))
                    == Err::<Seq<u8>, _>(e)
        }),
    decreases sizes.len() - start,
{
    let chunks = chunks_from(source, sizes, max_size, start).0;
    lemma_chunk_at(source, sizes, max_size, start);
    let stop = estimated_end(sizes, max_size, start, start + 1);
    lemma_estimated_end(sizes, max_size, start, start + 1);
    match chunk_at(source, sizes, max_size, start) {
        Ok(chunk) => {
            let rest = chunks_from(source, sizes, max_size, chunk.end).0;
            lemma_cutting_failure(source, sizes, max_size, chunk.end, e);
            assert(chunks == seq![chunk] + rest);
            if rest.len() > 0 {
                assert(chunks.last() == rest.last());
            } else {
                assert(chunks.last() == chunk);
            }
            assert(reached(chunks, start) == reached(rest, chunk.end));
        },
        Err(_) => {
            assert(reached(chunks, start) == start);
            lemma_fitting_end(source, max_size, start, start + 1, stop);
            match extraction(source, indices(start, stop)) {
                Ok(bytes) => {
                    match fitting_end(source, max_size, start, start + 1, stop) {
                        Ok(found) => {
                            assert(extraction(source, indices(start, found)) == Err::<Seq<u8>, _>(
                                e,
                            ));
                        },
                        Err(why) => {
                            lemma_search_failure(source, max_size, start, start + 1, stop, why);
                        },
                    }
                },
                Err(_) => {},
            }
        },
    }
}

/// A split by size that fails after the pages have been measured tells why pages from the next one
/// on could not be extracted, and the chunks that it has are those before it.
pub proof fn law_size_splits_tell_the_first_failure(
    source: DocumentValue,
    max_size: u64,
    sizes: Seq<u64>,
    e: SplitError,
)
    requires
        claims_in_range(source),
        pages(source).len() > 0,
        cumulative_sizes(source, seq![], pages(source).len()) == Ok::<_, SplitError>(sizes),
        size_chunks(source, max_size).1 == Some(e),
    ensures
        ({
            let next = reached(size_chunks(source, max_size).0, 0);
            exists|end: int|
                next < end <= pages(source).len() && #[trigger] extraction(
                    source,
                    indices(next, end),
                ) == Err::<Seq<u8>, _>(e)
        }),
{
    lemma_cumulative_len(source, seq![], pages(source).len());
    lemma_cutting_failure(source, sizes, max_size, 0, e);
}

/// A chunk by page count that holds its pages is the written form of a document whose pages are
/// those of the source from where the chunk begins up to where it ends, one by one.
pub proof fn law_page_chunks_hold_the_pages_of_the_source(
    source: DocumentValue,
    pages_per_chunk: int,
    i: int,
    chunk: ChunkView,
)
    requires
        0 <= chunk.start <= chunk.end <= pages(source).len(),
        chunk_holds_pages(source, pages_per_chunk, i, chunk),
    ensures
        exists|rest: DocumentValue|
            (#[trigger] saving(rest)).0 == chunk.bytes && pages(rest).len() == chunk.end
                - chunk.start && forall|k: int|
                0 <= k < pages(rest).len() ==> (#[trigger] pages(rest)[k]).1 == pages(
                    source,
                )[chunk.start + k].1,
{
    let working = left_after(source, pages_per_chunk, i)->Ok_0;
    let rest = first_document(working, chunk.end - chunk.start)->Ok_0;
    lemma_same_ids(source, rest, chunk.start, chunk.end);
    assert(saving(rest).0 == chunk.bytes);
}

/// A document cut down to a range of pages that holds these pages has the pages of the source
/// from `start` up to `end`, one by one, and nothing else is written of it.
pub proof fn law_ranges_hold_the_pages_of_the_source(
    source: DocumentValue,
    start: int,
    end: int,
    bytes: Seq<u8>,
)
    requires
        0 <= start <= end <= pages(source).len(),
        holds_pages(source, start, end),
        extraction(source, indices(start, end)) == Ok::<_, SplitError>(bytes),
    ensures
        exists|rest: DocumentValue|
            (#[trigger] saving(rest)).0 == bytes && pages(rest).len() == end - start && forall|
                k: int,
            |
                0 <= k < pages(rest).len() ==> (#[trigger] pages(rest)[k]).1 == pages(source)[start
                    + k].1,
{
    let rest = cut_down(source, indices(start, end))->Ok_0;
    lemma_same_ids(source, rest, start, end);
    assert(saving(rest).0 == bytes);
}

/// Documents whose ids are the same have the same pages.
proof fn lemma_same_ids(source: DocumentValue, rest: DocumentValue, start: int, end: int)
    requires
        0 <= start <= end <= pages(source).len(),
        page_ids(rest) == page_ids(source).subrange(start, end),
    ensures
        pages(rest).len() == end - start,
        forall|k: int|
            0 <= k < pages(rest).len() ==> (#[trigger] pages(rest)[k]).1 == pages(source)[start
                + k].1,
{
    assert(page_ids(rest).len() == pages(rest).len());
    assert forall|k: int| 0 <= k < pages(rest).len() implies (#[trigger] pages(rest)[k]).1 == pages(
        source,
    )[start + k].1 by {
        assert(page_ids(rest)[k] == pages(rest)[k].1);
        assert(page_ids(source).subrange(start, end)[k] == page_ids(source)[start + k]);
    }
}

} // verus!
