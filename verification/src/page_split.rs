//! Splitting a document into chunks of a fixed number of pages.

use lopdf::Document;
use vstd::prelude::*;

use crate::chunks::{indices, Chunk, ChunkView};
use crate::extract::{is_among, lemma_ids_in_range, lemma_kept_by_number};
use crate::page_tree::{
    list_pages, numbered, page_list, remove_pages, without_pages, write_document, written,
    SplitError,
};
use crate::pdf::{
    document_value, duplicate, page_ids, pages, plain_tree, pruned, remaining_ids, saving,
    DocumentValue, ObjectId,
};
use crate::size_split::{SplitStep, SplitStepView};

verus! {

/// The numbers of the listed pages.
pub open spec fn numbers(list: Seq<(u32, ObjectId)>) -> Seq<u32> {
    list.map_values(|page: (u32, ObjectId)| page.0)
}

/// The numbers of the pages at the indices from `from` up to but without `to`.
fn numbers_between(list: &Vec<(u32, ObjectId)>, from: usize, to: usize) -> (r: Vec<u32>)
    requires
        from <= to <= list@.len(),
    ensures
        r@ == numbers(list@).subrange(from as int, to as int),
{
    let mut r: Vec<u32> = Vec::new();
    let mut i: usize = from;
    while i < to
        invariant
            from <= i <= to <= list@.len(),
            r@ =~= numbers(list@).subrange(from as int, i as int),
        decreases to - i,
    {
        r.push(list[i].0);
        i += 1;
    }
    r
}

/// The document without its first `count` pages.
pub open spec fn without_first(working: DocumentValue, count: int) -> Result<
    DocumentValue,
    SplitError,
> {
    match page_list(working) {
        Ok(list) => if list.len() < count {
            Err(SplitError::BrokenPageTree)
        } else {
            without_pages(working, numbers(list).subrange(0, count))
        },
        Err(e) => Err(e),
    }
}

/// The document cut down to its first `count` pages.
pub open spec fn first_document(working: DocumentValue, count: int) -> Result<
    DocumentValue,
    SplitError,
> {
    match page_list(working) {
        Ok(list) => if count < list.len() {
            without_pages(working, numbers(list).subrange(count, list.len() as int))
        } else {
            Ok(working)
        },
        Err(e) => Err(e),
    }
}

/// The document cut down to its first `count` pages, in its written form.
pub open spec fn first_pages(working: DocumentValue, count: int) -> Result<Seq<u8>, SplitError> {
    match first_document(working, count) {
        Ok(rest) => written(rest),
        Err(e) => Err(e),
    }
}

/// The first `count` ids, or all where there are fewer.
pub open spec fn first_ids(ids: Seq<ObjectId>, count: int) -> Seq<ObjectId> {
    if count < ids.len() {
        ids.take(count)
    } else {
        ids
    }
}

/// What is left without the pages from `from` up to but without `to`, where those
/// are the first ones or the last ones.
proof fn lemma_remaining(value: DocumentValue, from: int, to: int)
    requires
        numbered(pages(value)),
        0 <= from <= to <= pages(value).len() <= usize::MAX,
        from == 0 || to == pages(value).len(),
    ensures
        remaining_ids(value, numbers(pages(value)).subrange(from, to)) == if from == 0 {
            page_ids(value).skip(to)
        } else {
            page_ids(value).take(from)
        },
{
    let list = pages(value);
    let (start, end) = if from == 0 {
        (to, list.len() as int)
    } else {
        (0, from)
    };
    let removed = numbers(list).subrange(from, to);
    let keep = |page: (u32, ObjectId)| !removed.contains(page.0);
    let range = indices(start, end);
    assert forall|i: int| 0 <= i < list.len() implies keep(#[trigger] list[i]) == is_among(
        range,
        i,
    ) by {
        if from <= i < to {
            assert(removed[i - from] == list[i].0);
        } else if removed.contains(list[i].0) {
            let k = choose|k: int| 0 <= k < removed.len() && removed[k] == list[i].0;
            assert(removed[k] == list[from + k].0);
        }
        if start <= i < end {
            assert(range[i - start] == i);
        }
    }
    lemma_kept_by_number(list, range, keep);
    lemma_ids_in_range(page_ids(value), start, end);
    assert(remaining_ids(value, removed) == list.filter(keep).map_values(
        |page: (u32, ObjectId)| page.1,
    ));
}

/// Takes the first `count` pages out of the document. Where that is not possible
/// the document stays as it is.
fn remove_first(working: &mut Document, count: usize) -> (r: Result<(), SplitError>)
    ensures
        match r {
            Ok(()) => without_first(document_value(*old(working)), count as int) == Ok::<
                _,
                SplitError,
            >(document_value(*final(working))) && pruned(document_value(*final(working)))
                == document_value(*final(working)) && (plain_tree(document_value(*old(working))) ==> {
                &&& plain_tree(document_value(*final(working)))
                &&& page_ids(document_value(*final(working))) == page_ids(
                    document_value(*old(working)),
                ).skip(count as int)
            }),
            Err(e) => without_first(document_value(*old(working)), count as int) == Err::<
                DocumentValue,
                _,
            >(e) && *final(working) == *old(working),
        },
{
    let list = match list_pages(working) {
        Ok(list) => list,
        Err(e) => return Err(e),
    };
    if list.len() < count {
        return Err(SplitError::BrokenPageTree);
    }
    let first = numbers_between(&list, 0, count);
    proof {
        if plain_tree(document_value(*working)) {
            lemma_remaining(document_value(*working), 0, count as int);
        }
    }
    remove_pages(working, first.as_slice())
}

/// Writes a copy of the document that is cut down to its first `count` pages. Where that
/// leaves pages out, or pruning finds nothing to take out of the document, it finds nothing to
/// take out of the copy either.
fn write_first(working: &Document, count: usize) -> (r: Result<Vec<u8>, SplitError>)
    ensures
        match r {
            Ok(bytes) => first_pages(document_value(*working), count as int) == Ok::<
                _,
                SplitError,
            >(bytes@) && (first_document(
                document_value(*working),
                count as int,
            ) matches Ok(rest) && saving(rest).0 == bytes@ && (count < pages(
                document_value(*working),
            ).len() || pruned(document_value(*working)) == document_value(*working) ==> pruned(rest)
                == rest)) && (plain_tree(document_value(*working)) ==> (first_document(
                document_value(*working),
                count as int,
            ) matches Ok(rest) && page_ids(rest) == first_ids(
                page_ids(document_value(*working)),
                count as int,
            ))),
            Err(e) => first_pages(document_value(*working), count as int) == Err::<Seq<u8>, _>(e),
        },
{
    let list = match list_pages(working) {
        Ok(list) => list,
        Err(e) => return Err(e),
    };
    let mut copy = duplicate(working);
    if count < list.len() {
        let later = numbers_between(&list, count, list.len());
        proof {
            if plain_tree(document_value(*working)) {
                lemma_remaining(document_value(*working), count as int, list@.len() as int);
            }
        }
        match remove_pages(&mut copy, later.as_slice()) {
            Ok(()) => {},
            Err(e) => return Err(e),
        }
    }
    write_document(&mut copy)
}

/// Where the chunk that begins at `start` ends.
pub open spec fn page_chunk_end(total: int, pages_per_chunk: int, start: int) -> int {
    if total - start < pages_per_chunk {
        total
    } else {
        start + pages_per_chunk
    }
}

/// The chunks of the pages from `start` on, where `working` holds just those
/// pages, up to a failure, and that failure.
pub open spec fn page_chunks_from(
    working: DocumentValue,
    total: int,
    pages_per_chunk: int,
    start: int,
) -> (Seq<ChunkView>, Option<SplitError>)
    decreases total - start,
{
    if start >= total || pages_per_chunk <= 0 {
        (seq![], None)
    } else {
        let end = page_chunk_end(total, pages_per_chunk, start);
        match first_pages(working, end - start) {
            Ok(bytes) => {
                let chunk = ChunkView { start, end, bytes };
                if end < total {
                    match without_first(working, pages_per_chunk) {
                        Ok(rest) => {
                            let (chunks, failure) = page_chunks_from(
                                rest,
                                total,
                                pages_per_chunk,
                                end,
                            );
                            (seq![chunk] + chunks, failure)
                        },
                        Err(e) => (seq![chunk], Some(e)),
                    }
                } else {
                    (seq![chunk], None)
                }
            },
            Err(e) => (seq![], Some(e)),
        }
    }
}

/// The chunks of `pages_per_chunk` pages that a document is split into, up to a
/// failure, and that failure.
pub open spec fn page_chunks(source: DocumentValue, pages_per_chunk: int) -> (
    Seq<ChunkView>,
    Option<SplitError>,
) {
    match page_list(source) {
        Ok(list) => if list.len() == 0 {
            (seq![], Some(SplitError::NoPages))
        } else if pages_per_chunk == 0 {
            (seq![], Some(SplitError::ZeroPagesPerChunk))
        } else {
            page_chunks_from(source, list.len() as int, pages_per_chunk, 0)
        },
        Err(e) => (seq![], Some(e)),
    }
}

/// A split by page count that is under way. Whoever runs it takes it step by step
/// and tells it at each step whether the task has been stopped.
///
/// It works on a single document that becomes smaller with each chunk.
pub struct PageSplit {
    working: Document,
    total: usize,
    pages_per_chunk: usize,
    start: usize,
    halted: bool,
}

/// Where a split by page count stands.
#[verifier::ext_equal]
pub struct PageSplitView {
    /// The document, without the pages of all chunks but the last one cut off.
    pub working: DocumentValue,
    /// How many pages the document had.
    pub total: int,
    pub pages_per_chunk: int,
    /// The first page that is in no chunk yet.
    pub start: int,
    /// Whether the split was stopped or failed.
    pub halted: bool,
}

impl PageSplitView {
    /// What holds of a split at every step.
    pub open spec fn wf(self) -> bool {
        &&& 0 <= self.start <= self.total
        &&& self.pages_per_chunk > 0
    }

    /// The document without the pages of the chunks cut off so far.
    pub open spec fn rest(self) -> Result<DocumentValue, SplitError> {
        if self.start == 0 {
            Ok(self.working)
        } else {
            without_first(self.working, self.pages_per_chunk)
        }
    }

    /// The next step: where it leads and what it comes to.
    pub open spec fn step(self, stopped: bool) -> (PageSplitView, SplitStepView) {
        if self.halted || self.start >= self.total {
            (self, SplitStepView::Finished)
        } else if stopped {
            (PageSplitView { halted: true, ..self }, SplitStepView::Stopped)
        } else {
            match self.rest() {
                Ok(working) => {
                    let end = page_chunk_end(self.total, self.pages_per_chunk, self.start);
                    match first_pages(working, end - self.start) {
                        Ok(bytes) => (
                            PageSplitView { working, start: end, ..self },
                            SplitStepView::Cut(ChunkView { start: self.start, end, bytes }),
                        ),
                        Err(e) => (
                            PageSplitView { working, halted: true, ..self },
                            SplitStepView::Failed(e),
                        ),
                    }
                },
                Err(e) => (PageSplitView { halted: true, ..self }, SplitStepView::Failed(e)),
            }
        }
    }
}

impl View for PageSplit {
    type V = PageSplitView;

    closed spec fn view(&self) -> PageSplitView {
        PageSplitView {
            working: document_value(self.working),
            total: self.total as int,
            pages_per_chunk: self.pages_per_chunk as int,
            start: self.start as int,
            halted: self.halted,
        }
    }
}

impl PageSplit {
    /// A split of the document into chunks of `pages_per_chunk` pages.
    pub fn new(source: Document, pages_per_chunk: usize) -> (r: Result<PageSplit, SplitError>)
        ensures
            match page_list(document_value(source)) {
                Ok(list) => if list.len() == 0 {
                    r == Err::<PageSplit, _>(SplitError::NoPages)
                } else if pages_per_chunk == 0 {
                    r == Err::<PageSplit, _>(SplitError::ZeroPagesPerChunk)
                } else {
                    r matches Ok(split) && split@.wf() && split@ == (PageSplitView {
                        working: document_value(source),
                        total: list.len() as int,
                        pages_per_chunk: pages_per_chunk as int,
                        start: 0,
                        halted: false,
                    })
                },
                Err(e) => r == Err::<PageSplit, _>(e),
            },
    {
        let total: usize = match list_pages(&source) {
            Ok(list) => list.len(),
            Err(e) => return Err(e),
        };
        if total == 0 {
            return Err(SplitError::NoPages);
        }
        if pages_per_chunk == 0 {
            return Err(SplitError::ZeroPagesPerChunk);
        }
        let split = PageSplit { working: source, total, pages_per_chunk, start: 0, halted: false };
        Ok(split)
    }

    /// How many pages the document has.
    pub fn total_pages(&self) -> (total: usize)
        ensures
            total == self@.total,
    {
        self.total
    }

    /// Takes the next step, unless the task has been stopped. Where the page tree
    /// of the working document is plain it stays so, the working document loses
    /// just the pages of the last chunk, and the document of the new chunk has just
    /// the pages that come next. Unless it takes all pages of the document at the first step, a
    /// chunk is written from a document that pruning finds nothing to take out of.
    pub fn advance(&mut self, stopped: bool) -> (step: SplitStep)
        requires
            old(self)@.wf(),
        ensures
            final(self)@.wf(),
            (final(self)@, step@) == old(self)@.step(stopped),
            step matches SplitStep::Cut(chunk) ==> exists|rest: DocumentValue|
                (#[trigger] saving(rest)).0 == chunk.bytes@ && (chunk.start > 0 || chunk.end < pages(
                    old(self)@.working,
                ).len() ==> pruned(rest) == rest),
            step matches SplitStep::Cut(chunk) ==> plain_tree(old(self)@.working) ==> {
                &&& plain_tree(final(self)@.working)
                &&& page_ids(final(self)@.working) == if old(self)@.start == 0 {
                    page_ids(old(self)@.working)
                } else {
                    page_ids(old(self)@.working).skip(old(self)@.pages_per_chunk)
                }
                &&& first_document(final(self)@.working, chunk.end - chunk.start) matches Ok(rest)
                &&& page_ids(rest) == first_ids(
                    page_ids(final(self)@.working),
                    chunk.end - chunk.start,
                )
            },
    {
        if self.halted || self.start >= self.total {
            return SplitStep::Finished;
        }
        if stopped {
            self.halted = true;
            return SplitStep::Stopped;
        }
        if self.start > 0 {
            match remove_first(&mut self.working, self.pages_per_chunk) {
                Ok(()) => {},
                Err(e) => {
                    self.halted = true;
                    return SplitStep::Failed(e);
                },
            }
        }
        let start: usize = self.start;
        let end: usize = if self.total - start < self.pages_per_chunk {
            self.total
        } else {
            start + self.pages_per_chunk
        };
        match write_first(&self.working, end - start) {
            Ok(bytes) => {
                self.start = end;
                SplitStep::Cut(Chunk { start, end, bytes })
            },
            Err(e) => {
                self.halted = true;
                SplitStep::Failed(e)
            },
        }
    }
}

/// What is still to come of a split that is never stopped: the chunks up to a
/// failure, and that failure.
pub open spec fn pages_to_come(split: PageSplitView) -> (Seq<ChunkView>, Option<SplitError>) {
    if split.halted || split.start >= split.total {
        (seq![], None)
    } else {
        match split.rest() {
            Ok(working) => page_chunks_from(
                working,
                split.total,
                split.pages_per_chunk,
                split.start,
            ),
            Err(e) => (seq![], Some(e)),
        }
    }
}

/// Each step of a split that is not stopped hands over the first of what is to come, or
/// fails or finishes where that is what is to come.
pub proof fn law_page_steps_give_the_chunks(split: PageSplitView)
    requires
        split.wf(),
    ensures
        split.step(false).0.wf(),
        match split.step(false).1 {
            SplitStepView::Cut(chunk) => pages_to_come(split) == (
                seq![chunk] + pages_to_come(split.step(false).0).0,
                pages_to_come(split.step(false).0).1,
            ),
            SplitStepView::Failed(e) => pages_to_come(split) == (
                Seq::<ChunkView>::empty(),
                Some(e),
            ),
            SplitStepView::Finished => pages_to_come(split) == (
                Seq::<ChunkView>::empty(),
                None::<SplitError>,
            ),
            _ => false,
        },
{
    match split.step(false).1 {
        SplitStepView::Cut(chunk) => {
            assert(seq![chunk] + Seq::<ChunkView>::empty() =~= seq![chunk]);
        },
        _ => {},
    }
}

/// The document without the pages of the first `count` chunks.
pub open spec fn left_after(source: DocumentValue, pages_per_chunk: int, count: int) -> Result<
    DocumentValue,
    SplitError,
>
    decreases count,
{
    if count <= 0 {
        Ok(source)
    } else {
        match left_after(source, pages_per_chunk, count - 1) {
            Ok(working) => without_first(working, pages_per_chunk),
            Err(e) => Err(e),
        }
    }
}

/// Whether `chunk`, the one at `i`, is the written form of a document that has
/// just the pages of the chunk, in their order.
pub open spec fn chunk_holds_pages(
    source: DocumentValue,
    pages_per_chunk: int,
    i: int,
    chunk: ChunkView,
) -> bool {
    &&& left_after(source, pages_per_chunk, i) matches Ok(working)
    &&& first_document(working, chunk.end - chunk.start) matches Ok(rest)
    &&& written(rest) == Ok::<_, SplitError>(chunk.bytes)
    &&& page_ids(rest) == page_ids(source).subrange(chunk.start, chunk.end)
}

/// What holds of the chunks cut off so far and of the split that goes on.
spec fn so_far(source: DocumentValue, chunks: Seq<ChunkView>, split: PageSplitView) -> bool {
    let n = chunks.len() as int;
    &&& plain_tree(split.working)
    &&& forall|i: int|
        0 <= i < n ==> chunk_holds_pages(source, split.pages_per_chunk, i, #[trigger] chunks[i])
    &&& if n == 0 {
        split.working == source && split.start == 0
    } else {
        &&& left_after(source, split.pages_per_chunk, n - 1) == Ok::<_, SplitError>(split.working)
        &&& 0 <= chunks[n - 1].start < chunks[n - 1].end == split.start
        &&& page_ids(split.working) == page_ids(source).skip(chunks[n - 1].start)
        &&& split.start < split.total ==> chunks[n - 1].end == chunks[n - 1].start
            + split.pages_per_chunk
    }
}

/// What holds so far, after one more chunk.
proof fn lemma_so_far(
    source: DocumentValue,
    chunks: Seq<ChunkView>,
    before: PageSplitView,
    after: PageSplitView,
    chunk: ChunkView,
)
    requires
        before.wf(),
        before.total == pages(source).len(),
        so_far(source, chunks, before),
        (after, SplitStepView::Cut(chunk)) == before.step(false),
        plain_tree(after.working),
        page_ids(after.working) == if before.start == 0 {
            page_ids(before.working)
        } else {
            page_ids(before.working).skip(before.pages_per_chunk)
        },
        first_document(after.working, chunk.end - chunk.start) matches Ok(rest) && page_ids(rest)
            == first_ids(page_ids(after.working), chunk.end - chunk.start),
    ensures
        so_far(source, chunks.push(chunk), after),
{
    let n = chunks.len() as int;
    let all = chunks.push(chunk);
    let ids = page_ids(source);
    assert(left_after(source, before.pages_per_chunk, n) == Ok::<_, SplitError>(after.working));
    assert(page_ids(after.working) =~= ids.skip(chunk.start));
    assert(first_ids(ids.skip(chunk.start), chunk.end - chunk.start) =~= ids.subrange(
        chunk.start,
        chunk.end,
    ));
    assert forall|i: int| 0 <= i < all.len() implies chunk_holds_pages(
        source,
        after.pages_per_chunk,
        i,
        #[trigger] all[i],
    ) by {
        if i < n {
            assert(all[i] == chunks[i]);
        }
    }
}

/// Splits a document into chunks of `pages_per_chunk` pages; the last one takes
/// what is left. A chunk that does not take all pages is written from a document that pruning
/// finds nothing to take out of. Where the page tree is plain, the document of each chunk has
/// just the pages of the chunk.
pub fn split_by_page_count(source: &Document, pages_per_chunk: usize) -> (r: Result<
    Vec<Chunk>,
    SplitError,
>)
    ensures
        match r {
            Ok(chunks) => page_chunks(document_value(*source), pages_per_chunk as int) == (
                chunks@.map_values(|c: Chunk| c@),
                None::<SplitError>,
            ),
            Err(e) => page_chunks(document_value(*source), pages_per_chunk as int).1 == Some(e),
        },
        r matches Ok(chunks) ==> forall|i: int|
            0 <= i < chunks@.len() && ((#[trigger] chunks@[i]).start > 0 || chunks@[i].end < pages(
                document_value(*source),
            ).len()) ==> exists|rest: DocumentValue|
                (#[trigger] saving(rest)).0 == chunks@[i].bytes@ && pruned(rest) == rest,
        r matches Ok(chunks) ==> plain_tree(document_value(*source)) ==> forall|i: int|
            0 <= i < chunks@.len() ==> chunk_holds_pages(
                document_value(*source),
                pages_per_chunk as int,
                i,
                #[trigger] chunks@[i]@,
            ),
{
    let mut split = match PageSplit::new(duplicate(source), pages_per_chunk) {
        Ok(split) => split,
        Err(e) => return Err(e),
    };
    let ghost outcome = page_chunks(document_value(*source), pages_per_chunk as int);
    let ghost view = |c: Chunk| c@;
    let ghost value = document_value(*source);
    let mut chunks: Vec<Chunk> = Vec::new();
    assert(chunks@.map_values(view) =~= seq![]);
    assert(seq![] + outcome.0 =~= outcome.0);
    loop
        invariant
            split@.wf(),
            view == (|c: Chunk| c@),
            value == document_value(*source),
            outcome == page_chunks(value, pages_per_chunk as int),
            split@.total == pages(value).len(),
            split@.pages_per_chunk == pages_per_chunk,
            split@.start == 0 ==> split@.working == value,
            forall|i: int|
                0 <= i < chunks@.len() && ((#[trigger] chunks@[i]).start > 0 || chunks@[i].end
                    < pages(value).len()) ==> exists|rest: DocumentValue|
                    (#[trigger] saving(rest)).0 == chunks@[i].bytes@ && pruned(rest) == rest,
            plain_tree(value) ==> so_far(value, chunks@.map_values(view), split@),
            outcome.0 =~= chunks@.map_values(view) + pages_to_come(split@).0,
            outcome.1 == pages_to_come(split@).1,
        decreases split@.total - split@.start,
    {
        let ghost before = chunks@.map_values(view);
        let ghost state = split@;
        proof {
            law_page_steps_give_the_chunks(split@);
        }
        match split.advance(false) {
            SplitStep::Cut(chunk) => {
                proof {
                    if plain_tree(value) {
                        lemma_so_far(value, before, state, split@, chunk@);
                    }
                }
                chunks.push(chunk);
                assert(chunks@.map_values(view) =~= before.push(chunk@));
            },
            SplitStep::Failed(e) => return Err(e),
            _ => {
                assert(before + Seq::<ChunkView>::empty() =~= before);
                assert forall|i: int|
                    plain_tree(value) && 0 <= i < chunks@.len() implies chunk_holds_pages(
                    value,
                    pages_per_chunk as int,
                    i,
                    #[trigger] chunks@[i]@,
                ) by {
                    assert(before[i] == chunks@[i]@);
                }
                return Ok(chunks);
            },
        }
    }
}

} // verus!
