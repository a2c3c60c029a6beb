//! Splitting a document into chunks of a limited size.

use lopdf::Document;
use vstd::prelude::*;

use crate::chunks::{index_range, indices, span, Chunk, ChunkView};
use crate::extract::{extract_pages_to_bytes, extraction, holds_pages, lemma_ids_in_range};
use crate::page_tree::{
    after_writing, list_pages, page_list, remove_pages, without_pages, write_document, written,
    SplitError,
};
use crate::pdf::{
    claims_in_range, document_value, duplicate, page_ids, pages, plain_tree, pruned, saving,
    DocumentValue,
};

verus! {

/// The size of the working document, after its first page has been taken out
/// where `shrink` is set, and what is left of it.
pub open spec fn measurement(working: DocumentValue, shrink: bool) -> Result<
    (DocumentValue, u64),
    SplitError,
> {
    let cut = if shrink {
        without_pages(working, seq![1u32])
    } else {
        Ok(working)
    };
    match cut {
        Ok(rest) => match written(rest) {
            Ok(bytes) => Ok((after_writing(rest), bytes.len() as u64)),
            Err(e) => Err(e),
        },
        Err(e) => Err(e),
    }
}

/// What a measurement leaves of the working document, whether it succeeds or not.
pub open spec fn left_by_measuring(working: DocumentValue, shrink: bool) -> DocumentValue {
    if shrink {
        match without_pages(working, seq![1u32]) {
            Ok(rest) => after_writing(rest),
            Err(_) => working,
        }
    } else {
        after_writing(working)
    }
}

/// Measures the working document, after taking out its first page where
/// `shrink` is set.
fn measure(working: &mut Document, shrink: bool) -> (r: Result<u64, SplitError>)
    ensures
        document_value(*final(working)) == left_by_measuring(document_value(*old(working)), shrink),
        match r {
            Ok(size) => measurement(document_value(*old(working)), shrink) == Ok::<_, SplitError>(
                (document_value(*final(working)), size),
            ),
            Err(e) => measurement(document_value(*old(working)), shrink) == Err::<
                (DocumentValue, u64),
                _,
            >(e),
        },
        r matches Ok(size) ==> exists|rest: DocumentValue|
            (#[trigger] saving(rest)).0.len() == size && saving(rest).1 == document_value(
                *final(working),
            ),
{
    if shrink {
        let first: [u32; 1] = [1u32];
        assert(first@ =~= seq![1u32]);
        match remove_pages(working, &first) {
            Ok(()) => {},
            Err(e) => return Err(e),
        }
    }
    match write_document(working) {
        Ok(bytes) => Ok(bytes.len() as u64),
        Err(e) => Err(e),
    }
}

/// The sizes measured so far, completed: the size of all pages from each page on,
/// with 0 at the end.
pub open spec fn cumulative_sizes(working: DocumentValue, sizes: Seq<u64>, total: nat) -> Result<
    Seq<u64>,
    SplitError,
>
    decreases total - sizes.len(),
{
    if sizes.len() >= total {
        Ok(sizes.push(0))
    } else {
        match measurement(working, sizes.len() > 0) {
            Ok((rest, size)) => cumulative_sizes(rest, sizes.push(size), total),
            Err(e) => Err(e),
        }
    }
}

/// There is one cumulative size for each page, and one more.
pub(crate) proof fn lemma_cumulative_len(working: DocumentValue, sizes: Seq<u64>, total: nat)
    requires
        sizes.len() <= total,
    ensures
        cumulative_sizes(working, sizes, total) matches Ok(all) ==> all.len() == total + 1,
    decreases total - sizes.len(),
{
    if sizes.len() < total {
        match measurement(working, sizes.len() > 0) {
            Ok((rest, size)) => lemma_cumulative_len(rest, sizes.push(size), total),
            Err(_) => {},
        }
    }
}

/// How far a chunk from `start` on reaches by the cumulative sizes, from `end`
/// on: up to the page with which it would exceed `max_size`.
pub open spec fn estimated_end(cumulative: Seq<u64>, max_size: u64, start: int, end: int) -> int
    decreases cumulative.len() - end,
{
    if end < cumulative.len() - 1 && span(cumulative, start, end) <= max_size {
        estimated_end(cumulative, max_size, start, end + 1)
    } else {
        end
    }
}

/// How far a chunk from `start` on reaches by the cumulative sizes.
fn estimate_end(cumulative: &Vec<u64>, max_size: u64, start: usize) -> (end: usize)
    requires
        start + 1 < cumulative@.len(),
    ensures
        end == estimated_end(cumulative@, max_size, start as int, start + 1),
        start < end < cumulative@.len(),
{
    let total: usize = cumulative.len() - 1;
    let mut end: usize = start + 1;
    while end < total && cumulative[start].wrapping_sub(cumulative[end + 1]) <= max_size
        invariant
            start < end <= total,
            total == cumulative@.len() - 1,
            estimated_end(cumulative@, max_size, start as int, start + 1) == estimated_end(
                cumulative@,
                max_size,
                start as int,
                end as int,
            ),
        decreases total - end,
    {
        end += 1;
    }
    end
}

/// The end at which the pages from `start` on still fit into `max_size`, found
/// by halving the range from `lo` to `hi`.
pub open spec fn fitting_end(
    source: DocumentValue,
    max_size: u64,
    start: int,
    lo: int,
    hi: int,
) -> Result<int, SplitError>
    decreases hi - lo,
{
    if lo < hi {
        let mid = (lo + hi + 1) / 2;
        match extraction(source, indices(start, mid)) {
            Ok(bytes) => if bytes.len() <= max_size {
                fitting_end(source, max_size, start, mid, hi)
            } else {
                fitting_end(source, max_size, start, lo, mid - 1)
            },
            Err(e) => Err(e),
        }
    } else {
        Ok(lo)
    }
}

/// The chunk of the pages from `start` up to but without `end`.
pub open spec fn chunk_of(source: DocumentValue, start: int, end: int) -> Result<
    ChunkView,
    SplitError,
> {
    match extraction(source, indices(start, end)) {
        Ok(bytes) => Ok(ChunkView { start, end, bytes }),
        Err(e) => Err(e),
    }
}

/// The chunk that begins at `start`: the estimated one where it does not exceed
/// `max_size` or cannot be divided, and else one that the search ends at.
pub open spec fn chunk_at(
    source: DocumentValue,
    cumulative: Seq<u64>,
    max_size: u64,
    start: int,
) -> Result<ChunkView, SplitError> {
    let end = estimated_end(cumulative, max_size, start, start + 1);
    match chunk_of(source, start, end) {
        Ok(chunk) => if chunk.bytes.len() > max_size && end > start + 1 {
            match fitting_end(source, max_size, start, start + 1, end) {
                Ok(fitting) => chunk_of(source, start, fitting),
                Err(e) => Err(e),
            }
        } else {
            Ok(chunk)
        },
        Err(e) => Err(e),
    }
}

/// Extracts the pages from `start` up to but without `end`.
fn extract_chunk(source: &Document, start: usize, end: usize) -> (r: Result<Chunk, SplitError>)
    requires
        start <= end <= pages(document_value(*source)).len(),
    ensures
        match r {
            Ok(chunk) => chunk_of(document_value(*source), start as int, end as int) == Ok::<
                _,
                SplitError,
            >(chunk@) && (exists|rest: DocumentValue|
                (#[trigger] saving(rest)).0 == chunk.bytes@ && pruned(rest) == rest) && (plain_tree(
                document_value(*source),
            ) ==> holds_pages(
                document_value(*source),
                chunk.start as int,
                chunk.end as int,
            )),
            Err(e) => chunk_of(document_value(*source), start as int, end as int) == Err::<
                ChunkView,
                _,
            >(e),
        },
{
    let range = index_range(start, end);
    proof {
        lemma_ids_in_range(page_ids(document_value(*source)), start as int, end as int);
    }
    match extract_pages_to_bytes(source, range.as_slice()) {
        Ok(bytes) => Ok(Chunk { start, end, bytes }),
        Err(e) => Err(e),
    }
}

/// One step of the search for the end of a chunk: the range that is left.
fn probe(source: &Document, max_size: u64, start: usize, lo: usize, hi: usize) -> (r: Result<
    (usize, usize),
    SplitError,
>)
    requires
        start < lo < hi <= pages(document_value(*source)).len(),
    ensures
        match r {
            Ok((l, h)) => start < l <= h <= hi && h - l < hi - lo && fitting_end(
                document_value(*source),
                max_size,
                start as int,
                lo as int,
                hi as int,
            ) == fitting_end(document_value(*source), max_size, start as int, l as int, h as int),
            Err(e) => fitting_end(
                document_value(*source),
                max_size,
                start as int,
                lo as int,
                hi as int,
            ) == Err::<int, _>(e),
        },
        match extraction(document_value(*source), indices(start as int, (lo + hi + 1) / 2)) {
            Ok(bytes) => if bytes.len() <= max_size {
                r == Ok::<(usize, usize), SplitError>((((lo + hi + 1) / 2) as usize, hi))
            } else {
                r == Ok::<(usize, usize), SplitError>((lo, ((lo + hi + 1) / 2 - 1) as usize))
            },
            Err(e) => r == Err::<(usize, usize), _>(e),
        },
{
    let mid: usize = lo + (hi - lo + 1) / 2;
    assert(mid == (lo + hi + 1) / 2);
    match extract_chunk(source, start, mid) {
        Ok(chunk) => if chunk.bytes.len() as u64 <= max_size {
            Ok((mid, hi))
        } else {
            Ok((lo, mid - 1))
        },
        Err(e) => Err(e),
    }
}

/// What a step of a split came to.
pub enum SplitStep {
    /// The split was stopped; it takes no further steps.
    Stopped,
    /// So many pages have been measured.
    Measured(usize),
    /// The search for the end of a chunk has come one step closer.
    Narrowed,
    /// A chunk has been cut off.
    Cut(Chunk),
    /// There is nothing left to do.
    Finished,
    /// The split failed; it takes no further steps.
    Failed(SplitError),
}

/// What a step of a split came to.
#[verifier::ext_equal]
pub enum SplitStepView {
    Stopped,
    Measured(int),
    Narrowed,
    Cut(ChunkView),
    Finished,
    Failed(SplitError),
}

impl View for SplitStep {
    type V = SplitStepView;

    open spec fn view(&self) -> SplitStepView {
        match self {
            SplitStep::Stopped => SplitStepView::Stopped,
            SplitStep::Measured(count) => SplitStepView::Measured(*count as int),
            SplitStep::Narrowed => SplitStepView::Narrowed,
            SplitStep::Cut(chunk) => SplitStepView::Cut(chunk@),
            SplitStep::Finished => SplitStepView::Finished,
            SplitStep::Failed(e) => SplitStepView::Failed(*e),
        }
    }
}

/// A split by size that is under way. Whoever runs it takes it step by step and
/// tells it at each step whether the task has been stopped.
///
/// It first measures the document as it shrinks page by page from the front, and
/// then cuts off chunk after chunk.
pub struct SizeSplit {
    source: Document,
    working: Document,
    max_size: u64,
    total: usize,
    sizes: Vec<u64>,
    start: usize,
    search: Option<(usize, usize)>,
    halted: bool,
}

/// Where a split by size stands.
#[verifier::ext_equal]
pub struct SizeSplitView {
    /// The document.
    pub source: DocumentValue,
    /// What measuring has left of the document.
    pub working: DocumentValue,
    pub max_size: u64,
    /// How many pages the document has.
    pub total: nat,
    /// The sizes measured so far, with 0 at the end once all have been.
    pub sizes: Seq<u64>,
    /// The first page that is in no chunk yet.
    pub start: int,
    /// The range that the search for the end of the chunk is down to.
    pub search: Option<(int, int)>,
    /// Whether the split was stopped or failed.
    pub halted: bool,
}

impl SizeSplitView {
    /// What holds of a split at every step.
    pub open spec fn wf(self) -> bool {
        &&& claims_in_range(self.source)
        &&& self.total == pages(self.source).len()
        &&& self.total > 0
        &&& self.start <= self.total
        &&& self.start >= 0
        &&& self.sizes.len() < self.total || self.sizes.len() == self.total + 1
        &&& self.sizes.len() < self.total ==> self.start == 0 && self.search is None
        &&& self.search matches Some((lo, hi)) ==> self.start < lo < hi <= self.total
    }

    /// The split, ended before its time.
    pub open spec fn halt(self) -> SizeSplitView {
        SizeSplitView { halted: true, ..self }
    }

    /// The next step while pages are measured.
    pub open spec fn measuring_step(self) -> (SizeSplitView, SplitStepView) {
        match measurement(self.working, self.sizes.len() > 0) {
            Ok((working, size)) => {
                let sizes = if self.sizes.len() + 1 == self.total {
                    self.sizes.push(size).push(0)
                } else {
                    self.sizes.push(size)
                };
                (
                    SizeSplitView { working, sizes, ..self },
                    SplitStepView::Measured(self.sizes.len() as int + 1),
                )
            },
            Err(e) => (
                SizeSplitView {
                    working: left_by_measuring(self.working, self.sizes.len() > 0),
                    ..self.halt()
                },
                SplitStepView::Failed(e),
            ),
        }
    }

    /// The step that cuts off the pages up to `end`.
    pub open spec fn cutting_step(self, end: int) -> (SizeSplitView, SplitStepView) {
        match chunk_of(self.source, self.start, end) {
            Ok(chunk) => (
                SizeSplitView { start: end, search: None, ..self },
                SplitStepView::Cut(chunk),
            ),
            Err(e) => (self.halt(), SplitStepView::Failed(e)),
        }
    }

    /// The next step at the beginning of a chunk.
    pub open spec fn chunk_step(self) -> (SizeSplitView, SplitStepView) {
        let end = estimated_end(self.sizes, self.max_size, self.start, self.start + 1);
        match chunk_of(self.source, self.start, end) {
            Ok(chunk) => if chunk.bytes.len() > self.max_size && end > self.start + 1 {
                (
                    SizeSplitView { search: Some((self.start + 1, end)), ..self },
                    SplitStepView::Narrowed,
                )
            } else {
                self.cutting_step(end)
            },
            Err(e) => (self.halt(), SplitStepView::Failed(e)),
        }
    }

    /// The next step of the search for the end of a chunk.
    pub open spec fn search_step(self, lo: int, hi: int) -> (SizeSplitView, SplitStepView) {
        let mid = (lo + hi + 1) / 2;
        match extraction(self.source, indices(self.start, mid)) {
            Ok(bytes) => {
                let (l, h) = if bytes.len() <= self.max_size {
                    (mid, hi)
                } else {
                    (lo, mid - 1)
                };
                if l < h {
                    (SizeSplitView { search: Some((l, h)), ..self }, SplitStepView::Narrowed)
                } else {
                    self.cutting_step(l)
                }
            },
            Err(e) => (self.halt(), SplitStepView::Failed(e)),
        }
    }

    /// The next step: where it leads and what it comes to.
    pub open spec fn step(self, stopped: bool) -> (SizeSplitView, SplitStepView) {
        if self.halted || self.sizes.len() > self.total && self.start >= self.total {
            (self, SplitStepView::Finished)
        } else if stopped {
            (self.halt(), SplitStepView::Stopped)
        } else if self.sizes.len() < self.total {
            self.measuring_step()
        } else {
            match self.search {
                Some((lo, hi)) => self.search_step(lo, hi),
                None => self.chunk_step(),
            }
        }
    }
}

impl View for SizeSplit {
    type V = SizeSplitView;

    closed spec fn view(&self) -> SizeSplitView {
        SizeSplitView {
            source: document_value(self.source),
            working: document_value(self.working),
            max_size: self.max_size,
            total: self.total as nat,
            sizes: self.sizes@,
            start: self.start as int,
            search: match self.search {
                Some((lo, hi)) => Some((lo as int, hi as int)),
                None => None,
            },
            halted: self.halted,
        }
    }
}

impl SizeSplit {
    /// A split of the document into chunks of at most `max_size` bytes.
    pub fn new(source: Document, max_size: u64) -> (r: Result<SizeSplit, SplitError>)
        ensures
            match page_list(document_value(source)) {
                Ok(list) => if list.len() == 0 {
                    r == Err::<SizeSplit, _>(SplitError::NoPages)
                } else {
                    r matches Ok(split) && split@.wf() && split@ == (SizeSplitView {
                        source: document_value(source),
                        working: document_value(source),
                        max_size,
                        total: list.len(),
                        sizes: seq![],
                        start: 0,
                        search: None,
                        halted: false,
                    })
                },
                Err(e) => r == Err::<SizeSplit, _>(e),
            },
    {
        let total: usize = match list_pages(&source) {
            Ok(list) => list.len(),
            Err(e) => return Err(e),
        };
        if total == 0 {
            return Err(SplitError::NoPages);
        }
        let working = duplicate(&source);
        let split = SizeSplit {
            source,
            working,
            max_size,
            total,
            sizes: Vec::new(),
            start: 0,
            search: None,
            halted: false,
        };
        Ok(split)
    }

    /// How many pages the document has.
    pub fn total_pages(&self) -> (total: usize)
        ensures
            total == self@.total,
    {
        self.total
    }

    /// The first page that is in no chunk yet.
    pub fn position(&self) -> (start: usize)
        ensures
            start == self@.start,
    {
        self.start
    }

    /// Cuts off the pages up to `end`.
    fn cut(&mut self, end: usize) -> (step: SplitStep)
        requires
            old(self)@.wf(),
            old(self)@.sizes.len() > old(self)@.total,
            old(self)@.start < end <= old(self)@.total,
        ensures
            final(self)@.wf(),
            (final(self)@, step@) == old(self)@.cutting_step(end as int),
            step matches SplitStep::Cut(chunk) ==> exists|rest: DocumentValue|
                (#[trigger] saving(rest)).0 == chunk.bytes@ && pruned(rest) == rest,
            step matches SplitStep::Cut(chunk) ==> plain_tree(old(self)@.source) ==> holds_pages(
                old(self)@.source,
                chunk.start as int,
                chunk.end as int,
            ),
    {
        match extract_chunk(&self.source, self.start, end) {
            Ok(chunk) => {
                self.start = end;
                self.search = None;
                SplitStep::Cut(chunk)
            },
            Err(e) => {
                self.halted = true;
                SplitStep::Failed(e)
            },
        }
    }

    /// Takes the next step, unless the task has been stopped. A chunk is written from a document
    /// that pruning finds nothing to take out of. Where the page tree is plain, that document has
    /// just the pages of the chunk.
    pub fn advance(&mut self, stopped: bool) -> (step: SplitStep)
        requires
            old(self)@.wf(),
        ensures
            final(self)@.wf(),
            (final(self)@, step@) == old(self)@.step(stopped),
            step matches SplitStep::Cut(chunk) ==> exists|rest: DocumentValue|
                (#[trigger] saving(rest)).0 == chunk.bytes@ && pruned(rest) == rest,
            step matches SplitStep::Cut(chunk) ==> plain_tree(old(self)@.source) ==> holds_pages(
                old(self)@.source,
                chunk.start as int,
                chunk.end as int,
            ),
    {
        if self.halted || self.sizes.len() > self.total && self.start >= self.total {
            return SplitStep::Finished;
        }
        if stopped {
            self.halted = true;
            return SplitStep::Stopped;
        }
        if self.sizes.len() < self.total {
            match measure(&mut self.working, self.sizes.len() > 0) {
                Ok(size) => {
                    self.sizes.push(size);
                    let measured: usize = self.sizes.len();
                    if measured == self.total {
                        self.sizes.push(0);
                    }
                    SplitStep::Measured(measured)
                },
                Err(e) => {
                    self.halted = true;
                    SplitStep::Failed(e)
                },
            }
        } else {
            match self.search {
                Some((lo, hi)) => match probe(&self.source, self.max_size, self.start, lo, hi) {
                    Ok((l, h)) => if l < h {
                        self.search = Some((l, h));
                        SplitStep::Narrowed
                    } else {
                        self.cut(l)
                    },
                    Err(e) => {
                        self.halted = true;
                        SplitStep::Failed(e)
                    },
                },
                None => {
                    let end: usize = estimate_end(&self.sizes, self.max_size, self.start);
                    match extract_chunk(&self.source, self.start, end) {
                        Ok(chunk) => if chunk.bytes.len() as u64 > self.max_size && end > self.start
                            + 1 {
                            self.search = Some((self.start + 1, end));
                            SplitStep::Narrowed
                        } else {
                            self.start = end;
                            SplitStep::Cut(chunk)
                        },
                        Err(e) => {
                            self.halted = true;
                            SplitStep::Failed(e)
                        },
                    }
                },
            }
        }
    }
}

/// The chunks of the pages from `start` on, up to a failure, and that failure.
pub open spec fn chunks_from(
    source: DocumentValue,
    cumulative: Seq<u64>,
    max_size: u64,
    start: int,
) -> (Seq<ChunkView>, Option<SplitError>)
    decreases cumulative.len() - start,
{
    if start >= cumulative.len() - 1 {
        (seq![], None)
    } else {
        match chunk_at(source, cumulative, max_size, start) {
            Ok(chunk) => if start < chunk.end < cumulative.len() {
                let (rest, failure) = chunks_from(source, cumulative, max_size, chunk.end);
                (seq![chunk] + rest, failure)
            } else {
                (seq![chunk], None)
            },
            Err(e) => (seq![], Some(e)),
        }
    }
}

/// The chunks of at most `max_size` bytes that a document is split into, up to a
/// failure, and that failure.
pub open spec fn size_chunks(source: DocumentValue, max_size: u64) -> (
    Seq<ChunkView>,
    Option<SplitError>,
) {
    match page_list(source) {
        Ok(list) => if list.len() == 0 {
            (seq![], Some(SplitError::NoPages))
        } else {
            match cumulative_sizes(source, seq![], list.len()) {
                Ok(cumulative) => chunks_from(source, cumulative, max_size, 0),
                Err(e) => (seq![], Some(e)),
            }
        },
        Err(e) => (seq![], Some(e)),
    }
}

/// A chunk reaches at least one page far, by its estimate, and never past the
/// last page.
pub(crate) proof fn lemma_estimated_end(cumulative: Seq<u64>, max_size: u64, start: int, end: int)
    requires
        end < cumulative.len(),
    ensures
        end <= estimated_end(cumulative, max_size, start, end) < cumulative.len(),
    decreases cumulative.len() - end,
{
    if end < cumulative.len() - 1 && span(cumulative, start, end) <= max_size {
        lemma_estimated_end(cumulative, max_size, start, end + 1);
    }
}

/// The search ends within its range, at the lowest end or at one that fits.
pub(crate) proof fn lemma_fitting_end(source: DocumentValue, max_size: u64, start: int, lo: int, hi: int)
    requires
        lo <= hi,
    ensures
        fitting_end(source, max_size, start, lo, hi) matches Ok(end) ==> {
            &&& lo <= end <= hi
            &&& end == lo || (extraction(source, indices(start, end)) matches Ok(bytes)
                && bytes.len() <= max_size)
        },
    decreases hi - lo,
{
    if lo < hi {
        let mid = (lo + hi + 1) / 2;
        match extraction(source, indices(start, mid)) {
            Ok(bytes) => if bytes.len() <= max_size {
                lemma_fitting_end(source, max_size, start, mid, hi);
            } else {
                lemma_fitting_end(source, max_size, start, lo, mid - 1);
            },
            Err(_) => {},
        }
    }
}

/// A chunk begins where it is to begin, is not empty, ends at the last page at
/// the latest, and exceeds `max_size` only where it is a single page.
pub(crate) proof fn lemma_chunk_at(source: DocumentValue, cumulative: Seq<u64>, max_size: u64, start: int)
    requires
        0 <= start < cumulative.len() - 1,
    ensures
        chunk_at(source, cumulative, max_size, start) matches Ok(chunk) ==> {
            &&& chunk.start == start
            &&& start < chunk.end < cumulative.len()
            &&& chunk.end > start + 1 ==> chunk.bytes.len() <= max_size
            &&& extraction(source, indices(start, chunk.end)) == Ok::<_, SplitError>(chunk.bytes)
        },
{
    lemma_estimated_end(cumulative, max_size, start, start + 1);
    let end = estimated_end(cumulative, max_size, start, start + 1);
    lemma_fitting_end(source, max_size, start, start + 1, end);
}

/// Finds the end at which the pages from `start` on still fit into `max_size`, by
/// halving the range up to `hi`.
pub fn find_fitting_end(source: &Document, start: usize, hi: usize, max_size: u64) -> (r: Result<
    usize,
    SplitError,
>)
    requires
        start < hi <= pages(document_value(*source)).len(),
    ensures
        match r {
            Ok(end) => start < end <= hi && fitting_end(
                document_value(*source),
                max_size,
                start as int,
                start + 1,
                hi as int,
            ) == Ok::<int, SplitError>(end as int),
            Err(e) => fitting_end(
                document_value(*source),
                max_size,
                start as int,
                start + 1,
                hi as int,
            ) == Err::<int, _>(e),
        },
{
    let mut lo: usize = start + 1;
    let mut high: usize = hi;
    while lo < high
        invariant
            start < lo <= high <= hi <= pages(document_value(*source)).len(),
            fitting_end(
                document_value(*source),
                max_size,
                start as int,
                start + 1,
                hi as int,
            ) == fitting_end(
                document_value(*source),
                max_size,
                start as int,
                lo as int,
                high as int,
            ),
        decreases high - lo,
    {
        match probe(source, max_size, start, lo, high) {
            Ok((l, h)) => {
                lo = l;
                high = h;
            },
            Err(e) => return Err(e),
        }
    }
    Ok(lo)
}

/// Whether `stopped` may say so.
pub open spec fn may_stop<F: Fn() -> bool>(stopped: F) -> bool {
    call_ensures(stopped, (), true)
}

/// Finds the end at which the pages from `start` on still fit into `max_size`, as
/// `find_fitting_end` does, unless `stopped` says at a step of the search that the task
/// has been stopped.
pub fn find_fitting_end_with_control<F: Fn() -> bool>(
    source: &Document,
    start: usize,
    hi: usize,
    max_size: u64,
    stopped: F,
) -> (r: Result<Option<usize>, SplitError>)
    requires
        start < hi <= pages(document_value(*source)).len(),
        call_requires(stopped, ()),
    ensures
        match r {
            Ok(Some(end)) => start < end <= hi && fitting_end(
                document_value(*source),
                max_size,
                start as int,
                start + 1,
                hi as int,
            ) == Ok::<int, SplitError>(end as int),
            Ok(None) => may_stop(stopped) && hi > start + 1,
            Err(e) => fitting_end(
                document_value(*source),
                max_size,
                start as int,
                start + 1,
                hi as int,
            ) == Err::<int, _>(e),
        },
        hi > start + 1 && !call_ensures(stopped, (), false) ==> r == Ok::<
            Option<usize>,
            SplitError,
        >(None),
        hi == start + 1 ==> r == Ok::<Option<usize>, SplitError>(Some((start + 1) as usize)),
{
    let mut lo: usize = start + 1;
    let mut high: usize = hi;
    while lo < high
        invariant
            start < lo <= high <= hi <= pages(document_value(*source)).len(),
            call_requires(stopped, ()),
            hi > start + 1 && !call_ensures(stopped, (), false) ==> lo < high,
            hi == start + 1 ==> lo == high == hi,
            fitting_end(
                document_value(*source),
                max_size,
                start as int,
                start + 1,
                hi as int,
            ) == fitting_end(
                document_value(*source),
                max_size,
                start as int,
                lo as int,
                high as int,
            ),
        decreases high - lo,
    {
        if stopped() {
            return Ok(None);
        }
        match probe(source, max_size, start, lo, high) {
            Ok((l, h)) => {
                lo = l;
                high = h;
            },
            Err(e) => return Err(e),
        }
    }
    Ok(Some(lo))
}

/// Measures the document as it shrinks page by page from the front.
fn measure_all(source: &Document, total: usize) -> (r: Result<Vec<u64>, SplitError>)
    ensures
        match r {
            Ok(sizes) => sizes@.len() == total + 1 && cumulative_sizes(
                document_value(*source),
                seq![],
                total as nat,
            ) == Ok::<_, SplitError>(sizes@),
            Err(e) => cumulative_sizes(document_value(*source), seq![], total as nat) == Err::<
                Seq<u64>,
                _,
            >(e),
        },
{
    let mut working = duplicate(source);
    let mut sizes: Vec<u64> = Vec::new();
    while sizes.len() < total
        invariant
            sizes@.len() <= total,
            cumulative_sizes(document_value(*source), seq![], total as nat) == cumulative_sizes(
                document_value(working),
                sizes@,
                total as nat,
            ),
        decreases total - sizes@.len(),
    {
        match measure(&mut working, sizes.len() > 0) {
            Ok(size) => sizes.push(size),
            Err(e) => return Err(e),
        }
    }
    sizes.push(0);
    Ok(sizes)
}

/// Extracts the chunk that begins at `start`.
fn cut_chunk(source: &Document, cumulative: &Vec<u64>, max_size: u64, start: usize) -> (r: Result<
    Chunk,
    SplitError,
>)
    requires
        start + 1 < cumulative@.len() == pages(document_value(*source)).len() + 1,
    ensures
        match r {
            Ok(chunk) => start < chunk.end < cumulative@.len() && chunk_at(
                document_value(*source),
                cumulative@,
                max_size,
                start as int,
            ) == Ok::<_, SplitError>(chunk@) && (exists|rest: DocumentValue|
                (#[trigger] saving(rest)).0 == chunk.bytes@ && pruned(rest) == rest) && (plain_tree(
                document_value(*source),
            ) ==> holds_pages(
                document_value(*source),
                chunk.start as int,
                chunk.end as int,
            )),
            Err(e) => chunk_at(
                document_value(*source),
                cumulative@,
                max_size,
                start as int,
            ) == Err::<ChunkView, _>(e),
        },
{
    let end: usize = estimate_end(cumulative, max_size, start);
    let chunk = match extract_chunk(source, start, end) {
        Ok(chunk) => chunk,
        Err(e) => return Err(e),
    };
    if chunk.bytes.len() as u64 > max_size && end > start + 1 {
        match find_fitting_end(source, start, end, max_size) {
            Ok(fitting) => extract_chunk(source, start, fitting),
            Err(e) => Err(e),
        }
    } else {
        Ok(chunk)
    }
}

/// Splits a document into chunks of at most `max_size` bytes. A single page that
/// is larger is a chunk of its own. A chunk is written from a document that pruning finds
/// nothing to take out of. Where the page tree is plain, that document has just the pages of the
/// chunk.
pub fn split_by_size(source: &Document, max_size: u64) -> (r: Result<Vec<Chunk>, SplitError>)
    ensures
        match r {
            Ok(chunks) => size_chunks(document_value(*source), max_size) == (
                chunks@.map_values(|c: Chunk| c@),
                None::<SplitError>,
            ),
            Err(e) => size_chunks(document_value(*source), max_size).1 == Some(e),
        },
        r matches Ok(chunks) ==> forall|i: int|
            0 <= i < chunks@.len() ==> exists|rest: DocumentValue|
                (#[trigger] saving(rest)).0 == (#[trigger] chunks@[i]).bytes@ && pruned(rest) == rest,
        r matches Ok(chunks) ==> plain_tree(document_value(*source)) ==> forall|i: int|
            0 <= i < chunks@.len() ==> holds_pages(
                document_value(*source),
                (#[trigger] chunks@[i]).start as int,
                chunks@[i].end as int,
            ),
{
    let total: usize = match list_pages(source) {
        Ok(list) => list.len(),
        Err(e) => return Err(e),
    };
    if total == 0 {
        return Err(SplitError::NoPages);
    }
    let sizes = match measure_all(source, total) {
        Ok(sizes) => sizes,
        Err(e) => return Err(e),
    };
    let ghost value = document_value(*source);
    let ghost view = |c: Chunk| c@;
    let ghost outcome = chunks_from(value, sizes@, max_size, 0);
    let mut chunks: Vec<Chunk> = Vec::new();
    let mut start: usize = 0;
    assert(chunks@.map_values(view) =~= seq![]);
    assert(seq![] + outcome.0 =~= outcome.0);
    while start < total
        invariant
            start <= total,
            value == document_value(*source),
            view == (|c: Chunk| c@),
            sizes@.len() == total + 1,
            total == pages(value).len(),
            outcome == size_chunks(value, max_size),
            outcome.0 =~= chunks@.map_values(view) + chunks_from(
                value,
                sizes@,
                max_size,
                start as int,
            ).0,
            outcome.1 == chunks_from(value, sizes@, max_size, start as int).1,
            forall|i: int|
                0 <= i < chunks@.len() ==> exists|rest: DocumentValue|
                    (#[trigger] saving(rest)).0 == (#[trigger] chunks@[i]).bytes@ && pruned(rest)
                        == rest,
            plain_tree(value) ==> forall|i: int|
                0 <= i < chunks@.len() ==> holds_pages(
                    value,
                    (#[trigger] chunks@[i]).start as int,
                    chunks@[i].end as int,
                ),
        decreases total - start,
    {
        let ghost before = chunks@.map_values(view);
        let ghost rest = chunks_from(value, sizes@, max_size, start as int);
        match cut_chunk(source, &sizes, max_size, start) {
            Ok(chunk) => {
                start = chunk.end;
                chunks.push(chunk);
                assert(chunks@.map_values(view) =~= before.push(chunk@));
                assert(before + rest.0 =~= before.push(chunk@) + chunks_from(
                    value,
                    sizes@,
                    max_size,
                    start as int,
                ).0);
            },
            Err(e) => return Err(e),
        }
    }
    assert(chunks@.map_values(view) + seq![] =~= chunks@.map_values(view));
    Ok(chunks)
}

} // verus!
