//! Chunks of pages, and how cumulative sizes gather pages into them.

use vstd::prelude::*;

verus! {

/// A chunk of a document: the pages from `start` up to but without `end`, and
/// the document that they make.
pub struct Chunk {
    pub start: usize,
    pub end: usize,
    pub bytes: Vec<u8>,
}

/// What a chunk is.
#[verifier::ext_equal]
pub struct ChunkView {
    pub start: int,
    pub end: int,
    pub bytes: Seq<u8>,
}

impl View for Chunk {
    type V = ChunkView;

    open spec fn view(&self) -> ChunkView {
        ChunkView { start: self.start as int, end: self.end as int, bytes: self.bytes@ }
    }
}

/// Whether the chunks follow one another without a gap from `start` on, none of
/// them empty.
pub open spec fn consecutive(chunks: Seq<ChunkView>, start: int) -> bool {
    &&& chunks.len() > 0 ==> chunks[0].start == start
    &&& forall|i: int| 0 <= i < chunks.len() ==> #[trigger] chunks[i].start < chunks[i].end
    &&& forall|i: int|
        0 <= i < chunks.len() - 1 ==> chunks[i + 1].start == #[trigger] chunks[i].end
}

/// `a - b`, modulo the number of `u64` values.
pub open spec fn wrapped_difference(a: u64, b: u64) -> int {
    if a >= b {
        a - b
    } else {
        a - b + 0x1_0000_0000_0000_0000
    }
}

/// The size of the pages from `first` to `last` by cumulative sizes, of which
/// each is that of all pages from one page on.
pub open spec fn span(cumulative: Seq<u64>, first: int, last: int) -> int {
    wrapped_difference(cumulative[first], cumulative[last + 1])
}

/// The indices from `start` up to but without `end`.
pub open spec fn indices(start: int, end: int) -> Seq<usize> {
    Seq::new((end - start) as nat, |i: int| (start + i) as usize)
}

/// The indices from `start` up to but without `end`.
pub(crate) fn index_range(start: usize, end: usize) -> (range: Vec<usize>)
    requires
        start <= end,
    ensures
        range@ == indices(start as int, end as int),
{
    let mut range: Vec<usize> = Vec::new();
    let mut i: usize = start;
    while i < end
        invariant
            start <= i <= end,
            range@ == indices(start as int, i as int),
        decreases end - i,
    {
        range.push(i);
        assert(range@ =~= indices(start as int, i + 1));
        i += 1;
    }
    range
}

/// The chunks of the pages from `start` on, where those from `start` up to but
/// without `end` stand in one. A chunk is closed before the page with which it
/// would exceed `max_size`; a page that does so alone is a chunk of its own.
pub open spec fn greedy_chunks(cumulative: Seq<u64>, max_size: u64, start: int, end: int) -> Seq<
    Seq<usize>,
>
    decreases cumulative.len() - end,
{
    let total = cumulative.len() - 1;
    if end >= total {
        if start < total {
            seq![indices(start, total)]
        } else {
            seq![]
        }
    } else if span(cumulative, start, end) <= max_size {
        greedy_chunks(cumulative, max_size, start, end + 1)
    } else if start == end {
        seq![indices(start, start + 1)] + greedy_chunks(cumulative, max_size, end + 1, end + 1)
    } else {
        seq![indices(start, end)] + greedy_chunks(cumulative, max_size, end, end + 1)
    }
}

/// Given the cumulative sizes of a document's pages, the size of all pages from
/// each page on and 0 at the end, gathers the page indices into chunks of at
/// most `max_size`.
pub fn compute_chunks_from_cumulative(cumulative: &[u64], max_size: u64) -> (chunks: Vec<
    Vec<usize>,
>)
    requires
        cumulative@.len() >= 1,
    ensures
        chunks@.map_values(|c: Vec<usize>| c@) == greedy_chunks(cumulative@, max_size, 0, 0),
{
    let total: usize = cumulative.len() - 1;
    let mut chunks: Vec<Vec<usize>> = Vec::new();
    let ghost view = |c: Vec<usize>| c@;
    let mut start: usize = 0;
    let mut end: usize = 0;
    assert(chunks@.map_values(view) =~= seq![]);
    while end < total
        invariant
            start <= end <= total,
            total == cumulative@.len() - 1,
            view == (|c: Vec<usize>| c@),
            greedy_chunks(cumulative@, max_size, 0, 0) =~= chunks@.map_values(view)
                + greedy_chunks(cumulative@, max_size, start as int, end as int),
        decreases total - end,
    {
        let ghost before = chunks@.map_values(view);
        let ghost rest = greedy_chunks(cumulative@, max_size, start as int, end as int);
        let size: u64 = cumulative[start].wrapping_sub(cumulative[end + 1]);
        assert(size == span(cumulative@, start as int, end as int));
        if size > max_size {
            let ghost closed = if start == end {
                end + 1
            } else {
                end as int
            };
            let stop: usize = if start == end {
                end + 1
            } else {
                end
            };
            chunks.push(index_range(start, stop));
            assert(chunks@.map_values(view) =~= before.push(indices(start as int, closed)));
            assert(before + rest =~= chunks@.map_values(view) + greedy_chunks(
                cumulative@,
                max_size,
                closed,
                end + 1,
            ));
            start = stop;
        }
        end += 1;
    }
    if start < total {
        let ghost before = chunks@.map_values(view);
        chunks.push(index_range(start, total));
        assert(chunks@.map_values(view) =~= before.push(indices(start as int, total as int)));
    }
    assert(chunks@.map_values(view) =~= greedy_chunks(cumulative@, max_size, 0, 0));
    chunks
}

/// What holds of the chunks from `start` on, where those from `start` up to but
/// without `end` stand in one that fits.
proof fn lemma_greedy_chunks(cumulative: Seq<u64>, max_size: u64, start: int, end: int)
    requires
        0 <= start <= end < cumulative.len() <= usize::MAX,
        forall|i: int, j: int|
            0 <= i <= j < cumulative.len() ==> cumulative[i] >= cumulative[j],
        end > start + 1 ==> span(cumulative, start, end - 1) <= max_size,
    ensures
        ({
            let chunks = greedy_chunks(cumulative, max_size, start, end);
            &&& chunks.flatten() =~= indices(start, cumulative.len() - 1)
            &&& chunks.len() > 0 ==> chunks[0].len() > 0 && chunks[0][0] == start
            &&& forall|i: int|
                0 <= i < chunks.len() ==> {
                    &&& (#[trigger] chunks[i]).len() > 0
                    &&& chunks[i].last() < cumulative.len() - 1
                    &&& chunks[i].len() > 1 ==> span(
                        cumulative,
                        chunks[i][0] as int,
                        chunks[i].last() as int,
                    ) <= max_size
                    &&& i < chunks.len() - 1 ==> chunks[i].last() + 2 < cumulative.len() && span(
                        cumulative,
                        chunks[i][0] as int,
                        chunks[i].last() + 1,
                    ) > max_size
                }
        }),
    decreases cumulative.len() - end,
{
    let total = cumulative.len() - 1;
    let chunks = greedy_chunks(cumulative, max_size, start, end);
    if end >= total {
        if start < total {
            chunks.lemma_flatten_one_element();
        }
    } else if span(cumulative, start, end) <= max_size {
        lemma_greedy_chunks(cumulative, max_size, start, end + 1);
    } else {
        let stop = if start == end {
            end + 1
        } else {
            end
        };
        let first = indices(start, stop);
        let rest = greedy_chunks(cumulative, max_size, stop, end + 1);
        lemma_greedy_chunks(cumulative, max_size, stop, end + 1);
        assert(chunks =~= seq![first] + rest);
        assert(chunks.drop_first() =~= rest);
        assert(chunks.flatten() =~= first + rest.flatten());
        assert forall|i: int| 0 <= i < chunks.len() implies {
            &&& (#[trigger] chunks[i]).len() > 0
            &&& chunks[i].last() < cumulative.len() - 1
            &&& chunks[i].len() > 1 ==> span(
                cumulative,
                chunks[i][0] as int,
                chunks[i].last() as int,
            ) <= max_size
            &&& i < chunks.len() - 1 ==> chunks[i].last() + 2 < cumulative.len() && span(
                cumulative,
                chunks[i][0] as int,
                chunks[i].last() + 1,
            ) > max_size
        } by {
            if i > 0 {
                assert(chunks[i] == rest[i - 1]);
            } else if chunks.len() > 1 {
                assert(rest[0].len() > 0);
                if stop >= total {
                    assert(rest.len() == 0);
                }
            }
        }
    }
}

/// Where no cumulative size is less than a later one, the chunks hold every page
/// once and in order, none is empty, one of several pages does not exceed the
/// limit, and none could take the page that comes after it.
pub proof fn law_greedy_chunks_are_the_longest(cumulative: Seq<u64>, max_size: u64)
    requires
        1 <= cumulative.len() <= usize::MAX,
        forall|i: int, j: int|
            0 <= i <= j < cumulative.len() ==> cumulative[i] >= cumulative[j],
    ensures
        ({
            let chunks = greedy_chunks(cumulative, max_size, 0, 0);
            &&& chunks.flatten() == indices(0, cumulative.len() - 1)
            &&& forall|i: int|
                0 <= i < chunks.len() ==> {
                    &&& (#[trigger] chunks[i]).len() > 0
                    &&& chunks[i].len() > 1 ==> span(
                        cumulative,
                        chunks[i][0] as int,
                        chunks[i].last() as int,
                    ) <= max_size
                    &&& i < chunks.len() - 1 ==> span(
                        cumulative,
                        chunks[i][0] as int,
                        chunks[i].last() + 1,
                    ) > max_size
                }
        }),
{
    lemma_greedy_chunks(cumulative, max_size, 0, 0);
}

/// Where no cumulative size is less than a later one, the chunks hold the indices 0, 1, 2 and so
/// on. What a chunk takes is what the cumulative sizes lose over it: of several pages no more than
/// the limit, and with the page after it more.
pub proof fn law_greedy_chunks_lose_no_more_than_the_limit(
    cumulative: Seq<u64>,
    max_size: u64,
    i: int,
)
    requires
        1 <= cumulative.len() <= usize::MAX,
        forall|i: int, j: int|
            0 <= i <= j < cumulative.len() ==> cumulative[i] >= cumulative[j],
        0 <= i < greedy_chunks(cumulative, max_size, 0, 0).len(),
    ensures
        greedy_chunks(cumulative, max_size, 0, 0).flatten() == Seq::new(
            (cumulative.len() - 1) as nat,
            |k: int| k as usize,
        ),
        ({
            let chunks = greedy_chunks(cumulative, max_size, 0, 0);
            let first = chunks[i][0] as int;
            let last = chunks[i].last() as int;
            &&& chunks[i].len() > 0
            &&& last + 1 < cumulative.len()
            &&& chunks[i].len() > 1 ==> cumulative[first] - cumulative[last + 1] <= max_size
            &&& i < chunks.len() - 1 ==> cumulative[first] - cumulative[last + 2] > max_size
        }),
{
    lemma_greedy_chunks(cumulative, max_size, 0, 0);
    lemma_chunk_bounds(cumulative, max_size, 0, 0, i);
    let chunks = greedy_chunks(cumulative, max_size, 0, 0);
    assert(chunks.flatten() =~= Seq::new((cumulative.len() - 1) as nat, |k: int| k as usize));
    let first = chunks[i][0] as int;
    let last = chunks[i].last() as int;
    assert(cumulative[first] >= cumulative[last + 1]);
    if i < chunks.len() - 1 {
        assert(cumulative[first] >= cumulative[last + 2]);
    }
}

/// The first index of a chunk is not above its last.
proof fn lemma_chunk_bounds(cumulative: Seq<u64>, max_size: u64, start: int, end: int, i: int)
    requires
        0 <= start <= end < cumulative.len() <= usize::MAX,
        0 <= i < greedy_chunks(cumulative, max_size, start, end).len(),
    ensures
        ({
            let chunk = greedy_chunks(cumulative, max_size, start, end)[i];
            &&& chunk.len() > 0
            &&& 0 <= chunk[0] <= chunk.last() < cumulative.len() - 1
        }),
    decreases cumulative.len() - end,
{
    let total = cumulative.len() - 1;
    if end < total {
        if span(cumulative, start, end) <= max_size {
            lemma_chunk_bounds(cumulative, max_size, start, end + 1, i);
        } else {
            let stop = if start == end {
                end + 1
            } else {
                end
            };
            let rest = greedy_chunks(cumulative, max_size, stop, end + 1);
            let chunks = greedy_chunks(cumulative, max_size, start, end);
            assert(chunks =~= seq![indices(start, stop)] + rest);
            if i > 0 {
                assert(chunks[i] == rest[i - 1]);
                lemma_chunk_bounds(cumulative, max_size, stop, end + 1, i - 1);
            }
        }
    }
}

/// A chunk is described by where it begins, where it ends and the bytes of its document.
pub proof fn law_chunks_are_described_by_their_parts(chunk: Chunk)
    ensures
        chunk@.start == chunk.start,
        chunk@.end == chunk.end,
        chunk@.bytes == chunk.bytes@,
{
}

} // verus!
