//! How much text a document holds, and what that says of its kind.

use lopdf::Document;
use vstd::prelude::*;

use crate::page_split::numbers;
use crate::page_tree::{list_pages, page_list, SplitError};
use crate::pdf::{document_value, pages, ObjectId};
use crate::text::{
    count_visible_chars, is_white_space, law_visible_chars_are_counted_one_by_one, visible_chars,
};

verus! {

/// An average number of characters per page, as the two numbers it is made of.
#[derive(Clone, Copy, Debug, PartialEq, Eq, Structural)]
pub struct Average {
    pub chars: usize,
    pub pages: usize,
}

/// How much text a document holds.
#[derive(Clone, Copy, Debug, PartialEq, Eq, Structural)]
pub struct PdfTextStats {
    pub total_chars: usize,
    pub avg_chars_per_page: Average,
}

/// How many pages a sample takes at most.
pub const SAMPLE_PAGES: usize = 5;

/// How many pages a sample of a document with `total` pages takes.
pub open spec fn sample_count(total: int) -> int {
    if total < SAMPLE_PAGES {
        total
    } else {
        SAMPLE_PAGES as int
    }
}

/// The pages of the sample that tells whether a document holds text at all: one
/// after each equal part of the document.
pub open spec fn analysis_samples(total: int) -> Seq<int> {
    Seq::new(sample_count(total) as nat, |k: int| k * (total / sample_count(total)))
}

/// The pages of the sample that the average is estimated from: the first, the
/// last, and those between them at equal distances.
pub open spec fn estimate_samples(total: int) -> Seq<int> {
    if sample_count(total) == 1 {
        seq![0]
    } else {
        Seq::new(
            sample_count(total) as nat,
            |k: int| k * (total - 1) / (sample_count(total) - 1),
        )
    }
}

/// The numbers of the pages at the given indices.
pub open spec fn numbers_at(list: Seq<(u32, ObjectId)>, at: Seq<int>) -> Seq<u32> {
    at.map_values(|i: int| list[i].0)
}

/// The sampled pages are pages of the document, and no page is sampled twice.
pub proof fn law_samples_are_distinct_pages(total: int)
    requires
        total > 0,
    ensures
        forall|k: int|
            0 <= k < sample_count(total) ==> 0 <= #[trigger] analysis_samples(total)[k] < total,
        forall|k: int|
            0 <= k < sample_count(total) ==> 0 <= #[trigger] estimate_samples(total)[k] < total,
        forall|j: int, k: int|
            0 <= j < k < sample_count(total) ==> #[trigger] analysis_samples(total)[j]
                < #[trigger] analysis_samples(total)[k],
        forall|j: int, k: int|
            0 <= j < k < sample_count(total) ==> #[trigger] estimate_samples(total)[j]
                < #[trigger] estimate_samples(total)[k],
{
    let count = sample_count(total);
    assert forall|k: int| 0 <= k < count implies 0 <= #[trigger] analysis_samples(total)[k]
        < total by {
        let step = total / count;
        assert(0 <= k * step < total) by (nonlinear_arith)
            requires
                0 <= k < count,
                count > 0,
                total >= count,
                step == total / count,
        ;
    }
    assert forall|k: int| 0 <= k < count implies 0 <= #[trigger] estimate_samples(total)[k]
        < total by {
        if count > 1 {
            assert(0 <= k * (total - 1) / (count - 1) <= total - 1) by (nonlinear_arith)
                requires
                    0 <= k <= count - 1,
                    count > 1,
                    total > 0,
            ;
        }
    }
    assert forall|j: int, k: int| 0 <= j < k < count implies #[trigger] analysis_samples(total)[j]
        < #[trigger] analysis_samples(total)[k] by {
        let step = total / count;
        assert(j * step < k * step) by (nonlinear_arith)
            requires
                j < k,
                count > 0,
                total >= count,
                step == total / count,
        ;
    }
    assert forall|j: int, k: int| 0 <= j < k < count implies #[trigger] estimate_samples(total)[j]
        < #[trigger] estimate_samples(total)[k] by {
        let a = j * (total - 1);
        let b = k * (total - 1);
        let d = count - 1;
        assert(a + d <= b) by (nonlinear_arith)
            requires
                j + 1 <= k,
                a == j * (total - 1),
                b == k * (total - 1),
                d <= total - 1,
                total > 0,
        ;
        assert(a / d + 1 <= b / d) by (nonlinear_arith)
            requires
                a + d <= b,
                d > 0,
        ;
    }
}

/// The average is estimated from the first and the last page, and from pages between
/// them.
pub proof fn law_estimate_spans_the_document(total: int)
    requires
        total > 0,
    ensures
        estimate_samples(total)[0] == 0,
        estimate_samples(total).last() == total - 1,
{
    let count = sample_count(total);
    if count > 1 {
        assert(0 * (total - 1) / (count - 1) == 0) by (nonlinear_arith)
            requires
                count > 1,
        ;
        assert((count - 1) * (total - 1) / (count - 1) == total - 1) by (nonlinear_arith)
            requires
                count > 1,
        ;
    }
}

/// The sample that tells whether a document holds text takes five pages, or all of them where
/// there are fewer. The first is the first page, each is as far from the one before it as that
/// many equal parts of the document are long, and fewer pages than one such part and the
/// remainder come after the last.
pub proof fn law_analysis_takes_equal_parts(total: int)
    requires
        total > 0,
    ensures
        ({
            let n = if total < 5 {
                total
            } else {
                5
            };
            let at = analysis_samples(total);
            &&& at.len() == n
            &&& at[0] == 0
            &&& forall|j: int, k: int|
                0 <= j < n && k == j + 1 && k < n ==> #[trigger] at[k] - #[trigger] at[j] == total
                    / n
            &&& total - 1 - at.last() < total / n + n
        }),
{
    let n = if total < 5 {
        total
    } else {
        5
    };
    let at = analysis_samples(total);
    let step = total / n;
    assert(0 * step == 0);
    assert forall|j: int, k: int| 0 <= j < n && k == j + 1 && k < n implies #[trigger] at[k]
        - #[trigger] at[j] == total / n by {
        assert((j + 1) * step - j * step == step) by (nonlinear_arith);
    }
    assert((n - 1) * step == n * step - step) by (nonlinear_arith);
    assert(total < n * step + n) by (nonlinear_arith)
        requires
            step == total / n,
            n > 0,
    ;
}

/// The sample that the average is estimated from takes five pages, or all of them where there
/// are fewer: the first, the last, and each of the others at the last page that is not past its
/// share of the way from the first to the last.
pub proof fn law_estimate_goes_in_equal_shares(total: int)
    requires
        total > 0,
    ensures
        ({
            let n = if total < 5 {
                total
            } else {
                5
            };
            let at = estimate_samples(total);
            &&& at.len() == n
            &&& at[0] == 0
            &&& at[n - 1] == total - 1
            &&& forall|k: int|
                0 <= k < n ==> (n - 1) * #[trigger] at[k] <= k * (total - 1)
                    && k * (total - 1) <= (n - 1) * at[k] + (n - 1)
            &&& forall|k: int|
                0 <= k < n && n > 1 ==> k * (total - 1) < (n - 1) * #[trigger] at[k] + (n - 1)
        }),
{
    law_estimate_spans_the_document(total);
    let n = sample_count(total);
    let at = estimate_samples(total);
    assert forall|k: int| 0 <= k < n implies (n - 1) * #[trigger] at[k] <= k * (total - 1) && k * (
    total - 1) <= (n - 1) * at[k] + (n - 1) && (n > 1 ==> k * (total - 1) < (n - 1) * at[k] + (n
        - 1)) by {
        let way = k * (total - 1);
        if n > 1 {
            let d = n - 1;
            let q = at[k];
            assert(q == way / d);
            assert(d * q <= way && way < d * q + d) by (nonlinear_arith)
                requires
                    q == way / d,
                    d > 0,
            ;
        } else {
            assert(total == 1 && k == 0);
        }
    }
}

/// The numbers of the pages of the sample that tells whether there is text.
fn analysis_sample(list: &Vec<(u32, ObjectId)>) -> (r: Vec<u32>)
    requires
        list@.len() > 0,
    ensures
        r@ == numbers_at(list@, analysis_samples(list@.len() as int)),
{
    let total: usize = list.len();
    let count: usize = if total < SAMPLE_PAGES {
        total
    } else {
        SAMPLE_PAGES
    };
    let step: usize = total / count;
    let ghost samples = analysis_samples(total as int);
    proof {
        law_samples_are_distinct_pages(total as int);
    }
    let mut r: Vec<u32> = Vec::new();
    let mut k: usize = 0;
    while k < count
        invariant
            k <= count,
            total == list@.len(),
            count == sample_count(total as int),
            step == total as int / count as int,
            samples == analysis_samples(total as int),
            forall|k: int| 0 <= k < count ==> 0 <= #[trigger] samples[k] < total,
            r@ =~= numbers_at(list@, samples.take(k as int)),
        decreases count - k,
    {
        assert(samples[k as int] == k * step);
        r.push(list[k * step].0);
        k += 1;
    }
    assert(samples.take(k as int) =~= samples);
    r
}

/// The numbers of the pages of the sample that the average is estimated from.
fn estimate_sample(list: &Vec<(u32, ObjectId)>) -> (r: Vec<u32>)
    requires
        list@.len() > 0,
    ensures
        r@ == numbers_at(list@, estimate_samples(list@.len() as int)),
{
    let total: usize = list.len();
    let count: usize = if total < SAMPLE_PAGES {
        total
    } else {
        SAMPLE_PAGES
    };
    let ghost samples = estimate_samples(total as int);
    proof {
        law_samples_are_distinct_pages(total as int);
    }
    let mut r: Vec<u32> = Vec::new();
    let mut k: usize = 0;
    while k < count
        invariant
            k <= count,
            total == list@.len(),
            total > 0,
            count == sample_count(total as int),
            samples == estimate_samples(total as int),
            forall|k: int| 0 <= k < count ==> 0 <= #[trigger] samples[k] < total,
            r@ =~= numbers_at(list@, samples.take(k as int)),
        decreases count - k,
    {
        let at: usize = if count == 1 {
            0
        } else {
            assert(0 <= k * (total - 1) <= 5 * usize::MAX) by (nonlinear_arith)
                requires
                    0 <= k < 5,
                    0 < total <= usize::MAX,
            ;
            assert(samples[k as int] == k * (total - 1) / (count - 1));
            (k as u128 * (total - 1) as u128 / (count - 1) as u128) as usize
        };
        assert(at == samples[k as int]);
        r.push(list[at].0);
        k += 1;
    }
    assert(samples.take(k as int) =~= samples);
    r
}

/// How many characters of a text that may be missing are not white space.
pub open spec fn chars_in(text: Option<Seq<char>>) -> nat {
    match text {
        Some(t) => visible_chars(t),
        None => 0,
    }
}

/// How many characters of a text that may be missing are not white space.
fn count_chars(text: &Option<String>) -> (count: usize)
    ensures
        count == chars_in(text_view(*text)),
{
    match text {
        Some(t) => count_visible_chars(t.as_str()),
        None => 0,
    }
}

/// The characters of a text that may be missing.
pub open spec fn text_view(text: Option<String>) -> Option<Seq<char>> {
    match text {
        Some(t) => Some(t@),
        None => None,
    }
}

/// The statistics of a document, from the text of its sample and, where that is
/// not blank, the text of all its pages.
pub open spec fn stats_of(
    page_count: usize,
    sample: Option<Seq<char>>,
    full: Option<Seq<char>>,
) -> PdfTextStats {
    let chars = if chars_in(sample) == 0 {
        0
    } else {
        chars_in(full) as usize
    };
    PdfTextStats {
        total_chars: chars,
        avg_chars_per_page: Average { chars, pages: page_count },
    }
}

/// The statistics of a document, from the text of its sample and, where that is
/// not blank, the text of all its pages. A text that could not be read counts as
/// blank.
pub fn text_stats(page_count: usize, sample: &Option<String>, full: &Option<String>) -> (r:
    PdfTextStats)
    ensures
        r == stats_of(page_count, text_view(*sample), text_view(*full)),
{
    let chars: usize = if count_chars(sample) == 0 {
        0
    } else {
        count_chars(full)
    };
    PdfTextStats {
        total_chars: chars,
        avg_chars_per_page: Average { chars, pages: page_count },
    }
}

/// Whether `read` may give `text` for the pages with the given numbers.
pub open spec fn reads<F: Fn(Vec<u32>) -> Option<String>>(
    read: F,
    page_numbers: Seq<u32>,
    text: Option<Seq<char>>,
) -> bool {
    exists|arg: Vec<u32>, out: Option<String>| #[trigger]
        call_ensures(read, (arg,), out) && arg@ == page_numbers && text_view(out) == text
}

/// Whether the statistics are those of the listed pages, where `read` gives
/// `sample` and, where that is not blank, `full`.
pub open spec fn stats_come_from<F: Fn(Vec<u32>) -> Option<String>>(
    read: F,
    list: Seq<(u32, ObjectId)>,
    stats: PdfTextStats,
    sample: Option<Seq<char>>,
    full: Option<Seq<char>>,
) -> bool {
    &&& stats == stats_of(list.len() as usize, sample, full)
    &&& if list.len() == 0 {
        sample is None
    } else {
        &&& reads(read, numbers_at(list, analysis_samples(list.len() as int)), sample)
        &&& chars_in(sample) > 0 ==> reads(read, numbers(list), full)
    }
}

/// Whether the statistics are those of the listed pages, for something that `read`
/// may give.
pub open spec fn stats_by<F: Fn(Vec<u32>) -> Option<String>>(
    read: F,
    list: Seq<(u32, ObjectId)>,
    stats: PdfTextStats,
) -> bool {
    exists|sample: Option<Seq<char>>, full: Option<Seq<char>>| #[trigger]
        stats_come_from(read, list, stats, sample, full)
}

/// The numbers of the listed pages.
fn all_numbers(list: &Vec<(u32, ObjectId)>) -> (all: Vec<u32>)
    ensures
        all@ == numbers(list@),
{
    let mut all: Vec<u32> = Vec::new();
    let mut i: usize = 0;
    while i < list.len()
        invariant
            i <= list@.len(),
            all@ =~= numbers(list@.take(i as int)),
        decreases list.len() - i,
    {
        all.push(list[i].0);
        i += 1;
    }
    assert(list@.take(i as int) =~= list@);
    all
}

/// Counts the characters of a document. `read` extracts the text of the pages with
/// the given numbers; it is asked for a few pages first, and for all of them only
/// where those are not blank.
pub fn analyze_text_stats<F: Fn(Vec<u32>) -> Option<String>>(doc: &Document, read: F) -> (r: Result<
    PdfTextStats,
    SplitError,
>)
    requires
        forall|arg: Vec<u32>| #[trigger] call_requires(read, (arg,)),
    ensures
        match page_list(document_value(*doc)) {
            Ok(list) => r matches Ok(stats) && stats_by(read, list, stats),
            Err(e) => r == Err::<PdfTextStats, _>(e),
        },
{
    let list = match list_pages(doc) {
        Ok(list) => list,
        Err(e) => return Err(e),
    };
    let sample: Option<String> = if list.len() == 0 {
        None
    } else {
        read(analysis_sample(&list))
    };
    let full: Option<String> = if count_chars(&sample) == 0 {
        None
    } else {
        read(all_numbers(&list))
    };
    let stats = text_stats(list.len(), &sample, &full);
    assert(stats_come_from(read, list@, stats, text_view(sample), text_view(full)));
    Ok(stats)
}

/// Estimates the average number of characters per page of a document from a few
/// of its pages. `read` extracts the text of the pages with the given numbers.
pub fn estimate_avg_chars_per_page<F: Fn(Vec<u32>) -> Option<String>>(doc: &Document, read: F) -> (r:
    Result<Average, SplitError>)
    requires
        forall|arg: Vec<u32>| #[trigger] call_requires(read, (arg,)),
    ensures
        match page_list(document_value(*doc)) {
            Ok(list) => if list.len() == 0 {
                r == Ok::<_, SplitError>(Average { chars: 0, pages: 0 })
            } else {
                r matches Ok(average) && average.pages == sample_count(list.len() as int) && exists|
                    text: Option<Seq<char>>,
                |
                    #[trigger] reads(
                        read,
                        numbers_at(list, estimate_samples(list.len() as int)),
                        text,
                    ) && average.chars == chars_in(text)
            },
            Err(e) => r == Err::<Average, _>(e),
        },
{
    let list = match list_pages(doc) {
        Ok(list) => list,
        Err(e) => return Err(e),
    };
    if list.len() == 0 {
        return Ok(Average { chars: 0, pages: 0 });
    }
    let sample = estimate_sample(&list);
    let count: usize = sample.len();
    let text = read(sample);
    assert(reads(
        read,
        numbers_at(list@, estimate_samples(list@.len() as int)),
        text_view(text),
    ));
    Ok(Average { chars: count_chars(&text), pages: count })
}

/// The number of characters per page from which on a document is taken to hold
/// text and not just pictures of it.
pub const TEXT_CHARS_PER_PAGE: usize = 100;

/// Whether a document with this average is taken to hold text and not just
/// pictures of it.
pub open spec fn is_electronic(average: Average) -> bool {
    average.pages > 0 && average.chars >= TEXT_CHARS_PER_PAGE * average.pages
}

/// The kind of a document by its average number of characters per page.
pub fn classify_pdf(average: &Average) -> (kind: &'static str)
    ensures
        kind@ == if is_electronic(*average) {
            "电子版"@
        } else {
            "扫描版"@
        },
{
    if average.pages > 0 && average.chars as u128 >= TEXT_CHARS_PER_PAGE as u128
        * average.pages as u128 {
        "电子版"
    } else {
        "扫描版"
    }
}

/// A document is taken to hold text exactly if it has pages and at least a hundred characters
/// for each of them.
pub proof fn law_a_hundred_chars_per_page_make_text(average: Average)
    ensures
        is_electronic(average) <==> 1 <= average.pages && 100 * average.pages <= average.chars,
{
}

/// The statistics count the visible characters of all pages, and none where there is nothing but
/// white space in the sample or nothing could be read of it or of the pages. The average is over
/// the pages of the document.
pub proof fn law_statistics_count_the_whole_text(
    page_count: usize,
    sample: Option<Seq<char>>,
    full: Option<Seq<char>>,
)
    ensures
        ({
            let stats = stats_of(page_count, sample, full);
            let has_text = sample matches Some(text) && exists|i: int|
                0 <= i < text.len() && !is_white_space(#[trigger] text[i]);
            &&& stats.avg_chars_per_page.chars == stats.total_chars
            &&& stats.avg_chars_per_page.pages == page_count
            &&& !has_text ==> stats.total_chars == 0
            &&& full is None ==> stats.total_chars == 0
            &&& has_text && full is Some && full->Some_0.len() <= usize::MAX ==> stats.total_chars
                == full->Some_0.filter(|c: char| !is_white_space(c)).len()
        }),
{
    if let Some(text) = sample {
        law_visible_chars_are_counted_one_by_one(text, seq![], ' ');
    }
    if let Some(text) = full {
        law_visible_chars_are_counted_one_by_one(text, seq![], ' ');
    }
}

/// The numbers of the pages at some indices are those that the list of pages has there.
pub proof fn law_numbers_are_those_of_the_list(list: Seq<(u32, ObjectId)>, at: Seq<int>)
    ensures
        numbers_at(list, at).len() == at.len(),
        forall|k: int| 0 <= k < at.len() ==> #[trigger] numbers_at(list, at)[k] == list[at[k]].0,
{
}

/// The statistics of a document with pages come from a text that was read of the sample: of the
/// first page and of those that come after it in steps of an equal part of the document. Where
/// there is more than white space in it, they count the text that was read of all pages.
pub proof fn law_statistics_come_from_the_sample<F: Fn(Vec<u32>) -> Option<String>>(
    read: F,
    list: Seq<(u32, ObjectId)>,
    stats: PdfTextStats,
)
    requires
        0 < list.len() <= usize::MAX,
        stats_by(read, list, stats),
    ensures
        exists|sample: Option<Seq<char>>, asked: Seq<u32>|
            {
                let total = list.len() as int;
                let n = if total < 5 {
                    total
                } else {
                    5
                };
                let has_text = sample matches Some(text) && exists|i: int|
                    0 <= i < text.len() && !is_white_space(#[trigger] text[i]);
                &&& #[trigger] reads(read, asked, sample)
                &&& asked.len() == n
                &&& forall|k: int|
                    0 <= k < n ==> #[trigger] asked[k] == list[k * (total / n)].0
                &&& stats.avg_chars_per_page.pages == total
                &&& stats.avg_chars_per_page.chars == stats.total_chars
                &&& !has_text ==> stats.total_chars == 0
                &&& has_text ==> exists|full: Option<Seq<char>>, all: Seq<u32>|
                    {
                        &&& #[trigger] reads(read, all, full)
                        &&& all.len() == total
                        &&& forall|i: int| 0 <= i < total ==> #[trigger] all[i] == list[i].0
                        &&& full is None ==> stats.total_chars == 0
                        &&& full is Some && full->Some_0.len() <= usize::MAX ==> stats.total_chars
                            == full->Some_0.filter(|c: char| !is_white_space(c)).len()
                    }
            },
{
    let (sample, full) = choose|sample: Option<Seq<char>>, full: Option<Seq<char>>| #[trigger]
        stats_come_from(read, list, stats, sample, full);
    let total = list.len() as int;
    let asked = numbers_at(list, analysis_samples(total));
    law_statistics_count_the_whole_text(list.len() as usize, sample, full);
    if let Some(text) = sample {
        law_visible_chars_are_counted_one_by_one(text, seq![], ' ');
    }
    assert(reads(read, asked, sample));
    if chars_in(sample) > 0 {
        let all = numbers(list);
        assert(reads(read, all, full));
    }
}

} // verus!
