//! Sizes and averages as texts.

use vstd::prelude::*;

use crate::text::{decimal, decimal_text};
use crate::text_stats::Average;

verus! {

/// The integer nearest to `a / b`, and of two the even one.
pub open spec fn nearest(a: nat, b: nat) -> nat
    recommends
        b > 0,
{
    let rest = a % b;
    let below = a / b;
    if 2 * rest < b || 2 * rest == b && below % 2 == 0 {
        below
    } else {
        below + 1
    }
}

/// The integer nearest to `a / b`, and of two the even one.
fn nearest_quotient(a: u128, b: u128) -> (r: u128)
    requires
        0 < b <= 0xffff_ffff_ffff_ffff,
        a <= 0xffff_ffff_ffff_ffff_ffff_ffff,
    ensures
        r == nearest(a as nat, b as nat),
{
    let rest: u128 = a % b;
    let below: u128 = a / b;
    assert(below <= a) by (nonlinear_arith)
        requires
            below == a / b,
            b > 0,
    ;
    if 2 * rest < b || 2 * rest == b && below % 2 == 0 {
        below
    } else {
        below + 1
    }
}

/// The least power of two by which a number has to be divided for 53 binary
/// digits to hold its integer part.
pub open spec fn double_unit(n: nat) -> nat
    decreases n,
{
    if n < 0x20_0000_0000_0000 {
        1
    } else {
        2 * double_unit(n / 2)
    }
}

/// The double-precision number nearest to an integer.
pub open spec fn as_double(n: nat) -> nat {
    nearest(n, double_unit(n)) * double_unit(n)
}

/// The power of two by which a number has to be divided for 53 binary digits to
/// hold its integer part.
fn unit_of(n: u64) -> (unit: u128)
    ensures
        unit == double_unit(n as nat),
        0 < unit <= 4096,
{
    let mut rest: u64 = n;
    let mut unit: u128 = 1;
    while rest >= 0x20_0000_0000_0000
        invariant
            0 < unit <= 4096,
            unit * rest <= n,
            double_unit(n as nat) == unit * double_unit(rest as nat),
        decreases rest,
    {
        let ghost larger = rest;
        assert(unit < 2048) by (nonlinear_arith)
            requires
                unit * larger <= 0xffff_ffff_ffff_ffff,
                larger >= 0x20_0000_0000_0000,
                unit > 0,
        ;
        rest = rest / 2;
        assert((unit * 2) * rest <= unit * larger) by (nonlinear_arith)
            requires
                rest == larger / 2,
                unit > 0,
        ;
        assert(unit * (2 * double_unit(rest as nat)) == (unit * 2) * double_unit(rest as nat))
            by (nonlinear_arith);
        unit = unit * 2;
    }
    assert(unit * double_unit(rest as nat) == unit) by (nonlinear_arith)
        requires
            double_unit(rest as nat) == 1,
    ;
    unit
}

/// The double-precision number nearest to an integer.
fn to_double(n: u64) -> (f: u128)
    ensures
        f == as_double(n as nat),
        f <= 0x1_0000_0000_0000_2000,
{
    let unit: u128 = unit_of(n);
    let q: u128 = nearest_quotient(n as u128, unit);
    assert(q * unit <= n + unit) by (nonlinear_arith)
        requires
            q <= n as int / unit as int + 1,
            unit > 0,
    ;
    q * unit
}

/// A number of tenths as a text with one decimal place.
pub open spec fn tenths_text(tenths: nat) -> Seq<char> {
    decimal(tenths / 10) + "."@ + decimal(tenths % 10)
}

/// A size in bytes as a text: in the largest of four units of which it holds at
/// least one, with one decimal place.
pub open spec fn size_text(n: nat) -> Seq<char> {
    let size = as_double(n);
    if size < 1024 {
        tenths_text(size * 10) + " B"@
    } else if size < 1024 * 1024 {
        tenths_text(nearest(size * 10, 1024)) + " KB"@
    } else if size < 1024 * 1024 * 1024 {
        tenths_text(nearest(size * 10, 1024 * 1024)) + " MB"@
    } else {
        tenths_text(nearest(size * 10, 1024 * 1024 * 1024)) + " GB"@
    }
}

/// A size in bytes as a text: in the largest of four units of which it holds at
/// least one, with one decimal place.
pub fn format_size(n: u64) -> (text: String)
    ensures
        text@ == size_text(n as nat),
{
    let size: u128 = to_double(n);
    let tenths: u128 = if size < 1024 {
        size * 10
    } else if size < 1024 * 1024 {
        nearest_quotient(size * 10, 1024)
    } else if size < 1024 * 1024 * 1024 {
        nearest_quotient(size * 10, 1024 * 1024)
    } else {
        nearest_quotient(size * 10, 1024 * 1024 * 1024)
    };
    let mut text = decimal_text(tenths / 10);
    text.append(".");
    text.append(decimal_text(tenths % 10).as_str());
    if size < 1024 {
        text.append(" B");
    } else if size < 1024 * 1024 {
        text.append(" KB");
    } else if size < 1024 * 1024 * 1024 {
        text.append(" MB");
    } else {
        text.append(" GB");
    }
    text
}

/// An average as a text, rounded to an integer.
pub open spec fn average_text(average: Average) -> Seq<char> {
    if average.pages == 0 {
        decimal(0)
    } else {
        decimal(nearest(average.chars as nat, average.pages as nat))
    }
}

/// The pages of a chunk, from `start` up to but without `end`, as a text.
pub open spec fn page_range_text(start: int, end: int) -> Seq<char> {
    if end - start > 1 {
        "第 "@ + decimal((start + 1) as nat) + "-"@ + decimal(end as nat) + " 页"@
    } else {
        "第 "@ + decimal((start + 1) as nat) + " 页"@
    }
}

/// What is told of a chunk: the name of its file, its pages, its size, and the
/// kind and the average of the document.
pub open spec fn chunk_info(
    file_name: Seq<char>,
    start: int,
    end: int,
    size: nat,
    pdf_type: Seq<char>,
    average: Average,
) -> Seq<char> {
    "  "@ + file_name + " ("@ + page_range_text(start, end) + ", "@ + size_text(size) + ", "@
        + pdf_type + ", 平均"@ + average_text(average) + "字/页)"@
}

/// What is told of a chunk: the name of its file, its pages, its size, and the
/// kind and the average of the document.
pub fn chunk_info_str(
    file_name: &str,
    start: usize,
    end: usize,
    size: u64,
    pdf_type: &str,
    average: &Average,
) -> (text: String)
    requires
        start < end,
    ensures
        text@ == chunk_info(
            file_name@,
            start as int,
            end as int,
            size as nat,
            pdf_type@,
            *average,
        ),
{
    let mut text = "  ".to_owned();
    text.append(file_name);
    text.append(" (");
    text.append(page_range(start, end).as_str());
    text.append(", ");
    text.append(format_size(size).as_str());
    text.append(", ");
    text.append(pdf_type);
    text.append(", 平均");
    let rounded: u128 = if average.pages == 0 {
        0
    } else {
        nearest_quotient(average.chars as u128, average.pages as u128)
    };
    text.append(decimal_text(rounded).as_str());
    text.append("字/页)");
    text
}

/// The pages of a chunk, from `start` up to but without `end`, as a text.
fn page_range(start: usize, end: usize) -> (text: String)
    requires
        start < end,
    ensures
        text@ == page_range_text(start as int, end as int),
{
    let mut text = "第 ".to_owned();
    text.append(decimal_text(start as u128 + 1).as_str());
    if end - start > 1 {
        text.append("-");
        text.append(decimal_text(end as u128).as_str());
    }
    text.append(" 页");
    text
}

/// The nearest integer is at most half away from the quotient, and it is even where it is just
/// half away.
pub proof fn law_nearest_is_at_most_half_away(a: nat, b: nat)
    requires
        b > 0,
    ensures
        ({
            let r = nearest(a, b);
            &&& 2 * (r * b) <= 2 * a + b
            &&& 2 * a <= 2 * (r * b) + b
            &&& 2 * (r * b) == 2 * a + b || 2 * a == 2 * (r * b) + b ==> r % 2 == 0
        }),
{
    let q = a / b;
    let rest = a % b;
    assert(a == q * b + rest && 0 <= rest < b) by (nonlinear_arith)
        requires
            b > 0,
            q == a / b,
            rest == a % b,
    ;
    assert((q + 1) * b == q * b + b) by (nonlinear_arith);
}

/// The unit of a number that takes more than 53 binary digits is at most as large as leaves 53 of
/// them.
proof fn lemma_double_unit(n: nat)
    ensures
        double_unit(n) >= 1,
        n < 0x20_0000_0000_0000 ==> double_unit(n) == 1,
        n >= 0x20_0000_0000_0000 ==> double_unit(n) * 0x10_0000_0000_0000 <= n,
    decreases n,
{
    if n >= 0x20_0000_0000_0000 {
        lemma_double_unit(n / 2);
    }
}

/// An integer below 2 to the power of 53 is a double-precision number itself. The one that is
/// nearest to a larger integer is away from it by no more than a part in so many.
pub proof fn law_doubles_are_close(n: nat)
    ensures
        n < 0x20_0000_0000_0000 ==> as_double(n) == n,
        (as_double(n) - n) * 0x20_0000_0000_0000 <= n,
        (n - as_double(n)) * 0x20_0000_0000_0000 <= n,
{
    let unit = double_unit(n);
    lemma_double_unit(n);
    law_nearest_is_at_most_half_away(n, unit);
    if n < 0x20_0000_0000_0000 {
        assert(n / 1 == n && n % 1 == 0);
        assert(nearest(n, 1) == n);
    }
}

/// Whether a text tells a number of bytes in a unit with one decimal place: as a number of tenths
/// that is at most half a tenth of the unit away from it.
pub open spec fn tells_in_tenths(
    text: Seq<char>,
    n: nat,
    tenths: nat,
    unit: nat,
    name: Seq<char>,
) -> bool {
    &&& text == decimal(tenths / 10) + seq!['.'] + decimal(tenths % 10) + name
    &&& 2 * (tenths * unit) <= 20 * n + unit
    &&& 20 * n <= 2 * (tenths * unit) + unit
}

/// A size below 2 to the power of 53 is told in the largest of four units of which it holds at
/// least one: bytes, or a power of 1024 of them.
pub proof fn law_sizes_are_told_in_tenths(n: nat)
    requires
        n < 0x20_0000_0000_0000,
    ensures
        n < 1024 ==> exists|tenths: nat| #[trigger]
            tells_in_tenths(size_text(n), n, tenths, 1, " B"@),
        1024 <= n < 1048576 ==> exists|tenths: nat| #[trigger]
            tells_in_tenths(size_text(n), n, tenths, 1024, " KB"@),
        1048576 <= n < 1073741824 ==> exists|tenths: nat| #[trigger]
            tells_in_tenths(size_text(n), n, tenths, 1048576, " MB"@),
        1073741824 <= n ==> exists|tenths: nat| #[trigger]
            tells_in_tenths(size_text(n), n, tenths, 1073741824, " GB"@),
{
    reveal_strlit(".");
    assert("."@ =~= seq!['.']);
    law_doubles_are_close(n);
    if n < 1024 {
        assert((n * 10) * 1 == n * 10);
        assert(tells_in_tenths(size_text(n), n, n * 10, 1, " B"@));
    } else if n < 1048576 {
        let tenths = nearest(n * 10, 1024);
        law_nearest_is_at_most_half_away(n * 10, 1024);
        assert(tells_in_tenths(size_text(n), n, tenths, 1024, " KB"@));
    } else if n < 1073741824 {
        let tenths = nearest(n * 10, 1048576);
        law_nearest_is_at_most_half_away(n * 10, 1048576);
        assert(tells_in_tenths(size_text(n), n, tenths, 1048576, " MB"@));
    } else {
        let tenths = nearest(n * 10, 1073741824);
        law_nearest_is_at_most_half_away(n * 10, 1073741824);
        assert(tells_in_tenths(size_text(n), n, tenths, 1073741824, " GB"@));
    }
}

/// An average is told as the integer that is nearest to it, and as 0 where there are no pages.
pub proof fn law_averages_are_told_as_integers(average: Average)
    ensures
        average.pages == 0 ==> average_text(average) == decimal(0),
        average.pages > 0 ==> exists|r: nat| #[trigger]
            decimal(r) == average_text(average) && 2 * (r * average.pages) <= 2 * average.chars
                + average.pages && 2 * average.chars <= 2 * (r * average.pages) + average.pages,
{
    if average.pages > 0 {
        let r = nearest(average.chars as nat, average.pages as nat);
        law_nearest_is_at_most_half_away(average.chars as nat, average.pages as nat);
        assert(decimal(r) == average_text(average));
        assert(r * (average.pages as nat) == r * average.pages);
    }
}

/// A chunk of a single page is told by its number, one of several by those of the first and the
/// last; pages are counted from 1.
pub proof fn law_pages_are_counted_from_one(start: nat, end: nat)
    requires
        start < end,
    ensures
        end == start + 1 ==> page_range_text(start as int, end as int) == seq!['第', ' '] + decimal(
            end,
        ) + seq![' ', '页'],
        end > start + 1 ==> page_range_text(start as int, end as int) == seq!['第', ' '] + decimal(
            (start + 1) as nat,
        ) + seq!['-'] + decimal(end) + seq![' ', '页'],
{
    reveal_strlit("第 ");
    reveal_strlit("-");
    reveal_strlit(" 页");
    assert("第 "@ =~= seq!['第', ' ']);
    assert("-"@ =~= seq!['-']);
    assert(" 页"@ =~= seq![' ', '页']);
}

/// A chunk is told by the name of its file, and in brackets by its pages, its size, the kind of
/// the document and the average of its characters, in this order.
pub proof fn law_chunks_are_told_in_order(
    file_name: Seq<char>,
    start: int,
    end: int,
    size: nat,
    pdf_type: Seq<char>,
    average: Average,
)
    ensures
        ({
            let told = chunk_info(file_name, start, end, size, pdf_type, average);
            let head = "  "@ + file_name + " ("@ + page_range_text(start, end) + ", "@ + size_text(
                size,
            );
            &&& head.is_prefix_of(told)
            &&& told.skip(head.len() as int) == ", "@ + pdf_type + ", 平均"@ + average_text(average)
                + "字/页)"@
        }),
{
    let told = chunk_info(file_name, start, end, size, pdf_type, average);
    let head = "  "@ + file_name + " ("@ + page_range_text(start, end) + ", "@ + size_text(size);
    let tail = ", "@ + pdf_type + ", 平均"@ + average_text(average) + "字/页)"@;
    assert(told =~= head + tail);
    assert(told.subrange(0, head.len() as int) =~= head);
    assert(told.skip(head.len() as int) =~= tail);
}

} // verus!
