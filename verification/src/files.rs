//! Which files are split, and what files are called.

use vstd::prelude::*;

use crate::images::ImageFormat;
use crate::text::{
    chars_of, decimal, decimal_padded, decimal_padded_text, decimal_text,
    law_decimal_is_injective, law_decimal_padded_is_injective,
};

verus! {

/// A character, in lower case if it is an ASCII letter.
pub open spec fn ascii_lower(c: char) -> char {
    if 'A' <= c && c <= 'Z' {
        (c as u32 + 32) as char
    } else {
        c
    }
}

/// Whether a text is `pdf`, in whatever case.
pub open spec fn names_pdf(extension: Option<Seq<char>>) -> bool {
    match extension {
        Some(text) => text.map_values(|c: char| ascii_lower(c)) == seq!['p', 'd', 'f'],
        None => false,
    }
}

/// The characters of a text that may be missing.
pub open spec fn str_view(text: Option<&str>) -> Option<Seq<char>> {
    match text {
        Some(t) => Some(t@),
        None => None,
    }
}

/// Whether a file with this extension is a PDF file.
pub fn is_pdf(extension: Option<&str>) -> (r: bool)
    ensures
        r == names_pdf(str_view(extension)),
        r == (extension matches Some(text) && text@.len() == 3 && (text@[0] == 'p' || text@[0]
            == 'P') && (text@[1] == 'd' || text@[1] == 'D') && (text@[2] == 'f' || text@[2]
            == 'F')),
{
    proof {
        law_pdf_files_have_three_letters(str_view(extension));
    }
    let text = match extension {
        Some(text) => text,
        None => return false,
    };
    let ghost lower = text@.map_values(|c: char| ascii_lower(c));
    let ghost expected = seq!['p', 'd', 'f'];
    if text.unicode_len() != 3 {
        assert(lower.len() != expected.len());
        return false;
    }
    let first = text.get_char(0);
    let second = text.get_char(1);
    let third = text.get_char(2);
    let same = (first == 'p' || first == 'P') && (second == 'd' || second == 'D') && (third == 'f'
        || third == 'F');
    assert(lower[0] == ascii_lower(first) && lower[1] == ascii_lower(second) && lower[2]
        == ascii_lower(third));
    assert(same ==> lower =~= expected);
    same
}

/// Whether `part` stands somewhere in `text`.
pub open spec fn has_part(text: Seq<char>, part: Seq<char>) -> bool {
    exists|i: int|
        0 <= i <= text.len() - part.len() && #[trigger] text.subrange(i, i + part.len()) == part
}

/// Whether `part` stands in `text` at index `at`.
fn stands_at(text: &Vec<char>, part: &Vec<char>, at: usize) -> (r: bool)
    requires
        at + part@.len() <= text@.len(),
    ensures
        r == (text@.subrange(at as int, at + part@.len()) == part@),
{
    let length: usize = text.len();
    let mut k: usize = 0;
    while k < part.len()
        invariant
            k <= part@.len(),
            at + part@.len() <= text@.len() == length,
            forall|j: int| 0 <= j < k ==> text@[at + j] == part@[j],
        decreases part.len() - k,
    {
        if text[at + k] != part[k] {
            assert(text@.subrange(at as int, at + part@.len())[k as int] != part@[k as int]);
            return false;
        }
        k += 1;
    }
    assert(text@.subrange(at as int, at + part@.len()) =~= part@);
    true
}

/// Whether `part` stands somewhere in `text`.
pub fn contains(text: &str, part: &str) -> (r: bool)
    ensures
        r == has_part(text@, part@),
{
    let whole = chars_of(text);
    let sought = chars_of(part);
    if sought.len() > whole.len() {
        return false;
    }
    let last: usize = whole.len() - sought.len();
    let mut i: usize = 0;
    while i <= last
        invariant
            whole@ == text@,
            sought@ == part@,
            sought@.len() <= whole@.len(),
            last == whole@.len() - sought@.len(),
            i <= last + 1,
            forall|j: int|
                0 <= j < i ==> #[trigger] text@.subrange(j, j + part@.len()) != part@,
        decreases last + 1 - i,
    {
        if stands_at(&whole, &sought, i) {
            assert(text@.subrange(i as int, i + part@.len()) == part@);
            return true;
        }
        if i == last {
            return false;
        }
        i += 1;
    }
    false
}

/// What the stem of a chunk's file is marked with.
pub open spec fn part_mark() -> Seq<char> {
    "_part"@
}

/// Whether a file with this extension and stem is offered for splitting: it is a
/// PDF file, and not itself a chunk.
pub open spec fn is_candidate(extension: Option<Seq<char>>, stem: Seq<char>) -> bool {
    names_pdf(extension) && !has_part(stem, part_mark())
}

/// Whether a file with this extension and stem is offered for splitting: it is a
/// PDF file, and not itself a chunk.
pub fn is_pdf_candidate(extension: Option<&str>, stem: &str) -> (r: bool)
    ensures
        r == is_candidate(str_view(extension), stem@),
        r == ((extension matches Some(text) && text@.len() == 3 && (text@[0] == 'p' || text@[0]
            == 'P') && (text@[1] == 'd' || text@[1] == 'D') && (text@[2] == 'f' || text@[2]
            == 'F')) && !(exists|i: int|
            0 <= i <= stem@.len() - 5 && #[trigger] stem@[i] == '_' && stem@[i + 1] == 'p'
                && stem@[i + 2] == 'a' && stem@[i + 3] == 'r' && stem@[i + 4] == 't')),
{
    proof {
        law_candidates_are_unmarked_pdf_files(str_view(extension), stem@);
    }
    is_pdf(extension) && !contains(stem, "_part")
}

/// The stem of the file for a chunk.
pub open spec fn part_stem(stem: Seq<char>, part: nat) -> Seq<char> {
    stem + part_mark() + decimal(part)
}

/// The name of the file for a chunk.
pub open spec fn part_name(stem: Seq<char>, part: nat) -> Seq<char> {
    part_stem(stem, part) + ".pdf"@
}

/// The name of the file for a chunk.
pub fn part_file_name(stem: &str, part: u32) -> (name: String)
    ensures
        name@ == part_name(stem@, part as nat),
{
    let mut name = stem.to_owned();
    name.append("_part");
    name.append(decimal_text(part as u128).as_str());
    name.append(".pdf");
    name
}

/// The extension of the file for an image.
pub open spec fn extension_of(format: ImageFormat) -> Seq<char> {
    match format {
        ImageFormat::Jpg => ".jpg"@,
        ImageFormat::Jp2 => ".jp2"@,
        ImageFormat::Tif => ".tif"@,
    }
}

/// The name of the file for an image.
pub open spec fn image_name(stem: Seq<char>, number: nat, format: ImageFormat) -> Seq<char> {
    stem + "_"@ + decimal_padded(number) + extension_of(format)
}

/// The name of the file for an image.
pub fn image_file_name(stem: &str, number: usize, format: ImageFormat) -> (name: String)
    ensures
        name@ == image_name(stem@, number as nat, format),
{
    let mut name = stem.to_owned();
    name.append("_");
    name.append(decimal_padded_text(number as u128).as_str());
    match format {
        ImageFormat::Jpg => name.append(".jpg"),
        ImageFormat::Jp2 => name.append(".jp2"),
        ImageFormat::Tif => name.append(".tif"),
    }
    name
}

/// A file name cut down for display: the whole name where the stem has at most
/// `max` characters, and else the beginning of the stem and the extension.
pub open spec fn truncated_name(
    full_name: Seq<char>,
    stem: Seq<char>,
    extension: Option<Seq<char>>,
    max: nat,
) -> Seq<char> {
    if stem.len() <= max {
        full_name
    } else {
        match extension {
            Some(text) => if text.len() > 0 {
                stem.take(max as int) + "...."@ + text
            } else {
                stem.take(max as int) + "..."@
            },
            None => stem.take(max as int) + "..."@,
        }
    }
}

/// Cuts a file name down for display.
pub fn truncate_file_name(
    full_name: &str,
    stem: &str,
    extension: Option<&str>,
    max_stem_chars: usize,
) -> (r: String)
    ensures
        r@ == truncated_name(full_name@, stem@, str_view(extension), max_stem_chars as nat),
{
    if stem.unicode_len() <= max_stem_chars {
        return full_name.to_owned();
    }
    let mut name = stem.substring_char(0, max_stem_chars).to_owned();
    assert(name@ =~= stem@.take(max_stem_chars as int));
    match extension {
        Some(text) => {
            if text.unicode_len() > 0 {
                name.append("....");
                name.append(text);
            } else {
                name.append("...");
            }
        },
        None => name.append("..."),
    }
    name
}

/// What stands between a beginning and an end is determined by the whole.
proof fn lemma_middle(head: Seq<char>, a: Seq<char>, b: Seq<char>, x: Seq<char>, y: Seq<char>)
    requires
        head + a + x == head + b + y,
        x.len() == y.len(),
    ensures
        a == b,
{
    let whole = head + a + x;
    assert(whole.len() == head.len() + a.len() + x.len());
    assert((head + b + y).len() == head.len() + b.len() + y.len());
    assert(a =~= whole.subrange(head.len() as int, (head.len() + a.len()) as int));
    assert(b =~= (head + b + y).subrange(head.len() as int, (head.len() + b.len()) as int));
}

/// The files for the chunks of a document have different names.
pub proof fn law_part_names_are_distinct(stem: Seq<char>, a: nat, b: nat)
    requires
        part_name(stem, a) == part_name(stem, b),
    ensures
        a == b,
{
    lemma_middle(stem + part_mark(), decimal(a), decimal(b), ".pdf"@, ".pdf"@);
    law_decimal_is_injective(a, b);
}

/// The files for the images of a document have different names, whatever their
/// formats.
pub proof fn law_image_names_are_distinct(
    stem: Seq<char>,
    a: nat,
    b: nat,
    a_format: ImageFormat,
    b_format: ImageFormat,
)
    requires
        image_name(stem, a, a_format) == image_name(stem, b, b_format),
    ensures
        a == b,
{
    reveal_strlit(".jpg");
    reveal_strlit(".jp2");
    reveal_strlit(".tif");
    lemma_middle(
        stem + "_"@,
        decimal_padded(a),
        decimal_padded(b),
        extension_of(a_format),
        extension_of(b_format),
    );
    law_decimal_padded_is_injective(a, b);
}

/// A chunk is never offered for splitting again.
pub proof fn law_chunks_are_no_candidates(
    extension: Option<Seq<char>>,
    stem: Seq<char>,
    part: nat,
)
    ensures
        !is_candidate(extension, part_stem(stem, part)),
{
    let chunk = part_stem(stem, part);
    let at = stem.len() as int;
    assert(chunk.subrange(at, at + part_mark().len()) =~= part_mark());
    assert(has_part(chunk, part_mark()));
}

/// A file is a PDF file exactly if its extension is the three letters p, d and f, each of
/// them in either case.
pub proof fn law_pdf_files_have_three_letters(extension: Option<Seq<char>>)
    ensures
        names_pdf(extension) <==> (extension matches Some(text) && text.len() == 3 && (text[0]
            == 'p' || text[0] == 'P') && (text[1] == 'd' || text[1] == 'D') && (text[2] == 'f'
            || text[2] == 'F')),
{
    if let Some(text) = extension {
        let lower = text.map_values(|c: char| ascii_lower(c));
        let expected = seq!['p', 'd', 'f'];
        if names_pdf(extension) {
            assert(lower.len() == 3);
            assert(lower[0] == 'p' && lower[1] == 'd' && lower[2] == 'f');
        }
        if text.len() == 3 && (text[0] == 'p' || text[0] == 'P') && (text[1] == 'd' || text[1]
            == 'D') && (text[2] == 'f' || text[2] == 'F') {
            assert(lower =~= expected);
        }
    }
}

/// A file is offered for splitting exactly if it is a PDF file and the five characters `_`,
/// `p`, `a`, `r` and `t` do not follow one another anywhere in its stem.
pub proof fn law_candidates_are_unmarked_pdf_files(extension: Option<Seq<char>>, stem: Seq<char>)
    ensures
        is_candidate(extension, stem) <==> (extension matches Some(text) && text.len() == 3 && (
        text[0] == 'p' || text[0] == 'P') && (text[1] == 'd' || text[1] == 'D') && (text[2] == 'f'
            || text[2] == 'F')) && !(exists|i: int|
            0 <= i <= stem.len() - 5 && #[trigger] stem[i] == '_' && stem[i + 1] == 'p' && stem[i
                + 2] == 'a' && stem[i + 3] == 'r' && stem[i + 4] == 't'),
{
    law_pdf_files_have_three_letters(extension);
    reveal_strlit("_part");
    let mark = part_mark();
    if has_part(stem, mark) {
        let i = choose|i: int|
            0 <= i <= stem.len() - mark.len() && #[trigger] stem.subrange(i, i + mark.len())
                == mark;
        let found = stem.subrange(i, i + mark.len());
        assert(found[0] == stem[i] && found[1] == stem[i + 1] && found[2] == stem[i + 2]
            && found[3] == stem[i + 3] && found[4] == stem[i + 4]);
    }
    if exists|i: int|
        0 <= i <= stem.len() - 5 && #[trigger] stem[i] == '_' && stem[i + 1] == 'p' && stem[i + 2]
            == 'a' && stem[i + 3] == 'r' && stem[i + 4] == 't' {
        let i = choose|i: int|
            0 <= i <= stem.len() - 5 && #[trigger] stem[i] == '_' && stem[i + 1] == 'p' && stem[i
                + 2] == 'a' && stem[i + 3] == 'r' && stem[i + 4] == 't';
        assert(stem.subrange(i, i + mark.len()) =~= mark);
    }
}

/// The name of a chunk's file is the stem of the document's, the characters `_part`, the
/// number in decimal digits, and `.pdf`.
pub proof fn law_part_names_begin_with_the_stem(stem: Seq<char>, part: nat)
    ensures
        part_name(stem, part) == stem + seq!['_', 'p', 'a', 'r', 't'] + decimal(part) + seq![
            '.',
            'p',
            'd',
            'f',
        ],
{
    reveal_strlit("_part");
    reveal_strlit(".pdf");
    assert("_part"@ =~= seq!['_', 'p', 'a', 'r', 't']);
    assert(".pdf"@ =~= seq!['.', 'p', 'd', 'f']);
}

/// The name of an image's file is the stem of the document's, a low line, the number in
/// decimal digits, and an extension that follows the format.
pub proof fn law_image_names_end_with_the_format(stem: Seq<char>, number: nat)
    ensures
        image_name(stem, number, ImageFormat::Jpg) == stem + seq!['_'] + decimal_padded(number)
            + seq!['.', 'j', 'p', 'g'],
        image_name(stem, number, ImageFormat::Jp2) == stem + seq!['_'] + decimal_padded(number)
            + seq!['.', 'j', 'p', '2'],
        image_name(stem, number, ImageFormat::Tif) == stem + seq!['_'] + decimal_padded(number)
            + seq!['.', 't', 'i', 'f'],
{
    reveal_strlit("_");
    reveal_strlit(".jpg");
    reveal_strlit(".jp2");
    reveal_strlit(".tif");
    assert("_"@ =~= seq!['_']);
    assert(".jpg"@ =~= seq!['.', 'j', 'p', 'g']);
    assert(".jp2"@ =~= seq!['.', 'j', 'p', '2']);
    assert(".tif"@ =~= seq!['.', 't', 'i', 'f']);
}

/// A name is displayed whole where its stem is short enough. Of a longer one the beginning of
/// the stem is displayed, then three dots, and then the extension after a dot of its own.
pub proof fn law_long_names_are_cut(
    full_name: Seq<char>,
    stem: Seq<char>,
    extension: Option<Seq<char>>,
    max: nat,
)
    ensures
        ({
            let shown = truncated_name(full_name, stem, extension, max);
            let tail = extension matches Some(text) && text.len() > 0;
            &&& stem.len() <= max ==> shown == full_name
            &&& stem.len() > max ==> {
                &&& shown.subrange(0, max as int) == stem.subrange(0, max as int)
                &&& shown.subrange(max as int, (max + 3) as int) == seq!['.', '.', '.']
                &&& tail ==> shown.subrange((max + 3) as int, shown.len() as int) == seq!['.']
                    + extension->Some_0
                &&& !tail ==> shown.len() == max + 3
            }
        }),
{
    reveal_strlit("...");
    reveal_strlit("....");
    if stem.len() > max {
        let shown = truncated_name(full_name, stem, extension, max);
        assert(shown.subrange(0, max as int) =~= stem.subrange(0, max as int));
        assert(shown.subrange(max as int, (max + 3) as int) =~= seq!['.', '.', '.']);
        if let Some(text) = extension {
            if text.len() > 0 {
                assert(shown.subrange((max + 3) as int, shown.len() as int) =~= seq!['.'] + text);
            }
        }
    }
}

} // verus!
