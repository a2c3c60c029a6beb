//! The language of the messages.

use vstd::prelude::*;

use crate::files::str_view;
use crate::text::{chars_of, is_white_space, same_text};

verus! {

/// The language that a value of the language option names.
pub open spec fn named_language(value: Seq<char>) -> Option<Seq<char>> {
    if value == "zh"@ || value == "cn"@ || value == "chinese"@ {
        Some("zh"@)
    } else if value == "en"@ || value == "english"@ {
        Some("en"@)
    } else {
        None
    }
}

/// Whether an argument is the language option, which takes the argument after it
/// for its value.
pub open spec fn is_lang_flag(arg: Seq<char>) -> bool {
    arg == "--lang"@ || arg == "-l"@
}

/// The language that the arguments name: that of the first language option whose
/// value is known.
pub open spec fn lang_in(args: Seq<Seq<char>>) -> Option<Seq<char>>
    decreases args.len(),
{
    if args.len() < 2 {
        None
    } else if is_lang_flag(args[0]) && named_language(args[1]) is Some {
        named_language(args[1])
    } else {
        lang_in(args.drop_first())
    }
}

/// The characters of texts.
pub open spec fn texts(args: Seq<String>) -> Seq<Seq<char>> {
    args.map_values(|arg: String| arg@)
}

/// The characters of a text that may be missing.
pub open spec fn static_view(text: Option<&'static str>) -> Option<Seq<char>> {
    match text {
        Some(t) => Some(t@),
        None => None,
    }
}

/// The language that a value of the language option names.
fn language_named(value: &str) -> (r: Option<&'static str>)
    ensures
        static_view(r) == named_language(value@),
{
    if same_text(value, "zh") || same_text(value, "cn") || same_text(value, "chinese") {
        Some("zh")
    } else if same_text(value, "en") || same_text(value, "english") {
        Some("en")
    } else {
        None
    }
}

/// Whether an argument is the language option.
fn test_lang_flag(arg: &str) -> (r: bool)
    ensures
        r == is_lang_flag(arg@),
{
    same_text(arg, "--lang") || same_text(arg, "-l")
}

/// The language that the arguments name, if any.
pub fn parse_lang_arg(args: &Vec<String>) -> (lang: Option<&'static str>)
    ensures
        static_view(lang) == lang_in(texts(args@)),
{
    let ghost all = texts(args@);
    let mut i: usize = 0;
    assert(all.skip(0) =~= all);
    while i < args.len() && args.len() - i >= 2
        invariant
            i <= args@.len(),
            all == texts(args@),
            lang_in(all) == lang_in(all.skip(i as int)),
        decreases args.len() - i,
    {
        assert(all.skip(i as int)[0] == args@[i as int]@);
        assert(all.skip(i as int)[1] == args@[i + 1]@);
        if test_lang_flag(args[i].as_str()) {
            match language_named(args[i + 1].as_str()) {
                Some(lang) => return Some(lang),
                None => {},
            }
        }
        assert(all.skip(i as int).drop_first() =~= all.skip(i + 1));
        i += 1;
    }
    None
}

/// How many arguments there are besides the language option and its value.
pub open spec fn other_args(args: Seq<Seq<char>>) -> nat
    decreases args.len(),
{
    if args.len() == 0 {
        0
    } else if is_lang_flag(args[0]) {
        if args.len() < 2 {
            0
        } else {
            other_args(args.skip(2))
        }
    } else {
        1 + other_args(args.drop_first())
    }
}

/// How many arguments there are besides the language option and its value.
pub fn count_non_lang_args(args: &Vec<String>) -> (count: usize)
    ensures
        count == other_args(texts(args@)),
{
    let ghost all = texts(args@);
    let mut count: usize = 0;
    let mut i: usize = 0;
    assert(all.skip(0) =~= all);
    while i < args.len()
        invariant
            i <= args@.len(),
            count <= i,
            all == texts(args@),
            other_args(all) == count + other_args(all.skip(i as int)),
        decreases args.len() - i,
    {
        let ghost rest = all.skip(i as int);
        assert(rest[0] == args@[i as int]@);
        if test_lang_flag(args[i].as_str()) {
            if args.len() - i < 2 {
                return count;
            }
            assert(rest.skip(2) =~= all.skip(i + 2));
            i += 2;
        } else {
            assert(rest.drop_first() =~= all.skip(i + 1));
            count += 1;
            i += 1;
        }
    }
    count
}

/// A text without the white space at its ends.
pub open spec fn trimmed(text: Seq<char>) -> Seq<char>
    decreases text.len(),
{
    if text.len() == 0 {
        text
    } else if is_white_space(text[0]) {
        trimmed(text.drop_first())
    } else if is_white_space(text.last()) {
        trimmed(text.drop_last())
    } else {
        text
    }
}

/// The language that was saved, if it is one of those that there are.
pub open spec fn saved_language(text: Option<Seq<char>>) -> Option<Seq<char>> {
    match text {
        Some(t) => if trimmed(t) == seq!['z', 'h'] {
            Some("zh"@)
        } else if trimmed(t) == seq!['e', 'n'] {
            Some("en"@)
        } else {
            None
        },
        None => None,
    }
}

/// The language that was saved: the text of the file that it is saved in, where
/// that could be read, white space at its ends aside.
pub fn load_saved_locale(text: Option<&str>) -> (lang: Option<&'static str>)
    ensures
        static_view(lang) == saved_language(str_view(text)),
{
    let saved = match text {
        Some(saved) => saved,
        None => return None,
    };
    let chars = chars_of(saved);
    let mut start: usize = 0;
    let mut end: usize = chars.len();
    assert(chars@.subrange(0, chars@.len() as int) =~= chars@);
    while start < end && (chars[start].is_whitespace() || chars[end - 1].is_whitespace())
        invariant
            start <= end <= chars@.len(),
            trimmed(chars@) == trimmed(chars@.subrange(start as int, end as int)),
        decreases end - start,
    {
        let ghost rest = chars@.subrange(start as int, end as int);
        assert(rest.drop_first() =~= chars@.subrange(start + 1, end as int));
        assert(rest.drop_last() =~= chars@.subrange(start as int, end - 1));
        if chars[start].is_whitespace() {
            start += 1;
        } else {
            end -= 1;
        }
    }
    let ghost rest = chars@.subrange(start as int, end as int);
    assert(trimmed(rest) == rest);
    if end - start == 2 {
        assert(rest =~= seq![chars@[start as int], chars@[start + 1]]);
        if chars[start] == 'z' && chars[start + 1] == 'h' {
            return Some("zh");
        }
        if chars[start] == 'e' && chars[start + 1] == 'n' {
            assert(rest[0] != seq!['z', 'h'][0]);
            return Some("en");
        }
        assert(rest != seq!['z', 'h']) by {
            assert(seq!['z', 'h'][0] == 'z' && seq!['z', 'h'][1] == 'h');
        }
        assert(rest != seq!['e', 'n']) by {
            assert(seq!['e', 'n'][0] == 'e' && seq!['e', 'n'][1] == 'n');
        }
    } else {
        assert(rest.len() != seq!['z', 'h'].len());
    }
    None
}

/// A text in lower case.
pub uninterp spec fn lowercase(text: Seq<char>) -> Seq<char>;

/// `str::to_lowercase`: the text in lower case, by Unicode's rules.
pub assume_specification[ str::to_lowercase ](text: &str) -> (r: String)
    ensures
        r@ == lowercase(text@),
;

/// The language that an environment variable stands for, by its value in lower
/// case: Chinese for one that begins with `zh`, English for any other, and none
/// where it is empty.
pub open spec fn language_by_value(lowered: Seq<char>) -> Option<Seq<char>> {
    if lowered.len() >= 2 && lowered[0] == 'z' && lowered[1] == 'h' {
        Some("zh"@)
    } else if lowered.len() > 0 {
        Some("en"@)
    } else {
        None
    }
}

/// The language that an environment variable stands for, by its value in lower
/// case.
pub fn language_of_value(lowered: &str) -> (lang: Option<&'static str>)
    ensures
        static_view(lang) == language_by_value(lowered@),
{
    let length: usize = lowered.unicode_len();
    if length == 0 {
        return None;
    }
    if length >= 2 && lowered.get_char(0) == 'z' && lowered.get_char(1) == 'h' {
        return Some("zh");
    }
    Some("en")
}

/// The language of the user interface, by the system's number for it: its lowest
/// ten bits are those of the language without its region, and 4 is Chinese.
pub open spec fn language_by_id(lang_id: u16) -> Seq<char> {
    if lang_id % 1024 == 4 {
        "zh"@
    } else {
        "en"@
    }
}

/// The language of the user interface, by the system's number for it.
pub fn windows_ui_language(lang_id: u16) -> (lang: &'static str)
    ensures
        lang@ == language_by_id(lang_id),
{
    assert(lang_id & 0x3FF == lang_id % 1024) by (bit_vector);
    if lang_id & 0x3FF == 4 {
        "zh"
    } else {
        "en"
    }
}

/// The language that the environment variables stand for: that of the first that
/// is set and not empty, and English where there is none.
pub open spec fn language_in_environment(values: Seq<Option<String>>) -> Seq<char>
    decreases values.len(),
{
    if values.len() == 0 {
        "en"@
    } else {
        match values[0] {
            Some(value) => match language_by_value(lowercase(value@)) {
                Some(lang) => lang,
                None => language_in_environment(values.drop_first()),
            },
            None => language_in_environment(values.drop_first()),
        }
    }
}

/// The language of the system: by the number of the user interface's language where
/// the system has one, and else by the values of the environment variables, in the
/// order in which they count.
pub fn detect_language(ui_language: Option<u16>, values: &Vec<Option<String>>) -> (lang:
    &'static str)
    ensures
        lang@ == match ui_language {
            Some(id) => language_by_id(id),
            None => language_in_environment(values@),
        },
{
    match ui_language {
        Some(id) => return windows_ui_language(id),
        None => {},
    }
    let mut i: usize = 0;
    assert(values@.skip(0) =~= values@);
    while i < values.len()
        invariant
            i <= values@.len(),
            ui_language is None,
            language_in_environment(values@) == language_in_environment(values@.skip(i as int)),
        decreases values.len() - i,
    {
        let ghost rest = values@.skip(i as int);
        assert(rest[0] == values@[i as int]);
        assert(rest.drop_first() =~= values@.skip(i + 1));
        match &values[i] {
            Some(value) => match language_of_value(value.as_str().to_lowercase().as_str()) {
                Some(lang) => return lang,
                None => {},
            },
            None => {},
        }
        i += 1;
    }
    "en"
}

/// The language to begin with: the one that was saved, and else that of the system.
pub fn init_locale(
    saved: Option<&str>,
    ui_language: Option<u16>,
    values: &Vec<Option<String>>,
) -> (lang: &'static str)
    ensures
        lang@ == match saved_language(str_view(saved)) {
            Some(chosen) => chosen,
            None => match ui_language {
                Some(id) => language_by_id(id),
                None => language_in_environment(values@),
            },
        },
{
    match load_saved_locale(saved) {
        Some(lang) => lang,
        None => detect_language(ui_language, values),
    }
}

/// Whatever the arguments, the saved text and the environment are, the language is
/// one of the two that there are.
pub proof fn law_there_are_two_languages(
    args: Seq<Seq<char>>,
    saved: Option<Seq<char>>,
    lang_id: u16,
    values: Seq<Option<String>>,
)
    ensures
        lang_in(args) matches Some(lang) ==> lang == "zh"@ || lang == "en"@,
        saved_language(saved) matches Some(lang) ==> lang == "zh"@ || lang == "en"@,
        language_by_id(lang_id) == "zh"@ || language_by_id(lang_id) == "en"@,
        language_in_environment(values) == "zh"@ || language_in_environment(values) == "en"@,
    decreases args.len() + values.len(),
{
    if args.len() > 0 {
        law_there_are_two_languages(args.drop_first(), saved, lang_id, values);
    }
    if values.len() > 0 {
        law_there_are_two_languages(args, saved, lang_id, values.drop_first());
    }
}

/// What is saved is read back, whatever white space an editor puts after it.
pub proof fn law_saved_language_is_read_back(after: Seq<char>)
    requires
        forall|i: int| 0 <= i < after.len() ==> is_white_space(#[trigger] after[i]),
    ensures
        saved_language(Some("zh"@ + after)) == Some("zh"@),
        saved_language(Some("en"@ + after)) == Some("en"@),
    decreases after.len(),
{
    reveal_strlit("zh");
    reveal_strlit("en");
    assert("zh"@ =~= seq!['z', 'h']);
    assert("en"@ =~= seq!['e', 'n']);
    assert(seq!['e', 'n'][0] != seq!['z', 'h'][0]);
    let zh = "zh"@ + after;
    let en = "en"@ + after;
    if after.len() > 0 {
        law_saved_language_is_read_back(after.drop_last());
        assert(zh.drop_last() =~= "zh"@ + after.drop_last());
        assert(en.drop_last() =~= "en"@ + after.drop_last());
        assert(zh.last() == after.last());
        assert(en.last() == after.last());
    } else {
        assert(zh =~= "zh"@);
        assert(en =~= "en"@);
    }
}

/// The values `zh`, `cn` and `chinese` name Chinese, `en` and `english` name English, and no
/// other value names a language.
pub proof fn law_five_values_name_a_language(value: Seq<char>)
    ensures
        named_language(value) == Some(seq!['z', 'h']) <==> value == seq!['z', 'h'] || value == seq![
            'c',
            'n',
        ] || value == seq!['c', 'h', 'i', 'n', 'e', 's', 'e'],
        named_language(value) == Some(seq!['e', 'n']) <==> value == seq!['e', 'n'] || value == seq![
            'e',
            'n',
            'g',
            'l',
            'i',
            's',
            'h',
        ],
        named_language(value) matches Some(lang) ==> lang == seq!['z', 'h'] || lang == seq![
            'e',
            'n',
        ],
{
    reveal_strlit("zh");
    reveal_strlit("cn");
    reveal_strlit("chinese");
    reveal_strlit("en");
    reveal_strlit("english");
    assert("zh"@ =~= seq!['z', 'h']);
    assert("cn"@ =~= seq!['c', 'n']);
    assert("chinese"@ =~= seq!['c', 'h', 'i', 'n', 'e', 's', 'e']);
    assert("en"@ =~= seq!['e', 'n']);
    assert("english"@ =~= seq!['e', 'n', 'g', 'l', 'i', 's', 'h']);
    assert(seq!['z', 'h'][0] != seq!['e', 'n'][0]);
    assert(seq!['c', 'n'][0] != seq!['e', 'n'][0]);
    assert(seq!['c', 'h', 'i', 'n', 'e', 's', 'e'][0] != seq!['e', 'n'][0]);
    assert(seq!['z', 'h'][0] != seq!['e', 'n', 'g', 'l', 'i', 's', 'h'][0]);
    assert(seq!['c', 'n'][0] != seq!['e', 'n', 'g', 'l', 'i', 's', 'h'][0]);
    assert(seq!['c', 'h', 'i', 'n', 'e', 's', 'e'][0] != seq![
        'e',
        'n',
        'g',
        'l',
        'i',
        's',
        'h',
    ][0]);
}

/// The language option is written `--lang` or `-l`.
pub proof fn law_the_language_option_has_two_forms(arg: Seq<char>)
    ensures
        is_lang_flag(arg) <==> arg == seq!['-', '-', 'l', 'a', 'n', 'g'] || arg == seq!['-', 'l'],
{
    reveal_strlit("--lang");
    reveal_strlit("-l");
    assert("--lang"@ =~= seq!['-', '-', 'l', 'a', 'n', 'g']);
    assert("-l"@ =~= seq!['-', 'l']);
}

/// Whether a known value of the language option follows the argument at `i`.
pub open spec fn names_at(args: Seq<Seq<char>>, i: int) -> bool {
    is_lang_flag(args[i]) && named_language(args[i + 1]) is Some
}

/// The arguments name a language exactly if a known value follows the language option somewhere
/// among them, and the first such value decides.
pub proof fn law_the_first_known_language_counts(args: Seq<Seq<char>>)
    ensures
        lang_in(args) is None <==> forall|i: int|
            0 <= i < args.len() - 1 ==> !#[trigger] names_at(args, i),
        lang_in(args) is Some ==> exists|i: int|
            0 <= i < args.len() - 1 && #[trigger] names_at(args, i) && lang_in(args)
                == named_language(args[i + 1]) && forall|j: int|
                0 <= j < i ==> !#[trigger] names_at(args, j),
    decreases args.len(),
{
    if args.len() >= 2 {
        let rest = args.drop_first();
        law_the_first_known_language_counts(rest);
        assert forall|i: int| 0 <= i < rest.len() - 1 implies #[trigger] names_at(rest, i)
            == names_at(args, i + 1) by {
            assert(rest[i] == args[i + 1] && rest[i + 1] == args[i + 2]);
        }
        if names_at(args, 0) {
            assert(lang_in(args) == named_language(args[1]));
        } else if lang_in(rest) is Some {
            let i = choose|i: int|
                0 <= i < rest.len() - 1 && #[trigger] names_at(rest, i) && lang_in(rest)
                    == named_language(rest[i + 1]) && forall|j: int|
                    0 <= j < i ==> !#[trigger] names_at(rest, j);
            assert(names_at(args, i + 1));
            assert(rest[i + 1] == args[i + 2]);
            assert forall|j: int| 0 <= j < i + 1 implies !#[trigger] names_at(args, j) by {
                if j > 0 {
                    assert(!names_at(rest, j - 1));
                }
            }
        } else {
            assert forall|i: int| 0 <= i < args.len() - 1 implies !#[trigger] names_at(
                args,
                i,
            ) by {
                if i > 0 {
                    assert(!names_at(rest, i - 1));
                }
            }
        }
    }
}

/// The language option and the argument after it do not count, and every other argument does.
pub proof fn law_the_language_option_does_not_count(
    flag: Seq<char>,
    value: Seq<char>,
    rest: Seq<Seq<char>>,
)
    ensures
        is_lang_flag(flag) ==> other_args(seq![flag, value] + rest) == other_args(rest),
        is_lang_flag(flag) ==> other_args(seq![flag]) == 0,
        !is_lang_flag(flag) ==> other_args(seq![flag] + rest) == 1 + other_args(rest),
        (forall|i: int| 0 <= i < rest.len() ==> !is_lang_flag(#[trigger] rest[i])) ==> other_args(
            rest,
        ) == rest.len(),
    decreases rest.len(),
{
    assert((seq![flag, value] + rest).skip(2) =~= rest);
    assert((seq![flag] + rest).drop_first() =~= rest);
    if rest.len() > 0 {
        law_the_language_option_does_not_count(flag, value, rest.drop_first());
        if forall|i: int| 0 <= i < rest.len() ==> !is_lang_flag(#[trigger] rest[i]) {
            assert forall|i: int| 0 <= i < rest.drop_first().len() implies !is_lang_flag(
                #[trigger] rest.drop_first()[i],
            ) by {
                assert(rest.drop_first()[i] == rest[i + 1]);
            }
            assert(!is_lang_flag(rest[0]));
        }
    }
}

/// Whether `part` is the part of a text from `i` up to but without `j`, with nothing but white
/// space before it and after it.
pub open spec fn is_core(text: Seq<char>, part: Seq<char>, i: int, j: int) -> bool {
    let white = |c: char| is_white_space(c);
    &&& 0 <= i <= j <= text.len()
    &&& part == text.subrange(i, j)
    &&& forall|k: int| 0 <= k < i ==> white(#[trigger] text[k])
    &&& forall|k: int| j <= k < text.len() ==> white(#[trigger] text[k])
}

/// A part of a text stays such a part after one more character of white space before it.
proof fn lemma_core_after_white(text: Seq<char>, part: Seq<char>, i: int, j: int)
    requires
        text.len() > 0,
        (|c: char| is_white_space(c))(text[0]),
        is_core(text.drop_first(), part, i, j),
    ensures
        is_core(text, part, i + 1, j + 1),
{
    let white = |c: char| is_white_space(c);
    let rest = text.drop_first();
    assert(text.subrange(i + 1, j + 1) =~= rest.subrange(i, j));
    assert forall|k: int| 0 <= k < i + 1 implies white(#[trigger] text[k]) by {
        if k > 0 {
            assert(white(rest[k - 1]));
        }
    }
    assert forall|k: int| j + 1 <= k < text.len() implies white(#[trigger] text[k]) by {
        assert(white(rest[k - 1]));
    }
}

/// A part of a text stays such a part before one more character of white space after it.
proof fn lemma_core_before_white(text: Seq<char>, part: Seq<char>, i: int, j: int)
    requires
        text.len() > 0,
        (|c: char| is_white_space(c))(text.last()),
        is_core(text.drop_last(), part, i, j),
    ensures
        is_core(text, part, i, j),
{
    let white = |c: char| is_white_space(c);
    let rest = text.drop_last();
    assert(text.subrange(i, j) =~= rest.subrange(i, j));
    assert forall|k: int| 0 <= k < i implies white(#[trigger] text[k]) by {
        assert(white(rest[k]));
    }
    assert forall|k: int| j <= k < text.len() implies white(#[trigger] text[k]) by {
        if k < rest.len() {
            assert(white(rest[k]));
        }
    }
}

/// What is left of a text without the white space at its ends is a part of it, with nothing but
/// white space before it and after it, and with none at its own ends.
pub proof fn law_trimming_takes_white_space_off_the_ends(text: Seq<char>)
    ensures
        exists|i: int, j: int| #[trigger] is_core(text, trimmed(text), i, j),
        trimmed(text).len() > 0 ==> !is_white_space(trimmed(text)[0]) && !is_white_space(
            trimmed(text).last(),
        ),
    decreases text.len(),
{
    if text.len() > 0 && is_white_space(text[0]) {
        let rest = text.drop_first();
        law_trimming_takes_white_space_off_the_ends(rest);
        let (i, j) = choose|i: int, j: int| #[trigger] is_core(rest, trimmed(rest), i, j);
        lemma_core_after_white(text, trimmed(rest), i, j);
        assert(trimmed(text) == trimmed(rest));
        assert(is_core(text, trimmed(text), i + 1, j + 1));
    } else if text.len() > 0 && is_white_space(text.last()) {
        let rest = text.drop_last();
        law_trimming_takes_white_space_off_the_ends(rest);
        let (i, j) = choose|i: int, j: int| #[trigger] is_core(rest, trimmed(rest), i, j);
        lemma_core_before_white(text, trimmed(rest), i, j);
        assert(trimmed(text) == trimmed(rest));
        assert(is_core(text, trimmed(text), i, j));
    } else {
        assert(text.subrange(0, text.len() as int) =~= text);
        assert(trimmed(text) == text);
        assert(is_core(text, trimmed(text), 0, text.len() as int));
    }
}

/// A saved text stands for Chinese exactly if it is `zh` without the white space at its ends, and
/// for English exactly if it is `en`.
pub proof fn law_saved_languages_have_two_letters(text: Seq<char>)
    ensures
        saved_language(None) is None,
        saved_language(Some(text)) == Some(seq!['z', 'h']) <==> trimmed(text) == seq!['z', 'h'],
        saved_language(Some(text)) == Some(seq!['e', 'n']) <==> trimmed(text) == seq!['e', 'n'],
        saved_language(Some(text)) is Some ==> trimmed(text) == seq!['z', 'h'] || trimmed(text)
            == seq!['e', 'n'],
{
    reveal_strlit("zh");
    reveal_strlit("en");
    assert("zh"@ =~= seq!['z', 'h']);
    assert("en"@ =~= seq!['e', 'n']);
    assert(seq!['e', 'n'][0] != seq!['z', 'h'][0]);
}

/// A value that is not empty stands for a language: for Chinese exactly if it begins with the
/// letters z and h, and else for English.
pub proof fn law_values_begin_with_the_language(lowered: Seq<char>)
    ensures
        language_by_value(lowered) is None <==> lowered.len() == 0,
        language_by_value(lowered) == Some(seq!['z', 'h']) <==> lowered.len() >= 2 && lowered[0]
            == 'z' && lowered[1] == 'h',
        language_by_value(lowered) == Some(seq!['e', 'n']) <==> lowered.len() > 0 && !(lowered.len()
            >= 2 && lowered[0] == 'z' && lowered[1] == 'h'),
{
    reveal_strlit("zh");
    reveal_strlit("en");
    assert("zh"@ =~= seq!['z', 'h']);
    assert("en"@ =~= seq!['e', 'n']);
    assert(seq!['e', 'n'][0] != seq!['z', 'h'][0]);
}

/// The system's numbers for Chinese are 4 and those that come after it in steps of 1024. Every
/// other number stands for English.
pub proof fn law_every_1024th_number_is_chinese(lang_id: u16)
    ensures
        language_by_id(lang_id) == seq!['z', 'h'] <==> exists|region: int|
            lang_id == 4 + #[trigger] (1024 * region),
        language_by_id(lang_id) == seq!['z', 'h'] || language_by_id(lang_id) == seq!['e', 'n'],
{
    reveal_strlit("zh");
    reveal_strlit("en");
    assert("zh"@ =~= seq!['z', 'h']);
    assert("en"@ =~= seq!['e', 'n']);
    assert(seq!['e', 'n'][0] != seq!['z', 'h'][0]);
    if lang_id % 1024 == 4 {
        let region = lang_id as int / 1024;
        assert(lang_id == 4 + 1024 * region);
    }
}

/// The language that the environment stands for is that of the first variable that is set and
/// not empty, and English where there is none.
pub proof fn law_the_first_set_variable_counts(values: Seq<Option<String>>, i: int)
    requires
        0 <= i <= values.len(),
        forall|j: int|
            0 <= j < i ==> (#[trigger] values[j] matches Some(value) ==> lowercase(value@).len()
                == 0),
    ensures
        i < values.len() ==> (values[i] matches Some(value) ==> lowercase(value@).len() > 0 ==> (
        language_in_environment(values) == seq!['z', 'h'] <==> lowercase(value@).len() >= 2
            && lowercase(value@)[0] == 'z' && lowercase(value@)[1] == 'h')),
        i == values.len() ==> language_in_environment(values) == seq!['e', 'n'],
    decreases i,
{
    reveal_strlit("zh");
    reveal_strlit("en");
    assert("zh"@ =~= seq!['z', 'h']);
    assert("en"@ =~= seq!['e', 'n']);
    assert(seq!['e', 'n'][0] != seq!['z', 'h'][0]);
    if i > 0 {
        let rest = values.drop_first();
        assert forall|j: int| 0 <= j < i - 1 implies (#[trigger] rest[j] matches Some(value)
            ==> lowercase(value@).len() == 0) by {
            assert(rest[j] == values[j + 1]);
        }
        law_the_first_set_variable_counts(rest, i - 1);
        assert(values[0] matches Some(value) ==> lowercase(value@).len() == 0);
    }
}

/// A text that may be missing is described by its characters where there is one, and texts one by
/// one.
pub proof fn law_texts_are_described_by_their_characters(
    text: &'static str,
    args: Seq<String>,
    i: int,
)
    ensures
        static_view(Some(text)) == Some(text@),
        static_view(None) is None,
        str_view(Some(text)) == Some(text@),
        str_view(None) is None,
        texts(args).len() == args.len(),
        0 <= i < args.len() ==> texts(args)[i] == args[i]@,
{
}

} // verus!
