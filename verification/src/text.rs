//! Bytes, characters and numbers in texts.

use vstd::prelude::*;

verus! {

/// Whether two byte strings are the same.
pub fn same_bytes(a: &[u8], b: &[u8]) -> (same: bool)
    ensures
        same == (a@ == b@),
{
    if a.len() != b.len() {
        return false;
    }
    let mut i: usize = 0;
    while i < a.len()
        invariant
            i <= a.len(),
            a.len() == b.len(),
            forall|j: int| 0 <= j < i ==> a@[j] == b@[j],
        decreases a.len() - i,
    {
        if a[i] != b[i] {
            return false;
        }
        i += 1;
    }
    assert(a@ =~= b@);
    true
}

/// A copy of the bytes.
pub(crate) fn copy_bytes(bytes: &Vec<u8>) -> (r: Vec<u8>)
    ensures
        r@ == bytes@,
{
    let r = bytes.clone();
    assert(r@ =~= bytes@);
    r
}

/// The decimal digit for a number below ten.
pub open spec fn digit(n: nat) -> char {
    (48 + n) as char
}

/// A number in decimal, without leading zeros.
pub open spec fn decimal(n: nat) -> Seq<char>
    decreases n,
{
    if n < 10 {
        seq![digit(n)]
    } else {
        decimal(n / 10).push(digit(n % 10))
    }
}

/// No two numbers are the same in decimal.
pub proof fn law_decimal_is_injective(a: nat, b: nat)
    requires
        decimal(a) == decimal(b),
    ensures
        a == b,
{
    lemma_decimal_value(a);
    lemma_decimal_value(b);
}

/// A number of at least ten has at least two digits, of at least a hundred at
/// least three.
proof fn lemma_decimal_len(n: nat)
    ensures
        decimal(n).len() >= 1,
        decimal(n).len() == 1 <==> n < 10,
        decimal(n).len() == 2 <==> 10 <= n < 100,
        n >= 100 ==> decimal(n).len() >= 3,
    decreases n,
{
    if n >= 10 {
        lemma_decimal_len(n / 10);
    }
}

/// The decimal digit for a number below ten.
fn digit_text(n: u128) -> (r: &'static str)
    requires
        n < 10,
    ensures
        r@ == seq![digit(n as nat)],
{
    proof {
        reveal_strlit("0");
        reveal_strlit("1");
        reveal_strlit("2");
        reveal_strlit("3");
        reveal_strlit("4");
        reveal_strlit("5");
        reveal_strlit("6");
        reveal_strlit("7");
        reveal_strlit("8");
        reveal_strlit("9");
    }
    let text = if n == 0 {
        "0"
    } else if n == 1 {
        "1"
    } else if n == 2 {
        "2"
    } else if n == 3 {
        "3"
    } else if n == 4 {
        "4"
    } else if n == 5 {
        "5"
    } else if n == 6 {
        "6"
    } else if n == 7 {
        "7"
    } else if n == 8 {
        "8"
    } else {
        "9"
    };
    assert(text@ =~= seq![digit(n as nat)]);
    text
}

/// A number in decimal, without leading zeros.
pub fn decimal_text(n: u128) -> (r: String)
    ensures
        r@ == decimal(n as nat),
    decreases n,
{
    if n < 10 {
        digit_text(n).to_owned()
    } else {
        let mut text = decimal_text(n / 10);
        text.append(digit_text(n % 10));
        assert(text@ =~= decimal(n as nat));
        text
    }
}

/// A number in decimal, with leading zeros up to three digits.
pub open spec fn decimal_padded(n: nat) -> Seq<char> {
    if n < 10 {
        "00"@ + decimal(n)
    } else if n < 100 {
        "0"@ + decimal(n)
    } else {
        decimal(n)
    }
}

/// No two numbers are the same in decimal with leading zeros.
pub proof fn law_decimal_padded_is_injective(a: nat, b: nat)
    requires
        decimal_padded(a) == decimal_padded(b),
    ensures
        a == b,
{
    lemma_padded_value(a);
    lemma_padded_value(b);
}

/// The number that decimal digits stand for.
spec fn value(digits: Seq<char>) -> int
    decreases digits.len(),
{
    if digits.len() == 0 {
        0
    } else {
        value(digits.drop_last()) * 10 + (digits.last() as int - 48)
    }
}

/// The digits of a number stand for it.
proof fn lemma_decimal_value(n: nat)
    ensures
        value(decimal(n)) == n,
    decreases n,
{
    reveal_with_fuel(value, 2);
    if n >= 10 {
        lemma_decimal_value(n / 10);
        assert(decimal(n).drop_last() =~= decimal(n / 10));
        assert(decimal(n).last() == digit(n % 10));
    } else {
        assert(decimal(n).drop_last() =~= seq![]);
    }
}

/// The digits of a number stand for it, leading zeros or not.
proof fn lemma_padded_value(n: nat)
    ensures
        value(decimal_padded(n)) == n,
{
    reveal_strlit("0");
    reveal_strlit("00");
    reveal_with_fuel(value, 4);
    lemma_decimal_value(n);
    lemma_decimal_len(n);
    if n < 10 {
        assert(decimal_padded(n).drop_last() =~= "00"@);
        assert("00"@.drop_last() =~= "0"@);
        assert("0"@.drop_last() =~= seq![]);
        assert(decimal(n).drop_last() =~= seq![]);
    } else if n < 100 {
        let tens = decimal_padded(n).drop_last();
        assert(tens =~= "0"@ + decimal(n).drop_last());
        assert(tens.drop_last() =~= "0"@);
        assert("0"@.drop_last() =~= seq![]);
        assert(decimal(n).drop_last().drop_last() =~= seq![]);
    }
}

/// A number in decimal, with leading zeros up to three digits.
pub fn decimal_padded_text(n: u128) -> (r: String)
    ensures
        r@ == decimal_padded(n as nat),
{
    let mut text = if n < 10 {
        "00".to_owned()
    } else if n < 100 {
        "0".to_owned()
    } else {
        String::new()
    };
    text.append(decimal_text(n).as_str());
    assert(text@ =~= decimal_padded(n as nat));
    text
}

/// Whether a character is one of those that Unicode gives the `White_Space` property.
pub open spec fn is_white_space(c: char) -> bool {
    let n = c as u32;
    ||| 0x9 <= n <= 0xd
    ||| n == 0x20
    ||| n == 0x85
    ||| n == 0xa0
    ||| n == 0x1680
    ||| 0x2000 <= n <= 0x200a
    ||| n == 0x2028
    ||| n == 0x2029
    ||| n == 0x202f
    ||| n == 0x205f
    ||| n == 0x3000
}

/// `char::is_whitespace`: whether the character has Unicode's `White_Space`
/// property.
pub assume_specification[ char::is_whitespace ](c: char) -> (r: bool)
    ensures
        r == is_white_space(c),
;

/// How many characters of a text are not white space.
pub open spec fn visible_chars(text: Seq<char>) -> nat {
    text.filter(|c: char| !is_white_space(c)).len()
}

/// How many characters of a text are not white space.
pub fn count_visible_chars(text: &str) -> (count: usize)
    ensures
        count == visible_chars(text@),
{
    broadcast use vstd::string::axiom_spec_iter;

    let length: usize = text.unicode_len();
    let ghost visible = |c: char| !is_white_space(c);
    let mut count: usize = 0;
    assert(text@.take(0) =~= seq![]);
    proof {
        reveal(Seq::filter);
    }
    for c in iter: text.chars()
        invariant
            iter.seq() == text@,
            length == text@.len(),
            visible == (|c: char| !is_white_space(c)),
            count <= iter.index(),
            iter.index() <= length,
            count == text@.take(iter.index() as int).filter(visible).len(),
    {
        proof {
            reveal(Seq::filter);
            let next = text@.take(iter.index() + 1);
            assert(next.drop_last() =~= text@.take(iter.index() as int));
            assert(next.last() == c);
        }
        if !c.is_whitespace() {
            count += 1;
        }
    }
    assert(text@.take(length as int) =~= text@);
    count
}

/// A number in decimal is made of digits. The last one is the remainder by ten, the ones before
/// it are the tenth part in decimal, and no number but 0 begins with a zero.
pub proof fn law_decimal_is_positional(n: nat)
    ensures
        ({
            let digits = decimal(n);
            &&& digits.len() >= 1
            &&& forall|i: int| 0 <= i < digits.len() ==> '0' <= #[trigger] digits[i] <= '9'
            &&& digits.last() as int - '0' as int == n % 10
            &&& n < 10 ==> digits.len() == 1
            &&& n >= 10 ==> digits.drop_last() == decimal(n / 10)
            &&& n > 0 ==> digits[0] != '0'
        }),
    decreases n,
{
    if n >= 10 {
        law_decimal_is_positional(n / 10);
        assert(decimal(n).drop_last() =~= decimal(n / 10));
        assert(decimal(n)[0] == decimal(n / 10)[0]);
    }
}

/// A number with leading zeros has three digits, or more where it needs them, and none of the
/// zeros changes it.
pub proof fn law_padded_has_three_digits(n: nat)
    ensures
        ({
            let digits = decimal_padded(n);
            let short = decimal(n);
            &&& n < 1000 ==> digits.len() == 3
            &&& n >= 1000 ==> digits == short
            &&& digits.len() >= short.len()
            &&& digits.subrange(digits.len() - short.len(), digits.len() as int) == short
            &&& forall|i: int| 0 <= i < digits.len() - short.len() ==> #[trigger] digits[i] == '0'
        }),
{
    reveal_strlit("0");
    reveal_strlit("00");
    lemma_decimal_len(n);
    lemma_decimal_len(n / 10);
    let digits = decimal_padded(n);
    let short = decimal(n);
    assert(digits.subrange(digits.len() - short.len(), digits.len() as int) =~= short);
}

/// A text has as many visible characters as its parts have together, a single character counts
/// as one or as none, and a text with no character that is not white space has none.
pub proof fn law_visible_chars_are_counted_one_by_one(a: Seq<char>, b: Seq<char>, c: char)
    ensures
        visible_chars(a + b) == visible_chars(a) + visible_chars(b),
        visible_chars(seq![c]) == if is_white_space(c) {
            0nat
        } else {
            1nat
        },
        visible_chars(a) == 0 <==> forall|i: int|
            0 <= i < a.len() ==> is_white_space(#[trigger] a[i]),
        visible_chars(a) <= a.len(),
    decreases a.len() + b.len(),
{
    let visible = |x: char| !is_white_space(x);
    reveal(Seq::filter);
    assert(seq![c].drop_last() =~= seq![]);
    assert(seq![c].drop_last().filter(visible) =~= seq![]);
    if b.len() > 0 {
        law_visible_chars_are_counted_one_by_one(a, b.drop_last(), c);
        assert((a + b).drop_last() =~= a + b.drop_last());
        assert((a + b).last() == b.last());
    } else {
        assert(a + b =~= a);
        assert(b.filter(visible) =~= seq![]);
        if a.len() > 0 {
            law_visible_chars_are_counted_one_by_one(a.drop_last(), seq![], c);
            let front = a.drop_last();
            assert(forall|i: int| 0 <= i < front.len() ==> #[trigger] front[i] == a[i]);
            if visible_chars(a) == 0 {
                assert forall|i: int| 0 <= i < a.len() implies is_white_space(#[trigger] a[i]) by {
                    if i < front.len() {
                        assert(is_white_space(front[i]));
                    }
                }
            } else if is_white_space(a.last()) {
                assert(visible_chars(front) > 0);
                let i = choose|i: int| 0 <= i < front.len() && !is_white_space(#[trigger] front[i]);
                assert(!is_white_space(a[i]));
            } else {
                assert(!is_white_space(a[a.len() - 1]));
            }
        } else {
            assert(a.filter(visible) =~= seq![]);
        }
    }
}

/// The characters of a text.
pub fn chars_of(text: &str) -> (r: Vec<char>)
    ensures
        r@ == text@,
{
    broadcast use vstd::string::axiom_spec_iter;

    let mut r: Vec<char> = Vec::new();
    for c in iter: text.chars()
        invariant
            iter.seq() == text@,
            r@ == text@.take(iter.index() as int),
    {
        r.push(c);
        assert(r@ =~= text@.take(iter.index() + 1));
    }
    assert(text@.take(text@.len() as int) =~= text@);
    r
}

/// Whether two texts are the same.
pub fn same_text(a: &str, b: &str) -> (same: bool)
    ensures
        same == (a@ == b@),
{
    let left = chars_of(a);
    let right = chars_of(b);
    if left.len() != right.len() {
        return false;
    }
    let mut i: usize = 0;
    while i < left.len()
        invariant
            i <= left@.len(),
            left@ == a@,
            right@ == b@,
            left@.len() == right@.len(),
            forall|j: int| 0 <= j < i ==> left@[j] == right@[j],
        decreases left.len() - i,
    {
        if left[i] != right[i] {
            return false;
        }
        i += 1;
    }
    assert(left@ =~= right@);
    true
}

} // verus!
