//! Text primitives: byte order of strings, affixes, trimming, splitting and decimal numbers.

use vstd::prelude::*;
use vstd::utf8::{decode_utf8, encode_utf8, valid_utf8};

verus! {

/// The outcome of comparing two strings.
#[derive(Clone, Copy, Debug, PartialEq, Eq, Structural)]
pub enum Order {
    Less,
    Equal,
    Greater,
}

/// `a` comes before `b` in the lexicographic order of byte strings.
pub open spec fn bytes_lt(a: Seq<u8>, b: Seq<u8>) -> bool {
    exists|i: int| #[trigger] bytes_lt_at(a, b, i)
}

/// `i` is the first position that tells `a` from `b`, and there `a` is the smaller one.
pub open spec fn bytes_lt_at(a: Seq<u8>, b: Seq<u8>, i: int) -> bool {
    &&& 0 <= i <= a.len()
    &&& i < b.len()
    &&& forall|j: int| 0 <= j < i ==> a[j] == b[j]
    &&& i < a.len() ==> a[i] < b[i]
}

/// `a` comes before `b` in the order of strings, which is the order of their UTF-8 bytes.
pub open spec fn str_lt(a: Seq<char>, b: Seq<char>) -> bool {
    bytes_lt(encode_utf8(a), encode_utf8(b))
}

/// No string comes before itself, and of two strings at most one comes before the other.
pub proof fn lemma_str_lt_asymmetric(a: Seq<char>, b: Seq<char>)
    ensures
        str_lt(a, b) ==> !str_lt(b, a) && a != b,
{
    if str_lt(a, b) {
        let x = encode_utf8(a);
        let y = encode_utf8(b);
        let i = choose|i: int| bytes_lt_at(x, y, i);
        if str_lt(b, a) {
            let j = choose|j: int| bytes_lt_at(y, x, j);
            if i < j {
                assert(y[i] == x[i]);
            } else if j < i {
                assert(x[j] == y[j]);
            }
        }
    }
}

/// The order of strings is transitive.
pub proof fn lemma_str_lt_transitive(a: Seq<char>, b: Seq<char>, c: Seq<char>)
    requires
        str_lt(a, b),
        str_lt(b, c),
    ensures
        str_lt(a, c),
{
    let x = encode_utf8(a);
    let y = encode_utf8(b);
    let z = encode_utf8(c);
    let i = choose|i: int| bytes_lt_at(x, y, i);
    let j = choose|j: int| bytes_lt_at(y, z, j);
    let k = if i < j { i } else { j };
    assert(bytes_lt_at(x, z, k));
}

proof fn lemma_bytes_total_from(a: Seq<u8>, b: Seq<u8>, i: int)
    requires
        0 <= i <= a.len(),
        i <= b.len(),
        forall|j: int| 0 <= j < i ==> a[j] == b[j],
    ensures
        bytes_lt(a, b) || bytes_lt(b, a) || a == b,
    decreases a.len() - i,
{
    if i == a.len() && i == b.len() {
        assert(a =~= b);
    } else if i == a.len() {
        assert(bytes_lt_at(a, b, i));
    } else if i == b.len() {
        assert(bytes_lt_at(b, a, i));
    } else if a[i] < b[i] {
        assert(bytes_lt_at(a, b, i));
    } else if b[i] < a[i] {
        assert(bytes_lt_at(b, a, i));
    } else {
        lemma_bytes_total_from(a, b, i + 1);
    }
}

/// Of two different strings one comes before the other.
pub proof fn lemma_str_lt_total(a: Seq<char>, b: Seq<char>)
    ensures
        str_lt(a, b) || str_lt(b, a) || a == b,
{
    broadcast use vstd::utf8::encode_utf8_decode_utf8;

    lemma_bytes_total_from(encode_utf8(a), encode_utf8(b), 0);
    assert(decode_utf8(encode_utf8(a)) == a);
    assert(decode_utf8(encode_utf8(b)) == b);
}

/// Compares two strings in the order of their UTF-8 bytes.
pub(crate) fn compare(a: &str, b: &str) -> (order: Order)
    ensures
        match order {
            Order::Less => str_lt(a@, b@),
            Order::Equal => a@ == b@,
            Order::Greater => str_lt(b@, a@),
        },
{
    let x = a.as_bytes();
    let y = b.as_bytes();
    let mut i: usize = 0;
    while i < x.len() && i < y.len()
        invariant
            i <= x.len(),
            i <= y.len(),
            x@ == encode_utf8(a@),
            y@ == encode_utf8(b@),
            forall|j: int| 0 <= j < i ==> x@[j] == y@[j],
        decreases x.len() - i,
    {
        if x[i] < y[i] {
            assert(bytes_lt_at(x@, y@, i as int));
            return Order::Less;
        }
        if y[i] < x[i] {
            assert(bytes_lt_at(y@, x@, i as int));
            return Order::Greater;
        }
        i = i + 1;
    }
    if i < y.len() {
        assert(bytes_lt_at(x@, y@, i as int));
        Order::Less
    } else if i < x.len() {
        assert(bytes_lt_at(y@, x@, i as int));
        Order::Greater
    } else {
        proof {
            broadcast use vstd::utf8::encode_utf8_decode_utf8;

            assert(x@ =~= y@);
            assert(decode_utf8(encode_utf8(a@)) == a@);
        }
        Order::Equal
    }
}

/// The text that the `Debug` formatting of `str` in the standard library writes for a text.
pub uninterp spec fn debug_text(text: Seq<char>) -> Seq<char>;

/// Formats a text with the `Debug` formatting of `str` in the standard library, which puts it in
/// quotes and escapes some of its characters. What it writes is a function of the text alone, and
/// goes by the name [`debug_text`]; which characters it escapes is not stated.
#[verifier::external_body]
pub(crate) fn debug_form(text: &str) -> (form: String)
    ensures
        form@ == debug_text(text@),
{
    format!("{:?}", text)
}

/// Calls `std::str::from_utf8`: bytes that are valid UTF-8 give the text that they encode, other
/// bytes give nothing.
#[verifier::external_body]
pub(crate) fn utf8_text(bytes: &[u8]) -> (text: Option<String>)
    ensures
        match text {
            Some(text) => valid_utf8(bytes@) && text@ == decode_utf8(bytes@),
            None => !valid_utf8(bytes@),
        },
{
    match std::str::from_utf8(bytes) {
        Ok(text) => Some(text.to_owned()),
        Err(_) => None,
    }
}

/// The characters of a string.
pub(crate) fn characters(text: &str) -> (result: Vec<char>)
    ensures
        result@ == text@,
{
    let mut result: Vec<char> = Vec::new();
    for c in iter: text.chars()
        invariant
            iter.seq() == text@,
            result@ == text@.take(iter.index()),
    {
        assert(text@.take(iter.index() + 1) =~= text@.take(iter.index()).push(c));
        result.push(c);
    }
    assert(text@.take(text@.len() as int) =~= text@);
    result
}

/// The text `part` stands in `text` at a position.
pub open spec fn occurs_at(text: Seq<char>, part: Seq<char>, position: int) -> bool {
    &&& 0 <= position
    &&& position + part.len() <= text.len()
    &&& text.subrange(position, position + part.len()) == part
}

/// The first position from `start` on where `part` stands in `text`.
pub open spec fn find_from(text: Seq<char>, part: Seq<char>, start: int) -> Option<int>
    decreases text.len() - start + 1,
{
    if start < 0 || start + part.len() > text.len() {
        None
    } else if occurs_at(text, part, start) {
        Some(start)
    } else {
        find_from(text, part, start + 1)
    }
}

fn is_at(text: &Vec<char>, part: &Vec<char>, position: usize) -> (found: bool)
    requires
        position + part.len() <= text.len(),
    ensures
        found == occurs_at(text@, part@, position as int),
{
    let mut i: usize = 0;
    while i < part.len()
        invariant
            i <= part.len(),
            position + part.len() <= text.len(),
            forall|k: int| 0 <= k < i ==> text@[position + k] == part@[k],
        decreases part.len() - i,
    {
        if text[position + i] != part[i] {
            assert(text@.subrange(position as int, position + part@.len())[i as int] != part@[
                i as int
            ]);
            return false;
        }
        i = i + 1;
    }
    assert(text@.subrange(position as int, position + part@.len()) =~= part@);
    true
}

/// Whether `text` starts with `prefix`.
pub open spec fn has_prefix(text: Seq<char>, prefix: Seq<char>) -> bool {
    occurs_at(text, prefix, 0)
}

/// Whether `text` ends with `suffix`.
pub open spec fn has_suffix(text: Seq<char>, suffix: Seq<char>) -> bool {
    occurs_at(text, suffix, text.len() - suffix.len())
}

/// The text behind a prefix, if the text has the prefix.
pub(crate) fn strip_prefix<'a>(text: &'a str, prefix: &str) -> (rest: Option<&'a str>)
    ensures
        match rest {
            Some(rest) => has_prefix(text@, prefix@) && rest@ == text@.skip(prefix@.len() as int),
            None => !has_prefix(text@, prefix@),
        },
{
    let all = characters(text);
    let part = characters(prefix);
    if part.len() <= all.len() && is_at(&all, &part, 0) {
        let rest = text.substring_char(part.len(), all.len());
        assert(rest@ =~= text@.skip(prefix@.len() as int));
        Some(rest)
    } else {
        None
    }
}

/// The text before a suffix, if the text has the suffix.
pub(crate) fn strip_suffix<'a>(text: &'a str, suffix: &str) -> (rest: Option<&'a str>)
    ensures
        match rest {
            Some(rest) => has_suffix(text@, suffix@) && rest@ == text@.take(
                text@.len() - suffix@.len(),
            ),
            None => !has_suffix(text@, suffix@),
        },
{
    let all = characters(text);
    let part = characters(suffix);
    if part.len() <= all.len() && is_at(&all, &part, all.len() - part.len()) {
        let rest = text.substring_char(0, all.len() - part.len());
        assert(rest@ =~= text@.take(text@.len() - suffix@.len()));
        Some(rest)
    } else {
        None
    }
}

/// Whether a text starts with a prefix.
pub(crate) fn starts_with(text: &str, prefix: &str) -> (found: bool)
    ensures
        found == has_prefix(text@, prefix@),
{
    strip_prefix(text, prefix).is_some()
}

/// Whether a text ends with a suffix.
pub(crate) fn ends_with(text: &str, suffix: &str) -> (found: bool)
    ensures
        found == has_suffix(text@, suffix@),
{
    strip_suffix(text, suffix).is_some()
}

/// The texts before and behind the first place where a separator stands.
pub open spec fn split_at_first(text: Seq<char>, separator: Seq<char>) -> Option<
    (Seq<char>, Seq<char>),
> {
    match find_from(text, separator, 0) {
        Some(position) => Some(
            (text.take(position), text.skip(position + separator.len())),
        ),
        None => None,
    }
}

/// Splits a text at the first place where a separator stands.
pub(crate) fn split_once<'a>(text: &'a str, separator: &str) -> (result: Option<(&'a str, &'a str)>)
    ensures
        match result {
            Some((before, behind)) => split_at_first(text@, separator@) == Some(
                (before@, behind@),
            ),
            None => split_at_first(text@, separator@) == None::<(Seq<char>, Seq<char>)>,
        },
{
    let all = characters(text);
    let part = characters(separator);
    if part.len() > all.len() {
        return None;
    }
    let last: usize = all.len() - part.len();
    let mut position: usize = 0;
    loop
        invariant
            position <= last,
            last + part.len() == all.len(),
            all@ == text@,
            part@ == separator@,
            find_from(text@, separator@, 0) == find_from(text@, separator@, position as int),
        decreases last - position,
    {
        if is_at(&all, &part, position) {
            let before = text.substring_char(0, position);
            let behind = text.substring_char(position + part.len(), all.len());
            assert(before@ =~= text@.take(position as int));
            assert(behind@ =~= text@.skip(position + separator@.len()));
            return Some((before, behind));
        }
        if position == last {
            assert(find_from(text@, separator@, position + 1) is None);
            return None;
        }
        position = position + 1;
    }
}

/// The last position below `end` where a character stands.
pub open spec fn find_last(text: Seq<char>, separator: char, end: int) -> Option<int>
    decreases end,
{
    if end <= 0 || end > text.len() {
        None
    } else if text[end - 1] == separator {
        Some(end - 1)
    } else {
        find_last(text, separator, end - 1)
    }
}

/// The texts before and behind the last place where a character stands.
pub open spec fn split_at_last(text: Seq<char>, separator: char) -> Option<
    (Seq<char>, Seq<char>),
> {
    match find_last(text, separator, text.len() as int) {
        Some(position) => Some((text.take(position), text.skip(position + 1))),
        None => None,
    }
}

/// Splits a text at the last place where a character stands.
pub(crate) fn rsplit_once<'a>(text: &'a str, separator: char) -> (result: Option<(&'a str, &'a str)>)
    ensures
        match result {
            Some((before, behind)) => split_at_last(text@, separator) == Some((before@, behind@)),
            None => split_at_last(text@, separator) == None::<(Seq<char>, Seq<char>)>,
        },
{
    let all = characters(text);
    let mut end: usize = all.len();
    while end > 0
        invariant
            end <= all.len(),
            all@ == text@,
            find_last(text@, separator, text@.len() as int) == find_last(
                text@,
                separator,
                end as int,
            ),
        decreases end,
    {
        if all[end - 1] == separator {
            let before = text.substring_char(0, end - 1);
            let behind = text.substring_char(end, all.len());
            assert(before@ =~= text@.take(end - 1));
            assert(behind@ =~= text@.skip(end as int));
            return Some((before, behind));
        }
        end = end - 1;
    }
    None
}

/// The white space of Unicode.
pub open spec fn is_space(c: char) -> bool {
    ||| '\u{9}' <= c <= '\u{d}'
    ||| c == '\u{20}'
    ||| c == '\u{85}'
    ||| c == '\u{a0}'
    ||| c == '\u{1680}'
    ||| '\u{2000}' <= c <= '\u{200a}'
    ||| c == '\u{2028}'
    ||| c == '\u{2029}'
    ||| c == '\u{202f}'
    ||| c == '\u{205f}'
    ||| c == '\u{3000}'
}

fn space(c: char) -> (result: bool)
    ensures
        result == is_space(c),
{
    ('\u{9}' <= c && c <= '\u{d}') || c == '\u{20}' || c == '\u{85}' || c == '\u{a0}' || c
        == '\u{1680}' || ('\u{2000}' <= c && c <= '\u{200a}') || c == '\u{2028}' || c == '\u{2029}'
        || c == '\u{202f}' || c == '\u{205f}' || c == '\u{3000}'
}

/// A text without the characters at its start that satisfy a condition.
pub open spec fn trim_front(text: Seq<char>, trimmed: spec_fn(char) -> bool) -> Seq<char>
    decreases text.len(),
{
    if text.len() > 0 && trimmed(text[0]) {
        trim_front(text.skip(1), trimmed)
    } else {
        text
    }
}

/// A text without the characters at its end that satisfy a condition.
pub open spec fn trim_back(text: Seq<char>, trimmed: spec_fn(char) -> bool) -> Seq<char>
    decreases text.len(),
{
    if text.len() > 0 && trimmed(text.last()) {
        trim_back(text.drop_last(), trimmed)
    } else {
        text
    }
}

/// A text without the white space at its start and at its end.
pub open spec fn trimmed(text: Seq<char>) -> Seq<char> {
    trim_back(trim_front(text, |c: char| is_space(c)), |c: char| is_space(c))
}

/// Takes the white space at the start and at the end of a text away.
pub(crate) fn trim<'a>(text: &'a str) -> (result: &'a str)
    ensures
        result@ == trimmed(text@),
{
    let all = characters(text);
    let ghost blank = |c: char| is_space(c);
    let mut start: usize = 0;
    assert(text@.skip(0) =~= text@);
    while start < all.len() && space(all[start])
        invariant
            start <= all.len(),
            all@ == text@,
            blank == (|c: char| is_space(c)),
            trim_front(text@, blank) == trim_front(text@.skip(start as int), blank),
        decreases all.len() - start,
    {
        assert(text@.skip(start as int)[0] == all@[start as int]);
        assert(text@.skip(start as int).skip(1) =~= text@.skip(start + 1));
        start = start + 1;
    }
    assert(start < all.len() ==> text@.skip(start as int)[0] == all@[start as int]);
    let mut end: usize = all.len();
    let ghost front = text@.skip(start as int);
    assert(text@.subrange(start as int, end as int) =~= front);
    while end > start && space(all[end - 1])
        invariant
            start <= end <= all.len(),
            all@ == text@,
            blank == (|c: char| is_space(c)),
            trim_back(front, blank) == trim_back(text@.subrange(start as int, end as int), blank),
        decreases end,
    {
        let ghost current = text@.subrange(start as int, end as int);
        assert(current.last() == all@[end - 1]);
        assert(current.drop_last() =~= text@.subrange(start as int, end - 1));
        end = end - 1;
    }
    let result = text.substring_char(start, end);
    assert(end > start ==> result@.last() == all@[end - 1]);
    result
}

/// The value of decimal digits, if there is nothing else in the text.
pub open spec fn digits_value(text: Seq<char>) -> Option<int>
    decreases text.len(),
{
    if text.len() == 0 {
        Some(0)
    } else if '0' <= text.last() <= '9' {
        match digits_value(text.drop_last()) {
            Some(value) => Some(10 * value + (text.last() as int - '0' as int)),
            None => None,
        }
    } else {
        None
    }
}

/// The number that a text spells out: an optional plus sign and at least one decimal digit, and
/// not more than 64 bits can hold.
pub open spec fn number_text(text: Seq<char>) -> Option<int> {
    let digits = if text.len() > 1 && text[0] == '+' {
        text.skip(1)
    } else {
        text
    };
    match digits_value(digits) {
        Some(value) => if digits.len() == 0 || value > u64::MAX {
            None
        } else {
            Some(value)
        },
        None => None,
    }
}

proof fn lemma_digits_prefix(text: Seq<char>, n: int)
    requires
        0 <= n <= text.len(),
    ensures
        digits_value(text) matches Some(value) ==> digits_value(text.take(n)) matches Some(part)
            && 0 <= part <= value,
    decreases text.len() - n,
{
    if n == text.len() {
        assert(text.take(n) =~= text);
        lemma_digits_not_negative(text);
    } else {
        lemma_digits_prefix(text, n + 1);
        assert(text.take(n + 1).drop_last() =~= text.take(n));
        lemma_digits_not_negative(text.take(n));
    }
}

pub(crate) proof fn lemma_digits_not_negative(text: Seq<char>)
    ensures
        digits_value(text) matches Some(value) ==> value >= 0,
    decreases text.len(),
{
    if text.len() > 0 {
        lemma_digits_not_negative(text.drop_last());
    }
}

/// Reads a number of decimal digits.
pub(crate) fn parse_u64(text: &str) -> (result: Option<u64>)
    ensures
        match result {
            Some(value) => number_text(text@) == Some(value as int),
            None => number_text(text@) == None::<int>,
        },
{
    let all = characters(text);
    let start: usize = if all.len() > 1 && all[0] == '+' {
        1
    } else {
        0
    };
    let ghost digits = all@.skip(start as int);
    assert(all@.skip(0) =~= all@);
    if all.len() == 0 {
        return None;
    }
    let mut value: u64 = 0;
    let mut i: usize = start;
    assert(digits.take(0) =~= Seq::<char>::empty());
    while i < all.len()
        invariant
            start <= i <= all.len(),
            digits == all@.skip(start as int),
            digits.len() > 0,
            number_text(text@) == (match digits_value(digits) {
                Some(total) => if total > u64::MAX {
                    None::<int>
                } else {
                    Some(total)
                },
                None => None::<int>,
            }),
            digits_value(digits.take(i - start)) == Some(value as int),
        decreases all.len() - i,
    {
        let c: char = all[i];
        proof {
            let longer = digits.take(i - start + 1);
            assert(longer.drop_last() =~= digits.take(i - start));
            assert(longer.last() == c);
            lemma_digits_prefix(digits, i - start + 1);
        }
        if c < '0' || c > '9' {
            return None;
        }
        let digit: u64 = c as u64 - '0' as u64;
        match value.checked_mul(10) {
            Some(shifted) => match shifted.checked_add(digit) {
                Some(sum) => {
                    value = sum;
                },
                None => {
                    return None;
                },
            },
            None => {
                return None;
            },
        }
        i = i + 1;
    }
    assert(digits.take(i - start) =~= digits);
    Some(value)
}

/// The decimal digit of a number below ten.
pub open spec fn digit_char(digit: int) -> char {
    ('0' as int + digit) as char
}

/// A number written in decimal digits.
pub open spec fn decimal_text(number: int) -> Seq<char>
    decreases number,
{
    if number < 10 {
        seq![digit_char(number)]
    } else {
        decimal_text(number / 10).push(digit_char(number % 10))
    }
}

fn digit_text(digit: u64) -> (text: &'static str)
    requires
        digit < 10,
    ensures
        text@ == seq![digit_char(digit as int)],
{
    proof {
        reveal_strlit("0");
        reveal_strlit("1");
        reveal_strlit("2");
        reveal_strlit("3");
        reveal_strlit("4");
        reveal_strlit("5");
        reveal_strlit("6");
        reveal_strlit("7");
        reveal_strlit("8");
        reveal_strlit("9");
    }
    let text = if digit == 0 {
        "0"
    } else if digit == 1 {
        "1"
    } else if digit == 2 {
        "2"
    } else if digit == 3 {
        "3"
    } else if digit == 4 {
        "4"
    } else if digit == 5 {
        "5"
    } else if digit == 6 {
        "6"
    } else if digit == 7 {
        "7"
    } else if digit == 8 {
        "8"
    } else {
        "9"
    };
    assert(text@ =~= seq![digit_char(digit as int)]);
    text
}

/// Writes a number in decimal digits.
pub(crate) fn decimal(number: u64) -> (text: String)
    ensures
        text@ == decimal_text(number as int),
    decreases number,
{
    if number < 10 {
        digit_text(number).to_owned()
    } else {
        let mut text = decimal(number / 10);
        let ghost before = text@;
        text.append(digit_text(number % 10));
        assert(text@ =~= before.push(digit_char(number as int % 10)));
        text
    }
}

/// A number written in decimal digits, with zeros in front of it up to a width.
pub open spec fn padded_text(number: int, width: int) -> Seq<char> {
    let digits = decimal_text(number);
    Seq::new((width - digits.len()) as nat, |i: int| '0') + digits
}

/// A number written in decimal digits, with zeros in front of it up to a width.
pub(crate) fn padded(number: u64, width: usize) -> (text: String)
    ensures
        text@ == if width > decimal_text(number as int).len() {
            padded_text(number as int, width as int)
        } else {
            decimal_text(number as int)
        },
{
    let digits = decimal(number);
    let size: usize = digits.as_str().unicode_len();
    if size >= width {
        return digits;
    }
    let mut text = String::new();
    let mut count: usize = 0;
    while count < width - size
        invariant
            count <= width - size,
            text@ =~= Seq::new(count as nat, |i: int| '0'),
        decreases width - size - count,
    {
        proof {
            reveal_strlit("0");
        }
        text.append("0");
        count = count + 1;
    }
    text.append(digits.as_str());
    assert(text@ =~= padded_text(number as int, width as int));
    text
}

/// A number with its sign written in decimal digits.
pub open spec fn signed_text(number: int) -> Seq<char> {
    if number < 0 {
        "-"@ + decimal_text(-number)
    } else {
        decimal_text(number)
    }
}

/// Writes a number with its sign in decimal digits.
pub(crate) fn signed_decimal(number: i32) -> (text: String)
    ensures
        text@ == signed_text(number as int),
{
    if number < 0 {
        joined("-", decimal((-(number as i64)) as u64).as_str())
    } else {
        decimal(number as u64)
    }
}

/// Two texts, one behind the other.
pub(crate) fn joined(first: &str, second: &str) -> (text: String)
    ensures
        text@ == first@ + second@,
{
    let mut text = first.to_owned();
    text.append(second);
    text
}

/// Whether two texts are the same.
pub(crate) fn same(a: &str, b: &str) -> (result: bool)
    ensures
        result == (a@ == b@),
{
    match compare(a, b) {
        Order::Equal => true,
        Order::Less => {
            proof {
                lemma_str_lt_asymmetric(a@, b@);
            }
            false
        },
        Order::Greater => {
            proof {
                lemma_str_lt_asymmetric(b@, a@);
            }
            false
        },
    }
}

/// No text spells a negative number out.
pub proof fn lemma_number_not_negative()
    ensures
        forall|text: Seq<char>|
            (#[trigger] number_text(text)) is Some ==> number_text(text)->0 >= 0,
{
    assert forall|text: Seq<char>| (#[trigger] number_text(text)) is Some implies number_text(
        text,
    )->0 >= 0 by {
        lemma_digits_not_negative(text);
        lemma_digits_not_negative(text.skip(1));
    }
}

/// The characters of Unicode that are white space, and no others.
#[verifier::spinoff_prover]
#[verifier::rlimit(60)]
pub proof fn law_white_space_is_that_of_unicode(c: char)
    ensures
        is_space(c) <==> seq![
            '\t',
            '\n',
            '\u{b}',
            '\u{c}',
            '\r',
            ' ',
            '\u{85}',
            '\u{a0}',
            '\u{1680}',
            '\u{2000}',
            '\u{2001}',
            '\u{2002}',
            '\u{2003}',
            '\u{2004}',
            '\u{2005}',
            '\u{2006}',
            '\u{2007}',
            '\u{2008}',
            '\u{2009}',
            '\u{200a}',
            '\u{2028}',
            '\u{2029}',
            '\u{202f}',
            '\u{205f}',
            '\u{3000}',
        ].contains(c),
{
    let spaces = seq![
        '\t',
        '\n',
        '\u{b}',
        '\u{c}',
        '\r',
        ' ',
        '\u{85}',
        '\u{a0}',
        '\u{1680}',
        '\u{2000}',
        '\u{2001}',
        '\u{2002}',
        '\u{2003}',
        '\u{2004}',
        '\u{2005}',
        '\u{2006}',
        '\u{2007}',
        '\u{2008}',
        '\u{2009}',
        '\u{200a}',
        '\u{2028}',
        '\u{2029}',
        '\u{202f}',
        '\u{205f}',
        '\u{3000}',
    ];
    if is_space(c) {
        let code = c as int;
        let i = if code <= 13 {
            code - 9
        } else if code == 0x20 {
            5
        } else if code == 0x85 {
            6
        } else if code == 0xa0 {
            7
        } else if code == 0x1680 {
            8
        } else if code <= 0x200a {
            code - 0x2000 + 9
        } else if code == 0x2028 {
            20
        } else if code == 0x2029 {
            21
        } else if code == 0x202f {
            22
        } else if code == 0x205f {
            23
        } else {
            24int
        };
        assert(spaces[i] == c);
    }
}

proof fn lemma_trim_front(text: Seq<char>, gone: spec_fn(char) -> bool) -> (count: int)
    ensures
        0 <= count <= text.len(),
        trim_front(text, gone) == text.skip(count),
        forall|i: int| 0 <= i < count ==> gone(#[trigger] text[i]),
        count < text.len() ==> !gone(text[count]),
    decreases text.len(),
{
    if text.len() > 0 && gone(text[0]) {
        let rest = text.skip(1);
        let count = lemma_trim_front(rest, gone);
        assert(rest.skip(count) =~= text.skip(count + 1));
        assert forall|i: int| 0 <= i < count + 1 implies gone(#[trigger] text[i]) by {
            if i > 0 {
                assert(rest[i - 1] == text[i]);
            }
        }
        if count < rest.len() {
            assert(rest[count] == text[count + 1]);
        }
        count + 1
    } else {
        assert(text.skip(0) =~= text);
        0
    }
}

proof fn lemma_trim_back(text: Seq<char>, gone: spec_fn(char) -> bool) -> (end: int)
    ensures
        0 <= end <= text.len(),
        trim_back(text, gone) == text.take(end),
        forall|i: int| end <= i < text.len() ==> gone(#[trigger] text[i]),
        end > 0 ==> !gone(text[end - 1]),
    decreases text.len(),
{
    if text.len() > 0 && gone(text.last()) {
        let rest = text.drop_last();
        let end = lemma_trim_back(rest, gone);
        assert(rest.take(end) =~= text.take(end));
        assert forall|i: int| end <= i < text.len() implies gone(#[trigger] text[i]) by {
            if i < rest.len() {
                assert(rest[i] == text[i]);
            }
        }
        if end > 0 {
            assert(rest[end - 1] == text[end - 1]);
        }
        end
    } else {
        assert(text.take(text.len() as int) =~= text);
        text.len() as int
    }
}

/// A text is trimmed of the characters to be taken away at both of its ends, and of nothing else:
/// what stands before and behind the rest is all to be taken away, and the rest neither starts nor
/// ends with such a character.
pub proof fn law_both_ends_are_trimmed(text: Seq<char>, gone: spec_fn(char) -> bool) -> (range: (
    int,
    int,
))
    ensures
        0 <= range.0 <= range.1 <= text.len(),
        trim_back(trim_front(text, gone), gone) == text.subrange(range.0, range.1),
        forall|i: int| 0 <= i < range.0 ==> gone(#[trigger] text[i]),
        forall|i: int| range.1 <= i < text.len() ==> gone(#[trigger] text[i]),
        range.0 < range.1 ==> !gone(text[range.0]) && !gone(text[range.1 - 1]),
        range.0 == range.1 <==> (forall|i: int| 0 <= i < text.len() ==> gone(#[trigger] text[i])),
{
    let start = lemma_trim_front(text, gone);
    let front = text.skip(start);
    let size = lemma_trim_back(front, gone);
    assert(front.take(size) =~= text.subrange(start, start + size));
    assert forall|i: int| start + size <= i < text.len() implies gone(#[trigger] text[i]) by {
        assert(front[i - start] == text[i]);
    }
    if size > 0 {
        assert(front[0] == text[start]);
        assert(front[size - 1] == text[start + size - 1]);
    } else {
        assert forall|i: int| 0 <= i < text.len() implies gone(#[trigger] text[i]) by {
        }
    }
    (start, start + size)
}

/// White space alone is trimmed to nothing, and nothing else is.
pub proof fn law_white_space_is_trimmed(text: Seq<char>)
    ensures
        trimmed(text).len() == 0 <==> (forall|i: int|
            0 <= i < text.len() ==> is_space(#[trigger] text[i])),
{
    let gone = |c: char| is_space(c);
    let range = law_both_ends_are_trimmed(text, gone);
    if trimmed(text).len() == 0 {
        assert forall|i: int| 0 <= i < text.len() implies is_space(#[trigger] text[i]) by {
            assert(gone(text[i]));
        }
    } else {
        assert(!gone(text[range.0]));
    }
}

proof fn lemma_found_first(text: Seq<char>, part: Seq<char>, start: int)
    requires
        0 <= start,
    ensures
        match find_from(text, part, start) {
            Some(position) => {
                &&& start <= position
                &&& occurs_at(text, part, position)
                &&& forall|i: int| start <= i < position ==> !#[trigger] occurs_at(text, part, i)
            },
            None => forall|i: int| start <= i ==> !#[trigger] occurs_at(text, part, i),
        },
    decreases text.len() - start + 1,
{
    if start + part.len() <= text.len() && !occurs_at(text, part, start) {
        lemma_found_first(text, part, start + 1);
    }
}

/// A text that is split is the part before, the separator and the part behind it, and the separator
/// does not start earlier in the text. A text without the separator is not split.
pub proof fn law_texts_are_split_at_the_first_separator(text: Seq<char>, separator: Seq<char>)
    ensures
        match split_at_first(text, separator) {
            Some((before, behind)) => {
                &&& text == before + separator + behind
                &&& forall|i: int|
                    0 <= i < before.len() ==> !#[trigger] occurs_at(text, separator, i)
            },
            None => forall|i: int| !#[trigger] occurs_at(text, separator, i),
        },
{
    lemma_found_first(text, separator, 0);
    if let Some((before, behind)) = split_at_first(text, separator) {
        let position = find_from(text, separator, 0)->0;
        assert(text =~= text.take(position) + text.subrange(position, position + separator.len())
            + text.skip(position + separator.len()));
    }
}

proof fn lemma_found_last(text: Seq<char>, separator: char, end: int)
    requires
        0 <= end <= text.len(),
    ensures
        match find_last(text, separator, end) {
            Some(position) => {
                &&& 0 <= position < end
                &&& text[position] == separator
                &&& forall|i: int| position < i < end ==> #[trigger] text[i] != separator
            },
            None => forall|i: int| 0 <= i < end ==> #[trigger] text[i] != separator,
        },
    decreases end,
{
    if end > 0 && text[end - 1] != separator {
        lemma_found_last(text, separator, end - 1);
    }
}

/// A text that is split at its last separator is the part before, the separator and the part behind
/// it, and the part behind holds no separator. A text without the separator is not split.
pub proof fn law_texts_are_split_at_the_last_separator(text: Seq<char>, separator: char)
    ensures
        match split_at_last(text, separator) {
            Some((before, behind)) => text == before.push(separator) + behind && !behind.contains(
                separator,
            ),
            None => !text.contains(separator),
        },
{
    lemma_found_last(text, separator, text.len() as int);
    if let Some((before, behind)) = split_at_last(text, separator) {
        assert(text =~= before.push(separator) + behind);
    }
}

proof fn lemma_digits(number: int)
    requires
        0 <= number,
    ensures
        digits_value(decimal_text(number)) == Some(number),
        decimal_text(number).len() > 0,
        '0' <= decimal_text(number)[0] <= '9',
    decreases number,
{
    let text = decimal_text(number);
    if number < 10 {
        assert(text.drop_last() =~= Seq::<char>::empty());
        assert(digits_value(text.drop_last()) == Some(0int));
    } else {
        lemma_digits(number / 10);
        assert(text.drop_last() =~= decimal_text(number / 10));
        assert(text[0] == decimal_text(number / 10)[0]);
    }
}

/// A number that is written in decimal digits is read again, also with a plus sign in front.
pub proof fn law_written_numbers_are_read(number: int)
    requires
        0 <= number <= u64::MAX,
    ensures
        number_text(decimal_text(number)) == Some(number),
        number_text(seq!['+'] + decimal_text(number)) == Some(number),
{
    lemma_digits(number);
    let text = seq!['+'] + decimal_text(number);
    assert(text.skip(1) =~= decimal_text(number));
}

/// A text stands for a number only if it holds digits alone, behind at most one plus sign.
pub proof fn law_numbers_hold_digits(text: Seq<char>, i: int)
    requires
        number_text(text) is Some,
        0 <= i < text.len(),
    ensures
        '0' <= text[i] <= '9' || i == 0 && text[i] == '+' && text.len() > 1,
{
    if text.len() > 1 && text[0] == '+' {
        if i > 0 {
            lemma_all_digits(text.skip(1), i - 1);
        }
    } else {
        lemma_all_digits(text, i);
    }
}

proof fn lemma_all_digits(text: Seq<char>, i: int)
    requires
        digits_value(text) is Some,
        0 <= i < text.len(),
    ensures
        '0' <= text[i] <= '9',
    decreases text.len(),
{
    if i < text.len() - 1 {
        lemma_all_digits(text.drop_last(), i);
    }
}

/// Zeros in front of a number do not change it, and fill it up to the width.
pub proof fn law_padded_numbers_are_read(number: int, width: int)
    requires
        0 <= number,
        width >= decimal_text(number).len(),
    ensures
        padded_text(number, width).len() == width,
        digits_value(padded_text(number, width)) == Some(number),
{
    lemma_digits(number);
    lemma_zeros_in_front((width - decimal_text(number).len()) as nat, decimal_text(number));
}

proof fn lemma_zeros_in_front(count: nat, digits: Seq<char>)
    requires
        digits_value(digits) is Some,
    ensures
        digits_value(Seq::new(count, |i: int| '0') + digits) == digits_value(digits),
    decreases count + digits.len(),
{
    let zeros = Seq::new(count, |i: int| '0');
    if digits.len() > 0 {
        assert((zeros + digits).drop_last() =~= zeros + digits.drop_last());
        lemma_zeros_in_front(count, digits.drop_last());
    } else if count > 0 {
        let fewer = Seq::new((count - 1) as nat, |i: int| '0');
        assert((zeros + digits).drop_last() =~= fewer + digits);
        lemma_zeros_in_front((count - 1) as nat, digits);
    } else {
        assert(zeros + digits =~= digits);
    }
}

/// Byte strings are ordered by the first byte in which they differ, and one that ends earlier comes
/// first.
pub proof fn law_bytes_are_ordered_by_the_first_difference(
    common: Seq<u8>,
    a: Seq<u8>,
    b: Seq<u8>,
)
    ensures
        a.len() > 0 && b.len() > 0 && a[0] < b[0] ==> bytes_lt(common + a, common + b)
            && !bytes_lt(common + b, common + a),
        b.len() > 0 ==> bytes_lt(common, common + b) && !bytes_lt(common + b, common),
{
    if a.len() > 0 && b.len() > 0 && a[0] < b[0] {
        assert(bytes_lt_at(common + a, common + b, common.len() as int));
        assert((common + a)[common.len() as int] == a[0]);
        assert((common + b)[common.len() as int] == b[0]);
        if bytes_lt(common + b, common + a) {
            let i = choose|i: int| bytes_lt_at(common + b, common + a, i);
            if i < common.len() {
                assert((common + b)[i] == (common + a)[i]);
            }
        }
    }
    if b.len() > 0 {
        assert(bytes_lt_at(common, common + b, common.len() as int));
        if bytes_lt(common + b, common) {
            let i = choose|i: int| bytes_lt_at(common + b, common, i);
            assert((common + b)[i] == common[i]);
        }
    }
}

} // verus!
