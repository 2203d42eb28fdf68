//! How JSON is read: the grammar that rendered documents are held against.
//!
//! The reader covers objects, arrays, strings and whole numbers, which is all
//! that a document of this crate holds. It takes nothing that is not JSON:
//! what it reads, any JSON parser reads, with the same value. Literals,
//! signs, fractions and exponents, and surrogate pairs in escapes, it does not
//! take.
use vstd::prelude::*;

use crate::text;

verus! {

/// A JSON value. The members of an object keep their order.
#[verifier::ext_equal]
pub enum Json {
    /// A string.
    Text(Seq<char>),
    /// A whole number.
    Number(nat),
    /// An array.
    List(Seq<Json>),
    /// An object.
    Object(Seq<(Seq<char>, Json)>),
}

/// A value, or a list of them, and the text behind it.
pub type Parsed<T> = Option<(T, Seq<char>)>;

/// May `c` stand between tokens?
pub open spec fn is_space(c: char) -> bool {
    c == ' ' || c == '\n' || c == '\r' || c == '\t'
}

/// Does `s` hold nothing but space?
pub open spec fn blank(s: Seq<char>) -> bool {
    forall|i: int| 0 <= i < s.len() ==> is_space(#[trigger] s[i])
}

/// `s` without the space in front.
pub open spec fn trimmed(s: Seq<char>) -> Seq<char>
    decreases s.len(),
{
    if s.len() > 0 && is_space(s[0]) {
        trimmed(s.skip(1))
    } else {
        s
    }
}

/// Does `s` start with `c`?
pub open spec fn starts(s: Seq<char>, c: char) -> bool {
    s.len() > 0 && s[0] == c
}

/// The value of a hexadecimal digit.
pub open spec fn hex_value(c: char) -> Option<int> {
    if '0' <= c && c <= '9' {
        Some(c as int - 48)
    } else if 'a' <= c && c <= 'f' {
        Some(c as int - 87)
    } else if 'A' <= c && c <= 'F' {
        Some(c as int - 55)
    } else {
        None
    }
}

/// The character that four hexadecimal digits name.
pub open spec fn hex_char(s: Seq<char>) -> Option<char> {
    match (hex_value(s[0]), hex_value(s[1]), hex_value(s[2]), hex_value(s[3])) {
        (Some(a), Some(b), Some(c), Some(d)) => {
            let code = 4096 * a + 256 * b + 16 * c + d;
            if 0xD800 <= code < 0xE000 {
                None
            } else {
                Some(code as char)
            }
        },
        _ => None,
    }
}

/// The character that `\c` stands for.
pub open spec fn short_escape(c: char) -> Option<char> {
    if c == '"' || c == '\\' || c == '/' {
        Some(c)
    } else if c == 'n' {
        Some('\n')
    } else if c == 'r' {
        Some('\r')
    } else if c == 't' {
        Some('\t')
    } else if c == 'b' {
        Some('\u{8}')
    } else if c == 'f' {
        Some('\u{c}')
    } else {
        None
    }
}

/// `x` in front of what was read, where something was.
pub open spec fn led_by<T>(x: T, rest: Parsed<Seq<T>>) -> Parsed<Seq<T>> {
    match rest {
        Some((more, r)) => Some((seq![x] + more, r)),
        None => None,
    }
}

/// The string that ends at the next bare quote of `s`, and what follows the
/// quote; `None` where a control character, an unknown escape or the end of
/// `s` comes first.
pub open spec fn quoted(s: Seq<char>) -> Parsed<Seq<char>>
    decreases s.len(),
{
    if s.len() == 0 || (s[0] as u32) < 0x20 {
        None
    } else if s[0] == '"' {
        Some((seq![], s.skip(1)))
    } else if s[0] != '\\' {
        led_by(s[0], quoted(s.skip(1)))
    } else if s.len() < 2 {
        None
    } else if s[1] == 'u' {
        if s.len() < 6 {
            None
        } else {
            match hex_char(s.subrange(2, 6)) {
                Some(c) => led_by(c, quoted(s.skip(6))),
                None => None,
            }
        }
    } else {
        match short_escape(s[1]) {
            Some(c) => led_by(c, quoted(s.skip(2))),
            None => None,
        }
    }
}

/// How many digits `s` starts with.
pub open spec fn digit_run(s: Seq<char>) -> int
    decreases s.len(),
{
    if s.len() > 0 && text::is_digit(s[0]) {
        1 + digit_run(s.skip(1))
    } else {
        0
    }
}

/// The whole number that `s` starts with; leading zeros are not allowed.
pub open spec fn number(s: Seq<char>) -> Parsed<Json> {
    let n = digit_run(s);
    if n == 0 || (n > 1 && s[0] == '0') {
        None
    } else {
        Some((Json::Number(text::number(s.take(n))), s.skip(n)))
    }
}

/// The value that `s` starts with.
pub open spec fn value(s: Seq<char>) -> Parsed<Json>
    decreases s.len(), 0int,
{
    let t = trimmed(s);
    proof {
        lemma_trimmed_is_shorter(s);
    }
    if starts(t, '"') {
        match quoted(t.skip(1)) {
            Some((x, r)) => Some((Json::Text(x), r)),
            None => None,
        }
    } else if starts(t, '[') {
        let u = trimmed(t.skip(1));
        if starts(u, ']') {
            Some((Json::List(seq![]), u.skip(1)))
        } else {
            match items(t.skip(1)) {
                Some((list, r)) => Some((Json::List(list), r)),
                None => None,
            }
        }
    } else if starts(t, '{') {
        let u = trimmed(t.skip(1));
        if starts(u, '}') {
            Some((Json::Object(seq![]), u.skip(1)))
        } else {
            match members(t.skip(1)) {
                Some((list, r)) => Some((Json::Object(list), r)),
                None => None,
            }
        }
    } else {
        number(t)
    }
}

/// The items of an array, one or more, up to its closing bracket. (What is
/// left behind an item is never longer than the text in front of it.)
pub open spec fn items(s: Seq<char>) -> Parsed<Seq<Json>>
    decreases s.len(), 1int,
{
    match value(s) {
        Some((v, r)) if r.len() <= s.len() => {
            let t = trimmed(r);
            proof {
                lemma_trimmed_is_shorter(r);
            }
            if starts(t, ',') {
                led_by(v, items(t.skip(1)))
            } else if starts(t, ']') {
                Some((seq![v], t.skip(1)))
            } else {
                None
            }
        },
        _ => None,
    }
}

/// The members of an object, one or more, up to its closing brace. (What is
/// left behind a value is never longer than the text in front of it.)
pub open spec fn members(s: Seq<char>) -> Parsed<Seq<(Seq<char>, Json)>>
    decreases s.len(), 1int,
{
    let t = trimmed(s);
    proof {
        lemma_trimmed_is_shorter(s);
        lemma_quoted_is_shorter(t.skip(1));
    }
    if !starts(t, '"') {
        None
    } else {
        match quoted(t.skip(1)) {
            Some((key, behind)) => {
                let u = trimmed(behind);
                proof {
                    lemma_trimmed_is_shorter(behind);
                }
                if !starts(u, ':') {
                    None
                } else {
                    match value(u.skip(1)) {
                        Some((v, r)) if r.len() <= s.len() => {
                            let w = trimmed(r);
                            proof {
                                lemma_trimmed_is_shorter(r);
                            }
                            if starts(w, ',') {
                                led_by((key, v), members(w.skip(1)))
                            } else if starts(w, '}') {
                                Some((seq![(key, v)], w.skip(1)))
                            } else {
                                None
                            }
                        },
                        _ => None,
                    }
                }
            },
            None => None,
        }
    }
}

/// The one value that the whole of `s` holds.
pub open spec fn document(s: Seq<char>) -> Option<Json> {
    match value(s) {
        Some((v, r)) if trimmed(r).len() == 0 => Some(v),
        _ => None,
    }
}

pub proof fn lemma_trimmed_is_shorter(s: Seq<char>)
    ensures
        trimmed(s).len() <= s.len(),
    decreases s.len(),
{
    if s.len() > 0 && is_space(s[0]) {
        lemma_trimmed_is_shorter(s.skip(1));
    }
}

pub proof fn lemma_quoted_is_shorter(s: Seq<char>)
    ensures
        quoted(s) matches Some((_, r)) ==> r.len() < s.len(),
    decreases s.len(),
{
    if s.len() > 0 {
        lemma_quoted_is_shorter(s.skip(1));
        if s.len() >= 2 {
            lemma_quoted_is_shorter(s.skip(2));
        }
        if s.len() >= 6 {
            lemma_quoted_is_shorter(s.skip(6));
        }
    }
}

/// Space in front of a text is skipped.
pub proof fn lemma_space_is_skipped(space: Seq<char>, s: Seq<char>)
    requires
        blank(space),
    ensures
        trimmed(space + s) == trimmed(s),
        value(space + s) == value(s),
        items(s) is Some ==> items(space + s) == items(s),
    decreases space.len(),
{
    if space.len() == 0 {
        assert(space + s =~= s);
    } else {
        assert(is_space(space[0]));
        let left = space.skip(1);
        assert(blank(left)) by {
            assert forall|i: int| 0 <= i < left.len() implies is_space(#[trigger] left[i]) by {
                assert(left[i] == space[i + 1]);
            }
        }
        assert((space + s).skip(1) =~= left + s);
        lemma_space_is_skipped(left, s);
        assert(trimmed(space + s) == trimmed(left + s));
    }
}

/// Does every character of `s` stand for itself in a string?
pub open spec fn plain(s: Seq<char>) -> bool {
    forall|i: int|
        0 <= i < s.len() ==> (#[trigger] s[i]) as u32 >= 0x20 && s[i] != '"' && s[i] != '\\'
}

/// A string without anything to escape reads as it stands.
pub proof fn lemma_plain_is_read(s: Seq<char>, rest: Seq<char>)
    requires
        plain(s),
    ensures
        quoted(s + seq!['"'] + rest) == Some((s, rest)),
    decreases s.len(),
{
    let all = s + seq!['"'] + rest;
    if s.len() == 0 {
        assert(all[0] == '"');
        assert(all.skip(1) =~= rest);
        assert(s =~= seq![]);
    } else {
        let left = s.skip(1);
        assert(plain(left)) by {
            assert forall|i: int| 0 <= i < left.len() implies (#[trigger] left[i]) as u32 >= 0x20
                && left[i] != '"' && left[i] != '\\' by {
                assert(left[i] == s[i + 1]);
            }
        }
        lemma_plain_is_read(left, rest);
        assert(all[0] == s[0]);
        assert(all.skip(1) =~= left + seq!['"'] + rest);
        assert(seq![s[0]] + left =~= s);
    }
}

/// `s` between quotes.
pub open spec fn in_quotes(s: Seq<char>) -> Seq<char> {
    seq!['"'] + s + seq!['"']
}

/// What stands between quotes is read as a string.
pub proof fn lemma_string_is_read(s: Seq<char>, x: Seq<char>, rest: Seq<char>)
    requires
        quoted(s + seq!['"'] + rest) == Some((x, rest)),
    ensures
        value(in_quotes(s) + rest) == Some((Json::Text(x), rest)),
{
    let all = in_quotes(s) + rest;
    assert(all[0] == '"');
    assert(all.skip(1) =~= s + seq!['"'] + rest);
}

proof fn lemma_digit_run(s: Seq<char>, rest: Seq<char>)
    requires
        text::all_digits(s),
        rest.len() > 0,
        !text::is_digit(rest[0]),
    ensures
        digit_run(s + rest) == s.len(),
    decreases s.len(),
{
    let all = s + rest;
    if s.len() == 0 {
        assert(all[0] == rest[0]);
    } else {
        let left = s.skip(1);
        assert(text::all_digits(left)) by {
            assert forall|i: int| 0 <= i < left.len() implies text::is_digit(#[trigger] left[i]) by {
                assert(left[i] == s[i + 1]);
            }
        }
        lemma_digit_run(left, rest);
        assert(all[0] == s[0]);
        assert(text::is_digit(s[0]));
        assert(all.skip(1) =~= left + rest);
    }
}

proof fn lemma_no_leading_zero(n: nat)
    ensures
        text::decimal(n).len() > 0,
        n > 0 ==> text::decimal(n)[0] != '0',
        n < 10 ==> text::decimal(n).len() == 1,
    decreases n,
{
    if n >= 10 {
        lemma_no_leading_zero(n / 10);
    }
}

/// A number in decimal is read up to whatever is no digit.
pub proof fn lemma_number_is_read(n: nat, rest: Seq<char>)
    requires
        rest.len() > 0,
        !text::is_digit(rest[0]),
    ensures
        value(text::decimal(n) + rest) == Some((Json::Number(n), rest)),
{
    let d = text::decimal(n);
    let all = d + rest;
    text::lemma_digits_are_decimal(n);
    lemma_no_leading_zero(n);
    lemma_digit_run(d, rest);
    assert(text::is_digit(d[0]));
    assert(all[0] == d[0]);
    assert(all.take(d.len() as int) =~= d);
    assert(all.skip(d.len() as int) =~= rest);
}

/// A member of an object: its key, what its value is written as, and the comma
/// or brace behind it, with space in front and before the end.
pub open spec fn member_text(
    lead: Seq<char>,
    key: Seq<char>,
    written: Seq<char>,
    space: Seq<char>,
    end: char,
) -> Seq<char> {
    lead + in_quotes(key) + seq![':', ' '] + written + (space + seq![end])
}

/// A member is read, and what follows its comma.
pub proof fn lemma_member_is_read(
    lead: Seq<char>,
    key: Seq<char>,
    written: Seq<char>,
    v: Json,
    space: Seq<char>,
    end: char,
    rest: Seq<char>,
)
    requires
        blank(lead),
        plain(key),
        blank(space),
        end == ',' || end == '}',
        value(written + (space + seq![end] + rest)) == Some((v, space + seq![end] + rest)),
    ensures
        members(member_text(lead, key, written, space, end) + rest) == (if end == '}' {
            Some((seq![(key, v)], rest))
        } else {
            led_by((key, v), members(rest))
        }),
{
    let s = member_text(lead, key, written, space, end) + rest;
    let tail = space + seq![end] + rest;
    let behind = seq![':', ' '] + (written + tail);
    let t = seq!['"'] + (key + seq!['"'] + behind);
    assert(s =~= lead + t);
    lemma_space_is_skipped(lead, t);
    assert(trimmed(t) == t);
    assert(t.skip(1) =~= key + seq!['"'] + behind);
    lemma_plain_is_read(key, behind);
    assert(trimmed(behind) == behind);
    assert(behind.skip(1) =~= seq![' '] + (written + tail));
    lemma_space_is_skipped(seq![' '], written + tail);
    assert(tail =~= space + (seq![end] + rest));
    lemma_space_is_skipped(space, seq![end] + rest);
    assert(trimmed(seq![end] + rest) == seq![end] + rest);
    assert((seq![end] + rest).skip(1) =~= rest);
}

/// An object is read from its members.
pub proof fn lemma_object_is_read(
    lead: Seq<char>,
    body: Seq<char>,
    list: Seq<(Seq<char>, Json)>,
    rest: Seq<char>,
)
    requires
        blank(lead),
        members(body) == Some((list, rest)),
    ensures
        value(lead + (seq!['{'] + body)) == Some((Json::Object(list), rest)),
{
    let t = seq!['{'] + body;
    lemma_space_is_skipped(lead, t);
    assert(trimmed(t) == t);
    assert(t.skip(1) =~= body);
}

/// Texts one after another, a comma behind each but the last, and each on
/// lines of its own.
pub open spec fn listed(texts: Seq<Seq<char>>, i: int) -> Seq<char>
    decreases texts.len() - i,
{
    if i >= texts.len() {
        seq![]
    } else {
        texts[i] + (if i + 1 < texts.len() {
            seq![',', '\n']
        } else {
            seq!['\n']
        }) + listed(texts, i + 1)
    }
}

/// Is each of `texts` read as the value of `list` at its place, whatever
/// follows it?
pub open spec fn each_read(texts: Seq<Seq<char>>, list: Seq<Json>) -> bool {
    &&& texts.len() == list.len()
    &&& forall|i: int, rest: Seq<char>|
        0 <= i < texts.len() ==> #[trigger] value(texts[i] + rest) == Some((list[i], rest))
}

proof fn lemma_items_are_read(
    texts: Seq<Seq<char>>,
    list: Seq<Json>,
    i: int,
    space: Seq<char>,
    rest: Seq<char>,
)
    requires
        0 <= i < texts.len(),
        each_read(texts, list),
        blank(space),
    ensures
        items(listed(texts, i) + space + seq![']'] + rest) == Some((list.skip(i), rest)),
    decreases texts.len() - i,
{
    let s = listed(texts, i) + space + seq![']'] + rest;
    if i + 1 < texts.len() {
        let next = listed(texts, i + 1) + space + seq![']'] + rest;
        let tail = seq![',', '\n'] + next;
        assert(s =~= texts[i] + tail);
        assert(value(texts[i] + tail) == Some((list[i], tail)));
        assert(trimmed(tail) == tail);
        assert(tail.skip(1) =~= seq!['\n'] + next);
        lemma_items_are_read(texts, list, i + 1, space, rest);
        lemma_space_is_skipped(seq!['\n'], next);
        assert(seq![list[i]] + list.skip(i + 1) =~= list.skip(i));
    } else {
        let end = seq![']'] + rest;
        let tail = seq!['\n'] + (space + end);
        assert(listed(texts, i + 1) =~= seq![]);
        assert(s =~= texts[i] + tail);
        assert(value(texts[i] + tail) == Some((list[i], tail)));
        lemma_space_is_skipped(seq!['\n'], space + end);
        lemma_space_is_skipped(space, end);
        assert(trimmed(end) == end);
        assert(end.skip(1) =~= rest);
        assert(seq![list[i]] =~= list.skip(i));
    }
}

/// An array with each item on lines of its own.
pub open spec fn list_text(texts: Seq<Seq<char>>, space: Seq<char>) -> Seq<char> {
    seq!['[', '\n'] + listed(texts, 0) + space + seq![']']
}

/// An array is read from its items.
pub proof fn lemma_list_is_read(
    texts: Seq<Seq<char>>,
    list: Seq<Json>,
    space: Seq<char>,
    rest: Seq<char>,
)
    requires
        each_read(texts, list),
        blank(space),
    ensures
        value(list_text(texts, space) + rest) == Some((Json::List(list), rest)),
{
    let s = list_text(texts, space) + rest;
    let inner = listed(texts, 0) + space + seq![']'] + rest;
    assert(s =~= seq!['['] + (seq!['\n'] + inner));
    assert(trimmed(s) == s);
    assert(s.skip(1) =~= seq!['\n'] + inner);
    lemma_space_is_skipped(seq!['\n'], inner);
    if texts.len() == 0 {
        let end = seq![']'] + rest;
        assert(inner =~= space + end);
        lemma_space_is_skipped(space, end);
        assert(trimmed(end) == end);
        assert(end.skip(1) =~= rest);
        assert(list =~= seq![]);
    } else {
        lemma_items_are_read(texts, list, 0, space, rest);
        assert(list.skip(0) =~= list);
        lemma_items_start(inner);
    }
}

/// What holds items does not start with the closing bracket.
proof fn lemma_items_start(s: Seq<char>)
    requires
        items(s) is Some,
    ensures
        !starts(trimmed(s), ']'),
{
    assert(value(s) is Some);
    let t = trimmed(s);
    if starts(t, ']') {
        assert(digit_run(t) == 0);
    }
}

} // verus!
