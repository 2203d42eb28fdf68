//! Text building blocks: number rendering and parsing, padding, lossy
//! decoding and case folding.
use vstd::prelude::*;
use vstd::string::*;

verus! {

/// `String::push` appends one character.
pub assume_specification[ String::push ](s: &mut String, c: char)
    ensures
        final(s)@ == old(s)@.push(c),
;

/// What `String::from_utf8_lossy` makes of `bytes`.
pub uninterp spec fn lossy_utf8(bytes: Seq<u8>) -> Seq<char>;

/// Decode bytes with `String::from_utf8_lossy`: well-formed UTF-8 comes out
/// as the text it encodes. What replaces a malformed part is left to the
/// named result.
#[verifier::external_body]
fn from_utf8_lossy(bytes: &[u8]) -> (s: String)
    ensures
        s@ == lossy_utf8(bytes@),
        vstd::utf8::valid_utf8(bytes@) ==> s@ == vstd::utf8::decode_utf8(bytes@),
{
    String::from_utf8_lossy(bytes).into_owned()
}

/// The text of `bytes`: what they encode where they are well-formed UTF-8,
/// otherwise a lossy reading.
pub open spec fn decoded(bytes: Seq<u8>) -> Seq<char> {
    if vstd::utf8::valid_utf8(bytes) {
        vstd::utf8::decode_utf8(bytes)
    } else {
        lossy_utf8(bytes)
    }
}

/// Decode bytes, lossily where they are malformed.
pub fn decode(bytes: &[u8]) -> (s: String)
    ensures
        s@ == decoded(bytes@),
{
    from_utf8_lossy(bytes)
}

/// Text comes back from its encoding.
pub proof fn law_text_round_trips(chars: Seq<char>)
    ensures
        decoded(vstd::utf8::encode_utf8(chars)) == chars,
{
    vstd::utf8::encode_utf8_valid_utf8(chars);
    vstd::utf8::encode_utf8_decode_utf8(chars);
}

/// `c` with an ASCII capital made small.
pub open spec fn ascii_small(c: char) -> char {
    if 'A' <= c && c <= 'Z' {
        (c as u8 + 32) as char
    } else {
        c
    }
}

/// Does `s` hold ASCII characters alone?
pub open spec fn all_ascii(s: Seq<char>) -> bool {
    forall|i: int| 0 <= i < s.len() ==> (#[trigger] s[i] as u32) < 128
}

/// What `str::to_lowercase` makes of `s`.
pub uninterp spec fn lowercased(s: Seq<char>) -> Seq<char>;

/// Fold case with `str::to_lowercase`. Of ASCII text, exactly the capitals
/// `A` to `Z` become small; what becomes of other characters is left to the
/// named result.
#[verifier::external_body]
fn to_lowercase(s: &str) -> (r: String)
    ensures
        r@ == lowercased(s@),
        all_ascii(s@) ==> r@ == s@.map_values(|c: char| ascii_small(c)),
{
    s.to_lowercase()
}

/// `s` in lower case: letter by letter where it is ASCII, otherwise by the
/// Unicode rules.
pub open spec fn lower(s: Seq<char>) -> Seq<char> {
    if all_ascii(s) {
        s.map_values(|c: char| ascii_small(c))
    } else {
        lowercased(s)
    }
}

/// Fold case.
pub fn lower_case(s: &str) -> (r: String)
    ensures
        r@ == lower(s@),
{
    to_lowercase(s)
}

/// Do `a` and `b` hold the same text?
pub fn same(a: &str, b: &str) -> (r: bool)
    ensures
        r == (a@ == b@),
{
    a.to_owned() == b.to_owned()
}

/// The characters of `s`.
pub fn chars_of(s: &str) -> (r: Vec<char>)
    ensures
        r@ == s@,
{
    let mut out: Vec<char> = Vec::new();
    for c in it: s.chars()
        invariant
            it.seq() == s@,
            out@ == s@.take(it.index() as int),
    {
        out.push(c);
        assert(out@ =~= s@.take(it.index() + 1));
    }
    assert(s@.take(s@.len() as int) =~= s@);
    out
}

/// Does `s` end in `c`?
pub open spec fn ends_in(s: Seq<char>, c: char) -> bool {
    s.len() > 0 && s.last() == c
}

/// Does `s` end in `c`?
pub fn ends_with(s: &str, c: char) -> (r: bool)
    ensures
        r == ends_in(s@, c),
{
    let n: usize = s.unicode_len();
    n > 0 && s.get_char(n - 1) == c
}

/// The digit of value `d`, in bases up to 16.
pub open spec fn digit(d: int) -> char {
    if d < 10 {
        (48 + d) as char
    } else {
        (87 + d) as char
    }
}

/// `n` written in `base`, without leading zeros.
pub open spec fn digits(n: nat, base: nat) -> Seq<char>
    decreases n,
{
    if base < 2 || n < base {
        seq![digit(n as int)]
    } else {
        proof {
            assert(n / base < n) by (nonlinear_arith)
                requires
                    n >= base >= 2,
            ;
        }
        digits(n / base, base).push(digit((n % base) as int))
    }
}

/// `n` in decimal.
pub open spec fn decimal(n: nat) -> Seq<char> {
    digits(n, 10)
}

/// `c` repeated `n` times.
pub open spec fn repeated(c: char, n: nat) -> Seq<char> {
    Seq::new(n, |i: int| c)
}

/// How many characters `len` of them fall short of `width`.
pub open spec fn gap(len: nat, width: nat) -> nat {
    if len < width {
        (width - len) as nat
    } else {
        0
    }
}

/// `n` in `base`, zero-padded to four places.
pub open spec fn four_digits(n: nat, base: nat) -> Seq<char> {
    let d = digits(n, base);
    repeated('0', gap(d.len(), 4)) + d
}

/// `s` followed by spaces up to `width` characters.
pub open spec fn padded(s: Seq<char>, width: nat) -> Seq<char> {
    s + repeated(' ', gap(s.len(), width))
}

fn digit_char(d: u8) -> (c: char)
    requires
        d < 16,
    ensures
        c == digit(d as int),
{
    if d < 10 {
        (48 + d) as char
    } else {
        (87 + d) as char
    }
}

/// Append `n` in `base`.
fn push_digits(out: &mut String, n: u128, base: u128)
    requires
        2 <= base <= 16,
    ensures
        final(out)@ == old(out)@ + digits(n as nat, base as nat),
    decreases n,
{
    if n >= base {
        assert(n / base < n) by (nonlinear_arith)
            requires
                n >= base >= 2,
        ;
        push_digits(out, n / base, base);
    }
    let ghost n0 = n as nat;
    let ghost base0 = base as nat;
    assert(n0 / base0 == (n / base) as nat && n0 % base0 == (n % base) as nat);
    assert(n % base < base && (n < base ==> n % base == n)) by (nonlinear_arith)
        requires
            base >= 2,
    ;
    let d: u8 = (n % base) as u8;
    out.push(digit_char(d));
    assert(out@ =~= old(out)@ + digits(n as nat, base as nat));
}

/// Append `n` in decimal.
pub fn push_decimal(out: &mut String, n: u128)
    ensures
        final(out)@ == old(out)@ + decimal(n as nat),
{
    push_digits(out, n, 10);
}

/// Append `n` in `base`, zero-padded to four places.
pub fn push_four_digits(out: &mut String, n: u32, base: u32)
    requires
        2 <= base <= 16,
    ensures
        final(out)@ == old(out)@ + four_digits(n as nat, base as nat),
{
    let mut number = String::new();
    push_digits(&mut number, n as u128, base as u128);
    let ghost d = digits(n as nat, base as nat);
    assert(number@ =~= d);
    let mut len: usize = number.as_str().unicode_len();
    let ghost before = out@;
    let ghost zeros: nat = 0;
    assert(out@ =~= before + repeated('0', zeros));
    while len < 4
        invariant
            out@ == before + repeated('0', zeros),
            len == d.len() + zeros,
            d.len() < 4 ==> zeros <= 4 - d.len(),
            d.len() >= 4 ==> zeros == 0,
        decreases 4 - len,
    {
        out.push('0');
        len = len + 1;
        proof {
            assert(out@ =~= before + repeated('0', zeros + 1));
            zeros = zeros + 1;
        }
    }
    out.append(number.as_str());
    assert(out@ =~= before + four_digits(n as nat, base as nat));
}

/// Append `s`, padded with spaces to `width` characters.
pub fn push_padded(out: &mut String, s: &str, width: usize)
    ensures
        final(out)@ == old(out)@ + padded(s@, width as nat),
{
    let ghost before = out@;
    out.append(s);
    let mut len: usize = s.unicode_len();
    let ghost spaces: nat = 0;
    assert(out@ =~= before + s@ + repeated(' ', spaces));
    while len < width
        invariant
            out@ == before + s@ + repeated(' ', spaces),
            len == s@.len() + spaces,
            s@.len() < width ==> spaces <= width - s@.len(),
            s@.len() >= width ==> spaces == 0,
        decreases width - len,
    {
        out.push(' ');
        len = len + 1;
        proof {
            assert(out@ =~= before + s@ + repeated(' ', spaces + 1));
            spaces = spaces + 1;
        }
    }
    assert(out@ =~= before + padded(s@, width as nat));
}

/// Is `c` one of `0` to `9`?
pub open spec fn is_digit(c: char) -> bool {
    '0' <= c && c <= '9'
}

/// Does `s` hold decimal digits alone?
pub open spec fn all_digits(s: Seq<char>) -> bool {
    forall|i: int| 0 <= i < s.len() ==> is_digit(#[trigger] s[i])
}

/// The number that the decimal digits `s` write.
pub open spec fn number(s: Seq<char>) -> nat
    decreases s.len(),
{
    if s.len() == 0 {
        0
    } else {
        10 * number(s.drop_last()) + (s.last() as nat - 48) as nat
    }
}

/// The unsigned decimal number that `s` writes, with an optional leading
/// plus sign; `None` where `s` is no such number.
pub open spec fn decimal_value(s: Seq<char>) -> Option<nat> {
    let body = if s.len() > 0 && s[0] == '+' {
        s.skip(1)
    } else {
        s
    };
    if body.len() > 0 && all_digits(body) {
        Some(number(body))
    } else {
        None
    }
}

proof fn lemma_number_grows(s: Seq<char>, i: int)
    requires
        0 <= i <= s.len(),
    ensures
        number(s.take(i)) <= number(s),
    decreases s.len(),
{
    if i < s.len() {
        lemma_number_grows(s.drop_last(), i);
        assert(s.drop_last().take(i) =~= s.take(i));
    } else {
        assert(s.take(i) =~= s);
    }
}

pub proof fn lemma_digits_are_decimal(n: nat)
    ensures
        decimal(n).len() > 0,
        all_digits(decimal(n)),
        number(decimal(n)) == n,
    decreases n,
{
    reveal_with_fuel(number, 2);
    if n < 10 {
        assert(decimal(n) =~= seq![digit(n as int)]);
        assert(decimal(n).drop_last() =~= seq![]);
    } else {
        lemma_digits_are_decimal(n / 10);
        let front = decimal(n / 10);
        let last = digit((n % 10) as int);
        assert(decimal(n) == front.push(last));
        assert(decimal(n).drop_last() =~= front);
        assert forall|i: int| 0 <= i < decimal(n).len() implies is_digit(
            #[trigger] decimal(n)[i],
        ) by {
            if i < front.len() {
                assert(decimal(n)[i] == front[i]);
            }
        }
    }
}

/// What is rendered in decimal parses back to the same number.
pub proof fn law_decimal_round_trips(n: nat)
    ensures
        decimal_value(decimal(n)) == Some(n),
{
    lemma_digits_are_decimal(n);
    assert(is_digit(decimal(n)[0]));
}

/// Parse an unsigned decimal number; `None` where there is none or it does
/// not fit.
pub fn parse_decimal(text: &[char]) -> (r: Option<u64>)
    ensures
        r == (match decimal_value(text@) {
            Some(n) if n <= u64::MAX => Some(n as u64),
            _ => None,
        }),
{
    let start: usize = if text.len() > 0 && text[0] == '+' {
        1
    } else {
        0
    };
    let ghost body = text@.skip(start as int);
    proof {
        assert(start == 0 ==> body =~= text@);
    }
    if text.len() == start {
        return None;
    }
    let mut value: u64 = 0;
    let mut i: usize = start;
    assert(body.take(0) =~= seq![]);
    while i < text.len()
        invariant
            start <= i <= text@.len(),
            start < text@.len(),
            start == (if text@.len() > 0 && text@[0] == '+' {
                1int
            } else {
                0
            }),
            body == text@.skip(start as int),
            start == 0 ==> body == text@,
            forall|j: int| 0 <= j < i - start ==> is_digit(#[trigger] body[j]),
            value == number(body.take(i - start)),
        decreases text@.len() - i,
    {
        let c: char = text[i];
        assert(body[i - start] == c);
        if !('0' <= c && c <= '9') {
            assert(!is_digit(body[i - start]));
            return None;
        }
        let d: u64 = (c as u32 - 48) as u64;
        let ghost longer = body.take(i - start + 1);
        proof {
            assert(longer.drop_last() =~= body.take(i - start));
            assert(longer.last() == c);
            assert(number(longer) == 10 * value + d);
            lemma_number_grows(body, i - start + 1);
        }
        if value > (u64::MAX - d) / 10 {
            assert(10 * value + d > u64::MAX);
            assert(number(body) > u64::MAX);
            return None;
        }
        value = value * 10 + d;
        i = i + 1;
    }
    assert(body.take(i - start) =~= body);
    Some(value)
}

} // verus!
