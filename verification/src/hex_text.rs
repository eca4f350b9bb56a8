//! Hexadecimal text: addresses, slots, numbers and byte strings.
use vstd::prelude::*;

use crate::rlp_item::be_value;

verus! {

#[verifier::external_type_specification]
#[verifier::external_body]
pub struct ExFromHexError(hex::FromHexError);

/// Whether `c` is a hexadecimal digit, in either case.
pub open spec fn is_digit(c: char) -> bool {
    ('0' <= c && c <= '9') || ('a' <= c && c <= 'f') || ('A' <= c && c <= 'F')
}

/// The value of a hexadecimal digit.
pub open spec fn digit_value(c: char) -> nat {
    if '0' <= c && c <= '9' {
        (c as nat - '0' as nat) as nat
    } else if 'a' <= c && c <= 'f' {
        (c as nat - 'a' as nat + 10) as nat
    } else {
        (c as nat - 'A' as nat + 10) as nat
    }
}

/// Whether `s` holds nothing but hexadecimal digits.
pub open spec fn is_hex(s: Seq<char>) -> bool {
    forall|i: int| 0 <= i < s.len() ==> is_digit(#[trigger] s[i])
}

/// The bytes that a text of hexadecimal digits stands for, two digits each.
pub open spec fn hex_bytes(s: Seq<char>) -> Seq<u8> {
    Seq::new(
        s.len() / 2,
        |i: int| (16 * digit_value(s[2 * i]) + digit_value(s[2 * i + 1])) as u8,
    )
}

/// The lower-case digit of a value below 16.
pub open spec fn digit(n: nat) -> char {
    if n < 10 {
        ('0' as nat + n) as char
    } else {
        ('a' as nat + n - 10) as char
    }
}

/// The bytes as lower-case text, two digits each.
pub open spec fn hex_of(bytes: Seq<u8>) -> Seq<char> {
    Seq::new(
        2 * bytes.len(),
        |i: int|
            if i % 2 == 0 {
                digit(bytes[i / 2] as nat / 16)
            } else {
                digit(bytes[i / 2] as nat % 16)
            },
    )
}

/// The digits of a number, without leading zeros but for the number zero.
pub open spec fn hex_number(n: nat) -> Seq<char>
    decreases n,
{
    if n < 16 {
        seq![digit(n)]
    } else {
        hex_number(n / 16).push(digit(n % 16))
    }
}

/// `s` without the prefixes `0x` at its front, however many there are.
pub open spec fn without_0x(s: Seq<char>) -> Seq<char>
    decreases s.len(),
{
    if s.len() >= 2 && s[0] == '0' && s[1] == 'x' {
        without_0x(s.skip(2))
    } else {
        s
    }
}

/// `s` with zeros in front up to `width` characters.
pub open spec fn zero_padded(s: Seq<char>, width: nat) -> Seq<char> {
    if s.len() >= width {
        s
    } else {
        Seq::new((width - s.len()) as nat, |i: int| '0') + s
    }
}

/// The 32 bytes that a text stands for: after the prefixes `0x`, up to 64
/// hexadecimal digits, read as a number.
pub open spec fn bytes32_of(s: Seq<char>) -> Option<Seq<u8>> {
    let digits = without_0x(s);
    if digits.len() <= 64 && is_hex(digits) {
        Some(hex_bytes(zero_padded(digits, 64)))
    } else {
        None
    }
}

/// The address that a text stands for: after the prefixes `0x`, exactly 40
/// hexadecimal digits.
pub open spec fn address_of(s: Seq<char>) -> Option<Seq<u8>> {
    let digits = without_0x(s);
    if digits.len() == 40 && is_hex(digits) {
        Some(hex_bytes(digits))
    } else {
        None
    }
}

/// `hex::decode`: succeeds on an even number of hexadecimal digits in either
/// case, and then returns the bytes that they stand for. Which error comes
/// otherwise is left unsaid.
#[verifier::external_body]
pub(crate) fn hex_decode(text: &str) -> (res: Result<Vec<u8>, hex::FromHexError>)
    ensures
        res is Ok == (text@.len() % 2 == 0 && is_hex(text@)),
        res is Ok ==> res->Ok_0@ == hex_bytes(text@),
{
    hex::decode(text)
}

/// `hex::encode`: two lower-case digits for each byte.
#[verifier::external_body]
pub(crate) fn hex_encode(bytes: &[u8]) -> (res: String)
    ensures
        res@ == hex_of(bytes@),
{
    hex::encode(bytes)
}

/// The text without the prefixes `0x` at its front.
fn strip_0x(s: &str) -> (res: &str)
    ensures
        res@ == without_0x(s@),
{
    let mut rest: &str = s;
    let mut len: usize = s.unicode_len();
    while len >= 2 && rest.get_char(0) == '0' && rest.get_char(1) == 'x'
        invariant
            len == rest@.len(),
            without_0x(rest@) == without_0x(s@),
        decreases len,
    {
        let ghost before = rest@;
        rest = rest.substring_char(2, len);
        assert(rest@ =~= before.skip(2));
        len = len - 2;
    }
    rest
}

/// The text with zeros in front up to `width` characters.
fn pad_with_zeros(s: &str, width: usize) -> (res: String)
    ensures
        res@ == zero_padded(s@, width as nat),
{
    let len: usize = s.unicode_len();
    let mut res = String::new();
    let mut n: usize = len;
    proof {
        reveal_strlit("0");
    }
    while n < width
        invariant
            len <= n,
            n <= width || n == len,
            "0"@ == seq!['0'],
            res@ == Seq::new((n - len) as nat, |i: int| '0'),
        decreases width - n,
    {
        res.append("0");
        n = n + 1;
        assert(res@ =~= Seq::new((n - len) as nat, |i: int| '0'));
    }
    res.append(s);
    assert(res@ =~= zero_padded(s@, width as nat));
    res
}

/// The elements of a vector of `N` bytes.
fn array_of<const N: usize>(bytes: &Vec<u8>) -> (res: [u8; N])
    requires
        bytes@.len() == N,
    ensures
        res@ == bytes@,
{
    let mut res: [u8; N] = [0u8; N];
    let mut i: usize = 0;
    while i < N
        invariant
            i <= N,
            bytes@.len() == N,
            forall|k: int| 0 <= k < i ==> res@[k] == bytes@[k],
        decreases N - i,
    {
        res[i] = bytes[i];
        i = i + 1;
    }
    assert(res@ =~= bytes@);
    res
}

/// Reads a 32-byte value, such as a slot or its content, from text of up to 64
/// hexadecimal digits with or without prefix.
pub fn parse_hex_32(s: &str) -> (res: Option<[u8; 32]>)
    ensures
        match res {
            Some(bytes) => bytes32_of(s@) == Some(bytes@),
            None => bytes32_of(s@) is None,
        },
{
    let digits = strip_0x(s);
    let padded = pad_with_zeros(digits, 64);
    proof {
        lemma_padding_is_hex(digits@, 64);
    }
    match hex_decode(padded.as_str()) {
        Ok(bytes) => {
            if bytes.len() != 32 {
                return None;
            }
            Some(array_of(&bytes))
        },
        Err(_) => None,
    }
}

/// Reads an address from text of 40 hexadecimal digits with or without prefix.
pub fn parse_address(s: &str) -> (res: Option<[u8; 20]>)
    ensures
        match res {
            Some(bytes) => address_of(s@) == Some(bytes@),
            None => address_of(s@) is None,
        },
{
    match hex_decode(strip_0x(s)) {
        Ok(bytes) => {
            if bytes.len() != 20 {
                return None;
            }
            Some(array_of(&bytes))
        },
        Err(_) => None,
    }
}

proof fn lemma_padding_is_hex(s: Seq<char>, width: nat)
    ensures
        is_hex(zero_padded(s, width)) <==> is_hex(s),
{
    let padded = zero_padded(s, width);
    let shift = padded.len() - s.len();
    if is_hex(padded) {
        assert forall|i: int| 0 <= i < s.len() implies is_digit(#[trigger] s[i]) by {
            assert(padded[i + shift] == s[i]);
        }
    }
}

/// The number that a text of hexadecimal digits stands for.
pub open spec fn hex_value(s: Seq<char>) -> nat
    decreases s.len(),
{
    if s.len() == 0 {
        0
    } else {
        16 * hex_value(s.drop_last()) + digit_value(s.last())
    }
}

/// Whether `c` is a digit of lower-case hexadecimal text.
spec fn is_lower_digit(c: char) -> bool {
    ('0' <= c && c <= '9') || ('a' <= c && c <= 'f')
}

spec fn is_lower_hex(s: Seq<char>) -> bool {
    forall|i: int| 0 <= i < s.len() ==> is_lower_digit(#[trigger] s[i])
}

proof fn lemma_digit(n: nat)
    requires
        n < 16,
    ensures
        is_lower_digit(digit(n)),
        is_digit(digit(n)),
        digit_value(digit(n)) == n,
{
}

proof fn lemma_lower_digit(c: char)
    requires
        is_lower_digit(c),
    ensures
        digit_value(c) < 16,
        digit(digit_value(c)) == c,
{
}

proof fn lemma_hex_of_is_lower(bytes: Seq<u8>)
    ensures
        is_lower_hex(hex_of(bytes)),
        is_hex(hex_of(bytes)),
{
    let text = hex_of(bytes);
    assert forall|i: int| 0 <= i < text.len() implies is_lower_digit(#[trigger] text[i]) && is_digit(
        text[i],
    ) by {
        lemma_digit(bytes[i / 2] as nat / 16);
        lemma_digit(bytes[i / 2] as nat % 16);
    }
}

proof fn lemma_hex_of_value(bytes: Seq<u8>)
    ensures
        hex_value(hex_of(bytes)) == be_value(bytes),
    decreases bytes.len(),
{
    if bytes.len() > 0 {
        let front = bytes.drop_last();
        let last = bytes.last() as nat;
        let text = hex_of(bytes);
        let n = text.len();
        lemma_hex_of_value(front);
        assert(text.drop_last().drop_last() =~= hex_of(front)) by {
            assert forall|i: int| 0 <= i < n - 2 implies text[i] == hex_of(front)[i] by {
                assert(bytes[i / 2] == front[i / 2]);
            }
        }
        lemma_digit(last / 16);
        lemma_digit(last % 16);
        assert(text[n - 1] == digit(last % 16));
        assert(text[n - 2] == digit(last / 16));
        assert(text.drop_last().last() == text[n - 2]);
        assert(hex_value(text) == 16 * hex_value(text.drop_last()) + last % 16);
        assert(hex_value(text.drop_last()) == 16 * hex_value(hex_of(front)) + last / 16);
    }
}

/// Digits without a leading zero are the digits of the number they stand for.
proof fn lemma_digits_of_number(s: Seq<char>)
    requires
        s.len() >= 1,
        is_lower_hex(s),
        s.len() == 1 || s[0] != '0',
    ensures
        hex_number(hex_value(s)) == s,
        s.len() > 1 ==> hex_value(s) >= 16,
        s[0] != '0' ==> hex_value(s) >= 1,
    decreases s.len(),
{
    let front = s.drop_last();
    let last = s.last();
    lemma_lower_digit(last);
    if s.len() == 1 {
        assert(hex_value(front) == 0);
        assert(s =~= seq![last]);
    } else {
        assert(front[0] == s[0]);
        lemma_digits_of_number(front);
        let value = hex_value(s);
        assert(value / 16 == hex_value(front));
        assert(value % 16 == digit_value(last));
        assert(s =~= front.push(last));
    }
}

/// The value of text does not change with zeros at its front.
proof fn lemma_leading_zeros(s: Seq<char>, skip: int)
    requires
        0 <= skip <= s.len(),
        forall|i: int| 0 <= i < skip ==> s[i] == '0',
    ensures
        hex_value(s.skip(skip)) == hex_value(s),
    decreases s.len(),
{
    if s.len() == skip {
        if s.len() > 0 {
            assert(s.drop_last().skip(skip - 1) =~= Seq::empty());
            lemma_leading_zeros(s.drop_last(), skip - 1);
            assert(hex_value(s.drop_last().skip(skip - 1)) == 0);
        }
        assert(s.skip(skip) =~= Seq::empty());
    } else {
        lemma_leading_zeros(s.drop_last(), skip);
        assert(s.skip(skip).drop_last() =~= s.drop_last().skip(skip));
    }
}

/// The number that the bytes stand for, as text with the prefix `0x` and
/// without leading zeros.
pub fn quantity_text(bytes: &[u8]) -> (res: String)
    ensures
        res@ == "0x"@ + hex_number(be_value(bytes@)),
{
    let digits = hex_encode(bytes);
    let text = digits.as_str();
    let len: usize = text.unicode_len();
    let mut skip: usize = 0;
    while skip < len && text.get_char(skip) == '0'
        invariant
            skip <= len,
            len == text@.len(),
            forall|i: int| 0 <= i < skip ==> text@[i] == '0',
        decreases len - skip,
    {
        skip = skip + 1;
    }
    let mut res = String::new();
    res.append("0x");
    assert(res@ =~= "0x"@);
    let ghost value = be_value(bytes@);
    proof {
        lemma_hex_of_value(bytes@);
        lemma_hex_of_is_lower(bytes@);
        lemma_leading_zeros(text@, skip as int);
    }
    if skip == len {
        res.append("0");
        proof {
            reveal_strlit("0");
            assert(text@.skip(skip as int) =~= Seq::empty());
            assert("0"@ =~= hex_number(0));
        }
    } else {
        let significant = text.substring_char(skip, len);
        res.append(significant);
        proof {
            assert(significant@ =~= text@.skip(skip as int));
            lemma_digits_of_number(significant@);
        }
    }
    res
}

/// The bytes as text with the prefix `0x`, two digits each.
pub fn bytes_text(bytes: &[u8]) -> (res: String)
    ensures
        res@ == "0x"@ + hex_of(bytes@),
{
    let mut res = String::new();
    res.append("0x");
    let digits = hex_encode(bytes);
    res.append(digits.as_str());
    assert(res@ =~= "0x"@ + hex_of(bytes@));
    res
}

/// The digit of a value below 16, as text.
pub(crate) fn digit_text(n: u64) -> (res: &'static str)
    requires
        n < 16,
    ensures
        res@ == seq![digit(n as nat)],
{
    proof {
        reveal_strlit("0");
        reveal_strlit("1");
        reveal_strlit("2");
        reveal_strlit("3");
        reveal_strlit("4");
        reveal_strlit("5");
        reveal_strlit("6");
        reveal_strlit("7");
        reveal_strlit("8");
        reveal_strlit("9");
        reveal_strlit("a");
        reveal_strlit("b");
        reveal_strlit("c");
        reveal_strlit("d");
        reveal_strlit("e");
        reveal_strlit("f");
    }
    match n {
        0 => "0",
        1 => "1",
        2 => "2",
        3 => "3",
        4 => "4",
        5 => "5",
        6 => "6",
        7 => "7",
        8 => "8",
        9 => "9",
        10 => "a",
        11 => "b",
        12 => "c",
        13 => "d",
        14 => "e",
        _ => "f",
    }
}

fn append_number(text: &mut String, n: u64)
    ensures
        final(text)@ == old(text)@ + hex_number(n as nat),
    decreases n,
{
    let ghost before = text@;
    if n >= 16 {
        append_number(text, n / 16);
    }
    text.append(digit_text(n % 16));
    assert(text@ =~= before + hex_number(n as nat));
}

/// The number as text with the prefix `0x` and without leading zeros.
pub fn number_text(n: u64) -> (res: String)
    ensures
        res@ == "0x"@ + hex_number(n as nat),
{
    let mut res = String::new();
    res.append("0x");
    append_number(&mut res, n);
    assert(res@ =~= "0x"@ + hex_number(n as nat));
    res
}

/// Bytes written as text are read back from it.
pub proof fn law_hex_round_trip(bytes: Seq<u8>)
    ensures
        is_hex(hex_of(bytes)),
        hex_bytes(hex_of(bytes)) == bytes,
{
    let text = hex_of(bytes);
    lemma_hex_of_is_lower(bytes);
    assert forall|i: int| 0 <= i < bytes.len() implies hex_bytes(text)[i] == bytes[i] by {
        lemma_digit(bytes[i] as nat / 16);
        lemma_digit(bytes[i] as nat % 16);
        assert((2 * i) / 2 == i && (2 * i + 1) / 2 == i);
        assert((2 * i) % 2 == 0 && (2 * i + 1) % 2 == 1);
        assert(text[2 * i] == digit(bytes[i] as nat / 16));
        assert(text[2 * i + 1] == digit(bytes[i] as nat % 16));
    }
    assert(hex_bytes(text) =~= bytes);
}

/// No two byte strings are written alike.
pub proof fn lemma_hex_injective(a: Seq<u8>, b: Seq<u8>)
    requires
        hex_of(a) == hex_of(b),
    ensures
        a == b,
{
    law_hex_round_trip(a);
    law_hex_round_trip(b);
}

proof fn lemma_number_value(n: nat)
    ensures
        hex_value(hex_number(n)) == n,
    decreases n,
{
    reveal_with_fuel(hex_value, 2);
    lemma_digit(n % 16);
    if n >= 16 {
        lemma_number_value(n / 16);
        assert(hex_number(n).drop_last() =~= hex_number(n / 16));
    } else {
        assert(hex_number(n).drop_last() =~= Seq::empty());
    }
}

/// No two numbers are written alike.
pub proof fn lemma_hex_number_injective(m: nat, n: nat)
    requires
        hex_number(m) == hex_number(n),
    ensures
        m == n,
{
    lemma_number_value(m);
    lemma_number_value(n);
}

proof fn lemma_0x_dropped(digits: Seq<char>)
    requires
        is_hex(digits),
    ensures
        without_0x(digits) == digits,
        without_0x("0x"@ + digits) == digits,
{
    reveal_strlit("0x");
    let text = "0x"@ + digits;
    if digits.len() >= 2 {
        assert(is_digit(digits[1]));
    }
    assert(without_0x(digits) == digits);
    assert(text[0] == '0' && text[1] == 'x');
    assert(text.skip(2) =~= digits);
    assert(without_0x(text) == without_0x(text.skip(2)));
}

/// A 32-byte value is read back from its text, with or without prefix.
pub proof fn law_bytes32_round_trip(bytes: Seq<u8>)
    requires
        bytes.len() == 32,
    ensures
        bytes32_of("0x"@ + hex_of(bytes)) == Some(bytes),
        bytes32_of(hex_of(bytes)) == Some(bytes),
{
    law_hex_round_trip(bytes);
    lemma_0x_dropped(hex_of(bytes));
}

/// An address is read back from its text, with or without prefix.
pub proof fn law_address_round_trip(bytes: Seq<u8>)
    requires
        bytes.len() == 20,
    ensures
        address_of("0x"@ + hex_of(bytes)) == Some(bytes),
        address_of(hex_of(bytes)) == Some(bytes),
{
    law_hex_round_trip(bytes);
    lemma_0x_dropped(hex_of(bytes));
}

/// Leading zeros of a 32-byte value may be left out of its text.
pub proof fn law_bytes32_ignores_leading_zero(digits: Seq<char>)
    requires
        is_hex(digits),
        digits.len() < 64,
    ensures
        bytes32_of(seq!['0'] + digits) == bytes32_of(digits),
{
    let longer = seq!['0'] + digits;
    assert forall|i: int| 0 <= i < longer.len() implies is_digit(#[trigger] longer[i]) by {
        if i > 0 {
            assert(longer[i] == digits[i - 1]);
        }
    }
    lemma_0x_dropped(digits);
    lemma_0x_dropped(longer);
    assert(zero_padded(longer, 64) =~= zero_padded(digits, 64));
}

/// Whether a text is made of `n` prefixes `0x` and of `digits`, which do not
/// begin with another one.
pub open spec fn is_prefixed(s: Seq<char>, n: nat, digits: Seq<char>) -> bool {
    &&& s.len() == 2 * n + digits.len()
    &&& forall|i: int| 0 <= i < n ==> #[trigger] has_0x_at(s, 2 * i)
    &&& s.skip(2 * n as int) == digits
    &&& !(digits.len() >= 2 && digits[0] == '0' && digits[1] == 'x')
}

/// Whether `0x` stands at a position of a text.
pub open spec fn has_0x_at(s: Seq<char>, at: int) -> bool {
    0 <= at && at + 1 < s.len() && s[at] == '0' && s[at + 1] == 'x'
}

/// The half of a byte at a position, where every byte has two of them and the
/// high one comes first.
pub open spec fn half_byte(bytes: Seq<u8>, at: int) -> nat {
    if at % 2 == 0 {
        bytes[at / 2] as nat / 16
    } else {
        bytes[at / 2] as nat % 16
    }
}

proof fn lemma_prefixes_dropped(s: Seq<char>, n: nat, digits: Seq<char>)
    requires
        is_prefixed(s, n, digits),
    ensures
        without_0x(s) == digits,
    decreases n,
{
    if n == 0 {
        assert(s.skip(0) =~= s);
    } else {
        let rest = s.skip(2);
        let first: int = 0;
        assert(has_0x_at(s, 2 * first));
        assert forall|i: int| 0 <= i < n - 1 implies #[trigger] has_0x_at(rest, 2 * i) by {
            assert(has_0x_at(s, 2 * (i + 1)));
        }
        assert(rest.skip(2 * (n - 1)) =~= s.skip(2 * n as int));
        lemma_prefixes_dropped(rest, (n - 1) as nat, digits);
    }
}

proof fn lemma_half_bytes(s: Seq<char>, at: int)
    requires
        s.len() % 2 == 0,
        is_hex(s),
        0 <= at < s.len(),
    ensures
        half_byte(hex_bytes(s), at) == digit_value(s[at]),
{
    let i = at / 2;
    assert(is_digit(s[2 * i]) && is_digit(s[2 * i + 1]));
    let high = digit_value(s[2 * i]);
    let low = digit_value(s[2 * i + 1]);
    assert(high < 16 && low < 16);
    assert(hex_bytes(s)[i] == (16 * high + low) as u8);
    assert((16 * high + low) / 16 == high && (16 * high + low) % 16 == low);
    assert(at == 2 * i || at == 2 * i + 1);
}

/// A 32-byte value is read from a text exactly if what follows its prefixes is up
/// to 64 hexadecimal digits. The digits are the last half bytes of the value, and
/// those before them are zero.
pub proof fn law_bytes32_has_the_digits(s: Seq<char>, n: nat, digits: Seq<char>)
    requires
        is_prefixed(s, n, digits),
    ensures
        bytes32_of(s) is Some <==> digits.len() <= 64 && forall|i: int|
            0 <= i < digits.len() ==> is_digit(#[trigger] digits[i]),
        bytes32_of(s) is Some ==> {
            let bytes = bytes32_of(s)->Some_0;
            &&& bytes.len() == 32
            &&& forall|at: int|
                0 <= at < 64 ==> #[trigger] half_byte(bytes, at) == if at < 64 - digits.len() {
                    0
                } else {
                    digit_value(digits[at - (64 - digits.len())])
                }
        },
{
    lemma_prefixes_dropped(s, n, digits);
    if bytes32_of(s) is Some {
        let bytes = bytes32_of(s)->Some_0;
        let padded = zero_padded(digits, 64);
        lemma_padding_is_hex(digits, 64);
        assert forall|at: int| 0 <= at < 64 implies #[trigger] half_byte(bytes, at) == if at < 64
            - digits.len() {
            0
        } else {
            digit_value(digits[at - (64 - digits.len())])
        } by {
            lemma_half_bytes(padded, at);
        }
    }
}

/// An address is read from a text exactly if what follows its prefixes is 40
/// hexadecimal digits. They are its half bytes.
pub proof fn law_address_has_the_digits(s: Seq<char>, n: nat, digits: Seq<char>)
    requires
        is_prefixed(s, n, digits),
    ensures
        address_of(s) is Some <==> digits.len() == 40 && forall|i: int|
            0 <= i < digits.len() ==> is_digit(#[trigger] digits[i]),
        address_of(s) is Some ==> {
            let bytes = address_of(s)->Some_0;
            &&& bytes.len() == 20
            &&& forall|at: int|
                0 <= at < 40 ==> #[trigger] half_byte(bytes, at) == digit_value(digits[at])
        },
{
    lemma_prefixes_dropped(s, n, digits);
    if address_of(s) is Some {
        let bytes = address_of(s)->Some_0;
        assert forall|at: int| 0 <= at < 40 implies #[trigger] half_byte(bytes, at) == digit_value(
            digits[at],
        ) by {
            lemma_half_bytes(digits, at);
        }
    }
}

/// The text of a number stands for that number, in lower-case digits and without
/// leading zeros.
pub proof fn law_number_text_is_the_number(n: nat)
    ensures
        hex_number(n).len() > 0,
        hex_value(hex_number(n)) == n,
        hex_number(n)[0] == '0' ==> n == 0 && hex_number(n).len() == 1,
        forall|i: int|
            0 <= i < hex_number(n).len() ==> ('0' <= (#[trigger] hex_number(n)[i]) && hex_number(
                n,
            )[i] <= '9') || ('a' <= hex_number(n)[i] && hex_number(n)[i] <= 'f'),
    decreases n,
{
    lemma_number_value(n);
    lemma_digit(n % 16);
    if n >= 16 {
        let front = hex_number(n / 16);
        law_number_text_is_the_number(n / 16);
        assert(hex_number(n)[0] == front[0]);
        assert forall|i: int| 0 <= i < hex_number(n).len() implies ('0' <= (
        #[trigger] hex_number(n)[i]) && hex_number(n)[i] <= '9') || ('a' <= hex_number(n)[i]
            && hex_number(n)[i] <= 'f') by {
            if i < front.len() {
                assert(hex_number(n)[i] == front[i]);
            }
        }
    } else {
        lemma_digit(n);
    }
}

/// The value of hexadecimal text is that of its digits, each worth sixteen times
/// the next.
pub proof fn law_hex_value_adds_up(s: Seq<char>, c: char)
    ensures
        hex_value(Seq::empty()) == 0,
        hex_value(s.push(c)) == 16 * hex_value(s) + digit_value(c),
{
    assert(s.push(c).drop_last() =~= s);
}

} // verus!
