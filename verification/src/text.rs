//! Text and its bytes: comparing strings, decimal numerals, UTF-8.

use vstd::prelude::*;
use vstd::slice::slice_subrange;
use vstd::string::{StrSliceExecFns, StringExecFns};
use vstd::utf8::{
    decode_utf8, encode_scalar, encode_utf8, encode_utf8_decode_utf8, encode_utf8_first_scalar,
    encode_utf8_valid_utf8, valid_utf8,
};

verus! {

/// The character of a decimal digit.
pub open spec fn digit(d: nat) -> char
    recommends
        d < 10,
{
    ((48 + d) as u8) as char
}

/// The decimal numeral of a number, without leading zeros.
pub open spec fn decimal(n: nat) -> Seq<char>
    decreases n,
{
    if n < 10 {
        seq![digit(n)]
    } else {
        decimal(n / 10).push(digit(n % 10))
    }
}

/// The one-character string of a decimal digit.
fn digit_str(d: u32) -> (s: &'static str)
    requires
        d < 10,
    ensures
        s@ == seq![digit(d as nat)],
{
    proof {
        reveal_strlit("0");
        reveal_strlit("1");
        reveal_strlit("2");
        reveal_strlit("3");
        reveal_strlit("4");
        reveal_strlit("5");
        reveal_strlit("6");
        reveal_strlit("7");
        reveal_strlit("8");
        reveal_strlit("9");
    }
    let s = match d {
        0 => "0",
        1 => "1",
        2 => "2",
        3 => "3",
        4 => "4",
        5 => "5",
        6 => "6",
        7 => "7",
        8 => "8",
        _ => "9",
    };
    assert(s@ =~= seq![digit(d as nat)]);
    s
}

/// Append the decimal numeral of `n` to `out`.
pub(crate) fn push_decimal(out: &mut String, n: u32)
    ensures
        final(out)@ == old(out)@ + decimal(n as nat),
    decreases n,
{
    if n >= 10 {
        push_decimal(out, n / 10);
    }
    out.append(digit_str(n % 10));
}

/// Whether two byte strings are the same.
pub(crate) fn bytes_eq(a: &[u8], b: &[u8]) -> (same: bool)
    ensures
        same == (a@ == b@),
{
    if a.len() != b.len() {
        return false;
    }
    for i in 0..a.len()
        invariant
            a@.len() == b@.len(),
            forall|j: int| 0 <= j < i ==> a@[j] == b@[j],
    {
        if a[i] != b[i] {
            return false;
        }
    }
    assert(a@ =~= b@);
    true
}

/// Whether a byte occurs in a byte string.
pub(crate) fn contains_byte(bytes: &[u8], byte: u8) -> (found: bool)
    ensures
        found == bytes@.contains(byte),
{
    for i in 0..bytes.len()
        invariant
            forall|j: int| 0 <= j < i ==> bytes@[j] != byte,
    {
        if bytes[i] == byte {
            return true;
        }
    }
    false
}

/// Whether two strings hold the same characters.
pub(crate) fn str_eq(a: &str, b: &str) -> (same: bool)
    ensures
        same == (a@ == b@),
{
    proof {
        encode_utf8_decode_utf8(a@);
        encode_utf8_decode_utf8(b@);
    }
    bytes_eq(a.as_bytes(), b.as_bytes())
}

/// Calls `std::str::from_utf8`: a byte string is accepted exactly when it is valid
/// UTF-8, and the string given back has those bytes.
#[verifier::external_body]
pub(crate) fn from_utf8(bytes: &[u8]) -> (text: Option<&str>)
    ensures
        text is Some <==> valid_utf8(bytes@),
        text matches Some(s) ==> encode_utf8(s@) == bytes@,
{
    std::str::from_utf8(bytes).ok()
}

/// The text that `String::from_utf8_lossy` makes of a byte string.
pub uninterp spec fn utf8_lossy(bytes: Seq<u8>) -> Seq<char>;

/// A byte string as people read it: decoded where it is valid UTF-8, and else with
/// its invalid parts replaced.
pub open spec fn shown(bytes: Seq<u8>) -> Seq<char> {
    if valid_utf8(bytes) {
        decode_utf8(bytes)
    } else {
        utf8_lossy(bytes)
    }
}

/// Calls `String::from_utf8_lossy`: valid UTF-8 is decoded as it is. In other byte
/// strings each maximal invalid part is replaced; what comes out then is only named.
#[verifier::external_body]
pub(crate) fn lossy(bytes: &[u8]) -> (text: String)
    ensures
        text@ == utf8_lossy(bytes@),
        valid_utf8(bytes@) ==> text@ == decode_utf8(bytes@),
{
    String::from_utf8_lossy(bytes).into_owned()
}

/// What `char::escape_debug` makes of a character.
pub uninterp spec fn escaped(c: char) -> Seq<char>;

/// Calls `char::escape_debug`, which spells a character with an escape where it needs
/// one. The spelling is only named.
#[verifier::external_body]
fn escape(c: char) -> (text: String)
    ensures
        text@ == escaped(c),
{
    c.escape_debug().to_string()
}

/// How many bytes the character at the beginning of a byte string takes, or 0 where no
/// character begins there.
pub open spec fn first_char_len(bytes: Seq<u8>) -> int {
    if bytes.len() >= 1 && valid_utf8(bytes.take(1)) {
        1
    } else if bytes.len() >= 2 && valid_utf8(bytes.take(2)) {
        2
    } else if bytes.len() >= 3 && valid_utf8(bytes.take(3)) {
        3
    } else if bytes.len() >= 4 && valid_utf8(bytes.take(4)) {
        4
    } else {
        0
    }
}

/// The upper-case hexadecimal digit of a number.
pub open spec fn hex_digit(d: nat) -> char
    recommends
        d < 16,
{
    if d < 10 {
        ((48 + d) as u8) as char
    } else {
        ((55 + d) as u8) as char
    }
}

/// A byte that belongs to no character, as an escape.
pub open spec fn byte_escape(byte: u8) -> Seq<char> {
    seq!['\\', 'x', hex_digit((byte / 16) as nat), hex_digit((byte % 16) as nat)]
}

/// A character as it stands between double quotes: a single quote needs no escape.
pub open spec fn quoted_char(c: char) -> Seq<char> {
    if c == '\'' {
        seq![c]
    } else {
        escaped(c)
    }
}

/// A byte string as it stands between quotes: characters with their escapes, and other
/// bytes as numbers.
pub open spec fn quoted_part(bytes: Seq<u8>) -> Seq<char>
    decreases bytes.len(),
{
    let n = first_char_len(bytes);
    if bytes.len() == 0 {
        Seq::empty()
    } else if n > 0 {
        quoted_char(decode_utf8(bytes.take(n))[0]) + quoted_part(bytes.skip(n))
    } else {
        byte_escape(bytes[0]) + quoted_part(bytes.skip(1))
    }
}

/// The one-character string of a hexadecimal digit.
fn hex_str(d: u8) -> (s: &'static str)
    requires
        d < 16,
    ensures
        s@ == seq![hex_digit(d as nat)],
{
    if d < 10 {
        digit_str(d as u32)
    } else {
        proof {
            reveal_strlit("A");
            reveal_strlit("B");
            reveal_strlit("C");
            reveal_strlit("D");
            reveal_strlit("E");
            reveal_strlit("F");
        }
        let s = match d {
            10 => "A",
            11 => "B",
            12 => "C",
            13 => "D",
            14 => "E",
            _ => "F",
        };
        assert(s@ =~= seq![hex_digit(d as nat)]);
        s
    }
}

/// The character at a place of a byte string and how many bytes it takes, if one begins
/// there.
fn char_at(bytes: &[u8], at: usize) -> (found: Option<(char, usize)>)
    requires
        at <= bytes@.len(),
    ensures
        match found {
            Some((c, n)) => {
                let rest = bytes@.skip(at as int);
                &&& n > 0
                &&& n == first_char_len(rest)
                &&& c == decode_utf8(rest.take(n as int))[0]
                &&& at + n <= bytes@.len()
            },
            None => first_char_len(bytes@.skip(at as int)) == 0,
        },
{
    let ghost rest = bytes@.skip(at as int);
    let mut n: usize = 1;
    while n <= 4 && n <= bytes.len() - at
        invariant
            at <= bytes@.len(),
            1 <= n <= 5,
            rest == bytes@.skip(at as int),
            forall|k: int|
                1 <= k < n && k <= rest.len() ==> !#[trigger] valid_utf8(rest.take(k)),
        decreases 5 - n,
    {
        let part = slice_subrange(bytes, at, at + n);
        assert(part@ =~= rest.take(n as int));
        if let Some(text) = from_utf8(part) {
            proof {
                encode_utf8_decode_utf8(text@);
                if text@.len() == 0 {
                    assert(part@.len() == 0);
                }
                assert(n > 1 ==> !valid_utf8(rest.take(1)));
                assert(n > 2 ==> !valid_utf8(rest.take(2)));
                assert(n > 3 ==> !valid_utf8(rest.take(3)));
            }
            return Some((text.get_char(0), n));
        }
        n = n + 1;
    }
    proof {
        assert(rest.len() >= 1 ==> !valid_utf8(rest.take(1)));
        assert(rest.len() >= 2 ==> !valid_utf8(rest.take(2)));
        assert(rest.len() >= 3 ==> !valid_utf8(rest.take(3)));
        assert(rest.len() >= 4 ==> !valid_utf8(rest.take(4)));
    }
    None
}

/// A byte string between quotes, with escapes.
pub(crate) fn quoted(bytes: &[u8]) -> (text: String)
    ensures
        text@ == seq!['"'] + quoted_part(bytes@) + seq!['"'],
{
    proof {
        reveal_strlit("\"");
        reveal_strlit("\\x");
        reveal_strlit("'");
    }
    let mut text = "\"".to_string();
    let mut at: usize = 0;
    assert(text@ =~= seq!['"']);
    assert(bytes@.skip(0) =~= bytes@);
    while at < bytes.len()
        invariant
            at <= bytes@.len(),
            "\\x"@ =~= seq!['\\', 'x'],
            "'"@ =~= seq!['\''],
            text@ + quoted_part(bytes@.skip(at as int)) == seq!['"'] + quoted_part(bytes@),
        decreases bytes@.len() - at,
    {
        let ghost before = text@;
        let ghost rest = bytes@.skip(at as int);
        match char_at(bytes, at) {
            Some((c, n)) => {
                if c == '\'' {
                    text.append("'");
                } else {
                    text.append(escape(c).as_str());
                }
                assert(text@ =~= before + quoted_char(c));
                assert(rest.skip(n as int) =~= bytes@.skip(at + n));
                assert(text@ + quoted_part(rest.skip(n as int)) =~= before + quoted_part(rest));
                at = at + n;
            },
            None => {
                text.append("\\x");
                text.append(hex_str(bytes[at] / 16));
                text.append(hex_str(bytes[at] % 16));
                assert(text@ =~= before + byte_escape(rest[0]));
                assert(rest.skip(1) =~= bytes@.skip(at + 1));
                assert(text@ + quoted_part(rest.skip(1)) =~= before + quoted_part(rest));
                at = at + 1;
            },
        }
    }
    assert(bytes@.skip(at as int) =~= Seq::<u8>::empty());
    assert(text@ =~= seq!['"'] + quoted_part(bytes@));
    text.append("\"");
    assert("\""@ =~= seq!['"']);
    text
}

/// Declares `std::fmt::Formatter`, which passes text on to a buffer.
#[verifier::external_type_specification]
#[verifier::external_body]
pub struct ExFormatter<'a>(std::fmt::Formatter<'a>);

/// Declares `std::fmt::Error`, which the buffer of a formatter may answer with.
#[verifier::external_type_specification]
#[verifier::external_body]
pub struct ExFmtError(std::fmt::Error);

/// The text that has been handed to the buffer of a formatter.
pub uninterp spec fn handed(f: std::fmt::Formatter<'_>) -> Seq<char>;

/// Calls `Formatter::write_str`, which hands the text to the formatter's buffer. What
/// the buffer answers is left open.
#[verifier::external_body]
pub(crate) fn write_text(f: &mut std::fmt::Formatter<'_>, text: &str) -> (r: std::fmt::Result)
    ensures
        handed(*final(f)) == handed(*old(f)) + text@,
{
    f.write_str(text)
}

/// A numeral holds decimal digits only, begins with a zero only where it is one digit
/// long, and gives its number back when it is read from left to right.
pub proof fn law_numeral(n: nat)
    ensures
        decimal(n).len() > 0,
        forall|i: int| 0 <= i < decimal(n).len() ==> '0' <= #[trigger] decimal(n)[i] <= '9',
        decimal(n).len() > 1 ==> decimal(n)[0] != '0',
        decimal(n).fold_left(0int, |sum: int, c: char| 10 * sum + (c as int - 48)) == n,
    decreases n,
{
    let read = |sum: int, c: char| 10 * sum + (c as int - 48);
    if n >= 10 {
        law_numeral(n / 10);
        let init = decimal(n / 10);
        assert(decimal(n).drop_last() =~= init);
        assert(forall|i: int| 0 <= i < init.len() ==> decimal(n)[i] == init[i]);
        assert(init.len() == 1 ==> init[0] != '0') by {
            if n / 10 < 10 {
                assert(init == seq![digit(n / 10)]);
            } else {
                assert(init == decimal(n / 10 / 10).push(digit(n / 10 % 10)));
                law_numeral(n / 10 / 10);
            }
        }
    } else {
        assert(decimal(n).drop_last() =~= Seq::<char>::empty());
    }
    assert(decimal(n).fold_left(0int, read) == read(
        decimal(n).drop_last().fold_left(0int, read),
        decimal(n).last(),
    ));
}

/// Text is shown as it is.
pub proof fn law_text_shown(text: Seq<char>)
    ensures
        shown(encode_utf8(text)) == text,
{
    encode_utf8_valid_utf8(text);
    encode_utf8_decode_utf8(text);
}

/// A byte string that is not text is shown as `String::from_utf8_lossy` has it.
pub proof fn law_bytes_shown(bytes: Seq<u8>)
    requires
        !valid_utf8(bytes),
    ensures
        shown(bytes) == utf8_lossy(bytes),
{
}

/// Between quotes, text is spelled character by character, whatever bytes follow it: a
/// single quote stands for itself, and every other character is escaped.
pub proof fn law_text_quoted(text: Seq<char>, rest: Seq<u8>, parts: Seq<Seq<char>>)
    requires
        parts.len() == text.len(),
        forall|i: int|
            0 <= i < text.len() ==> #[trigger] parts[i] == (if text[i] == '\'' {
                seq!['\'']
            } else {
                escaped(text[i])
            }),
    ensures
        quoted_part(encode_utf8(text) + rest) == parts.flatten() + quoted_part(rest),
    decreases text.len(),
{
    if text.len() > 0 {
        let bytes = encode_utf8(text) + rest;
        let next = text.drop_first();
        let n = encode_scalar(text[0] as u32).len() as int;
        encode_utf8_first_scalar(text);
        assert(bytes.skip(n) =~= encode_utf8(next) + rest);
        let one = seq![text[0]];
        assert(one.drop_first() =~= Seq::<char>::empty());
        assert(encode_utf8(one.drop_first()) =~= Seq::<u8>::empty());
        assert(encode_utf8(one) == encode_scalar(one[0] as u32) + encode_utf8(one.drop_first()));
        assert(encode_utf8(one) =~= encode_scalar(text[0] as u32));
        assert(bytes.take(n) =~= encode_utf8(one));
        encode_utf8_valid_utf8(one);
        encode_utf8_decode_utf8(one);
        assert(bytes[0] == encode_utf8(text)[0]);
        assert forall|k: int| 1 <= k < n implies !valid_utf8(#[trigger] bytes.take(k)) by {
            assert(bytes.take(k)[0] == bytes[0]);
        }
        assert(1 <= n <= 4);
        assert(n > 1 ==> !valid_utf8(bytes.take(1)));
        assert(n > 2 ==> !valid_utf8(bytes.take(2)));
        assert(n > 3 ==> !valid_utf8(bytes.take(3)));
        assert(first_char_len(bytes) == n);
        law_text_quoted(next, rest, parts.drop_first());
        assert(parts.flatten() == parts[0] + parts.drop_first().flatten());
        assert(quoted_part(bytes) =~= parts.flatten() + quoted_part(rest));
    } else {
        assert(encode_utf8(text) + rest =~= rest);
        assert(parts.flatten() + quoted_part(rest) =~= quoted_part(rest));
    }
}

/// Between quotes, a byte with which no character begins is spelled as `\x` and two
/// upper-case hexadecimal digits, which give its value.
pub proof fn law_byte_quoted(bytes: Seq<u8>)
    requires
        bytes.len() > 0,
        forall|k: int| 1 <= k <= 4 && k <= bytes.len() ==> !#[trigger] valid_utf8(bytes.take(k)),
    ensures
        ({
            let text = quoted_part(bytes);
            let value = |c: char|
                if '0' <= c <= '9' {
                    c as int - 48
                } else {
                    c as int - 55
                };
            &&& text.len() >= 4
            &&& text[0] == '\\'
            &&& text[1] == 'x'
            &&& '0' <= text[2] <= '9' || 'A' <= text[2] <= 'F'
            &&& '0' <= text[3] <= '9' || 'A' <= text[3] <= 'F'
            &&& 16 * value(text[2]) + value(text[3]) == bytes[0]
            &&& text.skip(4) == quoted_part(bytes.skip(1))
        }),
{
    assert(bytes.len() >= 1 ==> !valid_utf8(bytes.take(1)));
    assert(bytes.len() >= 2 ==> !valid_utf8(bytes.take(2)));
    assert(bytes.len() >= 3 ==> !valid_utf8(bytes.take(3)));
    assert(bytes.len() >= 4 ==> !valid_utf8(bytes.take(4)));
    assert(quoted_part(bytes) == byte_escape(bytes[0]) + quoted_part(bytes.skip(1)));
    assert(quoted_part(bytes).skip(4) =~= quoted_part(bytes.skip(1)));
}

/// Concatenating one part more puts that part at the end.
pub(crate) proof fn lemma_flatten_next<T>(parts: Seq<Seq<T>>, k: int)
    requires
        0 <= k < parts.len(),
    ensures
        parts.take(k + 1).flatten() == parts.take(k).flatten() + parts[k],
{
    assert(parts.take(k + 1) =~= parts.take(k).push(parts[k]));
    parts.take(k).lemma_flatten_push(parts[k]);
}

} // verus!
