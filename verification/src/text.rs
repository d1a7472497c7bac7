//! Text: what bytes read as, and how numbers are written.

use vstd::prelude::*;
use vstd::string::{StrSliceExecFns, StringExecFns};

#[allow(unused_imports)]
use vstd::utf8::{decode_utf8, valid_utf8};

verus! {

/// What bytes that are not UTF-8 read as when every invalid part of them is
/// replaced by the replacement character U+FFFD.
pub uninterp spec fn lossy_utf8(bytes: Seq<u8>) -> Seq<char>;

/// What bytes read as: UTF-8 as the text that it encodes, and other bytes with their
/// invalid parts replaced.
pub open spec fn lossy_text(bytes: Seq<u8>) -> Seq<char> {
    if valid_utf8(bytes) {
        decode_utf8(bytes)
    } else {
        lossy_utf8(bytes)
    }
}

/// `String::from_utf8_lossy`: the text that `data` encodes, where it is valid UTF-8,
/// and otherwise its text with the invalid parts replaced.
#[verifier::external_body]
pub(crate) fn from_utf8_lossy(data: &[u8]) -> (s: String)
    ensures
        s@ == (if valid_utf8(data@) {
            decode_utf8(data@)
        } else {
            lossy_utf8(data@)
        }),
{
    String::from_utf8_lossy(data).into_owned()
}

/// `std::str::from_utf8`: the text that `data` encodes, where it is valid UTF-8.
#[verifier::external_body]
pub(crate) fn from_utf8(data: &[u8]) -> (s: Option<&str>)
    ensures
        s is Some <==> valid_utf8(data@),
        s is Some ==> s->0@ == decode_utf8(data@),
{
    std::str::from_utf8(data).ok()
}

/// Text without the NUL characters at its end.
pub open spec fn trim_nul(s: Seq<char>) -> Seq<char>
    decreases s.len(),
{
    if s.len() > 0 && s.last() == '\0' {
        trim_nul(s.drop_last())
    } else {
        s
    }
}

/// Drops the NUL characters at the end of `s`.
pub fn trim_end_nul(s: &str) -> (r: &str)
    ensures
        r@ == trim_nul(s@),
{
    let mut n = s.unicode_len();
    assert(s@.take(n as int) =~= s@);
    while n > 0 && s.get_char(n - 1) == '\0'
        invariant
            n <= s@.len(),
            trim_nul(s@.take(n as int)) == trim_nul(s@),
        ensures
            n <= s@.len(),
            trim_nul(s@.take(n as int)) == trim_nul(s@),
            n == 0 || s@[n - 1] != '\0',
        decreases n,
    {
        assert(s@.take(n as int).drop_last() =~= s@.take(n - 1));
        n = n - 1;
    }
    assert(s@.take(n as int) =~= s@.subrange(0, n as int));
    s.substring_char(0, n)
}

/// The digit `d` as a character.
pub open spec fn digit_char(d: int) -> char {
    if d == 0 {
        '0'
    } else if d == 1 {
        '1'
    } else if d == 2 {
        '2'
    } else if d == 3 {
        '3'
    } else if d == 4 {
        '4'
    } else if d == 5 {
        '5'
    } else if d == 6 {
        '6'
    } else if d == 7 {
        '7'
    } else if d == 8 {
        '8'
    } else if d == 9 {
        '9'
    } else if d == 10 {
        'a'
    } else if d == 11 {
        'b'
    } else if d == 12 {
        'c'
    } else if d == 13 {
        'd'
    } else if d == 14 {
        'e'
    } else {
        'f'
    }
}

/// `n` written in base 10, without leading zeros.
pub open spec fn decimal(n: nat) -> Seq<char>
    decreases n,
{
    if n < 10 {
        seq![digit_char(n as int)]
    } else {
        decimal(n / 10).push(digit_char((n % 10) as int))
    }
}

fn digit(d: u8) -> (s: &'static str)
    requires
        d < 16,
    ensures
        s@ == seq![digit_char(d as int)],
{
    proof {
        reveal_strlit("0");
        reveal_strlit("1");
        reveal_strlit("2");
        reveal_strlit("3");
        reveal_strlit("4");
        reveal_strlit("5");
        reveal_strlit("6");
        reveal_strlit("7");
        reveal_strlit("8");
        reveal_strlit("9");
        reveal_strlit("a");
        reveal_strlit("b");
        reveal_strlit("c");
        reveal_strlit("d");
        reveal_strlit("e");
        reveal_strlit("f");
    }
    match d {
        0 => "0",
        1 => "1",
        2 => "2",
        3 => "3",
        4 => "4",
        5 => "5",
        6 => "6",
        7 => "7",
        8 => "8",
        9 => "9",
        10 => "a",
        11 => "b",
        12 => "c",
        13 => "d",
        14 => "e",
        _ => "f",
    }
}

/// Writes `n` in base 10.
pub fn to_decimal(n: u64) -> (s: String)
    ensures
        s@ == decimal(n as nat),
    decreases n,
{
    if n < 10 {
        let mut s = String::new();
        s.append(digit(n as u8));
        s
    } else {
        let mut s = to_decimal(n / 10);
        s.append(digit((n % 10) as u8));
        s
    }
}

/// `b` as two hexadecimal digits.
pub open spec fn hex_byte(b: u8) -> Seq<char> {
    seq![digit_char((b / 16) as int), digit_char((b % 16) as int)]
}

/// Every byte as two hexadecimal digits.
pub open spec fn hex(bytes: Seq<u8>) -> Seq<char>
    decreases bytes.len(),
{
    if bytes.len() == 0 {
        seq![]
    } else {
        hex(bytes.drop_last()) + hex_byte(bytes.last())
    }
}

/// Writes every byte as two hexadecimal digits.
pub fn to_hex(data: &[u8]) -> (s: String)
    ensures
        s@ == hex(data@),
{
    let mut s = String::new();
    let mut i: usize = 0;
    while i < data.len()
        invariant
            i <= data@.len(),
            s@ == hex(data@.take(i as int)),
        decreases data@.len() - i,
    {
        s.append(digit(data[i] / 16));
        s.append(digit(data[i] % 16));
        assert(data@.take(i + 1).drop_last() =~= data@.take(i as int));
        i = i + 1;
    }
    assert(data@.take(i as int) =~= data@);
    s
}

/// `v` as `0x` and eight hexadecimal digits.
pub open spec fn hex32(v: u32) -> Seq<char> {
    "0x"@ + hex(
        seq![
            (v / 0x100_0000) as u8,
            (v / 0x1_0000 % 0x100) as u8,
            (v / 0x100 % 0x100) as u8,
            (v % 0x100) as u8,
        ],
    )
}

/// Writes `v` as `0x` and eight hexadecimal digits.
pub fn to_hex32(v: u32) -> (s: String)
    ensures
        s@ == hex32(v),
{
    let bytes: [u8; 4] = [
        (v / 0x100_0000) as u8,
        (v / 0x1_0000 % 0x100) as u8,
        (v / 0x100 % 0x100) as u8,
        (v % 0x100) as u8,
    ];
    let mut s = "0x".to_string();
    s.append(to_hex(&bytes).as_str());
    assert(bytes@ =~= seq![
        (v / 0x100_0000) as u8,
        (v / 0x1_0000 % 0x100) as u8,
        (v / 0x100 % 0x100) as u8,
        (v % 0x100) as u8,
    ]);
    s
}

} // verus!
