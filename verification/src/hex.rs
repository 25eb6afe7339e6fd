//! Hexadecimal text: two digits per byte, most significant digit first.

use vstd::prelude::*;
use vstd::string::*;

verus! {

/// The value of the hexadecimal digit with the given code point, upper or
/// lower case.
pub open spec fn code_value(code: u32) -> Option<u8> {
    if 48 <= code <= 57 {
        Some((code - 48) as u8)
    } else if 97 <= code <= 102 {
        Some((code - 97 + 10) as u8)
    } else if 65 <= code <= 70 {
        Some((code - 65 + 10) as u8)
    } else {
        None
    }
}

/// The value of a hexadecimal digit, upper or lower case.
pub open spec fn digit_value(c: char) -> Option<u8> {
    code_value(c as u32)
}

/// Text is hexadecimal when it has an even number of characters and each is
/// a hexadecimal digit.
pub open spec fn is_hex(text: Seq<char>) -> bool {
    &&& text.len() % 2 == 0
    &&& forall|i: int| 0 <= i < text.len() ==> digit_value(#[trigger] text[i]) is Some
}

/// The bytes that hexadecimal text stands for.
pub open spec fn decoded(text: Seq<char>) -> Seq<u8> {
    Seq::new(
        text.len() / 2,
        |i: int| (16 * digit_value(text[2 * i])->0 + digit_value(text[2 * i + 1])->0) as u8,
    )
}

/// The lower-case digit for a value below sixteen.
pub open spec fn digit_char(v: u8) -> char {
    if v < 10 {
        ('0' as u8 + v) as char
    } else {
        ('a' as u8 + (v - 10)) as char
    }
}

/// The lower-case hexadecimal text of `bytes`.
pub open spec fn encoded(bytes: Seq<u8>) -> Seq<char> {
    Seq::new(
        2 * bytes.len(),
        |i: int|
            if i % 2 == 0 {
                digit_char(bytes[i / 2] / 16)
            } else {
                digit_char(bytes[i / 2] % 16)
            },
    )
}

fn digit_of_byte(b: u8) -> (v: Option<u8>)
    ensures
        v == code_value(b as u32),
        v matches Some(d) ==> d < 16,
{
    if b >= 48 && b <= 57 {
        Some(b - 48)
    } else if b >= 97 && b <= 102 {
        Some(b - 97 + 10)
    } else if b >= 65 && b <= 70 {
        Some(b - 65 + 10)
    } else {
        None
    }
}

/// Decodes hexadecimal text. Returns `None` exactly when the text is not
/// hexadecimal.
pub fn decode(text: &str) -> (out: Option<Vec<u8>>)
    ensures
        out is Some <==> is_hex(text@),
        out matches Some(bytes) ==> bytes@ == decoded(text@),
{
    if !text.is_ascii() {
        proof {
            if is_hex(text@) {
                assert forall|i: int| 0 <= i < text@.len() implies '\0' <= #[trigger] text@[i]
                    <= '\u{7f}' by {
                    let c: char = text@[i];
                    assert(digit_value(c) is Some);
                    vstd::utf8::char_u32_cast(c, c as u32);
                }
                assert(vstd::utf8::is_ascii_chars(text@));
            }
        }
        return None;
    }
    let raw = text.as_bytes();
    proof {
        is_ascii_spec_bytes(text);
        vstd::utf8::is_ascii_chars_nat_bound(text@);
    }
    let n = raw.len();
    if n % 2 != 0 {
        return None;
    }
    let mut out: Vec<u8> = Vec::new();
    let mut i: usize = 0;
    while i < n / 2
        invariant
            n == raw@.len(),
            n == text@.len(),
            n % 2 == 0,
            i <= n / 2,
            forall|j: int| 0 <= j < n ==> (raw@[j] as u32) == (#[trigger] text@[j]) as u32,
            out@.len() == i,
            forall|j: int| 0 <= j < 2 * i ==> digit_value(#[trigger] text@[j]) is Some,
            forall|j: int| 0 <= j < i ==> out@[j] == decoded(text@)[j],
        decreases n / 2 - i,
    {
        let hi = digit_of_byte(raw[2 * i]);
        let lo = digit_of_byte(raw[2 * i + 1]);
        proof {
            assert(hi == digit_value(text@[2 * i as int]));
            assert(lo == digit_value(text@[2 * i + 1]));
        }
        match (hi, lo) {
            (Some(h), Some(l)) => {
                out.push(16 * h + l);
            },
            _ => {
                return None;
            },
        }
        i = i + 1;
    }
    assert(out@ =~= decoded(text@));
    Some(out)
}

fn digit_text(v: u8) -> (text: &'static str)
    requires
        v < 16,
    ensures
        text@ == seq![digit_char(v)],
{
    proof {
        reveal_strlit("0");
        reveal_strlit("1");
        reveal_strlit("2");
        reveal_strlit("3");
        reveal_strlit("4");
        reveal_strlit("5");
        reveal_strlit("6");
        reveal_strlit("7");
        reveal_strlit("8");
        reveal_strlit("9");
        reveal_strlit("a");
        reveal_strlit("b");
        reveal_strlit("c");
        reveal_strlit("d");
        reveal_strlit("e");
        reveal_strlit("f");
    }
    let text = if v == 0 {
        "0"
    } else if v == 1 {
        "1"
    } else if v == 2 {
        "2"
    } else if v == 3 {
        "3"
    } else if v == 4 {
        "4"
    } else if v == 5 {
        "5"
    } else if v == 6 {
        "6"
    } else if v == 7 {
        "7"
    } else if v == 8 {
        "8"
    } else if v == 9 {
        "9"
    } else if v == 10 {
        "a"
    } else if v == 11 {
        "b"
    } else if v == 12 {
        "c"
    } else if v == 13 {
        "d"
    } else if v == 14 {
        "e"
    } else {
        "f"
    };
    assert(text@ =~= seq![digit_char(v)]);
    text
}

/// Writes `bytes` as lower-case hexadecimal text.
pub fn encode(bytes: &[u8]) -> (text: String)
    ensures
        text@ == encoded(bytes@),
{
    let mut text = String::new();
    let mut i: usize = 0;
    while i < bytes.len()
        invariant
            i <= bytes@.len(),
            text@ == encoded(bytes@.subrange(0, i as int)),
        decreases bytes@.len() - i,
    {
        let b = bytes[i];
        text.append(digit_text(b / 16));
        text.append(digit_text(b % 16));
        proof {
            let shorter = bytes@.subrange(0, i as int);
            let longer = bytes@.subrange(0, i + 1);
            assert(text@ =~= encoded(longer)) by {
                assert forall|j: int| 0 <= j < 2 * (i + 1) implies text@[j] == encoded(
                    longer,
                )[j] by {
                    if j < 2 * i {
                        assert(text@[j] == encoded(shorter)[j]);
                        assert(longer[j / 2] == shorter[j / 2]);
                    }
                }
            }
        }
        i = i + 1;
    }
    assert(bytes@.subrange(0, bytes@.len() as int) =~= bytes@);
    text
}

/// Hexadecimal text that was written from bytes is hexadecimal and decodes
/// to the bytes.
pub proof fn lemma_encoded_decodes(bytes: Seq<u8>)
    ensures
        is_hex(encoded(bytes)),
        decoded(encoded(bytes)) == bytes,
{
    let text = encoded(bytes);
    assert forall|i: int| 0 <= i < text.len() implies digit_value(#[trigger] text[i]) is Some by {
        let b = bytes[i / 2];
        lemma_digit_round_trip(b / 16);
        lemma_digit_round_trip(b % 16);
    }
    assert forall|i: int| 0 <= i < bytes.len() implies decoded(text)[i] == bytes[i] by {
        let b = bytes[i];
        lemma_digit_round_trip(b / 16);
        lemma_digit_round_trip(b % 16);
        assert(text[2 * i] == digit_char(b / 16));
        assert(text[2 * i + 1] == digit_char(b % 16));
    }
    assert(decoded(text) =~= bytes);
}

/// The digit written for a value below sixteen has that value.
pub proof fn lemma_digit_round_trip(v: u8)
    requires
        v < 16,
    ensures
        digit_value(digit_char(v)) == Some(v),
{
}

} // verus!
