//! Calendar dates as a weather feed writes them, eight digits in a row, put
//! in the form year, month and day with dashes between them.

use vstd::prelude::*;
use vstd::string::*;
use vstd::utf8::{
    decode_utf8,
    encode_utf8,
    encode_utf8_decode_utf8,
    encode_utf8_valid_utf8,
    is_char_boundary,
    is_char_boundary_iff_not_is_continuation_byte,
    valid_utf8,
    valid_utf8_split,
};
use crate::text::{decimal, decimal_text, same_text, trim, trimmed};

verus! {

/// The bytes can be cut into a year, a month and a day: there are eight of
/// them or more, and the fourth, the sixth and the eighth each end a
/// character.
pub open spec fn dashable(bytes: Seq<u8>) -> bool {
    &&& bytes.len() >= 8
    &&& is_char_boundary(bytes, 4)
    &&& is_char_boundary(bytes, 6)
    &&& is_char_boundary(bytes, 8)
}

/// The text of the first four bytes, a dash, that of the next two, a dash,
/// and that of the two after them.
pub open spec fn dashed(bytes: Seq<u8>) -> Seq<char> {
    decode_utf8(bytes.subrange(0, 4)) + seq!['-'] + decode_utf8(bytes.subrange(4, 6)) + seq!['-']
        + decode_utf8(bytes.subrange(6, 8))
}

/// A date written as text, with dashes: the text without the white space
/// around it, dashed where its bytes in UTF-8 can be cut so, and as it is
/// where they cannot.
pub open spec fn dashed_text(text: Seq<char>) -> Seq<char> {
    if dashable(encode_utf8(trimmed(text))) {
        dashed(encode_utf8(trimmed(text)))
    } else {
        trimmed(text)
    }
}

/// The end of a character in a text is the end of a character in each
/// beginning of the text that reaches it.
proof fn lemma_boundary_in_front(bytes: Seq<u8>, front: int, at: int)
    requires
        valid_utf8(bytes),
        0 <= at < front <= bytes.len(),
        is_char_boundary(bytes, front),
    ensures
        is_char_boundary(bytes.subrange(0, front), at) == is_char_boundary(bytes, at),
{
    valid_utf8_split(bytes, front);
    is_char_boundary_iff_not_is_continuation_byte(bytes, at);
    is_char_boundary_iff_not_is_continuation_byte(bytes.subrange(0, front), at);
}

/// As many zeros as `n`, none where `n` is negative.
pub open spec fn zeros(n: int) -> Seq<char> {
    Seq::new(
        if n > 0 {
            n as nat
        } else {
            0
        },
        |i: int| '0',
    )
}

/// `n` in decimal digits, filled up with zeros to `width` characters; a
/// minus sign comes first and counts as a character.
pub open spec fn padded(n: int, width: int) -> Seq<char> {
    if n < 0 {
        seq!['-'] + zeros(width - 1 - decimal((-n) as nat).len()) + decimal((-n) as nat)
    } else {
        zeros(width - decimal(n as nat).len()) + decimal(n as nat)
    }
}

/// The quotient of `a` by `b`, rounded toward zero.
pub open spec fn quotient_toward_zero(a: int, b: int) -> int {
    if a >= 0 {
        a / b
    } else {
        -((-a) / b)
    }
}

/// What is left of `a` after the quotient by `b`, rounded toward zero.
pub open spec fn remainder_toward_zero(a: int, b: int) -> int {
    a - b * quotient_toward_zero(a, b)
}

/// A date written as one number, with dashes: the number without its last
/// four digits as the year, in four characters; its last four digits without
/// the last two as the month, in two; and its last two digits as the day, in
/// two.
pub open spec fn dashed_number(date: int) -> Seq<char> {
    padded(quotient_toward_zero(date, 10000), 4) + seq!['-'] + padded(
        remainder_toward_zero(quotient_toward_zero(date, 100), 100),
        2,
    ) + seq!['-'] + padded(remainder_toward_zero(date, 100), 2)
}

/// The title of the column that holds the dates.
pub open spec fn date_title() -> Seq<char> {
    seq!['Y', 'Y', 'Y', 'Y', 'M', 'M', 'D', 'D']
}

/// Tells whether `name` is the title of the column of dates, white space
/// around it aside.
pub fn is_date_title(name: &str) -> (b: bool)
    ensures
        b == (trimmed(name@) == date_title()),
{
    proof {
        reveal_strlit("YYYYMMDD");
        assert("YYYYMMDD"@ =~= date_title());
    }
    same_text(trim(name), "YYYYMMDD")
}

/// The position of the first of `names` that is the title of the column of
/// dates.
pub fn find_date_title(names: &[String]) -> (found: Option<usize>)
    ensures
        match found {
            Some(at) => at < names@.len() && trimmed(names@[at as int]@) == date_title()
                && forall|i: int| 0 <= i < at ==> trimmed(names@[i]@) != date_title(),
            None => forall|i: int| 0 <= i < names@.len() ==> trimmed(names@[i]@) != date_title(),
        },
{
    let mut i: usize = 0;
    while i < names.len()
        invariant
            i <= names@.len(),
            forall|j: int| 0 <= j < i ==> trimmed(names@[j]@) != date_title(),
        decreases names.len() - i,
    {
        if is_date_title(names[i].as_str()) {
            return Some(i);
        }
        i += 1;
    }
    None
}

/// Writes a date that is given as text with dashes.
pub fn dashed_date_text(text: &str) -> (out: String)
    ensures
        out@ == dashed_text(text@),
{
    let digits = trim(text);
    let ghost bytes = encode_utf8(digits@);
    proof {
        encode_utf8_valid_utf8(digits@);
    }
    if digits.as_bytes().len() >= 8 && digits.is_char_boundary(4) && digits.is_char_boundary(6)
        && digits.is_char_boundary(8) {
        let (front, _) = digits.split_at(8);
        proof {
            lemma_boundary_in_front(bytes, 8, 6);
            lemma_boundary_in_front(bytes, 8, 4);
            encode_utf8_valid_utf8(front@);
            assert(front.spec_bytes() == bytes.subrange(0, 8));
        }
        let (six, day) = front.split_at(6);
        proof {
            lemma_boundary_in_front(front.spec_bytes(), 6, 4);
            assert(six.spec_bytes() == bytes.subrange(0, 8).subrange(0, 6));
            assert(bytes.subrange(0, 8).subrange(0, 6) =~= bytes.subrange(0, 6));
            assert(day.spec_bytes() =~= bytes.subrange(6, 8));
        }
        let (year, month) = six.split_at(4);
        proof {
            reveal_strlit("-");
            assert(year.spec_bytes() =~= bytes.subrange(0, 4));
            assert(month.spec_bytes() =~= bytes.subrange(4, 6));
            encode_utf8_decode_utf8(year@);
            encode_utf8_decode_utf8(month@);
            encode_utf8_decode_utf8(day@);
        }
        let mut out = String::from_str(year);
        out.append("-");
        out.append(month);
        out.append("-");
        out.append(day);
        assert(out@ =~= dashed(bytes));
        out
    } else {
        String::from_str(digits)
    }
}

/// Writes `n` in decimal digits, filled up with zeros to `width` characters.
fn padded_text(n: i64, width: usize) -> (out: String)
    ensures
        out@ == padded(n as int, width as int),
{
    proof {
        reveal_strlit("-");
        reveal_strlit("0");
    }
    let negative = n < 0;
    let magnitude: u64 = if n >= 0 {
        n as u64
    } else if n == i64::MIN {
        0x8000_0000_0000_0000
    } else {
        (-n) as u64
    };
    let digits = decimal_text(magnitude);
    let length = digits.as_str().unicode_len();
    let taken = if negative {
        length + 1
    } else {
        length
    };
    let mut out = String::new();
    if negative {
        out.append("-");
    }
    let ghost head = out@;
    let fill = if width > taken {
        width - taken
    } else {
        0
    };
    let mut i: usize = 0;
    while i < fill
        invariant
            i <= fill,
            out@ == head + zeros(i as int),
        decreases fill - i,
    {
        out.append("0");
        proof {
            reveal_strlit("0");
            assert(out@ =~= head + zeros(i + 1));
        }
        i += 1;
    }
    out.append(digits.as_str());
    proof {
        assert(out@ =~= padded(n as int, width as int));
    }
    out
}

/// Writes a date that is given as one number with dashes.
pub fn dashed_date_number(date: i64) -> (out: String)
    ensures
        out@ == dashed_number(date as int),
{
    proof {
        reveal_strlit("-");
    }
    let mut out = padded_text(date / 10000, 4);
    out.append("-");
    out.append(padded_text((date / 100) % 100, 2).as_str());
    out.append("-");
    out.append(padded_text(date % 100, 2).as_str());
    proof {
        assert(out@ =~= dashed_number(date as int));
    }
    out
}

} // verus!
