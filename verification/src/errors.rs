//! The errors a negotiation can end in.

use vstd::prelude::*;
use vstd::string::StringExecFns;

verus! {

/// Why a negotiation was rejected.
#[derive(Debug, Clone, Copy, PartialEq, Eq, Structural)]
pub enum AcceptRejection {
    /// The header holds a byte that may not appear in a header value.
    InvalidHeader,
    /// The entry at the given zero-based position does not parse as a
    /// media type.
    InvalidMediaType(usize),
    /// The `q` parameter of the entry at the given zero-based position is
    /// not a valid number.
    InvalidQ(usize),
    /// Every entry was well-formed, but none matched a declared variant.
    NoSupportedMediaTypeFound,
}

/// The character of one decimal digit.
pub open spec fn digit_char(d: int) -> char {
    if d == 0 {
        '0'
    } else if d == 1 {
        '1'
    } else if d == 2 {
        '2'
    } else if d == 3 {
        '3'
    } else if d == 4 {
        '4'
    } else if d == 5 {
        '5'
    } else if d == 6 {
        '6'
    } else if d == 7 {
        '7'
    } else if d == 8 {
        '8'
    } else {
        '9'
    }
}

/// The decimal digits of a nonnegative number, most significant first.
pub open spec fn decimal_digits(n: int) -> Seq<char>
    decreases n,
{
    if n < 10 {
        seq![digit_char(n)]
    } else {
        decimal_digits(n / 10).push(digit_char(n % 10))
    }
}

/// Appends the decimal rendering of `n` to a string.
fn append_decimal(s: &mut String, n: usize)
    ensures
        final(s)@ == old(s)@ + decimal_digits(n as int),
    decreases n,
{
    if n >= 10 {
        append_decimal(s, n / 10);
    }
    let d = n % 10;
    match d {
        0 => s.append("0"),
        1 => s.append("1"),
        2 => s.append("2"),
        3 => s.append("3"),
        4 => s.append("4"),
        5 => s.append("5"),
        6 => s.append("6"),
        7 => s.append("7"),
        8 => s.append("8"),
        _ => s.append("9"),
    }
    proof {
        reveal_strlit("0");
        reveal_strlit("1");
        reveal_strlit("2");
        reveal_strlit("3");
        reveal_strlit("4");
        reveal_strlit("5");
        reveal_strlit("6");
        reveal_strlit("7");
        reveal_strlit("8");
        reveal_strlit("9");
        assert(s@ =~= old(s)@ + decimal_digits(n as int));
    }
}

/// The HTTP status a rejection maps to: 406 when nothing matched, else 400.
pub open spec fn rejection_status(e: AcceptRejection) -> u16 {
    match e {
        AcceptRejection::NoSupportedMediaTypeFound => 406,
        _ => 400,
    }
}

/// The message a rejection carries; the index errors name their position.
pub open spec fn rejection_message(e: AcceptRejection) -> Seq<char> {
    match e {
        AcceptRejection::InvalidHeader => "Invalid accept header"@,
        AcceptRejection::InvalidMediaType(i) => "Invalid media type in accept header at index "@
            + decimal_digits(i as int),
        AcceptRejection::InvalidQ(i) => "Invalid q parameter in accept header at index "@
            + decimal_digits(i as int),
        AcceptRejection::NoSupportedMediaTypeFound => "Accept header does not contain supported media types"@,
    }
}

impl AcceptRejection {
    /// The HTTP status code and human-readable message for this rejection:
    /// 400 for a header that could not be parsed, 406 when no declared
    /// variant matched.
    pub fn status_and_message(&self) -> (r: (u16, String))
        ensures
            r.0 == rejection_status(*self),
            r.1@ == rejection_message(*self),
    {
        match self {
            AcceptRejection::InvalidHeader => (400, "Invalid accept header".to_owned()),
            AcceptRejection::InvalidMediaType(i) => {
                let mut m = "Invalid media type in accept header at index ".to_owned();
                append_decimal(&mut m, *i);
                (400, m)
            },
            AcceptRejection::InvalidQ(i) => {
                let mut m = "Invalid q parameter in accept header at index ".to_owned();
                append_decimal(&mut m, *i);
                (400, m)
            },
            AcceptRejection::NoSupportedMediaTypeFound => (
                406,
                "Accept header does not contain supported media types".to_owned(),
            ),
        }
    }
}

} // verus!
