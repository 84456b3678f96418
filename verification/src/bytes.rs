//! Byte-level helpers for ASCII tokens: header-value validity,
//! case-insensitive comparison, and the wildcard token.

use vstd::prelude::*;

verus! {

/// A byte that may appear in an HTTP header value: visible ASCII,
/// the space, or the horizontal tab.
pub open spec fn is_visible_ascii(b: u8) -> bool {
    (32 <= b < 127) || b == 9
}

/// Every byte of the sequence may appear in a header value.
pub open spec fn all_visible_ascii(s: Seq<u8>) -> bool {
    forall|i: int| 0 <= i < s.len() ==> is_visible_ascii(#[trigger] s[i])
}

/// ASCII lower-casing of one byte.
pub open spec fn to_lower(b: u8) -> u8 {
    if 65 <= b <= 90 {
        (b + 32) as u8
    } else {
        b
    }
}

/// ASCII lower-casing of a byte sequence.
pub open spec fn lower_bytes(s: Seq<u8>) -> Seq<u8> {
    s.map_values(|b: u8| to_lower(b))
}

/// ASCII-case-insensitive equality of two tokens.
pub open spec fn eq_ignore_case(a: Seq<u8>, b: Seq<u8>) -> bool {
    lower_bytes(a) == lower_bytes(b)
}

/// Case-insensitive equality of two optional tokens: both absent,
/// or both present and equal.
pub open spec fn opt_eq_ignore_case(a: Option<Seq<u8>>, b: Option<Seq<u8>>) -> bool {
    match (a, b) {
        (Option::None, Option::None) => true,
        (Option::Some(x), Option::Some(y)) => eq_ignore_case(x, y),
        _ => false,
    }
}

/// The wildcard token `*`.
pub open spec fn is_wildcard(s: Seq<u8>) -> bool {
    s == seq![42u8]
}

/// The sequence a `Vec` in an `Option` holds, if one is there.
pub open spec fn opt_bytes_view(o: Option<Vec<u8>>) -> Option<Seq<u8>> {
    match o {
        Option::None => Option::None,
        Option::Some(v) => Option::Some(v@),
    }
}

/// Checks that every byte may appear in a header value.
pub fn check_visible_ascii(s: &[u8]) -> (r: bool)
    ensures
        r == all_visible_ascii(s@),
{
    let mut i: usize = 0;
    while i < s.len()
        invariant
            0 <= i <= s@.len(),
            forall|j: int| 0 <= j < i ==> is_visible_ascii(#[trigger] s@[j]),
        decreases s@.len() - i,
    {
        let b = s[i];
        if !((32 <= b && b < 127) || b == 9) {
            return false;
        }
        i = i + 1;
    }
    true
}

/// Lower-cases one ASCII byte.
pub fn lower_byte(b: u8) -> (r: u8)
    ensures
        r == to_lower(b),
{
    if 65 <= b && b <= 90 {
        b + 32
    } else {
        b
    }
}

/// Compares two tokens, ignoring ASCII case.
pub fn bytes_eq_ignore_case(a: &[u8], b: &[u8]) -> (r: bool)
    ensures
        r == eq_ignore_case(a@, b@),
{
    if a.len() != b.len() {
        assert(lower_bytes(a@).len() != lower_bytes(b@).len());
        return false;
    }
    let mut i: usize = 0;
    while i < a.len()
        invariant
            a@.len() == b@.len(),
            0 <= i <= a@.len(),
            forall|j: int| 0 <= j < i ==> to_lower(a@[j]) == to_lower(b@[j]),
        decreases a@.len() - i,
    {
        let x = a[i];
        let y = b[i];
        let xl = if 65 <= x && x <= 90 { x + 32 } else { x };
        let yl = if 65 <= y && y <= 90 { y + 32 } else { y };
        if xl != yl {
            assert(lower_bytes(a@)[i as int] != lower_bytes(b@)[i as int]);
            return false;
        }
        i = i + 1;
    }
    assert(lower_bytes(a@) =~= lower_bytes(b@));
    true
}

/// Compares two optional tokens, ignoring ASCII case.
pub fn opt_bytes_eq_ignore_case(a: &Option<Vec<u8>>, b: &Option<Vec<u8>>) -> (r: bool)
    ensures
        r == opt_eq_ignore_case(opt_bytes_view(*a), opt_bytes_view(*b)),
{
    match (a, b) {
        (Option::None, Option::None) => true,
        (Option::Some(x), Option::Some(y)) => bytes_eq_ignore_case(x.as_slice(), y.as_slice()),
        _ => false,
    }
}

/// Tests whether a token is the wildcard `*`.
pub fn bytes_is_wildcard(s: &[u8]) -> (r: bool)
    ensures
        r == is_wildcard(s@),
{
    if s.len() == 1 && s[0] == 42 {
        assert(s@ =~= seq![42u8]);
        true
    } else {
        assert(s@ != seq![42u8]);
        false
    }
}

} // verus!
