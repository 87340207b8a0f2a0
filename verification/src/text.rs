//! Comparing and parsing the text of tags.

use vstd::prelude::*;

verus! {

/// Whether every character of `s` is an ASCII digit and there is at least one.
pub open spec fn all_digits(s: Seq<char>) -> bool {
    &&& s.len() > 0
    &&& forall|i: int| 0 <= i < s.len() ==> '0' <= #[trigger] s[i] <= '9'
}

/// The number that a sequence of decimal digits denotes.
pub open spec fn decimal_value(s: Seq<char>) -> int
    decreases s.len(),
{
    if s.len() == 0 {
        0
    } else {
        10 * decimal_value(s.drop_last()) + (s.last() as int - '0' as int)
    }
}

/// The digits of a number that may carry a sign.
pub open spec fn unsigned_part(s: Seq<char>) -> Seq<char> {
    if s.len() > 0 && (s[0] == '+' || s[0] == '-') {
        s.skip(1)
    } else {
        s
    }
}

/// The number that `s` denotes, when its unsigned part is all digits.
pub open spec fn signed_value(s: Seq<char>) -> int {
    let magnitude = decimal_value(unsigned_part(s));
    if s.len() > 0 && s[0] == '-' {
        -magnitude
    } else {
        magnitude
    }
}

/// An optional sign followed by one or more decimal digits, whose value fits
/// in 32 bits; nothing else is a number.
pub open spec fn parsed_i32(s: Seq<char>) -> Option<i32> {
    let value = signed_value(s);
    if all_digits(unsigned_part(s)) && i32::MIN <= value <= i32::MAX {
        Some(value as i32)
    } else {
        None
    }
}

/// Parses a signed decimal number with [`str::parse`].
///
/// Not proved: that `str::parse::<i32>` accepts exactly an optional `+` or
/// `-` followed by one or more ASCII digits whose value is in range, and
/// returns that value.
#[verifier::external_body]
pub(crate) fn parse_i32(s: &str) -> (r: Option<i32>)
    ensures
        r == parsed_i32(s@),
{
    s.parse::<i32>().ok()
}

/// Whether two strings hold the same characters.
pub fn str_eq(a: &str, b: &str) -> (r: bool)
    ensures
        r == (a@ == b@),
{
    let x = a.as_bytes();
    let y = b.as_bytes();
    proof {
        vstd::utf8::encode_utf8_decode_utf8(a@);
        vstd::utf8::encode_utf8_decode_utf8(b@);
    }
    if x.len() != y.len() {
        return false;
    }
    let n: usize = x.len();
    let mut i: usize = 0;
    while i < n
        invariant
            n == x@.len(),
            n == y@.len(),
            i <= n,
            x@ == vstd::utf8::encode_utf8(a@),
            y@ == vstd::utf8::encode_utf8(b@),
            forall|j: int| 0 <= j < i ==> x@[j] == y@[j],
        decreases n - i,
    {
        if x[i] != y[i] {
            return false;
        }
        i = i + 1;
    }
    assert(x@ =~= y@);
    true
}

/// Numbers are read digit by digit: another digit at the end makes ten times the
/// number plus the digit, or minus the digit for a negative one, as long as that
/// fits in 32 bits.
pub proof fn digits_extend_numbers(s: Seq<char>, digit: char)
    requires
        '0' <= digit <= '9',
        parsed_i32(s) is Some,
    ensures
        ({
            let n = parsed_i32(s).unwrap();
            let longer = if s[0] == '-' {
                10 * n - (digit as int - '0' as int)
            } else {
                10 * n + (digit as int - '0' as int)
            };
            &&& i32::MIN <= longer <= i32::MAX ==> parsed_i32(s.push(digit)) == Some(longer as i32)
            &&& !(i32::MIN <= longer <= i32::MAX) ==> parsed_i32(s.push(digit)) is None
        }),
{
    let t = s.push(digit);
    let a = unsigned_part(s);
    let b = unsigned_part(t);
    assert(t[0] == s[0]);
    assert(b =~= a.push(digit));
    assert(b.drop_last() =~= a);
    assert(all_digits(b)) by {
        assert forall|i: int| 0 <= i < b.len() implies '0' <= #[trigger] b[i] <= '9' by {
            if i < a.len() {
                assert(b[i] == a[i]);
            }
        }
    }
}

} // verus!
