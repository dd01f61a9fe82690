//! Text helpers: UTF-8 validation (std's `String::from_utf8`), decimal
//! rendering of integers and string concatenation.

use vstd::prelude::*;
use vstd::string::StringExecFns;
use vstd::utf8::{decode_utf8, valid_utf8};

verus! {

/// The ASCII digit for `d`, where `d < 10`.
pub open spec fn digit_char(d: nat) -> char {
    (48 + d) as char
}

/// The decimal rendering of `n`, most significant digit first, without
/// leading zeros (`"0"` for zero).
pub open spec fn decimal(n: nat) -> Seq<char>
    decreases n,
{
    if n < 10 {
        seq![digit_char(n)]
    } else {
        decimal(n / 10).push(digit_char(n % 10))
    }
}

/// `end` is where valid UTF-8 stops in `bytes`: the largest index whose
/// prefix is valid UTF-8.
pub open spec fn utf8_prefix_end(bytes: Seq<u8>, end: int) -> bool {
    &&& 0 <= end <= bytes.len()
    &&& valid_utf8(bytes.take(end))
    &&& forall|j: int| end < j <= bytes.len() ==> !valid_utf8(#[trigger] bytes.take(j))
}

/// The end of the valid UTF-8 prefix of `bytes`.
pub open spec fn utf8_valid_up_to(bytes: Seq<u8>) -> usize {
    choose|end: usize| utf8_prefix_end(bytes, end as int)
}

/// What `Utf8Error::error_len` reports for invalid UTF-8 `bytes`: the
/// length of the invalid sequence at the end of the valid prefix, or `None`
/// when the input ends inside a sequence.
pub uninterp spec fn utf8_error_len(bytes: Seq<u8>) -> Option<usize>;

/// Calls `String::from_utf8`. Claimed, as std documents it: the call
/// succeeds exactly when the bytes are valid UTF-8, and the string then holds
/// the characters they encode; otherwise the error's `valid_up_to` is the
/// largest index whose prefix is valid UTF-8, and its `error_len` is named.
#[verifier::external_body]
pub(crate) fn string_from_utf8(bytes: Vec<u8>) -> (r: Result<String, (usize, Option<usize>)>)
    ensures
        r is Ok <==> valid_utf8(bytes@),
        r matches Ok(s) ==> s@ == decode_utf8(bytes@),
        r matches Err((end, len)) ==> utf8_prefix_end(bytes@, end as int) && len == utf8_error_len(bytes@),
{
    match String::from_utf8(bytes) {
        Ok(s) => Ok(s),
        Err(e) => Err((e.utf8_error().valid_up_to(), e.utf8_error().error_len())),
    }
}

/// The end of the valid UTF-8 prefix is unique.
pub proof fn lemma_utf8_prefix_end_unique(bytes: Seq<u8>, end: usize)
    requires
        utf8_prefix_end(bytes, end as int),
    ensures
        utf8_valid_up_to(bytes) == end,
{
    let c = utf8_valid_up_to(bytes);
    assert(utf8_prefix_end(bytes, c as int));
    if c < end {
        assert(!valid_utf8(bytes.take(end as int)));
    } else if c > end {
        assert(!valid_utf8(bytes.take(c as int)));
    }
}

/// The text std gives an invalid UTF-8 error: where the valid prefix ends
/// and, unless the input ended inside a sequence, how long the invalid
/// sequence is.
pub open spec fn utf8_error_text(valid_up_to: usize, error_len: Option<usize>) -> Seq<char> {
    match error_len {
        Some(n) => "invalid utf-8 sequence of "@ + decimal(n as nat) + " bytes from index "@ + decimal(
            valid_up_to as nat,
        ),
        None => "incomplete utf-8 byte sequence from index "@ + decimal(valid_up_to as nat),
    }
}

/// The one-character string of digit `d`.
fn digit_str(d: u64) -> (r: &'static str)
    requires
        d < 10,
    ensures
        r@ == seq![digit_char(d as nat)],
{
    proof {
        reveal_strlit("0");
        reveal_strlit("1");
        reveal_strlit("2");
        reveal_strlit("3");
        reveal_strlit("4");
        reveal_strlit("5");
        reveal_strlit("6");
        reveal_strlit("7");
        reveal_strlit("8");
        reveal_strlit("9");
    }
    if d == 0 {
        "0"
    } else if d == 1 {
        "1"
    } else if d == 2 {
        "2"
    } else if d == 3 {
        "3"
    } else if d == 4 {
        "4"
    } else if d == 5 {
        "5"
    } else if d == 6 {
        "6"
    } else if d == 7 {
        "7"
    } else if d == 8 {
        "8"
    } else {
        "9"
    }
}

/// The decimal digits of `n`, see [`decimal`].
pub fn u64_to_decimal(n: u64) -> (r: String)
    ensures
        r@ == decimal(n as nat),
    decreases n,
{
    if n < 10 {
        String::from_str(digit_str(n))
    } else {
        let mut s = u64_to_decimal(n / 10);
        s.append(digit_str(n % 10));
        s
    }
}

/// `a` followed by `b`, as a new string.
pub fn concat(a: &str, b: &str) -> (r: String)
    ensures
        r@ == a@ + b@,
{
    let mut s = String::from_str(a);
    s.append(b);
    s
}

} // verus!
