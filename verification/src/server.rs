//! Pieces of the HTTP front end that compute: the reason phrase of a status
//! code and the parsing of an id in a request path.

use vstd::prelude::*;
use vstd::utf8::encode_utf8;

verus! {

/// Reason phrase of the status codes the server answers with.
pub open spec fn status_phrase(code: u16) -> Seq<char> {
    if code == 200 {
        "OK"@
    } else if code == 201 {
        "Created"@
    } else if code == 400 {
        "Bad Request"@
    } else if code == 404 {
        "Not Found"@
    } else if code == 500 {
        "Internal Server Error"@
    } else {
        "Unknown"@
    }
}

/// Reason phrase of a status code ("Unknown" for codes the server does
/// not use).
pub fn status_text(code: u16) -> (r: &'static str)
    ensures
        r@ == status_phrase(code),
{
    match code {
        200 => "OK",
        201 => "Created",
        400 => "Bad Request",
        404 => "Not Found",
        500 => "Internal Server Error",
        _ => "Unknown",
    }
}

/// The digits of an unsigned decimal number: the bytes after an optional
/// leading `+`.
pub open spec fn digits_of(b: Seq<u8>) -> Seq<u8> {
    if b.len() > 0 && b[0] == 43 {
        b.drop_first()
    } else {
        b
    }
}

/// Whether every byte is an ASCII digit.
pub open spec fn all_digits(d: Seq<u8>) -> bool {
    forall|i: int| 0 <= i < d.len() ==> 48 <= #[trigger] d[i] <= 57
}

/// Value of a string of ASCII digits.
pub open spec fn decimal_value(d: Seq<u8>) -> nat
    decreases d.len(),
{
    if d.len() == 0 {
        0
    } else {
        decimal_value(d.drop_last()) * 10 + (d.last() - 48) as nat
    }
}

/// Whether `b` is what `u64`'s `FromStr` accepts: an optional `+`, then
/// at least one ASCII digit and nothing else, of value at most `u64::MAX`.
pub open spec fn is_u64_text(b: Seq<u8>) -> bool {
    let d = digits_of(b);
    d.len() > 0 && all_digits(d) && decimal_value(d) <= u64::MAX
}

proof fn lemma_decimal_value_mono(d: Seq<u8>, k: int)
    requires
        0 <= k <= d.len(),
        all_digits(d),
    ensures
        decimal_value(d.take(k)) <= decimal_value(d),
    decreases d.len() - k,
{
    if k < d.len() {
        lemma_decimal_value_mono(d, k + 1);
        assert(d.take(k + 1).drop_last() =~= d.take(k));
        assert(48 <= d[k] <= 57);
    } else {
        assert(d.take(k) =~= d);
    }
}

/// Parses a vertex id: decimal digits, optionally after a `+`, of value at
/// most `u64::MAX`; anything else is refused with the message "invalid id".
pub fn parse_id(s: &str) -> (r: Result<u64, String>)
    ensures
        match r {
            Ok(v) => is_u64_text(encode_utf8(s@)) && v == decimal_value(digits_of(encode_utf8(s@))),
            Err(e) => !is_u64_text(encode_utf8(s@)) && e@ == "invalid id"@,
        },
{
    let b = s.as_bytes();
    let ghost bs = b@;
    let mut start: usize = 0;
    if b.len() > 0 && b[0] == 43u8 {
        start = 1;
    }
    let ghost d = digits_of(bs);
    proof {
        assert(d =~= bs.skip(start as int));
    }
    if start >= b.len() {
        proof {
            assert(d.len() == 0);
            assert(!is_u64_text(bs));
            assert(bs == encode_utf8(s@));
        }
        return Err("invalid id".to_owned());
    }
    let mut value: u64 = 0;
    let mut i: usize = start;
    while i < b.len()
        invariant
            bs == b@,
            bs == encode_utf8(s@),
            d == digits_of(bs),
            d == bs.skip(start as int),
            start <= i <= bs.len(),
            start <= 1,
            all_digits(d.take(i - start)),
            value == decimal_value(d.take(i - start)),
        decreases bs.len() - i,
    {
        let c = b[i];
        proof {
            assert(d.take(i - start + 1).drop_last() =~= d.take(i - start));
            assert(d[i - start] == c);
        }
        if c < 48u8 || c > 57u8 {
            proof {
                assert(!all_digits(d)) by {
                    assert(d[i - start] == c);
                }
            }
            return Err("invalid id".to_owned());
        }
        let digit = (c - 48u8) as u64;
        proof {
            assert(decimal_value(d.take(i - start + 1)) == value * 10 + digit);
        }
        if value > (u64::MAX - digit) / 10 {
            proof {
                assert(decimal_value(d.take(i - start + 1)) > u64::MAX) by (nonlinear_arith)
                    requires
                        decimal_value(d.take(i - start + 1)) == value * 10 + digit,
                        value > (u64::MAX - digit) / 10,
                        digit <= 9,
                ;
                if all_digits(d) {
                    lemma_decimal_value_mono(d, i - start + 1);
                    assert(decimal_value(d) > u64::MAX);
                }
                assert(!all_digits(d) || decimal_value(d) > u64::MAX);
                assert(digits_of(bs) == d);
                assert(!is_u64_text(bs));
            }
            return Err("invalid id".to_owned());
        }
        proof {
            assert(value * 10 + digit <= u64::MAX) by (nonlinear_arith)
                requires
                    value <= (u64::MAX - digit) / 10,
                    digit <= 9,
            ;
            assert forall|k: int| 0 <= k < d.take(i - start + 1).len() implies 48 <= #[trigger] d.take(i - start + 1)[k] <= 57 by {
                if k < i - start {
                    assert(d.take(i - start + 1)[k] == d.take(i - start)[k]);
                }
            }
        }
        value = value * 10 + digit;
        i = i + 1;
    }
    proof {
        assert(d.take(i - start) =~= d);
    }
    Ok(value)
}

} // verus!
