//! Resolution of a worker-thread count from an optional override value.

use vstd::prelude::*;
use vstd::string::StringSliceAdditionalSpecFns;

verus! {

/// The ASCII code of `'0'`.
pub const ZERO_DIGIT: u8 = 48;

/// Every byte of `d` is an ASCII decimal digit.
pub open spec fn all_digits(d: Seq<u8>) -> bool {
    forall|i: int| 0 <= i < d.len() ==> ZERO_DIGIT <= #[trigger] d[i] <= ZERO_DIGIT + 9
}

/// The number that the decimal digits `d` spell (most significant first).
pub open spec fn digits_value(d: Seq<u8>) -> nat
    decreases d.len(),
{
    if d.len() == 0 {
        0
    } else {
        digits_value(d.drop_last()) * 10 + (d.last() - ZERO_DIGIT) as nat
    }
}

/// The digits of an unsigned decimal literal: one leading `+` is allowed.
pub open spec fn unsigned_digits(b: Seq<u8>) -> Seq<u8> {
    if b.len() > 0 && b[0] == 43u8 {
        b.subrange(1, b.len() as int)
    } else {
        b
    }
}

/// `b` is the text of an unsigned decimal number that fits in a `usize`.
pub open spec fn is_usize_text(b: Seq<u8>) -> bool {
    let d = unsigned_digits(b);
    &&& d.len() > 0
    &&& all_digits(d)
    &&& digits_value(d) <= usize::MAX
}

/// The value of the text `b`, meaningful where `is_usize_text(b)`.
pub open spec fn usize_text_value(b: Seq<u8>) -> nat {
    digits_value(unsigned_digits(b))
}

/// The thread count chosen from an override text (if set) and a default:
/// a positive number in the text, else the text back as the error; with
/// no text, the default raised to at least one.
pub open spec fn thread_count(value: Option<Seq<u8>>, default: usize) -> Result<usize, Seq<u8>> {
    match value {
        Some(b) => if is_usize_text(b) && usize_text_value(b) > 0 {
            Ok(usize_text_value(b) as usize)
        } else {
            Err(b)
        },
        None => Ok(if default >= 1 { default } else { 1 }),
    }
}

/// Parses `s` as an unsigned decimal `usize`, as `usize::from_str` reads it.
pub fn parse_usize(s: &str) -> (r: Option<usize>)
    ensures
        r.is_some() == is_usize_text(s.spec_bytes()),
        r.is_some() ==> r.unwrap() as nat == usize_text_value(s.spec_bytes()),
{
    let b: &[u8] = s.as_bytes();
    let n: usize = b.len();
    let ghost full = b@;
    let start: usize = if n > 0 && b[0] == 43u8 { 1 } else { 0 };
    let ghost d = unsigned_digits(full);
    assert(d =~= full.subrange(start as int, n as int));
    if start >= n {
        return None;
    }
    let mut acc: usize = 0;
    let mut overflow: bool = false;
    let mut i: usize = start;
    while i < n
        invariant
            b@ == full,
            full == s.spec_bytes(),
            n == full.len(),
            start <= i <= n,
            d == full.subrange(start as int, n as int),
            d == unsigned_digits(full),
            all_digits(full.subrange(start as int, i as int)),
            !overflow ==> acc as nat == digits_value(full.subrange(start as int, i as int)),
            overflow ==> digits_value(full.subrange(start as int, i as int)) > usize::MAX,
        decreases n - i,
    {
        let c: u8 = b[i];
        let ghost pre = full.subrange(start as int, i as int);
        let ghost next = full.subrange(start as int, i as int + 1);
        assert(next.drop_last() =~= pre);
        assert(next.last() == c);
        if c < ZERO_DIGIT || c > ZERO_DIGIT + 9 {
            assert(d[i - start] == c);
            assert(!(ZERO_DIGIT <= d[i - start] <= ZERO_DIGIT + 9));
            assert(!all_digits(d));
            assert(!is_usize_text(full));
            return None;
        }
        let digit: usize = (c - ZERO_DIGIT) as usize;
        if !overflow {
            if acc > (usize::MAX - digit) / 10 {
                overflow = true;
            } else {
                acc = acc * 10 + digit;
            }
        }
        assert(all_digits(next)) by {
            assert forall|j: int| 0 <= j < next.len() implies ZERO_DIGIT <= #[trigger] next[j] <= ZERO_DIGIT + 9 by {
                if j < next.len() - 1 {
                    assert(next[j] == pre[j]);
                }
            }
        }
        i = i + 1;
    }
    assert(full.subrange(start as int, n as int) == d);
    if overflow {
        None
    } else {
        Some(acc)
    }
}

/// Chooses the number of threads from the value of an override (`None`
/// where it is not set) and a default. An override that is not a positive
/// number is handed back as the error, for the caller to report.
pub fn num_of_threads_aux(env_value: Option<&str>, default: usize) -> (r: Result<usize, String>)
    ensures
        match (r, thread_count(
            match env_value {
                Some(s) => Some(s.spec_bytes()),
                None => None,
            },
            default,
        )) {
            (Ok(a), Ok(b)) => a == b,
            (Err(e), Err(b)) => env_value.is_some() && e@ == env_value.unwrap()@,
            _ => false,
        },
{
    match env_value {
        Some(s) => match parse_usize(s) {
            Some(num) => if num > 0 {
                Ok(num)
            } else {
                Err(s.to_owned())
            },
            None => Err(s.to_owned()),
        },
        None => Ok(if default >= 1 { default } else { 1 }),
    }
}

} // verus!
