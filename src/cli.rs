use core::time::Duration;
use vstd::prelude::*;
use vstd::string::StrSliceExecFns;

verus! {

/// The file extension of shared objects.
pub fn dll_extension<'a>() -> (r: &'a str)
    ensures
        r@ == "so"@,
{
    "so"
}

/// A timeout that is not a number of milliseconds.
#[derive(Debug, Clone, Copy, PartialEq, Eq, Structural)]
pub struct InvalidMillis;

pub open spec fn is_digit(c: char) -> bool {
    '0' <= c && c <= '9'
}

/// The number written by the decimal digits `s`.
pub open spec fn digits_value(s: Seq<char>) -> nat
    decreases s.len(),
{
    if s.len() == 0 {
        0
    } else {
        (digits_value(s.drop_last()) * 10 + (s.last() as int - '0' as int)) as nat
    }
}

/// The digits of an unsigned decimal: the text without a leading `+`.
pub open spec fn unsigned_digits(s: Seq<char>) -> Seq<char> {
    if s.len() > 0 && s[0] == '+' {
        s.drop_first()
    } else {
        s
    }
}

/// The `u64` that `s` writes in decimal, optionally after a `+`, if it fits.
pub open spec fn parse_u64(s: Seq<char>) -> Option<u64> {
    let d = unsigned_digits(s);
    if d.len() > 0 && (forall|i: int| 0 <= i < d.len() ==> is_digit(#[trigger] d[i])) && digits_value(d) <= u64::MAX {
        Some(digits_value(d) as u64)
    } else {
        None
    }
}

/// The duration of `ms` milliseconds.
pub uninterp spec fn duration_of_millis(ms: u64) -> Duration;

/// Relies on Duration::from_millis: a duration of `ms` milliseconds.
#[verifier::external_body]
fn millis(ms: u64) -> (r: Duration)
    ensures
        r == duration_of_millis(ms),
{
    Duration::from_millis(ms)
}

/// Parses a decimal number of milliseconds into a duration.
pub fn timeout_from_millis_str(time: &str) -> (r: Result<Duration, InvalidMillis>)
    ensures
        match parse_u64(time@) {
            Some(ms) => r == Ok::<Duration, InvalidMillis>(duration_of_millis(ms)),
            None => r is Err,
        },
{
    let n = time.unicode_len();
    let mut i: usize = 0;
    if n > 0 && time.get_char(0) == '+' {
        i = 1;
    }
    let ghost d = unsigned_digits(time@);
    assert(d =~= time@.subrange(i as int, n as int));
    if i >= n {
        return Err(InvalidMillis);
    }
    let start = i;
    let mut value: u64 = 0;
    while i < n
        invariant
            n == time@.len(),
            start <= i <= n,
            d == time@.subrange(start as int, n as int),
            d == unsigned_digits(time@),
            value as nat == digits_value(time@.subrange(start as int, i as int)),
            forall|k: int| start <= k < i ==> is_digit(#[trigger] time@[k]),
        decreases n - i,
    {
        let c = time.get_char(i);
        if !('0' <= c && c <= '9') {
            assert(!is_digit(d[i - start]));
            return Err(InvalidMillis);
        }
        let digit = (c as u32 - '0' as u32) as u64;
        let ghost prefix = time@.subrange(start as int, (i + 1) as int);
        assert(prefix.drop_last() =~= time@.subrange(start as int, i as int));
        assert(prefix.last() == c);
        assert(prefix =~= d.subrange(0, (i - start) + 1));
        assert forall|k: int| 0 <= k <= i - start implies is_digit(#[trigger] d[k]) by {
            assert(d[k] == time@[start + k]);
        }
        assert(digits_value(prefix) == value * 10 + digit);
        match value.checked_mul(10) {
            None => {
                proof {
                    lemma_digits_grow(d, (i - start) as int);
                }
                return Err(InvalidMillis);
            },
            Some(v10) => match v10.checked_add(digit) {
                None => {
                    proof {
                        lemma_digits_grow(d, (i - start) as int);
                    }
                    return Err(InvalidMillis);
                },
                Some(v) => {
                    value = v;
                },
            },
        }
        i += 1;
    }
    assert(time@.subrange(start as int, n as int) == d);
    Ok(millis(value))
}

/// A longer run of digits writes at least the number of any of its prefixes.
proof fn lemma_digits_grow(d: Seq<char>, k: int)
    requires
        0 <= k < d.len(),
        forall|i: int| 0 <= i <= k ==> is_digit(#[trigger] d[i]),
    ensures
        digits_value(d.subrange(0, k + 1)) <= digits_value(d) || exists|i: int| 0 <= i < d.len() && !is_digit(#[trigger] d[i]),
    decreases d.len() - k,
{
    if exists|i: int| 0 <= i < d.len() && !is_digit(#[trigger] d[i]) {
    } else if k + 1 < d.len() {
        lemma_digits_grow(d, k + 1);
        let a = d.subrange(0, k + 1);
        let b = d.subrange(0, k + 2);
        assert(b.drop_last() =~= a);
        assert(is_digit(d[k + 1]));
    } else {
        assert(d.subrange(0, k + 1) =~= d);
    }
}

} // verus!
