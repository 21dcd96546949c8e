//! What the counting services answer: the text `Request #` followed by the
//! request's number in decimal, and the per-thread counter that numbers the
//! requests a worker serves.

use vstd::prelude::*;
use crate::cpus::{
    all_digits, digit_value, digits_value, is_digit, law_digits_value_positional, spec_parse_usize,
    unsigned_digits,
};

verus! {

/// The character for a decimal digit.
pub open spec fn digit_char(d: int) -> char {
    if d == 0 {
        '0'
    } else if d == 1 {
        '1'
    } else if d == 2 {
        '2'
    } else if d == 3 {
        '3'
    } else if d == 4 {
        '4'
    } else if d == 5 {
        '5'
    } else if d == 6 {
        '6'
    } else if d == 7 {
        '7'
    } else if d == 8 {
        '8'
    } else {
        '9'
    }
}

/// The decimal digits of `n`, most significant first, without leading zeros.
pub open spec fn decimal(n: nat) -> Seq<char>
    decreases n,
{
    if n < 10 {
        seq![digit_char(n as int)]
    } else {
        decimal(n / 10).push(digit_char((n % 10) as int))
    }
}

/// How `Display` writes an integer: a minus sign before the digits of a
/// negative number.
pub open spec fn signed_decimal(n: int) -> Seq<char> {
    if n < 0 {
        seq!['-'] + decimal((-n) as nat)
    } else {
        decimal(n as nat)
    }
}

/// The body that answers request number `n`.
pub open spec fn request_text(n: int) -> Seq<char> {
    "Request #"@ + signed_decimal(n)
}

/// The number after `n` on a 32-bit signed counter that wraps around.
pub open spec fn next_count(n: i32) -> i32 {
    if n == i32::MAX {
        i32::MIN
    } else {
        (n + 1) as i32
    }
}

/// The counter's value after `k` requests, starting from zero.
pub open spec fn count_after(k: nat) -> i32
    decreases k,
{
    if k == 0 {
        0
    } else {
        next_count(count_after((k - 1) as nat))
    }
}

fn digit_text(d: u64) -> (text: &'static str)
    requires
        d < 10,
    ensures
        text@ == seq![digit_char(d as int)],
{
    let digits = "0123456789";
    proof {
        reveal_strlit("0123456789");
    }
    digits.substring_char(d as usize, (d + 1) as usize)
}

fn append_decimal(out: &mut String, n: u64)
    ensures
        final(out)@ == old(out)@ + decimal(n as nat),
    decreases n,
{
    if n >= 10 {
        append_decimal(out, n / 10);
    }
    out.append(digit_text(n % 10));
    proof {
        if n >= 10 {
            assert(decimal(n as nat) == decimal((n / 10) as nat).push(digit_char((n % 10) as int)));
        }
    }
}

/// The response body for request number `number`: `Request #` and the
/// number as `Display` writes it.
pub fn request_message(number: i64) -> (text: String)
    ensures
        text@ == request_text(number as int),
{
    let mut text = String::new();
    text.append("Request #");
    if number < 0 {
        text.append("-");
        let magnitude: u64 = if number == i64::MIN {
            9223372036854775808u64
        } else {
            (-number) as u64
        };
        append_decimal(&mut text, magnitude);
        proof {
            reveal_strlit("-");
        }
    } else {
        append_decimal(&mut text, number as u64);
    }
    text
}

/// Each digit character is a decimal digit whose value is the digit.
proof fn lemma_digit_char(d: int)
    requires
        0 <= d < 10,
    ensures
        is_digit(digit_char(d)),
        digit_value(digit_char(d)) == d,
        digit_char(d) == '0' <==> d == 0,
{
}

/// The decimal text of `n` is a nonempty string of digits that denotes
/// exactly `n` and has no leading zero (unless `n` is 0, written `0`).
pub proof fn law_decimal_denotes(n: nat)
    ensures
        decimal(n).len() > 0,
        all_digits(decimal(n)),
        digits_value(decimal(n)) == n,
        decimal(n)[0] == '0' ==> n == 0 && decimal(n).len() == 1,
    decreases n,
{
    if n < 10 {
        lemma_digit_char(n as int);
        law_digits_value_positional(Seq::<char>::empty(), digit_char(n as int));
        assert(Seq::<char>::empty().push(digit_char(n as int)) =~= decimal(n));
    } else {
        let q = n / 10;
        let r = n % 10;
        law_decimal_denotes(q);
        lemma_digit_char(r as int);
        let s = decimal(q);
        assert(decimal(n) == s.push(digit_char(r as int)));
        law_digits_value_positional(s, digit_char(r as int));
        assert forall|i: int| 0 <= i < decimal(n).len() implies is_digit(#[trigger] decimal(n)[i]) by {
            if i < s.len() {
                assert(decimal(n)[i] == s[i]);
            }
        }
        assert(decimal(n)[0] == s[0]);
        assert(n == 10 * q + r);
    }
}

/// Reading back what `request_message` writes: the text after `Request #`
/// is, for a nonnegative number, exactly the digits that `str::parse` turns
/// back into that number.
pub proof fn law_request_text_round_trip(n: int)
    requires
        0 <= n <= usize::MAX,
    ensures
        request_text(n) == "Request #"@ + decimal(n as nat),
        spec_parse_usize(decimal(n as nat)) == Some(n as nat),
{
    law_decimal_denotes(n as nat);
    assert(is_digit(decimal(n as nat)[0]));
    assert(unsigned_digits(decimal(n as nat)) == decimal(n as nat));
}

/// Numbers the requests one worker thread serves: 1 for the first.
pub struct LocalRequestCounter {
    count: i32,
    requests: Ghost<nat>,
}

impl LocalRequestCounter {
    #[verifier::type_invariant]
    spec fn inv(self) -> bool {
        self.count == count_after(self.requests@)
    }

    /// The number the counter gave last, 0 before the first request.
    pub closed spec fn value(self) -> i32 {
        self.count
    }

    /// How many requests the counter has numbered.
    pub closed spec fn requests(self) -> nat {
        self.requests@
    }

    /// A counter that has counted nothing yet.
    pub fn new() -> (counter: Self)
        ensures
            counter.value() == 0,
            counter.requests() == 0,
    {
        LocalRequestCounter { count: 0, requests: Ghost(0) }
    }

    /// Counts one more request and gives its number; after `i32::MAX` the
    /// count wraps around to `i32::MIN`, as a release build's `+= 1` does.
    /// The `k`-th request gets number `k` while `k` fits in an `i32`.
    pub fn next(&mut self) -> (number: i32)
        ensures
            number == next_count(old(self).value()),
            final(self).value() == number,
            final(self).requests() == old(self).requests() + 1,
            number == count_after(final(self).requests()),
            final(self).requests() <= i32::MAX ==> number == final(self).requests(),
    {
        proof { use_type_invariant(&*self); }
        let ghost done = self.requests@;
        let count = if self.count == i32::MAX {
            i32::MIN
        } else {
            self.count + 1
        };
        proof {
            if done + 1 <= i32::MAX {
                law_requests_numbered_from_one(done + 1);
            }
        }
        *self = LocalRequestCounter { count, requests: Ghost(done + 1) };
        count
    }
}

/// The `k`-th request a worker serves gets number `k`, as long as `k` fits
/// in an `i32`.
pub proof fn law_requests_numbered_from_one(k: nat)
    requires
        k <= i32::MAX,
    ensures
        count_after(k) == k,
    decreases k,
{
    if k > 0 {
        law_requests_numbered_from_one((k - 1) as nat);
    }
}

} // verus!
