//! How many CPUs the servers use: the `NUM_THREADS` variable when it holds
//! an unsigned integer, the machine's available parallelism otherwise.

use vstd::prelude::*;

verus! {

/// The value of one ASCII decimal digit.
pub open spec fn digit_value(c: char) -> int {
    c as int - '0' as int
}

pub open spec fn is_digit(c: char) -> bool {
    '0' <= c && c <= '9'
}

pub open spec fn all_digits(s: Seq<char>) -> bool {
    forall|i: int| 0 <= i < s.len() ==> is_digit(#[trigger] s[i])
}

/// The number that a string of decimal digits denotes, most significant first.
pub open spec fn digits_value(s: Seq<char>) -> nat
    decreases s.len(),
{
    if s.len() == 0 {
        0
    } else {
        (digits_value(s.drop_last()) * 10 + digit_value(s.last())) as nat
    }
}

/// A digit string denotes its number positionally: the empty string
/// denotes 0, and writing one more digit `c` after `s` multiplies the number
/// by ten and adds the digit's value.
pub proof fn law_digits_value_positional(s: Seq<char>, c: char)
    requires
        is_digit(c),
    ensures
        digits_value(Seq::<char>::empty()) == 0,
        digits_value(s.push(c)) == 10 * digits_value(s) + digit_value(c),
        0 <= digit_value(c) < 10,
{
    assert(s.push(c).drop_last() =~= s);
}

/// The digits that `usize::from_str` reads: one leading `+` is allowed.
pub open spec fn unsigned_digits(s: Seq<char>) -> Seq<char> {
    if s.len() > 0 && s[0] == '+' {
        s.drop_first()
    } else {
        s
    }
}

/// What `str::parse::<usize>` gives back: a value when the text is an
/// optional `+` followed by at least one decimal digit and nothing else, and
/// the number fits in a `usize`; no value otherwise.
pub open spec fn spec_parse_usize(s: Seq<char>) -> Option<nat> {
    let d = unsigned_digits(s);
    if d.len() > 0 && all_digits(d) && digits_value(d) <= usize::MAX {
        Some(digits_value(d))
    } else {
        None
    }
}

/// Parses a decimal unsigned integer exactly as `str::parse::<usize>` does.
pub fn parse_cpu_count(text: &str) -> (result: Option<usize>)
    ensures
        match spec_parse_usize(text@) {
            Some(n) => result == Some(n as usize),
            None => result.is_none(),
        },
{
    let len = text.unicode_len();
    let mut start: usize = 0;
    if len > 0 && text.get_char(0) == '+' {
        start = 1;
    }
    let ghost d = unsigned_digits(text@);
    assert(start == 1 ==> d =~= text@.subrange(1, len as int));
    assert(start == 0 ==> d =~= text@);
    if start >= len {
        return None;
    }
    let mut value: usize = 0;
    let mut overflow = false;
    let mut i = start;
    while i < len
        invariant
            start <= i <= len,
            len == text@.len(),
            d =~= text@.subrange(start as int, len as int),
            d == unsigned_digits(text@),
            forall|k: int| 0 <= k < i - start ==> is_digit(#[trigger] d[k]),
            !overflow ==> value == digits_value(d.take(i - start)),
            overflow ==> digits_value(d.take(i - start)) > usize::MAX,
        decreases len - i,
    {
        let c = text.get_char(i);
        if c < '0' || c > '9' {
            assert(!is_digit(d[i - start]));
            return None;
        }
        let ghost k = i - start;
        assert(d.take(k + 1).drop_last() =~= d.take(k));
        assert(d.take(k + 1).last() == c);
        if !overflow {
            let dv = (c as u32 - '0' as u32) as usize;
            assert(dv == digit_value(c));
            match value.checked_mul(10) {
                Some(v10) => match v10.checked_add(dv) {
                    Some(v) => {
                        value = v;
                    },
                    None => {
                        overflow = true;
                    },
                },
                None => {
                    overflow = true;
                },
            }
        } else {
            assert(digits_value(d.take(k + 1)) >= digits_value(d.take(k)) * 10) by (nonlinear_arith)
                requires
                    digits_value(d.take(k + 1)) == digits_value(d.take(k)) * 10 + digit_value(c),
                    digit_value(c) >= 0,
            ;
        }
        i = i + 1;
    }
    assert(d.take(len - start) =~= d);
    if overflow {
        None
    } else {
        Some(value)
    }
}

/// The thread-count variable's text is present and parses as a `usize`.
pub open spec fn variable_gives_count(env_value: Option<&str>) -> bool {
    match env_value {
        Some(s) => spec_parse_usize(s@) is Some,
        None => false,
    }
}

/// The CPU count to run with. `env_value` is the text of `NUM_THREADS` when
/// the variable is set and holds Unicode; `available` is the machine's
/// available parallelism, which is only needed (and must then be known) when
/// the variable gives no count. The variable wins when it parses as a
/// `usize`.
pub fn num_cpus(env_value: Option<&str>, available: Option<usize>) -> (result: usize)
    requires
        variable_gives_count(env_value) || available is Some,
    ensures
        match env_value {
            Some(s) => match spec_parse_usize(s@) {
                Some(n) => result == n,
                None => available == Some(result),
            },
            None => available == Some(result),
        },
{
    let parsed = match env_value {
        Some(s) => parse_cpu_count(s),
        None => None,
    };
    match parsed {
        Some(n) => n,
        None => available.unwrap(),
    }
}

/// The number of worker threads beside the thread that accepts connections:
/// one fewer than the CPU count.
pub fn worker_count(cpus: usize) -> (result: usize)
    requires
        cpus >= 1,
    ensures
        result == cpus - 1,
{
    cpus - 1
}

} // verus!
