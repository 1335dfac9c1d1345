//! The number of workers, from a setting and the number of cores.

use vstd::prelude::*;
use vstd::string::*;
use vstd::utf8::*;

verus! {

/// The value of a decimal digit in ASCII, if `b` is one.
pub open spec fn digit_value(b: u8) -> Option<nat> {
    if 48 <= b <= 57 {
        Some((b - 48) as nat)
    } else {
        None
    }
}

/// The number that a run of decimal digits writes, if `s` holds nothing
/// else. No digit at all writes zero.
pub open spec fn digits_value(s: Seq<u8>) -> Option<nat>
    decreases s.len(),
{
    if s.len() == 0 {
        Some(0)
    } else {
        match (digits_value(s.drop_last()), digit_value(s.last())) {
            (Some(v), Some(d)) => Some(10 * v + d),
            _ => None,
        }
    }
}

/// The number that a text writes: an optional `+`, then at least one decimal
/// digit and nothing else, for a number that fits in a `usize`.
pub open spec fn written_count(text: Seq<u8>) -> Option<usize> {
    let digits = if text.len() > 0 && text[0] == 43 {
        text.drop_first()
    } else {
        text
    };
    if digits.len() == 0 {
        None
    } else {
        match digits_value(digits) {
            Some(v) => if v <= usize::MAX {
                Some(v as usize)
            } else {
                None
            },
            None => None,
        }
    }
}

/// The number of workers to run: the setting, where there is one and it
/// writes a positive number, else the number of cores.
pub open spec fn chosen_workers(setting: Option<Seq<u8>>, cores: usize) -> usize {
    match setting {
        Some(text) => match written_count(text) {
            Some(n) => if n > 0 {
                n
            } else {
                cores
            },
            None => cores,
        },
        None => cores,
    }
}

/// Every beginning of a run of digits is a run of digits, and writes no
/// more than the whole.
pub proof fn lemma_digits_grow(s: Seq<u8>, n: int)
    requires
        0 <= n <= s.len(),
        digits_value(s) is Some,
    ensures
        digits_value(s.take(n)) is Some,
        digits_value(s.take(n))->0 <= digits_value(s)->0,
    decreases s.len() - n,
{
    if n == s.len() {
        assert(s.take(n) =~= s);
    } else {
        lemma_digits_grow(s, n + 1);
        assert(s.take(n + 1).drop_last() =~= s.take(n));
    }
}

/// What is not a run of digits up to some place is not one as a whole.
pub proof fn lemma_digits_fail(s: Seq<u8>, n: int)
    requires
        0 <= n <= s.len(),
        digits_value(s.take(n)) is None,
    ensures
        digits_value(s) is None,
{
    if digits_value(s) is Some {
        lemma_digits_grow(s, n);
    }
}

/// The number that `text` writes, if it writes one.
pub fn parse_count(text: &str) -> (count: Option<usize>)
    ensures
        count == written_count(encode_utf8(text@)),
{
    let bytes = text.as_bytes();
    let start: usize = if bytes.len() > 0 && bytes[0] == 43 {
        1
    } else {
        0
    };
    if bytes.len() == start {
        return None;
    }
    let ghost digits = bytes@.subrange(start as int, bytes@.len() as int);
    let ghost wanted = written_count(encode_utf8(text@));
    proof {
        if start == 0 {
            assert(digits =~= bytes@);
        }
    }
    let mut value: usize = 0;
    let mut i: usize = start;
    while i < bytes.len()
        invariant
            start <= i <= bytes.len(),
            digits == bytes@.subrange(start as int, bytes@.len() as int),
            digits.len() > 0,
            wanted == match digits_value(digits) {
                Some(v) => if v <= usize::MAX {
                    Some(v as usize)
                } else {
                    None
                },
                None => None,
            },
            wanted == written_count(encode_utf8(text@)),
            digits_value(digits.take(i - start)) == Some(value as nat),
        decreases bytes.len() - i,
    {
        let b = bytes[i];
        proof {
            assert(digits.take(i - start + 1).drop_last() =~= digits.take(i - start));
        }
        if b < 48 || b > 57 {
            proof {
                lemma_digits_fail(digits, i - start + 1);
            }
            return None;
        }
        let next = match value.checked_mul(10) {
            Some(tens) => tens.checked_add((b - 48) as usize),
            None => None,
        };
        match next {
            Some(v) => {
                value = v;
            },
            None => {
                proof {
                    if digits_value(digits) is Some {
                        lemma_digits_grow(digits, i - start + 1);
                    }
                }
                return None;
            },
        }
        i += 1;
    }
    proof {
        assert(digits.take(i - start) =~= digits);
    }
    Some(value)
}

/// The number of workers to run, from the setting, if there is one, and the
/// number of cores.
pub fn worker_count(setting: Option<&str>, cores: usize) -> (workers: usize)
    ensures
        workers == chosen_workers(
            match setting {
                Some(text) => Some(encode_utf8(text@)),
                None => None,
            },
            cores,
        ),
{
    match setting {
        Some(text) => match parse_count(text) {
            Some(n) => if n > 0 {
                n
            } else {
                cores
            },
            None => cores,
        },
        None => cores,
    }
}

} // verus!
