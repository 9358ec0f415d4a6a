//! The `sleep` program: reading durations.

use vstd::prelude::*;
use vstd::string::StringSliceAdditionalSpecFns;

verus! {

/// Milliseconds per second
pub const MS_PER_SECOND: usize = 1000;
/// Seconds per minute
pub const SECONDS_PER_MINUTE: usize = 60;
/// Seconds per hour
pub const SECONDS_PER_HOUR: usize = 3600;
/// Seconds per day
pub const SECONDS_PER_DAY: usize = 86400;

/// The value of the decimal digits `d`.
pub open spec fn digits_value(d: Seq<u8>) -> int
    decreases d.len(),
{
    if d.len() == 0 {
        0
    } else {
        digits_value(d.drop_last()) * 10 + (d.last() - 48)
    }
}

/// Every byte is an ASCII digit.
pub open spec fn all_digits(d: Seq<u8>) -> bool {
    forall|i: int| 0 <= i < d.len() ==> 48 <= #[trigger] d[i] <= 57
}

/// The digits of an unsigned number: without its leading '+', if any.
pub open spec fn unsigned_digits(b: Seq<u8>) -> Seq<u8> {
    if b.len() > 0 && b[0] == 43 {
        b.skip(1)
    } else {
        b
    }
}

/// Whether `b` reads as a `usize`: an optional '+', then at least one
/// digit, the value fitting a `usize`.
pub open spec fn parses_usize(b: Seq<u8>) -> bool {
    let d = unsigned_digits(b);
    &&& d.len() > 0
    &&& all_digits(d)
    &&& digits_value(d) <= usize::MAX
}

/// The value `b` reads as.
pub open spec fn usize_value(b: Seq<u8>) -> int {
    digits_value(unsigned_digits(b))
}

/// The value of more digits is at least that of fewer.
proof fn lemma_digits_value_prefix(d: Seq<u8>, k: int)
    requires
        all_digits(d),
        0 <= k <= d.len(),
    ensures
        0 <= digits_value(d.take(k)) <= digits_value(d),
    decreases d.len() - k,
{
    if k < d.len() {
        lemma_digits_value_prefix(d, k + 1);
        assert(d.take(k + 1).drop_last() =~= d.take(k));
        lemma_digits_value_nonneg(d.take(k));
    } else {
        assert(d.take(k) =~= d);
        lemma_digits_value_nonneg(d);
    }
}

/// The value of digits is not negative.
proof fn lemma_digits_value_nonneg(d: Seq<u8>)
    requires
        all_digits(d),
    ensures
        digits_value(d) >= 0,
    decreases d.len(),
{
    if d.len() > 0 {
        assert(all_digits(d.drop_last())) by {
            assert forall|i: int| 0 <= i < d.drop_last().len() implies 48 <= #[trigger] d.drop_last()[i] <= 57 by {
                assert(d.drop_last()[i] == d[i]);
            }
        }
        lemma_digits_value_nonneg(d.drop_last());
    }
}

/// The `usize` that `b` reads as, if any, as `str::parse` reads it
pub fn parse_usize(b: &[u8]) -> (r: Option<usize>)
    ensures
        r == (if parses_usize(b@) { Some(usize_value(b@) as usize) } else { None::<usize> }),
{
    let mut start: usize = 0;
    if b.len() > 0 && b[0] == 43 {
        start = 1;
    }
    let ghost d = unsigned_digits(b@);
    assert(d =~= b@.skip(start as int));
    if start >= b.len() {
        assert(d.len() == 0);
        return None;
    }
    let mut v: usize = 0;
    let mut i: usize = start;
    while i < b.len()
        invariant
            start <= i <= b@.len(),
            d == b@.skip(start as int),
            d == unsigned_digits(b@),
            all_digits(d.take(i - start)),
            v == digits_value(d.take(i - start)),
        decreases b@.len() - i,
    {
        let c = b[i];
        let k = (i - start) as usize;
        proof {
            assert(d.take(k + 1).drop_last() =~= d.take(k as int));
            assert(d.take(k + 1).last() == c);
        }
        if c < 48 || c > 57 {
            proof {
                assert(d[k as int] == c);
                assert(!all_digits(d));
            }
            return None;
        }
        proof {
            assert(all_digits(d.take(k + 1))) by {
                assert forall|j: int| 0 <= j < k + 1 implies 48 <= #[trigger] d.take(k + 1)[j] <= 57 by {
                    if j < k {
                        assert(d.take(k + 1)[j] == d.take(k as int)[j]);
                    }
                }
            }
        }
        match v.checked_mul(10) {
            Some(v10) => match v10.checked_add((c - 48) as usize) {
                Some(nv) => {
                    v = nv;
                },
                None => {
                    proof {
                        assert(digits_value(d.take(k + 1)) == v * 10 + (c - 48));
                        if all_digits(d) {
                            lemma_digits_value_prefix(d, k + 1);
                        }
                    }
                    return None;
                },
            },
            None => {
                proof {
                    lemma_digits_value_nonneg(d.take(k + 1));
                    if all_digits(d) {
                        lemma_digits_value_prefix(d, k + 1);
                    }
                }
                return None;
            },
        }
        i = i + 1;
    }
    assert(d.take(i - start) =~= d);
    Some(v)
}

/// The duration in milliseconds that `b` asks for: a number of seconds, or
/// a number followed by a unit, `s`, `m`, `h` or `d`.
pub open spec fn time_argument(b: Seq<u8>) -> Result<int, &'static str> {
    if parses_usize(b) {
        Ok(usize_value(b) * 1000)
    } else if !parses_usize(b.drop_last()) {
        Err("Invalid number")
    } else {
        let n = usize_value(b.drop_last());
        if b.last() == 115 {
            Ok(n * 1000)
        } else if b.last() == 109 {
            Ok(n * 60 * 1000)
        } else if b.last() == 104 {
            Ok(n * 3600 * 1000)
        } else if b.last() == 100 {
            Ok(n * 86400 * 1000)
        } else {
            Err("Unsupported time unit")
        }
    }
}

/// A duration is its number times the length of its unit: for digits `d`
/// whose value fits a `usize`, `d` alone asks for that many seconds, and `d`
/// followed by `s`, `m`, `h` or `d` for that many seconds, minutes (60 s),
/// hours (3600 s) or days (86400 s), in milliseconds (1000 per second); any
/// other byte after the digits that is no digit is refused.
pub proof fn lemma_time_argument_scales(d: Seq<u8>, unit: u8)
    requires
        d.len() > 0,
        all_digits(d),
        digits_value(d) <= usize::MAX,
    ensures
        time_argument(d) == Ok::<int, &'static str>(digits_value(d) * 1000),
        unit == 115u8 ==> time_argument(d.push(unit)) == Ok::<int, &'static str>(digits_value(d) * 1000),
        unit == 109u8 ==> time_argument(d.push(unit)) == Ok::<int, &'static str>(digits_value(d) * 60000),
        unit == 104u8 ==> time_argument(d.push(unit)) == Ok::<int, &'static str>(digits_value(d) * 3600000),
        unit == 100u8 ==> time_argument(d.push(unit)) == Ok::<int, &'static str>(digits_value(d) * 86400000),
        !(48u8 <= unit <= 57u8) && unit != 115u8 && unit != 109u8 && unit != 104u8 && unit != 100u8
            ==> time_argument(d.push(unit)) is Err,
{
    assert(unsigned_digits(d) == d);
    let b = d.push(unit);
    assert(b.drop_last() =~= d);
    if !(48u8 <= unit <= 57u8) {
        assert(b[b.len() - 1] == unit);
        assert(unsigned_digits(b) == b);
        assert(!all_digits(b));
    }
}

/// Whether a duration can be read from `b` without a fault: it is not
/// empty, a unit is a whole character, and the milliseconds fit a `usize`.
pub open spec fn time_argument_ok(b: Seq<u8>) -> bool {
    &&& b.len() > 0
    &&& !parses_usize(b) ==> vstd::utf8::is_char_boundary(b, b.len() - 1)
    &&& time_argument(b) matches Ok(ms) ==> ms <= usize::MAX
}

/// The duration in milliseconds that `arg` asks for: a number of seconds, or
/// a number followed by a unit, `s`, `m`, `h` or `d`; an error message when
/// the number or the unit cannot be read
pub fn parse_time_argument(arg: &str) -> (r: Result<usize, &'static str>)
    requires
        time_argument_ok(arg.spec_bytes()),
    ensures
        match time_argument(arg.spec_bytes()) {
            Ok(ms) => r == Ok::<usize, &'static str>(ms as usize),
            Err(e) => r == Err::<usize, &'static str>(e),
        },
{
    let b = arg.as_bytes();
    assert(b@ == arg.spec_bytes());
    match parse_usize(b) {
        Some(time) => {
            proof {
                lemma_digits_value_nonneg(unsigned_digits(b@));
            }
            assert(time * 1000 <= usize::MAX);
            return Ok(time * MS_PER_SECOND);
        },
        None => {},
    }
    let n = b.len();
    let (num_part, unit) = arg.split_at(n - 1);
    let nb = num_part.as_bytes();
    let ub = unit.as_bytes();
    assert(nb@ == b@.drop_last());
    assert(ub@.len() == 1 && ub@[0] == b@.last());
    let number = match parse_usize(nb) {
        Some(n) => {
            proof {
                lemma_digits_value_nonneg(unsigned_digits(nb@));
            }
            n
        },
        None => {
            return Err("Invalid number");
        },
    };
    let u = ub[0];
    let ms = if u == 115 {
        number * MS_PER_SECOND
    } else if u == 109 {
        number * SECONDS_PER_MINUTE * MS_PER_SECOND
    } else if u == 104 {
        number * SECONDS_PER_HOUR * MS_PER_SECOND
    } else if u == 100 {
        number * SECONDS_PER_DAY * MS_PER_SECOND
    } else {
        return Err("Unsupported time unit");
    };
    Ok(ms)
}

} // verus!
