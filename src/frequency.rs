//! Parsing of frequency specifications such as `"1"`, `"3/7"`, `"2w"` and `"0"`
//! into a `(target, interval)` pair.

use vstd::prelude::*;

verus! {

broadcast use vstd::string::axiom_spec_iter;

/// The characters of `s`, in order.
fn chars_of(s: &str) -> (r: Vec<char>)
    ensures
        r@ == s@,
{
    let mut r: Vec<char> = Vec::new();
    for c in it: s.chars()
        invariant
            it.seq() == s@,
            r@ == it.seq().take(it.index() as int),
    {
        r.push(c);
    }
    r
}


/// Which rule of the grammar a frequency specification broke.
#[derive(Clone, Copy, Debug, PartialEq, Eq, Structural)]
pub enum ParseErrorKind {
    /// A `w` suffix whose remainder is not a count, or whose week count
    /// times seven does not fit in a `u32`.
    InvalidWeekly,
    /// A `T/I` form where either side is not a count.
    InvalidRatio,
    /// A form that would give a positive target over an interval of zero days.
    ZeroInterval,
    /// Anything that matches no rule.
    Unrecognized,
}

/// A rejected frequency specification: the rule it broke and the text itself.
#[derive(Clone, Debug)]
pub struct ParseError {
    pub kind: ParseErrorKind,
    pub raw: String,
}

pub open spec fn is_digit(c: char) -> bool {
    '0' <= c && c <= '9'
}

pub open spec fn digit_value(c: char) -> nat {
    ((c as u32) - ('0' as u32)) as nat
}

/// One or more decimal digits.
pub open spec fn all_digits(s: Seq<char>) -> bool {
    s.len() > 0 && forall|i: int| 0 <= i < s.len() ==> is_digit(#[trigger] s[i])
}

/// The number that the decimal digits `s` write.
pub open spec fn decimal_value(s: Seq<char>) -> nat
    decreases s.len(),
{
    if s.len() == 0 {
        0
    } else {
        decimal_value(s.drop_last()) * 10 + digit_value(s.last())
    }
}

/// A non-negative integer that fits in a `u32`, written in decimal digits.
pub open spec fn is_count(s: Seq<char>) -> bool {
    all_digits(s) && decimal_value(s) <= u32::MAX
}

/// `s` splits at position `k` into two counts around a `/`.
pub open spec fn ratio_split(s: Seq<char>, k: int) -> bool {
    0 <= k < s.len() && s[k] == '/' && is_count(s.take(k)) && is_count(s.skip(k + 1))
}

/// What a frequency specification means: `(target, interval)`, or the rule it breaks.
pub open spec fn spec_parse(s: Seq<char>) -> Result<(u32, u32), ParseErrorKind> {
    if s == seq!['0'] {
        Ok((0, 0))
    } else if s.len() > 0 && s.last() == 'w' {
        let n = s.drop_last();
        if !is_count(n) || decimal_value(n) * 7 > u32::MAX {
            Err(ParseErrorKind::InvalidWeekly)
        } else if decimal_value(n) == 0 {
            Err(ParseErrorKind::ZeroInterval)
        } else {
            Ok((1, (decimal_value(n) * 7) as u32))
        }
    } else if exists|k: int| 0 <= k < s.len() && s[k] == '/' {
        if exists|k: int| ratio_split(s, k) {
            let k = choose|k: int| ratio_split(s, k);
            let t = decimal_value(s.take(k));
            let i = decimal_value(s.skip(k + 1));
            if i == 0 && t > 0 {
                Err(ParseErrorKind::ZeroInterval)
            } else {
                Ok((t as u32, i as u32))
            }
        } else {
            Err(ParseErrorKind::InvalidRatio)
        }
    } else if is_count(s) {
        if decimal_value(s) == 0 {
            Err(ParseErrorKind::ZeroInterval)
        } else {
            Ok((1, decimal_value(s) as u32))
        }
    } else {
        Err(ParseErrorKind::Unrecognized)
    }
}

/// Parsing depends on the text alone: two equal texts parse to the same
/// `(target, interval)`, or fail by the same rule.
pub proof fn lemma_parse_deterministic(a: Seq<char>, b: Seq<char>)
    requires
        a == b,
    ensures
        spec_parse(a) == spec_parse(b),
{
}

/// A successful parse never gives a positive target over a zero interval.
pub proof fn lemma_parse_zero_interval(s: Seq<char>)
    requires
        spec_parse(s) is Ok,
    ensures
        spec_parse(s)->Ok_0.1 == 0 ==> spec_parse(s)->Ok_0.0 == 0,
{
}

/// The count written by `s[lo..hi]`, if that slice is one.
fn parse_count(s: &Vec<char>, lo: usize, hi: usize) -> (r: Option<u32>)
    requires
        lo <= hi <= s@.len(),
    ensures
        r == (if is_count(s@.subrange(lo as int, hi as int)) {
            Some(decimal_value(s@.subrange(lo as int, hi as int)) as u32)
        } else {
            None::<u32>
        }),
{
    let ghost sub = s@.subrange(lo as int, hi as int);
    if lo == hi {
        return None;
    }
    let mut acc: u64 = 0;
    let mut i: usize = lo;
    while i < hi
        invariant
            lo <= i <= hi <= s@.len(),
            sub == s@.subrange(lo as int, hi as int),
            forall|j: int| lo <= j < i ==> is_digit(#[trigger] s@[j]),
            acc == (if decimal_value(s@.subrange(lo as int, i as int)) > u32::MAX {
                u32::MAX as nat + 1
            } else {
                decimal_value(s@.subrange(lo as int, i as int))
            }),
        decreases hi - i,
    {
        let c = s[i];
        if !('0' <= c && c <= '9') {
            assert(!is_digit(sub[i - lo]));
            return None;
        }
        let d = (c as u32 - '0' as u32) as u64;
        assert(s@.subrange(lo as int, i + 1).drop_last() == s@.subrange(lo as int, i as int));
        let next = acc * 10 + d;
        if next > u32::MAX as u64 {
            acc = u32::MAX as u64 + 1;
        } else {
            acc = next;
        }
        i = i + 1;
    }
    assert(s@.subrange(lo as int, hi as int) == sub);
    assert(all_digits(sub)) by {
        assert forall|j: int| 0 <= j < sub.len() implies is_digit(#[trigger] sub[j]) by {
            assert(sub[j] == s@[lo + j]);
        }
    }
    if acc > u32::MAX as u64 {
        None
    } else {
        Some(acc as u32)
    }
}


proof fn lemma_ratio_split_unique(s: Seq<char>, k1: int, k2: int)
    requires
        ratio_split(s, k1),
        ratio_split(s, k2),
    ensures
        k1 == k2,
{
    if k1 < k2 {
        assert(s.take(k2)[k1] == '/');
    } else if k2 < k1 {
        assert(s.take(k1)[k2] == '/');
    }
}

fn parse_error(kind: ParseErrorKind, freq: &str) -> (e: ParseError)
    ensures
        e.kind == kind,
        e.raw@ == freq@,
{
    ParseError { kind, raw: freq.to_owned() }
}

/// Parses a frequency specification into `(target, interval)`.
///
/// The rules, tried in order: `"0"` is a tracking-only habit `(0, 0)`;
/// `"<n>w"` is once every `n` weeks, `(1, 7 * n)`; `"<t>/<i>"` is `t`
/// completions in every `i` days; `"<n>"` is once every `n` days, `(1, n)`.
/// No rule yields a positive target over an interval of zero days.
pub fn parse_freq(freq: &str) -> (r: Result<(u32, u32), ParseError>)
    ensures
        match r {
            Ok(p) => spec_parse(freq@) == Ok::<(u32, u32), ParseErrorKind>(p),
            Err(e) => spec_parse(freq@) == Err::<(u32, u32), ParseErrorKind>(e.kind)
                && e.raw@ == freq@,
        },
{
    let cs = chars_of(freq);
    let n = cs.len();
    if n == 1 && cs[0] == '0' {
        assert(cs@ == seq!['0']);
        return Ok((0, 0));
    }
    assert(freq@ != seq!['0']) by {
        if freq@ == seq!['0'] {
            assert(cs@[0] == '0');
        }
    }
    if n > 0 && cs[n - 1] == 'w' {
        assert(cs@.subrange(0, n - 1) == cs@.drop_last());
        return match parse_count(&cs, 0, n - 1) {
            None => Err(parse_error(ParseErrorKind::InvalidWeekly, freq)),
            Some(v) => {
                if v > u32::MAX / 7 {
                    Err(parse_error(ParseErrorKind::InvalidWeekly, freq))
                } else if v == 0 {
                    Err(parse_error(ParseErrorKind::ZeroInterval, freq))
                } else {
                    Ok((1, v * 7))
                }
            },
        };
    }
    let mut k: usize = 0;
    while k < n && cs[k] != '/'
        invariant
            k <= n == cs@.len(),
            forall|j: int| 0 <= j < k ==> cs@[j] != '/',
        decreases n - k,
    {
        k = k + 1;
    }
    if k < n {
        let ghost s = cs@;
        assert(s.subrange(0, k as int) == s.take(k as int));
        assert(s.subrange(k + 1, n as int) == s.skip(k + 1));
        let left = parse_count(&cs, 0, k);
        let right = parse_count(&cs, k + 1, n);
        match (left, right) {
            (Some(t), Some(i)) => {
                assert(ratio_split(s, k as int));
                proof {
                    let c = choose|c: int| ratio_split(s, c);
                    lemma_ratio_split_unique(s, k as int, c);
                }
                if i == 0 && t > 0 {
                    Err(parse_error(ParseErrorKind::ZeroInterval, freq))
                } else {
                    Ok((t, i))
                }
            },
            _ => {
                assert forall|c: int| !ratio_split(s, c) by {
                    if ratio_split(s, c) && c > k {
                        assert(s.take(c)[k as int] == '/');
                    }
                }
                Err(parse_error(ParseErrorKind::InvalidRatio, freq))
            },
        }
    } else {
        assert(cs@.subrange(0, n as int) == cs@);
        match parse_count(&cs, 0, n) {
            None => Err(parse_error(ParseErrorKind::Unrecognized, freq)),
            Some(v) => {
                if v == 0 {
                    Err(parse_error(ParseErrorKind::ZeroInterval, freq))
                } else {
                    Ok((1, v))
                }
            },
        }
    }
}

} // verus!
