use vstd::prelude::*;
use vstd::string::*;

use crate::payload::SubmitPayload;

verus! {

/// An ASCII decimal digit.
pub open spec fn is_digit(c: char) -> bool {
    '0' <= c && c <= '9'
}

/// One of the duration units `s`, `m`, `h`, `d` and `M`.
pub open spec fn is_unit(c: char) -> bool {
    c == 's' || c == 'm' || c == 'h' || c == 'd' || c == 'M'
}

/// A duration is one or more tokens, each an integer followed by a unit.
pub open spec fn well_formed(s: Seq<char>) -> bool {
    &&& s.len() > 0
    &&& is_unit(s.last())
    &&& tokens_ok(s)
}

/// Every character is a digit, or a unit right after a digit.
pub open spec fn tokens_ok(s: Seq<char>) -> bool {
    forall|k: int|
        0 <= k < s.len() ==> is_digit(#[trigger] s[k]) || (is_unit(s[k]) && k > 0 && is_digit(
            s[k - 1],
        ))
}

/// Seconds in one duration unit: `s`, `m`, `h`, `d`, and `M` for a 31-day
/// month.
pub open spec fn unit_seconds(c: char) -> int {
    if c == 's' {
        1
    } else if c == 'm' {
        60
    } else if c == 'h' {
        3600
    } else if c == 'd' {
        86400
    } else if c == 'M' {
        2678400
    } else {
        0
    }
}

/// Reading a duration left to right: the number being read and the seconds
/// summed so far. A unit character closes the number read before it.
pub open spec fn scan(s: Seq<char>) -> (int, int)
    decreases s.len(),
{
    if s.len() == 0 {
        (0, 0)
    } else {
        let (n, t) = scan(s.drop_last());
        let c = s.last();
        if is_digit(c) {
            (n * 10 + (c as int - '0' as int), t)
        } else {
            (0, t + n * unit_seconds(c))
        }
    }
}

/// The number of seconds a duration such as `1d12h` stands for.
pub open spec fn duration_seconds(s: Seq<char>) -> int {
    scan(s).1
}

/// Every step of reading `s` stays within 64 bits.
pub open spec fn scan_fits(s: Seq<char>) -> bool {
    forall|k: int|
        0 <= k <= s.len() ==> (#[trigger] scan(s.take(k))).0 <= u64::MAX && scan(s.take(k)).1
            <= u64::MAX
}

proof fn lemma_scan_step(s: Seq<char>, k: int)
    requires
        0 <= k < s.len(),
    ensures
        scan(s.take(k + 1)) == ({
            let (n, t) = scan(s.take(k));
            let c = s[k];
            if is_digit(c) {
                (n * 10 + (c as int - '0' as int), t)
            } else {
                (0, t + n * unit_seconds(c))
            }
        }),
{
    assert(s.take(k + 1).drop_last() =~= s.take(k));
}

fn unit_of(c: char) -> (r: u64)
    ensures
        r == unit_seconds(c),
{
    if c == 's' {
        1
    } else if c == 'm' {
        60
    } else if c == 'h' {
        3600
    } else if c == 'd' {
        86400
    } else if c == 'M' {
        2678400
    } else {
        0
    }
}

/// Parses a duration: integers each followed by a unit, summed. `None` when
/// the text is not such a duration, or a number or the sum does not fit in
/// 64 bits.
pub fn parse_duration(text: &str) -> (r: Option<u64>)
    ensures
        r is Some <==> well_formed(text@) && scan_fits(text@),
        r matches Some(v) ==> v == duration_seconds(text@),
{
    let len = text.unicode_len();
    let mut i: usize = 0;
    let mut pending: u64 = 0;
    let mut total: u64 = 0;
    let mut after_digit = false;
    assert(text@.take(0) =~= Seq::<char>::empty());
    while i < len
        invariant
            len == text@.len(),
            i <= len,
            after_digit == (i > 0 && is_digit(text@[i - 1])),
            forall|k: int|
                0 <= k < i ==> is_digit(#[trigger] text@[k]) || (is_unit(text@[k]) && k > 0
                    && is_digit(text@[k - 1])),
            scan(text@.take(i as int)) == (pending as int, total as int),
            forall|k: int|
                0 <= k <= i ==> (#[trigger] scan(text@.take(k))).0 <= u64::MAX && scan(
                    text@.take(k),
                ).1 <= u64::MAX,
        decreases len - i,
    {
        let c = text.get_char(i);
        proof {
            lemma_scan_step(text@, i as int);
        }
        let unit = c == 's' || c == 'm' || c == 'h' || c == 'd' || c == 'M';
        let digit = '0' <= c && c <= '9';
        if !digit && !(unit && after_digit) {
            assert(!tokens_ok(text@));
            return None;
        }
        if digit {
            let d = (c as u32 - '0' as u32) as u64;
            let next = match pending.checked_mul(10) {
                Some(x) => x.checked_add(d),
                None => None,
            };
            match next {
                Some(x) => {
                    pending = x;
                    after_digit = true;
                },
                None => {
                    assert(scan(text@.take(i + 1)).0 > u64::MAX);
                    return None;
                },
            }
        } else {
            let next = match pending.checked_mul(unit_of(c)) {
                Some(x) => total.checked_add(x),
                None => None,
            };
            match next {
                Some(x) => {
                    total = x;
                    pending = 0;
                    after_digit = false;
                },
                None => {
                    proof {
                        if pending as int * unit_seconds(c) > u64::MAX {
                            assert(scan(text@.take(i + 1)).1 > u64::MAX);
                        }
                    }
                    assert(scan(text@.take(i + 1)).1 > u64::MAX);
                    return None;
                },
            }
        }
        i = i + 1;
    }
    assert(text@.take(len as int) =~= text@);
    if len == 0 || after_digit {
        return None;
    }
    Some(total)
}

/// The absolute time `now + duration(text)`; `None` when the duration does
/// not parse within 64 bits or the sum leaves the range of `i64`.
pub fn expiry_deadline(now: i64, text: &str) -> (r: Option<i64>)
    ensures
        r is Some <==> well_formed(text@) && scan_fits(text@) && now + duration_seconds(text@)
            <= i64::MAX,
        r matches Some(t) ==> t == now + duration_seconds(text@),
{
    match parse_duration(text) {
        Some(secs) => now.checked_add_unsigned(secs),
        None => None,
    }
}

impl SubmitPayload {
    /// The payload that closes a session: expiring `expire` after `now`,
    /// named `name`, with an optional download quota. `None` when the expiry
    /// cannot be computed (see `expiry_deadline`).
    pub fn from_request(now: i64, expire: &str, name: String, max_download: Option<usize>) -> (r:
        Option<SubmitPayload>)
        ensures
            r is Some <==> well_formed(expire@) && scan_fits(expire@) && now + duration_seconds(
                expire@,
            ) <= i64::MAX,
            r matches Some(p) ==> p.expire == now + duration_seconds(expire@) && p.name == name
                && p.max_download == max_download,
    {
        match expiry_deadline(now, expire) {
            Some(t) => Some(SubmitPayload { expire: t, name, max_download }),
            None => None,
        }
    }
}

} // verus!
