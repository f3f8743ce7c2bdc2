use vstd::prelude::*;

verus! {

/// Sectors per second of a compact disc.
pub const SECTORS_PER_SECOND: u32 = 75;

/// An ASCII decimal digit.
pub open spec fn is_digit(c: char) -> bool {
    '0' <= c && c <= '9'
}

pub open spec fn digit_value(c: char) -> nat {
    (c as nat - '0' as nat) as nat
}

/// The value of a run of decimal digits, most significant first.
pub open spec fn digits_value(s: Seq<char>) -> nat
    decreases s.len(),
{
    if s.len() == 0 {
        0
    } else {
        digits_value(s.drop_last()) * 10 + digit_value(s.last())
    }
}

pub open spec fn all_digits(s: Seq<char>) -> bool {
    forall|i: int| 0 <= i < s.len() ==> is_digit(#[trigger] s[i])
}

/// A non-empty run of decimal digits.
pub open spec fn is_number(s: Seq<char>) -> bool {
    s.len() > 0 && all_digits(s)
}

/// `s` is `m:s:f`, three non-empty runs of digits split at the two colons `i` and `j`.
pub open spec fn split_at(s: Seq<char>, i: int, j: int) -> bool {
    0 < i && i + 1 < j && j + 1 < s.len() && s[i] == ':' && s[j] == ':'
        && is_number(s.subrange(0, i)) && is_number(s.subrange(i + 1, j))
        && is_number(s.subrange(j + 1, s.len() as int))
}

/// `s` has the lexical form `minutes:seconds:frames`.
pub open spec fn is_timestamp(s: Seq<char>) -> bool {
    exists|i: int, j: int| split_at(s, i, j)
}

/// The sector offset that a timestamp split at `i` and `j` stands for.
pub open spec fn offset_at(s: Seq<char>, i: int, j: int) -> nat {
    digits_value(s.subrange(j + 1, s.len() as int))
        + digits_value(s.subrange(i + 1, j)) * 75
        + digits_value(s.subrange(0, i)) * 60 * 75
}

/// The sector offset of a timestamp: `frames + seconds*75 + minutes*60*75`.
pub open spec fn timestamp_offset(s: Seq<char>) -> nat
    recommends is_timestamp(s),
{
    let (i, j) = choose|i: int, j: int| split_at(s, i, j);
    offset_at(s, i, j)
}

/// A timestamp did not have the form `minutes:seconds:frames`, or its offset
/// does not fit in 32 bits.
#[derive(Debug, Clone, Copy, PartialEq, Eq, Structural)]
pub struct MalformedTimestamp;


/// The characters of `s`, in order.
pub(crate) fn chars_of(s: &str) -> (r: Vec<char>)
    ensures
        r@ == s@,
{
    let n = s.unicode_len();
    let mut r: Vec<char> = Vec::new();
    let mut i: usize = 0;
    while i < n
        invariant
            n == s@.len(),
            i <= n,
            r@ == s@.subrange(0, i as int),
        decreases n - i,
    {
        r.push(s.get_char(i));
        i = i + 1;
        assert(r@ =~= s@.subrange(0, i as int));
    }
    assert(r@ =~= s@);
    r
}

/// The first position at or after `from` that holds `c`, or the length of `s`.
fn find_char(s: &Vec<char>, c: char, from: usize) -> (r: usize)
    requires
        from <= s@.len(),
    ensures
        from <= r <= s@.len(),
        r < s@.len() ==> s@[r as int] == c,
        forall|k: int| from <= k < r ==> s@[k] != c,
{
    let mut i = from;
    while i < s.len()
        invariant
            from <= i <= s@.len(),
            forall|k: int| from <= k < i ==> s@[k] != c,
        decreases s@.len() - i,
    {
        if s[i] == c {
            return i;
        }
        i = i + 1;
    }
    i
}

/// Whether every character of `s[lo..hi]` is a decimal digit.
fn all_digits_in(s: &Vec<char>, lo: usize, hi: usize) -> (r: bool)
    requires
        lo <= hi <= s@.len(),
    ensures
        r == all_digits(s@.subrange(lo as int, hi as int)),
{
    let mut i = lo;
    while i < hi
        invariant
            lo <= i <= hi <= s@.len(),
            forall|k: int| lo <= k < i ==> is_digit(s@[k]),
        decreases hi - i,
    {
        if !('0' <= s[i] && s[i] <= '9') {
            assert(!is_digit(s@.subrange(lo as int, hi as int)[i - lo]));
            return false;
        }
        i = i + 1;
    }
    assert forall|k: int| 0 <= k < hi - lo implies is_digit(#[trigger] s@.subrange(lo as int, hi as int)[k]) by {
        assert(is_digit(s@[lo + k]));
    }
    true
}

proof fn lemma_digits_push(s: Seq<char>, lo: int, k: int)
    requires
        0 <= lo <= k < s.len(),
    ensures
        digits_value(s.subrange(lo, k + 1)) == digits_value(s.subrange(lo, k)) * 10 + digit_value(s[k]),
{
    assert(s.subrange(lo, k + 1).drop_last() =~= s.subrange(lo, k));
}

proof fn lemma_digits_prefix_le(s: Seq<char>, k: int)
    requires
        0 <= k <= s.len(),
    ensures
        digits_value(s.subrange(0, k)) <= digits_value(s),
    decreases s.len() - k,
{
    if k < s.len() {
        lemma_digits_prefix_le(s, k + 1);
        lemma_digits_push(s, 0, k);
    } else {
        assert(s.subrange(0, k) =~= s);
    }
}

/// The value of the digits `s[lo..hi]`, if it fits in 32 bits.
pub(crate) fn parse_number(s: &Vec<char>, lo: usize, hi: usize) -> (r: Option<u32>)
    requires
        lo <= hi <= s@.len(),
        all_digits(s@.subrange(lo as int, hi as int)),
    ensures
        match r {
            Some(v) => v as nat == digits_value(s@.subrange(lo as int, hi as int)),
            None => digits_value(s@.subrange(lo as int, hi as int)) > u32::MAX as nat,
        },
{
    let ghost whole = s@.subrange(lo as int, hi as int);
    let mut acc: u64 = 0;
    let mut i = lo;
    while i < hi
        invariant
            lo <= i <= hi <= s@.len(),
            whole == s@.subrange(lo as int, hi as int),
            all_digits(whole),
            acc as nat == digits_value(s@.subrange(lo as int, i as int)),
            acc <= u32::MAX,
        decreases hi - i,
    {
        assert(is_digit(whole[i - lo]));
        proof {
            lemma_digits_push(s@, lo as int, i as int);
        }
        let d = (s[i] as u32 - '0' as u32) as u64;
        acc = acc * 10 + d;
        i = i + 1;
        if acc > 0xffff_ffff {
            proof {
                assert(whole.subrange(0, i - lo) =~= s@.subrange(lo as int, i as int));
                lemma_digits_prefix_le(whole, i - lo);
            }
            return None;
        }
    }
    Some(acc as u32)
}

proof fn lemma_split_unique(s: Seq<char>, i: int, j: int, i2: int, j2: int)
    requires
        split_at(s, i, j),
        split_at(s, i2, j2),
    ensures
        i == i2 && j == j2,
{
    if i < i2 {
        assert(is_digit(s.subrange(0, i2)[i]));
    }
    if i2 < i {
        assert(is_digit(s.subrange(0, i)[i2]));
    }
    if j < j2 {
        assert(is_digit(s.subrange(i + 1, j2)[j - i - 1]));
    }
    if j2 < j {
        assert(is_digit(s.subrange(i + 1, j)[j2 - i - 1]));
    }
}

/// The sector offset of a `minutes:seconds:frames` timestamp:
/// `frames + seconds*75 + minutes*60*75`. Fields are not range-checked, so
/// seconds of 60 or more and frames of 75 or more count arithmetically.
/// Fails when `timestamp` does not have that form or the offset does not fit in 32 bits.
pub fn cuestamp_to_sectors(timestamp: &str) -> (r: Result<u32, MalformedTimestamp>)
    ensures
        match r {
            Ok(v) => is_timestamp(timestamp@) && v as nat == timestamp_offset(timestamp@),
            Err(_) => !is_timestamp(timestamp@) || timestamp_offset(timestamp@) > u32::MAX as nat,
        },
{
    let s = chars_of(timestamp);
    stamp_to_sectors(&s)
}

/// `cuestamp_to_sectors` on a sequence of characters.
fn stamp_to_sectors(s: &Vec<char>) -> (r: Result<u32, MalformedTimestamp>)
    ensures
        match r {
            Ok(v) => is_timestamp(s@) && v as nat == timestamp_offset(s@),
            Err(_) => !is_timestamp(s@) || timestamp_offset(s@) > u32::MAX as nat,
        },
{
    let n = s.len();
    let i = find_char(s, ':', 0);
    let j = if i < n { find_char(s, ':', i + 1) } else { n };
    let ok = 0 < i && i < n && i + 1 < j && j < n && j + 1 < n
        && all_digits_in(s, 0, i) && all_digits_in(s, i + 1, j) && all_digits_in(s, j + 1, n);
    if !ok {
        proof {
            if is_timestamp(s@) {
                let (i0, j0) = choose|i0: int, j0: int| split_at(s@, i0, j0);
                if i0 < i {
                    assert(s@[i0] == ':');
                }
                if i < i0 {
                    assert(is_digit(s@.subrange(0, i0)[i as int]));
                }
                if j0 < j {
                    assert(s@[j0] == ':');
                }
                if j < j0 {
                    assert(is_digit(s@.subrange(i0 + 1, j0)[j - i0 - 1]));
                }
                assert(split_at(s@, i as int, j as int));
            }
        }
        return Err(MalformedTimestamp);
    }
    proof {
        assert(split_at(s@, i as int, j as int));
        let (i0, j0) = choose|i0: int, j0: int| split_at(s@, i0, j0);
        lemma_split_unique(s@, i as int, j as int, i0, j0);
    }
    let m = parse_number(s, 0, i);
    let sec = parse_number(s, i + 1, j);
    let f = parse_number(s, j + 1, n);
    match (m, sec, f) {
        (Some(m), Some(sec), Some(f)) => {
            let total: u64 = f as u64 + sec as u64 * 75 + m as u64 * 4500;
            if total > 0xffff_ffff {
                Err(MalformedTimestamp)
            } else {
                Ok(total as u32)
            }
        },
        _ => Err(MalformedTimestamp),
    }
}

} // verus!
