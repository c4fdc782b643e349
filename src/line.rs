//! Line-number arguments: decimal numbers read as `str::parse::<usize>`
//! reads them; a line-range bound is at least 1.
use vstd::prelude::*;

verus! {

/// A decimal digit.
pub open spec fn is_digit(c: char) -> bool {
    '0' <= c && c <= '9'
}

/// Every character of `s` is a decimal digit.
pub open spec fn all_digits(s: Seq<char>) -> bool {
    forall|i: int| 0 <= i < s.len() ==> is_digit(#[trigger] s[i])
}

/// The number that the decimal digits `s` spell, most significant first.
pub open spec fn digits_value(s: Seq<char>) -> nat
    decreases s.len(),
{
    if s.len() == 0 {
        0
    } else {
        digits_value(s.drop_last()) * 10 + (s.last() as nat - '0' as nat) as nat
    }
}

/// The digits of a line number: the text without one leading `+`.
pub open spec fn unsigned_digits(s: Seq<char>) -> Seq<char> {
    if s.len() > 0 && s[0] == '+' {
        s.drop_first()
    } else {
        s
    }
}

/// `s` is a line number: an optional `+`, then at least one digit, naming a
/// value that fits in `usize`.
pub open spec fn is_line_number(s: Seq<char>) -> bool {
    let ds = unsigned_digits(s);
    &&& ds.len() > 0
    &&& all_digits(ds)
    &&& digits_value(ds) <= usize::MAX
}

/// The value of a line number.
pub open spec fn line_number_value(s: Seq<char>) -> nat {
    digits_value(unsigned_digits(s))
}

/// A prefix of a digit string never spells more than the whole string.
proof fn lemma_prefix_value_le(s: Seq<char>, k: int)
    requires
        all_digits(s),
        0 <= k <= s.len(),
    ensures
        digits_value(s.subrange(0, k)) <= digits_value(s),
    decreases s.len(),
{
    if k < s.len() {
        assert(all_digits(s.drop_last()));
        lemma_prefix_value_le(s.drop_last(), k);
        assert(s.drop_last().subrange(0, k) =~= s.subrange(0, k));
    } else {
        assert(s.subrange(0, k) =~= s);
    }
}

/// Reads a line number, or `None` where `s` is not one.
pub fn parse_line(s: &str) -> (r: Option<usize>)
    ensures
        r == (if is_line_number(s@) {
            Some(line_number_value(s@) as usize)
        } else {
            None::<usize>
        }),
{
    let n = s.unicode_len();
    let mut start: usize = 0;
    if n > 0 && s.get_char(0) == '+' {
        start = 1;
    }
    let ghost ds = unsigned_digits(s@);
    assert(ds =~= s@.subrange(start as int, n as int));
    if start == n {
        return None;
    }
    let mut acc: usize = 0;
    let mut i: usize = start;
    while i < n
        invariant
            start <= i <= n,
            n == s@.len(),
            ds == unsigned_digits(s@),
            ds =~= s@.subrange(start as int, n as int),
            all_digits(ds.subrange(0, i - start)),
            acc as nat == digits_value(ds.subrange(0, i - start)),
        decreases n - i,
    {
        let c = s.get_char(i);
        if !('0' <= c && c <= '9') {
            assert(ds[i - start] == c);
            assert(!all_digits(ds));
            return None;
        }
        let d = (c as u32 - '0' as u32) as usize;
        let ghost next = ds.subrange(0, i - start + 1);
        assert(next.drop_last() =~= ds.subrange(0, i - start));
        assert(all_digits(next));
        assert(next.last() == c);
        assert(digits_value(next) == acc * 10 + d);
        match acc.checked_mul(10) {
            Some(m) => match m.checked_add(d) {
                Some(v) => {
                    acc = v;
                },
                None => {
                    proof {
                        if all_digits(ds) {
                            lemma_prefix_value_le(ds, i - start + 1);
                        }
                    }
                    return None;
                },
            },
            None => {
                proof {
                    if all_digits(ds) {
                        lemma_prefix_value_le(ds, i - start + 1);
                    }
                }
                return None;
            },
        }
        i = i + 1;
    }
    assert(ds.subrange(0, n - start) =~= ds);
    Some(acc)
}

/// Accepts a line-number argument: a line number of at least 1, lines being
/// counted from 1. Anything else is refused with the same message.
pub fn validate_line(v: &str) -> (r: Result<(), String>)
    ensures
        r is Ok <==> is_line_number(v@) && line_number_value(v@) >= 1,
        r matches Err(e) ==> e@ == "not a valid line number"@,
{
    match parse_line(v) {
        Some(n) if n >= 1 => Ok(()),
        _ => Err(String::from_str("not a valid line number")),
    }
}

} // verus!
