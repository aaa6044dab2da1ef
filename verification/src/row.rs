//! Row naming in the sidebar list: each row is named after its window.
use vstd::prelude::*;

verus! {

broadcast use vstd::string::group_string_axioms;

pub open spec fn is_digit(c: char) -> bool {
    '0' <= c && c <= '9'
}

pub open spec fn all_digits(s: Seq<char>) -> bool {
    forall|i: int| 0 <= i < s.len() ==> is_digit(#[trigger] s[i])
}

/// The number written by the decimal digits `s`.
pub open spec fn digits_value(s: Seq<char>) -> int
    decreases s.len(),
{
    if s.len() == 0 {
        0
    } else {
        digits_value(s.drop_last()) * 10 + (s.last() as int - '0' as int)
    }
}

/// The value of one or more decimal digits when it fits in a `u32`.
pub open spec fn digits_u32(d: Seq<char>) -> Option<u32> {
    if d.len() > 0 && all_digits(d) && digits_value(d) <= u32::MAX {
        Some(digits_value(d) as u32)
    } else {
        None
    }
}

/// What `u32`'s `FromStr` accepts: an optional `+`, then one or more decimal
/// digits whose value fits in a `u32`.
pub open spec fn parsed_u32(s: Seq<char>) -> Option<u32> {
    if s.len() > 0 && s[0] == '+' {
        digits_u32(s.skip(1))
    } else {
        digits_u32(s)
    }
}

/// The window id in a row name `wid-<number>`.
pub open spec fn wid_from_name(name: Seq<char>) -> Option<u32> {
    if name.len() >= 4 && name.take(4) == seq!['w', 'i', 'd', '-'] {
        parsed_u32(name.skip(4))
    } else {
        None
    }
}

proof fn lemma_digits_value_prefix(s: Seq<char>, k: int)
    requires
        0 <= k <= s.len(),
        all_digits(s),
    ensures
        0 <= digits_value(s.take(k)) <= digits_value(s),
    decreases s.len(),
{
    if k == s.len() {
        assert(s.take(k) =~= s);
        if s.len() > 0 {
            lemma_digits_value_prefix(s.drop_last(), s.len() - 1);
            assert(s.drop_last().take(s.len() - 1) =~= s.drop_last());
        }
    } else {
        assert(s.drop_last().take(k) =~= s.take(k));
        lemma_digits_value_prefix(s.drop_last(), k);
    }
}

/// Parse a window ID from a row's widget name (e.g., "wid-12345" → 12345).
pub fn parse_wid_from_name(name: &str) -> (wid: Option<u32>)
    ensures
        wid == wid_from_name(name@),
{
    let n = name.unicode_len();
    if n < 4 || name.get_char(0) != 'w' || name.get_char(1) != 'i' || name.get_char(2) != 'd'
        || name.get_char(3) != '-' {
        proof {
            if n >= 4 {
                assert(name@.take(4) != seq!['w', 'i', 'd', '-']) by {
                    if name@.take(4) == seq!['w', 'i', 'd', '-'] {
                        assert(name@[0] == name@.take(4)[0]);
                        assert(name@[1] == name@.take(4)[1]);
                        assert(name@[2] == name@.take(4)[2]);
                        assert(name@[3] == name@.take(4)[3]);
                    }
                }
            }
        }
        return None;
    }
    proof {
        assert(name@.take(4) =~= seq!['w', 'i', 'd', '-']);
    }
    let ghost rest = name@.skip(4);
    let mut start: usize = 4;
    if n > 4 && name.get_char(4) == '+' {
        start = 5;
    }
    let ghost d = name@.skip(start as int);
    proof {
        if rest.len() > 0 && rest[0] == '+' {
            assert(rest[0] == name@[4]);
            assert(rest.skip(1) =~= d);
        } else {
            assert(rest =~= d);
        }
        assert(wid_from_name(name@) == parsed_u32(rest));
        assert(parsed_u32(rest) == digits_u32(d));
    }
    if start >= n {
        proof {
            assert(d.len() == 0);
        }
        return None;
    }
    let mut acc: u64 = 0;
    let mut i: usize = start;
    while i < n
        invariant
            start <= i <= n,
            n == name@.len(),
            d == name@.skip(start as int),
            all_digits(d.take(i - start)),
            acc as int == digits_value(d.take(i - start)),
            acc <= u32::MAX,
            d.len() > 0,
            wid_from_name(name@) == digits_u32(d),
        decreases n - i,
    {
        let c = name.get_char(i);
        proof {
            assert(d[i - start] == c);
        }
        if c < '0' || c > '9' {
            proof {
                assert(!is_digit(d[i - start]));
                assert(!all_digits(d));
            }
            return None;
        }
        let ghost pre = d.take(i - start + 1);
        proof {
            assert(pre.drop_last() =~= d.take(i - start));
            assert(pre.last() == c);
            assert forall|j: int| 0 <= j < pre.len() implies is_digit(#[trigger] pre[j]) by {
                if j < pre.len() - 1 {
                    assert(pre[j] == d.take(i - start)[j]);
                }
            }
        }
        let digit: u64 = (c as u32 - '0' as u32) as u64;
        acc = acc * 10 + digit;
        if acc > 0xffff_ffff {
            proof {
                if all_digits(d) {
                    lemma_digits_value_prefix(d, i - start + 1);
                }
            }
            return None;
        }
        i = i + 1;
    }
    proof {
        assert(d.take(n - start) =~= d);
    }
    Some(acc as u32)
}

} // verus!
