//! Reading unsigned decimal numbers, as `str::parse::<u64>` reads them.
use vstd::prelude::*;

verus! {

pub open spec fn is_digit(c: char) -> bool {
    '0' <= c <= '9'
}

pub open spec fn all_digits(s: Seq<char>) -> bool {
    forall|i: int| 0 <= i < s.len() ==> #[trigger] is_digit(s[i])
}

/// The number that the decimal digits `s` spell.
pub open spec fn digits_value(s: Seq<char>) -> nat
    decreases s.len(),
{
    if s.len() == 0 {
        0
    } else {
        digits_value(s.drop_last()) * 10 + ((s.last() as nat) - ('0' as nat)) as nat
    }
}

/// The digits of `s` after an optional leading `+`.
pub open spec fn unsigned_digits(s: Seq<char>) -> Seq<char> {
    if s.len() > 0 && s[0] == '+' {
        s.drop_first()
    } else {
        s
    }
}

/// What `s.parse::<u64>()` gives, as an `Option`: an optional `+`, then at
/// least one ASCII digit and nothing else, naming a number that fits in `u64`.
pub open spec fn parse_u64(s: Seq<char>) -> Option<u64> {
    let d = unsigned_digits(s);
    if d.len() > 0 && all_digits(d) && digits_value(d) <= u64::MAX {
        Some(digits_value(d) as u64)
    } else {
        None
    }
}

/// The decimal digits of `n`, as `n.to_string()` writes them.
pub open spec fn decimal_text(n: nat) -> Seq<char>
    decreases n,
{
    if n < 10 {
        seq![(n + 48) as char]
    } else {
        decimal_text(n / 10).push((n % 10 + 48) as char)
    }
}

pub proof fn lemma_decimal_text(n: nat)
    ensures
        decimal_text(n).len() > 0,
        all_digits(decimal_text(n)),
        digits_value(decimal_text(n)) == n,
    decreases n,
{
    let t = decimal_text(n);
    if n < 10 {
        let c = (n + 48) as char;
        assert(c as nat == n + 48);
        assert('0' as nat == 48);
        assert(t.drop_last() =~= Seq::<char>::empty());
        assert(t.last() == c);
        assert(digits_value(t.drop_last()) == 0);
        assert(is_digit(t[0]));
    } else {
        let q = n / 10;
        let c = (n % 10 + 48) as char;
        assert(c as nat == n % 10 + 48);
        lemma_decimal_text(q);
        let head = decimal_text(q);
        assert(t.drop_last() =~= head);
        assert forall|i: int| 0 <= i < t.len() implies #[trigger] is_digit(t[i]) by {
            if i < head.len() {
                assert(t[i] == head[i]);
            }
        }
        assert('0' as nat == 48);
        assert(t.last() == c);
        assert(q * 10 + n % 10 == n);
    }
}

/// The decimal digits of a number are read back as that number.
pub proof fn lemma_parse_decimal_text(n: u64)
    ensures
        parse_u64(decimal_text(n as nat)) == Some(n),
{
    let t = decimal_text(n as nat);
    lemma_decimal_text(n as nat);
    assert(is_digit(t[0]));
    assert(unsigned_digits(t) == t);
}

/// Extending a run of digits never makes its value smaller.
pub proof fn lemma_digits_value_prefix(s: Seq<char>, k: int)
    requires
        0 <= k <= s.len(),
        all_digits(s),
    ensures
        digits_value(s.take(k)) <= digits_value(s),
    decreases s.len() - k,
{
    if k < s.len() {
        lemma_digits_value_prefix(s, k + 1);
        let t = s.take(k + 1);
        assert(t.drop_last() =~= s.take(k));
        assert(is_digit(s[k]));
    } else {
        assert(s.take(k) =~= s);
    }
}

/// Reads the characters `lo..hi` of `cs` as `str::parse::<u64>` would.
pub(crate) fn parse_u64_range(cs: &Vec<char>, lo: usize, hi: usize) -> (r: Option<u64>)
    requires
        lo <= hi <= cs.len(),
    ensures
        r == parse_u64(cs@.subrange(lo as int, hi as int)),
{
    let ghost s = cs@.subrange(lo as int, hi as int);
    let start = if lo < hi && cs[lo] == '+' {
        lo + 1
    } else {
        lo
    };
    let ghost d = cs@.subrange(start as int, hi as int);
    proof {
        if lo < hi && cs@[lo as int] == '+' {
            assert(s[0] == cs@[lo as int]);
            assert(s.drop_first() =~= d);
        } else {
            if lo < hi {
                assert(s[0] == cs@[lo as int]);
            }
            assert(s =~= d);
        }
        assert(unsigned_digits(s) == d);
    }
    if start == hi {
        return None;
    }
    let mut value: u64 = 0;
    let mut k = start;
    while k < hi
        invariant
            lo <= start <= k <= hi <= cs.len(),
            s == cs@.subrange(lo as int, hi as int),
            d == cs@.subrange(start as int, hi as int),
            unsigned_digits(s) == d,
            d.len() > 0,
            all_digits(d.take(k - start)),
            value == digits_value(d.take(k - start)),
        decreases hi - k,
    {
        let c = cs[k];
        let ghost i = k - start;
        proof {
            assert(d[i] == c);
            assert(d.take(i + 1).drop_last() =~= d.take(i));
            assert(d.take(i + 1).last() == c);
        }
        if !('0' <= c && c <= '9') {
            proof {
                assert(!is_digit(d[i]));
            }
            return None;
        }
        let digit = (c as u32 - '0' as u32) as u64;
        let next = match value.checked_mul(10) {
            Some(v) => v.checked_add(digit),
            None => None,
        };
        match next {
            Some(v) => {
                value = v;
            },
            None => {
                proof {
                    assert forall|j: int| 0 <= j < i + 1 implies #[trigger] is_digit(
                        d.take(i + 1)[j],
                    ) by {
                        if j < i {
                            assert(d.take(i + 1)[j] == d.take(i)[j]);
                        }
                    }
                    if all_digits(d) {
                        lemma_digits_value_prefix(d, i + 1);
                    }
                }
                return None;
            },
        }
        k += 1;
        proof {
            assert forall|j: int| 0 <= j < i + 1 implies #[trigger] is_digit(d.take(i + 1)[j]) by {
                if j < i {
                    assert(d.take(i + 1)[j] == d.take(i)[j]);
                }
            }
        }
    }
    proof {
        assert(d.take(hi - start) =~= d);
    }
    Some(value)
}

} // verus!
