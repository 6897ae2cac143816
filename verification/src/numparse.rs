//! Decimal integer parsing with the grammar of Rust's `i64::from_str`.
use vstd::prelude::*;

verus! {

pub open spec fn is_digit(c: char) -> bool {
    48 <= (c as u32) && (c as u32) <= 57
}

pub open spec fn all_digits(s: Seq<char>) -> bool {
    forall|i: int| 0 <= i < s.len() ==> is_digit(#[trigger] s[i])
}

pub open spec fn digit_value(c: char) -> int {
    (c as u32) as int - 48
}

/// The value of a string of decimal digits.
pub open spec fn digits_value(s: Seq<char>) -> int
    decreases s.len(),
{
    if s.len() == 0 {
        0
    } else {
        digits_value(s.drop_last()) * 10 + digit_value(s.last())
    }
}

/// `i64::from_str`: an optional `+`/`-` sign, then one or more ASCII digits,
/// with the value in range; `None` otherwise.
pub open spec fn spec_parse_i64(s: Seq<char>) -> Option<int> {
    let neg = s.len() > 0 && s[0] == '-';
    let signed = s.len() > 0 && (s[0] == '-' || s[0] == '+');
    let body = if signed {
        s.drop_first()
    } else {
        s
    };
    if body.len() == 0 || !all_digits(body) {
        None
    } else {
        let v = if neg {
            -digits_value(body)
        } else {
            digits_value(body)
        };
        if i64::MIN <= v <= i64::MAX {
            Some(v)
        } else {
            None
        }
    }
}

pub proof fn lemma_digits_nonneg(s: Seq<char>)
    requires
        all_digits(s),
    ensures
        digits_value(s) >= 0,
    decreases s.len(),
{
    if s.len() > 0 {
        assert(all_digits(s.drop_last())) by {
            assert forall|i: int| 0 <= i < s.drop_last().len() implies is_digit(#[trigger] s.drop_last()[i]) by {
                assert(s.drop_last()[i] == s[i]);
            }
        }
        lemma_digits_nonneg(s.drop_last());
        assert(is_digit(s[s.len() - 1]));
    }
}

/// Parse a decimal `i64` the way `str::parse::<i64>` does.
pub fn parse_i64(s: &[char]) -> (r: Option<i64>)
    ensures
        match spec_parse_i64(s@) {
            Some(v) => r == Some(v as i64),
            None => r is None,
        },
{
    let n = s.len();
    let mut start: usize = 0;
    let mut neg = false;
    if n > 0 && (s[0] == '-' || s[0] == '+') {
        neg = s[0] == '-';
        start = 1;
    }
    let ghost body = if start == 1 {
        s@.drop_first()
    } else {
        s@
    };
    assert(body =~= s@.subrange(start as int, n as int));
    if start >= n {
        return None;
    }
    // Value so far, saturated once it exceeds every i64 magnitude.
    let mut v: i128 = 0;
    let mut big = false;
    let mut i: usize = start;
    assert(s@.subrange(start as int, start as int) =~= Seq::<char>::empty());
    while i < n
        invariant
            start <= i <= n,
            n == s@.len(),
            body =~= s@.subrange(start as int, n as int),
            body == (if start == 1 { s@.drop_first() } else { s@ }),
            start == 1 <==> (s@.len() > 0 && (s@[0] == '-' || s@[0] == '+')),
            neg == (s@.len() > 0 && s@[0] == '-'),
            all_digits(s@.subrange(start as int, i as int)),
            !big ==> v == digits_value(s@.subrange(start as int, i as int)) && 0 <= v <= 20_000_000_000_000_000_000,
            big ==> digits_value(s@.subrange(start as int, i as int)) > 10_000_000_000_000_000_000,
        decreases n - i,
    {
        let c = s[i];
        let cu = c as u32;
        if !(48 <= cu && cu <= 57) {
            assert(body[i - start] == c);
            return None;
        }
        let d = (cu - 48) as i128;
        let ghost pre = s@.subrange(start as int, i as int);
        let ghost post = s@.subrange(start as int, i + 1);
        assert(post.drop_last() =~= pre);
        assert(post.last() == c);
        proof {
            lemma_digits_nonneg(pre);
        }
        assert(digits_value(post) == digits_value(pre) * 10 + (cu as int - 48));
        if !big {
            if v > 1_000_000_000_000_000_000 {
                big = true;
            } else {
                v = v * 10 + d;
            }
        }
        assert(all_digits(post)) by {
            assert forall|j: int| 0 <= j < post.len() implies is_digit(#[trigger] post[j]) by {
                if j < pre.len() {
                    assert(post[j] == pre[j]);
                }
            }
        }
        i += 1;
    }
    assert(s@.subrange(start as int, n as int) =~= body);
    if big {
        return None;
    }
    let val: i128 = if neg {
        -v
    } else {
        v
    };
    if val < i64::MIN as i128 || val > i64::MAX as i128 {
        return None;
    }
    Some(val as i64)
}

} // verus!
