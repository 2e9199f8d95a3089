//! Decimal text of timestamps, as the settings table stores them: writing an
//! `i64` the way `i64::to_string` does and reading it back the way
//! `str::parse::<i64>` does.
use vstd::prelude::*;
use crate::text::chars_of;

verus! {

/// `String::push` appends one character.
pub assume_specification[ String::push ](s: &mut String, ch: char)
    ensures
        final(s)@ == old(s)@.push(ch),
;

/// The characters of `v` as a `String`.
pub fn string_from_chars(v: &Vec<char>) -> (s: String)
    ensures
        s@ == v@,
{
    let mut s = String::new();
    let n = v.len();
    let mut i: usize = 0;
    while i < n
        invariant
            n == v@.len(),
            i <= n,
            s@ =~= v@.take(i as int),
        decreases n - i,
    {
        s.push(v[i]);
        i = i + 1;
    }
    assert(v@.take(n as int) =~= v@);
    s
}

pub open spec fn is_digit(c: char) -> bool {
    '0' <= c && c <= '9'
}

pub open spec fn digit_value(c: char) -> int {
    (c as int) - 48
}

pub open spec fn all_digits(s: Seq<char>) -> bool {
    forall|i: int| 0 <= i < s.len() ==> is_digit(#[trigger] s[i])
}

/// The number that the decimal digits `s` spell.
pub open spec fn digits_value(s: Seq<char>) -> int
    decreases s.len(),
{
    if s.len() == 0 {
        0
    } else {
        digits_value(s.drop_last()) * 10 + digit_value(s.last())
    }
}

/// What `str::parse` reads from `s` before the range check: an optional
/// `+` or `-`, then one or more ASCII digits, nothing else.
pub open spec fn parsed_int(s: Seq<char>) -> Option<int> {
    if s.len() > 0 && (s[0] == '-' || s[0] == '+') {
        let ds = s.drop_first();
        if ds.len() > 0 && all_digits(ds) {
            Some(
                if s[0] == '-' {
                    -digits_value(ds)
                } else {
                    digits_value(ds)
                },
            )
        } else {
            None
        }
    } else if s.len() > 0 && all_digits(s) {
        Some(digits_value(s))
    } else {
        None
    }
}

/// `str::parse::<i64>` on `s`: the number when it is well formed and fits.
pub open spec fn parsed_i64(s: Seq<char>) -> Option<i64> {
    match parsed_int(s) {
        Some(v) => if i64::MIN <= v <= i64::MAX {
            Some(v as i64)
        } else {
            None
        },
        None => None,
    }
}

proof fn lemma_digits_value_nonneg(s: Seq<char>)
    requires
        all_digits(s),
    ensures
        digits_value(s) >= 0,
    decreases s.len(),
{
    if s.len() > 0 {
        assert(all_digits(s.drop_last())) by {
            assert forall|i: int| 0 <= i < s.drop_last().len() implies is_digit(
                #[trigger] s.drop_last()[i],
            ) by {
                assert(is_digit(s[i]));
            }
        }
        lemma_digits_value_nonneg(s.drop_last());
        assert(is_digit(s[s.len() - 1]));
    }
}

proof fn lemma_saturate_step(v: int, d: int, cap: int)
    requires
        v >= 0,
        0 <= d <= 9,
        cap > 0,
    ensures
        (if v < cap {
            v
        } else {
            cap
        }) * 10 + d >= cap <==> v * 10 + d >= cap,
        v < cap ==> (if v < cap {
            v
        } else {
            cap
        }) * 10 + d == v * 10 + d,
{
    if v >= cap {
        assert(cap * 10 + d >= cap) by (nonlinear_arith)
            requires
                cap > 0,
                d >= 0,
        ;
        assert(v * 10 + d >= cap) by (nonlinear_arith)
            requires
                v >= cap,
                cap > 0,
                d >= 0,
        ;
    }
}

/// Reads `s` as `str::parse::<i64>` does.
pub fn parse_i64(s: &str) -> (r: Option<i64>)
    ensures
        r == parsed_i64(s@),
{
    let v = chars_of(s);
    let n = v.len();
    if n == 0 {
        return None;
    }
    let neg = v[0] == '-';
    let start: usize = if v[0] == '-' || v[0] == '+' {
        1
    } else {
        0
    };
    if start == n {
        return None;
    }
    let ghost ds = v@.skip(start as int);
    assert(start == 1 ==> ds =~= v@.drop_first());
    assert(start == 0 ==> ds =~= v@);
    // Magnitude so far, saturated at `cap` (beyond every i64 magnitude).
    let cap: u128 = 9223372036854775809;
    let mut acc: u128 = 0;
    let mut i = start;
    while i < n
        invariant
            n == v@.len(),
            v@ == s@,
            n > 0,
            start == 1 <==> (v@[0] == '-' || v@[0] == '+'),
            start <= i <= n,
            start <= 1,
            ds == v@.skip(start as int),
            all_digits(ds.take(i - start)),
            acc <= cap,
            cap == 9223372036854775809,
            acc == (if digits_value(ds.take(i - start)) < cap {
                digits_value(ds.take(i - start))
            } else {
                cap as int
            }),
        decreases n - i,
    {
        let c = v[i];
        if !('0' <= c && c <= '9') {
            assert(ds[i - start] == c);
            assert(!all_digits(ds));
            assert(s@ == v@);
            if start == 1 {
                assert(parsed_int(s@) is None);
            } else {
                assert(parsed_int(s@) is None);
            }
            return None;
        }
        let ghost pre = ds.take(i - start);
        let ghost post = ds.take(i - start + 1);
        assert(post.drop_last() =~= pre);
        assert(post.last() == c);
        assert(all_digits(post)) by {
            assert forall|k: int| 0 <= k < post.len() implies is_digit(#[trigger] post[k]) by {
                if k < pre.len() {
                    assert(post[k] == pre[k]);
                }
            }
        }
        proof {
            lemma_digits_value_nonneg(pre);
            lemma_saturate_step(digits_value(pre), digit_value(c), cap as int);
        }
        let d = (c as u32 - 48) as u128;
        let next = acc * 10 + d;
        acc = if next < cap {
            next
        } else {
            cap
        };
        i = i + 1;
    }
    assert(ds.take(n - start) =~= ds);
    proof {
        lemma_digits_value_nonneg(ds);
    }
    if neg {
        if acc <= 9223372036854775808 {
            let m = acc as i128;
            Some((-m) as i64)
        } else {
            None
        }
    } else {
        if acc <= 9223372036854775807 {
            Some(acc as i64)
        } else {
            None
        }
    }
}

pub open spec fn digit_char(d: int) -> char {
    (48 + d) as char
}

/// The decimal digits of `m`, most significant first, without leading zeros.
pub open spec fn digits_of(m: nat) -> Seq<char>
    decreases m,
{
    if m < 10 {
        seq![digit_char(m as int)]
    } else {
        digits_of(m / 10).push(digit_char((m % 10) as int))
    }
}

/// `n` in decimal, with a leading `-` when negative: what `i64::to_string`
/// writes.
pub open spec fn decimal(n: int) -> Seq<char> {
    if n < 0 {
        seq!['-'] + digits_of((-n) as nat)
    } else {
        digits_of(n as nat)
    }
}

/// Writes `n` as `i64::to_string` does.
pub fn format_i64(n: i64) -> (s: String)
    ensures
        s@ == decimal(n as int),
{
    let mag: u64 = if n < 0 {
        (-(n as i128)) as u64
    } else {
        n as u64
    };
    let mut m = mag;
    let mut tail: Vec<char> = Vec::new();
    while m >= 10
        invariant
            digits_of(mag as nat) =~= digits_of(m as nat) + tail@,
        decreases m,
    {
        let d = m % 10;
        let c = ((48 + d) as u8) as char;
        assert(c == digit_char(d as int));
        tail.insert(0, c);
        assert(digits_of(m as nat) =~= digits_of((m / 10) as nat).push(c));
        m = m / 10;
    }
    let c0 = ((48 + m) as u8) as char;
    assert(c0 == digit_char(m as int));
    tail.insert(0, c0);
    assert(digits_of(mag as nat) =~= tail@);
    let mut out: Vec<char> = Vec::new();
    if n < 0 {
        out.push('-');
    }
    let len = tail.len();
    let mut i: usize = 0;
    while i < len
        invariant
            len == tail@.len(),
            i <= len,
            n < 0 ==> out@ =~= seq!['-'] + tail@.take(i as int),
            n >= 0 ==> out@ =~= tail@.take(i as int),
        decreases len - i,
    {
        out.push(tail[i]);
        i = i + 1;
    }
    assert(tail@.take(len as int) =~= tail@);
    string_from_chars(&out)
}

proof fn lemma_digits_of(m: nat)
    ensures
        digits_of(m).len() >= 1,
        all_digits(digits_of(m)),
        digits_value(digits_of(m)) == m,
    decreases m,
{
    if m >= 10 {
        lemma_digits_of(m / 10);
        let s = digits_of(m);
        let pre = digits_of(m / 10);
        assert(s.drop_last() =~= pre);
        let d = (m % 10) as int;
        assert(digit_value(s.last()) == d);
        assert(digits_value(s) == digits_value(pre) * 10 + d);
        assert(m == (m / 10) * 10 + d);
        assert(all_digits(s)) by {
            assert forall|i: int| 0 <= i < s.len() implies is_digit(#[trigger] s[i]) by {
                if i < pre.len() {
                    assert(s[i] == pre[i]);
                }
            }
        }
    } else {
        let s = digits_of(m);
        assert(s.drop_last() =~= Seq::<char>::empty());
        assert(digit_value(s.last()) == m);
        assert(digits_value(s) == digits_value(s.drop_last()) * 10 + digit_value(s.last()));
    }
}

/// Reading back what `format_i64` wrote gives the same number: a timestamp
/// stored as a setting is read back unchanged.
pub proof fn lemma_parse_format_roundtrip(n: i64)
    ensures
        parsed_i64(decimal(n as int)) == Some(n),
{
    if n < 0 {
        let m = (-n) as nat;
        lemma_digits_of(m);
        let s = decimal(n as int);
        assert(s[0] == '-');
        assert(s.drop_first() =~= digits_of(m));
    } else {
        let m = n as nat;
        lemma_digits_of(m);
        let s = decimal(n as int);
        assert(is_digit(s[0]));
    }
}

} // verus!
