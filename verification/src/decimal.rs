//! Decimal text of integers: the digits that `to_string` writes and the
//! values that `str::parse` reads, over bytes and over characters.

use vstd::prelude::*;

verus! {

/// `true` for the ASCII digits `'0'..='9'`.
pub open spec fn is_digit(b: u8) -> bool {
    48 <= b <= 57
}

/// Every byte of `s` is an ASCII digit.
pub open spec fn all_digits(s: Seq<u8>) -> bool {
    forall|i: int| 0 <= i < s.len() ==> #[trigger] is_digit(s[i])
}

/// The value of a run of digits, most significant first.
pub open spec fn digits_value(s: Seq<u8>) -> nat
    decreases s.len(),
{
    if s.len() == 0 {
        0
    } else {
        digits_value(s.drop_last()) * 10 + (s.last() - 48) as nat
    }
}

/// The shortest decimal digits of `n`, as `to_string` writes them.
pub open spec fn nat_digits(n: nat) -> Seq<u8>
    decreases n,
{
    if n < 10 {
        seq![(48 + n) as u8]
    } else {
        nat_digits(n / 10) + seq![(48 + n % 10) as u8]
    }
}

/// The decimal text of a signed integer: a `-` sign before the digits of
/// a negative value.
pub open spec fn int_digits(i: int) -> Seq<u8> {
    if i < 0 {
        seq![45u8] + nat_digits((-i) as nat)
    } else {
        nat_digits(i as nat)
    }
}

/// What `str::parse` gives for an unsigned type whose largest value is
/// `max`: an optional `+`, then one or more digits, no larger than `max`.
pub open spec fn parse_unsigned(s: Seq<u8>, max: nat) -> Option<nat> {
    let body = if s.len() > 0 && s[0] == 43u8 { s.drop_first() } else { s };
    if body.len() > 0 && all_digits(body) && digits_value(body) <= max {
        Some(digits_value(body))
    } else {
        None
    }
}

/// What `str::parse::<i64>` gives: an optional `+` or `-`, then one or
/// more digits, in the range of `i64`.
pub open spec fn parse_i64(s: Seq<u8>) -> Option<i64> {
    if s.len() > 0 && s[0] == 45u8 {
        let body = s.drop_first();
        if body.len() > 0 && all_digits(body) && digits_value(body) <= 0x8000_0000_0000_0000 {
            Some((-digits_value(body)) as i64)
        } else {
            None
        }
    } else {
        match parse_unsigned(s, 0x7fff_ffff_ffff_ffff) {
            Some(v) => Some(v as i64),
            None => None,
        }
    }
}

/// The byte that stands for a character in the digit rules: the character
/// itself when it is ASCII, else a byte that is no digit and no sign.
pub open spec fn ascii_or_ff(c: char) -> u8 {
    if (c as u32) < 128 {
        (c as u32) as u8
    } else {
        255u8
    }
}

/// A character string seen byte-wise by the digit rules.
pub open spec fn chars_as_ascii(s: Seq<char>) -> Seq<u8> {
    Seq::new(s.len(), |i: int| ascii_or_ff(s[i]))
}

/// The characters of ASCII bytes.
pub open spec fn ascii_chars(s: Seq<u8>) -> Seq<char> {
    Seq::new(s.len(), |i: int| s[i] as char)
}

pub proof fn lemma_digits_value_push(s: Seq<u8>, b: u8)
    ensures
        digits_value(s.push(b)) == digits_value(s) * 10 + (b - 48) as nat,
{
    assert(s.push(b).drop_last() =~= s);
}

/// The digits of `n` are ASCII digits, at least one of them, and read back
/// as `n`.
pub proof fn lemma_nat_digits(n: nat)
    ensures
        nat_digits(n).len() >= 1,
        all_digits(nat_digits(n)),
        digits_value(nat_digits(n)) == n,
    decreases n,
{
    if n < 10 {
        let d = (48 + n) as u8;
        assert(seq![d].drop_last() =~= Seq::<u8>::empty());
        assert(digits_value(Seq::<u8>::empty()) == 0);
        assert(digits_value(seq![d]) == digits_value(seq![d].drop_last()) * 10 + (d - 48) as nat);
    } else {
        lemma_nat_digits(n / 10);
        let p = nat_digits(n / 10);
        let d = (48 + n % 10) as u8;
        assert(nat_digits(n) =~= p.push(d));
        lemma_digits_value_push(p, d);
        assert(n == (n / 10) * 10 + n % 10) by (nonlinear_arith);
        assert forall|i: int| 0 <= i < p.push(d).len() implies #[trigger] is_digit(p.push(d)[i]) by {
            if i < p.len() {
                assert(is_digit(p[i]));
            }
        }
    }
}

/// Reading more digits never makes the value smaller.
pub proof fn lemma_digits_value_prefix(s: Seq<u8>, k: int)
    requires
        0 <= k <= s.len(),
        all_digits(s),
    ensures
        digits_value(s.subrange(0, k)) <= digits_value(s),
    decreases s.len() - k,
{
    if k < s.len() {
        lemma_digits_value_prefix(s, k + 1);
        let p = s.subrange(0, k);
        assert(s.subrange(0, k + 1) =~= p.push(s[k]));
        lemma_digits_value_push(p, s[k]);
        assert(is_digit(s[k]));
    } else {
        assert(s.subrange(0, k) =~= s);
    }
}

/// `parse_unsigned` reads back the digits of a value no larger than `max`.
pub proof fn lemma_parse_unsigned_digits(n: nat, max: nat)
    requires
        n <= max,
    ensures
        parse_unsigned(nat_digits(n), max) == Some(n),
{
    lemma_nat_digits(n);
    assert(is_digit(nat_digits(n)[0]));
}

/// `parse_i64` reads back the text of every `i64`.
pub proof fn lemma_parse_i64_digits(i: i64)
    ensures
        parse_i64(int_digits(i as int)) == Some(i),
{
    if i < 0 {
        let n = (-i) as nat;
        lemma_nat_digits(n);
        assert((seq![45u8] + nat_digits(n)).drop_first() =~= nat_digits(n));
    } else {
        lemma_parse_unsigned_digits(i as nat, 0x7fff_ffff_ffff_ffff);
        lemma_nat_digits(i as nat);
        assert(is_digit(nat_digits(i as nat)[0]));
    }
}

/// The decimal digits of `n`.
pub fn u64_digits(n: u64) -> (r: Vec<u8>)
    ensures
        r@ == nat_digits(n as nat),
    decreases n,
{
    if n < 10 {
        let mut v: Vec<u8> = Vec::new();
        v.push((48 + n) as u8);
        proof {
            assert(v@ =~= seq![(48 + n) as u8]);
        }
        v
    } else {
        let mut v = u64_digits(n / 10);
        let d: u8 = (48 + n % 10) as u8;
        v.push(d);
        proof {
            assert(v@ =~= nat_digits((n / 10) as nat) + seq![d]);
        }
        v
    }
}

/// The decimal text of `i`, as `i64::to_string` writes it.
pub fn i64_digits(i: i64) -> (r: Vec<u8>)
    ensures
        r@ == int_digits(i as int),
{
    if i < 0 {
        let m: u64 = ((-(i + 1)) as u64) + 1;
        let d = u64_digits(m);
        let mut v: Vec<u8> = Vec::new();
        v.push(45u8);
        let mut k: usize = 0;
        while k < d.len()
            invariant
                0 <= k <= d.len(),
                v@ =~= seq![45u8] + d@.subrange(0, k as int),
            decreases d.len() - k,
        {
            v.push(d[k]);
            k = k + 1;
        }
        proof {
            assert(d@.subrange(0, d.len() as int) =~= d@);
        }
        v
    } else {
        u64_digits(i as u64)
    }
}

/// Reads `data[start..end]` as `str::parse` reads an unsigned type whose
/// largest value is `max`.
pub fn parse_unsigned_range(data: &[u8], start: usize, end: usize, max: u64) -> (r: Option<u64>)
    requires
        start <= end <= data@.len(),
    ensures
        r == (match parse_unsigned(data@.subrange(start as int, end as int), max as nat) {
            Some(v) => Some(v as u64),
            None => None::<u64>,
        }),
{
    let ghost s = data@.subrange(start as int, end as int);
    let mut begin = start;
    if start < end && data[start] == 43u8 {
        begin = start + 1;
    }
    let ghost body = data@.subrange(begin as int, end as int);
    proof {
        if start < end && data[start as int] == 43u8 {
            assert(s.drop_first() =~= body);
        } else {
            assert(s =~= body);
        }
    }
    if begin == end {
        return None;
    }
    let mut v: u128 = 0;
    let mut i = begin;
    while i < end
        invariant
            start <= begin <= i <= end <= data@.len(),
            body == data@.subrange(begin as int, end as int),
            s == data@.subrange(start as int, end as int),
            body == (if s.len() > 0 && s[0] == 43u8 { s.drop_first() } else { s }),
            all_digits(data@.subrange(begin as int, i as int)),
            v == digits_value(data@.subrange(begin as int, i as int)),
            v <= max,
        decreases end - i,
    {
        let b = data[i];
        let ghost pre = data@.subrange(begin as int, i as int);
        proof {
            assert(data@.subrange(begin as int, i + 1) =~= pre.push(b));
            lemma_digits_value_push(pre, b);
        }
        if b < 48u8 || b > 57u8 {
            proof {
                assert(body[i - begin] == b);
                assert(!is_digit(body[i - begin]));
            }
            return None;
        }
        v = v * 10 + (b - 48) as u128;
        i = i + 1;
        if v > max as u128 {
            proof {
                assert forall|j: int| 0 <= j < i - begin implies #[trigger] is_digit(data@.subrange(begin as int, i as int)[j]) by {
                    if j < pre.len() {
                        assert(is_digit(pre[j]));
                    }
                }
                if all_digits(body) {
                    lemma_digits_value_prefix(body, i - begin);
                    assert(body.subrange(0, i - begin) =~= data@.subrange(begin as int, i as int));
                    assert(digits_value(body) > max);
                }
                assert(parse_unsigned(s, max as nat) is None);
            }
            return None;
        }
        proof {
            assert forall|j: int| 0 <= j < i - begin implies #[trigger] is_digit(data@.subrange(begin as int, i as int)[j]) by {
                if j < pre.len() {
                    assert(is_digit(pre[j]));
                }
            }
        }
    }
    proof {
        assert(data@.subrange(begin as int, i as int) =~= body);
    }
    Some(v as u64)
}

/// Reads `data[start..end]` as `str::parse::<i64>` does.
pub fn parse_i64_range(data: &[u8], start: usize, end: usize) -> (r: Option<i64>)
    requires
        start <= end <= data@.len(),
    ensures
        r == parse_i64(data@.subrange(start as int, end as int)),
{
    let ghost s = data@.subrange(start as int, end as int);
    if start < end && data[start] == 45u8 {
        proof {
            assert(s.drop_first() =~= data@.subrange(start + 1, end as int));
        }
        if start + 1 == end {
            return None;
        }
        if data[start + 1] == 43u8 {
            proof {
                assert(!is_digit(s.drop_first()[0]));
            }
            return None;
        }
        let m = parse_unsigned_range(data, start + 1, end, 0x8000_0000_0000_0000);
        match m {
            Some(v) => {
                if v == 0x8000_0000_0000_0000 {
                    Some(-0x8000_0000_0000_0000i64)
                } else {
                    Some(-(v as i64))
                }
            },
            None => None,
        }
    } else {
        match parse_unsigned_range(data, start, end, 0x7fff_ffff_ffff_ffff) {
            Some(v) => Some(v as i64),
            None => None,
        }
    }
}

/// The bytes that the digit rules see in a character string.
pub fn chars_to_ascii(s: &Vec<char>) -> (r: Vec<u8>)
    ensures
        r@ == chars_as_ascii(s@),
{
    let mut v: Vec<u8> = Vec::new();
    let mut i: usize = 0;
    while i < s.len()
        invariant
            0 <= i <= s.len(),
            v@ =~= chars_as_ascii(s@).subrange(0, i as int),
        decreases s.len() - i,
    {
        let c = s[i];
        let b: u8 = if (c as u32) < 128 { (c as u32) as u8 } else { 255u8 };
        v.push(b);
        i = i + 1;
    }
    proof {
        assert(chars_as_ascii(s@).subrange(0, s.len() as int) =~= chars_as_ascii(s@));
    }
    v
}

/// The characters of ASCII bytes.
pub fn ascii_to_chars(s: &Vec<u8>) -> (r: Vec<char>)
    requires
        forall|i: int| 0 <= i < s@.len() ==> s@[i] < 128,
    ensures
        r@ == ascii_chars(s@),
{
    let mut v: Vec<char> = Vec::new();
    let mut i: usize = 0;
    while i < s.len()
        invariant
            0 <= i <= s.len(),
            forall|j: int| 0 <= j < s@.len() ==> s@[j] < 128,
            v@ =~= ascii_chars(s@).subrange(0, i as int),
        decreases s.len() - i,
    {
        let b = s[i];
        v.push(b as char);
        i = i + 1;
    }
    proof {
        assert(ascii_chars(s@).subrange(0, s.len() as int) =~= ascii_chars(s@));
    }
    v
}

} // verus!
