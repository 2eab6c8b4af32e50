//! Numeric text: non-negative decimal integers and decimal fractions in `[0, 1)`.
use vstd::prelude::*;

verus! {

/// Most digits kept after the point of a rate, so that its numerator fits a `u64`.
pub const MAX_RATE_DIGITS: usize = 18;

pub open spec fn is_digit(c: char) -> bool {
    '0' <= c && c <= '9'
}

pub open spec fn all_digits(s: Seq<char>) -> bool {
    forall|i: int| 0 <= i < s.len() ==> is_digit(#[trigger] s[i])
}

pub open spec fn all_zeros(s: Seq<char>) -> bool {
    forall|i: int| 0 <= i < s.len() ==> #[trigger] s[i] == '0'
}

pub open spec fn digit_value(c: char) -> int {
    c as int - '0' as int
}

/// The number that a string of decimal digits denotes, most significant digit first.
pub open spec fn decimal_value(s: Seq<char>) -> int
    decreases s.len(),
{
    if s.len() == 0 {
        0
    } else {
        decimal_value(s.drop_last()) * 10 + digit_value(s.last())
    }
}

pub open spec fn pow10(n: nat) -> nat
    decreases n,
{
    if n == 0 {
        1
    } else {
        10 * pow10((n - 1) as nat)
    }
}

/// The value of an integer field's text: one or more digits, no sign, no point, at most `u32::MAX`.
pub open spec fn int_of_text(s: Seq<char>) -> Option<u32> {
    if s.len() > 0 && all_digits(s) && decimal_value(s) <= u32::MAX {
        Some(decimal_value(s) as u32)
    } else {
        None
    }
}

proof fn lemma_all_digits_push(s: Seq<char>, c: char)
    ensures
        all_digits(s.push(c)) == (all_digits(s) && is_digit(c)),
{
    if all_digits(s) && is_digit(c) {
        assert forall|i: int| 0 <= i < s.push(c).len() implies is_digit(#[trigger] s.push(c)[i]) by {
            if i < s.len() {
                assert(s.push(c)[i] == s[i]);
            }
        }
    }
    if all_digits(s.push(c)) {
        assert(is_digit(s.push(c)[s.len() as int]));
        assert forall|i: int| 0 <= i < s.len() implies is_digit(#[trigger] s[i]) by {
            assert(s.push(c)[i] == s[i]);
        }
    }
}

proof fn lemma_all_zeros_push(s: Seq<char>, c: char)
    ensures
        all_zeros(s.push(c)) == (all_zeros(s) && c == '0'),
{
    if all_zeros(s.push(c)) {
        assert(s.push(c)[s.len() as int] == '0');
        assert forall|i: int| 0 <= i < s.len() implies #[trigger] s[i] == '0' by {
            assert(s.push(c)[i] == s[i]);
        }
    }
    if all_zeros(s) && c == '0' {
        assert forall|i: int| 0 <= i < s.push(c).len() implies #[trigger] s.push(c)[i] == '0' by {
            if i < s.len() {
                assert(s.push(c)[i] == s[i]);
            }
        }
    }
}

proof fn lemma_decimal_bounds(s: Seq<char>)
    requires
        all_digits(s),
    ensures
        0 <= decimal_value(s) < pow10(s.len()),
    decreases s.len(),
{
    if s.len() > 0 {
        let p = s.drop_last();
        assert forall|i: int| 0 <= i < p.len() implies is_digit(#[trigger] p[i]) by {
            assert(p[i] == s[i]);
        }
        assert(is_digit(s[s.len() - 1]));
        lemma_decimal_bounds(p);
    }
}

proof fn lemma_decimal_prefix_le(s: Seq<char>, i: int)
    requires
        all_digits(s),
        0 <= i <= s.len(),
    ensures
        decimal_value(s.take(i)) <= decimal_value(s),
    decreases s.len(),
{
    if i < s.len() {
        let p = s.drop_last();
        assert forall|j: int| 0 <= j < p.len() implies is_digit(#[trigger] p[j]) by {
            assert(p[j] == s[j]);
        }
        assert(is_digit(s[s.len() - 1]));
        lemma_decimal_prefix_le(p, i);
        assert(p.take(i) == s.take(i));
        lemma_decimal_bounds(p);
    } else {
        assert(s.take(i) == s);
    }
}

/// Reads a non-negative decimal integer: digits only, nothing before or after them.
pub fn parse_int(s: &str) -> (r: Option<u32>)
    ensures
        r == int_of_text(s@),
{
    let mut acc: u64 = 0;
    let mut empty = true;
    for c in it: s.chars()
        invariant
            it.seq() == s@,
            empty == (it.index() == 0),
            all_digits(s@.take(it.index() as int)),
            acc == decimal_value(s@.take(it.index() as int)),
            acc <= u32::MAX,
    {
        let ghost i = it.index() as int;
        assert(c == s@[i]);
        assert(s@.take(i + 1) == s@.take(i).push(c));
        assert(s@.take(i + 1).drop_last() == s@.take(i));
        proof {
            lemma_all_digits_push(s@.take(i), c);
        }
        if c < '0' || c > '9' {
            assert(!all_digits(s@)) by {
                assert(!is_digit(s@[i]));
            }
            return None;
        }
        let d = (c as u32 - '0' as u32) as u64;
        acc = acc * 10 + d;
        empty = false;
        if acc > u32::MAX as u64 {
            proof {
                if all_digits(s@) {
                    lemma_decimal_prefix_le(s@, i + 1);
                }
            }
            return None;
        }
    }
    assert(s@.take(s@.len() as int) == s@);
    if empty {
        return None;
    }
    Some(acc as u32)
}

/// A rate in `[0, 1)`, held exactly as the decimal fraction `units / 10^scale`.
#[derive(Clone, Copy, Debug, PartialEq, Eq, Structural)]
pub struct Rate {
    pub units: u64,
    pub scale: u32,
}

impl Rate {
    pub open spec fn wf(self) -> bool {
        self.scale <= MAX_RATE_DIGITS && self.units < pow10(self.scale as nat)
    }
}

/// `s` reads `W.F`, the point at `k`: `W` only zeros, `F` digits (at most the kept number),
/// and not both empty.
pub open spec fn rate_point_at(s: Seq<char>, k: int) -> bool {
    &&& 0 <= k < s.len()
    &&& s[k] == '.'
    &&& s.len() > 1
    &&& all_zeros(s.take(k))
    &&& all_digits(s.skip(k + 1))
    &&& s.len() - k - 1 <= MAX_RATE_DIGITS
}

/// The rate that a text denotes: one or more zeros is the rate zero; `W.F` is `F / 10^|F|`.
/// Neither part holds a point, so at most one `k` splits a text.
pub open spec fn rate_of_text(s: Seq<char>) -> Option<Rate> {
    if s.len() > 0 && all_zeros(s) {
        Some(Rate { units: 0, scale: 0 })
    } else if exists|k: int| rate_point_at(s, k) {
        let k = choose|k: int| rate_point_at(s, k);
        Some(Rate { units: decimal_value(s.skip(k + 1)) as u64, scale: (s.len() - k - 1) as u32 })
    } else {
        None
    }
}

proof fn lemma_pow10_mono(a: nat, b: nat)
    requires
        a <= b,
    ensures
        1 <= pow10(a) <= pow10(b),
    decreases b,
{
    if b > 0 {
        if a < b {
            lemma_pow10_mono(a, (b - 1) as nat);
        } else {
            lemma_pow10_mono((b - 1) as nat, (b - 1) as nat);
        }
    }
}

fn chars_of(s: &str) -> (v: Vec<char>)
    ensures
        v@ == s@,
{
    let mut v: Vec<char> = Vec::new();
    for c in it: s.chars()
        invariant
            it.seq() == s@,
            v@ == s@.take(it.index() as int),
    {
        let ghost i = it.index() as int;
        assert(c == s@[i]);
        v.push(c);
        assert(s@.take(i + 1) == s@.take(i).push(c));
    }
    assert(s@.take(s@.len() as int) == s@);
    v
}

/// Reads a rate written as a decimal fraction below one (`0.045`, `.5`, `0`).
pub fn parse_rate(s: &str) -> (r: Option<Rate>)
    ensures
        r == rate_of_text(s@),
        r matches Some(rate) ==> rate.wf(),
{
    let cs = chars_of(s);
    let n = cs.len();
    let mut k: usize = 0;
    while k < n && cs[k] == '0'
        invariant
            cs@ == s@,
            n == cs.len(),
            k <= n,
            all_zeros(s@.take(k as int)),
        decreases n - k,
    {
        proof {
            assert(s@.take(k + 1) == s@.take(k as int).push(cs@[k as int]));
            lemma_all_zeros_push(s@.take(k as int), cs@[k as int]);
        }
        k = k + 1;
    }
    if k == n {
        assert(s@.take(k as int) == s@);
        if n == 0 {
            assert(!exists|j: int| rate_point_at(s@, j));
            return None;
        }
        proof {
            lemma_pow10_mono(0, 0);
        }
        return Some(Rate { units: 0, scale: 0 });
    }
    assert(!all_zeros(s@)) by {
        assert(s@[k as int] != '0');
    }
    // any point must stand where the run of zeros ends
    assert forall|j: int| rate_point_at(s@, j) implies j == k by {
        if j > k {
            assert(s@.take(j)[k as int] == '0');
        }
        if j < k {
            assert(s@.take(k as int)[j] == '0');
        }
    }
    if cs[k] != '.' || n - k - 1 > MAX_RATE_DIGITS || n == 1 {
        return None;
    }
    let mut units: u64 = 0;
    let mut j: usize = k + 1;
    while j < n
        invariant
            cs@ == s@,
            n == cs.len(),
            k < j <= n,
            n - k - 1 <= MAX_RATE_DIGITS,
            !all_zeros(s@),
            forall|i: int| rate_point_at(s@, i) ==> i == k,
            all_digits(s@.subrange(k + 1, j as int)),
            units == decimal_value(s@.subrange(k + 1, j as int)),
        decreases n - j,
    {
        let c = cs[j];
        let ghost f = s@.subrange(k + 1, j as int);
        assert(s@.subrange(k + 1, j + 1) == f.push(c));
        assert(f.push(c).drop_last() == f);
        proof {
            lemma_all_digits_push(f, c);
        }
        if c < '0' || c > '9' {
            assert(!all_digits(s@.skip(k + 1))) by {
                assert(s@.skip(k + 1)[j - k - 1] == c);
            }
            assert(!rate_point_at(s@, k as int));
            return None;
        }
        proof {
            lemma_decimal_bounds(f);
            lemma_pow10_mono(f.len(), 17);
            reveal_with_fuel(pow10, 18);
        }
        units = units * 10 + (c as u32 - '0' as u32) as u64;
        j = j + 1;
    }
    assert(s@.subrange(k + 1, n as int) == s@.skip(k + 1));
    assert(rate_point_at(s@, k as int));
    proof {
        lemma_decimal_bounds(s@.skip(k + 1));
    }
    Some(Rate { units, scale: (n - k - 1) as u32 })
}

} // verus!
