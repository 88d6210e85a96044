//! Decimal text rendered and parsed by verified code.

use vstd::prelude::*;
use vstd::string::StrSliceExecFns;
use vstd::string::StringExecFns;

verus! {

/// The character for one decimal digit value (unspecified digits render '9').
pub open spec fn spec_digit_char(d: int) -> char {
    if d == 0 {
        '0'
    } else if d == 1 {
        '1'
    } else if d == 2 {
        '2'
    } else if d == 3 {
        '3'
    } else if d == 4 {
        '4'
    } else if d == 5 {
        '5'
    } else if d == 6 {
        '6'
    } else if d == 7 {
        '7'
    } else if d == 8 {
        '8'
    } else {
        '9'
    }
}

/// The digit value of a character; 10 marks a character that is no digit.
pub open spec fn spec_char_digit(c: char) -> int {
    if c == '0' {
        0
    } else if c == '1' {
        1
    } else if c == '2' {
        2
    } else if c == '3' {
        3
    } else if c == '4' {
        4
    } else if c == '5' {
        5
    } else if c == '6' {
        6
    } else if c == '7' {
        7
    } else if c == '8' {
        8
    } else if c == '9' {
        9
    } else {
        10
    }
}

pub open spec fn spec_is_digit(c: char) -> bool {
    spec_char_digit(c) < 10
}

pub open spec fn spec_all_digits(s: Seq<char>) -> bool {
    forall|i: int| 0 <= i < s.len() ==> spec_is_digit(#[trigger] s[i])
}

/// The decimal rendering of `n`: most significant digit first, no sign, no
/// leading zero (zero renders as a single '0').
pub open spec fn spec_decimal(n: nat) -> Seq<char>
    decreases n,
{
    if n < 10 {
        seq![spec_digit_char(n as int)]
    } else {
        spec_decimal(n / 10) + seq![spec_digit_char((n % 10) as int)]
    }
}

/// The value of a digit string, most significant digit first.
pub open spec fn spec_digits_val(s: Seq<char>) -> int
    decreases s.len(),
{
    if s.len() == 0 {
        0
    } else {
        spec_digits_val(s.drop_last()) * 10 + spec_char_digit(s.last())
    }
}

pub proof fn lemma_digit_char_roundtrip(d: int)
    requires
        0 <= d < 10,
    ensures
        spec_char_digit(spec_digit_char(d)) == d,
{
}

/// A decimal rendering consists of digits and has at least one of them.
pub proof fn lemma_decimal_digits(n: nat)
    ensures
        spec_decimal(n).len() >= 1,
        forall|i: int| 0 <= i < spec_decimal(n).len() ==> spec_is_digit(#[trigger] spec_decimal(n)[i]),
    decreases n,
{
    if n >= 10 {
        lemma_decimal_digits(n / 10);
    }
}

/// Law: parsing inverts rendering — the value of `spec_decimal(n)` is `n`.
pub proof fn lemma_decimal_val(n: nat)
    ensures
        spec_digits_val(spec_decimal(n)) == n,
    decreases n,
{
    if n < 10 {
        let s0 = spec_decimal(n);
        assert(s0 == seq![spec_digit_char(n as int)]);
        assert(s0.drop_last() =~= Seq::<char>::empty());
        assert(s0.last() == spec_digit_char(n as int));
        assert(spec_digits_val(s0.drop_last()) == 0);
        lemma_digit_char_roundtrip(n as int);
        assert(spec_digits_val(s0) == spec_char_digit(spec_digit_char(n as int)));
    } else {
        lemma_decimal_val(n / 10);
        let s = spec_decimal(n / 10);
        let c = spec_digit_char((n % 10) as int);
        assert((s + seq![c]).drop_last() =~= s);
        assert((s + seq![c]).last() == c);
        lemma_digit_char_roundtrip((n % 10) as int);
    }
}

/// Law: decimal rendering is injective.
pub proof fn lemma_decimal_injective(a: nat, b: nat)
    requires
        spec_decimal(a) == spec_decimal(b),
    ensures
        a == b,
{
    lemma_decimal_val(a);
    lemma_decimal_val(b);
}

/// The decimal characters of a digit-value vector read in reverse (the
/// vector holds the least significant digit first).
pub open spec fn spec_rev_digit_chars(ds: Seq<u8>) -> Seq<char> {
    Seq::new(ds.len(), |j: int| spec_digit_char(ds[ds.len() - 1 - j] as int))
}

/// A one-character string slice for a digit value.
pub fn digit_str(d: u8) -> (r: &'static str)
    requires
        d < 10,
    ensures
        r@ == seq![spec_digit_char(d as int)],
{
    let r: &'static str = match d {
        0 => "0",
        1 => "1",
        2 => "2",
        3 => "3",
        4 => "4",
        5 => "5",
        6 => "6",
        7 => "7",
        8 => "8",
        _ => "9",
    };
    proof {
        reveal_strlit("0");
        reveal_strlit("1");
        reveal_strlit("2");
        reveal_strlit("3");
        reveal_strlit("4");
        reveal_strlit("5");
        reveal_strlit("6");
        reveal_strlit("7");
        reveal_strlit("8");
        reveal_strlit("9");
        assert(r@ =~= seq![spec_digit_char(d as int)]);
    }
    r
}

/// Render `n` in decimal.
pub fn u128_to_string(n: u128) -> (r: String)
    ensures
        r@ == spec_decimal(n as nat),
{
    if n == 0 {
        let r = String::from_str(digit_str(0));
        assert(r@ =~= spec_decimal(0));
        return r;
    }
    let mut digits: Vec<u8> = Vec::new();
    let mut m: u128 = n;
    while m > 0
        invariant
            forall|k: int| 0 <= k < digits@.len() ==> digits@[k] < 10,
            m > 0 ==> spec_decimal(n as nat) == spec_decimal(m as nat) + spec_rev_digit_chars(
                digits@,
            ),
            m == 0 ==> spec_decimal(n as nat) == spec_rev_digit_chars(digits@),
        decreases m,
    {
        let d: u8 = (m % 10) as u8;
        let ghost old_digits = digits@;
        let ghost old_m = m as nat;
        digits.push(d);
        m = m / 10;
        proof {
            assert(spec_rev_digit_chars(old_digits.push(d)) =~= seq![
                spec_digit_char(d as int),
            ] + spec_rev_digit_chars(old_digits));
            if old_m < 10 {
                assert(spec_decimal(old_m) =~= seq![spec_digit_char(d as int)]);
                assert(spec_decimal(n as nat) =~= spec_rev_digit_chars(digits@));
            } else {
                assert(spec_decimal(old_m) == spec_decimal(old_m / 10) + seq![
                    spec_digit_char((old_m % 10) as int),
                ]);
                assert(spec_decimal(n as nat) =~= spec_decimal(m as nat) + spec_rev_digit_chars(
                    digits@,
                ));
            }
        }
    }

    let ghost rev = spec_rev_digit_chars(digits@);
    let mut r = String::new();
    let len = digits.len();
    let mut i = len;
    while i > 0
        invariant
            len == digits@.len(),
            i <= len,
            forall|k: int| 0 <= k < digits@.len() ==> digits@[k] < 10,
            rev == spec_rev_digit_chars(digits@),
            r@ == rev.take(len - i),
        decreases i,
    {
        let d = digits[i - 1];
        r.append(digit_str(d));
        i -= 1;
        proof {
            assert(rev.take(len - i) =~= rev.take(len - (i + 1)).push(rev[len - i - 1]));
            assert(rev[len - i - 1] == spec_digit_char(digits@[i as int] as int));
        }
    }
    proof {
        assert(r@ =~= rev);
    }
    r
}

/// Render `n` in decimal.
pub fn u64_to_string(n: u64) -> (r: String)
    ensures
        r@ == spec_decimal(n as nat),
{
    u128_to_string(n as u128)
}

/// Render `n` in decimal.
pub fn usize_to_string(n: usize) -> (r: String)
    ensures
        r@ == spec_decimal(n as nat),
{
    u128_to_string(n as u128)
}

/// A prefix of a digit string never values more than the whole string.
pub proof fn lemma_digits_val_prefix(s: Seq<char>, k: int)
    requires
        0 <= k <= s.len(),
        forall|i: int| 0 <= i < s.len() ==> spec_is_digit(#[trigger] s[i]),
    ensures
        spec_digits_val(s.take(k)) <= spec_digits_val(s),
        spec_digits_val(s) >= 0,
    decreases s.len() - k,
{
    if k == s.len() {
        assert(s.take(k) =~= s);
        lemma_digits_val_nonneg(s);
    } else {
        lemma_digits_val_prefix(s, k + 1);
        assert(s.take(k + 1).drop_last() =~= s.take(k));
        assert(s.take(k + 1).last() == s[k]);
        lemma_digits_val_nonneg(s.take(k));
    }
}

pub proof fn lemma_digits_val_nonneg(s: Seq<char>)
    requires
        forall|i: int| 0 <= i < s.len() ==> spec_is_digit(#[trigger] s[i]),
    ensures
        spec_digits_val(s) >= 0,
    decreases s.len(),
{
    if s.len() > 0 {
        assert(forall|i: int|
            0 <= i < s.drop_last().len() ==> spec_is_digit(#[trigger] s.drop_last()[i]));
        lemma_digits_val_nonneg(s.drop_last());
    }
}

/// The digit value of a character, or `None` if it is no digit.
fn char_digit(c: char) -> (r: Option<u64>)
    ensures
        match r {
            Some(d) => spec_char_digit(c) == d && d < 10,
            None => !spec_is_digit(c),
        },
{
    if c == '0' {
        Some(0)
    } else if c == '1' {
        Some(1)
    } else if c == '2' {
        Some(2)
    } else if c == '3' {
        Some(3)
    } else if c == '4' {
        Some(4)
    } else if c == '5' {
        Some(5)
    } else if c == '6' {
        Some(6)
    } else if c == '7' {
        Some(7)
    } else if c == '8' {
        Some(8)
    } else if c == '9' {
        Some(9)
    } else {
        None
    }
}

/// Parse the window `[start, end)` of a string as a decimal `u64`.
/// Succeeds exactly on a nonempty all-digit window whose value fits.
pub fn parse_u64_str(s: &str, start: usize, end: usize) -> (r: Option<u64>)
    requires
        start <= end <= s@.len(),
    ensures
        ({
            let w = s@.subrange(start as int, end as int);
            match r {
                Some(n) => {
                    &&& w.len() > 0
                    &&& spec_all_digits(w)
                    &&& n == spec_digits_val(w)
                },
                None => {
                    ||| w.len() == 0
                    ||| !spec_all_digits(w)
                    ||| spec_digits_val(w) > u64::MAX
                },
            }
        }),
{
    let ghost w = s@.subrange(start as int, end as int);
    if start == end {
        return None;
    }
    let mut acc: u64 = 0;
    let mut i = start;
    while i < end
        invariant
            start <= i <= end <= s@.len(),
            w == s@.subrange(start as int, end as int),
            w.len() == end - start,
            forall|j: int| 0 <= j < i - start ==> spec_is_digit(#[trigger] w[j]),
            acc == spec_digits_val(w.take(i - start)),
        decreases end - i,
    {
        let c = s.get_char(i);
        proof {
            assert(w[i - start] == s@[i as int]);
        }
        let d: u64 = match char_digit(c) {
            Some(d) => d,
            None => {
                proof {
                    assert(!spec_is_digit(w[i - start]));
                }
                return None;
            },
        };
        if acc > u64::MAX / 10 || (acc == u64::MAX / 10 && d > u64::MAX % 10) {
            proof {
                let k = i - start;
                assert(w.take(k + 1).drop_last() =~= w.take(k));
                assert(w.take(k + 1).last() == w[k]);
                assert(spec_digits_val(w.take(k + 1)) == acc * 10 + d);
                assert(forall|j: int| 0 <= j <= k ==> spec_is_digit(#[trigger] w[j]));
                assert(acc * 10 + d > u64::MAX);
                if spec_all_digits(w) {
                    lemma_digits_val_prefix(w, k + 1);
                    assert(spec_digits_val(w) > u64::MAX);
                }
            }
            return None;
        }
        proof {
            let k = i - start;
            assert(w.take(k + 1).drop_last() =~= w.take(k));
            assert(w.take(k + 1).last() == w[k]);
        }
        acc = acc * 10 + d;
        i += 1;
    }
    proof {
        assert(w.take(end - start) =~= w);
    }
    Some(acc)
}

/// Compare two strings character by character.
pub fn str_eq(a: &str, b: &str) -> (r: bool)
    ensures
        r == (a@ == b@),
{
    let a_len = StrSliceExecFns::unicode_len(a);
    let b_len = StrSliceExecFns::unicode_len(b);
    if a_len != b_len {
        return false;
    }
    let mut i: usize = 0;
    while i < a_len
        invariant
            a_len == a@.len(),
            a@.len() == b@.len(),
            i <= a_len,
            forall|j: int| 0 <= j < i ==> a@[j] == b@[j],
        decreases a_len - i,
    {
        if StrSliceExecFns::get_char(a, i) != StrSliceExecFns::get_char(
            b,
            i,
        ) {
            return false;
        }
        i += 1;
    }
    proof {
        assert(a@ =~= b@);
    }
    true
}

} // verus!
