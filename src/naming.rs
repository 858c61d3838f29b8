//! File names of a store's segments: `{prefix}.current` for the active one,
//! `{prefix}.{sequence}` with the sequence zero-padded to five digits for
//! sealed ones.
use vstd::prelude::*;
use vstd::string::{StrSliceExecFns, StringExecFns};

verus! {

/// Least number of digits in a sealed segment's name.
pub const SEQUENCE_WIDTH: usize = 5;

/// The character of a decimal digit.
pub open spec fn digit_char(d: nat) -> char {
    if d == 0 {
        '0'
    } else if d == 1 {
        '1'
    } else if d == 2 {
        '2'
    } else if d == 3 {
        '3'
    } else if d == 4 {
        '4'
    } else if d == 5 {
        '5'
    } else if d == 6 {
        '6'
    } else if d == 7 {
        '7'
    } else if d == 8 {
        '8'
    } else {
        '9'
    }
}

/// `n` in decimal, without leading zeros.
pub open spec fn decimal(n: nat) -> Seq<char>
    decreases n,
{
    if n < 10 {
        seq![digit_char(n)]
    } else {
        decimal(n / 10).push(digit_char(n % 10))
    }
}

/// `n` in decimal, zero-padded to `SEQUENCE_WIDTH` digits.
pub open spec fn padded(n: nat) -> Seq<char> {
    let d = decimal(n);
    let z = if d.len() < SEQUENCE_WIDTH {
        SEQUENCE_WIDTH - d.len()
    } else {
        0
    };
    Seq::new(z as nat, |i: int| '0') + d
}

/// The name of the sealed segment with sequence number `n`.
pub open spec fn segment_name(prefix: Seq<char>, n: nat) -> Seq<char> {
    prefix + seq!['.'] + padded(n)
}

/// The name of the active segment.
pub open spec fn current_name(prefix: Seq<char>) -> Seq<char> {
    prefix + seq!['.', 'c', 'u', 'r', 'r', 'e', 'n', 't']
}

/// Whether `c` is a decimal digit.
pub open spec fn is_digit(c: char) -> bool {
    48 <= (c as u32) <= 57
}

/// The number that a string of digits writes in decimal.
pub open spec fn digits_value(s: Seq<char>) -> nat
    decreases s.len(),
{
    if s.len() == 0 {
        0
    } else {
        digits_value(s.drop_last()) * 10 + ((s.last() as u32) - 48) as nat
    }
}

/// The sequence number that `name` gives a sealed segment of `prefix`: the
/// name is the prefix, a dot and one or more digits whose value fits in 64
/// bits.
pub open spec fn sequence_of(prefix: Seq<char>, name: Seq<char>) -> Option<nat> {
    let p = prefix.len() as int;
    let digits = name.subrange(p + 1, name.len() as int);
    if name.len() > p + 1 && name.subrange(0, p) == prefix && name[p] == '.' && (forall|i: int|
        0 <= i < digits.len() ==> is_digit(#[trigger] digits[i])) && digits_value(digits)
        <= u64::MAX {
        Some(digits_value(digits))
    } else {
        None
    }
}

/// Whether `name` begins with `prefix` and a dot: a file of the store.
pub open spec fn names_segment(prefix: Seq<char>, name: Seq<char>) -> bool {
    name.len() > prefix.len() && name.subrange(0, prefix.len() as int) == prefix
        && name[prefix.len() as int] == '.'
}

/// The one-character text of digit `d`.
fn digit_str(d: u64) -> (r: &'static str)
    requires
        d < 10,
    ensures
        r@ == seq![digit_char(d as nat)],
{
    proof {
        reveal_strlit("0");
        reveal_strlit("1");
        reveal_strlit("2");
        reveal_strlit("3");
        reveal_strlit("4");
        reveal_strlit("5");
        reveal_strlit("6");
        reveal_strlit("7");
        reveal_strlit("8");
        reveal_strlit("9");
    }
    if d == 0 {
        "0"
    } else if d == 1 {
        "1"
    } else if d == 2 {
        "2"
    } else if d == 3 {
        "3"
    } else if d == 4 {
        "4"
    } else if d == 5 {
        "5"
    } else if d == 6 {
        "6"
    } else if d == 7 {
        "7"
    } else if d == 8 {
        "8"
    } else {
        "9"
    }
}

/// Appends `n` in decimal to `s`.
fn push_decimal(s: &mut String, n: u64)
    ensures
        final(s)@ == old(s)@ + decimal(n as nat),
    decreases n,
{
    if n >= 10 {
        push_decimal(s, n / 10);
    }
    s.append(digit_str(n % 10));
    proof {
        if n >= 10 {
            assert(old(s)@ + decimal(n as nat) =~= old(s)@ + decimal((n / 10) as nat) + seq![
                digit_char((n % 10) as nat),
            ]);
        } else {
            assert(decimal(n as nat) == seq![digit_char(n as nat)]);
        }
    }
}

/// The name of the sealed segment of `prefix` with sequence number `n`.
pub fn sealed_name(prefix: &String, n: u64) -> (r: String)
    ensures
        r@ == segment_name(prefix@, n as nat),
{
    let mut s = prefix.clone();
    s.append(".");
    proof {
        reveal_strlit(".");
    }
    let mut digits = String::new();
    push_decimal(&mut digits, n);
    assert(digits@ =~= decimal(n as nat));
    let len = digits.as_str().unicode_len();
    let mut i: usize = len;
    while i < SEQUENCE_WIDTH
        invariant
            len <= i <= SEQUENCE_WIDTH || (len > SEQUENCE_WIDTH && i == len),
            len == decimal(n as nat).len(),
            s@ == prefix@ + seq!['.'] + Seq::new((i - len) as nat, |j: int| '0'),
        decreases SEQUENCE_WIDTH - i,
    {
        s.append("0");
        proof {
            reveal_strlit("0");
        }
        i = i + 1;
        assert(s@ =~= prefix@ + seq!['.'] + Seq::new((i - len) as nat, |j: int| '0'));
    }
    s.append(digits.as_str());
    assert(s@ =~= segment_name(prefix@, n as nat));
    s
}

/// The name of the active segment of `prefix`.
pub fn active_name(prefix: &String) -> (r: String)
    ensures
        r@ == current_name(prefix@),
{
    let mut s = prefix.clone();
    s.append(".current");
    proof {
        reveal_strlit(".current");
    }
    assert(s@ =~= current_name(prefix@));
    s
}

/// Whether `name` begins with `prefix` and a dot.
pub fn is_segment_file(prefix: &String, name: &String) -> (r: bool)
    ensures
        r == names_segment(prefix@, name@),
{
    let p = prefix.as_str().unicode_len();
    let n = name.as_str().unicode_len();
    if n <= p {
        return false;
    }
    let mut i: usize = 0;
    while i < p
        invariant
            p == prefix@.len(),
            n == name@.len(),
            p < n,
            0 <= i <= p,
            forall|j: int| 0 <= j < i ==> name@[j] == prefix@[j],
        decreases p - i,
    {
        if name.as_str().get_char(i) != prefix.as_str().get_char(i) {
            assert(name@.subrange(0, p as int)[i as int] != prefix@[i as int]);
            return false;
        }
        i = i + 1;
    }
    assert(name@.subrange(0, p as int) =~= prefix@);
    name.as_str().get_char(p) == '.'
}

/// The sequence number that `name` gives a sealed segment of `prefix`, if it
/// names one.
pub fn parse_sequence(prefix: &String, name: &String) -> (r: Option<u64>)
    ensures
        match r {
            Some(n) => sequence_of(prefix@, name@) == Some(n as nat),
            None => sequence_of(prefix@, name@) is None,
        },
{
    let ghost pp = prefix@.len() as int;
    if !is_segment_file(prefix, name) {
        return None;
    }
    let p = prefix.as_str().unicode_len();
    let n = name.as_str().unicode_len();
    if n == p + 1 {
        return None;
    }
    let ghost digits = name@.subrange(pp + 1, name@.len() as int);
    let mut value: u64 = 0;
    let mut i: usize = p + 1;
    while i < n
        invariant
            p == prefix@.len(),
            n == name@.len(),
            p + 1 < n,
            p + 1 <= i <= n,
            pp == p as int,
            digits == name@.subrange(pp + 1, name@.len() as int),
            forall|j: int| 0 <= j < i - p - 1 ==> is_digit(#[trigger] digits[j]),
            value == digits_value(digits.subrange(0, i - p - 1)),
        decreases n - i,
    {
        let c = name.as_str().get_char(i);
        let ghost sub = digits.subrange(0, i - p - 1);
        let ghost next = digits.subrange(0, i - p);
        assert(next.drop_last() =~= sub);
        assert(digits[i - p - 1] == c);
        if (c as u32) < 48 || (c as u32) > 57 {
            return None;
        }
        let d = (c as u32 - 48) as u64;
        let m = match value.checked_mul(10) {
            Some(m) => m,
            None => {
                proof {
                    crate::naming::lemma_digits_value_grows(digits, i - p);
                }
                return None;
            },
        };
        value = match m.checked_add(d) {
            Some(v) => v,
            None => {
                proof {
                    crate::naming::lemma_digits_value_grows(digits, i - p);
                }
                return None;
            },
        };
        i = i + 1;
    }
    assert(digits.subrange(0, digits.len() as int) =~= digits);
    Some(value)
}

/// The decimal digits of `n` are digits and write `n`.
pub proof fn lemma_decimal(n: nat)
    ensures
        decimal(n).len() > 0,
        forall|i: int| 0 <= i < decimal(n).len() ==> is_digit(#[trigger] decimal(n)[i]),
        digits_value(decimal(n)) == n,
    decreases n,
{
    let d = (n % 10) as nat;
    assert(digit_char(d) as u32 == 48 + d);
    if n >= 10 {
        lemma_decimal(n / 10);
        let s = decimal(n);
        assert(s.drop_last() =~= decimal(n / 10));
        assert(s.last() == digit_char(d));
        assert(digits_value(s) == digits_value(decimal(n / 10)) * 10 + d);
        assert((n / 10) * 10 + n % 10 == n) by (nonlinear_arith);
        assert forall|i: int| 0 <= i < s.len() implies is_digit(#[trigger] s[i]) by {
            if i < s.len() - 1 {
                assert(s[i] == decimal(n / 10)[i]);
            }
        }
    } else {
        assert(decimal(n).drop_last() =~= Seq::<char>::empty());
        assert(digits_value(Seq::<char>::empty()) == 0);
        assert(decimal(n).last() == digit_char(d));
    }
}

/// Leading zeros do not change the value of a digit string.
pub proof fn lemma_leading_zeros(z: nat, d: Seq<char>)
    ensures
        digits_value(Seq::new(z, |i: int| '0') + d) == digits_value(d),
    decreases d.len() + z,
{
    let zs = Seq::new(z, |i: int| '0');
    if d.len() == 0 {
        assert(zs + d =~= zs);
        if z > 0 {
            assert(zs.drop_last() =~= Seq::new((z - 1) as nat, |i: int| '0'));
            lemma_leading_zeros((z - 1) as nat, d);
            assert(Seq::new((z - 1) as nat, |i: int| '0') + d =~= Seq::new((z - 1) as nat, |i: int| '0'));
        }
    } else {
        lemma_leading_zeros(z, d.drop_last());
        assert((zs + d).drop_last() =~= zs + d.drop_last());
    }
}

/// The name of the sealed segment numbered `n` gives back `n`.
pub proof fn lemma_sequence_of_name(prefix: Seq<char>, n: nat)
    requires
        n <= u64::MAX,
    ensures
        sequence_of(prefix, segment_name(prefix, n)) == Some(n),
{
    lemma_decimal(n);
    let d = decimal(n);
    let z: nat = if d.len() < SEQUENCE_WIDTH {
        (SEQUENCE_WIDTH - d.len()) as nat
    } else {
        0
    };
    lemma_leading_zeros(z, d);
    let name = segment_name(prefix, n);
    let p = prefix.len() as int;
    let digits = name.subrange(p + 1, name.len() as int);
    assert(digits =~= padded(n));
    assert(name.subrange(0, p) =~= prefix);
    assert(name[p] == '.');
    assert forall|i: int| 0 <= i < digits.len() implies is_digit(#[trigger] digits[i]) by {
        if i >= z {
            assert(digits[i] == d[i - z]);
        }
    }
}

/// Sealed segments with different numbers have different names, and none
/// is named like the active segment.
pub proof fn lemma_names_distinct(prefix: Seq<char>, a: nat, b: nat)
    requires
        a <= u64::MAX,
        b <= u64::MAX,
    ensures
        a != b ==> segment_name(prefix, a) != segment_name(prefix, b),
        segment_name(prefix, a) != current_name(prefix),
{
    lemma_sequence_of_name(prefix, a);
    lemma_sequence_of_name(prefix, b);
    let c = current_name(prefix);
    let p = prefix.len() as int;
    if segment_name(prefix, a) == c {
        let digits = c.subrange(p + 1, c.len() as int);
        assert(digits[0] == 'c');
        assert(!is_digit(digits[0]));
    }
}

/// The value of a prefix of a digit string is at most the value of the
/// whole string.
pub proof fn lemma_digits_value_grows(s: Seq<char>, j: int)
    requires
        0 <= j <= s.len(),
    ensures
        digits_value(s.subrange(0, j)) <= digits_value(s),
    decreases s.len() - j,
{
    if j < s.len() {
        lemma_digits_value_grows(s, j + 1);
        assert(s.subrange(0, j + 1).drop_last() =~= s.subrange(0, j));
    } else {
        assert(s.subrange(0, j) =~= s);
    }
}

} // verus!
