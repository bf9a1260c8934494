//! ASCII decimal numerals: the text that `Display` gives an integer and the
//! text that `FromStr` accepts for one.

use vstd::prelude::*;

verus! {

/// The byte of ASCII `'0'`.
pub const ZERO: u8 = 48;

/// The byte of ASCII `'+'`.
pub const PLUS: u8 = 43;

/// The byte of ASCII `'-'`.
pub const MINUS: u8 = 45;

pub open spec fn is_digit(b: u8) -> bool {
    48 <= b <= 57
}

pub open spec fn all_digits(s: Seq<u8>) -> bool {
    forall|i: int| 0 <= i < s.len() ==> is_digit(#[trigger] s[i])
}

/// The number that a run of decimal digits denotes, most significant first.
pub open spec fn digits_value(s: Seq<u8>) -> nat
    decreases s.len(),
{
    if s.len() == 0 {
        0
    } else {
        digits_value(s.drop_last()) * 10 + (s.last() - 48) as nat
    }
}

/// The shortest decimal numeral of `n`, as `Display` writes it.
pub open spec fn decimal(n: nat) -> Seq<u8>
    decreases n,
{
    if n < 10 {
        seq![(48 + n) as u8]
    } else {
        decimal(n / 10).push((48 + n % 10) as u8)
    }
}

/// The numeral of a signed integer, as `Display` writes it.
pub open spec fn signed_decimal(i: int) -> Seq<u8> {
    if i < 0 {
        seq![MINUS] + decimal((-i) as nat)
    } else {
        decimal(i as nat)
    }
}

/// Each byte of an ASCII text as a character.
pub open spec fn ascii_chars(s: Seq<u8>) -> Seq<char> {
    s.map_values(|b: u8| b as char)
}

/// The sign and digits of a numeral as `FromStr` of an integer type reads
/// them: one leading `+` (or `-` for a signed type) is taken as the sign, and
/// a numeral that is empty or is a sign alone is refused.
pub open spec fn split_sign(s: Seq<u8>, signed: bool) -> Option<(bool, Seq<u8>)> {
    if s.len() == 0 {
        None
    } else if s.len() == 1 && (s[0] == PLUS || s[0] == MINUS) {
        None
    } else if s[0] == PLUS {
        Some((false, s.drop_first()))
    } else if s[0] == MINUS && signed {
        Some((true, s.drop_first()))
    } else {
        Some((false, s))
    }
}

/// What `i64::from_str` gives for the text `s`.
pub open spec fn parse_i64_text(s: Seq<u8>) -> Option<i64> {
    match split_sign(s, true) {
        None => None,
        Some((negative, digits)) => {
            let v: int = if negative {
                -(digits_value(digits) as int)
            } else {
                digits_value(digits) as int
            };
            if all_digits(digits) && i64::MIN <= v <= i64::MAX {
                Some(v as i64)
            } else {
                None
            }
        },
    }
}

/// What `usize::from_str` gives for the text `s`.
pub open spec fn parse_usize_text(s: Seq<u8>) -> Option<usize> {
    match split_sign(s, false) {
        None => None,
        Some((_, digits)) => {
            if all_digits(digits) && digits_value(digits) <= usize::MAX {
                Some(digits_value(digits) as usize)
            } else {
                None
            }
        },
    }
}

pub proof fn lemma_decimal(n: nat)
    ensures
        decimal(n).len() >= 1,
        all_digits(decimal(n)),
        digits_value(decimal(n)) == n,
    decreases n,
{
    if n >= 10 {
        lemma_decimal(n / 10);
        let s = decimal(n);
        assert(s.drop_last() =~= decimal(n / 10));
        assert(s.last() == (48 + n % 10) as u8);
        assert((s.last() - 48) as nat == n % 10);
        assert(n == (n / 10) * 10 + n % 10);
    } else {
        let s = decimal(n);
        assert(s.drop_last().len() == 0);
        assert(digits_value(s.drop_last()) == 0);
    }
}

pub proof fn lemma_digits_value_prefix(s: Seq<u8>, i: int)
    requires
        all_digits(s),
        0 <= i <= s.len(),
    ensures
        digits_value(s.take(i)) <= digits_value(s),
    decreases s.len(),
{
    if i < s.len() {
        lemma_digits_value_prefix(s.drop_last(), i);
        assert(s.drop_last().take(i) =~= s.take(i));
    } else {
        assert(s.take(i) =~= s);
    }
}

pub proof fn lemma_parse_signed_decimal(i: i64)
    ensures
        parse_i64_text(signed_decimal(i as int)) == Some(i),
{
    if i < 0 {
        lemma_decimal((-i) as nat);
        let s = signed_decimal(i as int);
        assert(s.drop_first() =~= decimal((-i) as nat));
    } else {
        lemma_decimal(i as nat);
    }
}

pub proof fn lemma_parse_decimal(n: usize)
    ensures
        parse_usize_text(decimal(n as nat)) == Some(n),
{
    lemma_decimal(n as nat);
}

/// A run of digits without a leading zero, or the single digit zero: the
/// numeral that `decimal` writes.
pub open spec fn canonical_digits(s: Seq<u8>) -> bool {
    &&& s.len() >= 1
    &&& all_digits(s)
    &&& (s.len() == 1 || s[0] != ZERO)
}

/// A signed numeral as `signed_decimal` writes it: canonical digits, or a
/// minus sign and canonical digits that are not zero.
pub open spec fn canonical_signed(s: Seq<u8>) -> bool {
    ||| canonical_digits(s)
    ||| (s.len() >= 2 && s[0] == MINUS && canonical_digits(s.drop_first()) && s[1] != ZERO)
}

proof fn lemma_digits_value_positive(s: Seq<u8>)
    requires
        s.len() >= 1,
        all_digits(s),
        s[0] != ZERO,
    ensures
        digits_value(s) >= 1,
    decreases s.len(),
{
    if s.len() > 1 {
        lemma_digits_value_positive(s.drop_last());
    }
}

/// Canonical digits are the numeral of the number they denote.
pub proof fn lemma_canonical_digits(s: Seq<u8>)
    requires
        canonical_digits(s),
    ensures
        decimal(digits_value(s)) == s,
    decreases s.len(),
{
    let v = digits_value(s);
    let last = (s.last() - 48) as nat;
    assert(is_digit(s[s.len() - 1]));
    if s.len() == 1 {
        assert(s.drop_last().len() == 0);
        assert(digits_value(s.drop_last()) == 0);
        assert(decimal(v) =~= s);
    } else {
        let prefix = s.drop_last();
        assert(prefix[0] == s[0]);
        assert(all_digits(prefix));
        lemma_digits_value_positive(prefix);
        lemma_canonical_digits(prefix);
        let a = digits_value(prefix);
        assert(v == a * 10 + last);
        assert(v / 10 == a && v % 10 == last);
        assert(decimal(v) == decimal(a).push((48 + last) as u8));
        assert(decimal(v) =~= s);
    }
}

/// A canonical numeral that `usize::from_str` reads is `decimal` of what it
/// reads.
pub proof fn lemma_canonical_usize(s: Seq<u8>)
    requires
        canonical_digits(s),
        parse_usize_text(s) is Some,
    ensures
        decimal(parse_usize_text(s).unwrap() as nat) == s,
{
    lemma_canonical_digits(s);
}

/// A canonical signed numeral that `i64::from_str` reads is
/// `signed_decimal` of what it reads.
pub proof fn lemma_canonical_i64(s: Seq<u8>)
    requires
        canonical_signed(s),
        parse_i64_text(s) is Some,
    ensures
        signed_decimal(parse_i64_text(s).unwrap() as int) == s,
{
    if canonical_digits(s) {
        lemma_canonical_digits(s);
    } else {
        let d = s.drop_first();
        assert(d[0] == s[1]);
        lemma_digits_value_positive(d);
        lemma_canonical_digits(d);
        assert(s =~= seq![MINUS] + d);
    }
}

/// The numeral of `n` is made of digits, has no leading zero, and its last
/// digit is `n % 10`, the rest being the numeral of `n / 10`.
pub proof fn lemma_decimal_meaning(n: nat)
    ensures
        canonical_digits(decimal(n)),
        digits_value(decimal(n)) == n,
        decimal(n).last() == 48 + n % 10,
        n >= 10 ==> decimal(n).drop_last() == decimal(n / 10),
        n < 10 <==> decimal(n).len() == 1,
    decreases n,
{
    lemma_decimal(n);
    if n >= 10 {
        lemma_decimal_meaning(n / 10);
        assert(decimal(n).drop_last() =~= decimal(n / 10));
        assert(decimal(n)[0] == decimal(n / 10)[0]);
    }
}

/// The numeral of a signed integer is a minus sign exactly when it is
/// negative, followed by the numeral of its magnitude.
pub proof fn lemma_signed_decimal_meaning(i: int)
    ensures
        (signed_decimal(i)[0] == MINUS) <==> i < 0,
        i < 0 ==> signed_decimal(i).drop_first() == decimal((-i) as nat),
        i >= 0 ==> signed_decimal(i) == decimal(i as nat),
        canonical_signed(signed_decimal(i)),
{
    if i < 0 {
        lemma_decimal_meaning((-i) as nat);
        assert(signed_decimal(i).drop_first() =~= decimal((-i) as nat));
        assert(signed_decimal(i)[1] == decimal((-i) as nat)[0]);
        if decimal((-i) as nat).len() == 1 {
            assert(decimal((-i) as nat)[0] == decimal((-i) as nat).last());
        }
    } else {
        lemma_decimal_meaning(i as nat);
        assert(is_digit(decimal(i as nat)[0]));
    }
}

/// Reads a run of decimal digits; `None` when a byte is not a digit or the
/// number exceeds `bound`.
fn parse_digits(digits: &[u8], bound: u128) -> (r: Option<u128>)
    requires
        bound <= u64::MAX,
    ensures
        r is Some <==> all_digits(digits@) && digits_value(digits@) <= bound,
        r matches Some(v) ==> v == digits_value(digits@),
{
    let mut acc: u128 = 0;
    let mut i: usize = 0;
    assert(digits@.take(0) =~= Seq::<u8>::empty());
    while i < digits.len()
        invariant
            i <= digits.len(),
            all_digits(digits@.take(i as int)),
            acc == digits_value(digits@.take(i as int)),
            acc <= bound,
            bound <= u64::MAX,
        decreases digits.len() - i,
    {
        let b = digits[i];
        if b < 48 || b > 57 {
            assert(!is_digit(digits@[i as int]));
            return None;
        }
        assert(digits@.take(i + 1).drop_last() =~= digits@.take(i as int));
        acc = acc * 10 + (b - 48) as u128;
        i = i + 1;
        assert(all_digits(digits@.take(i as int))) by {
            assert forall|j: int| 0 <= j < i implies is_digit(#[trigger] digits@.take(i as int)[j]) by {
                if j < i - 1 {
                    assert(digits@.take(i as int)[j] == digits@.take(i - 1)[j]);
                }
            }
        }
        if acc > bound {
            proof {
                if all_digits(digits@) {
                    lemma_digits_value_prefix(digits@, i as int);
                }
            }
            return None;
        }
    }
    assert(digits@.take(i as int) =~= digits@);
    Some(acc)
}

/// `i64::from_str` on ASCII text.
pub fn parse_i64(s: &[u8]) -> (r: Option<i64>)
    ensures
        r == parse_i64_text(s@),
{
    if s.len() == 0 {
        return None;
    }
    if s.len() == 1 && (s[0] == PLUS || s[0] == MINUS) {
        return None;
    }
    let negative = s[0] == MINUS;
    let digits = if s[0] == PLUS || negative {
        vstd::slice::slice_subrange(s, 1, s.len())
    } else {
        s
    };
    assert(s[0] == PLUS || negative ==> digits@ =~= s@.drop_first());
    // The magnitude of i64::MIN is one more than i64::MAX.
    let bound: u128 = if negative { 9223372036854775808 } else { 9223372036854775807 };
    match parse_digits(digits, bound) {
        None => None,
        Some(m) => {
            if negative {
                if m == 9223372036854775808 {
                    Some(-9223372036854775807i64 - 1)
                } else {
                    Some(-(m as i64))
                }
            } else {
                Some(m as i64)
            }
        },
    }
}

/// `usize::from_str` on ASCII text.
pub fn parse_usize(s: &[u8]) -> (r: Option<usize>)
    ensures
        r == parse_usize_text(s@),
{
    if s.len() == 0 {
        return None;
    }
    if s.len() == 1 && (s[0] == PLUS || s[0] == MINUS) {
        return None;
    }
    let digits = if s[0] == PLUS {
        vstd::slice::slice_subrange(s, 1, s.len())
    } else {
        s
    };
    assert(s[0] == PLUS ==> digits@ =~= s@.drop_first());
    match parse_digits(digits, usize::MAX as u128) {
        None => None,
        Some(m) => Some(m as usize),
    }
}

/// Appends the numeral of `n` to `buf`.
pub fn push_decimal(buf: &mut Vec<u8>, n: u64)
    ensures
        final(buf)@ == old(buf)@ + decimal(n as nat),
    decreases n,
{
    if n >= 10 {
        push_decimal(buf, n / 10);
    }
    buf.push(48 + (n % 10) as u8);
    proof {
        if n >= 10 {
            assert(decimal(n as nat) == decimal((n / 10) as nat).push((48 + n % 10) as u8));
        }
    }
    assert(final(buf)@ =~= old(buf)@ + decimal(n as nat));
}

/// Appends the numeral of the signed integer `i` to `buf`.
pub fn push_signed_decimal(buf: &mut Vec<u8>, i: i64)
    ensures
        final(buf)@ == old(buf)@ + signed_decimal(i as int),
{
    if i < 0 {
        buf.push(MINUS);
        let magnitude: u64 = if i == i64::MIN {
            9223372036854775808
        } else {
            (-i) as u64
        };
        push_decimal(buf, magnitude);
        assert(final(buf)@ =~= old(buf)@ + signed_decimal(i as int));
    } else {
        push_decimal(buf, i as u64);
    }
}

/// The one-character text of the digit `d`.
fn digit_text(d: u8) -> (s: &'static str)
    requires
        d < 10,
    ensures
        s@ == seq![(48 + d) as char],
{
    proof {
        reveal_strlit("0");
        reveal_strlit("1");
        reveal_strlit("2");
        reveal_strlit("3");
        reveal_strlit("4");
        reveal_strlit("5");
        reveal_strlit("6");
        reveal_strlit("7");
        reveal_strlit("8");
        reveal_strlit("9");
    }
    match d {
        0 => "0",
        1 => "1",
        2 => "2",
        3 => "3",
        4 => "4",
        5 => "5",
        6 => "6",
        7 => "7",
        8 => "8",
        _ => "9",
    }
}

/// The message `prefix`, then the numeral of `n`, then `suffix`, as
/// `format!` writes it.
pub fn numeral_message(prefix: &str, n: u64, suffix: &str) -> (s: String)
    ensures
        s@ == prefix@ + ascii_chars(decimal(n as nat)) + suffix@,
{
    let mut digits: Vec<u8> = Vec::new();
    push_decimal(&mut digits, n);
    assert(digits@ =~= decimal(n as nat));
    proof {
        lemma_decimal(n as nat);
    }
    let mut s = String::from_str(prefix);
    let mut i: usize = 0;
    while i < digits.len()
        invariant
            i <= digits.len(),
            all_digits(digits@),
            s@ == prefix@ + ascii_chars(digits@.take(i as int)),
        decreases digits.len() - i,
    {
        let d = digits[i] - 48;
        assert(is_digit(digits@[i as int]));
        s.append(digit_text(d));
        assert(ascii_chars(digits@.take(i + 1)) =~= ascii_chars(digits@.take(i as int)).push(
            digits@[i as int] as char,
        ));
        i = i + 1;
    }
    assert(digits@.take(i as int) =~= digits@);
    s.append(suffix);
    s
}

} // verus!
