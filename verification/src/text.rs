//! Numbers as digits and bytes.
//!
//! Identifiers, file names and frame headers are all built from a few
//! renderings of numbers. Each rendering is a spec function on mathematical
//! integers and an executable function proved to compute it.

use vstd::prelude::*;
use vstd::string::*;

verus! {

/// `String::push` appends one character at the end of the string.
pub assume_specification[ String::push ](s: &mut String, c: char)
    ensures
        final(s)@ == old(s)@.push(c),
;

/// The decimal digit `d` as a character.
pub open spec fn digit_char(d: nat) -> char {
    (48 + d) as char
}

/// The decimal rendering of `n`, without leading zeros.
pub open spec fn decimal(n: nat) -> Seq<char>
    decreases n,
{
    if n < 10 {
        seq![digit_char(n)]
    } else {
        decimal(n / 10).push(digit_char(n % 10))
    }
}

/// The decimal rendering of `n`, padded with a zero to at least two digits.
pub open spec fn decimal2(n: nat) -> Seq<char> {
    if n < 10 {
        seq!['0', digit_char(n)]
    } else {
        decimal(n)
    }
}

/// The decimal rendering of `n`, padded with zeros to at least `width` digits.
pub open spec fn decimal_padded(n: nat, width: nat) -> Seq<char> {
    let d = decimal(n);
    if d.len() < width {
        Seq::new((width - d.len()) as nat, |i: int| '0') + d
    } else {
        d
    }
}

/// Appends the decimal rendering of `n`.
pub fn push_decimal(out: &mut String, n: u64)
    ensures
        final(out)@ == old(out)@ + decimal(n as nat),
    decreases n,
{
    if n >= 10 {
        push_decimal(out, n / 10);
    }
    let d: u8 = (n % 10) as u8;
    out.push((48u8 + d) as char);
    assert(out@ =~= old(out)@ + decimal(n as nat));
}

/// Appends the decimal rendering of `n`, padded with a zero to at least two
/// digits.
pub fn push_decimal2(out: &mut String, n: u64)
    ensures
        final(out)@ == old(out)@ + decimal2(n as nat),
{
    if n < 10 {
        out.push('0');
    }
    push_decimal(out, n);
    assert(out@ =~= old(out)@ + decimal2(n as nat));
}

/// Appends the decimal rendering of `n`, padded with zeros to at least five
/// digits.
pub fn push_decimal5(out: &mut String, n: u64)
    ensures
        final(out)@ == old(out)@ + decimal_padded(n as nat, 5),
{
    proof {
        reveal_with_fuel(decimal, 5);
        if n >= 10000 {
            lemma_decimal_nonempty(n as nat / 10000);
        }
    }
    if n < 10000 {
        out.push('0');
    }
    if n < 1000 {
        out.push('0');
    }
    if n < 100 {
        out.push('0');
    }
    if n < 10 {
        out.push('0');
    }
    let ghost zeros = out@;
    push_decimal(out, n);
    proof {
        let d = decimal(n as nat);
        assert(d.len() >= 1 && (n >= 10 ==> d.len() >= 2) && (n >= 100 ==> d.len() >= 3) && (n >= 1000
            ==> d.len() >= 4) && (n >= 10000 ==> d.len() >= 5));
        assert(out@ =~= old(out)@ + decimal_padded(n as nat, 5));
    }
}

proof fn lemma_decimal_nonempty(n: nat)
    ensures
        decimal(n).len() >= 1,
{
}

/// Whether `c` is one of the characters `0` to `9`.
pub open spec fn is_digit(c: char) -> bool {
    48 <= c as u32 <= 57
}

/// Every character of a decimal rendering is a digit, and there is at least one.
pub proof fn lemma_decimal_digits(n: nat)
    ensures
        decimal(n).len() >= 1,
        forall|i: int| 0 <= i < decimal(n).len() ==> is_digit(#[trigger] decimal(n)[i]),
    decreases n,
{
    if n >= 10 {
        lemma_decimal_digits(n / 10);
    }
}

/// Two numbers with the same decimal rendering are equal.
pub proof fn lemma_decimal_injective(a: nat, b: nat)
    requires
        decimal(a) == decimal(b),
    ensures
        a == b,
    decreases a,
{
    lemma_decimal_digits(a / 10);
    lemma_decimal_digits(b / 10);
    let da = decimal(a);
    let db = decimal(b);
    assert(da.last() == digit_char(a % 10));
    assert(db.last() == digit_char(b % 10));
    if a >= 10 && b >= 10 {
        assert(da.drop_last() =~= decimal(a / 10));
        assert(db.drop_last() =~= decimal(b / 10));
        lemma_decimal_injective(a / 10, b / 10);
    } else {
        assert(a >= 10 ==> da.len() >= 2);
        assert(b >= 10 ==> db.len() >= 2);
    }
}

/// Two numbers with the same two-digit rendering are equal.
pub proof fn lemma_decimal2_injective(a: nat, b: nat)
    requires
        decimal2(a) == decimal2(b),
    ensures
        a == b,
{
    lemma_decimal_digits(a);
    lemma_decimal_digits(b);
    if a < 10 && b < 10 {
        assert(decimal2(a)[1] == decimal2(b)[1]);
    } else if a >= 10 && b >= 10 {
        lemma_decimal_injective(a, b);
    } else if a >= 10 {
        lemma_decimal_no_leading_zero(a);
        assert(decimal2(b)[0] == '0');
    } else {
        lemma_decimal_no_leading_zero(b);
        assert(decimal2(a)[0] == '0');
    }
}

/// A positive number's rendering does not start with a zero.
proof fn lemma_decimal_no_leading_zero(n: nat)
    requires
        n >= 1,
    ensures
        decimal(n).len() >= 1,
        decimal(n)[0] != '0',
    decreases n,
{
    if n >= 10 {
        lemma_decimal_no_leading_zero(n / 10);
        assert(decimal(n)[0] == decimal(n / 10)[0]);
    }
}

/// The number that decimal digits stand for.
pub open spec fn decimal_value(s: Seq<char>) -> int
    decreases s.len(),
{
    if s.len() == 0 {
        0
    } else {
        decimal_value(s.drop_last()) * 10 + (s.last() as u32 - 48)
    }
}

/// Reading a decimal rendering gives the number, with leading zeros or without.
pub proof fn lemma_decimal_padded_value(n: nat, width: nat)
    ensures
        decimal_value(decimal_padded(n, width)) == n,
{
    let d = decimal(n);
    lemma_decimal_value(n);
    if d.len() < width {
        let zeros = Seq::new((width - d.len()) as nat, |i: int| '0');
        lemma_leading_zeros(zeros, d);
    }
}

proof fn lemma_decimal_value(n: nat)
    ensures
        decimal_value(decimal(n)) == n,
    decreases n,
{
    let d = decimal(n);
    reveal_with_fuel(decimal_value, 2);
    if n >= 10 {
        lemma_decimal_value(n / 10);
        assert(d.drop_last() =~= decimal(n / 10));
    } else {
        assert(d.drop_last() =~= Seq::empty());
    }
}

proof fn lemma_leading_zeros(zeros: Seq<char>, s: Seq<char>)
    requires
        forall|i: int| 0 <= i < zeros.len() ==> zeros[i] == '0',
    ensures
        decimal_value(zeros + s) == decimal_value(s),
    decreases zeros.len() + s.len(),
{
    if s.len() > 0 {
        assert((zeros + s).drop_last() =~= zeros + s.drop_last());
        lemma_leading_zeros(zeros, s.drop_last());
    } else if zeros.len() > 0 {
        assert(zeros + s =~= zeros);
        assert(zeros.drop_last() + s =~= zeros.drop_last());
        lemma_leading_zeros(zeros.drop_last(), s);
    }
}

/// The `len` lowest-order base-256 digits of `n`, highest first.
pub open spec fn be_bytes(n: nat, len: nat) -> Seq<u8>
    decreases len,
{
    if len == 0 {
        Seq::empty()
    } else {
        be_bytes(n / 256, (len - 1) as nat).push((n % 256) as u8)
    }
}

/// The number whose base-256 digits are `s`, highest first.
pub open spec fn be_value(s: Seq<u8>) -> nat
    decreases s.len(),
{
    if s.len() == 0 {
        0
    } else {
        be_value(s.drop_last()) * 256 + s.last() as nat
    }
}

/// The number whose base-256 digits are `s`, lowest first.
pub open spec fn le_value(s: Seq<u8>) -> nat
    decreases s.len(),
{
    if s.len() == 0 {
        0
    } else {
        s[0] as nat + 256 * le_value(s.skip(1))
    }
}

/// The `len` lowest-order bytes of `n`, highest first.
pub fn to_be_bytes(n: u128, len: usize) -> (res: Vec<u8>)
    ensures
        res@ == be_bytes(n as nat, len as nat),
        res@.len() == len,
    decreases len,
{
    if len == 0 {
        return Vec::new();
    }
    let mut res = to_be_bytes(n / 256, len - 1);
    res.push((n % 256) as u8);
    res
}

/// The number that four bytes hold, highest first.
pub fn from_be_bytes4(bytes: &[u8; 4]) -> (res: u32)
    ensures
        res as nat == be_value(bytes@),
{
    proof {
        reveal_with_fuel(be_value, 5);
        let s = bytes@;
        assert(s.drop_last().drop_last().drop_last().drop_last() =~= Seq::<u8>::empty());
    }
    bytes[0] as u32 * 0x100_0000 + bytes[1] as u32 * 0x1_0000 + bytes[2] as u32 * 0x100 + bytes[3] as u32
}

/// The number that the first eight bytes of a digest hold, lowest first.
pub fn le_u64_prefix(bytes: &[u8; 32]) -> (res: u64)
    ensures
        res as nat == le_value(bytes@.subrange(0, 8)),
{
    proof {
        let s = bytes@.subrange(0, 8);
        reveal_with_fuel(le_value, 9);
        assert(s.skip(1).skip(1) =~= s.skip(2));
        assert(s.skip(2).skip(1) =~= s.skip(3));
        assert(s.skip(3).skip(1) =~= s.skip(4));
        assert(s.skip(4).skip(1) =~= s.skip(5));
        assert(s.skip(5).skip(1) =~= s.skip(6));
        assert(s.skip(6).skip(1) =~= s.skip(7));
        assert(s.skip(7).skip(1) =~= Seq::<u8>::empty());
    }
    bytes[0] as u64 + bytes[1] as u64 * 0x100 + bytes[2] as u64 * 0x1_0000 + bytes[3] as u64 * 0x100_0000
        + bytes[4] as u64 * 0x1_0000_0000 + bytes[5] as u64 * 0x100_0000_0000 + bytes[6] as u64
        * 0x1_0000_0000_0000 + bytes[7] as u64 * 0x100_0000_0000_0000
}

/// Taking the digits of a number that fits and reading them back gives the
/// number.
pub proof fn lemma_be_roundtrip(n: nat, len: nat)
    requires
        n < vstd::arithmetic::power::pow(256, len),
    ensures
        be_value(be_bytes(n, len)) == n,
        be_bytes(n, len).len() == len,
    decreases len,
{
    vstd::arithmetic::power::lemma_pow0(256);
    if len > 0 {
        let s = be_bytes(n, len);
        assert(vstd::arithmetic::power::pow(256, len) == 256 * vstd::arithmetic::power::pow(
            256,
            (len - 1) as nat,
        )) by {
            reveal(vstd::arithmetic::power::pow);
        }
        assert(n / 256 < vstd::arithmetic::power::pow(256, (len - 1) as nat)) by (nonlinear_arith)
            requires
                n < 256 * vstd::arithmetic::power::pow(256, (len - 1) as nat),
        ;
        lemma_be_roundtrip(n / 256, (len - 1) as nat);
        assert(s.drop_last() =~= be_bytes(n / 256, (len - 1) as nat));
    }
}

/// Whether `s` ends in `suffix`.
pub open spec fn has_suffix(s: Seq<char>, suffix: Seq<char>) -> bool {
    s.len() >= suffix.len() && s.skip(s.len() - suffix.len()) == suffix
}

/// `s` without its last `suffix.len()` characters.
pub open spec fn without_suffix(s: Seq<char>, suffix: Seq<char>) -> Seq<char> {
    s.take(s.len() - suffix.len())
}

/// What stands before `suffix`, if `s` ends in it.
pub fn strip_suffix(s: &str, suffix: &str) -> (res: Option<String>)
    ensures
        match res {
            Some(rest) => has_suffix(s@, suffix@) && rest@ == without_suffix(s@, suffix@),
            None => !has_suffix(s@, suffix@),
        },
{
    let n = s.unicode_len();
    let m = suffix.unicode_len();
    if n < m {
        return None;
    }
    let tail = s.substring_char(n - m, n).to_owned();
    assert(tail@ =~= s@.skip(n - m));
    if tail == suffix.to_owned() {
        let rest = s.substring_char(0, n - m).to_owned();
        assert(rest@ =~= without_suffix(s@, suffix@));
        Some(rest)
    } else {
        None
    }
}

/// A text with a suffix put behind it ends in that suffix, and stands before it.
pub proof fn lemma_suffix_added(s: Seq<char>, suffix: Seq<char>)
    ensures
        has_suffix(s + suffix, suffix),
        without_suffix(s + suffix, suffix) == s,
{
    assert((s + suffix).skip(s.len() as int) =~= suffix);
    assert((s + suffix).take(s.len() as int) =~= s);
}

/// Whether a character has the Unicode property `White_Space`.
pub open spec fn is_white_space(c: char) -> bool {
    let u = c as u32;
    ||| 0x9 <= u <= 0xd
    ||| u == 0x20
    ||| u == 0x85
    ||| u == 0xa0
    ||| u == 0x1680
    ||| 0x2000 <= u <= 0x200a
    ||| u == 0x2028
    ||| u == 0x2029
    ||| u == 0x202f
    ||| u == 0x205f
    ||| u == 0x3000
}

/// `s` without the white space at its end.
pub open spec fn trimmed_end(s: Seq<char>) -> Seq<char>
    decreases s.len(),
{
    if s.len() > 0 && is_white_space(s.last()) {
        trimmed_end(s.drop_last())
    } else {
        s
    }
}

/// `s` without the white space at its start.
pub open spec fn trimmed_start(s: Seq<char>) -> Seq<char>
    decreases s.len(),
{
    if s.len() > 0 && is_white_space(s[0]) {
        trimmed_start(s.skip(1))
    } else {
        s
    }
}

/// `s` without the white space at either end.
pub open spec fn trimmed(s: Seq<char>) -> Seq<char> {
    trimmed_end(trimmed_start(s))
}

/// Whether a character has the Unicode property `White_Space`.
fn white_space(c: char) -> (res: bool)
    ensures
        res == is_white_space(c),
{
    let u = c as u32;
    (0x9 <= u && u <= 0xd) || u == 0x20 || u == 0x85 || u == 0xa0 || u == 0x1680 || (0x2000 <= u && u
        <= 0x200a) || u == 0x2028 || u == 0x2029 || u == 0x202f || u == 0x205f || u == 0x3000
}

/// The text without the white space at either end.
pub(crate) fn trim(s: &str) -> (res: &str)
    ensures
        res@ == trimmed(s@),
{
    let n = s.unicode_len();
    let mut start: usize = 0;
    assert(s@.skip(0) =~= s@);
    while start < n && white_space(s.get_char(start))
        invariant
            start <= n == s@.len(),
            trimmed_start(s@) == trimmed_start(s@.skip(start as int)),
        decreases n - start,
    {
        assert(s@.skip(start as int).skip(1) =~= s@.skip(start + 1));
        start = start + 1;
    }
    let ghost tail = s@.skip(start as int);
    assert(trimmed_start(s@) == tail);
    let mut end: usize = n;
    assert(s@.subrange(start as int, n as int) =~= tail);
    while start < end && white_space(s.get_char(end - 1))
        invariant
            start <= end <= n == s@.len(),
            trimmed_end(tail) == trimmed_end(s@.subrange(start as int, end as int)),
        decreases end,
    {
        assert(s@.subrange(start as int, end as int).drop_last() =~= s@.subrange(
            start as int,
            end - 1,
        ));
        end = end - 1;
    }
    s.substring_char(start, end)
}

/// `String::from_utf8`: the text that `bytes` encode, if they are valid UTF-8.
#[verifier::external_body]
pub(crate) fn text_from_utf8(bytes: Vec<u8>) -> (res: Option<String>)
    ensures
        match res {
            Some(s) => vstd::utf8::valid_utf8(bytes@) && s@ == vstd::utf8::decode_utf8(bytes@),
            None => !vstd::utf8::valid_utf8(bytes@),
        },
{
    String::from_utf8(bytes).ok()
}

/// A decimal rendering is made of the digits `0` to `9`, does not start with a zero
/// unless it is that of zero, and reads as the number.
pub proof fn law_decimal(n: nat)
    ensures
        decimal(n).len() >= 1,
        forall|i: int| 0 <= i < decimal(n).len() ==> 48 <= (#[trigger] decimal(n)[i]) as u32 <= 57,
        n > 0 ==> decimal(n)[0] != '0',
        n == 0 ==> decimal(n).len() == 1,
        decimal_value(decimal(n)) == n,
{
    lemma_decimal_digits(n);
    lemma_decimal_value(n);
    if n > 0 {
        lemma_decimal_no_leading_zero(n);
    }
}

/// A padded decimal rendering is made of digits, is at least as long as asked for,
/// starts with a zero only where it has to be padded, and reads as the number.
pub proof fn law_decimal_padded(n: nat, width: nat)
    ensures
        ({
            let p = decimal_padded(n, width);
            &&& p.len() >= width && p.len() >= 1
            &&& forall|i: int| 0 <= i < p.len() ==> 48 <= (#[trigger] p[i]) as u32 <= 57
            &&& p.len() > width && n > 0 ==> p[0] != '0'
            &&& p.len() > width && n == 0 ==> p.len() == 1
            &&& decimal_value(p) == n
        }),
{
    law_decimal(n);
    lemma_decimal_padded_value(n, width);
}

/// So is one of at least two digits.
pub proof fn law_decimal2(n: nat)
    ensures
        decimal2(n).len() >= 2,
        forall|i: int| 0 <= i < decimal2(n).len() ==> 48 <= (#[trigger] decimal2(n)[i]) as u32 <= 57,
        decimal2(n).len() > 2 ==> decimal2(n)[0] != '0',
        decimal_value(decimal2(n)) == n,
{
    law_decimal(n);
    if n < 10 {
        assert(decimal(n) =~= seq![digit_char(n)]);
        lemma_leading_zeros(seq!['0'], decimal(n));
        assert(decimal2(n) =~= seq!['0'] + decimal(n));
    } else {
        lemma_decimal_digits(n / 10);
    }
}

/// The byte at each place is the digit of that weight in base 256.
pub proof fn law_be_bytes(n: nat, len: nat)
    ensures
        be_bytes(n, len).len() == len,
        forall|i: int|
            0 <= i < len ==> (#[trigger] be_bytes(n, len)[i]) == (n as int
                / vstd::arithmetic::power::pow(256, (len - 1 - i) as nat)) % 256,
    decreases len,
{
    vstd::arithmetic::power::lemma_pow0(256);
    if len > 0 {
        let rest = be_bytes(n / 256, (len - 1) as nat);
        law_be_bytes(n / 256, (len - 1) as nat);
        assert forall|i: int| 0 <= i < len implies (#[trigger] be_bytes(n, len)[i]) == (n as int
            / vstd::arithmetic::power::pow(256, (len - 1 - i) as nat)) % 256 by {
            if i < len - 1 {
                assert(be_bytes(n, len)[i] == rest[i]);
                let e = (len - 2 - i) as nat;
                let w = vstd::arithmetic::power::pow(256, e);
                vstd::arithmetic::power::lemma_pow_positive(256, e);
                assert(vstd::arithmetic::power::pow(256, e + 1) == 256 * w) by {
                    reveal(vstd::arithmetic::power::pow);
                }
                vstd::arithmetic::div_mod::lemma_div_denominator(n as int, 256, w);
            } else {
                vstd::arithmetic::div_mod::lemma_div_basics(n as int);
            }
        }
    }
}

/// The first byte of a number that is read highest first weighs most.
pub proof fn law_be_value(s: Seq<u8>)
    ensures
        s.len() == 0 ==> be_value(s) == 0,
        s.len() > 0 ==> be_value(s) == s[0] * vstd::arithmetic::power::pow(256, (s.len() - 1) as nat)
            + be_value(s.skip(1)),
    decreases s.len(),
{
    vstd::arithmetic::power::lemma_pow0(256);
    if s.len() == 1 {
        assert(s.skip(1) =~= Seq::empty());
        assert(s.drop_last() =~= Seq::empty());
        reveal_with_fuel(be_value, 2);
    } else if s.len() > 1 {
        let front = s.drop_last();
        let e = (s.len() - 2) as nat;
        let w = vstd::arithmetic::power::pow(256, e);
        law_be_value(front);
        assert(s.skip(1).drop_last() =~= front.skip(1));
        assert(vstd::arithmetic::power::pow(256, e + 1) == 256 * w) by {
            reveal(vstd::arithmetic::power::pow);
        }
        assert((s[0] * w + be_value(front.skip(1))) * 256 == s[0] * (256 * w) + be_value(front.skip(1))
            * 256) by (nonlinear_arith);
    }
}

/// Reading the lowest byte first is reading the bytes in reverse.
pub proof fn law_le_value(s: Seq<u8>)
    ensures
        le_value(s) == be_value(s.reverse()),
    decreases s.len(),
{
    if s.len() > 0 {
        law_le_value(s.skip(1));
        assert(s.reverse().drop_last() =~= s.skip(1).reverse());
    }
}

/// A text ends in a suffix if something followed by the suffix is the text, and that
/// something is what is left without it.
pub proof fn law_suffix(s: Seq<char>, suffix: Seq<char>)
    ensures
        has_suffix(s, suffix) <==> exists|rest: Seq<char>| s == #[trigger] (rest + suffix),
        has_suffix(s, suffix) ==> without_suffix(s, suffix) + suffix == s,
{
    if has_suffix(s, suffix) {
        assert(s =~= without_suffix(s, suffix) + suffix);
    }
    if exists|rest: Seq<char>| s == #[trigger] (rest + suffix) {
        let rest = choose|rest: Seq<char>| s == #[trigger] (rest + suffix);
        lemma_suffix_added(rest, suffix);
    }
}

/// What is trimmed is white space, from both ends and up to the first character that
/// is not.
pub proof fn law_trimmed(s: Seq<char>)
    ensures
        exists|a: int, b: int| is_trim_of(s, trimmed(s), a, b),
{
    let n = s.len() as int;
    let a = lemma_trimmed_start(s);
    let mid = s.skip(a);
    let b = lemma_trimmed_end(mid);
    assert(mid.take(b) =~= s.subrange(a, a + b));
    assert forall|i: int| a + b <= i < n implies is_white_space(#[trigger] s[i]) by {
        assert(mid[i - a] == s[i]);
    }
    if b > 0 {
        assert(mid[b - 1] == s[a + b - 1]);
    }
    assert(is_trim_of(s, trimmed(s), a, a + b));
}

/// Whether `t` is what stands in `s` from `a` to `b`, with nothing but white space
/// outside and none at its ends.
pub open spec fn is_trim_of(s: Seq<char>, t: Seq<char>, a: int, b: int) -> bool {
    &&& 0 <= a <= b <= s.len()
    &&& t == s.subrange(a, b)
    &&& forall|i: int| 0 <= i < a ==> is_white_space(#[trigger] s[i])
    &&& forall|i: int| b <= i < s.len() ==> is_white_space(#[trigger] s[i])
    &&& a < b ==> !is_white_space(s[a]) && !is_white_space(s[b - 1])
}

proof fn lemma_trimmed_start(s: Seq<char>) -> (a: int)
    ensures
        0 <= a <= s.len(),
        trimmed_start(s) == s.skip(a),
        forall|i: int| 0 <= i < a ==> is_white_space(#[trigger] s[i]),
        a < s.len() ==> !is_white_space(s[a]),
    decreases s.len(),
{
    if s.len() > 0 && is_white_space(s[0]) {
        let rest = s.skip(1);
        let a = lemma_trimmed_start(rest);
        assert(rest.skip(a) =~= s.skip(a + 1));
        assert forall|i: int| 0 <= i < a + 1 implies is_white_space(#[trigger] s[i]) by {
            if i > 0 {
                assert(rest[i - 1] == s[i]);
            }
        }
        a + 1
    } else {
        assert(s.skip(0) =~= s);
        0
    }
}

proof fn lemma_trimmed_end(s: Seq<char>) -> (b: int)
    ensures
        0 <= b <= s.len(),
        trimmed_end(s) == s.take(b),
        forall|i: int| b <= i < s.len() ==> is_white_space(#[trigger] s[i]),
        b > 0 ==> !is_white_space(s[b - 1]),
    decreases s.len(),
{
    if s.len() > 0 && is_white_space(s.last()) {
        let rest = s.drop_last();
        let b = lemma_trimmed_end(rest);
        assert(rest.take(b) =~= s.take(b));
        assert forall|i: int| b <= i < s.len() implies is_white_space(#[trigger] s[i]) by {
            if i < rest.len() {
                assert(rest[i] == s[i]);
            }
        }
        b
    } else {
        assert(s.take(s.len() as int) =~= s);
        s.len() as int
    }
}

/// Whether `s` is a numeral of `n`: decimal digits that read as `n`, at least `width`
/// of them, and no zero in front that the width does not ask for.
pub open spec fn is_numeral(s: Seq<char>, n: nat, width: nat) -> bool {
    &&& s.len() >= width && s.len() >= 1
    &&& forall|i: int| 0 <= i < s.len() ==> 48 <= (#[trigger] s[i]) as u32 <= 57
    &&& s.len() > width && s.len() > 1 ==> s[0] != '0'
    &&& decimal_value(s) == n
}

/// The renderings are numerals.
pub proof fn law_renderings_are_numerals(n: nat, width: nat)
    ensures
        is_numeral(decimal(n), n, 1),
        is_numeral(decimal2(n), n, 2),
        is_numeral(decimal_padded(n, width), n, width),
{
    law_decimal(n);
    law_decimal2(n);
    law_decimal_padded(n, width);
}

} // verus!
