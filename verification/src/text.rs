//! Character-level text handling: ASCII classes and case, Unicode white
//! space, decimal numbers, UTF-8 decoding and string comparison.

use vstd::prelude::*;
use vstd::string::*;
use vstd::utf8::*;

verus! {

// ---------------------------------------------------------------------------
// Character classes
// ---------------------------------------------------------------------------

/// An ASCII decimal digit `0`..=`9`.
pub open spec fn is_digit(c: char) -> bool {
    '0' <= c && c <= '9'
}

/// The value of an ASCII decimal digit.
pub open spec fn digit_value(c: char) -> nat {
    (c as u32 - '0' as u32) as nat
}

/// The ASCII digit of a value below ten.
pub open spec fn digit_char(d: nat) -> char {
    (d + 48) as char
}

/// An ASCII letter or digit.
pub open spec fn is_ascii_alnum(c: char) -> bool {
    is_digit(c) || ('a' <= c && c <= 'z') || ('A' <= c && c <= 'Z')
}

/// ASCII lower case of one character; every other character is kept.
pub open spec fn lower_char(c: char) -> char {
    if 'A' <= c && c <= 'Z' {
        (c as u32 + 32) as char
    } else {
        c
    }
}

/// ASCII lower case of a text: each character through [`lower_char`].
pub open spec fn lower(s: Seq<char>) -> Seq<char> {
    Seq::new(s.len(), |i: int| lower_char(s[i]))
}

/// The characters with the Unicode `White_Space` property.
pub open spec fn is_white_space(c: char) -> bool {
    let u = c as u32;
    ||| 9 <= u && u <= 13
    ||| u == 32
    ||| u == 0x85
    ||| u == 0xa0
    ||| u == 0x1680
    ||| 0x2000 <= u && u <= 0x200a
    ||| u == 0x2028
    ||| u == 0x2029
    ||| u == 0x202f
    ||| u == 0x205f
    ||| u == 0x3000
}

/// Every character of `s` is a digit.
pub open spec fn all_digits(s: Seq<char>) -> bool {
    forall|i: int| 0 <= i < s.len() ==> is_digit(#[trigger] s[i])
}

// ---------------------------------------------------------------------------
// Decimal numbers
// ---------------------------------------------------------------------------

/// The shortest decimal representation of `n`.
pub open spec fn decimal(n: nat) -> Seq<char>
    decreases n,
{
    if n < 10 {
        seq![digit_char(n)]
    } else {
        decimal(n / 10).push(digit_char(n % 10))
    }
}

/// The value of a sequence of decimal digits (0 for the empty sequence).
pub open spec fn digits_value(s: Seq<char>) -> nat
    decreases s.len(),
{
    if s.len() == 0 {
        0
    } else {
        digits_value(s.drop_last()) * 10 + digit_value(s.last())
    }
}

/// What `str::parse` gives for an unsigned integer type whose largest value
/// is `max`: an optional `+`, then one or more digits, of value at most `max`.
pub open spec fn parse_unsigned_spec(s: Seq<char>, max: nat) -> Option<nat> {
    let d = if s.len() > 0 && s[0] == '+' { s.drop_first() } else { s };
    if d.len() > 0 && all_digits(d) && digits_value(d) <= max {
        Some(digits_value(d))
    } else {
        None
    }
}

/// What `str::parse::<u128>` gives.
pub open spec fn parse_u128_spec(s: Seq<char>) -> Option<u128> {
    match parse_unsigned_spec(s, u128::MAX as nat) {
        Some(v) => Some(v as u128),
        None => None,
    }
}

/// The digits of `decimal(n)` are digits, and they spell `n`.
pub proof fn lemma_decimal(n: nat)
    ensures
        decimal(n).len() >= 1,
        all_digits(decimal(n)),
        digits_value(decimal(n)) == n,
        decimal(n)[0] != '+',
    decreases n,
{
    let last = digit_char(n % 10);
    assert(last as u32 == n % 10 + 48);
    assert(digit_value(last) == n % 10);
    if n >= 10 {
        lemma_decimal(n / 10);
        let d = decimal(n);
        assert(d.drop_last() =~= decimal(n / 10));
        assert(d[0] == decimal(n / 10)[0]);
        assert(d.last() == last);
        assert(n == (n / 10) * 10 + n % 10);
        assert(digits_value(d) == digits_value(d.drop_last()) * 10 + digit_value(d.last()));
        assert(digits_value(d) == n);
    } else {
        assert(decimal(n).drop_last() =~= Seq::<char>::empty());
        assert(digits_value(Seq::<char>::empty()) == 0);
        assert(digits_value(decimal(n)) == n);
    }
}

/// A longer run of digits is worth at least as much as its prefix.
pub proof fn lemma_digits_value_prefix(s: Seq<char>, k: int)
    requires
        all_digits(s),
        0 <= k <= s.len(),
    ensures
        digits_value(s.subrange(0, k)) <= digits_value(s),
    decreases s.len(),
{
    if k < s.len() {
        assert(s.drop_last().subrange(0, k) =~= s.subrange(0, k));
        lemma_digits_value_prefix(s.drop_last(), k);
    } else {
        assert(s.subrange(0, k) =~= s);
    }
}

// ---------------------------------------------------------------------------
// Text operations on specifications
// ---------------------------------------------------------------------------

/// `s` without its leading white space.
pub open spec fn trim_start(s: Seq<char>) -> Seq<char>
    decreases s.len(),
{
    if s.len() > 0 && is_white_space(s[0]) {
        trim_start(s.drop_first())
    } else {
        s
    }
}

/// `s` without its trailing white space.
pub open spec fn trim_end(s: Seq<char>) -> Seq<char>
    decreases s.len(),
{
    if s.len() > 0 && is_white_space(s.last()) {
        trim_end(s.drop_last())
    } else {
        s
    }
}

/// `s` without leading and trailing white space, as `str::trim` gives it.
pub open spec fn trim(s: Seq<char>) -> Seq<char> {
    trim_end(trim_start(s))
}

/// `s` ends with `suffix`.
pub open spec fn ends_with(s: Seq<char>, suffix: Seq<char>) -> bool {
    suffix.len() <= s.len() && s.subrange(s.len() - suffix.len(), s.len() as int) == suffix
}

/// `s` starts with `prefix`.
pub open spec fn starts_with(s: Seq<char>, prefix: Seq<char>) -> bool {
    prefix.len() <= s.len() && s.subrange(0, prefix.len() as int) == prefix
}

/// `s` without `suffix` at its end, where it ends with it.
pub open spec fn strip_suffix(s: Seq<char>, suffix: Seq<char>) -> Option<Seq<char>> {
    if ends_with(s, suffix) {
        Some(s.subrange(0, s.len() - suffix.len()))
    } else {
        None
    }
}

// ---------------------------------------------------------------------------
// Executable helpers
// ---------------------------------------------------------------------------

/// Whether `c` has the Unicode `White_Space` property.
pub fn char_is_white_space(c: char) -> (r: bool)
    ensures
        r == is_white_space(c),
{
    let u = c as u32;
    (9 <= u && u <= 13) || u == 32 || u == 0x85 || u == 0xa0 || u == 0x1680 || (0x2000 <= u && u
        <= 0x200a) || u == 0x2028 || u == 0x2029 || u == 0x202f || u == 0x205f || u == 0x3000
}

/// Whether `c` is an ASCII digit.
pub fn char_is_digit(c: char) -> (r: bool)
    ensures
        r == is_digit(c),
{
    '0' <= c && c <= '9'
}

/// Whether `c` is an ASCII letter or digit.
pub fn char_is_ascii_alnum(c: char) -> (r: bool)
    ensures
        r == is_ascii_alnum(c),
{
    ('0' <= c && c <= '9') || ('a' <= c && c <= 'z') || ('A' <= c && c <= 'Z')
}

/// `String::push`: appends one character.
#[verifier::external_body]
pub(crate) fn string_push(s: &mut String, c: char)
    ensures
        final(s)@ == old(s)@.push(c),
{
    s.push(c);
}

/// `std::str::from_utf8`: the text that `bytes` encode, where they are
/// valid UTF-8. The contract restates the documented behaviour over vstd's
/// model of UTF-8.
#[verifier::external_body]
pub(crate) fn str_from_utf8(bytes: &[u8]) -> (r: Option<&str>)
    ensures
        r is Some <==> valid_utf8(bytes@),
        r matches Some(s) ==> s@ == decode_utf8(bytes@),
{
    std::str::from_utf8(bytes).ok()
}

/// Two texts are equal, character by character.
pub fn str_eq(a: &str, b: &str) -> (r: bool)
    ensures
        r == (a@ == b@),
{
    let n = a.unicode_len();
    if n != b.unicode_len() {
        return false;
    }
    let mut i: usize = 0;
    while i < n
        invariant
            n == a@.len(),
            n == b@.len(),
            0 <= i <= n,
            forall|j: int| 0 <= j < i ==> a@[j] == b@[j],
        decreases n - i,
    {
        if a.get_char(i) != b.get_char(i) {
            return false;
        }
        i = i + 1;
    }
    assert(a@ =~= b@);
    true
}

/// The ASCII lower case of `s` (`str::to_ascii_lowercase`).
pub fn ascii_lowercase(s: &str) -> (r: String)
    ensures
        r@ == lower(s@),
{
    let n = s.unicode_len();
    let mut out = String::new();
    let mut i: usize = 0;
    while i < n
        invariant
            n == s@.len(),
            0 <= i <= n,
            out@ =~= lower(s@).subrange(0, i as int),
        decreases n - i,
    {
        let c = s.get_char(i);
        let l = if 'A' <= c && c <= 'Z' {
            let u = (c as u8) + 32;
            u as char
        } else {
            c
        };
        string_push(&mut out, l);
        i = i + 1;
    }
    assert(lower(s@).subrange(0, n as int) =~= lower(s@));
    out
}

/// Appends the decimal representation of `n` to `s`.
pub fn push_decimal(s: &mut String, n: u128)
    ensures
        final(s)@ == old(s)@ + decimal(n as nat),
    decreases n,
{
    if n >= 10 {
        push_decimal(s, n / 10);
    }
    let d = (n % 10) as u8;
    let c = (d + 48) as char;
    assert(c == digit_char((n % 10) as nat));
    string_push(s, c);
    proof {
        if n >= 10 {
            assert(decimal(n as nat) == decimal((n / 10) as nat).push(digit_char((n % 10) as nat)));
        } else {
            assert(decimal(n as nat) == seq![digit_char(n as nat)]);
        }
    }
    assert(s@ =~= old(s)@ + decimal(n as nat));
}

/// The decimal representation of `n`.
pub fn decimal_string(n: u128) -> (r: String)
    ensures
        r@ == decimal(n as nat),
{
    let mut s = String::new();
    push_decimal(&mut s, n);
    assert(s@ =~= decimal(n as nat));
    s
}

/// `str::parse` for an unsigned integer type whose largest value is `max`.
pub fn parse_unsigned(s: &str, max: u128) -> (r: Option<u128>)
    ensures
        r matches Some(v) ==> parse_unsigned_spec(s@, max as nat) == Some(v as nat),
        r is None ==> parse_unsigned_spec(s@, max as nat) is None,
{
    let n = s.unicode_len();
    if n == 0 {
        return None;
    }
    let start: usize = if s.get_char(0) == '+' { 1 } else { 0 };
    let ghost d = if s@.len() > 0 && s@[0] == '+' { s@.drop_first() } else { s@ };
    assert(d =~= s@.subrange(start as int, n as int));
    if start == n {
        return None;
    }
    let mut acc: u128 = 0;
    let mut i: usize = start;
    while i < n
        invariant
            n == s@.len(),
            start <= i <= n,
            d =~= s@.subrange(start as int, n as int),
            d == (if s@.len() > 0 && s@[0] == '+' { s@.drop_first() } else { s@ }),
            all_digits(d.subrange(0, i - start)),
            acc as nat == digits_value(d.subrange(0, i - start)),
            acc <= max,
        decreases n - i,
    {
        let c = s.get_char(i);
        if !char_is_digit(c) {
            assert(d[i - start] == c);
            assert(!is_digit(d[i - start]));
            assert(!all_digits(d));
            return None;
        }
        let dv = (c as u32 - 48) as u128;
        assert(d.subrange(0, i + 1 - start).drop_last() =~= d.subrange(0, i - start));
        assert(d.subrange(0, i + 1 - start).last() == c);
        assert(all_digits(d.subrange(0, i + 1 - start)));
        if dv > max || acc > (max - dv) / 10 {
            proof {
                assert(digits_value(d.subrange(0, i + 1 - start)) > max) by (nonlinear_arith)
                    requires
                        digits_value(d.subrange(0, i + 1 - start)) == acc * 10 + dv,
                        dv > max || acc > (max - dv) / 10,
                        dv <= 9,
                        max >= 0,
                ;
                if all_digits(d) {
                    lemma_digits_value_prefix(d, i + 1 - start);
                }
            }
            return None;
        }
        assert(acc * 10 + dv <= max) by (nonlinear_arith)
            requires
                dv <= max,
                acc <= (max - dv) / 10,
        ;
        acc = acc * 10 + dv;
        i = i + 1;
    }
    assert(d.subrange(0, n - start) =~= d);
    Some(acc)
}

/// The index of the first character of `s` that is not white space (or its
/// length).
fn trim_start_index(s: &str) -> (r: usize)
    ensures
        r <= s@.len(),
        trim_start(s@) == s@.subrange(r as int, s@.len() as int),
{
    let n = s.unicode_len();
    let mut i: usize = 0;
    assert(s@.subrange(0, n as int) =~= s@);
    while i < n && char_is_white_space(s.get_char(i))
        invariant
            n == s@.len(),
            0 <= i <= n,
            trim_start(s@) == trim_start(s@.subrange(i as int, n as int)),
        decreases n - i,
    {
        assert(s@.subrange(i as int, n as int).drop_first() =~= s@.subrange(i + 1, n as int));
        i = i + 1;
    }
    i
}

/// The end of `s` without its trailing white space.
fn trim_end_index(s: &str, lo: usize) -> (r: usize)
    requires
        lo <= s@.len(),
    ensures
        lo <= r <= s@.len(),
        trim_end(s@.subrange(lo as int, s@.len() as int)) == s@.subrange(lo as int, r as int),
{
    let n = s.unicode_len();
    let mut j: usize = n;
    while j > lo && char_is_white_space(s.get_char(j - 1))
        invariant
            n == s@.len(),
            lo <= j <= n,
            trim_end(s@.subrange(lo as int, n as int)) == trim_end(s@.subrange(lo as int, j as int)),
        decreases j,
    {
        assert(s@.subrange(lo as int, j as int).drop_last() =~= s@.subrange(lo as int, j - 1));
        j = j - 1;
    }
    j
}

/// `s` without leading and trailing white space (`str::trim`).
pub fn trim_str(s: &str) -> (r: &str)
    ensures
        r@ == trim(s@),
{
    let lo = trim_start_index(s);
    let hi = trim_end_index(s, lo);
    s.substring_char(lo, hi)
}

/// `s` without `suffix` at its end (`str::strip_suffix`).
/// Whether `s` starts with `prefix` (`str::starts_with`).
pub fn starts_with_str(s: &str, prefix: &str) -> (r: bool)
    ensures
        r == starts_with(s@, prefix@),
{
    let n = s.unicode_len();
    let m = prefix.unicode_len();
    if m > n {
        return false;
    }
    str_eq(s.substring_char(0, m), prefix)
}

pub fn strip_suffix_str<'a>(s: &'a str, suffix: &str) -> (r: Option<&'a str>)
    ensures
        r matches Some(p) ==> strip_suffix(s@, suffix@) == Some(p@),
        r is None ==> strip_suffix(s@, suffix@) is None,
{
    let n = s.unicode_len();
    let m = suffix.unicode_len();
    if m > n {
        return None;
    }
    let tail = s.substring_char(n - m, n);
    if str_eq(tail, suffix) {
        Some(s.substring_char(0, n - m))
    } else {
        None
    }
}

} // verus!
