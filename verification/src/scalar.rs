//! What a plain scalar denotes, and how a string is spelled as a scalar.
use crate::text::{
    append_spaces, blank, digit, is_blank, is_digit, is_word, run, scan, spaces, Class, AMP, AT,
    BACKSLASH, BANG, COLON, COMMA, DASH, DELETE, DOT, DQUOTE, GREATER, HASH, LBRACE, LBRACKET, NL,
    PERCENT, PIPE, PLUS, QUESTION, RBRACE, RBRACKET, SPACE, SQUOTE, STAR, TAB, TICK, ZERO,
};
use vstd::prelude::*;
use vstd::string::*;

verus! {

/// The type a plain scalar resolves to.
#[derive(Clone, Copy, PartialEq, Eq, Structural, Debug)]
pub enum Plain {
    Null,
    Bool(bool),
    Int(i64),
    Float,
    Text,
}

/// The spellings of null.
pub open spec fn null_word(s: Seq<u8>) -> bool {
    s == "null".spec_bytes() || s == "Null".spec_bytes() || s == "NULL".spec_bytes() || s
        == "~".spec_bytes()
}

/// The spellings of true.
pub open spec fn true_word(s: Seq<u8>) -> bool {
    s == "true".spec_bytes() || s == "True".spec_bytes() || s == "TRUE".spec_bytes()
}

/// The spellings of false.
pub open spec fn false_word(s: Seq<u8>) -> bool {
    s == "false".spec_bytes() || s == "False".spec_bytes() || s == "FALSE".spec_bytes()
}

/// The words older readers take for booleans.
pub open spec fn switch_word(s: Seq<u8>) -> bool {
    ||| s == "yes".spec_bytes()
    ||| s == "Yes".spec_bytes()
    ||| s == "YES".spec_bytes()
    ||| s == "no".spec_bytes()
    ||| s == "No".spec_bytes()
    ||| s == "NO".spec_bytes()
    ||| s == "on".spec_bytes()
    ||| s == "On".spec_bytes()
    ||| s == "ON".spec_bytes()
    ||| s == "off".spec_bytes()
    ||| s == "Off".spec_bytes()
    ||| s == "OFF".spec_bytes()
}

fn is_null_word(s: &[u8]) -> (r: bool)
    ensures
        r == null_word(s@),
{
    is_word(s, "null") || is_word(s, "Null") || is_word(s, "NULL") || is_word(s, "~")
}

fn is_true_word(s: &[u8]) -> (r: bool)
    ensures
        r == true_word(s@),
{
    is_word(s, "true") || is_word(s, "True") || is_word(s, "TRUE")
}

fn is_false_word(s: &[u8]) -> (r: bool)
    ensures
        r == false_word(s@),
{
    is_word(s, "false") || is_word(s, "False") || is_word(s, "FALSE")
}

fn is_switch_word(s: &[u8]) -> (r: bool)
    ensures
        r == switch_word(s@),
{
    is_word(s, "yes") || is_word(s, "Yes") || is_word(s, "YES") || is_word(s, "no") || is_word(
        s,
        "No",
    ) || is_word(s, "NO") || is_word(s, "on") || is_word(s, "On") || is_word(s, "ON") || is_word(
        s,
        "off",
    ) || is_word(s, "Off") || is_word(s, "OFF")
}

/// The value of a digit; 255 for anything else.
pub open spec fn digit_value(b: u8) -> int {
    if digit(b) {
        b - 48
    } else if 97 <= b <= 102 {
        b - 87
    } else if 65 <= b <= 70 {
        b - 55
    } else {
        255
    }
}

/// The value of a digit; 255 for anything else.
pub fn value_of_digit(b: u8) -> (r: u8)
    ensures
        r == digit_value(b),
{
    if is_digit(b) {
        b - 48
    } else if 97 <= b && b <= 102 {
        b - 87
    } else if 65 <= b && b <= 70 {
        b - 55
    } else {
        255
    }
}

/// Whether `s[i..hi]` is a non-empty run of digits in `radix`.
pub open spec fn digits(s: Seq<u8>, i: int, hi: int, radix: int) -> bool {
    i < hi && forall|k: int| i <= k < hi ==> digit_value(#[trigger] s[k]) < radix
}

/// The number that the digits `s[i..hi]` denote in `radix`.
pub open spec fn magnitude(s: Seq<u8>, i: int, hi: int, radix: int) -> int
    decreases hi - i,
{
    if hi <= i {
        0
    } else {
        magnitude(s, i, hi - 1, radix) * radix + digit_value(s[hi - 1])
    }
}

/// More digits never denote a smaller number.
pub proof fn magnitude_grows(s: Seq<u8>, i: int, k: int, hi: int, radix: int)
    requires
        i <= k <= hi,
        radix >= 1,
    ensures
        0 <= magnitude(s, i, k, radix) <= magnitude(s, i, hi, radix),
    decreases hi - i,
{
    if i < hi {
        if k < hi {
            magnitude_grows(s, i, k, hi - 1, radix);
            let m = magnitude(s, i, hi - 1, radix);
            assert(m * radix >= m) by (nonlinear_arith)
                requires
                    m >= 0,
                    radix >= 1,
            ;
        } else {
            magnitude_grows(s, i, hi - 1, hi - 1, radix);
            let m = magnitude(s, i, hi - 1, radix);
            assert(m * radix >= 0) by (nonlinear_arith)
                requires
                    m >= 0,
                    radix >= 1,
            ;
        }
    }
}

/// Whether `s[i..hi]` is a non-empty run of digits in `radix`.
fn are_digits(s: &[u8], i: usize, hi: usize, radix: u8) -> (r: bool)
    requires
        hi <= s@.len(),
    ensures
        r == digits(s@, i as int, hi as int, radix as int),
{
    let mut k: usize = i;
    while k < hi
        invariant
            hi <= s@.len(),
            i <= k,
            forall|m: int| i <= m < k && m < hi ==> digit_value(#[trigger] s@[m]) < radix,
        decreases hi - k,
    {
        if value_of_digit(s[k]) >= radix {
            return false;
        }
        k += 1;
    }
    i < hi
}

/// The number that the digits `s[i..hi]` denote, when it does not exceed the
/// magnitude of the smallest `i64`.
fn magnitude_of(s: &[u8], i: usize, hi: usize, radix: u8) -> (r: Option<u64>)
    requires
        i <= hi <= s@.len(),
        2 <= radix <= 16,
        digits(s@, i as int, hi as int, radix as int),
    ensures
        match r {
            Some(n) => n == magnitude(s@, i as int, hi as int, radix as int) && n
                <= 0x8000_0000_0000_0000,
            None => magnitude(s@, i as int, hi as int, radix as int) > 0x8000_0000_0000_0000,
        },
{
    let mut k: usize = i;
    let mut n: u128 = 0;
    while k < hi
        invariant
            i <= k <= hi <= s@.len(),
            2 <= radix <= 16,
            digits(s@, i as int, hi as int, radix as int),
            n == magnitude(s@, i as int, k as int, radix as int),
            n <= 0x8000_0000_0000_0000,
        decreases hi - k,
    {
        let d: u8 = value_of_digit(s[k]);
        assert(n * radix + d <= 0x8000_0000_0000_0000 * 16 + 16) by (nonlinear_arith)
            requires
                0 <= n <= 0x8000_0000_0000_0000,
                2 <= radix <= 16,
                0 <= d < radix,
        ;
        assert(0 <= n * radix) by (nonlinear_arith)
            requires
                0 <= n,
                2 <= radix,
        ;
        n = n * (radix as u128) + (d as u128);
        k += 1;
        if n > 0x8000_0000_0000_0000 {
            proof {
                magnitude_grows(s@, i as int, k as int, hi as int, radix as int);
            }
            return None;
        }
    }
    Some(n as u64)
}

/// Where the digits of a number begin: past its sign.
pub open spec fn past_sign(s: Seq<u8>) -> int {
    if s.len() > 0 && (s[0] == DASH || s[0] == PLUS) {
        1
    } else {
        0
    }
}

fn after_sign(s: &[u8]) -> (r: usize)
    ensures
        r == past_sign(s@),
        r <= s@.len(),
{
    if s.len() > 0 && (s[0] == DASH || s[0] == PLUS) {
        1
    } else {
        0
    }
}

/// The integer a text denotes: decimal digits with an optional sign, or
/// hexadecimal or octal digits behind `0x` or `0o`. `None` for any other text
/// and for a number that does not fit.
pub open spec fn integer(s: Seq<u8>) -> Option<i64> {
    let b = past_sign(s);
    let n = s.len() as int;
    if digits(s, b, n, 10) {
        let m = magnitude(s, b, n, 10);
        if s[0] == DASH && m <= 0x8000_0000_0000_0000 {
            Some((0 - m) as i64)
        } else if s[0] != DASH && m <= 0x7fff_ffff_ffff_ffff {
            Some(m as i64)
        } else {
            None
        }
    } else if n > 2 && s[0] == ZERO && s[1] == 120 && digits(s, 2, n, 16) && magnitude(s, 2, n, 16)
        <= 0x7fff_ffff_ffff_ffff {
        Some(magnitude(s, 2, n, 16) as i64)
    } else if n > 2 && s[0] == ZERO && s[1] == 111 && digits(s, 2, n, 8) && magnitude(s, 2, n, 8)
        <= 0x7fff_ffff_ffff_ffff {
        Some(magnitude(s, 2, n, 8) as i64)
    } else {
        None
    }
}

/// The integer a text denotes.
pub fn integer_of(s: &[u8]) -> (r: Option<i64>)
    ensures
        r == integer(s@),
{
    let b: usize = after_sign(s);
    let n: usize = s.len();
    if are_digits(s, b, n, 10) {
        let negative: bool = s[0] == DASH;
        return match magnitude_of(s, b, n, 10) {
            Some(m) => if negative {
                if m == 0x8000_0000_0000_0000 {
                    Some(-0x8000_0000_0000_0000)
                } else {
                    Some(0 - (m as i64))
                }
            } else if m <= 0x7fff_ffff_ffff_ffff {
                Some(m as i64)
            } else {
                None
            },
            None => None,
        };
    }
    if n > 2 && s[0] == ZERO && s[1] == 120 && are_digits(s, 2, n, 16) {
        return match magnitude_of(s, 2, n, 16) {
            Some(m) => if m <= 0x7fff_ffff_ffff_ffff {
                Some(m as i64)
            } else {
                None
            },
            None => None,
        };
    }
    if n > 2 && s[0] == ZERO && s[1] == 111 && are_digits(s, 2, n, 8) {
        return match magnitude_of(s, 2, n, 8) {
            Some(m) => if m <= 0x7fff_ffff_ffff_ffff {
                Some(m as i64)
            } else {
                None
            },
            None => None,
        };
    }
    None
}

/// Where the mantissa that starts at `b` ends: digits, then optionally a
/// decimal point and more digits.
pub open spec fn mantissa_end(s: Seq<u8>, b: int) -> int {
    let n = s.len() as int;
    let d = run(s, b, n, Class::Digit);
    if d < n && s[d] == DOT {
        run(s, d + 1, n, Class::Digit)
    } else {
        d
    }
}

/// Whether `s[i..]` is empty or an exponent.
pub open spec fn exponent(s: Seq<u8>, i: int) -> bool {
    let n = s.len() as int;
    let j = if i + 1 < n && (s[i + 1] == PLUS || s[i + 1] == DASH) {
        i + 2
    } else {
        i + 1
    };
    i == n || (i < n && (s[i] == 101 || s[i] == 69) && digits(s, j, n, 10))
}

/// Whether a text has the shape of a floating-point number.
pub open spec fn float_shape(s: Seq<u8>) -> bool {
    let b = past_sign(s);
    let m = mantissa_end(s, b);
    let rest = s.subrange(b, s.len() as int);
    ||| rest == ".inf".spec_bytes() || rest == ".Inf".spec_bytes() || rest == ".INF".spec_bytes()
    ||| s == ".nan".spec_bytes() || s == ".NaN".spec_bytes() || s == ".NAN".spec_bytes()
    ||| (b < s.len() && (digit(s[b]) || (s[b] == DOT && b + 1 < s.len() && digit(s[b + 1])))
        && exponent(s, m))
}

fn is_float_shape(s: &[u8]) -> (r: bool)
    ensures
        r == float_shape(s@),
{
    let b: usize = after_sign(s);
    let n: usize = s.len();
    let rest: Vec<u8> = crate::text::copy(s, b, n);
    if is_word(rest.as_slice(), ".inf") || is_word(rest.as_slice(), ".Inf") || is_word(
        rest.as_slice(),
        ".INF",
    ) || is_word(s, ".nan") || is_word(s, ".NaN") || is_word(s, ".NAN") {
        return true;
    }
    if !(b < n && (is_digit(s[b]) || (s[b] == DOT && b + 1 < n && is_digit(s[b + 1])))) {
        return false;
    }
    let d: usize = scan(s, b, n, Class::Digit);
    let m: usize = if d < n && s[d] == DOT {
        scan(s, d + 1, n, Class::Digit)
    } else {
        d
    };
    if m == n {
        return true;
    }
    let j: usize = if m + 1 < n && (s[m + 1] == PLUS || s[m + 1] == DASH) {
        m + 2
    } else {
        m + 1
    };
    (s[m] == 101 || s[m] == 69) && are_digits(s, j, n, 10)
}

/// The type a plain scalar resolves to.
pub open spec fn resolved(s: Seq<u8>) -> Plain {
    if s.len() == 0 || null_word(s) {
        Plain::Null
    } else if true_word(s) {
        Plain::Bool(true)
    } else if false_word(s) {
        Plain::Bool(false)
    } else if integer(s) is Some {
        Plain::Int(integer(s)->0)
    } else if float_shape(s) {
        Plain::Float
    } else {
        Plain::Text
    }
}

/// The type a plain scalar resolves to.
pub fn resolve_plain(s: &[u8]) -> (r: Plain)
    ensures
        r == resolved(s@),
{
    if s.len() == 0 || is_null_word(s) {
        return Plain::Null;
    }
    if is_true_word(s) {
        return Plain::Bool(true);
    }
    if is_false_word(s) {
        return Plain::Bool(false);
    }
    match integer_of(s) {
        Some(n) => Plain::Int(n),
        None => if is_float_shape(s) {
            Plain::Float
        } else {
            Plain::Text
        },
    }
}

/// Whether a text would load as a number.
pub open spec fn numeric(s: Seq<u8>) -> bool {
    &&& s.len() > 0
    &&& (s[0] == DASH || s[0] == PLUS || s[0] == DOT || digit(s[0]))
    &&& (resolved(s) is Int || resolved(s) is Float)
}

/// Whether a text would load as a number.
pub fn looks_like_number(s: &[u8]) -> (r: bool)
    ensures
        r == numeric(s@),
{
    if s.len() == 0 {
        return false;
    }
    let first: u8 = s[0];
    if !(first == DASH || first == PLUS || first == DOT || is_digit(first)) {
        return false;
    }
    match resolve_plain(s) {
        Plain::Int(_) => true,
        Plain::Float => true,
        _ => false,
    }
}

/// The bytes that cannot open a plain scalar.
pub open spec fn opening_indicator(b: u8) -> bool {
    ||| b == DASH
    ||| b == QUESTION
    ||| b == COLON
    ||| b == COMMA
    ||| b == LBRACKET
    ||| b == RBRACKET
    ||| b == LBRACE
    ||| b == RBRACE
    ||| b == HASH
    ||| b == AMP
    ||| b == STAR
    ||| b == BANG
    ||| b == PIPE
    ||| b == GREATER
    ||| b == SQUOTE
    ||| b == DQUOTE
    ||| b == PERCENT
    ||| b == AT
    ||| b == TICK
    ||| blank(b)
}

fn is_opening_indicator(b: u8) -> (r: bool)
    ensures
        r == opening_indicator(b),
{
    b == DASH || b == QUESTION || b == COLON || b == COMMA || b == LBRACKET || b == RBRACKET || b
        == LBRACE || b == RBRACE || b == HASH || b == AMP || b == STAR || b == BANG || b == PIPE
        || b == GREATER || b == SQUOTE || b == DQUOTE || b == PERCENT || b == AT || b == TICK
        || is_blank(b)
}

/// Whether `b` is a control byte.
pub open spec fn control(b: u8) -> bool {
    b < 0x20 || b == DELETE
}

/// Whether a string can be written as a plain scalar: it resolves to no other
/// type, and nothing in it ends a plain scalar or opens something else.
pub open spec fn plain_safe(s: Seq<u8>) -> bool {
    &&& s.len() > 0
    &&& !null_word(s) && !true_word(s) && !false_word(s) && !switch_word(s)
    &&& !numeric(s)
    &&& !opening_indicator(s[0])
    &&& !blank(s[s.len() - 1]) && s[s.len() - 1] != COLON
    &&& forall|i: int| 0 <= i < s.len() ==> !control(#[trigger] s[i])
    &&& forall|i: int|
        1 <= i < s.len() ==> !(#[trigger] s[i] == SPACE && s[i - 1] == COLON) && !(s[i] == HASH && s[i
            - 1] == SPACE)
}

/// Whether a string can be written as a plain scalar. Conservative: when in
/// doubt the caller quotes.
pub fn is_plain_safe(s: &[u8]) -> (r: bool)
    ensures
        r == plain_safe(s@),
{
    if s.len() == 0 {
        return false;
    }
    if is_null_word(s) || is_true_word(s) || is_false_word(s) || is_switch_word(s) {
        return false;
    }
    if looks_like_number(s) {
        return false;
    }
    if is_opening_indicator(s[0]) {
        return false;
    }
    if is_blank(s[s.len() - 1]) || s[s.len() - 1] == COLON {
        return false;
    }
    let mut i: usize = 0;
    while i < s.len()
        invariant
            i <= s@.len(),
            forall|k: int| 0 <= k < i ==> !control(#[trigger] s@[k]),
            forall|k: int|
                1 <= k < i ==> !(#[trigger] s@[k] == SPACE && s@[k - 1] == COLON) && !(s@[k] == HASH
                    && s@[k - 1] == SPACE),
        decreases s@.len() - i,
    {
        if s[i] < 0x20 || s[i] == DELETE {
            assert(control(s@[i as int]));
            return false;
        }
        if i > 0 && ((s[i] == SPACE && s[i - 1] == COLON) || (s[i] == HASH && s[i - 1] == SPACE)) {
            assert(s@[i as int] == SPACE || s@[i as int] == HASH);
            return false;
        }
        i += 1;
    }
    true
}

/// The words for infinity and not-a-number start with a full stop.
proof fn special_floats_start_with_a_dot(w: &str)
    requires
        w@ == ".inf"@ || w@ == ".Inf"@ || w@ == ".INF"@ || w@ == ".nan"@ || w@ == ".NaN"@ || w@
            == ".NAN"@,
    ensures
        w.spec_bytes().len() > 0,
        w.spec_bytes()[0] == DOT,
{
    reveal_strlit(".inf");
    reveal_strlit(".Inf");
    reveal_strlit(".INF");
    reveal_strlit(".nan");
    reveal_strlit(".NaN");
    reveal_strlit(".NAN");
    assert(vstd::utf8::is_ascii_chars(w@));
    vstd::utf8::is_ascii_chars_encode_utf8(w@);
    assert(w@[0] == '.');
}

/// Everything that resolves to a number starts like one.
proof fn numbers_start_like_numbers(s: Seq<u8>)
    requires
        s.len() > 0,
        integer(s) is Some || float_shape(s),
    ensures
        s[0] == DASH || s[0] == PLUS || s[0] == DOT || digit(s[0]),
{
    let b = past_sign(s);
    special_floats_start_with_a_dot(".inf");
    special_floats_start_with_a_dot(".Inf");
    special_floats_start_with_a_dot(".INF");
    special_floats_start_with_a_dot(".nan");
    special_floats_start_with_a_dot(".NaN");
    special_floats_start_with_a_dot(".NAN");
    if b == 0 {
        let rest = s.subrange(0, s.len() as int);
        assert(rest =~= s);
        if digits(s, 0, s.len() as int, 10) {
            assert(digit_value(s[0]) < 10);
        }
    }
}

/// A plain-safe string never resolves to anything but itself.
pub proof fn plain_safe_strings_stay_strings(s: Seq<u8>)
    requires
        plain_safe(s),
    ensures
        resolved(s) == Plain::Text,
{
    if integer(s) is Some || float_shape(s) {
        numbers_start_like_numbers(s);
    }
}

/// `s[i..]` with every single quote doubled, appended to `acc`.
pub open spec fn doubled(s: Seq<u8>, i: int, acc: Seq<u8>) -> Seq<u8>
    decreases s.len() - i,
{
    if i >= s.len() {
        acc
    } else if s[i] == SQUOTE {
        doubled(s, i + 1, acc.push(SQUOTE).push(SQUOTE))
    } else {
        doubled(s, i + 1, acc.push(s[i]))
    }
}

/// The single-quoted spelling of a string.
pub open spec fn single_quoted(s: Seq<u8>) -> Seq<u8> {
    doubled(s, 0, seq![SQUOTE]).push(SQUOTE)
}

/// The single-quoted spelling of a string.
pub fn format_single_quoted(s: &[u8]) -> (r: Vec<u8>)
    ensures
        r@ == single_quoted(s@),
{
    let mut out: Vec<u8> = Vec::new();
    out.push(SQUOTE);
    assert(out@ =~= seq![SQUOTE]);
    let mut i: usize = 0;
    while i < s.len()
        invariant
            i <= s@.len(),
            doubled(s@, i as int, out@) == doubled(s@, 0, seq![SQUOTE]),
        decreases s@.len() - i,
    {
        if s[i] == SQUOTE {
            out.push(SQUOTE);
            out.push(SQUOTE);
        } else {
            out.push(s[i]);
        }
        i += 1;
    }
    out.push(SQUOTE);
    out
}

/// The upper-case hexadecimal digit for a value below 16.
pub open spec fn hex_digit(v: int) -> u8 {
    if v < 10 {
        (48 + v) as u8
    } else {
        (55 + v) as u8
    }
}

/// The letter that escapes `b` in a double-quoted scalar, if it has one.
pub open spec fn escape_letter(b: u8) -> Option<u8> {
    if b == DQUOTE {
        Some(DQUOTE)
    } else if b == BACKSLASH {
        Some(BACKSLASH)
    } else if b == 10 {
        Some(110u8)
    } else if b == 13 {
        Some(114u8)
    } else if b == 9 {
        Some(116u8)
    } else if b == 8 {
        Some(98u8)
    } else if b == 12 {
        Some(102u8)
    } else {
        None
    }
}

fn letter_for(b: u8) -> (r: Option<u8>)
    ensures
        r == escape_letter(b),
{
    if b == DQUOTE {
        Some(DQUOTE)
    } else if b == BACKSLASH {
        Some(BACKSLASH)
    } else if b == 10 {
        Some(110)
    } else if b == 13 {
        Some(114)
    } else if b == 9 {
        Some(116)
    } else if b == 8 {
        Some(98)
    } else if b == 12 {
        Some(102)
    } else {
        None
    }
}

/// The spelling of one byte inside double quotes.
pub open spec fn escaped_byte(b: u8) -> Seq<u8> {
    if escape_letter(b) is Some {
        seq![BACKSLASH, escape_letter(b)->0]
    } else if b < 0x20 {
        seq![BACKSLASH, 117u8, ZERO, ZERO, hex_digit(b as int / 16), hex_digit(b as int % 16)]
    } else {
        seq![b]
    }
}

/// `s[i..]` as it is spelled inside double quotes, appended to `acc`.
pub open spec fn escaped(s: Seq<u8>, i: int, acc: Seq<u8>) -> Seq<u8>
    decreases s.len() - i,
{
    if i >= s.len() {
        acc
    } else {
        escaped(s, i + 1, acc + escaped_byte(s[i]))
    }
}

/// The double-quoted spelling of a string.
pub open spec fn double_quoted(s: Seq<u8>) -> Seq<u8> {
    escaped(s, 0, seq![DQUOTE]).push(DQUOTE)
}

/// The double-quoted spelling of a string.
pub fn format_double_quoted(s: &[u8]) -> (r: Vec<u8>)
    ensures
        r@ == double_quoted(s@),
{
    let mut out: Vec<u8> = Vec::new();
    out.push(DQUOTE);
    assert(out@ =~= seq![DQUOTE]);
    let mut i: usize = 0;
    while i < s.len()
        invariant
            i <= s@.len(),
            escaped(s@, i as int, out@) == escaped(s@, 0, seq![DQUOTE]),
        decreases s@.len() - i,
    {
        let ghost before = out@;
        let b: u8 = s[i];
        match letter_for(b) {
            Some(c) => {
                out.push(BACKSLASH);
                out.push(c);
            },
            None => if b < 0x20 {
                out.push(BACKSLASH);
                out.push(117);
                out.push(ZERO);
                out.push(ZERO);
                out.push(48 + b / 16);
                let low: u8 = b % 16;
                out.push(
                    if low < 10 {
                        48 + low
                    } else {
                        55 + low
                    },
                );
            } else {
                out.push(b);
            },
        }
        assert(out@ =~= before + escaped_byte(b));
        i += 1;
    }
    out.push(DQUOTE);
    out
}

/// A string without the line break that may end it.
pub open spec fn block_body(s: Seq<u8>) -> Seq<u8> {
    if s.len() > 0 && s[s.len() - 1] == NL {
        s.subrange(0, s.len() - 1)
    } else {
        s
    }
}

/// Whether a string can be written as a literal block scalar with an
/// auto-detected indent: no control characters but line breaks and tabs, at
/// most one trailing line break, and no line that starts with a blank.
pub open spec fn block_literal_safe(s: Seq<u8>) -> bool {
    let body = block_body(s);
    &&& s.len() > 0
    &&& forall|i: int| 0 <= i < s.len() ==> !control(#[trigger] s[i]) || s[i] == NL || s[i] == TAB
    &&& body.len() > 0 ==> body[body.len() - 1] != NL && !blank(body[0])
    &&& forall|i: int| 1 <= i < body.len() ==> !(body[i - 1] == NL && blank(#[trigger] body[i]))
}

/// Whether a string can be written as a literal block scalar.
pub fn can_use_block_literal(s: &[u8]) -> (r: bool)
    ensures
        r == block_literal_safe(s@),
{
    if s.len() == 0 {
        return false;
    }
    let mut i: usize = 0;
    while i < s.len()
        invariant
            i <= s@.len(),
            forall|k: int|
                0 <= k < i ==> !control(#[trigger] s@[k]) || s@[k] == NL || s@[k] == TAB,
        decreases s@.len() - i,
    {
        if (s[i] < 0x20 && s[i] != NL && s[i] != TAB) || s[i] == DELETE {
            assert(control(s@[i as int]));
            return false;
        }
        i += 1;
    }
    let n: usize = if s[s.len() - 1] == NL {
        s.len() - 1
    } else {
        s.len()
    };
    let ghost body = block_body(s@);
    assert(body =~= s@.subrange(0, n as int));
    if n == 0 {
        return true;
    }
    if s[n - 1] == NL || is_blank(s[0]) {
        return false;
    }
    let mut k: usize = 1;
    while k < n
        invariant
            1 <= k <= n <= s@.len(),
            body == s@.subrange(0, n as int),
            forall|m: int| 1 <= m < k ==> !(body[m - 1] == NL && blank(#[trigger] body[m])),
        decreases n - k,
    {
        if s[k - 1] == NL && is_blank(s[k]) {
            assert(body[k - 1] == NL && blank(body[k as int]));
            return false;
        }
        k += 1;
    }
    true
}

/// `s[i..]` with `pad` spaces after every line break, appended to `acc`.
pub open spec fn padded(s: Seq<u8>, i: int, pad: int, acc: Seq<u8>) -> Seq<u8>
    decreases s.len() - i,
{
    if i >= s.len() {
        acc
    } else if s[i] == NL {
        padded(s, i + 1, pad, acc.push(NL) + spaces(pad))
    } else {
        padded(s, i + 1, pad, acc.push(s[i]))
    }
}

/// The literal block scalar that spells a string under an entry in column
/// `column`.
pub open spec fn block_literal(s: Seq<u8>, column: int) -> Seq<u8> {
    let header = if block_body(s) == s {
        seq![PIPE, DASH, NL]
    } else {
        seq![PIPE, NL]
    };
    padded(block_body(s), 0, column + 2, header + spaces(column + 2))
}

/// Spells a string as a literal block scalar under an entry in column
/// `column`.
pub fn format_block_literal(s: &[u8], column: usize) -> (r: Vec<u8>)
    requires
        column <= usize::MAX - 2,
    ensures
        r@ == block_literal(s@, column as int),
{
    let trailing: bool = s.len() > 0 && s[s.len() - 1] == NL;
    let n: usize = if trailing {
        s.len() - 1
    } else {
        s.len()
    };
    let ghost body = block_body(s@);
    proof {
        assert(body =~= s@.subrange(0, n as int));
        assert(trailing ==> body.len() != s@.len());
    }
    let mut out: Vec<u8> = Vec::new();
    out.push(PIPE);
    if !trailing {
        out.push(DASH);
    }
    out.push(NL);
    append_spaces(&mut out, column + 2);
    let ghost first = out@;
    assert(first =~= (if body == s@ {
        seq![PIPE, DASH, NL]
    } else {
        seq![PIPE, NL]
    }) + spaces(column + 2));
    let mut i: usize = 0;
    while i < n
        invariant
            i <= n <= s@.len(),
            column <= usize::MAX - 2,
            body == s@.subrange(0, n as int),
            padded(body, i as int, column + 2, out@) == padded(body, 0, column + 2, first),
        decreases n - i,
    {
        out.push(s[i]);
        if s[i] == NL {
            append_spaces(&mut out, column + 2);
        }
        i += 1;
    }
    out
}

/// The code point of the first control character at or after `i`, tab
/// excepted, in UTF-8 text.
pub open spec fn non_printable(s: Seq<u8>, i: int) -> Option<u8>
    decreases s.len() - i,
{
    if i >= s.len() {
        None
    } else if control(s[i]) && s[i] != TAB {
        Some(s[i])
    } else if s[i] == 0xc2 && i + 1 < s.len() && 0x80 <= s[i + 1] <= 0x9f {
        Some(s[i + 1])
    } else {
        non_printable(s, i + 1)
    }
}

/// The first control character of a key, tab excepted.
pub fn first_non_printable(key: &[u8]) -> (r: Option<u8>)
    ensures
        r == non_printable(key@, 0),
{
    let mut i: usize = 0;
    while i < key.len()
        invariant
            i <= key@.len(),
            non_printable(key@, i as int) == non_printable(key@, 0),
        decreases key@.len() - i,
    {
        let b: u8 = key[i];
        if (b < 0x20 || b == DELETE) && b != TAB {
            return Some(b);
        }
        if b == 0xc2 && i + 1 < key.len() && 0x80 <= key[i + 1] && key[i + 1] <= 0x9f {
            return Some(key[i + 1]);
        }
        i += 1;
    }
    None
}

} // verus!
