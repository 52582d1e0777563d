//! Byte classes and the scanning primitives the rest of the crate is built on.
//!
//! Source text is addressed by byte offset throughout, so every function here
//! works on `Seq<u8>` in specifications and on `&[u8]` at run time.
use vstd::prelude::*;
use vstd::string::*;
use vstd::utf8::*;

verus! {

pub const NL: u8 = 10;
pub const CR: u8 = 13;
pub const TAB: u8 = 9;
pub const SPACE: u8 = 32;
pub const BANG: u8 = 33;
pub const DQUOTE: u8 = 34;
pub const HASH: u8 = 35;
pub const PERCENT: u8 = 37;
pub const AMP: u8 = 38;
pub const SQUOTE: u8 = 39;
pub const STAR: u8 = 42;
pub const PLUS: u8 = 43;
pub const COMMA: u8 = 44;
pub const DASH: u8 = 45;
pub const DOT: u8 = 46;
pub const SLASH: u8 = 47;
pub const ZERO: u8 = 48;
pub const NINE: u8 = 57;
pub const COLON: u8 = 58;
pub const LESS: u8 = 60;
pub const GREATER: u8 = 62;
pub const QUESTION: u8 = 63;
pub const AT: u8 = 64;
pub const LBRACKET: u8 = 91;
pub const BACKSLASH: u8 = 92;
pub const RBRACKET: u8 = 93;
pub const TICK: u8 = 96;
pub const LBRACE: u8 = 123;
pub const PIPE: u8 = 124;
pub const RBRACE: u8 = 125;
pub const TILDE: u8 = 126;
pub const DELETE: u8 = 127;

/// The classes of bytes that [`scan`] and [`scan_back`] run over.
#[derive(Clone, Copy, PartialEq, Eq, Structural, Debug)]
pub enum Class {
    /// Spaces.
    Space,
    /// Spaces and tabs.
    Blank,
    /// Spaces, tabs, line feeds and carriage returns.
    White,
    /// Carriage returns.
    Return,
    /// Everything but a line feed.
    Line,
    /// Everything but a line feed or a carriage return.
    Text,
    /// Everything but white space.
    Word,
    /// Everything but white space and the flow indicators.
    Name,
    /// Everything but a line break or a `+`.
    Unkept,
    /// Decimal digits.
    Digit,
    /// Everything but a closing bracket.
    Bracketed,
    /// Everything but a full stop or an opening bracket.
    Segment,
}

/// Whether `b` is a space or a tab.
pub open spec fn blank(b: u8) -> bool {
    b == SPACE || b == TAB
}

/// Whether `b` is a line feed or a carriage return.
pub open spec fn line_break(b: u8) -> bool {
    b == NL || b == CR
}

/// Whether `b` is one of the characters that structure flow collections.
pub open spec fn flow_indicator(b: u8) -> bool {
    b == COMMA || b == LBRACKET || b == RBRACKET || b == LBRACE || b == RBRACE
}

/// Whether `b` is a decimal digit.
pub open spec fn digit(b: u8) -> bool {
    ZERO <= b <= NINE
}

/// Membership in a class.
pub open spec fn in_class(b: u8, class: Class) -> bool {
    match class {
        Class::Space => b == SPACE,
        Class::Blank => blank(b),
        Class::White => blank(b) || line_break(b),
        Class::Return => b == CR,
        Class::Line => b != NL,
        Class::Text => !line_break(b),
        Class::Word => !(blank(b) || line_break(b)),
        Class::Name => !(blank(b) || line_break(b) || flow_indicator(b)),
        Class::Unkept => !(line_break(b) || b == PLUS),
        Class::Digit => digit(b),
        Class::Bracketed => b != RBRACKET,
        Class::Segment => b != DOT && b != LBRACKET,
    }
}

/// Whether `b` is a space or a tab.
pub fn is_blank(b: u8) -> (r: bool)
    ensures
        r == blank(b),
{
    b == SPACE || b == TAB
}

/// Whether `b` is a line feed or a carriage return.
pub fn is_break(b: u8) -> (r: bool)
    ensures
        r == line_break(b),
{
    b == NL || b == CR
}

/// Whether `b` is one of `, [ ] { }`.
pub fn is_flow_indicator(b: u8) -> (r: bool)
    ensures
        r == flow_indicator(b),
{
    b == COMMA || b == LBRACKET || b == RBRACKET || b == LBRACE || b == RBRACE
}

/// Whether `b` is a decimal digit.
pub fn is_digit(b: u8) -> (r: bool)
    ensures
        r == digit(b),
{
    ZERO <= b && b <= NINE
}

/// Whether `b` belongs to `class`.
pub fn is_in(b: u8, class: Class) -> (r: bool)
    ensures
        r == in_class(b, class),
{
    match class {
        Class::Space => b == SPACE,
        Class::Blank => is_blank(b),
        Class::White => is_blank(b) || is_break(b),
        Class::Return => b == CR,
        Class::Line => b != NL,
        Class::Text => !is_break(b),
        Class::Word => !(is_blank(b) || is_break(b)),
        Class::Name => !(is_blank(b) || is_break(b) || is_flow_indicator(b)),
        Class::Unkept => !(is_break(b) || b == PLUS),
        Class::Digit => is_digit(b),
        Class::Bracketed => b != RBRACKET,
        Class::Segment => b != DOT && b != LBRACKET,
    }
}

/// The first index in `i..hi` whose byte is outside `class`, or `hi`.
pub open spec fn run(s: Seq<u8>, i: int, hi: int, class: Class) -> int
    decreases hi - i,
{
    if i < hi && in_class(s[i], class) {
        run(s, i + 1, hi, class)
    } else {
        i
    }
}

/// The last index in `lo..=i` whose preceding byte is outside `class`, or `lo`.
pub open spec fn back(s: Seq<u8>, lo: int, i: int, class: Class) -> int
    decreases i - lo,
{
    if lo < i && in_class(s[i - 1], class) {
        back(s, lo, i - 1, class)
    } else {
        i
    }
}

/// A run stays inside its bounds, holds only members of its class, and stops
/// only at its bound or at a byte outside the class.
pub proof fn run_is_maximal(s: Seq<u8>, i: int, hi: int, class: Class)
    requires
        i <= hi,
    ensures
        i <= run(s, i, hi, class) <= hi,
        forall|k: int| i <= k < run(s, i, hi, class) ==> in_class(#[trigger] s[k], class),
        run(s, i, hi, class) < hi ==> !in_class(s[run(s, i, hi, class)], class),
    decreases hi - i,
{
    if i < hi && in_class(s[i], class) {
        run_is_maximal(s, i + 1, hi, class);
    }
}

/// A backward run stays inside its bounds, holds only members of its class,
/// and stops only at its bound or after a byte outside the class.
pub proof fn back_is_maximal(s: Seq<u8>, lo: int, i: int, class: Class)
    requires
        lo <= i,
    ensures
        lo <= back(s, lo, i, class) <= i,
        forall|k: int| back(s, lo, i, class) <= k < i ==> in_class(#[trigger] s[k], class),
        lo < back(s, lo, i, class) ==> !in_class(s[back(s, lo, i, class) - 1], class),
    decreases i - lo,
{
    if lo < i && in_class(s[i - 1], class) {
        back_is_maximal(s, lo, i - 1, class);
    }
}

/// Runs forward from `i` over bytes of `class`, no further than `hi`.
pub fn scan(s: &[u8], i: usize, hi: usize, class: Class) -> (r: usize)
    requires
        i <= hi <= s@.len(),
    ensures
        r == run(s@, i as int, hi as int, class),
        i <= r <= hi,
{
    let mut k: usize = i;
    while k < hi && is_in(s[k], class)
        invariant
            i <= k <= hi <= s@.len(),
            run(s@, k as int, hi as int, class) == run(s@, i as int, hi as int, class),
        decreases hi - k,
    {
        k += 1;
    }
    k
}

/// Runs backward from `i` over bytes of `class`, no further than `lo`.
pub fn scan_back(s: &[u8], lo: usize, i: usize, class: Class) -> (r: usize)
    requires
        lo <= i <= s@.len(),
    ensures
        r == back(s@, lo as int, i as int, class),
        lo <= r <= i,
{
    let mut k: usize = i;
    while lo < k && is_in(s[k - 1], class)
        invariant
            lo <= k <= i <= s@.len(),
            back(s@, lo as int, k as int, class) == back(s@, lo as int, i as int, class),
        decreases k - lo,
    {
        k -= 1;
    }
    k
}

/// Whether two byte strings are equal.
pub fn bytes_eq(a: &[u8], b: &[u8]) -> (r: bool)
    ensures
        r == (a@ == b@),
{
    if a.len() != b.len() {
        return false;
    }
    let mut i: usize = 0;
    while i < a.len()
        invariant
            i <= a@.len(),
            a@.len() == b@.len(),
            forall|k: int| 0 <= k < i ==> a@[k] == b@[k],
        decreases a@.len() - i,
    {
        if a[i] != b[i] {
            return false;
        }
        i += 1;
    }
    assert(a@ =~= b@);
    true
}

/// Whether `a[i..j]` equals `b`.
pub fn slice_is(a: &[u8], i: usize, j: usize, b: &[u8]) -> (r: bool)
    requires
        i <= j <= a@.len(),
    ensures
        r == (a@.subrange(i as int, j as int) == b@),
{
    if j - i != b.len() {
        return false;
    }
    let mut k: usize = 0;
    while k < b.len()
        invariant
            k <= b@.len(),
            i <= j <= a@.len(),
            j - i == b@.len(),
            forall|m: int| 0 <= m < k ==> a@[i + m] == b@[m],
        decreases b@.len() - k,
    {
        if a[i + k] != b[k] {
            assert(a@.subrange(i as int, j as int)[k as int] != b@[k as int]);
            return false;
        }
        k += 1;
    }
    assert(a@.subrange(i as int, j as int) =~= b@);
    true
}

/// Whether `s` is the text of `w`.
pub fn is_word(s: &[u8], w: &str) -> (r: bool)
    ensures
        r == (s@ == w.spec_bytes()),
{
    bytes_eq(s, w.as_bytes())
}

/// Appends `s[i..j]` to `out`.
pub fn append(out: &mut Vec<u8>, s: &[u8], i: usize, j: usize)
    requires
        i <= j <= s@.len(),
    ensures
        final(out)@ == old(out)@ + s@.subrange(i as int, j as int),
{
    let mut k: usize = i;
    while k < j
        invariant
            i <= k <= j <= s@.len(),
            out@ == old(out)@ + s@.subrange(i as int, k as int),
        decreases j - k,
    {
        out.push(s[k]);
        assert(s@.subrange(i as int, k + 1) =~= s@.subrange(i as int, k as int).push(s@[k as int]));
        k += 1;
    }
}

/// Appends all of `s` to `out`.
pub fn append_all(out: &mut Vec<u8>, s: &[u8])
    ensures
        final(out)@ == old(out)@ + s@,
{
    append(out, s, 0, s.len());
    assert(s@.subrange(0, s@.len() as int) =~= s@);
}

/// A run of `n` spaces.
pub open spec fn spaces(n: int) -> Seq<u8> {
    Seq::new(if n < 0 { 0 } else { n as nat }, |i: int| SPACE)
}

/// Appends `n` spaces to `out`.
pub fn append_spaces(out: &mut Vec<u8>, n: usize)
    ensures
        final(out)@ == old(out)@ + spaces(n as int),
{
    let mut k: usize = 0;
    while k < n
        invariant
            k <= n,
            out@ =~= old(out)@ + spaces(k as int),
        decreases n - k,
    {
        out.push(SPACE);
        k += 1;
    }
}

/// A copy of `s[i..j]`.
pub fn copy(s: &[u8], i: usize, j: usize) -> (r: Vec<u8>)
    requires
        i <= j <= s@.len(),
    ensures
        r@ == s@.subrange(i as int, j as int),
{
    let mut out: Vec<u8> = Vec::new();
    append(&mut out, s, i, j);
    assert(out@ =~= s@.subrange(i as int, j as int));
    out
}

/// Whether `b` occurs in `s`.
pub fn contains_byte(s: &[u8], b: u8) -> (r: bool)
    ensures
        r == s@.contains(b),
{
    let mut i: usize = 0;
    while i < s.len()
        invariant
            i <= s@.len(),
            forall|k: int| 0 <= k < i ==> s@[k] != b,
        decreases s@.len() - i,
    {
        if s[i] == b {
            assert(s@[i as int] == b);
            return true;
        }
        i += 1;
    }
    false
}

/// The error that [`String::from_utf8`] hands back.
#[verifier::external_type_specification]
#[verifier::external_body]
pub struct ExFromUtf8Error(std::string::FromUtf8Error);

/// `String::from_utf8`: succeeds exactly on valid UTF-8, and the string it
/// then returns is encoded by the bytes it was given.
pub assume_specification[ std::string::String::from_utf8 ](vec: std::vec::Vec<u8>) -> (r: Result<
    std::string::String,
    std::string::FromUtf8Error,
>)
    ensures
        r is Ok <==> valid_utf8(vec@),
        r matches Ok(s) ==> encode_utf8(s@) == vec@,
;

/// The text a byte string denotes: itself when it is valid UTF-8, nothing
/// otherwise.
pub open spec fn utf8_text(b: Seq<u8>) -> Seq<u8> {
    if valid_utf8(b) {
        b
    } else {
        Seq::empty()
    }
}

/// The string with the given bytes, empty when they are not valid UTF-8.
pub fn string_of(b: Vec<u8>) -> (r: String)
    ensures
        encode_utf8(r@) == utf8_text(b@),
{
    match String::from_utf8(b) {
        Ok(s) => s,
        Err(_) => String::new(),
    }
}

/// A string of ASCII bytes is valid text.
pub proof fn ascii_is_text(b: Seq<u8>)
    requires
        forall|i: int| 0 <= i < b.len() ==> #[trigger] b[i] < 128,
    ensures
        valid_utf8(b),
{
    assert(b.subrange(0, 0) =~= Seq::empty());
    assert(partial_valid_utf8(b, 0));
    assert forall|i: int| 0 <= i < b.len() implies #[trigger] is_leading_byte_width_1(b[i]) by {
        let x = b[i];
        assert(x < 128);
    }
    partial_valid_utf8_extend_ascii_block(b, 0, b.len() as int);
    assert(partial_valid_utf8(b, b.len() as int));
    assert(b.subrange(0, b.len() as int) =~= b);
}

} // verus!
