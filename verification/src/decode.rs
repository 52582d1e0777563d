//! The text that quoted, multi-line and block scalars denote.
use crate::scalar::{digit_value, digits, escape_letter, escaped, escaped_byte, magnitude};
use crate::scalar::{doubled, value_of_digit};
use crate::text::{
    append, blank, digit, is_blank, is_digit, line_break, run, scan, Class, BACKSLASH, CR, DASH,
    DQUOTE, GREATER, NL, PLUS, SPACE, SQUOTE, TAB,
};
use vstd::prelude::*;

verus! {

/// Offset just past the quote that closes a single-quoted scalar whose
/// content is read from `i` on.
pub open spec fn single_end(s: Seq<u8>, i: int) -> Option<int>
    decreases s.len() - i,
{
    if i >= s.len() {
        None
    } else if s[i] != SQUOTE {
        single_end(s, i + 1)
    } else if i + 1 < s.len() && s[i + 1] == SQUOTE {
        single_end(s, i + 2)
    } else {
        Some(i + 1)
    }
}

/// Offset just past the quote that closes a double-quoted scalar whose
/// content is read from `i` on.
pub open spec fn double_end(s: Seq<u8>, i: int) -> Option<int>
    decreases s.len() - i,
{
    if i >= s.len() {
        None
    } else if s[i] == BACKSLASH {
        if i + 1 < s.len() {
            double_end(s, i + 2)
        } else {
            None
        }
    } else if s[i] == DQUOTE {
        Some(i + 1)
    } else {
        double_end(s, i + 1)
    }
}

/// Finds the end of a single-quoted scalar.
pub fn find_single_end(s: &[u8], i: usize) -> (r: Option<usize>)
    requires
        i <= s@.len(),
    ensures
        match single_end(s@, i as int) {
            Some(e) => r == Some(e as usize) && i < e <= s@.len(),
            None => r is None,
        },
{
    let mut k: usize = i;
    while k < s.len()
        invariant
            i <= k <= s@.len(),
            single_end(s@, k as int) == single_end(s@, i as int),
        decreases s@.len() - k,
    {
        if s[k] == SQUOTE {
            if k + 1 < s.len() && s[k + 1] == SQUOTE {
                k += 2;
            } else {
                return Some(k + 1);
            }
        } else {
            k += 1;
        }
    }
    None
}

/// Finds the end of a double-quoted scalar.
pub fn find_double_end(s: &[u8], i: usize) -> (r: Option<usize>)
    requires
        i <= s@.len(),
    ensures
        match double_end(s@, i as int) {
            Some(e) => r == Some(e as usize) && i < e <= s@.len(),
            None => r is None,
        },
{
    let mut k: usize = i;
    while k < s.len()
        invariant
            i <= k <= s@.len(),
            double_end(s@, k as int) == double_end(s@, i as int),
        decreases s@.len() - k,
    {
        if s[k] == BACKSLASH {
            if k + 1 >= s.len() {
                return None;
            }
            k += 2;
        } else if s[k] == DQUOTE {
            return Some(k + 1);
        } else {
            k += 1;
        }
    }
    None
}

/// Number of line feeds in `s[i..j]`.
pub open spec fn breaks(s: Seq<u8>, i: int, j: int) -> int
    decreases j - i,
{
    if i >= j {
        0
    } else {
        breaks(s, i + 1, j) + if s[i] == NL {
            1int
        } else {
            0int
        }
    }
}

/// A run of `n` line feeds.
pub open spec fn feeds(n: int) -> Seq<u8> {
    Seq::new(if n < 0 { 0 } else { n as nat }, |i: int| NL)
}

fn append_feeds(out: &mut Vec<u8>, n: usize)
    ensures
        final(out)@ == old(out)@ + feeds(n as int),
{
    let mut k: usize = 0;
    while k < n
        invariant
            k <= n,
            out@ =~= old(out)@ + feeds(k as int),
        decreases n - k,
    {
        out.push(NL);
        k += 1;
    }
}

/// What the white space `s[i..j]` inside a flow scalar denotes: itself when
/// it holds no line break, otherwise a space or the blank lines it contains.
pub open spec fn folded(s: Seq<u8>, i: int, j: int) -> Seq<u8> {
    let n = breaks(s, i, j);
    if n == 0 {
        s.subrange(i, j)
    } else if n == 1 {
        seq![SPACE]
    } else {
        feeds(n - 1)
    }
}

fn count_breaks(s: &[u8], i: usize, j: usize) -> (r: usize)
    requires
        i <= j <= s@.len(),
    ensures
        r == breaks(s@, i as int, j as int),
        r <= j - i,
{
    let mut k: usize = j;
    let mut n: usize = 0;
    while k > i
        invariant
            i <= k <= j <= s@.len(),
            n == breaks(s@, k as int, j as int),
            n <= j - k,
        decreases k,
    {
        k -= 1;
        if s[k] == NL {
            n += 1;
        }
    }
    n
}

fn append_folded(out: &mut Vec<u8>, s: &[u8], i: usize, j: usize)
    requires
        i <= j <= s@.len(),
    ensures
        final(out)@ == old(out)@ + folded(s@, i as int, j as int),
{
    let n: usize = count_breaks(s, i, j);
    if n == 0 {
        append(out, s, i, j);
    } else if n == 1 {
        out.push(SPACE);
        assert(out@ =~= old(out)@ + seq![SPACE]);
    } else {
        append_feeds(out, n - 1);
    }
}

/// The text a plain scalar `s[i..hi]` denotes, appended to `acc`.
pub open spec fn plain_text(s: Seq<u8>, i: int, hi: int, acc: Seq<u8>) -> Seq<u8>
    decreases hi - i,
{
    let q = run(s, i, hi, Class::White);
    if i >= hi {
        acc
    } else if i < q <= hi {
        plain_text(s, q, hi, acc + folded(s, i, q))
    } else {
        plain_text(s, i + 1, hi, acc.push(s[i]))
    }
}

/// The text a plain scalar denotes.
pub fn decode_plain(s: &[u8], lo: usize, hi: usize) -> (r: Vec<u8>)
    requires
        lo <= hi <= s@.len(),
    ensures
        r@ == plain_text(s@, lo as int, hi as int, Seq::empty()),
{
    let mut out: Vec<u8> = Vec::new();
    let mut i: usize = lo;
    while i < hi
        invariant
            lo <= i <= hi <= s@.len(),
            plain_text(s@, i as int, hi as int, out@) == plain_text(
                s@,
                lo as int,
                hi as int,
                Seq::empty(),
            ),
        decreases hi - i,
    {
        let q: usize = scan(s, i, hi, Class::White);
        if q > i {
            append_folded(&mut out, s, i, q);
            i = q;
        } else {
            out.push(s[i]);
            i += 1;
        }
    }
    out
}

/// The text that the content `s[i..hi]` of a single-quoted scalar denotes,
/// appended to `acc`.
pub open spec fn single_text(s: Seq<u8>, i: int, hi: int, acc: Seq<u8>) -> Seq<u8>
    decreases hi - i,
{
    let q = run(s, i, hi, Class::White);
    if i >= hi {
        acc
    } else if i < q <= hi {
        single_text(s, q, hi, acc + folded(s, i, q))
    } else if s[i] == SQUOTE && i + 1 < hi {
        single_text(s, i + 2, hi, acc.push(SQUOTE))
    } else {
        single_text(s, i + 1, hi, acc.push(s[i]))
    }
}

/// The text a single-quoted scalar's content denotes.
pub fn decode_single(s: &[u8], lo: usize, hi: usize) -> (r: Vec<u8>)
    requires
        lo <= hi <= s@.len(),
    ensures
        r@ == single_text(s@, lo as int, hi as int, Seq::empty()),
{
    let mut out: Vec<u8> = Vec::new();
    let mut i: usize = lo;
    while i < hi
        invariant
            lo <= i <= hi <= s@.len(),
            single_text(s@, i as int, hi as int, out@) == single_text(
                s@,
                lo as int,
                hi as int,
                Seq::empty(),
            ),
        decreases hi - i,
    {
        let q: usize = scan(s, i, hi, Class::White);
        if q > i {
            append_folded(&mut out, s, i, q);
            i = q;
        } else if s[i] == SQUOTE && i + 1 < hi {
            out.push(SQUOTE);
            i += 2;
        } else {
            out.push(s[i]);
            i += 1;
        }
    }
    out
}

/// `s[i..hi]` with every doubled single quote undoubled, appended to `acc`.
pub open spec fn undoubled(s: Seq<u8>, i: int, hi: int, acc: Seq<u8>) -> Seq<u8>
    decreases hi - i,
{
    if i >= hi {
        acc
    } else if s[i] == SQUOTE && i + 1 < hi && s[i + 1] == SQUOTE {
        undoubled(s, i + 2, hi, acc.push(SQUOTE))
    } else {
        undoubled(s, i + 1, hi, acc.push(s[i]))
    }
}

/// The string a one-line single-quoted spelling denotes.
pub open spec fn single_unquoted(raw: Seq<u8>) -> Option<Seq<u8>> {
    if raw.len() >= 2 && raw[0] == SQUOTE && raw[raw.len() - 1] == SQUOTE {
        Some(undoubled(raw, 1, raw.len() - 1, Seq::empty()))
    } else {
        None
    }
}

/// Strips the quotes of a single-quoted spelling and undoubles the quotes
/// inside it.
pub fn decode_single_quoted(raw: &[u8]) -> (r: Option<Vec<u8>>)
    ensures
        match single_unquoted(raw@) {
            Some(t) => r is Some && r->0@ == t,
            None => r is None,
        },
{
    if raw.len() < 2 || raw[0] != SQUOTE || raw[raw.len() - 1] != SQUOTE {
        return None;
    }
    let hi: usize = raw.len() - 1;
    let mut out: Vec<u8> = Vec::new();
    let mut i: usize = 1;
    while i < hi
        invariant
            1 <= i <= hi < raw@.len(),
            undoubled(raw@, i as int, hi as int, out@) == undoubled(
                raw@,
                1,
                hi as int,
                Seq::empty(),
            ),
        decreases hi - i,
    {
        if raw[i] == SQUOTE && i + 1 < hi && raw[i + 1] == SQUOTE {
            out.push(SQUOTE);
            i += 2;
        } else {
            out.push(raw[i]);
            i += 1;
        }
    }
    Some(out)
}

/// The UTF-8 encoding of a code point.
pub open spec fn encoded(c: int) -> Seq<u8> {
    if c < 0x80 {
        seq![c as u8]
    } else if c < 0x800 {
        seq![(0xc0 + c / 64) as u8, (0x80 + c % 64) as u8]
    } else if c < 0x10000 {
        seq![(0xe0 + c / 4096) as u8, (0x80 + c / 64 % 64) as u8, (0x80 + c % 64) as u8]
    } else {
        seq![
            (0xf0 + c / 262144) as u8,
            (0x80 + c / 4096 % 64) as u8,
            (0x80 + c / 64 % 64) as u8,
            (0x80 + c % 64) as u8,
        ]
    }
}

/// Whether a number is a Unicode scalar value.
pub open spec fn scalar_value(c: int) -> bool {
    0 <= c < 0xd800 || 0xe000 <= c < 0x110000
}

/// The code point that a letter after a backslash stands for.
pub open spec fn named_escape(b: u8) -> Option<u32> {
    if b == 48 {
        Some(0u32)
    } else if b == 97 {
        Some(7u32)
    } else if b == 98 {
        Some(8u32)
    } else if b == 116 || b == TAB {
        Some(9u32)
    } else if b == 110 {
        Some(10u32)
    } else if b == 118 {
        Some(11u32)
    } else if b == 102 {
        Some(12u32)
    } else if b == 114 {
        Some(13u32)
    } else if b == 101 {
        Some(27u32)
    } else if b == SPACE || b == DQUOTE || b == 47 || b == BACKSLASH {
        Some(b as u32)
    } else if b == 78 {
        Some(0x85u32)
    } else if b == 95 {
        Some(0xa0u32)
    } else if b == 76 {
        Some(0x2028u32)
    } else if b == 80 {
        Some(0x2029u32)
    } else {
        None
    }
}

fn named_escape_of(b: u8) -> (r: Option<u32>)
    ensures
        r == named_escape(b),
{
    if b == 48 {
        Some(0)
    } else if b == 97 {
        Some(7)
    } else if b == 98 {
        Some(8)
    } else if b == 116 || b == TAB {
        Some(9)
    } else if b == 110 {
        Some(10)
    } else if b == 118 {
        Some(11)
    } else if b == 102 {
        Some(12)
    } else if b == 114 {
        Some(13)
    } else if b == 101 {
        Some(27)
    } else if b == SPACE || b == DQUOTE || b == 47 || b == BACKSLASH {
        Some(b as u32)
    } else if b == 78 {
        Some(0x85)
    } else if b == 95 {
        Some(0xa0)
    } else if b == 76 {
        Some(0x2028)
    } else if b == 80 {
        Some(0x2029)
    } else {
        None
    }
}

/// How many hexadecimal digits follow a letter after a backslash.
pub open spec fn hex_width(b: u8) -> int {
    if b == 120 {
        2
    } else if b == 117 {
        4
    } else if b == 85 {
        8
    } else {
        0
    }
}

fn append_encoded(out: &mut Vec<u8>, c: u32)
    requires
        scalar_value(c as int),
    ensures
        final(out)@ == old(out)@ + encoded(c as int),
{
    if c < 0x80 {
        out.push(c as u8);
    } else if c < 0x800 {
        out.push((0xc0 + c / 64) as u8);
        out.push((0x80 + c % 64) as u8);
    } else if c < 0x10000 {
        out.push((0xe0 + c / 4096) as u8);
        out.push((0x80 + c / 64 % 64) as u8);
        out.push((0x80 + c % 64) as u8);
    } else {
        out.push((0xf0 + c / 262144) as u8);
        out.push((0x80 + c / 4096 % 64) as u8);
        out.push((0x80 + c / 64 % 64) as u8);
        out.push((0x80 + c % 64) as u8);
    }
    assert(out@ =~= old(out)@ + encoded(c as int));
}

/// Reads `w` hexadecimal digits at `i`.
fn read_hex(s: &[u8], i: usize, w: usize) -> (r: Option<u32>)
    requires
        i + w <= s@.len(),
        1 <= w <= 8,
    ensures
        match r {
            Some(c) => digits(s@, i as int, i + w, 16) && c == magnitude(s@, i as int, i + w, 16),
            None => !digits(s@, i as int, i + w, 16),
        },
{
    let len: usize = s.len();
    let mut k: usize = 0;
    let mut n: u64 = 0;
    while k < w
        invariant
            k <= w <= 8,
            i + w <= len == s@.len(),
            n == magnitude(s@, i as int, i + k, 16),
            k == 0 ==> n < 1,
            k == 1 ==> n < 0x10,
            k == 2 ==> n < 0x100,
            k == 3 ==> n < 0x1000,
            k == 4 ==> n < 0x1_0000,
            k == 5 ==> n < 0x10_0000,
            k == 6 ==> n < 0x100_0000,
            k == 7 ==> n < 0x1000_0000,
            k == 8 ==> n < 0x1_0000_0000,
            forall|m: int| i <= m < i + k ==> digit_value(#[trigger] s@[m]) < 16,
        decreases w - k,
    {
        let d: u8 = value_of_digit(s[i + k]);
        if d >= 16 {
            return None;
        }
        n = n * 16 + (d as u64);
        k += 1;
    }
    Some(n as u32)
}

/// The text that the content `s[i..hi]` of a double-quoted scalar denotes,
/// appended to `acc`; `None` when it holds an escape that stands for nothing.
pub open spec fn double_text(s: Seq<u8>, i: int, hi: int, acc: Seq<u8>) -> Option<Seq<u8>>
    decreases hi - i,
{
    let q = run(s, i, hi, Class::White);
    if i >= hi {
        Some(acc)
    } else if i < q <= hi {
        double_text(s, q, hi, acc + folded(s, i, q))
    } else if s[i] != BACKSLASH {
        double_text(s, i + 1, hi, acc.push(s[i]))
    } else if i + 1 >= hi {
        None
    } else {
        let c = s[i + 1];
        let w = hex_width(c);
        if line_break(c) {
            let f = run(s, i + 1, hi, Class::Return);
            let g = if f < hi && s[f] == NL {
                run(s, f + 1, hi, Class::Blank)
            } else {
                run(s, f, hi, Class::Blank)
            };
            if i < g <= hi {
                double_text(s, g, hi, acc)
            } else {
                None
            }
        } else if named_escape(c) is Some {
            double_text(s, i + 2, hi, acc + encoded(named_escape(c)->0 as int))
        } else if w > 0 && i + 2 + w <= hi && digits(s, i + 2, i + 2 + w, 16) && scalar_value(
            magnitude(s, i + 2, i + 2 + w, 16),
        ) {
            double_text(s, i + 2 + w, hi, acc + encoded(magnitude(s, i + 2, i + 2 + w, 16)))
        } else {
            None
        }
    }
}

/// The text a double-quoted scalar's content denotes.
pub fn decode_double(s: &[u8], lo: usize, hi: usize) -> (r: Option<Vec<u8>>)
    requires
        lo <= hi <= s@.len(),
    ensures
        match double_text(s@, lo as int, hi as int, Seq::empty()) {
            Some(t) => r is Some && r->0@ == t,
            None => r is None,
        },
{
    let mut out: Vec<u8> = Vec::new();
    let mut i: usize = lo;
    while i < hi
        invariant
            lo <= i <= hi <= s@.len(),
            double_text(s@, i as int, hi as int, out@) == double_text(
                s@,
                lo as int,
                hi as int,
                Seq::empty(),
            ),
        decreases hi - i,
    {
        let q: usize = scan(s, i, hi, Class::White);
        if q > i {
            append_folded(&mut out, s, i, q);
            i = q;
        } else if s[i] != BACKSLASH {
            out.push(s[i]);
            i += 1;
        } else if i + 1 >= hi {
            return None;
        } else {
            let c: u8 = s[i + 1];
            if c == NL || c == CR {
                let f: usize = scan(s, i + 1, hi, Class::Return);
                i = if f < hi && s[f] == NL {
                    scan(s, f + 1, hi, Class::Blank)
                } else {
                    scan(s, f, hi, Class::Blank)
                };
            } else if let Some(code) = named_escape_of(c) {
                append_encoded(&mut out, code);
                i += 2;
            } else {
                let w: usize = if c == 120 {
                    2
                } else if c == 117 {
                    4
                } else if c == 85 {
                    8
                } else {
                    0
                };
                if w == 0 || w > hi - i - 2 {
                    return None;
                }
                match read_hex(s, i + 2, w) {
                    Some(code) => {
                        if (0xd800 <= code && code < 0xe000) || code >= 0x110000 {
                            return None;
                        }
                        append_encoded(&mut out, code);
                        i += 2 + w;
                    },
                    None => {
                        return None;
                    },
                }
            }
        }
    }
    Some(out)
}

/// The indentation of the first line in `s[i..hi]` that is not blank.
pub open spec fn first_indent(s: Seq<u8>, i: int, hi: int) -> int
    decreases hi - i,
{
    let e = run(s, i, hi, Class::Line);
    let k = run(s, i, e, Class::Space);
    if i >= hi {
        0
    } else if k < e && s[k] != CR {
        k - i
    } else if i <= e < hi {
        first_indent(s, e + 1, hi)
    } else {
        0
    }
}

/// The indentation of the first line that is not blank.
pub fn first_indent_of(s: &[u8], lo: usize, hi: usize) -> (r: usize)
    requires
        lo <= hi <= s@.len(),
    ensures
        r == first_indent(s@, lo as int, hi as int),
        r <= hi,
{
    let mut i: usize = lo;
    while i < hi
        invariant
            lo <= i <= hi <= s@.len(),
            first_indent(s@, i as int, hi as int) == first_indent(s@, lo as int, hi as int),
        decreases hi - i,
    {
        let e: usize = scan(s, i, hi, Class::Line);
        let k: usize = scan(s, i, e, Class::Space);
        if k < e && s[k] != CR {
            return k - i;
        }
        if e >= hi {
            return 0;
        }
        i = e + 1;
    }
    0
}

/// How the previous line of a block scalar affects the break after it.
#[derive(Clone, Copy, PartialEq, Eq, Structural, Debug)]
pub enum Joint {
    /// There was no content line yet.
    Open,
    /// An ordinary line, which folds with another ordinary line.
    Text,
    /// A line whose breaks are kept.
    Kept,
}

/// What separates two content lines of a block scalar with `pending` line
/// breaks between them.
pub open spec fn separator(before: Joint, after: Joint, pending: int) -> Seq<u8> {
    if before == Joint::Text && after == Joint::Text {
        if pending <= 1 {
            seq![SPACE]
        } else {
            feeds(pending - 1)
        }
    } else {
        feeds(pending)
    }
}

/// The content lines `s[i..hi]` of a block scalar indented by `indent`,
/// joined onto `acc`: the text so far, the last line's joint and the line
/// breaks since.
pub open spec fn block_lines(
    s: Seq<u8>,
    i: int,
    hi: int,
    indent: int,
    literal: bool,
    joint: Joint,
    pending: int,
    acc: Seq<u8>,
) -> (Seq<u8>, Joint, int)
    decreases hi - i,
{
    let e = run(s, i, hi, Class::Line);
    let t = if i < e && s[e - 1] == CR {
        e - 1
    } else {
        e
    };
    let k = run(s, i, t, Class::Space);
    let next = if e < hi {
        e + 1
    } else {
        e
    };
    let broken = if e < hi {
        1int
    } else {
        0int
    };
    if i >= hi || next <= i || next > hi {
        (acc, joint, pending)
    } else if k >= t && t - i <= indent {
        block_lines(s, next, hi, indent, literal, joint, pending + broken, acc)
    } else {
        let from = if i + indent <= t {
            i + indent
        } else {
            t
        };
        let now = if literal || (from < t && blank(s[from])) {
            Joint::Kept
        } else {
            Joint::Text
        };
        block_lines(
            s,
            next,
            hi,
            indent,
            literal,
            now,
            broken,
            acc + separator(joint, now, pending) + s.subrange(from, t),
        )
    }
}

/// How a block scalar treats the line breaks that end it.
#[derive(Clone, Copy, PartialEq, Eq, Structural, Debug)]
pub enum Chomp {
    Strip,
    Clip,
    Keep,
}

/// The chomping that the indicators `s[i..h]` of a block scalar ask for.
pub open spec fn chomping(s: Seq<u8>, i: int, h: int) -> Chomp
    decreases h - i,
{
    if i >= h {
        Chomp::Clip
    } else if s[i] == PLUS {
        Chomp::Keep
    } else if s[i] == DASH {
        Chomp::Strip
    } else {
        chomping(s, i + 1, h)
    }
}

/// The indentation that the indicators `s[i..h]` of a block scalar ask for.
pub open spec fn asked_indent(s: Seq<u8>, i: int, h: int) -> Option<int>
    decreases h - i,
{
    if i >= h {
        None
    } else if digit(s[i]) {
        Some(s[i] - 48)
    } else {
        asked_indent(s, i + 1, h)
    }
}

/// Reads the chomping indicator of a block scalar header.
pub fn chomping_of(s: &[u8], lo: usize, h: usize) -> (r: Chomp)
    requires
        lo <= h <= s@.len(),
    ensures
        r == chomping(s@, lo as int, h as int),
{
    let mut i: usize = lo;
    while i < h
        invariant
            lo <= i <= h <= s@.len(),
            chomping(s@, i as int, h as int) == chomping(s@, lo as int, h as int),
        decreases h - i,
    {
        if s[i] == PLUS {
            return Chomp::Keep;
        }
        if s[i] == DASH {
            return Chomp::Strip;
        }
        i += 1;
    }
    Chomp::Clip
}

/// Reads the indentation indicator of a block scalar header.
pub fn asked_indent_of(s: &[u8], lo: usize, h: usize) -> (r: Option<usize>)
    requires
        lo <= h <= s@.len(),
    ensures
        match asked_indent(s@, lo as int, h as int) {
            Some(d) => r == Some(d as usize) && 0 <= d <= 9,
            None => r is None,
        },
{
    let mut i: usize = lo;
    while i < h
        invariant
            lo <= i <= h <= s@.len(),
            asked_indent(s@, i as int, h as int) == asked_indent(s@, lo as int, h as int),
        decreases h - i,
    {
        if is_digit(s[i]) {
            return Some((s[i] - 48) as usize);
        }
        i += 1;
    }
    None
}

/// Column that an explicit block-scalar indent at `pos` counts from: that of
/// the last `-` before `pos` on its line, or of the key that follows the
/// dashes.
pub open spec fn indent_base(s: Seq<u8>, line: int, i: int, pos: int, base: int) -> int
    decreases pos - i,
{
    let k = run(s, i, pos, Class::Blank);
    if i > pos || k >= pos {
        base
    } else if s[k] == DASH && k + 1 < pos && blank(s[k + 1]) && i <= k {
        indent_base(s, line, k + 1, pos, k - line)
    } else {
        k - line
    }
}

/// Column that an explicit block-scalar indent at `pos` counts from.
pub fn indent_base_of(s: &[u8], line: usize, pos: usize) -> (r: usize)
    requires
        line <= pos <= s@.len(),
    ensures
        r == indent_base(s@, line as int, line as int, pos as int, 0),
        r <= s@.len(),
{
    let mut i: usize = line;
    let mut base: usize = 0;
    loop
        invariant
            line <= i <= pos <= s@.len(),
            base <= s@.len(),
            indent_base(s@, line as int, i as int, pos as int, base as int) == indent_base(
                s@,
                line as int,
                line as int,
                pos as int,
                0,
            ),
        decreases pos - i,
    {
        let k: usize = scan(s, i, pos, Class::Blank);
        if k >= pos {
            return base;
        }
        if s[k] == DASH && k + 1 < pos && is_blank(s[k + 1]) {
            base = k - line;
            i = k + 1;
        } else {
            return k - line;
        }
    }
}

/// Where the content of the block scalar headed at `lo` starts.
pub open spec fn block_start(s: Seq<u8>, lo: int, hi: int) -> int {
    let e = run(s, lo, hi, Class::Line);
    if e < hi {
        e + 1
    } else {
        hi
    }
}

/// The indentation of the content of the block scalar `s[lo..hi]`.
pub open spec fn block_indent(s: Seq<u8>, lo: int, hi: int) -> int {
    let h = run(s, lo + 1, hi, Class::Word);
    match asked_indent(s, lo + 1, h) {
        Some(d) => d + indent_base(
            s,
            crate::lines::line_start(s, lo),
            crate::lines::line_start(s, lo),
            lo,
            0,
        ),
        None => first_indent(s, block_start(s, lo, hi), hi),
    }
}

/// The text that the block scalar `s[lo..hi]` denotes.
pub open spec fn block_text(s: Seq<u8>, lo: int, hi: int) -> Seq<u8> {
    let h = run(s, lo + 1, hi, Class::Word);
    let (text, joint, pending) = block_lines(
        s,
        block_start(s, lo, hi),
        hi,
        block_indent(s, lo, hi),
        s[lo] != GREATER,
        Joint::Open,
        0,
        Seq::empty(),
    );
    match chomping(s, lo + 1, h) {
        Chomp::Strip => text,
        Chomp::Keep => text + feeds(pending),
        Chomp::Clip => if joint == Joint::Open {
            text
        } else {
            text.push(NL)
        },
    }
}

/// Finds the indentation of a block scalar's content.
pub fn block_indent_of(s: &[u8], lo: usize, hi: usize) -> (r: usize)
    requires
        lo < hi <= s@.len(),
        s@.len() <= usize::MAX - 9,
    ensures
        r == block_indent(s@, lo as int, hi as int),
        r <= s@.len() + 9,
{
    let h: usize = scan(s, lo + 1, hi, Class::Word);
    match asked_indent_of(s, lo + 1, h) {
        Some(d) => {
            let line: usize = crate::lines::start_of_line(s, lo);
            let base: usize = indent_base_of(s, line, lo);
            d + base
        },
        None => {
            let e: usize = scan(s, lo, hi, Class::Line);
            let start: usize = if e < hi {
                e + 1
            } else {
                hi
            };
            first_indent_of(s, start, hi)
        },
    }
}

/// The text a block scalar denotes.
pub fn decode_block(s: &[u8], lo: usize, hi: usize) -> (r: Vec<u8>)
    requires
        lo < hi <= s@.len(),
        s@.len() <= usize::MAX - 9,
    ensures
        r@ == block_text(s@, lo as int, hi as int),
{
    let indent: usize = block_indent_of(s, lo, hi);
    let h: usize = scan(s, lo + 1, hi, Class::Word);
    let chomp: Chomp = chomping_of(s, lo + 1, h);
    let literal: bool = s[lo] != GREATER;
    let e0: usize = scan(s, lo, hi, Class::Line);
    let start: usize = if e0 < hi {
        e0 + 1
    } else {
        hi
    };
    let mut out: Vec<u8> = Vec::new();
    let mut joint: Joint = Joint::Open;
    let mut pending: usize = 0;
    let mut i: usize = start;
    while i < hi
        invariant
            start <= i <= hi <= s@.len(),
            pending <= i,
            block_lines(
                s@,
                i as int,
                hi as int,
                indent as int,
                literal,
                joint,
                pending as int,
                out@,
            ) == block_lines(
                s@,
                start as int,
                hi as int,
                indent as int,
                literal,
                Joint::Open,
                0,
                Seq::empty(),
            ),
        decreases hi - i,
    {
        let e: usize = scan(s, i, hi, Class::Line);
        let t: usize = if i < e && s[e - 1] == CR {
            e - 1
        } else {
            e
        };
        let k: usize = scan(s, i, t, Class::Space);
        let broken: usize = if e < hi {
            1
        } else {
            0
        };
        let next: usize = if e < hi {
            e + 1
        } else {
            e
        };
        assert(next > i);
        if k >= t && t - i <= indent {
            pending += broken;
        } else {
            let from: usize = if indent <= t - i {
                i + indent
            } else {
                t
            };
            let now: Joint = if literal || (from < t && is_blank(s[from])) {
                Joint::Kept
            } else {
                Joint::Text
            };
            let ghost before = out@;
            if joint == Joint::Text && now == Joint::Text {
                if pending <= 1 {
                    out.push(SPACE);
                } else {
                    append_feeds(&mut out, pending - 1);
                }
            } else {
                append_feeds(&mut out, pending);
            }
            assert(out@ =~= before + separator(joint, now, pending as int));
            append(&mut out, s, from, t);
            joint = now;
            pending = broken;
        }
        i = next;
    }
    match chomp {
        Chomp::Strip => {},
        Chomp::Keep => {
            append_feeds(&mut out, pending);
        },
        Chomp::Clip => {
            if joint != Joint::Open {
                out.push(NL);
            }
        },
    }
    out
}

/// What is doubled is appended to what is there.
pub proof fn doubled_appends(s: Seq<u8>, i: int, acc: Seq<u8>)
    requires
        0 <= i <= s.len(),
    ensures
        doubled(s, i, acc) == acc + doubled(s, i, Seq::empty()),
    decreases s.len() - i,
{
    if i < s.len() {
        let step = if s[i] == SQUOTE {
            seq![SQUOTE, SQUOTE]
        } else {
            seq![s[i]]
        };
        doubled_appends(s, i + 1, acc + step);
        doubled_appends(s, i + 1, step);
        assert(acc.push(SQUOTE).push(SQUOTE) =~= acc + seq![SQUOTE, SQUOTE]);
        assert(acc.push(s[i]) =~= acc + seq![s[i]]);
        assert(Seq::<u8>::empty().push(SQUOTE).push(SQUOTE) =~= seq![SQUOTE, SQUOTE]);
        assert(Seq::<u8>::empty().push(s[i]) =~= seq![s[i]]);
        assert((acc + step) + doubled(s, i + 1, Seq::empty()) =~= acc + (step + doubled(
            s,
            i + 1,
            Seq::empty(),
        )));
    } else {
        assert(acc + Seq::<u8>::empty() =~= acc);
    }
}

proof fn undoubling_reverses_doubling(
    s: Seq<u8>,
    i: int,
    raw: Seq<u8>,
    k: int,
    hi: int,
    acc: Seq<u8>,
)
    requires
        0 <= i <= s.len(),
        0 <= k <= hi <= raw.len(),
        raw.subrange(k, hi) == doubled(s, i, Seq::empty()),
    ensures
        undoubled(raw, k, hi, acc) == acc + s.subrange(i, s.len() as int),
    decreases s.len() - i,
{
    let part = raw.subrange(k, hi);
    if i < s.len() {
        let rest = doubled(s, i + 1, Seq::empty());
        if s[i] == SQUOTE {
            doubled_appends(s, i + 1, Seq::<u8>::empty().push(SQUOTE).push(SQUOTE));
            assert(part == Seq::<u8>::empty().push(SQUOTE).push(SQUOTE) + rest);
            assert(part.len() == hi - k);
            assert(part[0] == SQUOTE && part[1] == SQUOTE);
            assert(raw[k] == part[0] && raw[k + 1] == part[1]);
            assert(raw.subrange(k + 2, hi) =~= rest) by {
                assert(part.subrange(2, part.len() as int) =~= rest);
            }
            undoubling_reverses_doubling(s, i + 1, raw, k + 2, hi, acc.push(SQUOTE));
        } else {
            doubled_appends(s, i + 1, Seq::<u8>::empty().push(s[i]));
            assert(part == Seq::<u8>::empty().push(s[i]) + rest);
            assert(part.len() == hi - k);
            assert(part[0] == s[i]);
            assert(raw[k] == part[0]);
            assert(raw.subrange(k + 1, hi) =~= rest) by {
                assert(part.subrange(1, part.len() as int) =~= rest);
            }
            undoubling_reverses_doubling(s, i + 1, raw, k + 1, hi, acc.push(s[i]));
        }
        assert(acc.push(s[i]) + s.subrange(i + 1, s.len() as int) =~= acc + s.subrange(
            i,
            s.len() as int,
        ));
    } else {
        assert(part.len() == 0);
        assert(acc + s.subrange(i, s.len() as int) =~= acc);
    }
}

/// Reading back the single-quoted spelling of a string gives the string.
pub proof fn single_quoting_round_trips(s: Seq<u8>)
    ensures
        single_unquoted(crate::scalar::single_quoted(s)) == Some(s),
{
    let raw = crate::scalar::single_quoted(s);
    let hi = raw.len() - 1;
    doubled_appends(s, 0, seq![SQUOTE]);
    assert(raw[0] == SQUOTE);
    assert(raw.subrange(1, hi) =~= doubled(s, 0, Seq::empty()));
    undoubling_reverses_doubling(s, 0, raw, 1, hi, Seq::empty());
    assert(Seq::<u8>::empty() + s.subrange(0, s.len() as int) =~= s);
}

/// What is escaped is appended to what is there.
pub proof fn escaped_appends(s: Seq<u8>, i: int, acc: Seq<u8>)
    requires
        0 <= i <= s.len(),
    ensures
        escaped(s, i, acc) == acc + escaped(s, i, Seq::empty()),
    decreases s.len() - i,
{
    if i < s.len() {
        let step = escaped_byte(s[i]);
        escaped_appends(s, i + 1, acc + step);
        escaped_appends(s, i + 1, step);
        assert(Seq::<u8>::empty() + step =~= step);
        assert((acc + step) + escaped(s, i + 1, Seq::empty()) =~= acc + (step + escaped(
            s,
            i + 1,
            Seq::empty(),
        )));
    } else {
        assert(acc + Seq::<u8>::empty() =~= acc);
    }
}

proof fn escaped_text_has_no_control_bytes(s: Seq<u8>, i: int, k: int)
    requires
        0 <= i <= s.len(),
        0 <= k < escaped(s, i, Seq::empty()).len(),
    ensures
        escaped(s, i, Seq::empty())[k] >= 0x20,
    decreases s.len() - i,
{
    if i < s.len() {
        let step = escaped_byte(s[i]);
        assert(Seq::<u8>::empty() + step =~= step);
        escaped_appends(s, i + 1, step);
        if k >= step.len() {
            escaped_text_has_no_control_bytes(s, i + 1, k - step.len());
        }
    }
}

proof fn spaces_have_no_breaks(s: Seq<u8>, i: int, j: int)
    requires
        0 <= i <= j <= s.len(),
        forall|k: int| i <= k < j ==> #[trigger] s[k] >= 0x20,
    ensures
        breaks(s, i, j) == 0,
    decreases j - i,
{
    if i < j {
        assert(s[i] >= 0x20);
        spaces_have_no_breaks(s, i + 1, j);
    }
}

proof fn double_text_takes_one_space(raw: Seq<u8>, k: int, hi: int, acc: Seq<u8>)
    requires
        0 <= k < hi <= raw.len(),
        raw[k] == SPACE,
        forall|m: int| k <= m < hi ==> #[trigger] raw[m] >= 0x20,
    ensures
        double_text(raw, k, hi, acc) == double_text(raw, k + 1, hi, acc.push(SPACE)),
{
    let q = run(raw, k, hi, Class::White);
    assert(q == run(raw, k + 1, hi, Class::White));
    crate::text::run_is_maximal(raw, k + 1, hi, Class::White);
    spaces_have_no_breaks(raw, k, q);
    spaces_have_no_breaks(raw, k + 1, q);
    if q == k + 1 {
        assert(acc + raw.subrange(k, q) =~= acc.push(SPACE));
    } else {
        assert(acc + raw.subrange(k, q) =~= acc.push(SPACE) + raw.subrange(k + 1, q));
    }
}

proof fn double_text_takes_one_byte(b: u8, raw: Seq<u8>, k: int, hi: int, acc: Seq<u8>)
    requires
        0 <= k <= hi <= raw.len(),
        k + escaped_byte(b).len() <= hi,
        raw.subrange(k, k + escaped_byte(b).len()) == escaped_byte(b),
        forall|m: int| k <= m < hi ==> #[trigger] raw[m] >= 0x20,
    ensures
        double_text(raw, k, hi, acc) == double_text(
            raw,
            k + escaped_byte(b).len(),
            hi,
            acc.push(b),
        ),
{
    let e = escaped_byte(b);
    let part = raw.subrange(k, k + e.len());
    assert(part[0] == raw[k]);
    if escape_letter(b) is Some {
        assert(part[1] == raw[k + 1]);
        assert(run(raw, k, hi, Class::White) == k);
        assert(named_escape(raw[k + 1]) == Some(b as u32));
        assert(encoded(b as int) =~= seq![b]);
        assert(acc + seq![b] =~= acc.push(b));
    } else if b < 0x20 {
        assert(part[1] == raw[k + 1]);
        assert(part[2] == raw[k + 2]);
        assert(part[3] == raw[k + 3]);
        assert(part[4] == raw[k + 4]);
        assert(part[5] == raw[k + 5]);
        assert(run(raw, k, hi, Class::White) == k);
        assert(named_escape(117u8) is None);
        assert(digit_value(raw[k + 4]) == b as int / 16);
        assert(digit_value(raw[k + 5]) == b as int % 16);
        reveal_with_fuel(magnitude, 5);
        assert(magnitude(raw, k + 2, k + 6, 16) == b);
        assert(digits(raw, k + 2, k + 6, 16));
        assert(encoded(b as int) =~= seq![b]);
        assert(acc + seq![b] =~= acc.push(b));
    } else if b == SPACE {
        double_text_takes_one_space(raw, k, hi, acc);
    } else {
        assert(run(raw, k, hi, Class::White) == k);
    }
}

proof fn decoding_reverses_escaping(
    s: Seq<u8>,
    i: int,
    raw: Seq<u8>,
    k: int,
    hi: int,
    acc: Seq<u8>,
)
    requires
        0 <= i <= s.len(),
        0 <= k <= hi <= raw.len(),
        raw.subrange(k, hi) == escaped(s, i, Seq::empty()),
    ensures
        double_text(raw, k, hi, acc) == Some(acc + s.subrange(i, s.len() as int)),
    decreases s.len() - i,
{
    let part = raw.subrange(k, hi);
    assert forall|m: int| k <= m < hi implies #[trigger] raw[m] >= 0x20 by {
        escaped_text_has_no_control_bytes(s, i, m - k);
        assert(part[m - k] == raw[m]);
    }
    if i < s.len() {
        let step = escaped_byte(s[i]);
        let rest = escaped(s, i + 1, Seq::empty());
        assert(Seq::<u8>::empty() + step =~= step);
        escaped_appends(s, i + 1, step);
        assert(part == step + rest);
        assert(raw.subrange(k, k + step.len()) =~= step) by {
            assert(part.subrange(0, step.len() as int) =~= step);
            assert(part.subrange(0, step.len() as int) =~= raw.subrange(k, k + step.len()));
        }
        assert(raw.subrange(k + step.len(), hi) =~= rest) by {
            assert(part.subrange(step.len() as int, part.len() as int) =~= rest);
        }
        double_text_takes_one_byte(s[i], raw, k, hi, acc);
        decoding_reverses_escaping(s, i + 1, raw, k + step.len(), hi, acc.push(s[i]));
        assert(acc.push(s[i]) + s.subrange(i + 1, s.len() as int) =~= acc + s.subrange(
            i,
            s.len() as int,
        ));
    } else {
        assert(part.len() == 0);
        assert(acc + s.subrange(i, s.len() as int) =~= acc);
    }
}

/// Reading back the double-quoted spelling of a string gives the string.
pub proof fn double_quoting_round_trips(s: Seq<u8>)
    ensures
        crate::scalar::double_quoted(s).len() >= 2,
        double_text(
            crate::scalar::double_quoted(s),
            1,
            crate::scalar::double_quoted(s).len() - 1,
            Seq::empty(),
        ) == Some(s),
{
    let raw = crate::scalar::double_quoted(s);
    let hi = raw.len() - 1;
    escaped_appends(s, 0, seq![DQUOTE]);
    assert(raw.subrange(1, hi) =~= escaped(s, 0, Seq::empty()));
    decoding_reverses_escaping(s, 0, raw, 1, hi, Seq::empty());
    assert(Seq::<u8>::empty() + s.subrange(0, s.len() as int) =~= s);
}

} // verus!
