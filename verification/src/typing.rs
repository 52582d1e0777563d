//! Which value a scalar is.
use crate::folding::{hex, is_hex};
use crate::growth::runs_over;
use crate::load::{
    flow_items, items, key_text, load, plain_key, scalar_text, single_pair, span, SpanKind,
    SpanNode,
};
use crate::mappings::untagged;
use crate::scalar::{
    digit_value, digits, exponent, float_shape, integer, magnitude, magnitude_grows, mantissa_end,
    past_sign, resolved, Plain,
};
use crate::siblings::{content, first_of, next, steps_to, vacant};
use crate::syntax::{scalar_kind, Elem, SyntaxKind};
use crate::text::{digit, in_class, run, run_is_maximal, utf8_text, Class, BANG, DASH, DOT, PLUS};
use crate::value::Data;
use vstd::prelude::*;
use vstd::string::*;
use vstd::utf8::*;

verus! {

/// Whether a text is a word for null, or nothing.
pub open spec fn says_null(t: Seq<u8>) -> bool {
    ||| t.len() == 0
    ||| t == "~".spec_bytes()
    ||| t == "null".spec_bytes()
    ||| t == "Null".spec_bytes()
    ||| t == "NULL".spec_bytes()
}

/// Whether a text is a word for the given truth value.
pub open spec fn says(t: Seq<u8>, b: bool) -> bool {
    if b {
        t == "true".spec_bytes() || t == "True".spec_bytes() || t == "TRUE".spec_bytes()
    } else {
        t == "false".spec_bytes() || t == "False".spec_bytes() || t == "FALSE".spec_bytes()
    }
}

/// A plain scalar is null, true or false exactly if it is a word for it.
pub proof fn words_have_their_meaning(t: Seq<u8>)
    ensures
        resolved(t) == Plain::Null <==> says_null(t),
        resolved(t) == Plain::Bool(true) <==> says(t, true) && !says_null(t),
        resolved(t) == Plain::Bool(false) <==> says(t, false) && !says(t, true) && !says_null(t),
{
}

/// A plain scalar without a digit is a string, unless it is a word for something
/// else: `yes`, `no`, `on` and `off` are strings.
pub proof fn other_words_are_strings(t: Seq<u8>)
    requires
        !says_null(t),
        !says(t, true),
        !says(t, false),
        forall|k: int| 0 <= k < t.len() ==> !digit(#[trigger] t[k]),
        forall|k: int| 0 <= k < t.len() ==> #[trigger] t[k] != DOT,
    ensures
        resolved(t) == Plain::Text,
{
    let b = past_sign(t);
    let n = t.len() as int;
    if digits(t, b, n, 10) {
        assert(digit_value(t[b]) < 10);
    }
    if n > 2 && digits(t, 2, n, 16) {
        assert(!digit(t[0]));
    }
    let rest = t.subrange(b, n);
    reveal_strlit(".inf");
    reveal_strlit(".Inf");
    reveal_strlit(".INF");
    reveal_strlit(".nan");
    reveal_strlit(".NaN");
    reveal_strlit(".NAN");
    assert(".inf"@[0] == '.' && ".Inf"@[0] == '.' && ".INF"@[0] == '.');
    assert(".nan"@[0] == '.' && ".NaN"@[0] == '.' && ".NAN"@[0] == '.');
    dots_open(".inf"@);
    dots_open(".Inf"@);
    dots_open(".INF"@);
    dots_open(".nan"@);
    dots_open(".NaN"@);
    dots_open(".NAN"@);
    if rest.len() > 0 {
        assert(rest[0] == t[b]);
    }
}

proof fn dots_open(c: Seq<char>)
    requires
        c.len() > 0,
        c[0] == '.',
        is_ascii_chars(c),
    ensures
        encode_utf8(c).len() > 0,
        encode_utf8(c)[0] == DOT,
{
    is_ascii_chars_encode_utf8(c);
    assert(c[0] as u8 == DOT);
}

proof fn magnitudes_are_local(a: Seq<u8>, i: int, b: Seq<u8>, j: int, n: int, radix: int)
    requires
        0 <= n,
        forall|k: int| 0 <= k < n ==> #[trigger] a[i + k] == b[j + k],
    ensures
        magnitude(a, i, i + n, radix) == magnitude(b, j, j + n, radix),
    decreases n,
{
    if n > 0 {
        magnitudes_are_local(a, i, b, j, n - 1, radix);
        assert(a[i + (n - 1)] == b[j + (n - 1)]);
    }
}

/// Whether a text is decimal digits and nothing else.
pub open spec fn decimal_digits(d: Seq<u8>) -> bool {
    d.len() > 0 && forall|k: int| 0 <= k < d.len() ==> digit(#[trigger] d[k])
}

proof fn digits_are_digits(s: Seq<u8>, b: int)
    requires
        0 <= b < s.len(),
        forall|k: int| b <= k < s.len() ==> digit(#[trigger] s[k]),
    ensures
        digits(s, b, s.len() as int, 10),
{
    assert forall|k: int| b <= k < s.len() implies digit_value(#[trigger] s[k]) < 10 by {}
}

/// A sign in front of digits is that of the number.
pub proof fn integers_have_signs(d: Seq<u8>)
    requires
        decimal_digits(d),
    ensures
        integer(seq![PLUS] + d) == integer(d),
        integer(d) matches Some(n) ==> integer(seq![DASH] + d) == Some((-n) as i64) && n >= 0,
{
    let n = d.len() as int;
    let p = seq![PLUS] + d;
    let m = seq![DASH] + d;
    assert(digit(d[0]));
    digits_are_digits(d, 0);
    assert forall|k: int| 1 <= k < p.len() implies digit(#[trigger] p[k]) by {
        assert(p[k] == d[k - 1]);
    }
    assert forall|k: int| 1 <= k < m.len() implies digit(#[trigger] m[k]) by {
        assert(m[k] == d[k - 1]);
    }
    digits_are_digits(p, 1);
    digits_are_digits(m, 1);
    assert forall|k: int| 0 <= k < n implies #[trigger] p[1 + k] == d[0 + k] by {}
    assert forall|k: int| 0 <= k < n implies #[trigger] m[1 + k] == d[0 + k] by {}
    magnitudes_are_local(p, 1, d, 0, n, 10);
    magnitudes_are_local(m, 1, d, 0, n, 10);
    magnitude_grows(d, 0, 0, n, 10);
}

/// Each further digit is worth one, and those in front of it ten times as much.
pub proof fn decimals_count_by_ten(d: Seq<u8>, c: u8)
    requires
        d.len() == 0 || decimal_digits(d),
        digit(c),
        d.len() > 0 ==> integer(d) is Some && integer(d)->0 * 10 + (c - 48)
            <= 0x7fff_ffff_ffff_ffff,
    ensures
        integer(d.push(c)) == Some(
            ((if d.len() > 0 {
                integer(d)->0 * 10
            } else {
                0
            }) + (c - 48)) as i64,
        ),
{
    let e = d.push(c);
    let n = d.len() as int;
    assert forall|k: int| 0 <= k < e.len() implies digit(#[trigger] e[k]) by {
        if k < n {
            assert(e[k] == d[k]);
        }
    }
    digits_are_digits(e, 0);
    assert(digit(e[0]));
    assert forall|k: int| 0 <= k < n implies #[trigger] e[0 + k] == d[0 + k] by {}
    magnitudes_are_local(e, 0, d, 0, n, 10);
    if n > 0 {
        assert(digit(d[0]));
        digits_are_digits(d, 0);
        magnitude_grows(d, 0, 0, n, 10);
    }
}

/// A number with a prefix for its radix.
pub open spec fn with_prefix(radix: int, h: Seq<u8>) -> Seq<u8> {
    seq![
        48u8,
        if radix == 16 {
            120u8
        } else {
            111u8
        },
    ] + h
}

/// Whether the digits are digits in the radix.
pub open spec fn radix_digits(radix: int, h: Seq<u8>) -> bool {
    forall|k: int| 0 <= k < h.len() ==> is_hex(#[trigger] h[k]) && hex(h[k]) < radix
}

/// Behind `0x` and `0o` each further digit is worth one, and those in front of it
/// sixteen or eight times as much.
pub proof fn prefixed_numbers_count_by_their_radix(radix: int, h: Seq<u8>, c: u8)
    requires
        radix == 16 || radix == 8,
        radix_digits(radix, h.push(c)),
        h.len() > 0 ==> integer(with_prefix(radix, h)) is Some && integer(
            with_prefix(radix, h),
        )->0 * radix + hex(c) <= 0x7fff_ffff_ffff_ffff,
    ensures
        integer(with_prefix(radix, h.push(c))) == Some(
            ((if h.len() > 0 {
                integer(with_prefix(radix, h))->0 * radix
            } else {
                0
            }) + hex(c)) as i64,
        ),
{
    let a = with_prefix(radix, h.push(c));
    let b = with_prefix(radix, h);
    let n = h.len() as int;
    assert(!digit(a[1]) && !digit(b[1]));
    assert(digit_value(a[1]) >= 10 && digit_value(b[1]) >= 10);
    assert forall|k: int| 2 <= k < a.len() implies digit_value(#[trigger] a[k]) < radix by {
        assert(a[k] == h.push(c)[k - 2]);
        assert(is_hex(h.push(c)[k - 2]));
    }
    assert forall|k: int| 2 <= k < b.len() implies digit_value(#[trigger] b[k]) < radix by {
        assert(b[k] == a[k]);
    }
    assert(a[n + 2] == h.push(c)[n]);
    assert(is_hex(c));
    assert(digit_value(c) == hex(c));
    assert forall|k: int| 0 <= k < n implies #[trigger] a[2 + k] == b[2 + k] by {}
    magnitudes_are_local(a, 2, b, 2, n, radix);
    magnitude_grows(b, 2, 2, n + 2, radix);
}

/// A quoted or block scalar is a string, and so is a plain one behind `!` or
/// `!!str`, whatever it says.
pub proof fn quoted_scalars_are_strings(
    s: Seq<u8>,
    t: Seq<Elem>,
    lo: int,
    hi: int,
    max: int,
    used: int,
    acc: Seq<SpanNode>,
)
    requires
        load(s, t, lo, hi, max, used, acc) is Ok,
        content(t, lo, hi) < hi,
        scalar_kind(t[content(t, lo, hi)].kind),
        t[content(t, lo, hi)].kind != SyntaxKind::PlainScalar || tag_is(
            s,
            t,
            lo,
            content(t, lo, hi),
            "!".spec_bytes(),
        ) || tag_is(s, t, lo, content(t, lo, hi), "!!str".spec_bytes()),
    ensures
        untagged(load(s, t, lo, hi, max, used, acc)->Ok_0.0) == Data::Text(
            utf8_text(scalar_text(s, t[content(t, lo, hi)])->0),
        ),
{
}

/// Whether the tag among the siblings in `lo..hi` is `tag`.
pub open spec fn tag_is(s: Seq<u8>, t: Seq<Elem>, lo: int, hi: int, tag: Seq<u8>) -> bool {
    let g = first_of(t, lo, hi, SyntaxKind::TagMark);
    g < hi && s.subrange(t[g].start as int, t[g].end as int) == tag
}

/// A value is under a tag exactly if one is written in front of it that is not of
/// the core schema, and then under that one.
pub proof fn values_are_under_their_tags(
    s: Seq<u8>,
    t: Seq<Elem>,
    lo: int,
    hi: int,
    max: int,
    used: int,
    acc: Seq<SpanNode>,
)
    requires
        load(s, t, lo, hi, max, used, acc) is Ok,
        content(t, lo, hi) < hi,
        t[content(t, lo, hi)].kind != SyntaxKind::AliasMark,
    ensures
        ({
            let c = content(t, lo, hi);
            let g = first_of(t, lo, c, SyntaxKind::TagMark);
            let mark = s.subrange(t[g].start as int, t[g].end as int);
            let d = load(s, t, lo, hi, max, used, acc)->Ok_0.0;
            if g < c && mark.len() > 1 && mark[1] != BANG {
                d matches Data::Tagged(name, _) && name == utf8_text(mark)
            } else {
                d !is Tagged
            }
        }),
{
    let c = content(t, lo, hi);
    let e = t[c];
    let end = next(t, c);
    let inner = acc.push(span(SpanKind::List, e.start as int, e.end as int));
    if e.kind == SyntaxKind::BlockSequence {
        items_make_a_list(s, t, c + 1, end, max, used, Seq::empty(), inner);
    } else if e.kind == SyntaxKind::FlowSequence {
        let close = first_of(t, c + 1, end, SyntaxKind::FlowClose);
        flow_items_make_a_list(s, t, c + 2, close, max, used, Seq::empty(), inner);
    }
}

proof fn items_make_a_list(
    s: Seq<u8>,
    t: Seq<Elem>,
    i: int,
    hi: int,
    max: int,
    used: int,
    l: Seq<Data>,
    acc: Seq<SpanNode>,
)
    ensures
        items(s, t, i, hi, max, used, l, acc) matches Ok((d, _, _)) ==> d is List,
    decreases hi - i,
{
    let end = next(t, i);
    if steps_to(t, i, hi) {
        if t[i].kind != SyntaxKind::SequenceItem {
            items_make_a_list(s, t, end, hi, max, used, l, acc);
        } else {
            let x = first_of(t, i + 1, end, SyntaxKind::DashIndicator);
            let from = if x < end {
                x + 1
            } else {
                end
            };
            match load(s, t, from, end, max, used, acc) {
                Ok((d, spans, u)) => {
                    items_make_a_list(s, t, end, hi, max, u, l.push(d), spans);
                },
                Err(_) => {},
            }
        }
    }
}

proof fn flow_items_make_a_list(
    s: Seq<u8>,
    t: Seq<Elem>,
    i: int,
    close: int,
    max: int,
    used: int,
    l: Seq<Data>,
    acc: Seq<SpanNode>,
)
    ensures
        flow_items(s, t, i, close, max, used, l, acc) matches Ok((d, _, _)) ==> d is List,
    decreases close - i,
{
    let j = first_of(t, i, close, SyntaxKind::CommaIndicator);
    let x = first_of(t, i, j, SyntaxKind::ColonIndicator);
    if i < close && !vacant(t, i, j) && 0 <= i <= x && x <= j < close {
        let one = if x < j {
            single_pair(
                key_text(s, t, i, x),
                plain_key(t, i, x),
                load(s, t, x + 1, j, max, used, Seq::empty()),
                acc,
            )
        } else {
            load(s, t, i, j, max, used, acc)
        };
        match one {
            Ok((d, spans, u)) => {
                flow_items_make_a_list(s, t, j + 1, close, max, u, l.push(d), spans);
            },
            Err(_) => {},
        }
    }
}

/// Whether a byte can be part of a number: a digit, a letter, a sign or a full
/// stop.
pub open spec fn number_byte(b: u8) -> bool {
    digit(b) || 65 <= b <= 90 || 97 <= b <= 122 || b == PLUS || b == DASH || b == DOT
}

proof fn word_bytes_are_number_bytes(w: Seq<char>, s: Seq<u8>)
    requires
        is_ascii_chars(w),
        s == encode_utf8(w),
        w.len() == 4,
        w[0] == '.',
        forall|i: int| 1 <= i < 4 ==> 'A' <= #[trigger] w[i] <= 'Z' || 'a' <= w[i] <= 'z',
    ensures
        s.len() == 4,
        s[0] == DOT,
        forall|i: int| 1 <= i < 4 ==> 65 <= #[trigger] s[i] <= 90 || 97 <= s[i] <= 122,
{
    is_ascii_chars_encode_utf8(w);
    assert(w[0] as u8 == DOT);
    assert forall|i: int| 1 <= i < 4 implies 65 <= #[trigger] s[i] <= 90 || 97 <= s[i] <= 122 by {
        assert(w[i] as u8 == s[i]);
    }
}

proof fn special_floats()
    ensures
        forall|w: Seq<u8>|
            (w == ".inf".spec_bytes() || w == ".Inf".spec_bytes() || w == ".INF".spec_bytes() || w
                == ".nan".spec_bytes() || w == ".NaN".spec_bytes() || w == ".NAN".spec_bytes())
                ==> #[trigger] dotted_word(w),
{
    reveal_strlit(".inf");
    reveal_strlit(".Inf");
    reveal_strlit(".INF");
    reveal_strlit(".nan");
    reveal_strlit(".NaN");
    reveal_strlit(".NAN");
    word_bytes_are_number_bytes(".inf"@, ".inf".spec_bytes());
    word_bytes_are_number_bytes(".Inf"@, ".Inf".spec_bytes());
    word_bytes_are_number_bytes(".INF"@, ".INF".spec_bytes());
    word_bytes_are_number_bytes(".nan"@, ".nan".spec_bytes());
    word_bytes_are_number_bytes(".NaN"@, ".NaN".spec_bytes());
    word_bytes_are_number_bytes(".NAN"@, ".NAN".spec_bytes());
}

/// Whether a text is a full stop and three letters.
spec fn dotted_word(s: Seq<u8>) -> bool {
    &&& s.len() == 4
    &&& s[0] == DOT
    &&& forall|i: int| 1 <= i < 4 ==> 65 <= #[trigger] s[i] <= 90 || 97 <= s[i] <= 122
}

/// A plain scalar that holds anything but digits, letters, signs and full stops is
/// no number: `12:30` and `1_000` are strings.
pub proof fn numbers_hold_no_other_bytes(t: Seq<u8>, x: int)
    requires
        0 <= x < t.len(),
        !number_byte(t[x]),
    ensures
        resolved(t) !is Int,
        resolved(t) !is Float,
{
    let b = past_sign(t);
    let n = t.len() as int;
    assert(digit_value(t[x]) == 255);
    if digits(t, b, n, 10) {
        assert(digit_value(t[x]) < 10);
    }
    if n > 2 && t[0] == 48 && digits(t, 2, n, 16) {
        if x >= 2 {
            assert(digit_value(t[x]) < 16);
        }
    }
    if n > 2 && t[0] == 48 && digits(t, 2, n, 8) {
        if x >= 2 {
            assert(digit_value(t[x]) < 8);
        }
    }
    special_floats();
    let rest = t.subrange(b, n);
    assert(x >= b);
    assert(rest[x - b] == t[x]);
    assert(!dotted_word(rest));
    assert(!dotted_word(t));
    mantissas_are_digits(t, b);
    let m = mantissa_end(t, b);
    if b < n && exponent(t, m) {
        let j = if m + 1 < n && (t[m + 1] == PLUS || t[m + 1] == DASH) {
            m + 2
        } else {
            m + 1
        };
        if x >= m && m < n {
            if x >= j {
                assert(digit_value(t[x]) < 10);
            }
        }
    }
}

proof fn mantissas_are_digits(t: Seq<u8>, b: int)
    requires
        0 <= b <= t.len(),
    ensures
        b <= mantissa_end(t, b) <= t.len(),
        forall|k: int| b <= k < mantissa_end(t, b) ==> digit(#[trigger] t[k]) || t[k] == DOT,
        forall|j: int, k: int|
            b <= j < k < mantissa_end(t, b) ==> !(#[trigger] t[j] == DOT && #[trigger] t[k] == DOT),
{
    let n = t.len() as int;
    let d = run(t, b, n, Class::Digit);
    run_is_maximal(t, b, n, Class::Digit);
    assert forall|k: int| b <= k < d implies digit(#[trigger] t[k]) by {
        assert(in_class(t[k], Class::Digit));
    }
    if d < n && t[d] == DOT {
        run_is_maximal(t, d + 1, n, Class::Digit);
        assert forall|k: int| d < k < run(t, d + 1, n, Class::Digit) implies digit(#[trigger] t[k]) by {
            assert(in_class(t[k], Class::Digit));
        }
    }
}

/// A plain scalar with two full stops is no number: `1.2.3` is a string.
pub proof fn numbers_hold_one_full_stop(t: Seq<u8>, x: int, y: int)
    requires
        0 <= x < y < t.len(),
        t[x] == DOT,
        t[y] == DOT,
    ensures
        resolved(t) !is Int,
        resolved(t) !is Float,
{
    let b = past_sign(t);
    let n = t.len() as int;
    assert(digit_value(t[x]) == 255 && digit_value(t[y]) == 255);
    if digits(t, b, n, 10) {
        assert(digit_value(t[y]) < 10);
    }
    if n > 2 && t[0] == 48 && digits(t, 2, n, 16) {
        if y >= 2 {
            assert(digit_value(t[y]) < 16);
        }
    }
    if n > 2 && t[0] == 48 && digits(t, 2, n, 8) {
        if y >= 2 {
            assert(digit_value(t[y]) < 8);
        }
    }
    special_floats();
    let rest = t.subrange(b, n);
    assert(x >= b);
    assert(rest[x - b] == DOT && rest[y - b] == DOT);
    assert(!dotted_word(rest));
    assert(!dotted_word(t));
    mantissas_are_digits(t, b);
    let m = mantissa_end(t, b);
    if b < n && exponent(t, m) {
        let j = if m + 1 < n && (t[m + 1] == PLUS || t[m + 1] == DASH) {
            m + 2
        } else {
            m + 1
        };
        if y >= m && m < n && y >= j {
            assert(digit_value(t[y]) < 10);
        }
    }
}

/// Digits around a full stop are a number with a fraction, and so are digits in
/// front of one; with or without a sign, and with an exponent behind them.
pub proof fn decimals_are_floats(sign: Seq<u8>, a: Seq<u8>, b: Seq<u8>, e: Seq<u8>)
    requires
        sign.len() == 0 || sign == seq![PLUS] || sign == seq![DASH],
        decimal_digits(a),
        b.len() == 0 || decimal_digits(b),
        e.len() == 0 || decimal_digits(e),
    ensures
        resolved(sign + a + seq![DOT] + b + (if e.len() > 0 {
            seq![101u8] + e
        } else {
            Seq::empty()
        })) is Float,
{
    let power = if e.len() > 0 {
        seq![101u8] + e
    } else {
        Seq::empty()
    };
    let t = sign + a + seq![DOT] + b + power;
    let n = t.len() as int;
    let s = sign.len() as int;
    let d = s + a.len();
    let m = d + 1 + b.len();
    assert(past_sign(t) == s) by {
        if s == 0 {
            assert(t[0] == a[0]);
            assert(digit(a[0]));
        } else {
            assert(t[0] == sign[0]);
        }
    }
    assert forall|k: int| s <= k < d implies digit(#[trigger] t[k]) by {
        assert(t[k] == a[k - s]);
    }
    assert(t[d] == DOT);
    assert forall|k: int| d < k < m implies digit(#[trigger] t[k]) by {
        assert(t[k] == b[k - d - 1]);
    }
    if m < n {
        assert(t[m] == power[0]);
        assert forall|k: int| m < k < n implies digit_value(#[trigger] t[k]) < 10 by {
            assert(t[k] == e[k - m - 1]);
            assert(digit(e[k - m - 1]));
        }
        assert(t[m + 1] == e[0]);
        assert(digit(e[0]));
        assert(digits(t, m + 1, n, 10));
    }
    runs_over(t, s, n, Class::Digit, d);
    runs_over(t, d + 1, n, Class::Digit, m);
    assert(digit(t[s]));
    assert(digit_value(t[d]) == 255);
    if digits(t, s, n, 10) {
        assert(digit_value(t[d]) < 10);
    }
    if n > 2 && t[0] == 48 && digits(t, 2, n, 16) && (t[1] == 120 || t[1] == 111) {
        assert(t[1] == 120 || t[1] == 111);
        assert(s == 0);
        assert(d >= 1);
        if d > 1 {
            assert(digit(t[1]));
        }
    }
    if n > 2 && t[0] == 48 && digits(t, 2, n, 8) && (t[1] == 120 || t[1] == 111) {
        if d > 1 {
            assert(digit(t[1]));
        }
    }
    assert(float_shape(t));
    assert(integer(t) is None);
    words_hold_no_full_stop(t, d);
}

proof fn words_hold_no_full_stop(t: Seq<u8>, d: int)
    requires
        0 <= d < t.len(),
        t[d] == DOT,
    ensures
        !says_null(t),
        !says(t, true),
        !says(t, false),
{
    reveal_strlit("~");
    reveal_strlit("null");
    reveal_strlit("Null");
    reveal_strlit("NULL");
    reveal_strlit("true");
    reveal_strlit("True");
    reveal_strlit("TRUE");
    reveal_strlit("false");
    reveal_strlit("False");
    reveal_strlit("FALSE");
    no_full_stop("~"@);
    no_full_stop("null"@);
    no_full_stop("Null"@);
    no_full_stop("NULL"@);
    no_full_stop("true"@);
    no_full_stop("True"@);
    no_full_stop("TRUE"@);
    no_full_stop("false"@);
    no_full_stop("False"@);
    no_full_stop("FALSE"@);
}

proof fn no_full_stop(w: Seq<char>)
    requires
        is_ascii_chars(w),
        forall|i: int| 0 <= i < w.len() ==> #[trigger] w[i] != '.',
    ensures
        forall|i: int| 0 <= i < encode_utf8(w).len() ==> #[trigger] encode_utf8(w)[i] != DOT,
{
    is_ascii_chars_encode_utf8(w);
    assert forall|i: int| 0 <= i < encode_utf8(w).len() implies #[trigger] encode_utf8(w)[i] != DOT by {
        assert(w[i] as u8 == encode_utf8(w)[i]);
        assert(w[i] != '.');
    }
}

} // verus!
