//! How plain and quoted scalars are read.
use crate::blocks::feed_count;
use crate::decode::{
    breaks, double_text, encoded, folded, named_escape, plain_text, scalar_value, single_text,
};
use crate::growth::white;
use crate::scalar::{digit_value, digits, magnitude};
use crate::text::{
    blank, line_break, run, run_is_maximal, Class, BACKSLASH, DQUOTE, NL, SPACE, SQUOTE, TAB,
};
use vstd::prelude::*;
use vstd::utf8::*;

verus! {

/// Whether `text` is what white space between two words of a flow scalar denotes:
/// itself on one line, one space for one line break, and otherwise a line feed
/// for each line break but the first.
pub open spec fn joins(gap: Seq<u8>, text: Seq<u8>) -> bool {
    let n = feed_count(gap);
    if n == 0 {
        text == gap
    } else if n == 1 {
        text == seq![SPACE]
    } else {
        text.len() == n - 1 && forall|k: int| 0 <= k < text.len() ==> #[trigger] text[k] == NL
    }
}

/// Whether `s[i..p]` is a word, and `s[p..q]` the white space behind it.
pub open spec fn word_and_gap(s: Seq<u8>, i: int, p: int, q: int, hi: int) -> bool {
    &&& 0 <= i <= p < q <= hi <= s.len()
    &&& forall|k: int| i <= k < p ==> !white(#[trigger] s[k])
    &&& forall|k: int| p <= k < q ==> white(#[trigger] s[k])
    &&& q < hi ==> !white(s[q])
}

proof fn breaks_are_feeds(s: Seq<u8>, i: int, j: int)
    requires
        0 <= i <= j <= s.len(),
    ensures
        breaks(s, i, j) == feed_count(s.subrange(i, j)),
        0 <= breaks(s, i, j),
    decreases j - i,
{
    let g = s.subrange(i, j);
    if i < j {
        breaks_are_feeds(s, i, j - 1);
        assert(g.drop_last() =~= s.subrange(i, j - 1));
        breaks_end(s, i, j);
    }
}

proof fn breaks_end(s: Seq<u8>, i: int, j: int)
    requires
        i < j,
    ensures
        breaks(s, i, j) == breaks(s, i, j - 1) + if s[j - 1] == NL {
            1int
        } else {
            0int
        },
    decreases j - i,
{
    if i + 1 < j {
        breaks_end(s, i + 1, j);
    } else {
        assert(breaks(s, j, j) == 0);
        assert(breaks(s, i, j - 1) == 0);
    }
}

proof fn folding_joins(s: Seq<u8>, i: int, j: int)
    requires
        0 <= i <= j <= s.len(),
    ensures
        joins(s.subrange(i, j), folded(s, i, j)),
{
    breaks_are_feeds(s, i, j);
}

proof fn gaps_are_runs(s: Seq<u8>, i: int, p: int, q: int, hi: int)
    requires
        word_and_gap(s, i, p, q, hi),
    ensures
        run(s, p, hi, Class::White) == q,
        forall|k: int| i <= k < p ==> #[trigger] run(s, k, hi, Class::White) == k,
{
    run_is_maximal(s, p, hi, Class::White);
    let r = run(s, p, hi, Class::White);
    if r < q {
        assert(white(s[r]));
    }
    if r > q {
        assert(white(s[q]));
    }
    assert forall|k: int| i <= k < p implies #[trigger] run(s, k, hi, Class::White) == k by {
        assert(!white(s[k]));
    }
}

proof fn plain_appends(s: Seq<u8>, i: int, hi: int, acc: Seq<u8>)
    ensures
        plain_text(s, i, hi, acc) == acc + plain_text(s, i, hi, Seq::empty()),
    decreases hi - i,
{
    let q = run(s, i, hi, Class::White);
    if i >= hi {
    } else if i < q <= hi {
        plain_appends(s, q, hi, acc + folded(s, i, q));
        plain_appends(s, q, hi, Seq::empty() + folded(s, i, q));
    } else {
        plain_appends(s, i + 1, hi, acc.push(s[i]));
        plain_appends(s, i + 1, hi, Seq::empty().push(s[i]));
    }
}

/// A plain scalar denotes its words, with the white space between them folded.
pub proof fn plain_scalars_are_folded(s: Seq<u8>, i: int, p: int, q: int, hi: int)
    requires
        word_and_gap(s, i, p, q, hi),
    ensures
        exists|gap: Seq<u8>| #[trigger]
            joins(s.subrange(p, q), gap) && plain_text(s, i, hi, Seq::empty()) == s.subrange(i, p)
                + gap + plain_text(s, q, hi, Seq::empty()),
    decreases p - i,
{
    gaps_are_runs(s, i, p, q, hi);
    folding_joins(s, p, q);
    let gap = folded(s, p, q);
    if i < p {
        assert(run(s, i, hi, Class::White) == i);
        plain_scalars_are_folded(s, i + 1, p, q, hi);
        let g = choose|g: Seq<u8>| #[trigger]
            joins(s.subrange(p, q), g) && plain_text(s, i + 1, hi, Seq::empty()) == s.subrange(
                i + 1,
                p,
            ) + g + plain_text(s, q, hi, Seq::empty());
        plain_appends(s, i + 1, hi, Seq::empty().push(s[i]));
        assert(plain_text(s, i, hi, Seq::empty()) =~= s.subrange(i, p) + g + plain_text(
            s,
            q,
            hi,
            Seq::empty(),
        ));
    } else {
        plain_appends(s, q, hi, Seq::empty() + gap);
        assert(plain_text(s, i, hi, Seq::empty()) =~= s.subrange(i, p) + gap + plain_text(
            s,
            q,
            hi,
            Seq::empty(),
        ));
    }
}

/// A plain scalar of one word is read as it is.
pub proof fn plain_words_stay(s: Seq<u8>, i: int, hi: int)
    requires
        0 <= i <= hi <= s.len(),
        forall|k: int| i <= k < hi ==> !white(#[trigger] s[k]),
    ensures
        plain_text(s, i, hi, Seq::empty()) == s.subrange(i, hi),
    decreases hi - i,
{
    if i < hi {
        assert(!white(s[i]));
        plain_words_stay(s, i + 1, hi);
        plain_appends(s, i + 1, hi, Seq::empty().push(s[i]));
    }
    assert(plain_text(s, i, hi, Seq::empty()) =~= s.subrange(i, hi));
}

proof fn single_appends(s: Seq<u8>, i: int, hi: int, acc: Seq<u8>)
    ensures
        single_text(s, i, hi, acc) == acc + single_text(s, i, hi, Seq::empty()),
    decreases hi - i,
{
    let q = run(s, i, hi, Class::White);
    if i >= hi {
    } else if i < q <= hi {
        single_appends(s, q, hi, acc + folded(s, i, q));
        single_appends(s, q, hi, Seq::empty() + folded(s, i, q));
    } else if s[i] == SQUOTE && i + 1 < hi {
        single_appends(s, i + 2, hi, acc.push(SQUOTE));
        single_appends(s, i + 2, hi, Seq::empty().push(SQUOTE));
    } else {
        single_appends(s, i + 1, hi, acc.push(s[i]));
        single_appends(s, i + 1, hi, Seq::empty().push(s[i]));
    }
}

proof fn single_letters_stay(s: Seq<u8>, i: int, p: int, hi: int)
    requires
        0 <= i <= p <= hi <= s.len(),
        forall|k: int| i <= k < p ==> !white(#[trigger] s[k]) && s[k] != SQUOTE,
    ensures
        single_text(s, i, hi, Seq::empty()) == s.subrange(i, p) + single_text(s, p, hi, Seq::empty()),
    decreases p - i,
{
    if i < p {
        assert(!white(s[i]));
        single_letters_stay(s, i + 1, p, hi);
        single_appends(s, i + 1, hi, Seq::empty().push(s[i]));
    }
    assert(single_text(s, i, hi, Seq::empty()) =~= s.subrange(i, p) + single_text(
        s,
        p,
        hi,
        Seq::empty(),
    ));
}

/// A single-quoted scalar denotes its content: letters as they are, two quotes as
/// one, and white space folded.
pub proof fn single_quoted_scalars_are_read(s: Seq<u8>, i: int, p: int, hi: int)
    requires
        0 <= i <= p <= hi <= s.len(),
        forall|k: int| i <= k < p ==> !white(#[trigger] s[k]) && s[k] != SQUOTE,
    ensures
        p == hi ==> single_text(s, i, hi, Seq::empty()) == s.subrange(i, hi),
        p + 1 < hi && s[p] == SQUOTE && s[p + 1] == SQUOTE ==> single_text(s, i, hi, Seq::empty())
            == s.subrange(i, p) + seq![SQUOTE] + single_text(s, p + 2, hi, Seq::empty()),
        forall|q: int| #[trigger]
            word_and_gap(s, i, p, q, hi) ==> exists|gap: Seq<u8>| #[trigger]
                joins(s.subrange(p, q), gap) && single_text(s, i, hi, Seq::empty()) == s.subrange(
                    i,
                    p,
                ) + gap + single_text(s, q, hi, Seq::empty()),
{
    single_letters_stay(s, i, p, hi);
    if p == hi {
        assert(single_text(s, i, hi, Seq::empty()) =~= s.subrange(i, hi));
    }
    if p + 1 < hi && s[p] == SQUOTE && s[p + 1] == SQUOTE {
        single_appends(s, p + 2, hi, Seq::empty().push(SQUOTE));
        assert(single_text(s, i, hi, Seq::empty()) =~= s.subrange(i, p) + seq![SQUOTE]
            + single_text(s, p + 2, hi, Seq::empty()));
    }
    assert forall|q: int| #[trigger] word_and_gap(s, i, p, q, hi) implies exists|gap: Seq<u8>|
     #[trigger]
        joins(s.subrange(p, q), gap) && single_text(s, i, hi, Seq::empty()) == s.subrange(i, p)
            + gap + single_text(s, q, hi, Seq::empty()) by {
        gaps_are_runs(s, i, p, q, hi);
        folding_joins(s, p, q);
        let gap = folded(s, p, q);
        single_appends(s, q, hi, Seq::empty() + gap);
        assert(single_text(s, i, hi, Seq::empty()) =~= s.subrange(i, p) + gap + single_text(
            s,
            q,
            hi,
            Seq::empty(),
        ));
    }
}

/// `a` in front of a text, if there is one.
pub open spec fn prefixed(a: Seq<u8>, r: Option<Seq<u8>>) -> Option<Seq<u8>> {
    match r {
        Some(t) => Some(a + t),
        None => None,
    }
}

proof fn double_appends(s: Seq<u8>, i: int, hi: int, acc: Seq<u8>)
    ensures
        double_text(s, i, hi, acc) == prefixed(acc, double_text(s, i, hi, Seq::empty())),
    decreases hi - i,
{
    let q = run(s, i, hi, Class::White);
    let none = Seq::<u8>::empty();
    if i >= hi {
        assert(acc + none =~= acc);
    } else if i < q <= hi {
        let g = folded(s, i, q);
        double_appends(s, q, hi, acc + g);
        double_appends(s, q, hi, none + g);
        double_regroups(acc, g, double_text(s, q, hi, none));
    } else if s[i] != BACKSLASH {
        double_appends(s, i + 1, hi, acc.push(s[i]));
        double_appends(s, i + 1, hi, none.push(s[i]));
        assert(acc.push(s[i]) =~= acc + seq![s[i]]);
        assert(none.push(s[i]) =~= none + seq![s[i]]);
        double_regroups(acc, seq![s[i]], double_text(s, i + 1, hi, none));
    } else if i + 1 < hi {
        let c = s[i + 1];
        let w = crate::decode::hex_width(c);
        if line_break(c) {
            let f = run(s, i + 1, hi, Class::Return);
            let g = if f < hi && s[f] == NL {
                run(s, f + 1, hi, Class::Blank)
            } else {
                run(s, f, hi, Class::Blank)
            };
            if i < g <= hi {
                double_appends(s, g, hi, acc);
            }
        } else if named_escape(c) is Some {
            let g = encoded(named_escape(c)->0 as int);
            double_appends(s, i + 2, hi, acc + g);
            double_appends(s, i + 2, hi, none + g);
            double_regroups(acc, g, double_text(s, i + 2, hi, none));
        } else if w > 0 && i + 2 + w <= hi && digits(s, i + 2, i + 2 + w, 16) && scalar_value(
            magnitude(s, i + 2, i + 2 + w, 16),
        ) {
            let g = encoded(magnitude(s, i + 2, i + 2 + w, 16));
            double_appends(s, i + 2 + w, hi, acc + g);
            double_appends(s, i + 2 + w, hi, none + g);
            double_regroups(acc, g, double_text(s, i + 2 + w, hi, none));
        }
    }
}

proof fn double_regroups(acc: Seq<u8>, g: Seq<u8>, r: Option<Seq<u8>>)
    ensures
        prefixed(acc + g, r) == prefixed(acc, prefixed(Seq::empty() + g, r)),
{
    match r {
        Some(t) => {
            assert(acc + g + t =~= acc + (Seq::empty() + g + t));
        },
        None => {},
    }
}

proof fn double_letters_stay(s: Seq<u8>, i: int, p: int, hi: int)
    requires
        0 <= i <= p <= hi <= s.len(),
        forall|k: int| i <= k < p ==> !white(#[trigger] s[k]) && s[k] != BACKSLASH,
    ensures
        double_text(s, i, hi, Seq::empty()) == prefixed(
            s.subrange(i, p),
            double_text(s, p, hi, Seq::empty()),
        ),
    decreases p - i,
{
    let none = Seq::<u8>::empty();
    let rest = double_text(s, p, hi, none);
    if i < p {
        assert(!white(s[i]));
        double_letters_stay(s, i + 1, p, hi);
        double_appends(s, i + 1, hi, none.push(s[i]));
        if rest is Some {
            assert(none.push(s[i]) + (s.subrange(i + 1, p) + rest->0) =~= s.subrange(i, p)
                + rest->0);
        }
    } else if rest is Some {
        assert(s.subrange(i, p) + rest->0 =~= rest->0);
    }
}

/// The number that a hexadecimal digit stands for.
pub open spec fn hex(b: u8) -> int {
    if b <= 57 {
        b - 48
    } else if b >= 97 {
        b - 97 + 10
    } else {
        b - 65 + 10
    }
}

/// Whether a byte is a hexadecimal digit.
pub open spec fn is_hex(b: u8) -> bool {
    48 <= b <= 57 || 65 <= b <= 70 || 97 <= b <= 102
}

/// What the letter behind a backslash stands for.
pub open spec fn escapes() -> Seq<(u8, int)> {
    seq![
        (48u8, 0int),
        (97u8, 7int),
        (98u8, 8int),
        (116u8, 9int),
        (TAB, 9int),
        (110u8, 10int),
        (118u8, 11int),
        (102u8, 12int),
        (114u8, 13int),
        (101u8, 27int),
        (SPACE, 32int),
        (DQUOTE, 34int),
        (47u8, 47int),
        (BACKSLASH, 92int),
        (78u8, 0x85int),
        (95u8, 0xa0int),
        (76u8, 0x2028int),
        (80u8, 0x2029int),
    ]
}

/// Whether the escape at `p`, which ends at `q`, stands for the character `c`.
pub open spec fn escape_at(s: Seq<u8>, p: int, q: int, c: int) -> bool {
    &&& s[p] == BACKSLASH
    &&& {
        ||| q == p + 2 && exists|k: int|
            0 <= k < escapes().len() && #[trigger] escapes()[k] == (s[p + 1], c)
        ||| q == p + 4 && s[p + 1] == 120 && is_hex(s[p + 2]) && is_hex(s[p + 3]) && c == 16 * hex(
            s[p + 2],
        ) + hex(s[p + 3])
        ||| q == p + 6 && s[p + 1] == 117 && is_hex(s[p + 2]) && is_hex(s[p + 3]) && is_hex(
            s[p + 4],
        ) && is_hex(s[p + 5]) && c == 4096 * hex(s[p + 2]) + 256 * hex(s[p + 3]) + 16 * hex(
            s[p + 4],
        ) + hex(s[p + 5])
    }
}

/// Whether the bytes are one character, the one with the given number.
pub open spec fn is_character(b: Seq<u8>, c: int) -> bool {
    &&& valid_first_scalar(b)
    &&& length_of_first_scalar(b) == b.len()
    &&& decode_first_scalar(b) == c
}

/// The bytes of a character are its encoding.
pub proof fn characters_are_encoded(c: int)
    requires
        scalar_value(c),
    ensures
        is_character(encoded(c), c),
{
    let u = c as u32;
    if c < 0x80 {
        assert(u < 0x80 ==> ((u as u8) & 0x7f) as u32 == u) by (bit_vector);
        assert(c as u8 == u as u8);
    } else if c < 0x800 {
        let a = (0xc0 + u / 64) as u8;
        let b = (0x80 + u % 64) as u8;
        assert(((a & 0x1f) as u32) << 6 | ((b & 0x3f) as u32) == u) by (bit_vector)
            requires
                u < 0x800,
                a == (0xc0 + u / 64) as u8,
                b == (0x80 + u % 64) as u8,
        ;
        assert(encoded(c) =~= seq![a, b]);
    } else if c < 0x10000 {
        let a = (0xe0 + u / 4096) as u8;
        let b = (0x80 + u / 64 % 64) as u8;
        let d = (0x80 + u % 64) as u8;
        assert(((a & 0x0f) as u32) << 12 | (((b & 0x3f) as u32) << 6) | ((d & 0x3f) as u32) == u)
            by (bit_vector)
            requires
                u < 0x10000,
                a == (0xe0 + u / 4096) as u8,
                b == (0x80 + u / 64 % 64) as u8,
                d == (0x80 + u % 64) as u8,
        ;
        assert(encoded(c) =~= seq![a, b, d]);
    } else {
        let a = (0xf0 + u / 262144) as u8;
        let b = (0x80 + u / 4096 % 64) as u8;
        let d = (0x80 + u / 64 % 64) as u8;
        let e = (0x80 + u % 64) as u8;
        assert(((a & 0x07) as u32) << 18 | (((b & 0x3f) as u32) << 12) | (((d & 0x3f) as u32) << 6)
            | ((e & 0x3f) as u32) == u) by (bit_vector)
            requires
                u < 0x110000,
                a == (0xf0 + u / 262144) as u8,
                b == (0x80 + u / 4096 % 64) as u8,
                d == (0x80 + u / 64 % 64) as u8,
                e == (0x80 + u % 64) as u8,
        ;
        assert(encoded(c) =~= seq![a, b, d, e]);
    }
}

/// A double-quoted scalar denotes its content: letters as they are, an escape as
/// the character it stands for, white space folded, and a line break behind a
/// backslash as nothing.
pub proof fn double_quoted_scalars_are_read(s: Seq<u8>, i: int, p: int, hi: int)
    requires
        0 <= i <= p <= hi <= s.len(),
        forall|k: int| i <= k < p ==> !white(#[trigger] s[k]) && s[k] != BACKSLASH,
    ensures
        p == hi ==> double_text(s, i, hi, Seq::empty()) == Some(s.subrange(i, hi)),
        forall|q: int| #[trigger]
            word_and_gap(s, i, p, q, hi) ==> exists|gap: Seq<u8>| #[trigger]
                joins(s.subrange(p, q), gap) && double_text(s, i, hi, Seq::empty()) == prefixed(
                    s.subrange(i, p) + gap,
                    double_text(s, q, hi, Seq::empty()),
                ),
        forall|q: int, c: int| #[trigger]
            escape_at(s, p, q, c) && q <= hi && scalar_value(c) ==> exists|b: Seq<u8>| #[trigger]
                is_character(b, c) && double_text(s, i, hi, Seq::empty()) == prefixed(
                    s.subrange(i, p) + b,
                    double_text(s, q, hi, Seq::empty()),
                ),
        forall|q: int|
            p + 1 < q <= hi && s[p] == BACKSLASH && s[p + 1] == NL && (forall|k: int|
                p + 1 < k < q ==> blank(#[trigger] s[k])) && (q < hi ==> !blank(#[trigger] s[q]))
                ==> double_text(s, i, hi, Seq::empty()) == prefixed(
                s.subrange(i, p),
                double_text(s, q, hi, Seq::empty()),
            ),
{
    let none = Seq::<u8>::empty();
    double_letters_stay(s, i, p, hi);
    if p == hi {
        assert(s.subrange(i, p) + none =~= s.subrange(i, hi));
    }
    assert forall|q: int| #[trigger] word_and_gap(s, i, p, q, hi) implies exists|gap: Seq<u8>|
     #[trigger]
        joins(s.subrange(p, q), gap) && double_text(s, i, hi, none) == prefixed(
            s.subrange(i, p) + gap,
            double_text(s, q, hi, none),
        ) by {
        gaps_are_runs(s, i, p, q, hi);
        folding_joins(s, p, q);
        let gap = folded(s, p, q);
        double_appends(s, q, hi, none + gap);
        double_regroups(s.subrange(i, p), gap, double_text(s, q, hi, none));
    }
    assert forall|q: int, c: int| #[trigger]
        escape_at(s, p, q, c) && q <= hi && scalar_value(c) implies exists|b: Seq<u8>| #[trigger]
        is_character(b, c) && double_text(s, i, hi, none) == prefixed(
            s.subrange(i, p) + b,
            double_text(s, q, hi, none),
        ) by {
        characters_are_encoded(c);
        let b = encoded(c);
        escapes_are_read(s, p, q, hi, c);
        double_regroups(s.subrange(i, p), b, double_text(s, q, hi, none));
        assert(none + b =~= b);
        assert(is_character(b, c));
    }
    assert forall|q: int|
        p + 1 < q <= hi && s[p] == BACKSLASH && s[p + 1] == NL && (forall|k: int|
            p + 1 < k < q ==> blank(#[trigger] s[k])) && (q < hi ==> !blank(
            #[trigger] s[q],
        )) implies double_text(s, i, hi, none) == prefixed(
        s.subrange(i, p),
        double_text(s, q, hi, none),
    ) by {
        run_is_maximal(s, p + 1, hi, Class::Return);
        assert(run(s, p + 1, hi, Class::Return) == p + 1);
        run_is_maximal(s, p + 2, hi, Class::Blank);
        let r = run(s, p + 2, hi, Class::Blank);
        if r < q {
            assert(blank(s[r]));
        }
        if r > q {
            assert(blank(s[q]));
        }
        assert(!white(s[p]));
    }
}

proof fn escapes_are_read(s: Seq<u8>, p: int, q: int, hi: int, c: int)
    requires
        0 <= p < q <= hi <= s.len(),
        escape_at(s, p, q, c),
        scalar_value(c),
    ensures
        double_text(s, p, hi, Seq::empty()) == prefixed(
            encoded(c),
            double_text(s, q, hi, Seq::empty()),
        ),
{
    let none = Seq::<u8>::empty();
    let x = s[p + 1];
    assert(!white(s[p]));
    double_appends(s, q, hi, none + encoded(c));
    assert(none + encoded(c) =~= encoded(c));
    if q == p + 2 {
        let k = choose|k: int| 0 <= k < escapes().len() && #[trigger] escapes()[k] == (x, c);
        assert(named_escape(x) == Some(c as u32));
    } else {
        let w = q - p - 2;
        reveal_with_fuel(magnitude, 5);
        assert(named_escape(x) is None);
        assert(crate::decode::hex_width(x) == w);
        assert forall|k: int| p + 2 <= k < q implies digit_value(#[trigger] s[k]) < 16 by {}
        assert(digits(s, p + 2, q, 16));
        assert(magnitude(s, p + 2, q, 16) == c);
    }
}

} // verus!
