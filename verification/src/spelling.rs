//! What is written for a scalar is read as that scalar.
use crate::decode::{
    breaks, double_quoting_round_trips, doubled_appends, escaped_appends, folded, plain_text,
    single_text,
};
use crate::emit::{integer_text, string_for_site, value_for_site, SiteContext};
use crate::load::{scalar_data, scalar_text, string_tag};
use crate::path::{decimal, decimals_are_digits, decimals_are_read_back};
use crate::scalar::{
    block_body, block_literal, control, digit_value, digits, double_quoted, padded, doubled, false_word, integer, magnitude, null_word, plain_safe,
    plain_safe_strings_stay_strings, resolved, single_quoted, true_word, Plain,
};
use crate::syntax::{Elem, SyntaxKind};
use crate::text::{ascii_is_text, run, run_is_maximal, spaces, Class, DASH, DQUOTE, NL, PIPE, SQUOTE};
use crate::value::Data;
use vstd::prelude::*;
use vstd::string::*;
use vstd::utf8::*;

verus! {

/// The kind of scalar that a spelling is, going by its first byte.
pub open spec fn token_kind(text: Seq<u8>) -> SyntaxKind {
    if text.len() > 0 && text[0] == SQUOTE {
        SyntaxKind::SingleQuotedScalar
    } else if text.len() > 0 && text[0] == DQUOTE {
        SyntaxKind::DoubleQuotedScalar
    } else {
        SyntaxKind::PlainScalar
    }
}

/// Without a line feed there is nothing to fold.
proof fn one_line_has_no_breaks(s: Seq<u8>, i: int, j: int)
    requires
        0 <= i <= j <= s.len(),
        forall|k: int| i <= k < j ==> #[trigger] s[k] != NL,
    ensures
        breaks(s, i, j) == 0,
    decreases j - i,
{
    if i < j {
        assert(s[i] != NL);
        one_line_has_no_breaks(s, i + 1, j);
    }
}

/// A plain scalar on one line denotes its own bytes.
proof fn plain_lines_denote_themselves(s: Seq<u8>, i: int, hi: int, acc: Seq<u8>)
    requires
        0 <= i <= hi <= s.len(),
        forall|k: int| i <= k < hi ==> #[trigger] s[k] != NL,
    ensures
        plain_text(s, i, hi, acc) == acc + s.subrange(i, hi),
    decreases hi - i,
{
    let q = run(s, i, hi, Class::White);
    run_is_maximal(s, i, hi, Class::White);
    if i >= hi {
        assert(acc + s.subrange(i, hi) =~= acc);
    } else if i < q {
        one_line_has_no_breaks(s, i, q);
        plain_lines_denote_themselves(s, q, hi, acc + folded(s, i, q));
        assert(acc + s.subrange(i, q) + s.subrange(q, hi) =~= acc + s.subrange(i, hi));
    } else {
        plain_lines_denote_themselves(s, i + 1, hi, acc.push(s[i]));
        assert(acc.push(s[i]) + s.subrange(i + 1, hi) =~= acc + s.subrange(i, hi));
    }
}

/// White space on one line is taken byte by byte.
proof fn single_text_takes_one_blank(raw: Seq<u8>, k: int, hi: int, acc: Seq<u8>)
    requires
        0 <= k < hi <= raw.len(),
        crate::text::in_class(raw[k], Class::White),
        forall|m: int| k <= m < hi ==> #[trigger] raw[m] != NL,
    ensures
        single_text(raw, k, hi, acc) == single_text(raw, k + 1, hi, acc.push(raw[k])),
{
    let q = run(raw, k, hi, Class::White);
    assert(q == run(raw, k + 1, hi, Class::White));
    run_is_maximal(raw, k + 1, hi, Class::White);
    one_line_has_no_breaks(raw, k, q);
    one_line_has_no_breaks(raw, k + 1, q);
    if q == k + 1 {
        assert(acc + raw.subrange(k, q) =~= acc.push(raw[k]));
    } else {
        assert(acc + raw.subrange(k, q) =~= acc.push(raw[k]) + raw.subrange(k + 1, q));
    }
}

/// Doubling quotes adds no line feed.
proof fn doubling_adds_no_feed(s: Seq<u8>, i: int, k: int)
    requires
        0 <= i <= s.len(),
        forall|m: int| 0 <= m < s.len() ==> #[trigger] s[m] != NL,
        0 <= k < doubled(s, i, Seq::empty()).len(),
    ensures
        doubled(s, i, Seq::empty())[k] != NL,
    decreases s.len() - i,
{
    if i < s.len() {
        if s[i] == SQUOTE {
            let step = Seq::<u8>::empty().push(SQUOTE).push(SQUOTE);
            doubled_appends(s, i + 1, step);
            if k >= 2 {
                doubling_adds_no_feed(s, i + 1, k - 2);
            }
        } else {
            let step = Seq::<u8>::empty().push(s[i]);
            doubled_appends(s, i + 1, step);
            if k >= 1 {
                doubling_adds_no_feed(s, i + 1, k - 1);
            }
        }
    }
}

/// Reading undoes the doubling of quotes, on one line.
proof fn reading_reverses_doubling(
    s: Seq<u8>,
    i: int,
    raw: Seq<u8>,
    k: int,
    hi: int,
    acc: Seq<u8>,
)
    requires
        0 <= i <= s.len(),
        0 <= k <= hi <= raw.len(),
        forall|m: int| 0 <= m < s.len() ==> #[trigger] s[m] != NL,
        raw.subrange(k, hi) == doubled(s, i, Seq::empty()),
    ensures
        single_text(raw, k, hi, acc) == acc + s.subrange(i, s.len() as int),
    decreases s.len() - i,
{
    let part = raw.subrange(k, hi);
    assert forall|m: int| k <= m < hi implies #[trigger] raw[m] != NL by {
        doubling_adds_no_feed(s, i, m - k);
        assert(part[m - k] == raw[m]);
    }
    if i < s.len() {
        let rest = doubled(s, i + 1, Seq::empty());
        if s[i] == SQUOTE {
            doubled_appends(s, i + 1, Seq::<u8>::empty().push(SQUOTE).push(SQUOTE));
            assert(part == Seq::<u8>::empty().push(SQUOTE).push(SQUOTE) + rest);
            assert(part.len() == hi - k);
            assert(part[0] == SQUOTE && part[1] == SQUOTE);
            assert(raw[k] == part[0] && raw[k + 1] == part[1]);
            assert(raw.subrange(k + 2, hi) =~= rest) by {
                assert(part.subrange(2, part.len() as int) =~= rest);
            }
            assert(run(raw, k, hi, Class::White) == k);
            reading_reverses_doubling(s, i + 1, raw, k + 2, hi, acc.push(SQUOTE));
        } else {
            doubled_appends(s, i + 1, Seq::<u8>::empty().push(s[i]));
            assert(part == Seq::<u8>::empty().push(s[i]) + rest);
            assert(part.len() == hi - k);
            assert(part[0] == s[i]);
            assert(raw[k] == part[0]);
            assert(raw.subrange(k + 1, hi) =~= rest) by {
                assert(part.subrange(1, part.len() as int) =~= rest);
            }
            if crate::text::in_class(raw[k], Class::White) {
                single_text_takes_one_blank(raw, k, hi, acc);
            } else {
                assert(run(raw, k, hi, Class::White) == k);
            }
            reading_reverses_doubling(s, i + 1, raw, k + 1, hi, acc.push(s[i]));
        }
        assert(acc.push(s[i]) + s.subrange(i + 1, s.len() as int) =~= acc + s.subrange(
            i,
            s.len() as int,
        ));
    } else {
        assert(part.len() == 0);
        assert(acc + s.subrange(i, s.len() as int) =~= acc);
    }
}

/// Digits behind a sign denote what they denote without it.
proof fn signs_do_not_count(d: Seq<u8>, k: int)
    requires
        0 <= k <= d.len(),
    ensures
        magnitude(seq![DASH] + d, 1, k + 1, 10) == magnitude(d, 0, k, 10),
    decreases k,
{
    if k > 0 {
        signs_do_not_count(d, k - 1);
        assert((seq![DASH] + d)[k] == d[k - 1]);
    }
}

/// The spelling of an integer denotes it.
proof fn integers_are_read_back(i: i64)
    ensures
        integer(integer_text(i)) == Some(i),
        integer_text(i).len() > 0,
        integer_text(i)[0] == DASH || 48 <= integer_text(i)[0] <= 57,
        forall|k: int|
            0 <= k < integer_text(i).len() ==> #[trigger] integer_text(i)[k] != NL
                && integer_text(i)[k] < 128,
{
    let n = if i < 0 {
        (0 - i) as nat
    } else {
        i as nat
    };
    let d = decimal(n);
    decimals_are_digits(n);
    decimals_are_read_back(n);
    if i < 0 {
        let s = seq![DASH] + d;
        signs_do_not_count(d, d.len() as int);
        assert(digits(s, 1, s.len() as int, 10)) by {
            assert forall|k: int| 1 <= k < s.len() implies digit_value(#[trigger] s[k]) < 10 by {
                assert(s[k] == d[k - 1]);
            }
        }
        assert forall|k: int| 0 <= k < s.len() implies #[trigger] s[k] != NL && s[k] < 128 by {
            if k > 0 {
                assert(s[k] == d[k - 1]);
            }
        }
    }
}

/// A word of ASCII letters is spelled by its letters.
proof fn words_are_their_letters(w: &str)
    requires
        is_ascii_chars(w@),
    ensures
        w.spec_bytes().len() == w@.len(),
        forall|i: int| 0 <= i < w@.len() ==> #[trigger] w.spec_bytes()[i] == w@[i] as u8,
{
    is_ascii_chars_encode_utf8(w@);
}

/// The words for null, true and false start with letters or a tilde.
proof fn words_start_like_words(s: Seq<u8>)
    ensures
        null_word(s) ==> s.len() > 0 && (s[0] == 110 || s[0] == 78 || s[0] == 126),
        true_word(s) ==> s.len() > 0 && (s[0] == 116 || s[0] == 84),
        false_word(s) ==> s.len() > 0 && (s[0] == 102 || s[0] == 70),
{
    reveal_strlit("null");
    reveal_strlit("Null");
    reveal_strlit("NULL");
    reveal_strlit("~");
    reveal_strlit("true");
    reveal_strlit("True");
    reveal_strlit("TRUE");
    reveal_strlit("false");
    reveal_strlit("False");
    reveal_strlit("FALSE");
    words_are_their_letters("null");
    words_are_their_letters("Null");
    words_are_their_letters("NULL");
    words_are_their_letters("~");
    words_are_their_letters("true");
    words_are_their_letters("True");
    words_are_their_letters("TRUE");
    words_are_their_letters("false");
    words_are_their_letters("False");
    words_are_their_letters("FALSE");
    assert("null"@[0] == 'n');
    assert("Null"@[0] == 'N');
    assert("NULL"@[0] == 'N');
    assert("~"@[0] == '~');
    assert("true"@[0] == 't');
    assert("True"@[0] == 'T');
    assert("TRUE"@[0] == 'T');
    assert("false"@[0] == 'f');
    assert("False"@[0] == 'F');
    assert("FALSE"@[0] == 'F');
}

/// Whether a value is a scalar that a document can hold: a string is valid
/// text, and a number that is no integer is spelled like one.
pub open spec fn scalar(d: Data) -> bool {
    match d {
        Data::Null => true,
        Data::Bool(_) => true,
        Data::Int(_) => true,
        Data::Float(t) => valid_utf8(t) && !t.contains(NL) && token_kind(t)
            == SyntaxKind::PlainScalar && resolved(t) == Plain::Float,
        Data::Text(t) => valid_utf8(t),
        _ => false,
    }
}

/// Whether a scalar is spelled on one line: it has no line feed, or its
/// spelling is in double quotes, where a line feed is escaped.
pub open spec fn on_one_line(d: Data, text: Seq<u8>) -> bool {
    d matches Data::Text(t) ==> !t.contains(NL) || token_kind(text)
        == SyntaxKind::DoubleQuotedScalar
}

/// A token with the given kind that is the whole of a text.
pub open spec fn whole_token(e: Elem, kind: SyntaxKind, text: Seq<u8>) -> bool {
    e.kind == kind && e.start == 0 && e.end == text.len()
}

/// The double-quoted spelling of a string, as a token, denotes the string.
proof fn double_spelling(t: Seq<u8>, e: Elem)
    requires
        whole_token(e, SyntaxKind::DoubleQuotedScalar, double_quoted(t)),
    ensures
        scalar_text(double_quoted(t), e) == Some(t),
{
    double_quoting_round_trips(t);
}

/// The single-quoted spelling of a string without a line feed, as a token,
/// denotes the string.
proof fn single_spelling(t: Seq<u8>, e: Elem)
    requires
        !t.contains(NL),
        whole_token(e, SyntaxKind::SingleQuotedScalar, single_quoted(t)),
    ensures
        scalar_text(single_quoted(t), e) == Some(t),
{
    let f = single_quoted(t);
    let n = f.len() as int;
    doubled_appends(t, 0, seq![SQUOTE]);
    assert(f.subrange(1, n - 1) =~= doubled(t, 0, Seq::empty()));
    assert forall|k: int| 0 <= k < t.len() implies #[trigger] t[k] != NL by {
        assert(t.contains(t[k]));
    }
    reading_reverses_doubling(t, 0, f, 1, n - 1, Seq::empty());
    assert(Seq::<u8>::empty() + t.subrange(0, t.len() as int) =~= t);
}

/// A text without a line feed, as a plain token, denotes itself.
proof fn plain_spelling(t: Seq<u8>, e: Elem)
    requires
        forall|k: int| 0 <= k < t.len() ==> #[trigger] t[k] != NL,
        whole_token(e, SyntaxKind::PlainScalar, t),
    ensures
        scalar_text(t, e) == Some(t),
{
    plain_lines_denote_themselves(t, 0, t.len() as int, Seq::empty());
    assert(Seq::<u8>::empty() + t.subrange(0, t.len() as int) =~= t);
}

/// Which spelling a string gets, going by its first byte.
proof fn spellings_show_at_the_start(t: Seq<u8>)
    ensures
        double_quoted(t).len() > 0,
        double_quoted(t)[0] == DQUOTE,
        single_quoted(t).len() > 0,
        single_quoted(t)[0] == SQUOTE,
        plain_safe(t) ==> t.len() > 0 && t[0] != SQUOTE && t[0] != DQUOTE,
{
    escaped_appends(t, 0, seq![DQUOTE]);
    doubled_appends(t, 0, seq![SQUOTE]);
}

/// A literal block scalar starts with its indicator.
proof fn block_literals_start_with_a_bar(t: Seq<u8>, column: int)
    ensures
        block_literal(t, column).len() > 0,
        block_literal(t, column)[0] == PIPE,
{
    let header = if block_body(t) == t {
        seq![PIPE, DASH, NL]
    } else {
        seq![PIPE, NL]
    };
    padding_keeps_the_start(block_body(t), 0, column + 2, header + spaces(column + 2));
}

/// Padding lines keeps what is in front of them.
proof fn padding_keeps_the_start(s: Seq<u8>, i: int, pad: int, acc: Seq<u8>)
    requires
        acc.len() > 0,
    ensures
        padded(s, i, pad, acc).len() > 0,
        padded(s, i, pad, acc)[0] == acc[0],
    decreases s.len() - i,
{
    if i < s.len() {
        if s[i] == NL {
            padding_keeps_the_start(s, i + 1, pad, acc.push(NL) + spaces(pad));
        } else {
            padding_keeps_the_start(s, i + 1, pad, acc.push(s[i]));
        }
    }
}

/// A string that is not written as a block scalar is written plain, in single
/// quotes or in double quotes.
proof fn strings_have_three_spellings(t: Seq<u8>, ctx: SiteContext)
    requires
        string_for_site(t, ctx) is Ok,
        on_one_line(Data::Text(t), string_for_site(t, ctx)->Ok_0),
    ensures
        ({
            let f = string_for_site(t, ctx)->Ok_0;
            ||| f == double_quoted(t)
            ||| f == single_quoted(t) && !t.contains(NL)
            ||| f == t && plain_safe(t)
        }),
{
    spellings_show_at_the_start(t);
    block_literals_start_with_a_bar(t, ctx.column as int);
}

/// What is written for a string is read as that string.
proof fn written_strings_are_read_back(t: Seq<u8>, ctx: SiteContext, e: Elem)
    requires
        string_for_site(t, ctx) is Ok,
        on_one_line(Data::Text(t), string_for_site(t, ctx)->Ok_0),
        whole_token(
            e,
            token_kind(string_for_site(t, ctx)->Ok_0),
            string_for_site(t, ctx)->Ok_0,
        ),
    ensures
        scalar_text(string_for_site(t, ctx)->Ok_0, e) == Some(t),
        e.kind == SyntaxKind::PlainScalar ==> resolved(t) == Plain::Text,
{
    let f = string_for_site(t, ctx)->Ok_0;
    strings_have_three_spellings(t, ctx);
    spellings_show_at_the_start(t);
    if f == double_quoted(t) {
        double_spelling(t, e);
    } else if f == single_quoted(t) {
        single_spelling(t, e);
    } else {
        plain_safe_strings_stay_strings(t);
        assert forall|k: int| 0 <= k < t.len() implies #[trigger] t[k] != NL by {
            assert(!control(t[k]));
        }
        plain_spelling(t, e);
    }
}

/// Without a tag, a scalar is what its text says.
proof fn no_tag_changes_nothing(text: Seq<u8>, plain: bool)
    requires
        valid_utf8(text),
    ensures
        scalar_data(text, plain, Seq::empty()) == (if plain {
            match resolved(text) {
                Plain::Null => Data::Null,
                Plain::Bool(b) => Data::Bool(b),
                Plain::Int(i) => Data::Int(i),
                Plain::Float => Data::Float(text),
                Plain::Text => Data::Text(text),
            }
        } else {
            Data::Text(text)
        }),
{
    reveal_strlit("!!str");
    reveal_strlit("!");
    words_are_their_letters("!!str");
    words_are_their_letters("!");
    assert(!string_tag(Seq::empty()));
}

/// The words for null, true and false, as plain tokens, denote what they say.
proof fn words_are_read_back(d: Data, e: Elem)
    requires
        d is Null || d is Bool,
        ({
            let w = if d is Null {
                "null"
            } else if d == Data::Bool(true) {
                "true"
            } else {
                "false"
            };
            whole_token(e, SyntaxKind::PlainScalar, w.spec_bytes())
        }),
    ensures
        ({
            let w = if d is Null {
                "null"
            } else if d == Data::Bool(true) {
                "true"
            } else {
                "false"
            };
            &&& scalar_text(w.spec_bytes(), e) == Some(w.spec_bytes())
            &&& scalar_data(w.spec_bytes(), true, Seq::empty()) == d
        }),
{
    let w = if d is Null {
        "null"
    } else if d == Data::Bool(true) {
        "true"
    } else {
        "false"
    };
    let f = w.spec_bytes();
    reveal_strlit("null");
    reveal_strlit("true");
    reveal_strlit("false");
    words_are_their_letters(w);
    words_start_like_words(f);
    assert forall|k: int| 0 <= k < f.len() implies #[trigger] f[k] != NL by {
        assert(f[k] == w@[k] as u8);
    }
    plain_spelling(f, e);
    broadcast use encode_utf8_valid_utf8;

    no_tag_changes_nothing(f, true);
}

/// What is written in the place of a scalar, as one token `e`, is read as the
/// value it was written for, whatever stood there before and however the
/// neighbours are written.
pub proof fn written_scalars_are_read_back(d: Data, ctx: SiteContext, e: Elem)
    requires
        scalar(d),
        value_for_site(d, ctx) is Ok,
        on_one_line(d, value_for_site(d, ctx)->Ok_0),
        whole_token(e, token_kind(value_for_site(d, ctx)->Ok_0), value_for_site(d, ctx)->Ok_0),
    ensures
        scalar_text(value_for_site(d, ctx)->Ok_0, e) is Some,
        scalar_data(
            scalar_text(value_for_site(d, ctx)->Ok_0, e)->0,
            e.kind == SyntaxKind::PlainScalar,
            Seq::empty(),
        ) == d,
{
    let f = value_for_site(d, ctx)->Ok_0;
    match d {
        Data::Text(t) => {
            written_strings_are_read_back(t, ctx, e);
            no_tag_changes_nothing(t, e.kind == SyntaxKind::PlainScalar);
        },
        Data::Int(i) => {
            integers_are_read_back(i);
            words_start_like_words(f);
            plain_spelling(f, e);
            ascii_is_text(f);
            no_tag_changes_nothing(f, true);
        },
        Data::Float(t) => {
            assert forall|k: int| 0 <= k < t.len() implies #[trigger] t[k] != NL by {
                assert(t.contains(t[k]));
            }
            plain_spelling(f, e);
            no_tag_changes_nothing(f, true);
        },
        _ => {
            words_start_like_words(f);
            words_are_read_back(d, e);
        },
    }
}

} // verus!
