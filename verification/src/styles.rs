//! How edits choose the way in which values are written.
use crate::blocks::{padding_appends, starts_line};
use crate::decode::{doubled_appends, escaped_appends};
use crate::emit::{
    entry_tail, filled, key_for_site, key_in_flow, key_text, string_for_site, text_in_block,
    text_in_flow, SiteContext,
};
use crate::growth::{dedented, indented_by, indented_lines_follow, runs_over, spaces_at};
use crate::lines::reindented;
use crate::load::count_of;
use crate::model::{collection_style, past_trivia, quote_style, value_of_kind, values_of};
use crate::scalar::{block_body, block_literal, block_literal_safe, control, plain_safe};
use crate::site::{FlowStyle, ScalarStyle};
use crate::syntax::{trivia_kind, Elem, SyntaxKind};
use crate::text::{
    flow_indicator, run, run_is_maximal, spaces, Class, COLON, CR, DASH, DQUOTE, HASH, NL, PIPE,
    SPACE, SQUOTE,
};
use crate::typing::{says, says_null};
use crate::value::Data;
use vstd::prelude::*;
use vstd::string::*;

verus! {

/// Whether a text stands between two quotes of the given kind.
pub open spec fn between(text: Seq<u8>, quote: u8) -> bool {
    text.len() >= 2 && text[0] == quote && text.last() == quote
}

/// Whether a text holds a line break.
pub open spec fn has_break(s: Seq<u8>) -> bool {
    s.contains(NL) || s.contains(CR)
}

/// A string keeps the quotes of what it replaces: double ones always, single ones
/// where they can hold it.
pub proof fn strings_keep_the_quotes_of_their_site(s: Seq<u8>, ctx: SiteContext)
    requires
        !s.contains(NL),
    ensures
        ctx.kind == SyntaxKind::DoubleQuotedScalar ==> string_for_site(s, ctx) is Ok && between(
            string_for_site(s, ctx)->Ok_0,
            DQUOTE,
        ),
        ctx.kind == SyntaxKind::SingleQuotedScalar ==> string_for_site(s, ctx) is Ok && between(
            string_for_site(s, ctx)->Ok_0,
            if has_break(s) {
                DQUOTE
            } else {
                SQUOTE
            },
        ),
{
    escaped_appends(s, 0, seq![DQUOTE]);
    doubled_appends(s, 0, seq![SQUOTE]);
}

/// In the place of a plain scalar a string takes the quotes that its neighbours
/// agree on. Where they agree on none it is written as it is, if it can be, and
/// in double quotes otherwise.
pub proof fn strings_follow_their_neighbours(s: Seq<u8>, ctx: SiteContext)
    requires
        !has_break(s),
        ctx.kind == SyntaxKind::PlainScalar,
    ensures
        string_for_site(s, ctx) is Ok,
        ctx.neighbour == Some(SyntaxKind::SingleQuotedScalar) ==> between(
            string_for_site(s, ctx)->Ok_0,
            SQUOTE,
        ),
        ctx.neighbour == Some(SyntaxKind::DoubleQuotedScalar) ==> between(
            string_for_site(s, ctx)->Ok_0,
            DQUOTE,
        ),
        ctx.neighbour is None && plain_safe(s) && !(ctx.flow && exists|i: int|
            0 <= i < s.len() && flow_indicator(#[trigger] s[i])) ==> string_for_site(s, ctx)->Ok_0
            == s,
        ctx.neighbour is None && !plain_safe(s) ==> between(string_for_site(s, ctx)->Ok_0, DQUOTE),
{
    escaped_appends(s, 0, seq![DQUOTE]);
    doubled_appends(s, 0, seq![SQUOTE]);
}

/// Several lines are written as a literal block scalar wherever that can hold them
/// and nothing follows on the line.
pub proof fn several_lines_make_a_block(s: Seq<u8>, ctx: SiteContext)
    requires
        s.contains(NL),
        !ctx.flow,
        !ctx.followed,
        block_literal_safe(s),
        ctx.kind == SyntaxKind::PlainScalar || ctx.kind == SyntaxKind::SingleQuotedScalar || ctx.kind
            == SyntaxKind::DoubleQuotedScalar,
    ensures
        string_for_site(s, ctx) matches Ok(t) && t.len() > 0 && t[0] == PIPE,
{
    block_literals_open(s, ctx.column as int);
}

proof fn block_literals_open(s: Seq<u8>, column: int)
    ensures
        block_literal(s, column).len() > 0,
        block_literal(s, column)[0] == PIPE,
{
    let body = block_body(s);
    let header = if body == s {
        seq![PIPE, DASH, NL]
    } else {
        seq![PIPE, NL]
    };
    padding_appends(body, 0, column + 2, header + spaces(column + 2));
}

/// Whether element `j` is a `:` behind element `i`, with only trivia between them.
pub open spec fn colon_behind(t: Seq<Elem>, i: int, j: int) -> bool {
    &&& i < j < t.len()
    &&& t[j].kind == SyntaxKind::ColonIndicator
    &&& forall|k: int| i < k < j ==> trivia_kind((#[trigger] t[k]).kind)
}

/// Whether element `i` is a scalar of the kind that is a value: no `:` follows it.
pub open spec fn is_value(t: Seq<Elem>, i: int, kind: SyntaxKind) -> bool {
    t[i].kind == kind && forall|j: int| !#[trigger] colon_behind(t, i, j)
}

proof fn trivia_is_passed(t: Seq<Elem>, i: int)
    requires
        0 <= i <= t.len(),
    ensures
        i <= past_trivia(t, i) <= t.len(),
        past_trivia(t, i) < t.len() ==> !trivia_kind(t[past_trivia(t, i)].kind),
        forall|k: int| i <= k < past_trivia(t, i) ==> trivia_kind((#[trigger] t[k]).kind),
    decreases t.len() - i,
{
    if i < t.len() && trivia_kind(t[i].kind) {
        trivia_is_passed(t, i + 1);
    }
}

proof fn values_are_values(t: Seq<Elem>, i: int, kind: SyntaxKind)
    requires
        0 <= i < t.len(),
    ensures
        value_of_kind(t, i, kind) == is_value(t, i, kind),
{
    trivia_is_passed(t, i + 1);
    let j = past_trivia(t, i + 1);
    if j < t.len() && t[j].kind == SyntaxKind::ColonIndicator {
        assert(colon_behind(t, i, j));
    }
    assert forall|x: int| #[trigger] colon_behind(t, i, x) implies x == j by {
        if j < x {
            assert(trivia_kind(t[j].kind));
        }
        if x < j {
            assert(trivia_kind(t[x].kind));
        }
    }
}

/// The indices below `n` of the values of a kind.
pub open spec fn values_below(t: Seq<Elem>, kind: SyntaxKind, n: int) -> Seq<int> {
    Seq::new(n as nat, |i: int| i).filter(|i: int| is_value(t, i, kind))
}

proof fn values_are_counted(t: Seq<Elem>, kind: SyntaxKind, n: int)
    requires
        0 <= n <= t.len(),
    ensures
        values_of(t, kind, n) == values_below(t, kind, n).len(),
    decreases n,
{
    reveal(Seq::filter);
    let all = Seq::new(n as nat, |i: int| i);
    if n > 0 {
        values_are_counted(t, kind, n - 1);
        values_are_values(t, n - 1, kind);
        assert(all.drop_last() =~= Seq::new((n - 1) as nat, |i: int| i));
    }
}

/// How scalars are written goes by how most values of the document are written;
/// keys do not count, and the simpler way wins a tie.
pub proof fn scalars_follow_the_majority(t: Seq<Elem>)
    ensures
        ({
            let n = t.len() as int;
            let plain = values_below(t, SyntaxKind::PlainScalar, n).len();
            let single = values_below(t, SyntaxKind::SingleQuotedScalar, n).len();
            let double = values_below(t, SyntaxKind::DoubleQuotedScalar, n).len();
            &&& plain >= single && plain >= double ==> quote_style(t) == ScalarStyle::Plain
            &&& single > plain && single >= double ==> quote_style(t) == ScalarStyle::SingleQuoted
            &&& double > plain && double > single ==> quote_style(t) == ScalarStyle::DoubleQuoted
        }),
{
    let n = t.len() as int;
    values_are_counted(t, SyntaxKind::PlainScalar, n);
    values_are_counted(t, SyntaxKind::SingleQuotedScalar, n);
    values_are_counted(t, SyntaxKind::DoubleQuotedScalar, n);
}

/// The elements of a kind.
pub open spec fn of_kind(t: Seq<Elem>, kind: SyntaxKind) -> Seq<Elem> {
    t.filter(|e: Elem| e.kind == kind)
}

pub(crate) proof fn kinds_are_counted(t: Seq<Elem>, kind: SyntaxKind, n: int)
    requires
        0 <= n <= t.len(),
    ensures
        count_of(t, kind, n) == of_kind(t.take(n), kind).len(),
    decreases n,
{
    reveal(Seq::filter);
    if n > 0 {
        kinds_are_counted(t, kind, n - 1);
        assert(t.take(n).drop_last() =~= t.take(n - 1));
    }
}

/// Collections are written in flow style exactly if more collections of the
/// document are than are not.
pub proof fn collections_follow_the_majority(t: Seq<Elem>)
    ensures
        (collection_style(t) == FlowStyle::Auto) == (of_kind(t, SyntaxKind::FlowMapping).len()
            + of_kind(t, SyntaxKind::FlowSequence).len() > of_kind(
            t,
            SyntaxKind::BlockMapping,
        ).len() + of_kind(t, SyntaxKind::BlockSequence).len()),
        collection_style(t) == FlowStyle::Auto || collection_style(t) == FlowStyle::Block,
{
    let n = t.len() as int;
    assert(t.take(n) =~= t);
    kinds_are_counted(t, SyntaxKind::FlowMapping, n);
    kinds_are_counted(t, SyntaxKind::FlowSequence, n);
    kinds_are_counted(t, SyntaxKind::BlockMapping, n);
    kinds_are_counted(t, SyntaxKind::BlockSequence, n);
}

proof fn reindenting_appends(s: Seq<u8>, i: int, n: int, acc: Seq<u8>)
    requires
        0 <= i <= s.len(),
    ensures
        reindented(s, i, n, acc) == acc + reindented(s, i, n, Seq::empty()),
    decreases s.len() - i,
{
    let none = Seq::<u8>::empty();
    if i < s.len() {
        let one = if s[i] == NL && i + 1 < s.len() && s[i + 1] != NL {
            seq![NL] + spaces(n)
        } else {
            seq![s[i]]
        };
        reindenting_appends(s, i + 1, n, acc + one);
        reindenting_appends(s, i + 1, n, none + one);
        assert(acc.push(NL) + spaces(n) =~= acc + (seq![NL] + spaces(n)));
        assert(none.push(NL) + spaces(n) =~= none + (seq![NL] + spaces(n)));
        assert(acc.push(s[i]) =~= acc + seq![s[i]]);
        assert(none.push(s[i]) =~= none + seq![s[i]]);
        let rest = reindented(s, i + 1, n, none);
        assert((acc + one) + rest =~= acc + ((none + one) + rest));
    } else {
        assert(acc + none =~= acc);
    }
}

/// The lines of `s[i..]`, the empty ones as they are and the others behind `n`
/// spaces.
spec fn shown(s: Seq<u8>, i: int, n: int) -> Seq<u8> {
    (if i < s.len() && s[i] != NL {
        spaces(n)
    } else {
        Seq::empty()
    }) + reindented(s, i, n, Seq::empty())
}

proof fn letters_are_reindented(s: Seq<u8>, i: int, e: int, n: int)
    requires
        0 <= i <= e <= s.len(),
        forall|k: int| i <= k < e ==> #[trigger] s[k] != NL,
    ensures
        reindented(s, i, n, Seq::empty()) == s.subrange(i, e) + reindented(s, e, n, Seq::empty()),
    decreases e - i,
{
    if i < e {
        letters_are_reindented(s, i + 1, e, n);
        reindenting_appends(s, i + 1, n, Seq::empty().push(s[i]));
    }
    assert(reindented(s, i, n, Seq::empty()) =~= s.subrange(i, e) + reindented(
        s,
        e,
        n,
        Seq::empty(),
    ));
}

proof fn lines_are_shown(s: Seq<u8>, i: int, n: int)
    requires
        0 <= i <= s.len(),
        0 <= n,
    ensures
        indented_by(shown(s, i, n), n),
        dedented(shown(s, i, n), n) == s.subrange(i, s.len() as int),
    decreases s.len() - i,
{
    let hi = s.len() as int;
    let none = Seq::<u8>::empty();
    let t = shown(s, i, n);
    let all = s.subrange(i, hi);
    if i == hi {
        assert(t =~= none);
        assert(all =~= none);
    } else {
        let e = run(s, i, hi, Class::Line);
        run_is_maximal(s, i, hi, Class::Line);
        letters_are_reindented(s, i, e, n);
        let line = s.subrange(i, e);
        let one = if e == i {
            none
        } else {
            spaces(n) + line
        };
        let w = one.len() as int;
        assert forall|k: int| 0 <= k < w implies #[trigger] one[k] != NL by {
            if k >= n {
                assert(one[k] == s[i + k - n]);
            }
        }
        if e < hi {
            lines_are_shown(s, e + 1, n);
            let rest = shown(s, e + 1, n);
            let joint = if e + 1 < hi && s[e + 1] != NL {
                seq![NL] + spaces(n)
            } else {
                seq![NL]
            };
            reindenting_appends(s, e + 1, n, none + joint);
            assert(none.push(NL) + spaces(n) =~= none + (seq![NL] + spaces(n)));
            assert(none.push(s[e]) =~= none + seq![NL]);
            assert(t =~= one.push(NL) + rest);
            assert(e == i ==> one.push(NL) =~= seq![NL]);
            assert(e != i ==> spaces_at(one.push(NL), 0, n));
            indented_lines_follow(one.push(NL), rest, n);
            assert forall|k: int| 0 <= k < w implies #[trigger] t[k] != NL by {
                assert(t[k] == one[k]);
            }
            assert(t[w] == NL);
            runs_over(t, 0, t.len() as int, Class::Line, w);
            assert(t.subrange(w + 1, t.len() as int) =~= rest);
            assert(e != i ==> t.subrange(n, w) =~= line);
            assert(e == i && n == 0 ==> t.subrange(n, w) =~= line);
            assert(line + seq![NL] + s.subrange(e + 1, hi) =~= all);
        } else {
            assert(reindented(s, e, n, none) =~= none);
            assert(t =~= one);
            runs_over(t, 0, t.len() as int, Class::Line, w);
            assert(t.subrange(n, w) =~= all);
            assert forall|x: int| #[trigger] starts_line(t, x) && t[x] != NL implies spaces_at(
                t,
                x,
                n,
            ) by {
                if x > 0 {
                    assert(t[x - 1] != NL);
                }
            }
        }
    }
}

/// A collection under a key is written below it, with all its lines to the right
/// of the key by one step of the document's indentation, and is what it is by
/// itself once that indentation is taken away.
pub proof fn collections_are_written_below_their_key(d: Data, t: Seq<u8>, unit: int)
    requires
        filled(d),
        0 <= unit,
        t.len() > 0,
        t[0] != NL,
    ensures
        ({
            let tail = entry_tail(d, t, unit);
            let below = tail.subrange(1, tail.len() as int);
            &&& tail.len() > 0
            &&& tail[0] == NL
            &&& indented_by(below, unit)
            &&& dedented(below, unit) == t
        }),
{
    let tail = entry_tail(d, t, unit);
    lines_are_shown(t, 0, unit);
    assert(tail.subrange(1, tail.len() as int) =~= shown(t, 0, unit));
    assert(t.subrange(0, t.len() as int) =~= t);
}

/// The lines of an item but the first stand below what follows its `-`: behind as
/// many spaces, and as they were once these are taken away.
pub proof fn items_are_written_behind_their_dash(t: Seq<u8>, indent: int)
    requires
        0 <= indent,
        t.len() > 0,
        t[0] != NL,
    ensures
        indented_by(spaces(indent) + reindented(t, 0, indent, Seq::empty()), indent),
        dedented(spaces(indent) + reindented(t, 0, indent, Seq::empty()), indent) == t,
{
    lines_are_shown(t, 0, indent);
    assert(t.subrange(0, t.len() as int) =~= t);
}

/// A key keeps the quotes of the one it replaces: double ones always, single ones
/// where they can hold it. In the place of a plain key it is plain if it can be.
pub proof fn keys_keep_the_quotes_of_their_site(key: Seq<u8>, kind: SyntaxKind)
    ensures
        kind == SyntaxKind::DoubleQuotedScalar ==> between(key_for_site(key, kind), DQUOTE),
        kind == SyntaxKind::SingleQuotedScalar && (forall|i: int|
            0 <= i < key.len() ==> 32 <= #[trigger] key[i] && key[i] != 127) ==> between(
            key_for_site(key, kind),
            SQUOTE,
        ),
        kind == SyntaxKind::PlainScalar && plain_safe(key) ==> key_for_site(key, kind) == key,
        kind == SyntaxKind::PlainScalar && !plain_safe(key) ==> between(
            key_for_site(key, kind),
            DQUOTE,
        ),
{
    escaped_appends(key, 0, seq![DQUOTE]);
    doubled_appends(key, 0, seq![SQUOTE]);
}

/// Whether a byte is a letter or an underscore.
pub open spec fn letter(b: u8) -> bool {
    65 <= b <= 90 || 97 <= b <= 122 || b == 95
}

/// Whether a byte is a letter, a digit, or one of `-`, `.` and `/`.
pub open spec fn word_byte(b: u8) -> bool {
    letter(b) || 45 <= b <= 57
}

/// Whether a text is a word that older readers take for a truth value.
pub open spec fn says_switch(t: Seq<u8>) -> bool {
    ||| t == "yes".spec_bytes() || t == "Yes".spec_bytes() || t == "YES".spec_bytes()
    ||| t == "no".spec_bytes() || t == "No".spec_bytes() || t == "NO".spec_bytes()
    ||| t == "on".spec_bytes() || t == "On".spec_bytes() || t == "ON".spec_bytes()
    ||| t == "off".spec_bytes() || t == "Off".spec_bytes() || t == "OFF".spec_bytes()
}

/// A word is written as it is, unless it says something else than a string, or did
/// to older readers.
pub proof fn words_are_plain(t: Seq<u8>)
    requires
        t.len() > 0,
        letter(t[0]),
        forall|i: int| 0 <= i < t.len() ==> word_byte(#[trigger] t[i]),
    ensures
        plain_safe(t) <==> !says_null(t) && !says(t, true) && !says(t, false) && !says_switch(t),
{
    assert(word_byte(t[t.len() - 1]));
    assert forall|i: int| 0 <= i < t.len() implies !control(#[trigger] t[i]) by {
        assert(word_byte(t[i]));
    }
    assert forall|i: int| 1 <= i < t.len() implies !(#[trigger] t[i] == SPACE && t[i - 1] == COLON)
        && !(t[i] == HASH && t[i - 1] == SPACE) by {
        assert(word_byte(t[i]));
    }
}

/// A string in a flow collection stands between quotes, or is plain and holds
/// nothing that a flow collection is made of.
pub proof fn flow_strings_can_stand_in_flow(t: Seq<u8>, quote: ScalarStyle)
    ensures
        ({
            let r = text_in_flow(t, quote);
            between(r, DQUOTE) || between(r, SQUOTE) || (r == t && plain_safe(t) && forall|i: int|
                0 <= i < t.len() ==> !flow_indicator(#[trigger] t[i]))
        }),
        quote == ScalarStyle::DoubleQuoted ==> between(text_in_flow(t, quote), DQUOTE),
        quote == ScalarStyle::Plain && plain_safe(t) && (forall|i: int|
            0 <= i < t.len() ==> !flow_indicator(#[trigger] t[i])) ==> text_in_flow(t, quote) == t,
{
    escaped_appends(t, 0, seq![DQUOTE]);
    doubled_appends(t, 0, seq![SQUOTE]);
}

/// A string in a block collection is a literal block scalar where it has several
/// lines that one can hold, and otherwise stands between quotes or is plain.
pub proof fn block_strings_can_stand_in_blocks(t: Seq<u8>, quote: ScalarStyle)
    ensures
        ({
            let r = text_in_block(t, quote);
            &&& t.contains(NL) && block_literal_safe(t) ==> r.len() > 0 && r[0] == PIPE
            &&& !(t.contains(NL) && block_literal_safe(t)) ==> between(r, DQUOTE) || between(
                r,
                SQUOTE,
            ) || (r == t && plain_safe(t))
            &&& !t.contains(NL) && quote == ScalarStyle::Plain && plain_safe(t) ==> r == t
            &&& !t.contains(NL) && quote == ScalarStyle::DoubleQuoted ==> between(r, DQUOTE)
        }),
{
    block_literals_open(t, 0);
    escaped_appends(t, 0, seq![DQUOTE]);
    doubled_appends(t, 0, seq![SQUOTE]);
}

/// A key stands between quotes, or is plain and neither says anything else than a
/// string nor is a merge.
pub proof fn plain_keys_are_no_merges(k: Seq<u8>)
    ensures
        between(key_text(k), DQUOTE) || (key_text(k) == k && plain_safe(k) && k
            != "<<".spec_bytes()),
        between(key_in_flow(k), DQUOTE) || (key_in_flow(k) == k && plain_safe(k) && k
            != "<<".spec_bytes()),
{
    escaped_appends(k, 0, seq![DQUOTE]);
}

} // verus!
