//! How what is written is found again as one token.
use crate::decode::{double_end, doubled_appends, escaped_appends, single_end};
use crate::emit::{key_text, string_for_site, SiteContext};
use crate::lexis::{ended, key_colon, plain_line, plain_start, plain_stop};
use crate::scalar::{
    control, double_quoted, doubled, escaped, escaped_byte, plain_safe, single_quoted,
};
use crate::text::{
    back_is_maximal, flow_indicator, line_break, run, Class, COLON, DQUOTE, NL, SQUOTE,
};
use vstd::prelude::*;

verus! {

/// Whether `text` stands at `p`.
pub open spec fn stands_at(s: Seq<u8>, p: int, text: Seq<u8>) -> bool {
    &&& 0 <= p
    &&& p + text.len() <= s.len()
    &&& forall|k: int| 0 <= k < text.len() ==> s[p + k] == #[trigger] text[k]
}

/// Whether what stands at `e` ends a plain scalar in front of it: a line break, the
/// `:` behind a key, or in a flow collection a `,` or a bracket.
pub open spec fn ends_plain(s: Seq<u8>, e: int, flow: bool) -> bool {
    ||| e >= s.len()
    ||| line_break(s[e])
    ||| s[e] == COLON && ended(s, e + 1)
    ||| flow && flow_indicator(s[e])
}

proof fn plain_letters_go_on(s: Seq<u8>, p: int, i: int, text: Seq<u8>, flow: bool)
    requires
        plain_safe(text),
        stands_at(s, p, text),
        p <= i <= p + text.len(),
        ends_plain(s, p + text.len(), flow),
        flow ==> forall|k: int| 0 <= k < text.len() ==> !flow_indicator(#[trigger] text[k]),
    ensures
        plain_stop(s, p, i, flow) == p + text.len(),
    decreases p + text.len() - i,
{
    if i < p + text.len() {
        let k = i - p;
        assert(s[p + k] == text[k]);
        assert(!control(text[k]));
        if k + 1 < text.len() {
            assert(s[p + (k + 1)] == text[k + 1]);
            assert(!control(text[k + 1]));
        }
        if k > 0 {
            assert(s[p + (k - 1)] == text[k - 1]);
            assert(!control(text[k - 1]));
        }
        plain_letters_go_on(s, p, i + 1, text, flow);
    }
}

/// A string that is safe as a plain scalar is found as one, from its first byte to
/// its last, wherever it stands; in a flow collection if it holds no `,` and no
/// bracket.
pub proof fn safe_strings_are_whole_tokens(s: Seq<u8>, p: int, text: Seq<u8>, flow: bool)
    requires
        plain_safe(text),
        stands_at(s, p, text),
        ends_plain(s, p + text.len(), flow),
        flow ==> forall|k: int| 0 <= k < text.len() ==> !flow_indicator(#[trigger] text[k]),
    ensures
        plain_start(s, p, flow),
        plain_line(s, p, flow) == p + text.len(),
{
    plain_letters_go_on(s, p, p, text, flow);
    let n = text.len() as int;
    assert(s[p + 0] == text[0]);
    assert(!control(text[0]));
    assert(s[p + (n - 1)] == text[n - 1]);
    back_is_maximal(s, p, p + n, Class::Blank);
}

proof fn doubled_quotes_go_on(s: Seq<u8>, i: int, text: Seq<u8>, k: int)
    requires
        0 <= k <= text.len(),
        0 <= i,
        stands_at(s, i, doubled(text, k, Seq::empty())),
        ({
            let e = i + doubled(text, k, Seq::empty()).len();
            e < s.len() && s[e] == SQUOTE && (e + 1 < s.len() ==> s[e + 1] != SQUOTE)
        }),
    ensures
        single_end(s, i) == Some(i + doubled(text, k, Seq::empty()).len() + 1),
    decreases text.len() - k,
{
    let none = Seq::<u8>::empty();
    let all = doubled(text, k, none);
    if k < text.len() {
        let rest = doubled(text, k + 1, none);
        let one = if text[k] == SQUOTE {
            seq![SQUOTE, SQUOTE]
        } else {
            seq![text[k]]
        };
        assert(none.push(SQUOTE).push(SQUOTE) =~= seq![SQUOTE, SQUOTE]);
        assert(none.push(text[k]) =~= seq![text[k]]);
        doubled_appends(text, k + 1, one);
        assert(all == one + rest);
        assert(s[i + 0] == all[0]);
        if text[k] == SQUOTE {
            assert(s[i + 1] == all[1]);
        }
        assert forall|j: int| 0 <= j < rest.len() implies s[i + one.len() + j] == #[trigger] rest[j] by {
            assert(all[one.len() + j] == rest[j]);
            assert(s[i + (one.len() + j)] == all[one.len() + j]);
        }
        doubled_quotes_go_on(s, i + one.len(), text, k + 1);
    }
}

/// A string in single quotes is found as one token, up to the quote that closes
/// it.
pub proof fn single_quoted_strings_are_whole_tokens(s: Seq<u8>, p: int, text: Seq<u8>)
    requires
        stands_at(s, p, single_quoted(text)),
        p + single_quoted(text).len() < s.len() ==> s[p + single_quoted(text).len()] != SQUOTE,
    ensures
        s[p] == SQUOTE,
        single_end(s, p + 1) == Some(p + single_quoted(text).len()),
{
    let q = single_quoted(text);
    let none = Seq::<u8>::empty();
    let inner = doubled(text, 0, none);
    doubled_appends(text, 0, seq![SQUOTE]);
    assert(q == (seq![SQUOTE] + inner).push(SQUOTE));
    assert(s[p + 0] == q[0]);
    assert forall|j: int| 0 <= j < inner.len() implies s[p + 1 + j] == #[trigger] inner[j] by {
        assert(q[j + 1] == inner[j]);
        assert(s[p + (j + 1)] == q[j + 1]);
    }
    assert(s[p + (q.len() - 1)] == q[q.len() - 1]);
    doubled_quotes_go_on(s, p + 1, text, 0);
}

proof fn escapes_go_on(s: Seq<u8>, i: int, text: Seq<u8>, k: int)
    requires
        0 <= k <= text.len(),
        0 <= i,
        stands_at(s, i, escaped(text, k, Seq::empty())),
        i + escaped(text, k, Seq::empty()).len() < s.len(),
        s[i + escaped(text, k, Seq::empty()).len()] == DQUOTE,
    ensures
        double_end(s, i) == Some(i + escaped(text, k, Seq::empty()).len() + 1),
    decreases text.len() - k,
{
    let none = Seq::<u8>::empty();
    let all = escaped(text, k, none);
    if k < text.len() {
        let rest = escaped(text, k + 1, none);
        let one = escaped_byte(text[k]);
        assert(none + one =~= one);
        escaped_appends(text, k + 1, one);
        assert(all == one + rest);
        let w = one.len() as int;
        assert forall|j: int| 0 <= j < w implies s[i + j] == #[trigger] one[j] by {
            assert(all[j] == one[j]);
            assert(s[i + j] == all[j]);
        }
        assert forall|j: int| 0 <= j < rest.len() implies s[i + w + j] == #[trigger] rest[j] by {
            assert(all[w + j] == rest[j]);
            assert(s[i + (w + j)] == all[w + j]);
        }
        escapes_go_on(s, i + w, text, k + 1);
        assert(s[i + 0] == one[0]);
        if w == 2 {
            assert(double_end(s, i) == double_end(s, i + 2));
        } else if w == 6 {
            assert(s[i + 2] == one[2] && s[i + 3] == one[3] && s[i + 4] == one[4] && s[i + 5]
                == one[5]);
            assert(double_end(s, i) == double_end(s, i + 2));
            assert(double_end(s, i + 2) == double_end(s, i + 3));
            assert(double_end(s, i + 3) == double_end(s, i + 4));
            assert(double_end(s, i + 4) == double_end(s, i + 5));
            assert(double_end(s, i + 5) == double_end(s, i + 6));
        } else {
            assert(double_end(s, i) == double_end(s, i + 1));
        }
    }
}

/// A string in double quotes is found as one token, up to the quote that closes
/// it.
pub proof fn double_quoted_strings_are_whole_tokens(s: Seq<u8>, p: int, text: Seq<u8>)
    requires
        stands_at(s, p, double_quoted(text)),
    ensures
        s[p] == DQUOTE,
        double_end(s, p + 1) == Some(p + double_quoted(text).len()),
{
    let q = double_quoted(text);
    let inner = escaped(text, 0, Seq::empty());
    escaped_appends(text, 0, seq![DQUOTE]);
    assert(q == (seq![DQUOTE] + inner).push(DQUOTE));
    assert(s[p + 0] == q[0]);
    assert forall|j: int| 0 <= j < inner.len() implies s[p + 1 + j] == #[trigger] inner[j] by {
        assert(q[j + 1] == inner[j]);
        assert(s[p + (j + 1)] == q[j + 1]);
    }
    assert(s[p + (q.len() - 1)] == q[q.len() - 1]);
    escapes_go_on(s, p + 1, text, 0);
}

proof fn escapes_hold_no_break(text: Seq<u8>, k: int)
    requires
        0 <= k <= text.len(),
    ensures
        forall|j: int|
            0 <= j < escaped(text, k, Seq::empty()).len() ==> !line_break(
                #[trigger] escaped(text, k, Seq::empty())[j],
            ),
    decreases text.len() - k,
{
    let none = Seq::<u8>::empty();
    if k < text.len() {
        let one = escaped_byte(text[k]);
        let rest = escaped(text, k + 1, none);
        assert(none + one =~= one);
        escaped_appends(text, k + 1, one);
        escapes_hold_no_break(text, k + 1);
        assert forall|j: int| 0 <= j < one.len() implies !line_break(#[trigger] one[j]) by {}
        assert forall|j: int| 0 <= j < (one + rest).len() implies !line_break(
            #[trigger] (one + rest)[j],
        ) by {
            if j >= one.len() {
                assert((one + rest)[j] == rest[j - one.len()]);
            }
        }
    }
}

/// A string in double quotes stays on its line.
pub proof fn double_quoted_strings_hold_no_break(text: Seq<u8>)
    ensures
        forall|k: int|
            0 <= k < double_quoted(text).len() ==> !line_break(#[trigger] double_quoted(text)[k]),
{
    let q = double_quoted(text);
    let inner = escaped(text, 0, Seq::empty());
    escaped_appends(text, 0, seq![DQUOTE]);
    escapes_hold_no_break(text, 0);
    assert(q == (seq![DQUOTE] + inner).push(DQUOTE));
    assert forall|k: int| 0 <= k < q.len() implies !line_break(#[trigger] q[k]) by {
        if 0 < k < q.len() - 1 {
            assert(q[k] == inner[k - 1]);
        }
    }
}

/// A key that is written is found as a key: the `:` behind it is the one that was
/// written.
pub proof fn written_keys_are_found(s: Seq<u8>, p: int, key: Seq<u8>)
    requires
        stands_at(s, p, key_text(key).push(COLON)),
        ended(s, p + key_text(key).len() + 1),
    ensures
        key_colon(s, p) == Some(p + key_text(key).len()),
{
    let t = key_text(key);
    let n = t.len() as int;
    assert(t.push(COLON)[n] == COLON);
    assert(s[p + n] == COLON);
    assert forall|k: int| 0 <= k < n implies s[p + k] == #[trigger] t[k] by {
        assert(t.push(COLON)[k] == t[k]);
    }
    escaped_appends(key, 0, seq![DQUOTE]);
    assert(n > 0);
    if t == double_quoted(key) {
        double_quoted_strings_are_whole_tokens(s, p, key);
        double_quoted_strings_hold_no_break(key);
        assert forall|k: int| 0 <= k < n implies !line_break(#[trigger] t[k]) by {}
    } else {
        safe_strings_are_whole_tokens(s, p, key, false);
        assert(s[p + 0] == key[0]);
        assert forall|k: int| 0 <= k < n implies !line_break(#[trigger] t[k]) by {
            assert(!control(key[k]));
        }
    }
    assert forall|k: int| p <= k < p + n implies !line_break(#[trigger] s[k]) by {
        assert(s[p + (k - p)] == t[k - p]);
    }
    crate::text::run_is_maximal(s, p, s.len() as int, Class::Text);
    let r = run(s, p, s.len() as int, Class::Text);
    if r < p + n {
        assert(!line_break(s[r]));
    }
    assert(run(s, p + n, s.len() as int, Class::Blank) == p + n);
}

/// A string that takes the place of a scalar stays on its line where something
/// follows it there, and in a flow collection.
pub proof fn followed_strings_stay_on_their_line(text: Seq<u8>, ctx: SiteContext)
    requires
        ctx.flow || ctx.followed,
    ensures
        string_for_site(text, ctx) matches Ok(t) ==> forall|k: int|
            0 <= k < t.len() ==> #[trigger] t[k] != NL,
{
    double_quoted_strings_hold_no_break(text);
    if string_for_site(text, ctx) is Ok {
        let t = string_for_site(text, ctx)->Ok_0;
        if t == double_quoted(text) {
            assert forall|k: int| 0 <= k < t.len() implies #[trigger] t[k] != NL by {
                assert(!line_break(double_quoted(text)[k]));
            }
        } else if t == single_quoted(text) && !text.contains(NL) {
            single_quotes_add_no_break(text, 0);
            doubled_appends(text, 0, seq![SQUOTE]);
            let inner = doubled(text, 0, Seq::empty());
            assert(t == (seq![SQUOTE] + inner).push(SQUOTE));
            assert forall|k: int| 0 <= k < t.len() implies #[trigger] t[k] != NL by {
                if 0 < k < t.len() - 1 {
                    assert(t[k] == inner[k - 1]);
                }
            }
        } else {
            assert(t == text && plain_safe(text));
            assert forall|k: int| 0 <= k < t.len() implies #[trigger] t[k] != NL by {
                assert(!control(text[k]));
            }
        }
    }
}

proof fn single_quotes_add_no_break(text: Seq<u8>, k: int)
    requires
        0 <= k <= text.len(),
        !text.contains(NL),
    ensures
        forall|j: int|
            0 <= j < doubled(text, k, Seq::empty()).len() ==> #[trigger] doubled(
                text,
                k,
                Seq::empty(),
            )[j] != NL,
    decreases text.len() - k,
{
    let none = Seq::<u8>::empty();
    if k < text.len() {
        let one = if text[k] == SQUOTE {
            seq![SQUOTE, SQUOTE]
        } else {
            seq![text[k]]
        };
        assert(none.push(SQUOTE).push(SQUOTE) =~= seq![SQUOTE, SQUOTE]);
        assert(none.push(text[k]) =~= seq![text[k]]);
        let rest = doubled(text, k + 1, none);
        doubled_appends(text, k + 1, one);
        single_quotes_add_no_break(text, k + 1);
        assert(text.contains(text[k]));
        assert forall|j: int| 0 <= j < (one + rest).len() implies #[trigger] (one + rest)[j] != NL by {
            if j >= one.len() {
                assert((one + rest)[j] == rest[j - one.len()]);
            }
        }
    }
}

} // verus!
