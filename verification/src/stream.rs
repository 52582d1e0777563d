//! Streams of several documents.
use crate::config::ParserConfig;
use crate::document::{parse_document_with_config, parsed, Doc, Document};
use crate::error::Error;
use crate::lexis::{has_bom, is_triple, starts_with_bom, triple};
use crate::lines::{end_of_line, line_end};
use crate::syntax::Flaw;
use crate::text::{
    copy, is_break, line_break, run, scan, string_of, Class, DASH, DOT, HASH, NL, PERCENT,
};
use vstd::prelude::*;
use vstd::string::*;
use vstd::utf8::*;

verus! {

/// Whether the line at `i` holds nothing but white space and a comment.
pub open spec fn trivia_line(s: Seq<u8>, i: int) -> bool {
    let k = run(s, i, s.len() as int, Class::Blank);
    k >= s.len() || line_break(s[k]) || s[k] == HASH
}

/// The offsets at which a stream is cut into documents: those found before
/// line `i`, in `acc`, and those in the lines that follow.
///
/// A `---` opens a new document when the one before it has a body or a `---`
/// of its own; `open` says whether it has. A `...` ends the document it
/// closes. What follows it, if it is only white space and comments up to the
/// end, stays with that document.
pub open spec fn cuts(s: Seq<u8>, i: int, open: bool, acc: Seq<int>) -> Seq<int>
    decreases s.len() - i,
{
    let e = line_end(s, i);
    if !(0 <= i < e <= s.len()) {
        if open || acc.len() == 0 {
            acc
        } else {
            acc.drop_last()
        }
    } else if triple(s, i, DASH) {
        cuts(s, e, true, if open { acc.push(i) } else { acc })
    } else if triple(s, i, DOT) {
        cuts(s, e, open && e >= s.len(), if open && e < s.len() { acc.push(e) } else { acc })
    } else {
        cuts(s, e, open || !(trivia_line(s, i) || s[i] == PERCENT), acc)
    }
}

/// The cuts of a whole stream.
pub open spec fn document_cuts(s: Seq<u8>) -> Seq<int> {
    cuts(s, if has_bom(s) { 3int } else { 0int }, false, Seq::empty())
}

/// The pieces of `s[from..]` between the cuts from number `k` on.
pub open spec fn pieces(s: Seq<u8>, at: Seq<int>, k: int, from: int) -> Seq<Seq<u8>>
    decreases at.len() - k,
{
    if k < 0 || k >= at.len() {
        seq![s.subrange(from, s.len() as int)]
    } else {
        seq![s.subrange(from, at[k])] + pieces(s, at, k + 1, at[k])
    }
}

/// The sources of the documents of a stream.
pub open spec fn document_sources(s: Seq<u8>) -> Seq<Seq<u8>> {
    pieces(s, document_cuts(s), 0, 0)
}

/// The documents that the texts from number `k` on parse to, or the first
/// flaw.
pub open spec fn all_parsed(texts: Seq<Seq<u8>>, k: int, config: ParserConfig, acc: Seq<Doc>) -> Result<
    Seq<Doc>,
    Flaw,
>
    decreases texts.len() - k,
{
    if k < 0 || k >= texts.len() {
        Ok(acc)
    } else {
        match parsed(texts[k], config) {
            Ok(d) => all_parsed(texts, k + 1, config, acc.push(d)),
            Err(x) => Err(x),
        }
    }
}

/// The documents of a stream.
pub open spec fn stream_documents(s: Seq<u8>, config: ParserConfig) -> Result<Seq<Doc>, Flaw> {
    all_parsed(document_sources(s), 0, config, Seq::empty())
}

/// The models of a list of documents.
pub open spec fn docs(v: Seq<Document>) -> Seq<Doc> {
    Seq::new(v.len(), |i: int| v[i]@)
}

/// Byte strings put one behind the other.
pub open spec fn joined(texts: Seq<Seq<u8>>) -> Seq<u8>
    decreases texts.len(),
{
    if texts.len() == 0 {
        Seq::empty()
    } else {
        texts[0] + joined(texts.drop_first())
    }
}

/// Whether every cut lies behind a line feed, after `from` and after the cuts
/// before it.
pub open spec fn sound_cuts(s: Seq<u8>, at: Seq<int>, from: int) -> bool {
    &&& forall|k: int|
        0 <= k < at.len() ==> from < #[trigger] at[k] < s.len() && s[at[k] - 1] == NL
    &&& forall|j: int, k: int| 0 <= j < k < at.len() ==> #[trigger] at[j] < #[trigger] at[k]
}

/// Cuts stay sound, and those found last lie before the line that is looked
/// at, or at it when a document has just ended.
proof fn cuts_are_sound(s: Seq<u8>, i: int, open: bool, acc: Seq<int>)
    requires
        0 <= i,
        sound_cuts(s, acc, 0),
        i == 0 || i == 3 && !open && acc.len() == 0 || i >= s.len() || s[i - 1] == NL,
        open ==> i > 0 && (i >= s.len() || s[i - 1] == NL),
        forall|k: int| 0 <= k < acc.len() ==> if open {
            #[trigger] acc[k] < i
        } else {
            acc[k] <= i
        },
    ensures
        sound_cuts(s, cuts(s, i, open, acc), 0),
    decreases s.len() - i,
{
    let e = line_end(s, i);
    if 0 <= i < e <= s.len() {
        assert(e < s.len() ==> s[e - 1] == NL) by {
            crate::text::run_is_maximal(s, i, s.len() as int, Class::Line);
        }
        if triple(s, i, DASH) {
            let a = if open {
                acc.push(i)
            } else {
                acc
            };
            cuts_are_sound(s, e, true, a);
        } else if triple(s, i, DOT) {
            let a = if open && e < s.len() {
                acc.push(e)
            } else {
                acc
            };
            cuts_are_sound(s, e, open && e >= s.len(), a);
        } else {
            cuts_are_sound(s, e, open || !(trivia_line(s, i) || s[i] == PERCENT), acc);
        }
    }
}

/// The documents of a stream, put one behind the other, are the stream, byte
/// for byte; and each of them is valid text.
pub proof fn stream_sources_join_to_the_stream(s: Seq<u8>)
    requires
        valid_utf8(s),
    ensures
        joined(document_sources(s)) == s,
        forall|k: int| 0 <= k < document_sources(s).len() ==> valid_utf8(#[trigger] document_sources(s)[k]),
{
    let from = if has_bom(s) {
        3int
    } else {
        0int
    };
    cuts_are_sound(s, from, false, Seq::empty());
    assert(s.subrange(0, s.len() as int) =~= s);
    pieces_join(s, document_cuts(s), 0, 0);
}

/// The sources of a list of documents.
pub open spec fn sources(d: Seq<Doc>) -> Seq<Seq<u8>> {
    Seq::new(d.len(), |i: int| d[i].source)
}

/// Documents that texts parse to have these texts as their sources.
proof fn parsed_documents_keep_their_sources(
    texts: Seq<Seq<u8>>,
    k: int,
    config: ParserConfig,
    acc: Seq<Doc>,
)
    requires
        0 <= k <= texts.len(),
        sources(acc) == texts.subrange(0, k),
    ensures
        all_parsed(texts, k, config, acc) matches Ok(d) ==> sources(d) == texts,
    decreases texts.len() - k,
{
    if k < texts.len() {
        if let Ok(d) = parsed(texts[k], config) {
            let more = acc.push(d);
            assert(sources(acc).len() == acc.len());
            assert forall|j: int| 0 <= j <= k implies #[trigger] sources(more)[j] == texts[j] by {
                if j < k {
                    assert(sources(acc)[j] == texts.subrange(0, k)[j]);
                }
            }
            assert(sources(more) =~= texts.subrange(0, k + 1));
            parsed_documents_keep_their_sources(texts, k + 1, config, acc.push(d));
        }
    } else {
        assert(texts.subrange(0, k) =~= texts);
    }
}

/// The sources of the documents that a stream is parsed to, put one behind the
/// other, are the stream, byte for byte. There is at least one document.
pub proof fn the_documents_of_a_stream_join_to_it(s: Seq<u8>, config: ParserConfig)
    requires
        valid_utf8(s),
    ensures
        stream_documents(s, config) matches Ok(d) ==> joined(sources(d)) == s && sources(d)
            == document_sources(s) && d.len() > 0,
{
    let texts = document_sources(s);
    stream_sources_join_to_the_stream(s);
    assert(sources(Seq::empty()) =~= texts.subrange(0, 0));
    parsed_documents_keep_their_sources(texts, 0, config, Seq::empty());
    if let Ok(d) = stream_documents(s, config) {
        assert(sources(d).len() == texts.len());
    }
}

/// Text splits behind a line feed.
proof fn text_splits_behind_a_feed(s: Seq<u8>, i: int)
    requires
        valid_utf8(s),
        0 < i <= s.len(),
        s[i - 1] == NL,
    ensures
        valid_utf8(s.subrange(0, i)),
        valid_utf8(s.subrange(i, s.len() as int)),
{
    assert(!is_continuation_byte(s[i - 1]));
    is_char_boundary_iff_not_is_continuation_byte(s, i - 1);
    valid_utf8_split(s, i - 1);
    assert(partial_valid_utf8(s, i - 1));
    partial_valid_utf8_extend_ascii_block(s, i - 1, i);
    assert(partial_valid_utf8(s, i));
    if !valid_utf8(s.subrange(i, s.len() as int)) {
        partial_valid_partial_invalid_utf8(s, i);
    }
}

proof fn pieces_join(s: Seq<u8>, at: Seq<int>, k: int, from: int)
    requires
        0 <= k <= at.len(),
        0 <= from <= s.len(),
        sound_cuts(s, at, 0),
        forall|j: int| k <= j < at.len() ==> from < #[trigger] at[j],
        valid_utf8(s.subrange(from, s.len() as int)),
    ensures
        joined(pieces(s, at, k, from)) == s.subrange(from, s.len() as int),
        forall|j: int|
            0 <= j < pieces(s, at, k, from).len() ==> valid_utf8(#[trigger] pieces(s, at, k, from)[j]),
    decreases at.len() - k,
{
    let all = pieces(s, at, k, from);
    let rest = s.subrange(from, s.len() as int);
    if k >= at.len() {
        assert(all.drop_first() =~= Seq::empty());
        assert(joined(all.drop_first()) =~= Seq::empty());
        assert(all[0] + joined(all.drop_first()) =~= rest);
    } else {
        let c = at[k];
        text_splits_behind_a_feed(rest, c - from);
        assert(rest.subrange(0, c - from) =~= s.subrange(from, c));
        assert(rest.subrange(c - from, rest.len() as int) =~= s.subrange(c, s.len() as int));
        pieces_join(s, at, k + 1, c);
        let tail = pieces(s, at, k + 1, c);
        assert(all.drop_first() =~= tail);
        assert(all[0] + joined(tail) =~= rest);
        assert forall|j: int| 0 <= j < all.len() implies valid_utf8(#[trigger] all[j]) by {
            if j > 0 {
                assert(all[j] == tail[j - 1]);
            }
        }
    }
}

/// Whether the line at `i` holds nothing but white space and a comment.
fn is_trivia_line(s: &[u8], i: usize) -> (r: bool)
    requires
        i <= s@.len(),
    ensures
        r == trivia_line(s@, i as int),
{
    let k: usize = scan(s, i, s.len(), Class::Blank);
    k >= s.len() || is_break(s[k]) || s[k] == HASH
}

/// Offsets as integers.
pub open spec fn offsets(v: Seq<usize>) -> Seq<int> {
    Seq::new(v.len(), |i: int| v[i] as int)
}

/// Where a stream is cut into documents.
pub fn document_boundaries(s: &[u8]) -> (r: Vec<usize>)
    ensures
        offsets(r@) == document_cuts(s@),
{
    let mut out: Vec<usize> = Vec::new();
    let mut i: usize = if starts_with_bom(s) {
        3
    } else {
        0
    };
    let mut open: bool = false;
    assert(offsets(out@) =~= Seq::empty());
    while i < s.len()
        invariant
            i <= s@.len(),
            cuts(s@, i as int, open, offsets(out@)) == document_cuts(s@),
        decreases s@.len() - i,
    {
        let e: usize = end_of_line(s, i);
        proof {
            crate::text::run_is_maximal(s@, i as int, s@.len() as int, Class::Line);
        }
        let ghost before = out@;
        if is_triple(s, i, DASH) {
            if open {
                out.push(i);
                assert(offsets(out@) =~= offsets(before).push(i as int));
            }
            open = true;
        } else if is_triple(s, i, DOT) {
            if open && e < s.len() {
                out.push(e);
                assert(offsets(out@) =~= offsets(before).push(e as int));
            }
            open = open && e >= s.len();
        } else {
            open = open || !(is_trivia_line(s, i) || s[i] == PERCENT);
        }
        i = e;
    }
    if !open && out.len() > 0 {
        let ghost before = out@;
        out.pop();
        assert(offsets(out@) =~= offsets(before).drop_last());
    }
    out
}

/// Parses a stream of documents under the given limits.
pub fn parse_stream_with_config(input: &str, config: &ParserConfig) -> (r: Result<
    Vec<Document>,
    Error,
>)
    ensures
        match stream_documents(input.spec_bytes(), *config) {
            Ok(d) => r is Ok && docs(r->Ok_0@) == d && joined(sources(d)) == input.spec_bytes(),
            Err(x) => r is Err && r->Err_0 == Error::Syntax(x),
        },
{
    let s: &[u8] = input.as_bytes();
    let at: Vec<usize> = document_boundaries(s);
    let ghost texts = document_sources(s@);
    proof {
        encode_utf8_valid_utf8(input@);
        stream_sources_join_to_the_stream(s@);
        the_documents_of_a_stream_join_to_it(s@, *config);
        let from = if has_bom(s@) {
            3int
        } else {
            0int
        };
        cuts_are_sound(s@, from, false, Seq::empty());
    }
    let mut out: Vec<Document> = Vec::new();
    let mut k: usize = 0;
    let mut from: usize = 0;
    assert(docs(out@) =~= Seq::empty());
    loop
        invariant_except_break
            stream_documents(s@, *config) matches Ok(d) ==> joined(sources(d)) == s@,
            k <= at@.len(),
            from <= s@.len(),
            s@ == input.spec_bytes(),
            offsets(at@) == document_cuts(s@),
            sound_cuts(s@, document_cuts(s@), 0),
            forall|j: int| k <= j < at@.len() ==> from < #[trigger] offsets(at@)[j],
            texts == document_sources(s@),
            forall|j: int| 0 <= j < texts.len() ==> valid_utf8(#[trigger] texts[j]),
            pieces(s@, document_cuts(s@), k as int, from as int) == texts.subrange(
                k as int,
                texts.len() as int,
            ),
            k < texts.len(),
            all_parsed(texts, k as int, *config, docs(out@)) == stream_documents(s@, *config),
        ensures
            s@ == input.spec_bytes(),
            stream_documents(s@, *config) matches Ok(d) ==> joined(sources(d)) == s@,
            stream_documents(s@, *config) == Ok::<Seq<Doc>, Flaw>(docs(out@)),
        decreases at@.len() - k,
    {
        let ghost rest = texts.subrange(k as int, texts.len() as int);
        let to: usize = if k < at.len() {
            assert(offsets(at@)[k as int] == at@[k as int]);
            at[k]
        } else {
            s.len()
        };
        assert(rest[0] == texts[k as int]);
        assert(texts[k as int] == s@.subrange(from as int, to as int));
        let text: String = string_of(copy(s, from, to));
        assert(encode_utf8(text@) == texts[k as int]);
        match parse_document_with_config(text.as_str(), config) {
            Ok(d) => {
                let ghost before = out@;
                out.push(d);
                assert(docs(out@) =~= docs(before).push(d@));
            },
            Err(x) => {
                return Err(x);
            },
        }
        if k >= at.len() {
            assert(rest.len() == 1);
            assert(all_parsed(texts, k + 1, *config, docs(out@)) == stream_documents(s@, *config));
            break;
        }
        proof {
            let tail = pieces(s@, document_cuts(s@), k + 1, to as int);
            assert(rest == seq![s@.subrange(from as int, to as int)] + tail);
            assert(tail =~= rest.drop_first());
            assert(rest.drop_first() =~= texts.subrange(k + 1, texts.len() as int));
            assert(tail.len() > 0);
        }
        from = to;
        k += 1;
    }
    Ok(out)
}

/// Parses a stream of documents.
pub fn parse_stream(input: &str) -> (r: Result<Vec<Document>, Error>)
    ensures
        match stream_documents(input.spec_bytes(), ParserConfig::defaults()) {
            Ok(d) => r is Ok && docs(r->Ok_0@) == d && joined(sources(d)) == input.spec_bytes(),
            Err(x) => r is Err && r->Err_0 == Error::Syntax(x),
        },
{
    parse_stream_with_config(input, &ParserConfig::new())
}

} // verus!
