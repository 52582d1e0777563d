//! Spelling typed values as YAML.
use crate::error::Refusal;
use crate::lines::{indent_continuation_lines, reindented};
use crate::path::{decimal, push_decimal};
use crate::scalar::{
    block_literal, block_literal_safe, can_use_block_literal, control, double_quoted, format_block_literal,
    format_double_quoted, format_single_quoted, is_plain_safe, plain_safe, single_quoted,
};
use crate::site::{FlowStyle, ScalarStyle};
use crate::syntax::SyntaxKind;
use crate::text::{
    append_all, append_spaces, contains_byte, copy, flow_indicator, is_flow_indicator, is_word, spaces, COLON, COMMA, CR,
    DASH, DELETE, LBRACE, LBRACKET, NL, RBRACE, RBRACKET, SPACE,
};
use crate::value::{
    bytes, data, dicts_are_pointwise, duplicate, list, lists_are_pointwise, Data, Mapping, Number,
};
use crate::value::Value;
use vstd::prelude::*;
use vstd::string::*;
use vstd::utf8::*;

verus! {

/// The decimal spelling of an integer.
pub open spec fn integer_text(i: i64) -> Seq<u8> {
    if i < 0 {
        seq![DASH] + decimal((0 - i) as nat)
    } else {
        decimal(i as nat)
    }
}

fn integer_spelling(i: i64) -> (r: Vec<u8>)
    ensures
        r@ == integer_text(i),
{
    let mut out: Vec<u8> = Vec::new();
    if i < 0 {
        out.push(DASH);
        let n: u64 = (0 - (i as i128)) as u64;
        push_decimal(&mut out, n);
        assert(out@ =~= seq![DASH] + decimal((0 - i) as nat));
    } else {
        push_decimal(&mut out, i as u64);
        assert(out@ =~= decimal(i as nat));
    }
    out
}

/// Whether a text holds a control byte.
pub open spec fn has_control(s: Seq<u8>) -> bool {
    exists|i: int| 0 <= i < s.len() && control(#[trigger] s[i])
}

/// Whether a text holds a control byte.
pub fn holds_control(s: &[u8]) -> (r: bool)
    ensures
        r == has_control(s@),
{
    let mut i: usize = 0;
    while i < s.len()
        invariant
            i <= s@.len(),
            forall|k: int| 0 <= k < i ==> !control(#[trigger] s@[k]),
        decreases s@.len() - i,
    {
        if s[i] < 0x20 || s[i] == DELETE {
            assert(control(s@[i as int]));
            return true;
        }
        i += 1;
    }
    false
}

/// The spelling of a key that takes the place of one of the given kind: the
/// same quotes where they can hold it, plain where that is safe, double quotes
/// otherwise.
pub open spec fn key_for_site(key: Seq<u8>, kind: SyntaxKind) -> Seq<u8> {
    if kind == SyntaxKind::SingleQuotedScalar && !has_control(key) {
        single_quoted(key)
    } else if kind == SyntaxKind::DoubleQuotedScalar {
        double_quoted(key)
    } else if plain_safe(key) {
        key
    } else {
        double_quoted(key)
    }
}

fn whole(s: &[u8]) -> (r: Vec<u8>)
    ensures
        r@ == s@,
{
    let r: Vec<u8> = copy(s, 0, s.len());
    assert(r@ =~= s@);
    r
}

/// Spells a key that takes the place of one of the given kind.
pub fn format_key_for_site(key: &[u8], kind: SyntaxKind) -> (r: Vec<u8>)
    ensures
        r@ == key_for_site(key@, kind),
{
    if kind == SyntaxKind::SingleQuotedScalar && !holds_control(key) {
        format_single_quoted(key)
    } else if kind == SyntaxKind::DoubleQuotedScalar {
        format_double_quoted(key)
    } else if is_plain_safe(key) {
        whole(key)
    } else {
        format_double_quoted(key)
    }
}

/// What a new scalar has to fit in with: the kind of the one it replaces, the
/// style its neighbours agree on, the column of its entry, whether it stands in
/// a flow collection, and whether more text follows on its last line.
#[derive(Clone, Copy)]
pub struct SiteContext {
    pub kind: SyntaxKind,
    pub neighbour: Option<SyntaxKind>,
    pub column: usize,
    pub flow: bool,
    pub followed: bool,
}

/// A string, plain where that is safe and in double quotes otherwise.
pub open spec fn natural(s: Seq<u8>) -> Seq<u8> {
    if plain_safe(s) {
        s
    } else {
        double_quoted(s)
    }
}

fn natural_spelling(s: &[u8]) -> (r: Vec<u8>)
    ensures
        r@ == natural(s@),
{
    if is_plain_safe(s) {
        whole(s)
    } else {
        format_double_quoted(s)
    }
}

/// A string, plain where that is safe at the site and in double quotes
/// otherwise. In a flow collection its indicators are not safe.
pub open spec fn natural_at(s: Seq<u8>, flow: bool) -> Seq<u8> {
    if flow {
        text_in_flow(s, ScalarStyle::Plain)
    } else {
        natural(s)
    }
}

fn natural_spelling_at(s: &[u8], flow: bool) -> (r: Vec<u8>)
    ensures
        r@ == natural_at(s@, flow),
{
    if flow {
        flow_text_spelling(s, ScalarStyle::Plain)
    } else {
        natural_spelling(s)
    }
}

/// A string in single quotes, which cannot hold a line break as it is; in double
/// quotes where there is one.
pub open spec fn single_line(s: Seq<u8>) -> Seq<u8> {
    if s.contains(NL) || s.contains(CR) {
        double_quoted(s)
    } else {
        single_quoted(s)
    }
}

fn single_line_spelling(s: &[u8]) -> (r: Vec<u8>)
    ensures
        r@ == single_line(s@),
{
    if contains_byte(s, NL) || contains_byte(s, CR) {
        format_double_quoted(s)
    } else {
        format_single_quoted(s)
    }
}

/// The spelling of a string that replaces a scalar. A flow collection holds no
/// block scalars, and nothing follows one on its lines.
pub open spec fn string_for_site(s: Seq<u8>, ctx: SiteContext) -> Result<Seq<u8>, Refusal> {
    let multi = s.contains(NL);
    if multi && !ctx.flow && !ctx.followed && block_literal_safe(s) && crate::syntax::scalar_kind(ctx.kind) {
        Ok(block_literal(s, ctx.column as int))
    } else if ctx.kind == SyntaxKind::PlainScalar {
        if ctx.neighbour == Some(SyntaxKind::SingleQuotedScalar) && !multi {
            Ok(single_line(s))
        } else if ctx.neighbour == Some(SyntaxKind::DoubleQuotedScalar) {
            Ok(double_quoted(s))
        } else {
            Ok(natural_at(s, ctx.flow))
        }
    } else if ctx.kind == SyntaxKind::SingleQuotedScalar {
        Ok(single_line(s))
    } else if ctx.kind == SyntaxKind::DoubleQuotedScalar {
        Ok(double_quoted(s))
    } else if ctx.kind == SyntaxKind::LiteralScalar || ctx.kind == SyntaxKind::FoldedScalar {
        if !multi {
            Ok(natural_at(s, ctx.flow))
        } else {
            Err(Refusal::NotABlockLiteral)
        }
    } else {
        Err(Refusal::NotAScalarSite)
    }
}

/// Spells a string that replaces a scalar.
pub fn format_string_for_site(s: &[u8], ctx: &SiteContext) -> (r: Result<Vec<u8>, Refusal>)
    requires
        ctx.column <= usize::MAX - 2,
    ensures
        match string_for_site(s@, *ctx) {
            Ok(t) => r is Ok && r->Ok_0@ == t,
            Err(x) => r is Err && r->Err_0 == x,
        },
{
    let multi: bool = contains_byte(s, NL);
    if multi && !ctx.flow && !ctx.followed && can_use_block_literal(s) && crate::syntax::is_block_site(ctx.kind) {
        return Ok(format_block_literal(s, ctx.column));
    }
    match ctx.kind {
        SyntaxKind::PlainScalar => match ctx.neighbour {
            Some(SyntaxKind::SingleQuotedScalar) => if !multi {
                Ok(single_line_spelling(s))
            } else {
                Ok(natural_spelling_at(s, ctx.flow))
            },
            Some(SyntaxKind::DoubleQuotedScalar) => Ok(format_double_quoted(s)),
            _ => Ok(natural_spelling_at(s, ctx.flow)),
        },
        SyntaxKind::SingleQuotedScalar => Ok(single_line_spelling(s)),
        SyntaxKind::DoubleQuotedScalar => Ok(format_double_quoted(s)),
        SyntaxKind::LiteralScalar | SyntaxKind::FoldedScalar => if !multi {
            Ok(natural_spelling_at(s, ctx.flow))
        } else {
            Err(Refusal::NotABlockLiteral)
        },
        _ => Err(Refusal::NotAScalarSite),
    }
}

/// The spelling of a value that replaces a scalar. Anything but a string is
/// written plain.
pub open spec fn value_for_site(d: Data, ctx: SiteContext) -> Result<Seq<u8>, Refusal>
    decreases d,
{
    match d {
        Data::Null => Ok("null".spec_bytes()),
        Data::Bool(true) => Ok("true".spec_bytes()),
        Data::Bool(false) => Ok("false".spec_bytes()),
        Data::Int(i) => Ok(integer_text(i)),
        Data::Float(t) => Ok(t),
        Data::Text(s) => string_for_site(s, ctx),
        Data::List(_) => Err(Refusal::CollectionValue),
        Data::Dict(_) => Err(Refusal::CollectionValue),
        Data::Tagged(_, inner) => value_for_site(*inner, ctx),
    }
}

/// Spells a value that replaces a scalar.
pub fn format_value_for_site(v: &Value, ctx: &SiteContext) -> (r: Result<Vec<u8>, Refusal>)
    requires
        ctx.column <= usize::MAX - 2,
    ensures
        match value_for_site(v@, *ctx) {
            Ok(t) => r is Ok && r->Ok_0@ == t,
            Err(x) => r is Err && r->Err_0 == x,
        },
    decreases v,
{
    match v {
        Value::Null => Ok(whole("null".as_bytes())),
        Value::Bool(true) => Ok(whole("true".as_bytes())),
        Value::Bool(false) => Ok(whole("false".as_bytes())),
        Value::Number(n) => Ok(format_number(n)),
        Value::String(s) => format_string_for_site(s.as_str().as_bytes(), ctx),
        Value::Sequence(_) => Err(Refusal::CollectionValue),
        Value::Mapping(_) => Err(Refusal::CollectionValue),
        Value::Tagged(t) => format_value_for_site(&t.value, ctx),
    }
}

/// Spells a number.
pub fn format_number(n: &Number) -> (r: Vec<u8>)
    ensures
        match *n {
            Number::Integer(i) => r@ == integer_text(i),
            Number::Float(s) => r@ == bytes(s),
        },
{
    match n {
        Number::Integer(i) => integer_spelling(*i),
        Number::Float(s) => whole(s.as_str().as_bytes()),
    }
}

/// How a document writes its values.
#[derive(Clone, Copy)]
pub struct EmitCtx {
    pub quote: ScalarStyle,
    pub flow: FlowStyle,
    pub unit: usize,
}

/// The spelling of a string in the quotes a document prefers, unless they
/// cannot hold it.
pub open spec fn quoted(s: Seq<u8>, quote: ScalarStyle) -> Seq<u8> {
    match quote {
        ScalarStyle::Plain => natural(s),
        ScalarStyle::SingleQuoted => if has_control(s) {
            double_quoted(s)
        } else {
            single_quoted(s)
        },
        ScalarStyle::DoubleQuoted => double_quoted(s),
    }
}

fn quoted_spelling(s: &[u8], quote: ScalarStyle) -> (r: Vec<u8>)
    ensures
        r@ == quoted(s@, quote),
{
    match quote {
        ScalarStyle::Plain => natural_spelling(s),
        ScalarStyle::SingleQuoted => if holds_control(s) {
            format_double_quoted(s)
        } else {
            format_single_quoted(s)
        },
        ScalarStyle::DoubleQuoted => format_double_quoted(s),
    }
}

/// The spelling of a string in block context.
pub open spec fn text_in_block(s: Seq<u8>, quote: ScalarStyle) -> Seq<u8> {
    if s.contains(NL) && block_literal_safe(s) {
        block_literal(s, 0)
    } else {
        quoted(s, quote)
    }
}

/// Whether a text holds an indicator of flow collections.
pub open spec fn has_flow_indicator(s: Seq<u8>) -> bool {
    exists|i: int| 0 <= i < s.len() && flow_indicator(#[trigger] s[i])
}

fn holds_flow_indicator(s: &[u8]) -> (r: bool)
    ensures
        r == has_flow_indicator(s@),
{
    let mut i: usize = 0;
    while i < s.len()
        invariant
            i <= s@.len(),
            forall|k: int| 0 <= k < i ==> !flow_indicator(#[trigger] s@[k]),
        decreases s@.len() - i,
    {
        if is_flow_indicator(s[i]) {
            assert(flow_indicator(s@[i as int]));
            return true;
        }
        i += 1;
    }
    false
}

/// The spelling of a string inside a flow collection.
pub open spec fn text_in_flow(s: Seq<u8>, quote: ScalarStyle) -> Seq<u8> {
    if quote == ScalarStyle::Plain && has_flow_indicator(s) {
        double_quoted(s)
    } else {
        quoted(s, quote)
    }
}

fn flow_text_spelling(s: &[u8], quote: ScalarStyle) -> (r: Vec<u8>)
    ensures
        r@ == text_in_flow(s@, quote),
{
    if quote == ScalarStyle::Plain && holds_flow_indicator(s) {
        format_double_quoted(s)
    } else {
        quoted_spelling(s, quote)
    }
}

/// The spelling of a key: plain where that is safe. A plain `<<` would be a
/// merge key.
pub open spec fn key_text(k: Seq<u8>) -> Seq<u8> {
    if k == "<<".spec_bytes() {
        double_quoted(k)
    } else {
        natural(k)
    }
}

/// Spells a key.
pub fn emit_key(k: &[u8]) -> (r: Vec<u8>)
    ensures
        r@ == key_text(k@),
{
    if is_word(k, "<<") {
        format_double_quoted(k)
    } else {
        natural_spelling(k)
    }
}

/// The spelling of a key inside a flow mapping.
pub open spec fn key_in_flow(k: Seq<u8>) -> Seq<u8> {
    if k == "<<".spec_bytes() {
        double_quoted(k)
    } else {
        text_in_flow(k, ScalarStyle::Plain)
    }
}

fn flow_key_spelling(k: &[u8]) -> (r: Vec<u8>)
    ensures
        r@ == key_in_flow(k@),
{
    if is_word(k, "<<") {
        format_double_quoted(k)
    } else {
        flow_text_spelling(k, ScalarStyle::Plain)
    }
}

/// The spelling of a value inside a flow collection; `None` for one under a
/// tag.
pub open spec fn in_flow(d: Data, quote: ScalarStyle) -> Option<Seq<u8>>
    decreases d, 0int,
{
    match d {
        Data::Null => Some("null".spec_bytes()),
        Data::Bool(true) => Some("true".spec_bytes()),
        Data::Bool(false) => Some("false".spec_bytes()),
        Data::Int(i) => Some(integer_text(i)),
        Data::Float(t) => Some(t),
        Data::Text(s) => Some(text_in_flow(s, quote)),
        Data::List(v) => match flow_list(v, 0, quote, seq![LBRACKET]) {
            Some(t) => Some(t.push(RBRACKET)),
            None => None,
        },
        Data::Dict(m) => match flow_dict(m, 0, quote, seq![LBRACE]) {
            Some(t) => Some(t.push(RBRACE)),
            None => None,
        },
        Data::Tagged(_, _) => None,
    }
}

/// What separates member `i` of a flow collection from the one before it.
pub open spec fn comma(i: int) -> Seq<u8> {
    if i == 0 {
        Seq::empty()
    } else {
        seq![COMMA, SPACE]
    }
}

/// The members `v[i..]` of a flow sequence, appended to `acc`.
pub open spec fn flow_list(v: Seq<Data>, i: int, quote: ScalarStyle, acc: Seq<u8>) -> Option<
    Seq<u8>,
>
    decreases v, v.len() - i,
{
    if i < 0 || i >= v.len() {
        Some(acc)
    } else {
        match in_flow(v[i], quote) {
            Some(t) => flow_list(v, i + 1, quote, acc + comma(i) + t),
            None => None,
        }
    }
}

/// The members `m[i..]` of a flow mapping, appended to `acc`.
pub open spec fn flow_dict(
    m: Seq<(Seq<u8>, Data)>,
    i: int,
    quote: ScalarStyle,
    acc: Seq<u8>,
) -> Option<Seq<u8>>
    decreases m, m.len() - i,
{
    if i < 0 || i >= m.len() {
        Some(acc)
    } else {
        match in_flow(m[i].1, quote) {
            Some(t) => flow_dict(
                m,
                i + 1,
                quote,
                acc + comma(i) + key_in_flow(m[i].0) + seq![COLON, SPACE] + t,
            ),
            None => None,
        }
    }
}

/// Whether a value is a collection with something in it.
pub open spec fn filled(d: Data) -> bool {
    match d {
        Data::List(v) => v.len() > 0,
        Data::Dict(m) => m.len() > 0,
        _ => false,
    }
}

/// The lines of a value in block style; `None` for one under a tag.
pub open spec fn in_block(d: Data, quote: ScalarStyle, unit: int) -> Option<Seq<u8>>
    decreases d, 0int,
{
    match d {
        Data::Null => Some("null".spec_bytes()),
        Data::Bool(true) => Some("true".spec_bytes()),
        Data::Bool(false) => Some("false".spec_bytes()),
        Data::Int(i) => Some(integer_text(i)),
        Data::Float(t) => Some(t),
        Data::Text(s) => Some(text_in_block(s, quote)),
        Data::List(v) => if v.len() == 0 {
            Some(seq![LBRACKET, RBRACKET])
        } else {
            block_list(v, 0, quote, unit, Seq::empty())
        },
        Data::Dict(m) => if m.len() == 0 {
            Some(seq![LBRACE, RBRACE])
        } else {
            block_dict(m, 0, quote, unit, Seq::empty())
        },
        Data::Tagged(_, _) => None,
    }
}

/// What separates line `i` of a block collection from the one before it.
pub open spec fn line_feed(i: int) -> Seq<u8> {
    if i == 0 {
        Seq::empty()
    } else {
        seq![NL]
    }
}

/// The items `v[i..]` of a block sequence, appended to `acc`.
pub open spec fn block_list(
    v: Seq<Data>,
    i: int,
    quote: ScalarStyle,
    unit: int,
    acc: Seq<u8>,
) -> Option<Seq<u8>>
    decreases v, v.len() - i,
{
    if i < 0 || i >= v.len() {
        Some(acc)
    } else {
        match in_block(v[i], quote, unit) {
            Some(t) => block_list(
                v,
                i + 1,
                quote,
                unit,
                acc + line_feed(i) + seq![DASH, SPACE] + reindented(t, 0, 2, Seq::empty()),
            ),
            None => None,
        }
    }
}

/// What follows the `:` of an entry: a collection on lines of its own,
/// anything else on the same line.
pub open spec fn entry_tail(d: Data, t: Seq<u8>, unit: int) -> Seq<u8> {
    if filled(d) {
        seq![NL] + spaces(unit) + reindented(t, 0, unit, Seq::empty())
    } else {
        seq![SPACE] + t
    }
}

/// The entries `m[i..]` of a block mapping, appended to `acc`.
pub open spec fn block_dict(
    m: Seq<(Seq<u8>, Data)>,
    i: int,
    quote: ScalarStyle,
    unit: int,
    acc: Seq<u8>,
) -> Option<Seq<u8>>
    decreases m, m.len() - i,
{
    if i < 0 || i >= m.len() {
        Some(acc)
    } else {
        match in_block(m[i].1, quote, unit) {
            Some(t) => block_dict(
                m,
                i + 1,
                quote,
                unit,
                acc + line_feed(i) + key_text(m[i].0) + seq![COLON] + entry_tail(m[i].1, t, unit),
            ),
            None => None,
        }
    }
}

/// The spelling of a value in the style a document prefers.
pub open spec fn spelled(d: Data, ctx: EmitCtx) -> Option<Seq<u8>> {
    if ctx.flow == FlowStyle::Auto && filled(d) {
        in_flow(d, ctx.quote)
    } else {
        in_block(d, ctx.quote, ctx.unit as int)
    }
}

fn push2(out: &mut Vec<u8>, a: u8, b: u8)
    ensures
        final(out)@ == old(out)@ + seq![a, b],
{
    out.push(a);
    out.push(b);
    assert(out@ =~= old(out)@ + seq![a, b]);
}

fn emit_flow(v: &Value, quote: ScalarStyle) -> (r: Option<Vec<u8>>)
    ensures
        match in_flow(v@, quote) {
            Some(t) => r is Some && r->0@ == t,
            None => r is None,
        },
    decreases v,
{
    match v {
        Value::Null => Some(whole("null".as_bytes())),
        Value::Bool(true) => Some(whole("true".as_bytes())),
        Value::Bool(false) => Some(whole("false".as_bytes())),
        Value::Number(n) => Some(format_number(n)),
        Value::String(s) => Some(flow_text_spelling(s.as_str().as_bytes(), quote)),
        Value::Sequence(items) => {
            proof {
                lists_are_pointwise(items@);
            }
            let mut out: Vec<u8> = Vec::new();
            out.push(LBRACKET);
            assert(out@ =~= seq![LBRACKET]);
            let mut i: usize = 0;
            while i < items.len()
                invariant
                    i <= items@.len(),
                    decreases_to!(v => items),
                    v@ == Data::List(list(items@)),
                    list(items@).len() == items@.len(),
                    forall|k: int|
                        0 <= k < items@.len() ==> #[trigger] list(items@)[k] == data(items@[k]),
                    flow_list(list(items@), i as int, quote, out@) == flow_list(
                        list(items@),
                        0,
                        quote,
                        seq![LBRACKET],
                    ),
                decreases items@.len() - i,
            {
                assert(list(items@)[i as int] == data(items@[i as int]));
                let ghost before = out@;
                match emit_flow(&items[i], quote) {
                    Some(t) => {
                        if i > 0 {
                            push2(&mut out, COMMA, SPACE);
                        }
                        append_all(&mut out, t.as_slice());
                        proof {
                            assert(out@ =~= before + comma(i as int) + t@);
                        }
                    },
                    None => {
                        return None;
                    },
                }
                i += 1;
            }
            out.push(RBRACKET);
            Some(out)
        },
        Value::Mapping(m) => {
            proof {
                dicts_are_pointwise(m.entries@);
            }
            let mut out: Vec<u8> = Vec::new();
            out.push(LBRACE);
            assert(out@ =~= seq![LBRACE]);
            let mut i: usize = 0;
            while i < m.entries.len()
                invariant
                    i <= m.entries@.len(),
                    decreases_to!(v => m),
                    v@ == Data::Dict(m@),
                    m@.len() == m.entries@.len(),
                    forall|k: int|
                        0 <= k < m.entries@.len() ==> #[trigger] m@[k] == (
                            bytes(m.entries@[k].0),
                            data(m.entries@[k].1),
                        ),
                    flow_dict(m@, i as int, quote, out@) == flow_dict(m@, 0, quote, seq![LBRACE]),
                decreases m.entries@.len() - i,
            {
                let ghost before = out@;
                let (k, w) = &m.entries[i];
                assert(m@[i as int] == (bytes(*k), data(*w)));
                match emit_flow(w, quote) {
                    Some(t) => {
                        if i > 0 {
                            push2(&mut out, COMMA, SPACE);
                        }
                        let name: Vec<u8> = flow_key_spelling(k.as_str().as_bytes());
                        append_all(&mut out, name.as_slice());
                        push2(&mut out, COLON, SPACE);
                        append_all(&mut out, t.as_slice());
                        proof {
                            assert(out@ =~= before + comma(i as int) + name@ + seq![COLON, SPACE]
                                + t@);
                        }
                    },
                    None => {
                        return None;
                    },
                }
                i += 1;
            }
            out.push(RBRACE);
            Some(out)
        },
        Value::Tagged(_) => None,
    }
}

fn is_filled(v: &Value) -> (r: bool)
    ensures
        r == filled(v@),
{
    match v {
        Value::Sequence(items) => {
            proof {
                lists_are_pointwise(items@);
            }
            items.len() > 0
        },
        Value::Mapping(m) => !m.is_empty(),
        _ => false,
    }
}

fn block_text_spelling(s: &[u8], quote: ScalarStyle) -> (r: Vec<u8>)
    ensures
        r@ == text_in_block(s@, quote),
{
    if contains_byte(s, NL) && can_use_block_literal(s) {
        format_block_literal(s, 0)
    } else {
        quoted_spelling(s, quote)
    }
}

fn emit_block(v: &Value, quote: ScalarStyle, unit: usize) -> (r: Option<Vec<u8>>)
    ensures
        match in_block(v@, quote, unit as int) {
            Some(t) => r is Some && r->0@ == t,
            None => r is None,
        },
    decreases v,
{
    match v {
        Value::Null => Some(whole("null".as_bytes())),
        Value::Bool(true) => Some(whole("true".as_bytes())),
        Value::Bool(false) => Some(whole("false".as_bytes())),
        Value::Number(n) => Some(format_number(n)),
        Value::String(s) => Some(block_text_spelling(s.as_str().as_bytes(), quote)),
        Value::Sequence(items) => {
            proof {
                lists_are_pointwise(items@);
            }
            let mut out: Vec<u8> = Vec::new();
            if items.len() == 0 {
                push2(&mut out, LBRACKET, RBRACKET);
                assert(out@ =~= seq![LBRACKET, RBRACKET]);
                return Some(out);
            }
            assert(out@ =~= Seq::empty());
            let mut i: usize = 0;
            while i < items.len()
                invariant
                    i <= items@.len(),
                    decreases_to!(v => items),
                    v@ == Data::List(list(items@)),
                    list(items@).len() == items@.len(),
                    items@.len() > 0,
                    forall|k: int|
                        0 <= k < items@.len() ==> #[trigger] list(items@)[k] == data(items@[k]),
                    block_list(list(items@), i as int, quote, unit as int, out@) == block_list(
                        list(items@),
                        0,
                        quote,
                        unit as int,
                        Seq::empty(),
                    ),
                decreases items@.len() - i,
            {
                assert(list(items@)[i as int] == data(items@[i as int]));
                let ghost before = out@;
                match emit_block(&items[i], quote, unit) {
                    Some(t) => {
                        if i > 0 {
                            out.push(NL);
                        }
                        push2(&mut out, DASH, SPACE);
                        let shifted: Vec<u8> = indent_continuation_lines(t.as_slice(), 2);
                        append_all(&mut out, shifted.as_slice());
                        proof {
                            assert(out@ =~= before + line_feed(i as int) + seq![DASH, SPACE]
                                + shifted@);
                        }
                    },
                    None => {
                        return None;
                    },
                }
                i += 1;
            }
            Some(out)
        },
        Value::Mapping(m) => {
            proof {
                dicts_are_pointwise(m.entries@);
            }
            let mut out: Vec<u8> = Vec::new();
            if m.entries.len() == 0 {
                push2(&mut out, LBRACE, RBRACE);
                assert(out@ =~= seq![LBRACE, RBRACE]);
                return Some(out);
            }
            assert(out@ =~= Seq::empty());
            let mut i: usize = 0;
            while i < m.entries.len()
                invariant
                    i <= m.entries@.len(),
                    decreases_to!(v => m),
                    v@ == Data::Dict(m@),
                    m@.len() == m.entries@.len(),
                    m@.len() > 0,
                    forall|k: int|
                        0 <= k < m.entries@.len() ==> #[trigger] m@[k] == (
                            bytes(m.entries@[k].0),
                            data(m.entries@[k].1),
                        ),
                    block_dict(m@, i as int, quote, unit as int, out@) == block_dict(
                        m@,
                        0,
                        quote,
                        unit as int,
                        Seq::empty(),
                    ),
                decreases m.entries@.len() - i,
            {
                let ghost before = out@;
                let (k, w) = &m.entries[i];
                assert(m@[i as int] == (bytes(*k), data(*w)));
                match emit_block(w, quote, unit) {
                    Some(t) => {
                        if i > 0 {
                            out.push(NL);
                        }
                        let name: Vec<u8> = emit_key(k.as_str().as_bytes());
                        append_all(&mut out, name.as_slice());
                        out.push(COLON);
                        let ghost middle = out@;
                        assert(middle =~= before + line_feed(i as int) + name@ + seq![COLON]);
                        if is_filled(w) {
                            out.push(NL);
                            append_spaces(&mut out, unit);
                            let shifted: Vec<u8> = indent_continuation_lines(t.as_slice(), unit);
                            append_all(&mut out, shifted.as_slice());
                        } else {
                            out.push(SPACE);
                            append_all(&mut out, t.as_slice());
                        }
                        proof {
                            assert(out@ =~= middle + entry_tail(data(*w), t@, unit as int));
                        }
                    },
                    None => {
                        return None;
                    },
                }
                i += 1;
            }
            Some(out)
        },
        Value::Tagged(_) => None,
    }
}

/// Spells a value in the style a document prefers.
pub fn emit_value(v: &Value, ctx: &EmitCtx) -> (r: Option<Vec<u8>>)
    ensures
        match spelled(v@, *ctx) {
            Some(t) => r is Some && r->0@ == t,
            None => r is None,
        },
{
    if ctx.flow == FlowStyle::Auto && is_filled(v) {
        emit_flow(v, ctx.quote)
    } else {
        emit_block(v, ctx.quote, ctx.unit)
    }
}

/// Something that can be written into a document as a value.
pub trait Emit {
    /// The value to be written.
    spec fn model(&self) -> Data;

    /// The value that the written text must load to.
    fn expected_value(&self) -> (r: Value)
        ensures
            r@ == self.model(),
    ;
}

impl Emit for Value {
    open spec fn model(&self) -> Data {
        self@
    }

    fn expected_value(&self) -> (r: Value) {
        duplicate(self)
    }
}

impl Emit for str {
    open spec fn model(&self) -> Data {
        Data::Text(self.spec_bytes())
    }

    fn expected_value(&self) -> (r: Value) {
        Value::String(self.to_owned())
    }
}

impl Emit for i64 {
    open spec fn model(&self) -> Data {
        Data::Int(*self)
    }

    fn expected_value(&self) -> (r: Value) {
        Value::Number(Number::Integer(*self))
    }
}

impl Emit for bool {
    open spec fn model(&self) -> Data {
        Data::Bool(*self)
    }

    fn expected_value(&self) -> (r: Value) {
        Value::Bool(*self)
    }
}

} // verus!
