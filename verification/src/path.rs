//! Paths that address a value inside a document.
use crate::scalar::{digits, magnitude, magnitude_grows, value_of_digit};
use crate::text::{
    append_all, copy, in_class, run, scan, string_of, utf8_text, Class, DOT, LBRACKET, PLUS, RBRACKET, STAR,
};
use vstd::prelude::*;
use vstd::string::*;
use vstd::utf8::*;

verus! {

/// One step of a path.
#[derive(Debug)]
pub enum QuerySegment {
    /// The value under a mapping key.
    Key(String),
    /// The item at a sequence index.
    Index(usize),
    /// Every child.
    Wildcard,
    /// Every descendant.
    RecursiveDescent,
}

/// The model of a path step.
pub enum Seg {
    Key(Seq<u8>),
    Index(int),
    Wildcard,
    RecursiveDescent,
}

impl View for QuerySegment {
    type V = Seg;

    open spec fn view(&self) -> Seg {
        match self {
            QuerySegment::Key(k) => Seg::Key(encode_utf8(k@)),
            QuerySegment::Index(i) => Seg::Index(*i as int),
            QuerySegment::Wildcard => Seg::Wildcard,
            QuerySegment::RecursiveDescent => Seg::RecursiveDescent,
        }
    }
}

/// The model of a list of path steps.
pub open spec fn segs(v: Seq<QuerySegment>) -> Seq<Seg> {
    v.map_values(|x: QuerySegment| x@)
}

/// The number that a decimal text, optionally with a leading `+`, denotes;
/// `None` for any other text and for a number too large for an index.
pub open spec fn index_value(s: Seq<u8>) -> Option<int> {
    let b = if s.len() > 0 && s[0] == PLUS {
        1int
    } else {
        0int
    };
    let n = s.len() as int;
    if digits(s, b, n, 10) && magnitude(s, b, n, 10) <= usize::MAX {
        Some(magnitude(s, b, n, 10))
    } else {
        None
    }
}

/// Reads a sequence index.
pub fn parse_index(s: &[u8]) -> (r: Option<usize>)
    ensures
        match index_value(s@) {
            Some(n) => r == Some(n as usize) && 0 <= n <= usize::MAX,
            None => r is None,
        },
{
    let b: usize = if s.len() > 0 && s[0] == PLUS {
        1
    } else {
        0
    };
    if b >= s.len() {
        return None;
    }
    let mut k: usize = b;
    while k < s.len()
        invariant
            b <= k <= s@.len(),
            b == (if s@.len() > 0 && s@[0] == PLUS {
                1int
            } else {
                0int
            }),
            forall|m: int| b <= m < k ==> crate::scalar::digit_value(#[trigger] s@[m]) < 10,
        decreases s@.len() - k,
    {
        if value_of_digit(s[k]) >= 10 {
            assert(crate::scalar::digit_value(s@[k as int]) >= 10);
            return None;
        }
        k += 1;
    }
    assert(digits(s@, b as int, s@.len() as int, 10));
    let mut i: usize = b;
    let mut n: u128 = 0;
    while i < s.len()
        invariant
            b <= i <= s@.len(),
            digits(s@, b as int, s@.len() as int, 10),
            b == (if s@.len() > 0 && s@[0] == PLUS {
                1int
            } else {
                0int
            }),
            n == magnitude(s@, b as int, i as int, 10),
            n <= usize::MAX,
        decreases s@.len() - i,
    {
        let d: u8 = value_of_digit(s[i]);
        n = n * 10 + (d as u128);
        i += 1;
        if n > usize::MAX as u128 {
            proof {
                magnitude_grows(s@, b as int, i as int, s@.len() as int, 10);
            }
            return None;
        }
    }
    proof {
        magnitude_grows(s@, b as int, b as int, s@.len() as int, 10);
    }
    Some(n as usize)
}

/// The steps of the path `s[i..]`, appended to `acc`: keys separated by full
/// stops, and indices in brackets. A bracket that holds no index is dropped.
pub open spec fn steps(s: Seq<u8>, i: int, acc: Seq<Seg>) -> Seq<Seg>
    decreases s.len() - i,
{
    let n = s.len() as int;
    if i >= n {
        acc
    } else if s[i] == DOT {
        if i + 1 < n && s[i + 1] == DOT {
            steps(s, i + 2, acc.push(Seg::RecursiveDescent))
        } else {
            steps(s, i + 1, acc)
        }
    } else if s[i] == LBRACKET {
        let e = run(s, i + 1, n, Class::Bracketed);
        let inner = s.subrange(i + 1, e);
        let next = if e < n {
            e + 1
        } else {
            n
        };
        let step = if index_value(inner) is Some {
            acc.push(Seg::Index(index_value(inner)->0))
        } else if inner == seq![STAR] {
            acc.push(Seg::Wildcard)
        } else {
            acc
        };
        if i < next <= n {
            steps(s, next, step)
        } else {
            acc
        }
    } else {
        let e = run(s, i, n, Class::Segment);
        let key = s.subrange(i, e);
        let step = if key == seq![STAR] {
            acc.push(Seg::Wildcard)
        } else {
            acc.push(Seg::Key(utf8_text(key)))
        };
        if i < e <= n {
            steps(s, e, step)
        } else {
            acc
        }
    }
}

/// The steps of a path.
pub open spec fn path_steps(path: Seq<u8>) -> Seq<Seg> {
    steps(path, 0, Seq::empty())
}

fn push_step(out: &mut Vec<QuerySegment>, step: QuerySegment)
    ensures
        segs(final(out)@) == segs(old(out)@).push(step@),
{
    out.push(step);
    assert(segs(out@) =~= segs(old(out)@).push(step@));
}

/// Splits a path into its steps.
pub fn parse_query_path(path: &[u8]) -> (r: Vec<QuerySegment>)
    ensures
        segs(r@) == path_steps(path@),
{
    let n: usize = path.len();
    let mut out: Vec<QuerySegment> = Vec::new();
    assert(segs(out@) =~= Seq::empty());
    let mut i: usize = 0;
    while i < n
        invariant
            i <= n,
            n == path@.len(),
            steps(path@, i as int, segs(out@)) == path_steps(path@),
        decreases n - i,
    {
        if path[i] == DOT {
            if i + 1 < n && path[i + 1] == DOT {
                push_step(&mut out, QuerySegment::RecursiveDescent);
                i += 2;
            } else {
                i += 1;
            }
        } else if path[i] == LBRACKET {
            let e: usize = scan(path, i + 1, n, Class::Bracketed);
            let inner: Vec<u8> = copy(path, i + 1, e);
            match parse_index(inner.as_slice()) {
                Some(x) => {
                    push_step(&mut out, QuerySegment::Index(x));
                },
                None => {
                    let star: bool = inner.len() == 1 && inner[0] == STAR;
                    assert(star == (inner@ =~= seq![STAR]));
                    if star {
                        push_step(&mut out, QuerySegment::Wildcard);
                    }
                },
            }
            i = if e < n {
                e + 1
            } else {
                n
            };
        } else {
            let e: usize = scan(path, i, n, Class::Segment);
            let key: Vec<u8> = copy(path, i, e);
            proof {
                crate::text::run_is_maximal(path@, i + 1, n as int, Class::Segment);
            }
            let star: bool = key.len() == 1 && key[0] == STAR;
            assert(star == (key@ =~= seq![STAR]));
            if star {
                push_step(&mut out, QuerySegment::Wildcard);
            } else {
                push_step(&mut out, QuerySegment::Key(string_of(key)));
            }
            i = e;
        }
    }
    out
}

/// Whether every bracket of `s[i..]` holds a sequence index.
pub open spec fn brackets_hold_indices(s: Seq<u8>, i: int) -> bool
    decreases s.len() - i,
{
    let n = s.len() as int;
    if i >= n {
        true
    } else if s[i] == LBRACKET {
        let e = run(s, i + 1, n, Class::Bracketed);
        index_value(s.subrange(i + 1, e)) is Some && (i < e <= n ==> brackets_hold_indices(s, e))
    } else {
        brackets_hold_indices(s, i + 1)
    }
}

/// Splits a path into its steps, refusing one with a bracket that holds no
/// sequence index: dropping the bracket would address the parent instead.
pub fn parse_rename_path(path: &[u8]) -> (r: Option<Vec<QuerySegment>>)
    ensures
        brackets_hold_indices(path@, 0) <==> r is Some,
        r matches Some(v) ==> segs(v@) == path_steps(path@),
{
    let n: usize = path.len();
    let mut i: usize = 0;
    while i < n
        invariant
            i <= n,
            n == path@.len(),
            brackets_hold_indices(path@, i as int) == brackets_hold_indices(path@, 0),
        decreases n - i,
    {
        if path[i] == LBRACKET {
            let e: usize = scan(path, i + 1, n, Class::Bracketed);
            let inner: Vec<u8> = copy(path, i + 1, e);
            if parse_index(inner.as_slice()).is_none() {
                return None;
            }
            i = e;
        } else {
            i += 1;
        }
    }
    Some(parse_query_path(path))
}

/// The decimal digits of a number.
pub open spec fn decimal(n: nat) -> Seq<u8>
    decreases n,
{
    if n < 10 {
        seq![(48 + n) as u8]
    } else {
        decimal(n / 10).push((48 + n % 10) as u8)
    }
}

/// Appends the decimal digits of a number.
pub fn push_decimal(out: &mut Vec<u8>, n: u64)
    ensures
        final(out)@ == old(out)@ + decimal(n as nat),
    decreases n,
{
    if n < 10 {
        out.push(48 + n as u8);
        assert(out@ =~= old(out)@ + seq![(48 + n) as u8]);
    } else {
        push_decimal(out, n / 10);
        let ghost before = out@;
        out.push(48 + (n % 10) as u8);
        assert(out@ =~= old(out)@ + decimal(n as nat / 10).push((48 + n as nat % 10) as u8));
    }
}

/// The path of item `i` of the sequence at `path`.
pub open spec fn item_path(path: Seq<u8>, i: int) -> Seq<u8> {
    path.push(LBRACKET) + decimal(i as nat).push(RBRACKET)
}

/// The path of item `i` of the sequence at `path`.
pub fn item_child_path(path: &[u8], i: usize) -> (r: Vec<u8>)
    ensures
        r@ == item_path(path@, i as int),
{
    let mut out: Vec<u8> = Vec::new();
    append_all(&mut out, path);
    out.push(LBRACKET);
    push_decimal(&mut out, i as u64);
    out.push(RBRACKET);
    assert(out@ =~= item_path(path@, i as int));
    out
}

/// The path of the value under `key` in the mapping at `path`.
pub open spec fn key_path(path: Seq<u8>, key: Seq<u8>) -> Seq<u8> {
    if path.len() == 0 {
        key
    } else {
        path.push(DOT) + key
    }
}

/// Offset of the last `[` before `i`, if there is one.
pub open spec fn last_bracket(s: Seq<u8>, i: int) -> Option<int>
    decreases i,
{
    if i <= 0 {
        None
    } else if s[i - 1] == LBRACKET {
        Some(i - 1)
    } else {
        last_bracket(s, i - 1)
    }
}

/// The path of the sequence that an item path addresses an item of.
pub open spec fn parent_path(path: Seq<u8>) -> Seq<u8> {
    match last_bracket(path, path.len() as int) {
        Some(i) => path.subrange(0, i),
        None => path,
    }
}

/// The path of the sequence that an item path addresses an item of.
pub fn sequence_parent_path(path: &[u8]) -> (r: Vec<u8>)
    ensures
        r@ == parent_path(path@),
{
    let mut i: usize = path.len();
    while i > 0
        invariant
            i <= path@.len(),
            last_bracket(path@, i as int) == last_bracket(path@, path@.len() as int),
        decreases i,
    {
        if path[i - 1] == LBRACKET {
            return copy(path, 0, i - 1);
        }
        i -= 1;
    }
    let r: Vec<u8> = copy(path, 0, path.len());
    assert(r@ =~= path@);
    r
}

/// An item path addresses an item of the sequence it was made from.
pub proof fn item_paths_have_their_sequence_as_parent(path: Seq<u8>, i: int)
    requires
        0 <= i,
    ensures
        parent_path(item_path(path, i)) == path,
{
    let p = item_path(path, i);
    assert(p.len() == path.len() + decimal(i as nat).len() + 2);
    digits_hold_no_bracket(p, (path.len() + 1) as int, i as nat);
    assert(p[path.len() as int] == LBRACKET);
    assert(p.subrange(0, path.len() as int) =~= path);
    brackets_before_are_not_seen(p, path.len() as int, p.len() as int);
}

proof fn digits_hold_no_bracket(p: Seq<u8>, lo: int, n: nat)
    requires
        0 < lo,
        lo + decimal(n).len() < p.len(),
        forall|k: int| 0 <= k < decimal(n).len() ==> p[lo + k] == #[trigger] decimal(n)[k],
    ensures
        forall|k: int| lo <= k < lo + decimal(n).len() ==> #[trigger] p[k] != LBRACKET,
    decreases n,
{
    decimals_are_digits(n);
    assert forall|k: int| lo <= k < lo + decimal(n).len() implies #[trigger] p[k] != LBRACKET by {
        assert(p[lo + (k - lo)] == decimal(n)[k - lo]);
    }
}

pub proof fn decimals_are_digits(n: nat)
    ensures
        decimal(n).len() > 0,
        forall|k: int|
            0 <= k < decimal(n).len() ==> 48 <= #[trigger] decimal(n)[k] <= 57,
    decreases n,
{
    if n >= 10 {
        decimals_are_digits(n / 10);
    }
}

proof fn brackets_before_are_not_seen(p: Seq<u8>, at: int, i: int)
    requires
        0 <= at < i <= p.len(),
        p[at] == LBRACKET,
        forall|k: int| at < k < i ==> #[trigger] p[k] != LBRACKET,
    ensures
        last_bracket(p, i) == Some(at),
    decreases i,
{
    if i - 1 > at {
        assert(p[i - 1] != LBRACKET);
        brackets_before_are_not_seen(p, at, i - 1);
    }
}

/// Whether every bracket of `s[i..]` is closed.
pub open spec fn brackets_closed(s: Seq<u8>, i: int) -> bool
    decreases s.len() - i,
{
    let n = s.len() as int;
    if i >= n {
        true
    } else if s[i] == DOT {
        if i + 1 < n && s[i + 1] == DOT {
            brackets_closed(s, i + 2)
        } else {
            brackets_closed(s, i + 1)
        }
    } else if s[i] == LBRACKET {
        let e = run(s, i + 1, n, Class::Bracketed);
        i < e < n && brackets_closed(s, e + 1)
    } else {
        let e = run(s, i, n, Class::Segment);
        i < e <= n && brackets_closed(s, e)
    }
}

/// A run does not see what is put behind a text, unless it reaches the end of
/// the text and goes on.
proof fn runs_end_before_what_follows(s: Seq<u8>, t: Seq<u8>, i: int, class: Class)
    requires
        0 <= i <= s.len(),
        run(s, i, s.len() as int, class) < s.len() || (t.len() > 0 && !in_class(t[0], class)),
    ensures
        run(s + t, i, (s + t).len() as int, class) == run(s, i, s.len() as int, class),
    decreases s.len() - i,
{
    if i < s.len() {
        assert((s + t)[i] == s[i]);
        if in_class(s[i], class) {
            runs_end_before_what_follows(s, t, i + 1, class);
        }
    } else if t.len() > 0 {
        assert((s + t)[i] == t[0]);
    }
}

/// The steps of a path that goes on with a bracket, or with a full stop that
/// does not make two, begin with the steps of its first part.
proof fn steps_of_a_longer_path(s: Seq<u8>, t: Seq<u8>, i: int, acc: Seq<Seg>)
    requires
        0 <= i <= s.len(),
        brackets_closed(s, i),
        t.len() > 0,
        t[0] == LBRACKET || t[0] == DOT && !(s.len() > 0 && s.last() == DOT),
    ensures
        steps(s + t, i, acc) == steps(s + t, s.len() as int, steps(s, i, acc)),
    decreases s.len() - i,
{
    let w = s + t;
    let n = s.len() as int;
    if i < n {
        assert(w[i] == s[i]);
        if s[i] == DOT {
            if i + 1 < n {
                assert(w[i + 1] == s[i + 1]);
                if s[i + 1] == DOT {
                    steps_of_a_longer_path(s, t, i + 2, acc.push(Seg::RecursiveDescent));
                } else {
                    steps_of_a_longer_path(s, t, i + 1, acc);
                }
            } else {
                assert(w[i + 1] == t[0]);
                steps_of_a_longer_path(s, t, i + 1, acc);
            }
        } else if s[i] == LBRACKET {
            let e = run(s, i + 1, n, Class::Bracketed);
            runs_end_before_what_follows(s, t, i + 1, Class::Bracketed);
            assert(w.subrange(i + 1, e) =~= s.subrange(i + 1, e));
            let inner = s.subrange(i + 1, e);
            let step = if index_value(inner) is Some {
                acc.push(Seg::Index(index_value(inner)->0))
            } else if inner == seq![STAR] {
                acc.push(Seg::Wildcard)
            } else {
                acc
            };
            steps_of_a_longer_path(s, t, e + 1, step);
        } else {
            let e = run(s, i, n, Class::Segment);
            runs_end_before_what_follows(s, t, i, Class::Segment);
            assert(w.subrange(i, e) =~= s.subrange(i, e));
            let key = s.subrange(i, e);
            let step = if key == seq![STAR] {
                acc.push(Seg::Wildcard)
            } else {
                acc.push(Seg::Key(utf8_text(key)))
            };
            steps_of_a_longer_path(s, t, e, step);
        }
    }
}

/// A number is read back from its spelling.
pub proof fn decimals_are_read_back(n: nat)
    ensures
        digits(decimal(n), 0, decimal(n).len() as int, 10),
        magnitude(decimal(n), 0, decimal(n).len() as int, 10) == n,
    decreases n,
{
    decimals_are_digits(n);
    let s = decimal(n);
    if n >= 10 {
        decimals_are_read_back(n / 10);
        let t = decimal(n / 10);
        same_digits(s, t, t.len() as int);
    } else {
        reveal_with_fuel(magnitude, 2);
    }
}

proof fn same_digits(s: Seq<u8>, t: Seq<u8>, k: int)
    requires
        0 <= k <= t.len() <= s.len(),
        forall|j: int| 0 <= j < k ==> #[trigger] s[j] == t[j],
    ensures
        magnitude(s, 0, k, 10) == magnitude(t, 0, k, 10),
    decreases k,
{
    if k > 0 {
        same_digits(s, t, k - 1);
        assert(s[k - 1] == t[k - 1]);
    }
}

/// The path of an item leads where the path of its sequence leads, and then to
/// the item.
pub proof fn item_paths_lead_to_items(path: Seq<u8>, i: int)
    requires
        brackets_closed(path, 0),
        0 <= i <= usize::MAX,
    ensures
        path_steps(item_path(path, i)) == path_steps(path).push(Seg::Index(i)),
{
    let d = decimal(i as nat);
    let t = seq![LBRACKET] + d + seq![RBRACKET];
    let w = path + t;
    let n = path.len() as int;
    assert(item_path(path, i) =~= w);
    steps_of_a_longer_path(path, t, 0, Seq::empty());
    decimals_are_digits(i as nat);
    decimals_are_read_back(i as nat);
    let e = n + 1 + d.len();
    assert forall|k: int| n < k < e implies in_class(#[trigger] w[k], Class::Bracketed) by {
        assert(w[k] == d[k - n - 1]);
    }
    assert(w[e] == RBRACKET);
    runs_are_what_they_hold(w, n + 1, w.len() as int, Class::Bracketed, e);
    assert(w.subrange(n + 1, e) =~= d);
    assert(index_value(d) == Some(i)) by {
        assert(d[0] != PLUS);
    }
    assert(e + 1 == w.len());
    assert(steps(w, e + 1, path_steps(path).push(Seg::Index(i))) == path_steps(path).push(
        Seg::Index(i),
    ));
}

/// A run that holds only members of its class and stops at something else is
/// the run.
proof fn runs_are_what_they_hold(s: Seq<u8>, i: int, hi: int, class: Class, e: int)
    requires
        0 <= i <= e <= hi <= s.len(),
        forall|k: int| i <= k < e ==> in_class(#[trigger] s[k], class),
        e == hi || !in_class(s[e], class),
    ensures
        run(s, i, hi, class) == e,
    decreases e - i,
{
    if i < e {
        runs_are_what_they_hold(s, i + 1, hi, class, e);
    }
}

/// The path of the value under a key leads where the path of its mapping
/// leads, and then to the key, if the key holds neither `.` nor `[`.
pub proof fn key_paths_lead_to_keys(path: Seq<u8>, key: Seq<u8>)
    requires
        brackets_closed(path, 0),
        path.len() > 0 ==> path.last() != DOT,
        key.len() > 0,
        !key.contains(DOT),
        !key.contains(LBRACKET),
        key != seq![STAR],
        valid_utf8(key),
    ensures
        path_steps(key_path(path, key)) == path_steps(path).push(Seg::Key(key)),
{
    let w = key_path(path, key);
    let from = if path.len() == 0 {
        0int
    } else {
        path.len() as int + 1
    };
    if path.len() > 0 {
        let t = seq![DOT] + key;
        assert(w =~= path + t);
        steps_of_a_longer_path(path, t, 0, Seq::empty());
        assert(w[path.len() as int + 1] == key[0]);
        assert(key.contains(key[0]));
        assert(steps(w, path.len() as int, path_steps(path)) == steps(
            w,
            path.len() as int + 1,
            path_steps(path),
        ));
    }
    assert forall|k: int| from <= k < w.len() implies in_class(#[trigger] w[k], Class::Segment) by {
        assert(w[k] == key[k - from]);
        assert(key.contains(key[k - from]));
    }
    runs_are_what_they_hold(w, from, w.len() as int, Class::Segment, w.len() as int);
    assert(w.subrange(from, w.len() as int) =~= key);
    assert(w[from] == key[0] && key.contains(key[0]));
    let all = path_steps(path).push(Seg::Key(key));
    assert(steps(w, w.len() as int, all) == all);
}

} // verus!
