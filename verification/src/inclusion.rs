//! Documents that are put together from several sources.
//!
//! A node `!include path` stands for the value of another source, and
//! `!include path#name` for what that source has under the key `name`. A
//! resolver turns the text behind the tag into a source.
use crate::error::Error;
use crate::text::{is_word, HASH, SLASH};
use vstd::prelude::*;
use vstd::string::*;
use vstd::utf8::*;

verus! {

/// A request for a source.
#[derive(Debug, Clone, Copy)]
#[non_exhaustive]
pub struct IncludeRequest<'a> {
    /// What stands behind the tag, with its fragment if it has one.
    pub spec: &'a str,
    /// The number of the source that asks. The first source has number 0.
    pub from_id: usize,
    /// How deep the source that asks is nested. The first source is at depth
    /// 0.
    pub depth: usize,
}

/// A source: its name, which tells it from other sources, and its text.
#[derive(Debug, Clone)]
#[non_exhaustive]
pub struct InputSource {
    pub name: String,
    pub bytes: String,
}

impl InputSource {
    /// The source with the given name and text.
    #[must_use]
    pub fn new(name: &str, bytes: &str) -> (r: InputSource)
        ensures
            r.name@ == name@,
            r.bytes@ == bytes@,
    {
        InputSource { name: name.to_owned(), bytes: bytes.to_owned() }
    }
}

/// What turns requests into sources.
#[derive(Clone)]
pub struct IncludeResolver<F> {
    f: F,
}

impl<F: Fn(IncludeRequest<'_>) -> Result<InputSource, Error>> IncludeResolver<F> {
    /// The function that answers requests.
    pub closed spec fn function(self) -> F {
        self.f
    }

    /// The resolver that answers requests with `f`.
    #[must_use]
    pub fn new(f: F) -> (r: IncludeResolver<F>)
        ensures
            r.function() == f,
    {
        IncludeResolver { f }
    }

    /// What the function says to a request.
    pub fn resolve(&self, req: IncludeRequest<'_>) -> (r: Result<InputSource, Error>)
        requires
            call_requires(self.function(), (req,)),
        ensures
            call_ensures(self.function(), (req,), r),
    {
        (self.f)(req)
    }
}

/// What a file resolver does with symbolic links.
#[derive(Debug, Clone, Copy, PartialEq, Eq, Structural, Hash)]
#[non_exhaustive]
pub enum SymlinkPolicy {
    /// A link is followed if what it leads to lies below the root.
    FollowWithinRoot,
    /// No link is followed.
    Reject,
}

impl Default for SymlinkPolicy {
    fn default() -> (r: SymlinkPolicy)
        ensures
            r == SymlinkPolicy::FollowWithinRoot,
    {
        SymlinkPolicy::FollowWithinRoot
    }
}

/// Where the first `#` stands at or behind `i`.
pub open spec fn hash_from(s: Seq<u8>, i: int) -> Option<int>
    decreases s.len() - i,
{
    if i >= s.len() {
        None
    } else if s[i] == HASH {
        Some(i)
    } else {
        hash_from(s, i + 1)
    }
}

/// The path in front of the first `#`, and the fragment behind it if there is
/// a `#`.
pub open spec fn fragment_split(s: Seq<u8>) -> (Seq<u8>, Option<Seq<u8>>) {
    match hash_from(s, 0) {
        Some(i) => (s.subrange(0, i), Some(s.subrange(i + 1, s.len() as int))),
        None => (s, None),
    }
}

/// An ASCII byte in front is a character of its own.
proof fn one_byte_is_a_character(s: Seq<u8>)
    requires
        valid_utf8(s),
        s.len() > 0,
        s[0] < 128,
    ensures
        is_char_boundary(s, 1),
{
    reveal_with_fuel(is_char_boundary, 2);
    let b = s[0];
    assert(is_leading_byte_width_1(b));
}

/// The path in front of the first `#`, and the fragment behind it if there is
/// a `#`.
#[must_use]
pub fn split_fragment(spec: &str) -> (r: (&str, Option<&str>))
    ensures
        r.0.spec_bytes() == fragment_split(spec.spec_bytes()).0,
        match fragment_split(spec.spec_bytes()).1 {
            Some(f) => r.1 is Some && r.1->0.spec_bytes() == f,
            None => r.1 is None,
        },
{
    let s: &[u8] = spec.as_bytes();
    let mut i: usize = 0;
    while i < s.len()
        invariant
            i <= s@.len(),
            s@ == spec.spec_bytes(),
            hash_from(s@, i as int) == hash_from(s@, 0),
        decreases s@.len() - i,
    {
        if s[i] == HASH {
            proof {
                broadcast use encode_utf8_valid_utf8;

                is_char_boundary_iff_not_is_continuation_byte(s@, i as int);
                assert(!is_continuation_byte(HASH)) by {
                    assert(!(128 <= HASH < 192));
                }
            }
            let (path, rest) = spec.split_at(i);
            proof {
                broadcast use encode_utf8_valid_utf8;

                assert(rest.spec_bytes()[0] == HASH);
                one_byte_is_a_character(rest.spec_bytes());
            }
            let (_, fragment) = rest.split_at(1);
            assert(fragment.spec_bytes() =~= s@.subrange(i + 1, s@.len() as int));
            return (path, Some(fragment));
        }
        i += 1;
    }
    (spec, None)
}

/// The first `#` is where it is found, and none stands in front of it.
pub proof fn first_hash(s: Seq<u8>, i: int)
    requires
        0 <= i <= s.len(),
    ensures
        match hash_from(s, i) {
            Some(k) => i <= k < s.len() && s[k] == HASH && forall|j: int|
                i <= j < k ==> #[trigger] s[j] != HASH,
            None => forall|j: int| i <= j < s.len() ==> #[trigger] s[j] != HASH,
        },
    decreases s.len() - i,
{
    if i < s.len() && s[i] != HASH {
        first_hash(s, i + 1);
    }
}

/// A path never holds a `#`, and path and fragment, joined by one, are what
/// was split.
pub proof fn path_and_fragment_join(s: Seq<u8>)
    ensures
        !fragment_split(s).0.contains(HASH),
        fragment_split(s).1 is None <==> !s.contains(HASH),
        match fragment_split(s).1 {
            Some(f) => fragment_split(s).0.push(HASH) + f == s,
            None => fragment_split(s).0 == s,
        },
{
    first_hash(s, 0);
    match hash_from(s, 0) {
        Some(i) => {
            assert(s.subrange(0, i).push(HASH) + s.subrange(i + 1, s.len() as int) =~= s);
            assert(s.contains(HASH)) by {
                assert(s[i] == HASH);
            }
            assert forall|j: int| 0 <= j < i implies #[trigger] s.subrange(0, i)[j] != HASH by {
                assert(s[j] != HASH);
            }
        },
        None => {},
    }
}

/// The first slash is where it is found, and none stands in front of it.
pub proof fn first_slash(s: Seq<u8>, i: int)
    ensures
        i <= s.len() ==> i <= slash_from(s, i) <= s.len(),
        slash_from(s, i) >= i,
        slash_from(s, i) < s.len() ==> s[slash_from(s, i)] == SLASH,
        forall|j: int| i <= j < slash_from(s, i) ==> #[trigger] s[j] != SLASH,
    decreases s.len() - i,
{
    if i < s.len() && s[i] != SLASH {
        first_slash(s, i + 1);
    }
}

/// The components of a path from offset `i` on: what stands between slashes,
/// without what is empty and without `.`.
pub open spec fn components(s: Seq<u8>, i: int) -> Seq<Seq<u8>>
    decreases s.len() + 1 - i,
{
    if i >= s.len() {
        Seq::empty()
    } else {
        proof {
            first_slash(s, i);
        }
        let j = slash_from(s, i);
        let part = s.subrange(i, j);
        let rest = components(s, j + 1);
        if part.len() == 0 || part == ".".spec_bytes() {
            rest
        } else {
            seq![part] + rest
        }
    }
}

/// Where the first slash stands at or behind `i`, or the end.
pub open spec fn slash_from(s: Seq<u8>, i: int) -> int
    decreases s.len() - i,
{
    if i >= s.len() || s[i] == SLASH {
        i
    } else {
        slash_from(s, i + 1)
    }
}

/// The directories that components lead down from `above`, each `..` one
/// level up; `None` where that would leave the root.
pub open spec fn descent(above: Seq<Seq<u8>>, parts: Seq<Seq<u8>>) -> Option<Seq<Seq<u8>>>
    decreases parts.len(),
{
    if parts.len() == 0 {
        Some(above)
    } else if parts[0] == "..".spec_bytes() {
        if above.len() == 0 {
            None
        } else {
            descent(above.drop_last(), parts.drop_first())
        }
    } else {
        descent(above.push(parts[0]), parts.drop_first())
    }
}

/// What a path leads to, component by component from the root down, or why it
/// leads nowhere.
pub open spec fn normal_path(s: Seq<u8>) -> Result<Seq<Seq<u8>>, &'static str> {
    if s.len() > 0 && s[0] == SLASH {
        Err("must be relative to the root")
    } else {
        match descent(Seq::empty(), components(s, 0)) {
            Some(parts) => Ok(parts),
            None => Err("escapes sandbox root"),
        }
    }
}

/// Whether a component names something in the directory it is looked up in.
pub open spec fn plain_name(part: Seq<u8>) -> bool {
    part.len() > 0 && part != ".".spec_bytes() && part != "..".spec_bytes() && !part.contains(
        SLASH,
    )
}

/// Components are not empty, not `.`, and hold no slash.
proof fn components_are_between_slashes(s: Seq<u8>, i: int)
    requires
        0 <= i,
    ensures
        forall|k: int|
            0 <= k < components(s, i).len() ==> (#[trigger] components(s, i)[k]).len() > 0
                && components(s, i)[k] != ".".spec_bytes() && !components(s, i)[k].contains(SLASH),
    decreases s.len() + 1 - i,
{
    if i < s.len() {
        first_slash(s, i);
        let j = slash_from(s, i);
        let part = s.subrange(i, j);
        let rest = components(s, j + 1);
        components_are_between_slashes(s, j + 1);
        assert forall|k: int| 0 <= k < part.len() implies #[trigger] part[k] != SLASH by {
            assert(s[i + k] != SLASH);
        }
        assert forall|k: int| 0 <= k < components(s, i).len() implies (#[trigger] components(
            s,
            i,
        )[k]).len() > 0 && components(s, i)[k] != ".".spec_bytes() && !components(s, i)[k].contains(
            SLASH,
        ) by {
            if components(s, i) == rest {
                assert(rest[k].len() > 0);
            } else if k > 0 {
                assert(components(s, i)[k] == rest[k - 1]);
            }
        }
    }
}

/// A descent from plain names along components leads to plain names.
proof fn descents_keep_plain_names(above: Seq<Seq<u8>>, parts: Seq<Seq<u8>>)
    requires
        forall|k: int| 0 <= k < above.len() ==> plain_name(#[trigger] above[k]),
        forall|k: int|
            0 <= k < parts.len() ==> (#[trigger] parts[k]).len() > 0 && parts[k]
                != ".".spec_bytes() && !parts[k].contains(SLASH),
    ensures
        descent(above, parts) matches Some(p) ==> forall|k: int|
            0 <= k < p.len() ==> plain_name(#[trigger] p[k]),
    decreases parts.len(),
{
    if parts.len() > 0 {
        let head = parts[0];
        assert(head.len() > 0);
        if head == "..".spec_bytes() {
            if above.len() > 0 {
                descents_keep_plain_names(above.drop_last(), parts.drop_first());
            }
        } else {
            assert(plain_name(head));
            descents_keep_plain_names(above.push(head), parts.drop_first());
        }
    }
}

/// What a path leads to lies below the root: going down it, every step is
/// into something that the directory holds, and none leads up or aside.
pub proof fn normal_paths_stay_below_the_root(s: Seq<u8>)
    ensures
        normal_path(s) matches Ok(parts) ==> forall|k: int|
            0 <= k < parts.len() ==> plain_name(#[trigger] parts[k]),
{
    components_are_between_slashes(s, 0);
    descents_keep_plain_names(Seq::empty(), components(s, 0));
}

/// The bytes of a list of strings.
pub open spec fn spelled(parts: Seq<&str>) -> Seq<Seq<u8>> {
    Seq::new(parts.len(), |i: int| parts[i].spec_bytes())
}

/// What a path leads to, component by component from the root down. A path
/// that starts at the root of the file system, or leads out of the root it is
/// relative to, is refused.
pub fn normalize_relative_path(path: &str) -> (r: Result<Vec<&str>, &'static str>)
    ensures
        match normal_path(path.spec_bytes()) {
            Ok(parts) => r is Ok && spelled(r->Ok_0@) == parts,
            Err(why) => r is Err && r->Err_0 == why,
        },
{
    let s: &[u8] = path.as_bytes();
    if s.len() > 0 && s[0] == SLASH {
        return Err("must be relative to the root");
    }
    let mut parts: Vec<&str> = Vec::new();
    let mut rest: &str = path;
    let ghost whole = path.spec_bytes();
    let ghost mut at: int = 0;
    assert(spelled(parts@) =~= Seq::empty());
    assert(whole.subrange(0, whole.len() as int) =~= whole);
    loop
        invariant
            0 <= at <= whole.len() + 1,
            at <= whole.len() ==> rest.spec_bytes() == whole.subrange(at, whole.len() as int),
            at > whole.len() ==> rest.spec_bytes().len() == 0,
            descent(Seq::empty(), components(whole, 0)) == descent(
                spelled(parts@),
                components(whole, at),
            ),
            normal_path(whole) == match descent(Seq::empty(), components(whole, 0)) {
                Some(parts) => Ok::<Seq<Seq<u8>>, &'static str>(parts),
                None => Err("escapes sandbox root"),
            },
            whole == path.spec_bytes(),
        decreases whole.len() + 1 - at,
    {
        let b: &[u8] = rest.as_bytes();
        if b.len() == 0 {
            return Ok(parts);
        }
        let mut j: usize = 0;
        while j < b.len() && b[j] != SLASH
            invariant
                j <= b@.len(),
                0 <= at <= whole.len(),
                b@ == whole.subrange(at, whole.len() as int),
                slash_from(whole, at + j) == slash_from(whole, at),
            decreases b@.len() - j,
        {
            j += 1;
        }
        proof {
            broadcast use encode_utf8_valid_utf8;

            assert(slash_from(whole, at) == at + j);
            is_char_boundary_start_end_of_seq(b@);
            if j < b@.len() {
                is_char_boundary_iff_not_is_continuation_byte(b@, j as int);
                assert(!is_continuation_byte(SLASH));
            }
        }
        let n: usize = b.len();
        let (part, behind) = rest.split_at(j);
        assert(part.spec_bytes() =~= whole.subrange(at, at + j));
        proof {
            at = at + j + 1;
        }
        if j < n {
            proof {
                broadcast use encode_utf8_valid_utf8;

                one_byte_is_a_character(behind.spec_bytes());
            }
            rest = behind.split_at(1).1;
            assert(rest.spec_bytes() =~= whole.subrange(at, whole.len() as int));
        } else {
            rest = behind;
        }
        let ghost tail = components(whole, at);
        let ghost before = spelled(parts@);
        if j != 0 && !is_word(part.as_bytes(), ".") {
            assert((seq![part.spec_bytes()] + tail).drop_first() =~= tail);
            if is_word(part.as_bytes(), "..") {
                if parts.len() == 0 {
                    return Err("escapes sandbox root");
                }
                parts.pop();
                assert(spelled(parts@) =~= before.drop_last());
            } else {
                parts.push(part);
                assert(spelled(parts@) =~= before.push(part.spec_bytes()));
            }
        }
    }
}

} // verus!
