//! Where relative paths lead.
use crate::inclusion::{components, descent, first_slash, normal_path, plain_name, slash_from};
use crate::text::SLASH;
use vstd::prelude::*;
use vstd::string::*;

verus! {

proof fn slashes_are_found(s: Seq<u8>, i: int, e: int)
    requires
        0 <= i <= e <= s.len(),
        forall|k: int| i <= k < e ==> #[trigger] s[k] != SLASH,
        e < s.len() ==> s[e] == SLASH,
    ensures
        slash_from(s, i) == e,
    decreases e - i,
{
    first_slash(s, i);
    if i < e {
        assert(s[i] != SLASH);
        slashes_are_found(s, i + 1, e);
    }
}

/// One path behind another, with a slash between them.
pub open spec fn behind(a: Seq<u8>, b: Seq<u8>) -> Seq<u8> {
    a.push(SLASH) + b
}

proof fn later_components(a: Seq<u8>, b: Seq<u8>, k: int)
    requires
        0 <= k,
    ensures
        components(behind(a, b), a.len() + 1 + k) == components(b, k),
    decreases b.len() + 1 - k,
{
    let s = behind(a, b);
    let i = a.len() + 1 + k;
    if k < b.len() {
        first_slash(b, k);
        first_slash(s, i);
        let j = slash_from(b, k);
        let e = a.len() + 1 + j;
        assert forall|x: int| i <= x < e implies #[trigger] s[x] != SLASH by {
            assert(s[x] == b[x - a.len() - 1]);
        }
        if j < b.len() {
            assert(s[e] == b[j]);
        }
        slashes_are_found(s, i, e);
        assert(s.subrange(i, e) =~= b.subrange(k, j));
        later_components(a, b, j + 1);
    }
}

proof fn components_follow(a: Seq<u8>, b: Seq<u8>, i: int)
    requires
        0 <= i <= a.len() + 1,
    ensures
        components(behind(a, b), i) == components(a, i) + components(b, 0),
    decreases a.len() + 1 - i,
{
    let s = behind(a, b);
    let n = a.len() as int;
    if i == n + 1 {
        later_components(a, b, 0);
        assert(components(a, i) + components(b, 0) =~= components(b, 0));
    } else {
        first_slash(s, i);
        if i < n {
            first_slash(a, i);
        }
        let j = if i < n {
            slash_from(a, i)
        } else {
            n
        };
        assert forall|x: int| i <= x < j implies #[trigger] s[x] != SLASH by {
            assert(s[x] == a[x]);
        }
        if j < n {
            assert(s[j] == a[j]);
        } else {
            assert(s[j] == SLASH);
        }
        slashes_are_found(s, i, j);
        components_follow(a, b, j + 1);
        let part = s.subrange(i, j);
        assert(part =~= a.subrange(i, j));
        if i < n {
            assert(components(s, i) =~= components(a, i) + components(b, 0));
        } else {
            assert(part.len() == 0);
            assert(components(a, n) =~= Seq::empty());
            assert(components(a, n + 1) =~= Seq::empty());
            assert(components(s, i) == components(s, j + 1));
        }
    }
}

proof fn descents_go_on(above: Seq<Seq<u8>>, x: Seq<Seq<u8>>, y: Seq<Seq<u8>>)
    ensures
        descent(above, x + y) == match descent(above, x) {
            Some(z) => descent(z, y),
            None => None,
        },
    decreases x.len(),
{
    let all = x + y;
    if x.len() == 0 {
        assert(all =~= y);
    } else {
        assert(all[0] == x[0]);
        assert(all.drop_first() =~= x.drop_first() + y);
        if x[0] == "..".spec_bytes() {
            if above.len() > 0 {
                descents_go_on(above.drop_last(), x.drop_first(), y);
            }
        } else {
            descents_go_on(above.push(x[0]), x.drop_first(), y);
        }
    }
}

proof fn one_component(name: Seq<u8>)
    requires
        name.len() > 0,
        !name.contains(SLASH),
    ensures
        components(name, 0) == if name == ".".spec_bytes() {
            Seq::<Seq<u8>>::empty()
        } else {
            seq![name]
        },
{
    let n = name.len() as int;
    assert forall|k: int| 0 <= k < n implies #[trigger] name[k] != SLASH by {
        assert(name.contains(name[k]));
    }
    first_slash(name, 0);
    slashes_are_found(name, 0, n);
    assert(name.subrange(0, n) =~= name);
    assert(components(name, n + 1) =~= Seq::empty());
    assert(seq![name] + Seq::<Seq<u8>>::empty() =~= seq![name]);
}

proof fn dots_hold_no_slash()
    ensures
        ".".spec_bytes().len() > 0,
        !".".spec_bytes().contains(SLASH),
        "..".spec_bytes().len() > 0,
        !"..".spec_bytes().contains(SLASH),
        ".".spec_bytes() != "..".spec_bytes(),
{
    reveal_strlit(".");
    reveal_strlit("..");
    assert(vstd::utf8::is_ascii_chars("."@));
    assert(vstd::utf8::is_ascii_chars(".."@));
    vstd::utf8::is_ascii_chars_encode_utf8("."@);
    vstd::utf8::is_ascii_chars_encode_utf8(".."@);
    assert("."@[0] as u8 == 46);
    assert(".."@[0] as u8 == 46);
    assert(".."@[1] as u8 == 46);
}

/// A path leads one step further for every name behind it, one step back for every
/// `..`, out of the root if there is none to take back, and nowhere else for a
/// `.`.
pub proof fn paths_lead_step_by_step(a: Seq<u8>, name: Seq<u8>)
    requires
        a.len() > 0,
    ensures
        normal_path(a) is Err ==> normal_path(behind(a, name)) is Err,
        normal_path(a) matches Ok(parts) ==> {
            &&& plain_name(name) ==> normal_path(behind(a, name)) == Ok::<Seq<Seq<u8>>, &'static str>(
                parts.push(name),
            )
            &&& name == ".".spec_bytes() ==> normal_path(behind(a, name)) == normal_path(a)
            &&& name == "..".spec_bytes() && parts.len() > 0 ==> normal_path(behind(a, name)) == Ok::<
                Seq<Seq<u8>>,
                &'static str,
            >(parts.drop_last())
            &&& name == "..".spec_bytes() && parts.len() == 0 ==> normal_path(behind(a, name)) is Err
        },
{
    let s = behind(a, name);
    let none = Seq::<Seq<u8>>::empty();
    assert(s[0] == a[0]);
    components_follow(a, name, 0);
    descents_go_on(none, components(a, 0), components(name, 0));
    dots_hold_no_slash();
    if plain_name(name) || name == ".".spec_bytes() || name == "..".spec_bytes() {
        one_component(name);
    }
    if let Ok(parts) = normal_path(a) {
        assert(seq![name].drop_first() =~= none);
        assert(seq![name][0] == name);
        assert(descent(parts.push(name), none) == Some(parts.push(name)));
        assert(descent(parts.drop_last(), none) == Some(parts.drop_last()));
        assert(descent(parts, none) == Some(parts));
    }
}

/// A path of one name leads to what the root holds under it. Only a path that
/// starts with a slash is refused for how it starts.
pub proof fn names_lead_below_the_root(name: Seq<u8>)
    ensures
        plain_name(name) ==> normal_path(name) == Ok::<Seq<Seq<u8>>, &'static str>(seq![name]),
        name.len() > 0 && name[0] == SLASH ==> normal_path(name) is Err,
{
    let none = Seq::<Seq<u8>>::empty();
    if plain_name(name) {
        one_component(name);
        assert(name.contains(name[0]));
        assert(seq![name].drop_first() =~= none);
        assert(seq![name][0] == name);
        assert(none.push(name) =~= seq![name]);
        assert(descent(none.push(name), none) == Some(none.push(name)));
    }
}

} // verus!
