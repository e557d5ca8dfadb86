//! Paths of a file tree: names joined by slashes.
use vstd::prelude::*;

verus! {

/// The position of the first slash of `s`, or its length.
pub open spec fn first_slash(s: Seq<char>) -> nat
    decreases s.len(),
{
    if s.len() == 0 || s[0] == '/' {
        0
    } else {
        1 + first_slash(s.skip(1))
    }
}

/// The names of a path: what is between its slashes, where that is not empty.
pub open spec fn parts(s: Seq<char>) -> Seq<Seq<char>>
    decreases s.len(),
    when true
    via parts_decreases
{
    if s.len() == 0 {
        Seq::empty()
    } else if s[0] == '/' {
        parts(s.skip(1))
    } else {
        let k = first_slash(s) as int;
        seq![s.take(k)] + parts(s.skip(k))
    }
}

#[via_fn]
proof fn parts_decreases(s: Seq<char>) {
    if s.len() > 0 && s[0] != '/' {
        lemma_first_slash(s);
    }
}

/// What `first_slash` is.
pub proof fn lemma_first_slash(s: Seq<char>)
    ensures
        first_slash(s) <= s.len(),
        s.len() > 0 && s[0] != '/' ==> first_slash(s) > 0,
        forall|i: int| 0 <= i < first_slash(s) ==> (#[trigger] s[i]) != '/',
        first_slash(s) < s.len() ==> s[first_slash(s) as int] == '/',
    decreases s.len(),
{
    if s.len() > 0 && s[0] != '/' {
        let t = s.skip(1);
        lemma_first_slash(t);
        assert forall|i: int| 0 <= i < first_slash(s) implies (#[trigger] s[i]) != '/' by {
            if i > 0 {
                assert(s[i] == t[i - 1]);
            }
        }
    }
}

/// A name that a path can hold: not empty, and without a slash.
pub open spec fn is_name(name: Seq<char>) -> bool {
    &&& name.len() > 0
    &&& forall|i: int| 0 <= i < name.len() ==> (#[trigger] name[i]) != '/'
}

/// The path of the entry `name` of the directory `dir`.
pub open spec fn join(dir: Seq<char>, name: Seq<char>) -> Seq<char> {
    if dir == seq!['/'] {
        seq!['/'] + name
    } else {
        dir + seq!['/'] + name
    }
}

/// A name is one part of its own.
proof fn lemma_parts_name(name: Seq<char>)
    requires
        is_name(name),
    ensures
        parts(name) == seq![name],
{
    lemma_first_slash(name);
    let k = first_slash(name) as int;
    if k < name.len() {
        assert(name[k] != '/');
    }
    assert(name.take(k) =~= name);
    assert(name.skip(k) =~= Seq::<char>::empty());
    assert(parts(name.skip(k)) == Seq::<Seq<char>>::empty());
    assert(parts(name) =~= seq![name]);
}

/// The part before a slash does not depend on what follows the slash.
proof fn lemma_first_slash_append(s: Seq<char>, t: Seq<char>)
    requires
        t.len() > 0,
        t[0] == '/',
    ensures
        first_slash(s + t) == first_slash(s),
    decreases s.len(),
{
    if s.len() == 0 {
        assert(s + t =~= t);
    } else if s[0] != '/' {
        lemma_first_slash_append(s.skip(1), t);
        assert((s + t).skip(1) =~= s.skip(1) + t);
    }
}

/// A slash and a name after a path add one part.
pub proof fn lemma_parts_append(s: Seq<char>, name: Seq<char>)
    requires
        is_name(name),
    ensures
        parts(s + seq!['/'] + name) == parts(s).push(name),
    decreases s.len(),
{
    let tail = seq!['/'] + name;
    let whole = s + seq!['/'] + name;
    assert(whole =~= s + tail);
    if s.len() == 0 {
        assert(whole =~= tail);
        assert(tail.skip(1) =~= name);
        lemma_parts_name(name);
        assert(parts(s).push(name) =~= seq![name]);
    } else if s[0] == '/' {
        assert(whole.skip(1) =~= s.skip(1) + seq!['/'] + name);
        lemma_parts_append(s.skip(1), name);
    } else {
        lemma_first_slash(s);
        lemma_first_slash_append(s, tail);
        let k = first_slash(s) as int;
        assert(whole[0] == s[0]);
        assert(whole.take(k) =~= s.take(k));
        assert(whole.skip(k) =~= s.skip(k) + seq!['/'] + name);
        lemma_parts_append(s.skip(k), name);
        assert(parts(whole) =~= parts(s).push(name));
    }
}

/// The parts of an entry's path are its directory's and its name.
pub proof fn lemma_parts_join(dir: Seq<char>, name: Seq<char>)
    requires
        is_name(name),
    ensures
        parts(join(dir, name)) == parts(dir).push(name),
{
    if dir == seq!['/'] {
        let empty = Seq::<char>::empty();
        assert(join(dir, name) =~= empty + seq!['/'] + name);
        lemma_parts_append(empty, name);
        assert(dir.skip(1) =~= empty);
        assert(parts(dir) == parts(empty));
    } else {
        lemma_parts_append(dir, name);
    }
}

/// The path of the entry `name` of the directory `dir`.
pub fn join_path(dir: &str, name: &String) -> (r: String)
    ensures
        r@ == join(dir@, name@),
{
    proof {
        reveal_strlit("/");
        assert("/"@ =~= seq!['/']);
    }
    let root = dir.unicode_len() == 1 && dir.get_char(0) == '/';
    assert(root == (dir@ =~= seq!['/']));
    let mut r = if root {
        String::new()
    } else {
        dir.to_owned()
    };
    r.append("/");
    r.append(name.as_str());
    assert(r@ =~= join(dir@, name@));
    r
}

} // verus!
