//! Paths as text, with `/` between their parts.
use crate::text;
use vstd::prelude::*;

verus! {

/// A name below a directory. An absolute name stands for itself.
pub open spec fn joined(dir: Seq<char>, name: Seq<char>) -> Seq<char> {
    if dir.len() == 0 || (name.len() > 0 && name[0] == '/') {
        name
    } else if dir.last() == '/' {
        dir + name
    } else {
        dir + "/"@ + name
    }
}

/// Joins a directory and a name.
pub fn join(dir: &str, name: &str) -> (r: String)
    ensures
        r@ == joined(dir@, name@),
{
    let mut out = text::chars_of(dir);
    let below = text::chars_of(name);
    if out.len() == 0 || (below.len() > 0 && below[0] == '/') {
        return text::owned(name);
    }
    if out[out.len() - 1] != '/' {
        text::push_str(&mut out, "/");
    }
    text::push_all(&mut out, &below);
    text::string_of(&out)
}

/// A name below a directory stands behind it and one slash, whether the directory ends in one or
/// not; a name that begins at the root stands for itself, and so does one below no directory.
pub proof fn law_joined(dir: Seq<char>, name: Seq<char>)
    requires
        dir.len() == 0 || dir.last() != '/',
        name.len() == 0 || name[0] != '/',
    ensures
        dir.len() > 0 ==> joined(dir, name) == dir + "/"@ + name,
        joined(dir + "/"@, name) == dir + "/"@ + name,
        joined(dir, "/"@ + name) == "/"@ + name,
        joined(Seq::empty(), name) == name,
{
    reveal_strlit("/");
}

} // verus!
