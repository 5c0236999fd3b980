//! The roots of worktrees: paths as the file system names them.
use vstd::prelude::*;
use vstd::string::*;

use crate::rel_path::segments;
use crate::rel_path::split;
use crate::rel_path::unix_text;
use crate::rel_path::RelPath;

verus! {

/// What the parts of a path name: empty parts name nothing, and neither does `.`, except where it
/// comes first.
pub open spec fn naming_parts(parts: Seq<Seq<char>>) -> Seq<Seq<char>>
    decreases parts.len(),
{
    if parts.len() == 0 {
        Seq::empty()
    } else {
        let before = naming_parts(parts.drop_last());
        let part = parts.last();
        if part.len() == 0 || (part == seq!['.'] && parts.len() > 1) {
            before
        } else {
            before.push(part)
        }
    }
}

/// The path starts at the root of the file system.
pub open spec fn is_rooted(path: Seq<char>) -> bool {
    path.len() > 0 && path[0] == '/'
}

/// Two texts name one path, component by component: separators that are repeated or come last do
/// not count.
pub open spec fn same_root(a: Seq<char>, b: Seq<char>) -> bool {
    &&& is_rooted(a) == is_rooted(b)
    &&& naming_parts(segments(a)) == naming_parts(segments(b))
}

/// The texts behind a list of strings.
spec fn texts_of(parts: Seq<String>) -> Seq<Seq<char>> {
    parts.map_values(|p: String| p@)
}

fn components(path: &str) -> (names: Vec<String>)
    ensures
        texts_of(names@) == naming_parts(segments(path@)),
{
    let parts = split(path);
    let ghost all = texts_of(parts@);
    let mut names: Vec<String> = Vec::new();
    let mut i: usize = 0;
    assert(texts_of(names@) =~= naming_parts(all.take(0)));
    while i < parts.len()
        invariant
            i <= parts@.len(),
            all == texts_of(parts@),
            texts_of(names@) == naming_parts(all.take(i as int)),
        decreases parts@.len() - i,
    {
        let part = parts[i].as_str();
        assert(all.take(i + 1).drop_last() =~= all.take(i as int));
        assert(all.take(i + 1).last() == part@);
        let length: usize = part.unicode_len();
        let is_dot: bool = length == 1 && part.get_char(0) == '.';
        assert(is_dot <==> part@ =~= seq!['.']);
        if length > 0 && !(is_dot && i > 0) {
            let ghost was = texts_of(names@);
            names.push(parts[i].clone());
            assert(texts_of(names@) =~= was.push(part@));
        }
        i = i + 1;
    }
    assert(all.take(i as int) =~= all);
    names
}

fn starts_at_root(path: &str) -> (yes: bool)
    ensures
        yes == is_rooted(path@),
{
    path.unicode_len() > 0 && path.get_char(0) == '/'
}

/// Whether two texts name one path.
pub fn is_same_root(a: &str, b: &str) -> (yes: bool)
    ensures
        yes == same_root(a@, b@),
{
    if starts_at_root(a) != starts_at_root(b) {
        return false;
    }
    let of_a = components(a);
    let of_b = components(b);
    if of_a.len() != of_b.len() {
        assert(texts_of(of_a@).len() != texts_of(of_b@).len());
        return false;
    }
    let mut i: usize = 0;
    while i < of_a.len()
        invariant
            i <= of_a@.len() == of_b@.len(),
            texts_of(of_a@) == naming_parts(segments(a@)),
            texts_of(of_b@) == naming_parts(segments(b@)),
            forall|j: int| 0 <= j < i ==> #[trigger] of_a@[j]@ == of_b@[j]@,
        decreases of_a@.len() - i,
    {
        if of_a[i] != of_b[i] {
            assert(texts_of(of_a@)[i as int] != texts_of(of_b@)[i as int]);
            return false;
        }
        i = i + 1;
    }
    assert(texts_of(of_a@) =~= texts_of(of_b@));
    true
}

/// Where the file system has a path of the worktree with this root. A root that ends with a
/// separator gets no other one.
pub open spec fn joined(root: Seq<char>, path: Seq<Seq<char>>) -> Seq<char> {
    if root.len() == 0 || root.last() == '/' {
        root + unix_text(path)
    } else {
        root + seq!['/'] + unix_text(path)
    }
}

/// Where the file system has a path of the worktree with this root.
pub fn join(root: &String, path: &RelPath) -> (location: String)
    ensures
        location@ == joined(root@, path@),
{
    let length: usize = root.as_str().unicode_len();
    let mut location: String = root.clone();
    if length > 0 && root.as_str().get_char(length - 1) != '/' {
        proof {
            reveal_strlit("/");
        }
        location.append("/");
        assert(location@ =~= root@ + seq!['/']);
    }
    let text = path.as_unix_str();
    location.append(text.as_str());
    location
}

} // verus!
