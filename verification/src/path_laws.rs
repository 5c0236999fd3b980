//! What the operations on paths, roots and texts give, component by component.
use vstd::prelude::*;
use vstd::utf8::encode_utf8;

use crate::order::byte_lt;
use crate::order::lex_at;
use crate::order::text_before;
use crate::order::OrderedKey;
use crate::order::Rank;
use crate::rel_path::ancestor;
use crate::rel_path::law_unix_text_round_trip;
use crate::rel_path::lemma_segments_of_unix_text;
use crate::rel_path::path_before;
use crate::rel_path::segments;
use crate::rel_path::unix_text;
use crate::rel_path::valid_component;
use crate::rel_path::InvalidPath;
use crate::rel_path::RelPath;
use crate::root::is_rooted;
use crate::root::is_same_root;
use crate::root::join;
use crate::root::naming_parts;
use crate::root::same_root;

verus! {

/// A path starts with another one exactly where its first components are the components of that
/// one.
pub proof fn law_paths_start_with_what_is_above(path: &RelPath, prefix: &RelPath, yes: bool)
    requires
        call_ensures(RelPath::starts_with, (path, prefix), yes),
    ensures
        yes <==> prefix@.len() <= path@.len() && forall|k: int|
            0 <= k < prefix@.len() ==> #[trigger] path@[k] == prefix@[k],
{
    if prefix@.len() <= path@.len() {
        let first = path@.take(prefix@.len() as int);
        if first == prefix@ {
            assert forall|k: int| 0 <= k < prefix@.len() implies #[trigger] path@[k]
                == prefix@[k] by {
                assert(first[k] == path@[k]);
            }
        }
        if forall|k: int| 0 <= k < prefix@.len() ==> #[trigger] path@[k] == prefix@[k] {
            assert(first =~= prefix@);
        }
    }
}

/// So many levels above a path is what is left when so many components are dropped at its end. A
/// path has as many levels above it as components.
pub proof fn law_ancestors_drop_components(path: &RelPath, up: usize, above: Option<RelPath>)
    requires
        call_ensures(RelPath::ancestor, (path, up), above),
    ensures
        above is Some <==> up <= path@.len(),
        above matches Some(a) ==> a@.len() + up == path@.len() && forall|k: int|
            0 <= k < a@.len() ==> #[trigger] a@[k] == path@[k],
{
}

/// The paths at and above a path are listed from the path itself to the root, each with one
/// component less than the one before.
pub proof fn law_ancestors_lead_to_the_root(path: &RelPath, paths: Vec<RelPath>)
    requires
        call_ensures(RelPath::ancestors, (path,), paths),
    ensures
        paths@.len() == path@.len() + 1,
        paths@[0]@ == path@,
        paths@.last()@.len() == 0,
        forall|k: int| 0 <= k < path@.len() ==> paths@[k + 1]@ == (#[trigger] paths@[k])@.drop_last(),
{
    assert(ancestor(path@, 0) == Some(paths@[0]@));
    assert(path@.take(path@.len() as int) =~= path@);
    assert(ancestor(path@, path@.len()) == Some(paths@[path@.len() as int]@));
    assert forall|k: int| 0 <= k < path@.len() implies paths@[k + 1]@ == (
    #[trigger] paths@[k])@.drop_last() by {
        assert(ancestor(path@, (k + 1) as nat) == Some(paths@[k + 1]@));
        assert(path@.take(path@.len() - k - 1) =~= path@.take(path@.len() - k).drop_last());
    }
}

/// A path is its directory with its name at the end. Only the root has neither.
pub proof fn law_path_is_directory_and_name(
    path: &RelPath,
    dir: Option<RelPath>,
    name: Option<&String>,
    root: bool,
    count: usize,
)
    requires
        call_ensures(RelPath::parent, (path,), dir),
        call_ensures(RelPath::file_name, (path,), name),
        call_ensures(RelPath::is_empty, (path,), root),
        call_ensures(RelPath::component_count, (path,), count),
    ensures
        dir is Some == name is Some,
        root == (dir is None),
        count == path@.len(),
        root == (count == 0),
        dir is Some ==> path@ == dir->0@.push((*name->0)@),
{
    if dir is Some {
        assert(path@ =~= path@.drop_last().push(path@.last()));
    }
}

/// A path that is put below another one starts with it, and continues as it does itself.
pub proof fn law_joined_paths_continue(
    path: &RelPath,
    rest: &RelPath,
    whole: &RelPath,
    starts: bool,
    same: bool,
)
    requires
        call_ensures(RelPath::join, (path, rest), *whole),
        call_ensures(RelPath::starts_with, (whole, path), starts),
        call_ensures(RelPath::same, (path, whole), same),
    ensures
        starts,
        whole@.len() == path@.len() + rest@.len(),
        forall|k: int| 0 <= k < rest@.len() ==> whole@[path@.len() + k] == #[trigger] rest@[k],
        same == (rest@.len() == 0),
{
    assert(whole@.take(path@.len() as int) =~= path@);
    if rest@.len() == 0 {
        assert(whole@ =~= path@);
    }
}

/// The text of a path is that of its directory, a separator and its name. The root has no text,
/// and a path directly below it has its name as its text.
pub proof fn law_text_of_a_path(
    path: &RelPath,
    dir: &RelPath,
    name: &String,
    text: String,
    dir_text: String,
)
    requires
        call_ensures(RelPath::parent, (path,), Some(*dir)),
        call_ensures(RelPath::file_name, (path,), Some(name)),
        call_ensures(RelPath::as_unix_str, (path,), text),
        call_ensures(RelPath::as_unix_str, (dir,), dir_text),
    ensures
        dir@.len() > 0 ==> text@ == dir_text@ + seq!['/'] + name@,
        dir@.len() == 0 ==> text@ == name@ && dir_text@.len() == 0,
{
    if dir@.len() > 0 {
        assert(unix_text(dir@).push('/') =~= unix_text(dir@) + seq!['/']);
    }
}

/// A text is read as the path whose text it is: one whose components are not empty, neither `.`
/// nor `..`, and hold no separator. Other texts are refused.
pub proof fn law_texts_are_read_as_paths(
    text: &str,
    read: Result<RelPath, InvalidPath>,
    path: &RelPath,
    written: String,
    again: Result<RelPath, InvalidPath>,
    written_text: &str,
)
    requires
        call_ensures(RelPath::from_unix_str, (text,), read),
        call_ensures(RelPath::as_unix_str, (path,), written),
        written_text@ == written@,
        call_ensures(RelPath::from_unix_str, (written_text,), again),
    ensures
        read matches Ok(p) ==> unix_text(p@) == text@ && forall|k: int|
            0 <= k < p@.len() ==> {
                let name = #[trigger] p@[k];
                name.len() > 0 && name != seq!['.'] && name != seq!['.', '.'] && forall|i: int|
                    0 <= i < name.len() ==> #[trigger] name[i] != '/'
            },
        again matches Ok(p) && p@ == path@,
{
    law_unix_text_round_trip(path@, text@);
    if read is Ok {
        let p = read->Ok_0@;
        assert forall|k: int| 0 <= k < p.len() implies {
            let name = #[trigger] p[k];
            name.len() > 0 && name != seq!['.'] && name != seq!['.', '.'] && forall|i: int|
                0 <= i < name.len() ==> #[trigger] name[i] != '/'
        } by {
            let name = p[k];
            assert(valid_component(name));
            assert forall|i: int| 0 <= i < name.len() implies #[trigger] name[i] != '/' by {
                assert(name.contains(name[i]) || name[i] != '/');
            }
        }
    }
}

/// Every list of components that are not empty, neither `.` nor `..`, and hold no separator is the
/// path that its text is read as.
pub proof fn law_every_list_of_names_is_a_path(
    path: Seq<Seq<char>>,
    text: &str,
    read: Result<RelPath, InvalidPath>,
)
    requires
        forall|k: int|
            0 <= k < path.len() ==> {
                let name = #[trigger] path[k];
                name.len() > 0 && name != seq!['.'] && name != seq!['.', '.'] && forall|i: int|
                    0 <= i < name.len() ==> #[trigger] name[i] != '/'
            },
        text@ == unix_text(path),
        call_ensures(RelPath::from_unix_str, (text,), read),
    ensures
        read matches Ok(p) && p@ == path,
{
    assert forall|k: int| 0 <= k < path.len() implies valid_component(#[trigger] path[k]) by {
        let name = path[k];
        if name.contains('/') {
            let i = name.index_of('/');
            assert(name[i] == '/');
        }
    }
    law_unix_text_round_trip(path, text@);
}

/// Texts are ordered byte by byte in UTF-8: the first byte that differs decides, and a text that
/// another one continues comes first.
pub proof fn law_texts_are_ordered_by_bytes(a: &String, b: &String, rank: Rank)
    requires
        call_ensures(<String as OrderedKey>::rank, (a, b), rank),
    ensures
        rank == Rank::Same <==> a@ == b@,
        rank == Rank::Before <==> exists|k: int|
            {
                &&& 0 <= k <= encode_utf8(a@).len()
                &&& k < encode_utf8(b@).len()
                &&& #[trigger] encode_utf8(a@).take(k) == encode_utf8(b@).take(k)
                &&& k == encode_utf8(a@).len() || encode_utf8(a@)[k] < encode_utf8(b@)[k]
            },
{
    let x = encode_utf8(a@);
    let y = encode_utf8(b@);
    let lt = |p: u8, q: u8| byte_lt(p, q);
    if text_before(a@, b@) {
        let k = choose|k: int| lex_at(lt, x, y, k);
        assert(x.take(k) =~= y.take(k));
    }
    if exists|k: int|
        0 <= k <= x.len() && k < y.len() && #[trigger] x.take(k) == y.take(k) && (k == x.len()
            || x[k] < y[k]) {
        let k = choose|k: int|
            0 <= k <= x.len() && k < y.len() && #[trigger] x.take(k) == y.take(k) && (k == x.len()
                || x[k] < y[k]);
        assert forall|i: int| 0 <= i < k implies x[i] == y[i] by {
            assert(x.take(k)[i] == y.take(k)[i]);
        }
        assert(lex_at(lt, x, y, k));
    }
}

/// Paths are ordered component by component: the first component that differs decides, and a path
/// comes before what is below it.
pub proof fn law_paths_are_ordered_by_components(a: &RelPath, b: &RelPath, rank: Rank)
    requires
        call_ensures(RelPath::compared, (a, b), rank),
    ensures
        rank == Rank::Same <==> a@ == b@,
        rank == Rank::Before <==> exists|k: int|
            {
                &&& 0 <= k <= a@.len()
                &&& k < b@.len()
                &&& #[trigger] a@.take(k) == b@.take(k)
                &&& k == a@.len() || text_before(a@[k], b@[k])
            },
{
    let x = a@;
    let y = b@;
    let lt = |p: Seq<char>, q: Seq<char>| text_before(p, q);
    if path_before(x, y) {
        let k = choose|k: int| lex_at(lt, x, y, k);
        assert(x.take(k) =~= y.take(k));
    }
    if exists|k: int|
        0 <= k <= x.len() && k < y.len() && #[trigger] x.take(k) == y.take(k) && (k == x.len()
            || text_before(x[k], y[k])) {
        let k = choose|k: int|
            0 <= k <= x.len() && k < y.len() && #[trigger] x.take(k) == y.take(k) && (k == x.len()
                || text_before(x[k], y[k]));
        assert forall|i: int| 0 <= i < k implies x[i] == y[i] by {
            assert(x.take(k)[i] == y.take(k)[i]);
        }
        assert(lex_at(lt, x, y, k));
    }
}

/// A file is below its root: the root, one separator between, and the text of its path.
pub proof fn law_files_are_below_their_root(root: &String, path: &RelPath, location: String)
    requires
        call_ensures(join, (root, path), location),
    ensures
        ({
            let text = unix_text(path@);
            let between = location@.len() - root@.len() - text.len();
            &&& location@.take(root@.len() as int) == root@
            &&& location@.skip(location@.len() - text.len()) == text
            &&& if root@.len() > 0 && root@.last() != '/' {
                between == 1 && location@[root@.len() as int] == '/'
            } else {
                between == 0
            }
        }),
{
    let text = unix_text(path@);
    assert(location@.take(root@.len() as int) =~= root@);
    assert(location@.skip(location@.len() - text.len()) =~= text);
}

proof fn lemma_segments_push(text: Seq<char>, c: char)
    ensures
        segments(text).len() > 0,
        c == '/' ==> segments(text.push(c)) == segments(text).push(Seq::empty()),
        c != '/' ==> segments(text.push(c)) == segments(text).drop_last().push(
            segments(text).last().push(c),
        ),
    decreases text.len(),
{
    assert(text.push(c).drop_last() =~= text);
    if text.len() > 0 {
        lemma_segments_push(text.drop_last(), text.last());
        assert(text.drop_last().push(text.last()) =~= text);
    }
}

/// A separator at the end of a root, and a second one after another, name nothing; and neither
/// does a `.` after a separator. Any other character makes a root another one.
pub proof fn law_roots_are_compared_by_components(root: Seq<char>, c: char)
    requires
        root.len() > 0,
    ensures
        same_root(root, root),
        same_root(root, root.push('/')),
        same_root(root.push('/'), root.push('/').push('.')),
        same_root(root.push('/').push(c), root.push('/').push('/').push(c)),
        c != '/' && c != '.' ==> !same_root(root.push('/'), root.push('/').push(c)),
        c != '/' && root.last() != '/' && root.last() != '.' ==> !same_root(root, root.push(c)),
        root[0] != '/' ==> !same_root(root, seq!['/'] + root),
{
    let s = segments(root);
    let e = Seq::<char>::empty();
    lemma_segments_push(root, '/');
    lemma_segments_push(root.push('/'), '.');
    lemma_segments_push(root.push('/'), '/');
    lemma_segments_push(root.push('/'), c);
    lemma_segments_push(root.push('/').push('/'), c);
    lemma_segments_push(root, c);
    let s1 = s.push(e);
    assert(s1.drop_last() =~= s);
    assert(s1.push(e).drop_last() =~= s1);
    assert(e.push('.') =~= seq!['.']);
    let dot = s.push(seq!['.']);
    assert(dot.drop_last() =~= s);
    assert(naming_parts(s1) == naming_parts(s));
    assert(naming_parts(dot) == naming_parts(s));
    if c != '/' {
        let a = s.push(e.push(c));
        let b = s1.push(e.push(c));
        assert(a.drop_last() =~= s);
        assert(b.drop_last() =~= s1);
        if c != '.' {
            assert(e.push(c)[0] == c);
            assert(naming_parts(a).len() == naming_parts(s).len() + 1);
        }
        let old = s.last();
        let now = s.drop_last().push(old.push(c));
        assert(now.drop_last() =~= s.drop_last());
        if root.last() != '/' && root.last() != '.' {
            lemma_segments_push(root.drop_last(), root.last());
            assert(root.drop_last().push(root.last()) =~= root);
            assert(old.last() == root.last());
            assert(old.len() > 0);
            assert(old != seq!['.']) by {
                if old == seq!['.'] {
                    assert(old.last() == '.');
                }
            }
            assert(old.push(c) != seq!['.']) by {
                assert(old.push(c).len() > 1);
            }
            assert(naming_parts(s) == naming_parts(s.drop_last()).push(old));
            assert(naming_parts(now) == naming_parts(s.drop_last()).push(old.push(c)));
            assert(naming_parts(s).last() == old);
            assert(naming_parts(now).last() == old.push(c));
            assert(old.len() != old.push(c).len());
        }
    } else {
        let a = s.push(e).push(e);
        assert(a.drop_last() =~= s1);
        let b = a.push(e);
        assert(b.drop_last() =~= a);
    }
}

/// What names the directories of a root: its first part, and then all parts, except for those that
/// are empty and those further on that are `.`.
pub open spec fn directories(parts: Seq<Seq<char>>) -> Seq<Seq<char>> {
    (if parts[0].len() > 0 {
        seq![parts[0]]
    } else {
        Seq::empty()
    }) + parts.drop_first().filter(|part: Seq<char>| part.len() > 0 && part != seq!['.'])
}

proof fn lemma_directories(parts: Seq<Seq<char>>)
    requires
        parts.len() > 0,
    ensures
        naming_parts(parts) == directories(parts),
    decreases parts.len(),
{
    reveal(Seq::filter);
    let init = parts.drop_last();
    if init.len() > 0 {
        lemma_directories(init);
        assert(init[0] == parts[0]);
        assert(parts.drop_first().drop_last() =~= init.drop_first());
        assert(parts.drop_first().last() == parts.last());
        assert(naming_parts(parts) =~= directories(parts));
    } else {
        assert(init =~= Seq::<Seq<char>>::empty());
        assert(naming_parts(init) =~= Seq::<Seq<char>>::empty());
        assert(parts.drop_first() =~= Seq::<Seq<char>>::empty());
        assert(parts.last() == parts[0]);
        assert(naming_parts(parts) =~= directories(parts));
    }
}

/// Two roots, written as parts with `/` between them, are one root exactly where both begin with
/// `/` or neither does, and they name the same directories.
pub proof fn law_roots_are_told_by_their_directories(
    a: Seq<Seq<char>>,
    b: Seq<Seq<char>>,
    a_text: &str,
    b_text: &str,
    yes: bool,
)
    requires
        a.len() > 0,
        b.len() > 0,
        forall|i: int| 0 <= i < a.len() ==> !(#[trigger] a[i]).contains('/'),
        forall|i: int| 0 <= i < b.len() ==> !(#[trigger] b[i]).contains('/'),
        a_text@ == unix_text(a),
        b_text@ == unix_text(b),
        call_ensures(is_same_root, (a_text, b_text), yes),
    ensures
        yes <==> (a.len() > 1 && a[0].len() == 0) == (b.len() > 1 && b[0].len() == 0)
            && directories(a) == directories(b),
{
    lemma_segments_of_unix_text(a);
    lemma_segments_of_unix_text(b);
    lemma_directories(a);
    lemma_directories(b);
    lemma_rooted(a);
    lemma_rooted(b);
}

proof fn lemma_rooted(parts: Seq<Seq<char>>)
    requires
        parts.len() > 0,
        forall|i: int| 0 <= i < parts.len() ==> !(#[trigger] parts[i]).contains('/'),
    ensures
        is_rooted(unix_text(parts)) <==> parts.len() > 1 && parts[0].len() == 0,
        parts.len() > 1 ==> unix_text(parts).len() > 0,
    decreases parts.len(),
{
    let text = unix_text(parts);
    if parts.len() == 1 {
        if text.len() > 0 && text[0] == '/' {
            assert(parts[0].contains('/'));
        }
    } else {
        let init = parts.drop_last();
        assert forall|i: int| 0 <= i < init.len() implies !(#[trigger] init[i]).contains('/') by {
            assert(init[i] == parts[i]);
        }
        lemma_rooted(init);
        let before = unix_text(init);
        assert(init[0] == parts[0]);
        if before.len() > 0 {
            assert(text[0] == before[0]);
            if init.len() == 1 {
                assert(parts[0].len() > 0);
            }
        } else {
            assert(init.len() == 1);
            assert(parts[0].len() == 0);
            assert(text[0] == '/');
        }
    }
}

} // verus!
