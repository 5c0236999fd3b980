//! Paths relative to the root of a worktree.
use vstd::prelude::*;
use vstd::string::*;

use crate::order::lemma_lex_strict_total;
use crate::order::lemma_text_strict_total;
use crate::order::lex;
use crate::order::lex_at;
use crate::order::strict_total;
use crate::order::text_before;
use crate::order::OrderedKey;
use crate::order::Rank;

verus! {

/// What a path component may be: neither empty, nor `.` or `..`, and without a separator.
pub open spec fn valid_component(name: Seq<char>) -> bool {
    &&& name.len() > 0
    &&& !name.contains('/')
    &&& name != seq!['.']
    &&& name != seq!['.', '.']
}

pub open spec fn valid_path(path: Seq<Seq<char>>) -> bool {
    forall|i: int| 0 <= i < path.len() ==> valid_component(#[trigger] path[i])
}

/// The components joined by `/`.
pub open spec fn unix_text(path: Seq<Seq<char>>) -> Seq<char>
    decreases path.len(),
{
    if path.len() == 0 {
        Seq::empty()
    } else if path.len() == 1 {
        path[0]
    } else {
        unix_text(path.drop_last()).push('/') + path.last()
    }
}

/// What stands between the separators of a text.
pub open spec fn segments(text: Seq<char>) -> Seq<Seq<char>>
    decreases text.len(),
{
    if text.len() == 0 {
        seq![Seq::empty()]
    } else {
        let before = segments(text.drop_last());
        if text.last() == '/' {
            before.push(Seq::empty())
        } else {
            before.drop_last().push(before.last().push(text.last()))
        }
    }
}

/// The path that a text in normal form stands for.
pub open spec fn parse_unix(text: Seq<char>) -> Option<Seq<Seq<char>>> {
    if text.len() == 0 {
        Some(Seq::empty())
    } else if valid_path(segments(text)) {
        Some(segments(text))
    } else {
        None
    }
}

/// `prefix` is `path`, or a directory above it.
pub open spec fn within(path: Seq<Seq<char>>, prefix: Seq<Seq<char>>) -> bool {
    prefix.len() <= path.len() && path.take(prefix.len() as int) == prefix
}

/// The path `up` levels above `path`, as long as there is one. The root is above all others.
pub open spec fn ancestor(path: Seq<Seq<char>>, up: nat) -> Option<Seq<Seq<char>>> {
    if up <= path.len() {
        Some(path.take(path.len() - up))
    } else {
        None
    }
}

/// The order of paths: component by component.
pub open spec fn path_before(a: Seq<Seq<char>>, b: Seq<Seq<char>>) -> bool {
    lex(|x: Seq<char>, y: Seq<char>| text_before(x, y), a, b)
}

proof fn lemma_segments_nonempty(text: Seq<char>)
    ensures
        segments(text).len() >= 1,
    decreases text.len(),
{
    if text.len() > 0 {
        lemma_segments_nonempty(text.drop_last());
    }
}

proof fn lemma_unix_text_push(path: Seq<Seq<char>>, name: Seq<char>)
    requires
        path.len() >= 1,
    ensures
        unix_text(path.push(name)) == unix_text(path).push('/') + name,
{
    assert(path.push(name).drop_last() =~= path);
}

proof fn lemma_unix_text_of_segments(text: Seq<char>)
    ensures
        unix_text(segments(text)) == text,
    decreases text.len(),
{
    if text.len() > 0 {
        let init = text.drop_last();
        let before = segments(init);
        lemma_unix_text_of_segments(init);
        lemma_segments_nonempty(init);
        if text.last() == '/' {
            lemma_unix_text_push(before, Seq::empty());
            assert(unix_text(segments(text)) =~= text);
        } else {
            let name = before.last().push(text.last());
            if before.len() == 1 {
                assert(segments(text) =~= seq![name]);
                assert(unix_text(segments(text)) =~= text);
            } else {
                lemma_unix_text_push(before.drop_last(), name);
                lemma_unix_text_push(before.drop_last(), before.last());
                assert(before.drop_last().push(before.last()) =~= before);
                let stem = unix_text(before.drop_last()).push('/');
                assert(stem + name =~= (stem + before.last()).push(text.last()));
                assert(text =~= init.push(text.last()));
            }
        }
    }
}

proof fn lemma_segments_push_name(text: Seq<char>, name: Seq<char>)
    requires
        !name.contains('/'),
    ensures
        segments(text.push('/') + name) == segments(text).push(name),
    decreases name.len(),
{
    let whole = text.push('/') + name;
    if name.len() == 0 {
        assert(whole.drop_last() =~= text);
        assert(name =~= Seq::<char>::empty());
    } else {
        let init = name.drop_last();
        assert(forall|i: int| 0 <= i < init.len() ==> init[i] == name[i]);
        assert(!init.contains('/')) by {
            if init.contains('/') {
                let i = init.index_of('/');
                assert(name[i] == '/');
            }
        }
        lemma_segments_push_name(text, init);
        assert(whole.drop_last() =~= text.push('/') + init);
        assert(whole.last() == name.last());
        assert(name[name.len() - 1] == name.last());
        assert(name =~= init.push(name.last()));
        assert(segments(text).push(init).drop_last() =~= segments(text));
    }
}

proof fn lemma_segments_of_name(name: Seq<char>)
    requires
        !name.contains('/'),
    ensures
        segments(name) == seq![name],
    decreases name.len(),
{
    if name.len() == 0 {
        assert(name =~= Seq::<char>::empty());
    } else {
        let init = name.drop_last();
        assert(!init.contains('/')) by {
            if init.contains('/') {
                let i = init.index_of('/');
                assert(name[i] == '/');
            }
        }
        lemma_segments_of_name(init);
        assert(name[name.len() - 1] == name.last());
        assert(name =~= init.push(name.last()));
        assert(segments(name) =~= seq![name]);
    }
}

pub proof fn lemma_segments_of_unix_text(path: Seq<Seq<char>>)
    requires
        path.len() >= 1,
        forall|i: int| 0 <= i < path.len() ==> !(#[trigger] path[i]).contains('/'),
    ensures
        segments(unix_text(path)) == path,
    decreases path.len(),
{
    assert(!path[path.len() - 1].contains('/'));
    if path.len() == 1 {
        lemma_segments_of_name(path[0]);
        assert(seq![path[0]] =~= path);
    } else {
        let init = path.drop_last();
        assert(forall|i: int| 0 <= i < init.len() ==> init[i] == path[i]);
        lemma_segments_of_unix_text(init);
        lemma_segments_push_name(unix_text(init), path.last());
        assert(init.push(path.last()) =~= path);
    }
}

/// Writing a path out and reading it back gives the same path, and what can be read back is
/// written out the same: paths and their texts in normal form correspond one to one.
pub proof fn law_unix_text_round_trip(path: Seq<Seq<char>>, text: Seq<char>)
    ensures
        valid_path(path) ==> parse_unix(unix_text(path)) == Some(path),
        parse_unix(text) matches Some(p) ==> valid_path(p) && unix_text(p) == text,
{
    lemma_unix_text_of_segments(text);
    if text.len() == 0 {
        assert(text =~= Seq::<char>::empty());
    }
    if valid_path(path) {
        if path.len() == 0 {
            assert(path =~= Seq::<Seq<char>>::empty());
        } else {
            assert forall|i: int| 0 <= i < path.len() implies !(#[trigger] path[i]).contains(
                '/',
            ) by {
                assert(valid_component(path[i]));
            }
            lemma_segments_of_unix_text(path);
            assert(valid_component(path[0]));
            if unix_text(path).len() == 0 {
                assert(unix_text(path) =~= Seq::<char>::empty());
                assert(path =~= seq![Seq::<char>::empty()]);
            }
        }
    }
}

/// A single component is the text of the path that consists of it.
pub proof fn lemma_parse_name(name: Seq<char>)
    requires
        valid_component(name),
    ensures
        parse_unix(name) == Some(seq![name]),
{
    lemma_segments_of_name(name);
}

/// Different paths have different texts.
pub proof fn lemma_unix_text_injective(a: Seq<Seq<char>>, b: Seq<Seq<char>>)
    requires
        valid_path(a),
        valid_path(b),
        unix_text(a) == unix_text(b),
    ensures
        a == b,
{
    law_unix_text_round_trip(a, Seq::empty());
    law_unix_text_round_trip(b, Seq::empty());
}

pub proof fn lemma_path_strict_total()
    ensures
        strict_total(|a: Seq<Seq<char>>, b: Seq<Seq<char>>| path_before(a, b)),
{
    let lt = |x: Seq<char>, y: Seq<char>| text_before(x, y);
    lemma_text_strict_total();
    lemma_lex_strict_total(lt);
    assert((|a: Seq<Seq<char>>, b: Seq<Seq<char>>| path_before(a, b)) =~= (|
        a: Seq<Seq<char>>,
        b: Seq<Seq<char>>,
    | lex(lt, a, b)));
}

/// Why a text is no relative path in normal form.
#[derive(Clone, Copy, Debug, PartialEq, Eq, Structural)]
pub struct InvalidPath;

/// A relative path in normal form: the components from the root down.
#[derive(Debug, PartialEq, Eq)]
pub struct RelPath {
    parts: Vec<String>,
}

impl View for RelPath {
    type V = Seq<Seq<char>>;

    closed spec fn view(&self) -> Seq<Seq<char>> {
        self.parts@.map_values(|part: String| part@)
    }
}

impl Clone for RelPath {
    fn clone(&self) -> (copy: Self)
        ensures
            copy@ == self@,
    {
        self.prefix(self.parts.len())
    }
}

impl RelPath {
    #[verifier::type_invariant]
    spec fn normal(self) -> bool {
        valid_path(self@)
    }

    /// The root itself.
    pub fn empty() -> (path: RelPath)
        ensures
            path@ == Seq::<Seq<char>>::empty(),
    {
        let path = RelPath { parts: Vec::new() };
        assert(path@ =~= Seq::<Seq<char>>::empty());
        path
    }

    /// Reads a `/`-separated path that is in normal form already.
    pub fn from_unix_str(text: &str) -> (path: Result<RelPath, InvalidPath>)
        ensures
            match path {
                Ok(p) => parse_unix(text@) == Some(p@),
                Err(_) => parse_unix(text@) is None,
            },
    {
        if text.is_empty() {
            return Ok(RelPath::empty());
        }
        let parts = split(text);
        let mut i: usize = 0;
        while i < parts.len()
            invariant
                i <= parts@.len(),
                segments(text@) == parts@.map_values(|p: String| p@),
                text@.len() > 0,
                forall|j: int| 0 <= j < i ==> valid_component(#[trigger] segments(text@)[j]),
            decreases parts@.len() - i,
        {
            assert(segments(text@)[i as int] == parts@[i as int]@);
            if !is_component(parts[i].as_str()) {
                return Err(InvalidPath);
            }
            i = i + 1;
        }
        Ok(RelPath { parts })
    }

    /// The path as a `/`-separated text.
    pub fn as_unix_str(&self) -> (text: String)
        ensures
            text@ == unix_text(self@),
            valid_path(self@),
    {
        proof {
            use_type_invariant(self);
        }
        if self.parts.len() == 0 {
            let text = String::new();
            assert(text@ =~= unix_text(self@));
            return text;
        }
        let mut text: String = self.parts[0].clone();
        let mut i: usize = 1;
        assert(self@.take(1) =~= seq![self@[0]]);
        while i < self.parts.len()
            invariant
                1 <= i <= self.parts@.len(),
                text@ == unix_text(self@.take(i as int)),
            decreases self.parts@.len() - i,
        {
            proof {
                reveal_strlit("/");
                lemma_unix_text_push(self@.take(i as int), self@[i as int]);
                assert(self@.take(i + 1) =~= self@.take(i as int).push(self@[i as int]));
            }
            let ghost was = text@;
            text.append("/");
            assert(text@ =~= was.push('/'));
            text.append(self.parts[i].as_str());
            i = i + 1;
        }
        assert(self@.take(i as int) =~= self@);
        text
    }

    pub fn is_empty(&self) -> (yes: bool)
        ensures
            yes == (self@.len() == 0),
    {
        self.parts.len() == 0
    }

    /// How many components the path has.
    pub fn component_count(&self) -> (n: usize)
        ensures
            n == self@.len(),
    {
        self.parts.len()
    }

    /// The last component. The root has none.
    pub fn file_name(&self) -> (name: Option<&String>)
        ensures
            match name {
                Some(n) => self@.len() > 0 && n@ == self@.last(),
                None => self@.len() == 0,
            },
    {
        if self.parts.len() == 0 {
            None
        } else {
            Some(&self.parts[self.parts.len() - 1])
        }
    }

    /// The first `n` components.
    fn prefix(&self, n: usize) -> (path: RelPath)
        requires
            n <= self@.len(),
        ensures
            path@ == self@.take(n as int),
    {
        proof {
            use_type_invariant(self);
        }
        let mut parts: Vec<String> = Vec::new();
        let mut i: usize = 0;
        while i < n
            invariant
                i <= n <= self.parts@.len(),
                parts@.len() == i,
                forall|j: int| 0 <= j < i ==> #[trigger] parts@[j]@ == self.parts@[j]@,
            decreases n - i,
        {
            parts.push(self.parts[i].clone());
            i = i + 1;
        }
        assert(parts@.map_values(|p: String| p@) =~= self@.take(n as int));
        RelPath { parts }
    }

    /// The directory that holds this path. The root has none.
    pub fn parent(&self) -> (dir: Option<RelPath>)
        ensures
            match dir {
                Some(d) => self@.len() > 0 && d@ == self@.drop_last(),
                None => self@.len() == 0,
            },
    {
        if self.parts.len() == 0 {
            None
        } else {
            let dir = self.prefix(self.parts.len() - 1);
            assert(dir@ =~= self@.drop_last());
            Some(dir)
        }
    }

    /// The path `up` levels above: 0 for the path itself.
    pub fn ancestor(&self, up: usize) -> (path: Option<RelPath>)
        ensures
            match path {
                Some(p) => ancestor(self@, up as nat) == Some(p@),
                None => ancestor(self@, up as nat) is None,
            },
    {
        if up <= self.parts.len() {
            Some(self.prefix(self.parts.len() - up))
        } else {
            None
        }
    }

    /// The path itself, and then all that are above it, up to the root.
    pub fn ancestors(&self) -> (paths: Vec<RelPath>)
        ensures
            paths@.len() == self@.len() + 1,
            forall|up: int|
                0 <= up < paths@.len() ==> ancestor(self@, up as nat) == Some(
                    (#[trigger] paths@[up])@,
                ),
    {
        let mut paths: Vec<RelPath> = Vec::new();
        let mut up: usize = 0;
        while up < self.parts.len()
            invariant
                up <= self.parts@.len(),
                paths@.len() == up,
                forall|k: int|
                    0 <= k < up ==> ancestor(self@, k as nat) == Some((#[trigger] paths@[k])@),
            decreases self.parts@.len() - up,
        {
            paths.push(self.prefix(self.parts.len() - up));
            up = up + 1;
        }
        paths.push(RelPath::empty());
        assert(self@.take(0) =~= Seq::<Seq<char>>::empty());
        paths
    }

    /// Whether `prefix` is this path or a directory above it.
    pub fn starts_with(&self, prefix: &RelPath) -> (yes: bool)
        ensures
            yes == within(self@, prefix@),
    {
        if prefix.parts.len() > self.parts.len() {
            return false;
        }
        let mut i: usize = 0;
        while i < prefix.parts.len()
            invariant
                i <= prefix.parts@.len() <= self.parts@.len(),
                forall|j: int| 0 <= j < i ==> #[trigger] self@[j] == prefix@[j],
            decreases prefix.parts@.len() - i,
        {
            if self.parts[i] != prefix.parts[i] {
                assert(self@.take(prefix@.len() as int)[i as int] != prefix@[i as int]);
                return false;
            }
            assert(self@[i as int] == prefix@[i as int]);
            i = i + 1;
        }
        assert(self@.take(prefix@.len() as int) =~= prefix@);
        true
    }

    /// Whether both are the same path.
    pub fn same(&self, other: &RelPath) -> (yes: bool)
        ensures
            yes == (self@ == other@),
    {
        assert(self@.take(self@.len() as int) =~= self@);
        self.parts.len() == other.parts.len() && self.starts_with(other)
    }

    /// `rest` below this path.
    pub fn join(&self, rest: &RelPath) -> (path: RelPath)
        ensures
            path@ == self@ + rest@,
    {
        proof {
            use_type_invariant(self);
            use_type_invariant(rest);
        }
        let mut parts: Vec<String> = Vec::new();
        let mut i: usize = 0;
        while i < self.parts.len()
            invariant
                i <= self.parts@.len(),
                parts@.len() == i,
                forall|j: int| 0 <= j < i ==> #[trigger] parts@[j]@ == self.parts@[j]@,
            decreases self.parts@.len() - i,
        {
            parts.push(self.parts[i].clone());
            i = i + 1;
        }
        let mut k: usize = 0;
        while k < rest.parts.len()
            invariant
                k <= rest.parts@.len(),
                parts@.len() == self.parts@.len() + k,
                forall|j: int| 0 <= j < self.parts@.len() ==> #[trigger] parts@[j]@ == self.parts@[j]@,
                forall|j: int|
                    self.parts@.len() <= j < parts@.len() ==> #[trigger] parts@[j]@
                        == rest.parts@[j - self.parts@.len()]@,
            decreases rest.parts@.len() - k,
        {
            parts.push(rest.parts[k].clone());
            k = k + 1;
        }
        assert(parts@.map_values(|p: String| p@) =~= self@ + rest@);
        RelPath { parts }
    }
}

/// Takes a text apart at its separators.
pub(crate) fn split(text: &str) -> (parts: Vec<String>)
    ensures
        parts@.map_values(|p: String| p@) == segments(text@),
{
    let length: usize = text.unicode_len();
    let mut parts: Vec<String> = Vec::new();
    let mut start: usize = 0;
    let mut at: usize = 0;
    assert(text@.take(0) =~= Seq::<char>::empty());
    assert(text@.subrange(0, 0) =~= Seq::<char>::empty());
    assert(parts@.map_values(|p: String| p@).push(text@.subrange(0, 0)) =~= seq![
        Seq::<char>::empty(),
    ]);
    for c in it: text.chars()
        invariant
            it.seq() == text@,
            at == it.index(),
            length == text@.len(),
            0 <= start <= at <= length,
            segments(text@.take(at as int)) == parts@.map_values(|p: String| p@).push(
                text@.subrange(start as int, at as int),
            ),
    {
        assert(c == text@[at as int]);
        let ghost so_far = text@.take(at as int);
        assert(text@.take(at + 1).drop_last() =~= so_far);
        assert(text@.take(at + 1).last() == c);
        let ghost names = parts@.map_values(|p: String| p@);
        assert(names.push(text@.subrange(start as int, at as int)).drop_last() =~= names);
        if c == '/' {
            let part: String = text.substring_char(start, at).to_owned();
            parts.push(part);
            start = at + 1;
            assert(parts@.map_values(|p: String| p@) =~= names.push(part@));
            assert(text@.subrange(start as int, at + 1) =~= Seq::<char>::empty());
        } else {
            assert(text@.subrange(start as int, at + 1) =~= text@.subrange(
                start as int,
                at as int,
            ).push(c));
        }
        at = at + 1;
    }
    assert(text@.take(length as int) =~= text@);
    let last: String = text.substring_char(start, length).to_owned();
    let ghost names = parts@.map_values(|p: String| p@);
    parts.push(last);
    assert(parts@.map_values(|p: String| p@) =~= names.push(last@));
    parts
}

fn is_component(name: &str) -> (yes: bool)
    ensures
        yes == valid_component(name@),
{
    let length: usize = name.unicode_len();
    if length == 0 || crate::text::has_char(name, '/') {
        return false;
    }
    if length == 1 && name.get_char(0) == '.' {
        assert(name@ =~= seq!['.']);
        return false;
    }
    if length == 2 && name.get_char(0) == '.' && name.get_char(1) == '.' {
        assert(name@ =~= seq!['.', '.']);
        return false;
    }
    true
}

impl RelPath {
    /// Where this path comes with respect to another.
    pub fn compared(&self, other: &RelPath) -> (r: Rank)
        ensures
            r == Rank::Before <==> path_before(self@, other@),
            r == Rank::Same <==> self@ == other@,
            r == Rank::After <==> path_before(other@, self@),
    {
        let ghost lt = |x: Seq<char>, y: Seq<char>| text_before(x, y);
        proof {
            lemma_path_strict_total();
            let on_paths = |a: Seq<Seq<char>>, b: Seq<Seq<char>>| path_before(a, b);
            assert(!on_paths(self@, self@));
            assert(on_paths(self@, other@) && on_paths(other@, self@) ==> on_paths(self@, self@));
        }
        let mut i: usize = 0;
        while i < self.parts.len() && i < other.parts.len()
            invariant
                i <= self.parts@.len(),
                i <= other.parts@.len(),
                lt == (|x: Seq<char>, y: Seq<char>| text_before(x, y)),
                forall|j: int| 0 <= j < i ==> self@[j] == other@[j],
                !(path_before(self@, other@) && path_before(other@, self@)),
                !path_before(self@, self@),
            decreases self.parts@.len() - i,
        {
            match self.parts[i].rank(&other.parts[i]) {
                Rank::Before => {
                    assert(lex_at(lt, self@, other@, i as int));
                    return Rank::Before;
                },
                Rank::After => {
                    assert(lex_at(lt, other@, self@, i as int));
                    return Rank::After;
                },
                Rank::Same => {
                    assert(self@[i as int] == other@[i as int]);
                },
            }
            i = i + 1;
        }
        if i == self.parts.len() && i == other.parts.len() {
            assert(self@ =~= other@);
            Rank::Same
        } else if i == self.parts.len() {
            assert(lex_at(lt, self@, other@, i as int));
            Rank::Before
        } else {
            assert(lex_at(lt, other@, self@, i as int));
            Rank::After
        }
    }
}

impl OrderedKey for RelPath {
    open spec fn before(a: Seq<Seq<char>>, b: Seq<Seq<char>>) -> bool {
        path_before(a, b)
    }

    proof fn lemma_strict_total() {
        lemma_path_strict_total();
        assert((|a: Seq<Seq<char>>, b: Seq<Seq<char>>| <RelPath as OrderedKey>::before(a, b)) =~= (|
            a: Seq<Seq<char>>,
            b: Seq<Seq<char>>,
        | path_before(a, b)));
    }

    fn rank(&self, other: &Self) -> (r: Rank) {
        self.compared(other)
    }
}

} // verus!
