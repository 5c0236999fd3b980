//! What the models of the types say of their values: all that the values hold.
use vstd::prelude::*;

use vstd::utf8::encode_utf8;

use crate::badge::Badge;
use crate::badge::BadgeContent;
use crate::badge::BadgeElement;
use crate::badge::BadgeView;
use crate::badge::FileBadgeRule;
use crate::badge::IconName;
use crate::badge::IconSet;
use crate::badge::IconSize;
use crate::badge::RuleScope;
use crate::badges::BadgeKey;
use crate::cache::CachedFile;
use crate::cache::PersistedCache;
use crate::cache::WorktreeCache;
use crate::cache::WorktreeInput;
use crate::cache::CACHE_NAMESPACE;
use crate::cache::CACHE_VERSION;
use crate::file_badges::PathUpdate;
use crate::file_badges::VisibleTree;
use crate::file_badges::DEBOUNCE_MILLIS;
use crate::json::escape;
use crate::json::escaped;
use crate::json::hex_char;
use crate::json::pair_text;
use crate::matcher::hex_digit;
use crate::matcher::is_digest;
use crate::matcher::sha256_hex;
use crate::matcher::Matcher;
use crate::matcher::Patterns;
use crate::order::text_before;
use crate::order::OrderedKey;
use crate::order::Rank;
use crate::plan::Candidate;
use crate::plan::PendingRead;
use crate::plan::MAX_FILE_SIZE;
use crate::rel_path::path_before;
use crate::rel_path::RelPath;
use crate::rules::CompiledRule;
use crate::rules::CompiledScope;
use crate::text::debug_text;
use crate::worker::Output;
use crate::worker::Request;
use crate::worktree::entry_at;
use crate::worktree::entry_for_path;
use crate::worktree::entry_views;
use crate::worktree::listing;
use crate::worktree::opt_text;
use crate::worktree::Entry;
use crate::worktree::GitEntry;
use crate::worktree::Snapshot;
use crate::worktree::NEW_ENTRY_ID;

verus! {

/// The model of an entry tells all that is known of it.
pub proof fn law_entries_are_modelled(e: Entry, g: GitEntry)
    ensures
        e@.id == e.id,
        e@.kind == e.kind,
        e@.path == e.path@,
        e@.inode == e.inode,
        e@.mtime == e.mtime,
        e@.size == e.size,
        e@.is_fifo == e.is_fifo,
        e@.is_ignored == e.is_ignored,
        e@.canonical_path is Some <==> e.canonical_path is Some,
        e.canonical_path matches Some(p) ==> e@.canonical_path == Some(p@),
        g@.entry == g.entry@,
        g@.git_summary == g.git_summary,
{
}

/// The model of a rule tells all that the settings say, and that of a badge what is shown.
pub proof fn law_rules_are_modelled(
    r: FileBadgeRule,
    s: RuleScope,
    b: Badge,
    c: CompiledRule,
    t: CompiledScope,
)
    ensures
        r@.filename == r.filename@,
        r@.content_regex == r.content_regex@,
        r@.emoji is Some <==> r.emoji is Some,
        r.emoji matches Some(emoji) ==> r@.emoji == Some(emoji@),
        r@.icon is Some <==> r.icon is Some,
        r.icon matches Some(icon) ==> r@.icon == Some(icon@),
        r@.icon_level == r.icon_level,
        s@.worktree_id == s.worktree_id,
        s@.path == s.path@,
        s@.rules == s.rules@.map_values(|rule: FileBadgeRule| rule@),
        b matches Badge::Emoji(emoji) ==> b@ == BadgeView::Emoji(emoji@),
        b matches Badge::Icon(icon) ==> b@ == BadgeView::Icon(icon.name@),
        c@.matcher == c.matcher@,
        c@.badge == c.badge@,
        c@.level == c.level,
        c@.position == c.position,
        t@.worktree_id == t.worktree_id,
        t@.path == t.path@,
        t@.rules == t.rules@.map_values(|rule: CompiledRule| rule@),
{
}

/// The model of a cache tells all that is known of the files.
pub proof fn law_caches_are_modelled(
    f: CachedFile,
    p: PersistedCache,
    w: WorktreeCache,
    text: Seq<char>,
)
    ensures
        f@.version == f.version,
        f@.matches == f.matches@,
        p@.version == p.version,
        p@.files.contains_key(text) == p.files@.contains_key(text),
        p@.files.contains_key(text) ==> p@.files[text] == p.files@[text]@,
        w@.root == w.root@,
        w@.key == w.key@,
        w@.data == w.data@,
        w@.dirty == w.dirty,
{
}

/// The model of what a run takes and gives tells all of it.
pub proof fn law_runs_are_modelled(
    r: Request,
    w: WorktreeInput,
    v: VisibleTree,
    u: PathUpdate,
    o: Output,
    c: Candidate,
    p: PendingRead,
    key: BadgeKey,
)
    ensures
        r@.generation == r.generation,
        r@.trees == r.worktrees@.map_values(|tree: WorktreeInput| tree@),
        r@.scopes == r.scopes@.map_values(|scope: RuleScope| scope@),
        r@.changes == r.invalidated@.map_values(|change: (usize, RelPath)| (change.0, change.1@)),
        w@.snapshot == w.snapshot@,
        w@.scan_complete == w.scan_complete,
        v@.snapshot == v.snapshot@,
        v@.is_local == v.is_local,
        v@.scan_id == v.scan_id,
        v@.completed_scan_id == v.completed_scan_id,
        u@.path == u.path@,
        u@.entry_id == u.entry_id,
        u@.change == u.change,
        o@.errors == o.errors@.map_values(|error: String| error@),
        o@.badges.contains_key(key@) == o.badges@.contains_key(key@),
        o@.badges.contains_key(key@) ==> o@.badges[key@] == o.badges@[key@]@.map_values(
            |badge: Badge| badge@,
        ),
        key@.worktree_id == key.worktree_id,
        key@.path == key.path@,
        c@.path == c.path@,
        c@.version == c.version,
        c@.rules == c.rules@.map_values(|rule: CompiledRule| rule@),
        p@.path == p.path@,
        p@.version == p.version,
        p@.matchers == p.matchers@.map_values(|matcher: Matcher| matcher@),
{
}

/// A snapshot is made of entries whose paths come in order and of which no two have one id, and of
/// no others. It has the entries as they were given.
pub proof fn law_snapshots_list_their_entries(
    id: usize,
    abs_path: String,
    entries: Vec<Entry>,
    snapshot: Option<Snapshot>,
)
    requires
        call_ensures(Snapshot::new, (id, abs_path, entries), snapshot),
    ensures
        snapshot is Some <==> (forall|i: int, j: int|
            0 <= i < j < entries@.len() ==> path_before(
                (#[trigger] entries@[i]).path@,
                (#[trigger] entries@[j]).path@,
            ) && entries@[i].id != entries@[j].id),
        snapshot matches Some(s) ==> s@.id == id && s@.abs_path == abs_path@ && s@.entries
            == entries@.map_values(|e: Entry| e@),
{
    let views = entry_views(entries@);
    assert forall|i: int| 0 <= i < entries@.len() implies #[trigger] views[i] == entries@[i]@ by {}
    if listing(views) {
        assert forall|i: int, j: int| 0 <= i < j < entries@.len() implies path_before(
            (#[trigger] entries@[i]).path@,
            (#[trigger] entries@[j]).path@,
        ) && entries@[i].id != entries@[j].id by {
            assert(path_before(views[i].path, views[j].path));
            assert(views[i].id != views[j].id);
        }
    }
    if forall|i: int, j: int|
        0 <= i < j < entries@.len() ==> path_before(
            (#[trigger] entries@[i]).path@,
            (#[trigger] entries@[j]).path@,
        ) && entries@[i].id != entries@[j].id {
        assert forall|i: int, j: int| 0 <= i < j < views.len() implies path_before(
            #[trigger] views[i].path,
            #[trigger] views[j].path,
        ) by {
            assert(path_before(entries@[i].path@, entries@[j].path@));
        }
        assert forall|i: int, j: int| 0 <= i < j < views.len() implies #[trigger] views[i].id
            != #[trigger] views[j].id by {
            assert(path_before(entries@[i].path@, entries@[j].path@));
        }
    }
}

/// An entry is found by its path, and nothing is found where no entry has that path.
pub proof fn law_entries_are_found_by_path(
    snapshot: &Snapshot,
    path: &RelPath,
    entry: Option<&Entry>,
    entries: &Vec<Entry>,
    id: usize,
    abs_path: &String,
)
    requires
        call_ensures(Snapshot::entry_for_path, (snapshot, path), entry),
        call_ensures(Snapshot::entries, (snapshot,), entries),
        call_ensures(Snapshot::id, (snapshot,), id),
        call_ensures(Snapshot::abs_path, (snapshot,), abs_path),
    ensures
        entry is Some <==> exists|i: int|
            0 <= i < entries@.len() && (#[trigger] entries@[i]).path@ == path@,
        entry matches Some(e) ==> exists|i: int|
            0 <= i < entries@.len() && (#[trigger] entries@[i])@ == e@ && e.path@ == path@,
        entries@.map_values(|e: Entry| e@) == snapshot@.entries,
        id == snapshot@.id,
        abs_path@ == snapshot@.abs_path,
{
    let views = entry_views(entries@);
    assert(views == snapshot@.entries);
    assert forall|i: int| 0 <= i < entries@.len() implies #[trigger] views[i] == entries@[i]@ by {}
    if exists|i: int| 0 <= i < entries@.len() && (#[trigger] entries@[i]).path@ == path@ {
        let i = choose|i: int| 0 <= i < entries@.len() && (#[trigger] entries@[i]).path@ == path@;
        assert(entry_at(views, path@, i));
    }
    if entry_for_path(views, path@) is Some {
        let i = choose|i: int| entry_at(views, path@, i);
        assert(entry_at(views, path@, i));
        assert(entries@[i].path@ == path@);
        assert(entries@[i]@ == views[i]);
    }
}

/// A rule as the settings give it; its badge is shown at the file where no level is given.
pub proof fn law_rules_are_as_given(
    filename: String,
    content_regex: String,
    emoji: Option<String>,
    icon: Option<String>,
    icon_level: Option<u32>,
    rule: FileBadgeRule,
)
    requires
        call_ensures(
            FileBadgeRule::new,
            (filename, content_regex, emoji, icon, icon_level),
            rule,
        ),
    ensures
        rule.filename@ == filename@,
        rule.content_regex@ == content_regex@,
        rule.emoji is Some <==> emoji is Some,
        emoji matches Some(text) ==> rule.emoji->0@ == text@,
        rule.icon is Some <==> icon is Some,
        icon matches Some(text) ==> rule.icon->0@ == text@,
        icon_level matches Some(level) ==> rule.icon_level == level,
        icon_level is None ==> rule.icon_level == 0,
{
    let view = rule@;
    assert(view.emoji == opt_text(emoji));
    assert(view.icon == opt_text(icon));
}

/// An icon is known under the key under which it was made known last, and under no other.
pub proof fn law_icons_are_known_by_their_keys(
    icons: &mut IconSet,
    after: &IconSet,
    before: &IconSet,
    key: String,
    name: String,
    other: &String,
    found: Option<IconName>,
    was: Option<IconName>,
    none: IconSet,
)
    requires
        call_ensures(IconSet::insert, (icons, key, name), ()),
        before@ == old(icons)@,
        after@ == final(icons)@,
        call_ensures(IconSet::parse, (after, other), found),
        call_ensures(IconSet::parse, (before, other), was),
        call_ensures(IconSet::new, (), none),
    ensures
        other@ == key@ ==> (found matches Some(icon) && icon.name@ == name@),
        other@ != key@ ==> (found is Some <==> was is Some),
        other@ != key@ && found is Some ==> found->0.name@ == was->0.name@,
        forall|k: Seq<char>| !#[trigger] none@.contains_key(k),
{
}

/// A badge is shown as its emoji or its icon, on one line that does not give way, with room to its
/// left, and says what it is.
pub proof fn law_badges_are_rendered(badge: &Badge, index: usize, element: BadgeElement)
    requires
        call_ensures(Badge::render, (badge, index), element),
    ensures
        element.id.0@ == "file-badge"@,
        element.id.1 == index,
        badge matches Badge::Emoji(emoji) ==> {
            &&& element.content matches BadgeContent::Label(text)
            &&& text@ == emoji@
            &&& element.debug_selector@ == "file-badge-"@ + ("Emoji("@ + debug_text(emoji@)
                + ")"@)
        },
        badge matches Badge::Icon(icon) ==> {
            &&& element.content matches BadgeContent::Icon(shown)
            &&& shown.name@ == icon.name@
            &&& element.debug_selector@ == "file-badge-"@ + ("Icon("@ + icon.name@ + ")"@)
        },
        element.single_line,
        element.icon_size == IconSize::Small,
        !element.shrinks,
        element.min_width == IconSize::Small,
        element.centred,
        element.margin_left == 1,
        element.tooltip@ == "Matched a file badge rule"@,
{
}

/// A character between the quotes of a JSON string.
pub open spec fn in_quotes(c: char) -> Seq<char> {
    let hex = seq!['0', '1', '2', '3', '4', '5', '6', '7', '8', '9', 'a', 'b', 'c', 'd', 'e', 'f'];
    let u = c as int;
    if c == '"' || c == '\\' {
        seq!['\\', c]
    } else if u == 8 {
        seq!['\\', 'b']
    } else if u == 9 {
        seq!['\\', 't']
    } else if u == 10 {
        seq!['\\', 'n']
    } else if u == 12 {
        seq!['\\', 'f']
    } else if u == 13 {
        seq!['\\', 'r']
    } else if u < 32 {
        seq!['\\', 'u', '0', '0', hex[u / 16], hex[u % 16]]
    } else {
        seq![c]
    }
}

proof fn lemma_escaped(text: Seq<char>)
    ensures
        escaped(text) == text.map_values(|c: char| in_quotes(c)).flatten(),
    decreases text.len(),
{
    let each = |c: char| in_quotes(c);
    let parts = text.map_values(each);
    if text.len() > 0 {
        let rest = text.drop_first();
        lemma_escaped(rest);
        assert(parts.drop_first() =~= rest.map_values(each));
        assert(escape(text[0]) =~= in_quotes(text[0])) by {
            lemma_escape(text[0]);
        }
        assert(parts.first() == in_quotes(text[0]));
    } else {
        assert(parts =~= Seq::<Seq<char>>::empty());
    }
}

proof fn lemma_escape(c: char)
    ensures
        escape(c) == in_quotes(c),
{
    let u = c as nat;
    if u < 32 {
        assert(u / 16 == 0 || u / 16 == 1);
        assert(hex_char(0) == '0' && hex_char(1) == '1' && hex_char(2) == '2');
        assert(hex_char(3) == '3' && hex_char(4) == '4' && hex_char(5) == '5');
        assert(hex_char(6) == '6' && hex_char(7) == '7' && hex_char(8) == '8');
        assert(hex_char(9) == '9' && hex_char(10) == 'a' && hex_char(11) == 'b');
        assert(hex_char(12) == 'c' && hex_char(13) == 'd' && hex_char(14) == 'e');
        assert(hex_char(15) == 'f');
    }
    assert(escape(c) =~= in_quotes(c));
}

/// The name under which the results of a rule are kept is the digest of the JSON array of its glob
/// and its expression, in UTF-8 and without white space.
pub proof fn law_fingerprints_are_digests_of_the_patterns(
    filename: &str,
    content_regex: &str,
    matcher: Matcher,
    name: &String,
)
    requires
        call_ensures(Matcher::compile, (filename, content_regex), Ok(matcher)),
        call_ensures(Matcher::fingerprint, (&matcher,), name),
    ensures
        name@ == sha256_hex(
            encode_utf8(
                seq!['[', '"'] + filename@.map_values(|c: char| in_quotes(c)).flatten() + seq![
                    '"',
                    ',',
                    '"',
                ] + content_regex@.map_values(|c: char| in_quotes(c)).flatten() + seq!['"', ']'],
            ),
        ),
        name@.len() == 64,
        forall|i: int|
            0 <= i < 64 ==> '0' <= #[trigger] name@[i] <= '9' || 'a' <= name@[i] <= 'f',
{
    let a = filename@.map_values(|c: char| in_quotes(c)).flatten();
    let b = content_regex@.map_values(|c: char| in_quotes(c)).flatten();
    lemma_escaped(filename@);
    lemma_escaped(content_regex@);
    assert(pair_text(filename@, content_regex@) =~= seq!['[', '"'] + a + seq!['"', ',', '"'] + b
        + seq!['"', ']']);
    assert(is_digest(name@));
    assert forall|i: int| 0 <= i < 64 implies '0' <= #[trigger] name@[i] <= '9' || 'a' <= name@[i]
        <= 'f' by {
        assert(hex_digit(name@[i]));
    }
}

/// Places of badges are ordered by their worktree, and within one by their path.
pub proof fn law_places_are_ordered_by_worktree(a: &BadgeKey, b: &BadgeKey, r: Rank)
    requires
        call_ensures(<BadgeKey as OrderedKey>::rank, (a, b), r),
    ensures
        r is Before <==> a.worktree_id < b.worktree_id || (a.worktree_id == b.worktree_id
            && path_before(a.path@, b.path@)),
        r is Same <==> a.worktree_id == b.worktree_id && a.path@ == b.path@,
{
}

/// Patterns are ordered by their globs, and among those with one glob by their expressions.
pub proof fn law_patterns_are_ordered_by_globs(a: &Patterns, b: &Patterns, r: Rank)
    requires
        call_ensures(<Patterns as OrderedKey>::rank, (a, b), r),
    ensures
        r is Before <==> text_before(a.filename@, b.filename@) || (a.filename@ == b.filename@
            && text_before(a.content@, b.content@)),
        r is Same <==> a.filename@ == b.filename@ && a.content@ == b.content@,
{
}

/// How long changes are gathered before badges are computed, in milliseconds; up to how many bytes
/// files are read; and where and in which form caches are kept.
pub proof fn law_limits()
    ensures
        DEBOUNCE_MILLIS == 150,
        MAX_FILE_SIZE == 2 * 1024 * 1024,
        CACHE_NAMESPACE@ == "project_panel_file_badges"@,
        CACHE_VERSION == 1,
        NEW_ENTRY_ID == usize::MAX,
{
}

} // verus!
