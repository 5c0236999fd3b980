//! What holds of the groups of test files as a whole.
use vstd::prelude::*;

use crate::rel_path::ancestor;
use crate::rel_path::within;
use crate::test_groups::assigned;
use crate::test_groups::dir_parent;
use crate::test_groups::files_in;
use crate::test_groups::floor;
use crate::test_groups::group_row;
use crate::test_groups::group_rows;
use crate::test_groups::ids_apart;
use crate::test_groups::is_test_file;
use crate::test_groups::last_within;
use crate::test_groups::lemma_parents_differ;
use crate::test_groups::lemma_test_dirs;
use crate::test_groups::next_free;
use crate::test_groups::reveals;
use crate::test_groups::rows_after;
use crate::test_groups::shown;
use crate::test_groups::tests_name;
use crate::test_groups::with_groups;
use crate::test_groups::with_members;
use crate::test_groups::IdsView;
use crate::test_groups::SelectedEntry;
use crate::test_groups::TestGroupView;
use crate::test_groups::TestGroupsView;
use crate::worktree::listing;
use crate::worktree::EntryKind;
use crate::worktree::GitEntryView;
use crate::worktree::SnapshotView;
use crate::worktree::NEW_ENTRY_ID;

verus! {

/// The next id is the largest free one: it is not real and every id between it and the last one
/// given is. There is none only where all the ids below are real.
pub proof fn law_next_id_is_largest(taken: spec_fn(usize) -> bool, from: usize)
    ensures
        match next_free(taken, from) {
            Some(id) => id < from && !taken(id) && forall|i: usize| id < i < from ==> #[trigger] taken(i),
            None => forall|i: usize| i < from ==> #[trigger] taken(i),
        },
    decreases from,
{
    if from > 0 {
        law_next_id_is_largest(taken, (from - 1) as usize);
    }
}

/// A directory gets an id that no real entry has and that is not the one of the new-entry row; no
/// two directories share one; and the ids of the other directories stay.
pub proof fn law_assigned_id_is_new(
    ids: IdsView,
    parent: SelectedEntry,
    taken: spec_fn(usize) -> bool,
)
    requires
        ids_apart(ids),
    ensures
        assigned(ids, parent, taken) matches Some((now, id)) ==> {
            &&& !taken(id)
            &&& id != NEW_ENTRY_ID
            &&& ids_apart(now)
            &&& now.by_parent == ids.by_parent.insert(parent, id)
        },
{
    law_next_id_is_largest(taken, floor(ids.next));
    if ids.by_parent.contains_key(parent) {
        assert(ids.by_parent.insert(parent, ids.by_parent[parent]) =~= ids.by_parent);
    }
}

/// A directory keeps its id from one update to the next, as long as no real entry took it.
pub proof fn law_ids_are_stable(
    g: TestGroupsView,
    entries: Seq<GitEntryView>,
    snapshot: SnapshotView,
    accepted: Seq<bool>,
    reveal: Option<usize>,
    taken: spec_fn(usize) -> bool,
    dirs: Seq<Seq<Seq<char>>>,
    parent: SelectedEntry,
)
    requires
        g.ids.by_parent.contains_key(parent),
        !taken(g.ids.by_parent[parent]),
    ensures
        ({
            let now = with_groups(g, entries, snapshot, accepted, reveal, taken, dirs).0;
            now.ids.by_parent.contains_key(parent) && now.ids.by_parent[parent]
                == g.ids.by_parent[parent]
        }),
    decreases dirs.len(),
{
    if dirs.len() > 0 {
        law_ids_are_stable(
            g,
            entries,
            snapshot,
            accepted,
            reveal,
            taken,
            dirs.drop_last(),
            parent,
        );
    }
}

/// The ids of the groups stay apart from each other and from the new-entry row, and each group
/// that an update makes has an id that no real entry has.
pub proof fn law_group_ids_are_virtual(
    g: TestGroupsView,
    entries: Seq<GitEntryView>,
    snapshot: SnapshotView,
    accepted: Seq<bool>,
    reveal: Option<usize>,
    taken: spec_fn(usize) -> bool,
    dirs: Seq<Seq<Seq<char>>>,
)
    requires
        ids_apart(g.ids),
    ensures
        ({
            let now = with_groups(g, entries, snapshot, accepted, reveal, taken, dirs).0;
            &&& ids_apart(now.ids)
            &&& forall|id: usize| #[trigger]
                now.groups.contains_key(id) && !g.groups.contains_key(id) ==> !taken(id) && id
                    != NEW_ENTRY_ID
        }),
    decreases dirs.len(),
{
    if dirs.len() > 0 {
        let init = dirs.drop_last();
        law_group_ids_are_virtual(g, entries, snapshot, accepted, reveal, taken, init);
        let (before, enough) = with_groups(g, entries, snapshot, accepted, reveal, taken, init);
        if enough && dir_parent(snapshot, dirs.last()) is Some {
            law_assigned_id_is_new(before.ids, dir_parent(snapshot, dirs.last())->0, taken);
        }
    }
}

/// What an update expanded stays so, and a file that is to be revealed has its group expanded.
pub proof fn law_reveal_expands(
    g: TestGroupsView,
    entries: Seq<GitEntryView>,
    snapshot: SnapshotView,
    accepted: Seq<bool>,
    reveal: Option<usize>,
    taken: spec_fn(usize) -> bool,
    dirs: Seq<Seq<Seq<char>>>,
)
    ensures
        ({
            let (now, enough) = with_groups(g, entries, snapshot, accepted, reveal, taken, dirs);
            &&& g.expanded.subset_of(now.expanded)
            &&& enough ==> forall|dir: Seq<Seq<char>>| #[trigger]
                dirs.contains(dir) && dir_parent(snapshot, dir) is Some && reveals(
                    files_in(entries, accepted, dir),
                    reveal,
                ) ==> now.expanded.contains(dir_parent(snapshot, dir)->0)
        }),
    decreases dirs.len(),
{
    if dirs.len() > 0 {
        let init = dirs.drop_last();
        law_reveal_expands(g, entries, snapshot, accepted, reveal, taken, init);
        assert forall|dir: Seq<Seq<char>>| #[trigger] dirs.contains(dir) implies dir == dirs.last()
            || init.contains(dir) by {
            let i = dirs.index_of(dir);
            if i < init.len() {
                assert(init[i] == dir);
            }
        }
    }
}

proof fn lemma_with_members(members: Map<usize, usize>, files: Seq<GitEntryView>, id: usize)
    ensures
        forall|k: usize| #[trigger]
            members.contains_key(k) ==> with_members(members, files, id).contains_key(k),
        forall|i: int|
            0 <= i < files.len() ==> with_members(members, files, id).contains_key(
                (#[trigger] files[i]).entry.id,
            ),
    decreases files.len(),
{
    if files.len() > 0 {
        lemma_with_members(members, files.drop_last(), id);
        assert forall|i: int| 0 <= i < files.len() implies with_members(
            members,
            files,
            id,
        ).contains_key((#[trigger] files[i]).entry.id) by {
            if i < files.len() - 1 {
                assert(files.drop_last()[i] == files[i]);
            }
        }
    }
}

/// Each directory that the snapshot knows gets a group with its files, and each of those files is
/// a member of a group.
pub proof fn law_every_test_file_is_grouped(
    g: TestGroupsView,
    entries: Seq<GitEntryView>,
    snapshot: SnapshotView,
    accepted: Seq<bool>,
    reveal: Option<usize>,
    taken: spec_fn(usize) -> bool,
    dirs: Seq<Seq<Seq<char>>>,
)
    requires
        with_groups(g, entries, snapshot, accepted, reveal, taken, dirs).1,
    ensures
        ({
            let now = with_groups(g, entries, snapshot, accepted, reveal, taken, dirs).0;
            &&& forall|k: usize| #[trigger]
                g.members.contains_key(k) ==> now.members.contains_key(k)
            &&& forall|dir: Seq<Seq<char>>, i: int|
                #![trigger dirs.contains(dir), files_in(entries, accepted, dir)[i]]
                dirs.contains(dir) && dir_parent(snapshot, dir) is Some && 0 <= i < files_in(
                    entries,
                    accepted,
                    dir,
                ).len() ==> now.members.contains_key(
                    files_in(entries, accepted, dir)[i].entry.id,
                )
        }),
    decreases dirs.len(),
{
    if dirs.len() > 0 {
        let init = dirs.drop_last();
        let last = dirs.last();
        law_every_test_file_is_grouped(g, entries, snapshot, accepted, reveal, taken, init);
        let before = with_groups(g, entries, snapshot, accepted, reveal, taken, init).0;
        let now = with_groups(g, entries, snapshot, accepted, reveal, taken, dirs).0;
        if dir_parent(snapshot, last) is Some {
            let parent = dir_parent(snapshot, last)->0;
            let (_, id) = assigned(before.ids, parent, taken)->0;
            lemma_with_members(before.members, files_in(entries, accepted, last), id);
        }
        assert forall|dir: Seq<Seq<char>>, i: int|
            #![trigger dirs.contains(dir), files_in(entries, accepted, dir)[i]]
            dirs.contains(dir) && dir_parent(snapshot, dir) is Some && 0 <= i < files_in(
                entries,
                accepted,
                dir,
            ).len() implies now.members.contains_key(
            files_in(entries, accepted, dir)[i].entry.id,
        ) by {
            if dir != last {
                assert(init[dirs.index_of(dir)] == dir);
                assert(init.contains(dir));
                let id = files_in(entries, accepted, dir)[i].entry.id;
                assert(before.members.contains_key(id));
            }
        }
    }
}

/// Each directory that the snapshot knows has its own group, under the id of its row: the group
/// holds exactly the test files of the directory, as they are.
pub proof fn law_each_directory_has_its_group(
    g: TestGroupsView,
    entries: Seq<GitEntryView>,
    snapshot: SnapshotView,
    accepted: Seq<bool>,
    reveal: Option<usize>,
    taken: spec_fn(usize) -> bool,
    dirs: Seq<Seq<Seq<char>>>,
)
    requires
        ids_apart(g.ids),
        listing(snapshot.entries),
        dirs.no_duplicates(),
        with_groups(g, entries, snapshot, accepted, reveal, taken, dirs).1,
    ensures
        ({
            let now = with_groups(g, entries, snapshot, accepted, reveal, taken, dirs).0;
            forall|dir: Seq<Seq<char>>| #[trigger]
                dirs.contains(dir) ==> has_own_group(now, entries, snapshot, accepted, dir)
        }),
    decreases dirs.len(),
{
    if dirs.len() > 0 {
        let init = dirs.drop_last();
        let last = dirs.last();
        law_each_directory_has_its_group(g, entries, snapshot, accepted, reveal, taken, init);
        law_group_ids_are_virtual(g, entries, snapshot, accepted, reveal, taken, init);
        let before = with_groups(g, entries, snapshot, accepted, reveal, taken, init).0;
        let now = with_groups(g, entries, snapshot, accepted, reveal, taken, dirs).0;
        assert forall|dir: Seq<Seq<char>>| #[trigger] dirs.contains(dir) implies has_own_group(
            now,
            entries,
            snapshot,
            accepted,
            dir,
        ) by {
            if dir_parent(snapshot, last) is Some {
                law_assigned_id_is_new(before.ids, dir_parent(snapshot, last)->0, taken);
            }
            if dir != last {
                assert(init[dirs.index_of(dir)] == dir);
                assert(init.contains(dir));
                assert(has_own_group(before, entries, snapshot, accepted, dir));
                if dir_parent(snapshot, dir) is Some && dir_parent(snapshot, last) is Some {
                    let p = dir_parent(snapshot, dir)->0;
                    let q = dir_parent(snapshot, last)->0;
                    if p == q {
                        lemma_parents_differ(snapshot, dir, last);
                    }
                    let (ids, id) = assigned(before.ids, q, taken)->0;
                    assert(ids.by_parent.contains_key(p) && ids.by_parent.contains_key(q));
                    assert(ids.by_parent[p] != ids.by_parent[q]);
                    assert(now.ids == ids);
                    assert(now.groups == before.groups.insert(
                        id,
                        TestGroupView {
                            parent: q,
                            path: last,
                            files: files_in(entries, accepted, last),
                        },
                    ));
                }
            }
        }
    }
}

/// The group of `dir` is under the id of its row, and holds exactly its test files.
pub open spec fn has_own_group(
    g: TestGroupsView,
    entries: Seq<GitEntryView>,
    snapshot: SnapshotView,
    accepted: Seq<bool>,
    dir: Seq<Seq<char>>,
) -> bool {
    dir_parent(snapshot, dir) matches Some(parent) ==> {
        &&& g.ids.by_parent.contains_key(parent)
        &&& g.groups.contains_key(g.ids.by_parent[parent])
        &&& g.groups[g.ids.by_parent[parent]] == (TestGroupView {
            parent,
            path: dir,
            files: files_in(entries, accepted, dir),
        })
    }
}

/// Where the row at `i` comes in the list that is shown.
pub open spec fn place(
    g: TestGroupsView,
    entries: Seq<GitEntryView>,
    snapshot: SnapshotView,
    accepted: Seq<bool>,
    i: int,
) -> int {
    shown(g, entries, snapshot, accepted, i as nat).len() as int
}

pub proof fn lemma_shown_prefix(
    g: TestGroupsView,
    entries: Seq<GitEntryView>,
    snapshot: SnapshotView,
    accepted: Seq<bool>,
    m: nat,
    n: nat,
)
    requires
        m <= n,
    ensures
        shown(g, entries, snapshot, accepted, m).len() <= shown(
            g,
            entries,
            snapshot,
            accepted,
            n,
        ).len(),
        shown(g, entries, snapshot, accepted, n).take(
            shown(g, entries, snapshot, accepted, m).len() as int,
        ) == shown(g, entries, snapshot, accepted, m),
    decreases n,
{
    let a = shown(g, entries, snapshot, accepted, m);
    let b = shown(g, entries, snapshot, accepted, n);
    if m == n {
        assert(b.take(a.len() as int) =~= a);
    } else {
        lemma_shown_prefix(g, entries, snapshot, accepted, m, (n - 1) as nat);
        let c = shown(g, entries, snapshot, accepted, (n - 1) as nat);
        assert(b.take(c.len() as int) =~= c);
        assert(b.take(a.len() as int) =~= c.take(a.len() as int));
    }
}

/// Every row that is in no group is shown, and these rows keep their order.
pub proof fn law_other_rows_keep_their_order(
    g: TestGroupsView,
    entries: Seq<GitEntryView>,
    snapshot: SnapshotView,
    accepted: Seq<bool>,
    i: int,
    j: int,
)
    requires
        0 <= i < entries.len(),
        0 <= j < entries.len(),
        !g.members.contains_key(entries[i].entry.id),
    ensures
        ({
            let list = shown(g, entries, snapshot, accepted, entries.len());
            &&& place(g, entries, snapshot, accepted, i) < list.len()
            &&& list[place(g, entries, snapshot, accepted, i)] == entries[i]
            &&& i < j ==> place(g, entries, snapshot, accepted, i) < place(
                g,
                entries,
                snapshot,
                accepted,
                j,
            )
        }),
{
    let list = shown(g, entries, snapshot, accepted, entries.len());
    let upto = shown(g, entries, snapshot, accepted, (i + 1) as nat);
    let at = place(g, entries, snapshot, accepted, i);
    lemma_shown_prefix(g, entries, snapshot, accepted, (i + 1) as nat, entries.len());
    assert(upto[at] == entries[i]);
    assert(list.take(upto.len() as int)[at] == list[at]);
    if i < j {
        lemma_shown_prefix(g, entries, snapshot, accepted, (i + 1) as nat, j as nat);
    }
}

/// The rows of a group stand in `rows_after`, where its directory is among those looked at.
proof fn lemma_rows_after(
    g: TestGroupsView,
    entries: Seq<GitEntryView>,
    snapshot: SnapshotView,
    accepted: Seq<bool>,
    i: int,
    levels: nat,
    up: nat,
) -> (from: int)
    requires
        up < levels,
        ancestor(entries[i].entry.path, up) matches Some(dir) && last_within(entries, dir, i),
    ensures
        ({
            let rows = rows_after(g, entries, snapshot, accepted, i, levels);
            let dir = ancestor(entries[i].entry.path, up)->0;
            let own = group_rows(g, entries, snapshot, accepted, dir);
            0 <= from && from + own.len() <= rows.len() && rows.subrange(from, from + own.len())
                == own
        }),
    decreases levels,
{
    let rows = rows_after(g, entries, snapshot, accepted, i, levels);
    let deeper = rows_after(g, entries, snapshot, accepted, i, (levels - 1) as nat);
    let dir = ancestor(entries[i].entry.path, up)->0;
    let own = group_rows(g, entries, snapshot, accepted, dir);
    if up == levels - 1 {
        assert(rows.subrange(deeper.len() as int, (deeper.len() + own.len()) as int) =~= own);
        deeper.len() as int
    } else {
        let from = lemma_rows_after(
            g,
            entries,
            snapshot,
            accepted,
            i,
            (levels - 1) as nat,
            up,
        );
        assert(rows.subrange(from, from + own.len()) =~= deeper.subrange(from, from + own.len()));
        from
    }
}

/// The group of a directory comes directly after the rows that end with the last one below the
/// directory: its row, then its files where it is expanded, before anything of a later row.
pub proof fn law_group_follows_its_directory(
    g: TestGroupsView,
    entries: Seq<GitEntryView>,
    snapshot: SnapshotView,
    accepted: Seq<bool>,
    dir: Seq<Seq<char>>,
    i: int,
) -> (from: int)
    requires
        last_within(entries, dir, i),
    ensures
        ({
            let list = shown(g, entries, snapshot, accepted, entries.len());
            let own = group_rows(g, entries, snapshot, accepted, dir);
            &&& place(g, entries, snapshot, accepted, i) <= from
            &&& !g.members.contains_key(entries[i].entry.id) ==> place(
                g,
                entries,
                snapshot,
                accepted,
                i,
            ) < from
            &&& from + own.len() <= place(g, entries, snapshot, accepted, i + 1) <= list.len()
            &&& list.subrange(from, from + own.len()) == own
        }),
{
    let list = shown(g, entries, snapshot, accepted, entries.len());
    let own = group_rows(g, entries, snapshot, accepted, dir);
    let path = entries[i].entry.path;
    let up = (path.len() - dir.len()) as nat;
    assert(ancestor(path, up) == Some(dir)) by {
        assert(path.take(dir.len() as int) =~= dir);
    }
    let rows = rows_after(g, entries, snapshot, accepted, i, path.len() + 1);
    let at = lemma_rows_after(g, entries, snapshot, accepted, i, path.len() + 1, up);
    let before = shown(g, entries, snapshot, accepted, i as nat);
    let upto = shown(g, entries, snapshot, accepted, (i + 1) as nat);
    let from = upto.len() - rows.len() + at;
    lemma_shown_prefix(g, entries, snapshot, accepted, (i + 1) as nat, entries.len());
    let part = list.subrange(from, from + own.len());
    assert forall|k: int| 0 <= k < own.len() implies #[trigger] part[k] == own[k] by {
        assert(list.take(upto.len() as int)[from + k] == list[from + k]);
        assert(upto[from + k] == rows[at + k]);
        assert(rows.subrange(at, at + own.len())[k] == rows[at + k]);
    }
    assert(part =~= own);
    from
}

/// Some row is the last one below a directory that has a row below it.
pub proof fn lemma_last_within(
    entries: Seq<GitEntryView>,
    dir: Seq<Seq<char>>,
    i: int,
) -> (last: int)
    requires
        0 <= i < entries.len(),
        within(entries[i].entry.path, dir),
    ensures
        last_within(entries, dir, last),
    decreases entries.len() - i,
{
    if forall|j: int| i < j < entries.len() ==> !within(#[trigger] entries[j].entry.path, dir) {
        i
    } else {
        let j = choose|j: int| i < j < entries.len() && within(
            #[trigger] entries[j].entry.path,
            dir,
        );
        lemma_last_within(entries, dir, j)
    }
}

proof fn lemma_files_in(
    entries: Seq<GitEntryView>,
    accepted: Seq<bool>,
    dir: Seq<Seq<char>>,
)
    ensures
        forall|i: int|
            0 <= i < entries.len() && is_test_file(#[trigger] entries[i], accepted[i])
                && entries[i].entry.path.drop_last() == dir ==> files_in(
                entries,
                accepted,
                dir,
            ).contains(entries[i]),
        forall|e: GitEntryView| #[trigger]
            files_in(entries, accepted, dir).contains(e) ==> e.entry.kind == EntryKind::File
                && e.entry.path.drop_last() == dir,
    decreases entries.len(),
{
    if entries.len() > 0 {
        let init = entries.drop_last();
        lemma_files_in(init, accepted, dir);
        let before = files_in(init, accepted, dir);
        let files = files_in(entries, accepted, dir);
        assert forall|i: int|
            0 <= i < entries.len() && is_test_file(#[trigger] entries[i], accepted[i])
                && entries[i].entry.path.drop_last() == dir implies files.contains(entries[i]) by {
            if i < init.len() {
                assert(init[i] == entries[i]);
                assert(before.contains(entries[i]));
                assert(files[before.index_of(entries[i])] == entries[i]);
            } else {
                assert(files[before.len() as int] == entries[i]);
            }
        }
        assert forall|e: GitEntryView| #[trigger] files.contains(e) implies e.entry.kind
            == EntryKind::File && e.entry.path.drop_last() == dir by {
            let k = files.index_of(e);
            if k < before.len() {
                assert(before[k] == e);
                assert(before.contains(e));
            }
        }
    }
}

/// The files of an expanded group are shown.
pub proof fn law_expanded_group_shows_its_files(
    g: TestGroupsView,
    entries: Seq<GitEntryView>,
    snapshot: SnapshotView,
    accepted: Seq<bool>,
    i: int,
)
    requires
        0 <= i < entries.len(),
        is_test_file(entries[i], accepted[i]),
        dir_parent(snapshot, entries[i].entry.path.drop_last()) matches Some(parent)
            && g.expanded.contains(parent),
    ensures
        shown(g, entries, snapshot, accepted, entries.len()).contains(entries[i]),
{
    let e = entries[i];
    let path = e.entry.path;
    let dir = path.drop_last();
    let list = shown(g, entries, snapshot, accepted, entries.len());
    let own = group_rows(g, entries, snapshot, accepted, dir);
    let files = files_in(entries, accepted, dir);
    assert(within(path, dir)) by {
        assert(path.take(dir.len() as int) =~= dir);
    }
    let last = lemma_last_within(entries, dir, i);
    let from = law_group_follows_its_directory(g, entries, snapshot, accepted, dir, last);
    lemma_files_in(entries, accepted, dir);
    lemma_test_dirs(entries, accepted);
    let k = files.index_of(e);
    assert(own[k + 1] == files[k]);
    assert(list.subrange(from, from + own.len())[k + 1] == list[from + k + 1]);
}

/// What `rows_after` holds are rows of groups and files of expanded groups.
proof fn lemma_rows_after_holds(
    g: TestGroupsView,
    entries: Seq<GitEntryView>,
    snapshot: SnapshotView,
    accepted: Seq<bool>,
    i: int,
    levels: nat,
    e: GitEntryView,
)
    requires
        e.entry.kind == EntryKind::File,
        rows_after(g, entries, snapshot, accepted, i, levels).contains(e),
    ensures
        dir_parent(snapshot, e.entry.path.drop_last()) matches Some(parent) && g.expanded.contains(
            parent,
        ),
    decreases levels,
{
    let rows = rows_after(g, entries, snapshot, accepted, i, levels);
    let deeper = rows_after(g, entries, snapshot, accepted, i, (levels - 1) as nat);
    let k = rows.index_of(e);
    if k < deeper.len() {
        assert(deeper[k] == e);
        lemma_rows_after_holds(g, entries, snapshot, accepted, i, (levels - 1) as nat, e);
    } else {
        let dir = ancestor(entries[i].entry.path, (levels - 1) as nat)->0;
        let own = group_rows(g, entries, snapshot, accepted, dir);
        let files = files_in(entries, accepted, dir);
        assert(own[k - deeper.len()] == e);
        lemma_files_in(entries, accepted, dir);
        assert(own[0].entry.kind == EntryKind::Dir);
        assert(files[k - deeper.len() - 1] == e);
        assert(files.contains(e));
    }
}

proof fn lemma_hidden(
    g: TestGroupsView,
    entries: Seq<GitEntryView>,
    snapshot: SnapshotView,
    accepted: Seq<bool>,
    e: GitEntryView,
    n: nat,
)
    requires
        n <= entries.len(),
        e.entry.kind == EntryKind::File,
        g.members.contains_key(e.entry.id),
        dir_parent(snapshot, e.entry.path.drop_last()) matches Some(parent) ==> !g.expanded.contains(
            parent,
        ),
    ensures
        !shown(g, entries, snapshot, accepted, n).contains(e),
    decreases n,
{
    if n > 0 {
        let i = n - 1;
        lemma_hidden(g, entries, snapshot, accepted, e, i as nat);
        let list = shown(g, entries, snapshot, accepted, n);
        if list.contains(e) {
            let before = shown(g, entries, snapshot, accepted, i as nat);
            let rows = rows_after(
                g,
                entries,
                snapshot,
                accepted,
                i,
                entries[i].entry.path.len() + 1,
            );
            let k = list.index_of(e);
            if k < before.len() {
                assert(before[k] == e);
            } else if k >= list.len() - rows.len() {
                assert(rows[k - (list.len() - rows.len())] == e);
                lemma_rows_after_holds(
                    g,
                    entries,
                    snapshot,
                    accepted,
                    i,
                    entries[i].entry.path.len() + 1,
                    e,
                );
            }
        }
    }
}

/// A file whose group is collapsed is not shown.
pub proof fn law_collapsed_group_hides_its_files(
    g: TestGroupsView,
    entries: Seq<GitEntryView>,
    snapshot: SnapshotView,
    accepted: Seq<bool>,
    e: GitEntryView,
)
    requires
        e.entry.kind == EntryKind::File,
        g.members.contains_key(e.entry.id),
        dir_parent(snapshot, e.entry.path.drop_last()) matches Some(parent) ==> !g.expanded.contains(
            parent,
        ),
    ensures
        !shown(g, entries, snapshot, accepted, entries.len()).contains(e),
{
    lemma_hidden(g, entries, snapshot, accepted, e, entries.len());
}

/// The path of a group's row is not that of an entry on disk: no name there holds a NUL.
pub proof fn law_group_row_has_its_own_path(
    files: Seq<GitEntryView>,
    dir: Seq<Seq<char>>,
    id: usize,
    path: Seq<Seq<char>>,
)
    requires
        forall|i: int| 0 <= i < path.len() ==> !(#[trigger] path[i]).contains('\0'),
    ensures
        group_row(files, dir, id).entry.path != path,
{
    let row = group_row(files, dir, id).entry.path;
    assert(row.last() == tests_name());
    assert(tests_name()[0] == '\0');
    if row == path {
        assert(path[row.len() - 1].contains('\0'));
    }
}

} // verus!
