//! What holds of the groups over all worktrees of one update.
use vstd::prelude::*;

use crate::test_group_laws::law_assigned_id_is_new;
use crate::test_groups::among;
use crate::test_groups::assigned;
use crate::test_groups::dir_parent;
use crate::test_groups::files_in;
use crate::test_groups::grouped;
use crate::test_groups::grouped_as_said;
use crate::test_groups::ids_apart;
use crate::test_groups::lemma_parents_differ;
use crate::test_groups::lemma_test_dirs;
use crate::test_groups::said_real;
use crate::test_groups::test_dirs;
use crate::test_groups::with_groups;
use crate::test_groups::with_members;
use crate::test_groups::TestGroupView;
use crate::test_groups::TestGroupsView;
use crate::worktree::listing;
use crate::worktree::GitEntryView;
use crate::worktree::SnapshotView;
use crate::worktree::NEW_ENTRY_ID;

verus! {

/// One of the files has this id.
pub open spec fn has_file(files: Seq<GitEntryView>, id: usize) -> bool {
    exists|i: int| 0 <= i < files.len() && (#[trigger] files[i]).entry.id == id
}

/// The group is under the id of its directory, and holds files: each directly in that directory,
/// and a member of this group.
pub open spec fn group_in_place(g: TestGroupsView, id: usize) -> bool {
    let group = g.groups[id];
    &&& g.ids.by_parent.contains_key(group.parent)
    &&& g.ids.by_parent[group.parent] == id
    &&& group.files.len() > 0
    &&& forall|i: int|
        0 <= i < group.files.len() ==> {
            let file = (#[trigger] group.files[i]).entry;
            &&& file.id != NEW_ENTRY_ID
            &&& file.path.len() > 0
            &&& file.path.drop_last() == group.path
            &&& g.members.contains_key(file.id)
            &&& g.members[file.id] == id
        }
}

/// Members and groups name each other: each file of a group is a member of that group and of no
/// other, and each member is one of the files of its group.
pub open spec fn coherent(g: TestGroupsView) -> bool {
    &&& ids_apart(g.ids)
    &&& forall|id: usize| #[trigger] g.groups.contains_key(id) ==> group_in_place(g, id)
    &&& forall|file: usize| #[trigger]
        g.members.contains_key(file) ==> g.groups.contains_key(g.members[file]) && has_file(
            g.groups[g.members[file]].files,
            file,
        )
}

/// The files are among the rows, in the order of the rows.
pub open spec fn keeps_order(files: Seq<GitEntryView>, entries: Seq<GitEntryView>) -> bool {
    &&& forall|i: int| 0 <= i < files.len() ==> entries.contains(#[trigger] files[i])
    &&& forall|i: int, j: int|
        0 <= i < j < files.len() ==> comes_before(
            entries,
            #[trigger] files[i],
            #[trigger] files[j],
        )
}

/// One row comes before another.
pub open spec fn comes_before(
    entries: Seq<GitEntryView>,
    first: GitEntryView,
    second: GitEntryView,
) -> bool {
    exists|a: int, b: int|
        0 <= a < b < entries.len() && #[trigger] entries[a] == first && #[trigger] entries[b]
            == second
}

/// No two rows have one id, except for those of new entries.
pub open spec fn distinct_rows(entries: Seq<GitEntryView>) -> bool {
    forall|i: int, j: int|
        0 <= i < j < entries.len() && (#[trigger] entries[i]).entry.id == (
        #[trigger] entries[j]).entry.id ==> entries[i].entry.id == NEW_ENTRY_ID
}

/// None of the rows is in a group yet, and neither is anything else of the worktree.
pub open spec fn not_grouped(
    g: TestGroupsView,
    entries: Seq<GitEntryView>,
    worktree_id: usize,
) -> bool {
    &&& forall|i: int|
        0 <= i < entries.len() && (#[trigger] entries[i]).entry.id != NEW_ENTRY_ID
            ==> !g.members.contains_key(entries[i].entry.id)
    &&& forall|id: usize| #[trigger]
        g.groups.contains_key(id) ==> g.groups[id].parent.worktree_id != worktree_id
}

/// What was grouped before is as it was.
pub open spec fn keeps_groups(was: TestGroupsView, now: TestGroupsView) -> bool {
    &&& forall|id: usize| #[trigger]
        was.groups.contains_key(id) ==> now.groups.contains_key(id) && now.groups[id]
            == was.groups[id]
    &&& forall|file: usize| #[trigger]
        was.members.contains_key(file) ==> now.members.contains_key(file) && now.members[file]
            == was.members[file]
}

/// The group is one of the directories' own: it holds the test files of its directory.
pub open spec fn made_of(
    group: TestGroupView,
    entries: Seq<GitEntryView>,
    snapshot: SnapshotView,
    accepted: Seq<bool>,
    dirs: Seq<Seq<Seq<char>>>,
) -> bool {
    &&& dirs.contains(group.path)
    &&& dir_parent(snapshot, group.path) == Some(group.parent)
    &&& group.files == files_in(entries, accepted, group.path)
}

proof fn lemma_members(members: Map<usize, usize>, files: Seq<GitEntryView>, id: usize)
    ensures
        forall|k: usize| #[trigger]
            with_members(members, files, id).contains_key(k) <==> members.contains_key(k)
                || has_file(files, k),
        forall|k: usize|
            has_file(files, k) ==> #[trigger] with_members(members, files, id)[k] == id,
        forall|k: usize|
            !has_file(files, k) ==> #[trigger] with_members(members, files, id)[k] == members[k],
    decreases files.len(),
{
    if files.len() > 0 {
        let init = files.drop_last();
        lemma_members(members, init, id);
        assert forall|k: usize| has_file(files, k) <==> #[trigger] has_file(init, k) || k
            == files.last().entry.id by {
            if has_file(init, k) {
                let i = choose|i: int| 0 <= i < init.len() && (#[trigger] init[i]).entry.id == k;
                assert(files[i].entry.id == k);
            }
            if has_file(files, k) {
                let i = choose|i: int| 0 <= i < files.len() && (#[trigger] files[i]).entry.id == k;
                if i < init.len() {
                    assert(init[i].entry.id == k);
                }
            }
            if k == files.last().entry.id {
                assert(files[files.len() - 1].entry.id == k);
            }
        }
        assert forall|k: usize| #[trigger]
            with_members(members, files, id).contains_key(k) <==> members.contains_key(k)
                || has_file(files, k) by {
            assert(with_members(members, init, id).contains_key(k) <==> members.contains_key(k)
                || has_file(init, k));
            assert(has_file(files, k) <==> has_file(init, k) || k == files.last().entry.id);
        }
        assert forall|k: usize| has_file(files, k) implies #[trigger] with_members(
            members,
            files,
            id,
        )[k] == id by {
            assert(has_file(files, k) <==> has_file(init, k) || k == files.last().entry.id);
            assert(has_file(init, k) ==> with_members(members, init, id)[k] == id);
        }
        assert forall|k: usize| !has_file(files, k) implies #[trigger] with_members(
            members,
            files,
            id,
        )[k] == members[k] by {
            assert(has_file(files, k) <==> has_file(init, k) || k == files.last().entry.id);
            assert(with_members(members, init, id)[k] == members[k]);
        }
    }
}

pub proof fn lemma_keeps_order(
    entries: Seq<GitEntryView>,
    accepted: Seq<bool>,
    dir: Seq<Seq<char>>,
)
    ensures
        keeps_order(files_in(entries, accepted, dir), entries),
        forall|i: int|
            0 <= i < files_in(entries, accepted, dir).len() ==> {
                let e = (#[trigger] files_in(entries, accepted, dir)[i]).entry;
                e.id != NEW_ENTRY_ID && e.path.len() > 0 && e.path.drop_last() == dir
            },
    decreases entries.len(),
{
    if entries.len() > 0 {
        let init = entries.drop_last();
        lemma_keeps_order(init, accepted, dir);
        let before = files_in(init, accepted, dir);
        let files = files_in(entries, accepted, dir);
        let e = entries.last();
        assert(entries[entries.len() - 1] == e);
        assert forall|i: int| 0 <= i < files.len() implies entries.contains(#[trigger] files[i]) by {
            if i < before.len() {
                assert(files[i] == before[i]);
                assert(init.contains(before[i]));
                assert(entries[init.index_of(before[i])] == files[i]);
            }
        }
        assert forall|i: int, j: int| 0 <= i < j < files.len() implies comes_before(
            entries,
            #[trigger] files[i],
            #[trigger] files[j],
        ) by {
            assert(files[i] == before[i]);
            if j < before.len() {
                assert(comes_before(init, before[i], before[j]));
                let (a, b) = choose|a: int, b: int|
                    0 <= a < b < init.len() && #[trigger] init[a] == before[i] && #[trigger] init[b]
                        == before[j];
                assert(entries[a] == files[i] && entries[b] == files[j]);
            } else {
                assert(init.contains(before[i]));
                let a = init.index_of(before[i]);
                assert(entries[a] == files[i] && entries[entries.len() - 1] == files[j]);
            }
        }
    }
}

/// The rows with one id are one row.
pub proof fn lemma_same_row(entries: Seq<GitEntryView>, a: GitEntryView, b: GitEntryView)
    requires
        distinct_rows(entries),
        entries.contains(a),
        entries.contains(b),
        a.entry.id == b.entry.id,
        a.entry.id != NEW_ENTRY_ID,
    ensures
        a == b,
{
    let i = entries.index_of(a);
    let j = entries.index_of(b);
    if i < j {
        assert(entries[i].entry.id == entries[j].entry.id);
    } else if j < i {
        assert(entries[j].entry.id == entries[i].entry.id);
    }
}

pub proof fn lemma_with_groups_coherent(
    g: TestGroupsView,
    entries: Seq<GitEntryView>,
    snapshot: SnapshotView,
    accepted: Seq<bool>,
    reveal: Option<usize>,
    taken: spec_fn(usize) -> bool,
    dirs: Seq<Seq<Seq<char>>>,
)
    requires
        coherent(g),
        listing(snapshot.entries),
        distinct_rows(entries),
        not_grouped(g, entries, snapshot.id),
        dirs.no_duplicates(),
        forall|dir: Seq<Seq<char>>| #[trigger]
            dirs.contains(dir) ==> files_in(entries, accepted, dir).len() > 0,
    ensures
        ({
            let now = with_groups(g, entries, snapshot, accepted, reveal, taken, dirs).0;
            &&& coherent(now)
            &&& keeps_groups(g, now)
            &&& forall|id: usize| #[trigger]
                now.groups.contains_key(id) && !g.groups.contains_key(id) ==> made_of(
                    now.groups[id],
                    entries,
                    snapshot,
                    accepted,
                    dirs,
                )
        }),
    decreases dirs.len(),
{
    if dirs.len() > 0 {
        let init = dirs.drop_last();
        let dir = dirs.last();
        assert(dirs[dirs.len() - 1] == dir);
        assert forall|d: Seq<Seq<char>>| #[trigger] init.contains(d) implies dirs.contains(d) && d
            != dir by {
            let i = init.index_of(d);
            assert(dirs[i] == d);
            assert(dirs[i] != dirs[dirs.len() - 1]);
        }
        lemma_with_groups_coherent(g, entries, snapshot, accepted, reveal, taken, init);
        let (before, enough) = with_groups(g, entries, snapshot, accepted, reveal, taken, init);
        let now = with_groups(g, entries, snapshot, accepted, reveal, taken, dirs).0;
        if enough && dir_parent(snapshot, dir) is Some && assigned(
            before.ids,
            dir_parent(snapshot, dir)->0,
            taken,
        ) is Some {
            let parent = dir_parent(snapshot, dir)->0;
            let (ids, id) = assigned(before.ids, parent, taken)->0;
            let files = files_in(entries, accepted, dir);
            let group = TestGroupView { parent, path: dir, files };
            law_assigned_id_is_new(before.ids, parent, taken);
            lemma_keeps_order(entries, accepted, dir);
            lemma_members(before.members, files, id);
            assert(now.groups == before.groups.insert(id, group));
            assert(dirs.contains(dir));
            // No group has this directory or this id yet.
            assert forall|other: usize| #[trigger] before.groups.contains_key(other) implies other
                != id && before.groups[other].parent != parent by {
                let was = before.groups[other];
                assert(group_in_place(before, other));
                if was.parent == parent {
                    if !g.groups.contains_key(other) {
                        assert(made_of(was, entries, snapshot, accepted, init));
                        lemma_parents_differ(snapshot, was.path, dir);
                    }
                    assert(false);
                }
                assert(ids.by_parent.contains_key(was.parent) && ids.by_parent.contains_key(
                    parent,
                ));
            }
            // None of its files is a member yet.
            assert forall|i: int| 0 <= i < files.len() implies !before.members.contains_key(
                (#[trigger] files[i]).entry.id,
            ) by {
                let file = files[i].entry.id;
                assert(entries.contains(files[i]));
                assert(entries[entries.index_of(files[i])].entry.id == file);
                if before.members.contains_key(file) {
                    let other = before.members[file];
                    let was = before.groups[other];
                    let k = choose|k: int|
                        0 <= k < was.files.len() && (#[trigger] was.files[k]).entry.id == file;
                    assert(group_in_place(before, other));
                    if g.groups.contains_key(other) {
                        assert(group_in_place(g, other));
                        assert(g.groups[other].files[k].entry.id == file);
                        assert(g.members.contains_key(file));
                    } else {
                        assert(made_of(was, entries, snapshot, accepted, init));
                        lemma_keeps_order(entries, accepted, was.path);
                        assert(entries.contains(was.files[k]));
                        lemma_same_row(entries, files[i], was.files[k]);
                        assert(init.contains(was.path));
                    }
                }
            }
            assert forall|file: usize| has_file(files, file) implies !(
            #[trigger] before.members.contains_key(file)) by {
                let i = choose|i: int|
                    0 <= i < files.len() && (#[trigger] files[i]).entry.id == file;
                assert(!before.members.contains_key(files[i].entry.id));
            }
            assert forall|other: usize| #[trigger] now.groups.contains_key(other) implies
            group_in_place(now, other) by {
                if other == id {
                    assert forall|i: int| 0 <= i < files.len() implies has_file(
                        files,
                        (#[trigger] files[i]).entry.id,
                    ) by {}
                } else {
                    assert(before.groups.contains_key(other));
                    assert(group_in_place(before, other));
                    let was = before.groups[other];
                    assert forall|i: int| 0 <= i < was.files.len() implies {
                        let file = (#[trigger] was.files[i]).entry;
                        now.members.contains_key(file.id) && now.members[file.id] == other
                    } by {
                        let file = was.files[i].entry.id;
                        assert(before.members.contains_key(file));
                        assert(!has_file(files, file));
                        assert(now.members.contains_key(file));
                        assert(now.members[file] == before.members[file]);
                    }
                }
            }
            assert forall|file: usize| #[trigger] now.members.contains_key(file) implies
            now.groups.contains_key(now.members[file]) && has_file(
                now.groups[now.members[file]].files,
                file,
            ) by {
                if has_file(files, file) {
                    assert(now.members[file] == id);
                } else {
                    assert(before.members.contains_key(file));
                    assert(now.members[file] == before.members[file]);
                    assert(before.groups.contains_key(before.members[file]));
                }
            }
            assert forall|file: usize| #[trigger] g.members.contains_key(file) implies
            now.members.contains_key(file) && now.members[file] == g.members[file] by {
                assert(before.members.contains_key(file));
                assert(!has_file(files, file));
                assert(now.members[file] == before.members[file]);
            }
        } else {
            assert(now.groups == before.groups);
            assert(now.members == before.members);
            assert(now.ids.by_parent == before.ids.by_parent);
            assert forall|other: usize| #[trigger] now.groups.contains_key(other) implies
            group_in_place(now, other) by {
                assert(group_in_place(before, other));
            }
        }
        assert forall|id: usize| #[trigger]
            now.groups.contains_key(id) && !g.groups.contains_key(id) implies made_of(
            now.groups[id],
            entries,
            snapshot,
            accepted,
            dirs,
        ) by {
            if before.groups.contains_key(id) && now.groups[id] == before.groups[id] {
                assert(made_of(before.groups[id], entries, snapshot, accepted, init));
            }
        }
    }
}

/// Grouping the rows of one more worktree keeps members and groups coherent, and what was grouped
/// before as it was. The groups that it adds belong to that worktree, and their files keep the
/// order of the rows.
pub proof fn law_grouping_keeps_groups_coherent(
    g: TestGroupsView,
    entries: Seq<GitEntryView>,
    snapshot: SnapshotView,
    accepted: Seq<bool>,
    reveal: Option<usize>,
    taken: spec_fn(usize) -> bool,
)
    requires
        coherent(g),
        listing(snapshot.entries),
        distinct_rows(entries),
        not_grouped(g, entries, snapshot.id),
    ensures
        ({
            let now = grouped(g, entries, snapshot, accepted, reveal, taken).0;
            &&& coherent(now)
            &&& keeps_groups(g, now)
            &&& forall|id: usize| #[trigger]
                now.groups.contains_key(id) && !g.groups.contains_key(id) ==> {
                    &&& now.groups[id].parent.worktree_id == snapshot.id
                    &&& keeps_order(now.groups[id].files, entries)
                }
        }),
{
    let dirs = test_dirs(entries, accepted);
    let now = grouped(g, entries, snapshot, accepted, reveal, taken).0;
    lemma_test_dirs(entries, accepted);
    lemma_with_groups_coherent(g, entries, snapshot, accepted, reveal, taken, dirs);
    assert forall|id: usize| #[trigger]
        now.groups.contains_key(id) && !g.groups.contains_key(id) implies
    now.groups[id].parent.worktree_id == snapshot.id && keeps_order(
        now.groups[id].files,
        entries,
    ) by {
        assert(made_of(now.groups[id], entries, snapshot, accepted, dirs));
        lemma_keeps_order(entries, accepted, now.groups[id].path);
    }
}

/// Whatever is said of the ids, grouping the rows of one more worktree keeps members and groups
/// coherent, and what was grouped before as it was.
pub proof fn law_every_grouping_is_coherent<F: Fn(usize) -> bool>(
    id_is_real: F,
    g: TestGroupsView,
    entries: Seq<GitEntryView>,
    snapshot: SnapshotView,
    accepted: Seq<bool>,
    reveal: Option<usize>,
    now: (TestGroupsView, Seq<GitEntryView>),
)
    requires
        coherent(g),
        listing(snapshot.entries),
        distinct_rows(entries),
        not_grouped(g, entries, snapshot.id),
        grouped_as_said(id_is_real, g, entries, snapshot, accepted, reveal, now),
    ensures
        coherent(now.0),
        keeps_groups(g, now.0),
        forall|id: usize| #[trigger]
            now.0.groups.contains_key(id) && !g.groups.contains_key(id) ==> {
                &&& now.0.groups[id].parent.worktree_id == snapshot.id
                &&& keeps_order(now.0.groups[id].files, entries)
            },
{
    let reals = choose|reals: Set<usize>| #[trigger]
        said_real(id_is_real, reals) && grouped(
            g,
            entries,
            snapshot,
            accepted,
            reveal,
            among(reals),
        ) == now;
    law_grouping_keeps_groups_coherent(
        g,
        entries,
        snapshot,
        accepted,
        reveal,
        among(reals),
    );
}

/// The rows of one worktree, and what grouping them takes.
pub ghost struct TreeRows {
    pub entries: Seq<GitEntryView>,
    pub snapshot: SnapshotView,
    pub accepted: Seq<bool>,
    pub reveal: Option<usize>,
    pub taken: spec_fn(usize) -> bool,
}

/// The groups once the rows of all these worktrees were grouped, one after the other.
pub open spec fn all_grouped(g: TestGroupsView, trees: Seq<TreeRows>) -> TestGroupsView
    decreases trees.len(),
{
    if trees.len() == 0 {
        g
    } else {
        let last = trees.last();
        grouped(
            all_grouped(g, trees.drop_last()),
            last.entries,
            last.snapshot,
            last.accepted,
            last.reveal,
            last.taken,
        ).0
    }
}

/// No two rows of different worktrees have one id, except for those of new entries.
pub open spec fn rows_apart(a: Seq<GitEntryView>, b: Seq<GitEntryView>) -> bool {
    forall|i: int, j: int|
        0 <= i < a.len() && 0 <= j < b.len() && (#[trigger] a[i]).entry.id == (
        #[trigger] b[j]).entry.id ==> a[i].entry.id == NEW_ENTRY_ID
}

/// The rows of different worktrees, as a project has them.
pub open spec fn valid_rows(trees: Seq<TreeRows>) -> bool {
    &&& forall|n: int|
        0 <= n < trees.len() ==> listing((#[trigger] trees[n]).snapshot.entries) && distinct_rows(
            trees[n].entries,
        )
    &&& forall|m: int, n: int|
        0 <= m < n < trees.len() ==> (#[trigger] trees[m]).snapshot.id != (
        #[trigger] trees[n]).snapshot.id && rows_apart(trees[m].entries, trees[n].entries)
}

/// The group is that of a directory of one of the worktrees, and its files keep the order in which
/// the rows of that worktree are.
pub open spec fn comes_from(group: TestGroupView, trees: Seq<TreeRows>) -> bool {
    exists|n: int|
        0 <= n < trees.len() && group.parent.worktree_id == (#[trigger] trees[n]).snapshot.id
            && keeps_order(group.files, trees[n].entries)
}

/// Over all worktrees of an update, members and groups name each other: each group has files, each
/// of them directly in its directory, and in the order of the rows.
pub proof fn law_update_makes_groups_coherent(g: TestGroupsView, trees: Seq<TreeRows>)
    requires
        ids_apart(g.ids),
        g.groups == Map::<usize, TestGroupView>::empty(),
        g.members == Map::<usize, usize>::empty(),
        valid_rows(trees),
    ensures
        coherent(all_grouped(g, trees)),
        forall|id: usize| #[trigger]
            all_grouped(g, trees).groups.contains_key(id) ==> comes_from(
                all_grouped(g, trees).groups[id],
                trees,
            ),
    decreases trees.len(),
{
    if trees.len() > 0 {
        let init = trees.drop_last();
        let last = trees.last();
        assert(trees[trees.len() - 1] == last);
        assert(valid_rows(init)) by {
            assert forall|n: int| 0 <= n < init.len() implies listing(
                (#[trigger] init[n]).snapshot.entries,
            ) && distinct_rows(init[n].entries) by {
                assert(init[n] == trees[n]);
            }
            assert forall|m: int, n: int| 0 <= m < n < init.len() implies (
            #[trigger] init[m]).snapshot.id != (#[trigger] init[n]).snapshot.id && rows_apart(
                init[m].entries,
                init[n].entries,
            ) by {
                assert(init[m] == trees[m] && init[n] == trees[n]);
            }
        }
        law_update_makes_groups_coherent(g, init);
        let before = all_grouped(g, init);
        let now = all_grouped(g, trees);
        assert(init.push(last) =~= trees);
        lemma_later_worktree_is_not_grouped(before, init, last);
        law_grouping_keeps_groups_coherent(
            before,
            last.entries,
            last.snapshot,
            last.accepted,
            last.reveal,
            last.taken,
        );
        assert forall|id: usize| #[trigger] now.groups.contains_key(id) implies comes_from(
            now.groups[id],
            trees,
        ) by {
            if before.groups.contains_key(id) {
                let n = choose|n: int|
                    0 <= n < init.len() && before.groups[id].parent.worktree_id == (
                    #[trigger] init[n]).snapshot.id && keeps_order(
                        before.groups[id].files,
                        init[n].entries,
                    );
                assert(trees[n] == init[n]);
            } else {
                assert(now.groups[id].parent.worktree_id == trees[trees.len()
                    - 1].snapshot.id);
            }
        }
    }
}

proof fn lemma_later_worktree_is_not_grouped(
    g: TestGroupsView,
    trees: Seq<TreeRows>,
    later: TreeRows,
)
    requires
        coherent(g),
        forall|id: usize| #[trigger]
            g.groups.contains_key(id) ==> comes_from(g.groups[id], trees),
        valid_rows(trees.push(later)),
    ensures
        not_grouped(g, later.entries, later.snapshot.id),
{
    let all = trees.push(later);
    let n = trees.len() as int;
    assert(all[n] == later);
    assert forall|i: int|
        0 <= i < later.entries.len() && (#[trigger] later.entries[i]).entry.id
            != NEW_ENTRY_ID implies !g.members.contains_key(later.entries[i].entry.id) by {
        let file = later.entries[i].entry.id;
        if g.members.contains_key(file) {
            let group = g.groups[g.members[file]];
            let k = choose|k: int|
                0 <= k < group.files.len() && (#[trigger] group.files[k]).entry.id == file;
            let m = choose|m: int|
                0 <= m < trees.len() && group.parent.worktree_id == (
                #[trigger] trees[m]).snapshot.id && keeps_order(group.files, trees[m].entries);
            assert(all[m] == trees[m]);
            assert(trees[m].entries.contains(group.files[k]));
            let a = trees[m].entries.index_of(group.files[k]);
            assert(rows_apart(all[m].entries, all[n].entries));
            assert(all[m].entries[a].entry.id == all[n].entries[i].entry.id);
        }
    }
    assert forall|id: usize| #[trigger] g.groups.contains_key(id) implies
    g.groups[id].parent.worktree_id != later.snapshot.id by {
        let m = choose|m: int|
            0 <= m < trees.len() && g.groups[id].parent.worktree_id == (
            #[trigger] trees[m]).snapshot.id && keeps_order(g.groups[id].files, trees[m].entries);
        assert(all[m] == trees[m]);
        assert(all[m].snapshot.id != all[n].snapshot.id);
    }
}

/// The groups of the worktrees that come first in an update stay as they are while the rows of the
/// others are grouped.
pub proof fn law_earlier_groups_stay(g: TestGroupsView, trees: Seq<TreeRows>, n: int)
    requires
        ids_apart(g.ids),
        g.groups == Map::<usize, TestGroupView>::empty(),
        g.members == Map::<usize, usize>::empty(),
        valid_rows(trees),
        0 <= n <= trees.len(),
    ensures
        keeps_groups(all_grouped(g, trees.take(n)), all_grouped(g, trees)),
    decreases trees.len(),
{
    if n == trees.len() {
        assert(trees.take(n) =~= trees);
    } else {
        let init = trees.drop_last();
        let last = trees.last();
        assert(valid_rows(init)) by {
            assert forall|k: int| 0 <= k < init.len() implies listing(
                (#[trigger] init[k]).snapshot.entries,
            ) && distinct_rows(init[k].entries) by {
                assert(init[k] == trees[k]);
            }
            assert forall|m: int, k: int| 0 <= m < k < init.len() implies (
            #[trigger] init[m]).snapshot.id != (#[trigger] init[k]).snapshot.id && rows_apart(
                init[m].entries,
                init[k].entries,
            ) by {
                assert(init[m] == trees[m] && init[k] == trees[k]);
            }
        }
        law_earlier_groups_stay(g, init, n);
        assert(init.take(n) =~= trees.take(n));
        law_update_makes_groups_coherent(g, init);
        assert(init.push(last) =~= trees);
        assert(trees[trees.len() - 1] == last);
        lemma_later_worktree_is_not_grouped(all_grouped(g, init), init, last);
        law_grouping_keeps_groups_coherent(
            all_grouped(g, init),
            last.entries,
            last.snapshot,
            last.accepted,
            last.reveal,
            last.taken,
        );
    }
}

} // verus!
