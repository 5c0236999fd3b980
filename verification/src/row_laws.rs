//! What becomes of each row when the rows of a worktree are grouped.
use vstd::prelude::*;

use crate::group_update_laws::coherent;
use crate::group_update_laws::distinct_rows;
use crate::group_update_laws::group_in_place;
use crate::group_update_laws::has_file;
use crate::group_update_laws::lemma_keeps_order;
use crate::group_update_laws::lemma_same_row;
use crate::group_update_laws::lemma_with_groups_coherent;
use crate::group_update_laws::made_of;
use crate::group_update_laws::not_grouped;
use crate::rel_path::ancestor;
use crate::rel_path::within;
use crate::test_group_laws::has_own_group;
use crate::test_group_laws::law_each_directory_has_its_group;
use crate::test_group_laws::law_group_follows_its_directory;
use crate::test_group_laws::lemma_last_within;
use crate::test_groups::dir_parent;
use crate::test_groups::files_in;
use crate::test_groups::group_row;
use crate::test_groups::group_rows;
use crate::test_groups::grouped;
use crate::test_groups::last_within;
use crate::test_groups::lemma_test_dirs;
use crate::test_groups::rows_after;
use crate::test_groups::shown;
use crate::test_groups::test_dirs;
use crate::test_groups::with_groups;
use crate::test_groups::TestGroupsView;
use crate::worktree::listing;
use crate::worktree::GitEntryView;
use crate::worktree::SnapshotView;
use crate::worktree::NEW_ENTRY_ID;

verus! {

/// How many of the rows have this id.
pub open spec fn occurrences(rows: Seq<GitEntryView>, id: usize) -> nat
    decreases rows.len(),
{
    if rows.len() == 0 {
        0
    } else {
        let before = occurrences(rows.drop_last(), id);
        if rows.last().entry.id == id {
            before + 1
        } else {
            before
        }
    }
}

proof fn lemma_occurrences_add(a: Seq<GitEntryView>, b: Seq<GitEntryView>, id: usize)
    ensures
        occurrences(a + b, id) == occurrences(a, id) + occurrences(b, id),
    decreases b.len(),
{
    if b.len() == 0 {
        assert(a + b =~= a);
    } else {
        lemma_occurrences_add(a, b.drop_last(), id);
        assert((a + b).drop_last() =~= a + b.drop_last());
    }
}

proof fn lemma_occurrences(rows: Seq<GitEntryView>, id: usize)
    ensures
        occurrences(rows, id) > 0 <==> has_file(rows, id),
        distinct_rows(rows) && id != NEW_ENTRY_ID ==> occurrences(rows, id) <= 1,
    decreases rows.len(),
{
    if rows.len() > 0 {
        let init = rows.drop_last();
        lemma_occurrences(init, id);
        if distinct_rows(rows) {
            assert forall|i: int, j: int|
                0 <= i < j < init.len() && (#[trigger] init[i]).entry.id == (
                #[trigger] init[j]).entry.id implies init[i].entry.id == NEW_ENTRY_ID by {
                assert(rows[i].entry.id == rows[j].entry.id);
            }
        }
        if has_file(init, id) {
            let i = choose|i: int| 0 <= i < init.len() && (#[trigger] init[i]).entry.id == id;
            assert(rows[i].entry.id == id);
            assert(rows[rows.len() - 1] == rows.last());
        }
        if has_file(rows, id) {
            let i = choose|i: int| 0 <= i < rows.len() && (#[trigger] rows[i]).entry.id == id;
            if i < init.len() {
                assert(init[i].entry.id == id);
            }
        }
        if rows.last().entry.id == id {
            assert(rows[rows.len() - 1].entry.id == id);
        }
    }
}

proof fn lemma_occurrences_in_files(
    entries: Seq<GitEntryView>,
    accepted: Seq<bool>,
    dir: Seq<Seq<char>>,
    id: usize,
)
    ensures
        occurrences(files_in(entries, accepted, dir), id) <= occurrences(entries, id),
    decreases entries.len(),
{
    if entries.len() > 0 {
        let init = entries.drop_last();
        lemma_occurrences_in_files(init, accepted, dir, id);
        let before = files_in(init, accepted, dir);
        assert(before.push(entries.last()).drop_last() =~= before);
    }
}

/// Of the groups, only the one of `dir` puts this id into the list.
spec fn only_in(
    g: TestGroupsView,
    entries: Seq<GitEntryView>,
    snapshot: SnapshotView,
    accepted: Seq<bool>,
    dir: Seq<Seq<char>>,
    id: usize,
) -> bool {
    forall|other: Seq<Seq<char>>|
        other != dir ==> occurrences(
            #[trigger] group_rows(g, entries, snapshot, accepted, other),
            id,
        ) == 0
}

proof fn lemma_rows_after_occurrences(
    g: TestGroupsView,
    entries: Seq<GitEntryView>,
    snapshot: SnapshotView,
    accepted: Seq<bool>,
    dir: Seq<Seq<char>>,
    id: usize,
    i: int,
    levels: nat,
)
    requires
        only_in(g, entries, snapshot, accepted, dir, id),
        0 <= i < entries.len(),
    ensures
        occurrences(rows_after(g, entries, snapshot, accepted, i, levels), id) == if last_within(
            entries,
            dir,
            i,
        ) && entries[i].entry.path.len() - dir.len() < levels {
            occurrences(group_rows(g, entries, snapshot, accepted, dir), id)
        } else {
            0
        },
    decreases levels,
{
    if levels > 0 {
        let path = entries[i].entry.path;
        let up = (levels - 1) as nat;
        lemma_rows_after_occurrences(g, entries, snapshot, accepted, dir, id, i, up);
        match ancestor(path, up) {
            Some(above) => {
                lemma_occurrences_add(
                    rows_after(g, entries, snapshot, accepted, i, up),
                    group_rows(g, entries, snapshot, accepted, above),
                    id,
                );
                if path.len() - dir.len() == up && last_within(entries, dir, i) {
                    assert(above =~= dir);
                }
            },
            None => {},
        }
    }
}

proof fn lemma_shown_occurrences(
    g: TestGroupsView,
    entries: Seq<GitEntryView>,
    snapshot: SnapshotView,
    accepted: Seq<bool>,
    dir: Seq<Seq<char>>,
    id: usize,
    n: nat,
)
    requires
        only_in(g, entries, snapshot, accepted, dir, id),
        n <= entries.len(),
    ensures
        occurrences(shown(g, entries, snapshot, accepted, n), id) == (if g.members.contains_key(
            id,
        ) {
            0
        } else {
            occurrences(entries.take(n as int), id)
        }) + (if exists|i: int| 0 <= i < n && last_within(entries, dir, i) {
            occurrences(group_rows(g, entries, snapshot, accepted, dir), id)
        } else {
            0
        }),
    decreases n,
{
    if n > 0 {
        let i = n - 1;
        let e = entries[i];
        lemma_shown_occurrences(g, entries, snapshot, accepted, dir, id, i as nat);
        let before = shown(g, entries, snapshot, accepted, i as nat);
        let own = if g.members.contains_key(e.entry.id) {
            Seq::empty()
        } else {
            seq![e]
        };
        let levels = e.entry.path.len() + 1;
        let rows = rows_after(g, entries, snapshot, accepted, i, levels);
        lemma_occurrences_add(before, own, id);
        lemma_occurrences_add(before + own, rows, id);
        lemma_rows_after_occurrences(g, entries, snapshot, accepted, dir, id, i, levels);
        assert(seq![e].drop_last() =~= Seq::<GitEntryView>::empty());
        assert(occurrences(seq![e], id) == if e.entry.id == id {
            1nat
        } else {
            0
        }) by {
            reveal_with_fuel(occurrences, 2);
        }
        assert(entries.take(n as int).drop_last() =~= entries.take(i));
        if last_within(entries, dir, i) {
            assert forall|j: int| 0 <= j < i implies !last_within(entries, dir, j) by {
                assert(within(entries[i].entry.path, dir));
            }
        }
        if exists|j: int| 0 <= j < n && last_within(entries, dir, j) {
            let j = choose|j: int| 0 <= j < n && last_within(entries, dir, j);
            assert(j == i || 0 <= j < i);
        }
    } else {
        assert(entries.take(0) =~= Seq::<GitEntryView>::empty());
    }
}

/// No row has the id of a group.
pub open spec fn rows_have_own_ids(entries: Seq<GitEntryView>, g: TestGroupsView) -> bool {
    forall|i: int|
        0 <= i < entries.len() ==> !g.groups.contains_key((#[trigger] entries[i]).entry.id)
}

/// The row is there as before: in no group, and as often in the list as it was.
pub open spec fn row_stays(
    entries: Seq<GitEntryView>,
    now: TestGroupsView,
    list: Seq<GitEntryView>,
    id: usize,
) -> bool {
    &&& occurrences(list, id) == occurrences(entries, id)
    &&& forall|group: usize| #[trigger]
        now.groups.contains_key(group) ==> !has_file(now.groups[group].files, id)
}

/// The row is once in exactly one group, and in the list only with that group, once where it is
/// expanded.
pub open spec fn row_is_grouped(
    now: TestGroupsView,
    list: Seq<GitEntryView>,
    id: usize,
) -> bool {
    let own = now.members[id];
    &&& now.groups.contains_key(own)
    &&& occurrences(now.groups[own].files, id) == 1
    &&& forall|group: usize| #[trigger]
        now.groups.contains_key(group) && group != own ==> !has_file(now.groups[group].files, id)
    &&& occurrences(list, id) == if now.expanded.contains(now.groups[own].parent) {
        1nat
    } else {
        0
    }
}

/// What a group puts into the list: its row, and of rows only those of its files.
proof fn lemma_group_rows(
    g: TestGroupsView,
    entries: Seq<GitEntryView>,
    snapshot: SnapshotView,
    accepted: Seq<bool>,
    dir: Seq<Seq<char>>,
    id: usize,
)
    ensures
        ({
            let rows = group_rows(g, entries, snapshot, accepted, dir);
            let files = files_in(entries, accepted, dir);
            if files.len() > 0 && dir_parent(snapshot, dir) is Some {
                let parent = dir_parent(snapshot, dir)->0;
                &&& test_dirs(entries, accepted).contains(dir)
                &&& rows.len() > 0
                &&& rows[0] == group_row(files, dir, g.ids.by_parent[parent])
                &&& occurrences(rows, id) == (if g.ids.by_parent[parent] == id {
                    1nat
                } else {
                    0
                }) + (if g.expanded.contains(parent) {
                    occurrences(files, id)
                } else {
                    0
                })
            } else {
                rows.len() == 0
            }
        }),
{
    let files = files_in(entries, accepted, dir);
    lemma_test_dirs(entries, accepted);
    if files.len() > 0 && dir_parent(snapshot, dir) is Some {
        let parent = dir_parent(snapshot, dir)->0;
        let row = group_row(files, dir, g.ids.by_parent[parent]);
        lemma_occurrences_add(seq![row], files, id);
        lemma_occurrences_add(seq![row], Seq::empty(), id);
        assert(seq![row].drop_last() =~= Seq::<GitEntryView>::empty());
        reveal_with_fuel(occurrences, 2);
    }
}

/// Grouping the rows of a worktree loses none and shows none twice: each row stays, or is in
/// exactly one group.
pub proof fn law_each_row_stays_or_is_grouped(
    g: TestGroupsView,
    entries: Seq<GitEntryView>,
    snapshot: SnapshotView,
    accepted: Seq<bool>,
    reveal: Option<usize>,
    taken: spec_fn(usize) -> bool,
    i: int,
)
    requires
        coherent(g),
        listing(snapshot.entries),
        distinct_rows(entries),
        not_grouped(g, entries, snapshot.id),
        rows_have_own_ids(
            entries,
            grouped(g, entries, snapshot, accepted, reveal, taken).0,
        ),
        with_groups(
            g,
            entries,
            snapshot,
            accepted,
            reveal,
            taken,
            test_dirs(entries, accepted),
        ).1,
        0 <= i < entries.len(),
    ensures
        ({
            let (now, list) = grouped(g, entries, snapshot, accepted, reveal, taken);
            let id = entries[i].entry.id;
            if now.members.contains_key(id) {
                row_is_grouped(now, list, id)
            } else {
                row_stays(entries, now, list, id)
            }
        }),
{
    let dirs = test_dirs(entries, accepted);
    let (now, list) = grouped(g, entries, snapshot, accepted, reveal, taken);
    let id = entries[i].entry.id;
    lemma_test_dirs(entries, accepted);
    lemma_with_groups_coherent(g, entries, snapshot, accepted, reveal, taken, dirs);
    law_each_directory_has_its_group(g, entries, snapshot, accepted, reveal, taken, dirs);
    assert(entries.take(entries.len() as int) =~= entries);
    assert(!now.groups.contains_key(id));
    // The id of a group's row is another one.
    assert forall|dir: Seq<Seq<char>>|
        dirs.contains(dir) && dir_parent(snapshot, dir) is Some implies #[trigger] has_own_group(
        now,
        entries,
        snapshot,
        accepted,
        dir,
    ) && now.ids.by_parent[dir_parent(snapshot, dir)->0] != id by {}
    if now.members.contains_key(id) {
        let own = now.members[id];
        let group = now.groups[own];
        let dir = group.path;
        assert(group_in_place(now, own));
        let k = choose|k: int|
            0 <= k < group.files.len() && (#[trigger] group.files[k]).entry.id == id;
        assert(id != NEW_ENTRY_ID);
        assert(!g.members.contains_key(id));
        if g.groups.contains_key(own) {
            assert(group_in_place(g, own));
            assert(g.groups[own].files[k].entry.id == id);
        }
        assert(made_of(group, entries, snapshot, accepted, dirs));
        lemma_keeps_order(entries, accepted, dir);
        assert(entries.contains(group.files[k]));
        lemma_occurrences(group.files, id);
        lemma_occurrences(entries, id);
        lemma_occurrences_in_files(entries, accepted, dir, id);
        assert(occurrences(group.files, id) == 1);
        assert(only_in(now, entries, snapshot, accepted, dir, id)) by {
            assert forall|other: Seq<Seq<char>>| other != dir implies occurrences(
                #[trigger] group_rows(now, entries, snapshot, accepted, other),
                id,
            ) == 0 by {
                lemma_group_rows(now, entries, snapshot, accepted, other, id);
                let files = files_in(entries, accepted, other);
                lemma_occurrences(files, id);
                if files.len() > 0 && dir_parent(snapshot, other) is Some {
                    assert(dirs.contains(other));
                    assert(has_own_group(now, entries, snapshot, accepted, other));
                    if has_file(files, id) {
                        let j = choose|j: int|
                            0 <= j < files.len() && (#[trigger] files[j]).entry.id == id;
                        lemma_keeps_order(entries, accepted, other);
                        assert(entries.contains(files[j]));
                        lemma_same_row(entries, files[j], group.files[k]);
                    }
                }
            }
        }
        lemma_group_rows(now, entries, snapshot, accepted, dir, id);
        lemma_shown_occurrences(now, entries, snapshot, accepted, dir, id, entries.len());
        assert(has_own_group(now, entries, snapshot, accepted, dir));
        let at = entries.index_of(group.files[k]);
        assert(within(entries[at].entry.path, dir)) by {
            let path = entries[at].entry.path;
            assert(path.take(dir.len() as int) =~= path.drop_last());
        }
        let last = lemma_last_within(entries, dir, at);
        assert forall|other: usize| #[trigger]
            now.groups.contains_key(other) && other != own implies !has_file(
            now.groups[other].files,
            id,
        ) by {
            assert(group_in_place(now, other));
        }
    } else {
        let dir = Seq::<Seq<char>>::empty();
        assert forall|other: Seq<Seq<char>>| occurrences(
            #[trigger] group_rows(now, entries, snapshot, accepted, other),
            id,
        ) == 0 by {
            lemma_group_rows(now, entries, snapshot, accepted, other, id);
            let files = files_in(entries, accepted, other);
            lemma_occurrences(files, id);
            if files.len() > 0 && dir_parent(snapshot, other) is Some {
                assert(dirs.contains(other));
                assert(has_own_group(now, entries, snapshot, accepted, other));
                let own = now.ids.by_parent[dir_parent(snapshot, other)->0];
                assert(group_in_place(now, own));
                if has_file(files, id) {
                    let j = choose|j: int|
                        0 <= j < files.len() && (#[trigger] files[j]).entry.id == id;
                    assert(now.groups[own].files[j].entry.id == id);
                }
            }
        }
        lemma_shown_occurrences(now, entries, snapshot, accepted, dir, id, entries.len());
        assert forall|other: usize| #[trigger] now.groups.contains_key(other) implies !has_file(
            now.groups[other].files,
            id,
        ) by {
            assert(group_in_place(now, other));
        }
    }
}

/// The row of each group that is made is in the list, and once.
pub proof fn law_each_group_has_one_row(
    g: TestGroupsView,
    entries: Seq<GitEntryView>,
    snapshot: SnapshotView,
    accepted: Seq<bool>,
    reveal: Option<usize>,
    taken: spec_fn(usize) -> bool,
    id: usize,
)
    requires
        coherent(g),
        listing(snapshot.entries),
        distinct_rows(entries),
        not_grouped(g, entries, snapshot.id),
        rows_have_own_ids(
            entries,
            grouped(g, entries, snapshot, accepted, reveal, taken).0,
        ),
        with_groups(
            g,
            entries,
            snapshot,
            accepted,
            reveal,
            taken,
            test_dirs(entries, accepted),
        ).1,
        grouped(g, entries, snapshot, accepted, reveal, taken).0.groups.contains_key(id),
        !g.groups.contains_key(id),
    ensures
        ({
            let (now, list) = grouped(g, entries, snapshot, accepted, reveal, taken);
            let group = now.groups[id];
            &&& occurrences(list, id) == 1
            &&& list.contains(group_row(group.files, group.path, id))
        }),
{
    let dirs = test_dirs(entries, accepted);
    let (now, list) = grouped(g, entries, snapshot, accepted, reveal, taken);
    lemma_test_dirs(entries, accepted);
    lemma_with_groups_coherent(g, entries, snapshot, accepted, reveal, taken, dirs);
    law_each_directory_has_its_group(g, entries, snapshot, accepted, reveal, taken, dirs);
    let group = now.groups[id];
    let dir = group.path;
    assert(entries.take(entries.len() as int) =~= entries);
    assert(group_in_place(now, id));
    assert(made_of(group, entries, snapshot, accepted, dirs));
    lemma_occurrences(entries, id);
    if has_file(entries, id) {
        let k = choose|k: int| 0 <= k < entries.len() && (#[trigger] entries[k]).entry.id == id;
        assert(now.groups.contains_key(entries[k].entry.id));
    }
    assert forall|other: Seq<Seq<char>>| occurrences(
        #[trigger] group_rows(now, entries, snapshot, accepted, other),
        id,
    ) == if other == dir {
        1nat
    } else {
        0
    } by {
        lemma_group_rows(now, entries, snapshot, accepted, other, id);
        lemma_occurrences_in_files(entries, accepted, other, id);
        let files = files_in(entries, accepted, other);
        if files.len() > 0 && dir_parent(snapshot, other) is Some {
            assert(dirs.contains(other));
            assert(has_own_group(now, entries, snapshot, accepted, other));
            if now.ids.by_parent[dir_parent(snapshot, other)->0] == id {
                assert(now.groups[id].path == other);
            }
        }
    }
    lemma_shown_occurrences(now, entries, snapshot, accepted, dir, id, entries.len());
    lemma_keeps_order(entries, accepted, dir);
    assert(entries.contains(group.files[0]));
    let at = entries.index_of(group.files[0]);
    assert(within(entries[at].entry.path, dir)) by {
        let path = entries[at].entry.path;
        assert(path.take(dir.len() as int) =~= path.drop_last());
    }
    let last = lemma_last_within(entries, dir, at);
    let from = law_group_follows_its_directory(now, entries, snapshot, accepted, dir, last);
    lemma_group_rows(now, entries, snapshot, accepted, dir, id);
    let own = group_rows(now, entries, snapshot, accepted, dir);
    assert(list.subrange(from, from + own.len())[0] == list[from]);
    assert(list[from] == group_row(group.files, group.path, id));
}

/// The row is an old one, or that of a group that was made.
pub open spec fn row_is_known(
    g: TestGroupsView,
    entries: Seq<GitEntryView>,
    now: TestGroupsView,
    row: GitEntryView,
) -> bool {
    ||| entries.contains(row)
    ||| now.groups.contains_key(row.entry.id) && !g.groups.contains_key(row.entry.id) && row
        == group_row(
        now.groups[row.entry.id].files,
        now.groups[row.entry.id].path,
        row.entry.id,
    )
}

proof fn lemma_known_rows_after(
    g: TestGroupsView,
    entries: Seq<GitEntryView>,
    snapshot: SnapshotView,
    accepted: Seq<bool>,
    now: TestGroupsView,
    i: int,
    levels: nat,
    k: int,
)
    requires
        forall|dir: Seq<Seq<char>>, j: int|
            #![trigger group_rows(now, entries, snapshot, accepted, dir)[j]]
            0 <= j < group_rows(now, entries, snapshot, accepted, dir).len() ==> row_is_known(
                g,
                entries,
                now,
                group_rows(now, entries, snapshot, accepted, dir)[j],
            ),
        0 <= k < rows_after(now, entries, snapshot, accepted, i, levels).len(),
    ensures
        row_is_known(
            g,
            entries,
            now,
            rows_after(now, entries, snapshot, accepted, i, levels)[k],
        ),
    decreases levels,
{
    let up = (levels - 1) as nat;
    let deeper = rows_after(now, entries, snapshot, accepted, i, up);
    if k < deeper.len() {
        lemma_known_rows_after(g, entries, snapshot, accepted, now, i, up, k);
    } else {
        let dir = ancestor(entries[i].entry.path, up)->0;
        let rows = group_rows(now, entries, snapshot, accepted, dir);
        assert(rows_after(now, entries, snapshot, accepted, i, levels)[k] == rows[k
            - deeper.len()]);
    }
}

proof fn lemma_known_shown(
    g: TestGroupsView,
    entries: Seq<GitEntryView>,
    snapshot: SnapshotView,
    accepted: Seq<bool>,
    now: TestGroupsView,
    n: nat,
    k: int,
)
    requires
        forall|dir: Seq<Seq<char>>, j: int|
            #![trigger group_rows(now, entries, snapshot, accepted, dir)[j]]
            0 <= j < group_rows(now, entries, snapshot, accepted, dir).len() ==> row_is_known(
                g,
                entries,
                now,
                group_rows(now, entries, snapshot, accepted, dir)[j],
            ),
        n <= entries.len(),
        0 <= k < shown(now, entries, snapshot, accepted, n).len(),
    ensures
        row_is_known(g, entries, now, shown(now, entries, snapshot, accepted, n)[k]),
    decreases n,
{
    let i = n - 1;
    let e = entries[i];
    let before = shown(now, entries, snapshot, accepted, i as nat);
    let own = if now.members.contains_key(e.entry.id) {
        Seq::empty()
    } else {
        seq![e]
    };
    let levels = e.entry.path.len() + 1;
    let list = shown(now, entries, snapshot, accepted, n);
    if k < before.len() {
        lemma_known_shown(g, entries, snapshot, accepted, now, i as nat, k);
    } else if k < before.len() + own.len() {
        assert(list[k] == e);
        assert(entries.contains(e));
    } else {
        let from = before.len() + own.len();
        assert(list[k] == rows_after(now, entries, snapshot, accepted, i, levels)[k - from]);
        lemma_known_rows_after(g, entries, snapshot, accepted, now, i, levels, k - from);
    }
}

/// Nothing is shown but the old rows, and the rows of the groups that are made.
pub proof fn law_nothing_else_is_shown(
    g: TestGroupsView,
    entries: Seq<GitEntryView>,
    snapshot: SnapshotView,
    accepted: Seq<bool>,
    reveal: Option<usize>,
    taken: spec_fn(usize) -> bool,
    k: int,
)
    requires
        coherent(g),
        listing(snapshot.entries),
        distinct_rows(entries),
        not_grouped(g, entries, snapshot.id),
        0 <= k < grouped(g, entries, snapshot, accepted, reveal, taken).1.len(),
    ensures
        ({
            let (now, list) = grouped(g, entries, snapshot, accepted, reveal, taken);
            row_is_known(g, entries, now, list[k])
        }),
{
    let dirs = test_dirs(entries, accepted);
    let (now, list) = grouped(g, entries, snapshot, accepted, reveal, taken);
    if !with_groups(g, entries, snapshot, accepted, reveal, taken, dirs).1 {
        assert(entries.contains(list[k]));
    } else {
        lemma_test_dirs(entries, accepted);
        lemma_with_groups_coherent(g, entries, snapshot, accepted, reveal, taken, dirs);
        law_each_directory_has_its_group(g, entries, snapshot, accepted, reveal, taken, dirs);
        assert forall|dir: Seq<Seq<char>>, j: int|
            #![trigger group_rows(now, entries, snapshot, accepted, dir)[j]]
            0 <= j < group_rows(now, entries, snapshot, accepted, dir).len() implies row_is_known(
            g,
            entries,
            now,
            group_rows(now, entries, snapshot, accepted, dir)[j],
        ) by {
            let rows = group_rows(now, entries, snapshot, accepted, dir);
            let files = files_in(entries, accepted, dir);
            lemma_group_rows(now, entries, snapshot, accepted, dir, 0);
            lemma_keeps_order(entries, accepted, dir);
            assert(has_own_group(now, entries, snapshot, accepted, dir));
            if j > 0 {
                assert(rows[j] == files[j - 1]);
            } else {
                let parent = dir_parent(snapshot, dir)->0;
                let id = now.ids.by_parent[parent];
                if g.groups.contains_key(id) {
                    assert(now.groups[id] == g.groups[id]);
                    assert(g.groups[id].parent.worktree_id != snapshot.id);
                }
            }
        }
        lemma_known_shown(g, entries, snapshot, accepted, now, entries.len(), k);
    }
}

} // verus!
