use project_panel::rel_path::RelPath;
use project_panel::test_groups::SelectedEntry;
use project_panel::test_groups::TestGroups;
use project_panel::worktree::Entry;
use project_panel::worktree::EntryKind;
use project_panel::worktree::GitEntry;
use project_panel::worktree::GitSummary;
use project_panel::worktree::Snapshot;
use project_panel::worktree::NEW_ENTRY_ID;

fn rel_path(text: &str) -> RelPath {
    RelPath::from_unix_str(text).expect("valid path")
}

fn entry(id: usize, path: &str, is_dir: bool) -> Entry {
    Entry {
        id,
        kind: if is_dir { EntryKind::Dir } else { EntryKind::File },
        path: rel_path(path),
        inode: id as u64,
        mtime: None,
        size: 0,
        is_fifo: false,
        is_ignored: false,
        canonical_path: Some("/elsewhere".into()),
    }
}

/// Entries at these paths, in their order; those that end with `/` are directories. The ids are
/// their positions.
fn rows(paths: &[&str]) -> Vec<GitEntry> {
    paths
        .iter()
        .enumerate()
        .map(|(id, path)| GitEntry {
            entry: entry(id, path.trim_end_matches('/'), path.is_empty() || path.ends_with('/')),
            git_summary: GitSummary { conflict: id, count: 1, ..GitSummary::default() },
        })
        .collect()
}

fn snapshot(rows: &[GitEntry]) -> Snapshot {
    let mut entries: Vec<Entry> = rows.iter().map(|row| row.entry.clone()).collect();
    entries.sort_by_key(|e| {
        e.path.as_unix_str().split('/').map(|part| part.to_string()).collect::<Vec<String>>()
    });
    entries.retain(|e| e.id != NEW_ENTRY_ID);
    Snapshot::new(1, "/root".into(), entries).expect("listing")
}

fn shown(rows: &[GitEntry]) -> Vec<String> {
    rows.iter().map(|row| row.entry.path.as_unix_str()).collect()
}

fn globs() -> Vec<project_panel::patterns::NameGlob> {
    TestGroups::patterns(&["*_test.rs".to_string(), "[".to_string(), "test_*".to_string()])
}

const PATHS: [&str; 8] =
    ["", "a/", "a/b/", "a/b/x_test.rs", "a/b/y.rs", "a/test_z", "a/w_test.rs", "top.rs"];

#[test]
fn unusable_patterns_are_left_out() {
    let globs = globs();
    assert_eq!(globs.len(), 2);
    assert!(globs[0].is_match("x_test.rs"));
    assert!(!globs[0].is_match("test_x"));
    assert!(globs[1].is_match("test_x"));
}

#[test]
fn files_are_grouped_at_the_end_of_their_directory() {
    let mut list = rows(&PATHS);
    let tree = snapshot(&list);
    let mut groups = TestGroups::default();
    groups.group_entries(&mut list, &tree, &globs(), None, |id| id < PATHS.len());
    assert_eq!(
        shown(&list),
        ["", "a", "a/b", "a/b/y.rs", "a/b/\0tests", "a/\0tests", "top.rs"]
    );
    let row = &list[5];
    assert_eq!(row.entry.id, NEW_ENTRY_ID - 2);
    assert_eq!(row.entry.kind, EntryKind::Dir);
    assert_eq!(row.entry.canonical_path, None);
    assert_eq!(row.entry.inode, 5);
    assert_eq!(row.git_summary.conflict, 11);
    assert_eq!(row.git_summary.count, 2);
    let group = groups.groups.get(&row.entry.id).expect("group");
    assert_eq!(group.parent, SelectedEntry { worktree_id: 1, entry_id: 1 });
    assert_eq!(group.path, rel_path("a"));
    assert_eq!(shown(&group.files), ["a/test_z", "a/w_test.rs"]);
    assert_eq!(groups.members.get(&6), Some(&row.entry.id));
    assert_eq!(groups.members.get(&4), None);
    assert!(!groups.expanded.contains_key(&group.parent));
}

#[test]
fn revealed_files_have_their_group_expanded() {
    let mut list = rows(&PATHS);
    let tree = snapshot(&list);
    let mut groups = TestGroups::default();
    groups.group_entries(&mut list, &tree, &globs(), Some(6), |id| id < PATHS.len());
    assert_eq!(
        shown(&list),
        [
            "", "a", "a/b", "a/b/y.rs", "a/b/\0tests", "a/\0tests", "a/test_z", "a/w_test.rs",
            "top.rs"
        ]
    );
    assert!(groups.expanded.contains_key(&SelectedEntry { worktree_id: 1, entry_id: 1 }));
}

#[test]
fn ids_outlast_updates_unless_a_real_entry_takes_them() {
    let tree = snapshot(&rows(&PATHS));
    let mut groups = TestGroups::default();
    let group_ids = |groups: &mut TestGroups, real: usize| {
        let mut list = rows(&PATHS);
        groups.begin_update(|parent| parent.entry_id != 2 || real != 0);
        assert_eq!(groups.groups.len(), 0);
        assert_eq!(groups.members.len(), 0);
        groups.group_entries(&mut list, &tree, &globs(), None, |id| id < 8 || id == real);
        (list[4].entry.id, list[5].entry.id)
    };
    assert_eq!(group_ids(&mut groups, 1), (NEW_ENTRY_ID - 1, NEW_ENTRY_ID - 2));
    assert_eq!(group_ids(&mut groups, 1), (NEW_ENTRY_ID - 1, NEW_ENTRY_ID - 2));
    let taken = NEW_ENTRY_ID - 1;
    assert_eq!(group_ids(&mut groups, taken), (NEW_ENTRY_ID - 3, NEW_ENTRY_ID - 2));
    // The directory with id 2 is forgotten, and gets a new id.
    assert_eq!(group_ids(&mut groups, 0), (NEW_ENTRY_ID - 4, NEW_ENTRY_ID - 2));
}

#[test]
fn expanded_groups_stay_so_while_their_directory_is_there() {
    let tree = snapshot(&rows(&PATHS));
    let mut groups = TestGroups::default();
    let parent = SelectedEntry { worktree_id: 1, entry_id: 2 };
    groups.expanded.insert(parent, ());
    groups.begin_update(|_| true);
    let mut list = rows(&PATHS);
    groups.group_entries(&mut list, &tree, &globs(), None, |id| id < 8);
    assert_eq!(list.len(), 8);
    assert_eq!(list[5].entry.path, rel_path("a/b/x_test.rs"));
    groups.begin_update(|_| false);
    assert!(!groups.expanded.contains_key(&parent));
}

#[test]
fn the_row_of_a_new_entry_and_unknown_directories_are_left_alone() {
    let mut list = rows(&["", "dir/", "dir/test_a"]);
    list[2].entry.id = NEW_ENTRY_ID;
    let tree = snapshot(&list);
    let mut groups = TestGroups::default();
    groups.group_entries(&mut list, &tree, &globs(), None, |_| false);
    assert_eq!(shown(&list), ["", "dir", "dir/test_a"]);

    let mut list = rows(&["", "dir/", "dir/test_a"]);
    let empty = Snapshot::new(1, "/root".into(), vec![]).expect("listing");
    groups.group_entries(&mut list, &empty, &globs(), None, |_| false);
    assert_eq!(shown(&list), ["", "dir", "dir/test_a"]);
    assert_eq!(groups.groups.len(), 0);
}

#[test]
fn ids_of_real_entries_are_passed_over() {
    let mut list = rows(&["", "test_a"]);
    let tree = snapshot(&list);
    let mut groups = TestGroups::default();
    let last = NEW_ENTRY_ID - 1;
    groups.group_entries(&mut list, &tree, &globs(), None, |id| id < 2 || id == last);
    assert_eq!(list[1].entry.id, NEW_ENTRY_ID - 2);
    assert_eq!(list[1].entry.path, rel_path("\0tests"));
}

#[test]
fn accepted_files_are_grouped_whatever_their_names() {
    let mut list = rows(&["", "dir/", "dir/a", "dir/b", "dir/c"]);
    let tree = snapshot(&list);
    let mut groups = TestGroups::default();
    let accepted = vec![true, true, false, true, true];
    groups.group_accepted(&mut list, &tree, &accepted, Some(3), |id| id < 5);
    // Directories are no test files, even if their names are accepted.
    assert_eq!(shown(&list), ["", "dir", "dir/a", "dir/\0tests", "dir/b", "dir/c"]);
    assert_eq!(list[3].git_summary.conflict, 7);
    let copy = groups.clone();
    assert_eq!(copy.groups.len(), 1);
    assert_eq!(copy.members.get(&4), Some(&list[3].entry.id));
    assert_eq!(copy.members.get(&2), None);
    assert!(copy.expanded.contains_key(&SelectedEntry { worktree_id: 1, entry_id: 1 }));
}

#[test]
fn groups_of_two_worktrees_do_not_share_ids() {
    let mut groups = TestGroups::default();
    let mut first = rows(&["", "test_a"]);
    let tree = snapshot(&first);
    groups.group_entries(&mut first, &tree, &globs(), None, |id| id < 8);
    let mut second = rows(&["", "test_b"]);
    for row in &mut second {
        row.entry.id += 4;
    }
    let entries = second.iter().map(|row| row.entry.clone()).collect();
    let tree = Snapshot::new(2, "/other".into(), entries).expect("listing");
    groups.group_entries(&mut second, &tree, &globs(), None, |id| id < 8);
    assert_eq!(first[1].entry.id, NEW_ENTRY_ID - 1);
    assert_eq!(second[1].entry.id, NEW_ENTRY_ID - 2);
    assert_eq!(groups.groups.len(), 2);
}

#[test]
fn snapshots_list_each_path_and_id_once() {
    let twice = vec![entry(1, "a", false), entry(2, "a", false)];
    assert!(Snapshot::new(1, "/root".into(), twice).is_none());
    let same_id = vec![entry(1, "a", false), entry(1, "b", false)];
    assert!(Snapshot::new(1, "/root".into(), same_id).is_none());
    let disordered = vec![entry(1, "b", false), entry(2, "a", false)];
    assert!(Snapshot::new(1, "/root".into(), disordered).is_none());
    let tree = Snapshot::new(1, "/root".into(), vec![entry(1, "a", true), entry(2, "a/b", false)])
        .expect("listing");
    assert_eq!(tree.entry_for_path(&rel_path("a/b")).map(|e| e.id), Some(2));
    assert!(tree.entry_for_path(&rel_path("b")).is_none());
}

#[test]
fn unusable_patterns_are_told_with_their_errors() {
    let patterns = ["*_test.rs".to_string(), "[".to_string(), "{a".to_string()];
    let (globs, refused) = TestGroups::compile_patterns(&patterns);
    assert_eq!(globs.len(), 1);
    assert!(globs[0].is_match("a_test.rs"));
    let refused: Vec<(&str, &str)> =
        refused.iter().map(|glob| (glob.pattern.as_str(), glob.error.message.as_str())).collect();
    assert_eq!(refused[0], ("[", "error parsing glob '[': unclosed character class; missing ']'"));
    assert_eq!(refused[1].0, "{a");
    assert_eq!(refused.len(), 2);
}

#[test]
fn counts_that_cannot_be_held_leave_the_rows_as_they_are() {
    let mut list = rows(&["", "test_a", "test_b", "top.rs"]);
    let tree = snapshot(&list);
    let mut groups = TestGroups::default();
    list[1].git_summary.count = usize::MAX;
    assert!(!groups.group_entries_if_held(&mut list, &tree, &globs(), None, |id| id < 8));
    assert_eq!(shown(&list), ["", "test_a", "test_b", "top.rs"]);
    assert_eq!(groups.groups.len(), 0);
    // What is in no group does not count.
    list[1].git_summary.count = usize::MAX - 1;
    list[3].git_summary.count = usize::MAX;
    assert!(groups.group_entries_if_held(&mut list, &tree, &globs(), None, |id| id < 8));
    assert_eq!(shown(&list), ["", "top.rs", "\0tests"]);
    assert_eq!(list[2].git_summary.count, usize::MAX);
}

#[test]
fn members_and_groups_name_each_other_over_all_worktrees() {
    let mut groups = TestGroups::default();
    groups.begin_update(|_| true);
    let mut first = rows(&PATHS);
    let tree = snapshot(&first);
    groups.group_entries(&mut first, &tree, &globs(), None, |id| id < 16);
    let early: Vec<(usize, Vec<String>)> =
        groups.groups.iter().map(|(id, group)| (*id, shown(&group.files))).collect();
    assert_eq!(early.len(), 2);
    let mut second = rows(&["", "d/", "d/test_q", "d/p_test.rs", "test_r"]);
    for row in &mut second {
        row.entry.id += 8;
    }
    let mut entries: Vec<Entry> = second.iter().map(|row| row.entry.clone()).collect();
    entries.swap(2, 3);
    let other = Snapshot::new(2, "/other".into(), entries).expect("listing");
    groups.group_entries(&mut second, &other, &globs(), None, |id| id < 16);
    for (id, files) in early {
        assert_eq!(shown(&groups.groups.get(&id).expect("earlier group").files), files);
    }
    let mut files = 0;
    for (id, group) in &groups.groups {
        assert!(!group.files.is_empty());
        for file in &group.files {
            assert_eq!(groups.members.get(&file.entry.id), Some(id));
            assert_eq!(file.entry.path.parent(), Some(group.path.clone()));
        }
        files += group.files.len();
    }
    assert_eq!(groups.groups.len(), 4);
    assert_eq!(groups.members.len(), files);
    let d = groups.groups.get(groups.members.get(&10).expect("member")).expect("group");
    assert_eq!(shown(&d.files), ["d/test_q", "d/p_test.rs"]);
}

#[test]
fn each_row_stays_or_is_in_one_group() {
    let before = rows(&PATHS);
    let tree = snapshot(&before);
    for reveal in [None, Some(3)] {
        let mut list = rows(&PATHS);
        let mut groups = TestGroups::default();
        groups.group_entries(&mut list, &tree, &globs(), reveal, |id| id < PATHS.len());
        let count =
            |rows: &[GitEntry], id: usize| rows.iter().filter(|row| row.entry.id == id).count();
        for row in &before {
            let id = row.entry.id;
            let holding = groups.groups.values().filter(|group| count(&group.files, id) == 1).count();
            match groups.group_of(id) {
                None => {
                    assert_eq!(count(&list, id), 1);
                    assert_eq!(holding, 0);
                }
                Some(group) => {
                    let parent = groups.group(group).expect("group").parent;
                    assert_eq!(count(&list, id), usize::from(groups.is_expanded(&parent)));
                    assert_eq!(holding, 1);
                }
            }
        }
        for id in groups.groups.keys() {
            assert_eq!(count(&list, *id), 1);
        }
        assert!(list.iter().all(|row| row.entry.id < 8 || groups.group(row.entry.id).is_some()));
        assert!(groups.group(3).is_none());
    }
}

#[test]
fn groups_are_coherent_whatever_is_said_of_the_ids() {
    let mut list = rows(&PATHS);
    let tree = snapshot(&list);
    let mut groups = TestGroups::default();
    // Every other answer is that the id is real.
    let asked = std::cell::Cell::new(0);
    groups.group_entries(&mut list, &tree, &globs(), None, |_| {
        asked.set(asked.get() + 1);
        asked.get() % 2 == 1
    });
    assert_eq!(asked.get(), 4);
    let ids = [NEW_ENTRY_ID - 2, NEW_ENTRY_ID - 4];
    assert_eq!(
        shown(&list),
        ["", "a", "a/b", "a/b/y.rs", "a/b/\0tests", "a/\0tests", "top.rs"]
    );
    assert_eq!([list[4].entry.id, list[5].entry.id], ids);
    assert_eq!(groups.group_of(3), Some(ids[0]));
    assert_eq!(groups.group_of(5), Some(ids[1]));
    assert_eq!(groups.group_of(6), Some(ids[1]));
    let copy = groups.clone();
    assert_eq!(shown(&copy.group(ids[1]).expect("group").files), ["a/test_z", "a/w_test.rs"]);
    assert_eq!(copy.group_of(3), Some(ids[0]));
}
