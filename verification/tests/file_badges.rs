use project_panel::badge::Badge;
use project_panel::badge::FileBadgeRule;
use project_panel::badge::IconName;
use project_panel::badge::IconSet;
use project_panel::badge::IconSize;
use project_panel::badge::RuleError;
use project_panel::badge::RuleScope;
use project_panel::badges::Badges;
use project_panel::cache::CacheRead;
use project_panel::cache::CachedFile;
use project_panel::cache::PersistedCache;
use project_panel::cache::WorktreeInput;
use project_panel::cache::CACHE_VERSION;
use project_panel::file_badges::saves_caches;
use project_panel::file_badges::FileBadges;
use project_panel::file_badges::PathChange;
use project_panel::file_badges::PathUpdate;
use project_panel::file_badges::ProjectEvent;
use project_panel::file_badges::VisibleTree;
use project_panel::matcher::Matcher;
use project_panel::order::Rank;
use project_panel::plan::PendingRead;
use project_panel::plan::MAX_FILE_SIZE;
use project_panel::read::after_read;
use project_panel::read::before_read;
use project_panel::read::tabulate;
use project_panel::read::BeforeRead;
use project_panel::read::Metadata;
use project_panel::rel_path::RelPath;
use project_panel::root::is_same_root;
use project_panel::rules::compile_rule;
use project_panel::rules::message_of_rule;
use project_panel::rules::pick_rules;
use project_panel::rules::CompiledRule;
use project_panel::rules::Matchers;
use project_panel::sorted_map::SortedMap;
use project_panel::worker::Output;
use project_panel::worker::Request;
use project_panel::worker::Step;
use project_panel::worker::Worker;
use project_panel::worktree::Entry;
use project_panel::worktree::EntryKind;
use project_panel::worktree::MTime;
use project_panel::worktree::Snapshot;
use std::collections::BTreeMap;

const TREE: usize = 7;

struct DiskFile {
    bytes: Vec<u8>,
    inode: u64,
    mtime: MTime,
    is_fifo: bool,
    is_ignored: bool,
}

/// The files below `/root`, by their components.
struct Disk {
    files: BTreeMap<Vec<String>, DiskFile>,
    clock: u64,
}

fn parts(path: &str) -> Vec<String> {
    path.split('/').map(|part| part.to_string()).collect()
}

impl Disk {
    fn new(files: &[(&str, &str)]) -> Disk {
        let mut disk = Disk { files: BTreeMap::new(), clock: 0 };
        for (path, text) in files {
            disk.insert(path, text.as_bytes().to_vec());
        }
        disk
    }

    fn insert(&mut self, path: &str, bytes: Vec<u8>) {
        self.clock += 1;
        let mtime = MTime { secs: self.clock, nanos: 0 };
        let inode = self.files.get(&parts(path)).map_or(100 + self.clock, |file| file.inode);
        let file = DiskFile { bytes, inode, mtime, is_fifo: false, is_ignored: false };
        self.files.insert(parts(path), file);
    }

    fn remove(&mut self, path: &str) {
        self.files.remove(&parts(path)).expect("file to remove");
    }

    fn rename(&mut self, from: &str, to: &str) {
        let file = self.files.remove(&parts(from)).expect("file to rename");
        self.files.insert(parts(to), file);
    }

    fn metadata(&self, path: &str) -> Option<Metadata> {
        self.files.get(&parts(path)).map(|file| Metadata {
            inode: file.inode,
            mtime: file.mtime,
            len: file.bytes.len() as u64,
            is_dir: false,
            is_fifo: file.is_fifo,
        })
    }

    fn snapshot(&self) -> Snapshot {
        let mut paths: BTreeMap<Vec<String>, Option<&DiskFile>> = BTreeMap::new();
        paths.insert(vec![], None);
        for (path, file) in &self.files {
            for n in 1..path.len() {
                paths.insert(path[..n].to_vec(), None);
            }
            paths.insert(path.clone(), Some(file));
        }
        let entries = paths
            .iter()
            .enumerate()
            .map(|(id, (path, file))| Entry {
                id,
                kind: if file.is_some() { EntryKind::File } else { EntryKind::Dir },
                path: rel_path(&path.join("/")),
                inode: file.map_or(1, |file| file.inode),
                mtime: file.map(|file| file.mtime),
                size: file.map_or(0, |file| file.bytes.len() as u64),
                is_fifo: file.is_some_and(|file| file.is_fifo),
                is_ignored: file.is_some_and(|file| file.is_ignored),
                canonical_path: None,
            })
            .collect();
        Snapshot::new(TREE, "/root".to_string(), entries).expect("listing")
    }
}

fn rel_path(text: &str) -> RelPath {
    RelPath::from_unix_str(text).expect("valid path")
}

/// A database that hands out what it was given, or a text that is no cache.
#[derive(Default)]
struct Database {
    caches: BTreeMap<String, PersistedCache>,
    broken: BTreeMap<String, String>,
}

fn copy_matches(matches: &SortedMap<String, bool>) -> SortedMap<String, bool> {
    let mut copy = SortedMap::new();
    for i in 0..matches.len() {
        let (name, matched) = matches.at(i);
        copy.insert(name.clone(), *matched);
    }
    copy
}

fn copy_cache(cache: &PersistedCache) -> PersistedCache {
    let mut files = SortedMap::new();
    for i in 0..cache.files.len() {
        let (path, file) = cache.files.at(i);
        let copy = CachedFile { version: file.version, matches: copy_matches(&file.matches) };
        files.insert(path.clone(), copy);
    }
    PersistedCache { version: cache.version, files }
}

impl Database {
    fn read(&self, key: &str) -> CacheRead {
        if let Some(text) = self.broken.get(key) {
            let error = serde_json::from_str::<serde_json::Value>(text).expect_err("broken json");
            return CacheRead::Corrupt(error.to_string());
        }
        match self.caches.get(key) {
            Some(cache) => CacheRead::Found(copy_cache(cache)),
            None => CacheRead::Missing,
        }
    }

    fn persist(&mut self, worker: &mut Worker) -> Vec<String> {
        let mut errors = vec![];
        for id in worker.unsaved() {
            let cache = worker.cache(id).expect("unsaved cache");
            self.broken.remove(&cache.key);
            self.caches.insert(cache.key.clone(), copy_cache(&cache.data));
            errors.extend(worker.saved(id, Ok(())));
        }
        errors
    }
}

fn icons() -> IconSet {
    let mut icons = IconSet::new();
    icons.insert("binary".to_string(), "Binary".to_string());
    icons.insert("code".to_string(), "Code".to_string());
    icons
}

fn read_file(disk: &Disk, read: &PendingRead) -> Result<SortedMap<String, bool>, String> {
    let path = read.path.as_unix_str();
    match before_read(disk.metadata(&path), &read.matchers) {
        BeforeRead::Failed(error) => Err(error),
        BeforeRead::Settled(results) => Ok(results),
        BeforeRead::Read(limit, before) => {
            let file = &disk.files[&parts(&path)];
            let bytes = file.bytes.iter().copied().take(limit as usize).collect();
            after_read(&before, disk.metadata(&path), &read.version, &bytes, &read.matchers)
        }
    }
}

/// A worker with counts of what it read and evaluated.
struct Counting {
    worker: Option<Worker>,
    reads: usize,
    evaluations: usize,
}

impl Counting {
    fn new() -> Counting {
        Counting { worker: Some(Worker::default()), reads: 0, evaluations: 0 }
    }

    fn process(&mut self, request: Request, disk: &Disk, database: &Database) -> Output {
        let mut step = self.worker.take().expect("worker").begin(request, &icons());
        loop {
            step = match step {
                Step::Open(tree) => {
                    let root = tree.root().clone();
                    let read = database.read(&root);
                    tree.opened(Ok((root, read)))
                }
                Step::Read(tree) => {
                    let mut tree = tree;
                    // What comes first from the file system is not what was asked for first.
                    for i in (0..tree.pending().len()).rev() {
                        let read = &tree.pending()[i];
                        self.reads += 1;
                        self.evaluations += read.matchers.len();
                        let result = read_file(disk, read);
                        tree = tree.record(i, result);
                    }
                    tree.finish()
                }
                Step::Done(worker, output) => {
                    self.worker = Some(worker);
                    return output;
                }
            };
        }
    }

    fn persist(&mut self, database: &mut Database) -> Vec<String> {
        database.persist(self.worker.as_mut().expect("worker"))
    }
}

fn rule(level: u32) -> FileBadgeRule {
    FileBadgeRule {
        filename: "{BUILD,*.bazel}".into(),
        content_regex: r"\brust_binary\s*\(".into(),
        emoji: Some("🦀".into()),
        icon: None,
        icon_level: level,
    }
}

fn request_of(snapshot: Snapshot, rules: Vec<FileBadgeRule>) -> Request {
    Request {
        generation: 0,
        worktrees: vec![WorktreeInput { snapshot, scan_complete: true }],
        scopes: vec![RuleScope { worktree_id: None, path: RelPath::empty(), rules }],
        invalidated: vec![],
    }
}

fn request(disk: &Disk, rules: Vec<FileBadgeRule>) -> Request {
    request_of(disk.snapshot(), rules)
}

fn listed(badges: &Badges) -> Vec<(usize, String, Vec<Badge>)> {
    (0..badges.len())
        .map(|i| {
            let (key, list) = badges.at(i);
            (key.worktree_id, key.path.as_unix_str(), list.clone())
        })
        .collect()
}

fn at(output: &Output, path: &str) -> Vec<Badge> {
    listed(&output.badges)
        .into_iter()
        .find(|(_, candidate, _)| candidate == path)
        .map(|(_, _, badges)| badges)
        .unwrap_or_default()
}

fn crab() -> Badge {
    Badge::Emoji("🦀".into())
}

fn icon(name: &str) -> Badge {
    Badge::Icon(IconName { name: name.into() })
}

#[test]
fn test_file_badges_rule_validation() {
    assert_eq!(
        Badge::from_rule(&rule(0), &icons()).expect("valid emoji"),
        Badge::Emoji("🦀".into())
    );
    let mut icon_rule = rule(0);
    icon_rule.emoji = None;
    icon_rule.icon = Some("binary".into());
    assert_eq!(Badge::from_rule(&icon_rule, &icons()).expect("valid icon"), icon("Binary"));
    icon_rule.emoji = Some("🦀".into());
    assert!(Badge::from_rule(&icon_rule, &icons()).is_err());
    icon_rule.emoji = None;
    icon_rule.icon = Some("nonexistent_icon".into());
    assert!(Badge::from_rule(&icon_rule, &icons()).is_err());
    icon_rule.icon = None;
    assert!(Badge::from_rule(&icon_rule, &icons()).is_err());
    icon_rule.emoji = Some(" ".into());
    assert!(Badge::from_rule(&icon_rule, &icons()).is_err());
    assert!(Matcher::compile("[", "valid").is_err());
    assert!(Matcher::compile("*.bazel", "(").is_err());
    let matcher =
        Matcher::compile("{BUILD,*.bazel}", r"(?im)^rust_binary\s*\(").expect("valid matchers");
    assert!(matcher.filename().is_match("BUILD"));
    assert!(!matcher.filename().is_match("build"));
    assert!(matcher.content().is_match("load(...)\nRUST_BINARY(\n)"));
    let parsed = FileBadgeRule::new(
        "*.bazel".into(),
        "rust_binary".into(),
        Some("🦀".into()),
        None,
        None,
    );
    assert_eq!(parsed.icon_level, 0);
}

#[test]
fn test_file_badges_cache_reuse_and_persistence() {
    let disk = Disk::new(&[
        ("BUILD.bazel", "rust_binary(name='tool')"),
        ("negative.bazel", "rust_library(name='lib')"),
        ("ignored.rs", "rust_binary(name='ignored')"),
        ("nested/BUILD", "rust_binary(name='nested')"),
    ]);
    let mut database = Database::default();
    let mut worker = Counting::new();
    let rules = vec![rule(0), rule(1), rule(1), rule(50)];
    let output = worker.process(request(&disk, rules.clone()), &disk, &database);
    assert!(output.errors.is_empty(), "{:?}", output.errors);
    assert_eq!(at(&output, "BUILD.bazel"), [Badge::Emoji("🦀".into())]);
    assert_eq!(at(&output, ""), [Badge::Emoji("🦀".into())]);
    assert_eq!(at(&output, "nested"), [Badge::Emoji("🦀".into())]);
    assert!(at(&output, "negative.bazel").is_empty());
    assert!(at(&output, "ignored.rs").is_empty());
    assert_eq!((worker.reads, worker.evaluations), (3, 3));
    let again = worker.process(request(&disk, rules.clone()), &disk, &database);
    assert_eq!(listed(&again.badges), listed(&output.badges));
    assert_eq!((worker.reads, worker.evaluations), (3, 3));
    assert!(worker.persist(&mut database).is_empty());

    let mut reopened = Counting::new();
    let restored = reopened.process(request(&disk, rules), &disk, &database);
    assert_eq!(listed(&restored.badges), listed(&output.badges));
    assert_eq!((reopened.reads, reopened.evaluations), (0, 0));
    let mut changed = rule(2);
    changed.emoji = None;
    changed.icon = Some("code".into());
    let changed_output = reopened.process(request(&disk, vec![changed.clone()]), &disk, &database);
    assert_eq!(at(&changed_output, ""), [icon("Code")]);
    assert_eq!((reopened.reads, reopened.evaluations), (0, 0));
    changed.content_regex = "rust_library".into();
    changed.icon_level = 0;
    let changed_output = reopened.process(request(&disk, vec![changed]), &disk, &database);
    assert_eq!(at(&changed_output, "negative.bazel"), [icon("Code")]);
    assert_eq!((reopened.reads, reopened.evaluations), (3, 3));
}

#[test]
fn test_file_badges_changes_and_shared_contributions() {
    let mut disk = Disk::new(&[
        ("a.bazel", "rust_binary()"),
        ("b.bazel", "rust_binary()"),
        ("no.bazel", ""),
    ]);
    let database = Database::default();
    let mut worker = Counting::new();
    let output = worker.process(request(&disk, vec![rule(1)]), &disk, &database);
    assert_eq!(at(&output, ""), [Badge::Emoji("🦀".into())]);
    assert_eq!(worker.reads, 3);
    disk.insert("a.bazel", b"rust_library()".to_vec());
    let output = worker.process(request(&disk, vec![rule(1)]), &disk, &database);
    assert_eq!(worker.reads, 4);
    assert_eq!(at(&output, ""), [Badge::Emoji("🦀".into())]);
    disk.rename("b.bazel", "b.txt");
    let output = worker.process(request(&disk, vec![rule(1)]), &disk, &database);
    assert!(output.badges.len() == 0);
    assert_eq!(worker.reads, 4);
    disk.insert("no.bazel", b"rust_binary()".to_vec());
    let output = worker.process(request(&disk, vec![rule(1)]), &disk, &database);
    assert_eq!(at(&output, ""), [Badge::Emoji("🦀".into())]);
    assert_eq!(worker.reads, 5);
    disk.remove("no.bazel");
    let output = worker.process(request(&disk, vec![rule(1)]), &disk, &database);
    assert!(output.badges.len() == 0);
}

#[test]
fn test_file_badges_scopes_and_rule_order() {
    let disk = Disk::new(&[("BUILD", "rust_binary()"), ("nested/BUILD", "rust_binary()")]);
    let database = Database::default();
    let mut worker = Counting::new();
    let mut other = rule(1);
    other.emoji = None;
    other.icon = Some("binary".into());
    let mut input = request(&disk, vec![other.clone(), rule(1), other.clone()]);
    let worktree_id = input.worktrees.first().expect("fixture worktree").snapshot.id();
    input.scopes.push(RuleScope {
        worktree_id: Some(worktree_id),
        path: rel_path("nested"),
        rules: vec![],
    });
    let output = worker.process(input, &disk, &database);
    assert_eq!(at(&output, ""), [icon("Binary"), Badge::Emoji("🦀".into())]);
    assert!(at(&output, "nested").is_empty());
    assert_eq!(worker.reads, 1);
    let mut input = request(&disk, vec![rule(1), other]);
    input.scopes.push(RuleScope {
        worktree_id: Some(worktree_id),
        path: RelPath::empty(),
        rules: vec![],
    });
    let output = worker.process(input, &disk, &database);
    assert!(output.badges.len() == 0);
    assert_eq!(worker.reads, 1);
    let output = worker.process(request(&disk, vec![rule(1)]), &disk, &database);
    assert_eq!(at(&output, "nested"), [Badge::Emoji("🦀".into())]);
    assert_eq!(worker.reads, 2);
}

#[test]
fn test_file_badges_invalid_rules_and_cache() {
    let disk = Disk::new(&[("BUILD", "rust_binary()"), ("binary.bazel", "\u{0}rust_binary()")]);
    let mut database = Database::default();
    database.broken.insert("/root".into(), "broken json".into());
    let mut worker = Counting::new();
    let mut invalid = rule(0);
    invalid.content_regex = "(".into();
    let output = worker.process(request(&disk, vec![invalid, rule(0)]), &disk, &database);
    assert_eq!(output.errors.len(), 2);
    assert!(output.errors[0].starts_with("Rule 1 (\"{BUILD,*.bazel}\"): regex parse error"));
    assert!(output.errors[1].starts_with("Rebuilding file badge cache for /root: "));
    assert_eq!(at(&output, "BUILD"), [Badge::Emoji("🦀".into())]);
    assert!(at(&output, "binary.bazel").is_empty());
    assert!(worker.persist(&mut database).is_empty());
    let mut reopened = Counting::new();
    let output = reopened.process(request(&disk, vec![rule(0)]), &disk, &database);
    assert!(output.errors.is_empty());
    assert_eq!(reopened.reads, 0);
}

#[test]
fn test_file_badges_limits_and_stale_reads() {
    let mut disk = Disk::new(&[("BUILD", "rust_binary()")]);
    disk.insert("large.bazel", vec![b'a'; MAX_FILE_SIZE as usize + 1]);
    disk.insert("non_utf8.bazel", vec![255]);
    let database = Database::default();
    let mut worker = Counting::new();
    let outdated = request(&disk, vec![rule(0)]);
    disk.insert("BUILD", b"rust_library()".to_vec());
    let output = worker.process(outdated, &disk, &database);
    assert!(output.badges.len() == 0);
    assert_eq!(
        output.errors,
        ["/root/BUILD: File changed while checking badges; waiting for its next update"]
    );
    assert_eq!(worker.reads, 2, "oversized file is never read");
    let output = worker.process(request(&disk, vec![rule(0)]), &disk, &database);
    assert!(output.errors.is_empty());
    assert!(output.badges.len() == 0);
    assert_eq!(worker.reads, 3, "stale read was not cached as a nonmatch");
    let mut input = request(&disk, vec![rule(0)]);
    let worktree_id = input.worktrees.first().expect("worktree").snapshot.id();
    input.invalidated.push((worktree_id, rel_path("BUILD")));
    worker.process(input, &disk, &database);
    assert_eq!(worker.reads, 4, "observed changes invalidate unchanged metadata");
}

fn visible(disk: &Disk) -> Vec<VisibleTree> {
    vec![VisibleTree {
        snapshot: disk.snapshot(),
        is_local: true,
        scan_id: 3,
        completed_scan_id: 3,
    }]
}

fn all_scopes(rules: Vec<FileBadgeRule>) -> Vec<RuleScope> {
    RuleScope::all(rules, vec![])
}

#[test]
fn test_file_badges_concurrent_updates() {
    let mut disk = Disk::new(&[("BUILD", "rust_binary()")]);
    let mut database = Database::default();
    let mut worker = Counting::new();
    let mut badges = FileBadges::new(all_scopes(vec![rule(0)]));
    let first = badges.refresh(visible(&disk), None).expect("request");
    let first_generation = first.generation;
    let stale = worker.process(first, &disk, &database);
    disk.insert("BUILD", b"rust_library()".to_vec());
    let mut changed = rule(1);
    changed.emoji = Some("📚".into());
    changed.content_regex = "rust_library".into();
    assert!(badges.update_scopes(all_scopes(vec![changed.clone()])));
    let second = badges.refresh(visible(&disk), None).expect("request");
    let second_generation = second.generation;
    assert!(badges.publish(first_generation, stale).is_none());
    assert!(badges.is_empty());
    let output = worker.process(second, &disk, &database);
    assert_eq!(listed(&output.badges), [(TREE, "".into(), vec![Badge::Emoji("📚".into())])]);
    let published = badges.publish(second_generation, output).expect("current");
    assert!(published.changed);
    assert!(published.errors.is_empty());
    assert_eq!(badges.for_path(TREE, &RelPath::empty()), [Badge::Emoji("📚".into())]);
    drop(badges);
    assert!(saves_caches(false, true));
    assert!(worker.persist(&mut database).is_empty());
    let mut reopened = Counting::new();
    let output = reopened.process(request(&disk, vec![changed]), &disk, &database);
    assert_eq!(at(&output, ""), [Badge::Emoji("📚".into())]);
    assert_eq!(reopened.reads, 0, "dropping the view still persists completed results");
}

#[test]
fn rule_errors_say_what_is_wrong() {
    let mut broken = rule(0);
    broken.emoji = Some("\u{3000}\t".into());
    assert_eq!(Badge::from_rule(&broken, &icons()), Err(RuleError::NotExactlyOne));
    assert_eq!(
        RuleError::NotExactlyOne.message(),
        "Specify exactly one nonempty emoji or built-in icon"
    );
    broken.emoji = None;
    broken.icon = Some("nonexistent_icon".into());
    assert_eq!(Badge::from_rule(&broken, &icons()), Err(RuleError::UnknownIcon));
    assert_eq!(RuleError::UnknownIcon.message(), "Unknown built-in icon");
    let mut padded = rule(0);
    padded.emoji = Some(" x ".into());
    assert_eq!(Badge::from_rule(&padded, &icons()), Ok(Badge::Emoji(" x ".into())));
}

#[test]
fn broken_rules_are_reported_by_position() {
    let disk = Disk::new(&[("BUILD", "rust_binary()")]);
    let database = Database::default();
    let mut nameless = rule(0);
    nameless.filename = "a\"[".into();
    let mut twice = rule(0);
    twice.icon = Some("code".into());
    let mut worker = Counting::new();
    let rules = vec![rule(0), nameless, twice];
    let output = worker.process(request(&disk, rules), &disk, &database);
    assert_eq!(output.errors.len(), 2);
    assert!(output.errors[0].starts_with("Rule 2 (\"a\\\"[\"): error parsing glob 'a\"['"));
    assert_eq!(
        output.errors[1],
        "Rule 3 (\"{BUILD,*.bazel}\"): Specify exactly one nonempty emoji or built-in icon"
    );
    assert_eq!(at(&output, "BUILD"), [crab()]);
}

#[test]
fn badges_are_drawn() {
    let element = crab().render(3);
    assert_eq!(element.id, ("file-badge".to_string(), 3));
    assert_eq!(element.debug_selector, "file-badge-Emoji(\"🦀\")");
    assert_eq!(element.content, project_panel::badge::BadgeContent::Label("🦀".into()));
    assert_eq!(element.tooltip, "Matched a file badge rule");
    assert!(element.single_line);
    assert!(!element.shrinks);
    assert!(element.centred);
    assert_eq!(element.min_width, IconSize::Small);
    assert_eq!(element.margin_left, 1);
    let element = icon("Binary").render(0);
    assert_eq!(element.icon_size, IconSize::Small);
    assert!(!element.shrinks);
    assert!(element.centred);
    assert_eq!(element.min_width, IconSize::Small);
    assert_eq!(element.margin_left, 1);
    assert_eq!(element.debug_selector, "file-badge-Icon(Binary)");
    assert_eq!(
        element.content,
        project_panel::badge::BadgeContent::Icon(IconName { name: "Binary".into() })
    );
}

#[test]
fn fingerprints_are_digests_of_the_pair() {
    let matcher = Matcher::compile("*.rs", "main").expect("valid");
    assert_eq!(matcher.fingerprint().len(), 64);
    assert!(matcher.fingerprint().chars().all(|c| "0123456789abcdef".contains(c)));
    let other = Matcher::compile("*.r", "smain").expect("valid");
    assert_ne!(matcher.fingerprint(), other.fingerprint());
    // The digest of `["",""]`.
    let empty = Matcher::compile("", "").expect("valid");
    assert_eq!(
        empty.fingerprint(),
        "439083f38956ba51ece90631552c6ea23c5c29570d3d5710e408e77e01ba7375"
    );
}

#[test]
fn fingerprints_tell_pairs_apart() {
    // The digests of `["ab","c"]` and `["a","bc"]`.
    let first = Matcher::compile("ab", "c").expect("valid");
    assert_eq!(
        first.fingerprint(),
        "825825018f58e795ae2d3d8df6a879567555c77654e9ca3071df2fe127aa9ebd"
    );
    let second = Matcher::compile("a", "bc").expect("valid");
    assert_eq!(
        second.fingerprint(),
        "42a6f3f44be0aaf23c936b1547dd5e41d2d25ff25f36a31474eb1851639f6751"
    );
    // The digest of `["\"\\\n\u0001","\b\f\t\r\u001f` with DEL and `é/"]` behind it.
    let escaped = Matcher::compile("\"\\\n\u{1}", "\u{8}\u{c}\t\r\u{1f}\u{7f}é/").expect("valid");
    assert_eq!(
        escaped.fingerprint(),
        "f6d6b84bb5052f704da06fa06ca430c8d90b9a08ba2f619a04d16e00e6299838"
    );
}

#[test]
fn pattern_errors_come_glob_first() {
    let error = Matcher::compile("[", "(").expect_err("both broken");
    assert_eq!(error.message, "error parsing glob '[': unclosed character class; missing ']'");
    let error = Matcher::compile("*", "(").expect_err("broken expression");
    assert!(error.message.starts_with("regex parse error"));
    let error = Matcher::compile("{a", "x").expect_err("unclosed");
    assert_eq!(
        error.message,
        "error parsing glob '{a': unclosed alternate group; missing '}' (maybe escape '{' with '[{]'?)"
    );
}

#[test]
fn unreadable_roots_and_caches_are_reported() {
    let disk = Disk::new(&[("BUILD", "rust_binary()")]);
    let step = Worker::default().begin(request(&disk, vec![rule(0)]), &icons());
    let Step::Open(tree) = step else { panic!("no cache yet") };
    assert_eq!(tree.root(), "/root");
    let Step::Done(worker, output) = tree.opened(Err("no such file".into())) else {
        panic!("passed over")
    };
    assert_eq!(output.errors, ["/root: no such file"]);
    assert!(worker.cache(TREE).is_none());

    let step = worker.begin(request(&disk, vec![rule(0)]), &icons());
    let Step::Open(tree) = step else { panic!("no cache yet") };
    let step = tree.opened(Ok(("/root".into(), CacheRead::Failed("locked".into()))));
    let Step::Read(tree) = step else { panic!("to be read") };
    assert_eq!(tree.pending().len(), 1);
    assert_eq!(tree.location(0), "/root/BUILD");
    let tree = tree.record(0, Err("gone".into()));
    let Step::Done(worker, output) = tree.finish() else { panic!("one worktree") };
    assert_eq!(
        output.errors,
        ["Could not read file badge cache: locked", "/root/BUILD: gone"]
    );
    assert!(worker.unsaved().is_empty());
}

#[test]
fn caches_of_another_form_are_not_used() {
    let disk = Disk::new(&[("BUILD", "rust_binary()")]);
    let mut database = Database::default();
    let mut worker = Counting::new();
    worker.process(request(&disk, vec![rule(0)]), &disk, &database);
    assert!(worker.persist(&mut database).is_empty());
    database.caches.get_mut("/root").expect("saved").version = CACHE_VERSION + 1;
    let mut reopened = Counting::new();
    let output = reopened.process(request(&disk, vec![rule(0)]), &disk, &database);
    assert!(output.errors.is_empty());
    assert_eq!(reopened.reads, 1);
}

#[test]
fn caches_stay_unsaved_until_they_are_saved() {
    let disk = Disk::new(&[("BUILD", "rust_binary()")]);
    let database = Database::default();
    let mut counting = Counting::new();
    counting.process(request(&disk, vec![rule(0)]), &disk, &database);
    let worker = counting.worker.as_mut().expect("worker");
    assert_eq!(worker.unsaved(), [TREE]);
    assert_eq!(worker.cache(TREE).expect("cache").key, "/root");
    assert_eq!(
        worker.saved(TREE, Err("disk full".into())),
        Some("Could not save file badge cache: disk full".to_string())
    );
    assert_eq!(worker.unsaved(), [TREE]);
    assert_eq!(worker.saved(TREE, Ok(())), None);
    assert!(worker.unsaved().is_empty());
    assert!(saves_caches(true, false));
    assert!(!saves_caches(false, false));
}

#[test]
fn worktrees_without_rules_and_gone_worktrees_are_passed_over() {
    let disk = Disk::new(&[("BUILD", "rust_binary()")]);
    let database = Database::default();
    let mut worker = Counting::new();
    worker.process(request(&disk, vec![rule(0)]), &disk, &database);
    assert!(worker.worker.as_ref().expect("worker").cache(TREE).is_some());
    let output = worker.process(request(&disk, vec![]), &disk, &database);
    assert!(output.badges.len() == 0);
    assert!(worker.worker.as_ref().expect("worker").cache(TREE).is_some());
    let mut nothing = request(&disk, vec![rule(0)]);
    nothing.worktrees.clear();
    worker.process(nothing, &disk, &database);
    assert!(worker.worker.as_ref().expect("worker").cache(TREE).is_none());
}

#[test]
fn pipes_directories_and_large_files_match_nothing() {
    let matchers = vec![Matcher::compile("*", "x").expect("valid")];
    let meta = Metadata {
        inode: 1,
        mtime: MTime { secs: 1, nanos: 0 },
        len: 1,
        is_dir: false,
        is_fifo: false,
    };
    let settled = |meta: Metadata| match before_read(Some(meta), &matchers) {
        BeforeRead::Settled(results) => results.get(matchers[0].fingerprint()).copied(),
        _ => None,
    };
    assert_eq!(settled(Metadata { is_fifo: true, ..meta }), Some(false));
    assert_eq!(settled(Metadata { is_dir: true, ..meta }), Some(false));
    assert_eq!(settled(Metadata { len: MAX_FILE_SIZE + 1, ..meta }), Some(false));
    assert_eq!(settled(Metadata { len: MAX_FILE_SIZE, ..meta }), None);
    match before_read(Some(meta), &matchers) {
        BeforeRead::Read(limit, before) => assert_eq!((limit, before), (2097153, meta)),
        _ => panic!("readable"),
    }
    match before_read(None, &matchers) {
        BeforeRead::Failed(error) => assert_eq!(error, "File was removed"),
        _ => panic!("not there"),
    }
}

#[test]
fn changed_and_removed_files_give_no_result() {
    let matchers = vec![Matcher::compile("*", "x").expect("valid")];
    let meta = Metadata {
        inode: 1,
        mtime: MTime { secs: 1, nanos: 0 },
        len: 1,
        is_dir: false,
        is_fifo: false,
    };
    let version = project_panel::cache::FileVersion { inode: 1, mtime: Some(meta.mtime), size: 1 };
    let bytes = b"x".to_vec();
    let name = matchers[0].fingerprint();
    let result = after_read(&meta, Some(meta), &version, &bytes, &matchers).expect("unchanged");
    assert_eq!(result.get(name), Some(&true));
    let result = after_read(&meta, Some(meta), &version, &b"y".to_vec(), &matchers);
    assert_eq!(result.expect("unchanged").get(name), Some(&false));
    let error = after_read(&meta, None, &version, &bytes, &matchers).err();
    assert_eq!(error.as_deref(), Some("File was removed"));
    let later = Metadata { mtime: MTime { secs: 2, nanos: 0 }, ..meta };
    let changed = Some("File changed while checking badges; waiting for its next update");
    let error = after_read(&meta, Some(later), &version, &bytes, &matchers).err();
    assert_eq!(error.as_deref(), changed);
    let error = after_read(&later, Some(later), &version, &bytes, &matchers).err();
    assert_eq!(error.as_deref(), changed);
    let unknown = project_panel::cache::FileVersion { mtime: None, ..version };
    let error = after_read(&meta, Some(meta), &unknown, &bytes, &matchers).err();
    assert_eq!(error.as_deref(), changed);
    for bytes in [b"x\0".to_vec(), vec![b'x', 0xff]] {
        let result = after_read(&meta, Some(meta), &version, &bytes, &matchers);
        assert_eq!(result.expect("unchanged").get(name), Some(&false));
    }
    let long = vec![b'x'; MAX_FILE_SIZE as usize + 1];
    let result = after_read(&meta, Some(meta), &version, &long, &matchers);
    assert_eq!(result.expect("unchanged").get(name), Some(&false));
}

#[test]
fn ignored_files_and_pipes_are_not_read() {
    let mut disk = Disk::new(&[("BUILD", "rust_binary()"), ("pipe.bazel", "rust_binary()")]);
    disk.files.get_mut(&parts("BUILD")).expect("file").is_ignored = true;
    disk.files.get_mut(&parts("pipe.bazel")).expect("file").is_fifo = true;
    let mut worker = Counting::new();
    let output = worker.process(request(&disk, vec![rule(0)]), &disk, &Database::default());
    assert!(output.badges.len() == 0);
    assert_eq!(worker.reads, 0);
}

#[test]
fn changed_directories_invalidate_what_is_below() {
    let disk = Disk::new(&[("a/b/BUILD", "rust_binary()"), ("c/BUILD", "rust_binary()")]);
    let database = Database::default();
    let mut worker = Counting::new();
    worker.process(request(&disk, vec![rule(0)]), &disk, &database);
    assert_eq!(worker.reads, 2);
    let mut input = request(&disk, vec![rule(0)]);
    input.invalidated.push((TREE, rel_path("a")));
    input.invalidated.push((TREE + 1, rel_path("c")));
    worker.process(input, &disk, &database);
    assert_eq!(worker.reads, 3);
}

#[test]
fn files_are_remembered_until_the_scan_is_complete() {
    let disk = Disk::new(&[("BUILD", "rust_binary()"), ("x.bazel", "rust_binary()")]);
    let database = Database::default();
    let mut worker = Counting::new();
    worker.process(request(&disk, vec![rule(0)]), &disk, &database);
    let mut partial = request(&Disk::new(&[]), vec![rule(0)]);
    partial.worktrees[0].scan_complete = false;
    let output = worker.process(partial, &disk, &database);
    assert!(output.badges.len() == 0);
    let output = worker.process(request(&disk, vec![rule(0)]), &disk, &database);
    assert_eq!(output.badges.len(), 2);
    assert_eq!(worker.reads, 2);
    worker.process(request(&Disk::new(&[]), vec![rule(0)]), &disk, &database);
    worker.process(request(&disk, vec![rule(0)]), &disk, &database);
    assert_eq!(worker.reads, 4);
}

#[test]
fn nearer_settings_win() {
    let disk = Disk::new(&[("a/b/BUILD", "rust_binary()")]);
    let mut input = request(&disk, vec![rule(0)]);
    let with = |emoji: &str| {
        let mut rule = rule(0);
        rule.emoji = Some(emoji.into());
        vec![rule]
    };
    let local = |path: &str, emoji: &str| RuleScope {
        worktree_id: Some(TREE),
        path: rel_path(path),
        rules: with(emoji),
    };
    input.scopes.push(local("a/b", "deep"));
    input.scopes.push(local("a", "shallow"));
    input.scopes.push(RuleScope {
        worktree_id: Some(TREE + 1),
        path: rel_path("a/b"),
        rules: with("elsewhere"),
    });
    let output = Counting::new().process(input, &disk, &Database::default());
    assert_eq!(at(&output, "a/b/BUILD"), [Badge::Emoji("deep".into())]);
}

#[test]
fn rules_come_before_paths_in_the_order_of_badges() {
    let disk = Disk::new(&[("a.x", "one two"), ("b.x", "one")]);
    let with = |regex: &str, emoji: &str| FileBadgeRule {
        filename: "*.x".into(),
        content_regex: regex.into(),
        emoji: Some(emoji.into()),
        icon: None,
        icon_level: 1,
    };
    let rules = vec![with("three", "3"), with("two", "2"), with("one", "1"), with("two", "1")];
    let output = Counting::new().process(request(&disk, rules), &disk, &Database::default());
    assert_eq!(at(&output, ""), [Badge::Emoji("2".into()), Badge::Emoji("1".into())]);
}

#[test]
fn nothing_is_asked_for_without_rules() {
    let disk = Disk::new(&[("BUILD", "rust_binary()")]);
    let mut badges = FileBadges::new(all_scopes(vec![]));
    assert!(badges.refresh(visible(&disk), None).is_none());
    assert!(!badges.update_scopes(all_scopes(vec![])));
    assert!(badges.update_scopes(all_scopes(vec![rule(0)])));
    assert_eq!(badges.refresh(visible(&disk), None).expect("request").generation, 1);
    assert!(badges.update_scopes(all_scopes(vec![])));
    assert_eq!(badges.refresh(visible(&disk), None).expect("request").generation, 2);
}

#[test]
fn requests_hold_local_worktrees_and_their_settings() {
    let disk = Disk::new(&[("BUILD", "rust_binary()")]);
    let local = |id: usize| (id, RelPath::empty(), vec![rule(0)]);
    let scopes = RuleScope::all(vec![], vec![local(TREE), local(TREE + 1)]);
    let mut badges = FileBadges::new(scopes);
    let mut trees = visible(&disk);
    trees[0].completed_scan_id = 2;
    let request = badges.refresh(trees, None).expect("request");
    assert_eq!(request.worktrees.len(), 1);
    assert!(!request.worktrees[0].scan_complete);
    let ids: Vec<Option<usize>> = request.scopes.iter().map(|scope| scope.worktree_id).collect();
    assert_eq!(ids, [None, Some(TREE)]);
    let mut trees = visible(&disk);
    trees[0].is_local = false;
    let request = badges.refresh(trees, None).expect("request");
    assert!(request.worktrees.is_empty());
    assert_eq!(request.scopes.len(), 1);
}

#[test]
fn events_invalidate_changed_files_and_removed_paths() {
    let disk = Disk::new(&[("BUILD", "rust_binary()"), ("dir/BUILD", "")]);
    let snapshot = disk.snapshot();
    let id_of = |path: &str| snapshot.entry_for_path(&rel_path(path)).expect("entry").id;
    let update = |path: &str, entry_id: usize, change: PathChange| PathUpdate {
        path: rel_path(path),
        entry_id,
        change,
    };
    let updates = vec![
        update("BUILD", id_of("BUILD"), PathChange::Updated),
        update("dir", id_of("dir"), PathChange::AddedOrUpdated),
        update("dir/BUILD", id_of("dir/BUILD"), PathChange::Loaded),
        update("gone", 99, PathChange::Removed),
        update("unknown", 99, PathChange::Added),
    ];
    let mut badges = FileBadges::new(all_scopes(vec![rule(0)]));
    let event = ProjectEvent::WorktreeUpdatedEntries(TREE, updates);
    let request = badges.handle_event(event, visible(&disk), Some(&snapshot)).expect("request");
    let paths: Vec<(usize, String)> =
        request.invalidated.iter().map(|(id, path)| (*id, path.as_unix_str())).collect();
    assert_eq!(paths, [(TREE, "BUILD".to_string()), (TREE, "gone".to_string())]);
    assert!(badges.handle_event(ProjectEvent::Other, visible(&disk), None).is_none());
    for event in [
        ProjectEvent::WorktreeAdded(1),
        ProjectEvent::WorktreeRemoved(1),
        ProjectEvent::WorktreePathsChanged,
    ] {
        let request = badges.handle_event(event, visible(&disk), None).expect("request");
        assert!(request.invalidated.is_empty());
    }
}

#[test]
fn newer_requests_keep_what_older_ones_invalidate() {
    let disk = Disk::new(&[("BUILD", "rust_binary()")]);
    let mut first = request(&disk, vec![rule(0)]);
    first.invalidated.push((TREE, rel_path("a")));
    let mut second = request(&disk, vec![rule(1), rule(2)]);
    second.generation = 9;
    second.invalidated.push((TREE, rel_path("b")));
    first.supersede(second);
    assert_eq!(first.generation, 9);
    assert_eq!(first.scopes[0].rules.len(), 2);
    let paths: Vec<String> = first.invalidated.iter().map(|(_, p)| p.as_unix_str()).collect();
    assert_eq!(paths, ["a", "b"]);
}

#[test]
fn errors_are_reported_once_until_the_settings_change() {
    let mut badges = FileBadges::new(all_scopes(vec![rule(0)]));
    let errors = |list: &[&str]| list.iter().map(|e| e.to_string()).collect::<Vec<String>>();
    let output = |list: &[&str]| Output { badges: SortedMap::new(), errors: errors(list) };
    let published = badges.publish(0, output(&["x", "y", "x"])).expect("current");
    assert!(!published.changed);
    assert_eq!(published.errors, ["x", "y"]);
    let published = badges.publish(0, output(&["y", "z"])).expect("current");
    assert_eq!(published.errors, ["z"]);
    assert!(badges.report(errors(&["x", "z"])).is_empty());
    assert!(badges.update_scopes(all_scopes(vec![rule(1)])));
    assert_eq!(badges.report(errors(&["x"])), ["x"]);
}

#[test]
fn paths_round_trip() {
    for text in ["", "a", "a/b", "a b/\u{e9}"] {
        assert_eq!(rel_path(text).as_unix_str(), text);
    }
    for text in ["/", "a/", "/a", "a//b", ".", "..", "a/../b"] {
        assert!(RelPath::from_unix_str(text).is_err());
    }
    let paths: Vec<String> = rel_path("a/b").ancestors().iter().map(|p| p.as_unix_str()).collect();
    assert_eq!(paths, ["a/b", "a", ""]);
    assert!(rel_path("a/b").ancestor(3).is_none());
}

#[test]
fn worktrees_are_apart() {
    let disk = Disk::new(&[("BUILD", "rust_binary()")]);
    let mut input = request(&disk, vec![rule(0)]);
    let entries = disk.snapshot().entries().clone();
    let other = Snapshot::new(TREE + 1, "/root".to_string(), entries).expect("listing");
    input.worktrees.push(WorktreeInput { snapshot: other, scan_complete: true });
    input.scopes.push(RuleScope {
        worktree_id: Some(TREE + 1),
        path: RelPath::empty(),
        rules: vec![rule(1)],
    });
    let output = Counting::new().process(input, &disk, &Database::default());
    assert_eq!(
        listed(&output.badges),
        [(TREE, "BUILD".into(), vec![crab()]), (TREE + 1, "".into(), vec![crab()])]
    );
}

#[test]
fn marked_rules_are_picked_in_order() {
    let mut matchers = Matchers::new();
    let rules: Vec<CompiledRule> = (0..3)
        .map(|i| compile_rule(&rule(i as u32), &icons(), i, &mut matchers))
        .map(|compiled| compiled.ok().expect("valid rule"))
        .collect();
    let picked = pick_rules(&rules, &vec![true, false, true]);
    let positions: Vec<usize> = picked.iter().map(|rule| rule.position).collect();
    assert_eq!(positions, [0, 2]);
    assert_eq!(picked[1].level, 2);
    assert_eq!(picked[1].matcher, rules[0].matcher);
}

#[test]
fn answers_are_listed_by_fingerprint() {
    let one = Matcher::compile("*", "1").expect("valid");
    let two = Matcher::compile("*", "2").expect("valid");
    let matchers = vec![one.clone(), two.clone(), one.clone()];
    let results = tabulate(&matchers, &vec![false, true, true]);
    assert_eq!(results.len(), 2);
    assert_eq!(results.get(one.fingerprint()), Some(&true));
    assert_eq!(results.get(two.fingerprint()), Some(&true));
}

#[test]
fn messages_of_rules_count_from_one() {
    assert_eq!(message_of_rule(9, "\"*\"", "wrong"), "Rule 10 (\"*\"): wrong");
}

#[test]
fn paths_are_ordered_by_components() {
    let before = |a: &str, b: &str| rel_path(a).compared(&rel_path(b)) == Rank::Before;
    assert!(before("", "a"));
    assert!(before("a", "a/b"));
    assert!(before("a/b", "a.b"));
    assert!(before("a", "\u{e9}"));
    assert!(!before("b", "a/z"));
    assert_eq!(rel_path("a/b").compared(&rel_path("a/b")), Rank::Same);
}

#[test]
fn maps_keep_their_keys_in_order() {
    let mut map: SortedMap<String, usize> = SortedMap::new();
    for (i, key) in ["b", "a", "c", "b"].iter().enumerate() {
        map.insert(key.to_string(), i);
    }
    assert_eq!(map.len(), 3);
    assert_eq!(map.at(0), (&"a".to_string(), &1));
    assert_eq!(map.get(&"b".to_string()), Some(&3));
    map.keep_marked(&vec![true, false, true]);
    assert!(!map.contains_key(&"b".to_string()));
    assert_eq!(map.remove(&"c".to_string()), Some(2));
    assert_eq!(map.remove(&"c".to_string()), None);
    assert_eq!(map.len(), 1);
}

/// A request over two worktrees with the same files, under roots of their own.
fn request_for_two(disk: &Disk, rules: Vec<FileBadgeRule>) -> Request {
    let mut input = request(disk, rules);
    let entries = disk.snapshot().entries().clone();
    let other = Snapshot::new(TREE + 1, "/other".to_string(), entries).expect("listing");
    input.worktrees.push(WorktreeInput { snapshot: other, scan_complete: true });
    input
}

#[test]
fn a_repeated_run_reads_nothing() {
    let disk = Disk::new(&[("a/BUILD", "rust_binary()"), ("b/BUILD", "none"), ("c.rs", "")]);
    let mut database = Database::default();
    let mut worker = Counting::new();
    let input = || request_for_two(&disk, vec![rule(0), rule(1)]);
    let first = worker.process(input(), &disk, &database);
    assert_eq!(worker.reads, 4);
    assert!(first.errors.is_empty());
    let second = worker.process(input(), &disk, &database);
    assert_eq!(worker.reads, 4);
    assert_eq!(listed(&second.badges), listed(&first.badges));
    assert!(second.errors.is_empty());
    // A worker that knows nothing opens what was saved.
    assert!(worker.persist(&mut database).is_empty());
    let mut reopened = Counting::new();
    let third = reopened.process(input(), &disk, &database);
    assert_eq!(reopened.reads, 0);
    assert_eq!(listed(&third.badges), listed(&first.badges));
    assert_eq!(listed(&third.badges).len(), 4);
}

#[test]
fn one_changed_path_is_read_again_and_no_other() {
    let disk = Disk::new(&[
        ("a/BUILD", "rust_binary()"),
        ("a/b/x.bazel", "rust_binary()"),
        ("a/b/y.rs", ""),
        ("ab/BUILD", "rust_binary()"),
    ]);
    let database = Database::default();
    let mut worker = Counting::new();
    let first = worker.process(request_for_two(&disk, vec![rule(0)]), &disk, &database);
    assert_eq!(worker.reads, 6);
    let mut input = request_for_two(&disk, vec![rule(0)]);
    input.invalidated.push((TREE + 1, rel_path("a")));
    let second = worker.process(input, &disk, &database);
    assert_eq!(worker.reads, 8);
    assert_eq!(listed(&second.badges), listed(&first.badges));
}

#[test]
fn lists_of_badges_are_ordered_by_rule_and_path() {
    let disk = Disk::new(&[("a/x", "one two"), ("a/y", "one"), ("b/x", "two three")]);
    let with = |filename: &str, regex: &str, emoji: &str| FileBadgeRule {
        filename: filename.into(),
        content_regex: regex.into(),
        emoji: Some(emoji.into()),
        icon: None,
        icon_level: 2,
    };
    let rules = vec![
        with("x", "three", "3"),
        with("*", "one", "1"),
        with("x", "two", "2"),
        with("y", "one", "3"),
    ];
    let output = Counting::new().process(request(&disk, rules), &disk, &Database::default());
    let emoji = |text: &str| Badge::Emoji(text.into());
    assert_eq!(
        listed(&output.badges),
        [(TREE, "".to_string(), vec![emoji("3"), emoji("1"), emoji("2")])]
    );
}

#[test]
fn caches_hold_entries_only() {
    let mut disk = Disk::new(&[("BUILD", "rust_binary()"), ("a/x.bazel", "rust_binary()")]);
    let database = Database::default();
    let mut worker = Counting::new();
    let paths = |worker: &Counting, id: usize| {
        worker.worker.as_ref().expect("worker").cache(id).map(|cache| {
            let files = &cache.data.files;
            (0..files.len()).map(|i| files.at(i).0.clone()).collect::<Vec<String>>()
        })
    };
    worker.process(request_for_two(&disk, vec![rule(0)]), &disk, &database);
    assert_eq!(paths(&worker, TREE), Some(vec!["BUILD".to_string(), "a/x.bazel".to_string()]));
    assert!(paths(&worker, TREE + 1).is_some());
    disk.remove("a/x.bazel");
    worker.process(request(&disk, vec![rule(0)]), &disk, &database);
    assert_eq!(paths(&worker, TREE), Some(vec!["BUILD".to_string()]));
    assert_eq!(paths(&worker, TREE + 1), None);
}

#[test]
fn roots_are_compared_by_components() {
    assert!(is_same_root("/root", "/root/"));
    assert!(is_same_root("/root/a", "//root/./a//"));
    assert!(!is_same_root("/root", "root"));
    assert!(!is_same_root("/root", "/root/a"));
    assert!(!is_same_root("./root", "root"));
    assert!(!is_same_root("/root/..", "/"));
    let disk = Disk::new(&[("BUILD", "rust_binary()")]);
    let database = Database::default();
    let mut worker = Counting::new();
    let at_root = |root: &str| {
        let entries = disk.snapshot().entries().clone();
        let snapshot = Snapshot::new(TREE, root.to_string(), entries).expect("listing");
        request_of(snapshot, vec![rule(0)])
    };
    worker.process(at_root("/root"), &disk, &database);
    worker.process(at_root("/root/"), &disk, &database);
    assert_eq!(worker.reads, 1);
    worker.process(at_root("/elsewhere"), &disk, &database);
    assert_eq!(worker.reads, 2);
}

#[test]
fn events_without_a_request_leave_the_badges_as_they_are() {
    let disk = Disk::new(&[]);
    let mut badges = FileBadges::new(all_scopes(vec![rule(0)]));
    assert!(badges.handle_event(ProjectEvent::Other, visible(&disk), None).is_none());
    assert_eq!(badges.generation(), 0);
}

#[test]
fn files_are_located_below_their_root() {
    let disk = Disk::new(&[("a/BUILD", "rust_binary()")]);
    for (root, location) in [("/root", "/root/a/BUILD"), ("/", "/a/BUILD"), ("/r/", "/r/a/BUILD")] {
        let entries = disk.snapshot().entries().clone();
        let snapshot = Snapshot::new(TREE, root.to_string(), entries).expect("listing");
        let step = Worker::default().begin(request_of(snapshot, vec![rule(0)]), &icons());
        let Step::Open(tree) = step else { panic!("no cache yet") };
        let step = tree.opened(Ok(("key".into(), CacheRead::Missing)));
        let Step::Read(tree) = step else { panic!("to be read") };
        assert_eq!(tree.location(0), location);
        let Step::Done(_, output) = tree.record(0, Err("gone".into())).finish() else {
            panic!("one worktree")
        };
        assert_eq!(output.errors, [format!("{location}: gone")]);
    }
}

#[test]
fn removing_all_rules_clears_the_badges() {
    let disk = Disk::new(&[("BUILD", "rust_binary()")]);
    let database = Database::default();
    let mut worker = Counting::new();
    let mut badges = FileBadges::new(all_scopes(vec![rule(0)]));
    let request = badges.refresh(visible(&disk), None).expect("request");
    let generation = request.generation;
    let output = worker.process(request, &disk, &database);
    assert!(badges.publish(generation, output).expect("newest").changed);
    assert!(!badges.is_empty());
    assert!(badges.update_scopes(all_scopes(vec![])));
    let request = badges.refresh(visible(&disk), None).expect("request");
    let generation = request.generation;
    let output = worker.process(request, &disk, &database);
    assert!(output.errors.is_empty());
    assert!(badges.publish(generation, output).expect("newest").changed);
    assert!(badges.is_empty());
    assert_eq!(worker.reads, 1);
}

#[test]
fn badges_are_true_of_the_texts_also_with_a_cache() {
    let mut disk = Disk::new(&[("a/x.rs", "one"), ("a/y.rs", "two"), ("b/z.rs", "one two")]);
    let with = |regex: &str, emoji: &str, level: u32| FileBadgeRule {
        filename: "*.rs".into(),
        content_regex: regex.into(),
        emoji: Some(emoji.into()),
        icon: None,
        icon_level: level,
    };
    let emoji = |text: &str| Badge::Emoji(text.into());
    let database = Database::default();
    let mut worker = Counting::new();
    worker.process(request(&disk, vec![with("one", "1", 1)]), &disk, &database);
    assert_eq!(worker.evaluations, 3);
    disk.insert("b/z.rs", b"two".to_vec());
    let rules = vec![with("one", "1", 1), with("two", "2", 0)];
    let output = worker.process(request(&disk, rules), &disk, &database);
    // Of what did not change, only the new rule was asked.
    assert_eq!(worker.evaluations, 7);
    assert_eq!(
        listed(&output.badges),
        [
            (TREE, "a".to_string(), vec![emoji("1")]),
            (TREE, "a/y.rs".to_string(), vec![emoji("2")]),
            (TREE, "b/z.rs".to_string(), vec![emoji("2")]),
        ]
    );
}
