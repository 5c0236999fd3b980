//! When values are the same, what copies of them hold, and what maps give back.
use vstd::prelude::*;

use crate::badge::same_scopes;
use crate::badge::Badge;
use crate::badge::FileBadgeRule;
use crate::badge::RuleScope;
use crate::cache::kept;
use crate::group_content_laws::sums_fit;
use crate::group_content_laws::tests_of;
use crate::group_state_laws::lemma_groups_fit;
use crate::matcher::Matcher;
use crate::order::OrderedKey;
use crate::patterns::glob_matches;
use crate::patterns::ContentRegex;
use crate::patterns::NameGlob;
use crate::patterns::PatternError;
use crate::rel_path::RelPath;
use crate::rules::compiled_views;
use crate::rules::marked_rules;
use crate::rules::message_of_rule;
use crate::rules::pick_rules;
use crate::rules::CompiledRule;
use crate::rules::CompiledView;
use crate::rules::Matchers;
use crate::sorted_map::SortedMap;
use crate::test_groups::accepted_names;
use crate::test_groups::by_id_alone;
use crate::test_groups::counts_can_be_held;
use crate::test_groups::git_views;
use crate::test_groups::glob_views;
use crate::test_groups::name_matches;
use crate::test_groups::TestGroups;
use crate::text::decimal_text;
use crate::truth_laws::lemma_marked;
use crate::worktree::Entry;
use crate::worktree::GitEntry;
use crate::worktree::Snapshot;

verus! {

/// Two rules are the same where all that the settings say of them is.
pub proof fn law_rules_are_the_same(a: &FileBadgeRule, b: &FileBadgeRule, yes: bool)
    requires
        call_ensures(FileBadgeRule::same, (a, b), yes),
    ensures
        yes <==> {
            &&& a.filename@ == b.filename@
            &&& a.content_regex@ == b.content_regex@
            &&& a.emoji is Some == b.emoji is Some
            &&& a.emoji is Some ==> a.emoji->0@ == b.emoji->0@
            &&& a.icon is Some == b.icon is Some
            &&& a.icon is Some ==> a.icon->0@ == b.icon->0@
            &&& a.icon_level == b.icon_level
        },
{
}

/// Two badges are the same where both show the same emoji or both the same icon.
pub proof fn law_badges_are_the_same(a: &Badge, b: &Badge, yes: bool)
    requires
        call_ensures(Badge::same, (a, b), yes),
    ensures
        yes <==> match (a, b) {
            (Badge::Emoji(x), Badge::Emoji(y)) => x@ == y@,
            (Badge::Icon(x), Badge::Icon(y)) => x.name@ == y.name@,
            _ => false,
        },
{
}

/// Two lists of settings are the same where they hold, for the same places, the same rules in the
/// same order.
pub proof fn law_settings_are_the_same(
    a: &Vec<RuleScope>,
    b: &Vec<RuleScope>,
    yes: bool,
    c: &RuleScope,
    d: &RuleScope,
    same: bool,
)
    requires
        call_ensures(same_scopes, (a, b), yes),
        call_ensures(RuleScope::same, (c, d), same),
    ensures
        yes <==> a@.map_values(|s: RuleScope| s@) == b@.map_values(|s: RuleScope| s@),
        same <==> c.worktree_id == d.worktree_id && c.path@ == d.path@ && c.rules@.map_values(
            |r: FileBadgeRule| r@,
        ) == d.rules@.map_values(|r: FileBadgeRule| r@),
{
}

/// A copy holds what the value holds.
pub proof fn law_copies_hold_the_same(
    entry: (&Entry, Entry),
    git_entry: (&GitEntry, GitEntry),
    path: (&RelPath, RelPath),
    rule: (&FileBadgeRule, FileBadgeRule),
    badge: (&Badge, Badge),
    scope: (&RuleScope, RuleScope),
    compiled: (&CompiledRule, CompiledRule),
    groups: (&TestGroups, TestGroups),
)
    requires
        call_ensures(<Entry as Clone>::clone, (entry.0,), entry.1),
        call_ensures(<GitEntry as Clone>::clone, (git_entry.0,), git_entry.1),
        call_ensures(<RelPath as Clone>::clone, (path.0,), path.1),
        call_ensures(<FileBadgeRule as Clone>::clone, (rule.0,), rule.1),
        call_ensures(<Badge as Clone>::clone, (badge.0,), badge.1),
        call_ensures(<RuleScope as Clone>::clone, (scope.0,), scope.1),
        call_ensures(<CompiledRule as Clone>::clone, (compiled.0,), compiled.1),
        call_ensures(<TestGroups as Clone>::clone, (groups.0,), groups.1),
    ensures
        entry.1@ == entry.0@,
        git_entry.1@ == git_entry.0@,
        path.1@ == path.0@,
        rule.1@ == rule.0@,
        badge.1@ == badge.0@,
        scope.1@ == scope.0@,
        compiled.1@ == compiled.0@,
        groups.1@ == groups.0@,
{
}

/// A map gives back what was bound to a key last, and nothing for a key that is not bound or was
/// removed. Other keys are not touched.
pub proof fn law_maps_give_back_what_was_bound<K: OrderedKey, V>(
    map: &mut SortedMap<K, V>,
    after: &SortedMap<K, V>,
    key: K,
    value: V,
    asked: &K,
    got: Option<&V>,
    found: bool,
    less: &mut SortedMap<K, V>,
    taken: Option<V>,
    none: SortedMap<K, V>,
)
    requires
        call_ensures(SortedMap::<K, V>::insert, (map, key, value), ()),
        after@ == final(map)@,
        call_ensures(SortedMap::<K, V>::get, (after, asked), got),
        call_ensures(SortedMap::<K, V>::contains_key, (after, asked), found),
        old(less)@ == after@,
        call_ensures(SortedMap::<K, V>::remove, (less, asked), taken),
        call_ensures(SortedMap::<K, V>::new, (), none),
    ensures
        found == got is Some,
        asked@ == key@ ==> (got matches Some(v) && *v == value),
        asked@ != key@ ==> (got is Some <==> old(map)@.contains_key(asked@)),
        asked@ != key@ && got is Some ==> *got->0 == old(map)@[asked@],
        taken is Some == got is Some,
        taken is Some ==> taken->0 == *got->0,
        !final(less)@.contains_key(asked@),
        forall|k: K::V| k != asked@ ==> (#[trigger] final(less)@.contains_key(k)
            == after@.contains_key(k)),
        forall|k: K::V| k != asked@ && #[trigger] after@.contains_key(k) ==> final(less)@[k]
            == after@[k],
        forall|k: K::V| !#[trigger] none@.contains_key(k),
{
}

/// A file is an entry that is no directory of any kind.
pub proof fn law_files_are_no_directories(entry: &Entry, yes: bool)
    requires
        call_ensures(Entry::is_file, (entry,), yes),
    ensures
        yes <==> entry.kind !is Dir && entry.kind !is PendingDir && entry.kind !is UnloadedDir,
{
}

/// A matcher looks for what it was made of; the same patterns give the same matcher each time.
pub proof fn law_matchers_look_for_their_patterns(
    matchers: &mut Matchers,
    filename: &String,
    content_regex: &String,
    kept: Result<Matcher, String>,
    name: &str,
    content: &str,
    made: Result<Matcher, PatternError>,
    glob: &NameGlob,
    regex: &ContentRegex,
)
    requires
        call_ensures(Matchers::get, (matchers, filename, content_regex), kept),
        name@ == filename@,
        content@ == content_regex@,
        call_ensures(Matcher::compile, (name, content), made),
        made is Ok ==> call_ensures(Matcher::filename, (&made->Ok_0,), glob),
        made is Ok ==> call_ensures(Matcher::content, (&made->Ok_0,), regex),
    ensures
        kept is Ok == made is Ok,
        made is Ok ==> kept->Ok_0@ == made->Ok_0@ && glob@ == filename@ && regex@ == content_regex@,
        made is Err ==> kept->Err_0@ == made->Err_0.message@,
{
}

/// The rule is one of those that are marked.
pub open spec fn is_marked(
    rules: Seq<CompiledView>,
    marks: Seq<bool>,
    rule: CompiledView,
) -> bool {
    exists|j: int| 0 <= j < rules.len() && marks[j] && #[trigger] rules[j] == rule
}

/// Of the rules those are picked that are marked, and no others.
pub proof fn law_marked_rules_are_picked(
    rules: &Vec<CompiledRule>,
    marks: &Vec<bool>,
    picked: Vec<CompiledRule>,
    k: int,
)
    requires
        marks@.len() == rules@.len(),
        call_ensures(pick_rules, (rules, marks), picked),
        0 <= k < rules@.len(),
    ensures
        marks@[k] ==> picked@.map_values(|r: CompiledRule| r@).contains(rules@[k]@),
        forall|a: int|
            0 <= a < picked@.len() ==> is_marked(
                rules@.map_values(|r: CompiledRule| r@),
                marks@,
                (#[trigger] picked@[a])@,
            ),
{
    let views = compiled_views(rules@);
    lemma_marked(views, marks@, views[k]);
    assert(views[k] == rules@[k]@);
    assert(compiled_views(picked@).len() == picked@.len());
    assert forall|a: int| 0 <= a < picked@.len() implies is_marked(
        views,
        marks@,
        (#[trigger] picked@[a])@,
    ) by {
        let few = marked_rules(views, marks@);
        assert(compiled_views(picked@)[a] == picked@[a]@);
        assert(few.contains(few[a]));
        lemma_marked(views, marks@, few[a]);
    }
}

/// What is wrong with a rule is told with its number, counted from one, and its glob.
pub proof fn law_rules_are_numbered_from_one(
    position: usize,
    name: &str,
    error: &str,
    text: String,
    number: String,
)
    requires
        position < usize::MAX,
        call_ensures(message_of_rule, (position, name, error), text),
        call_ensures(decimal_text, ((position + 1) as usize,), number),
    ensures
        text@ == "Rule "@ + number@ + " ("@ + name@ + "): "@ + error@,
{
}

/// Grouping the files that are marked is grouping those whose names the globs match, where these
/// are the ones that are marked. What can be held of the counts is asked in the same way.
pub proof fn law_marked_files_are_grouped_alike<F: Fn(usize) -> bool>(
    groups: &mut TestGroups,
    rows: &mut Vec<GitEntry>,
    snapshot: &Snapshot,
    marks: &Vec<bool>,
    reveal: Option<usize>,
    id_is_real: F,
    like: &mut TestGroups,
    like_rows: &mut Vec<GitEntry>,
    globs: &[NameGlob],
    before: &Vec<GitEntry>,
    held: bool,
)
    requires
        by_id_alone(id_is_real),
        old(like)@ == old(groups)@,
        git_views(old(like_rows)@) == git_views(old(rows)@),
        git_views(before@) == git_views(old(rows)@),
        marks@.len() == old(rows)@.len(),
        forall|i: int|
            0 <= i < marks@.len() ==> #[trigger] marks@[i] == (old(rows)@[i].entry.path@.len() > 0
                && exists|p: int|
                0 <= p < globs@.len() && glob_matches(
                    (#[trigger] globs@[p])@,
                    old(rows)@[i].entry.path@.last(),
                )),
        call_ensures(
            TestGroups::group_accepted::<F>,
            (groups, rows, snapshot, marks, reveal, id_is_real),
            (),
        ),
        call_ensures(
            TestGroups::group_entries::<F>,
            (like, like_rows, snapshot, globs, reveal, id_is_real),
            (),
        ),
        call_ensures(counts_can_be_held, (before, marks), held),
    ensures
        final(groups)@ == final(like)@,
        git_views(final(rows)@) == git_views(final(like_rows)@),
        held <==> forall|dir: Seq<Seq<char>>|
            sums_fit(#[trigger] tests_of(git_views(old(rows)@), globs@, dir)),
{
    let views = git_views(old(rows)@);
    let accepted = accepted_names(views, glob_views(globs@));
    assert forall|i: int| 0 <= i < marks@.len() implies #[trigger] marks@[i] == accepted[i] by {
        let patterns = glob_views(globs@);
        let name = views[i].entry.path.last();
        assert(views[i] == old(rows)@[i]@);
        if name_matches(patterns, name) {
            let p = choose|p: int|
                0 <= p < patterns.len() && glob_matches(#[trigger] patterns[p], name);
            assert(glob_matches(globs@[p]@, name));
        }
        if exists|p: int| 0 <= p < globs@.len() && glob_matches((#[trigger] globs@[p])@, name) {
            let p = choose|p: int|
                0 <= p < globs@.len() && glob_matches((#[trigger] globs@[p])@, name);
            assert(glob_matches(patterns[p], name));
        }
    }
    assert(marks@ =~= accepted);
    lemma_groups_fit(views, globs@);
}

} // verus!
