//! Which badges are shown where.
use vstd::prelude::*;
use vstd::string::*;

use crate::badge::Badge;
use crate::badge::BadgeView;
use crate::cache::FilesView;
use crate::cache::PersistedCache;
use crate::order::OrderedKey;
use crate::order::Rank;
use crate::plan::candidate_views;
use crate::plan::Candidate;
use crate::plan::CandidateView;
use crate::rel_path::ancestor;
use crate::rel_path::lemma_path_strict_total;
use crate::rel_path::path_before;
use crate::rel_path::unix_text;
use crate::rel_path::RelPath;
use crate::rules::compiled_views;
use crate::rules::CompiledRule;
use crate::rules::CompiledView;
use crate::sorted_map::SortedMap;

verus! {

/// A path of a worktree.
#[derive(Debug, PartialEq, Eq)]
pub struct BadgeKey {
    pub worktree_id: usize,
    pub path: RelPath,
}

/// The model of a [`BadgeKey`].
pub ghost struct PlaceView {
    pub worktree_id: usize,
    pub path: Seq<Seq<char>>,
}

impl View for BadgeKey {
    type V = PlaceView;

    open spec fn view(&self) -> PlaceView {
        PlaceView { worktree_id: self.worktree_id, path: self.path@ }
    }
}

impl OrderedKey for BadgeKey {
    open spec fn before(a: PlaceView, b: PlaceView) -> bool {
        a.worktree_id < b.worktree_id || (a.worktree_id == b.worktree_id && path_before(
            a.path,
            b.path,
        ))
    }

    proof fn lemma_strict_total() {
        lemma_path_strict_total();
        let lt = |a: Seq<Seq<char>>, b: Seq<Seq<char>>| path_before(a, b);
        let before = |a: PlaceView, b: PlaceView| Self::before(a, b);
        assert forall|a: PlaceView| !#[trigger] before(a, a) by {
            assert(!lt(a.path, a.path));
        }
        assert forall|a: PlaceView, b: PlaceView, c: PlaceView| #[trigger]
            before(a, b) && #[trigger] before(b, c) implies before(a, c) by {
            assert(lt(a.path, b.path) && lt(b.path, c.path) ==> lt(a.path, c.path));
        }
        assert forall|a: PlaceView, b: PlaceView| a != b implies
        #[trigger] before(a, b) || before(b, a) by {
            assert(lt(a.path, b.path) || lt(b.path, a.path) || a.path == b.path);
        }
    }

    fn rank(&self, other: &Self) -> (r: Rank) {
        if self.worktree_id < other.worktree_id {
            Rank::Before
        } else if self.worktree_id > other.worktree_id {
            Rank::After
        } else {
            self.path.compared(&other.path)
        }
    }
}

/// The views of a list of badges.
pub open spec fn badge_views(badges: Seq<Badge>) -> Seq<BadgeView> {
    badges.map_values(|b: Badge| b@)
}

/// The badges of each path that has some, in the order in which they are shown.
pub type Badges = SortedMap<BadgeKey, Vec<Badge>>;

/// The model of [`Badges`].
pub type BadgesView = Map<PlaceView, Seq<BadgeView>>;

/// The badges of all paths.
pub open spec fn badges_view(badges: Badges) -> BadgesView {
    badges@.map_values(|list: Vec<Badge>| badge_views(list@))
}

/// A badge, and the path at which it is to be shown.
pub type ContributionView = (Seq<Seq<char>>, BadgeView);

/// What the rules at `position` contribute for the file at `path`, where it is known which
/// fingerprints match: the badge, at the path as many levels above the file as the rule says. A
/// level above the root contributes nothing.
pub open spec fn from_rules(
    matches: Map<Seq<char>, bool>,
    path: Seq<Seq<char>>,
    rules: Seq<CompiledView>,
    position: nat,
) -> Seq<ContributionView>
    decreases rules.len(),
{
    if rules.len() == 0 {
        Seq::empty()
    } else {
        let before = from_rules(matches, path, rules.drop_last(), position);
        let rule = rules.last();
        let name = rule.matcher.fingerprint;
        if rule.position == position && matches.contains_key(name) && matches[name] {
            match ancestor(path, rule.level as nat) {
                Some(target) => before.push((target, rule.badge)),
                None => before,
            }
        } else {
            before
        }
    }
}

/// What the rules at `position` contribute for one of the files.
pub open spec fn from_candidate(
    files: FilesView,
    candidate: CandidateView,
    position: nat,
) -> Seq<ContributionView> {
    let text = unix_text(candidate.path);
    if files.contains_key(text) {
        from_rules(files[text].matches, candidate.path, candidate.rules, position)
    } else {
        Seq::empty()
    }
}

/// What the rules at `position` contribute, file by file.
pub open spec fn from_candidates(
    files: FilesView,
    candidates: Seq<CandidateView>,
    position: nat,
) -> Seq<ContributionView>
    decreases candidates.len(),
{
    if candidates.len() == 0 {
        Seq::empty()
    } else {
        from_candidates(files, candidates.drop_last(), position) + from_candidate(
            files,
            candidates.last(),
            position,
        )
    }
}

/// What the rules at the first `positions` positions contribute, in the order of the rules.
pub open spec fn contributions(
    files: FilesView,
    candidates: Seq<CandidateView>,
    positions: nat,
) -> Seq<ContributionView>
    decreases positions,
{
    if positions == 0 {
        Seq::empty()
    } else {
        let last = (positions - 1) as nat;
        contributions(files, candidates, last) + from_candidates(files, candidates, last)
    }
}

/// All rules have their positions below `positions`.
pub open spec fn positions_below(candidates: Seq<CandidateView>, positions: nat) -> bool {
    forall|i: int, j: int|
        0 <= i < candidates.len() && 0 <= j < candidates[i].rules.len() ==> (
        #[trigger] candidates[i].rules[j]).position < positions
}

/// What all rules contribute: in the order of the rules, and for each rule file by file.
pub open spec fn all_contributions(
    files: FilesView,
    candidates: Seq<CandidateView>,
) -> Seq<ContributionView> {
    contributions(
        files,
        candidates,
        choose|positions: nat| positions_below(candidates, positions),
    )
}

/// The list with one more badge, unless it is there already.
pub open spec fn with_badge(list: Seq<BadgeView>, badge: BadgeView) -> Seq<BadgeView> {
    if list.contains(badge) {
        list
    } else {
        list.push(badge)
    }
}

/// The badges of a path.
pub open spec fn badges_at(badges: BadgesView, key: PlaceView) -> Seq<BadgeView> {
    if badges.contains_key(key) {
        badges[key]
    } else {
        Seq::empty()
    }
}

/// The badges with all contributions of a worktree added to them, one after the other.
pub open spec fn with_contributions(
    badges: BadgesView,
    worktree_id: usize,
    list: Seq<ContributionView>,
) -> BadgesView
    decreases list.len(),
{
    if list.len() == 0 {
        badges
    } else {
        let before = with_contributions(badges, worktree_id, list.drop_last());
        let key = PlaceView { worktree_id, path: list.last().0 };
        before.insert(key, with_badge(badges_at(before, key), list.last().1))
    }
}

/// Positions at which there are no rules contribute nothing.
proof fn lemma_positions_below(
    files: FilesView,
    candidates: Seq<CandidateView>,
    few: nat,
    many: nat,
)
    requires
        few <= many,
        positions_below(candidates, few),
    ensures
        contributions(files, candidates, few) == contributions(files, candidates, many),
    decreases many,
{
    if few < many {
        let last = (many - 1) as nat;
        lemma_positions_below(files, candidates, few, last);
        lemma_no_candidates(files, candidates, last);
        assert(contributions(files, candidates, many) =~= contributions(files, candidates, last));
    }
}

proof fn lemma_no_rules(
    matches: Map<Seq<char>, bool>,
    path: Seq<Seq<char>>,
    rules: Seq<CompiledView>,
    position: nat,
)
    requires
        forall|j: int| 0 <= j < rules.len() ==> (#[trigger] rules[j]).position < position,
    ensures
        from_rules(matches, path, rules, position) == Seq::<ContributionView>::empty(),
    decreases rules.len(),
{
    if rules.len() > 0 {
        assert forall|j: int| 0 <= j < rules.drop_last().len() implies (
        #[trigger] rules.drop_last()[j]).position < position by {
            assert(rules[j].position < position);
        }
        lemma_no_rules(matches, path, rules.drop_last(), position);
    }
}

proof fn lemma_no_candidates(files: FilesView, candidates: Seq<CandidateView>, position: nat)
    requires
        positions_below(candidates, position),
    ensures
        from_candidates(files, candidates, position) == Seq::<ContributionView>::empty(),
    decreases candidates.len(),
{
    if candidates.len() > 0 {
        let init = candidates.drop_last();
        let last = candidates.last();
        assert forall|i: int, j: int|
            0 <= i < init.len() && 0 <= j < init[i].rules.len() implies (
        #[trigger] init[i].rules[j]).position < position by {
            assert(candidates[i].rules[j].position < position);
        }
        lemma_no_candidates(files, init, position);
        let text = unix_text(last.path);
        if files.contains_key(text) {
            assert forall|j: int| 0 <= j < last.rules.len() implies (
            #[trigger] last.rules[j]).position < position by {
                assert(candidates[candidates.len() - 1].rules[j].position < position);
            }
            lemma_no_rules(files[text].matches, last.path, last.rules, position);
        }
        assert(from_candidates(files, candidates, position)
            =~= Seq::<ContributionView>::empty());
    }
}

/// The number of positions does not matter, as long as it covers all rules.
pub proof fn lemma_all_contributions(
    files: FilesView,
    candidates: Seq<CandidateView>,
    positions: nat,
)
    requires
        positions_below(candidates, positions),
    ensures
        all_contributions(files, candidates) == contributions(files, candidates, positions),
{
    let chosen = choose|positions: nat| positions_below(candidates, positions);
    if chosen <= positions {
        lemma_positions_below(files, candidates, chosen, positions);
    } else {
        lemma_positions_below(files, candidates, positions, chosen);
    }
}

/// Adds a badge to those of a path.
fn add_badge(badges: &mut Badges, key: BadgeKey, badge: Badge)
    ensures
        badges_view(*final(badges)) == badges_view(*old(badges)).insert(
            key@,
            with_badge(badges_at(badges_view(*old(badges)), key@), badge@),
        ),
{
    let ghost was = badges_view(*badges);
    let mut list: Vec<Badge> = match badges.remove(&key) {
        Some(list) => list,
        None => Vec::new(),
    };
    let ghost held = badge_views(list@);
    assert(held =~= badges_at(was, key@));
    let mut found: bool = false;
    let mut i: usize = 0;
    while i < list.len()
        invariant
            i <= list@.len(),
            held == badge_views(list@),
            found <==> exists|j: int| 0 <= j < i && #[trigger] held[j] == badge@,
        decreases list@.len() - i,
    {
        assert(held[i as int] == list@[i as int]@);
        if list[i].same(&badge) {
            found = true;
        }
        i = i + 1;
    }
    assert(found <==> held.contains(badge@)) by {
        if held.contains(badge@) {
            assert(held[held.index_of(badge@)] == badge@);
        }
    }
    let ghost badge_view = badge@;
    if !found {
        list.push(badge);
        assert(badge_views(list@) =~= held.push(badge_view));
    }
    let ghost key_view = key@;
    badges.insert(key, list);
    assert(badges_view(*badges) =~= was.insert(key_view, with_badge(held, badge_view)));
}

/// Adds the badges of the rules at `position` for one file.
fn add_from_rules(
    badges: &mut Badges,
    worktree_id: usize,
    matches: &SortedMap<String, bool>,
    path: &RelPath,
    rules: &Vec<CompiledRule>,
    position: usize,
)
    ensures
        badges_view(*final(badges)) == with_contributions(
            badges_view(*old(badges)),
            worktree_id,
            from_rules(matches@, path@, compiled_views(rules@), position as nat),
        ),
{
    let ghost was = badges_view(*badges);
    let ghost views = compiled_views(rules@);
    let mut i: usize = 0;
    assert(views.take(0) =~= Seq::<CompiledView>::empty());
    while i < rules.len()
        invariant
            i <= rules@.len(),
            views == compiled_views(rules@),
            badges_view(*badges) == with_contributions(
                was,
                worktree_id,
                from_rules(matches@, path@, views.take(i as int), position as nat),
            ),
        decreases rules@.len() - i,
    {
        let rule = &rules[i];
        let ghost before = from_rules(matches@, path@, views.take(i as int), position as nat);
        assert(views.take(i + 1).drop_last() =~= views.take(i as int));
        assert(views.take(i + 1).last() == rule@);
        if rule.position == position {
            match matches.get(rule.matcher.fingerprint()) {
                Some(matched) => if *matched {
                    match path.ancestor(rule.level as usize) {
                        Some(target) => {
                            let badge = rule.badge.clone();
                            proof {
                                let now = before.push((target@, badge@));
                                assert(now.drop_last() =~= before);
                                assert(now.last() == (target@, badge@));
                            }
                            add_badge(badges, BadgeKey { worktree_id, path: target }, badge);
                        },
                        None => {},
                    }
                },
                None => {},
            }
        }
        i = i + 1;
    }
    assert(views.take(i as int) =~= views);
}

/// Contributions can be added in two steps.
pub proof fn lemma_with_contributions_add(
    badges: BadgesView,
    worktree_id: usize,
    first: Seq<ContributionView>,
    second: Seq<ContributionView>,
)
    ensures
        with_contributions(badges, worktree_id, first + second) == with_contributions(
            with_contributions(badges, worktree_id, first),
            worktree_id,
            second,
        ),
    decreases second.len(),
{
    if second.len() == 0 {
        assert(first + second =~= first);
    } else {
        lemma_with_contributions_add(badges, worktree_id, first, second.drop_last());
        assert((first + second).drop_last() =~= first + second.drop_last());
        assert((first + second).last() == second.last());
    }
}

/// Adds the badges of the rules at `position` for all files.
fn add_position(
    badges: &mut Badges,
    worktree_id: usize,
    cache: &PersistedCache,
    candidates: &Vec<Candidate>,
    position: usize,
)
    ensures
        badges_view(*final(badges)) == with_contributions(
            badges_view(*old(badges)),
            worktree_id,
            from_candidates(cache@.files, candidate_views(candidates@), position as nat),
        ),
{
    let ghost was = badges_view(*badges);
    let ghost views = candidate_views(candidates@);
    let ghost files = cache@.files;
    let mut i: usize = 0;
    assert(views.take(0) =~= Seq::<CandidateView>::empty());
    while i < candidates.len()
        invariant
            i <= candidates@.len(),
            views == candidate_views(candidates@),
            files == cache@.files,
            badges_view(*badges) == with_contributions(
                was,
                worktree_id,
                from_candidates(files, views.take(i as int), position as nat),
            ),
        decreases candidates@.len() - i,
    {
        let candidate = &candidates[i];
        let ghost before = from_candidates(files, views.take(i as int), position as nat);
        proof {
            assert(views.take(i + 1).drop_last() =~= views.take(i as int));
            assert(views.take(i + 1).last() == candidate@);
            lemma_with_contributions_add(
                was,
                worktree_id,
                before,
                from_candidate(files, candidate@, position as nat),
            );
        }
        let text = candidate.path.as_unix_str();
        match cache.files.get(&text) {
            Some(file) => add_from_rules(
                badges,
                worktree_id,
                &file.matches,
                &candidate.path,
                &candidate.rules,
                position,
            ),
            None => {},
        }
        i = i + 1;
    }
    assert(views.take(i as int) =~= views);
}

/// The last position that has to be looked at.
fn last_position(candidates: &Vec<Candidate>) -> (last: usize)
    ensures
        positions_below(candidate_views(candidates@), (last + 1) as nat),
{
    let ghost views = candidate_views(candidates@);
    let mut last: usize = 0;
    let mut i: usize = 0;
    while i < candidates.len()
        invariant
            i <= candidates@.len(),
            views == candidate_views(candidates@),
            forall|h: int, k: int|
                0 <= h < i && 0 <= k < views[h].rules.len() ==> (
                #[trigger] views[h].rules[k]).position <= last,
        decreases candidates@.len() - i,
    {
        let rules = &candidates[i].rules;
        let ghost here = compiled_views(rules@);
        let ghost was = last;
        let mut j: usize = 0;
        while j < rules.len()
            invariant
                here == compiled_views(rules@),
                j <= rules@.len(),
                was <= last,
                forall|k: int| 0 <= k < j ==> (#[trigger] here[k]).position <= last,
            decreases rules@.len() - j,
        {
            assert(here[j as int] == rules@[j as int]@);
            if rules[j].position > last {
                last = rules[j].position;
            }
            j = j + 1;
        }
        assert(views[i as int].rules == here);
        i = i + 1;
    }
    last
}

/// Adds the badges of a worktree: in the order of the rules, and for each rule file by file.
pub fn collect(
    badges: &mut Badges,
    worktree_id: usize,
    cache: &PersistedCache,
    candidates: &Vec<Candidate>,
)
    ensures
        badges_view(*final(badges)) == with_contributions(
            badges_view(*old(badges)),
            worktree_id,
            all_contributions(cache@.files, candidate_views(candidates@)),
        ),
{
    let ghost was = badges_view(*badges);
    let ghost views = candidate_views(candidates@);
    let ghost files = cache@.files;
    let last: usize = last_position(candidates);
    let mut position: usize = 0;
    while position < last
        invariant
            position <= last,
            views == candidate_views(candidates@),
            files == cache@.files,
            badges_view(*badges) == with_contributions(
                was,
                worktree_id,
                contributions(files, views, position as nat),
            ),
        decreases last - position,
    {
        proof {
            lemma_with_contributions_add(
                was,
                worktree_id,
                contributions(files, views, position as nat),
                from_candidates(files, views, position as nat),
            );
        }
        add_position(badges, worktree_id, cache, candidates, position);
        position = position + 1;
    }
    proof {
        lemma_with_contributions_add(
            was,
            worktree_id,
            contributions(files, views, last as nat),
            from_candidates(files, views, last as nat),
        );
        lemma_all_contributions(files, views, (last + 1) as nat);
    }
    add_position(badges, worktree_id, cache, candidates, last);
}

} // verus!
