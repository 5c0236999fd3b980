//! The rules of the settings, made ready for use, and which of them hold for a file.
use vstd::prelude::*;
use vstd::string::*;

use crate::badge::badge_of_rule;
use crate::badge::rule_error_text;
use crate::badge::rule_views;
use crate::badge::scope_views;
use crate::badge::Badge;
use crate::badge::BadgeView;
use crate::badge::FileBadgeRule;
use crate::badge::IconSet;
use crate::badge::RuleScope;
use crate::badge::RuleView;
use crate::badge::ScopeView;
use crate::matcher::matcher_error;
use crate::matcher::matcher_of;
use crate::matcher::Matcher;
use crate::matcher::MatcherView;
use crate::matcher::Patterns;
use crate::matcher::PatternsView;
use crate::patterns::glob_matches;
use crate::rel_path::within;
use crate::rel_path::RelPath;
use crate::sorted_map::SortedMap;
use crate::text::debug_text;
use crate::text::decimal;
use crate::text::decimal_text;
use crate::text::quoted;

verus! {

/// A rule that can be used.
pub struct CompiledRule {
    pub matcher: Matcher,
    pub badge: Badge,
    pub level: u32,
    /// Where the rule stands among the rules of its scope.
    pub position: usize,
}

/// The model of a [`CompiledRule`].
pub ghost struct CompiledView {
    pub matcher: MatcherView,
    pub badge: BadgeView,
    pub level: u32,
    pub position: usize,
}

impl View for CompiledRule {
    type V = CompiledView;

    open spec fn view(&self) -> CompiledView {
        CompiledView {
            matcher: self.matcher@,
            badge: self.badge@,
            level: self.level,
            position: self.position,
        }
    }
}

impl Clone for CompiledRule {
    fn clone(&self) -> (copy: Self)
        ensures
            copy@ == self@,
    {
        CompiledRule {
            matcher: self.matcher.clone(),
            badge: self.badge.clone(),
            level: self.level,
            position: self.position,
        }
    }
}

/// The views of a list of rules.
pub open spec fn compiled_views(rules: Seq<CompiledRule>) -> Seq<CompiledView> {
    rules.map_values(|r: CompiledRule| r@)
}

/// The patterns of a rule.
pub open spec fn patterns_of(rule: RuleView) -> PatternsView {
    PatternsView { filename: rule.filename, content: rule.content_regex }
}

/// The rule at `position`, made ready for use; or why that cannot be done. What is wrong with the
/// badge comes before what is wrong with the patterns.
pub open spec fn compiled_rule(
    rule: RuleView,
    icons: Map<Seq<char>, Seq<char>>,
    position: usize,
) -> Result<CompiledView, Seq<char>> {
    match badge_of_rule(rule, icons) {
        Err(error) => Err(rule_error_text(error)),
        Ok(badge) => match matcher_error(patterns_of(rule)) {
            Some(text) => Err(text),
            None => Ok(
                CompiledView {
                    matcher: matcher_of(patterns_of(rule)),
                    badge,
                    level: rule.icon_level,
                    position,
                },
            ),
        },
    }
}

/// What is reported of the rule at `position`, whose glob is shown as `name`.
pub open spec fn rule_message(position: usize, name: Seq<char>, error: Seq<char>) -> Seq<char> {
    "Rule "@ + decimal((position + 1) as nat) + " ("@ + name + "): "@ + error
}

/// What is reported of the rule at `position`. Its glob is shown in quotes.
pub open spec fn rule_report(rule: RuleView, position: usize, error: Seq<char>) -> Seq<char> {
    rule_message(position, debug_text(rule.filename), error)
}

/// The rules that can be used, in their order.
pub open spec fn usable_rules(
    rules: Seq<RuleView>,
    icons: Map<Seq<char>, Seq<char>>,
) -> Seq<CompiledView>
    decreases rules.len(),
{
    if rules.len() == 0 {
        Seq::empty()
    } else {
        let before = usable_rules(rules.drop_last(), icons);
        match compiled_rule(rules.last(), icons, (rules.len() - 1) as usize) {
            Ok(rule) => before.push(rule),
            Err(_) => before,
        }
    }
}

/// What is reported of the rules that cannot be used, in their order.
pub open spec fn rule_reports(
    rules: Seq<RuleView>,
    icons: Map<Seq<char>, Seq<char>>,
) -> Seq<Seq<char>>
    decreases rules.len(),
{
    if rules.len() == 0 {
        Seq::empty()
    } else {
        let before = rule_reports(rules.drop_last(), icons);
        let position = (rules.len() - 1) as usize;
        match compiled_rule(rules.last(), icons, position) {
            Ok(_) => before,
            Err(error) => before.push(rule_report(rules.last(), position, error)),
        }
    }
}

/// The rules of one scope that can be used.
pub struct CompiledScope {
    pub worktree_id: Option<usize>,
    pub path: RelPath,
    pub rules: Vec<CompiledRule>,
}

/// The model of a [`CompiledScope`].
pub ghost struct CompiledScopeView {
    pub worktree_id: Option<usize>,
    pub path: Seq<Seq<char>>,
    pub rules: Seq<CompiledView>,
}

impl View for CompiledScope {
    type V = CompiledScopeView;

    open spec fn view(&self) -> CompiledScopeView {
        CompiledScopeView {
            worktree_id: self.worktree_id,
            path: self.path@,
            rules: compiled_views(self.rules@),
        }
    }
}

/// The views of a list of scopes.
pub open spec fn compiled_scope_views(scopes: Seq<CompiledScope>) -> Seq<CompiledScopeView> {
    scopes.map_values(|s: CompiledScope| s@)
}

/// A scope with its usable rules.
pub open spec fn usable_scope(
    scope: ScopeView,
    icons: Map<Seq<char>, Seq<char>>,
) -> CompiledScopeView {
    CompiledScopeView {
        worktree_id: scope.worktree_id,
        path: scope.path,
        rules: usable_rules(scope.rules, icons),
    }
}

/// All scopes, with their usable rules.
pub open spec fn usable_scopes(
    scopes: Seq<ScopeView>,
    icons: Map<Seq<char>, Seq<char>>,
) -> Seq<CompiledScopeView> {
    scopes.map_values(|s: ScopeView| usable_scope(s, icons))
}

/// What is reported of the rules of all scopes.
pub open spec fn scope_reports(
    scopes: Seq<ScopeView>,
    icons: Map<Seq<char>, Seq<char>>,
) -> Seq<Seq<char>>
    decreases scopes.len(),
{
    if scopes.len() == 0 {
        Seq::empty()
    } else {
        scope_reports(scopes.drop_last(), icons) + rule_reports(scopes.last().rules, icons)
    }
}

/// The texts behind a list of strings.
pub open spec fn texts(strings: Seq<String>) -> Seq<Seq<char>> {
    strings.map_values(|s: String| s@)
}

/// What came of making a matcher of each pair of patterns, so that each pair is tried once.
pub struct Matchers {
    made: SortedMap<Patterns, Result<Matcher, String>>,
}

impl Matchers {
    /// What is kept is what compiling the patterns gives.
    #[verifier::type_invariant]
    spec fn faithful(self) -> bool {
        forall|patterns: PatternsView| #[trigger]
            self.made@.contains_key(patterns) ==> match self.made@[patterns] {
                Ok(matcher) => matcher@ == matcher_of(patterns) && matcher_error(patterns) is None,
                Err(error) => matcher_error(patterns) == Some(error@),
            }
    }

    /// The patterns of which it is known what comes of compiling them.
    pub closed spec fn made(&self) -> Set<PatternsView> {
        self.made@.dom()
    }

    pub fn new() -> (matchers: Matchers)
        ensures
            matchers.made() == Set::<PatternsView>::empty(),
    {
        let matchers = Matchers { made: SortedMap::new() };
        assert(matchers.made() =~= Set::<PatternsView>::empty());
        matchers
    }

    /// The matcher of these patterns, or why there is none.
    pub fn get(&mut self, filename: &String, content_regex: &String) -> (matcher: Result<
        Matcher,
        String,
    >)
        ensures
            ({
                let patterns = PatternsView { filename: filename@, content: content_regex@ };
                match matcher {
                    Ok(m) => m@ == matcher_of(patterns) && matcher_error(patterns) is None,
                    Err(e) => matcher_error(patterns) == Some(e@),
                }
            }),
            final(self).made() == old(self).made().insert(
                PatternsView { filename: filename@, content: content_regex@ },
            ),
    {
        proof {
            use_type_invariant(&*self);
        }
        let ghost was = self.made();
        let patterns = Patterns { filename: filename.clone(), content: content_regex.clone() };
        let ghost key = patterns@;
        match self.made.get(&patterns) {
            Some(Ok(matcher)) => {
                assert(was.insert(key) =~= was);
                return Ok(matcher.clone());
            },
            Some(Err(error)) => {
                assert(was.insert(key) =~= was);
                return Err(error.clone());
            },
            None => {},
        }
        let mut made: SortedMap<Patterns, Result<Matcher, String>> = SortedMap::new();
        std::mem::swap(&mut made, &mut self.made);
        let matcher = match Matcher::compile(filename.as_str(), content_regex.as_str()) {
            Ok(matcher) => {
                made.insert(patterns, Ok(matcher.clone()));
                Ok(matcher)
            },
            Err(error) => {
                made.insert(patterns, Err(error.message.clone()));
                Err(error.message)
            },
        };
        self.made = made;
        assert(self.made() =~= was.insert(key));
        matcher
    }
}

/// Makes the rule at `position` ready for use.
pub fn compile_rule(
    rule: &FileBadgeRule,
    icons: &IconSet,
    position: usize,
    matchers: &mut Matchers,
) -> (compiled: Result<CompiledRule, String>)
    ensures
        match compiled {
            Ok(c) => compiled_rule(rule@, icons@, position) == Ok::<CompiledView, Seq<char>>(c@),
            Err(e) => compiled_rule(rule@, icons@, position) == Err::<CompiledView, Seq<char>>(e@),
        },
{
    match Badge::from_rule(rule, icons) {
        Err(error) => Err(error.message()),
        Ok(badge) => match matchers.get(&rule.filename, &rule.content_regex) {
            Err(error) => Err(error),
            Ok(matcher) => Ok(
                CompiledRule { matcher, badge, level: rule.icon_level, position },
            ),
        },
    }
}

/// Says what is wrong with the rule at `position`, whose glob is shown as `name`.
pub fn message_of_rule(position: usize, name: &str, error: &str) -> (text: String)
    requires
        position < usize::MAX,
    ensures
        text@ == rule_message(position, name@, error@),
{
    let mut text: String = "Rule ".to_owned();
    let number = decimal_text(position + 1);
    text.append(number.as_str());
    text.append(" (");
    text.append(name);
    text.append("): ");
    text.append(error);
    text
}

/// Makes the rules of a scope ready for use, and reports those that cannot be used.
fn compile_rules(
    rules: &Vec<FileBadgeRule>,
    icons: &IconSet,
    matchers: &mut Matchers,
    errors: &mut Vec<String>,
) -> (compiled: Vec<CompiledRule>)
    ensures
        compiled_views(compiled@) == usable_rules(rule_views(rules@), icons@),
        texts(final(errors)@) == texts(old(errors)@) + rule_reports(rule_views(rules@), icons@),
{
    let ghost views = rule_views(rules@);
    let ghost reported = texts(errors@);
    let mut compiled: Vec<CompiledRule> = Vec::new();
    let mut i: usize = 0;
    assert(compiled_views(compiled@) =~= usable_rules(views.take(0), icons@));
    assert(reported =~= reported + rule_reports(views.take(0), icons@));
    while i < rules.len()
        invariant
            i <= rules@.len(),
            views == rule_views(rules@),
            compiled_views(compiled@) == usable_rules(views.take(i as int), icons@),
            texts(errors@) == reported + rule_reports(views.take(i as int), icons@),
        decreases rules@.len() - i,
    {
        let ghost next = views.take(i + 1);
        let ghost compiled_was = compiled_views(compiled@);
        let ghost errors_was = texts(errors@);
        assert(next.drop_last() =~= views.take(i as int));
        assert(next.last() == rules@[i as int]@);
        match compile_rule(&rules[i], icons, i, matchers) {
            Ok(rule) => {
                compiled.push(rule);
                assert(compiled_views(compiled@) =~= compiled_was.push(rule@));
            },
            Err(error) => {
                let name = quoted(rules[i].filename.as_str());
                let text = message_of_rule(i, name.as_str(), error.as_str());
                errors.push(text);
                assert(texts(errors@) =~= errors_was.push(text@));
                assert(errors_was.push(text@) =~= reported + rule_reports(next, icons@));
            },
        }
        i = i + 1;
    }
    assert(views.take(i as int) =~= views);
    compiled
}

/// Makes the rules of all scopes ready for use, and reports those that cannot be used.
pub fn compile_scopes(
    scopes: &Vec<RuleScope>,
    icons: &IconSet,
    matchers: &mut Matchers,
    errors: &mut Vec<String>,
) -> (compiled: Vec<CompiledScope>)
    ensures
        compiled_scope_views(compiled@) == usable_scopes(scope_views(scopes@), icons@),
        texts(final(errors)@) == texts(old(errors)@) + scope_reports(scope_views(scopes@), icons@),
{
    let ghost views = scope_views(scopes@);
    let ghost reported = texts(errors@);
    let mut compiled: Vec<CompiledScope> = Vec::new();
    let mut i: usize = 0;
    assert(reported =~= reported + scope_reports(views.take(0), icons@));
    while i < scopes.len()
        invariant
            i <= scopes@.len(),
            views == scope_views(scopes@),
            compiled@.len() == i,
            forall|j: int| 0 <= j < i ==> #[trigger] compiled@[j]@ == usable_scope(views[j], icons@),
            texts(errors@) == reported + scope_reports(views.take(i as int), icons@),
        decreases scopes@.len() - i,
    {
        let ghost next = views.take(i + 1);
        assert(next.drop_last() =~= views.take(i as int));
        assert(next.last() == scopes@[i as int]@);
        let rules = compile_rules(&scopes[i].rules, icons, matchers, errors);
        assert(texts(errors@) =~= reported + scope_reports(next, icons@));
        compiled.push(
            CompiledScope { worktree_id: scopes[i].worktree_id, path: scopes[i].path.clone(), rules },
        );
        i = i + 1;
    }
    assert(views.take(i as int) =~= views);
    assert(compiled_scope_views(compiled@) =~= usable_scopes(views, icons@));
    compiled
}

/// A scope that is not about another worktree.
pub open spec fn concerns(scope: CompiledScopeView, worktree_id: usize) -> bool {
    scope.worktree_id is None || scope.worktree_id == Some(worktree_id)
}

/// Some rule may hold in the worktree.
pub open spec fn has_rules(scopes: Seq<CompiledScopeView>, worktree_id: usize) -> bool {
    exists|i: int|
        0 <= i < scopes.len() && concerns(#[trigger] scopes[i], worktree_id)
            && scopes[i].rules.len() > 0
}

pub fn any_rules(scopes: &Vec<CompiledScope>, worktree_id: usize) -> (yes: bool)
    ensures
        yes == has_rules(compiled_scope_views(scopes@), worktree_id),
{
    let ghost views = compiled_scope_views(scopes@);
    let mut i: usize = 0;
    while i < scopes.len()
        invariant
            i <= scopes@.len(),
            views == compiled_scope_views(scopes@),
            forall|j: int|
                0 <= j < i ==> !(concerns(#[trigger] views[j], worktree_id)
                    && views[j].rules.len() > 0),
        decreases scopes@.len() - i,
    {
        let scope = &scopes[i];
        assert(views[i as int] == scope@);
        let concerned: bool = match scope.worktree_id {
            None => true,
            Some(id) => id == worktree_id,
        };
        if concerned && scope.rules.len() > 0 {
            return true;
        }
        i = i + 1;
    }
    false
}

/// The scope holds at the path: everywhere, or below its own path.
pub open spec fn holds_at(
    scope: CompiledScopeView,
    worktree_id: usize,
    path: Seq<Seq<char>>,
) -> bool {
    match scope.worktree_id {
        None => true,
        Some(id) => id == worktree_id && within(path, scope.path),
    }
}

/// `a` is no nearer than `b`: local settings are nearer than global ones, and those of a deeper
/// directory nearer than those of one above it.
pub open spec fn no_nearer(a: CompiledScopeView, b: CompiledScopeView) -> bool {
    if a.worktree_id is Some == b.worktree_id is Some {
        a.path.len() <= b.path.len()
    } else {
        b.worktree_id is Some
    }
}

/// The scope at `i` is the one whose rules hold at the path: none that holds there is nearer, and
/// of those that are as near it is the last.
pub open spec fn governs(
    scopes: Seq<CompiledScopeView>,
    worktree_id: usize,
    path: Seq<Seq<char>>,
    i: int,
) -> bool {
    &&& 0 <= i < scopes.len()
    &&& holds_at(scopes[i], worktree_id, path)
    &&& forall|j: int|
        0 <= j < scopes.len() && holds_at(#[trigger] scopes[j], worktree_id, path) ==> no_nearer(
            scopes[j],
            scopes[i],
        )
    &&& forall|j: int|
        i < j < scopes.len() && holds_at(#[trigger] scopes[j], worktree_id, path) ==> !no_nearer(
            scopes[i],
            scopes[j],
        )
}

/// Some scope governs the path.
pub open spec fn is_governed(
    scopes: Seq<CompiledScopeView>,
    worktree_id: usize,
    path: Seq<Seq<char>>,
) -> bool {
    exists|i: int| governs(scopes, worktree_id, path, i)
}

/// The rules that hold at a path: those of the scope that governs it, if there is one.
pub open spec fn rules_at(
    scopes: Seq<CompiledScopeView>,
    worktree_id: usize,
    path: Seq<Seq<char>>,
) -> Seq<CompiledView> {
    if exists|i: int| governs(scopes, worktree_id, path, i) {
        scopes[choose|i: int| governs(scopes, worktree_id, path, i)].rules
    } else {
        Seq::empty()
    }
}

/// At most one scope governs a path.
pub proof fn lemma_governs_once(
    scopes: Seq<CompiledScopeView>,
    worktree_id: usize,
    path: Seq<Seq<char>>,
    i: int,
)
    requires
        governs(scopes, worktree_id, path, i),
    ensures
        rules_at(scopes, worktree_id, path) == scopes[i].rules,
{
    let j = choose|j: int| governs(scopes, worktree_id, path, j);
    if i < j {
        assert(!no_nearer(scopes[i], scopes[j]));
    } else if j < i {
        assert(!no_nearer(scopes[j], scopes[i]));
    }
}

/// The rules that are marked, in their order.
pub open spec fn marked_rules(rules: Seq<CompiledView>, marks: Seq<bool>) -> Seq<CompiledView>
    decreases rules.len(),
{
    if rules.len() == 0 {
        Seq::empty()
    } else {
        let before = marked_rules(rules.drop_last(), marks);
        if marks[rules.len() - 1] {
            before.push(rules.last())
        } else {
            before
        }
    }
}

/// Which rules have globs that accept a name.
pub open spec fn name_marks(rules: Seq<CompiledView>, name: Seq<char>) -> Seq<bool> {
    rules.map_values(|r: CompiledView| glob_matches(r.matcher.filename, name))
}

fn scope_holds(scope: &CompiledScope, worktree_id: usize, path: &RelPath) -> (yes: bool)
    ensures
        yes == holds_at(scope@, worktree_id, path@),
{
    match scope.worktree_id {
        None => true,
        Some(id) => id == worktree_id && path.starts_with(&scope.path),
    }
}

fn scope_no_nearer(a: &CompiledScope, b: &CompiledScope) -> (yes: bool)
    ensures
        yes == no_nearer(a@, b@),
{
    if a.worktree_id.is_some() == b.worktree_id.is_some() {
        a.path.component_count() <= b.path.component_count()
    } else {
        b.worktree_id.is_some()
    }
}

/// The scope that governs a path.
pub fn governing(scopes: &Vec<CompiledScope>, worktree_id: usize, path: &RelPath) -> (at: Option<
    usize,
>)
    ensures
        match at {
            Some(i) => governs(compiled_scope_views(scopes@), worktree_id, path@, i as int),
            None => forall|i: int|
                !governs(compiled_scope_views(scopes@), worktree_id, path@, i),
        },
        at is None ==> !is_governed(compiled_scope_views(scopes@), worktree_id, path@),
{
    let ghost views = compiled_scope_views(scopes@);
    let mut best: Option<usize> = None;
    let mut i: usize = 0;
    while i < scopes.len()
        invariant
            i <= scopes@.len(),
            views == compiled_scope_views(scopes@),
            match best {
                Some(b) => b < i && governs(views.take(i as int), worktree_id, path@, b as int),
                None => forall|j: int|
                    0 <= j < i ==> !holds_at(#[trigger] views[j], worktree_id, path@),
            },
        decreases scopes@.len() - i,
    {
        let scope = &scopes[i];
        let ghost head = views.take(i as int);
        let ghost next = views.take(i + 1);
        let ghost was = best;
        assert(views[i as int] == scope@);
        assert forall|j: int| 0 <= j < i implies #[trigger] next[j] == head[j] && next[j] == views[j] by {
        }
        if scope_holds(scope, worktree_id, path) {
            let nearer: bool = match best {
                None => true,
                Some(b) => scope_no_nearer(&scopes[b], scope),
            };
            if nearer {
                best = Some(i);
            }
        }
        proof {
            match best {
                Some(b) => {
                    assert forall|j: int|
                        0 <= j < next.len() && holds_at(
                            #[trigger] next[j],
                            worktree_id,
                            path@,
                        ) implies no_nearer(next[j], next[b as int]) by {
                        if j < i {
                            assert(holds_at(head[j], worktree_id, path@));
                        }
                    }
                    assert forall|j: int|
                        b < j < next.len() && holds_at(
                            #[trigger] next[j],
                            worktree_id,
                            path@,
                        ) implies !no_nearer(next[b as int], next[j]) by {
                        if j < i {
                            assert(holds_at(head[j], worktree_id, path@));
                        }
                    }
                    assert(governs(next, worktree_id, path@, b as int));
                },
                None => {},
            }
        }
        i = i + 1;
    }
    assert(views.take(i as int) =~= views);
    best
}

/// Picks the rules that are marked.
pub fn pick_rules(rules: &Vec<CompiledRule>, marks: &Vec<bool>) -> (picked: Vec<CompiledRule>)
    requires
        marks@.len() == rules@.len(),
    ensures
        compiled_views(picked@) == marked_rules(compiled_views(rules@), marks@),
{
    let ghost all = compiled_views(rules@);
    let mut picked: Vec<CompiledRule> = Vec::new();
    let mut i: usize = 0;
    assert(compiled_views(picked@) =~= marked_rules(all.take(0), marks@));
    while i < rules.len()
        invariant
            i <= rules@.len() == marks@.len(),
            all == compiled_views(rules@),
            compiled_views(picked@) == marked_rules(all.take(i as int), marks@),
        decreases rules@.len() - i,
    {
        let ghost was = compiled_views(picked@);
        assert(all.take(i + 1).drop_last() =~= all.take(i as int));
        assert(all.take(i + 1).last() == rules@[i as int]@);
        if marks[i] {
            let copy = rules[i].clone();
            picked.push(copy);
            assert(compiled_views(picked@) =~= was.push(copy@));
        }
        i = i + 1;
    }
    assert(all.take(i as int) =~= all);
    picked
}

fn mark_names(rules: &Vec<CompiledRule>, name: &str) -> (marks: Vec<bool>)
    ensures
        marks@ == name_marks(compiled_views(rules@), name@),
{
    let mut marks: Vec<bool> = Vec::new();
    let mut i: usize = 0;
    while i < rules.len()
        invariant
            i <= rules@.len(),
            marks@.len() == i,
            forall|j: int|
                0 <= j < i ==> #[trigger] marks@[j] == glob_matches(
                    rules@[j]@.matcher.filename,
                    name@,
                ),
        decreases rules@.len() - i,
    {
        marks.push(rules[i].matcher.filename().is_match(name));
        i = i + 1;
    }
    assert(marks@ =~= name_marks(compiled_views(rules@), name@));
    marks
}

/// The rules that hold for a file, in their order: those of the scope that governs its path whose
/// globs accept its name.
pub open spec fn rules_for(
    scopes: Seq<CompiledScopeView>,
    worktree_id: usize,
    path: Seq<Seq<char>>,
) -> Seq<CompiledView> {
    let rules = rules_at(scopes, worktree_id, path);
    marked_rules(rules, name_marks(rules, path.last()))
}

/// Picks the rules that hold for the file at `path`.
pub fn applicable(scopes: &Vec<CompiledScope>, worktree_id: usize, path: &RelPath, name: &str) -> (
rules: Vec<CompiledRule>)
    requires
        path@.len() > 0,
        name@ == path@.last(),
    ensures
        compiled_views(rules@) == rules_for(compiled_scope_views(scopes@), worktree_id, path@),
{
    let ghost views = compiled_scope_views(scopes@);
    match governing(scopes, worktree_id, path) {
        None => {
            let none: Vec<CompiledRule> = Vec::new();
            assert(compiled_views(none@) =~= Seq::<CompiledView>::empty());
            none
        },
        Some(at) => {
            let rules = &scopes[at].rules;
            proof {
                lemma_governs_once(views, worktree_id, path@, at as int);
                assert(views[at as int].rules == compiled_views(rules@));
            }
            let marks = mark_names(rules, name);
            pick_rules(rules, &marks)
        },
    }
}

} // verus!
