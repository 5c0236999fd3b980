//! What the settings come to: their scopes, which of them govern a file, and what is made of their
//! rules.
use vstd::prelude::*;

use crate::badge::local_scope;
use crate::badge::rule_views;
use crate::badge::scope_views;
use crate::badge::Badge;
use crate::badge::FileBadgeRule;
use crate::badge::IconSet;
use crate::badge::RuleError;
use crate::badge::RuleScope;
use crate::badge::RuleView;
use crate::badge_laws::law_some_scope_governs;
use crate::json::pair_json;
use crate::matcher::sha256_hex;
use crate::matcher::Matcher;
use crate::patterns::byte_regex_error;
use crate::patterns::glob_expression;
use crate::patterns::glob_matches;
use crate::patterns::regex_error;
use crate::patterns::PatternError;
use crate::rel_path::RelPath;
use crate::rules::any_rules;
use crate::rules::applicable;
use crate::rules::compile_rule;
use crate::rules::compile_scopes;
use crate::rules::compiled_rule;
use crate::rules::compiled_scope_views;
use crate::rules::compiled_views;
use crate::rules::concerns;
use crate::rules::governing;
use crate::rules::governs;
use crate::rules::has_rules;
use crate::rules::holds_at;
use crate::rules::is_governed;
use crate::rules::lemma_governs_once;
use crate::rules::marked_rules;
use crate::rules::name_marks;
use crate::rules::no_nearer;
use crate::rules::rule_reports;
use crate::rules::rules_at;
use crate::rules::rules_for;
use crate::rules::scope_reports;
use crate::rules::usable_rules;
use crate::rules::usable_scope;
use crate::rules::CompiledRule;
use crate::rules::CompiledScope;
use crate::rules::CompiledScopeView;
use crate::rules::CompiledView;
use crate::rules::Matchers;
use crate::text::debug_text;
use crate::text::decimal;
use crate::text::decimal_text;
use crate::text::digit;
use crate::text::is_blank;

verus! {

/// The global rules come first and hold for all worktrees; each local list of rules follows, in
/// order, for the directory of the worktree where it stands. No list is left out.
pub proof fn law_settings_make_scopes(
    global: Vec<FileBadgeRule>,
    locals: Vec<(usize, RelPath, Vec<FileBadgeRule>)>,
    scopes: Vec<RuleScope>,
)
    requires
        call_ensures(RuleScope::all, (global, locals), scopes),
    ensures
        scopes@.len() == 1 + locals@.len(),
        scopes@[0].worktree_id is None,
        scopes@[0].path@.len() == 0,
        scopes@[0].rules@.len() == global@.len(),
        forall|r: int|
            0 <= r < global@.len() ==> scopes@[0].rules@[r]@ == (#[trigger] global@[r])@,
        forall|k: int|
            0 <= k < locals@.len() ==> {
                &&& scopes@[k + 1].worktree_id == Some((#[trigger] locals@[k]).0)
                &&& scopes@[k + 1].path@ == locals@[k].1@
                &&& scopes@[k + 1].rules@.len() == locals@[k].2@.len()
            },
        forall|k: int, r: int|
            0 <= k < locals@.len() && 0 <= r < locals@[k].2@.len() ==> scopes@[k + 1].rules@[r]@ == (
            #[trigger] locals@[k].2@[r])@,
{
    let views = scope_views(scopes@);
    let own = locals@.map_values(
        |local: (usize, RelPath, Vec<FileBadgeRule>)| local_scope(local),
    );
    assert(views.len() == scopes@.len());
    assert(views[0] == scopes@[0]@);
    assert(rule_views(scopes@[0].rules@) == rule_views(global@));
    assert(rule_views(scopes@[0].rules@).len() == scopes@[0].rules@.len());
    assert forall|r: int| 0 <= r < global@.len() implies scopes@[0].rules@[r]@ == (
    #[trigger] global@[r])@ by {
        assert(rule_views(scopes@[0].rules@)[r] == rule_views(global@)[r]);
    }
    assert forall|k: int| 0 <= k < locals@.len() implies scopes@[k + 1]@ == local_scope(
        #[trigger] locals@[k],
    ) by {
        assert(views[k + 1] == own[k]);
    }
    assert forall|k: int| 0 <= k < locals@.len() implies {
        &&& scopes@[k + 1].worktree_id == Some((#[trigger] locals@[k]).0)
        &&& scopes@[k + 1].path@ == locals@[k].1@
        &&& scopes@[k + 1].rules@.len() == locals@[k].2@.len()
    } by {
        assert(scopes@[k + 1]@ == local_scope(locals@[k]));
        assert(rule_views(scopes@[k + 1].rules@).len() == scopes@[k + 1].rules@.len());
        assert(rule_views(locals@[k].2@).len() == locals@[k].2@.len());
    }
    assert forall|k: int, r: int|
        0 <= k < locals@.len() && 0 <= r < locals@[k].2@.len() implies scopes@[k + 1].rules@[r]@ == (
    #[trigger] locals@[k].2@[r])@ by {
        assert(scopes@[k + 1]@ == local_scope(locals@[k]));
        assert(rule_views(scopes@[k + 1].rules@).len() == scopes@[k + 1].rules@.len());
        assert(rule_views(scopes@[k + 1].rules@)[r] == rule_views(locals@[k].2@)[r]);
    }
}

/// The settings that govern a path are the nearest ones: of those of its worktree in directories
/// at or above it, the deepest, and the global ones only where there are none of these. Of two at
/// one place the later ones govern. Where there are no settings at or above the path, none do.
pub proof fn law_nearest_settings_govern(
    scopes: &Vec<CompiledScope>,
    worktree_id: usize,
    path: &RelPath,
    at: Option<usize>,
)
    requires
        call_ensures(governing, (scopes, worktree_id, path), at),
    ensures
        at matches Some(i) ==> i < scopes@.len() && (scopes@[i as int].worktree_id matches Some(
            id,
        ) ==> {
            &&& id == worktree_id
            &&& scopes@[i as int].path@.len() <= path@.len()
            &&& forall|k: int|
                0 <= k < scopes@[i as int].path@.len() ==> #[trigger] path@[k]
                    == scopes@[i as int].path@[k]
        }),
        at matches Some(i) ==> forall|j: int|
            0 <= j < scopes@.len() && (#[trigger] scopes@[j]).worktree_id == Some(worktree_id)
                && scopes@[j].path@.len() <= path@.len() && (forall|k: int|
                0 <= k < scopes@[j].path@.len() ==> #[trigger] path@[k] == scopes@[j].path@[k])
                ==> {
                &&& scopes@[i as int].worktree_id is Some
                &&& scopes@[j].path@.len() <= scopes@[i as int].path@.len()
                &&& scopes@[j].path@.len() == scopes@[i as int].path@.len() ==> j <= i
            },
        at matches Some(i) ==> (scopes@[i as int].worktree_id is None ==> forall|j: int|
            0 <= j < scopes@.len() && (#[trigger] scopes@[j]).worktree_id is None ==> {
                &&& scopes@[j].path@.len() <= scopes@[i as int].path@.len()
                &&& scopes@[j].path@.len() == scopes@[i as int].path@.len() ==> j <= i
            }),
        at is None ==> forall|j: int|
            0 <= j < scopes@.len() ==> {
                ||| (#[trigger] scopes@[j]).worktree_id is Some && scopes@[j].worktree_id != Some(
                    worktree_id,
                )
                ||| scopes@[j].worktree_id is Some && scopes@[j].path@.len() > path@.len()
                ||| scopes@[j].worktree_id is Some && exists|k: int|
                    0 <= k < scopes@[j].path@.len() && #[trigger] path@[k] != scopes@[j].path@[k]
            },
{
    let views = compiled_scope_views(scopes@);
    let p = path@;
    assert forall|j: int| 0 <= j < scopes@.len() implies #[trigger] views[j] == scopes@[j]@ by {}
    assert forall|j: int| 0 <= j < scopes@.len() implies (holds_at(
        #[trigger] views[j],
        worktree_id,
        p,
    ) <==> scopes@[j].worktree_id is None || (scopes@[j].worktree_id == Some(worktree_id)
        && scopes@[j].path@.len() <= p.len() && forall|k: int|
        0 <= k < scopes@[j].path@.len() ==> #[trigger] p[k] == scopes@[j].path@[k])) by {
        let d = scopes@[j].path@;
        if d.len() <= p.len() {
            if p.take(d.len() as int) == d {
                assert forall|k: int| 0 <= k < d.len() implies #[trigger] p[k] == d[k] by {
                    assert(p.take(d.len() as int)[k] == p[k]);
                }
            }
            if forall|k: int| 0 <= k < d.len() ==> #[trigger] p[k] == d[k] {
                assert(p.take(d.len() as int) =~= d);
            }
        }
    }
    match at {
        Some(i) => {
            assert(governs(views, worktree_id, p, i as int));
            assert(views[i as int] == scopes@[i as int]@);
            assert forall|j: int|
                0 <= j < scopes@.len() && holds_at(#[trigger] views[j], worktree_id, p) implies {
                &&& no_nearer(views[j], views[i as int])
                &&& j > i ==> !no_nearer(views[i as int], views[j])
            } by {}
            assert forall|j: int|
                0 <= j < scopes@.len() && (#[trigger] scopes@[j]).worktree_id == Some(worktree_id)
                    && scopes@[j].path@.len() <= path@.len() && (forall|k: int|
                    0 <= k < scopes@[j].path@.len() ==> #[trigger] path@[k]
                        == scopes@[j].path@[k]) implies {
                &&& scopes@[i as int].worktree_id is Some
                &&& scopes@[j].path@.len() <= scopes@[i as int].path@.len()
                &&& scopes@[j].path@.len() == scopes@[i as int].path@.len() ==> j <= i
            } by {
                assert(views[j] == scopes@[j]@);
                assert(holds_at(views[j], worktree_id, p));
            }
            if scopes@[i as int].worktree_id is None {
                assert forall|j: int|
                    0 <= j < scopes@.len() && (#[trigger] scopes@[j]).worktree_id is None implies {
                    &&& scopes@[j].path@.len() <= scopes@[i as int].path@.len()
                    &&& scopes@[j].path@.len() == scopes@[i as int].path@.len() ==> j <= i
                } by {
                    assert(holds_at(views[j], worktree_id, p));
                }
            }
        },
        None => {
            assert(!is_governed(views, worktree_id, p));
            assert forall|j: int| 0 <= j < scopes@.len() implies {
                ||| (#[trigger] scopes@[j]).worktree_id is Some && scopes@[j].worktree_id != Some(
                    worktree_id,
                )
                ||| scopes@[j].worktree_id is Some && scopes@[j].path@.len() > path@.len()
                ||| scopes@[j].worktree_id is Some && exists|k: int|
                    0 <= k < scopes@[j].path@.len() && #[trigger] path@[k] != scopes@[j].path@[k]
            } by {
                if holds_at(views[j], worktree_id, p) {
                    law_some_scope_governs(views, worktree_id, p, j);
                    let i = choose|i: int| governs(views, worktree_id, p, i);
                    assert(governs(views, worktree_id, p, i));
                }
                assert(!holds_at(views[j], worktree_id, p));
                if scopes@[j].worktree_id == Some(worktree_id) && scopes@[j].path@.len()
                    <= p.len() {
                    let k = choose|k: int|
                        0 <= k < scopes@[j].path@.len() && p[k] != scopes@[j].path@[k];
                    assert(path@[k] != scopes@[j].path@[k]);
                }
            }
        },
    }
}

/// The rules that hold for a file are those of the settings that govern it whose globs accept its
/// name, in their order. Without such settings there are none.
pub proof fn law_governing_rules_hold(
    scopes: &Vec<CompiledScope>,
    worktree_id: usize,
    path: &RelPath,
    name: &str,
    at: Option<usize>,
    rules: Vec<CompiledRule>,
)
    requires
        path@.len() > 0,
        name@ == path@.last(),
        call_ensures(governing, (scopes, worktree_id, path), at),
        call_ensures(applicable, (scopes, worktree_id, path, name), rules),
    ensures
        at is None ==> rules@.len() == 0,
        at matches Some(i) ==> rules@.map_values(|r: CompiledRule| r@)
            == scopes@[i as int].rules@.map_values(|r: CompiledRule| r@).filter(
            |r: CompiledView| glob_matches(r.matcher.filename, name@),
        ),
{
    let views = compiled_scope_views(scopes@);
    assert(compiled_views(rules@).len() == rules@.len());
    match at {
        Some(i) => {
            assert(views[i as int] == scopes@[i as int]@);
            lemma_governs_once(views, worktree_id, path@, i as int);
            let all = compiled_views(scopes@[i as int].rules@);
            lemma_marked_filter(all, name@, name_marks(all, name@));
        },
        None => {
            let none = rules_at(views, worktree_id, path@);
            assert(none.len() == 0) by {
                if exists|i: int| governs(views, worktree_id, path@, i) {
                    let i = choose|i: int| governs(views, worktree_id, path@, i);
                    assert(governs(views, worktree_id, path@, i));
                }
            }
            assert(marked_rules(none, name_marks(none, path@.last())).len() == 0);
        },
    }
}

proof fn lemma_marked_filter(rules: Seq<CompiledView>, name: Seq<char>, marks: Seq<bool>)
    requires
        marks.len() >= rules.len(),
        forall|i: int|
            0 <= i < rules.len() ==> #[trigger] marks[i] == glob_matches(
                rules[i].matcher.filename,
                name,
            ),
    ensures
        marked_rules(rules, marks) == rules.filter(
            |r: CompiledView| glob_matches(r.matcher.filename, name),
        ),
    decreases rules.len(),
{
    reveal(Seq::filter);
    if rules.len() > 0 {
        let init = rules.drop_last();
        assert forall|i: int| 0 <= i < init.len() implies #[trigger] marks[i] == glob_matches(
            init[i].matcher.filename,
            name,
        ) by {
            assert(init[i] == rules[i]);
        }
        lemma_marked_filter(init, name, marks);
        assert(marks[rules.len() - 1] == glob_matches(
            rules[rules.len() - 1].matcher.filename,
            name,
        ));
    }
}

/// There are rules for a worktree exactly where the global settings or some of its own have one.
pub proof fn law_worktree_has_rules(scopes: &Vec<CompiledScope>, worktree_id: usize, yes: bool)
    requires
        call_ensures(any_rules, (scopes, worktree_id), yes),
    ensures
        yes <==> exists|j: int|
            0 <= j < scopes@.len() && (#[trigger] scopes@[j]).rules@.len() > 0 && (
            scopes@[j].worktree_id is None || scopes@[j].worktree_id == Some(worktree_id)),
{
    let views = compiled_scope_views(scopes@);
    assert forall|j: int| 0 <= j < scopes@.len() implies #[trigger] views[j] == scopes@[j]@
        && views[j].rules.len() == scopes@[j].rules@.len() by {}
    if yes {
        let j = choose|j: int|
            0 <= j < views.len() && concerns(#[trigger] views[j], worktree_id)
                && views[j].rules.len() > 0;
        assert(scopes@[j].rules@.len() > 0);
    }
    if exists|j: int|
        0 <= j < scopes@.len() && (#[trigger] scopes@[j]).rules@.len() > 0 && (
        scopes@[j].worktree_id is None || scopes@[j].worktree_id == Some(worktree_id)) {
        let j = choose|j: int|
            0 <= j < scopes@.len() && (#[trigger] scopes@[j]).rules@.len() > 0 && (
            scopes@[j].worktree_id is None || scopes@[j].worktree_id == Some(worktree_id));
        assert(concerns(views[j], worktree_id));
    }
}

/// A file for which some rule holds is in a worktree for which there are rules.
pub proof fn law_rules_that_hold_are_of_the_worktree(
    scopes: &Vec<CompiledScope>,
    worktree_id: usize,
    path: &RelPath,
    name: &str,
    rules: Vec<CompiledRule>,
    yes: bool,
)
    requires
        path@.len() > 0,
        name@ == path@.last(),
        call_ensures(applicable, (scopes, worktree_id, path, name), rules),
        call_ensures(any_rules, (scopes, worktree_id), yes),
        rules@.len() > 0,
    ensures
        yes,
{
    let views = compiled_scope_views(scopes@);
    assert(compiled_views(rules@).len() == rules@.len());
    lemma_has_rules(views, worktree_id, path@);
}

/// A worktree in which rules hold at some path has rules.
pub proof fn lemma_has_rules(
    scopes: Seq<CompiledScopeView>,
    worktree_id: usize,
    path: Seq<Seq<char>>,
)
    requires
        rules_for(scopes, worktree_id, path).len() > 0,
    ensures
        has_rules(scopes, worktree_id),
{
    let rules = rules_at(scopes, worktree_id, path);
    if rules.len() == 0 {
        assert(marked_rules(rules, name_marks(rules, path.last())).len() == 0);
    }
    let s = choose|s: int| governs(scopes, worktree_id, path, s);
    assert(concerns(scopes[s], worktree_id));
}

/// A text is blank exactly where all of its characters are white space in the sense of Unicode.
pub proof fn law_blank_texts(text: &str, yes: bool)
    requires
        call_ensures(is_blank, (text,), yes),
    ensures
        yes <==> !exists|i: int|
            0 <= i < text@.len() && {
                let u = (#[trigger] text@[i]) as u32;
                &&& u < 0x9 || 0xd < u
                &&& u != 0x20 && u != 0x85 && u != 0xa0 && u != 0x1680
                &&& u < 0x2000 || 0x200a < u
                &&& u != 0x2028 && u != 0x2029 && u != 0x202f && u != 0x205f && u != 0x3000
            },
{
}

/// A rule has a badge exactly where it names an emoji that is not blank and no icon, or an icon
/// that there is and no emoji. The badge is what it names. An icon that there is not is said to
/// be unknown, unless the rule names an emoji too.
pub proof fn law_badge_of_a_rule(
    rule: &FileBadgeRule,
    icons: &IconSet,
    badge: Result<Badge, RuleError>,
    emoji: &str,
    is_empty: bool,
)
    requires
        call_ensures(Badge::from_rule, (rule, icons), badge),
        rule.emoji matches Some(text) ==> emoji@ == text@,
        call_ensures(is_blank, (emoji,), is_empty),
    ensures
        rule.emoji is Some && rule.icon is None && !is_empty ==> (badge matches Ok(
            Badge::Emoji(text),
        ) && text@ == rule.emoji->0@),
        rule.emoji is None && rule.icon is Some && icons@.contains_key(rule.icon->0@)
            ==> (badge matches Ok(Badge::Icon(icon)) && icon.name@ == icons@[rule.icon->0@]),
        rule.emoji is None && rule.icon is Some && !icons@.contains_key(rule.icon->0@)
            ==> badge == Err::<Badge, RuleError>(RuleError::UnknownIcon),
        rule.emoji is Some && (rule.icon is Some || is_empty) || (rule.emoji is None && rule.icon
            is None) ==> badge == Err::<Badge, RuleError>(RuleError::NotExactlyOne),
{
}

/// Two patterns make a matcher exactly where the glob can be read, its expression can be built, and
/// the other expression can be built. The matcher has both as they are, and a name that is the
/// digest of the two. What is said otherwise is what is wrong with the glob, if something is.
pub proof fn law_matcher_of_patterns(
    filename: &str,
    content_regex: &str,
    matcher: Result<Matcher, PatternError>,
)
    requires
        call_ensures(Matcher::compile, (filename, content_regex), matcher),
    ensures
        matcher is Ok <==> glob_expression(filename@) is Ok && byte_regex_error(
            glob_expression(filename@)->Ok_0,
        ) is None && regex_error(content_regex@) is None,
        matcher matches Ok(m) ==> {
            &&& m@.filename == filename@
            &&& m@.content == content_regex@
            &&& m@.fingerprint == sha256_hex(pair_json(filename@, content_regex@))
        },
        matcher matches Err(e) ==> if glob_expression(filename@) is Err {
            e.message@ == glob_expression(filename@)->Err_0
        } else if byte_regex_error(glob_expression(filename@)->Ok_0) is Some {
            e.message@ == byte_regex_error(glob_expression(filename@)->Ok_0)->0
        } else {
            e.message@ == regex_error(content_regex@)->0
        },
{
}

/// A rule is ready for use exactly where it has a badge and its patterns make a matcher; it then
/// has that badge and that matcher, and the level of the rule. What is said otherwise is what is
/// wrong with the badge, if something is, or else with the patterns.
pub proof fn law_compiled_rules_are_the_rules(
    rule: &FileBadgeRule,
    icons: &IconSet,
    position: usize,
    matchers: &mut Matchers,
    compiled: Result<CompiledRule, String>,
    badge: Result<Badge, RuleError>,
    filename: &str,
    content_regex: &str,
    matcher: Result<Matcher, PatternError>,
    error: &RuleError,
    message: String,
)
    requires
        call_ensures(compile_rule, (rule, icons, position, matchers), compiled),
        call_ensures(Badge::from_rule, (rule, icons), badge),
        filename@ == rule.filename@,
        content_regex@ == rule.content_regex@,
        call_ensures(Matcher::compile, (filename, content_regex), matcher),
        badge is Err ==> *error == badge->Err_0,
        call_ensures(RuleError::message, (error,), message),
    ensures
        compiled is Ok <==> badge is Ok && matcher is Ok,
        compiled matches Ok(c) ==> {
            &&& c.badge@ == badge->Ok_0@
            &&& c.matcher@ == matcher->Ok_0@
            &&& c.level == rule.icon_level
            &&& c.position == position
        },
        compiled matches Err(e) ==> e@ == if badge is Err {
            message@
        } else {
            matcher->Err_0.message@
        },
{
}

/// What is said of a rule whose badge is wrong.
pub proof fn law_rule_errors_are_told(error: &RuleError, message: String)
    requires
        call_ensures(RuleError::message, (error,), message),
    ensures
        message@ == if *error == RuleError::UnknownIcon {
            "Unknown built-in icon"@
        } else {
            "Specify exactly one nonempty emoji or built-in icon"@
        },
{
}

/// The rules of a scope that can be used are those that compile, at their own positions and in
/// their order; each of the others is reported, in their order.
pub proof fn law_each_rule_is_used_or_reported(
    rules: Seq<RuleView>,
    icons: Map<Seq<char>, Seq<char>>,
)
    requires
        rules.len() <= usize::MAX,
    ensures
        usable_rules(rules, icons) == Seq::new(
            rules.len(),
            |p: int| compiled_rule(rules[p], icons, p as usize),
        ).filter(|r: Result<CompiledView, Seq<char>>| r is Ok).map_values(
            |r: Result<CompiledView, Seq<char>>| r->Ok_0,
        ),
        rule_reports(rules, icons) == Seq::new(
            rules.len(),
            |p: int| (p, compiled_rule(rules[p], icons, p as usize)),
        ).filter(|r: (int, Result<CompiledView, Seq<char>>)| r.1 is Err).map_values(
            |r: (int, Result<CompiledView, Seq<char>>)|
                "Rule "@ + decimal((r.0 + 1) as nat) + " ("@ + debug_text(rules[r.0].filename)
                    + "): "@ + r.1->Err_0,
        ),
{
    lemma_rules_told(rules, icons, rules.len() as int);
    assert(rules.take(rules.len() as int) =~= rules);
}

proof fn lemma_rules_told(rules: Seq<RuleView>, icons: Map<Seq<char>, Seq<char>>, n: int)
    requires
        0 <= n <= rules.len() <= usize::MAX,
    ensures
        usable_rules(rules.take(n), icons) == Seq::new(
            n as nat,
            |p: int| compiled_rule(rules[p], icons, p as usize),
        ).filter(|r: Result<CompiledView, Seq<char>>| r is Ok).map_values(
            |r: Result<CompiledView, Seq<char>>| r->Ok_0,
        ),
        rule_reports(rules.take(n), icons) == Seq::new(
            n as nat,
            |p: int| (p, compiled_rule(rules[p], icons, p as usize)),
        ).filter(|r: (int, Result<CompiledView, Seq<char>>)| r.1 is Err).map_values(
            |r: (int, Result<CompiledView, Seq<char>>)|
                "Rule "@ + decimal((r.0 + 1) as nat) + " ("@ + debug_text(rules[r.0].filename)
                    + "): "@ + r.1->Err_0,
        ),
    decreases n,
{
    reveal(Seq::filter);
    let ok = |r: Result<CompiledView, Seq<char>>| r is Ok;
    let bad = |r: (int, Result<CompiledView, Seq<char>>)| r.1 is Err;
    let own = |r: Result<CompiledView, Seq<char>>| r->Ok_0;
    let told = |r: (int, Result<CompiledView, Seq<char>>)|
        "Rule "@ + decimal((r.0 + 1) as nat) + " ("@ + debug_text(rules[r.0].filename) + "): "@
            + r.1->Err_0;
    let all = Seq::new(n as nat, |p: int| compiled_rule(rules[p], icons, p as usize));
    let with = Seq::new(n as nat, |p: int| (p, compiled_rule(rules[p], icons, p as usize)));
    if n > 0 {
        lemma_rules_told(rules, icons, n - 1);
        assert(rules.take(n).drop_last() =~= rules.take(n - 1));
        assert(all.drop_last() =~= Seq::new(
            (n - 1) as nat,
            |p: int| compiled_rule(rules[p], icons, p as usize),
        ));
        assert(with.drop_last() =~= Seq::new(
            (n - 1) as nat,
            |p: int| (p, compiled_rule(rules[p], icons, p as usize)),
        ));
        assert(usable_rules(rules.take(n), icons) =~= all.filter(ok).map_values(own));
        assert(rule_reports(rules.take(n), icons) =~= with.filter(bad).map_values(told));
    } else {
        assert(usable_rules(rules.take(n), icons) =~= all.filter(ok).map_values(own));
        assert(rule_reports(rules.take(n), icons) =~= with.filter(bad).map_values(told));
    }
}

/// Every scope stays, with its worktree, its directory and its own rules; what is reported of its
/// rules follows what is reported of the scopes before it, and what was reported already.
pub proof fn law_every_scope_is_compiled(
    scopes: &Vec<RuleScope>,
    icons: &IconSet,
    matchers: &mut Matchers,
    errors: &mut Vec<String>,
    compiled: Vec<CompiledScope>,
)
    requires
        call_ensures(compile_scopes, (scopes, icons, matchers, errors), compiled),
    ensures
        compiled@.len() == scopes@.len(),
        forall|s: int|
            0 <= s < scopes@.len() ==> {
                &&& (#[trigger] compiled@[s]).worktree_id == scopes@[s].worktree_id
                &&& compiled@[s].path@ == scopes@[s].path@
                &&& compiled@[s].rules@.map_values(|r: CompiledRule| r@) == usable_rules(
                    scopes@[s].rules@.map_values(|r: FileBadgeRule| r@),
                    icons@,
                )
            },
        final(errors)@.map_values(|e: String| e@) == old(errors)@.map_values(|e: String| e@)
            + scopes@.map_values(
            |s: RuleScope| rule_reports(s.rules@.map_values(|r: FileBadgeRule| r@), icons@),
        ).flatten(),
{
    let views = compiled_scope_views(compiled@);
    assert(views.len() == compiled@.len());
    assert(scope_views(scopes@).len() == scopes@.len());
    assert forall|s: int| 0 <= s < scopes@.len() implies {
        &&& (#[trigger] compiled@[s]).worktree_id == scopes@[s].worktree_id
        &&& compiled@[s].path@ == scopes@[s].path@
        &&& compiled@[s].rules@.map_values(|r: CompiledRule| r@) == usable_rules(
            scopes@[s].rules@.map_values(|r: FileBadgeRule| r@),
            icons@,
        )
    } by {
        assert(views[s] == usable_scope(scope_views(scopes@)[s], icons@));
        assert(views[s] == compiled@[s]@);
    }
    lemma_reports_flatten(scopes@, icons@);
}

proof fn lemma_reports_flatten(scopes: Seq<RuleScope>, icons: Map<Seq<char>, Seq<char>>)
    ensures
        scope_reports(scope_views(scopes), icons) == scopes.map_values(
            |s: RuleScope| rule_reports(s.rules@.map_values(|r: FileBadgeRule| r@), icons),
        ).flatten(),
    decreases scopes.len(),
{
    let own = |s: RuleScope| rule_reports(s.rules@.map_values(|r: FileBadgeRule| r@), icons);
    let all = scopes.map_values(own);
    if scopes.len() > 0 {
        let init = scopes.drop_last();
        lemma_reports_flatten(init, icons);
        assert(scope_views(scopes).drop_last() =~= scope_views(init));
        assert(all =~= init.map_values(own).push(own(scopes.last())));
        init.map_values(own).lemma_flatten_push(own(scopes.last()));
    } else {
        assert(all =~= Seq::<Seq<Seq<char>>>::empty());
    }
}

proof fn lemma_decimal(n: nat)
    ensures
        decimal(n).len() > 0,
        forall|i: int| 0 <= i < decimal(n).len() ==> '0' <= #[trigger] decimal(n)[i] <= '9',
        decimal(n).fold_left(0int, |v: int, c: char| 10 * v + (c as int - 48)) == n,
        n > 0 ==> decimal(n)[0] != '0',
    decreases n,
{
    let next = |v: int, c: char| 10 * v + (c as int - 48);
    if n < 10 {
        let d = seq![digit(n)];
        assert(d.drop_last() =~= Seq::<char>::empty());
        reveal_with_fuel(Seq::fold_left, 2);
        assert(decimal(n).fold_left(0int, next) == n);
    } else {
        lemma_decimal(n / 10);
        let before = decimal(n / 10);
        let d = digit(n % 10);
        assert(before.push(d).drop_last() =~= before);
        assert(decimal(n).fold_left(0int, next) == next(before.fold_left(0int, next), d));
        assert forall|i: int| 0 <= i < decimal(n).len() implies '0' <= #[trigger] decimal(n)[i]
            <= '9' by {
            if i < before.len() {
                assert(decimal(n)[i] == before[i]);
            }
        }
    }
}

/// The decimal notation of a number: digits only, whose value is the number, without a zero in
/// front.
pub proof fn law_decimal_notation(n: usize, text: String)
    requires
        call_ensures(decimal_text, (n,), text),
    ensures
        text@.len() > 0,
        forall|i: int| 0 <= i < text@.len() ==> '0' <= #[trigger] text@[i] <= '9',
        text@.fold_left(0int, |v: int, c: char| 10 * v + (c as int - 48)) == n,
        n > 0 ==> text@[0] != '0',
{
    lemma_decimal(n as nat);
}

} // verus!
