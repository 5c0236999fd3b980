//! Badges, and the rules that say which files get them.
use vstd::prelude::*;
use vstd::string::*;

use crate::rel_path::RelPath;
use crate::sorted_map::SortedMap;
use crate::text::blank;
use crate::text::debug_text;
use crate::text::is_blank;
use crate::text::quoted;
use crate::worktree::clone_opt_text;
use crate::worktree::opt_text;

verus! {

/// A rule of the settings: files whose name and content match get a badge.
#[derive(Debug, PartialEq, Eq)]
pub struct FileBadgeRule {
    /// A glob over file names.
    pub filename: String,
    /// A regular expression over file contents.
    pub content_regex: String,
    pub emoji: Option<String>,
    /// The name of a built-in icon.
    pub icon: Option<String>,
    /// How many levels above the file the badge is shown.
    pub icon_level: u32,
}

/// The model of a [`FileBadgeRule`].
pub ghost struct RuleView {
    pub filename: Seq<char>,
    pub content_regex: Seq<char>,
    pub emoji: Option<Seq<char>>,
    pub icon: Option<Seq<char>>,
    pub icon_level: u32,
}

impl View for FileBadgeRule {
    type V = RuleView;

    open spec fn view(&self) -> RuleView {
        RuleView {
            filename: self.filename@,
            content_regex: self.content_regex@,
            emoji: opt_text(self.emoji),
            icon: opt_text(self.icon),
            icon_level: self.icon_level,
        }
    }
}

impl Clone for FileBadgeRule {
    fn clone(&self) -> (copy: Self)
        ensures
            copy@ == self@,
    {
        FileBadgeRule {
            filename: self.filename.clone(),
            content_regex: self.content_regex.clone(),
            emoji: clone_opt_text(&self.emoji),
            icon: clone_opt_text(&self.icon),
            icon_level: self.icon_level,
        }
    }
}

fn same_opt_text(a: &Option<String>, b: &Option<String>) -> (yes: bool)
    ensures
        yes == (opt_text(*a) == opt_text(*b)),
{
    match (a, b) {
        (Some(x), Some(y)) => *x == *y,
        (None, None) => true,
        _ => false,
    }
}

impl FileBadgeRule {
    /// A rule as the settings give it. Without a level, the badge is shown at the file itself.
    pub fn new(
        filename: String,
        content_regex: String,
        emoji: Option<String>,
        icon: Option<String>,
        icon_level: Option<u32>,
    ) -> (rule: FileBadgeRule)
        ensures
            rule@ == (RuleView {
                filename: filename@,
                content_regex: content_regex@,
                emoji: opt_text(emoji),
                icon: opt_text(icon),
                icon_level: match icon_level {
                    Some(level) => level,
                    None => 0,
                },
            }),
    {
        let level: u32 = match icon_level {
            Some(level) => level,
            None => 0,
        };
        FileBadgeRule { filename, content_regex, emoji, icon, icon_level: level }
    }

    pub fn same(&self, other: &FileBadgeRule) -> (yes: bool)
        ensures
            yes == (self@ == other@),
    {
        self.filename == other.filename && self.content_regex == other.content_regex
            && same_opt_text(&self.emoji, &other.emoji) && same_opt_text(&self.icon, &other.icon)
            && self.icon_level == other.icon_level
    }
}

/// The views of a list of rules.
pub open spec fn rule_views(rules: Seq<FileBadgeRule>) -> Seq<RuleView> {
    rules.map_values(|r: FileBadgeRule| r@)
}

pub(crate) fn clone_rules(rules: &Vec<FileBadgeRule>) -> (copy: Vec<FileBadgeRule>)
    ensures
        rule_views(copy@) == rule_views(rules@),
{
    let mut copy: Vec<FileBadgeRule> = Vec::new();
    let mut i: usize = 0;
    while i < rules.len()
        invariant
            i <= rules@.len(),
            copy@.len() == i,
            forall|j: int| 0 <= j < i ==> #[trigger] copy@[j]@ == rules@[j]@,
        decreases rules@.len() - i,
    {
        copy.push(rules[i].clone());
        i = i + 1;
    }
    assert(rule_views(copy@) =~= rule_views(rules@));
    copy
}

fn same_rules(a: &Vec<FileBadgeRule>, b: &Vec<FileBadgeRule>) -> (yes: bool)
    ensures
        yes == (rule_views(a@) == rule_views(b@)),
{
    if a.len() != b.len() {
        assert(rule_views(a@).len() != rule_views(b@).len());
        return false;
    }
    let mut i: usize = 0;
    while i < a.len()
        invariant
            i <= a@.len() == b@.len(),
            forall|j: int| 0 <= j < i ==> #[trigger] a@[j]@ == b@[j]@,
        decreases a@.len() - i,
    {
        if !a[i].same(&b[i]) {
            assert(rule_views(a@)[i as int] != rule_views(b@)[i as int]);
            return false;
        }
        i = i + 1;
    }
    assert(rule_views(a@) =~= rule_views(b@));
    true
}

/// One of the built-in icons.
#[derive(Debug, PartialEq, Eq)]
pub struct IconName {
    pub name: String,
}

/// The built-in icons, by the keys under which the settings name them.
pub struct IconSet {
    icons: SortedMap<String, String>,
}

impl View for IconSet {
    type V = Map<Seq<char>, Seq<char>>;

    closed spec fn view(&self) -> Map<Seq<char>, Seq<char>> {
        self.icons@.map_values(|name: String| name@)
    }
}

impl IconSet {
    pub fn new() -> (icons: IconSet)
        ensures
            icons@ == Map::<Seq<char>, Seq<char>>::empty(),
    {
        let icons = IconSet { icons: SortedMap::new() };
        assert(icons@ =~= Map::<Seq<char>, Seq<char>>::empty());
        icons
    }

    /// Makes the icon `name` known under `key`.
    pub fn insert(&mut self, key: String, name: String)
        ensures
            final(self)@ == old(self)@.insert(key@, name@),
    {
        self.icons.insert(key, name);
        assert(self@ =~= old(self)@.insert(key@, name@));
    }

    /// The icon that is known under `key`.
    pub fn parse(&self, key: &String) -> (icon: Option<IconName>)
        ensures
            match icon {
                Some(i) => self@.contains_key(key@) && self@[key@] == i.name@,
                None => !self@.contains_key(key@),
            },
    {
        match self.icons.get(key) {
            Some(name) => Some(IconName { name: name.clone() }),
            None => None,
        }
    }
}

/// Why a rule gives no badge.
#[derive(Clone, Copy, Debug, PartialEq, Eq, Structural)]
pub enum RuleError {
    UnknownIcon,
    NotExactlyOne,
}

/// What is said of a rule that gives no badge.
pub open spec fn rule_error_text(error: RuleError) -> Seq<char> {
    match error {
        RuleError::UnknownIcon => "Unknown built-in icon"@,
        RuleError::NotExactlyOne => "Specify exactly one nonempty emoji or built-in icon"@,
    }
}

impl RuleError {
    pub fn message(&self) -> (text: String)
        ensures
            text@ == rule_error_text(*self),
    {
        match self {
            RuleError::UnknownIcon => "Unknown built-in icon".to_owned(),
            RuleError::NotExactlyOne => {
                "Specify exactly one nonempty emoji or built-in icon".to_owned()
            },
        }
    }
}

/// What is shown beside a file or directory.
#[derive(Debug, PartialEq, Eq)]
pub enum Badge {
    Emoji(String),
    Icon(IconName),
}

/// The model of a [`Badge`].
pub ghost enum BadgeView {
    Emoji(Seq<char>),
    Icon(Seq<char>),
}

impl View for Badge {
    type V = BadgeView;

    open spec fn view(&self) -> BadgeView {
        match self {
            Badge::Emoji(emoji) => BadgeView::Emoji(emoji@),
            Badge::Icon(icon) => BadgeView::Icon(icon.name@),
        }
    }
}

impl Clone for Badge {
    fn clone(&self) -> (copy: Self)
        ensures
            copy@ == self@,
    {
        match self {
            Badge::Emoji(emoji) => Badge::Emoji(emoji.clone()),
            Badge::Icon(icon) => Badge::Icon(IconName { name: icon.name.clone() }),
        }
    }
}

/// The badge of a rule: its emoji if it names one that is not blank and no icon, or its icon if
/// it names a built-in one and no emoji.
pub open spec fn badge_of_rule(
    rule: RuleView,
    icons: Map<Seq<char>, Seq<char>>,
) -> Result<BadgeView, RuleError> {
    match (rule.emoji, rule.icon) {
        (Some(emoji), None) => if blank(emoji) {
            Err(RuleError::NotExactlyOne)
        } else {
            Ok(BadgeView::Emoji(emoji))
        },
        (None, Some(icon)) => if icons.contains_key(icon) {
            Ok(BadgeView::Icon(icons[icon]))
        } else {
            Err(RuleError::UnknownIcon)
        },
        _ => Err(RuleError::NotExactlyOne),
    }
}

/// How a badge is drawn.
#[derive(Debug, PartialEq, Eq)]
pub enum BadgeContent {
    Label(String),
    Icon(IconName),
}

/// The sizes in which icons are drawn.
#[derive(Clone, Copy, Debug, PartialEq, Eq, Structural)]
pub enum IconSize {
    XSmall,
    Small,
    Medium,
}

/// A badge as an element of a row.
#[derive(Debug, PartialEq, Eq)]
pub struct BadgeElement {
    pub id: (String, usize),
    pub debug_selector: String,
    /// Whether the element gives way where the row is too narrow.
    pub shrinks: bool,
    /// The element is at least as wide as an icon of this size.
    pub min_width: IconSize,
    /// Whether the content stands in the middle of the element.
    pub centred: bool,
    /// The space to the left, in steps of the window's spacing scale.
    pub margin_left: u8,
    pub content: BadgeContent,
    /// Whether a label is kept on one line.
    pub single_line: bool,
    /// The size in which an icon is drawn.
    pub icon_size: IconSize,
    pub tooltip: String,
}

/// The debug form of a badge.
pub open spec fn badge_debug(badge: BadgeView) -> Seq<char> {
    match badge {
        BadgeView::Emoji(emoji) => "Emoji("@ + debug_text(emoji) + ")"@,
        BadgeView::Icon(name) => "Icon("@ + name + ")"@,
    }
}

impl Badge {
    pub fn from_rule(rule: &FileBadgeRule, icons: &IconSet) -> (badge: Result<Badge, RuleError>)
        ensures
            match badge {
                Ok(b) => badge_of_rule(rule@, icons@) == Ok::<BadgeView, RuleError>(b@),
                Err(e) => badge_of_rule(rule@, icons@) == Err::<BadgeView, RuleError>(e),
            },
    {
        match (&rule.emoji, &rule.icon) {
            (Some(emoji), None) => if is_blank(emoji.as_str()) {
                Err(RuleError::NotExactlyOne)
            } else {
                Ok(Badge::Emoji(emoji.clone()))
            },
            (None, Some(icon)) => match icons.parse(icon) {
                Some(name) => Ok(Badge::Icon(name)),
                None => Err(RuleError::UnknownIcon),
            },
            _ => Err(RuleError::NotExactlyOne),
        }
    }

    /// The element for the badge at position `index` of a row.
    pub fn render(&self, index: usize) -> (element: BadgeElement)
        ensures
            element.id.0@ == "file-badge"@,
            element.id.1 == index,
            element.debug_selector@ == "file-badge-"@ + badge_debug(self@),
            match self@ {
                BadgeView::Emoji(emoji) => element.content matches BadgeContent::Label(text)
                    && text@ == emoji,
                BadgeView::Icon(name) => element.content matches BadgeContent::Icon(icon)
                    && icon.name@ == name,
            },
            element.single_line,
            element.icon_size == IconSize::Small,
            !element.shrinks,
            element.min_width == IconSize::Small,
            element.centred,
            element.margin_left == 1,
            element.tooltip@ == "Matched a file badge rule"@,
    {
        let mut debug_selector: String = "file-badge-".to_owned();
        let content = match self {
            Badge::Emoji(emoji) => {
                let shown = quoted(emoji.as_str());
                debug_selector.append("Emoji(");
                debug_selector.append(shown.as_str());
                BadgeContent::Label(emoji.clone())
            },
            Badge::Icon(icon) => {
                debug_selector.append("Icon(");
                debug_selector.append(icon.name.as_str());
                BadgeContent::Icon(IconName { name: icon.name.clone() })
            },
        };
        debug_selector.append(")");
        assert(debug_selector@ =~= "file-badge-"@ + badge_debug(self@));
        BadgeElement {
            id: ("file-badge".to_owned(), index),
            debug_selector,
            shrinks: false,
            min_width: IconSize::Small,
            centred: true,
            margin_left: 1,
            content,
            single_line: true,
            icon_size: IconSize::Small,
            tooltip: "Matched a file badge rule".to_owned(),
        }
    }

    pub fn same(&self, other: &Badge) -> (yes: bool)
        ensures
            yes == (self@ == other@),
    {
        match (self, other) {
            (Badge::Emoji(a), Badge::Emoji(b)) => *a == *b,
            (Badge::Icon(a), Badge::Icon(b)) => a.name == b.name,
            _ => false,
        }
    }
}

/// The rules that hold in one part of the project: everywhere, or below a path of a worktree.
#[derive(Debug, PartialEq, Eq)]
pub struct RuleScope {
    pub worktree_id: Option<usize>,
    pub path: RelPath,
    pub rules: Vec<FileBadgeRule>,
}

/// The model of a [`RuleScope`].
pub ghost struct ScopeView {
    pub worktree_id: Option<usize>,
    pub path: Seq<Seq<char>>,
    pub rules: Seq<RuleView>,
}

impl View for RuleScope {
    type V = ScopeView;

    open spec fn view(&self) -> ScopeView {
        ScopeView {
            worktree_id: self.worktree_id,
            path: self.path@,
            rules: rule_views(self.rules@),
        }
    }
}

impl Clone for RuleScope {
    fn clone(&self) -> (copy: Self)
        ensures
            copy@ == self@,
    {
        RuleScope {
            worktree_id: self.worktree_id,
            path: self.path.clone(),
            rules: clone_rules(&self.rules),
        }
    }
}

/// The views of a list of scopes.
pub open spec fn scope_views(scopes: Seq<RuleScope>) -> Seq<ScopeView> {
    scopes.map_values(|s: RuleScope| s@)
}

/// The scope of settings that are local to a directory of a worktree.
pub open spec fn local_scope(local: (usize, RelPath, Vec<FileBadgeRule>)) -> ScopeView {
    ScopeView { worktree_id: Some(local.0), path: local.1@, rules: rule_views(local.2@) }
}

impl RuleScope {
    /// The scope of the global rules, then those of the local settings in their order.
    pub fn all(
        global: Vec<FileBadgeRule>,
        locals: Vec<(usize, RelPath, Vec<FileBadgeRule>)>,
    ) -> (scopes: Vec<RuleScope>)
        ensures
            scope_views(scopes@) == seq![
                ScopeView {
                    worktree_id: None,
                    path: Seq::empty(),
                    rules: rule_views(global@),
                },
            ] + locals@.map_values(
                |local: (usize, RelPath, Vec<FileBadgeRule>)| local_scope(local),
            ),
    {
        let mut scopes: Vec<RuleScope> = Vec::new();
        scopes.push(RuleScope { worktree_id: None, path: RelPath::empty(), rules: global });
        let ghost first = scopes@[0]@;
        let mut i: usize = 0;
        while i < locals.len()
            invariant
                i <= locals@.len(),
                scopes@.len() == i + 1,
                scopes@[0]@ == first,
                forall|j: int| 0 <= j < i ==> #[trigger] scopes@[j + 1]@ == local_scope(locals@[j]),
            decreases locals@.len() - i,
        {
            scopes.push(
                RuleScope {
                    worktree_id: Some(locals[i].0),
                    path: locals[i].1.clone(),
                    rules: clone_rules(&locals[i].2),
                },
            );
            i = i + 1;
        }
        assert(scope_views(scopes@) =~= seq![first] + locals@.map_values(
            |local: (usize, RelPath, Vec<FileBadgeRule>)| local_scope(local),
        )) by {
            assert forall|j: int| 0 <= j < locals@.len() implies #[trigger] scope_views(scopes@)[j
                + 1] == local_scope(locals@[j]) by {
                assert(scopes@[j + 1]@ == local_scope(locals@[j]));
            }
            assert forall|k: int| 1 <= k < scopes@.len() implies #[trigger] scope_views(scopes@)[k]
                == local_scope(locals@[k - 1]) by {
                assert(scope_views(scopes@)[(k - 1) + 1] == local_scope(locals@[k - 1]));
            }
        }
        scopes
    }

    pub fn same(&self, other: &RuleScope) -> (yes: bool)
        ensures
            yes == (self@ == other@),
    {
        self.worktree_id == other.worktree_id && self.path.same(&other.path) && same_rules(
            &self.rules,
            &other.rules,
        )
    }
}

/// Whether two lists hold the same scopes in the same order.
pub fn same_scopes(a: &Vec<RuleScope>, b: &Vec<RuleScope>) -> (yes: bool)
    ensures
        yes == (scope_views(a@) == scope_views(b@)),
{
    if a.len() != b.len() {
        assert(scope_views(a@).len() != scope_views(b@).len());
        return false;
    }
    let mut i: usize = 0;
    while i < a.len()
        invariant
            i <= a@.len() == b@.len(),
            forall|j: int| 0 <= j < i ==> #[trigger] a@[j]@ == b@[j]@,
        decreases a@.len() - i,
    {
        if !a[i].same(&b[i]) {
            assert(scope_views(a@)[i as int] != scope_views(b@)[i as int]);
            return false;
        }
        i = i + 1;
    }
    assert(scope_views(a@) =~= scope_views(b@));
    true
}

} // verus!
