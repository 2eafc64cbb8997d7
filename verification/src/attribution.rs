//! Attribution of new activity: the pinned context, rules, personal memory and keywords.
use vstd::prelude::*;
use vstd::string::*;

use crate::clock;
use crate::clock::Moment;
use crate::json;
use crate::json::{JsonValue, JsonView};
use crate::labels;
use crate::memory::MemoryDecision;
use crate::models;
use crate::models::{
    AppSettings, ContextPin, EvidenceItem, EvidenceView, RawActivityEvent, RawEventView,
    SettingsView,
};
use crate::score;
use crate::text;

verus! {

broadcast use vstd::seq_lib::group_seq_properties;

/// What new activity is attributed to. Where the summary is missing, it is to be written from the
/// observation and the category.
#[derive(Debug, PartialEq, Eq)]
pub struct AttributionDecision {
    pub project_id: Option<String>,
    pub task_id: Option<String>,
    pub category: String,
    pub summary: Option<String>,
    pub confidence: i32,
    pub evidence: Option<EvidenceItem>,
}

/// What an `AttributionDecision` holds.
#[verifier::ext_equal]
pub struct DecisionView {
    pub project_id: Option<Seq<char>>,
    pub task_id: Option<Seq<char>>,
    pub category: Seq<char>,
    pub summary: Option<Seq<char>>,
    pub confidence: i32,
    pub evidence: Option<EvidenceView>,
}

impl View for AttributionDecision {
    type V = DecisionView;

    open spec fn view(&self) -> DecisionView {
        DecisionView {
            project_id: text::optional(self.project_id),
            task_id: text::optional(self.task_id),
            category: self.category@,
            summary: text::optional(self.summary),
            confidence: self.confidence,
            evidence: match self.evidence {
                Some(item) => Some(item@),
                None => None,
            },
        }
    }
}

/// A rule as it is stored.
#[derive(Debug, PartialEq, Eq)]
pub struct RuleRow {
    pub id: String,
    pub name: String,
    pub priority: i32,
    pub matcher_json: String,
    pub project_id: Option<String>,
    pub task_id: Option<String>,
    pub category: String,
    pub updated_at: String,
}

/// What a `RuleRow` holds.
#[verifier::ext_equal]
pub struct RuleRowView {
    pub id: Seq<char>,
    pub name: Seq<char>,
    pub priority: i32,
    pub matcher_json: Seq<char>,
    pub project_id: Option<Seq<char>>,
    pub task_id: Option<Seq<char>>,
    pub category: Seq<char>,
    pub updated_at: Seq<char>,
}

impl View for RuleRow {
    type V = RuleRowView;

    open spec fn view(&self) -> RuleRowView {
        RuleRowView {
            id: self.id@,
            name: self.name@,
            priority: self.priority,
            matcher_json: self.matcher_json@,
            project_id: text::optional(self.project_id),
            task_id: text::optional(self.task_id),
            category: self.category@,
            updated_at: self.updated_at@,
        }
    }
}

pub open spec fn rule_views(rules: Seq<RuleRow>) -> Seq<RuleRowView> {
    rules.map_values(|rule: RuleRow| rule@)
}

/// The pin is still in force at `now`. One whose end cannot be read is not.
pub open spec fn pin_holds(expires_at: Seq<char>, now: Moment) -> bool {
    clock::moment_of(expires_at) matches Some(end) && clock::before(now, end)
}

pub fn is_pin_active(pin: &ContextPin, now: Moment) -> (result: bool)
    ensures
        result == pin_holds(pin@.expires_at, now),
{
    match clock::parse_moment(pin.expires_at.as_str()) {
        Some(end) => clock::is_before(now, end),
        None => false,
    }
}

/// What is searched for keywords: program, window, address and file in lower case.
pub open spec fn haystack(event: RawEventView) -> Seq<char> {
    text::lowercase(
        labels::or_empty(event.app) + " "@ + labels::or_empty(event.window_title) + " "@
            + labels::or_empty(event.url) + " "@ + labels::or_empty(event.file_path),
    )
}

pub fn event_haystack(event: &RawActivityEvent) -> (result: String)
    ensures
        result@ == haystack(event@),
{
    let mut hay = labels::text_or_empty(&event.app);
    hay.append(" ");
    hay.append(labels::text_or_empty(&event.window_title).as_str());
    hay.append(" ");
    hay.append(labels::text_or_empty(&event.url).as_str());
    hay.append(" ");
    hay.append(labels::text_or_empty(&event.file_path).as_str());
    hay.as_str().to_lowercase()
}

/// The document that a matcher is, `Null` where it is none.
pub open spec fn matcher_view(matcher_json: Seq<char>) -> JsonView {
    match json::document(matcher_json) {
        Some(view) => view,
        None => JsonView::Null,
    }
}

fn read_matcher(matcher_json: &str) -> (result: JsonValue)
    ensures
        result@ == matcher_view(matcher_json@),
{
    match json::parse(matcher_json) {
        Some(value) => value,
        None => JsonValue::Null,
    }
}

/// The keywords of a matcher in lower case: those of the list that are not empty, and the single one
/// that is not blank.
pub open spec fn matcher_keywords(matcher: JsonView) -> Seq<Seq<char>> {
    let listed = json::text_items(matcher.member_items("keywords"@)).map_values(
        |word: Seq<char>| text::lowercase(word),
    ).filter(|word: Seq<char>| word.len() > 0);
    match matcher.member_text("keyword"@) {
        Some(word) => if text::blank(word) {
            listed
        } else {
            listed.push(text::lowercase(word))
        },
        None => listed,
    }
}

/// A member of a matcher in lower case, empty where it is missing.
pub open spec fn matcher_part(matcher: JsonView, key: Seq<char>) -> Seq<char> {
    text::lowercase(labels::or_empty(matcher.member_text(key)))
}

fn read_part(matcher: &JsonValue, key: &str) -> (result: String)
    ensures
        result@ == matcher_part(matcher@, key@),
{
    let value = match matcher.text_of(key) {
        Some(value) => value,
        None => String::new(),
    };
    value.as_str().to_lowercase()
}

fn list_items(matcher: &JsonValue, key: &str) -> (result: Vec<String>)
    ensures
        text::texts(result@) == json::text_items(matcher@.member_items(key@)),
{
    match matcher.items_of(key) {
        Some(items) => json::collect_texts(items),
        None => {
            let none: Vec<String> = Vec::new();
            assert(matcher@.member_items(key@) =~= Seq::empty());
            assert(text::texts(none@) =~= json::text_items(Seq::empty()));
            none
        },
    }
}

fn read_keywords(matcher: &JsonValue) -> (result: Vec<String>)
    ensures
        text::texts(result@) == matcher_keywords(matcher@),
{
    let items = list_items(matcher, "keywords");
    let ghost lowered = text::texts(items@).map_values(|word: Seq<char>| text::lowercase(word));
    let ghost keep = |word: Seq<char>| word.len() > 0;
    let mut keywords: Vec<String> = Vec::new();
    let mut i: usize = 0;
    assert(lowered.take(0).filter(keep) =~= Seq::empty()) by {
        reveal(Seq::filter);
    }
    while i < items.len()
        invariant
            i <= items.len(),
            lowered == text::texts(items@).map_values(|word: Seq<char>| text::lowercase(word)),
            keep == (|word: Seq<char>| word.len() > 0),
            text::texts(keywords@) == lowered.take(i as int).filter(keep),
        decreases items.len() - i,
    {
        let word = items[i].as_str().to_lowercase();
        assert(lowered.take(i + 1) =~= lowered.take(i as int).push(word@));
        proof {
            lowered.take(i as int).lemma_filter_push(word@, keep);
        }
        if !word.as_str().is_empty() {
            let ghost done = text::texts(keywords@).push(word@);
            keywords.push(word);
            assert(text::texts(keywords@) =~= done);
        }
        i += 1;
    }
    assert(lowered.take(items.len() as int) =~= lowered);
    if let Some(word) = matcher.text_of("keyword") {
        if !text::is_blank(word.as_str()) {
            let ghost done = text::texts(keywords@).push(text::lowercase(word@));
            keywords.push(word.as_str().to_lowercase());
            assert(text::texts(keywords@) =~= done);
        }
    }
    keywords
}

/// The length of the longest keyword that occurs, zero where none does.
pub open spec fn longest_match(keywords: Seq<Seq<char>>, hay: Seq<char>) -> nat
    decreases keywords.len(),
{
    if keywords.len() == 0 {
        0
    } else {
        let best = longest_match(keywords.drop_last(), hay);
        let last = keywords.last();
        if text::occurs(hay, last) && last.len() > best {
            last.len()
        } else {
            best
        }
    }
}

fn find_longest_match(keywords: &Vec<String>, hay: &str) -> (result: usize)
    ensures
        result == longest_match(text::texts(keywords@), hay@),
{
    let ghost all = text::texts(keywords@);
    let mut best: usize = 0;
    let mut i: usize = 0;
    while i < keywords.len()
        invariant
            i <= keywords.len(),
            all == text::texts(keywords@),
            best == longest_match(all.take(i as int), hay@),
        decreases keywords.len() - i,
    {
        assert(all.take(i + 1).drop_last() =~= all.take(i as int));
        let length: usize = keywords[i].as_str().unicode_len();
        if text::contains(hay, keywords[i].as_str()) && length > best {
            best = length;
        }
        i += 1;
    }
    assert(all.take(keywords.len() as int) =~= all);
    best
}

/// How well a rule fits: its priority, the longest keyword found, the number of further constraints,
/// and when it was last changed.
#[verifier::ext_equal]
pub struct RankView {
    pub priority: i32,
    pub keyword_length: nat,
    pub constraints: nat,
    pub updated_at: Seq<char>,
}

/// `left` fits better than `right`.
pub open spec fn outranks(left: RankView, right: RankView) -> bool {
    if left.priority != right.priority {
        left.priority > right.priority
    } else if left.keyword_length != right.keyword_length {
        left.keyword_length > right.keyword_length
    } else if left.constraints != right.constraints {
        left.constraints > right.constraints
    } else {
        text::precedes(right.updated_at, left.updated_at)
    }
}

/// An empty constraint holds; another holds where it occurs in the value.
pub open spec fn admits(constraint: Seq<char>, value: Option<Seq<char>>) -> bool {
    constraint.len() == 0 || text::occurs(text::lowercase(labels::or_empty(value)), constraint)
}

fn is_admitted(constraint: &str, value: &Option<String>) -> (result: bool)
    ensures
        result == admits(constraint@, text::optional(*value)),
{
    constraint.is_empty() || text::contains(
        labels::text_or_empty(value).as_str().to_lowercase().as_str(),
        constraint,
    )
}

/// The rank of a rule for an observation, where it applies.
pub open spec fn rule_rank(rule: RuleRowView, event: RawEventView, hay: Seq<char>) -> Option<RankView> {
    let matcher = matcher_view(rule.matcher_json);
    let keywords = matcher_keywords(matcher);
    let app = matcher_part(matcher, "app"@);
    let domain = matcher_part(matcher, "domain"@);
    let workspace = matcher_part(matcher, "workspace"@);
    let length = longest_match(keywords, hay);
    let constrained = keywords.len() > 0 || app.len() > 0 || domain.len() > 0 || workspace.len() > 0;
    if constrained && (keywords.len() == 0 || length > 0) && admits(app, event.app) && admits(
        domain,
        event.url,
    ) && admits(workspace, event.workspace) {
        Some(
            RankView {
                priority: rule.priority,
                keyword_length: length,
                constraints: (if app.len() > 0 {
                    1nat
                } else {
                    0nat
                }) + (if domain.len() > 0 {
                    1nat
                } else {
                    0nat
                }) + (if workspace.len() > 0 {
                    1nat
                } else {
                    0nat
                }),
                updated_at: rule.updated_at,
            },
        )
    } else {
        None
    }
}

/// How well a rule fits an observation.
#[derive(Debug)]
struct Rank {
    priority: i32,
    keyword_length: usize,
    constraints: u8,
    updated_at: String,
}

impl Rank {
    spec fn model(self) -> RankView {
        RankView {
            priority: self.priority,
            keyword_length: self.keyword_length as nat,
            constraints: self.constraints as nat,
            updated_at: self.updated_at@,
        }
    }
}

fn is_outranked(left: &Rank, right: &Rank) -> (result: bool)
    ensures
        result == outranks(left.model(), right.model()),
{
    if left.priority != right.priority {
        left.priority > right.priority
    } else if left.keyword_length != right.keyword_length {
        left.keyword_length > right.keyword_length
    } else if left.constraints != right.constraints {
        left.constraints > right.constraints
    } else {
        text::less(right.updated_at.as_str(), left.updated_at.as_str())
    }
}

fn rank_rule(rule: &RuleRow, event: &RawActivityEvent, hay: &str) -> (result: Option<Rank>)
    ensures
        match result {
            Some(rank) => rule_rank(rule@, event@, hay@) == Some(rank.model()),
            None => rule_rank(rule@, event@, hay@) is None,
        },
{
    let matcher = read_matcher(rule.matcher_json.as_str());
    let keywords = read_keywords(&matcher);
    assert(text::texts(keywords@).len() == keywords.len());
    let app = read_part(&matcher, "app");
    let domain = read_part(&matcher, "domain");
    let workspace = read_part(&matcher, "workspace");
    let length: usize = find_longest_match(&keywords, hay);
    let has_app = !app.as_str().is_empty();
    let has_domain = !domain.as_str().is_empty();
    let has_workspace = !workspace.as_str().is_empty();
    let constrained = keywords.len() > 0 || has_app || has_domain || has_workspace;
    if constrained && (keywords.len() == 0 || length > 0) && is_admitted(app.as_str(), &event.app)
        && is_admitted(domain.as_str(), &event.url) && is_admitted(
        workspace.as_str(),
        &event.workspace,
    ) {
        let mut constraints: u8 = 0;
        if has_app {
            constraints = constraints + 1;
        }
        if has_domain {
            constraints = constraints + 1;
        }
        if has_workspace {
            constraints = constraints + 1;
        }
        Some(
            Rank {
                priority: rule.priority,
                keyword_length: length,
                constraints,
                updated_at: rule.updated_at.clone(),
            },
        )
    } else {
        None
    }
}

/// The rule that fits best among the first `n`, the earliest of equally good ones.
pub open spec fn best_rule(
    rules: Seq<RuleRowView>,
    event: RawEventView,
    hay: Seq<char>,
    n: int,
) -> Option<int>
    decreases n,
{
    if n <= 0 {
        None
    } else {
        let best = best_rule(rules, event, hay, n - 1);
        match (rule_rank(rules[n - 1], event, hay), best) {
            (None, _) => best,
            (Some(rank), None) => Some(n - 1),
            (Some(rank), Some(other)) => if outranks(
                rank,
                rule_rank(rules[other], event, hay).unwrap(),
            ) {
                Some(n - 1)
            } else {
                best
            },
        }
    }
}

/// The best rule applies and no other rule outranks it.
pub proof fn best_rule_is_not_outranked(
    rules: Seq<RuleRowView>,
    event: RawEventView,
    hay: Seq<char>,
    n: int,
)
    requires
        0 <= n <= rules.len(),
    ensures
        match best_rule(rules, event, hay, n) {
            Some(best) => {
                &&& 0 <= best < n
                &&& rule_rank(rules[best], event, hay) is Some
                &&& forall|k: int|
                    0 <= k < n && (#[trigger] rule_rank(rules[k], event, hay)) is Some
                        ==> !outranks(
                        rule_rank(rules[k], event, hay).unwrap(),
                        rule_rank(rules[best], event, hay).unwrap(),
                    )
            },
            None => forall|k: int|
                0 <= k < n ==> (#[trigger] rule_rank(rules[k], event, hay)) is None,
        },
    decreases n,
{
    if n > 0 {
        best_rule_is_not_outranked(rules, event, hay, n - 1);
        let earlier = best_rule(rules, event, hay, n - 1);
        let last = rule_rank(rules[n - 1], event, hay);
        if last is Some {
            let rank = last.unwrap();
            lemma_outranks_order(rank, rank, rank);
            if earlier is Some {
                let other = rule_rank(rules[earlier.unwrap()], event, hay).unwrap();
                if outranks(rank, other) {
                    assert forall|k: int|
                        0 <= k < n && (#[trigger] rule_rank(
                            rules[k],
                            event,
                            hay,
                        )) is Some implies !outranks(
                        rule_rank(rules[k], event, hay).unwrap(),
                        rank,
                    ) by {
                        if k < n - 1 {
                            lemma_outranks_order(
                                rule_rank(rules[k], event, hay).unwrap(),
                                rank,
                                other,
                            );
                        }
                    }
                }
            }
        }
    }
}

proof fn lemma_outranks_order(a: RankView, b: RankView, c: RankView)
    ensures
        !outranks(a, a),
        outranks(a, b) && outranks(b, c) ==> outranks(a, c),
{
    text::lemma_precedes_total(a.updated_at, a.updated_at);
    if text::precedes(c.updated_at, b.updated_at) && text::precedes(b.updated_at, a.updated_at) {
        text::lemma_precedes_transitive(c.updated_at, b.updated_at, a.updated_at);
    }
}

fn find_best_rule(rules: &Vec<RuleRow>, event: &RawActivityEvent, hay: &str) -> (result: Option<
    usize,
>)
    ensures
        match result {
            Some(at) => at < rules.len() && best_rule(
                rule_views(rules@),
                event@,
                hay@,
                rules.len() as int,
            ) == Some(at as int),
            None => best_rule(rule_views(rules@), event@, hay@, rules.len() as int) is None,
        },
{
    let ghost views = rule_views(rules@);
    let mut best: Option<(Rank, usize)> = None;
    let mut i: usize = 0;
    while i < rules.len()
        invariant
            i <= rules.len(),
            views == rule_views(rules@),
            match best {
                Some((rank, at)) => at < i && best_rule(views, event@, hay@, i as int) == Some(
                    at as int,
                ) && rule_rank(views[at as int], event@, hay@) == Some(rank.model()),
                None => best_rule(views, event@, hay@, i as int) is None,
            },
        decreases rules.len() - i,
    {
        assert(views[i as int] == rules@[i as int]@);
        if let Some(rank) = rank_rule(&rules[i], event, hay) {
            let better = match &best {
                Some((other, _)) => is_outranked(&rank, other),
                None => true,
            };
            if better {
                best = Some((rank, i));
            }
        }
        i += 1;
    }
    match best {
        Some((_, at)) => Some(at),
        None => None,
    }
}

/// The category that the words of an observation suggest.
pub open spec fn suggested_category(hay: Seq<char>) -> Seq<char> {
    if text::occurs(hay, "code"@) || text::occurs(hay, "rust"@) || text::occurs(hay, "github"@)
        || text::occurs(hay, "tauri"@) || text::occurs(hay, "screenuse"@) || text::occurs(
        hay,
        "codex"@,
    ) {
        "开发"@
    } else if text::occurs(hay, "scholar"@) || text::occurs(hay, "pubmed"@) || text::occurs(
        hay,
        "知网"@,
    ) || text::occurs(hay, "arxiv"@) || text::occurs(hay, "pdf"@) || text::occurs(hay, "论文"@)
        || text::occurs(hay, "教材"@) || text::occurs(hay, "ebook"@) {
        "学习"@
    } else if text::occurs(hay, "word"@) || text::occurs(hay, "wps"@) || text::occurs(
        hay,
        "obsidian"@,
    ) || text::occurs(hay, "markdown"@) {
        "写作"@
    } else if text::occurs(hay, "bilibili"@) || text::occurs(hay, "course"@) {
        "学习"@
    } else if text::occurs(hay, "wechat"@) || text::occurs(hay, "qq"@) || text::occurs(hay, "mail"@)
        || text::occurs(hay, "teams"@) || text::occurs(hay, "meeting"@) {
        "沟通"@
    } else if text::occurs(hay, "steam"@) || text::occurs(hay, "game"@) || text::occurs(
        hay,
        "youtube"@,
    ) {
        "娱乐"@
    } else {
        "杂务"@
    }
}

pub fn category_for_words(hay: &str) -> (result: &'static str)
    ensures
        result@ == suggested_category(hay@),
{
    if text::contains(hay, "code") || text::contains(hay, "rust") || text::contains(hay, "github")
        || text::contains(hay, "tauri") || text::contains(hay, "screenuse") || text::contains(
        hay,
        "codex",
    ) {
        "开发"
    } else if text::contains(hay, "scholar") || text::contains(hay, "pubmed") || text::contains(
        hay,
        "知网",
    ) || text::contains(hay, "arxiv") || text::contains(hay, "pdf") || text::contains(hay, "论文")
        || text::contains(hay, "教材") || text::contains(hay, "ebook") {
        "学习"
    } else if text::contains(hay, "word") || text::contains(hay, "wps") || text::contains(
        hay,
        "obsidian",
    ) || text::contains(hay, "markdown") {
        "写作"
    } else if text::contains(hay, "bilibili") || text::contains(hay, "course") {
        "学习"
    } else if text::contains(hay, "wechat") || text::contains(hay, "qq") || text::contains(
        hay,
        "mail",
    ) || text::contains(hay, "teams") || text::contains(hay, "meeting") {
        "沟通"
    } else if text::contains(hay, "steam") || text::contains(hay, "game") || text::contains(
        hay,
        "youtube",
    ) {
        "娱乐"
    } else {
        "杂务"
    }
}

/// Time away from the computer.
pub open spec fn idle_decision(settings: SettingsView, idle_project: Option<Seq<char>>) -> DecisionView {
    DecisionView {
        project_id: idle_project,
        task_id: None,
        category: settings.idle_category,
        summary: Some("离开/空闲"@),
        confidence: score::IDLE,
        evidence: None,
    }
}

/// Activity under a pinned context.
pub open spec fn pinned_decision(pin: models::ContextPinView) -> DecisionView {
    DecisionView {
        project_id: Some(pin.project_id),
        task_id: pin.task_id,
        category: pin.category,
        summary: None,
        confidence: score::PINNED,
        evidence: Some(
            EvidenceView {
                kind: "context-pin"@,
                label: "固定事务"@,
                value: pin.project_name,
                weight: score::PINNED,
            },
        ),
    }
}

/// Activity to which a rule applies.
pub open spec fn rule_decision(rule: RuleRowView) -> DecisionView {
    DecisionView {
        project_id: rule.project_id,
        task_id: rule.task_id,
        category: rule.category,
        summary: None,
        confidence: score::RULE,
        evidence: Some(
            EvidenceView {
                kind: "rule"@,
                label: "识别规则"@,
                value: rule.name,
                weight: score::RULE,
            },
        ),
    }
}

/// Activity that personal memory recognises.
pub open spec fn memory_decision(found: MemoryDecision) -> DecisionView {
    DecisionView {
        project_id: Some(found.project_id@),
        task_id: Some(found.task_id@),
        category: found.category@,
        summary: None,
        confidence: found.confidence,
        evidence: Some(
            EvidenceView {
                kind: "personal-memory"@,
                label: "个人记忆 · "@ + text::decimal(found.support as nat) + " 条支持"@,
                value: found.matched_label@,
                weight: found.confidence,
            },
        ),
    }
}

/// Activity that nothing else recognises.
pub open spec fn fallback_decision(event: RawEventView) -> DecisionView {
    DecisionView {
        project_id: None,
        task_id: None,
        category: suggested_category(haystack(event)),
        summary: None,
        confidence: score::FALLBACK,
        evidence: None,
    }
}

/// What is decided without personal memory: time away, then the pin, then the best rule.
pub open spec fn first_decision(
    event: RawEventView,
    is_idle: bool,
    settings: SettingsView,
    idle_project: Option<Seq<char>>,
    pin: Option<models::ContextPinView>,
    rules: Seq<RuleRowView>,
) -> Option<DecisionView> {
    if is_idle {
        Some(idle_decision(settings, idle_project))
    } else if pin matches Some(_) {
        Some(pinned_decision(pin.unwrap()))
    } else {
        match best_rule(rules, event, haystack(event), rules.len() as int) {
            Some(best) => Some(rule_decision(rules[best])),
            None => None,
        }
    }
}

pub open spec fn optional_pin(pin: Option<ContextPin>) -> Option<models::ContextPinView> {
    match pin {
        Some(inner) => Some(inner@),
        None => None,
    }
}

/// Attributes an observation by idleness, the pinned context, or the best rule. Nothing is decided
/// where none of them applies: personal memory is to be asked then.
pub fn heuristic_attribution(
    event: &RawActivityEvent,
    is_idle: bool,
    settings: &AppSettings,
    idle_project_id: Option<String>,
    pin: Option<ContextPin>,
    rules: &Vec<RuleRow>,
) -> (result: Option<AttributionDecision>)
    ensures
        match result {
            Some(decision) => first_decision(
                event@,
                is_idle,
                settings@,
                text::optional(idle_project_id),
                optional_pin(pin),
                rule_views(rules@),
            ) == Some(decision@),
            None => first_decision(
                event@,
                is_idle,
                settings@,
                text::optional(idle_project_id),
                optional_pin(pin),
                rule_views(rules@),
            ) is None,
        },
{
    if is_idle {
        return Some(
            AttributionDecision {
                project_id: idle_project_id,
                task_id: None,
                category: settings.idle_category.clone(),
                summary: Some("离开/空闲".to_owned()),
                confidence: score::IDLE,
                evidence: None,
            },
        );
    }
    if let Some(pin) = pin {
        return Some(
            AttributionDecision {
                project_id: Some(pin.project_id),
                task_id: pin.task_id,
                category: pin.category,
                summary: None,
                confidence: score::PINNED,
                evidence: Some(
                    EvidenceItem {
                        kind: "context-pin".to_owned(),
                        label: "固定事务".to_owned(),
                        value: pin.project_name,
                        weight: score::PINNED,
                    },
                ),
            },
        );
    }
    let hay = event_haystack(event);
    match find_best_rule(rules, event, hay.as_str()) {
        Some(at) => {
            let rule = &rules[at];
            assert(rule_views(rules@)[at as int] == rule@);
            Some(
                AttributionDecision {
                    project_id: rule.project_id.clone(),
                    task_id: rule.task_id.clone(),
                    category: rule.category.clone(),
                    summary: None,
                    confidence: score::RULE,
                    evidence: Some(
                        EvidenceItem {
                            kind: "rule".to_owned(),
                            label: "识别规则".to_owned(),
                            value: rule.name.clone(),
                            weight: score::RULE,
                        },
                    ),
                },
            )
        },
        None => None,
    }
}

/// Attributes an observation by what personal memory found, else by its words.
pub fn attribution_from_memory(event: &RawActivityEvent, found: Option<MemoryDecision>) -> (result:
    AttributionDecision)
    ensures
        result@ == match found {
            Some(memory) => memory_decision(memory),
            None => fallback_decision(event@),
        },
{
    match found {
        Some(memory) => {
            let mut label = "个人记忆 · ".to_owned();
            label.append(text::number_text(memory.support as u64).as_str());
            label.append(" 条支持");
            AttributionDecision {
                project_id: Some(memory.project_id),
                task_id: Some(memory.task_id),
                category: memory.category,
                summary: None,
                confidence: memory.confidence,
                evidence: Some(
                    EvidenceItem {
                        kind: "personal-memory".to_owned(),
                        label,
                        value: memory.matched_label,
                        weight: memory.confidence,
                    },
                ),
            }
        },
        None => {
            let hay = event_haystack(event);
            AttributionDecision {
                project_id: None,
                task_id: None,
                category: category_for_words(hay.as_str()).to_owned(),
                summary: None,
                confidence: score::FALLBACK,
                evidence: None,
            }
        },
    }
}

/// Time away goes before the pin, the pin before every rule, and a rule before memory and words.
pub proof fn attribution_precedence(
    event: RawEventView,
    settings: SettingsView,
    idle_project: Option<Seq<char>>,
    pin: models::ContextPinView,
    rules: Seq<RuleRowView>,
)
    ensures
        first_decision(event, true, settings, idle_project, Some(pin), rules) == Some(
            idle_decision(settings, idle_project),
        ),
        first_decision(event, false, settings, idle_project, Some(pin), rules) == Some(
            pinned_decision(pin),
        ),
        first_decision(event, false, settings, idle_project, None, rules) is None <==> forall|k: int|
            0 <= k < rules.len() ==> (#[trigger] rule_rank(
                rules[k],
                event,
                haystack(event),
            )) is None,
{
    best_rule_is_not_outranked(rules, event, haystack(event), rules.len() as int);
}

} // verus!
