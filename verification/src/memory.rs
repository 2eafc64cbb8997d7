//! Personal memory: what a context looks like, and which remembered assignment fits it.
use vstd::prelude::*;
use vstd::string::*;

use crate::json::JsonView;
use crate::models::{EvidenceItem, EvidenceView, RawActivityEvent, RawEventView, WorkSession};
use crate::score;
use crate::text;

verus! {

broadcast use vstd::seq_lib::group_seq_properties;

/// What distinguishes one context of work from another.
#[derive(Debug, Default, PartialEq, Eq)]
pub struct ContextFeatures {
    pub app: String,
    pub page: String,
    pub window: String,
    pub domain: String,
    pub workspace: String,
    pub file: String,
    pub tokens: Vec<String>,
}

/// What `ContextFeatures` holds.
#[verifier::ext_equal]
pub struct FeaturesView {
    pub app: Seq<char>,
    pub page: Seq<char>,
    pub window: Seq<char>,
    pub domain: Seq<char>,
    pub workspace: Seq<char>,
    pub file: Seq<char>,
    pub tokens: Seq<Seq<char>>,
}

impl View for ContextFeatures {
    type V = FeaturesView;

    open spec fn view(&self) -> FeaturesView {
        FeaturesView {
            app: self.app@,
            page: self.page@,
            window: self.window@,
            domain: self.domain@,
            workspace: self.workspace@,
            file: self.file@,
            tokens: text::texts(self.tokens@),
        }
    }
}

impl ContextFeatures {
    pub fn copy(&self) -> (result: Self)
        ensures
            result@ == self@,
    {
        ContextFeatures {
            app: self.app.clone(),
            page: self.page.clone(),
            window: self.window.clone(),
            domain: self.domain.clone(),
            workspace: self.workspace.clone(),
            file: self.file.clone(),
            tokens: text::copy_list(&self.tokens),
        }
    }
}

/// A confirmed assignment together with the context in which it was confirmed.
#[derive(Debug, PartialEq, Eq)]
pub struct MemoryRecord {
    pub session_id: String,
    pub features: ContextFeatures,
    pub category: String,
    pub project_id: String,
    pub project_name: String,
    pub task_id: String,
    pub task_title: String,
    pub confirmed_at: String,
    pub user_confirmed: bool,
}

/// Underscores and line breaks count as spaces.
pub open spec fn softened(s: Seq<char>) -> Seq<char> {
    s.map_values(|c: char| if c == '_' { ' ' } else { text::unbroken(c) })
}

/// Lower case, words separated by single spaces.
pub open spec fn normal_text(s: Seq<char>) -> Seq<char> {
    text::concat_with(text::word_list(softened(text::lowercase(s))), " "@)
}

fn soften(value: &str) -> (result: String)
    ensures
        result@ == softened(value@),
{
    let mut result: String = String::new();
    for c in iter: value.chars()
        invariant
            result@ == softened(iter.seq().take(iter.index())),
            iter.seq() == value@,
    {
        let kept: char = if c == '_' || c == '\r' || c == '\n' || c == '\t' {
            ' '
        } else {
            c
        };
        result.push(kept);
        assert(softened(value@.take(iter.index() + 1)) =~= softened(value@.take(iter.index())).push(
            kept,
        ));
    }
    assert(value@.take(value@.len() as int) =~= value@);
    result
}

pub fn normalize(value: &str) -> (result: String)
    ensures
        result@ == normal_text(value@),
{
    let lowered = value.to_lowercase();
    let parts = text::words(soften(lowered.as_str()).as_str());
    text::join(&parts, " ")
}

/// Names of programs and windows that say nothing about the work done in them.
pub open spec fn generic_label(v: Seq<char>) -> bool {
    ||| v == "chatgpt"@
    ||| v == "codex"@
    ||| v == "chrome"@
    ||| v == "google chrome"@
    ||| v == "msedge"@
    ||| v == "microsoft edge"@
    ||| v == "firefox"@
    ||| v == "brave"@
    ||| v == "qq"@
    ||| v == "wechat"@
    ||| v == "weixin"@
    ||| v == "wps"@
    ||| v == "explorer"@
    ||| v == "文件资源管理器"@
    ||| v == "screenuse"@
    ||| v == "new tab"@
    ||| v == "新标签页"@
    ||| v == "desktop"@
    ||| v == "桌面"@
    ||| v == "program manager"@
    ||| v == "task switching"@
    ||| v == "任务切换"@
    ||| v == "任务视图"@
    ||| v == "腾讯会议"@
    ||| v == "会议"@
    ||| v == "图片查看器"@
    ||| v == "开启录音转写"@
    ||| v == "快速设置"@
    ||| v == "录音机"@
    ||| v == "release"@
}

/// The text names no particular work.
pub open spec fn generic(s: Seq<char>) -> bool {
    let v = normal_text(s);
    ||| generic_label(v)
    ||| text::occurs(v, "系统托盘溢出窗口"@)
    ||| text::occurs(v, "准备好了，随时开始"@)
    ||| text::occurs(v, "正在读取本地时间账本"@)
}

fn is_generic_label(v: &str) -> (result: bool)
    ensures
        result == generic_label(v@),
{
    text::same(v, "chatgpt") || text::same(v, "codex") || text::same(v, "chrome") || text::same(
        v,
        "google chrome",
    ) || text::same(v, "msedge") || text::same(v, "microsoft edge") || text::same(v, "firefox")
        || text::same(v, "brave") || text::same(v, "qq") || text::same(v, "wechat") || text::same(
        v,
        "weixin",
    ) || text::same(v, "wps") || text::same(v, "explorer") || text::same(v, "文件资源管理器")
        || text::same(v, "screenuse") || text::same(v, "new tab") || text::same(v, "新标签页")
        || text::same(v, "desktop") || text::same(v, "桌面") || text::same(v, "program manager")
        || text::same(v, "task switching") || text::same(v, "任务切换") || text::same(v, "任务视图")
        || text::same(v, "腾讯会议") || text::same(v, "会议") || text::same(v, "图片查看器")
        || text::same(v, "开启录音转写") || text::same(v, "快速设置") || text::same(v, "录音机")
        || text::same(v, "release")
}

pub fn is_generic(value: &str) -> (result: bool)
    ensures
        result == generic(value@),
{
    let v = normalize(value);
    is_generic_label(v.as_str()) || text::contains(v.as_str(), "系统托盘溢出窗口")
        || text::contains(v.as_str(), "准备好了，随时开始") || text::contains(
        v.as_str(),
        "正在读取本地时间账本",
    )
}

/// `v` without `suffix` and the white space around what is left, where it ends with `suffix`.
pub open spec fn without_suffix(v: Seq<char>, suffix: Seq<char>) -> Seq<char> {
    if text::has_suffix(v, suffix) {
        text::trimmed(v.take(v.len() - suffix.len()))
    } else {
        v
    }
}

fn drop_suffix(value: String, suffix: &str) -> (result: String)
    ensures
        result@ == without_suffix(value@, suffix@),
{
    match text::strip_suffix(value.as_str(), suffix) {
        Some(rest) => text::trim(rest.as_str()),
        None => value,
    }
}

/// A window title without the names of browsers, editors and the file explorer.
pub open spec fn without_chrome(v: Seq<char>) -> Seq<char> {
    let v = without_suffix(v, " - google chrome"@);
    let v = without_suffix(v, " — google chrome"@);
    let v = without_suffix(v, " - microsoft edge"@);
    let v = without_suffix(v, " — microsoft edge"@);
    let v = without_suffix(v, " — mozilla firefox"@);
    let v = without_suffix(v, " - brave"@);
    let v = without_suffix(v, " - visual studio code"@);
    let v = without_suffix(v, " — visual studio code"@);
    without_suffix(v, " - 文件资源管理器"@)
}

/// A title without the remark that further tabs are open.
pub open spec fn without_tab_count(v: Seq<char>) -> Seq<char> {
    let at = text::first_at(v, " 和 "@);
    if text::occurs(v, " 和 "@) && text::occurs(v.skip(at + " 和 "@.len()), "个其他选项卡"@) {
        text::trimmed(v.take(at))
    } else {
        v
    }
}

/// The part of a title that names the work, empty where it names none.
pub open spec fn context_label(s: Seq<char>) -> Seq<char> {
    let v = without_tab_count(without_chrome(normal_text(s)));
    if generic(v) || v.len() < 2 {
        Seq::empty()
    } else {
        text::prefix_of(v, 180)
    }
}

pub fn canonical_context(value: &str) -> (result: String)
    ensures
        result@ == context_label(value@),
{
    let v = normalize(value);
    let v = drop_suffix(v, " - google chrome");
    let v = drop_suffix(v, " — google chrome");
    let v = drop_suffix(v, " - microsoft edge");
    let v = drop_suffix(v, " — microsoft edge");
    let v = drop_suffix(v, " — mozilla firefox");
    let v = drop_suffix(v, " - brave");
    let v = drop_suffix(v, " - visual studio code");
    let v = drop_suffix(v, " — visual studio code");
    let v = drop_suffix(v, " - 文件资源管理器");
    let v = match text::split_once(v.as_str(), " 和 ") {
        Some((head, tail)) => if text::contains(tail.as_str(), "个其他选项卡") {
            text::trim(head.as_str())
        } else {
            v
        },
        None => v,
    };
    if is_generic(v.as_str()) || v.as_str().unicode_len() < 2 {
        String::new()
    } else {
        text::take_chars(v.as_str(), 180)
    }
}

/// A context label is empty or has from 2 to 180 characters, and one that was not cut to 180
/// characters is never a generic label.
pub proof fn context_labels_are_specific(s: Seq<char>)
    ensures
        context_label(s).len() == 0 || 2 <= context_label(s).len() <= 180,
        0 < context_label(s).len() < 180 ==> !generic(context_label(s)),
{
}

/// Texts that differ only in case have one context label.
pub proof fn case_leaves_a_context_alone(s: Seq<char>, t: Seq<char>)
    requires
        text::lowercase(t) == text::lowercase(s),
    ensures
        context_label(t) == context_label(s),
{
}

/// The name of the browser behind a title leaves its context label alone: `t` is `s` with that
/// name behind it, as far as lower case tells. The title holds a word and does not itself end with
/// the name.
pub proof fn browser_names_leave_a_context_alone(s: Seq<char>, t: Seq<char>)
    requires
        text::lowercase(t) == text::lowercase(s) + " - google chrome"@,
        normal_text(s).len() > 0,
        !text::has_suffix(normal_text(s), " - google chrome"@),
    ensures
        context_label(t) == context_label(s),
{
    let suffix = " - google chrome"@;
    let title = softened(text::lowercase(s));
    let normal = normal_text(s);
    let dash = seq!['-'];
    let google = seq!['g', 'o', 'o', 'g', 'l', 'e'];
    let chrome = seq!['c', 'h', 'r', 'o', 'm', 'e'];
    reveal_strlit(" - google chrome");
    reveal_strlit(" ");
    assert(softened(suffix) =~= suffix);
    assert(softened(text::lowercase(s) + suffix) =~= title + softened(suffix));
    let first = title + (seq![' '] + dash);
    let second = first + (seq![' '] + google);
    let third = second + (seq![' '] + chrome);
    assert(title + suffix =~= third);
    let words = text::word_list(title);
    text::lemma_word_behind_space(title, dash);
    text::lemma_word_behind_space(first, google);
    text::lemma_word_behind_space(second, chrome);
    let space = " "@;
    assert(words.push(dash).drop_last() =~= words);
    assert(words.push(dash).push(google).drop_last() =~= words.push(dash));
    assert(words.push(dash).push(google).push(chrome).drop_last() =~= words.push(dash).push(google));
    text::lemma_joined_words(title, space);
    assert(text::concat_with(words.push(dash), space) == normal + space + dash);
    assert(text::concat_with(words.push(dash).push(google), space) == normal + space + dash + space
        + google);
    assert(normal_text(t) == normal + space + dash + space + google + space + chrome);
    assert(normal_text(t) =~= normal + suffix);
    assert(normal_text(t).take(normal.len() as int) =~= normal);
    assert(text::has_suffix(normal_text(t), suffix)) by {
        assert(normal_text(t).skip(normal.len() as int) =~= suffix);
    }
}

/// Chinese characters.
pub open spec fn cjk(c: char) -> bool {
    let code = c as u32;
    ||| 0x3400 <= code <= 0x4DBF
    ||| 0x4E00 <= code <= 0x9FFF
    ||| 0xF900 <= code <= 0xFAFF
}

pub fn is_cjk(c: char) -> (result: bool)
    ensures
        result == cjk(c),
{
    let code: u32 = c as u32;
    (0x3400 <= code && code <= 0x4DBF) || (0x4E00 <= code && code <= 0x9FFF) || (0xF900 <= code
        && code <= 0xFAFF)
}

/// The token is long enough and specific enough to tell contexts apart.
pub open spec fn telling(token: Seq<char>) -> bool {
    token.len() >= 2 && !generic(token)
}

/// The runs of letters and digits, trimmed, that tell contexts apart.
pub open spec fn word_tokens(s: Seq<char>) -> Seq<Seq<char>> {
    text::pieces(s, |c: char| !text::alphanumeric(c)).map_values(
        |piece: Seq<char>| text::trimmed(piece),
    ).filter(|token: Seq<char>| telling(token))
}

/// Neighbouring characters, two by two.
pub open spec fn pairs(s: Seq<char>) -> Seq<Seq<char>> {
    Seq::new(
        if s.len() == 0 {
            0
        } else {
            (s.len() - 1) as nat
        },
        |i: int| seq![s[i], s[i + 1]],
    )
}

/// The tokens of a text: its words, and the pairs of its Chinese characters.
pub open spec fn tokens_of(s: Seq<char>) -> Seq<Seq<char>> {
    word_tokens(s) + pairs(s.filter(|c: char| cjk(c)))
}

/// Cuts at every character that is neither letter nor digit.
fn alphanumeric_runs(value: &str) -> (result: Vec<String>)
    ensures
        text::texts(result@) == text::pieces(value@, |c: char| !text::alphanumeric(c)),
{
    let ghost cut = |c: char| !text::alphanumeric(c);
    let mut result: Vec<String> = Vec::new();
    let mut current: String = String::new();
    for c in iter: value.chars()
        invariant
            text::texts(result@).push(current@) == text::pieces(value@.take(iter.index()), cut),
            iter.seq() == value@,
            cut == (|c: char| !text::alphanumeric(c)),
    {
        let ghost before = value@.take(iter.index());
        let ghost after = value@.take(iter.index() + 1);
        assert(after.drop_last() =~= before);
        let ghost old_pieces = text::texts(result@).push(current@);
        assert(old_pieces.drop_last() =~= text::texts(result@));
        if !c.is_alphanumeric() {
            result.push(current);
            assert(text::texts(result@) =~= old_pieces);
            current = String::new();
        } else {
            current.push(c);
        }
    }
    assert(value@.take(value@.len() as int) =~= value@);
    let ghost done = text::texts(result@).push(current@);
    result.push(current);
    assert(text::texts(result@) =~= done);
    result
}

fn collect_word_tokens(value: &str) -> (result: Vec<String>)
    ensures
        text::texts(result@) == word_tokens(value@),
{
    let runs = alphanumeric_runs(value);
    let ghost mapped = text::texts(runs@).map_values(|piece: Seq<char>| text::trimmed(piece));
    let ghost keep = |token: Seq<char>| telling(token);
    let mut result: Vec<String> = Vec::new();
    let mut i: usize = 0;
    assert(mapped.take(0).filter(keep) =~= Seq::empty()) by {
        reveal(Seq::filter);
    }
    while i < runs.len()
        invariant
            i <= runs.len(),
            mapped == text::texts(runs@).map_values(|piece: Seq<char>| text::trimmed(piece)),
            keep == (|token: Seq<char>| telling(token)),
            text::texts(result@) == mapped.take(i as int).filter(keep),
        decreases runs.len() - i,
    {
        let token = text::trim(runs[i].as_str());
        assert(mapped.take(i + 1) =~= mapped.take(i as int).push(token@));
        proof {
            mapped.take(i as int).lemma_filter_push(token@, keep);
        }
        if token.as_str().unicode_len() >= 2 && !is_generic(token.as_str()) {
            let ghost done = text::texts(result@).push(token@);
            result.push(token);
            assert(text::texts(result@) =~= done);
        }
        i += 1;
    }
    assert(mapped.take(runs.len() as int) =~= mapped);
    result
}

fn collect_pairs(value: &str) -> (result: Vec<String>)
    ensures
        text::texts(result@) == pairs(value@.filter(|c: char| cjk(c))),
{
    let ghost keep = |c: char| cjk(c);
    let mut kept: Vec<char> = Vec::new();
    assert(value@.take(0).filter(keep) =~= Seq::empty()) by {
        reveal(Seq::filter);
    }
    for c in iter: value.chars()
        invariant
            kept@ == value@.take(iter.index()).filter(keep),
            iter.seq() == value@,
            keep == (|c: char| cjk(c)),
    {
        assert(value@.take(iter.index() + 1) =~= value@.take(iter.index()).push(c));
        proof {
            value@.take(iter.index()).lemma_filter_push(c, keep);
        }
        if is_cjk(c) {
            kept.push(c);
        }
    }
    assert(value@.take(value@.len() as int) =~= value@);
    let mut result: Vec<String> = Vec::new();
    if kept.len() == 0 {
        assert(text::texts(result@) =~= pairs(kept@));
        return result;
    }
    let mut i: usize = 0;
    while i + 1 < kept.len()
        invariant
            0 <= i < kept.len(),
            text::texts(result@) == pairs(kept@).take(i as int),
        decreases kept.len() - i,
    {
        let ghost done = text::texts(result@);
        result.push(text::string_of(&kept, i, i + 2));
        assert(kept@.subrange(i as int, i + 2) =~= seq![kept@[i as int], kept@[i + 1]]);
        assert(text::texts(result@) =~= done.push(pairs(kept@)[i as int]));
        i += 1;
    }
    assert(pairs(kept@).take(i as int) =~= pairs(kept@));
    result
}

/// Appends the texts of `extra`.
fn extend(list: &mut Vec<String>, extra: Vec<String>)
    ensures
        text::texts(final(list)@) == text::texts(old(list)@) + text::texts(extra@),
{
    let ghost before = text::texts(list@);
    let mut tail = extra;
    list.append(&mut tail);
    assert(text::texts(list@) =~= before + text::texts(extra@));
}

/// Exactly the given texts, each once, in increasing order.
pub open spec fn sorted_set(list: Seq<Seq<char>>, source: Seq<Seq<char>>) -> bool {
    text::increasing(list) && list.to_set() == source.to_set()
}

pub fn text_tokens(value: &str) -> (result: Vec<String>)
    ensures
        sorted_set(text::texts(result@), tokens_of(value@)),
{
    let mut output = collect_word_tokens(value);
    extend(&mut output, collect_pairs(value));
    text::sort_unique(&output)
}

/// Slashes of either kind.
pub open spec fn slash(c: char) -> bool {
    c == '/' || c == '\\'
}

fn trim_end_slashes(value: &str) -> (result: String)
    ensures
        result@ == text::drop_tail_while(value@, |c: char| slash(c)),
{
    let chars = text::chars_of(value);
    let mut to: usize = chars.len();
    assert(chars@.subrange(0, to as int) =~= chars@);
    while to > 0 && (chars[to - 1] == '/' || chars[to - 1] == '\\')
        invariant
            to <= chars.len(),
            text::drop_tail_while(chars@, |c: char| slash(c)) == text::drop_tail_while(
                chars@.subrange(0, to as int),
                |c: char| slash(c),
            ),
        decreases to,
    {
        assert(chars@.subrange(0, to as int).drop_last() =~= chars@.subrange(0, to - 1));
        to -= 1;
    }
    text::string_of(&chars, 0, to)
}

/// The parts of a path that are not blank.
pub open spec fn path_parts(s: Seq<char>) -> Seq<Seq<char>> {
    text::pieces(s, |c: char| "/\\"@.contains(c)).filter(|part: Seq<char>| !text::blank(part))
}

/// The last `count` items, or all of them.
pub open spec fn last_items(list: Seq<Seq<char>>, count: nat) -> Seq<Seq<char>> {
    if list.len() <= count {
        list
    } else {
        list.skip(list.len() - count)
    }
}

/// The last three parts of a path in normal form.
pub open spec fn path_label(s: Seq<char>) -> Seq<char> {
    let stem = text::drop_tail_while(text::trimmed(s), |c: char| slash(c));
    if stem.len() == 0 {
        Seq::empty()
    } else {
        normal_text(text::concat_with(last_items(path_parts(stem), 3), "/"@))
    }
}

/// Keeps the texts that are not blank.
fn nonblank(list: Vec<String>) -> (result: Vec<String>)
    ensures
        text::texts(result@) == text::texts(list@).filter(|part: Seq<char>| !text::blank(part)),
{
    let ghost all = text::texts(list@);
    let ghost keep = |part: Seq<char>| !text::blank(part);
    let mut result: Vec<String> = Vec::new();
    let mut i: usize = 0;
    assert(all.take(0).filter(keep) =~= Seq::empty()) by {
        reveal(Seq::filter);
    }
    while i < list.len()
        invariant
            i <= list.len(),
            all == text::texts(list@),
            keep == (|part: Seq<char>| !text::blank(part)),
            text::texts(result@) == all.take(i as int).filter(keep),
        decreases list.len() - i,
    {
        assert(all.take(i + 1) =~= all.take(i as int).push(list@[i as int]@));
        proof {
            all.take(i as int).lemma_filter_push(list@[i as int]@, keep);
        }
        if !text::is_blank(list[i].as_str()) {
            let ghost done = text::texts(result@).push(list@[i as int]@);
            result.push(list[i].clone());
            assert(text::texts(result@) =~= done);
        }
        i += 1;
    }
    assert(all.take(list.len() as int) =~= all);
    result
}

pub fn canonical_path(value: &str) -> (result: String)
    ensures
        result@ == path_label(value@),
{
    let trimmed = text::trim(value);
    let stem = trim_end_slashes(trimmed.as_str());
    if stem.as_str().is_empty() {
        return String::new();
    }
    let parts = nonblank(text::split_any(stem.as_str(), "/\\"));
    let from: usize = if parts.len() <= 3 {
        0
    } else {
        parts.len() - 3
    };
    let mut tail: Vec<String> = Vec::new();
    let mut i: usize = from;
    while i < parts.len()
        invariant
            from <= i <= parts.len(),
            text::texts(tail@) == text::texts(parts@).subrange(from as int, i as int),
        decreases parts.len() - i,
    {
        let ghost done = text::texts(tail@);
        tail.push(parts[i].clone());
        assert(text::texts(tail@) =~= done.push(parts@[i as int]@));
        i += 1;
    }
    assert(text::texts(tail@) =~= last_items(text::texts(parts@), 3));
    normalize(text::join(&tail, "/").as_str())
}

/// The host that a URL names.
pub open spec fn url_host(s: Seq<char>) -> Seq<char> {
    let rest = if text::occurs(s, "://"@) {
        s.skip(text::first_at(s, "://"@) + "://"@.len())
    } else {
        s
    };
    text::drop_prefixes(
        text::before_char(text::after_last_char(text::before_char(rest, '/'), '@'), ':'),
        "www."@,
    )
}

pub fn domain_from_url(value: &str) -> (result: String)
    ensures
        result@ == context_label(url_host(value@)),
{
    proof {
        reveal_strlit("www.");
    }
    let rest = match text::split_once(value, "://") {
        Some((_, behind)) => behind,
        None => value.to_owned(),
    };
    let authority = text::until_char(rest.as_str(), '/');
    let host = text::behind_last_char(authority.as_str(), '@');
    let name = text::until_char(host.as_str(), ':');
    canonical_context(text::trim_start_prefix(name.as_str(), "www.").as_str())
}

/// The features of what was observed.
pub open spec fn observed_features(
    app: Seq<char>,
    page: Seq<char>,
    window: Seq<char>,
    url: Seq<char>,
    workspace: Seq<char>,
    file: Seq<char>,
    features: FeaturesView,
) -> bool {
    &&& features.app == normal_text(text::drop_suffixes(app, ".exe"@))
    &&& features.page == context_label(page)
    &&& features.window == context_label(window)
    &&& features.domain == context_label(url_host(url))
    &&& features.workspace == path_label(workspace)
    &&& features.file == path_label(file)
    &&& sorted_set(features.tokens, tokens_of(features.page) + tokens_of(features.window)
        + tokens_of(features.domain) + tokens_of(features.workspace) + tokens_of(features.file))
}

proof fn lemma_union_of_sorted(
    list: Seq<Seq<char>>,
    extra: Seq<Seq<char>>,
    source: Seq<Seq<char>>,
    more: Seq<Seq<char>>,
)
    requires
        list.to_set() == source.to_set(),
        extra.to_set() == more.to_set(),
    ensures
        (list + extra).to_set() == (source + more).to_set(),
{
    vstd::seq_lib::seq_to_set_distributes_over_add(list, extra);
    vstd::seq_lib::seq_to_set_distributes_over_add(source, more);
}

/// Adds the tokens of `value`.
fn extend_tokens(list: &mut Vec<String>, value: &str)
    ensures
        text::texts(final(list)@).to_set() == (text::texts(old(list)@) + tokens_of(
            value@,
        )).to_set(),
{
    let ghost before = text::texts(list@);
    let more = text_tokens(value);
    let ghost added = text::texts(more@);
    extend(list, more);
    proof {
        lemma_union_of_sorted(before, added, before, tokens_of(value@));
    }
}

pub fn build_features(
    app: &str,
    page: &str,
    window: &str,
    url: &str,
    workspace: &str,
    file: &str,
) -> (result: ContextFeatures)
    ensures
        observed_features(app@, page@, window@, url@, workspace@, file@, result@),
{
    proof {
        reveal_strlit(".exe");
    }
    let app = normalize(text::trim_end_suffix(app, ".exe").as_str());
    let page = canonical_context(page);
    let window = canonical_context(window);
    let domain = domain_from_url(url);
    let workspace = canonical_path(workspace);
    let file = canonical_path(file);
    let mut tokens: Vec<String> = Vec::new();
    extend_tokens(&mut tokens, page.as_str());
    let ghost t1 = tokens_of(page@);
    assert(text::texts(tokens@).to_set() =~= t1.to_set());
    let ghost s1 = text::texts(tokens@);
    extend_tokens(&mut tokens, window.as_str());
    proof {
        lemma_union_of_sorted(s1, tokens_of(window@), t1, tokens_of(window@));
    }
    let ghost t2 = t1 + tokens_of(window@);
    let ghost s2 = text::texts(tokens@);
    extend_tokens(&mut tokens, domain.as_str());
    proof {
        lemma_union_of_sorted(s2, tokens_of(domain@), t2, tokens_of(domain@));
    }
    let ghost t3 = t2 + tokens_of(domain@);
    let ghost s3 = text::texts(tokens@);
    extend_tokens(&mut tokens, workspace.as_str());
    proof {
        lemma_union_of_sorted(s3, tokens_of(workspace@), t3, tokens_of(workspace@));
    }
    let ghost t4 = t3 + tokens_of(workspace@);
    let ghost s4 = text::texts(tokens@);
    extend_tokens(&mut tokens, file.as_str());
    proof {
        lemma_union_of_sorted(s4, tokens_of(file@), t4, tokens_of(file@));
    }
    let tokens = text::sort_unique(&tokens);
    ContextFeatures { app, page, window, domain, workspace, file, tokens }
}

/// The title of the page that an observation shows.
pub open spec fn page_title(metadata: JsonView) -> Option<Seq<char>> {
    match metadata.member_text("activePageTitle"@) {
        Some(title) => Some(title),
        None => metadata.member_text("chatgptConversationTitle"@),
    }
}

/// What is read of an observation.
#[derive(Clone, Copy, Debug, PartialEq, Eq, Structural)]
pub enum EventField {
    Page,
    Url,
    Workspace,
    File,
}

pub open spec fn field_text(event: RawEventView, field: EventField) -> Option<Seq<char>> {
    match field {
        EventField::Page => page_title(event.metadata),
        EventField::Url => event.url,
        EventField::Workspace => event.workspace,
        EventField::File => event.file_path,
    }
}

fn event_text(event: &RawActivityEvent, field: EventField) -> (result: Option<String>)
    ensures
        text::optional(result) == field_text(event@, field),
{
    match field {
        EventField::Page => match event.metadata.text_of("activePageTitle") {
            Some(title) => Some(title),
            None => event.metadata.text_of("chatgptConversationTitle"),
        },
        EventField::Url => event.url.clone(),
        EventField::Workspace => event.workspace.clone(),
        EventField::File => event.file_path.clone(),
    }
}

/// The text, or nothing where it is missing or blank.
pub open spec fn nonblank_text(value: Option<Seq<char>>) -> Option<Seq<char>> {
    match value {
        Some(inner) => if text::blank(inner) {
            None
        } else {
            value
        },
        None => None,
    }
}

fn keep_nonblank(value: Option<String>) -> (result: Option<String>)
    ensures
        text::optional(result) == nonblank_text(text::optional(value)),
{
    match value {
        Some(inner) => if text::is_blank(inner.as_str()) {
            None
        } else {
            Some(inner)
        },
        None => None,
    }
}

/// The observations of a session.
pub open spec fn event_views(events: Seq<RawActivityEvent>) -> Seq<RawEventView> {
    events.map_values(|event: RawActivityEvent| event@)
}

/// The field's text in the latest observation that has one.
pub open spec fn latest_text(events: Seq<RawEventView>, field: EventField) -> Option<Seq<char>>
    decreases events.len(),
{
    if events.len() == 0 {
        None
    } else {
        match nonblank_text(field_text(events.last(), field)) {
            Some(found) => Some(found),
            None => latest_text(events.drop_last(), field),
        }
    }
}

fn find_latest(events: &[RawActivityEvent], field: EventField) -> (result: Option<String>)
    ensures
        text::optional(result) == latest_text(event_views(events@), field),
{
    let ghost views = event_views(events@);
    let mut i: usize = events.len();
    assert(views.take(i as int) =~= views);
    while i > 0
        invariant
            i <= events.len(),
            views == event_views(events@),
            latest_text(views, field) == latest_text(views.take(i as int), field),
        decreases i,
    {
        assert(views.take(i as int).drop_last() =~= views.take(i - 1));
        let found = keep_nonblank(event_text(&events[i - 1], field));
        if found.is_some() {
            return found;
        }
        i -= 1;
    }
    None
}

/// The heaviest evidence of a kind, the later of two equally heavy ones.
pub open spec fn heaviest(items: Seq<EvidenceView>, kind: Seq<char>) -> Option<EvidenceView>
    decreases items.len(),
{
    if items.len() == 0 {
        None
    } else {
        let earlier = heaviest(items.drop_last(), kind);
        if items.last().kind == kind && (earlier matches Some(best) ==> best.weight
            <= items.last().weight) {
            Some(items.last())
        } else {
            earlier
        }
    }
}

/// What the heaviest evidence of a kind says.
pub open spec fn evidence_text(items: Seq<EvidenceView>, kind: Seq<char>) -> Option<Seq<char>> {
    match heaviest(items, kind) {
        Some(item) => nonblank_text(Some(item.value)),
        None => None,
    }
}

pub fn evidence_value(evidence: &Vec<EvidenceItem>, kind: &str) -> (result: Option<String>)
    ensures
        text::optional(result) == evidence_text(crate::models::evidence_views(evidence@), kind@),
{
    let ghost views = crate::models::evidence_views(evidence@);
    let mut best: Option<usize> = None;
    let mut i: usize = 0;
    while i < evidence.len()
        invariant
            i <= evidence.len(),
            views == crate::models::evidence_views(evidence@),
            match best {
                Some(at) => at < i && heaviest(views.take(i as int), kind@) == Some(
                    evidence@[at as int]@,
                ),
                None => heaviest(views.take(i as int), kind@) is None,
            },
        decreases evidence.len() - i,
    {
        let ghost upto = views.take(i + 1);
        assert(upto.drop_last() =~= views.take(i as int));
        assert(upto.last() == evidence@[i as int]@);
        if text::same(evidence[i].kind.as_str(), kind) {
            match best {
                Some(at) => {
                    if evidence[at].weight <= evidence[i].weight {
                        best = Some(i);
                    }
                },
                None => {
                    best = Some(i);
                },
            }
        }
        i += 1;
    }
    assert(views.take(evidence.len() as int) =~= views);
    match best {
        Some(at) => keep_nonblank(Some(evidence[at].value.clone())),
        None => None,
    }
}

/// The first text that is there, or an empty one.
pub open spec fn either_text(first: Option<Seq<char>>, second: Option<Seq<char>>) -> Seq<char> {
    match first {
        Some(found) => found,
        None => match second {
            Some(found) => found,
            None => Seq::empty(),
        },
    }
}

fn either(first: Option<String>, second: Option<String>) -> (result: String)
    ensures
        result@ == either_text(text::optional(first), text::optional(second)),
{
    match first {
        Some(found) => found,
        None => match second {
            Some(found) => found,
            None => String::new(),
        },
    }
}

/// The context of a single observation.
pub fn features_from_event(event: &RawActivityEvent) -> (result: ContextFeatures)
    ensures
        observed_features(
            either_text(event@.app, None),
            either_text(page_title(event@.metadata), None),
            either_text(event@.window_title, None),
            either_text(event@.url, None),
            either_text(event@.workspace, None),
            either_text(event@.file_path, None),
            result@,
        ),
{
    let page = either(event_text(event, EventField::Page), None);
    let app = either(event.app.clone(), None);
    let window = either(event.window_title.clone(), None);
    let url = either(event.url.clone(), None);
    let workspace = either(event.workspace.clone(), None);
    let file = either(event.file_path.clone(), None);
    build_features(
        app.as_str(),
        page.as_str(),
        window.as_str(),
        url.as_str(),
        workspace.as_str(),
        file.as_str(),
    )
}

/// The window title of the last observation.
pub open spec fn last_window(events: Seq<RawEventView>) -> Option<Seq<char>> {
    if events.len() == 0 {
        None
    } else {
        nonblank_text(events.last().window_title)
    }
}

/// The program of the last observation.
pub open spec fn last_app(events: Seq<RawEventView>) -> Option<Seq<char>> {
    if events.len() == 0 {
        None
    } else {
        nonblank_text(events.last().app)
    }
}

/// The features of a session: what its observations show, else what its evidence says.
pub open spec fn session_features(
    evidence: Seq<EvidenceView>,
    events: Seq<RawEventView>,
    features: FeaturesView,
) -> bool {
    observed_features(
        either_text(last_app(events), evidence_text(evidence, "app"@)),
        either_text(latest_text(events, EventField::Page), evidence_text(evidence, "page"@)),
        either_text(last_window(events), evidence_text(evidence, "window"@)),
        either_text(latest_text(events, EventField::Url), evidence_text(evidence, "url"@)),
        either_text(
            latest_text(events, EventField::Workspace),
            evidence_text(evidence, "workspace"@),
        ),
        either_text(latest_text(events, EventField::File), evidence_text(evidence, "file"@)),
        features,
    )
}

/// The features of a session with its evidence and events.
pub open spec fn features_of(
    evidence: Seq<EvidenceView>,
    events: Seq<RawEventView>,
) -> FeaturesView {
    choose|features: FeaturesView| session_features(evidence, events, features)
}

/// Evidence and events leave no choice of features.
pub proof fn features_are_determined(
    evidence: Seq<EvidenceView>,
    events: Seq<RawEventView>,
    features: FeaturesView,
)
    requires
        session_features(evidence, events, features),
    ensures
        features == features_of(evidence, events),
{
    text::lemma_increasing_unique(features.tokens, features_of(evidence, events).tokens);
}

pub fn features_from_session(
    session: &WorkSession,
    events: &[RawActivityEvent],
) -> (result: ContextFeatures)
    ensures
        session_features(session@.evidence, event_views(events@), result@),
        result@ == features_of(session@.evidence, event_views(events@)),
{
    let evidence = &session.evidence;
    let page = either(find_latest(events, EventField::Page), evidence_value(evidence, "page"));
    let (latest_window, latest_app) = if events.len() == 0 {
        (None, None)
    } else {
        let latest = &events[events.len() - 1];
        (keep_nonblank(latest.window_title.clone()), keep_nonblank(latest.app.clone()))
    };
    let window = either(latest_window, evidence_value(evidence, "window"));
    let app = either(latest_app, evidence_value(evidence, "app"));
    let url = either(find_latest(events, EventField::Url), evidence_value(evidence, "url"));
    let workspace = either(
        find_latest(events, EventField::Workspace),
        evidence_value(evidence, "workspace"),
    );
    let file = either(find_latest(events, EventField::File), evidence_value(evidence, "file"));
    let features = build_features(
        app.as_str(),
        page.as_str(),
        window.as_str(),
        url.as_str(),
        workspace.as_str(),
        file.as_str(),
    );
    proof {
        features_are_determined(session@.evidence, event_views(events@), features@);
    }
    features
}

pub fn features_from_session_evidence(session: &WorkSession) -> (result: ContextFeatures)
    ensures
        session_features(session@.evidence, Seq::empty(), result@),
        result@ == features_of(session@.evidence, Seq::empty()),
{
    let none: Vec<RawActivityEvent> = Vec::new();
    assert(event_views(none@) =~= Seq::empty());
    features_from_session(session, none.as_slice())
}

/// The context says enough to be told apart from others.
pub open spec fn discriminative(features: FeaturesView) -> bool {
    ||| features.page.len() > 0
    ||| features.domain.len() > 0
    ||| features.workspace.len() > 0
    ||| features.file.len() > 0
    ||| features.window.len() > 0 && !generic(features.window)
}

pub fn is_discriminative(features: &ContextFeatures) -> (result: bool)
    ensures
        result == discriminative(features@),
{
    !features.page.as_str().is_empty() || !features.domain.as_str().is_empty()
        || !features.workspace.as_str().is_empty() || !features.file.as_str().is_empty() || (
    !features.window.as_str().is_empty() && !is_generic(features.window.as_str()))
}

/// A program whose only traces are generic titles is never told apart: where neither URL, workspace
/// nor file says anything, titles whose label is generic leave nothing to remember.
pub proof fn generic_titles_are_not_discriminative(
    app: Seq<char>,
    page: Seq<char>,
    window: Seq<char>,
    url: Seq<char>,
    workspace: Seq<char>,
    file: Seq<char>,
    features: FeaturesView,
)
    requires
        observed_features(app, page, window, url, workspace, file, features),
        generic(without_tab_count(without_chrome(normal_text(page)))),
        generic(without_tab_count(without_chrome(normal_text(window)))),
        features.domain.len() == 0,
        features.workspace.len() == 0,
        features.file.len() == 0,
    ensures
        !discriminative(features),
{
}

/// The name of a file at the end of a path.
pub open spec fn file_name(path: Seq<char>) -> Seq<char> {
    text::pieces(path, |c: char| "/\\"@.contains(c)).last()
}

/// The file is the running program itself.
pub open spec fn names_own_program(features: FeaturesView) -> bool {
    let lowered = text::lowercase(file_name(features.file));
    text::has_suffix(lowered, ".exe"@) && normal_text(
        lowered.take(lowered.len() - ".exe"@.len()),
    ) == normal_text(features.app)
}

/// Forgets a file that is only the running program, and the tokens that came from it. What is left
/// names no program, so doing it again changes nothing.
pub fn clear_legacy_process_file(features: &mut ContextFeatures) -> (result: bool)
    ensures
        result == names_own_program(old(features)@),
        !names_own_program(final(features)@),
        !result ==> final(features)@ == old(features)@,
        result ==> {
            let before = old(features)@;
            let after = final(features)@;
            &&& after == FeaturesView { file: Seq::empty(), tokens: after.tokens, ..before }
            &&& sorted_set(
                after.tokens,
                tokens_of(before.page) + tokens_of(before.window) + tokens_of(before.domain)
                    + tokens_of(before.workspace),
            )
        },
{
    let parts = text::split_any(features.file.as_str(), "/\\");
    proof {
        lemma_pieces_nonempty(features.file@, |c: char| "/\\"@.contains(c));
    }
    let name = parts[parts.len() - 1].as_str().to_lowercase();
    let stem = match text::strip_suffix(name.as_str(), ".exe") {
        Some(stem) => stem,
        None => {
            return false;
        },
    };
    if !text::same(
        normalize(stem.as_str()).as_str(),
        normalize(features.app.as_str()).as_str(),
    ) {
        return false;
    }
    let mut tokens: Vec<String> = Vec::new();
    extend_tokens(&mut tokens, features.page.as_str());
    let ghost t1 = tokens_of(features.page@);
    assert(text::texts(tokens@).to_set() =~= t1.to_set());
    let ghost s1 = text::texts(tokens@);
    extend_tokens(&mut tokens, features.window.as_str());
    proof {
        lemma_union_of_sorted(s1, tokens_of(features.window@), t1, tokens_of(features.window@));
    }
    let ghost t2 = t1 + tokens_of(features.window@);
    let ghost s2 = text::texts(tokens@);
    extend_tokens(&mut tokens, features.domain.as_str());
    proof {
        lemma_union_of_sorted(s2, tokens_of(features.domain@), t2, tokens_of(features.domain@));
    }
    let ghost t3 = t2 + tokens_of(features.domain@);
    let ghost s3 = text::texts(tokens@);
    extend_tokens(&mut tokens, features.workspace.as_str());
    proof {
        lemma_union_of_sorted(
            s3,
            tokens_of(features.workspace@),
            t3,
            tokens_of(features.workspace@),
        );
    }
    features.file = text::empty_lowercase();
    features.tokens = text::sort_unique(&tokens);
    proof {
        reveal_strlit(".exe");
        assert(file_name(features.file@) =~= Seq::empty());
    }
    true
}

proof fn lemma_pieces_nonempty(s: Seq<char>, cut: spec_fn(char) -> bool)
    ensures
        text::pieces(s, cut).len() > 0,
    decreases s.len(),
{
    if s.len() > 0 {
        lemma_pieces_nonempty(s.drop_last(), cut);
    }
}

/// How far two sets of tokens agree: twice the first number over the second.
#[derive(Clone, Copy, Debug, PartialEq, Eq, Structural)]
pub struct Overlap {
    pub shared: u128,
    pub total: u128,
}

/// How two texts agree.
#[derive(Clone, Copy, Debug, PartialEq, Eq, Structural)]
pub enum TextMatch {
    Exact,
    Partial(Overlap),
}

/// How a context agrees with a remembered one, field by field.
#[derive(Clone, Copy, Debug, PartialEq, Eq, Structural)]
pub struct SimilarityProfile {
    pub page: TextMatch,
    pub workspace: TextMatch,
    pub file: TextMatch,
    pub domain_exact: bool,
    pub window: TextMatch,
    pub app_exact: bool,
    pub tokens: Overlap,
    pub strong: bool,
}

/// Both texts are there and equal.
pub open spec fn exactly(left: Seq<char>, right: Seq<char>) -> bool {
    left.len() > 0 && left == right
}

pub fn exact(left: &str, right: &str) -> (result: bool)
    ensures
        result == exactly(left@, right@),
{
    !left.is_empty() && text::same(left, right)
}

/// The overlap of two sets of texts; nothing where either is empty.
pub open spec fn overlaps(left: Seq<Seq<char>>, right: Seq<Seq<char>>, result: Overlap) -> bool {
    if left.len() == 0 || right.len() == 0 {
        result.shared == 0 && result.total == 0
    } else {
        &&& result.shared == left.to_set().intersect(right.to_set()).len()
        &&& result.total == left.to_set().len() + right.to_set().len()
    }
}

proof fn lemma_increasing_is_unique(list: Seq<Seq<char>>)
    requires
        text::increasing(list),
    ensures
        list.no_duplicates(),
        list.to_set().len() == list.len(),
{
    assert forall|i: int, j: int| 0 <= i < list.len() && 0 <= j < list.len() && i != j implies list[i]
        != list[j] by {
        text::lemma_precedes_total(list[i], list[j]);
        if i < j {
            assert(text::precedes(list[i], list[j]));
        } else {
            assert(text::precedes(list[j], list[i]));
        }
    }
    list.unique_seq_to_set();
}

pub fn set_overlap(left: &Vec<String>, right: &Vec<String>) -> (result: Overlap)
    ensures
        overlaps(text::texts(left@), text::texts(right@), result),
{
    if left.len() == 0 || right.len() == 0 {
        return Overlap { shared: 0, total: 0 };
    }
    let a = text::sort_unique(left);
    let b = text::sort_unique(right);
    let ghost at = text::texts(a@);
    let ghost bt = text::texts(b@);
    proof {
        lemma_increasing_is_unique(at);
        lemma_increasing_is_unique(bt);
        text::texts(left@).lemma_cardinality_of_set();
        text::texts(right@).lemma_cardinality_of_set();
    }
    let mut shared: Vec<String> = Vec::new();
    let mut i: usize = 0;
    while i < a.len()
        invariant
            i <= a.len(),
            at == text::texts(a@),
            bt == text::texts(b@),
            at.no_duplicates(),
            shared.len() <= i,
            text::texts(shared@).no_duplicates(),
            text::texts(shared@).to_set() == at.take(i as int).to_set().intersect(bt.to_set()),
        decreases a.len() - i,
    {
        let ghost done = text::texts(shared@);
        let ghost item = at[i as int];
        assert(at.take(i + 1) =~= at.take(i as int).push(item));
        assert(!at.take(i as int).contains(item));
        assert(at.take(i + 1).to_set() =~= at.take(i as int).to_set().insert(item));
        if text::listed(&b, a[i].as_str()) {
            shared.push(a[i].clone());
            assert(text::texts(shared@) =~= done.push(item));
            assert(!done.to_set().contains(item));
            assert(!done.contains(item));
            assert(bt.to_set().contains(item));
            assert(done.push(item).to_set() =~= done.to_set().insert(item));
            assert(text::texts(shared@).to_set() =~= at.take(i + 1).to_set().intersect(
                bt.to_set(),
            ));
        } else {
            assert(!bt.to_set().contains(item));
            assert(text::texts(shared@).to_set() =~= at.take(i + 1).to_set().intersect(
                bt.to_set(),
            ));
        }
        i += 1;
    }
    proof {
        assert(at.take(a.len() as int) =~= at);
        text::texts(shared@).unique_seq_to_set();
    }
    Overlap { shared: shared.len() as u128, total: a.len() as u128 + b.len() as u128 }
}

/// How two texts agree: exactly, or by their tokens.
pub open spec fn text_match(left: Seq<char>, right: Seq<char>, result: TextMatch) -> bool {
    if exactly(left, right) {
        result == TextMatch::Exact
    } else if left.len() == 0 || right.len() == 0 {
        result == TextMatch::Partial(Overlap { shared: 0, total: 0 })
    } else {
        result matches TextMatch::Partial(overlap) && ({
            let a = tokens_of(left).to_set();
            let b = tokens_of(right).to_set();
            if a.len() == 0 || b.len() == 0 {
                overlap.shared == 0 && overlap.total == 0
            } else {
                overlap.shared == a.intersect(b).len() && overlap.total == a.len() + b.len()
            }
        })
    }
}

pub fn text_similarity(left: &str, right: &str) -> (result: TextMatch)
    ensures
        text_match(left@, right@, result),
{
    if exact(left, right) {
        return TextMatch::Exact;
    }
    if left.is_empty() || right.is_empty() {
        return TextMatch::Partial(Overlap { shared: 0, total: 0 });
    }
    let a = text_tokens(left);
    let b = text_tokens(right);
    proof {
        lemma_increasing_is_unique(text::texts(a@));
        lemma_increasing_is_unique(text::texts(b@));
    }
    TextMatch::Partial(set_overlap(&a, &b))
}

/// A profile tells how two contexts agree.
pub open spec fn profiles(query: FeaturesView, memory: FeaturesView, p: SimilarityProfile) -> bool {
    &&& text_match(query.page, memory.page, p.page)
    &&& text_match(query.workspace, memory.workspace, p.workspace)
    &&& text_match(query.file, memory.file, p.file)
    &&& p.domain_exact == exactly(query.domain, memory.domain)
    &&& text_match(query.window, memory.window, p.window)
    &&& p.app_exact == exactly(query.app, memory.app)
    &&& overlaps(query.tokens, memory.tokens, p.tokens)
    &&& p.strong == (exactly(query.page, memory.page) || exactly(query.workspace, memory.workspace)
        || exactly(query.file, memory.file) || exactly(query.domain, memory.domain) || exactly(
        query.window,
        memory.window,
    ))
}

pub fn similarity(query: &ContextFeatures, memory: &ContextFeatures) -> (result: SimilarityProfile)
    ensures
        profiles(query@, memory@, result),
{
    let page = text_similarity(query.page.as_str(), memory.page.as_str());
    let workspace = text_similarity(query.workspace.as_str(), memory.workspace.as_str());
    let file = text_similarity(query.file.as_str(), memory.file.as_str());
    let domain_exact = exact(query.domain.as_str(), memory.domain.as_str());
    let window = text_similarity(query.window.as_str(), memory.window.as_str());
    let app_exact = exact(query.app.as_str(), memory.app.as_str());
    let tokens = set_overlap(&query.tokens, &memory.tokens);
    let strong = exact(query.page.as_str(), memory.page.as_str()) || exact(
        query.workspace.as_str(),
        memory.workspace.as_str(),
    ) || exact(query.file.as_str(), memory.file.as_str()) || domain_exact || exact(
        query.window.as_str(),
        memory.window.as_str(),
    );
    SimilarityProfile { page, workspace, file, domain_exact, window, app_exact, tokens, strong }
}

/// Similarity is the same both ways, and strong exactly where the page, the workspace, the file, the
/// domain or the window is there and the same: the program and the tokens alone never make it so.
pub proof fn similarity_is_mutual(
    left: FeaturesView,
    right: FeaturesView,
    forth: SimilarityProfile,
    back: SimilarityProfile,
)
    requires
        profiles(left, right, forth),
        profiles(right, left, back),
    ensures
        forth == back,
        forth.strong <==> {
            ||| left.page.len() > 0 && left.page == right.page
            ||| left.workspace.len() > 0 && left.workspace == right.workspace
            ||| left.file.len() > 0 && left.file == right.file
            ||| left.domain.len() > 0 && left.domain == right.domain
            ||| left.window.len() > 0 && left.window == right.window
        },
        2 * forth.tokens.shared <= forth.tokens.total,
{
    lemma_match_is_mutual(left.page, right.page, forth.page, back.page);
    lemma_match_is_mutual(left.workspace, right.workspace, forth.workspace, back.workspace);
    lemma_match_is_mutual(left.file, right.file, forth.file, back.file);
    lemma_match_is_mutual(left.window, right.window, forth.window, back.window);
    let a = left.tokens.to_set();
    let b = right.tokens.to_set();
    assert(a.intersect(b) =~= b.intersect(a));
    vstd::set_lib::lemma_len_intersect(a, b);
    vstd::set_lib::lemma_len_intersect(b, a);
}

proof fn lemma_match_is_mutual(
    left: Seq<char>,
    right: Seq<char>,
    forth: TextMatch,
    back: TextMatch,
)
    requires
        text_match(left, right, forth),
        text_match(right, left, back),
    ensures
        forth == back,
{
    let a = tokens_of(left).to_set();
    let b = tokens_of(right).to_set();
    assert(a.intersect(b) =~= b.intersect(a));
}

/// The score of a record for a query.
#[derive(Clone, Copy, Debug, PartialEq, Eq, Structural)]
pub struct MatchScore {
    pub score: i32,
    pub strong: bool,
}

/// Record `i` ranks ahead of record `j`: by score, then the later confirmation, then the order of
/// the records.
pub open spec fn ahead(
    records: Seq<MemoryRecord>,
    scores: Seq<MatchScore>,
    i: int,
    j: int,
) -> bool {
    let left = records[i].confirmed_at@;
    let right = records[j].confirmed_at@;
    scores[i].score > scores[j].score || (scores[i].score == scores[j].score && (text::precedes(
        right,
        left,
    ) || (left == right && i < j)))
}

proof fn lemma_ahead_transitive(
    records: Seq<MemoryRecord>,
    scores: Seq<MatchScore>,
    i: int,
    j: int,
    k: int,
)
    requires
        ahead(records, scores, i, j),
        ahead(records, scores, j, k),
    ensures
        ahead(records, scores, i, k),
{
    let a = records[i].confirmed_at@;
    let b = records[j].confirmed_at@;
    let c = records[k].confirmed_at@;
    if text::precedes(b, a) && text::precedes(c, b) {
        text::lemma_precedes_transitive(c, b, a);
    }
}

proof fn lemma_ahead_total(
    records: Seq<MemoryRecord>,
    scores: Seq<MatchScore>,
    i: int,
    j: int,
)
    requires
        i != j,
    ensures
        ahead(records, scores, i, j) || ahead(records, scores, j, i),
{
    text::lemma_precedes_total(records[i].confirmed_at@, records[j].confirmed_at@);
}

/// `order` lists the best of the wanted records, best first, at most `limit` of them.
pub open spec fn ranking(
    records: Seq<MemoryRecord>,
    scores: Seq<MatchScore>,
    wanted: Seq<bool>,
    limit: nat,
    order: Seq<usize>,
) -> bool {
    &&& order.len() <= limit
    &&& forall|k: int| 0 <= k < order.len() ==> #[trigger] order[k] < records.len() && wanted[order[k] as int]
    &&& descending(records, scores, order)
    &&& forall|i: int|
        0 <= i < records.len() && #[trigger] wanted[i] && !order.contains(i as usize) ==> gave_way(
            records,
            scores,
            order,
            limit,
            i,
        )
}

fn is_ahead(
    records: &Vec<MemoryRecord>,
    scores: &Vec<MatchScore>,
    i: usize,
    j: usize,
) -> (result: bool)
    requires
        i < records.len(),
        j < records.len(),
        scores.len() == records.len(),
    ensures
        result == ahead(records@, scores@, i as int, j as int),
{
    let left = records[i].confirmed_at.as_str();
    let right = records[j].confirmed_at.as_str();
    scores[i].score > scores[j].score || (scores[i].score == scores[j].score && (text::less(
        right,
        left,
    ) || (text::same(left, right) && i < j)))
}

/// Each listed record ranks ahead of those behind it.
pub open spec fn descending(
    records: Seq<MemoryRecord>,
    scores: Seq<MatchScore>,
    order: Seq<usize>,
) -> bool {
    forall|k: int, l: int|
        0 <= k < l < order.len() ==> ahead(
            records,
            scores,
            #[trigger] order[k] as int,
            #[trigger] order[l] as int,
        )
}

/// A record that is not listed had to give way to `limit` better ones.
pub open spec fn gave_way(
    records: Seq<MemoryRecord>,
    scores: Seq<MatchScore>,
    order: Seq<usize>,
    limit: nat,
    i: int,
) -> bool {
    order.len() == limit && forall|k: int|
        0 <= k < order.len() ==> ahead(records, scores, #[trigger] order[k] as int, i)
}

/// Putting record `i` in its place keeps the order.
proof fn lemma_insert_descending(
    records: Seq<MemoryRecord>,
    scores: Seq<MatchScore>,
    before: Seq<usize>,
    at: int,
    i: usize,
)
    requires
        descending(records, scores, before),
        0 <= at <= before.len(),
        forall|k: int| 0 <= k < before.len() ==> #[trigger] before[k] < i,
        forall|k: int| 0 <= k < at ==> ahead(records, scores, #[trigger] before[k] as int, i as int),
        at < before.len() ==> !ahead(records, scores, before[at] as int, i as int),
    ensures
        descending(records, scores, before.insert(at, i)),
        at < before.len() ==> ahead(records, scores, i as int, before[at] as int),
{
    let inserted = before.insert(at, i);
    if at < before.len() {
        lemma_ahead_total(records, scores, before[at] as int, i as int);
    }
    assert forall|k: int, l: int| 0 <= k < l < inserted.len() implies ahead(
        records,
        scores,
        #[trigger] inserted[k] as int,
        #[trigger] inserted[l] as int,
    ) by {
        if l == at {
            assert(inserted[k] == before[k]);
        } else if k == at {
            assert(inserted[l] == before[l - 1]);
            if l - 1 > at {
                assert(ahead(records, scores, before[at] as int, before[l - 1] as int));
                lemma_ahead_transitive(
                    records,
                    scores,
                    i as int,
                    before[at] as int,
                    before[l - 1] as int,
                );
            }
        } else if l < at {
            assert(inserted[k] == before[k]);
            assert(inserted[l] == before[l]);
        } else if k < at {
            assert(inserted[k] == before[k]);
            assert(inserted[l] == before[l - 1]);
        } else {
            assert(inserted[k] == before[k - 1]);
            assert(inserted[l] == before[l - 1]);
        }
    }
}

/// A record that is missing from a full list after an insertion had to give way.
proof fn lemma_gave_way(
    records: Seq<MemoryRecord>,
    scores: Seq<MatchScore>,
    before: Seq<usize>,
    at: int,
    i: usize,
    limit: nat,
    j: usize,
)
    requires
        descending(records, scores, before),
        descending(records, scores, before.insert(at, i)),
        0 <= at <= before.len(),
        before.len() == limit,
        at < before.len() ==> ahead(records, scores, i as int, before[at] as int),
        j != i && !before.contains(j) ==> gave_way(records, scores, before, limit, j as int),
        !before.insert(at, i).drop_last().contains(j),
    ensures
        gave_way(records, scores, before.insert(at, i).drop_last(), limit, j as int),
{
    let inserted = before.insert(at, i);
    let order = inserted.drop_last();
    let last = inserted.last();
    assert forall|k: int| 0 <= k < order.len() implies ahead(
        records,
        scores,
        #[trigger] order[k] as int,
        j as int,
    ) by {
        assert(order[k] == inserted[k]);
        if last == j {
            assert(ahead(
                records,
                scores,
                inserted[k] as int,
                inserted[inserted.len() - 1] as int,
            ));
        } else if j == i {
            assert(inserted[at] == j);
            if at < order.len() {
                assert(order[at] == j);
            }
        } else if before.contains(j) {
            let m = choose|m: int| 0 <= m < before.len() && before[m] == j;
            let n = if m < at {
                m
            } else {
                m + 1
            };
            assert(inserted[n] == j);
            if n < order.len() {
                assert(order[n] == j);
            }
        } else if k == at {
            assert(ahead(records, scores, before[at] as int, j as int));
            lemma_ahead_transitive(records, scores, i as int, before[at] as int, j as int);
        } else if k < at {
            assert(order[k] == before[k]);
        } else {
            assert(order[k] == before[k - 1]);
        }
    }
}

/// The place that record `i` takes in a descending list.
fn find_place(
    records: &Vec<MemoryRecord>,
    scores: &Vec<MatchScore>,
    order: &Vec<usize>,
    i: usize,
) -> (at: usize)
    requires
        i < records.len(),
        scores.len() == records.len(),
        forall|k: int| 0 <= k < order.len() ==> #[trigger] order@[k] < i,
    ensures
        at <= order.len(),
        forall|k: int|
            0 <= k < at ==> ahead(records@, scores@, #[trigger] order@[k] as int, i as int),
        at < order.len() ==> !ahead(records@, scores@, order@[at as int] as int, i as int),
{
    let mut at: usize = 0;
    while at < order.len() && is_ahead(records, scores, order[at], i)
        invariant
            at <= order.len(),
            i < records.len(),
            scores.len() == records.len(),
            forall|k: int| 0 <= k < order.len() ==> #[trigger] order@[k] < i,
            forall|k: int|
                0 <= k < at ==> ahead(records@, scores@, #[trigger] order@[k] as int, i as int),
        decreases order.len() - at,
    {
        at += 1;
    }
    at
}

/// Lists the best of the wanted records, best first, at most `limit` of them.
pub fn rank(
    records: &Vec<MemoryRecord>,
    scores: &Vec<MatchScore>,
    wanted: &Vec<bool>,
    limit: usize,
) -> (result: Vec<usize>)
    requires
        scores.len() == records.len(),
        wanted.len() == records.len(),
    ensures
        ranking(records@, scores@, wanted@, limit as nat, result@),
{
    let mut order: Vec<usize> = Vec::new();
    let mut i: usize = 0;
    while i < records.len()
        invariant
            i <= records.len(),
            scores.len() == records.len(),
            wanted.len() == records.len(),
            order.len() <= limit,
            forall|k: int|
                0 <= k < order.len() ==> #[trigger] order@[k] < i && wanted@[order@[k] as int],
            descending(records@, scores@, order@),
            forall|j: int|
                0 <= j < i && #[trigger] wanted@[j] && !order@.contains(j as usize) ==> gave_way(
                    records@,
                    scores@,
                    order@,
                    limit as nat,
                    j,
                ),
        decreases records.len() - i,
    {
        if wanted[i] {
            let ghost before = order@;
            let at: usize = find_place(records, scores, &order, i);
            proof {
                lemma_insert_descending(records@, scores@, before, at as int, i);
            }
            order.insert(at, i);
            let ghost inserted = order@;
            assert(inserted[at as int] == i);
            if order.len() > limit {
                let dropped = order.pop();
                assert(order@ =~= inserted.drop_last());
                assert forall|j: int|
                    0 <= j < i + 1 && #[trigger] wanted@[j] && !order@.contains(
                        j as usize,
                    ) implies gave_way(records@, scores@, order@, limit as nat, j) by {
                    lemma_gave_way(
                        records@,
                        scores@,
                        before,
                        at as int,
                        i,
                        limit as nat,
                        j as usize,
                    );
                }
            } else {
                assert forall|j: int|
                    0 <= j < i + 1 && #[trigger] wanted@[j] && !order@.contains(
                        j as usize,
                    ) implies gave_way(records@, scores@, order@, limit as nat, j) by {
                    if before.contains(j as usize) {
                        let m = choose|m: int| 0 <= m < before.len() && before[m] == j as usize;
                        assert(inserted[if m < at {
                            m
                        } else {
                            m + 1
                        }] == j as usize);
                    }
                }
            }
        }
        i += 1;
    }
    order
}

/// Close enough to take part in the vote.
pub open spec fn is_candidate(score: MatchScore) -> bool {
    score.score >= score::CANDIDATE_FLOOR && (score.strong || score.score
        >= score::WEAK_CANDIDATE_FLOOR)
}

/// Category, project and task of a record as one key.
pub open spec fn assignment(record: MemoryRecord) -> Seq<char> {
    record.category@ + "\u{1f}"@ + record.project_id@ + "\u{1f}"@ + record.task_id@
}

pub fn assignment_key(record: &MemoryRecord) -> (result: String)
    ensures
        result@ == assignment(*record),
{
    let mut key = record.category.clone();
    key.append("\u{1f}");
    key.append(record.project_id.as_str());
    key.append("\u{1f}");
    key.append(record.task_id.as_str());
    key
}

/// How many unconfirmed candidates have to agree before they take part in the vote.
pub const UNCONFIRMED_QUORUM: usize = 3;

/// Of the first `n` records, how many are candidates with this assignment that nobody confirmed.
pub open spec fn agreeing(
    records: Seq<MemoryRecord>,
    scores: Seq<MatchScore>,
    key: Seq<char>,
    n: nat,
) -> nat
    decreases n,
{
    if n == 0 {
        0
    } else {
        agreeing(records, scores, key, (n - 1) as nat) + if is_candidate(scores[n - 1])
            && !records[n - 1].user_confirmed && assignment(records[n - 1]) == key {
            1nat
        } else {
            0nat
        }
    }
}

/// The record takes part in the vote: it is a candidate that the user confirmed, or one of enough
/// unconfirmed ones that agree.
pub open spec fn takes_part(records: Seq<MemoryRecord>, scores: Seq<MatchScore>, i: int) -> bool {
    is_candidate(scores[i]) && (records[i].user_confirmed || agreeing(
        records,
        scores,
        assignment(records[i]),
        records.len(),
    ) >= UNCONFIRMED_QUORUM)
}

/// Which records take part in the vote.
pub open spec fn voters(records: Seq<MemoryRecord>, scores: Seq<MatchScore>) -> Seq<bool> {
    Seq::new(records.len(), |i: int| takes_part(records, scores, i))
}

fn may_vote(score: MatchScore) -> (result: bool)
    ensures
        result == is_candidate(score),
{
    score.score >= score::CANDIDATE_FLOOR && (score.strong || score.score
        >= score::WEAK_CANDIDATE_FLOOR)
}

fn count_agreeing(records: &Vec<MemoryRecord>, scores: &Vec<MatchScore>, key: &str) -> (result:
    usize)
    requires
        scores.len() == records.len(),
    ensures
        result == agreeing(records@, scores@, key@, records@.len()),
{
    let mut count: usize = 0;
    let mut i: usize = 0;
    while i < records.len()
        invariant
            i <= records.len(),
            count <= i,
            scores.len() == records.len(),
            count == agreeing(records@, scores@, key@, i as nat),
        decreases records.len() - i,
    {
        if may_vote(scores[i]) && !records[i].user_confirmed {
            let own = assignment_key(&records[i]);
            if text::same(own.as_str(), key) {
                count += 1;
            }
        }
        i += 1;
    }
    count
}

fn is_taking_part(records: &Vec<MemoryRecord>, scores: &Vec<MatchScore>, i: usize) -> (result: bool)
    requires
        scores.len() == records.len(),
        i < records.len(),
    ensures
        result == takes_part(records@, scores@, i as int),
{
    if !may_vote(scores[i]) {
        return false;
    }
    if records[i].user_confirmed {
        return true;
    }
    let key = assignment_key(&records[i]);
    count_agreeing(records, scores, key.as_str()) >= UNCONFIRMED_QUORUM
}

/// The twelve best records that take part in the vote, best first; none where the query says too
/// little.
pub fn shortlist(
    query: &ContextFeatures,
    records: &Vec<MemoryRecord>,
    scores: &Vec<MatchScore>,
) -> (result: Vec<usize>)
    requires
        scores.len() == records.len(),
    ensures
        !discriminative(query@) ==> result@.len() == 0,
        discriminative(query@) ==> ranking(
            records@,
            scores@,
            voters(records@, scores@),
            12,
            result@,
        ),
{
    if !is_discriminative(query) {
        return Vec::new();
    }
    let mut wanted: Vec<bool> = Vec::new();
    let mut i: usize = 0;
    while i < records.len()
        invariant
            i <= records.len(),
            scores.len() == records.len(),
            wanted@ == voters(records@, scores@).take(i as int),
        decreases records.len() - i,
    {
        let counts = is_taking_part(records, scores, i);
        let ghost done = wanted@;
        wanted.push(counts);
        assert(voters(records@, scores@).take(i + 1) =~= done.push(counts));
        i += 1;
    }
    assert(voters(records@, scores@).take(records.len() as int) =~= voters(records@, scores@));
    rank(records, scores, &wanted, 12)
}

/// Observations that nobody confirmed decide only together: each one on the list is one of at
/// least three that agree.
pub proof fn unconfirmed_memories_decide_together(
    records: Seq<MemoryRecord>,
    scores: Seq<MatchScore>,
    order: Seq<usize>,
)
    requires
        ranking(records, scores, voters(records, scores), 12, order),
    ensures
        forall|k: int|
            0 <= k < order.len() && !records[(#[trigger] order[k]) as int].user_confirmed
                ==> agreeing(
                records,
                scores,
                assignment(records[order[k] as int]),
                records.len(),
            ) >= 3,
{
    assert forall|k: int|
        0 <= k < order.len() && !records[(#[trigger] order[k]) as int].user_confirmed implies agreeing(
        records,
        scores,
        assignment(records[order[k] as int]),
        records.len(),
    ) >= 3 by {
        let i = order[k] as int;
        assert(order[k] < records.len() && voters(records, scores)[i]);
    }
}

/// The first place in `order` with the same assignment as place `p`.
pub open spec fn first_with_assignment(
    records: Seq<MemoryRecord>,
    order: Seq<usize>,
    p: int,
    first: int,
) -> bool {
    &&& 0 <= first <= p
    &&& assignment(records[order[first] as int]) == assignment(records[order[p] as int])
    &&& forall|q: int|
        0 <= q < first ==> assignment(records[#[trigger] order[q] as int]) != assignment(
            records[order[p] as int],
        )
}

/// For each place of `order` the first place with the same assignment.
pub fn group_by_assignment(records: &Vec<MemoryRecord>, order: &Vec<usize>) -> (result: Vec<usize>)
    requires
        forall|k: int| 0 <= k < order.len() ==> #[trigger] order@[k] < records.len(),
    ensures
        result.len() == order.len(),
        forall|p: int|
            0 <= p < order.len() ==> first_with_assignment(
                records@,
                order@,
                p,
                #[trigger] result@[p] as int,
            ),
{
    let mut result: Vec<usize> = Vec::new();
    let mut p: usize = 0;
    while p < order.len()
        invariant
            p <= order.len(),
            result.len() == p,
            forall|k: int| 0 <= k < order.len() ==> #[trigger] order@[k] < records.len(),
            forall|k: int|
                0 <= k < p ==> first_with_assignment(
                    records@,
                    order@,
                    k,
                    #[trigger] result@[k] as int,
                ),
        decreases order.len() - p,
    {
        let key = assignment_key(&records[order[p]]);
        let mut q: usize = 0;
        while q < p && !text::same(assignment_key(&records[order[q]]).as_str(), key.as_str())
            invariant
                q <= p < order.len(),
                forall|k: int| 0 <= k < order.len() ==> #[trigger] order@[k] < records.len(),
                key@ == assignment(records@[order@[p as int] as int]),
                forall|k: int|
                    0 <= k < q ==> assignment(records@[#[trigger] order@[k] as int]) != key@,
            decreases p - q,
        {
            q += 1;
        }
        result.push(q);
        p += 1;
    }
    result
}

/// The support that one assignment has among the candidates.
#[derive(Clone, Copy, Debug, PartialEq, Eq, Structural)]
pub struct Vote {
    /// The place of its best candidate.
    pub first: usize,
    pub best: i32,
    pub strong: bool,
    pub support: usize,
}

/// How many of the first `n` places belong to the group of `first`.
pub open spec fn members(groups: Seq<usize>, first: usize, n: int) -> nat
    decreases n,
{
    if n <= 0 {
        0
    } else {
        members(groups, first, n - 1) + (if groups[n - 1] == first {
            1nat
        } else {
            0nat
        })
    }
}

/// The vote counts the members of its group, and holds the best score and whether any is strong.
pub open spec fn counts_group(
    groups: Seq<usize>,
    order: Seq<usize>,
    scores: Seq<MatchScore>,
    vote: Vote,
) -> bool {
    &&& vote.first < groups.len()
    &&& groups[vote.first as int] == vote.first
    &&& vote.support == members(groups, vote.first, groups.len() as int)
    &&& vote.strong <==> exists|p: int|
        0 <= p < groups.len() && #[trigger] groups[p] == vote.first && scores[order[p] as int].strong
    &&& forall|p: int|
        0 <= p < groups.len() && #[trigger] groups[p] == vote.first ==> scores[order[p] as int].score
            <= vote.best
    &&& exists|p: int|
        0 <= p < groups.len() && #[trigger] groups[p] == vote.first && scores[order[p] as int].score
            == vote.best
}

/// The votes, one for each group, in the order of their best candidates.
pub open spec fn counted(
    groups: Seq<usize>,
    order: Seq<usize>,
    scores: Seq<MatchScore>,
    votes: Seq<Vote>,
) -> bool {
    &&& forall|v: int|
        0 <= v < votes.len() ==> counts_group(groups, order, scores, #[trigger] votes[v])
    &&& forall|v: int, w: int|
        0 <= v < w < votes.len() ==> (#[trigger] votes[v]).first < (#[trigger] votes[w]).first
    &&& forall|p: int|
        0 <= p < groups.len() && #[trigger] groups[p] == p ==> exists|v: int|
            0 <= v < votes.len() && (#[trigger] votes[v]).first == p
}

fn count_group(
    groups: &Vec<usize>,
    order: &Vec<usize>,
    scores: &Vec<MatchScore>,
    first: usize,
) -> (result: Vote)
    requires
        first < groups.len(),
        groups.len() == order.len(),
        groups@[first as int] == first,
        forall|k: int| 0 <= k < order.len() ==> #[trigger] order@[k] < scores.len(),
    ensures
        result.first == first,
        counts_group(groups@, order@, scores@, result),
{
    let mut vote = Vote { first, best: scores[order[first]].score, strong: false, support: 0 };
    let mut p: usize = 0;
    let ghost mut best_at: int = first as int;
    while p < groups.len()
        invariant
            p <= groups.len(),
            first < groups.len(),
            groups.len() == order.len(),
            groups@[first as int] == first,
            forall|k: int| 0 <= k < order.len() ==> #[trigger] order@[k] < scores.len(),
            vote.first == first,
            vote.support == members(groups@, first, p as int),
            vote.support <= p,
            vote.strong <==> exists|k: int|
                0 <= k < p && #[trigger] groups@[k] == first && scores@[order@[k] as int].strong,
            forall|k: int|
                0 <= k < p && #[trigger] groups@[k] == first ==> scores@[order@[k] as int].score
                    <= vote.best,
            0 <= best_at < groups.len(),
            groups@[best_at] == first,
            scores@[order@[best_at] as int].score == vote.best,
        decreases groups.len() - p,
    {
        if groups[p] == first {
            let score = scores[order[p]];
            vote.support = vote.support + 1;
            if score.strong {
                vote.strong = true;
                assert(groups@[p as int] == first && scores@[order@[p as int] as int].strong);
            }
            if vote.best < score.score {
                vote.best = score.score;
                proof {
                    best_at = p as int;
                }
            }
        }
        p += 1;
    }
    assert(groups@[best_at] == first);
    vote
}

/// Counts the votes of the groups.
pub fn count_votes(
    groups: &Vec<usize>,
    order: &Vec<usize>,
    scores: &Vec<MatchScore>,
) -> (result: Vec<Vote>)
    requires
        groups.len() == order.len(),
        forall|k: int| 0 <= k < order.len() ==> #[trigger] order@[k] < scores.len(),
    ensures
        counted(groups@, order@, scores@, result@),
{
    let mut votes: Vec<Vote> = Vec::new();
    let mut p: usize = 0;
    while p < groups.len()
        invariant
            p <= groups.len(),
            groups.len() == order.len(),
            forall|k: int| 0 <= k < order.len() ==> #[trigger] order@[k] < scores.len(),
            forall|v: int|
                0 <= v < votes.len() ==> counts_group(
                    groups@,
                    order@,
                    scores@,
                    #[trigger] votes@[v],
                ) && votes@[v].first < p,
            forall|v: int, w: int|
                0 <= v < w < votes.len() ==> (#[trigger] votes@[v]).first < (#[trigger] votes@[w]).first,
            forall|q: int|
                0 <= q < p && #[trigger] groups@[q] == q ==> exists|v: int|
                    0 <= v < votes.len() && (#[trigger] votes@[v]).first == q,
        decreases groups.len() - p,
    {
        if groups[p] == p {
            let ghost before = votes@;
            votes.push(count_group(groups, order, scores, p));
            assert forall|q: int| 0 <= q < p + 1 && #[trigger] groups@[q] == q implies exists|v: int|
                0 <= v < votes.len() && (#[trigger] votes@[v]).first == q by {
                if q < p {
                    let v = choose|v: int|
                        0 <= v < before.len() && (#[trigger] before[v]).first == q;
                    assert(votes@[v].first == q);
                } else {
                    assert(votes@[before.len() as int].first == q);
                }
            }
        }
        p += 1;
    }
    votes
}

/// Vote `i` has the greater total, or the better best candidate where the totals are equal.
pub open spec fn beats(votes: Seq<Vote>, totals: Seq<i32>, i: int, j: int) -> bool {
    totals[i] > totals[j] || (totals[i] == totals[j] && votes[i].best > votes[j].best)
}

/// The winner is beaten by none, the runner-up by none but the winner.
pub open spec fn leads(
    votes: Seq<Vote>,
    totals: Seq<i32>,
    winner: int,
    runner_up: Option<usize>,
) -> bool {
    &&& 0 <= winner < votes.len()
    &&& forall|i: int| 0 <= i < votes.len() ==> !#[trigger] beats(votes, totals, i, winner)
    &&& match runner_up {
        Some(second) => second < votes.len() && second != winner && forall|i: int|
            0 <= i < votes.len() && i != winner ==> !#[trigger] beats(
                votes,
                totals,
                i,
                second as int,
            ),
        None => votes.len() == 1,
    }
}

fn is_beaten(votes: &Vec<Vote>, totals: &Vec<i32>, i: usize, j: usize) -> (result: bool)
    requires
        i < votes.len(),
        j < votes.len(),
        totals.len() == votes.len(),
    ensures
        result == beats(votes@, totals@, i as int, j as int),
{
    totals[i] > totals[j] || (totals[i] == totals[j] && votes[i].best > votes[j].best)
}

/// The best vote other than `skipped`.
fn best_vote(votes: &Vec<Vote>, totals: &Vec<i32>, skipped: Option<usize>) -> (result: Option<usize>)
    requires
        totals.len() == votes.len(),
    ensures
        match result {
            Some(best) => best < votes.len() && Some(best) != skipped && forall|i: int|
                0 <= i < votes.len() && Some(i as usize) != skipped ==> !#[trigger] beats(
                    votes@,
                    totals@,
                    i,
                    best as int,
                ),
            None => votes.len() == 0 || (votes.len() == 1 && skipped == Some(0usize)),
        },
{
    let mut best: Option<usize> = None;
    let mut i: usize = 0;
    while i < votes.len()
        invariant
            i <= votes.len(),
            totals.len() == votes.len(),
            match best {
                Some(at) => at < i && Some(at) != skipped && forall|k: int|
                    0 <= k < i && Some(k as usize) != skipped ==> !#[trigger] beats(
                        votes@,
                        totals@,
                        k,
                        at as int,
                    ),
                None => i == 0 || (i == 1 && skipped == Some(0usize)),
            },
        decreases votes.len() - i,
    {
        let skip = match skipped {
            Some(other) => other == i,
            None => false,
        };
        if !skip {
            match best {
                Some(at) => {
                    if is_beaten(votes, totals, i, at) {
                        assert forall|k: int|
                            0 <= k < i && Some(k as usize) != skipped implies !#[trigger] beats(
                            votes@,
                            totals@,
                            k,
                            i as int,
                        ) by {
                            assert(!beats(votes@, totals@, k, at as int));
                        }
                        best = Some(i);
                    }
                },
                None => {
                    best = Some(i);
                },
            }
        }
        i += 1;
    }
    best
}

/// The winner and the runner-up.
pub fn leaders(votes: &Vec<Vote>, totals: &Vec<i32>) -> (result: Option<(usize, Option<usize>)>)
    requires
        totals.len() == votes.len(),
    ensures
        match result {
            Some((winner, runner_up)) => leads(votes@, totals@, winner as int, runner_up),
            None => votes.len() == 0,
        },
{
    match best_vote(votes, totals, None) {
        Some(winner) => {
            let runner_up = best_vote(votes, totals, Some(winner));
            Some((winner, runner_up))
        },
        None => None,
    }
}

/// The confidence that the winner deserves, if any. `close` says that the runner-up's best
/// candidate comes close to the winner's.
pub open spec fn deserved(
    winner: Vote,
    runner_strong: bool,
    close: bool,
    margin: i32,
) -> Option<i32> {
    if (winner.strong && runner_strong && close) || winner.best < score::DECISION_FLOOR {
        None
    } else if winner.support >= 2 && winner.best >= score::BEST_SUPPORTED && margin
        >= score::MARGIN_SUPPORTED {
        Some(score::SUPPORTED_MATCH)
    } else if winner.best >= score::BEST_NEAR_EXACT && margin >= score::MARGIN_NEAR_EXACT {
        Some(score::NEAR_EXACT_MATCH)
    } else if winner.strong && winner.best >= score::BEST_STRONG && margin >= score::MARGIN_STRONG {
        Some(score::STRONG_MATCH)
    } else if winner.best >= score::BEST_SIMILAR && margin >= score::MARGIN_SIMILAR {
        Some(score::BEST_NEAR_EXACT)
    } else {
        None
    }
}

/// Decides on the winner of the vote. `margin` is its lead over the runner-up.
pub fn verdict(winner: Vote, runner_up: Option<Vote>, close: bool, margin: i32) -> (result: Option<
    i32,
>)
    ensures
        result == deserved(
            winner,
            match runner_up {
                Some(second) => second.strong,
                None => false,
            },
            close,
            margin,
        ),
{
    let runner_strong = match runner_up {
        Some(second) => second.strong,
        None => false,
    };
    if (winner.strong && runner_strong && close) || winner.best < score::DECISION_FLOOR {
        None
    } else if winner.support >= 2 && winner.best >= score::BEST_SUPPORTED && margin
        >= score::MARGIN_SUPPORTED {
        Some(score::SUPPORTED_MATCH)
    } else if winner.best >= score::BEST_NEAR_EXACT && margin >= score::MARGIN_NEAR_EXACT {
        Some(score::NEAR_EXACT_MATCH)
    } else if winner.strong && winner.best >= score::BEST_STRONG && margin >= score::MARGIN_STRONG {
        Some(score::STRONG_MATCH)
    } else if winner.best >= score::BEST_SIMILAR && margin >= score::MARGIN_SIMILAR {
        Some(score::BEST_NEAR_EXACT)
    } else {
        None
    }
}

/// Two remembered contexts that match exactly and come close to each other never decide.
pub proof fn conflicting_exact_memories_abstain(winner: Vote, margin: i32)
    requires
        winner.strong,
    ensures
        deserved(winner, true, true, margin) is None,
{
}

/// What made the query and the record match.
pub open spec fn label_of_match(query: FeaturesView, memory: FeaturesView) -> Seq<char> {
    if exactly(query.page, memory.page) {
        "当前页面："@ + query.page
    } else if exactly(query.workspace, memory.workspace) {
        "工作区："@ + query.workspace
    } else if exactly(query.file, memory.file) {
        "文件："@ + query.file
    } else if exactly(query.domain, memory.domain) {
        "网页域名："@ + query.domain
    } else if exactly(query.window, memory.window) {
        "窗口："@ + query.window
    } else {
        "相似的个人修正记录"@
    }
}

pub fn strongest_label(query: &ContextFeatures, memory: &ContextFeatures) -> (result: String)
    ensures
        result@ == label_of_match(query@, memory@),
{
    if exact(query.page.as_str(), memory.page.as_str()) {
        text::joined("当前页面：", query.page.as_str())
    } else if exact(query.workspace.as_str(), memory.workspace.as_str()) {
        text::joined("工作区：", query.workspace.as_str())
    } else if exact(query.file.as_str(), memory.file.as_str()) {
        text::joined("文件：", query.file.as_str())
    } else if exact(query.domain.as_str(), memory.domain.as_str()) {
        text::joined("网页域名：", query.domain.as_str())
    } else if exact(query.window.as_str(), memory.window.as_str()) {
        text::joined("窗口：", query.window.as_str())
    } else {
        "相似的个人修正记录".to_owned()
    }
}

/// An assignment taken from personal memory.
#[derive(Debug, PartialEq, Eq)]
pub struct MemoryDecision {
    pub category: String,
    pub project_id: String,
    pub task_id: String,
    pub confidence: i32,
    pub matched_label: String,
    pub support: usize,
    pub memory_session_id: String,
}

/// The decision that a record stands for.
pub fn decision_from(
    query: &ContextFeatures,
    record: &MemoryRecord,
    confidence: i32,
    support: usize,
) -> (result: MemoryDecision)
    ensures
        result.category@ == record.category@,
        result.project_id@ == record.project_id@,
        result.task_id@ == record.task_id@,
        result.confidence == confidence,
        result.matched_label@ == label_of_match(query@, record.features@),
        result.support == support,
        result.memory_session_id@ == record.session_id@,
{
    MemoryDecision {
        category: record.category.clone(),
        project_id: record.project_id.clone(),
        task_id: record.task_id.clone(),
        confidence,
        matched_label: strongest_label(query, &record.features),
        support,
        memory_session_id: record.session_id.clone(),
    }
}

/// How many further examples a target may have: at least one.
pub open spec fn room(per_target: nat, already: nat) -> nat {
    if per_target <= already {
        1
    } else {
        (per_target - already) as nat
    }
}

/// The places of `groups` that begin a group, in order, at most `limit` of them.
pub open spec fn group_heads(groups: Seq<usize>, limit: nat, n: int) -> Seq<usize>
    decreases n,
{
    if n <= 0 {
        Seq::empty()
    } else {
        let before = group_heads(groups, limit, n - 1);
        if groups[n - 1] == n - 1 && before.len() < limit {
            before.push((n - 1) as usize)
        } else {
            before
        }
    }
}

/// The records that are similar enough to serve as examples.
pub open spec fn example_flags(scores: Seq<MatchScore>) -> Seq<bool> {
    scores.map_values(|score: MatchScore| score.score >= score::EXAMPLE_FLOOR)
}

/// `result` holds the best record of each assignment, best first, at most `limit` of them: `order`
/// ranks the records and `groups` tells the assignments apart.
pub open spec fn examples(
    records: Seq<MemoryRecord>,
    scores: Seq<MatchScore>,
    limit: nat,
    order: Seq<usize>,
    groups: Seq<usize>,
    result: Seq<usize>,
) -> bool {
    &&& ranking(records, scores, example_flags(scores), records.len(), order)
    &&& groups.len() == order.len()
    &&& forall|p: int|
        0 <= p < order.len() ==> first_with_assignment(
            records,
            order,
            p,
            #[trigger] groups[p] as int,
        )
    &&& result == group_heads(groups, limit, groups.len() as int).map_values(
        |p: usize| order[p as int],
    )
}

/// The best examples for a target, best first, one for each assignment.
pub fn pick_examples(
    records: &Vec<MemoryRecord>,
    scores: &Vec<MatchScore>,
    per_target: usize,
    already: usize,
) -> (result: Vec<usize>)
    requires
        scores.len() == records.len(),
    ensures
        exists|order: Seq<usize>, groups: Seq<usize>| #[trigger]
            examples(
                records@,
                scores@,
                room(per_target as nat, already as nat),
                order,
                groups,
                result@,
            ),
{
    let mut wanted: Vec<bool> = Vec::new();
    let mut i: usize = 0;
    while i < scores.len()
        invariant
            i <= scores.len(),
            wanted@ == example_flags(scores@.take(i as int)),
        decreases scores.len() - i,
    {
        wanted.push(scores[i].score >= score::EXAMPLE_FLOOR);
        assert(wanted@ =~= example_flags(scores@.take(i + 1)));
        i += 1;
    }
    assert(scores@.take(scores.len() as int) =~= scores@);
    let order = rank(records, scores, &wanted, records.len());
    let groups = group_by_assignment(records, &order);
    let limit: usize = if per_target <= already {
        1
    } else {
        per_target - already
    };
    let mut result: Vec<usize> = Vec::new();
    let mut p: usize = 0;
    let ghost heads = |n: int| group_heads(groups@, limit as nat, n);
    assert(result@ =~= heads(0).map_values(|p: usize| order@[p as int]));
    while p < groups.len()
        invariant
            p <= groups.len(),
            groups.len() == order.len(),
            heads == (|n: int| group_heads(groups@, limit as nat, n)),
            result@ == heads(p as int).map_values(|p: usize| order@[p as int]),
        decreases groups.len() - p,
    {
        if groups[p] == p && result.len() < limit {
            result.push(order[p]);
        }
        assert(result@ =~= heads(p + 1).map_values(|p: usize| order@[p as int]));
        p += 1;
    }
    assert(examples(
        records@,
        scores@,
        room(per_target as nat, already as nat),
        order@,
        groups@,
        result@,
    ));
    result
}

} // verus!
