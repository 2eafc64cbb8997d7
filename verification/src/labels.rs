//! Rules on names, titles and summaries.
use vstd::prelude::*;
use vstd::string::*;

use crate::settings;
use crate::text;

verus! {

broadcast use vstd::seq_lib::group_seq_properties;

/// A name on one line, at most 80 characters long, or the fallback where nothing is left.
pub fn clean_name(value: &str, fallback: &str) -> (result: String)
    ensures
        result@ == settings::setting_label(value@, fallback@),
{
    let cleaned = text::flatten_breaks(text::trim(value).as_str());
    if cleaned.as_str().is_empty() {
        fallback.to_owned()
    } else {
        text::take_chars(cleaned.as_str(), 80)
    }
}

/// The name as it is stored, empty where nothing is left.
pub open spec fn cleaned(value: Seq<char>) -> Seq<char> {
    settings::setting_label(value, Seq::empty())
}

/// Cleans a name that has no fallback.
pub fn clean(value: &str) -> (result: String)
    ensures
        result@ == cleaned(value@),
{
    proof {
        reveal_strlit("");
        assert(""@ =~= Seq::<char>::empty());
    }
    clean_name(value, "")
}

/// A session that the collectors wrote and nobody has touched since.
pub open spec fn auto_source(source: Seq<char>) -> bool {
    source == "collector-rule"@ || source == "collector-idle"@ || source == "context-complete"@
}

pub fn is_auto_session_source(source: &str) -> (result: bool)
    ensures
        result == auto_source(source@),
{
    text::same(source, "collector-rule") || text::same(source, "collector-idle") || text::same(
        source,
        "context-complete",
    )
}

/// Programs that lie over the task at hand, such as screenshot tools.
pub open spec fn overlay_app(app: Seq<char>) -> bool {
    let name = text::drop_suffixes(text::trimmed(app), ".exe"@);
    ||| name == "snipaste"@
    ||| name == "snippingtool"@
    ||| name == "screenclippinghost"@
    ||| name == "qqscreenshot"@
    ||| name == "qqscreenclip"@
    ||| name == "qqsc"@
    ||| name == "sharex"@
    ||| name == "greenshot"@
    ||| name == "picpick"@
    ||| name == "lightshot"@
    ||| name == "flameshot"@
}

pub fn is_task_overlay_app_name(app: &str) -> (result: bool)
    ensures
        result == overlay_app(app@),
{
    proof {
        reveal_strlit(".exe");
    }
    let trimmed = text::trim(app);
    let stem = text::trim_end_suffix(trimmed.as_str(), ".exe");
    let name = stem.as_str();
    text::same(name, "snipaste") || text::same(name, "snippingtool") || text::same(
        name,
        "screenclippinghost",
    ) || text::same(name, "qqscreenshot") || text::same(name, "qqscreenclip") || text::same(
        name,
        "qqsc",
    ) || text::same(name, "sharex") || text::same(name, "greenshot") || text::same(name, "picpick")
        || text::same(name, "lightshot") || text::same(name, "flameshot")
}

/// Characters that separate the words of a title.
pub open spec fn title_separator(c: char) -> bool {
    text::white(c) || c == '·' || c == '•' || c == '-' || c == '—' || c == '_' || c == ':' || c == '：'
}

/// The title in lower case without separators.
pub open spec fn compact_title(title: Seq<char>) -> Seq<char> {
    text::lowercase(text::trimmed(title)).filter(|c: char| !title_separator(c))
}

/// The title without the name of the messenger that it begins with.
pub open spec fn without_messenger(v: Seq<char>) -> Seq<char> {
    if text::has_prefix(v, "qq"@) {
        v.skip("qq"@.len() as int)
    } else if text::has_prefix(v, "微信"@) {
        v.skip("微信"@.len() as int)
    } else if text::has_prefix(v, "wechat"@) {
        v.skip("wechat"@.len() as int)
    } else if text::has_prefix(v, "weixin"@) {
        v.skip("weixin"@.len() as int)
    } else if text::has_prefix(v, "钉钉"@) {
        v.skip("钉钉"@.len() as int)
    } else if text::has_prefix(v, "dingtalk"@) {
        v.skip("dingtalk"@.len() as int)
    } else {
        v
    }
}

/// The window is a screenshot overlay.
pub open spec fn overlay_title(title: Seq<char>) -> bool {
    let name = without_messenger(compact_title(title));
    ||| name == "截图"@
    ||| name == "qq截图"@
    ||| name == "截屏"@
    ||| name == "屏幕截图"@
    ||| name == "屏幕截取"@
    ||| name == "截图工具"@
    ||| name == "截图编辑"@
    ||| name == "screenshot"@
    ||| name == "screencapture"@
    ||| name == "screenclipping"@
    ||| name == "snippingtool"@
    ||| name == "snippersnipaste"@
}

fn compacted(title: &str) -> (result: String)
    ensures
        result@ == compact_title(title@),
{
    let lowered = text::trim(title).as_str().to_lowercase();
    let ghost keep = |c: char| !title_separator(c);
    let mut result: String = String::new();
    assert(lowered@.take(0).filter(keep) =~= Seq::empty()) by {
        reveal(Seq::filter);
    }
    for c in iter: lowered.as_str().chars()
        invariant
            result@ == lowered@.take(iter.index()).filter(keep),
            iter.seq() == lowered@,
            keep == (|c: char| !title_separator(c)),
    {
        assert(lowered@.take(iter.index() + 1) =~= lowered@.take(iter.index()).push(c));
        proof {
            lowered@.take(iter.index()).lemma_filter_push(c, keep);
        }
        let separates = text::is_white(c) || c == '·' || c == '•' || c == '-' || c == '—' || c == '_'
            || c == ':' || c == '：';
        if !separates {
            result.push(c);
        }
    }
    assert(lowered@.take(lowered@.len() as int) =~= lowered@);
    result
}

fn drop_messenger(value: String) -> (result: String)
    ensures
        result@ == without_messenger(value@),
{
    if let Some(rest) = text::strip_prefix(value.as_str(), "qq") {
        return rest;
    }
    if let Some(rest) = text::strip_prefix(value.as_str(), "微信") {
        return rest;
    }
    if let Some(rest) = text::strip_prefix(value.as_str(), "wechat") {
        return rest;
    }
    if let Some(rest) = text::strip_prefix(value.as_str(), "weixin") {
        return rest;
    }
    if let Some(rest) = text::strip_prefix(value.as_str(), "钉钉") {
        return rest;
    }
    if let Some(rest) = text::strip_prefix(value.as_str(), "dingtalk") {
        return rest;
    }
    value
}

pub fn is_screenshot_overlay_title(title: &str) -> (result: bool)
    ensures
        result == overlay_title(title@),
{
    let stem = drop_messenger(compacted(title));
    let name = stem.as_str();
    text::same(name, "截图") || text::same(name, "qq截图") || text::same(name, "截屏") || text::same(
        name,
        "屏幕截图",
    ) || text::same(name, "屏幕截取") || text::same(name, "截图工具") || text::same(name, "截图编辑")
        || text::same(name, "screenshot") || text::same(name, "screencapture") || text::same(
        name,
        "screenclipping",
    ) || text::same(name, "snippingtool") || text::same(name, "snippersnipaste")
}

/// A summary that only names a passing window.
pub open spec fn transient(value: Seq<char>) -> bool {
    let v = text::lowercase(value);
    ||| text::occurs(v, "图片查看器"@)
    ||| text::occurs(v, "snipaste"@)
    ||| text::occurs(v, "snipping tool"@)
    ||| text::occurs(v, "截图工具"@)
    ||| text::occurs(v, "无标题"@)
    ||| text::occurs(v, "新标签页"@)
    ||| text::occurs(v, "loading"@)
    ||| text::occurs(v, "加载中"@)
}

pub fn is_transient_summary(value: &str) -> (result: bool)
    ensures
        result == transient(value@),
{
    let lowered = value.to_lowercase();
    let v = lowered.as_str();
    text::contains(v, "图片查看器") || text::contains(v, "snipaste") || text::contains(
        v,
        "snipping tool",
    ) || text::contains(v, "截图工具") || text::contains(v, "无标题") || text::contains(v, "新标签页")
        || text::contains(v, "loading") || text::contains(v, "加载中")
}

/// The summary of two joined sessions: the left one, unless only the right one is lasting.
pub open spec fn joint_summary(left: Seq<char>, right: Seq<char>) -> Seq<char> {
    if transient(left) && !transient(right) {
        right
    } else {
        left
    }
}

pub fn preferred_coalesced_summary(left: &str, right: &str) -> (result: String)
    ensures
        result@ == joint_summary(left@, right@),
{
    if is_transient_summary(left) && !is_transient_summary(right) {
        right.to_owned()
    } else {
        left.to_owned()
    }
}

/// Labels that occur everywhere and identify nothing.
pub open spec fn noise(value: Seq<char>) -> bool {
    let v = text::lowercase(text::trimmed(value));
    ||| v == "program manager"@
    ||| v == "task switching"@
    ||| v == "desktop"@
    ||| v == "会议"@
    ||| v == "腾讯会议"@
    ||| v == "加入会议"@
    ||| v == "学习"@
    ||| v == "开发"@
    ||| v == "科研"@
    ||| v == "工作"@
    ||| v == "任务"@
    ||| v == "沟通"@
    ||| v == "杂务"@
    ||| v == "日常杂务"@
    ||| v == "无效"@
    ||| v == "离开"@
    ||| v == "校内实习"@
    ||| text::occurs(v, "系统托盘溢出窗口"@)
    ||| text::occurs(v, "任务视图"@)
    ||| text::occurs(v, "任务切换"@)
    ||| text::occurs(v, "程序管理器"@)
    ||| text::occurs(v, "桌面"@)
}

pub fn is_context_memory_noise(value: &str) -> (result: bool)
    ensures
        result == noise(value@),
{
    let lowered = text::trim(value).as_str().to_lowercase();
    let v = lowered.as_str();
    text::same(v, "program manager") || text::same(v, "task switching") || text::same(v, "desktop")
        || text::same(v, "会议") || text::same(v, "腾讯会议") || text::same(v, "加入会议")
        || text::same(v, "学习") || text::same(v, "开发") || text::same(v, "科研") || text::same(
        v,
        "工作",
    ) || text::same(v, "任务") || text::same(v, "沟通") || text::same(v, "杂务") || text::same(
        v,
        "日常杂务",
    ) || text::same(v, "无效") || text::same(v, "离开") || text::same(v, "校内实习")
        || text::contains(v, "系统托盘溢出窗口") || text::contains(v, "任务视图") || text::contains(
        v,
        "任务切换",
    ) || text::contains(v, "程序管理器") || text::contains(v, "桌面")
}

/// The name of a program or of an empty page.
pub open spec fn generic_context(value: Seq<char>) -> bool {
    let v = text::drop_suffixes(text::trimmed(value), ".exe"@);
    ||| v == "chatgpt"@
    ||| v == "codex"@
    ||| v == "chrome"@
    ||| v == "msedge"@
    ||| v == "firefox"@
    ||| v == "brave"@
    ||| v == "qq"@
    ||| v == "wechat"@
    ||| v == "weixin"@
    ||| v == "wps"@
    ||| v == "explorer"@
    ||| v == "screenuse"@
    ||| v == "new tab"@
    ||| v == "新标签页"@
    ||| v == "电脑活动"@
}

pub fn is_generic_context_label(value: &str) -> (result: bool)
    ensures
        result == generic_context(value@),
{
    proof {
        reveal_strlit(".exe");
    }
    let trimmed = text::trim(value);
    let stem = text::trim_end_suffix(trimmed.as_str(), ".exe");
    let v = stem.as_str();
    text::same(v, "chatgpt") || text::same(v, "codex") || text::same(v, "chrome") || text::same(
        v,
        "msedge",
    ) || text::same(v, "firefox") || text::same(v, "brave") || text::same(v, "qq") || text::same(
        v,
        "wechat",
    ) || text::same(v, "weixin") || text::same(v, "wps") || text::same(v, "explorer")
        || text::same(v, "screenuse") || text::same(v, "new tab") || text::same(v, "新标签页")
        || text::same(v, "电脑活动")
}

/// The label by which a context can be recognised again, if it has one.
pub open spec fn memory_keyword(value: Seq<char>) -> Option<Seq<char>> {
    let v = text::trimmed(text::one_line(value));
    let lowered = text::lowercase(v);
    if v.len() < 3 || v.len() > 160 || generic_context(lowered) || transient(lowered) || noise(
        lowered,
    ) {
        None
    } else {
        Some(v)
    }
}

pub fn context_memory_keyword(value: &str) -> (result: Option<String>)
    ensures
        text::optional(result) == memory_keyword(value@),
{
    let v = text::trim(text::flatten_breaks(value).as_str());
    let lowered = v.as_str().to_lowercase();
    let length: usize = v.as_str().unicode_len();
    if length < 3 || length > 160 || is_generic_context_label(lowered.as_str())
        || is_transient_summary(lowered.as_str()) || is_context_memory_noise(lowered.as_str()) {
        None
    } else {
        Some(v)
    }
}

/// The colour of a category that is not of the user's making.
pub open spec fn category_color(category: Seq<char>) -> Seq<char> {
    if category == "开发"@ {
        "#38bdf8"@
    } else if category == "学习"@ {
        "#a78bfa"@
    } else if category == "写作"@ {
        "#f0abfc"@
    } else if category == "沟通"@ {
        "#34d399"@
    } else if category == "娱乐"@ {
        "#fb7185"@
    } else if category == "无效"@ || category == "离开"@ {
        "#94a3b8"@
    } else {
        "#facc15"@
    }
}

pub fn color_for_category(category: &str) -> (result: &'static str)
    ensures
        result@ == category_color(category@),
{
    if text::same(category, "开发") {
        "#38bdf8"
    } else if text::same(category, "学习") {
        "#a78bfa"
    } else if text::same(category, "写作") {
        "#f0abfc"
    } else if text::same(category, "沟通") {
        "#34d399"
    } else if text::same(category, "娱乐") {
        "#fb7185"
    } else if text::same(category, "无效") || text::same(category, "离开") {
        "#94a3b8"
    } else {
        "#facc15"
    }
}

/// The polynomial hash of the bytes with base 31, of which only the last three bits count.
pub open spec fn color_index(bytes: Seq<u8>) -> nat
    decreases bytes.len(),
{
    if bytes.len() == 0 {
        0
    } else {
        (color_index(bytes.drop_last()) * 31 + bytes.last() as nat) % 8
    }
}

pub open spec fn palette(index: nat) -> Seq<char> {
    if index == 0 {
        "#8b5cf6"@
    } else if index == 1 {
        "#ec4899"@
    } else if index == 2 {
        "#06b6d4"@
    } else if index == 3 {
        "#14b8a6"@
    } else if index == 4 {
        "#f97316"@
    } else if index == 5 {
        "#6366f1"@
    } else if index == 6 {
        "#84cc16"@
    } else {
        "#d946ef"@
    }
}

/// The colour of a category of the user's making, which its name decides.
pub fn custom_category_color(name: &str) -> (result: &'static str)
    ensures
        result@ == palette(color_index(vstd::utf8::encode_utf8(name@))),
{
    let bytes = name.as_bytes();
    let mut hash: u32 = 0;
    let mut i: usize = 0;
    while i < bytes.len()
        invariant
            i <= bytes.len(),
            hash < 8,
            hash == color_index(bytes@.take(i as int)),
        decreases bytes.len() - i,
    {
        assert(bytes@.take(i + 1).drop_last() =~= bytes@.take(i as int));
        hash = (hash * 31 + bytes[i] as u32) % 8;
        i += 1;
    }
    assert(bytes@.take(bytes.len() as int) =~= bytes@);
    if hash == 0 {
        "#8b5cf6"
    } else if hash == 1 {
        "#ec4899"
    } else if hash == 2 {
        "#06b6d4"
    } else if hash == 3 {
        "#14b8a6"
    } else if hash == 4 {
        "#f97316"
    } else if hash == 5 {
        "#6366f1"
    } else if hash == 6 {
        "#84cc16"
    } else {
        "#d946ef"
    }
}

/// Project, task and category as one key.
pub open spec fn joint_key(
    project: Option<Seq<char>>,
    task: Option<Seq<char>>,
    category: Seq<char>,
) -> Seq<char> {
    or_empty(project) + "\u{1f}"@ + or_empty(task) + "\u{1f}"@ + category
}

pub open spec fn or_empty(value: Option<Seq<char>>) -> Seq<char> {
    match value {
        Some(inner) => inner,
        None => Seq::empty(),
    }
}

pub fn context_assignment_key(
    project_id: &Option<String>,
    task_id: &Option<String>,
    category: &str,
) -> (result: String)
    ensures
        result@ == joint_key(text::optional(*project_id), text::optional(*task_id), category@),
{
    let mut key = text_or_empty(project_id);
    key.append("\u{1f}");
    key.append(text_or_empty(task_id).as_str());
    key.append("\u{1f}");
    key.append(category);
    key
}

pub fn text_or_empty(value: &Option<String>) -> (result: String)
    ensures
        result@ == or_empty(text::optional(*value)),
{
    match value {
        Some(inner) => inner.clone(),
        None => String::new(),
    }
}

} // verus!
