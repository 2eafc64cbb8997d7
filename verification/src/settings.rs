//! Normal forms of the settings.
use vstd::prelude::*;
use vstd::string::*;

use crate::models::{AppSettings, SettingsView};
use crate::score;
use crate::text;

verus! {

broadcast use vstd::seq_lib::group_seq_properties;

/// `value` moved into the range from `low` to `high`.
pub open spec fn clamped(value: u32, low: u32, high: u32) -> u32 {
    if value < low {
        low
    } else if value > high {
        high
    } else {
        value
    }
}

pub fn clamp(value: u32, low: u32, high: u32) -> (result: u32)
    ensures
        result == clamped(value, low, high),
{
    if value < low {
        low
    } else if value > high {
        high
    } else {
        value
    }
}

/// A label on one line, at most 80 characters long, or the fallback where nothing is left.
pub open spec fn setting_label(value: Seq<char>, fallback: Seq<char>) -> Seq<char> {
    let cleaned = text::prefix_of(text::one_line(text::trimmed(value)), 80);
    if cleaned.len() == 0 {
        fallback
    } else {
        cleaned
    }
}

pub fn clean_setting_label(value: &str, fallback: &str) -> (result: String)
    ensures
        result@ == setting_label(value@, fallback@),
{
    let cleaned = text::take_chars(text::flatten_breaks(text::trim(value).as_str()).as_str(), 80);
    if cleaned.as_str().is_empty() {
        fallback.to_owned()
    } else {
        cleaned
    }
}

pub open spec fn normal_theme(theme: Seq<char>) -> Seq<char> {
    if theme == "dark"@ || theme == "system"@ {
        theme
    } else {
        "light"@
    }
}

pub open spec fn normal_ai_mode(mode: Seq<char>) -> Seq<char> {
    if mode == "manual"@ || mode == "auto"@ {
        mode
    } else {
        "off"@
    }
}

/// The settings name a service of their own: a key, a model or an address that is not the default.
pub open spec fn names_own_service(
    secret: Option<Seq<char>>,
    model: Seq<char>,
    base_url: Seq<char>,
) -> bool {
    ||| secret matches Some(reference) && !text::blank(reference)
    ||| !text::blank(model) && text::trimmed(model) != "gpt-5.6-luna"@
    ||| text::drop_tail_while(base_url, |c: char| c == '/') != "https://api.openai.com/v1"@
}

pub open spec fn normal_provider(
    provider: Seq<char>,
    secret: Option<Seq<char>>,
    model: Seq<char>,
    base_url: Seq<char>,
) -> Seq<char> {
    if provider == "codex-account"@ || provider == "openai-compatible"@ {
        provider
    } else if names_own_service(secret, model, base_url) {
        "openai-compatible"@
    } else {
        "codex-account"@
    }
}

pub open spec fn normal_model(provider: Seq<char>, model: Seq<char>) -> Seq<char> {
    if provider == "codex-account"@ && text::blank(model) {
        "gpt-5.6-luna"@
    } else {
        model
    }
}

/// The normal form of the settings.
pub open spec fn normal(settings: SettingsView) -> SettingsView {
    let provider = normal_provider(
        settings.ai_provider,
        settings.ai_secret_ref,
        settings.ai_model,
        settings.ai_base_url,
    );
    let mode = normal_ai_mode(settings.ai_mode);
    SettingsView {
        theme: normal_theme(settings.theme),
        poll_interval_seconds: clamped(settings.poll_interval_seconds, 1, 60),
        heartbeat_seconds: clamped(settings.heartbeat_seconds, 5, 60),
        raw_event_retention_days: clamped(settings.raw_event_retention_days, 7, 3650),
        idle_threshold_seconds: clamped(settings.idle_threshold_seconds, 30, 3600),
        idle_category: setting_label(settings.idle_category, "无效"@),
        idle_project_name: setting_label(settings.idle_project_name, "离开"@),
        min_ai_session_minutes: clamped(settings.min_ai_session_minutes, 1, 240),
        ai_mode: mode,
        ai_provider: provider,
        ai_model: normal_model(provider, settings.ai_model),
        capture_scope: "metadata-only"@,
        fps: score::ZERO,
        chunk_minutes: 0,
        analysis_timing: if mode == "off"@ {
            "local-only"@
        } else {
            "local-first"@
        },
        temp_storage_limit_gb: 1,
        ..settings
    }
}

/// The settings of a new installation.
pub open spec fn initial() -> SettingsView {
    SettingsView {
        language: "zh-CN"@,
        theme: "light"@,
        poll_interval_seconds: 1,
        heartbeat_seconds: 5,
        raw_event_retention_days: 30,
        idle_threshold_seconds: 180,
        idle_category: "无效"@,
        idle_project_name: "离开"@,
        passive_content_counts_as_active: true,
        auto_maintenance: true,
        auto_start: true,
        launch_at_login: false,
        quick_pause_enabled: true,
        ai_mode: "off"@,
        ai_provider: Seq::empty(),
        min_ai_session_minutes: 1,
        ai_base_url: "https://api.openai.com/v1"@,
        ai_model: Seq::empty(),
        ai_secret_ref: None,
        backup_dir: None,
        capture_scope: "metadata-only"@,
        fps: score::ZERO,
        chunk_minutes: 0,
        analysis_timing: "local-only"@,
        temp_storage_limit_gb: 1,
    }
}

impl Default for AppSettings {
    fn default() -> (result: Self)
        ensures
            result@ == initial(),
    {
        AppSettings {
            language: "zh-CN".to_owned(),
            theme: "light".to_owned(),
            poll_interval_seconds: 1,
            heartbeat_seconds: 5,
            raw_event_retention_days: 30,
            idle_threshold_seconds: 180,
            idle_category: "无效".to_owned(),
            idle_project_name: "离开".to_owned(),
            passive_content_counts_as_active: true,
            auto_maintenance: true,
            auto_start: true,
            launch_at_login: false,
            quick_pause_enabled: true,
            ai_mode: "off".to_owned(),
            ai_provider: String::new(),
            min_ai_session_minutes: 1,
            ai_base_url: "https://api.openai.com/v1".to_owned(),
            ai_model: String::new(),
            ai_secret_ref: None,
            backup_dir: None,
            capture_scope: "metadata-only".to_owned(),
            fps: score::ZERO,
            chunk_minutes: 0,
            analysis_timing: "local-only".to_owned(),
            temp_storage_limit_gb: 1,
        }
    }
}

fn own_service(secret: &Option<String>, model: &str, base_url: &str) -> (result: bool)
    ensures
        result == names_own_service(text::optional(*secret), model@, base_url@),
{
    let has_secret = match secret {
        Some(reference) => !text::is_blank(reference.as_str()),
        None => false,
    };
    let trimmed = text::trim(model);
    let address = text::trim_end_char(base_url, '/');
    has_secret || (!trimmed.as_str().is_empty() && !text::same(trimmed.as_str(), "gpt-5.6-luna"))
        || !text::same(address.as_str(), "https://api.openai.com/v1")
}

impl AppSettings {
    /// Brings every field into its range.
    pub fn normalized(self) -> (result: Self)
        ensures
            result@ == normal(self@),
    {
        let theme = if text::same(self.theme.as_str(), "dark") {
            "dark".to_owned()
        } else if text::same(self.theme.as_str(), "system") {
            "system".to_owned()
        } else {
            "light".to_owned()
        };
        let ai_mode = if text::same(self.ai_mode.as_str(), "manual") {
            "manual".to_owned()
        } else if text::same(self.ai_mode.as_str(), "auto") {
            "auto".to_owned()
        } else {
            "off".to_owned()
        };
        let ai_provider = if text::same(self.ai_provider.as_str(), "codex-account") {
            "codex-account".to_owned()
        } else if text::same(self.ai_provider.as_str(), "openai-compatible") {
            "openai-compatible".to_owned()
        } else if own_service(
            &self.ai_secret_ref,
            self.ai_model.as_str(),
            self.ai_base_url.as_str(),
        ) {
            "openai-compatible".to_owned()
        } else {
            "codex-account".to_owned()
        };
        let ai_model = if text::same(ai_provider.as_str(), "codex-account") && text::is_blank(
            self.ai_model.as_str(),
        ) {
            "gpt-5.6-luna".to_owned()
        } else {
            self.ai_model
        };
        let analysis_timing = if text::same(ai_mode.as_str(), "off") {
            "local-only".to_owned()
        } else {
            "local-first".to_owned()
        };
        AppSettings {
            language: self.language,
            theme,
            poll_interval_seconds: clamp(self.poll_interval_seconds, 1, 60),
            heartbeat_seconds: clamp(self.heartbeat_seconds, 5, 60),
            raw_event_retention_days: clamp(self.raw_event_retention_days, 7, 3650),
            idle_threshold_seconds: clamp(self.idle_threshold_seconds, 30, 3600),
            idle_category: clean_setting_label(self.idle_category.as_str(), "无效"),
            idle_project_name: clean_setting_label(self.idle_project_name.as_str(), "离开"),
            passive_content_counts_as_active: self.passive_content_counts_as_active,
            auto_maintenance: self.auto_maintenance,
            auto_start: self.auto_start,
            launch_at_login: self.launch_at_login,
            quick_pause_enabled: self.quick_pause_enabled,
            ai_mode,
            ai_provider,
            min_ai_session_minutes: clamp(self.min_ai_session_minutes, 1, 240),
            ai_base_url: self.ai_base_url,
            ai_model,
            ai_secret_ref: self.ai_secret_ref,
            backup_dir: self.backup_dir,
            capture_scope: "metadata-only".to_owned(),
            fps: score::ZERO,
            chunk_minutes: 0,
            analysis_timing,
            temp_storage_limit_gb: 1,
        }
    }
}

/// The label keeps its end when it is cut to 80 characters: it is short enough, or its 80th
/// character is no white space.
pub open spec fn cut_is_clean(value: Seq<char>) -> bool {
    let line = text::one_line(text::trimmed(value));
    line.len() > 80 ==> !text::white(line[79])
}

/// A text that begins and ends without white space is its own trimmed form.
proof fn lemma_trimmed_fixpoint(s: Seq<char>)
    requires
        s.len() > 0 ==> !text::white(s[0]) && !text::white(s.last()),
    ensures
        text::trimmed(s) == s,
{
}

/// Cleaning a clean label changes nothing.
proof fn lemma_label_stable(value: Seq<char>, fallback: Seq<char>)
    requires
        cut_is_clean(value),
        setting_label(fallback, fallback) == fallback,
    ensures
        setting_label(setting_label(value, fallback), fallback) == setting_label(value, fallback),
{
    let trimmed = text::trimmed(value);
    let line = text::one_line(trimmed);
    let cleaned = text::prefix_of(line, 80);
    text::lemma_trim_edges(value, |c: char| text::white(c));
    if cleaned.len() > 0 {
        assert(line[0] == text::unbroken(trimmed[0]));
        assert(line.last() == text::unbroken(trimmed.last()));
        lemma_trimmed_fixpoint(cleaned);
        assert(text::one_line(cleaned) =~= cleaned);
    }
}

/// Normalising settings that are normal already changes nothing, unless the cut of a label to 80
/// characters left white space at its end.
pub proof fn settings_normal_form_is_stable(settings: SettingsView)
    requires
        cut_is_clean(settings.idle_category),
        cut_is_clean(settings.idle_project_name),
    ensures
        normal(normal(settings)) == normal(settings),
{
    reveal_strlit("无效");
    reveal_strlit("离开");
    reveal_strlit("gpt-5.6-luna");
    lemma_trimmed_fixpoint("无效"@);
    lemma_trimmed_fixpoint("离开"@);
    lemma_trimmed_fixpoint("gpt-5.6-luna"@);
    assert(text::one_line("无效"@) =~= "无效"@);
    assert(text::one_line("离开"@) =~= "离开"@);
    lemma_label_stable(settings.idle_category, "无效"@);
    lemma_label_stable(settings.idle_project_name, "离开"@);
    let once = normal(settings);
    let twice = normal(once);
    assert(twice.ai_model == once.ai_model);
    assert(twice =~= once);
}

/// In normal form the numbers lie in their ranges, the labels are neither empty nor longer than
/// 80 characters, and the choices are among those offered.
pub proof fn settings_normal_form_is_bounded(settings: SettingsView)
    ensures
        ({
            let n = normal(settings);
            &&& 1 <= n.poll_interval_seconds <= 60
            &&& 5 <= n.heartbeat_seconds <= 60
            &&& 7 <= n.raw_event_retention_days <= 3650
            &&& 30 <= n.idle_threshold_seconds <= 3600
            &&& 1 <= n.min_ai_session_minutes <= 240
            &&& 1 <= n.idle_category.len() <= 80
            &&& 1 <= n.idle_project_name.len() <= 80
            &&& n.theme == "light"@ || n.theme == "dark"@ || n.theme == "system"@
            &&& n.ai_mode == "off"@ || n.ai_mode == "manual"@ || n.ai_mode == "auto"@
            &&& n.ai_provider == "codex-account"@ || n.ai_provider == "openai-compatible"@
            &&& n.ai_provider == "codex-account"@ ==> !text::blank(n.ai_model)
        }),
{
    reveal_strlit("无效");
    reveal_strlit("离开");
    reveal_strlit("gpt-5.6-luna");
    lemma_trimmed_fixpoint("gpt-5.6-luna"@);
}

/// The settings as they are after they were read.
pub open spec fn on_load(stored: Option<SettingsView>, migrated: bool) -> SettingsView {
    let settings = match stored {
        Some(settings) => settings,
        None => initial(),
    };
    if migrated {
        settings
    } else {
        SettingsView { poll_interval_seconds: 1, heartbeat_seconds: 5, ..settings }
    }
}

/// The stored text still names the database of a tool that is no longer read.
pub open spec fn names_removed_tool(raw: Option<Seq<char>>) -> bool {
    match raw {
        Some(value) => text::occurs(value, "ddlManagerDbPath"@),
        None => false,
    }
}

/// What to do with settings that were read from the store.
#[derive(Debug, PartialEq, Eq)]
pub struct LoadedSettings {
    pub settings: AppSettings,
    /// Whether to store them again.
    pub save: bool,
    /// Whether to note that the sampling interval was migrated.
    pub mark: bool,
}

/// Completes settings that were read from the store. `raw` is the stored text, `stored` what it
/// holds where it can be read; `migrated` says whether the sampling interval was migrated before.
pub fn complete_settings(raw: &Option<String>, stored: Option<AppSettings>, migrated: bool) -> (result:
    LoadedSettings)
    ensures
        result.settings@ == on_load(
            match stored {
                Some(settings) => Some(settings@),
                None => None,
            },
            migrated,
        ),
        result.save == (!migrated || names_removed_tool(text::optional(*raw))),
        result.mark == !migrated,
{
    let removed = match raw {
        Some(value) => text::contains(value.as_str(), "ddlManagerDbPath"),
        None => false,
    };
    let mut settings = match stored {
        Some(settings) => settings,
        None => AppSettings::default(),
    };
    if !migrated {
        settings.poll_interval_seconds = 1;
        settings.heartbeat_seconds = 5;
    }
    LoadedSettings { settings, save: !migrated || removed, mark: !migrated }
}

/// Why the analysis service cannot be used.
#[derive(Clone, Copy, Debug, PartialEq, Eq, Structural)]
pub enum AiConfigError {
    Off,
    NoModel,
    NoSecret,
}

/// Whether the settings and the secret suffice for the analysis service. The secret is asked for
/// last.
pub open spec fn ai_config_problem(settings: SettingsView, secret: Seq<char>) -> Option<
    AiConfigError,
> {
    let used = normal(settings);
    if used.ai_mode == "off"@ {
        Some(AiConfigError::Off)
    } else if text::blank(used.ai_model) {
        Some(AiConfigError::NoModel)
    } else if text::blank(secret) {
        Some(AiConfigError::NoSecret)
    } else {
        None
    }
}

/// Checks whether the settings and the secret suffice for the analysis service.
pub fn check_ai_config(settings: AppSettings, secret: &str) -> (result: Result<
    AppSettings,
    AiConfigError,
>)
    ensures
        match result {
            Ok(used) => ai_config_problem(settings@, secret@) is None && used@ == normal(settings@),
            Err(error) => ai_config_problem(settings@, secret@) == Some(error),
        },
{
    let used = settings.normalized();
    if text::same(used.ai_mode.as_str(), "off") {
        Err(AiConfigError::Off)
    } else if text::is_blank(used.ai_model.as_str()) {
        Err(AiConfigError::NoModel)
    } else if text::is_blank(secret) {
        Err(AiConfigError::NoSecret)
    } else {
        Ok(used)
    }
}

/// How settings refer to a secret of the system's key store.
pub fn secret_reference(name: &str) -> (result: String)
    ensures
        result@ == "credential://ScreenUse/"@ + name@,
{
    text::joined("credential://ScreenUse/", name)
}

} // verus!
