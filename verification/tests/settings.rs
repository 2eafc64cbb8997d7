use screenuse::hotkeys::MANUAL_AWAY_SHORTCUT_LABEL;
use screenuse::models::AppSettings;
use screenuse::settings::{
    check_ai_config, clean_setting_label, complete_settings, secret_reference, AiConfigError,
};

#[test]
fn default_manual_away_shortcut_is_documented_consistently() {
    assert_eq!(MANUAL_AWAY_SHORTCUT_LABEL, "Ctrl+Alt+Enter");
}

#[test]
fn theme_defaults_and_normalizes_for_existing_settings() {
    let existing = AppSettings::default();
    assert_eq!(existing.theme, "light");
    assert_eq!(existing.poll_interval_seconds, 1);
    assert!(existing.passive_content_counts_as_active);
    let normalized_existing = existing.normalized();
    assert_eq!(normalized_existing.ai_provider, "codex-account");
    assert_eq!(normalized_existing.ai_model, "gpt-5.6-luna");
    assert_eq!(normalized_existing.min_ai_session_minutes, 1);

    let invalid = AppSettings {
        theme: "unknown".into(),
        ..AppSettings::default()
    };
    assert_eq!(invalid.normalized().theme, "light");

    let dark = AppSettings {
        theme: "dark".into(),
        ..AppSettings::default()
    };
    assert_eq!(dark.normalized().theme, "dark");

    let legacy = AppSettings {
        poll_interval_seconds: 2,
        heartbeat_seconds: 30,
        ..AppSettings::default()
    };
    let migrated = legacy.normalized();
    assert_eq!(migrated.poll_interval_seconds, 2);
    assert_eq!(migrated.heartbeat_seconds, 30);
}

#[test]
fn existing_sampling_settings_migrate_to_one_second_only_once() {
    let legacy = || AppSettings {
        poll_interval_seconds: 10,
        heartbeat_seconds: 10,
        ..AppSettings::default()
    };
    let migrated = complete_settings(&Some("{}".into()), Some(legacy()), false);
    assert_eq!(migrated.settings.poll_interval_seconds, 1);
    assert_eq!(migrated.settings.heartbeat_seconds, 5);
    assert!(migrated.save && migrated.mark);

    let chosen = AppSettings {
        poll_interval_seconds: 7,
        heartbeat_seconds: 7,
        ..AppSettings::default()
    };
    let preserved = complete_settings(&Some("{}".into()), Some(chosen), true);
    assert_eq!(preserved.settings.poll_interval_seconds, 7);
    assert_eq!(preserved.settings.heartbeat_seconds, 7);
    assert!(!preserved.save && !preserved.mark);
}

#[test]
fn settings_that_name_a_removed_tool_are_stored_again() {
    let raw = Some("{\"ddlManagerDbPath\":\"x\"}".to_string());
    let loaded = complete_settings(&raw, None, true);
    assert!(loaded.save);
    assert!(!loaded.mark);
    assert_eq!(loaded.settings, AppSettings::default());
}

#[test]
fn numbers_are_moved_into_their_ranges() {
    let wild = AppSettings {
        poll_interval_seconds: 0,
        heartbeat_seconds: 1000,
        raw_event_retention_days: 1,
        idle_threshold_seconds: 5,
        min_ai_session_minutes: 0,
        ..AppSettings::default()
    }
    .normalized();
    assert_eq!(wild.poll_interval_seconds, 1);
    assert_eq!(wild.heartbeat_seconds, 60);
    assert_eq!(wild.raw_event_retention_days, 7);
    assert_eq!(wild.idle_threshold_seconds, 30);
    assert_eq!(wild.min_ai_session_minutes, 1);
    let again = wild.copy().normalized();
    assert_eq!(again, wild);
}

#[test]
fn labels_are_trimmed_and_bounded() {
    assert_eq!(clean_setting_label("  休息 ", "无效"), "休息");
    assert_eq!(clean_setting_label("   ", "无效"), "无效");
    assert_eq!(clean_setting_label(&"长".repeat(200), "无效").chars().count(), 80);
}

#[test]
fn an_own_service_is_recognised() {
    let own = AppSettings {
        ai_base_url: "https://example.org/v1".into(),
        ..AppSettings::default()
    };
    assert_eq!(own.normalized().ai_provider, "openai-compatible");
}

#[test]
fn the_analysis_service_needs_a_mode_a_model_and_a_secret() {
    assert_eq!(
        check_ai_config(AppSettings::default(), "key"),
        Err(AiConfigError::Off)
    );
    let no_model = AppSettings {
        ai_mode: "manual".into(),
        ai_provider: "openai-compatible".into(),
        ai_model: " ".into(),
        ..AppSettings::default()
    };
    assert_eq!(check_ai_config(no_model, "key"), Err(AiConfigError::NoModel));
    let ready = || AppSettings {
        ai_mode: "auto".into(),
        ..AppSettings::default()
    };
    assert_eq!(check_ai_config(ready(), " "), Err(AiConfigError::NoSecret));
    assert!(check_ai_config(ready(), "key").is_ok());
    assert_eq!(secret_reference("openai"), "credential://ScreenUse/openai");
}
