use screenuse::clock::Moment;
use screenuse::envelope::{
    decode_content, decode_key, encode_content, generate_encryption_key, key_text, open_envelope,
    seal_packed, seal_snapshot, seal_with, ContentError, EncryptedEnvelope, KeyError, OpenError,
    SealError,
};
use screenuse::ids::new_id;
use screenuse::json::JsonValue;
use screenuse::ledger::{apply_sync_snapshot, export_sync_snapshot, ApplyError, Ledger};
use screenuse::models::{AttributionRule, GithubSyncConfig, Project, SyncDeviceInfo, Task, WorkSession};
use screenuse::remote::{
    concise_github_error, content_segments, disconnected, is_conflict, is_ready, judge_missing_repository,
    judge_repository, judge_upload, may_create, next_step, note_failure, note_success,
    prepare_again, prepare_upload, report, secret_exists, sync_due, validate_config, ConfigError,
    NextStep, RemoteSnapshot, RepositoryInfo, RepositoryVerdict, Upload,
};
use screenuse::sync::{
    merge_latest, merge_snapshots, upsert_device, SnapshotError, SyncCategory, SyncRule,
    SyncSession, SyncSnapshot, SyncTombstone, SNAPSHOT_SCHEMA,
};

const NOW: &str = "2026-02-01T00:00:00.000Z";

fn category(name: &str, color: &str, at: &str) -> SyncCategory {
    SyncCategory {
        name: name.into(),
        color: color.into(),
        is_builtin: true,
        created_at: "2026-01-01T00:00:00.000Z".into(),
        updated_at: at.into(),
    }
}

fn project(id: &str, name: &str, category: &str, at: &str) -> Project {
    Project {
        id: id.into(),
        name: name.into(),
        category: category.into(),
        source: "manual".into(),
        color: "#aaa".into(),
        description: None,
        created_at: "2026-01-01T00:00:00.000Z".into(),
        updated_at: at.into(),
    }
}

fn task(id: &str, project: &str, title: &str, at: &str) -> Task {
    Task {
        id: id.into(),
        project_id: project.into(),
        title: title.into(),
        status: "active".into(),
        source: "manual".into(),
        planned_due_at: None,
        created_at: "2026-01-01T00:00:00.000Z".into(),
        updated_at: at.into(),
    }
}

fn session(id: &str, project: Option<&str>, task: Option<&str>, category: &str, at: &str) -> SyncSession {
    SyncSession {
        session: WorkSession {
            id: id.into(),
            started_at: "2026-01-01T08:00:00Z".into(),
            ended_at: "2026-01-01T09:00:00Z".into(),
            project_id: project.map(|value| value.to_string()),
            project_name: None,
            task_id: task.map(|value| value.to_string()),
            task_title: None,
            category: category.into(),
            summary: "s".into(),
            confidence: 0x3F000000,
            evidence: vec![],
            user_confirmed: true,
            source: "manual-correction".into(),
        },
        updated_at: at.into(),
    }
}

fn rule(id: &str, project: Option<&str>, at: &str) -> SyncRule {
    SyncRule {
        rule: AttributionRule {
            id: id.into(),
            name: "r".into(),
            priority: 90,
            matcher: JsonValue::Object(vec![]),
            project_id: project.map(|value| value.to_string()),
            task_id: None,
            category: "杂务".into(),
            created_from_correction: true,
            enabled: true,
        },
        updated_at: at.into(),
    }
}

fn tombstone(kind: &str, id: &str, at: &str) -> SyncTombstone {
    SyncTombstone {
        entity_kind: kind.into(),
        entity_id: id.into(),
        deleted_at: at.into(),
        device_id: "device-a".into(),
    }
}

fn empty_snapshot(device: &str) -> SyncSnapshot {
    SyncSnapshot {
        schema_version: SNAPSHOT_SCHEMA,
        generated_at: "2026-01-01T00:00:00.000Z".into(),
        generated_by: device.into(),
        categories: vec![category("杂务", "#facc15", "2026-01-01T00:00:00.000Z")],
        projects: vec![],
        tasks: vec![],
        sessions: vec![],
        rules: vec![],
        tombstones: vec![],
        devices: vec![],
        sleep_debt_started_on: None,
    }
}

fn config() -> GithubSyncConfig {
    let mut config = GithubSyncConfig::initial("Laptop").normalized("Laptop");
    config.owner = "octo".into();
    config.repo = "ledger".into();
    config
}

fn ledger() -> Ledger {
    Ledger {
        categories: vec![category("杂务", "#facc15", "2026-01-01T00:00:00.000Z")],
        projects: vec![],
        tasks: vec![],
        sessions: vec![],
        rules: vec![],
        tombstones: vec![],
        sleep_debt_started_on: None,
    }
}

#[test]
fn encrypted_snapshot_round_trips_and_rejects_wrong_key() {
    let plain = "{\"generatedBy\":\"device-a\"}".as_bytes();
    let key = [7_u8; 32];
    let envelope = seal_snapshot(plain, &key).expect("encrypt");
    let opened = open_envelope(&envelope, &key).expect("decrypt");
    assert_eq!(opened, plain);
    assert_eq!(open_envelope(&envelope, &[8_u8; 32]), Err(OpenError::WrongKey));
    assert!(!envelope.ciphertext.contains("device-a"));
    assert!(!envelope.nonce.contains("device-a"));
}

#[test]
fn merge_prefers_newest_record_and_honors_tombstone() {
    let mut left = empty_snapshot("device-a");
    left.projects.push(project("p1", "old", "杂务", "2026-01-02T00:00:00.000Z"));
    let mut right = empty_snapshot("device-b");
    right.projects.push(project("p1", "new", "杂务", "2026-01-03T00:00:00.000Z"));
    let merged = merge_snapshots(left, right, NOW.into()).expect("merge newest");
    assert_eq!(merged.projects[0].name, "new");

    let mut left = empty_snapshot("device-a");
    left.projects.push(project("p1", "old", "杂务", "2026-01-02T00:00:00.000Z"));
    left.tombstones.push(tombstone("project", "p1", "2026-01-04T00:00:00.000Z"));
    let merged = merge_snapshots(left, merged, NOW.into()).expect("merge deletion");
    assert!(merged.projects.is_empty());
    assert_eq!(merged.generated_at, NOW);
}

#[test]
fn builtin_category_tombstone_is_honored_with_a_valid_fallback() {
    let mut left = empty_snapshot("device-a");
    left.categories.push(category("开发", "#60a5fa", "2026-01-01T00:00:00.000Z"));
    left.projects.push(project("p-category", "旧分类项目", "杂务", "2026-01-02T00:00:00.000Z"));
    let mut right = empty_snapshot("device-b");
    right.tombstones.push(tombstone("category", "杂务", "2026-01-03T00:00:00.000Z"));

    let merged = merge_snapshots(left, right, NOW.into()).expect("merge builtin category deletion");
    assert!(!merged.categories.iter().any(|item| item.name == "杂务"));
    assert_eq!(merged.projects[0].category, "开发");
}

#[test]
fn merging_refuses_other_schemas_and_needs_a_category() {
    let mut other = empty_snapshot("device-b");
    other.schema_version = SNAPSHOT_SCHEMA + 1;
    assert_eq!(
        merge_snapshots(empty_snapshot("device-a"), other, NOW.into()),
        Err(SnapshotError::Incompatible)
    );
    let mut left = empty_snapshot("device-a");
    left.tombstones.push(tombstone("category", "杂务", "2026-01-03T00:00:00.000Z"));
    assert_eq!(
        merge_snapshots(left, empty_snapshot("device-b"), NOW.into()),
        Err(SnapshotError::NoCategory)
    );
}

#[test]
fn merged_references_point_at_what_is_there() {
    let mut left = empty_snapshot("device-a");
    left.projects.push(project("p1", "a", "杂务", "2026-01-02T00:00:00.000Z"));
    left.tasks.push(task("t1", "p1", "x", "2026-01-02T00:00:00.000Z"));
    left.tasks.push(task("t2", "gone", "y", "2026-01-02T00:00:00.000Z"));
    left.sessions.push(session("s1", Some("p1"), Some("t1"), "杂务", "2026-01-02T00:00:00.000Z"));
    left.sessions.push(session("s2", Some("gone"), Some("t2"), "unknown", "2026-01-02T00:00:00.000Z"));
    left.rules.push(rule("r1", Some("gone"), "2026-01-02T00:00:00.000Z"));
    let mut right = empty_snapshot("device-b");
    right.tombstones.push(tombstone("task", "t1", "2026-01-05T00:00:00.000Z"));
    let merged = merge_snapshots(left, right, NOW.into()).expect("merge");
    assert!(merged.tasks.is_empty());
    assert_eq!(merged.sessions.len(), 2);
    for item in &merged.sessions {
        assert!(item.session.task_id.is_none());
        assert_eq!(item.session.category, "杂务");
    }
    assert_eq!(merged.sessions[0].session.project_id.as_deref(), Some("p1"));
    assert!(merged.sessions[1].session.project_id.is_none());
}

#[test]
fn merging_a_snapshot_with_itself_keeps_it() {
    let make = || {
        let mut snapshot = empty_snapshot("device-a");
        snapshot.projects.push(project("p1", "a", "杂务", "2026-01-02T00:00:00.000Z"));
        snapshot.tasks.push(task("t1", "p1", "x", "2026-01-02T00:00:00.000Z"));
        snapshot.sessions.push(session("s1", Some("p1"), Some("t1"), "杂务", "2026-01-02T00:00:00.000Z"));
        snapshot
    };
    let merged = merge_snapshots(make(), make(), "2026-01-01T00:00:00.000Z".into()).expect("merge");
    assert_eq!(merged, make());
}

#[test]
fn equal_times_keep_the_last_record() {
    let left = vec![project("p", "left", "c", "2026-01-02T00:00:00.000Z")];
    let right = vec![
        project("p", "right", "c", "2026-01-02T00:00:00.000Z"),
        project("q", "other", "c", "2026-01-01T00:00:00.000Z"),
    ];
    let merged = merge_latest(left, right);
    assert_eq!(merged.len(), 2);
    assert_eq!(merged[0].name, "right");
    assert_eq!(merged[1].id, "q");
}

#[test]
fn devices_are_kept_by_id_and_bounded() {
    let device = |id: &str, at: &str| SyncDeviceInfo {
        id: id.into(),
        name: "n".into(),
        last_seen_at: at.into(),
    };
    let mut devices = vec![];
    for index in 0..25 {
        upsert_device(&mut devices, device(&format!("d{index}"), &format!("2026-01-01T00:00:{:02}Z", index)));
    }
    assert_eq!(devices.len(), 20);
    upsert_device(&mut devices, device("d24", "2026-02-01T00:00:00Z"));
    assert_eq!(devices.len(), 20);
    assert_eq!(devices.iter().filter(|item| item.id == "d24").count(), 1);
    assert_eq!(
        devices.iter().find(|item| item.id == "d24").map(|item| item.last_seen_at.as_str()),
        Some("2026-02-01T00:00:00Z")
    );
}

#[test]
fn snapshots_are_written_and_deletions_hold() {
    let mut snapshot = empty_snapshot("device-b");
    snapshot.projects.push(project("p1", "a", "杂务", "2026-01-02T00:00:00.000Z"));
    snapshot.tasks.push(task("t1", "p1", "x", "2026-01-02T00:00:00.000Z"));
    snapshot.sessions.push(session("s1", Some("p1"), Some("t1"), "杂务", "2026-01-02T00:00:00.000Z"));
    let applied = apply_sync_snapshot(ledger(), snapshot).expect("apply");
    assert_eq!(applied.projects.len(), 1);
    assert_eq!(applied.sessions[0].session.task_id.as_deref(), Some("t1"));

    let mut deletion = empty_snapshot("device-b");
    deletion.tombstones.push(tombstone("project", "p1", "2026-01-09T00:00:00.000Z"));
    let after = apply_sync_snapshot(applied, deletion).expect("apply deletion");
    assert!(after.projects.is_empty());
    assert!(after.sessions[0].session.project_id.is_none());
}

#[test]
fn writing_refuses_references_to_nothing() {
    let mut snapshot = empty_snapshot("device-b");
    snapshot.tasks.push(task("t1", "missing", "x", "2026-01-02T00:00:00.000Z"));
    assert_eq!(
        apply_sync_snapshot(ledger(), snapshot),
        Err(ApplyError::MissingReference)
    );
}

#[test]
fn applying_snapshot_releases_database_lock_before_saving_devices() {
    let config = config();
    let snapshot = export_sync_snapshot(ledger(), vec![], &config, NOW);
    assert_eq!(snapshot.devices[0].id, config.device_id);
    assert_eq!(snapshot.generated_by, config.device_id);
    let before = ledger();
    let after = apply_sync_snapshot(before, snapshot).expect("apply snapshot");
    assert_eq!(after, ledger());
}

#[test]
fn counts_are_those_of_the_lists() {
    let mut snapshot = empty_snapshot("device-a");
    snapshot.rules.push(rule("r", None, "2026-01-02T00:00:00.000Z"));
    let counts = snapshot.counts();
    assert_eq!((counts.categories, counts.projects, counts.rules), (1, 0, 1));
}

#[test]
fn keys_are_thirty_two_bytes_in_base64() {
    let key = generate_encryption_key().expect("random");
    assert!(decode_key(&key).is_ok());
    assert_ne!(key, generate_encryption_key().expect("random"));
    assert_eq!(key.len(), 44);
    assert_eq!(key_text(None), None);
    let ones = key_text(Some(vec![255_u8; 32])).expect("text");
    assert_eq!(ones, "//////////////////////////////////////////8=");
    assert_eq!(decode_key(&ones), Ok([255_u8; 32]));
    assert_eq!(decode_key("not base64!"), Err(KeyError::NotBase64));
    assert_eq!(decode_key("AAAA"), Err(KeyError::WrongLength));
    let zeros = encode_content(&[0_u8; 32]);
    assert_eq!(zeros, "AAAAAAAAAAAAAAAAAAAAAAAAAAAAAAAAAAAAAAAAAAA=");
    assert_eq!(decode_key(&format!(" {zeros}\n")), Ok([0_u8; 32]));
}

#[test]
fn envelopes_that_cannot_be_opened_say_why() {
    let key = [1_u8; 32];
    let good = seal_snapshot(b"text", &key).expect("seal");
    let copy = |nonce: &str, ciphertext: &str, version: u32| EncryptedEnvelope {
        version,
        algorithm: good.algorithm.clone(),
        compression: good.compression.clone(),
        nonce: nonce.into(),
        ciphertext: ciphertext.into(),
    };
    assert_eq!(
        open_envelope(&copy(&good.nonce, &good.ciphertext, 9), &key),
        Err(OpenError::Unsupported)
    );
    assert_eq!(
        open_envelope(&copy("%", &good.ciphertext, good.version), &key),
        Err(OpenError::NonceNotBase64)
    );
    assert_eq!(
        open_envelope(&copy("AAAA", &good.ciphertext, good.version), &key),
        Err(OpenError::NonceLength)
    );
    assert_eq!(
        open_envelope(&copy(&good.nonce, "%", good.version), &key),
        Err(OpenError::CiphertextNotBase64)
    );
    let plain = seal_packed(b"not packed", &[0_u8; 12], &key).expect("encrypt");
    assert_eq!(open_envelope(&plain, &key), Err(OpenError::Corrupt));
    assert_eq!(plain.nonce, "AAAAAAAAAAAAAAAA");
}

#[test]
fn sealing_says_which_part_failed() {
    let key = [1_u8; 32];
    let nonce = vec![0_u8; 12];
    assert_eq!(seal_with(None, Some(nonce.clone()), &key), Err(SealError::Compression));
    assert_eq!(seal_with(None, None, &key), Err(SealError::Compression));
    assert_eq!(seal_with(Some(b"packed".to_vec()), None, &key), Err(SealError::Randomness));
    assert_eq!(
        seal_with(Some(b"packed".to_vec()), Some(nonce.clone()), &key),
        seal_packed(b"packed", &nonce, &key)
    );
    let envelope = seal_packed(b"packed", &nonce, &key).expect("seal");
    let cipher = decode_content("base64", &envelope.ciphertext).expect("decode");
    assert_eq!(cipher.len(), b"packed".len() + 16);
}

#[test]
fn file_content_is_read_from_wrapped_base64() {
    assert_eq!(decode_content("base64", "aGVs\nbG8=\n"), Ok(b"hello".to_vec()));
    assert_eq!(decode_content("utf-8", "hello"), Err(ContentError::UnsupportedEncoding));
    assert_eq!(decode_content("base64", "%"), Err(ContentError::NotBase64));
    assert_eq!(encode_content(b"hello"), "aGVsbG8=");
}

#[test]
fn new_ids_are_hyphenated_and_differ() {
    let id = new_id();
    assert_eq!(id.len(), 36);
    assert_eq!(id.matches('-').count(), 4);
    assert_eq!(id.as_bytes()[14], b'4');
    assert!(b"89ab".contains(&id.as_bytes()[19]));
    assert_ne!(id, new_id());
}

#[test]
fn configurations_are_checked() {
    let mut bad = config();
    assert_eq!(validate_config(&bad), Ok(()));
    bad.owner = "".into();
    assert_eq!(validate_config(&bad), Err(ConfigError::EmptyOwner));
    bad = config();
    bad.owner = "a/b".into();
    assert_eq!(validate_config(&bad), Err(ConfigError::OwnerCharacters));
    bad = config();
    bad.repo = "a b".into();
    assert_eq!(validate_config(&bad), Err(ConfigError::RepoCharacters));
    bad = config();
    bad.file_path = "../x".into();
    assert_eq!(validate_config(&bad), Err(ConfigError::FilePath));
    let mut ready = config();
    ready.enabled = true;
    assert!(is_ready(&ready, true, true));
    assert!(!is_ready(&ready, false, true));
    assert!(!is_ready(&ready, true, false));
    ready.enabled = false;
    assert!(!is_ready(&ready, true, true));
    assert!(secret_exists(&Some("x".into())));
    assert!(!secret_exists(&None));
}

#[test]
fn normal_configurations_name_the_device() {
    let config = GithubSyncConfig::initial("").normalized("Laptop");
    assert!(!config.device_id.is_empty());
    assert!(!config.device_name.is_empty());
    assert_ne!(
        config.device_id,
        GithubSyncConfig::initial("").normalized("Laptop").device_id
    );
}

#[test]
fn repositories_must_be_private_and_on_the_branch() {
    let config = config();
    let info = |private: bool, branch: &str| RepositoryInfo {
        private,
        default_branch: branch.into(),
    };
    assert_eq!(judge_repository(&config, &info(true, &config.branch)), RepositoryVerdict::Ready);
    assert_eq!(judge_repository(&config, &info(false, &config.branch)), RepositoryVerdict::NotPrivate);
    assert_eq!(judge_repository(&config, &info(true, "other-branch")), RepositoryVerdict::OtherBranch);
    assert_eq!(judge_missing_repository(404), RepositoryVerdict::Create);
    assert_eq!(judge_missing_repository(403), RepositoryVerdict::Refused);
    assert!(may_create("Octo", "octo"));
    assert!(!may_create("else", "octo"));
    assert!(!content_segments(&config).is_empty());
}

#[test]
fn uploads_are_tried_once_more_on_a_conflict() {
    assert_eq!(judge_upload(201), Upload::Stored);
    assert_eq!(judge_upload(409), Upload::Conflict);
    assert_eq!(judge_upload(500), Upload::Failed);
    assert_eq!(next_step(Upload::Stored, true), NextStep::Finish);
    assert_eq!(next_step(Upload::Conflict, true), NextStep::TryAgain);
    assert_eq!(next_step(Upload::Conflict, false), NextStep::GiveUp);
    assert_eq!(next_step(Upload::Failed, true), NextStep::GiveUp);
    let config = config();
    let local = empty_snapshot("device-a");
    let mut theirs = empty_snapshot("device-b");
    theirs.projects.push(project("p1", "a", "杂务", "2026-01-02T00:00:00.000Z"));
    let first = prepare_upload(
        local,
        Some(RemoteSnapshot { snapshot: theirs, sha: "abc".into(), encrypted_bytes: 10 }),
        &config,
        NOW,
    )
    .expect("prepare");
    assert_eq!(first.previous_sha.as_deref(), Some("abc"));
    assert_eq!(first.snapshot.projects.len(), 1);
    assert_eq!(first.downloaded_bytes, 10);
    let again = prepare_again(
        first,
        RemoteSnapshot { snapshot: empty_snapshot("device-c"), sha: "def".into(), encrypted_bytes: 5 },
        NOW,
    )
    .expect("prepare again");
    assert_eq!(again.previous_sha.as_deref(), Some("def"));
    assert_eq!(again.downloaded_bytes, 15);
    let told = report(&again, 99, NOW.into(), "sha".into());
    assert_eq!(told.uploaded_bytes, 99);
    assert_eq!(told.downloaded_bytes, 15);
    assert_eq!(told.counts.projects, 1);
}

#[test]
fn outcomes_are_noted_in_the_configuration() {
    let done = note_success(config(), NOW, "sha");
    assert_eq!(done.last_synced_at.as_deref(), Some(NOW));
    assert_eq!(done.last_remote_sha.as_deref(), Some("sha"));
    assert!(done.last_error.is_none());
    let failed = note_failure(done, "offline");
    assert_eq!(failed.last_error.as_deref(), Some("offline"));
    let off = disconnected(failed);
    assert!(!off.enabled);
    assert!(off.last_error.is_none());
}

#[test]
fn synchronisation_is_due_behind_the_interval() {
    let mut config = config();
    config.last_synced_at = Some("1970-01-01T00:00:00Z".into());
    config.interval_minutes = 15;
    assert!(!sync_due(&config, Moment { seconds: 899, nanos: 0 }));
    assert!(sync_due(&config, Moment { seconds: 900, nanos: 0 }));
    config.last_synced_at = Some("never".into());
    assert!(sync_due(&config, Moment { seconds: 0, nanos: 0 }));
}

#[test]
fn errors_of_the_service_are_told_shortly() {
    assert_eq!(concise_github_error("{\"message\":\"Bad credentials\"}"), "Bad credentials");
    assert!(!concise_github_error("<html>").is_empty());
    assert!(is_conflict("GITHUB_CONFLICT: 409"));
    assert!(!is_conflict("HTTP 409 GITHUB_CONFLICT:"));
}

#[test]
fn sleep_is_counted_from_the_earlier_valid_day() {
    let start = |old: Option<&str>, new: Option<&str>| {
        let mut before = ledger();
        before.sleep_debt_started_on = old.map(|value| value.to_string());
        let mut snapshot = empty_snapshot("device-b");
        snapshot.sleep_debt_started_on = new.map(|value| value.to_string());
        apply_sync_snapshot(before, snapshot).expect("apply").sleep_debt_started_on
    };
    assert_eq!(start(None, Some("2026-07-21")).as_deref(), Some("2026-07-21"));
    assert_eq!(start(Some("2026-07-20"), Some("2026-07-21")).as_deref(), Some("2026-07-20"));
    assert_eq!(start(Some("2026-07-22"), Some("2026-07-21")).as_deref(), Some("2026-07-21"));
    assert_eq!(start(Some("2026-07-22"), Some("2026-02-30")).as_deref(), Some("2026-07-22"));
    assert_eq!(start(None, Some("soon")), None);
}

#[test]
fn both_orders_of_merging_keep_the_same_records() {
    let left = || vec![project("p", "old", "c", "2026-01-02T00:00:00.000Z"), project("q", "q", "c", "2026-01-01T00:00:00.000Z")];
    let right = || vec![project("p", "new", "c", "2026-01-03T00:00:00.000Z"), project("r", "r", "c", "2026-01-01T00:00:00.000Z")];
    let names = |list: Vec<Project>| {
        let mut names: Vec<String> = list.into_iter().map(|item| item.name).collect();
        names.sort();
        names
    };
    let one = names(merge_latest(left(), right()));
    assert_eq!(one, names(merge_latest(right(), left())));
    assert_eq!(one, vec!["new".to_string(), "q".to_string(), "r".to_string()]);
}

#[test]
fn devices_end_up_with_the_same_records() {
    let left = || {
        let mut snapshot = empty_snapshot("device-a");
        snapshot.categories.push(category("开发", "#60a5fa", "2026-01-01T00:00:00.000Z"));
        snapshot.projects.push(project("p1", "old", "开发", "2026-01-02T00:00:00.000Z"));
        snapshot.tasks.push(task("t1", "p1", "x", "2026-01-02T00:00:00.000Z"));
        snapshot.sessions.push(session("s1", Some("p1"), Some("t1"), "开发", "2026-01-02T00:00:00.000Z"));
        snapshot
    };
    let right = || {
        let mut snapshot = empty_snapshot("device-b");
        snapshot.projects.push(project("p1", "new", "杂务", "2026-01-03T00:00:00.000Z"));
        snapshot.tombstones.push(tombstone("category", "开发", "2026-01-05T00:00:00.000Z"));
        snapshot.rules.push(rule("r1", Some("p1"), "2026-01-02T00:00:00.000Z"));
        snapshot
    };
    let mut one = merge_snapshots(left(), right(), NOW.into()).expect("merge");
    let mut two = merge_snapshots(right(), left(), NOW.into()).expect("merge");
    one.generated_by = "x".into();
    two.generated_by = "x".into();
    assert_eq!(one, two);
    assert_eq!(one.projects[0].name, "new");
    assert_eq!(one.sessions[0].session.category, "杂务");
}

#[test]
fn writing_refuses_to_delete_the_last_category() {
    let mut snapshot = empty_snapshot("device-b");
    snapshot.tombstones.push(tombstone("category", "杂务", "2026-01-09T00:00:00.000Z"));
    assert_eq!(apply_sync_snapshot(ledger(), snapshot), Err(ApplyError::NoCategory));
}
