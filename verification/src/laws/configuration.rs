//! Promises of the settings and of the connection to the remote side.
use vstd::prelude::*;

use crate::clock;
use crate::clock::Moment;
use crate::json::JsonView;
use crate::lists;
use crate::models::{SettingsView, SyncConfigView, SyncDeviceInfo, SyncDeviceView};
use crate::remote;
use crate::remote::{RemoteView, RepositoryVerdict};
use crate::settings;
use crate::settings::AiConfigError;
use crate::sync;
use crate::sync::SnapshotView;
use crate::text;

verus! {

broadcast use vstd::seq_lib::group_seq_properties;

/// The number is the given one where that lies in the range, and the nearer end otherwise.
pub open spec fn is_nearest(value: u32, low: u32, high: u32, result: u32) -> bool {
    &&& low <= value <= high ==> result == value
    &&& value < low ==> result == low
    &&& high < value ==> result == high
}

/// Every number of the settings is moved into its range, and no further.
pub proof fn settings_are_moved_into_their_ranges(given: SettingsView)
    ensures
        ({
            let used = settings::normal(given);
            &&& is_nearest(given.poll_interval_seconds, 1, 60, used.poll_interval_seconds)
            &&& is_nearest(given.heartbeat_seconds, 5, 60, used.heartbeat_seconds)
            &&& is_nearest(
                given.raw_event_retention_days,
                7,
                3650,
                used.raw_event_retention_days,
            )
            &&& is_nearest(given.idle_threshold_seconds, 30, 3600, used.idle_threshold_seconds)
            &&& is_nearest(given.min_ai_session_minutes, 1, 240, used.min_ai_session_minutes)
        }),
{
}

/// What has no wrong values is left as it was given.
pub proof fn free_settings_are_kept(given: SettingsView)
    ensures
        ({
            let used = settings::normal(given);
            &&& used.language == given.language
            &&& used.passive_content_counts_as_active == given.passive_content_counts_as_active
            &&& used.auto_maintenance == given.auto_maintenance
            &&& used.auto_start == given.auto_start
            &&& used.launch_at_login == given.launch_at_login
            &&& used.quick_pause_enabled == given.quick_pause_enabled
            &&& used.ai_base_url == given.ai_base_url
            &&& used.ai_secret_ref == given.ai_secret_ref
            &&& used.backup_dir == given.backup_dir
        }),
{
}

/// A choice that is offered is kept; another becomes the default. The service is off unless it was
/// switched on, and nothing but metadata is ever recorded.
pub proof fn offered_choices_are_kept(given: SettingsView)
    ensures
        ({
            let used = settings::normal(given);
            &&& given.theme == "dark"@ || given.theme == "system"@ ==> used.theme == given.theme
            &&& given.theme != "dark"@ && given.theme != "system"@ ==> used.theme == "light"@
            &&& given.ai_mode == "manual"@ || given.ai_mode == "auto"@ ==> used.ai_mode
                == given.ai_mode && used.analysis_timing == "local-first"@
            &&& given.ai_mode != "manual"@ && given.ai_mode != "auto"@ ==> used.ai_mode
                == "off"@ && used.analysis_timing == "local-only"@
            &&& given.ai_provider == "codex-account"@ || given.ai_provider
                == "openai-compatible"@ ==> used.ai_provider == given.ai_provider
            &&& used.ai_provider == "codex-account"@ || used.ai_provider == "openai-compatible"@
            &&& used.capture_scope == "metadata-only"@
            &&& used.fps == 0
            &&& used.chunk_minutes == 0
            &&& text::trimmed(given.ai_model).len() > 0 ==> used.ai_model == given.ai_model
            &&& used.ai_provider == "codex-account"@ && text::trimmed(given.ai_model).len() == 0
                ==> used.ai_model == "gpt-5.6-luna"@
            &&& used.ai_provider != "codex-account"@ ==> used.ai_model == given.ai_model
        }),
{
    reveal_strlit("manual");
    reveal_strlit("auto");
    reveal_strlit("off");
    assert("manual"@.len() == 6 && "auto"@.len() == 4 && "off"@.len() == 3);
}

/// Settings without a provider belong to a service of one's own where they name a secret, another
/// model or another address.
pub proof fn old_settings_keep_their_service(given: SettingsView)
    requires
        given.ai_provider != "codex-account"@,
        given.ai_provider != "openai-compatible"@,
    ensures
        given.ai_secret_ref is Some && text::trimmed(given.ai_secret_ref.unwrap()).len() > 0
            ==> settings::normal(given).ai_provider == "openai-compatible"@,
        text::trimmed(given.ai_model).len() > 0 && text::trimmed(given.ai_model)
            != "gpt-5.6-luna"@ ==> settings::normal(given).ai_provider == "openai-compatible"@,
        given.ai_secret_ref is None && text::trimmed(given.ai_model).len() == 0
            && text::drop_tail_while(given.ai_base_url, |c: char| c == '/')
            == "https://api.openai.com/v1"@ ==> settings::normal(given).ai_provider
            == "codex-account"@,
{
}

/// A label is what was given, trimmed and on one line, as far as eighty characters; where nothing is
/// left it is the usual one.
pub proof fn labels_are_kept_where_they_say_something(value: Seq<char>, fallback: Seq<char>)
    ensures
        ({
            let label = settings::setting_label(value, fallback);
            let given = text::trimmed(value);
            &&& given.len() == 0 ==> label == fallback
            &&& given.len() > 0 ==> label.len() == if given.len() <= 80 {
                given.len()
            } else {
                80
            }
            &&& given.len() > 0 ==> forall|i: int|
                0 <= i < label.len() ==> #[trigger] label[i] == if given[i] == '\r' || given[i]
                    == '\n' || given[i] == '\t' {
                    ' '
                } else {
                    given[i]
                }
        }),
{
}

/// The service can be asked exactly where it is on, a model is named and a secret is there; the first
/// of these that is missing is told.
pub proof fn services_are_asked_when_complete(given: SettingsView, secret: Seq<char>)
    ensures
        ({
            let used = settings::normal(given);
            let problem = settings::ai_config_problem(given, secret);
            let on = given.ai_mode == "manual"@ || given.ai_mode == "auto"@;
            let named = text::trimmed(used.ai_model).len() > 0;
            let known = text::trimmed(secret).len() > 0;
            &&& problem is None <==> on && named && known
            &&& problem == Some(AiConfigError::Off) <==> !on
            &&& problem == Some(AiConfigError::NoModel) <==> on && !named
            &&& problem == Some(AiConfigError::NoSecret) <==> on && named && !known
        }),
{
    offered_choices_are_kept(given);
    reveal_strlit("manual");
    reveal_strlit("auto");
    reveal_strlit("off");
    assert("manual"@.len() == 6 && "auto"@.len() == 4 && "off"@.len() == 3);
}

/// The interval is moved between five minutes and a day. What is missing is filled in; a device that
/// has an id keeps it, and what was last synchronised is kept.
pub proof fn connections_are_completed(
    given: SyncConfigView,
    host_name: Seq<char>,
    fresh_id: Seq<char>,
)
    ensures
        ({
            let used = remote::normal_config(given, host_name, fresh_id);
            &&& is_nearest(given.interval_minutes, 5, 1_440, used.interval_minutes)
            &&& used.owner.len() <= 80
            &&& text::trimmed(given.device_id).len() > 0 ==> used.device_id == given.device_id
            &&& text::trimmed(given.device_id).len() == 0 ==> used.device_id == fresh_id
            &&& text::trimmed(given.branch).len() == 0 ==> used.branch == "main"@
            &&& 0 < text::trimmed(given.branch).len() <= 100 ==> used.branch == text::trimmed(
                given.branch,
            )
            &&& text::trimmed(given.device_name).len() == 0 ==> used.device_name == host_name
            &&& 0 < text::trimmed(given.device_name).len() <= 80 ==> used.device_name
                == text::trimmed(given.device_name)
            &&& text::trimmed(given.repo).len() == 0 ==> used.repo == "ScreenUse-Data"@
            &&& 0 < text::trimmed(given.repo).len() <= 100 && !text::has_suffix(
                text::trimmed(given.repo),
                ".git"@,
            ) ==> used.repo == text::trimmed(given.repo)
            &&& text::trimmed(given.file_path).len() == 0 ==> used.file_path
                == "screenuse/snapshot-v1.json.gz.enc"@
            &&& 0 < text::trimmed(given.file_path).len() <= 180 && text::trimmed(
                given.file_path,
            )[0] != '/' ==> used.file_path == text::trimmed(given.file_path)
            &&& 0 < text::trimmed(given.owner).len() <= 80 && text::trimmed(given.owner)[0] != '@'
                ==> used.owner == text::trimmed(given.owner)
            &&& used.enabled == given.enabled && used.auto_sync == given.auto_sync
                && used.last_synced_at == given.last_synced_at && used.last_remote_sha
                == given.last_remote_sha && used.last_error == given.last_error
        }),
{
    reveal_strlit(".git");
}

/// A connection is refused for the first thing that is wrong with it: no owner, other characters than
/// letters, digits, `-`, `_` and `.` in the owner or the repository, or a file path that leaves its
/// place. Otherwise it is accepted.
pub proof fn connections_are_refused_for_a_reason(given: SyncConfigView)
    ensures
        given.owner.len() == 0 ==> remote::config_fault(given) is Some,
        remote::config_fault(given) is None ==> given.owner.len() > 0 && !text::occurs(
            given.file_path,
            ".."@,
        ) && (given.file_path.len() > 0 ==> given.file_path[0] != '/') && forall|i: int|
            0 <= i < given.owner.len() ==> is_plain(#[trigger] given.owner[i]),
        remote::config_fault(given) is None ==> forall|i: int|
            0 <= i < given.repo.len() ==> is_plain(#[trigger] given.repo[i]),
        given.owner.len() > 0 && (forall|i: int|
            0 <= i < given.owner.len() ==> is_plain(#[trigger] given.owner[i])) && (forall|i: int|
            0 <= i < given.repo.len() ==> is_plain(#[trigger] given.repo[i])) && !text::occurs(
            given.file_path,
            ".."@,
        ) && (given.file_path.len() > 0 ==> given.file_path[0] != '/') ==> remote::config_fault(
            given,
        ) is None,
{
    reveal_strlit("/");
    if given.file_path.len() > 0 {
        assert(given.file_path.take(1)[0] == given.file_path[0]);
        if given.file_path[0] == '/' {
            assert(given.file_path.take(1) =~= "/"@);
            assert(text::has_prefix(given.file_path, "/"@));
        }
    }
    if remote::config_fault(given) is None {
        assert forall|i: int| 0 <= i < given.owner.len() implies is_plain(
            #[trigger] given.owner[i],
        ) by {
            assert(remote::name_char(given.owner[i]));
        }
        assert forall|i: int| 0 <= i < given.repo.len() implies is_plain(
            #[trigger] given.repo[i],
        ) by {
            assert(remote::name_char(given.repo[i]));
        }
    }
    if forall|i: int| 0 <= i < given.owner.len() ==> is_plain(#[trigger] given.owner[i]) {
        assert forall|i: int| 0 <= i < given.owner.len() implies remote::name_char(
            #[trigger] given.owner[i],
        ) by {
            assert(is_plain(given.owner[i]));
        }
    }
    if forall|i: int| 0 <= i < given.repo.len() ==> is_plain(#[trigger] given.repo[i]) {
        assert forall|i: int| 0 <= i < given.repo.len() implies remote::name_char(
            #[trigger] given.repo[i],
        ) by {
            assert(is_plain(given.repo[i]));
        }
    }
}

/// A letter, a digit, or one of `-`, `_` and `.`.
pub open spec fn is_plain(c: char) -> bool {
    ||| 'a' <= c && c <= 'z'
    ||| 'A' <= c && c <= 'Z'
    ||| '0' <= c && c <= '9'
    ||| c == '-'
    ||| c == '_'
    ||| c == '.'
}

/// It is time to synchronise where that was never done, where it is unknown when, and from the
/// interval after the last time on.
pub proof fn synchronising_is_due_after_the_interval(config: SyncConfigView, now: Moment)
    ensures
        config.last_synced_at is None ==> remote::due(config, now),
        config.last_synced_at matches Some(at) ==> {
            &&& clock::moment_of(at) is None ==> remote::due(config, now)
            &&& clock::moment_of(at) matches Some(last) ==> {
                last.nanos < 1_000_000_000 && last.seconds + 60 * config.interval_minutes
                    <= i64::MAX ==> {
                    &&& now.seconds > last.seconds + 60 * config.interval_minutes ==> remote::due(
                        config,
                        now,
                    )
                    &&& now.seconds < last.seconds + 60 * config.interval_minutes
                        ==> !remote::due(config, now)
                    &&& now.seconds == last.seconds + 60 * config.interval_minutes ==> (
                    remote::due(config, now) <==> now.nanos >= last.nanos)
                }
            }
        },
{
}

/// What is uploaded is signed: it names this device and the time, holds what is here where there is
/// no remote snapshot, and the merger of both otherwise, in place of the snapshot that was found.
pub proof fn uploads_are_signed(
    local: SnapshotView,
    found: Option<RemoteView>,
    config: SyncConfigView,
    now: Seq<char>,
)
    ensures
        remote::prepared(local, found, config, now) matches Ok(ready) ==> {
            &&& ready.snapshot.generated_at == now
            &&& ready.snapshot.generated_by == config.device_id
            &&& found is None ==> ready.previous_sha is None && ready.downloaded_bytes == 0
                && holds_the_same(local, ready.snapshot)
            &&& found matches Some(there) ==> {
                &&& ready.previous_sha == Some(there.sha)
                &&& ready.downloaded_bytes == there.encrypted_bytes
                &&& sync::merged(local, there.snapshot, now) matches Ok(both) && holds_the_same(
                    both,
                    ready.snapshot,
                )
            }
        },
        found is None ==> remote::prepared(local, found, config, now) is Ok,
        found matches Some(there) ==> (remote::prepared(local, found, config, now) is Ok
            <==> sync::merged(local, there.snapshot, now) is Ok),
{
}

/// The records of both snapshots are the same.
pub open spec fn holds_the_same(left: SnapshotView, right: SnapshotView) -> bool {
    &&& right.schema_version == left.schema_version
    &&& right.categories == left.categories
    &&& right.projects == left.projects
    &&& right.tasks == left.tasks
    &&& right.sessions == left.sessions
    &&& right.rules == left.rules
    &&& right.tombstones == left.tombstones
    &&& right.sleep_debt_started_on == left.sleep_debt_started_on
}

proof fn lemma_seen_in(sorted: Seq<SyncDeviceView>, device: SyncDeviceView)
    ensures
        forall|other: SyncDeviceView| #[trigger]
            sync::insert_by_sight(sorted, device).contains(other) <==> sorted.contains(other)
                || other == device,
        sync::insert_by_sight(sorted, device).len() == sorted.len() + 1,
    decreases sorted.len(),
{
    let after = sync::insert_by_sight(sorted, device);
    if sorted.len() == 0 || !text::precedes(sorted.last().last_seen_at, device.last_seen_at) {
        assert forall|other: SyncDeviceView| #[trigger]
            after.contains(other) <==> sorted.contains(other) || other == device by {
            if sorted.contains(other) {
                let k = choose|k: int| 0 <= k < sorted.len() && sorted[k] == other;
                assert(after[k] == other);
            }
            assert(after[sorted.len() as int] == device);
        }
    } else {
        let rest = sorted.drop_last();
        lemma_seen_in(rest, device);
        let before = sync::insert_by_sight(rest, device);
        assert forall|other: SyncDeviceView| #[trigger]
            after.contains(other) <==> sorted.contains(other) || other == device by {
            if sorted.contains(other) || other == device {
                if sorted.contains(other) {
                    let k = choose|k: int| 0 <= k < sorted.len() && sorted[k] == other;
                    if k < rest.len() {
                        assert(rest[k] == other);
                        assert(rest.contains(other));
                    } else {
                        assert(after[before.len() as int] == other);
                    }
                }
                if before.contains(other) {
                    let k = choose|k: int| 0 <= k < before.len() && before[k] == other;
                    assert(after[k] == other);
                }
            }
            if after.contains(other) {
                let k = choose|k: int| 0 <= k < after.len() && after[k] == other;
                if k < before.len() {
                    assert(before.contains(other));
                    if rest.contains(other) {
                        let m = choose|m: int| 0 <= m < rest.len() && rest[m] == other;
                        assert(sorted[m] == other);
                    }
                } else {
                    assert(sorted[sorted.len() - 1] == other);
                }
            }
        }
    }
}

/// No device is listed behind one that was seen earlier.
pub open spec fn is_by_sight(devices: Seq<SyncDeviceView>) -> bool {
    forall|i: int, j: int|
        0 <= i < j < devices.len() ==> !text::precedes(
            (#[trigger] devices[i]).last_seen_at,
            (#[trigger] devices[j]).last_seen_at,
        )
}

proof fn lemma_inserted_by_sight(sorted: Seq<SyncDeviceView>, device: SyncDeviceView)
    requires
        is_by_sight(sorted),
    ensures
        is_by_sight(sync::insert_by_sight(sorted, device)),
    decreases sorted.len(),
{
    let after = sync::insert_by_sight(sorted, device);
    if sorted.len() == 0 || !text::precedes(sorted.last().last_seen_at, device.last_seen_at) {
        assert forall|i: int, j: int| 0 <= i < j < after.len() implies !text::precedes(
            (#[trigger] after[i]).last_seen_at,
            (#[trigger] after[j]).last_seen_at,
        ) by {
            if j == sorted.len() && i < sorted.len() - 1 {
                let a = sorted[i].last_seen_at;
                let b = sorted[sorted.len() - 1].last_seen_at;
                assert(!text::precedes(a, b));
                text::lemma_precedes_total(a, b);
                if text::precedes(a, device.last_seen_at) && a != b {
                    text::lemma_precedes_transitive(b, a, device.last_seen_at);
                }
            } else if j < sorted.len() {
                assert(!text::precedes(sorted[i].last_seen_at, sorted[j].last_seen_at));
            }
        }
    } else {
        let rest = sorted.drop_last();
        let last = sorted.last();
        assert forall|i: int, j: int| 0 <= i < j < rest.len() implies !text::precedes(
            (#[trigger] rest[i]).last_seen_at,
            (#[trigger] rest[j]).last_seen_at,
        ) by {
            assert(!text::precedes(sorted[i].last_seen_at, sorted[j].last_seen_at));
        }
        lemma_inserted_by_sight(rest, device);
        lemma_seen_in(rest, device);
        let before = sync::insert_by_sight(rest, device);
        assert forall|i: int, j: int| 0 <= i < j < after.len() implies !text::precedes(
            (#[trigger] after[i]).last_seen_at,
            (#[trigger] after[j]).last_seen_at,
        ) by {
            if j == before.len() {
                assert(before.contains(before[i]));
                if rest.contains(before[i]) {
                    let k = choose|k: int| 0 <= k < rest.len() && rest[k] == before[i];
                    assert(!text::precedes(
                        sorted[k].last_seen_at,
                        sorted[sorted.len() - 1].last_seen_at,
                    ));
                } else {
                    text::lemma_precedes_total(last.last_seen_at, device.last_seen_at);
                }
            } else {
                assert(!text::precedes(before[i].last_seen_at, before[j].last_seen_at));
            }
        }
    }
}

/// The devices that are listed are at most twenty, the one seen last first, and none is made up. A
/// device that is noted and was not seen later already is listed where there is room.
pub proof fn devices_are_listed_by_sight(devices: Seq<SyncDeviceView>, device: SyncDeviceView)
    ensures
        sync::noted_device(devices, device).len() <= 20,
        is_by_sight(sync::noted_device(devices, device)),
        devices.len() < 20 && (forall|k: int|
            0 <= k < devices.len() && (#[trigger] devices[k]).id == device.id ==> !text::precedes(
                device.last_seen_at,
                devices[k].last_seen_at,
            )) ==> sync::noted_device(devices, device).contains(device),
{
    let placed = sync::placed::<SyncDeviceInfo>(devices, device);
    lemma_all_by_sight(placed);
    let sorted = sync::by_sight(placed);
    lemma_placed(devices, device);
    if sorted.len() > 20 {
        let cut = sorted.take(20);
        assert forall|i: int, j: int| 0 <= i < j < cut.len() implies !text::precedes(
            (#[trigger] cut[i]).last_seen_at,
            (#[trigger] cut[j]).last_seen_at,
        ) by {
            assert(!text::precedes(sorted[i].last_seen_at, sorted[j].last_seen_at));
        }
    }
}

proof fn lemma_all_by_sight(devices: Seq<SyncDeviceView>)
    ensures
        is_by_sight(sync::by_sight(devices)),
        sync::by_sight(devices).len() == devices.len(),
        forall|other: SyncDeviceView| #[trigger]
            sync::by_sight(devices).contains(other) <==> devices.contains(other),
    decreases devices.len(),
{
    if devices.len() > 0 {
        let rest = devices.drop_last();
        lemma_all_by_sight(rest);
        lemma_inserted_by_sight(sync::by_sight(rest), devices.last());
        lemma_seen_in(sync::by_sight(rest), devices.last());
        assert forall|other: SyncDeviceView| #[trigger]
            sync::by_sight(devices).contains(other) <==> devices.contains(other) by {
            if devices.contains(other) {
                let k = choose|k: int| 0 <= k < devices.len() && devices[k] == other;
                if k < rest.len() {
                    assert(rest[k] == other);
                    assert(rest.contains(other));
                }
            }
            if rest.contains(other) {
                let k = choose|k: int| 0 <= k < rest.len() && rest[k] == other;
                assert(devices[k] == other);
            }
            assert(devices[devices.len() - 1] == devices.last());
        }
    }
}

proof fn lemma_spot(devices: Seq<SyncDeviceView>, id: Seq<char>)
    ensures
        sync::spot::<SyncDeviceInfo>(devices, id) < devices.len() ==> devices[sync::spot::<
            SyncDeviceInfo,
        >(devices, id) as int].id == id,
    decreases devices.len(),
{
    if devices.len() > 0 && devices[0].id != id {
        lemma_spot(devices.drop_first(), id);
    }
}

proof fn lemma_placed(devices: Seq<SyncDeviceView>, device: SyncDeviceView)
    ensures
        (forall|k: int|
            0 <= k < devices.len() && (#[trigger] devices[k]).id == device.id ==> !text::precedes(
                device.last_seen_at,
                devices[k].last_seen_at,
            )) ==> sync::placed::<SyncDeviceInfo>(devices, device).contains(device),
        sync::placed::<SyncDeviceInfo>(devices, device).len() <= devices.len() + 1,
{
    let placed = sync::placed::<SyncDeviceInfo>(devices, device);
    let spot = sync::spot::<SyncDeviceInfo>(devices, device.id) as int;
    lemma_spot(devices, device.id);
    if spot < devices.len() {
        assert(devices[spot].id == device.id);
        if !text::precedes(device.last_seen_at, devices[spot].last_seen_at) {
            assert(placed[spot] == device);
        }
    } else {
        assert(placed[devices.len() as int] == device);
    }
}

/// Only a private repository is used, and another branch than its own only where that was synchronised
/// before.
pub proof fn repositories_must_be_private(
    config: SyncConfigView,
    private: bool,
    default_branch: Seq<char>,
)
    ensures
        !private ==> remote::found_verdict(config, private, default_branch)
            == RepositoryVerdict::NotPrivate,
        private && config.branch == default_branch ==> remote::found_verdict(
            config,
            private,
            default_branch,
        ) == RepositoryVerdict::Ready,
        private && config.last_remote_sha is Some ==> remote::found_verdict(
            config,
            private,
            default_branch,
        ) == RepositoryVerdict::Ready,
        private && config.branch != default_branch && config.last_remote_sha is None
            ==> remote::found_verdict(config, private, default_branch)
            == RepositoryVerdict::OtherBranch,
{
}

/// The address of the snapshot names the owner and the repository, and behind them the parts of the
/// file's path, none of them empty.
pub proof fn addresses_name_the_repository(config: SyncConfigView)
    ensures
        ({
            let path = remote::content_path(config);
            &&& path.len() >= 4
            &&& path[0] == "repos"@
            &&& path[1] == config.owner
            &&& path[2] == config.repo
            &&& path[3] == "contents"@
            &&& forall|k: int| 4 <= k < path.len() ==> (#[trigger] path[k]).len() > 0
        }),
{
    let parts = text::pieces(config.file_path, |c: char| c == '/');
    let keep = |part: Seq<char>| part.len() > 0;
    let path = remote::content_path(config);
    lists::lemma_filtered(parts, keep);
    assert forall|k: int| 4 <= k < path.len() implies (#[trigger] path[k]).len() > 0 by {
        assert(path[k] == parts.filter(keep)[k - 4]);
        assert(keep(parts.filter(keep)[k - 4]));
    }
}

/// An answer is told by its message where it has one, and by its beginning otherwise.
pub proof fn answers_are_told_briefly(document: Option<JsonView>, body: Seq<char>)
    ensures
        document is Some && document.unwrap().member_text("message"@) is Some
            ==> remote::short_message(document, body) == document.unwrap().member_text(
            "message"@,
        ).unwrap(),
        document is None || document.unwrap().member_text("message"@) is None ==> {
            &&& remote::short_message(document, body).len() <= 180
            &&& body.len() <= 180 ==> remote::short_message(document, body) == body
            &&& body.len() > 180 ==> remote::short_message(document, body) == body.subrange(0, 180)
        },
{
}

} // verus!
