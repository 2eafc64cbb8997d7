//! The settings and the steps of a synchronisation with a remote repository.
use vstd::prelude::*;
use vstd::string::*;

use crate::clock;
use crate::clock::Moment;
use crate::ids;
use crate::json;
use crate::json::JsonView;
use crate::models::{
    GithubSyncConfig, GithubSyncResult, SyncConfigView, SyncDeviceInfo, SyncDeviceView,
};
use crate::settings;
use crate::sync;
use crate::sync::{SnapshotError, SnapshotView, SyncSnapshot};
use crate::text;

verus! {

broadcast use vstd::seq_lib::group_seq_properties;

/// A trimmed text of at most so many characters, or the fallback where nothing is left.
pub open spec fn cut_or(value: Seq<char>, count: nat, fallback: Seq<char>) -> Seq<char> {
    if text::prefix_of(value, count).len() == 0 {
        fallback
    } else {
        text::prefix_of(value, count)
    }
}

fn cut_or_else(value: &str, count: usize, fallback: &str) -> (result: String)
    ensures
        result@ == cut_or(value@, count as nat, fallback@),
{
    let cut = text::take_chars(value, count);
    if cut.as_str().is_empty() {
        fallback.to_owned()
    } else {
        cut
    }
}

/// The text, or the fallback where it is blank.
pub open spec fn or_fallback(value: Seq<char>, fallback: Seq<char>) -> Seq<char> {
    if text::blank(value) {
        fallback
    } else {
        value
    }
}

fn or_else(value: String, fallback: &str) -> (result: String)
    ensures
        result@ == or_fallback(value@, fallback@),
{
    if text::is_blank(value.as_str()) {
        fallback.to_owned()
    } else {
        value
    }
}

/// The settings in normal form, where the fresh identifier stands in for a missing one.
pub open spec fn normal_config(
    config: SyncConfigView,
    host_name: Seq<char>,
    fresh_id: Seq<char>,
) -> SyncConfigView {
    SyncConfigView {
        owner: text::prefix_of(
            text::skip_while(text::trimmed(config.owner), |c: char| c == '@'),
            80,
        ),
        repo: cut_or(
            text::drop_suffixes(text::trimmed(config.repo), ".git"@),
            100,
            "ScreenUse-Data"@,
        ),
        branch: cut_or(text::trimmed(config.branch), 100, "main"@),
        file_path: cut_or(
            text::skip_while(text::trimmed(config.file_path), |c: char| c == '/'),
            180,
            "screenuse/snapshot-v1.json.gz.enc"@,
        ),
        interval_minutes: settings::clamped(config.interval_minutes, 5, 1_440),
        device_id: or_fallback(config.device_id, fresh_id),
        device_name: cut_or(text::trimmed(config.device_name), 80, host_name),
        token_secret_ref: or_fallback(config.token_secret_ref, "github-sync-token"@),
        key_secret_ref: or_fallback(config.key_secret_ref, "github-sync-key"@),
        ..config
    }
}

impl GithubSyncConfig {
    /// The settings before anyone has touched them.
    pub fn initial(host_name: &str) -> (result: Self)
        ensures
            !result.enabled,
            result@.owner == ""@,
            result@.repo == "ScreenUse-Data"@,
            result@.branch == "main"@,
            result@.file_path == "screenuse/snapshot-v1.json.gz.enc"@,
            result.auto_sync,
            result.interval_minutes == 15,
            ids::looks_like_id(result@.device_id),
            result@.device_name == host_name@,
            result@.token_secret_ref == "github-sync-token"@,
            result@.key_secret_ref == "github-sync-key"@,
            result@.last_synced_at is None,
            result@.last_remote_sha is None,
            result@.last_error is None,
    {
        GithubSyncConfig {
            enabled: false,
            owner: "".to_owned(),
            repo: "ScreenUse-Data".to_owned(),
            branch: "main".to_owned(),
            file_path: "screenuse/snapshot-v1.json.gz.enc".to_owned(),
            auto_sync: true,
            interval_minutes: 15,
            device_id: ids::new_id(),
            device_name: host_name.to_owned(),
            token_secret_ref: "github-sync-token".to_owned(),
            key_secret_ref: "github-sync-key".to_owned(),
            last_synced_at: None,
            last_remote_sha: None,
            last_error: None,
        }
    }

    /// The settings in normal form; a device without an identifier gets a fresh one.
    pub fn normalized(self, host_name: &str) -> (result: Self)
        ensures
            exists|fresh_id: Seq<char>|
                ids::looks_like_id(fresh_id) && result@ == #[trigger] normal_config(
                    self@,
                    host_name@,
                    fresh_id,
                ),
    {
        let fresh_id = ids::new_id();
        let ghost id = fresh_id@;
        let result = self.normalized_with(fresh_id.as_str(), host_name);
        assert(result@ == normal_config(self@, host_name@, id));
        result
    }

    /// The settings in normal form, with the identifier to use where there is none.
    pub fn normalized_with(self, fresh_id: &str, host_name: &str) -> (result: Self)
        ensures
            result@ == normal_config(self@, host_name@, fresh_id@),
    {
        let trimmed_owner = text::trim(self.owner.as_str());
        let owner = text::trim_start_char(trimmed_owner.as_str(), '@');
        let trimmed_repo = text::trim(self.repo.as_str());
        proof {
            reveal_strlit(".git");
        }
        let repo = text::trim_end_suffix(trimmed_repo.as_str(), ".git");
        let branch = text::trim(self.branch.as_str());
        let trimmed_path = text::trim(self.file_path.as_str());
        let file_path = text::trim_start_char(trimmed_path.as_str(), '/');
        let device_name = text::trim(self.device_name.as_str());
        GithubSyncConfig {
            enabled: self.enabled,
            owner: text::take_chars(owner.as_str(), 80),
            repo: cut_or_else(repo.as_str(), 100, "ScreenUse-Data"),
            branch: cut_or_else(branch.as_str(), 100, "main"),
            file_path: cut_or_else(file_path.as_str(), 180, "screenuse/snapshot-v1.json.gz.enc"),
            auto_sync: self.auto_sync,
            interval_minutes: settings::clamp(self.interval_minutes, 5, 1_440),
            device_id: or_else(self.device_id, fresh_id),
            device_name: cut_or_else(device_name.as_str(), 80, host_name),
            token_secret_ref: or_else(self.token_secret_ref, "github-sync-token"),
            key_secret_ref: or_else(self.key_secret_ref, "github-sync-key"),
            last_synced_at: self.last_synced_at,
            last_remote_sha: self.last_remote_sha,
            last_error: self.last_error,
        }
    }
}

/// Why settings cannot be used.
#[derive(Clone, Copy, Debug, PartialEq, Eq, Structural)]
pub enum ConfigError {
    EmptyOwner,
    OwnerCharacters,
    RepoCharacters,
    FilePath,
}

/// A character that names of users and repositories may have.
pub open spec fn name_char(c: char) -> bool {
    ('a' <= c && c <= 'z') || ('A' <= c && c <= 'Z') || ('0' <= c && c <= '9') || c == '-' || c
        == '_' || c == '.'
}

pub open spec fn plain_name(value: Seq<char>) -> bool {
    forall|i: int| 0 <= i < value.len() ==> name_char(#[trigger] value[i])
}

fn is_plain_name(value: &str) -> (result: bool)
    ensures
        result == plain_name(value@),
{
    let chars = text::chars_of(value);
    let mut i: usize = 0;
    while i < chars.len()
        invariant
            i <= chars.len(),
            chars@ == value@,
            forall|k: int| 0 <= k < i ==> name_char(#[trigger] value@[k]),
        decreases chars.len() - i,
    {
        let c = chars[i];
        let fits = ('a' <= c && c <= 'z') || ('A' <= c && c <= 'Z') || ('0' <= c && c <= '9') || c
            == '-' || c == '_' || c == '.';
        if !fits {
            assert(!name_char(value@[i as int]));
            return false;
        }
        i += 1;
    }
    true
}

/// What is wrong with the settings.
pub open spec fn config_fault(config: SyncConfigView) -> Option<ConfigError> {
    if config.owner.len() == 0 {
        Some(ConfigError::EmptyOwner)
    } else if !plain_name(config.owner) {
        Some(ConfigError::OwnerCharacters)
    } else if !plain_name(config.repo) {
        Some(ConfigError::RepoCharacters)
    } else if text::occurs(config.file_path, ".."@) || text::has_prefix(config.file_path, "/"@) {
        Some(ConfigError::FilePath)
    } else {
        None
    }
}

/// Checks the settings.
pub fn validate_config(config: &GithubSyncConfig) -> (result: Result<(), ConfigError>)
    ensures
        match result {
            Ok(_) => config_fault(config@) is None,
            Err(error) => config_fault(config@) == Some(error),
        },
{
    if config.owner.as_str().is_empty() {
        return Err(ConfigError::EmptyOwner);
    }
    if !is_plain_name(config.owner.as_str()) {
        return Err(ConfigError::OwnerCharacters);
    }
    if !is_plain_name(config.repo.as_str()) {
        return Err(ConfigError::RepoCharacters);
    }
    if text::contains(config.file_path.as_str(), "..") || text::starts_with(
        config.file_path.as_str(),
        "/",
    ) {
        return Err(ConfigError::FilePath);
    }
    Ok(())
}

/// A stored secret is there and is not blank.
pub fn secret_exists(stored: &Option<String>) -> (result: bool)
    ensures
        result == (text::optional(*stored) matches Some(value) && !text::blank(value)),
{
    match stored {
        Some(value) => !text::is_blank(value.as_str()),
        None => false,
    }
}

/// Everything that a synchronisation needs is there.
pub fn is_ready(config: &GithubSyncConfig, token: bool, key: bool) -> (result: bool)
    ensures
        result == (config.enabled && config@.owner.len() > 0 && token && key),
{
    config.enabled && !config.owner.as_str().is_empty() && token && key
}

/// The error says that the remote file changed meanwhile.
pub fn is_conflict(error: &str) -> (result: bool)
    ensures
        result == text::has_prefix(error@, "GITHUB_CONFLICT:"@),
{
    text::starts_with(error, "GITHUB_CONFLICT:")
}

/// What a service says went wrong, as short as it can be said.
pub open spec fn short_message(document: Option<JsonView>, body: Seq<char>) -> Seq<char> {
    match document {
        Some(value) => match value.member_text("message"@) {
            Some(message) => message,
            None => text::prefix_of(body, 180),
        },
        None => text::prefix_of(body, 180),
    }
}

/// What the body of an error reply says.
pub fn concise_github_error(body: &str) -> (result: String)
    ensures
        result@ == short_message(json::document(body@), body@),
{
    match json::parse(body) {
        Some(value) => match value.text_of("message") {
            Some(message) => message,
            None => text::take_chars(body, 180),
        },
        None => text::take_chars(body, 180),
    }
}

/// What a remote repository is, as far as it matters.
#[derive(Debug, PartialEq, Eq)]
pub struct RepositoryInfo {
    pub private: bool,
    pub default_branch: String,
}

/// What follows from a look at the repository.
#[derive(Clone, Copy, Debug, PartialEq, Eq, Structural)]
pub enum RepositoryVerdict {
    Ready,
    NotPrivate,
    /// Before the first synchronisation the branch has to be the default one.
    OtherBranch,
    /// It is not there: create it.
    Create,
    /// The service refused to say.
    Refused,
}

/// What follows where the repository was found.
pub open spec fn found_verdict(
    config: SyncConfigView,
    private: bool,
    default_branch: Seq<char>,
) -> RepositoryVerdict {
    if !private {
        RepositoryVerdict::NotPrivate
    } else if config.branch != default_branch && config.last_remote_sha is None {
        RepositoryVerdict::OtherBranch
    } else {
        RepositoryVerdict::Ready
    }
}

/// A reply with this status succeeded.
pub open spec fn succeeded(status: u16) -> bool {
    200 <= status < 300
}

/// Judges the repository that was found.
pub fn judge_repository(config: &GithubSyncConfig, found: &RepositoryInfo) -> (result:
    RepositoryVerdict)
    ensures
        result == found_verdict(config@, found.private, found.default_branch@),
{
    if !found.private {
        RepositoryVerdict::NotPrivate
    } else if !text::same(config.branch.as_str(), found.default_branch.as_str())
        && config.last_remote_sha.is_none() {
        RepositoryVerdict::OtherBranch
    } else {
        RepositoryVerdict::Ready
    }
}

/// What follows where looking for the repository failed.
pub fn judge_missing_repository(status: u16) -> (result: RepositoryVerdict)
    requires
        !succeeded(status),
    ensures
        result == if status == 404 {
            RepositoryVerdict::Create
        } else {
            RepositoryVerdict::Refused
        },
{
    if status == 404 {
        RepositoryVerdict::Create
    } else {
        RepositoryVerdict::Refused
    }
}

/// A repository can only be created under the name of the token's owner.
pub fn may_create(login: &str, owner: &str) -> (result: bool)
    ensures
        result == (text::ascii_lower(login@) == text::ascii_lower(owner@)),
{
    let left = text::to_ascii_lower(login);
    let right = text::to_ascii_lower(owner);
    text::same(left.as_str(), right.as_str())
}

/// Where the file of the snapshot lies, as parts of a path below the service.
pub open spec fn content_path(config: SyncConfigView) -> Seq<Seq<char>> {
    seq!["repos"@, config.owner, config.repo, "contents"@] + text::pieces(
        config.file_path,
        |c: char| c == '/',
    ).filter(|part: Seq<char>| part.len() > 0)
}

/// The parts of the path to the file of the snapshot.
pub fn content_segments(config: &GithubSyncConfig) -> (result: Vec<String>)
    ensures
        text::texts(result@) == content_path(config@),
{
    let mut result: Vec<String> = Vec::new();
    result.push("repos".to_owned());
    result.push(config.owner.clone());
    result.push(config.repo.clone());
    result.push("contents".to_owned());
    let ghost head = seq!["repos"@, config@.owner, config@.repo, "contents"@];
    assert(text::texts(result@) =~= head);
    let parts = text::split_any(config.file_path.as_str(), "/");
    let ghost all = text::texts(parts@);
    let ghost keep = |part: Seq<char>| part.len() > 0;
    assert(all == text::pieces(config@.file_path, |c: char| c == '/')) by {
        reveal_strlit("/");
        assert("/"@ =~= seq!['/']);
        assert("/"@[0] == '/');
        assert((|c: char| "/"@.contains(c)) =~= (|c: char| c == '/'));
    }
    let mut i: usize = 0;
    assert(all.take(0).filter(keep) =~= Seq::empty()) by {
        reveal(Seq::filter);
    }
    assert(text::texts(result@) =~= head + all.take(0).filter(keep));
    while i < parts.len()
        invariant
            i <= parts.len(),
            all == text::texts(parts@),
            keep == (|part: Seq<char>| part.len() > 0),
            text::texts(result@) == head + all.take(i as int).filter(keep),
        decreases parts.len() - i,
    {
        let ghost done = text::texts(result@);
        assert(all.take(i + 1) =~= all.take(i as int).push(all[i as int]));
        proof {
            all.take(i as int).lemma_filter_push(all[i as int], keep);
        }
        if !parts[i].as_str().is_empty() {
            result.push(parts[i].clone());
            assert(text::texts(result@) =~= done.push(all[i as int]));
            assert(head + all.take(i as int).filter(keep).push(all[i as int]) =~= (head + all.take(
                i as int,
            ).filter(keep)).push(all[i as int]));
        }
        i += 1;
    }
    assert(all.take(parts.len() as int) =~= all);
    result
}

/// A snapshot that was downloaded.
#[derive(Debug, PartialEq, Eq)]
pub struct RemoteSnapshot {
    pub snapshot: SyncSnapshot,
    pub sha: String,
    pub encrypted_bytes: u64,
}

/// What `RemoteSnapshot` holds.
#[verifier::ext_equal]
pub struct RemoteView {
    pub snapshot: SnapshotView,
    pub sha: Seq<char>,
    pub encrypted_bytes: u64,
}

impl View for RemoteSnapshot {
    type V = RemoteView;

    open spec fn view(&self) -> RemoteView {
        RemoteView {
            snapshot: self.snapshot@,
            sha: self.sha@,
            encrypted_bytes: self.encrypted_bytes,
        }
    }
}

pub open spec fn optional_remote(value: Option<RemoteSnapshot>) -> Option<RemoteView> {
    match value {
        Some(inner) => Some(inner@),
        None => None,
    }
}

/// What is to be uploaded, over which remote version, and how much was downloaded for it.
#[derive(Debug, PartialEq, Eq)]
pub struct Prepared {
    pub snapshot: SyncSnapshot,
    pub previous_sha: Option<String>,
    pub downloaded_bytes: u64,
}

/// What `Prepared` holds.
#[verifier::ext_equal]
pub struct PreparedView {
    pub snapshot: SnapshotView,
    pub previous_sha: Option<Seq<char>>,
    pub downloaded_bytes: u64,
}

impl View for Prepared {
    type V = PreparedView;

    open spec fn view(&self) -> PreparedView {
        PreparedView {
            snapshot: self.snapshot@,
            previous_sha: text::optional(self.previous_sha),
            downloaded_bytes: self.downloaded_bytes,
        }
    }
}

/// The snapshot in the name of this device.
pub open spec fn signed(
    snapshot: SnapshotView,
    config: SyncConfigView,
    now: Seq<char>,
) -> SnapshotView {
    SnapshotView {
        generated_at: now,
        generated_by: config.device_id,
        devices: sync::noted_device(
            snapshot.devices,
            SyncDeviceView { id: config.device_id, name: config.device_name, last_seen_at: now },
        ),
        ..snapshot
    }
}

/// What the first meeting with the remote side comes to.
pub open spec fn prepared(
    local: SnapshotView,
    remote: Option<RemoteView>,
    config: SyncConfigView,
    now: Seq<char>,
) -> Result<PreparedView, SnapshotError> {
    match remote {
        None => Ok(
            PreparedView {
                snapshot: signed(local, config, now),
                previous_sha: None,
                downloaded_bytes: 0,
            },
        ),
        Some(found) => match sync::merged(local, found.snapshot, now) {
            Ok(snapshot) => Ok(
                PreparedView {
                    snapshot: signed(snapshot, config, now),
                    previous_sha: Some(found.sha),
                    downloaded_bytes: found.encrypted_bytes,
                },
            ),
            Err(error) => Err(error),
        },
    }
}

fn sign(snapshot: SyncSnapshot, config: &GithubSyncConfig, now: &str) -> (result: SyncSnapshot)
    ensures
        result@ == signed(snapshot@, config@, now@),
{
    let mut result = snapshot;
    result.generated_at = now.to_owned();
    result.generated_by = config.device_id.clone();
    sync::upsert_device(
        &mut result.devices,
        SyncDeviceInfo {
            id: config.device_id.clone(),
            name: config.device_name.clone(),
            last_seen_at: now.to_owned(),
        },
    );
    result
}

/// Merges what was downloaded into what the device has, and signs the result.
pub fn prepare_upload(
    local: SyncSnapshot,
    remote: Option<RemoteSnapshot>,
    config: &GithubSyncConfig,
    now: &str,
) -> (result: Result<Prepared, SnapshotError>)
    ensures
        match result {
            Ok(ready) => prepared(local@, optional_remote(remote), config@, now@) == Ok::<
                PreparedView,
                SnapshotError,
            >(ready@),
            Err(error) => prepared(local@, optional_remote(remote), config@, now@) == Err::<
                PreparedView,
                SnapshotError,
            >(error),
        },
{
    match remote {
        None => Ok(
            Prepared {
                snapshot: sign(local, config, now),
                previous_sha: None,
                downloaded_bytes: 0,
            },
        ),
        Some(found) => match sync::merge_snapshots(local, found.snapshot, now.to_owned()) {
            Ok(snapshot) => Ok(
                Prepared {
                    snapshot: sign(snapshot, config, now),
                    previous_sha: Some(found.sha),
                    downloaded_bytes: found.encrypted_bytes,
                },
            ),
            Err(error) => Err(error),
        },
    }
}

/// Merges what another device has uploaded meanwhile into what was to be uploaded.
pub fn prepare_again(
    first: Prepared,
    remote: RemoteSnapshot,
    now: &str,
) -> (result: Result<Prepared, SnapshotError>)
    requires
        first.downloaded_bytes + remote.encrypted_bytes <= u64::MAX,
    ensures
        match result {
            Ok(ready) => {
                &&& sync::merged(first@.snapshot, remote@.snapshot, now@) == Ok::<
                    SnapshotView,
                    SnapshotError,
                >(ready@.snapshot)
                &&& ready@.previous_sha == Some(remote@.sha)
                &&& ready.downloaded_bytes == first.downloaded_bytes + remote.encrypted_bytes
            },
            Err(error) => sync::merged(first@.snapshot, remote@.snapshot, now@) == Err::<
                SnapshotView,
                SnapshotError,
            >(error),
        },
{
    match sync::merge_snapshots(first.snapshot, remote.snapshot, now.to_owned()) {
        Ok(snapshot) => Ok(
            Prepared {
                snapshot,
                previous_sha: Some(remote.sha),
                downloaded_bytes: first.downloaded_bytes + remote.encrypted_bytes,
            },
        ),
        Err(error) => Err(error),
    }
}

/// How an upload ended.
#[derive(Clone, Copy, Debug, PartialEq, Eq, Structural)]
pub enum Upload {
    Stored,
    /// The remote file changed meanwhile.
    Conflict,
    Failed,
}

/// What the status of the reply says of an upload.
pub fn judge_upload(status: u16) -> (result: Upload)
    ensures
        result == if succeeded(status) {
            Upload::Stored
        } else if status == 409 || status == 422 {
            Upload::Conflict
        } else {
            Upload::Failed
        },
{
    if 200 <= status && status < 300 {
        Upload::Stored
    } else if status == 409 || status == 422 {
        Upload::Conflict
    } else {
        Upload::Failed
    }
}

/// What to do after an upload.
#[derive(Clone, Copy, Debug, PartialEq, Eq, Structural)]
pub enum NextStep {
    Finish,
    /// Download again, merge, and upload once more.
    TryAgain,
    GiveUp,
}

/// A conflict is worth exactly one more try.
pub fn next_step(outcome: Upload, first_try: bool) -> (result: NextStep)
    ensures
        result == match outcome {
            Upload::Stored => NextStep::Finish,
            Upload::Conflict => if first_try {
                NextStep::TryAgain
            } else {
                NextStep::GiveUp
            },
            Upload::Failed => NextStep::GiveUp,
        },
{
    match outcome {
        Upload::Stored => NextStep::Finish,
        Upload::Conflict => if first_try {
            NextStep::TryAgain
        } else {
            NextStep::GiveUp
        },
        Upload::Failed => NextStep::GiveUp,
    }
}

/// The settings once a synchronisation has succeeded.
pub fn note_success(config: GithubSyncConfig, synced_at: &str, sha: &str) -> (result:
    GithubSyncConfig)
    ensures
        result@ == (SyncConfigView {
            last_synced_at: Some(synced_at@),
            last_remote_sha: Some(sha@),
            last_error: None,
            ..config@
        }),
{
    let mut result = config;
    result.last_synced_at = Some(synced_at.to_owned());
    result.last_remote_sha = Some(sha.to_owned());
    result.last_error = None;
    result
}

/// The settings once a synchronisation has failed.
pub fn note_failure(config: GithubSyncConfig, error: &str) -> (result: GithubSyncConfig)
    ensures
        result@ == (SyncConfigView { last_error: Some(error@), ..config@ }),
{
    let mut result = config;
    result.last_error = Some(error.to_owned());
    result
}

/// The settings once the device is disconnected.
pub fn disconnected(config: GithubSyncConfig) -> (result: GithubSyncConfig)
    ensures
        result@ == (SyncConfigView { enabled: false, last_error: None, ..config@ }),
{
    let mut result = config;
    result.enabled = false;
    result.last_error = None;
    result
}

/// What a synchronisation did.
pub fn report(
    uploaded: &Prepared,
    uploaded_bytes: u64,
    synced_at: String,
    remote_sha: String,
) -> (result: GithubSyncResult)
    ensures
        result.synced_at == synced_at,
        result.remote_sha == remote_sha,
        result.uploaded_bytes == uploaded_bytes,
        result.downloaded_bytes == uploaded.downloaded_bytes,
        result.counts.categories == uploaded.snapshot.categories@.len() as u32,
        result.counts.projects == uploaded.snapshot.projects@.len() as u32,
        result.counts.tasks == uploaded.snapshot.tasks@.len() as u32,
        result.counts.sessions == uploaded.snapshot.sessions@.len() as u32,
        result.counts.rules == uploaded.snapshot.rules@.len() as u32,
        result.message@ == "已合并本机与 GitHub 的最新记录"@,
{
    GithubSyncResult {
        synced_at,
        remote_sha,
        uploaded_bytes,
        downloaded_bytes: uploaded.downloaded_bytes,
        counts: uploaded.snapshot.counts(),
        message: "已合并本机与 GitHub 的最新记录".to_owned(),
    }
}

/// The last synchronisation is further back than the interval, or was never.
pub open spec fn due(config: SyncConfigView, now: Moment) -> bool {
    match config.last_synced_at {
        None => true,
        Some(at) => match clock::moment_of(at) {
            None => true,
            Some(last) => !clock::before(
                now,
                clock::shifted(last, 60 * config.interval_minutes as int),
            ),
        },
    }
}

/// Whether it is time for the next synchronisation.
pub fn sync_due(config: &GithubSyncConfig, now: Moment) -> (result: bool)
    ensures
        result == due(config@, now),
{
    match &config.last_synced_at {
        None => true,
        Some(at) => match clock::parse_moment(at.as_str()) {
            None => true,
            Some(last) => {
                let next = clock::shift(last, 60 * config.interval_minutes as i64);
                !clock::is_before(now, next)
            },
        },
    }
}

/// What a synchronisation uploads is whole: its references resolve, its deletions hold, and this
/// device stands in it.
pub proof fn uploads_are_whole(
    local: SnapshotView,
    remote: RemoteView,
    config: SyncConfigView,
    now: Seq<char>,
)
    requires
        prepared(local, Some(remote), config, now) is Ok,
    ensures
        ({
            let snapshot = prepared(local, Some(remote), config, now)->Ok_0.snapshot;
            &&& sync::references_resolve(snapshot)
            &&& sync::outlives_tombstones(snapshot)
            &&& snapshot.generated_by == config.device_id
        }),
{
    sync::merged_references_resolve(local, remote.snapshot, now);
    sync::merged_records_outlive_their_tombstones(local, remote.snapshot, now);
}

} // verus!
