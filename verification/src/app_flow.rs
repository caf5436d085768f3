//! The desktop app's screens and flow: finding or starting the daemon,
//! the create-or-join wizard, moving between screens, the folder, conflict,
//! device and settings actions, and what the daemon's replies change. Each
//! user or daemon event moves the state and names the work the platform
//! does next; the lists of records the daemon sends are kept by the
//! platform, which the flow tells when to replace one.

use vstd::prelude::*;
use crate::folder_view::SortField;
use crate::templates::str_eq;
use crate::text::{concat, decimal, dec_chars};

verus! {

/// A screen of the app.
#[derive(Clone, Copy, PartialEq, Eq, Debug, Structural)]
pub enum Screen {
    DaemonCheck,
    Setup,
    Folders,
    FolderDetail,
    Conflicts,
    FileHistory,
    Devices,
    Status,
    RecentFiles,
    Settings,
    NetworkHealth,
}

/// The page of the setup wizard.
#[derive(Clone, Copy, PartialEq, Eq, Debug, Structural)]
pub enum SetupStep {
    ChooseMode,
    Form,
}

/// What the app's flow keeps.
pub struct AppState {
    pub screen: Screen,
    pub daemon_running: Option<bool>,
    pub daemon_error: Option<String>,
    /// A start of the daemon is under way.
    pub daemon_launching: bool,
    pub setup_step: SetupStep,
    pub device_name: String,
    pub mnemonic_input: String,
    /// The wizard joins an existing network rather than creating one.
    pub join_mode: bool,
    pub setup_error: Option<String>,
    pub search_query: String,
    pub sort_field: SortField,
    pub sort_ascending: bool,
    /// The folder whose name is being edited.
    pub renaming_folder_id: Option<String>,
    pub rename_input: String,
    /// Leaving the network waits for a confirmation.
    pub leave_network_confirm: bool,
    pub status_device_id: String,
    pub status_device_name: String,
    pub status_network_id: String,
    pub status_peer_count: u64,
    pub status_dag_entries: u64,
    pub status_uptime_secs: u64,
    /// The folder shown on the folder screen, by id.
    pub selected_folder_id: Option<String>,
    pub folder_paused: bool,
    pub sync_paused: bool,
    pub history_folder_id: String,
    pub history_path: String,
    pub cfg_auto_approve: bool,
    pub cfg_mdns: bool,
    pub cfg_upload_throttle: u64,
    pub cfg_download_throttle: u64,
    pub settings_toast: Option<String>,
    pub folder_ignore_patterns: String,
    pub storage_stats: Option<StorageStats>,
    /// Whether the relay answered, and in how many milliseconds.
    pub connectivity_result: Option<(bool, Option<u64>)>,
}

/// Blob and entry counts of the daemon's store.
#[derive(Clone, Copy, PartialEq, Eq, Debug, Structural)]
pub struct StorageStats {
    pub total_blob_count: u64,
    pub total_blob_bytes: u64,
    pub orphaned_blob_count: u64,
    pub orphaned_blob_bytes: u64,
    pub dag_entry_count: u64,
}

/// A list of records the daemon sends and the platform keeps.
#[derive(Clone, Copy, PartialEq, Eq, Debug, Structural)]
pub enum ListKind {
    Folders,
    NetworkFolders,
    FolderFiles,
    FolderSubscribers,
    Conflicts,
    Devices,
    Pending,
    DevicePresence,
    FileHistory,
    Peers,
}

/// A request to the daemon.
pub enum Request {
    CreateFolder { name: String, local_path: Option<String> },
    SubscribeFolder { folder_id: String, name: Option<String>, local_path: String, mode: String },
    UnsubscribeFolder { folder_id: String, keep_local: bool },
    ResolveConflict { folder_id: String, path: String, chosen_hash: String },
    DismissConflict { folder_id: String, path: String },
    BulkResolveConflicts { folder_id: String, strategy: String },
    FileHistory { folder_id: String, path: String },
    RestoreFileVersion { folder_id: String, path: String, blob_hash: String },
    DeleteFile { folder_id: String, path: String },
    ApproveDevice { device_id: String, role: String },
    PauseSync,
    ResumeSync,
    PauseFolderSync { folder_id: String },
    ResumeFolderSync { folder_id: String },
    SetAutoApprove { enabled: bool },
    SetMdns { enabled: bool },
    SetThrottle { upload_bytes_per_sec: u64, download_bytes_per_sec: u64 },
    ReclaimOrphanedBlobs,
    SetIgnorePatterns { folder_id: String, patterns: String },
    RunConnectivityCheck,
    ExportDiagnostics { output_path: String },
}

/// The value of a [`Request`].
pub enum RequestV {
    CreateFolder { name: Seq<char>, local_path: Option<Seq<char>> },
    SubscribeFolder { folder_id: Seq<char>, name: Option<Seq<char>>, local_path: Seq<char>, mode: Seq<char> },
    UnsubscribeFolder { folder_id: Seq<char>, keep_local: bool },
    ResolveConflict { folder_id: Seq<char>, path: Seq<char>, chosen_hash: Seq<char> },
    DismissConflict { folder_id: Seq<char>, path: Seq<char> },
    BulkResolveConflicts { folder_id: Seq<char>, strategy: Seq<char> },
    FileHistory { folder_id: Seq<char>, path: Seq<char> },
    RestoreFileVersion { folder_id: Seq<char>, path: Seq<char>, blob_hash: Seq<char> },
    DeleteFile { folder_id: Seq<char>, path: Seq<char> },
    ApproveDevice { device_id: Seq<char>, role: Seq<char> },
    PauseSync,
    ResumeSync,
    PauseFolderSync { folder_id: Seq<char> },
    ResumeFolderSync { folder_id: Seq<char> },
    SetAutoApprove { enabled: bool },
    SetMdns { enabled: bool },
    SetThrottle { upload_bytes_per_sec: u64, download_bytes_per_sec: u64 },
    ReclaimOrphanedBlobs,
    SetIgnorePatterns { folder_id: Seq<char>, patterns: Seq<char> },
    RunConnectivityCheck,
    ExportDiagnostics { output_path: Seq<char> },
}

impl View for Request {
    type V = RequestV;

    open spec fn view(&self) -> RequestV {
        match self {
            Request::CreateFolder { name, local_path } => RequestV::CreateFolder {
                name: name@,
                local_path: opt_view(*local_path),
            },
            Request::SubscribeFolder { folder_id, name, local_path, mode } => RequestV::SubscribeFolder {
                folder_id: folder_id@,
                name: opt_view(*name),
                local_path: local_path@,
                mode: mode@,
            },
            Request::UnsubscribeFolder { folder_id, keep_local } => RequestV::UnsubscribeFolder {
                folder_id: folder_id@,
                keep_local: *keep_local,
            },
            Request::ResolveConflict { folder_id, path, chosen_hash } => RequestV::ResolveConflict {
                folder_id: folder_id@,
                path: path@,
                chosen_hash: chosen_hash@,
            },
            Request::DismissConflict { folder_id, path } => RequestV::DismissConflict {
                folder_id: folder_id@,
                path: path@,
            },
            Request::BulkResolveConflicts { folder_id, strategy } => RequestV::BulkResolveConflicts {
                folder_id: folder_id@,
                strategy: strategy@,
            },
            Request::FileHistory { folder_id, path } => RequestV::FileHistory { folder_id: folder_id@, path: path@ },
            Request::RestoreFileVersion { folder_id, path, blob_hash } => RequestV::RestoreFileVersion {
                folder_id: folder_id@,
                path: path@,
                blob_hash: blob_hash@,
            },
            Request::DeleteFile { folder_id, path } => RequestV::DeleteFile { folder_id: folder_id@, path: path@ },
            Request::ApproveDevice { device_id, role } => RequestV::ApproveDevice {
                device_id: device_id@,
                role: role@,
            },
            Request::PauseSync => RequestV::PauseSync,
            Request::ResumeSync => RequestV::ResumeSync,
            Request::PauseFolderSync { folder_id } => RequestV::PauseFolderSync { folder_id: folder_id@ },
            Request::ResumeFolderSync { folder_id } => RequestV::ResumeFolderSync { folder_id: folder_id@ },
            Request::SetAutoApprove { enabled } => RequestV::SetAutoApprove { enabled: *enabled },
            Request::SetMdns { enabled } => RequestV::SetMdns { enabled: *enabled },
            Request::SetThrottle { upload_bytes_per_sec, download_bytes_per_sec } => RequestV::SetThrottle {
                upload_bytes_per_sec: *upload_bytes_per_sec,
                download_bytes_per_sec: *download_bytes_per_sec,
            },
            Request::ReclaimOrphanedBlobs => RequestV::ReclaimOrphanedBlobs,
            Request::SetIgnorePatterns { folder_id, patterns } => RequestV::SetIgnorePatterns {
                folder_id: folder_id@,
                patterns: patterns@,
            },
            Request::RunConnectivityCheck => RequestV::RunConnectivityCheck,
            Request::ExportDiagnostics { output_path } => RequestV::ExportDiagnostics { output_path: output_path@ },
        }
    }
}

/// `a` sends the request `r`.
pub open spec fn sends(a: AppAction, r: RequestV) -> bool {
    match a {
        AppAction::Send(x) => x@ == r,
        _ => false,
    }
}

/// The note shown after orphaned blobs were reclaimed; `freed` is the
/// number of bytes freed as shown to the user.
pub open spec fn reclaim_toast(blobs_removed: u64, freed: Seq<char>) -> Seq<char> {
    "Reclaimed "@ + dec_chars(blobs_removed as nat) + " blobs, "@ + freed + " freed"@
}

/// The value of an [`AppState`].
pub struct AppStateV {
    pub screen: Screen,
    pub daemon_running: Option<bool>,
    pub daemon_error: Option<Seq<char>>,
    pub daemon_launching: bool,
    pub setup_step: SetupStep,
    pub device_name: Seq<char>,
    pub mnemonic_input: Seq<char>,
    pub join_mode: bool,
    pub setup_error: Option<Seq<char>>,
    pub search_query: Seq<char>,
    pub sort_field: SortField,
    pub sort_ascending: bool,
    pub renaming_folder_id: Option<Seq<char>>,
    pub rename_input: Seq<char>,
    pub leave_network_confirm: bool,
    pub status_device_id: Seq<char>,
    pub status_device_name: Seq<char>,
    pub status_network_id: Seq<char>,
    pub status_peer_count: u64,
    pub status_dag_entries: u64,
    pub status_uptime_secs: u64,
    pub selected_folder_id: Option<Seq<char>>,
    pub folder_paused: bool,
    pub sync_paused: bool,
    pub history_folder_id: Seq<char>,
    pub history_path: Seq<char>,
    pub cfg_auto_approve: bool,
    pub cfg_mdns: bool,
    pub cfg_upload_throttle: u64,
    pub cfg_download_throttle: u64,
    pub settings_toast: Option<Seq<char>>,
    pub folder_ignore_patterns: Seq<char>,
    pub storage_stats: Option<StorageStats>,
    pub connectivity_result: Option<(bool, Option<u64>)>,
}

pub open spec fn opt_view(o: Option<String>) -> Option<Seq<char>> {
    match o {
        Some(s) => Some(s@),
        None => None,
    }
}

impl View for AppState {
    type V = AppStateV;

    open spec fn view(&self) -> AppStateV {
        AppStateV {
            screen: self.screen,
            daemon_running: self.daemon_running,
            daemon_error: opt_view(self.daemon_error),
            daemon_launching: self.daemon_launching,
            setup_step: self.setup_step,
            device_name: self.device_name@,
            mnemonic_input: self.mnemonic_input@,
            join_mode: self.join_mode,
            setup_error: opt_view(self.setup_error),
            search_query: self.search_query@,
            sort_field: self.sort_field,
            sort_ascending: self.sort_ascending,
            renaming_folder_id: opt_view(self.renaming_folder_id),
            rename_input: self.rename_input@,
            leave_network_confirm: self.leave_network_confirm,
            status_device_id: self.status_device_id@,
            status_device_name: self.status_device_name@,
            status_network_id: self.status_network_id@,
            status_peer_count: self.status_peer_count,
            status_dag_entries: self.status_dag_entries,
            status_uptime_secs: self.status_uptime_secs,
            selected_folder_id: opt_view(self.selected_folder_id),
            folder_paused: self.folder_paused,
            sync_paused: self.sync_paused,
            history_folder_id: self.history_folder_id@,
            history_path: self.history_path@,
            cfg_auto_approve: self.cfg_auto_approve,
            cfg_mdns: self.cfg_mdns,
            cfg_upload_throttle: self.cfg_upload_throttle,
            cfg_download_throttle: self.cfg_download_throttle,
            settings_toast: opt_view(self.settings_toast),
            folder_ignore_patterns: self.folder_ignore_patterns@,
            storage_stats: self.storage_stats,
            connectivity_result: self.connectivity_result,
        }
    }
}

/// What happened: a user's input, or the answer to earlier work.
pub enum AppEvent {
    /// Whether a daemon answers, and whether a network was set up before
    /// (its configuration file exists).
    DaemonChecked { running: bool, config_exists: bool },
    DaemonLaunched(Result<(), String>),
    DaemonConnected,
    RetryDaemonCheck,
    SetupChooseCreate,
    SetupChooseJoin,
    SetupBack,
    DeviceNameChanged(String),
    MnemonicInputChanged(String),
    StartDaemon,
    Navigate(Screen),
    SearchQueryChanged(String),
    SortBy(SortField),
    /// Start editing the name of a folder, from its current name.
    StartRenameFolder(String, String),
    RenameInputChanged(String),
    CancelRenameFolder,
    SubmitRenameFolder,
    LeaveNetworkStart,
    LeaveNetworkCancel,
    LeaveNetworkConfirm,
    /// The daemon answered (or dropped) the request to leave the network.
    LeftNetwork,
    /// An event the daemon pushed, by its type.
    DaemonEvent(String),
    StatusReceived {
        device_id: String,
        device_name: String,
        network_id: String,
        peer_count: u64,
        dag_entries: u64,
        uptime_secs: u64,
    },
    /// A list of records arrived; the platform holds it.
    ListReceived(ListKind),
    ConfigReceived {
        auto_approve: bool,
        mdns: bool,
        upload_throttle: u64,
        download_throttle: u64,
        sync_paused: bool,
        device_name: String,
    },
    IgnorePatternsReceived(String),
    StorageStatsReceived(StorageStats),
    ConnectivityReceived { relay_reachable: bool, latency_ms: Option<u64> },
    /// Orphaned blobs were reclaimed; `freed_text` is the freed size as
    /// shown to the user.
    Reclaimed { blobs_removed: u64, freed_text: String },
    /// A request that answers with a plain acknowledgement succeeded.
    GenericOk,
    /// Such a request got an answer of another kind.
    GenericOther,
    /// Any request failed, with the error's text.
    ReplyFailed(String),
    CreateFolderFromPicker,
    /// The picked directory, as its name and path, or none.
    PickedNewFolder(Option<(String, String)>),
    /// Subscribe to a network folder, by id and name.
    SubscribeFolder(String, String),
    /// The directory picked to subscribe a folder into, or none.
    PickedFolderPath(String, String, Option<String>),
    UnsubscribeFolder(String),
    SelectFolder(String),
    ResolveConflict { folder_id: String, path: String, chosen_hash: String },
    DismissConflict { folder_id: String, path: String },
    BulkResolve { folder_id: String, strategy: String },
    ViewFileHistory { folder_id: String, path: String },
    RestoreVersion { folder_id: String, path: String, blob_hash: String },
    DeleteFile { folder_id: String, path: String },
    ApproveDevice(String),
    ToggleGlobalSync,
    ToggleFolderSync(String),
    ToggleAutoApprove,
    ToggleMdns,
    SetThrottle(u64, u64),
    ReclaimOrphanedBlobs,
    FolderIgnorePatternsChanged(String),
    SaveIgnorePatterns(String),
    RunConnectivityCheck,
    /// Export diagnostics to the given file.
    ExportDiagnostics(String),
    Tick,
}

/// The work the platform does next.
pub enum AppAction {
    Nothing,
    /// Move on to the connected screens after a short pause.
    ConnectAfterDelay,
    /// Start the daemon, with a device name and a mnemonic to join with.
    LaunchDaemon { name: Option<String>, mnemonic: Option<String> },
    /// Ask the daemon for everything the screens show.
    FetchAll,
    /// Ask whether a daemon answers.
    CheckDaemon,
    /// Ask the daemon for what `screen` shows.
    FetchFor(Screen),
    /// Ask the daemon to rename a folder.
    RenameFolder { folder_id: String, name: String },
    /// Ask the daemon to leave the network.
    LeaveNetwork,
    /// Drop the folders, devices, conflicts and events shown.
    ForgetNetwork,
    FetchFolders,
    FetchConflicts,
    FetchDevices,
    FetchStatus,
    FetchStorageStats,
    FetchFoldersAndConflicts,
    /// Replace the platform's list of that kind by the one received.
    StoreList(ListKind),
    /// Ask the user for a directory to make a folder of.
    PickNewFolder,
    /// Ask the user for the directory to subscribe a folder into.
    PickDirectory { folder_id: String, folder_name: String },
    /// Ask the daemon for a folder's files, subscribers and ignore patterns.
    OpenFolder(String),
    Send(Request),
}

/// The refresh a pushed daemon event of type `kind` calls for while
/// `screen` is shown.
pub open spec fn event_refresh(kind: Seq<char>, screen: Screen) -> Option<AppAction> {
    if kind == "file_synced"@ || kind == "dag_synced"@ {
        Some(AppAction::FetchFolders)
    } else if kind == "conflict_detected"@ {
        Some(AppAction::FetchConflicts)
    } else if (kind == "device_approved"@ || kind == "device_join_requested"@) && screen == Screen::Devices {
        Some(AppAction::FetchDevices)
    } else if kind == "folder_created"@ {
        Some(AppAction::FetchFor(Screen::Folders))
    } else {
        None
    }
}

/// The screens that ask the daemon for data when opened.
pub open spec fn fetches_on_open(screen: Screen) -> bool {
    match screen {
        Screen::Folders | Screen::Conflicts | Screen::Devices | Screen::Status | Screen::Settings
        | Screen::NetworkHealth => true,
        _ => false,
    }
}

/// The step from state `s` on event `e` to state `t` with action `a`.
#[verifier::opaque]
pub open spec fn app_next(s: AppStateV, e: AppEvent, t: AppStateV, a: AppAction) -> bool {
    match e {
        AppEvent::DaemonChecked { running, config_exists } => if running {
            t == (AppStateV { daemon_running: Some(true), ..s }) && a is ConnectAfterDelay
        } else if s.daemon_launching {
            t == (AppStateV { daemon_running: Some(false), ..s }) && a is Nothing
        } else if config_exists {
            t == (AppStateV { daemon_running: Some(false), daemon_error: None, daemon_launching: true, ..s })
                && a matches AppAction::LaunchDaemon { name: None, mnemonic: None }
        } else {
            t == (AppStateV { daemon_running: Some(false), screen: Screen::Setup, ..s }) && a is Nothing
        },
        AppEvent::DaemonLaunched(r) => match r {
            Ok(()) => t == (AppStateV {
                daemon_launching: false,
                daemon_running: Some(true),
                screen: Screen::Folders,
                ..s
            }) && a is FetchAll,
            Err(m) => t == (AppStateV {
                daemon_launching: false,
                daemon_running: Some(false),
                daemon_error: Some(m@),
                screen: Screen::DaemonCheck,
                ..s
            }) && a is Nothing,
        },
        AppEvent::DaemonConnected => t == (AppStateV { screen: Screen::Folders, ..s }) && a is FetchAll,
        AppEvent::RetryDaemonCheck => t == (AppStateV {
            daemon_running: None,
            daemon_error: None,
            daemon_launching: false,
            screen: Screen::DaemonCheck,
            ..s
        }) && a is CheckDaemon,
        AppEvent::SetupChooseCreate => t == (AppStateV {
            join_mode: false,
            setup_step: SetupStep::Form,
            setup_error: None,
            ..s
        }) && a is Nothing,
        AppEvent::SetupChooseJoin => t == (AppStateV {
            join_mode: true,
            setup_step: SetupStep::Form,
            setup_error: None,
            ..s
        }) && a is Nothing,
        AppEvent::SetupBack => t == (AppStateV { setup_step: SetupStep::ChooseMode, setup_error: None, ..s })
            && a is Nothing,
        AppEvent::DeviceNameChanged(n) => t == (AppStateV { device_name: n@, ..s }) && a is Nothing,
        AppEvent::MnemonicInputChanged(m) => t == (AppStateV { mnemonic_input: m@, ..s }) && a is Nothing,
        AppEvent::StartDaemon => {
            &&& t == (AppStateV {
                setup_error: None,
                daemon_launching: true,
                screen: Screen::DaemonCheck,
                ..s
            })
            &&& a matches AppAction::LaunchDaemon { name: Some(n), mnemonic: m }
            &&& n@ == s.device_name
            &&& if s.join_mode {
                m matches Some(x) && x@ == s.mnemonic_input
            } else {
                m is None
            }
        },
        AppEvent::Navigate(screen) => t == (AppStateV { screen, ..s }) && if fetches_on_open(screen) {
            a matches AppAction::FetchFor(x) && x == screen
        } else {
            a is Nothing
        },
        AppEvent::SearchQueryChanged(q) => t == (AppStateV { search_query: q@, ..s }) && a is Nothing,
        AppEvent::SortBy(f) => a is Nothing && if s.sort_field == f {
            t == (AppStateV { sort_ascending: !s.sort_ascending, ..s })
        } else {
            t == (AppStateV { sort_field: f, sort_ascending: true, ..s })
        },
        AppEvent::StartRenameFolder(fid, name) => t == (AppStateV {
            renaming_folder_id: Some(fid@),
            rename_input: name@,
            ..s
        }) && a is Nothing,
        AppEvent::RenameInputChanged(v) => t == (AppStateV { rename_input: v@, ..s }) && a is Nothing,
        AppEvent::CancelRenameFolder => t == (AppStateV { renaming_folder_id: None, rename_input: Seq::empty(), ..s })
            && a is Nothing,
        AppEvent::SubmitRenameFolder => match s.renaming_folder_id {
            Some(fid) => {
                &&& t == (AppStateV { renaming_folder_id: None, rename_input: Seq::empty(), ..s })
                &&& a matches AppAction::RenameFolder { folder_id, name }
                &&& folder_id@ == fid
                &&& name@ == s.rename_input
            },
            None => t == s && a is Nothing,
        },
        AppEvent::LeaveNetworkStart => t == (AppStateV { leave_network_confirm: true, ..s }) && a is Nothing,
        AppEvent::LeaveNetworkCancel => t == (AppStateV { leave_network_confirm: false, ..s }) && a is Nothing,
        AppEvent::LeaveNetworkConfirm => t == (AppStateV { leave_network_confirm: false, ..s }) && a is LeaveNetwork,
        AppEvent::LeftNetwork => t == (AppStateV {
            daemon_running: Some(false),
            screen: Screen::Setup,
            setup_step: SetupStep::ChooseMode,
            daemon_error: None,
            setup_error: None,
            ..s
        }) && a is ForgetNetwork,
        AppEvent::DaemonEvent(kind) => t == s && match event_refresh(kind@, s.screen) {
            Some(r) => match r {
                AppAction::FetchFolders => a is FetchFolders,
                AppAction::FetchConflicts => a is FetchConflicts,
                AppAction::FetchDevices => a is FetchDevices,
                _ => a matches AppAction::FetchFor(x) && x == Screen::Folders,
            },
            None => a is Nothing,
        },
        AppEvent::StatusReceived { device_id, device_name, network_id, peer_count, dag_entries, uptime_secs } => t
            == (AppStateV {
            status_device_id: device_id@,
            status_device_name: device_name@,
            status_network_id: network_id@,
            status_peer_count: peer_count,
            status_dag_entries: dag_entries,
            status_uptime_secs: uptime_secs,
            ..s
        }) && a is Nothing,
        AppEvent::ListReceived(k) => t == s && a == AppAction::StoreList(k),
        AppEvent::ConfigReceived { auto_approve, mdns, upload_throttle, download_throttle, sync_paused, device_name } =>
            t == (AppStateV {
            cfg_auto_approve: auto_approve,
            cfg_mdns: mdns,
            cfg_upload_throttle: upload_throttle,
            cfg_download_throttle: download_throttle,
            sync_paused,
            status_device_name: device_name@,
            ..s
        }) && a is Nothing,
        AppEvent::IgnorePatternsReceived(p) => t == (AppStateV { folder_ignore_patterns: p@, ..s }) && a is Nothing,
        AppEvent::StorageStatsReceived(st) => t == (AppStateV { storage_stats: Some(st), ..s }) && a is Nothing,
        AppEvent::ConnectivityReceived { relay_reachable, latency_ms } => t == (AppStateV {
            connectivity_result: Some((relay_reachable, latency_ms)),
            ..s
        }) && a is Nothing,
        AppEvent::Reclaimed { blobs_removed, freed_text } => t == (AppStateV {
            settings_toast: Some(reclaim_toast(blobs_removed, freed_text@)),
            ..s
        }) && a is FetchStorageStats,
        AppEvent::GenericOk => t == s && a is FetchFoldersAndConflicts,
        AppEvent::GenericOther => t == s && a is Nothing,
        AppEvent::ReplyFailed(err) => a is Nothing && if s.daemon_running == Some(true) {
            t == (AppStateV { daemon_error: Some(err@), ..s })
        } else {
            t == s
        },
        AppEvent::CreateFolderFromPicker => t == s && a is PickNewFolder,
        AppEvent::PickedNewFolder(p) => t == s && match p {
            Some((name, path)) => sends(a, RequestV::CreateFolder { name: name@, local_path: Some(path@) }),
            None => a is Nothing,
        },
        AppEvent::SubscribeFolder(fid, fname) => {
            &&& t == s
            &&& a matches AppAction::PickDirectory { folder_id, folder_name }
            &&& folder_id@ == fid@
            &&& folder_name@ == fname@
        },
        AppEvent::PickedFolderPath(fid, fname, path) => t == s && match path {
            Some(lp) => sends(
                a,
                RequestV::SubscribeFolder {
                    folder_id: fid@,
                    name: Some(fname@),
                    local_path: lp@,
                    mode: "read-write"@,
                },
            ),
            None => a is Nothing,
        },
        AppEvent::UnsubscribeFolder(fid) => t == (AppStateV {
            selected_folder_id: None,
            screen: Screen::Folders,
            ..s
        }) && sends(a, RequestV::UnsubscribeFolder { folder_id: fid@, keep_local: true }),
        AppEvent::SelectFolder(fid) => {
            &&& t == (AppStateV { selected_folder_id: Some(fid@), screen: Screen::FolderDetail, ..s })
            &&& a matches AppAction::OpenFolder(x)
            &&& x@ == fid@
        },
        AppEvent::ResolveConflict { folder_id, path, chosen_hash } => t == s && sends(
            a,
            RequestV::ResolveConflict { folder_id: folder_id@, path: path@, chosen_hash: chosen_hash@ },
        ),
        AppEvent::DismissConflict { folder_id, path } => t == s && sends(
            a,
            RequestV::DismissConflict { folder_id: folder_id@, path: path@ },
        ),
        AppEvent::BulkResolve { folder_id, strategy } => t == s && sends(
            a,
            RequestV::BulkResolveConflicts { folder_id: folder_id@, strategy: strategy@ },
        ),
        AppEvent::ViewFileHistory { folder_id, path } => t == (AppStateV {
            history_folder_id: folder_id@,
            history_path: path@,
            screen: Screen::FileHistory,
            ..s
        }) && sends(a, RequestV::FileHistory { folder_id: folder_id@, path: path@ }),
        AppEvent::RestoreVersion { folder_id, path, blob_hash } => t == s && sends(
            a,
            RequestV::RestoreFileVersion { folder_id: folder_id@, path: path@, blob_hash: blob_hash@ },
        ),
        AppEvent::DeleteFile { folder_id, path } => t == s && sends(
            a,
            RequestV::DeleteFile { folder_id: folder_id@, path: path@ },
        ),
        AppEvent::ApproveDevice(did) => t == s && sends(a, RequestV::ApproveDevice { device_id: did@, role: "full"@ }),
        AppEvent::ToggleGlobalSync => t == (AppStateV { sync_paused: !s.sync_paused, ..s }) && sends(
            a,
            if s.sync_paused {
                RequestV::ResumeSync
            } else {
                RequestV::PauseSync
            },
        ),
        AppEvent::ToggleFolderSync(fid) => t == (AppStateV { folder_paused: !s.folder_paused, ..s }) && sends(
            a,
            if s.folder_paused {
                RequestV::ResumeFolderSync { folder_id: fid@ }
            } else {
                RequestV::PauseFolderSync { folder_id: fid@ }
            },
        ),
        AppEvent::ToggleAutoApprove => t == (AppStateV { cfg_auto_approve: !s.cfg_auto_approve, ..s }) && sends(
            a,
            RequestV::SetAutoApprove { enabled: !s.cfg_auto_approve },
        ),
        AppEvent::ToggleMdns => t == (AppStateV { cfg_mdns: !s.cfg_mdns, ..s }) && sends(
            a,
            RequestV::SetMdns { enabled: !s.cfg_mdns },
        ),
        AppEvent::SetThrottle(up, down) => t == (AppStateV {
            cfg_upload_throttle: up,
            cfg_download_throttle: down,
            ..s
        }) && sends(a, RequestV::SetThrottle { upload_bytes_per_sec: up, download_bytes_per_sec: down }),
        AppEvent::ReclaimOrphanedBlobs => t == s && sends(a, RequestV::ReclaimOrphanedBlobs),
        AppEvent::FolderIgnorePatternsChanged(p) => t == (AppStateV { folder_ignore_patterns: p@, ..s }) && a is Nothing,
        AppEvent::SaveIgnorePatterns(fid) => t == s && sends(
            a,
            RequestV::SetIgnorePatterns { folder_id: fid@, patterns: s.folder_ignore_patterns },
        ),
        AppEvent::RunConnectivityCheck => t == (AppStateV { connectivity_result: None, ..s }) && sends(
            a,
            RequestV::RunConnectivityCheck,
        ),
        AppEvent::ExportDiagnostics(path) => t == s && sends(a, RequestV::ExportDiagnostics { output_path: path@ }),
        AppEvent::Tick => t == s && a is FetchStatus,
    }
}

fn on_daemon_checked(state: &mut AppState, event: AppEvent) -> (res: AppAction)
    requires
        event is DaemonChecked,
    ensures
        app_next(old(state)@, event, final(state)@, res),
{
    proof {
        reveal(app_next);
    }
    match event {
        AppEvent::DaemonChecked { running, config_exists } => {
            state.daemon_running = Some(running);
            if running {
                return AppAction::ConnectAfterDelay;
            }
            if state.daemon_launching {
                return AppAction::Nothing;
            }
            if config_exists {
                state.daemon_error = None;
                state.daemon_launching = true;
                return AppAction::LaunchDaemon { name: None, mnemonic: None };
            }
            state.screen = Screen::Setup;
            AppAction::Nothing
        },
        _ => AppAction::Nothing,
    }
}

fn on_daemon_launched(state: &mut AppState, event: AppEvent) -> (res: AppAction)
    requires
        event is DaemonLaunched,
    ensures
        app_next(old(state)@, event, final(state)@, res),
{
    proof {
        reveal(app_next);
    }
    match event {
        AppEvent::DaemonLaunched(r) => {
            state.daemon_launching = false;
            match r {
                Ok(()) => {
                    state.daemon_running = Some(true);
                    state.screen = Screen::Folders;
                    AppAction::FetchAll
                },
                Err(m) => {
                    state.daemon_running = Some(false);
                    state.daemon_error = Some(m);
                    state.screen = Screen::DaemonCheck;
                    AppAction::Nothing
                },
            }
        },
        _ => AppAction::Nothing,
    }
}

fn on_daemon_connected(state: &mut AppState, event: AppEvent) -> (res: AppAction)
    requires
        event is DaemonConnected,
    ensures
        app_next(old(state)@, event, final(state)@, res),
{
    proof {
        reveal(app_next);
    }
    match event {
        AppEvent::DaemonConnected => {
            state.screen = Screen::Folders;
            AppAction::FetchAll
        },
        _ => AppAction::Nothing,
    }
}

fn on_retry_daemon_check(state: &mut AppState, event: AppEvent) -> (res: AppAction)
    requires
        event is RetryDaemonCheck,
    ensures
        app_next(old(state)@, event, final(state)@, res),
{
    proof {
        reveal(app_next);
    }
    match event {
        AppEvent::RetryDaemonCheck => {
            state.daemon_running = None;
            state.daemon_error = None;
            state.daemon_launching = false;
            state.screen = Screen::DaemonCheck;
            AppAction::CheckDaemon
        },
        _ => AppAction::Nothing,
    }
}

fn on_setup_choose_create(state: &mut AppState, event: AppEvent) -> (res: AppAction)
    requires
        event is SetupChooseCreate,
    ensures
        app_next(old(state)@, event, final(state)@, res),
{
    proof {
        reveal(app_next);
    }
    match event {
        AppEvent::SetupChooseCreate => {
            state.join_mode = false;
            state.setup_step = SetupStep::Form;
            state.setup_error = None;
            AppAction::Nothing
        },
        _ => AppAction::Nothing,
    }
}

fn on_setup_choose_join(state: &mut AppState, event: AppEvent) -> (res: AppAction)
    requires
        event is SetupChooseJoin,
    ensures
        app_next(old(state)@, event, final(state)@, res),
{
    proof {
        reveal(app_next);
    }
    match event {
        AppEvent::SetupChooseJoin => {
            state.join_mode = true;
            state.setup_step = SetupStep::Form;
            state.setup_error = None;
            AppAction::Nothing
        },
        _ => AppAction::Nothing,
    }
}

fn on_setup_back(state: &mut AppState, event: AppEvent) -> (res: AppAction)
    requires
        event is SetupBack,
    ensures
        app_next(old(state)@, event, final(state)@, res),
{
    proof {
        reveal(app_next);
    }
    match event {
        AppEvent::SetupBack => {
            state.setup_step = SetupStep::ChooseMode;
            state.setup_error = None;
            AppAction::Nothing
        },
        _ => AppAction::Nothing,
    }
}

fn on_device_name_changed(state: &mut AppState, event: AppEvent) -> (res: AppAction)
    requires
        event is DeviceNameChanged,
    ensures
        app_next(old(state)@, event, final(state)@, res),
{
    proof {
        reveal(app_next);
    }
    match event {
        AppEvent::DeviceNameChanged(n) => {
            state.device_name = n;
            AppAction::Nothing
        },
        _ => AppAction::Nothing,
    }
}

fn on_mnemonic_input_changed(state: &mut AppState, event: AppEvent) -> (res: AppAction)
    requires
        event is MnemonicInputChanged,
    ensures
        app_next(old(state)@, event, final(state)@, res),
{
    proof {
        reveal(app_next);
    }
    match event {
        AppEvent::MnemonicInputChanged(m) => {
            state.mnemonic_input = m;
            AppAction::Nothing
        },
        _ => AppAction::Nothing,
    }
}

fn on_start_daemon(state: &mut AppState, event: AppEvent) -> (res: AppAction)
    requires
        event is StartDaemon,
    ensures
        app_next(old(state)@, event, final(state)@, res),
{
    proof {
        reveal(app_next);
    }
    match event {
        AppEvent::StartDaemon => {
            state.setup_error = None;
            state.daemon_launching = true;
            state.screen = Screen::DaemonCheck;
            let m = if state.join_mode {
                Some(state.mnemonic_input.clone())
            } else {
                None
            };
            let n = state.device_name.clone();
            AppAction::LaunchDaemon { name: Some(n), mnemonic: m }
        },
        _ => AppAction::Nothing,
    }
}

fn on_navigate(state: &mut AppState, event: AppEvent) -> (res: AppAction)
    requires
        event is Navigate,
    ensures
        app_next(old(state)@, event, final(state)@, res),
{
    proof {
        reveal(app_next);
    }
    match event {
        AppEvent::Navigate(screen) => {
            state.screen = screen;
            match screen {
                Screen::Folders | Screen::Conflicts | Screen::Devices | Screen::Status | Screen::Settings
                | Screen::NetworkHealth => AppAction::FetchFor(screen),
                _ => AppAction::Nothing,
            }
        },
        _ => AppAction::Nothing,
    }
}

fn on_search_query_changed(state: &mut AppState, event: AppEvent) -> (res: AppAction)
    requires
        event is SearchQueryChanged,
    ensures
        app_next(old(state)@, event, final(state)@, res),
{
    proof {
        reveal(app_next);
    }
    match event {
        AppEvent::SearchQueryChanged(q) => {
            state.search_query = q;
            AppAction::Nothing
        },
        _ => AppAction::Nothing,
    }
}

fn on_sort_by(state: &mut AppState, event: AppEvent) -> (res: AppAction)
    requires
        event is SortBy,
    ensures
        app_next(old(state)@, event, final(state)@, res),
{
    proof {
        reveal(app_next);
    }
    match event {
        AppEvent::SortBy(f) => {
            if state.sort_field == f {
                state.sort_ascending = !state.sort_ascending;
            } else {
                state.sort_field = f;
                state.sort_ascending = true;
            }
            AppAction::Nothing
        },
        _ => AppAction::Nothing,
    }
}

fn on_start_rename_folder(state: &mut AppState, event: AppEvent) -> (res: AppAction)
    requires
        event is StartRenameFolder,
    ensures
        app_next(old(state)@, event, final(state)@, res),
{
    proof {
        reveal(app_next);
    }
    match event {
        AppEvent::StartRenameFolder(fid, name) => {
            state.renaming_folder_id = Some(fid);
            state.rename_input = name;
            AppAction::Nothing
        },
        _ => AppAction::Nothing,
    }
}

fn on_rename_input_changed(state: &mut AppState, event: AppEvent) -> (res: AppAction)
    requires
        event is RenameInputChanged,
    ensures
        app_next(old(state)@, event, final(state)@, res),
{
    proof {
        reveal(app_next);
    }
    match event {
        AppEvent::RenameInputChanged(v) => {
            state.rename_input = v;
            AppAction::Nothing
        },
        _ => AppAction::Nothing,
    }
}

fn on_cancel_rename_folder(state: &mut AppState, event: AppEvent) -> (res: AppAction)
    requires
        event is CancelRenameFolder,
    ensures
        app_next(old(state)@, event, final(state)@, res),
{
    proof {
        reveal(app_next);
    }
    match event {
        AppEvent::CancelRenameFolder => {
            state.renaming_folder_id = None;
            state.rename_input = String::new();
            AppAction::Nothing
        },
        _ => AppAction::Nothing,
    }
}

fn on_submit_rename_folder(state: &mut AppState, event: AppEvent) -> (res: AppAction)
    requires
        event is SubmitRenameFolder,
    ensures
        app_next(old(state)@, event, final(state)@, res),
{
    proof {
        reveal(app_next);
    }
    match event {
        AppEvent::SubmitRenameFolder => {
            match state.renaming_folder_id.take() {
                Some(fid) => {
                    let name = state.rename_input.clone();
                    state.rename_input = String::new();
                    AppAction::RenameFolder { folder_id: fid, name }
                },
                None => AppAction::Nothing,
            }
        },
        _ => AppAction::Nothing,
    }
}

fn on_leave_network_start(state: &mut AppState, event: AppEvent) -> (res: AppAction)
    requires
        event is LeaveNetworkStart,
    ensures
        app_next(old(state)@, event, final(state)@, res),
{
    proof {
        reveal(app_next);
    }
    match event {
        AppEvent::LeaveNetworkStart => {
            state.leave_network_confirm = true;
            AppAction::Nothing
        },
        _ => AppAction::Nothing,
    }
}

fn on_leave_network_cancel(state: &mut AppState, event: AppEvent) -> (res: AppAction)
    requires
        event is LeaveNetworkCancel,
    ensures
        app_next(old(state)@, event, final(state)@, res),
{
    proof {
        reveal(app_next);
    }
    match event {
        AppEvent::LeaveNetworkCancel => {
            state.leave_network_confirm = false;
            AppAction::Nothing
        },
        _ => AppAction::Nothing,
    }
}

fn on_leave_network_confirm(state: &mut AppState, event: AppEvent) -> (res: AppAction)
    requires
        event is LeaveNetworkConfirm,
    ensures
        app_next(old(state)@, event, final(state)@, res),
{
    proof {
        reveal(app_next);
    }
    match event {
        AppEvent::LeaveNetworkConfirm => {
            state.leave_network_confirm = false;
            AppAction::LeaveNetwork
        },
        _ => AppAction::Nothing,
    }
}

fn on_left_network(state: &mut AppState, event: AppEvent) -> (res: AppAction)
    requires
        event is LeftNetwork,
    ensures
        app_next(old(state)@, event, final(state)@, res),
{
    proof {
        reveal(app_next);
    }
    match event {
        AppEvent::LeftNetwork => {
            state.daemon_running = Some(false);
            state.screen = Screen::Setup;
            state.setup_step = SetupStep::ChooseMode;
            state.daemon_error = None;
            state.setup_error = None;
            AppAction::ForgetNetwork
        },
        _ => AppAction::Nothing,
    }
}

fn on_daemon_event(state: &mut AppState, event: AppEvent) -> (res: AppAction)
    requires
        event is DaemonEvent,
    ensures
        app_next(old(state)@, event, final(state)@, res),
{
    proof {
        reveal(app_next);
    }
    match event {
        AppEvent::DaemonEvent(kind) => {
            let k = kind.as_str();
            if str_eq(k, "file_synced") || str_eq(k, "dag_synced") {
                AppAction::FetchFolders
            } else if str_eq(k, "conflict_detected") {
                AppAction::FetchConflicts
            } else if (str_eq(k, "device_approved") || str_eq(k, "device_join_requested")) && state.screen
                == Screen::Devices {
                AppAction::FetchDevices
            } else if str_eq(k, "folder_created") {
                AppAction::FetchFor(Screen::Folders)
            } else {
                AppAction::Nothing
            }
        },
        _ => AppAction::Nothing,
    }
}

fn on_status_received(state: &mut AppState, event: AppEvent) -> (res: AppAction)
    requires
        event is StatusReceived,
    ensures
        app_next(old(state)@, event, final(state)@, res),
{
    proof {
        reveal(app_next);
    }
    match event {
        AppEvent::StatusReceived { device_id, device_name, network_id, peer_count, dag_entries, uptime_secs } => {
            state.status_device_id = device_id;
            state.status_device_name = device_name;
            state.status_network_id = network_id;
            state.status_peer_count = peer_count;
            state.status_dag_entries = dag_entries;
            state.status_uptime_secs = uptime_secs;
            AppAction::Nothing
        },
        _ => AppAction::Nothing,
    }
}

fn on_list_received(state: &mut AppState, event: AppEvent) -> (res: AppAction)
    requires
        event is ListReceived,
    ensures
        app_next(old(state)@, event, final(state)@, res),
{
    proof {
        reveal(app_next);
    }
    match event {
        AppEvent::ListReceived(k) => AppAction::StoreList(k),
        _ => AppAction::Nothing,
    }
}

fn on_config_received(state: &mut AppState, event: AppEvent) -> (res: AppAction)
    requires
        event is ConfigReceived,
    ensures
        app_next(old(state)@, event, final(state)@, res),
{
    proof {
        reveal(app_next);
    }
    match event {
        AppEvent::ConfigReceived { auto_approve, mdns, upload_throttle, download_throttle, sync_paused, device_name } => {
            state.cfg_auto_approve = auto_approve;
            state.cfg_mdns = mdns;
            state.cfg_upload_throttle = upload_throttle;
            state.cfg_download_throttle = download_throttle;
            state.sync_paused = sync_paused;
            state.status_device_name = device_name;
            AppAction::Nothing
        },
        _ => AppAction::Nothing,
    }
}

fn on_ignore_patterns_received(state: &mut AppState, event: AppEvent) -> (res: AppAction)
    requires
        event is IgnorePatternsReceived,
    ensures
        app_next(old(state)@, event, final(state)@, res),
{
    proof {
        reveal(app_next);
    }
    match event {
        AppEvent::IgnorePatternsReceived(p) => {
            state.folder_ignore_patterns = p;
            AppAction::Nothing
        },
        _ => AppAction::Nothing,
    }
}

fn on_storage_stats_received(state: &mut AppState, event: AppEvent) -> (res: AppAction)
    requires
        event is StorageStatsReceived,
    ensures
        app_next(old(state)@, event, final(state)@, res),
{
    proof {
        reveal(app_next);
    }
    match event {
        AppEvent::StorageStatsReceived(st) => {
            state.storage_stats = Some(st);
            AppAction::Nothing
        },
        _ => AppAction::Nothing,
    }
}

fn on_connectivity_received(state: &mut AppState, event: AppEvent) -> (res: AppAction)
    requires
        event is ConnectivityReceived,
    ensures
        app_next(old(state)@, event, final(state)@, res),
{
    proof {
        reveal(app_next);
    }
    match event {
        AppEvent::ConnectivityReceived { relay_reachable, latency_ms } => {
            state.connectivity_result = Some((relay_reachable, latency_ms));
            AppAction::Nothing
        },
        _ => AppAction::Nothing,
    }
}

fn on_reclaimed(state: &mut AppState, event: AppEvent) -> (res: AppAction)
    requires
        event is Reclaimed,
    ensures
        app_next(old(state)@, event, final(state)@, res),
{
    proof {
        reveal(app_next);
    }
    match event {
        AppEvent::Reclaimed { blobs_removed, freed_text } => {
            let a = concat("Reclaimed ", decimal(blobs_removed).as_str());
            let b = concat(a.as_str(), " blobs, ");
            let c = concat(b.as_str(), freed_text.as_str());
            state.settings_toast = Some(concat(c.as_str(), " freed"));
            AppAction::FetchStorageStats
        },
        _ => AppAction::Nothing,
    }
}

fn on_generic_ok(state: &mut AppState, event: AppEvent) -> (res: AppAction)
    requires
        event is GenericOk,
    ensures
        app_next(old(state)@, event, final(state)@, res),
{
    proof {
        reveal(app_next);
    }
    match event {
        AppEvent::GenericOk => AppAction::FetchFoldersAndConflicts,
        _ => AppAction::Nothing,
    }
}

fn on_generic_other(state: &mut AppState, event: AppEvent) -> (res: AppAction)
    requires
        event is GenericOther,
    ensures
        app_next(old(state)@, event, final(state)@, res),
{
    proof {
        reveal(app_next);
    }
    match event {
        AppEvent::GenericOther => AppAction::Nothing,
        _ => AppAction::Nothing,
    }
}

fn on_reply_failed(state: &mut AppState, event: AppEvent) -> (res: AppAction)
    requires
        event is ReplyFailed,
    ensures
        app_next(old(state)@, event, final(state)@, res),
{
    proof {
        reveal(app_next);
    }
    match event {
        AppEvent::ReplyFailed(err) => {
            if state.daemon_running == Some(true) {
                state.daemon_error = Some(err);
            }
            AppAction::Nothing
        },
        _ => AppAction::Nothing,
    }
}

fn on_tick(state: &mut AppState, event: AppEvent) -> (res: AppAction)
    requires
        event is Tick,
    ensures
        app_next(old(state)@, event, final(state)@, res),
{
    proof {
        reveal(app_next);
    }
    match event {
        AppEvent::Tick => AppAction::FetchStatus,
        _ => AppAction::Nothing,
    }
}

fn on_create_folder_from_picker(state: &mut AppState, event: AppEvent) -> (res: AppAction)
    requires
        event is CreateFolderFromPicker,
    ensures
        app_next(old(state)@, event, final(state)@, res),
{
    proof {
        reveal(app_next);
    }
    match event {
        AppEvent::CreateFolderFromPicker => AppAction::PickNewFolder,
        _ => AppAction::Nothing,
    }
}

fn on_picked_new_folder(state: &mut AppState, event: AppEvent) -> (res: AppAction)
    requires
        event is PickedNewFolder,
    ensures
        app_next(old(state)@, event, final(state)@, res),
{
    proof {
        reveal(app_next);
    }
    match event {
        AppEvent::PickedNewFolder(p) => match p {
            Some((name, path)) => AppAction::Send(Request::CreateFolder { name, local_path: Some(path) }),
            None => AppAction::Nothing,
        },
        _ => AppAction::Nothing,
    }
}

fn on_subscribe_folder(state: &mut AppState, event: AppEvent) -> (res: AppAction)
    requires
        event is SubscribeFolder,
    ensures
        app_next(old(state)@, event, final(state)@, res),
{
    proof {
        reveal(app_next);
    }
    match event {
        AppEvent::SubscribeFolder(fid, fname) => AppAction::PickDirectory { folder_id: fid, folder_name: fname },
        _ => AppAction::Nothing,
    }
}

fn on_picked_folder_path(state: &mut AppState, event: AppEvent) -> (res: AppAction)
    requires
        event is PickedFolderPath,
    ensures
        app_next(old(state)@, event, final(state)@, res),
{
    proof {
        reveal(app_next);
    }
    match event {
        AppEvent::PickedFolderPath(fid, fname, path) => match path {
            Some(lp) => AppAction::Send(
                Request::SubscribeFolder {
                    folder_id: fid,
                    name: Some(fname),
                    local_path: lp,
                    mode: String::from_str("read-write"),
                },
            ),
            None => AppAction::Nothing,
        },
        _ => AppAction::Nothing,
    }
}

fn on_unsubscribe_folder(state: &mut AppState, event: AppEvent) -> (res: AppAction)
    requires
        event is UnsubscribeFolder,
    ensures
        app_next(old(state)@, event, final(state)@, res),
{
    proof {
        reveal(app_next);
    }
    match event {
        AppEvent::UnsubscribeFolder(fid) => {
            state.selected_folder_id = None;
            state.screen = Screen::Folders;
            AppAction::Send(Request::UnsubscribeFolder { folder_id: fid, keep_local: true })
        },
        _ => AppAction::Nothing,
    }
}

fn on_select_folder(state: &mut AppState, event: AppEvent) -> (res: AppAction)
    requires
        event is SelectFolder,
    ensures
        app_next(old(state)@, event, final(state)@, res),
{
    proof {
        reveal(app_next);
    }
    match event {
        AppEvent::SelectFolder(fid) => {
            state.selected_folder_id = Some(fid.clone());
            state.screen = Screen::FolderDetail;
            AppAction::OpenFolder(fid)
        },
        _ => AppAction::Nothing,
    }
}

fn on_resolve_conflict(state: &mut AppState, event: AppEvent) -> (res: AppAction)
    requires
        event is ResolveConflict,
    ensures
        app_next(old(state)@, event, final(state)@, res),
{
    proof {
        reveal(app_next);
    }
    match event {
        AppEvent::ResolveConflict { folder_id, path, chosen_hash } => AppAction::Send(
            Request::ResolveConflict { folder_id, path, chosen_hash },
        ),
        _ => AppAction::Nothing,
    }
}

fn on_dismiss_conflict(state: &mut AppState, event: AppEvent) -> (res: AppAction)
    requires
        event is DismissConflict,
    ensures
        app_next(old(state)@, event, final(state)@, res),
{
    proof {
        reveal(app_next);
    }
    match event {
        AppEvent::DismissConflict { folder_id, path } => AppAction::Send(Request::DismissConflict { folder_id, path }),
        _ => AppAction::Nothing,
    }
}

fn on_bulk_resolve(state: &mut AppState, event: AppEvent) -> (res: AppAction)
    requires
        event is BulkResolve,
    ensures
        app_next(old(state)@, event, final(state)@, res),
{
    proof {
        reveal(app_next);
    }
    match event {
        AppEvent::BulkResolve { folder_id, strategy } => AppAction::Send(
            Request::BulkResolveConflicts { folder_id, strategy },
        ),
        _ => AppAction::Nothing,
    }
}

fn on_view_file_history(state: &mut AppState, event: AppEvent) -> (res: AppAction)
    requires
        event is ViewFileHistory,
    ensures
        app_next(old(state)@, event, final(state)@, res),
{
    proof {
        reveal(app_next);
    }
    match event {
        AppEvent::ViewFileHistory { folder_id, path } => {
            state.history_folder_id = folder_id.clone();
            state.history_path = path.clone();
            state.screen = Screen::FileHistory;
            AppAction::Send(Request::FileHistory { folder_id, path })
        },
        _ => AppAction::Nothing,
    }
}

fn on_restore_version(state: &mut AppState, event: AppEvent) -> (res: AppAction)
    requires
        event is RestoreVersion,
    ensures
        app_next(old(state)@, event, final(state)@, res),
{
    proof {
        reveal(app_next);
    }
    match event {
        AppEvent::RestoreVersion { folder_id, path, blob_hash } => AppAction::Send(
            Request::RestoreFileVersion { folder_id, path, blob_hash },
        ),
        _ => AppAction::Nothing,
    }
}

fn on_delete_file(state: &mut AppState, event: AppEvent) -> (res: AppAction)
    requires
        event is DeleteFile,
    ensures
        app_next(old(state)@, event, final(state)@, res),
{
    proof {
        reveal(app_next);
    }
    match event {
        AppEvent::DeleteFile { folder_id, path } => AppAction::Send(Request::DeleteFile { folder_id, path }),
        _ => AppAction::Nothing,
    }
}

fn on_approve_device(state: &mut AppState, event: AppEvent) -> (res: AppAction)
    requires
        event is ApproveDevice,
    ensures
        app_next(old(state)@, event, final(state)@, res),
{
    proof {
        reveal(app_next);
    }
    match event {
        AppEvent::ApproveDevice(did) => AppAction::Send(
            Request::ApproveDevice { device_id: did, role: String::from_str("full") },
        ),
        _ => AppAction::Nothing,
    }
}

fn on_toggle_global_sync(state: &mut AppState, event: AppEvent) -> (res: AppAction)
    requires
        event is ToggleGlobalSync,
    ensures
        app_next(old(state)@, event, final(state)@, res),
{
    proof {
        reveal(app_next);
    }
    match event {
        AppEvent::ToggleGlobalSync => {
            let req = if state.sync_paused {
                Request::ResumeSync
            } else {
                Request::PauseSync
            };
            state.sync_paused = !state.sync_paused;
            AppAction::Send(req)
        },
        _ => AppAction::Nothing,
    }
}

fn on_toggle_folder_sync(state: &mut AppState, event: AppEvent) -> (res: AppAction)
    requires
        event is ToggleFolderSync,
    ensures
        app_next(old(state)@, event, final(state)@, res),
{
    proof {
        reveal(app_next);
    }
    match event {
        AppEvent::ToggleFolderSync(fid) => {
            let req = if state.folder_paused {
                Request::ResumeFolderSync { folder_id: fid }
            } else {
                Request::PauseFolderSync { folder_id: fid }
            };
            state.folder_paused = !state.folder_paused;
            AppAction::Send(req)
        },
        _ => AppAction::Nothing,
    }
}

fn on_toggle_auto_approve(state: &mut AppState, event: AppEvent) -> (res: AppAction)
    requires
        event is ToggleAutoApprove,
    ensures
        app_next(old(state)@, event, final(state)@, res),
{
    proof {
        reveal(app_next);
    }
    match event {
        AppEvent::ToggleAutoApprove => {
            state.cfg_auto_approve = !state.cfg_auto_approve;
            AppAction::Send(Request::SetAutoApprove { enabled: state.cfg_auto_approve })
        },
        _ => AppAction::Nothing,
    }
}

fn on_toggle_mdns(state: &mut AppState, event: AppEvent) -> (res: AppAction)
    requires
        event is ToggleMdns,
    ensures
        app_next(old(state)@, event, final(state)@, res),
{
    proof {
        reveal(app_next);
    }
    match event {
        AppEvent::ToggleMdns => {
            state.cfg_mdns = !state.cfg_mdns;
            AppAction::Send(Request::SetMdns { enabled: state.cfg_mdns })
        },
        _ => AppAction::Nothing,
    }
}

fn on_set_throttle(state: &mut AppState, event: AppEvent) -> (res: AppAction)
    requires
        event is SetThrottle,
    ensures
        app_next(old(state)@, event, final(state)@, res),
{
    proof {
        reveal(app_next);
    }
    match event {
        AppEvent::SetThrottle(up, down) => {
            state.cfg_upload_throttle = up;
            state.cfg_download_throttle = down;
            AppAction::Send(Request::SetThrottle { upload_bytes_per_sec: up, download_bytes_per_sec: down })
        },
        _ => AppAction::Nothing,
    }
}

fn on_reclaim_orphaned_blobs(state: &mut AppState, event: AppEvent) -> (res: AppAction)
    requires
        event is ReclaimOrphanedBlobs,
    ensures
        app_next(old(state)@, event, final(state)@, res),
{
    proof {
        reveal(app_next);
    }
    match event {
        AppEvent::ReclaimOrphanedBlobs => AppAction::Send(Request::ReclaimOrphanedBlobs),
        _ => AppAction::Nothing,
    }
}

fn on_folder_ignore_patterns_changed(state: &mut AppState, event: AppEvent) -> (res: AppAction)
    requires
        event is FolderIgnorePatternsChanged,
    ensures
        app_next(old(state)@, event, final(state)@, res),
{
    proof {
        reveal(app_next);
    }
    match event {
        AppEvent::FolderIgnorePatternsChanged(p) => {
            state.folder_ignore_patterns = p;
            AppAction::Nothing
        },
        _ => AppAction::Nothing,
    }
}

fn on_save_ignore_patterns(state: &mut AppState, event: AppEvent) -> (res: AppAction)
    requires
        event is SaveIgnorePatterns,
    ensures
        app_next(old(state)@, event, final(state)@, res),
{
    proof {
        reveal(app_next);
    }
    match event {
        AppEvent::SaveIgnorePatterns(fid) => AppAction::Send(
            Request::SetIgnorePatterns { folder_id: fid, patterns: state.folder_ignore_patterns.clone() },
        ),
        _ => AppAction::Nothing,
    }
}

fn on_run_connectivity_check(state: &mut AppState, event: AppEvent) -> (res: AppAction)
    requires
        event is RunConnectivityCheck,
    ensures
        app_next(old(state)@, event, final(state)@, res),
{
    proof {
        reveal(app_next);
    }
    match event {
        AppEvent::RunConnectivityCheck => {
            state.connectivity_result = None;
            AppAction::Send(Request::RunConnectivityCheck)
        },
        _ => AppAction::Nothing,
    }
}

fn on_export_diagnostics(state: &mut AppState, event: AppEvent) -> (res: AppAction)
    requires
        event is ExportDiagnostics,
    ensures
        app_next(old(state)@, event, final(state)@, res),
{
    proof {
        reveal(app_next);
    }
    match event {
        AppEvent::ExportDiagnostics(path) => AppAction::Send(Request::ExportDiagnostics { output_path: path }),
        _ => AppAction::Nothing,
    }
}

/// Moves the app on `event`: a running daemon is connected to; without
/// one, a network set up before is started again and otherwise the setup
/// wizard is shown; a start that fails stays on the daemon screen with its
/// error; choosing a column that is already the sort column reverses the
/// order; a folder rename is sent once submitted; leaving the network
/// waits for a confirmation and ends on the setup wizard; pushed daemon
/// events refresh what they change; replies fill in the status, the
/// configuration and the settings screen, and a failed reply is shown as
/// the daemon's error only while the daemon runs; the folder, conflict,
/// device and settings actions become requests to the daemon. Returns the
/// work the platform does next.
pub fn app_step(state: &mut AppState, event: AppEvent) -> (res: AppAction)
    ensures
        app_next(old(state)@, event, final(state)@, res),
{
    match event {
        AppEvent::DaemonChecked { running, config_exists } => on_daemon_checked(state, AppEvent::DaemonChecked { running, config_exists }),
        AppEvent::DaemonLaunched(r) => on_daemon_launched(state, AppEvent::DaemonLaunched(r)),
        AppEvent::DaemonConnected => on_daemon_connected(state, AppEvent::DaemonConnected),
        AppEvent::RetryDaemonCheck => on_retry_daemon_check(state, AppEvent::RetryDaemonCheck),
        AppEvent::SetupChooseCreate => on_setup_choose_create(state, AppEvent::SetupChooseCreate),
        AppEvent::SetupChooseJoin => on_setup_choose_join(state, AppEvent::SetupChooseJoin),
        AppEvent::SetupBack => on_setup_back(state, AppEvent::SetupBack),
        AppEvent::DeviceNameChanged(n) => on_device_name_changed(state, AppEvent::DeviceNameChanged(n)),
        AppEvent::MnemonicInputChanged(m) => on_mnemonic_input_changed(state, AppEvent::MnemonicInputChanged(m)),
        AppEvent::StartDaemon => on_start_daemon(state, AppEvent::StartDaemon),
        AppEvent::Navigate(screen) => on_navigate(state, AppEvent::Navigate(screen)),
        AppEvent::SearchQueryChanged(q) => on_search_query_changed(state, AppEvent::SearchQueryChanged(q)),
        AppEvent::SortBy(f) => on_sort_by(state, AppEvent::SortBy(f)),
        AppEvent::StartRenameFolder(fid, name) => on_start_rename_folder(state, AppEvent::StartRenameFolder(fid, name)),
        AppEvent::RenameInputChanged(v) => on_rename_input_changed(state, AppEvent::RenameInputChanged(v)),
        AppEvent::CancelRenameFolder => on_cancel_rename_folder(state, AppEvent::CancelRenameFolder),
        AppEvent::SubmitRenameFolder => on_submit_rename_folder(state, AppEvent::SubmitRenameFolder),
        AppEvent::LeaveNetworkStart => on_leave_network_start(state, AppEvent::LeaveNetworkStart),
        AppEvent::LeaveNetworkCancel => on_leave_network_cancel(state, AppEvent::LeaveNetworkCancel),
        AppEvent::LeaveNetworkConfirm => on_leave_network_confirm(state, AppEvent::LeaveNetworkConfirm),
        AppEvent::LeftNetwork => on_left_network(state, AppEvent::LeftNetwork),
        AppEvent::DaemonEvent(kind) => on_daemon_event(state, AppEvent::DaemonEvent(kind)),
        AppEvent::StatusReceived { device_id, device_name, network_id, peer_count, dag_entries, uptime_secs } => on_status_received(state, AppEvent::StatusReceived { device_id, device_name, network_id, peer_count, dag_entries, uptime_secs }),
        AppEvent::ListReceived(k) => on_list_received(state, AppEvent::ListReceived(k)),
        AppEvent::ConfigReceived { auto_approve, mdns, upload_throttle, download_throttle, sync_paused, device_name } => on_config_received(state, AppEvent::ConfigReceived { auto_approve, mdns, upload_throttle, download_throttle, sync_paused, device_name }),
        AppEvent::IgnorePatternsReceived(p) => on_ignore_patterns_received(state, AppEvent::IgnorePatternsReceived(p)),
        AppEvent::StorageStatsReceived(st) => on_storage_stats_received(state, AppEvent::StorageStatsReceived(st)),
        AppEvent::ConnectivityReceived { relay_reachable, latency_ms } => on_connectivity_received(state, AppEvent::ConnectivityReceived { relay_reachable, latency_ms }),
        AppEvent::Reclaimed { blobs_removed, freed_text } => on_reclaimed(state, AppEvent::Reclaimed { blobs_removed, freed_text }),
        AppEvent::GenericOk => on_generic_ok(state, AppEvent::GenericOk),
        AppEvent::GenericOther => on_generic_other(state, AppEvent::GenericOther),
        AppEvent::ReplyFailed(err) => on_reply_failed(state, AppEvent::ReplyFailed(err)),
        AppEvent::Tick => on_tick(state, AppEvent::Tick),
        AppEvent::CreateFolderFromPicker => on_create_folder_from_picker(state, AppEvent::CreateFolderFromPicker),
        AppEvent::PickedNewFolder(p) => on_picked_new_folder(state, AppEvent::PickedNewFolder(p)),
        AppEvent::SubscribeFolder(fid, fname) => on_subscribe_folder(state, AppEvent::SubscribeFolder(fid, fname)),
        AppEvent::PickedFolderPath(fid, fname, path) => on_picked_folder_path(state, AppEvent::PickedFolderPath(fid, fname, path)),
        AppEvent::UnsubscribeFolder(fid) => on_unsubscribe_folder(state, AppEvent::UnsubscribeFolder(fid)),
        AppEvent::SelectFolder(fid) => on_select_folder(state, AppEvent::SelectFolder(fid)),
        AppEvent::ResolveConflict { folder_id, path, chosen_hash } => on_resolve_conflict(state, AppEvent::ResolveConflict { folder_id, path, chosen_hash }),
        AppEvent::DismissConflict { folder_id, path } => on_dismiss_conflict(state, AppEvent::DismissConflict { folder_id, path }),
        AppEvent::BulkResolve { folder_id, strategy } => on_bulk_resolve(state, AppEvent::BulkResolve { folder_id, strategy }),
        AppEvent::ViewFileHistory { folder_id, path } => on_view_file_history(state, AppEvent::ViewFileHistory { folder_id, path }),
        AppEvent::RestoreVersion { folder_id, path, blob_hash } => on_restore_version(state, AppEvent::RestoreVersion { folder_id, path, blob_hash }),
        AppEvent::DeleteFile { folder_id, path } => on_delete_file(state, AppEvent::DeleteFile { folder_id, path }),
        AppEvent::ApproveDevice(did) => on_approve_device(state, AppEvent::ApproveDevice(did)),
        AppEvent::ToggleGlobalSync => on_toggle_global_sync(state, AppEvent::ToggleGlobalSync),
        AppEvent::ToggleFolderSync(fid) => on_toggle_folder_sync(state, AppEvent::ToggleFolderSync(fid)),
        AppEvent::ToggleAutoApprove => on_toggle_auto_approve(state, AppEvent::ToggleAutoApprove),
        AppEvent::ToggleMdns => on_toggle_mdns(state, AppEvent::ToggleMdns),
        AppEvent::SetThrottle(up, down) => on_set_throttle(state, AppEvent::SetThrottle(up, down)),
        AppEvent::ReclaimOrphanedBlobs => on_reclaim_orphaned_blobs(state, AppEvent::ReclaimOrphanedBlobs),
        AppEvent::FolderIgnorePatternsChanged(p) => on_folder_ignore_patterns_changed(state, AppEvent::FolderIgnorePatternsChanged(p)),
        AppEvent::SaveIgnorePatterns(fid) => on_save_ignore_patterns(state, AppEvent::SaveIgnorePatterns(fid)),
        AppEvent::RunConnectivityCheck => on_run_connectivity_check(state, AppEvent::RunConnectivityCheck),
        AppEvent::ExportDiagnostics(path) => on_export_diagnostics(state, AppEvent::ExportDiagnostics(path)),
    }
}

/// A settings toggle flips its setting, sends the daemon the setting it
/// now has, and changes nothing else.
pub proof fn lemma_toggles_send_new_setting(s: AppStateV, t: AppStateV, a: AppAction, fid: String)
    ensures
        app_next(s, AppEvent::ToggleMdns, t, a) ==> t.cfg_mdns != s.cfg_mdns && sends(
            a,
            RequestV::SetMdns { enabled: t.cfg_mdns },
        ) && t == (AppStateV { cfg_mdns: t.cfg_mdns, ..s }),
        app_next(s, AppEvent::ToggleAutoApprove, t, a) ==> t.cfg_auto_approve != s.cfg_auto_approve && sends(
            a,
            RequestV::SetAutoApprove { enabled: t.cfg_auto_approve },
        ) && t == (AppStateV { cfg_auto_approve: t.cfg_auto_approve, ..s }),
        app_next(s, AppEvent::ToggleGlobalSync, t, a) ==> t.sync_paused != s.sync_paused && sends(
            a,
            if t.sync_paused {
                RequestV::PauseSync
            } else {
                RequestV::ResumeSync
            },
        ) && t == (AppStateV { sync_paused: t.sync_paused, ..s }),
        app_next(s, AppEvent::ToggleFolderSync(fid), t, a) ==> t.folder_paused != s.folder_paused && sends(
            a,
            if t.folder_paused {
                RequestV::PauseFolderSync { folder_id: fid@ }
            } else {
                RequestV::ResumeFolderSync { folder_id: fid@ }
            },
        ) && t == (AppStateV { folder_paused: t.folder_paused, ..s }),
{
    reveal(app_next);
}

/// Setting the throttles keeps the two rates and sends the daemon the
/// rates kept; saving ignore patterns sends the patterns being edited and
/// changes nothing.
pub proof fn lemma_settings_sent_as_kept(s: AppStateV, t: AppStateV, a: AppAction, up: u64, down: u64, fid: String)
    ensures
        app_next(s, AppEvent::SetThrottle(up, down), t, a) ==> t.cfg_upload_throttle == up
            && t.cfg_download_throttle == down && sends(
            a,
            RequestV::SetThrottle {
                upload_bytes_per_sec: t.cfg_upload_throttle,
                download_bytes_per_sec: t.cfg_download_throttle,
            },
        ),
        app_next(s, AppEvent::SaveIgnorePatterns(fid), t, a) ==> t == s && sends(
            a,
            RequestV::SetIgnorePatterns { folder_id: fid@, patterns: t.folder_ignore_patterns },
        ),
{
    reveal(app_next);
}

/// A failed reply shows its error while the daemon runs and is otherwise
/// ignored; nothing else changes and nothing follows.
pub proof fn lemma_failed_reply(s: AppStateV, t: AppStateV, a: AppAction, err: String)
    ensures
        app_next(s, AppEvent::ReplyFailed(err), t, a) ==> a is Nothing && t == (AppStateV {
            daemon_error: t.daemon_error,
            ..s
        }) && (s.daemon_running == Some(true) ==> t.daemon_error == Some(err@)) && (s.daemon_running != Some(
            true,
        ) ==> t == s),
{
    reveal(app_next);
}

/// Choosing a sort column sorts by it: ascending when it is a new column,
/// the other way round when it already was the column.
pub proof fn lemma_sort_choice(s: AppStateV, t: AppStateV, a: AppAction, f: SortField)
    ensures
        app_next(s, AppEvent::SortBy(f), t, a) ==> t.sort_field == f && (s.sort_field == f ==> t.sort_ascending
            != s.sort_ascending) && (s.sort_field != f ==> t.sort_ascending) && t == (AppStateV {
            sort_field: t.sort_field,
            sort_ascending: t.sort_ascending,
            ..s
        }),
{
    reveal(app_next);
}

/// Starting the daemon from the wizard asks for a start under the name
/// typed in, with the mnemonic typed in exactly when joining, and shows the
/// daemon screen while it starts.
pub proof fn lemma_start_from_wizard(s: AppStateV, t: AppStateV, a: AppAction)
    ensures
        app_next(s, AppEvent::StartDaemon, t, a) ==> ({
            &&& a matches AppAction::LaunchDaemon { name: Some(n), mnemonic: m }
            &&& n@ == t.device_name
            &&& (m is Some <==> s.join_mode)
            &&& (m matches Some(x) ==> x@ == t.mnemonic_input)
            &&& t.daemon_launching
            &&& t.screen == Screen::DaemonCheck
        }),
{
    reveal(app_next);
}

/// A failed start shows its error on the daemon screen and is no longer
/// under way; a successful one opens the folders and fetches everything.
pub proof fn lemma_launch_outcome(s: AppStateV, t: AppStateV, a: AppAction, r: Result<(), String>)
    ensures
        app_next(s, AppEvent::DaemonLaunched(r), t, a) ==> !t.daemon_launching && match r {
            Ok(()) => t.daemon_running == Some(true) && t.screen == Screen::Folders && a is FetchAll,
            Err(m) => t.daemon_running == Some(false) && t.daemon_error == Some(m@) && t.screen
                == Screen::DaemonCheck && a is Nothing,
        },
{
    reveal(app_next);
}

/// Submitting a rename sends the name being edited for the folder being
/// renamed and ends the editing; with no folder being renamed it does
/// nothing.
pub proof fn lemma_rename_submit(s: AppStateV, t: AppStateV, a: AppAction)
    ensures
        app_next(s, AppEvent::SubmitRenameFolder, t, a) ==> t.renaming_folder_id is None && match s.renaming_folder_id {
            Some(fid) => {
                &&& a matches AppAction::RenameFolder { folder_id, name }
                &&& folder_id@ == fid
                &&& name@ == s.rename_input
                &&& t.rename_input.len() == 0
            },
            None => t == s && a is Nothing,
        },
{
    reveal(app_next);
}

} // verus!
